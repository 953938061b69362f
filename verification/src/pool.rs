use vstd::prelude::*;

use crate::id::IdGen;
use crate::id::PoolId;

verus! {

/// One storage slot: either a live value or a link in the intrusive free
/// list. A link names the next vacant slot as a (block, offset) pair, or is
/// `None` at the end of the list.
enum Entry<T> {
    Vacant(Option<(usize, usize)>),
    Occupied(T),
}

/// A copyable token naming one slot of one pool: the slot's location (block
/// index and offset inside the block) together with the identity of the
/// pool that issued it. A handle owns nothing and carries no lifetime: it
/// may be stored inside other pooled values, used as a container key, and
/// may outlive the value it names.
#[derive(Clone, Copy, Debug, PartialEq, Eq, Hash, PartialOrd, Ord, Structural)]
pub struct Ptr {
    block: usize,
    offset: usize,
    pool_id: PoolId,
}

/// A borrowed view of one stored value, produced by a successful lookup.
/// It remembers the slot it came from, so the handle can be rebuilt from it
/// without another validation.
#[derive(Clone, Copy)]
pub struct Ref<'a, T> {
    value: &'a T,
    block: usize,
    offset: usize,
    pool_id: PoolId,
}

/// A pool of values of type `T`: an ordered sequence of fixed-capacity
/// blocks of slots, grown one block at a time and never shrunk or
/// compacted, with all vacant slots threaded into a singly linked free
/// list for constant-time allocation and reuse.
pub struct Pool<T> {
    blocks: Vec<Vec<Entry<T>>>,
    vacant: Option<(usize, usize)>,
    id: PoolId,
    cap: usize,
    free: Ghost<Seq<(int, int)>>,
}

impl Ptr {
    /// The slot this handle names, as a (block, offset) pair.
    pub closed spec fn spec_loc(self) -> (int, int) {
        (self.block as int, self.offset as int)
    }

    /// The identity of the pool this handle was issued by.
    pub closed spec fn spec_pool_id(self) -> PoolId {
        self.pool_id
    }

    /// Two handles are the same token exactly when they name the same slot
    /// of the same pool.
    pub proof fn lemma_eq(p: Ptr, q: Ptr)
        ensures
            p == q <==> (p.spec_loc() == q.spec_loc() && p.spec_pool_id() == q.spec_pool_id()),
    {
    }

    /// A handle that names no pool: it carries the reserved identity, which
    /// no pool ever has, so every lookup through it reports "no value".
    pub fn dangling() -> (p: Ptr)
        ensures
            p.spec_pool_id().is_reserved(),
            p.spec_loc() == (0int, 0int),
    {
        Ptr { block: 0, offset: 0, pool_id: PoolId(0) }
    }
}

impl<'a, T> Ref<'a, T> {
    /// The stored value this view reads.
    pub closed spec fn spec_value(self) -> T {
        *self.value
    }

    /// The slot the value sits in.
    pub closed spec fn spec_loc(self) -> (int, int) {
        (self.block as int, self.offset as int)
    }

    /// The identity of the pool the value belongs to.
    pub closed spec fn spec_pool_id(self) -> PoolId {
        self.pool_id
    }

    /// Reads the value, with the lifetime of the underlying borrow.
    pub fn get(&self) -> (r: &'a T)
        ensures
            *r == self.spec_value(),
    {
        self.value
    }

    /// The handle of the slot this view was read from.
    pub closed spec fn spec_handle(self) -> Ptr {
        Ptr { block: self.block, offset: self.offset, pool_id: self.pool_id }
    }

    /// The rebuilt handle names the view's own slot and pool.
    pub proof fn lemma_handle(self)
        ensures
            self.spec_handle().spec_loc() == self.spec_loc(),
            self.spec_handle().spec_pool_id() == self.spec_pool_id(),
    {
    }

    /// Rebuilds the handle of the slot this view was read from.
    pub fn handle(&self) -> (p: Ptr)
        ensures
            p == self.spec_handle(),
            p.spec_loc() == self.spec_loc(),
            p.spec_pool_id() == self.spec_pool_id(),
    {
        Ptr { block: self.block, offset: self.offset, pool_id: self.pool_id }
    }
}

impl<'a, T> From<Ref<'a, T>> for Ptr {
    /// Rebuilds the handle of the slot the view was read from, without
    /// another validation.
    fn from(src: Ref<'a, T>) -> (p: Ptr) {
        Ptr { block: src.block, offset: src.offset, pool_id: src.pool_id }
    }
}

impl<'a, T> vstd::std_specs::convert::FromSpecImpl<Ref<'a, T>> for Ptr {
    open spec fn obeys_from_spec() -> bool {
        true
    }

    open spec fn from_spec(src: Ref<'a, T>) -> Ptr {
        src.spec_handle()
    }
}

impl<T> View for Pool<T> {
    type V = Map<(int, int), T>;

    /// The pool's abstract content: a map from the in-range occupied slot
    /// locations to the values they hold.
    closed spec fn view(&self) -> Map<(int, int), T> {
        Map::new(|l: (int, int)| self.is_occupied(l), |l: (int, int)| self.entry_at(l)->Occupied_0)
    }
}

impl<T> Pool<T> {
    /// The identity this pool validates handles against.
    pub closed spec fn spec_id(self) -> PoolId {
        self.id
    }

    /// The fixed capacity of each block, chosen at construction.
    pub closed spec fn spec_block_size(self) -> int {
        self.cap as int
    }

    /// How many blocks have been allocated so far.
    pub closed spec fn spec_num_blocks(self) -> int {
        self.blocks@.len() as int
    }

    /// The chain of vacant slots, head first: allocation pops from the
    /// front, freeing pushes onto the front.
    pub closed spec fn free_seq(self) -> Seq<(int, int)> {
        self.free@
    }

    /// How many slots are currently vacant.
    pub open spec fn num_free(self) -> int {
        self.free_seq().len() as int
    }

    /// A location names an existing slot: a block allocated so far and an
    /// offset below the block capacity.
    pub open spec fn loc_in_range(self, l: (int, int)) -> bool {
        0 <= l.0 < self.spec_num_blocks() && 0 <= l.1 < self.spec_block_size()
    }

    spec fn entry_at(self, l: (int, int)) -> Entry<T> {
        self.blocks@[l.0]@[l.1]
    }

    spec fn is_occupied(self, l: (int, int)) -> bool {
        self.loc_in_range(l) && self.entry_at(l) is Occupied
    }

    /// The link that position `j` of the free list holds: the next element
    /// of the chain, or `None` past its end.
    spec fn link_at(self, j: int) -> Option<(usize, usize)> {
        if 0 <= j < self.free@.len() {
            Some(((self.free@[j].0) as usize, (self.free@[j].1) as usize))
        } else {
            None
        }
    }

    /// Internal consistency: every block has the fixed capacity, the free
    /// list is a duplicate-free chain threading exactly the vacant slots,
    /// and the pool's identity is not the reserved one.
    pub closed spec fn inv(self) -> bool {
        &&& self.cap >= 1
        &&& !self.id.is_reserved()
        &&& forall|b: int|
            0 <= b < self.blocks@.len() ==> (#[trigger] self.blocks@[b])@.len() == self.cap
        &&& self.free@.no_duplicates()
        &&& forall|j: int|
            0 <= j < self.free@.len() ==> self.loc_in_range(#[trigger] self.free@[j])
        &&& forall|j: int|
            0 <= j < self.free@.len() ==> #[trigger] self.entry_at(self.free@[j])
                == Entry::<T>::Vacant(self.link_at(j + 1))
        &&& self.vacant == self.link_at(0)
        &&& forall|l: (int, int)|
            self.loc_in_range(l) && (#[trigger] self.entry_at(l)) is Vacant
                ==> self.free@.contains(l)
    }

    /// What a well-formed pool guarantees of its visible state: the view
    /// holds only in-range locations, and the free list enumerates, without
    /// repetition, exactly the in-range locations the view does not hold.
    pub proof fn lemma_inv_frame(self)
        requires
            self.inv(),
        ensures
            self.free_seq().no_duplicates(),
            forall|l: (int, int)| #[trigger] self@.dom().contains(l) ==> self.loc_in_range(l),
            forall|j: int|
                0 <= j < self.free_seq().len() ==> self.loc_in_range(#[trigger] self.free_seq()[j]),
            forall|l: (int, int)|
                self.loc_in_range(l)
                    ==> (#[trigger] self@.dom().contains(l) <==> !self.free_seq().contains(l)),
            !self.spec_id().is_reserved(),
            self.spec_block_size() >= 1,
    {
        assert forall|l: (int, int)|
            self.loc_in_range(l) implies (#[trigger] self@.dom().contains(l) <==> !self.free_seq()
            .contains(l)) by {
            if self.free_seq().contains(l) {
                let j = choose|j: int| 0 <= j < self.free@.len() && self.free@[j] == l;
                assert(self.entry_at(self.free@[j]) == Entry::<T>::Vacant(self.link_at(j + 1)));
            }
        }
    }

    /// Creates an empty pool with the given block capacity, drawing its
    /// identity from `src`. No block is allocated until the first value is
    /// stored.
    pub fn with_block_size(src: &mut IdGen, block_size: usize) -> (p: Pool<T>)
        requires
            old(src).wf(),
            old(src).spec_next() < usize::MAX,
            block_size >= 1,
        ensures
            p.inv(),
            p.spec_id().0 == old(src).spec_next(),
            p.spec_block_size() == block_size,
            p.spec_num_blocks() == 0,
            p.free_seq() == Seq::<(int, int)>::empty(),
            p@ == Map::<(int, int), T>::empty(),
            final(src).wf(),
            final(src).spec_next() == old(src).spec_next() + 1,
    {
        let p = Pool {
            blocks: Vec::new(),
            vacant: None,
            id: PoolId::gen(src),
            cap: block_size,
            free: Ghost(Seq::empty()),
        };
        proof {
            assert(p@ =~= Map::<(int, int), T>::empty());
        }
        p
    }

    /// Creates an empty pool with the default block capacity of 1024 slots,
    /// drawing its identity from `src`.
    pub fn new(src: &mut IdGen) -> (p: Pool<T>)
        requires
            old(src).wf(),
            old(src).spec_next() < usize::MAX,
        ensures
            p.inv(),
            p.spec_id().0 == old(src).spec_next(),
            p.spec_block_size() == 1024,
            p.spec_num_blocks() == 0,
            p.free_seq() == Seq::<(int, int)>::empty(),
            p@ == Map::<(int, int), T>::empty(),
            final(src).wf(),
            final(src).spec_next() == old(src).spec_next() + 1,
    {
        Self::with_block_size(src, 1024)
    }

    /// The fixed capacity of each block.
    pub fn block_size(&self) -> (n: usize)
        ensures
            n as int == self.spec_block_size(),
    {
        self.cap
    }

    /// The identity handles of this pool carry.
    pub fn id(&self) -> (r: PoolId)
        ensures
            r == self.spec_id(),
    {
        self.id
    }

    /// How many blocks the pool has allocated so far.
    pub fn num_blocks(&self) -> (n: usize)
        ensures
            n as int == self.spec_num_blocks(),
    {
        self.blocks.len()
    }

    /// Builds one fresh block of `cap` all-vacant slots for position `b` of
    /// the block sequence, internally threaded first slot to last, with the
    /// last slot's link pointing at `tail` (the pool's previous free-list
    /// head, or `None` for the very first block).
    fn new_block(cap: usize, b: usize, tail: Option<(usize, usize)>) -> (block: Vec<Entry<T>>)
        requires
            cap >= 1,
        ensures
            block@.len() == cap,
            forall|o: int|
                0 <= o < cap - 1 ==> #[trigger] block@[o] == Entry::<T>::Vacant(
                    Some((b, (o + 1) as usize)),
                ),
            block@[cap - 1] == Entry::<T>::Vacant(tail),
    {
        let mut block: Vec<Entry<T>> = Vec::new();
        let mut o: usize = 0;
        while o < cap
            invariant
                o <= cap,
                block@.len() == o,
                forall|j: int|
                    0 <= j < o && j < cap - 1 ==> #[trigger] block@[j] == Entry::<T>::Vacant(
                        Some((b, (j + 1) as usize)),
                    ),
                o == cap ==> block@[cap - 1] == Entry::<T>::Vacant(tail),
            decreases cap - o,
        {
            let link: Option<(usize, usize)> = if o + 1 < cap {
                Some((b, o + 1))
            } else {
                tail
            };
            block.push(Entry::Vacant(link));
            o = o + 1;
        }
        block
    }

    /// Stores `value` in the pool and returns the fresh handle that names
    /// it. The slot is the head of the free list; when the free list is
    /// empty the pool first grows by exactly one block, whose first slot is
    /// taken: growth is lazy and one block at a time.
    pub fn allocate(&mut self, value: T) -> (h: Ptr)
        requires
            old(self).inv(),
        ensures
            final(self).inv(),
            final(self).spec_id() == old(self).spec_id(),
            final(self).spec_block_size() == old(self).spec_block_size(),
            h.spec_pool_id() == old(self).spec_id(),
            final(self).loc_in_range(h.spec_loc()),
            !old(self)@.dom().contains(h.spec_loc()),
            final(self)@ == old(self)@.insert(h.spec_loc(), value),
            old(self).num_free() > 0 ==> {
                &&& h.spec_loc() == old(self).free_seq()[0]
                &&& final(self).free_seq() == old(self).free_seq().drop_first()
                &&& final(self).spec_num_blocks() == old(self).spec_num_blocks()
            },
            old(self).num_free() == 0 ==> {
                &&& h.spec_loc() == (old(self).spec_num_blocks(), 0int)
                &&& final(self).free_seq() == Seq::new(
                    (old(self).spec_block_size() - 1) as nat,
                    |i: int| (old(self).spec_num_blocks(), i + 1),
                )
                &&& final(self).spec_num_blocks() == old(self).spec_num_blocks() + 1
            },
    {
        let ghost prev = *self;
        if self.vacant.is_none() {
            let b = self.blocks.len();
            let block = Self::new_block(self.cap, b, self.vacant);
            self.blocks.push(block);
            self.vacant = Some((b, 0));
            proof {
                self.free@ = Seq::new(self.cap as nat, |i: int| (b as int, i));
                assert forall|j: int| 0 <= j < self.free@.len() implies #[trigger] self.entry_at(
                    self.free@[j],
                ) == Entry::<T>::Vacant(self.link_at(j + 1)) by {
                    assert(self.blocks@[b as int]@[j] == self.entry_at(self.free@[j]));
                }
                assert(self.free@.no_duplicates());
                assert forall|l: (int, int)|
                    self.loc_in_range(l) && (#[trigger] self.entry_at(l)) is Vacant implies self
                    .free@.contains(l) by {
                    if l.0 < b {
                        assert(prev.entry_at(l) == self.entry_at(l));
                        assert(prev.free@.contains(l));
                    } else {
                        assert(self.free@[l.1] == l);
                    }
                }
                assert(self.inv());
                assert(self@ =~= prev@);
            }
        }
        let ghost mid = *self;
        let (vb, vo) = match self.vacant {
            Some(l) => l,
            None => {
                proof {
                    assert(false);
                }
                (0, 0)
            },
        };
        proof {
            assert(mid.free@.len() > 0 && mid.vacant == mid.link_at(0));
            assert(mid.blocks.len() == mid.blocks@.len());
            assert((vb as int, vo as int) == mid.free@[0]);
            assert(mid.loc_in_range(mid.free@[0]));
            assert(self.blocks@[vb as int]@.len() == self.cap);
        }
        let link = match &self.blocks[vb][vo] {
            Entry::Vacant(l) => *l,
            Entry::Occupied(_) => {
                proof {
                    assert(mid.entry_at(mid.free@[0]) == Entry::<T>::Vacant(mid.link_at(1)));
                    assert(false);
                }
                None
            },
        };
        self.vacant = link;
        let entry = &mut self.blocks[vb][vo];
        *entry = Entry::Occupied(value);
        proof {
            self.free@ = self.free@.drop_first();
        }
        let h = Ptr { block: vb, offset: vo, pool_id: self.id };
        proof {
            let l0 = mid.free@[0];
            assert(mid.entry_at(l0) == Entry::<T>::Vacant(mid.link_at(1)));
            assert(self.blocks@.len() == mid.blocks@.len());
            assert(self.blocks@[vb as int]@ == mid.blocks@[vb as int]@.update(
                vo as int,
                Entry::Occupied(value),
            ));
            assert forall|l: (int, int)| l != l0 && mid.loc_in_range(l) implies self.entry_at(l)
                == mid.entry_at(l) by {
                if l.0 != vb as int {
                    assert(self.blocks@[l.0] == mid.blocks@[l.0]);
                }
            }
            assert(self.entry_at(l0) == Entry::<T>::Occupied(value));
            // the shortened chain still threads exactly the vacant slots
            assert forall|j: int| 0 <= j < self.free@.len() implies #[trigger] self.entry_at(
                self.free@[j],
            ) == Entry::<T>::Vacant(self.link_at(j + 1)) by {
                assert(self.free@[j] == mid.free@[j + 1]);
                assert(mid.free@[j + 1] != l0);
                assert(mid.entry_at(mid.free@[j + 1]) == Entry::<T>::Vacant(mid.link_at(j + 2)));
            }
            assert(self.free@.no_duplicates()) by {
                assert forall|i: int, j: int|
                    0 <= i < self.free@.len() && 0 <= j < self.free@.len() && i != j implies self
                    .free@[i] != self.free@[j] by {
                    assert(self.free@[i] == mid.free@[i + 1]);
                    assert(self.free@[j] == mid.free@[j + 1]);
                }
            }
            assert(self.vacant == self.link_at(0)) by {
                if self.free@.len() > 0 {
                    assert(self.free@[0] == mid.free@[1]);
                }
            }
            assert forall|l: (int, int)|
                self.loc_in_range(l) && (#[trigger] self.entry_at(l)) is Vacant implies self.free@
                .contains(l) by {
                assert(mid.entry_at(l) is Vacant);
                assert(mid.free@.contains(l));
                let j = choose|j: int| 0 <= j < mid.free@.len() && mid.free@[j] == l;
                assert(j != 0);
                assert(self.free@[j - 1] == l);
            }
            assert(self.inv());
            assert(self@ =~= mid@.insert(h.spec_loc(), value));
            assert(!mid@.dom().contains(h.spec_loc()));
            if prev.free@.len() == 0 {
                assert(self.free@ =~= Seq::new(
                    (prev.cap - 1) as nat,
                    |i: int| (prev.blocks@.len() as int, i + 1),
                ));
            }
        }
        h
    }

    /// Returns a live value's slot to the free list, dropping the stored
    /// value. Returns `true` when the handle's slot was live; returns
    /// `false`, changing nothing, when it was already vacant, so a double
    /// free is reported rather than a crash. A handle issued by a different
    /// pool is ruled out by the precondition: letting it through would
    /// corrupt an unrelated pool's free list.
    pub fn free(&mut self, h: Ptr) -> (r: bool)
        requires
            old(self).inv(),
            h.spec_pool_id() == old(self).spec_id(),
        ensures
            final(self).inv(),
            final(self).spec_id() == old(self).spec_id(),
            final(self).spec_block_size() == old(self).spec_block_size(),
            final(self).spec_num_blocks() == old(self).spec_num_blocks(),
            r == old(self)@.dom().contains(h.spec_loc()),
            r ==> final(self)@ == old(self)@.remove(h.spec_loc()) && final(self).free_seq()
                == seq![h.spec_loc()].add(old(self).free_seq()),
            !r ==> *final(self) == *old(self),
    {
        let ghost prev = *self;
        if !(h.block < self.blocks.len() && h.offset < self.cap) {
            return false;
        }
        proof {
            assert(self.blocks@[h.block as int]@.len() == self.cap);
        }
        let occupied = match &self.blocks[h.block][h.offset] {
            Entry::Occupied(_) => true,
            Entry::Vacant(_) => false,
        };
        if !occupied {
            return false;
        }
        let link = self.vacant;
        let entry = &mut self.blocks[h.block][h.offset];
        *entry = Entry::Vacant(link);
        self.vacant = Some((h.block, h.offset));
        proof {
            let l0 = (h.block as int, h.offset as int);
            self.free@ = seq![l0].add(prev.free@);
            assert(self.blocks@.len() == prev.blocks@.len());
            assert(self.blocks@[h.block as int]@ == prev.blocks@[h.block as int]@.update(
                h.offset as int,
                Entry::Vacant(link),
            ));
            assert forall|l: (int, int)| l != l0 && prev.loc_in_range(l) implies self.entry_at(l)
                == prev.entry_at(l) by {
                if l.0 != h.block as int {
                    assert(self.blocks@[l.0] == prev.blocks@[l.0]);
                }
            }
            assert(self.entry_at(l0) == Entry::<T>::Vacant(link));
            // the freed slot was live, hence not on the old chain
            assert(!prev.free@.contains(l0)) by {
                if prev.free@.contains(l0) {
                    let j = choose|j: int| 0 <= j < prev.free@.len() && prev.free@[j] == l0;
                    assert(prev.entry_at(prev.free@[j]) == Entry::<T>::Vacant(prev.link_at(j + 1)));
                }
            }
            assert forall|j: int| 0 <= j < self.free@.len() implies #[trigger] self.entry_at(
                self.free@[j],
            ) == Entry::<T>::Vacant(self.link_at(j + 1)) by {
                if j == 0 {
                    assert(self.link_at(1) == prev.link_at(0));
                } else {
                    assert(self.free@[j] == prev.free@[j - 1]);
                    assert(prev.entry_at(prev.free@[j - 1]) == Entry::<T>::Vacant(
                        prev.link_at(j),
                    ));
                    assert(self.link_at(j + 1) == prev.link_at(j));
                }
            }
            assert(self.free@.no_duplicates()) by {
                assert forall|i: int, j: int|
                    0 <= i < self.free@.len() && 0 <= j < self.free@.len() && i != j implies self
                    .free@[i] != self.free@[j] by {
                    if i != 0 && j != 0 {
                        assert(self.free@[i] == prev.free@[i - 1]);
                        assert(self.free@[j] == prev.free@[j - 1]);
                    } else if i == 0 {
                        assert(self.free@[j] == prev.free@[j - 1]);
                        assert(!prev.free@.contains(l0));
                    } else {
                        assert(self.free@[i] == prev.free@[i - 1]);
                        assert(!prev.free@.contains(l0));
                    }
                }
            }
            assert forall|l: (int, int)|
                self.loc_in_range(l) && (#[trigger] self.entry_at(l)) is Vacant implies self.free@
                .contains(l) by {
                if l == l0 {
                    assert(self.free@[0] == l0);
                } else {
                    assert(prev.entry_at(l) is Vacant);
                    let j = choose|j: int| 0 <= j < prev.free@.len() && prev.free@[j] == l;
                    assert(self.free@[j + 1] == l);
                }
            }
            assert(self.inv());
            assert(self@ =~= prev@.remove(l0));
        }
        true
    }

    /// Looks up the value a handle names. Returns a view of the stored
    /// value when the handle's slot is live, and `None` when the slot is
    /// vacant (freed, or never filled) or the handle is dangling. A handle
    /// issued by a different live pool is ruled out by the precondition:
    /// passing one is a caller error, not an expected absence.
    pub fn get<'a>(&'a self, p: Ptr) -> (r: Option<Ref<'a, T>>)
        requires
            self.inv(),
            p.spec_pool_id() == self.spec_id() || p.spec_pool_id().is_reserved(),
        ensures
            match r {
                Some(rf) => {
                    &&& p.spec_pool_id() == self.spec_id()
                    &&& self@.dom().contains(p.spec_loc())
                    &&& rf.spec_value() == self@[p.spec_loc()]
                    &&& rf.spec_loc() == p.spec_loc()
                    &&& rf.spec_pool_id() == p.spec_pool_id()
                },
                None => !(p.spec_pool_id() == self.spec_id() && self@.dom().contains(
                    p.spec_loc(),
                )),
            },
    {
        if p.pool_id == self.id && p.block < self.blocks.len() && p.offset < self.cap {
            proof {
                assert(self.blocks@[p.block as int]@.len() == self.cap);
            }
            match &self.blocks[p.block][p.offset] {
                Entry::Occupied(value) => Some(
                    Ref { value, block: p.block, offset: p.offset, pool_id: p.pool_id },
                ),
                Entry::Vacant(_) => None,
            }
        } else {
            None
        }
    }

    /// Like `get`, but hands out exclusive write access to the stored
    /// value: whatever the caller writes through the returned borrow is
    /// what the slot holds afterwards, and nothing else in the pool moves.
    pub fn get_mut<'a>(&'a mut self, p: Ptr) -> (r: Option<&'a mut T>)
        requires
            old(self).inv(),
            p.spec_pool_id() == old(self).spec_id() || p.spec_pool_id().is_reserved(),
        ensures
            match r {
                Some(m) => {
                    &&& p.spec_pool_id() == old(self).spec_id()
                    &&& old(self)@.dom().contains(p.spec_loc())
                    &&& *m == old(self)@[p.spec_loc()]
                    &&& final(self)@ == old(self)@.insert(p.spec_loc(), *final(m))
                    &&& final(self).inv()
                    &&& final(self).spec_id() == old(self).spec_id()
                    &&& final(self).spec_block_size() == old(self).spec_block_size()
                    &&& final(self).spec_num_blocks() == old(self).spec_num_blocks()
                    &&& final(self).free_seq() == old(self).free_seq()
                },
                None => {
                    &&& !(p.spec_pool_id() == old(self).spec_id() && old(self)@.dom().contains(
                        p.spec_loc(),
                    ))
                    &&& *final(self) == *old(self)
                },
            },
    {
        let ghost prev = *self;
        if !(p.pool_id == self.id && p.block < self.blocks.len() && p.offset < self.cap) {
            return None;
        }
        proof {
            assert(self.blocks@[p.block as int]@.len() == self.cap);
        }
        let occupied = match &self.blocks[p.block][p.offset] {
            Entry::Occupied(_) => true,
            Entry::Vacant(_) => false,
        };
        if !occupied {
            return None;
        }
        let ghost l0 = (p.block as int, p.offset as int);
        let entry = &mut self.blocks[p.block][p.offset];
        match entry {
            Entry::Occupied(value) => {
                proof {
                    assert(after_borrow(*self).blocks@.len() == prev.blocks@.len());
                    assert(after_borrow(*self).blocks@[p.block as int]@ == prev.blocks@[p.block as int]@.update(
                        p.offset as int,
                        Entry::Occupied(*final(value)),
                    ));
                    assert forall|l: (int, int)| l != l0 && prev.loc_in_range(l) implies after_borrow(*self)
                        .entry_at(l) == prev.entry_at(l) by {
                        if l.0 != p.block as int {
                            assert(after_borrow(*self).blocks@[l.0] == prev.blocks@[l.0]);
                        }
                    }
                    assert(after_borrow(*self).entry_at(l0) == Entry::<T>::Occupied(*final(value)));
                    // the slot stays occupied, so the free list is untouched
                    assert(!prev.free@.contains(l0)) by {
                        if prev.free@.contains(l0) {
                            let j = choose|j: int|
                                0 <= j < prev.free@.len() && prev.free@[j] == l0;
                            assert(prev.entry_at(prev.free@[j]) == Entry::<T>::Vacant(
                                prev.link_at(j + 1),
                            ));
                        }
                    }
                    assert forall|j: int| 0 <= j < after_borrow(*self).free@.len() implies #[trigger] after_borrow(*self)
                        .entry_at(after_borrow(*self).free@[j]) == Entry::<T>::Vacant(after_borrow(*self).link_at(j + 1)) by {
                        assert(prev.entry_at(prev.free@[j]) == Entry::<T>::Vacant(
                            prev.link_at(j + 1),
                        ));
                        assert(after_borrow(*self).free@[j] != l0);
                    }
                    assert forall|l: (int, int)|
                        after_borrow(*self).loc_in_range(l) && (#[trigger] after_borrow(*self).entry_at(l)) is Vacant implies after_borrow(*self)
                        .free@.contains(l) by {
                        assert(prev.entry_at(l) is Vacant);
                    }
                    assert(after_borrow(*self).inv());
                    assert(after_borrow(*self)@ =~= prev@.insert(l0, *final(value)));
                }
                Some(value)
            },
            Entry::Vacant(_) => {
                proof {
                    assert(false);
                }
                None
            },
        }
    }
}

} // verus!
