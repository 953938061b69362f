//! Laws that relate several pool operations, stated over the abstract
//! content map and the counts that the operations' own contracts speak of.

use vstd::prelude::*;

use crate::pool::Pool;
use crate::pool::Ptr;

verus! {

/// The content of a pool after the first `n` allocations of a run with no
/// frees: the values stored one by one, each at the location its
/// allocation's handle names.
pub open spec fn store_run<T>(
    m0: Map<(int, int), T>,
    locs: Seq<(int, int)>,
    vals: Seq<T>,
    n: int,
) -> Map<(int, int), T>
    decreases n,
{
    if n <= 0 {
        m0
    } else {
        store_run(m0, locs, vals, n - 1).insert(locs[n - 1], vals[n - 1])
    }
}

/// What `allocate` ensures of every step of such a run: each handle names a
/// location the pool did not hold at that moment.
pub open spec fn each_loc_fresh<T>(
    m0: Map<(int, int), T>,
    locs: Seq<(int, int)>,
    vals: Seq<T>,
) -> bool {
    forall|k: int|
        0 <= k < locs.len() ==> !store_run(m0, locs, vals, k).dom().contains(#[trigger] locs[k])
}

proof fn lemma_store_run_prefix<T>(
    m0: Map<(int, int), T>,
    locs: Seq<(int, int)>,
    vals: Seq<T>,
    n: int,
)
    requires
        locs.len() == vals.len(),
        each_loc_fresh(m0, locs, vals),
        0 <= n <= locs.len(),
    ensures
        forall|i: int, j: int| 0 <= i < j < n ==> locs[i] != locs[j],
        forall|i: int|
            0 <= i < n ==> store_run(m0, locs, vals, n).dom().contains(#[trigger] locs[i])
                && store_run(m0, locs, vals, n)[locs[i]] == vals[i],
    decreases n,
{
    if n > 0 {
        lemma_store_run_prefix(m0, locs, vals, n - 1);
        assert(!store_run(m0, locs, vals, n - 1).dom().contains(locs[n - 1]));
    }
}

/// In any run of allocations with no frees, the returned handles name
/// pairwise distinct locations, and at the end each location holds exactly
/// the value its allocation stored, so a lookup through each handle returns
/// that value.
pub proof fn lemma_alloc_run_distinct<T>(
    m0: Map<(int, int), T>,
    locs: Seq<(int, int)>,
    vals: Seq<T>,
)
    requires
        locs.len() == vals.len(),
        each_loc_fresh(m0, locs, vals),
    ensures
        forall|i: int, j: int| 0 <= i < j < locs.len() ==> locs[i] != locs[j],
        forall|i: int|
            0 <= i < locs.len() ==> store_run(m0, locs, vals, locs.len() as int).dom().contains(
                #[trigger] locs[i],
            ) && store_run(m0, locs, vals, locs.len() as int)[locs[i]] == vals[i],
{
    lemma_store_run_prefix(m0, locs, vals, locs.len() as int);
}

/// Writing through the exclusive borrow that `get_mut` hands out is what
/// the next lookup sees: once the content is updated with `v` at `l`, the
/// slot `l` reads as `v`, and every other slot reads as before.
pub proof fn lemma_mutation_observed<T>(m0: Map<(int, int), T>, l: (int, int), v: T)
    requires
        m0.dom().contains(l),
    ensures
        m0.insert(l, v).dom().contains(l),
        m0.insert(l, v)[l] == v,
        forall|l2: (int, int)|
            l2 != l ==> (m0.insert(l, v).dom().contains(l2) <==> m0.dom().contains(l2)),
        forall|l2: (int, int)| l2 != l && m0.dom().contains(l2) ==> m0.insert(l, v)[l2] == m0[l2],
{
}

/// After a successful free of the slot `l` the content no longer holds
/// `l` — by the lookup contracts `get` and `get_mut` then report "no
/// value", and by `free`'s contract a second free of the same handle
/// returns false — while every other slot is untouched.
pub proof fn lemma_free_is_final<T>(m0: Map<(int, int), T>, l: (int, int))
    requires
        m0.dom().contains(l),
    ensures
        !m0.remove(l).dom().contains(l),
        forall|l2: (int, int)|
            l2 != l ==> (m0.remove(l).dom().contains(l2) <==> m0.dom().contains(l2)),
        forall|l2: (int, int)| l2 != l && m0.dom().contains(l2) ==> m0.remove(l)[l2] == m0[l2],
{
}

/// One allocation's effect on the pair (block count, vacant-slot count):
/// with no vacant slot left the pool grows by one block of `cap` slots and
/// takes one of them, otherwise it takes a vacant slot and no block is
/// added.
pub open spec fn alloc_counts_step(cap: int, c: (int, int)) -> (int, int) {
    if c.1 == 0 {
        (c.0 + 1, cap - 1)
    } else {
        (c.0, c.1 - 1)
    }
}

/// The pair (block count, vacant-slot count) after `n` allocations from an
/// empty pool with block capacity `cap`.
pub open spec fn counts_after(cap: int, n: nat) -> (int, int)
    decreases n,
{
    if n == 0 {
        (0, 0)
    } else {
        alloc_counts_step(cap, counts_after(cap, (n - 1) as nat))
    }
}

/// `allocate` moves the pair (block count, vacant-slot count) by exactly
/// one `alloc_counts_step`: the two cases of its contract are the two cases
/// of the step.
pub proof fn lemma_alloc_counts_step<T>(pre: Pool<T>, post: Pool<T>)
    requires
        pre.num_free() > 0 ==> post.spec_num_blocks() == pre.spec_num_blocks() && post.num_free()
            == pre.num_free() - 1,
        pre.num_free() == 0 ==> post.spec_num_blocks() == pre.spec_num_blocks() + 1
            && post.num_free() == pre.spec_block_size() - 1,
    ensures
        (post.spec_num_blocks(), post.num_free()) == alloc_counts_step(
            pre.spec_block_size(),
            (pre.spec_num_blocks(), pre.num_free()),
        ),
{
}

proof fn lemma_counts_drain(cap: int, n0: nat, j: nat)
    requires
        cap >= 1,
        j <= counts_after(cap, n0).1,
    ensures
        counts_after(cap, n0 + j) == (counts_after(cap, n0).0, counts_after(cap, n0).1 - j),
    decreases j,
{
    if j > 0 {
        lemma_counts_drain(cap, n0, (j - 1) as nat);
        assert(n0 + j == (n0 + (j - 1) as nat) + 1);
    }
}

/// Block growth is lazy and exact: starting from an empty pool with block
/// capacity `cap`, allocating exactly `k * cap` values with no frees leaves
/// exactly `k` blocks and no vacant slot, and one further allocation brings
/// the block count to `k + 1`.
pub proof fn lemma_block_growth(cap: int, k: nat)
    requires
        cap >= 1,
    ensures
        counts_after(cap, k * (cap as nat)) == (k as int, 0int),
        counts_after(cap, k * (cap as nat) + 1) == (k as int + 1, cap - 1),
    decreases k,
{
    let capn = cap as nat;
    if k == 0 {
        assert(k * capn == 0) by (nonlinear_arith)
            requires
                k == 0,
        ;
        assert(counts_after(cap, 1) == alloc_counts_step(cap, counts_after(cap, 0)));
    } else {
        lemma_block_growth(cap, (k - 1) as nat);
        let n1 = (k - 1) as nat * capn;
        assert(counts_after(cap, n1 + 1) == (k as int, cap - 1));
        lemma_counts_drain(cap, n1 + 1, (cap - 1) as nat);
        assert(n1 + 1 + (cap - 1) as nat == n1 + capn);
        assert(n1 + capn == k * capn) by (nonlinear_arith)
            requires
                n1 == (k - 1) as nat * capn && k >= 1,
        ;
        assert(counts_after(cap, k * capn) == (k as int, 0int));
        assert(counts_after(cap, k * capn + 1) == alloc_counts_step(
            cap,
            counts_after(cap, k * capn),
        ));
    }
}

/// Freeing a handle and then allocating reuses the slot just freed: after
/// `free` the freed location heads the free list, and `allocate` pops
/// exactly the head, so the new handle names the freed handle's slot.
pub proof fn lemma_slot_reuse(l: (int, int), f0: Seq<(int, int)>)
    ensures
        seq![l].add(f0).len() > 0,
        seq![l].add(f0)[0] == l,
{
}

/// Two handles of one pool that name the same slot are the same token: the
/// handle returned after a free-then-allocate round trip is equal to the
/// freed one.
pub proof fn lemma_same_slot_same_handle(h1: Ptr, h2: Ptr)
    requires
        h1.spec_loc() == h2.spec_loc(),
        h1.spec_pool_id() == h2.spec_pool_id(),
    ensures
        h1 == h2,
{
    Ptr::lemma_eq(h1, h2);
}

/// Handles from two distinct pools are never equal, even when they name
/// identical slot locations: the pool identity is part of handle equality.
pub proof fn lemma_cross_pool_handles_differ(h1: Ptr, h2: Ptr)
    requires
        h1.spec_pool_id() != h2.spec_pool_id(),
    ensures
        h1 != h2,
{
    Ptr::lemma_eq(h1, h2);
}

/// A handle is a well-behaved container key: inserting the same handle
/// twice into a set leaves one logical entry, and the order of two
/// insertions does not affect the resulting set.
pub proof fn lemma_handle_as_key(s: Set<Ptr>, h1: Ptr, h2: Ptr)
    ensures
        s.insert(h1).insert(h1) == s.insert(h1),
        s.insert(h1).insert(h2) == s.insert(h2).insert(h1),
{
    assert(s.insert(h1).insert(h1) =~= s.insert(h1));
    assert(s.insert(h1).insert(h2) =~= s.insert(h2).insert(h1));
}

} // verus!
