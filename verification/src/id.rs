use vstd::prelude::*;

verus! {

/// Identity of one pool instance. Two pools built from the same generator
/// never share an identity, so a handle can be validated against the pool
/// that issued it even when several pools coexist.
#[derive(Clone, Copy, Debug, PartialEq, Eq, Hash, PartialOrd, Ord, Structural)]
pub struct PoolId(pub usize);

/// Source of pool identities: a counter that starts above the reserved
/// value and only grows, so every identity it hands out is fresh.
pub struct IdGen {
    next: usize,
}

impl PoolId {
    /// The reserved identity, never issued by any generator. Handles that
    /// carry it name no pool at all.
    pub open spec fn is_reserved(self) -> bool {
        self.0 == 0
    }
}

impl IdGen {
    /// The value the next drawn identity will carry.
    pub closed spec fn spec_next(self) -> int {
        self.next as int
    }

    /// The counter stays above the reserved value, so nothing it issues
    /// collides with the identity of a dangling handle.
    pub closed spec fn wf(self) -> bool {
        self.next >= 1
    }

    pub fn new() -> (g: IdGen)
        ensures
            g.wf(),
            g.spec_next() == 1,
    {
        IdGen { next: 1 }
    }
}

impl Default for IdGen {
    /// A fresh generator, identical to `IdGen::new()`.
    fn default() -> (g: IdGen)
        ensures
            g.wf(),
            g.spec_next() == 1,
    {
        IdGen::new()
    }
}

impl PoolId {
    /// Draws a fresh identity: the counter's current value, which the
    /// counter then moves past and never issues again.
    pub fn gen(src: &mut IdGen) -> (id: PoolId)
        requires
            old(src).wf(),
            old(src).spec_next() < usize::MAX,
        ensures
            final(src).wf(),
            id.0 == old(src).spec_next(),
            final(src).spec_next() == old(src).spec_next() + 1,
            !id.is_reserved(),
    {
        let id = PoolId(src.next);
        src.next = src.next + 1;
        id
    }
}

} // verus!
