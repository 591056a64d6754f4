use vstd::prelude::*;

verus! {

/// Capability contract for one order's rank indirection: a trie position
/// maps to a dense rank into that order's deduplicated count table. Many
/// positions may share a rank.
pub trait RankArray: Sized {
    /// Internal well-formedness.
    spec fn spec_wf(&self) -> bool;

    /// Number of positions this order covers.
    spec fn spec_len(&self) -> int;

    /// The rank stored for a position.
    spec fn spec_rank(&self, pos: int) -> int;

    /// Reads the rank of a position.
    fn get(&self, pos: usize) -> (r: usize)
        requires
            self.spec_wf(),
            pos < self.spec_len(),
        ensures
            r == self.spec_rank(pos as int),
    ;
}

/// Plain array encoding of the rank indirection: one rank per position.
#[derive(Debug)]
pub struct SimpleRankArray {
    /// The rank of each position, in position order.
    pub ranks: Vec<usize>,
}

impl RankArray for SimpleRankArray {
    open spec fn spec_wf(&self) -> bool {
        true
    }

    open spec fn spec_len(&self) -> int {
        self.ranks@.len() as int
    }

    open spec fn spec_rank(&self, pos: int) -> int {
        self.ranks@[pos] as int
    }

    fn get(&self, pos: usize) -> (r: usize) {
        self.ranks[pos]
    }
}

} // verus!
