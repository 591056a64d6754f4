use vstd::prelude::*;

verus! {

/// Capability contract for one order's trie level: given a parent position
/// in the previous order and a child token id, find the child's position in
/// this order's own position space, or report absence.
pub trait TrieArray: Sized {
    /// Internal well-formedness.
    spec fn spec_wf(&self) -> bool;

    /// Number of positions of this order: every found child lies below it.
    spec fn spec_positions(&self) -> int;

    /// The child position reached from `pos` by the edge labelled
    /// `token`, if the corresponding n-gram was observed.
    spec fn spec_find(&self, pos: int, token: int) -> Option<int>;

    /// Finds the child of `pos` labelled `token_id`.
    fn find_token(&self, pos: usize, token_id: usize) -> (r: Option<usize>)
        requires
            self.spec_wf(),
        ensures
            match r {
                Some(c) => self.spec_find(pos as int, token_id as int) == Some(c as int) && c
                    < self.spec_positions(),
                None => self.spec_find(pos as int, token_id as int) is None,
            },
    ;
}

/// First edge of the list leaving `pos` under `token`, scanned in order.
pub open spec fn spec_edge_find(
    edges: Seq<(usize, usize, usize)>,
    pos: int,
    token: int,
) -> Option<int>
    decreases edges.len(),
{
    if edges.len() == 0 {
        None
    } else if edges[0].0 == pos && edges[0].1 == token {
        Some(edges[0].2 as int)
    } else {
        spec_edge_find(edges.skip(1), pos, token)
    }
}

proof fn lemma_edge_find_found(edges: Seq<(usize, usize, usize)>, pos: int, token: int, p: int)
    requires
        0 <= p < edges.len(),
        edges[p].0 == pos && edges[p].1 == token,
        forall|q: int|
            0 <= q < p ==> !((#[trigger] edges[q]).0 == pos && edges[q].1 == token),
    ensures
        spec_edge_find(edges, pos, token) == Some(edges[p].2 as int),
    decreases p,
{
    if p > 0 {
        assert forall|q: int| 0 <= q < p - 1 implies !((#[trigger] edges.skip(1)[q]).0 == pos
            && edges.skip(1)[q].1 == token) by {
            assert(edges.skip(1)[q] == edges[q + 1]);
        }
        assert(edges.skip(1)[p - 1] == edges[p]);
        lemma_edge_find_found(edges.skip(1), pos, token, p - 1);
    }
}

proof fn lemma_edge_find_none(edges: Seq<(usize, usize, usize)>, pos: int, token: int)
    requires
        forall|q: int|
            0 <= q < edges.len() ==> !((#[trigger] edges[q]).0 == pos && edges[q].1 == token),
    ensures
        spec_edge_find(edges, pos, token) is None,
    decreases edges.len(),
{
    if edges.len() > 0 {
        assert forall|q: int| 0 <= q < edges.skip(1).len() implies !((#[trigger] edges.skip(
            1,
        )[q]).0 == pos && edges.skip(1)[q].1 == token) by {
            assert(edges.skip(1)[q] == edges[q + 1]);
        }
        lemma_edge_find_none(edges.skip(1), pos, token);
    }
}

/// Plain edge-list encoding of a trie level: (parent position, token id,
/// child position) triples, searched by scanning.
#[derive(Debug)]
pub struct SimpleTrieArray {
    /// The observed edges of this order.
    pub edges: Vec<(usize, usize, usize)>,
    /// The size of this order's position space.
    pub positions: usize,
}

impl TrieArray for SimpleTrieArray {
    open spec fn spec_wf(&self) -> bool {
        forall|i: int| 0 <= i < self.edges@.len() ==> (#[trigger] self.edges@[i]).2
            < self.positions
    }

    open spec fn spec_positions(&self) -> int {
        self.positions as int
    }

    open spec fn spec_find(&self, pos: int, token: int) -> Option<int> {
        spec_edge_find(self.edges@, pos, token)
    }

    fn find_token(&self, pos: usize, token_id: usize) -> (r: Option<usize>) {
        let n = self.edges.len();
        let mut i: usize = 0;
        while i < n
            invariant
                self.spec_wf(),
                n == self.edges@.len(),
                i <= n,
                forall|q: int|
                    0 <= q < i ==> !((#[trigger] self.edges@[q]).0 == pos && self.edges@[q].1
                        == token_id),
            decreases n - i,
        {
            let e = self.edges[i];
            if e.0 == pos && e.1 == token_id {
                proof {
                    lemma_edge_find_found(self.edges@, pos as int, token_id as int, i as int);
                }
                return Some(e.2);
            }
            i += 1;
        }
        proof {
            lemma_edge_find_none(self.edges@, pos as int, token_id as int);
        }
        None
    }
}

} // verus!
