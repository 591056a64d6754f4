pub mod lookuper;

use vstd::prelude::*;
use vstd::string::StringSliceAdditionalSpecFns;

use crate::gram::spec_split;
use crate::rank_array::RankArray;
use crate::trie_array::TrieArray;
use crate::vocabulary::Vocabulary;

verus! {

/// One order's deduplicated count table: the distinct observed count
/// values, strictly ascending; ranks index into it.
#[derive(Debug)]
pub struct CountTable {
    /// The distinct count values, ascending.
    pub values: Vec<usize>,
}

impl CountTable {
    /// Deduplicated and ascending.
    pub open spec fn spec_wf(&self) -> bool {
        forall|i: int, j: int|
            0 <= i < j < self.values@.len() ==> self.values@[i] < self.values@[j]
    }

    /// Reads the count value stored under a rank.
    pub fn get(&self, rank: usize) -> (r: usize)
        requires
            rank < self.values@.len(),
        ensures
            r == self.values@[rank as int],
    {
        self.values[rank]
    }
}

/// The value behind a lookup result, where one is present.
pub open spec fn opt_u(o: Option<usize>) -> usize {
    match o {
        Some(u) => u,
        None => 0,
    }
}

/// Whether every token of the list is registered in the vocabulary.
pub open spec fn all_known<V: Vocabulary>(v: V, toks: Seq<Seq<u8>>) -> bool {
    forall|i: int| 0 <= i < toks.len() ==> (#[trigger] v.spec_get(toks[i])) is Some
}

/// The ids the vocabulary assigns to the tokens, in order.
pub open spec fn mapped_ids<V: Vocabulary>(v: V, toks: Seq<Seq<u8>>) -> Seq<usize> {
    Seq::new(toks.len(), |i: int| opt_u(v.spec_get(toks[i])))
}

/// The byte views of a list of token strings.
pub open spec fn strs_bytes(ts: Seq<&str>) -> Seq<Seq<u8>> {
    ts.map(|i: int, t: &str| t.spec_bytes())
}

/// Immutable assembled count structure: one vocabulary, one trie level per
/// order above the unigrams, and per order a rank array plus a count
/// table. Built once, then read-only.
#[derive(Debug)]
pub struct TrieCountLm<T, V, A> where T: TrieArray, V: Vocabulary, A: RankArray {
    /// Token-to-id mapping.
    pub vocab: V,
    /// Trie levels for orders 1 and above, in order.
    pub arrays: Vec<T>,
    /// Rank arrays for every order, unigrams first.
    pub count_ranks: Vec<A>,
    /// Count tables for every order, unigrams first.
    pub counts: Vec<CountTable>,
}

impl<T, V, A> TrieCountLm<T, V, A> where T: TrieArray, V: Vocabulary, A: RankArray {
    /// Structural invariant: per-order components line up, every component
    /// is well-formed, and every reachable position stays inside the next
    /// component's space.
    pub open spec fn wf(&self) -> bool {
        &&& self.counts@.len() == self.count_ranks@.len()
        &&& self.counts@.len() == self.arrays@.len() + 1
        &&& self.vocab.spec_wf()
        &&& forall|d: int| 0 <= d < self.arrays@.len() ==> (#[trigger] self.arrays@[d]).spec_wf()
        &&& forall|d: int|
            0 <= d < self.count_ranks@.len() ==> (#[trigger] self.count_ranks@[d]).spec_wf()
        &&& forall|d: int| 0 <= d < self.counts@.len() ==> (#[trigger] self.counts@[d]).spec_wf()
        &&& forall|t: Seq<u8>|
            (#[trigger] self.vocab.spec_get(t)) matches Some(id) ==> id < self.count_ranks@[
                0
            ].spec_len()
        &&& forall|d: int|
            0 <= d < self.arrays@.len() ==> (#[trigger] self.arrays@[d]).spec_positions()
                <= self.count_ranks@[d + 1].spec_len()
        &&& forall|d: int, p: int|
            0 <= d < self.count_ranks@.len() && 0 <= p < self.count_ranks@[d].spec_len() ==> 0 <= (
            #[trigger] self.count_ranks@[d].spec_rank(p)) < self.counts@[d].values@.len()
    }

    /// The position reached after threading `ids[0..=i]` through the trie
    /// levels, if every edge on the way exists.
    pub open spec fn spec_pos(&self, ids: Seq<usize>, i: int) -> Option<int>
        decreases i,
    {
        if i <= 0 {
            Some(ids[0] as int)
        } else {
            match self.spec_pos(ids, i - 1) {
                Some(p) => self.arrays@[i - 1].spec_find(p, ids[i] as int),
                None => None,
            }
        }
    }

    /// The count stored for the resolved id sequence: the count-table
    /// entry named by the final position's rank, or nothing when some
    /// prefix edge is missing.
    pub open spec fn spec_count(&self, ids: Seq<usize>) -> Option<usize> {
        let order = ids.len() - 1;
        match self.spec_pos(ids, order) {
            Some(p) => Some(
                self.counts@[order].values@[self.count_ranks@[order].spec_rank(p)],
            ),
            None => None,
        }
    }

    /// The answer for a token list: the count of the exact n-gram, or
    /// nothing when any token is unknown, the query is longer than the
    /// maximum order, or some prefix edge is missing.
    pub open spec fn spec_tokens_query(&self, toks: Seq<Seq<u8>>) -> Option<usize> {
        if toks.len() == 0 {
            None
        } else if !all_known(self.vocab, toks) {
            None
        } else if toks.len() > self.counts@.len() {
            None
        } else {
            self.spec_count(mapped_ids(self.vocab, toks))
        }
    }

    /// The answer for a combined gram: its tokens are split on the
    /// separator and resolved as a token list.
    pub open spec fn spec_gram_query(&self, g: Seq<u8>) -> Option<usize> {
        self.spec_tokens_query(spec_split(g))
    }

    /// Law: a single-token query with a registered token is answered
    /// straight from the unigram tables: the token's id is itself the
    /// order-0 position, and no trie level is consulted.
    pub proof fn lemma_unigram_query(&self, toks: Seq<Seq<u8>>)
        requires
            self.wf(),
            toks.len() == 1,
            self.vocab.spec_get(toks[0]) is Some,
        ensures
            self.spec_tokens_query(toks) == Some(
                self.counts@[0].values@[self.count_ranks@[0].spec_rank(
                    opt_u(self.vocab.spec_get(toks[0])) as int,
                )],
            ),
    {
        assert(all_known(self.vocab, toks)) by {
            assert forall|i: int| 0 <= i < toks.len() implies (#[trigger] self.vocab.spec_get(
                toks[i],
            )) is Some by {
                assert(i == 0);
            }
        }
        let ids = mapped_ids(self.vocab, toks);
        assert(ids.len() == 1);
        assert(ids[0] == opt_u(self.vocab.spec_get(toks[0])));
        assert(self.spec_pos(ids, 0) == Some(ids[0] as int));
    }

    /// Law: a single-token lookup needs no trie level at all — the token's
    /// id is itself the order-0 position, and the answer is exactly the
    /// unigram count table's entry under that position's rank.
    pub proof fn lemma_unigram_count(&self, ids: Seq<usize>)
        requires
            ids.len() == 1,
        ensures
            self.spec_count(ids) == Some(
                self.counts@[0].values@[self.count_ranks@[0].spec_rank(ids[0] as int)],
            ),
    {
    }

    /// A missing prefix edge can never reappear deeper: once the walk
    /// fails, it fails at every later depth.
    pub proof fn lemma_pos_none(&self, ids: Seq<usize>, i: int, j: int)
        requires
            0 <= i <= j,
            self.spec_pos(ids, i) is None,
        ensures
            self.spec_pos(ids, j) is None,
        decreases j - i,
    {
        if j > i {
            self.lemma_pos_none(ids, i, j - 1);
        }
    }
}

} // verus!
