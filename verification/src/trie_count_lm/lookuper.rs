use vstd::prelude::*;
use vstd::string::StringSliceAdditionalSpecFns;

use crate::gram::spec_split;
use crate::gram::Gram;
use crate::mappers::SortedArrayMapper;
use crate::rank_array::RankArray;
use crate::trie_array::TrieArray;
use crate::trie_count_lm::all_known;
use crate::trie_count_lm::mapped_ids;
use crate::trie_count_lm::opt_u;
use crate::trie_count_lm::strs_bytes;
use crate::trie_count_lm::TrieCountLm;
use crate::vocabulary::Vocabulary;

verus! {

/// Stateless-per-query lookuper: an immutable reference to the built
/// structure plus a private, reusable token-id scratch buffer. One
/// lookuper must not be shared across concurrent queries.
pub struct TrieCountLmLookuper<'a, T, V, A> where T: TrieArray, V: Vocabulary, A: RankArray {
    trie: &'a TrieCountLm<T, V, A>,
    mapper: SortedArrayMapper,
}

impl<'a, T, V, A> TrieCountLmLookuper<'a, T, V, A> where
    T: TrieArray,
    V: Vocabulary,
    A: RankArray,
 {
    /// The structure this lookuper is bound to.
    pub closed spec fn spec_trie(&self) -> &'a TrieCountLm<T, V, A> {
        self.trie
    }

    /// Binds a lookuper to a built structure.
    pub fn new(trie: &'a TrieCountLm<T, V, A>) -> (r: TrieCountLmLookuper<'a, T, V, A>)
        ensures
            r.spec_trie() == trie,
    {
        TrieCountLmLookuper { trie, mapper: SortedArrayMapper::new() }
    }

    /// Looks up a combined gram, returning the observed count or `None`
    /// when the exact n-gram was never present.
    pub fn with_gram(&mut self, gram: Gram<'_, u8>) -> (r: Option<usize>)
        requires
            old(self).spec_trie().wf(),
        ensures
            final(self).spec_trie() == old(self).spec_trie(),
            r == old(self).spec_trie().spec_gram_query(gram@),
    {
        let trie = self.trie;
        if self.mapper.from_gram(gram, &trie.vocab) {
            proof {
                crate::gram::lemma_spec_split_len(gram@);
            }
            if self.mapper.ids.len() <= trie.counts.len() {
                proof {
                    let toks = spec_split(gram@);
                    assert(self.mapper.ids@[0] == opt_u(trie.vocab.spec_get(toks[0])));
                    assert(trie.vocab.spec_get(toks[0]) is Some);
                }
                self.find()
            } else {
                None
            }
        } else {
            None
        }
    }

    /// Looks up a gram whose tokens are separated by spaces, returning
    /// the observed count or `None`.
    pub fn with_str(&mut self, gram: &str) -> (r: Option<usize>)
        requires
            old(self).spec_trie().wf(),
        ensures
            final(self).spec_trie() == old(self).spec_trie(),
            r == old(self).spec_trie().spec_gram_query(gram.spec_bytes()),
    {
        self.with_gram(Gram::from_str(gram))
    }

    /// Looks up a gram given as an explicit token list, returning the
    /// observed count or `None`. A zero-token query is not supported.
    pub fn with_tokens(&mut self, tokens: &[&str]) -> (r: Option<usize>)
        requires
            old(self).spec_trie().wf(),
            tokens@.len() >= 1,
        ensures
            final(self).spec_trie() == old(self).spec_trie(),
            r == old(self).spec_trie().spec_tokens_query(strs_bytes(tokens@)),
    {
        let trie = self.trie;
        if self.mapper.from_tokens(tokens, &trie.vocab) {
            if self.mapper.ids.len() <= trie.counts.len() {
                proof {
                    let toks = strs_bytes(tokens@);
                    assert(self.mapper.ids@[0] == opt_u(trie.vocab.spec_get(toks[0])));
                    assert(trie.vocab.spec_get(toks[0]) is Some);
                }
                self.find()
            } else {
                None
            }
        } else {
            None
        }
    }

    /// Threads the resolved ids through the trie levels and resolves the
    /// final position's count, stopping at the first missing edge.
    fn find(&self) -> (r: Option<usize>)
        requires
            self.trie.wf(),
            1 <= self.mapper.ids@.len() <= self.trie.counts@.len(),
            (self.mapper.ids@[0] as int) < self.trie.count_ranks@[0].spec_len(),
        ensures
            r == self.trie.spec_count(self.mapper.ids@),
    {
        let ids = &self.mapper.ids;
        let len = ids.len();
        let order = len - 1;
        let mut pos: usize = ids[0];
        let mut d: usize = 1;
        while d < len
            invariant
                self.trie.wf(),
                ids@ == self.mapper.ids@,
                1 <= len == ids@.len() <= self.trie.counts@.len(),
                order == len - 1,
                1 <= d <= len,
                self.trie.spec_pos(ids@, d - 1) == Some(pos as int),
                (pos as int) < self.trie.count_ranks@[d - 1].spec_len(),
            decreases len - d,
        {
            match self.trie.arrays[d - 1].find_token(pos, ids[d]) {
                Some(next) => {
                    pos = next;
                },
                None => {
                    proof {
                        assert(self.trie.spec_pos(ids@, d as int) is None);
                        self.trie.lemma_pos_none(ids@, d as int, order as int);
                    }
                    return None;
                },
            }
            d += 1;
        }
        let rank = self.trie.count_ranks[order].get(pos);
        Some(self.trie.counts[order].get(rank))
    }
}

} // verus!
