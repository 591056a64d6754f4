use vstd::prelude::*;
use vstd::string::StringSliceAdditionalSpecFns;

use crate::gram::spec_split;
use crate::gram::Gram;
use crate::trie_count_lm::all_known;
use crate::trie_count_lm::mapped_ids;
use crate::trie_count_lm::opt_u;
use crate::trie_count_lm::strs_bytes;
use crate::vocabulary::Vocabulary;

verus! {

/// Per-query scratch state: the resolved token-id buffer. It must not be
/// shared across concurrent queries.
#[derive(Debug)]
pub struct SortedArrayMapper {
    pub(crate) ids: Vec<usize>,
}

impl SortedArrayMapper {
    /// The resolved ids of the query being looked up.
    pub open(crate) spec fn spec_ids(&self) -> Seq<usize> {
        self.ids@
    }

    /// Creates an empty mapper.
    pub fn new() -> (r: Self)
        ensures
            r.spec_ids().len() == 0,
    {
        SortedArrayMapper { ids: Vec::new() }
    }

    /// Resolves every token of the gram to its id. Fails, leaving no
    /// usable buffer, as soon as any token is unknown.
    pub fn from_gram<V: Vocabulary>(&mut self, gram: Gram<'_, u8>, vocab: &V) -> (r: bool)
        requires
            vocab.spec_wf(),
        ensures
            r == all_known(*vocab, spec_split(gram@)),
            r ==> final(self).spec_ids() == mapped_ids(*vocab, spec_split(gram@)),
    {
        let toks = gram.split_to_tokens();
        proof {
            assert(crate::gram::gram_views(toks@) =~= spec_split(gram@));
        }
        self.map_token_list(&toks, vocab)
    }

    /// Resolves an explicit token list to ids, as `from_gram` does.
    pub fn from_tokens<V: Vocabulary>(&mut self, tokens: &[&str], vocab: &V) -> (r: bool)
        requires
            vocab.spec_wf(),
        ensures
            r == all_known(*vocab, strs_bytes(tokens@)),
            r ==> final(self).spec_ids() == mapped_ids(*vocab, strs_bytes(tokens@)),
    {
        self.ids.clear();
        let n = tokens.len();
        let ghost views = strs_bytes(tokens@);
        let mut i: usize = 0;
        while i < n
            invariant
                vocab.spec_wf(),
                n == tokens@.len(),
                views == strs_bytes(tokens@),
                i <= n,
                self.ids@.len() == i,
                forall|j: int|
                    0 <= j < i ==> (#[trigger] vocab.spec_get(views[j])) is Some && self.ids@[j]
                        == opt_u(vocab.spec_get(views[j])),
            decreases n - i,
        {
            match vocab.get(Gram::from_str(tokens[i])) {
                Some(id) => {
                    proof {
                        assert(views[i as int] == tokens@[i as int].spec_bytes());
                    }
                    self.ids.push(id);
                },
                None => {
                    proof {
                        assert(views[i as int] == tokens@[i as int].spec_bytes());
                    }
                    return false;
                },
            }
            i += 1;
        }
        proof {
            assert(self.ids@ =~= mapped_ids(*vocab, views));
        }
        true
    }

    /// The shared resolution loop over already-split token views.
    fn map_token_list<'a, V: Vocabulary>(
        &mut self,
        toks: &Vec<Gram<'a, u8>>,
        vocab: &V,
    ) -> (r: bool)
        requires
            vocab.spec_wf(),
        ensures
            r == all_known(*vocab, crate::gram::gram_views(toks@)),
            r ==> final(self).spec_ids() == mapped_ids(*vocab, crate::gram::gram_views(toks@)),
    {
        self.ids.clear();
        let n = toks.len();
        let ghost views = crate::gram::gram_views(toks@);
        let mut i: usize = 0;
        while i < n
            invariant
                vocab.spec_wf(),
                n == toks@.len(),
                views == crate::gram::gram_views(toks@),
                i <= n,
                self.ids@.len() == i,
                forall|j: int|
                    0 <= j < i ==> (#[trigger] vocab.spec_get(views[j])) is Some && self.ids@[j]
                        == opt_u(vocab.spec_get(views[j])),
            decreases n - i,
        {
            match vocab.get(toks[i]) {
                Some(id) => {
                    proof {
                        assert(views[i as int] == toks@[i as int]@);
                    }
                    self.ids.push(id);
                },
                None => {
                    proof {
                        assert(views[i as int] == toks@[i as int]@);
                    }
                    return false;
                },
            }
            i += 1;
        }
        proof {
            assert(self.ids@ =~= mapped_ids(*vocab, views));
        }
        true
    }
}

} // verus!
