pub mod double_array;
pub mod simple;

use vstd::prelude::*;

use crate::error::Error;
use crate::gram::gram_views;
use crate::gram::Gram;

verus! {

/// Upper bound on a vocabulary's size: ids must fit in 31 bits.
pub const MAX_TOKENS: usize = 0x7fff_ffff;

/// Index of `t` in the token list — the id it received at build time — or
/// `-1` when it is not registered.
pub open spec fn spec_token_index(tokens: Seq<Seq<u8>>, t: Seq<u8>) -> int
    decreases tokens.len(),
{
    if tokens.len() == 0 {
        -1
    } else if tokens[0] == t {
        0
    } else {
        let r = spec_token_index(tokens.skip(1), t);
        if r < 0 {
            -1
        } else {
            r + 1
        }
    }
}

/// Whether a lookup result names exactly the token index: the id for a
/// registered token, `None` for an unregistered one.
pub open spec fn matches_index(r: Option<usize>, idx: int) -> bool {
    match r {
        Some(u) => idx == u,
        None => idx < 0,
    }
}

/// Pairwise-distinct token list.
pub open spec fn distinct_tokens(tokens: Seq<Seq<u8>>) -> bool {
    forall|i: int, j: int| 0 <= i < j < tokens.len() ==> tokens[i] != tokens[j]
}

pub proof fn lemma_token_index(tokens: Seq<Seq<u8>>, t: Seq<u8>)
    ensures
        -1 <= spec_token_index(tokens, t) < tokens.len(),
        spec_token_index(tokens, t) >= 0 ==> tokens[spec_token_index(tokens, t)] == t,
        spec_token_index(tokens, t) == -1 ==> forall|j: int| 0 <= j < tokens.len() ==> tokens[j]
            != t,
        forall|j: int| 0 <= j < spec_token_index(tokens, t) ==> tokens[j] != t,
    decreases tokens.len(),
{
    if tokens.len() == 0 {
    } else if tokens[0] == t {
    } else {
        lemma_token_index(tokens.skip(1), t);
        assert(forall|j: int| 1 <= j < tokens.len() ==> tokens[j] == tokens.skip(1)[j - 1]);
        if spec_token_index(tokens, t) == -1 {
            assert forall|j: int| 0 <= j < tokens.len() implies tokens[j] != t by {
                if j > 0 {
                    assert(tokens.skip(1)[j - 1] == tokens[j]);
                }
            }
        } else {
            assert(tokens.skip(1)[spec_token_index(tokens.skip(1), t)] == tokens[spec_token_index(
                tokens,
                t,
            )]);
        }
    }
}

/// Total byte count of a statistics breakdown.
pub open spec fn spec_stats_total(s: Seq<(&'static str, usize)>) -> int
    decreases s.len(),
{
    if s.len() == 0 {
        0
    } else {
        s[0].1 + spec_stats_total(s.skip(1))
    }
}

/// Whether the byte sequence holds a NUL byte.
pub open spec fn has_nul(s: Seq<u8>) -> bool {
    exists|i: int| 0 <= i < s.len() && s[i] == 0
}

/// Scans a slice for a NUL byte.
pub fn contains_nul(s: &[u8]) -> (r: bool)
    ensures
        r == has_nul(s@),
{
    let n = s.len();
    let mut i: usize = 0;
    while i < n
        invariant
            n == s@.len(),
            i <= n,
            forall|j: int| 0 <= j < i ==> s@[j] != 0,
        decreases n - i,
    {
        if s[i] == 0 {
            return true;
        }
        i += 1;
    }
    false
}

/// Capability contract for mapping a token's bytes to the dense id it
/// received when the vocabulary was built. Lookups are read-only and safe
/// to share; ids keep the build input's order.
pub trait Vocabulary: Sized {
    /// Internal well-formedness; established by every constructor.
    spec fn spec_wf(&self) -> bool;

    /// What `get` answers for each token value.
    spec fn spec_get(&self, t: Seq<u8>) -> Option<usize>;

    /// The byte image that `serialize_into` appends.
    spec fn spec_encoding(&self) -> Seq<u8>;

    /// The token lists this encoding promises to accept, beyond being
    /// duplicate-free and within the id budget; an encoding whose backing
    /// builder decides acceptance states that builder's own verdict here.
    spec fn spec_build_accepts(tokens: Seq<Seq<u8>>) -> bool;

    /// Creates an empty vocabulary.
    fn new() -> (r: Self)
        ensures
            r.spec_wf(),
            forall|t: Seq<u8>| #[trigger] r.spec_get(t) is None,
    ;

    /// Builds a vocabulary over the ordered token list; each token's id is
    /// its position in the input, whatever order construction sorts by
    /// internally. Construction fails when the list needs more than 31
    /// bits to index, or holds a repeated token, and never yields a
    /// partial structure.
    fn build(tokens: &[Gram<'_, u8>]) -> (r: Result<Self, Error>)
        ensures
            (r matches Ok(v) ==> {
                &&& v.spec_wf()
                &&& tokens@.len() <= MAX_TOKENS
                &&& distinct_tokens(gram_views(tokens@))
                &&& forall|t: Seq<u8>|
                    matches_index(
                        #[trigger] v.spec_get(t),
                        spec_token_index(gram_views(tokens@), t),
                    )
            }),
            tokens@.len() > MAX_TOKENS ==> (r matches Err(e) && e is TooManyTokens),
            !distinct_tokens(gram_views(tokens@)) && tokens@.len() <= MAX_TOKENS ==> r is Err,
            (r matches Err(Error::DuplicateToken { token, id }) ==> {
                &&& id < tokens@.len()
                &&& gram_views(tokens@)[id as int] == token@
                &&& exists|j: int|
                    0 <= j < tokens@.len() && j != id && #[trigger] gram_views(tokens@)[j]
                        == token@
            }),
            tokens@.len() <= MAX_TOKENS && distinct_tokens(gram_views(tokens@))
                && Self::spec_build_accepts(gram_views(tokens@)) ==> r is Ok,
            tokens@.len() == 0 ==> r is Ok,
    ;

    /// Exact-match lookup: the token's id, or `None` when it was never
    /// registered.
    fn get(&self, token: Gram<'_, u8>) -> (r: Option<usize>)
        requires
            self.spec_wf(),
        ensures
            r == self.spec_get(token@),
    ;

    /// Appends the vocabulary's self-framing byte image to the sink and
    /// returns its exact size; fails, writing nothing, only when that size
    /// cannot be appended within `usize` addressing.
    fn serialize_into(&self, out: &mut Vec<u8>) -> (r: Result<usize, Error>)
        requires
            self.spec_wf(),
        ensures
            (r matches Ok(n) ==> {
                &&& final(out)@ == old(out)@ + self.spec_encoding()
                &&& n == self.spec_encoding().len()
            }),
            r is Err ==> final(out)@ == old(out)@,
            r is Err ==> old(out)@.len() + self.spec_encoding().len() > usize::MAX,
    ;

    /// Reads one vocabulary back from the front of the stream and hands
    /// the remaining bytes on; fails cleanly on truncated or malformed
    /// input. A stream led by the image of a well-formed vocabulary is
    /// accepted and yields one answering every lookup identically.
    fn deserialize_from<'x>(bytes: &'x [u8]) -> (r: Result<(Self, &'x [u8]), Error>)
        ensures
            (r matches Ok(p) ==> {
                &&& p.0.spec_wf()
                &&& bytes@ == p.0.spec_encoding() + p.1@
            }),
            (r matches Ok(p) ==> forall|v0: Self|
                {
                    &&& v0.spec_wf()
                    &&& #[trigger] v0.spec_encoding().len() <= bytes@.len()
                    &&& bytes@.take(v0.spec_encoding().len() as int) == v0.spec_encoding()
                } ==> {
                    &&& p.1@ == bytes@.skip(v0.spec_encoding().len() as int)
                    &&& forall|t: Seq<u8>| #[trigger] p.0.spec_get(t) == v0.spec_get(t)
                }),
            (exists|v0: Self|
                {
                    &&& v0.spec_wf()
                    &&& #[trigger] v0.spec_encoding().len() <= bytes@.len()
                    &&& bytes@.take(v0.spec_encoding().len() as int) == v0.spec_encoding()
                }) ==> r is Ok,
    ;

    /// The exact number of bytes `serialize_into` appends.
    fn size_in_bytes(&self) -> (r: usize)
        requires
            self.spec_wf(),
        ensures
            r == self.spec_encoding().len(),
    ;

    /// Named byte-count breakdown of the encoded footprint, component by
    /// component; the counts sum to `size_in_bytes`.
    fn memory_statistics(&self) -> (r: Vec<(&'static str, usize)>)
        requires
            self.spec_wf(),
        ensures
            r@.len() >= 1,
            spec_stats_total(r@) == self.spec_encoding().len(),
    ;
}

} // verus!
