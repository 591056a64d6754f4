use vstd::prelude::*;

use crate::error::Error;
use crate::gram::gram_views;
use crate::gram::Gram;
use crate::keyset::has_pair;
use crate::keyset::lemma_sorted_no_adjacent_dup_strict;
use crate::keyset::lemma_strict_unique;
use crate::keyset::find_adjacent_duplicate;
use crate::keyset::sort_keyset;
use crate::keyset::sorted_lt;
use crate::keyset::KeyVec;
use crate::serial::frame_into;
use crate::serial::frame_ok;
use crate::serial::lemma_frame_len;
use crate::serial::lemma_frame_round_trip;
use crate::serial::spec_frame;
use crate::serial::spec_frame_payload;
use crate::serial::spec_frame_rest;
use crate::serial::unframe_from;
use crate::vocabulary::contains_nul;
use crate::vocabulary::distinct_tokens;
use crate::vocabulary::has_nul;
use crate::vocabulary::lemma_token_index;
use crate::vocabulary::matches_index;
use crate::vocabulary::spec_token_index;
use crate::vocabulary::Vocabulary;
use crate::vocabulary::MAX_TOKENS;

verus! {

/// What `yada::DoubleArray::exact_match_search` answers over a double-array
/// byte image for a given key; a function of the image and key bytes alone.
pub uninterp spec fn da_search(data: Seq<u8>, key: Seq<u8>) -> Option<u32>;

/// Whether `yada::builder::DoubleArrayBuilder::build` accepts a key set;
/// a function of the key set alone.
pub uninterp spec fn da_build_ok(keyset: Seq<(Vec<u8>, u32)>) -> bool;

/// A strictly sorted arrangement of the tokens' key set: each token's
/// bytes paired with the id it received.
pub open spec fn sorted_keyset_of(ks: Seq<(Vec<u8>, u32)>, tokens: Seq<Seq<u8>>) -> bool {
    &&& sorted_lt(ks)
    &&& ks.len() == tokens.len()
    &&& forall|k: Seq<u8>, v: u32|
        #[trigger] has_pair(ks, k, v) == ((v as int) < tokens.len() && tokens[v as int] == k)
}

/// The 32-bit unit stored at index `i` of a double-array image, read as a
/// little-endian integer.
pub open spec fn spec_unit(data: Seq<u8>, i: int) -> u32 {
    vstd::bytes::spec_u32_from_le_bytes(data.subrange(4 * i, 4 * i + 4))
}

/// A unit whose top bit is set is a leaf and carries a 31-bit value; any
/// other unit is a trie node.
pub open spec fn spec_unit_is_leaf(u: u32) -> bool {
    u >> 31 == 1
}

/// Whether a node unit announces a leaf child reachable by the NUL edge.
pub open spec fn spec_unit_has_leaf(u: u32) -> bool {
    (u >> 8) & 1 == 1
}

/// A node unit's offset field, widened by the extension flag.
pub open spec fn spec_unit_offset(u: u32) -> u32 {
    (u >> 10) << ((u & 0x200) >> 6)
}

/// The index a node unit at `i` sends the NUL edge to.
pub open spec fn spec_da_target(data: Seq<u8>, i: int) -> int {
    ((spec_unit_offset(spec_unit(data, i)) as usize) ^ (i as usize)) as int
}

/// A byte image that exact-match search walks without faulting: unit-sized
/// and block-aligned, every node unit's offset stays inside the image, the
/// root is a node, and every announced NUL edge lands on a leaf. Search
/// reaches further units only through label matches, and a leaf's label
/// field exceeds every key byte, so no other unit is ever treated as a
/// node. Images the builder produces satisfy this.
pub open spec fn spec_da_safe(data: Seq<u8>) -> bool {
    let num = data.len() as int / 4;
    &&& data.len() % 4 == 0
    &&& 0 < num
    &&& num % 256 == 0
    &&& !spec_unit_is_leaf(spec_unit(data, 0))
    &&& forall|i: int|
        0 <= i < num && !spec_unit_is_leaf(#[trigger] spec_unit(data, i)) ==> spec_da_target(
            data,
            i,
        ) < num
    &&& forall|i: int|
        0 <= i < num && !spec_unit_is_leaf(#[trigger] spec_unit(data, i)) && spec_unit_has_leaf(
            spec_unit(data, i),
        ) ==> spec_unit_is_leaf(spec_unit(data, spec_da_target(data, i)))
}

/// Reads the unit at index `i` of the image.
fn read_unit(data: &Vec<u8>, i: usize) -> (u: u32)
    requires
        4 * i + 4 <= data@.len(),
    ensures
        u == spec_unit(data@, i as int),
{
    let n = data.len();
    proof {
        assert(4 * i + 4 <= n);
    }
    let u = vstd::bytes::u32_from_le_bytes(&data.as_slice()[4 * i..4 * i + 4]);
    proof {
        assert(data@.subrange(4 * i as int, 4 * i + 4) == data@.subrange(
            4 * (i as int),
            4 * (i as int) + 4,
        ));
    }
    u
}

/// Checks that a byte image is safe to search, by scanning every unit.
fn check_image(data: &Vec<u8>) -> (r: bool)
    ensures
        r == spec_da_safe(data@),
{
    let len = data.len();
    if len % 4 != 0 || len == 0 {
        return false;
    }
    let num = len / 4;
    proof {
        assert(4 * (len as int / 4) == len);
    }
    if num % 256 != 0 {
        return false;
    }
    let u0 = read_unit(data, 0);
    if u0 >> 31 == 1 {
        return false;
    }
    let mut i: usize = 0;
    while i < num
        invariant
            len == data@.len(),
            len % 4 == 0,
            num == len / 4,
            4 * num == len,
            0 < num,
            num % 256 == 0,
            !spec_unit_is_leaf(spec_unit(data@, 0)),
            i <= num,
            forall|j: int|
                0 <= j < i && !spec_unit_is_leaf(#[trigger] spec_unit(data@, j))
                    ==> spec_da_target(data@, j) < num,
            forall|j: int|
                0 <= j < i && !spec_unit_is_leaf(#[trigger] spec_unit(data@, j))
                    && spec_unit_has_leaf(spec_unit(data@, j)) ==> spec_unit_is_leaf(
                    spec_unit(data@, spec_da_target(data@, j)),
                ),
        decreases num - i,
    {
        let u = read_unit(data, i);
        if u >> 31 != 1 {
            let ext = (u & 0x200) >> 6;
            proof {
                assert((u & 0x200) >> 6 <= 8) by (bit_vector);
            }
            let off = (u >> 10) << ext;
            let t = (off as usize) ^ i;
            if t >= num {
                return false;
            }
            if (u >> 8) & 1 == 1 {
                let ut = read_unit(data, t);
                if ut >> 31 != 1 {
                    return false;
                }
            }
        }
        i += 1;
    }
    true
}

/// What a key set associates with a key: the value of its first entry for
/// that key, when one exists.
pub open spec fn spec_keyset_search(s: Seq<(Vec<u8>, u32)>, t: Seq<u8>) -> Option<u32>
    decreases s.len(),
{
    if s.len() == 0 {
        None
    } else if s[0].0@ == t {
        Some(s[0].1)
    } else {
        spec_keyset_search(s.skip(1), t)
    }
}

proof fn lemma_keyset_search_found(s: Seq<(Vec<u8>, u32)>, t: Seq<u8>, p: int)
    requires
        0 <= p < s.len(),
        s[p].0@ == t,
        forall|q: int| 0 <= q < p ==> (#[trigger] s[q]).0@ != t,
    ensures
        spec_keyset_search(s, t) == Some(s[p].1),
    decreases p,
{
    if p == 0 {
    } else {
        assert forall|q: int| 0 <= q < p - 1 implies (#[trigger] s.skip(1)[q]).0@ != t by {
            assert(s.skip(1)[q] == s[q + 1]);
        }
        assert(s.skip(1)[p - 1] == s[p]);
        lemma_keyset_search_found(s.skip(1), t, p - 1);
    }
}

proof fn lemma_keyset_search_none(s: Seq<(Vec<u8>, u32)>, t: Seq<u8>)
    requires
        forall|q: int| 0 <= q < s.len() ==> (#[trigger] s[q]).0@ != t,
    ensures
        spec_keyset_search(s, t) is None,
    decreases s.len(),
{
    if s.len() > 0 {
        assert forall|q: int| 0 <= q < s.skip(1).len() implies (#[trigger] s.skip(1)[q]).0@
            != t by {
            assert(s.skip(1)[q] == s[q + 1]);
        }
        lemma_keyset_search_none(s.skip(1), t);
    }
}

/// Relies on yada::builder::DoubleArrayBuilder::build: over a non-empty
/// key set whose keys are non-empty, free of NUL bytes and strictly sorted
/// bytewise, and whose values stay below 2^31, it either reports that the
/// trie would exceed its unit budget — a deterministic outcome of the key
/// set, named `da_build_ok` — or produces the non-empty byte image of a
/// double-array trie that associates exactly the given keys with the given
/// values. The image spans at most 2^31 bytes (2^29 units of four bytes)
/// and is safe to search: the builder emits whole blocks, reserves the
/// root as a node, marks exactly the value-carrying child units as leaves,
/// and records a NUL edge only where it placed such a leaf.
#[verifier::external_body]
fn build_double_array(keyset: &KeyVec) -> (r: Option<Vec<u8>>)
    requires
        keyset@.len() > 0,
        sorted_lt(keyset@),
        forall|i: int| 0 <= i < keyset@.len() ==> (#[trigger] keyset@[i]).0@.len() > 0,
        forall|i: int| 0 <= i < keyset@.len() ==> !has_nul((#[trigger] keyset@[i]).0@),
        forall|i: int| 0 <= i < keyset@.len() ==> (#[trigger] keyset@[i]).1 < 0x8000_0000,
    ensures
        r is Some <==> da_build_ok(keyset@),
        r matches Some(d) ==> {
            &&& 0 < d@.len() <= 0x8000_0000
            &&& spec_da_safe(d@)
            &&& forall|t: Seq<u8>|
                !has_nul(t) ==> #[trigger] da_search(d@, t) == spec_keyset_search(keyset@, t)
        },
{
    match yada::builder::DoubleArrayBuilder::build(keyset.as_slice()) {
        Ok(d) => Some(d),
        Err(_) => None,
    }
}

/// Relies on yada::DoubleArray::{new, exact_match_search}: over a safe
/// image (`spec_da_safe`) and a NUL-free key, search finds the value
/// stored under exactly that key, or nothing, and never faults. The image
/// passes `new`'s validation (its checks are among the safe-image
/// conditions); every step from a node stays inside the block-aligned
/// image because the checked offsets are only perturbed in their low
/// byte; a leaf's label field exceeds every key byte, so only node units
/// are ever label-matched; the root is a node; the final NUL edge lands
/// on a leaf whose value field is 31 bits by construction.
#[verifier::external_body]
fn search_double_array(data: &Vec<u8>, key: &[u8]) -> (r: Option<u32>)
    requires
        spec_da_safe(data@),
        !has_nul(key@),
    ensures
        r == da_search(data@, key@),
{
    match yada::DoubleArray::new(data.as_slice()) {
        Ok(da) => da.exact_match_search(key),
        Err(_) => None,
    }
}

/// Whether a well-formed vocabulary's byte image leads the stream.
pub open spec fn da_leads(v0: DoubleArrayVocabulary, bytes: Seq<u8>) -> bool {
    &&& v0.spec_wf()
    &&& v0.spec_encoding().len() <= bytes.len()
    &&& bytes.take(v0.spec_encoding().len() as int) == v0.spec_encoding()
}

/// Compact double-array trie encoding of the vocabulary capability.
#[derive(Debug)]
pub struct DoubleArrayVocabulary {
    data: Vec<u8>,
}

/// What a double-array image answers for a token: nothing for a token
/// holding a NUL byte (such a token is never registered), else the image's
/// exact-match result.
pub open spec fn spec_da_get(data: Seq<u8>, t: Seq<u8>) -> Option<usize> {
    if data.len() == 0 || has_nul(t) {
        None
    } else {
        match da_search(data, t) {
            Some(v) => Some(v as usize),
            None => None,
        }
    }
}

impl Vocabulary for DoubleArrayVocabulary {
    closed spec fn spec_wf(&self) -> bool {
        &&& (self.data@.len() == 0 || spec_da_safe(self.data@))
        &&& self.data@.len() + 8 <= usize::MAX
    }

    closed spec fn spec_get(&self, t: Seq<u8>) -> Option<usize> {
        spec_da_get(self.data@, t)
    }

    closed spec fn spec_encoding(&self) -> Seq<u8> {
        spec_frame(self.data@)
    }

    open spec fn spec_build_accepts(tokens: Seq<Seq<u8>>) -> bool {
        tokens.len() == 0 || {
            &&& forall|i: int|
                0 <= i < tokens.len() ==> (#[trigger] tokens[i]).len() > 0 && !has_nul(tokens[i])
            &&& forall|ks: Seq<(Vec<u8>, u32)>|
                #[trigger] sorted_keyset_of(ks, tokens) ==> da_build_ok(ks)
        }
    }

    fn new() -> (r: Self) {
        DoubleArrayVocabulary { data: Vec::new() }
    }

    fn build(tokens: &[Gram<'_, u8>]) -> (r: Result<Self, Error>) {
        let ghost views = gram_views(tokens@);
        let n = tokens.len();
        if n > MAX_TOKENS {
            return Err(Error::TooManyTokens { len: n });
        }
        if n == 0 {
            return Ok(DoubleArrayVocabulary { data: Vec::new() });
        }
        let mut keyset: KeyVec = Vec::new();
        let mut i: usize = 0;
        while i < n
            invariant
                n == tokens@.len(),
                n <= MAX_TOKENS,
                views == gram_views(tokens@),
                i <= n,
                keyset@.len() == i,
                forall|j: int|
                    0 <= j < i ==> (#[trigger] keyset@[j]).0@ == views[j] && keyset@[j].1 == j,
            decreases n - i,
        {
            let tok = tokens[i];
            keyset.push((tok.to_vec(), i as u32));
            i += 1;
        }
        let ghost keyset0 = keyset@;
        let sorted = sort_keyset(keyset);
        if let Some(d) = find_adjacent_duplicate(&sorted) {
            let token = Gram::new(sorted[d].0.as_slice()).to_vec();
            let id = sorted[d].1;
            proof {
                let di = d as int;
                assert(has_pair(sorted@, sorted@[di].0@, sorted@[di].1));
                assert(has_pair(keyset0, sorted@[di].0@, sorted@[di].1));
                let w1 = choose|w: int|
                    0 <= w < keyset0.len() && (#[trigger] keyset0[w]).0@ == sorted@[di].0@
                        && keyset0[w].1 == sorted@[di].1;
                assert(has_pair(sorted@, sorted@[di + 1].0@, sorted@[di + 1].1));
                assert(has_pair(keyset0, sorted@[di + 1].0@, sorted@[di + 1].1));
                let w2 = choose|w: int|
                    0 <= w < keyset0.len() && (#[trigger] keyset0[w]).0@ == sorted@[di + 1].0@
                        && keyset0[w].1 == sorted@[di + 1].1;
                assert(sorted@[di].1 != sorted@[di + 1].1);
                assert(views[w1] == views[w2] && w1 != w2);
                assert(!distinct_tokens(views));
                assert(token@ == sorted@[di].0@);
                assert(w1 == id as int && views[w1] == token@);
                assert(0 <= w2 < views.len() && w2 != id as int && gram_views(tokens@)[w2]
                    == token@);
            }
            return Err(Error::DuplicateToken { token, id: id as usize });
        }
        proof {
            lemma_sorted_no_adjacent_dup_strict(sorted@);
        }
        let m = sorted.len();
        let mut j: usize = 0;
        while j < m
            invariant
                m == sorted@.len(),
                m == tokens@.len(),
                tokens@.len() <= MAX_TOKENS,
                tokens@.len() > 0,
                views == gram_views(tokens@),
                keyset0.len() == tokens@.len(),
                forall|w: int|
                    0 <= w < keyset0.len() ==> (#[trigger] keyset0[w]).0@ == views[w]
                        && keyset0[w].1 == w,
                forall|k: Seq<u8>, v: u32| has_pair(sorted@, k, v) == has_pair(keyset0, k, v),
                j <= m,
                forall|k: int|
                    0 <= k < j ==> (#[trigger] sorted@[k]).0@.len() > 0 && !has_nul(
                        sorted@[k].0@,
                    ),
            decreases m - j,
        {
            if sorted[j].0.len() == 0 || contains_nul(sorted[j].0.as_slice()) {
                proof {
                    let e0 = sorted@[j as int];
                    assert(has_pair(sorted@, e0.0@, e0.1));
                    assert(has_pair(keyset0, e0.0@, e0.1));
                    let w = choose|w: int|
                        0 <= w < keyset0.len() && (#[trigger] keyset0[w]).0@ == e0.0@
                            && keyset0[w].1 == e0.1;
                    assert(views[w].len() == 0 || has_nul(views[w]));
                    assert(!Self::spec_build_accepts(views));
                }
                return Err(Error::BuildRejected);
            }
            j += 1;
        }
        proof {
            assert forall|a: int| 0 <= a < sorted@.len() implies (#[trigger] sorted@[a]).1
                < 0x8000_0000 by {
                assert(has_pair(sorted@, sorted@[a].0@, sorted@[a].1));
                let w = choose|w: int|
                    0 <= w < keyset0.len() && (#[trigger] keyset0[w]).0@ == sorted@[a].0@
                        && keyset0[w].1 == sorted@[a].1;
                assert(keyset0[w].1 == w);
            }
            assert forall|a: int, b: int| 0 <= a < b < views.len() implies views[a] != views[b] by {
                if views[a] == views[b] {
                    assert(keyset0[a].0@ == views[a] && keyset0[a].1 == a as u32);
                    assert(has_pair(keyset0, views[a], a as u32));
                    assert(has_pair(sorted@, views[a], a as u32));
                    let pa = choose|p: int|
                        0 <= p < sorted@.len() && (#[trigger] sorted@[p]).0@ == views[a]
                            && sorted@[p].1 == a as u32;
                    assert(keyset0[b].0@ == views[b] && keyset0[b].1 == b as u32);
                    assert(has_pair(keyset0, views[b], b as u32));
                    assert(has_pair(sorted@, views[b], b as u32));
                    let pb = choose|p: int|
                        0 <= p < sorted@.len() && (#[trigger] sorted@[p]).0@ == views[b]
                            && sorted@[p].1 == b as u32;
                    lemma_strict_unique(sorted@, pa, pb);
                }
            }
        }
        match build_double_array(&sorted) {
            Some(data) => {
                let v = DoubleArrayVocabulary { data };
                proof {
                    assert forall|t: Seq<u8>| matches_index(
                        #[trigger] v.spec_get(t),
                        spec_token_index(views, t),
                    ) by {
                        lemma_token_index(views, t);
                        let idx = spec_token_index(views, t);
                        lemma_da_build_case(v.data@, sorted@, keyset0, views, t, idx);
                    }
                }
                Ok(v)
            },
            None => {
                proof {
                    if tokens@.len() <= MAX_TOKENS && distinct_tokens(views)
                        && Self::spec_build_accepts(views) {
                        assert(sorted_keyset_of(sorted@, views)) by {
                            assert forall|k: Seq<u8>, v: u32| #[trigger] has_pair(sorted@, k, v)
                                == ((v as int) < views.len() && views[v as int] == k) by {
                                if has_pair(sorted@, k, v) {
                                    assert(has_pair(keyset0, k, v));
                                    let w = choose|w: int|
                                        0 <= w < keyset0.len() && (#[trigger] keyset0[w]).0@ == k
                                            && keyset0[w].1 == v;
                                    assert(views[w] == k && w == v as int);
                                }
                                if (v as int) < views.len() && views[v as int] == k {
                                    assert(keyset0[v as int].0@ == k && keyset0[v as int].1 == v);
                                    assert(has_pair(keyset0, k, v));
                                }
                            }
                        }
                        assert(da_build_ok(sorted@));
                        assert(false);
                    }
                }
                Err(Error::BuildRejected)
            },
        }
    }

    fn get(&self, token: Gram<'_, u8>) -> (r: Option<usize>) {
        if self.data.len() == 0 {
            return None;
        }
        let raw = token.raw();
        if contains_nul(raw) {
            return None;
        }
        match search_double_array(&self.data, raw) {
            Some(v) => Some(v as usize),
            None => None,
        }
    }

    fn serialize_into(&self, out: &mut Vec<u8>) -> (r: Result<usize, Error>) {
        let need = 8 + self.data.len();
        proof {
            lemma_frame_len(self.data@);
        }
        if out.len() <= usize::MAX - need {
            let n = frame_into(&self.data, out);
            Ok(n)
        } else {
            Err(Error::OutOfSpace)
        }
    }

    fn deserialize_from<'x>(bytes: &'x [u8]) -> (r: Result<(Self, &'x [u8]), Error>) {
        if !frame_ok(bytes) {
            proof {
                assert forall|v0: DoubleArrayVocabulary| #![trigger v0.spec_encoding()]
                    !da_leads(v0, bytes@) by {
                    if da_leads(v0, bytes@) {
                        lemma_da_leads(v0, bytes@);
                        assert(false);
                    }
                }
            }
            return Err(Error::Truncated);
        }
        let total = bytes.len();
        let (payload, rest) = unframe_from(bytes);
        if payload.len() > 0 && !check_image(&payload) {
            proof {
                assert forall|v0: DoubleArrayVocabulary| #![trigger v0.spec_encoding()]
                    !da_leads(v0, bytes@) by {
                    if da_leads(v0, bytes@) {
                        lemma_da_leads(v0, bytes@);
                        assert(payload@ == v0.data@);
                        assert(false);
                    }
                }
            }
            return Err(Error::InvalidPayload);
        }
        let v = DoubleArrayVocabulary { data: payload };
        proof {
            lemma_frame_len(v.data@);
            assert(bytes@.len() == total);
            assert(v.data@.len() + 8 <= usize::MAX);
            assert(bytes@ =~= v.spec_encoding() + rest@) by {
                crate::serial::lemma_frame_reassemble(bytes@);
            }
            assert forall|v0: DoubleArrayVocabulary| #![trigger v0.spec_encoding()]
                da_leads(v0, bytes@) implies {
                &&& rest@ == bytes@.skip(v0.spec_encoding().len() as int)
                &&& forall|t: Seq<u8>| #[trigger] v.spec_get(t) == v0.spec_get(t)
            } by {
                lemma_da_leads(v0, bytes@);
            }
        }
        Ok((v, rest))
    }

    fn size_in_bytes(&self) -> (r: usize) {
        proof {
            lemma_frame_len(self.data@);
        }
        8 + self.data.len()
    }

    fn memory_statistics(&self) -> (r: Vec<(&'static str, usize)>) {
        let mut r: Vec<(&'static str, usize)> = Vec::new();
        r.push(("data", self.size_in_bytes()));
        proof {
            assert(r@.skip(1) =~= Seq::<(&'static str, usize)>::empty());
            assert(crate::vocabulary::spec_stats_total(r@) == r@[0].1
                + crate::vocabulary::spec_stats_total(r@.skip(1)));
        }
        r
    }
}

/// A stream led by a well-formed vocabulary's image starts with a valid
/// frame holding exactly that vocabulary's data.
proof fn lemma_da_leads(v0: DoubleArrayVocabulary, bytes: Seq<u8>)
    requires
        da_leads(v0, bytes),
    ensures
        crate::serial::spec_frame_ok(bytes),
        spec_frame_payload(bytes) == v0.data@,
        spec_frame_rest(bytes) == bytes.skip(v0.spec_encoding().len() as int),
        v0.data@.len() == 0 || spec_da_safe(v0.data@),
{
    lemma_frame_len(v0.data@);
    let extra = bytes.skip(v0.spec_encoding().len() as int);
    lemma_frame_round_trip(v0.data@, extra);
    assert(bytes =~= spec_frame(v0.data@) + extra);
}

/// One token's case of the build contract: the image answers for `t`
/// exactly the id `t` received, through the sorted key set.
proof fn lemma_da_build_case(
    data: Seq<u8>,
    sorted: Seq<(Vec<u8>, u32)>,
    keyset0: Seq<(Vec<u8>, u32)>,
    views: Seq<Seq<u8>>,
    t: Seq<u8>,
    idx: int,
)
    requires
        0 < data.len(),
        sorted_lt(sorted),
        forall|t2: Seq<u8>, v2: u32| has_pair(sorted, t2, v2) == has_pair(keyset0, t2, v2),
        keyset0.len() == views.len(),
        forall|j: int| 0 <= j < keyset0.len() ==> (#[trigger] keyset0[j]).0@ == views[j]
            && keyset0[j].1 == j,
        forall|k: int| 0 <= k < sorted.len() ==> !has_nul((#[trigger] sorted[k]).0@),
        forall|t2: Seq<u8>|
            !has_nul(t2) ==> #[trigger] da_search(data, t2) == spec_keyset_search(sorted, t2),
        distinct_tokens(views),
        views.len() <= 0x7fff_ffff,
        idx == spec_token_index(views, t),
        -1 <= idx < views.len(),
        idx >= 0 ==> views[idx] == t,
        idx == -1 ==> forall|j: int| 0 <= j < views.len() ==> views[j] != t,
    ensures
        matches_index(spec_da_get(data, t), idx),
{
    if has_nul(t) {
        if idx >= 0 {
            assert(keyset0[idx].0@ == t && keyset0[idx].1 == idx as u32);
            assert(has_pair(keyset0, t, idx as u32));
            assert(has_pair(sorted, t, idx as u32));
            let p = choose|p: int|
                0 <= p < sorted.len() && (#[trigger] sorted[p]).0@ == t && sorted[p].1 == idx
                    as u32;
            assert(!has_nul(sorted[p].0@));
            assert(false);
        }
    } else if idx >= 0 {
        assert(keyset0[idx].0@ == t && keyset0[idx].1 == idx as u32);
        assert(has_pair(keyset0, t, idx as u32));
        assert(has_pair(sorted, t, idx as u32));
        let p = choose|p: int|
            0 <= p < sorted.len() && (#[trigger] sorted[p]).0@ == t && sorted[p].1 == idx as u32;
        assert forall|q: int| 0 <= q < p implies (#[trigger] sorted[q]).0@ != t by {
            if sorted[q].0@ == t {
                lemma_strict_unique(sorted, q, p);
            }
        }
        lemma_keyset_search_found(sorted, t, p);
        assert(da_search(data, t) == Some(idx as u32));
    } else {
        assert forall|q: int| 0 <= q < sorted.len() implies (#[trigger] sorted[q]).0@ != t by {
            if sorted[q].0@ == t {
                assert(has_pair(sorted, t, sorted[q].1));
                assert(has_pair(keyset0, t, sorted[q].1));
                let w = choose|w: int|
                    0 <= w < keyset0.len() && (#[trigger] keyset0[w]).0@ == t && keyset0[w].1
                        == sorted[q].1;
                assert(views[w] == t);
            }
        }
        lemma_keyset_search_none(sorted, t);
    }
}

} // verus!
