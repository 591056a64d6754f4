use vstd::prelude::*;

use crate::error::Error;
use crate::gram::bytes_equal;
use crate::gram::gram_views;
use crate::gram::Gram;
use crate::keyset::has_pair;
use crate::keyset::lemma_sorted_no_adjacent_dup_strict;
use crate::keyset::lemma_strict_unique;
use crate::keyset::find_adjacent_duplicate;
use crate::keyset::sort_keyset;
use crate::keyset::KeyVec;
use crate::serial::frame_into;
use crate::serial::frame_ok;
use crate::serial::lemma_frame_len;
use crate::serial::lemma_frame_round_trip;
use crate::serial::spec_frame;
use crate::serial::spec_frame_ok;
use crate::serial::spec_frame_payload;
use crate::serial::spec_frame_rest;
use crate::serial::unframe_from;
use crate::vocabulary::distinct_tokens;
use crate::vocabulary::lemma_token_index;
use crate::vocabulary::matches_index;
use crate::vocabulary::spec_token_index;
use crate::vocabulary::Vocabulary;
use crate::vocabulary::MAX_TOKENS;

verus! {

/// The byte views of a list of owned keys.
pub open spec fn key_views(ks: Seq<Vec<u8>>) -> Seq<Seq<u8>> {
    ks.map(|i: int, k: Vec<u8>| k@)
}

/// The concatenation of the frames of the given payloads, in order.
pub open spec fn spec_frames(vs: Seq<Seq<u8>>) -> Seq<u8>
    decreases vs.len(),
{
    if vs.len() == 0 {
        Seq::empty()
    } else {
        spec_frame(vs[0]) + spec_frames(vs.skip(1))
    }
}

proof fn lemma_frames_snoc(vs: Seq<Seq<u8>>, k: Seq<u8>)
    ensures
        spec_frames(vs.push(k)) == spec_frames(vs) + spec_frame(k),
    decreases vs.len(),
{
    let p = vs.push(k);
    assert(p.len() == vs.len() + 1);
    if vs.len() == 0 {
        assert(p[0] == k);
        assert(p.skip(1) =~= Seq::<Seq<u8>>::empty());
        assert(spec_frames(p) == spec_frame(p[0]) + spec_frames(p.skip(1)));
        assert(spec_frames(p.skip(1)) == Seq::<u8>::empty());
        assert(spec_frame(k) + Seq::<u8>::empty() =~= spec_frame(k));
        assert(spec_frames(vs) == Seq::<u8>::empty());
        assert(Seq::<u8>::empty() + spec_frame(k) =~= spec_frame(k));
    } else {
        assert(p[0] == vs[0]);
        assert(p.skip(1) =~= vs.skip(1).push(k));
        lemma_frames_snoc(vs.skip(1), k);
        assert(spec_frames(p) == spec_frame(vs[0]) + spec_frames(vs.skip(1).push(k)));
        assert(spec_frames(vs) == spec_frame(vs[0]) + spec_frames(vs.skip(1)));
        assert(spec_frame(vs[0]) + (spec_frames(vs.skip(1)) + spec_frame(k)) =~= (spec_frame(
            vs[0],
        ) + spec_frames(vs.skip(1))) + spec_frame(k));
    }
}

/// A frame stream decomposes uniquely: what was already read is a prefix
/// of the framed list, and the rest is the frames of the remaining keys.
proof fn lemma_frames_prefix(done: Seq<Seq<u8>>, rest: Seq<u8>, ks: Seq<Seq<u8>>)
    requires
        spec_frames(done) + rest == spec_frames(ks),
        spec_frames(ks).len() <= u64::MAX,
    ensures
        done.len() <= ks.len(),
        done == ks.take(done.len() as int),
        rest == spec_frames(ks.skip(done.len() as int)),
    decreases done.len(),
{
    if done.len() == 0 {
        assert(done =~= ks.take(0));
        assert(ks.skip(0) =~= ks);
        assert(rest =~= spec_frames(ks));
    } else {
        lemma_frame_len(done[0]);
        if ks.len() == 0 {
            assert(spec_frames(ks).len() == 0);
            assert((spec_frames(done) + rest).len() >= 8);
            assert(false);
        }
        lemma_frame_len(ks[0]);
        assert(spec_frames(ks).len() >= 8 + ks[0].len()) by {
            lemma_frames_nonneg(ks.skip(1));
        }
        assert(ks[0].len() <= u64::MAX);
        assert(spec_frames(done).len() >= 8 + done[0].len()) by {
            lemma_frames_nonneg(done.skip(1));
        }
        assert(done[0].len() <= u64::MAX);
        let s = spec_frames(ks);
        let x = spec_frames(done.skip(1)) + rest;
        assert(s =~= spec_frame(done[0]) + x);
        let y = spec_frames(ks.skip(1));
        assert(s =~= spec_frame(ks[0]) + y);
        lemma_frame_round_trip(done[0], x);
        lemma_frame_round_trip(ks[0], y);
        assert(done[0] == ks[0] && x == y);
        lemma_frames_prefix(done.skip(1), rest, ks.skip(1));
        assert(done =~= ks.take(done.len() as int)) by {
            assert(forall|j: int|
                1 <= j < done.len() ==> done[j] == done.skip(1)[j - 1]);
            assert(forall|j: int|
                0 <= j < done.len() - 1 ==> #[trigger] ks.skip(1).take(done.len() - 1)[j] == ks[
                    j + 1
                ]);
        }
        assert(ks.skip(1).skip(done.len() - 1) =~= ks.skip(done.len() as int));
    }
}

proof fn lemma_frames_nonneg(vs: Seq<Seq<u8>>)
    ensures
        spec_frames(vs).len() >= 0,
{
}

/// Baseline list encoding of the vocabulary capability: the registered
/// tokens kept in id order, looked up by scanning.
#[derive(Debug)]
pub struct SimpleVocabulary {
    keys: Vec<Vec<u8>>,
}

/// Whether a well-formed vocabulary's byte image leads the stream.
pub open spec fn simple_leads(v0: SimpleVocabulary, bytes: Seq<u8>) -> bool {
    &&& v0.spec_wf()
    &&& v0.spec_encoding().len() <= bytes.len()
    &&& bytes.take(v0.spec_encoding().len() as int) == v0.spec_encoding()
}

impl Vocabulary for SimpleVocabulary {
    closed spec fn spec_wf(&self) -> bool {
        &&& self.keys@.len() <= MAX_TOKENS
        &&& spec_frames(key_views(self.keys@)).len() + 8 <= usize::MAX
    }

    closed spec fn spec_get(&self, t: Seq<u8>) -> Option<usize> {
        let idx = spec_token_index(key_views(self.keys@), t);
        if idx >= 0 {
            Some(idx as usize)
        } else {
            None
        }
    }

    closed spec fn spec_encoding(&self) -> Seq<u8> {
        spec_frame(spec_frames(key_views(self.keys@)))
    }

    open spec fn spec_build_accepts(tokens: Seq<Seq<u8>>) -> bool {
        spec_frames(tokens).len() + 8 <= usize::MAX
    }

    fn new() -> (r: Self) {
        SimpleVocabulary { keys: Vec::new() }
    }

    fn build(tokens: &[Gram<'_, u8>]) -> (r: Result<Self, Error>) {
        let ghost views = gram_views(tokens@);
        let n = tokens.len();
        if n > MAX_TOKENS {
            return Err(Error::TooManyTokens { len: n });
        }
        let mut keys: Vec<Vec<u8>> = Vec::new();
        let mut keyset: KeyVec = Vec::new();
        let mut sz: usize = 8;
        let mut i: usize = 0;
        while i < n
            invariant
                n == tokens@.len(),
                n <= MAX_TOKENS,
                views == gram_views(tokens@),
                i <= n,
                keys@.len() == i,
                keyset@.len() == i,
                sz == 8 + spec_frames(key_views(keys@)).len(),
                forall|j: int| 0 <= j < i ==> (#[trigger] keys@[j])@ == views[j],
                forall|j: int|
                    0 <= j < i ==> (#[trigger] keyset@[j]).0@ == views[j] && keyset@[j].1 == j,
            decreases n - i,
        {
            let tok = tokens[i];
            let k = tok.to_vec();
            if k.len() > usize::MAX - 16 || sz > usize::MAX - 8 - k.len() {
                proof {
                    if spec_frames(views).len() + 8 <= usize::MAX {
                        assert(key_views(keys@) =~= views.take(i as int));
                        lemma_frames_snoc(views.take(i as int), tok@);
                        assert(views.take(i + 1) =~= views.take(i as int).push(views[i as int]));
                        lemma_frames_take_le(views, i + 1);
                        lemma_frame_len(tok@);
                        assert(false);
                    }
                }
                return Err(Error::OutOfSpace);
            }
            let ghost prev = keys@;
            sz = sz + 8 + k.len();
            keys.push(k);
            keyset.push((tok.to_vec(), i as u32));
            proof {
                lemma_frames_snoc(key_views(prev), tok@);
                lemma_frame_len(tok@);
                assert(key_views(keys@) =~= key_views(prev).push(tok@));
            }
            i += 1;
        }
        let ghost keyset0 = keyset@;
        let sorted = sort_keyset(keyset);
        if let Some(d) = find_adjacent_duplicate(&sorted) {
            let token = Gram::new(sorted[d].0.as_slice()).to_vec();
            let id = sorted[d].1;
            proof {
                let di = d as int;
                assert(has_pair(sorted@, sorted@[di].0@, sorted@[di].1));
                assert(has_pair(keyset0, sorted@[di].0@, sorted@[di].1));
                let w1 = choose|w: int|
                    0 <= w < keyset0.len() && (#[trigger] keyset0[w]).0@ == sorted@[di].0@
                        && keyset0[w].1 == sorted@[di].1;
                assert(has_pair(sorted@, sorted@[di + 1].0@, sorted@[di + 1].1));
                assert(has_pair(keyset0, sorted@[di + 1].0@, sorted@[di + 1].1));
                let w2 = choose|w: int|
                    0 <= w < keyset0.len() && (#[trigger] keyset0[w]).0@ == sorted@[di + 1].0@
                        && keyset0[w].1 == sorted@[di + 1].1;
                assert(sorted@[di].1 != sorted@[di + 1].1);
                assert(views[w1] == views[w2] && w1 != w2);
                assert(!distinct_tokens(views));
                assert(token@ == sorted@[di].0@);
                assert(w1 == id as int && views[w1] == token@);
                assert(0 <= w2 < views.len() && w2 != id as int && gram_views(tokens@)[w2]
                    == token@);
            }
            return Err(Error::DuplicateToken { token, id: id as usize });
        }
        proof {
            lemma_sorted_no_adjacent_dup_strict(sorted@);
            assert forall|a: int, b: int| 0 <= a < b < views.len() implies views[a] != views[b] by {
                if views[a] == views[b] {
                    assert(keyset0[a].0@ == views[a] && keyset0[a].1 == a as u32);
                    assert(has_pair(keyset0, views[a], a as u32));
                    assert(has_pair(sorted@, views[a], a as u32));
                    let pa = choose|p: int|
                        0 <= p < sorted@.len() && (#[trigger] sorted@[p]).0@ == views[a]
                            && sorted@[p].1 == a as u32;
                    assert(keyset0[b].0@ == views[b] && keyset0[b].1 == b as u32);
                    assert(has_pair(keyset0, views[b], b as u32));
                    assert(has_pair(sorted@, views[b], b as u32));
                    let pb = choose|p: int|
                        0 <= p < sorted@.len() && (#[trigger] sorted@[p]).0@ == views[b]
                            && sorted@[p].1 == b as u32;
                    lemma_strict_unique(sorted@, pa, pb);
                }
            }
        }
        let v = SimpleVocabulary { keys };
        proof {
            assert(key_views(v.keys@) =~= views);
            assert forall|t: Seq<u8>| matches_index(
                #[trigger] v.spec_get(t),
                spec_token_index(views, t),
            ) by {
                lemma_token_index(views, t);
            }
        }
        Ok(v)
    }

    fn get(&self, token: Gram<'_, u8>) -> (r: Option<usize>) {
        let n = self.keys.len();
        let raw = token.raw();
        let mut i: usize = 0;
        while i < n
            invariant
                n == self.keys@.len(),
                raw@ == token@,
                i <= n,
                forall|j: int| 0 <= j < i ==> (#[trigger] self.keys@[j])@ != token@,
            decreases n - i,
        {
            if bytes_equal(self.keys[i].as_slice(), raw) {
                proof {
                    let vs = key_views(self.keys@);
                    lemma_token_index(vs, token@);
                    let idx = spec_token_index(vs, token@);
                    assert(vs[i as int] == token@);
                    assert(idx >= 0);
                    if idx < i {
                        assert(self.keys@[idx]@ != token@);
                        assert(false);
                    }
                    if idx > i {
                        assert(vs[i as int] != token@);
                        assert(false);
                    }
                }
                return Some(i);
            }
            i += 1;
        }
        proof {
            let vs = key_views(self.keys@);
            lemma_token_index(vs, token@);
            let idx = spec_token_index(vs, token@);
            if idx >= 0 {
                assert(self.keys@[idx]@ != token@);
                assert(vs[idx] == token@);
                assert(false);
            }
        }
        None
    }

    fn serialize_into(&self, out: &mut Vec<u8>) -> (r: Result<usize, Error>) {
        let mut temp: Vec<u8> = Vec::new();
        let n = self.keys.len();
        let mut i: usize = 0;
        while i < n
            invariant
                self.spec_wf(),
                n == self.keys@.len(),
                i <= n,
                temp@ == spec_frames(key_views(self.keys@).take(i as int)),
            decreases n - i,
        {
            let k = &self.keys[i];
            proof {
                lemma_frames_snoc(key_views(self.keys@).take(i as int), self.keys@[i as int]@);
                lemma_frame_len(self.keys@[i as int]@);
                assert(key_views(self.keys@).take(i + 1) =~= key_views(self.keys@).take(
                    i as int,
                ).push(self.keys@[i as int]@));
                lemma_frames_take_le(key_views(self.keys@), i + 1);
            }
            frame_into(k, &mut temp);
            i += 1;
        }
        proof {
            assert(key_views(self.keys@).take(n as int) =~= key_views(self.keys@));
            lemma_frame_len(temp@);
        }
        if out.len() <= usize::MAX - 8 && temp.len() <= usize::MAX - 8 - out.len() {
            let sz = frame_into(&temp, out);
            Ok(sz)
        } else {
            Err(Error::OutOfSpace)
        }
    }

    fn deserialize_from<'x>(bytes: &'x [u8]) -> (r: Result<(Self, &'x [u8]), Error>) {
        let total = bytes.len();
        if !frame_ok(bytes) {
            proof {
                assert forall|v0: SimpleVocabulary| #![trigger v0.spec_encoding()]
                    !simple_leads(v0, bytes@) by {
                    if simple_leads(v0, bytes@) {
                        lemma_simple_leads(v0, bytes@);
                        assert(false);
                    }
                }
            }
            return Err(Error::Truncated);
        }
        let (payload, rest) = unframe_from(bytes);
        let mut keys: Vec<Vec<u8>> = Vec::new();
        let mut cur: &[u8] = payload.as_slice();
        while cur.len() > 0
            invariant
                total == bytes@.len(),
                spec_frame_ok(bytes@),
                payload@ == spec_frame_payload(bytes@),
                rest@ == spec_frame_rest(bytes@),
                payload@ == spec_frames(key_views(keys@)) + cur@,
                cur@.len() <= payload@.len(),
            decreases cur@.len(),
        {
            if !frame_ok(cur) {
                proof {
                    assert forall|v0: SimpleVocabulary| #![trigger v0.spec_encoding()]
                        !simple_leads(v0, bytes@) by {
                        if simple_leads(v0, bytes@) {
                            lemma_simple_leads(v0, bytes@);
                            let ks = key_views(v0.keys@);
                            lemma_frames_prefix(key_views(keys@), cur@, ks);
                            let suffix = ks.skip(key_views(keys@).len() as int);
                            assert(cur@ == spec_frames(suffix));
                            assert(suffix.len() > 0);
                            lemma_frame_len(suffix[0]);
                            lemma_frames_nonneg(suffix.skip(1));
                            assert(suffix[0].len() + 8 <= cur@.len());
                            lemma_frame_round_trip(suffix[0], spec_frames(suffix.skip(1)));
                            assert(cur@ =~= spec_frame(suffix[0]) + spec_frames(suffix.skip(1)));
                            assert(false);
                        }
                    }
                }
                return Err(Error::InvalidPayload);
            }
            let ghost prev = keys@;
            let (k, rest2) = unframe_from(cur);
            keys.push(k);
            proof {
                lemma_frames_snoc(key_views(prev), k@);
                assert(key_views(keys@) =~= key_views(prev).push(k@));
                crate::serial::lemma_frame_reassemble(cur@);
                assert(payload@ =~= spec_frames(key_views(keys@)) + rest2@);
            }
            cur = rest2;
        }
        proof {
            assert(payload@ =~= spec_frames(key_views(keys@)));
        }
        if keys.len() > MAX_TOKENS {
            proof {
                assert forall|v0: SimpleVocabulary| #![trigger v0.spec_encoding()]
                    !simple_leads(v0, bytes@) by {
                    if simple_leads(v0, bytes@) {
                        lemma_simple_leads(v0, bytes@);
                        lemma_parse_unique(keys@, v0, payload@);
                        assert(false);
                    }
                }
            }
            return Err(Error::InvalidPayload);
        }
        let v = SimpleVocabulary { keys };
        proof {
            lemma_frame_len(spec_frames(key_views(v.keys@)));
            crate::serial::lemma_frame_reassemble(bytes@);
            assert(bytes@ == v.spec_encoding() + rest@);
            assert forall|v0: SimpleVocabulary| #![trigger v0.spec_encoding()]
                simple_leads(v0, bytes@) implies {
                &&& rest@ == bytes@.skip(v0.spec_encoding().len() as int)
                &&& forall|t: Seq<u8>| #[trigger] v.spec_get(t) == v0.spec_get(t)
            } by {
                lemma_simple_leads(v0, bytes@);
                lemma_parse_unique(v.keys@, v0, payload@);
                assert(key_views(v.keys@) == key_views(v0.keys@));
                assert forall|t: Seq<u8>| #[trigger] v.spec_get(t) == v0.spec_get(t) by {}
            }
        }
        Ok((v, rest))
    }

    fn size_in_bytes(&self) -> (r: usize) {
        let n = self.keys.len();
        let mut sz: usize = 8;
        let mut i: usize = 0;
        while i < n
            invariant
                self.spec_wf(),
                n == self.keys@.len(),
                i <= n,
                sz == 8 + spec_frames(key_views(self.keys@).take(i as int)).len(),
            decreases n - i,
        {
            let k = &self.keys[i];
            proof {
                lemma_frames_snoc(key_views(self.keys@).take(i as int), self.keys@[i as int]@);
                lemma_frame_len(self.keys@[i as int]@);
                assert(key_views(self.keys@).take(i + 1) =~= key_views(self.keys@).take(
                    i as int,
                ).push(self.keys@[i as int]@));
                lemma_frames_take_le(key_views(self.keys@), i + 1);
            }
            sz = sz + 8 + k.len();
            i += 1;
        }
        proof {
            assert(key_views(self.keys@).take(n as int) =~= key_views(self.keys@));
            lemma_frame_len(spec_frames(key_views(self.keys@)));
        }
        sz
    }

    fn memory_statistics(&self) -> (r: Vec<(&'static str, usize)>) {
        let mut r: Vec<(&'static str, usize)> = Vec::new();
        r.push(("tokens", self.size_in_bytes()));
        proof {
            assert(r@.skip(1) =~= Seq::<(&'static str, usize)>::empty());
            assert(crate::vocabulary::spec_stats_total(r@) == r@[0].1
                + crate::vocabulary::spec_stats_total(r@.skip(1)));
        }
        r
    }
}

proof fn lemma_frames_take_le(vs: Seq<Seq<u8>>, i: int)
    requires
        0 <= i <= vs.len(),
    ensures
        spec_frames(vs.take(i)).len() <= spec_frames(vs).len(),
    decreases vs.len(),
{
    if i > 0 && vs.len() > 0 {
        assert(vs.take(i)[0] == vs[0]);
        lemma_frame_len(vs[0]);
        assert(vs.take(i).skip(1) =~= vs.skip(1).take(i - 1));
        lemma_frames_take_le(vs.skip(1), i - 1);
    } else {
        assert(vs.take(0) =~= Seq::<Seq<u8>>::empty());
        lemma_frames_nonneg(vs);
    }
}

/// A stream led by a well-formed vocabulary's image starts with a valid
/// frame holding exactly that vocabulary's framed key list.
proof fn lemma_simple_leads(v0: SimpleVocabulary, bytes: Seq<u8>)
    requires
        simple_leads(v0, bytes),
        bytes.len() <= usize::MAX,
    ensures
        spec_frame_ok(bytes),
        spec_frame_payload(bytes) == spec_frames(key_views(v0.keys@)),
        spec_frame_rest(bytes) == bytes.skip(v0.spec_encoding().len() as int),
        spec_frames(key_views(v0.keys@)).len() <= u64::MAX,
{
    let fr = spec_frames(key_views(v0.keys@));
    lemma_frame_len(fr);
    assert(fr.len() + 8 <= bytes.len());
    let extra = bytes.skip(v0.spec_encoding().len() as int);
    lemma_frame_round_trip(fr, extra);
    assert(bytes =~= spec_frame(fr) + extra);
}

/// A fully parsed key list is the framed list itself.
proof fn lemma_parse_unique(keys: Seq<Vec<u8>>, v0: SimpleVocabulary, payload: Seq<u8>)
    requires
        payload == spec_frames(key_views(keys)),
        payload == spec_frames(key_views(v0.keys@)),
        spec_frames(key_views(v0.keys@)).len() <= u64::MAX,
    ensures
        key_views(keys) == key_views(v0.keys@),
{
    let done = key_views(keys);
    let ks = key_views(v0.keys@);
    assert(spec_frames(done) + Seq::<u8>::empty() =~= spec_frames(ks));
    lemma_frames_prefix(done, Seq::empty(), ks);
    let suffix = ks.skip(done.len() as int);
    if suffix.len() > 0 {
        lemma_frame_len(suffix[0]);
        lemma_frames_nonneg(suffix.skip(1));
        assert(spec_frames(suffix).len() >= 8);
        assert(false);
    }
    assert(ks.take(done.len() as int) =~= ks);
}

} // verus!
