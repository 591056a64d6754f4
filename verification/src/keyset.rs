use vstd::prelude::*;

use crate::gram::bytes_equal;

verus! {

/// Bytewise lexicographic "less than", compared from position `i` on.
pub open spec fn lex_lt_from(a: Seq<u8>, b: Seq<u8>, i: int) -> bool
    decreases b.len() - i,
{
    if i < 0 || i >= b.len() {
        false
    } else if i >= a.len() {
        true
    } else if a[i] < b[i] {
        true
    } else if a[i] > b[i] {
        false
    } else {
        lex_lt_from(a, b, i + 1)
    }
}

/// Strict bytewise lexicographic order; a proper prefix precedes its
/// extensions, as with the standard ordering of byte slices.
pub open spec fn lex_lt(a: Seq<u8>, b: Seq<u8>) -> bool {
    lex_lt_from(a, b, 0)
}

/// Non-strict bytewise lexicographic order.
pub open spec fn lex_le(a: Seq<u8>, b: Seq<u8>) -> bool {
    lex_lt(a, b) || a == b
}

pub proof fn lemma_lex_trans_from(a: Seq<u8>, b: Seq<u8>, c: Seq<u8>, i: int)
    requires
        lex_lt_from(a, b, i),
        lex_lt_from(b, c, i),
    ensures
        lex_lt_from(a, c, i),
    decreases c.len() - i,
{
    if i >= a.len() {
    } else if a[i] == b[i] && b[i] == c[i] {
        lemma_lex_trans_from(a, b, c, i + 1);
    }
}

/// The strict order is transitive.
pub proof fn lemma_lex_trans(a: Seq<u8>, b: Seq<u8>, c: Seq<u8>)
    requires
        lex_lt(a, b),
        lex_lt(b, c),
    ensures
        lex_lt(a, c),
{
    lemma_lex_trans_from(a, b, c, 0);
}

pub proof fn lemma_lex_connex_from(a: Seq<u8>, b: Seq<u8>, i: int)
    requires
        0 <= i,
        !lex_lt_from(a, b, i),
        !lex_lt_from(b, a, i),
    ensures
        a.len() == b.len() || i > a.len() || i > b.len(),
        forall|j: int| i <= j < a.len() && j < b.len() ==> a[j] == b[j],
    decreases a.len() + b.len() - i,
{
    if i >= a.len() && i >= b.len() {
    } else if i >= a.len() {
        assert(lex_lt_from(a, b, i));
    } else if i >= b.len() {
        assert(lex_lt_from(b, a, i));
    } else if a[i] == b[i] {
        lemma_lex_connex_from(a, b, i + 1);
    }
}

/// Two sequences that precede each other in neither direction are equal.
pub proof fn lemma_lex_connex(a: Seq<u8>, b: Seq<u8>)
    requires
        !lex_lt(a, b),
        !lex_lt(b, a),
    ensures
        a == b,
{
    lemma_lex_connex_from(a, b, 0);
    assert(a =~= b);
}

pub proof fn lemma_lex_asym_from(a: Seq<u8>, b: Seq<u8>, i: int)
    requires
        lex_lt_from(a, b, i),
    ensures
        !lex_lt_from(b, a, i),
    decreases b.len() - i,
{
    if 0 <= i && i < a.len() && i < b.len() && a[i] == b[i] {
        lemma_lex_asym_from(a, b, i + 1);
    }
}

/// The strict order is asymmetric; in particular it is irreflexive.
pub proof fn lemma_lex_asym(a: Seq<u8>, b: Seq<u8>)
    requires
        lex_lt(a, b),
    ensures
        !lex_lt(b, a),
        a != b,
{
    lemma_lex_asym_from(a, b, 0);
    if a == b {
        assert(!lex_lt_from(a, a, 0)) by { lemma_lex_asym_from(a, b, 0) }
    }
}

/// Bytewise comparison deciding the strict lexicographic order.
pub fn lex_less(a: &[u8], b: &[u8]) -> (r: bool)
    ensures
        r == lex_lt(a@, b@),
{
    let na = a.len();
    let nb = b.len();
    let mut i: usize = 0;
    while i < na && i < nb
        invariant
            na == a@.len(),
            nb == b@.len(),
            i <= na,
            i <= nb,
            lex_lt(a@, b@) == lex_lt_from(a@, b@, i as int),
        decreases na - i,
    {
        if a[i] < b[i] {
            return true;
        }
        if a[i] > b[i] {
            return false;
        }
        i += 1;
    }
    na < nb
}

/// A key set: token bytes paired with the ids they received at build time.
pub type KeyVec = Vec<(Vec<u8>, u32)>;

/// Non-strictly sorted by key bytes.
pub open spec fn sorted_le(s: Seq<(Vec<u8>, u32)>) -> bool {
    forall|i: int, j: int| 0 <= i < j < s.len() ==> lex_le(#[trigger] s[i].0@, #[trigger] s[j].0@)
}

/// Strictly sorted by key bytes; keys are then pairwise distinct.
pub open spec fn sorted_lt(s: Seq<(Vec<u8>, u32)>) -> bool {
    forall|i: int, j: int| 0 <= i < j < s.len() ==> lex_lt(#[trigger] s[i].0@, #[trigger] s[j].0@)
}

/// Whether the key set holds the pair of `k` and `v`.
pub open spec fn has_pair(s: Seq<(Vec<u8>, u32)>, k: Seq<u8>, v: u32) -> bool {
    exists|i: int| 0 <= i < s.len() && (#[trigger] s[i]).0@ == k && s[i].1 == v
}

/// Pairwise-distinct entries: no key/id pair occurs at two positions.
pub open spec fn distinct_entries(s: Seq<(Vec<u8>, u32)>) -> bool {
    forall|i: int, j: int|
        0 <= i < j < s.len() ==> ((#[trigger] s[i]).0@ != (#[trigger] s[j]).0@ || s[i].1
            != s[j].1)
}

/// Sorts a key set by key bytes, preserving exactly the key/id pairs.
pub fn sort_keyset(input: KeyVec) -> (r: KeyVec)
    requires
        distinct_entries(input@),
    ensures
        sorted_le(r@),
        r@.len() == input@.len(),
        forall|k: Seq<u8>, v: u32| has_pair(r@, k, v) == has_pair(input@, k, v),
        distinct_entries(r@),
{
    let ghost orig = input@;
    let mut fwd = input;
    let mut rest: KeyVec = Vec::new();
    while fwd.len() > 0
        invariant
            fwd@ == orig.take(fwd@.len() as int),
            fwd@.len() + rest@.len() == orig.len(),
            forall|j: int|
                0 <= j < rest@.len() ==> rest@[j] == orig[orig.len() - 1 - j],
        decreases fwd.len(),
    {
        let e = fwd.pop().unwrap();
        rest.push(e);
        proof {
            assert(fwd@ =~= orig.take(fwd@.len() as int));
        }
    }
    proof {
        assert forall|k: Seq<u8>, v: u32| has_pair(rest@, k, v) == has_pair(orig, k, v) by {
            if has_pair(rest@, k, v) {
                let i = choose|i: int|
                    0 <= i < rest@.len() && (#[trigger] rest@[i]).0@ == k && rest@[i].1 == v;
                assert(orig[orig.len() - 1 - i].0@ == k && orig[orig.len() - 1 - i].1 == v);
            }
            if has_pair(orig, k, v) {
                let i = choose|i: int|
                    0 <= i < orig.len() && (#[trigger] orig[i]).0@ == k && orig[i].1 == v;
                assert(rest@[orig.len() - 1 - i].0@ == k && rest@[orig.len() - 1 - i].1 == v);
            }
        }
    }
    let mut out: KeyVec = Vec::new();
    while rest.len() > 0
        invariant
            sorted_le(out@),
            out@.len() + rest@.len() == orig.len(),
            forall|k: Seq<u8>, v: u32|
                (has_pair(out@, k, v) || has_pair(rest@, k, v)) == has_pair(orig, k, v),
            distinct_entries(out@),
            distinct_entries(rest@),
            forall|i: int, j: int|
                0 <= i < out@.len() && 0 <= j < rest@.len() ==> ((#[trigger] out@[i]).0@ != (
                #[trigger] rest@[j]).0@ || out@[i].1 != rest@[j].1),
        decreases rest.len(),
    {
        let ghost rest0 = rest@;
        let ghost out0 = out@;
        let e = rest.pop().unwrap();
        let mut pos: usize = out.len();
        while pos > 0 && lex_less(e.0.as_slice(), out[pos - 1].0.as_slice())
            invariant
                pos <= out@.len(),
                forall|j: int| pos <= j < out@.len() ==> lex_lt(e.0@, #[trigger] out@[j].0@),
            decreases pos,
        {
            pos -= 1;
        }
        proof {
            assert forall|j: int| 0 <= j < pos implies lex_le(#[trigger] out@[j].0@, e.0@) by {
                if lex_lt(e.0@, out@[j].0@) {
                    if j < pos - 1 {
                        assert(lex_le(out@[j].0@, out@[pos - 1].0@));
                        if out@[j].0@ == out@[pos - 1].0@ {
                        } else {
                            lemma_lex_trans(e.0@, out@[j].0@, out@[pos - 1].0@);
                        }
                        lemma_lex_asym(e.0@, out@[pos - 1].0@);
                    } else {
                        lemma_lex_asym(e.0@, out@[j].0@);
                    }
                } else if lex_lt(out@[j].0@, e.0@) {
                } else {
                    lemma_lex_connex(out@[j].0@, e.0@);
                }
            }
        }
        let ghost before = out@;
        out.insert(pos, e);
        proof {
            let now = out@;
            assert(now =~= before.insert(pos as int, (e.0, e.1)));
            assert forall|i: int, j: int| 0 <= i < j < now.len() implies lex_le(
                #[trigger] now[i].0@,
                #[trigger] now[j].0@,
            ) by {
                let pi = pos as int;
                if i < pi && j == pi {
                } else if i == pi && j > pi {
                    assert(now[j] == before[j - 1]);
                } else if i < pi && j > pi {
                    assert(now[i] == before[i] && now[j] == before[j - 1]);
                } else if i < pi && j < pi {
                    assert(now[i] == before[i] && now[j] == before[j]);
                } else if i > pi && j > pi {
                    assert(now[i] == before[i - 1] && now[j] == before[j - 1]);
                } else {
                    assert(i == pi && j == pi);
                }
            }
            assert forall|k: Seq<u8>, v: u32| (has_pair(out@, k, v) || has_pair(rest@, k, v))
                == has_pair(orig, k, v) by {
                assert(rest0 =~= rest@.push((e.0, e.1)));
                if has_pair(out@, k, v) {
                    let i = choose|i: int|
                        0 <= i < out@.len() && (#[trigger] out@[i]).0@ == k && out@[i].1 == v;
                    if i == pos as int {
                        assert(rest0[rest0.len() - 1].0@ == k && rest0[rest0.len() - 1].1 == v);
                        assert(has_pair(rest0, k, v));
                    } else if i < pos as int {
                        assert(out0[i].0@ == k && out0[i].1 == v);
                        assert(has_pair(out0, k, v));
                    } else {
                        assert(out0[i - 1].0@ == k && out0[i - 1].1 == v);
                        assert(has_pair(out0, k, v));
                    }
                }
                if has_pair(rest@, k, v) {
                    let i = choose|i: int|
                        0 <= i < rest@.len() && (#[trigger] rest@[i]).0@ == k && rest@[i].1 == v;
                    assert(rest0[i].0@ == k && rest0[i].1 == v);
                    assert(has_pair(rest0, k, v));
                }
                if has_pair(orig, k, v) {
                    if has_pair(out0, k, v) {
                        let i = choose|i: int|
                            0 <= i < out0.len() && (#[trigger] out0[i]).0@ == k && out0[i].1 == v;
                        if i < pos as int {
                            assert(out@[i].0@ == k && out@[i].1 == v);
                        } else {
                            assert(out@[i + 1].0@ == k && out@[i + 1].1 == v);
                        }
                        assert(has_pair(out@, k, v));
                    } else {
                        assert(has_pair(rest0, k, v));
                        let i = choose|i: int|
                            0 <= i < rest0.len() && (#[trigger] rest0[i]).0@ == k && rest0[i].1
                            == v;
                        if i < rest@.len() {
                            assert(has_pair(rest@, k, v));
                        } else {
                            assert(out@[pos as int].0@ == k && out@[pos as int].1 == v);
                            assert(has_pair(out@, k, v));
                        }
                    }
                }
            }
            assert(distinct_entries(out@)) by {
                assert forall|i: int, j: int| 0 <= i < j < out@.len() implies ((
                #[trigger] out@[i]).0@ != (#[trigger] out@[j]).0@ || out@[i].1 != out@[j].1) by {
                    let pi = pos as int;
                    let a = if i < pi { out0[i] } else if i == pi { rest0[rest0.len() - 1] } else { out0[i - 1] };
                    let b = if j < pi { out0[j] } else if j == pi { rest0[rest0.len() - 1] } else { out0[j - 1] };
                    assert(out@[i] == a && out@[j] == b);
                }
            }
            assert forall|i: int, j: int| 0 <= i < out@.len() && 0 <= j < rest@.len() implies ((
            #[trigger] out@[i]).0@ != (#[trigger] rest@[j]).0@ || out@[i].1 != rest@[j].1) by {
                let pi = pos as int;
                let a = if i < pi { out0[i] } else if i == pi { rest0[rest0.len() - 1] } else { out0[i - 1] };
                assert(out@[i] == a && rest@[j] == rest0[j]);
            }
        }
    }
    out
}

/// Finds the first adjacent pair of equal keys in a sorted key set.
/// Returns the index of the first member of the pair.
pub fn find_adjacent_duplicate(s: &KeyVec) -> (r: Option<usize>)
    ensures
        match r {
            Some(i) => i + 1 < s@.len() && s@[i as int].0@ == s@[i + 1].0@,
            None => forall|i: int| 0 <= i && i + 1 < s@.len() ==> (#[trigger] s@[i].0@) != s@[i + 1].0@,
        },
{
    let n = s.len();
    let mut i: usize = 1;
    while i < n
        invariant
            n == s@.len(),
            1 <= i,
            forall|j: int| 0 <= j && j + 1 < i ==> (#[trigger] s@[j].0@) != s@[j + 1].0@,
        decreases n - i,
    {
        if bytes_equal(s[i - 1].0.as_slice(), s[i].0.as_slice()) {
            return Some(i - 1);
        }
        i += 1;
    }
    None
}

/// A sorted key set without adjacent equal keys is strictly sorted.
pub proof fn lemma_sorted_no_adjacent_dup_strict(s: Seq<(Vec<u8>, u32)>)
    requires
        sorted_le(s),
        forall|i: int| 0 <= i && i + 1 < s.len() ==> (#[trigger] s[i].0@) != s[i + 1].0@,
    ensures
        sorted_lt(s),
{
    assert forall|i: int, j: int| 0 <= i < j < s.len() implies lex_lt(
        #[trigger] s[i].0@,
        #[trigger] s[j].0@,
    ) by {
        lemma_sorted_strict_step(s, i, j);
    }
}

proof fn lemma_sorted_strict_step(s: Seq<(Vec<u8>, u32)>, i: int, j: int)
    requires
        sorted_le(s),
        forall|k: int| 0 <= k && k + 1 < s.len() ==> (#[trigger] s[k].0@) != s[k + 1].0@,
        0 <= i < j < s.len(),
    ensures
        lex_lt(s[i].0@, s[j].0@),
    decreases j - i,
{
    if j == i + 1 {
        assert(lex_le(s[i].0@, s[j].0@));
    } else {
        lemma_sorted_strict_step(s, i, j - 1);
        assert(lex_le(s[j - 1].0@, s[j].0@));
        if s[j - 1].0@ == s[j].0@ {
        } else {
            lemma_lex_trans(s[i].0@, s[j - 1].0@, s[j].0@);
        }
    }
}

/// In a strictly sorted key set every key appears at exactly one index.
pub proof fn lemma_strict_unique(s: Seq<(Vec<u8>, u32)>, i: int, j: int)
    requires
        sorted_lt(s),
        0 <= i < s.len(),
        0 <= j < s.len(),
        s[i].0@ == s[j].0@,
    ensures
        i == j,
{
    if i < j {
        lemma_lex_asym(s[i].0@, s[j].0@);
    } else if j < i {
        lemma_lex_asym(s[j].0@, s[i].0@);
    }
}

} // verus!
