use vstd::prelude::*;
use vstd::string::StringSliceAdditionalSpecFns;

use crate::TOKEN_SEPARATOR;

verus! {

/// Borrowed, zero-copy view over a contiguous element sequence.
///
/// A gram never owns its data; it is valid only as long as the backing
/// buffer. Equality of byte grams is by content.
#[derive(Clone, Copy)]
pub struct Gram<'a, T> {
    data: &'a [T],
}

impl<'a, T> View for Gram<'a, T> {
    type V = Seq<T>;

    closed spec fn view(&self) -> Seq<T> {
        self.data@
    }
}

impl<'a, T> Gram<'a, T> {
    /// Creates a gram from an element slice.
    pub fn new(data: &'a [T]) -> (g: Self)
        ensures
            g@ == data@,
    {
        Gram { data }
    }

    /// Gets the reference to the underlying slice.
    pub fn raw(&self) -> (r: &'a [T])
        ensures
            r@ == self@,
    {
        self.data
    }
}

impl<'a, T: Copy> Gram<'a, T> {
    /// Copies the viewed elements into a new vector.
    pub fn to_vec(self) -> (r: Vec<T>)
        ensures
            r@ == self@,
    {
        let mut out: Vec<T> = Vec::new();
        let mut i: usize = 0;
        while i < self.data.len()
            invariant
                i <= self.data@.len(),
                out@ == self.data@.take(i as int),
            decreases self.data@.len() - i,
        {
            out.push(self.data[i]);
            proof {
                assert(self.data@.take(i + 1) =~= self.data@.take(i as int).push(
                    self.data@[i as int],
                ));
            }
            i += 1;
        }
        proof {
            assert(self.data@.take(self.data@.len() as int) =~= self.data@);
        }
        out
    }
}

/// Whether the byte sequence holds at least one token separator.
pub open spec fn has_separator(s: Seq<u8>) -> bool {
    exists|i: int| 0 <= i < s.len() && s[i] == TOKEN_SEPARATOR
}

/// Index of the first separator; the sequence length when there is none.
pub open spec fn first_sep(s: Seq<u8>) -> int
    decreases s.len(),
{
    if s.len() == 0 {
        0
    } else if s[0] == TOKEN_SEPARATOR {
        0
    } else {
        1 + first_sep(s.skip(1))
    }
}

/// Index of the last separator; `-1` when there is none.
pub open spec fn last_sep(s: Seq<u8>) -> int
    decreases s.len(),
{
    if s.len() == 0 {
        -1
    } else if s[s.len() - 1] == TOKEN_SEPARATOR {
        s.len() - 1
    } else {
        last_sep(s.drop_last())
    }
}

pub proof fn lemma_first_sep_bounds(s: Seq<u8>)
    ensures
        0 <= first_sep(s) <= s.len(),
        has_separator(s) <==> first_sep(s) < s.len(),
        has_separator(s) ==> s[first_sep(s)] == TOKEN_SEPARATOR,
        forall|j: int| 0 <= j < first_sep(s) ==> s[j] != TOKEN_SEPARATOR,
    decreases s.len(),
{
    if s.len() == 0 {
    } else if s[0] == TOKEN_SEPARATOR {
    } else {
        lemma_first_sep_bounds(s.skip(1));
        assert forall|j: int| 0 <= j < first_sep(s) implies s[j] != TOKEN_SEPARATOR by {
            if j > 0 {
                assert(s.skip(1)[j - 1] == s[j]);
            }
        }
        if has_separator(s) {
            let w = choose|i: int| 0 <= i < s.len() && s[i] == TOKEN_SEPARATOR;
            assert(s.skip(1)[w - 1] == s[w]);
            assert(has_separator(s.skip(1)));
            assert(s[first_sep(s)] == s.skip(1)[first_sep(s.skip(1))]);
        } else {
            assert(forall|i: int|
                0 <= i < s.skip(1).len() ==> s.skip(1)[i] == s[i + 1]);
            assert(!has_separator(s.skip(1)));
        }
    }
}

/// A position holding a separator with none after it is the last separator.
pub proof fn lemma_last_sep_at(s: Seq<u8>, k: int)
    requires
        0 <= k < s.len(),
        s[k] == TOKEN_SEPARATOR,
        forall|j: int| k < j < s.len() ==> s[j] != TOKEN_SEPARATOR,
    ensures
        last_sep(s) == k,
    decreases s.len(),
{
    if k == s.len() - 1 {
    } else {
        assert(s[s.len() - 1] != TOKEN_SEPARATOR);
        assert(s.drop_last()[k] == s[k]);
        lemma_last_sep_at(s.drop_last(), k);
    }
}

/// A position holding a separator with none before it is the first separator.
pub proof fn lemma_first_sep_at(s: Seq<u8>, k: int)
    requires
        0 <= k < s.len(),
        s[k] == TOKEN_SEPARATOR,
        forall|j: int| 0 <= j < k ==> s[j] != TOKEN_SEPARATOR,
    ensures
        first_sep(s) == k,
    decreases s.len(),
{
    if k == 0 {
    } else {
        assert(s[0] != TOKEN_SEPARATOR);
        assert(s.skip(1)[k - 1] == s[k]);
        assert forall|j: int| 0 <= j < k - 1 implies s.skip(1)[j] != TOKEN_SEPARATOR by {
            assert(s.skip(1)[j] == s[j + 1]);
        }
        lemma_first_sep_at(s.skip(1), k - 1);
    }
}

#[via_fn]
proof fn spec_split_decreases(s: Seq<u8>) {
    if has_separator(s) {
        lemma_first_sep_bounds(s);
    }
}

/// Ordered token sub-sequences obtained by splitting on every separator.
pub open spec fn spec_split(s: Seq<u8>) -> Seq<Seq<u8>>
    decreases s.len(),
        via spec_split_decreases
{
    if !has_separator(s) {
        seq![s]
    } else {
        seq![s.take(first_sep(s))] + spec_split(s.skip(first_sep(s) + 1))
    }
}

pub proof fn lemma_spec_split_len(s: Seq<u8>)
    ensures
        spec_split(s).len() >= 1,
    decreases s.len(),
{
    if has_separator(s) {
        lemma_first_sep_bounds(s);
    }
}

impl<'a> Gram<'a, u8> {
    /// Creates a byte gram viewing the bytes of a string.
    pub fn from_str(data: &'a str) -> (g: Self)
        ensures
            g@ == data.spec_bytes(),
    {
        Gram { data: data.as_bytes() }
    }

    /// Pops the last token: scans from the end for the first separator and
    /// splits there. Returns `None` when the gram is a single token.
    pub fn pop_token(&self) -> (r: Option<(Self, Self)>)
        ensures
            match r {
                Some(pair) => {
                    &&& has_separator(self@)
                    &&& pair.0@ == self@.take(last_sep(self@))
                    &&& pair.1@ == self@.skip(last_sep(self@) + 1)
                },
                None => !has_separator(self@),
            },
    {
        let data = self.data;
        let n = data.len();
        let mut i: usize = n;
        while i > 0
            invariant
                data@ == self@,
                n == data@.len(),
                i <= n,
                forall|j: int| i <= j < n ==> data@[j] != TOKEN_SEPARATOR,
            decreases i,
        {
            if data[i - 1] == TOKEN_SEPARATOR {
                proof {
                    lemma_last_sep_at(data@, i - 1);
                }
                let pfx = Gram { data: &data[0..i - 1] };
                let sfx = Gram { data: &data[i..n] };
                proof {
                    assert(pfx@ =~= self@.take(i - 1));
                    assert(sfx@ =~= self@.skip(i as int));
                }
                return Some((pfx, sfx));
            }
            i -= 1;
        }
        None
    }

    /// Pops the first token: scans from the front for the first separator
    /// and splits there. Returns `None` when the gram is a single token.
    pub fn pop_front_token(&self) -> (r: Option<(Self, Self)>)
        ensures
            match r {
                Some(pair) => {
                    &&& has_separator(self@)
                    &&& pair.0@ == self@.take(first_sep(self@))
                    &&& pair.1@ == self@.skip(first_sep(self@) + 1)
                },
                None => !has_separator(self@),
            },
    {
        let data = self.data;
        let n = data.len();
        let mut i: usize = 0;
        while i < n
            invariant
                data@ == self@,
                n == data@.len(),
                i <= n,
                forall|j: int| 0 <= j < i ==> data@[j] != TOKEN_SEPARATOR,
            decreases n - i,
        {
            if data[i] == TOKEN_SEPARATOR {
                proof {
                    lemma_first_sep_at(data@, i as int);
                }
                let pfx = Gram { data: &data[0..i] };
                let sfx = Gram { data: &data[i + 1..n] };
                proof {
                    assert(pfx@ =~= self@.take(i as int));
                    assert(sfx@ =~= self@.skip(i + 1));
                }
                return Some((pfx, sfx));
            }
            i += 1;
        }
        None
    }

    /// Splits the gram into the ordered list of its token views, without
    /// copying. Adjacent, leading or trailing separators yield empty tokens.
    pub fn split_to_tokens(&self) -> (r: Vec<Gram<'a, u8>>)
        ensures
            r@.len() == spec_split(self@).len(),
            forall|j: int| 0 <= j < r@.len() ==> #[trigger] r@[j]@ == spec_split(self@)[j],
    {
        let data = self.data;
        let n = data.len();
        let mut out: Vec<Gram<'a, u8>> = Vec::new();
        let mut start: usize = 0;
        let mut i: usize = 0;
        proof {
            assert(data@.skip(0) =~= data@);
            assert(gram_views(out@) + spec_split(data@) =~= spec_split(data@));
        }
        while i < n
            invariant
                data@ == self@,
                n == data@.len(),
                start <= i <= n,
                forall|j: int| start <= j < i ==> data@[j] != TOKEN_SEPARATOR,
                spec_split(data@) == gram_views(out@) + spec_split(data@.skip(start as int)),
            decreases n - i,
        {
            if data[i] == TOKEN_SEPARATOR {
                let tok = Gram { data: &data[start..i] };
                let ghost prev = out@;
                out.push(tok);
                proof {
                    let rest = data@.skip(start as int);
                    assert(rest[i - start] == data@[i as int]);
                    assert forall|j: int| 0 <= j < i - start implies rest[j] != TOKEN_SEPARATOR by {
                        assert(rest[j] == data@[start + j]);
                    }
                    lemma_first_sep_at(rest, i - start);
                    assert(has_separator(rest));
                    assert(rest.take(i - start) =~= tok@);
                    assert(rest.skip(i - start + 1) =~= data@.skip(i + 1));
                    assert(spec_split(rest) == seq![tok@] + spec_split(data@.skip(i + 1)));
                    assert(gram_views(out@) =~= gram_views(prev).push(tok@));
                    assert(gram_views(prev) + (seq![tok@] + spec_split(data@.skip(i + 1)))
                        =~= gram_views(out@) + spec_split(data@.skip(i + 1)));
                }
                start = i + 1;
            }
            i += 1;
        }
        let tok = Gram { data: &data[start..n] };
        let ghost prev = out@;
        out.push(tok);
        proof {
            let rest = data@.skip(start as int);
            assert forall|j: int| 0 <= j < rest.len() implies rest[j] != TOKEN_SEPARATOR by {
                assert(rest[j] == data@[start + j]);
            }
            assert(!has_separator(rest));
            assert(rest =~= tok@);
            assert(spec_split(rest) == seq![tok@]);
            assert(gram_views(out@) =~= gram_views(prev).push(tok@));
            assert(gram_views(prev) + seq![tok@] =~= gram_views(prev).push(tok@));
            assert(spec_split(data@) == gram_views(out@));
            assert(forall|j: int|
                0 <= j < out@.len() ==> #[trigger] gram_views(out@)[j] == out@[j]@);
        }
        out
    }
}

/// The sequence of byte views of a sequence of grams.
pub open spec fn gram_views(gs: Seq<Gram<'_, u8>>) -> Seq<Seq<u8>> {
    gs.map(|i: int, g: Gram<'_, u8>| g@)
}

/// Byte-content equality of two slices.
pub fn bytes_equal(a: &[u8], b: &[u8]) -> (r: bool)
    ensures
        r == (a@ == b@),
{
    if a.len() != b.len() {
        return false;
    }
    let n = a.len();
    let mut i: usize = 0;
    while i < n
        invariant
            n == a@.len() == b@.len(),
            i <= n,
            forall|j: int| 0 <= j < i ==> a@[j] == b@[j],
        decreases n - i,
    {
        if a[i] != b[i] {
            return false;
        }
        i += 1;
    }
    proof {
        assert(a@ =~= b@);
    }
    true
}

impl<'a> PartialEq for Gram<'a, u8> {
    /// Content equality over the viewed bytes.
    fn eq(&self, other: &Self) -> (r: bool) {
        bytes_equal(self.data, other.data)
    }
}

impl<'a> vstd::std_specs::cmp::PartialEqSpecImpl for Gram<'a, u8> {
    open spec fn obeys_eq_spec() -> bool {
        true
    }

    open spec fn eq_spec(&self, other: &Self) -> bool {
        self@ == other@
    }
}

} // verus!
