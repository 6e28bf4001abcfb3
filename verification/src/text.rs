use vstd::prelude::*;

verus! {

use vstd::string::StrSliceExecFns;

/// A type with a canonical, lossless text encoding, as the snapshot
/// format requires of keys and values.
pub trait PersistText: View + Sized {
    /// The canonical text for a value whose view is `v`.
    spec fn text_of(v: Self::V) -> Seq<char>;

    /// How a text field decodes, when it does.
    spec fn of_text(t: Seq<char>) -> Option<Self::V>;

    /// The codec is lossless: decoding undoes encoding.
    proof fn lemma_codec_round_trip(v: Self::V)
        ensures
            Self::of_text(Self::text_of(v)) == Some(v),
    ;

    /// Encodes the value canonically.
    fn to_text(&self) -> (s: String)
        ensures
            s@ == Self::text_of(self@),
    ;

    /// Decodes a field.
    fn from_text(t: &str) -> (r: Option<Self>)
        ensures
            match r {
                Some(v) => Self::of_text(t@) == Some(v@),
                None => Self::of_text(t@) is None,
            },
    ;
}

impl PersistText for String {
    /// A string is its own encoding.
    open spec fn text_of(v: Seq<char>) -> Seq<char> {
        v
    }

    open spec fn of_text(t: Seq<char>) -> Option<Seq<char>> {
        Some(t)
    }

    proof fn lemma_codec_round_trip(v: Seq<char>) {
    }

    fn to_text(&self) -> (s: String) {
        self.clone()
    }

    fn from_text(t: &str) -> (r: Option<Self>) {
        Some(t.to_owned())
    }
}

impl PersistText for u64 {
    /// A number encodes as its canonical decimal digits.
    open spec fn text_of(v: u64) -> Seq<char> {
        crate::digits::dec_rep(v as nat)
    }

    open spec fn of_text(t: Seq<char>) -> Option<u64> {
        crate::digits::dec_of(t)
    }

    proof fn lemma_codec_round_trip(v: u64) {
        crate::digits::lemma_dec_round_trip(v);
    }

    fn to_text(&self) -> (s: String) {
        crate::digits::to_decimal(*self)
    }

    fn from_text(t: &str) -> (r: Option<Self>) {
        crate::digits::parse_decimal(t)
    }
}

/// The index of the first occurrence of `c` in `t`, or `t.len()` when
/// `c` does not occur.
pub open spec fn find_ch(t: Seq<char>, c: char) -> int
    decreases t.len(),
{
    if t.len() == 0 {
        0
    } else if t[0] == c {
        0
    } else {
        1 + find_ch(t.drop_first(), c)
    }
}

/// The characterization of the first occurrence.
pub proof fn lemma_find_ch(t: Seq<char>, c: char)
    ensures
        0 <= find_ch(t, c) <= t.len(),
        find_ch(t, c) < t.len() ==> t[find_ch(t, c)] == c,
        forall|i: int| 0 <= i < find_ch(t, c) ==> t[i] != c,
    decreases t.len(),
{
    if t.len() > 0 && t[0] != c {
        lemma_find_ch(t.drop_first(), c);
        assert forall|i: int| 0 <= i < find_ch(t, c) implies t[i] != c by {
            if i > 0 {
                assert(t.drop_first()[i - 1] == t[i]);
            }
        }
    }
}

/// Any position with the first-occurrence properties is the first
/// occurrence.
pub proof fn lemma_find_ch_unique(t: Seq<char>, c: char, r: int)
    requires
        0 <= r <= t.len(),
        r < t.len() ==> t[r] == c,
        forall|i: int| 0 <= i < r ==> t[i] != c,
    ensures
        r == find_ch(t, c),
{
    lemma_find_ch(t, c);
    let f = find_ch(t, c);
    if f < r {
        assert(t[f] == c);
        assert(t[f] != c);
    } else if r < f {
        assert(t[r] == c);
        assert(t[r] != c);
    }
}

/// Scans `t` for the first occurrence of `c`.
pub fn find_char(t: &str, c: char) -> (r: usize)
    ensures
        r == find_ch(t@, c),
        r <= t@.len(),
{
    let n = t.unicode_len();
    let mut i: usize = 0;
    while i < n
        invariant
            n == t@.len(),
            i <= n,
            forall|j: int| 0 <= j < i ==> t@[j] != c,
        decreases n - i,
    {
        if t.get_char(i) == c {
            proof {
                lemma_find_ch_unique(t@, c, i as int);
            }
            return i;
        }
        i = i + 1;
    }
    proof {
        lemma_find_ch_unique(t@, c, n as int);
    }
    n
}

} // verus!
