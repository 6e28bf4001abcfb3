use vstd::prelude::*;

verus! {

use vstd::string::StrSliceExecFns;
use vstd::string::StringExecFns;

/// The character for the decimal digit `d`.
pub open spec fn digit_char(d: nat) -> char
    recommends
        d < 10,
{
    if d == 0 {
        '0'
    } else if d == 1 {
        '1'
    } else if d == 2 {
        '2'
    } else if d == 3 {
        '3'
    } else if d == 4 {
        '4'
    } else if d == 5 {
        '5'
    } else if d == 6 {
        '6'
    } else if d == 7 {
        '7'
    } else if d == 8 {
        '8'
    } else {
        '9'
    }
}

/// Whether `c` is a decimal digit.
pub open spec fn is_digit(c: char) -> bool {
    48 <= c as u32 <= 57
}

/// The numeric value of the digit `c`.
pub open spec fn digit_val(c: char) -> nat
    recommends
        is_digit(c),
{
    (c as u32 - 48) as nat
}

/// The canonical decimal representation of `n`: plain digits, no sign,
/// no leading zeros, a single `0` for zero.
pub open spec fn dec_rep(n: nat) -> Seq<char>
    decreases n,
{
    if n < 10 {
        seq![digit_char(n)]
    } else {
        dec_rep(n / 10).push(digit_char(n % 10))
    }
}

/// The number denoted by the digit string `t`.
pub open spec fn dec_val(t: Seq<char>) -> nat
    decreases t.len(),
{
    if t.len() == 0 {
        0
    } else {
        dec_val(t.drop_last()) * 10 + digit_val(t.last())
    }
}

/// All characters of `t` are decimal digits.
pub open spec fn all_digits(t: Seq<char>) -> bool {
    forall|i: int| 0 <= i < t.len() ==> is_digit(#[trigger] t[i])
}

/// How a stamp field decodes: a nonempty all-digit string whose value
/// fits in 64 bits; anything else is rejected.
pub open spec fn dec_of(t: Seq<char>) -> Option<u64> {
    if t.len() > 0 && all_digits(t) && dec_val(t) <= u64::MAX {
        Some(dec_val(t) as u64)
    } else {
        None
    }
}

/// The canonical representation is a nonempty string of digits.
pub proof fn lemma_dec_rep_digits(n: nat)
    ensures
        dec_rep(n).len() >= 1,
        all_digits(dec_rep(n)),
    decreases n,
{
    if n >= 10 {
        lemma_dec_rep_digits(n / 10);
        assert forall|i: int| 0 <= i < dec_rep(n).len() implies is_digit(#[trigger] dec_rep(n)[i]) by {
            if i < dec_rep(n / 10).len() {
                assert(dec_rep(n)[i] == dec_rep(n / 10)[i]);
            }
        }
    }
}

/// The canonical representation denotes the number it was built from.
pub proof fn lemma_dec_rep_val(n: nat)
    ensures
        dec_val(dec_rep(n)) == n,
    decreases n,
{
    if n < 10 {
        assert(dec_rep(n).drop_last() =~= Seq::<char>::empty());
        assert(dec_val(Seq::<char>::empty()) == 0);
        assert(dec_rep(n).last() == digit_char(n));
        assert(digit_val(digit_char(n)) == n);
    } else {
        lemma_dec_rep_val(n / 10);
        assert(dec_rep(n).drop_last() =~= dec_rep(n / 10));
        assert(dec_rep(n).last() == digit_char(n % 10));
        assert(digit_val(digit_char(n % 10)) == n % 10);
        assert(dec_val(dec_rep(n)) == (n / 10) * 10 + n % 10);
        assert((n / 10) * 10 + n % 10 == n) by (nonlinear_arith);
    }
}

/// Decoding the canonical representation gives the number back.
pub proof fn lemma_dec_round_trip(n: u64)
    ensures
        dec_of(dec_rep(n as nat)) == Some(n),
{
    lemma_dec_rep_digits(n as nat);
    lemma_dec_rep_val(n as nat);
}

/// A prefix of a digit string never denotes more than the whole.
proof fn lemma_dec_val_prefix_le(t: Seq<char>, i: int)
    requires
        0 <= i <= t.len(),
    ensures
        dec_val(t.take(i)) <= dec_val(t),
    decreases t.len() - i,
{
    if i < t.len() {
        assert(t.take(i + 1).drop_last() =~= t.take(i));
        assert(dec_val(t.take(i + 1)) == dec_val(t.take(i)) * 10 + digit_val(t.take(i + 1).last()));
        lemma_dec_val_prefix_le(t, i + 1);
    } else {
        assert(t.take(i) =~= t);
    }
}

/// The digit characters in reverse order: the last collected digit comes
/// first.
spec fn rev_digit_chars(ds: Seq<u8>) -> Seq<char>
    decreases ds.len(),
{
    if ds.len() == 0 {
        Seq::empty()
    } else {
        seq![digit_char(ds.last() as nat)] + rev_digit_chars(ds.drop_last())
    }
}

/// Pointwise reading of the reversed digit characters.
proof fn lemma_rev_digit_chars_index(ds: Seq<u8>)
    ensures
        rev_digit_chars(ds).len() == ds.len(),
        forall|i: int|
            0 <= i < ds.len() ==> rev_digit_chars(ds)[i] == digit_char(
                ds[ds.len() - 1 - i] as nat,
            ),
    decreases ds.len(),
{
    if ds.len() > 0 {
        lemma_rev_digit_chars_index(ds.drop_last());
    }
}

/// A single-character string for the digit `d`.
fn digit_str(d: u8) -> (r: &'static str)
    requires
        d < 10,
    ensures
        r@ == seq![digit_char(d as nat)],
{
    let r: &'static str = match d {
        0 => "0",
        1 => "1",
        2 => "2",
        3 => "3",
        4 => "4",
        5 => "5",
        6 => "6",
        7 => "7",
        8 => "8",
        _ => "9",
    };
    proof {
        reveal_strlit("0");
        reveal_strlit("1");
        reveal_strlit("2");
        reveal_strlit("3");
        reveal_strlit("4");
        reveal_strlit("5");
        reveal_strlit("6");
        reveal_strlit("7");
        reveal_strlit("8");
        reveal_strlit("9");
        assert(r@ =~= seq![digit_char(d as nat)]);
    }
    r
}

/// Renders `n` as its canonical decimal representation.
pub fn to_decimal(n: u64) -> (s: String)
    ensures
        s@ == dec_rep(n as nat),
{
    let mut digs: Vec<u8> = Vec::new();
    let mut m: u64 = n;
    while m >= 10
        invariant
            dec_rep(n as nat) == dec_rep(m as nat) + rev_digit_chars(digs@),
            forall|i: int| 0 <= i < digs@.len() ==> #[trigger] digs@[i] < 10,
        decreases m,
    {
        let ghost digs0 = digs@;
        let ghost m0 = m as nat;
        let d = (m % 10) as u8;
        digs.push(d);
        m = m / 10;
        proof {
            assert(digs@.drop_last() =~= digs0);
            assert(rev_digit_chars(digs@) == seq![digit_char(d as nat)] + rev_digit_chars(digs0));
            assert(dec_rep(m0) == dec_rep(m0 / 10).push(digit_char(m0 % 10)));
            assert(dec_rep(m as nat).push(digit_char(d as nat)) + rev_digit_chars(digs0)
                =~= dec_rep(m as nat) + rev_digit_chars(digs@));
        }
    }
    let ghost digs0 = digs@;
    digs.push(m as u8);
    proof {
        assert(digs@.drop_last() =~= digs0);
        assert(rev_digit_chars(digs@) == seq![digit_char(m as nat)] + rev_digit_chars(digs0));
        assert(seq![digit_char(m as nat)] =~= dec_rep(m as nat));
        assert(dec_rep(m as nat) + rev_digit_chars(digs0) =~= rev_digit_chars(digs@));
        lemma_rev_digit_chars_index(digs@);
    }
    let mut s = String::new();
    let mut j: usize = digs.len();
    while j > 0
        invariant
            j <= digs@.len(),
            forall|i: int| 0 <= i < digs@.len() ==> #[trigger] digs@[i] < 10,
            rev_digit_chars(digs@).len() == digs@.len(),
            forall|i: int|
                0 <= i < digs@.len() ==> rev_digit_chars(digs@)[i] == digit_char(
                    digs@[digs@.len() - 1 - i] as nat,
                ),
            s@.len() == digs@.len() - j,
            forall|i: int|
                0 <= i < s@.len() ==> s@[i] == digit_char(digs@[digs@.len() - 1 - i] as nat),
        decreases j,
    {
        j = j - 1;
        s.append(digit_str(digs[j]));
    }
    proof {
        assert(s@ =~= rev_digit_chars(digs@));
    }
    s
}

/// Parses a stamp field: accepts exactly the nonempty all-digit strings
/// whose value fits in 64 bits.
pub fn parse_decimal(t: &str) -> (r: Option<u64>)
    ensures
        r == dec_of(t@),
{
    let n = t.unicode_len();
    if n == 0 {
        return None;
    }
    let mut acc: u64 = 0;
    let mut i: usize = 0;
    while i < n
        invariant
            n == t@.len(),
            0 < n <= usize::MAX,
            i <= n,
            all_digits(t@.take(i as int)),
            acc == dec_val(t@.take(i as int)),
        decreases n - i,
    {
        let c = t.get_char(i);
        let u = c as u32;
        proof {
            assert(t@.take(i as int + 1).drop_last() =~= t@.take(i as int));
            assert(t@.take(i as int + 1).last() == t@[i as int]);
        }
        if u < 48 || u > 57 {
            proof {
                assert(!is_digit(t@[i as int]));
            }
            return None;
        }
        let d = (u - 48) as u64;
        let shifted = match acc.checked_mul(10) {
            Some(x) => x,
            None => {
                proof {
                    assert(dec_val(t@.take(i as int + 1)) > u64::MAX);
                    lemma_dec_val_prefix_le(t@, i as int + 1);
                }
                return None;
            },
        };
        acc = match shifted.checked_add(d) {
            Some(x) => x,
            None => {
                proof {
                    assert(dec_val(t@.take(i as int + 1)) > u64::MAX);
                    lemma_dec_val_prefix_le(t@, i as int + 1);
                }
                return None;
            },
        };
        i = i + 1;
    }
    proof {
        assert(t@.take(n as int) =~= t@);
    }
    Some(acc)
}

} // verus!
