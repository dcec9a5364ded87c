//! Canonical decimal text of integers.
//!
//! An integer has exactly one canonical text: an optional single `-`, then
//! either `0` alone or digits that do not start with `0`; `-0` is not
//! canonical. `decimal` writes it, `parse_int` reads it back, and
//! `lemma_parse_decimal` and `lemma_decimal_parse` state that the two are
//! inverse to each other.

use vstd::prelude::*;

verus! {

/// The byte `0`.
pub const ZERO: u8 = 48;

/// The byte `-`.
pub const MINUS: u8 = 45;

/// `b` is one of the bytes `0` to `9`.
pub open spec fn is_digit(b: u8) -> bool {
    48 <= b <= 57
}

/// Every byte of `s` is a digit.
pub open spec fn all_digits(s: Seq<u8>) -> bool {
    forall|i: int| 0 <= i < s.len() ==> is_digit(#[trigger] s[i])
}

/// The digits of `n`, most significant first, without a leading zero.
pub open spec fn digits(n: nat) -> Seq<u8>
    decreases n,
{
    if n < 10 {
        seq![(48 + n) as u8]
    } else {
        digits(n / 10).push((48 + n % 10) as u8)
    }
}

/// The canonical text of `n`.
pub open spec fn decimal(n: int) -> Seq<u8> {
    if n < 0 {
        seq![MINUS] + digits((-n) as nat)
    } else {
        digits(n as nat)
    }
}

/// The number that a string of digits denotes; leading zeros do not count.
pub open spec fn digits_value(s: Seq<u8>) -> nat
    decreases s.len(),
{
    if s.len() == 0 {
        0
    } else {
        (digits_value(s.drop_last()) * 10 + (s.last() - 48)) as nat
    }
}

/// `s` is the canonical text of a natural number.
pub open spec fn is_canonical_nat(s: Seq<u8>) -> bool {
    &&& s.len() > 0
    &&& all_digits(s)
    &&& s[0] == ZERO ==> s.len() == 1
}

/// `s` starts with `-`.
pub open spec fn has_sign(s: Seq<u8>) -> bool {
    s.len() > 0 && s[0] == MINUS
}

/// `s` is the canonical text of an integer.
pub open spec fn is_canonical_int(s: Seq<u8>) -> bool {
    if has_sign(s) {
        is_canonical_nat(s.skip(1)) && s[1] != ZERO
    } else {
        is_canonical_nat(s)
    }
}

/// The integer that a canonical text denotes.
pub open spec fn int_value(s: Seq<u8>) -> int {
    if has_sign(s) {
        -(digits_value(s.skip(1)) as int)
    } else {
        digits_value(s) as int
    }
}

/// Reads a signed 64-bit integer from its canonical text: `None` where `s` is
/// not canonical or denotes a number outside the 64-bit range.
#[verifier::opaque]
pub open spec fn parse_int(s: Seq<u8>) -> Option<int> {
    if is_canonical_int(s) && i64::MIN <= int_value(s) <= i64::MAX {
        Some(int_value(s))
    } else {
        None
    }
}

/// Appends the digits of `n` to `out`.
pub fn append_digits(out: &mut Vec<u8>, n: u64)
    ensures
        final(out)@ == old(out)@ + digits(n as nat),
    decreases n,
{
    if n >= 10 {
        append_digits(out, n / 10);
    }
    out.push(48 + (n % 10) as u8);
    proof {
        if n >= 10 {
            assert(out@ =~= old(out)@ + digits((n / 10) as nat).push((48 + n % 10) as u8));
        } else {
            assert(out@ =~= old(out)@ + seq![(48 + n) as u8]);
        }
    }
}

/// Appends the canonical text of `n` to `out`.
pub fn append_decimal(out: &mut Vec<u8>, n: i64)
    ensures
        final(out)@ == old(out)@ + decimal(n as int),
{
    if n < 0 {
        out.push(MINUS);
        let magnitude: u64 = (0 - n as i128) as u64;
        append_digits(out, magnitude);
        assert(out@ =~= old(out)@ + (seq![MINUS] + digits((-n) as nat)));
    } else {
        append_digits(out, n as u64);
    }
}

/// A string of digits denotes at least what each of its prefixes denotes.
pub proof fn lemma_digits_value_monotonic(s: Seq<u8>, k: int)
    requires
        all_digits(s),
        0 <= k <= s.len(),
    ensures
        digits_value(s.take(k)) <= digits_value(s),
    decreases s.len() - k,
{
    if k == s.len() {
        assert(s.take(k) =~= s);
    } else {
        lemma_digits_value_monotonic(s, k + 1);
        let t = s.take(k + 1);
        assert(t.drop_last() =~= s.take(k));
        assert(is_digit(s[k]));
        assert(t.last() == s[k]);
    }
}

/// The digits of a number are digits, start with `0` only for zero itself,
/// and denote that number.
pub proof fn lemma_digits_canonical(n: nat)
    ensures
        is_canonical_nat(digits(n)),
        digits_value(digits(n)) == n,
        digits(n)[0] == ZERO <==> n == 0,
    decreases n,
{
    if n < 10 {
        let s = digits(n);
        assert(s.drop_last() =~= Seq::<u8>::empty());
        assert(digits_value(s.drop_last()) == 0);
    } else {
        lemma_digits_canonical(n / 10);
        let p = digits(n / 10);
        let s = digits(n);
        assert(s.drop_last() =~= p);
        assert(s[0] == p[0]);
        assert forall|i: int| 0 <= i < s.len() implies is_digit(#[trigger] s[i]) by {
            if i < p.len() {
                assert(s[i] == p[i]);
            }
        }
    }
}

/// A canonical text of a natural number is the digits of what it denotes.
pub proof fn lemma_canonical_digits(s: Seq<u8>)
    requires
        is_canonical_nat(s),
    ensures
        digits(digits_value(s)) == s,
    decreases s.len(),
{
    let p = s.drop_last();
    let d = s.last();
    assert(is_digit(d));
    if s.len() == 1 {
        assert(p =~= Seq::<u8>::empty());
        assert(digits_value(p) == 0);
        assert(digits_value(s) == d - 48);
        assert(digits(digits_value(s)) =~= s);
    } else {
        assert(p[0] == s[0]);
        assert forall|i: int| 0 <= i < p.len() implies is_digit(#[trigger] p[i]) by {
            assert(p[i] == s[i]);
        }
        assert(is_canonical_nat(p)) by {
            if p.len() > 1 {
            } else {
                assert(s[0] != ZERO);
            }
        }
        lemma_canonical_digits(p);
        lemma_nonzero_lead_positive(p);
        let v = digits_value(p);
        assert(v >= 1);
        assert(digits_value(s) == v * 10 + (d - 48));
        assert(digits_value(s) >= 10);
        assert(digits_value(s) / 10 == v);
        assert(digits_value(s) % 10 == d - 48);
        assert(digits(digits_value(s)) =~= s);
    }
}

/// Digits that do not start with `0` denote a positive number.
pub proof fn lemma_nonzero_lead_positive(s: Seq<u8>)
    requires
        s.len() > 0,
        all_digits(s),
        s[0] != ZERO,
    ensures
        digits_value(s) >= 1,
    decreases s.len(),
{
    if s.len() == 1 {
        assert(s.drop_last() =~= Seq::<u8>::empty());
        assert(digits_value(s.drop_last()) == 0);
        assert(is_digit(s[0]));
    } else {
        let p = s.drop_last();
        assert(p[0] == s[0]);
        assert forall|i: int| 0 <= i < p.len() implies is_digit(#[trigger] p[i]) by {
            assert(p[i] == s[i]);
        }
        lemma_nonzero_lead_positive(p);
        assert(is_digit(s.last()));
    }
}

/// The canonical text of an integer is canonical and denotes that integer.
pub proof fn lemma_decimal_canonical(n: int)
    ensures
        is_canonical_int(decimal(n)),
        int_value(decimal(n)) == n,
        decimal(n).len() > 0,
        decimal(n)[0] == MINUS || is_digit(decimal(n)[0]),
        forall|i: int| 0 < i < decimal(n).len() ==> is_digit(#[trigger] decimal(n)[i]),
{
    if n < 0 {
        let m = (-n) as nat;
        lemma_digits_canonical(m);
        let s = decimal(n);
        assert(s.skip(1) =~= digits(m));
        assert(s[1] == digits(m)[0]);
        assert forall|i: int| 0 < i < s.len() implies is_digit(#[trigger] s[i]) by {
            assert(s[i] == digits(m)[i - 1]);
        }
    } else {
        lemma_digits_canonical(n as nat);
        assert(is_digit(decimal(n)[0]));
    }
}

/// A canonical text is the canonical text of the integer that it denotes.
pub proof fn lemma_canonical_decimal(s: Seq<u8>)
    requires
        is_canonical_int(s),
    ensures
        decimal(int_value(s)) == s,
{
    if has_sign(s) {
        let t = s.skip(1);
        lemma_canonical_digits(t);
        assert(t[0] == s[1]);
        lemma_nonzero_lead_positive(t);
        assert(decimal(int_value(s)) =~= s);
    } else {
        lemma_canonical_digits(s);
    }
}

/// Reading the canonical text of a signed 64-bit integer gives it back.
pub proof fn lemma_parse_decimal(n: int)
    requires
        i64::MIN <= n <= i64::MAX,
    ensures
        parse_int(decimal(n)) == Some(n),
{
    reveal(parse_int);
    lemma_decimal_canonical(n);
}

/// What is read from a text is a signed 64-bit integer that has the text
/// as its canonical text.
pub proof fn lemma_decimal_parse(s: Seq<u8>)
    requires
        parse_int(s) is Some,
    ensures
        decimal(parse_int(s)->Some_0) == s,
        i64::MIN <= parse_int(s)->Some_0 <= i64::MAX,
{
    reveal(parse_int);
    lemma_canonical_decimal(s);
}

} // verus!
