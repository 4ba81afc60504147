//! Decimal integer syntax and values of numeric tokens.
use vstd::prelude::*;
use crate::chars::is_digit;

verus! {

pub open spec fn all_digits(s: Seq<u8>) -> bool {
    forall|i: int| 0 <= i < s.len() ==> is_digit(#[trigger] s[i])
}

/// The value of a string of decimal digits.
pub open spec fn decimal(s: Seq<u8>) -> nat
    decreases s.len(),
{
    if s.len() == 0 {
        0
    } else {
        decimal(s.drop_last()) * 10 + (s.last() - 0x30) as nat
    }
}

pub open spec fn is_sign_byte(b: u8) -> bool {
    b == 0x2b || b == 0x2d
}

/// Length of the optional leading sign.
pub open spec fn sign_len(t: Seq<u8>) -> int {
    if t.len() > 0 && is_sign_byte(t[0]) {
        1
    } else {
        0
    }
}

/// An optionally signed, nonempty string of decimal digits.
pub open spec fn integer_syntax(t: Seq<u8>) -> bool {
    t.len() > sign_len(t) && all_digits(t.skip(sign_len(t)))
}

/// The mathematical value of an integer literal.
pub open spec fn integer_value(t: Seq<u8>) -> int {
    if t.len() > 0 && t[0] == 0x2d {
        -decimal(t.skip(1))
    } else {
        decimal(t.skip(sign_len(t))) as int
    }
}

pub open spec fn is_sign(s: Seq<u8>) -> bool {
    s.len() == 0 || (s.len() == 1 && is_sign_byte(s[0]))
}

/// Optional exponent: `E`, an optional sign and at least one digit.
pub open spec fn exponent_syntax(e: Seq<u8>) -> bool {
    e.len() == 0 || exists|s: Seq<u8>, d: Seq<u8>|
        e == seq![0x45u8] + s + d && is_sign(s) && all_digits(d) && d.len() > 0
}

/// Fractional part of a real literal: a point, optional digits, optional exponent.
pub open spec fn fraction_syntax(u: Seq<u8>) -> bool {
    exists|d: Seq<u8>, e: Seq<u8>|
        u == seq![0x2eu8] + d + e && all_digits(d) && exponent_syntax(e)
}

/// Real literal: optional sign, digits, a point, optional digits, optional exponent.
pub open spec fn real_syntax(t: Seq<u8>) -> bool {
    exists|s: Seq<u8>, d: Seq<u8>, u: Seq<u8>|
        t == s + d + u && is_sign(s) && all_digits(d) && d.len() > 0 && fraction_syntax(u)
}

pub proof fn lemma_decimal_push(s: Seq<u8>, b: u8)
    ensures
        decimal(s.push(b)) == decimal(s) * 10 + (b - 0x30) as nat,
{
    assert(s.push(b).drop_last() =~= s);
}

/// Value of a nonempty digit string, when it fits in `u64`.
pub fn parse_u64(d: &[u8]) -> (r: Option<u64>)
    requires
        all_digits(d@),
    ensures
        r is Some <==> decimal(d@) <= u64::MAX,
        r matches Some(v) ==> v == decimal(d@),
{
    let mut value: u64 = 0;
    let mut big = false;
    let mut i: usize = 0;
    while i < d.len()
        invariant
            i <= d.len(),
            all_digits(d@),
            !big ==> value == decimal(d@.take(i as int)),
            big ==> decimal(d@.take(i as int)) > u64::MAX,
        decreases d.len() - i,
    {
        let digit = (d[i] - 0x30) as u64;
        proof {
            assert(d@.take(i + 1) =~= d@.take(i as int).push(d@[i as int]));
            lemma_decimal_push(d@.take(i as int), d@[i as int]);
        }
        if !big {
            if value > (u64::MAX - digit) / 10 {
                big = true;
            } else {
                value = value * 10 + digit;
            }
        }
        i += 1;
    }
    proof {
        assert(d@.take(d@.len() as int) =~= d@);
    }
    if big {
        None
    } else {
        Some(value)
    }
}

/// Value of an integer literal when it fits in `i64`.
pub fn parse_integer(t: &[u8]) -> (r: Option<i64>)
    requires
        integer_syntax(t@),
    ensures
        r is Some <==> i64::MIN <= integer_value(t@) <= i64::MAX,
        r matches Some(v) ==> v == integer_value(t@),
{
    let negative = t[0] == 0x2d;
    let start: usize = if t[0] == 0x2b || t[0] == 0x2d { 1 } else { 0 };
    let mut value: u64 = 0;
    let mut big = false;
    let mut i: usize = start;
    let ghost digits = t@.skip(start as int);
    while i < t.len()
        invariant
            start <= i <= t.len(),
            digits == t@.skip(start as int),
            all_digits(digits),
            !big ==> value == decimal(digits.take(i - start)),
            !big ==> value <= 0x8000_0000_0000_0000,
            big ==> decimal(digits.take(i - start)) > 0x8000_0000_0000_0000,
        decreases t.len() - i,
    {
        proof {
            assert(digits.take(i - start + 1) =~= digits.take(i - start).push(digits[i - start]));
            assert(digits[i - start] == t@[i as int]);
            assert(is_digit(digits[i - start]));
            lemma_decimal_push(digits.take(i - start), digits[i - start]);
        }
        let digit = (t[i] - 0x30) as u64;
        if !big {
            if value > (0x8000_0000_0000_0000u64 - digit) / 10 {
                big = true;
            } else {
                value = value * 10 + digit;
            }
        }
        i += 1;
    }
    proof {
        assert(digits.take(t@.len() - start) =~= digits);
        assert(start == sign_len(t@));
    }
    if big {
        None
    } else if negative {
        if value == 0x8000_0000_0000_0000u64 {
            Some(i64::MIN)
        } else {
            let small = value as i64;
            Some(-small)
        }
    } else if value <= 0x7fff_ffff_ffff_ffffu64 {
        Some(value as i64)
    } else {
        None
    }
}

} // verus!
