//! Byte classes of the clear-text encoding.
use vstd::prelude::*;

verus! {

pub open spec fn is_digit(b: u8) -> bool {
    0x30 <= b <= 0x39
}

pub open spec fn is_upper(b: u8) -> bool {
    0x41 <= b <= 0x5a
}

pub open spec fn is_lower(b: u8) -> bool {
    0x61 <= b <= 0x7a
}

pub open spec fn is_alpha(b: u8) -> bool {
    is_upper(b) || is_lower(b)
}

pub open spec fn is_alnum(b: u8) -> bool {
    is_alpha(b) || is_digit(b)
}

/// Physical control octets, ignored everywhere in the exchange structure.
pub open spec fn is_control(b: u8) -> bool {
    b < 0x20 || b == 0x7f
}

/// Bytes that may continue a keyword or word token.
pub open spec fn is_word_byte(b: u8) -> bool {
    is_alnum(b) || b == 0x5f || b == 0x2d
}

/// Uppercase letter or underscore: the first byte of a standard keyword.
pub open spec fn is_keyword_start(b: u8) -> bool {
    is_upper(b) || b == 0x5f
}

/// Value of an uppercase hexadecimal digit.
pub open spec fn hex_value(b: u8) -> Option<u8> {
    if is_digit(b) {
        Some((b - 0x30) as u8)
    } else if 0x41 <= b <= 0x46 {
        Some((b - 0x41 + 10) as u8)
    } else {
        None
    }
}

/// Value of a base64 digit.
pub open spec fn base64_value(b: u8) -> Option<u8> {
    if is_upper(b) {
        Some((b - 0x41) as u8)
    } else if is_lower(b) {
        Some((b - 0x61 + 26) as u8)
    } else if is_digit(b) {
        Some((b - 0x30 + 52) as u8)
    } else if b == 0x2b {
        Some(62)
    } else if b == 0x2f {
        Some(63)
    } else {
        None
    }
}

/// A standard keyword (optionally written with the user-defined `!` prefix):
/// an uppercase letter or underscore followed by uppercase letters, digits or underscores.
pub open spec fn is_keyword(w: Seq<char>) -> bool {
    is_plain_keyword(strip_bang(w))
}

/// The word without its user-defined `!` prefix, if any.
pub open spec fn strip_bang(w: Seq<char>) -> Seq<char> {
    if w.len() > 0 && w[0] == '!' {
        w.drop_first()
    } else {
        w
    }
}

pub open spec fn is_keyword_char(c: char) -> bool {
    (c as u32) < 256 && (is_keyword_start((c as u32) as u8) || is_digit((c as u32) as u8))
}

pub open spec fn is_plain_keyword(s: Seq<char>) -> bool {
    &&& s.len() > 0
    &&& (s[0] as u32) < 256 && is_keyword_start((s[0] as u32) as u8)
    &&& forall|i: int| 0 <= i < s.len() ==> is_keyword_char(#[trigger] s[i])
}

/// Bytes accepted inside a `<...>` resource.
pub open spec fn is_uri_byte(b: u8) -> bool {
    is_alnum(b) || b == 0x2d || b == 0x2e || b == 0x5f || b == 0x7e || b == 0x3a || b == 0x2f
        || b == 0x3f || b == 0x23 || b == 0x5b || b == 0x5d || b == 0x40 || b == 0x21 || b
        == 0x24 || b == 0x26 || b == 0x27 || b == 0x28 || b == 0x29 || b == 0x2a || b == 0x2b
        || b == 0x2c || b == 0x3b || b == 0x3d || b == 0x25
}

pub open spec fn is_any_hex(b: u8) -> bool {
    is_digit(b) || 0x41 <= b <= 0x46 || 0x61 <= b <= 0x66
}

/// Every `%` is followed by two hexadecimal digits (either case).
pub open spec fn percent_encoding_ok(s: Seq<u8>) -> bool {
    forall|i: int|
        0 <= i < s.len() && #[trigger] s[i] == 0x25 ==> i + 2 < s.len() && is_any_hex(s[i + 1])
            && is_any_hex(s[i + 2])
}

pub fn is_upper_or_underscore(b: u8) -> (r: bool)
    ensures
        r == is_keyword_start(b),
{
    (0x41 <= b && b <= 0x5a) || b == 0x5f
}

pub fn is_digit_byte(b: u8) -> (r: bool)
    ensures
        r == is_digit(b),
{
    0x30 <= b && b <= 0x39
}

pub fn is_alnum_byte(b: u8) -> (r: bool)
    ensures
        r == is_alnum(b),
{
    (0x41 <= b && b <= 0x5a) || (0x61 <= b && b <= 0x7a) || (0x30 <= b && b <= 0x39)
}

pub fn is_word_continuation(b: u8) -> (r: bool)
    ensures
        r == is_word_byte(b),
{
    is_alnum_byte(b) || b == 0x5f || b == 0x2d
}

pub fn is_control_byte(b: u8) -> (r: bool)
    ensures
        r == is_control(b),
{
    b < 0x20 || b == 0x7f
}

/// Value of an uppercase hexadecimal digit; lowercase digits are rejected.
pub fn hex(b: u8) -> (r: Option<u8>)
    ensures
        r == hex_value(b),
        r matches Some(v) ==> v < 16,
{
    if 0x30 <= b && b <= 0x39 {
        Some(b - 0x30)
    } else if 0x41 <= b && b <= 0x46 {
        Some(b - 0x41 + 10)
    } else {
        None
    }
}

pub fn base64_digit(b: u8) -> (r: Option<u8>)
    ensures
        r == base64_value(b),
        r matches Some(v) ==> v < 64,
{
    if 0x41 <= b && b <= 0x5a {
        Some(b - 0x41)
    } else if 0x61 <= b && b <= 0x7a {
        Some(b - 0x61 + 26)
    } else if 0x30 <= b && b <= 0x39 {
        Some(b - 0x30 + 52)
    } else if b == 0x2b {
        Some(62)
    } else if b == 0x2f {
        Some(63)
    } else {
        None
    }
}

pub fn uri_byte(b: u8) -> (r: bool)
    ensures
        r == is_uri_byte(b),
{
    is_alnum_byte(b) || b == 0x2d || b == 0x2e || b == 0x5f || b == 0x7e || b == 0x3a || b == 0x2f
        || b == 0x3f || b == 0x23 || b == 0x5b || b == 0x5d || b == 0x40 || b == 0x21 || b
        == 0x24 || b == 0x26 || b == 0x27 || b == 0x28 || b == 0x29 || b == 0x2a || b == 0x2b
        || b == 0x2c || b == 0x3b || b == 0x3d || b == 0x25
}

fn any_hex(b: u8) -> (r: bool)
    ensures
        r == is_any_hex(b),
{
    (0x30 <= b && b <= 0x39) || (0x41 <= b && b <= 0x46) || (0x61 <= b && b <= 0x66)
}

/// Every percent sign introduces a two-digit hexadecimal escape.
pub fn valid_percent_encoding(s: &[u8]) -> (r: bool)
    ensures
        r == percent_encoding_ok(s@),
{
    let mut i: usize = 0;
    while i < s.len()
        invariant
            i <= s.len(),
            forall|k: int|
                0 <= k < i && #[trigger] s@[k] == 0x25 ==> k + 2 < s@.len() && is_any_hex(
                    s@[k + 1],
                ) && is_any_hex(s@[k + 2]),
        decreases s.len() - i,
    {
        if s[i] == 0x25 {
            if !(s.len() - i > 2 && any_hex(s[i + 1]) && any_hex(s[i + 2])) {
                assert(s@[i as int] == 0x25);
                return false;
            }
        }
        i += 1;
    }
    true
}

/// Whether a word (possibly prefixed by `!`) is a STEP keyword.
pub fn keyword(w: &[u8]) -> (r: bool)
    ensures
        r == is_keyword(bytes_to_chars(w@)),
{
    let ghost cs = bytes_to_chars(w@);
    let start: usize = if w.len() > 0 && w[0] == 0x21 { 1 } else { 0 };
    let ghost s = strip_bang(cs);
    proof {
        if w.len() > 0 {
            assert(cs[0] == (w@[0] as char));
        }
        assert(s =~= bytes_to_chars(w@.subrange(start as int, w@.len() as int)));
    }
    if start >= w.len() {
        return false;
    }
    if !is_upper_or_underscore(w[start]) {
        assert(s[0] == (w@[start as int] as char));
        assert(((w@[start as int] as char) as u32) == w@[start as int] as u32);
        return false;
    }
    let mut i = start;
    while i < w.len()
        invariant
            start <= i <= w.len(),
            s =~= bytes_to_chars(w@.subrange(start as int, w@.len() as int)),
            s == strip_bang(bytes_to_chars(w@)),
            s.len() > 0,
            (s[0] as u32) < 256 && is_keyword_start((s[0] as u32) as u8),
            forall|k: int| 0 <= k < i - start ==> is_keyword_char(#[trigger] s[k]),
        decreases w.len() - i,
    {
        assert(s[i - start] == (w@[i as int] as char));
        assert(((w@[i as int] as char) as u32) == w@[i as int] as u32);
        if !(is_upper_or_underscore(w[i]) || is_digit_byte(w[i])) {
            assert(!is_keyword_char(s[i - start]));
            return false;
        }
        i += 1;
    }
    true
}

/// Latin-1 reading of bytes: every byte becomes the character with the same code.
pub open spec fn bytes_to_chars(b: Seq<u8>) -> Seq<char> {
    b.map_values(|x: u8| x as char)
}

} // verus!
