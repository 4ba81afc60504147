//! Decoding of string literal contents: doubled apostrophes, `\\`, the print
//! controls `\N\` and `\F\`, ISO 8859 alphabets (`\P`, `\S`) and `\X` escapes.
use vstd::prelude::*;
use vstd::utf8::{decode_utf8, encode_utf8, is_scalar, valid_utf8};
use crate::chars::hex_value;
use crate::diagnostic::DiagnosticCode;
use crate::pages::{lookup_page, page_scalar};
use crate::text::{char_width, lemma_encode_concat, lemma_encode_push, push_char, push_str, scalar_char, utf8_text};
use crate::chars::hex;

verus! {

/// Number of UTF-8 bytes of a character sequence.
pub open spec fn encoded_len(s: Seq<char>) -> nat {
    encode_utf8(s).len()
}

/// Value of `count` uppercase hexadecimal digits at `raw[i..]`, if all are present.
pub open spec fn hex_run(raw: Seq<u8>, i: int, count: nat) -> Option<nat>
    decreases count,
{
    if count == 0 {
        Some(0)
    } else {
        match hex_run(raw, i, (count - 1) as nat) {
            None => None,
            Some(v) => {
                let j = i + count - 1;
                if 0 <= j < raw.len() && hex_value(raw[j]) is Some {
                    Some(v * 16 + (hex_value(raw[j])->0) as nat)
                } else {
                    None
                }
            },
        }
    }
}

/// The character written as `count` hexadecimal digits at `raw[i..]`.
pub open spec fn scalar_at(raw: Seq<u8>, i: int, count: nat) -> Option<char> {
    if 0 <= i && i + count <= raw.len() {
        match hex_run(raw, i, count) {
            Some(v) => if v <= u32::MAX && is_scalar(v as u32) {
                Some((v as u32) as char)
            } else {
                None
            },
            None => None,
        }
    } else {
        None
    }
}

/// End of the run of ordinary bytes starting at `i`.
pub open spec fn segment_end(raw: Seq<u8>, i: int) -> int
    decreases raw.len() - i,
{
    if i < 0 || i >= raw.len() || raw[i] == 0x27 || raw[i] == 0x5c {
        i
    } else {
        segment_end(raw, i + 1)
    }
}

/// Decoding from `cursor` with alphabet `page`, output so far `out` and byte budget `max`.
/// `ext` is 0 in ordinary text, or 4 or 8 inside a `\X2\` or `\X4\` run that has
/// produced `count` characters so far.
pub open spec fn decode_from(
    raw: Seq<u8>,
    cursor: int,
    page: int,
    out: Seq<char>,
    max: nat,
    ext: int,
    count: nat,
) -> Result<Seq<char>, DiagnosticCode>
    decreases raw.len() - cursor,
{
    if cursor < 0 || cursor >= raw.len() {
        if ext == 0 {
            Ok(out)
        } else {
            Err(DiagnosticCode::InvalidEscape)
        }
    } else if ext != 0 {
        if raw[cursor] == 0x5c {
            if count == 0 {
                Err(DiagnosticCode::InvalidEscape)
            } else if cursor + 4 <= raw.len() && raw[cursor + 1] == 0x58 && raw[cursor + 2] == 0x30
                && raw[cursor + 3] == 0x5c {
                decode_from(raw, cursor + 4, page, out, max, 0, 0)
            } else {
                Err(DiagnosticCode::InvalidEscape)
            }
        } else if ext < 0 {
            Err(DiagnosticCode::InvalidEscape)
        } else {
            match scalar_at(raw, cursor, ext as nat) {
                None => Err(DiagnosticCode::InvalidEscape),
                Some(c) => if encoded_len(out.push(c)) > max {
                    Err(DiagnosticCode::LimitExceeded)
                } else {
                    decode_from(raw, cursor + ext, page, out.push(c), max, ext, count + 1)
                },
            }
        }
    } else if raw[cursor] == 0x27 {
        if cursor + 1 < raw.len() && raw[cursor + 1] == 0x27 {
            if encoded_len(out.push('\'')) > max {
                Err(DiagnosticCode::LimitExceeded)
            } else {
                decode_from(raw, cursor + 2, page, out.push('\''), max, 0, 0)
            }
        } else {
            Err(DiagnosticCode::InvalidEscape)
        }
    } else if raw[cursor] == 0x5c {
        if cursor + 1 >= raw.len() {
            Err(DiagnosticCode::InvalidEscape)
        } else {
            let d = raw[cursor + 1];
            if d == 0x5c {
                if encoded_len(out.push('\\')) > max {
                    Err(DiagnosticCode::LimitExceeded)
                } else {
                    decode_from(raw, cursor + 2, page, out.push('\\'), max, 0, 0)
                }
            } else if d == 0x4e || d == 0x46 {
                if cursor + 2 < raw.len() && raw[cursor + 2] == 0x5c {
                    decode_from(raw, cursor + 3, page, out, max, 0, 0)
                } else {
                    Err(DiagnosticCode::InvalidEscape)
                }
            } else if d == 0x50 {
                if cursor + 3 < raw.len() && 0x41 <= raw[cursor + 2] <= 0x49 && raw[cursor + 3]
                    == 0x5c {
                    decode_from(raw, cursor + 4, raw[cursor + 2] - 0x41, out, max, 0, 0)
                } else {
                    Err(DiagnosticCode::InvalidEscape)
                }
            } else if d == 0x53 {
                if cursor + 3 < raw.len() && raw[cursor + 2] == 0x5c && 0x20 <= raw[cursor + 3]
                    <= 0x7e && page_scalar(page, raw[cursor + 3]) != 0 {
                    let v = page_scalar(page, raw[cursor + 3]);
                    if is_scalar(v) {
                        if encoded_len(out.push(v as char)) > max {
                            Err(DiagnosticCode::LimitExceeded)
                        } else {
                            decode_from(raw, cursor + 4, page, out.push(v as char), max, 0, 0)
                        }
                    } else {
                        decode_from(raw, cursor + 4, page, out, max, 0, 0)
                    }
                } else {
                    Err(DiagnosticCode::InvalidEscape)
                }
            } else if d == 0x58 {
                if cursor + 2 >= raw.len() {
                    Err(DiagnosticCode::InvalidEscape)
                } else if raw[cursor + 2] == 0x5c {
                    match scalar_at(raw, cursor + 3, 2) {
                        None => Err(DiagnosticCode::InvalidEscape),
                        Some(c) => if encoded_len(out.push(c)) > max {
                            Err(DiagnosticCode::LimitExceeded)
                        } else {
                            decode_from(raw, cursor + 5, page, out.push(c), max, 0, 0)
                        },
                    }
                } else if raw[cursor + 2] == 0x32 || raw[cursor + 2] == 0x34 {
                    if cursor + 3 < raw.len() && raw[cursor + 3] == 0x5c {
                        decode_from(
                            raw,
                            cursor + 4,
                            page,
                            out,
                            max,
                            if raw[cursor + 2] == 0x32 {
                                4
                            } else {
                                8
                            },
                            0,
                        )
                    } else {
                        Err(DiagnosticCode::InvalidEscape)
                    }
                } else {
                    Err(DiagnosticCode::InvalidEscape)
                }
            } else {
                Err(DiagnosticCode::InvalidEscape)
            }
        }
    } else {
        let end = segment_end(raw, cursor);
        let bytes = raw.subrange(cursor, end);
        proof {
            lemma_segment_end(raw, cursor);
            lemma_segment_end(raw, cursor + 1);
        }
        if !valid_utf8(bytes) {
            Err(DiagnosticCode::InvalidEscape)
        } else if encoded_len(out) + bytes.len() > max {
            Err(DiagnosticCode::LimitExceeded)
        } else {
            decode_from(raw, end, page, out + decode_utf8(bytes), max, 0, 0)
        }
    }
}

/// The characters written by the raw contents of a string literal, or the first error.
pub open spec fn decoded(raw: Seq<u8>, max: nat) -> Result<Seq<char>, DiagnosticCode> {
    decode_from(raw, 0, 0, Seq::empty(), max, 0, 0)
}

pub proof fn lemma_segment_end(raw: Seq<u8>, i: int)
    requires
        0 <= i <= raw.len(),
    ensures
        i <= segment_end(raw, i) <= raw.len(),
        segment_end(raw, i) == raw.len() || raw[segment_end(raw, i)] == 0x27 || raw[segment_end(
            raw,
            i,
        )] == 0x5c,
        forall|k: int| i <= k < segment_end(raw, i) ==> raw[k] != 0x27 && raw[k] != 0x5c,
    decreases raw.len() - i,
{
    if i < raw.len() && raw[i] != 0x27 && raw[i] != 0x5c {
        lemma_segment_end(raw, i + 1);
    }
}

/// Reads `count` hexadecimal digits at `*cursor` as a character.
fn scalar(raw: &[u8], cursor: &mut usize, count: usize) -> (r: Result<char, (DiagnosticCode, &'static str)>)
    requires
        count == 2 || count == 4 || count == 8,
        *old(cursor) <= raw@.len(),
    ensures
        match r {
            Ok(c) => scalar_at(raw@, *old(cursor) as int, count as nat) == Some(c) && *final(cursor)
                == *old(cursor) + count,
            Err((code, _)) => code == DiagnosticCode::InvalidEscape && scalar_at(
                raw@,
                *old(cursor) as int,
                count as nat,
            ) is None,
        },
{
    let start = *cursor;
    let mut value: u32 = 0;
    let mut k: usize = 0;
    while k < count
        invariant
            k <= count,
            count == 2 || count == 4 || count == 8,
            start <= raw@.len(),
            start == *old(cursor),
            *cursor == start + k,
            hex_run(raw@, start as int, k as nat) == Some(value as nat),
            value < pow16(k as nat),
        decreases count - k,
    {
        if *cursor >= raw.len() {
            proof {
                lemma_hex_run_none(raw@, start as int, k as nat, count as nat);
            }
            return Err((DiagnosticCode::InvalidEscape, "incomplete string directive"));
        }
        let byte = raw[*cursor];
        *cursor = *cursor + 1;
        match hex(byte) {
            Some(digit) => {
                proof {
                    lemma_pow16_step(k as nat);
                    lemma_pow16_eight();
                    lemma_pow16_mono(k as nat + 1, 8);
                }
                value = value * 16 + digit as u32;
            },
            None => {
                proof {
                    lemma_hex_run_none(raw@, start as int, k as nat, count as nat);
                }
                return Err((DiagnosticCode::InvalidEscape, "invalid hexadecimal digit"));
            },
        }
        k += 1;
    }
    match scalar_char(value) {
        Some(c) => {
            proof {
                vstd::utf8::char_u32_cast(c, value);
            }
            Ok(c)
        },
        None => Err(
            (
                DiagnosticCode::InvalidEscape,
                "invalid Unicode scalar (surrogates are not UCS characters)",
            ),
        ),
    }
}

pub open spec fn pow16(k: nat) -> nat
    decreases k,
{
    if k == 0 {
        1
    } else {
        16 * pow16((k - 1) as nat)
    }
}

proof fn lemma_pow16_eight()
    ensures
        pow16(8) == 0x1_0000_0000,
{
    reveal_with_fuel(pow16, 9);
}

proof fn lemma_pow16_step(k: nat)
    ensures
        pow16(k + 1) == 16 * pow16(k),
{
}

proof fn lemma_pow16_mono(a: nat, b: nat)
    requires
        a <= b,
    ensures
        pow16(a) <= pow16(b),
    decreases b - a,
{
    if a < b {
        lemma_pow16_mono(a, (b - 1) as nat);
    }
}

/// If the digit at position `k` is missing or invalid, every longer run fails.
proof fn lemma_hex_run_none(raw: Seq<u8>, i: int, k: nat, count: nat)
    requires
        k < count,
        hex_run(raw, i, k) is Some,
        !(0 <= i + k < raw.len() && hex_value(raw[i + k]) is Some),
    ensures
        hex_run(raw, i, count) is None,
    decreases count - k,
{
    if count == k + 1 {
    } else {
        lemma_hex_run_none(raw, i, k, (count - 1) as nat);
    }
}


/// Appends `c` when the output stays within `max` UTF-8 bytes.
fn push_within(output: &mut String, len: &mut usize, c: char, max: usize) -> (r: Result<
    (),
    (DiagnosticCode, &'static str),
>)
    requires
        *old(len) == encoded_len(old(output)@),
        *old(len) <= max,
    ensures
        match r {
            Ok(()) => final(output)@ == old(output)@.push(c) && *final(len) == encoded_len(
                final(output)@,
            ) && *final(len) <= max,
            Err((code, _)) => code == DiagnosticCode::LimitExceeded && encoded_len(
                old(output)@.push(c),
            ) > max,
        },
{
    let w = char_width(c);
    proof {
        lemma_encode_push(output@, c);
    }
    if w > max - *len {
        return Err((DiagnosticCode::LimitExceeded, "decoded string byte budget exceeded"));
    }
    push_char(output, c);
    *len = *len + w;
    Ok(())
}

/// The characters of a `\X2\` or `\X4\` run, up to and including `\X0\`.
fn extended(
    raw: &[u8],
    start: usize,
    width: usize,
    page: usize,
    output: &mut String,
    len: &mut usize,
    max: usize,
) -> (r: Result<usize, (DiagnosticCode, &'static str)>)
    requires
        width == 4 || width == 8,
        start <= raw@.len(),
        *old(len) == encoded_len(old(output)@),
        *old(len) <= max,
    ensures
        match r {
            Ok(next) => start < next <= raw@.len() && *final(len) == encoded_len(final(output)@)
                && *final(len) <= max && decode_from(
                raw@,
                start as int,
                page as int,
                old(output)@,
                max as nat,
                width as int,
                0,
            ) == decode_from(raw@, next as int, page as int, final(output)@, max as nat, 0, 0),
            Err((code, _)) => decode_from(
                raw@,
                start as int,
                page as int,
                old(output)@,
                max as nat,
                width as int,
                0,
            ) == Err::<Seq<char>, DiagnosticCode>(code),
        },
{
    let mut cursor = start;
    let mut count: usize = 0;
    while cursor >= raw.len() || raw[cursor] != 0x5c
        invariant
            width == 4 || width == 8,
            start <= cursor <= raw@.len(),
            *len == encoded_len(output@),
            *len <= max,
            count <= cursor - start,
            decode_from(raw@, start as int, page as int, old(output)@, max as nat, width as int, 0)
                == decode_from(
                raw@,
                cursor as int,
                page as int,
                output@,
                max as nat,
                width as int,
                count as nat,
            ),
        decreases raw@.len() - cursor,
    {
        if cursor >= raw.len() {
            return Err((DiagnosticCode::InvalidEscape, "incomplete string directive"));
        }
        let c = scalar(raw, &mut cursor, width)?;
        push_within(output, len, c, max)?;
        count += 1;
    }
    if count == 0 {
        return Err((DiagnosticCode::InvalidEscape, "empty extended string directive"));
    }
    if !(raw.len() - cursor >= 4 && raw[cursor + 1] == 0x58 && raw[cursor + 2] == 0x30 && raw[cursor
        + 3] == 0x5c) {
        return Err((DiagnosticCode::InvalidEscape, "malformed string directive"));
    }
    Ok(cursor + 4)
}

/// A directive starting with a backslash at `cursor`.
fn directive(
    raw: &[u8],
    cursor: usize,
    page: &mut usize,
    output: &mut String,
    len: &mut usize,
    max: usize,
) -> (r: Result<usize, (DiagnosticCode, &'static str)>)
    requires
        cursor < raw@.len(),
        raw@[cursor as int] == 0x5c,
        *old(page) < 9,
        *old(len) == encoded_len(old(output)@),
        *old(len) <= max,
    ensures
        match r {
            Ok(next) => cursor < next <= raw@.len() && *final(page) < 9 && *final(len)
                == encoded_len(final(output)@) && *final(len) <= max && decode_from(
                raw@,
                cursor as int,
                *old(page) as int,
                old(output)@,
                max as nat,
                0,
                0,
            ) == decode_from(
                raw@,
                next as int,
                *final(page) as int,
                final(output)@,
                max as nat,
                0,
                0,
            ),
            Err((code, _)) => decode_from(
                raw@,
                cursor as int,
                *old(page) as int,
                old(output)@,
                max as nat,
                0,
                0,
            ) == Err::<Seq<char>, DiagnosticCode>(code),
        },
{
    if raw.len() - cursor < 2 {
        return Err((DiagnosticCode::InvalidEscape, "incomplete string directive"));
    }
    let d = raw[cursor + 1];
    if d == 0x5c {
        push_within(output, len, '\\', max)?;
        Ok(cursor + 2)
    } else if d == 0x4e || d == 0x46 {
        if cursor + 2 < raw.len() && raw[cursor + 2] == 0x5c {
            Ok(cursor + 3)
        } else {
            Err((DiagnosticCode::InvalidEscape, "malformed string directive"))
        }
    } else if d == 0x50 {
        if cursor + 2 >= raw.len() {
            return Err((DiagnosticCode::InvalidEscape, "incomplete string directive"));
        }
        let alphabet = raw[cursor + 2];
        if !(0x41 <= alphabet && alphabet <= 0x49) {
            return Err((DiagnosticCode::InvalidEscape, "unsupported ISO-8859 alphabet"));
        }
        if !(cursor + 3 < raw.len() && raw[cursor + 3] == 0x5c) {
            return Err((DiagnosticCode::InvalidEscape, "malformed string directive"));
        }
        *page = (alphabet - 0x41) as usize;
        Ok(cursor + 4)
    } else if d == 0x53 {
        if !(cursor + 2 < raw.len() && raw[cursor + 2] == 0x5c) {
            return Err((DiagnosticCode::InvalidEscape, "malformed string directive"));
        }
        if cursor + 3 >= raw.len() {
            return Err((DiagnosticCode::InvalidEscape, "incomplete string directive"));
        }
        let byte = raw[cursor + 3];
        if !(0x20 <= byte && byte <= 0x7e) {
            return Err((DiagnosticCode::InvalidEscape, "page payload must be a basic character"));
        }
        let scalar = lookup_page(*page, byte);
        if scalar == 0 {
            return Err((DiagnosticCode::InvalidEscape, "undefined ISO-8859 character"));
        }
        match scalar_char(scalar) {
            Some(c) => {
                proof {
                    vstd::utf8::char_u32_cast(c, scalar);
                }
                push_within(output, len, c, max)?;
            },
            None => {},
        }
        Ok(cursor + 4)
    } else if d == 0x58 {
        if cursor + 2 >= raw.len() {
            return Err((DiagnosticCode::InvalidEscape, "incomplete string directive"));
        }
        let mode = raw[cursor + 2];
        if mode == 0x5c {
            let mut next = cursor + 3;
            let c = scalar(raw, &mut next, 2)?;
            push_within(output, len, c, max)?;
            Ok(next)
        } else if mode == 0x32 || mode == 0x34 {
            if !(cursor + 3 < raw.len() && raw[cursor + 3] == 0x5c) {
                return Err((DiagnosticCode::InvalidEscape, "malformed string directive"));
            }
            let width: usize = if mode == 0x32 { 4 } else { 8 };
            extended(raw, cursor + 4, width, *page, output, len, max)
        } else {
            Err((DiagnosticCode::InvalidEscape, "unknown X string directive"))
        }
    } else {
        Err((DiagnosticCode::InvalidEscape, "unknown string directive"))
    }
}

/// Decodes the raw contents of a string literal (between its delimiting apostrophes)
/// within a budget of `max_bytes` UTF-8 bytes.
pub fn decode(raw: &[u8], max_bytes: usize) -> (r: Result<String, (DiagnosticCode, &'static str)>)
    ensures
        match r {
            Ok(s) => decoded(raw@, max_bytes as nat) == Ok::<Seq<char>, DiagnosticCode>(s@),
            Err((code, _)) => decoded(raw@, max_bytes as nat) == Err::<Seq<char>, DiagnosticCode>(
                code,
            ),
        },
        r matches Ok(s) ==> encode_utf8(s@).len() <= max_bytes,
{
    let mut output = String::new();
    let mut len: usize = 0;
    let mut cursor: usize = 0;
    let mut page: usize = 0;
    proof {
        assert(encode_utf8(output@) =~= Seq::<u8>::empty());
    }
    while cursor < raw.len()
        invariant
            cursor <= raw@.len(),
            page < 9,
            len == encoded_len(output@),
            len <= max_bytes,
            decoded(raw@, max_bytes as nat) == decode_from(
                raw@,
                cursor as int,
                page as int,
                output@,
                max_bytes as nat,
                0,
                0,
            ),
        decreases raw@.len() - cursor,
    {
        let b = raw[cursor];
        if b == 0x27 {
            if !(cursor + 1 < raw.len() && raw[cursor + 1] == 0x27) {
                return Err((DiagnosticCode::InvalidEscape, "unpaired apostrophe"));
            }
            push_within(&mut output, &mut len, '\'', max_bytes)?;
            cursor = cursor + 2;
        } else if b == 0x5c {
            cursor = directive(raw, cursor, &mut page, &mut output, &mut len, max_bytes)?;
        } else {
            let begin = cursor;
            while cursor < raw.len() && raw[cursor] != 0x27 && raw[cursor] != 0x5c
                invariant
                    begin <= cursor <= raw@.len(),
                    forall|k: int| begin <= k < cursor ==> raw@[k] != 0x27 && raw@[k] != 0x5c,
                decreases raw@.len() - cursor,
            {
                cursor = cursor + 1;
            }
            proof {
                lemma_segment_end(raw@, begin as int);
                lemma_segment_end_is(raw@, begin as int, cursor as int);
            }
            let piece = slice_range(raw, begin, cursor);
            let text = match utf8_text(piece) {
                Some(text) => text,
                None => {
                    return Err((DiagnosticCode::InvalidEscape, "invalid UTF-8 string"));
                },
            };
            proof {
                vstd::utf8::decode_utf8_encode_utf8(piece@);
                lemma_encode_concat(output@, text@);
            }
            if cursor - begin > max_bytes - len {
                return Err((DiagnosticCode::LimitExceeded, "decoded string byte budget exceeded"));
            }
            push_str(&mut output, text);
            len = len + (cursor - begin);
        }
    }
    Ok(output)
}

/// The end found by scanning equals `segment_end`.
proof fn lemma_segment_end_is(raw: Seq<u8>, i: int, j: int)
    requires
        0 <= i <= j <= raw.len(),
        forall|k: int| i <= k < j ==> raw[k] != 0x27 && raw[k] != 0x5c,
        j == raw.len() || raw[j] == 0x27 || raw[j] == 0x5c,
    ensures
        segment_end(raw, i) == j,
    decreases j - i,
{
    if i < j {
        lemma_segment_end_is(raw, i + 1, j);
    }
}

/// `raw[begin..end]`, via slice indexing.
#[verifier::external_body]
fn slice_range(raw: &[u8], begin: usize, end: usize) -> (r: &[u8])
    requires
        begin <= end <= raw@.len(),
    ensures
        r@ == raw@.subrange(begin as int, end as int),
{
    &raw[begin..end]
}

} // verus!
