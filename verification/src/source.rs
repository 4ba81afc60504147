//! Source positions as a function of the byte stream, and visible-byte views.
use vstd::prelude::*;
use crate::chars::is_control;
use crate::diagnostic::SourcePosition;

verus! {

/// Position reached after reading byte `b` from position `p`, where `cr` records
/// whether the previous byte was a carriage return. CR, LF and CRLF each end one line.
pub open spec fn advance(p: SourcePosition, cr: bool, b: u8) -> (SourcePosition, bool) {
    let newline = b == 0x0d || (b == 0x0a && !cr);
    (
        SourcePosition {
            offset: (p.offset + 1) as u64,
            line: if newline {
                (p.line + 1) as u64
            } else {
                p.line
            },
            column: if newline {
                1
            } else if b != 0x0a {
                (p.column + 1) as u64
            } else {
                p.column
            },
        },
        b == 0x0d,
    )
}

/// Position and carriage-return state after the first `n` bytes of `input`.
pub open spec fn track(input: Seq<u8>, n: nat) -> (SourcePosition, bool)
    decreases n,
{
    if n == 0 {
        (SourcePosition::start(), false)
    } else {
        let prev = track(input, (n - 1) as nat);
        advance(prev.0, prev.1, input[n - 1])
    }
}

/// Position (offset, line, column) of byte offset `n` in `input`.
pub open spec fn position_at(input: Seq<u8>, n: nat) -> SourcePosition {
    track(input, n).0
}

pub proof fn lemma_track_bounds(input: Seq<u8>, n: nat)
    requires
        n < 0xffff_ffff_ffff_ffff,
    ensures
        track(input, n).0.offset == n,
        1 <= track(input, n).0.line <= n + 1,
        1 <= track(input, n).0.column <= n + 1,
    decreases n,
{
    if n > 0 {
        lemma_track_bounds(input, (n - 1) as nat);
    }
}

/// The bytes of `input[a..b]` that are not physical control octets.
pub open spec fn visible(input: Seq<u8>, a: int, b: int) -> Seq<u8>
    decreases b - a,
{
    if b <= a {
        seq![]
    } else {
        let v = visible(input, a, b - 1);
        if is_control(input[b - 1]) {
            v
        } else {
            v.push(input[b - 1])
        }
    }
}

pub proof fn lemma_visible_split(input: Seq<u8>, a: int, b: int, c: int)
    requires
        a <= b <= c,
    ensures
        visible(input, a, c) == visible(input, a, b) + visible(input, b, c),
    decreases c - b,
{
    if c > b {
        lemma_visible_split(input, a, b, c - 1);
        assert(visible(input, a, c) =~= visible(input, a, b) + visible(input, b, c));
    } else {
        assert(visible(input, a, c) =~= visible(input, a, b) + visible(input, b, c));
    }
}

pub proof fn lemma_visible_first(input: Seq<u8>, a: int, b: int)
    requires
        0 <= a < b,
        a < input.len(),
        !is_control(input[a]),
    ensures
        visible(input, a, b).len() > 0,
        visible(input, a, b)[0] == input[a],
{
    lemma_visible_split(input, a, a + 1, b);
    assert(visible(input, a, a) =~= Seq::<u8>::empty());
    assert(visible(input, a, a + 1) =~= seq![input[a]]);
}

pub proof fn lemma_visible_step(input: Seq<u8>, a: int, b: int)
    requires
        a <= b,
    ensures
        visible(input, a, b + 1) == (if is_control(input[b]) {
            visible(input, a, b)
        } else {
            visible(input, a, b).push(input[b])
        }),
{
}

} // verus!
