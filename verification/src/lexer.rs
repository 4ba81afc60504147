//! Pull lexer over an in-memory byte stream.
use vstd::prelude::*;
use crate::chars::{is_alnum, base64_value, is_alpha, is_alnum_byte, is_keyword, is_uri_byte, keyword, uri_byte, valid_percent_encoding, percent_encoding_ok, is_upper_or_underscore, hex, bytes_to_chars, is_control, is_control_byte, is_word_byte, is_word_continuation, is_digit, is_digit_byte};
use crate::numbers::{all_digits, integer_syntax, integer_value, real_syntax, parse_u64, decimal, exponent_syntax, fraction_syntax, is_sign, is_sign_byte, sign_len, parse_integer};
use crate::text::latin1_string;
use crate::strings::{decode, decoded};
use crate::signature::{signature_content, signature_payload_ok};
use crate::value::{Signature, BinaryValue, EntityId, Occurrence, ValueId};
use crate::binary::{binary_nibbles, pack_bits, packed, padding_ok};
use crate::diagnostic::{Diagnostic, DiagnosticCode, Severity, SourcePosition, SourceSpan};
use crate::limits::ParseLimits;
use crate::source::{lemma_visible_first, lemma_visible_split, lemma_track_bounds, lemma_visible_step, position_at, track, advance, visible};

verus! {

#[derive(Debug, PartialEq)]
pub enum TokenKind {
    Word(String),
    Integer(i64),
    /// Lexical text of a real literal.
    Real(String),
    String(String),
    Binary(BinaryValue),
    Enumeration(String),
    Occurrence(Occurrence),
    ConstantEntity(String),
    ConstantValue(String),
    Resource(String),
    LeftParen,
    RightParen,
    Comma,
    Semicolon,
    Equals,
    Null,
    Omitted,
    LeftBrace,
    RightBrace,
    Colon,
    Eof,
}

#[derive(Debug, PartialEq)]
pub struct Token {
    pub kind: TokenKind,
    pub source: SourceSpan,
}



/// `at` is the end of the stream, or a visible byte satisfying `p`.
pub open spec fn followed_by(input: Seq<u8>, at: int, p: spec_fn(u8) -> bool) -> bool {
    at == input.len() || (0 <= at < input.len() && !is_control(input[at]) && p(input[at]))
}

pub open spec fn all_word_bytes(s: Seq<u8>) -> bool {
    forall|i: int| 0 <= i < s.len() ==> is_word_byte(#[trigger] s[i])
}

/// The single-byte token for `b`, if any.
pub open spec fn punctuation(b: u8) -> Option<TokenKind> {
    if b == 0x28 {
        Some(TokenKind::LeftParen)
    } else if b == 0x29 {
        Some(TokenKind::RightParen)
    } else if b == 0x2c {
        Some(TokenKind::Comma)
    } else if b == 0x3b {
        Some(TokenKind::Semicolon)
    } else if b == 0x3d {
        Some(TokenKind::Equals)
    } else if b == 0x24 {
        Some(TokenKind::Null)
    } else if b == 0x2a {
        Some(TokenKind::Omitted)
    } else if b == 0x7b {
        Some(TokenKind::LeftBrace)
    } else if b == 0x7d {
        Some(TokenKind::RightBrace)
    } else if b == 0x3a {
        Some(TokenKind::Colon)
    } else {
        None
    }
}

/// `t` is the visible text of a token of kind `kind` that ends at offset `end`
/// of `input`, read under `limits`.
pub open spec fn token_text(
    kind: TokenKind,
    t: Seq<u8>,
    input: Seq<u8>,
    end: int,
    limits: ParseLimits,
) -> bool {
    match kind {
        TokenKind::Eof => t.len() == 0 && end == input.len(),
        TokenKind::Word(w) => {
            &&& w@ == bytes_to_chars(t)
            &&& t.len() > 0
            &&& followed_by(input, end, |b: u8| !is_word_byte(b))
            &&& ((is_alpha(t[0]) || t[0] == 0x5f) && all_word_bytes(t)) || (t[0] == 0x21
                && is_keyword(bytes_to_chars(t.drop_first())) && all_word_bytes(t.drop_first()))
        },
        TokenKind::Integer(n) => integer_syntax(t) && n == integer_value(t) && followed_by(
            input,
            end,
            |b: u8| b != 0x2e && !is_digit(b),
        ),
        TokenKind::Real(s) => real_syntax(t) && s@ == bytes_to_chars(t),
        TokenKind::String(s) => delimited(t, 0x27, 0x27) && decoded(
            t.subrange(1, t.len() - 1),
            limits.max_string_bytes as nat,
        ) == Ok::<Seq<char>, DiagnosticCode>(s@),
        TokenKind::Binary(v) => binary_text(t, v),
        TokenKind::Enumeration(name) => delimited(t, 0x2e, 0x2e) && is_keyword(
            bytes_to_chars(t.subrange(1, t.len() - 1)),
        ) && name@ == bytes_to_chars(t.subrange(1, t.len() - 1)),
        TokenKind::Resource(uri) => resource_text(t, uri@),
        TokenKind::Occurrence(_) => occurrence_text(kind, t),
        TokenKind::ConstantEntity(_) => occurrence_text(kind, t),
        TokenKind::ConstantValue(_) => occurrence_text(kind, t),
        _ => t.len() == 1 && punctuation(t[0]) == Some(kind),
    }
}

/// A successful token read from offset `from` to offset `to` of `input`.
pub open spec fn token_read(
    input: Seq<u8>,
    from: nat,
    to: nat,
    tok: Token,
    limits: ParseLimits,
) -> bool {
    let start = tok.source.start.offset;
    &&& from <= start <= to
    &&& tok.source.start == position_at(input, start as nat)
    &&& tok.source.end == position_at(input, to)
    &&& token_text(tok.kind, visible(input, start as int, to as int), input, to as int, limits)
    &&& (tok.kind !is Eof ==> start < to)
}


/// The bytes of `s` other than spaces.
pub open spec fn drop_spaces(s: Seq<u8>) -> Seq<u8>
    decreases s.len(),
{
    if s.len() == 0 {
        s
    } else if s.last() == 0x20 {
        drop_spaces(s.drop_last())
    } else {
        drop_spaces(s.drop_last()).push(s.last())
    }
}

/// The bytes `SIGNATURE`.
pub open spec fn signature_keyword() -> Seq<u8> {
    seq![0x53u8, 0x49, 0x47, 0x4e, 0x41, 0x54, 0x55, 0x52, 0x45]
}

/// Bytes allowed in a signature payload.
pub open spec fn is_signature_byte(b: u8) -> bool {
    is_alnum(b) || b == 0x2b || b == 0x2f || b == 0x3d || b == 0x20
}

/// A signature section read from offset `from` to offset `to` of `input`:
/// `SIGNATURE`, base64 content followed by `ENDSEC` (spaces ignored), then `;`.
pub open spec fn signature_read(input: Seq<u8>, from: nat, to: nat, sig: Signature) -> bool {
    let start = sig.source.start.offset;
    let t = visible(input, start as int, to as int);
    let body = t.subrange(9, t.len() - 1);
    let payload = drop_spaces(body);
    &&& from <= start <= to
    &&& sig.source.start == position_at(input, start as nat)
    &&& sig.source.end == position_at(input, to)
    &&& t.len() >= 10 && t.take(9) == signature_keyword() && t.last() == 0x3b
    &&& forall|i: int| 0 <= i < body.len() ==> is_signature_byte(#[trigger] body[i])
    &&& signature_payload_ok(payload)
    &&& sig.base64@ == bytes_to_chars(payload.take(payload.len() - 6))
}

/// `t` starts with `open` and ends with a distinct `close` byte.
pub open spec fn delimited(t: Seq<u8>, open: u8, close: u8) -> bool {
    t.len() >= 2 && t[0] == open && t.last() == close
}

/// Text of a binary literal and the value it denotes.
pub open spec fn binary_text(t: Seq<u8>, v: BinaryValue) -> bool {
    &&& t.len() >= 3 && t[0] == 0x22 && t.last() == 0x22 && 0x30 <= t[1] <= 0x33
    &&& match binary_nibbles(t.subrange(2, t.len() - 1)) {
        Some(n) => padding_ok(n, (t[1] - 0x30) as nat) && packed(
            n,
            (t[1] - 0x30) as nat,
            v.bytes@,
            v.bit_len as nat,
        ),
        None => false,
    }
}

/// Text of a resource token `<...>` and its URI.
pub open spec fn resource_text(t: Seq<u8>, uri: Seq<char>) -> bool {
    let body = t.subrange(1, t.len() - 1);
    &&& delimited(t, 0x3c, 0x3e)
    &&& forall|i: int| 0 <= i < body.len() ==> is_uri_byte(#[trigger] body[i])
    &&& percent_encoding_ok(body)
    &&& uri == bytes_to_chars(body)
}

/// Text of an occurrence or constant token: `#`/`@` then digits or a keyword.
pub open spec fn occurrence_text(kind: TokenKind, t: Seq<u8>) -> bool {
    let rest = t.drop_first();
    t.len() >= 2 && match kind {
        TokenKind::Occurrence(Occurrence::Entity(id)) => t[0] == 0x23 && all_digits(rest)
            && decimal(rest) == id.number(),
        TokenKind::Occurrence(Occurrence::Value(id)) => t[0] == 0x40 && all_digits(rest)
            && decimal(rest) == id.number(),
        TokenKind::ConstantEntity(w) => t[0] == 0x23 && is_keyword(bytes_to_chars(rest)) && w@
            == bytes_to_chars(rest),
        TokenKind::ConstantValue(w) => t[0] == 0x40 && is_keyword(bytes_to_chars(rest)) && w@
            == bytes_to_chars(rest),
        _ => false,
    }
}

/// Pull lexer. Retains the input, the current position and the start of the current token.
/// Once an error occurs the lexer is fused: subsequent calls return EOF.
pub struct Lexer {
    input: Vec<u8>,
    limits: ParseLimits,
    position: SourcePosition,
    previous_cr: bool,
    failed: bool,
    token_start: SourcePosition,
}

impl Lexer {
    /// The byte stream being read.
    pub closed spec fn bytes(&self) -> Seq<u8> {
        self.input@
    }

    /// Byte offset of the next unread byte.
    pub closed spec fn offset(&self) -> nat {
        self.position.offset as nat
    }

    pub closed spec fn is_failed(&self) -> bool {
        self.failed
    }

    pub closed spec fn spec_limits(&self) -> ParseLimits {
        self.limits
    }

    pub closed spec fn token_offset(&self) -> nat {
        self.token_start.offset as nat
    }

    /// The position agrees with the bytes read so far, and offsets fit in `u64`.
    pub closed spec fn wf(&self) -> bool {
        &&& self.input@.len() < 0xffff_ffff_ffff_ffff
        &&& self.position.offset <= self.input@.len()
        &&& (self.position, self.previous_cr) == track(self.input@, self.position.offset as nat)
        &&& self.token_start.offset <= self.position.offset
        &&& self.token_start == position_at(self.input@, self.token_start.offset as nat)
    }

    /// Same stream, limits, token start and failure state; the offset never moves back.
    closed spec fn kept(&self, old: &Lexer) -> bool {
        &&& self.wf()
        &&& self.input@ == old.input@
        &&& self.limits == old.limits
        &&& self.token_start == old.token_start
        &&& self.failed == old.failed
        &&& old.position.offset <= self.position.offset
    }

    /// Same stream, limits and failure state; the offset never moves back.
    closed spec fn same_stream(&self, old: &Lexer) -> bool {
        &&& self.wf()
        &&& self.input@ == old.input@
        &&& self.limits == old.limits
        &&& self.failed == old.failed
        &&& old.position.offset <= self.position.offset
    }

    /// The next unread byte, if any, is not a control octet and satisfies `p`.
    closed spec fn at_end_or(&self, p: spec_fn(u8) -> bool) -> bool {
        self.position.offset == self.input@.len() || (!is_control(
            self.input@[self.position.offset as int],
        ) && p(self.input@[self.position.offset as int]))
    }

    /// No separator stands at the cursor: the input ends there, or its byte is
    /// within the input budget, not a control octet, and starts no space,
    /// comment or print control directive.
    closed spec fn stops_here(&self) -> bool {
        let o = self.position.offset;
        ||| o == self.input@.len()
        ||| o < self.input@.len() && o < self.limits.max_input_bytes && !is_control(self.input@[o as int])
            && self.input@[o as int] != 0x20 && self.input@[o as int] != 0x2f && self.input@[o as int] != 0x5c
    }

    /// An error diagnostic spanning the current token so far.
    closed spec fn error_here(&self, d: Diagnostic) -> bool {
        &&& d.severity == Severity::Error
        &&& d.entity is None
        &&& d.source_span == (SourceSpan { start: self.token_start, end: self.position })
    }

    /// The offset lies within the stream, whose length fits in `u64`.
    pub proof fn lemma_bounds(&self)
        requires
            self.wf(),
        ensures
            self.offset() <= self.bytes().len(),
            self.bytes().len() < 0xffff_ffff_ffff_ffff,
    {
    }

    pub fn new(input: Vec<u8>, limits: ParseLimits) -> (r: Self)
        requires
            input@.len() < 0xffff_ffff_ffff_ffff,
        ensures
            r.wf(),
            r.bytes() == input@,
            r.offset() == 0,
            r.token_offset() == 0,
            !r.is_failed(),
            r.spec_limits() == limits,
    {
        Lexer {
            input,
            limits,
            position: SourcePosition { offset: 0, line: 1, column: 1 },
            previous_cr: false,
            failed: false,
            token_start: SourcePosition { offset: 0, line: 1, column: 1 },
        }
    }

    pub fn position(&self) -> (r: SourcePosition)
        requires
            self.wf(),
        ensures
            r == position_at(self.bytes(), self.offset()),
            r.offset == self.offset(),
    {
        self.position
    }

    fn span(&self, start: SourcePosition) -> (r: SourceSpan)
        ensures
            r.start == start,
            r.end == self.position,
    {
        SourceSpan { start, end: self.position }
    }

    fn error(&self, code: DiagnosticCode, message: &str) -> (d: Diagnostic)
        ensures
            self.error_here(d),
            d.code == code,
    {
        Diagnostic::error(code, message.to_owned(), self.span(self.token_start))
    }

    /// The offset as an index into the input.
    fn cursor(&self) -> (r: usize)
        requires
            self.wf(),
        ensures
            r == self.offset(),
    {
        let len = self.input.len();
        assert(self.position.offset <= len);
        self.position.offset as usize
    }

    fn raw_peek(&self) -> (r: Result<Option<u8>, Diagnostic>)
        requires
            self.wf(),
        ensures
            match r {
                Ok(Some(b)) => self.offset() < self.bytes().len() && b == self.bytes()[self.offset() as int]
                    && self.offset() < self.limits.max_input_bytes,
                Ok(None) => self.offset() == self.bytes().len(),
                Err(d) => self.error_here(d) && d.code == DiagnosticCode::LimitExceeded,
            },
            r is Err ==> self.offset() < self.bytes().len() && self.offset() >= self.limits.max_input_bytes,
    {
        let cursor = self.position.offset as usize;
        if cursor < self.input.len() {
            if self.position.offset >= self.limits.max_input_bytes {
                return Err(self.error(DiagnosticCode::LimitExceeded, "input byte budget exceeded"));
            }
            Ok(Some(self.input[cursor]))
        } else {
            Ok(None)
        }
    }

    fn raw_bump(&mut self, byte: u8)
        requires
            old(self).wf(),
            old(self).offset() < old(self).bytes().len(),
            byte == old(self).bytes()[old(self).offset() as int],
        ensures
            final(self).kept(old(self)),
            final(self).offset() == old(self).offset() + 1,
    {
        let ghost n = self.position.offset as nat;
        proof {
            lemma_track_bounds(self.input@, n);
            lemma_track_bounds(self.input@, n + 1);
        }
        self.position.offset = self.position.offset + 1;
        if byte == 0x0d || (byte == 0x0a && !self.previous_cr) {
            self.position.line = self.position.line + 1;
            self.position.column = 1;
        } else if byte != 0x0a {
            self.position.column = self.position.column + 1;
        }
        self.previous_cr = byte == 0x0d;
        proof {
            assert(track(self.input@, n + 1) == advance(
                track(self.input@, n).0,
                track(self.input@, n).1,
                self.input@[n as int],
            ));
        }
    }

    /// Physical control octets are ignored even within tokens, while source
    /// locations continue to describe the unmodified input stream.
    fn peek(&mut self) -> (r: Result<Option<u8>, Diagnostic>)
        requires
            old(self).wf(),
        ensures
            final(self).kept(old(self)),
            visible(final(self).bytes(), old(self).offset() as int, final(self).offset() as int)
                == Seq::<u8>::empty(),
            old(self).at_end_or(|b: u8| true) ==> final(self).offset() == old(self).offset(),
            old(self).offset() == old(self).bytes().len() ==> r == Ok::<Option<u8>, Diagnostic>(None),
            old(self).offset() < old(self).bytes().len() && old(self).offset() < old(self).limits.max_input_bytes
                && !is_control(old(self).bytes()[old(self).offset() as int]) ==> r == Ok::<
                Option<u8>,
                Diagnostic,
            >(Some(old(self).bytes()[old(self).offset() as int])),
            match r {
                Ok(Some(b)) => final(self).offset() < final(self).bytes().len() && b
                    == final(self).bytes()[final(self).offset() as int] && !is_control(b),
                Ok(None) => final(self).offset() == final(self).bytes().len(),
                Err(d) => final(self).error_here(d) && d.code == DiagnosticCode::LimitExceeded,
            },
    {
        let ghost start = self.position.offset as int;
        loop
            invariant
                self.kept(old(self)),
                start == old(self).offset(),
                visible(self.input@, start, self.position.offset as int) == Seq::<u8>::empty(),
                old(self).at_end_or(|b: u8| true) ==> self.position.offset == start,
            decreases self.input@.len() - self.position.offset,
        {
            let b = self.raw_peek()?;
            match b {
                Some(byte) => {
                    if is_control_byte(byte) {
                        let ghost before = self.position.offset as int;
                        self.raw_bump(byte);
                        proof {
                            lemma_visible_step(self.input@, start, before);
                        }
                    } else {
                        return Ok(Some(byte));
                    }
                },
                None => return Ok(None),
            }
        }
    }

    /// Consume the non-control byte at the cursor, then apply the token budget.
    fn accept(&mut self, byte: u8) -> (r: Result<(), Diagnostic>)
        requires
            old(self).wf(),
            old(self).offset() < old(self).bytes().len(),
            byte == old(self).bytes()[old(self).offset() as int],
            !is_control(byte),
        ensures
            final(self).kept(old(self)),
            final(self).offset() == old(self).offset() + 1,
            visible(final(self).bytes(), old(self).offset() as int, final(self).offset() as int)
                == seq![byte],
            r matches Err(d) ==> final(self).error_here(d),
            old(self).offset() + 1 - old(self).token_offset() <= old(self).limits.max_token_bytes ==> r is Ok,
    {
        let ghost mid = self.position.offset as int;
        self.raw_bump(byte);
        proof {
            lemma_visible_step(self.input@, mid, mid);
            assert(visible(self.input@, mid, mid + 1) =~= seq![byte]);
        }
        if self.position.offset - self.token_start.offset > self.limits.max_token_bytes as u64 {
            return Err(self.error(DiagnosticCode::LimitExceeded, "token byte budget exceeded"));
        }
        Ok(())
    }

    fn bump(&mut self) -> (r: Result<Option<u8>, Diagnostic>)
        requires
            old(self).wf(),
        ensures
            final(self).kept(old(self)),
            match r {
                Ok(Some(b)) => visible(
                    final(self).bytes(),
                    old(self).offset() as int,
                    final(self).offset() as int,
                ) == seq![b] && !is_control(b) && old(self).offset() < final(self).offset(),
                Ok(None) => final(self).offset() == final(self).bytes().len() && visible(
                    final(self).bytes(),
                    old(self).offset() as int,
                    final(self).offset() as int,
                ) == Seq::<u8>::empty(),
                Err(d) => final(self).error_here(d),
            },
    {
        let ghost start = self.position.offset as int;
        let byte = self.peek()?;
        let ghost mid = self.position.offset as int;
        match byte {
            Some(b) => {
                let r = self.accept(b);
                proof {
                    lemma_visible_split(self.input@, start, mid, self.position.offset as int);
                }
                r?;
                Ok(Some(b))
            },
            None => {
                if self.position.offset - self.token_start.offset
                    > self.limits.max_token_bytes as u64 {
                    return Err(
                        self.error(DiagnosticCode::LimitExceeded, "token byte budget exceeded"),
                    );
                }
                Ok(None)
            },
        }
    }

    fn expect_byte(&mut self, expected: u8, code: DiagnosticCode) -> (r: Result<(), Diagnostic>)
        requires
            old(self).wf(),
        ensures
            final(self).kept(old(self)),
            match r {
                Ok(()) => visible(
                    final(self).bytes(),
                    old(self).offset() as int,
                    final(self).offset() as int,
                ) == seq![expected] && old(self).offset() < final(self).offset(),
                Err(d) => final(self).error_here(d),
            },
    {
        if self.bump()? == Some(expected) {
            Ok(())
        } else {
            Err(self.error(code, "unexpected byte"))
        }
    }

    fn skip_separators(&mut self) -> (r: Result<(), Diagnostic>)
        requires
            old(self).wf(),
        ensures
            final(self).same_stream(old(self)),
            match r {
                Ok(()) => final(self).token_start == final(self).position && final(self).at_end_or(
                    |b: u8| b != 0x20 && b != 0x2f && b != 0x5c,
                ),
                Err(d) => final(self).error_here(d),
            },
            old(self).stops_here() ==> r is Ok && final(self).offset() == old(self).offset(),
    {
        loop
            invariant
                self.same_stream(old(self)),
                old(self).stops_here() ==> self.position.offset == old(self).position.offset,
            decreases self.input@.len() - self.position.offset,
        {
            self.token_start = self.position;
            let ghost before = self.position.offset;
            match self.peek()? {
                Some(0x20) => {
                    self.raw_bump(0x20);
                },
                Some(0x2f) => {
                    self.bump()?;
                    self.expect_byte(0x2a, DiagnosticCode::InvalidCharacter)?;
                    let mut star = false;
                    loop
                        invariant
                            self.same_stream(old(self)),
                            before < self.position.offset,
                            !old(self).stops_here(),
                        decreases self.input@.len() - self.position.offset,
                    {
                        let byte = match self.peek()? {
                            Some(byte) => byte,
                            None => {
                                return Err(
                                    self.error(
                                        DiagnosticCode::UnterminatedComment,
                                        "unterminated comment",
                                    ),
                                );
                            },
                        };
                        self.raw_bump(byte);
                        if star && byte == 0x2f {
                            break ;
                        }
                        star = byte == 0x2a;
                    }
                },
                Some(0x5c) => {
                    self.bump()?;
                    match self.bump()? {
                        Some(0x4e) | Some(0x46) => {},
                        _ => {
                            return Err(
                                self.error(
                                    DiagnosticCode::InvalidEscape,
                                    "expected print control directive",
                                ),
                            );
                        },
                    }
                    self.expect_byte(0x5c, DiagnosticCode::InvalidEscape)?;
                },
                _ => {
                    self.token_start = self.position;
                    return Ok(());
                },
            }
        }
    }

    /// A maximal run of word bytes (letters, digits, `_`, `-`).
    fn word(&mut self) -> (r: Result<Vec<u8>, Diagnostic>)
        requires
            old(self).wf(),
        ensures
            final(self).kept(old(self)),
            match r {
                Ok(w) => w@ == visible(
                    final(self).bytes(),
                    old(self).offset() as int,
                    final(self).offset() as int,
                ) && (forall|i: int| 0 <= i < w@.len() ==> is_word_byte(#[trigger] w@[i]))
                    && final(self).at_end_or(|b: u8| !is_word_byte(b)),
                Err(d) => final(self).error_here(d),
            },
    {
        let mut bytes: Vec<u8> = Vec::new();
        let ghost start = self.position.offset as int;
        loop
            invariant
                self.kept(old(self)),
                start == old(self).offset(),
                bytes@ == visible(self.input@, start, self.position.offset as int),
                forall|i: int| 0 <= i < bytes@.len() ==> is_word_byte(#[trigger] bytes@[i]),
            decreases self.input@.len() - self.position.offset,
        {
            let ghost p0 = self.position.offset as int;
            let next = self.peek()?;
            let ghost p1 = self.position.offset as int;
            proof {
                lemma_visible_split(self.input@, start, p0, p1);
                assert(bytes@ =~= visible(self.input@, start, p1));
            }
            match next {
                Some(byte) => {
                    if is_word_continuation(byte) {
                        bytes.push(byte);
                        let r = self.accept(byte);
                        proof {
                            lemma_visible_split(self.input@, start, p1, self.position.offset as int);
                        }
                        r?;
                    } else {
                        return Ok(bytes);
                    }
                },
                None => {
                    return Ok(bytes);
                },
            }
        }
    }

    /// Appends a maximal run of decimal digits to `text`; returns how many.
    fn digits(&mut self, text: &mut Vec<u8>) -> (r: Result<usize, Diagnostic>)
        requires
            old(self).wf(),
        ensures
            final(self).kept(old(self)),
            match r {
                Ok(n) => final(text)@ == old(text)@ + visible(
                    final(self).bytes(),
                    old(self).offset() as int,
                    final(self).offset() as int,
                ) && n == final(text)@.len() - old(text)@.len() && all_digits(
                    final(text)@.skip(old(text)@.len() as int),
                ) && final(self).at_end_or(|b: u8| !is_digit(b)),
                Err(d) => final(self).error_here(d),
            },
    {
        let before = text.len();
        let ghost start = self.position.offset as int;
        let ghost prefix = text@;
        loop
            invariant
                self.kept(old(self)),
                start == old(self).offset(),
                before == prefix.len(),
                prefix == old(text)@,
                text@ == prefix + visible(self.input@, start, self.position.offset as int),
                all_digits(text@.skip(before as int)),
            decreases self.input@.len() - self.position.offset,
        {
            let ghost p0 = self.position.offset as int;
            let next = self.peek()?;
            let ghost p1 = self.position.offset as int;
            proof {
                lemma_visible_split(self.input@, start, p0, p1);
                assert(text@ =~= prefix + visible(self.input@, start, p1));
            }
            match next {
                Some(byte) => {
                    if is_digit_byte(byte) {
                        let ghost prev = text@;
                        text.push(byte);
                        proof {
                            assert(text@.skip(before as int) =~= prev.skip(before as int).push(byte));
                        }
                        let r = self.accept(byte);
                        proof {
                            lemma_visible_split(self.input@, start, p1, self.position.offset as int);
                            assert(text@ =~= prefix + visible(self.input@, start, self.position.offset as int));
                        }
                        r?;
                    } else {
                        return Ok(text.len() - before);
                    }
                },
                None => {
                    return Ok(text.len() - before);
                },
            }
        }
    }

    /// Consumes the optional sign at the cursor, appending it to `text`.
    fn sign(&mut self, text: &mut Vec<u8>) -> (r: Result<(), Diagnostic>)
        requires
            old(self).wf(),
        ensures
            final(self).kept(old(self)),
            match r {
                Ok(()) => {
                    let s = visible(
                        final(self).bytes(),
                        old(self).offset() as int,
                        final(self).offset() as int,
                    );
                    &&& final(text)@ == old(text)@ + s
                    &&& is_sign(s)
                    &&& s.len() == 0 ==> final(self).at_end_or(|b: u8| !is_sign_byte(b))
                },
                Err(d) => final(self).error_here(d),
            },
    {
        let ghost start = self.position.offset as int;
        let first = self.peek()?;
        if let Some(sign) = first {
            if sign == 0x2b || sign == 0x2d {
                let ghost p1 = self.position.offset as int;
                text.push(sign);
                let r = self.accept(sign);
                proof {
                    lemma_visible_split(self.input@, start, p1, self.position.offset as int);
                    assert(visible(self.input@, start, self.position.offset as int) =~= seq![sign]);
                }
                r?;
                return Ok(());
            }
        }
        proof {
            assert(text@ =~= old(text)@ + visible(self.input@, start, self.position.offset as int));
        }
        Ok(())
    }

    /// Optional exponent: `E`, an optional sign and at least one digit.
    fn exponent(&mut self, text: &mut Vec<u8>) -> (r: Result<(), Diagnostic>)
        requires
            old(self).wf(),
        ensures
            final(self).kept(old(self)),
            match r {
                Ok(()) => {
                    let e = visible(
                        final(self).bytes(),
                        old(self).offset() as int,
                        final(self).offset() as int,
                    );
                    &&& final(text)@ == old(text)@ + e
                    &&& exponent_syntax(e)
                    &&& e.len() == 0 ==> final(self).at_end_or(|b: u8| b != 0x45)
                    &&& e.len() > 0 ==> final(self).at_end_or(|b: u8| !is_digit(b))
                },
                Err(d) => final(self).error_here(d),
            },
    {
        let ghost start = self.position.offset as int;
        let exp = self.peek()?;
        if exp != Some(0x45u8) {
            proof {
                assert(text@ =~= old(text)@ + visible(self.input@, start, self.position.offset as int));
            }
            return Ok(());
        }
        let ghost p1 = self.position.offset as int;
        text.push(0x45);
        let r = self.accept(0x45);
        proof {
            lemma_visible_split(self.input@, start, p1, self.position.offset as int);
        }
        r?;
        let ghost p2 = self.position.offset as int;
        let ghost t2 = text@;
        self.sign(text)?;
        let ghost p3 = self.position.offset as int;
        let ghost t3 = text@;
        let n = self.digits(text)?;
        proof {
            lemma_visible_split(self.input@, start, p2, p3);
            lemma_visible_split(self.input@, start, p3, self.position.offset as int);
        }
        if n == 0 {
            return Err(self.error(DiagnosticCode::InvalidNumber, "exponent requires digits"));
        }
        proof {
            let s2 = visible(self.input@, p2, p3);
            let d3 = visible(self.input@, p3, self.position.offset as int);
            assert(d3 =~= text@.skip(t3.len() as int));
            assert(visible(self.input@, start, self.position.offset as int) =~= seq![0x45u8] + s2 + d3);
            assert(text@ =~= old(text)@ + visible(self.input@, start, self.position.offset as int));
        }
        Ok(())
    }

    /// The part of a real literal after its integer digits.
    fn fraction(&mut self, text: &mut Vec<u8>) -> (r: Result<(), Diagnostic>)
        requires
            old(self).wf(),
            old(self).offset() < old(self).bytes().len(),
            old(self).bytes()[old(self).offset() as int] == 0x2e,
        ensures
            final(self).kept(old(self)),
            match r {
                Ok(()) => {
                    let u = visible(
                        final(self).bytes(),
                        old(self).offset() as int,
                        final(self).offset() as int,
                    );
                    final(text)@ == old(text)@ + u && fraction_syntax(u)
                },
                Err(d) => final(self).error_here(d),
            },
    {
        let ghost start = self.position.offset as int;
        text.push(0x2e);
        self.accept(0x2e)?;
        let ghost p1 = self.position.offset as int;
        let ghost t1 = text@;
        self.digits(text)?;
        let ghost p2 = self.position.offset as int;
        let ghost t2 = text@;
        self.exponent(text)?;
        proof {
            lemma_visible_split(self.input@, start, p1, p2);
            lemma_visible_split(self.input@, start, p2, self.position.offset as int);
            let d = visible(self.input@, p1, p2);
            let e = visible(self.input@, p2, self.position.offset as int);
            assert(d =~= t2.skip(t1.len() as int));
            assert(visible(self.input@, start, self.position.offset as int) =~= seq![0x2eu8] + d + e);
            assert(text@ =~= old(text)@ + visible(self.input@, start, self.position.offset as int));
        }
        Ok(())
    }

    /// An integer or real literal.
    fn number(&mut self) -> (r: Result<TokenKind, Diagnostic>)
        requires
            old(self).wf(),
        ensures
            final(self).kept(old(self)),
            match r {
                Ok(kind) => {
                    let t = visible(
                        final(self).bytes(),
                        old(self).offset() as int,
                        final(self).offset() as int,
                    );
                    match kind {
                        TokenKind::Integer(n) => integer_syntax(t) && n == integer_value(t)
                            && final(self).at_end_or(|b: u8| b != 0x2e && !is_digit(b)),
                        TokenKind::Real(s) => real_syntax(t) && s@ == bytes_to_chars(t),
                        _ => false,
                    }
                },
                Err(d) => final(self).error_here(d),
            },
    {
        let ghost start = self.position.offset as int;
        let mut text: Vec<u8> = Vec::new();
        self.sign(&mut text)?;
        let ghost s = text@;
        let ghost p2 = self.position.offset as int;
        let count = self.digits(&mut text)?;
        let ghost p3 = self.position.offset as int;
        proof {
            lemma_visible_split(self.input@, start, p2, p3);
        }
        let ghost d1 = text@.skip(s.len() as int);
        proof {
            assert(text@ =~= s + d1);
        }
        if count == 0 {
            return Err(self.error(DiagnosticCode::InvalidNumber, "number requires digits"));
        }
        let next = self.peek()?;
        if next != Some(0x2eu8) {
            proof {
                assert(text@ =~= visible(self.input@, start, self.position.offset as int));
                assert(sign_len(text@) == s.len()) by {
                    assert(text@[s.len() as int] == d1[0]);
                }
                assert(text@.skip(sign_len(text@)) =~= d1);
                if text@[0] == 0x2d {
                    assert(text@.skip(1) =~= d1);
                }
            }
            return match parse_integer(text.as_slice()) {
                Some(value) => Ok(TokenKind::Integer(value)),
                None => Err(self.error(DiagnosticCode::NumericRange, "integer is outside i64 range")),
            };
        }
        let ghost p4 = self.position.offset as int;
        self.fraction(&mut text)?;
        proof {
            lemma_visible_split(self.input@, start, p3, p4);
            lemma_visible_split(self.input@, start, p4, self.position.offset as int);
            let u = visible(self.input@, p4, self.position.offset as int);
            assert(text@ =~= s + d1 + u);
            assert(text@ =~= visible(self.input@, start, self.position.offset as int));
        }
        Ok(TokenKind::Real(latin1_string(text.as_slice())))
    }

    /// Consumes the next visible byte into `raw`; end of input is an error with `code`.
    fn take_into(&mut self, raw: &mut Vec<u8>, code: DiagnosticCode, message: &str) -> (r: Result<
        u8,
        Diagnostic,
    >)
        requires
            old(self).wf(),
        ensures
            final(self).kept(old(self)),
            match r {
                Ok(b) => final(raw)@ == old(raw)@.push(b) && visible(
                    final(self).bytes(),
                    old(self).offset() as int,
                    final(self).offset() as int,
                ) == seq![b],
                Err(d) => final(self).error_here(d),
            },
    {
        match self.bump()? {
            Some(b) => {
                raw.push(b);
                Ok(b)
            },
            None => Err(self.error(code, message)),
        }
    }

    /// A string literal; `raw` collects the bytes between the delimiting apostrophes.
    fn string(&mut self) -> (r: Result<TokenKind, Diagnostic>)
        requires
            old(self).wf(),
            old(self).offset() < old(self).bytes().len(),
            old(self).bytes()[old(self).offset() as int] == 0x27,
        ensures
            final(self).kept(old(self)),
            match r {
                Ok(kind) => {
                    let t = visible(
                        final(self).bytes(),
                        old(self).offset() as int,
                        final(self).offset() as int,
                    );
                    match kind {
                        TokenKind::String(s) => t.len() >= 2 && t[0] == 0x27 && t.last() == 0x27
                            && decoded(t.subrange(1, t.len() - 1), old(self).limits.max_string_bytes as nat)
                            == Ok::<Seq<char>, DiagnosticCode>(s@),
                        _ => false,
                    }
                },
                Err(d) => final(self).error_here(d),
            },
    {
        let ghost start = self.position.offset as int;
        self.accept(0x27)?;
        let mut raw: Vec<u8> = Vec::new();
        loop
            invariant
                self.kept(old(self)),
                start == old(self).offset(),
                visible(self.input@, start, self.position.offset as int) == seq![0x27u8] + raw@,
            decreases self.input@.len() - self.position.offset,
        {
            let ghost p0 = self.position.offset as int;
            let ghost r0 = raw@;
            let byte = match self.bump()? {
                Some(b) => b,
                None => {
                    return Err(self.error(DiagnosticCode::UnterminatedString, "unterminated string"));
                },
            };
            proof {
                lemma_visible_split(self.input@, start, p0, self.position.offset as int);
            }
            if byte == 0x27 {
                let ghost p1 = self.position.offset as int;
                let next = self.peek()?;
                proof {
                    lemma_visible_split(self.input@, start, p1, self.position.offset as int);
                }
                if next == Some(0x27u8) {
                    raw.push(0x27);
                    let ghost p2 = self.position.offset as int;
                    self.take_into(&mut raw, DiagnosticCode::UnterminatedString, "unterminated string")?;
                    proof {
                        lemma_visible_split(self.input@, start, p2, self.position.offset as int);
                        assert(visible(self.input@, start, self.position.offset as int) =~= seq![0x27u8] + raw@);
                    }
                } else {
                    proof {
                        let t = visible(self.input@, start, self.position.offset as int);
                        assert(t =~= seq![0x27u8] + raw@ + seq![0x27u8]);
                        assert(t.subrange(1, t.len() - 1) =~= raw@);
                    }
                    return match decode(raw.as_slice(), self.limits.max_string_bytes) {
                        Ok(text) => Ok(TokenKind::String(text)),
                        Err((code, message)) => Err(self.error(code, message)),
                    };
                }
            } else if byte == 0x5c {
                raw.push(byte);
                let ghost p1 = self.position.offset as int;
                let next = self.take_into(&mut raw, DiagnosticCode::UnterminatedString, "unterminated escape")?;
                proof {
                    lemma_visible_split(self.input@, start, p1, self.position.offset as int);
                    assert(visible(self.input@, start, self.position.offset as int) =~= seq![0x27u8] + raw@);
                }
                let tail: usize = if next == 0x5c {
                    0
                } else if next == 0x53 || next == 0x50 {
                    2
                } else if next == 0x4e || next == 0x46 {
                    1
                } else if next == 0x58 {
                    let ghost p2 = self.position.offset as int;
                    let mode = self.take_into(&mut raw, DiagnosticCode::InvalidEscape, "missing X mode")?;
                    proof {
                        lemma_visible_split(self.input@, start, p2, self.position.offset as int);
                        assert(visible(self.input@, start, self.position.offset as int) =~= seq![0x27u8] + raw@);
                    }
                    if mode == 0x5c {
                        2
                    } else if mode == 0x32 || mode == 0x34 {
                        let ghost p3 = self.position.offset as int;
                        self.expect_byte(0x5c, DiagnosticCode::InvalidEscape)?;
                        raw.push(0x5c);
                        proof {
                            lemma_visible_split(self.input@, start, p3, self.position.offset as int);
                            assert(visible(self.input@, start, self.position.offset as int) =~= seq![0x27u8] + raw@);
                        }
                        loop
                            invariant
                                self.kept(old(self)),
                                start == old(self).offset(),
                                p0 < self.position.offset,
                                visible(self.input@, start, self.position.offset as int) == seq![0x27u8] + raw@,
                            decreases self.input@.len() - self.position.offset,
                        {
                            let ghost p4 = self.position.offset as int;
                            let digit = self.take_into(
                                &mut raw,
                                DiagnosticCode::InvalidEscape,
                                "unterminated Unicode escape",
                            )?;
                            proof {
                                lemma_visible_split(self.input@, start, p4, self.position.offset as int);
                                assert(visible(self.input@, start, self.position.offset as int) =~= seq![0x27u8] + raw@);
                            }
                            if digit == 0x5c {
                                break ;
                            }
                            if hex(digit).is_none() {
                                return Err(self.error(DiagnosticCode::InvalidEscape, "expected Unicode hex digit"));
                            }
                        }
                        3
                    } else {
                        return Err(self.error(DiagnosticCode::InvalidEscape, "invalid X directive"));
                    }
                } else {
                    return Err(self.error(DiagnosticCode::InvalidEscape, "unknown string directive"));
                };
                let mut k: usize = 0;
                while k < tail
                    invariant
                        self.kept(old(self)),
                        start == old(self).offset(),
                        p0 < self.position.offset,
                        visible(self.input@, start, self.position.offset as int) == seq![0x27u8] + raw@,
                    decreases tail - k,
                {
                    let ghost p5 = self.position.offset as int;
                    self.take_into(&mut raw, DiagnosticCode::InvalidEscape, "incomplete directive")?;
                    proof {
                        lemma_visible_split(self.input@, start, p5, self.position.offset as int);
                        assert(visible(self.input@, start, self.position.offset as int) =~= seq![0x27u8] + raw@);
                    }
                    k += 1;
                }
            } else {
                raw.push(byte);
                proof {
                    assert(visible(self.input@, start, self.position.offset as int) =~= seq![0x27u8] + raw@);
                }
            }
        }
    }

    /// A binary literal: `"`, the count of unused leading bits, hexadecimal digits, `"`.
    fn binary(&mut self) -> (r: Result<TokenKind, Diagnostic>)
        requires
            old(self).wf(),
            old(self).offset() < old(self).bytes().len(),
            old(self).bytes()[old(self).offset() as int] == 0x22,
        ensures
            final(self).kept(old(self)),
            match r {
                Ok(kind) => {
                    let t = visible(
                        final(self).bytes(),
                        old(self).offset() as int,
                        final(self).offset() as int,
                    );
                    match kind {
                        TokenKind::Binary(v) => binary_text(t, v),
                        _ => false,
                    }
                },
                Err(d) => final(self).error_here(d),
            },
    {
        let ghost start = self.position.offset as int;
        self.accept(0x22)?;
        let ghost p0 = self.position.offset as int;
        let first = self.bump()?;
        proof {
            lemma_visible_split(self.input@, start, p0, self.position.offset as int);
        }
        let unused: usize = match first {
            Some(d) => {
                if 0x30 <= d && d <= 0x33 {
                    (d - 0x30) as usize
                } else {
                    return Err(self.error(DiagnosticCode::InvalidBinary, "binary requires leading padding count 0..3"));
                }
            },
            None => {
                return Err(self.error(DiagnosticCode::InvalidBinary, "binary requires leading padding count 0..3"));
            },
        };
        let ghost head = visible(self.input@, start, self.position.offset as int);
        let mut nibbles: Vec<u8> = Vec::new();
        let ghost mut body: Seq<u8> = Seq::empty();
        proof {
            assert(head =~= seq![0x22u8, (unused + 0x30) as u8]);
            assert(visible(self.input@, start, self.position.offset as int) =~= head + body);
        }
        loop
            invariant_except_break
                visible(self.input@, start, self.position.offset as int) == head + body,
            invariant
                self.kept(old(self)),
                start == old(self).offset(),
                unused <= 3,
                head == seq![0x22u8, (unused + 0x30) as u8],
                binary_nibbles(body) == Some(nibbles@),
                forall|i: int| 0 <= i < nibbles@.len() ==> #[trigger] nibbles@[i] < 16,
            ensures
                visible(self.input@, start, self.position.offset as int) == head + body + seq![0x22u8],
            decreases self.input@.len() - self.position.offset,
        {
            let ghost p1 = self.position.offset as int;
            let next = self.bump()?;
            proof {
                lemma_visible_split(self.input@, start, p1, self.position.offset as int);
            }
            match next {
                Some(0x22) => {
                    proof {
                        let t = visible(self.input@, start, self.position.offset as int);
                        assert(t =~= head + body + seq![0x22u8]);
                    }
                    break ;
                },
                Some(0x5c) => {
                    let ghost p2 = self.position.offset as int;
                    let d = self.bump()?;
                    if !(d == Some(0x4eu8) || d == Some(0x46u8)) {
                        return Err(self.error(DiagnosticCode::InvalidBinary, "invalid binary print directive"));
                    }
                    let ghost p3 = self.position.offset as int;
                    self.expect_byte(0x5c, DiagnosticCode::InvalidBinary)?;
                    proof {
                        lemma_visible_split(self.input@, start, p2, p3);
                        lemma_visible_split(self.input@, start, p3, self.position.offset as int);
                        let nb = body + seq![0x5cu8, d->0, 0x5cu8];
                        assert(nb.take(nb.len() - 3) =~= body);
                        body = nb;
                        assert(visible(self.input@, start, self.position.offset as int) =~= head + body);
                    }
                },
                Some(byte) => {
                    match hex(byte) {
                        Some(nibble) => {
                            nibbles.push(nibble);
                            proof {
                                let nb = body.push(byte);
                                assert(nb.drop_last() =~= body);
                                body = nb;
                                assert(visible(self.input@, start, self.position.offset as int) =~= head + body);
                            }
                        },
                        None => {
                            return Err(self.error(DiagnosticCode::InvalidBinary, "binary requires uppercase hexadecimal digits"));
                        },
                    }
                },
                None => {
                    return Err(self.error(DiagnosticCode::InvalidBinary, "unterminated binary"));
                },
            }
        }
        if (nibbles.len() == 0 && unused != 0) || (nibbles.len() > 0 && (nibbles[0] >> ((4 - unused) as u8)) != 0) {
            return Err(self.error(DiagnosticCode::InvalidBinary, "invalid leading zero padding"));
        }
        if nibbles.len() > usize::MAX / 4 {
            return Err(self.error(DiagnosticCode::LimitExceeded, "binary literal is too long"));
        }
        let (bytes, bit_len) = pack_bits(nibbles.as_slice(), unused);
        proof {
            let t = visible(self.input@, start, self.position.offset as int);
            assert(t.subrange(2, t.len() - 1) =~= body);
            assert(t[1] == (unused + 0x30) as u8);
        }
        Ok(TokenKind::Binary(BinaryValue { bytes, bit_len }))
    }

    /// `#` or `@` followed by a nonzero number or a constant keyword.
    fn occurrence(&mut self) -> (r: Result<TokenKind, Diagnostic>)
        requires
            old(self).wf(),
            old(self).offset() < old(self).bytes().len(),
            old(self).bytes()[old(self).offset() as int] == 0x23 || old(self).bytes()[old(
                self,
            ).offset() as int] == 0x40,
        ensures
            final(self).kept(old(self)),
            match r {
                Ok(kind) => occurrence_text(
                    kind,
                    visible(final(self).bytes(), old(self).offset() as int, final(self).offset() as int),
                ),
                Err(d) => final(self).error_here(d),
            },
    {
        let ghost start = self.position.offset as int;
        let sigil = self.input[self.cursor()];
        let entity = sigil == 0x23;
        self.accept(sigil)?;
        let ghost p0 = self.position.offset as int;
        let next = self.peek()?;
        let ghost p1 = self.position.offset as int;
        proof {
            lemma_visible_split(self.input@, start, p0, p1);
        }
        if let Some(b) = next {
            if is_upper_or_underscore(b) {
                let w = self.word()?;
                proof {
                    lemma_visible_split(self.input@, start, p1, self.position.offset as int);
                    assert(visible(self.input@, start, self.position.offset as int) =~= seq![sigil] + w@);
                    assert((seq![sigil] + w@).drop_first() =~= w@);
                }
                if !keyword(w.as_slice()) {
                    return Err(self.error(DiagnosticCode::InvalidIdentifier, "invalid constant name"));
                }
                let name = latin1_string(w.as_slice());
                return Ok(if entity {
                    TokenKind::ConstantEntity(name)
                } else {
                    TokenKind::ConstantValue(name)
                });
            }
        }
        let mut number: Vec<u8> = Vec::new();
        self.digits(&mut number)?;
        proof {
            lemma_visible_split(self.input@, start, p1, self.position.offset as int);
            assert(number@ =~= visible(self.input@, p1, self.position.offset as int));
            assert(visible(self.input@, start, self.position.offset as int) =~= seq![sigil] + number@);
            assert((seq![sigil] + number@).drop_first() =~= number@);
            assert(number@.skip(0) =~= number@);
        }
        if number.len() == 0 {
            return Err(self.error(DiagnosticCode::InvalidIdentifier, "identifier requires a nonzero u64"));
        }
        let id = match parse_u64(number.as_slice()) {
            Some(id) => id,
            None => {
                return Err(self.error(DiagnosticCode::InvalidIdentifier, "identifier requires a nonzero u64"));
            },
        };
        if entity {
            match EntityId::new(id) {
                Some(e) => Ok(TokenKind::Occurrence(Occurrence::Entity(e))),
                None => Err(self.error(DiagnosticCode::InvalidIdentifier, "entity zero is invalid")),
            }
        } else {
            match ValueId::new(id) {
                Some(v) => Ok(TokenKind::Occurrence(Occurrence::Value(v))),
                None => Err(self.error(DiagnosticCode::InvalidIdentifier, "value zero is invalid")),
            }
        }
    }

    /// `.NAME.` enumeration literal.
    fn enumeration(&mut self) -> (r: Result<TokenKind, Diagnostic>)
        requires
            old(self).wf(),
            old(self).offset() < old(self).bytes().len(),
            old(self).bytes()[old(self).offset() as int] == 0x2e,
        ensures
            final(self).kept(old(self)),
            match r {
                Ok(kind) => {
                    let t = visible(
                        final(self).bytes(),
                        old(self).offset() as int,
                        final(self).offset() as int,
                    );
                    match kind {
                        TokenKind::Enumeration(name) => delimited(t, 0x2e, 0x2e) && is_keyword(
                            bytes_to_chars(t.subrange(1, t.len() - 1)),
                        ) && name@ == bytes_to_chars(t.subrange(1, t.len() - 1)),
                        _ => false,
                    }
                },
                Err(d) => final(self).error_here(d),
            },
    {
        let ghost start = self.position.offset as int;
        self.accept(0x2e)?;
        let ghost p0 = self.position.offset as int;
        let name = self.word()?;
        if !keyword(name.as_slice()) {
            return Err(self.error(DiagnosticCode::InvalidIdentifier, "invalid enumeration"));
        }
        let ghost p1 = self.position.offset as int;
        self.expect_byte(0x2e, DiagnosticCode::InvalidIdentifier)?;
        proof {
            lemma_visible_split(self.input@, start, p0, p1);
            lemma_visible_split(self.input@, start, p1, self.position.offset as int);
            let t = visible(self.input@, start, self.position.offset as int);
            assert(t =~= seq![0x2eu8] + name@ + seq![0x2eu8]);
            assert(t.subrange(1, t.len() - 1) =~= name@);
        }
        Ok(TokenKind::Enumeration(latin1_string(name.as_slice())))
    }

    /// `<URI>` resource.
    fn resource(&mut self) -> (r: Result<TokenKind, Diagnostic>)
        requires
            old(self).wf(),
            old(self).offset() < old(self).bytes().len(),
            old(self).bytes()[old(self).offset() as int] == 0x3c,
        ensures
            final(self).kept(old(self)),
            match r {
                Ok(kind) => {
                    let t = visible(
                        final(self).bytes(),
                        old(self).offset() as int,
                        final(self).offset() as int,
                    );
                    match kind {
                        TokenKind::Resource(uri) => resource_text(t, uri@),
                        _ => false,
                    }
                },
                Err(d) => final(self).error_here(d),
            },
    {
        let ghost start = self.position.offset as int;
        self.accept(0x3c)?;
        let mut bytes: Vec<u8> = Vec::new();
        loop
            invariant_except_break
                visible(self.input@, start, self.position.offset as int) == seq![0x3cu8] + bytes@,
            invariant
                self.kept(old(self)),
                start == old(self).offset(),
                forall|i: int| 0 <= i < bytes@.len() ==> is_uri_byte(#[trigger] bytes@[i]) && bytes@[i] != 0x3e,
            ensures
                visible(self.input@, start, self.position.offset as int) == seq![0x3cu8] + bytes@ + seq![0x3eu8],
            decreases self.input@.len() - self.position.offset,
        {
            let ghost p1 = self.position.offset as int;
            let next = self.bump()?;
            proof {
                lemma_visible_split(self.input@, start, p1, self.position.offset as int);
            }
            match next {
                Some(0x3e) => {
                    proof {
                        assert(visible(self.input@, start, self.position.offset as int) =~= seq![0x3cu8] + bytes@ + seq![0x3eu8]);
                    }
                    break ;
                },
                Some(b) => {
                    if uri_byte(b) {
                        bytes.push(b);
                        proof {
                            assert(visible(self.input@, start, self.position.offset as int) =~= seq![0x3cu8] + bytes@);
                        }
                    } else {
                        return Err(self.error(DiagnosticCode::InvalidIdentifier, "invalid or unterminated URI resource"));
                    }
                },
                None => {
                    return Err(self.error(DiagnosticCode::InvalidIdentifier, "invalid or unterminated URI resource"));
                },
            }
        }
        if !valid_percent_encoding(bytes.as_slice()) {
            return Err(self.error(DiagnosticCode::InvalidIdentifier, "invalid URI percent escape"));
        }
        proof {
            let t = visible(self.input@, start, self.position.offset as int);
            assert(t =~= seq![0x3cu8] + bytes@ + seq![0x3eu8]);
            assert(t.subrange(1, t.len() - 1) =~= bytes@);
        }
        Ok(TokenKind::Resource(latin1_string(bytes.as_slice())))
    }

    fn token(&mut self) -> (r: Result<Token, Diagnostic>)
        requires
            old(self).wf(),
        ensures
            final(self).same_stream(old(self)),
            match r {
                Ok(tok) => token_read(
                    final(self).bytes(),
                    old(self).offset(),
                    final(self).offset(),
                    tok,
                    final(self).limits,
                ),
                Err(d) => final(self).error_here(d),
            },
            old(self).stops_here() && old(self).offset() == old(self).bytes().len() ==> (r matches Ok(
                tok,
            ) && tok.kind is Eof),
            old(self).stops_here() && old(self).offset() < old(self).bytes().len() && 1
                <= old(self).limits.max_token_bytes && punctuation(
                old(self).bytes()[old(self).offset() as int],
            ) is Some ==> (r matches Ok(tok) && Some(tok.kind) == punctuation(
                old(self).bytes()[old(self).offset() as int],
            )),
    {
        self.skip_separators()?;
        self.token_start = self.position;
        let ghost start = self.position.offset as int;
        let ghost mid = self.position;
        let next = self.peek()?;
        assert(self.position == mid);
        let kind = match next {
            None => TokenKind::Eof,
            Some(byte) => {
                if is_digit_byte(byte) || byte == 0x2b || byte == 0x2d {
                    self.number()?
                } else if byte == 0x27 {
                    self.string()?
                } else if byte == 0x22 {
                    self.binary()?
                } else if byte == 0x23 || byte == 0x40 {
                    self.occurrence()?
                } else if byte == 0x2e {
                    self.enumeration()?
                } else if byte == 0x3c {
                    self.resource()?
                } else if byte == 0x21 {
                    self.accept(0x21)?;
                    let ghost p1 = self.position.offset as int;
                    let w = self.word()?;
                    if !keyword(w.as_slice()) {
                        return Err(self.error(DiagnosticCode::InvalidIdentifier, "invalid user-defined keyword"));
                    }
                    let mut text: Vec<u8> = Vec::new();
                    text.push(0x21);
                    let mut k: usize = 0;
                    while k < w.len()
                        invariant
                            k <= w@.len(),
                            text@ == seq![0x21u8] + w@.take(k as int),
                        decreases w@.len() - k,
                    {
                        text.push(w[k]);
                        proof {
                            assert(w@.take(k + 1) =~= w@.take(k as int).push(w@[k as int]));
                        }
                        k += 1;
                    }
                    proof {
                        lemma_visible_split(self.input@, start, p1, self.position.offset as int);
                        assert(w@.take(w@.len() as int) =~= w@);
                        assert(text@ =~= visible(self.input@, start, self.position.offset as int));
                        assert(text@.drop_first() =~= w@);
                    }
                    TokenKind::Word(latin1_string(text.as_slice()))
                } else if is_alnum_byte(byte) || byte == 0x5f {
                    let w = self.word()?;
                    proof {
                        lemma_visible_first(self.input@, start, self.position.offset as int);
                    }
                    TokenKind::Word(latin1_string(w.as_slice()))
                } else {
                    self.accept(byte)?;
                    if byte == 0x28 {
                        TokenKind::LeftParen
                    } else if byte == 0x29 {
                        TokenKind::RightParen
                    } else if byte == 0x2c {
                        TokenKind::Comma
                    } else if byte == 0x3b {
                        TokenKind::Semicolon
                    } else if byte == 0x3d {
                        TokenKind::Equals
                    } else if byte == 0x24 {
                        TokenKind::Null
                    } else if byte == 0x2a {
                        TokenKind::Omitted
                    } else if byte == 0x7b {
                        TokenKind::LeftBrace
                    } else if byte == 0x7d {
                        TokenKind::RightBrace
                    } else if byte == 0x3a {
                        TokenKind::Colon
                    } else if byte == 0x26 {
                        return Err(self.error(DiagnosticCode::UnsupportedFeature, "legacy scope encoding is unsupported"));
                    } else {
                        return Err(self.error(DiagnosticCode::InvalidCharacter, "unexpected byte"));
                    }
                }
            },
        };
        proof {
            let end = self.position.offset as int;
            let tt = visible(self.input@, start, end);
            assert(token_text(kind, tt, self.input@, end, self.limits));
        }
        Ok(Token { kind, source: self.span(self.token_start) })
    }

    /// The next token. After an error the lexer is fused: it returns EOF at the
    /// position of the failure from then on.
    pub fn next_token(&mut self) -> (r: Result<Token, Diagnostic>)
        requires
            old(self).wf(),
        ensures
            final(self).wf(),
            final(self).bytes() == old(self).bytes(),
            final(self).spec_limits() == old(self).spec_limits(),
            old(self).offset() <= final(self).offset(),
            old(self).is_failed() ==> (final(self).is_failed() && final(self).offset() == old(
                self,
            ).offset() && (r matches Ok(tok) && tok.kind is Eof && tok.source.start
                == tok.source.end && tok.source.end == position_at(
                final(self).bytes(),
                final(self).offset(),
            ))),
            !old(self).is_failed() ==> match r {
                Ok(tok) => !final(self).is_failed() && token_read(
                    final(self).bytes(),
                    old(self).offset(),
                    final(self).offset(),
                    tok,
                    final(self).spec_limits(),
                ),
                Err(d) => final(self).is_failed() && d.severity == Severity::Error && d.entity is None
                    && d.source_span.end == position_at(final(self).bytes(), final(self).offset()),
            },
            !old(self).is_failed() && old(self).offset() == old(self).bytes().len() ==> (r matches Ok(
                tok,
            ) && tok.kind is Eof),
            !old(self).is_failed() && old(self).offset() < old(self).bytes().len() && old(self).offset()
                < old(self).spec_limits().max_input_bytes && 1 <= old(self).spec_limits().max_token_bytes
                && punctuation(old(self).bytes()[old(self).offset() as int]) is Some ==> (r matches Ok(
                tok,
            ) && Some(tok.kind) == punctuation(old(self).bytes()[old(self).offset() as int])),
    {
        if self.failed {
            return Ok(Token { kind: TokenKind::Eof, source: self.span(self.position) });
        }
        let result = self.token();
        if result.is_err() {
            self.failed = true;
        }
        result
    }

    /// An optional signature section after the exchange structure; `None` at the end of input.
    pub(crate) fn next_signature(&mut self) -> (r: Result<Option<Signature>, Diagnostic>)
        requires
            old(self).wf(),
        ensures
            final(self).wf(),
            final(self).bytes() == old(self).bytes(),
            final(self).spec_limits() == old(self).spec_limits(),
            final(self).is_failed() == old(self).is_failed(),
            old(self).offset() <= final(self).offset(),
            match r {
                Ok(None) => final(self).offset() == final(self).bytes().len(),
                Ok(Some(sig)) => signature_read(
                    final(self).bytes(),
                    old(self).offset(),
                    final(self).offset(),
                    sig,
                ),
                Err(d) => d.severity == Severity::Error && d.entity is None && d.source_span.end
                    == position_at(final(self).bytes(), final(self).offset()),
            },
    {
        self.skip_separators()?;
        self.token_start = self.position;
        let ghost start = self.position.offset as int;
        let ghost mid = self.position;
        let first = self.peek()?;
        if first.is_none() {
            return Ok(None);
        }
        let start_position = self.position;
        let keyword: [u8; 9] = [0x53, 0x49, 0x47, 0x4e, 0x41, 0x54, 0x55, 0x52, 0x45];
        let mut k: usize = 0;
        while k < 9
            invariant
                self.wf(),
                self.input@ == old(self).input@,
                self.limits == old(self).limits,
                self.failed == old(self).failed,
                self.token_start == start_position,
                start_position.offset == start,
                start_position == position_at(self.input@, start as nat),
                start <= self.position.offset,
                old(self).position.offset <= start,
                k <= 9,
                keyword@ == signature_keyword(),
                visible(self.input@, start, self.position.offset as int) == signature_keyword().take(k as int),
            decreases 9 - k,
        {
            let ghost p0 = self.position.offset as int;
            self.expect_byte(keyword[k], DiagnosticCode::InvalidSignature)?;
            proof {
                lemma_visible_split(self.input@, start, p0, self.position.offset as int);
                assert(signature_keyword().take(k + 1) =~= signature_keyword().take(k as int).push(keyword@[k as int]));
            }
            k += 1;
        }
        let mut payload: Vec<u8> = Vec::new();
        let ghost mut body: Seq<u8> = Seq::empty();
        proof {
            assert(signature_keyword().take(9) =~= signature_keyword());
        }
        loop
            invariant_except_break
                visible(self.input@, start, self.position.offset as int) == signature_keyword() + body,
            invariant
                self.wf(),
                self.input@ == old(self).input@,
                self.limits == old(self).limits,
                self.failed == old(self).failed,
                self.token_start == start_position,
                start_position == position_at(self.input@, start as nat),
                start_position.offset == start,
                start <= self.position.offset,
                old(self).position.offset <= start,
                payload@ == drop_spaces(body),
                forall|i: int| 0 <= i < body.len() ==> is_signature_byte(#[trigger] body[i]),
            ensures
                visible(self.input@, start, self.position.offset as int) == signature_keyword() + body
                    + seq![0x3bu8],
            decreases self.input@.len() - self.position.offset,
        {
            let ghost p0 = self.position.offset as int;
            let next = self.bump()?;
            proof {
                lemma_visible_split(self.input@, start, p0, self.position.offset as int);
            }
            match next {
                Some(0x3b) => {
                    break ;
                },
                Some(b) => {
                    if b == 0x20 || is_alnum_byte(b) || b == 0x2b || b == 0x2f || b == 0x3d {
                        if b != 0x20 {
                            payload.push(b);
                        }
                        proof {
                            let nb = body.push(b);
                            assert(nb.drop_last() =~= body);
                            body = nb;
                            assert(visible(self.input@, start, self.position.offset as int) =~= signature_keyword() + body);
                        }
                    } else {
                        return Err(self.error(DiagnosticCode::InvalidSignature, "invalid or truncated signature section"));
                    }
                },
                None => {
                    return Err(self.error(DiagnosticCode::InvalidSignature, "invalid or truncated signature section"));
                },
            }
        }
        proof {
            assert forall|i: int| 0 <= i < payload@.len() implies #[trigger] payload@[i] == 0x3d
                || base64_value(payload@[i]) is Some || (0x41 <= payload@[i] <= 0x5a) by {
                lemma_drop_spaces_bytes(body, i);
            }
        }
        let content = match signature_content(payload.as_slice()) {
            Ok(k) => k,
            Err(message) => {
                return Err(self.error(DiagnosticCode::InvalidSignature, message));
            },
        };
        let text = latin1_string(slice_prefix(payload.as_slice(), content));
        proof {
            let t = visible(self.input@, start, self.position.offset as int);
            assert(t.take(9) =~= signature_keyword());
            assert(t.subrange(9, t.len() - 1) =~= body);
        }
        Ok(Some(Signature { base64: text, source: self.span(start_position) }))
    }
}

/// Every byte kept by `drop_spaces` is a non-space byte of the input.
proof fn lemma_drop_spaces_bytes(s: Seq<u8>, i: int)
    requires
        forall|k: int| 0 <= k < s.len() ==> is_signature_byte(#[trigger] s[k]),
        0 <= i < drop_spaces(s).len(),
    ensures
        drop_spaces(s)[i] == 0x3d || base64_value(drop_spaces(s)[i]) is Some,
    decreases s.len(),
{
    if s.len() > 0 {
        let r = s.drop_last();
        assert forall|k: int| 0 <= k < r.len() implies is_signature_byte(#[trigger] r[k]) by {
            assert(r[k] == s[k]);
        }
        if s.last() == 0x20 {
            lemma_drop_spaces_bytes(r, i);
        } else if i < drop_spaces(r).len() {
            lemma_drop_spaces_bytes(r, i);
        } else {
            assert(is_signature_byte(s[s.len() - 1]));
        }
    }
}

/// `s[..n]`, via slice indexing.
#[verifier::external_body]
fn slice_prefix(s: &[u8], n: usize) -> (r: &[u8])
    requires
        n <= s@.len(),
    ensures
        r@ == s@.take(n as int),
{
    &s[..n]
}

} // verus!
