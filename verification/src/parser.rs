//! Pull parser: the events of an exchange structure, in file order.
use vstd::prelude::*;
use crate::chars::{is_alnum, is_alnum_byte, is_digit, is_plain_keyword, is_keyword, is_keyword_char, is_keyword_start, strip_bang, is_upper_or_underscore, is_digit_byte};
use crate::diagnostic::{Diagnostic, DiagnosticCode, Severity, SourcePosition, SourceSpan};
use crate::lexer::{Lexer, Token, TokenKind, token_read};
use crate::limits::ParseLimits;
use crate::source::{position_at, lemma_track_bounds, visible};
use crate::text::push_str;
use vstd::utf8::encode_utf8;
use crate::value::{Anchor, EntityId, EntityInstance, EntityKind, ExternalReference, Occurrence, Record, Signature, StepValue, ValueKind};

verus! {

/// One syntactic unit of the exchange structure.
#[derive(Debug, PartialEq)]
pub enum Event {
    Header(Record),
    Anchor(Anchor),
    ExternalReference(ExternalReference),
    StartData { parameters: Vec<StepValue>, source: SourceSpan },
    Entity(EntityInstance),
    EndData(SourceSpan),
    Signature(Signature),
    EndExchange(SourceSpan),
}

/// The part of the exchange structure the parser is in.
#[derive(Debug, Clone, Copy, PartialEq, Eq, Structural)]
pub enum State {
    Start,
    Header,
    Sections,
    Anchors,
    References,
    Data,
    Signatures,
    Done,
}

/// Source range of an event.
pub open spec fn event_span(e: Event) -> SourceSpan {
    match e {
        Event::Header(r) => r.source,
        Event::Anchor(a) => a.source,
        Event::ExternalReference(x) => x.source,
        Event::StartData { source, .. } => source,
        Event::Entity(en) => en.source,
        Event::EndData(s) => s,
        Event::Signature(s) => s.source,
        Event::EndExchange(s) => s,
    }
}

/// Rank of the part of the file an event belongs to: header, anchor section,
/// reference section, data sections, then the end of the exchange and its signatures.
pub open spec fn event_stage(e: Event) -> nat {
    match e {
        Event::Header(_) => 1,
        Event::Anchor(_) => 2,
        Event::ExternalReference(_) => 3,
        Event::StartData { .. } => 4,
        Event::Entity(_) => 4,
        Event::EndData(_) => 4,
        Event::EndExchange(_) => 5,
        Event::Signature(_) => 5,
    }
}

/// Text printed for a token kind in diagnostics.
pub open spec fn label_text(k: TokenKind) -> Seq<char> {
    match k {
        TokenKind::Word(_) => "keyword"@,
        TokenKind::Integer(_) => "integer"@,
        TokenKind::Real(_) => "real"@,
        TokenKind::String(_) => "string"@,
        TokenKind::Binary(_) => "binary"@,
        TokenKind::Enumeration(_) => "enumeration"@,
        TokenKind::Occurrence(_) => "occurrence"@,
        TokenKind::ConstantEntity(_) => "constant"@,
        TokenKind::ConstantValue(_) => "constant"@,
        TokenKind::Resource(_) => "resource"@,
        TokenKind::LeftParen => "("@,
        TokenKind::RightParen => ")"@,
        TokenKind::Comma => ","@,
        TokenKind::Semicolon => ";"@,
        TokenKind::Equals => "="@,
        TokenKind::Null => "$"@,
        TokenKind::Omitted => "*"@,
        TokenKind::LeftBrace => "{"@,
        TokenKind::RightBrace => "}"@,
        TokenKind::Colon => ":"@,
        TokenKind::Eof => "EOF"@,
    }
}

/// A kind without payload.
pub open spec fn is_punctuation(k: TokenKind) -> bool {
    match k {
        TokenKind::LeftParen | TokenKind::RightParen | TokenKind::Comma | TokenKind::Semicolon
        | TokenKind::Equals | TokenKind::Null | TokenKind::Omitted | TokenKind::LeftBrace
        | TokenKind::RightBrace | TokenKind::Colon | TokenKind::Eof => true,
        _ => false,
    }
}

/// `s` lies between offsets `from` and `to` of `input`, with positions read from it.
pub open spec fn span_in(s: SourceSpan, input: Seq<u8>, from: nat, to: nat) -> bool {
    &&& from <= s.start.offset <= s.end.offset <= to
    &&& s.start == position_at(input, s.start.offset as nat)
    &&& s.end == position_at(input, s.end.offset as nat)
}

/// Values read one after another: each from a non-empty stretch of the
/// input, and each ending before the next begins.
pub open spec fn in_file_order(vs: Seq<StepValue>) -> bool {
    &&& forall|i: int| 0 <= i < vs.len() ==> (#[trigger] vs[i]).source.start.offset < vs[i].source.end.offset
    &&& forall|i: int, j: int|
        0 <= i < j < vs.len() ==> (#[trigger] vs[i]).source.end.offset <= (#[trigger] vs[j]).source.start.offset
}

/// A parameter value nested `depth` levels deep, in an anchor item or (when
/// `anchor` is false) in an ordinary record: within the nesting and aggregate
/// limits, `*` and typed parameters only outside anchors, resources only inside,
/// and every name a keyword.
pub open spec fn value_ok(v: StepValue, depth: nat, anchor: bool, limits: ParseLimits) -> bool
    decreases v,
{
    &&& depth < limits.max_nesting_depth
    &&& match v.kind {
        ValueKind::Omitted => !anchor,
        ValueKind::Resource(_) => anchor,
        ValueKind::Enumeration(s) => is_keyword(s@),
        ValueKind::ConstantEntity(s) => is_keyword(s@),
        ValueKind::ConstantValue(s) => is_keyword(s@),
        ValueKind::Typed { name, value } => !anchor && is_keyword(name@) && value_ok(
            *value,
            depth + 1,
            false,
            limits,
        ),
        ValueKind::Aggregate(vs) => {
            &&& vs@.len() <= limits.max_aggregate_elements
            &&& forall|i: int| 0 <= i < vs@.len() ==> value_ok(#[trigger] vs@[i], depth + 1, anchor, limits)
            &&& in_file_order(vs@)
            &&& forall|i: int|
                0 <= i < vs@.len() ==> v.source.start.offset < (#[trigger] vs@[i]).source.start.offset
                    && vs@[i].source.end.offset <= v.source.end.offset
        },
        _ => true,
    }
}

/// The parameters of a record or of a `DATA` section header, at the outermost level.
pub open spec fn parameters_ok(ps: Seq<StepValue>, anchor: bool, limits: ParseLimits) -> bool {
    &&& ps.len() <= limits.max_aggregate_elements
    &&& forall|i: int| 0 <= i < ps.len() ==> value_ok(#[trigger] ps[i], 0, anchor, limits)
    &&& in_file_order(ps)
}

/// A record `NAME(parameters)` as the parser returns it.
pub open spec fn record_ok(r: Record, limits: ParseLimits) -> bool {
    is_keyword(r.name@) && parameters_ok(r.parameters@, false, limits)
}

/// An entity instance: a record, or a non-empty complex instance of records with distinct names.
pub open spec fn entity_ok(e: EntityInstance, limits: ParseLimits) -> bool {
    match e.kind {
        EntityKind::Simple(r) => record_ok(r, limits),
        EntityKind::Complex(rs) => {
            &&& 0 < rs@.len() <= limits.max_aggregate_elements
            &&& forall|i: int| 0 <= i < rs@.len() ==> record_ok(#[trigger] rs@[i], limits)
            &&& forall|i: int, j: int|
                0 <= i < j < rs@.len() ==> (#[trigger] rs@[i]).name@ != (#[trigger] rs@[j]).name@
        },
    }
}

/// Bytes of an anchor name: non-empty, not only digits, without `#`, `[` or `]`.
pub open spec fn fragment_ok(b: Seq<u8>) -> bool {
    &&& b.len() > 0
    &&& !(forall|i: int| 0 <= i < b.len() ==> is_digit(#[trigger] b[i]))
    &&& forall|i: int| 0 <= i < b.len() ==> (#[trigger] b[i] != 0x23 && b[i] != 0x5b && b[i] != 0x5d)
}

/// Bytes of an anchor tag name: letters, digits and underscores.
pub open spec fn tag_name_ok(b: Seq<u8>) -> bool {
    forall|i: int| 0 <= i < b.len() ==> is_alnum(#[trigger] b[i]) || b[i] == 0x5f
}

/// An anchor item with its tags; names are checked on their UTF-8 bytes.
pub open spec fn anchor_ok(a: Anchor, limits: ParseLimits) -> bool {
    &&& fragment_ok(encode_utf8(a.name@))
    &&& value_ok(a.value, 0, true, limits)
    &&& a.tags@.len() <= limits.max_aggregate_elements
    &&& forall|i: int|
        0 <= i < a.tags@.len() ==> tag_name_ok(encode_utf8((#[trigger] a.tags@[i]).0@))
            && value_ok(a.tags@[i].1, 0, true, limits)
}

/// Name of the mandatory header record at position `i` (0, 1 or 2).
pub open spec fn mandatory_header(i: nat) -> Seq<char> {
    if i == 0 {
        "FILE_DESCRIPTION"@
    } else if i == 1 {
        "FILE_NAME"@
    } else {
        "FILE_SCHEMA"@
    }
}

pub open spec fn is_string_value(v: StepValue) -> bool {
    v.kind is String
}

/// A non-empty aggregate of strings.
pub open spec fn is_string_list(v: StepValue) -> bool {
    match v.kind {
        ValueKind::Aggregate(vs) => vs@.len() > 0 && forall|i: int|
            0 <= i < vs@.len() ==> is_string_value(#[trigger] vs@[i]),
        _ => false,
    }
}

/// Parameter structure of the mandatory header record at position `i`.
pub open spec fn header_shape(i: nat, ps: Seq<StepValue>) -> bool {
    if i == 0 {
        ps.len() == 2 && is_string_list(ps[0]) && is_string_value(ps[1])
    } else if i == 1 {
        &&& ps.len() == 7
        &&& is_string_value(ps[0]) && is_string_value(ps[1])
        &&& is_string_list(ps[2]) && is_string_list(ps[3])
        &&& is_string_value(ps[4]) && is_string_value(ps[5]) && is_string_value(ps[6])
    } else {
        ps.len() == 1 && is_string_list(ps[0])
    }
}

/// The header record at position `index`: the three mandatory records come first,
/// in order and with their structure; later ones are any other records.
pub open spec fn header_ok(r: Record, index: nat) -> bool {
    if index < 3 {
        r.name@ == mandatory_header(index) && header_shape(index, r.parameters@)
    } else {
        r.name@ != mandatory_header(0) && r.name@ != mandatory_header(1) && r.name@
            != mandatory_header(2)
    }
}

/// What an event returned after `headers` header records satisfies.
pub open spec fn event_ok(e: Event, headers: nat, limits: ParseLimits) -> bool {
    match e {
        Event::Header(r) => record_ok(r, limits) && header_ok(r, headers),
        Event::Anchor(a) => anchor_ok(a, limits),
        Event::StartData { parameters, .. } => parameters_ok(parameters@, false, limits),
        Event::Entity(en) => entity_ok(en, limits),
        _ => true,
    }
}

fn token_label(kind: &TokenKind) -> (r: &'static str)
    ensures
        r@ == label_text(*kind),
{
    match kind {
        TokenKind::Word(_) => "keyword",
        TokenKind::Integer(_) => "integer",
        TokenKind::Real(_) => "real",
        TokenKind::String(_) => "string",
        TokenKind::Binary(_) => "binary",
        TokenKind::Enumeration(_) => "enumeration",
        TokenKind::Occurrence(_) => "occurrence",
        TokenKind::ConstantEntity(_) => "constant",
        TokenKind::ConstantValue(_) => "constant",
        TokenKind::Resource(_) => "resource",
        TokenKind::LeftParen => "(",
        TokenKind::RightParen => ")",
        TokenKind::Comma => ",",
        TokenKind::Semicolon => ";",
        TokenKind::Equals => "=",
        TokenKind::Null => "$",
        TokenKind::Omitted => "*",
        TokenKind::LeftBrace => "{",
        TokenKind::RightBrace => "}",
        TokenKind::Colon => ":",
        TokenKind::Eof => "EOF",
    }
}

/// Variant name of a payload-free kind; any other kind is named `Eof`.
pub open spec fn punctuation_label(k: TokenKind) -> Seq<char> {
    match k {
        TokenKind::LeftParen => "LeftParen"@,
        TokenKind::RightParen => "RightParen"@,
        TokenKind::Comma => "Comma"@,
        TokenKind::Semicolon => "Semicolon"@,
        TokenKind::Equals => "Equals"@,
        TokenKind::Null => "Null"@,
        TokenKind::Omitted => "Omitted"@,
        TokenKind::LeftBrace => "LeftBrace"@,
        TokenKind::RightBrace => "RightBrace"@,
        TokenKind::Colon => "Colon"@,
        _ => "Eof"@,
    }
}

/// Variant name of a payload-free kind, as expected tokens are named in diagnostics.
fn punctuation_name(kind: &TokenKind) -> (r: &'static str)
    ensures
        r@ == punctuation_label(*kind),
{
    match kind {
        TokenKind::LeftParen => "LeftParen",
        TokenKind::RightParen => "RightParen",
        TokenKind::Comma => "Comma",
        TokenKind::Semicolon => "Semicolon",
        TokenKind::Equals => "Equals",
        TokenKind::Null => "Null",
        TokenKind::Omitted => "Omitted",
        TokenKind::LeftBrace => "LeftBrace",
        TokenKind::RightBrace => "RightBrace",
        TokenKind::Colon => "Colon",
        _ => "Eof",
    }
}

/// `a == b`, where `b` carries no payload.
fn same_punctuation(a: &TokenKind, b: &TokenKind) -> (r: bool)
    requires
        is_punctuation(*b),
    ensures
        r == (*a == *b),
{
    match (a, b) {
        (TokenKind::LeftParen, TokenKind::LeftParen) => true,
        (TokenKind::RightParen, TokenKind::RightParen) => true,
        (TokenKind::Comma, TokenKind::Comma) => true,
        (TokenKind::Semicolon, TokenKind::Semicolon) => true,
        (TokenKind::Equals, TokenKind::Equals) => true,
        (TokenKind::Null, TokenKind::Null) => true,
        (TokenKind::Omitted, TokenKind::Omitted) => true,
        (TokenKind::LeftBrace, TokenKind::LeftBrace) => true,
        (TokenKind::RightBrace, TokenKind::RightBrace) => true,
        (TokenKind::Colon, TokenKind::Colon) => true,
        (TokenKind::Eof, TokenKind::Eof) => true,
        _ => false,
    }
}

/// The characters of `w` are those of `word`.
pub(crate) fn text_is(w: &String, word: &str) -> (r: bool)
    ensures
        r == (w@ == word@),
{
    let t = word.to_owned();
    *w == t
}

/// `w` is a standard or user-defined (`!`-prefixed) keyword.
pub fn keyword_text(w: &str) -> (r: bool)
    ensures
        r == is_keyword(w@),
{
    let n = w.unicode_len();
    let start: usize = if n > 0 && w.get_char(0) == '!' { 1 } else { 0 };
    let ghost s = strip_bang(w@);
    proof {
        assert(s =~= w@.skip(start as int));
    }
    if start >= n {
        return false;
    }
    let first = w.get_char(start) as u32;
    assert(s[0] == w@[start as int]);
    if !(first < 256 && is_upper_or_underscore(first as u8)) {
        assert(!is_plain_keyword(s));
        return false;
    }
    let mut i: usize = start;
    while i < n
        invariant
            start <= i <= n,
            n == w@.len(),
            s == w@.skip(start as int),
            s == strip_bang(w@),
            s.len() > 0,
            (s[0] as u32) < 256 && is_keyword_start((s[0] as u32) as u8),
            forall|k: int| 0 <= k < i - start ==> is_keyword_char(#[trigger] s[k]),
        decreases n - i,
    {
        let c = w.get_char(i) as u32;
        assert(s[i - start] == w@[i as int]);
        if !(c < 256 && (is_upper_or_underscore(c as u8) || is_digit_byte(c as u8))) {
            assert(!is_keyword_char(s[i - start]));
            assert(!is_plain_keyword(s));
            return false;
        }
        i += 1;
    }
    true
}

/// "expected `expected`; found `found`" at `source`.
fn unexpected_parts(found: &str, source: SourceSpan, expected: &str) -> (d: Diagnostic)
    ensures
        d.severity == Severity::Error,
        d.code == DiagnosticCode::UnexpectedToken,
        d.entity is None,
        d.source_span == source,
        d.message@ == "expected "@ + expected@ + "; found "@ + found@,
{
    let mut message = String::new();
    push_str(&mut message, "expected ");
    push_str(&mut message, expected);
    push_str(&mut message, "; found ");
    push_str(&mut message, found);
    Diagnostic::error(DiagnosticCode::UnexpectedToken, message, source)
}

/// `token` is not what was expected.
fn unexpected(token: &Token, expected: &str) -> (d: Diagnostic)
    ensures
        d.severity == Severity::Error,
        d.code == DiagnosticCode::UnexpectedToken,
        d.entity is None,
        d.source_span == token.source,
        d.message@ == "expected "@ + expected@ + "; found "@ + label_text(token.kind),
{
    unexpected_parts(token_label(&token.kind), token.source, expected)
}

fn fragment_valid(b: &[u8]) -> (r: bool)
    ensures
        r == fragment_ok(b@),
{
    if b.len() == 0 {
        return false;
    }
    let mut digits = true;
    let mut i: usize = 0;
    while i < b.len()
        invariant
            i <= b@.len(),
            digits == (forall|k: int| 0 <= k < i ==> is_digit(#[trigger] b@[k])),
            forall|k: int| 0 <= k < i ==> (#[trigger] b@[k] != 0x23 && b@[k] != 0x5b && b@[k] != 0x5d),
        decreases b@.len() - i,
    {
        let c = b[i];
        if c == 0x23 || c == 0x5b || c == 0x5d {
            return false;
        }
        if !is_digit_byte(c) {
            digits = false;
        }
        i += 1;
    }
    !digits
}

fn tag_name_valid(b: &[u8]) -> (r: bool)
    ensures
        r == tag_name_ok(b@),
{
    let mut i: usize = 0;
    while i < b.len()
        invariant
            i <= b@.len(),
            forall|k: int| 0 <= k < i ==> is_alnum(#[trigger] b@[k]) || b@[k] == 0x5f,
        decreases b@.len() - i,
    {
        if !(is_alnum_byte(b[i]) || b[i] == 0x5f) {
            return false;
        }
        i += 1;
    }
    true
}

/// Some record of `records` is named `name`.
fn has_name(records: &Vec<Record>, name: &String) -> (r: bool)
    ensures
        r == exists|i: int| 0 <= i < records@.len() && (#[trigger] records@[i]).name@ == name@,
{
    let mut k: usize = 0;
    while k < records.len()
        invariant
            k <= records@.len(),
            forall|i: int| 0 <= i < k ==> (#[trigger] records@[i]).name@ != name@,
        decreases records@.len() - k,
    {
        if records[k].name == *name {
            return true;
        }
        k += 1;
    }
    false
}

fn string_value(v: &StepValue) -> (r: bool)
    ensures
        r == is_string_value(*v),
{
    match &v.kind {
        ValueKind::String(_) => true,
        _ => false,
    }
}

fn string_list(v: &StepValue) -> (r: bool)
    ensures
        r == is_string_list(*v),
{
    match &v.kind {
        ValueKind::Aggregate(vs) => {
            if vs.len() == 0 {
                return false;
            }
            let mut i: usize = 0;
            while i < vs.len()
                invariant
                    i <= vs@.len(),
                    v.kind == ValueKind::Aggregate(*vs),
                    forall|k: int| 0 <= k < i ==> is_string_value(#[trigger] vs@[k]),
                decreases vs@.len() - i,
            {
                if !string_value(&vs[i]) {
                    return false;
                }
                i += 1;
            }
            true
        },
        _ => false,
    }
}

/// Checks the header record at position `index`.
fn validate_header(record: &Record, index: usize) -> (r: Result<(), Diagnostic>)
    ensures
        r is Ok <==> header_ok(*record, index as nat),
        r matches Err(d) ==> d.severity == Severity::Error && d.code == DiagnosticCode::InvalidHeader
            && d.entity is None && d.source_span == record.source,
{
    let expected = if index == 0 {
        "FILE_DESCRIPTION"
    } else if index == 1 {
        "FILE_NAME"
    } else {
        "FILE_SCHEMA"
    };
    if index >= 3 {
        if text_is(&record.name, "FILE_DESCRIPTION") || text_is(&record.name, "FILE_NAME")
            || text_is(&record.name, "FILE_SCHEMA") {
            return Err(
                Diagnostic::error(
                    DiagnosticCode::InvalidHeader,
                    "duplicate mandatory header".to_owned(),
                    record.source,
                ),
            );
        }
        return Ok(());
    }
    let ps = &record.parameters;
    let shape = if index == 0 {
        ps.len() == 2 && string_list(&ps[0]) && string_value(&ps[1])
    } else if index == 1 {
        ps.len() == 7 && string_value(&ps[0]) && string_value(&ps[1]) && string_list(&ps[2])
            && string_list(&ps[3]) && string_value(&ps[4]) && string_value(&ps[5])
            && string_value(&ps[6])
    } else {
        ps.len() == 1 && string_list(&ps[0])
    };
    if text_is(&record.name, expected) && shape {
        Ok(())
    } else {
        let mut message = String::new();
        push_str(&mut message, "expected ");
        push_str(&mut message, expected);
        push_str(&mut message, " with its physical header parameter structure");
        Err(Diagnostic::error(DiagnosticCode::InvalidHeader, message, record.source))
    }
}

/// Pull parser over an in-memory byte stream. Retains only the lookahead token,
/// the interned names and the budget counters, never earlier events.
pub struct Parser {
    lexer: Lexer,
    lookahead: Option<Token>,
    limits: ParseLimits,
    state: State,
    last_end: SourcePosition,
    symbols: Vec<String>,
    values: usize,
    records: usize,
    entities: usize,
    sections: usize,
    headers: usize,
    phase: u8,
    current_entity: Option<EntityId>,
}

impl Parser {
    /// The byte stream being parsed.
    pub closed spec fn bytes(&self) -> Seq<u8> {
        self.lexer.bytes()
    }

    /// Offset just after the last token that has been consumed.
    pub closed spec fn consumed(&self) -> nat {
        self.last_end.offset as nat
    }

    pub closed spec fn spec_limits(&self) -> ParseLimits {
        self.limits
    }

    /// The parser has returned `None` or an error and yields nothing more.
    pub closed spec fn is_done(&self) -> bool {
        self.state == State::Done
    }

    /// Number of header records returned so far.
    pub closed spec fn headers_seen(&self) -> nat {
        self.headers as nat
    }

    /// Parameter values counted against `max_total_values`.
    pub closed spec fn values_used(&self) -> nat {
        self.values as nat
    }

    /// Records, anchors and references counted against `max_records`.
    pub closed spec fn records_used(&self) -> nat {
        self.records as nat
    }

    /// Entity instances counted against `max_entities`.
    pub closed spec fn entities_used(&self) -> nat {
        self.entities as nat
    }

    /// Sections and signatures counted against `max_sections`.
    pub closed spec fn sections_used(&self) -> nat {
        self.sections as nat
    }

    /// Distinct names counted against `max_symbols`.
    pub closed spec fn symbols_used(&self) -> nat {
        self.symbols@.len()
    }

    /// The name `t` has already been counted against `max_symbols`.
    pub closed spec fn has_symbol(&self, t: Seq<char>) -> bool {
        exists|i: int| 0 <= i < self.symbols@.len() && (#[trigger] self.symbols@[i])@ == t
    }

    /// How far the parser has got: 0 before the header, 1 in it, 2 to 4 in the
    /// anchor, reference and data sections, 5 after the end of the exchange, 6 when done.
    pub closed spec fn stage(&self) -> nat {
        match self.state {
            State::Start => 0,
            State::Header => 1,
            State::Sections => (1 + self.phase) as nat,
            State::Anchors => 2,
            State::References => 3,
            State::Data => 4,
            State::Signatures => 5,
            State::Done => 6,
        }
    }

    /// Every budget counter is within its limit.
    pub open spec fn within_budgets(&self) -> bool {
        let l = self.spec_limits();
        &&& self.values_used() <= l.max_total_values
        &&& self.records_used() <= l.max_records
        &&& self.entities_used() <= l.max_entities
        &&& self.sections_used() <= l.max_sections
        &&& self.symbols_used() <= l.max_symbols
    }

    closed spec fn base(&self) -> bool {
        &&& self.lexer.wf()
        &&& self.lexer.spec_limits() == self.limits
        &&& self.limits.max_nesting_depth <= 128
        &&& self.values <= self.limits.max_total_values
        &&& self.records <= self.limits.max_records
        &&& self.entities <= self.limits.max_entities
        &&& self.sections <= self.limits.max_sections
        &&& self.symbols.len() <= self.limits.max_symbols
        &&& self.headers <= self.records
        &&& self.last_end.offset <= self.lexer.offset()
        &&& self.last_end == position_at(self.lexer.bytes(), self.last_end.offset as nat)
        &&& self.phase <= 3
        &&& (self.state == State::Anchors ==> self.phase == 1)
        &&& (self.state == State::References ==> self.phase == 2)
        &&& (self.state == State::Data ==> self.phase == 3)
        &&& (!(self.state == State::Start || self.state == State::Header || self.state == State::Done)
            ==> self.headers >= 3)
    }

    closed spec fn live(&self) -> bool {
        &&& self.base()
        &&& !self.lexer.is_failed()
        &&& (self.lookahead matches Some(t) ==> token_read(
            self.lexer.bytes(),
            self.last_end.offset as nat,
            self.lexer.offset(),
            t,
            self.limits,
        ))
    }

    /// Internal consistency; holds before and after every public call.
    pub closed spec fn wf(&self) -> bool {
        &&& self.base()
        &&& (self.state != State::Done ==> self.live())
        &&& (self.state == State::Signatures ==> self.lookahead is None)
    }

    /// Same stream and limits; counters, consumed input and stage only grow.
    closed spec fn advanced(&self, old: &Parser) -> bool {
        &&& self.base()
        &&& self.lexer.bytes() == old.lexer.bytes()
        &&& self.limits == old.limits
        &&& old.values <= self.values
        &&& old.records <= self.records
        &&& old.entities <= self.entities
        &&& old.sections <= self.sections
        &&& old.symbols.len() <= self.symbols.len()
        &&& old.headers <= self.headers
        &&& old.last_end.offset <= self.last_end.offset
        &&& old.stage() <= self.stage()
    }

    /// Same stream, limits and section; counters and consumed input only grow.
    closed spec fn kept(&self, old: &Parser) -> bool {
        &&& self.base()
        &&& self.lexer.bytes() == old.lexer.bytes()
        &&& self.limits == old.limits
        &&& self.state == old.state
        &&& self.phase == old.phase
        &&& self.headers == old.headers
        &&& old.values <= self.values
        &&& old.records <= self.records
        &&& old.entities <= self.entities
        &&& old.sections <= self.sections
        &&& old.symbols.len() <= self.symbols.len()
        &&& old.last_end.offset <= self.last_end.offset
    }

    /// Starts a parse of `input`. Refuses a nesting limit above the hard cap of 128.
    pub fn new(input: Vec<u8>, limits: ParseLimits) -> (r: Result<Self, Diagnostic>)
        requires
            input@.len() < 0xffff_ffff_ffff_ffff,
        ensures
            r is Err <==> limits.max_nesting_depth > 128,
            r matches Err(d) ==> d.severity == Severity::Error && d.code
                == DiagnosticCode::LimitExceeded && d.entity is None,
            r matches Err(d) ==> d.source_span.start == (SourcePosition { offset: 0, line: 0, column: 0 })
                && d.source_span.end == (SourcePosition { offset: 0, line: 0, column: 0 }),
            r matches Ok(p) ==> {
                &&& p.wf()
                &&& p.bytes() == input@
                &&& p.spec_limits() == limits
                &&& p.stage() == 0
                &&& p.consumed() == 0
                &&& !p.is_done()
                &&& p.headers_seen() == 0
                &&& p.values_used() == 0 && p.records_used() == 0 && p.entities_used() == 0
                &&& p.sections_used() == 0 && p.symbols_used() == 0
            },
    {
        if limits.max_nesting_depth > 128 {
            return Err(
                Diagnostic::error(
                    DiagnosticCode::LimitExceeded,
                    "max_nesting_depth must not exceed the hard safety cap of 128".to_owned(),
                    SourceSpan::default(),
                ),
            );
        }
        let lexer = Lexer::new(input, limits);
        proof {
            lemma_track_bounds(input@, 0);
        }
        Ok(
            Parser {
                lexer,
                lookahead: None,
                limits,
                state: State::Start,
                last_end: SourcePosition::default(),
                symbols: Vec::new(),
                values: 0,
                records: 0,
                entities: 0,
                sections: 0,
                headers: 0,
                phase: 0,
                current_entity: None,
            },
        )
    }

    /// Makes the lookahead token available.
    fn fill(&mut self) -> (r: Result<(), Diagnostic>)
        requires
            old(self).live(),
        ensures
            final(self).kept(old(self)),
            final(self).last_end == old(self).last_end,
            final(self).current_entity == old(self).current_entity,
            r is Ok ==> final(self).live() && final(self).lookahead is Some,
            r matches Err(d) ==> d.severity == Severity::Error,
    {
        if self.lookahead.is_none() {
            let t = self.lexer.next_token()?;
            self.lookahead = Some(t);
        }
        Ok(())
    }

    /// Consumes the next token.
    fn take(&mut self) -> (r: Result<Token, Diagnostic>)
        requires
            old(self).live(),
        ensures
            final(self).kept(old(self)),
            final(self).current_entity == old(self).current_entity,
            r matches Err(d) ==> d.severity == Severity::Error,
            old(self).lookahead matches Some(t0) ==> r == Ok::<Token, Diagnostic>(t0),
            r matches Ok(t) ==> {
                &&& final(self).live()
                &&& final(self).lookahead is None
                &&& token_read(
                    final(self).lexer.bytes(),
                    old(self).last_end.offset as nat,
                    final(self).last_end.offset as nat,
                    t,
                    final(self).limits,
                )
                &&& final(self).last_end == t.source.end
                &&& span_in(t.source, final(self).bytes(), old(self).consumed(), final(self).consumed())
                &&& (t.kind !is Eof ==> old(self).last_end.offset < final(self).last_end.offset)
            },
    {
        let token = match self.lookahead.take() {
            Some(t) => t,
            None => self.lexer.next_token()?,
        };
        proof {
            self.lexer.lemma_bounds();
            lemma_track_bounds(self.lexer.bytes(), self.lexer.offset());
            lemma_track_bounds(self.lexer.bytes(), token.source.start.offset as nat);
        }
        self.last_end = token.source.end;
        Ok(token)
    }

    /// Whether the next token is the payload-free `kind`.
    fn peek_is(&mut self, kind: &TokenKind) -> (r: Result<bool, Diagnostic>)
        requires
            old(self).live(),
            is_punctuation(*kind),
        ensures
            final(self).kept(old(self)),
            final(self).last_end == old(self).last_end,
            final(self).current_entity == old(self).current_entity,
            r matches Err(d) ==> d.severity == Severity::Error,
            r matches Ok(b) ==> {
                &&& final(self).live()
                &&& final(self).lookahead matches Some(t)
                &&& b == (t.kind == *kind)
            },
    {
        self.fill()?;
        match &self.lookahead {
            Some(t) => Ok(same_punctuation(&t.kind, kind)),
            None => Ok(false),
        }
    }

    /// Whether the next token is the keyword `word`.
    fn peek_is_word(&mut self, word: &str) -> (r: Result<bool, Diagnostic>)
        requires
            old(self).live(),
        ensures
            final(self).kept(old(self)),
            final(self).last_end == old(self).last_end,
            final(self).current_entity == old(self).current_entity,
            r matches Err(d) ==> d.severity == Severity::Error,
            r matches Ok(b) ==> {
                &&& final(self).live()
                &&& final(self).lookahead matches Some(t)
                &&& b == (t.kind matches TokenKind::Word(w) && w@ == word@)
            },
    {
        self.fill()?;
        match &self.lookahead {
            Some(t) => match &t.kind {
                TokenKind::Word(w) => Ok(text_is(w, word)),
                _ => Ok(false),
            },
            None => Ok(false),
        }
    }

    /// Source range of the next token.
    fn peek_span(&mut self) -> (r: Result<SourceSpan, Diagnostic>)
        requires
            old(self).live(),
        ensures
            final(self).kept(old(self)),
            final(self).last_end == old(self).last_end,
            final(self).current_entity == old(self).current_entity,
            r matches Err(d) ==> d.severity == Severity::Error,
            r matches Ok(s) ==> {
                &&& final(self).live()
                &&& final(self).lookahead matches Some(t)
                &&& s == t.source
            },
    {
        self.fill()?;
        match &self.lookahead {
            Some(t) => Ok(t.source),
            None => Ok(SourceSpan::default()),
        }
    }

    /// Consumes the payload-free token `kind`, or fails on any other.
    fn expect(&mut self, kind: &TokenKind) -> (r: Result<Token, Diagnostic>)
        requires
            old(self).live(),
            is_punctuation(*kind),
        ensures
            final(self).kept(old(self)),
            final(self).current_entity == old(self).current_entity,
            r matches Err(d) ==> d.severity == Severity::Error,
            r matches Ok(t) ==> {
                &&& final(self).live()
                &&& final(self).lookahead is None
                &&& t.kind == *kind
                &&& final(self).last_end == t.source.end
                &&& span_in(t.source, final(self).bytes(), old(self).consumed(), final(self).consumed())
                &&& (*kind !is Eof ==> old(self).last_end.offset < final(self).last_end.offset)
            },
    {
        let token = self.take()?;
        if same_punctuation(&token.kind, kind) {
            Ok(token)
        } else {
            Err(unexpected(&token, punctuation_name(kind)))
        }
    }

    /// Consumes the keyword `word`, or fails on any other token.
    fn expect_word(&mut self, word: &str) -> (r: Result<Token, Diagnostic>)
        requires
            old(self).live(),
        ensures
            final(self).kept(old(self)),
            final(self).current_entity == old(self).current_entity,
            r matches Err(d) ==> d.severity == Severity::Error,
            r matches Ok(t) ==> {
                &&& final(self).live()
                &&& final(self).lookahead is None
                &&& t.kind matches TokenKind::Word(w) && w@ == word@
                &&& final(self).last_end == t.source.end
                &&& span_in(t.source, final(self).bytes(), old(self).consumed(), final(self).consumed())
                &&& old(self).last_end.offset < final(self).last_end.offset
            },
    {
        let token = self.take()?;
        let matched = match &token.kind {
            TokenKind::Word(w) => text_is(w, word),
            _ => false,
        };
        if matched {
            Ok(token)
        } else {
            Err(unexpected(&token, word))
        }
    }

    /// Fails with a budget error when `count` has reached `maximum`.
    fn limit(&mut self, count: usize, maximum: usize, name: &str) -> (r: Result<(), Diagnostic>)
        requires
            old(self).live(),
        ensures
            count < maximum ==> r is Ok && *final(self) == *old(self),
            count >= maximum ==> r is Err && final(self).kept(old(self)) && final(self).last_end
                == old(self).last_end,
            final(self).current_entity == old(self).current_entity,
            r matches Err(d) ==> d.severity == Severity::Error,
    {
        if count >= maximum {
            let span = self.peek_span()?;
            let mut message = String::new();
            push_str(&mut message, name);
            push_str(&mut message, " budget exceeded");
            Err(Diagnostic::error(DiagnosticCode::LimitExceeded, message, span))
        } else {
            Ok(())
        }
    }

    /// The name `text`, counted once against the symbol budget however often it recurs.
    fn intern(&mut self, text: String, span: SourceSpan) -> (r: Result<String, Diagnostic>)
        requires
            old(self).live(),
        ensures
            final(self).kept(old(self)),
            final(self).live(),
            final(self).last_end == old(self).last_end,
            final(self).lookahead == old(self).lookahead,
            final(self).current_entity == old(self).current_entity,
            r matches Ok(s) ==> s@ == text@,
            r matches Err(d) ==> d.severity == Severity::Error && d.code
                == DiagnosticCode::LimitExceeded,
            r is Err <==> !old(self).has_symbol(text@) && old(self).symbols_used()
                >= old(self).spec_limits().max_symbols,
            r is Ok ==> final(self).has_symbol(text@),
            old(self).has_symbol(text@) ==> final(self).symbols_used() == old(self).symbols_used(),
            !old(self).has_symbol(text@) ==> final(self).symbols_used() == old(self).symbols_used()
                + if r is Ok { 1int } else { 0int },
            forall|t: Seq<char>| old(self).has_symbol(t) ==> #[trigger] final(self).has_symbol(t),
    {
        let mut i: usize = 0;
        while i < self.symbols.len()
            invariant
                *self == *old(self),
                self.live(),
                i <= self.symbols@.len(),
                forall|j: int| 0 <= j < i ==> (#[trigger] self.symbols@[j])@ != text@,
            decreases self.symbols@.len() - i,
        {
            if self.symbols[i] == text {
                return Ok(text);
            }
            i += 1;
        }
        if self.symbols.len() >= self.limits.max_symbols {
            return Err(
                Diagnostic::error(
                    DiagnosticCode::LimitExceeded,
                    "symbol budget exceeded".to_owned(),
                    span,
                ),
            );
        }
        self.symbols.push(text.clone());
        proof {
            let n = self.symbols@.len() - 1;
            assert(self.symbols@[n]@ == text@);
            assert forall|t: Seq<char>| old(self).has_symbol(t) implies #[trigger] self.has_symbol(t) by {
                let j = choose|j: int| 0 <= j < old(self).symbols@.len() && (#[trigger] old(self).symbols@[j])@ == t;
                assert(self.symbols@[j] == old(self).symbols@[j]);
            }
        }
        Ok(text)
    }

    /// A keyword naming a record, and where it starts.
    fn name(&mut self) -> (r: Result<(String, SourcePosition), Diagnostic>)
        requires
            old(self).live(),
        ensures
            final(self).kept(old(self)),
            final(self).current_entity == old(self).current_entity,
            r matches Err(d) ==> d.severity == Severity::Error,
            r matches Ok((name, start)) ==> {
                &&& final(self).live()
                &&& is_keyword(name@)
                &&& old(self).consumed() <= start.offset < final(self).consumed()
                &&& start == position_at(final(self).bytes(), start.offset as nat)
            },
    {
        let token = self.take()?;
        let ok = match &token.kind {
            TokenKind::Word(w) => keyword_text(w.as_str()),
            _ => false,
        };
        if !ok {
            return Err(unexpected(&token, "uppercase STEP keyword"));
        }
        let source = token.source;
        match token.kind {
            TokenKind::Word(w) => {
                let name = self.intern(w, source)?;
                Ok((name, source.start))
            },
            _ => Err(unexpected_parts("keyword", source, "uppercase STEP keyword")),
        }
    }


    /// A parameter value `depth` levels deep; `anchor` selects the anchor-item grammar.
    fn value(&mut self, depth: usize, anchor: bool) -> (r: Result<StepValue, Diagnostic>)
        requires
            old(self).live(),
            depth <= old(self).limits.max_nesting_depth,
        ensures
            final(self).kept(old(self)),
            final(self).current_entity == old(self).current_entity,
            r matches Err(d) ==> d.severity == Severity::Error,
            r matches Ok(v) ==> {
                &&& final(self).live()
                &&& value_ok(v, depth as nat, anchor, final(self).limits)
                &&& span_in(v.source, final(self).bytes(), old(self).consumed(), final(self).consumed())
                &&& v.source.end == final(self).last_end
                &&& old(self).last_end.offset < final(self).last_end.offset
                &&& v.source.start.offset < v.source.end.offset
            },
        decreases old(self).limits.max_nesting_depth - depth, 0int,
    {
        self.limit(depth, self.limits.max_nesting_depth, "nesting depth")?;
        self.limit(self.values, self.limits.max_total_values, "total value")?;
        self.values += 1;
        let token = self.take()?;
        let source = token.source;
        let found = token_label(&token.kind);
        let kind = match token.kind {
            TokenKind::Null => ValueKind::Null,
            TokenKind::Omitted => {
                if anchor {
                    return Err(unexpected_parts(found, source, "parameter"));
                }
                ValueKind::Omitted
            },
            TokenKind::Integer(n) => ValueKind::Integer(n),
            TokenKind::Real(text) => ValueKind::Real(text),
            TokenKind::String(text) => ValueKind::String(text),
            TokenKind::Binary(bits) => ValueKind::Binary(bits),
            TokenKind::Enumeration(text) => ValueKind::Enumeration(self.intern(text, source)?),
            TokenKind::Occurrence(Occurrence::Entity(id)) => ValueKind::Reference(id),
            TokenKind::Occurrence(Occurrence::Value(id)) => ValueKind::ValueReference(id),
            TokenKind::ConstantEntity(text) => ValueKind::ConstantEntity(self.intern(text, source)?),
            TokenKind::ConstantValue(text) => ValueKind::ConstantValue(self.intern(text, source)?),
            TokenKind::Resource(uri) => {
                if !anchor {
                    return Err(unexpected_parts(found, source, "parameter"));
                }
                ValueKind::Resource(uri)
            },
            TokenKind::LeftParen => ValueKind::Aggregate(self.list(depth + 1, anchor)?),
            TokenKind::Word(name) => {
                if anchor || !keyword_text(name.as_str()) {
                    return Err(unexpected_parts(found, source, "parameter"));
                }
                let name = self.intern(name, source)?;
                self.expect(&TokenKind::LeftParen)?;
                let inner = self.value(depth + 1, false)?;
                self.expect(&TokenKind::RightParen)?;
                ValueKind::Typed { name, value: Box::new(inner) }
            },
            _ => {
                return Err(unexpected_parts(found, source, "parameter"));
            },
        };
        Ok(StepValue { kind, source: self.span(source.start) })
    }

    /// The elements of an aggregate whose opening parenthesis has been consumed.
    fn list(&mut self, depth: usize, anchor: bool) -> (r: Result<Vec<StepValue>, Diagnostic>)
        requires
            old(self).live(),
            depth <= old(self).limits.max_nesting_depth,
        ensures
            final(self).kept(old(self)),
            final(self).current_entity == old(self).current_entity,
            r matches Err(d) ==> d.severity == Severity::Error,
            r matches Ok(vs) ==> {
                &&& final(self).live()
                &&& vs@.len() <= final(self).limits.max_aggregate_elements
                &&& forall|i: int|
                    0 <= i < vs@.len() ==> value_ok(#[trigger] vs@[i], depth as nat, anchor, final(self).limits)
                &&& old(self).last_end.offset < final(self).last_end.offset
                &&& in_file_order(vs@)
                &&& forall|i: int|
                    0 <= i < vs@.len() ==> old(self).consumed() <= (#[trigger] vs@[i]).source.start.offset
                        && vs@[i].source.end.offset <= final(self).consumed()
            },
        decreases old(self).limits.max_nesting_depth - depth, 1int,
    {
        let mut values: Vec<StepValue> = Vec::new();
        if self.peek_is(&TokenKind::RightParen)? {
            self.take()?;
            return Ok(values);
        }
        loop
            invariant
                self.live(),
                self.kept(old(self)),
                self.current_entity == old(self).current_entity,
                depth <= self.limits.max_nesting_depth,
                values@.len() <= self.limits.max_aggregate_elements,
                forall|i: int|
                    0 <= i < values@.len() ==> value_ok(#[trigger] values@[i], depth as nat, anchor, self.limits),
                values@.len() > 0 ==> old(self).last_end.offset < self.last_end.offset,
                in_file_order(values@),
                forall|i: int|
                    0 <= i < values@.len() ==> old(self).last_end.offset <= (#[trigger] values@[i]).source.start.offset
                        && values@[i].source.end.offset <= self.last_end.offset,
            decreases self.lexer.bytes().len() - self.last_end.offset,
        {
            proof {
                self.lexer.lemma_bounds();
            }
            self.limit(values.len(), self.limits.max_aggregate_elements, "aggregate element")?;
            let v = self.value(depth, anchor)?;
            values.push(v);
            let separator = self.take()?;
            proof {
                self.lexer.lemma_bounds();
            }
            match &separator.kind {
                TokenKind::RightParen => {
                    return Ok(values);
                },
                TokenKind::Comma => {},
                _ => {
                    return Err(unexpected(&separator, "comma or closing parenthesis"));
                },
            }
        }
    }


    /// A record `NAME(parameters)`.
    fn record(&mut self) -> (r: Result<Record, Diagnostic>)
        requires
            old(self).live(),
        ensures
            final(self).kept(old(self)),
            final(self).current_entity == old(self).current_entity,
            r matches Err(d) ==> d.severity == Severity::Error,
            r matches Ok(rec) ==> {
                &&& final(self).live()
                &&& record_ok(rec, final(self).limits)
                &&& span_in(rec.source, final(self).bytes(), old(self).consumed(), final(self).consumed())
                &&& rec.source.end == final(self).last_end
                &&& old(self).last_end.offset < final(self).last_end.offset
                &&& old(self).records < final(self).records
            },
    {
        self.limit(self.records, self.limits.max_records, "record")?;
        self.records += 1;
        let (name, start) = self.name()?;
        self.expect(&TokenKind::LeftParen)?;
        let parameters = self.list(0, false)?;
        Ok(Record { name, parameters, source: self.span(start) })
    }

    /// An entity instance `#n = record;` or `#n = (record record ...);`.
    fn entity(&mut self) -> (r: Result<EntityInstance, Diagnostic>)
        requires
            old(self).live(),
        ensures
            final(self).kept(old(self)),
            r matches Err(d) ==> d.severity == Severity::Error,
            r matches Ok(e) ==> {
                &&& final(self).live()
                &&& final(self).current_entity is None
                &&& entity_ok(e, final(self).limits)
                &&& span_in(e.source, final(self).bytes(), old(self).consumed(), final(self).consumed())
                &&& old(self).last_end.offset < final(self).last_end.offset
            },
    {
        self.limit(self.entities, self.limits.max_entities, "entity")?;
        self.entities += 1;
        let token = self.take()?;
        let id = match &token.kind {
            TokenKind::Occurrence(Occurrence::Entity(id)) => *id,
            _ => {
                return Err(unexpected(&token, "entity instance identifier"));
            },
        };
        self.current_entity = Some(id);
        self.expect(&TokenKind::Equals)?;
        let kind = if self.peek_is(&TokenKind::LeftParen)? {
            self.take()?;
            let mut records: Vec<Record> = Vec::new();
            loop
                invariant
                    self.live(),
                    self.kept(old(self)),
                    old(self).last_end.offset < self.last_end.offset,
                    token.source.start.offset <= self.last_end.offset,
                    records@.len() <= self.limits.max_aggregate_elements,
                    forall|i: int| 0 <= i < records@.len() ==> record_ok(#[trigger] records@[i], self.limits),
                    forall|i: int, j: int|
                        0 <= i < j < records@.len() ==> (#[trigger] records@[i]).name@
                            != (#[trigger] records@[j]).name@,
                decreases self.lexer.bytes().len() - self.last_end.offset,
            {
                proof {
                    self.lexer.lemma_bounds();
                }
                if self.peek_is(&TokenKind::RightParen)? {
                    break;
                }
                self.limit(records.len(), self.limits.max_aggregate_elements, "complex component")?;
                let record = self.record()?;
                if has_name(&records, &record.name) {
                    return Err(
                        Diagnostic::error(
                            DiagnosticCode::InvalidComplexInstance,
                            "duplicate complex component".to_owned(),
                            record.source,
                        ),
                    );
                }
                records.push(record);
                proof {
                    self.lexer.lemma_bounds();
                }
            }
            self.take()?;
            if records.len() == 0 {
                return Err(
                    Diagnostic::error(
                        DiagnosticCode::InvalidComplexInstance,
                        "complex instance must contain a record".to_owned(),
                        self.span(token.source.start),
                    ),
                );
            }
            EntityKind::Complex(records)
        } else {
            EntityKind::Simple(self.record()?)
        };
        self.expect(&TokenKind::Semicolon)?;
        let entity = EntityInstance { id, kind, source: self.span(token.source.start) };
        self.current_entity = None;
        Ok(entity)
    }

    /// An anchor item `<name> = value {tag: value} ... ;`.
    fn anchor(&mut self) -> (r: Result<Anchor, Diagnostic>)
        requires
            old(self).live(),
        ensures
            final(self).kept(old(self)),
            final(self).current_entity == old(self).current_entity,
            r matches Err(d) ==> d.severity == Severity::Error,
            r matches Ok(a) ==> {
                &&& final(self).live()
                &&& anchor_ok(a, final(self).limits)
                &&& span_in(a.source, final(self).bytes(), old(self).consumed(), final(self).consumed())
                &&& old(self).last_end.offset < final(self).last_end.offset
            },
    {
        self.limit(self.records, self.limits.max_records, "record")?;
        self.records += 1;
        let token = self.take()?;
        let source = token.source;
        let found = token_label(&token.kind);
        let name = match token.kind {
            TokenKind::Resource(name) => name,
            _ => {
                return Err(unexpected_parts(found, source, "anchor name"));
            },
        };
        if !fragment_valid(name.as_str().as_bytes()) {
            return Err(
                Diagnostic::error(
                    DiagnosticCode::InvalidIdentifier,
                    "invalid anchor fragment identifier".to_owned(),
                    source,
                ),
            );
        }
        self.expect(&TokenKind::Equals)?;
        let value = self.value(0, true)?;
        let mut tags: Vec<(String, StepValue)> = Vec::new();
        loop
            invariant
                self.live(),
                self.kept(old(self)),
                self.current_entity == old(self).current_entity,
                old(self).last_end.offset < self.last_end.offset,
                source.start.offset <= self.last_end.offset,
                tags@.len() <= self.limits.max_aggregate_elements,
                forall|i: int|
                    0 <= i < tags@.len() ==> tag_name_ok(encode_utf8((#[trigger] tags@[i]).0@))
                        && value_ok(tags@[i].1, 0, true, self.limits),
            decreases self.lexer.bytes().len() - self.last_end.offset,
        {
            proof {
                self.lexer.lemma_bounds();
            }
            if !self.peek_is(&TokenKind::LeftBrace)? {
                break;
            }
            self.limit(tags.len(), self.limits.max_aggregate_elements, "anchor tag")?;
            self.take()?;
            let tag = self.take()?;
            let tag_source = tag.source;
            let tag_found = token_label(&tag.kind);
            let tag_name = match tag.kind {
                TokenKind::Word(w) => w,
                _ => {
                    return Err(unexpected_parts(tag_found, tag_source, "tag name"));
                },
            };
            if !tag_name_valid(tag_name.as_str().as_bytes()) {
                return Err(
                    Diagnostic::error(
                        DiagnosticCode::InvalidIdentifier,
                        "invalid tag name".to_owned(),
                        tag_source,
                    ),
                );
            }
            self.expect(&TokenKind::Colon)?;
            let tag_value = self.value(0, true)?;
            self.expect(&TokenKind::RightBrace)?;
            tags.push((tag_name, tag_value));
            proof {
                self.lexer.lemma_bounds();
            }
        }
        self.expect(&TokenKind::Semicolon)?;
        Ok(Anchor { name, value, tags, source: self.span(source.start) })
    }

    /// An external reference `#n = <uri>;` or `@n = <uri>;`.
    fn external_reference(&mut self) -> (r: Result<ExternalReference, Diagnostic>)
        requires
            old(self).live(),
        ensures
            final(self).kept(old(self)),
            final(self).current_entity == old(self).current_entity,
            r matches Err(d) ==> d.severity == Severity::Error,
            r matches Ok(x) ==> {
                &&& final(self).live()
                &&& span_in(x.source, final(self).bytes(), old(self).consumed(), final(self).consumed())
                &&& old(self).last_end.offset < final(self).last_end.offset
            },
    {
        self.limit(self.records, self.limits.max_records, "record")?;
        self.records += 1;
        let token = self.take()?;
        let id = match &token.kind {
            TokenKind::Occurrence(id) => *id,
            _ => {
                return Err(unexpected(&token, "occurrence identifier"));
            },
        };
        self.expect(&TokenKind::Equals)?;
        let resource = self.take()?;
        let resource_source = resource.source;
        let found = token_label(&resource.kind);
        let uri = match resource.kind {
            TokenKind::Resource(uri) => uri,
            _ => {
                return Err(unexpected_parts(found, resource_source, "resource URI"));
            },
        };
        self.expect(&TokenKind::Semicolon)?;
        Ok(ExternalReference { id, resource: uri, source: self.span(token.source.start) })
    }


    /// Counts one section against `max_sections`.
    fn section_budget(&mut self) -> (r: Result<(), Diagnostic>)
        requires
            old(self).live(),
        ensures
            final(self).kept(old(self)),
            final(self).last_end == old(self).last_end,
            final(self).current_entity == old(self).current_entity,
            r is Ok ==> final(self).live() && final(self).lookahead == old(self).lookahead,
            r matches Err(d) ==> d.severity == Severity::Error,
            r is Err <==> old(self).sections_used() >= old(self).spec_limits().max_sections,
            r is Ok ==> final(self).sections_used() == old(self).sections_used() + 1,
    {
        self.limit(self.sections, self.limits.max_sections, "section")?;
        self.sections += 1;
        Ok(())
    }

    /// Outcome of one step of the section machine from `old`: an error, an event,
    /// or no event yet, after consuming input or reaching the end.
    closed spec fn stepped(&self, old: &Parser, r: Result<Option<Event>, Diagnostic>) -> bool {
        &&& self.advanced(old)
        &&& (r matches Err(d) ==> d.severity == Severity::Error)
        &&& (r matches Ok(None) ==> {
            &&& self.wf()
            &&& self.headers == old.headers
            &&& (self.state == State::Done || old.last_end.offset < self.last_end.offset)
            &&& (self.state == State::Done ==> self.headers >= 3)
        })
        &&& (r matches Ok(Some(e)) ==> {
            &&& self.wf()
            &&& self.state != State::Done
            &&& old.last_end.offset < self.last_end.offset
            &&& event_ok(e, old.headers as nat, self.limits)
            &&& event_stage(e) == self.stage()
            &&& span_in(event_span(e), self.bytes(), old.consumed(), self.consumed())
            &&& self.headers == old.headers + (if e is Header {
                1int
            } else {
                0int
            })
        })
    }

    /// `ISO-10303-21; HEADER;`
    fn start_step(&mut self) -> (r: Result<Option<Event>, Diagnostic>)
        requires
            old(self).wf(),
            old(self).state == State::Start,
        ensures
            final(self).stepped(old(self), r),
            r is Ok ==> r == Ok::<Option<Event>, Diagnostic>(None),
    {
        self.expect_word("ISO-10303-21")?;
        self.expect(&TokenKind::Semicolon)?;
        self.expect_word("HEADER")?;
        self.expect(&TokenKind::Semicolon)?;
        self.section_budget()?;
        self.state = State::Header;
        Ok(None)
    }

    /// A header record, or the end of the header.
    fn header_step(&mut self) -> (r: Result<Option<Event>, Diagnostic>)
        requires
            old(self).wf(),
            old(self).state == State::Header,
        ensures
            final(self).stepped(old(self), r),
    {
        if self.peek_is_word("ENDSEC")? {
            let token = self.take()?;
            self.expect(&TokenKind::Semicolon)?;
            if self.headers < 3 {
                return Err(
                    Diagnostic::error(
                        DiagnosticCode::InvalidHeader,
                        "three required header records are missing".to_owned(),
                        token.source,
                    ),
                );
            }
            self.state = State::Sections;
            Ok(None)
        } else {
            let record = self.record()?;
            self.expect(&TokenKind::Semicolon)?;
            validate_header(&record, self.headers)?;
            self.headers += 1;
            Ok(Some(Event::Header(record)))
        }
    }

    /// A section keyword or the end of the exchange structure.
    fn sections_step(&mut self) -> (r: Result<Option<Event>, Diagnostic>)
        requires
            old(self).wf(),
            old(self).state == State::Sections,
        ensures
            final(self).stepped(old(self), r),
    {
        let token = self.take()?;
        let (is_anchor, is_reference, is_data, is_end) = match &token.kind {
            TokenKind::Word(w) => (
                text_is(w, "ANCHOR"),
                text_is(w, "REFERENCE"),
                text_is(w, "DATA"),
                text_is(w, "END-ISO-10303-21"),
            ),
            _ => (false, false, false, false),
        };
        if is_anchor && self.phase == 0 {
            self.section_budget()?;
            self.expect(&TokenKind::Semicolon)?;
            self.phase = 1;
            self.state = State::Anchors;
            Ok(None)
        } else if is_reference && self.phase <= 1 {
            self.section_budget()?;
            self.expect(&TokenKind::Semicolon)?;
            self.phase = 2;
            self.state = State::References;
            Ok(None)
        } else if is_data {
            self.section_budget()?;
            self.phase = 3;
            let parameters = if self.peek_is(&TokenKind::LeftParen)? {
                self.take()?;
                let params = self.list(0, false)?;
                if params.len() == 0 {
                    return Err(
                        Diagnostic::error(
                            DiagnosticCode::UnexpectedToken,
                            "DATA() requires parameters".to_owned(),
                            self.span(token.source.start),
                        ),
                    );
                }
                params
            } else {
                Vec::new()
            };
            self.expect(&TokenKind::Semicolon)?;
            self.state = State::Data;
            Ok(Some(Event::StartData { parameters, source: self.span(token.source.start) }))
        } else if is_end {
            self.expect(&TokenKind::Semicolon)?;
            self.state = State::Signatures;
            Ok(Some(Event::EndExchange(self.span(token.source.start))))
        } else {
            Err(unexpected(&token, "ordered ANCHOR, REFERENCE, DATA, or exchange terminator"))
        }
    }

    /// An item of the anchor, reference or data section, or the end of the section.
    fn body_step(&mut self) -> (r: Result<Option<Event>, Diagnostic>)
        requires
            old(self).wf(),
            old(self).state == State::Anchors || old(self).state == State::References
                || old(self).state == State::Data,
        ensures
            final(self).stepped(old(self), r),
    {
        if self.peek_is_word("ENDSEC")? {
            let token = self.take()?;
            self.expect(&TokenKind::Semicolon)?;
            let data = self.state == State::Data;
            self.state = State::Sections;
            if data {
                Ok(Some(Event::EndData(self.span(token.source.start))))
            } else {
                Ok(None)
            }
        } else if self.state == State::Anchors {
            let anchor = self.anchor()?;
            Ok(Some(Event::Anchor(anchor)))
        } else if self.state == State::References {
            let reference = self.external_reference()?;
            Ok(Some(Event::ExternalReference(reference)))
        } else {
            let entity = self.entity()?;
            Ok(Some(Event::Entity(entity)))
        }
    }

    /// A signature section after the exchange structure, or the end of the input.
    fn signature_step(&mut self) -> (r: Result<Option<Event>, Diagnostic>)
        requires
            old(self).wf(),
            old(self).state == State::Signatures,
        ensures
            final(self).stepped(old(self), r),
            r matches Ok(None) ==> final(self).state == State::Done,
    {
        let found = self.lexer.next_signature()?;
        match found {
            None => {
                self.state = State::Done;
                Ok(None)
            },
            Some(signature) => {
                if self.sections >= self.limits.max_sections {
                    return Err(
                        Diagnostic::error(
                            DiagnosticCode::LimitExceeded,
                            "section budget exceeded".to_owned(),
                            signature.source,
                        ),
                    );
                }
                self.sections += 1;
                proof {
                    self.lexer.lemma_bounds();
                    lemma_track_bounds(self.lexer.bytes(), self.lexer.offset());
                    lemma_track_bounds(self.lexer.bytes(), signature.source.start.offset as nat);
                }
                proof {
                    let start = signature.source.start.offset as int;
                    let end = self.lexer.offset() as int;
                    if end <= start {
                        assert(visible(self.lexer.bytes(), start, end) =~= Seq::<u8>::empty());
                    }
                }
                self.last_end = signature.source.end;
                Ok(Some(Event::Signature(signature)))
            },
        }
    }

    /// The next event, `None` once the input is exhausted after the exchange structure.
    fn event(&mut self) -> (r: Result<Option<Event>, Diagnostic>)
        requires
            old(self).wf(),
            old(self).state != State::Done,
        ensures
            final(self).stepped(old(self), r),
            r matches Ok(None) ==> final(self).state == State::Done,
    {
        loop
            invariant
                self.wf(),
                self.advanced(old(self)),
                self.state != State::Done,
                self.headers == old(self).headers,
            decreases self.lexer.bytes().len() - self.last_end.offset,
        {
            proof {
                self.lexer.lemma_bounds();
            }
            let ghost before = *self;
            let step = match self.state {
                State::Start => self.start_step(),
                State::Header => self.header_step(),
                State::Sections => self.sections_step(),
                State::Signatures => self.signature_step(),
                State::Done => Ok(None),
                _ => self.body_step(),
            };
            proof {
                self.lexer.lemma_bounds();
            }
            match step {
                Ok(None) => {
                    if self.state == State::Done {
                        return Ok(None);
                    }
                },
                other => {
                    return other;
                },
            }
        }
    }

    /// The next event of the exchange structure. After an error, or once the input
    /// is exhausted, every further call returns `None`.
    pub fn next(&mut self) -> (r: Option<Result<Event, Diagnostic>>)
        requires
            old(self).wf(),
        ensures
            final(self).wf(),
            final(self).bytes() == old(self).bytes(),
            final(self).spec_limits() == old(self).spec_limits(),
            final(self).within_budgets(),
            old(self).stage() <= final(self).stage(),
            old(self).consumed() <= final(self).consumed(),
            final(self).consumed() <= final(self).bytes().len(),
            old(self).values_used() <= final(self).values_used(),
            old(self).records_used() <= final(self).records_used(),
            old(self).entities_used() <= final(self).entities_used(),
            old(self).sections_used() <= final(self).sections_used(),
            old(self).symbols_used() <= final(self).symbols_used(),
            old(self).is_done() ==> r is None && *final(self) == *old(self),
            r is None ==> final(self).is_done(),
            r is None && !old(self).is_done() ==> final(self).headers_seen() >= 3,
            r is None ==> final(self).headers_seen() == old(self).headers_seen(),
            r matches Some(Err(d)) ==> final(self).is_done() && d.severity == Severity::Error,
            r matches Some(Ok(e)) ==> {
                &&& !final(self).is_done()
                &&& old(self).consumed() < final(self).consumed()
                &&& event_ok(e, old(self).headers_seen(), final(self).spec_limits())
                &&& event_stage(e) == final(self).stage()
                &&& span_in(event_span(e), final(self).bytes(), old(self).consumed(), final(self).consumed())
                &&& final(self).headers_seen() == old(self).headers_seen() + (if e is Header {
                    1int
                } else {
                    0int
                })
                &&& (e !is Header ==> final(self).headers_seen() >= 3)
            },
    {
        proof {
            self.lexer.lemma_bounds();
        }
        if self.state == State::Done {
            return None;
        }
        let result = self.event();
        proof {
            self.lexer.lemma_bounds();
        }
        match result {
            Ok(Some(event)) => Some(Ok(event)),
            Ok(None) => None,
            Err(d) => {
                let mut diagnostic = d;
                self.state = State::Done;
                diagnostic.entity = self.current_entity;
                Some(Err(diagnostic))
            },
        }
    }

    /// The span from `start` to the end of the consumed input.
    fn span(&self, start: SourcePosition) -> (r: SourceSpan)
        ensures
            r == (SourceSpan { start, end: self.last_end }),
    {
        SourceSpan { start, end: self.last_end }
    }
}

/// Events arrive in file order. If a call of `next` returned `e1` and left the
/// parser with `c1` bytes consumed in stage `s1`, and a later call, starting with
/// at least `c1` bytes consumed, returned `e2` and left the parser in stage `s2`
/// (stages never decrease between calls), then `e2` belongs to the same or a
/// later part of the file (header, anchors, references, data, end and
/// signatures), and its source range starts where `e1`'s ends or later.
pub proof fn lemma_events_in_file_order(
    input: Seq<u8>,
    e1: Event,
    e2: Event,
    from1: nat,
    c1: nat,
    from2: nat,
    c2: nat,
    s1: nat,
    s2: nat,
)
    requires
        event_stage(e1) == s1,
        event_stage(e2) == s2,
        s1 <= s2,
        span_in(event_span(e1), input, from1, c1),
        span_in(event_span(e2), input, from2, c2),
        c1 <= from2,
    ensures
        event_stage(e1) <= event_stage(e2),
        event_span(e1).end.offset <= event_span(e2).start.offset,
{
}

} // verus!
