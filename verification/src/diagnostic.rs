//! Positions, spans and structured diagnostics.
use vstd::prelude::*;
use crate::value::EntityId;
use crate::text::{decimal_text, push_decimal, push_str};

verus! {

/// Byte offsets are zero-based; lines and byte columns are one-based.
#[derive(Debug, Clone, Copy, PartialEq, Eq, Structural)]
pub struct SourcePosition {
    pub offset: u64,
    pub line: u64,
    pub column: u64,
}

impl SourcePosition {
    pub open spec fn start() -> SourcePosition {
        SourcePosition { offset: 0, line: 1, column: 1 }
    }
}

impl Default for SourcePosition {
    fn default() -> (r: Self)
        ensures
            r == SourcePosition::start(),
    {
        SourcePosition { offset: 0, line: 1, column: 1 }
    }
}

/// Half-open range in the original byte stream.
#[derive(Debug, Clone, Copy, PartialEq, Eq, Structural)]
pub struct SourceSpan {
    pub start: SourcePosition,
    pub end: SourcePosition,
}

impl Default for SourceSpan {
    fn default() -> (r: Self)
        ensures
            r.start == (SourcePosition { offset: 0, line: 0, column: 0 }),
            r.end == (SourcePosition { offset: 0, line: 0, column: 0 }),
    {
        let zero = SourcePosition { offset: 0, line: 0, column: 0 };
        SourceSpan { start: zero, end: zero }
    }
}

#[derive(Debug, Clone, Copy, PartialEq, Eq, Structural)]
pub enum Severity {
    Error,
    Warning,
}

#[derive(Debug, Clone, Copy, PartialEq, Eq, Structural)]
pub enum DiagnosticCode {
    Io,
    UnexpectedToken,
    InvalidCharacter,
    UnterminatedComment,
    UnterminatedString,
    InvalidEscape,
    InvalidNumber,
    NumericRange,
    InvalidBinary,
    InvalidIdentifier,
    InvalidHeader,
    InvalidComplexInstance,
    DuplicateId,
    DuplicateAnchor,
    MissingReference,
    ExternalReference,
    SignatureUnverified,
    InvalidSignature,
    LimitExceeded,
    UnsupportedFeature,
}

impl DiagnosticCode {
    /// The stable numeric code of the diagnostic, as printed after `TS`.
    pub open spec fn spec_number(self) -> u32 {
        match self {
            DiagnosticCode::Io => 1001,
            DiagnosticCode::UnexpectedToken => 1002,
            DiagnosticCode::InvalidCharacter => 1003,
            DiagnosticCode::UnterminatedComment => 1004,
            DiagnosticCode::UnterminatedString => 1005,
            DiagnosticCode::InvalidEscape => 1006,
            DiagnosticCode::InvalidNumber => 1007,
            DiagnosticCode::NumericRange => 1008,
            DiagnosticCode::InvalidBinary => 1009,
            DiagnosticCode::InvalidIdentifier => 1010,
            DiagnosticCode::InvalidHeader => 1011,
            DiagnosticCode::InvalidComplexInstance => 1012,
            DiagnosticCode::DuplicateId => 1101,
            DiagnosticCode::DuplicateAnchor => 1102,
            DiagnosticCode::MissingReference => 1103,
            DiagnosticCode::ExternalReference => 1104,
            DiagnosticCode::SignatureUnverified => 1105,
            DiagnosticCode::InvalidSignature => 1013,
            DiagnosticCode::LimitExceeded => 1201,
            DiagnosticCode::UnsupportedFeature => 1301,
        }
    }

    /// Decimal digits of a four-digit number, as characters.
    pub open spec fn digits(n: u32) -> Seq<char> {
        seq![
            ((n / 1000) % 10 + 48) as char,
            ((n / 100) % 10 + 48) as char,
            ((n / 10) % 10 + 48) as char,
            (n % 10 + 48) as char,
        ]
    }

    /// The printed code: `TS` followed by the four digits of the number.
    pub open spec fn spec_text(self) -> Seq<char> {
        seq!['T', 'S'] + Self::digits(self.spec_number())
    }

    pub fn as_str(self) -> (r: &'static str)
        ensures
            r@ == self.spec_text(),
    {
        let r = match self {
            DiagnosticCode::Io => "TS1001",
            DiagnosticCode::UnexpectedToken => "TS1002",
            DiagnosticCode::InvalidCharacter => "TS1003",
            DiagnosticCode::UnterminatedComment => "TS1004",
            DiagnosticCode::UnterminatedString => "TS1005",
            DiagnosticCode::InvalidEscape => "TS1006",
            DiagnosticCode::InvalidNumber => "TS1007",
            DiagnosticCode::NumericRange => "TS1008",
            DiagnosticCode::InvalidBinary => "TS1009",
            DiagnosticCode::InvalidIdentifier => "TS1010",
            DiagnosticCode::InvalidHeader => "TS1011",
            DiagnosticCode::InvalidComplexInstance => "TS1012",
            DiagnosticCode::DuplicateId => "TS1101",
            DiagnosticCode::DuplicateAnchor => "TS1102",
            DiagnosticCode::MissingReference => "TS1103",
            DiagnosticCode::ExternalReference => "TS1104",
            DiagnosticCode::SignatureUnverified => "TS1105",
            DiagnosticCode::InvalidSignature => "TS1013",
            DiagnosticCode::LimitExceeded => "TS1201",
            DiagnosticCode::UnsupportedFeature => "TS1301",
        };
        proof {
            reveal_strlit("TS1001");
            reveal_strlit("TS1002");
            reveal_strlit("TS1003");
            reveal_strlit("TS1004");
            reveal_strlit("TS1005");
            reveal_strlit("TS1006");
            reveal_strlit("TS1007");
            reveal_strlit("TS1008");
            reveal_strlit("TS1009");
            reveal_strlit("TS1010");
            reveal_strlit("TS1011");
            reveal_strlit("TS1012");
            reveal_strlit("TS1101");
            reveal_strlit("TS1102");
            reveal_strlit("TS1103");
            reveal_strlit("TS1104");
            reveal_strlit("TS1105");
            reveal_strlit("TS1013");
            reveal_strlit("TS1201");
            reveal_strlit("TS1301");
            assert(r@ =~= self.spec_text());
        }
        r
    }
}

#[derive(Debug, Clone, PartialEq, Eq)]
pub struct Diagnostic {
    pub severity: Severity,
    pub code: DiagnosticCode,
    pub message: String,
    pub entity: Option<EntityId>,
    pub source_span: SourceSpan,
}

impl Diagnostic {
    /// An error with no owning entity.
    pub fn error(code: DiagnosticCode, message: String, source_span: SourceSpan) -> (r: Self)
        ensures
            r.severity == Severity::Error,
            r.code == code,
            r.message@ == message@,
            r.entity is None,
            r.source_span == source_span,
    {
        Diagnostic { severity: Severity::Error, code, message, entity: None, source_span }
    }

    /// A warning with no owning entity.
    pub fn warning(code: DiagnosticCode, message: String, source_span: SourceSpan) -> (r: Self)
        ensures
            r.severity == Severity::Warning,
            r.code == code,
            r.message@ == message@,
            r.entity is None,
            r.source_span == source_span,
    {
        Diagnostic { severity: Severity::Warning, code, message, entity: None, source_span }
    }

    /// The printed form: code, severity, start line and column, then the message.
    pub fn describe(&self) -> (r: String)
        ensures
            r@ == diagnostic_text(*self),
    {
        let mut s = String::new();
        push_str(&mut s, self.code.as_str());
        push_str(&mut s, " ");
        match self.severity {
            Severity::Error => push_str(&mut s, "Error"),
            Severity::Warning => push_str(&mut s, "Warning"),
        }
        push_str(&mut s, " at ");
        push_decimal(&mut s, self.source_span.start.line);
        push_str(&mut s, ":");
        push_decimal(&mut s, self.source_span.start.column);
        push_str(&mut s, ": ");
        push_str(&mut s, self.message.as_str());
        s
    }
}

/// The printed form of a diagnostic: its code, its severity, the line and
/// column where it starts, then its message.
pub open spec fn diagnostic_text(d: Diagnostic) -> Seq<char> {
    d.code.spec_text() + " "@ + (if d.severity == Severity::Error {
        "Error"@
    } else {
        "Warning"@
    }) + " at "@ + decimal_text(d.source_span.start.line as nat) + ":"@ + decimal_text(
        d.source_span.start.column as nat,
    ) + ": "@ + d.message@
}

} // verus!
