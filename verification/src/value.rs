//! Physical identifiers and parsed parameter values.
use vstd::prelude::*;
use crate::diagnostic::SourceSpan;

verus! {

/// Physical-file entity identifier (`#n`, n nonzero), independent of storage slots.
#[derive(Debug, Clone, Copy, PartialEq, Eq, Structural, PartialOrd, Ord, Hash)]
pub struct EntityId {
    value: u64,
}

impl EntityId {
    #[verifier::type_invariant]
    spec fn nonzero(self) -> bool {
        self.value != 0
    }

    /// The occurrence number.
    pub closed spec fn number(self) -> u64 {
        self.value
    }

    /// `Some` exactly for nonzero numbers.
    pub fn new(value: u64) -> (r: Option<Self>)
        ensures
            r is Some <==> value != 0,
            r matches Some(id) ==> id.number() == value,
    {
        if value == 0 {
            None
        } else {
            Some(EntityId { value })
        }
    }

    pub fn get(self) -> (r: u64)
        ensures
            r == self.number(),
            r != 0,
    {
        proof {
            use_type_invariant(self);
        }
        self.value
    }

    /// Identifiers are equal exactly when their numbers are.
    pub proof fn lemma_number_injective(a: EntityId, b: EntityId)
        ensures
            (a.number() == b.number()) == (a == b),
    {
    }

    pub fn same(self, other: EntityId) -> (r: bool)
        ensures
            r == (self == other),
    {
        self.value == other.value
    }
}

/// Value instance identifier (`@n`, n nonzero).
#[derive(Debug, Clone, Copy, PartialEq, Eq, Structural, PartialOrd, Ord, Hash)]
pub struct ValueId {
    value: u64,
}

impl ValueId {
    #[verifier::type_invariant]
    spec fn nonzero(self) -> bool {
        self.value != 0
    }

    pub closed spec fn number(self) -> u64 {
        self.value
    }

    pub fn new(value: u64) -> (r: Option<Self>)
        ensures
            r is Some <==> value != 0,
            r matches Some(id) ==> id.number() == value,
    {
        if value == 0 {
            None
        } else {
            Some(ValueId { value })
        }
    }

    pub fn get(self) -> (r: u64)
        ensures
            r == self.number(),
            r != 0,
    {
        proof {
            use_type_invariant(self);
        }
        self.value
    }
}

/// An entity or value instance name.
#[derive(Debug, Clone, Copy, PartialEq, Eq, Structural, PartialOrd, Ord)]
pub enum Occurrence {
    Entity(EntityId),
    Value(ValueId),
}

impl Occurrence {
    pub open spec fn spec_number(self) -> u64 {
        match self {
            Occurrence::Entity(id) => id.number(),
            Occurrence::Value(id) => id.number(),
        }
    }

    pub fn number(self) -> (r: u64)
        ensures
            r == self.spec_number(),
    {
        match self {
            Occurrence::Entity(id) => id.get(),
            Occurrence::Value(id) => id.get(),
        }
    }
}

/// Exact binary payload, including non-byte-aligned lengths. Bits are packed
/// most-significant-bit first, with zero padding at the end of the last byte.
#[derive(Debug, Clone, PartialEq, Eq)]
pub struct BinaryValue {
    pub bytes: Vec<u8>,
    pub bit_len: usize,
}

/// Names of records, enumerations and constants.
pub type Symbol = String;

#[derive(Debug, PartialEq)]
pub struct StepValue {
    pub kind: ValueKind,
    pub source: SourceSpan,
}

#[derive(Debug, PartialEq)]
pub enum ValueKind {
    Null,
    Omitted,
    Integer(i64),
    /// Lexical text of a real literal, checked against the real syntax.
    Real(String),
    String(String),
    Binary(BinaryValue),
    Enumeration(Symbol),
    Reference(EntityId),
    ValueReference(ValueId),
    ConstantEntity(Symbol),
    ConstantValue(Symbol),
    Aggregate(Vec<StepValue>),
    Typed { name: Symbol, value: Box<StepValue> },
    /// Permitted in anchor items, never in ordinary entity parameters.
    Resource(String),
}

#[derive(Debug, PartialEq)]
pub struct Record {
    pub name: Symbol,
    pub parameters: Vec<StepValue>,
    pub source: SourceSpan,
}

#[derive(Debug, PartialEq)]
pub enum EntityKind {
    Simple(Record),
    Complex(Vec<Record>),
}

impl EntityKind {
    pub open spec fn spec_records(self) -> Seq<Record> {
        match self {
            EntityKind::Simple(r) => seq![r],
            EntityKind::Complex(rs) => rs@,
        }
    }

    /// The records of the instance: one for a simple instance, the components of a complex one.
    pub fn records(&self) -> (r: &[Record])
        ensures
            r@ == self.spec_records(),
    {
        match self {
            EntityKind::Simple(record) => one_element(record),
            EntityKind::Complex(records) => records.as_slice(),
        }
    }
}

#[derive(Debug, PartialEq)]
pub struct EntityInstance {
    pub id: EntityId,
    pub kind: EntityKind,
    pub source: SourceSpan,
}

#[derive(Debug, PartialEq)]
pub struct Anchor {
    pub name: String,
    pub value: StepValue,
    pub tags: Vec<(String, StepValue)>,
    pub source: SourceSpan,
}

#[derive(Debug, Clone, PartialEq, Eq)]
pub struct ExternalReference {
    pub id: Occurrence,
    pub resource: String,
    pub source: SourceSpan,
}

#[derive(Debug, Clone, PartialEq, Eq)]
pub struct Signature {
    pub base64: String,
    pub source: SourceSpan,
}

/// A slice of length one that borrows `x`, via `std::slice::from_ref`.
#[verifier::external_body]
fn one_element<T>(x: &T) -> (r: &[T])
    ensures
        r@ == seq![*x],
{
    std::slice::from_ref(x)
}

} // verus!
