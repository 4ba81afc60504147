//! Immutable schema reflection and typed entity references.
//!
//! Metadata preserves EXPRESS constraints as source, without evaluating them.
//! Typed references describe an intended entity type; they do not prove existence
//! or schema compatibility in a physical document. IDs are local to a schema set.
use vstd::prelude::*;
use std::marker::PhantomData;
use vstd::utf8::encode_utf8;

verus! {

#[derive(Clone, Copy, Debug, PartialEq, Eq, Structural, PartialOrd, Ord)]
pub struct DeclarationId(pub usize);

/// Implemented by generated entity records. Records are unchecked owned data.
pub trait EntityBinding {
    const DECLARATION: DeclarationId;
}

/// Generated for direct inheritance edges. Upcasts can be chained.
pub trait SubtypeOf<T: EntityBinding>: EntityBinding {
}

/// A nonzero physical occurrence number, with no document ownership or lookup.
#[derive(Debug)]
pub struct EntityRef<T: EntityBinding> {
    id: u64,
    marker: PhantomData<T>,
}

impl<T: EntityBinding> EntityRef<T> {
    #[verifier::type_invariant]
    spec fn nonzero(self) -> bool {
        self.id != 0
    }

    /// The occurrence number.
    pub closed spec fn number(self) -> u64 {
        self.id
    }

    pub fn new(id: u64) -> (r: Self)
        requires
            id != 0,
        ensures
            r.number() == id,
    {
        EntityRef { id, marker: PhantomData }
    }

    pub fn id(self) -> (r: u64)
        ensures
            r == self.number(),
            r != 0,
    {
        proof {
            use_type_invariant(self);
        }
        self.id
    }

    /// The same occurrence, typed as a supertype.
    pub fn upcast<U: EntityBinding>(self) -> (r: EntityRef<U>) where T: SubtypeOf<U>
        ensures
            r.number() == self.number(),
    {
        proof {
            use_type_invariant(self);
        }
        EntityRef::new(self.id)
    }
}

impl<T: EntityBinding> Clone for EntityRef<T> {
    fn clone(&self) -> (r: Self)
        ensures
            r.number() == self.number(),
    {
        proof {
            use_type_invariant(self);
        }
        EntityRef { id: self.id, marker: PhantomData }
    }
}

impl<T: EntityBinding> Copy for EntityRef<T> {
}

/// Two references are equal when they name the same occurrence, whatever the
/// record type.
impl<T: EntityBinding> PartialEq for EntityRef<T> {
    fn eq(&self, other: &Self) -> (r: bool) {
        self.id == other.id
    }
}

impl<T: EntityBinding> vstd::std_specs::cmp::PartialEqSpecImpl for EntityRef<T> {
    open spec fn obeys_eq_spec() -> bool {
        true
    }

    open spec fn eq_spec(&self, other: &Self) -> bool {
        self.number() == other.number()
    }
}

impl<T: EntityBinding> Eq for EntityRef<T> {
}

#[derive(Clone, Copy, Debug, PartialEq, Eq)]
pub enum Logical {
    False,
    True,
    Unknown,
}

#[derive(Clone, Copy, Debug, PartialEq, Eq, Structural)]
pub struct SourceSpan {
    pub source: usize,
    pub start: usize,
    pub end: usize,
    pub line: usize,
    pub column: usize,
}

#[derive(Clone, Copy, Debug, PartialEq, Eq)]
pub struct Expression {
    pub text: &'static str,
    pub span: SourceSpan,
}

#[derive(Clone, Copy, Debug, PartialEq, Eq)]
pub struct Rule {
    pub label: Option<&'static str>,
    pub expression: Expression,
}

#[derive(Clone, Copy, Debug, PartialEq, Eq, Structural)]
pub enum AggregateKind {
    Array,
    Bag,
    List,
    /// The EXPRESS `SET` aggregate.
    SetOf,
}

#[derive(Clone, Copy, Debug, PartialEq, Eq, Structural)]
pub enum Builtin {
    Boolean,
    Logical,
    Integer,
    Number,
    Real,
    String,
    Binary,
}

#[derive(Clone, Copy, Debug, PartialEq, Eq)]
#[allow(inconsistent_fields)]
pub enum Domain {
    Builtin { kind: Builtin, width: Option<Expression>, fixed: bool },
    Named(DeclarationId),
    Aggregate {
        kind: AggregateKind,
        bounds: Option<(Expression, Expression)>,
        optional: bool,
        unique: bool,
        element: &'static Domain,
    },
    Enumeration(&'static [&'static str]),
    Select(&'static [DeclarationId]),
}

#[derive(Clone, Copy, Debug, PartialEq, Eq)]
pub enum AttributeKind {
    Explicit,
    Derived(Expression),
    Inverse { entity: Option<&'static str>, attribute: &'static str },
}

#[derive(Clone, Copy, Debug, PartialEq, Eq)]
pub struct Attribute {
    pub name: &'static str,
    pub span: SourceSpan,
    pub domain: Domain,
    pub optional: bool,
    pub kind: AttributeKind,
}

#[derive(Clone, Copy, Debug, PartialEq, Eq)]
pub enum DeclarationKind {
    Entity {
        abstract_entity: bool,
        supertype_constraint: Option<Expression>,
        supertypes: &'static [DeclarationId],
        /// Local attributes only, in declaration order, including DERIVE/INVERSE.
        attributes: &'static [Attribute],
        unique: &'static [Rule],
        where_rules: &'static [Rule],
    },
    Type { domain: Domain, where_rules: &'static [Rule] },
    Constant { domain: Domain, value: Expression },
    Unsupported { keyword: &'static str, body: Expression },
}

#[derive(Clone, Copy, Debug, PartialEq, Eq)]
pub struct Declaration {
    pub name: &'static str,
    pub schema: usize,
    pub span: SourceSpan,
    pub kind: DeclarationKind,
}

#[derive(Clone, Copy, Debug, PartialEq, Eq)]
pub struct Symbol {
    pub name: &'static str,
    pub declaration: DeclarationId,
}

#[derive(Clone, Copy, Debug, PartialEq, Eq)]
pub struct Schema {
    pub name: &'static str,
    pub span: SourceSpan,
    pub dependencies: &'static [usize],
    pub symbols: &'static [Symbol],
    pub exports: &'static [Symbol],
}

#[derive(Clone, Copy, Debug, PartialEq, Eq)]
pub struct UnsupportedDiagnostic {
    pub code: &'static str,
    pub span: SourceSpan,
    pub message: &'static str,
}

#[derive(Clone, Copy, Debug, PartialEq, Eq)]
pub struct SchemaSet {
    pub sources: &'static [&'static str],
    pub schemas: &'static [Schema],
    pub declarations: &'static [Declaration],
    pub unsupported: &'static [UnsupportedDiagnostic],
}

/// ASCII lowercase of a byte; other bytes are unchanged.
pub open spec fn ascii_fold(b: u8) -> u8 {
    if 0x41 <= b <= 0x5a {
        (b + 32) as u8
    } else {
        b
    }
}

/// Equal UTF-8 bytes once ASCII letters are folded to lowercase.
pub open spec fn same_ignoring_ascii_case(a: Seq<char>, b: Seq<char>) -> bool {
    let x = encode_utf8(a);
    let y = encode_utf8(b);
    &&& x.len() == y.len()
    &&& forall|i: int| 0 <= i < x.len() ==> ascii_fold(#[trigger] x[i]) == ascii_fold(y[i])
}

fn fold_byte(b: u8) -> (r: u8)
    ensures
        r == ascii_fold(b),
{
    if 0x41 <= b && b <= 0x5a {
        b + 32
    } else {
        b
    }
}

/// `a.eq_ignore_ascii_case(b)`.
pub fn eq_ignore_ascii_case(a: &str, b: &str) -> (r: bool)
    ensures
        r == same_ignoring_ascii_case(a@, b@),
{
    let x = a.as_bytes();
    let y = b.as_bytes();
    if x.len() != y.len() {
        return false;
    }
    let mut i: usize = 0;
    while i < x.len()
        invariant
            i <= x@.len(),
            x@ == encode_utf8(a@),
            y@ == encode_utf8(b@),
            x@.len() == y@.len(),
            forall|k: int| 0 <= k < i ==> ascii_fold(#[trigger] x@[k]) == ascii_fold(y@[k]),
        decreases x@.len() - i,
    {
        if fold_byte(x[i]) != fold_byte(y[i]) {
            return false;
        }
        i += 1;
    }
    true
}

impl SchemaSet {
    /// The first schema whose name matches `name`, ignoring ASCII case.
    pub fn schema(&self, name: &str) -> (r: Option<&Schema>)
        ensures
            match r {
                Some(s) => exists|i: int|
                    0 <= i < self.schemas@.len() && self.schemas@[i] == *s
                        && same_ignoring_ascii_case(s.name@, name@) && forall|j: int|
                        0 <= j < i ==> !same_ignoring_ascii_case(
                            (#[trigger] self.schemas@[j]).name@,
                            name@,
                        ),
                None => forall|i: int|
                    0 <= i < self.schemas@.len() ==> !same_ignoring_ascii_case(
                        (#[trigger] self.schemas@[i]).name@,
                        name@,
                    ),
            },
    {
        let mut i: usize = 0;
        while i < self.schemas.len()
            invariant
                i <= self.schemas@.len(),
                forall|j: int|
                    0 <= j < i ==> !same_ignoring_ascii_case(
                        (#[trigger] self.schemas@[j]).name@,
                        name@,
                    ),
            decreases self.schemas@.len() - i,
        {
            if eq_ignore_ascii_case(self.schemas[i].name, name) {
                return Some(&self.schemas[i]);
            }
            i += 1;
        }
        None
    }

    /// The declaration with index `id`, if there is one.
    pub fn declaration(&self, id: DeclarationId) -> (r: Option<&Declaration>)
        ensures
            match r {
                Some(d) => id.0 < self.declarations@.len() && *d == self.declarations@[id.0 as int],
                None => id.0 >= self.declarations@.len(),
            },
    {
        if id.0 < self.declarations.len() {
            Some(&self.declarations[id.0])
        } else {
            None
        }
    }
}

impl Schema {
    /// The declaration of the first symbol whose name matches `name`, ignoring ASCII case.
    pub fn lookup(&self, name: &str) -> (r: Option<DeclarationId>)
        ensures
            match r {
                Some(d) => exists|i: int|
                    0 <= i < self.symbols@.len() && self.symbols@[i].declaration == d
                        && same_ignoring_ascii_case(self.symbols@[i].name@, name@) && forall|j: int|
                        0 <= j < i ==> !same_ignoring_ascii_case(
                            (#[trigger] self.symbols@[j]).name@,
                            name@,
                        ),
                None => forall|i: int|
                    0 <= i < self.symbols@.len() ==> !same_ignoring_ascii_case(
                        (#[trigger] self.symbols@[i]).name@,
                        name@,
                    ),
            },
    {
        let mut i: usize = 0;
        while i < self.symbols.len()
            invariant
                i <= self.symbols@.len(),
                forall|j: int|
                    0 <= j < i ==> !same_ignoring_ascii_case(
                        (#[trigger] self.symbols@[j]).name@,
                        name@,
                    ),
            decreases self.symbols@.len() - i,
        {
            if eq_ignore_ascii_case(self.symbols[i].name, name) {
                return Some(self.symbols[i].declaration);
            }
            i += 1;
        }
        None
    }
}

} // verus!
