//! Bounded structural decoding against explicitly supplied reflection metadata.
//!
//! Simple and complex entities are decoded through schema metadata. Success is
//! structural validation of this subset, not full EXPRESS or AP conformance.
//! Values borrow the physical document; no generated owned record is constructed.
//! Real literals are compared through the numeric classes supplied by the caller.
use vstd::prelude::*;
use vstd::string::StringSliceAdditionalSpecFns;
use std::collections::{BTreeMap, BTreeSet};
use crate::diagnostic::SourceSpan;
use crate::model::Document;
use crate::schema::{
    AggregateKind, Attribute, AttributeKind, Builtin, DeclarationId, DeclarationKind, Domain,
    Expression, Schema, SchemaSet, eq_ignore_ascii_case,
};
use vstd::string::StrSliceExecFns;
use vstd::utf8::encode_utf8;
use crate::parser::text_is;
use crate::text::push_str;
use crate::value::{EntityId, EntityInstance, EntityKind, Occurrence, Record, StepValue, ValueKind};

verus! {

broadcast use vstd::std_specs::btree::group_btree_axioms;

#[derive(Clone, Copy, Debug, PartialEq, Eq, Structural)]
pub struct Limits {
    pub max_work: usize,
    pub max_depth: usize,
}

impl Default for Limits {
    fn default() -> (r: Self)
        ensures
            r.max_work == 5_000_000,
            r.max_depth == 128,
    {
        Limits { max_work: 5_000_000, max_depth: 128 }
    }
}

#[derive(Clone, Copy, Debug, PartialEq, Eq, Structural)]
pub enum ErrorKind {
    UnknownSchema,
    InvalidMetadata,
    UnknownEntity,
    AbstractEntity,
    AttributeCount,
    RequiredValue,
    TypeMismatch,
    Cardinality,
    DuplicateValue,
    ComplexMapping,
    Width,
    MissingReference,
    ReferenceType,
    Unsupported,
    ResourceLimit,
}

/// Physical source and owner are retained, including for nested values.
#[derive(Clone, Debug, PartialEq, Eq)]
pub struct Error {
    pub kind: ErrorKind,
    pub entity: Option<EntityId>,
    pub attribute: Option<&'static str>,
    pub source: Option<SourceSpan>,
    pub message: &'static str,
}

/// The name of an error kind, as it is printed.
pub open spec fn kind_text(kind: ErrorKind) -> Seq<char> {
    match kind {
        ErrorKind::UnknownSchema => "UnknownSchema"@,
        ErrorKind::InvalidMetadata => "InvalidMetadata"@,
        ErrorKind::UnknownEntity => "UnknownEntity"@,
        ErrorKind::AbstractEntity => "AbstractEntity"@,
        ErrorKind::AttributeCount => "AttributeCount"@,
        ErrorKind::RequiredValue => "RequiredValue"@,
        ErrorKind::TypeMismatch => "TypeMismatch"@,
        ErrorKind::Cardinality => "Cardinality"@,
        ErrorKind::DuplicateValue => "DuplicateValue"@,
        ErrorKind::ComplexMapping => "ComplexMapping"@,
        ErrorKind::Width => "Width"@,
        ErrorKind::MissingReference => "MissingReference"@,
        ErrorKind::ReferenceType => "ReferenceType"@,
        ErrorKind::Unsupported => "Unsupported"@,
        ErrorKind::ResourceLimit => "ResourceLimit"@,
    }
}

fn kind_name(kind: ErrorKind) -> (r: &'static str)
    ensures
        r@ == kind_text(kind),
{
    match kind {
        ErrorKind::UnknownSchema => "UnknownSchema",
        ErrorKind::InvalidMetadata => "InvalidMetadata",
        ErrorKind::UnknownEntity => "UnknownEntity",
        ErrorKind::AbstractEntity => "AbstractEntity",
        ErrorKind::AttributeCount => "AttributeCount",
        ErrorKind::RequiredValue => "RequiredValue",
        ErrorKind::TypeMismatch => "TypeMismatch",
        ErrorKind::Cardinality => "Cardinality",
        ErrorKind::DuplicateValue => "DuplicateValue",
        ErrorKind::ComplexMapping => "ComplexMapping",
        ErrorKind::Width => "Width",
        ErrorKind::MissingReference => "MissingReference",
        ErrorKind::ReferenceType => "ReferenceType",
        ErrorKind::Unsupported => "Unsupported",
        ErrorKind::ResourceLimit => "ResourceLimit",
    }
}

impl Error {
    /// `Kind: message`, as the error is printed.
    pub fn describe(&self) -> (r: String)
        ensures
            r@ == kind_text(self.kind) + ": "@ + self.message@,
    {
        let mut s = String::new();
        push_str(&mut s, kind_name(self.kind));
        push_str(&mut s, ": ");
        push_str(&mut s, self.message);
        s
    }
}

/// The numeric identity of a real literal, computed by the caller: two literals
/// denote the same number exactly when their classes are equal, and `integer` is
/// the integer a literal denotes, if it denotes one within the `i64` range.
#[derive(Clone, Debug, PartialEq, Eq)]
pub struct RealClass {
    pub text: String,
    pub class: u64,
    pub integer: Option<i64>,
}

#[derive(Clone, Debug)]
pub struct AttributeView<'a> {
    pub owner: DeclarationId,
    pub declaration: &'a Attribute,
    pub value: &'a StepValue,
}

#[derive(Clone, Debug)]
pub struct EntityView<'a> {
    pub id: EntityId,
    /// Single leaf for an internal mapping; None for external complex mapping.
    pub declaration: Option<DeclarationId>,
    /// Complete entity membership, including supertypes, without duplicates.
    pub types: Vec<DeclarationId>,
    pub attributes: Vec<AttributeView<'a>>,
}

/// An explicitly declared physical-profile slot that must contain `*`.
/// The profile adapter, not the structural decoder, supplies its semantic value.
/// This is not general EXPRESS DERIVE evaluation or schema conformance.
#[derive(Clone, Copy, Debug)]
pub struct OmittedSlot {
    pub entity: DeclarationId,
    pub attribute: &'static str,
}

/// An explicitly declared physical-profile reference that is retained but not followed.
/// Its value must be `$` (when optional) or a reference to a local entity. Neither the
/// target nor its closure is decoded or type-checked, so the declared domain is not
/// applied. Adapters use it for provenance links to geometry outside a reduced profile.
#[derive(Clone, Copy, Debug)]
pub struct LinkSlot {
    pub entity: DeclarationId,
    pub attribute: &'static str,
}

/// The work budget and the state that errors report.
struct Context<'a> {
    schemas: &'a SchemaSet,
    schema: Option<&'a Schema>,
    document: &'a Document,
    reals: &'a [RealClass],
    limits: Limits,
    work: usize,
    entity: Option<EntityId>,
    attribute: Option<&'static str>,
    source: Option<SourceSpan>,
    types: BTreeMap<u64, Vec<DeclarationId>>,
}

/// The depth cap: `max_depth`, and never more than 128.
pub open spec fn depth_cap(limits: Limits) -> usize {
    if limits.max_depth < 128 {
        limits.max_depth
    } else {
        128
    }
}

impl<'a> Context<'a> {
    /// Work only grows, never past the budget; the rest is unchanged.
    spec fn worked(&self, old: &Context<'a>) -> bool {
        &&& self.schemas == old.schemas
        &&& self.schema == old.schema
        &&& self.document == old.document
        &&& self.reals == old.reals
        &&& self.limits == old.limits
        &&& self.types == old.types
        &&& old.work <= self.work <= self.limits.max_work
    }

    fn error(&self, kind: ErrorKind, message: &'static str) -> (e: Error)
        ensures
            e.kind == kind,
            e.entity == self.entity,
            e.attribute == self.attribute,
            e.source == self.source,
    {
        Error {
            kind,
            entity: self.entity,
            attribute: self.attribute,
            source: self.source,
            message,
        }
    }

    /// One unit of work.
    fn tick(&mut self) -> (r: Result<(), Error>)
        requires
            old(self).work <= old(self).limits.max_work,
        ensures
            final(self).worked(old(self)),
            r matches Err(e) ==> e.kind != ErrorKind::UnknownSchema,
            final(self).entity == old(self).entity,
            final(self).attribute == old(self).attribute,
            final(self).source == old(self).source,
            r is Ok <==> old(self).work < old(self).limits.max_work,
            r is Ok ==> final(self).work == old(self).work + 1,
            r matches Err(e) ==> e.kind == ErrorKind::ResourceLimit,
    {
        if self.work >= self.limits.max_work {
            return Err(self.error(ErrorKind::ResourceLimit, "schema decoding work budget"));
        }
        self.work = self.work + 1;
        Ok(())
    }

    fn depth_limit(&self) -> (r: usize)
        ensures
            r == depth_cap(self.limits),
    {
        if self.limits.max_depth < 128 {
            self.limits.max_depth
        } else {
            128
        }
    }
}

impl<'a> Context<'a> {
    /// The declaration of the first symbol of the selected schema whose name
    /// matches `name`, ignoring ASCII case, spending one unit per symbol examined.
    fn lookup(&mut self, name: &str) -> (r: Result<Option<DeclarationId>, Error>)
        requires
            old(self).work <= old(self).limits.max_work,
            old(self).schema is Some,
        ensures
            final(self).worked(old(self)),
            r matches Err(e) ==> e.kind != ErrorKind::UnknownSchema,
            final(self).entity == old(self).entity,
            final(self).attribute == old(self).attribute,
            final(self).source == old(self).source,
            r matches Err(e) ==> e.kind == ErrorKind::ResourceLimit,
            r matches Ok(Some(d)) ==> {
                let symbols = old(self).schema->Some_0.symbols@;
                exists|i: int|
                    0 <= i < symbols.len() && symbols[i].declaration == d
                        && crate::schema::same_ignoring_ascii_case(symbols[i].name@, name@)
            },
            r matches Ok(None) ==> {
                let symbols = old(self).schema->Some_0.symbols@;
                forall|i: int|
                    0 <= i < symbols.len() ==> !crate::schema::same_ignoring_ascii_case(
                        (#[trigger] symbols[i]).name@,
                        name@,
                    )
            },
    {
        let schema = match self.schema {
            Some(s) => s,
            None => {
                return Ok(None);
            },
        };
        let symbols = schema.symbols;
        let mut i: usize = 0;
        while i < symbols.len()
            invariant
                i <= symbols@.len(),
                self.worked(old(self)),
                self.schema == Some(schema),
                symbols == schema.symbols,
                self.entity == old(self).entity,
                self.attribute == old(self).attribute,
                self.source == old(self).source,
                forall|j: int|
                    0 <= j < i ==> !crate::schema::same_ignoring_ascii_case(
                        (#[trigger] symbols@[j]).name@,
                        name@,
                    ),
            decreases symbols@.len() - i,
        {
            self.tick()?;
            if eq_ignore_ascii_case(symbols[i].name, name) {
                proof {
                    let ghost k = i as int;
                    assert(old(self).schema->Some_0.symbols@ == symbols@);
                    assert(0 <= k < symbols@.len() && symbols@[k].declaration == symbols@[k].declaration
                        && crate::schema::same_ignoring_ascii_case(symbols@[k].name@, name@));
                }
                return Ok(Some(symbols[i].declaration));
            }
            i += 1;
        }
        Ok(None)
    }

    /// The kind of declaration `id`, which must exist.
    fn declaration(&mut self, id: DeclarationId) -> (r: Result<DeclarationKind, Error>)
        requires
            old(self).work <= old(self).limits.max_work,
        ensures
            final(self).worked(old(self)),
            r matches Err(e) ==> e.kind != ErrorKind::UnknownSchema,
            final(self).entity == old(self).entity,
            final(self).attribute == old(self).attribute,
            final(self).source == old(self).source,
            r matches Ok(k) ==> id.0 < old(self).schemas.declarations@.len()
                && k == old(self).schemas.declarations@[id.0 as int].kind,
            r is Ok ==> final(self).work > old(self).work,
            r matches Err(e) ==> e.kind == ErrorKind::ResourceLimit || (e.kind
                == ErrorKind::InvalidMetadata && id.0 >= old(self).schemas.declarations@.len()),
    {
        self.tick()?;
        match self.schemas.declaration(id) {
            Some(d) => Ok(d.kind),
            None => Err(self.error(ErrorKind::InvalidMetadata, "declaration ID is out of range")),
        }
    }
}

/// `u8::is_ascii_whitespace`: space, tab, line feed, form feed, carriage return.
pub open spec fn is_ascii_space(b: u8) -> bool {
    b == 0x20 || b == 0x09 || b == 0x0a || b == 0x0c || b == 0x0d
}

fn ascii_space(b: u8) -> (r: bool)
    ensures
        r == is_ascii_space(b),
{
    b == 0x20 || b == 0x09 || b == 0x0a || b == 0x0c || b == 0x0d
}

/// The end of the line comment running from `i`: the next line feed, or the end.
pub open spec fn line_end(b: Seq<u8>, i: int) -> int
    decreases b.len() - i,
{
    if i < 0 || i >= b.len() || b[i] == 0x0a {
        i
    } else {
        line_end(b, i + 1)
    }
}

/// Where the body of a `(* ... *)` comment nested `nesting` deep ends, if it
/// ends at all; comments nest.
pub open spec fn comment_end(b: Seq<u8>, i: int, nesting: nat) -> Option<int>
    decreases b.len() - i, nesting,
{
    if nesting == 0 {
        Some(i)
    } else if i < 0 || i >= b.len() {
        None
    } else if i + 2 <= b.len() && b[i] == 0x28 && b[i + 1] == 0x2a {
        comment_end(b, i + 2, nesting + 1)
    } else if i + 2 <= b.len() && b[i] == 0x2a && b[i + 1] == 0x29 {
        comment_end(b, i + 2, (nesting - 1) as nat)
    } else {
        comment_end(b, i + 1, nesting)
    }
}

/// Where the white space and comments from `i` end, or `None` where a `(*`
/// comment is not closed.
pub open spec fn space_end(b: Seq<u8>, i: int) -> Option<int>
    decreases b.len() - i,
{
    if i < 0 || i >= b.len() {
        Some(i)
    } else if is_ascii_space(b[i]) {
        space_end(b, i + 1)
    } else if i + 2 <= b.len() && b[i] == 0x2d && b[i + 1] == 0x2d {
        let j = line_end(b, i);
        if i < j <= b.len() {
            space_end(b, j)
        } else {
            None
        }
    } else if i + 2 <= b.len() && b[i] == 0x28 && b[i + 1] == 0x2a {
        match comment_end(b, i + 2, 1) {
            Some(j) => if i < j <= b.len() {
                space_end(b, j)
            } else {
                None
            },
            None => None,
        }
    } else {
        Some(i)
    }
}

proof fn lemma_line_end(b: Seq<u8>, i: int)
    requires
        0 <= i <= b.len(),
    ensures
        i <= line_end(b, i) <= b.len(),
    decreases b.len() - i,
{
    if i < b.len() && b[i] != 0x0a {
        lemma_line_end(b, i + 1);
    }
}

proof fn lemma_comment_end(b: Seq<u8>, i: int, nesting: nat)
    requires
        0 <= i <= b.len(),
    ensures
        comment_end(b, i, nesting) matches Some(j) ==> i <= j <= b.len(),
    decreases b.len() - i, nesting,
{
    if nesting == 0 {
    } else if i >= b.len() {
    } else if i + 2 <= b.len() && b[i] == 0x28 && b[i + 1] == 0x2a {
        lemma_comment_end(b, i + 2, nesting + 1);
    } else if i + 2 <= b.len() && b[i] == 0x2a && b[i + 1] == 0x29 {
        lemma_comment_end(b, i + 2, (nesting - 1) as nat);
    } else {
        lemma_comment_end(b, i + 1, nesting);
    }
}

/// Offset `at` starts neither white space nor a `--` or `(*` comment.
pub open spec fn space_stop(bytes: Seq<u8>, at: int) -> bool {
    at == bytes.len() || (at < bytes.len() && !is_ascii_space(bytes[at]) && !(at + 1 < bytes.len()
        && bytes[at] == 0x2d && bytes[at + 1] == 0x2d) && !(at + 1 < bytes.len() && bytes[at] == 0x28
        && bytes[at + 1] == 0x2a))
}

/// Skips whitespace, `--` line comments and nested `(* ... *)` comments of a bound
/// expression, spending one unit per skipped byte or comment step.
fn space(cx: &mut Context, bytes: &[u8], offset: &mut usize) -> (r: Result<(), Error>)
    requires
        old(cx).work <= old(cx).limits.max_work,
        *old(offset) <= bytes@.len(),
    ensures
        final(cx).worked(old(cx)),
        r matches Err(e) ==> e.kind != ErrorKind::UnknownSchema,
        final(cx).entity == old(cx).entity,
        final(cx).attribute == old(cx).attribute,
        final(cx).source == old(cx).source,
        *old(offset) <= *final(offset) <= bytes@.len(),
        r matches Err(e) ==> e.kind == ErrorKind::ResourceLimit || e.kind == ErrorKind::InvalidMetadata,
        r is Ok ==> space_stop(bytes@, *final(offset) as int),
        space_stop(bytes@, *old(offset) as int) ==> r is Ok && *final(offset) == *old(offset),
        r is Ok ==> space_end(bytes@, *old(offset) as int) == Some(*final(offset) as int),
        r matches Err(e) ==> e.kind == ErrorKind::ResourceLimit || space_end(bytes@, *old(offset) as int) is None,
{
    let len = bytes.len();
    loop
        invariant
            cx.worked(old(cx)),
            cx.entity == old(cx).entity,
            cx.attribute == old(cx).attribute,
            cx.source == old(cx).source,
            *old(offset) <= *offset <= len,
            len == bytes@.len(),
            space_stop(bytes@, *old(offset) as int) ==> *offset == *old(offset),
            space_end(bytes@, *offset as int) == space_end(bytes@, *old(offset) as int),
        ensures
            cx.worked(old(cx)),
            cx.entity == old(cx).entity,
            cx.attribute == old(cx).attribute,
            cx.source == old(cx).source,
            *old(offset) <= *offset <= len,
            space_stop(bytes@, *offset as int),
            space_stop(bytes@, *old(offset) as int) ==> *offset == *old(offset),
            space_end(bytes@, *offset as int) == Some(*offset as int),
            space_end(bytes@, *offset as int) == space_end(bytes@, *old(offset) as int),
        decreases len - *offset,
    {
        let start = *offset;
        while *offset < len && ascii_space(bytes[*offset])
            invariant
                cx.worked(old(cx)),
                cx.entity == old(cx).entity,
                cx.attribute == old(cx).attribute,
                cx.source == old(cx).source,
                *old(offset) <= start <= *offset <= len,
                len == bytes@.len(),
                space_stop(bytes@, *old(offset) as int) ==> *offset == *old(offset),
                space_end(bytes@, *offset as int) == space_end(bytes@, *old(offset) as int),
            decreases len - *offset,
        {
            cx.tick()?;
            *offset = *offset + 1;
        }
        if *offset < len && len - *offset >= 2 && bytes[*offset] == 0x2d && bytes[*offset + 1] == 0x2d {
            let ghost c0 = *offset;
            while *offset < len && bytes[*offset] != 0x0a
                invariant
                    cx.worked(old(cx)),
                    cx.entity == old(cx).entity,
                    cx.attribute == old(cx).attribute,
                    cx.source == old(cx).source,
                    *old(offset) <= start <= c0 <= *offset <= len,
                    c0 < len && bytes@[c0 as int] == 0x2d,
                    !space_stop(bytes@, *old(offset) as int),
                    line_end(bytes@, *offset as int) == line_end(bytes@, c0 as int),
                    space_end(bytes@, c0 as int) == space_end(bytes@, *old(offset) as int),
                    len == bytes@.len(),
                decreases len - *offset,
            {
                cx.tick()?;
                *offset = *offset + 1;
            }
            proof {
                lemma_line_end(bytes@, c0 + 1);
                assert(line_end(bytes@, c0 as int) == line_end(bytes@, c0 + 1));
                assert(line_end(bytes@, *offset as int) == *offset);
            }
            if *offset == start {
                break;
            }
        } else if *offset < len && len - *offset >= 2 && bytes[*offset] == 0x28 && bytes[*offset + 1]
            == 0x2a {
            let ghost c0 = *offset;
            *offset = *offset + 2;
            let mut nesting: usize = 1;
            while nesting > 0
                invariant
                    c0 < *offset,
                    c0 + 2 <= len,
                    bytes@[c0 as int] == 0x28 && bytes@[c0 + 1] == 0x2a,
                    comment_end(bytes@, *offset as int, nesting as nat) == comment_end(bytes@, c0 + 2, 1),
                    space_end(bytes@, c0 as int) == space_end(bytes@, *old(offset) as int),
                    cx.worked(old(cx)),
                    cx.entity == old(cx).entity,
                    cx.attribute == old(cx).attribute,
                    cx.source == old(cx).source,
                    *old(offset) <= start < *offset <= len,
                    nesting <= *offset,
                    !space_stop(bytes@, *old(offset) as int),
                    len == bytes@.len(),
                decreases len - *offset, nesting,
            {
                cx.tick()?;
                if *offset >= len {
                    return Err(cx.error(ErrorKind::InvalidMetadata, "unterminated bound comment"));
                }
                if len - *offset >= 2 && bytes[*offset] == 0x28 && bytes[*offset + 1] == 0x2a {
                    nesting = nesting + 1;
                    *offset = *offset + 2;
                } else if len - *offset >= 2 && bytes[*offset] == 0x2a && bytes[*offset + 1] == 0x29 {
                    nesting = nesting - 1;
                    *offset = *offset + 2;
                } else {
                    *offset = *offset + 1;
                }
            }
            proof {
                lemma_comment_end(bytes@, c0 + 2, 1);
            }
        } else {
            break;
        }
    }
    Ok(())
}

/// The value of the decimal digits from `i` appended to `acc`, and where they
/// end; `None` once the value leaves `i128`.
pub open spec fn digits_from(b: Seq<u8>, i: int, acc: int) -> Option<(int, int)>
    decreases b.len() - i,
{
    if 0 <= i < b.len() && 0x30 <= b[i] <= 0x39 {
        let t = acc * 10 + (b[i] - 0x30);
        if t > i128::MAX {
            None
        } else {
            digits_from(b, i + 1, t)
        }
    } else {
        Some((acc, i))
    }
}

proof fn lemma_digits_grow(b: Seq<u8>, i: int, acc: int)
    requires
        acc >= 0,
    ensures
        digits_from(b, i, acc) matches Some((v, _)) ==> v >= acc,
    decreases b.len() - i,
{
    if 0 <= i < b.len() && 0x30 <= b[i] <= 0x39 {
        let t = acc * 10 + (b[i] - 0x30);
        if t <= i128::MAX {
            lemma_digits_grow(b, i + 1, t);
        }
    }
}

/// The value of a whole bound text: an integer literal with an optional sign,
/// surrounded only by white space and comments, within `i64`. Computed bounds
/// are not supported.
pub open spec fn bound_value(b: Seq<u8>) -> Option<int> {
    match space_end(b, 0) {
        None => None,
        Some(j) => {
            let signed = 0 <= j < b.len() && (b[j] == 0x2b || b[j] == 0x2d);
            let d = if signed { j + 1 } else { j };
            if !(0 <= d < b.len() && 0x30 <= b[d] <= 0x39) {
                None
            } else {
                match digits_from(b, d, 0) {
                    None => None,
                    Some((v, e)) => {
                        let w = if signed && b[j] == 0x2d { -v } else { v };
                        if space_end(b, e) == Some(b.len() as int) && i64::MIN <= w <= i64::MAX {
                            Some(w)
                        } else {
                            None
                        }
                    },
                }
            }
        },
    }
}

impl<'a> Context<'a> {
    /// The value of a width or bound: an integer literal that uses the whole
    /// text and fits in `i64`. A text that is not such a literal is unsupported;
    /// one that does not fit is invalid.
    fn bound(&mut self, expression_text: Expression) -> (r: Result<i64, Error>)
        requires
            old(self).work <= old(self).limits.max_work,
        ensures
            final(self).worked(old(self)),
            r matches Err(e) ==> e.kind != ErrorKind::UnknownSchema,
            final(self).entity == old(self).entity,
            final(self).attribute == old(self).attribute,
            final(self).source == old(self).source,
            r matches Ok(v) ==> bound_value(expression_text.text.spec_bytes()) == Some(v as int),
            r matches Err(e) ==> e.kind == ErrorKind::ResourceLimit || bound_value(
                expression_text.text.spec_bytes(),
            ) is None,
            r matches Err(e) ==> e.kind == ErrorKind::ResourceLimit || e.kind == ErrorKind::Unsupported
                || e.kind == ErrorKind::InvalidMetadata,
    {
        let bytes = expression_text.text.as_bytes();
        let ghost b = bytes@;
        let len = bytes.len();
        let mut offset: usize = 0;
        space(self, bytes, &mut offset)?;
        let ghost j = offset as int;
        let mut negative = false;
        if offset < len && (bytes[offset] == 0x2b || bytes[offset] == 0x2d) {
            negative = bytes[offset] == 0x2d;
            offset = offset + 1;
        }
        let ghost d = offset as int;
        if !(offset < len && 0x30 <= bytes[offset] && bytes[offset] <= 0x39) {
            return Err(self.error(ErrorKind::Unsupported, "bound is not an integer literal"));
        }
        let mut v: i128 = 0;
        proof {
            assert(space_end(b, 0) == Some(j));
            assert(d == if 0 <= j < b.len() && (b[j] == 0x2b || b[j] == 0x2d) { j + 1 } else { j });
        }
        while offset < len && 0x30 <= bytes[offset] && bytes[offset] <= 0x39
            invariant
                self.worked(old(self)),
                self.entity == old(self).entity,
                self.attribute == old(self).attribute,
                self.source == old(self).source,
                d <= offset <= len,
                len == bytes@.len(),
                b == bytes@,
                b == expression_text.text.spec_bytes(),
                0 <= v <= i64::MAX as int + 1,
                digits_from(b, offset as int, v as int) == digits_from(b, d, 0),
                match digits_from(b, d, 0) {
                    Some((x, _)) => x > i64::MAX + 1 ==> bound_value(b) is None,
                    None => bound_value(b) is None,
                },
            decreases len - offset,
        {
            self.tick()?;
            let digit = (bytes[offset] - 0x30) as i128;
            if v > (i64::MAX as i128 + 1 - digit) / 10 {
                proof {
                    let t = v * 10 + digit;
                    assert(t > i64::MAX + 1) by (nonlinear_arith)
                        requires
                            v > (i64::MAX + 1 - digit) / 10,
                            0 <= digit <= 9,
                            t == v * 10 + digit,
                    ;
                    if t <= i128::MAX {
                        lemma_digits_grow(b, offset + 1, t);
                    }
                    assert(digits_from(b, offset as int, v as int) == (if t > i128::MAX {
                        None
                    } else {
                        digits_from(b, offset + 1, t)
                    }));
                    match digits_from(b, d, 0) {
                        Some((x, _)) => {
                            assert(digits_from(b, offset + 1, t) == Some((x, digits_from(b, d, 0).unwrap().1)));
                            assert(x >= t);
                            assert(bound_value(b) is None);
                        },
                        None => {
                            assert(bound_value(b) is None);
                        },
                    }
                    assert(bound_value(b) is None);
                }
                return Err(self.error(ErrorKind::InvalidMetadata, "bound is outside i64 range"));
            }
            proof {
                assert(v * 10 + digit <= i64::MAX + 1) by (nonlinear_arith)
                    requires
                        v <= (i64::MAX + 1 - digit) / 10,
                        0 <= digit <= 9,
                        v >= 0,
                ;
            }
            v = v * 10 + digit;
            offset = offset + 1;
        }
        let ghost e = offset as int;
        space(self, bytes, &mut offset)?;
        if offset != len {
            return Err(self.error(ErrorKind::Unsupported, "bound is not an integer literal"));
        }
        let w: i128 = if negative { -v } else { v };
        if w < i64::MIN as i128 || w > i64::MAX as i128 {
            return Err(self.error(ErrorKind::InvalidMetadata, "bound is outside i64 range"));
        }
        Ok(w as i64)
    }
}


/// Rust's `char::is_whitespace`: the Unicode `White_Space` property.
pub open spec fn is_white_space(c: char) -> bool {
    let v = c as u32;
    ||| 0x09 <= v <= 0x0d
    ||| v == 0x20
    ||| v == 0x85
    ||| v == 0xa0
    ||| v == 0x1680
    ||| 0x2000 <= v <= 0x200a
    ||| v == 0x2028
    ||| v == 0x2029
    ||| v == 0x202f
    ||| v == 0x205f
    ||| v == 0x3000
}

fn white_space(c: char) -> (r: bool)
    ensures
        r == is_white_space(c),
{
    let v = c as u32;
    (0x09 <= v && v <= 0x0d) || v == 0x20 || v == 0x85 || v == 0xa0 || v == 0x1680 || (0x2000 <= v
        && v <= 0x200a) || v == 0x2028 || v == 0x2029 || v == 0x202f || v == 0x205f || v == 0x3000
}

/// An upper bound written `?`: the text is `?` once surrounding white space is trimmed.
pub open spec fn is_unbounded(s: Seq<char>) -> bool {
    exists|i: int|
        0 <= i < s.len() && s[i] == '?' && forall|j: int|
            0 <= j < s.len() && j != i ==> is_white_space(#[trigger] s[j])
}

fn unbounded(text: &str) -> (r: bool)
    ensures
        r == is_unbounded(text@),
{
    let n = text.unicode_len();
    let mut seen: Option<usize> = None;
    let mut i: usize = 0;
    while i < n
        invariant
            i <= n,
            n == text@.len(),
            match seen {
                None => forall|j: int| 0 <= j < i ==> is_white_space(#[trigger] text@[j]),
                Some(k) => k < i && text@[k as int] == '?' && forall|j: int|
                    0 <= j < i && j != k ==> is_white_space(#[trigger] text@[j]),
            },
        decreases n - i,
    {
        let c = text.get_char(i);
        if !white_space(c) {
            if seen.is_some() || c != '?' {
                proof {
                    if is_unbounded(text@) {
                        let w = choose|w: int|
                            0 <= w < text@.len() && text@[w] == '?' && forall|j: int|
                                0 <= j < text@.len() && j != w ==> is_white_space(
                                    #[trigger] text@[j],
                                );
                        assert(!is_white_space(text@[i as int]));
                        if let Some(k) = seen {
                            assert(!is_white_space(text@[k as int]));
                        }
                    }
                }
                return false;
            }
            seen = Some(i);
        }
        i += 1;
    }
    match seen {
        Some(k) => {
            assert(is_unbounded(text@)) by {
                assert(text@[k as int] == '?');
            }
            true
        },
        None => {
            proof {
                if is_unbounded(text@) {
                    let w = choose|w: int|
                        0 <= w < text@.len() && text@[w] == '?' && forall|j: int|
                            0 <= j < text@.len() && j != w ==> is_white_space(#[trigger] text@[j]);
                    assert(is_white_space(text@[w]));
                }
            }
            false
        },
    }
}

/// `a == b` on string slices.
fn same_str(a: &str, b: &str) -> (r: bool)
    ensures
        r == (a@ == b@),
{
    let x = a.to_owned();
    let y = b.to_owned();
    x == y
}

impl<'a> Context<'a> {
    /// Frontend diagnostics keep every expression opaque. Only width and bound
    /// expressions that this decoder checks are recognized, by source span; any
    /// other unsupported construct refuses the schema set.
    #[verifier::loop_isolation(false)]
    fn check_diagnostics(&mut self) -> (r: Result<(), Error>)
        requires
            old(self).work <= old(self).limits.max_work,
        ensures
            final(self).worked(old(self)),
            r matches Err(e) ==> e.kind != ErrorKind::UnknownSchema,
            final(self).entity == old(self).entity,
            final(self).attribute == old(self).attribute,
            final(self).source == old(self).source,
            r is Ok ==> forall|i: int|
                0 <= i < old(self).schemas.unsupported@.len() ==> (
                #[trigger] old(self).schemas.unsupported@[i]).code@ == "EX2001"@,
            old(self).schemas.unsupported@.len() == 0 ==> r is Ok && final(self).work == old(self).work,
    {
        let unsupported = self.schemas.unsupported;
        if unsupported.len() == 0 {
            return Ok(());
        }
        let cap = self.depth_limit();
        let declarations = self.schemas.declarations;
        let mut supported: Vec<(usize, usize, usize)> = Vec::new();
        let mut d: usize = 0;
        while d < declarations.len()
            invariant
                d <= declarations@.len(),
                declarations == self.schemas.declarations,
                unsupported == self.schemas.unsupported,
                cap == depth_cap(self.limits),
                self.worked(old(self)),
                self.entity == old(self).entity,
                self.attribute == old(self).attribute,
                self.source == old(self).source,
            decreases declarations@.len() - d,
        {
            self.tick()?;
            let mut stack: Vec<(Domain, usize)> = Vec::new();
            match declarations[d].kind {
                DeclarationKind::Entity { attributes, .. } => {
                    let mut a: usize = 0;
                    while a < attributes.len()
                        invariant
                            a <= attributes@.len(),
                            forall|k: int| 0 <= k < stack@.len() ==> (#[trigger] stack@[k]).1 == 0,
                            declarations == self.schemas.declarations,
                            unsupported == self.schemas.unsupported,
                            self.worked(old(self)),
                            self.entity == old(self).entity,
                            self.attribute == old(self).attribute,
                            self.source == old(self).source,
                        decreases attributes@.len() - a,
                    {
                        self.tick()?;
                        stack.push((attributes[a].domain, 0));
                        a += 1;
                    }
                },
                DeclarationKind::Type { domain, .. } => {
                    stack.push((domain, 0));
                },
                _ => {},
            }
            while stack.len() > 0
                invariant
                    forall|k: int| 0 <= k < stack@.len() ==> (#[trigger] stack@[k]).1 <= 128,
                    declarations == self.schemas.declarations,
                    unsupported == self.schemas.unsupported,
                    cap == depth_cap(self.limits),
                    self.worked(old(self)),
                    self.entity == old(self).entity,
                    self.attribute == old(self).attribute,
                    self.source == old(self).source,
                decreases self.limits.max_work - self.work,
            {
                let (domain, depth) = stack.pop().unwrap();
                self.tick()?;
                if depth >= cap {
                    return Err(
                        self.error(ErrorKind::ResourceLimit, "schema expression traversal depth budget"),
                    );
                }
                match domain {
                    Domain::Builtin { kind, width: Some(width), .. } => {
                        if kind == Builtin::String || kind == Builtin::Binary {
                            self.bound(width)?;
                            supported.push((width.span.source, width.span.start, width.span.end));
                        }
                    },
                    Domain::Aggregate { bounds, element, .. } => {
                        stack.push((*element, depth + 1));
                        if let Some((lower, upper)) = bounds {
                            self.bound(lower)?;
                            supported.push((lower.span.source, lower.span.start, lower.span.end));
                            if !unbounded(upper.text) {
                                self.bound(upper)?;
                            }
                            supported.push((upper.span.source, upper.span.start, upper.span.end));
                        }
                    },
                    _ => {},
                }
            }
            d += 1;
        }
        let mut u: usize = 0;
        while u < unsupported.len()
            invariant
                u <= unsupported@.len(),
                unsupported == old(self).schemas.unsupported,
                self.worked(old(self)),
                self.entity == old(self).entity,
                self.attribute == old(self).attribute,
                self.source == old(self).source,
                forall|i: int| 0 <= i < u ==> (#[trigger] unsupported@[i]).code@ == "EX2001"@,
            decreases unsupported@.len() - u,
        {
            self.tick()?;
            let span = unsupported[u].span;
            let mut known = false;
            let mut k: usize = 0;
            while k < supported.len()
                invariant
                    k <= supported@.len(),
                decreases supported@.len() - k,
            {
                let (a, b, c) = supported[k];
                if a == span.source && b == span.start && c == span.end {
                    known = true;
                }
                k += 1;
            }
            if !same_str(unsupported[u].code, "EX2001") || !known {
                return Err(
                    self.error(
                        ErrorKind::Unsupported,
                        "schema set contains unsupported EXPRESS semantics",
                    ),
                );
            }
            u += 1;
        }
        Ok(())
    }
}


/// ASCII uppercase of a byte; other bytes are unchanged.
pub open spec fn ascii_upper(b: u8) -> u8 {
    if 0x61 <= b <= 0x7a {
        (b - 32) as u8
    } else {
        b
    }
}

/// The UTF-8 bytes of `s` with ASCII letters in uppercase.
pub open spec fn upper_of(s: Seq<char>) -> Seq<u8> {
    encode_utf8(s).map_values(|b: u8| ascii_upper(b))
}

fn upper_bytes(s: &str) -> (r: Vec<u8>)
    ensures
        r@ == upper_of(s@),
{
    let bytes = s.as_bytes();
    let mut r: Vec<u8> = Vec::new();
    let mut i: usize = 0;
    while i < bytes.len()
        invariant
            i <= bytes@.len(),
            r@ == bytes@.take(i as int).map_values(|b: u8| ascii_upper(b)),
        decreases bytes@.len() - i,
    {
        let b = bytes[i];
        r.push(if 0x61 <= b && b <= 0x7a { b - 32 } else { b });
        proof {
            assert(bytes@.take(i + 1) =~= bytes@.take(i as int).push(b));
        }
        i += 1;
    }
    proof {
        assert(bytes@.take(i as int) =~= bytes@);
    }
    r
}


/// A physical-profile link resolved to the entity that names it and the
/// declaration that owns the attribute.
#[derive(Clone, Copy, Debug)]
struct ResolvedLink {
    entity: DeclarationId,
    owner: DeclarationId,
    name: &'static str,
}

/// `ids` contains `id`.
fn contains_id(ids: &[DeclarationId], id: DeclarationId) -> (r: bool)
    ensures
        r == ids@.contains(id),
{
    let mut i: usize = 0;
    while i < ids.len()
        invariant
            i <= ids@.len(),
            forall|k: int| 0 <= k < i ==> ids@[k] != id,
        decreases ids@.len() - i,
    {
        if ids[i] == id {
            assert(ids@[i as int] == id);
            return true;
        }
        i += 1;
    }
    false
}

/// Inserts `x` into the ascending, duplicate-free `v`.
fn insert_sorted(v: &mut Vec<usize>, x: usize)
    requires
        forall|i: int, j: int| 0 <= i < j < old(v)@.len() ==> old(v)@[i] < old(v)@[j],
    ensures
        forall|i: int, j: int| 0 <= i < j < final(v)@.len() ==> final(v)@[i] < final(v)@[j],
        forall|y: usize| final(v)@.contains(y) <==> (old(v)@.contains(y) || y == x),
{
    let mut p: usize = 0;
    while p < v.len() && v[p] < x
        invariant
            p <= v@.len(),
            forall|k: int| 0 <= k < p ==> v@[k] < x,
        decreases v@.len() - p,
    {
        p += 1;
    }
    if p < v.len() && v[p] == x {
        return;
    }
    v.insert(p, x);
    proof {
        assert forall|y: usize| final(v)@.contains(y) <==> (old(v)@.contains(y) || y == x) by {
            if old(v)@.contains(y) {
                let k = choose|k: int| 0 <= k < old(v)@.len() && old(v)@[k] == y;
                if k < p {
                    assert(final(v)@[k] == y);
                } else {
                    assert(final(v)@[k + 1] == y);
                }
            }
            if final(v)@.contains(y) {
                let k = choose|k: int| 0 <= k < final(v)@.len() && final(v)@[k] == y;
                if k < p {
                    assert(old(v)@[k] == y);
                } else if k > p {
                    assert(old(v)@[k - 1] == y);
                }
            }
            if y == x {
                assert(final(v)@[p as int] == x);
            }
        }
    }
}

/// `v` contains `x`.
fn contains_usize(v: &Vec<usize>, x: usize) -> (r: bool)
    ensures
        r == v@.contains(x),
{
    let mut i: usize = 0;
    while i < v.len()
        invariant
            i <= v@.len(),
            forall|k: int| 0 <= k < i ==> v@[k] != x,
        decreases v@.len() - i,
    {
        if v[i] == x {
            assert(v@[i as int] == x);
            return true;
        }
        i += 1;
    }
    false
}

/// The supertypes of declaration `id`, none when it is not an entity.
pub open spec fn parent_ids(s: SchemaSet, id: DeclarationId) -> Seq<DeclarationId> {
    match s.declarations@[id.0 as int].kind {
        DeclarationKind::Entity { supertypes, .. } => supertypes@,
        _ => Seq::empty(),
    }
}

/// `id` names an entity declaration of `s`.
pub open spec fn is_entity_at(s: SchemaSet, id: DeclarationId) -> bool {
    id.0 < s.declarations@.len() && s.declarations@[id.0 as int].kind is Entity
}

/// `v` lists an entity and all its supertypes, each once, every declaration
/// after its single supertype: a topmost entity first and the entity itself last.
pub open spec fn supertype_chain(s: SchemaSet, v: Seq<DeclarationId>) -> bool {
    &&& v.len() >= 1
    &&& forall|i: int| 0 <= i < v.len() ==> is_entity_at(s, #[trigger] v[i])
    &&& parent_ids(s, v[0]) == Seq::<DeclarationId>::empty()
    &&& forall|i: int| 0 <= i < v.len() - 1 ==> parent_ids(s, #[trigger] v[i + 1]) == seq![v[i]]
}

impl<'a> Context<'a> {
    /// The chain of supertypes in SUBTYPE OF order, every declaration after its
    /// supertype and the root last. Only single inheritance is supported: an
    /// entity with several supertypes is refused, and a cyclic chain runs into
    /// the depth budget.
    fn hierarchy(&mut self, root: DeclarationId) -> (r: Result<Vec<DeclarationId>, Error>)
        requires
            old(self).work <= old(self).limits.max_work,
        ensures
            final(self).worked(old(self)),
            r matches Err(e) ==> e.kind != ErrorKind::UnknownSchema,
            final(self).entity == old(self).entity,
            final(self).attribute == old(self).attribute,
            final(self).source == old(self).source,
            r matches Ok(v) ==> {
                &&& v@.len() >= 1
                &&& v@.last() == root
                &&& forall|i: int|
                    0 <= i < v@.len() ==> (#[trigger] v@[i]).0 < old(self).schemas.declarations@.len()
                &&& supertype_chain(*old(self).schemas, v@)
            },
    {
        let cap = self.depth_limit();
        let mut chain: Vec<DeclarationId> = Vec::new();
        let mut id = root;
        let mut depth: usize = 0;
        loop
            invariant_except_break
                depth <= cap,
                chain@.len() == depth,
                chain@.len() == 0 ==> id == root,
                chain@.len() > 0 ==> chain@[0] == root && parent_ids(*self.schemas, chain@.last()) == seq![id],
            invariant
                cap == depth_cap(self.limits),
                cap <= 128,
                self.worked(old(self)),
                self.entity == old(self).entity,
                self.attribute == old(self).attribute,
                self.source == old(self).source,
                forall|i: int| 0 <= i < chain@.len() ==> is_entity_at(*self.schemas, #[trigger] chain@[i]),
                forall|i: int|
                    0 <= i < chain@.len() - 1 ==> parent_ids(*self.schemas, #[trigger] chain@[i]) == seq![
                        chain@[i + 1],
                    ],
            ensures
                self.worked(old(self)),
                self.entity == old(self).entity,
                self.attribute == old(self).attribute,
                self.source == old(self).source,
                chain@.len() >= 1,
                chain@[0] == root,
                parent_ids(*self.schemas, chain@.last()) == Seq::<DeclarationId>::empty(),
                forall|i: int| 0 <= i < chain@.len() ==> is_entity_at(*self.schemas, #[trigger] chain@[i]),
                forall|i: int|
                    0 <= i < chain@.len() - 1 ==> parent_ids(*self.schemas, #[trigger] chain@[i]) == seq![
                        chain@[i + 1],
                    ],
            decreases cap - depth,
        {
            self.tick()?;
            if depth >= cap {
                return Err(self.error(ErrorKind::ResourceLimit, "inheritance depth budget"));
            }
            let supertypes = match self.declaration(id)? {
                DeclarationKind::Entity { supertypes, .. } => supertypes,
                _ => {
                    return Err(self.error(ErrorKind::InvalidMetadata, "supertype is not an entity"));
                },
            };
            self.local_attributes(id)?;
            if supertypes.len() > 1 {
                return Err(self.error(ErrorKind::Unsupported, "entity with several supertypes"));
            }
            let ghost c0 = chain@;
            chain.push(id);
            proof {
                assert(is_entity_at(*self.schemas, id));
                assert(parent_ids(*self.schemas, id) == supertypes@);
                assert forall|i: int| 0 <= i < chain@.len() - 1 implies parent_ids(
                    *self.schemas,
                    #[trigger] chain@[i],
                ) == seq![chain@[i + 1]] by {
                    if i < c0.len() - 1 {
                        assert(chain@[i] == c0[i] && chain@[i + 1] == c0[i + 1]);
                    } else {
                        assert(chain@[i] == c0.last());
                    }
                }
            }
            if supertypes.len() == 0 {
                proof {
                    assert(supertypes@ =~= Seq::<DeclarationId>::empty());
                }
                break;
            }
            id = supertypes[0];
            proof {
                assert(supertypes@ =~= seq![id]);
            }
            depth += 1;
        }
        let mut result: Vec<DeclarationId> = Vec::new();
        let mut k: usize = chain.len();
        while k > 0
            invariant
                k <= chain@.len(),
                result@.len() == chain@.len() - k,
                forall|j: int| 0 <= j < result@.len() ==> #[trigger] result@[j] == chain@[chain@.len() - 1 - j],
            decreases k,
        {
            k -= 1;
            result.push(chain[k]);
        }
        proof {
            let n = chain@.len() as int;
            assert forall|i: int| 0 <= i < result@.len() - 1 implies parent_ids(
                *self.schemas,
                #[trigger] result@[i + 1],
            ) == seq![result@[i]] by {
                assert(result@[i + 1] == chain@[n - 2 - i]);
                assert(result@[i] == chain@[n - 1 - i]);
                assert(parent_ids(*self.schemas, chain@[n - 2 - i]) == seq![chain@[n - 2 - i + 1]]);
            }
            assert forall|i: int| 0 <= i < result@.len() implies is_entity_at(*self.schemas, #[trigger] result@[i]) by {
                assert(result@[i] == chain@[n - 1 - i]);
            }
            assert(result@[0] == chain@[n - 1]);
            assert(result@.last() == chain@[0]);
        }
        Ok(result)
    }

    /// The local attributes of entity `id`, all explicit; entity rules and
    /// supertype constraints are refused.
    fn local_attributes(&mut self, id: DeclarationId) -> (r: Result<&'static [Attribute], Error>)
        requires
            old(self).work <= old(self).limits.max_work,
        ensures
            final(self).worked(old(self)),
            r matches Err(e) ==> e.kind != ErrorKind::UnknownSchema,
            final(self).entity == old(self).entity,
            final(self).attribute == old(self).attribute,
            final(self).source == old(self).source,
            r matches Ok(attributes) ==> {
                &&& id.0 < old(self).schemas.declarations@.len()
                &&& old(self).schemas.declarations@[id.0 as int].kind matches DeclarationKind::Entity {
                    attributes: a,
                    ..
                } && a == attributes
                &&& forall|i: int|
                    0 <= i < attributes@.len() ==> (#[trigger] attributes@[i]).kind
                        is Explicit
            },
    {
        let (attributes, unique, where_rules, constraint) = match self.declaration(id)? {
            DeclarationKind::Entity {
                attributes,
                unique,
                where_rules,
                supertype_constraint,
                ..
            } => (attributes, unique, where_rules, supertype_constraint),
            _ => {
                return Err(self.error(ErrorKind::InvalidMetadata, "expected an entity declaration"));
            },
        };
        if unique.len() != 0 || where_rules.len() != 0 || constraint.is_some() {
            return Err(self.error(ErrorKind::Unsupported, "entity rules or supertype constraints"));
        }
        let mut i: usize = 0;
        while i < attributes.len()
            invariant
                i <= attributes@.len(),
                self.worked(old(self)),
                self.entity == old(self).entity,
                self.attribute == old(self).attribute,
                self.source == old(self).source,
                forall|k: int| 0 <= k < i ==> (#[trigger] attributes@[k]).kind is Explicit,
            decreases attributes@.len() - i,
        {
            self.tick()?;
            match attributes[i].kind {
                AttributeKind::Explicit => {},
                _ => {
                    return Err(self.error(ErrorKind::Unsupported, "DERIVE or INVERSE attribute"));
                },
            }
            i += 1;
        }
        Ok(attributes)
    }
}


impl<'a> Context<'a> {
    /// A record's declaration and its explicit attributes in physical parameter
    /// order, each with its owner: the full inherited list for a simple instance,
    /// the local attributes for a component of a complex one.
    fn record_attributes(&mut self, kind: &EntityKind, record: &Record) -> (r: Result<
        (DeclarationId, Vec<(DeclarationId, &'static Attribute)>),
        Error,
    >)
        requires
            old(self).work <= old(self).limits.max_work,
            old(self).schema is Some,
        ensures
            final(self).worked(old(self)),
            r matches Err(e) ==> e.kind != ErrorKind::UnknownSchema,
            final(self).entity == old(self).entity,
            final(self).attribute == old(self).attribute,
            final(self).source == Some(record.source),
            r matches Ok((id, attributes)) ==> {
                let symbols = old(self).schema->Some_0.symbols@;
                &&& exists|i: int|
                    0 <= i < symbols.len() && symbols[i].declaration == id
                        && crate::schema::same_ignoring_ascii_case(symbols[i].name@, record.name@)
                &&& forall|i: int|
                    0 <= i < attributes@.len() ==> (#[trigger] attributes@[i]).1.kind is Explicit
            },
    {
        self.source = Some(record.source);
        let id = match self.lookup(record.name.as_str())? {
            Some(id) => id,
            None => {
                return Err(self.error(ErrorKind::UnknownEntity, "unknown entity name"));
            },
        };
        let owners = match kind {
            EntityKind::Simple(_) => self.hierarchy(id)?,
            EntityKind::Complex(_) => {
                let mut v: Vec<DeclarationId> = Vec::new();
                v.push(id);
                v
            },
        };
        let mut attributes: Vec<(DeclarationId, &'static Attribute)> = Vec::new();
        let mut o: usize = 0;
        while o < owners.len()
            invariant
                o <= owners@.len(),
                self.worked(old(self)),
                self.schema == old(self).schema,
                self.entity == old(self).entity,
                self.attribute == old(self).attribute,
                self.source == Some(record.source),
                forall|i: int|
                    0 <= i < attributes@.len() ==> (#[trigger] attributes@[i]).1.kind is Explicit,
            decreases owners@.len() - o,
        {
            let owner = owners[o];
            let local = self.local_attributes(owner)?;
            let mut a: usize = 0;
            while a < local.len()
                invariant
                    a <= local@.len(),
                    forall|i: int| 0 <= i < local@.len() ==> (#[trigger] local@[i]).kind is Explicit,
                    self.worked(old(self)),
                    self.schema == old(self).schema,
                    self.entity == old(self).entity,
                    self.attribute == old(self).attribute,
                    self.source == Some(record.source),
                    forall|i: int|
                        0 <= i < attributes@.len() ==> (#[trigger] attributes@[i]).1.kind
                            is Explicit,
                decreases local@.len() - a,
            {
                self.tick()?;
                attributes.push((owner, &local[a]));
                a += 1;
            }
            o += 1;
        }
        Ok((id, attributes))
    }

    /// Whether an attribute owned by `owner` of an instance with entity types
    /// `types` is one of the resolved link slots.
    fn is_link(
        &mut self,
        links: &Vec<ResolvedLink>,
        types: &Vec<DeclarationId>,
        owner: DeclarationId,
        attribute: &Attribute,
    ) -> (r: Result<bool, Error>)
        requires
            old(self).work <= old(self).limits.max_work,
        ensures
            final(self).worked(old(self)),
            r matches Err(e) ==> e.kind != ErrorKind::UnknownSchema,
            final(self).entity == old(self).entity,
            final(self).attribute == old(self).attribute,
            final(self).source == old(self).source,
            r matches Ok(b) ==> b == exists|i: int|
                0 <= i < links@.len() && (#[trigger] links@[i]).owner == owner && links@[i].name@
                    == attribute.name@ && types@.contains(links@[i].entity),
    {
        let mut i: usize = 0;
        while i < links.len()
            invariant
                i <= links@.len(),
                self.worked(old(self)),
                self.entity == old(self).entity,
                self.attribute == old(self).attribute,
                self.source == old(self).source,
                forall|k: int|
                    0 <= k < i ==> !((#[trigger] links@[k]).owner == owner && links@[k].name@
                        == attribute.name@ && types@.contains(links@[k].entity)),
            decreases links@.len() - i,
        {
            self.tick()?;
            let link = links[i];
            if link.owner == owner && same_str(link.name, attribute.name) && contains_id(
                types.as_slice(),
                link.entity,
            ) {
                assert(links@[i as int] == link);
                return Ok(true);
            }
            i += 1;
        }
        Ok(false)
    }

    /// Entity `id` may be instantiated as a leaf: it is not abstract.
    fn concrete_leaf(&mut self, id: DeclarationId) -> (r: Result<(), Error>)
        requires
            old(self).work <= old(self).limits.max_work,
        ensures
            final(self).worked(old(self)),
            r matches Err(e) ==> e.kind != ErrorKind::UnknownSchema,
            final(self).entity == old(self).entity,
            final(self).attribute == old(self).attribute,
            final(self).source == old(self).source,
            r is Ok ==> id.0 < old(self).schemas.declarations@.len() && !(
            old(self).schemas.declarations@[id.0 as int].kind matches DeclarationKind::Entity {
                abstract_entity: true,
                ..
            }),
            r matches Err(e) ==> e.kind == ErrorKind::ResourceLimit || e.kind
                == ErrorKind::InvalidMetadata || e.kind == ErrorKind::AbstractEntity,
    {
        match self.declaration(id)? {
            DeclarationKind::Entity { abstract_entity: true, .. } => {
                Err(self.error(ErrorKind::AbstractEntity, "abstract entity cannot be a leaf instance"))
            },
            _ => Ok(()),
        }
    }
}


impl<'a> Context<'a> {
    /// The complete entity membership of an instance, supertypes included, each
    /// once. A simple instance is its leaf's hierarchy; a complex instance lists
    /// its components, which must follow the canonical name order, include every
    /// inherited supertype, have at least two concrete leaves and form one
    /// connected inheritance graph.
    fn instance_types(&mut self, kind: &EntityKind) -> (r: Result<Vec<DeclarationId>, Error>)
        requires
            old(self).work <= old(self).limits.max_work,
            old(self).schema is Some,
        ensures
            final(self).worked(old(self)),
            r matches Err(e) ==> e.kind != ErrorKind::UnknownSchema,
            final(self).entity == old(self).entity,
            final(self).attribute == old(self).attribute,
            r is Ok ==> final(self).source == old(self).source || kind.spec_records().len() > 0,
            r matches Ok(v) ==> v@.len() >= 1,
    {
        let records = kind.records();
        let simple = match kind {
            EntityKind::Simple(_) => true,
            EntityKind::Complex(_) => false,
        };
        let mut ids: Vec<DeclarationId> = Vec::new();
        let mut included: BTreeSet<usize> = BTreeSet::new();
        let mut inherited: Vec<usize> = Vec::new();
        let mut previous: Option<Vec<u8>> = None;
        let mut r: usize = 0;
        while r < records.len()
            invariant
                r <= records@.len(),
                records@ == kind.spec_records(),
                self.schema is Some,
                simple == (kind is Simple),
                simple ==> records@.len() == 1,
                self.worked(old(self)),
                self.schema == old(self).schema,
                self.entity == old(self).entity,
                self.attribute == old(self).attribute,
                r == 0 ==> self.source == old(self).source,
                ids@.len() == r,
                forall|i: int, j: int| 0 <= i < j < inherited@.len() ==> inherited@[i] < inherited@[j],
            decreases records@.len() - r,
        {
            let record = &records[r];
            self.source = Some(record.source);
            let id = match self.lookup(record.name.as_str())? {
                Some(id) => id,
                None => {
                    return Err(self.error(ErrorKind::UnknownEntity, "unknown entity name"));
                },
            };
            match self.declaration(id)? {
                DeclarationKind::Entity { .. } => {},
                _ => {
                    return Err(self.error(ErrorKind::UnknownEntity, "record name is not an entity"));
                },
            }
            let name = self.schemas.declarations[id.0].name;
            if !simple {
                let upper = upper_bytes(name);
                if let Some(p) = &previous {
                    let (less, _) = crate::model::compare_bytes(p.as_slice(), upper.as_slice());
                    if !less {
                        return Err(
                            self.error(
                                ErrorKind::ComplexMapping,
                                "complex components must follow canonical entity name order",
                            ),
                        );
                    }
                }
                previous = Some(upper);
            }
            if included.contains(&id.0) {
                return Err(
                    self.error(ErrorKind::ComplexMapping, "duplicate complex component identity"),
                );
            }
            included.insert(id.0);
            ids.push(id);
            let hierarchy = self.hierarchy(id)?;
            let mut h: usize = 0;
            while h < hierarchy.len()
                invariant
                    h <= hierarchy@.len(),
                    self.worked(old(self)),
                    self.schema == old(self).schema,
                    self.entity == old(self).entity,
                    self.attribute == old(self).attribute,
                    forall|i: int, j: int|
                        0 <= i < j < inherited@.len() ==> inherited@[i] < inherited@[j],
                decreases hierarchy@.len() - h,
            {
                if hierarchy[h] != id {
                    self.tick()?;
                    insert_sorted(&mut inherited, hierarchy[h].0);
                }
                h += 1;
            }
            if simple {
                self.concrete_leaf(id)?;
                return Ok(hierarchy);
            }
            r += 1;
        }
        let mut k: usize = 0;
        while k < inherited.len()
            invariant
                k <= inherited@.len(),
                self.worked(old(self)),
                self.schema == old(self).schema,
                self.entity == old(self).entity,
                self.attribute == old(self).attribute,
                ids@.len() == records@.len(),
            decreases inherited@.len() - k,
        {
            self.tick()?;
            if !included.contains(&inherited[k]) {
                return Err(
                    self.error(
                        ErrorKind::ComplexMapping,
                        "complex mapping omits a required supertype component",
                    ),
                );
            }
            k += 1;
        }
        let mut leaves: usize = 0;
        let mut i: usize = 0;
        while i < ids.len()
            invariant
                i <= ids@.len(),
                leaves <= i,
                self.worked(old(self)),
                self.schema == old(self).schema,
                self.entity == old(self).entity,
                self.attribute == old(self).attribute,
                ids@.len() == records@.len(),
            decreases ids@.len() - i,
        {
            self.tick()?;
            if !contains_usize(&inherited, ids[i].0) {
                self.concrete_leaf(ids[i])?;
                leaves += 1;
            }
            i += 1;
        }
        if leaves < 2 {
            return Err(
                self.error(ErrorKind::ComplexMapping, "a single-leaf instance requires internal mapping"),
            );
        }
        // A complex instance must form one connected inheritance graph.
        let mut connected: BTreeSet<usize> = BTreeSet::new();
        connected.insert(ids[0].0);
        loop
            invariant
                ids@.len() >= 2,
                self.worked(old(self)),
                self.schema == old(self).schema,
                self.entity == old(self).entity,
                self.attribute == old(self).attribute,
                ids@.len() == records@.len(),
            decreases self.limits.max_work - self.work,
        {
            let before = connected.len();
            let ghost w0 = self.work;
            let mut i: usize = 0;
            while i < ids.len()
                invariant
                    i <= ids@.len(),
                    ids@.len() >= 2,
                    i > 0 ==> self.work > w0,
                    self.work >= w0,
                    self.worked(old(self)),
                    self.schema == old(self).schema,
                    self.entity == old(self).entity,
                    self.attribute == old(self).attribute,
                decreases ids@.len() - i,
            {
                let id = ids[i];
                let supertypes = match self.declaration(id)? {
                    DeclarationKind::Entity { supertypes, .. } => supertypes,
                    _ => {
                        return Err(
                            self.error(ErrorKind::InvalidMetadata, "expected an entity declaration"),
                        );
                    },
                };
                let mut p: usize = 0;
                while p < supertypes.len()
                    invariant
                        p <= supertypes@.len(),
                        self.work > w0,
                        self.worked(old(self)),
                        self.schema == old(self).schema,
                        self.entity == old(self).entity,
                        self.attribute == old(self).attribute,
                    decreases supertypes@.len() - p,
                {
                    self.tick()?;
                    let parent = supertypes[p];
                    if connected.contains(&id.0) || connected.contains(&parent.0) {
                        connected.insert(id.0);
                        connected.insert(parent.0);
                    }
                    p += 1;
                }
                i += 1;
            }
            if before == connected.len() {
                break;
            }
        }
        if connected.len() != ids.len() {
            return Err(self.error(ErrorKind::Unsupported, "complex instance of unrelated entities"));
        }
        Ok(ids)
    }
}


/// A copy of `v`.
fn copy_ids(v: &Vec<DeclarationId>) -> (r: Vec<DeclarationId>)
    ensures
        r@ == v@,
{
    let mut r: Vec<DeclarationId> = Vec::new();
    let mut i: usize = 0;
    while i < v.len()
        invariant
            i <= v@.len(),
            r@ == v@.take(i as int),
        decreases v@.len() - i,
    {
        r.push(v[i]);
        proof {
            assert(v@.take(i + 1) =~= v@.take(i as int).push(v@[i as int]));
        }
        i += 1;
    }
    proof {
        assert(v@.take(i as int) =~= v@);
    }
    r
}

/// A value of a primitive kind: `.T.`/`.F.` for BOOLEAN, also `.U.` for
/// LOGICAL, an integer for INTEGER, an integer or real for REAL and NUMBER, a
/// string for STRING, a binary for BINARY.
pub open spec fn primitive_matches(kind: Builtin, value: ValueKind) -> bool {
    match (kind, value) {
        (Builtin::Boolean, ValueKind::Enumeration(s)) => s@ == "T"@ || s@ == "F"@,
        (Builtin::Logical, ValueKind::Enumeration(s)) => s@ == "T"@ || s@ == "F"@ || s@ == "U"@,
        (Builtin::Integer, ValueKind::Integer(_)) => true,
        (Builtin::Real, ValueKind::Integer(_)) => true,
        (Builtin::Real, ValueKind::Real(_)) => true,
        (Builtin::Number, ValueKind::Integer(_)) => true,
        (Builtin::Number, ValueKind::Real(_)) => true,
        (Builtin::String, ValueKind::String(_)) => true,
        (Builtin::Binary, ValueKind::Binary(_)) => true,
        _ => false,
    }
}

/// The literal kinds that a builtin domain takes whatever they spell: an
/// integer for INTEGER, REAL and NUMBER; a real for REAL and NUMBER; a string
/// for STRING; a binary for BINARY.
pub open spec fn literal_kind_fits(kind: Builtin, value: ValueKind) -> bool {
    ||| value is Integer && (kind is Integer || kind is Real || kind is Number)
    ||| value is Real && (kind is Real || kind is Number)
    ||| value is String && kind is String
    ||| value is Binary && kind is Binary
}

/// Every integer literal satisfies INTEGER, REAL and NUMBER, every real
/// literal REAL and NUMBER, every string STRING and every binary BINARY; a
/// real literal never satisfies INTEGER.
pub proof fn lemma_literal_kinds_fit(kind: Builtin, value: ValueKind)
    ensures
        literal_kind_fits(kind, value) ==> primitive_matches(kind, value),
        value is Real && kind is Integer ==> !primitive_matches(kind, value),
{
}

/// A value that is neither unset, derived, nor a value or constant reference:
/// one that is checked against its domain.
pub open spec fn plain_value(value: ValueKind) -> bool {
    !(value is Null || value is Omitted || value is ValueReference || value is ConstantEntity
        || value is ConstantValue)
}

/// What a STRING or BINARY width constraint measures: the characters of a
/// string, the bits of a binary.
pub open spec fn measured_len(value: ValueKind) -> Option<int> {
    match value {
        ValueKind::String(text) => Some(text@.len() as int),
        ValueKind::Binary(b) => Some(b.bit_len as int),
        _ => None,
    }
}

/// A length within a width `n`: at most `n`, and exactly `n` where the width is fixed.
pub open spec fn width_fits(len: int, n: int, fixed: bool) -> bool {
    n >= 0 && len <= n && (fixed ==> len == n)
}

/// The outcome of checking a plain value against a builtin domain: a value of
/// another kind is a type mismatch; without a width it passes; with a width
/// literal `n` it passes when its measured length fits and is a width error
/// otherwise. Running out of budget is the one other outcome there.
pub open spec fn builtin_outcome(
    kind: Builtin,
    width: Option<Expression>,
    fixed: bool,
    value: ValueKind,
    r: Result<(), Error>,
) -> bool {
    if !primitive_matches(kind, value) {
        failed_with(r, ErrorKind::TypeMismatch)
    } else {
        match width {
            None => r is Ok,
            Some(w) => {
                let len = measured_len(value);
                let n = bound_value(w.text.spec_bytes());
                &&& r is Ok ==> len is Some && n is Some && width_fits(len->0, n->0, fixed)
                &&& failed_with(r, ErrorKind::Width) ==> len is Some && n is Some && !width_fits(
                    len->0,
                    n->0,
                    fixed,
                )
                &&& len is Some && n is Some && width_fits(len->0, n->0, fixed) ==> r is Ok
                    || failed_with(r, ErrorKind::ResourceLimit)
                &&& len is Some && n is Some && !width_fits(len->0, n->0, fixed) ==> failed_with(
                    r,
                    ErrorKind::Width,
                ) || failed_with(r, ErrorKind::ResourceLimit)
            },
        }
    }
}

/// Equality of two set values under a simple domain: integers by value,
/// strings by their characters, enumerations ignoring ASCII case; values of
/// different kinds are unequal, but an integer and a real are compared by the
/// real's numeric class (whose outcome this does not state).
pub open spec fn scalar_equal(left: ValueKind, right: ValueKind, r: Result<bool, Error>) -> bool {
    match (left, right) {
        (ValueKind::Integer(a), ValueKind::Integer(b)) => r == Ok::<bool, Error>(a == b),
        (ValueKind::String(a), ValueKind::String(b)) => (r is Ok || failed_with(r, ErrorKind::ResourceLimit))
            && (r is Ok ==> r == Ok::<bool, Error>(a@ == b@)),
        (ValueKind::Enumeration(a), ValueKind::Enumeration(b)) => r == Ok::<bool, Error>(
            crate::schema::same_ignoring_ascii_case(a@, b@),
        ),
        (ValueKind::Integer(_), ValueKind::Real(_)) => true,
        (ValueKind::Real(_), ValueKind::Integer(_)) => true,
        (ValueKind::Real(_), ValueKind::Real(_)) => true,
        (ValueKind::Binary(_), ValueKind::Binary(_)) => true,
        (ValueKind::Integer(_), _) => r == Ok::<bool, Error>(false),
        (ValueKind::String(_), _) => r == Ok::<bool, Error>(false),
        (ValueKind::Enumeration(_), _) => r == Ok::<bool, Error>(false),
        (ValueKind::Real(_), _) => r == Ok::<bool, Error>(false),
        (ValueKind::Binary(_), _) => r == Ok::<bool, Error>(false),
        _ => r == Ok::<bool, Error>(false),
    }
}

/// Aggregate equality compares element counts first: two aggregates of
/// different sizes, or a non-aggregate, are unequal, and equal aggregates
/// have the same size.
pub open spec fn aggregate_sizes_equal(left: ValueKind, right: ValueKind, r: Result<bool, Error>) -> bool {
    match (left, right) {
        (ValueKind::Aggregate(xs), ValueKind::Aggregate(ys)) => {
            &&& xs@.len() != ys@.len() ==> r == Ok::<bool, Error>(false)
            &&& r == Ok::<bool, Error>(true) ==> xs@.len() == ys@.len()
        },
        _ => r == Ok::<bool, Error>(false),
    }
}

/// The element count `len` of an aggregate against literal bounds: an ARRAY
/// holds exactly `high - low + 1` elements, a LIST or BAG at least `low`
/// (which is not negative) and, unless the upper bound is `?`, at most `high`.
pub open spec fn cardinality_fits(array: bool, low: int, high: Option<int>, len: int) -> bool {
    if array {
        high matches Some(h) && h >= low && len == h - low + 1
    } else {
        low >= 0 && len >= low && (high matches Some(h) ==> h >= low && len <= h)
    }
}

/// With bounds whose texts are integer literals (the upper one possibly
/// `?`), an aggregate whose element count does not fit them is refused with a
/// cardinality error, unless the budget runs out first.
pub open spec fn cardinality_outcome(
    kind: AggregateKind,
    bounds: Option<(Expression, Expression)>,
    len: int,
    r: Result<(), Error>,
) -> bool {
    match bounds {
        Some((lower, upper)) => {
            let low = bound_value(lower.text.spec_bytes());
            let high = if is_unbounded(upper.text@) {
                Some(None::<int>)
            } else {
                match bound_value(upper.text.spec_bytes()) {
                    Some(h) => Some(Some(h)),
                    None => None,
                }
            };
            low is Some && high is Some && !cardinality_fits(kind is Array, low->0, high->0, len) ==> (
            failed_with(r, ErrorKind::Cardinality) || failed_with(r, ErrorKind::ResourceLimit))
        },
        None => true,
    }
}

/// `r` is an error of kind `kind`.
pub open spec fn failed_with<T>(r: Result<T, Error>, kind: ErrorKind) -> bool {
    r matches Err(e) && e.kind == kind
}

fn primitive(kind: Builtin, value: &ValueKind) -> (r: bool)
    ensures
        r == primitive_matches(kind, *value),
{
    match (kind, value) {
        (Builtin::Boolean, ValueKind::Enumeration(s)) => text_is(s, "T") || text_is(s, "F"),
        (Builtin::Logical, ValueKind::Enumeration(s)) => text_is(s, "T") || text_is(s, "F")
            || text_is(s, "U"),
        (Builtin::Integer, ValueKind::Integer(_)) => true,
        (Builtin::Real, ValueKind::Integer(_)) => true,
        (Builtin::Real, ValueKind::Real(_)) => true,
        (Builtin::Number, ValueKind::Integer(_)) => true,
        (Builtin::Number, ValueKind::Real(_)) => true,
        (Builtin::String, ValueKind::String(_)) => true,
        (Builtin::Binary, ValueKind::Binary(_)) => true,
        _ => false,
    }
}

impl<'a> Context<'a> {
    /// Checks `value` against `domain`. An unset value passes only where it is
    /// `optional`; a derived marker never passes.
    #[verifier::loop_isolation(false)]
    fn value(&mut self, domain: &Domain, value: &StepValue, optional: bool, depth: usize) -> (r:
        Result<(), Error>)
        requires
            old(self).work <= old(self).limits.max_work,
            old(self).schema is Some,
            depth <= 128,
        ensures
            final(self).worked(old(self)),
            r matches Err(e) ==> e.kind != ErrorKind::UnknownSchema,
            final(self).schema == old(self).schema,
            final(self).entity == old(self).entity,
            final(self).attribute == old(self).attribute,
            r is Ok && value.kind is Null ==> optional,
            r is Ok ==> !(value.kind is Omitted),
            r is Ok && !(value.kind is Null) ==> match *domain {
                Domain::Builtin { kind, .. } => primitive_matches(kind, value.kind),
                Domain::Enumeration(_) => value.kind is Enumeration,
                Domain::Aggregate { .. } => value.kind is Aggregate,
                _ => true,
            },
            old(self).work >= old(self).limits.max_work || depth >= depth_cap(old(self).limits)
                ==> failed_with(r, ErrorKind::ResourceLimit),
            old(self).work < old(self).limits.max_work && depth < depth_cap(old(self).limits) && (
            *domain matches Domain::Builtin { kind, width: None, .. } && literal_kind_fits(kind, value.kind))
                ==> r is Ok,
            old(self).work < old(self).limits.max_work && depth < depth_cap(old(self).limits) ==> {
                &&& value.kind is Null ==> (r is Ok <==> optional) && (r matches Err(e) ==> e.kind
                    == ErrorKind::RequiredValue)
                &&& value.kind is Omitted ==> failed_with(r, ErrorKind::TypeMismatch)
                &&& (value.kind is ValueReference || value.kind is ConstantEntity
                    || value.kind is ConstantValue) ==> failed_with(r, ErrorKind::Unsupported)
                &&& plain_value(value.kind) ==> match *domain {
                    Domain::Builtin { kind, width, fixed } => builtin_outcome(
                        kind,
                        width,
                        fixed,
                        value.kind,
                        r,
                    ),
                    Domain::Enumeration(_) => !(value.kind is Enumeration) ==> failed_with(r, ErrorKind::TypeMismatch),
                    Domain::Aggregate { kind, bounds, .. } => {
                        &&& !(value.kind is Aggregate) ==> failed_with(r, ErrorKind::TypeMismatch)
                        &&& value.kind is Aggregate && kind is SetOf ==> failed_with(r, ErrorKind::Unsupported)
                        &&& value.kind is Aggregate && !(kind is SetOf) ==> cardinality_outcome(
                            kind,
                            bounds,
                            value.kind->Aggregate_0@.len() as int,
                            r,
                        )
                    },
                    _ => true,
                }
            },
        decreases 128 - depth, 1int,
    {
        self.source = Some(value.source);
        self.tick()?;
        if depth >= self.depth_limit() {
            return Err(self.error(ErrorKind::ResourceLimit, "domain/value depth budget"));
        }
        match &value.kind {
            ValueKind::Null => {
                return if optional {
                    Ok(())
                } else {
                    Err(self.error(ErrorKind::RequiredValue, "required value is unset"))
                };
            },
            ValueKind::Omitted => {
                return Err(
                    self.error(ErrorKind::TypeMismatch, "derived marker is not an explicit attribute value"),
                );
            },
            ValueKind::ValueReference(_) | ValueKind::ConstantValue(_) | ValueKind::ConstantEntity(_) => {
                return Err(self.error(ErrorKind::Unsupported, "value references and constants"));
            },
            _ => {},
        }
        match *domain {
            Domain::Named(id) => match self.declaration(id)? {
                DeclarationKind::Type { domain, where_rules } => {
                    if where_rules.len() != 0 {
                        return Err(self.error(ErrorKind::Unsupported, "type WHERE constraint"));
                    }
                    self.value(&domain, value, false, depth + 1)
                },
                DeclarationKind::Entity { .. } => self.reference(id, value),
                _ => Err(
                    self.error(ErrorKind::InvalidMetadata, "named domain is neither type nor entity"),
                ),
            },
            Domain::Builtin { kind, width, fixed } => {
                if !primitive(kind, &value.kind) {
                    return Err(
                        self.error(ErrorKind::TypeMismatch, "value does not match primitive domain"),
                    );
                }
                if let Some(width) = width {
                    let n = self.bound(width)?;
                    let len: usize = match &value.kind {
                        ValueKind::String(text) => {
                            let count = text.as_str().unicode_len();
                            let mut k: usize = 0;
                            while k < count
                                invariant
                                    k <= count,
                                    self.worked(old(self)),
                                    self.schema == old(self).schema,
                                    self.entity == old(self).entity,
                                    self.attribute == old(self).attribute,
                                decreases count - k,
                            {
                                self.tick()?;
                                k += 1;
                            }
                            count
                        },
                        ValueKind::Binary(b) => b.bit_len,
                        _ => {
                            return Err(self.error(ErrorKind::Unsupported, "numeric precision constraint"));
                        },
                    };
                    let wide = len as i128;
                    if n < 0 || (fixed && wide != n as i128) || wide > n as i128 {
                        return Err(self.error(ErrorKind::Width, "STRING/BINARY width constraint"));
                    }
                }
                Ok(())
            },
            Domain::Enumeration(members) => {
                if let ValueKind::Enumeration(name) = &value.kind {
                    let mut m: usize = 0;
                    while m < members.len()
                        invariant
                            m <= members@.len(),
                            value.kind is Enumeration,
                            *domain matches Domain::Enumeration(_),
                            self.worked(old(self)),
                            self.schema == old(self).schema,
                            self.entity == old(self).entity,
                            self.attribute == old(self).attribute,
                        decreases members@.len() - m,
                    {
                        self.tick()?;
                        if eq_ignore_ascii_case(members[m], name.as_str()) {
                            return Ok(());
                        }
                        m += 1;
                    }
                }
                Err(self.error(ErrorKind::TypeMismatch, "value is not an enumeration member"))
            },
            Domain::Aggregate { kind, bounds, optional: elements_optional, unique, element } => {
                let values = match &value.kind {
                    ValueKind::Aggregate(values) => values,
                    _ => {
                        return Err(self.error(ErrorKind::TypeMismatch, "expected aggregate value"));
                    },
                };
                let array = match kind {
                    AggregateKind::Array => true,
                    _ => false,
                };
                if let AggregateKind::SetOf = kind {
                    return Err(self.error(ErrorKind::Unsupported, "SET aggregates"));
                }
                if let Some((lower, upper)) = bounds {
                    let low = self.bound(lower)?;
                    let high = if unbounded(upper.text) {
                        None
                    } else {
                        Some(self.bound(upper)?)
                    };
                    let len = values.len() as i128;
                    let low = low as i128;
                    let valid = if array {
                        match high {
                            Some(high) => high as i128 >= low && len == high as i128 - low + 1,
                            None => false,
                        }
                    } else {
                        low >= 0 && len >= low && match high {
                            Some(high) => high as i128 >= low && len <= high as i128,
                            None => true,
                        }
                    };
                    if !valid {
                        return Err(self.error(ErrorKind::Cardinality, "aggregate cardinality constraint"));
                    }
                } else if array {
                    return Err(self.error(ErrorKind::InvalidMetadata, "ARRAY requires bounds"));
                }
                if elements_optional && !array {
                    return Err(self.error(ErrorKind::InvalidMetadata, "optional elements require ARRAY"));
                }
                let mut i: usize = 0;
                while i < values.len()
                    invariant
                        i <= values@.len(),
                        depth < 128,
                        self.work <= self.limits.max_work,
                        self.schema is Some,
                        self.worked(old(self)),
                        self.schema == old(self).schema,
                        self.entity == old(self).entity,
                        self.attribute == old(self).attribute,
                    decreases values@.len() - i,
                {
                    self.value(element, &values[i], elements_optional, depth + 1)?;
                    i += 1;
                }
                if unique {
                    let mut i: usize = 0;
                    while i < values.len()
                        invariant
                            i <= values@.len(),
                            depth < 128,
                            self.schema is Some,
                            self.worked(old(self)),
                            self.schema == old(self).schema,
                            self.entity == old(self).entity,
                            self.attribute == old(self).attribute,
                        decreases values@.len() - i,
                    {
                        // Unset OPTIONAL ARRAY elements have no known value to duplicate.
                        let item = &values[i];
                        let unset = match item.kind {
                            ValueKind::Null => true,
                            _ => false,
                        };
                        if !unset {
                            let mut j: usize = 0;
                            while j < i
                                invariant
                                    j <= i,
                                    i < values@.len(),
                                    depth < 128,
                                    self.schema is Some,
                                    self.worked(old(self)),
                                    self.schema == old(self).schema,
                                    self.entity == old(self).entity,
                                    self.attribute == old(self).attribute,
                                decreases i - j,
                            {
                                if self.equal(element, &values[j], item, depth + 1)? {
                                    self.source = Some(item.source);
                                    return Err(
                                        self.error(ErrorKind::DuplicateValue, "aggregate requires unique values"),
                                    );
                                }
                                j += 1;
                            }
                        }
                        i += 1;
                    }
                }
                Ok(())
            },
            Domain::Select(alternatives) => self.select_value(alternatives, value, depth + 1),
        }
    }

    /// `value` references a local entity whose types include `expected`.
    fn reference(&mut self, expected: DeclarationId, value: &StepValue) -> (r: Result<(), Error>)
        requires
            old(self).work <= old(self).limits.max_work,
        ensures
            final(self).worked(old(self)),
            r matches Err(e) ==> e.kind != ErrorKind::UnknownSchema,
            final(self).schema == old(self).schema,
            final(self).entity == old(self).entity,
            final(self).attribute == old(self).attribute,
            final(self).source == old(self).source,
            r is Ok ==> (value.kind matches ValueKind::Reference(target) && old(self).types@.contains_key(
                target.number(),
            ) && old(self).types@[target.number()]@.contains(expected)),
    {
        let target = match value.kind {
            ValueKind::Reference(target) => target,
            _ => {
                return Err(self.error(ErrorKind::TypeMismatch, "expected entity reference"));
            },
        };
        let actual = match self.types.get(&target.get()) {
            Some(types) => copy_ids(types),
            None => {
                let externals = self.document.external_references();
                let mut k: usize = 0;
                while k < externals.len()
                    invariant
                        k <= externals@.len(),
                        self.worked(old(self)),
                        self.schema == old(self).schema,
                        self.entity == old(self).entity,
                        self.attribute == old(self).attribute,
                        self.source == old(self).source,
                    decreases externals@.len() - k,
                {
                    self.tick()?;
                    if externals[k].id == Occurrence::Entity(target) {
                        return Err(
                            self.error(ErrorKind::Unsupported, "external entity reference resolution"),
                        );
                    }
                    k += 1;
                }
                return Err(self.error(ErrorKind::MissingReference, "entity reference target is missing"));
            },
        };
        let mut i: usize = 0;
        while i < actual.len()
            invariant
                i <= actual@.len(),
                value.kind matches ValueKind::Reference(t) && t == target,
                actual@ == old(self).types@[target.number()]@,
                old(self).types@.contains_key(target.number()),
                self.worked(old(self)),
                self.schema == old(self).schema,
                self.entity == old(self).entity,
                self.attribute == old(self).attribute,
                self.source == old(self).source,
            decreases actual@.len() - i,
        {
            self.tick()?;
            if actual[i] == expected {
                assert(old(self).types@[target.number()]@[i as int] == expected);
                return Ok(());
            }
            i += 1;
        }
        Err(self.error(ErrorKind::ReferenceType, "target is not assignable to entity domain"))
    }

    /// A profile link: `$` where optional, or a reference to a local entity,
    /// which is neither followed nor type-checked.
    fn link(&mut self, value: &StepValue, optional: bool) -> (r: Result<(), Error>)
        requires
            old(self).work <= old(self).limits.max_work,
        ensures
            final(self).worked(old(self)),
            r matches Err(e) ==> e.kind != ErrorKind::UnknownSchema,
            final(self).schema == old(self).schema,
            final(self).entity == old(self).entity,
            final(self).attribute == old(self).attribute,
            final(self).source == old(self).source,
            r is Ok <==> old(self).work < old(self).limits.max_work && match value.kind {
                ValueKind::Null => optional,
                ValueKind::Reference(target) => exists|i: int|
                    0 <= i < old(self).document.spec_entities().len()
                        && old(self).document.spec_entities()[i].id == target,
                _ => false,
            },
    {
        self.tick()?;
        match value.kind {
            ValueKind::Null => {
                if optional {
                    Ok(())
                } else {
                    Err(self.error(ErrorKind::RequiredValue, "required value is unset"))
                }
            },
            ValueKind::Reference(target) => {
                if self.document.entities().get(target).is_some() {
                    Ok(())
                } else {
                    Err(self.error(ErrorKind::MissingReference, "profile link target is missing"))
                }
            },
            _ => Err(self.error(ErrorKind::TypeMismatch, "profile link requires an entity reference")),
        }
    }

    /// `value` is one of the SELECT `alternatives`, searched depth first in
    /// declaration order through nested SELECT types: a reference to an entity
    /// assignable to an entity alternative, or a typed value whose type tag names
    /// a defined-type alternative and whose inner value matches that type.
    fn select_value(&mut self, alternatives: &'static [DeclarationId], value: &StepValue, depth: usize) -> (r:
        Result<(), Error>)
        requires
            old(self).work <= old(self).limits.max_work,
            old(self).schema is Some,
            depth <= 128,
        ensures
            final(self).worked(old(self)),
            r matches Err(e) ==> e.kind != ErrorKind::UnknownSchema,
            final(self).schema == old(self).schema,
            final(self).entity == old(self).entity,
            final(self).attribute == old(self).attribute,
        decreases 128 - depth, 0int,
    {
        if let ValueKind::Aggregate(_) = &value.kind {
            return Err(self.error(ErrorKind::Unsupported, "aggregate value of a SELECT type"));
        }
        let typed_id: Option<DeclarationId> = match &value.kind {
            ValueKind::Typed { name, .. } => match self.lookup(name.as_str())? {
                Some(id) => Some(id),
                None => {
                    return Err(self.error(ErrorKind::TypeMismatch, "unknown SELECT type tag"));
                },
            },
            _ => None,
        };
        let cap = self.depth_limit();
        let mut stack: Vec<(DeclarationId, usize)> = Vec::new();
        let mut k: usize = alternatives.len();
        while k > 0
            invariant
                k <= alternatives@.len(),
                depth <= 128,
                forall|j: int|
                    0 <= j < stack@.len() ==> depth <= (#[trigger] stack@[j]).1 <= 128,
                self.worked(old(self)),
                self.schema == old(self).schema,
                self.entity == old(self).entity,
                self.attribute == old(self).attribute,
            decreases k,
        {
            self.tick()?;
            k -= 1;
            stack.push((alternatives[k], depth));
        }
        while stack.len() > 0
            invariant
                cap == depth_cap(self.limits),
                self.schema is Some,
                forall|j: int|
                    0 <= j < stack@.len() ==> depth <= (#[trigger] stack@[j]).1 <= 128,
                self.worked(old(self)),
                self.schema == old(self).schema,
                self.entity == old(self).entity,
                self.attribute == old(self).attribute,
            decreases self.limits.max_work - self.work,
        {
            proof {
                assert(depth <= stack@[stack@.len() - 1].1 <= 128);
            }
            let (id, d) = stack.pop().unwrap();
            self.tick()?;
            if d >= cap {
                return Err(self.error(ErrorKind::ResourceLimit, "SELECT traversal depth budget"));
            }
            let ghost w1 = self.work;
            let reference = match value.kind {
                ValueKind::Reference(_) => true,
                _ => false,
            };
            match self.declaration(id)? {
                DeclarationKind::Entity { .. } => {
                    if reference {
                        match self.reference(id, value) {
                            Ok(()) => {
                                return Ok(());
                            },
                            Err(e) => {
                                if e.kind != ErrorKind::ReferenceType {
                                    return Err(e);
                                }
                            },
                        }
                    }
                },
                DeclarationKind::Type { domain, where_rules } => {
                    if where_rules.len() != 0 {
                        return Err(self.error(ErrorKind::Unsupported, "SELECT type WHERE constraint"));
                    }
                    if let Domain::Select(nested) = domain {
                        let mut k: usize = nested.len();
                        while k > 0
                            invariant
                                k <= nested@.len(),
                                depth <= d < cap,
                                self.schema is Some,
                                cap == depth_cap(self.limits),
                                self.work >= w1,
                                forall|j: int|
                                    0 <= j < stack@.len() ==> depth <= (#[trigger] stack@[j]).1 <= 128,
                                self.worked(old(self)),
                                self.schema == old(self).schema,
                                self.entity == old(self).entity,
                                self.attribute == old(self).attribute,
                            decreases k,
                        {
                            self.tick()?;
                            k -= 1;
                            stack.push((nested[k], d + 1));
                        }
                    } else if typed_id == Some(id) {
                        match &value.kind {
                            ValueKind::Typed { value: inner, .. } => {
                                return self.value(&domain, inner, false, d + 1);
                            },
                            _ => {},
                        }
                    }
                },
                _ => {
                    return Err(self.error(ErrorKind::InvalidMetadata, "invalid SELECT alternative"));
                },
            }
        }
        Err(self.error(ErrorKind::TypeMismatch, "value is not a permitted SELECT alternative"))
    }
}


/// Builtin kinds whose values can compare equal: the same kind, BOOLEAN with
/// LOGICAL, or any two numeric kinds.
pub open spec fn comparable(a: Builtin, b: Builtin) -> bool {
    ||| a == b
    ||| (a is Boolean || a is Logical) && (b is Boolean || b is Logical)
    ||| (a is Integer || a is Real || a is Number) && (b is Integer || b is Real || b is Number)
}

fn comparable_kinds(a: Builtin, b: Builtin) -> (r: bool)
    ensures
        r == comparable(a, b),
{
    let logical_a = match a {
        Builtin::Boolean | Builtin::Logical => true,
        _ => false,
    };
    let logical_b = match b {
        Builtin::Boolean | Builtin::Logical => true,
        _ => false,
    };
    let numeric_a = match a {
        Builtin::Integer | Builtin::Real | Builtin::Number => true,
        _ => false,
    };
    let numeric_b = match b {
        Builtin::Integer | Builtin::Real | Builtin::Number => true,
        _ => false,
    };
    a == b || (logical_a && logical_b) || (numeric_a && numeric_b)
}

impl<'a> Context<'a> {
    /// The numeric class of the real literal `text`, from the caller's table.
    fn real_class(&self, text: &String) -> (r: Result<&'a RealClass, Error>)
        ensures
            r matches Ok(c) ==> c.text@ == text@ && self.reals@.contains(*c),
            r matches Err(e) ==> e.kind == ErrorKind::Unsupported && forall|i: int|
                0 <= i < self.reals@.len() ==> (#[trigger] self.reals@[i]).text@ != text@,
    {
        let reals = self.reals;
        let mut i: usize = 0;
        while i < reals.len()
            invariant
                i <= reals@.len(),
                reals == self.reals,
                forall|k: int| 0 <= k < i ==> (#[trigger] reals@[k]).text@ != text@,
            decreases reals@.len() - i,
        {
            if reals[i].text == *text {
                assert(reals@[i as int] == reals[i as int]);
                return Ok(&reals[i]);
            }
            i += 1;
        }
        Err(self.error(ErrorKind::Unsupported, "real literal without a numeric class"))
    }

    /// Value equality under `domain`, ignoring physical source spans and nominal
    /// numeric aliases; entity values are equal when they are the same reference,
    /// and referenced graphs are never expanded. An unset value equals nothing.
    #[verifier::loop_isolation(false)]
    fn equal(&mut self, domain: &Domain, left: &StepValue, right: &StepValue, depth: usize) -> (r:
        Result<bool, Error>)
        requires
            old(self).work <= old(self).limits.max_work,
            old(self).schema is Some,
            depth <= 128,
        ensures
            final(self).worked(old(self)),
            r matches Err(e) ==> e.kind != ErrorKind::UnknownSchema,
            final(self).schema == old(self).schema,
            final(self).entity == old(self).entity,
            final(self).attribute == old(self).attribute,
            final(self).source == old(self).source,
            r matches Ok(true) ==> !(left.kind is Null) && !(right.kind is Null),
            old(self).work >= old(self).limits.max_work || depth >= depth_cap(old(self).limits)
                ==> failed_with(r, ErrorKind::ResourceLimit),
            old(self).work < old(self).limits.max_work && depth < depth_cap(old(self).limits) ==> {
                &&& (left.kind is Null || right.kind is Null) ==> r == Ok::<bool, Error>(false)
                &&& !(left.kind is Null) && !(right.kind is Null) && (domain is Builtin
                    || domain is Enumeration) ==> scalar_equal(left.kind, right.kind, r)
                &&& domain is Aggregate && !(left.kind is Null) && !(right.kind is Null)
                    ==> aggregate_sizes_equal(left.kind, right.kind, r)
            },
        decreases 128 - depth,
    {
        self.tick()?;
        if depth >= self.depth_limit() {
            return Err(self.error(ErrorKind::ResourceLimit, "aggregate equality depth budget"));
        }
        let left_unset = match left.kind {
            ValueKind::Null => true,
            _ => false,
        };
        let right_unset = match right.kind {
            ValueKind::Null => true,
            _ => false,
        };
        if left_unset || right_unset {
            return Ok(false);
        }
        match *domain {
            Domain::Named(id) => match self.declaration(id)? {
                DeclarationKind::Type { domain, .. } => self.equal(&domain, left, right, depth + 1),
                DeclarationKind::Entity { .. } => Ok(
                    match (&left.kind, &right.kind) {
                        (ValueKind::Reference(a), ValueKind::Reference(b)) => *a == *b,
                        _ => false,
                    },
                ),
                _ => Err(self.error(ErrorKind::InvalidMetadata, "invalid equality domain")),
            },
            Domain::Select(_) => {
                let (a, av, at) = self.selected_domain(left, depth + 1)?;
                let (b, bv, bt) = self.selected_domain(right, depth + 1)?;
                // Different enumeration declarations are distinct domains even if
                // their enumerator spellings happen to coincide.
                let enumeration = match a {
                    Domain::Enumeration(_) => true,
                    _ => false,
                };
                if enumeration && at != bt {
                    return Ok(false);
                }
                match (a, b) {
                    (Domain::Builtin { kind: ka, .. }, Domain::Builtin { kind: kb, .. }) => {
                        if comparable_kinds(ka, kb) {
                            self.equal(&a, av, bv, depth + 1)
                        } else {
                            Ok(false)
                        }
                    },
                    (Domain::Named(_), Domain::Named(_)) => self.equal(&a, av, bv, depth + 1),
                    (Domain::Enumeration(_), Domain::Enumeration(_)) => self.equal(
                        &a,
                        av,
                        bv,
                        depth + 1,
                    ),
                    (Domain::Aggregate { .. }, Domain::Aggregate { .. }) => {
                        if at == bt {
                            self.equal(&a, av, bv, depth + 1)
                        } else {
                            Err(
                                self.error(
                                    ErrorKind::Unsupported,
                                    "SELECT aggregate equality across distinct defined types",
                                ),
                            )
                        }
                    },
                    _ => Ok(false),
                }
            },
            Domain::Aggregate { kind, element, .. } => {
                let (xs, ys) = match (&left.kind, &right.kind) {
                    (ValueKind::Aggregate(xs), ValueKind::Aggregate(ys)) => (xs, ys),
                    _ => {
                        return Ok(false);
                    },
                };
                if xs.len() != ys.len() {
                    return Ok(false);
                }
                let ordered = match kind {
                    AggregateKind::Array | AggregateKind::List => true,
                    _ => false,
                };
                if ordered {
                    let mut i: usize = 0;
                    while i < xs.len()
                        invariant
                            i <= xs@.len(),
                            xs@.len() == ys@.len(),
                            depth < 128,
                            self.schema is Some,
                            self.worked(old(self)),
                            self.schema == old(self).schema,
                            self.entity == old(self).entity,
                            self.attribute == old(self).attribute,
                            self.source == old(self).source,
                        decreases xs@.len() - i,
                    {
                        if !self.equal(element, &xs[i], &ys[i], depth + 1)? {
                            return Ok(false);
                        }
                        i += 1;
                    }
                } else {
                    let mut used: Vec<bool> = Vec::new();
                    let mut j: usize = 0;
                    while j < ys.len()
                        invariant
                            j <= ys@.len(),
                            used@.len() == j,
                            self.worked(old(self)),
                            self.schema == old(self).schema,
                            self.entity == old(self).entity,
                            self.attribute == old(self).attribute,
                            self.source == old(self).source,
                        decreases ys@.len() - j,
                    {
                        self.tick()?;
                        used.push(false);
                        j += 1;
                    }
                    let mut i: usize = 0;
                    while i < xs.len()
                        invariant
                            i <= xs@.len(),
                            used@.len() == ys@.len(),
                            depth < 128,
                            self.schema is Some,
                            self.worked(old(self)),
                            self.schema == old(self).schema,
                            self.entity == old(self).entity,
                            self.attribute == old(self).attribute,
                            self.source == old(self).source,
                        decreases xs@.len() - i,
                    {
                        let mut found = false;
                        let mut j: usize = 0;
                        while j < ys.len()
                            invariant
                                j <= ys@.len(),
                                i < xs@.len(),
                                used@.len() == ys@.len(),
                                depth < 128,
                                self.schema is Some,
                                self.worked(old(self)),
                                self.schema == old(self).schema,
                                self.entity == old(self).entity,
                                self.attribute == old(self).attribute,
                                self.source == old(self).source,
                            decreases ys@.len() - j,
                        {
                            self.tick()?;
                            if !used[j] && self.equal(element, &xs[i], &ys[j], depth + 1)? {
                                used.set(j, true);
                                found = true;
                                break;
                            }
                            j += 1;
                        }
                        if !found {
                            return Ok(false);
                        }
                        i += 1;
                    }
                }
                Ok(true)
            },
            _ => {
                match (&left.kind, &right.kind) {
                    (ValueKind::Integer(a), ValueKind::Integer(b)) => Ok(*a == *b),
                    (ValueKind::Real(a), ValueKind::Real(b)) => {
                        let x = self.real_class(a)?;
                        let y = self.real_class(b)?;
                        Ok(x.class == y.class)
                    },
                    (ValueKind::Integer(a), ValueKind::Real(b)) => {
                        let y = self.real_class(b)?;
                        Ok(y.integer == Some(*a))
                    },
                    (ValueKind::Real(b), ValueKind::Integer(a)) => {
                        let y = self.real_class(b)?;
                        Ok(y.integer == Some(*a))
                    },
                    (ValueKind::String(a), ValueKind::String(b)) => {
                        let n = if a.as_str().len() < b.as_str().len() {
                            a.as_str().len()
                        } else {
                            b.as_str().len()
                        };
                        let mut k: usize = 0;
                        while k < n
                            invariant
                                k <= n,
                                self.worked(old(self)),
                                self.schema == old(self).schema,
                                self.entity == old(self).entity,
                                self.attribute == old(self).attribute,
                                self.source == old(self).source,
                            decreases n - k,
                        {
                            self.tick()?;
                            k += 1;
                        }
                        Ok(*a == *b)
                    },
                    (ValueKind::Binary(a), ValueKind::Binary(b)) => {
                        let n = if a.bytes.len() < b.bytes.len() {
                            a.bytes.len()
                        } else {
                            b.bytes.len()
                        };
                        let mut k: usize = 0;
                        while k < n
                            invariant
                                k <= n,
                                self.worked(old(self)),
                                self.schema == old(self).schema,
                                self.entity == old(self).entity,
                                self.attribute == old(self).attribute,
                                self.source == old(self).source,
                            decreases n - k,
                        {
                            self.tick()?;
                            k += 1;
                        }
                        let (_, same) = crate::model::compare_bytes(a.bytes.as_slice(), b.bytes.as_slice());
                        Ok(same && a.bit_len == b.bit_len)
                    },
                    (ValueKind::Enumeration(a), ValueKind::Enumeration(b)) => Ok(
                        eq_ignore_ascii_case(a.as_str(), b.as_str()),
                    ),
                    _ => Ok(false),
                }
            },
        }
    }

    /// The concrete domain a SELECT value was written in, following aliases: for
    /// a reference, its first entity type; for a typed value, the underlying
    /// domain of its type tag, the inner value and the defining type.
    fn selected_domain<'v>(&mut self, value: &'v StepValue, depth: usize) -> (r: Result<
        (Domain, &'v StepValue, Option<DeclarationId>),
        Error,
    >)
        requires
            old(self).work <= old(self).limits.max_work,
            old(self).schema is Some,
            depth <= 128,
        ensures
            final(self).worked(old(self)),
            r matches Err(e) ==> e.kind != ErrorKind::UnknownSchema,
            final(self).schema == old(self).schema,
            final(self).entity == old(self).entity,
            final(self).attribute == old(self).attribute,
            final(self).source == old(self).source,
            r matches Ok((_, v, _)) ==> !(v.kind is Null) || !(value.kind is Null),
        decreases 128 - depth,
    {
        let cap = self.depth_limit();
        if depth >= cap {
            return Err(self.error(ErrorKind::ResourceLimit, "SELECT equality depth budget"));
        }
        if let ValueKind::Reference(id) = value.kind {
            let first = match self.types.get(&id.get()) {
                Some(ids) => if ids.len() > 0 {
                    Some(ids[0])
                } else {
                    None
                },
                None => None,
            };
            return match first {
                Some(declaration) => Ok((Domain::Named(declaration), value, None)),
                None => Err(self.error(ErrorKind::MissingReference, "missing SELECT reference")),
            };
        }
        let (name, inner) = match &value.kind {
            ValueKind::Typed { name, value: inner } => (name, inner),
            _ => {
                return Err(self.error(ErrorKind::TypeMismatch, "expected SELECT tag"));
            },
        };
        let mut id = match self.lookup(name.as_str())? {
            Some(id) => id,
            None => {
                return Err(self.error(ErrorKind::TypeMismatch, "unknown SELECT tag"));
            },
        };
        let mut step: usize = depth;
        while step < cap
            invariant
                depth <= step <= cap,
                cap == depth_cap(self.limits),
                depth < 128,
                self.schema is Some,
                value.kind is Typed,
                self.worked(old(self)),
                self.schema == old(self).schema,
                self.entity == old(self).entity,
                self.attribute == old(self).attribute,
                self.source == old(self).source,
            decreases cap - step,
        {
            match self.declaration(id)? {
                DeclarationKind::Type { domain: Domain::Named(next), .. } => {
                    id = next;
                },
                DeclarationKind::Type { domain: Domain::Select(_), .. } => {
                    return self.selected_domain(inner, depth + 1);
                },
                DeclarationKind::Type { domain, .. } => {
                    return Ok((domain, inner, Some(id)));
                },
                _ => {
                    return Err(self.error(ErrorKind::InvalidMetadata, "invalid SELECT equality type"));
                },
            }
            step += 1;
        }
        Err(self.error(ErrorKind::ResourceLimit, "SELECT alias depth budget"))
    }
}


/// The values of attribute views, in order.
pub open spec fn view_values<'a>(attributes: Seq<AttributeView<'a>>) -> Seq<StepValue> {
    attributes.map_values(|a: AttributeView<'a>| *a.value)
}

/// The parameters of `records`, concatenated in order.
pub open spec fn parameters_of(records: Seq<Record>) -> Seq<StepValue>
    decreases records.len(),
{
    if records.len() == 0 {
        Seq::empty()
    } else {
        parameters_of(records.drop_last()) + records.last().parameters@
    }
}

/// `view` presents `instance`: the same identity, one attribute per physical
/// parameter in order, a declaration exactly for an internal mapping, and no
/// unset value in a required attribute.
pub open spec fn presents<'a>(view: EntityView<'a>, instance: EntityInstance) -> bool {
    &&& view.id == instance.id
    &&& view_values(view.attributes@) == parameters_of(instance.kind.spec_records())
    &&& (view.declaration is Some <==> instance.kind is Simple)
    &&& forall|j: int|
        0 <= j < view.attributes@.len() && (#[trigger] view.attributes@[j]).value.kind is Null
            ==> view.attributes@[j].declaration.optional
    &&& forall|j: int|
        0 <= j < view.attributes@.len() ==> (#[trigger] view.attributes@[j]).declaration.kind is Explicit
}

/// Declaration `d` is named `name`, ignoring ASCII case, by a symbol of schema `s`.
pub open spec fn names(s: Schema, d: DeclarationId, name: Seq<char>) -> bool {
    exists|i: int|
        0 <= i < s.symbols@.len() && s.symbols@[i].declaration == d
            && crate::schema::same_ignoring_ascii_case(s.symbols@[i].name@, name)
}

/// The view of a simple instance declares the entity type that its record
/// names in schema `s`.
pub open spec fn declares<'a>(view: EntityView<'a>, instance: EntityInstance, s: Schema) -> bool {
    instance.kind matches EntityKind::Simple(record) ==> (view.declaration matches Some(d) && names(
        s,
        d,
        record.name@,
    ))
}

/// `s` is the first schema of `schemas` named `name`, ignoring ASCII case.
pub open spec fn selected_schema(schemas: &SchemaSet, name: Seq<char>, s: Schema) -> bool {
    exists|i: int|
        0 <= i < schemas.schemas@.len() && schemas.schemas@[i] == s
            && crate::schema::same_ignoring_ascii_case(schemas.schemas@[i].name@, name) && forall|k: int|
            0 <= k < i ==> !crate::schema::same_ignoring_ascii_case(
                (#[trigger] schemas.schemas@[k]).name@,
                name,
            )
}

/// Immutable borrowed results, published only after every instance passes.
/// Reference cycles are permitted; references are checked without graph expansion.
#[derive(Debug)]
pub struct DecodedDocument<'a> {
    document: &'a Document,
    schemas: &'a SchemaSet,
    entities: Vec<EntityView<'a>>,
    by_id: BTreeMap<u64, usize>,
}

impl<'a> DecodedDocument<'a> {
    /// The index maps each identifier number to the position of its view.
    #[verifier::type_invariant]
    closed spec fn indexed(self) -> bool {
        &&& forall|i: int|
            0 <= i < self.entities@.len() ==> {
                let k = (#[trigger] self.entities@[i]).id.number();
                self.by_id@.contains_key(k) && self.by_id@[k] == i
            }
        &&& forall|k: u64|
            #[trigger] self.by_id@.contains_key(k) ==> {
                &&& (self.by_id@[k] as int) < self.entities@.len()
                &&& self.entities@[self.by_id@[k] as int].id.number() == k
            }
    }

    pub closed spec fn spec_document(&self) -> &'a Document {
        self.document
    }

    pub closed spec fn spec_schemas(&self) -> &'a SchemaSet {
        self.schemas
    }

    pub closed spec fn views(&self) -> Seq<EntityView<'a>> {
        self.entities@
    }

    pub fn document(&self) -> (r: &'a Document)
        ensures
            r == self.spec_document(),
    {
        self.document
    }

    pub fn schemas(&self) -> (r: &'a SchemaSet)
        ensures
            r == self.spec_schemas(),
    {
        self.schemas
    }

    /// The decoded instances, in document order.
    pub fn entities(&self) -> (r: &[EntityView<'a>])
        ensures
            r@ == self.views(),
    {
        self.entities.as_slice()
    }

    /// The decoded instance `id`, if it was decoded.
    pub fn get(&self, id: EntityId) -> (r: Option<&EntityView<'a>>)
        ensures
            match r {
                Some(v) => exists|i: int|
                    0 <= i < self.views().len() && self.views()[i] == *v && v.id == id,
                None => forall|i: int| 0 <= i < self.views().len() ==> (#[trigger] self.views()[i]).id != id,
            },
    {
        proof {
            use_type_invariant(self);
        }
        let key = id.get();
        match self.by_id.get(&key) {
            Some(slot) => {
                let v = &self.entities[*slot];
                proof {
                    EntityId::lemma_number_injective(v.id, id);
                }
                Some(v)
            },
            None => {
                proof {
                    assert forall|i: int| 0 <= i < self.views().len() implies (#[trigger] self.views()[i]).id
                        != id by {
                        let k = self.entities@[i].id.number();
                        assert(self.by_id@.contains_key(k));
                    }
                }
                None
            },
        }
    }
}


impl<'a> Context<'a> {
    /// Decodes one instance whose identity is resolved: every explicit attribute
    /// is checked against its physical parameter, profile slots and links as
    /// declared, and the view borrows the parameters.
    fn entity_view<'d>(
        &mut self,
        entity: &'d EntityInstance,
        omitted: &[OmittedSlot],
        resolved: &Vec<ResolvedLink>,
    ) -> (r: Result<EntityView<'d>, Error>)
        requires
            old(self).work <= old(self).limits.max_work,
            old(self).schema is Some,
            old(self).types@.contains_key(entity.id.number()),
        ensures
            final(self).worked(old(self)),
            r matches Err(e) ==> e.kind != ErrorKind::UnknownSchema,
            final(self).schema == old(self).schema,
            r matches Ok(v) ==> presents(v, *entity) && v.types@ == old(self).types@[entity.id.number()]@,
            r matches Ok(v) ==> declares(v, *entity, *old(self).schema->Some_0),
    {
        self.entity = Some(entity.id);
        self.attribute = None;
        self.source = Some(entity.source);
        let members = match self.types.get(&entity.id.get()) {
            Some(types) => copy_ids(types),
            None => Vec::new(),
        };
        let simple = match entity.kind {
            EntityKind::Simple(_) => true,
            EntityKind::Complex(_) => false,
        };
        let records = entity.kind.records();
        let mut views: Vec<AttributeView<'d>> = Vec::new();
        let mut primary: Option<DeclarationId> = None;
        let mut r: usize = 0;
        proof {
            assert(records@.take(0) =~= Seq::<Record>::empty());
            assert(view_values(views@) =~= Seq::<StepValue>::empty());
        }
        while r < records.len()
            invariant
                r <= records@.len(),
                records@ == entity.kind.spec_records(),
                simple == (entity.kind is Simple),
                simple ==> records@.len() == 1,
                (primary is Some) == (simple && r > 0),
                members@ == old(self).types@[entity.id.number()]@,
                self.worked(old(self)),
                self.schema == old(self).schema,
                self.schema is Some,
                view_values(views@) == parameters_of(records@.take(r as int)),
                forall|j: int|
                    0 <= j < views@.len() && (#[trigger] views@[j]).value.kind is Null
                        ==> views@[j].declaration.optional,
                forall|j: int| 0 <= j < views@.len() ==> (#[trigger] views@[j]).declaration.kind is Explicit,
                simple && r > 0 ==> (primary matches Some(d) && names(
                    *old(self).schema->Some_0,
                    d,
                    records@[0].name@,
                )),
            decreases records@.len() - r,
        {
            let record = &records[r];
            let (id, attributes) = self.record_attributes(&entity.kind, record)?;
            if simple {
                primary = Some(id);
            }
            if record.parameters.len() != attributes.len() {
                return Err(
                    self.error(
                        ErrorKind::AttributeCount,
                        "physical parameter count differs from explicit attribute count",
                    ),
                );
            }
            let parameters = &record.parameters;
            let mut j: usize = 0;
            proof {
                assert(parameters@.take(0) =~= Seq::<StepValue>::empty());
                assert(parameters_of(records@.take(r as int)) + parameters@.take(0) =~= parameters_of(
                    records@.take(r as int),
                ));
            }
            while j < attributes.len()
                invariant
                    j <= attributes@.len(),
                    attributes@.len() == parameters@.len(),
                    r < records@.len(),
                    *record == records@[r as int],
                    parameters@ == record.parameters@,
                    members@ == old(self).types@[entity.id.number()]@,
                    self.worked(old(self)),
                    self.schema == old(self).schema,
                    self.schema is Some,
                    view_values(views@) == parameters_of(records@.take(r as int)) + parameters@.take(
                        j as int,
                    ),
                    forall|k: int|
                        0 <= k < views@.len() && (#[trigger] views@[k]).value.kind is Null
                            ==> views@[k].declaration.optional,
                    forall|k: int| 0 <= k < views@.len() ==> (#[trigger] views@[k]).declaration.kind is Explicit,
                    forall|k: int| 0 <= k < attributes@.len() ==> (#[trigger] attributes@[k]).1.kind is Explicit,
                decreases attributes@.len() - j,
            {
                let (owner, attribute) = attributes[j];
                let value = &parameters[j];
                self.attribute = Some(attribute.name);
                self.source = Some(value.source);
                let link = self.is_link(resolved, &members, owner, attribute)?;
                let mut placeholder = false;
                let mut o: usize = 0;
                while o < omitted.len()
                    invariant
                        o <= omitted@.len(),
                        self.worked(old(self)),
                        self.schema == old(self).schema,
                        self.schema is Some,
                    decreases omitted@.len() - o,
                {
                    self.tick()?;
                    if same_str(omitted[o].attribute, attribute.name) {
                        let mut t: usize = 0;
                        while t < members.len()
                            invariant
                                t <= members@.len(),
                                o < omitted@.len(),
                                self.worked(old(self)),
                                self.schema == old(self).schema,
                                self.schema is Some,
                            decreases members@.len() - t,
                        {
                            self.tick()?;
                            if members[t] == omitted[o].entity {
                                placeholder = true;
                            }
                            t += 1;
                        }
                    }
                    o += 1;
                }
                if placeholder {
                    let marker = match value.kind {
                        ValueKind::Omitted => true,
                        _ => false,
                    };
                    if !marker {
                        return Err(
                            self.error(
                                ErrorKind::TypeMismatch,
                                "physical-profile slot requires a derived marker",
                            ),
                        );
                    }
                } else if link {
                    self.link(value, attribute.optional)?;
                } else {
                    self.value(&attribute.domain, value, attribute.optional, 0)?;
                }
                let view = AttributeView { owner, declaration: attribute, value };
                proof {
                    assert(parameters@.take(j + 1) =~= parameters@.take(j as int).push(parameters@[j as int]));
                    assert(view_values(views@.push(view)) =~= view_values(views@).push(*value));
                }
                views.push(view);
                j += 1;
            }
            self.attribute = None;
            proof {
                assert(parameters@.take(j as int) =~= parameters@);
                assert(records@.take(r + 1).drop_last() =~= records@.take(r as int));
                assert(records@.take(r + 1).last() == records@[r as int]);
            }
            r += 1;
        }
        let mut t: usize = 0;
        while t < members.len()
            invariant
                t <= members@.len(),
                self.worked(old(self)),
                self.schema == old(self).schema,
            decreases members@.len() - t,
        {
            self.tick()?;
            t += 1;
        }
        proof {
            assert(records@.take(r as int) =~= records@);
        }
        Ok(EntityView { id: entity.id, declaration: primary, types: members, attributes: views })
    }
}


/// `slots` holds `(entity, attribute)`.
fn slot_taken(slots: &Vec<(DeclarationId, &'static str)>, entity: DeclarationId, attribute: &str) -> (r:
    bool)
    ensures
        r == exists|i: int|
            0 <= i < slots@.len() && (#[trigger] slots@[i]).0 == entity && slots@[i].1@ == attribute@,
{
    let mut i: usize = 0;
    while i < slots.len()
        invariant
            i <= slots@.len(),
            forall|k: int|
                0 <= k < i ==> !((#[trigger] slots@[k]).0 == entity && slots@[k].1@ == attribute@),
        decreases slots@.len() - i,
    {
        let (e, a) = slots[i];
        if e == entity && same_str(a, attribute) {
            assert(slots@[i as int].0 == entity);
            return true;
        }
        i += 1;
    }
    false
}

impl<'a> Context<'a> {
    /// Selects the first schema named `name`, ignoring ASCII case, one unit per
    /// schema examined.
    fn select_schema(&mut self, name: &str) -> (r: Result<(), Error>)
        requires
            old(self).work <= old(self).limits.max_work,
            old(self).schema is None,
        ensures
            final(self).work <= final(self).limits.max_work,
            final(self).schemas == old(self).schemas,
            final(self).document == old(self).document,
            final(self).reals == old(self).reals,
            final(self).limits == old(self).limits,
            final(self).types == old(self).types,
            final(self).entity == old(self).entity,
            final(self).attribute == old(self).attribute,
            final(self).source == old(self).source,
            r is Ok ==> final(self).schema is Some && old(self).work < old(self).limits.max_work,
            r is Ok ==> selected_schema(old(self).schemas, name@, *final(self).schema->Some_0),
            r matches Err(e) ==> e.kind == ErrorKind::ResourceLimit || e.kind == ErrorKind::UnknownSchema,
            (r matches Err(e) && e.kind == ErrorKind::UnknownSchema) ==> forall|i: int|
                0 <= i < old(self).schemas.schemas@.len() ==> !crate::schema::same_ignoring_ascii_case(
                    (#[trigger] old(self).schemas.schemas@[i]).name@,
                    name@,
                ),
            (forall|i: int|
                0 <= i < old(self).schemas.schemas@.len() ==> !crate::schema::same_ignoring_ascii_case(
                    (#[trigger] old(self).schemas.schemas@[i]).name@,
                    name@,
                )) && old(self).schemas.schemas@.len() <= old(self).limits.max_work - old(self).work
                ==> (r matches Err(e) && e.kind == ErrorKind::UnknownSchema),
            forall|i: int|
                0 <= i < old(self).schemas.schemas@.len() && #[trigger] crate::schema::same_ignoring_ascii_case(
                    old(self).schemas.schemas@[i].name@,
                    name@,
                ) && old(self).work + i + 1 <= old(self).limits.max_work ==> r is Ok && final(self).work
                    <= old(self).work + i + 1,
    {
        let schemas = self.schemas.schemas;
        let mut i: usize = 0;
        while i < schemas.len()
            invariant
                i <= schemas@.len(),
                schemas == old(self).schemas.schemas,
                self.schema is None,
                self.work == old(self).work + i,
                self.work <= self.limits.max_work,
                self.schemas == old(self).schemas,
                self.document == old(self).document,
                self.reals == old(self).reals,
                self.limits == old(self).limits,
                self.types == old(self).types,
                self.entity == old(self).entity,
                self.attribute == old(self).attribute,
                self.source == old(self).source,
                forall|k: int|
                    0 <= k < i ==> !crate::schema::same_ignoring_ascii_case(
                        (#[trigger] schemas@[k]).name@,
                        name@,
                    ),
            decreases schemas@.len() - i,
        {
            self.tick()?;
            if eq_ignore_ascii_case(schemas[i].name, name) {
                self.schema = Some(&schemas[i]);
                proof {
                    assert(schemas@[i as int] == *self.schema->Some_0);
                }
                return Ok(());
            }
            i += 1;
        }
        Err(self.error(ErrorKind::UnknownSchema, "selected schema is not supplied"))
    }

    /// Checks the declared profile slots: each names exactly one attribute of its
    /// entity's hierarchy, and no slot is declared twice. Links resolve to the
    /// declaration that owns the attribute.
    #[verifier::loop_isolation(false)]
    fn resolve_slots(&mut self, omitted: &[OmittedSlot], links: &[LinkSlot]) -> (r: Result<
        Vec<ResolvedLink>,
        Error,
    >)
        requires
            old(self).work <= old(self).limits.max_work,
        ensures
            final(self).worked(old(self)),
            r matches Err(e) ==> e.kind != ErrorKind::UnknownSchema,
            final(self).schema == old(self).schema,
            r matches Ok(v) ==> v@.len() == links@.len(),
            omitted@.len() == 0 && links@.len() == 0 ==> r is Ok && final(self).work == old(self).work,
    {
        let mut slots: Vec<(DeclarationId, &'static str)> = Vec::new();
        let mut s: usize = 0;
        while s < omitted.len()
            invariant
                s <= omitted@.len(),
                omitted@.len() == 0 ==> self.work == old(self).work,
                self.worked(old(self)),
                self.schema == old(self).schema,
            decreases omitted@.len() - s,
        {
            self.tick()?;
            let slot = omitted[s];
            let mut matches: usize = 0;
            let owners = self.hierarchy(slot.entity)?;
            let mut o: usize = 0;
            while o < owners.len()
                invariant
                    o <= owners@.len(),
                    matches <= 2,
                    self.worked(old(self)),
                    self.schema == old(self).schema,
                decreases owners@.len() - o,
            {
                let attributes = self.local_attributes(owners[o])?;
                let mut a: usize = 0;
                while a < attributes.len()
                    invariant
                        a <= attributes@.len(),
                        matches <= 2,
                        self.worked(old(self)),
                        self.schema == old(self).schema,
                    decreases attributes@.len() - a,
                {
                    self.tick()?;
                    if same_str(attributes[a].name, slot.attribute) && matches < 2 {
                        matches += 1;
                    }
                    a += 1;
                }
                o += 1;
            }
            if matches != 1 || slot_taken(&slots, slot.entity, slot.attribute) {
                return Err(
                    self.error(
                        ErrorKind::InvalidMetadata,
                        "ambiguous, missing or duplicate physical-profile slot",
                    ),
                );
            }
            slots.push((slot.entity, slot.attribute));
            s += 1;
        }
        // Each link resolves to its single declaring owner, so equally named attributes
        // inherited from another branch are never mistaken for the link.
        let mut resolved: Vec<ResolvedLink> = Vec::new();
        let mut l: usize = 0;
        while l < links.len()
            invariant
                l <= links@.len(),
                resolved@.len() == l,
                omitted@.len() == 0 && links@.len() == 0 ==> self.work == old(self).work,
                self.worked(old(self)),
                self.schema == old(self).schema,
            decreases links@.len() - l,
        {
            self.tick()?;
            let slot = links[l];
            let mut found: Vec<DeclarationId> = Vec::new();
            let owners = self.hierarchy(slot.entity)?;
            let mut o: usize = 0;
            while o < owners.len()
                invariant
                    o <= owners@.len(),
                    self.worked(old(self)),
                    self.schema == old(self).schema,
                decreases owners@.len() - o,
            {
                let owner = owners[o];
                let attributes = self.local_attributes(owner)?;
                let mut a: usize = 0;
                while a < attributes.len()
                    invariant
                        a <= attributes@.len(),
                        self.worked(old(self)),
                        self.schema == old(self).schema,
                    decreases attributes@.len() - a,
                {
                    self.tick()?;
                    if same_str(attributes[a].name, slot.attribute) {
                        found.push(owner);
                    }
                    a += 1;
                }
                o += 1;
            }
            if found.len() != 1 || slot_taken(&slots, slot.entity, slot.attribute) {
                return Err(
                    self.error(
                        ErrorKind::InvalidMetadata,
                        "ambiguous, missing or duplicate physical-profile slot",
                    ),
                );
            }
            slots.push((slot.entity, slot.attribute));
            resolved.push(ResolvedLink { entity: slot.entity, owner: found[0], name: slot.attribute });
            l += 1;
        }
        Ok(resolved)
    }

    /// Parameterized DATA sections are refused.
    #[verifier::loop_isolation(false)]
    fn check_sections(&mut self) -> (r: Result<(), Error>)
        requires
            old(self).work <= old(self).limits.max_work,
        ensures
            final(self).worked(old(self)),
            r matches Err(e) ==> e.kind != ErrorKind::UnknownSchema,
            final(self).schema == old(self).schema,
            final(self).entity == old(self).entity,
            final(self).attribute == old(self).attribute,
            r is Ok ==> forall|i: int|
                0 <= i < old(self).document.spec_sections().len() ==> (
                #[trigger] old(self).document.spec_sections()[i]).parameters@.len() == 0,
            (forall|i: int|
                0 <= i < old(self).document.spec_sections().len() ==> (
                #[trigger] old(self).document.spec_sections()[i]).parameters@.len() == 0) && old(self).work
                + old(self).document.spec_sections().len() <= old(self).limits.max_work ==> r is Ok,
    {
        let sections = self.document.data_sections();
        let mut i: usize = 0;
        while i < sections.len()
            invariant
                i <= sections@.len(),
                sections@ == old(self).document.spec_sections(),
                self.worked(old(self)),
                self.schema == old(self).schema,
                self.entity == old(self).entity,
                self.attribute == old(self).attribute,
                forall|k: int| 0 <= k < i ==> (#[trigger] sections@[k]).parameters@.len() == 0,
                self.work == old(self).work + i,
            decreases sections@.len() - i,
        {
            self.tick()?;
            if sections[i].parameters.len() != 0 {
                self.source = Some(sections[i].source);
                return Err(self.error(ErrorKind::Unsupported, "parameterized DATA population mapping"));
            }
            i += 1;
        }
        Ok(())
    }
}


/// Some entry of `pending` has identifier number `n`.
pub open spec fn pending_has(pending: Seq<EntityId>, n: u64) -> bool {
    exists|p: int| 0 <= p < pending.len() && (#[trigger] pending[p]).number() == n
}

proof fn lemma_pending_push(pending: Seq<EntityId>, x: EntityId)
    ensures
        pending_has(pending.push(x), x.number()),
        forall|n: u64| pending_has(pending, n) ==> #[trigger] pending_has(pending.push(x), n),
{
    assert(pending.push(x)[pending.len() as int] == x);
    assert forall|n: u64| pending_has(pending, n) implies #[trigger] pending_has(pending.push(x), n) by {
        let p = choose|p: int| 0 <= p < pending.len() && (#[trigger] pending[p]).number() == n;
        assert(pending.push(x)[p] == pending[p]);
    }
}

proof fn lemma_pending_pop(pending: Seq<EntityId>)
    requires
        pending.len() > 0,
    ensures
        forall|n: u64|
            #[trigger] pending_has(pending, n) ==> pending_has(pending.drop_last(), n) || n
                == pending.last().number(),
{
    assert forall|n: u64| #[trigger] pending_has(pending, n) implies pending_has(pending.drop_last(), n)
        || n == pending.last().number() by {
        let p = choose|p: int| 0 <= p < pending.len() && (#[trigger] pending[p]).number() == n;
        if p < pending.len() - 1 {
            assert(pending.drop_last()[p] == pending[p]);
        }
    }
}

/// Some instance of `entities` has identifier number `n`.
pub open spec fn has_number(entities: Seq<EntityInstance>, n: u64) -> bool {
    exists|j: int| 0 <= j < entities.len() && (#[trigger] entities[j]).id.number() == n
}

impl<'a> Context<'a> {
    /// The local entity-reference closure of `roots`, iteratively and cycle-safe:
    /// the roots, and every entity referenced from a parameter of a selected
    /// instance, except through declared link slots.
    fn closure(&mut self, roots: &[EntityId], resolved: &Vec<ResolvedLink>) -> (r: Result<
        BTreeSet<u64>,
        Error,
    >)
        requires
            old(self).work <= old(self).limits.max_work,
            old(self).schema is Some,
        ensures
            final(self).worked(old(self)),
            r matches Err(e) ==> e.kind != ErrorKind::UnknownSchema,
            final(self).schema == old(self).schema,
            r matches Ok(selected) ==> {
                &&& forall|i: int|
                    0 <= i < roots@.len() ==> selected@.contains((#[trigger] roots@[i]).number())
                &&& forall|n: u64|
                    #[trigger] selected@.contains(n) ==> has_number(
                        old(self).document.spec_entities(),
                        n,
                    )
            },
    {
        let document = self.document;
        let entities = document.entities();
        let mut selected: BTreeSet<u64> = BTreeSet::new();
        let mut pending: Vec<EntityId> = Vec::new();
        let mut i: usize = 0;
        while i < roots.len()
            invariant
                i <= roots@.len(),
                document == old(self).document,
                self.worked(old(self)),
                self.schema == old(self).schema,
                forall|k: int| 0 <= k < i ==> selected@.contains((#[trigger] roots@[k]).number()),
                forall|n: u64| #[trigger] selected@.contains(n) ==> pending_has(pending@, n),
            decreases roots@.len() - i,
        {
            self.tick()?;
            let root = roots[i];
            let ghost before = pending@;
            if selected.insert(root.get()) {
                pending.push(root);
                proof {
                    lemma_pending_push(before, root);
                }
            }
            i += 1;
        }
        while pending.len() > 0
            invariant
                document == old(self).document,
                entities@ == document.spec_entities(),
                self.worked(old(self)),
                self.schema == old(self).schema,
                self.schema is Some,
                forall|k: int| 0 <= k < roots@.len() ==> selected@.contains((#[trigger] roots@[k]).number()),
                forall|n: u64|
                    #[trigger] selected@.contains(n) ==> pending_has(pending@, n) || has_number(
                        entities@,
                        n,
                    ),
            decreases self.limits.max_work - self.work,
        {
            let ghost before = pending@;
            let id = pending.pop().unwrap();
            proof {
                lemma_pending_pop(before);
            }
            self.entity = Some(id);
            self.source = match entities.get(id) {
                Some(e) => Some(e.source),
                None => None,
            };
            self.tick()?;
            let entity = match entities.get(id) {
                Some(e) => e,
                None => {
                    return Err(
                        self.error(ErrorKind::MissingReference, "closure references a nonlocal entity"),
                    );
                },
            };
            proof {
                assert(has_number(entities@, id.number())) by {
                    let j = choose|j: int| 0 <= j < entities@.len() && entities@[j] == *entity && entity.id == id;
                    assert(entities@[j].id.number() == id.number());
                }
            }
            let ghost w1 = self.work;
            let types = if resolved.len() == 0 {
                Vec::new()
            } else {
                self.instance_types(&entity.kind)?
            };
            let records = entity.kind.records();
            let mut r: usize = 0;
            while r < records.len()
                invariant
                    r <= records@.len(),
                    document == old(self).document,
                    entities@ == document.spec_entities(),
                    self.worked(old(self)),
                    self.work >= w1,
                    self.schema == old(self).schema,
                    self.schema is Some,
                    forall|k: int|
                        0 <= k < roots@.len() ==> selected@.contains((#[trigger] roots@[k]).number()),
                    forall|n: u64|
                        #[trigger] selected@.contains(n) ==> pending_has(pending@, n) || has_number(
                            entities@,
                            n,
                        ),
                decreases records@.len() - r,
            {
                let record = &records[r];
                self.tick()?;
                let mut skip: Vec<bool> = Vec::new();
                if resolved.len() != 0 {
                    let (_, attributes) = self.record_attributes(&entity.kind, record)?;
                    let mut a: usize = 0;
                    while a < attributes.len()
                        invariant
                            a <= attributes@.len(),
                            skip@.len() == a,
                            self.worked(old(self)),
                            self.work >= w1,
                            self.schema == old(self).schema,
                            self.schema is Some,
                        decreases attributes@.len() - a,
                    {
                        let (owner, attribute) = attributes[a];
                        let link = self.is_link(resolved, &types, owner, attribute)?;
                        skip.push(link);
                        a += 1;
                    }
                    // Without positional agreement no slot can be identified safely.
                    if skip.len() != record.parameters.len() {
                        return Err(
                            self.error(
                                ErrorKind::AttributeCount,
                                "physical parameter count differs from explicit attribute count",
                            ),
                        );
                    }
                }
                let parameters = &record.parameters;
                let mut values: Vec<&StepValue> = Vec::new();
                let mut index: usize = 0;
                while index < parameters.len()
                    invariant
                        index <= parameters@.len(),
                        self.worked(old(self)),
                        self.work >= w1,
                        self.schema == old(self).schema,
                        self.schema is Some,
                    decreases parameters@.len() - index,
                {
                    self.tick()?;
                    let skipped = index < skip.len() && skip[index];
                    if !skipped {
                        values.push(&parameters[index]);
                    }
                    index += 1;
                }
                while values.len() > 0
                    invariant
                        document == old(self).document,
                        entities@ == document.spec_entities(),
                        self.worked(old(self)),
                        self.work >= w1,
                        self.schema == old(self).schema,
                        self.schema is Some,
                        forall|k: int|
                            0 <= k < roots@.len() ==> selected@.contains((#[trigger] roots@[k]).number()),
                        forall|n: u64|
                            #[trigger] selected@.contains(n) ==> pending_has(pending@, n) || has_number(
                                entities@,
                                n,
                            ),
                    decreases self.limits.max_work - self.work,
                {
                    let value = values.pop().unwrap();
                    self.tick()?;
                    let ghost w2 = self.work;
                    self.source = Some(value.source);
                    match &value.kind {
                        ValueKind::Reference(target) => {
                            let found = match entities.get(*target) {
                                Some(e) => {
                                    proof {
                                        let j = choose|j: int|
                                            0 <= j < entities@.len() && entities@[j] == *e && e.id == *target;
                                        assert(entities@[j].id.number() == target.number());
                                    }
                                    true
                                },
                                None => false,
                            };
                            if !found {
                                return Err(
                                    self.error(
                                        ErrorKind::MissingReference,
                                        "closure references a nonlocal entity",
                                    ),
                                );
                            }
                            let ghost before = pending@;
                            if selected.insert(target.get()) {
                                pending.push(*target);
                                proof {
                                    lemma_pending_push(before, *target);
                                }
                            }
                        },
                        ValueKind::Aggregate(items) => {
                            let mut k: usize = 0;
                            while k < items.len()
                                invariant
                                    k <= items@.len(),
                                    self.worked(old(self)),
                                    self.work >= w2,
                                    w2 >= w1,
                                    self.schema == old(self).schema,
                                decreases items@.len() - k,
                            {
                                self.tick()?;
                                values.push(&items[k]);
                                k += 1;
                            }
                        },
                        ValueKind::Typed { value: inner, .. } => {
                            values.push(&**inner);
                        },
                        _ => {},
                    }
                }
                r += 1;
            }
        }
        Ok(selected)
    }
}


/// The instances to decode, in document order: all of them, or those selected.
fn scope_instances<'d>(
    cx: &mut Context,
    entities: &'d [EntityInstance],
    all: bool,
    selected: &BTreeSet<u64>,
) -> (r: Result<Vec<&'d EntityInstance>, Error>)
    requires
        old(cx).work <= old(cx).limits.max_work,
        crate::model::ids_distinct(entities@),
    ensures
        final(cx).worked(old(cx)),
        r matches Err(e) ==> e.kind != ErrorKind::UnknownSchema,
        final(cx).schema == old(cx).schema,
        entities@.len() == 0 ==> r is Ok,
        r matches Ok(v) ==> {
            &&& forall|k: int| 0 <= k < v@.len() ==> entities@.contains(*(#[trigger] v@[k]))
            &&& forall|a: int, b: int|
                0 <= a < b < v@.len() ==> (#[trigger] v@[a]).id.number() != (#[trigger] v@[b]).id.number()
            &&& all ==> v@.len() == entities@.len() && forall|k: int|
                0 <= k < v@.len() ==> *(#[trigger] v@[k]) == entities@[k]
            &&& forall|j: int|
                0 <= j < entities@.len() && selected@.contains((#[trigger] entities@[j]).id.number())
                    ==> exists|k: int| 0 <= k < v@.len() && *v@[k] == entities@[j]
        },
{
    let mut v: Vec<&'d EntityInstance> = Vec::new();
    let ghost mut idx: Seq<int> = Seq::empty();
    let mut i: usize = 0;
    while i < entities.len()
        invariant
            i <= entities@.len(),
            crate::model::ids_distinct(entities@),
            cx.worked(old(cx)),
            cx.schema == old(cx).schema,
            idx.len() == v@.len(),
            forall|k: int| 0 <= k < v@.len() ==> 0 <= #[trigger] idx[k] < i && *v@[k] == entities@[idx[k]],
            forall|a: int, b: int| 0 <= a < b < idx.len() ==> #[trigger] idx[a] < #[trigger] idx[b],
            all ==> v@.len() == i && forall|k: int| 0 <= k < v@.len() ==> idx[k] == k,
            forall|j: int|
                0 <= j < i && selected@.contains((#[trigger] entities@[j]).id.number()) ==> exists|k: int|
                    0 <= k < v@.len() && *v@[k] == entities@[j],
        decreases entities@.len() - i,
    {
        cx.tick()?;
        let ghost v0 = v@;
        if all || selected.contains(&entities[i].id.get()) {
            v.push(&entities[i]);
            proof {
                idx = idx.push(i as int);
                assert(*v@[v@.len() - 1] == entities@[i as int]);
            }
        }
        proof {
            assert forall|j: int|
                0 <= j < i + 1 && selected@.contains((#[trigger] entities@[j]).id.number()) implies exists|k: int|
                    0 <= k < v@.len() && *v@[k] == entities@[j] by {
                if j == i {
                    assert(*v@[v@.len() - 1] == entities@[j]);
                } else {
                    let k = choose|k: int| 0 <= k < v0.len() && *v0[k] == entities@[j];
                    assert(*v@[k] == entities@[j]);
                }
            }
        }
        i += 1;
    }
    proof {
        if all {
            assert forall|k: int| 0 <= k < v@.len() implies *(#[trigger] v@[k]) == entities@[k] by {
                assert(idx[k] == k);
            }
        }
        assert forall|k: int| 0 <= k < v@.len() implies entities@.contains(*(#[trigger] v@[k])) by {
            assert(entities@[idx[k]] == *v@[k]);
        }
        assert forall|a: int, b: int| 0 <= a < b < v@.len() implies (#[trigger] v@[a]).id.number()
            != (#[trigger] v@[b]).id.number() by {
            assert(idx[a] < idx[b]);
            assert(entities@[idx[a]].id.number() != entities@[idx[b]].id.number());
        }
    }
    Ok(v)
}

/// Resolves the entity types of every instance before any value is inspected,
/// which allows forward references.
fn resolve_types(cx: &mut Context, instances: &Vec<&EntityInstance>) -> (r: Result<(), Error>)
    requires
        old(cx).work <= old(cx).limits.max_work,
        old(cx).schema is Some,
    ensures
        final(cx).work <= final(cx).limits.max_work,
        r matches Err(e) ==> e.kind != ErrorKind::UnknownSchema,
        final(cx).schema == old(cx).schema,
        final(cx).schemas == old(cx).schemas,
        final(cx).document == old(cx).document,
        final(cx).limits == old(cx).limits,
        instances@.len() == 0 ==> r is Ok,
        r is Ok ==> forall|k: int|
            0 <= k < instances@.len() ==> final(cx).types@.contains_key(
                (#[trigger] instances@[k]).id.number(),
            ),
{
    let mut k: usize = 0;
    while k < instances.len()
        invariant
            k <= instances@.len(),
            cx.work <= cx.limits.max_work,
            cx.schema == old(cx).schema,
            cx.schema is Some,
            cx.schemas == old(cx).schemas,
            cx.document == old(cx).document,
            cx.limits == old(cx).limits,
            forall|j: int| 0 <= j < k ==> cx.types@.contains_key((#[trigger] instances@[j]).id.number()),
        decreases instances@.len() - k,
    {
        let entity = instances[k];
        cx.entity = Some(entity.id);
        cx.source = Some(entity.source);
        cx.tick()?;
        let members = cx.instance_types(&entity.kind)?;
        cx.types.insert(entity.id.get(), members);
        k += 1;
    }
    Ok(())
}

/// The view at `k` presents some instance of `instances`.
pub open spec fn presented_at<'a>(
    views: Seq<EntityView<'a>>,
    instances: Seq<EntityInstance>,
    s: Schema,
    k: int,
) -> bool {
    exists|j: int|
        0 <= j < instances.len() && #[trigger] presents(views[k], instances[j]) && declares(
            views[k],
            instances[j],
            s,
        )
}

/// Every view presents, and declares in schema `s`, some instance of `instances`.
pub open spec fn each_presented<'a>(views: Seq<EntityView<'a>>, instances: Seq<EntityInstance>, s: Schema) -> bool {
    forall|k: int| 0 <= k < views.len() ==> #[trigger] presented_at(views, instances, s, k)
}

/// Some view has identifier `id`.
pub open spec fn has_view<'a>(views: Seq<EntityView<'a>>, id: EntityId) -> bool {
    exists|k: int| 0 <= k < views.len() && #[trigger] views[k].id == id
}

/// Every root has a view.
pub open spec fn roots_included<'a>(views: Seq<EntityView<'a>>, roots: Seq<EntityId>) -> bool {
    forall|i: int| 0 <= i < roots.len() ==> #[trigger] has_view(views, roots[i])
}

/// What a successful decode returns: the document and schema set it borrows,
/// views that present document instances and declare them in the selected
/// schema `s`, all of them in document order or,
/// for a closure, every root; unparameterized DATA sections; and only width
/// and bound diagnostics in the schema set.
pub open spec fn decoded<'a>(
    d: DecodedDocument<'a>,
    document: &'a Document,
    schemas: &'a SchemaSet,
    roots: Option<Seq<EntityId>>,
    s: Schema,
) -> bool {
    let views = d.views();
    let instances = document.spec_entities();
    &&& d.spec_document() == document
    &&& d.spec_schemas() == schemas
    &&& each_presented(views, instances, s)
    &&& match roots {
        None => views.len() == instances.len() && forall|k: int|
            0 <= k < views.len() ==> presents(#[trigger] views[k], instances[k]) && declares(
                views[k],
                instances[k],
                s,
            ),
        Some(rs) => roots_included(views, rs),
    }
    &&& forall|i: int|
        0 <= i < document.spec_sections().len() ==> (#[trigger] document.spec_sections()[i]).parameters@.len()
            == 0
    &&& forall|i: int|
        0 <= i < schemas.unsupported@.len() ==> (#[trigger] schemas.unsupported@[i]).code@ == "EX2001"@
}

/// What `decoded` states, for the schema selected by `schema_name`.
pub open spec fn decoded_with<'a>(
    d: DecodedDocument<'a>,
    document: &'a Document,
    schemas: &'a SchemaSet,
    schema_name: Seq<char>,
    roots: Option<Seq<EntityId>>,
) -> bool {
    exists|s: Schema| selected_schema(schemas, schema_name, s) && #[trigger] decoded(d, document, schemas, roots, s)
}

/// No schema of `schemas` is named `name`, ignoring ASCII case.
pub open spec fn unknown_schema(schemas: &SchemaSet, name: Seq<char>) -> bool {
    forall|i: int|
        0 <= i < schemas.schemas@.len() ==> !crate::schema::same_ignoring_ascii_case(
            (#[trigger] schemas.schemas@[i]).name@,
            name,
        )
}

/// The outcome of decoding: on success what `decoded` states; `UnknownSchema`
/// exactly when no schema has the selected name (once the budget covers the
/// search); no success without work budget.
pub open spec fn decode_outcome<'a>(
    r: Result<DecodedDocument<'a>, Error>,
    document: &'a Document,
    schemas: &'a SchemaSet,
    schema_name: Seq<char>,
    limits: Limits,
    roots: Option<Seq<EntityId>>,
) -> bool {
    &&& r matches Ok(d) ==> decoded_with(d, document, schemas, schema_name, roots)
    &&& (r matches Err(e) && e.kind == ErrorKind::UnknownSchema) ==> unknown_schema(schemas, schema_name)
    &&& unknown_schema(schemas, schema_name) && schemas.schemas@.len() <= limits.max_work ==> (r matches Err(
        e,
    ) && e.kind == ErrorKind::UnknownSchema)
    &&& limits.max_work == 0 ==> r is Err
}

/// A document that decoding accepts without examining any instance: it holds
/// no entity instance, its DATA sections carry no parameters, the schema set
/// records no unsupported construct, the schema at index `i` has the requested
/// name, and the budget covers examining the schemas up to it and one step per
/// DATA section.
pub open spec fn accepts_empty(
    document: &Document,
    schemas: &SchemaSet,
    schema_name: Seq<char>,
    limits: Limits,
    i: int,
) -> bool {
    &&& 0 <= i < schemas.schemas@.len()
    &&& crate::schema::same_ignoring_ascii_case(schemas.schemas@[i].name@, schema_name)
    &&& i + 1 + document.spec_sections().len() <= limits.max_work
    &&& document.spec_entities().len() == 0
    &&& schemas.unsupported@.len() == 0
    &&& forall|k: int|
        0 <= k < document.spec_sections().len() ==> (#[trigger] document.spec_sections()[k]).parameters@.len()
            == 0
}

fn decode_scope<'a>(
    document: &'a Document,
    schemas: &'a SchemaSet,
    schema_name: &str,
    limits: Limits,
    roots: Option<&[EntityId]>,
    omitted: &[OmittedSlot],
    links: &[LinkSlot],
    reals: &[RealClass],
) -> (r: Result<DecodedDocument<'a>, Error>)
    ensures
        decode_outcome(
            r,
            document,
            schemas,
            schema_name@,
            limits,
            match roots {
                Some(rs) => Some(rs@),
                None => None,
            },
        ),
        roots is None && omitted@.len() == 0 && links@.len() == 0 ==> forall|i: int|
            #[trigger] accepts_empty(document, schemas, schema_name@, limits, i) ==> r is Ok,
{
    let mut cx = Context {
        schemas,
        schema: None,
        document,
        reals,
        limits,
        work: 0,
        entity: None,
        attribute: None,
        source: None,
        types: BTreeMap::new(),
    };
    cx.select_schema(schema_name)?;
    let ghost chosen = *cx.schema->Some_0;
    assert(selected_schema(schemas, schema_name@, chosen));
    cx.check_diagnostics()?;
    let resolved = cx.resolve_slots(omitted, links)?;
    cx.check_sections()?;
    let entities = document.entities().as_slice();
    let (all, selected) = match roots {
        Some(roots) => (false, cx.closure(roots, &resolved)?),
        None => (true, BTreeSet::new()),
    };
    let instances = scope_instances(&mut cx, entities, all, &selected)?;
    resolve_types(&mut cx, &instances)?;
    let mut views: Vec<EntityView<'a>> = Vec::new();
    let mut by_id: BTreeMap<u64, usize> = BTreeMap::new();
    let mut n: usize = 0;
    while n < instances.len()
        invariant
            n <= instances@.len(),
            views@.len() == n,
            roots is None ==> instances@.len() == document.spec_entities().len(),
            limits.max_work > 0,
            unknown_schema(schemas, schema_name@) ==> schemas.schemas@.len() > limits.max_work,
            cx.work <= cx.limits.max_work,
            cx.schema is Some,
            forall|k: int| 0 <= k < instances@.len() ==> cx.types@.contains_key((#[trigger] instances@[k]).id.number()),
            forall|a: int, b: int|
                0 <= a < b < instances@.len() ==> (#[trigger] instances@[a]).id.number()
                    != (#[trigger] instances@[b]).id.number(),
            forall|k: int| 0 <= k < n ==> presents(#[trigger] views@[k], *instances@[k]),
            forall|k: int| 0 <= k < n ==> declares(#[trigger] views@[k], *instances@[k], chosen),
            cx.schema is Some && *cx.schema->Some_0 == chosen,
            forall|k: int|
                0 <= k < n ==> {
                    let key = (#[trigger] views@[k]).id.number();
                    by_id@.contains_key(key) && by_id@[key] == k
                },
            forall|key: u64|
                #[trigger] by_id@.contains_key(key) ==> {
                    &&& (by_id@[key] as int) < n
                    &&& views@[by_id@[key] as int].id.number() == key
                },
        decreases instances@.len() - n,
    {
        let entity = instances[n];
        let view = cx.entity_view(entity, omitted, &resolved)?;
        proof {
            assert forall|key: u64| #[trigger] by_id@.contains_key(key) implies key != entity.id.number() by {
                let k = by_id@[key] as int;
                assert(views@[k].id.number() == key);
                assert(presents(views@[k], *instances@[k]));
                assert(instances@[k].id.number() != instances@[n as int].id.number());
            }
        }
        by_id.insert(entity.id.get(), n);
        views.push(view);
        n += 1;
    }
    let d = DecodedDocument { document, schemas, entities: views, by_id };
    proof {
        assert(d.views() == views@);
        assert(entities@ == document.spec_entities());
        assert forall|k: int| 0 <= k < d.views().len() implies #[trigger] presented_at(
            d.views(),
            document.spec_entities(),
            chosen,
            k,
        ) by {
            assert(entities@.contains(*instances@[k]));
            let j = choose|j: int| 0 <= j < entities@.len() && entities@[j] == *instances@[k];
            assert(presents(views@[k], entities@[j]));
            assert(declares(views@[k], entities@[j], chosen));
        }
        assert(each_presented(d.views(), document.spec_entities(), chosen));
        if let Some(rs) = roots {
            assert forall|i: int| 0 <= i < rs@.len() implies #[trigger] has_view(d.views(), rs@[i]) by {
                let x = rs@[i].number();
                assert(selected@.contains(x));
                assert(has_number(entities@, x));
                let j = choose|j: int| 0 <= j < entities@.len() && (#[trigger] entities@[j]).id.number() == x;
                assert(selected@.contains(entities@[j].id.number()));
                assert(exists|k: int| 0 <= k < instances@.len() && *instances@[k] == entities@[j]);
                let k = choose|k: int| 0 <= k < instances@.len() && *instances@[k] == entities@[j];
                assert(presents(views@[k], *instances@[k]));
                assert(d.views()[k].id == entities@[j].id);
                EntityId::lemma_number_injective(d.views()[k].id, rs@[i]);
                assert(d.views()[k].id == rs@[i]);
            }
            assert(roots_included(d.views(), rs@));
        } else {
            assert(all);
            assert(d.views().len() == document.spec_entities().len());
            assert forall|k: int| 0 <= k < d.views().len() implies presents(
                #[trigger] d.views()[k],
                document.spec_entities()[k],
            ) && declares(d.views()[k], document.spec_entities()[k], chosen) by {
                assert(*instances@[k] == entities@[k]);
                assert(presents(views@[k], *instances@[k]));
                assert(declares(views@[k], *instances@[k], chosen));
            }
        }
        assert(decoded(d, document, schemas, match roots {
            Some(rs) => Some(rs@),
            None => None,
        }, chosen));
        assert(selected_schema(schemas, schema_name@, chosen));
        let rts = match roots {
            Some(rs) => Some(rs@),
            None => None,
        };
        assert(decoded(d, document, schemas, rts, chosen));
        assert(decoded_with(d, document, schemas, schema_name@, rts));
    }
    Ok(d)
}

/// Decodes every instance with a caller-selected schema. FILE_SCHEMA and DATA
/// population mapping are not inferred; parameterized DATA sections are
/// unsupported. The first error is deterministic; a failure returns no partial
/// view. Real literals are compared through the numeric classes of `reals`.
pub fn decode<'a>(
    document: &'a Document,
    schemas: &'a SchemaSet,
    schema_name: &str,
    limits: Limits,
    reals: &[RealClass],
) -> (r: Result<DecodedDocument<'a>, Error>)
    ensures
        decode_outcome(r, document, schemas, schema_name@, limits, None),
        forall|i: int| #[trigger] accepts_empty(document, schemas, schema_name@, limits, i) ==> r is Ok,
{
    decode_scope(document, schemas, schema_name, limits, None, &[], &[], reals)
}

/// Structurally decodes only the local entity-reference closure of explicit
/// roots. Unrelated records are not validated; FILE_SCHEMA is not interpreted and
/// the result does not establish schema conformance of the complete document.
/// Traversal is iterative, cycle-safe, and shares the decoding work budget.
pub fn decode_reachable<'a>(
    document: &'a Document,
    schemas: &'a SchemaSet,
    schema_name: &str,
    roots: &[EntityId],
    limits: Limits,
    reals: &[RealClass],
) -> (r: Result<DecodedDocument<'a>, Error>)
    ensures
        decode_outcome(r, document, schemas, schema_name@, limits, Some(roots@)),
{
    decode_scope(document, schemas, schema_name, limits, Some(roots), &[], &[], reals)
}

/// Decodes a selected reference closure under an explicit physical mapping
/// profile: only declared slots accept `*`, and those slots refuse every other
/// value. Metadata rules and unsupported diagnostics are still checked.
pub fn decode_reachable_profile<'a>(
    document: &'a Document,
    schemas: &'a SchemaSet,
    schema_name: &str,
    roots: &[EntityId],
    omitted: &[OmittedSlot],
    limits: Limits,
    reals: &[RealClass],
) -> (r: Result<DecodedDocument<'a>, Error>)
    ensures
        decode_outcome(r, document, schemas, schema_name@, limits, Some(roots@)),
{
    decode_scope(document, schemas, schema_name, limits, Some(roots), omitted, &[], reals)
}

/// `decode_reachable_profile` that also leaves declared link slots unexpanded:
/// link targets are absent from the result unless another decoded reference
/// reaches them.
pub fn decode_reachable_profile_with_links<'a>(
    document: &'a Document,
    schemas: &'a SchemaSet,
    schema_name: &str,
    roots: &[EntityId],
    omitted: &[OmittedSlot],
    links: &[LinkSlot],
    limits: Limits,
    reals: &[RealClass],
) -> (r: Result<DecodedDocument<'a>, Error>)
    ensures
        decode_outcome(r, document, schemas, schema_name@, limits, Some(roots@)),
{
    decode_scope(document, schemas, schema_name, limits, Some(roots), omitted, links, reals)
}

} // verus!
