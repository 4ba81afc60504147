//! Generic entity storage and reference analysis of a parsed exchange structure.
use vstd::prelude::*;
use std::collections::BTreeMap;
use std::ops::Range;
use crate::diagnostic::{Diagnostic, DiagnosticCode, Severity, SourceSpan};
use crate::limits::ParseLimits;
use crate::parser::{Event, Parser, text_is, anchor_ok, entity_ok, header_ok, parameters_ok, record_ok, span_in, event_span};
use crate::text::{push_decimal, push_str, decimal_text};
use vstd::utf8::encode_utf8;
use crate::value::{Anchor, EntityId, EntityInstance, EntityKind, ExternalReference, Occurrence, Record, Signature, StepValue, ValueKind};

verus! {

broadcast use vstd::std_specs::btree::group_btree_axioms;

/// Dense insertion-order records indexed by sparse physical IDs. Lookup is
/// O(log n); large IDs never allocate a correspondingly large array.
#[derive(Debug, PartialEq)]
pub struct EntityDatabase {
    entities: Vec<EntityInstance>,
    by_id: BTreeMap<u64, usize>,
}

impl View for EntityDatabase {
    type V = Seq<EntityInstance>;

    /// The entity instances in declaration order.
    closed spec fn view(&self) -> Seq<EntityInstance> {
        self.entities@
    }
}

/// No two instances of `es` have the same identifier.
pub open spec fn ids_distinct(es: Seq<EntityInstance>) -> bool {
    forall|i: int, j: int|
        0 <= i < j < es.len() ==> (#[trigger] es[i]).id.number() != (#[trigger] es[j]).id.number()
}

impl EntityDatabase {
    /// The index maps each identifier number to the position of its instance.
    #[verifier::type_invariant]
    closed spec fn indexed(self) -> bool {
        &&& forall|i: int|
            0 <= i < self.entities@.len() ==> {
                let k = (#[trigger] self.entities@[i]).id.number();
                self.by_id@.contains_key(k) && self.by_id@[k] == i
            }
        &&& forall|k: u64|
            #[trigger] self.by_id@.contains_key(k) ==> {
                &&& (self.by_id@[k] as int) < self.entities@.len()
                &&& self.entities@[self.by_id@[k] as int].id.number() == k
            }
    }

    /// The instance with identifier `id`, if one was declared.
    pub fn get(&self, id: EntityId) -> (r: Option<&EntityInstance>)
        ensures
            ids_distinct(self@),
            match r {
                Some(e) => exists|i: int| 0 <= i < self@.len() && self@[i] == *e && e.id == id,
                None => forall|i: int| 0 <= i < self@.len() ==> (#[trigger] self@[i]).id != id,
            },
    {
        proof {
            use_type_invariant(self);
            assert forall|i: int, j: int|
                0 <= i < j < self@.len() implies (#[trigger] self@[i]).id.number()
                != (#[trigger] self@[j]).id.number() by {
                let k = self.entities@[i].id.number();
                assert(self.by_id@[k] == i);
            }
        }
        let key = id.get();
        match self.by_id.get(&key) {
            Some(slot) => {
                let e = &self.entities[*slot];
                proof {
                    EntityId::lemma_number_injective(e.id, id);
                }
                Some(e)
            },
            None => {
                proof {
                    assert forall|i: int| 0 <= i < self@.len() implies (#[trigger] self@[i]).id
                        != id by {
                        let k = self.entities@[i].id.number();
                        assert(self.by_id@.contains_key(k));
                    }
                }
                None
            },
        }
    }

    /// The instances in declaration order.
    pub fn as_slice(&self) -> (r: &[EntityInstance])
        ensures
            r@ == self@,
            ids_distinct(self@),
    {
        proof {
            use_type_invariant(self);
            assert forall|i: int, j: int|
                0 <= i < j < self@.len() implies (#[trigger] self@[i]).id.number()
                != (#[trigger] self@[j]).id.number() by {
                let k = self.entities@[i].id.number();
                assert(self.by_id@[k] == i);
            }
        }
        self.entities.as_slice()
    }

    pub fn len(&self) -> (r: usize)
        ensures
            r == self@.len(),
    {
        self.entities.len()
    }

    pub fn is_empty(&self) -> (r: bool)
        ensures
            r == (self@.len() == 0),
    {
        self.entities.len() == 0
    }
}

/// A `DATA` section: its parameters and the range of instances it declares.
#[derive(Debug, PartialEq)]
pub struct DataSection {
    pub parameters: Vec<StepValue>,
    /// Range into the instances of `Document::entities()`, in declaration order.
    pub entities: Range<usize>,
    pub source: SourceSpan,
}

/// A syntactically complete exchange structure.
#[derive(Debug, PartialEq)]
pub struct Document {
    headers: Vec<Record>,
    entities: EntityDatabase,
    sections: Vec<DataSection>,
    anchors: Vec<Anchor>,
    externals: Vec<ExternalReference>,
    signatures: Vec<Signature>,
}

/// Position of an occurrence in the order of external references: entity
/// names first, then value names, each by number.
pub open spec fn occurrence_rank(o: Occurrence) -> int {
    match o {
        Occurrence::Entity(id) => id.number() as int,
        Occurrence::Value(id) => 0x1_0000_0000_0000_0000 + id.number(),
    }
}

/// The occurrence number of an external reference or entity instance is declared once.
pub open spec fn occurrence_numbers_distinct(
    entities: Seq<EntityInstance>,
    externals: Seq<ExternalReference>,
) -> bool {
    &&& ids_distinct(entities)
    &&& forall|i: int, j: int|
        0 <= i < entities.len() && 0 <= j < externals.len() ==> (#[trigger] entities[i]).id.number()
            != (#[trigger] externals[j]).id.spec_number()
    &&& forall|i: int, j: int|
        0 <= i < j < externals.len() ==> occurrence_rank((#[trigger] externals[i]).id)
            < occurrence_rank((#[trigger] externals[j]).id)
}

impl Document {
    pub closed spec fn spec_headers(&self) -> Seq<Record> {
        self.headers@
    }

    pub closed spec fn spec_entities(&self) -> Seq<EntityInstance> {
        self.entities@
    }

    pub closed spec fn spec_sections(&self) -> Seq<DataSection> {
        self.sections@
    }

    pub closed spec fn spec_anchors(&self) -> Seq<Anchor> {
        self.anchors@
    }

    pub closed spec fn spec_externals(&self) -> Seq<ExternalReference> {
        self.externals@
    }

    pub closed spec fn spec_signatures(&self) -> Seq<Signature> {
        self.signatures@
    }

    /// What every document returned by `parse` satisfies under `limits`.
    pub open spec fn well_formed(&self, limits: ParseLimits) -> bool {
        let hs = self.spec_headers();
        let es = self.spec_entities();
        let ss = self.spec_sections();
        let as_ = self.spec_anchors();
        &&& hs.len() >= 3
        &&& forall|i: int|
            0 <= i < hs.len() ==> record_ok(#[trigger] hs[i], limits) && header_ok(hs[i], i as nat)
        &&& forall|i: int| 0 <= i < es.len() ==> entity_ok(#[trigger] es[i], limits)
        &&& forall|i: int| 0 <= i < as_.len() ==> anchor_ok(#[trigger] as_[i], limits)
        &&& forall|i: int, j: int|
            0 <= i < j < as_.len() ==> (#[trigger] as_[i]).name@ != (#[trigger] as_[j]).name@
        &&& occurrence_numbers_distinct(es, self.spec_externals())
        &&& forall|i: int|
            0 <= i < ss.len() ==> {
                &&& parameters_ok((#[trigger] ss[i]).parameters@, false, limits)
                &&& ss[i].entities.start <= ss[i].entities.end <= es.len()
                &&& (i + 1 < ss.len() ==> ss[i].entities.end <= ss[i + 1].entities.start)
            }
    }

    pub fn headers(&self) -> (r: &[Record])
        ensures
            r@ == self.spec_headers(),
    {
        self.headers.as_slice()
    }

    pub fn entities(&self) -> (r: &EntityDatabase)
        ensures
            r@ == self.spec_entities(),
    {
        &self.entities
    }

    pub fn data_sections(&self) -> (r: &[DataSection])
        ensures
            r@ == self.spec_sections(),
    {
        self.sections.as_slice()
    }

    pub fn anchors(&self) -> (r: &[Anchor])
        ensures
            r@ == self.spec_anchors(),
    {
        self.anchors.as_slice()
    }

    /// External references, entity names first, then value names, each by number.
    pub fn external_references(&self) -> (r: &[ExternalReference])
        ensures
            r@ == self.spec_externals(),
    {
        self.externals.as_slice()
    }

    pub fn signatures(&self) -> (r: &[Signature])
        ensures
            r@ == self.spec_signatures(),
    {
        self.signatures.as_slice()
    }
}

/// Records the occurrence number `id` declared at `source`; a number declared
/// before is refused, naming where it was first declared.
fn unique_id(ids: &mut BTreeMap<u64, SourceSpan>, id: u64, source: SourceSpan) -> (r: Result<
    (),
    Diagnostic,
>)
    ensures
        final(ids)@ == old(ids)@.insert(id, source),
        r is Ok <==> !old(ids)@.contains_key(id),
        r matches Err(d) ==> {
            let first = old(ids)@[id].start;
            &&& d.severity == Severity::Error
            &&& d.code == DiagnosticCode::DuplicateId
            &&& d.source_span == source
            &&& (d.entity is None <==> id == 0)
            &&& (d.entity matches Some(e) ==> e.number() == id)
            &&& d.message@ == "duplicate occurrence "@ + decimal_text(id as nat)
                + "; first declared at "@ + decimal_text(first.line as nat) + ":"@ + decimal_text(
                first.column as nat,
            )
        },
{
    match ids.insert(id, source) {
        Some(previous) => {
            let mut message = String::new();
            push_str(&mut message, "duplicate occurrence ");
            push_decimal(&mut message, id);
            push_str(&mut message, "; first declared at ");
            push_decimal(&mut message, previous.start.line);
            push_str(&mut message, ":");
            push_decimal(&mut message, previous.start.column);
            let mut diagnostic = Diagnostic::error(DiagnosticCode::DuplicateId, message, source);
            diagnostic.entity = EntityId::new(id);
            Err(diagnostic)
        },
        None => Ok(()),
    }
}

/// Some anchor of `anchors` is named `name`.
fn anchor_named(anchors: &Vec<Anchor>, name: &String) -> (r: bool)
    ensures
        r == exists|i: int| 0 <= i < anchors@.len() && (#[trigger] anchors@[i]).name@ == name@,
{
    let mut k: usize = 0;
    while k < anchors.len()
        invariant
            k <= anchors@.len(),
            forall|i: int| 0 <= i < k ==> (#[trigger] anchors@[i]).name@ != name@,
        decreases anchors@.len() - k,
    {
        if anchors[k].name == *name {
            return true;
        }
        k += 1;
    }
    false
}

/// `occurrence_rank(a) < occurrence_rank(b)`.
fn occurrence_before(a: Occurrence, b: Occurrence) -> (r: bool)
    ensures
        r == (occurrence_rank(a) < occurrence_rank(b)),
{
    match (a, b) {
        (Occurrence::Entity(x), Occurrence::Entity(y)) => x.get() < y.get(),
        (Occurrence::Entity(_), Occurrence::Value(_)) => true,
        (Occurrence::Value(_), Occurrence::Entity(_)) => false,
        (Occurrence::Value(x), Occurrence::Value(y)) => x.get() < y.get(),
    }
}

/// Inserts `x` into the rank-ordered `v`, keeping the order.
fn insert_external(v: &mut Vec<ExternalReference>, x: ExternalReference)
    requires
        forall|i: int, j: int|
            0 <= i < j < old(v)@.len() ==> occurrence_rank((#[trigger] old(v)@[i]).id)
                < occurrence_rank((#[trigger] old(v)@[j]).id),
        forall|i: int|
            0 <= i < old(v)@.len() ==> (#[trigger] old(v)@[i]).id.spec_number() != x.id.spec_number(),
    ensures
        exists|p: int| 0 <= p <= old(v)@.len() && final(v)@ == old(v)@.insert(p, x),
        forall|i: int, j: int|
            0 <= i < j < final(v)@.len() ==> occurrence_rank((#[trigger] final(v)@[i]).id)
                < occurrence_rank((#[trigger] final(v)@[j]).id),
{
    let mut p = v.len();
    while p > 0 && occurrence_before(x.id, v[p - 1].id)
        invariant
            p <= v@.len(),
            *v == *old(v),
            forall|k: int| p <= k < v@.len() ==> occurrence_rank(x.id) < occurrence_rank(
                (#[trigger] v@[k]).id,
            ),
        decreases p,
    {
        p -= 1;
    }
    proof {
        if p > 0 {
            assert(occurrence_rank(v@[p - 1].id) != occurrence_rank(x.id)) by {
                assert(v@[p - 1].id.spec_number() != x.id.spec_number());
            }
        }
    }
    v.insert(p, x);
}

/// The spans lie in `input` before offset `to`, in increasing order without overlap.
pub open spec fn read_before(spans: Seq<SourceSpan>, input: Seq<u8>, to: nat) -> bool {
    &&& forall|i: int| 0 <= i < spans.len() ==> span_in(#[trigger] spans[i], input, 0, to)
    &&& forall|i: int, j: int|
        0 <= i < j < spans.len() ==> (#[trigger] spans[i]).end.offset <= (#[trigger] spans[j]).start.offset
}

/// The spans were read from `input` in file order: each lies in it, positions
/// included, and ends before the next begins.
pub open spec fn read_in_order(spans: Seq<SourceSpan>, input: Seq<u8>) -> bool {
    read_before(spans, input, input.len())
}

proof fn lemma_read_before_grows(spans: Seq<SourceSpan>, input: Seq<u8>, a: nat, b: nat)
    requires
        read_before(spans, input, a),
        a <= b,
    ensures
        read_before(spans, input, b),
{
}

proof fn lemma_read_before_push(spans: Seq<SourceSpan>, input: Seq<u8>, a: nat, b: nat, s: SourceSpan)
    requires
        read_before(spans, input, a),
        span_in(s, input, a, b),
    ensures
        read_before(spans.push(s), input, b),
{
    let t = spans.push(s);
    assert forall|i: int| 0 <= i < t.len() implies span_in(#[trigger] t[i], input, 0, b) by {
        if i < spans.len() {
            assert(t[i] == spans[i]);
        }
    }
    assert forall|i: int, j: int| 0 <= i < j < t.len() implies (#[trigger] t[i]).end.offset <= (
    #[trigger] t[j]).start.offset by {
        assert(t[i] == spans[i]);
        if j < spans.len() {
            assert(t[j] == spans[j]);
        }
    }
}

/// Collects a syntactically complete exchange structure. Duplicate occurrence
/// numbers and anchor names are fatal; dangling references are reported
/// separately by `Document::diagnostics`.
pub fn parse(input: Vec<u8>, limits: ParseLimits) -> (r: Result<Document, Diagnostic>)
    requires
        input@.len() < 0xffff_ffff_ffff_ffff,
    ensures
        limits.max_nesting_depth > 128 ==> r is Err,
        r matches Ok(doc) ==> doc.well_formed(limits),
        r matches Err(d) ==> d.severity == Severity::Error,
        r matches Ok(doc) ==> read_in_order(doc.spec_headers().map_values(|h: Record| h.source), input@),
        r matches Ok(doc) ==> read_in_order(
            doc.spec_entities().map_values(|e: EntityInstance| e.source),
            input@,
        ),
{
    let ghost bytes = input@;
    let mut parser = Parser::new(input, limits)?;
    let mut headers: Vec<Record> = Vec::new();
    let mut entities: Vec<EntityInstance> = Vec::new();
    let mut by_id: BTreeMap<u64, usize> = BTreeMap::new();
    let mut sections: Vec<DataSection> = Vec::new();
    let mut anchors: Vec<Anchor> = Vec::new();
    let mut externals: Vec<ExternalReference> = Vec::new();
    let mut signatures: Vec<Signature> = Vec::new();
    let mut ids: BTreeMap<u64, SourceSpan> = BTreeMap::new();
    loop
        invariant_except_break
            !parser.is_done(),
            headers@.len() == parser.headers_seen(),
            parser.stage() >= 2 ==> headers@.len() >= 3,
        invariant
            parser.wf(),
            parser.spec_limits() == limits,
            parser.bytes() == bytes,
            read_before(headers@.map_values(|h: Record| h.source), bytes, parser.consumed()),
            read_before(entities@.map_values(|e: EntityInstance| e.source), bytes, parser.consumed()),
            forall|i: int|
                0 <= i < headers@.len() ==> record_ok(#[trigger] headers@[i], limits) && header_ok(
                    headers@[i],
                    i as nat,
                ),
            forall|i: int| 0 <= i < entities@.len() ==> entity_ok(#[trigger] entities@[i], limits),
            forall|i: int|
                0 <= i < entities@.len() ==> {
                    let k = (#[trigger] entities@[i]).id.number();
                    by_id@.contains_key(k) && by_id@[k] == i
                },
            forall|k: u64|
                #[trigger] by_id@.contains_key(k) ==> {
                    &&& (by_id@[k] as int) < entities@.len()
                    &&& entities@[by_id@[k] as int].id.number() == k
                },
            forall|i: int|
                0 <= i < entities@.len() ==> ids@.contains_key(
                    (#[trigger] entities@[i]).id.number(),
                ),
            forall|j: int|
                0 <= j < externals@.len() ==> ids@.contains_key(
                    (#[trigger] externals@[j]).id.spec_number(),
                ),
            occurrence_numbers_distinct(entities@, externals@),
            forall|i: int| 0 <= i < anchors@.len() ==> anchor_ok(#[trigger] anchors@[i], limits),
            forall|i: int, j: int|
                0 <= i < j < anchors@.len() ==> (#[trigger] anchors@[i]).name@
                    != (#[trigger] anchors@[j]).name@,
            forall|i: int|
                0 <= i < sections@.len() ==> {
                    &&& parameters_ok((#[trigger] sections@[i]).parameters@, false, limits)
                    &&& sections@[i].entities.start <= sections@[i].entities.end <= entities@.len()
                    &&& (i + 1 < sections@.len() ==> sections@[i].entities.end
                        <= sections@[i + 1].entities.start)
                },
        ensures
            headers@.len() >= 3,
            parser.consumed() <= bytes.len(),
        decreases parser.bytes().len() - parser.consumed(),
    {
        let ghost old_consumed = parser.consumed();
        let event = match parser.next() {
            None => {
                break ;
            },
            Some(Err(d)) => {
                return Err(d);
            },
            Some(Ok(e)) => e,
        };
        let ghost hs0 = headers@.map_values(|h: Record| h.source);
        let ghost es0 = entities@.map_values(|e: EntityInstance| e.source);
        proof {
            lemma_read_before_grows(hs0, bytes, old_consumed, parser.consumed());
            lemma_read_before_grows(es0, bytes, old_consumed, parser.consumed());
        }
        match event {
            Event::Header(record) => {
                headers.push(record);
                proof {
                    assert(headers@.map_values(|h: Record| h.source) =~= hs0.push(record.source));
                    lemma_read_before_push(hs0, bytes, old_consumed, parser.consumed(), record.source);
                }
            },
            Event::Entity(entity) => {
                let number = entity.id.get();
                unique_id(&mut ids, number, entity.source)?;
                let slot = entities.len();
                by_id.insert(number, slot);
                let ghost src = entity.source;
                entities.push(entity);
                proof {
                    assert(entities@.map_values(|e: EntityInstance| e.source) =~= es0.push(src));
                    lemma_read_before_push(es0, bytes, old_consumed, parser.consumed(), src);
                }
            },
            Event::Anchor(anchor) => {
                if anchor_named(&anchors, &anchor.name) {
                    return Err(
                        Diagnostic::error(
                            DiagnosticCode::DuplicateAnchor,
                            "duplicate anchor name".to_owned(),
                            anchor.source,
                        ),
                    );
                }
                anchors.push(anchor);
            },
            Event::ExternalReference(reference) => {
                unique_id(&mut ids, reference.id.number(), reference.source)?;
                insert_external(&mut externals, reference);
            },
            Event::StartData { parameters, source } => {
                let start = entities.len();
                sections.push(DataSection { parameters, entities: start..start, source });
            },
            Event::EndData(source) => {
                if sections.len() > 0 {
                    let mut section = sections.pop().unwrap();
                    section.entities.end = entities.len();
                    section.source.end = source.end;
                    sections.push(section);
                }
            },
            Event::Signature(signature) => {
                signatures.push(signature);
            },
            Event::EndExchange(_) => {},
        }
    }
    proof {
        lemma_read_before_grows(headers@.map_values(|h: Record| h.source), bytes, parser.consumed(), bytes.len());
        lemma_read_before_grows(
            entities@.map_values(|e: EntityInstance| e.source),
            bytes,
            parser.consumed(),
            bytes.len(),
        );
    }
    Ok(
        Document {
            headers,
            entities: EntityDatabase { entities, by_id },
            sections,
            anchors,
            externals,
            signatures,
        },
    )
}

/// Whether a referenced occurrence is declared in the document.
#[derive(Debug, Clone, Copy, PartialEq, Eq, Structural)]
pub enum ReferenceStatus {
    Local,
    External,
    Missing,
}

/// One use of an occurrence name inside a parameter value.
#[derive(Debug, Clone, Copy, PartialEq, Eq)]
pub struct ReferenceUse {
    pub owner: Option<EntityId>,
    pub target: Occurrence,
    pub source: SourceSpan,
    pub status: ReferenceStatus,
}

/// `s` with `x` inserted after every element whose key is at most `key(x)`:
/// one step of a stable insertion sort.
pub open spec fn insert_by_key<T>(s: Seq<T>, x: T, key: spec_fn(T) -> u64) -> Seq<T>
    decreases s.len(),
{
    if s.len() > 0 && key(s.last()) > key(x) {
        insert_by_key(s.drop_last(), x, key).push(s.last())
    } else {
        s.push(x)
    }
}

/// The elements of `xs` inserted one after another into `s`.
pub open spec fn insert_all<T>(s: Seq<T>, xs: Seq<T>, key: spec_fn(T) -> u64) -> Seq<T>
    decreases xs.len(),
{
    if xs.len() == 0 {
        s
    } else {
        insert_by_key(insert_all(s, xs.drop_last(), key), xs.last(), key)
    }
}

/// `xs` stably sorted by `key`: equal keys keep their relative order.
pub open spec fn sort_by_key<T>(xs: Seq<T>, key: spec_fn(T) -> u64) -> Seq<T> {
    insert_all(Seq::empty(), xs, key)
}

/// Inserting the elements of `a + b` is inserting those of `a`, then those of `b`.
pub proof fn lemma_insert_all_concat<T>(s: Seq<T>, a: Seq<T>, b: Seq<T>, key: spec_fn(T) -> u64)
    ensures
        insert_all(s, a + b, key) == insert_all(insert_all(s, a, key), b, key),
    decreases b.len(),
{
    if b.len() == 0 {
        assert(a + b =~= a);
    } else {
        assert((a + b).drop_last() =~= a + b.drop_last());
        lemma_insert_all_concat(s, a, b.drop_last(), key);
    }
}

/// Inserting a single element.
pub proof fn lemma_insert_all_one<T>(s: Seq<T>, x: T, key: spec_fn(T) -> u64)
    ensures
        insert_all(s, seq![x], key) == insert_by_key(s, x, key),
{
    assert(seq![x].drop_last() =~= Seq::<T>::empty());
    assert(insert_all(s, Seq::<T>::empty(), key) == s);
}

/// Where the insertion loop stops, `insert_by_key` inserts.
proof fn lemma_insert_at<T>(s: Seq<T>, x: T, key: spec_fn(T) -> u64, p: int)
    requires
        0 <= p <= s.len(),
        forall|k: int| p <= k < s.len() ==> key(#[trigger] s[k]) > key(x),
        p == 0 || key(s[p - 1]) <= key(x),
    ensures
        insert_by_key(s, x, key) == s.insert(p, x),
    decreases s.len(),
{
    if s.len() > p {
        lemma_insert_at(s.drop_last(), x, key, p);
        assert(s.drop_last().insert(p, x).push(s.last()) =~= s.insert(p, x));
    } else {
        assert(s.push(x) =~= s.insert(p, x));
    }
}

/// An insertion-sorted sequence is sorted.
pub open spec fn sorted_by_key<T>(s: Seq<T>, key: spec_fn(T) -> u64) -> bool {
    forall|i: int, j: int| 0 <= i < j < s.len() ==> key(#[trigger] s[i]) <= key(#[trigger] s[j])
}

/// Stable sorting yields a sequence ordered by key.
pub proof fn lemma_sort_sorted<T>(xs: Seq<T>, key: spec_fn(T) -> u64)
    ensures
        sorted_by_key(sort_by_key(xs, key), key),
    decreases xs.len(),
{
    lemma_insert_all_sorted(Seq::empty(), xs, key);
}

proof fn lemma_insert_all_sorted<T>(s: Seq<T>, xs: Seq<T>, key: spec_fn(T) -> u64)
    requires
        sorted_by_key(s, key),
    ensures
        sorted_by_key(insert_all(s, xs, key), key),
    decreases xs.len(),
{
    if xs.len() > 0 {
        lemma_insert_all_sorted(s, xs.drop_last(), key);
        lemma_insert_sorted(insert_all(s, xs.drop_last(), key), xs.last(), key);
    }
}

proof fn lemma_insert_sorted<T>(s: Seq<T>, x: T, key: spec_fn(T) -> u64)
    requires
        sorted_by_key(s, key),
    ensures
        sorted_by_key(insert_by_key(s, x, key), key),
        insert_by_key(s, x, key).len() == s.len() + 1,
        forall|i: int| 0 <= i < insert_by_key(s, x, key).len() ==> (#[trigger] insert_by_key(s, x, key)[i] == x
            || s.contains(insert_by_key(s, x, key)[i])),
    decreases s.len(),
{
    if s.len() > 0 && key(s.last()) > key(x) {
        let r = insert_by_key(s.drop_last(), x, key);
        lemma_insert_sorted(s.drop_last(), x, key);
        assert forall|i: int| 0 <= i < r.len() implies key(#[trigger] r[i]) <= key(s.last()) by {
            if r[i] != x {
                assert(s.drop_last().contains(r[i]));
                let k = choose|k: int| 0 <= k < s.drop_last().len() && s.drop_last()[k] == r[i];
                assert(s[k] == r[i]);
            }
        }
        assert forall|i: int| 0 <= i < r.push(s.last()).len() implies (#[trigger] r.push(s.last())[i] == x
            || s.contains(r.push(s.last())[i])) by {
            if i < r.len() && r[i] != x {
                let k = choose|k: int| 0 <= k < s.drop_last().len() && s.drop_last()[k] == r[i];
                assert(s[k] == r[i]);
            } else if i == r.len() {
                assert(s[s.len() - 1] == s.last());
            }
        }
    } else {
        assert forall|i: int| 0 <= i < s.push(x).len() implies (#[trigger] s.push(x)[i] == x
            || s.contains(s.push(x)[i])) by {
            if i < s.len() {
                assert(s[i] == s.push(x)[i]);
            }
        }
    }
}

/// Key of a reference use: where its value starts.
pub open spec fn use_key() -> spec_fn(ReferenceUse) -> u64 {
    |u: ReferenceUse| u.source.start.offset
}

/// Inserts `x` into `out`, keeping the order by start offset.
fn insert_use(out: &mut Vec<ReferenceUse>, x: ReferenceUse)
    ensures
        final(out)@ == insert_by_key(old(out)@, x, use_key()),
{
    let mut p = out.len();
    while p > 0 && out[p - 1].source.start.offset > x.source.start.offset
        invariant
            p <= out@.len(),
            *out == *old(out),
            forall|k: int| p <= k < out@.len() ==> (use_key())(#[trigger] out@[k]) > (use_key())(x),
        decreases p,
    {
        p -= 1;
    }
    proof {
        lemma_insert_at(out@, x, use_key(), p as int);
    }
    out.insert(p, x);
}

/// Values of the tags of an anchor, in order.
pub open spec fn tag_values(a: Anchor) -> Seq<StepValue> {
    a.tags@.map_values(|t: (String, StepValue)| t.1)
}

impl Document {
    /// Where a referenced occurrence is declared: among the external references,
    /// among the entity instances (entity names only), or nowhere.
    pub open spec fn status_of(&self, target: Occurrence) -> ReferenceStatus {
        if exists|j: int|
            0 <= j < self.spec_externals().len() && (#[trigger] self.spec_externals()[j]).id
                == target {
            ReferenceStatus::External
        } else if (match target {
            Occurrence::Entity(id) => exists|i: int|
                0 <= i < self.spec_entities().len() && (#[trigger] self.spec_entities()[i]).id == id,
            Occurrence::Value(_) => false,
        }) {
            ReferenceStatus::Local
        } else {
            ReferenceStatus::Missing
        }
    }

    pub open spec fn use_at(&self, owner: Option<EntityId>, target: Occurrence, source: SourceSpan) -> ReferenceUse {
        ReferenceUse { owner, target, source, status: self.status_of(target) }
    }

    /// Uses of occurrence names inside `v`, in textual order.
    pub open spec fn value_uses(&self, owner: Option<EntityId>, v: StepValue) -> Seq<ReferenceUse>
        decreases v,
    {
        match v.kind {
            ValueKind::Reference(id) => seq![self.use_at(owner, Occurrence::Entity(id), v.source)],
            ValueKind::ValueReference(id) => seq![self.use_at(owner, Occurrence::Value(id), v.source)],
            ValueKind::Aggregate(vs) => self.list_uses(owner, vs@),
            ValueKind::Typed { value, .. } => self.value_uses(owner, *value),
            _ => Seq::empty(),
        }
    }

    /// Uses inside the values of `vs`, in order.
    pub open spec fn list_uses(&self, owner: Option<EntityId>, vs: Seq<StepValue>) -> Seq<ReferenceUse>
        decreases vs,
    {
        if vs.len() == 0 {
            Seq::empty()
        } else {
            self.list_uses(owner, vs.subrange(0, vs.len() - 1)) + self.value_uses(
                owner,
                vs[vs.len() - 1],
            )
        }
    }

    /// Uses inside the parameters of the records `rs`, in order.
    pub open spec fn record_uses(&self, owner: Option<EntityId>, rs: Seq<Record>) -> Seq<ReferenceUse>
        decreases rs.len(),
    {
        if rs.len() == 0 {
            Seq::empty()
        } else {
            self.record_uses(owner, rs.drop_last()) + self.list_uses(owner, rs.last().parameters@)
        }
    }

    /// Uses inside anchor values and tag values.
    pub open spec fn anchor_uses(&self, as_: Seq<Anchor>) -> Seq<ReferenceUse>
        decreases as_.len(),
    {
        if as_.len() == 0 {
            Seq::empty()
        } else {
            self.anchor_uses(as_.drop_last()) + self.value_uses(None, as_.last().value)
                + self.list_uses(None, tag_values(as_.last()))
        }
    }

    /// Uses inside the parameters of `DATA` sections.
    pub open spec fn section_uses(&self, ss: Seq<DataSection>) -> Seq<ReferenceUse>
        decreases ss.len(),
    {
        if ss.len() == 0 {
            Seq::empty()
        } else {
            self.section_uses(ss.drop_last()) + self.list_uses(None, ss.last().parameters@)
        }
    }

    /// Uses inside entity instances, owned by the instance.
    pub open spec fn entity_uses(&self, es: Seq<EntityInstance>) -> Seq<ReferenceUse>
        decreases es.len(),
    {
        if es.len() == 0 {
            Seq::empty()
        } else {
            self.entity_uses(es.drop_last()) + self.record_uses(
                Some(es.last().id),
                es.last().kind.spec_records(),
            )
        }
    }

    /// Every use, grouped as headers, anchors, section parameters, then entities.
    pub open spec fn collected_uses(&self) -> Seq<ReferenceUse> {
        self.record_uses(None, self.spec_headers()) + self.anchor_uses(self.spec_anchors())
            + self.section_uses(self.spec_sections()) + self.entity_uses(self.spec_entities())
    }

    fn status(&self, target: Occurrence) -> (r: ReferenceStatus)
        ensures
            r == self.status_of(target),
    {
        let mut j: usize = 0;
        while j < self.externals.len()
            invariant
                j <= self.externals@.len(),
                forall|k: int| 0 <= k < j ==> (#[trigger] self.externals@[k]).id != target,
            decreases self.externals@.len() - j,
        {
            if self.externals[j].id == target {
                return ReferenceStatus::External;
            }
            j += 1;
        }
        match target {
            Occurrence::Entity(id) => {
                match self.entities.get(id) {
                    Some(e) => {
                        proof {
                            let i = choose|i: int|
                                0 <= i < self.entities@.len() && self.entities@[i] == *e && e.id == id;
                            assert(self.spec_entities()[i].id == id);
                        }
                        ReferenceStatus::Local
                    },
                    None => {
                        proof {
                            assert forall|i: int| 0 <= i < self.spec_entities().len() implies (
                            #[trigger] self.spec_entities()[i]).id != id by {
                                assert(self.entities@[i].id != id);
                            }
                        }
                        ReferenceStatus::Missing
                    },
                }
            },
            Occurrence::Value(_) => ReferenceStatus::Missing,
        }
    }

    fn collect_value(&self, owner: Option<EntityId>, v: &StepValue, out: &mut Vec<ReferenceUse>)
        ensures
            final(out)@ == insert_all(old(out)@, self.value_uses(owner, *v), use_key()),
        decreases v, 0int,
    {
        match &v.kind {
            ValueKind::Reference(id) => {
                let target = Occurrence::Entity(*id);
                let u = ReferenceUse { owner, target, source: v.source, status: self.status(target) };
                insert_use(out, u);
                proof {
                    assert(seq![u].drop_last() =~= Seq::<ReferenceUse>::empty());
                    assert(self.value_uses(owner, *v) == seq![u]);
                    assert(insert_all(old(out)@, Seq::<ReferenceUse>::empty(), use_key()) == old(out)@);
                }
            },
            ValueKind::ValueReference(id) => {
                let target = Occurrence::Value(*id);
                let u = ReferenceUse { owner, target, source: v.source, status: self.status(target) };
                insert_use(out, u);
                proof {
                    assert(seq![u].drop_last() =~= Seq::<ReferenceUse>::empty());
                    assert(self.value_uses(owner, *v) == seq![u]);
                    assert(insert_all(old(out)@, Seq::<ReferenceUse>::empty(), use_key()) == old(out)@);
                }
            },
            ValueKind::Aggregate(vs) => {
                self.collect_list(owner, vs, out);
            },
            ValueKind::Typed { value, .. } => {
                self.collect_value(owner, value, out);
            },
            _ => {
                proof {
                    assert(self.value_uses(owner, *v) == Seq::<ReferenceUse>::empty());
                }
            },
        }
    }

    fn collect_list(&self, owner: Option<EntityId>, vs: &Vec<StepValue>, out: &mut Vec<ReferenceUse>)
        ensures
            final(out)@ == insert_all(old(out)@, self.list_uses(owner, vs@), use_key()),
        decreases vs@, 1int,
    {
        let mut i: usize = 0;
        while i < vs.len()
            invariant
                i <= vs@.len(),
                out@ == insert_all(old(out)@, self.list_uses(owner, vs@.take(i as int)), use_key()),
            decreases vs@.len() - i,
        {
            proof {
                assert(vs@.take(i + 1).subrange(0, i as int) =~= vs@.take(i as int));
                lemma_insert_all_concat(
                    old(out)@,
                    self.list_uses(owner, vs@.take(i as int)),
                    self.value_uses(owner, vs@[i as int]),
                    use_key(),
                );
            }
            self.collect_value(owner, &vs[i], out);
            i += 1;
        }
        proof {
            assert(vs@.take(vs@.len() as int) =~= vs@);
        }
    }
}

impl Document {
    fn collect_records(&self, owner: Option<EntityId>, rs: &[Record], out: &mut Vec<ReferenceUse>)
        ensures
            final(out)@ == insert_all(old(out)@, self.record_uses(owner, rs@), use_key()),
    {
        let mut i: usize = 0;
        while i < rs.len()
            invariant
                i <= rs@.len(),
                out@ == insert_all(old(out)@, self.record_uses(owner, rs@.take(i as int)), use_key()),
            decreases rs@.len() - i,
        {
            proof {
                assert(rs@.take(i + 1).drop_last() =~= rs@.take(i as int));
                lemma_insert_all_concat(
                    old(out)@,
                    self.record_uses(owner, rs@.take(i as int)),
                    self.list_uses(owner, rs@[i as int].parameters@),
                    use_key(),
                );
            }
            self.collect_list(owner, &rs[i].parameters, out);
            i += 1;
        }
        proof {
            assert(rs@.take(rs@.len() as int) =~= rs@);
        }
    }

    fn collect_anchors(&self, out: &mut Vec<ReferenceUse>)
        ensures
            final(out)@ == insert_all(old(out)@, self.anchor_uses(self.spec_anchors()), use_key()),
    {
        let ghost key = use_key();
        let mut i: usize = 0;
        while i < self.anchors.len()
            invariant
                i <= self.anchors@.len(),
                key == use_key(),
                out@ == insert_all(old(out)@, self.anchor_uses(self.anchors@.take(i as int)), key),
            decreases self.anchors@.len() - i,
        {
            let anchor = &self.anchors[i];
            let ghost before = out@;
            let ghost done = self.anchor_uses(self.anchors@.take(i as int));
            let ghost a = self.anchors@[i as int];
            proof {
                assert(self.anchors@.take(i + 1).drop_last() =~= self.anchors@.take(i as int));
                lemma_insert_all_concat(old(out)@, done, self.value_uses(None, a.value), key);
            }
            self.collect_value(None, &anchor.value, out);
            let mut t: usize = 0;
            while t < anchor.tags.len()
                invariant
                    t <= anchor.tags@.len(),
                    *anchor == a,
                    key == use_key(),
                    out@ == insert_all(
                        insert_all(old(out)@, done + self.value_uses(None, a.value), key),
                        self.list_uses(None, tag_values(a).take(t as int)),
                        key,
                    ),
                decreases anchor.tags@.len() - t,
            {
                proof {
                    assert(tag_values(a).take(t + 1).subrange(0, t as int) =~= tag_values(a).take(t as int));
                    lemma_insert_all_concat(
                        insert_all(old(out)@, done + self.value_uses(None, a.value), key),
                        self.list_uses(None, tag_values(a).take(t as int)),
                        self.value_uses(None, a.tags@[t as int].1),
                        key,
                    );
                }
                self.collect_value(None, &anchor.tags[t].1, out);
                t += 1;
            }
            proof {
                assert(tag_values(a).take(a.tags@.len() as int) =~= tag_values(a));
                lemma_insert_all_concat(old(out)@, done + self.value_uses(None, a.value), self.list_uses(None, tag_values(a)), key);
            }
            i += 1;
        }
        proof {
            assert(self.anchors@.take(self.anchors@.len() as int) =~= self.anchors@);
        }
    }

    fn collect_sections(&self, out: &mut Vec<ReferenceUse>)
        ensures
            final(out)@ == insert_all(old(out)@, self.section_uses(self.spec_sections()), use_key()),
    {
        let mut i: usize = 0;
        while i < self.sections.len()
            invariant
                i <= self.sections@.len(),
                out@ == insert_all(old(out)@, self.section_uses(self.sections@.take(i as int)), use_key()),
            decreases self.sections@.len() - i,
        {
            proof {
                assert(self.sections@.take(i + 1).drop_last() =~= self.sections@.take(i as int));
                lemma_insert_all_concat(
                    old(out)@,
                    self.section_uses(self.sections@.take(i as int)),
                    self.list_uses(None, self.sections@[i as int].parameters@),
                    use_key(),
                );
            }
            self.collect_list(None, &self.sections[i].parameters, out);
            i += 1;
        }
        proof {
            assert(self.sections@.take(self.sections@.len() as int) =~= self.sections@);
        }
    }

    fn collect_entities(&self, out: &mut Vec<ReferenceUse>)
        ensures
            final(out)@ == insert_all(old(out)@, self.entity_uses(self.spec_entities()), use_key()),
    {
        let entities = self.entities.as_slice();
        let mut i: usize = 0;
        while i < entities.len()
            invariant
                i <= entities@.len(),
                entities@ == self.spec_entities(),
                out@ == insert_all(old(out)@, self.entity_uses(entities@.take(i as int)), use_key()),
            decreases entities@.len() - i,
        {
            let entity = &entities[i];
            proof {
                assert(entities@.take(i + 1).drop_last() =~= entities@.take(i as int));
                lemma_insert_all_concat(
                    old(out)@,
                    self.entity_uses(entities@.take(i as int)),
                    self.record_uses(Some(entity.id), entity.kind.spec_records()),
                    use_key(),
                );
            }
            self.collect_records(Some(entity.id), entity.kind.records(), out);
            i += 1;
        }
        proof {
            assert(entities@.take(entities@.len() as int) =~= entities@);
        }
    }

    /// Every use of an occurrence name in a parameter value, with its owner (the
    /// entity instance it appears in, if any), its exact span and whether its
    /// target is declared locally, externally or nowhere; ordered by start offset.
    /// Cycles and forward references are valid: this tests existence only.
    pub fn references(&self) -> (r: Vec<ReferenceUse>)
        ensures
            r@ == sort_by_key(self.collected_uses(), use_key()),
    {
        let mut out: Vec<ReferenceUse> = Vec::new();
        let ghost h = self.record_uses(None, self.spec_headers());
        let ghost a = self.anchor_uses(self.spec_anchors());
        let ghost c = self.section_uses(self.spec_sections());
        let ghost e = self.entity_uses(self.spec_entities());
        self.collect_records(None, self.headers.as_slice(), &mut out);
        self.collect_anchors(&mut out);
        self.collect_sections(&mut out);
        self.collect_entities(&mut out);
        proof {
            lemma_insert_all_concat(Seq::empty(), h, a, use_key());
            lemma_insert_all_concat(Seq::empty(), h + a, c, use_key());
            lemma_insert_all_concat(Seq::empty(), h + a + c, e, use_key());
        }
        out
    }
}

/// What a diagnostic says: severity, code, message text, owning entity and span.
pub open spec fn diagnostic_view(d: Diagnostic) -> (
    Severity,
    DiagnosticCode,
    Seq<char>,
    Option<EntityId>,
    SourceSpan,
) {
    (d.severity, d.code, d.message@, d.entity, d.source_span)
}

/// Key of a diagnostic view: where its span starts.
pub open spec fn view_key() -> spec_fn(
    (Severity, DiagnosticCode, Seq<char>, Option<EntityId>, SourceSpan),
) -> u64 {
    |v: (Severity, DiagnosticCode, Seq<char>, Option<EntityId>, SourceSpan)| v.4.start.offset
}

/// `#n` or `@n`.
pub open spec fn occurrence_text(o: Occurrence) -> Seq<char> {
    match o {
        Occurrence::Entity(id) => seq!['#'] + decimal_text(id.number() as nat),
        Occurrence::Value(id) => seq!['@'] + decimal_text(id.number() as nat),
    }
}

/// The error for an unresolved use.
pub open spec fn missing_view(u: ReferenceUse) -> (
    Severity,
    DiagnosticCode,
    Seq<char>,
    Option<EntityId>,
    SourceSpan,
) {
    (
        Severity::Error,
        DiagnosticCode::MissingReference,
        "unresolved reference "@ + occurrence_text(u.target),
        u.owner,
        u.source,
    )
}

/// The warning for an external reference.
pub open spec fn external_view(x: ExternalReference) -> (
    Severity,
    DiagnosticCode,
    Seq<char>,
    Option<EntityId>,
    SourceSpan,
) {
    (
        Severity::Warning,
        DiagnosticCode::ExternalReference,
        occurrence_text(x.id) + " is external; resource resolution has not been performed"@,
        None,
        x.source,
    )
}

/// The warning for a signature section.
pub open spec fn signature_view(g: Signature) -> (
    Severity,
    DiagnosticCode,
    Seq<char>,
    Option<EntityId>,
    SourceSpan,
) {
    (
        Severity::Warning,
        DiagnosticCode::SignatureUnverified,
        "signature payload retained; cryptographic verification has not been performed"@,
        None,
        g.source,
    )
}

/// Errors for the unresolved uses of `us`, in order.
pub open spec fn missing_views(us: Seq<ReferenceUse>) -> Seq<
    (Severity, DiagnosticCode, Seq<char>, Option<EntityId>, SourceSpan),
>
    decreases us.len(),
{
    if us.len() == 0 {
        Seq::empty()
    } else {
        missing_views(us.drop_last()) + if us.last().status == ReferenceStatus::Missing {
            seq![missing_view(us.last())]
        } else {
            Seq::empty()
        }
    }
}

/// Appends `#n` or `@n`.
fn push_occurrence(s: &mut String, o: Occurrence)
    ensures
        final(s)@ == old(s)@ + occurrence_text(o),
{
    match o {
        Occurrence::Entity(id) => {
            push_str(s, "#");
            push_decimal(s, id.get());
        },
        Occurrence::Value(id) => {
            push_str(s, "@");
            push_decimal(s, id.get());
        },
    }
    proof {
        reveal_strlit("#");
        reveal_strlit("@");
        assert(final(s)@ =~= old(s)@ + occurrence_text(o));
    }
}

impl Occurrence {
    /// `#n` for an entity, `@n` for a value, as the occurrence is printed.
    pub fn describe(self) -> (r: String)
        ensures
            r@ == occurrence_text(self),
    {
        let mut s = String::new();
        push_occurrence(&mut s, self);
        s
    }
}

impl EntityId {
    /// `#n`, as the identifier is printed.
    pub fn describe(self) -> (r: String)
        ensures
            r@ == occurrence_text(Occurrence::Entity(self)),
    {
        Occurrence::Entity(self).describe()
    }
}

/// Inserts `d` into `out`, keeping the order by span start.
fn insert_diagnostic(out: &mut Vec<Diagnostic>, d: Diagnostic)
    ensures
        final(out)@.map_values(|x: Diagnostic| diagnostic_view(x)) == insert_by_key(
            old(out)@.map_values(|x: Diagnostic| diagnostic_view(x)),
            diagnostic_view(d),
            view_key(),
        ),
{
    let ghost views = out@.map_values(|x: Diagnostic| diagnostic_view(x));
    let mut p = out.len();
    while p > 0 && out[p - 1].source_span.start.offset > d.source_span.start.offset
        invariant
            p <= out@.len(),
            *out == *old(out),
            views == out@.map_values(|x: Diagnostic| diagnostic_view(x)),
            forall|k: int| p <= k < out@.len() ==> (view_key())(#[trigger] views[k]) > (view_key())(diagnostic_view(d)),
        decreases p,
    {
        p -= 1;
    }
    proof {
        lemma_insert_at(views, diagnostic_view(d), view_key(), p as int);
    }
    let ghost dv = diagnostic_view(d);
    out.insert(p, d);
    proof {
        assert(out@.map_values(|x: Diagnostic| diagnostic_view(x)) =~= views.insert(p as int, dv));
    }
}

impl Document {
    /// Everything the analysis reports, before ordering: an error for each
    /// unresolved use, a warning for each external reference, and one for each
    /// signature section.
    pub open spec fn diagnostic_views(&self) -> Seq<
        (Severity, DiagnosticCode, Seq<char>, Option<EntityId>, SourceSpan),
    > {
        missing_views(sort_by_key(self.collected_uses(), use_key())) + self.spec_externals().map_values(
            |x: ExternalReference| external_view(x),
        ) + self.spec_signatures().map_values(|g: Signature| signature_view(g))
    }

    /// Unresolved uses are errors; external references and signatures are
    /// warnings, since no resource is fetched and no signature is checked.
    /// Ordered by start offset, stably.
    pub fn diagnostics(&self) -> (r: Vec<Diagnostic>)
        ensures
            r@.map_values(|x: Diagnostic| diagnostic_view(x)) == sort_by_key(
                self.diagnostic_views(),
                view_key(),
            ),
    {
        let uses = self.references();
        let ghost key = view_key();
        let mut out: Vec<Diagnostic> = Vec::new();
        let mut i: usize = 0;
        while i < uses.len()
            invariant
                i <= uses@.len(),
                key == view_key(),
                out@.map_values(|x: Diagnostic| diagnostic_view(x)) == insert_all(
                    Seq::empty(),
                    missing_views(uses@.take(i as int)),
                    key,
                ),
            decreases uses@.len() - i,
        {
            let u = uses[i];
            proof {
                assert(uses@.take(i + 1).drop_last() =~= uses@.take(i as int));
            }
            if u.status == ReferenceStatus::Missing {
                let mut message = String::new();
                push_str(&mut message, "unresolved reference ");
                push_occurrence(&mut message, u.target);
                let mut d = Diagnostic::error(DiagnosticCode::MissingReference, message, u.source);
                d.entity = u.owner;
                proof {
                    lemma_insert_all_concat(
                        Seq::empty(),
                        missing_views(uses@.take(i as int)),
                        seq![missing_view(u)],
                        key,
                    );
                    assert(seq![missing_view(u)].drop_last() =~= Seq::empty());
                    assert(diagnostic_view(d) == missing_view(u));
                    assert(uses@.take(i + 1).last() == u);
                    assert(missing_views(uses@.take(i + 1)) == missing_views(uses@.take(i as int))
                        + seq![missing_view(u)]);
                    lemma_insert_all_one(
                        insert_all(Seq::empty(), missing_views(uses@.take(i as int)), key),
                        missing_view(u),
                        key,
                    );
                }
                insert_diagnostic(&mut out, d);
            } else {
                proof {
                    assert(uses@.take(i + 1).last() == u);
                    assert(missing_views(uses@.take(i as int)) + Seq::empty() =~= missing_views(uses@.take(i as int)));
                    assert(missing_views(uses@.take(i + 1)) == missing_views(uses@.take(i as int)));
                }
            }
            i += 1;
        }
        proof {
            assert(uses@.take(uses@.len() as int) =~= uses@);
        }
        let ghost m = missing_views(uses@);
        let ghost xs = self.externals@.map_values(|x: ExternalReference| external_view(x));
        let mut j: usize = 0;
        while j < self.externals.len()
            invariant
                j <= self.externals@.len(),
                key == view_key(),
                xs == self.externals@.map_values(|x: ExternalReference| external_view(x)),
                out@.map_values(|x: Diagnostic| diagnostic_view(x)) == insert_all(
                    Seq::empty(),
                    m + xs.take(j as int),
                    key,
                ),
            decreases self.externals@.len() - j,
        {
            let external = &self.externals[j];
            let mut message = String::new();
            push_occurrence(&mut message, external.id);
            push_str(&mut message, " is external; resource resolution has not been performed");
            let d = Diagnostic::warning(DiagnosticCode::ExternalReference, message, external.source);
            proof {
                assert((m + xs.take(j + 1)).drop_last() =~= m + xs.take(j as int));
                assert(diagnostic_view(d) == xs[j as int]);
            }
            insert_diagnostic(&mut out, d);
            j += 1;
        }
        proof {
            assert(xs.take(xs.len() as int) =~= xs);
        }
        let ghost gs = self.signatures@.map_values(|g: Signature| signature_view(g));
        let mut k: usize = 0;
        while k < self.signatures.len()
            invariant
                k <= self.signatures@.len(),
                key == view_key(),
                gs == self.signatures@.map_values(|g: Signature| signature_view(g)),
                out@.map_values(|x: Diagnostic| diagnostic_view(x)) == insert_all(
                    Seq::empty(),
                    m + xs + gs.take(k as int),
                    key,
                ),
            decreases self.signatures@.len() - k,
        {
            let d = Diagnostic::warning(
                DiagnosticCode::SignatureUnverified,
                "signature payload retained; cryptographic verification has not been performed".to_owned(),
                self.signatures[k].source,
            );
            proof {
                assert((m + xs + gs.take(k + 1)).drop_last() =~= m + xs + gs.take(k as int));
                assert(diagnostic_view(d) == gs[k as int]);
            }
            insert_diagnostic(&mut out, d);
            k += 1;
        }
        proof {
            assert(gs.take(gs.len() as int) =~= gs);
        }
        out
    }
}

/// Byte-wise lexicographic order: the order of `str`.
pub open spec fn bytes_less(a: Seq<u8>, b: Seq<u8>) -> bool
    decreases a.len(),
{
    if a.len() == 0 {
        b.len() > 0
    } else if b.len() == 0 {
        false
    } else if a[0] != b[0] {
        a[0] < b[0]
    } else {
        bytes_less(a.drop_first(), b.drop_first())
    }
}

proof fn lemma_bytes_less_irreflexive(a: Seq<u8>)
    ensures
        !bytes_less(a, a),
    decreases a.len(),
{
    if a.len() > 0 {
        lemma_bytes_less_irreflexive(a.drop_first());
    }
}

proof fn lemma_bytes_less_transitive(a: Seq<u8>, b: Seq<u8>, c: Seq<u8>)
    requires
        bytes_less(a, b),
        bytes_less(b, c),
    ensures
        bytes_less(a, c),
    decreases a.len(),
{
    if a.len() > 0 && b.len() > 0 && c.len() > 0 && a[0] == b[0] && b[0] == c[0] {
        lemma_bytes_less_transitive(a.drop_first(), b.drop_first(), c.drop_first());
    }
}

proof fn lemma_bytes_less_total(a: Seq<u8>, b: Seq<u8>)
    requires
        a != b,
    ensures
        bytes_less(a, b) || bytes_less(b, a),
    decreases a.len(),
{
    if a.len() == 0 && b.len() == 0 {
        assert(a =~= b);
    } else if a.len() > 0 && b.len() > 0 && a[0] == b[0] {
        assert(a =~= seq![a[0]] + a.drop_first());
        assert(b =~= seq![b[0]] + b.drop_first());
        lemma_bytes_less_total(a.drop_first(), b.drop_first());
    }
}

proof fn lemma_bytes_less_asymmetric(a: Seq<u8>, b: Seq<u8>)
    requires
        bytes_less(a, b),
    ensures
        !bytes_less(b, a),
    decreases a.len(),
{
    if a.len() > 0 && b.len() > 0 && a[0] == b[0] {
        lemma_bytes_less_asymmetric(a.drop_first(), b.drop_first());
    }
}

/// `(bytes_less(a, b), a == b)`.
pub(crate) fn compare_bytes(a: &[u8], b: &[u8]) -> (r: (bool, bool))
    ensures
        r.0 == bytes_less(a@, b@),
        r.1 == (a@ == b@),
{
    let mut i: usize = 0;
    proof {
        assert(a@.skip(0) =~= a@);
        assert(b@.skip(0) =~= b@);
        assert(a@.take(0) =~= b@.take(0));
    }
    while i < a.len() && i < b.len()
        invariant
            i <= a@.len(),
            i <= b@.len(),
            a@.take(i as int) == b@.take(i as int),
            bytes_less(a@, b@) == bytes_less(a@.skip(i as int), b@.skip(i as int)),
        decreases a@.len() - i,
    {
        if a[i] != b[i] {
            proof {
                assert(a@.skip(i as int)[0] == a@[i as int]);
                assert(b@.skip(i as int)[0] == b@[i as int]);
                assert(a@[i as int] != b@[i as int]);
            }
            return (a[i] < b[i], false);
        }
        proof {
            assert(a@.skip(i as int).drop_first() =~= a@.skip(i + 1));
            assert(b@.skip(i as int).drop_first() =~= b@.skip(i + 1));
            assert(a@.take(i + 1) =~= a@.take(i as int).push(a@[i as int]));
            assert(b@.take(i + 1) =~= b@.take(i as int).push(b@[i as int]));
        }
        i += 1;
    }
    proof {
        if i == a.len() && i == b.len() {
            assert(a@ =~= a@.take(i as int));
            assert(b@ =~= b@.take(i as int));
        }
        if i == a.len() {
            assert(a@.skip(i as int).len() == 0);
        } else {
            assert(b@.skip(i as int).len() == 0);
            assert(a@ != b@) by {
                assert(a@.len() != b@.len());
            }
        }
        if i == b.len() && i < a.len() {
            assert(a@.len() != b@.len());
        }
    }
    (i == a.len() && i < b.len(), i == a.len() && i == b.len())
}

/// Names of the records `rs`.
pub open spec fn record_names(rs: Seq<Record>) -> Seq<Seq<char>> {
    rs.map_values(|r: Record| r.name@)
}

/// Names of every record of every instance of `es`, in order; each complex
/// component contributes one.
pub open spec fn type_names(es: Seq<EntityInstance>) -> Seq<Seq<char>>
    decreases es.len(),
{
    if es.len() == 0 {
        Seq::empty()
    } else {
        type_names(es.drop_last()) + record_names(es.last().kind.spec_records())
    }
}

/// How often `x` occurs in `s`.
pub open spec fn count_of(s: Seq<Seq<char>>, x: Seq<char>) -> nat
    decreases s.len(),
{
    if s.len() == 0 {
        0
    } else {
        count_of(s.drop_last(), x) + if s.last() == x {
            1nat
        } else {
            0nat
        }
    }
}

/// `min(n, usize::MAX)`.
pub open spec fn saturated(n: nat) -> usize {
    if n < usize::MAX {
        n as usize
    } else {
        usize::MAX
    }
}

/// The counts `out` describe the names `done`: names strictly increasing by their
/// UTF-8 bytes, each with its number of occurrences, and every name present.
pub open spec fn counts_of(out: Seq<(String, usize)>, done: Seq<Seq<char>>) -> bool {
    &&& forall|i: int, j: int|
        0 <= i < j < out.len() ==> bytes_less(
            encode_utf8((#[trigger] out[i]).0@),
            encode_utf8((#[trigger] out[j]).0@),
        )
    &&& forall|i: int|
        0 <= i < out.len() ==> (#[trigger] out[i]).1 == saturated(count_of(done, out[i].0@))
            && count_of(done, out[i].0@) > 0
    &&& forall|k: int| 0 <= k < done.len() ==> has_entry(out, #[trigger] done[k])
}

/// Some entry of `out` is named `x`.
pub open spec fn has_entry(out: Seq<(String, usize)>, x: Seq<char>) -> bool {
    exists|i: int| 0 <= i < out.len() && (#[trigger] out[i]).0@ == x
}

proof fn lemma_count_push(s: Seq<Seq<char>>, x: Seq<char>, y: Seq<char>)
    ensures
        count_of(s.push(x), y) == count_of(s, y) + if x == y {
            1nat
        } else {
            0nat
        },
{
    assert(s.push(x).drop_last() =~= s);
}

/// Counts one more occurrence of `name`.
fn count_name(out: &mut Vec<(String, usize)>, name: &String, done: Ghost<Seq<Seq<char>>>)
    requires
        counts_of(old(out)@, done@),
    ensures
        counts_of(final(out)@, done@.push(name@)),
{
    proof {
        vstd::utf8::encode_utf8_decode_utf8(name@);
    }
    let key = name.as_str().as_bytes();
    let mut p: usize = 0;
    while p < out.len()
        invariant
            p <= out@.len(),
            key@ == encode_utf8(name@),
            counts_of(out@, done@),
            *out == *old(out),
            forall|i: int| 0 <= i < p ==> bytes_less(encode_utf8((#[trigger] out@[i]).0@), key@),
        ensures
            p < out@.len() ==> bytes_less(key@, encode_utf8(out@[p as int].0@)),
        decreases out@.len() - p,
    {
        let (less, equal) = compare_bytes(out[p].0.as_str().as_bytes(), key);
        if equal {
            let entry = out.remove(p);
            let count = if entry.1 < usize::MAX { entry.1 + 1 } else { entry.1 };
            proof {
                vstd::utf8::encode_utf8_decode_utf8(entry.0@);
                vstd::utf8::encode_utf8_decode_utf8(name@);
                assert(encode_utf8(entry.0@) == encode_utf8(name@));
                assert(entry.0@ == name@);
            }
            out.insert(p, (entry.0, count));
            proof {
                assert forall|i: int| 0 <= i < out@.len() implies (#[trigger] out@[i]).1 == saturated(
                    count_of(done@.push(name@), out@[i].0@),
                ) && count_of(done@.push(name@), out@[i].0@) > 0 by {
                    lemma_count_push(done@, name@, out@[i].0@);
                    if i != p {
                        assert(out@[i] == old(out)@[i]);
                        vstd::utf8::encode_utf8_decode_utf8(out@[i].0@);
                        if i < p {
                            lemma_bytes_less_irreflexive(encode_utf8(name@));
                        } else {
                            assert(bytes_less(encode_utf8(old(out)@[p as int].0@), encode_utf8(old(out)@[i].0@)));
                            lemma_bytes_less_irreflexive(encode_utf8(name@));
                        }
                    }
                }
                assert forall|k: int| 0 <= k < done@.push(name@).len() implies has_entry(
                    out@,
                    #[trigger] done@.push(name@)[k],
                ) by {
                    if k < done@.len() {
                        assert(has_entry(old(out)@, done@[k]));
                        let i = choose|i: int| 0 <= i < old(out)@.len() && (#[trigger] old(out)@[i]).0@ == done@[k];
                        assert(out@[i].0@ == old(out)@[i].0@);
                    } else {
                        assert(out@[p as int].0@ == name@);
                    }
                }
                assert forall|i: int, j: int| 0 <= i < j < out@.len() implies bytes_less(
                    encode_utf8((#[trigger] out@[i]).0@),
                    encode_utf8((#[trigger] out@[j]).0@),
                ) by {
                    assert(out@[i].0@ == old(out)@[i].0@);
                    assert(out@[j].0@ == old(out)@[j].0@);
                }
            }
            return;
        }
        if !less {
            proof {
                lemma_bytes_less_total(encode_utf8(out@[p as int].0@), key@);
            }
            break;
        }
        p += 1;
    }
    proof {
        assert forall|i: int| p <= i < out@.len() implies bytes_less(key@, encode_utf8((#[trigger] out@[i]).0@)) by {
            let a = encode_utf8(out@[p as int].0@);
            let c = encode_utf8(out@[i].0@);
            if i > p {
                assert(bytes_less(a, c));
                lemma_bytes_less_transitive(key@, a, c);
            }
        }
    }
    let ghost before = out@;
    out.insert(p, (name.clone(), 1));
    proof {
        assert forall|i: int, j: int| 0 <= i < j < out@.len() implies bytes_less(
            encode_utf8((#[trigger] out@[i]).0@),
            encode_utf8((#[trigger] out@[j]).0@),
        ) by {
            if i < p && j == p {
            } else if i == p && j > p {
                assert(out@[j] == before[j - 1]);
            } else if i < p && j > p {
                assert(out@[j] == before[j - 1]);
                lemma_bytes_less_transitive(encode_utf8(out@[i].0@), key@, encode_utf8(out@[j].0@));
            } else if j < p {
            } else {
                assert(out@[i] == before[i - 1]);
                assert(out@[j] == before[j - 1]);
            }
        }
        assert forall|i: int| 0 <= i < out@.len() implies (#[trigger] out@[i]).1 == saturated(
            count_of(done@.push(name@), out@[i].0@),
        ) && count_of(done@.push(name@), out@[i].0@) > 0 by {
            lemma_count_push(done@, name@, out@[i].0@);
            if i == p {
                if count_of(done@, name@) > 0 {
                    assert(exists|k: int| 0 <= k < done@.len() && done@[k] == name@) by {
                        lemma_count_member(done@, name@);
                    }
                    let k = choose|k: int| 0 <= k < done@.len() && done@[k] == name@;
                    assert(has_entry(before, done@[k]));
                    let m = choose|m: int| 0 <= m < before.len() && (#[trigger] before[m]).0@ == done@[k];
                    if m < p {
                        assert(bytes_less(encode_utf8(before[m].0@), key@));
                    } else {
                        assert(bytes_less(key@, encode_utf8(before[m].0@)));
                    }
                    lemma_bytes_less_irreflexive(key@);
                }
            } else {
                let b = if i < p { before[i] } else { before[i - 1] };
                assert(out@[i] == b);
                if b.0@ == name@ {
                    lemma_bytes_less_irreflexive(key@);
                }
            }
        }
        assert forall|k: int| 0 <= k < done@.push(name@).len() implies has_entry(
            out@,
            #[trigger] done@.push(name@)[k],
        ) by {
            if k < done@.len() {
                assert(has_entry(before, done@[k]));
                let i = choose|i: int| 0 <= i < before.len() && (#[trigger] before[i]).0@ == done@[k];
                if i < p {
                    assert(out@[i] == before[i]);
                } else {
                    assert(out@[i + 1] == before[i]);
                }
            } else {
                assert(out@[p as int].0@ == name@);
            }
        }
    }
}

/// A name that occurs has a position.
proof fn lemma_count_member(s: Seq<Seq<char>>, x: Seq<char>)
    requires
        count_of(s, x) > 0,
    ensures
        exists|k: int| 0 <= k < s.len() && s[k] == x,
    decreases s.len(),
{
    if s.last() == x {
        assert(s[s.len() - 1] == x);
    } else {
        lemma_count_member(s.drop_last(), x);
        let k = choose|k: int| 0 <= k < s.drop_last().len() && s.drop_last()[k] == x;
        assert(s[k] == x);
    }
}

impl EntityDatabase {
    /// How many records of each type name the instances hold, ordered by name;
    /// each complex component contributes one count, so totals can exceed the
    /// number of instances.
    pub fn counts_by_type(&self) -> (r: Vec<(String, usize)>)
        ensures
            counts_of(r@, type_names(self@)),
    {
        let mut out: Vec<(String, usize)> = Vec::new();
        let mut i: usize = 0;
        while i < self.entities.len()
            invariant
                i <= self.entities@.len(),
                counts_of(out@, type_names(self.entities@.take(i as int))),
            decreases self.entities@.len() - i,
        {
            let records = self.entities[i].kind.records();
            let ghost done = type_names(self.entities@.take(i as int));
            let mut k: usize = 0;
            while k < records.len()
                invariant
                    k <= records@.len(),
                    records@ == self.entities@[i as int].kind.spec_records(),
                    counts_of(out@, done + record_names(records@.take(k as int))),
                decreases records@.len() - k,
            {
                proof {
                    assert(done + record_names(records@.take(k + 1)) =~= (done + record_names(
                        records@.take(k as int),
                    )).push(records@[k as int].name@));
                }
                count_name(&mut out, &records[k].name, Ghost(done + record_names(records@.take(k as int))));
                k += 1;
            }
            proof {
                assert(records@.take(records@.len() as int) =~= records@);
                assert(self.entities@.take(i + 1).drop_last() =~= self.entities@.take(i as int));
            }
            i += 1;
        }
        proof {
            assert(self.entities@.take(self.entities@.len() as int) =~= self.entities@);
        }
        out
    }
}

impl Document {
    /// The first header record named `name`.
    pub fn header(&self, name: &str) -> (r: Option<&Record>)
        ensures
            match r {
                Some(h) => exists|i: int|
                    0 <= i < self.spec_headers().len() && self.spec_headers()[i] == *h && h.name@
                        == name@ && forall|j: int|
                        0 <= j < i ==> (#[trigger] self.spec_headers()[j]).name@ != name@,
                None => forall|i: int|
                    0 <= i < self.spec_headers().len() ==> (#[trigger] self.spec_headers()[i]).name@
                        != name@,
            },
    {
        let mut i: usize = 0;
        while i < self.headers.len()
            invariant
                i <= self.headers@.len(),
                forall|j: int| 0 <= j < i ==> (#[trigger] self.headers@[j]).name@ != name@,
            decreases self.headers@.len() - i,
        {
            if text_is(&self.headers[i].name, name) {
                proof {
                    assert(self.spec_headers()[i as int] == self.headers@[i as int]);
                }
                return Some(&self.headers[i]);
            }
            i += 1;
        }
        None
    }
}

} // verus!
