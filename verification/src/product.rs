//! STEP-independent product and representation graphs, with explicit SI scales.
//!
//! Graph validity does not establish geometry, topology or AP conformance.
//! Floating-point quantities (unit scales, uncertainty values) are held as their
//! IEEE-754 binary64 bit patterns; placements are represented by whether the
//! caller found them invertible.
use vstd::prelude::*;
use std::collections::BTreeMap;
use crate::text::push_str;

verus! {

broadcast use vstd::std_specs::btree::group_btree_axioms;

/// Caller-assigned identity, local to one product model; never an allocation size.
#[derive(Debug, Clone, Copy, PartialEq, Eq, Structural, PartialOrd, Ord)]
pub struct ProductId(pub u64);

/// Caller-assigned identity, local to one product model; never an allocation size.
#[derive(Debug, Clone, Copy, PartialEq, Eq, Structural, PartialOrd, Ord)]
pub struct FormationId(pub u64);

/// Caller-assigned identity, local to one product model; never an allocation size.
#[derive(Debug, Clone, Copy, PartialEq, Eq, Structural, PartialOrd, Ord)]
pub struct DefinitionId(pub u64);

/// Caller-assigned identity, local to one product model; never an allocation size.
#[derive(Debug, Clone, Copy, PartialEq, Eq, Structural, PartialOrd, Ord)]
pub struct ContextId(pub u64);

/// Caller-assigned identity, local to one product model; never an allocation size.
#[derive(Debug, Clone, Copy, PartialEq, Eq, Structural, PartialOrd, Ord)]
pub struct RepresentationId(pub u64);

/// Caller-assigned identity, local to one product model; never an allocation size.
#[derive(Debug, Clone, Copy, PartialEq, Eq, Structural, PartialOrd, Ord)]
pub struct ShapeId(pub u64);

/// Caller-assigned identity, local to one product model; never an allocation size.
#[derive(Debug, Clone, Copy, PartialEq, Eq, Structural, PartialOrd, Ord)]
pub struct OccurrenceId(pub u64);

/// Caller-assigned identity, local to one product model; never an allocation size.
#[derive(Debug, Clone, Copy, PartialEq, Eq, Structural, PartialOrd, Ord)]
pub struct RelationshipId(pub u64);

/// Caller-assigned identity, local to one product model; never an allocation size.
#[derive(Debug, Clone, Copy, PartialEq, Eq, Structural, PartialOrd, Ord)]
pub struct MapId(pub u64);

/// Caller-assigned identity, local to one product model; never an allocation size.
#[derive(Debug, Clone, Copy, PartialEq, Eq, Structural, PartialOrd, Ord)]
pub struct ItemId(pub u64);

#[derive(Debug, Clone, Copy, PartialEq, Eq, Structural)]
pub enum Dimension {
    Length,
    PlaneAngle,
    SolidAngle,
}

/// The bit pattern of a positive finite binary64 number: sign clear, exponent
/// not all ones, and not zero.
pub open spec fn positive_finite(bits: u64) -> bool {
    0 < bits < 0x7ff0_0000_0000_0000
}

fn is_positive_finite(bits: u64) -> (r: bool)
    ensures
        r == positive_finite(bits),
{
    0 < bits && bits < 0x7ff0_0000_0000_0000
}

#[derive(Debug, Clone, Copy, PartialEq, Eq, Structural)]
pub enum Error {
    DuplicateId,
    MissingLink,
    Cycle,
    InvalidUnit,
    NumericRange,
    ResourceLimit,
    InvalidTransform,
    AmbiguousPlacement,
    MissingPlacement,
}

/// The name of an error, as it is printed.
pub open spec fn error_name(e: Error) -> Seq<char> {
    match e {
        Error::DuplicateId => "DuplicateId"@,
        Error::MissingLink => "MissingLink"@,
        Error::Cycle => "Cycle"@,
        Error::InvalidUnit => "InvalidUnit"@,
        Error::NumericRange => "NumericRange"@,
        Error::ResourceLimit => "ResourceLimit"@,
        Error::InvalidTransform => "InvalidTransform"@,
        Error::AmbiguousPlacement => "AmbiguousPlacement"@,
        Error::MissingPlacement => "MissingPlacement"@,
    }
}

impl Error {
    /// The error as it is printed: its name.
    pub fn describe(self) -> (r: String)
        ensures
            r@ == error_name(self),
    {
        let name = match self {
            Error::DuplicateId => "DuplicateId",
            Error::MissingLink => "MissingLink",
            Error::Cycle => "Cycle",
            Error::InvalidUnit => "InvalidUnit",
            Error::NumericRange => "NumericRange",
            Error::ResourceLimit => "ResourceLimit",
            Error::InvalidTransform => "InvalidTransform",
            Error::AmbiguousPlacement => "AmbiguousPlacement",
            Error::MissingPlacement => "MissingPlacement",
        };
        let mut s = String::new();
        push_str(&mut s, name);
        s
    }
}

/// A positive finite conversion to metres, radians or steradians, held as the
/// bit pattern of its binary64 scale.
#[derive(Debug, Clone, Copy, PartialEq, Eq, Structural)]
pub struct Unit {
    dimension: Dimension,
    scale: u64,
}

impl Unit {
    #[verifier::type_invariant]
    spec fn positive(self) -> bool {
        positive_finite(self.scale)
    }

    pub closed spec fn spec_dimension(self) -> Dimension {
        self.dimension
    }

    pub closed spec fn spec_scale(self) -> u64 {
        self.scale
    }

    /// A unit of `dimension` whose scale has the binary64 bit pattern `scale`;
    /// zero, negative, infinite and NaN scales are refused.
    pub fn new(dimension: Dimension, scale: u64) -> (r: Result<Self, Error>)
        ensures
            match r {
                Ok(u) => positive_finite(scale) && u.spec_dimension() == dimension && u.spec_scale()
                    == scale,
                Err(e) => !positive_finite(scale) && e == Error::InvalidUnit,
            },
    {
        if !is_positive_finite(scale) {
            return Err(Error::InvalidUnit);
        }
        Ok(Unit { dimension, scale })
    }

    pub fn dimension(self) -> (r: Dimension)
        ensures
            r == self.spec_dimension(),
    {
        self.dimension
    }

    /// The binary64 bit pattern of the scale, positive and finite.
    pub fn scale(self) -> (r: u64)
        ensures
            r == self.spec_scale(),
            positive_finite(r),
    {
        proof {
            use_type_invariant(self);
        }
        self.scale
    }
}

#[derive(Debug, Clone, Copy, PartialEq, Eq)]
pub struct Units {
    pub length: Unit,
    pub plane_angle: Unit,
    pub solid_angle: Unit,
}

#[derive(Debug, Clone, PartialEq)]
pub struct Product {
    pub id: ProductId,
    pub identifier: String,
    pub name: String,
}

#[derive(Debug, Clone, PartialEq)]
pub struct Formation {
    pub id: FormationId,
    pub product: ProductId,
    pub identifier: String,
}

#[derive(Debug, Clone, PartialEq)]
pub struct Definition {
    pub id: DefinitionId,
    pub formation: FormationId,
    pub identifier: String,
}

#[derive(Debug, Clone, PartialEq)]
pub struct Context {
    pub id: ContextId,
    pub units: Units,
}

#[derive(Debug, Clone, PartialEq)]
pub struct Representation {
    pub id: RepresentationId,
    pub name: String,
    pub context: ContextId,
    /// Reusable opaque item identities. These are not evaluated geometry assets.
    pub items: Vec<ItemId>,
}

#[derive(Debug, Clone, Copy, PartialEq, Eq, Structural)]
pub enum ShapeTarget {
    Definition(DefinitionId),
    Occurrence(OccurrenceId),
}

#[derive(Debug, Clone, PartialEq)]
pub struct Shape {
    pub id: ShapeId,
    pub target: ShapeTarget,
}

#[derive(Debug, Clone, PartialEq)]
pub struct ShapeBinding {
    pub shape: ShapeId,
    pub representation: RepresentationId,
}

#[derive(Debug, Clone, PartialEq)]
pub struct Occurrence {
    pub id: OccurrenceId,
    pub identifier: String,
    pub parent: DefinitionId,
    pub child: DefinitionId,
}

/// An unevaluated placement pair. Item 1 belongs to rep_1, item 2 to rep_2.
/// Keeping this order avoids guessing a child-to-parent matrix direction.
#[derive(Debug, Clone, Copy, PartialEq, Eq, Structural)]
pub struct ItemTransform {
    pub item_1: ItemId,
    pub item_2: ItemId,
}

#[derive(Debug, Clone, PartialEq)]
pub struct Relationship {
    pub id: RelationshipId,
    pub rep_1: RepresentationId,
    pub rep_2: RepresentationId,
    /// None means no transformation was specified, not an identity matrix.
    pub transform: Option<ItemTransform>,
    /// Alternative Cartesian operator identity; mutually exclusive with the pair.
    pub operator: Option<ItemId>,
}

#[derive(Debug, Clone, PartialEq)]
pub struct OccurrencePlacement {
    pub occurrence: OccurrenceId,
    pub relationship: RelationshipId,
}

#[derive(Debug, Clone, PartialEq)]
pub struct RepresentationMap {
    pub id: MapId,
    pub representation: RepresentationId,
    pub origin: ItemId,
}

#[derive(Debug, Clone, PartialEq)]
pub struct MappedItem {
    pub id: ItemId,
    pub map: MapId,
    pub target: ItemId,
}

/// A resolved representation-1 to representation-2 placement, by whether its
/// affine map is invertible.
#[derive(Debug, Clone, PartialEq)]
pub struct ResolvedRelationship {
    pub relationship: RelationshipId,
    pub invertible: bool,
}

/// A resolved source-to-using placement of a mapped item, by whether its affine
/// map is invertible.
#[derive(Debug, Clone, PartialEq)]
pub struct ResolvedMapping {
    pub item: ItemId,
    pub using_representation: RepresentationId,
    pub invertible: bool,
}

/// A measure uncertainty; `value_si` is the bit pattern of its binary64 value.
#[derive(Debug, Clone, PartialEq)]
pub struct Uncertainty {
    pub source: u64,
    pub context: ContextId,
    pub dimension: Dimension,
    pub value_si: u64,
    pub name: String,
    pub description: Option<String>,
}

#[derive(Debug, Clone, Copy, PartialEq, Eq, Structural)]
pub struct ExpansionLimits {
    pub max_work: usize,
    pub max_instances: usize,
    pub max_depth: usize,
}

impl Default for ExpansionLimits {
    fn default() -> (r: Self)
        ensures
            r.max_work == 5_000_000,
            r.max_instances == 100_000,
            r.max_depth == 1024,
    {
        ExpansionLimits { max_work: 5_000_000, max_instances: 100_000, max_depth: 1024 }
    }
}

/// Unvalidated input. Use `Model::new` to obtain an immutable checked graph.
#[derive(Debug, Clone, PartialEq)]
pub struct Parts {
    pub products: Vec<Product>,
    pub formations: Vec<Formation>,
    pub definitions: Vec<Definition>,
    pub contexts: Vec<Context>,
    pub representations: Vec<Representation>,
    pub shapes: Vec<Shape>,
    pub shape_bindings: Vec<ShapeBinding>,
    pub occurrences: Vec<Occurrence>,
    pub relationships: Vec<Relationship>,
    pub placements: Vec<OccurrencePlacement>,
    pub maps: Vec<RepresentationMap>,
    pub mapped_items: Vec<MappedItem>,
    /// Contextual references between representation items, excluding map-source crossings.
    pub item_dependencies: Vec<(ItemId, ItemId)>,
    /// Untransformed shape relationships used for definition ownership discovery.
    pub associations: Vec<RelationshipId>,
    pub relationship_transforms: Vec<ResolvedRelationship>,
    pub mapped_transforms: Vec<ResolvedMapping>,
    pub uncertainties: Vec<Uncertainty>,
}

impl Default for Parts {
    fn default() -> (r: Self)
        ensures
            r.products@.len() == 0,
            r.formations@.len() == 0,
            r.definitions@.len() == 0,
            r.contexts@.len() == 0,
            r.representations@.len() == 0,
            r.shapes@.len() == 0,
            r.shape_bindings@.len() == 0,
            r.occurrences@.len() == 0,
            r.relationships@.len() == 0,
            r.placements@.len() == 0,
            r.maps@.len() == 0,
            r.mapped_items@.len() == 0,
            r.item_dependencies@.len() == 0,
            r.associations@.len() == 0,
            r.relationship_transforms@.len() == 0,
            r.mapped_transforms@.len() == 0,
            r.uncertainties@.len() == 0,
    {
        Parts {
            products: Vec::new(),
            formations: Vec::new(),
            definitions: Vec::new(),
            contexts: Vec::new(),
            representations: Vec::new(),
            shapes: Vec::new(),
            shape_bindings: Vec::new(),
            occurrences: Vec::new(),
            relationships: Vec::new(),
            placements: Vec::new(),
            maps: Vec::new(),
            mapped_items: Vec::new(),
            item_dependencies: Vec::new(),
            associations: Vec::new(),
            relationship_transforms: Vec::new(),
            mapped_transforms: Vec::new(),
            uncertainties: Vec::new(),
        }
    }
}

/// A value identified by an integer key.
pub trait Keyed {
    spec fn spec_key(&self) -> u64;

    fn key(&self) -> (r: u64)
        ensures
            r == self.spec_key(),
    ;
}

impl Keyed for Product {
    open spec fn spec_key(&self) -> u64 {
        self.id.0
    }

    fn key(&self) -> (r: u64) {
        self.id.0
    }
}

impl Keyed for Formation {
    open spec fn spec_key(&self) -> u64 {
        self.id.0
    }

    fn key(&self) -> (r: u64) {
        self.id.0
    }
}

impl Keyed for Definition {
    open spec fn spec_key(&self) -> u64 {
        self.id.0
    }

    fn key(&self) -> (r: u64) {
        self.id.0
    }
}

impl Keyed for Context {
    open spec fn spec_key(&self) -> u64 {
        self.id.0
    }

    fn key(&self) -> (r: u64) {
        self.id.0
    }
}

impl Keyed for Representation {
    open spec fn spec_key(&self) -> u64 {
        self.id.0
    }

    fn key(&self) -> (r: u64) {
        self.id.0
    }
}

impl Keyed for Shape {
    open spec fn spec_key(&self) -> u64 {
        self.id.0
    }

    fn key(&self) -> (r: u64) {
        self.id.0
    }
}

impl Keyed for Occurrence {
    open spec fn spec_key(&self) -> u64 {
        self.id.0
    }

    fn key(&self) -> (r: u64) {
        self.id.0
    }
}

impl Keyed for Relationship {
    open spec fn spec_key(&self) -> u64 {
        self.id.0
    }

    fn key(&self) -> (r: u64) {
        self.id.0
    }
}

impl Keyed for RepresentationMap {
    open spec fn spec_key(&self) -> u64 {
        self.id.0
    }

    fn key(&self) -> (r: u64) {
        self.id.0
    }
}

impl Keyed for MappedItem {
    open spec fn spec_key(&self) -> u64 {
        self.id.0
    }

    fn key(&self) -> (r: u64) {
        self.id.0
    }
}

impl Keyed for ItemId {
    open spec fn spec_key(&self) -> u64 {
        self.0
    }

    fn key(&self) -> (r: u64) {
        self.0
    }
}

impl Keyed for ResolvedRelationship {
    open spec fn spec_key(&self) -> u64 {
        self.relationship.0
    }

    fn key(&self) -> (r: u64) {
        self.relationship.0
    }
}

/// No two items share a key.
pub open spec fn distinct_keys<T: Keyed>(items: Seq<T>) -> bool {
    forall|i: int, j: int|
        0 <= i < j < items.len() ==> (#[trigger] items[i]).spec_key() != (#[trigger] items[j]).spec_key()
}

/// Some item has key `k`.
pub open spec fn has_key<T: Keyed>(items: Seq<T>, k: u64) -> bool {
    exists|i: int| 0 <= i < items.len() && (#[trigger] items[i]).spec_key() == k
}

/// `m` maps the key of each item to its position, and nothing else.
pub open spec fn indexes<T: Keyed>(m: Map<u64, usize>, items: Seq<T>) -> bool {
    &&& forall|i: int|
        0 <= i < items.len() ==> m.contains_key((#[trigger] items[i]).spec_key()) && m[items[i].spec_key()]
            == i
    &&& forall|k: u64|
        #[trigger] m.contains_key(k) ==> m[k] < items.len() && items[m[k] as int].spec_key() == k
}

proof fn lemma_indexes_has_key<T: Keyed>(m: Map<u64, usize>, items: Seq<T>, k: u64)
    requires
        indexes(m, items),
    ensures
        m.contains_key(k) <==> has_key(items, k),
{
    if has_key(items, k) {
        let i = choose|i: int| 0 <= i < items.len() && (#[trigger] items[i]).spec_key() == k;
        assert(m.contains_key(items[i].spec_key()));
    }
    if m.contains_key(k) {
        assert(items[m[k] as int].spec_key() == k);
    }
}

/// A work budget: the number of steps still allowed.
struct Budget(usize);

impl Budget {
    fn tick(&mut self) -> (r: Result<(), Error>)
        ensures
            r is Ok <==> old(self).0 > 0,
            r is Ok ==> final(self).0 == old(self).0 - 1,
            r is Err ==> final(self).0 == old(self).0,
            r matches Err(e) ==> e == Error::ResourceLimit,
    {
        if self.0 == 0 {
            return Err(Error::ResourceLimit);
        }
        self.0 = self.0 - 1;
        Ok(())
    }

    /// One step, and `key` must be indexed.
    fn link(&mut self, index: &BTreeMap<u64, usize>, key: u64) -> (r: Result<(), Error>)
        ensures
            final(self).0 <= old(self).0,
            r is Ok <==> old(self).0 > 0 && index@.contains_key(key),
            r is Ok ==> final(self).0 == old(self).0 - 1,
            r matches Err(e) ==> e == Error::ResourceLimit || (e == Error::MissingLink
                && !index@.contains_key(key)),
            old(self).0 > 0 && !index@.contains_key(key) ==> r == Err::<(), Error>(Error::MissingLink),
    {
        self.tick()?;
        if index.contains_key(&key) {
            Ok(())
        } else {
            Err(Error::MissingLink)
        }
    }
}

/// The position of each item by key, one step per item; a repeated key is refused.
fn index<T: Keyed>(items: &[T], work: &mut Budget) -> (r: Result<BTreeMap<u64, usize>, Error>)
    ensures
        final(work).0 <= old(work).0,
        r matches Ok(m) ==> indexes(m@, items@) && distinct_keys(items@),
        r matches Err(e) ==> e == Error::ResourceLimit || (e == Error::DuplicateId && !distinct_keys(
            items@,
        )),
        r is Ok ==> final(work).0 == old(work).0 - items@.len(),
        r matches Err(e) ==> e == Error::ResourceLimit ==> old(work).0 < items@.len(),
{
    let mut result: BTreeMap<u64, usize> = BTreeMap::new();
    let mut i: usize = 0;
    while i < items.len()
        invariant
            i <= items@.len(),
            work.0 <= old(work).0,
            work.0 == old(work).0 - i,
            indexes(result@, items@.take(i as int)),
            distinct_keys(items@.take(i as int)),
        decreases items@.len() - i,
    {
        work.tick()?;
        let k = items[i].key();
        let ghost before = result@;
        let previous = result.insert(k, i);
        let ghost prefix = items@.take(i as int);
        proof {
            assert(items@.take(i + 1) =~= prefix.push(items@[i as int]));
        }
        if previous.is_some() {
            proof {
                let j = before[k] as int;
                assert(prefix[j].spec_key() == k);
                assert(items@[j].spec_key() == items@[i as int].spec_key());
            }
            return Err(Error::DuplicateId);
        }
        proof {
            let next = items@.take(i + 1);
            assert forall|j: int| 0 <= j < next.len() implies result@.contains_key(
                (#[trigger] next[j]).spec_key(),
            ) && result@[next[j].spec_key()] == j by {
                if j < i {
                    assert(next[j] == prefix[j]);
                    assert(before.contains_key(prefix[j].spec_key()));
                }
            }
            assert forall|key: u64| #[trigger] result@.contains_key(key) implies result@[key] < next.len()
                && next[result@[key] as int].spec_key() == key by {
                if key != k {
                    assert(before.contains_key(key));
                }
            }
            assert forall|a: int, b: int| 0 <= a < b < next.len() implies (#[trigger] next[a]).spec_key()
                != (#[trigger] next[b]).spec_key() by {
                if b == i {
                    assert(before.contains_key(prefix[a].spec_key()));
                } else {
                    assert(next[a] == prefix[a] && next[b] == prefix[b]);
                }
            }
        }
        i += 1;
    }
    proof {
        assert(items@.take(i as int) =~= items@);
    }
    Ok(result)
}


/// The number of edges of `edges` into `j` whose source is not in `done`.
pub open spec fn pending_into(edges: Seq<(usize, usize)>, j: int, done: Set<usize>) -> nat
    decreases edges.len(),
{
    if edges.len() == 0 {
        0
    } else {
        pending_into(edges.drop_last(), j, done) + if edges.last().1 == j && !done.contains(
            edges.last().0,
        ) {
            1nat
        } else {
            0nat
        }
    }
}

/// The targets of the edges of `edges` leaving `x`, in edge order.
pub open spec fn targets_from(edges: Seq<(usize, usize)>, x: int) -> Seq<usize>
    decreases edges.len(),
{
    if edges.len() == 0 {
        Seq::empty()
    } else if edges.last().0 == x {
        targets_from(edges.drop_last(), x).push(edges.last().1)
    } else {
        targets_from(edges.drop_last(), x)
    }
}

/// The number of occurrences of `j` in `s`.
pub open spec fn count_of(s: Seq<usize>, j: int) -> nat
    decreases s.len(),
{
    if s.len() == 0 {
        0
    } else {
        (if s[0] == j {
            1nat
        } else {
            0nat
        }) + count_of(s.drop_first(), j)
    }
}

/// `rank` orders every edge: its source ranks below its target.
pub open spec fn ranks(rank: Seq<int>, n: nat, edges: Seq<(usize, usize)>) -> bool {
    &&& rank.len() == n
    &&& forall|e: int|
        0 <= e < edges.len() ==> rank[(#[trigger] edges[e]).0 as int] < rank[edges[e].1 as int]
}

/// The directed graph on nodes `0..n` with `edges` has no cycle: some ranking
/// orders every edge.
pub open spec fn acyclic_graph(n: nat, edges: Seq<(usize, usize)>) -> bool {
    exists|rank: Seq<int>| #[trigger] ranks(rank, n, edges)
}

proof fn lemma_count_push(s: Seq<usize>, x: usize, j: int)
    ensures
        count_of(s.push(x), j) == count_of(s, j) + if x == j {
            1nat
        } else {
            0nat
        },
    decreases s.len(),
{
    if s.len() > 0 {
        assert(s.push(x).drop_first() =~= s.drop_first().push(x));
        assert(s.push(x)[0] == s[0]);
        lemma_count_push(s.drop_first(), x, j);
    } else {
        assert(s.push(x).drop_first() =~= Seq::<usize>::empty());
        assert(s.push(x)[0] == x);
        assert(count_of(Seq::<usize>::empty(), j) == 0);
    }
}

proof fn lemma_count_skip(s: Seq<usize>, k: int, j: int)
    requires
        0 <= k < s.len(),
    ensures
        count_of(s.skip(k), j) == (if s[k] == j {
            1nat
        } else {
            0nat
        }) + count_of(s.skip(k + 1), j),
{
    assert(s.skip(k).drop_first() =~= s.skip(k + 1));
}

/// Marking `i` done removes exactly its edges from every pending count.
proof fn lemma_pending_done(edges: Seq<(usize, usize)>, j: int, done: Set<usize>, i: usize)
    requires
        !done.contains(i),
    ensures
        pending_into(edges, j, done) == pending_into(edges, j, done.insert(i)) + count_of(
            targets_from(edges, i as int),
            j,
        ),
    decreases edges.len(),
{
    if edges.len() > 0 {
        let rest = edges.drop_last();
        lemma_pending_done(rest, j, done, i);
        if edges.last().0 == i {
            lemma_count_push(targets_from(rest, i as int), edges.last().1, j);
        }
    }
}

/// Pending counts only shrink as more sources are done.
proof fn lemma_pending_monotone(edges: Seq<(usize, usize)>, j: int, small: Set<usize>, large: Set<usize>)
    requires
        small.subset_of(large),
    ensures
        pending_into(edges, j, large) <= pending_into(edges, j, small),
    decreases edges.len(),
{
    if edges.len() > 0 {
        lemma_pending_monotone(edges.drop_last(), j, small, large);
    }
}

/// An edge into `j` from a source outside `done` is pending.
proof fn lemma_pending_edge(edges: Seq<(usize, usize)>, j: int, done: Set<usize>, e: int)
    requires
        0 <= e < edges.len(),
        edges[e].1 == j,
        !done.contains(edges[e].0),
    ensures
        pending_into(edges, j, done) > 0,
    decreases edges.len(),
{
    if e < edges.len() - 1 {
        lemma_pending_edge(edges.drop_last(), j, done, e);
    }
}

/// Kahn's algorithm over nodes `0..n`: every node must be reachable by removing
/// nodes without remaining incoming edges. One step per edge, node and visit.
fn acyclic(n: usize, edges: &Vec<(usize, usize)>, work: &mut Budget) -> (r: Result<(), Error>)
    requires
        forall|e: int| 0 <= e < edges@.len() ==> (#[trigger] edges@[e]).0 < n && edges@[e].1 < n,
    ensures
        final(work).0 <= old(work).0,
        r is Ok ==> acyclic_graph(n as nat, edges@),
        r matches Err(e) ==> e == Error::ResourceLimit || e == Error::Cycle,
        r matches Err(e) ==> e == Error::Cycle ==> !acyclic_graph(n as nat, edges@),
        r is Ok ==> old(work).0 - final(work).0 <= 2 * edges@.len() + 2 * n,
        old(work).0 >= 2 * edges@.len() + 2 * n ==> r is Ok || r == Err::<(), Error>(Error::Cycle),
{
    let ghost all = edges@;
    let mut degree: Vec<usize> = Vec::new();
    let mut next: Vec<Vec<usize>> = Vec::new();
    let mut x: usize = 0;
    while x < n
        invariant
            x <= n,
            degree@.len() == x,
            next@.len() == x,
            forall|j: int| 0 <= j < x ==> degree@[j] == 0,
            forall|j: int| 0 <= j < x ==> (#[trigger] next@[j])@ == Seq::<usize>::empty(),
        decreases n - x,
    {
        degree.push(0);
        next.push(Vec::new());
        x += 1;
    }
    let mut e: usize = 0;
    while e < edges.len()
        invariant
            e <= all.len(),
            all == edges@,
            degree@.len() == n,
            next@.len() == n,
            work.0 <= old(work).0,
            work.0 == old(work).0 - e,
            forall|f: int| 0 <= f < all.len() ==> (#[trigger] all[f]).0 < n && all[f].1 < n,
            forall|j: int| 0 <= j < n ==> degree@[j] == pending_into(all.take(e as int), j, Set::empty()),
            forall|j: int| 0 <= j < n ==> (#[trigger] next@[j])@ == targets_from(all.take(e as int), j),
        decreases all.len() - e,
    {
        work.tick()?;
        let (a, b) = edges[e];
        proof {
            assert(all.take(e + 1).drop_last() =~= all.take(e as int));
            assert(all.take(e + 1).last() == all[e as int]);
        }
        proof {
            lemma_pending_le(all.take(e as int), b as int, Set::empty());
        }
        degree.set(
            b,
            match degree[b].checked_add(1) {
                Some(d) => d,
                None => {
                    return Err(Error::ResourceLimit);
                },
            },
        );
        let mut targets: Vec<usize> = Vec::new();
        std::mem::swap(&mut targets, &mut next[a]);
        targets.push(b);
        next.set(a, targets);
        e += 1;
    }
    proof {
        assert(all.take(e as int) =~= all);
    }
    let mut queue: Vec<usize> = Vec::new();
    let mut i: usize = 0;
    while i < n
        invariant
            i <= n,
            all == edges@,
            work.0 == old(work).0 - all.len() - i,
            degree@.len() == n,
            next@.len() == n,
            work.0 <= old(work).0,
            forall|f: int| 0 <= f < all.len() ==> (#[trigger] all[f]).0 < n && all[f].1 < n,
            forall|j: int| 0 <= j < n ==> degree@[j] == pending_into(all, j, Set::empty()),
            forall|j: int| 0 <= j < n ==> (#[trigger] next@[j])@ == targets_from(all, j),
            forall|p: int| 0 <= p < queue@.len() ==> (#[trigger] queue@[p]) < i,
            queue@.no_duplicates(),
            forall|j: int| 0 <= j < i ==> (degree@[j] == 0 <==> queue@.contains(j as usize)),
            forall|p: int| 0 <= p < queue@.len() ==> degree@[#[trigger] queue@[p] as int] == 0,
        decreases n - i,
    {
        work.tick()?;
        let ghost q0 = queue@;
        if degree[i] == 0 {
            queue.push(i);
        }
        proof {
            assert forall|j: int| 0 <= j < i + 1 implies (degree@[j] == 0 <==> queue@.contains(j as usize)) by {
                if j < i {
                    if q0.contains(j as usize) {
                        let p = choose|p: int| 0 <= p < q0.len() && q0[p] == j as usize;
                        assert(queue@[p] == j as usize);
                    }
                    if queue@.contains(j as usize) {
                        let p = choose|p: int| 0 <= p < queue@.len() && queue@[p] == j as usize;
                        if p < q0.len() {
                            assert(q0[p] == j as usize);
                        }
                    }
                } else {
                    if degree@[j] == 0 {
                        assert(queue@[q0.len() as int] == i);
                    }
                    if queue@.contains(j as usize) {
                        let p = choose|p: int| 0 <= p < queue@.len() && queue@[p] == j as usize;
                        if p < q0.len() {
                            assert(q0[p] < i);
                        }
                    }
                }
            }
        }
        i += 1;
    }
    proof {
        assert forall|p: int| 0 <= p < queue@.len() implies pending_into(
            all,
            #[trigger] queue@[p] as int,
            queue@.take(p).to_set(),
        ) == 0 by {
            lemma_pending_monotone(all, queue@[p] as int, Set::empty(), queue@.take(p).to_set());
        }
        assert(queue@.take(0).to_set() =~= Set::<usize>::empty());
    }
    let mut head: usize = 0;
    while head < queue.len()
        invariant
            head <= queue@.len(),
            all == edges@,
            degree@.len() == n,
            next@.len() == n,
            work.0 <= old(work).0,
            work.0 == old(work).0 - all.len() - n - head - out_sum(all, queue@.take(head as int)),
            forall|f: int| 0 <= f < all.len() ==> (#[trigger] all[f]).0 < n && all[f].1 < n,
            forall|j: int|
                0 <= j < n ==> degree@[j] == pending_into(all, j, queue@.take(head as int).to_set()),
            forall|j: int| 0 <= j < n ==> (#[trigger] next@[j])@ == targets_from(all, j),
            forall|p: int| 0 <= p < queue@.len() ==> (#[trigger] queue@[p]) < n,
            queue@.no_duplicates(),
            forall|j: int| 0 <= j < n ==> (degree@[j] == 0 <==> queue@.contains(j as usize)),
            forall|p: int|
                0 <= p < queue@.len() ==> pending_into(
                    all,
                    #[trigger] queue@[p] as int,
                    queue@.take(p).to_set(),
                ) == 0,
        decreases work.0,
    {
        proof {
            lemma_nodes_len(queue@, n as int);
            lemma_take_unique(queue@, head + 1);
            lemma_out_sum_bound(all, queue@.take(head + 1));
            assert(queue@.take(head + 1).drop_last() =~= queue@.take(head as int));
        }
        work.tick()?;
        let ghost w1 = work.0;
        let node = queue[head];
        let ghost done = queue@.take(head as int).to_set();
        proof {
            let t0 = queue@.take(head as int);
            let t1 = queue@.take(head + 1);
            assert(t1 =~= t0.push(node));
            assert(t1.to_set() =~= done.insert(node)) by {
                assert forall|v: usize| #[trigger] t1.to_set().contains(v) <==> done.insert(node).contains(v) by {
                    if t1.to_set().contains(v) {
                        let p = choose|p: int| 0 <= p < t1.len() && t1[p] == v;
                        if p < head {
                            assert(t0[p] == v);
                        }
                    }
                    if done.contains(v) {
                        let p = choose|p: int| 0 <= p < t0.len() && t0[p] == v;
                        assert(t1[p] == v);
                    }
                    if v == node {
                        assert(t1[head as int] == v);
                    }
                }
            }
            assert(!done.contains(node)) by {
                if done.contains(node) {
                    let p = choose|p: int| 0 <= p < t0.len() && t0[p] == node;
                    assert(queue@[p] == queue@[head as int]);
                }
            }
            assert forall|j: int| 0 <= j < n implies degree@[j] == pending_into(all, j, done.insert(node))
                + count_of(next@[node as int]@.skip(0), j) by {
                lemma_pending_done(all, j, done, node);
                assert(next@[node as int]@.skip(0) =~= next@[node as int]@);
            }
        }
        head += 1;
        let targets = &next[node];
        let mut k: usize = 0;
        while k < targets.len()
            invariant
                k <= targets@.len(),
                head <= queue@.len(),
                all == edges@,
                degree@.len() == n,
                next@.len() == n,
                node < n,
                targets@ == next@[node as int]@,
                targets@ == targets_from(all, node as int),
                work.0 <= w1,
                w1 < old(work).0,
                head >= 1,
                queue@[head - 1] == node,
                head <= n,
                out_sum(all, queue@.take(head as int)) == out_sum(all, queue@.take(head - 1)) + targets@.len(),
                out_sum(all, queue@.take(head as int)) <= all.len(),
                work.0 == old(work).0 - all.len() - n - head - out_sum(all, queue@.take(head - 1)) - k,
                forall|f: int| 0 <= f < all.len() ==> (#[trigger] all[f]).0 < n && all[f].1 < n,
                queue@.take(head as int).to_set() == done.insert(node),
                forall|j: int|
                    0 <= j < n ==> degree@[j] == pending_into(all, j, done.insert(node)) + count_of(
                        targets@.skip(k as int),
                        j,
                    ),
                forall|j: int| 0 <= j < n ==> (#[trigger] next@[j])@ == targets_from(all, j),
                forall|p: int| 0 <= p < queue@.len() ==> (#[trigger] queue@[p]) < n,
                queue@.no_duplicates(),
                forall|j: int| 0 <= j < n ==> (degree@[j] == 0 <==> queue@.contains(j as usize)),
                forall|p: int|
                    0 <= p < queue@.len() ==> pending_into(
                        all,
                        #[trigger] queue@[p] as int,
                        queue@.take(p).to_set(),
                    ) == 0,
            decreases targets@.len() - k,
        {
            work.tick()?;
            let t = targets[k];
            proof {
                lemma_count_skip(targets@, k as int, t as int);
                assert forall|j: int| 0 <= j < n && j != t implies count_of(targets@.skip(k as int), j)
                    == count_of(targets@.skip(k + 1), j) by {
                    lemma_count_skip(targets@, k as int, j);
                }
                lemma_targets_bounded(all, node as int, n as int);
                assert(t < n);
            }
            let ghost before = degree@;
            let ghost q0 = queue@;
            degree.set(t, degree[t] - 1);
            if degree[t] == 0 {
                proof {
                    assert(!q0.contains(t));
                    let whole = q0.take(q0.len() as int);
                    let front = q0.take(head as int);
                    let large = whole.to_set();
                    assert(done.insert(node).subset_of(large)) by {
                        assert forall|v: usize| done.insert(node).contains(v) implies large.contains(v) by {
                            assert(front.to_set().contains(v));
                            let p = choose|p: int| 0 <= p < front.len() && front[p] == v;
                            assert(whole[p] == v);
                        }
                    }
                    lemma_pending_monotone(all, t as int, done.insert(node), large);
                }
                queue.push(t);
                proof {
                    assert(queue@.take(head as int) =~= q0.take(head as int));
                    assert(queue@.take(head - 1) =~= q0.take(head - 1));
                    assert forall|p: int| 0 <= p < queue@.len() implies pending_into(
                        all,
                        #[trigger] queue@[p] as int,
                        queue@.take(p).to_set(),
                    ) == 0 by {
                        if p < q0.len() {
                            assert(queue@.take(p) =~= q0.take(p));
                            assert(queue@[p] == q0[p]);
                        } else {
                            assert(queue@.take(p) =~= q0.take(q0.len() as int));
                        }
                    }
                    assert forall|j: int| 0 <= j < n implies (degree@[j] == 0 <==> queue@.contains(j as usize)) by {
                        if j != t {
                            if q0.contains(j as usize) {
                                let p = choose|p: int| 0 <= p < q0.len() && q0[p] == j as usize;
                                assert(queue@[p] == j as usize);
                            }
                            if queue@.contains(j as usize) {
                                let p = choose|p: int| 0 <= p < queue@.len() && queue@[p] == j as usize;
                                assert(p < q0.len());
                                assert(q0[p] == j as usize);
                            }
                        } else {
                            assert(queue@[q0.len() as int] == t);
                        }
                    }
                }
            } else {
                proof {
                    assert(!q0.contains(t));
                }
            }
            k += 1;
        }
    }
    if head == n {
        proof {
            lemma_take_unique(queue@, head as int);
            lemma_out_sum_bound(all, queue@.take(head as int));
            let q = queue@;
            let rank = Seq::new(n as nat, |x: int| choose|p: int| 0 <= p < q.len() && q[p] == x as usize);
            assert forall|f: int| 0 <= f < all.len() implies rank[(#[trigger] all[f]).0 as int]
                < rank[all[f].1 as int] by {
                let (a, b) = all[f];
                lemma_all_nodes(q, n as int, b as int);
                lemma_all_nodes(q, n as int, a as int);
                let pb = rank[b as int];
                let pa = rank[a as int];
                assert(0 <= pb < q.len() && q[pb] == b);
                assert(0 <= pa < q.len() && q[pa] == a);
                let before = q.take(pb);
                if !before.to_set().contains(a) {
                    lemma_pending_edge(all, b as int, before.to_set(), f);
                }
                let p = choose|p: int| 0 <= p < before.len() && before[p] == a;
                assert(q[p] == a);
            }
            assert(ranks(rank, n as nat, all));
        }
        Ok(())
    } else {
        proof {
            let q = queue@;
            assert(q.take(head as int) =~= q);
            lemma_missing_node(q, n as int);
            let x = choose|x: int| 0 <= x < n && !(#[trigger] q.contains(x as usize));
            let done = q.to_set();
            assert forall|j: int| 0 <= j < n && !done.contains(j as usize) implies #[trigger] pending_into(
                all,
                j,
                done,
            ) > 0 by {
                assert(!q.contains(j as usize));
                assert(degree@[j] != 0);
                assert(degree@[j] == pending_into(all, j, q.take(head as int).to_set()));
            }
            lemma_stuck_cycle(n as int, all, done, x);
        }
        Err(Error::Cycle)
    }
}

/// Every target of an edge leaving `x` is a node below `n`.
proof fn lemma_targets_bounded(edges: Seq<(usize, usize)>, x: int, n: int)
    requires
        forall|f: int| 0 <= f < edges.len() ==> (#[trigger] edges[f]).1 < n,
    ensures
        forall|k: int| 0 <= k < targets_from(edges, x).len() ==> (#[trigger] targets_from(edges, x)[k]) < n,
    decreases edges.len(),
{
    if edges.len() > 0 {
        let rest = edges.drop_last();
        assert forall|f: int| 0 <= f < rest.len() implies (#[trigger] rest[f]).1 < n by {
            assert(rest[f] == edges[f]);
        }
        lemma_targets_bounded(rest, x, n);
        assert(edges[edges.len() - 1].1 < n);
        let t = targets_from(edges, x);
        let tr = targets_from(rest, x);
        if edges.last().0 == x {
            assert(t == tr.push(edges.last().1));
            assert forall|k: int| 0 <= k < t.len() implies (#[trigger] t[k]) < n by {
                if k < tr.len() {
                    assert(t[k] == tr[k]);
                }
            }
        } else {
            assert(t == tr);
        }
    }
}

/// A duplicate-free sequence of `n` nodes below `n` holds every node.
proof fn lemma_all_nodes(q: Seq<usize>, n: int, x: int)
    requires
        q.no_duplicates(),
        q.len() == n,
        forall|p: int| 0 <= p < q.len() ==> (#[trigger] q[p]) < n,
        0 <= x < n,
    ensures
        q.contains(x as usize),
{
    let q2 = q.map_values(|v: usize| v as int);
    assert(q2.no_duplicates()) by {
        assert forall|i: int, j: int| 0 <= i < q2.len() && 0 <= j < q2.len() && i != j implies q2[i]
            != q2[j] by {
            assert(q[i] != q[j]);
        }
    }
    q2.unique_seq_to_set();
    vstd::set_lib::lemma_int_range(0, n);
    let s = q2.to_set();
    let range = vstd::set_lib::set_int_range(0, n);
    vstd::seq_lib::seq_to_set_is_finite(q2);
    assert(s.subset_of(range)) by {
        assert forall|v: int| s.contains(v) implies range.contains(v) by {
            let p = choose|p: int| 0 <= p < q2.len() && q2[p] == v;
            assert(q[p] < n);
        }
    }
    vstd::set_lib::lemma_subset_equality(s, range);
    assert(range.contains(x));
    assert(s.contains(x));
    let p = choose|p: int| 0 <= p < q2.len() && q2[p] == x;
    assert(q[p] == x as usize);
}


/// The number of edges leaving the nodes of `s`, counted per node.
pub open spec fn out_sum(edges: Seq<(usize, usize)>, s: Seq<usize>) -> int
    decreases s.len(),
{
    if s.len() == 0 {
        0
    } else {
        out_sum(edges, s.drop_last()) + targets_from(edges, s.last() as int).len()
    }
}

/// The number of times `x` occurs in `s`.
spec fn hits(s: Seq<usize>, x: usize) -> int
    decreases s.len(),
{
    if s.len() == 0 {
        0
    } else {
        hits(s.drop_last(), x) + if s.last() == x {
            1int
        } else {
            0int
        }
    }
}

proof fn lemma_hits_absent(s: Seq<usize>, x: usize)
    requires
        !s.contains(x),
    ensures
        hits(s, x) == 0,
    decreases s.len(),
{
    if s.len() > 0 {
        let d = s.drop_last();
        assert(!d.contains(x)) by {
            if d.contains(x) {
                let k = choose|k: int| 0 <= k < d.len() && d[k] == x;
                assert(s[k] == x);
            }
        }
        assert(s[s.len() - 1] == s.last());
        lemma_hits_absent(d, x);
    }
}

proof fn lemma_hits_unique(s: Seq<usize>, x: usize)
    requires
        s.no_duplicates(),
    ensures
        0 <= hits(s, x) <= 1,
    decreases s.len(),
{
    if s.len() > 0 {
        let d = s.drop_last();
        assert(d.no_duplicates()) by {
            assert forall|i: int, j: int| 0 <= i < d.len() && 0 <= j < d.len() && i != j implies d[i] != d[j] by {
                assert(d[i] == s[i] && d[j] == s[j]);
            }
        }
        lemma_hits_unique(d, x);
        if s.last() == x {
            assert(!d.contains(x)) by {
                if d.contains(x) {
                    let k = choose|k: int| 0 <= k < d.len() && d[k] == x;
                    assert(s[k] == s[s.len() - 1]);
                }
            }
            lemma_hits_absent(d, x);
        }
    }
}

proof fn lemma_out_sum_split(edges: Seq<(usize, usize)>, s: Seq<usize>)
    requires
        edges.len() > 0,
    ensures
        out_sum(edges, s) == out_sum(edges.drop_last(), s) + hits(s, edges.last().0),
    decreases s.len(),
{
    if s.len() > 0 {
        lemma_out_sum_split(edges, s.drop_last());
    }
}

proof fn lemma_out_sum_nil(edges: Seq<(usize, usize)>, s: Seq<usize>)
    requires
        edges.len() == 0,
    ensures
        out_sum(edges, s) == 0,
    decreases s.len(),
{
    if s.len() > 0 {
        lemma_out_sum_nil(edges, s.drop_last());
    }
}

/// Distinct nodes have at most as many leaving edges as there are edges.
proof fn lemma_out_sum_bound(edges: Seq<(usize, usize)>, s: Seq<usize>)
    requires
        s.no_duplicates(),
    ensures
        0 <= out_sum(edges, s) <= edges.len(),
    decreases edges.len(),
{
    if edges.len() == 0 {
        lemma_out_sum_nil(edges, s);
    } else {
        lemma_out_sum_split(edges, s);
        lemma_hits_unique(s, edges.last().0);
        lemma_out_sum_bound(edges.drop_last(), s);
    }
}

/// An edge list counts at most one pending edge per edge.
proof fn lemma_pending_le(edges: Seq<(usize, usize)>, j: int, done: Set<usize>)
    ensures
        pending_into(edges, j, done) <= edges.len(),
    decreases edges.len(),
{
    if edges.len() > 0 {
        lemma_pending_le(edges.drop_last(), j, done);
    }
}

proof fn lemma_take_unique(q: Seq<usize>, m: int)
    requires
        q.no_duplicates(),
        0 <= m <= q.len(),
    ensures
        q.take(m).no_duplicates(),
{
    let t = q.take(m);
    assert forall|i: int, j: int| 0 <= i < t.len() && 0 <= j < t.len() && i != j implies t[i] != t[j] by {
        assert(t[i] == q[i] && t[j] == q[j]);
    }
}

/// A duplicate-free sequence of nodes below `n` has at most `n` elements.
proof fn lemma_nodes_len(q: Seq<usize>, n: int)
    requires
        q.no_duplicates(),
        0 <= n,
        forall|p: int| 0 <= p < q.len() ==> (#[trigger] q[p]) < n,
    ensures
        q.len() <= n,
{
    let q2 = q.map_values(|v: usize| v as int);
    assert(q2.no_duplicates()) by {
        assert forall|i: int, j: int| 0 <= i < q2.len() && 0 <= j < q2.len() && i != j implies q2[i] != q2[j] by {
            assert(q[i] != q[j]);
        }
    }
    q2.unique_seq_to_set();
    vstd::set_lib::lemma_int_range(0, n);
    let s = q2.to_set();
    let range = vstd::set_lib::set_int_range(0, n);
    assert(s.subset_of(range)) by {
        assert forall|v: int| s.contains(v) implies range.contains(v) by {
            let p = choose|p: int| 0 <= p < q2.len() && q2[p] == v;
            assert(q[p] < n);
        }
    }
    vstd::set_lib::lemma_len_subset(s, range);
}

/// A pending edge into `j` exists when some are counted.
proof fn lemma_pending_witness(edges: Seq<(usize, usize)>, j: int, done: Set<usize>)
    requires
        pending_into(edges, j, done) > 0,
    ensures
        exists|e: int| 0 <= e < edges.len() && (#[trigger] edges[e]).1 == j && !done.contains(edges[e].0),
    decreases edges.len(),
{
    if edges.len() > 0 {
        let rest = edges.drop_last();
        if edges.last().1 == j && !done.contains(edges.last().0) {
            assert(edges[edges.len() - 1] == edges.last());
        } else {
            lemma_pending_witness(rest, j, done);
            let e = choose|e: int| 0 <= e < rest.len() && (#[trigger] rest[e]).1 == j && !done.contains(rest[e].0);
            assert(edges[e] == rest[e]);
        }
    }
}

/// Among the nodes below `k` outside `done`, one of least rank, if any.
spec fn least_outside(rank: Seq<int>, done: Set<usize>, k: int) -> int
    decreases k,
{
    if k <= 0 {
        -1
    } else {
        let b = least_outside(rank, done, k - 1);
        if done.contains((k - 1) as usize) {
            b
        } else if b == -1 || rank[k - 1] < rank[b] {
            k - 1
        } else {
            b
        }
    }
}

proof fn lemma_least_outside(rank: Seq<int>, done: Set<usize>, k: int)
    requires
        0 <= k,
    ensures
        least_outside(rank, done, k) == -1 ==> forall|y: int| 0 <= y < k ==> #[trigger] done.contains(y as usize),
        least_outside(rank, done, k) != -1 ==> {
            let b = least_outside(rank, done, k);
            &&& 0 <= b < k
            &&& !done.contains(b as usize)
            &&& forall|y: int| 0 <= y < k && !(#[trigger] done.contains(y as usize)) ==> rank[b] <= rank[y]
        },
    decreases k,
{
    if k > 0 {
        lemma_least_outside(rank, done, k - 1);
    }
}

/// A duplicate-free sequence of nodes below `n` whose length is not `n` misses
/// a node.
proof fn lemma_missing_node(q: Seq<usize>, n: int)
    requires
        q.no_duplicates(),
        q.len() != n,
        0 <= n <= usize::MAX,
        forall|p: int| 0 <= p < q.len() ==> (#[trigger] q[p]) < n,
    ensures
        exists|x: int| 0 <= x < n && !(#[trigger] q.contains(x as usize)),
{
    if forall|x: int| 0 <= x < n ==> #[trigger] q.contains(x as usize) {
        let q2 = q.map_values(|v: usize| v as int);
        assert(q2.no_duplicates()) by {
            assert forall|i: int, j: int| 0 <= i < q2.len() && 0 <= j < q2.len() && i != j implies q2[i]
                != q2[j] by {
                assert(q[i] != q[j]);
            }
        }
        q2.unique_seq_to_set();
        vstd::set_lib::lemma_int_range(0, n);
        let s = q2.to_set();
        let range = vstd::set_lib::set_int_range(0, n);
        vstd::seq_lib::seq_to_set_is_finite(q2);
        assert(s.subset_of(range)) by {
            assert forall|v: int| s.contains(v) implies range.contains(v) by {
                let p = choose|p: int| 0 <= p < q2.len() && q2[p] == v;
                assert(q[p] < n);
            }
        }
        assert(range.subset_of(s)) by {
            assert forall|v: int| range.contains(v) implies s.contains(v) by {
                assert(q.contains(v as usize));
                let p = choose|p: int| 0 <= p < q.len() && q[p] == v as usize;
                assert(q2[p] == q[p] as int);
            }
        }
        assert(s =~= range);
    }
}

/// When the nodes outside `done` all have a pending edge from outside `done`,
/// and some node is outside, no ranking orders the edges.
proof fn lemma_stuck_cycle(n: int, edges: Seq<(usize, usize)>, done: Set<usize>, x: int)
    requires
        0 <= x < n,
        !done.contains(x as usize),
        forall|f: int| 0 <= f < edges.len() ==> (#[trigger] edges[f]).0 < n && edges[f].1 < n,
        forall|j: int| 0 <= j < n && !done.contains(j as usize) ==> #[trigger] pending_into(edges, j, done) > 0,
    ensures
        !acyclic_graph(n as nat, edges),
{
    if acyclic_graph(n as nat, edges) {
        let rank = choose|rank: Seq<int>| #[trigger] ranks(rank, n as nat, edges);
        lemma_least_outside(rank, done, n);
        let b = least_outside(rank, done, n);
        assert(pending_into(edges, b, done) > 0);
        lemma_pending_witness(edges, b, done);
        let e = choose|e: int| 0 <= e < edges.len() && (#[trigger] edges[e]).1 == b && !done.contains(edges[e].0);
        let a = edges[e].0 as int;
        assert(!done.contains(a as usize));
        assert(rank[a] < rank[b]);
        assert(rank[b] <= rank[a]);
    }
}

/// Inserts `x` into the ascending, duplicate-free `v`; whether it was absent.
fn insert_sorted(v: &mut Vec<u64>, x: u64) -> (r: bool)
    requires
        forall|i: int, j: int| 0 <= i < j < old(v)@.len() ==> old(v)@[i] < old(v)@[j],
    ensures
        forall|i: int, j: int| 0 <= i < j < final(v)@.len() ==> final(v)@[i] < final(v)@[j],
        forall|y: u64| final(v)@.contains(y) <==> (old(v)@.contains(y) || y == x),
        r == !old(v)@.contains(x),
{
    let mut p: usize = 0;
    while p < v.len() && v[p] < x
        invariant
            p <= v@.len(),
            forall|k: int| 0 <= k < p ==> v@[k] < x,
        decreases v@.len() - p,
    {
        p += 1;
    }
    if p < v.len() && v[p] == x {
        assert(v@[p as int] == x);
        return false;
    }
    proof {
        assert(!v@.contains(x)) by {
            if v@.contains(x) {
                let k = choose|k: int| 0 <= k < v@.len() && v@[k] == x;
                if k >= p {
                    assert(v@[p as int] <= v@[k]);
                }
            }
        }
    }
    v.insert(p, x);
    proof {
        assert forall|y: u64| final(v)@.contains(y) <==> (old(v)@.contains(y) || y == x) by {
            if old(v)@.contains(y) {
                let k = choose|k: int| 0 <= k < old(v)@.len() && old(v)@[k] == y;
                if k < p {
                    assert(final(v)@[k] == y);
                } else {
                    assert(final(v)@[k + 1] == y);
                }
            }
            if final(v)@.contains(y) {
                let k = choose|k: int| 0 <= k < final(v)@.len() && final(v)@[k] == y;
                if k < p {
                    assert(old(v)@[k] == y);
                } else if k > p {
                    assert(old(v)@[k - 1] == y);
                }
            }
            if y == x {
                assert(final(v)@[p as int] == x);
            }
        }
    }
    true
}

/// `v` contains `x`.
fn contains_u64(v: &Vec<u64>, x: u64) -> (r: bool)
    ensures
        r == v@.contains(x),
{
    let mut i: usize = 0;
    while i < v.len()
        invariant
            i <= v@.len(),
            forall|k: int| 0 <= k < i ==> v@[k] != x,
        decreases v@.len() - i,
    {
        if v[i] == x {
            assert(v@[i as int] == x);
            return true;
        }
        i += 1;
    }
    false
}

/// The ascending, duplicate-free keys of `items`.
fn sorted_keys(items: &Vec<ItemId>) -> (r: Vec<u64>)
    ensures
        forall|i: int, j: int| 0 <= i < j < r@.len() ==> r@[i] < r@[j],
        forall|y: u64| r@.contains(y) <==> has_key(items@, y),
{
    let mut r: Vec<u64> = Vec::new();
    let mut i: usize = 0;
    while i < items.len()
        invariant
            i <= items@.len(),
            forall|a: int, b: int| 0 <= a < b < r@.len() ==> r@[a] < r@[b],
            forall|y: u64| r@.contains(y) <==> has_key(items@.take(i as int), y),
        decreases items@.len() - i,
    {
        insert_sorted(&mut r, items[i].0);
        proof {
            let before = items@.take(i as int);
            let after = items@.take(i + 1);
            assert(after =~= before.push(items@[i as int]));
            assert forall|y: u64| r@.contains(y) <==> has_key(after, y) by {
                if has_key(before, y) {
                    let k = choose|k: int| 0 <= k < before.len() && (#[trigger] before[k]).spec_key() == y;
                    assert(after[k] == before[k]);
                }
                if has_key(after, y) {
                    let k = choose|k: int| 0 <= k < after.len() && (#[trigger] after[k]).spec_key() == y;
                    if k < i {
                        assert(before[k] == after[k]);
                    }
                }
                if y == items@[i as int].0 {
                    assert(after[i as int].spec_key() == y);
                }
            }
        }
        i += 1;
    }
    proof {
        assert(items@.take(i as int) =~= items@);
    }
    r
}

/// Adds `x` to the sorted set stored under `key`, creating it if absent.
fn add_to(map: &mut BTreeMap<u64, Vec<u64>>, key: u64, x: u64)
    requires
        forall|k: u64| #[trigger] old(map)@.contains_key(k) ==> sorted_set(old(map)@[k]@),
    ensures
        forall|k: u64| #[trigger] final(map)@.contains_key(k) ==> sorted_set(final(map)@[k]@),
        final(map)@.dom() == old(map)@.dom().insert(key),
        forall|k: u64| k != key && #[trigger] old(map)@.contains_key(k) ==> final(map)@[k] == old(map)@[k],
        forall|y: u64|
            #[trigger] final(map)@[key]@.contains(y) <==> (y == x || (old(map)@.contains_key(key)
                && old(map)@[key]@.contains(y))),
{
    let mut set = match map.remove(&key) {
        Some(v) => v,
        None => Vec::new(),
    };
    insert_sorted(&mut set, x);
    map.insert(key, set);
    proof {
        assert(final(map)@.dom() =~= old(map)@.dom().insert(key));
    }
}

/// The values of `v` ascend strictly.
pub open spec fn sorted_set(v: Seq<u64>) -> bool {
    forall|i: int, j: int| 0 <= i < j < v.len() ==> v[i] < v[j]
}

/// Item `a` depends on item `b`.
pub open spec fn depends(parts: Parts, a: u64, b: u64) -> bool {
    exists|d: int|
        0 <= d < parts.item_dependencies@.len() && (#[trigger] parts.item_dependencies@[d]).0.0 == a
            && parts.item_dependencies@[d].1.0 == b
}

pub open spec fn dependency_step_at(parts: Parts, p: Seq<u64>, i: int) -> bool {
    depends(parts, p[i], p[i + 1])
}

/// `p` is a chain of item dependencies.
pub open spec fn dependency_chain(parts: Parts, p: Seq<u64>) -> bool {
    p.len() >= 1 && forall|i: int| 0 <= i < p.len() - 1 ==> #[trigger] dependency_step_at(parts, p, i)
}

/// Item `x` is an item of representation `r`, or one that such an item depends
/// on, directly or through others.
pub open spec fn item_of(parts: Parts, r: int, x: u64) -> bool {
    exists|p: Seq<u64>|
        #[trigger] dependency_chain(parts, p) && has_key(parts.representations@[r].items@, p[0]) && p.last()
            == x
}

/// Item `x` belongs to context `c`: it is an item of a representation in `c`.
pub open spec fn in_context(parts: Parts, c: u64, x: u64) -> bool {
    exists|r: int|
        0 <= r < parts.representations@.len() && parts.representations@[r].context.0 == c
            && #[trigger] item_of(parts, r, x)
}

/// Some representation is in context `c`.
pub open spec fn context_used(parts: Parts, c: u64) -> bool {
    exists|r: int| 0 <= r < parts.representations@.len() && (#[trigger] parts.representations@[r]).context.0 == c
}

/// Representation `rep` is bound to a shape of definition `d`.
pub open spec fn bound_to(parts: Parts, d: u64, rep: u64) -> bool {
    exists|b: int, s: int|
        0 <= b < parts.shape_bindings@.len() && 0 <= s < parts.shapes@.len()
            && (#[trigger] parts.shape_bindings@[b]).shape == (#[trigger] parts.shapes@[s]).id
            && parts.shapes@[s].target == ShapeTarget::Definition(DefinitionId(d))
            && parts.shape_bindings@[b].representation.0 == rep
}

/// Representations `a` and `b` are joined by an association.
pub open spec fn associated(parts: Parts, a: u64, b: u64) -> bool {
    exists|i: int, j: int|
        0 <= i < parts.associations@.len() && 0 <= j < parts.relationships@.len()
            && (#[trigger] parts.relationships@[j]).id == (#[trigger] parts.associations@[i]) && ((
        parts.relationships@[j].rep_1.0 == a && parts.relationships@[j].rep_2.0 == b) || (
        parts.relationships@[j].rep_1.0 == b && parts.relationships@[j].rep_2.0 == a))
}

pub open spec fn association_step_at(parts: Parts, p: Seq<u64>, i: int) -> bool {
    associated(parts, p[i], p[i + 1])
}

/// `p` is a chain of associated representations.
pub open spec fn association_chain(parts: Parts, p: Seq<u64>) -> bool {
    p.len() >= 1 && forall|i: int| 0 <= i < p.len() - 1 ==> #[trigger] association_step_at(parts, p, i)
}

/// Representation `x` represents definition `d`: it is bound to a shape of `d`,
/// or associated with one that is, directly or through others.
pub open spec fn represents(parts: Parts, d: u64, x: u64) -> bool {
    exists|p: Seq<u64>| #[trigger] association_chain(parts, p) && bound_to(parts, d, p[0]) && p.last() == x
}

/// Some representation is bound to a shape of definition `d`.
pub open spec fn has_shape_reps(parts: Parts, d: u64) -> bool {
    exists|x: u64| bound_to(parts, d, x)
}

/// `sets` holds, for each definition with a bound representation, the set of
/// representations that represent it.
pub open spec fn definition_sets(parts: Parts, sets: Map<u64, Vec<u64>>) -> bool {
    &&& forall|d: u64| #[trigger] sets.contains_key(d) <==> has_shape_reps(parts, d)
    &&& forall|d: u64, x: u64|
        sets.contains_key(d) ==> (#[trigger] sets[d]@.contains(x) <==> represents(parts, d, x))
}

/// Some entry of `v` is representation `x`.
pub open spec fn lists_representation(v: Seq<RepresentationId>, x: u64) -> bool {
    exists|i: int| 0 <= i < v.len() && (#[trigger] v[i]).0 == x
}

spec fn bound_within(parts: Parts, d: u64, rep: u64, n: int) -> bool {
    exists|b: int, s: int|
        0 <= b < n && 0 <= s < parts.shapes@.len() && (#[trigger] parts.shape_bindings@[b]).shape == (
        #[trigger] parts.shapes@[s]).id && parts.shapes@[s].target == ShapeTarget::Definition(
            DefinitionId(d),
        ) && parts.shape_bindings@[b].representation.0 == rep
}

spec fn associated_within(parts: Parts, a: u64, b: u64, n: int) -> bool {
    exists|i: int, j: int|
        0 <= i < n && 0 <= j < parts.relationships@.len() && (#[trigger] parts.relationships@[j]).id == (
        #[trigger] parts.associations@[i]) && ((parts.relationships@[j].rep_1.0 == a
            && parts.relationships@[j].rep_2.0 == b) || (parts.relationships@[j].rep_1.0 == b
            && parts.relationships@[j].rep_2.0 == a))
}

/// `links` lists, for each representation, exactly those associated with it
/// through the first `n` associations.
spec fn neighbours_within(parts: Parts, links: Map<u64, Vec<u64>>, n: int) -> bool {
    forall|a: u64, b: u64|
        #[trigger] associated_within(parts, a, b, n) <==> links.contains_key(a) && links[a]@.contains(b)
}

/// Key `d` is among the first `k` of `keys`.
spec fn done_key(keys: Seq<u64>, k: int, d: u64) -> bool {
    exists|m: int| 0 <= m < k && keys[m] == d
}

proof fn lemma_represents_start(parts: Parts, d: u64, x: u64)
    requires
        bound_to(parts, d, x),
    ensures
        represents(parts, d, x),
{
    assert(association_chain(parts, seq![x]));
}

proof fn lemma_represents_step(parts: Parts, d: u64, x: u64, y: u64)
    requires
        represents(parts, d, x),
        associated(parts, x, y),
    ensures
        represents(parts, d, y),
{
    let p = choose|p: Seq<u64>| #[trigger] association_chain(parts, p) && bound_to(parts, d, p[0]) && p.last() == x;
    let q = p.push(y);
    assert forall|i: int| 0 <= i < q.len() - 1 implies #[trigger] association_step_at(parts, q, i) by {
        if i < p.len() - 1 {
            assert(association_step_at(parts, p, i));
        }
    }
    assert(association_chain(parts, q));
}

/// A set that holds the start of a chain and is closed under associations
/// holds its end.
proof fn lemma_associations_closed(parts: Parts, found: Seq<u64>, p: Seq<u64>)
    requires
        association_chain(parts, p),
        found.contains(p[0]),
        forall|y: u64, b: u64| found.contains(y) && #[trigger] associated(parts, y, b) ==> found.contains(b),
    ensures
        found.contains(p.last()),
    decreases p.len(),
{
    if p.len() > 1 {
        let q = p.drop_last();
        assert forall|i: int| 0 <= i < q.len() - 1 implies #[trigger] association_step_at(parts, q, i) by {
            assert(association_step_at(parts, p, i));
        }
        lemma_associations_closed(parts, found, q);
        assert(association_step_at(parts, p, p.len() - 2));
    }
}

/// Some entry of `v` is item `x`.
pub open spec fn lists_item(v: Seq<ItemId>, x: u64) -> bool {
    exists|i: int| 0 <= i < v.len() && (#[trigger] v[i]).0 == x
}

/// `sets` holds, for each context in use, the set of its items.
pub open spec fn context_sets(parts: Parts, sets: Map<u64, Vec<u64>>) -> bool {
    &&& forall|c: u64| #[trigger] sets.contains_key(c) <==> context_used(parts, c)
    &&& forall|c: u64, x: u64|
        sets.contains_key(c) ==> (#[trigger] sets[c]@.contains(x) <==> in_context(parts, c, x))
}

/// `sets` holds, for each representation, the set of its items.
spec fn rep_item_sets(parts: Parts, sets: Map<u64, Vec<u64>>, n: int) -> bool {
    &&& forall|r: int| 0 <= r < n ==> sets.contains_key((#[trigger] parts.representations@[r]).id.0)
    &&& forall|r: int, x: u64|
        0 <= r < n ==> (#[trigger] sets[parts.representations@[r].id.0]@.contains(x) <==> item_of(parts, r, x))
}

spec fn in_context_within(parts: Parts, c: u64, x: u64, n: int) -> bool {
    exists|r: int|
        0 <= r < n && parts.representations@[r].context.0 == c && #[trigger] item_of(parts, r, x)
}

spec fn context_used_within(parts: Parts, c: u64, n: int) -> bool {
    exists|r: int| 0 <= r < n && (#[trigger] parts.representations@[r]).context.0 == c
}

/// `deps` lists, for each item, exactly the items it depends on.
spec fn children_exact(parts: Parts, deps: Map<u64, Vec<ItemId>>) -> bool {
    &&& forall|a: u64, j: int|
        deps.contains_key(a) && 0 <= j < deps[a]@.len() ==> depends(parts, a, (#[trigger] deps[a]@[j]).0)
    &&& forall|a: u64, b: u64|
        #[trigger] depends(parts, a, b) ==> deps.contains_key(a) && exists|j: int|
            0 <= j < deps[a]@.len() && deps[a]@[j].0 == b
}

spec fn depends_within(parts: Parts, a: u64, b: u64, n: int) -> bool {
    exists|d: int|
        0 <= d < n && (#[trigger] parts.item_dependencies@[d]).0.0 == a && parts.item_dependencies@[d].1.0
            == b
}

/// `deps` lists, for each item, exactly the items it depends on through the
/// first `n` dependencies.
spec fn children_within(parts: Parts, deps: Map<u64, Vec<ItemId>>, n: int) -> bool {
    &&& forall|a: u64, j: int|
        deps.contains_key(a) && 0 <= j < deps[a]@.len() ==> depends_within(
            parts,
            a,
            (#[trigger] deps[a]@[j]).0,
            n,
        )
    &&& forall|a: u64, b: u64|
        #[trigger] depends_within(parts, a, b, n) ==> deps.contains_key(a) && exists|j: int|
            0 <= j < deps[a]@.len() && deps[a]@[j].0 == b
}

proof fn lemma_item_of_start(parts: Parts, r: int, k: u64)
    requires
        has_key(parts.representations@[r].items@, k),
    ensures
        item_of(parts, r, k),
{
    assert(dependency_chain(parts, seq![k]));
}

proof fn lemma_item_of_step(parts: Parts, r: int, x: u64, y: u64)
    requires
        item_of(parts, r, x),
        depends(parts, x, y),
    ensures
        item_of(parts, r, y),
{
    let p = choose|p: Seq<u64>|
        #[trigger] dependency_chain(parts, p) && has_key(parts.representations@[r].items@, p[0]) && p.last()
            == x;
    let q = p.push(y);
    assert forall|i: int| 0 <= i < q.len() - 1 implies #[trigger] dependency_step_at(parts, q, i) by {
        if i < p.len() - 1 {
            assert(dependency_step_at(parts, p, i));
        }
    }
    assert(dependency_chain(parts, q));
}

/// A set that holds the start of a chain and is closed under dependencies
/// holds its end.
proof fn lemma_closed_holds(parts: Parts, found: Seq<u64>, p: Seq<u64>)
    requires
        dependency_chain(parts, p),
        found.contains(p[0]),
        forall|y: u64, b: u64| found.contains(y) && #[trigger] depends(parts, y, b) ==> found.contains(b),
    ensures
        found.contains(p.last()),
    decreases p.len(),
{
    if p.len() > 1 {
        let q = p.drop_last();
        assert forall|i: int| 0 <= i < q.len() - 1 implies #[trigger] dependency_step_at(parts, q, i) by {
            assert(dependency_step_at(parts, p, i));
        }
        lemma_closed_holds(parts, found, q);
        assert(dependency_step_at(parts, p, p.len() - 2));
    }
}

/// Some occurrence has `d` as its child.
pub open spec fn is_child(occurrences: Seq<Occurrence>, d: DefinitionId) -> bool {
    exists|o: int| 0 <= o < occurrences.len() && (#[trigger] occurrences[o]).child == d
}

/// The definitions that no occurrence instantiates, in input order.
pub open spec fn root_ids(definitions: Seq<Definition>, occurrences: Seq<Occurrence>) -> Seq<DefinitionId>
    decreases definitions.len(),
{
    if definitions.len() == 0 {
        Seq::empty()
    } else if is_child(occurrences, definitions.last().id) {
        root_ids(definitions.drop_last(), occurrences)
    } else {
        root_ids(definitions.drop_last(), occurrences).push(definitions.last().id)
    }
}

/// Identities are unique per kind, items per representation, transform
/// resolutions per relationship, and mapping resolutions per item and
/// representation.
/// Every formation names an existing product.
pub open spec fn formations_linked(p: Parts) -> bool {
    forall|i: int| 0 <= i < p.formations@.len() ==> has_key(p.products@, (#[trigger] p.formations@[i]).product.0)
}

/// Every definition names an existing formation.
pub open spec fn definitions_linked(p: Parts) -> bool {
    forall|i: int|
        0 <= i < p.definitions@.len() ==> has_key(p.formations@, (#[trigger] p.definitions@[i]).formation.0)
}

/// The budget steps that the basic links and unit checks take: one per
/// formation, definition and context.
pub open spec fn basic_work(p: Parts) -> nat {
    p.formations@.len() + p.definitions@.len() + p.contexts@.len()
}

/// The records of each kind have distinct identities.
pub open spec fn records_distinct(p: Parts) -> bool {
    &&& distinct_keys(p.products@)
    &&& distinct_keys(p.formations@)
    &&& distinct_keys(p.definitions@)
    &&& distinct_keys(p.contexts@)
    &&& distinct_keys(p.representations@)
    &&& distinct_keys(p.shapes@)
    &&& distinct_keys(p.occurrences@)
    &&& distinct_keys(p.relationships@)
    &&& distinct_keys(p.maps@)
    &&& distinct_keys(p.mapped_items@)
}

/// The budget steps that indexing the records takes: one per record.
pub open spec fn index_work(p: Parts) -> nat {
    p.products@.len() + p.formations@.len() + p.definitions@.len() + p.contexts@.len()
        + p.representations@.len() + p.shapes@.len() + p.occurrences@.len() + p.relationships@.len()
        + p.maps@.len() + p.mapped_items@.len()
}

pub open spec fn unique_ids(p: Parts) -> bool {
    &&& distinct_keys(p.products@)
    &&& distinct_keys(p.formations@)
    &&& distinct_keys(p.definitions@)
    &&& distinct_keys(p.contexts@)
    &&& distinct_keys(p.representations@)
    &&& distinct_keys(p.shapes@)
    &&& distinct_keys(p.occurrences@)
    &&& distinct_keys(p.relationships@)
    &&& distinct_keys(p.maps@)
    &&& distinct_keys(p.mapped_items@)
    &&& forall|i: int|
        0 <= i < p.representations@.len() ==> distinct_keys((#[trigger] p.representations@[i]).items@)
    &&& distinct_keys(p.relationship_transforms@)
    &&& forall|i: int, j: int|
        0 <= i < j < p.mapped_transforms@.len() ==> !((#[trigger] p.mapped_transforms@[i]).item
            == (#[trigger] p.mapped_transforms@[j]).item && p.mapped_transforms@[i].using_representation
            == p.mapped_transforms@[j].using_representation)
}

/// Every reference names an existing part of the right kind.
pub open spec fn links_resolve(p: Parts) -> bool {
    &&& forall|i: int|
        0 <= i < p.formations@.len() ==> has_key(p.products@, (#[trigger] p.formations@[i]).product.0)
    &&& forall|i: int|
        0 <= i < p.definitions@.len() ==> has_key(p.formations@, (#[trigger] p.definitions@[i]).formation.0)
    &&& forall|i: int|
        0 <= i < p.representations@.len() ==> has_key(
            p.contexts@,
            (#[trigger] p.representations@[i]).context.0,
        )
    &&& forall|i: int|
        0 <= i < p.shapes@.len() ==> match (#[trigger] p.shapes@[i]).target {
            ShapeTarget::Definition(d) => has_key(p.definitions@, d.0),
            ShapeTarget::Occurrence(o) => has_key(p.occurrences@, o.0),
        }
    &&& forall|i: int|
        0 <= i < p.shape_bindings@.len() ==> has_key(p.shapes@, (#[trigger] p.shape_bindings@[i]).shape.0)
            && has_key(p.representations@, p.shape_bindings@[i].representation.0)
    &&& forall|i: int|
        0 <= i < p.associations@.len() ==> has_key(p.relationships@, (#[trigger] p.associations@[i]).0)
    &&& forall|i: int|
        0 <= i < p.occurrences@.len() ==> has_key(p.definitions@, (#[trigger] p.occurrences@[i]).parent.0)
            && has_key(p.definitions@, p.occurrences@[i].child.0)
    &&& forall|i: int|
        0 <= i < p.relationships@.len() ==> has_key(
            p.representations@,
            (#[trigger] p.relationships@[i]).rep_1.0,
        ) && has_key(p.representations@, p.relationships@[i].rep_2.0)
    &&& forall|i: int|
        0 <= i < p.placements@.len() ==> has_key(
            p.occurrences@,
            (#[trigger] p.placements@[i]).occurrence.0,
        ) && has_key(p.relationships@, p.placements@[i].relationship.0)
    &&& forall|i: int|
        0 <= i < p.maps@.len() ==> has_key(p.representations@, (#[trigger] p.maps@[i]).representation.0)
    &&& forall|i: int|
        0 <= i < p.mapped_items@.len() ==> has_key(p.maps@, (#[trigger] p.mapped_items@[i]).map.0)
    &&& forall|i: int|
        0 <= i < p.relationship_transforms@.len() ==> has_key(
            p.relationships@,
            (#[trigger] p.relationship_transforms@[i]).relationship.0,
        )
    &&& forall|i: int|
        0 <= i < p.mapped_transforms@.len() ==> has_key(
            p.mapped_items@,
            (#[trigger] p.mapped_transforms@[i]).item.0,
        ) && has_key(p.representations@, p.mapped_transforms@[i].using_representation.0)
    &&& forall|i: int|
        0 <= i < p.uncertainties@.len() ==> has_key(p.contexts@, (#[trigger] p.uncertainties@[i]).context.0)
}

/// Each context measures length, plane angle and solid angle in units of those
/// dimensions.
pub open spec fn dimensions_ok(p: Parts) -> bool {
    forall|i: int|
        0 <= i < p.contexts@.len() ==> {
            let u = (#[trigger] p.contexts@[i]).units;
            &&& u.length.spec_dimension() == Dimension::Length
            &&& u.plane_angle.spec_dimension() == Dimension::PlaneAngle
            &&& u.solid_angle.spec_dimension() == Dimension::SolidAngle
        }
}

/// Placement pairs and operators exclude each other; associations carry
/// neither; resolved placements belong to relationships that carry one and
/// are invertible; uncertainties are positive and finite.
pub open spec fn transforms_ok(p: Parts) -> bool {
    &&& forall|i: int|
        0 <= i < p.relationships@.len() ==> !((#[trigger] p.relationships@[i]).transform is Some
            && p.relationships@[i].operator is Some)
    &&& forall|i: int, j: int|
        0 <= i < p.associations@.len() && 0 <= j < p.relationships@.len() && (
        #[trigger] p.relationships@[j]).id == (#[trigger] p.associations@[i]) ==> p.relationships@[j].transform
            is None && p.relationships@[j].operator is None
    &&& forall|i: int, j: int|
        0 <= i < p.relationship_transforms@.len() && 0 <= j < p.relationships@.len() && (
        #[trigger] p.relationships@[j]).id == (#[trigger] p.relationship_transforms@[i]).relationship
            ==> p.relationships@[j].transform is Some || p.relationships@[j].operator is Some
    &&& forall|i: int|
        0 <= i < p.relationship_transforms@.len() ==> (#[trigger] p.relationship_transforms@[i]).invertible
    &&& forall|i: int|
        0 <= i < p.mapped_transforms@.len() ==> (#[trigger] p.mapped_transforms@[i]).invertible
    &&& forall|i: int|
        0 <= i < p.uncertainties@.len() ==> positive_finite((#[trigger] p.uncertainties@[i]).value_si)
}

/// `rank` orders the assembly: every occurrence's parent definition ranks below
/// its child.
pub open spec fn assembly_ranked(p: Parts, rank: Seq<int>) -> bool {
    let defs = p.definitions@;
    let occ = p.occurrences@;
    &&& rank.len() == defs.len()
    &&& forall|o: int, a: int, b: int|
        #![trigger occ[o], defs[a], defs[b]]
        0 <= o < occ.len() && 0 <= a < defs.len() && 0 <= b < defs.len() && defs[a].id == occ[o].parent
            && defs[b].id == occ[o].child ==> rank[a] < rank[b]
}

/// The assembly of definitions through occurrences has no cycle.
pub open spec fn assembly_acyclic(p: Parts) -> bool {
    exists|rank: Seq<int>| #[trigger] assembly_ranked(p, rank)
}

/// The items of every relationship's placement pair belong to the contexts of
/// the representations they are given for.
pub open spec fn pair_items_in_context(p: Parts) -> bool {
    let rels = p.relationships@;
    let reps = p.representations@;
    &&& forall|i: int, r: int|
        0 <= i < rels.len() && 0 <= r < reps.len() && (#[trigger] rels[i]).transform is Some && (
        #[trigger] reps[r]).id == rels[i].rep_1 ==> in_context(
            p,
            reps[r].context.0,
            rels[i].transform->0.item_1.0,
        )
    &&& forall|i: int, r: int|
        0 <= i < rels.len() && 0 <= r < reps.len() && (#[trigger] rels[i]).transform is Some && (
        #[trigger] reps[r]).id == rels[i].rep_2 ==> in_context(
            p,
            reps[r].context.0,
            rels[i].transform->0.item_2.0,
        )
}

/// Every placement's relationship joins a representation of the occurrence's
/// parent definition with one of its child, in either direction.
pub open spec fn placements_connect(p: Parts) -> bool {
    forall|i: int, o: int, j: int|
        0 <= i < p.placements@.len() && 0 <= o < p.occurrences@.len() && 0 <= j < p.relationships@.len()
            && (#[trigger] p.occurrences@[o]).id == (#[trigger] p.placements@[i]).occurrence && (
        #[trigger] p.relationships@[j]).id == p.placements@[i].relationship ==> {
            let parent = p.occurrences@[o].parent.0;
            let child = p.occurrences@[o].child.0;
            let (a, b) = (p.relationships@[j].rep_1.0, p.relationships@[j].rep_2.0);
            (represents(p, parent, a) && represents(p, child, b)) || (represents(p, parent, b)
                && represents(p, child, a))
        }
}

/// The origin of every map belongs to the context of its representation.
pub open spec fn map_origins_in_context(p: Parts) -> bool {
    forall|i: int, r: int|
        0 <= i < p.maps@.len() && 0 <= r < p.representations@.len() && (#[trigger] p.representations@[r]).id
            == (#[trigger] p.maps@[i]).representation ==> in_context(
            p,
            p.representations@[r].context.0,
            p.maps@[i].origin.0,
        )
}

/// `sets` holds `y` under key `x`.
spec fn set_holds(sets: Map<u64, Vec<u64>>, x: u64, y: u64) -> bool {
    sets.contains_key(x) && sets[x]@.contains(y)
}

/// A representation that represents a definition makes it have bound ones.
proof fn lemma_represents_bound(p: Parts, d: u64, x: u64)
    requires
        represents(p, d, x),
    ensures
        has_shape_reps(p, d),
{
    let q = choose|q: Seq<u64>| #[trigger] association_chain(p, q) && bound_to(p, d, q[0]) && q.last() == x;
    assert(bound_to(p, d, q[0]));
}

/// Item `x` is an item of some representation.
pub open spec fn mapped_somewhere(p: Parts, x: u64) -> bool {
    exists|r: int| 0 <= r < p.representations@.len() && #[trigger] item_of(p, r, x)
}

/// Every mapped item is an item of some representation, and its target
/// belongs to the context of each representation that has it.
pub open spec fn mapped_items_placed(p: Parts) -> bool {
    &&& forall|m: int|
        0 <= m < p.mapped_items@.len() ==> mapped_somewhere(p, (#[trigger] p.mapped_items@[m]).id.0)
    &&& forall|m: int, r: int|
        0 <= m < p.mapped_items@.len() && 0 <= r < p.representations@.len() && #[trigger] item_of(
            p,
            r,
            p.mapped_items@[m].id.0,
        ) ==> in_context(p, p.representations@[r].context.0, p.mapped_items@[m].target.0)
}

/// Representation `a` has an item mapped from representation `b`.
pub open spec fn maps_into(p: Parts, a: int, b: int) -> bool {
    exists|m: int, k: int|
        0 <= m < p.mapped_items@.len() && 0 <= k < p.maps@.len() && item_of(p, a, p.mapped_items@[m].id.0)
            && (#[trigger] p.maps@[k]).id == (#[trigger] p.mapped_items@[m]).map
            && p.representations@[b].id == p.maps@[k].representation
}

/// `rank` orders the mapping graph: a representation ranks below every one it
/// has mapped items from.
pub open spec fn mapping_ranked(p: Parts, rank: Seq<int>) -> bool {
    &&& rank.len() == p.representations@.len()
    &&& forall|a: int, b: int|
        0 <= a < p.representations@.len() && 0 <= b < p.representations@.len() && #[trigger] maps_into(p, a, b)
            ==> rank[a] < rank[b]
}

/// The graph of mapped representations has no cycle.
pub open spec fn mapping_acyclic(p: Parts) -> bool {
    exists|rank: Seq<int>| #[trigger] mapping_ranked(p, rank)
}

/// Every mapped placement names an item of its using representation.
pub open spec fn mapped_placements_used(p: Parts) -> bool {
    forall|i: int, r: int|
        0 <= i < p.mapped_transforms@.len() && 0 <= r < p.representations@.len() && (
        #[trigger] p.representations@[r]).id == (#[trigger] p.mapped_transforms@[i]).using_representation
            ==> item_of(p, r, p.mapped_transforms@[i].item.0)
}

/// What a checked model guarantees of its parts.
pub open spec fn valid_parts(p: Parts) -> bool {
    &&& unique_ids(p)
    &&& links_resolve(p)
    &&& dimensions_ok(p)
    &&& transforms_ok(p)
    &&& assembly_acyclic(p)
    &&& pair_items_in_context(p)
    &&& placements_connect(p)
    &&& map_origins_in_context(p)
    &&& mapped_items_placed(p)
    &&& mapping_acyclic(p)
    &&& mapped_placements_used(p)
}

#[derive(Debug, PartialEq)]
pub struct Model {
    parts: Parts,
    roots: Vec<DefinitionId>,
    definition_reps: BTreeMap<u64, Vec<u64>>,
    context_items: BTreeMap<u64, Vec<u64>>,
}

impl Model {
    /// The parts of a model satisfy what `new` checks.
    #[verifier::type_invariant]
    closed spec fn checked(self) -> bool {
        &&& valid_parts(self.parts)
        &&& context_sets(self.parts, self.context_items@)
        &&& forall|k: u64| #[trigger] self.context_items@.contains_key(k) ==> sorted_set(self.context_items@[k]@)
        &&& definition_sets(self.parts, self.definition_reps@)
        &&& forall|k: u64| #[trigger] self.definition_reps@.contains_key(k) ==> sorted_set(self.definition_reps@[k]@)
    }

    pub closed spec fn spec_parts(&self) -> Parts {
        self.parts
    }

    pub closed spec fn spec_roots(&self) -> Seq<DefinitionId> {
        self.roots@
    }

    /// The representation set of each definition, by identity number.
    pub closed spec fn representation_sets(&self) -> Map<u64, Vec<u64>> {
        self.definition_reps@
    }


    pub fn parts(&self) -> (r: &Parts)
        ensures
            *r == self.spec_parts(),
    {
        &self.parts
    }

    /// Definitions with no incoming assembly occurrence, in input order.
    pub fn roots(&self) -> (r: &[DefinitionId])
        ensures
            r@ == self.spec_roots(),
    {
        self.roots.as_slice()
    }

    /// The representations of `definition`: those bound to its shapes, closed
    /// under untransformed associations, in ascending identity order.
    pub fn representations_of(&self, definition: DefinitionId) -> (r: Option<Vec<RepresentationId>>)
        ensures
            r is Some <==> has_shape_reps(self.spec_parts(), definition.0),
            r matches Some(v) ==> forall|i: int, j: int| 0 <= i < j < v@.len() ==> v@[i].0 < v@[j].0,
            r matches Some(v) ==> forall|x: u64| #[trigger] lists_representation(v@, x) <==> represents(
                self.spec_parts(),
                definition.0,
                x,
            ),
    {
        proof {
            use_type_invariant(self);
        }
        match self.definition_reps.get(&definition.0) {
            Some(reps) => {
                let mut v: Vec<RepresentationId> = Vec::new();
                let mut i: usize = 0;
                while i < reps.len()
                    invariant
                        i <= reps@.len(),
                        v@.len() == i,
                        forall|k: int| 0 <= k < i ==> (#[trigger] v@[k]).0 == reps@[k],
                    decreases reps@.len() - i,
                {
                    v.push(RepresentationId(reps[i]));
                    i += 1;
                }
                proof {
                    let d = definition.0;
                    assert(self.definition_reps@.contains_key(d));
                    assert(*reps == self.definition_reps@[d]);
                    assert(sorted_set(reps@));
                    assert forall|x: u64| #[trigger] lists_representation(v@, x) <==> represents(
                        self.spec_parts(),
                        d,
                        x,
                    ) by {
                        assert(self.definition_reps@[d]@.contains(x) <==> represents(self.parts, d, x));
                        if reps@.contains(x) {
                            let k = choose|k: int| 0 <= k < reps@.len() && reps@[k] == x;
                            assert(v@[k].0 == x);
                        }
                        if lists_representation(v@, x) {
                            let k = choose|i: int| 0 <= i < v@.len() && (#[trigger] v@[i]).0 == x;
                            assert(reps@[k] == x);
                            assert(reps@.contains(x));
                        }
                    }
                    assert forall|p: int, q: int| 0 <= p < q < v@.len() implies v@[p].0 < v@[q].0 by {
                        assert(v@[p].0 == reps@[p] && v@[q].0 == reps@[q]);
                    }
                }
                Some(v)
            },
            None => None,
        }
    }

    /// The items reachable in `context` from its representations through item
    /// dependencies, in ascending identity order.
    pub fn items_in_context(&self, context: ContextId) -> (r: Option<Vec<ItemId>>)
        ensures
            r is Some <==> context_used(self.spec_parts(), context.0),
            r matches Some(v) ==> forall|i: int, j: int| 0 <= i < j < v@.len() ==> v@[i].0 < v@[j].0,
            r matches Some(v) ==> forall|x: u64| #[trigger] lists_item(v@, x) <==> in_context(
                self.spec_parts(),
                context.0,
                x,
            ),
    {
        proof {
            use_type_invariant(self);
        }
        match self.context_items.get(&context.0) {
            Some(items) => {
                let mut v: Vec<ItemId> = Vec::new();
                let mut i: usize = 0;
                while i < items.len()
                    invariant
                        i <= items@.len(),
                        v@.len() == i,
                        forall|k: int| 0 <= k < i ==> (#[trigger] v@[k]).0 == items@[k],
                    decreases items@.len() - i,
                {
                    v.push(ItemId(items[i]));
                    i += 1;
                }
                proof {
                    let c = context.0;
                    assert(self.context_items@.contains_key(c));
                    assert(*items == self.context_items@[c]);
                    assert(sorted_set(items@));
                    assert forall|x: u64|
                        (exists|i: int| 0 <= i < v@.len() && (#[trigger] v@[i]).0 == x) <==> in_context(
                            self.parts,
                            c,
                            x,
                        ) by {
                        assert(self.context_items@[c]@.contains(x) <==> in_context(self.parts, c, x));
                        if items@.contains(x) {
                            let k = choose|k: int| 0 <= k < items@.len() && items@[k] == x;
                            assert(v@[k].0 == x);
                        }
                        if exists|i: int| 0 <= i < v@.len() && (#[trigger] v@[i]).0 == x {
                            let k = choose|i: int| 0 <= i < v@.len() && (#[trigger] v@[i]).0 == x;
                            assert(items@[k] == x);
                            assert(items@.contains(x));
                        }
                    }
                    assert forall|a: int, b: int| 0 <= a < b < v@.len() implies v@[a].0 < v@[b].0 by {
                        assert(v@[a].0 == items@[a] && v@[b].0 == items@[b]);
                    }
                    assert forall|x: u64| #[trigger] lists_item(v@, x) <==> in_context(self.spec_parts(), context.0, x) by {
                        assert((exists|i: int| 0 <= i < v@.len() && (#[trigger] v@[i]).0 == x) <==> in_context(
                            self.parts,
                            c,
                            x,
                        ));
                    }
                }
                Some(v)
            },
            None => None,
        }
    }
}


/// The position of every part by identity, per kind.
struct Indexes {
    products: BTreeMap<u64, usize>,
    formations: BTreeMap<u64, usize>,
    definitions: BTreeMap<u64, usize>,
    contexts: BTreeMap<u64, usize>,
    representations: BTreeMap<u64, usize>,
    shapes: BTreeMap<u64, usize>,
    occurrences: BTreeMap<u64, usize>,
    relationships: BTreeMap<u64, usize>,
    maps: BTreeMap<u64, usize>,
    mapped: BTreeMap<u64, usize>,
}

impl Indexes {
    spec fn wf(&self, p: &Parts) -> bool {
        &&& indexes(self.products@, p.products@)
        &&& indexes(self.formations@, p.formations@)
        &&& indexes(self.definitions@, p.definitions@)
        &&& indexes(self.contexts@, p.contexts@)
        &&& indexes(self.representations@, p.representations@)
        &&& indexes(self.shapes@, p.shapes@)
        &&& indexes(self.occurrences@, p.occurrences@)
        &&& indexes(self.relationships@, p.relationships@)
        &&& indexes(self.maps@, p.maps@)
        &&& indexes(self.mapped@, p.mapped_items@)
        &&& distinct_keys(p.products@)
        &&& distinct_keys(p.formations@)
        &&& distinct_keys(p.definitions@)
        &&& distinct_keys(p.contexts@)
        &&& distinct_keys(p.representations@)
        &&& distinct_keys(p.shapes@)
        &&& distinct_keys(p.occurrences@)
        &&& distinct_keys(p.relationships@)
        &&& distinct_keys(p.maps@)
        &&& distinct_keys(p.mapped_items@)
    }
}

/// The position of the item with key `key`, which `index` holds.
fn position(index: &BTreeMap<u64, usize>, key: u64) -> (r: usize)
    requires
        index@.contains_key(key),
    ensures
        r == index@[key],
{
    *index.get(&key).unwrap()
}

/// Indexes every kind of part, in declaration order of the kinds.
fn index_all(parts: &Parts, work: &mut Budget) -> (r: Result<Indexes, Error>)
    ensures
        final(work).0 <= old(work).0,
        r matches Ok(ix) ==> ix.wf(parts),
        r matches Err(e) ==> e == Error::ResourceLimit || (e == Error::DuplicateId && !unique_ids(*parts)),
        old(work).0 >= index_work(*parts) ==> (r is Ok <==> records_distinct(*parts)) && (r matches Err(e)
            ==> e == Error::DuplicateId),
        r is Ok ==> final(work).0 == old(work).0 - index_work(*parts),
{
    let products = index(parts.products.as_slice(), work)?;
    let formations = index(parts.formations.as_slice(), work)?;
    let definitions = index(parts.definitions.as_slice(), work)?;
    let contexts = index(parts.contexts.as_slice(), work)?;
    let representations = index(parts.representations.as_slice(), work)?;
    let shapes = index(parts.shapes.as_slice(), work)?;
    let occurrences = index(parts.occurrences.as_slice(), work)?;
    let relationships = index(parts.relationships.as_slice(), work)?;
    let maps = index(parts.maps.as_slice(), work)?;
    let mapped = index(parts.mapped_items.as_slice(), work)?;
    Ok(
        Indexes {
            products,
            formations,
            definitions,
            contexts,
            representations,
            shapes,
            occurrences,
            relationships,
            maps,
            mapped,
        },
    )
}

/// Formations name products, definitions name formations, and context units
/// have their dimensions.
fn check_basic(parts: &Parts, ix: &Indexes, work: &mut Budget) -> (r: Result<(), Error>)
    requires
        ix.wf(parts),
    ensures
        final(work).0 <= old(work).0,
        r is Ok ==> dimensions_ok(*parts) && (forall|i: int|
            0 <= i < parts.formations@.len() ==> has_key(
                parts.products@,
                (#[trigger] parts.formations@[i]).product.0,
            )) && (forall|i: int|
            0 <= i < parts.definitions@.len() ==> has_key(
                parts.formations@,
                (#[trigger] parts.definitions@[i]).formation.0,
            )),
        r matches Err(e) ==> e == Error::ResourceLimit || e == Error::MissingLink || (e
            == Error::InvalidUnit && !dimensions_ok(*parts)),
        r is Ok ==> final(work).0 == old(work).0 - basic_work(*parts),
        old(work).0 >= basic_work(*parts) ==> {
            &&& !formations_linked(*parts) ==> r == Err::<(), Error>(Error::MissingLink)
            &&& formations_linked(*parts) && !definitions_linked(*parts) ==> r == Err::<(), Error>(
                Error::MissingLink,
            )
            &&& formations_linked(*parts) && definitions_linked(*parts) && !dimensions_ok(*parts)
                ==> r == Err::<(), Error>(Error::InvalidUnit)
            &&& formations_linked(*parts) && definitions_linked(*parts) && dimensions_ok(*parts)
                ==> r is Ok
        },
{
    let mut i: usize = 0;
    while i < parts.formations.len()
        invariant
            i <= parts.formations@.len(),
            ix.wf(parts),
            work.0 <= old(work).0,
            work.0 == old(work).0 - i,
            forall|k: int|
                0 <= k < i ==> has_key(parts.products@, (#[trigger] parts.formations@[k]).product.0),
        decreases parts.formations@.len() - i,
    {
        proof {
            lemma_indexes_has_key(ix.products@, parts.products@, parts.formations@[i as int].product.0);
        }
        work.link(&ix.products, parts.formations[i].product.0)?;
        i += 1;
    }
    let mut i: usize = 0;
    while i < parts.definitions.len()
        invariant
            i <= parts.definitions@.len(),
            ix.wf(parts),
            work.0 <= old(work).0,
            work.0 == old(work).0 - parts.formations@.len() - i,
            formations_linked(*parts),
            forall|k: int|
                0 <= k < i ==> has_key(parts.formations@, (#[trigger] parts.definitions@[k]).formation.0),
        decreases parts.definitions@.len() - i,
    {
        proof {
            lemma_indexes_has_key(
                ix.formations@,
                parts.formations@,
                parts.definitions@[i as int].formation.0,
            );
        }
        work.link(&ix.formations, parts.definitions[i].formation.0)?;
        i += 1;
    }
    let mut i: usize = 0;
    while i < parts.contexts.len()
        invariant
            i <= parts.contexts@.len(),
            work.0 <= old(work).0,
            work.0 == old(work).0 - parts.formations@.len() - parts.definitions@.len() - i,
            formations_linked(*parts),
            definitions_linked(*parts),
            forall|k: int|
                0 <= k < i ==> {
                    let u = (#[trigger] parts.contexts@[k]).units;
                    &&& u.length.spec_dimension() == Dimension::Length
                    &&& u.plane_angle.spec_dimension() == Dimension::PlaneAngle
                    &&& u.solid_angle.spec_dimension() == Dimension::SolidAngle
                },
        decreases parts.contexts@.len() - i,
    {
        work.tick()?;
        let units = parts.contexts[i].units;
        if units.length.dimension() != Dimension::Length || units.plane_angle.dimension()
            != Dimension::PlaneAngle || units.solid_angle.dimension() != Dimension::SolidAngle {
            proof {
                assert(!dimensions_ok(*parts)) by {
                    let u = parts.contexts@[i as int].units;
                    assert(u == units);
                }
            }
            return Err(Error::InvalidUnit);
        }
        i += 1;
    }
    Ok(())
}

/// The items of each context and representation: the declared items and
/// everything they depend on, as ascending sets.
fn item_closure(parts: &Parts, ix: &Indexes, work: &mut Budget) -> (r: Result<
    (BTreeMap<u64, Vec<u64>>, BTreeMap<u64, Vec<u64>>),
    Error,
>)
    requires
        ix.wf(parts),
    ensures
        final(work).0 <= old(work).0,
        r matches Ok((context_items, representation_items)) ==> {
            &&& context_sets(*parts, context_items@)
            &&& rep_item_sets(*parts, representation_items@, parts.representations@.len() as int)
            &&& forall|i: int|
                0 <= i < parts.representations@.len() ==> has_key(
                    parts.contexts@,
                    (#[trigger] parts.representations@[i]).context.0,
                ) && distinct_keys(parts.representations@[i].items@) && context_items@.contains_key(
                    parts.representations@[i].context.0,
                ) && representation_items@.contains_key(parts.representations@[i].id.0)
            &&& forall|k: u64| #[trigger] context_items@.contains_key(k) ==> sorted_set(context_items@[k]@)
            &&& forall|k: u64|
                #[trigger] representation_items@.contains_key(k) ==> sorted_set(representation_items@[k]@)
        },
        r matches Err(e) ==> e == Error::ResourceLimit || e == Error::MissingLink || (e
            == Error::DuplicateId && !unique_ids(*parts)),
{
    let mut dependencies: BTreeMap<u64, Vec<ItemId>> = BTreeMap::new();
    let mut d: usize = 0;
    while d < parts.item_dependencies.len()
        invariant
            d <= parts.item_dependencies@.len(),
            work.0 <= old(work).0,
            children_within(*parts, dependencies@, d as int),
        decreases parts.item_dependencies@.len() - d,
    {
        work.tick()?;
        let (a, b) = parts.item_dependencies[d];
        let ghost before = dependencies@;
        let mut children = match dependencies.remove(&a.0) {
            Some(v) => v,
            None => Vec::new(),
        };
        let ghost old_children = children@;
        children.push(b);
        dependencies.insert(a.0, children);
        proof {
            let n = d as int;
            assert(parts.item_dependencies@[n] == (a, b));
            assert(old_children == if before.contains_key(a.0) {
                before[a.0]@
            } else {
                Seq::<ItemId>::empty()
            });
            assert(dependencies@[a.0]@ == old_children.push(b));
            assert forall|x: u64, j: int|
                dependencies@.contains_key(x) && 0 <= j < dependencies@[x]@.len() implies depends_within(
                *parts,
                x,
                (#[trigger] dependencies@[x]@[j]).0,
                n + 1,
            ) by {
                if x == a.0 && j == old_children.len() {
                    assert(parts.item_dependencies@[n].0.0 == x);
                } else {
                    if x == a.0 {
                        assert(dependencies@[x]@[j] == before[x]@[j]);
                    } else {
                        assert(dependencies@[x] == before[x]);
                    }
                    let dd = choose|dd: int|
                        0 <= dd < n && (#[trigger] parts.item_dependencies@[dd]).0.0 == x
                            && parts.item_dependencies@[dd].1.0 == before[x]@[j].0;
                    assert(parts.item_dependencies@[dd].0.0 == x);
                }
            }
            assert forall|x: u64, y: u64| #[trigger] depends_within(*parts, x, y, n + 1) implies dependencies@.contains_key(
                x,
            ) && exists|j: int| 0 <= j < dependencies@[x]@.len() && dependencies@[x]@[j].0 == y by {
                let dd = choose|dd: int|
                    0 <= dd < n + 1 && (#[trigger] parts.item_dependencies@[dd]).0.0 == x
                        && parts.item_dependencies@[dd].1.0 == y;
                if dd == n {
                    assert(dependencies@[x]@[old_children.len() as int].0 == y);
                } else {
                    assert(depends_within(*parts, x, y, n));
                    let j = choose|j: int| 0 <= j < before[x]@.len() && before[x]@[j].0 == y;
                    if x == a.0 {
                        assert(dependencies@[x]@[j] == before[x]@[j]);
                    } else {
                        assert(dependencies@[x] == before[x]);
                    }
                }
            }
        }
        d += 1;
    }
    proof {
        assert forall|x: u64, y: u64| depends_within(*parts, x, y, d as int) == depends(*parts, x, y) by {
        }
    }
    let mut context_items: BTreeMap<u64, Vec<u64>> = BTreeMap::new();
    let mut representation_items: BTreeMap<u64, Vec<u64>> = BTreeMap::new();
    let mut i: usize = 0;
    while i < parts.representations.len()
        invariant
            i <= parts.representations@.len(),
            ix.wf(parts),
            work.0 <= old(work).0,
            forall|k: int|
                0 <= k < i ==> has_key(parts.contexts@, (#[trigger] parts.representations@[k]).context.0)
                    && distinct_keys(parts.representations@[k].items@) && context_items@.contains_key(
                    parts.representations@[k].context.0,
                ) && representation_items@.contains_key(parts.representations@[k].id.0),
            forall|k: u64| #[trigger] context_items@.contains_key(k) ==> sorted_set(context_items@[k]@),
            forall|k: u64|
                #[trigger] representation_items@.contains_key(k) ==> sorted_set(representation_items@[k]@),
            children_exact(*parts, dependencies@),
            forall|c: u64| #[trigger] context_items@.contains_key(c) <==> context_used_within(*parts, c, i as int),
            rep_item_sets(*parts, representation_items@, i as int),
            forall|c: u64, x: u64|
                context_items@.contains_key(c) ==> (#[trigger] context_items@[c]@.contains(x)
                    <==> in_context_within(*parts, c, x, i as int)),
        decreases parts.representations@.len() - i,
    {
        let representation = &parts.representations[i];
        work.link(&ix.contexts, representation.context.0)?;
        proof {
            lemma_indexes_has_key(ix.contexts@, parts.contexts@, representation.context.0);
        }
        let context = representation.context.0;
        let ghost before_ci = context_items@;
        let mut items = match context_items.remove(&context) {
            Some(v) => v,
            None => Vec::new(),
        };
        let ghost old_items = items@;
        let ghost ri = i as int;
        match index(representation.items.as_slice(), work) {
            Ok(_) => {},
            Err(e) => {
                proof {
                    if e == Error::DuplicateId {
                        assert(!distinct_keys(parts.representations@[i as int].items@));
                    }
                }
                return Err(e);
            },
        }
        let mut found: Vec<u64> = Vec::new();
        let mut stack = sorted_keys(&representation.items);
        proof {
            assert forall|m: int| 0 <= m < stack@.len() implies item_of(*parts, ri, #[trigger] stack@[m]) by {
                assert(stack@.contains(stack@[m]));
                lemma_item_of_start(*parts, ri, stack@[m]);
            }
        }
        while stack.len() > 0
            invariant
                sorted_set(found@),
                sorted_set(items@),
                work.0 <= old(work).0,
                ri == i,
                i < parts.representations@.len(),
                *representation == parts.representations@[ri],
                children_exact(*parts, dependencies@),
                forall|y: u64| #[trigger] found@.contains(y) ==> item_of(*parts, ri, y),
                forall|m: int| 0 <= m < stack@.len() ==> item_of(*parts, ri, #[trigger] stack@[m]),
                forall|y: u64, b: u64|
                    found@.contains(y) && #[trigger] depends(*parts, y, b) ==> found@.contains(b)
                        || stack@.contains(b),
                forall|k: u64|
                    #[trigger] has_key(parts.representations@[ri].items@, k) ==> found@.contains(k)
                        || stack@.contains(k),
                forall|y: u64| #[trigger] items@.contains(y) <==> (old_items.contains(y) || found@.contains(y)),
            decreases work.0,
        {
            let ghost old_stack = stack@;
            let item = stack.pop().unwrap();
            let ghost popped = stack@;
            proof {
                assert(old_stack == popped.push(item));
                assert(item_of(*parts, ri, old_stack[old_stack.len() - 1]));
                assert forall|b: u64| old_stack.contains(b) && b != item implies popped.contains(b) by {
                    let m = choose|m: int| 0 <= m < old_stack.len() && old_stack[m] == b;
                    assert(popped[m] == b);
                }
            }
            work.tick()?;
            let ghost w1 = work.0;
            let ghost found0 = found@;
            if insert_sorted(&mut found, item) {
                let ghost items0 = items@;
                insert_sorted(&mut items, item);
                match dependencies.get(&item) {
                    Some(children) => {
                        let mut c: usize = 0;
                        while c < children.len()
                            invariant
                                c <= children@.len(),
                                work.0 <= w1,
                                stack@.len() == popped.len() + c,
                                forall|m: int| 0 <= m < popped.len() ==> stack@[m] == popped[m],
                                forall|k: int| 0 <= k < c ==> stack@[popped.len() + k] == (#[trigger] children@[k]).0,
                            decreases children@.len() - c,
                        {
                            work.tick()?;
                            stack.push(children[c].0);
                            c += 1;
                        }
                        proof {
                            assert(children@ == dependencies@[item]@);
                            assert forall|m: int| 0 <= m < stack@.len() implies item_of(
                                *parts,
                                ri,
                                #[trigger] stack@[m],
                            ) by {
                                if m < popped.len() {
                                    assert(stack@[m] == popped[m]);
                                    assert(old_stack[m] == popped[m]);
                                } else {
                                    let k = m - popped.len();
                                    assert(stack@[m] == children@[k].0);
                                    assert(depends(*parts, item, children@[k].0));
                                    lemma_item_of_step(*parts, ri, item, children@[k].0);
                                }
                            }
                            assert forall|b: u64| popped.contains(b) implies stack@.contains(b) by {
                                let m = choose|m: int| 0 <= m < popped.len() && popped[m] == b;
                                assert(stack@[m] == b);
                            }
                            assert forall|b: u64| #[trigger] depends(*parts, item, b) implies stack@.contains(b) by {
                                let j = choose|j: int| 0 <= j < children@.len() && children@[j].0 == b;
                                assert(stack@[popped.len() + j] == b);
                            }
                        }
                    },
                    None => {},
                }
                proof {
                    assert forall|y: u64, b: u64|
                        found@.contains(y) && #[trigger] depends(*parts, y, b) implies found@.contains(b)
                        || stack@.contains(b) by {
                        if y == item {
                            assert(dependencies@.contains_key(item));
                        } else {
                            assert(found0.contains(y));
                            if !found0.contains(b) && b != item {
                                assert(popped.contains(b));
                            }
                        }
                    }
                    assert forall|k: u64|
                        #[trigger] has_key(parts.representations@[ri].items@, k) implies found@.contains(k)
                        || stack@.contains(k) by {
                        if !found0.contains(k) && k != item {
                            assert(popped.contains(k));
                        }
                    }
                }
            } else {
                proof {
                    assert forall|y: u64, b: u64|
                        found@.contains(y) && #[trigger] depends(*parts, y, b) implies found@.contains(b)
                        || stack@.contains(b) by {
                        if !found0.contains(b) {
                            assert(old_stack.contains(b));
                        }
                    }
                    assert forall|k: u64|
                        #[trigger] has_key(parts.representations@[ri].items@, k) implies found@.contains(k)
                        || stack@.contains(k) by {
                        if !found0.contains(k) {
                            assert(old_stack.contains(k));
                        }
                    }
                    assert forall|m: int| 0 <= m < stack@.len() implies item_of(*parts, ri, #[trigger] stack@[m]) by {
                        assert(old_stack[m] == stack@[m]);
                    }
                }
            }
        }
        proof {
            assert forall|x: u64| #[trigger] item_of(*parts, ri, x) implies found@.contains(x) by {
                let p = choose|p: Seq<u64>|
                    #[trigger] dependency_chain(*parts, p) && has_key(parts.representations@[ri].items@, p[0])
                        && p.last() == x;
                lemma_closed_holds(*parts, found@, p);
            }
        }
        let ghost ci0 = context_items@;
        context_items.insert(context, items);
        proof {
            assert forall|c: u64| #[trigger] context_items@.contains_key(c) <==> context_used_within(
                *parts,
                c,
                ri + 1,
            ) by {
                if c == context {
                    assert(parts.representations@[ri].context.0 == c);
                } else {
                    assert(context_items@.contains_key(c) == before_ci.contains_key(c));
                    if context_used_within(*parts, c, ri + 1) {
                        let r = choose|r: int| 0 <= r < ri + 1 && (#[trigger] parts.representations@[r]).context.0 == c;
                        assert(r < ri);
                    }
                }
            }
            assert forall|c: u64, x: u64|
                context_items@.contains_key(c) implies (#[trigger] context_items@[c]@.contains(x)
                <==> in_context_within(*parts, c, x, ri + 1)) by {
                if c == context {
                    if in_context_within(*parts, c, x, ri + 1) {
                        let r = choose|r: int|
                            0 <= r < ri + 1 && parts.representations@[r].context.0 == c && #[trigger] item_of(
                                *parts,
                                r,
                                x,
                            );
                        if r < ri {
                            assert(in_context_within(*parts, c, x, ri));
                            assert(before_ci.contains_key(c));
                        }
                    }
                    if old_items.contains(x) {
                        assert(before_ci.contains_key(c));
                        assert(before_ci[c]@.contains(x));
                    }
                } else {
                    assert(context_items@[c] == before_ci[c]);
                    if in_context_within(*parts, c, x, ri + 1) {
                        let r = choose|r: int|
                            0 <= r < ri + 1 && parts.representations@[r].context.0 == c && #[trigger] item_of(
                                *parts,
                                r,
                                x,
                            );
                        assert(r < ri);
                    }
                }
            }
        }
        let ghost ri0 = representation_items@;
        representation_items.insert(representation.id.0, found);
        proof {
            assert forall|r: int, x: u64|
                0 <= r < ri + 1 implies (#[trigger] representation_items@[parts.representations@[r].id.0]@.contains(x)
                <==> item_of(*parts, r, x)) by {
                if r < ri {
                    assert(parts.representations@[r].spec_key() != parts.representations@[ri].spec_key());
                    assert(representation_items@[parts.representations@[r].id.0] == ri0[parts.representations@[r].id.0]);
                }
            }
            assert forall|r: int| 0 <= r < ri + 1 implies representation_items@.contains_key(
                (#[trigger] parts.representations@[r]).id.0,
            ) by {
                if r < ri {
                    assert(ri0.contains_key(parts.representations@[r].id.0));
                }
            }
        }
        i += 1;
    }
    proof {
        assert forall|c: u64| #[trigger] context_items@.contains_key(c) <==> context_used(*parts, c) by {
            assert(context_used_within(*parts, c, i as int) == context_used(*parts, c));
        }
        assert forall|c: u64, x: u64|
            context_items@.contains_key(c) implies (#[trigger] context_items@[c]@.contains(x) <==> in_context(
            *parts,
            c,
            x,
        )) by {
            assert(in_context_within(*parts, c, x, i as int) == in_context(*parts, c, x));
        }
    }
    Ok((context_items, representation_items))
}


/// Shapes target definitions or occurrences, bindings name shapes and
/// representations, and associations are untransformed relationships between
/// representations. The representations of each definition are those bound to
/// its shapes, closed under associations.
fn definition_representations(parts: &Parts, ix: &Indexes, work: &mut Budget) -> (r: Result<
    BTreeMap<u64, Vec<u64>>,
    Error,
>)
    requires
        ix.wf(parts),
    ensures
        final(work).0 <= old(work).0,
        r matches Ok(reps) ==> {
            &&& definition_sets(*parts, reps@)
            &&& forall|k: u64| #[trigger] reps@.contains_key(k) ==> sorted_set(reps@[k]@)
            &&& forall|i: int|
                0 <= i < parts.shapes@.len() ==> match (#[trigger] parts.shapes@[i]).target {
                    ShapeTarget::Definition(d) => has_key(parts.definitions@, d.0),
                    ShapeTarget::Occurrence(o) => has_key(parts.occurrences@, o.0),
                }
            &&& forall|i: int|
                0 <= i < parts.shape_bindings@.len() ==> has_key(
                    parts.shapes@,
                    (#[trigger] parts.shape_bindings@[i]).shape.0,
                ) && has_key(parts.representations@, parts.shape_bindings@[i].representation.0)
            &&& forall|i: int|
                0 <= i < parts.associations@.len() ==> has_key(
                    parts.relationships@,
                    (#[trigger] parts.associations@[i]).0,
                )
            &&& forall|i: int, j: int|
                0 <= i < parts.associations@.len() && 0 <= j < parts.relationships@.len() && (
                #[trigger] parts.relationships@[j]).id == (#[trigger] parts.associations@[i])
                    ==> parts.relationships@[j].transform is None && parts.relationships@[j].operator
                    is None
            &&& forall|k: u64| #[trigger] reps@.contains_key(k) ==> sorted_set(reps@[k]@)
        },
        r matches Err(e) ==> e == Error::ResourceLimit || e == Error::MissingLink || e
            == Error::InvalidTransform,
{
    let mut i: usize = 0;
    while i < parts.shapes.len()
        invariant
            i <= parts.shapes@.len(),
            ix.wf(parts),
            work.0 <= old(work).0,
            forall|k: int|
                0 <= k < i ==> match (#[trigger] parts.shapes@[k]).target {
                    ShapeTarget::Definition(d) => has_key(parts.definitions@, d.0),
                    ShapeTarget::Occurrence(o) => has_key(parts.occurrences@, o.0),
                },
        decreases parts.shapes@.len() - i,
    {
        match parts.shapes[i].target {
            ShapeTarget::Definition(id) => {
                work.link(&ix.definitions, id.0)?;
                proof {
                    lemma_indexes_has_key(ix.definitions@, parts.definitions@, id.0);
                }
            },
            ShapeTarget::Occurrence(id) => {
                work.link(&ix.occurrences, id.0)?;
                proof {
                    lemma_indexes_has_key(ix.occurrences@, parts.occurrences@, id.0);
                }
            },
        }
        i += 1;
    }
    let mut i: usize = 0;
    while i < parts.shape_bindings.len()
        invariant
            i <= parts.shape_bindings@.len(),
            ix.wf(parts),
            work.0 <= old(work).0,
            forall|k: int|
                0 <= k < i ==> has_key(parts.shapes@, (#[trigger] parts.shape_bindings@[k]).shape.0)
                    && has_key(parts.representations@, parts.shape_bindings@[k].representation.0),
        decreases parts.shape_bindings@.len() - i,
    {
        work.link(&ix.shapes, parts.shape_bindings[i].shape.0)?;
        work.link(&ix.representations, parts.shape_bindings[i].representation.0)?;
        proof {
            lemma_indexes_has_key(ix.shapes@, parts.shapes@, parts.shape_bindings@[i as int].shape.0);
            lemma_indexes_has_key(
                ix.representations@,
                parts.representations@,
                parts.shape_bindings@[i as int].representation.0,
            );
        }
        i += 1;
    }
    let mut reps: BTreeMap<u64, Vec<u64>> = BTreeMap::new();
    let mut keys: Vec<u64> = Vec::new();
    let mut i: usize = 0;
    while i < parts.shape_bindings.len()
        invariant
            i <= parts.shape_bindings@.len(),
            ix.wf(parts),
            work.0 <= old(work).0,
            forall|k: int|
                0 <= k < parts.shape_bindings@.len() ==> has_key(
                    parts.shapes@,
                    (#[trigger] parts.shape_bindings@[k]).shape.0,
                ),
            forall|k: u64| #[trigger] reps@.contains_key(k) ==> sorted_set(reps@[k]@),
            sorted_set(keys@),
            forall|k: u64| keys@.contains(k) <==> reps@.contains_key(k),
            forall|d: u64| #[trigger] reps@.contains_key(d) <==> exists|x: u64| bound_within(*parts, d, x, i as int),
            forall|d: u64, x: u64|
                reps@.contains_key(d) ==> (#[trigger] reps@[d]@.contains(x) <==> bound_within(*parts, d, x, i as int)),
        decreases parts.shape_bindings@.len() - i,
    {
        work.tick()?;
        let binding = &parts.shape_bindings[i];
        proof {
            lemma_indexes_has_key(ix.shapes@, parts.shapes@, binding.shape.0);
        }
        let at = position(&ix.shapes, binding.shape.0);
        let ghost reps0 = reps@;
        let ghost n = i as int;
        let ghost n1 = n + 1;
        proof {
            assert(parts.shapes@[at as int].id == binding.shape);
            assert forall|s: int|
                0 <= s < parts.shapes@.len() && parts.shape_bindings@[n].shape == #[trigger] parts.shapes@[s].id implies s
                == at by {
                assert(parts.shapes@[s].spec_key() == binding.shape.0);
            }
        }
        if let ShapeTarget::Definition(id) = parts.shapes[at].target {
            add_to(&mut reps, id.0, binding.representation.0);
            insert_sorted(&mut keys, id.0);
            proof {
                assert(bound_within(*parts, id.0, binding.representation.0, n1));
                assert forall|d: u64, x: u64| bound_within(*parts, d, x, n1) implies (d == id.0
                    && x == binding.representation.0) || bound_within(*parts, d, x, n) by {
                    let (b, sh) = choose|b: int, sh: int|
                        0 <= b < n1 && 0 <= sh < parts.shapes@.len()
                            && (#[trigger] parts.shape_bindings@[b]).shape == (#[trigger] parts.shapes@[sh]).id
                            && parts.shapes@[sh].target == ShapeTarget::Definition(DefinitionId(d))
                            && parts.shape_bindings@[b].representation.0 == x;
                    if b == n {
                        assert(sh == at);
                    }
                }
                assert forall|d: u64| #[trigger] reps@.contains_key(d) <==> exists|x: u64|
                    bound_within(*parts, d, x, n1) by {
                    if exists|x: u64| bound_within(*parts, d, x, n1) {
                        let x = choose|x: u64| bound_within(*parts, d, x, n1);
                        if d != id.0 {
                            assert(bound_within(*parts, d, x, n));
                        }
                    }
                    if reps@.contains_key(d) && d != id.0 {
                        let x = choose|x: u64| bound_within(*parts, d, x, n);
                        assert(bound_within(*parts, d, x, n1));
                    }
                }
            }
        } else {
            proof {
                assert forall|d: u64, x: u64| bound_within(*parts, d, x, n1) implies bound_within(
                    *parts,
                    d,
                    x,
                    n,
                ) by {
                    let (b, sh) = choose|b: int, sh: int|
                        0 <= b < n1 && 0 <= sh < parts.shapes@.len()
                            && (#[trigger] parts.shape_bindings@[b]).shape == (#[trigger] parts.shapes@[sh]).id
                            && parts.shapes@[sh].target == ShapeTarget::Definition(DefinitionId(d))
                            && parts.shape_bindings@[b].representation.0 == x;
                    if b == n {
                        assert(sh == at);
                    }
                }
                assert forall|d: u64| #[trigger] reps@.contains_key(d) <==> exists|x: u64|
                    bound_within(*parts, d, x, n1) by {
                    if reps@.contains_key(d) {
                        let x = choose|x: u64| bound_within(*parts, d, x, n);
                        assert(bound_within(*parts, d, x, n1));
                    }
                }
            }
        }
        i += 1;
    }
    let mut neighbours: BTreeMap<u64, Vec<u64>> = BTreeMap::new();
    let mut i: usize = 0;
    while i < parts.associations.len()
        invariant
            i <= parts.associations@.len(),
            ix.wf(parts),
            work.0 <= old(work).0,
            forall|k: int|
                0 <= k < i ==> has_key(parts.relationships@, (#[trigger] parts.associations@[k]).0),
            forall|k: int, j: int|
                0 <= k < i && 0 <= j < parts.relationships@.len() && (#[trigger] parts.relationships@[j]).id
                    == (#[trigger] parts.associations@[k]) ==> parts.relationships@[j].transform is None
                    && parts.relationships@[j].operator is None,
            neighbours_within(*parts, neighbours@, i as int),
        decreases parts.associations@.len() - i,
    {
        let id = parts.associations[i];
        work.link(&ix.relationships, id.0)?;
        proof {
            lemma_indexes_has_key(ix.relationships@, parts.relationships@, id.0);
        }
        let at = position(&ix.relationships, id.0);
        let relationship = &parts.relationships[at];
        if relationship.transform.is_some() || relationship.operator.is_some() {
            return Err(Error::InvalidTransform);
        }
        proof {
            assert forall|j: int|
                0 <= j < parts.relationships@.len() && (#[trigger] parts.relationships@[j]).id == id implies parts.relationships@[j].transform
                    is None && parts.relationships@[j].operator is None by {
                assert(parts.relationships@[j].spec_key() == parts.relationships@[at as int].spec_key());
            }
        }
        work.link(&ix.representations, relationship.rep_1.0)?;
        work.link(&ix.representations, relationship.rep_2.0)?;
        let r1 = relationship.rep_1.0;
        let r2 = relationship.rep_2.0;
        let ghost assoc0 = neighbours@;
        let mut forward = match neighbours.remove(&r1) {
            Some(v) => v,
            None => Vec::new(),
        };
        forward.push(r2);
        neighbours.insert(r1, forward);
        let ghost assoc1 = neighbours@;
        proof {
            assert forall|a: u64, b: u64|
                (assoc1.contains_key(a) && assoc1[a]@.contains(b)) <==> ((assoc0.contains_key(a)
                    && assoc0[a]@.contains(b)) || (a == r1 && b == r2)) by {
                if a == r1 && assoc0.contains_key(a) && assoc0[a]@.contains(b) {
                    let m = choose|m: int| 0 <= m < assoc0[a]@.len() && assoc0[a]@[m] == b;
                    assert(assoc1[a]@[m] == b);
                }
                if a == r1 && b == r2 {
                    assert(assoc1[a]@[assoc1[a]@.len() - 1] == b);
                }
            }
        }
        let mut backward = match neighbours.remove(&r2) {
            Some(v) => v,
            None => Vec::new(),
        };
        backward.push(r1);
        neighbours.insert(r2, backward);
        proof {
            let n = i as int;
            assert forall|a: u64, b: u64|
                (neighbours@.contains_key(a) && neighbours@[a]@.contains(b)) <==> ((assoc1.contains_key(a)
                    && assoc1[a]@.contains(b)) || (a == r2 && b == r1)) by {
                if a == r2 && assoc1.contains_key(a) && assoc1[a]@.contains(b) {
                    let m = choose|m: int| 0 <= m < assoc1[a]@.len() && assoc1[a]@[m] == b;
                    assert(neighbours@[a]@[m] == b);
                }
                if a == r2 && b == r1 {
                    assert(neighbours@[a]@[neighbours@[a]@.len() - 1] == b);
                }
            }
            assert(parts.relationships@[at as int].id == parts.associations@[n]);
            assert forall|j: int|
                0 <= j < parts.relationships@.len() && #[trigger] parts.relationships@[j].id
                    == parts.associations@[n] implies j == at by {
                assert(parts.relationships@[j].spec_key() == id.0);
            }
            let n1 = n + 1;
            assert forall|a: u64, b: u64| #[trigger] associated_within(*parts, a, b, n1) <==> (
            neighbours@.contains_key(a) && neighbours@[a]@.contains(b)) by {
                if associated_within(*parts, a, b, n1) {
                    let (k, j) = choose|k: int, j: int|
                        0 <= k < n1 && 0 <= j < parts.relationships@.len()
                            && (#[trigger] parts.relationships@[j]).id == (#[trigger] parts.associations@[k])
                            && ((parts.relationships@[j].rep_1.0 == a && parts.relationships@[j].rep_2.0 == b)
                            || (parts.relationships@[j].rep_1.0 == b && parts.relationships@[j].rep_2.0 == a));
                    if k < n {
                        assert(associated_within(*parts, a, b, n));
                    } else {
                        assert(j == at);
                    }
                }
                if assoc0.contains_key(a) && assoc0[a]@.contains(b) {
                    assert(associated_within(*parts, a, b, n));
                    let (k, j) = choose|k: int, j: int|
                        0 <= k < n && 0 <= j < parts.relationships@.len()
                            && (#[trigger] parts.relationships@[j]).id == (#[trigger] parts.associations@[k])
                            && ((parts.relationships@[j].rep_1.0 == a && parts.relationships@[j].rep_2.0 == b)
                            || (parts.relationships@[j].rep_1.0 == b && parts.relationships@[j].rep_2.0 == a));
                    assert(associated_within(*parts, a, b, n1));
                }
                if (a == r1 && b == r2) || (a == r2 && b == r1) {
                    assert(parts.relationships@[at as int].id == parts.associations@[n]);
                    assert(associated_within(*parts, a, b, n1));
                }
            }
        }
        i += 1;
    }
    proof {
        assert forall|a: u64, b: u64| associated_within(*parts, a, b, i as int) == associated(*parts, a, b) by {}
        assert forall|d: u64, x: u64| bound_within(*parts, d, x, parts.shape_bindings@.len() as int) == bound_to(
            *parts,
            d,
            x,
        ) by {}
    }
    proof {
        assert forall|d: u64| #[trigger] reps@.contains_key(d) <==> has_shape_reps(*parts, d) by {
            if reps@.contains_key(d) {
                let x = choose|x: u64| bound_within(*parts, d, x, parts.shape_bindings@.len() as int);
                assert(bound_to(*parts, d, x));
            }
            if has_shape_reps(*parts, d) {
                let x = choose|x: u64| bound_to(*parts, d, x);
                assert(bound_within(*parts, d, x, parts.shape_bindings@.len() as int));
            }
        }
        assert forall|a: u64, b: u64| #[trigger] associated(*parts, a, b) <==> neighbours@.contains_key(a)
            && neighbours@[a]@.contains(b) by {
            assert(associated_within(*parts, a, b, parts.associations@.len() as int) == associated(*parts, a, b));
        }
    }
    let mut k: usize = 0;
    while k < keys.len()
        invariant
            k <= keys@.len(),
            work.0 <= old(work).0,
            forall|key: u64| #[trigger] reps@.contains_key(key) ==> sorted_set(reps@[key]@),
            sorted_set(keys@),
            forall|key: u64| keys@.contains(key) <==> reps@.contains_key(key),
            forall|d: u64| #[trigger] reps@.contains_key(d) <==> has_shape_reps(*parts, d),
            forall|d: u64, x: u64|
                reps@.contains_key(d) ==> (#[trigger] reps@[d]@.contains(x) <==> (if done_key(keys@, k as int, d) {
                    represents(*parts, d, x)
                } else {
                    bound_to(*parts, d, x)
                })),
            forall|a: u64, b: u64| #[trigger] associated(*parts, a, b) <==> neighbours@.contains_key(a)
                && neighbours@[a]@.contains(b),
        decreases keys@.len() - k,
    {
        let key = keys[k];
        let ghost reps0 = reps@;
        proof {
            assert(keys@.contains(key));
            assert(!done_key(keys@, k as int, key)) by {
                if done_key(keys@, k as int, key) {
                    let m = choose|m: int| 0 <= m < k && keys@[m] == key;
                }
            }
        }
        let mut set = match reps.remove(&key) {
            Some(v) => v,
            None => Vec::new(),
        };
        let ghost set0 = set@;
        proof {
            assert(set0 == reps0[key]@);
            assert forall|x: u64| set0.contains(x) <==> bound_to(*parts, key, x) by {
                assert(reps0[key]@.contains(x) <==> bound_to(*parts, key, x));
            }
        }
        let mut stack: Vec<u64> = Vec::new();
        let mut j: usize = 0;
        while j < set.len()
            invariant
                j <= set@.len(),
                set@ == set0,
                stack@ == set@.take(j as int),
                work.0 <= old(work).0,
            decreases set@.len() - j,
        {
            work.tick()?;
            stack.push(set[j]);
            proof {
                assert(set@.take(j + 1) == set@.take(j as int).push(set@[j as int]));
            }
            j += 1;
        }
        proof {
            assert(stack@ == set0);
            assert forall|m: int| 0 <= m < stack@.len() implies represents(*parts, key, #[trigger] stack@[m]) by {
                assert(set0.contains(stack@[m]));
                lemma_represents_start(*parts, key, stack@[m]);
            }
        }
        let mut seen: Vec<u64> = Vec::new();
        while stack.len() > 0
            invariant
                sorted_set(seen@),
                sorted_set(set@),
                work.0 <= old(work).0,
                forall|a: u64, b: u64| #[trigger] associated(*parts, a, b) <==> neighbours@.contains_key(a)
                    && neighbours@[a]@.contains(b),
                forall|x: u64| set0.contains(x) <==> bound_to(*parts, key, x),
                forall|y: u64| #[trigger] seen@.contains(y) ==> represents(*parts, key, y),
                forall|m: int| 0 <= m < stack@.len() ==> represents(*parts, key, #[trigger] stack@[m]),
                forall|y: u64, b: u64|
                    seen@.contains(y) && #[trigger] associated(*parts, y, b) ==> seen@.contains(b)
                        || stack@.contains(b),
                forall|x: u64| #[trigger] bound_to(*parts, key, x) ==> seen@.contains(x) || stack@.contains(x),
                forall|y: u64| #[trigger] set@.contains(y) <==> (set0.contains(y) || seen@.contains(y)),
            decreases work.0,
        {
            let ghost old_stack = stack@;
            let rep = stack.pop().unwrap();
            let ghost popped = stack@;
            proof {
                assert(old_stack == popped.push(rep));
                assert(represents(*parts, key, old_stack[old_stack.len() - 1]));
                assert forall|b: u64| old_stack.contains(b) && b != rep implies popped.contains(b) by {
                    let m = choose|m: int| 0 <= m < old_stack.len() && old_stack[m] == b;
                    assert(popped[m] == b);
                }
            }
            work.tick()?;
            let ghost w1 = work.0;
            let ghost seen0 = seen@;
            if insert_sorted(&mut seen, rep) {
                insert_sorted(&mut set, rep);
                match neighbours.get(&rep) {
                    Some(next) => {
                        let mut n: usize = 0;
                        while n < next.len()
                            invariant
                                n <= next@.len(),
                                work.0 <= w1,
                                stack@.len() == popped.len() + n,
                                forall|m: int| 0 <= m < popped.len() ==> stack@[m] == popped[m],
                                forall|q: int| 0 <= q < n ==> stack@[popped.len() + q] == #[trigger] next@[q],
                            decreases next@.len() - n,
                        {
                            work.tick()?;
                            stack.push(next[n]);
                            n += 1;
                        }
                        proof {
                            assert(next@ == neighbours@[rep]@);
                            assert forall|m: int| 0 <= m < stack@.len() implies represents(
                                *parts,
                                key,
                                #[trigger] stack@[m],
                            ) by {
                                if m < popped.len() {
                                    assert(stack@[m] == popped[m]);
                                    assert(old_stack[m] == popped[m]);
                                } else {
                                    let q = m - popped.len();
                                    assert(stack@[m] == next@[q]);
                                    assert(next@.contains(next@[q]));
                                    assert(associated(*parts, rep, next@[q]));
                                    lemma_represents_step(*parts, key, rep, next@[q]);
                                }
                            }
                            assert forall|b: u64| popped.contains(b) implies stack@.contains(b) by {
                                let m = choose|m: int| 0 <= m < popped.len() && popped[m] == b;
                                assert(stack@[m] == b);
                            }
                            assert forall|b: u64| #[trigger] associated(*parts, rep, b) implies stack@.contains(b) by {
                                let q = choose|q: int| 0 <= q < next@.len() && next@[q] == b;
                                assert(stack@[popped.len() + q] == b);
                            }
                        }
                    },
                    None => {},
                }
                proof {
                    assert forall|y: u64, b: u64|
                        seen@.contains(y) && #[trigger] associated(*parts, y, b) implies seen@.contains(b)
                        || stack@.contains(b) by {
                        if y == rep {
                            assert(neighbours@.contains_key(rep));
                        } else {
                            assert(seen0.contains(y));
                            if !seen0.contains(b) && b != rep {
                                assert(popped.contains(b));
                            }
                        }
                    }
                    assert forall|x: u64| #[trigger] bound_to(*parts, key, x) implies seen@.contains(x)
                        || stack@.contains(x) by {
                        if !seen0.contains(x) && x != rep {
                            assert(popped.contains(x));
                        }
                    }
                }
            } else {
                proof {
                    assert forall|y: u64, b: u64|
                        seen@.contains(y) && #[trigger] associated(*parts, y, b) implies seen@.contains(b)
                        || stack@.contains(b) by {
                        if !seen0.contains(b) {
                            assert(old_stack.contains(b));
                        }
                    }
                    assert forall|x: u64| #[trigger] bound_to(*parts, key, x) implies seen@.contains(x)
                        || stack@.contains(x) by {
                        if !seen0.contains(x) {
                            assert(old_stack.contains(x));
                        }
                    }
                    assert forall|m: int| 0 <= m < stack@.len() implies represents(*parts, key, #[trigger] stack@[m]) by {
                        assert(old_stack[m] == stack@[m]);
                    }
                }
            }
        }
        proof {
            assert forall|x: u64| #[trigger] represents(*parts, key, x) implies seen@.contains(x) by {
                let p = choose|p: Seq<u64>|
                    #[trigger] association_chain(*parts, p) && bound_to(*parts, key, p[0]) && p.last() == x;
                lemma_associations_closed(*parts, seen@, p);
            }
        }
        reps.insert(key, set);
        proof {
            assert forall|d: u64, x: u64|
                reps@.contains_key(d) implies (#[trigger] reps@[d]@.contains(x) <==> (if done_key(
                keys@,
                k + 1,
                d,
            ) {
                represents(*parts, d, x)
            } else {
                bound_to(*parts, d, x)
            })) by {
                if d == key {
                    assert(keys@[k as int] == d);
                    assert(done_key(keys@, k + 1, d));
                } else {
                    assert(reps@[d] == reps0[d]);
                    assert(done_key(keys@, k + 1, d) == done_key(keys@, k as int, d)) by {
                        if done_key(keys@, k + 1, d) {
                            let m = choose|m: int| 0 <= m < k + 1 && keys@[m] == d;
                            assert(m < k);
                        }
                    }
                }
            }
            assert(reps@.dom() =~= reps0.dom());
        }
        k += 1;
    }
    proof {
        assert forall|d: u64, x: u64|
            reps@.contains_key(d) implies (#[trigger] reps@[d]@.contains(x) <==> represents(*parts, d, x)) by {
            assert(keys@.contains(d));
            let m = choose|m: int| 0 <= m < keys@.len() && keys@[m] == d;
            assert(done_key(keys@, k as int, d));
        }
    }
    Ok(reps)
}


/// Occurrences join existing definitions without a cycle; the identities of
/// the definitions they instantiate, as an ascending set.
fn assembly(parts: &Parts, ix: &Indexes, work: &mut Budget) -> (r: Result<Vec<u64>, Error>)
    requires
        ix.wf(parts),
    ensures
        final(work).0 <= old(work).0,
        r matches Ok(children) ==> {
            &&& forall|i: int|
                0 <= i < parts.occurrences@.len() ==> has_key(
                    parts.definitions@,
                    (#[trigger] parts.occurrences@[i]).parent.0,
                ) && has_key(parts.definitions@, parts.occurrences@[i].child.0)
            &&& assembly_acyclic(*parts)
            &&& forall|d: DefinitionId| children@.contains(d.0) <==> is_child(parts.occurrences@, d)
        },
        r matches Err(e) ==> e == Error::ResourceLimit || e == Error::MissingLink || e == Error::Cycle,
        r matches Err(e) ==> e == Error::Cycle ==> !assembly_acyclic(*parts),
{
    let defs = &ix.definitions;
    let mut edges: Vec<(usize, usize)> = Vec::new();
    let mut children: Vec<u64> = Vec::new();
    let mut i: usize = 0;
    while i < parts.occurrences.len()
        invariant
            i <= parts.occurrences@.len(),
            ix.wf(parts),
            defs == &ix.definitions,
            work.0 <= old(work).0,
            edges@.len() == i,
            forall|k: int|
                0 <= k < i ==> has_key(parts.definitions@, (#[trigger] parts.occurrences@[k]).parent.0)
                    && has_key(parts.definitions@, parts.occurrences@[k].child.0),
            forall|k: int|
                0 <= k < i ==> (#[trigger] edges@[k]).0 == defs@[parts.occurrences@[k].parent.0]
                    && edges@[k].1 == defs@[parts.occurrences@[k].child.0] && defs@.contains_key(
                    parts.occurrences@[k].parent.0,
                ) && defs@.contains_key(parts.occurrences@[k].child.0),
            forall|k: int|
                0 <= k < i ==> (#[trigger] edges@[k]).0 < parts.definitions@.len() && edges@[k].1
                    < parts.definitions@.len(),
            sorted_set(children@),
            forall|x: u64|
                children@.contains(x) <==> exists|k: int|
                    0 <= k < i && (#[trigger] parts.occurrences@[k]).child.0 == x,
        decreases parts.occurrences@.len() - i,
    {
        let occurrence = &parts.occurrences[i];
        work.link(defs, occurrence.parent.0)?;
        work.link(defs, occurrence.child.0)?;
        proof {
            lemma_indexes_has_key(defs@, parts.definitions@, occurrence.parent.0);
            lemma_indexes_has_key(defs@, parts.definitions@, occurrence.child.0);
        }
        let a = position(defs, occurrence.parent.0);
        let b = position(defs, occurrence.child.0);
        edges.push((a, b));
        let ghost before = children@;
        insert_sorted(&mut children, occurrence.child.0);
        proof {
            assert forall|x: u64| children@.contains(x) <==> exists|k: int|
                0 <= k < i + 1 && (#[trigger] parts.occurrences@[k]).child.0 == x by {
                if x == occurrence.child.0 {
                    assert(parts.occurrences@[i as int].child.0 == x);
                }
                if exists|k: int| 0 <= k < i + 1 && (#[trigger] parts.occurrences@[k]).child.0 == x {
                    let k = choose|k: int| 0 <= k < i + 1 && (#[trigger] parts.occurrences@[k]).child.0 == x;
                    if k < i {
                        assert(before.contains(x));
                    }
                }
            }
        }
        i += 1;
    }
    let checked = acyclic(parts.definitions.len(), &edges, work);
    if let Err(e) = checked {
        proof {
            if e == Error::Cycle && assembly_acyclic(*parts) {
                let rank = choose|rank: Seq<int>| #[trigger] assembly_ranked(*parts, rank);
                let d = parts.definitions@;
                let occ = parts.occurrences@;
                assert forall|k: int| 0 <= k < edges@.len() implies rank[(#[trigger] edges@[k]).0 as int]
                    < rank[edges@[k].1 as int] by {
                    let a = edges@[k].0 as int;
                    let b = edges@[k].1 as int;
                    assert(d[a].spec_key() == occ[k].parent.0);
                    assert(d[b].spec_key() == occ[k].child.0);
                    assert(d[a].id == occ[k].parent);
                    assert(d[b].id == occ[k].child);
                }
                assert(ranks(rank, parts.definitions@.len() as nat, edges@));
            }
        }
        return Err(e);
    }
    proof {
        let rank = choose|rank: Seq<int>| #[trigger] ranks(rank, parts.definitions@.len() as nat, edges@);
        let d = parts.definitions@;
        let occ = parts.occurrences@;
        assert forall|o: int, a: int, b: int|
            #![trigger occ[o], d[a], d[b]]
            0 <= o < occ.len() && 0 <= a < d.len() && 0 <= b < d.len() && d[a].id == occ[o].parent
                && d[b].id == occ[o].child implies rank[a] < rank[b] by {
            assert(edges@[o].0 == defs@[occ[o].parent.0]);
            assert(d[a].spec_key() == occ[o].parent.0);
            assert(defs@[d[a].spec_key()] == a);
            assert(d[b].spec_key() == occ[o].child.0);
            assert(defs@[d[b].spec_key()] == b);
        }
        assert(assembly_ranked(*parts, rank));
        assert forall|x: DefinitionId| children@.contains(x.0) <==> is_child(occ, x) by {
            if is_child(occ, x) {
                let k = choose|k: int| 0 <= k < occ.len() && (#[trigger] occ[k]).child == x;
                assert(occ[k].child.0 == x.0);
            }
            if children@.contains(x.0) {
                let k = choose|k: int| 0 <= k < occ.len() && (#[trigger] occ[k]).child.0 == x.0;
                assert(occ[k].child == x);
            }
        }
    }
    Ok(children)
}


/// The representation set of `key` contains `x`, if `map` holds one.
fn set_contains(map: &BTreeMap<u64, Vec<u64>>, key: u64, x: u64) -> (r: bool)
    ensures
        r == (map@.contains_key(key) && map@[key]@.contains(x)),
{
    match map.get(&key) {
        Some(set) => contains_u64(set, x),
        None => false,
    }
}

/// Relationships join existing representations, carry at most one placement
/// form, and a placement pair names items of each representation's context.
fn check_relationships(
    parts: &Parts,
    ix: &Indexes,
    context_items: &BTreeMap<u64, Vec<u64>>,
    work: &mut Budget,
) -> (r: Result<(), Error>)
    requires
        ix.wf(parts),
        forall|i: int|
            0 <= i < parts.representations@.len() ==> context_items@.contains_key(
                (#[trigger] parts.representations@[i]).context.0,
            ),
        context_sets(*parts, context_items@),
    ensures
        final(work).0 <= old(work).0,
        r is Ok ==> forall|i: int|
            0 <= i < parts.relationships@.len() ==> has_key(
                parts.representations@,
                (#[trigger] parts.relationships@[i]).rep_1.0,
            ) && has_key(parts.representations@, parts.relationships@[i].rep_2.0) && !(
            parts.relationships@[i].transform is Some && parts.relationships@[i].operator is Some),
        r is Ok ==> pair_items_in_context(*parts),
        r matches Err(e) ==> e == Error::ResourceLimit || e == Error::MissingLink || e
            == Error::InvalidTransform,
{
    let mut i: usize = 0;
    while i < parts.relationships.len()
        invariant
            i <= parts.relationships@.len(),
            ix.wf(parts),
            work.0 <= old(work).0,
            forall|k: int|
                0 <= k < i ==> has_key(parts.representations@, (#[trigger] parts.relationships@[k]).rep_1.0)
                    && has_key(parts.representations@, parts.relationships@[k].rep_2.0) && !(
                parts.relationships@[k].transform is Some && parts.relationships@[k].operator is Some),
            forall|j: int|
                0 <= j < parts.representations@.len() ==> context_items@.contains_key(
                    (#[trigger] parts.representations@[j]).context.0,
                ),
            context_sets(*parts, context_items@),
            forall|k: int, r: int|
                0 <= k < i && 0 <= r < parts.representations@.len() && (#[trigger] parts.relationships@[k]).transform is Some
                    && (#[trigger] parts.representations@[r]).id == parts.relationships@[k].rep_1 ==> in_context(
                    *parts,
                    parts.representations@[r].context.0,
                    parts.relationships@[k].transform->0.item_1.0,
                ),
            forall|k: int, r: int|
                0 <= k < i && 0 <= r < parts.representations@.len() && (#[trigger] parts.relationships@[k]).transform is Some
                    && (#[trigger] parts.representations@[r]).id == parts.relationships@[k].rep_2 ==> in_context(
                    *parts,
                    parts.representations@[r].context.0,
                    parts.relationships@[k].transform->0.item_2.0,
                ),
        decreases parts.relationships@.len() - i,
    {
        let relationship = &parts.relationships[i];
        work.link(&ix.representations, relationship.rep_1.0)?;
        work.link(&ix.representations, relationship.rep_2.0)?;
        proof {
            lemma_indexes_has_key(ix.representations@, parts.representations@, relationship.rep_1.0);
            lemma_indexes_has_key(ix.representations@, parts.representations@, relationship.rep_2.0);
        }
        if relationship.transform.is_some() && relationship.operator.is_some() {
            return Err(Error::InvalidTransform);
        }
        if let Some(t) = relationship.transform {
            let pairs: [(u64, u64); 2] = [(relationship.rep_1.0, t.item_1.0), (relationship.rep_2.0, t.item_2.0)];
            let mut k: usize = 0;
            while k < 2
                invariant
                    k <= 2,
                    ix.wf(parts),
                    work.0 <= old(work).0,
                    pairs@.len() == 2,
                    ix.representations@.contains_key(pairs@[0].0),
                    ix.representations@.contains_key(pairs@[1].0),
                    forall|j: int|
                        0 <= j < parts.representations@.len() ==> context_items@.contains_key(
                            (#[trigger] parts.representations@[j]).context.0,
                        ),
                    context_sets(*parts, context_items@),
                    forall|q: int, r: int|
                        0 <= q < k && 0 <= r < parts.representations@.len() && (#[trigger] parts.representations@[r]).id.0
                            == (#[trigger] pairs@[q]).0 ==> in_context(
                            *parts,
                            parts.representations@[r].context.0,
                            pairs@[q].1,
                        ),
                decreases 2 - k,
            {
                work.tick()?;
                let (rep, item) = pairs[k];
                let at = position(&ix.representations, rep);
                let context = parts.representations[at].context.0;
                if !set_contains(context_items, context, item) {
                    return Err(Error::MissingLink);
                }
                proof {
                    assert(context_items@[context]@.contains(item));
                    assert forall|r: int|
                        0 <= r < parts.representations@.len() && (#[trigger] parts.representations@[r]).id.0
                            == rep implies in_context(*parts, parts.representations@[r].context.0, item) by {
                        assert(parts.representations@[r].spec_key() == rep);
                        assert(r == at);
                    }
                }
                k += 1;
            }
            proof {
                assert(pairs@[0] == (relationship.rep_1.0, t.item_1.0));
                assert(pairs@[1] == (relationship.rep_2.0, t.item_2.0));
            }
        }
        i += 1;
    }
    Ok(())
}

/// Placements name existing occurrences and relationships, and each relationship
/// joins a representation of the occurrence's parent definition with one of its
/// child, in either direction.
fn check_placements(
    parts: &Parts,
    ix: &Indexes,
    definition_reps: &BTreeMap<u64, Vec<u64>>,
    work: &mut Budget,
) -> (r: Result<(), Error>)
    requires
        ix.wf(parts),
        definition_sets(*parts, definition_reps@),
    ensures
        final(work).0 <= old(work).0,
        r is Ok ==> placements_connect(*parts),
        r is Ok ==> forall|i: int|
            0 <= i < parts.placements@.len() ==> has_key(
                parts.occurrences@,
                (#[trigger] parts.placements@[i]).occurrence.0,
            ) && has_key(parts.relationships@, parts.placements@[i].relationship.0),
        r matches Err(e) ==> e == Error::ResourceLimit || e == Error::MissingLink,
{
    let mut i: usize = 0;
    while i < parts.placements.len()
        invariant
            i <= parts.placements@.len(),
            ix.wf(parts),
            work.0 <= old(work).0,
            forall|k: int|
                0 <= k < i ==> has_key(parts.occurrences@, (#[trigger] parts.placements@[k]).occurrence.0)
                    && has_key(parts.relationships@, parts.placements@[k].relationship.0),
            definition_sets(*parts, definition_reps@),
            forall|k: int, o: int, j: int|
                0 <= k < i && 0 <= o < parts.occurrences@.len() && 0 <= j < parts.relationships@.len()
                    && (#[trigger] parts.occurrences@[o]).id == (#[trigger] parts.placements@[k]).occurrence && (
                #[trigger] parts.relationships@[j]).id == parts.placements@[k].relationship ==> {
                    let parent = parts.occurrences@[o].parent.0;
                    let child = parts.occurrences@[o].child.0;
                    let (a, b) = (parts.relationships@[j].rep_1.0, parts.relationships@[j].rep_2.0);
                    (represents(*parts, parent, a) && represents(*parts, child, b)) || (represents(
                        *parts,
                        parent,
                        b,
                    ) && represents(*parts, child, a))
                },
        decreases parts.placements@.len() - i,
    {
        let placement = &parts.placements[i];
        work.link(&ix.occurrences, placement.occurrence.0)?;
        work.link(&ix.relationships, placement.relationship.0)?;
        proof {
            lemma_indexes_has_key(ix.occurrences@, parts.occurrences@, placement.occurrence.0);
            lemma_indexes_has_key(ix.relationships@, parts.relationships@, placement.relationship.0);
        }
        let occurrence = &parts.occurrences[position(&ix.occurrences, placement.occurrence.0)];
        let relation = &parts.relationships[position(&ix.relationships, placement.relationship.0)];
        let parent = occurrence.parent.0;
        let child = occurrence.child.0;
        let a = relation.rep_1.0;
        let b = relation.rep_2.0;
        let forward = set_contains(definition_reps, parent, a) && set_contains(definition_reps, child, b);
        let reverse = set_contains(definition_reps, parent, b) && set_contains(definition_reps, child, a);
        if !(forward || reverse) {
            return Err(Error::MissingLink);
        }
        proof {
            let oa = ix.occurrences@[placement.occurrence.0] as int;
            let ja = ix.relationships@[placement.relationship.0] as int;
            assert forall|x: u64, y: u64| #[trigger] set_holds(definition_reps@, x, y) == represents(*parts, x, y) by {
                if represents(*parts, x, y) {
                    lemma_represents_bound(*parts, x, y);
                }
            }
            assert(forward == (set_holds(definition_reps@, parent, a) && set_holds(definition_reps@, child, b)));
            assert(reverse == (set_holds(definition_reps@, parent, b) && set_holds(definition_reps@, child, a)));
            assert forall|o: int, j: int|
                0 <= o < parts.occurrences@.len() && 0 <= j < parts.relationships@.len()
                    && (#[trigger] parts.occurrences@[o]).id == placement.occurrence && (
                #[trigger] parts.relationships@[j]).id == placement.relationship implies o == oa && j == ja by {
                assert(parts.occurrences@[o].spec_key() == placement.occurrence.0);
                assert(parts.relationships@[j].spec_key() == placement.relationship.0);
            }
        }
        i += 1;
    }
    Ok(())
}

/// Maps name representations whose context holds their origin; mapped items name
/// maps; every mapped item is used by a representation whose context holds its
/// target. The mapping edges, from using to mapped representation, by position.
fn check_maps(
    parts: &Parts,
    ix: &Indexes,
    context_items: &BTreeMap<u64, Vec<u64>>,
    representation_items: &BTreeMap<u64, Vec<u64>>,
    work: &mut Budget,
) -> (r: Result<Vec<(usize, usize)>, Error>)
    requires
        ix.wf(parts),
        forall|i: int|
            0 <= i < parts.representations@.len() ==> context_items@.contains_key(
                (#[trigger] parts.representations@[i]).context.0,
            ) && representation_items@.contains_key(parts.representations@[i].id.0),
        context_sets(*parts, context_items@),
        rep_item_sets(*parts, representation_items@, parts.representations@.len() as int),
    ensures
        final(work).0 <= old(work).0,
        r is Ok ==> map_origins_in_context(*parts),
        r is Ok ==> mapped_items_placed(*parts),
        r matches Ok(edges) ==> forall|a: int, b: int|
            0 <= a < parts.representations@.len() && 0 <= b < parts.representations@.len() && #[trigger] maps_into(
                *parts,
                a,
                b,
            ) ==> edges@.contains((a as usize, b as usize)),
        r matches Ok(edges) ==> {
            &&& forall|i: int|
                0 <= i < parts.maps@.len() ==> has_key(
                    parts.representations@,
                    (#[trigger] parts.maps@[i]).representation.0,
                )
            &&& forall|i: int|
                0 <= i < parts.mapped_items@.len() ==> has_key(
                    parts.maps@,
                    (#[trigger] parts.mapped_items@[i]).map.0,
                )
            &&& forall|e: int|
                0 <= e < edges@.len() ==> (#[trigger] edges@[e]).0 < parts.representations@.len()
                    && edges@[e].1 < parts.representations@.len()
            &&& forall|e: int|
                0 <= e < edges@.len() ==> maps_into(*parts, (#[trigger] edges@[e]).0 as int, edges@[e].1 as int)
        },
        r matches Err(e) ==> e == Error::ResourceLimit || e == Error::MissingLink,
{
    let mut i: usize = 0;
    while i < parts.maps.len()
        invariant
            i <= parts.maps@.len(),
            ix.wf(parts),
            work.0 <= old(work).0,
            forall|k: int|
                0 <= k < i ==> has_key(parts.representations@, (#[trigger] parts.maps@[k]).representation.0),
            forall|j: int|
                0 <= j < parts.representations@.len() ==> context_items@.contains_key(
                    (#[trigger] parts.representations@[j]).context.0,
                ),
            context_sets(*parts, context_items@),
            forall|k: int, r: int|
                0 <= k < i && 0 <= r < parts.representations@.len() && (#[trigger] parts.representations@[r]).id
                    == (#[trigger] parts.maps@[k]).representation ==> in_context(
                    *parts,
                    parts.representations@[r].context.0,
                    parts.maps@[k].origin.0,
                ),
        decreases parts.maps@.len() - i,
    {
        let map = &parts.maps[i];
        work.link(&ix.representations, map.representation.0)?;
        proof {
            lemma_indexes_has_key(ix.representations@, parts.representations@, map.representation.0);
        }
        work.tick()?;
        let context = parts.representations[position(&ix.representations, map.representation.0)].context.0;
        if !set_contains(context_items, context, map.origin.0) {
            return Err(Error::MissingLink);
        }
        proof {
            let at = ix.representations@[map.representation.0] as int;
            assert(context_items@[context]@.contains(map.origin.0));
            assert forall|r: int|
                0 <= r < parts.representations@.len() && (#[trigger] parts.representations@[r]).id
                    == map.representation implies r == at by {
                assert(parts.representations@[r].spec_key() == map.representation.0);
            }
        }
        i += 1;
    }
    let mut i: usize = 0;
    while i < parts.mapped_items.len()
        invariant
            i <= parts.mapped_items@.len(),
            ix.wf(parts),
            work.0 <= old(work).0,
            forall|k: int| 0 <= k < i ==> has_key(parts.maps@, (#[trigger] parts.mapped_items@[k]).map.0),
        decreases parts.mapped_items@.len() - i,
    {
        work.link(&ix.maps, parts.mapped_items[i].map.0)?;
        proof {
            lemma_indexes_has_key(ix.maps@, parts.maps@, parts.mapped_items@[i as int].map.0);
        }
        i += 1;
    }
    let mut edges: Vec<(usize, usize)> = Vec::new();
    let mut used: Vec<u64> = Vec::new();
    let mut r: usize = 0;
    while r < parts.representations.len()
        invariant
            r <= parts.representations@.len(),
            ix.wf(parts),
            work.0 <= old(work).0,
            forall|k: int|
                0 <= k < parts.maps@.len() ==> has_key(
                    parts.representations@,
                    (#[trigger] parts.maps@[k]).representation.0,
                ),
            forall|k: int|
                0 <= k < parts.mapped_items@.len() ==> has_key(
                    parts.maps@,
                    (#[trigger] parts.mapped_items@[k]).map.0,
                ),
            forall|j: int|
                0 <= j < parts.representations@.len() ==> context_items@.contains_key(
                    (#[trigger] parts.representations@[j]).context.0,
                ) && representation_items@.contains_key(parts.representations@[j].id.0),
            forall|e: int|
                0 <= e < edges@.len() ==> (#[trigger] edges@[e]).0 < parts.representations@.len()
                    && edges@[e].1 < parts.representations@.len(),
            forall|e: int|
                0 <= e < edges@.len() ==> maps_into(*parts, (#[trigger] edges@[e]).0 as int, edges@[e].1 as int),
            sorted_set(used@),
            context_sets(*parts, context_items@),
            rep_item_sets(*parts, representation_items@, parts.representations@.len() as int),
            forall|y: u64| #[trigger] used@.contains(y) ==> ix.mapped@.contains_key(y) && mapped_somewhere(*parts, y),
            forall|m: int, q: int|
                0 <= m < parts.mapped_items@.len() && 0 <= q < r && #[trigger] item_of(
                    *parts,
                    q,
                    parts.mapped_items@[m].id.0,
                ) ==> in_context(*parts, parts.representations@[q].context.0, parts.mapped_items@[m].target.0),
            forall|a: int, b: int|
                0 <= a < r && 0 <= b < parts.representations@.len() && #[trigger] maps_into(*parts, a, b)
                    ==> edges@.contains((a as usize, b as usize)),
        decreases parts.representations@.len() - r,
    {
        let representation = &parts.representations[r];
        let items = representation_items.get(&representation.id.0).unwrap();
        let ghost ri = r as int;
        proof {
            assert(*items == representation_items@[parts.representations@[ri].id.0]);
        }
        let mut k: usize = 0;
        while k < items.len()
            invariant
                k <= items@.len(),
                r < parts.representations@.len(),
                ri == r,
                *representation == parts.representations@[ri],
                forall|x: u64| items@.contains(x) <==> item_of(*parts, ri, x),
                context_sets(*parts, context_items@),
                forall|y: u64| #[trigger] used@.contains(y) ==> ix.mapped@.contains_key(y) && mapped_somewhere(*parts, y),
                forall|a: int, b: int|
                    0 <= a < r && 0 <= b < parts.representations@.len() && #[trigger] maps_into(*parts, a, b)
                        ==> edges@.contains((a as usize, b as usize)),
                forall|m: int, q: int|
                    0 <= m < parts.mapped_items@.len() && 0 <= q < k && #[trigger] items@[q] == (
                    #[trigger] parts.mapped_items@[m]).id.0 ==> in_context(
                        *parts,
                        parts.representations@[ri].context.0,
                        parts.mapped_items@[m].target.0,
                    ),
                forall|m: int, q: int, kk: int, b: int|
                    0 <= m < parts.mapped_items@.len() && 0 <= q < k && 0 <= kk < parts.maps@.len() && 0 <= b
                        < parts.representations@.len() && #[trigger] items@[q] == (#[trigger] parts.mapped_items@[m]).id.0
                        && (#[trigger] parts.maps@[kk]).id == parts.mapped_items@[m].map
                        && (#[trigger] parts.representations@[b]).id == parts.maps@[kk].representation
                        ==> edges@.contains((ri as usize, b as usize)),
                ix.wf(parts),
                work.0 <= old(work).0,
                forall|j: int|
                    0 <= j < parts.maps@.len() ==> has_key(
                        parts.representations@,
                        (#[trigger] parts.maps@[j]).representation.0,
                    ),
                forall|j: int|
                    0 <= j < parts.mapped_items@.len() ==> has_key(
                        parts.maps@,
                        (#[trigger] parts.mapped_items@[j]).map.0,
                    ),
                forall|e: int|
                    0 <= e < edges@.len() ==> (#[trigger] edges@[e]).0 < parts.representations@.len()
                        && edges@[e].1 < parts.representations@.len(),
                forall|e: int|
                    0 <= e < edges@.len() ==> maps_into(*parts, (#[trigger] edges@[e]).0 as int, edges@[e].1 as int),
                sorted_set(used@),
            decreases items@.len() - k,
        {
            work.tick()?;
            let x = items[k];
            proof {
                assert(items@.contains(x));
                assert(item_of(*parts, ri, x));
            }
            let ghost edges0 = edges@;
            match ix.mapped.get(&x) {
                Some(at) => {
                    let m = &parts.mapped_items[*at];
                    if !set_contains(context_items, representation.context.0, m.target.0) {
                        return Err(Error::MissingLink);
                    }
                    insert_sorted(&mut used, m.id.0);
                    proof {
                        assert(has_key(parts.maps@, parts.mapped_items@[*at as int].map.0));
                        lemma_indexes_has_key(ix.maps@, parts.maps@, m.map.0);
                    }
                    let mpos = position(&ix.maps, m.map.0);
                    let source = parts.maps[mpos].representation.0;
                    proof {
                        lemma_indexes_has_key(ix.representations@, parts.representations@, source);
                    }
                    let spos = position(&ix.representations, source);
                    edges.push((r, spos));
                    proof {
                        assert(m.id.0 == x);
                        assert(mapped_somewhere(*parts, x));
                        assert forall|mm: int| 0 <= mm < parts.mapped_items@.len() && (#[trigger] parts.mapped_items@[mm]).id.0 == x implies mm == *at by {
                            assert(parts.mapped_items@[mm].spec_key() == x);
                        }
                        assert forall|kk: int| 0 <= kk < parts.maps@.len() && (#[trigger] parts.maps@[kk]).id == m.map implies kk == mpos by {
                            assert(parts.maps@[kk].spec_key() == m.map.0);
                        }
                        assert forall|b: int| 0 <= b < parts.representations@.len() && (#[trigger] parts.representations@[b]).id.0 == source implies b == spos by {
                            assert(parts.representations@[b].spec_key() == source);
                        }
                        assert(edges@[edges0.len() as int] == (r, spos));
                        assert(parts.maps@[mpos as int].spec_key() == m.map.0);
                        assert(parts.representations@[spos as int].spec_key() == source);
                        assert(maps_into(*parts, ri, spos as int)) by {
                            assert(item_of(*parts, ri, parts.mapped_items@[*at as int].id.0));
                            assert(parts.maps@[mpos as int].id == parts.mapped_items@[*at as int].map);
                            assert(parts.representations@[spos as int].id == parts.maps@[mpos as int].representation);
                        }
                        assert forall|e: int| 0 <= e < edges@.len() implies maps_into(
                            *parts,
                            (#[trigger] edges@[e]).0 as int,
                            edges@[e].1 as int,
                        ) by {
                            if e < edges0.len() {
                                assert(edges@[e] == edges0[e]);
                            }
                        }
                        assert(edges@.contains((ri as usize, spos)));
                        assert forall|e: (usize, usize)| edges0.contains(e) implies edges@.contains(e) by {
                            let i = choose|i: int| 0 <= i < edges0.len() && edges0[i] == e;
                            assert(edges@[i] == e);
                        }
                        assert(context_items@[representation.context.0]@.contains(m.target.0));
                    }
                },
                None => {
                    proof {
                        assert forall|mm: int| 0 <= mm < parts.mapped_items@.len() implies (#[trigger] parts.mapped_items@[mm]).id.0 != x by {
                            assert(ix.mapped@.contains_key(parts.mapped_items@[mm].spec_key()));
                        }
                    }
                },
            }
            k += 1;
        }
        proof {
            assert forall|m: int, q: int|
                0 <= m < parts.mapped_items@.len() && 0 <= q < ri + 1 && #[trigger] item_of(
                    *parts,
                    q,
                    parts.mapped_items@[m].id.0,
                ) implies in_context(*parts, parts.representations@[q].context.0, parts.mapped_items@[m].target.0) by {
                if q == ri {
                    assert(items@.contains(parts.mapped_items@[m].id.0));
                    let j = choose|j: int| 0 <= j < items@.len() && items@[j] == parts.mapped_items@[m].id.0;
                    assert(items@[j] == parts.mapped_items@[m].id.0);
                }
            }
            assert forall|a: int, b: int|
                0 <= a < ri + 1 && 0 <= b < parts.representations@.len() && #[trigger] maps_into(*parts, a, b) implies edges@.contains(
                (a as usize, b as usize),
            ) by {
                if a == ri {
                    let (m, kk) = choose|m: int, kk: int|
                        0 <= m < parts.mapped_items@.len() && 0 <= kk < parts.maps@.len() && item_of(
                            *parts,
                            a,
                            parts.mapped_items@[m].id.0,
                        ) && (#[trigger] parts.maps@[kk]).id == (#[trigger] parts.mapped_items@[m]).map
                            && parts.representations@[b].id == parts.maps@[kk].representation;
                    assert(items@.contains(parts.mapped_items@[m].id.0));
                    let j = choose|j: int| 0 <= j < items@.len() && items@[j] == parts.mapped_items@[m].id.0;
                    assert(items@[j] == parts.mapped_items@[m].id.0);
                }
            }
        }
        r += 1;
    }
    if used.len() != ix.mapped.len() {
        return Err(Error::MissingLink);
    }
    proof {
        assert(used@.no_duplicates()) by {
            assert forall|a: int, b: int| 0 <= a < used@.len() && 0 <= b < used@.len() && a != b implies used@[a]
                != used@[b] by {
                if a < b {
                    assert(used@[a] < used@[b]);
                } else {
                    assert(used@[b] < used@[a]);
                }
            }
        }
        used@.unique_seq_to_set();
        assert(used@.to_set().subset_of(ix.mapped@.dom())) by {
            assert forall|y: u64| used@.to_set().contains(y) implies ix.mapped@.dom().contains(y) by {
                assert(used@.contains(y));
            }
        }
        vstd::set_lib::lemma_subset_equality(used@.to_set(), ix.mapped@.dom());
        assert forall|m: int| 0 <= m < parts.mapped_items@.len() implies mapped_somewhere(
            *parts,
            (#[trigger] parts.mapped_items@[m]).id.0,
        ) by {
            assert(ix.mapped@.contains_key(parts.mapped_items@[m].spec_key()));
            assert(used@.to_set().contains(parts.mapped_items@[m].id.0));
            assert(used@.contains(parts.mapped_items@[m].id.0));
        }
    }
    Ok(edges)
}


/// Resolved placements: one per relationship, each for a relationship that
/// carries a placement, and invertible; mapped placements name a mapped item of
/// the using representation, once per pair, and are invertible.
fn check_transforms(
    parts: &Parts,
    ix: &Indexes,
    representation_items: &BTreeMap<u64, Vec<u64>>,
    work: &mut Budget,
) -> (r: Result<(), Error>)
    requires
        ix.wf(parts),
        forall|i: int|
            0 <= i < parts.representations@.len() ==> representation_items@.contains_key(
                (#[trigger] parts.representations@[i]).id.0,
            ),
        rep_item_sets(*parts, representation_items@, parts.representations@.len() as int),
    ensures
        final(work).0 <= old(work).0,
        r is Ok ==> mapped_placements_used(*parts),
        r is Ok ==> {
            &&& distinct_keys(parts.relationship_transforms@)
            &&& forall|i: int|
                0 <= i < parts.relationship_transforms@.len() ==> has_key(
                    parts.relationships@,
                    (#[trigger] parts.relationship_transforms@[i]).relationship.0,
                ) && parts.relationship_transforms@[i].invertible
            &&& forall|i: int, j: int|
                0 <= i < parts.relationship_transforms@.len() && 0 <= j < parts.relationships@.len() && (
                #[trigger] parts.relationships@[j]).id == (
                #[trigger] parts.relationship_transforms@[i]).relationship
                    ==> parts.relationships@[j].transform is Some || parts.relationships@[j].operator
                    is Some
            &&& forall|i: int|
                0 <= i < parts.mapped_transforms@.len() ==> has_key(
                    parts.mapped_items@,
                    (#[trigger] parts.mapped_transforms@[i]).item.0,
                ) && has_key(parts.representations@, parts.mapped_transforms@[i].using_representation.0)
                    && parts.mapped_transforms@[i].invertible
            &&& forall|i: int, j: int|
                0 <= i < j < parts.mapped_transforms@.len() ==> !((
                #[trigger] parts.mapped_transforms@[i]).item == (
                #[trigger] parts.mapped_transforms@[j]).item
                    && parts.mapped_transforms@[i].using_representation
                    == parts.mapped_transforms@[j].using_representation)
        },
        r matches Err(e) ==> e == Error::ResourceLimit || e == Error::MissingLink || e
            == Error::InvalidTransform || (e == Error::DuplicateId && !unique_ids(*parts)),
{
    let resolved = index(parts.relationship_transforms.as_slice(), work)?;
    let mut i: usize = 0;
    while i < parts.relationship_transforms.len()
        invariant
            i <= parts.relationship_transforms@.len(),
            ix.wf(parts),
            work.0 <= old(work).0,
            forall|k: int|
                0 <= k < i ==> has_key(
                    parts.relationships@,
                    (#[trigger] parts.relationship_transforms@[k]).relationship.0,
                ) && parts.relationship_transforms@[k].invertible,
            forall|k: int, j: int|
                0 <= k < i && 0 <= j < parts.relationships@.len() && (#[trigger] parts.relationships@[j]).id
                    == (#[trigger] parts.relationship_transforms@[k]).relationship
                    ==> parts.relationships@[j].transform is Some || parts.relationships@[j].operator
                    is Some,
        decreases parts.relationship_transforms@.len() - i,
    {
        let placement = &parts.relationship_transforms[i];
        work.link(&ix.relationships, placement.relationship.0)?;
        proof {
            lemma_indexes_has_key(ix.relationships@, parts.relationships@, placement.relationship.0);
        }
        let at = position(&ix.relationships, placement.relationship.0);
        let relationship = &parts.relationships[at];
        if relationship.transform.is_none() && relationship.operator.is_none() {
            return Err(Error::InvalidTransform);
        }
        if !placement.invertible {
            return Err(Error::InvalidTransform);
        }
        proof {
            assert forall|j: int|
                0 <= j < parts.relationships@.len() && (#[trigger] parts.relationships@[j]).id
                    == placement.relationship implies parts.relationships@[j].transform is Some
                || parts.relationships@[j].operator is Some by {
                assert(parts.relationships@[j].spec_key() == parts.relationships@[at as int].spec_key());
            }
        }
        i += 1;
    }
    let mut mappings: Vec<(u64, u64)> = Vec::new();
    let mut i: usize = 0;
    while i < parts.mapped_transforms.len()
        invariant
            i <= parts.mapped_transforms@.len(),
            ix.wf(parts),
            work.0 <= old(work).0,
            distinct_keys(parts.relationship_transforms@),
            mappings@.len() == i,
            forall|k: int|
                0 <= k < i ==> (#[trigger] mappings@[k]) == (
                parts.mapped_transforms@[k].item.0,
                parts.mapped_transforms@[k].using_representation.0,
            ),
            forall|k: int|
                0 <= k < i ==> has_key(parts.mapped_items@, (#[trigger] parts.mapped_transforms@[k]).item.0)
                    && has_key(parts.representations@, parts.mapped_transforms@[k].using_representation.0)
                    && parts.mapped_transforms@[k].invertible,
            forall|a: int, b: int|
                0 <= a < b < i ==> !((#[trigger] parts.mapped_transforms@[a]).item == (
                #[trigger] parts.mapped_transforms@[b]).item
                    && parts.mapped_transforms@[a].using_representation
                    == parts.mapped_transforms@[b].using_representation),
            forall|j: int|
                0 <= j < parts.representations@.len() ==> representation_items@.contains_key(
                    (#[trigger] parts.representations@[j]).id.0,
                ),
            rep_item_sets(*parts, representation_items@, parts.representations@.len() as int),
            forall|k: int, r: int|
                0 <= k < i && 0 <= r < parts.representations@.len() && (#[trigger] parts.representations@[r]).id
                    == (#[trigger] parts.mapped_transforms@[k]).using_representation ==> item_of(
                    *parts,
                    r,
                    parts.mapped_transforms@[k].item.0,
                ),
        decreases parts.mapped_transforms@.len() - i,
    {
        let placement = &parts.mapped_transforms[i];
        work.link(&ix.mapped, placement.item.0)?;
        work.link(&ix.representations, placement.using_representation.0)?;
        proof {
            lemma_indexes_has_key(ix.mapped@, parts.mapped_items@, placement.item.0);
            lemma_indexes_has_key(
                ix.representations@,
                parts.representations@,
                placement.using_representation.0,
            );
        }
        if !set_contains(representation_items, placement.using_representation.0, placement.item.0) {
            return Err(Error::MissingLink);
        }
        proof {
            let at = ix.representations@[placement.using_representation.0] as int;
            assert forall|r: int|
                0 <= r < parts.representations@.len() && (#[trigger] parts.representations@[r]).id
                    == placement.using_representation implies item_of(*parts, r, placement.item.0) by {
                assert(parts.representations@[r].spec_key() == placement.using_representation.0);
                assert(r == at);
                assert(representation_items@[parts.representations@[r].id.0]@.contains(placement.item.0));
            }
        }
        let pair = (placement.item.0, placement.using_representation.0);
        let mut m: usize = 0;
        while m < mappings.len()
            invariant
                m <= mappings@.len(),
                work.0 <= old(work).0,
                mappings@.len() == i,
                i < parts.mapped_transforms@.len(),
                *placement == parts.mapped_transforms@[i as int],
                pair == (placement.item.0, placement.using_representation.0),
                forall|k: int|
                    0 <= k < i ==> (#[trigger] mappings@[k]) == (
                    parts.mapped_transforms@[k].item.0,
                    parts.mapped_transforms@[k].using_representation.0,
                ),
                forall|k: int| 0 <= k < m ==> mappings@[k] != pair,
            decreases mappings@.len() - m,
        {
            let (x, y) = mappings[m];
            if x == pair.0 && y == pair.1 {
                proof {
                    let k = m as int;
                    assert(mappings@[k] == pair);
                    assert(parts.mapped_transforms@[k].item == parts.mapped_transforms@[i as int].item);
                    assert(parts.mapped_transforms@[k].using_representation
                        == parts.mapped_transforms@[i as int].using_representation);
                    assert(!unique_ids(*parts));
                }
                return Err(Error::DuplicateId);
            }
            m += 1;
        }
        mappings.push(pair);
        if !placement.invertible {
            return Err(Error::InvalidTransform);
        }
        proof {
            assert forall|a: int, b: int|
                0 <= a < b < i + 1 implies !((#[trigger] parts.mapped_transforms@[a]).item == (
                #[trigger] parts.mapped_transforms@[b]).item
                    && parts.mapped_transforms@[a].using_representation
                    == parts.mapped_transforms@[b].using_representation) by {
                if b == i {
                    assert(mappings@[a] != pair);
                }
            }
        }
        i += 1;
    }
    Ok(())
}

/// Uncertainties name existing contexts and are positive and finite.
fn check_uncertainties(parts: &Parts, ix: &Indexes, work: &mut Budget) -> (r: Result<(), Error>)
    requires
        ix.wf(parts),
    ensures
        final(work).0 <= old(work).0,
        r is Ok ==> forall|i: int|
            0 <= i < parts.uncertainties@.len() ==> has_key(
                parts.contexts@,
                (#[trigger] parts.uncertainties@[i]).context.0,
            ) && positive_finite(parts.uncertainties@[i].value_si),
        r matches Err(e) ==> e == Error::ResourceLimit || e == Error::MissingLink || (e
            == Error::NumericRange && !transforms_ok(*parts)),
{
    let mut i: usize = 0;
    while i < parts.uncertainties.len()
        invariant
            i <= parts.uncertainties@.len(),
            ix.wf(parts),
            work.0 <= old(work).0,
            forall|k: int|
                0 <= k < i ==> has_key(parts.contexts@, (#[trigger] parts.uncertainties@[k]).context.0)
                    && positive_finite(parts.uncertainties@[k].value_si),
        decreases parts.uncertainties@.len() - i,
    {
        let uncertainty = &parts.uncertainties[i];
        work.link(&ix.contexts, uncertainty.context.0)?;
        proof {
            lemma_indexes_has_key(ix.contexts@, parts.contexts@, uncertainty.context.0);
        }
        if !is_positive_finite(uncertainty.value_si) {
            proof {
                assert(!positive_finite(parts.uncertainties@[i as int].value_si));
            }
            return Err(Error::NumericRange);
        }
        i += 1;
    }
    Ok(())
}

impl Model {
    /// Validates references, unique identities, unit dimensions, placements and
    /// the acyclic assembly and mapped-representation graphs, one budget step per
    /// examined element; no instance tree is expanded.
    pub fn new(parts: Parts, max_work: usize) -> (r: Result<Self, Error>)
        ensures
            r matches Ok(m) ==> {
                &&& m.spec_parts() == parts
                &&& valid_parts(parts)
                &&& m.spec_roots() == root_ids(parts.definitions@, parts.occurrences@)
            },
            r matches Err(e) ==> {
                &&& e == Error::DuplicateId ==> !unique_ids(parts)
                &&& e == Error::InvalidUnit ==> !dimensions_ok(parts)
                &&& e == Error::NumericRange ==> !transforms_ok(parts)
                &&& e == Error::Cycle ==> !assembly_acyclic(parts) || !mapping_acyclic(parts)
            },
            max_work >= index_work(parts) && !records_distinct(parts) ==> r == Err::<Model, Error>(
                Error::DuplicateId,
            ),
            max_work >= index_work(parts) + basic_work(parts) && records_distinct(parts) && !(
            formations_linked(parts) && definitions_linked(parts)) ==> r == Err::<Model, Error>(
                Error::MissingLink,
            ),
            max_work >= index_work(parts) + basic_work(parts) && records_distinct(parts)
                && formations_linked(parts) && definitions_linked(parts) && !dimensions_ok(parts) ==> r
                == Err::<Model, Error>(Error::InvalidUnit),
    {
        let mut work = Budget(max_work);
        let ix = index_all(&parts, &mut work)?;
        check_basic(&parts, &ix, &mut work)?;
        let (context_items, representation_items) = item_closure(&parts, &ix, &mut work)?;
        let definition_reps = definition_representations(&parts, &ix, &mut work)?;
        let children = assembly(&parts, &ix, &mut work)?;
        check_relationships(&parts, &ix, &context_items, &mut work)?;
        check_placements(&parts, &ix, &definition_reps, &mut work)?;
        let edges = check_maps(&parts, &ix, &context_items, &representation_items, &mut work)?;
        check_transforms(&parts, &ix, &representation_items, &mut work)?;
        check_uncertainties(&parts, &ix, &mut work)?;
        let checked = acyclic(parts.representations.len(), &edges, &mut work);
        if let Err(e) = checked {
            proof {
                if e == Error::Cycle && mapping_acyclic(parts) {
                    let rank = choose|rank: Seq<int>| #[trigger] mapping_ranked(parts, rank);
                    assert forall|k: int| 0 <= k < edges@.len() implies rank[(#[trigger] edges@[k]).0 as int]
                        < rank[edges@[k].1 as int] by {
                        assert(maps_into(parts, edges@[k].0 as int, edges@[k].1 as int));
                    }
                    assert(ranks(rank, parts.representations@.len() as nat, edges@));
                }
            }
            return Err(e);
        }
        proof {
            let rank = choose|rank: Seq<int>| #[trigger] ranks(rank, parts.representations@.len() as nat, edges@);
            assert forall|a: int, b: int|
                0 <= a < parts.representations@.len() && 0 <= b < parts.representations@.len() && #[trigger] maps_into(
                    parts,
                    a,
                    b,
                ) implies rank[a] < rank[b] by {
                assert(edges@.contains((a as usize, b as usize)));
                let e = choose|e: int| 0 <= e < edges@.len() && edges@[e] == (a as usize, b as usize);
                assert(rank[edges@[e].0 as int] < rank[edges@[e].1 as int]);
            }
            assert(mapping_ranked(parts, rank));
        }
        let mut roots: Vec<DefinitionId> = Vec::new();
        let mut i: usize = 0;
        while i < parts.definitions.len()
            invariant
                i <= parts.definitions@.len(),
                roots@ == root_ids(parts.definitions@.take(i as int), parts.occurrences@),
                forall|d: DefinitionId| children@.contains(d.0) <==> is_child(parts.occurrences@, d),
                records_distinct(parts),
                formations_linked(parts) && definitions_linked(parts) && dimensions_ok(parts),
            decreases parts.definitions@.len() - i,
        {
            work.tick()?;
            let id = parts.definitions[i].id;
            proof {
                let next = parts.definitions@.take(i + 1);
                assert(next.drop_last() =~= parts.definitions@.take(i as int));
                assert(next.last() == parts.definitions@[i as int]);
            }
            if !contains_u64(&children, id.0) {
                roots.push(id);
            }
            i += 1;
        }
        proof {
            assert(parts.definitions@.take(i as int) =~= parts.definitions@);
        }
        Ok(Model { parts, roots, definition_reps, context_items })
    }
}


/// Occurrence `o` instantiates `child` in `parent`.
pub open spec fn occurrence_links(p: Parts, o: OccurrenceId, parent: DefinitionId, child: DefinitionId) -> bool {
    exists|i: int|
        0 <= i < p.occurrences@.len() && (#[trigger] p.occurrences@[i]).id == o && p.occurrences@[i].parent
            == parent && p.occurrences@[i].child == child
}

/// Instance `k` of `plan` is placed: its representation is one of its
/// definition's, and it is the root or an instance, through one of its
/// occurrences, of an earlier instance's definition.
pub open spec fn placed_in(p: Parts, sets: Map<u64, Vec<u64>>, plan: Seq<Planned>, k: int) -> bool {
    let e = plan[k];
    &&& sets.contains_key(e.definition.0) && sets[e.definition.0]@.contains(e.representation.0)
    &&& match e.parent {
        None => e.occurrence is None && e.placement is None,
        Some(pi) => pi < k && e.placement is Some && (e.occurrence matches Some(o) && occurrence_links(
            p,
            o,
            plan[pi as int].definition,
            e.definition,
        )),
    }
}

/// Instance `k` of `plan` is placed, stated over the parts: its representation
/// represents its definition, and it is the root or an instance, through one of
/// its occurrences, of an earlier instance's definition.
pub open spec fn instance_placed(p: Parts, plan: Seq<Planned>, k: int) -> bool {
    let e = plan[k];
    &&& represents(p, e.definition.0, e.representation.0)
    &&& match e.parent {
        None => e.occurrence is None && e.placement is None,
        Some(pi) => pi < k && e.placement is Some && (e.occurrence matches Some(o) && occurrence_links(
            p,
            o,
            plan[pi as int].definition,
            e.definition,
        )),
    }
}

/// Every instance of `plan` is placed.
pub open spec fn plan_placed(p: Parts, plan: Seq<Planned>) -> bool {
    forall|k: int| 0 <= k < plan.len() ==> #[trigger] instance_placed(p, plan, k)
}

/// A plan placed through the representation sets of a checked model is placed.
proof fn lemma_plan_placed(p: Parts, sets: Map<u64, Vec<u64>>, plan: Seq<Planned>)
    requires
        plan_ok(p, sets, plan),
        definition_sets(p, sets),
    ensures
        plan_placed(p, plan),
{
    assert forall|k: int| 0 <= k < plan.len() implies #[trigger] instance_placed(p, plan, k) by {
        assert(placed_in(p, sets, plan, k));
        assert(sets[plan[k].definition.0]@.contains(plan[k].representation.0));
    }
}

/// Every instance of `plan` is placed.
pub open spec fn plan_ok(p: Parts, sets: Map<u64, Vec<u64>>, plan: Seq<Planned>) -> bool {
    forall|k: int| 0 <= k < plan.len() ==> #[trigger] placed_in(p, sets, plan, k)
}

/// How an instance is placed in its parent: through `relationship`, whose
/// resolved map acts from representation 1 to representation 2; `reversed` when
/// the instance is representation 2, so the inverse map applies.
#[derive(Debug, Clone, Copy, PartialEq, Eq)]
pub struct Placement {
    pub relationship: RelationshipId,
    pub reversed: bool,
}

/// An instance of an expansion, without its placement maps. The root has no
/// parent, occurrence or placement.
#[derive(Debug, Clone, Copy, PartialEq, Eq)]
pub struct Planned {
    /// Index of the parent in this expansion.
    pub parent: Option<usize>,
    pub occurrence: Option<OccurrenceId>,
    pub definition: DefinitionId,
    pub representation: RepresentationId,
    pub placement: Option<Placement>,
}

/// What the caller of an expansion step does next: check that the world map of
/// the instance just taken is invertible; compose the placement of a child with
/// its parent's world map; or nothing, the expansion being complete.
#[derive(Debug, Clone, Copy, PartialEq, Eq)]
pub enum Action {
    CheckWorld(Planned),
    Compose(Planned),
    Done,
}

#[derive(Debug, Clone, Copy, PartialEq, Eq)]
enum Phase {
    Ready,
    AwaitWorld,
    AwaitCompose,
    Finished,
}

/// The push-down and pop order of an explicit, bounded expansion of a
/// definition DAG. Representation alternatives are never guessed: a root
/// representation is selected and occurrences are disambiguated by selected
/// relationships where needed. A missing placement is not the identity.
pub struct Expansion<'m> {
    model: &'m Model,
    limits: ExpansionLimits,
    work: Budget,
    children: BTreeMap<u64, Vec<usize>>,
    placements: BTreeMap<u64, Vec<u64>>,
    selections: BTreeMap<u64, u64>,
    relationships: BTreeMap<u64, usize>,
    resolved: BTreeMap<u64, usize>,
    associated: BTreeMap<u64, Vec<u64>>,
    stack: Vec<(Planned, usize)>,
    out: Vec<Planned>,
    phase: Phase,
    current: Planned,
    depth: usize,
    index: usize,
    frame: Vec<u64>,
    kids: Vec<usize>,
    cursor: usize,
    child: Planned,
}


impl Model {
    /// The representation set of definition `d`, if it has one.
    fn representation_set(&self, d: u64) -> (r: Option<&Vec<u64>>)
        ensures
            match r {
                Some(v) => self.representation_sets().contains_key(d) && *v == self.representation_sets()[d],
                None => !self.representation_sets().contains_key(d),
            },
    {
        self.definition_reps.get(&d)
    }
}

/// `set` holds `x`, if there is a set.
fn has_in(set: Option<&Vec<u64>>, x: u64) -> (r: bool)
    ensures
        r == (set is Some && set->Some_0@.contains(x)),
{
    match set {
        Some(v) => contains_u64(v, x),
        None => false,
    }
}

/// Appends `x` to the list stored under `key`, creating it if absent.
/// How many of `items` are children of instance `k` through occurrence `oid`.
pub open spec fn child_count(items: Seq<Planned>, k: usize, oid: OccurrenceId) -> nat
    decreases items.len(),
{
    if items.len() == 0 {
        0
    } else {
        child_count(items.drop_last(), k, oid) + if items.last().parent == Some(k) && items.last().occurrence
            == Some(oid) {
            1nat
        } else {
            0nat
        }
    }
}

/// Every occurrence of a component under the definition of a planned instance
/// is expanded exactly once, as a child of that instance.
pub open spec fn plan_complete(p: Parts, plan: Seq<Planned>) -> bool {
    forall|k: int, o: int|
        #![trigger plan[k], p.occurrences@[o]]
        0 <= k < plan.len() && 0 <= o < p.occurrences@.len() && p.occurrences@[o].parent == plan[k].definition
            ==> child_count(plan, k as usize, p.occurrences@[o].id) == 1
}

proof fn lemma_child_count_push(s: Seq<Planned>, x: Planned, k: usize, oid: OccurrenceId)
    ensures
        child_count(s.push(x), k, oid) == child_count(s, k, oid) + if x.parent == Some(k) && x.occurrence
            == Some(oid) {
            1nat
        } else {
            0nat
        },
{
    assert(s.push(x).drop_last() =~= s);
}

proof fn lemma_child_count_concat(a: Seq<Planned>, b: Seq<Planned>, k: usize, oid: OccurrenceId)
    ensures
        child_count(a + b, k, oid) == child_count(a, k, oid) + child_count(b, k, oid),
    decreases b.len(),
{
    if b.len() == 0 {
        assert(a + b =~= a);
    } else {
        assert((a + b).drop_last() =~= a + b.drop_last());
        lemma_child_count_concat(a, b.drop_last(), k, oid);
    }
}

proof fn lemma_child_count3(a: Seq<Planned>, b: Seq<Planned>, c: Seq<Planned>, k: usize, oid: OccurrenceId)
    ensures
        child_count(a + b + c, k, oid) == child_count(a, k, oid) + child_count(b, k, oid) + child_count(c, k, oid),
{
    lemma_child_count_concat(a + b, c, k, oid);
    lemma_child_count_concat(a, b, k, oid);
}

proof fn lemma_child_count_small(x: Planned, y: Planned, k: usize, oid: OccurrenceId)
    ensures
        child_count(Seq::<Planned>::empty(), k, oid) == 0,
        child_count(seq![x], k, oid) == if x.parent == Some(k) && x.occurrence == Some(oid) {
            1nat
        } else {
            0nat
        },
        child_count(seq![x, y], k, oid) == child_count(seq![x], k, oid) + if y.parent == Some(k)
            && y.occurrence == Some(oid) {
            1nat
        } else {
            0nat
        },
{
    assert(seq![x].drop_last() =~= Seq::<Planned>::empty());
    assert(seq![x, y].drop_last() =~= seq![x]);
}

/// Items none of which has `k` as parent have no children of `k`.
proof fn lemma_child_count_none(s: Seq<Planned>, k: usize, oid: OccurrenceId)
    requires
        forall|i: int| 0 <= i < s.len() ==> (#[trigger] s[i]).parent != Some(k),
    ensures
        child_count(s, k, oid) == 0,
    decreases s.len(),
{
    if s.len() > 0 {
        lemma_child_count_none(s.drop_last(), k, oid);
    }
}

/// Each entry is smaller than the ones after it.
spec fn strictly_increasing(s: Seq<usize>) -> bool {
    forall|a: int, b: int| 0 <= a < b < s.len() ==> s[a] < s[b]
}

fn append_to<T>(map: &mut BTreeMap<u64, Vec<T>>, key: u64, x: T)
    ensures
        final(map)@.dom() == old(map)@.dom().insert(key),
        forall|k: u64| k != key && #[trigger] old(map)@.contains_key(k) ==> final(map)@[k] == old(map)@[k],
        final(map)@[key]@ == (if old(map)@.contains_key(key) {
            old(map)@[key]@
        } else {
            Seq::empty()
        }).push(x),
{
    let mut list = match map.remove(&key) {
        Some(v) => v,
        None => Vec::new(),
    };
    list.push(x);
    map.insert(key, list);
    proof {
        assert(final(map)@.dom() =~= old(map)@.dom().insert(key));
    }
}

/// Some placement of occurrence `o` uses relationship `rel`.
pub open spec fn placement_listed(parts: Parts, o: u64, rel: u64) -> bool {
    exists|k: int|
        0 <= k < parts.placements@.len() && (#[trigger] parts.placements@[k]).occurrence.0 == o
            && parts.placements@[k].relationship.0 == rel
}

/// Each selection names an occurrence and one of its placements.
pub open spec fn selections_ok(parts: Parts, selections: Seq<(OccurrenceId, RelationshipId)>) -> bool {
    forall|i: int|
        0 <= i < selections.len() ==> has_key(parts.occurrences@, (#[trigger] selections[i]).0.0)
            && placement_listed(parts, selections[i].0.0, selections[i].1.0)
}

/// Steps of work that starting an expansion takes: one per occurrence,
/// relationship, resolved relationship, representation and placement while
/// indexing, two per selection, and one per association.
pub open spec fn start_cost(parts: Parts, selections: nat) -> int {
    (2 * parts.occurrences@.len() + parts.relationships@.len() + parts.relationship_transforms@.len()
        + parts.representations@.len() + parts.placements@.len() + 2 * selections
        + parts.associations@.len()) as int
}

impl<'m> Expansion<'m> {
    /// The tables agree with the model's checked parts.
    spec fn base(self) -> bool {
        let parts = self.model.spec_parts();
        &&& valid_parts(parts)
        &&& indexes(self.relationships@, parts.relationships@)
        &&& indexes(self.resolved@, parts.relationship_transforms@)
        &&& forall|k: u64|
            #[trigger] self.children@.contains_key(k) ==> forall|j: int|
                0 <= j < self.children@[k]@.len() ==> (#[trigger] self.children@[k]@[j])
                    < parts.occurrences@.len() && parts.occurrences@[self.children@[k]@[j] as int].parent.0
                    == k
        &&& forall|k: u64|
            #[trigger] self.placements@.contains_key(k) ==> forall|j: int|
                0 <= j < self.placements@[k]@.len() ==> self.relationships@.contains_key(
                    #[trigger] self.placements@[k]@[j],
                )
        &&& forall|j: int| 0 <= j < self.kids@.len() ==> (#[trigger] self.kids@[j]) < parts.occurrences@.len()
        &&& self.cursor <= self.kids@.len()
        &&& forall|o: int|
            0 <= o < parts.occurrences@.len() ==> self.children@.contains_key(
                (#[trigger] parts.occurrences@[o]).parent.0,
            ) && self.children@[parts.occurrences@[o].parent.0]@.contains(o as usize)
        &&& forall|k: u64| #[trigger] self.children@.contains_key(k) ==> strictly_increasing(self.children@[k]@)
        &&& strictly_increasing(self.kids@)
    }

    /// `e` is placed under an instance already expanded.
    spec fn settled(self, e: Planned) -> bool {
        let parts = self.model.spec_parts();
        let sets = self.model.representation_sets();
        &&& sets.contains_key(e.definition.0) && sets[e.definition.0]@.contains(e.representation.0)
        &&& match e.parent {
            None => e.occurrence is None && e.placement is None,
            Some(pi) => pi < self.out@.len() && e.placement is Some && (e.occurrence matches Some(o)
                && occurrence_links(parts, o, self.out@[pi as int].definition, e.definition)),
        }
    }

    /// `e` is placed under the instance being expanded.
    spec fn child_of_current(self, e: Planned) -> bool {
        let parts = self.model.spec_parts();
        let sets = self.model.representation_sets();
        &&& sets.contains_key(e.definition.0) && sets[e.definition.0]@.contains(e.representation.0)
        &&& e.parent == Some(self.index)
        &&& e.placement is Some
        &&& e.occurrence matches Some(o) && occurrence_links(parts, o, self.current.definition, e.definition)
    }

    /// The children of the instance being expanded are being placed.
    spec fn iterating(self) -> bool {
        let parts = self.model.spec_parts();
        &&& self.base()
        &&& plan_ok(parts, self.model.representation_sets(), self.out@)
        &&& self.settled(self.current)
        &&& self.index == self.out@.len()
        &&& forall|j: int|
            0 <= j < self.kids@.len() ==> parts.occurrences@[(#[trigger] self.kids@[j]) as int].parent
                == self.current.definition
        &&& forall|o: int|
            0 <= o < parts.occurrences@.len() && (#[trigger] parts.occurrences@[o]).parent
                == self.current.definition ==> self.kids@.contains(o as usize)
        &&& forall|j: int|
            0 <= j < self.stack@.len() ==> self.settled((#[trigger] self.stack@[j]).0)
                || self.child_of_current(self.stack@[j].0)
    }

    /// The instances taken but not yet expanded: the current one while its
    /// world map or a child's placement is awaited, and that child.
    spec fn in_hand(self) -> Seq<Planned> {
        if self.phase == Phase::AwaitWorld {
            seq![self.current]
        } else if self.phase == Phase::AwaitCompose {
            seq![self.current, self.child]
        } else {
            Seq::empty()
        }
    }

    /// Every instance of the expansion so far: expanded, in hand or pending.
    spec fn population(self) -> Seq<Planned> {
        self.out@ + self.in_hand() + self.pending()
    }

    /// Every occurrence under an expanded instance's definition has exactly one
    /// instance among all; under the current instance, exactly those already
    /// placed; a finished expansion has nothing pending.
    spec fn ledger(self) -> bool {
        let parts = self.model.spec_parts();
        let pop = self.population();
        &&& forall|k: int, o: int|
            #![trigger self.out@[k], parts.occurrences@[o]]
            0 <= k < self.out@.len() && 0 <= o < parts.occurrences@.len() && parts.occurrences@[o].parent
                == self.out@[k].definition ==> child_count(pop, k as usize, parts.occurrences@[o].id) == 1
        &&& self.phase == Phase::AwaitCompose ==> forall|o: int|
            0 <= o < parts.occurrences@.len() && (#[trigger] parts.occurrences@[o]).parent
                == self.current.definition ==> child_count(pop, self.index, parts.occurrences@[o].id) == if self.kids@.subrange(
                self.cursor as int,
                self.kids@.len() as int,
            ).contains(o as usize) {
                1nat
            } else {
                0nat
            }
        &&& self.phase == Phase::Finished ==> self.stack@.len() == 0
    }

    /// The ledger before the next child of the current instance is placed,
    /// with the current instance in hand and its placed children pending.
    spec fn advancing(self) -> bool {
        let parts = self.model.spec_parts();
        let q = self.out@ + seq![self.current] + self.pending();
        &&& forall|k: int, o: int|
            #![trigger self.out@[k], parts.occurrences@[o]]
            0 <= k < self.out@.len() && 0 <= o < parts.occurrences@.len() && parts.occurrences@[o].parent
                == self.out@[k].definition ==> child_count(q, k as usize, parts.occurrences@[o].id) == 1
        &&& forall|o: int|
            0 <= o < parts.occurrences@.len() && (#[trigger] parts.occurrences@[o]).parent
                == self.current.definition ==> child_count(q, self.index, parts.occurrences@[o].id) == if self.kids@.subrange(
                self.cursor as int,
                self.kids@.len() as int,
            ).contains(o as usize) {
                1nat
            } else {
                0nat
            }
    }

    /// The tables agree with the model, every expanded instance is placed, and
    /// every pending instance will be.
    pub closed spec fn wf(self) -> bool {
        &&& self.ledger()
        &&& self.base()
        &&& plan_ok(self.model.spec_parts(), self.model.representation_sets(), self.out@)
        &&& match self.phase {
            Phase::AwaitCompose => self.iterating() && self.child_of_current(self.child),
            Phase::AwaitWorld => self.settled(self.current) && forall|j: int|
                0 <= j < self.stack@.len() ==> self.settled((#[trigger] self.stack@[j]).0),
            _ => forall|j: int| 0 <= j < self.stack@.len() ==> self.settled((#[trigger] self.stack@[j]).0),
        }
    }

    /// The model being expanded.
    pub closed spec fn spec_model(self) -> &'m Model {
        self.model
    }

    /// The instances expanded so far, each after its parent.
    pub closed spec fn plan(self) -> Seq<Planned> {
        self.out@
    }

    /// The instances waiting to be taken, the last one first.
    pub closed spec fn pending(self) -> Seq<Planned> {
        self.stack@.map_values(|e: (Planned, usize)| e.0)
    }

    /// Steps of work still allowed.
    pub closed spec fn work_left(self) -> nat {
        self.work.0 as nat
    }

    /// The limits the expansion was started with.
    pub closed spec fn spec_limits(self) -> ExpansionLimits {
        self.limits
    }

    /// The depth at which each pending instance will be expanded.
    pub closed spec fn pending_depths(self) -> Seq<usize> {
        self.stack@.map_values(|e: (Planned, usize)| e.1)
    }

    /// The expansion is complete and yields nothing more.
    pub closed spec fn is_finished(self) -> bool {
        self.phase == Phase::Finished
    }

    /// The next step takes a pending instance.
    pub closed spec fn is_ready(self) -> bool {
        self.phase == Phase::Ready
    }

    /// The last action asked the caller for an outcome.
    pub closed spec fn is_awaiting(self) -> bool {
        self.phase == Phase::AwaitWorld || self.phase == Phase::AwaitCompose
    }

    proof fn lemma_settled_grow(a: Self, b: Self, e: Planned)
        requires
            a.model == b.model,
            b.out@ == a.out@.push(a.current),
            a.settled(e) || (a.child_of_current(e) && a.index == a.out@.len()),
        ensures
            b.settled(e),
    {
        if a.settled(e) {
            if let Some(pi) = e.parent {
                assert(b.out@[pi as int] == a.out@[pi as int]);
            }
        } else {
            assert(b.out@[a.index as int] == a.current);
        }
    }

    proof fn lemma_plan_grow(a: Self, b: Self)
        requires
            a.model == b.model,
            b.out@ == a.out@.push(a.current),
            plan_ok(a.model.spec_parts(), a.model.representation_sets(), a.out@),
            a.settled(a.current),
        ensures
            plan_ok(b.model.spec_parts(), b.model.representation_sets(), b.out@),
    {
        let parts = a.model.spec_parts();
        let sets = a.model.representation_sets();
        assert forall|k: int| 0 <= k < b.out@.len() implies #[trigger] placed_in(parts, sets, b.out@, k) by {
            if k < a.out@.len() {
                assert(placed_in(parts, sets, a.out@, k));
                assert(b.out@[k] == a.out@[k]);
                if let Some(pi) = a.out@[k].parent {
                    assert(b.out@[pi as int] == a.out@[pi as int]);
                }
            } else {
                assert(b.out@[k] == a.current);
                if let Some(pi) = a.current.parent {
                    assert(b.out@[pi as int] == a.out@[pi as int]);
                }
            }
        }
    }

    /// Prepares the expansion of `root` in `representation`, a representation of
    /// the root definition. `selections` holds the chosen relationship of
    /// occurrences with several placements, in ascending occurrence order; each
    /// must be one of its occurrence's placements.
    pub fn start(
        model: &'m Model,
        root: DefinitionId,
        representation: RepresentationId,
        selections: &[(OccurrenceId, RelationshipId)],
        limits: ExpansionLimits,
    ) -> (r: Result<Self, Error>)
        ensures
            r matches Ok(e) ==> e.wf(),
            r is Ok ==> represents(model.spec_parts(), root.0, representation.0),
            !represents(model.spec_parts(), root.0, representation.0) ==> r == Err::<Self, Error>(
                Error::MissingLink,
            ),
            represents(model.spec_parts(), root.0, representation.0) && selections_ok(
                model.spec_parts(),
                selections@,
            ) && limits.max_work >= start_cost(model.spec_parts(), selections@.len()) ==> r is Ok,
    {
        proof {
            use_type_invariant(model);
        }
        let ghost enough = selections_ok(model.spec_parts(), selections@) && limits.max_work >= start_cost(
            model.spec_parts(),
            selections@.len(),
        );
        let ghost total = start_cost(model.spec_parts(), selections@.len());
        if !has_in(model.representation_set(root.0), representation.0) {
            return Err(Error::MissingLink);
        }
        proof {
            assert(model.definition_reps@[root.0]@.contains(representation.0));
            assert(represents(model.parts, root.0, representation.0));
        }
        let parts = &model.parts;
        let mut work = Budget(limits.max_work);
        let mut children: BTreeMap<u64, Vec<usize>> = BTreeMap::new();
        let mut i: usize = 0;
        while i < parts.occurrences.len()
            invariant
                represents(model.parts, root.0, representation.0),
                i <= parts.occurrences@.len(),
                *parts == model.spec_parts(),
                work.0 == limits.max_work - i,
                enough ==> limits.max_work >= total,
                total == start_cost(model.spec_parts(), selections@.len()),
                forall|k: u64|
                    #[trigger] children@.contains_key(k) ==> forall|j: int|
                        0 <= j < children@[k]@.len() ==> (#[trigger] children@[k]@[j])
                            < parts.occurrences@.len() && parts.occurrences@[children@[k]@[j] as int].parent.0
                            == k,
                forall|k: u64|
                    #[trigger] children@.contains_key(k) ==> forall|j: int|
                        0 <= j < children@[k]@.len() ==> (#[trigger] children@[k]@[j]) < i,
                forall|k: u64| #[trigger] children@.contains_key(k) ==> strictly_increasing(children@[k]@),
                forall|o: int|
                    0 <= o < i ==> children@.contains_key((#[trigger] parts.occurrences@[o]).parent.0)
                        && children@[parts.occurrences@[o].parent.0]@.contains(o as usize),
            decreases parts.occurrences@.len() - i,
        {
            work.tick()?;
            let key = parts.occurrences[i].parent.0;
            let ghost before = children@;
            append_to(&mut children, key, i);
            proof {
                assert forall|k: u64| #[trigger] children@.contains_key(k) implies forall|j: int|
                    0 <= j < children@[k]@.len() ==> (#[trigger] children@[k]@[j])
                        < parts.occurrences@.len() && parts.occurrences@[children@[k]@[j] as int].parent.0
                        == k by {
                    if k != key {
                        assert(children@[k] == before[k]);
                    } else {
                        assert forall|j: int| 0 <= j < children@[k]@.len() implies (#[trigger] children@[k]@[j])
                            < parts.occurrences@.len() && parts.occurrences@[children@[k]@[j] as int].parent.0
                            == k by {
                            if j < children@[k]@.len() - 1 {
                                assert(children@[k]@[j] == before[k]@[j]);
                            }
                        }
                    }
                }
                assert forall|k: u64| #[trigger] children@.contains_key(k) implies (forall|j: int|
                    0 <= j < children@[k]@.len() ==> (#[trigger] children@[k]@[j]) < i + 1) && strictly_increasing(
                    children@[k]@,
                ) by {
                    if k != key {
                        assert(children@[k] == before[k]);
                    } else {
                        let last = children@[k]@.len() - 1;
                        assert forall|j: int| 0 <= j < children@[k]@.len() implies (#[trigger] children@[k]@[j]) < i + 1 by {
                            if j < last {
                                assert(children@[k]@[j] == before[k]@[j]);
                            }
                        }
                        assert forall|a: int, b: int| 0 <= a < b < children@[k]@.len() implies children@[k]@[a]
                            < children@[k]@[b] by {
                            assert(children@[k]@[a] == before[k]@[a]);
                            if b < last {
                                assert(children@[k]@[b] == before[k]@[b]);
                            }
                        }
                    }
                }
                assert forall|o: int|
                    0 <= o < i + 1 implies children@.contains_key((#[trigger] parts.occurrences@[o]).parent.0)
                        && children@[parts.occurrences@[o].parent.0]@.contains(o as usize) by {
                    let ko = parts.occurrences@[o].parent.0;
                    if o == i {
                        assert(children@[key]@[children@[key]@.len() - 1] == i);
                    } else if ko != key {
                        assert(children@[ko] == before[ko]);
                    } else {
                        let m = choose|m: int| 0 <= m < before[ko]@.len() && before[ko]@[m] == o as usize;
                        assert(children@[ko]@[m] == o as usize);
                    }
                }
            }
            i += 1;
        }
        let relationships = index(parts.relationships.as_slice(), &mut work)?;
        let resolved = index(parts.relationship_transforms.as_slice(), &mut work)?;
        let representations = index(parts.representations.as_slice(), &mut work)?;
        let occurrences = index(parts.occurrences.as_slice(), &mut work)?;
        let ghost used0 = 2 * parts.occurrences@.len() + parts.relationships@.len()
            + parts.relationship_transforms@.len() + parts.representations@.len();
        let mut placements: BTreeMap<u64, Vec<u64>> = BTreeMap::new();
        let mut i: usize = 0;
        while i < parts.placements.len()
            invariant
                represents(model.parts, root.0, representation.0),
                i <= parts.placements@.len(),
                valid_parts(*parts),
                indexes(relationships@, parts.relationships@),
                *parts == model.spec_parts(),
                work.0 == limits.max_work - used0 - i,
                enough ==> limits.max_work >= total,
                total == start_cost(model.spec_parts(), selections@.len()),
                used0 + parts.placements@.len() + 2 * selections@.len() + parts.associations@.len() == total,
                forall|k: int|
                    0 <= k < i ==> placements@.contains_key((#[trigger] parts.placements@[k]).occurrence.0)
                        && placements@[parts.placements@[k].occurrence.0]@.contains(
                        parts.placements@[k].relationship.0,
                    ),
                forall|k: u64|
                    #[trigger] placements@.contains_key(k) ==> forall|j: int|
                        0 <= j < placements@[k]@.len() ==> relationships@.contains_key(
                            #[trigger] placements@[k]@[j],
                        ),
            decreases parts.placements@.len() - i,
        {
            work.tick()?;
            let placement = &parts.placements[i];
            proof {
                assert(has_key(parts.relationships@, parts.placements@[i as int].relationship.0));
                lemma_indexes_has_key(relationships@, parts.relationships@, placement.relationship.0);
            }
            let ghost before = placements@;
            append_to(&mut placements, placement.occurrence.0, placement.relationship.0);
            proof {
                let o = placement.occurrence.0;
                let n0 = if before.contains_key(o) { before[o]@.len() as int } else { 0 };
                assert(placements@[o]@[n0] == placement.relationship.0);
                assert forall|k: int|
                    0 <= k < i + 1 implies placements@.contains_key((#[trigger] parts.placements@[k]).occurrence.0)
                        && placements@[parts.placements@[k].occurrence.0]@.contains(
                        parts.placements@[k].relationship.0,
                    ) by {
                    if k < i {
                        let ok = parts.placements@[k].occurrence.0;
                        let x = parts.placements@[k].relationship.0;
                        let m = choose|m: int| 0 <= m < before[ok]@.len() && before[ok]@[m] == x;
                        if ok == o {
                            assert(placements@[ok]@[m] == x);
                        } else {
                            assert(placements@[ok] == before[ok]);
                        }
                    }
                }
            }
            i += 1;
        }
        let mut chosen: BTreeMap<u64, u64> = BTreeMap::new();
        let mut i: usize = 0;
        while i < selections.len()
            invariant
                represents(model.parts, root.0, representation.0),
                i <= selections@.len(),
                *parts == model.spec_parts(),
                indexes(occurrences@, parts.occurrences@),
                work.0 == limits.max_work - used0 - parts.placements@.len() - 2 * i,
                enough ==> limits.max_work >= total,
                enough == (selections_ok(model.spec_parts(), selections@) && limits.max_work >= start_cost(
                    model.spec_parts(),
                    selections@.len(),
                )),
                total == start_cost(model.spec_parts(), selections@.len()),
                enough ==> selections_ok(*parts, selections@),
                used0 + parts.placements@.len() + 2 * selections@.len() + parts.associations@.len() == total,
                forall|k: int|
                    0 <= k < parts.placements@.len() ==> placements@.contains_key(
                        (#[trigger] parts.placements@[k]).occurrence.0,
                    ) && placements@[parts.placements@[k].occurrence.0]@.contains(
                        parts.placements@[k].relationship.0,
                    ),
            decreases selections@.len() - i,
        {
            let (id, relationship) = selections[i];
            proof {
                if enough {
                    assert(has_key(parts.occurrences@, selections@[i as int].0.0));
                    lemma_indexes_has_key(occurrences@, parts.occurrences@, id.0);
                }
            }
            work.link(&occurrences, id.0)?;
            work.tick()?;
            let listed = match placements.get(&id.0) {
                Some(v) => contains_u64(v, relationship.0),
                None => false,
            };
            if !listed {
                proof {
                    if enough {
                        assert(placement_listed(*parts, id.0, relationship.0));
                        let k = choose|k: int|
                            0 <= k < parts.placements@.len() && (#[trigger] parts.placements@[k]).occurrence.0 == id.0
                                && parts.placements@[k].relationship.0 == relationship.0;
                        assert(placements@.contains_key(parts.placements@[k].occurrence.0));
                    }
                }
                return Err(Error::MissingLink);
            }
            chosen.insert(id.0, relationship.0);
            i += 1;
        }
        let mut associated: BTreeMap<u64, Vec<u64>> = BTreeMap::new();
        let mut i: usize = 0;
        while i < parts.associations.len()
            invariant
                represents(model.parts, root.0, representation.0),
                i <= parts.associations@.len(),
                work.0 == limits.max_work - used0 - parts.placements@.len() - 2 * selections@.len() - i,
                enough ==> limits.max_work >= total,
                enough == (selections_ok(model.spec_parts(), selections@) && limits.max_work >= start_cost(
                    model.spec_parts(),
                    selections@.len(),
                )),
                total == start_cost(model.spec_parts(), selections@.len()),
                used0 + parts.placements@.len() + 2 * selections@.len() + parts.associations@.len() == total,
                valid_parts(*parts),
                indexes(relationships@, parts.relationships@),
                indexes(representations@, parts.representations@),
            decreases parts.associations@.len() - i,
        {
            work.tick()?;
            let id = parts.associations[i];
            proof {
                assert(has_key(parts.relationships@, parts.associations@[i as int].0));
                lemma_indexes_has_key(relationships@, parts.relationships@, id.0);
            }
            let relationship = &parts.relationships[position(&relationships, id.0)];
            proof {
                let at = relationships@[id.0] as int;
                assert(has_key(parts.representations@, parts.relationships@[at].rep_1.0));
                assert(has_key(parts.representations@, parts.relationships@[at].rep_2.0));
                lemma_indexes_has_key(representations@, parts.representations@, relationship.rep_1.0);
                lemma_indexes_has_key(representations@, parts.representations@, relationship.rep_2.0);
            }
            let first = parts.representations[position(&representations, relationship.rep_1.0)].context;
            let second = parts.representations[position(&representations, relationship.rep_2.0)].context;
            // Ownership association is broader than a known common coordinate frame.
            if first == second {
                append_to(&mut associated, relationship.rep_1.0, relationship.rep_2.0);
                append_to(&mut associated, relationship.rep_2.0, relationship.rep_1.0);
            }
            i += 1;
        }
        let top = Planned {
            parent: None,
            occurrence: None,
            definition: root,
            representation,
            placement: None,
        };
        let mut stack: Vec<(Planned, usize)> = Vec::new();
        stack.push((top, 1));
        Ok(
            Expansion {
                model,
                limits,
                work,
                children,
                placements,
                selections: chosen,
                relationships,
                resolved,
                associated,
                stack,
                out: Vec::new(),
                phase: Phase::Ready,
                current: top,
                depth: 1,
                index: 0,
                frame: Vec::new(),
                kids: Vec::new(),
                cursor: 0,
                child: top,
            },
        )
    }
}


impl<'m> Expansion<'m> {
    /// Takes the next pending instance, if any.
    fn take(&mut self) -> (r: Result<Action, Error>)
        requires
            old(self).wf(),
            old(self).phase == Phase::Ready,
        ensures
            r is Ok ==> final(self).wf(),
            final(self).model == old(self).model,
            final(self).out@ == old(self).out@,
            !(r matches Ok(Action::Compose(_))),
            old(self).stack@.len() == 0 ==> r == Ok::<Action, Error>(Action::Done) && final(self).phase
                == Phase::Finished,
            old(self).stack@.len() > 0 ==> {
                let top = old(self).stack@.last();
                &&& final(self).stack@ == old(self).stack@.drop_last()
                &&& r is Err <==> old(self).work.0 == 0 || old(self).out@.len() >= old(self).limits.max_instances
                    || top.1 > old(self).limits.max_depth
                &&& r is Ok ==> r == Ok::<Action, Error>(Action::CheckWorld(top.0)) && final(self).phase
                    == Phase::AwaitWorld && final(self).current == top.0 && final(self).depth == top.1
            },
            r matches Err(e) ==> e == Error::ResourceLimit,
    {
        let ghost pop0 = self.population();
        let ghost pend0 = self.pending();
        if self.stack.len() == 0 {
            self.phase = Phase::Finished;
            proof {
                assert(self.population() =~= pop0);
            }
            return Ok(Action::Done);
        }
        proof {
            assert(self.settled(self.stack@[self.stack@.len() - 1].0));
        }
        let ghost before = self.stack@;
        let (instance, depth) = self.stack.pop().unwrap();
        proof {
            assert forall|j: int| 0 <= j < self.stack@.len() implies self.settled(
                (#[trigger] self.stack@[j]).0,
            ) by {
                assert(self.stack@[j] == before[j]);
            }
        }
        self.work.tick()?;
        if self.out.len() >= self.limits.max_instances || depth > self.limits.max_depth {
            return Err(Error::ResourceLimit);
        }
        self.current = instance;
        self.depth = depth;
        self.phase = Phase::AwaitWorld;
        proof {
            let pend1 = self.pending();
            assert(pend1 =~= pend0.drop_last());
            assert(pend0 =~= pend1.push(instance));
            assert(self.in_hand() == seq![instance]);
            assert forall|k: usize, oid: OccurrenceId| child_count(self.population(), k, oid) == child_count(
                pop0,
                k,
                oid,
            ) by {
                lemma_child_count3(self.out@, seq![instance], pend1, k, oid);
                lemma_child_count3(self.out@, Seq::<Planned>::empty(), pend0, k, oid);
                lemma_child_count_small(instance, instance, k, oid);
                lemma_child_count_push(pend1, instance, k, oid);
            }
        }
        Ok(Action::CheckWorld(instance))
    }

    /// Places the next child of the current instance, or completes the current
    /// instance and takes the next pending one.
    #[verifier::spinoff_prover]
    #[verifier::rlimit(60)]
    fn advance(&mut self) -> (r: Result<Action, Error>)
        requires
            old(self).iterating(),
            old(self).advancing(),
        ensures
            r is Ok ==> final(self).wf(),
            final(self).model == old(self).model,
            r matches Ok(Action::Compose(c)) ==> c == final(self).child && final(self).phase
                == Phase::AwaitCompose,
            r == Ok::<Action, Error>(Action::Done) ==> final(self).phase == Phase::Finished,
            old(self).cursor == 0 ==> final(self).out@ == old(self).out@.push(old(self).current),
            old(self).cursor == 0 && old(self).stack@.len() == 0 ==> r == Ok::<Action, Error>(Action::Done),
            old(self).cursor > 0 ==> final(self).out@ == old(self).out@,
            old(self).cursor > 0 && r is Ok ==> {
                let o = old(self).model.spec_parts().occurrences@[old(self).kids@[old(self).cursor - 1] as int];
                &&& final(self).cursor == old(self).cursor - 1
                &&& r matches Ok(Action::Compose(c)) && c.parent == Some(old(self).index) && c.occurrence
                    == Some(o.id) && c.definition == o.child && c.placement is Some
            },
    {
        if self.cursor == 0 {
            let ghost before = *self;
            self.out.push(self.current);
            self.phase = Phase::Ready;
            proof {
                let parts = self.model.spec_parts();
                let q = before.out@ + seq![before.current] + before.pending();
                assert(self.pending() == before.pending());
                assert forall|k: usize, oid: OccurrenceId| child_count(self.population(), k, oid) == child_count(
                    q,
                    k,
                    oid,
                ) by {
                    lemma_child_count3(self.out@, Seq::<Planned>::empty(), self.pending(), k, oid);
                    lemma_child_count3(before.out@, seq![before.current], before.pending(), k, oid);
                    lemma_child_count_small(before.current, before.current, k, oid);
                    lemma_child_count_push(before.out@, before.current, k, oid);
                }
                assert(before.kids@.subrange(0, before.kids@.len() as int) =~= before.kids@);
                assert forall|k: int, o: int|
                    #![trigger self.out@[k], parts.occurrences@[o]]
                    0 <= k < self.out@.len() && 0 <= o < parts.occurrences@.len() && parts.occurrences@[o].parent
                        == self.out@[k].definition implies child_count(
                    self.population(),
                    k as usize,
                    parts.occurrences@[o].id,
                ) == 1 by {
                    if k < before.out@.len() {
                        assert(self.out@[k] == before.out@[k]);
                        assert(before.out@[k] == before.out@[k]);
                    } else {
                        assert(self.out@[k] == before.current);
                        assert(before.kids@.contains(o as usize));
                    }
                }
                Self::lemma_plan_grow(before, *self);
                assert forall|j: int| 0 <= j < self.stack@.len() implies self.settled(
                    (#[trigger] self.stack@[j]).0,
                ) by {
                    Self::lemma_settled_grow(before, *self, self.stack@[j].0);
                }
            }
            return self.take();
        }
        self.cursor = self.cursor - 1;
        let model = self.model;
        proof {
            use_type_invariant(model);
        }
        let at = self.kids[self.cursor];
        let occurrence_count = model.parts.occurrences.len();
        let occurrence = &model.parts.occurrences[at];
        self.work.tick()?;
        let candidates = match self.placements.get(&occurrence.id.0) {
            Some(v) => v,
            None => {
                return Err(Error::MissingPlacement);
            },
        };
        let selected = self.selections.get(&occurrence.id.0);
        let mut choice: Option<(RepresentationId, Placement)> = None;
        let mut k: usize = 0;
        while k < candidates.len()
            invariant
                k <= candidates@.len(),
                self.iterating(),
                self.out@ == old(self).out@,
                self.stack@ == old(self).stack@,
                self.current == old(self).current,
                old(self).cursor > 0,
                self.cursor == old(self).cursor - 1,
                self.kids@ == old(self).kids@,
                self.index == old(self).index,
                self.model == model,
                model == old(self).model,
                self.cursor < self.kids@.len(),
                self.kids@[self.cursor as int] == at,
                self.placements@.contains_key(occurrence.id.0),
                *candidates == self.placements@[occurrence.id.0],
                at < model.spec_parts().occurrences@.len(),
                *occurrence == model.spec_parts().occurrences@[at as int],
                choice matches Some((rep, placement)) ==> model.representation_sets().contains_key(
                    occurrence.child.0,
                ) && model.representation_sets()[occurrence.child.0]@.contains(rep.0),
            decreases candidates@.len() - k,
        {
            self.work.tick()?;
            let id = candidates[k];
            k += 1;
            if let Some(s) = selected {
                if *s != id {
                    continue;
                }
            }
            let relationship = &model.parts.relationships[position(&self.relationships, id)];
            let child_reps = match model.representation_set(occurrence.child.0) {
                Some(v) => v,
                None => {
                    return Err(Error::MissingLink);
                },
            };
            let forward = contains_u64(&self.frame, relationship.rep_2.0) && contains_u64(
                child_reps,
                relationship.rep_1.0,
            );
            let reverse = contains_u64(&self.frame, relationship.rep_1.0) && contains_u64(
                child_reps,
                relationship.rep_2.0,
            );
            if forward && reverse {
                return Err(Error::AmbiguousPlacement);
            }
            if !forward && !reverse {
                continue;
            }
            if choice.is_some() {
                return Err(Error::AmbiguousPlacement);
            }
            if self.resolved.get(&id).is_none() {
                return Err(Error::MissingPlacement);
            }
            choice = if forward {
                Some((relationship.rep_1, Placement { relationship: relationship.id, reversed: false }))
            } else {
                Some((relationship.rep_2, Placement { relationship: relationship.id, reversed: true }))
            };
        }
        let (rep, placement) = match choice {
            Some(c) => c,
            None => {
                return Err(Error::MissingPlacement);
            },
        };
        if self.stack.len().saturating_add(self.out.len()).saturating_add(1) >= self.limits.max_instances {
            return Err(Error::ResourceLimit);
        }
        let child = Planned {
            parent: Some(self.index),
            occurrence: Some(occurrence.id),
            definition: occurrence.child,
            representation: rep,
            placement: Some(placement),
        };
        proof {
            assert(model.spec_parts().occurrences@[at as int].parent == self.current.definition);
            assert(occurrence_links(model.spec_parts(), occurrence.id, self.current.definition, occurrence.child));
        }
        let ghost before = *self;
        self.child = child;
        self.phase = Phase::AwaitCompose;
        proof {
            let parts = self.model.spec_parts();
            let q = old(self).out@ + seq![old(self).current] + old(self).pending();
            assert(self.pending() == old(self).pending());
            assert(self.in_hand() == seq![self.current, child]);
            assert forall|k: usize, oid: OccurrenceId| child_count(self.population(), k, oid) == child_count(
                q,
                k,
                oid,
            ) + if child.parent == Some(k) && child.occurrence == Some(oid) {
                1nat
            } else {
                0nat
            } by {
                lemma_child_count3(self.out@, seq![self.current, child], self.pending(), k, oid);
                lemma_child_count3(old(self).out@, seq![old(self).current], old(self).pending(), k, oid);
                lemma_child_count_small(self.current, child, k, oid);
            }
            let c = self.cursor as int;
            let kids = self.kids@;
            assert(parts.occurrences@.len() == occurrence_count);
            assert(kids.subrange(c, kids.len() as int) =~= seq![kids[c]] + kids.subrange(c + 1, kids.len() as int));
            assert forall|o: int|
                0 <= o < parts.occurrences@.len() && (#[trigger] parts.occurrences@[o]).parent
                    == self.current.definition implies child_count(self.population(), self.index, parts.occurrences@[o].id)
                    == if kids.subrange(c, kids.len() as int).contains(o as usize) {
                    1nat
                } else {
                    0nat
                } by {
                assert(old(self).cursor == c + 1);
                assert(old(self).kids@ == kids);
                assert(old(self).index == self.index);
                assert(old(self).current == self.current);
                assert(old(self).model.spec_parts().occurrences@[o] == parts.occurrences@[o]);
                assert(child_count(q, self.index, parts.occurrences@[o].id) == if kids.subrange(
                    c + 1,
                    kids.len() as int,
                ).contains(o as usize) {
                    1nat
                } else {
                    0nat
                });
                assert(child.occurrence == Some(parts.occurrences@[kids[c] as int].id));
                if kids[c] as int == o {
                    assert(kids.subrange(c, kids.len() as int)[0] == kids[c]);
                    if kids.subrange(c + 1, kids.len() as int).contains(o as usize) {
                        let m = choose|m: int| 0 <= m < kids.len() - (c + 1) && #[trigger] kids.subrange(c + 1, kids.len() as int)[m] == o as usize;
                        assert(kids[c + 1 + m] == kids[c]);
                    }
                    assert(!kids.subrange(c + 1, kids.len() as int).contains(o as usize));
                    assert(kids.subrange(c, kids.len() as int).contains(o as usize));
                    assert(child.parent == Some(self.index));
                    assert(child.occurrence == Some(parts.occurrences@[o].id));
                    assert(child_count(self.population(), self.index, parts.occurrences@[o].id) == child_count(
                        q,
                        self.index,
                        parts.occurrences@[o].id,
                    ) + 1);
                } else {
                    if parts.occurrences@[o].id == parts.occurrences@[kids[c] as int].id {
                        if o < kids[c] as int {
                            assert(parts.occurrences@[o].spec_key() != parts.occurrences@[kids[c] as int].spec_key());
                        } else {
                            assert(parts.occurrences@[kids[c] as int].spec_key() != parts.occurrences@[o].spec_key());
                        }
                    }
                    if kids.subrange(c, kids.len() as int).contains(o as usize) {
                        let m = choose|m: int| 0 <= m < kids.len() - c && #[trigger] kids.subrange(c, kids.len() as int)[m] == o as usize;
                        assert(m > 0);
                        assert(kids.subrange(c + 1, kids.len() as int)[m - 1] == o as usize);
                    }
                    if kids.subrange(c + 1, kids.len() as int).contains(o as usize) {
                        let m = choose|m: int| 0 <= m < kids.len() - (c + 1) && #[trigger] kids.subrange(c + 1, kids.len() as int)[m] == o as usize;
                        assert(kids.subrange(c, kids.len() as int)[m + 1] == o as usize);
                    }
                    assert(kids.subrange(c, kids.len() as int).contains(o as usize) == kids.subrange(
                        c + 1,
                        kids.len() as int,
                    ).contains(o as usize));
                    assert(child.occurrence != Some(parts.occurrences@[o].id));
                    assert(child_count(self.population(), self.index, parts.occurrences@[o].id) == child_count(
                        q,
                        self.index,
                        parts.occurrences@[o].id,
                    ));
                }
            }
        }
        Ok(Action::Compose(child))
    }

    /// Runs the expansion to its next action, given whether the previous action
    /// succeeded: whether the world map of the instance just taken is
    /// invertible, or whether the composed placement of the child exists. The
    /// first call's outcome is ignored.
    pub fn step(&mut self, outcome: bool) -> (r: Result<Action, Error>)
        requires
            old(self).wf(),
        ensures
            r is Ok ==> final(self).wf(),
            final(self).spec_model() == old(self).spec_model(),
            r matches Ok(Action::Compose(child)) ==> (child.parent matches Some(pi) && pi
                == final(self).plan().len()) && child.placement is Some,
            old(self).is_finished() ==> r == Ok::<Action, Error>(Action::Done),
            old(self).is_awaiting() && !outcome ==> r == Err::<Action, Error>(Error::InvalidTransform),
            old(self).is_ready() && old(self).pending().len() == 0 ==> r == Ok::<Action, Error>(Action::Done)
                && final(self).is_finished(),
            old(self).is_ready() && old(self).pending().len() > 0 && r is Ok ==> r == Ok::<Action, Error>(
                Action::CheckWorld(old(self).pending().last()),
            ),
            old(self).is_ready() && old(self).pending().len() > 0 ==> (r is Ok <==> old(self).work_left() > 0
                && old(self).plan().len() < old(self).spec_limits().max_instances
                && old(self).pending_depths().last() <= old(self).spec_limits().max_depth),
            final(self).plan().len() >= old(self).plan().len(),
            r == Ok::<Action, Error>(Action::Done) ==> final(self).is_finished() && plan_complete(
                final(self).spec_model().spec_parts(),
                final(self).plan(),
            ),
    {
        proof {
            use_type_invariant(self.model);
        }
        let r = self.step_once(outcome);
        proof {
            if r == Ok::<Action, Error>(Action::Done) {
                self.lemma_finished_complete();
            }
        }
        r
    }

    /// Once the expansion is finished, its plan is complete.
    proof fn lemma_finished_complete(self)
        requires
            self.wf(),
            self.phase == Phase::Finished,
        ensures
            plan_complete(self.model.spec_parts(), self.out@),
    {
        assert(self.in_hand() =~= Seq::<Planned>::empty());
        assert(self.pending() =~= Seq::<Planned>::empty());
        assert(self.population() =~= self.out@);
    }

    fn step_once(&mut self, outcome: bool) -> (r: Result<Action, Error>)
        requires
            old(self).wf(),
        ensures
            r is Ok ==> final(self).wf(),
            final(self).spec_model() == old(self).spec_model(),
            r matches Ok(Action::Compose(child)) ==> (child.parent matches Some(pi) && pi
                == final(self).plan().len()) && child.placement is Some,
            old(self).is_finished() ==> r == Ok::<Action, Error>(Action::Done),
            old(self).is_awaiting() && !outcome ==> r == Err::<Action, Error>(Error::InvalidTransform),
            old(self).is_ready() && old(self).pending().len() == 0 ==> r == Ok::<Action, Error>(Action::Done)
                && final(self).is_finished(),
            old(self).is_ready() && old(self).pending().len() > 0 && r is Ok ==> r == Ok::<Action, Error>(
                Action::CheckWorld(old(self).pending().last()),
            ),
            old(self).is_ready() && old(self).pending().len() > 0 ==> (r is Ok <==> old(self).work_left() > 0
                && old(self).plan().len() < old(self).spec_limits().max_instances
                && old(self).pending_depths().last() <= old(self).spec_limits().max_depth),
            final(self).plan().len() >= old(self).plan().len(),
            r == Ok::<Action, Error>(Action::Done) ==> final(self).is_finished(),
    {
        match self.phase {
            Phase::Finished => Ok(Action::Done),
            Phase::Ready => self.take(),
            Phase::AwaitWorld => {
                if !outcome {
                    return Err(Error::InvalidTransform);
                }
                let frame = same_frame(&mut self.work, &self.associated, self.current.representation.0)?;
                self.frame = frame;
                self.index = self.out.len();
                self.cursor = 0;
                let kids = match self.children.get(&self.current.definition.0) {
                    Some(v) => copy_indices(v),
                    None => Vec::new(),
                };
                self.kids = kids;
                self.cursor = self.kids.len();
                proof {
                    let parts = self.model.spec_parts();
                    let q = self.out@ + seq![self.current] + self.pending();
                    assert(self.in_hand() == seq![self.current]);
                    assert(q == self.population());
                    assert forall|i: int| 0 <= i < q.len() implies (#[trigger] q[i]).parent != Some(self.index) by {
                        if i < self.out@.len() {
                            assert(q[i] == self.out@[i]);
                            assert(placed_in(parts, self.model.representation_sets(), self.out@, i));
                        } else if i == self.out@.len() {
                            assert(q[i] == self.current);
                        } else {
                            let j = i - self.out@.len() - 1;
                            assert(q[i] == self.pending()[j]);
                            assert(self.settled(self.stack@[j].0));
                        }
                    }
                    assert forall|o: int|
                        0 <= o < parts.occurrences@.len() && (#[trigger] parts.occurrences@[o]).parent
                            == self.current.definition implies child_count(q, self.index, parts.occurrences@[o].id) == 0 by {
                        lemma_child_count_none(q, self.index, parts.occurrences@[o].id);
                    }
                    assert(self.kids@.subrange(self.cursor as int, self.kids@.len() as int) =~= Seq::<usize>::empty());
                }
                self.advance()
            },
            Phase::AwaitCompose => {
                if !outcome {
                    return Err(Error::InvalidTransform);
                }
                let depth = match self.depth.checked_add(1) {
                    Some(d) => d,
                    None => {
                        return Err(Error::ResourceLimit);
                    },
                };
                let ghost before = *self;
                self.stack.push((self.child, depth));
                proof {
                    assert(self.pending() =~= before.pending().push(before.child));
                    assert(before.in_hand() == seq![before.current, before.child]);
                    assert forall|k: usize, oid: OccurrenceId| child_count(
                        self.out@ + seq![self.current] + self.pending(),
                        k,
                        oid,
                    ) == child_count(before.population(), k, oid) by {
                        lemma_child_count3(self.out@, seq![self.current], self.pending(), k, oid);
                        lemma_child_count3(before.out@, seq![before.current, before.child], before.pending(), k, oid);
                        lemma_child_count_small(before.current, before.child, k, oid);
                        lemma_child_count_push(before.pending(), before.child, k, oid);
                    }
                }
                self.advance()
            },
        }
    }

    /// The expanded instances, each after its parent and placed in it.
    pub fn instances(&self) -> (r: &[Planned])
        requires
            self.wf(),
        ensures
            r@ == self.plan(),
            plan_placed(self.spec_model().spec_parts(), r@),
            self.is_finished() ==> plan_complete(self.spec_model().spec_parts(), r@),
    {
        proof {
            if self.is_finished() {
                self.lemma_finished_complete();
            }
        }
        proof {
            use_type_invariant(self.model);
            lemma_plan_placed(self.model.parts, self.model.definition_reps@, self.out@);
        }
        self.out.as_slice()
    }
}

/// The representations sharing a coordinate frame with `start` through
/// `associated`, as an ascending set.
fn same_frame(work: &mut Budget, associated: &BTreeMap<u64, Vec<u64>>, start: u64) -> (r: Result<
    Vec<u64>,
    Error,
>)
    ensures
        final(work).0 <= old(work).0,
        r matches Ok(v) ==> sorted_set(v@),
        r matches Ok(v) ==> v@.contains(start),
        r matches Ok(v) ==> forall|x: u64, j: int|
            v@.contains(x) && #[trigger] associated@.contains_key(x) && 0 <= j < associated@[x]@.len()
                ==> v@.contains(#[trigger] associated@[x]@[j]),
        r matches Err(e) ==> e == Error::ResourceLimit,
        r is Err ==> final(work).0 == 0,
{
    let mut frame: Vec<u64> = Vec::new();
    let mut search: Vec<u64> = Vec::new();
    search.push(start);
    proof {
        assert(search@[0] == start);
    }
    while search.len() > 0
        invariant
            sorted_set(frame@),
            work.0 <= old(work).0,
            frame@.contains(start) || search@.contains(start),
            forall|x: u64, j: int|
                frame@.contains(x) && #[trigger] associated@.contains_key(x) && 0 <= j < associated@[x]@.len()
                    ==> frame@.contains(#[trigger] associated@[x]@[j]) || search@.contains(associated@[x]@[j]),
        decreases work.0,
    {
        let ghost s0 = search@;
        let r = search.pop().unwrap();
        let ghost s1 = search@;
        proof {
            assert(s0 == s1.push(r));
            assert forall|y: u64| s0.contains(y) && y != r implies s1.contains(y) by {
                let m = choose|m: int| 0 <= m < s0.len() && s0[m] == y;
                assert(m < s1.len());
                assert(s1[m] == y);
            }
        }
        work.tick()?;
        let ghost w1 = work.0;
        let ghost f0 = frame@;
        if insert_sorted(&mut frame, r) {
            match associated.get(&r) {
                Some(next) => {
                    let mut k: usize = 0;
                    while k < next.len()
                        invariant
                            k <= next@.len(),
                            work.0 <= w1,
                            *next == associated@[r],
                            forall|y: u64| #[trigger] s1.contains(y) ==> search@.contains(y),
                            forall|q: int| 0 <= q < k ==> search@.contains(#[trigger] next@[q]),
                        decreases next@.len() - k,
                    {
                        work.tick()?;
                        let ghost s2 = search@;
                        search.push(next[k]);
                        proof {
                            assert(search@[search@.len() - 1] == next@[k as int]);
                            assert forall|y: u64| s2.contains(y) implies #[trigger] search@.contains(y) by {
                                let m = choose|m: int| 0 <= m < s2.len() && s2[m] == y;
                                assert(search@[m] == y);
                            }
                        }
                        k += 1;
                    }
                },
                None => {},
            }
        }
    }
    Ok(frame)
}

/// A copy of `v`.
fn copy_indices(v: &Vec<usize>) -> (r: Vec<usize>)
    ensures
        r@ == v@,
{
    let mut r: Vec<usize> = Vec::new();
    let mut i: usize = 0;
    while i < v.len()
        invariant
            i <= v@.len(),
            r@ == v@.take(i as int),
        decreases v@.len() - i,
    {
        r.push(v[i]);
        proof {
            assert(v@.take(i + 1) =~= v@.take(i as int).push(v@[i as int]));
        }
        i += 1;
    }
    proof {
        assert(v@.take(i as int) =~= v@);
    }
    r
}

} // verus!
