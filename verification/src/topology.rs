//! B-rep ownership and checked structural validity.
//!
//! The boundary representation here is its combinatorial part: handles between
//! vertices, edges, coedges, wires, faces, shells and solids. Point, curve and
//! surface geometry stays with the caller, which hands in the outcome of the
//! geometric checks of each edge and parameter curve. Validation is not proof of
//! nonintersection, volume containment or STEP conformance.
use vstd::prelude::*;

verus! {

/// A model-local vertex index, checked during validation.
#[derive(Clone, Copy, Debug, PartialEq, Eq, PartialOrd, Ord, Hash, Structural)]
pub struct VertexId(pub usize);

/// A model-local edge index, checked during validation.
#[derive(Clone, Copy, Debug, PartialEq, Eq, PartialOrd, Ord, Hash, Structural)]
pub struct EdgeId(pub usize);

/// A model-local coedge index, checked during validation.
#[derive(Clone, Copy, Debug, PartialEq, Eq, PartialOrd, Ord, Hash, Structural)]
pub struct CoedgeId(pub usize);

/// A model-local wire index, checked during validation.
#[derive(Clone, Copy, Debug, PartialEq, Eq, PartialOrd, Ord, Hash, Structural)]
pub struct WireId(pub usize);

/// A model-local face index, checked during validation.
#[derive(Clone, Copy, Debug, PartialEq, Eq, PartialOrd, Ord, Hash, Structural)]
pub struct FaceId(pub usize);

/// A model-local shell index, checked during validation.
#[derive(Clone, Copy, Debug, PartialEq, Eq, PartialOrd, Ord, Hash, Structural)]
pub struct ShellId(pub usize);

/// A model-local solid index, checked during validation.
#[derive(Clone, Copy, Debug, PartialEq, Eq, PartialOrd, Ord, Hash, Structural)]
pub struct SolidId(pub usize);

#[derive(Clone, Copy, Debug, PartialEq, Eq, Structural)]
pub enum Orientation {
    Forward,
    Reversed,
}

impl Orientation {
    pub fn is_reversed(self) -> (r: bool)
        ensures
            r == (self == Orientation::Reversed),
    {
        match self {
            Orientation::Forward => false,
            Orientation::Reversed => true,
        }
    }
}

/// An edge between two vertices; its curve and parameter range stay with the caller.
#[derive(Clone, Debug, PartialEq, Eq)]
pub struct Edge {
    pub vertices: [VertexId; 2],
}

/// A use of an edge in a wire; its parameter curve, if any, stays with the caller.
#[derive(Clone, Debug, PartialEq, Eq)]
pub struct Coedge {
    pub edge: EdgeId,
    pub orientation: Orientation,
}

#[derive(Clone, Debug, PartialEq, Eq)]
pub struct Wire {
    pub coedges: Vec<CoedgeId>,
}

/// A bounded region of a surface, which stays with the caller.
#[derive(Clone, Debug, PartialEq, Eq)]
pub struct Face {
    pub outer: WireId,
    pub holes: Vec<WireId>,
    pub orientation: Orientation,
}

#[derive(Clone, Debug, PartialEq, Eq)]
pub struct Shell {
    pub faces: Vec<FaceId>,
    pub closed: bool,
}

#[derive(Clone, Debug, PartialEq, Eq)]
pub struct Solid {
    /// One closed boundary shell. Cavity/nesting semantics are not yet implemented.
    pub shell: ShellId,
}

/// The topology of a boundary representation, as read; nothing is checked yet.
#[derive(Clone, Debug, Default, PartialEq, Eq)]
pub struct RawBrep {
    /// Number of vertices; their positions stay with the caller.
    pub vertices: usize,
    pub edges: Vec<Edge>,
    pub coedges: Vec<Coedge>,
    pub wires: Vec<Wire>,
    pub faces: Vec<Face>,
    pub shells: Vec<Shell>,
    pub solids: Vec<Solid>,
}

#[derive(Clone, Copy, Debug, PartialEq, Eq, Structural)]
pub struct ValidationLimits {
    pub max_records: usize,
    pub max_work: usize,
}

impl Default for ValidationLimits {
    fn default() -> (r: Self)
        ensures
            r.max_records == 1_000_000,
            r.max_work == 10_000_000,
    {
        ValidationLimits { max_records: 1_000_000, max_work: 10_000_000 }
    }
}

#[derive(Clone, Copy, Debug, PartialEq, Eq, Structural)]
pub enum Defect {
    ResourceLimit,
    Empty,
    InvalidHandle,
    InvalidRange,
    EndpointMismatch,
    GeometryFailure,
    BrokenWire,
    DuplicateOwnership,
    UnusedRecord,
    NonManifoldEdge,
    InconsistentOrientation,
    OpenShell,
    DisconnectedShell,
    NonManifoldVertex,
}

/// The first defect found, the kind of record it concerns and the record's index.
#[derive(Clone, Debug, PartialEq, Eq)]
pub struct Report {
    pub defect: Defect,
    pub kind: &'static str,
    pub index: usize,
}

/// Outcome of the geometric checks of an edge, made by the caller: whether its
/// parameter range is finite and increasing, and for each end, the defect found
/// evaluating the curve there and comparing with the vertex (`GeometryFailure`
/// or `EndpointMismatch`), if any.
#[derive(Clone, Copy, Debug, PartialEq, Eq)]
pub struct EdgeGeometry {
    pub range_ok: bool,
    pub endpoints: [Option<Defect>; 2],
}

fn fail(defect: Defect, kind: &'static str, index: usize) -> (r: Report)
    ensures
        r.defect == defect,
        r.kind == kind,
        r.index == index,
{
    Report { defect, kind, index }
}

/// Marks `index` as owned, refusing an invalid or already owned index.
fn own(count: &mut Vec<bool>, index: usize, kind: &'static str) -> (r: Result<(), Report>)
    ensures
        r is Ok <==> index < old(count)@.len() && !old(count)@[index as int],
        r is Ok ==> final(count)@ == old(count)@.update(index as int, true),
        r is Err ==> final(count)@ == old(count)@,
        r matches Err(e) ==> e.kind == kind && e.index == index && e.defect == (if index < old(
            count,
        )@.len() {
            Defect::DuplicateOwnership
        } else {
            Defect::InvalidHandle
        }),
{
    if index >= count.len() {
        return Err(fail(Defect::InvalidHandle, kind, index));
    }
    if count[index] {
        return Err(fail(Defect::DuplicateOwnership, kind, index));
    }
    count.set(index, true);
    Ok(())
}

/// Refuses the first record that is not owned.
fn all_used(count: &Vec<bool>, kind: &'static str) -> (r: Result<(), Report>)
    ensures
        r is Ok <==> forall|i: int| 0 <= i < count@.len() ==> count@[i],
        r matches Err(e) ==> e.defect == Defect::UnusedRecord && e.kind == kind && e.index
            < count@.len() && !count@[e.index as int] && forall|i: int|
            0 <= i < e.index ==> count@[i],
{
    let mut i: usize = 0;
    while i < count.len()
        invariant
            i <= count@.len(),
            forall|k: int| 0 <= k < i ==> count@[k],
        decreases count@.len() - i,
    {
        if !count[i] {
            return Err(fail(Defect::UnusedRecord, kind, i));
        }
        i += 1;
    }
    Ok(())
}

/// Spends `n` units of the work budget.
fn spend(work: &mut usize, n: usize) -> (r: Result<(), Report>)
    ensures
        r is Ok <==> n <= *old(work),
        r is Ok ==> *final(work) == *old(work) - n,
        r is Err ==> *final(work) == *old(work),
        r matches Err(e) ==> e.defect == Defect::ResourceLimit && e.kind == "model" && e.index == 0,
{
    if n > *work {
        return Err(fail(Defect::ResourceLimit, "model", 0));
    }
    *work = *work - n;
    Ok(())
}

/// Vertices at the start and end of coedge `c`, following its orientation.
pub open spec fn use_vertices_of(b: RawBrep, c: int) -> (usize, usize) {
    let e = b.edges@[b.coedges@[c].edge.0 as int];
    if b.coedges@[c].orientation == Orientation::Reversed {
        (e.vertices[1].0, e.vertices[0].0)
    } else {
        (e.vertices[0].0, e.vertices[1].0)
    }
}

/// Vertex `v` ends some edge.
pub open spec fn is_endpoint(b: RawBrep, v: usize) -> bool {
    exists|e: int|
        0 <= e < b.edges@.len() && ((#[trigger] b.edges@[e]).vertices[0].0 == v
            || b.edges@[e].vertices[1].0 == v)
}

/// Coedge `c` exists and names an existing edge.
pub open spec fn coedge_valid(b: RawBrep, c: int) -> bool {
    0 <= c < b.coedges@.len() && b.coedges@[c].edge.0 < b.edges@.len()
}

/// Coedges of the wires `ws`, in order.
pub open spec fn wire_coedges(ws: Seq<Wire>) -> Seq<usize>
    decreases ws.len(),
{
    if ws.len() == 0 {
        Seq::empty()
    } else {
        wire_coedges(ws.drop_last()) + ws.last().coedges@.map_values(|c: CoedgeId| c.0)
    }
}

/// Wires of the faces `fs`, each face's outer wire before its holes.
pub open spec fn face_wires(fs: Seq<Face>) -> Seq<usize>
    decreases fs.len(),
{
    if fs.len() == 0 {
        Seq::empty()
    } else {
        face_wires(fs.drop_last()) + seq![fs.last().outer.0] + fs.last().holes@.map_values(
            |w: WireId| w.0,
        )
    }
}

/// Faces of the shells `ss`, in order.
pub open spec fn shell_faces(ss: Seq<Shell>) -> Seq<usize>
    decreases ss.len(),
{
    if ss.len() == 0 {
        Seq::empty()
    } else {
        shell_faces(ss.drop_last()) + ss.last().faces@.map_values(|f: FaceId| f.0)
    }
}

/// Shells of the solids `ss`, in order.
pub open spec fn solid_shells(ss: Seq<Solid>) -> Seq<usize> {
    ss.map_values(|s: Solid| s.shell.0)
}

/// Each item is below `n` and occurs once.
pub open spec fn owned_once(items: Seq<usize>, n: nat) -> bool {
    &&& items.no_duplicates()
    &&& forall|k: int| 0 <= k < items.len() ==> items[k] < n
}

/// Each index below `n` occurs exactly once in `items`, and nothing else does.
pub open spec fn partitions(items: Seq<usize>, n: nat) -> bool {
    &&& owned_once(items, n)
    &&& forall|x: usize| x < n ==> items.contains(x)
}

/// `owned` marks exactly the items processed so far, each once.
pub open spec fn tracks(owned: Seq<bool>, processed: Seq<usize>) -> bool {
    &&& owned_once(processed, owned.len())
    &&& forall|x: int| 0 <= x < owned.len() ==> (owned[x] <==> processed.contains(x as usize))
}

proof fn lemma_tracks_push(owned: Seq<bool>, processed: Seq<usize>, x: usize)
    requires
        tracks(owned, processed),
        x < owned.len(),
        owned.len() <= usize::MAX,
        !owned[x as int],
    ensures
        tracks(owned.update(x as int, true), processed.push(x)),
{
    let p = processed.push(x);
    assert(!processed.contains(x));
    assert forall|i: int, j: int| 0 <= i < j < p.len() implies p[i] != p[j] by {
        if j == p.len() - 1 {
            assert(processed.contains(p[i])) by {
                assert(processed[i] == p[i]);
            }
        }
    }
    assert forall|y: int| 0 <= y < owned.len() implies (owned.update(x as int, true)[y] <==> p.contains(
        y as usize,
    )) by {
        if y == x {
            assert(p[p.len() - 1] == x);
        } else {
            if p.contains(y as usize) {
                let k = choose|k: int| 0 <= k < p.len() && p[k] == y as usize;
                assert(p[p.len() - 1] == x);
                assert(y as usize != x);
                assert(k < processed.len());
                assert(processed[k] == p[k]);
            }
            if processed.contains(y as usize) {
                let k = choose|k: int| 0 <= k < processed.len() && processed[k] == y as usize;
                assert(p[k] == y as usize);
            }
        }
    }
}

proof fn lemma_tracks_all(owned: Seq<bool>, processed: Seq<usize>)
    requires
        tracks(owned, processed),
        forall|i: int| 0 <= i < owned.len() ==> owned[i],
    ensures
        partitions(processed, owned.len()),
{
    assert forall|x: usize| x < owned.len() implies processed.contains(x) by {
        assert(owned[x as int]);
    }
}

/// Owning `x` fails when it is out of range or already owned: then the full
/// sequence, which continues the processed items with `x`, is not owned once.
proof fn lemma_own_fail(owned: Seq<bool>, processed: Seq<usize>, full: Seq<usize>, x: usize)
    requires
        tracks(owned, processed),
        processed.len() < full.len(),
        full[processed.len() as int] == x,
        forall|k: int| 0 <= k < processed.len() ==> full[k] == processed[k],
        x >= owned.len() || owned[x as int],
    ensures
        !owned_once(full, owned.len()),
{
    if x < owned.len() {
        assert(processed.contains(x));
        let m = choose|m: int| 0 <= m < processed.len() && processed[m] == x;
        assert(full[m] == full[processed.len() as int]);
    }
}

/// A prefix of a sequence owned once is owned once.
proof fn lemma_prefix_owned(full: Seq<usize>, pre: Seq<usize>, n: nat)
    requires
        pre.len() <= full.len(),
        forall|k: int| 0 <= k < pre.len() ==> full[k] == pre[k],
        owned_once(full, n),
    ensures
        owned_once(pre, n),
{
    assert forall|i: int, j: int| 0 <= i < pre.len() && 0 <= j < pre.len() && i != j implies pre[i] != pre[j] by {
        assert(full[i] == pre[i] && full[j] == pre[j]);
    }
    assert forall|k: int| 0 <= k < pre.len() implies pre[k] < n by {
        assert(full[k] == pre[k]);
    }
}

/// Every item below `n` is owned once the processed items are all the items and
/// some item below `n` is not marked.
proof fn lemma_unused_fail(owned: Seq<bool>, processed: Seq<usize>, x: int)
    requires
        tracks(owned, processed),
        0 <= x < owned.len(),
        !owned[x],
    ensures
        !partitions(processed, owned.len()),
{
    assert(!processed.contains(x as usize));
}

proof fn lemma_wire_coedges_prefix(ws: Seq<Wire>, i: int)
    requires
        0 <= i <= ws.len(),
    ensures
        wire_coedges(ws.take(i)).len() <= wire_coedges(ws).len(),
        forall|k: int| 0 <= k < wire_coedges(ws.take(i)).len() ==> wire_coedges(ws)[k] == wire_coedges(ws.take(i))[k],
    decreases ws.len() - i,
{
    if i < ws.len() {
        lemma_wire_coedges_prefix(ws, i + 1);
        assert(ws.take(i + 1).drop_last() =~= ws.take(i));
    } else {
        assert(ws.take(i) =~= ws);
    }
}

proof fn lemma_face_wires_prefix(fs: Seq<Face>, i: int)
    requires
        0 <= i <= fs.len(),
    ensures
        face_wires(fs.take(i)).len() <= face_wires(fs).len(),
        forall|k: int| 0 <= k < face_wires(fs.take(i)).len() ==> face_wires(fs)[k] == face_wires(fs.take(i))[k],
    decreases fs.len() - i,
{
    if i < fs.len() {
        lemma_face_wires_prefix(fs, i + 1);
        assert(fs.take(i + 1).drop_last() =~= fs.take(i));
    } else {
        assert(fs.take(i) =~= fs);
    }
}

proof fn lemma_shell_faces_prefix(ss: Seq<Shell>, i: int)
    requires
        0 <= i <= ss.len(),
    ensures
        shell_faces(ss.take(i)).len() <= shell_faces(ss).len(),
        forall|k: int| 0 <= k < shell_faces(ss.take(i)).len() ==> shell_faces(ss)[k] == shell_faces(ss.take(i))[k],
    decreases ss.len() - i,
{
    if i < ss.len() {
        lemma_shell_faces_prefix(ss, i + 1);
        assert(ss.take(i + 1).drop_last() =~= ss.take(i));
    } else {
        assert(ss.take(i) =~= ss);
    }
}

/// Work spent on the faces `fs`: one unit per face and per hole.
pub open spec fn faces_cost(fs: Seq<Face>) -> int
    decreases fs.len(),
{
    if fs.len() == 0 {
        0
    } else {
        faces_cost(fs.drop_last()) + if fs.last().holes@.len() < usize::MAX {
            fs.last().holes@.len() + 1int
        } else {
            usize::MAX as int
        }
    }
}

/// Work spent on the wires `ws`: one unit per coedge.
pub open spec fn wires_cost(ws: Seq<Wire>) -> int
    decreases ws.len(),
{
    if ws.len() == 0 {
        0
    } else {
        wires_cost(ws.drop_last()) + ws.last().coedges@.len()
    }
}

proof fn lemma_faces_cost_grows(fs: Seq<Face>, i: int)
    requires
        0 <= i <= fs.len(),
    ensures
        0 <= faces_cost(fs.take(i)) <= faces_cost(fs),
    decreases fs.len() - i,
{
    if i < fs.len() {
        lemma_faces_cost_grows(fs, i + 1);
        assert(fs.take(i + 1).drop_last() =~= fs.take(i));
    } else {
        assert(fs.take(i) =~= fs);
    }
    lemma_faces_cost_nonneg(fs.take(i));
}

proof fn lemma_faces_cost_nonneg(fs: Seq<Face>)
    ensures
        faces_cost(fs) >= 0,
    decreases fs.len(),
{
    if fs.len() > 0 {
        lemma_faces_cost_nonneg(fs.drop_last());
    }
}

proof fn lemma_wires_cost_grows(ws: Seq<Wire>, i: int)
    requires
        0 <= i <= ws.len(),
    ensures
        0 <= wires_cost(ws.take(i)) <= wires_cost(ws),
    decreases ws.len() - i,
{
    if i < ws.len() {
        lemma_wires_cost_grows(ws, i + 1);
        assert(ws.take(i + 1).drop_last() =~= ws.take(i));
    } else {
        assert(ws.take(i) =~= ws);
    }
    lemma_wires_cost_nonneg(ws.take(i));
}

proof fn lemma_wires_cost_nonneg(ws: Seq<Wire>)
    ensures
        wires_cost(ws) >= 0,
    decreases ws.len(),
{
    if ws.len() > 0 {
        lemma_wires_cost_nonneg(ws.drop_last());
    }
}

/// Edge `e` is used by the coedges `uses`: those among the first `n` whose edge is `e`, in order.
pub open spec fn uses_upto(b: RawBrep, e: int, n: int) -> Seq<CoedgeId>
    decreases n,
{
    if n <= 0 {
        Seq::empty()
    } else {
        uses_upto(b, e, n - 1) + if b.coedges@[n - 1].edge.0 == e {
            seq![CoedgeId((n - 1) as usize)]
        } else {
            Seq::empty()
        }
    }
}

/// The checks that the first phases of validation establish: record budget,
/// handles, edge geometry, vertex and edge use, parameter curves, and the
/// ownership and closure of wires, and of faces' wires.
pub open spec fn wires_valid(
    b: RawBrep,
    edge_checks: Seq<EdgeGeometry>,
    pcurve_checks: Seq<Option<Defect>>,
    limits: ValidationLimits,
) -> bool {
    &&& b.faces@.len() > 0
    &&& edges_valid(b, edge_checks)
    &&& coedges_valid(b, pcurve_checks)
    &&& partitions(wire_coedges(b.wires@), b.coedges@.len())
    &&& forall|w: int| 0 <= w < b.wires@.len() ==> wire_closed(b, #[trigger] b.wires@[w])
    &&& partitions(face_wires(b.faces@), b.wires@.len())
}

/// Every edge passed its geometric checks and ends at existing vertices, and
/// every vertex ends some edge.
pub open spec fn edges_valid(b: RawBrep, edge_checks: Seq<EdgeGeometry>) -> bool {
    &&& forall|e: int|
        0 <= e < b.edges@.len() ==> {
            &&& (#[trigger] edge_checks[e]).range_ok
            &&& edge_checks[e].endpoints[0] is None
            &&& edge_checks[e].endpoints[1] is None
            &&& b.edges@[e].vertices[0].0 < b.vertices
            &&& b.edges@[e].vertices[1].0 < b.vertices
        }
    &&& forall|v: usize| v < b.vertices ==> #[trigger] is_endpoint(b, v)
}

/// Every coedge names an existing edge and passed its parameter-curve checks,
/// and every edge is used by some coedge.
pub open spec fn coedges_valid(b: RawBrep, pcurve_checks: Seq<Option<Defect>>) -> bool {
    &&& forall|c: int| 0 <= c < b.coedges@.len() ==> coedge_valid(b, c) && (#[trigger] pcurve_checks[c]) is None
    &&& forall|e: int| 0 <= e < b.edges@.len() ==> (#[trigger] uses_upto(b, e, b.coedges@.len() as int)).len() > 0
}

/// A wire is a non-empty closed chain: each coedge ends where the next begins.
pub open spec fn wire_closed(b: RawBrep, w: Wire) -> bool {
    let cs = w.coedges@;
    &&& cs.len() > 0
    &&& forall|j: int|
        0 <= j < cs.len() ==> use_vertices_of(b, (#[trigger] cs[j]).0 as int).1 == use_vertices_of(
            b,
            cs[(j + 1) % (cs.len() as int)].0 as int,
        ).0
}

impl RawBrep {
    /// Vertices at the start and end of `coedge`, following its orientation.
    pub fn use_vertices(&self, coedge: CoedgeId) -> (r: Option<[VertexId; 2]>)
        ensures
            r is Some <==> coedge_valid(*self, coedge.0 as int),
            r matches Some(v) ==> (v[0].0, v[1].0) == use_vertices_of(*self, coedge.0 as int),
    {
        if coedge.0 >= self.coedges.len() {
            return None;
        }
        let c = &self.coedges[coedge.0];
        if c.edge.0 >= self.edges.len() {
            return None;
        }
        let v = self.edges[c.edge.0].vertices;
        if c.orientation.is_reversed() {
            Some([v[1], v[0]])
        } else {
            Some(v)
        }
    }
}

/// Number of records of all kinds.
pub open spec fn record_count(b: RawBrep) -> int {
    b.vertices + b.edges@.len() + b.coedges@.len() + b.wires@.len() + b.faces@.len()
        + b.shells@.len() + b.solids@.len()
}

impl RawBrep {
    /// The number of records, refused above `max_records` or the hard cap of 1,000,000.
    fn check_records(&self, limits: ValidationLimits) -> (r: Result<usize, Report>)
        ensures
            r matches Ok(n) ==> n == record_count(*self) && n <= limits.max_records && n <= 1_000_000,
            r matches Err(e) ==> e.defect == Defect::ResourceLimit && (record_count(*self)
                > limits.max_records || record_count(*self) > 1_000_000),
            r is Err <==> record_count(*self) > limits.max_records || record_count(*self) > 1_000_000,
    {
        let total: u128 = self.vertices as u128 + self.edges.len() as u128 + self.coedges.len() as u128
            + self.wires.len() as u128 + self.faces.len() as u128 + self.shells.len() as u128
            + self.solids.len() as u128;
        if total > usize::MAX as u128 {
            return Err(fail(Defect::ResourceLimit, "model", 0));
        }
        let records = total as usize;
        let cap = if limits.max_records < 1_000_000 { limits.max_records } else { 1_000_000 };
        if records > cap {
            return Err(fail(Defect::ResourceLimit, "model", 0));
        }
        Ok(records)
    }
}


impl RawBrep {
    /// Edge ranges, vertex handles and endpoint geometry, then vertex use.
    #[verifier::spinoff_prover]
    fn check_edges(&self, edge_checks: &Vec<EdgeGeometry>) -> (r: Result<(), Report>)
        requires
            edge_checks@.len() == self.edges@.len(),
        ensures
            r is Ok <==> edges_valid(*self, edge_checks@),
    {
        let mut used: Vec<bool> = vec![false; self.vertices];
        let mut i: usize = 0;
        while i < self.edges.len()
            invariant
                i <= self.edges@.len(),
                edge_checks@.len() == self.edges@.len(),
                used@.len() == self.vertices,
                forall|e: int|
                    0 <= e < i ==> {
                        &&& (#[trigger] edge_checks@[e]).range_ok
                        &&& edge_checks@[e].endpoints[0] is None
                        &&& edge_checks@[e].endpoints[1] is None
                        &&& self.edges@[e].vertices[0].0 < self.vertices
                        &&& self.edges@[e].vertices[1].0 < self.vertices
                    },
                forall|v: int| 0 <= v < used@.len() ==> (used@[v] <==> exists|e: int|
                    0 <= e < i && ((#[trigger] self.edges@[e]).vertices[0].0 == v
                        || self.edges@[e].vertices[1].0 == v)),
            decreases self.edges@.len() - i,
        {
            let check = edge_checks[i];
            if !check.range_ok {
                return Err(fail(Defect::InvalidRange, "edge", i));
            }
            let ghost before = used@;
            let mut k: usize = 0;
            while k < 2
                invariant
                    k <= 2,
                    i < self.edges@.len(),
                    check == edge_checks@[i as int],
                    used@.len() == self.vertices,
                    forall|j: int| 0 <= j < k ==> self.edges@[i as int].vertices[j].0 < self.vertices,
                    forall|j: int| 0 <= j < k ==> check.endpoints[j] is None,
                    forall|v: int| 0 <= v < used@.len() ==> (used@[v] <==> (before[v] || (k > 0
                        && self.edges@[i as int].vertices[0].0 == v) || (k > 1
                        && self.edges@[i as int].vertices[1].0 == v))),
                decreases 2 - k,
            {
                let v = self.edges[i].vertices[k].0;
                if v >= self.vertices {
                    return Err(fail(Defect::InvalidHandle, "edge", i));
                }
                let ghost prior = used@;
                used.set(v, true);
                proof {
                    let ed = self.edges@[i as int];
                    assert(ed.vertices[k as int].0 == v);
                    assert forall|x: int| 0 <= x < used@.len() implies (used@[x] <==> (before[x] || (k + 1 > 0
                        && ed.vertices[0].0 == x) || (k + 1 > 1 && ed.vertices[1].0 == x))) by {
                        if x == v {
                            assert(used@[x]);
                            if k == 0 {
                                assert(ed.vertices[0].0 == x);
                            } else {
                                assert(ed.vertices[1].0 == x);
                            }
                        } else {
                            assert(used@[x] == prior[x]);
                            assert(prior[x] <==> (before[x] || (k > 0 && ed.vertices[0].0 == x) || (k > 1
                                && ed.vertices[1].0 == x)));
                            if k == 0 {
                                assert(ed.vertices[0].0 != x);
                            } else {
                                assert(ed.vertices[1].0 != x);
                            }
                        }
                    }
                }
                match check.endpoints[k] {
                    Some(d) => {
                        return Err(fail(d, "edge", i));
                    },
                    None => {},
                }
                k += 1;
            }
            proof {
                assert forall|v: int| 0 <= v < used@.len() implies (used@[v] <==> exists|e: int|
                    0 <= e < i + 1 && ((#[trigger] self.edges@[e]).vertices[0].0 == v
                        || self.edges@[e].vertices[1].0 == v)) by {
                    let ed = self.edges@[i as int];
                    if used@[v] {
                        if !before[v] {
                            assert(ed.vertices[0].0 == v || ed.vertices[1].0 == v);
                        } else {
                            let e = choose|e: int| 0 <= e < i && ((#[trigger] self.edges@[e]).vertices[0].0 == v
                                || self.edges@[e].vertices[1].0 == v);
                            assert(0 <= e < i + 1);
                        }
                    }
                    if exists|e: int| 0 <= e < i + 1 && ((#[trigger] self.edges@[e]).vertices[0].0 == v
                        || self.edges@[e].vertices[1].0 == v) {
                        let e = choose|e: int| 0 <= e < i + 1 && ((#[trigger] self.edges@[e]).vertices[0].0 == v
                            || self.edges@[e].vertices[1].0 == v);
                        if e < i {
                            assert(before[v]);
                        } else {
                            assert(e == i);
                        }
                    }
                }
            }
            i += 1;
        }
        let r = all_used(&used, "vertex");
        proof {
            if r is Ok {
                assert forall|v: usize| v < self.vertices implies #[trigger] is_endpoint(*self, v) by {
                    assert(used@[v as int]);
                }
            } else {
                let e = r->Err_0;
                assert(!is_endpoint(*self, e.index));
            }
        }
        r
    }

    /// Coedge handles and parameter curves, then edge use; the uses of each edge, in order.
    #[verifier::spinoff_prover]
    fn check_coedges(&self, pcurve_checks: &Vec<Option<Defect>>) -> (r: Result<Vec<Vec<CoedgeId>>, Report>)
        requires
            pcurve_checks@.len() == self.coedges@.len(),
        ensures
            r is Ok <==> coedges_valid(*self, pcurve_checks@),
            r matches Ok(u) ==> u@.len() == self.edges@.len() && forall|e: int|
                0 <= e < u@.len() ==> (#[trigger] u@[e])@ == uses_upto(*self, e, self.coedges@.len() as int),
    {
        let mut uses: Vec<Vec<CoedgeId>> = Vec::new();
        let mut e: usize = 0;
        while e < self.edges.len()
            invariant
                e <= self.edges@.len(),
                uses@.len() == e,
                forall|k: int| 0 <= k < e ==> (#[trigger] uses@[k])@ == Seq::<CoedgeId>::empty(),
            decreases self.edges@.len() - e,
        {
            uses.push(Vec::new());
            e += 1;
        }
        let mut i: usize = 0;
        while i < self.coedges.len()
            invariant
                i <= self.coedges@.len(),
                pcurve_checks@.len() == self.coedges@.len(),
                uses@.len() == self.edges@.len(),
                forall|k: int| 0 <= k < uses@.len() ==> (#[trigger] uses@[k])@ == uses_upto(*self, k, i as int),
                forall|c: int| 0 <= c < i ==> coedge_valid(*self, c) && (#[trigger] pcurve_checks@[c]) is None,
            decreases self.coedges@.len() - i,
        {
            let edge = self.coedges[i].edge.0;
            if edge >= self.edges.len() {
                return Err(fail(Defect::InvalidHandle, "coedge", i));
            }
            let ghost before = uses@;
            let mut list = uses[edge].clone();
            list.push(CoedgeId(i));
            uses.set(edge, list);
            proof {
                assert forall|k: int| 0 <= k < uses@.len() implies (#[trigger] uses@[k])@ == uses_upto(*self, k, i + 1) by {
                    if k != edge {
                        assert(uses@[k] == before[k]);
                    }
                }
            }
            match pcurve_checks[i] {
                Some(d) => {
                    return Err(fail(d, "pcurve", i));
                },
                None => {},
            }
            i += 1;
        }
        let mut e: usize = 0;
        while e < uses.len()
            invariant
                e <= uses@.len(),
                uses@.len() == self.edges@.len(),
                forall|k: int| 0 <= k < e ==> (#[trigger] uses_upto(*self, k, self.coedges@.len() as int)).len() > 0,
                forall|k: int| 0 <= k < uses@.len() ==> (#[trigger] uses@[k])@ == uses_upto(*self, k, self.coedges@.len() as int),
            decreases uses@.len() - e,
        {
            if uses[e].len() == 0 {
                return Err(fail(Defect::UnusedRecord, "edge", e));
            }
            e += 1;
        }
        Ok(uses)
    }
}

impl RawBrep {
    /// Wire `i`: ownership of its coedges and closure.
    #[verifier::spinoff_prover]
    fn check_wire(&self, i: usize, owned: &mut Vec<bool>, processed: Ghost<Seq<usize>>) -> (r: Result<
        Ghost<Seq<usize>>,
        Report,
    >)
        requires
            i < self.wires@.len(),
            self.wires@[i as int].coedges@.len() > 0,
            old(owned)@.len() == self.coedges@.len(),
            forall|c: int| 0 <= c < self.coedges@.len() ==> coedge_valid(*self, c),
            tracks(old(owned)@, processed@),
        ensures
            final(owned)@.len() == self.coedges@.len(),
            r matches Ok(p) ==> {
                &&& tracks(final(owned)@, p@)
                &&& p@ == processed@ + self.wires@[i as int].coedges@.map_values(|c: CoedgeId| c.0)
                &&& wire_closed(*self, self.wires@[i as int])
            },
            r matches Err(e) ==> e.defect != Defect::ResourceLimit,
            r is Err ==> !wire_closed(*self, self.wires@[i as int]) || !owned_once(
                processed@ + self.wires@[i as int].coedges@.map_values(|c: CoedgeId| c.0),
                self.coedges@.len(),
            ),
    {
        let wire = &self.wires[i];
        let n = wire.coedges.len();
        let ghost mut done = processed@;
        let mut j: usize = 0;
        while j < n
            invariant
                j <= n,
                n == wire.coedges@.len(),
                n > 0,
                *wire == self.wires@[i as int],
                owned@.len() == self.coedges@.len(),
                forall|c: int| 0 <= c < self.coedges@.len() ==> coedge_valid(*self, c),
                tracks(owned@, done),
                done == processed@ + wire.coedges@.take(j as int).map_values(|c: CoedgeId| c.0),
                forall|jj: int| 0 <= jj < j ==> use_vertices_of(*self, (#[trigger] wire.coedges@[jj]).0 as int).1
                    == use_vertices_of(*self, wire.coedges@[(jj + 1) % (n as int)].0 as int).0,
            decreases n - j,
        {
            let c = wire.coedges[j];
            let ghost pre = owned@;
            let ghost full = processed@ + wire.coedges@.map_values(|c: CoedgeId| c.0);
            proof {
                assert(full.len() == processed@.len() + n);
                assert forall|k: int| 0 <= k < done.len() implies full[k] == done[k] by {
                    if k >= processed@.len() {
                        assert(wire.coedges@.take(j as int)[k - processed@.len()] == wire.coedges@[k - processed@.len()]);
                    }
                }
                assert(full[done.len() as int] == c.0);
            }
            let count = owned.len();
            let owned_ok = own(owned, c.0, "coedge");
            if owned_ok.is_err() {
                proof {
                    lemma_own_fail(pre, done, full, c.0);
                }
                return Err(owned_ok.unwrap_err());
            }
            proof {
                lemma_tracks_push(pre, done, c.0);
                done = done.push(c.0);
                assert(wire.coedges@.take(j + 1).map_values(|c: CoedgeId| c.0) =~= wire.coedges@.take(
                    j as int,
                ).map_values(|c: CoedgeId| c.0).push(c.0));
            }
            let a = match self.use_vertices(c) {
                Some(v) => v,
                None => {
                    proof {
                        assert(coedge_valid(*self, c.0 as int));
                    }
                    return Err(fail(Defect::InvalidHandle, "wire", i));
                },
            };
            let b = match self.use_vertices(wire.coedges[(j + 1) % n]) {
                Some(v) => v,
                None => {
                    proof {
                        let q = (j as int + 1) % (n as int);
                        let x = wire.coedges@[q as int].0;
                        assert(x >= self.coedges@.len());
                        assert(full[processed@.len() + q] == x);
                    }
                    return Err(fail(Defect::InvalidHandle, "wire", i));
                },
            };
            if a[1].0 != b[0].0 {
                proof {
                    assert(use_vertices_of(*self, wire.coedges@[j as int].0 as int).1 != use_vertices_of(
                        *self,
                        wire.coedges@[(j as int + 1) % (n as int)].0 as int,
                    ).0);
                }
                return Err(fail(Defect::BrokenWire, "wire", i));
            }
            j += 1;
        }
        proof {
            assert(wire.coedges@.take(n as int) =~= wire.coedges@);
        }
        Ok(Ghost(done))
    }

    /// Wires: budget, non-emptiness, coedge ownership and closure, then coedge use.
    #[verifier::spinoff_prover]
    fn check_wires(&self, work: &mut usize) -> (r: Result<(), Report>)
        requires
            forall|c: int| 0 <= c < self.coedges@.len() ==> coedge_valid(*self, c),
        ensures
            *final(work) <= *old(work),
            r is Ok ==> partitions(wire_coedges(self.wires@), self.coedges@.len()) && forall|w: int|
                0 <= w < self.wires@.len() ==> wire_closed(*self, #[trigger] self.wires@[w]),
            r is Ok ==> *final(work) == *old(work) - wires_cost(self.wires@),
            r matches Err(e) ==> e.defect == Defect::ResourceLimit ==> *old(work) < wires_cost(self.wires@),
            r matches Err(e) ==> e.defect == Defect::ResourceLimit || !(partitions(
                wire_coedges(self.wires@),
                self.coedges@.len(),
            ) && forall|w: int| 0 <= w < self.wires@.len() ==> wire_closed(*self, #[trigger] self.wires@[w])),
    {
        let mut owned: Vec<bool> = vec![false; self.coedges.len()];
        let ghost mut processed: Seq<usize> = Seq::empty();
        let mut i: usize = 0;
        proof {
            assert(self.wires@.take(0) =~= Seq::<Wire>::empty());
        }
        while i < self.wires.len()
            invariant
                i <= self.wires@.len(),
                *work <= *old(work),
                owned@.len() == self.coedges@.len(),
                forall|c: int| 0 <= c < self.coedges@.len() ==> coedge_valid(*self, c),
                tracks(owned@, processed),
                processed == wire_coedges(self.wires@.take(i as int)),
                forall|w: int| 0 <= w < i ==> wire_closed(*self, #[trigger] self.wires@[w]),
                *work == *old(work) - wires_cost(self.wires@.take(i as int)),
            decreases self.wires@.len() - i,
        {
            let n = self.wires[i].coedges.len();
            proof {
                lemma_wires_cost_grows(self.wires@, i + 1);
                assert(self.wires@.take(i + 1).drop_last() =~= self.wires@.take(i as int));
            }
            spend(work, n)?;
            if n == 0 {
                proof {
                    assert(!wire_closed(*self, self.wires@[i as int]));
                }
                return Err(fail(Defect::Empty, "wire", i));
            }
            let checked = self.check_wire(i, &mut owned, Ghost(processed));
            if let Err(e) = checked {
                proof {
                    lemma_wire_coedges_prefix(self.wires@, i + 1);
                    assert(self.wires@.take(i + 1).drop_last() =~= self.wires@.take(i as int));
                    let pre = wire_coedges(self.wires@.take(i + 1));
                    assert(pre == processed + self.wires@[i as int].coedges@.map_values(|c: CoedgeId| c.0));
                    if owned_once(wire_coedges(self.wires@), self.coedges@.len()) {
                        lemma_prefix_owned(wire_coedges(self.wires@), pre, self.coedges@.len());
                    }
                }
                return Err(e);
            }
            let next = checked.unwrap();
            proof {
                processed = next@;
                assert(self.wires@.take(i + 1).drop_last() =~= self.wires@.take(i as int));
            }
            i += 1;
        }
        proof {
            assert(self.wires@.take(self.wires@.len() as int) =~= self.wires@);
            assert(*work == *old(work) - wires_cost(self.wires@));
        }
        let used = all_used(&owned, "coedge");
        if let Err(e) = used {
            proof {
                lemma_unused_fail(owned@, processed, e.index as int);
            }
            return Err(e);
        }
        proof {
            lemma_tracks_all(owned@, processed);
        }
        Ok(())
    }

    /// Faces: budget and wire ownership, then wire use.
    #[verifier::spinoff_prover]
    fn check_faces(&self, work: &mut usize) -> (r: Result<(), Report>)
        ensures
            *final(work) <= *old(work),
            r is Ok ==> partitions(face_wires(self.faces@), self.wires@.len()),
            r is Ok ==> *final(work) == *old(work) - faces_cost(self.faces@),
            r matches Err(e) ==> if e.defect == Defect::ResourceLimit {
                *old(work) < faces_cost(self.faces@)
            } else {
                !partitions(face_wires(self.faces@), self.wires@.len())
            },
    {
        let mut owned: Vec<bool> = vec![false; self.wires.len()];
        let ghost mut processed: Seq<usize> = Seq::empty();
        let mut i: usize = 0;
        proof {
            assert(self.faces@.take(0) =~= Seq::<Face>::empty());
        }
        while i < self.faces.len()
            invariant
                i <= self.faces@.len(),
                *work <= *old(work),
                owned@.len() == self.wires@.len(),
                tracks(owned@, processed),
                processed == face_wires(self.faces@.take(i as int)),
                *work == *old(work) - faces_cost(self.faces@.take(i as int)),
            decreases self.faces@.len() - i,
        {
            let face = &self.faces[i];
            proof {
                lemma_faces_cost_grows(self.faces@, i + 1);
                assert(self.faces@.take(i + 1).drop_last() =~= self.faces@.take(i as int));
            }
            spend(work, face.holes.len().saturating_add(1))?;
            let ghost pre = owned@;
            let count = owned.len();
            proof {
                lemma_face_wires_prefix(self.faces@, i + 1);
                assert(self.faces@.take(i + 1).drop_last() =~= self.faces@.take(i as int));
                assert(self.faces@.take(i + 1).last() == *face);
            }
            let owned_ok = own(&mut owned, face.outer.0, "wire");
            if owned_ok.is_err() {
                proof {
                    let full = face_wires(self.faces@);
                    let next = face_wires(self.faces@.take(i + 1));
                    assert(next[processed.len() as int] == face.outer.0);
                    assert forall|k: int| 0 <= k < processed.len() implies full[k] == processed[k] by {
                        assert(next[k] == processed[k]);
                    }
                    lemma_own_fail(pre, processed, full, face.outer.0);
                }
                return owned_ok;
            }
            proof {
                lemma_tracks_push(pre, processed, face.outer.0);
                processed = processed.push(face.outer.0);
            }
            let ghost base = processed;
            let mut h: usize = 0;
            while h < face.holes.len()
                invariant
                    h <= face.holes@.len(),
                    *face == self.faces@[i as int],
                    owned@.len() == self.wires@.len(),
                    tracks(owned@, processed),
                    processed == base + face.holes@.take(h as int).map_values(|w: WireId| w.0),
                    *work <= *old(work),
                    *work == *old(work) - faces_cost(self.faces@.take(i + 1)),
                    base == face_wires(self.faces@.take(i as int)).push(face.outer.0),
                    face_wires(self.faces@.take(i + 1)) == base + face.holes@.map_values(|w: WireId| w.0),
                    face_wires(self.faces@.take(i + 1)).len() <= face_wires(self.faces@).len(),
                    forall|k: int|
                        0 <= k < face_wires(self.faces@.take(i + 1)).len() ==> face_wires(self.faces@)[k]
                            == face_wires(self.faces@.take(i + 1))[k],
                decreases face.holes@.len() - h,
            {
                let w = face.holes[h].0;
                let ghost pre = owned@;
                let count = owned.len();
                let owned_ok = own(&mut owned, w, "wire");
                if owned_ok.is_err() {
                    proof {
                        let full = face_wires(self.faces@);
                        let next = face_wires(self.faces@.take(i + 1));
                        assert(next[processed.len() as int] == w);
                        assert forall|k: int| 0 <= k < processed.len() implies full[k] == processed[k] by {
                            assert(next[k] == processed[k]);
                        }
                        lemma_own_fail(pre, processed, full, w);
                    }
                    return owned_ok;
                }
                proof {
                    lemma_tracks_push(pre, processed, w);
                    processed = processed.push(w);
                    assert(face.holes@.take(h + 1).map_values(|w: WireId| w.0) =~= face.holes@.take(
                        h as int,
                    ).map_values(|w: WireId| w.0).push(w));
                }
                h += 1;
            }
            proof {
                assert(face.holes@.take(face.holes@.len() as int) =~= face.holes@);
                assert(self.faces@.take(i + 1).drop_last() =~= self.faces@.take(i as int));
                assert(processed =~= face_wires(self.faces@.take(i + 1)));
            }
            i += 1;
        }
        proof {
            assert(self.faces@.take(self.faces@.len() as int) =~= self.faces@);
            assert(*work == *old(work) - faces_cost(self.faces@));
        }
        let used = all_used(&owned, "wire");
        if let Err(e) = used {
            proof {
                lemma_unused_fail(owned@, processed, e.index as int);
            }
            return Err(e);
        }
        proof {
            lemma_tracks_all(owned@, processed);
        }
        Ok(())
    }
}

/// Every handle of the model names an existing record.
pub open spec fn handles_valid(b: RawBrep) -> bool {
    &&& forall|e: int|
        0 <= e < b.edges@.len() ==> (#[trigger] b.edges@[e]).vertices[0].0 < b.vertices
            && b.edges@[e].vertices[1].0 < b.vertices
    &&& forall|c: int| 0 <= c < b.coedges@.len() ==> coedge_valid(b, c)
    &&& forall|w: int, j: int|
        0 <= w < b.wires@.len() && 0 <= j < b.wires@[w].coedges@.len() ==> (#[trigger] b.wires@[w].coedges@[j]).0
            < b.coedges@.len()
    &&& forall|f: int| 0 <= f < b.faces@.len() ==> (#[trigger] b.faces@[f]).outer.0 < b.wires@.len()
    &&& forall|f: int, h: int|
        0 <= f < b.faces@.len() && 0 <= h < b.faces@[f].holes@.len() ==> (#[trigger] b.faces@[f].holes@[h]).0
            < b.wires@.len()
}

/// Wire `h` of face `l` of shell `s`: the face's outer wire when `h` is -1,
/// else its hole `h`.
pub open spec fn shell_wire(b: RawBrep, s: int, l: int, h: int) -> int {
    let f = b.faces@[b.shells@[s].faces@[l].0 as int];
    if h == -1 {
        f.outer.0 as int
    } else {
        f.holes@[h].0 as int
    }
}

/// `(l, h, j)` names position `j` of wire `h` of face `l` of shell `s`.
pub open spec fn shell_use(b: RawBrep, s: int, l: int, h: int, j: int) -> bool {
    &&& 0 <= l < b.shells@[s].faces@.len()
    &&& -1 <= h < b.faces@[b.shells@[s].faces@[l].0 as int].holes@.len()
    &&& 0 <= j < b.wires@[shell_wire(b, s, l, h)].coedges@.len()
}

/// The edge used at `(l, h, j)`, and whether that use runs against the edge
/// once the orientation of its face is taken into account.
pub open spec fn use_edge(b: RawBrep, s: int, l: int, h: int, j: int) -> (usize, bool) {
    let c = b.coedges@[b.wires@[shell_wire(b, s, l, h)].coedges@[j].0 as int];
    let f = b.faces@[b.shells@[s].faces@[l].0 as int];
    (c.edge.0, (c.orientation == Orientation::Reversed) != (f.orientation == Orientation::Reversed))
}

/// No edge is used twice in the same direction by the faces of shell `s`: each
/// edge has at most two uses in the shell, and two uses run in opposite
/// directions.
pub open spec fn shell_edges_manifold(b: RawBrep, s: int) -> bool {
    forall|l1: int, h1: int, j1: int, l2: int, h2: int, j2: int|
        shell_use(b, s, l1, h1, j1) && shell_use(b, s, l2, h2, j2) && (l1 != l2 || h1 != h2 || j1
            != j2) ==> #[trigger] use_edge(b, s, l1, h1, j1) != #[trigger] use_edge(b, s, l2, h2, j2)
}

/// Another use of shell `s` shares the edge of the use `(l, h, j)`.
pub open spec fn partnered(b: RawBrep, s: int, l: int, h: int, j: int) -> bool {
    exists|l2: int, h2: int, j2: int|
        shell_use(b, s, l2, h2, j2) && (l2 != l || h2 != h || j2 != j) && use_edge(b, s, l2, h2, j2).0
            == use_edge(b, s, l, h, j).0
}

/// A closed shell `s` uses each of its edges twice.
pub open spec fn shell_edges_paired(b: RawBrep, s: int) -> bool {
    b.shells@[s].closed ==> forall|l: int, h: int, j: int|
        #[trigger] shell_use(b, s, l, h, j) ==> partnered(b, s, l, h, j)
}

/// Faces `l1` and `l2` of shell `s` use a common edge.
pub open spec fn faces_share_edge(b: RawBrep, s: int, l1: int, l2: int) -> bool {
    exists|h1: int, j1: int, h2: int, j2: int|
        shell_use(b, s, l1, h1, j1) && shell_use(b, s, l2, h2, j2) && use_edge(b, s, l1, h1, j1).0
            == use_edge(b, s, l2, h2, j2).0
}

pub open spec fn face_step_at(b: RawBrep, s: int, p: Seq<int>, i: int) -> bool {
    faces_share_edge(b, s, p[i], p[i + 1])
}

/// `p` is a chain of faces of shell `s`, each using an edge of the next.
pub open spec fn face_chain(b: RawBrep, s: int, p: Seq<int>) -> bool {
    p.len() >= 1 && forall|i: int| 0 <= i < p.len() - 1 ==> #[trigger] face_step_at(b, s, p, i)
}

/// A chain of faces leads from the first face of shell `s` to its face `l`.
pub open spec fn face_linked(b: RawBrep, s: int, l: int) -> bool {
    exists|p: Seq<int>| #[trigger] face_chain(b, s, p) && p[0] == 0 && p.last() == l
}

/// The faces of shell `s` are connected through shared edges.
pub open spec fn shell_connected(b: RawBrep, s: int) -> bool {
    forall|l: int| 0 <= l < b.shells@[s].faces@.len() ==> #[trigger] face_linked(b, s, l)
}

/// The vertex at the start of the use `(l, h, j)`.
pub open spec fn corner_vertex(b: RawBrep, s: int, l: int, h: int, j: int) -> int {
    use_vertices_of(b, b.wires@[shell_wire(b, s, l, h)].coedges@[j].0 as int).0 as int
}

/// The two edges meeting at the start of the use `(l, h, j)`: that of the use
/// before it in its wire, and its own.
pub open spec fn corner_edges(b: RawBrep, s: int, l: int, h: int, j: int) -> (usize, usize) {
    let cs = b.wires@[shell_wire(b, s, l, h)].coedges@;
    let prev = if j == 0 {
        cs.len() - 1
    } else {
        j - 1
    };
    (b.coedges@[cs[prev].0 as int].edge.0, b.coedges@[cs[j].0 as int].edge.0)
}

/// Some corner of shell `s` at vertex `v` joins edges `x` and `y`.
pub open spec fn corner_at(b: RawBrep, s: int, v: int, x: usize, y: usize) -> bool {
    exists|l: int, h: int, j: int|
        shell_use(b, s, l, h, j) && corner_vertex(b, s, l, h, j) == v && (corner_edges(b, s, l, h, j)
            == (x, y) || corner_edges(b, s, l, h, j) == (y, x))
}

pub open spec fn vertex_step_at(b: RawBrep, s: int, v: int, p: Seq<usize>, i: int) -> bool {
    corner_at(b, s, v, p[i], p[i + 1])
}

/// `p` is a chain of edges around vertex `v`, each two consecutive ones
/// meeting at a corner of shell `s`.
pub open spec fn vertex_chain(b: RawBrep, s: int, v: int, p: Seq<usize>) -> bool {
    p.len() >= 1 && forall|i: int| 0 <= i < p.len() - 1 ==> #[trigger] vertex_step_at(b, s, v, p, i)
}

/// Edge `x` meets vertex `v` at a corner of shell `s`.
pub open spec fn edge_at_vertex(b: RawBrep, s: int, v: int, x: usize) -> bool {
    exists|y: usize| corner_at(b, s, v, x, y)
}

/// Around every vertex, the edges of shell `s` that meet there form a single
/// fan or cycle: any two are joined by a chain of corners at the vertex.
pub open spec fn shell_vertices_manifold(b: RawBrep, s: int) -> bool {
    forall|v: int, x: usize, y: usize|
        #[trigger] edge_at_vertex(b, s, v, x) && #[trigger] edge_at_vertex(b, s, v, y) ==> exists|
            p: Seq<usize>,
        | #[trigger] vertex_chain(b, s, v, p) && p[0] == x && p.last() == y
}

/// Some use of shell `s` has its start at `v` and `pair` as its corner edges.
spec fn corner_of(b: RawBrep, s: int, v: int, pair: (usize, usize)) -> bool {
    exists|l: int, h: int, j: int|
        shell_use(b, s, l, h, j) && corner_vertex(b, s, l, h, j) == v && corner_edges(b, s, l, h, j) == pair
}

/// `pair` is recorded in the corner list of `v`.
spec fn corner_recorded(links: Seq<Vec<(usize, usize)>>, v: int, pair: (usize, usize)) -> bool {
    exists|m: int| 0 <= m < links[v]@.len() && links[v]@[m] == pair
}

/// Every recorded corner belongs to a use of shell `s` at its vertex.
spec fn corners_sound(b: RawBrep, s: int, links: Seq<Vec<(usize, usize)>>) -> bool {
    forall|v: int, m: int|
        0 <= v < links.len() && 0 <= m < links[v]@.len() ==> corner_of(b, s, v, #[trigger] links[v]@[m])
}

/// The corner of every use before `(lt, ht, jt)` is recorded at its vertex.
spec fn corners_complete(
    b: RawBrep,
    s: int,
    links: Seq<Vec<(usize, usize)>>,
    lt: int,
    ht: int,
    jt: int,
) -> bool {
    forall|l: int, h: int, j: int|
        shell_use(b, s, l, h, j) && before3(l, h, j, lt, ht, jt) ==> corner_recorded(
            links,
            corner_vertex(b, s, l, h, j),
            #[trigger] corner_edges(b, s, l, h, j),
        )
}

/// `(l1, h1, j1)` comes before `(l2, h2, j2)` in face, wire and position order.
spec fn before3(l1: int, h1: int, j1: int, l2: int, h2: int, j2: int) -> bool {
    l1 < l2 || (l1 == l2 && (h1 < h2 || (h1 == h2 && j1 < j2)))
}

/// The use `(l, h, j)` is recorded at position `slot[(l, h, j)]` of its edge's list.
spec fn use_placed(
    b: RawBrep,
    s: int,
    incidence: Seq<Vec<(usize, bool)>>,
    slot: Map<(int, int, int), int>,
    l: int,
    h: int,
    j: int,
) -> bool {
    let (e, p) = use_edge(b, s, l, h, j);
    &&& slot.contains_key((l, h, j))
    &&& 0 <= slot[(l, h, j)] < incidence[e as int]@.len()
    &&& incidence[e as int]@[slot[(l, h, j)]] == (l as usize, p)
}

/// Every use before `(lt, ht, jt)` is recorded.
spec fn uses_placed(
    b: RawBrep,
    s: int,
    incidence: Seq<Vec<(usize, bool)>>,
    slot: Map<(int, int, int), int>,
    lt: int,
    ht: int,
    jt: int,
) -> bool {
    forall|l: int, h: int, j: int|
        shell_use(b, s, l, h, j) && before3(l, h, j, lt, ht, jt) ==> #[trigger] use_placed(
            b,
            s,
            incidence,
            slot,
            l,
            h,
            j,
        )
}

/// Entry `idx` of the list of edge `e` belongs to a use before `(lt, ht, jt)`.
spec fn owned_entry(
    b: RawBrep,
    s: int,
    slot: Map<(int, int, int), int>,
    e: int,
    idx: int,
    lt: int,
    ht: int,
    jt: int,
) -> bool {
    exists|l: int, h: int, j: int|
        shell_use(b, s, l, h, j) && before3(l, h, j, lt, ht, jt) && use_edge(b, s, l, h, j).0 == e
            && slot.contains_key((l, h, j)) && slot[(l, h, j)] == idx
}

/// Every entry of the edge lists belongs to a use before `(lt, ht, jt)`.
spec fn entries_owned(
    b: RawBrep,
    s: int,
    incidence: Seq<Vec<(usize, bool)>>,
    slot: Map<(int, int, int), int>,
    lt: int,
    ht: int,
    jt: int,
) -> bool {
    forall|e: int, idx: int|
        0 <= e < incidence.len() && 0 <= idx < incidence[e]@.len() ==> #[trigger] owned_entry(
            b,
            s,
            slot,
            e,
            idx,
            lt,
            ht,
            jt,
        )
}

/// Two recorded uses of the same edge in the same direction sit at different
/// positions of its list.
spec fn uses_apart(b: RawBrep, s: int, slot: Map<(int, int, int), int>, lt: int, ht: int, jt: int) -> bool {
    forall|l1: int, h1: int, j1: int, l2: int, h2: int, j2: int|
        shell_use(b, s, l1, h1, j1) && shell_use(b, s, l2, h2, j2) && before3(l1, h1, j1, l2, h2, j2)
            && before3(l2, h2, j2, lt, ht, jt) && #[trigger] use_edge(b, s, l1, h1, j1)
            == #[trigger] use_edge(b, s, l2, h2, j2) ==> slot[(l1, h1, j1)] != slot[(l2, h2, j2)]
}

/// Two entries of one edge list with the same direction belong to two
/// different uses of the same edge in the same direction.
proof fn lemma_same_direction(
    b: RawBrep,
    s: int,
    incidence: Seq<Vec<(usize, bool)>>,
    slot: Map<(int, int, int), int>,
    n: int,
    e: int,
    a: int,
    c: int,
)
    requires
        0 <= e < incidence.len(),
        0 <= a < c < incidence[e]@.len(),
        incidence[e]@[a].1 == incidence[e]@[c].1,
        entries_owned(b, s, incidence, slot, n, -1, 0),
        uses_placed(b, s, incidence, slot, n, -1, 0),
    ensures
        !shell_edges_manifold(b, s),
{
    assert(owned_entry(b, s, slot, e, a, n, -1, 0));
    assert(owned_entry(b, s, slot, e, c, n, -1, 0));
    let (l1, h1, j1) = choose|l: int, hh: int, jj: int|
        shell_use(b, s, l, hh, jj) && before3(l, hh, jj, n, -1, 0) && use_edge(b, s, l, hh, jj).0 == e
            && slot.contains_key((l, hh, jj)) && slot[(l, hh, jj)] == a;
    let (l2, h2, j2) = choose|l: int, hh: int, jj: int|
        shell_use(b, s, l, hh, jj) && before3(l, hh, jj, n, -1, 0) && use_edge(b, s, l, hh, jj).0 == e
            && slot.contains_key((l, hh, jj)) && slot[(l, hh, jj)] == c;
    assert(use_placed(b, s, incidence, slot, l1, h1, j1));
    assert(use_placed(b, s, incidence, slot, l2, h2, j2));
    assert(use_edge(b, s, l1, h1, j1) == use_edge(b, s, l2, h2, j2));
    assert(l1 != l2 || h1 != h2 || j1 != j2);
}

/// A use of a face with a valid handle names an existing wire, coedge and edge.
proof fn lemma_use_in_range(b: RawBrep, s: int, l: int, h: int, j: int)
    requires
        handles_valid(b),
        0 <= s < b.shells@.len(),
        shell_use(b, s, l, h, j),
        b.shells@[s].faces@[l].0 < b.faces@.len(),
    ensures
        0 <= shell_wire(b, s, l, h) < b.wires@.len(),
        b.wires@[shell_wire(b, s, l, h)].coedges@[j].0 < b.coedges@.len(),
        use_edge(b, s, l, h, j).0 < b.edges@.len(),
{
    let f = b.shells@[s].faces@[l].0 as int;
    if h == -1 {
        assert(b.faces@[f].outer.0 < b.wires@.len());
    } else {
        assert(b.faces@[f].holes@[h].0 < b.wires@.len());
    }
    let w = shell_wire(b, s, l, h);
    assert(b.wires@[w].coedges@[j].0 < b.coedges@.len());
    assert(coedge_valid(b, b.wires@[w].coedges@[j].0 as int));
}

/// A list of uses of one edge: at most two, and two run in opposite directions.
spec fn pair_uses_ok(uses: Seq<(usize, bool)>) -> bool {
    uses.len() <= 2 && (uses.len() == 2 ==> uses[0].1 != uses[1].1)
}

/// The start vertex of a use of a face with a valid handle exists.
proof fn lemma_corner_vertex_in_range(b: RawBrep, s: int, l: int, h: int, j: int)
    requires
        handles_valid(b),
        0 <= s < b.shells@.len(),
        shell_use(b, s, l, h, j),
        b.shells@[s].faces@[l].0 < b.faces@.len(),
    ensures
        0 <= corner_vertex(b, s, l, h, j) < b.vertices,
{
    lemma_use_in_range(b, s, l, h, j);
    let c = b.wires@[shell_wire(b, s, l, h)].coedges@[j].0 as int;
    assert(coedge_valid(b, c));
    let e = b.coedges@[c].edge.0 as int;
    assert(b.edges@[e].vertices[0].0 < b.vertices && b.edges@[e].vertices[1].0 < b.vertices);
}

/// An edge meeting `v` at a corner of a shell whose corners are all recorded
/// is a node of the corner list of `v`.
proof fn lemma_corner_node(b: RawBrep, s: int, links: Seq<Vec<(usize, usize)>>, v: int, x: usize)
    requires
        handles_valid(b),
        0 <= s < b.shells@.len(),
        links.len() == b.vertices,
        forall|l: int| 0 <= l < b.shells@[s].faces@.len() ==> (#[trigger] b.shells@[s].faces@[l]).0 < b.faces@.len(),
        corners_complete(b, s, links, b.shells@[s].faces@.len() as int, -1, 0),
        edge_at_vertex(b, s, v, x),
    ensures
        0 <= v < links.len(),
        corner_node(links[v]@, x),
{
    let y = choose|y: usize| corner_at(b, s, v, x, y);
    let (l, h, j) = choose|l: int, h: int, j: int|
        shell_use(b, s, l, h, j) && corner_vertex(b, s, l, h, j) == v && (corner_edges(b, s, l, h, j) == (
        x,
        y,
    ) || corner_edges(b, s, l, h, j) == (y, x));
    lemma_corner_vertex_in_range(b, s, l, h, j);
    assert(before3(l, h, j, b.shells@[s].faces@.len() as int, -1, 0));
    assert(corner_recorded(links, v, corner_edges(b, s, l, h, j)));
    let m = choose|m: int| 0 <= m < links[v]@.len() && links[v]@[m] == corner_edges(b, s, l, h, j);
    assert(links[v]@[m].0 == x || links[v]@[m].1 == x);
}

/// A walk along the recorded corners of `v` is a chain of corners at `v`.
proof fn lemma_vertex_chain(b: RawBrep, s: int, links: Seq<Vec<(usize, usize)>>, v: int, p: Seq<usize>)
    requires
        0 <= v < links.len(),
        corners_sound(b, s, links),
        corner_walk(links[v]@, p),
    ensures
        vertex_chain(b, s, v, p),
{
    assert forall|i: int| 0 <= i < p.len() - 1 implies #[trigger] vertex_step_at(b, s, v, p, i) by {
        assert(corner_step_at(links[v]@, p, i));
        let m = choose|m: int|
            0 <= m < links[v]@.len() && (links[v]@[m] == (p[i], p[i + 1]) || links[v]@[m] == (
            p[i + 1],
            p[i],
        ));
        assert(corner_of(b, s, v, links[v]@[m]));
    }
}

/// Number of `false` entries.
pub open spec fn count_false(s: Seq<bool>) -> nat
    decreases s.len(),
{
    if s.len() == 0 {
        0
    } else {
        count_false(s.drop_last()) + if !s.last() {
            1nat
        } else {
            0nat
        }
    }
}

proof fn lemma_count_false_update(s: Seq<bool>, i: int)
    requires
        0 <= i < s.len(),
        !s[i],
    ensures
        count_false(s.update(i, true)) + 1 == count_false(s),
    decreases s.len(),
{
    if i < s.len() - 1 {
        lemma_count_false_update(s.drop_last(), i);
        assert(s.update(i, true).drop_last() =~= s.drop_last().update(i, true));
    } else {
        assert(s.update(i, true).drop_last() =~= s.drop_last());
    }
}

proof fn lemma_count_false_bound(s: Seq<bool>)
    ensures
        count_false(s) <= s.len(),
    decreases s.len(),
{
    if s.len() > 0 {
        lemma_count_false_bound(s.drop_last());
    }
}

proof fn lemma_count_false_all(n: nat)
    ensures
        count_false(Seq::new(n, |i: int| false)) == n,
    decreases n,
{
    if n > 0 {
        lemma_count_false_all((n - 1) as nat);
        assert(Seq::new(n, |i: int| false).drop_last() =~= Seq::new((n - 1) as nat, |i: int| false));
    }
}

/// Whether a graph given by adjacency lists is connected from node 0, spending
/// the degree of each visited node from the work budget.
/// `p[i]` is a node and `p[i + 1]` one of its neighbours.
spec fn adj_step_at(adj: Seq<Vec<usize>>, p: Seq<int>, i: int) -> bool {
    0 <= p[i] < adj.len() && exists|k: int| 0 <= k < adj[p[i]]@.len() && adj[p[i]]@[k] as int == p[i + 1]
}

/// `p` is a walk along the adjacency lists.
spec fn adj_walk(adj: Seq<Vec<usize>>, p: Seq<int>) -> bool {
    p.len() >= 1 && forall|i: int| 0 <= i < p.len() - 1 ==> #[trigger] adj_step_at(adj, p, i)
}

/// A walk leads from node 0 to node `x`.
spec fn adj_reached(adj: Seq<Vec<usize>>, x: int) -> bool {
    exists|p: Seq<int>| #[trigger] adj_walk(adj, p) && p[0] == 0 && p.last() == x
}

proof fn lemma_adj_step(adj: Seq<Vec<usize>>, x: int, k: int)
    requires
        adj_reached(adj, x),
        0 <= x < adj.len(),
        0 <= k < adj[x]@.len(),
    ensures
        adj_reached(adj, adj[x]@[k] as int),
{
    let p = choose|p: Seq<int>| #[trigger] adj_walk(adj, p) && p[0] == 0 && p.last() == x;
    let q = p.push(adj[x]@[k] as int);
    assert forall|i: int| 0 <= i < q.len() - 1 implies #[trigger] adj_step_at(adj, q, i) by {
        if i < p.len() - 1 {
            assert(adj_step_at(adj, p, i));
            let m = choose|m: int| 0 <= m < adj[p[i]]@.len() && adj[p[i]]@[m] as int == p[i + 1];
            assert(adj[q[i]]@[m] as int == q[i + 1]);
        } else {
            assert(adj[q[i]]@[k] as int == q[i + 1]);
        }
    }
    assert(adj_walk(adj, q));
}

/// Where every two distinct faces sharing an edge are listed as neighbours, a
/// chain of faces from the first face is a walk from it.
proof fn lemma_chain_reached(b: RawBrep, s: int, adj: Seq<Vec<usize>>, p: Seq<int>)
    requires
        0 <= s < b.shells@.len(),
        adj.len() == b.shells@[s].faces@.len(),
        adj.len() <= usize::MAX,
        face_chain(b, s, p),
        p[0] == 0,
        adj.len() > 0,
        forall|a: int, c: int|
            0 <= a < adj.len() && 0 <= c < adj.len() && a != c && #[trigger] faces_share_edge(b, s, a, c)
                ==> adj[a]@.contains(c as usize),
    ensures
        adj_reached(adj, p.last()),
    decreases p.len(),
{
    if p.len() == 1 {
        assert(adj_walk(adj, seq![0int]));
    } else {
        let q = p.drop_last();
        assert forall|i: int| 0 <= i < q.len() - 1 implies #[trigger] face_step_at(b, s, q, i) by {
            assert(face_step_at(b, s, p, i));
        }
        lemma_chain_reached(b, s, adj, q);
        let i = p.len() - 2;
        assert(face_step_at(b, s, p, i));
        let x = p[i];
        let y = p[i + 1];
        assert(q.last() == x);
        assert(p.last() == y);
        let (h1, j1, h2, j2) = choose|h1: int, j1: int, h2: int, j2: int|
            shell_use(b, s, x, h1, j1) && shell_use(b, s, y, h2, j2) && use_edge(b, s, x, h1, j1).0
                == use_edge(b, s, y, h2, j2).0;
        if x != y {
            assert(adj[x]@.contains(y as usize));
            let k = choose|k: int| 0 <= k < adj[x]@.len() && adj[x]@[k] == y as usize;
            lemma_adj_step(adj, x, k);
        }
    }
}

/// Every neighbour of a marked node is marked.
spec fn marks_closed(adj: Seq<Vec<usize>>, seen: Seq<bool>) -> bool {
    forall|x: int, j: int|
        0 <= x < adj.len() && seen[x] && 0 <= j < adj[x]@.len() ==> seen[#[trigger] adj[x]@[j] as int]
}

/// Marks closed under adjacency that hold the start of a walk hold its end.
proof fn lemma_marks_reach(adj: Seq<Vec<usize>>, seen: Seq<bool>, p: Seq<int>)
    requires
        adj_walk(adj, p),
        0 <= p[0] < seen.len(),
        seen.len() == adj.len(),
        seen[p[0]],
        marks_closed(adj, seen),
        forall|x: int, j: int|
            0 <= x < adj.len() && 0 <= j < adj[x]@.len() ==> (#[trigger] adj[x]@[j]) < adj.len(),
    ensures
        0 <= p.last() < seen.len() && seen[p.last()],
    decreases p.len(),
{
    if p.len() > 1 {
        let q = p.drop_last();
        assert forall|i: int| 0 <= i < q.len() - 1 implies #[trigger] adj_step_at(adj, q, i) by {
            assert(adj_step_at(adj, p, i));
            let m = choose|m: int| 0 <= m < adj[p[i]]@.len() && adj[p[i]]@[m] as int == p[i + 1];
            assert(adj[q[i]]@[m] as int == q[i + 1]);
        }
        lemma_marks_reach(adj, seen, q);
        let i = p.len() - 2;
        assert(adj_step_at(adj, p, i));
        let m = choose|m: int| 0 <= m < adj[p[i]]@.len() && adj[p[i]]@[m] as int == p[i + 1];
        assert(seen[adj[p[i]]@[m] as int]);
    }
}

/// Every neighbour of a face shares an edge with it.
spec fn adjacency_sound(b: RawBrep, s: int, adj: Seq<Vec<usize>>) -> bool {
    forall|a: int, k: int|
        0 <= a < adj.len() && 0 <= k < adj[a]@.len() ==> faces_share_edge(b, s, a, #[trigger] adj[a]@[k] as int)
}

/// A walk along sound adjacency lists is a chain of faces.
proof fn lemma_face_chain(b: RawBrep, s: int, adj: Seq<Vec<usize>>, p: Seq<int>)
    requires
        adjacency_sound(b, s, adj),
        adj_walk(adj, p),
    ensures
        face_chain(b, s, p),
{
    assert forall|i: int| 0 <= i < p.len() - 1 implies #[trigger] face_step_at(b, s, p, i) by {
        assert(adj_step_at(adj, p, i));
        let k = choose|k: int| 0 <= k < adj[p[i]]@.len() && adj[p[i]]@[k] as int == p[i + 1];
        assert(faces_share_edge(b, s, p[i], adj[p[i]]@[k] as int));
    }
}

fn reaches_all(adjacency: &Vec<Vec<usize>>, work: &mut usize) -> (r: Result<bool, Report>)
    requires
        adjacency@.len() > 0,
        forall|i: int, k: int|
            0 <= i < adjacency@.len() && 0 <= k < adjacency@[i]@.len() ==> (#[trigger] adjacency@[i]@[k])
                < adjacency@.len(),
    ensures
        *final(work) <= *old(work),
        r matches Err(e) ==> e.defect == Defect::ResourceLimit,
        r matches Ok(b) ==> (b <==> forall|x: int| 0 <= x < adjacency@.len() ==> #[trigger] adj_reached(adjacency@, x)),
{
    let n = adjacency.len();
    let mut seen: Vec<bool> = vec![false; n];
    proof {
        lemma_count_false_all(n as nat);
        assert(seen@ =~= Seq::new(n as nat, |i: int| false));
        lemma_count_false_update(seen@, 0);
    }
    let mut stack: Vec<usize> = Vec::new();
    seen.set(0, true);
    stack.push(0);
    proof {
        assert(stack@[0] == 0);
        assert forall|x: int| 0 <= x < n && seen@[x] implies x == 0 by {
            assert(seen@[x] == Seq::new(n as nat, |i: int| false).update(0, true)[x]);
        }
        assert(adj_walk(adjacency@, seq![0int]));
        assert(adj_reached(adjacency@, 0));
    }
    let mut unseen: usize = n - 1;
    while stack.len() > 0
        invariant
            n == adjacency@.len(),
            seen@.len() == n,
            forall|x: int| 0 <= x < n && #[trigger] seen@[x] ==> adj_reached(adjacency@, x),
            forall|m: int| 0 <= m < stack@.len() ==> seen@[#[trigger] stack@[m] as int],
            *work <= *old(work),
            unseen == count_false(seen@),
            forall|i: int, k: int|
                0 <= i < adjacency@.len() && 0 <= k < adjacency@[i]@.len() ==> (#[trigger] adjacency@[i]@[k])
                    < adjacency@.len(),
            forall|k: int| 0 <= k < stack@.len() ==> (#[trigger] stack@[k]) < n,
            seen@[0],
            forall|x: int, j: int|
                0 <= x < n && seen@[x] && 0 <= j < adjacency@[x]@.len() ==> seen@[#[trigger] adjacency@[x]@[j] as int]
                    || stack@.contains(x as usize),
        decreases unseen, stack@.len(),
    {
        let ghost s0 = stack@;
        let i = stack.pop().unwrap();
        let ghost s1 = stack@;
        proof {
            assert(s0 == s1.push(i));
            assert forall|y: usize| s0.contains(y) && y != i implies s1.contains(y) by {
                let m = choose|m: int| 0 <= m < s0.len() && s0[m] == y;
                assert(m < s1.len());
                assert(s1[m] == y);
            }
        }
        let neighbours = &adjacency[i];
        spend(work, neighbours.len())?;
        let ghost base_len = stack@.len();
        let ghost base_unseen = unseen;
        let mut k: usize = 0;
        while k < neighbours.len()
            invariant
                k <= neighbours@.len(),
                *neighbours == adjacency@[i as int],
                n == adjacency@.len(),
                seen@.len() == n,
                unseen == count_false(seen@),
                unseen <= base_unseen,
                stack@.len() + unseen == base_len + base_unseen,
                forall|m: int| 0 <= m < neighbours@.len() ==> (#[trigger] neighbours@[m]) < n,
                forall|m: int| 0 <= m < stack@.len() ==> (#[trigger] stack@[m]) < n,
                i < n,
                adj_reached(adjacency@, i as int),
                forall|x: int| 0 <= x < n && #[trigger] seen@[x] ==> adj_reached(adjacency@, x),
                forall|m: int| 0 <= m < stack@.len() ==> seen@[#[trigger] stack@[m] as int],
                seen@[0],
                seen@[i as int],
                forall|a: int, b: int|
                    0 <= a < adjacency@.len() && 0 <= b < adjacency@[a]@.len() ==> (#[trigger] adjacency@[a]@[b])
                        < adjacency@.len(),
                forall|m: int| 0 <= m < k ==> seen@[#[trigger] neighbours@[m] as int],
                forall|y: usize| #[trigger] s1.contains(y) ==> stack@.contains(y),
                forall|x: int, j: int|
                    0 <= x < n && seen@[x] && 0 <= j < adjacency@[x]@.len() ==> seen@[#[trigger] adjacency@[x]@[j] as int]
                        || stack@.contains(x as usize) || x == i,
            decreases neighbours@.len() - k,
        {
            let j = neighbours[k];
            let ghost s2 = stack@;
            let ghost seen0 = seen@;
            if !seen[j] {
                proof {
                    lemma_count_false_update(seen@, j as int);
                    lemma_adj_step(adjacency@, i as int, k as int);
                }
                seen.set(j, true);
                stack.push(j);
                unseen -= 1;
                proof {
                    assert(stack@[stack@.len() - 1] == j);
                    assert forall|y: usize| s2.contains(y) implies #[trigger] stack@.contains(y) by {
                        let m = choose|m: int| 0 <= m < s2.len() && s2[m] == y;
                        assert(stack@[m] == y);
                    }
                    assert forall|x: int, jj: int|
                        0 <= x < n && seen@[x] && 0 <= jj < adjacency@[x]@.len() implies seen@[#[trigger] adjacency@[x]@[jj] as int]
                            || stack@.contains(x as usize) || x == i by {
                        if x == j {
                            assert(stack@.contains(x as usize));
                        } else {
                            assert(seen0[x]);
                            let y = adjacency@[x]@[jj] as int;
                            assert(0 <= y < n);
                            if seen0[y] {
                                assert(seen@ == seen0.update(j as int, true));
                                assert(seen@[y]);
                            } else if s2.contains(x as usize) {
                                assert(stack@.contains(x as usize));
                            }
                        }
                    }
                }
            }
            k += 1;
        }
        proof {
            assert forall|x: int, jj: int|
                0 <= x < n && seen@[x] && 0 <= jj < adjacency@[x]@.len() implies seen@[#[trigger] adjacency@[x]@[jj] as int]
                    || stack@.contains(x as usize) by {
                if x == i {
                    assert(neighbours@[jj] == adjacency@[x]@[jj]);
                }
            }
        }
    }
    proof {
        assert(marks_closed(adjacency@, seen@));
    }
    let mut i: usize = 0;
    while i < n
        invariant
            i <= n,
            seen@.len() == n,
            n == adjacency@.len(),
            *work <= *old(work),
            forall|x: int| 0 <= x < n && #[trigger] seen@[x] ==> adj_reached(adjacency@, x),
            forall|x: int| 0 <= x < i ==> #[trigger] seen@[x],
            seen@[0],
            marks_closed(adjacency@, seen@),
            forall|a: int, b: int|
                0 <= a < adjacency@.len() && 0 <= b < adjacency@[a]@.len() ==> (#[trigger] adjacency@[a]@[b])
                    < adjacency@.len(),
        decreases n - i,
    {
        if !seen[i] {
            proof {
                if adj_reached(adjacency@, i as int) {
                    let p = choose|p: Seq<int>| #[trigger] adj_walk(adjacency@, p) && p[0] == 0 && p.last() == i;
                    lemma_marks_reach(adjacency@, seen@, p);
                }
                assert(!adj_reached(adjacency@, i as int));
            }
            return Ok(false);
        }
        i += 1;
    }
    proof {
        assert forall|x: int| 0 <= x < adjacency@.len() implies #[trigger] adj_reached(adjacency@, x) by {
            assert(seen@[x]);
        }
    }
    Ok(true)
}

/// Some corner pair joins `x` and `y`.
spec fn corner_step(corners: Seq<(usize, usize)>, x: usize, y: usize) -> bool {
    exists|m: int| 0 <= m < corners.len() && (corners[m] == (x, y) || corners[m] == (y, x))
}

spec fn corner_step_at(corners: Seq<(usize, usize)>, p: Seq<usize>, i: int) -> bool {
    corner_step(corners, p[i], p[i + 1])
}

/// `p` is a walk along the corner pairs.
spec fn corner_walk(corners: Seq<(usize, usize)>, p: Seq<usize>) -> bool {
    p.len() >= 1 && forall|i: int| 0 <= i < p.len() - 1 ==> #[trigger] corner_step_at(corners, p, i)
}

/// A walk along the corner pairs leads from `x` to `y`.
spec fn corner_joined(corners: Seq<(usize, usize)>, x: usize, y: usize) -> bool {
    exists|p: Seq<usize>| #[trigger] corner_walk(corners, p) && p[0] == x && p.last() == y
}

/// `x` is an edge of some corner pair.
spec fn corner_node(corners: Seq<(usize, usize)>, x: usize) -> bool {
    exists|m: int| 0 <= m < corners.len() && (corners[m].0 == x || corners[m].1 == x)
}

/// Any two edges of the corner pairs are joined by a walk along them.
spec fn corners_connected(corners: Seq<(usize, usize)>) -> bool {
    forall|x: usize, y: usize|
        corner_node(corners, x) && corner_node(corners, y) ==> #[trigger] corner_joined(corners, x, y)
}

proof fn lemma_corner_symmetric(corners: Seq<(usize, usize)>, x: usize, y: usize)
    requires
        corner_joined(corners, x, y),
    ensures
        corner_joined(corners, y, x),
{
    let p = choose|p: Seq<usize>| #[trigger] corner_walk(corners, p) && p[0] == x && p.last() == y;
    let q = p.reverse();
    assert forall|i: int| 0 <= i < q.len() - 1 implies #[trigger] corner_step_at(corners, q, i) by {
        let m = p.len() - 2 - i;
        assert(corner_step_at(corners, p, m));
        let k = choose|k: int|
            0 <= k < corners.len() && (corners[k] == (p[m], p[m + 1]) || corners[k] == (p[m + 1], p[m]));
        assert(q[i] == p[m + 1] && q[i + 1] == p[m]);
        assert(corners[k] == (q[i], q[i + 1]) || corners[k] == (q[i + 1], q[i]));
    }
    assert(corner_walk(corners, q));
}

proof fn lemma_corner_trans(corners: Seq<(usize, usize)>, x: usize, y: usize, z: usize)
    requires
        corner_joined(corners, x, y),
        corner_joined(corners, y, z),
    ensures
        corner_joined(corners, x, z),
{
    let p = choose|p: Seq<usize>| #[trigger] corner_walk(corners, p) && p[0] == x && p.last() == y;
    let q = choose|q: Seq<usize>| #[trigger] corner_walk(corners, q) && q[0] == y && q.last() == z;
    let r = p + q.drop_first();
    assert forall|i: int| 0 <= i < r.len() - 1 implies #[trigger] corner_step_at(corners, r, i) by {
        if i < p.len() - 1 {
            assert(corner_step_at(corners, p, i));
        } else {
            let m = i - p.len() + 1;
            assert(corner_step_at(corners, q, m));
            assert(r[i] == q[m] && r[i + 1] == q[m + 1]);
        }
    }
    assert(corner_walk(corners, r));
}

/// A walk from `start` in adjacency lists whose entries are corner steps,
/// relabelled through `nodes`, is a corner walk.
proof fn lemma_corner_walk(
    corners: Seq<(usize, usize)>,
    nodes: Seq<usize>,
    adjacency: Seq<Vec<usize>>,
    order: Seq<Vec<usize>>,
    start: int,
    p: Seq<int>,
)
    requires
        nodes.len() == adjacency.len(),
        order.len() == adjacency.len(),
        0 <= start < nodes.len(),
        forall|i: int, j: int|
            0 <= i < adjacency.len() && 0 <= j < adjacency[i]@.len() ==> #[trigger] adjacency[i]@[j] < nodes.len()
                && corner_step(corners, nodes[i], nodes[adjacency[i]@[j] as int]),
        forall|i: int|
            0 <= i < order.len() ==> (#[trigger] order[i])@.len() == adjacency[swap(i, start)]@.len() && forall|
                j: int,
            | 0 <= j < order[i]@.len() ==> #[trigger] order[i]@[j] as int == swap(
                adjacency[swap(i, start)]@[j] as int,
                start,
            ),
        adj_walk(order, p),
        p[0] == 0,
    ensures
        corner_walk(corners, Seq::new(p.len(), |i: int| nodes[swap(p[i], start)])),
        forall|i: int| 0 <= i < p.len() ==> 0 <= #[trigger] p[i] < nodes.len(),
{
    let q = Seq::new(p.len(), |i: int| nodes[swap(p[i], start)]);
    assert forall|i: int| 0 <= i < p.len() implies 0 <= #[trigger] p[i] < nodes.len() by {
        if i > 0 {
            assert(adj_step_at(order, p, i - 1));
        }
    }
    assert forall|i: int| 0 <= i < q.len() - 1 implies #[trigger] corner_step_at(corners, q, i) by {
        assert(adj_step_at(order, p, i));
        let k = choose|k: int| 0 <= k < order[p[i]]@.len() && order[p[i]]@[k] as int == p[i + 1];
        let a = swap(p[i], start);
        assert(order[p[i]]@[k] as int == swap(adjacency[a]@[k] as int, start));
        assert(adjacency[a]@[k] < nodes.len());
        assert(swap(p[i + 1], start) == adjacency[a]@[k] as int);
        assert(corner_step(corners, nodes[a], nodes[adjacency[a]@[k] as int]));
    }
    assert(corner_walk(corners, q));
}

/// Labels 0 and `start` exchanged.
spec fn swap(i: int, start: int) -> int {
    if i == 0 {
        start
    } else if i == start {
        0
    } else {
        i
    }
}

/// Adjacency list `x` holds `y`.
spec fn adj_has(adj: Seq<Vec<usize>>, x: int, y: int) -> bool {
    adj[x]@.contains(y as usize)
}

/// Each corner pair joins, in both directions, the positions of its two edges.
spec fn corners_recorded(corners: Seq<(usize, usize)>, k: int, nodes: Seq<usize>, adj: Seq<Vec<usize>>) -> bool {
    forall|m: int, x: int, y: int|
        #![trigger corners[m], nodes[x], nodes[y]]
        0 <= m < k && 0 <= x < nodes.len() && 0 <= y < nodes.len() && nodes[x] == corners[m].0 && nodes[y]
            == corners[m].1 ==> adj_has(adj, x, y) && adj_has(adj, y, x)
}

/// A corner walk between edges that are nodes is a walk in the relabelled
/// adjacency lists.
proof fn lemma_walk_order(
    corners: Seq<(usize, usize)>,
    nodes: Seq<usize>,
    adjacency: Seq<Vec<usize>>,
    order: Seq<Vec<usize>>,
    start: int,
    p: Seq<usize>,
) -> (q: Seq<int>)
    requires
        nodes.len() == adjacency.len(),
        order.len() == adjacency.len(),
        0 <= start < nodes.len(),
        nodes.no_duplicates(),
        nodes.len() <= usize::MAX,
        forall|m: int|
            0 <= m < corners.len() ==> (exists|x: int| 0 <= x < nodes.len() && nodes[x] == (#[trigger] corners[m]).0)
                && (exists|x: int| 0 <= x < nodes.len() && nodes[x] == corners[m].1),
        corners_recorded(corners, corners.len() as int, nodes, adjacency),
        forall|i: int|
            0 <= i < order.len() ==> (#[trigger] order[i])@.len() == adjacency[swap(i, start)]@.len() && forall|
                j: int,
            | 0 <= j < order[i]@.len() ==> #[trigger] order[i]@[j] as int == swap(
                adjacency[swap(i, start)]@[j] as int,
                start,
            ),
        corner_walk(corners, p),
        exists|x: int| 0 <= x < nodes.len() && nodes[x] == p[0],
    ensures
        adj_walk(order, q),
        q.len() == p.len(),
        forall|i: int, x: int| 0 <= i < p.len() && 0 <= x < nodes.len() && nodes[x] == p[i] ==> q[i] == swap(x, start),
{
    let pos = |v: usize| choose|x: int| 0 <= x < nodes.len() && nodes[x] == v;
    assert forall|i: int| 0 <= i < p.len() implies exists|x: int| 0 <= x < nodes.len() && nodes[x] == #[trigger] p[i] by {
        if i > 0 {
            assert(corner_step_at(corners, p, i - 1));
            let m = choose|m: int| 0 <= m < corners.len() && (corners[m] == (p[i - 1], p[i]) || corners[m] == (p[i], p[i - 1]));
            assert(exists|x: int| 0 <= x < nodes.len() && nodes[x] == corners[m].0);
            assert(exists|x: int| 0 <= x < nodes.len() && nodes[x] == corners[m].1);
        }
    }
    let q = Seq::new(p.len(), |i: int| swap(pos(p[i]), start));
    assert forall|i: int, x: int| 0 <= i < p.len() && 0 <= x < nodes.len() && nodes[x] == p[i] implies q[i] == swap(x, start) by {
        assert(exists|y: int| 0 <= y < nodes.len() && nodes[y] == p[i]);
        let y = pos(p[i]);
        assert(nodes[y] == p[i]);
        assert(x == y);
    }
    assert forall|i: int| 0 <= i < q.len() - 1 implies #[trigger] adj_step_at(order, q, i) by {
        assert(exists|y: int| 0 <= y < nodes.len() && nodes[y] == p[i]);
        assert(exists|y: int| 0 <= y < nodes.len() && nodes[y] == p[i + 1]);
        let a = pos(p[i]);
        let b = pos(p[i + 1]);
        assert(nodes[a] == p[i] && nodes[b] == p[i + 1]);
        assert(corner_step_at(corners, p, i));
        let m = choose|m: int| 0 <= m < corners.len() && (corners[m] == (p[i], p[i + 1]) || corners[m] == (p[i + 1], p[i]));
        if corners[m] == (p[i], p[i + 1]) {
            assert(adj_has(adjacency, a, b));
        } else {
            assert(adj_has(adjacency, b, a) && adj_has(adjacency, a, b));
        }
        let j = choose|j: int| 0 <= j < adjacency[a]@.len() && adjacency[a]@[j] == b as usize;
        let qa = swap(a, start);
        assert(swap(qa, start) == a);
        assert(0 <= qa < order.len());
        assert(order[qa]@.len() == adjacency[a]@.len());
        assert(adjacency[a]@[j] as int == b);
        assert(order[qa]@[j] as int == swap(adjacency[a]@[j] as int, start));
        assert(q[i] == qa);
        assert(q[i + 1] == swap(b, start));
        assert(order[q[i]]@[j] as int == q[i + 1]);
    }
    q
}

/// The number of ends of the corner pairs `cs` at edge `x`.
spec fn corner_degree(cs: Seq<(usize, usize)>, x: usize) -> nat
    decreases cs.len(),
{
    if cs.len() == 0 {
        0
    } else {
        corner_degree(cs.drop_last(), x) + (if cs.last().0 == x {
            1nat
        } else {
            0nat
        }) + (if cs.last().1 == x {
            1nat
        } else {
            0nat
        })
    }
}

/// Every edge of the corner pairs ends at most two of them, and exactly two
/// when `closed`.
spec fn degrees_ok(cs: Seq<(usize, usize)>, closed: bool) -> bool {
    forall|x: usize|
        corner_node(cs, x) ==> #[trigger] corner_degree(cs, x) <= 2 && (closed ==> corner_degree(cs, x) == 2)
}

proof fn lemma_degree_zero(cs: Seq<(usize, usize)>, x: usize)
    requires
        forall|m: int| 0 <= m < cs.len() ==> (#[trigger] cs[m]).0 != x && cs[m].1 != x,
    ensures
        corner_degree(cs, x) == 0,
    decreases cs.len(),
{
    if cs.len() > 0 {
        let d = cs.drop_last();
        assert forall|m: int| 0 <= m < d.len() implies (#[trigger] d[m]).0 != x && d[m].1 != x by {
            assert(d[m] == cs[m]);
        }
        lemma_degree_zero(d, x);
        assert(cs[cs.len() - 1] == cs.last());
    }
}

/// Whether the corner pairs around a vertex form one path or one cycle of edges
/// (one cycle when `closed`): degrees at most 2 (exactly 2 when closed), and
/// connected from the smallest edge, spending each visited degree.
fn link_is_manifold(corners: &Vec<(usize, usize)>, edges: usize, closed: bool, work: &mut usize) -> (r: Result<
    bool,
    Report,
>)
    requires
        corners@.len() > 0,
        forall|k: int| 0 <= k < corners@.len() ==> (#[trigger] corners@[k]).0 < edges && corners@[k].1 < edges,
    ensures
        *final(work) <= *old(work),
        r matches Err(e) ==> e.defect == Defect::ResourceLimit,
        r == Ok::<bool, Report>(true) ==> corners_connected(corners@),
        r == Ok::<bool, Report>(true) ==> degrees_ok(corners@, closed),
        r == Ok::<bool, Report>(false) ==> !degrees_ok(corners@, closed) || !corners_connected(corners@),
{
    let mut nodes: Vec<usize> = Vec::new();
    let mut adjacency: Vec<Vec<usize>> = Vec::new();
    let mut k: usize = 0;
    while k < corners.len()
        invariant
            k <= corners@.len(),
            nodes@.len() == adjacency@.len(),
            nodes@.len() <= 2 * k,
            forall|m: int| 0 <= m < corners@.len() ==> (#[trigger] corners@[m]).0 < edges && corners@[m].1 < edges,
            forall|i: int, j: int|
                0 <= i < adjacency@.len() && 0 <= j < adjacency@[i]@.len() ==> #[trigger] adjacency@[i]@[j]
                    < nodes@.len() && corner_step(corners@, nodes@[i], nodes@[adjacency@[i]@[j] as int]),
            forall|m: int|
                0 <= m < k ==> (exists|x: int| 0 <= x < nodes@.len() && nodes@[x] == (#[trigger] corners@[m]).0)
                    && (exists|x: int| 0 <= x < nodes@.len() && nodes@[x] == corners@[m].1),
            k > 0 ==> nodes@.len() > 0,
            nodes@.no_duplicates(),
            forall|x: int| 0 <= x < nodes@.len() ==> #[trigger] corner_node(corners@, nodes@[x]),
            forall|x: int|
                0 <= x < nodes@.len() ==> (#[trigger] adjacency@[x])@.len() == corner_degree(
                    corners@.take(k as int),
                    nodes@[x],
                ),
            corners_recorded(corners@, k as int, nodes@, adjacency@),
        decreases corners@.len() - k,
    {
        let (a, b) = corners[k];
        let ghost nodes0 = nodes@;
        let ghost adj00 = adjacency@;
        let ia = node_index(&mut nodes, &mut adjacency, a);
        let ghost nodes1 = nodes@;
        let ib = node_index(&mut nodes, &mut adjacency, b);
        let ghost nodes2 = nodes@;
        let ghost adjn = adjacency@;
        proof {
            assert(forall|x: int| 0 <= x < nodes0.len() ==> nodes2[x] == nodes0[x]);
            assert(nodes2[ia as int] == a);
        }
        let mut la = copy_vec(&adjacency[ia]);
        la.push(ib);
        adjacency.set(ia, la);
        let ghost adj1 = adjacency@;
        let mut lb = copy_vec(&adjacency[ib]);
        lb.push(ia);
        adjacency.set(ib, lb);
        proof {
            assert(corners@.take(k + 1).drop_last() =~= corners@.take(k as int));
            assert(corners@.take(k + 1).last() == (a, b));
            assert(corner_node(corners@, a) && corner_node(corners@, b)) by {
                assert(corners@[k as int] == (a, b));
            }
            assert(nodes@.no_duplicates()) by {
                if !nodes0.contains(a) {
                    assert(nodes1 == nodes0.push(a));
                }
                if !nodes1.contains(b) {
                    assert(nodes2 == nodes1.push(b));
                }
                assert forall|i: int, j: int| 0 <= i < nodes2.len() && 0 <= j < nodes2.len() && i != j implies nodes2[i] != nodes2[j] by {
                    if nodes1.len() > nodes0.len() && (i == nodes0.len() || j == nodes0.len()) {
                        assert(!nodes0.contains(a));
                        if i < nodes0.len() {
                            assert(nodes0[i] == nodes2[i]);
                        }
                        if j < nodes0.len() {
                            assert(nodes0[j] == nodes2[j]);
                        }
                    }
                    if nodes2.len() > nodes1.len() && (i == nodes1.len() || j == nodes1.len()) {
                        assert(!nodes1.contains(b));
                        if i < nodes1.len() {
                            assert(nodes1[i] == nodes2[i]);
                        }
                        if j < nodes1.len() {
                            assert(nodes1[j] == nodes2[j]);
                        }
                    }
                }
            }
            assert forall|x: int| 0 <= x < nodes@.len() implies #[trigger] corner_node(corners@, nodes@[x]) by {
                if x < nodes0.len() {
                    assert(nodes@[x] == nodes0[x]);
                } else if x < nodes1.len() {
                    assert(nodes1[x] == a);
                } else {
                    assert(nodes2[x] == b);
                }
            }
            assert forall|x: int| 0 <= x < nodes@.len() implies (#[trigger] adjacency@[x])@.len() == corner_degree(
                corners@.take(k + 1),
                nodes@[x],
            ) by {
                let c = corners@.take(k as int);
                if x < nodes0.len() {
                    assert(nodes@[x] == nodes0[x]);
                    assert(adjn[x] == adj00[x]);
                } else {
                    assert(adjn[x]@.len() == 0);
                    assert forall|m: int| 0 <= m < c.len() implies (#[trigger] c[m]).0 != nodes@[x] && c[m].1 != nodes@[x] by {
                        assert(c[m] == corners@[m]);
                        let x0 = choose|y: int| 0 <= y < nodes0.len() && nodes0[y] == corners@[m].0;
                        let x1 = choose|y: int| 0 <= y < nodes0.len() && nodes0[y] == corners@[m].1;
                        assert(nodes@[x0] == nodes0[x0]);
                        assert(nodes@[x1] == nodes0[x1]);
                    }
                    lemma_degree_zero(c, nodes@[x]);
                }
                assert((nodes@[x] == a) == (x == ia));
                assert((nodes@[x] == b) == (x == ib));
                if x == ia && x == ib {
                    assert(adjacency@[x]@.len() == adjn[x]@.len() + 2);
                } else if x == ia {
                    assert(adjacency@[x]@.len() == adjn[x]@.len() + 1);
                } else if x == ib {
                    assert(adjacency@[x]@.len() == adjn[x]@.len() + 1);
                } else {
                    assert(adjacency@[x] == adjn[x]);
                }
            }
            assert forall|x: int, y: usize| 0 <= x < adj00.len() && adj00[x]@.contains(y) implies #[trigger] adjacency@[x]@.contains(y) by {
                let j = choose|j: int| 0 <= j < adj00[x]@.len() && adj00[x]@[j] == y;
                assert(adjn[x] == adj00[x]);
                assert(adj1[x]@[j] == y);
                assert(adjacency@[x]@[j] == y);
            }
            assert(adjacency@[ia as int]@.contains(ib)) by {
                assert(adj1[ia as int]@[adjn[ia as int]@.len() as int] == ib);
                if ia == ib {
                    assert(adjacency@[ia as int]@[adjn[ia as int]@.len() as int] == ib);
                } else {
                    assert(adjacency@[ia as int] == adj1[ia as int]);
                }
            }
            assert(adjacency@[ib as int]@.contains(ia)) by {
                assert(adjacency@[ib as int]@[adj1[ib as int]@.len() as int] == ia);
            }
            assert forall|m: int, x: int, y: int|
                #![trigger corners@[m], nodes@[x], nodes@[y]]
                0 <= m < k + 1 && 0 <= x < nodes@.len() && 0 <= y < nodes@.len() && nodes@[x] == corners@[m].0
                    && nodes@[y] == corners@[m].1 implies adj_has(adjacency@, x, y) && adj_has(adjacency@, y, x) by {
                if m == k {
                    assert(nodes@[ia as int] == a && nodes@[ib as int] == b);
                    assert(x == ia && y == ib);
                } else {
                    assert(x < nodes0.len() && y < nodes0.len()) by {
                        let x0 = choose|z: int| 0 <= z < nodes0.len() && nodes0[z] == corners@[m].0;
                        let x1 = choose|z: int| 0 <= z < nodes0.len() && nodes0[z] == corners@[m].1;
                        assert(nodes@[x0] == nodes0[x0] && nodes@[x1] == nodes0[x1]);
                    }
                    assert(nodes0[x] == nodes@[x] && nodes0[y] == nodes@[y]);
                    assert(adj_has(adj00, x, y) && adj_has(adj00, y, x));
                }
            }
        }
        proof {
            assert(corners@[k as int] == (a, b));
            assert(corner_step(corners@, a, b));
            assert(corner_step(corners@, b, a));
            assert forall|i: int, j: int|
                0 <= i < adjacency@.len() && 0 <= j < adjacency@[i]@.len() implies #[trigger] adjacency@[i]@[j]
                < nodes@.len() && corner_step(corners@, nodes@[i], nodes@[adjacency@[i]@[j] as int]) by {
                if i == ib && j == adjacency@[i]@.len() - 1 {
                } else if i == ia && j == adj1[i]@.len() - 1 {
                    if i == ib {
                        assert(adjacency@[i]@[j] == adj1[i]@[j]);
                    }
                } else {
                    let jj = j;
                    assert(adjacency@[i]@[j] == adjn[i]@[jj]);
                    if i < adj00.len() {
                        assert(adjn[i] == adj00[i]);
                        assert(nodes@[i] == nodes0[i]);
                        assert(nodes@[adjacency@[i]@[j] as int] == nodes0[adj00[i]@[jj] as int]);
                    }
                }
            }
            assert forall|m: int| 0 <= m < k + 1 implies (exists|x: int|
                0 <= x < nodes@.len() && nodes@[x] == (#[trigger] corners@[m]).0) && (exists|x: int|
                0 <= x < nodes@.len() && nodes@[x] == corners@[m].1) by {
                if m == k {
                    assert(nodes@[ia as int] == a);
                    assert(nodes@[ib as int] == b);
                } else {
                    let x0 = choose|x: int| 0 <= x < nodes0.len() && nodes0[x] == corners@[m].0;
                    let x1 = choose|x: int| 0 <= x < nodes0.len() && nodes0[x] == corners@[m].1;
                    assert(nodes@[x0] == corners@[m].0);
                    assert(nodes@[x1] == corners@[m].1);
                }
            }
        }
        k += 1;
    }
    proof {
        assert(corners@.take(k as int) =~= corners@);
    }
    let mut i: usize = 0;
    while i < adjacency.len()
        invariant
            i <= adjacency@.len(),
            nodes@.len() == adjacency@.len(),
            forall|x: int| 0 <= x < nodes@.len() ==> #[trigger] corner_node(corners@, nodes@[x]),
            forall|x: int|
                0 <= x < nodes@.len() ==> (#[trigger] adjacency@[x])@.len() == corner_degree(corners@, nodes@[x]),
            forall|x: int| 0 <= x < i ==> (#[trigger] adjacency@[x])@.len() <= 2 && (closed ==> adjacency@[x]@.len() == 2),
        decreases adjacency@.len() - i,
    {
        let degree = adjacency[i].len();
        if degree > 2 || (closed && degree != 2) {
            proof {
                assert(corner_node(corners@, nodes@[i as int]));
                assert(adjacency@[i as int]@.len() == corner_degree(corners@, nodes@[i as int]));
                assert(!degrees_ok(corners@, closed));
            }
            return Ok(false);
        }
        i += 1;
    }
    proof {
        assert forall|x: usize| corner_node(corners@, x) implies #[trigger] corner_degree(corners@, x) <= 2 && (closed
            ==> corner_degree(corners@, x) == 2) by {
            let m = choose|m: int| 0 <= m < corners@.len() && (corners@[m].0 == x || corners@[m].1 == x);
            assert(exists|y: int| 0 <= y < nodes@.len() && nodes@[y] == (#[trigger] corners@[m]).0);
            assert(exists|y: int| 0 <= y < nodes@.len() && nodes@[y] == corners@[m].1);
            let y = choose|y: int| 0 <= y < nodes@.len() && nodes@[y] == x;
            assert(adjacency@[y]@.len() <= 2);
        }
        assert(degrees_ok(corners@, closed));
    }
    let mut start: usize = 0;
    let mut i: usize = 1;
    while i < nodes.len()
        invariant
            1 <= i <= nodes@.len() || nodes@.len() == 0,
            start < nodes@.len() || nodes@.len() == 0,
        decreases nodes@.len() - i,
    {
        if nodes[i] < nodes[start] {
            start = i;
        }
        i += 1;
    }
    let n = adjacency.len();
    let mut order: Vec<Vec<usize>> = Vec::new();
    let mut i: usize = 0;
    while i < n
        invariant
            i <= n,
            n == adjacency@.len(),
            n == nodes@.len(),
            start < n,
            order@.len() == i,
            forall|p: int|
                0 <= p < i ==> (#[trigger] order@[p])@.len() == adjacency@[swap(p, start as int)]@.len()
                    && forall|q: int|
                    0 <= q < order@[p]@.len() ==> #[trigger] order@[p]@[q] as int == swap(
                        adjacency@[swap(p, start as int)]@[q] as int,
                        start as int,
                    ),
            forall|p: int, q: int|
                0 <= p < adjacency@.len() && 0 <= q < adjacency@[p]@.len() ==> (#[trigger] adjacency@[p]@[q]) < n,
            forall|p: int, q: int|
                0 <= p < order@.len() && 0 <= q < order@[p]@.len() ==> (#[trigger] order@[p]@[q]) < n,
        decreases n - i,
    {
        let mut relabeled: Vec<usize> = Vec::new();
        let list = &adjacency[relabel(i, start)];
        let mut j: usize = 0;
        while j < list.len()
            invariant
                j <= list@.len(),
                start < n,
                relabeled@.len() == j,
                forall|q: int| 0 <= q < list@.len() ==> (#[trigger] list@[q]) < n,
                forall|q: int| 0 <= q < relabeled@.len() ==> (#[trigger] relabeled@[q]) < n,
                forall|q: int|
                    0 <= q < j ==> #[trigger] relabeled@[q] as int == swap(list@[q] as int, start as int),
            decreases list@.len() - j,
        {
            relabeled.push(relabel(list[j], start));
            j += 1;
        }
        order.push(relabeled);
        i += 1;
    }
    let r = reaches_all(&order, work);
    proof {
        if r == Ok::<bool, Report>(false) && corners_connected(corners@) {
            let y = choose|y: int| 0 <= y < order@.len() && !adj_reached(order@, y);
            let x = swap(y, start as int);
            assert(0 <= x < nodes@.len());
            assert(corner_node(corners@, nodes@[start as int]));
            assert(corner_node(corners@, nodes@[x]));
            assert(corner_joined(corners@, nodes@[start as int], nodes@[x]));
            let p = choose|p: Seq<usize>| #[trigger] corner_walk(corners@, p) && p[0] == nodes@[start as int] && p.last() == nodes@[x];
            let q = lemma_walk_order(corners@, nodes@, adjacency@, order@, start as int, p);
            assert(q[0] == swap(start as int, start as int));
            assert(q[q.len() - 1] == swap(x, start as int));
            assert(swap(x, start as int) == y);
            assert(adj_reached(order@, y));
        }
    }
    proof {
        if r == Ok::<bool, Report>(true) {
            assert forall|y: int| 0 <= y < nodes@.len() implies corner_joined(corners@, nodes@[start as int], #[trigger] nodes@[y]) by {
                let x = swap(y, start as int);
                assert(adj_reached(order@, x));
                let p = choose|p: Seq<int>| #[trigger] adj_walk(order@, p) && p[0] == 0 && p.last() == x;
                lemma_corner_walk(corners@, nodes@, adjacency@, order@, start as int, p);
                let q = Seq::new(p.len(), |i: int| nodes@[swap(p[i], start as int)]);
                assert(q[0] == nodes@[start as int]);
                assert(q.last() == nodes@[y]);
                assert(corner_walk(corners@, q));
            }
            assert forall|x: usize, y: usize|
                corner_node(corners@, x) && corner_node(corners@, y) implies #[trigger] corner_joined(corners@, x, y) by {
                let mx = choose|m: int| 0 <= m < corners@.len() && (corners@[m].0 == x || corners@[m].1 == x);
                let my = choose|m: int| 0 <= m < corners@.len() && (corners@[m].0 == y || corners@[m].1 == y);
                let ix = choose|i: int| 0 <= i < nodes@.len() && nodes@[i] == x;
                let iy = choose|i: int| 0 <= i < nodes@.len() && nodes@[i] == y;
                assert(corner_joined(corners@, nodes@[start as int], nodes@[ix]));
                assert(corner_joined(corners@, nodes@[start as int], nodes@[iy]));
                lemma_corner_symmetric(corners@, nodes@[start as int], x);
                lemma_corner_trans(corners@, x, nodes@[start as int], y);
            }
        }
    }
    r
}

/// Swaps labels 0 and `start`, so that a search from 0 starts at `start`.
fn relabel(i: usize, start: usize) -> (r: usize)
    ensures
        r == (if i == 0 {
            start
        } else if i == start {
            0
        } else {
            i
        }),
{
    if i == 0 {
        start
    } else if i == start {
        0
    } else {
        i
    }
}

/// Position of `edge` among `nodes`, appending it with no neighbours if absent.
fn node_index(nodes: &mut Vec<usize>, adjacency: &mut Vec<Vec<usize>>, edge: usize) -> (r: usize)
    requires
        old(nodes)@.len() == old(adjacency)@.len(),
    ensures
        final(nodes)@.len() == final(adjacency)@.len(),
        r < final(nodes)@.len(),
        final(nodes)@[r as int] == edge,
        final(nodes)@.len() <= old(nodes)@.len() + 1,
        old(nodes)@.len() <= final(nodes)@.len(),
        forall|i: int| 0 <= i < old(adjacency)@.len() ==> final(adjacency)@[i] == old(adjacency)@[i],
        final(nodes)@.len() > old(nodes)@.len() ==> final(adjacency)@.last()@ == Seq::<usize>::empty(),
        forall|i: int| 0 <= i < old(nodes)@.len() ==> final(nodes)@[i] == old(nodes)@[i],
        old(nodes)@.contains(edge) ==> final(nodes)@ == old(nodes)@ && final(adjacency)@ == old(adjacency)@,
        !old(nodes)@.contains(edge) ==> final(nodes)@ == old(nodes)@.push(edge) && r == old(nodes)@.len(),
{
    let mut i: usize = 0;
    while i < nodes.len()
        invariant
            i <= nodes@.len(),
            *nodes == *old(nodes),
            *adjacency == *old(adjacency),
            nodes@.len() == adjacency@.len(),
            forall|k: int| 0 <= k < i ==> nodes@[k] != edge,
        decreases nodes@.len() - i,
    {
        if nodes[i] == edge {
            return i;
        }
        i += 1;
    }
    nodes.push(edge);
    adjacency.push(Vec::new());
    nodes.len() - 1
}

impl RawBrep {
    /// Records the edge uses and vertex corners of wire `w` of the face at
    /// position `local` in its shell.
    #[verifier::spinoff_prover]
    fn collect_wire(
        &self,
        w: usize,
        local: usize,
        faces: usize,
        face_reversed: bool,
        incidence: &mut Vec<Vec<(usize, bool)>>,
        links: &mut Vec<Vec<(usize, usize)>>,
        work: &mut usize,
        shell: Ghost<int>,
        hole: Ghost<int>,
        slot: Ghost<Map<(int, int, int), int>>,
    ) -> (r: Result<Ghost<Map<(int, int, int), int>>, Report>)
        requires
            handles_valid(*self),
            w < self.wires@.len(),
            local < faces,
            0 <= shell@ < self.shells@.len(),
            faces == self.shells@[shell@].faces@.len(),
            forall|l: int| 0 <= l <= local ==> (#[trigger] self.shells@[shell@].faces@[l]).0 < self.faces@.len(),
            -1 <= hole@ < self.faces@[self.shells@[shell@].faces@[local as int].0 as int].holes@.len(),
            w == shell_wire(*self, shell@, local as int, hole@),
            face_reversed == (self.faces@[self.shells@[shell@].faces@[local as int].0 as int].orientation
                == Orientation::Reversed),
            uses_placed(*self, shell@, old(incidence)@, slot@, local as int, hole@, 0),
            uses_apart(*self, shell@, slot@, local as int, hole@, 0),
            entries_owned(*self, shell@, old(incidence)@, slot@, local as int, hole@, 0),
            corners_sound(*self, shell@, old(links)@),
            corners_complete(*self, shell@, old(links)@, local as int, hole@, 0),
            old(incidence)@.len() == self.edges@.len(),
            old(links)@.len() == self.vertices,
            forall|e: int, k: int|
                0 <= e < old(incidence)@.len() && 0 <= k < old(incidence)@[e]@.len() ==> (#[trigger] old(incidence)@[e]@[k]).0 < faces,
            forall|v: int, k: int|
                0 <= v < old(links)@.len() && 0 <= k < old(links)@[v]@.len() ==> (#[trigger] old(links)@[v]@[k]).0
                    < self.edges@.len() && old(links)@[v]@[k].1 < self.edges@.len(),
        ensures
            *final(work) <= *old(work),
            r matches Err(e) ==> e.defect == Defect::ResourceLimit,
            final(incidence)@.len() == self.edges@.len(),
            final(links)@.len() == self.vertices,
            forall|e: int, k: int|
                0 <= e < final(incidence)@.len() && 0 <= k < final(incidence)@[e]@.len() ==> (#[trigger] final(incidence)@[e]@[k]).0 < faces,
            forall|v: int, k: int|
                0 <= v < final(links)@.len() && 0 <= k < final(links)@[v]@.len() ==> (#[trigger] final(links)@[v]@[k]).0 < self.edges@.len() && final(links)@[v]@[k].1 < self.edges@.len(),
            r is Ok ==> corners_sound(*self, shell@, final(links)@) && corners_complete(
                *self,
                shell@,
                final(links)@,
                local as int,
                hole@ + 1,
                0,
            ),
            r matches Ok(next) ==> uses_placed(*self, shell@, final(incidence)@, next@, local as int, hole@ + 1, 0)
                && uses_apart(*self, shell@, next@, local as int, hole@ + 1, 0) && entries_owned(
                *self,
                shell@,
                final(incidence)@,
                next@,
                local as int,
                hole@ + 1,
                0,
            ),
    {
        let cs = &self.wires[w].coedges;
        let n = cs.len();
        spend(work, n)?;
        let ghost mut placed = slot@;
        let mut j: usize = 0;
        while j < n
            invariant
                j <= n,
                0 <= shell@ < self.shells@.len(),
                faces == self.shells@[shell@].faces@.len(),
                forall|l: int| 0 <= l <= local ==> (#[trigger] self.shells@[shell@].faces@[l]).0 < self.faces@.len(),
                -1 <= hole@ < self.faces@[self.shells@[shell@].faces@[local as int].0 as int].holes@.len(),
                w == shell_wire(*self, shell@, local as int, hole@),
                face_reversed == (self.faces@[self.shells@[shell@].faces@[local as int].0 as int].orientation
                    == Orientation::Reversed),
                uses_placed(*self, shell@, incidence@, placed, local as int, hole@, j as int),
                uses_apart(*self, shell@, placed, local as int, hole@, j as int),
                entries_owned(*self, shell@, incidence@, placed, local as int, hole@, j as int),
                corners_sound(*self, shell@, links@),
                corners_complete(*self, shell@, links@, local as int, hole@, j as int),
                n == cs@.len(),
                *cs == self.wires@[w as int].coedges,
                handles_valid(*self),
                w < self.wires@.len(),
                local < faces,
                incidence@.len() == self.edges@.len(),
                links@.len() == self.vertices,
                forall|e: int, k: int|
                    0 <= e < incidence@.len() && 0 <= k < incidence@[e]@.len() ==> (#[trigger] incidence@[e]@[k]).0
                        < faces,
                forall|v: int, k: int|
                    0 <= v < links@.len() && 0 <= k < links@[v]@.len() ==> (#[trigger] links@[v]@[k]).0
                        < self.edges@.len() && links@[v]@[k].1 < self.edges@.len(),
            decreases n - j,
        {
            let cid = cs[j];
            proof {
                assert(self.wires@[w as int].coedges@[j as int].0 < self.coedges@.len());
                assert(coedge_valid(*self, cid.0 as int));
            }
            let c = &self.coedges[cid.0];
            let edge = c.edge.0;
            let parity = c.orientation.is_reversed() != face_reversed;
            let ghost inc0 = incidence@;
            let mut uses = copy_vec(&incidence[edge]);
            uses.push((local, parity));
            incidence.set(edge, uses);
            proof {
                assert forall|e: int, k: int|
                    0 <= e < incidence@.len() && 0 <= k < incidence@[e]@.len() implies (#[trigger] incidence@[e]@[k]).0
                    < faces by {
                    if e != edge {
                        assert(incidence@[e] == inc0[e]);
                    } else if k < inc0[e]@.len() {
                        assert(incidence@[e]@[k] == inc0[e]@[k]);
                    }
                }
                let l0 = local as int;
                let h0 = hole@;
                let j0 = j as int;
                let old_placed = placed;
                let pos = inc0[edge as int]@.len() as int;
                placed = placed.insert((l0, h0, j0), pos);
                assert(use_edge(*self, shell@, l0, h0, j0) == (edge, parity));
                assert forall|l: int, hh: int, jj: int|
                    shell_use(*self, shell@, l, hh, jj) && before3(l, hh, jj, l0, h0, j0 + 1) implies #[trigger] use_placed(
                    *self,
                    shell@,
                    incidence@,
                    placed,
                    l,
                    hh,
                    jj,
                ) by {
                    if l == l0 && hh == h0 && jj == j0 {
                        assert(incidence@[edge as int]@[pos] == (local, parity));
                    } else {
                        assert(before3(l, hh, jj, l0, h0, j0));
                        assert(use_placed(*self, shell@, inc0, old_placed, l, hh, jj));
                        lemma_use_in_range(*self, shell@, l, hh, jj);
                        let e = use_edge(*self, shell@, l, hh, jj).0 as int;
                        if e == edge {
                            assert(incidence@[e]@[old_placed[(l, hh, jj)]] == inc0[e]@[old_placed[(l, hh, jj)]]);
                        } else {
                            assert(incidence@[e] == inc0[e]);
                        }
                    }
                }
                assert forall|l1: int, h1: int, j1: int, l2: int, h2: int, j2: int|
                    shell_use(*self, shell@, l1, h1, j1) && shell_use(*self, shell@, l2, h2, j2) && before3(
                        l1,
                        h1,
                        j1,
                        l2,
                        h2,
                        j2,
                    ) && before3(l2, h2, j2, l0, h0, j0 + 1) && #[trigger] use_edge(*self, shell@, l1, h1, j1)
                        == #[trigger] use_edge(*self, shell@, l2, h2, j2) implies placed[(l1, h1, j1)]
                    != placed[(l2, h2, j2)] by {
                    assert(before3(l1, h1, j1, l0, h0, j0));
                    assert(use_placed(*self, shell@, inc0, old_placed, l1, h1, j1));
                    if !(l2 == l0 && h2 == h0 && j2 == j0) {
                        assert(before3(l2, h2, j2, l0, h0, j0));
                    }
                }
                assert forall|e: int, idx: int|
                    0 <= e < incidence@.len() && 0 <= idx < incidence@[e]@.len() implies #[trigger] owned_entry(
                    *self,
                    shell@,
                    placed,
                    e,
                    idx,
                    l0,
                    h0,
                    j0 + 1,
                ) by {
                    if e == edge && idx == pos {
                        assert(shell_use(*self, shell@, l0, h0, j0));
                        assert(before3(l0, h0, j0, l0, h0, j0 + 1));
                    } else {
                        if e != edge {
                            assert(incidence@[e] == inc0[e]);
                        }
                        assert(owned_entry(*self, shell@, old_placed, e, idx, l0, h0, j0));
                        let (l, hh, jj) = choose|l: int, hh: int, jj: int|
                            shell_use(*self, shell@, l, hh, jj) && before3(l, hh, jj, l0, h0, j0)
                                && use_edge(*self, shell@, l, hh, jj).0 == e && old_placed.contains_key(
                                (l, hh, jj),
                            ) && old_placed[(l, hh, jj)] == idx;
                        assert(before3(l, hh, jj, l0, h0, j0 + 1));
                        assert(placed[(l, hh, jj)] == idx);
                    }
                }
            }
            let p = if j == 0 { n - 1 } else { j - 1 };
            proof {
                assert(self.wires@[w as int].coedges@[p as int].0 < self.coedges@.len());
                assert(coedge_valid(*self, cs@[p as int].0 as int));
            }
            let prev = &self.coedges[cs[p].0];
            let v = match self.use_vertices(cid) {
                Some(pair) => pair[0].0,
                None => 0,
            };
            proof {
                let e = self.edges@[edge as int];
                assert(e.vertices[0].0 < self.vertices && e.vertices[1].0 < self.vertices);
            }
            let ghost links0 = links@;
            let mut corners = copy_vec(&links[v]);
            corners.push((prev.edge.0, edge));
            links.set(v, corners);
            proof {
                let l0 = local as int;
                let h0 = hole@;
                let j0 = j as int;
                let pair = (prev.edge.0, edge);
                assert(corner_vertex(*self, shell@, l0, h0, j0) == v);
                assert(corner_edges(*self, shell@, l0, h0, j0) == pair);
                assert(links@[v as int]@ == links0[v as int]@.push(pair));
                assert forall|x: int, m: int|
                    0 <= x < links@.len() && 0 <= m < links@[x]@.len() implies corner_of(
                    *self,
                    shell@,
                    x,
                    #[trigger] links@[x]@[m],
                ) by {
                    if x == v && m == links0[x]@.len() {
                        assert(shell_use(*self, shell@, l0, h0, j0));
                    } else if x == v {
                        assert(links@[x]@[m] == links0[x]@[m]);
                    } else {
                        assert(links@[x] == links0[x]);
                    }
                }
                assert forall|l: int, hh: int, jj: int|
                    shell_use(*self, shell@, l, hh, jj) && before3(l, hh, jj, l0, h0, j0 + 1) implies corner_recorded(
                    links@,
                    corner_vertex(*self, shell@, l, hh, jj),
                    #[trigger] corner_edges(*self, shell@, l, hh, jj),
                ) by {
                    if l == l0 && hh == h0 && jj == j0 {
                        assert(links@[v as int]@[links0[v as int]@.len() as int] == pair);
                    } else {
                        assert(before3(l, hh, jj, l0, h0, j0));
                        let x = corner_vertex(*self, shell@, l, hh, jj);
                        assert(corner_recorded(links0, x, corner_edges(*self, shell@, l, hh, jj)));
                        let m = choose|m: int|
                            0 <= m < links0[x]@.len() && links0[x]@[m] == corner_edges(*self, shell@, l, hh, jj);
                        lemma_use_in_range(*self, shell@, l, hh, jj);
                        lemma_corner_vertex_in_range(*self, shell@, l, hh, jj);
                        if x == v {
                            assert(links@[x]@[m] == links0[x]@[m]);
                        } else {
                            assert(links@[x] == links0[x]);
                        }
                    }
                }
            }
            proof {
                assert forall|x: int, k: int|
                    0 <= x < links@.len() && 0 <= k < links@[x]@.len() implies (#[trigger] links@[x]@[k]).0
                    < self.edges@.len() && links@[x]@[k].1 < self.edges@.len() by {
                    if x != v {
                        assert(links@[x] == links0[x]);
                    } else if k < links0[x]@.len() {
                        assert(links@[x]@[k] == links0[x]@[k]);
                    }
                }
            }
            j += 1;
        }
        proof {
            assert forall|l: int, hh: int, jj: int|
                shell_use(*self, shell@, l, hh, jj) && before3(l, hh, jj, local as int, hole@ + 1, 0) implies #[trigger] use_placed(
                *self,
                shell@,
                incidence@,
                placed,
                l,
                hh,
                jj,
            ) by {
                assert(before3(l, hh, jj, local as int, hole@, n as int));
            }
            assert forall|l1: int, h1: int, j1: int, l2: int, h2: int, j2: int|
                shell_use(*self, shell@, l1, h1, j1) && shell_use(*self, shell@, l2, h2, j2) && before3(
                    l1,
                    h1,
                    j1,
                    l2,
                    h2,
                    j2,
                ) && before3(l2, h2, j2, local as int, hole@ + 1, 0) && #[trigger] use_edge(
                    *self,
                    shell@,
                    l1,
                    h1,
                    j1,
                ) == #[trigger] use_edge(*self, shell@, l2, h2, j2) implies placed[(l1, h1, j1)]
                != placed[(l2, h2, j2)] by {
                assert(before3(l2, h2, j2, local as int, hole@, n as int));
            }
            assert forall|l: int, hh: int, jj: int|
                shell_use(*self, shell@, l, hh, jj) && before3(l, hh, jj, local as int, hole@ + 1, 0) implies corner_recorded(
                links@,
                corner_vertex(*self, shell@, l, hh, jj),
                #[trigger] corner_edges(*self, shell@, l, hh, jj),
            ) by {
                assert(before3(l, hh, jj, local as int, hole@, n as int));
            }
            assert forall|e: int, idx: int|
                0 <= e < incidence@.len() && 0 <= idx < incidence@[e]@.len() implies #[trigger] owned_entry(
                *self,
                shell@,
                placed,
                e,
                idx,
                local as int,
                hole@ + 1,
                0,
            ) by {
                assert(owned_entry(*self, shell@, placed, e, idx, local as int, hole@, n as int));
                let (l, hh, jj) = choose|l: int, hh: int, jj: int|
                    shell_use(*self, shell@, l, hh, jj) && before3(l, hh, jj, local as int, hole@, n as int)
                        && use_edge(*self, shell@, l, hh, jj).0 == e && placed.contains_key((l, hh, jj))
                        && placed[(l, hh, jj)] == idx;
                assert(before3(l, hh, jj, local as int, hole@ + 1, 0));
            }
        }
        Ok(Ghost(placed))
    }
}

/// A copy of `v`.
fn copy_vec<T: Copy>(v: &Vec<T>) -> (r: Vec<T>)
    ensures
        r@ == v@,
{
    let mut r: Vec<T> = Vec::new();
    let mut i: usize = 0;
    while i < v.len()
        invariant
            i <= v@.len(),
            r@ == v@.take(i as int),
        decreases v@.len() - i,
    {
        r.push(v[i]);
        proof {
            assert(v@.take(i + 1) =~= v@.take(i as int).push(v@[i as int]));
        }
        i += 1;
    }
    proof {
        assert(v@.take(v@.len() as int) =~= v@);
    }
    r
}

/// `n` empty lists.
fn empty_lists<T>(n: usize) -> (r: Vec<Vec<T>>)
    ensures
        r@.len() == n,
        forall|i: int| 0 <= i < n ==> (#[trigger] r@[i])@ == Seq::<T>::empty(),
{
    let mut r: Vec<Vec<T>> = Vec::new();
    let mut i: usize = 0;
    while i < n
        invariant
            i <= n,
            r@.len() == i,
            forall|k: int| 0 <= k < i ==> (#[trigger] r@[k])@ == Seq::<T>::empty(),
        decreases n - i,
    {
        r.push(Vec::new());
        i += 1;
    }
    r
}

impl RawBrep {
    /// Shell `si`: budget, non-emptiness and face ownership, then manifold edges
    /// with consistent orientation, connectivity, and manifold vertex links.
    #[verifier::spinoff_prover]
    fn check_shell(
        &self,
        si: usize,
        owned: &mut Vec<bool>,
        processed: Ghost<Seq<usize>>,
        work: &mut usize,
    ) -> (r: Result<Ghost<Seq<usize>>, Report>)
        requires
            handles_valid(*self),
            si < self.shells@.len(),
            old(owned)@.len() == self.faces@.len(),
            tracks(old(owned)@, processed@),
        ensures
            *final(work) <= *old(work),
            final(owned)@.len() == self.faces@.len(),
            r matches Ok(p) ==> {
                &&& tracks(final(owned)@, p@)
                &&& p@ == processed@ + self.shells@[si as int].faces@.map_values(|f: FaceId| f.0)
                &&& self.shells@[si as int].faces@.len() > 0
                &&& shell_edges_manifold(*self, si as int)
                &&& shell_edges_paired(*self, si as int)
                &&& shell_connected(*self, si as int)
                &&& shell_vertices_manifold(*self, si as int)
            },
            r matches Err(e) ==> e.defect == Defect::OpenShell ==> self.shells@[si as int].closed
                && !shell_edges_paired(*self, si as int),
            r matches Err(e) ==> e.defect == Defect::Empty ==> self.shells@[si as int].faces@.len() == 0,
            r matches Err(e) ==> (e.defect == Defect::NonManifoldEdge || e.defect == Defect::InconsistentOrientation)
                ==> !shell_edges_manifold(*self, si as int),
            r matches Err(e) ==> e.defect == Defect::DisconnectedShell ==> !shell_connected(*self, si as int),
            r matches Err(e) ==> (e.defect == Defect::DuplicateOwnership || e.defect == Defect::InvalidHandle)
                ==> !owned_once(
                processed@ + self.shells@[si as int].faces@.map_values(|f: FaceId| f.0),
                self.faces@.len() as nat,
            ),
            r matches Err(e) ==> e.defect == Defect::ResourceLimit || e.defect == Defect::Empty
                || e.defect == Defect::DuplicateOwnership || e.defect == Defect::InvalidHandle || e.defect
                == Defect::NonManifoldEdge || e.defect == Defect::OpenShell || e.defect
                == Defect::InconsistentOrientation || e.defect == Defect::DisconnectedShell || e.defect
                == Defect::NonManifoldVertex,
    {
        let shell = &self.shells[si];
        let n = shell.faces.len();
        spend(work, n)?;
        if n == 0 {
            return Err(fail(Defect::Empty, "shell", si));
        }
        let mut incidence: Vec<Vec<(usize, bool)>> = empty_lists(self.edges.len());
        let mut links: Vec<Vec<(usize, usize)>> = empty_lists(self.vertices);
        let ghost mut done = processed@;
        let ghost mut placed: Map<(int, int, int), int> = Map::empty();
        proof {
            assert forall|e: int, idx: int|
                0 <= e < incidence@.len() && 0 <= idx < incidence@[e]@.len() implies #[trigger] owned_entry(
                *self,
                si as int,
                placed,
                e,
                idx,
                0,
                -1,
                0,
            ) by {
                assert(incidence@[e]@ == Seq::<(usize, bool)>::empty());
            }
            assert forall|v: int, m: int|
                0 <= v < links@.len() && 0 <= m < links@[v]@.len() implies corner_of(
                *self,
                si as int,
                v,
                #[trigger] links@[v]@[m],
            ) by {
                assert(links@[v]@ == Seq::<(usize, usize)>::empty());
            }
        }
        let mut local: usize = 0;
        while local < n
            invariant
                local <= n,
                si < self.shells@.len(),
                forall|l: int| 0 <= l < local ==> (#[trigger] self.shells@[si as int].faces@[l]).0 < self.faces@.len(),
                uses_placed(*self, si as int, incidence@, placed, local as int, -1, 0),
                uses_apart(*self, si as int, placed, local as int, -1, 0),
                entries_owned(*self, si as int, incidence@, placed, local as int, -1, 0),
                corners_sound(*self, si as int, links@),
                corners_complete(*self, si as int, links@, local as int, -1, 0),
                n == shell.faces@.len(),
                *shell == self.shells@[si as int],
                handles_valid(*self),
                *work <= *old(work),
                owned@.len() == self.faces@.len(),
                tracks(owned@, done),
                done == processed@ + shell.faces@.take(local as int).map_values(|f: FaceId| f.0),
                incidence@.len() == self.edges@.len(),
                links@.len() == self.vertices,
                forall|e: int, k: int|
                    0 <= e < incidence@.len() && 0 <= k < incidence@[e]@.len() ==> (#[trigger] incidence@[e]@[k]).0
                        < n,
                forall|v: int, k: int|
                    0 <= v < links@.len() && 0 <= k < links@[v]@.len() ==> (#[trigger] links@[v]@[k]).0
                        < self.edges@.len() && links@[v]@[k].1 < self.edges@.len(),
            decreases n - local,
        {
            let fid = shell.faces[local].0;
            let ghost pre = owned@;
            let count = owned.len();
            let owned_ok = own(owned, fid, "face");
            if let Err(failure) = owned_ok {
                proof {
                    let full = processed@ + shell.faces@.map_values(|f: FaceId| f.0);
                    assert(done == processed@ + shell.faces@.take(local as int).map_values(|f: FaceId| f.0));
                    assert(full[done.len() as int] == fid);
                    assert forall|k: int| 0 <= k < done.len() implies full[k] == done[k] by {
                        if k >= processed@.len() {
                            assert(shell.faces@.take(local as int)[k - processed@.len()] == shell.faces@[k
                                - processed@.len()]);
                        }
                    }
                    lemma_own_fail(pre, done, full, fid);
                }
                return Err(failure);
            }
            proof {
                lemma_tracks_push(pre, done, fid);
                done = done.push(fid);
                assert(shell.faces@.take(local + 1).map_values(|f: FaceId| f.0) =~= shell.faces@.take(
                    local as int,
                ).map_values(|f: FaceId| f.0).push(fid));
            }
            let face = &self.faces[fid];
            let reversed = face.orientation.is_reversed();
            let next = self.collect_wire(
                face.outer.0,
                local,
                n,
                reversed,
                &mut incidence,
                &mut links,
                work,
                Ghost(si as int),
                Ghost(-1int),
                Ghost(placed),
            )?;
            proof {
                placed = next@;
            }
            let mut h: usize = 0;
            while h < face.holes.len()
                invariant
                    h <= face.holes@.len(),
                    si < self.shells@.len(),
                    n == self.shells@[si as int].faces@.len(),
                    fid == self.shells@[si as int].faces@[local as int].0,
                    forall|l: int| 0 <= l <= local ==> (#[trigger] self.shells@[si as int].faces@[l]).0 < self.faces@.len(),
                    reversed == (face.orientation == Orientation::Reversed),
                    uses_placed(*self, si as int, incidence@, placed, local as int, h as int, 0),
                    uses_apart(*self, si as int, placed, local as int, h as int, 0),
                    entries_owned(*self, si as int, incidence@, placed, local as int, h as int, 0),
                    corners_sound(*self, si as int, links@),
                    corners_complete(*self, si as int, links@, local as int, h as int, 0),
                    fid < self.faces@.len(),
                    *face == self.faces@[fid as int],
                    handles_valid(*self),
                    local < n,
                    *work <= *old(work),
                    owned@.len() == self.faces@.len(),
                    incidence@.len() == self.edges@.len(),
                    links@.len() == self.vertices,
                    forall|e: int, k: int|
                        0 <= e < incidence@.len() && 0 <= k < incidence@[e]@.len() ==> (#[trigger] incidence@[e]@[k]).0
                            < n,
                    forall|v: int, k: int|
                        0 <= v < links@.len() && 0 <= k < links@[v]@.len() ==> (#[trigger] links@[v]@[k]).0
                            < self.edges@.len() && links@[v]@[k].1 < self.edges@.len(),
                decreases face.holes@.len() - h,
            {
                let next = self.collect_wire(
                    face.holes[h].0,
                    local,
                    n,
                    reversed,
                    &mut incidence,
                    &mut links,
                    work,
                    Ghost(si as int),
                    Ghost(h as int),
                    Ghost(placed),
                )?;
                proof {
                    placed = next@;
                }
                h += 1;
            }
            proof {
                let l0 = local as int;
                let nh = face.holes@.len() as int;
                assert forall|l: int, hh: int, jj: int|
                    shell_use(*self, si as int, l, hh, jj) && before3(l, hh, jj, l0 + 1, -1, 0) implies #[trigger] use_placed(
                    *self,
                    si as int,
                    incidence@,
                    placed,
                    l,
                    hh,
                    jj,
                ) by {
                    assert(before3(l, hh, jj, l0, nh, 0));
                }
                assert forall|l1: int, h1: int, j1: int, l2: int, h2: int, j2: int|
                    shell_use(*self, si as int, l1, h1, j1) && shell_use(*self, si as int, l2, h2, j2)
                        && before3(l1, h1, j1, l2, h2, j2) && before3(l2, h2, j2, l0 + 1, -1, 0)
                        && #[trigger] use_edge(*self, si as int, l1, h1, j1) == #[trigger] use_edge(
                        *self,
                        si as int,
                        l2,
                        h2,
                        j2,
                    ) implies placed[(l1, h1, j1)] != placed[(l2, h2, j2)] by {
                    assert(before3(l2, h2, j2, l0, nh, 0));
                }
                assert forall|e: int, idx: int|
                    0 <= e < incidence@.len() && 0 <= idx < incidence@[e]@.len() implies #[trigger] owned_entry(
                    *self,
                    si as int,
                    placed,
                    e,
                    idx,
                    l0 + 1,
                    -1,
                    0,
                ) by {
                    assert(owned_entry(*self, si as int, placed, e, idx, l0, nh, 0));
                    let (l, hh, jj) = choose|l: int, hh: int, jj: int|
                        shell_use(*self, si as int, l, hh, jj) && before3(l, hh, jj, l0, nh, 0) && use_edge(
                            *self,
                            si as int,
                            l,
                            hh,
                            jj,
                        ).0 == e && placed.contains_key((l, hh, jj)) && placed[(l, hh, jj)] == idx;
                    assert(before3(l, hh, jj, l0 + 1, -1, 0));
                }
                assert forall|l: int, hh: int, jj: int|
                    shell_use(*self, si as int, l, hh, jj) && before3(l, hh, jj, l0 + 1, -1, 0) implies corner_recorded(
                    links@,
                    corner_vertex(*self, si as int, l, hh, jj),
                    #[trigger] corner_edges(*self, si as int, l, hh, jj),
                ) by {
                    assert(before3(l, hh, jj, l0, nh, 0));
                }
            }
            local += 1;
        }
        proof {
            assert(shell.faces@.take(n as int) =~= shell.faces@);
        }
        let mut adjacency: Vec<Vec<usize>> = empty_lists(n);
        let mut e: usize = 0;
        while e < incidence.len()
            invariant
                e <= incidence@.len(),
                forall|x: int| 0 <= x < e ==> pair_uses_ok((#[trigger] incidence@[x])@),
                forall|x: int|
                    0 <= x < e && (#[trigger] incidence@[x])@.len() == 2 ==> adjacency@[incidence@[x]@[0].0 as int]@.contains(
                        incidence@[x]@[1].0,
                    ) && adjacency@[incidence@[x]@[1].0 as int]@.contains(incidence@[x]@[0].0),
                adjacency_sound(*self, si as int, adjacency@),
                si < self.shells@.len(),
                entries_owned(*self, si as int, incidence@, placed, n as int, -1, 0),
                uses_placed(*self, si as int, incidence@, placed, n as int, -1, 0),
                uses_apart(*self, si as int, placed, n as int, -1, 0),
                forall|x: int| 0 <= x < e && shell.closed ==> (#[trigger] incidence@[x])@.len() != 1,
                adjacency@.len() == n,
                *work <= *old(work),
                owned@.len() == self.faces@.len(),
                tracks(owned@, done),
                done == processed@ + shell.faces@.map_values(|f: FaceId| f.0),
                n == shell.faces@.len(),
                n > 0,
                *shell == self.shells@[si as int],
                forall|x: int, k: int|
                    0 <= x < incidence@.len() && 0 <= k < incidence@[x]@.len() ==> (#[trigger] incidence@[x]@[k]).0
                        < n,
                forall|i: int, k: int|
                    0 <= i < adjacency@.len() && 0 <= k < adjacency@[i]@.len() ==> (#[trigger] adjacency@[i]@[k])
                        < n,
            decreases incidence@.len() - e,
        {
            let uses = &incidence[e];
            if uses.len() > 2 {
                proof {
                    let u = incidence@[e as int]@;
                    if u[0].1 == u[1].1 {
                        lemma_same_direction(*self, si as int, incidence@, placed, n as int, e as int, 0, 1);
                    } else if u[0].1 == u[2].1 {
                        lemma_same_direction(*self, si as int, incidence@, placed, n as int, e as int, 0, 2);
                    } else {
                        lemma_same_direction(*self, si as int, incidence@, placed, n as int, e as int, 1, 2);
                    }
                }
                return Err(fail(Defect::NonManifoldEdge, "shell", si));
            }
            if uses.len() == 1 && shell.closed {
                proof {
                    assert(owned_entry(*self, si as int, placed, e as int, 0, n as int, -1, 0));
                    let (l0, h0, j0) = choose|l: int, hh: int, jj: int|
                        shell_use(*self, si as int, l, hh, jj) && before3(l, hh, jj, n as int, -1, 0)
                            && use_edge(*self, si as int, l, hh, jj).0 == e && placed.contains_key((l, hh, jj))
                            && placed[(l, hh, jj)] == 0;
                    assert(use_placed(*self, si as int, incidence@, placed, l0, h0, j0));
                    if partnered(*self, si as int, l0, h0, j0) {
                        let (l2, h2, j2) = choose|l2: int, h2: int, j2: int|
                            shell_use(*self, si as int, l2, h2, j2) && (l2 != l0 || h2 != h0 || j2 != j0)
                                && use_edge(*self, si as int, l2, h2, j2).0 == use_edge(
                                *self,
                                si as int,
                                l0,
                                h0,
                                j0,
                            ).0;
                        assert(before3(l2, h2, j2, n as int, -1, 0));
                        assert(use_placed(*self, si as int, incidence@, placed, l2, h2, j2));
                        assert(use_edge(*self, si as int, l2, h2, j2) == use_edge(*self, si as int, l0, h0, j0));
                        if before3(l0, h0, j0, l2, h2, j2) {
                            assert(placed[(l0, h0, j0)] != placed[(l2, h2, j2)]);
                        } else {
                            assert(before3(l2, h2, j2, l0, h0, j0));
                            assert(placed[(l2, h2, j2)] != placed[(l0, h0, j0)]);
                        }
                    }
                    assert(!shell_edges_paired(*self, si as int));
                }
                return Err(fail(Defect::OpenShell, "shell", si));
            }
            if uses.len() == 2 {
                let (a, pa) = uses[0];
                let (b, pb) = uses[1];
                if pa == pb {
                    proof {
                        lemma_same_direction(*self, si as int, incidence@, placed, n as int, e as int, 0, 1);
                    }
                    return Err(fail(Defect::InconsistentOrientation, "shell", si));
                }
                proof {
                    assert(owned_entry(*self, si as int, placed, e as int, 0, n as int, -1, 0));
                    assert(owned_entry(*self, si as int, placed, e as int, 1, n as int, -1, 0));
                    let (l0, h0, j0) = choose|l: int, hh: int, jj: int|
                        shell_use(*self, si as int, l, hh, jj) && before3(l, hh, jj, n as int, -1, 0)
                            && use_edge(*self, si as int, l, hh, jj).0 == e && placed.contains_key((l, hh, jj))
                            && placed[(l, hh, jj)] == 0;
                    let (l1, h1, j1) = choose|l: int, hh: int, jj: int|
                        shell_use(*self, si as int, l, hh, jj) && before3(l, hh, jj, n as int, -1, 0)
                            && use_edge(*self, si as int, l, hh, jj).0 == e && placed.contains_key((l, hh, jj))
                            && placed[(l, hh, jj)] == 1;
                    assert(use_placed(*self, si as int, incidence@, placed, l0, h0, j0));
                    assert(use_placed(*self, si as int, incidence@, placed, l1, h1, j1));
                    assert(a as int == l0 && b as int == l1);
                    assert(faces_share_edge(*self, si as int, a as int, b as int));
                    assert(faces_share_edge(*self, si as int, b as int, a as int));
                }
                let ghost adj0 = adjacency@;
                let mut la = copy_vec(&adjacency[a]);
                la.push(b);
                adjacency.set(a, la);
                let ghost adj1 = adjacency@;
                let mut lb = copy_vec(&adjacency[b]);
                lb.push(a);
                adjacency.set(b, lb);
                proof {
                    assert(adj1[a as int]@ == adj0[a as int]@.push(b));
                    assert(adjacency@[b as int]@ == adj1[b as int]@.push(a));
                    assert forall|i: int, v: usize|
                        0 <= i < adjacency@.len() && #[trigger] adj0[i]@.contains(v) implies adjacency@[i]@.contains(v) by {
                        let m = choose|m: int| 0 <= m < adj0[i]@.len() && adj0[i]@[m] == v;
                        if i == a {
                            assert(adj1[i]@[m] == v);
                        } else {
                            assert(adj1[i] == adj0[i]);
                        }
                        if i == b {
                            assert(adjacency@[i]@[m] == adj1[i]@[m]);
                        } else {
                            assert(adjacency@[i] == adj1[i]);
                        }
                    }
                    assert(adjacency@[b as int]@[adjacency@[b as int]@.len() - 1] == a);
                    if a == b {
                        assert(adjacency@[a as int]@[adj1[a as int]@.len() - 1] == b);
                    } else {
                        assert(adjacency@[a as int] == adj1[a as int]);
                        assert(adj1[a as int]@[adj1[a as int]@.len() - 1] == b);
                    }
                    assert(incidence@[e as int]@[0].0 == a && incidence@[e as int]@[1].0 == b);
                    assert forall|x: int|
                        0 <= x < e + 1 && (#[trigger] incidence@[x])@.len() == 2 implies adjacency@[incidence@[x]@[0].0 as int]@.contains(
                        incidence@[x]@[1].0,
                    ) && adjacency@[incidence@[x]@[1].0 as int]@.contains(incidence@[x]@[0].0) by {
                        if x < e {
                            assert(adj0[incidence@[x]@[0].0 as int]@.contains(incidence@[x]@[1].0));
                            assert(adj0[incidence@[x]@[1].0 as int]@.contains(incidence@[x]@[0].0));
                        }
                    }
                }
                proof {
                    assert forall|i: int, k: int|
                        0 <= i < adjacency@.len() && 0 <= k < adjacency@[i]@.len() implies faces_share_edge(
                        *self,
                        si as int,
                        i,
                        #[trigger] adjacency@[i]@[k] as int,
                    ) by {
                        if i != b {
                            assert(adjacency@[i] == adj1[i]);
                            if i != a {
                                assert(adj1[i] == adj0[i]);
                            } else if k < adj0[i]@.len() {
                                assert(adj1[i]@[k] == adj0[i]@[k]);
                            }
                        } else if k < adj1[i]@.len() {
                            assert(adjacency@[i]@[k] == adj1[i]@[k]);
                            if i != a {
                                assert(adj1[i] == adj0[i]);
                            } else if k < adj0[i]@.len() {
                                assert(adj1[i]@[k] == adj0[i]@[k]);
                            }
                        }
                    }
                    assert forall|i: int, k: int|
                        0 <= i < adjacency@.len() && 0 <= k < adjacency@[i]@.len() implies (#[trigger] adjacency@[i]@[k])
                        < n by {
                        if i != b {
                            assert(adjacency@[i] == adj1[i]);
                            if i != a {
                                assert(adj1[i] == adj0[i]);
                            } else if k < adj0[i]@.len() {
                                assert(adj1[i]@[k] == adj0[i]@[k]);
                            }
                        } else if k < adj1[i]@.len() {
                            assert(adjacency@[i]@[k] == adj1[i]@[k]);
                            if i != a {
                                assert(adj1[i] == adj0[i]);
                            } else if k < adj0[i]@.len() {
                                assert(adj1[i]@[k] == adj0[i]@[k]);
                            }
                        }
                    }
                }
            }
            e += 1;
        }
        proof {
            assert forall|l1: int, h1: int, j1: int, l2: int, h2: int, j2: int|
                shell_use(*self, si as int, l1, h1, j1) && shell_use(*self, si as int, l2, h2, j2) && (
                l1 != l2 || h1 != h2 || j1 != j2) implies #[trigger] use_edge(*self, si as int, l1, h1, j1)
                != #[trigger] use_edge(*self, si as int, l2, h2, j2) by {
                if use_edge(*self, si as int, l1, h1, j1) == use_edge(*self, si as int, l2, h2, j2) {
                    assert(before3(l1, h1, j1, n as int, -1, 0));
                    assert(before3(l2, h2, j2, n as int, -1, 0));
                    assert(use_placed(*self, si as int, incidence@, placed, l1, h1, j1));
                    assert(use_placed(*self, si as int, incidence@, placed, l2, h2, j2));
                    lemma_use_in_range(*self, si as int, l1, h1, j1);
                    let x = use_edge(*self, si as int, l1, h1, j1).0 as int;
                    assert(pair_uses_ok(incidence@[x]@));
                    if before3(l1, h1, j1, l2, h2, j2) {
                        assert(placed[(l1, h1, j1)] != placed[(l2, h2, j2)]);
                    } else {
                        assert(before3(l2, h2, j2, l1, h1, j1));
                        assert(placed[(l2, h2, j2)] != placed[(l1, h1, j1)]);
                    }
                }
            }
            if shell.closed {
                assert forall|l: int, h: int, j: int| #[trigger] shell_use(*self, si as int, l, h, j) implies partnered(
                    *self,
                    si as int,
                    l,
                    h,
                    j,
                ) by {
                    assert(before3(l, h, j, n as int, -1, 0));
                    assert(use_placed(*self, si as int, incidence@, placed, l, h, j));
                    lemma_use_in_range(*self, si as int, l, h, j);
                    let x = use_edge(*self, si as int, l, h, j).0 as int;
                    assert(pair_uses_ok(incidence@[x]@));
                    assert(incidence@[x]@.len() == 2);
                    let other = 1 - placed[(l, h, j)];
                    assert(owned_entry(*self, si as int, placed, x, other, n as int, -1, 0));
                }
            }
        }
        let all = reaches_all(&adjacency, work)?;
        if !all {
            proof {
                assert forall|a: int, c: int|
                    0 <= a < adjacency@.len() && 0 <= c < adjacency@.len() && a != c && #[trigger] faces_share_edge(
                        *self,
                        si as int,
                        a,
                        c,
                    ) implies adjacency@[a]@.contains(c as usize) by {
                    let (h1, j1, h2, j2) = choose|h1: int, j1: int, h2: int, j2: int|
                        shell_use(*self, si as int, a, h1, j1) && shell_use(*self, si as int, c, h2, j2) && use_edge(
                            *self,
                            si as int,
                            a,
                            h1,
                            j1,
                        ).0 == use_edge(*self, si as int, c, h2, j2).0;
                    assert(before3(a, h1, j1, n as int, -1, 0));
                    assert(before3(c, h2, j2, n as int, -1, 0));
                    assert(use_placed(*self, si as int, incidence@, placed, a, h1, j1));
                    assert(use_placed(*self, si as int, incidence@, placed, c, h2, j2));
                    lemma_use_in_range(*self, si as int, a, h1, j1);
                    let x = use_edge(*self, si as int, a, h1, j1).0 as int;
                    assert(pair_uses_ok(incidence@[x]@));
                    assert(incidence@[x]@.len() == 2);
                    if placed[(a, h1, j1)] == 0 {
                        assert(incidence@[x]@[0].0 == a && incidence@[x]@[1].0 == c);
                    } else {
                        assert(incidence@[x]@[1].0 == a && incidence@[x]@[0].0 == c);
                    }
                }
                let l = choose|l: int| 0 <= l < adjacency@.len() && !#[trigger] adj_reached(adjacency@, l);
                if face_linked(*self, si as int, l) {
                    let p = choose|p: Seq<int>| #[trigger] face_chain(*self, si as int, p) && p[0] == 0 && p.last() == l;
                    lemma_chain_reached(*self, si as int, adjacency@, p);
                }
                assert(!shell_connected(*self, si as int));
            }
            return Err(fail(Defect::DisconnectedShell, "shell", si));
        }
        proof {
            assert forall|l: int| 0 <= l < self.shells@[si as int].faces@.len() implies #[trigger] face_linked(
                *self,
                si as int,
                l,
            ) by {
                assert(adj_reached(adjacency@, l));
                let p = choose|p: Seq<int>| #[trigger] adj_walk(adjacency@, p) && p[0] == 0 && p.last() == l;
                lemma_face_chain(*self, si as int, adjacency@, p);
            }
        }
        let mut v: usize = 0;
        while v < links.len()
            invariant
                v <= links@.len(),
                forall|x: int| 0 <= x < v ==> corners_connected((#[trigger] links@[x])@),
                *work <= *old(work),
                owned@.len() == self.faces@.len(),
                tracks(owned@, done),
                done == processed@ + shell.faces@.map_values(|f: FaceId| f.0),
                n == shell.faces@.len(),
                n > 0,
                *shell == self.shells@[si as int],
                forall|x: int, k: int|
                    0 <= x < links@.len() && 0 <= k < links@[x]@.len() ==> (#[trigger] links@[x]@[k]).0
                        < self.edges@.len() && links@[x]@[k].1 < self.edges@.len(),
            decreases links@.len() - v,
        {
            let corners = &links[v];
            if corners.len() > 0 {
                if !link_is_manifold(corners, self.edges.len(), shell.closed, work)? {
                    return Err(fail(Defect::NonManifoldVertex, "shell", si));
                }
            }
            proof {
                if corners@.len() == 0 {
                    assert forall|x: usize, y: usize|
                        corner_node(corners@, x) && corner_node(corners@, y) implies #[trigger] corner_joined(
                        corners@,
                        x,
                        y,
                    ) by {}
                }
            }
            v += 1;
        }
        proof {
            assert forall|vv: int, x: usize, y: usize|
                #[trigger] edge_at_vertex(*self, si as int, vv, x) && #[trigger] edge_at_vertex(
                    *self,
                    si as int,
                    vv,
                    y,
                ) implies exists|p: Seq<usize>| #[trigger] vertex_chain(*self, si as int, vv, p) && p[0] == x
                && p.last() == y by {
                lemma_corner_node(*self, si as int, links@, vv, x);
                lemma_corner_node(*self, si as int, links@, vv, y);
                assert(corners_connected(links@[vv]@));
                assert(corner_joined(links@[vv]@, x, y));
                let p = choose|p: Seq<usize>| #[trigger] corner_walk(links@[vv]@, p) && p[0] == x && p.last() == y;
                lemma_vertex_chain(*self, si as int, links@, vv, p);
            }
        }
        Ok(Ghost(done))
    }

    /// Shells: each is checked, and a face belongs to at most one shell.
    fn check_shells(&self, work: &mut usize) -> (r: Result<(), Report>)
        requires
            handles_valid(*self),
        ensures
            *final(work) <= *old(work),
            r is Ok ==> owned_once(shell_faces(self.shells@), self.faces@.len()) && forall|s: int|
                0 <= s < self.shells@.len() ==> (#[trigger] self.shells@[s]).faces@.len() > 0,
            r is Ok ==> forall|s: int| 0 <= s < self.shells@.len() ==> #[trigger] shell_edges_manifold(*self, s),
            r is Ok ==> forall|s: int| 0 <= s < self.shells@.len() ==> #[trigger] shell_edges_paired(*self, s),
            r is Ok ==> forall|s: int| 0 <= s < self.shells@.len() ==> #[trigger] shell_connected(*self, s),
            r is Ok ==> forall|s: int| 0 <= s < self.shells@.len() ==> #[trigger] shell_vertices_manifold(*self, s),
            r matches Err(e) ==> e.defect == Defect::OpenShell ==> exists|s: int|
                0 <= s < self.shells@.len() && self.shells@[s].closed && !#[trigger] shell_edges_paired(*self, s),
            r matches Err(e) ==> e.defect == Defect::Empty ==> exists|s: int|
                0 <= s < self.shells@.len() && (#[trigger] self.shells@[s]).faces@.len() == 0,
            r matches Err(e) ==> (e.defect == Defect::NonManifoldEdge || e.defect == Defect::InconsistentOrientation)
                ==> exists|s: int| 0 <= s < self.shells@.len() && !#[trigger] shell_edges_manifold(*self, s),
            r matches Err(e) ==> (e.defect == Defect::DuplicateOwnership || e.defect == Defect::InvalidHandle)
                ==> !owned_once(shell_faces(self.shells@), self.faces@.len() as nat),
            r matches Err(e) ==> e.defect == Defect::DisconnectedShell ==> exists|s: int|
                0 <= s < self.shells@.len() && !#[trigger] shell_connected(*self, s),
            r matches Err(e) ==> e.defect == Defect::ResourceLimit || e.defect == Defect::Empty
                || e.defect == Defect::DuplicateOwnership || e.defect == Defect::InvalidHandle || e.defect
                == Defect::NonManifoldEdge || e.defect == Defect::OpenShell || e.defect
                == Defect::InconsistentOrientation || e.defect == Defect::DisconnectedShell || e.defect
                == Defect::NonManifoldVertex,
    {
        let mut owned: Vec<bool> = vec![false; self.faces.len()];
        let ghost mut processed: Seq<usize> = Seq::empty();
        proof {
            assert(self.shells@.take(0) =~= Seq::<Shell>::empty());
            assert forall|x: int| 0 <= x < owned@.len() implies (owned@[x] <==> processed.contains(x as usize)) by {
            }
        }
        let mut i: usize = 0;
        while i < self.shells.len()
            invariant
                i <= self.shells@.len(),
                handles_valid(*self),
                *work <= *old(work),
                owned@.len() == self.faces@.len(),
                tracks(owned@, processed),
                processed == shell_faces(self.shells@.take(i as int)),
                forall|s: int| 0 <= s < i ==> (#[trigger] self.shells@[s]).faces@.len() > 0,
                forall|s: int| 0 <= s < i ==> #[trigger] shell_edges_manifold(*self, s),
                forall|s: int| 0 <= s < i ==> #[trigger] shell_edges_paired(*self, s),
                forall|s: int| 0 <= s < i ==> #[trigger] shell_connected(*self, s),
                forall|s: int| 0 <= s < i ==> #[trigger] shell_vertices_manifold(*self, s),
            decreases self.shells@.len() - i,
        {
            let result = self.check_shell(i, &mut owned, Ghost(processed), work);
            let next = match result {
                Ok(p) => p,
                Err(e) => {
                    proof {
                        if e.defect == Defect::DuplicateOwnership || e.defect == Defect::InvalidHandle {
                            lemma_shell_faces_prefix(self.shells@, i + 1);
                            assert(self.shells@.take(i + 1).drop_last() =~= self.shells@.take(i as int));
                            let pre = shell_faces(self.shells@.take(i + 1));
                            assert(pre == processed + self.shells@[i as int].faces@.map_values(|f: FaceId| f.0));
                            if owned_once(shell_faces(self.shells@), self.faces@.len() as nat) {
                                lemma_prefix_owned(shell_faces(self.shells@), pre, self.faces@.len() as nat);
                            }
                        }
                    }
                    return Err(e);
                },
            };
            proof {
                processed = next@;
                assert(self.shells@.take(i + 1).drop_last() =~= self.shells@.take(i as int));
            }
            i += 1;
        }
        proof {
            assert(self.shells@.take(self.shells@.len() as int) =~= self.shells@);
        }
        Ok(())
    }

    /// Solids: each owns a distinct, closed shell.
    fn check_solids(&self) -> (r: Result<(), Report>)
        ensures
            r is Ok ==> owned_once(solid_shells(self.solids@), self.shells@.len()) && forall|i: int|
                0 <= i < self.solids@.len() ==> self.shells@[(#[trigger] self.solids@[i]).shell.0 as int].closed,
            r is Err ==> !(owned_once(solid_shells(self.solids@), self.shells@.len()) && forall|i: int|
                0 <= i < self.solids@.len() ==> self.shells@[(#[trigger] self.solids@[i]).shell.0 as int].closed),
    {
        let mut owned: Vec<bool> = vec![false; self.shells.len()];
        let ghost mut processed: Seq<usize> = Seq::empty();
        let mut i: usize = 0;
        while i < self.solids.len()
            invariant
                i <= self.solids@.len(),
                owned@.len() == self.shells@.len(),
                tracks(owned@, processed),
                processed == solid_shells(self.solids@.take(i as int)),
                forall|k: int| 0 <= k < i ==> self.shells@[(#[trigger] self.solids@[k]).shell.0 as int].closed,
            decreases self.solids@.len() - i,
        {
            let shell = self.solids[i].shell.0;
            let ghost pre = owned@;
            let count = owned.len();
            let owned_ok = own(&mut owned, shell, "shell");
            if owned_ok.is_err() {
                proof {
                    let full = solid_shells(self.solids@);
                    assert(processed.len() == i);
                    assert forall|k: int| 0 <= k < processed.len() implies full[k] == processed[k] by {
                        assert(self.solids@.take(i as int)[k] == self.solids@[k]);
                    }
                    lemma_own_fail(pre, processed, full, shell);
                }
                return owned_ok;
            }
            proof {
                lemma_tracks_push(pre, processed, shell);
                processed = processed.push(shell);
                assert(solid_shells(self.solids@.take(i + 1)) =~= solid_shells(self.solids@.take(i as int)).push(shell));
            }
            if !self.shells[shell].closed {
                proof {
                    assert(!self.shells@[self.solids@[i as int].shell.0 as int].closed);
                }
                return Err(fail(Defect::OpenShell, "solid", i));
            }
            i += 1;
        }
        proof {
            assert(self.solids@.take(self.solids@.len() as int) =~= self.solids@);
        }
        Ok(())
    }
}

/// What a successful validation establishes about a model, the outcomes of its
/// geometric checks and the limits: every phase of `wires_valid`, the record
/// budget, non-empty shells whose faces each belong to at most one shell and
/// use each edge at most once in each direction (closed ones: each of their
/// edges twice), with faces connected through shared edges and a single fan of
/// edges around each vertex, and solids on distinct closed shells.
pub open spec fn brep_valid(
    b: RawBrep,
    edge_checks: Seq<EdgeGeometry>,
    pcurve_checks: Seq<Option<Defect>>,
    limits: ValidationLimits,
) -> bool {
    &&& record_count(b) <= limits.max_records
    &&& record_count(b) <= 1_000_000
    &&& wires_valid(b, edge_checks, pcurve_checks, limits)
    &&& owned_once(shell_faces(b.shells@), b.faces@.len())
    &&& forall|s: int| 0 <= s < b.shells@.len() ==> (#[trigger] b.shells@[s]).faces@.len() > 0
    &&& forall|s: int| 0 <= s < b.shells@.len() ==> #[trigger] shell_edges_manifold(b, s)
    &&& forall|s: int| 0 <= s < b.shells@.len() ==> #[trigger] shell_edges_paired(b, s)
    &&& forall|s: int| 0 <= s < b.shells@.len() ==> #[trigger] shell_connected(b, s)
    &&& forall|s: int| 0 <= s < b.shells@.len() ==> #[trigger] shell_vertices_manifold(b, s)
    &&& owned_once(solid_shells(b.solids@), b.shells@.len())
    &&& forall|i: int|
        0 <= i < b.solids@.len() ==> b.shells@[(#[trigger] b.solids@[i]).shell.0 as int].closed
}

/// A model that passed validation, with the coedges using each edge.
#[derive(Clone, Debug)]
pub struct ValidatedBrep {
    raw: RawBrep,
    edge_uses: Vec<Vec<CoedgeId>>,
}

/// Immutable, structurally checked model with canonical edge-use incidence.
/// Normalization does not heal, merge vertices or rewrite geometry.
#[derive(Clone, Debug)]
pub struct NormalizedBrep {
    validated: ValidatedBrep,
}

impl ValidatedBrep {
    pub closed spec fn spec_raw(&self) -> RawBrep {
        self.raw
    }

    /// The coedges using edge `e`, in increasing order.
    pub closed spec fn spec_uses(&self, e: int) -> Seq<CoedgeId> {
        self.edge_uses@[e]@
    }

    pub closed spec fn uses_count(&self) -> nat {
        self.edge_uses@.len()
    }

    pub fn normalize(self) -> (r: NormalizedBrep)
        ensures
            r.spec_validated() == self,
    {
        NormalizedBrep { validated: self }
    }

    pub fn data(&self) -> (r: &RawBrep)
        ensures
            *r == self.spec_raw(),
    {
        &self.raw
    }
}

impl NormalizedBrep {
    pub closed spec fn spec_validated(&self) -> ValidatedBrep {
        self.validated
    }

    pub fn data(&self) -> (r: &RawBrep)
        ensures
            *r == self.spec_validated().spec_raw(),
    {
        &self.validated.raw
    }

    /// The coedges using `edge`, if the edge exists.
    pub fn edge_uses(&self, edge: EdgeId) -> (r: Option<&[CoedgeId]>)
        ensures
            match r {
                Some(u) => edge.0 < self.spec_validated().uses_count() && u@ == self.spec_validated().spec_uses(
                    edge.0 as int,
                ),
                None => edge.0 >= self.spec_validated().uses_count(),
            },
    {
        if edge.0 < self.validated.edge_uses.len() {
            Some(self.validated.edge_uses[edge.0].as_slice())
        } else {
            None
        }
    }
}

impl RawBrep {
    /// Checks the model against the outcome of its geometric checks, in a fixed
    /// order, and reports the first defect; the model is never healed or rewritten.
    /// `edge_checks` and `pcurve_checks` hold one entry per edge and per coedge.
    pub fn validate(
        self,
        edge_checks: Vec<EdgeGeometry>,
        pcurve_checks: Vec<Option<Defect>>,
        limits: ValidationLimits,
    ) -> (r: Result<ValidatedBrep, Report>)
        requires
            edge_checks@.len() == self.edges@.len(),
            pcurve_checks@.len() == self.coedges@.len(),
        ensures
            (record_count(self) > limits.max_records || record_count(self) > 1_000_000) ==> (r matches Err(
                e,
            ) && e.defect == Defect::ResourceLimit),
            record_count(self) <= limits.max_records && record_count(self) <= 1_000_000 ==> {
                let left = limits.max_work - record_count(self);
                &&& left < 0 ==> (r matches Err(e) && e.defect == Defect::ResourceLimit)
                &&& left >= 0 && self.faces@.len() == 0 ==> (r matches Err(e) && e.defect == Defect::Empty
                    && e.kind == "faces" && e.index == 0)
                &&& left >= 0 && self.faces@.len() > 0 && !edges_valid(self, edge_checks@) ==> r is Err
                &&& left >= 0 && self.faces@.len() > 0 && edges_valid(self, edge_checks@)
                    && !coedges_valid(self, pcurve_checks@) ==> r is Err
                &&& left >= wires_cost(self.wires@) && self.faces@.len() > 0 && edges_valid(
                    self,
                    edge_checks@,
                ) && coedges_valid(self, pcurve_checks@) && !(partitions(
                    wire_coedges(self.wires@),
                    self.coedges@.len(),
                ) && forall|w: int| 0 <= w < self.wires@.len() ==> wire_closed(self, #[trigger] self.wires@[w]))
                    ==> (r matches Err(e) && e.defect != Defect::ResourceLimit)
                &&& left >= wires_cost(self.wires@) + faces_cost(self.faces@) && self.faces@.len() > 0
                    && edges_valid(self, edge_checks@) && coedges_valid(self, pcurve_checks@)
                    && partitions(wire_coedges(self.wires@), self.coedges@.len()) && (forall|w: int|
                    0 <= w < self.wires@.len() ==> wire_closed(self, #[trigger] self.wires@[w]))
                    && !partitions(face_wires(self.faces@), self.wires@.len()) ==> (r matches Err(e)
                    && e.defect != Defect::ResourceLimit)
            },
            r matches Err(e) ==> e.defect != Defect::ResourceLimit && e.defect != Defect::NonManifoldVertex
                ==> !brep_valid(
                self,
                edge_checks@,
                pcurve_checks@,
                limits,
            ),
            r matches Ok(v) ==> {
                &&& v.spec_raw() == self
                &&& brep_valid(self, edge_checks@, pcurve_checks@, limits)
                &&& v.uses_count() == self.edges@.len()
                &&& forall|e: int|
                    0 <= e < self.edges@.len() ==> #[trigger] v.spec_uses(e) == uses_upto(
                        self,
                        e,
                        self.coedges@.len() as int,
                    )
            },
    {
        proof {
            lemma_faces_cost_nonneg(self.faces@);
            lemma_wires_cost_grows(self.wires@, 0);
        }
        let mut work = limits.max_work;
        let records = self.check_records(limits)?;
        spend(&mut work, records)?;
        if self.faces.len() == 0 {
            return Err(fail(Defect::Empty, "faces", 0));
        }
        self.check_edges(&edge_checks)?;
        let edge_uses = self.check_coedges(&pcurve_checks)?;
        proof {
            assert forall|c: int| 0 <= c < self.coedges@.len() implies coedge_valid(self, c) by {
                assert(pcurve_checks@[c] is None);
            }
        }
        self.check_wires(&mut work)?;
        self.check_faces(&mut work)?;
        proof {
            lemma_handles_valid(self, edge_checks@, pcurve_checks@, limits);
        }
        self.check_shells(&mut work)?;
        self.check_solids()?;
        Ok(ValidatedBrep { raw: self, edge_uses })
    }
}

/// After the wire and face phases, every handle names an existing record.
proof fn lemma_handles_valid(
    b: RawBrep,
    edge_checks: Seq<EdgeGeometry>,
    pcurve_checks: Seq<Option<Defect>>,
    limits: ValidationLimits,
)
    requires
        edges_valid(b, edge_checks),
        coedges_valid(b, pcurve_checks),
        partitions(wire_coedges(b.wires@), b.coedges@.len()),
        partitions(face_wires(b.faces@), b.wires@.len()),
    ensures
        handles_valid(b),
{
    assert forall|e: int| 0 <= e < b.edges@.len() implies (#[trigger] b.edges@[e]).vertices[0].0 < b.vertices
        && b.edges@[e].vertices[1].0 < b.vertices by {
        assert(edge_checks[e].range_ok);
    }
    assert forall|c: int| 0 <= c < b.coedges@.len() implies coedge_valid(b, c) by {
        assert(pcurve_checks[c] is None);
    }
    assert forall|w: int, j: int|
        0 <= w < b.wires@.len() && 0 <= j < b.wires@[w].coedges@.len() implies (#[trigger] b.wires@[w].coedges@[j]).0
        < b.coedges@.len() by {
        lemma_wire_coedges_member(b.wires@, w, j);
    }
    assert forall|f: int| 0 <= f < b.faces@.len() implies (#[trigger] b.faces@[f]).outer.0 < b.wires@.len() by {
        lemma_face_wires_member(b.faces@, f, -1);
    }
    assert forall|f: int, h: int|
        0 <= f < b.faces@.len() && 0 <= h < b.faces@[f].holes@.len() implies (#[trigger] b.faces@[f].holes@[h]).0
        < b.wires@.len() by {
        lemma_face_wires_member(b.faces@, f, h);
    }
}

/// Coedge `j` of wire `w` is among `wire_coedges`.
proof fn lemma_wire_coedges_member(ws: Seq<Wire>, w: int, j: int)
    requires
        0 <= w < ws.len(),
        0 <= j < ws[w].coedges@.len(),
    ensures
        wire_coedges(ws).contains(ws[w].coedges@[j].0),
    decreases ws.len(),
{
    let last = ws.last().coedges@.map_values(|c: CoedgeId| c.0);
    if w == ws.len() - 1 {
        assert(wire_coedges(ws)[wire_coedges(ws.drop_last()).len() + j] == last[j]);
    } else {
        lemma_wire_coedges_member(ws.drop_last(), w, j);
        let k = choose|k: int| 0 <= k < wire_coedges(ws.drop_last()).len() && wire_coedges(ws.drop_last())[k]
            == ws[w].coedges@[j].0;
        assert(wire_coedges(ws)[k] == wire_coedges(ws.drop_last())[k]);
    }
}

/// The outer wire (`h == -1`) or hole `h` of face `f` is among `face_wires`.
proof fn lemma_face_wires_member(fs: Seq<Face>, f: int, h: int)
    requires
        0 <= f < fs.len(),
        -1 <= h < fs[f].holes@.len(),
    ensures
        face_wires(fs).contains(if h == -1 {
            fs[f].outer.0
        } else {
            fs[f].holes@[h].0
        }),
    decreases fs.len(),
{
    let x = if h == -1 {
        fs[f].outer.0
    } else {
        fs[f].holes@[h].0
    };
    let front = face_wires(fs.drop_last());
    let last = fs.last().holes@.map_values(|w: WireId| w.0);
    if f == fs.len() - 1 {
        if h == -1 {
            assert(face_wires(fs)[front.len() as int] == x);
        } else {
            assert(face_wires(fs)[front.len() + 1 + h] == last[h]);
        }
    } else {
        lemma_face_wires_member(fs.drop_last(), f, h);
        let k = choose|k: int| 0 <= k < front.len() && front[k] == x;
        assert(face_wires(fs)[k] == front[k]);
    }
}

} // verus!
