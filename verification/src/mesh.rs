//! Checked oriented manifold incidence of indexed triangle meshes.
//!
//! Closure is combinatorial: self-intersection and material containment are not
//! certified. Floating-point checks of positions, normals, texture coordinates and
//! the signed volume are made by the caller, which hands in one verdict per
//! triangle; the incidence rules are decided here.
use vstd::prelude::*;
use std::collections::{BTreeMap, BTreeSet};
use crate::text::push_str;

verus! {

broadcast use vstd::std_specs::btree::group_btree_axioms;

#[derive(Clone, Copy, Debug, PartialEq, Eq, Structural)]
pub struct Limits {
    pub max_vertices: usize,
    pub max_triangles: usize,
    pub max_work: usize,
}

impl Default for Limits {
    fn default() -> (r: Self)
        ensures
            r.max_vertices == 1_000_000,
            r.max_triangles == 2_000_000,
            r.max_work == 50_000_000,
    {
        Limits { max_vertices: 1_000_000, max_triangles: 2_000_000, max_work: 50_000_000 }
    }
}

#[derive(Clone, Copy, Debug, PartialEq, Eq, Structural)]
pub enum Error {
    ResourceLimit,
    InvalidAttributes,
    InvalidIndex,
    NonFinite,
    DegenerateTriangle,
    DuplicateTriangle,
    NonManifoldEdge,
    InconsistentWinding,
    NonManifoldVertex,
    UnusedVertex,
    Empty,
    Open,
    Disconnected,
    NonPositiveVolume,
}

/// The name of an error, as it is printed.
pub open spec fn error_name(e: Error) -> Seq<char> {
    match e {
        Error::ResourceLimit => "ResourceLimit"@,
        Error::InvalidAttributes => "InvalidAttributes"@,
        Error::InvalidIndex => "InvalidIndex"@,
        Error::NonFinite => "NonFinite"@,
        Error::DegenerateTriangle => "DegenerateTriangle"@,
        Error::DuplicateTriangle => "DuplicateTriangle"@,
        Error::NonManifoldEdge => "NonManifoldEdge"@,
        Error::InconsistentWinding => "InconsistentWinding"@,
        Error::NonManifoldVertex => "NonManifoldVertex"@,
        Error::UnusedVertex => "UnusedVertex"@,
        Error::Empty => "Empty"@,
        Error::Open => "Open"@,
        Error::Disconnected => "Disconnected"@,
        Error::NonPositiveVolume => "NonPositiveVolume"@,
    }
}

impl Error {
    /// The error as it is printed: its name after `mesh: `.
    pub fn describe(self) -> (r: String)
        ensures
            r@ == "mesh: "@ + error_name(self),
    {
        let name = match self {
            Error::ResourceLimit => "ResourceLimit",
            Error::InvalidAttributes => "InvalidAttributes",
            Error::InvalidIndex => "InvalidIndex",
            Error::NonFinite => "NonFinite",
            Error::DegenerateTriangle => "DegenerateTriangle",
            Error::DuplicateTriangle => "DuplicateTriangle",
            Error::NonManifoldEdge => "NonManifoldEdge",
            Error::InconsistentWinding => "InconsistentWinding",
            Error::NonManifoldVertex => "NonManifoldVertex",
            Error::UnusedVertex => "UnusedVertex",
            Error::Empty => "Empty",
            Error::Open => "Open",
            Error::Disconnected => "Disconnected",
            Error::NonPositiveVolume => "NonPositiveVolume",
        };
        let mut s = String::new();
        push_str(&mut s, "mesh: ");
        push_str(&mut s, name);
        s
    }
}


/// The combinatorial statistics of a checked mesh.
#[derive(Clone, Copy, Debug, PartialEq, Eq, Structural)]
pub struct Incidence {
    pub boundary_edges: usize,
    pub components: usize,
}

/// The corners of a triangle in ascending order.
pub open spec fn sorted_corners(t: [u32; 3]) -> (u32, u32, u32) {
    let (a, b, c) = (t[0], t[1], t[2]);
    if a <= b && b <= c {
        (a, b, c)
    } else if a <= c && c <= b {
        (a, c, b)
    } else if b <= a && a <= c {
        (b, a, c)
    } else if b <= c && c <= a {
        (b, c, a)
    } else if c <= a && a <= b {
        (c, a, b)
    } else {
        (c, b, a)
    }
}

/// A number that identifies the corner set of a triangle.
pub open spec fn corner_key(t: [u32; 3]) -> u128 {
    let (a, b, c) = sorted_corners(t);
    (a as u128 * 0x1_0000_0000_0000_0000 + b as u128 * 0x1_0000_0000 + c as u128) as u128
}

fn key_of(t: [u32; 3]) -> (r: u128)
    ensures
        r == corner_key(t),
{
    let (a, b, c) = (t[0], t[1], t[2]);
    let (x, y, z) = if a <= b && b <= c {
        (a, b, c)
    } else if a <= c && c <= b {
        (a, c, b)
    } else if b <= a && a <= c {
        (b, a, c)
    } else if b <= c && c <= a {
        (b, c, a)
    } else if c <= a && a <= b {
        (c, a, b)
    } else {
        (c, b, a)
    };
    assert(x as u128 * 0x1_0000_0000_0000_0000 + y as u128 * 0x1_0000_0000 + z as u128 <= u128::MAX)
        by (nonlinear_arith)
        requires
            x < 0x1_0000_0000,
            y < 0x1_0000_0000,
            z < 0x1_0000_0000,
    ;
    x as u128 * 0x1_0000_0000_0000_0000 + y as u128 * 0x1_0000_0000 + z as u128
}

proof fn lemma_corner_key_injective(s: [u32; 3], t: [u32; 3])
    requires
        corner_key(s) == corner_key(t),
    ensures
        sorted_corners(s) == sorted_corners(t),
{
    let (a, b, c) = sorted_corners(s);
    let (x, y, z) = sorted_corners(t);
    assert(a as u128 * 0x1_0000_0000_0000_0000 + b as u128 * 0x1_0000_0000 + c as u128 <= u128::MAX)
        by (nonlinear_arith)
        requires
            a < 0x1_0000_0000,
            b < 0x1_0000_0000,
            c < 0x1_0000_0000,
    ;
    assert(x as u128 * 0x1_0000_0000_0000_0000 + y as u128 * 0x1_0000_0000 + z as u128 <= u128::MAX)
        by (nonlinear_arith)
        requires
            x < 0x1_0000_0000,
            y < 0x1_0000_0000,
            z < 0x1_0000_0000,
    ;
    assert(a == x && b == y && c == z) by (nonlinear_arith)
        requires
            a as u128 * 0x1_0000_0000_0000_0000 + b as u128 * 0x1_0000_0000 + c as u128 == x as u128
                * 0x1_0000_0000_0000_0000 + y as u128 * 0x1_0000_0000 + z as u128,
            a < 0x1_0000_0000,
            b < 0x1_0000_0000,
            c < 0x1_0000_0000,
            x < 0x1_0000_0000,
            y < 0x1_0000_0000,
            z < 0x1_0000_0000,
    ;
}

/// The checks of each triangle on its own and against earlier ones: its
/// indices name vertices, no earlier triangle has its corner set, and it passed
/// its floating-point checks.
pub open spec fn triangles_checked(
    vertex_count: usize,
    triangles: Seq<[u32; 3]>,
    geometry: Seq<TriangleGeometry>,
) -> bool {
    &&& forall|t: int, k: int| 0 <= t < triangles.len() && 0 <= k < 3 ==> triangles[t][k] < vertex_count
    &&& forall|s: int, t: int|
        0 <= s < t < triangles.len() ==> sorted_corners(#[trigger] triangles[s]) != sorted_corners(
            #[trigger] triangles[t],
        )
    &&& forall|t: int|
        0 <= t < geometry.len() ==> !(#[trigger] geometry[t]).degenerate && geometry[t].attributes == Attributes::Valid
            && geometry[t].volume_finite
}

/// A work budget: the number of steps still allowed.
struct Budget(usize);

impl Budget {
    fn charge(&mut self, n: usize) -> (r: Result<(), Error>)
        ensures
            r is Ok <==> old(self).0 >= n,
            r is Ok ==> final(self).0 == old(self).0 - n,
            r is Err ==> final(self).0 == old(self).0,
            r matches Err(e) ==> e == Error::ResourceLimit,
    {
        if self.0 < n {
            return Err(Error::ResourceLimit);
        }
        self.0 = self.0 - n;
        Ok(())
    }
}

/// Some triangle has vertex `v` as a corner.
pub open spec fn used(triangles: Seq<[u32; 3]>, v: int) -> bool {
    exists|t: int, k: int| 0 <= t < triangles.len() && 0 <= k < 3 && triangles[t][k] == v
}

/// The directed edge that corner `k` of triangle `t` starts.
pub open spec fn directed_edge(triangles: Seq<[u32; 3]>, t: int, k: int) -> (u32, u32) {
    (triangles[t][k], triangles[t][(k + 1) % 3])
}

/// No directed edge is used by two corners: each undirected edge bounds at most
/// two triangles, and two triangles that share it traverse it in opposite
/// directions.
pub open spec fn oriented_manifold_edges(triangles: Seq<[u32; 3]>) -> bool {
    forall|s: int, i: int, t: int, j: int|
        0 <= s < triangles.len() && 0 <= i < 3 && 0 <= t < triangles.len() && 0 <= j < 3 && (s != t
            || i != j) ==> #[trigger] directed_edge(triangles, s, i) != #[trigger] directed_edge(
            triangles,
            t,
            j,
        )
}

/// Some other corner starts the directed edge that corner `k` of triangle `t`
/// starts, traversed backwards.
pub open spec fn reversed_somewhere(triangles: Seq<[u32; 3]>, t: int, k: int) -> bool {
    let e = directed_edge(triangles, t, k);
    exists|s: int, i: int|
        0 <= s < triangles.len() && 0 <= i < 3 && (s != t || i != k) && directed_edge(triangles, s, i) == (
        e.1,
        e.0,
    )
}

/// No edge lies on a boundary: every directed edge is traversed backwards by
/// another corner.
pub open spec fn closed_surface(triangles: Seq<[u32; 3]>) -> bool {
    forall|t: int, k: int| 0 <= t < triangles.len() && 0 <= k < 3 ==> #[trigger] reversed_somewhere(triangles, t, k)
}

/// Triangles `a` and `b` share an edge, which they traverse in opposite
/// directions.
pub open spec fn share_edge(triangles: Seq<[u32; 3]>, a: int, b: int) -> bool {
    exists|i: int, j: int|
        0 <= i < 3 && 0 <= j < 3 && (a != b || i != j) && directed_edge(triangles, a, i) == (
        directed_edge(triangles, b, j).1,
        directed_edge(triangles, b, j).0,
    )
}

pub open spec fn triangle_step_at(triangles: Seq<[u32; 3]>, p: Seq<int>, i: int) -> bool {
    0 <= p[i] < triangles.len() && 0 <= p[i + 1] < triangles.len() && share_edge(triangles, p[i], p[i + 1])
}

/// `p` is a chain of triangles, each sharing an edge with the next.
pub open spec fn triangle_chain(triangles: Seq<[u32; 3]>, p: Seq<int>) -> bool {
    p.len() >= 1 && forall|i: int| 0 <= i < p.len() - 1 ==> #[trigger] triangle_step_at(triangles, p, i)
}

/// A chain of triangles leads from the first triangle to triangle `x`.
pub open spec fn triangle_linked(triangles: Seq<[u32; 3]>, x: int) -> bool {
    exists|p: Seq<int>| #[trigger] triangle_chain(triangles, p) && p[0] == 0 && p.last() == x
}

/// A chain of triangles, each sharing an edge with the next, leads from
/// triangle `a` to triangle `b`.
pub open spec fn chained(triangles: Seq<[u32; 3]>, a: int, b: int) -> bool {
    exists|p: Seq<int>| #[trigger] triangle_chain(triangles, p) && p[0] == a && p.last() == b
}

/// Triangle `x` comes first in its edge-connected component: no earlier
/// triangle is chained to it.
pub open spec fn first_in_component(triangles: Seq<[u32; 3]>, x: int) -> bool {
    forall|y: int| 0 <= y < x ==> !#[trigger] chained(triangles, y, x)
}

/// Being chained is an equivalence between triangles: every triangle is chained
/// to itself, chains run both ways, and two chains meeting at a triangle join.
pub proof fn lemma_chained_equivalence(triangles: Seq<[u32; 3]>, a: int, b: int, c: int)
    ensures
        chained(triangles, a, a),
        chained(triangles, a, b) ==> chained(triangles, b, a),
        chained(triangles, a, b) && chained(triangles, b, c) ==> chained(triangles, a, c),
{
    assert(triangle_chain(triangles, seq![a]));
    if chained(triangles, a, b) {
        let p = choose|p: Seq<int>| #[trigger] triangle_chain(triangles, p) && p[0] == a && p.last() == b;
        let q = p.reverse();
        assert forall|i: int| 0 <= i < q.len() - 1 implies #[trigger] triangle_step_at(triangles, q, i) by {
            let k = p.len() - 2 - i;
            assert(triangle_step_at(triangles, p, k));
            assert(q[i] == p[k + 1] && q[i + 1] == p[k]);
            let (x, y) = choose|x: int, y: int|
                #![trigger directed_edge(triangles, p[k], x), directed_edge(triangles, p[k + 1], y)]
                0 <= x < 3 && 0 <= y < 3 && (p[k] != p[k + 1] || x != y) && directed_edge(triangles, p[k], x) == (
                    directed_edge(triangles, p[k + 1], y).1,
                    directed_edge(triangles, p[k + 1], y).0,
                );
            assert(directed_edge(triangles, p[k + 1], y) == (
                directed_edge(triangles, p[k], x).1,
                directed_edge(triangles, p[k], x).0,
            ));
        }
        assert(triangle_chain(triangles, q));
        assert(q[0] == b && q.last() == a);
        if chained(triangles, b, c) {
            let r = choose|r: Seq<int>| #[trigger] triangle_chain(triangles, r) && r[0] == b && r.last() == c;
            let w = p + r.drop_first();
            assert forall|i: int| 0 <= i < w.len() - 1 implies #[trigger] triangle_step_at(triangles, w, i) by {
                if i < p.len() - 1 {
                    assert(triangle_step_at(triangles, p, i));
                } else {
                    let k = i - (p.len() - 1);
                    assert(triangle_step_at(triangles, r, k));
                    assert(w[i] == r[k] && w[i + 1] == r[k + 1]);
                }
            }
            assert(triangle_chain(triangles, w));
            if r.len() == 1 {
                assert(w =~= p);
            } else {
                assert(w.last() == r.last());
            }
        }
    }
}

/// Every triangle lies in the component of exactly one triangle that comes
/// first in its component, at or before it: counting the triangles that come
/// first counts the edge-connected components.
pub proof fn lemma_component_first(triangles: Seq<[u32; 3]>, x: int)
    requires
        0 <= x < triangles.len(),
    ensures
        exists|f: int| 0 <= f <= x && first_in_component(triangles, f) && #[trigger] chained(triangles, f, x),
        forall|f1: int, f2: int|
            0 <= f1 < triangles.len() && 0 <= f2 < triangles.len() && first_in_component(triangles, f1)
                && first_in_component(triangles, f2) && #[trigger] chained(triangles, f1, x) && #[trigger] chained(
                triangles,
                f2,
                x,
            ) ==> f1 == f2,
    decreases x,
{
    lemma_chained_equivalence(triangles, x, x, x);
    if !first_in_component(triangles, x) {
        let y = choose|y: int| 0 <= y < x && #[trigger] chained(triangles, y, x);
        lemma_component_first(triangles, y);
        let f = choose|f: int| 0 <= f <= y && first_in_component(triangles, f) && #[trigger] chained(triangles, f, y);
        lemma_chained_equivalence(triangles, f, y, x);
        assert(chained(triangles, f, x));
    }
    assert forall|f1: int, f2: int|
        0 <= f1 < triangles.len() && 0 <= f2 < triangles.len() && first_in_component(triangles, f1)
            && first_in_component(triangles, f2) && #[trigger] chained(triangles, f1, x) && #[trigger] chained(
            triangles,
            f2,
            x,
        ) implies f1 == f2 by {
        lemma_chained_equivalence(triangles, f2, x, x);
        lemma_chained_equivalence(triangles, f1, x, f2);
        lemma_chained_equivalence(triangles, f1, f2, f2);
        if f1 < f2 {
            assert(!chained(triangles, f1, f2));
        } else if f2 < f1 {
            assert(!chained(triangles, f2, f1));
        }
    }
}

/// How many of the first `k` triangles come first in their component.
pub open spec fn components_among(triangles: Seq<[u32; 3]>, k: nat) -> nat
    decreases k,
{
    if k == 0 {
        0
    } else {
        components_among(triangles, (k - 1) as nat) + if first_in_component(triangles, k - 1) {
            1nat
        } else {
            0nat
        }
    }
}

/// The number of edge-connected components: each has exactly one triangle
/// that comes first in it.
pub open spec fn component_count(triangles: Seq<[u32; 3]>) -> nat {
    components_among(triangles, triangles.len())
}

/// Every triangle is joined to the first by a chain of triangles sharing edges.
pub open spec fn edge_connected(triangles: Seq<[u32; 3]>) -> bool {
    forall|x: int| 0 <= x < triangles.len() ==> #[trigger] triangle_linked(triangles, x)
}

/// The key under which an undirected edge is recorded.
spec fn edge_key(e: (u32, u32)) -> u64 {
    if e.0 < e.1 {
        (e.0 as u64 * 0x1_0000_0000 + e.1 as u64) as u64
    } else {
        (e.1 as u64 * 0x1_0000_0000 + e.0 as u64) as u64
    }
}

/// Edges with the same key join the same two vertices.
proof fn lemma_edge_key(e: (u32, u32), f: (u32, u32))
    requires
        edge_key(e) == edge_key(f),
    ensures
        f == e || f == (e.1, e.0),
{
    let (a, b) = if e.0 < e.1 {
        (e.0, e.1)
    } else {
        (e.1, e.0)
    };
    let (c, d) = if f.0 < f.1 {
        (f.0, f.1)
    } else {
        (f.1, f.0)
    };
    assert(a as u64 * 0x1_0000_0000 + b as u64 <= u64::MAX) by (nonlinear_arith)
        requires
            a < 0x1_0000_0000,
            b < 0x1_0000_0000,
    ;
    assert(c as u64 * 0x1_0000_0000 + d as u64 <= u64::MAX) by (nonlinear_arith)
        requires
            c < 0x1_0000_0000,
            d < 0x1_0000_0000,
    ;
    assert(edge_key(e) == a as u64 * 0x1_0000_0000 + b as u64);
    assert(edge_key(f) == c as u64 * 0x1_0000_0000 + d as u64);
    assert(a == c && b == d) by (nonlinear_arith)
        requires
            a as u64 * 0x1_0000_0000 + b as u64 == c as u64 * 0x1_0000_0000 + d as u64,
            a < 0x1_0000_0000,
            b < 0x1_0000_0000,
            c < 0x1_0000_0000,
            d < 0x1_0000_0000,
    ;
}

/// The use of corner `k` of triangle `t` is recorded at position `slot[(t, k)]`
/// of its edge's list.
spec fn placed(
    edges: Map<u64, Vec<(usize, bool)>>,
    slot: Map<(int, int), int>,
    triangles: Seq<[u32; 3]>,
    t: int,
    k: int,
) -> bool {
    let e = directed_edge(triangles, t, k);
    &&& slot.contains_key((t, k))
    &&& edges.contains_key(edge_key(e))
    &&& 0 <= slot[(t, k)] < edges[edge_key(e)]@.len()
    &&& edges[edge_key(e)]@[slot[(t, k)]] == (t as usize, e.0 < e.1)
}

/// Position `idx` of the list of `key` records the use of a corner before `(ti, ki)`.
spec fn entry_owned(
    triangles: Seq<[u32; 3]>,
    slot: Map<(int, int), int>,
    key: u64,
    idx: int,
    ti: int,
    ki: int,
) -> bool {
    exists|t: int, k: int|
        0 <= t < triangles.len() && 0 <= k < 3 && before(t, k, ti, ki) && edge_key(directed_edge(triangles, t, k))
            == key && slot.contains_key((t, k)) && slot[(t, k)] == idx
}

/// Every position of every edge list records a corner before `(ti, ki)`.
spec fn entries_owned(
    edges: Map<u64, Vec<(usize, bool)>>,
    triangles: Seq<[u32; 3]>,
    slot: Map<(int, int), int>,
    ti: int,
    ki: int,
) -> bool {
    forall|key: u64, idx: int|
        edges.contains_key(key) && 0 <= idx < edges[key]@.len() ==> #[trigger] entry_owned(
            triangles,
            slot,
            key,
            idx,
            ti,
            ki,
        )
}

/// Corners `(s, i)` come before `(t, j)` in triangle order.
spec fn before(s: int, i: int, t: int, j: int) -> bool {
    s < t || (s == t && i < j)
}

/// Each list of edge uses holds one use, or two in opposite directions.
spec fn edge_uses_ok(uses: Seq<(usize, bool)>) -> bool {
    uses.len() == 1 || (uses.len() == 2 && uses[0].1 != uses[1].1)
}

/// The edge opposite corner `k` of triangle `t`, in the triangle's direction.
pub open spec fn corner_link(triangles: Seq<[u32; 3]>, t: int, k: int) -> (u32, u32) {
    (triangles[t][(k + 1) % 3], triangles[t][(k + 2) % 3])
}

/// Some corner at vertex `v` has `pair` as its opposite edge.
pub open spec fn opposite_at(triangles: Seq<[u32; 3]>, v: int, pair: (u32, u32)) -> bool {
    exists|t: int, k: int|
        0 <= t < triangles.len() && 0 <= k < 3 && triangles[t][k] == v && corner_link(triangles, t, k)
            == pair
}

/// Some corner at `v` has an opposite edge joining `x` and `y`: the triangle
/// `(v, x, y)` is in the mesh, in either orientation.
pub open spec fn fan_step(triangles: Seq<[u32; 3]>, v: int, x: u32, y: u32) -> bool {
    opposite_at(triangles, v, (x, y)) || opposite_at(triangles, v, (y, x))
}

pub open spec fn fan_step_at(triangles: Seq<[u32; 3]>, v: int, p: Seq<u32>, i: int) -> bool {
    fan_step(triangles, v, p[i], p[i + 1])
}

/// `p` is a chain of triangles around `v`: each two consecutive entries are
/// joined by the opposite edge of a corner at `v`.
pub open spec fn fan_walk(triangles: Seq<[u32; 3]>, v: int, p: Seq<u32>) -> bool {
    p.len() >= 1 && forall|i: int| 0 <= i < p.len() - 1 ==> #[trigger] fan_step_at(triangles, v, p, i)
}

/// `x` shares a triangle with `v`.
pub open spec fn around(triangles: Seq<[u32; 3]>, v: int, x: u32) -> bool {
    exists|y: u32| fan_step(triangles, v, x, y)
}

/// The triangles around each vertex form a single fan: any two vertices that
/// share a triangle with `v` are joined by a chain of triangles around `v`
/// (no vertex is pinched between two separate fans).
pub open spec fn single_fans(triangles: Seq<[u32; 3]>, vertex_count: int) -> bool {
    forall|v: int, x: u32, y: u32|
        0 <= v < vertex_count && #[trigger] around(triangles, v, x) && #[trigger] around(
            triangles,
            v,
            y,
        ) ==> exists|p: Seq<u32>| #[trigger] fan_walk(triangles, v, p) && p[0] == x && p.last() == y
}

/// `pair` is recorded in the link list of vertex `v`.
spec fn recorded(links: Seq<Vec<(u32, u32)>>, v: int, pair: (u32, u32)) -> bool {
    exists|j: int| 0 <= j < links[v]@.len() && links[v]@[j] == pair
}

/// Every recorded link pair is the opposite edge of a corner at its vertex.
spec fn links_sound(triangles: Seq<[u32; 3]>, links: Seq<Vec<(u32, u32)>>) -> bool {
    forall|v: int, j: int|
        0 <= v < links.len() && 0 <= j < links[v]@.len() ==> opposite_at(triangles, v, #[trigger] links[v]@[j])
}

/// The opposite edge of every corner before `(ti, ki)` is recorded at its vertex.
spec fn links_complete(triangles: Seq<[u32; 3]>, links: Seq<Vec<(u32, u32)>>, ti: int, ki: int) -> bool {
    forall|t: int, k: int|
        0 <= t < triangles.len() && 0 <= k < 3 && before(t, k, ti, ki) ==> recorded(
            links,
            triangles[t][k] as int,
            #[trigger] corner_link(triangles, t, k),
        )
}

/// What a checked mesh satisfies: every index names a vertex and every vertex
/// is used; no two triangles have the same corner set; and every triangle passed
/// its floating-point checks.
pub open spec fn incidence_ok(
    vertex_count: usize,
    triangles: Seq<[u32; 3]>,
    geometry: Seq<TriangleGeometry>,
) -> bool {
    &&& forall|t: int, k: int| 0 <= t < triangles.len() && 0 <= k < 3 ==> triangles[t][k] < vertex_count
    &&& forall|v: int| 0 <= v < vertex_count ==> used(triangles, v)
    &&& forall|s: int, t: int|
        0 <= s < t < triangles.len() ==> sorted_corners(#[trigger] triangles[s]) != sorted_corners(
            #[trigger] triangles[t],
        )
    &&& forall|t: int|
        0 <= t < geometry.len() ==> !(#[trigger] geometry[t]).degenerate && geometry[t].attributes == Attributes::Valid
            && geometry[t].volume_finite
    &&& oriented_manifold_edges(triangles)
    &&& single_fans(triangles, vertex_count as int)
}


/// The number of entries of all vertex links together.
pub open spec fn total_len(links: Seq<Vec<(u32, u32)>>) -> nat
    decreases links.len(),
{
    if links.len() == 0 {
        0
    } else {
        total_len(links.drop_last()) + links.last()@.len()
    }
}

/// Adding one entry to one link adds one to the total.
proof fn lemma_total_len_update(s: Seq<Vec<(u32, u32)>>, u: int, x: Vec<(u32, u32)>)
    requires
        0 <= u < s.len(),
        x@.len() == s[u]@.len() + 1,
    ensures
        total_len(s.update(u, x)) == total_len(s) + 1,
    decreases s.len(),
{
    if u == s.len() - 1 {
        assert(s.update(u, x).drop_last() =~= s.drop_last());
    } else {
        assert(s.update(u, x).drop_last() =~= s.drop_last().update(u, x));
        lemma_total_len_update(s.drop_last(), u, x);
    }
}

/// The links of the first `i + 1` vertices hold those of the first `i` and
/// the link of vertex `i`; no prefix holds more than all of them.
proof fn lemma_total_len_take(s: Seq<Vec<(u32, u32)>>, i: int)
    requires
        0 <= i <= s.len(),
    ensures
        i < s.len() ==> total_len(s.take(i + 1)) == total_len(s.take(i)) + s[i]@.len(),
        total_len(s.take(i)) <= total_len(s),
    decreases s.len() - i,
{
    if i < s.len() {
        assert(s.take(i + 1).drop_last() =~= s.take(i));
        lemma_total_len_take(s, i + 1);
    } else {
        assert(s.take(i) =~= s);
    }
}

/// Work that always suffices for a mesh of `nv` vertices and `nt` triangles:
/// one step per vertex, ten per triangle, one per undirected edge (at most
/// three per triangle), five per vertex-link entry (three per triangle) and
/// one per vertex for the links, and for the component search one per
/// triangle plus, for each triangle reached, one per neighbour pushed, of
/// which a triangle has at most twice as many as there are undirected edges.
pub open spec fn work_bound(nv: int, nt: int) -> int {
    2 * nv + 29 * nt + 6 * nt * nt
}

/// The number of `true` entries of `s`.
spec fn count_true(s: Seq<bool>) -> nat
    decreases s.len(),
{
    if s.len() == 0 {
        0
    } else {
        count_true(s.drop_last()) + if s.last() {
            1nat
        } else {
            0nat
        }
    }
}

proof fn lemma_count_true_set(s: Seq<bool>, t: int)
    requires
        0 <= t < s.len(),
        !s[t],
    ensures
        count_true(s.update(t, true)) == count_true(s) + 1,
    decreases s.len(),
{
    if t == s.len() - 1 {
        assert(s.update(t, true).drop_last() =~= s.drop_last());
    } else {
        assert(s.update(t, true).drop_last() =~= s.drop_last().update(t, true));
        lemma_count_true_set(s.drop_last(), t);
    }
}

proof fn lemma_count_true_le(s: Seq<bool>)
    ensures
        count_true(s) <= s.len(),
    decreases s.len(),
{
    if s.len() > 0 {
        lemma_count_true_le(s.drop_last());
    }
}

/// The per-triangle pass: indices, floating-point verdicts and duplicates,
/// with each corner's directed edge and vertex link recorded.
fn triangle_pass(
    vertex_count: usize,
    triangles: &[[u32; 3]],
    geometry: &[TriangleGeometry],
    budget: &mut Budget,
) -> (r: Result<
    (BTreeMap<u64, Vec<(usize, bool)>>, Vec<Vec<(u32, u32)>>, Ghost<Map<(int, int), int>>),
    Error,
>)
    requires
        geometry@.len() == triangles@.len(),
        vertex_count <= u32::MAX,
    ensures
        r matches Ok((edges, links, slot)) ==> {
            &&& entries_owned(edges@, triangles@, slot@, triangles@.len() as int, 0)
            &&& forall|t: int, k: int|
                0 <= t < triangles@.len() && 0 <= k < 3 ==> #[trigger] placed(
                    edges@,
                    slot@,
                    triangles@,
                    t,
                    k,
                )
            &&& forall|s: int, i: int, t: int, j: int|
                0 <= s < triangles@.len() && 0 <= i < 3 && 0 <= t < triangles@.len() && 0 <= j < 3
                    && before(s, i, t, j) && edge_key(#[trigger] directed_edge(triangles@, s, i))
                    == edge_key(#[trigger] directed_edge(triangles@, t, j)) ==> slot@[(s, i)] != slot@[(t, j)]
            &&& links@.len() == vertex_count
            &&& forall|v: int| 0 <= v < vertex_count ==> ((#[trigger] links@[v])@.len() > 0 <==> used(triangles@, v))
            &&& links_sound(triangles@, links@)
            &&& links_complete(triangles@, links@, triangles@.len() as int, 0)
            &&& forall|t: int, k: int|
                0 <= t < triangles@.len() && 0 <= k < 3 ==> triangles@[t][k] < vertex_count
            &&& forall|s: int, t: int|
                0 <= s < t < triangles@.len() ==> sorted_corners(#[trigger] triangles@[s])
                    != sorted_corners(#[trigger] triangles@[t])
            &&& forall|t: int|
                0 <= t < geometry@.len() ==> !(#[trigger] geometry@[t]).degenerate
                    && geometry@[t].attributes == Attributes::Valid && geometry@[t].volume_finite
            &&& forall|k: u64|
                #[trigger] edges@.contains_key(k) ==> forall|j: int|
                    0 <= j < edges@[k]@.len() ==> (#[trigger] edges@[k]@[j]).0 < triangles@.len()
        },
        r matches Err(e) ==> e == Error::ResourceLimit || !triangles_checked(vertex_count, triangles@, geometry@),
        r matches Err(e) ==> e == Error::ResourceLimit ==> final(budget).0 < 10,
        r matches Err(e) ==> e == Error::ResourceLimit ==> old(budget).0 < 10 * triangles@.len(),
        r is Ok ==> final(budget).0 == old(budget).0 - 10 * triangles@.len(),
        r matches Ok((edges, _, _)) ==> edges@.dom().finite() && edges@.dom().len() <= 3 * triangles@.len(),
        r matches Ok((_, links, _)) ==> total_len(links@) == 3 * triangles@.len(),
        r matches Ok((edges, _, _)) ==> forall|k: u64| #[trigger] edges@.contains_key(k) ==> edges@[k]@.len() > 0,
{
    let ghost start = budget.0;
    let mut edges: BTreeMap<u64, Vec<(usize, bool)>> = BTreeMap::new();
    let mut links: Vec<Vec<(u32, u32)>> = Vec::new();
    let mut v: usize = 0;
    while v < vertex_count
        invariant
            v <= vertex_count,
            links@.len() == v,
            forall|j: int| 0 <= j < v ==> (#[trigger] links@[j])@.len() == 0,
            links_sound(triangles@, links@),
            total_len(links@) == 0,
        decreases vertex_count - v,
    {
        let ghost before = links@;
        links.push(Vec::new());
        proof {
            assert(links@.drop_last() =~= before);
        }
        v += 1;
    }
    let mut unique: BTreeSet<u128> = BTreeSet::new();
    let ghost mut slot: Map<(int, int), int> = Map::empty();
    let mut ti: usize = 0;
    while ti < triangles.len()
        invariant
            ti <= triangles@.len(),
            budget.0 == start - 10 * ti,
            start == old(budget).0,
            total_len(links@) == 3 * ti,
            forall|key: u64| #[trigger] edges@.contains_key(key) ==> edges@[key]@.len() > 0,
            edges@.dom().finite(),
            edges@.dom().len() <= 3 * ti,
            entries_owned(edges@, triangles@, slot, ti as int, 0),
            forall|t: int, k: int| 0 <= t < ti && 0 <= k < 3 ==> #[trigger] placed(
                edges@,
                slot,
                triangles@,
                t,
                k,
            ),
            forall|s: int, i: int, t: int, j: int|
                0 <= s < ti && 0 <= i < 3 && 0 <= t < ti && 0 <= j < 3 && before(s, i, t, j)
                    && edge_key(#[trigger] directed_edge(triangles@, s, i)) == edge_key(
                    #[trigger] directed_edge(triangles@, t, j),
                ) ==> slot[(s, i)] != slot[(t, j)],
            geometry@.len() == triangles@.len(),
            vertex_count <= u32::MAX,
            links@.len() == vertex_count,
            links_sound(triangles@, links@),
            links_complete(triangles@, links@, ti as int, 0),
            forall|j: int|
                0 <= j < vertex_count ==> ((#[trigger] links@[j])@.len() > 0 <==> used(
                    triangles@.take(ti as int),
                    j,
                )),
            forall|t: int, k: int| 0 <= t < ti && 0 <= k < 3 ==> triangles@[t][k] < vertex_count,
            forall|s: int, t: int|
                0 <= s < t < ti ==> sorted_corners(#[trigger] triangles@[s]) != sorted_corners(
                    #[trigger] triangles@[t],
                ),
            forall|t: int| 0 <= t < ti ==> unique@.contains(#[trigger] corner_key(triangles@[t])),
            forall|x: u128| #[trigger] unique@.contains(x) ==> exists|t: int|
                0 <= t < ti && corner_key(triangles@[t]) == x,
            forall|t: int|
                0 <= t < ti ==> !(#[trigger] geometry@[t]).degenerate && geometry@[t].attributes == Attributes::Valid
                    && geometry@[t].volume_finite,
            forall|k: u64|
                #[trigger] edges@.contains_key(k) ==> forall|j: int|
                    0 <= j < edges@[k]@.len() ==> (#[trigger] edges@[k]@[j]).0 < triangles@.len(),
        decreases triangles@.len() - ti,
    {
        budget.charge(10)?;
        let tri = triangles[ti];
        if tri[0] as usize >= vertex_count || tri[1] as usize >= vertex_count || tri[2] as usize
            >= vertex_count {
            proof {
                if tri[0] as usize >= vertex_count {
                    assert(!(triangles@[ti as int][0] < vertex_count));
                } else if tri[1] as usize >= vertex_count {
                    assert(!(triangles@[ti as int][1] < vertex_count));
                } else {
                    assert(!(triangles@[ti as int][2] < vertex_count));
                }
            }
            return Err(Error::InvalidIndex);
        }
        if geometry[ti].degenerate {
            proof {
                assert(geometry@[ti as int].degenerate);
            }
            return Err(Error::DegenerateTriangle);
        }
        let key = key_of(tri);
        if unique.contains(&key) {
            proof {
                let t0 = choose|t: int| 0 <= t < ti && corner_key(triangles@[t]) == key;
                lemma_corner_key_injective(triangles@[t0], tri);
                assert(sorted_corners(triangles@[t0]) == sorted_corners(triangles@[ti as int]));
            }
            return Err(Error::DuplicateTriangle);
        }
        unique.insert(key);
        match geometry[ti].attributes {
            Attributes::Valid => {},
            Attributes::NonFinite => {
                proof {
                    assert(geometry@[ti as int].attributes != Attributes::Valid);
                }
                return Err(Error::NonFinite);
            },
            Attributes::Invalid => {
                proof {
                    assert(geometry@[ti as int].attributes != Attributes::Valid);
                }
                return Err(Error::InvalidAttributes);
            },
        }
        let ghost before_links = links@;
        let mut k: usize = 0;
        while k < 3
            invariant
                k <= 3,
                ti < triangles@.len(),
                edges@.dom().finite(),
                edges@.dom().len() <= 3 * ti + k,
                total_len(links@) == 3 * ti + k,
                forall|key: u64| #[trigger] edges@.contains_key(key) ==> edges@[key]@.len() > 0,
                entries_owned(edges@, triangles@, slot, ti as int, k as int),
                forall|t: int, j: int|
                    0 <= t <= ti && 0 <= j < 3 && before(t, j, ti as int, k as int) ==> #[trigger] placed(
                        edges@,
                        slot,
                        triangles@,
                        t,
                        j,
                    ),
                forall|s: int, i: int, t: int, j: int|
                    0 <= s <= ti && 0 <= i < 3 && 0 <= t <= ti && 0 <= j < 3 && before(s, i, t, j)
                        && before(t, j, ti as int, k as int) && edge_key(#[trigger] directed_edge(triangles@, s, i))
                        == edge_key(#[trigger] directed_edge(triangles@, t, j)) ==> slot[(s, i)] != slot[(t, j)],
                tri == triangles@[ti as int],
                tri[0] < vertex_count && tri[1] < vertex_count && tri[2] < vertex_count,
                links@.len() == vertex_count,
                links_sound(triangles@, links@),
                links_complete(triangles@, links@, ti as int, k as int),
                forall|t: int, c: int| 0 <= t < ti && 0 <= c < 3 ==> triangles@[t][c] < vertex_count,
                forall|j: int|
                    0 <= j < vertex_count ==> ((#[trigger] links@[j])@.len() > 0 <==> (
                    before_links[j]@.len() > 0 || exists|c: int| 0 <= c < k && tri[c] == j)),
                forall|key: u64|
                    #[trigger] edges@.contains_key(key) ==> forall|j: int|
                        0 <= j < edges@[key]@.len() ==> (#[trigger] edges@[key]@[j]).0
                            < triangles@.len(),
            decreases 3 - k,
        {
            let u = tri[k];
            let v = tri[(k + 1) % 3];
            let w = tri[(k + 2) % 3];
            let edge = if u < v {
                (u as u64) * 0x1_0000_0000 + v as u64
            } else {
                (v as u64) * 0x1_0000_0000 + u as u64
            };
            let ghost old_edges = edges@;
            let ghost position: int = if old_edges.contains_key(edge) {
                old_edges[edge]@.len() as int
            } else {
                0
            };
            assert(directed_edge(triangles@, ti as int, k as int) == (u, v));
            assert(edge == edge_key((u, v)));
            append_edge(&mut edges, edge, (ti, u < v));
            proof {
                let old_slot = slot;
                slot = slot.insert((ti as int, k as int), position);
                assert forall|t: int, j: int|
                    0 <= t <= ti && 0 <= j < 3 && before(t, j, ti as int, k + 1) implies #[trigger] placed(
                    edges@,
                    slot,
                    triangles@,
                    t,
                    j,
                ) by {
                    if t == ti && j == k {
                    } else {
                        assert(placed(old_edges, old_slot, triangles@, t, j));
                    }
                }
                assert forall|s: int, i: int, t: int, j: int|
                    0 <= s <= ti && 0 <= i < 3 && 0 <= t <= ti && 0 <= j < 3 && before(s, i, t, j)
                        && before(t, j, ti as int, k + 1) && edge_key(#[trigger] directed_edge(triangles@, s, i))
                        == edge_key(#[trigger] directed_edge(triangles@, t, j)) implies slot[(s, i)] != slot[(t, j)] by {
                    if t == ti && j == k {
                        assert(placed(old_edges, old_slot, triangles@, s, i));
                    }
                }
                assert forall|key: u64, idx: int|
                    edges@.contains_key(key) && 0 <= idx < edges@[key]@.len() implies #[trigger] entry_owned(
                    triangles@,
                    slot,
                    key,
                    idx,
                    ti as int,
                    k + 1,
                ) by {
                    if key == edge && idx == position {
                        assert(before(ti as int, k as int, ti as int, k + 1));
                    } else {
                        assert(old_edges.contains_key(key) && 0 <= idx < old_edges[key]@.len());
                        assert(entry_owned(triangles@, old_slot, key, idx, ti as int, k as int));
                        let (t0, k0) = choose|t0: int, k0: int|
                            0 <= t0 < triangles@.len() && 0 <= k0 < 3 && before(t0, k0, ti as int, k as int)
                                && edge_key(directed_edge(triangles@, t0, k0)) == key && old_slot.contains_key(
                                (t0, k0),
                            ) && old_slot[(t0, k0)] == idx;
                        assert(before(t0, k0, ti as int, k + 1));
                        assert(slot[(t0, k0)] == idx);
                    }
                }
            }
            let ghost old_links = links@;
            let mut list: Vec<(u32, u32)> = Vec::new();
            std::mem::swap(&mut list, &mut links[u as usize]);
            list.push((v, w));
            links.set(u as usize, list);
            proof {
                assert(links@[u as int]@ == old_links[u as int]@.push((v, w)));
                lemma_total_len_update(old_links, u as int, links@[u as int]);
                assert(links@ =~= old_links.update(u as int, links@[u as int]));
                assert(forall|x: int| 0 <= x < links@.len() && x != u ==> links@[x] == old_links[x]);
                assert(corner_link(triangles@, ti as int, k as int) == (v, w));
                assert forall|x: int, j: int|
                    0 <= x < links@.len() && 0 <= j < links@[x]@.len() implies opposite_at(
                    triangles@,
                    x,
                    #[trigger] links@[x]@[j],
                ) by {
                    if x == u && j == old_links[x]@.len() {
                        assert(triangles@[ti as int][k as int] == x);
                    } else {
                        assert(links@[x]@[j] == old_links[x]@[j]);
                    }
                }
                assert forall|t: int, c: int|
                    0 <= t < triangles@.len() && 0 <= c < 3 && before(t, c, ti as int, k + 1) implies recorded(
                    links@,
                    triangles@[t][c] as int,
                    #[trigger] corner_link(triangles@, t, c),
                ) by {
                    if t == ti && c == k {
                        assert(links@[u as int]@[old_links[u as int]@.len() as int] == (v, w));
                    } else {
                        assert(before(t, c, ti as int, k as int));
                        let x = triangles@[t][c] as int;
                        assert(0 <= x < links@.len());
                        assert(recorded(old_links, x, corner_link(triangles@, t, c)));
                        let j = choose|j: int|
                            0 <= j < old_links[x]@.len() && old_links[x]@[j] == corner_link(
                                triangles@,
                                t,
                                c,
                            );
                        if x == u {
                            assert(links@[x]@[j] == old_links[x]@[j]);
                        } else {
                            assert(links@[x] == old_links[x]);
                        }
                        assert(links@[x]@[j] == corner_link(triangles@, t, c));
                    }
                }
                assert(links_sound(triangles@, links@));
                assert(links_complete(triangles@, links@, ti as int, k + 1));
            }
            k += 1;
        }
        if !geometry[ti].volume_finite {
            proof {
                assert(!geometry@[ti as int].volume_finite);
            }
            return Err(Error::NonFinite);
        }
        proof {
            assert forall|key: u64, idx: int|
                edges@.contains_key(key) && 0 <= idx < edges@[key]@.len() implies #[trigger] entry_owned(
                triangles@,
                slot,
                key,
                idx,
                ti + 1,
                0,
            ) by {
                assert(entry_owned(triangles@, slot, key, idx, ti as int, 3));
                let (t0, k0) = choose|t0: int, k0: int|
                    0 <= t0 < triangles@.len() && 0 <= k0 < 3 && before(t0, k0, ti as int, 3) && edge_key(
                        directed_edge(triangles@, t0, k0),
                    ) == key && slot.contains_key((t0, k0)) && slot[(t0, k0)] == idx;
                assert(before(t0, k0, ti + 1, 0));
            }
            assert forall|t: int, c: int|
                0 <= t < triangles@.len() && 0 <= c < 3 && before(t, c, ti + 1, 0) implies recorded(
                links@,
                triangles@[t][c] as int,
                #[trigger] corner_link(triangles@, t, c),
            ) by {
                assert(before(t, c, ti as int, 3));
            }
            let next = triangles@.take(ti + 1);
            let prev = triangles@.take(ti as int);
            assert(next =~= prev.push(tri));
            assert forall|j: int| 0 <= j < vertex_count implies ((#[trigger] links@[j])@.len() > 0
                <==> used(next, j)) by {
                if used(prev, j) {
                    let (t, c) = choose|t: int, c: int|
                        0 <= t < prev.len() && 0 <= c < 3 && prev[t][c] == j;
                    assert(next[t][c] == j);
                }
                if used(next, j) {
                    let (t, c) = choose|t: int, c: int|
                        0 <= t < next.len() && 0 <= c < 3 && next[t][c] == j;
                    if t < ti {
                        assert(prev[t][c] == j);
                    } else {
                        assert(tri[c] == j);
                    }
                }
                if exists|c: int| 0 <= c < 3 && tri[c] == j {
                    let c = choose|c: int| 0 <= c < 3 && tri[c] == j;
                    assert(next[ti as int][c] == j);
                }
            }
            assert forall|s: int, t: int|
                0 <= s < t < ti + 1 implies sorted_corners(#[trigger] triangles@[s]) != sorted_corners(
                #[trigger] triangles@[t],
            ) by {
                if t == ti {
                    if sorted_corners(triangles@[s]) == sorted_corners(triangles@[t]) {
                        assert(unique@.contains(corner_key(triangles@[s])));
                    }
                }
            }
        }
        ti += 1;
    }
    proof {
        assert(triangles@.take(ti as int) =~= triangles@);
    }
    Ok((edges, links, Ghost(slot)))
}

/// The list of `key` holds exactly two uses, by triangles `a` and `b`.
spec fn pair_key(edges: Map<u64, Vec<(usize, bool)>>, key: u64, a: int, b: int) -> bool {
    &&& edges.contains_key(key)
    &&& edges[key]@.len() == 2
    &&& ((edges[key]@[0].0 == a && edges[key]@[1].0 == b) || (edges[key]@[1].0 == a && edges[key]@[0].0 == b))
}

/// Some edge list pairs triangles `a` and `b`.
spec fn paired(edges: Map<u64, Vec<(usize, bool)>>, a: int, b: int) -> bool {
    exists|key: u64| #[trigger] pair_key(edges, key, a, b)
}

/// Appends a corner's use of an undirected edge.
fn append_edge(edges: &mut BTreeMap<u64, Vec<(usize, bool)>>, key: u64, x: (usize, bool))
    ensures
        final(edges)@.dom() == old(edges)@.dom().insert(key),
        forall|k: u64| k != key && #[trigger] old(edges)@.contains_key(k) ==> final(edges)@[k] == old(edges)@[k],
        final(edges)@[key]@ == (if old(edges)@.contains_key(key) {
            old(edges)@[key]@
        } else {
            Seq::empty()
        }).push(x),
{
    let mut list = match edges.remove(&key) {
        Some(v) => v,
        None => Vec::new(),
    };
    list.push(x);
    edges.insert(key, list);
    proof {
        assert(final(edges)@.dom() =~= old(edges)@.dom().insert(key));
    }
}


/// Each undirected edge is used by one triangle (a boundary edge) or by two
/// with opposite directions; the triangles sharing edges, and the number of
/// boundary edges.
fn edge_pass(
    triangle_count: usize,
    edges: &BTreeMap<u64, Vec<(usize, bool)>>,
    budget: &mut Budget,
) -> (r: Result<(Vec<Vec<usize>>, usize), Error>)
    requires
        forall|k: u64|
            #[trigger] edges@.contains_key(k) ==> forall|j: int|
                0 <= j < edges@[k]@.len() ==> (#[trigger] edges@[k]@[j]).0 < triangle_count,
    ensures
        r matches Ok((adjacency, _)) ==> adjacency@.len() == triangle_count && forall|t: int, j: int|
            0 <= t < triangle_count && 0 <= j < adjacency@[t]@.len() ==> (#[trigger] adjacency@[t]@[j])
                < triangle_count,
        r is Ok ==> forall|k: u64| #[trigger] edges@.contains_key(k) ==> edge_uses_ok(edges@[k]@),
        r matches Ok((_, boundary)) ==> (boundary == 0 <==> forall|k: u64|
            #[trigger] edges@.contains_key(k) ==> edges@[k]@.len() != 1),
        r matches Ok((adjacency, _)) ==> forall|a: int, j: int|
            0 <= a < adjacency@.len() && 0 <= j < adjacency@[a]@.len() ==> paired(
                edges@,
                a,
                #[trigger] adjacency@[a]@[j] as int,
            ),
        r matches Ok((adjacency, _)) ==> forall|k: u64|
            #[trigger] edges@.contains_key(k) && edges@[k]@.len() == 2 ==> adjacency@[edges@[k]@[0].0 as int]@.contains(
                edges@[k]@[1].0,
            ) && adjacency@[edges@[k]@[1].0 as int]@.contains(edges@[k]@[0].0),
        r matches Err(e) ==> e == Error::ResourceLimit || exists|k: u64|
            #[trigger] edges@.contains_key(k) && !edge_uses_ok(edges@[k]@),
        r matches Err(e) ==> e == Error::ResourceLimit ==> final(budget).0 == 0,
        r matches Err(e) ==> e == Error::ResourceLimit ==> old(budget).0 < edges@.dom().len(),
        r matches Ok((adjacency, _)) ==> forall|t: int|
            0 <= t < adjacency@.len() ==> (#[trigger] adjacency@[t])@.len() <= 2 * edges@.dom().len(),
        r is Ok ==> final(budget).0 == old(budget).0 - edges@.dom().len(),
{
    let ghost start = budget.0;
    let mut adjacency: Vec<Vec<usize>> = Vec::new();
    let mut t: usize = 0;
    while t < triangle_count
        invariant
            t <= triangle_count,
            adjacency@.len() == t,
            forall|a: int, j: int| 0 <= a < t && 0 <= j < adjacency@[a]@.len() ==> (#[trigger] adjacency@[a]@[j]) < triangle_count,
            forall|a: int| 0 <= a < t ==> (#[trigger] adjacency@[a])@.len() == 0,
        decreases triangle_count - t,
    {
        adjacency.push(Vec::new());
        t += 1;
    }
    let mut boundary: usize = 0;
    let ghost mut visited: Set<u64> = Set::empty();
    for (key, uses) in iter: edges.iter()
        invariant
            adjacency@.len() == triangle_count,
            forall|a: int, j: int|
                0 <= a < triangle_count && 0 <= j < adjacency@[a]@.len() ==> (#[trigger] adjacency@[a]@[j])
                    < triangle_count,
            forall|k: u64|
                #[trigger] edges@.contains_key(k) ==> forall|j: int|
                    0 <= j < edges@[k]@.len() ==> (#[trigger] edges@[k]@[j]).0 < triangle_count,
            boundary + budget.0 <= start,
            budget.0 + iter.index() == start,
            forall|t: int| 0 <= t < adjacency@.len() ==> (#[trigger] adjacency@[t])@.len() <= 2 * iter.index(),
            start == old(budget).0,
            iter.seq().len() == edges@.dom().len(),
            forall|k: u64| #[trigger] visited.contains(k) ==> edges@.contains_key(k) && edge_uses_ok(edges@[k]@),
            boundary == 0 <==> forall|k: u64| #[trigger] visited.contains(k) ==> edges@[k]@.len() != 1,
            forall|a: int, j: int|
                0 <= a < adjacency@.len() && 0 <= j < adjacency@[a]@.len() ==> paired(
                    edges@,
                    a,
                    #[trigger] adjacency@[a]@[j] as int,
                ),
            forall|k: u64|
                #[trigger] visited.contains(k) && edges@[k]@.len() == 2 ==> adjacency@[edges@[k]@[0].0 as int]@.contains(
                    edges@[k]@[1].0,
                ) && adjacency@[edges@[k]@[1].0 as int]@.contains(edges@[k]@[0].0),
            forall|k: u64|
                #[trigger] edges@.contains_key(k) && !visited.contains(k) ==> exists|n: int|
                    iter.index() <= n < iter.seq().len() && *(#[trigger] iter.seq()[n]).0 == k,
    {
        proof {
            assert(edges@.contains_key(*key));
            assert(iter.seq()[iter.index() as int] == (key, uses));
        }
        budget.charge(1)?;
        if uses.len() == 1 {
            boundary += 1;
        } else if uses.len() == 2 {
            let (a, da) = uses[0];
            let (b, db) = uses[1];
            if da == db {
                proof {
                    assert(*uses == edges@[*key]);
                    assert(!edge_uses_ok(edges@[*key]@));
                }
                return Err(Error::InconsistentWinding);
            }
            let ghost adj0 = adjacency@;
            let mut list: Vec<usize> = Vec::new();
            std::mem::swap(&mut list, &mut adjacency[a]);
            list.push(b);
            adjacency.set(a, list);
            let ghost adj1 = adjacency@;
            let mut list: Vec<usize> = Vec::new();
            std::mem::swap(&mut list, &mut adjacency[b]);
            list.push(a);
            adjacency.set(b, list);
            proof {
                assert forall|x: int| 0 <= x < adjacency@.len() implies (#[trigger] adjacency@[x])@.len() <= 2
                    * iter.index() + 2 by {
                    assert(adj0[x]@.len() <= 2 * iter.index());
                }
            }
            proof {
                assert(*uses == edges@[*key]);
                assert(pair_key(edges@, *key, a as int, b as int));
                assert(pair_key(edges@, *key, b as int, a as int));
                assert(adj1[a as int]@ == adj0[a as int]@.push(b));
                assert(adjacency@[b as int]@ == adj1[b as int]@.push(a));
                assert forall|x: int, j: int|
                    0 <= x < adjacency@.len() && 0 <= j < adjacency@[x]@.len() implies paired(
                    edges@,
                    x,
                    #[trigger] adjacency@[x]@[j] as int,
                ) by {
                    if x == b && j == adjacency@[x]@.len() - 1 {
                    } else {
                        let jj = j;
                        assert(adjacency@[x]@[j] == adj1[x]@[jj]);
                        if x == a && jj == adj1[x]@.len() - 1 {
                        } else {
                            assert(adj1[x]@[jj] == adj0[x]@[jj]);
                        }
                    }
                }
                assert forall|x: int, y: usize| adj0[x]@.contains(y) && 0 <= x < adj0.len() implies adjacency@[x]@.contains(y) by {
                    let m = choose|m: int| 0 <= m < adj0[x]@.len() && adj0[x]@[m] == y;
                    assert(adj1[x]@[m] == y);
                    assert(adjacency@[x]@[m] == y);
                }
                assert(adjacency@[a as int]@.contains(b)) by {
                    assert(adj1[a as int]@[adj0[a as int]@.len() as int] == b);
                    if a == b {
                        assert(adjacency@[a as int]@[adj0[a as int]@.len() as int] == b);
                    } else {
                        assert(adjacency@[a as int] == adj1[a as int]);
                    }
                }
                assert(adjacency@[b as int]@.contains(a)) by {
                    assert(adjacency@[b as int]@[adj1[b as int]@.len() as int] == a);
                }
            }
        } else {
            proof {
                assert(*uses == edges@[*key]);
                assert(!edge_uses_ok(edges@[*key]@));
            }
            return Err(Error::NonManifoldEdge);
        }
        proof {
            let old_visited = visited;
            visited = visited.insert(*key);
            assert(*uses == edges@[*key]);
            assert forall|k: u64|
                #[trigger] visited.contains(k) && edges@[k]@.len() == 2 implies adjacency@[edges@[k]@[0].0 as int]@.contains(
                edges@[k]@[1].0,
            ) && adjacency@[edges@[k]@[1].0 as int]@.contains(edges@[k]@[0].0) by {
                if k != *key {
                    assert(old_visited.contains(k));
                }
            }
            if uses@.len() == 1 {
                assert(visited.contains(*key) && edges@[*key]@.len() == 1);
            } else {
                if old_visited.contains(*key) {
                    assert(visited == old_visited);
                }
                assert((forall|k: u64| #[trigger] visited.contains(k) ==> edges@[k]@.len() != 1) == (forall|k: u64|
                    #[trigger] old_visited.contains(k) ==> edges@[k]@.len() != 1)) by {
                    if forall|k: u64| #[trigger] old_visited.contains(k) ==> edges@[k]@.len() != 1 {
                        assert forall|k: u64| #[trigger] visited.contains(k) implies edges@[k]@.len() != 1 by {
                            if k != *key {
                                assert(old_visited.contains(k));
                            }
                        }
                    }
                }
            }
        }
    }
    proof {
        assert forall|k: u64| #[trigger] edges@.contains_key(k) implies edge_uses_ok(edges@[k]@) by {
            assert(visited.contains(k));
        }
        assert forall|k: u64|
            #[trigger] edges@.contains_key(k) && edges@[k]@.len() == 2 implies adjacency@[edges@[k]@[0].0 as int]@.contains(
            edges@[k]@[1].0,
        ) && adjacency@[edges@[k]@[1].0 as int]@.contains(edges@[k]@[0].0) by {
            assert(visited.contains(k));
        }
        if boundary == 0 {
            assert forall|k: u64| #[trigger] edges@.contains_key(k) implies edges@[k]@.len() != 1 by {
                assert(visited.contains(k));
            }
        } else {
            let k = choose|k: u64| #[trigger] visited.contains(k) && edges@[k]@.len() == 1;
            assert(edges@.contains_key(k));
        }
    }
    Ok((adjacency, boundary))
}

/// Records `b` as a neighbour of `a` in a vertex link.
fn add_neighbor(graph: &mut BTreeMap<u32, Vec<u32>>, a: u32, b: u32)
    ensures
        final(graph)@.dom() == old(graph)@.dom().insert(a),
        forall|k: u32| k != a && #[trigger] old(graph)@.contains_key(k) ==> final(graph)@[k] == old(graph)@[k],
        final(graph)@[a]@ == (if old(graph)@.contains_key(a) {
            old(graph)@[a]@
        } else {
            Seq::empty()
        }).push(b),
{
    let mut list = match graph.remove(&a) {
        Some(v) => v,
        None => Vec::new(),
    };
    list.push(b);
    graph.insert(a, list);
    proof {
        assert(final(graph)@.dom() =~= old(graph)@.dom().insert(a));
    }
}

/// Every neighbour recorded in a link graph is itself a node of it.
spec fn closed_graph(graph: Map<u32, Vec<u32>>) -> bool {
    forall|k: u32|
        #[trigger] graph.contains_key(k) ==> forall|j: int|
            0 <= j < graph[k]@.len() ==> graph.contains_key(#[trigger] graph[k]@[j])
}

/// Some pair of the link joins `x` and `y`.
spec fn link_step(link: Seq<(u32, u32)>, x: u32, y: u32) -> bool {
    exists|j: int| 0 <= j < link.len() && (link[j] == (x, y) || link[j] == (y, x))
}

spec fn step_at(link: Seq<(u32, u32)>, p: Seq<u32>, i: int) -> bool {
    link_step(link, p[i], p[i + 1])
}

/// `p` is a walk along the pairs of the link.
spec fn link_walk(link: Seq<(u32, u32)>, p: Seq<u32>) -> bool {
    p.len() >= 1 && forall|i: int| 0 <= i < p.len() - 1 ==> #[trigger] step_at(link, p, i)
}

/// A walk along the link leads from `x` to `y`.
spec fn joined(link: Seq<(u32, u32)>, x: u32, y: u32) -> bool {
    exists|p: Seq<u32>| #[trigger] link_walk(link, p) && p[0] == x && p.last() == y
}

/// `x` is an end of some pair of the link.
spec fn link_node(link: Seq<(u32, u32)>, x: u32) -> bool {
    exists|j: int| 0 <= j < link.len() && (link[j].0 == x || link[j].1 == x)
}

/// Any two vertices of the link are joined by a walk along it.
spec fn link_connected(link: Seq<(u32, u32)>) -> bool {
    forall|x: u32, y: u32| link_node(link, x) && link_node(link, y) ==> #[trigger] joined(link, x, y)
}

proof fn lemma_joined_refl(link: Seq<(u32, u32)>, x: u32)
    ensures
        joined(link, x, x),
{
    assert(link_walk(link, seq![x]));
}

proof fn lemma_joined_step(link: Seq<(u32, u32)>, x: u32, y: u32, z: u32)
    requires
        joined(link, x, y),
        link_step(link, y, z),
    ensures
        joined(link, x, z),
{
    let p = choose|p: Seq<u32>| #[trigger] link_walk(link, p) && p[0] == x && p.last() == y;
    let q = p.push(z);
    assert forall|i: int| 0 <= i < q.len() - 1 implies #[trigger] step_at(link, q, i) by {
        if i < p.len() - 1 {
            assert(step_at(link, p, i));
        }
    }
    assert(link_walk(link, q));
}

proof fn lemma_joined_symmetric(link: Seq<(u32, u32)>, x: u32, y: u32)
    requires
        joined(link, x, y),
    ensures
        joined(link, y, x),
{
    let p = choose|p: Seq<u32>| #[trigger] link_walk(link, p) && p[0] == x && p.last() == y;
    let q = p.reverse();
    assert forall|i: int| 0 <= i < q.len() - 1 implies #[trigger] step_at(link, q, i) by {
        let m = p.len() - 2 - i;
        assert(step_at(link, p, m));
        let j = choose|j: int|
            0 <= j < link.len() && (link[j] == (p[m], p[m + 1]) || link[j] == (p[m + 1], p[m]));
        assert(q[i] == p[m + 1] && q[i + 1] == p[m]);
        assert(link[j] == (q[i], q[i + 1]) || link[j] == (q[i + 1], q[i]));
    }
    assert(link_walk(link, q));
}

proof fn lemma_joined_trans(link: Seq<(u32, u32)>, x: u32, y: u32, z: u32)
    requires
        joined(link, x, y),
        joined(link, y, z),
    ensures
        joined(link, x, z),
{
    let p = choose|p: Seq<u32>| #[trigger] link_walk(link, p) && p[0] == x && p.last() == y;
    let q = choose|q: Seq<u32>| #[trigger] link_walk(link, q) && q[0] == y && q.last() == z;
    let r = p + q.drop_first();
    assert forall|i: int| 0 <= i < r.len() - 1 implies #[trigger] step_at(link, r, i) by {
        if i < p.len() - 1 {
            assert(step_at(link, p, i));
        } else {
            let m = i - p.len() + 1;
            assert(step_at(link, q, m));
            assert(r[i] == q[m] && r[i + 1] == q[m + 1]);
        }
    }
    assert(link_walk(link, r));
}

/// A walk along the recorded link of `v` is a chain of triangles around `v`.
proof fn lemma_fan_walk(triangles: Seq<[u32; 3]>, links: Seq<Vec<(u32, u32)>>, v: int, p: Seq<u32>)
    requires
        0 <= v < links.len(),
        links_sound(triangles, links),
        link_walk(links[v]@, p),
    ensures
        fan_walk(triangles, v, p),
{
    assert forall|i: int| 0 <= i < p.len() - 1 implies #[trigger] fan_step_at(triangles, v, p, i) by {
        assert(step_at(links[v]@, p, i));
        let j = choose|j: int|
            0 <= j < links[v]@.len() && (links[v]@[j] == (p[i], p[i + 1]) || links[v]@[j] == (
            p[i + 1],
            p[i],
        ));
        assert(opposite_at(triangles, v, links[v]@[j]));
    }
}

/// A vertex that shares a triangle with `v` is a node of the recorded link of `v`.
proof fn lemma_around_node(triangles: Seq<[u32; 3]>, links: Seq<Vec<(u32, u32)>>, v: int, x: u32)
    requires
        0 <= v < links.len(),
        links_complete(triangles, links, triangles.len() as int, 0),
        around(triangles, v, x),
    ensures
        link_node(links[v]@, x),
{
    let y = choose|y: u32| fan_step(triangles, v, x, y);
    let pair = if opposite_at(triangles, v, (x, y)) {
        (x, y)
    } else {
        (y, x)
    };
    let (t, k) = choose|t: int, k: int|
        0 <= t < triangles.len() && 0 <= k < 3 && triangles[t][k] == v && corner_link(triangles, t, k)
            == pair;
    assert(before(t, k, triangles.len() as int, 0));
    assert(recorded(links, triangles[t][k] as int, corner_link(triangles, t, k)));
    let j = choose|j: int| 0 <= j < links[v]@.len() && links[v]@[j] == pair;
    assert(links[v]@[j].0 == x || links[v]@[j].1 == x);
}

/// The link of one vertex (the far edges of the triangles around it) must form
/// a single path or a single cycle.
fn check_link(link: &Vec<(u32, u32)>, budget: &mut Budget) -> (r: Result<(), Error>)
    requires
        link@.len() > 0,
    ensures
        r matches Err(e) ==> e == Error::NonManifoldVertex || e == Error::ResourceLimit,
        r is Ok ==> link_connected(link@),
        final(budget).0 <= old(budget).0,
        r is Ok ==> old(budget).0 <= final(budget).0 + 5 * link@.len() + 1,
        r matches Err(e) ==> e == Error::ResourceLimit ==> old(budget).0 < 5 * link@.len() + 1,
{
    let ghost start = budget.0;
    let mut graph: BTreeMap<u32, Vec<u32>> = BTreeMap::new();
    let mut first: u32 = link[0].0;
    let mut i: usize = 0;
    while i < link.len()
        invariant
            i <= link@.len(),
            link@.len() > 0,
            start == old(budget).0,
            budget.0 + i == start,
            graph@.dom().finite(),
            graph@.dom().len() <= 2 * i,
            closed_graph(graph@),
            graph@.contains_key(first) || i == 0 && first == link@[0].0,
            forall|a: u32|
                #[trigger] graph@.contains_key(a) ==> forall|n: int|
                    0 <= n < graph@[a]@.len() ==> link_step(link@, a, #[trigger] graph@[a]@[n]),
            forall|j: int|
                0 <= j < i ==> graph@.contains_key((#[trigger] link@[j]).0) && graph@.contains_key(
                    link@[j].1,
                ),
        decreases link@.len() - i,
    {
        budget.charge(1)?;
        let (a, b) = link[i];
        let ghost g0 = graph@;
        add_neighbor(&mut graph, a, b);
        let ghost g1 = graph@;
        add_neighbor(&mut graph, b, a);
        proof {
            assert forall|k: u32| #[trigger] graph@.contains_key(k) implies forall|j: int|
                0 <= j < graph@[k]@.len() ==> graph@.contains_key(#[trigger] graph@[k]@[j]) by {
                assert forall|j: int| 0 <= j < graph@[k]@.len() implies graph@.contains_key(
                    #[trigger] graph@[k]@[j],
                ) by {
                    if k != a && k != b {
                        assert(g0[k] == graph@[k]);
                    } else if k == b {
                        if j < graph@[k]@.len() - 1 {
                            if k != a {
                                if g0.contains_key(k) {
                                    assert(g1[k] == g0[k]);
                                }
                            }
                        }
                    } else {
                        if j < g1[k]@.len() - 1 {
                            assert(g0.contains_key(k));
                        }
                    }
                }
            }
            assert forall|x: u32| #[trigger] graph@.contains_key(x) implies forall|n: int|
                0 <= n < graph@[x]@.len() ==> link_step(link@, x, #[trigger] graph@[x]@[n]) by {
                assert forall|n: int| 0 <= n < graph@[x]@.len() implies link_step(
                    link@,
                    x,
                    #[trigger] graph@[x]@[n],
                ) by {
                    assert(link@[i as int] == (a, b));
                    if x != a && x != b {
                        assert(g0[x] == graph@[x]);
                    } else if x == b {
                        if n < graph@[x]@.len() - 1 {
                            if x != a {
                                assert(g1[x] == g0[x]);
                            } else {
                                assert(g1[x]@[n] == graph@[x]@[n]);
                                if n < g1[x]@.len() - 1 {
                                    assert(g0[x]@[n] == graph@[x]@[n]);
                                }
                            }
                        }
                    } else {
                        if n < g1[x]@.len() - 1 {
                            assert(g0[x]@[n] == graph@[x]@[n]);
                        }
                    }
                }
            }
        }
        if a < first {
            first = a;
        }
        if b < first {
            first = b;
        }
        i += 1;
    }
    let mut ends: usize = 0;
    let mut branching = false;
    let ghost mut checked: Set<u32> = Set::empty();
    for (key, neighbors) in iter: graph.iter()
        invariant
            ends <= 3,
            !branching ==> forall|k: u32| #[trigger] checked.contains(k) ==> graph@[k]@.len() <= 2,
            forall|k: u32|
                #[trigger] graph@.contains_key(k) && !checked.contains(k) ==> exists|n: int|
                    iter.index() <= n < iter.seq().len() && *(#[trigger] iter.seq()[n]).0 == k,
    {
        proof {
            assert(iter.seq()[iter.index() as int] == (key, neighbors));
            assert(graph@.contains_key(*key) && graph@[*key] == *neighbors);
            let old_checked = checked;
            checked = checked.insert(*key);
            assert forall|k: u32|
                #[trigger] graph@.contains_key(k) && !checked.contains(k) implies exists|n: int|
                    iter.index() + 1 <= n < iter.seq().len() && *(#[trigger] iter.seq()[n]).0 == k by {
                assert(!old_checked.contains(k));
                let n = choose|n: int| iter.index() <= n < iter.seq().len() && *(#[trigger] iter.seq()[n]).0 == k;
                assert(n != iter.index());
            }
        }
        if neighbors.len() == 1 && ends < 3 {
            ends += 1;
        }
        if neighbors.len() > 2 {
            branching = true;
        }
    }
    if (ends != 0 && ends != 2) || branching {
        return Err(Error::NonManifoldVertex);
    }
    let mut seen: BTreeSet<u32> = BTreeSet::new();
    let mut stack: Vec<u32> = vec![first];
    proof {
        lemma_joined_refl(link@, first);
        assert forall|k: u32| #[trigger] graph@.contains_key(k) implies graph@[k]@.len() <= 2 by {
            assert(checked.contains(k));
        }
    }
    let ghost mut pops: int = 0;
    while stack.len() > 0
        invariant
            start == old(budget).0,
            budget.0 + link@.len() + pops == start,
            0 <= pops,
            pops + stack@.len() <= 1 + 2 * seen@.len(),
            graph@.dom().finite(),
            graph@.dom().len() <= 2 * link@.len(),
            forall|k: u32| #[trigger] graph@.contains_key(k) ==> graph@[k]@.len() <= 2,
            closed_graph(graph@),
            graph@.contains_key(first),
            forall|j: int| 0 <= j < stack@.len() ==> graph@.contains_key(#[trigger] stack@[j]),
            forall|j: int| 0 <= j < stack@.len() ==> joined(link@, first, #[trigger] stack@[j]),
            seen@.subset_of(graph@.dom()),
            forall|x: u32| #[trigger] seen@.contains(x) ==> joined(link@, first, x),
            forall|a: u32|
                #[trigger] graph@.contains_key(a) ==> forall|n: int|
                    0 <= n < graph@[a]@.len() ==> link_step(link@, a, #[trigger] graph@[a]@[n]),
        decreases budget.0,
    {
        let v = stack.pop().unwrap();
        proof {
            vstd::set_lib::lemma_len_subset(seen@, graph@.dom());
        }
        budget.charge(1)?;
        proof {
            pops = pops + 1;
        }
        if !seen.contains(&v) {
            seen.insert(v);
            let neighbors = graph.get(&v).unwrap();
            let ghost base = stack@.len();
            let mut j: usize = 0;
            while j < neighbors.len()
                invariant
                    j <= neighbors@.len(),
                    neighbors@.len() <= 2,
                    stack@.len() == base + j,
                    graph@.contains_key(v),
                    joined(link@, first, v),
                    neighbors@ == graph@[v]@,
                    closed_graph(graph@),
                    forall|x: int| 0 <= x < stack@.len() ==> graph@.contains_key(#[trigger] stack@[x]),
                    forall|x: int| 0 <= x < stack@.len() ==> joined(link@, first, #[trigger] stack@[x]),
                    forall|a: u32|
                        #[trigger] graph@.contains_key(a) ==> forall|n: int|
                            0 <= n < graph@[a]@.len() ==> link_step(link@, a, #[trigger] graph@[a]@[n]),
                decreases neighbors@.len() - j,
            {
                proof {
                    assert(link_step(link@, v, graph@[v]@[j as int]));
                    lemma_joined_step(link@, first, v, neighbors@[j as int]);
                }
                stack.push(neighbors[j]);
                j += 1;
            }
        }
    }
    if seen.len() != graph.len() {
        return Err(Error::NonManifoldVertex);
    }
    proof {
        assert forall|x: u32| #[trigger] graph@.contains_key(x) implies joined(link@, first, x) by {
            if !seen@.contains(x) {
                seen@.lemma_subset_not_in_lt(graph@.dom(), x);
            }
        }
        assert forall|x: u32, y: u32| link_node(link@, x) && link_node(link@, y) implies #[trigger] joined(
            link@,
            x,
            y,
        ) by {
            let jx = choose|j: int| 0 <= j < link@.len() && (link@[j].0 == x || link@[j].1 == x);
            let jy = choose|j: int| 0 <= j < link@.len() && (link@[j].0 == y || link@[j].1 == y);
            assert(graph@.contains_key(link@[jx].0) && graph@.contains_key(link@[jx].1));
            assert(graph@.contains_key(link@[jy].0) && graph@.contains_key(link@[jy].1));
            assert(joined(link@, first, x));
            assert(joined(link@, first, y));
            lemma_joined_symmetric(link@, first, x);
            lemma_joined_trans(link@, x, first, y);
        }
    }
    Ok(())
}

/// Every vertex is used, and the link of each is a single path or cycle.
fn vertex_pass(links: &Vec<Vec<(u32, u32)>>, budget: &mut Budget) -> (r: Result<(), Error>)
    ensures
        r is Ok ==> forall|v: int| 0 <= v < links@.len() ==> (#[trigger] links@[v])@.len() > 0,
        r is Ok ==> forall|v: int| 0 <= v < links@.len() ==> link_connected((#[trigger] links@[v])@),
        r matches Err(e) ==> e == Error::UnusedVertex || e == Error::NonManifoldVertex || e
            == Error::ResourceLimit,
        r == Err::<(), Error>(Error::UnusedVertex) ==> exists|v: int|
            0 <= v < links@.len() && (#[trigger] links@[v])@.len() == 0,
        final(budget).0 <= old(budget).0,
        r is Ok ==> old(budget).0 <= final(budget).0 + 5 * total_len(links@) + links@.len(),
        r matches Err(e) ==> e == Error::ResourceLimit ==> old(budget).0 < 5 * total_len(links@)
            + links@.len(),
{
    let ghost start = budget.0;
    let mut v: usize = 0;
    while v < links.len()
        invariant
            v <= links@.len(),
            start == old(budget).0,
            budget.0 <= start,
            start <= budget.0 + 5 * total_len(links@.take(v as int)) + v,
            forall|u: int| 0 <= u < v ==> (#[trigger] links@[u])@.len() > 0,
            forall|u: int| 0 <= u < v ==> link_connected((#[trigger] links@[u])@),
        decreases links@.len() - v,
    {
        if links[v].len() == 0 {
            return Err(Error::UnusedVertex);
        }
        proof {
            lemma_total_len_take(links@, v as int);
            lemma_total_len_take(links@, v + 1);
        }
        check_link(&links[v], budget)?;
        v += 1;
    }
    proof {
        assert(links@.take(links@.len() as int) =~= links@);
    }
    Ok(())
}

/// `p[i]` is a triangle and `p[i + 1]` one of its neighbours.
spec fn adj_step_at(adj: Seq<Vec<usize>>, p: Seq<int>, i: int) -> bool {
    0 <= p[i] < adj.len() && exists|j: int| 0 <= j < adj[p[i]]@.len() && adj[p[i]]@[j] as int == p[i + 1]
}

/// `p` is a walk along the adjacency lists.
spec fn adj_walk(adj: Seq<Vec<usize>>, p: Seq<int>) -> bool {
    p.len() >= 1 && forall|i: int| 0 <= i < p.len() - 1 ==> #[trigger] adj_step_at(adj, p, i)
}

/// A walk leads from triangle 0 to triangle `x`.
spec fn adj_reached(adj: Seq<Vec<usize>>, x: int) -> bool {
    exists|p: Seq<int>| #[trigger] adj_walk(adj, p) && p[0] == 0 && p.last() == x
}

/// Every neighbour of a marked triangle is marked.
spec fn marks_closed(adj: Seq<Vec<usize>>, seen: Seq<bool>) -> bool {
    forall|x: int, j: int|
        0 <= x < adj.len() && seen[x] && 0 <= j < adj[x]@.len() ==> seen[#[trigger] adj[x]@[j] as int]
}

/// A walk along the adjacency lists leads from `a` to `b`.
spec fn adj_joins(adj: Seq<Vec<usize>>, a: int, b: int) -> bool {
    exists|p: Seq<int>| #[trigger] adj_walk(adj, p) && p[0] == a && p.last() == b
}

/// Some triangle before `k` has a walk to `x`.
spec fn reached_before(adj: Seq<Vec<usize>>, k: int, x: int) -> bool {
    exists|y: int| 0 <= y < k && #[trigger] adj_joins(adj, y, x)
}

/// How many of the first `k` triangles no earlier triangle has a walk to.
spec fn adj_firsts(adj: Seq<Vec<usize>>, k: nat) -> nat
    decreases k,
{
    if k == 0 {
        0
    } else {
        adj_firsts(adj, (k - 1) as nat) + if reached_before(adj, k - 1, k - 1) {
            0nat
        } else {
            1nat
        }
    }
}

/// A walk from `y` extends by any neighbour of its last triangle.
proof fn lemma_reach_extend(adj: Seq<Vec<usize>>, k: int, x: int, j: int)
    requires
        reached_before(adj, k, x),
        0 <= x < adj.len(),
        0 <= j < adj[x]@.len(),
    ensures
        reached_before(adj, k, adj[x]@[j] as int),
{
    let y = choose|y: int| 0 <= y < k && #[trigger] adj_joins(adj, y, x);
    let p = choose|p: Seq<int>| #[trigger] adj_walk(adj, p) && p[0] == y && p.last() == x;
    let q = p.push(adj[x]@[j] as int);
    assert forall|i: int| 0 <= i < q.len() - 1 implies #[trigger] adj_step_at(adj, q, i) by {
        if i < p.len() - 1 {
            assert(adj_step_at(adj, p, i));
            let m = choose|m: int| 0 <= m < adj[p[i]]@.len() && adj[p[i]]@[m] as int == p[i + 1];
            assert(adj[q[i]]@[m] as int == q[i + 1]);
        } else {
            assert(adj[q[i]]@[j] as int == q[i + 1]);
        }
    }
    assert(adj_walk(adj, q));
    assert(adj_joins(adj, y, adj[x]@[j] as int));
}

/// Where every neighbour of a marked triangle is marked and every triangle
/// before `k` is marked, whatever a triangle before `k` has a walk to is marked.
proof fn lemma_reached_marked(adj: Seq<Vec<usize>>, seen: Seq<bool>, k: int, x: int)
    requires
        reached_before(adj, k, x),
        seen.len() == adj.len(),
        0 <= k <= adj.len(),
        forall|y: int| 0 <= y < k ==> #[trigger] seen[y],
        marks_closed(adj, seen),
        forall|a: int, j: int|
            0 <= a < adj.len() && 0 <= j < adj[a]@.len() ==> (#[trigger] adj[a]@[j]) < adj.len(),
    ensures
        0 <= x < seen.len() && seen[x],
{
    let y = choose|y: int| 0 <= y < k && #[trigger] adj_joins(adj, y, x);
    let p = choose|p: Seq<int>| #[trigger] adj_walk(adj, p) && p[0] == y && p.last() == x;
    assert(seen[y]);
    lemma_marks_reach(adj, seen, p);
}

proof fn lemma_adj_step(adj: Seq<Vec<usize>>, x: int, j: int)
    requires
        adj_reached(adj, x),
        0 <= x < adj.len(),
        0 <= j < adj[x]@.len(),
    ensures
        adj_reached(adj, adj[x]@[j] as int),
{
    let p = choose|p: Seq<int>| #[trigger] adj_walk(adj, p) && p[0] == 0 && p.last() == x;
    let q = p.push(adj[x]@[j] as int);
    assert forall|i: int| 0 <= i < q.len() - 1 implies #[trigger] adj_step_at(adj, q, i) by {
        if i < p.len() - 1 {
            assert(adj_step_at(adj, p, i));
            let m = choose|m: int| 0 <= m < adj[p[i]]@.len() && adj[p[i]]@[m] as int == p[i + 1];
            assert(adj[q[i]]@[m] as int == q[i + 1]);
        } else {
            assert(adj[q[i]]@[j] as int == q[i + 1]);
        }
    }
    assert(adj_walk(adj, q));
}

/// Marks closed under adjacency that hold triangle 0 hold every triangle reached
/// from it.
proof fn lemma_marks_reach(adj: Seq<Vec<usize>>, seen: Seq<bool>, p: Seq<int>)
    requires
        adj_walk(adj, p),
        0 <= p[0] < seen.len(),
        seen.len() == adj.len(),
        seen[p[0]],
        marks_closed(adj, seen),
        forall|x: int, j: int|
            0 <= x < adj.len() && 0 <= j < adj[x]@.len() ==> (#[trigger] adj[x]@[j]) < adj.len(),
    ensures
        0 <= p.last() < seen.len() && seen[p.last()],
    decreases p.len(),
{
    if p.len() > 1 {
        let q = p.drop_last();
        assert forall|i: int| 0 <= i < q.len() - 1 implies #[trigger] adj_step_at(adj, q, i) by {
            assert(adj_step_at(adj, p, i));
            let m = choose|m: int| 0 <= m < adj[p[i]]@.len() && adj[p[i]]@[m] as int == p[i + 1];
            assert(adj[q[i]]@[m] as int == q[i + 1]);
        }
        lemma_marks_reach(adj, seen, q);
        let i = p.len() - 2;
        assert(adj_step_at(adj, p, i));
        let m = choose|m: int| 0 <= m < adj[p[i]]@.len() && adj[p[i]]@[m] as int == p[i + 1];
        assert(seen[adj[p[i]]@[m] as int]);
    }
}

/// A walk along adjacency lists whose entries share edges is a chain of triangles.
proof fn lemma_walk_chain(triangles: Seq<[u32; 3]>, adj: Seq<Vec<usize>>, p: Seq<int>)
    requires
        adj.len() == triangles.len(),
        adj_walk(adj, p),
        forall|a: int, j: int|
            0 <= a < adj.len() && 0 <= j < adj[a]@.len() ==> (#[trigger] adj[a]@[j]) < adj.len() && share_edge(
                triangles,
                a,
                adj[a]@[j] as int,
            ),
    ensures
        triangle_chain(triangles, p),
{
    assert forall|i: int| 0 <= i < p.len() - 1 implies #[trigger] triangle_step_at(triangles, p, i) by {
        assert(adj_step_at(adj, p, i));
        let m = choose|m: int| 0 <= m < adj[p[i]]@.len() && adj[p[i]]@[m] as int == p[i + 1];
        assert(share_edge(triangles, p[i], adj[p[i]]@[m] as int));
    }
}

/// A chain of triangles is a walk along adjacency lists that hold every
/// triangle sharing an edge.
proof fn lemma_chain_walk(triangles: Seq<[u32; 3]>, adj: Seq<Vec<usize>>, p: Seq<int>)
    requires
        adj.len() == triangles.len(),
        adj.len() <= usize::MAX,
        triangle_chain(triangles, p),
        forall|a: int, b: int|
            0 <= a < adj.len() && 0 <= b < adj.len() && #[trigger] share_edge(triangles, a, b) ==> adj[a]@.contains(
                b as usize,
            ),
    ensures
        adj_walk(adj, p),
{
    assert forall|i: int| 0 <= i < p.len() - 1 implies #[trigger] adj_step_at(adj, p, i) by {
        assert(triangle_step_at(triangles, p, i));
        assert(adj[p[i]]@.contains(p[i + 1] as usize));
        let m = choose|m: int| 0 <= m < adj[p[i]]@.len() && adj[p[i]]@[m] == p[i + 1] as usize;
        assert(adj[p[i]]@[m] as int == p[i + 1]);
    }
}

/// The number of connected components of the triangle adjacency graph: one
/// exactly when every triangle is reached from triangle 0.
fn count_components(adjacency: &Vec<Vec<usize>>, budget: &mut Budget, Ghost(d): Ghost<nat>) -> (r: Result<
    usize,
    Error,
>)
    requires
        forall|t: int, j: int|
            0 <= t < adjacency@.len() && 0 <= j < adjacency@[t]@.len() ==> (#[trigger] adjacency@[t]@[j])
                < adjacency@.len(),
        forall|t: int| 0 <= t < adjacency@.len() ==> (#[trigger] adjacency@[t])@.len() <= d,
    ensures
        r matches Err(e) ==> e == Error::ResourceLimit ==> old(budget).0 < adjacency@.len() + d
            * adjacency@.len(),
        r matches Ok(n) ==> adjacency@.len() > 0 ==> 1 <= n <= adjacency@.len(),
        r matches Ok(n) ==> n == adj_firsts(adjacency@, adjacency@.len()),
        r matches Ok(n) ==> adjacency@.len() > 0 ==> (n == 1 <==> forall|x: int|
            0 <= x < adjacency@.len() ==> #[trigger] adj_reached(adjacency@, x)),
        r matches Err(e) ==> e == Error::ResourceLimit,
{
    let nt = adjacency.len();
    let mut seen: Vec<bool> = Vec::new();
    let mut i: usize = 0;
    while i < nt
        invariant
            i <= nt,
            nt == adjacency@.len(),
            seen@.len() == i,
            forall|t: int| 0 <= t < i ==> !(#[trigger] seen@[t]),
            count_true(seen@) == 0,
        decreases nt - i,
    {
        let ghost before = seen@;
        seen.push(false);
        proof {
            assert(seen@.drop_last() =~= before);
        }
        i += 1;
    }
    let ghost start = budget.0;
    let ghost mut pops: int = 0;
    let ghost mut starts: int = 0;
    let mut components: usize = 0;
    let ghost mut split = false;
    let mut i: usize = 0;
    while i < nt
        invariant
            i <= nt,
            nt == adjacency@.len(),
            seen@.len() == nt,
            components <= i,
            start == old(budget).0,
            budget.0 + pops == start,
            0 <= pops,
            0 <= starts <= i,
            pops <= starts + d * count_true(seen@),
            forall|t: int| 0 <= t < adjacency@.len() ==> (#[trigger] adjacency@[t])@.len() <= d,
            i > 0 ==> components >= 1,
            i == 0 ==> forall|t: int| 0 <= t < nt ==> !(#[trigger] seen@[t]),
            forall|t: int, j: int|
                0 <= t < adjacency@.len() && 0 <= j < adjacency@[t]@.len() ==> (#[trigger] adjacency@[t]@[j])
                    < adjacency@.len(),
            i > 0 ==> (components == 1 <==> !split),
            i == 0 ==> !split && components == 0,
            i > 0 ==> marks_closed(adjacency@, seen@) && seen@[0],
            forall|x: int| 0 <= x < i ==> #[trigger] seen@[x],
            split ==> exists|x: int| 0 <= x < nt && !adj_reached(adjacency@, x),
            !split ==> forall|x: int| 0 <= x < nt && #[trigger] seen@[x] ==> adj_reached(adjacency@, x),
            components == adj_firsts(adjacency@, i as nat),
            forall|x: int| 0 <= x < nt && #[trigger] seen@[x] ==> reached_before(adjacency@, i as int, x),
        decreases nt - i,
    {
        proof {
            if seen@[i as int] {
                assert(reached_before(adjacency@, i as int, i as int));
            } else if reached_before(adjacency@, i as int, i as int) {
                lemma_reached_marked(adjacency@, seen@, i as int, i as int);
            }
            assert(adj_firsts(adjacency@, (i + 1) as nat) == adj_firsts(adjacency@, i as nat) + if reached_before(
                adjacency@,
                i as int,
                i as int,
            ) {
                0nat
            } else {
                1nat
            });
            assert forall|x: int| 0 <= x < nt && #[trigger] seen@[x] implies reached_before(
                adjacency@,
                i + 1,
                x,
            ) by {
                let y = choose|y: int| 0 <= y < i && #[trigger] adj_joins(adjacency@, y, x);
            }
        }
        if !seen[i] {
            proof {
                if i > 0 {
                    if adj_reached(adjacency@, i as int) {
                        let p = choose|p: Seq<int>| #[trigger] adj_walk(adjacency@, p) && p[0] == 0 && p.last() == i;
                        lemma_marks_reach(adjacency@, seen@, p);
                    }
                    split = true;
                } else {
                    assert(adj_walk(adjacency@, seq![0int]));
                }
            }
            components += 1;
            proof {
                starts = starts + 1;
            }
            let mut stack: Vec<usize> = vec![i];
            proof {
                assert(adj_walk(adjacency@, seq![i as int]));
                assert(adj_joins(adjacency@, i as int, i as int));
                assert(reached_before(adjacency@, i + 1, i as int));
            }
            while stack.len() > 0
                invariant
                    nt == adjacency@.len(),
                    seen@.len() == nt,
                    i < nt,
                    forall|x: int| 0 <= x < nt && #[trigger] seen@[x] ==> reached_before(adjacency@, i + 1, x),
                    forall|m: int| 0 <= m < stack@.len() ==> reached_before(adjacency@, i + 1, #[trigger] stack@[m] as int),
                    start == old(budget).0,
                    budget.0 + pops == start,
                    0 <= pops,
                    1 <= starts <= i + 1,
                    pops + stack@.len() <= starts + d * count_true(seen@),
                    forall|t: int| 0 <= t < adjacency@.len() ==> (#[trigger] adjacency@[t])@.len() <= d,
                    forall|j: int| 0 <= j < stack@.len() ==> #[trigger] stack@[j] < nt,
                    forall|t: int, j: int|
                        0 <= t < adjacency@.len() && 0 <= j < adjacency@[t]@.len() ==> (
                        #[trigger] adjacency@[t]@[j]) < adjacency@.len(),
                    forall|x: int, j: int|
                        0 <= x < nt && seen@[x] && 0 <= j < adjacency@[x]@.len() ==> seen@[#[trigger] adjacency@[x]@[j] as int]
                            || stack@.contains(adjacency@[x]@[j]),
                    seen@[i as int] || stack@.contains(i),
                    i > 0 ==> seen@[0],
                    forall|x: int| 0 <= x < i ==> #[trigger] seen@[x],
                    split ==> exists|x: int| 0 <= x < nt && !adj_reached(adjacency@, x),
                    !split ==> forall|x: int| 0 <= x < nt && #[trigger] seen@[x] ==> adj_reached(adjacency@, x),
                    !split ==> forall|j: int| 0 <= j < stack@.len() ==> adj_reached(adjacency@, #[trigger] stack@[j] as int),
                    !split ==> i == 0,
                decreases budget.0,
            {
                let ghost old_stack = stack@;
                let t = stack.pop().unwrap();
                let ghost popped = stack@;
                proof {
                    assert(old_stack == popped.push(t));
                    assert(old_stack[old_stack.len() - 1] == t);
                    assert forall|b: usize| old_stack.contains(b) && b != t implies popped.contains(b) by {
                        let m = choose|m: int| 0 <= m < old_stack.len() && old_stack[m] == b;
                        assert(popped[m] == b);
                    }
                    lemma_count_true_le(seen@);
                    let ct = count_true(seen@);
                    assert(d * ct <= d * nt) by (nonlinear_arith)
                        requires
                            ct <= nt,
                    ;
                }
                budget.charge(1)?;
                proof {
                    pops = pops + 1;
                }
                if !seen[t] {
                    let ghost seen0 = seen@;
                    seen.set(t, true);
                    proof {
                        lemma_count_true_set(seen0, t as int);
                        assert(seen@ =~= seen0.update(t as int, true));
                        let c0 = count_true(seen0);
                        assert(d * (c0 + 1) == d * c0 + d) by (nonlinear_arith);
                    }
                    let next = &adjacency[t];
                    let mut j: usize = 0;
                    while j < next.len()
                        invariant
                            j <= next@.len(),
                            next@.len() <= d,
                            pops + popped.len() + d <= starts + d * count_true(seen@),
                            stack@.len() == popped.len() + j,
                            t < nt,
                            nt == adjacency@.len(),
                            next@ == adjacency@[t as int]@,
                            forall|x: int| 0 <= x < stack@.len() ==> #[trigger] stack@[x] < nt,
                            forall|a: int, b: int|
                                0 <= a < adjacency@.len() && 0 <= b < adjacency@[a]@.len() ==> (
                                #[trigger] adjacency@[a]@[b]) < adjacency@.len(),
                            stack@.len() == popped.len() + j,
                            forall|m: int| 0 <= m < popped.len() ==> stack@[m] == popped[m],
                            forall|q: int| 0 <= q < j ==> stack@[popped.len() + q] == #[trigger] next@[q],
                            reached_before(adjacency@, i + 1, t as int),
                            forall|m: int| 0 <= m < stack@.len() ==> reached_before(adjacency@, i + 1, #[trigger] stack@[m] as int),
                        decreases next@.len() - j,
                    {
                        proof {
                            lemma_reach_extend(adjacency@, i + 1, t as int, j as int);
                        }
                        stack.push(next[j]);
                        j += 1;
                    }
                    proof {
                        assert forall|b: usize| popped.contains(b) implies stack@.contains(b) by {
                            let m = choose|m: int| 0 <= m < popped.len() && popped[m] == b;
                            assert(stack@[m] == b);
                        }
                        assert forall|q: int| 0 <= q < next@.len() implies stack@.contains(#[trigger] next@[q]) by {
                            assert(stack@[popped.len() + q] == next@[q]);
                        }
                        assert forall|x: int, jj: int|
                            0 <= x < nt && seen@[x] && 0 <= jj < adjacency@[x]@.len() implies seen@[#[trigger] adjacency@[x]@[jj] as int]
                                || stack@.contains(adjacency@[x]@[jj]) by {
                            let y = adjacency@[x]@[jj];
                            if x == t {
                                assert(next@[jj] == y);
                            } else {
                                assert(seen0[x]);
                                if !seen0[y as int] && y != t {
                                    assert(old_stack.contains(y));
                                    assert(popped.contains(y));
                                }
                            }
                        }
                        if !split {
                            assert(adj_reached(adjacency@, t as int));
                            assert forall|m: int| 0 <= m < stack@.len() implies adj_reached(
                                adjacency@,
                                #[trigger] stack@[m] as int,
                            ) by {
                                if m < popped.len() {
                                    assert(stack@[m] == popped[m]);
                                    assert(old_stack[m] == popped[m]);
                                } else {
                                    let q = m - popped.len();
                                    assert(stack@[m] == next@[q]);
                                    lemma_adj_step(adjacency@, t as int, q);
                                }
                            }
                        }
                        if t == i {
                        } else if !seen0[i as int] {
                            assert(old_stack.contains(i));
                            assert(popped.contains(i));
                        }
                    }
                } else {
                    proof {
                        assert forall|x: int, jj: int|
                            0 <= x < nt && seen@[x] && 0 <= jj < adjacency@[x]@.len() implies seen@[#[trigger] adjacency@[x]@[jj] as int]
                                || stack@.contains(adjacency@[x]@[jj]) by {
                            let y = adjacency@[x]@[jj];
                            if !seen@[y as int] {
                                assert(old_stack.contains(y));
                                assert(popped.contains(y));
                            }
                        }
                        if !seen@[i as int] {
                            assert(old_stack.contains(i));
                            assert(popped.contains(i));
                        }
                        if !split {
                            assert forall|m: int| 0 <= m < stack@.len() implies adj_reached(
                                adjacency@,
                                #[trigger] stack@[m] as int,
                            ) by {
                                assert(old_stack[m] == stack@[m]);
                            }
                        }
                    }
                }
            }
            proof {
                assert(marks_closed(adjacency@, seen@));
            }
        }
        i += 1;
    }
    proof {
        if nt > 0 {
            if components == 1 {
                assert forall|x: int| 0 <= x < adjacency@.len() implies #[trigger] adj_reached(adjacency@, x) by {
                    assert(seen@[x]);
                }
            } else {
                assert(split);
            }
        }
    }
    Ok(components)
}

/// The floating-point verdict on a triangle's corner attributes: all valid,
/// or the first failing corner had a non-finite normal, or an invalid one
/// (not of unit length, or pointing away from the face) or a non-finite
/// texture coordinate.
#[derive(Clone, Copy, Debug, PartialEq, Eq, Structural)]
pub enum Attributes {
    Valid,
    NonFinite,
    Invalid,
}

/// The floating-point verdicts on one triangle: whether its corners span no
/// plane (no unit normal exists), the verdict on its corner attributes, and
/// whether the running signed volume is still finite after it.
#[derive(Clone, Copy, Debug, PartialEq, Eq, Structural)]
pub struct TriangleGeometry {
    pub degenerate: bool,
    pub attributes: Attributes,
    pub volume_finite: bool,
}

/// The number of triangle-attribute entries (normals, texture coordinates and
/// face ids) that a mesh carries.
#[derive(Clone, Copy, Debug, PartialEq, Eq, Structural)]
pub struct AttributeCounts {
    pub normals: usize,
    pub uvs: usize,
    pub face_ids: usize,
}

/// What the two passes leave in the edge table: every corner's use is placed,
/// every entry is owned by a corner, uses of one edge sit at distinct
/// positions, and every list holds one use or two opposite ones.
spec fn edge_table(
    edges: Map<u64, Vec<(usize, bool)>>,
    slot: Map<(int, int), int>,
    triangles: Seq<[u32; 3]>,
) -> bool {
    &&& entries_owned(edges, triangles, slot, triangles.len() as int, 0)
    &&& forall|t: int, k: int| 0 <= t < triangles.len() && 0 <= k < 3 ==> #[trigger] placed(edges, slot, triangles, t, k)
    &&& forall|s: int, i: int, t: int, j: int|
        0 <= s < triangles.len() && 0 <= i < 3 && 0 <= t < triangles.len() && 0 <= j < 3 && before(s, i, t, j)
            && edge_key(#[trigger] directed_edge(triangles, s, i)) == edge_key(#[trigger] directed_edge(triangles, t, j))
            ==> slot[(s, i)] != slot[(t, j)]
    &&& forall|k: u64| #[trigger] edges.contains_key(k) ==> edge_uses_ok(edges[k]@)
}

/// A list with two uses in the same direction, or with more than two uses,
/// shows two corners that start the same directed edge.
proof fn lemma_shared_direction(
    edges: Map<u64, Vec<(usize, bool)>>,
    slot: Map<(int, int), int>,
    triangles: Seq<[u32; 3]>,
    key: u64,
)
    requires
        entries_owned(edges, triangles, slot, triangles.len() as int, 0),
        forall|t: int, k: int| 0 <= t < triangles.len() && 0 <= k < 3 ==> #[trigger] placed(edges, slot, triangles, t, k),
        edges.contains_key(key),
        edges[key]@.len() > 0,
        !edge_uses_ok(edges[key]@),
    ensures
        !oriented_manifold_edges(triangles),
{
    let uses = edges[key]@;
    let n = triangles.len() as int;
    let (a, b): (int, int) = if uses.len() == 2 || uses[0].1 == uses[1].1 {
        (0, 1)
    } else if uses[0].1 == uses[2].1 {
        (0, 2)
    } else {
        (1, 2)
    };
    assert(uses[a].1 == uses[b].1);
    assert(entry_owned(triangles, slot, key, a, n, 0));
    assert(entry_owned(triangles, slot, key, b, n, 0));
    let (s, i) = choose|s: int, i: int|
        0 <= s < n && 0 <= i < 3 && before(s, i, n, 0) && edge_key(directed_edge(triangles, s, i)) == key
            && slot.contains_key((s, i)) && slot[(s, i)] == a;
    let (t, j) = choose|t: int, j: int|
        0 <= t < n && 0 <= j < 3 && before(t, j, n, 0) && edge_key(directed_edge(triangles, t, j)) == key
            && slot.contains_key((t, j)) && slot[(t, j)] == b;
    assert(placed(edges, slot, triangles, s, i));
    assert(placed(edges, slot, triangles, t, j));
    let e = directed_edge(triangles, s, i);
    let f = directed_edge(triangles, t, j);
    lemma_edge_key(e, f);
    assert(uses[a] == (s as usize, e.0 < e.1));
    assert(uses[b] == (t as usize, f.0 < f.1));
    assert(f == e);
    assert(s != t || i != j);
}

proof fn lemma_manifold(
    edges: Map<u64, Vec<(usize, bool)>>,
    slot: Map<(int, int), int>,
    triangles: Seq<[u32; 3]>,
)
    requires
        edge_table(edges, slot, triangles),
    ensures
        oriented_manifold_edges(triangles),
{
    assert forall|s: int, i: int, t: int, j: int|
        0 <= s < triangles.len() && 0 <= i < 3 && 0 <= t < triangles.len() && 0 <= j < 3 && (s != t || i != j) implies #[trigger] directed_edge(
        triangles,
        s,
        i,
    ) != #[trigger] directed_edge(triangles, t, j) by {
        if directed_edge(triangles, s, i) == directed_edge(triangles, t, j) {
            assert(placed(edges, slot, triangles, s, i));
            assert(placed(edges, slot, triangles, t, j));
            let key = edge_key(directed_edge(triangles, s, i));
            assert(edge_uses_ok(edges[key]@));
            if before(s, i, t, j) {
                assert(slot[(s, i)] != slot[(t, j)]);
            } else {
                assert(before(t, j, s, i));
                assert(slot[(t, j)] != slot[(s, i)]);
            }
        }
    }
}

proof fn lemma_closed(
    edges: Map<u64, Vec<(usize, bool)>>,
    slot: Map<(int, int), int>,
    triangles: Seq<[u32; 3]>,
    boundary_zero: bool,
)
    requires
        edge_table(edges, slot, triangles),
        boundary_zero <==> forall|k: u64| #[trigger] edges.contains_key(k) ==> edges[k]@.len() != 1,
    ensures
        boundary_zero <==> closed_surface(triangles),
{
    lemma_manifold(edges, slot, triangles);
    if boundary_zero {
        assert forall|t: int, k: int| 0 <= t < triangles.len() && 0 <= k < 3 implies #[trigger] reversed_somewhere(
            triangles,
            t,
            k,
        ) by {
            let e = directed_edge(triangles, t, k);
            let key = edge_key(e);
            assert(placed(edges, slot, triangles, t, k));
            assert(edge_uses_ok(edges[key]@));
            assert(edges[key]@.len() != 1);
            let other = 1 - slot[(t, k)];
            assert(entry_owned(triangles, slot, key, other, triangles.len() as int, 0));
            let (s2, i2) = choose|s2: int, i2: int|
                0 <= s2 < triangles.len() && 0 <= i2 < 3 && before(s2, i2, triangles.len() as int, 0) && edge_key(
                    directed_edge(triangles, s2, i2),
                ) == key && slot.contains_key((s2, i2)) && slot[(s2, i2)] == other;
            lemma_edge_key(e, directed_edge(triangles, s2, i2));
            assert(s2 != t || i2 != k);
            assert(directed_edge(triangles, s2, i2) != directed_edge(triangles, t, k));
        }
    } else {
        let key = choose|key: u64| #[trigger] edges.contains_key(key) && edges[key]@.len() == 1;
        assert(entry_owned(triangles, slot, key, 0, triangles.len() as int, 0));
        let (t, k) = choose|t: int, k: int|
            0 <= t < triangles.len() && 0 <= k < 3 && before(t, k, triangles.len() as int, 0) && edge_key(
                directed_edge(triangles, t, k),
            ) == key && slot.contains_key((t, k)) && slot[(t, k)] == 0;
        if closed_surface(triangles) {
            assert(reversed_somewhere(triangles, t, k));
            let e = directed_edge(triangles, t, k);
            let (s2, i2) = choose|s2: int, i2: int|
                0 <= s2 < triangles.len() && 0 <= i2 < 3 && (s2 != t || i2 != k) && directed_edge(
                    triangles,
                    s2,
                    i2,
                ) == (e.1, e.0);
            assert(edge_key((e.1, e.0)) == edge_key(e));
            assert(placed(edges, slot, triangles, s2, i2));
            assert(slot[(s2, i2)] == 0);
            if before(t, k, s2, i2) {
                assert(slot[(t, k)] != slot[(s2, i2)]);
            } else {
                assert(before(s2, i2, t, k));
                assert(slot[(s2, i2)] != slot[(t, k)]);
            }
        }
    }
}

proof fn lemma_connected(
    edges: Map<u64, Vec<(usize, bool)>>,
    slot: Map<(int, int), int>,
    triangles: Seq<[u32; 3]>,
    adjacency: Seq<Vec<usize>>,
)
    requires
        edge_table(edges, slot, triangles),
        triangles.len() <= usize::MAX,
        adjacency.len() == triangles.len(),
        forall|t: int, j: int|
            0 <= t < adjacency.len() && 0 <= j < adjacency[t]@.len() ==> (#[trigger] adjacency[t]@[j]) < adjacency.len(),
        forall|a: int, j: int|
            0 <= a < adjacency.len() && 0 <= j < adjacency[a]@.len() ==> paired(edges, a, #[trigger] adjacency[a]@[j] as int),
        forall|k: u64|
            #[trigger] edges.contains_key(k) && edges[k]@.len() == 2 ==> adjacency[edges[k]@[0].0 as int]@.contains(
                edges[k]@[1].0,
            ) && adjacency[edges[k]@[1].0 as int]@.contains(edges[k]@[0].0),
    ensures
        edge_connected(triangles) == (forall|x: int| 0 <= x < adjacency.len() ==> #[trigger] adj_reached(adjacency, x)),
        forall|a: int, b: int|
            0 <= a < triangles.len() && 0 <= b < triangles.len() ==> (#[trigger] adj_joins(adjacency, a, b)
                <==> chained(triangles, a, b)),
{
    assert forall|a: int, j: int|
        0 <= a < adjacency.len() && 0 <= j < adjacency[a]@.len() implies (#[trigger] adjacency[a]@[j])
        < adjacency.len() && share_edge(triangles, a, adjacency[a]@[j] as int) by {
        let b = adjacency[a]@[j] as int;
        assert(paired(edges, a, b));
        let key = choose|key: u64| #[trigger] pair_key(edges, key, a, b);
        assert(entry_owned(triangles, slot, key, 0, triangles.len() as int, 0));
        assert(entry_owned(triangles, slot, key, 1, triangles.len() as int, 0));
        let (t0, k0) = choose|t0: int, k0: int|
            0 <= t0 < triangles.len() && 0 <= k0 < 3 && before(t0, k0, triangles.len() as int, 0) && edge_key(
                directed_edge(triangles, t0, k0),
            ) == key && slot.contains_key((t0, k0)) && slot[(t0, k0)] == 0;
        let (t1, k1) = choose|t1: int, k1: int|
            0 <= t1 < triangles.len() && 0 <= k1 < 3 && before(t1, k1, triangles.len() as int, 0) && edge_key(
                directed_edge(triangles, t1, k1),
            ) == key && slot.contains_key((t1, k1)) && slot[(t1, k1)] == 1;
        assert(placed(edges, slot, triangles, t0, k0));
        assert(placed(edges, slot, triangles, t1, k1));
        assert(edges[key]@[0].0 == t0 && edges[key]@[1].0 == t1);
        lemma_edge_key(directed_edge(triangles, t0, k0), directed_edge(triangles, t1, k1));
        assert(t0 != t1 || k0 != k1);
        assert(directed_edge(triangles, t0, k0) != directed_edge(triangles, t1, k1));
        assert(share_edge(triangles, t0, t1));
        assert(share_edge(triangles, t1, t0));
    }
    assert forall|a: int, b: int|
        0 <= a < adjacency.len() && 0 <= b < adjacency.len() && #[trigger] share_edge(triangles, a, b) implies adjacency[a]@.contains(
        b as usize,
    ) by {
        let (i, j) = choose|i: int, j: int|
            0 <= i < 3 && 0 <= j < 3 && (a != b || i != j) && directed_edge(triangles, a, i) == (
            directed_edge(triangles, b, j).1,
            directed_edge(triangles, b, j).0,
        );
        let e = directed_edge(triangles, b, j);
        assert(edge_key((e.1, e.0)) == edge_key(e));
        let key = edge_key(e);
        assert(placed(edges, slot, triangles, a, i));
        assert(placed(edges, slot, triangles, b, j));
        if before(a, i, b, j) {
            assert(slot[(a, i)] != slot[(b, j)]);
        } else {
            assert(before(b, j, a, i));
            assert(slot[(b, j)] != slot[(a, i)]);
        }
        assert(edge_uses_ok(edges[key]@));
        assert(edges[key]@.len() == 2);
        assert(edges[key]@[slot[(a, i)]].0 == a);
        assert(edges[key]@[slot[(b, j)]].0 == b);
        assert(adjacency[edges[key]@[0].0 as int]@.contains(edges[key]@[1].0));
        assert(adjacency[edges[key]@[1].0 as int]@.contains(edges[key]@[0].0));
    }
    assert(edge_connected(triangles) == (forall|x: int|
        0 <= x < adjacency.len() ==> #[trigger] adj_reached(adjacency, x))) by {
        if edge_connected(triangles) {
            assert forall|x: int| 0 <= x < adjacency.len() implies #[trigger] adj_reached(adjacency, x) by {
                assert(triangle_linked(triangles, x));
                let p = choose|p: Seq<int>| #[trigger] triangle_chain(triangles, p) && p[0] == 0 && p.last() == x;
                lemma_chain_walk(triangles, adjacency, p);
            }
        }
        if forall|x: int| 0 <= x < adjacency.len() ==> #[trigger] adj_reached(adjacency, x) {
            assert forall|x: int| 0 <= x < triangles.len() implies #[trigger] triangle_linked(triangles, x) by {
                assert(adj_reached(adjacency, x));
                let p = choose|p: Seq<int>| #[trigger] adj_walk(adjacency, p) && p[0] == 0 && p.last() == x;
                lemma_walk_chain(triangles, adjacency, p);
            }
        }
    }
    assert forall|a: int, b: int|
        0 <= a < triangles.len() && 0 <= b < triangles.len() implies (#[trigger] adj_joins(adjacency, a, b)
        <==> chained(triangles, a, b)) by {
        if adj_joins(adjacency, a, b) {
            let p = choose|p: Seq<int>| #[trigger] adj_walk(adjacency, p) && p[0] == a && p.last() == b;
            lemma_walk_chain(triangles, adjacency, p);
        }
        if chained(triangles, a, b) {
            let p = choose|p: Seq<int>| #[trigger] triangle_chain(triangles, p) && p[0] == a && p.last() == b;
            lemma_chain_walk(triangles, adjacency, p);
        }
    }
}

/// Where walks and chains join the same triangles, the triangles that no
/// earlier one reaches are those that come first in their component.
proof fn lemma_firsts_agree(triangles: Seq<[u32; 3]>, adj: Seq<Vec<usize>>, k: nat)
    requires
        k <= triangles.len(),
        forall|a: int, b: int|
            0 <= a < triangles.len() && 0 <= b < triangles.len() ==> (#[trigger] adj_joins(adj, a, b)
                <==> chained(triangles, a, b)),
    ensures
        adj_firsts(adj, k) == components_among(triangles, k),
    decreases k,
{
    if k > 0 {
        lemma_firsts_agree(triangles, adj, (k - 1) as nat);
        let x = k - 1;
        if reached_before(adj, x, x) {
            let y = choose|y: int| 0 <= y < x && #[trigger] adj_joins(adj, y, x);
            assert(chained(triangles, y, x));
        }
        if !first_in_component(triangles, x) {
            let y = choose|y: int| 0 <= y < x && #[trigger] chained(triangles, y, x);
            assert(adj_joins(adj, y, x));
        }
    }
}

/// Checks the incidence of an indexed triangle mesh with `vertex_count`
/// vertices, given the caller's floating-point verdicts: whether every position
/// is finite, and one verdict per triangle. On success it returns the number of
/// boundary edges and of edge-connected components.
pub fn check_incidence(
    vertex_count: usize,
    triangles: &[[u32; 3]],
    attributes: AttributeCounts,
    positions_finite: bool,
    geometry: &[TriangleGeometry],
    limits: Limits,
) -> (r: Result<Incidence, Error>)
    requires
        geometry@.len() == triangles@.len(),
    ensures
        (vertex_count > limits.max_vertices || vertex_count > u32::MAX || triangles@.len()
            > limits.max_triangles) ==> r == Err::<Incidence, Error>(Error::ResourceLimit),
        !(vertex_count > limits.max_vertices || vertex_count > u32::MAX || triangles@.len()
            > limits.max_triangles) && (vertex_count == 0 || triangles@.len() == 0) ==> r == Err::<
            Incidence,
            Error,
        >(Error::Empty),
        vertex_count <= limits.max_vertices && vertex_count <= u32::MAX && triangles@.len()
            <= limits.max_triangles && vertex_count > 0 && triangles@.len() > 0 && (
        attributes.normals != triangles@.len() || attributes.uvs != triangles@.len()
            || attributes.face_ids != triangles@.len()) ==> r == Err::<Incidence, Error>(
            Error::InvalidAttributes,
        ),
        vertex_count <= limits.max_vertices && vertex_count <= u32::MAX && triangles@.len()
            <= limits.max_triangles && vertex_count > 0 && triangles@.len() > 0
            && attributes.normals == triangles@.len() && attributes.uvs == triangles@.len()
            && attributes.face_ids == triangles@.len() ==> {
            &&& vertex_count > limits.max_work ==> r == Err::<Incidence, Error>(Error::ResourceLimit)
            &&& vertex_count <= limits.max_work && !positions_finite ==> r == Err::<Incidence, Error>(
                Error::NonFinite,
            )
        },
        vertex_count <= limits.max_vertices && vertex_count <= u32::MAX && triangles@.len()
            <= limits.max_triangles && limits.max_work >= work_bound(vertex_count as int, triangles@.len() as int)
            ==> r != Err::<Incidence, Error>(Error::ResourceLimit),
        vertex_count <= limits.max_vertices && vertex_count <= u32::MAX && triangles@.len()
            <= limits.max_triangles && limits.max_work >= work_bound(vertex_count as int, triangles@.len() as int)
            && vertex_count > 0 && triangles@.len() > 0 && attributes.normals == triangles@.len()
            && attributes.uvs == triangles@.len() && attributes.face_ids == triangles@.len()
            && positions_finite && incidence_ok(vertex_count, triangles@, geometry@) ==> r is Ok || r
            == Err::<Incidence, Error>(Error::NonManifoldVertex),
        r matches Ok(stats) ==> {
            &&& positions_finite
            &&& incidence_ok(vertex_count, triangles@, geometry@)
            &&& 1 <= stats.components <= triangles@.len()
            &&& stats.boundary_edges == 0 <==> closed_surface(triangles@)
            &&& stats.components == 1 <==> edge_connected(triangles@)
            &&& stats.components == component_count(triangles@)
        },
{
    let nv = vertex_count;
    let nt = triangles.len();
    let max_vertices = if limits.max_vertices < 0xffff_ffff {
        limits.max_vertices
    } else {
        0xffff_ffff
    };
    if nv > max_vertices || nt > limits.max_triangles {
        return Err(Error::ResourceLimit);
    }
    if nv == 0 || nt == 0 {
        return Err(Error::Empty);
    }
    if attributes.normals != nt || attributes.uvs != nt || attributes.face_ids != nt {
        return Err(Error::InvalidAttributes);
    }
    let mut budget = Budget(limits.max_work);
    budget.charge(nv)?;
    if !positions_finite {
        return Err(Error::NonFinite);
    }
    let (edges, links, slot) = triangle_pass(nv, triangles, geometry, &mut budget)?;
    let passed = edge_pass(nt, &edges, &mut budget);
    let (adjacency, boundary_edges) = match passed {
        Ok(found) => found,
        Err(e) => {
            proof {
                if e != Error::ResourceLimit {
                    let key = choose|k: u64| #[trigger] edges@.contains_key(k) && !edge_uses_ok(edges@[k]@);
                    lemma_shared_direction(edges@, slot@, triangles@, key);
                }
            }
            return Err(e);
        },
    };
    proof {
        lemma_manifold(edges@, slot@, triangles@);
        lemma_closed(edges@, slot@, triangles@, boundary_edges == 0);
    }
    vertex_pass(&links, &mut budget)?;
    proof {
        assert forall|v: int| 0 <= v < vertex_count implies used(triangles@, v) by {
            assert(links@[v]@.len() > 0);
        }
        assert forall|v: int, x: u32, y: u32|
            0 <= v < vertex_count && #[trigger] around(triangles@, v, x) && #[trigger] around(
                triangles@,
                v,
                y,
            ) implies exists|p: Seq<u32>| #[trigger] fan_walk(triangles@, v, p) && p[0] == x && p.last() == y by {
            let link = links@[v]@;
            assert(link_connected(link));
            lemma_around_node(triangles@, links@, v, x);
            lemma_around_node(triangles@, links@, v, y);
            assert(joined(link, x, y));
            let p = choose|p: Seq<u32>| #[trigger] link_walk(link, p) && p[0] == x && p.last() == y;
            lemma_fan_walk(triangles@, links@, v, p);
        }
    }
    proof {
        let n = nt as int;
        assert((6 * n) * n == 6 * n * n) by (nonlinear_arith);
    }
    let components = count_components(&adjacency, &mut budget, Ghost((6 * nt) as nat))?;
    proof {
        lemma_connected(edges@, slot@, triangles@, adjacency@);
        lemma_firsts_agree(triangles@, adjacency@, triangles@.len());
    }
    Ok(Incidence { boundary_edges, components })
}

impl Incidence {
    /// No edge is used by a single triangle.
    pub fn is_watertight(&self) -> (r: bool)
        ensures
            r == (self.boundary_edges == 0),
    {
        self.boundary_edges == 0
    }

    /// A closed solid: watertight, one component, and a positive signed volume
    /// (which the caller has computed).
    pub fn require_solid(&self, volume_positive: bool) -> (r: Result<(), Error>)
        ensures
            self.boundary_edges != 0 ==> r == Err::<(), Error>(Error::Open),
            self.boundary_edges == 0 && self.components != 1 ==> r == Err::<(), Error>(
                Error::Disconnected,
            ),
            self.boundary_edges == 0 && self.components == 1 && !volume_positive ==> r == Err::<
                (),
                Error,
            >(Error::NonPositiveVolume),
            r is Ok <==> self.boundary_edges == 0 && self.components == 1 && volume_positive,
    {
        if self.boundary_edges != 0 {
            return Err(Error::Open);
        }
        if self.components != 1 {
            return Err(Error::Disconnected);
        }
        if !volume_positive {
            return Err(Error::NonPositiveVolume);
        }
        Ok(())
    }
}

} // verus!
