use tessstep::mesh::{
    check_incidence, AttributeCounts, Attributes, Error, Incidence, Limits, TriangleGeometry,
};

fn tetra() -> Vec<[u32; 3]> {
    vec![[0, 2, 1], [0, 1, 3], [1, 2, 3], [2, 0, 3]]
}

fn valid() -> TriangleGeometry {
    TriangleGeometry {
        degenerate: false,
        attributes: Attributes::Valid,
        volume_finite: true,
    }
}

fn counts(n: usize) -> AttributeCounts {
    AttributeCounts {
        normals: n,
        uvs: n,
        face_ids: n,
    }
}

fn check(vertices: usize, triangles: &[[u32; 3]], limits: Limits) -> Result<Incidence, Error> {
    let geometry = vec![valid(); triangles.len()];
    check_incidence(
        vertices,
        triangles,
        counts(triangles.len()),
        true,
        &geometry,
        limits,
    )
}

#[test]
fn tetrahedron_is_closed_connected_and_solid() {
    let m = check(4, &tetra(), Limits::default()).unwrap();
    assert_eq!(
        m,
        Incidence {
            boundary_edges: 0,
            components: 1
        }
    );
    assert!(m.is_watertight());
    assert_eq!(m.require_solid(true), Ok(()));
    assert_eq!(m.require_solid(false), Err(Error::NonPositiveVolume));
}

#[test]
fn default_limits_are_the_documented_values() {
    let l = Limits::default();
    assert_eq!(l.max_vertices, 1_000_000);
    assert_eq!(l.max_triangles, 2_000_000);
    assert_eq!(l.max_work, 50_000_000);
}

#[test]
fn bad_indices_degeneracy_duplicates_and_winding_are_refused() {
    let t = tetra();
    let mut bad = t.clone();
    bad[0][0] = 99;
    assert_eq!(check(4, &bad, Limits::default()), Err(Error::InvalidIndex));

    let mut geometry = vec![valid(); 4];
    geometry[0].degenerate = true;
    assert_eq!(
        check_incidence(4, &t, counts(4), true, &geometry, Limits::default()),
        Err(Error::DegenerateTriangle)
    );

    let mut bad = t.clone();
    bad.push(t[0]);
    assert_eq!(check(4, &bad, Limits::default()), Err(Error::DuplicateTriangle));
    let mut bad = t.clone();
    bad.push([t[0][1], t[0][2], t[0][0]]);
    assert_eq!(check(4, &bad, Limits::default()), Err(Error::DuplicateTriangle));

    let mut bad = t.clone();
    bad[0].swap(1, 2);
    assert_eq!(check(4, &bad, Limits::default()), Err(Error::InconsistentWinding));

    assert_eq!(
        check_incidence(4, &t, counts(4), false, &vec![valid(); 4], Limits::default()),
        Err(Error::NonFinite)
    );
    let limits = Limits {
        max_work: 0,
        ..Limits::default()
    };
    assert_eq!(check(4, &t, limits), Err(Error::ResourceLimit));
}

#[test]
fn open_disconnected_and_pinched_vertices_are_distinct() {
    let t = tetra();
    let open = check(4, &t[..3], Limits::default()).unwrap();
    assert_eq!(open.boundary_edges, 3);
    assert!(!open.is_watertight());
    assert_eq!(open.require_solid(true), Err(Error::Open));

    let mut two = t.clone();
    two.extend(t.iter().map(|t| t.map(|i| i + 4)));
    let two = check(8, &two, Limits::default()).unwrap();
    assert!(two.is_watertight());
    assert_eq!(two.components, 2);
    assert_eq!(two.require_solid(true), Err(Error::Disconnected));

    let mut pinched = t.clone();
    pinched.extend(t.iter().map(|t| t.map(|i| if i == 0 { 0 } else { i + 3 })));
    assert_eq!(
        check(7, &pinched, Limits::default()),
        Err(Error::NonManifoldVertex)
    );
}

#[test]
fn attribute_verdicts_counts_and_unused_vertices() {
    let t = tetra();
    let mut geometry = vec![valid(); 4];
    geometry[0].attributes = Attributes::Invalid;
    assert_eq!(
        check_incidence(4, &t, counts(4), true, &geometry, Limits::default()),
        Err(Error::InvalidAttributes)
    );
    geometry[0].attributes = Attributes::NonFinite;
    assert_eq!(
        check_incidence(4, &t, counts(4), true, &geometry, Limits::default()),
        Err(Error::NonFinite)
    );
    let mut geometry = vec![valid(); 4];
    geometry[3].volume_finite = false;
    assert_eq!(
        check_incidence(4, &t, counts(4), true, &geometry, Limits::default()),
        Err(Error::NonFinite)
    );
    let short = AttributeCounts {
        normals: 4,
        uvs: 3,
        face_ids: 4,
    };
    assert_eq!(
        check_incidence(4, &t, short, true, &vec![valid(); 4], Limits::default()),
        Err(Error::InvalidAttributes)
    );
    assert_eq!(check(5, &t, Limits::default()), Err(Error::UnusedVertex));
}

#[test]
fn empty_meshes_limits_and_edges_shared_three_times() {
    assert_eq!(check(0, &tetra(), Limits::default()), Err(Error::Empty));
    assert_eq!(check(4, &[], Limits::default()), Err(Error::Empty));
    let small = Limits {
        max_vertices: 3,
        ..Limits::default()
    };
    assert_eq!(check(4, &tetra(), small), Err(Error::ResourceLimit));
    let few = Limits {
        max_triangles: 3,
        ..Limits::default()
    };
    assert_eq!(check(4, &tetra(), few), Err(Error::ResourceLimit));
    let fan = [[0, 1, 2], [1, 0, 3], [0, 1, 4]];
    assert_eq!(
        check(5, &fan, Limits::default()),
        Err(Error::NonManifoldEdge)
    );
}

#[test]
fn mesh_errors_print_with_their_prefix() {
    assert_eq!(Error::NonManifoldVertex.describe(), "mesh: NonManifoldVertex");
    assert_eq!(Error::Open.describe(), "mesh: Open");
}

#[test]
fn the_stated_work_bound_suffices_for_a_closed_tetrahedron() {
    // 2 * 4 vertices + 29 * 4 triangles + 6 * 4 * 4 = 220 steps.
    let limits = Limits {
        max_work: 220,
        ..Limits::default()
    };
    assert_eq!(
        check(4, &tetra(), limits),
        Ok(Incidence {
            boundary_edges: 0,
            components: 1
        })
    );
    let starved = Limits {
        max_work: 3,
        ..Limits::default()
    };
    assert_eq!(check(4, &tetra(), starved), Err(Error::ResourceLimit));
}
