use tessstep::topology::{
    Coedge, CoedgeId, Defect, Edge, EdgeGeometry, EdgeId, Face, FaceId, Orientation, RawBrep,
    Shell, ShellId, Solid, ValidationLimits, VertexId, Wire, WireId,
};

fn polygons(vertices: usize, loops: &[Vec<usize>]) -> RawBrep {
    let mut r = RawBrep {
        vertices,
        ..Default::default()
    };
    for l in loops {
        let mut coedges = Vec::new();
        for k in 0..l.len() {
            let (a, b) = (l[k], l[(k + 1) % l.len()]);
            let found = r.edges.iter().position(|e| {
                e.vertices == [VertexId(a), VertexId(b)] || e.vertices == [VertexId(b), VertexId(a)]
            });
            let e = match found {
                Some(e) => e,
                None => {
                    r.edges.push(Edge {
                        vertices: [VertexId(a), VertexId(b)],
                    });
                    r.edges.len() - 1
                }
            };
            let orientation = if r.edges[e].vertices[0] == VertexId(a) {
                Orientation::Forward
            } else {
                Orientation::Reversed
            };
            r.coedges.push(Coedge {
                edge: EdgeId(e),
                orientation,
            });
            coedges.push(CoedgeId(r.coedges.len() - 1));
        }
        r.wires.push(Wire { coedges });
        r.faces.push(Face {
            outer: WireId(r.wires.len() - 1),
            holes: vec![],
            orientation: Orientation::Forward,
        });
    }
    r
}
fn good_edges(r: &RawBrep) -> Vec<EdgeGeometry> {
    vec![
        EdgeGeometry {
            range_ok: true,
            endpoints: [None, None]
        };
        r.edges.len()
    ]
}
fn check(r: RawBrep, limits: ValidationLimits) -> Result<tessstep::topology::ValidatedBrep, tessstep::topology::Report> {
    let edges = good_edges(&r);
    let pcurves = vec![None; r.coedges.len()];
    r.validate(edges, pcurves, limits)
}
fn defect(r: RawBrep) -> Defect {
    check(r, ValidationLimits::default()).unwrap_err().defect
}
fn square() -> RawBrep {
    polygons(4, &[vec![0, 1, 2, 3]])
}
fn adjacent() -> RawBrep {
    polygons(4, &[vec![0, 1, 2], vec![2, 1, 3]])
}
fn tetrahedron() -> RawBrep {
    let mut r = polygons(
        4,
        &[vec![0, 2, 1], vec![0, 1, 3], vec![1, 2, 3], vec![0, 3, 2]],
    );
    r.shells.push(Shell {
        faces: (0..4).map(FaceId).collect(),
        closed: true,
    });
    r.solids.push(Solid { shell: ShellId(0) });
    r
}
#[test]
fn topology_states_preserve_shared_identity_and_geometry() {
    let r = adjacent();
    let original = r.clone();
    let n = check(r, ValidationLimits::default()).unwrap().normalize();
    assert_eq!(n.data(), &original);
    let e = n
        .data()
        .edges
        .iter()
        .position(|e| e.vertices == [VertexId(1), VertexId(2)])
        .unwrap();
    let uses = n.edge_uses(EdgeId(e)).unwrap();
    assert_eq!(uses.len(), 2);
    assert_ne!(
        n.data().coedges[uses[0].0].orientation,
        n.data().coedges[uses[1].0].orientation
    );
    assert!(check(tetrahedron(), ValidationLimits::default()).is_ok());
}
#[test]
fn topology_rejects_invalid_references_ownership_and_endpoints() {
    let mut r = square();
    r.edges[0].vertices[0] = VertexId(usize::MAX);
    assert_eq!(defect(r), Defect::InvalidHandle);
    let mut r = square();
    r.wires[0].coedges.swap(1, 2);
    assert_eq!(defect(r), Defect::BrokenWire);
    let mut r = square();
    r.faces[0].holes.push(WireId(0));
    assert_eq!(defect(r), Defect::DuplicateOwnership);
    let r = square();
    let mut edges = good_edges(&r);
    edges[0].endpoints[1] = Some(Defect::EndpointMismatch);
    let pcurves = vec![None; r.coedges.len()];
    assert_eq!(
        r.validate(edges, pcurves, ValidationLimits::default())
            .unwrap_err()
            .defect,
        Defect::EndpointMismatch
    );
    let r = square();
    let mut edges = good_edges(&r);
    edges[0].range_ok = false;
    let pcurves = vec![None; r.coedges.len()];
    assert_eq!(
        r.validate(edges, pcurves, ValidationLimits::default())
            .unwrap_err()
            .defect,
        Defect::InvalidRange
    );
    let mut r = square();
    r.vertices += 1;
    assert_eq!(defect(r), Defect::UnusedRecord);
}
#[test]
fn topology_shells_check_closure_connectivity_and_orientation() {
    let mut r = square();
    r.shells.push(Shell {
        faces: vec![FaceId(0)],
        closed: true,
    });
    assert_eq!(defect(r), Defect::OpenShell);
    let mut r = adjacent();
    r.faces[1].orientation = Orientation::Reversed;
    r.shells.push(Shell {
        faces: vec![FaceId(0), FaceId(1)],
        closed: false,
    });
    assert_eq!(defect(r), Defect::InconsistentOrientation);
    let mut r = polygons(6, &[vec![0, 1, 2], vec![3, 4, 5]]);
    r.shells.push(Shell {
        faces: vec![FaceId(0), FaceId(1)],
        closed: false,
    });
    assert_eq!(defect(r), Defect::DisconnectedShell);
    let mut r = adjacent();
    r.shells.push(Shell {
        faces: vec![FaceId(0), FaceId(1)],
        closed: false,
    });
    r.solids.push(Solid { shell: ShellId(0) });
    assert_eq!(defect(r), Defect::OpenShell);
    let r = square();
    assert_eq!(
        check(
            r,
            ValidationLimits {
                max_records: 0,
                ..ValidationLimits::default()
            }
        )
        .unwrap_err()
        .defect,
        Defect::ResourceLimit
    );
    let r = square();
    assert_eq!(
        check(
            r,
            ValidationLimits {
                max_work: 2,
                ..ValidationLimits::default()
            }
        )
        .unwrap_err()
        .defect,
        Defect::ResourceLimit
    );
}
#[test]
fn topology_rejects_nonmanifold_edges_and_pinched_vertices() {
    let mut r = polygons(5, &[vec![0, 1, 2], vec![1, 0, 3], vec![0, 1, 4]]);
    r.shells.push(Shell {
        faces: (0..3).map(FaceId).collect(),
        closed: false,
    });
    assert_eq!(defect(r), Defect::NonManifoldEdge);
    let mut r = polygons(
        5,
        &[vec![0, 1, 2], vec![2, 1, 3], vec![3, 1, 4], vec![3, 4, 0]],
    );
    r.shells.push(Shell {
        faces: (0..4).map(FaceId).collect(),
        closed: false,
    });
    assert_eq!(defect(r), Defect::NonManifoldVertex);
}
#[test]
fn empty_models_wires_and_shells_are_reported_with_their_index() {
    let r = RawBrep::default();
    let report = check(r, ValidationLimits::default()).unwrap_err();
    assert_eq!((report.defect, report.kind, report.index), (Defect::Empty, "faces", 0));
    let mut r = square();
    r.wires.push(Wire { coedges: vec![] });
    r.faces.push(Face {
        outer: WireId(1),
        holes: vec![],
        orientation: Orientation::Forward,
    });
    let report = check(r, ValidationLimits::default()).unwrap_err();
    assert_eq!((report.defect, report.kind, report.index), (Defect::Empty, "wire", 1));
    let mut r = square();
    r.shells.push(Shell {
        faces: vec![],
        closed: false,
    });
    let report = check(r, ValidationLimits::default()).unwrap_err();
    assert_eq!((report.defect, report.kind, report.index), (Defect::Empty, "shell", 0));
    let mut r = square();
    r.solids.push(Solid { shell: ShellId(3) });
    let report = check(r, ValidationLimits::default()).unwrap_err();
    assert_eq!(
        (report.defect, report.kind, report.index),
        (Defect::InvalidHandle, "shell", 3)
    );
}
#[test]
fn parameter_curve_failures_and_unused_edges_are_reported() {
    let r = square();
    let edges = good_edges(&r);
    let mut pcurves = vec![None; r.coedges.len()];
    pcurves[2] = Some(Defect::GeometryFailure);
    let report = r
        .validate(edges, pcurves, ValidationLimits::default())
        .unwrap_err();
    assert_eq!(
        (report.defect, report.kind, report.index),
        (Defect::GeometryFailure, "pcurve", 2)
    );
    let mut r = square();
    r.edges.push(Edge {
        vertices: [VertexId(0), VertexId(2)],
    });
    let report = check(r, ValidationLimits::default()).unwrap_err();
    assert_eq!(
        (report.defect, report.kind, report.index),
        (Defect::UnusedRecord, "edge", 4)
    );
    assert!(Orientation::Reversed.is_reversed());
    assert!(!Orientation::Forward.is_reversed());
}
