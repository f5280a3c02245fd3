use chipbreaker_core::double::Double;
use chipbreaker_core::math::Vec3;
use chipbreaker_core::mesh::validate::findings::FindingKind;
use chipbreaker_core::mesh::validate::{collinear_exact, validate};
use chipbreaker_core::mesh::{MeshMeta, TriMesh};

fn d(x: f64) -> Double {
    Double::from_bits(x.to_bits())
}

fn f(x: Double) -> f64 {
    f64::from_bits(x.to_bits())
}

fn v(x: f64, y: f64, z: f64) -> Vec3 {
    Vec3::new(d(x), d(y), d(z))
}

fn unit_cube() -> TriMesh {
    let points = vec![
        v(0.0, 0.0, 0.0),
        v(1.0, 0.0, 0.0),
        v(1.0, 1.0, 0.0),
        v(0.0, 1.0, 0.0),
        v(0.0, 0.0, 1.0),
        v(1.0, 0.0, 1.0),
        v(1.0, 1.0, 1.0),
        v(0.0, 1.0, 1.0),
    ];
    let faces = vec![
        [0, 2, 1],
        [0, 3, 2],
        [4, 5, 6],
        [4, 6, 7],
        [0, 1, 5],
        [0, 5, 4],
        [2, 3, 7],
        [2, 7, 6],
        [0, 4, 7],
        [0, 7, 3],
        [1, 2, 6],
        [1, 6, 5],
    ];
    TriMesh::new(points, faces, MeshMeta::synthetic()).expect("valid cube")
}

fn mesh_of(points: Vec<Vec3>, faces: Vec<[u32; 3]>) -> TriMesh {
    TriMesh::new(points, faces, MeshMeta::synthetic()).expect("valid")
}

#[test]
fn a_cube_is_a_solid() {
    let r = validate(&unit_cube());
    assert!(r.is_manifold);
    assert!(r.is_watertight);
    assert!(r.is_orientation_consistent);
    assert!(r.is_solid());
    assert_eq!(f(r.signed_volume), 1.0);
    assert_eq!(f(r.surface_area), 6.0);
    assert_eq!(r.edges, 18, "a triangulated cube has 18 edges");
    assert_eq!(r.components.len(), 1);
    assert_eq!(
        r.components[0].euler_characteristic, 2,
        "a sphere has chi = 2"
    );
    assert_eq!(r.components[0].genus, Some(0));
    assert!(
        r.findings.is_empty(),
        "unexpected findings: {:?}",
        r.findings
    );
}

#[test]
fn euler_characteristic_is_right_for_the_cube() {
    let r = validate(&unit_cube());
    let c = &r.components[0];
    assert_eq!((c.vertices, c.edges, c.triangles), (8, 18, 12));
    assert_eq!(c.vertices as i64 - c.edges as i64 + c.triangles as i64, 2);
}

#[test]
fn a_missing_face_is_reported_as_boundary_edges() {
    let cube = unit_cube();
    let mut t = cube.triangles().to_vec();
    t.remove(0); // leaves a triangular hole
    let holed = mesh_of(cube.vertices().to_vec(), t);
    let r = validate(&holed);
    assert!(!r.is_watertight);
    assert!(!r.is_manifold, "a boundary edge is also non-manifold");
    assert_eq!(r.count_of(FindingKind::BoundaryEdge), 3);
    assert!(r.fatal_findings().len() >= 3);
    assert!(!r.is_solid());
}

#[test]
fn a_third_incident_triangle_is_non_manifold() {
    let cube = unit_cube();
    let mut t = cube.triangles().to_vec();
    t.push([0, 2, 4]);
    let m = mesh_of(cube.vertices().to_vec(), t);
    let r = validate(&m);
    assert!(!r.is_manifold);
    assert!(r.count_of(FindingKind::NonManifoldEdge) >= 1);
    let f = r
        .findings
        .iter()
        .find(|x| x.kind == FindingKind::NonManifoldEdge)
        .expect("present");
    assert!(f.triangles.len() >= 3, "must name every incident triangle");
}

#[test]
fn a_single_flipped_face_is_reported() {
    let cube = unit_cube();
    let mut t = cube.triangles().to_vec();
    t[0] = [t[0][0], t[0][2], t[0][1]];
    let m = mesh_of(cube.vertices().to_vec(), t);
    let r = validate(&m);
    assert!(!r.is_orientation_consistent);
    assert!(r.count_of(FindingKind::InconsistentOrientation) > 0);
    assert!(!r.is_solid());
}

#[test]
fn a_wholly_inverted_mesh_is_consistent_but_inside_out() {
    let cube = unit_cube();
    let t: Vec<[u32; 3]> = cube
        .triangles()
        .iter()
        .map(|t| [t[0], t[2], t[1]])
        .collect();
    let m = mesh_of(cube.vertices().to_vec(), t);
    let r = validate(&m);
    assert!(r.is_orientation_consistent);
    assert!(r.is_watertight);
    assert_eq!(f(r.signed_volume), -1.0);
    assert_eq!(r.count_of(FindingKind::InvertedOrientation), 1);
    assert!(!r.is_solid());
}

#[test]
fn degenerate_triangles_are_found_exactly_not_by_area_threshold() {
    let m = mesh_of(vec![v(0.0, 0.0, 0.0), v(1.0, 0.0, 0.0), v(0.0, 1.0, 0.0)], vec![[0, 1, 1]]);
    assert_eq!(validate(&m).count_of(FindingKind::DegenerateTriangle), 1);

    let m = mesh_of(
        vec![v(0.0, 0.0, 0.0), v(1.0, 0.0, 0.0), v(2.0, 0.0, 0.0)],
        vec![[0, 1, 2]],
    );
    assert_eq!(validate(&m).count_of(FindingKind::DegenerateTriangle), 1);

    let m = mesh_of(
        vec![
            v(0.0, 0.0, 0.0),
            v(1.0, 0.0, 0.0),
            v(0.5, 1e-9, 0.0),
        ],
        vec![[0, 1, 2]],
    );
    assert_eq!(
        validate(&m).count_of(FindingKind::DegenerateTriangle),
        0,
        "a thin triangle is not a degenerate one"
    );
}

#[test]
fn collinearity_is_scale_invariant() {
    for scale in [1e-6, 1.0, 1e6] {
        let a = v(0.0, 0.0, 0.0);
        let b = v(scale, 0.0, 0.0);
        let c = v(2.0 * scale, 0.0, 0.0);
        assert!(collinear_exact(a, b, c), "collinear at scale {scale}");
        let e = v(scale, scale, 0.0);
        assert!(!collinear_exact(a, b, e), "not collinear at scale {scale}");
    }
}

#[test]
fn duplicate_triangles_are_found_in_any_winding() {
    let cube = unit_cube();
    let mut t = cube.triangles().to_vec();
    let first = t[0];
    t.push([first[0], first[2], first[1]]); // reversed winding
    let m = mesh_of(cube.vertices().to_vec(), t);
    let r = validate(&m);
    assert_eq!(r.count_of(FindingKind::DuplicateTriangle), 1);
    let f = r
        .findings
        .iter()
        .find(|x| x.kind == FindingKind::DuplicateTriangle)
        .expect("present");
    assert_eq!(f.triangles.len(), 2);
}

#[test]
fn two_disjoint_components_are_counted() {
    let cube = unit_cube();
    let mut points = cube.vertices().to_vec();
    let mut t = cube.triangles().to_vec();
    let offset = points.len() as u32;
    points.extend(cube.vertices().iter().map(|p| p.plus(v(10.0, 10.0, 10.0))));
    t.extend(
        cube.triangles()
            .iter()
            .map(|x| [x[0] + offset, x[1] + offset, x[2] + offset]),
    );
    let m = mesh_of(points, t);
    let r = validate(&m);
    assert_eq!(r.components.len(), 2);
    assert!(r.is_manifold && r.is_watertight);
    assert_eq!(f(r.signed_volume), 2.0, "two unit cubes");
    for c in &r.components {
        assert_eq!(c.genus, Some(0));
        assert_eq!(f(c.signed_volume), 1.0);
    }
}

#[test]
fn a_nested_component_reports_its_own_positive_volume() {
    let outer = unit_cube();
    let mut points: Vec<Vec3> = outer.vertices().iter().map(|p| p.times(d(10.0))).collect();
    let mut t = outer.triangles().to_vec();
    let offset = points.len() as u32;
    points.extend(outer.vertices().iter().map(|p| p.times(d(2.0)).plus(v(4.0, 4.0, 4.0))));
    t.extend(
        outer
            .triangles()
            .iter()
            .map(|x| [x[0] + offset, x[1] + offset, x[2] + offset]),
    );
    let m = mesh_of(points, t);
    let r = validate(&m);
    assert_eq!(r.components.len(), 2);
    assert_eq!(f(r.components[0].signed_volume), 1000.0);
    assert_eq!(f(r.components[1].signed_volume), 8.0);
    assert_eq!(f(r.signed_volume), 1008.0);
}

#[test]
fn unused_vertices_are_reported() {
    let cube = unit_cube();
    let mut points = cube.vertices().to_vec();
    points.push(v(99.0, 99.0, 99.0));
    let m = mesh_of(points, cube.triangles().to_vec());
    let r = validate(&m);
    assert_eq!(r.count_of(FindingKind::UnusedVertex), 1);
    assert!(!r.findings[0].vertices.is_empty());
}

#[test]
fn findings_are_sorted_independently_of_discovery_order() {
    let cube = unit_cube();
    let mut t = cube.triangles().to_vec();
    t.remove(0);
    t.push([0, 1, 1]);
    let m = mesh_of(cube.vertices().to_vec(), t);
    let r = validate(&m);
    let keys: Vec<_> = r.findings.iter().map(|x| (x.kind, x.triangles.clone(), x.vertices.clone())).collect();
    let mut sorted = keys.clone();
    sorted.sort();
    assert_eq!(keys, sorted, "findings must come out sorted");
}

#[test]
fn an_empty_mesh_validates_without_panicking() {
    let m = mesh_of(Vec::new(), Vec::new());
    let r = validate(&m);
    assert_eq!(r.triangles, 0);
    assert_eq!(r.edges, 0);
    assert!(r.components.is_empty());
    assert!(r.is_manifold && r.is_watertight);
    assert!(!r.is_solid());
}

#[test]
fn a_triangle_soup_reports_every_edge_as_boundary() {
    let m = mesh_of(
        vec![
            v(0.0, 0.0, 0.0),
            v(1.0, 0.0, 0.0),
            v(0.0, 1.0, 0.0),
            v(1.0, 0.0, 0.0),
            v(1.0, 1.0, 0.0),
            v(0.0, 1.0, 0.0),
        ],
        vec![[0, 1, 2], [3, 4, 5]],
    );
    let r = validate(&m);
    assert_eq!(r.count_of(FindingKind::BoundaryEdge), 6);
    assert_eq!(r.components.len(), 2, "unwelded triangles are disconnected");
}

#[test]
fn reports_are_reproducible_and_tell_defects_apart() {
    let cube = unit_cube();
    let mut t = cube.triangles().to_vec();
    t.remove(0);
    let m = mesh_of(cube.vertices().to_vec(), t);
    let a = validate(&m);
    assert_eq!(a, validate(&m), "validation must be deterministic");
    assert_eq!(a.digest(), validate(&m).digest());
    assert_ne!(a.digest(), validate(&cube).digest());
}

#[test]
fn findings_are_known_by_what_they_are_about() {
    let cube = unit_cube();
    let inverted: Vec<[u32; 3]> = cube.triangles().iter().map(|t| [t[0], t[2], t[1]]).collect();
    let r = validate(&mesh_of(cube.vertices().to_vec(), inverted));
    let finding = &r.findings[0];
    assert_eq!(finding.kind, FindingKind::InvertedOrientation);
    assert_eq!(
        finding.told_with("-1"),
        "the surface is closed and consistently wound, but encloses a negative volume (-1); the whole mesh is inside out"
    );
    let mut t = cube.triangles().to_vec();
    t.remove(0);
    let open = validate(&mesh_of(cube.vertices().to_vec(), t));
    assert_eq!(open.findings[0].told_with("0"), open.findings[0].detail);
    let mut ids: Vec<String> = open.findings.iter().map(|x| x.id()).collect();
    let count = ids.len();
    ids.sort();
    ids.dedup();
    assert_eq!(count, ids.len());
    assert_eq!(open.findings[0].id(), validate(&mesh_of(cube.vertices().to_vec(), cube.triangles()[1..].to_vec())).findings[0].id());
    assert!(finding.id().ends_with(";0;0;0;"), "{}", finding.id());
}
