use chipbreaker_core::canonical::digest;
use chipbreaker_core::double::Double;
use chipbreaker_core::math::Vec3;
use chipbreaker_core::mesh::weld::{dequantise, quantise, weld, LatticeKey, WeldError, EPS_WELD};
use chipbreaker_core::mesh::{MeshError, MeshMeta, TriMesh};

const EPS: f64 = 1e-6;

fn d(x: f64) -> Double {
    Double::from_bits(x.to_bits())
}

fn f(x: Double) -> f64 {
    f64::from_bits(x.to_bits())
}

fn v(x: f64, y: f64, z: f64) -> Vec3 {
    Vec3::new(d(x), d(y), d(z))
}

fn unit_cube() -> TriMesh {
    let points = vec![
        v(0.0, 0.0, 0.0),
        v(1.0, 0.0, 0.0),
        v(1.0, 1.0, 0.0),
        v(0.0, 1.0, 0.0),
        v(0.0, 0.0, 1.0),
        v(1.0, 0.0, 1.0),
        v(1.0, 1.0, 1.0),
        v(0.0, 1.0, 1.0),
    ];
    let faces = vec![
        [0, 2, 1],
        [0, 3, 2],
        [4, 5, 6],
        [4, 6, 7],
        [0, 1, 5],
        [0, 5, 4],
        [2, 3, 7],
        [2, 7, 6],
        [0, 4, 7],
        [0, 7, 3],
        [1, 2, 6],
        [1, 6, 5],
    ];
    TriMesh::new(points, faces, MeshMeta::synthetic()).expect("valid cube")
}

fn mesh_of(vertices: Vec<Vec3>, triangles: Vec<[u32; 3]>) -> TriMesh {
    TriMesh::new(vertices, triangles, MeshMeta::synthetic()).expect("valid")
}

fn soup() -> TriMesh {
    mesh_of(
        vec![
            v(0.0, 0.0, 0.0),
            v(1.0, 0.0, 0.0),
            v(0.0, 1.0, 0.0),
            v(1.0, 0.0, 0.0),
            v(1.0, 1.0, 0.0),
            v(0.0, 1.0, 0.0),
        ],
        vec![[0, 1, 2], [3, 4, 5]],
    )
}

#[test]
fn identical_vertices_weld() {
    let (welded, report) = weld(&soup(), d(EPS)).expect("welds");
    assert_eq!(report.vertices_before, 6);
    assert_eq!(report.vertices_after, 4);
    assert_eq!(report.triangles_collapsed, 0);
    assert_eq!(welded.triangle_count(), 2);
    let t0 = welded.triangles()[0];
    let t1 = welded.triangles()[1];
    let shared: Vec<u32> = t0.iter().filter(|v| t1.contains(v)).copied().collect();
    assert_eq!(shared.len(), 2, "the two triangles must share an edge");
}

#[test]
fn vertices_within_the_lattice_cell_weld() {
    let nudge = EPS * 0.1;
    let m = mesh_of(
        vec![v(0.0, 0.0, 0.0), v(1.0, 0.0, 0.0), v(0.0, 1.0, 0.0), v(nudge, nudge, nudge)],
        vec![[0, 1, 2], [3, 1, 2]],
    );
    let (welded, report) = weld(&m, d(EPS)).expect("welds");
    assert_eq!(report.vertices_after, 3);
    assert_eq!(welded.vertex_count(), 3);
}

#[test]
fn welding_is_independent_of_input_vertex_order() {
    let forward = soup();
    let reversed = {
        let mut points = forward.vertices().to_vec();
        points.reverse();
        let n = forward.vertex_count() - 1;
        let t: Vec<[u32; 3]> = forward
            .triangles()
            .iter()
            .map(|t| [n - t[0], n - t[1], n - t[2]])
            .collect();
        mesh_of(points, t)
    };

    let (a, _) = weld(&forward, d(EPS)).expect("welds");
    let (b, _) = weld(&reversed, d(EPS)).expect("welds");
    assert_eq!(
        a.vertices(),
        b.vertices(),
        "welded vertex order must be canonical"
    );
}

#[test]
fn output_vertices_are_in_ascending_lattice_order() {
    let m = mesh_of(
        vec![
            v(5.0, 0.0, 0.0),
            v(0.0, 0.0, 0.0),
            v(0.0, 0.0, 1.0),
        ],
        vec![[0, 1, 2]],
    );
    let (welded, _) = weld(&m, d(EPS)).expect("welds");
    let w = welded.vertices();
    assert_eq!(w[0], v(0.0, 0.0, 0.0));
    assert_eq!(w[1], v(0.0, 0.0, 1.0));
    assert_eq!(w[2], v(5.0, 0.0, 0.0));
}

#[test]
fn welding_is_idempotent() {
    let (once, _) = weld(&soup(), d(EPS)).expect("welds");
    let (twice, report) = weld(&once, d(EPS)).expect("welds");
    assert_eq!(digest(&once), digest(&twice));
    assert_eq!(report.vertices_before, report.vertices_after);
}

#[test]
fn the_lattice_boundary_limitation_is_real_and_characterised() {
    let boundary = EPS * 0.5;
    let below = boundary - EPS * 0.001;
    let above = boundary + EPS * 0.001;
    let m = mesh_of(
        vec![
            v(below, 0.0, 0.0),
            v(above, 0.0, 0.0),
            v(0.0, 1.0, 0.0),
        ],
        vec![[0, 1, 2]],
    );
    let (_, report) = weld(&m, d(EPS)).expect("welds");
    assert_eq!(
        report.vertices_after, 3,
        "straddling the cell wall, these do not weld; see the module docs"
    );

    let m2 = mesh_of(
        vec![
            v(EPS * 0.1, 0.0, 0.0),
            v(EPS * 0.101, 0.0, 0.0),
            v(0.0, 1.0, 0.0),
        ],
        vec![[0, 1, 2]],
    );
    let (_, report2) = weld(&m2, d(EPS)).expect("welds");
    assert_eq!(report2.vertices_after, 2);
}

#[test]
fn welded_vertices_land_on_the_lattice_not_the_centroid() {
    let m = mesh_of(
        vec![
            v(EPS * 0.1, 0.0, 0.0),
            v(EPS * 0.2, 0.0, 0.0),
            v(EPS * 0.3, 0.0, 0.0),
            v(0.0, 1.0, 0.0),
            v(0.0, 0.0, 1.0),
        ],
        vec![[0, 3, 4], [1, 3, 4], [2, 3, 4]],
    );
    let (welded, _) = weld(&m, d(EPS)).expect("welds");
    assert!(
        welded.vertices().contains(&v(0.0, 0.0, 0.0)),
        "the cluster must collapse to the lattice point (0,0,0), got {:?}",
        welded.vertices()
    );
}

#[test]
fn a_coarse_lattice_collapses_triangles_and_says_so() {
    let m = mesh_of(
        vec![v(0.0, 0.0, 0.0), v(0.5, 0.0, 0.0), v(0.0, 1.0, 0.0)],
        vec![[0, 1, 2]],
    );
    let (welded, report) = weld(&m, d(10.0)).expect("welds");
    assert_eq!(report.triangles_collapsed, 1);
    assert_eq!(
        welded.triangle_count(),
        1,
        "the collapsed triangle is kept so numbering is stable"
    );
    assert_eq!(welded.face_normal(0), None);
}

#[test]
fn an_already_degenerate_triangle_is_not_counted_as_collapsed() {
    let m = mesh_of(vec![v(0.0, 0.0, 0.0), v(1.0, 0.0, 0.0), v(0.0, 1.0, 0.0)], vec![[0, 1, 1]]);
    let (_, report) = weld(&m, d(EPS)).expect("welds");
    assert_eq!(report.triangles_collapsed, 0, "it was already degenerate");
}

#[test]
fn invalid_lattice_is_rejected() {
    let m = soup();
    for bad in [0.0, -1.0, f64::NAN, f64::INFINITY] {
        let err = weld(&m, d(bad)).expect_err("must reject");
        assert!(matches!(err, WeldError::InvalidLattice { .. }), "{bad}");
    }
}

#[test]
fn coordinates_that_do_not_fit_the_key_space_are_rejected() {
    let m = mesh_of(
        vec![v(1e30, 0.0, 0.0), v(1.0, 0.0, 0.0), v(0.0, 1.0, 0.0)],
        vec![[0, 1, 2]],
    );
    let err = weld(&m, d(EPS)).expect_err("must reject");
    match err {
        WeldError::CoordinateTooLarge { vertex, axis, .. } => {
            assert_eq!((vertex, axis), (0, 0));
        }
        other => panic!("wrong error: {other:?}"),
    }
    assert!(weld(&m, d(1e12)).is_ok());
}

#[test]
fn quantisation_handles_signed_zero_and_negatives() {
    assert_eq!(quantise(d(0.0), d(EPS)), Some(0));
    assert_eq!(quantise(d(-0.0), d(EPS)), Some(0));
    assert_eq!(quantise(d(EPS), d(EPS)), Some(1));
    assert_eq!(quantise(d(-EPS), d(EPS)), Some(-1));
    assert_eq!(quantise(d(f64::NAN), d(EPS)), None);
    assert_eq!(quantise(d(f64::INFINITY), d(EPS)), None);
    assert_eq!(dequantise(LatticeKey { x: 0, y: 0, z: 0 }, d(EPS)), v(0.0, 0.0, 0.0));
}

#[test]
fn a_cube_soup_welds_to_eight_vertices() {
    let cube = unit_cube();
    let mut soup_vertices = Vec::new();
    let mut soup_triangles = Vec::new();
    for i in 0..cube.triangle_count() {
        let [a, b, c] = cube.triangle(i);
        let base = soup_vertices.len() as u32;
        soup_vertices.extend_from_slice(&[a, b, c]);
        soup_triangles.push([base, base + 1, base + 2]);
    }
    let soup = mesh_of(soup_vertices, soup_triangles);
    assert_eq!(soup.vertex_count(), 36);

    let (welded, report) = weld(&soup, d(EPS)).expect("welds");
    assert_eq!(report.vertices_after, 8, "a cube has eight corners");
    assert_eq!(welded.triangle_count(), 12);
    assert_eq!(report.triangles_collapsed, 0);
    assert!((f(welded.signed_volume()) - 1.0).abs() < 1e-12);
}

#[test]
fn the_default_lattice_is_a_nanometre() {
    assert_eq!(f64::from_bits(EPS_WELD), EPS);
}

#[test]
fn a_weld_that_leaves_the_predicate_range_is_refused() {
    let m = mesh_of(vec![v(0.0, 0.0, 0.0), v(0.9e100, 0.0, 0.0)], vec![]);
    assert!(matches!(
        weld(&m, d(0.6e100)),
        Err(WeldError::Rebuild(MeshError::CoordinateOutOfRange { vertex: 1, axis: 0, .. }))
    ));
}

#[test]
fn lattice_points_snap_back_to_their_keys() {
    for lattice in [EPS, 0.1, 3.0, 1e-9, 7.3e-5] {
        for k in [0i64, 1, -1, 999, -123_456_789, (1 << 51) - 1, 1 - (1 << 51)] {
            let p = dequantise(LatticeKey { x: k, y: -k, z: 0 }, d(lattice));
            assert_eq!(quantise(p.x, d(lattice)), Some(k), "{lattice}");
            assert_eq!(quantise(p.y, d(lattice)), Some(-k), "{lattice}");
        }
    }
    let beyond = dequantise(LatticeKey { x: 4_378_605_124_704_419, y: 0, z: 0 }, d(EPS));
    assert_ne!(quantise(beyond.x, d(EPS)), Some(4_378_605_124_704_419));
}

#[test]
fn errors_say_what_was_wrong() {
    let e = weld(&unit_cube(), d(0.0)).expect_err("no spacing");
    assert_eq!(e.message("", "0"), "weld lattice must be a positive finite length, got 0");
    let e = WeldError::CoordinateTooLarge { vertex: 7, axis: 1, value: d(1e9), lattice: d(1e-12) };
    let said = e.message("1e9", "1e-12");
    assert!(said.starts_with("vertex 7 component y is 1e9, which does not fit the integer lattice at spacing 1e-12;"));
    let rebuilt = WeldError::Rebuild(MeshError::TooManyTriangles { count: 5 });
    assert_eq!(
        rebuilt.message("", ""),
        "welded mesh failed validation: 5 triangles exceeds the u32 index space"
    );
}

#[test]
fn rearranged_vertices_weld_to_the_same_mesh() {
    let m = soup();
    let n = m.vertices().len();
    let place = |i: u32| (n as u32) - 1 - i;
    let mut points = m.vertices().to_vec();
    points.reverse();
    let faces = m.triangles().iter().map(|t| [place(t[0]), place(t[1]), place(t[2])]).collect();
    let turned = TriMesh::new(points, faces, MeshMeta::synthetic()).expect("valid");
    let (a, first) = weld(&m, d(EPS)).expect("welds");
    let (b, second) = weld(&turned, d(EPS)).expect("welds");
    assert_eq!(a.vertices(), b.vertices());
    assert_eq!(a.triangles(), b.triangles());
    assert_eq!(first, second);
}
