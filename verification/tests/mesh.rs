use chipbreaker_core::canonical::digest;
use chipbreaker_core::double::Double;
use chipbreaker_core::math::{Aabb3, Vec3};
use chipbreaker_core::mesh::units::Unit;
use chipbreaker_core::mesh::{MeshError, MeshMeta, TriMesh};
use chipbreaker_core::predicates::orient3d_range;

fn d(x: f64) -> Double {
    Double::from_bits(x.to_bits())
}

fn f(x: Double) -> f64 {
    f64::from_bits(x.to_bits())
}

fn v(x: f64, y: f64, z: f64) -> Vec3 {
    Vec3::new(d(x), d(y), d(z))
}

fn unit_cube() -> TriMesh {
    let points = vec![
        v(0.0, 0.0, 0.0),
        v(1.0, 0.0, 0.0),
        v(1.0, 1.0, 0.0),
        v(0.0, 1.0, 0.0),
        v(0.0, 0.0, 1.0),
        v(1.0, 0.0, 1.0),
        v(1.0, 1.0, 1.0),
        v(0.0, 1.0, 1.0),
    ];
    let faces = vec![
        [0, 2, 1],
        [0, 3, 2],
        [4, 5, 6],
        [4, 6, 7],
        [0, 1, 5],
        [0, 5, 4],
        [2, 3, 7],
        [2, 7, 6],
        [0, 4, 7],
        [0, 7, 3],
        [1, 2, 6],
        [1, 6, 5],
    ];
    TriMesh::new(points, faces, MeshMeta::synthetic()).expect("valid cube")
}

#[test]
fn cube_has_the_right_measurements() {
    let m = unit_cube();
    assert_eq!(m.vertex_count(), 8);
    assert_eq!(m.triangle_count(), 12);
    assert!(!m.is_empty());
    assert_eq!(m.bounds(), Aabb3::new(v(0.0, 0.0, 0.0), v(1.0, 1.0, 1.0)));
    assert_eq!(f(m.signed_volume()), 1.0, "unit cube encloses exactly 1");
    assert_eq!(f(m.surface_area()), 6.0, "six unit faces");
}

#[test]
fn face_normals_are_computed_and_point_outward() {
    let m = unit_cube();
    assert_eq!(m.face_normal(0), Some(v(0.0, 0.0, -1.0)));
    assert_eq!(m.face_normal(2), Some(v(0.0, 0.0, 1.0)));
    assert_eq!(m.face_normal(4), Some(v(0.0, -1.0, 0.0)));
    assert_eq!(m.face_normal(10), Some(v(1.0, 0.0, 0.0)));
    for i in 0..m.triangle_count() {
        let n = m.face_normal(i).expect("non-degenerate");
        assert!((f(n.length()) - 1.0).abs() < 1e-15);
    }
}

#[test]
fn inverted_winding_gives_negative_volume() {
    let m = unit_cube();
    let flipped: Vec<[u32; 3]> = m.triangles().iter().map(|t| [t[0], t[2], t[1]]).collect();
    let inverted = TriMesh::new(m.vertices().to_vec(), flipped, MeshMeta::synthetic())
        .expect("still a valid mesh, just inside out");
    assert_eq!(f(inverted.signed_volume()), -1.0);
    assert_eq!(f(inverted.surface_area()), 6.0, "area is unsigned");
}

#[test]
fn degenerate_triangles_load_rather_than_erroring() {
    let points = vec![v(0.0, 0.0, 0.0), v(1.0, 0.0, 0.0), v(0.0, 1.0, 0.0)];
    let repeated = TriMesh::new(points, vec![[0, 1, 1]], MeshMeta::synthetic())
        .expect("a repeated index must load");
    assert_eq!(repeated.face_normal(0), None);
    assert_eq!(f(repeated.double_area(0)), 0.0);

    let collinear = TriMesh::new(
        vec![v(0.0, 0.0, 0.0), v(1.0, 0.0, 0.0), v(2.0, 0.0, 0.0)],
        vec![[0, 1, 2]],
        MeshMeta::synthetic(),
    )
    .expect("collinear vertices must load");
    assert_eq!(collinear.face_normal(0), None);
}

#[test]
fn non_finite_coordinates_are_rejected_with_the_offending_vertex() {
    for (axis, bad) in [
        (0, v(f64::NAN, 0.0, 0.0)),
        (1, v(0.0, f64::INFINITY, 0.0)),
        (2, v(0.0, 0.0, f64::NEG_INFINITY)),
    ] {
        let err = TriMesh::new(vec![v(0.0, 0.0, 0.0), bad], vec![], MeshMeta::synthetic())
            .expect_err("must reject");
        match err {
            MeshError::NonFiniteCoordinate {
                vertex, axis: a, ..
            } => {
                assert_eq!(vertex, 1);
                assert_eq!(a, axis);
            }
            other => panic!("wrong error: {other:?}"),
        }
        assert!(err.message().contains("vertex 1"));
        assert!(err.message().ends_with("so it is stopped at the boundary"));
    }
}

#[test]
fn coordinates_outside_the_predicate_range_are_rejected() {
    let too_big = v(f(orient3d_range().max) * 10.0, 0.0, 0.0);
    let err = TriMesh::new(vec![too_big], vec![], MeshMeta::synthetic()).expect_err("reject");
    assert!(matches!(
        err,
        MeshError::CoordinateOutOfRange {
            vertex: 0,
            axis: 0,
            ..
        }
    ));
    assert!(err.message().contains("orient3d"));

    let too_small = v(0.0, f(orient3d_range().min) / 10.0, 0.0);
    let err = TriMesh::new(vec![too_small], vec![], MeshMeta::synthetic()).expect_err("reject");
    assert!(matches!(
        err,
        MeshError::CoordinateOutOfRange { axis: 1, .. }
    ));

    TriMesh::new(
        vec![v(0.0, 0.0, 0.0), v(150.0, 150.0, 150.0)],
        vec![],
        MeshMeta::synthetic(),
    )
    .expect("ordinary coordinates must load");
}

#[test]
fn out_of_range_indices_are_rejected() {
    let err = TriMesh::new(
        vec![v(0.0, 0.0, 0.0), v(1.0, 0.0, 0.0), v(0.0, 1.0, 0.0)],
        vec![[0, 1, 2], [0, 1, 3]],
        MeshMeta::synthetic(),
    )
    .expect_err("must reject");
    match err {
        MeshError::IndexOutOfRange {
            triangle,
            index,
            vertex_count,
        } => {
            assert_eq!((triangle, index, vertex_count), (1, 3, 3));
        }
        other => panic!("wrong error: {other:?}"),
    }
}

#[test]
fn centroid_is_the_mean_and_does_not_overflow() {
    let m = unit_cube();
    let [a, b, c] = m.triangle(0);
    let expected = v(
        (f(a.x) + f(b.x) + f(c.x)) / 3.0,
        (f(a.y) + f(b.y) + f(c.y)) / 3.0,
        (f(a.z) + f(b.z) + f(c.z)) / 3.0,
    );
    let got = m.centroid(0);
    assert!(f(got.minus(expected).length()) < 1e-15);

    let huge = f64::MAX / 2.0;
    let big = TriMesh::new(
        vec![v(huge, huge, huge), v(huge, huge, huge), v(huge, huge, huge)],
        vec![[0, 1, 2]],
        MeshMeta::synthetic(),
    );
    assert!(big.is_err());
}

#[test]
fn empty_mesh_is_representable() {
    let m = TriMesh::new(Vec::new(), Vec::new(), MeshMeta::synthetic()).expect("valid");
    assert!(m.is_empty());
    assert_eq!(m.triangle_count(), 0);
    assert_eq!(f(m.signed_volume()), 0.0);
    assert_eq!(f(m.surface_area()), 0.0);
    assert_eq!(m.bounds(), Aabb3::nothing());
}

#[test]
fn meta_reports_the_scale_that_was_applied() {
    let mut meta = MeshMeta::synthetic();
    meta.source_unit = Unit::Inch;
    assert_eq!(f(meta.scale_applied()), 25.4);
    assert_eq!(f(MeshMeta::synthetic().scale_applied()), 1.0);
}

#[test]
fn hashing_covers_geometry_topology_and_units() {
    let m = unit_cube();
    assert_eq!(digest(&m), digest(&unit_cube()));

    let mut moved = m.vertices().to_vec();
    moved[0] = v(0.5, 0.0, 0.0);
    let m2 = TriMesh::new(moved, m.triangles().to_vec(), MeshMeta::synthetic()).expect("valid");
    assert_ne!(digest(&m), digest(&m2));

    let rewound: Vec<[u32; 3]> = m.triangles().iter().map(|t| [t[0], t[2], t[1]]).collect();
    let m3 = TriMesh::new(m.vertices().to_vec(), rewound, MeshMeta::synthetic()).expect("valid");
    assert_ne!(digest(&m), digest(&m3));

    let mut meta = MeshMeta::synthetic();
    meta.source_unit = Unit::Inch;
    let m4 = TriMesh::new(m.vertices().to_vec(), m.triangles().to_vec(), meta).expect("valid");
    assert_ne!(digest(&m), digest(&m4));
}

#[test]
fn metadata_can_be_replaced() {
    let mut m = unit_cube();
    let before = m.vertices().to_vec();
    let mut meta = MeshMeta::synthetic();
    meta.source_unit = Unit::Inch;
    meta.ignored_records = 3;
    m.set_meta(meta);
    assert_eq!(m.meta().source_unit, Unit::Inch);
    assert_eq!(m.meta().ignored_records, 3);
    assert_eq!(m.vertices(), before.as_slice());
}

#[test]
fn errors_tell_their_figures_and_where_they_stand() {
    let too_big = v(f(orient3d_range().max) * 10.0, 0.0, 0.0);
    let err = TriMesh::new(vec![too_big], vec![], MeshMeta::synthetic()).expect_err("reject");
    assert!(err
        .message_with("1e99", "1e-60", "1e60")
        .starts_with("vertex 0 has x = 1e99, outside the range [1e-60, 1e60] in which orient3d is exact; "));
    let nan = MeshError::NonFiniteCoordinate {
        vertex: 7,
        axis: 2,
        value: d(f64::NAN),
        location: Some(String::from("line 12")),
    };
    assert!(nan.message().starts_with("vertex 7 has a non-finite z coordinate (NaN) at line 12; a NaN or infinity"));
    assert_eq!(nan.message_with("a", "b", "c"), nan.message());
}
