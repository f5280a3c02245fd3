use chipbreaker_core::double::Double;
use chipbreaker_core::math::{Aabb3, Vec2, Vec3};
use chipbreaker_core::mesh::bvh::Bvh;
use chipbreaker_core::mesh::intersect::{self_intersections, triangles_intersect};
use chipbreaker_core::mesh::revolved::{cylinder, torus};
use chipbreaker_core::mesh::shapes::{box_solid, cube, icosphere, lattice_block};
use chipbreaker_core::mesh::validate::findings::FindingKind;
use chipbreaker_core::mesh::validate::{check_self_intersections, validate};
use chipbreaker_core::mesh::{MeshMeta, TriMesh};

fn d(x: f64) -> Double {
    Double::from_bits(x.to_bits())
}

fn v(x: f64, y: f64, z: f64) -> Vec3 {
    Vec3::new(d(x), d(y), d(z))
}

fn tri(a: [f64; 3], b: [f64; 3], c: [f64; 3]) -> [Vec3; 3] {
    [v(a[0], a[1], a[2]), v(b[0], b[1], b[2]), v(c[0], c[1], c[2])]
}

fn circle(segments: u32) -> Vec<Vec2> {
    (0..segments)
        .map(|i| {
            let a = std::f64::consts::TAU * f64::from(i) / f64::from(segments);
            Vec2::new(d(a.cos()), d(a.sin()))
        })
        .collect()
}

fn overlapping_cubes() -> TriMesh {
    let a = cube(d(10.0));
    let b = box_solid(v(5.0, 5.0, 5.0), v(15.0, 15.0, 15.0));
    let mut points = a.vertices().to_vec();
    let mut t = a.triangles().to_vec();
    let offset = points.len() as u32;
    points.extend_from_slice(b.vertices());
    t.extend(b.triangles().iter().map(|x| [x[0] + offset, x[1] + offset, x[2] + offset]));
    TriMesh::new(points, t, MeshMeta::synthetic()).expect("valid")
}

#[test]
fn two_triangles_that_cross_are_detected() {
    let flat = tri([0.0, 0.0, 0.0], [4.0, 0.0, 0.0], [0.0, 4.0, 0.0]);
    let upright = tri([1.0, 1.0, -2.0], [1.0, 1.0, 2.0], [2.0, 2.0, 0.0]);
    assert!(triangles_intersect(flat, upright));
    assert!(triangles_intersect(upright, flat), "the test is symmetric");
}

#[test]
fn separated_triangles_are_not_detected() {
    let a = tri([0.0, 0.0, 0.0], [1.0, 0.0, 0.0], [0.0, 1.0, 0.0]);
    let b = tri([0.0, 0.0, 5.0], [1.0, 0.0, 5.0], [0.0, 1.0, 5.0]);
    assert!(!triangles_intersect(a, b));
    let c = tri([10.0, 10.0, 0.0], [11.0, 10.0, 0.0], [10.0, 11.0, 0.0]);
    assert!(!triangles_intersect(a, c));
    let e = tri([9.0, 9.0, -1.0], [9.0, 9.0, 1.0], [10.0, 10.0, 0.0]);
    assert!(!triangles_intersect(a, e));
}

#[test]
fn coplanar_overlap_is_decided_exactly() {
    let a = tri([0.0, 0.0, 0.0], [4.0, 0.0, 0.0], [0.0, 4.0, 0.0]);
    let b = tri([1.0, 1.0, 0.0], [5.0, 1.0, 0.0], [1.0, 5.0, 0.0]);
    assert!(triangles_intersect(a, b));
    let c = tri([4.0, 0.0, 0.0], [8.0, 0.0, 0.0], [4.0, 4.0, 0.0]);
    assert!(triangles_intersect(a, c));
    let apart = tri([100.0, 0.0, 0.0], [104.0, 0.0, 0.0], [100.0, 4.0, 0.0]);
    assert!(!triangles_intersect(a, apart));
    let e = tri([1.0, 1.0, 0.0], [2.0, 1.0, 0.0], [1.0, 2.0, 0.0]);
    assert!(triangles_intersect(a, e));
}

#[test]
fn coplanar_detection_works_in_every_orientation() {
    for axis in 0..3 {
        let permute = |v: [f64; 3]| match axis {
            0 => [v[2], v[0], v[1]],
            1 => [v[1], v[2], v[0]],
            _ => v,
        };
        let a = tri(permute([0.0, 0.0, 0.0]), permute([4.0, 0.0, 0.0]), permute([0.0, 4.0, 0.0]));
        let b = tri(permute([1.0, 1.0, 0.0]), permute([5.0, 1.0, 0.0]), permute([1.0, 5.0, 0.0]));
        assert!(triangles_intersect(a, b), "axis {axis}");
    }
}

#[test]
fn touching_at_a_point_counts_as_intersection() {
    let a = tri([0.0, 0.0, 0.0], [4.0, 0.0, 0.0], [0.0, 4.0, 0.0]);
    let b = tri([1.0, 1.0, 0.0], [3.0, 3.0, 3.0], [0.0, 3.0, 3.0]);
    assert!(triangles_intersect(a, b), "vertex resting on a face");
}

#[test]
fn a_closed_solid_has_no_self_intersections() {
    for (label, mesh) in [
        ("cube", cube(d(10.0))),
        ("sphere", icosphere(d(5.0), 2).expect("a sphere")),
        ("cylinder", cylinder(d(4.0), d(9.0), &circle(32)).expect("a cylinder")),
        ("torus", torus(d(6.0), d(2.0), &circle(24), &circle(12)).expect("a torus")),
        ("lattice", lattice_block(3)),
    ] {
        let bvh = Bvh::build(&mesh);
        let found = self_intersections(&mesh, &bvh);
        assert!(found.is_empty(), "{label}: {found:?}");
    }
}

#[test]
fn an_interpenetrating_pair_is_found() {
    let mesh = overlapping_cubes();
    let bvh = Bvh::build(&mesh);
    let found = self_intersections(&mesh, &bvh);
    assert!(!found.is_empty(), "overlapping cubes must self-intersect");
    for p in &found {
        assert!(p.first < 12 && p.second >= 12, "pair {p:?} is within one cube");
    }
}

#[test]
fn adjacent_triangles_are_never_reported() {
    let mesh = TriMesh::new(
        vec![v(0.0, 0.0, 0.0), v(1.0, 0.0, 0.0), v(0.0, 1.0, 0.0), v(1.0, 1.0, 0.0)],
        vec![[0, 1, 2], [1, 3, 2]],
        MeshMeta::synthetic(),
    )
    .expect("valid");
    let bvh = Bvh::build(&mesh);
    assert!(self_intersections(&mesh, &bvh).is_empty());
}

#[test]
fn degenerate_triangles_are_skipped() {
    let mesh = TriMesh::new(
        vec![
            v(0.0, 0.0, 0.0),
            v(4.0, 0.0, 0.0),
            v(0.0, 4.0, 0.0),
            v(1.0, 1.0, 0.0),
            v(2.0, 2.0, 0.0),
        ],
        vec![[0, 1, 2], [3, 4, 4]],
        MeshMeta::synthetic(),
    )
    .expect("valid");
    let bvh = Bvh::build(&mesh);
    assert!(self_intersections(&mesh, &bvh).is_empty());
}

#[test]
fn results_are_sorted_and_reproducible() {
    let mesh = overlapping_cubes();
    let bvh = Bvh::build(&mesh);
    let first: Vec<(u32, u32)> = self_intersections(&mesh, &bvh).iter().map(|p| (p.first, p.second)).collect();
    let second: Vec<(u32, u32)> = self_intersections(&mesh, &bvh).iter().map(|p| (p.first, p.second)).collect();
    assert_eq!(first, second);
    let mut sorted = first.clone();
    sorted.sort_unstable();
    assert_eq!(first, sorted, "pairs must come out sorted");
    for (i, j) in &first {
        assert!(i < j, "pairs must be ordered within themselves");
    }
}

#[test]
fn query_aabb_finds_every_overlapping_triangle() {
    let mesh = icosphere(d(5.0), 2).expect("a sphere");
    let bvh = Bvh::build(&mesh);
    let mut out = Vec::new();
    for i in 0..mesh.triangle_count() {
        let bounds = Aabb3::from_points(&mesh.triangle(i));
        bvh.query_aabb(&bounds, &mut out);
        assert!(out.contains(&i), "triangle {i} did not find itself");
        for j in 0..mesh.triangle_count() {
            if Aabb3::from_points(&mesh.triangle(j)).intersects(&bounds) {
                assert!(out.contains(&j), "query missed {j} overlapping {i}");
            }
        }
    }
    bvh.query_aabb(&Aabb3::nothing(), &mut out);
    assert!(out.is_empty());
}

#[test]
fn clashes_become_findings() {
    let mesh = overlapping_cubes();
    let mut report = validate(&mesh);
    assert!(!report.self_intersection_checked);
    check_self_intersections(&mesh, &mut report);
    assert!(report.self_intersection_checked);
    let bvh = Bvh::build(&mesh);
    assert_eq!(
        report.count_of(FindingKind::SelfIntersection),
        self_intersections(&mesh, &bvh).len()
    );
}

#[test]
fn a_second_check_adds_the_clashes_again() {
    let mesh = overlapping_cubes();
    let mut report = validate(&mesh);
    check_self_intersections(&mesh, &mut report);
    let once = report.count_of(FindingKind::SelfIntersection);
    check_self_intersections(&mesh, &mut report);
    assert_eq!(report.count_of(FindingKind::SelfIntersection), 2 * once);
    for pair in report.findings.windows(2) {
        assert!(pair[0].kind <= pair[1].kind);
    }
}

#[test]
fn triangles_of_one_plane_are_tested_alike_both_ways() {
    let a = tri([0.0, 0.0, 0.0], [4.0, 0.0, 4.0], [0.0, 4.0, 4.0]);
    let b = tri([2.0, 2.0, 4.0], [6.0, 2.0, 8.0], [2.0, 6.0, 8.0]);
    let far = tri([10.0, 10.0, 20.0], [14.0, 10.0, 24.0], [10.0, 14.0, 24.0]);
    let star = tri([3.0, 3.0, 6.0], [-2.0, 1.0, -1.0], [1.0, -2.0, -1.0]);
    for (other, expected) in [(b, true), (far, false), (star, true)] {
        assert_eq!(triangles_intersect(a, other), expected);
        assert_eq!(triangles_intersect(other, a), expected);
    }
}

#[test]
fn every_overlap_in_one_plane_is_found() {
    let points = vec![
        [0.0, 0.0, 0.0], [4.0, 0.0, 0.0], [0.0, 4.0, 0.0],
        [1.0, 1.0, 0.0], [5.0, 1.0, 0.0], [1.0, 5.0, 0.0],
        [20.0, 0.0, 0.0], [24.0, 0.0, 0.0], [20.0, 4.0, 0.0],
        [2.0, 0.5, 0.0], [2.5, 9.0, 0.0], [1.5, 9.0, 0.0],
    ];
    let vertices = points.iter().map(|p: &[f64; 3]| v(p[0], p[1], p[2])).collect();
    let mesh = TriMesh::new(vertices, vec![[0, 1, 2], [3, 4, 5], [6, 7, 8], [9, 10, 11]], MeshMeta::synthetic()).expect("valid");
    let found: Vec<(u32, u32)> = self_intersections(&mesh, &Bvh::build(&mesh)).iter().map(|p| (p.first, p.second)).collect();
    assert_eq!(found, [(0, 1), (0, 3), (1, 3)]);
}
