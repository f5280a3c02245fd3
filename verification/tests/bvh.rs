use chipbreaker_core::double::Double;
use chipbreaker_core::math::{Aabb3, Ray, Vec3};
use chipbreaker_core::mesh::bvh::casting::{slab_test, Hit, RayError};
use chipbreaker_core::mesh::bvh::simplicity::sos_edge_function;
use chipbreaker_core::mesh::bvh::tree::pad;
use chipbreaker_core::mesh::bvh::{Bvh, RayStats};
use chipbreaker_core::mesh::{MeshMeta, TriMesh};
use chipbreaker_core::predicates::{orient3d, orient3d_range, Orientation};
use rand::rngs::StdRng;
use rand::{Rng, SeedableRng};

fn d(x: f64) -> Double {
    Double::from_bits(x.to_bits())
}

fn f(x: Double) -> f64 {
    f64::from_bits(x.to_bits())
}

fn v(x: f64, y: f64, z: f64) -> Vec3 {
    Vec3::new(d(x), d(y), d(z))
}

fn unit_cube() -> TriMesh {
    let points = vec![
        v(0.0, 0.0, 0.0),
        v(1.0, 0.0, 0.0),
        v(1.0, 1.0, 0.0),
        v(0.0, 1.0, 0.0),
        v(0.0, 0.0, 1.0),
        v(1.0, 0.0, 1.0),
        v(1.0, 1.0, 1.0),
        v(0.0, 1.0, 1.0),
    ];
    let faces = vec![
        [0, 2, 1],
        [0, 3, 2],
        [4, 5, 6],
        [4, 6, 7],
        [0, 1, 5],
        [0, 5, 4],
        [2, 3, 7],
        [2, 7, 6],
        [0, 4, 7],
        [0, 7, 3],
        [1, 2, 6],
        [1, 6, 5],
    ];
    TriMesh::new(points, faces, MeshMeta::synthetic()).expect("valid cube")
}

fn ray(origin: Vec3, direction: Vec3) -> Ray {
    Ray { origin, direction }
}

fn up() -> Vec3 {
    v(0.0, 0.0, 1.0)
}

#[test]
fn a_ray_through_the_middle_of_a_cube_crosses_twice() {
    let m = unit_cube();
    let bvh = Bvh::build(&m);
    let (hits, _) = bvh.intersect_ray_all(&m, &ray(v(0.5, 0.5, -1.0), up())).expect("valid ray");
    assert_eq!(hits.len(), 2, "in and out: {hits:?}");
    assert!((f(hits[0].t) - 1.0).abs() < 1e-15);
    assert!((f(hits[1].t) - 2.0).abs() < 1e-15);
}

#[test]
fn cube_crossings_alternate_enter_then_exit() {
    let m = unit_cube();
    let bvh = Bvh::build(&m);
    let (hits, _) = bvh.intersect_ray_all(&m, &ray(v(0.5, 0.5, -1.0), up())).expect("valid ray");
    assert!(hits[0].entering, "the first crossing must enter material");
    assert!(!hits[1].entering, "the second must leave it");
}

#[test]
fn entering_agrees_with_the_face_normal() {
    let m = unit_cube();
    let bvh = Bvh::build(&m);
    for origin in [v(0.3, 0.7, -2.0), v(0.6, 0.2, -2.0), v(-2.0, 0.4, 0.8)] {
        let dir = v(0.5, 0.5, 0.5).minus(origin).normalize().expect("non-zero");
        let (hits, _) = bvh.intersect_ray_all(&m, &ray(origin, dir)).expect("valid ray");
        assert!(!hits.is_empty());
        for h in &hits {
            let n = m.face_normal(h.triangle).expect("non-degenerate");
            let facing = f(dir.dot(n));
            assert!(facing.abs() > 1e-9, "not a grazing configuration");
            assert_eq!(h.entering, facing < 0.0, "entering disagrees with the normal for {h:?}");
        }
    }
}

#[test]
fn nearest_hit_ignores_crossings_behind_the_origin() {
    let m = unit_cube();
    let bvh = Bvh::build(&m);
    let hit = bvh
        .intersect_ray(&m, &ray(v(0.5, 0.5, 0.5), up()))
        .expect("valid ray")
        .expect("must hit the far face");
    assert!(f(hit.t) > 0.0);
    assert!((f(hit.t) - 0.5).abs() < 1e-15);
}

#[test]
fn a_ray_that_misses_reports_nothing() {
    let m = unit_cube();
    let bvh = Bvh::build(&m);
    let (hits, _) = bvh.intersect_ray_all(&m, &ray(v(5.0, 5.0, -1.0), up())).expect("valid ray");
    assert!(hits.is_empty());
}

#[test]
fn hits_come_back_sorted_by_t() {
    let outer = unit_cube();
    let mut points: Vec<Vec3> = outer.vertices().iter().map(|p| p.times(d(10.0))).collect();
    let mut t = outer.triangles().to_vec();
    let off = points.len() as u32;
    points.extend(outer.vertices().iter().map(|p| p.times(d(2.0)).plus(v(4.0, 4.0, 4.0))));
    t.extend(outer.triangles().iter().map(|x| [x[0] + off, x[1] + off, x[2] + off]));
    let m = TriMesh::new(points, t, MeshMeta::synthetic()).expect("valid");
    let bvh = Bvh::build(&m);
    let (hits, _) = bvh.intersect_ray_all(&m, &ray(v(5.0, 5.0, -1.0), up())).expect("valid ray");
    assert_eq!(hits.len(), 4);
    for w in hits.windows(2) {
        assert!(f(w[0].t) <= f(w[1].t), "not sorted: {hits:?}");
    }
    let entering: Vec<bool> = hits.iter().map(|h| h.entering).collect();
    assert_eq!(entering, vec![true, true, false, false], "{hits:?}");
    let mut depth = 0i32;
    for h in &hits {
        depth += if h.entering { 1 } else { -1 };
        assert!(depth >= 0, "depth went negative at {h:?}");
    }
    assert_eq!(depth, 0, "the ray must leave everything it entered");
}

#[test]
fn the_scratch_buffer_form_agrees_and_clears() {
    let m = unit_cube();
    let bvh = Bvh::build(&m);
    let r = ray(v(0.5, 0.5, -1.0), up());
    let mut scratch = vec![Hit { t: d(99.0), triangle: 999, entering: false }];
    bvh.intersect_ray_all_into(&m, &r, &mut scratch).expect("valid");
    let (expected, _) = bvh.intersect_ray_all(&m, &r).expect("valid");
    assert_eq!(scratch, expected);
    bvh.intersect_ray_all_into(&m, &ray(v(50.0, 50.0, 50.0), up()), &mut scratch).expect("valid");
    assert!(scratch.is_empty());
}

#[test]
fn degenerate_and_out_of_range_rays_are_rejected() {
    let m = unit_cube();
    let bvh = Bvh::build(&m);
    let zero = v(0.0, 0.0, 0.0);
    assert!(matches!(
        bvh.intersect_ray_all(&m, &ray(zero, zero)),
        Err(RayError::DegenerateDirection { .. })
    ));
    assert!(matches!(
        bvh.intersect_ray_all(&m, &ray(zero, v(f64::NAN, 0.0, 1.0))),
        Err(RayError::DegenerateDirection { .. })
    ));
    let far = v(f(orient3d_range().max) * 10.0, 0.0, 0.0);
    assert!(matches!(
        bvh.intersect_ray_all(&m, &ray(far, up())),
        Err(RayError::OutOfRange { what: "origin", .. })
    ));
}

#[test]
fn an_out_of_range_direction_is_named() {
    let m = unit_cube();
    let bvh = Bvh::build(&m);
    let steep = v(0.0, 0.0, f(orient3d_range().max) * 10.0);
    let mut kept = vec![Hit { t: d(1.5), triangle: 3, entering: true }];
    assert_eq!(
        bvh.intersect_ray_all_into(&m, &ray(v(0.0, 0.0, 0.0), steep), &mut kept),
        Err(RayError::OutOfRange { what: "direction", value: steep.z })
    );
    assert_eq!(kept.len(), 1, "a refused ray leaves the buffer alone");
}

#[test]
fn sos_is_antisymmetric_which_is_what_makes_shared_edges_consistent() {
    let o = v(0.5, 0.5, -1.0);
    let p = o.plus(up());
    let cases = [
        (v(0.0, 0.0, 0.0), 0u32, v(1.0, 0.0, 0.0), 1u32),
        (v(0.5, 0.0, 0.0), 3, v(0.5, 1.0, 0.0), 7),
        (v(0.5, 0.5, 0.0), 2, v(1.0, 0.0, 0.0), 5),
        (v(1.0, 0.0, 0.0), 9, v(0.5, 0.5, 4.0), 4),
        (v(0.5, 0.5, 0.0), 6, v(0.5, 0.5, 1.0), 8),
    ];
    for (vi, i, vj, j) in cases {
        let mut n = 0;
        let forward = sos_edge_function(o, p, vi, i, vj, j, &mut n);
        let backward = sos_edge_function(o, p, vj, j, vi, i, &mut n);
        assert_ne!(forward, Orientation::Zero, "SoS must never return zero");
        assert_eq!(forward, backward.reverse(), "antisymmetry failed for {vi:?}#{i} -> {vj:?}#{j}");
    }
}

#[test]
fn fast_and_exact_paths_agree_in_sign() {
    let mut rng = StdRng::seed_from_u64(0x0000_C41B_0000_0100);
    let mut checked = 0u32;
    for _ in 0..2_000 {
        let mut pt = || {
            v(
                rng.random_range(-2.0..2.0),
                rng.random_range(-2.0..2.0),
                rng.random_range(-2.0..2.0),
            )
        };
        let (o, p, vi, vj) = (pt(), pt(), pt(), pt());
        let r1 = o.minus(vj);
        let r2 = p.minus(vj);
        let r3 = vi.minus(vj);
        let approx = f(r1.dot(r2.cross(r3)));
        let exact = orient3d(o, p, vi, vj);
        let most = |a: Vec3| f(a.x).abs().max(f(a.y).abs()).max(f(a.z).abs());
        let scale = most(r1) * most(r2) * most(r3);
        if approx.abs() > scale * 1e-9 {
            let approx_positive = approx > 0.0;
            assert_eq!(
                approx_positive,
                exact == Orientation::Positive,
                "fast path and orient3d disagree in sign for {o:?} {p:?} {vi:?} {vj:?}"
            );
            checked += 1;
        }
    }
    assert!(checked > 1_000, "only {checked} unambiguous cases");
}

#[test]
fn sos_fires_only_when_the_exact_predicate_is_degenerate() {
    let o = v(0.5, 0.5, -1.0);
    let p = o.plus(up());
    let mut n = 0;
    sos_edge_function(o, p, v(0.0, 0.0, 0.0), 0, v(1.0, 0.0, 0.0), 1, &mut n);
    assert_eq!(n, 0);
    sos_edge_function(o, p, v(0.5, 0.0, 0.0), 0, v(0.5, 1.0, 0.0), 1, &mut n);
    assert_eq!(n, 1);
}

#[test]
fn a_ray_exactly_through_a_shared_edge_crosses_once_not_twice() {
    let m = unit_cube();
    let bvh = Bvh::build(&m);
    let (hits, stats) = bvh.intersect_ray_all(&m, &ray(v(0.25, 0.25, -1.0), up())).expect("valid ray");
    assert_eq!(hits.len() % 2, 0, "odd crossing count means a leak: {hits:?}");
    assert_eq!(hits.len(), 2, "{hits:?}");
    assert!(stats.exact_path > 0, "this configuration must exercise the exact path");
}

#[test]
fn a_ray_exactly_through_a_vertex_crosses_evenly() {
    let m = unit_cube();
    let bvh = Bvh::build(&m);
    let (hits, _) = bvh.intersect_ray_all(&m, &ray(v(0.0, 0.0, -1.0), up())).expect("valid ray");
    assert_eq!(hits.len() % 2, 0, "odd crossing count at a vertex: {hits:?}");
}

#[test]
fn the_tree_covers_every_triangle_exactly_once() {
    let m = unit_cube();
    let bvh = Bvh::build(&m);
    let mut seen: Vec<u32> = bvh.order().to_vec();
    seen.sort_unstable();
    assert_eq!(seen, (0..m.triangle_count()).collect::<Vec<_>>());
    let leaf_total: u32 = bvh.nodes().iter().filter(|n| n.is_leaf()).map(|n| n.count).sum();
    assert_eq!(leaf_total, m.triangle_count());
}

#[test]
fn node_bounds_contain_their_children() {
    let m = unit_cube();
    let bvh = Bvh::build(&m);
    for node in bvh.nodes() {
        if !node.is_leaf() {
            let l = bvh.nodes()[node.first_or_left as usize].bounds;
            let r = bvh.nodes()[node.first_or_left as usize + 1].bounds;
            assert!(node.bounds.contains_aabb(&l));
            assert!(node.bounds.contains_aabb(&r));
        }
    }
    assert!(bvh.bounds().contains_aabb(&m.bounds()));
}

#[test]
fn tree_shape_is_a_pure_function_of_the_mesh() {
    let m = unit_cube();
    let a = Bvh::build(&m);
    let b = Bvh::build(&m);
    assert_eq!(a, b);
    assert_eq!(a.topology_digest(), b.topology_digest());
    let mut points = m.vertices().to_vec();
    points[0] = v(-1.0, 0.0, 0.0);
    let m2 = TriMesh::new(points, m.triangles().to_vec(), MeshMeta::synthetic()).expect("valid");
    assert_ne!(a.topology_digest(), Bvh::build(&m2).topology_digest());
}

#[test]
fn an_empty_mesh_builds_a_usable_empty_tree() {
    let m = TriMesh::new(Vec::new(), Vec::new(), MeshMeta::synthetic()).expect("valid");
    let bvh = Bvh::build(&m);
    let (hits, _) = bvh.intersect_ray_all(&m, &ray(v(0.0, 0.0, 0.0), up())).expect("valid ray");
    assert!(hits.is_empty());
    assert!(bvh.is_empty());
    assert_eq!(bvh.max_depth(), 0, "no nodes means no depth");
    assert_eq!(bvh.leaf_count(), 0);
    assert_eq!(bvh.bounds(), Aabb3::nothing());
}

#[test]
fn every_leaf_owns_at_least_one_triangle() {
    let m = unit_cube();
    let bvh = Bvh::build(&m);
    for (i, node) in bvh.nodes().iter().enumerate() {
        if node.is_leaf() {
            assert!(node.count > 0, "node {i} is a leaf with no triangles");
        } else {
            assert!((node.first_or_left as usize) != i, "node {i} is its own child");
            assert!((node.first_or_left as usize + 1) < bvh.nodes().len());
        }
    }
}

#[test]
fn the_slab_test_never_culls_a_box_the_ray_enters() {
    let b = Aabb3::new(v(0.0, 0.0, 0.0), v(1.0, 1.0, 1.0));
    let inv = |a: Vec3| v(1.0 / f(a.x), 1.0 / f(a.y), 1.0 / f(a.z));
    assert!(slab_test(&b, v(0.5, 0.5, -1.0), up(), inv(up())));
    assert!(slab_test(&b, v(0.5, 0.0, -1.0), up(), inv(up())));
    assert!(slab_test(&b, v(0.0, 0.0, -1.0), up(), inv(up())));
    assert!(!slab_test(&b, v(2.0, 0.5, -1.0), up(), inv(up())));
    assert!(!slab_test(&b, v(0.5, 2.0, -1.0), up(), inv(up())));
    assert!(!slab_test(&Aabb3::nothing(), v(0.0, 0.0, 0.0), up(), inv(up())));
    let down = up().negate();
    assert!(slab_test(&b, v(0.5, 0.5, -1.0), down, inv(down)));
}

#[test]
fn bounds_are_padded_outward_only() {
    let b = Aabb3::new(v(0.0, 0.0, 0.0), v(1.0, 1.0, 1.0));
    let p = pad(b);
    assert!(p.contains_aabb(&b), "padding must never shrink a bound");
    assert!(f(p.min.x) < 0.0 && f(p.max.x) > 1.0);
    assert_eq!(pad(Aabb3::nothing()), Aabb3::nothing());
}

#[test]
fn stats_count_what_they_claim_to() {
    let m = unit_cube();
    let bvh = Bvh::build(&m);
    let (_, stats) = bvh.intersect_ray_all(&m, &ray(v(0.5, 0.5, -1.0), up())).expect("valid ray");
    assert!(stats.nodes_visited > 0);
    assert!(stats.triangle_tests > 0);
    assert_eq!(stats.fast_path + stats.exact_path, stats.triangle_tests);
    assert!(f(stats.exact_fraction()) >= 0.0 && f(stats.exact_fraction()) <= 1.0);

    let mut merged = RayStats::default();
    merged.merge(&stats);
    merged.merge(&stats);
    assert_eq!(merged.triangle_tests, stats.triangle_tests * 2);
    assert_eq!(f(RayStats::default().exact_fraction()), 0.0);
}

#[test]
fn half_of_the_hits_enter_also_through_edges_and_vertices() {
    let m = unit_cube();
    let bvh = Bvh::build(&m);
    for (origin, dir) in [
        (v(0.5, 0.5, -1.0), up()),
        (v(-1.0, -1.0, -1.0), v(1.0, 1.0, 1.0)),
        (v(0.25, 0.25, -1.0), up()),
        (v(0.5, -1.0, 0.5), v(0.0, 1.0, 0.0)),
        (v(-1.0, 0.25, 0.25), v(1.0, 0.0, 0.0)),
    ] {
        let (hits, stats) = bvh.intersect_ray_all(&m, &ray(origin, dir)).expect("valid ray");
        assert_eq!(stats.coplanar_rejected, 0);
        assert!(!hits.is_empty());
        assert_eq!(hits.len(), 2 * hits.iter().filter(|h| h.entering).count(), "{origin:?}");
    }
}

#[test]
fn leaves_part_the_order_among_them() {
    let m = unit_cube();
    let bvh = Bvh::build(&m);
    let mut seen = vec![0; bvh.order().len()];
    for (i, node) in bvh.nodes().iter().enumerate() {
        if node.is_leaf() {
            assert!((1..=4).contains(&node.count));
            for k in node.first_or_left..node.first_or_left + node.count {
                seen[k as usize] += 1;
            }
        } else {
            assert!(node.first_or_left as usize > i && (node.first_or_left as usize) + 1 < bvh.nodes().len());
        }
    }
    assert_eq!(seen, vec![1; 12]);
    let other = Bvh::build(&TriMesh::new(m.vertices().to_vec(), m.triangles()[..8].to_vec(), MeshMeta::synthetic()).expect("valid"));
    assert_ne!(bvh.topology_digest(), other.topology_digest());
}

#[test]
fn the_margin_tells_tests_apart_and_nothing_else() {
    let m = unit_cube();
    let bvh = Bvh::build(&m);
    let plain = ray(v(0.5, 0.3, -1.0), up());
    let (hits, stats) = bvh.intersect_ray_all(&m, &plain).expect("valid ray");
    assert_eq!(stats.fast_path, 0);
    let (same, filtered) = bvh.intersect_ray_all_with(&m, &plain, d(1e-12)).expect("valid ray");
    assert_eq!(hits, same);
    assert!(filtered.fast_path > 0, "{filtered:?}");
    assert_eq!(filtered.fast_path + filtered.exact_path, filtered.triangle_tests);
    assert_eq!(filtered.triangle_tests, stats.triangle_tests);
    let grazing = ray(v(0.25, 0.25, -1.0), up());
    let (_, close) = bvh.intersect_ray_all_with(&m, &grazing, d(1e-12)).expect("valid ray");
    assert!(close.exact_path >= 2, "an edge through the line is never beyond doubt: {close:?}");
    assert!(bvh.intersect_ray_all_with(&m, &ray(v(0.0, 0.0, 0.0), v(0.0, 0.0, 0.0)), d(1e-12)).is_err());
}

#[test]
fn leaf_bounds_hold_the_corners_of_their_triangles() {
    let m = unit_cube();
    let bvh = Bvh::build(&m);
    for node in bvh.nodes().iter().filter(|n| n.is_leaf()) {
        for k in node.first_or_left..node.first_or_left + node.count {
            for p in m.triangle(bvh.order()[k as usize]) {
                assert!(node.bounds.contains_aabb(&Aabb3::new(p, p)), "{p:?}");
            }
        }
    }
}
