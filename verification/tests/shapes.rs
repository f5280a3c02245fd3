use chipbreaker_core::canonical::digest;
use chipbreaker_core::double::Double;
use chipbreaker_core::math::{Vec2, Vec3};
use chipbreaker_core::mesh::revolved::{cone, cylinder, torus};
use chipbreaker_core::mesh::shapes::{box_solid, cube, icosphere, lattice_block};
use chipbreaker_core::mesh::validate::validate;
use chipbreaker_core::mesh::TriMesh;
use std::f64::consts::PI;

fn d(x: f64) -> Double {
    Double::from_bits(x.to_bits())
}

fn f(x: Double) -> f64 {
    f64::from_bits(x.to_bits())
}

fn v(x: f64, y: f64, z: f64) -> Vec3 {
    Vec3::new(d(x), d(y), d(z))
}

fn circle(segments: u32) -> Vec<Vec2> {
    (0..segments)
        .map(|i| {
            let a = std::f64::consts::TAU * f64::from(i) / f64::from(segments);
            Vec2::new(d(a.cos()), d(a.sin()))
        })
        .collect()
}

fn assert_solid(m: &TriMesh, label: &str) {
    let r = validate(m);
    assert!(r.is_manifold, "{label}: not manifold: {:?}", r.findings);
    assert!(r.is_watertight, "{label}: not watertight: {:?}", r.findings);
    assert!(
        r.is_orientation_consistent,
        "{label}: inconsistent winding: {:?}",
        r.findings
    );
    assert!(
        f(r.signed_volume) > 0.0,
        "{label}: inside out ({})",
        f(r.signed_volume)
    );
    assert!(r.is_solid(), "{label}: not a solid");
}

#[test]
fn every_shape_is_a_closed_outward_solid() {
    assert_solid(&cube(d(1.0)), "cube");
    assert_solid(
        &box_solid(v(-1.0, -2.0, -3.0), v(4.0, 5.0, 6.0)),
        "box",
    );
    for s in 0..=3 {
        assert_solid(&icosphere(d(1.0), s).expect("a sphere"), &format!("icosphere/{s}"));
    }
    for seg in [3u32, 8, 32, 64] {
        assert_solid(&cylinder(d(1.0), d(2.0), &circle(seg)).expect("a cylinder"), &format!("cylinder/{seg}"));
        assert_solid(&cone(d(1.0), d(2.0), &circle(seg)).expect("a cone"), &format!("cone/{seg}"));
    }
    assert_solid(&torus(d(3.0), d(1.0), &circle(16), &circle(8)).expect("a torus"), "torus");
    for n in 1..=4 {
        assert_solid(&lattice_block(n), &format!("lattice/{n}"));
    }
}

#[test]
fn volumes_converge_to_the_closed_form() {
    assert_eq!(f(cube(d(2.0)).signed_volume()), 8.0);

    let exact_sphere = 4.0 / 3.0 * PI;
    let mut previous = 0.0;
    let mut errors = Vec::new();
    for s in 0..=4 {
        let v = f(icosphere(d(1.0), s).expect("a sphere").signed_volume());
        assert!(
            v < exact_sphere,
            "an inscribed sphere cannot exceed the true volume"
        );
        assert!(v > previous, "refinement must improve the estimate");
        previous = v;
        errors.push(exact_sphere - v);
    }
    for w in errors.windows(2) {
        let ratio = w[0] / w[1];
        assert!(
            (3.0..5.5).contains(&ratio),
            "each subdivision should reduce the error about fourfold, got {ratio}"
        );
    }
    assert!(
        (previous - exact_sphere).abs() / exact_sphere < 0.0025,
        "4 subdivisions lands within 0.25%, got {previous} vs {exact_sphere}"
    );

    for n in [8u32, 64, 256] {
        let v = f(cylinder(d(1.0), d(2.0), &circle(n)).expect("a cylinder").signed_volume());
        let exact = f64::from(n) / 2.0 * (2.0 * PI / f64::from(n)).sin() * 2.0;
        assert!((v - exact).abs() < 1e-9, "cylinder/{n}: {v} vs {exact}");
    }

    let cone_v = f(cone(d(1.0), d(3.0), &circle(512)).expect("a cone").signed_volume());
    let cone_exact = PI * 3.0 / 3.0;
    assert!(
        (cone_v - cone_exact).abs() / cone_exact < 0.001,
        "{cone_v} vs {cone_exact}"
    );

    let torus_v = f(torus(d(3.0), d(1.0), &circle(128), &circle(64)).expect("a torus").signed_volume());
    let torus_exact = 2.0 * PI * PI * 3.0 * 1.0;
    assert!(torus_v < torus_exact, "an inscribed torus cannot exceed the true volume");
    assert!(
        (torus_v - torus_exact).abs() / torus_exact < 0.0025,
        "{torus_v} vs {torus_exact}"
    );
}

#[test]
fn areas_converge_to_the_closed_form() {
    assert_eq!(f(cube(d(2.0)).surface_area()), 24.0);
    let sphere = f(icosphere(d(1.0), 4).expect("a sphere").surface_area());
    let exact = 4.0 * PI;
    assert!(
        (sphere - exact).abs() / exact < 0.002,
        "{sphere} vs {exact}"
    );
    assert!(sphere < exact, "an inscribed sphere has less area");
}

#[test]
fn a_torus_has_genus_one() {
    let r = validate(&torus(d(3.0), d(1.0), &circle(16), &circle(8)).expect("a torus"));
    assert_eq!(r.components.len(), 1);
    assert_eq!(r.components[0].euler_characteristic, 0);
    assert_eq!(r.components[0].genus, Some(1));
}

#[test]
fn a_sphere_has_genus_zero() {
    for s in 0..=2 {
        let r = validate(&icosphere(d(1.0), s).expect("a sphere"));
        assert_eq!(r.components[0].euler_characteristic, 2, "subdivision {s}");
        assert_eq!(r.components[0].genus, Some(0));
    }
}

#[test]
fn the_lattice_block_really_is_on_the_lattice() {
    let m = lattice_block(3);
    for p in m.vertices() {
        for c in [f(p.x), f(p.y), f(p.z)] {
            assert_eq!(c, c.round(), "vertex coordinate {c} is not an integer");
            assert!((0.0..=3.0).contains(&c));
        }
    }
    assert_eq!(f(m.signed_volume()), 27.0);
    assert_eq!(f(m.surface_area()), 54.0);
    assert_eq!(m.triangle_count(), 108);
    let r = validate(&m);
    assert!(r.is_watertight, "{:?}", r.findings);
    assert_eq!(r.components.len(), 1);
    assert_eq!(r.components[0].genus, Some(0));
}

#[test]
fn subdivision_multiplies_triangles_by_four() {
    let mut expected = 20;
    for s in 0..=4 {
        assert_eq!(
            icosphere(d(1.0), s).expect("a sphere").triangle_count(),
            expected,
            "subdivision {s}"
        );
        expected *= 4;
    }
    let r = validate(&icosphere(d(1.0), 2).expect("a sphere"));
    assert!(r.is_watertight);
}

#[test]
fn shape_generation_is_reproducible() {
    let sphere = || icosphere(d(1.0), 3).expect("a sphere");
    assert_eq!(digest(&sphere()), digest(&sphere()));
    let ring = || torus(d(3.0), d(1.0), &circle(16), &circle(8)).expect("a torus");
    assert_eq!(digest(&ring()), digest(&ring()));
    assert_eq!(digest(&lattice_block(3)), digest(&lattice_block(3)));
}
