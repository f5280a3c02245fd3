use chipbreaker_core::double::Double;
use chipbreaker_core::lattice::{cyclic, Lattice};
use chipbreaker_core::math::{Aabb3, Axis, OctNormal, Vec3};
use chipbreaker_core::refixture::{
    classify, move_spans, refixture_exact, rotate_box, transformed_lattice, FieldBundle, Mat4, Regime,
};
use chipbreaker_core::spans::Span;

fn d(x: f64) -> Double {
    Double::from_bits(x.to_bits())
}

fn f(x: Double) -> f64 {
    f64::from_bits(x.to_bits())
}

fn v(x: f64, y: f64, z: f64) -> Vec3 {
    Vec3::new(d(x), d(y), d(z))
}

fn matrix(rows: [[f64; 4]; 4]) -> Mat4 {
    Mat4::from_rows_array(rows.map(|row| row.map(d)))
}

fn quarter_turn() -> Mat4 {
    matrix([
        [0.0, -1.0, 0.0, 0.0],
        [1.0, 0.0, 0.0, 0.0],
        [0.0, 0.0, 1.0, 0.0],
        [0.0, 0.0, 0.0, 1.0],
    ])
}

fn lattice(axis: Axis, origin: Vec3) -> Lattice {
    Lattice {
        axis,
        origin,
        spacing_u: d(1.0),
        spacing_v: d(1.0),
        count_u: 2,
        count_v: 3,
        extent_u: d(2.0),
        extent_v: d(3.0),
        length: d(4.0),
        pad_u: d(0.0),
        pad_v: d(0.0),
    }
}

#[test]
fn rays_are_numbered_row_by_row() {
    let l = lattice(Axis::Z, v(10.0, 20.0, 30.0));
    assert_eq!(l.ray_count(), 6);
    for ray in 0..6 {
        let (i, j) = l.coords(ray);
        assert_eq!(l.index(i, j), ray);
        assert_eq!(l.ray_at_point(l.origin_of(i, j)), Some((i, j)));
    }
    assert_eq!(l.origin_of(1, 2), v(11.5, 22.5, 30.0));
    assert_eq!(l.ray_at_point(v(11.0, 22.5, 30.0)), None, "between two rays");
    assert_eq!(l.workspace(), Aabb3::new(v(10.0, 20.0, 30.0), v(12.0, 23.0, 34.0)));
    assert_eq!(cyclic(Axis::Y), (2, 0, 1));
}

#[test]
fn a_reversed_ray_exchanges_the_ends_of_its_spans() {
    let up = OctNormal::encode(v(0.0, 0.0, 1.0));
    let identity = matrix([
        [1.0, 0.0, 0.0, 0.0],
        [0.0, 1.0, 0.0, 0.0],
        [0.0, 0.0, 1.0, 0.0],
        [0.0, 0.0, 0.0, 1.0],
    ]);
    let s = Span::with_normals(d(1.0), d(3.0), OctNormal::placeholder(), up);
    let same = move_spans(&[s], &identity, d(2.0), false);
    assert_eq!((f(same[0].t0), f(same[0].t1)), (3.0, 5.0));
    assert_eq!(same[0].n1, up);
    let back = move_spans(&[s], &identity, d(10.0), true);
    assert_eq!((f(back[0].t0), f(back[0].t1)), (7.0, 9.0));
    assert_eq!(back[0].n0, up);
}

#[test]
fn a_quarter_turn_moves_a_field_ray_by_ray() {
    let m = quarter_turn();
    assert!(matches!(classify(&m, d(1.0), d(1.0)), Some(Regime::Exact { .. })));
    let source = lattice(Axis::Z, v(0.0, 0.0, 0.0));
    let rays: Vec<Vec<Span>> = (0..6).map(|i| vec![Span::new(d(0.0), d(1.0 + f64::from(i)))]).collect();
    let field = [FieldBundle { lattice: source, rays }];
    let mut target = lattice(Axis::Z, v(-3.0, 0.0, 0.0));
    target.count_u = 3;
    target.count_v = 2;
    target.extent_u = d(3.0);
    target.extent_v = d(2.0);
    let targets = [lattice(Axis::X, v(0.0, 0.0, 0.0)), lattice(Axis::Y, v(0.0, 0.0, 0.0)), target];
    let moved = refixture_exact(&field, &m, &targets).expect("registered");
    let z = moved[2].as_ref().expect("the bundle along z");
    assert!(moved[0].is_none() && moved[1].is_none());
    for ray in 0..6 {
        let (i, j) = source.coords(ray);
        let at = m.transform_point(source.origin_of(i, j));
        let (a, b) = target.ray_at_point(at).expect("rays map onto rays");
        let there = &z.rays[target.index(a, b) as usize];
        assert_eq!(f(there[0].t1), 1.0 + f64::from(ray), "ray {ray}");
    }
    let held = |rays: &[Vec<Span>]| rays.iter().map(Vec::len).sum::<usize>();
    assert_eq!(held(&z.rays), held(&field[0].rays));
    assert!(refixture_exact(&[], &m, &targets).is_none());
}

#[test]
fn boxes_and_lattices_turn_with_the_stock() {
    let b = Aabb3::new(v(0.0, 0.0, 0.0), v(2.0, 3.0, 4.0));
    assert_eq!(rotate_box(&b, &quarter_turn()), Aabb3::new(v(-3.0, 0.0, 0.0), v(0.0, 2.0, 4.0)));
    let l = transformed_lattice(&lattice(Axis::Z, v(0.0, 0.0, 0.0)), &quarter_turn(), Axis::Z);
    assert_eq!((l.count_u, l.count_v), (3, 2));
    assert_eq!((f(l.extent_u), f(l.extent_v)), (3.0, 2.0));
}
