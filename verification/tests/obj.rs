use chipbreaker_core::double::Double;
use chipbreaker_core::math::Vec3;
use chipbreaker_core::mesh::io::obj::{is_convex, obj_numbers, read};
use chipbreaker_core::mesh::shapes::{cube, icosphere};
use chipbreaker_core::mesh::units::Unit;
use chipbreaker_core::mesh::validate::findings::FindingKind;
use chipbreaker_core::mesh::validate::validate;
use chipbreaker_core::mesh::TriMesh;

fn d(x: f64) -> Double {
    Double::from_bits(x.to_bits())
}

fn f(x: Double) -> f64 {
    f64::from_bits(x.to_bits())
}

fn v(x: f64, y: f64, z: f64) -> Vec3 {
    Vec3::new(d(x), d(y), d(z))
}

fn written(mesh: &TriMesh) -> String {
    let mut buffer = ryu::Buffer::new();
    let numbers: Vec<String> = obj_numbers(mesh).iter().map(|x| buffer.format(f(*x)).to_owned()).collect();
    chipbreaker_core::mesh::io::obj::write(mesh, &numbers)
}

#[test]
fn round_trip_is_value_exact_and_preserves_topology() {
    let original = icosphere(d(7.0), 1).expect("a sphere");
    let read_back = read(&written(&original), Unit::Millimetre).expect("reads");
    assert_eq!(read_back.vertices(), original.vertices());
    assert_eq!(read_back.triangles(), original.triangles());
    assert_eq!(read_back.signed_volume(), original.signed_volume());
    assert!(validate(&read_back).is_solid());
}

#[test]
fn one_based_indices_are_resolved() {
    let m = read("v 0 0 0\nv 1 0 0\nv 0 1 0\nf 1 2 3\n", Unit::Millimetre).expect("reads");
    assert_eq!(m.triangles(), [[0, 1, 2]]);
}

#[test]
fn negative_indices_are_relative_to_the_end() {
    let m = read("v 0 0 0\nv 1 0 0\nv 0 1 0\nf -3 -2 -1\n", Unit::Millimetre).expect("reads");
    assert_eq!(m.triangles(), [[0, 1, 2]]);

    let m = read(
        "v 0 0 0\nv 1 0 0\nv 0 1 0\nf -3 -2 -1\nv 9 9 9\n",
        Unit::Millimetre,
    )
    .expect("reads");
    assert_eq!(m.triangles(), [[0, 1, 2]]);
    assert_eq!(m.vertex_count(), 4);
}

#[test]
fn slash_forms_are_accepted_and_the_extras_ignored() {
    let text = "v 0 0 0\nv 1 0 0\nv 0 1 0\n\
         vt 0 0\nvn 0 0 1\n\
         f 1/1/1 2/2/1 3/3/1\n";
    let m = read(text, Unit::Millimetre).expect("reads");
    assert_eq!(m.triangles(), [[0, 1, 2]]);
    assert_eq!(m.meta().ignored_records, 2, "vt and vn are counted");

    let m = read(
        "v 0 0 0\nv 1 0 0\nv 0 1 0\nf 1//1 2//1 3//1\n",
        Unit::Millimetre,
    )
    .expect("reads");
    assert_eq!(m.triangles(), [[0, 1, 2]]);
}

#[test]
fn polygons_are_fan_triangulated_and_counted() {
    let text = "v 0 0 0\nv 1 0 0\nv 1 1 0\nv 0 1 0\nf 1 2 3 4\n";
    let m = read(text, Unit::Millimetre).expect("reads");
    assert_eq!(m.triangles(), [[0, 1, 2], [0, 2, 3]]);
    assert_eq!(m.meta().polygons_triangulated, 1);

    let text = "v 0 0 0\nv 1 0 0\nv 2 1 0\nv 1 2 0\nv 0 2 0\nf 1 2 3 4 5\n";
    let m = read(text, Unit::Millimetre).expect("reads");
    assert_eq!(m.triangle_count(), 3);
    assert!(
        m.triangles().iter().all(|t| t[0] == 0),
        "fanned from vertex 1"
    );
}

#[test]
fn a_non_convex_face_triangulates_badly_and_the_count_says_so() {
    let text = "v 0 0 0\nv 3 0 0\nv 3 3 0\nv 2 3 0\n\
                v 2 1 0\nv 1 1 0\nv 1 3 0\nv 0 3 0\n\
                f 1 2 3 4 5 6 7 8\n";
    let m = read(text, Unit::Millimetre).expect("reads");
    assert_eq!(m.meta().polygons_triangulated, 1);
    assert_eq!(m.triangle_count(), 6, "an octagon fans into six triangles");
    assert!(
        f(m.surface_area()) > 7.0,
        "the fan should over-cover the U shape, got {}",
        f(m.surface_area())
    );

    let convex = "v 0 0 0\nv 2 0 0\nv 3 1 0\nv 3 2 0\n\
                  v 2 3 0\nv 0 3 0\nv -1 2 0\nv -1 1 0\n\
                  f 1 2 3 4 5 6 7 8\n";
    let c = read(convex, Unit::Millimetre).expect("reads");
    assert_eq!(m.meta().non_convex_polygons, 1, "the U must be flagged");
    assert_eq!(
        c.meta().non_convex_polygons,
        0,
        "the convex one must not be"
    );
    assert!(
        (f(c.surface_area()) - 10.0).abs() < 1e-12,
        "{}",
        f(c.surface_area())
    );
}

#[test]
fn convexity_is_decided_exactly_and_in_every_orientation() {
    let p = |x: f64, y: f64| v(x, y, 0.0);
    assert!(is_convex(&[
        p(0.0, 0.0),
        p(1.0, 0.0),
        p(1.0, 1.0),
        p(0.0, 1.0)
    ]));
    assert!(is_convex(&[
        p(0.0, 1.0),
        p(1.0, 1.0),
        p(1.0, 0.0),
        p(0.0, 0.0)
    ]));
    assert!(is_convex(&[
        p(0.0, 0.0),
        p(0.5, 0.0),
        p(1.0, 0.0),
        p(1.0, 1.0),
        p(0.0, 1.0)
    ]));
    assert!(!is_convex(&[
        p(0.0, 0.0),
        p(2.0, 0.0),
        p(2.0, 1.0),
        p(1.0, 1.0),
        p(1.0, 2.0),
        p(0.0, 2.0)
    ]));
    assert!(is_convex(&[p(0.0, 0.0), p(1.0, 0.0), p(0.0, 1.0)]));

    for axis in 0..3 {
        let q = |x: f64, y: f64| match axis {
            0 => v(7.0, x, y),
            1 => v(y, 7.0, x),
            _ => v(x, y, 7.0),
        };
        assert!(
            is_convex(&[q(0.0, 0.0), q(1.0, 0.0), q(1.0, 1.0), q(0.0, 1.0)]),
            "axis {axis}"
        );
        assert!(
            !is_convex(&[
                q(0.0, 0.0),
                q(2.0, 0.0),
                q(2.0, 1.0),
                q(1.0, 1.0),
                q(1.0, 2.0),
                q(0.0, 2.0)
            ]),
            "axis {axis}"
        );
    }
}

#[test]
fn a_non_convex_fan_becomes_a_validation_finding() {
    let text = "v 0 0 0\nv 3 0 0\nv 3 3 0\nv 2 3 0\n\
                v 2 1 0\nv 1 1 0\nv 1 3 0\nv 0 3 0\n\
                f 1 2 3 4 5 6 7 8\n";
    let m = read(text, Unit::Millimetre).expect("reads");
    let report = validate(&m);
    assert_eq!(report.count_of(FindingKind::NonConvexPolygonFan), 1);
    let finding = report
        .findings
        .iter()
        .find(|f| f.kind == FindingKind::NonConvexPolygonFan)
        .expect("present");
    assert!(finding.detail.contains("star-shaped"), "{}", finding.detail);

    let convex = "v 0 0 0\nv 2 0 0\nv 3 1 0\nv 3 2 0\n\
                  v 2 3 0\nv 0 3 0\nv -1 2 0\nv -1 1 0\n\
                  f 1 2 3 4 5 6 7 8\n";
    let c = read(convex, Unit::Millimetre).expect("reads");
    assert_eq!(validate(&c).count_of(FindingKind::NonConvexPolygonFan), 0);
}

#[test]
fn comments_blank_lines_and_unknown_records_are_skipped() {
    let text = "# a comment\n\n   \n\
         mtllib part.mtl\ng group1\no object1\ns off\nusemtl steel\n\
         v 0 0 0\nv 1 0 0\nv 0 1 0\nf 1 2 3\n";
    let m = read(text, Unit::Millimetre).expect("reads");
    assert_eq!(m.triangle_count(), 1);
    assert_eq!(m.meta().ignored_records, 5, "mtllib, g, o, s, usemtl");
}

#[test]
fn malformed_input_names_the_line() {
    let e = read("v 0 0 0\nv 1 0\n", Unit::Millimetre).expect_err("must reject");
    assert_eq!(e.line, Some(2));
    assert!(e.describe().contains("three coordinates"), "{e:?}");

    let e =
        read("v 0 0 0\nv 1 0 0\nv 0 1 0\nf 1 2\n", Unit::Millimetre).expect_err("must reject");
    assert!(e.describe().contains("at least three"), "{e:?}");

    let e = read("v 0 0 0\nv 1 0 0\nv 0 1 0\nf 1 2 9\n", Unit::Millimetre)
        .expect_err("must reject");
    assert!(e.describe().contains("only 3 vertices"), "{e:?}");

    let e = read("v 0 0 0\nv 1 0 0\nv 0 1 0\nf 0 1 2\n", Unit::Millimetre)
        .expect_err("must reject");
    assert!(e.describe().contains("one-based"), "{e:?}");

    let e = read("v 0 0 0\nv 1 0 0\nv 0 1 0\nf 1 2 x\n", Unit::Millimetre)
        .expect_err("must reject");
    assert!(e.describe().contains("not an integer"), "{e:?}");

    let e = read("v 0 0 0\nf -5 -1 -1\n", Unit::Millimetre).expect_err("must reject");
    assert!(e.describe().contains("resolves to"), "{e:?}");
}

#[test]
fn obj_units_are_applied_once_at_load() {
    let m = read("v 1 0 0\nv 0 1 0\nv 0 0 1\nf 1 2 3\n", Unit::Inch).expect("reads");
    assert_eq!(m.meta().source_unit, Unit::Inch);
    assert!((f(m.vertices()[0].x) - 25.4).abs() < 1e-12);
}

#[test]
fn writing_is_deterministic_and_one_based() {
    let m = cube(d(1.0));
    assert_eq!(written(&m), written(&m));
    let text = written(&m);
    assert!(
        text.contains("\nf 1 3 2\n"),
        "indices are one-based: {text}"
    );
    assert!(text.starts_with("# written by chipbreaker"));
}

#[test]
fn an_empty_obj_is_an_empty_mesh() {
    let m = read("# nothing here\n", Unit::Millimetre).expect("valid, if empty");
    assert!(m.is_empty());
    assert_eq!(m.vertex_count(), 0);
}

#[test]
fn a_non_finite_vertex_is_reported_at_its_line() {
    let e = read("# a part\nv 0 0 0\nv nan 0 0\nv 0 1 0\nf 1 2 3\n", Unit::Millimetre).expect_err("not finite");
    assert_eq!(e.line, Some(3));
    assert!(e.describe().contains("(NaN)"), "{}", e.describe());
}
