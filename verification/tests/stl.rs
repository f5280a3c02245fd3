use chipbreaker_core::double::Double;
use chipbreaker_core::math::Vec3;
use chipbreaker_core::mesh::io::stl::{ascii_numbers, looks_binary, read_ascii, read_binary, write_ascii, write_binary};
use chipbreaker_core::mesh::shapes::{cube, icosphere};
use chipbreaker_core::mesh::units::Unit;
use chipbreaker_core::mesh::validate::validate;
use chipbreaker_core::mesh::weld::{weld, EPS_WELD};
use chipbreaker_core::mesh::TriMesh;

fn d(x: f64) -> Double {
    Double::from_bits(x.to_bits())
}

fn f(x: Double) -> f64 {
    f64::from_bits(x.to_bits())
}

fn v(x: f64, y: f64, z: f64) -> Vec3 {
    Vec3::new(d(x), d(y), d(z))
}

fn ascii(mesh: &TriMesh, name: &str) -> String {
    let mut buffer = ryu::Buffer::new();
    let numbers: Vec<String> = ascii_numbers(mesh).iter().map(|x| buffer.format(f(*x)).to_owned()).collect();
    write_ascii(mesh, name, &numbers)
}

#[test]
fn binary_round_trip_is_bit_exact_for_f32_representable_geometry() {
    let original = cube(d(10.0));
    let bytes = write_binary(&original);
    assert!(looks_binary(&bytes));
    let read = read_binary(&bytes, Unit::Millimetre).expect("reads");
    assert_eq!(read.triangle_count(), original.triangle_count());
    for i in 0..original.triangle_count() {
        assert_eq!(read.triangle(i), original.triangle(i), "triangle {i}");
    }
    assert_eq!(read.signed_volume(), original.signed_volume());
    assert_eq!(write_binary(&original), bytes);
}

#[test]
fn ascii_round_trip_is_value_exact_even_for_awkward_values() {
    let original = icosphere(d(7.0), 1).expect("a sphere");
    let text = ascii(&original, "part");
    let read = read_ascii(&text, Unit::Millimetre).expect("reads");
    assert_eq!(read.triangle_count(), original.triangle_count());
    for i in 0..original.triangle_count() {
        assert_eq!(read.triangle(i), original.triangle(i), "triangle {i}");
    }
    assert_eq!(read.signed_volume(), original.signed_volume());
}

#[test]
fn stl_is_a_soup_that_welds_back_to_the_original_topology() {
    let original = cube(d(10.0));
    let read = read_binary(&write_binary(&original), Unit::Millimetre).expect("reads");
    assert_eq!(read.vertex_count(), 36, "a soup of 12 loose triangles");
    let (welded, report) = weld(&read, Double::from_bits(EPS_WELD)).expect("welds");
    assert_eq!(report.vertices_after, 8);
    assert!(validate(&welded).is_solid());
}

#[test]
fn stl_units_are_applied_once_at_load() {
    let mesh = cube(d(1.0));
    let bytes = write_binary(&mesh);
    let as_inches = read_binary(&bytes, Unit::Inch).expect("reads");
    assert_eq!(as_inches.meta().source_unit, Unit::Inch);
    assert!((f(as_inches.bounds().max.x) - f(as_inches.bounds().min.x) - 25.4).abs() < 1e-12);
    assert!((f(as_inches.signed_volume()) - 25.4f64.powi(3)).abs() < 1e-6);
}

#[test]
fn a_truncated_binary_file_is_a_specific_error() {
    let mut bytes = write_binary(&cube(d(1.0)));
    bytes.truncate(bytes.len() - 10);
    let e = read_binary(&bytes, Unit::Millimetre).expect_err("must reject");
    assert!(e.describe().contains("truncated"), "{e:?}");
    assert_eq!(e.offset, Some(80));
}

#[test]
fn a_wrong_declared_count_is_a_specific_error() {
    let mut bytes = write_binary(&cube(d(1.0)));
    bytes[80..84].copy_from_slice(&999u32.to_le_bytes());
    let e = read_binary(&bytes, Unit::Millimetre).expect_err("must reject");
    assert!(e.describe().contains("999"), "{e:?}");
    assert!(!looks_binary(&bytes), "the length check must notice");

    bytes[80..84].copy_from_slice(&u32::MAX.to_le_bytes());
    assert!(read_binary(&bytes, Unit::Millimetre).is_err());
}

#[test]
fn a_header_only_file_reads_as_an_empty_mesh() {
    let mut bytes = vec![0u8; 84];
    bytes[80..84].copy_from_slice(&0u32.to_le_bytes());
    let m = read_binary(&bytes, Unit::Millimetre).expect("valid, if empty");
    assert!(m.is_empty());
    assert!(read_binary(&[0u8; 20], Unit::Millimetre).is_err());
}

#[test]
fn ascii_tolerates_the_malformations_real_files_have() {
    let text = "solid my great part\r\n\
         facet normal 0 0 0\r\n\
         outer loop\r\n\
         vertex 0 0 0\r\n\
         vertex 1 0 0\r\n\
         vertex 0 1 0\r\n\
         endloop\r\n\
         endfacet\r\n";
    let m = read_ascii(text, Unit::Millimetre).expect("reads");
    assert_eq!(m.triangle_count(), 1);
    assert_eq!(
        m.meta().ignored_records,
        1,
        "the missing endsolid is counted"
    );

    let text = "solid s\nfacet normal 0 0 1\nouter loop\n\
         vertex 1e-3 0 0\nvertex 1 0 0\nvertex 0 1.5E2 0\n\
         endloop\nendfacet\nendsolid s\n";
    let m = read_ascii(text, Unit::Millimetre).expect("reads");
    assert_eq!(f(m.triangle(0)[0].x), 1e-3);
    assert_eq!(f(m.triangle(0)[2].y), 150.0);
}

#[test]
fn ascii_rejects_malformed_input_with_a_line_number() {
    let bad = "solid s\nfacet normal 0 0 1\nouter loop\nvertex 0 0\nendloop\nendfacet\n";
    let e = read_ascii(bad, Unit::Millimetre).expect_err("must reject");
    assert_eq!(e.line, Some(4));
    assert!(e.describe().contains("three coordinates"), "{e:?}");

    let bad = "solid s\nfacet normal 0 0 1\nouter loop\nvertex 0 zero 0\nendloop\nendfacet\n";
    let e = read_ascii(bad, Unit::Millimetre).expect_err("must reject");
    assert!(e.describe().contains("zero"), "{e:?}");

    let bad = "solid s\nfacet normal 0 0 1\nouter loop\n\
         vertex 0 0 0\nvertex 1 0 0\nvertex 0 1 0\nvertex 1 1 0\n\
         endloop\nendfacet\n";
    let e = read_ascii(bad, Unit::Millimetre).expect_err("must reject");
    assert!(e.describe().contains("4 vertices"), "{e:?}");

    let bad = "solid s\nfacet normal 0 0 1\nouter loop\nvertex 0 0 0\n";
    let e = read_ascii(bad, Unit::Millimetre).expect_err("must reject");
    assert!(e.describe().contains("truncated"), "{e:?}");

    assert!(read_ascii("hello\nworld\n", Unit::Millimetre).is_err());
}

#[test]
fn stl_non_finite_geometry_is_rejected_at_the_boundary() {
    let text = "solid s\nfacet normal 0 0 1\nouter loop\n\
         vertex NaN 0 0\nvertex 1 0 0\nvertex 0 1 0\n\
         endloop\nendfacet\nendsolid s\n";
    let e = read_ascii(text, Unit::Millimetre).expect_err("must reject");
    assert!(e.describe().contains("non-finite"), "{e:?}");

    let mut bytes = write_binary(&cube(d(1.0)));
    bytes[96..100].copy_from_slice(&f32::INFINITY.to_le_bytes());
    let e = read_binary(&bytes, Unit::Millimetre).expect_err("must reject");
    assert!(e.describe().contains("non-finite"), "{e:?}");
}

#[test]
fn the_stored_normal_is_ignored_and_recomputed() {
    let text = "solid s\nfacet normal 0 0 0\nouter loop\n\
         vertex 0 0 0\nvertex 1 0 0\nvertex 0 1 0\n\
         endloop\nendfacet\nendsolid s\n";
    let m = read_ascii(text, Unit::Millimetre).expect("reads");
    assert_eq!(
        m.face_normal(0),
        Some(v(0.0, 0.0, 1.0)),
        "recomputed from the winding"
    );
}

#[test]
fn writing_is_deterministic() {
    let m = icosphere(d(3.0), 1).expect("a sphere");
    assert_eq!(write_binary(&m), write_binary(&m));
    assert_eq!(ascii(&m, "p"), ascii(&m, "p"));
    assert!(ascii(&m, "p").starts_with("solid p\n"));
    assert!(ascii(&m, "p").ends_with("endsolid p\n"));
}
