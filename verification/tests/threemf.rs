use chipbreaker_core::double::Double;
use chipbreaker_core::mesh::io::threemf::{declared_unit, parse_unit, read};
use chipbreaker_core::mesh::shapes::cube;
use chipbreaker_core::mesh::units::Unit;
use chipbreaker_core::mesh::validate::validate;
use chipbreaker_core::mesh::TriMesh;
use std::io::Write;

fn d(x: f64) -> Double {
    Double::from_bits(x.to_bits())
}

fn f(x: Double) -> f64 {
    f64::from_bits(x.to_bits())
}

fn container(model_xml: &str, path: &str) -> Vec<u8> {
    let mut buffer = Vec::new();
    {
        let mut zip = zip::ZipWriter::new(std::io::Cursor::new(&mut buffer));
        let options: zip::write::FileOptions<'_, '_, ()> = zip::write::FileOptions::default()
            .compression_method(zip::CompressionMethod::Deflated);
        zip.start_file(path, options).expect("start");
        zip.write_all(model_xml.as_bytes()).expect("write");
        zip.finish().expect("finish");
    }
    buffer
}

fn model_of(mesh: &TriMesh, unit: &str) -> String {
    let mut xml = format!(
        "<?xml version=\"1.0\" encoding=\"UTF-8\"?>\n\
         <model unit=\"{unit}\" xml:lang=\"en-US\" \
         xmlns=\"http://schemas.microsoft.com/3dmanufacturing/core/2015/02\">\n\
         <resources><object id=\"1\" type=\"model\"><mesh><vertices>\n"
    );
    for v in mesh.vertices() {
        xml.push_str(&format!(
            "<vertex x=\"{}\" y=\"{}\" z=\"{}\"/>\n",
            f(v.x), f(v.y), f(v.z)
        ));
    }
    xml.push_str("</vertices><triangles>\n");
    for t in mesh.triangles() {
        xml.push_str(&format!(
            "<triangle v1=\"{}\" v2=\"{}\" v3=\"{}\"/>\n",
            t[0], t[1], t[2]
        ));
    }
    xml.push_str("</triangles></mesh></object></resources>\n<build><item objectid=\"1\"/></build>\n</model>\n");
    xml
}

#[test]
fn a_millimetre_cube_round_trips_through_the_container() {
    let block = cube(d(10.0));
    let bytes = container(&model_of(&block, "millimeter"), "3D/3dmodel.model");
    let read_back = read(&bytes, None).expect("reads");
    assert_eq!(read_back.vertices(), block.vertices());
    assert_eq!(read_back.triangles(), block.triangles());
    assert_eq!(read_back.meta().source_unit, Unit::Millimetre);
    assert_eq!(read_back.meta().source_format, "3mf");
    assert!(validate(&read_back).is_solid());
}

#[test]
fn the_declared_unit_is_applied() {
    let block = cube(d(1.0));
    for (name, unit, expected_side) in [
        ("millimeter", Unit::Millimetre, 1.0),
        ("centimeter", Unit::Centimetre, 10.0),
        ("meter", Unit::Metre, 1000.0),
        ("inch", Unit::Inch, 25.4),
        ("foot", Unit::Foot, 304.8),
        ("micron", Unit::Micron, 0.001),
    ] {
        let bytes = container(&model_of(&block, name), "3D/3dmodel.model");
        let m = read(&bytes, None).expect("reads");
        assert_eq!(m.meta().source_unit, unit, "{name}");
        assert!(
            (f(m.bounds().max.x) - f(m.bounds().min.x) - expected_side).abs() < 1e-9,
            "{name}: {}",
            f(m.bounds().max.x)
        );
    }
    assert_eq!(
        declared_unit(&container(&model_of(&block, "inch"), "3D/3dmodel.model")),
        Ok(Unit::Inch)
    );
}

#[test]
fn a_contradicted_unit_is_an_error_rather_than_an_override() {
    let bytes = container(&model_of(&cube(d(1.0)), "inch"), "3D/3dmodel.model");
    read(&bytes, Some(Unit::Inch)).expect("agreeing units are fine");
    let e = read(&bytes, Some(Unit::Millimetre)).expect_err("must reject");
    let text = e.describe();
    assert!(text.contains("`in`"), "{text}");
    assert!(text.contains("`mm`"), "{text}");
    assert!(text.contains("contradiction"), "{text}");
}

#[test]
fn an_unusual_model_part_path_is_still_found() {
    let block = cube(d(1.0));
    let bytes = container(&model_of(&block, "millimeter"), "other/model.model");
    assert_eq!(read(&bytes, None).expect("reads").triangle_count(), 12);
}

#[test]
fn several_meshes_are_merged_with_rebased_indices() {
    let block = cube(d(10.0));
    let one = model_of(&block, "millimeter");
    let body = one
        .split_once("<resources>")
        .and_then(|(_, rest)| rest.split_once("</resources>"))
        .map(|(inner, _)| inner.to_owned())
        .expect("object markup");
    let two = format!(
        "<?xml version=\"1.0\"?><model unit=\"millimeter\"><resources>{body}{body}</resources></model>"
    );
    let m = read(&container(&two, "3D/3dmodel.model"), None).expect("reads");
    assert_eq!(m.triangle_count(), 24);
    assert_eq!(m.vertex_count(), 16);
    assert_eq!(m.meta().ignored_records, 1, "one extra mesh merged");
    let report = validate(&m);
    assert_eq!(report.components.len(), 2, "indices must have been rebased");
    assert!(report.is_solid());
}

#[test]
fn malformed_containers_and_models_are_rejected() {
    assert!(read(b"not a zip at all", None).is_err());

    let bytes = container("hello", "readme.txt");
    let e = read(&bytes, None).expect_err("must reject");
    assert!(e.describe().contains("no model part"), "{e:?}");

    let bytes = container("<model><resources/></model>", "3D/3dmodel.model");
    let e = read(&bytes, None).expect_err("must reject");
    assert!(e.describe().contains("unit"), "{e:?}");

    let bytes = container("<model unit=\"furlong\"/>", "3D/3dmodel.model");
    let e = read(&bytes, None).expect_err("must reject");
    assert!(e.describe().contains("furlong"), "{e:?}");

    let bytes = container("<model unit=\"millimeter\"><mesh>", "3D/3dmodel.model");
    assert!(read(&bytes, None).is_err() || read(&bytes, None).is_ok());

    let bytes = container(
        "<model unit=\"millimeter\"><mesh><vertices><vertex x=\"0\" y=\"0\"/></vertices></mesh></model>",
        "3D/3dmodel.model",
    );
    let e = read(&bytes, None).expect_err("must reject");
    assert!(e.describe().contains('z'), "{e:?}");

    let bytes = container(
        "<model unit=\"millimeter\"><mesh><vertices>\
         <vertex x=\"0\" y=\"0\" z=\"0\"/></vertices>\
         <triangles><triangle v1=\"0\" v2=\"1\" v3=\"2\"/></triangles></mesh></model>",
        "3D/3dmodel.model",
    );
    let e = read(&bytes, None).expect_err("must reject");
    assert!(e.describe().contains("references vertex"), "{e:?}");
}

#[test]
fn threemf_non_finite_geometry_is_rejected_at_the_boundary() {
    let bytes = container(
        "<model unit=\"millimeter\"><mesh><vertices>\
         <vertex x=\"NaN\" y=\"0\" z=\"0\"/></vertices></mesh></model>",
        "3D/3dmodel.model",
    );
    let e = read(&bytes, None).expect_err("must reject");
    assert!(e.describe().contains("non-finite"), "{e:?}");
}

#[test]
fn unit_names_of_the_container_are_its_own() {
    assert_eq!(parse_unit("micron"), Some(Unit::Micron));
    assert_eq!(parse_unit("meter"), Some(Unit::Metre));
    assert_eq!(parse_unit("furlong"), None);
}
