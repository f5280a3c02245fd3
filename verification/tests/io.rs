use chipbreaker_core::mesh::io::{detect, Format, ParseError};

#[test]
fn error_messages_carry_position() {
    let e = ParseError::at_line("obj", 12, "bad face");
    assert_eq!(e.describe(), "obj: line 12: bad face");
    let e = ParseError::at_offset("stl-binary", 84, "truncated");
    assert_eq!(e.describe(), "stl-binary: byte 84: truncated");
    let e = ParseError::general("stl-ascii", "empty");
    assert_eq!(e.describe(), "stl-ascii: empty");
}

#[test]
fn a_binary_stl_beginning_with_solid_is_not_mistaken_for_ascii() {
    let mut bytes = vec![0u8; 84];
    bytes[..5].copy_from_slice(b"solid");
    bytes[80..84].copy_from_slice(&1u32.to_le_bytes());
    bytes.extend(vec![0u8; 50]);
    assert_eq!(detect(&bytes, Some("part.stl")), Format::StlBinary);
}

#[test]
fn ascii_stl_and_obj_are_told_apart() {
    let ascii = b"solid part\nfacet normal 0 0 1\n";
    assert_eq!(detect(ascii, Some("part.stl")), Format::StlAscii);
    assert_eq!(detect(ascii, None), Format::StlAscii);

    let obj = b"v 0 0 0\nv 1 0 0\nf 1 2 3\n";
    assert_eq!(detect(obj, Some("part.obj")), Format::Obj);
    assert_eq!(detect(obj, None), Format::Obj);
    assert_eq!(detect(b"# comment\n", Some("m.obj")), Format::Obj);
    assert_eq!(detect(b"# not really\n", Some("m.stl")), Format::StlAscii);
}

#[test]
fn format_names_are_stable() {
    assert_eq!(Format::StlBinary.name(), "stl-binary");
    assert_eq!(Format::StlAscii.name(), "stl-ascii");
    assert_eq!(Format::Obj.name(), "obj");
}

#[test]
fn detect_handles_tiny_and_empty_input() {
    assert_eq!(detect(b"", None), Format::Obj);
    assert_eq!(detect(b"so", None), Format::Obj);
    assert_eq!(detect(b"", Some("x.stl")), Format::StlAscii);
}
