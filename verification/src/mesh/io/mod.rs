//! Mesh file formats.
//!
//! Every loader converts to millimetres once, at load, and records the source
//! unit in the metadata of the mesh.

pub mod container;
pub mod face_laws;
pub mod obj;
pub mod round_trip;
pub mod scale_laws;
pub mod stl;
pub mod threemf;
pub mod xml;

use crate::decimal::{lowered, to_lowered};
use crate::arithmetic::product;
use crate::decimal::{number_of, parse_number};
use crate::double::Double;
use crate::math::Vec3;
use crate::mesh::units::Unit;
use crate::mesh::MeshError;
use crate::text::{characters, decimal_text, excerpt, push_characters, push_number, same_text, texts};
use crate::text_laws::{joined, spaced};
use vstd::prelude::*;

verus! {

/// Why a mesh file could not be read.
#[derive(Debug, PartialEq, Eq)]
pub struct ParseError {
    /// Format being parsed.
    pub format: &'static str,
    /// One-based line number, where the format has lines.
    pub line: Option<usize>,
    /// Byte offset, where it does not.
    pub offset: Option<usize>,
    /// What went wrong.
    pub message: String,
}

impl ParseError {
    /// The error says this, of this place.
    pub open spec fn says(
        self,
        format: Seq<char>,
        line: Option<usize>,
        offset: Option<usize>,
        message: Seq<char>,
    ) -> bool {
        self.format@ == format && self.line == line && self.offset == offset && self.message@ == message
    }

    /// An error at a text line.
    pub fn at_line(format: &'static str, line: usize, message: &str) -> (e: ParseError)
        ensures
            e.says(format@, Some(line), None, message@),
    {
        ParseError { format, line: Some(line), offset: None, message: String::from_str(message) }
    }

    /// An error at a byte offset.
    pub fn at_offset(format: &'static str, offset: usize, message: &str) -> (e: ParseError)
        ensures
            e.says(format@, None, Some(offset), message@),
    {
        ParseError { format, line: None, offset: Some(offset), message: String::from_str(message) }
    }

    /// An error with no position.
    pub fn general(format: &'static str, message: &str) -> (e: ParseError)
        ensures
            e.says(format@, None, None, message@),
    {
        ParseError { format, line: None, offset: None, message: String::from_str(message) }
    }

    /// The format, the place and the message in one text.
    pub fn describe(&self) -> (s: String)
        ensures
            s@ == self.format@ + ": "@ + (match (self.line, self.offset) {
                (Some(l), _) => "line "@ + decimal_text(l as nat) + ": "@,
                (None, Some(o)) => "byte "@ + decimal_text(o as nat) + ": "@,
                (None, None) => Seq::empty(),
            }) + self.message@,
    {
        let mut s: String = String::new();
        s.append(self.format);
        s.append(": ");
        match self.line {
            Some(l) => {
                s.append("line ");
                push_number(&mut s, l as u64);
                s.append(": ");
            },
            None => match self.offset {
                Some(o) => {
                    s.append("byte ");
                    push_number(&mut s, o as u64);
                    s.append(": ");
                },
                None => {},
            },
        }
        s.append(self.message.as_str());
        proof {
            assert(s@ =~= self.format@ + ": "@ + (match (self.line, self.offset) {
                (Some(l), _) => "line "@ + decimal_text(l as nat) + ": "@,
                (None, Some(o)) => "byte "@ + decimal_text(o as nat) + ": "@,
                (None, None) => Seq::empty(),
            }) + self.message@);
        }
        s
    }
}

/// An error of the mesh constructor, as an error of a format.
pub(crate) fn mesh_error(format: &'static str, e: MeshError) -> (r: ParseError)
    ensures
        r.says(format@, None, None, e.text()),
{
    let message: String = e.message();
    ParseError { format, line: None, offset: None, message }
}

/// Which format a file appears to be.
#[derive(Clone, Copy, Debug, PartialEq, Eq, Structural)]
pub enum Format {
    /// Binary STL.
    StlBinary,
    /// ASCII STL.
    StlAscii,
    /// Wavefront OBJ.
    Obj,
}

impl Format {
    /// The name recorded in the metadata of a mesh.
    pub fn name(self) -> (s: &'static str)
        ensures
            s@ == match self {
                Format::StlBinary => "stl-binary"@,
                Format::StlAscii => "stl-ascii"@,
                Format::Obj => "obj"@,
            },
    {
        match self {
            Format::StlBinary => "stl-binary",
            Format::StlAscii => "stl-ascii",
            Format::Obj => "obj",
        }
    }
}

/// What stands behind the last point of a file name, or all of it.
pub open spec fn extension_of(name: Seq<char>) -> Seq<char>
    decreases name.len(),
{
    if name.len() == 0 {
        name
    } else if name.last() == '.' {
        Seq::empty()
    } else {
        extension_of(name.drop_last()).push(name.last())
    }
}

/// The bytes begin with the word `solid`.
pub open spec fn starts_solid(bytes: Seq<u8>) -> bool {
    bytes.len() >= 5 && bytes[0] == 0x73 && bytes[1] == 0x6f && bytes[2] == 0x6c && bytes[3] == 0x69 && bytes[4] == 0x64
}

/// The file name has this extension, in any case.
pub open spec fn has_extension(filename: Option<&str>, ext: Seq<char>) -> bool {
    filename matches Some(f) && lowered(extension_of(f@)) == ext
}

/// The format of `bytes`: a binary STL by its layout, an OBJ by its extension, an
/// ASCII STL by its first word or its extension, and else an OBJ.
pub open spec fn detected(bytes: Seq<u8>, filename: Option<&str>) -> Format {
    if stl::binary_layout(bytes) {
        Format::StlBinary
    } else if has_extension(filename, "obj"@) {
        Format::Obj
    } else if starts_solid(bytes) || has_extension(filename, "stl"@) {
        Format::StlAscii
    } else {
        Format::Obj
    }
}

fn extension(name: &str) -> (v: Vec<char>)
    ensures
        v@ == lowered(extension_of(name@)),
{
    let c: Vec<char> = characters(name);
    let mut i: usize = c.len();
    proof {
        assert(c@.subrange(0, c@.len() as int) =~= c@);
        assert(extension_of(c@) + c@.subrange(i as int, c@.len() as int) =~= extension_of(c@));
    }
    while i > 0 && c[i - 1] != '.'
        invariant
            i <= c.len(),
            extension_of(c@) == extension_of(c@.subrange(0, i as int)) + c@.subrange(i as int, c@.len() as int),
        decreases i,
    {
        proof {
            let head = c@.subrange(0, i as int);
            assert(head.drop_last() =~= c@.subrange(0, i - 1));
            assert(extension_of(head.drop_last()).push(c@[i - 1]) + c@.subrange(i as int, c@.len() as int)
                =~= extension_of(head.drop_last()) + c@.subrange(i - 1, c@.len() as int));
        }
        i = i - 1;
    }
    let e: Vec<char> = excerpt(c.as_slice(), i, c.len());
    proof {
        let head = c@.subrange(0, i as int);
        assert(extension_of(head) =~= Seq::empty());
        assert(e@ =~= extension_of(c@));
    }
    to_lowered(e.as_slice())
}

/// Guesses the format of `bytes`, given an optional file name.
///
/// The header of a binary STL may begin with the word `solid`, so its layout is
/// looked at before any prefix is.
pub fn detect(bytes: &[u8], filename: Option<&str>) -> (f: Format)
    ensures
        f == detected(bytes@, filename),
{
    if stl::looks_binary(bytes) {
        return Format::StlBinary;
    }
    let mut is_obj: bool = false;
    let mut is_stl: bool = false;
    match filename {
        Some(name) => {
            let e: Vec<char> = extension(name);
            is_obj = same_text(e.as_slice(), "obj");
            is_stl = same_text(e.as_slice(), "stl");
        },
        None => {},
    }
    if is_obj {
        return Format::Obj;
    }
    if bytes.len() >= 5 && bytes[0] == 0x73 && bytes[1] == 0x6f && bytes[2] == 0x6c && bytes[3] == 0x69 && bytes[4]
        == 0x64 {
        return Format::StlAscii;
    }
    if is_stl {
        return Format::StlAscii;
    }
    Format::Obj
}

/// Coordinate `a` of a vertex record, scaled, or what is wrong with it.
pub open spec fn coordinate_of(w: Seq<Seq<char>>, a: int, unit: Unit) -> Result<Double, Seq<char>> {
    if 1 + a >= w.len() {
        Err("vertex needs three coordinates, found "@ + decimal_text(a as nat))
    } else {
        match number_of(w[1 + a]) {
            Some(v) => Ok(product(v, unit.factor())),
            None => Err("coordinate "@ + decimal_text(a as nat) + " is not a number: `"@ + w[1 + a] + "`"@),
        }
    }
}

/// The vertex that a record spells, scaled, or the first thing wrong with it.
pub open spec fn vertex_of(w: Seq<Seq<char>>, unit: Unit) -> Result<Vec3, Seq<char>> {
    match (coordinate_of(w, 0, unit), coordinate_of(w, 1, unit), coordinate_of(w, 2, unit)) {
        (Err(m), _, _) => Err(m),
        (_, Err(m), _) => Err(m),
        (_, _, Err(m)) => Err(m),
        (Ok(x), Ok(y), Ok(z)) => Ok(Vec3 { x, y, z }),
    }
}

fn read_coordinate(w: &Vec<Vec<char>>, a: usize, unit: Unit) -> (r: Result<Double, String>)
    requires
        a < 3,
    ensures
        match r {
            Ok(d) => coordinate_of(texts(w@), a as int, unit) == Ok::<Double, Seq<char>>(d),
            Err(m) => coordinate_of(texts(w@), a as int, unit) == Err::<Double, Seq<char>>(m@),
        },
{
    let mut m: String = String::new();
    if 1 + a >= w.len() {
        m.append("vertex needs three coordinates, found ");
        push_number(&mut m, a as u64);
        proof {
            assert(m@ =~= "vertex needs three coordinates, found "@ + decimal_text(a as nat));
        }
        return Err(m);
    }
    match parse_number(w[1 + a].as_slice()) {
        Some(v) => Ok(v.times(unit.millimetres_per())),
        None => {
            m.append("coordinate ");
            push_number(&mut m, a as u64);
            m.append(" is not a number: `");
            push_characters(&mut m, w[1 + a].as_slice());
            m.append("`");
            proof {
                assert(m@ =~= "coordinate "@ + decimal_text(a as nat) + " is not a number: `"@ + texts(w@)[1 + a]
                    + "`"@);
            }
            Err(m)
        },
    }
}

/// The vertex that a record spells, scaled, or the first thing wrong with it.
pub(crate) fn read_vertex(w: &Vec<Vec<char>>, unit: Unit) -> (r: Result<Vec3, String>)
    ensures
        match r {
            Ok(v) => vertex_of(texts(w@), unit) == Ok::<Vec3, Seq<char>>(v),
            Err(m) => vertex_of(texts(w@), unit) == Err::<Vec3, Seq<char>>(m@),
        },
{
    let x: Double = match read_coordinate(w, 0, unit) {
        Ok(d) => d,
        Err(m) => {
            return Err(m);
        },
    };
    let y: Double = match read_coordinate(w, 1, unit) {
        Ok(d) => d,
        Err(m) => {
            return Err(m);
        },
    };
    let z: Double = match read_coordinate(w, 2, unit) {
        Ok(d) => d,
        Err(m) => {
            return Err(m);
        },
    };
    Ok(Vec3 { x, y, z })
}

/// The texts of some strings.
pub open spec fn spelled(numbers: Seq<String>) -> Seq<Seq<char>> {
    Seq::new(numbers.len(), |i: int| numbers[i]@)
}

/// A keyword with three numbers behind it.
pub open spec fn number_line(lead: Seq<char>, t: Seq<Seq<char>>, i: int) -> Seq<char> {
    lead + (spaced(t[i]) + spaced(t[i + 1]) + spaced(t[i + 2]))
}

/// Writes a line behind a text.
pub(crate) fn push_line(out: &mut String, s: &str, Ghost(ls): Ghost<Seq<Seq<char>>>)
    requires
        old(out)@ == joined(ls),
    ensures
        final(out)@ == joined(ls.push(s@)),
{
    out.append(s);
    out.push('\n');
    proof {
        assert(ls.push(s@).drop_last() =~= ls);
        assert(out@ =~= joined(ls) + s@ + seq!['\n']);
    }
}

/// Writes a keyword and three numbers as a line behind a text.
pub(crate) fn push_number_line(out: &mut String, lead: &str, t: &[String], i: usize, Ghost(ls): Ghost<Seq<Seq<char>>>)
    requires
        old(out)@ == joined(ls),
        i + 2 < t@.len() <= usize::MAX,
    ensures
        final(out)@ == joined(ls.push(number_line(lead@, spelled(t@), i as int))),
{
    let ghost was = out@;
    out.append(lead);
    out.push(' ');
    out.append(t[i].as_str());
    out.push(' ');
    out.append(t[i + 1].as_str());
    out.push(' ');
    out.append(t[i + 2].as_str());
    out.push('\n');
    proof {
        let l = number_line(lead@, spelled(t@), i as int);
        assert(ls.push(l).drop_last() =~= ls);
        assert(out@ =~= was + l + seq!['\n']);
    }
}

} // verus!
