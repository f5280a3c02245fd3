//! STL, binary and ASCII.
//!
//! Binary STL stores single-precision coordinates, which widen exactly. The
//! normal that a facet stores is ignored; normals are computed from the winding.

use crate::arithmetic::product;
use crate::double::Double;
use crate::math::{cross_product, normalized_vector, vector_difference, Vec3};
use crate::mesh::io::{
    mesh_error, number_line, push_line, push_number_line, read_vertex, spelled, vertex_of, ParseError,
};
use crate::mesh::units::Unit;
use crate::mesh::{corners_of, mesh_fault, MeshMeta, TriMesh};
use crate::single::{narrow, narrowed, widen, widened};
use crate::text::{
    characters, decimal_text, lines, push_number, same_text, split_lines, split_words, texts, words,
};
use crate::text_laws::joined;
use vstd::prelude::*;

verus! {

/// Bytes before the triangles: a header and their count.
pub const HEADER_LEN: usize = 84;

/// Bytes of a triangle: twelve single-precision numbers and an attribute count.
pub const TRIANGLE_LEN: usize = 50;

/// The unsigned number in four bytes, the lowest first.
pub open spec fn word_at(bytes: Seq<u8>, i: int) -> u32 {
    (bytes[i] + 0x100 * bytes[i + 1] + 0x1_0000 * bytes[i + 2] + 0x100_0000 * bytes[i + 3]) as u32
}

fn word(bytes: &[u8], i: usize) -> (w: u32)
    requires
        i + 4 <= bytes@.len(),
    ensures
        w == word_at(bytes@, i as int),
{
    bytes[i] as u32 + 0x100 * (bytes[i + 1] as u32) + 0x1_0000 * (bytes[i + 2] as u32) + 0x100_0000 * (bytes[i
        + 3] as u32)
}

/// How many bytes a binary STL of its declared triangle count takes.
pub open spec fn binary_length(bytes: Seq<u8>) -> int {
    84 + 50 * word_at(bytes, 80)
}

/// The bytes are as many as a binary STL of its declared triangle count takes.
pub open spec fn binary_layout(bytes: Seq<u8>) -> bool {
    bytes.len() >= 84 && bytes.len() == binary_length(bytes)
}

/// True if `bytes` has exactly the length that a binary STL of its declared
/// triangle count would have.
pub fn looks_binary(bytes: &[u8]) -> (r: bool)
    ensures
        r == binary_layout(bytes@),
{
    if bytes.len() < HEADER_LEN {
        return false;
    }
    let count: u64 = word(bytes, 80) as u64;
    84 + 50 * count == bytes.len() as u64
}

/// One coordinate of a binary STL, scaled.
pub open spec fn binary_coordinate(bytes: Seq<u8>, at: int, unit: Unit) -> Double {
    product(widened(word_at(bytes, at)), unit.factor())
}

/// Corner `c` of triangle `i` of a binary STL, scaled.
pub open spec fn binary_corner(bytes: Seq<u8>, i: int, c: int, unit: Unit) -> Vec3 {
    let at = 84 + 50 * i + 12 + 12 * c;
    Vec3 {
        x: binary_coordinate(bytes, at, unit),
        y: binary_coordinate(bytes, at + 4, unit),
        z: binary_coordinate(bytes, at + 8, unit),
    }
}

/// The vertices of a binary STL of `n` triangles: three to each, none shared.
pub open spec fn binary_vertices(bytes: Seq<u8>, n: nat, unit: Unit) -> Seq<Vec3> {
    Seq::new(3 * n, |k: int| binary_corner(bytes, k / 3, k % 3, unit))
}

/// The triangles of a soup of `n`: each takes the next three vertices.
pub open spec fn soup_triangles(n: nat) -> Seq<[u32; 3]> {
    Seq::new(n, |i: int| [(3 * i) as u32, (3 * i + 1) as u32, (3 * i + 2) as u32])
}

/// The message for a file whose length is not the one it declares.
pub open spec fn length_message(bytes: Seq<u8>) -> Seq<char> {
    let declared = word_at(bytes, 80) as nat;
    let expected = binary_length(bytes);
    if expected > usize::MAX {
        "declared triangle count "@ + decimal_text(declared) + " overflows any possible file"@
    } else {
        "header declares "@ + decimal_text(declared) + " triangles, which needs "@ + decimal_text(expected as nat)
            + " bytes, but the file is "@ + decimal_text(bytes.len()) + " bytes ("@ + (if bytes.len() < expected {
            "truncated"@
        } else {
            "trailing data"@
        }) + "); refusing to read past the end"@
    }
}

/// Reads a binary STL, scaling from `unit` to millimetres.
///
/// The declared triangle count is held against the length of the file before any
/// triangle is read.
pub fn read_binary(bytes: &[u8], unit: Unit) -> (r: Result<TriMesh, ParseError>)
    ensures
        ({
            let b = bytes@;
            let n = word_at(b, 80) as nat;
            if b.len() < 84 {
                r matches Err(e) && e.says(
                    "stl-binary"@,
                    None,
                    Some(b.len() as usize),
                    "file is "@ + decimal_text(b.len()) + " bytes; a binary STL needs at least 84"@,
                )
            } else if b.len() != binary_length(b) {
                r matches Err(e) && e.says("stl-binary"@, None, Some(80), length_message(b))
            } else {
                match mesh_fault(binary_vertices(b, n, unit), soup_triangles(n)) {
                    Some(fault) => r matches Err(e) && e.says("stl-binary"@, None, None, fault.text()),
                    None => r matches Ok(m) && m.points() == binary_vertices(b, n, unit) && m.faces() == soup_triangles(
                        n,
                    ) && m.origin().source_format@ == "stl-binary"@ && m.origin().source_unit == unit
                        && m.origin().polygons_triangulated == 0 && m.origin().non_convex_polygons == 0
                        && m.origin().ignored_records == n,
                }
            }
        }),
{
    let len: usize = bytes.len();
    if len < HEADER_LEN {
        let mut s: String = String::from_str("file is ");
        push_number(&mut s, len as u64);
        s.append(" bytes; a binary STL needs at least 84");
        proof {
            assert(s@ =~= "file is "@ + decimal_text(len as nat) + " bytes; a binary STL needs at least 84"@);
        }
        return Err(ParseError { format: "stl-binary", line: None, offset: Some(len), message: s });
    }
    let declared: u32 = word(bytes, 80);
    let expected: u64 = 84 + 50 * (declared as u64);
    if expected != len as u64 {
        let mut s: String = String::new();
        if expected > usize::MAX as u64 {
            s.append("declared triangle count ");
            push_number(&mut s, declared as u64);
            s.append(" overflows any possible file");
        } else {
            s.append("header declares ");
            push_number(&mut s, declared as u64);
            s.append(" triangles, which needs ");
            push_number(&mut s, expected);
            s.append(" bytes, but the file is ");
            push_number(&mut s, len as u64);
            s.append(" bytes (");
            if (len as u64) < expected {
                s.append("truncated");
            } else {
                s.append("trailing data");
            }
            s.append("); refusing to read past the end");
        }
        proof {
            assert(s@ =~= length_message(bytes@));
        }
        return Err(ParseError { format: "stl-binary", line: None, offset: Some(80), message: s });
    }
    let ghost n = declared as nat;
    let scale: Double = unit.millimetres_per();
    let mut vertices: Vec<Vec3> = Vec::new();
    let mut triangles: Vec<[u32; 3]> = Vec::new();
    let count: usize = declared as usize;
    let mut i: usize = 0;
    while i < count
        invariant
            i <= count,
            count == declared == n,
            bytes@.len() == 84 + 50 * n,
            bytes@.len() == len,
            scale == unit.factor(),
            vertices@.len() == 3 * i,
            forall|k: int| 0 <= k < vertices@.len() ==> #[trigger] vertices@[k] == binary_corner(bytes@, k / 3, k % 3, unit),
            triangles@ == soup_triangles(i as nat),
        decreases count - i,
    {
        let first: usize = vertices.len();
        let mut c: usize = 0;
        while c < 3
            invariant
                c <= 3,
                i < count,
                count == declared == n,
                bytes@.len() == 84 + 50 * n,
                bytes@.len() == len,
                scale == unit.factor(),
                first == 3 * i,
                vertices@.len() == first + c,
                forall|k: int|
                    0 <= k < vertices@.len() ==> #[trigger] vertices@[k] == binary_corner(bytes@, k / 3, k % 3, unit),
            decreases 3 - c,
        {
            let at: usize = HEADER_LEN + i * TRIANGLE_LEN + 12 + c * 12;
            let x: Double = widen(word(bytes, at)).times(scale);
            let y: Double = widen(word(bytes, at + 4)).times(scale);
            let z: Double = widen(word(bytes, at + 8)).times(scale);
            proof {
                let k = first + c;
                assert(k / 3 == i && k % 3 == c);
            }
            vertices.push(Vec3 { x, y, z });
            c = c + 1;
        }
        let ghost was = triangles@;
        triangles.push([first as u32, (first + 1) as u32, (first + 2) as u32]);
        i = i + 1;
        proof {
            assert(triangles@ =~= soup_triangles(i as nat));
        }
    }
    proof {
        assert(vertices@ =~= binary_vertices(bytes@, n, unit));
    }
    let meta: MeshMeta = MeshMeta {
        source_format: String::from_str("stl-binary"),
        source_unit: unit,
        polygons_triangulated: 0,
        non_convex_polygons: 0,
        ignored_records: declared,
    };
    match TriMesh::new(vertices, triangles, meta) {
        Ok(m) => Ok(m),
        Err(e) => Err(mesh_error("stl-binary", e)),
    }
}

/// What has been read of an ASCII STL.
#[verifier::ext_equal]
pub struct AsciiState {
    /// The corners of the facets that were closed.
    pub vertices: Seq<Vec3>,
    /// The vertices since a facet was opened or closed.
    pub pending: Seq<Vec3>,
    /// A facet is open.
    pub in_facet: bool,
    /// How many facets were closed.
    pub facets: int,
    /// A `solid` line was read.
    pub solid: bool,
    /// An `endsolid` line was read.
    pub endsolid: bool,
}

/// What a line adds, or what is wrong with it.
pub open spec fn ascii_step(s: AsciiState, w: Seq<Seq<char>>, unit: Unit) -> Result<AsciiState, Seq<char>> {
    if w.len() == 0 {
        Ok(s)
    } else if w[0] == "solid"@ {
        Ok(AsciiState { solid: true, ..s })
    } else if w[0] == "endsolid"@ {
        Ok(AsciiState { endsolid: true, ..s })
    } else if w[0] == "facet"@ {
        Ok(AsciiState { in_facet: true, pending: Seq::empty(), ..s })
    } else if w[0] == "vertex"@ {
        match vertex_of(w, unit) {
            Ok(v) => Ok(AsciiState { pending: s.pending.push(v), ..s }),
            Err(m) => Err(m),
        }
    } else if w[0] == "endfacet"@ {
        if s.pending.len() != 3 {
            Err("facet has "@ + decimal_text(s.pending.len()) + " vertices; STL facets are triangles"@)
        } else {
            Ok(
                AsciiState {
                    vertices: s.vertices + s.pending,
                    pending: Seq::empty(),
                    in_facet: false,
                    facets: s.facets + 1,
                    ..s
                },
            )
        }
    } else {
        Ok(s)
    }
}

/// What the lines from index `i` on make of a state, or the first thing wrong and
/// the number of its line.
pub open spec fn ascii_from(s: AsciiState, l: Seq<Seq<char>>, i: int, unit: Unit) -> Result<
    AsciiState,
    (int, Seq<char>),
>
    decreases l.len() - i,
{
    if i >= l.len() {
        Ok(s)
    } else {
        match ascii_step(s, words(l[i]), unit) {
            Err(m) => Err((i + 1, m)),
            Ok(t) => ascii_from(t, l, i + 1, unit),
        }
    }
}

/// Nothing read yet.
pub open spec fn ascii_start() -> AsciiState {
    AsciiState {
        vertices: Seq::empty(),
        pending: Seq::empty(),
        in_facet: false,
        facets: 0,
        solid: false,
        endsolid: false,
    }
}

/// What an ASCII STL holds, or the first thing wrong and the number of its line.
pub open spec fn ascii_contents(text: Seq<char>, unit: Unit) -> Result<AsciiState, (int, Seq<char>)> {
    ascii_from(ascii_start(), lines(text), 0, unit)
}

/// What has been read of an ASCII STL.
struct AsciiReader {
    vertices: Vec<Vec3>,
    triangles: Vec<[u32; 3]>,
    pending: Vec<Vec3>,
    in_facet: bool,
    solid: bool,
    endsolid: bool,
}

impl AsciiReader {
    spec fn state(self) -> AsciiState {
        AsciiState {
            vertices: self.vertices@,
            pending: self.pending@,
            in_facet: self.in_facet,
            facets: self.triangles@.len() as int,
            solid: self.solid,
            endsolid: self.endsolid,
        }
    }

    /// The triangles are those of a soup, and there are no more vertices than
    /// lines.
    spec fn within(self, n: int) -> bool {
        &&& self.triangles@ == soup_triangles(self.triangles@.len())
        &&& self.vertices@.len() == 3 * self.triangles@.len()
        &&& self.vertices@.len() + self.pending@.len() <= n
    }

    /// Closes a facet.
    fn close(&mut self, Ghost(n): Ghost<int>) -> (r: Result<(), String>)
        requires
            old(self).within(n),
            n < u32::MAX,
        ensures
            match r {
                Ok(_) => old(self).pending@.len() == 3 && final(self).within(n) && final(self).state() == (AsciiState {
                    vertices: old(self).vertices@ + old(self).pending@,
                    pending: Seq::empty(),
                    in_facet: false,
                    facets: (old(self).triangles@.len() + 1) as int,
                    ..old(self).state()
                }),
                Err(m) => old(self).pending@.len() != 3 && m@ == "facet has "@ + decimal_text(
                    old(self).pending@.len(),
                ) + " vertices; STL facets are triangles"@,
            },
    {
        if self.pending.len() != 3 {
            let mut m: String = String::from_str("facet has ");
            push_number(&mut m, self.pending.len() as u64);
            m.append(" vertices; STL facets are triangles");
            proof {
                assert(m@ =~= "facet has "@ + decimal_text(self.pending@.len())
                    + " vertices; STL facets are triangles"@);
            }
            return Err(m);
        }
        let first: u32 = self.vertices.len() as u32;
        let a: Vec3 = self.pending[0];
        let b: Vec3 = self.pending[1];
        let c: Vec3 = self.pending[2];
        self.vertices.push(a);
        self.vertices.push(b);
        self.vertices.push(c);
        self.triangles.push([first, first + 1, first + 2]);
        self.pending.clear();
        self.in_facet = false;
        proof {
            assert(self.vertices@ =~= old(self).vertices@ + old(self).pending@);
            assert(self.triangles@ =~= soup_triangles(self.triangles@.len()));
        }
        Ok(())
    }

    /// Reads a line.
    fn line(&mut self, w: &Vec<Vec<char>>, unit: Unit, Ghost(n): Ghost<int>) -> (r: Result<(), String>)
        requires
            old(self).within(n),
            n < u32::MAX,
        ensures
            match r {
                Ok(_) => ascii_step(old(self).state(), texts(w@), unit) == Ok::<AsciiState, Seq<char>>(
                    final(self).state(),
                ) && final(self).within(n + 1),
                Err(m) => ascii_step(old(self).state(), texts(w@), unit) == Err::<AsciiState, Seq<char>>(m@),
            },
    {
        if w.len() == 0 {
            return Ok(());
        }
        assert(texts(w@)[0] == w@[0]@);
        if same_text(w[0].as_slice(), "solid") {
            self.solid = true;
        } else if same_text(w[0].as_slice(), "endsolid") {
            self.endsolid = true;
        } else if same_text(w[0].as_slice(), "facet") {
            self.in_facet = true;
            self.pending.clear();
        } else if same_text(w[0].as_slice(), "vertex") {
            match read_vertex(w, unit) {
                Ok(v) => {
                    self.pending.push(v);
                },
                Err(m) => {
                    return Err(m);
                },
            }
        } else if same_text(w[0].as_slice(), "endfacet") {
            return self.close(Ghost(n));
        }
        Ok(())
    }
}

/// Reads an ASCII STL, scaling from `unit` to millimetres.
///
/// A missing `endsolid` is counted, and the name behind `solid` may be anything.
/// The error names the line of a malformed vertex or of a facet that is no
/// triangle; a truncated file and geometry that the mesh constructor rejects have
/// no line.
pub fn read_ascii(text: &str, unit: Unit) -> (r: Result<TriMesh, ParseError>)
    requires
        lines(text@).len() <= u32::MAX,
    ensures
        match ascii_contents(text@, unit) {
            Err((line, m)) => r matches Err(e) && e.says("stl-ascii"@, Some(line as usize), None, m),
            Ok(s) => if s.in_facet {
                r matches Err(e) && e.says("stl-ascii"@, None, None, "file ends inside a facet; it is truncated"@)
            } else if !s.solid && s.facets == 0 {
                r matches Err(e) && e.says(
                    "stl-ascii"@,
                    None,
                    None,
                    "no `solid` header and no facets; this does not look like an ASCII STL"@,
                )
            } else {
                match mesh_fault(s.vertices, soup_triangles(s.facets as nat)) {
                    Some(fault) => r matches Err(e) && e.says("stl-ascii"@, None, None, fault.text()),
                    None => r matches Ok(m) && m.points() == s.vertices && m.faces() == soup_triangles(s.facets as nat)
                        && m.origin().source_format@ == "stl-ascii"@ && m.origin().source_unit == unit
                        && m.origin().polygons_triangulated == 0 && m.origin().non_convex_polygons == 0
                        && m.origin().ignored_records == (if s.endsolid {
                        0int
                    } else {
                        1
                    }),
                }
            },
        },
{
    let chars: Vec<char> = characters(text);
    let all: Vec<Vec<char>> = split_lines(chars.as_slice());
    let ghost l = lines(text@);
    let mut reader: AsciiReader = AsciiReader {
        vertices: Vec::new(),
        triangles: Vec::new(),
        pending: Vec::new(),
        in_facet: false,
        solid: false,
        endsolid: false,
    };
    proof {
        assert(reader.state() =~= ascii_start());
        assert(reader.triangles@ =~= soup_triangles(0));
    }
    let mut i: usize = 0;
    while i < all.len()
        invariant
            i <= all@.len() <= u32::MAX,
            l == texts(all@),
            l == lines(text@),
            reader.within(i as int),
            ascii_contents(text@, unit) == ascii_from(reader.state(), l, i as int, unit),
        decreases all@.len() - i,
    {
        let w: Vec<Vec<char>> = split_words(all[i].as_slice());
        proof {
            assert(texts(all@)[i as int] == all@[i as int]@);
        }
        match reader.line(&w, unit, Ghost(i as int)) {
            Ok(_) => {},
            Err(message) => {
                return Err(ParseError { format: "stl-ascii", line: Some(i + 1), offset: None, message });
            },
        }
        i = i + 1;
    }
    if reader.in_facet {
        return Err(ParseError::general("stl-ascii", "file ends inside a facet; it is truncated"));
    }
    if !reader.solid && reader.triangles.len() == 0 {
        return Err(
            ParseError::general(
                "stl-ascii",
                "no `solid` header and no facets; this does not look like an ASCII STL",
            ),
        );
    }
    let meta: MeshMeta = MeshMeta {
        source_format: String::from_str("stl-ascii"),
        source_unit: unit,
        polygons_triangulated: 0,
        non_convex_polygons: 0,
        ignored_records: if reader.endsolid { 0 } else { 1 },
    };
    match TriMesh::new(reader.vertices, reader.triangles, meta) {
        Ok(m) => Ok(m),
        Err(e) => Err(mesh_error("stl-ascii", e)),
    }
}

/// A number as four bytes, the lowest first.
pub open spec fn word_bytes(w: u32) -> Seq<u8> {
    seq![(w % 0x100) as u8, (w / 0x100 % 0x100) as u8, (w / 0x1_0000 % 0x100) as u8, (w / 0x100_0000) as u8]
}

fn push_word(out: &mut Vec<u8>, w: u32)
    ensures
        final(out)@ == old(out)@ + word_bytes(w),
{
    out.push((w % 0x100) as u8);
    out.push((w / 0x100 % 0x100) as u8);
    out.push((w / 0x1_0000 % 0x100) as u8);
    out.push((w / 0x100_0000) as u8);
    proof {
        assert(out@ =~= old(out)@ + word_bytes(w));
    }
}

/// A vector as three single-precision numbers.
#[verifier::opaque]
pub open spec fn vector_bytes(v: Vec3) -> Seq<u8> {
    word_bytes(narrowed(v.x)) + word_bytes(narrowed(v.y)) + word_bytes(narrowed(v.z))
}

fn push_vector(out: &mut Vec<u8>, v: Vec3)
    ensures
        final(out)@ == old(out)@ + vector_bytes(v),
{
    push_word(out, narrow(v.x));
    push_word(out, narrow(v.y));
    push_word(out, narrow(v.z));
    proof {
        reveal(vector_bytes);
        assert(out@ =~= old(out)@ + vector_bytes(v));
    }
}

/// The normal written for a triangle: its unit normal, or zero where it has none.
#[verifier::opaque]
pub open spec fn written_normal(t: (Vec3, Vec3, Vec3)) -> Vec3 {
    match normalized_vector(cross_product(vector_difference(t.1, t.0), vector_difference(t.2, t.0))) {
        Some(n) => n,
        None => Vec3 { x: Double { bits: 0 }, y: Double { bits: 0 }, z: Double { bits: 0 } },
    }
}

/// A triangle as a binary STL has it: normal, corners, and no attributes.
pub open spec fn triangle_bytes(t: (Vec3, Vec3, Vec3)) -> Seq<u8> {
    vector_bytes(written_normal(t)) + vector_bytes(t.0) + vector_bytes(t.1) + vector_bytes(t.2) + seq![0u8, 0u8]
}

fn normal_of(mesh: &TriMesh, i: u32) -> (n: Vec3)
    requires
        i < mesh.faces().len(),
    ensures
        n == written_normal(mesh.corners(i as int)),
{
    proof {
        reveal(written_normal);
    }
    match mesh.face_normal(i) {
        Some(n) => n,
        None => Vec3::zeroed(),
    }
}

fn push_triangle(out: &mut Vec<u8>, mesh: &TriMesh, i: u32)
    requires
        i < mesh.faces().len(),
    ensures
        final(out)@ == old(out)@ + triangle_bytes(mesh.corners(i as int)),
{
    let t: [Vec3; 3] = mesh.triangle(i);
    let n: Vec3 = normal_of(mesh, i);
    push_vector(out, n);
    push_vector(out, t[0]);
    push_vector(out, t[1]);
    push_vector(out, t[2]);
    out.push(0);
    out.push(0);
    proof {
        let (a, b, c, d) = (vector_bytes(n), vector_bytes(t[0]), vector_bytes(t[1]), vector_bytes(t[2]));
        assert(out@ =~= old(out)@ + (a + b + c + d + seq![0u8, 0u8]));
    }
}

/// The bytes of the banner that opens every file.
pub open spec fn banner() -> Seq<u8> {
    seq![0x63u8, 0x68, 0x69, 0x70, 0x62, 0x72, 0x65, 0x61, 0x6b, 0x65, 0x72]
}

/// The header: the banner, filled up with zeros to eighty bytes.
pub open spec fn header() -> Seq<u8> {
    banner() + Seq::new(69, |i: int| 0u8)
}

/// The header, a triangle count, and the first `n` triangles.
pub open spec fn binary_prefix(vertices: Seq<Vec3>, triangles: Seq<[u32; 3]>, n: nat) -> Seq<u8>
    decreases n,
{
    if n == 0 {
        header() + word_bytes(triangles.len() as u32)
    } else {
        binary_prefix(vertices, triangles, (n - 1) as nat) + triangle_bytes(corners_of(vertices, triangles[n - 1]))
    }
}

/// A mesh as a binary STL.
pub open spec fn binary_text(vertices: Seq<Vec3>, triangles: Seq<[u32; 3]>) -> Seq<u8> {
    binary_prefix(vertices, triangles, triangles.len())
}

/// Writes a binary STL in millimetres.
///
/// Coordinates narrow to single precision, so that a round trip is exact only for
/// numbers that single precision has. The header is fixed: equal meshes give
/// equal bytes.
pub fn write_binary(mesh: &TriMesh) -> (r: Vec<u8>)
    ensures
        r@ == binary_text(mesh.points(), mesh.faces()),
{
    let count: u32 = mesh.triangle_count();
    let mut out: Vec<u8> = vec![0x63, 0x68, 0x69, 0x70, 0x62, 0x72, 0x65, 0x61, 0x6b, 0x65, 0x72];
    proof {
        assert(out@ =~= banner() + Seq::new(0, |i: int| 0u8));
    }
    let mut k: usize = 0;
    while k < 69
        invariant
            k <= 69,
            out@ == banner() + Seq::new(k as nat, |i: int| 0u8),
        decreases 69 - k,
    {
        out.push(0);
        k = k + 1;
        proof {
            assert(out@ =~= banner() + Seq::new(k as nat, |i: int| 0u8));
        }
    }
    push_word(&mut out, count);
    let mut i: u32 = 0;
    while i < count
        invariant
            i <= count,
            count == mesh.faces().len(),
            out@ == binary_prefix(mesh.points(), mesh.faces(), i as nat),
        decreases count - i,
    {
        push_triangle(&mut out, mesh, i);
        i = i + 1;
    }
    out
}

/// Number `j` of the twelve that an ASCII STL shows of a triangle: its normal,
/// then its corners.
pub open spec fn shown_number(t: (Vec3, Vec3, Vec3), j: int) -> Double {
    if j < 3 {
        written_normal(t).at(j)
    } else if j < 6 {
        t.0.at(j - 3)
    } else if j < 9 {
        t.1.at(j - 6)
    } else {
        t.2.at(j - 9)
    }
}

fn push_components(out: &mut Vec<Double>, v: Vec3)
    ensures
        final(out)@ == old(out)@ + seq![v.at(0), v.at(1), v.at(2)],
{
    out.push(v.x);
    out.push(v.y);
    out.push(v.z);
    proof {
        assert(out@ =~= old(out)@ + seq![v.at(0), v.at(1), v.at(2)]);
    }
}

/// The numbers that an ASCII STL of the mesh shows, in order: twelve to each
/// triangle.
pub fn ascii_numbers(mesh: &TriMesh) -> (r: Vec<Double>)
    ensures
        r@ == Seq::new(
            12 * mesh.faces().len(),
            |k: int| shown_number(mesh.corners(k / 12), k % 12),
        ),
{
    let count: u32 = mesh.triangle_count();
    let mut out: Vec<Double> = Vec::new();
    let mut i: u32 = 0;
    while i < count
        invariant
            i <= count,
            count == mesh.faces().len(),
            out@.len() == 12 * i,
            forall|k: int| 0 <= k < 12 * i ==> #[trigger] out@[k] == shown_number(mesh.corners(k / 12), k % 12),
        decreases count - i,
    {
        let t: [Vec3; 3] = mesh.triangle(i);
        let n: Vec3 = normal_of(mesh, i);
        let ghost was = out@;
        push_components(&mut out, n);
        push_components(&mut out, t[0]);
        push_components(&mut out, t[1]);
        push_components(&mut out, t[2]);
        i = i + 1;
        proof {
            assert forall|k: int| 0 <= k < 12 * i implies #[trigger] out@[k] == shown_number(
                mesh.corners(k / 12),
                k % 12,
            ) by {
                if k < was.len() {
                    assert(out@[k] == was[k]);
                } else {
                    assert(k / 12 == i - 1);
                    assert(mesh.corners(i - 1) == (t[0], t[1], t[2]));
                }
            }
        }
    }
    proof {
        assert(out@ =~= Seq::new(12 * mesh.faces().len(), |k: int| shown_number(mesh.corners(k / 12), k % 12)));
    }
    out
}

/// The lines of facet `i`.
pub open spec fn facet_lines(t: Seq<Seq<char>>, i: int) -> Seq<Seq<char>> {
    seq![
        number_line("  facet normal"@, t, 12 * i),
        "    outer loop"@,
        number_line("      vertex"@, t, 12 * i + 3),
        number_line("      vertex"@, t, 12 * i + 6),
        number_line("      vertex"@, t, 12 * i + 9),
        "    endloop"@,
        "  endfacet"@,
    ]
}

/// The first line and those of the first `n` facets.
pub open spec fn ascii_body(name: Seq<char>, t: Seq<Seq<char>>, n: nat) -> Seq<Seq<char>>
    decreases n,
{
    if n == 0 {
        seq!["solid "@ + name]
    } else {
        ascii_body(name, t, (n - 1) as nat) + facet_lines(t, n - 1)
    }
}

/// The lines of an ASCII STL of `n` triangles.
pub open spec fn ascii_lines(name: Seq<char>, t: Seq<Seq<char>>, n: nat) -> Seq<Seq<char>> {
    ascii_body(name, t, n).push("endsolid "@ + name)
}

/// Writes an ASCII STL in millimetres, given the texts of its numbers.
///
/// The numbers are those of [`ascii_numbers`]; where each text spells its number
/// exactly, so does the file.
pub fn write_ascii(mesh: &TriMesh, name: &str, numbers: &[String]) -> (r: String)
    requires
        numbers@.len() == 12 * mesh.faces().len(),
    ensures
        r@ == joined(ascii_lines(name@, spelled(numbers@), mesh.faces().len())),
{
    let count: u32 = mesh.triangle_count();
    let ghost t = spelled(numbers@);
    let mut out: String = String::new();
    let mut head: String = String::from_str("solid ");
    head.append(name);
    let ghost none = Seq::<Seq<char>>::empty();
    push_line(&mut out, head.as_str(), Ghost(none));
    proof {
        assert(none.push("solid "@ + name@) =~= ascii_body(name@, t, 0));
    }
    let mut i: u32 = 0;
    while i < count
        invariant
            i <= count,
            count == mesh.faces().len(),
            t == spelled(numbers@),
            numbers@.len() == 12 * count,
            out@ == joined(ascii_body(name@, t, i as nat)),
        decreases count - i,
    {
        push_facet(&mut out, numbers, i as usize, Ghost(ascii_body(name@, t, i as nat)));
        i = i + 1;
    }
    let mut foot: String = String::from_str("endsolid ");
    foot.append(name);
    push_line(&mut out, foot.as_str(), Ghost(ascii_body(name@, t, count as nat)));
    out
}

fn push_facet(out: &mut String, t: &[String], i: usize, Ghost(ls): Ghost<Seq<Seq<char>>>)
    requires
        old(out)@ == joined(ls),
        12 * i + 12 <= t@.len(),
    ensures
        final(out)@ == joined(ls + facet_lines(spelled(t@), i as int)),
{
    let ghost u = spelled(t@);
    let len: usize = t.len();
    assert(12 * i + 12 <= len);
    let k: usize = 12 * i;
    push_number_line(out, "  facet normal", t, k, Ghost(ls));
    let ghost l1 = ls.push(number_line("  facet normal"@, u, k as int));
    push_line(out, "    outer loop", Ghost(l1));
    let ghost l2 = l1.push("    outer loop"@);
    push_number_line(out, "      vertex", t, k + 3, Ghost(l2));
    let ghost l3 = l2.push(number_line("      vertex"@, u, k + 3));
    push_number_line(out, "      vertex", t, k + 6, Ghost(l3));
    let ghost l4 = l3.push(number_line("      vertex"@, u, k + 6));
    push_number_line(out, "      vertex", t, k + 9, Ghost(l4));
    let ghost l5 = l4.push(number_line("      vertex"@, u, k + 9));
    push_line(out, "    endloop", Ghost(l5));
    let ghost l6 = l5.push("    endloop"@);
    push_line(out, "  endfacet", Ghost(l6));
    proof {
        assert(l6.push("  endfacet"@) =~= ls + facet_lines(u, i as int));
    }
}

} // verus!
