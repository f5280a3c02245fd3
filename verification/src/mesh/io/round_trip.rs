//! What reading gives back of what was written.

use crate::arithmetic::product;
use crate::decimal::number_of;
use crate::double::Double;
use crate::math::Vec3;
use crate::mesh::io::stl::{
    ascii_body, ascii_contents, ascii_from, ascii_lines, ascii_start, ascii_step, binary_layout, binary_prefix,
    binary_text, binary_vertices, facet_lines, header, soup_triangles, triangle_bytes, vector_bytes,
    word_at, word_bytes, written_normal, AsciiState,
};
use crate::mesh::io::{coordinate_of, number_line, vertex_of};
use crate::mesh::io::obj::{
    blank, face_line, fan, line_step, obj_contents, obj_lines, read_from, resolved, resolved_from, vertex_lines, ObjState,
};
use crate::mesh::units::Unit;
use crate::mesh::{corners_of, law_faultless_is_sound, mesh_fault, sound, sound_vertex};
use crate::order::law_one_is_neutral;
use crate::single::{law_narrowing_undoes_widening, narrowed, widened, SINGLE_INFINITY};
use crate::text::{decimal_digit, decimal_text, lines, words};
use crate::text_laws::{
    joined, law_decimal_spells, law_first_word, law_lines_of_joined, law_return_is_no_word, law_words_behind_space,
    lemma_position_is, lemma_three_words, plain_word, single_line, spaced,
};
use vstd::prelude::*;

verus! {

/// A finite single-precision number has this value.
pub open spec fn is_single(x: Double) -> bool {
    exists|b: u32| b % 0x8000_0000 < SINGLE_INFINITY && #[trigger] widened(b) == x
}

/// All coordinates are single-precision numbers.
pub open spec fn is_single_vector(v: Vec3) -> bool {
    is_single(v.x) && is_single(v.y) && is_single(v.z)
}

/// The corners of all triangles in turn: a mesh without its sharing of vertices.
pub open spec fn soup_corners(vertices: Seq<Vec3>, triangles: Seq<[u32; 3]>) -> Seq<Vec3> {
    Seq::new(3 * triangles.len(), |k: int| vertices[triangles[k / 3][k % 3] as int])
}

/// A soup of sound triangles is a sound mesh.
pub proof fn lemma_soup_is_sound(vertices: Seq<Vec3>, triangles: Seq<[u32; 3]>)
    requires
        sound(vertices, triangles),
        3 * triangles.len() <= u32::MAX,
    ensures
        sound(soup_corners(vertices, triangles), soup_triangles(triangles.len())),
{
    let v = soup_corners(vertices, triangles);
    assert forall|k: int| 0 <= k < v.len() implies sound_vertex(#[trigger] v[k]) by {
        let t = triangles[k / 3];
        assert(t[0] < vertices.len() && t[1] < vertices.len() && t[2] < vertices.len());
        assert(0 <= k % 3 < 3);
        assert(sound_vertex(vertices[t[k % 3] as int]));
    }
}

proof fn lemma_word_bytes(w: u32)
    ensures
        word_bytes(w).len() == 4,
        word_at(word_bytes(w), 0) == w,
{
    let v = w as int;
    let q1 = v / 0x100;
    let q2 = q1 / 0x100;
    let q3 = q2 / 0x100;
    vstd::arithmetic::div_mod::lemma_div_denominator(v, 0x100, 0x100);
    vstd::arithmetic::div_mod::lemma_div_denominator(v, 0x1_0000, 0x100);
    assert(v / 0x1_0000 == q2 && v / 0x100_0000 == q3);
    assert(v == 0x100 * q1 + v % 0x100 && q1 == 0x100 * q2 + q1 % 0x100 && q2 == 0x100 * q3 + q2 % 0x100);
    assert(0 <= q3 < 0x100);
    let s = word_bytes(w);
    assert(s[0] == v % 0x100);
    assert(s[1] == q1 % 0x100);
    assert(s[2] == q2 % 0x100);
    assert(s[3] == q3);
}

proof fn lemma_word_in(bytes: Seq<u8>, at: int, w: u32)
    requires
        0 <= at,
        at + 4 <= bytes.len(),
        bytes.subrange(at, at + 4) == word_bytes(w),
    ensures
        word_at(bytes, at) == w,
{
    lemma_word_bytes(w);
    let s = bytes.subrange(at, at + 4);
    assert(s[0] == bytes[at] && s[1] == bytes[at + 1] && s[2] == bytes[at + 2] && s[3] == bytes[at + 3]);
}

proof fn lemma_vector_in(bytes: Seq<u8>, at: int, v: Vec3)
    requires
        0 <= at,
        at + 12 <= bytes.len(),
        bytes.subrange(at, at + 12) == vector_bytes(v),
    ensures
        word_at(bytes, at) == narrowed(v.x),
        word_at(bytes, at + 4) == narrowed(v.y),
        word_at(bytes, at + 8) == narrowed(v.z),
{
    reveal(vector_bytes);
    let s = bytes.subrange(at, at + 12);
    let (x, y, z) = (word_bytes(narrowed(v.x)), word_bytes(narrowed(v.y)), word_bytes(narrowed(v.z)));
    assert(bytes.subrange(at, at + 4) =~= s.subrange(0, 4));
    assert(bytes.subrange(at + 4, at + 8) =~= s.subrange(4, 8));
    assert(bytes.subrange(at + 8, at + 12) =~= s.subrange(8, 12));
    assert(s.subrange(0, 4) =~= x);
    assert(s.subrange(4, 8) =~= y);
    assert(s.subrange(8, 12) =~= z);
    lemma_word_in(bytes, at, narrowed(v.x));
    lemma_word_in(bytes, at + 4, narrowed(v.y));
    lemma_word_in(bytes, at + 8, narrowed(v.z));
}

proof fn lemma_vector_length(v: Vec3)
    ensures
        vector_bytes(v).len() == 12,
{
    reveal(vector_bytes);
}

proof fn lemma_triangle_in(bytes: Seq<u8>, at: int, t: (Vec3, Vec3, Vec3))
    requires
        0 <= at,
        at + 50 <= bytes.len(),
        bytes.subrange(at, at + 50) == triangle_bytes(t),
    ensures
        bytes.subrange(at + 12, at + 24) == vector_bytes(t.0),
        bytes.subrange(at + 24, at + 36) == vector_bytes(t.1),
        bytes.subrange(at + 36, at + 48) == vector_bytes(t.2),
{
    let s = triangle_bytes(t);
    lemma_vector_length(written_normal(t));
    lemma_vector_length(t.0);
    lemma_vector_length(t.1);
    lemma_vector_length(t.2);
    assert(s.subrange(12, 24) =~= vector_bytes(t.0));
    assert(s.subrange(24, 36) =~= vector_bytes(t.1));
    assert(s.subrange(36, 48) =~= vector_bytes(t.2));
    assert(bytes.subrange(at + 12, at + 24) =~= s.subrange(12, 24));
    assert(bytes.subrange(at + 24, at + 36) =~= s.subrange(24, 36));
    assert(bytes.subrange(at + 36, at + 48) =~= s.subrange(36, 48));
}

proof fn lemma_prefix(vertices: Seq<Vec3>, triangles: Seq<[u32; 3]>, n: nat)
    requires
        n <= triangles.len() <= u32::MAX,
    ensures
        ({
            let b = binary_prefix(vertices, triangles, n);
            &&& b.len() == 84 + 50 * n
            &&& word_at(b, 80) == triangles.len()
            &&& forall|i: int|
                0 <= i < n ==> b.subrange(84 + 50 * i, 84 + 50 * i + 50) == triangle_bytes(
                    #[trigger] corners_of(vertices, triangles[i]),
                )
        }),
    decreases n,
{
    let b = binary_prefix(vertices, triangles, n);
    if n == 0 {
        let w = word_bytes(triangles.len() as u32);
        assert(header().len() == 80);
        assert(b.subrange(80, 84) =~= w);
        lemma_word_in(b, 80, triangles.len() as u32);
    } else {
        let m = (n - 1) as nat;
        let a = binary_prefix(vertices, triangles, m);
        lemma_prefix(vertices, triangles, m);
        let t = corners_of(vertices, triangles[n - 1]);
        lemma_vector_length(written_normal(t));
        lemma_vector_length(t.0);
        lemma_vector_length(t.1);
        lemma_vector_length(t.2);
        assert(b[80] == a[80] && b[81] == a[81] && b[82] == a[82] && b[83] == a[83]);
        assert forall|i: int| 0 <= i < n implies b.subrange(84 + 50 * i, 84 + 50 * i + 50) == triangle_bytes(
            #[trigger] corners_of(vertices, triangles[i]),
        ) by {
            if i < m {
                assert(b.subrange(84 + 50 * i, 84 + 50 * i + 50) =~= a.subrange(84 + 50 * i, 84 + 50 * i + 50));
            } else {
                assert(b.subrange(84 + 50 * i, 84 + 50 * i + 50) =~= triangle_bytes(t));
            }
        }
    }
}

proof fn lemma_single_survives(x: Double)
    requires
        is_single(x),
    ensures
        product(widened(narrowed(x)), Unit::Millimetre.factor()) == x,
{
    let b = choose|b: u32| b % 0x8000_0000 < SINGLE_INFINITY && #[trigger] widened(b) == x;
    law_narrowing_undoes_widening(b);
    law_one_is_neutral(x);
}

/// A binary STL round trip gives back every triangle exactly, in order, where the
/// coordinates are single-precision numbers: what is written has the layout of a
/// binary STL of as many triangles, and its corners are those of the mesh.
pub proof fn law_binary_round_trip(vertices: Seq<Vec3>, triangles: Seq<[u32; 3]>)
    requires
        sound(vertices, triangles),
        3 * triangles.len() <= u32::MAX,
        forall|k: int|
            0 <= k < 3 * triangles.len() ==> is_single_vector(#[trigger] soup_corners(vertices, triangles)[k]),
    ensures
        binary_layout(binary_text(vertices, triangles)),
        word_at(binary_text(vertices, triangles), 80) == triangles.len(),
        binary_vertices(binary_text(vertices, triangles), triangles.len(), Unit::Millimetre) == soup_corners(
            vertices,
            triangles,
        ),
        mesh_fault(soup_corners(vertices, triangles), soup_triangles(triangles.len())) is None,
{
    let n = triangles.len();
    let b = binary_text(vertices, triangles);
    lemma_prefix(vertices, triangles, n);
    lemma_soup_is_sound(vertices, triangles);
    law_faultless_is_sound(soup_corners(vertices, triangles), soup_triangles(n));
    let soup = soup_corners(vertices, triangles);
    let read = binary_vertices(b, n, Unit::Millimetre);
    assert forall|k: int| 0 <= k < 3 * n implies read[k] == #[trigger] soup[k] by {
        let i = k / 3;
        let c = k % 3;
        let t = corners_of(vertices, triangles[i]);
        let at = 84 + 50 * i;
        lemma_triangle_in(b, at, t);
        let v = soup[k];
        assert(v == (if c == 0 {
            t.0
        } else if c == 1 {
            t.1
        } else {
            t.2
        }));
        assert(b.subrange(at + 12 + 12 * c, at + 12 + 12 * c + 12) == vector_bytes(v));
        lemma_vector_in(b, at + 12 + 12 * c, v);
        assert(is_single_vector(soup[k]));
        lemma_single_survives(v.x);
        lemma_single_survives(v.y);
        lemma_single_survives(v.z);
    }
    assert(read =~= soup);
}

/// A text spells a finite number exactly, as one word.
pub open spec fn spells(t: Seq<char>, x: Double) -> bool {
    plain_word(t) && number_of(t) == Some(x) && x.finite()
}

/// Spaces in front of a text.
spec fn indented(n: nat, s: Seq<char>) -> Seq<char>
    decreases n,
{
    if n == 0 {
        s
    } else {
        seq![' '] + indented((n - 1) as nat, s)
    }
}

proof fn lemma_indented(n: nat, s: Seq<char>)
    ensures
        words(indented(n, s)) == words(s),
        indented(n, s).len() == n + s.len(),
        forall|i: int| 0 <= i < n ==> #[trigger] indented(n, s)[i] == ' ',
        forall|i: int| n <= i < n + s.len() ==> #[trigger] indented(n, s)[i] == s[i - n],
    decreases n,
{
    if n > 0 {
        let m = (n - 1) as nat;
        lemma_indented(m, s);
        law_words_behind_space(' ', indented(m, s));
        assert forall|i: int| 0 <= i < n implies #[trigger] indented(n, s)[i] == ' ' by {
            if i > 0 {
                assert(indented(n, s)[i] == indented(m, s)[i - 1]);
            }
        }
        assert forall|i: int| n <= i < n + s.len() implies #[trigger] indented(n, s)[i] == s[i - n] by {
            assert(indented(n, s)[i] == indented(m, s)[i - 1]);
        }
    }
}

/// The words of the fixed parts of an ASCII STL.
proof fn lemma_fixed_words(tail: Seq<char>)
    requires
        tail.len() > 0 ==> tail[0] == ' ',
    ensures
        words("  facet normal"@ + tail)[0] == "facet"@,
        words("  facet normal"@ + tail).len() > 0,
        words("      vertex"@ + tail) == seq!["vertex"@] + words(tail),
        words("    outer loop"@)[0] == "outer"@,
        words("    outer loop"@).len() > 0,
        words("    endloop"@)[0] == "endloop"@,
        words("    endloop"@).len() > 0,
        words("  endfacet"@)[0] == "endfacet"@,
        words("  endfacet"@).len() > 0,
{
    reveal_strlit("  facet normal");
    reveal_strlit("      vertex");
    reveal_strlit("    outer loop");
    reveal_strlit("    endloop");
    reveal_strlit("  endfacet");
    reveal_strlit("facet");
    reveal_strlit("vertex");
    reveal_strlit("outer");
    reveal_strlit("endloop");
    reveal_strlit("endfacet");
    reveal_strlit(" normal");
    reveal_strlit(" loop");
    let none = Seq::<char>::empty();
    let a = " normal"@ + tail;
    lemma_indented(2, "facet"@ + a);
    assert("  facet normal"@ + tail =~= indented(2, "facet"@ + a));
    law_first_word("facet"@, a);
    lemma_indented(6, "vertex"@ + tail);
    assert("      vertex"@ + tail =~= indented(6, "vertex"@ + tail));
    law_first_word("vertex"@, tail);
    lemma_indented(4, "outer"@ + " loop"@);
    assert("    outer loop"@ =~= indented(4, "outer"@ + " loop"@));
    law_first_word("outer"@, " loop"@);
    lemma_indented(4, "endloop"@ + none);
    assert("    endloop"@ =~= indented(4, "endloop"@ + none));
    law_first_word("endloop"@, none);
    lemma_indented(2, "endfacet"@ + none);
    assert("  endfacet"@ =~= indented(2, "endfacet"@ + none));
    law_first_word("endfacet"@, none);
}

proof fn lemma_solid_words(name: Seq<char>)
    ensures
        words("solid "@ + name).len() > 0,
        words("solid "@ + name)[0] == "solid"@,
        words("endsolid "@ + name).len() > 0,
        words("endsolid "@ + name)[0] == "endsolid"@,
{
    reveal_strlit("solid ");
    reveal_strlit("solid");
    reveal_strlit("endsolid ");
    reveal_strlit("endsolid");
    let tail = seq![' '] + name;
    assert("solid "@ + name =~= "solid"@ + tail);
    assert("endsolid "@ + name =~= "endsolid"@ + tail);
    law_first_word("solid"@, tail);
    law_first_word("endsolid"@, tail);
}

/// The keywords are different words.
proof fn lemma_keywords()
    ensures
        "outer"@ != "solid"@ && "outer"@ != "endsolid"@ && "outer"@ != "facet"@ && "outer"@ != "vertex"@ && "outer"@
            != "endfacet"@,
        "endloop"@ != "solid"@ && "endloop"@ != "endsolid"@ && "endloop"@ != "facet"@ && "endloop"@ != "vertex"@
            && "endloop"@ != "endfacet"@,
        "vertex"@ != "solid"@ && "vertex"@ != "endsolid"@ && "vertex"@ != "facet"@,
        "facet"@ != "solid"@ && "facet"@ != "endsolid"@,
        "endfacet"@ != "solid"@ && "endfacet"@ != "endsolid"@ && "endfacet"@ != "facet"@ && "endfacet"@ != "vertex"@,
        "endsolid"@ != "solid"@,
{
    reveal_strlit("outer");
    reveal_strlit("solid");
    reveal_strlit("endsolid");
    reveal_strlit("facet");
    reveal_strlit("vertex");
    reveal_strlit("endfacet");
    reveal_strlit("endloop");
    assert("outer"@[0] == 'o' && "solid"@[0] == 's' && "facet"@[0] == 'f' && "vertex"@[0] == 'v');
    assert("endsolid"@[0] == 'e' && "endsolid"@[3] == 's' && "endsolid"@.len() == 8);
    assert("endfacet"@[0] == 'e' && "endfacet"@[3] == 'f' && "endfacet"@.len() == 8);
    assert("endloop"@[0] == 'e' && "endloop"@.len() == 7);
}

/// A vertex record whose numbers are spelled exactly gives back the vertex.
proof fn lemma_vertex_back(w: Seq<Seq<char>>, v: Vec3)
    requires
        w.len() == 4,
        spells(w[1], v.x),
        spells(w[2], v.y),
        spells(w[3], v.z),
    ensures
        vertex_of(w, Unit::Millimetre) == Ok::<Vec3, Seq<char>>(v),
{
    law_one_is_neutral(v.x);
    law_one_is_neutral(v.y);
    law_one_is_neutral(v.z);
    assert(coordinate_of(w, 0, Unit::Millimetre) == Ok::<Double, Seq<char>>(v.x));
    assert(coordinate_of(w, 1, Unit::Millimetre) == Ok::<Double, Seq<char>>(v.y));
    assert(coordinate_of(w, 2, Unit::Millimetre) == Ok::<Double, Seq<char>>(v.z));
}

/// Reading a vertex line adds its vertex.
proof fn lemma_vertex_line(s: AsciiState, t: Seq<Seq<char>>, i: int, v: Vec3)
    requires
        0 <= i,
        i + 2 < t.len(),
        spells(t[i], v.x),
        spells(t[i + 1], v.y),
        spells(t[i + 2], v.z),
    ensures
        ascii_step(s, words(number_line("      vertex"@, t, i)), Unit::Millimetre) == Ok::<AsciiState, Seq<char>>(
            AsciiState { pending: s.pending.push(v), ..s },
        ),
{
    let tail = spaced(t[i]) + spaced(t[i + 1]) + spaced(t[i + 2]);
    assert(tail[0] == ' ');
    lemma_fixed_words(tail);
    lemma_three_words(t[i], t[i + 1], t[i + 2]);
    lemma_keywords();
    let w = words(number_line("      vertex"@, t, i));
    assert(w =~= seq!["vertex"@, t[i], t[i + 1], t[i + 2]]);
    lemma_vertex_back(w, v);
}

/// The seven lines of facet `i` have the words that were written.
#[verifier::opaque]
spec fn facet_kept(l: Seq<Seq<char>>, t: Seq<Seq<char>>, i: int) -> bool {
    &&& 1 + 7 * i + 7 <= l.len()
    &&& forall|k: int| 0 <= k < 7 ==> words(#[trigger] l[1 + 7 * i + k]) == words(facet_lines(t, i)[k])
}

proof fn lemma_kept_line(l: Seq<Seq<char>>, t: Seq<Seq<char>>, i: int, k: int)
    requires
        facet_kept(l, t, i),
        0 <= k < 7,
    ensures
        1 + 7 * i + k < l.len(),
        words(l[1 + 7 * i + k]) == words(facet_lines(t, i)[k]),
{
    reveal(facet_kept);
}

/// The numbers of facet `i` are spelled exactly.
#[verifier::opaque]
spec fn facet_spelled(t: Seq<Seq<char>>, i: int, a: Vec3, b: Vec3, c: Vec3) -> bool {
    &&& spells(t[12 * i + 3], a.x) && spells(t[12 * i + 4], a.y) && spells(t[12 * i + 5], a.z)
    &&& spells(t[12 * i + 6], b.x) && spells(t[12 * i + 7], b.y) && spells(t[12 * i + 8], b.z)
    &&& spells(t[12 * i + 9], c.x) && spells(t[12 * i + 10], c.y) && spells(t[12 * i + 11], c.z)
}

/// Reading the vertex lines of a facet adds its corners.
proof fn lemma_vertex_lines(t: Seq<Seq<char>>, i: int, a: Vec3, b: Vec3, c: Vec3, s0: AsciiState, s1: AsciiState, s2: AsciiState)
    requires
        0 <= i,
        12 * i + 12 <= t.len(),
        facet_spelled(t, i, a, b, c),
    ensures
        ({
            let f = facet_lines(t, i);
            let mm = Unit::Millimetre;
            &&& ascii_step(s0, words(f[2]), mm) == Ok::<AsciiState, Seq<char>>(
                AsciiState { pending: s0.pending.push(a), ..s0 },
            )
            &&& ascii_step(s1, words(f[3]), mm) == Ok::<AsciiState, Seq<char>>(
                AsciiState { pending: s1.pending.push(b), ..s1 },
            )
            &&& ascii_step(s2, words(f[4]), mm) == Ok::<AsciiState, Seq<char>>(
                AsciiState { pending: s2.pending.push(c), ..s2 },
            )
        }),
{
    reveal(facet_spelled);
    lemma_vertex_line(s0, t, 12 * i + 3, a);
    lemma_vertex_line(s1, t, 12 * i + 6, b);
    lemma_vertex_line(s2, t, 12 * i + 9, c);
}

/// Reading the seven lines of a facet adds its corners.
proof fn lemma_facet_read(s: AsciiState, l: Seq<Seq<char>>, t: Seq<Seq<char>>, i: int, a: Vec3, b: Vec3, c: Vec3)
    requires
        0 <= i,
        12 * i + 12 <= t.len(),
        facet_kept(l, t, i),
        facet_spelled(t, i, a, b, c),
    ensures
        reaches(
            s,
            l,
            1 + 7 * i,
            (AsciiState {
                vertices: s.vertices + seq![a, b, c],
                pending: Seq::empty(),
                in_facet: false,
                facets: s.facets + 1,
                ..s
            }),
            1 + 7 * i + 7,
        ),
{
    let f = facet_lines(t, i);
    let s0 = AsciiState { in_facet: true, pending: Seq::empty(), ..s };
    let s1 = AsciiState { pending: s0.pending.push(a), ..s0 };
    let s2 = AsciiState { pending: s1.pending.push(b), ..s1 };
    let s3 = AsciiState { pending: s2.pending.push(c), ..s2 };
    let j = 1 + 7 * i;
    lemma_facet_frame(s, t, i);
    lemma_facet_frame(s0, t, i);
    lemma_facet_frame(s3, t, i);
    lemma_vertex_lines(t, i, a, b, c, s0, s1, s2);
    lemma_kept_line(l, t, i, 0);
    lemma_one_line(s, l, j, s0);
    lemma_kept_line(l, t, i, 1);
    lemma_one_line(s0, l, j + 1, s0);
    lemma_reaches(s, l, j, s0, j + 1, s0, j + 2);
    lemma_kept_line(l, t, i, 2);
    lemma_one_line(s0, l, j + 2, s1);
    lemma_reaches(s, l, j, s0, j + 2, s1, j + 3);
    lemma_kept_line(l, t, i, 3);
    lemma_one_line(s1, l, j + 3, s2);
    lemma_reaches(s, l, j, s1, j + 3, s2, j + 4);
    lemma_kept_line(l, t, i, 4);
    lemma_one_line(s2, l, j + 4, s3);
    lemma_reaches(s, l, j, s2, j + 4, s3, j + 5);
    lemma_kept_line(l, t, i, 5);
    lemma_one_line(s3, l, j + 5, s3);
    lemma_reaches(s, l, j, s3, j + 5, s3, j + 6);
    lemma_kept_line(l, t, i, 6);
    assert(s3.pending =~= seq![a, b, c]);
    let s4 = AsciiState {
        vertices: s3.vertices + s3.pending,
        pending: Seq::empty(),
        in_facet: false,
        facets: s3.facets + 1,
        ..s3
    };
    lemma_one_line(s3, l, j + 6, s4);
    lemma_reaches(s, l, j, s3, j + 6, s4, j + 7);
}

proof fn lemma_one_line(s: AsciiState, l: Seq<Seq<char>>, j: int, next: AsciiState)
    requires
        0 <= j < l.len(),
        ascii_step(s, words(l[j]), Unit::Millimetre) == Ok::<AsciiState, Seq<char>>(next),
    ensures
        reaches(s, l, j, next, j + 1),
{
    reveal(reaches);
}

/// The lines from `j` on make of `s` what those from `k` on make of `t`.
#[verifier::opaque]
spec fn reaches(s: AsciiState, l: Seq<Seq<char>>, j: int, t: AsciiState, k: int) -> bool {
    ascii_from(s, l, j, Unit::Millimetre) == ascii_from(t, l, k, Unit::Millimetre)
}

proof fn lemma_reaches(
    s: AsciiState,
    l: Seq<Seq<char>>,
    i: int,
    t: AsciiState,
    j: int,
    u: AsciiState,
    k: int,
)
    requires
        reaches(s, l, i, t, j),
        reaches(t, l, j, u, k),
    ensures
        reaches(s, l, i, u, k),
{
    reveal(reaches);
}

/// Reading the lines of a facet that hold no vertex.
proof fn lemma_facet_frame(s: AsciiState, t: Seq<Seq<char>>, i: int)
    requires
        0 <= i,
        12 * i + 12 <= t.len(),
    ensures
        ({
            let f = facet_lines(t, i);
            let mm = Unit::Millimetre;
            &&& ascii_step(s, words(f[0]), mm) == Ok::<AsciiState, Seq<char>>(
                AsciiState { in_facet: true, pending: Seq::empty(), ..s },
            )
            &&& ascii_step(s, words(f[1]), mm) == Ok::<AsciiState, Seq<char>>(s)
            &&& ascii_step(s, words(f[5]), mm) == Ok::<AsciiState, Seq<char>>(s)
            &&& s.pending.len() == 3 ==> ascii_step(s, words(f[6]), mm) == Ok::<AsciiState, Seq<char>>(
                AsciiState {
                    vertices: s.vertices + s.pending,
                    pending: Seq::empty(),
                    in_facet: false,
                    facets: s.facets + 1,
                    ..s
                },
            )
        }),
{
    lemma_keywords();
    let head = spaced(t[12 * i]) + spaced(t[12 * i + 1]) + spaced(t[12 * i + 2]);
    assert(head[0] == ' ');
    lemma_fixed_words(head);
}

proof fn lemma_body_lines(name: Seq<char>, t: Seq<Seq<char>>, n: nat)
    requires
        12 * n <= t.len(),
        single_line(name),
        forall|k: int| 0 <= k < 12 * n ==> plain_word(#[trigger] t[k]),
    ensures
        ascii_body(name, t, n).len() == 1 + 7 * n,
        ascii_body(name, t, n)[0] == "solid "@ + name,
        forall|i: int, k: int|
            #![trigger facet_lines(t, i)[k]]
            0 <= i < n && 0 <= k < 7 ==> ascii_body(name, t, n)[1 + 7 * i + k] == facet_lines(t, i)[k],
        forall|k: int| 0 <= k < 1 + 7 * n ==> single_line(#[trigger] ascii_body(name, t, n)[k]),
    decreases n,
{
    let b = ascii_body(name, t, n);
    if n == 0 {
        reveal_strlit("solid ");
        assert(single_line(b[0]));
    } else {
        let m = (n - 1) as nat;
        lemma_body_lines(name, t, m);
        let a = ascii_body(name, t, m);
        assert forall|i: int, k: int|
            #![trigger facet_lines(t, i)[k]]
            0 <= i < n && 0 <= k < 7 implies b[1 + 7 * i + k] == facet_lines(t, i)[k] by {
            if i < m {
                assert(b[1 + 7 * i + k] == a[1 + 7 * i + k]);
            }
        }
        lemma_facet_single(t, n - 1);
        assert forall|k: int| 0 <= k < 1 + 7 * n implies single_line(#[trigger] b[k]) by {
            if k < 1 + 7 * m {
                assert(b[k] == a[k]);
            } else {
                assert(b[k] == facet_lines(t, n - 1)[k - 1 - 7 * m]);
            }
        }
    }
}

proof fn lemma_facet_single(t: Seq<Seq<char>>, i: int)
    requires
        0 <= i,
        12 * i + 12 <= t.len(),
        forall|k: int| 0 <= k < 12 * i + 12 ==> plain_word(#[trigger] t[k]),
    ensures
        forall|k: int| 0 <= k < 7 ==> single_line(#[trigger] facet_lines(t, i)[k]),
{
    reveal_strlit("  facet normal");
    reveal_strlit("      vertex");
    reveal_strlit("    outer loop");
    reveal_strlit("    endloop");
    reveal_strlit("  endfacet");
    let q = 12 * i;
    lemma_three_words(t[q], t[q + 1], t[q + 2]);
    lemma_three_words(t[q + 3], t[q + 4], t[q + 5]);
    lemma_three_words(t[q + 6], t[q + 7], t[q + 8]);
    lemma_three_words(t[q + 9], t[q + 10], t[q + 11]);
    let f = facet_lines(t, i);
    assert(single_line(f[0]));
    assert(single_line(f[1]));
    assert(single_line(f[2]));
    assert(single_line(f[3]));
    assert(single_line(f[4]));
    assert(single_line(f[5]));
    assert(single_line(f[6]));
}

/// Where the numbers of an ASCII STL are spelled exactly: every text is a word,
/// and those of the corners spell them.
pub open spec fn corners_spelled(corners: Seq<Vec3>, t: Seq<Seq<char>>) -> bool {
    &&& t.len() == 4 * corners.len()
    &&& forall|k: int| 0 <= k < t.len() ==> plain_word(#[trigger] t[k])
    &&& forall|k: int|
        0 <= k < corners.len() ==> {
            let at = 12 * (k / 3) + 3 + 3 * (k % 3);
            let v = #[trigger] corners[k];
            spells(t[at], v.x) && spells(t[at + 1], v.y) && spells(t[at + 2], v.z)
        }
}

spec fn after_facets(corners: Seq<Vec3>, i: int) -> AsciiState {
    AsciiState {
        vertices: corners.take(3 * i),
        pending: Seq::empty(),
        in_facet: false,
        facets: i,
        solid: true,
        endsolid: false,
    }
}

proof fn lemma_next_facet(corners: Seq<Vec3>, l: Seq<Seq<char>>, t: Seq<Seq<char>>, i: int)
    requires
        corners_spelled(corners, t),
        0 <= i,
        3 * i + 3 <= corners.len(),
        facet_kept(l, t, i),
    ensures
        reaches(after_facets(corners, i), l, 1 + 7 * i, after_facets(corners, i + 1), 1 + 7 * (i + 1)),
{
    let (a, b, c) = (corners[3 * i], corners[3 * i + 1], corners[3 * i + 2]);
    lemma_corners_spelled(corners, t, i);
    let s = after_facets(corners, i);
    assert(s.vertices + seq![a, b, c] =~= after_facets(corners, i + 1).vertices);
    lemma_facet_read(s, l, t, i, a, b, c);
}

proof fn lemma_facets_read(corners: Seq<Vec3>, l: Seq<Seq<char>>, t: Seq<Seq<char>>, n: nat, i: int)
    requires
        corners.len() == 3 * n,
        corners_spelled(corners, t),
        0 <= i <= n,
        forall|i: int| 0 <= i < n ==> #[trigger] facet_kept(l, t, i),
    ensures
        reaches(after_facets(corners, i), l, 1 + 7 * i, after_facets(corners, n as int), 1 + 7 * n as int),
    decreases n - i,
{
    if i < n {
        lemma_next_facet(corners, l, t, i);
        lemma_facets_read(corners, l, t, n, i + 1);
        lemma_reaches(
            after_facets(corners, i),
            l,
            1 + 7 * i,
            after_facets(corners, i + 1),
            1 + 7 * (i + 1),
            after_facets(corners, n as int),
            1 + 7 * n as int,
        );
    } else {
        reveal(reaches);
    }
}

proof fn lemma_corners_spelled(corners: Seq<Vec3>, t: Seq<Seq<char>>, i: int)
    requires
        corners_spelled(corners, t),
        0 <= i,
        3 * i + 3 <= corners.len(),
    ensures
        facet_spelled(t, i, corners[3 * i], corners[3 * i + 1], corners[3 * i + 2]),
{
    assert((3 * i) / 3 == i && (3 * i) % 3 == 0);
    assert((3 * i + 1) / 3 == i && (3 * i + 1) % 3 == 1);
    assert((3 * i + 2) / 3 == i && (3 * i + 2) % 3 == 2);
    let a = corners[3 * i];
    let b = corners[3 * i + 1];
    let c = corners[3 * i + 2];
    reveal(facet_spelled);
}

/// An ASCII STL round trip gives back every triangle exactly, in order, where the
/// texts of the numbers spell them exactly and the name is a single line.
pub proof fn law_ascii_round_trip(
    vertices: Seq<Vec3>,
    triangles: Seq<[u32; 3]>,
    name: Seq<char>,
    t: Seq<Seq<char>>,
)
    requires
        sound(vertices, triangles),
        3 * triangles.len() <= u32::MAX,
        single_line(name),
        corners_spelled(soup_corners(vertices, triangles), t),
    ensures
        ({
            let text = joined(ascii_lines(name, t, triangles.len()));
            let corners = soup_corners(vertices, triangles);
            &&& ascii_contents(text, Unit::Millimetre) matches Ok(s)
            &&& s.vertices == corners
            &&& s.facets == triangles.len()
            &&& !s.in_facet && s.solid && s.endsolid
            &&& mesh_fault(corners, soup_triangles(triangles.len())) is None
        }),
{
    let n = triangles.len();
    let corners = soup_corners(vertices, triangles);
    let mm = Unit::Millimetre;
    lemma_soup_is_sound(vertices, triangles);
    law_faultless_is_sound(corners, soup_triangles(n));
    let ls = ascii_lines(name, t, n);
    let body = ascii_body(name, t, n);
    lemma_body_lines(name, t, n);
    reveal_strlit("endsolid ");
    assert(single_line("endsolid "@ + name));
    assert forall|i: int| 0 <= i < ls.len() implies single_line(#[trigger] ls[i]) by {
        if i < body.len() {
            assert(ls[i] == body[i]);
        }
    }
    law_lines_of_joined(ls);
    let l = lines(joined(ls));
    assert forall|i: int| 0 <= i < ls.len() implies words(#[trigger] l[i]) == words(ls[i]) by {
        law_return_is_no_word(ls[i]);
    }
    lemma_solid_words(name);
    lemma_keywords();
    assert(words(l[0]) == words(ls[0]));
    let first = AsciiState { solid: true, ..ascii_start() };
    assert(ascii_from(ascii_start(), l, 0, mm) == ascii_from(first, l, 1, mm));
    assert(first =~= after_facets(corners, 0));
    assert forall|i: int| 0 <= i < n implies #[trigger] facet_kept(l, t, i) by {
        reveal(facet_kept);
        assert forall|k: int| 0 <= k < 7 implies words(#[trigger] l[1 + 7 * i + k]) == words(facet_lines(t, i)[k]) by {
            assert(ls[1 + 7 * i + k] == body[1 + 7 * i + k]);
            let f = facet_lines(t, i)[k];
        }
    }
    lemma_facets_read(corners, l, t, n, 0);
    reveal(reaches);
    let s = after_facets(corners, n as int);
    let last = 1 + 7 * n as int;
    assert(words(l[last]) == words(ls[last]));
    let end = AsciiState { endsolid: true, ..s };
    assert(ascii_from(s, l, last, mm) == ascii_from(end, l, last + 1, mm));
    assert(ascii_from(end, l, last + 1, mm) == Ok::<AsciiState, (int, Seq<char>)>(end));
    assert(corners.take(3 * n as int) =~= corners);
}

/// The vertices are spelled exactly, three texts to each.
pub open spec fn vertices_spelled(vertices: Seq<Vec3>, t: Seq<Seq<char>>) -> bool {
    &&& t.len() == 3 * vertices.len()
    &&& forall|k: int|
        0 <= k < vertices.len() ==> {
            let v = #[trigger] vertices[k];
            spells(t[3 * k], v.x) && spells(t[3 * k + 1], v.y) && spells(t[3 * k + 2], v.z)
        }
}

spec fn after_vertices(vertices: Seq<Vec3>, triangles: Seq<[u32; 3]>, i: int, j: int) -> ObjState {
    ObjState {
        vertices: vertices.take(i),
        triangles: triangles.take(j),
        ignored: 0,
        polygons: 0,
        non_convex: 0,
    }
}

proof fn lemma_obj_keywords()
    ensures
        "v"@ == seq!['v'],
        "f"@ == seq!['f'],
        plain_word("v"@),
        plain_word("f"@),
        single_line("v"@),
        single_line("f"@),
        "v"@ != "f"@,
{
    reveal_strlit("v");
    reveal_strlit("f");
    assert("v"@ =~= seq!['v']);
    assert("f"@ =~= seq!['f']);
    assert("v"@[0] != "f"@[0]);
}

/// Reading a vertex line of an OBJ adds its vertex.
proof fn lemma_obj_vertex(s: ObjState, t: Seq<Seq<char>>, i: int, v: Vec3)
    requires
        0 <= i,
        i + 2 < t.len(),
        spells(t[i], v.x),
        spells(t[i + 1], v.y),
        spells(t[i + 2], v.z),
    ensures
        line_step(s, words(number_line("v"@, t, i)), Unit::Millimetre) == Ok::<ObjState, Seq<char>>(
            ObjState { vertices: s.vertices.push(v), ..s },
        ),
        single_line(number_line("v"@, t, i)),
{
    let tail = spaced(t[i]) + spaced(t[i + 1]) + spaced(t[i + 2]);
    assert(tail[0] == ' ');
    lemma_obj_keywords();
    lemma_three_words(t[i], t[i + 1], t[i + 2]);
    law_first_word("v"@, tail);
    let w = words(number_line("v"@, t, i));
    assert(w =~= seq!["v"@, t[i], t[i + 1], t[i + 2]]);
    reveal(line_step);
    lemma_vertex_back(w, v);
}

proof fn lemma_obj_words(f: [u32; 3])
    ensures
        words(face_line(f)) == seq![
            "f"@,
            decimal_text((f[0] + 1) as nat),
            decimal_text((f[1] + 1) as nat),
            decimal_text((f[2] + 1) as nat),
        ],
        single_line(face_line(f)),
{
    let (a, b, c) = (
        decimal_text((f[0] + 1) as nat),
        decimal_text((f[1] + 1) as nat),
        decimal_text((f[2] + 1) as nat),
    );
    law_decimal_spells((f[0] + 1) as nat);
    law_decimal_spells((f[1] + 1) as nat);
    law_decimal_spells((f[2] + 1) as nat);
    let tail = spaced(a) + spaced(b) + spaced(c);
    assert(tail[0] == ' ');
    lemma_obj_keywords();
    lemma_three_words(a, b, c);
    law_first_word("f"@, tail);
    assert(words(face_line(f)) =~= seq!["f"@, a, b, c]);
}

proof fn lemma_three_resolved(w: Seq<Seq<char>>, n: int, f: [u32; 3])
    requires
        w.len() == 4,
        resolved(w[1], n) == Ok::<u32, Seq<char>>(f[0]),
        resolved(w[2], n) == Ok::<u32, Seq<char>>(f[1]),
        resolved(w[3], n) == Ok::<u32, Seq<char>>(f[2]),
    ensures
        resolved_from(w, 1, n) == Ok::<Seq<u32>, Seq<char>>(seq![f[0], f[1], f[2]]),
{
    let none = Seq::<u32>::empty();
    assert(resolved_from(w, 4, n) == Ok::<Seq<u32>, Seq<char>>(none));
    assert(resolved_from(w, 3, n) == Ok::<Seq<u32>, Seq<char>>(seq![f[2]] + none));
    assert(resolved_from(w, 2, n) == Ok::<Seq<u32>, Seq<char>>(seq![f[1]] + (seq![f[2]] + none)));
    let r = seq![f[0]] + (seq![f[1]] + (seq![f[2]] + none));
    assert(resolved_from(w, 1, n) == Ok::<Seq<u32>, Seq<char>>(r));
    assert(r =~= seq![f[0], f[1], f[2]]);
}

proof fn lemma_resolved_back(v: u32, declared: int)
    requires
        v < declared <= u32::MAX,
    ensures
        resolved(decimal_text((v + 1) as nat), declared) == Ok::<u32, Seq<char>>(v),
{
    let d = decimal_text((v + 1) as nat);
    reveal(resolved);
    law_decimal_spells((v + 1) as nat);
    assert forall|j: int| 0 <= j < d.len() implies #[trigger] d[j] != '/' by {
        assert(decimal_digit(d[j]));
    }
    lemma_position_is(d, '/', 0, d.len() as int);
    assert(d.subrange(0, d.len() as int) =~= d);
}

/// Reading a face line of an OBJ adds its triangle.
proof fn lemma_obj_face(s: ObjState, f: [u32; 3])
    requires
        f[0] < s.vertices.len() && f[1] < s.vertices.len() && f[2] < s.vertices.len(),
        s.vertices.len() <= u32::MAX,
    ensures
        line_step(s, words(face_line(f)), Unit::Millimetre) == Ok::<ObjState, Seq<char>>(
            ObjState { triangles: s.triangles.push(f), ..s },
        ),
        single_line(face_line(f)),
{
    let n = s.vertices.len() as int;
    reveal(line_step);
    lemma_obj_keywords();
    lemma_obj_words(f);
    lemma_resolved_back(f[0], n);
    lemma_resolved_back(f[1], n);
    lemma_resolved_back(f[2], n);
    let w = words(face_line(f));
    lemma_three_resolved(w, n, f);
    let r = seq![f[0], f[1], f[2]];
    let g = [f[0], f[1], f[2]];
    assert(g@ =~= f@);
    assert(g =~= f);
    assert(s.triangles + fan(r) =~= s.triangles.push(f));
}

proof fn lemma_vertex_lines_are(t: Seq<Seq<char>>, n: nat)
    ensures
        vertex_lines(t, n).len() == 1 + n,
        vertex_lines(t, n)[0] == "# written by chipbreaker; coordinates are millimetres"@,
        forall|i: int| 1 <= i <= n ==> #[trigger] vertex_lines(t, n)[i] == number_line("v"@, t, 3 * (i - 1)),
    decreases n,
{
    if n > 0 {
        lemma_vertex_lines_are(t, (n - 1) as nat);
    }
}

proof fn lemma_obj_lines_are(t: Seq<Seq<char>>, vertices: nat, triangles: Seq<[u32; 3]>, n: nat)
    ensures
        obj_lines(t, vertices, triangles, n).len() == 1 + vertices + n,
        obj_lines(t, vertices, triangles, n)[0] == "# written by chipbreaker; coordinates are millimetres"@,
        forall|i: int|
            1 <= i <= vertices ==> #[trigger] obj_lines(t, vertices, triangles, n)[i] == number_line("v"@, t, 3 * (i - 1)),
        forall|i: int|
            vertices < i <= vertices + n ==> #[trigger] obj_lines(t, vertices, triangles, n)[i] == face_line(
                triangles[i - 1 - vertices],
            ),
    decreases n,
{
    if n == 0 {
        lemma_vertex_lines_are(t, vertices);
    } else {
        lemma_obj_lines_are(t, vertices, triangles, (n - 1) as nat);
    }
}

/// The lines from `j` on make of `s` what those from `k` on make of `t`.
#[verifier::opaque]
spec fn obj_reaches(s: ObjState, l: Seq<Seq<char>>, j: int, t: ObjState, k: int) -> bool {
    read_from(s, l, j, Unit::Millimetre) == read_from(t, l, k, Unit::Millimetre)
}

proof fn lemma_obj_line(s: ObjState, l: Seq<Seq<char>>, j: int, t: ObjState, u: ObjState, k: int)
    requires
        0 <= j < l.len(),
        line_step(s, words(l[j]), Unit::Millimetre) == Ok::<ObjState, Seq<char>>(t),
        obj_reaches(t, l, j + 1, u, k),
    ensures
        obj_reaches(s, l, j, u, k),
{
    reveal(obj_reaches);
}

proof fn lemma_obj_read(
    vertices: Seq<Vec3>,
    triangles: Seq<[u32; 3]>,
    t: Seq<Seq<char>>,
    l: Seq<Seq<char>>,
    j: int,
)
    requires
        sound(vertices, triangles),
        vertices_spelled(vertices, t),
        1 <= j <= 1 + vertices.len() + triangles.len(),
        l.len() == 1 + vertices.len() + triangles.len(),
        forall|i: int|
            0 <= i < l.len() ==> words(#[trigger] l[i]) == words(
                obj_lines(t, vertices.len(), triangles, triangles.len())[i],
            ),
    ensures
        ({
            let m = j - 1;
            let n = vertices.len() as int;
            let s = if m <= n {
                after_vertices(vertices, triangles, m, 0)
            } else {
                after_vertices(vertices, triangles, n, m - n)
            };
            obj_reaches(s, l, j, after_vertices(vertices, triangles, n, triangles.len() as int), l.len() as int)
        }),
    decreases l.len() - j,
{
    let m = j - 1;
    let n = vertices.len() as int;
    let end = after_vertices(vertices, triangles, n, triangles.len() as int);
    let len = l.len() as int;
    lemma_obj_lines_are(t, vertices.len(), triangles, triangles.len());
    if j == len {
        reveal(obj_reaches);
        assert(m == n + triangles.len());
        if triangles.len() == 0 {
            assert(after_vertices(vertices, triangles, m, 0) == end);
        }
    } else if m < n {
        let s = after_vertices(vertices, triangles, m, 0);
        let next = after_vertices(vertices, triangles, m + 1, 0);
        let v = vertices[m];
        lemma_obj_vertex(s, t, 3 * m, v);
        assert(s.vertices.push(v) =~= next.vertices);
        lemma_obj_read(vertices, triangles, t, l, j + 1);
        assert(words(l[j]) == words(number_line("v"@, t, 3 * m)));
        lemma_obj_line(s, l, j, next, end, len);
    } else {
        let k = m - n;
        let s = after_vertices(vertices, triangles, n, k);
        let next = after_vertices(vertices, triangles, n, k + 1);
        let f = triangles[k];
        assert(vertices.take(n) =~= vertices);
        lemma_obj_face(s, f);
        assert(s.triangles.push(f) =~= next.triangles);
        lemma_obj_read(vertices, triangles, t, l, j + 1);
        assert(words(l[j]) == words(face_line(f)));
        lemma_obj_line(s, l, j, next, end, len);
    }
}

/// An OBJ round trip gives back every vertex and every triangle exactly, in
/// order, where the texts of the numbers spell them exactly.
pub proof fn law_obj_round_trip(vertices: Seq<Vec3>, triangles: Seq<[u32; 3]>, t: Seq<Seq<char>>)
    requires
        sound(vertices, triangles),
        vertices_spelled(vertices, t),
    ensures
        obj_contents(joined(obj_lines(t, vertices.len(), triangles, triangles.len())), Unit::Millimetre) == Ok::<
            ObjState,
            (int, Seq<char>),
        >(ObjState { vertices, triangles, ignored: 0, polygons: 0, non_convex: 0 }),
        mesh_fault(vertices, triangles) is None,
{
    let n = vertices.len() as int;
    let ls = obj_lines(t, vertices.len(), triangles, triangles.len());
    law_faultless_is_sound(vertices, triangles);
    lemma_obj_lines_are(t, vertices.len(), triangles, triangles.len());
    lemma_comment_line();
    let whole = after_vertices(vertices, triangles, n, triangles.len() as int);
    assert(whole.vertices =~= vertices);
    assert(whole.triangles =~= triangles);
    assert forall|i: int| 0 <= i < ls.len() implies single_line(#[trigger] ls[i]) by {
        if 1 <= i <= n {
            let v = vertices[i - 1];
            lemma_obj_vertex(whole, t, 3 * (i - 1), v);
        } else if i > n {
            lemma_obj_words(triangles[i - 1 - n]);
        }
    }
    law_lines_of_joined(ls);
    let l = lines(joined(ls));
    assert forall|i: int| 0 <= i < l.len() implies words(#[trigger] l[i]) == words(ls[i]) by {
        law_return_is_no_word(ls[i]);
    }
    lemma_obj_read(vertices, triangles, t, l, 1);
    let s = after_vertices(vertices, triangles, 0, 0);
    assert(s =~= blank());
    assert(words(l[0]) == words(ls[0]));
    reveal(line_step);
    lemma_obj_line(s, l, 0, s, whole, l.len() as int);
    reveal(obj_reaches);
}

proof fn lemma_comment_line()
    ensures
        ({
            let c = "# written by chipbreaker; coordinates are millimetres"@;
            single_line(c) && words(c).len() > 0 && words(c)[0][0] == '#'
        }),
{
    reveal_strlit("# written by chipbreaker; coordinates are millimetres");
    let c = "# written by chipbreaker; coordinates are millimetres"@;
    let rest = c.subrange(1, c.len() as int);
    let mark = seq!['#'];
    assert(c =~= mark + rest);
    assert(rest[0] == ' ');
    law_first_word(mark, rest);
}

} // verus!
