//! Files are read in millimetres: each coordinate is the number that the file
//! spells, times the length of its unit.

use crate::arithmetic::product;
use crate::decimal::number_of;
use crate::double::{Double, HIDDEN};
use crate::error_bounds::{parts, size, whole};
use crate::math::Vec3;
use crate::mesh::io::obj::{blank, line_step, obj_contents, read_from, ObjState};
use crate::mesh::io::stl::binary_vertices;
use crate::mesh::io::threemf::{
    attribute_from, coordinate, corner, element_read, index_of, model_from, model_outcome, no_model, triangle_element,
    unit_declared, unit_of, vertex_element, ModelView,
};
use crate::mesh::io::xml::{AttributeView, EventView};
use crate::mesh::io::{vertex_of, ParseError};
use crate::mesh::units::Unit;
use crate::mesh::TriMesh;
use crate::single::widened;
use crate::text::{lines, trimmed, words};
use vstd::arithmetic::power2::{lemma_pow2_adds, lemma_pow2_pos, pow2};
use vstd::prelude::*;

verus! {

/// A number is a fraction, but for its rounding.
pub open spec fn nearly(d: Double, numerator: int, denominator: int) -> bool {
    d.finite() && size(d.value() * denominator - numerator * whole()) * parts() <= numerator * whole()
}

/// A positive number, by its significand and the power of two that it is scaled by.
proof fn lemma_magnitude(bits: u64, m: int, e: nat)
    requires
        bits < 0x7ff0_0000_0000_0000,
        m == HIDDEN + bits as int % HIDDEN as int,
        bits as int / HIDDEN as int == e + 1,
    ensures
        (Double { bits }).finite(),
        (Double { bits }).value() == m * pow2(e),
{
}

/// The number one is so many of a smaller power of two.
proof fn lemma_whole(e: nat, k: nat)
    requires
        e + k == 1074,
    ensures
        whole() == pow2(e) * pow2(k),
        pow2(e) > 0,
{
    lemma_pow2_adds(e, k);
    lemma_pow2_pos(e);
}

proof fn lemma_nearly(d: Double, m: int, e: nat, k: nat, p: int, n: int, den: int)
    requires
        d.finite(),
        d.value() == m * pow2(e),
        e + k == 1074,
        pow2(k) == p,
        size(m * den - n * p) * parts() <= n * p,
    ensures
        nearly(d, n, den),
{
    lemma_whole(e, k);
    let q = pow2(e) as int;
    assert((m * q) * den - n * (q * p) == (m * den - n * p) * q) by (nonlinear_arith);
    crate::error_bounds::lemma_size_of_product(m * den - n * p, q);
    let g = size(m * den - n * p);
    assert(g * q * parts() <= n * (q * p)) by (nonlinear_arith)
        requires
            g * parts() <= n * p,
            q > 0,
    ;
}

/// The lengths of the units: a thousandth of a millimetre, a millimetre, ten, a
/// thousand; an inch of 25.4, a thousandth of it, and a foot of twelve inches.
pub proof fn law_units_have_their_lengths()
    ensures
        nearly(Unit::Micron.factor(), 1, 1000),
        nearly(Unit::Millimetre.factor(), 1, 1),
        nearly(Unit::Centimetre.factor(), 10, 1),
        nearly(Unit::Metre.factor(), 1000, 1),
        nearly(Unit::Inch.factor(), 254, 10),
        nearly(Unit::Thou.factor(), 254, 10000),
        nearly(Unit::Foot.factor(), 3048, 10),
{
    vstd::arithmetic::power2::lemma2_to64();
    vstd::arithmetic::power2::lemma2_to64_rest();
    assert(parts() == 0x20_0000_0000_0000int);
    assert(0x10_624d_d2f1_a9fcint * 1000 - 1 * 0x4000_0000_0000_0000int == 96);
    assert(0x1a_0275_2546_0aa6int * 10000 - 254 * 0x400_0000_0000_0000int == -2976);
    lemma_magnitude(0x3f50_624d_d2f1_a9fc, 0x10_624d_d2f1_a9fc, 1012);
    lemma_nearly(Unit::Micron.factor(), 0x10_624d_d2f1_a9fc, 1012, 62, 0x4000_0000_0000_0000, 1, 1000);
    lemma_magnitude(0x3ff0_0000_0000_0000, 0x10_0000_0000_0000, 1022);
    lemma_nearly(Unit::Millimetre.factor(), 0x10_0000_0000_0000, 1022, 52, 0x10_0000_0000_0000, 1, 1);
    lemma_magnitude(0x4024_0000_0000_0000, 0x14_0000_0000_0000, 1025);
    lemma_nearly(Unit::Centimetre.factor(), 0x14_0000_0000_0000, 1025, 49, 0x2_0000_0000_0000, 10, 1);
    lemma_magnitude(0x408f_4000_0000_0000, 0x1f_4000_0000_0000, 1031);
    lemma_nearly(Unit::Metre.factor(), 0x1f_4000_0000_0000, 1031, 43, 0x800_0000_0000, 1000, 1);
    lemma_magnitude(0x4039_6666_6666_6666, 0x19_6666_6666_6666, 1026);
    lemma_nearly(Unit::Inch.factor(), 0x19_6666_6666_6666, 1026, 48, 0x1_0000_0000_0000, 254, 10);
    lemma_magnitude(0x3f9a_0275_2546_0aa6, 0x1a_0275_2546_0aa6, 1016);
    lemma_nearly(Unit::Thou.factor(), 0x1a_0275_2546_0aa6, 1016, 58, 0x400_0000_0000_0000, 254, 10000);
    lemma_magnitude(0x4073_0ccc_cccc_cccd, 0x13_0ccc_cccc_cccd, 1030);
    lemma_nearly(Unit::Foot.factor(), 0x13_0ccc_cccc_cccd, 1030, 44, 0x1000_0000_0000, 3048, 10);
}

/// The number that word `k` behind the first spells, if it spells one, in
/// millimetres.
pub open spec fn spells(w: Seq<Seq<char>>, k: int, unit: Unit, x: Double) -> bool {
    k + 1 < w.len() && (number_of(w[k + 1]) matches Some(v) && x == product(v, unit.factor()))
}

/// A vertex record of an OBJ or an ASCII STL gives, along each axis, the number that
/// its word for the axis spells, in millimetres.
pub proof fn law_records_are_in_millimetres(w: Seq<Seq<char>>, unit: Unit, k: int)
    requires
        vertex_of(w, unit) is Ok,
        0 <= k < 3,
    ensures
        spells(w, k, unit, vertex_of(w, unit)->Ok_0.at(k)),
{
}

/// The lines among the first `n` whose first word is a name.
pub open spec fn lines_called(l: Seq<Seq<char>>, name: Seq<char>, n: nat) -> Seq<int>
    decreases n,
{
    if n == 0 {
        Seq::empty()
    } else {
        let before = lines_called(l, name, (n - 1) as nat);
        if words(l[n - 1]).len() > 0 && words(l[n - 1])[0] == name {
            before.push(n - 1)
        } else {
            before
        }
    }
}

/// The vertices are those of the vertex records among the first `n` lines, in
/// millimetres.
spec fn vertices_of_lines(v: Seq<Vec3>, l: Seq<Seq<char>>, n: nat, unit: Unit) -> bool {
    let at = lines_called(l, "v"@, n);
    &&& v.len() == at.len()
    &&& forall|j: int, k: int|
        #![trigger v[j].at(k)]
        0 <= j < v.len() && 0 <= k < 3 ==> spells(words(l[at[j]]), k, unit, v[j].at(k))
}

proof fn lemma_obj_vertices(s: ObjState, l: Seq<Seq<char>>, i: nat, unit: Unit)
    requires
        i <= l.len(),
        vertices_of_lines(s.vertices, l, i, unit),
        read_from(s, l, i as int, unit) is Ok,
    ensures
        vertices_of_lines(read_from(s, l, i as int, unit)->Ok_0.vertices, l, l.len(), unit),
    decreases l.len() - i,
{
    if i < l.len() {
        reveal(line_step);
        reveal_strlit("v");
        reveal_strlit("f");
        let w = words(l[i as int]);
        let t = line_step(s, w, unit)->Ok_0;
        let was = lines_called(l, "v"@, i);
        let at = lines_called(l, "v"@, i + 1);
        assert(t.vertices.len() == at.len());
        assert forall|j: int, k: int|
            #![trigger t.vertices[j].at(k)]
            0 <= j < t.vertices.len() && 0 <= k < 3 implies spells(words(l[at[j]]), k, unit, t.vertices[j].at(k)) by {
            if j < s.vertices.len() {
                assert(t.vertices[j] == s.vertices[j]);
                assert(at[j] == was[j]);
                assert(spells(words(l[was[j]]), k, unit, s.vertices[j].at(k)));
            } else {
                law_records_are_in_millimetres(w, unit, k);
            }
        }
        lemma_obj_vertices(t, l, i + 1, unit);
    }
}

/// An OBJ has a vertex for each of its vertex records, in their order, and along each
/// axis the number that the record spells, in millimetres.
pub proof fn law_obj_is_in_millimetres(text: Seq<char>, unit: Unit, j: int, k: int)
    requires
        obj_contents(text, unit) is Ok,
        0 <= j < obj_contents(text, unit)->Ok_0.vertices.len(),
        0 <= k < 3,
    ensures
        ({
            let v = obj_contents(text, unit)->Ok_0.vertices;
            let l = lines(text);
            let at = lines_called(l, "v"@, l.len());
            v.len() == at.len() && spells(words(l[at[j]]), k, unit, v[j].at(k))
        }),
{
    lemma_obj_vertices(blank(), lines(text), 0, unit);
    let v = obj_contents(text, unit)->Ok_0.vertices;
    let x = v[j].at(k);
}

/// A binary STL has a vertex for each corner of its triangles, and along each axis the
/// single-precision number in the four bytes of that coordinate, the lowest first,
/// in millimetres.
pub proof fn law_binary_is_in_millimetres(bytes: Seq<u8>, n: nat, unit: Unit, i: int, c: int, k: int)
    requires
        0 <= i < n,
        0 <= c < 3,
        0 <= k < 3,
        bytes.len() == 84 + 50 * n,
    ensures
        ({
            let v = binary_vertices(bytes, n, unit);
            let at = 84 + 50 * i + 12 * (c + 1) + 4 * k;
            let low = bytes[at] as int + 256 * bytes[at + 1];
            let high = bytes[at + 2] as int + 256 * bytes[at + 3];
            v.len() == 3 * n && v[3 * i + c].at(k) == product(widened((low + 65536 * high) as u32), unit.factor())
        }),
{
    assert((3 * i + c) / 3 == i && (3 * i + c) % 3 == c);
}

/// The elements of a name among the first `n` events.
pub open spec fn elements_called(e: Seq<EventView>, name: Seq<char>, n: nat) -> Seq<int>
    decreases n,
{
    if n == 0 {
        Seq::empty()
    } else {
        let before = elements_called(e, name, (n - 1) as nat);
        if e[n - 1] matches EventView::Element { name: own, .. } && own == name {
            before.push(n - 1)
        } else {
            before
        }
    }
}

/// An event is an element one of whose attributes, the first of its name, has a
/// value.
pub open spec fn has_attribute(e: EventView, name: Seq<char>, raw: Seq<char>) -> bool {
    e matches EventView::Element { attributes, .. } && exists|p: int|
        0 <= p < attributes.len() && (#[trigger] attributes[p]) == (AttributeView::Pair { name, value: Ok(raw) })
            && forall|q: int| 0 <= q < p ==> (#[trigger] attributes[q] matches AttributeView::Pair { name: other, .. } && other != name)
}

proof fn lemma_attribute(a: Seq<AttributeView>, name: Seq<char>, i: int)
    requires
        0 <= i,
        attribute_from(a, name, i) matches Ok(Some(_)),
        forall|q: int| 0 <= q < i ==> (#[trigger] a[q] matches AttributeView::Pair { name: other, .. } && other != name),
    ensures
        exists|p: int|
            0 <= p < a.len() && (#[trigger] a[p]) == (AttributeView::Pair {
                name,
                value: Ok(attribute_from(a, name, i)->Ok_0->Some_0),
            }) && forall|q: int| 0 <= q < p ==> (#[trigger] a[q] matches AttributeView::Pair { name: other, .. } && other != name),
    decreases a.len() - i,
{
    if i < a.len() {
        match a[i] {
            AttributeView::Malformed(_) => {},
            AttributeView::Pair { name: n, value } => {
                if n != name {
                    lemma_attribute(a, name, i + 1);
                } else {
                    assert(a[i] == (AttributeView::Pair { name, value: Ok(attribute_from(a, name, i)->Ok_0->Some_0) }));
                }
            },
        }
    }
}

/// The name of a coordinate.
pub open spec fn axis_called(k: int) -> Seq<char> {
    if k == 0 {
        "x"@
    } else if k == 1 {
        "y"@
    } else {
        "z"@
    }
}

/// The name of a corner.
pub open spec fn corner_called(c: int) -> Seq<char> {
    if c == 0 {
        "v1"@
    } else if c == 1 {
        "v2"@
    } else {
        "v3"@
    }
}

/// An event spells a coordinate of a vertex.
pub open spec fn spells_coordinate(e: EventView, k: int, x: Double) -> bool {
    exists|raw: Seq<char>| #[trigger] has_attribute(e, axis_called(k), raw) && number_of(trimmed(raw)) == Some(x)
}

/// An event spells a coordinate of a vertex, which is so much in millimetres.
pub open spec fn spells_scaled(e: EventView, k: int, unit: Unit, x: Double) -> bool {
    exists|raw: Seq<char>| #[trigger]
        has_attribute(e, axis_called(k), raw) && (number_of(trimmed(raw)) matches Some(v) && x == product(v, unit.factor()))
}

/// An event spells a corner of a triangle, counted from some vertices on.
pub open spec fn spells_corner(e: EventView, c: int, v: u32, base: int) -> bool {
    exists|raw: Seq<char>| #[trigger]
        has_attribute(e, corner_called(c), raw) && (index_of(trimmed(raw)) matches Some(x) && v == x + base)
}

/// How many vertices stand in front of the mesh that the first `n` events end in.
pub open spec fn vertices_before(e: Seq<EventView>, n: nat) -> int {
    let meshes = elements_called(e, "mesh"@, n);
    if meshes.len() == 0 {
        0
    } else {
        elements_called(e, "vertex"@, meshes.last() as nat).len() as int
    }
}

/// The vertices are those that the first `n` events spell.
pub open spec fn vertices_spelled(v: Seq<Vec3>, e: Seq<EventView>, n: nat) -> bool {
    let at = elements_called(e, "vertex"@, n);
    &&& v.len() == at.len()
    &&& forall|j: int, k: int|
        #![trigger v[j].at(k)]
        0 <= j < v.len() && 0 <= k < 3 ==> spells_coordinate(e[at[j]], k, v[j].at(k))
}

/// The triangles are those that the first `n` events spell.
pub open spec fn triangles_spelled(t: Seq<[u32; 3]>, e: Seq<EventView>, n: nat) -> bool {
    let at = elements_called(e, "triangle"@, n);
    &&& t.len() == at.len()
    &&& forall|j: int, c: int|
        #![trigger t[j][c]]
        0 <= j < t.len() && 0 <= c < 3 ==> spells_corner(e[at[j]], c, t[j][c], vertices_before(e, at[j] as nat))
}

/// The unit is the one that the last model element among the first `n` events
/// declares.
pub open spec fn unit_spelled(u: Option<Unit>, e: Seq<EventView>, n: nat) -> bool {
    let at = elements_called(e, "model"@, n);
    if at.len() == 0 {
        u is None
    } else {
        u is Some && exists|raw: Seq<char>| #[trigger] has_attribute(e[at.last()], "unit"@, raw) && unit_declared(raw) == u
    }
}

spec fn spelled_by(s: ModelView, e: Seq<EventView>, n: nat) -> bool {
    &&& vertices_spelled(s.vertices, e, n)
    &&& triangles_spelled(s.triangles, e, n)
    &&& unit_spelled(s.unit, e, n)
    &&& s.base == vertices_before(e, n)
}

proof fn lemma_element_names()
    ensures
        "model"@ != "mesh"@ && "model"@ != "vertex"@ && "model"@ != "triangle"@,
        "mesh"@ != "vertex"@ && "mesh"@ != "triangle"@ && "vertex"@ != "triangle"@,
{
    reveal_strlit("model");
    reveal_strlit("mesh");
    reveal_strlit("vertex");
    reveal_strlit("triangle");
    assert("model"@.len() == 5 && "mesh"@.len() == 4 && "vertex"@.len() == 6 && "triangle"@.len() == 8);
}

proof fn lemma_vertex_element(e: EventView, a: Seq<AttributeView>, k: int)
    requires
        e matches EventView::Element { attributes, .. } && attributes == a,
        vertex_element(a) is Ok,
        0 <= k < 3,
    ensures
        spells_coordinate(e, k, vertex_element(a)->Ok_0.at(k)),
{
    let name = axis_called(k);
    assert(coordinate(a, name) == Ok::<Double, Seq<char>>(vertex_element(a)->Ok_0.at(k)));
    lemma_attribute(a, name, 0);
    let raw = attribute_from(a, name, 0)->Ok_0->Some_0;
    assert(has_attribute(e, name, raw));
}

proof fn lemma_triangle_element(e: EventView, a: Seq<AttributeView>, base: u32, c: int)
    requires
        e matches EventView::Element { attributes, .. } && attributes == a,
        triangle_element(a, base) is Ok,
        0 <= c < 3,
    ensures
        ({
            let t = triangle_element(a, base)->Ok_0;
            spells_corner(
                e,
                c,
                if c == 0 {
                    t.0
                } else if c == 1 {
                    t.1
                } else {
                    t.2
                },
                base as int,
            )
        }),
{
    let name = corner_called(c);
    assert(corner(a, name, base) is Ok);
    lemma_attribute(a, name, 0);
    let raw = attribute_from(a, name, 0)->Ok_0->Some_0;
    assert(has_attribute(e, name, raw));
}

proof fn lemma_unit_element(e: EventView, a: Seq<AttributeView>)
    requires
        e matches EventView::Element { attributes, .. } && attributes == a,
        unit_of(a) is Ok,
    ensures
        exists|raw: Seq<char>| #[trigger] has_attribute(e, "unit"@, raw) && unit_declared(raw) == Some(unit_of(a)->Ok_0),
{
    lemma_attribute(a, "unit"@, 0);
    let raw = attribute_from(a, "unit"@, 0)->Ok_0->Some_0;
    assert(has_attribute(e, "unit"@, raw));
}

#[verifier::rlimit(60)]
proof fn lemma_element_spelled(s: ModelView, e: Seq<EventView>, i: nat, name: Seq<char>, a: Seq<AttributeView>)
    requires
        i < e.len(),
        e[i as int] == (EventView::Element { name, attributes: a }),
        spelled_by(s, e, i),
        element_read(s, name, a) is Ok,
    ensures
        spelled_by(element_read(s, name, a)->Ok_0, e, i + 1),
{
    reveal(element_read);
    lemma_element_names();
    let t = element_read(s, name, a)->Ok_0;
    let here = e[i as int];
    let (va, vb) = (elements_called(e, "vertex"@, i), elements_called(e, "vertex"@, i + 1));
    let (ta, tb) = (elements_called(e, "triangle"@, i), elements_called(e, "triangle"@, i + 1));
    assert forall|j: int, k: int|
        #![trigger t.vertices[j].at(k)]
        0 <= j < t.vertices.len() && 0 <= k < 3 implies spells_coordinate(e[vb[j]], k, t.vertices[j].at(k)) by {
        if j < s.vertices.len() {
            assert(t.vertices[j] == s.vertices[j] && vb[j] == va[j]);
            assert(spells_coordinate(e[va[j]], k, s.vertices[j].at(k)));
        } else {
            lemma_vertex_element(here, a, k);
        }
    }
    assert forall|j: int, c: int|
        #![trigger t.triangles[j][c]]
        0 <= j < t.triangles.len() && 0 <= c < 3 implies spells_corner(
        e[tb[j]],
        c,
        t.triangles[j][c],
        vertices_before(e, tb[j] as nat),
    ) by {
        if j < s.triangles.len() {
            assert(t.triangles[j] == s.triangles[j] && tb[j] == ta[j]);
            assert(spells_corner(e[ta[j]], c, s.triangles[j][c], vertices_before(e, ta[j] as nat)));
        } else {
            lemma_triangle_element(here, a, s.base, c);
        }
    }
    assert(vertices_spelled(t.vertices, e, i + 1));
    assert(triangles_spelled(t.triangles, e, i + 1));
    let (ma, mb) = (elements_called(e, "model"@, i), elements_called(e, "model"@, i + 1));
    if name == "model"@ {
        lemma_unit_element(here, a);
        assert(mb.last() == i);
        assert(t.unit == Some(unit_of(a)->Ok_0));
    } else {
        assert(mb == ma && t.unit == s.unit);
    }
    assert(unit_spelled(t.unit, e, i + 1));
    assert(t.base == vertices_before(e, i + 1));
}

proof fn lemma_model_spelled(s: ModelView, e: Seq<EventView>, i: nat)
    requires
        i <= e.len(),
        spelled_by(s, e, i),
        model_from(s, e, i as int) is Ok,
    ensures
        spelled_by(model_from(s, e, i as int)->Ok_0, e, e.len()),
    decreases e.len() - i,
{
    if i < e.len() {
        match e[i as int] {
            EventView::Malformed(m) => {},
            EventView::Other => {
                assert(elements_called(e, "vertex"@, i + 1) == elements_called(e, "vertex"@, i));
                assert(elements_called(e, "triangle"@, i + 1) == elements_called(e, "triangle"@, i));
                assert(elements_called(e, "model"@, i + 1) == elements_called(e, "model"@, i));
                assert(elements_called(e, "mesh"@, i + 1) == elements_called(e, "mesh"@, i));
                lemma_model_spelled(s, e, i + 1);
            },
            EventView::Element { name, attributes } => {
                lemma_element_spelled(s, e, i, name, attributes);
                lemma_model_spelled(element_read(s, name, attributes)->Ok_0, e, i + 1);
            },
        }
    }
}

/// The mesh of a 3MF model is the one that its elements spell, in millimetres. Along
/// each axis a vertex has the number that its element spells for the axis, times
/// the length of the unit that the model declares. The corners of a triangle are
/// those that its element spells, counted from the vertices in front of its mesh.
pub proof fn law_model_is_in_millimetres(e: Seq<EventView>, expected: Option<Unit>, r: Result<TriMesh, ParseError>)
    requires
        model_outcome(e, expected, r),
        r is Ok,
    ensures
        ({
            let m = r->Ok_0;
            let unit = m.origin().source_unit;
            let at = elements_called(e, "vertex"@, e.len());
            &&& m.points().len() == at.len()
            &&& forall|j: int, k: int|
                #![trigger m.points()[j].at(k)]
                0 <= j < at.len() && 0 <= k < 3 ==> spells_scaled(e[at[j]], k, unit, m.points()[j].at(k))
            &&& unit_spelled(Some(unit), e, e.len())
            &&& triangles_spelled(m.faces(), e, e.len())
        }),
{
    assert(vertices_spelled(no_model().vertices, e, 0));
    lemma_model_spelled(no_model(), e, 0);
    let s = model_from(no_model(), e, 0)->Ok_0;
    let m = r->Ok_0;
    let unit = m.origin().source_unit;
    let at = elements_called(e, "vertex"@, e.len());
    assert forall|j: int, k: int|
        #![trigger m.points()[j].at(k)]
        0 <= j < at.len() && 0 <= k < 3 implies spells_scaled(e[at[j]], k, unit, m.points()[j].at(k)) by {
        let x = s.vertices[j].at(k);
        assert(spells_coordinate(e[at[j]], k, x));
        let raw = choose|raw: Seq<char>| #[trigger]
            has_attribute(e[at[j]], axis_called(k), raw) && number_of(trimmed(raw)) == Some(x);
        assert(m.points()[j].at(k) == product(x, unit.factor()));
    }
    assert(unit_spelled(Some(unit), e, e.len()));
    assert(triangles_spelled(m.faces(), e, e.len()));
    assert(m.points().len() == at.len());
}

} // verus!
