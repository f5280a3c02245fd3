//! 3MF: a container with an XML model part.
//!
//! The model declares its own unit. A caller that expects another one gets an
//! error and not an override. Every mesh of the model is merged into one, and the
//! number of those beyond the first is recorded.

use crate::arithmetic::product;
use crate::decimal::{lowered, number_of, parse_number, to_lowered};
use crate::double::Double;
use crate::math::{vector_product, Vec3};
use crate::mesh::io::container::{model_part, model_text, prefixed};
use crate::mesh::io::xml::{
    attribute_views, document_events, event_views, read_events, AttributeView, EventView, XmlAttribute, XmlEvent,
};
use crate::mesh::io::{mesh_error, ParseError};
use crate::mesh::units::Unit;
use crate::mesh::{mesh_fault, MeshMeta, TriMesh};
use crate::text::{characters, integer_of, parse_integer, same_text, trim, trimmed};
use vstd::prelude::*;

verus! {

/// The unit that a model may declare.
pub open spec fn unit_declared(raw: Seq<char>) -> Option<Unit> {
    let w = lowered(trimmed(raw));
    if w == "micron"@ {
        Some(Unit::Micron)
    } else if w == "millimeter"@ {
        Some(Unit::Millimetre)
    } else if w == "centimeter"@ {
        Some(Unit::Centimetre)
    } else if w == "inch"@ {
        Some(Unit::Inch)
    } else if w == "foot"@ {
        Some(Unit::Foot)
    } else if w == "meter"@ {
        Some(Unit::Metre)
    } else {
        None
    }
}

/// Parses the `unit` attribute of the `<model>` element.
pub fn parse_unit(raw: &str) -> (r: Option<Unit>)
    ensures
        r == unit_declared(raw@),
{
    let c: Vec<char> = characters(raw);
    let t: Vec<char> = trim(c.as_slice());
    let w: Vec<char> = to_lowered(t.as_slice());
    if same_text(w.as_slice(), "micron") {
        Some(Unit::Micron)
    } else if same_text(w.as_slice(), "millimeter") {
        Some(Unit::Millimetre)
    } else if same_text(w.as_slice(), "centimeter") {
        Some(Unit::Centimetre)
    } else if same_text(w.as_slice(), "inch") {
        Some(Unit::Inch)
    } else if same_text(w.as_slice(), "foot") {
        Some(Unit::Foot)
    } else if same_text(w.as_slice(), "meter") {
        Some(Unit::Metre)
    } else {
        None
    }
}

/// The value of the first attribute with a name, from attribute `i` on. A
/// malformed attribute in front of it, or a value that cannot be read, is an
/// error.
pub open spec fn attribute_from(a: Seq<AttributeView>, name: Seq<char>, i: int) -> Result<Option<Seq<char>>, Seq<char>>
    decreases a.len() - i,
{
    if i < 0 || i >= a.len() {
        Ok(None)
    } else {
        match a[i] {
            AttributeView::Malformed(m) => Err("malformed attribute: "@ + m),
            AttributeView::Pair { name: n, value } => if n == name {
                match value {
                    Ok(v) => Ok(Some(v)),
                    Err(m) => Err("unreadable attribute `"@ + name + "`: "@ + m),
                }
            } else {
                attribute_from(a, name, i + 1)
            },
        }
    }
}

/// An attribute that has to be there.
pub open spec fn wanted(a: Seq<AttributeView>, name: Seq<char>, missing: Seq<char>) -> Result<Seq<char>, Seq<char>> {
    match attribute_from(a, name, 0) {
        Err(m) => Err(m),
        Ok(None) => Err(missing),
        Ok(Some(v)) => Ok(v),
    }
}

fn want(a: &Vec<XmlAttribute>, name: &str, missing: &str) -> (r: Result<String, String>)
    ensures
        match r {
            Ok(s) => wanted(attribute_views(a@), name@, missing@) == Ok::<Seq<char>, Seq<char>>(s@),
            Err(m) => wanted(attribute_views(a@), name@, missing@) == Err::<Seq<char>, Seq<char>>(m@),
        },
{
    let ghost all = attribute_views(a@);
    let mut i: usize = 0;
    while i < a.len()
        invariant
            i <= a@.len(),
            all == attribute_views(a@),
            attribute_from(all, name@, 0) == attribute_from(all, name@, i as int),
        decreases a@.len() - i,
    {
        assert(all[i as int] == a@[i as int]@);
        match &a[i] {
            XmlAttribute::Malformed(m) => {
                let mut s: String = String::from_str("malformed attribute: ");
                s.append(m.as_str());
                return Err(s);
            },
            XmlAttribute::Pair { name: n, value } => {
                let c: Vec<char> = characters(n.as_str());
                if same_text(c.as_slice(), name) {
                    match value {
                        Ok(v) => {
                            return Ok(v.clone());
                        },
                        Err(m) => {
                            let mut s: String = String::from_str("unreadable attribute `");
                            s.append(name);
                            s.append("`: ");
                            s.append(m.as_str());
                            assert(s@ =~= "unreadable attribute `"@ + name@ + "`: "@ + m@);
                            return Err(s);
                        },
                    }
                }
            },
        }
        i = i + 1;
    }
    Err(String::from_str(missing))
}

/// A coordinate of a vertex.
pub open spec fn coordinate(a: Seq<AttributeView>, axis: Seq<char>) -> Result<Double, Seq<char>> {
    match wanted(a, axis, "<vertex> is missing its `"@ + axis + "` attribute"@) {
        Err(m) => Err(m),
        Ok(raw) => match number_of(trimmed(raw)) {
            Some(d) => Ok(d),
            None => Err("vertex "@ + axis + " is not a number: `"@ + raw + "`"@),
        },
    }
}

/// Puts three texts together.
fn together(a: &str, b: &str, c: &str) -> (s: String)
    ensures
        s@ == a@ + b@ + c@,
{
    let mut s: String = String::from_str(a);
    s.append(b);
    s.append(c);
    s
}

fn read_coordinate(a: &Vec<XmlAttribute>, axis: &str) -> (r: Result<Double, String>)
    ensures
        match r {
            Ok(d) => coordinate(attribute_views(a@), axis@) == Ok::<Double, Seq<char>>(d),
            Err(m) => coordinate(attribute_views(a@), axis@) == Err::<Double, Seq<char>>(m@),
        },
{
    let missing: String = together("<vertex> is missing its `", axis, "` attribute");
    match want(a, axis, missing.as_str()) {
        Err(m) => Err(m),
        Ok(raw) => {
            let c: Vec<char> = characters(raw.as_str());
            let t: Vec<char> = trim(c.as_slice());
            match parse_number(t.as_slice()) {
                Some(d) => Ok(d),
                None => {
                    let mut s: String = together("vertex ", axis, " is not a number: `");
                    s.append(raw.as_str());
                    s.append("`");
                    assert(s@ =~= "vertex "@ + axis@ + " is not a number: `"@ + raw@ + "`"@);
                    Err(s)
                },
            }
        },
    }
}

/// The index that a text spells: digits, behind a plus sign or not.
pub open spec fn index_of(s: Seq<char>) -> Option<u32> {
    match integer_of(s) {
        Some(v) => if s[0] != '-' && v <= u32::MAX {
            Some(v as u32)
        } else {
            None
        },
        None => None,
    }
}

/// A corner of a triangle, counted from the vertices in front of its mesh.
pub open spec fn corner(a: Seq<AttributeView>, key: Seq<char>, base: u32) -> Result<u32, Seq<char>> {
    match wanted(a, key, "<triangle> is missing its `"@ + key + "` attribute"@) {
        Err(m) => Err(m),
        Ok(raw) => match index_of(trimmed(raw)) {
            None => Err(key + " is not an index: `"@ + raw + "`"@),
            Some(v) => if v + base > u32::MAX {
                Err("triangle index overflows u32"@)
            } else {
                Ok((v + base) as u32)
            },
        },
    }
}

fn parse_index(s: &[char]) -> (r: Option<u32>)
    ensures
        r == index_of(s@),
{
    proof {
        lemma_integer_not_negative(s@);
    }
    match parse_integer(s) {
        Some(v) => if s[0] != '-' && v <= u32::MAX as i64 {
            Some(v as u32)
        } else {
            None
        },
        None => None,
    }
}

proof fn lemma_integer_not_negative(s: Seq<char>)
    ensures
        integer_of(s) matches Some(v) ==> s.len() > 0 && (s[0] != '-' ==> v >= 0),
{
    let d = crate::text::unsigned_part(s);
    if crate::text::all_digits(d) {
        lemma_digits_not_negative(d, d.len() as int);
    }
}

proof fn lemma_digits_not_negative(d: Seq<char>, n: int)
    requires
        0 <= n <= d.len(),
        crate::text::all_digits(d),
    ensures
        crate::text::digits_value(d, n) >= 0,
    decreases n,
{
    if n > 0 {
        lemma_digits_not_negative(d, n - 1);
    }
}

fn read_corner(a: &Vec<XmlAttribute>, key: &str, base: u32) -> (r: Result<u32, String>)
    ensures
        match r {
            Ok(d) => corner(attribute_views(a@), key@, base) == Ok::<u32, Seq<char>>(d),
            Err(m) => corner(attribute_views(a@), key@, base) == Err::<u32, Seq<char>>(m@),
        },
{
    let missing: String = together("<triangle> is missing its `", key, "` attribute");
    match want(a, key, missing.as_str()) {
        Err(m) => Err(m),
        Ok(raw) => {
            let c: Vec<char> = characters(raw.as_str());
            let t: Vec<char> = trim(c.as_slice());
            match parse_index(t.as_slice()) {
                None => {
                    let mut s: String = together(key, " is not an index: `", raw.as_str());
                    s.append("`");
                    assert(s@ =~= key@ + " is not an index: `"@ + raw@ + "`"@);
                    Err(s)
                },
                Some(v) => match v.checked_add(base) {
                    Some(k) => Ok(k),
                    None => Err(String::from_str("triangle index overflows u32")),
                },
            }
        },
    }
}

/// What has been read of a model.
pub struct ModelView {
    /// The unit it declares.
    pub unit: Option<Unit>,
    /// The vertices.
    pub vertices: Seq<Vec3>,
    /// The triangles.
    pub triangles: Seq<[u32; 3]>,
    /// The vertices in front of the mesh that is being read.
    pub base: u32,
    /// The meshes.
    pub meshes: u32,
}

/// Nothing read.
pub open spec fn no_model() -> ModelView {
    ModelView { unit: None, vertices: Seq::empty(), triangles: Seq::empty(), base: 0, meshes: 0 }
}

/// The unit of a `<model>` element.
pub open spec fn unit_of(a: Seq<AttributeView>) -> Result<Unit, Seq<char>> {
    match wanted(a, "unit"@, "the <model> element has no `unit` attribute; 3MF requires one"@) {
        Err(m) => Err(m),
        Ok(raw) => match unit_declared(raw) {
            Some(u) => Ok(u),
            None => Err("unknown 3MF unit `"@ + raw + "`"@),
        },
    }
}

/// The vertex of a `<vertex>` element.
pub open spec fn vertex_element(a: Seq<AttributeView>) -> Result<Vec3, Seq<char>> {
    match (coordinate(a, "x"@), coordinate(a, "y"@), coordinate(a, "z"@)) {
        (Err(m), _, _) => Err(m),
        (_, Err(m), _) => Err(m),
        (_, _, Err(m)) => Err(m),
        (Ok(x), Ok(y), Ok(z)) => Ok(Vec3 { x, y, z }),
    }
}

/// The corners of a `<triangle>` element.
pub open spec fn triangle_element(a: Seq<AttributeView>, base: u32) -> Result<(u32, u32, u32), Seq<char>> {
    match (corner(a, "v1"@, base), corner(a, "v2"@, base), corner(a, "v3"@, base)) {
        (Err(m), _, _) => Err(m),
        (_, Err(m), _) => Err(m),
        (_, _, Err(m)) => Err(m),
        (Ok(x), Ok(y), Ok(z)) => Ok((x, y, z)),
    }
}

/// A model with one more element read.
#[verifier::opaque]
pub open spec fn element_read(s: ModelView, name: Seq<char>, a: Seq<AttributeView>) -> Result<ModelView, Seq<char>> {
    if name == "model"@ {
        match unit_of(a) {
            Err(m) => Err(m),
            Ok(u) => Ok(ModelView { unit: Some(u), ..s }),
        }
    } else if name == "mesh"@ {
        if s.vertices.len() > u32::MAX {
            Err("vertex count exceeds the u32 index space"@)
        } else {
            Ok(
                ModelView {
                    base: s.vertices.len() as u32,
                    meshes: if s.meshes == u32::MAX {
                        s.meshes
                    } else {
                        (s.meshes + 1) as u32
                    },
                    ..s
                },
            )
        }
    } else if name == "vertex"@ {
        match vertex_element(a) {
            Err(m) => Err(m),
            Ok(v) => Ok(ModelView { vertices: s.vertices.push(v), ..s }),
        }
    } else if name == "triangle"@ {
        match triangle_element(a, s.base) {
            Err(m) => Err(m),
            Ok((x, y, z)) => Ok(ModelView { triangles: s.triangles.push([x, y, z]), ..s }),
        }
    } else {
        Ok(s)
    }
}

/// A model with the events from `i` on read.
pub open spec fn model_from(s: ModelView, e: Seq<EventView>, i: int) -> Result<ModelView, Seq<char>>
    decreases e.len() - i,
{
    if i < 0 || i >= e.len() {
        Ok(s)
    } else {
        match e[i] {
            EventView::Malformed(m) => Err("malformed XML: "@ + m),
            EventView::Other => model_from(s, e, i + 1),
            EventView::Element { name, attributes } => match element_read(s, name, attributes) {
                Err(m) => Err(m),
                Ok(t) => model_from(t, e, i + 1),
            },
        }
    }
}

/// What has been read of a model.
struct Model {
    unit: Option<Unit>,
    vertices: Vec<Vec3>,
    triangles: Vec<[u32; 3]>,
    base: u32,
    meshes: u32,
}

impl Model {
    spec fn state(self) -> ModelView {
        ModelView {
            unit: self.unit,
            vertices: self.vertices@,
            triangles: self.triangles@,
            base: self.base,
            meshes: self.meshes,
        }
    }
}

fn read_unit(a: &Vec<XmlAttribute>) -> (r: Result<Unit, String>)
    ensures
        match r {
            Ok(u) => unit_of(attribute_views(a@)) == Ok::<Unit, Seq<char>>(u),
            Err(m) => unit_of(attribute_views(a@)) == Err::<Unit, Seq<char>>(m@),
        },
{
    match want(a, "unit", "the <model> element has no `unit` attribute; 3MF requires one") {
        Err(m) => Err(m),
        Ok(raw) => match parse_unit(raw.as_str()) {
            Some(u) => Ok(u),
            None => Err(together("unknown 3MF unit `", raw.as_str(), "`")),
        },
    }
}

fn read_vertex(a: &Vec<XmlAttribute>) -> (r: Result<Vec3, String>)
    ensures
        match r {
            Ok(v) => vertex_element(attribute_views(a@)) == Ok::<Vec3, Seq<char>>(v),
            Err(m) => vertex_element(attribute_views(a@)) == Err::<Vec3, Seq<char>>(m@),
        },
{
    let x: Double = match read_coordinate(a, "x") {
        Ok(d) => d,
        Err(m) => {
            return Err(m);
        },
    };
    let y: Double = match read_coordinate(a, "y") {
        Ok(d) => d,
        Err(m) => {
            return Err(m);
        },
    };
    let z: Double = match read_coordinate(a, "z") {
        Ok(d) => d,
        Err(m) => {
            return Err(m);
        },
    };
    Ok(Vec3::new(x, y, z))
}

fn read_triangle(a: &Vec<XmlAttribute>, base: u32) -> (r: Result<[u32; 3], String>)
    ensures
        match r {
            Ok(t) => triangle_element(attribute_views(a@), base) == Ok::<(u32, u32, u32), Seq<char>>((t[0], t[1], t[2])),
            Err(m) => triangle_element(attribute_views(a@), base) == Err::<(u32, u32, u32), Seq<char>>(m@),
        },
{
    let x: u32 = match read_corner(a, "v1", base) {
        Ok(d) => d,
        Err(m) => {
            return Err(m);
        },
    };
    let y: u32 = match read_corner(a, "v2", base) {
        Ok(d) => d,
        Err(m) => {
            return Err(m);
        },
    };
    let z: u32 = match read_corner(a, "v3", base) {
        Ok(d) => d,
        Err(m) => {
            return Err(m);
        },
    };
    Ok([x, y, z])
}

fn read_element(s: &mut Model, name: &str, a: &Vec<XmlAttribute>) -> (r: Result<(), String>)
    ensures
        match r {
            Ok(_) => element_read(old(s).state(), name@, attribute_views(a@)) == Ok::<ModelView, Seq<char>>(final(s).state()),
            Err(m) => element_read(old(s).state(), name@, attribute_views(a@)) == Err::<ModelView, Seq<char>>(m@),
        },
{
    reveal(element_read);
    let n: Vec<char> = characters(name);
    if same_text(n.as_slice(), "model") {
        match read_unit(a) {
            Err(m) => {
                return Err(m);
            },
            Ok(u) => {
                s.unit = Some(u);
            },
        }
    } else if same_text(n.as_slice(), "mesh") {
        if s.vertices.len() > u32::MAX as usize {
            return Err(String::from_str("vertex count exceeds the u32 index space"));
        }
        s.base = s.vertices.len() as u32;
        if s.meshes < u32::MAX {
            s.meshes = s.meshes + 1;
        }
    } else if same_text(n.as_slice(), "vertex") {
        match read_vertex(a) {
            Err(m) => {
                return Err(m);
            },
            Ok(v) => {
                s.vertices.push(v);
            },
        }
    } else if same_text(n.as_slice(), "triangle") {
        match read_triangle(a, s.base) {
            Err(m) => {
                return Err(m);
            },
            Ok(t) => {
                assert(t =~= [t[0], t[1], t[2]]);
                s.triangles.push(t);
            },
        }
    }
    Ok(())
}

/// What is wrong with a model that declares one unit where another is expected.
pub open spec fn contradiction(unit: Unit, expected: Unit) -> Seq<char> {
    "the file declares `"@ + unit.label() + "` but --units says `"@ + expected.label()
        + "`. 3MF carries its own unit, so this is a contradiction rather than an override; silently preferring one would produce a part of the wrong size. Omit --units to use the file's, or correct whichever is wrong."@
}

/// Vertices in millimetres.
pub open spec fn scaled(v: Seq<Vec3>, unit: Unit) -> Seq<Vec3> {
    Seq::new(v.len(), |i: int| vector_product(v[i], unit.factor()))
}

/// `r` is what the events of a model come to: an error with a message, or the mesh
/// in millimetres.
pub open spec fn model_outcome(e: Seq<EventView>, expected: Option<Unit>, r: Result<TriMesh, ParseError>) -> bool {
    match model_from(no_model(), e, 0) {
        Err(m) => failed(r, m),
        Ok(s) => match s.unit {
            None => failed(r, "no <model> element found"@),
            Some(unit) => if expected matches Some(x) && x != unit {
                failed(r, contradiction(unit, expected->Some_0))
            } else {
                match mesh_fault(scaled(s.vertices, unit), s.triangles) {
                    Some(fault) => failed(r, fault.text()),
                    None => r matches Ok(m) && m.points() == scaled(s.vertices, unit) && m.points().len()
                        == s.vertices.len() && (forall|i: int, k: int|
                        #![trigger m.points()[i].at(k)]
                        0 <= i < s.vertices.len() && 0 <= k < 3 ==> m.points()[i].at(k) == product(
                            s.vertices[i].at(k),
                            unit.factor(),
                        )) && m.faces() == s.triangles
                        && m.origin().source_format@ == "3mf"@ && m.origin().source_unit == unit
                        && m.origin().polygons_triangulated == 0 && m.origin().non_convex_polygons == 0
                        && m.origin().ignored_records == if s.meshes == 0 {
                        0
                    } else {
                        s.meshes - 1
                    },
                }
            },
        },
    }
}

/// An error of this format with a message.
pub open spec fn failed<T>(r: Result<T, ParseError>, message: Seq<char>) -> bool {
    r matches Err(e) && e.says("3mf"@, None, None, message)
}

fn fail(message: String) -> (e: ParseError)
    ensures
        e.says("3mf"@, None, None, message@),
{
    ParseError { format: "3mf", line: None, offset: None, message }
}

fn scale_all(v: &Vec<Vec3>, unit: Unit) -> (r: Vec<Vec3>)
    ensures
        r@ == scaled(v@, unit),
{
    let k: Double = unit.millimetres_per();
    let mut r: Vec<Vec3> = Vec::new();
    let mut i: usize = 0;
    while i < v.len()
        invariant
            i <= v@.len(),
            k == unit.factor(),
            r@ == scaled(v@, unit).subrange(0, i as int),
        decreases v@.len() - i,
    {
        r.push(v[i].times(k));
        i = i + 1;
        assert(r@ =~= scaled(v@, unit).subrange(0, i as int));
    }
    assert(r@ =~= scaled(v@, unit));
    r
}

/// Builds the mesh of a model from its events.
pub fn build_model(events: &[XmlEvent], expected: Option<Unit>) -> (r: Result<TriMesh, ParseError>)
    ensures
        model_outcome(event_views(events@), expected, r),
{
    let ghost all = event_views(events@);
    let mut s: Model = Model { unit: None, vertices: Vec::new(), triangles: Vec::new(), base: 0, meshes: 0 };
    proof {
        assert(s.state() =~= no_model());
    }
    let mut i: usize = 0;
    while i < events.len()
        invariant
            i <= events@.len(),
            all == event_views(events@),
            model_from(no_model(), all, 0) == model_from(s.state(), all, i as int),
        decreases events@.len() - i,
    {
        assert(all[i as int] == events@[i as int]@);
        match &events[i] {
            XmlEvent::Malformed(m) => {
                return Err(fail(prefixed("malformed XML: ", m.as_str())));
            },
            XmlEvent::Other => {},
            XmlEvent::Element { name, attributes } => {
                if let Err(m) = read_element(&mut s, name.as_str(), attributes) {
                    return Err(fail(m));
                }
            },
        }
        i = i + 1;
    }
    let unit: Unit = match s.unit {
        Some(u) => u,
        None => {
            return Err(fail(String::from_str("no <model> element found")));
        },
    };
    if let Some(x) = expected {
        if x != unit {
            let mut m: String = together("the file declares `", unit.name(), "` but --units says `");
            m.append(x.name());
            m.append(
                "`. 3MF carries its own unit, so this is a contradiction rather than an override; silently preferring one would produce a part of the wrong size. Omit --units to use the file's, or correct whichever is wrong.",
            );
            assert(m@ =~= contradiction(unit, x));
            return Err(fail(m));
        }
    }
    let meta: MeshMeta = MeshMeta {
        source_format: String::from_str("3mf"),
        source_unit: unit,
        polygons_triangulated: 0,
        non_convex_polygons: 0,
        ignored_records: if s.meshes == 0 {
            0
        } else {
            s.meshes - 1
        },
    };
    let vertices: Vec<Vec3> = scale_all(&s.vertices, unit);
    match TriMesh::new(vertices, s.triangles, meta) {
        Ok(m) => Ok(m),
        Err(e) => Err(mesh_error("3mf", e)),
    }
}

/// Reads a 3MF container. The unit comes from the file; if `expected` is another,
/// that is an error.
pub fn read(bytes: &[u8], expected: Option<Unit>) -> (r: Result<TriMesh, ParseError>)
    ensures
        match model_text(bytes@) {
            Err(m) => failed(r, m),
            Ok(xml) => model_outcome(document_events(xml), expected, r),
        },
{
    let xml: String = match model_part(bytes) {
        Ok(t) => t,
        Err(m) => {
            return Err(fail(m));
        },
    };
    let events: Vec<XmlEvent> = read_events(xml.as_str());
    build_model(events.as_slice(), expected)
}

/// The unit of the first `<model>` element, from event `i` on.
pub open spec fn first_unit(e: Seq<EventView>, i: int) -> Result<Unit, Seq<char>>
    decreases e.len() - i,
{
    if i < 0 || i >= e.len() {
        Err("no <model> element found"@)
    } else {
        match e[i] {
            EventView::Malformed(m) => Err("malformed XML: "@ + m),
            EventView::Element { name, attributes } => if name == "model"@ {
                unit_of(attributes)
            } else {
                first_unit(e, i + 1)
            },
            EventView::Other => first_unit(e, i + 1),
        }
    }
}

/// The unit that the events of a model declare.
pub fn unit_of_events(events: &[XmlEvent]) -> (r: Result<Unit, ParseError>)
    ensures
        match first_unit(event_views(events@), 0) {
            Ok(u) => r == Ok::<Unit, ParseError>(u),
            Err(m) => failed(r, m),
        },
{
    let ghost all = event_views(events@);
    let mut i: usize = 0;
    while i < events.len()
        invariant
            i <= events@.len(),
            all == event_views(events@),
            first_unit(all, 0) == first_unit(all, i as int),
        decreases events@.len() - i,
    {
        assert(all[i as int] == events@[i as int]@);
        match &events[i] {
            XmlEvent::Malformed(m) => {
                return Err(fail(prefixed("malformed XML: ", m.as_str())));
            },
            XmlEvent::Other => {},
            XmlEvent::Element { name, attributes } => {
                let n: Vec<char> = characters(name.as_str());
                if same_text(n.as_slice(), "model") {
                    return match read_unit(attributes) {
                        Ok(u) => Ok(u),
                        Err(m) => Err(fail(m)),
                    };
                }
            },
        }
        i = i + 1;
    }
    Err(fail(String::from_str("no <model> element found")))
}

/// The unit a 3MF file declares, without reading its geometry.
pub fn declared_unit(bytes: &[u8]) -> (r: Result<Unit, ParseError>)
    ensures
        match model_text(bytes@) {
            Err(m) => failed(r, m),
            Ok(xml) => match first_unit(document_events(xml), 0) {
                Ok(u) => r == Ok::<Unit, ParseError>(u),
                Err(m) => failed(r, m),
            },
        },
{
    let xml: String = match model_part(bytes) {
        Ok(t) => t,
        Err(m) => {
            return Err(fail(m));
        },
    };
    let events: Vec<XmlEvent> = read_events(xml.as_str());
    unit_of_events(events.as_slice())
}

} // verus!
