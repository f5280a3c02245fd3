//! Wavefront OBJ.
//!
//! Only `v` and `f` records are read; the others are counted. A face of more than
//! three corners is triangulated by a fan from its first, which is right where
//! the face is star-shaped from that corner. Faces that are not convex are
//! counted too.

use crate::arithmetic::{difference, product, sum};
use crate::double::Double;
use crate::math::{vector_sum, Vec2, Vec3};
use crate::mesh::io::{number_line, push_line, push_number_line, read_vertex, spelled, vertex_of, ParseError};
use crate::mesh::units::Unit;
use crate::mesh::{mesh_fault, MeshError, MeshMeta, TriMesh};
use crate::predicates::{orient2d, orient2d_det, orientation_of, Orientation};
use crate::text::{
    characters, decimal_text, excerpt, integer_of, lemma_words_not_empty, lines, parse_integer, position_of, push_characters, push_number, push_signed,
    same_text, signed_text, split_lines, split_words, texts, words,
};
use crate::text_laws::{joined, spaced};
use vstd::prelude::*;

verus! {

/// A point in the plane across an axis.
pub open spec fn flattened(v: Vec3, axis: int) -> Vec2 {
    if axis == 0 {
        Vec2 { x: v.y, y: v.z }
    } else if axis == 1 {
        Vec2 { x: v.z, y: v.x }
    } else {
        Vec2 { x: v.x, y: v.y }
    }
}

/// A point in the plane across an axis.
pub(crate) fn flatten(v: Vec3, axis: usize) -> (r: Vec2)
    ensures
        r == flattened(v, axis as int),
{
    match axis {
        0 => Vec2::new(v.y, v.z),
        1 => Vec2::new(v.z, v.x),
        _ => Vec2::new(v.x, v.y),
    }
}

/// The index of the largest component; of equal ones, the first.
pub open spec fn dominant(n: Vec3) -> int {
    if n.y.le(n.x) && n.z.le(n.x) {
        0
    } else if n.z.le(n.y) {
        1
    } else {
        2
    }
}

/// The index of the largest component; of equal ones, the first.
pub(crate) fn dominant_axis(n: Vec3) -> (r: usize)
    ensures
        r == dominant(n),
        r < 3,
{
    if n.y.at_most(n.x) && n.z.at_most(n.x) {
        0
    } else if n.z.at_most(n.y) {
        1
    } else {
        2
    }
}

/// The sum of the first `n` edge terms of Newell's normal.
pub open spec fn newell(points: Seq<Vec3>, n: nat) -> Vec3
    decreases n,
{
    if n == 0 {
        Vec3 { x: Double { bits: 0 }, y: Double { bits: 0 }, z: Double { bits: 0 } }
    } else {
        let a = points[n - 1];
        let b = points[n as int % points.len() as int];
        vector_sum(
            newell(points, (n - 1) as nat),
            Vec3 {
                x: product(difference(a.y, b.y), sum(a.z, b.z)),
                y: product(difference(a.z, b.z), sum(a.x, b.x)),
                z: product(difference(a.x, b.x), sum(a.y, b.y)),
            },
        )
    }
}

/// The axis across which a polygon is flattened: the one its normal is most
/// aligned with.
pub open spec fn polygon_axis(points: Seq<Vec3>) -> int {
    let n = newell(points, points.len());
    dominant(Vec3 { x: n.x.absolute(), y: n.y.absolute(), z: n.z.absolute() })
}

/// Which way a flattened polygon turns between its corners `i` and `i + 2`.
pub open spec fn turn(points: Seq<Vec3>, axis: int, i: int) -> Orientation {
    let n = points.len() as int;
    orientation_of(
        orient2d_det(
            flattened(points[i], axis),
            flattened(points[(i + 1) % n], axis),
            flattened(points[(i + 2) % n], axis),
        ),
    )
}

/// A polygon turns one way only. Straight corners are no turns, and a triangle is
/// always convex.
#[verifier::opaque]
pub open spec fn convex(points: Seq<Vec3>) -> bool {
    points.len() < 4 || !exists|i: int, j: int|
        0 <= i < points.len() && 0 <= j < points.len() && #[trigger] turn(points, polygon_axis(points), i)
            == Orientation::Positive && #[trigger] turn(points, polygon_axis(points), j) == Orientation::Negative
}

/// True if a polygon is convex, decided exactly on its flattened corners.
pub fn is_convex(points: &[Vec3]) -> (r: bool)
    requires
        all_finite(points@),
    ensures
        r == convex(points@),
{
    let n: usize = points.len();
    proof {
        reveal(convex);
    }
    if n < 4 {
        return true;
    }
    let mut normal: Vec3 = Vec3::zeroed();
    let mut i: usize = 0;
    while i < n
        invariant
            i <= n,
            n == points@.len(),
            normal == newell(points@, i as nat),
        decreases n - i,
    {
        let a: Vec3 = points[i];
        let b: Vec3 = points[(i + 1) % n];
        normal = normal.plus(
            Vec3::new(
                a.y.minus(b.y).times(a.z.plus(b.z)),
                a.z.minus(b.z).times(a.x.plus(b.x)),
                a.x.minus(b.x).times(a.y.plus(b.y)),
            ),
        );
        i = i + 1;
    }
    let axis: usize = dominant_axis(normal.abs());
    let mut left: bool = false;
    let mut right: bool = false;
    let mut k: usize = 0;
    while k < n
        invariant
            k <= n,
            n == points@.len(),
            all_finite(points@),
            left == exists|j: int| 0 <= j < k && #[trigger] turn(points@, axis as int, j) == Orientation::Positive,
            right == exists|j: int| 0 <= j < k && #[trigger] turn(points@, axis as int, j) == Orientation::Negative,
        decreases n - k,
    {
        let here: Orientation = turn_at(points, axis, k);
        left = left || here == Orientation::Positive;
        right = right || here == Orientation::Negative;
        k = k + 1;
    }
    !(left && right)
}

/// Which way a flattened polygon turns at the corner behind corner `k`.
fn turn_at(points: &[Vec3], axis: usize, k: usize) -> (r: Orientation)
    requires
        k < points@.len(),
        all_finite(points@),
    ensures
        r == turn(points@, axis as int, k as int),
{
    let n: usize = points.len();
    let p: usize = if k + 1 < n { k + 1 } else { 0 };
    let q: usize = if p + 1 < n { p + 1 } else { 0 };
    proof {
        lemma_wrapped(k as int, n as int);
        lemma_wrapped(p as int, n as int);
        assert(p == (k + 1) % n as int);
        assert(q == (k + 2) % n as int);
        assert(points@[k as int].finite() && points@[p as int].finite() && points@[q as int].finite());
    }
    orient2d(flatten(points[k], axis), flatten(points[p], axis), flatten(points[q], axis))
}

proof fn lemma_wrapped(k: int, n: int)
    requires
        0 <= k < n,
    ensures
        0 <= (k + 1) % n < n,
        (k + 1) % n == (if k + 1 < n {
            k + 1
        } else {
            0
        }),
        ((k + 1) % n + 1) % n == (k + 2) % n,
{
    if k + 1 < n {
        vstd::arithmetic::div_mod::lemma_small_mod((k + 1) as nat, n as nat);
    } else {
        vstd::arithmetic::div_mod::lemma_mod_self_0(n);
    }
    vstd::arithmetic::div_mod::lemma_mod_bound(k + 1, n);
    vstd::arithmetic::div_mod::lemma_add_mod_noop_right(1, k + 1, n);
    assert(1 + (k + 1) == k + 2);
}

/// The zero-based vertex that a face corner refers to, or what is wrong with it.
///
/// Corners count from one, and negative ones back from the vertices declared so
/// far. What stands behind a slash is not looked at.
#[verifier::opaque]
pub open spec fn resolved(token: Seq<char>, declared: int) -> Result<u32, Seq<char>> {
    let head = token.subrange(0, position_of(token, '/', 0));
    match integer_of(head) {
        None => Err("face index is not an integer: `"@ + token + "`"@),
        Some(raw) => {
            let zero_based = if raw > 0 {
                raw - 1
            } else {
                declared + raw
            };
            if raw < i64::MIN || raw > i64::MAX {
                Err("face index is not an integer: `"@ + token + "`"@)
            } else if raw == 0 {
                Err("face index 0 is invalid; OBJ indices are one-based"@)
            } else if zero_based < 0 || zero_based >= declared {
                Err(
                    "face references vertex "@ + signed_text(raw) + ", which resolves to "@ + signed_text(zero_based)
                        + ", but only "@ + decimal_text(declared as nat) + " vertices have been declared"@,
                )
            } else {
                Ok(zero_based as u32)
            }
        },
    }
}

/// Resolves a face corner to a zero-based vertex index.
fn resolve(token: &Vec<char>, declared: usize) -> (r: Result<u32, String>)
    requires
        declared <= u32::MAX,
    ensures
        match r {
            Ok(i) => resolved(token@, declared as int) == Ok::<u32, Seq<char>>(i) && i < declared,
            Err(m) => resolved(token@, declared as int) == Err::<u32, Seq<char>>(m@),
        },
{
    proof {
        reveal(resolved);
    }
    let mut k: usize = 0;
    while k < token.len() && token[k] != '/'
        invariant
            k <= token.len(),
            position_of(token@, '/', 0) == position_of(token@, '/', k as int),
        decreases token.len() - k,
    {
        k = k + 1;
    }
    let head: Vec<char> = excerpt(token.as_slice(), 0, k);
    let mut m: String = String::new();
    let raw: i64 = match parse_integer(head.as_slice()) {
        Some(v) => v,
        None => {
            m.append("face index is not an integer: `");
            push_characters(&mut m, token.as_slice());
            m.append("`");
            proof {
                assert(m@ =~= "face index is not an integer: `"@ + token@ + "`"@);
            }
            return Err(m);
        },
    };
    if raw == 0 {
        m.append("face index 0 is invalid; OBJ indices are one-based");
        proof {
            assert(m@ =~= "face index 0 is invalid; OBJ indices are one-based"@);
        }
        return Err(m);
    }
    let zero_based: i64 = if raw > 0 { raw - 1 } else { declared as i64 + raw };
    if zero_based < 0 || zero_based >= declared as i64 {
        m.append("face references vertex ");
        push_signed(&mut m, raw);
        m.append(", which resolves to ");
        push_signed(&mut m, zero_based);
        m.append(", but only ");
        push_number(&mut m, declared as u64);
        m.append(" vertices have been declared");
        proof {
            assert(m@ =~= "face references vertex "@ + signed_text(raw as int) + ", which resolves to "@ + signed_text(
                zero_based as int,
            ) + ", but only "@ + decimal_text(declared as nat) + " vertices have been declared"@);
        }
        return Err(m);
    }
    Ok(zero_based as u32)
}

/// What has been read of an OBJ.
#[verifier::ext_equal]
pub struct ObjState {
    /// The vertices declared.
    pub vertices: Seq<Vec3>,
    /// The triangles of the faces.
    pub triangles: Seq<[u32; 3]>,
    /// Records that were neither vertices nor faces.
    pub ignored: int,
    /// Faces of more than three corners.
    pub polygons: int,
    /// Of those, the ones that are not convex.
    pub non_convex: int,
}

/// The vertices that face corners refer to, from corner `i` on, or the first
/// thing wrong with one.
pub open spec fn resolved_from(w: Seq<Seq<char>>, i: int, declared: int) -> Result<Seq<u32>, Seq<char>>
    decreases w.len() - i,
{
    if i >= w.len() {
        Ok(Seq::empty())
    } else {
        match resolved(w[i], declared) {
            Err(m) => Err(m),
            Ok(v) => match resolved_from(w, i + 1, declared) {
                Err(m) => Err(m),
                Ok(rest) => Ok(seq![v] + rest),
            },
        }
    }
}

/// The points that some indices refer to.
pub open spec fn picked(vertices: Seq<Vec3>, indices: Seq<u32>) -> Seq<Vec3> {
    Seq::new(indices.len(), |i: int| vertices[indices[i] as int])
}

/// All points are finite.
pub open spec fn all_finite(points: Seq<Vec3>) -> bool {
    forall|i: int| 0 <= i < points.len() ==> (#[trigger] points[i]).finite()
}

/// The fan of a face from its first corner.
pub open spec fn fan(c: Seq<u32>) -> Seq<[u32; 3]> {
    Seq::new((c.len() - 2) as nat, |k: int| [c[0], c[k + 1], c[k + 2]])
}

/// What a face record adds, or what is wrong with it.
pub open spec fn face_step(s: ObjState, w: Seq<Seq<char>>) -> Result<ObjState, Seq<char>> {
    if w.len() < 4 {
        Err("face has "@ + decimal_text((w.len() - 1) as nat) + " vertices; at least three are needed"@)
    } else {
        match resolved_from(w, 1, s.vertices.len() as int) {
            Err(m) => Err(m),
            Ok(c) => {
                let points = picked(s.vertices, c);
                Ok(
                    ObjState {
                        triangles: s.triangles + fan(c),
                        polygons: s.polygons + (if w.len() > 4 {
                            1int
                        } else {
                            0
                        }),
                        non_convex: s.non_convex + (if w.len() > 4 && all_finite(points) && !convex(points) {
                            1int
                        } else {
                            0
                        }),
                        ..s
                    },
                )
            },
        }
    }
}

/// What a line adds, or what is wrong with it.
#[verifier::opaque]
pub open spec fn line_step(s: ObjState, w: Seq<Seq<char>>, unit: Unit) -> Result<ObjState, Seq<char>> {
    if w.len() == 0 || w[0][0] == '#' {
        Ok(s)
    } else if w[0] == "v"@ {
        match vertex_of(w, unit) {
            Ok(v) => Ok(ObjState { vertices: s.vertices.push(v), ..s }),
            Err(m) => Err(m),
        }
    } else if w[0] == "f"@ {
        face_step(s, w)
    } else {
        Ok(ObjState { ignored: s.ignored + 1, ..s })
    }
}

/// What the lines from index `i` on make of a state, or the first thing wrong and
/// the number of its line.
pub open spec fn read_from(s: ObjState, l: Seq<Seq<char>>, i: int, unit: Unit) -> Result<ObjState, (int, Seq<char>)>
    decreases l.len() - i,
{
    if i >= l.len() {
        Ok(s)
    } else {
        match line_step(s, words(l[i]), unit) {
            Err(m) => Err((i + 1, m)),
            Ok(t) => read_from(t, l, i + 1, unit),
        }
    }
}

/// Nothing read yet.
pub open spec fn blank() -> ObjState {
    ObjState { vertices: Seq::empty(), triangles: Seq::empty(), ignored: 0, polygons: 0, non_convex: 0 }
}

/// What an OBJ text holds, or the first thing wrong and the number of its line.
pub open spec fn obj_contents(text: Seq<char>, unit: Unit) -> Result<ObjState, (int, Seq<char>)> {
    read_from(blank(), lines(text), 0, unit)
}

/// What has been read of an OBJ.
struct Loading {
    vertices: Vec<Vec3>,
    triangles: Vec<[u32; 3]>,
    ignored: u32,
    polygons: u32,
    non_convex: u32,
}

impl Loading {
    spec fn state(self) -> ObjState {
        ObjState {
            vertices: self.vertices@,
            triangles: self.triangles@,
            ignored: self.ignored as int,
            polygons: self.polygons as int,
            non_convex: self.non_convex as int,
        }
    }

    /// No count exceeds the number of lines read.
    spec fn within(self, n: int) -> bool {
        self.vertices@.len() <= n && self.ignored <= n && self.polygons <= n && self.non_convex <= n
    }

    /// Reads a face record.
    fn face(&mut self, w: &Vec<Vec<char>>, Ghost(n): Ghost<int>) -> (r: Result<(), String>)
        requires
            old(self).within(n),
            n < u32::MAX,
            w@.len() > 0,
        ensures
            match r {
                Ok(_) => face_step(old(self).state(), texts(w@)) == Ok::<ObjState, Seq<char>>(final(self).state())
                    && final(self).within(n + 1),
                Err(m) => face_step(old(self).state(), texts(w@)) == Err::<ObjState, Seq<char>>(m@),
            },
    {
        if w.len() < 4 {
            let mut m: String = String::from_str("face has ");
            push_number(&mut m, (w.len() - 1) as u64);
            m.append(" vertices; at least three are needed");
            proof {
                assert(m@ =~= "face has "@ + decimal_text((w@.len() - 1) as nat)
                    + " vertices; at least three are needed"@);
            }
            return Err(m);
        }
        let declared: usize = self.vertices.len();
        let c: Vec<u32> = match corners(w, declared) {
            Ok(c) => c,
            Err(m) => {
                return Err(m);
            },
        };
        let ghost points = picked(self.vertices@, c@);
        if w.len() > 4 {
            self.polygons = self.polygons + 1;
            if bent(&self.vertices, &c) {
                self.non_convex = self.non_convex + 1;
            }
        }
        let mut k: usize = 0;
        while k < c.len() - 2
            invariant
                k <= c@.len() - 2,
                c@.len() >= 3,
                self.triangles@ == old(self).triangles@ + fan(c@).subrange(0, k as int),
                self.vertices@ == old(self).vertices@,
                self.ignored == old(self).ignored,
                self.polygons == old(self).polygons + (if w@.len() > 4 {
                    1int
                } else {
                    0
                }),
                self.non_convex == old(self).non_convex + (if w@.len() > 4 && all_finite(points) && !convex(points) {
                    1int
                } else {
                    0
                }),
            decreases c@.len() - k,
        {
            self.triangles.push([c[0], c[k + 1], c[k + 2]]);
            k = k + 1;
            proof {
                assert(self.triangles@ =~= old(self).triangles@ + fan(c@).subrange(0, k as int));
            }
        }
        proof {
            assert(fan(c@).subrange(0, k as int) =~= fan(c@));
            assert(face_step(old(self).state(), texts(w@))->Ok_0 =~= self.state());
        }
        Ok(())
    }

    /// Reads a line.
    fn line(&mut self, w: &Vec<Vec<char>>, unit: Unit, Ghost(n): Ghost<int>) -> (r: Result<(), String>)
        requires
            old(self).within(n),
            n < u32::MAX,
            w@.len() > 0 ==> w@[0]@.len() > 0,
        ensures
            match r {
                Ok(_) => line_step(old(self).state(), texts(w@), unit) == Ok::<ObjState, Seq<char>>(final(self).state())
                    && final(self).within(n + 1),
                Err(m) => line_step(old(self).state(), texts(w@), unit) == Err::<ObjState, Seq<char>>(m@),
            },
    {
        proof {
            reveal(line_step);
        }
        if w.len() == 0 || w[0][0] == '#' {
            return Ok(());
        }
        assert(texts(w@)[0] == w@[0]@);
        if same_text(w[0].as_slice(), "v") {
            match read_vertex(w, unit) {
                Ok(v) => {
                    self.vertices.push(v);
                },
                Err(m) => {
                    return Err(m);
                },
            }
        } else if same_text(w[0].as_slice(), "f") {
            return self.face(w, Ghost(n));
        } else {
            self.ignored = self.ignored + 1;
        }
        Ok(())
    }
}

/// True if the corners are finite and their polygon is not convex.
fn bent(vertices: &Vec<Vec3>, c: &Vec<u32>) -> (r: bool)
    requires
        forall|i: int| 0 <= i < c@.len() ==> (#[trigger] c@[i]) < vertices@.len(),
    ensures
        r == (all_finite(picked(vertices@, c@)) && !convex(picked(vertices@, c@))),
{
    let mut points: Vec<Vec3> = Vec::new();
    let mut i: usize = 0;
    while i < c.len()
        invariant
            i <= c@.len(),
            forall|i: int| 0 <= i < c@.len() ==> (#[trigger] c@[i]) < vertices@.len(),
            points@ == picked(vertices@, c@).subrange(0, i as int),
            all_finite(points@),
        decreases c@.len() - i,
    {
        let p: Vec3 = vertices[c[i] as usize];
        if !p.is_finite() {
            proof {
                assert(picked(vertices@, c@)[i as int] == p);
            }
            return false;
        }
        points.push(p);
        i = i + 1;
        proof {
            assert(points@ =~= picked(vertices@, c@).subrange(0, i as int));
        }
    }
    proof {
        assert(points@ =~= picked(vertices@, c@));
    }
    !is_convex(points.as_slice())
}

/// The vertices that the corners of a face refer to.
fn corners(w: &Vec<Vec<char>>, declared: usize) -> (r: Result<Vec<u32>, String>)
    requires
        declared <= u32::MAX,
        w@.len() > 0,
    ensures
        match r {
            Ok(c) => resolved_from(texts(w@), 1, declared as int) == Ok::<Seq<u32>, Seq<char>>(c@) && c@.len() == w@.len()
                - 1 && forall|i: int| 0 <= i < c@.len() ==> (#[trigger] c@[i]) < declared,
            Err(m) => resolved_from(texts(w@), 1, declared as int) == Err::<Seq<u32>, Seq<char>>(m@),
        },
{
    let mut c: Vec<u32> = Vec::new();
    let mut i: usize = 1;
    let ghost t = texts(w@);
    while i < w.len()
        invariant
            1 <= i <= w@.len(),
            t == texts(w@),
            declared <= u32::MAX,
            c@.len() == i - 1,
            forall|i: int| 0 <= i < c@.len() ==> (#[trigger] c@[i]) < declared,
            resolved_from(t, 1, declared as int) == (match resolved_from(t, i as int, declared as int) {
                Ok(rest) => Ok::<Seq<u32>, Seq<char>>(c@ + rest),
                Err(m) => Err::<Seq<u32>, Seq<char>>(m),
            }),
        decreases w@.len() - i,
    {
        match resolve(&w[i], declared) {
            Ok(v) => {
                proof {
                    match resolved_from(t, i + 1, declared as int) {
                        Ok(rest) => {
                            assert(c@ + (seq![v] + rest) =~= c@.push(v) + rest);
                        },
                        Err(m) => {},
                    }
                }
                c.push(v);
            },
            Err(m) => {
                return Err(m);
            },
        }
        i = i + 1;
    }
    proof {
        assert(c@ + Seq::<u32>::empty() =~= c@);
    }
    Ok(c)
}

/// The number of the line, from index `i` on, that declares vertex `v` of those
/// that follow; none where there is no such line.
pub open spec fn vertex_line(l: Seq<Seq<char>>, i: int, v: int) -> Option<usize>
    decreases l.len() - i,
{
    if i >= l.len() {
        None
    } else {
        let w = words(l[i]);
        if w.len() > 0 && w[0] == "v"@ {
            if v == 0 {
                Some((i + 1) as usize)
            } else {
                vertex_line(l, i + 1, v - 1)
            }
        } else {
            vertex_line(l, i + 1, v)
        }
    }
}

/// The line that an error of the mesh constructor is about.
pub open spec fn fault_line(l: Seq<Seq<char>>, fault: MeshError) -> Option<usize> {
    match fault.vertex_at() {
        Some(v) => vertex_line(l, 0, v as int),
        None => None,
    }
}

/// The number of the line that declares a vertex.
fn find_vertex(all: &Vec<Vec<char>>, vertex: u32) -> (r: Option<usize>)
    requires
        all@.len() <= u32::MAX,
    ensures
        r == vertex_line(texts(all@), 0, vertex as int),
{
    let ghost l = texts(all@);
    let mut left: u32 = vertex;
    let mut i: usize = 0;
    while i < all.len()
        invariant
            i <= all@.len() <= u32::MAX,
            l == texts(all@),
            vertex_line(l, 0, vertex as int) == vertex_line(l, i as int, left as int),
        decreases all@.len() - i,
    {
        let w: Vec<Vec<char>> = split_words(all[i].as_slice());
        proof {
            assert(l[i as int] == all@[i as int]@);
            if w@.len() > 0 {
                assert(texts(w@)[0] == w@[0]@);
            }
        }
        if w.len() > 0 && same_text(w[0].as_slice(), "v") {
            if left == 0 {
                return Some(i + 1);
            }
            left = left - 1;
        }
        i = i + 1;
    }
    None
}

/// Reads an OBJ, scaling from `unit` to millimetres.
///
/// The error names the line of a malformed vertex or face, of an index out of
/// range, or of the vertex that the mesh constructor rejects. That there are too
/// many of something is the fault of no line.
pub fn read(text: &str, unit: Unit) -> (r: Result<TriMesh, ParseError>)
    requires
        lines(text@).len() <= u32::MAX,
    ensures
        match obj_contents(text@, unit) {
            Err((line, m)) => r matches Err(e) && e.says("obj"@, Some(line as usize), None, m),
            Ok(s) => match mesh_fault(s.vertices, s.triangles) {
                Some(fault) => r matches Err(e) && e.says("obj"@, fault_line(lines(text@), fault), None, fault.text()),
                None => r matches Ok(m) && m.points() == s.vertices && m.faces() == s.triangles
                    && m.origin().source_format@ == "obj"@ && m.origin().source_unit == unit
                    && m.origin().polygons_triangulated == s.polygons && m.origin().non_convex_polygons == s.non_convex
                    && m.origin().ignored_records == s.ignored,
            },
        },
{
    let chars: Vec<char> = characters(text);
    let all: Vec<Vec<char>> = split_lines(chars.as_slice());
    let ghost l = lines(text@);
    let mut reader: Loading = Loading {
        vertices: Vec::new(),
        triangles: Vec::new(),
        ignored: 0,
        polygons: 0,
        non_convex: 0,
    };
    proof {
        assert(reader.state() =~= blank());
    }
    let mut i: usize = 0;
    while i < all.len()
        invariant
            i <= all@.len() <= u32::MAX,
            l == texts(all@),
            l == lines(text@),
            reader.within(i as int),
            obj_contents(text@, unit) == read_from(reader.state(), l, i as int, unit),
        decreases all@.len() - i,
    {
        let w: Vec<Vec<char>> = split_words(all[i].as_slice());
        proof {
            assert(texts(all@)[i as int] == all@[i as int]@);
            if w@.len() > 0 {
                lemma_words_not_empty(all@[i as int]@, 0);
                assert(texts(w@)[0] == w@[0]@);
            }
        }
        match reader.line(&w, unit, Ghost(i as int)) {
            Ok(_) => {},
            Err(message) => {
                return Err(ParseError { format: "obj", line: Some(i + 1), offset: None, message });
            },
        }
        i = i + 1;
    }
    let meta: MeshMeta = MeshMeta {
        source_format: String::from_str("obj"),
        source_unit: unit,
        polygons_triangulated: reader.polygons,
        non_convex_polygons: reader.non_convex,
        ignored_records: reader.ignored,
    };
    match TriMesh::new(reader.vertices, reader.triangles, meta) {
        Ok(m) => Ok(m),
        Err(e) => {
            let line: Option<usize> = match e.vertex() {
                Some(v) => find_vertex(&all, v),
                None => None,
            };
            let message: String = e.message();
            Err(ParseError { format: "obj", line, offset: None, message })
        },
    }
}

/// The first line and those of the first `n` vertices.
pub open spec fn vertex_lines(t: Seq<Seq<char>>, n: nat) -> Seq<Seq<char>>
    decreases n,
{
    if n == 0 {
        seq!["# written by chipbreaker; coordinates are millimetres"@]
    } else {
        vertex_lines(t, (n - 1) as nat).push(number_line("v"@, t, 3 * (n - 1)))
    }
}

/// The line of a triangle: its corners, counted from one.
pub open spec fn face_line(f: [u32; 3]) -> Seq<char> {
    "f"@ + (spaced(decimal_text((f[0] + 1) as nat)) + spaced(decimal_text((f[1] + 1) as nat)) + spaced(
        decimal_text((f[2] + 1) as nat),
    ))
}

/// The lines of all vertices and of the first `n` triangles.
pub open spec fn obj_lines(t: Seq<Seq<char>>, vertices: nat, triangles: Seq<[u32; 3]>, n: nat) -> Seq<Seq<char>>
    decreases n,
{
    if n == 0 {
        vertex_lines(t, vertices)
    } else {
        obj_lines(t, vertices, triangles, (n - 1) as nat).push(face_line(triangles[n - 1]))
    }
}

/// The numbers that an OBJ of the mesh shows, in order: three to each vertex.
pub fn obj_numbers(mesh: &TriMesh) -> (r: Vec<Double>)
    ensures
        r@ == Seq::new(3 * mesh.points().len(), |k: int| mesh.points()[k / 3].at(k % 3)),
{
    let v: &[Vec3] = mesh.vertices();
    let mut out: Vec<Double> = Vec::new();
    let mut i: usize = 0;
    while i < v.len()
        invariant
            i <= v@.len(),
            v@ == mesh.points(),
            out@.len() == 3 * i,
            forall|k: int| 0 <= k < 3 * i ==> #[trigger] out@[k] == mesh.points()[k / 3].at(k % 3),
        decreases v@.len() - i,
    {
        out.push(v[i].x);
        out.push(v[i].y);
        out.push(v[i].z);
        i = i + 1;
    }
    proof {
        assert(out@ =~= Seq::new(3 * mesh.points().len(), |k: int| mesh.points()[k / 3].at(k % 3)));
    }
    out
}

/// Writes an OBJ in millimetres, given the texts of its numbers.
///
/// The numbers are those of [`obj_numbers`]. Corners are written counted from
/// one.
pub fn write(mesh: &TriMesh, numbers: &[String]) -> (r: String)
    requires
        numbers@.len() == 3 * mesh.points().len(),
    ensures
        r@ == joined(obj_lines(spelled(numbers@), mesh.points().len(), mesh.faces(), mesh.faces().len())),
{
    let ghost t = spelled(numbers@);
    let total: usize = numbers.len();
    let count: u32 = mesh.vertex_count();
    let mut out: String = String::new();
    let ghost none = Seq::<Seq<char>>::empty();
    push_line(&mut out, "# written by chipbreaker; coordinates are millimetres", Ghost(none));
    proof {
        assert(none.push("# written by chipbreaker; coordinates are millimetres"@) =~= vertex_lines(t, 0));
    }
    let mut i: u32 = 0;
    while i < count
        invariant
            i <= count,
            count == mesh.points().len(),
            t == spelled(numbers@),
            numbers@.len() == 3 * count,
            numbers@.len() == total,
            out@ == joined(vertex_lines(t, i as nat)),
        decreases count - i,
    {
        assert(3 * i + 3 <= total);
        push_number_line(&mut out, "v", numbers, 3 * (i as usize), Ghost(vertex_lines(t, i as nat)));
        i = i + 1;
    }
    let faces: &[[u32; 3]] = mesh.triangles();
    let mut j: usize = 0;
    while j < faces.len()
        invariant
            j <= faces@.len(),
            faces@ == mesh.faces(),
            out@ == joined(obj_lines(t, mesh.points().len(), mesh.faces(), j as nat)),
        decreases faces@.len() - j,
    {
        let f: [u32; 3] = faces[j];
        proof {
            use_type_invariant(mesh);
            assert(f == mesh.faces()[j as int]);
        }
        push_face(&mut out, f, Ghost(obj_lines(t, mesh.points().len(), mesh.faces(), j as nat)));
        j = j + 1;
    }
    out
}

fn push_face(out: &mut String, f: [u32; 3], Ghost(ls): Ghost<Seq<Seq<char>>>)
    requires
        old(out)@ == joined(ls),
        f[0] < u32::MAX && f[1] < u32::MAX && f[2] < u32::MAX,
    ensures
        final(out)@ == joined(ls.push(face_line(f))),
{
    let ghost was = out@;
    out.append("f");
    out.push(' ');
    push_number(out, f[0] as u64 + 1);
    out.push(' ');
    push_number(out, f[1] as u64 + 1);
    out.push(' ');
    push_number(out, f[2] as u64 + 1);
    out.push('\n');
    proof {
        assert(ls.push(face_line(f)).drop_last() =~= ls);
        assert(out@ =~= was + face_line(f) + seq!['\n']);
    }
}

} // verus!
