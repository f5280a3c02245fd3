//! Exact triangle-triangle intersection, and the self-intersection check.
//!
//! Two triangles that do not lie in one plane intersect where some edge of one
//! crosses the other. For triangles of one plane a separating line is sought
//! among their edges. All of it is decided by exact predicates, and contact counts
//! as intersection.

use crate::math::{cross_product, normalized_vector, vector_difference, Aabb3, Vec2, Vec3};
use crate::mesh::bvh::laws::{law_query_stays_in_the_mesh, lemma_triangle_box};
use crate::mesh::bvh::tree::{in_index_order, scene_of, settled, tree_nodes, triangle_box};
use crate::mesh::bvh::{corner_array, reached, Bvh};
use crate::mesh::common::spread;
use crate::mesh::io::obj::{dominant, dominant_axis, flatten, flattened};
use crate::mesh::meeting::law_defects_are_reached;
use crate::mesh::validate::edges::lemma_pushed;
use crate::mesh::{corners_of, TriMesh};
use crate::predicates::{orient2d, orient2d_det, orient3d, orient3d_det, orientation_of, Orientation};
use crate::sorting::{lemma_same_values, same_values, sort_distinct, strictly_sorted, Ranked};
use vstd::prelude::*;

verus! {

/// No two of three signs are opposite; zeros are on the boundary.
pub open spec fn agreeing(a: Orientation, b: Orientation, c: Orientation) -> bool {
    let none = Orientation::Zero;
    &&& a == none || b == none || a == b
    &&& b == none || c == none || b == c
    &&& a == none || c == none || a == c
}

/// All three signs are equal and none is zero.
pub open spec fn all_one_side(a: Orientation, b: Orientation, c: Orientation) -> bool {
    a != Orientation::Zero && b == a && c == a
}

/// On which side of the plane of a triangle a point lies.
pub open spec fn side_of(t: [Vec3; 3], p: Vec3) -> Orientation {
    orientation_of(orient3d_det(t[0], t[1], t[2], p))
}

/// The segment crosses the plane of the triangle or touches it with one end, and
/// its line passes the triangle, boundary included.
pub open spec fn segment_meets(a: Vec3, b: Vec3, t: [Vec3; 3]) -> bool {
    &&& side_of(t, a) != side_of(t, b)
    &&& agreeing(
        orientation_of(orient3d_det(a, b, t[0], t[1])),
        orientation_of(orient3d_det(a, b, t[1], t[2])),
        orientation_of(orient3d_det(a, b, t[2], t[0])),
    )
}

/// All corners are finite.
pub open spec fn finite_triangle(t: [Vec3; 3]) -> bool {
    t[0].finite() && t[1].finite() && t[2].finite()
}

fn agree(a: Orientation, b: Orientation, c: Orientation) -> (r: bool)
    ensures
        r == agreeing(a, b, c),
{
    let none: Orientation = Orientation::Zero;
    (a == none || b == none || a == b) && (b == none || c == none || b == c) && (a == none || c == none || a == c)
}

fn segment_meets_triangle(a: Vec3, b: Vec3, tri: [Vec3; 3]) -> (r: bool)
    requires
        a.finite(),
        b.finite(),
        finite_triangle(tri),
    ensures
        r == segment_meets(a, b, tri),
{
    let sa: Orientation = orient3d(tri[0], tri[1], tri[2], a);
    let sb: Orientation = orient3d(tri[0], tri[1], tri[2], b);
    if sa == sb {
        return false;
    }
    agree(orient3d(a, b, tri[0], tri[1]), orient3d(a, b, tri[1], tri[2]), orient3d(a, b, tri[2], tri[0]))
}

/// A triangle of the plane, turned counter-clockwise.
pub struct Flat {
    /// The first corner.
    pub a: Vec2,
    /// The second.
    pub b: Vec2,
    /// The third.
    pub c: Vec2,
}

/// A triangle flattened across an axis, turned counter-clockwise.
pub open spec fn flat_triangle(t: [Vec3; 3], axis: int) -> Flat {
    let (a, b, c) = (flattened(t[0], axis), flattened(t[1], axis), flattened(t[2], axis));
    if orient2d_det(a, b, c) < 0 {
        Flat { a, b: c, c: b }
    } else {
        Flat { a, b, c }
    }
}

/// A triangle lies strictly to the right of the line from `p` to `q`.
pub open spec fn right_of(p: Vec2, q: Vec2, t: Flat) -> bool {
    orient2d_det(p, q, t.a) < 0 && orient2d_det(p, q, t.b) < 0 && orient2d_det(p, q, t.c) < 0
}

/// An edge of the first triangle separates it from the second.
pub open spec fn separated_by(s: Flat, t: Flat) -> bool {
    right_of(s.a, s.b, t) || right_of(s.b, s.c, t) || right_of(s.c, s.a, t)
}

/// The axis that two triangles of one plane are flattened across: the one that
/// the normal of the first is most aligned with.
pub open spec fn flattening_axis(t: [Vec3; 3]) -> int {
    let n = cross_product(vector_difference(t[1], t[0]), vector_difference(t[2], t[0]));
    dominant(Vec3 { x: n.x.absolute(), y: n.y.absolute(), z: n.z.absolute() })
}

/// Two triangles of one plane overlap: no edge of either separates them.
#[verifier::opaque]
pub open spec fn overlapping(t1: [Vec3; 3], t2: [Vec3; 3]) -> bool {
    let axis = flattening_axis(t1);
    let (a, b) = (flat_triangle(t1, axis), flat_triangle(t2, axis));
    !separated_by(a, b) && !separated_by(b, a)
}

impl Flat {
    /// All corners are finite.
    pub open spec fn finite(self) -> bool {
        self.a.finite() && self.b.finite() && self.c.finite()
    }
}

fn flatten_triangle(t: [Vec3; 3], axis: usize) -> (r: Flat)
    requires
        finite_triangle(t),
    ensures
        r == flat_triangle(t, axis as int),
        r.finite(),
{
    let a: Vec2 = flatten(t[0], axis);
    let b: Vec2 = flatten(t[1], axis);
    let c: Vec2 = flatten(t[2], axis);
    if orient2d(a, b, c) == Orientation::Negative {
        Flat { a, b: c, c: b }
    } else {
        Flat { a, b, c }
    }
}

fn is_right_of(p: Vec2, q: Vec2, t: &Flat) -> (r: bool)
    requires
        p.finite(),
        q.finite(),
        t.finite(),
    ensures
        r == right_of(p, q, *t),
{
    orient2d(p, q, t.a) == Orientation::Negative && orient2d(p, q, t.b) == Orientation::Negative && orient2d(p, q, t.c)
        == Orientation::Negative
}

fn separates(s: &Flat, t: &Flat) -> (r: bool)
    requires
        s.finite(),
        t.finite(),
    ensures
        r == separated_by(*s, *t),
{
    is_right_of(s.a, s.b, t) || is_right_of(s.b, s.c, t) || is_right_of(s.c, s.a, t)
}

fn coplanar_overlap(t1: [Vec3; 3], t2: [Vec3; 3]) -> (r: bool)
    requires
        finite_triangle(t1),
        finite_triangle(t2),
    ensures
        r == overlapping(t1, t2),
{
    proof {
        reveal(overlapping);
    }
    let n: Vec3 = t1[1].minus(t1[0]).cross(t1[2].minus(t1[0])).abs();
    let axis: usize = dominant_axis(n);
    let a: Flat = flatten_triangle(t1, axis);
    let b: Flat = flatten_triangle(t2, axis);
    !separates(&a, &b) && !separates(&b, &a)
}

/// All corners of the first triangle lie in the plane of the second.
pub open spec fn in_plane_of(t: [Vec3; 3], plane: [Vec3; 3]) -> bool {
    side_of(plane, t[0]) == Orientation::Zero && side_of(plane, t[1]) == Orientation::Zero && side_of(plane, t[2])
        == Orientation::Zero
}

/// The first triangle lies strictly on one side of the plane of the second.
pub open spec fn off_plane_of(t: [Vec3; 3], plane: [Vec3; 3]) -> bool {
    all_one_side(side_of(plane, t[0]), side_of(plane, t[1]), side_of(plane, t[2]))
}

/// Some edge of the first triangle meets the second.
pub open spec fn edge_meets(t: [Vec3; 3], other: [Vec3; 3]) -> bool {
    segment_meets(t[0], t[1], other) || segment_meets(t[1], t[2], other) || segment_meets(t[2], t[0], other)
}

/// Two triangles intersect, contact included: neither lies off the plane of the
/// other, and they overlap in one plane or an edge of one meets the other.
pub open spec fn intersecting(t1: [Vec3; 3], t2: [Vec3; 3]) -> bool {
    &&& !off_plane_of(t1, t2)
    &&& !off_plane_of(t2, t1)
    &&& if in_plane_of(t1, t2) && in_plane_of(t2, t1) {
        overlapping(t1, t2)
    } else {
        edge_meets(t1, t2) || edge_meets(t2, t1)
    }
}

/// The test does not depend on which triangle comes first: not where they lie in
/// different planes, nor in one plane where both are flattened across one axis.
pub proof fn law_intersection_is_symmetric(t1: [Vec3; 3], t2: [Vec3; 3])
    requires
        in_plane_of(t1, t2) && in_plane_of(t2, t1) ==> flattening_axis(t1) == flattening_axis(t2),
    ensures
        intersecting(t1, t2) == intersecting(t2, t1),
{
    reveal(overlapping);
}

/// True if two triangles intersect; contact counts.
///
/// Pairs that share a vertex are for the caller to leave out.
pub fn triangles_intersect(t1: [Vec3; 3], t2: [Vec3; 3]) -> (r: bool)
    requires
        finite_triangle(t1),
        finite_triangle(t2),
    ensures
        r == intersecting(t1, t2),
{
    let a0: Orientation = orient3d(t2[0], t2[1], t2[2], t1[0]);
    let a1: Orientation = orient3d(t2[0], t2[1], t2[2], t1[1]);
    let a2: Orientation = orient3d(t2[0], t2[1], t2[2], t1[2]);
    if a0 != Orientation::Zero && a1 == a0 && a2 == a0 {
        return false;
    }
    let b0: Orientation = orient3d(t1[0], t1[1], t1[2], t2[0]);
    let b1: Orientation = orient3d(t1[0], t1[1], t1[2], t2[1]);
    let b2: Orientation = orient3d(t1[0], t1[1], t1[2], t2[2]);
    if b0 != Orientation::Zero && b1 == b0 && b2 == b0 {
        return false;
    }
    let none: Orientation = Orientation::Zero;
    if a0 == none && a1 == none && a2 == none && b0 == none && b1 == none && b2 == none {
        return coplanar_overlap(t1, t2);
    }
    segment_meets_triangle(t1[0], t1[1], t2) || segment_meets_triangle(t1[1], t1[2], t2) || segment_meets_triangle(
        t1[2],
        t1[0],
        t2,
    ) || segment_meets_triangle(t2[0], t2[1], t1) || segment_meets_triangle(t2[1], t2[2], t1)
        || segment_meets_triangle(t2[2], t2[0], t1)
}

/// The triangle repeats a vertex or has no computed normal.
pub open spec fn without_area(points: Seq<Vec3>, t: [u32; 3]) -> bool {
    let (a, b, c) = corners_of(points, t);
    t[0] == t[1] || t[1] == t[2] || t[2] == t[0] || normalized_vector(
        cross_product(vector_difference(b, a), vector_difference(c, a)),
    ) is None
}

/// The triangles have a vertex in common.
pub open spec fn touching(s: [u32; 3], t: [u32; 3]) -> bool {
    exists|i: int, j: int| 0 <= i < 3 && 0 <= j < 3 && #[trigger] s[i] == #[trigger] t[j]
}

fn share_vertex(s: [u32; 3], t: [u32; 3]) -> (r: bool)
    ensures
        r == touching(s, t),
{
    let r: bool = s[0] == t[0] || s[0] == t[1] || s[0] == t[2] || s[1] == t[0] || s[1] == t[1] || s[1] == t[2] || s[2]
        == t[0] || s[2] == t[1] || s[2] == t[2];
    proof {
        if touching(s, t) {
            let (i, j) = choose|i: int, j: int| 0 <= i < 3 && 0 <= j < 3 && #[trigger] s[i] == #[trigger] t[j];
            assert(i == 0 || i == 1 || i == 2);
            assert(j == 0 || j == 1 || j == 2);
        }
    }
    r
}

/// Triangles `i` and `j`, in this order, are a defect: both have an area, they share
/// no vertex, and they intersect.
pub open spec fn defect(points: Seq<Vec3>, faces: Seq<[u32; 3]>, i: u32, j: u32) -> bool {
    let s = faces[i as int];
    let t = faces[j as int];
    &&& i < j < faces.len()
    &&& !without_area(points, s)
    &&& !without_area(points, t)
    &&& !touching(s, t)
    &&& intersecting(corner_array(points, s), corner_array(points, t))
}

/// Two triangles of one plane, one of them so thin that its normal is zero where it
/// was computed to be greatest. The test of such a pair means nothing.
pub open spec fn slivers(s: [Vec3; 3], t: [Vec3; 3]) -> bool {
    in_plane_of(s, t) && in_plane_of(t, s) && !(spread(s) && spread(t))
}

/// Triangles `i` and `j` are a defect that is found. Every defect is but for one of
/// slivers in one plane, which is found where the hierarchy brings them together.
#[verifier::opaque]
pub open spec fn clashing(points: Seq<Vec3>, faces: Seq<[u32; 3]>, i: u32, j: u32) -> bool {
    let scene = scene_of(points, faces);
    let nodes = tree_nodes(scene, faces.len());
    let order = settled(scene, in_index_order(faces.len()));
    &&& defect(points, faces, i, j)
    &&& slivers(corner_array(points, faces[i as int]), corner_array(points, faces[j as int])) ==> reached(
        nodes,
        order,
        triangle_box(corners_of(points, faces[i as int])),
        0,
    ).contains(j)
}

/// Which triangles have no area.
fn mark_without_area(mesh: &TriMesh) -> (r: Vec<bool>)
    ensures
        r@.len() == mesh.faces().len(),
        forall|i: int| 0 <= i < r@.len() ==> #[trigger] r@[i] == without_area(mesh.points(), mesh.faces()[i]),
{
    let n: u32 = mesh.triangle_count();
    let mut r: Vec<bool> = Vec::new();
    let mut i: u32 = 0;
    while i < n
        invariant
            i <= n,
            n == mesh.faces().len(),
            r@.len() == i,
            forall|k: int| 0 <= k < i ==> #[trigger] r@[k] == without_area(mesh.points(), mesh.faces()[k]),
        decreases n - i,
    {
        let t: [u32; 3] = mesh.triangles()[i as usize];
        let none: bool = t[0] == t[1] || t[1] == t[2] || t[2] == t[0] || mesh.face_normal(i).is_none();
        r.push(none);
        i = i + 1;
    }
    r
}

/// Two triangles.
#[derive(Clone, Copy, Debug, PartialEq, Eq, Structural)]
pub struct Pair {
    /// The one with the lower index.
    pub first: u32,
    /// The other.
    pub second: u32,
}

impl Ranked for Pair {
    open spec fn at_most(self, other: Self) -> bool {
        self.first < other.first || (self.first == other.first && self.second <= other.second)
    }

    proof fn total(self, other: Self) {
    }

    proof fn transitive(self, mid: Self, other: Self) {
    }

    proof fn antisymmetric(self, other: Self) {
    }

    fn is_at_most(self, other: Self) -> (r: bool) {
        self.first < other.first || (self.first == other.first && self.second <= other.second)
    }
}

/// Adds the partners of one triangle.
fn collect_partners(mesh: &TriMesh, bvh: &Bvh, flat: &Vec<bool>, i: u32, pairs: &mut Vec<Pair>)
    requires
        bvh.covers(mesh.points(), mesh.faces()),
        i < mesh.faces().len(),
        flat@.len() == mesh.faces().len(),
        forall|k: int| 0 <= k < flat@.len() ==> #[trigger] flat@[k] == without_area(mesh.points(), mesh.faces()[k]),
    ensures
        forall|x: Pair| #[trigger]
            final(pairs)@.contains(x) <==> old(pairs)@.contains(x) || (x.first == i && clashing(
                mesh.points(),
                mesh.faces(),
                i,
                x.second,
            )),
{
    proof {
        reveal(clashing);
        use_type_invariant(mesh);
    }
    if flat[i as usize] {
        return;
    }
    let tri: [Vec3; 3] = mesh.triangle(i);
    let corners: Vec<Vec3> = vec![tri[0], tri[1], tri[2]];
    let query: Aabb3 = Aabb3::from_points(corners.as_slice());
    let ghost points = mesh.points();
    let ghost faces = mesh.faces();
    let ghost all = reached(bvh.node_list(), bvh.triangle_order(), query, 0);
    let mut found: Vec<u32> = Vec::new();
    bvh.query_aabb(&query, &mut found);
    let idx: [u32; 3] = mesh.triangles()[i as usize];
    proof {
        assert(corners@ =~= seq![tri[0], tri[1], tri[2]]);
        assert(query == triangle_box(corners_of(points, idx)));
        lemma_triangle_box(corners_of(points, idx));
        assert(query.min.at(0).key() <= query.max.at(0).key());
        assert(query.min.at(1).key() <= query.max.at(1).key());
        assert(query.min.at(2).key() <= query.max.at(2).key());
        assert(!query.empty());
        lemma_same_values(found@, all);
        assert(tri =~= corner_array(points, idx));
    }
    let mut k: usize = 0;
    while k < found.len()
        invariant
            k <= found@.len(),
            bvh.covers(mesh.points(), mesh.faces()),
            points == mesh.points(),
            faces == mesh.faces(),
            flat@.len() == faces.len(),
            i < faces.len(),
            forall|m: int| 0 <= m < flat@.len() ==> #[trigger] flat@[m] == without_area(points, faces[m]),
            !without_area(points, faces[i as int]),
            all == reached(bvh.node_list(), bvh.triangle_order(), query, 0),
            same_values(found@, all),
            query == triangle_box(corners_of(points, idx)),
            idx == faces[i as int],
            tri == corner_array(points, idx),
            finite_triangle(tri),
            forall|x: Pair| #[trigger]
                pairs@.contains(x) <==> old(pairs)@.contains(x) || (x.first == i && clashing(points, faces, i, x.second)
                    && found@.take(k as int).contains(x.second)),
        decreases found@.len() - k,
    {
        let j: u32 = found[k];
        let ghost was = pairs@;
        let ghost seen = found@.take(k as int);
        proof {
            assert(found@.contains(j));
            assert(all.contains(j));
            law_query_stays_in_the_mesh(*bvh, points, faces, query, j);
            assert(found@.take(k + 1) =~= seen.push(j));
            reveal(clashing);
        }
        let mut add: bool = false;
        if j > i && !flat[j as usize] {
            let other: [u32; 3] = mesh.triangles()[j as usize];
            let t: [Vec3; 3] = mesh.triangle(j);
            proof {
                assert(t =~= corner_array(points, other));
            }
            if !share_vertex(idx, other) && triangles_intersect(tri, t) {
                add = true;
            }
        }
        assert(add == clashing(points, faces, i, j));
        if add {
            pairs.push(Pair { first: i, second: j });
        }
        k = k + 1;
        proof {
            assert forall|x: Pair| #[trigger]
                pairs@.contains(x) <==> old(pairs)@.contains(x) || (x.first == i && clashing(points, faces, i, x.second)
                    && found@.take(k as int).contains(x.second)) by {
                lemma_pushed(was, Pair { first: i, second: j }, x);
                lemma_pushed(seen, j, x.second);
                assert(was.contains(x) <==> old(pairs)@.contains(x) || (x.first == i && clashing(points, faces, i, x.second)
                    && seen.contains(x.second)));
            }
        }
    }
    proof {
        assert(found@.take(k as int) =~= found@);
        assert forall|x: Pair| #[trigger]
            pairs@.contains(x) <==> old(pairs)@.contains(x) || (x.first == i && clashing(points, faces, i, x.second)) by {
            if clashing(points, faces, i, x.second) {
                reveal(clashing);
                if !slivers(corner_array(points, faces[i as int]), corner_array(points, faces[x.second as int])) {
                    law_defects_are_reached(*bvh, points, faces, i, x.second);
                }
                assert(all.contains(x.second));
                assert(found@.contains(x.second));
            }
        }
    }
}

/// Every pair of triangles that intersect without a common vertex, ascending.
///
/// Triangles without area have no interior to intersect and are left out.
pub fn self_intersections(mesh: &TriMesh, bvh: &Bvh) -> (r: Vec<Pair>)
    requires
        bvh.covers(mesh.points(), mesh.faces()),
    ensures
        strictly_sorted(r@),
        forall|x: Pair| #[trigger]
            r@.contains(x) <==> clashing(mesh.points(), mesh.faces(), x.first, x.second),
{
    let flat: Vec<bool> = mark_without_area(mesh);
    let n: u32 = mesh.triangle_count();
    let mut pairs: Vec<Pair> = Vec::new();
    let mut i: u32 = 0;
    while i < n
        invariant
            i <= n,
            n == mesh.faces().len(),
            bvh.covers(mesh.points(), mesh.faces()),
            flat@.len() == n,
            forall|k: int| 0 <= k < flat@.len() ==> #[trigger] flat@[k] == without_area(mesh.points(), mesh.faces()[k]),
            forall|x: Pair| #[trigger]
                pairs@.contains(x) <==> x.first < i && clashing(mesh.points(), mesh.faces(), x.first, x.second),
        decreases n - i,
    {
        let ghost was = pairs@;
        collect_partners(mesh, bvh, &flat, i, &mut pairs);
        i = i + 1;
        proof {
            assert forall|x: Pair| #[trigger]
                pairs@.contains(x) <==> x.first < i && clashing(mesh.points(), mesh.faces(), x.first, x.second) by {
                assert(was.contains(x) <==> x.first < i - 1 && clashing(mesh.points(), mesh.faces(), x.first, x.second));
            }
        }
    }
    let r: Vec<Pair> = sort_distinct(&pairs);
    proof {
        assert forall|x: Pair| #[trigger]
            r@.contains(x) <==> clashing(mesh.points(), mesh.faces(), x.first, x.second) by {
            assert(r@.contains(x) <==> pairs@.contains(x));
            reveal(clashing);
        }
    }
    r
}

} // verus!
