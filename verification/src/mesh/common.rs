//! What it means that two triangles intersect: that they have a point in common.
//!
//! A point of a triangle is given by weights of its corners, whole numbers none of
//! which is negative. All coordinates are doubles, so that every point in question
//! has such weights.

use crate::math::{Vec2, Vec3};
use crate::mesh::bvh::displaced::{lemma_edge_determinant, offset, volume};
use crate::mesh::flat::{
    area, beyond, law_plane_triangles_meet, lemma_area_turns, lemma_meeting_turns, meeting, parted_by, same_spot, span, Spot, Trio,
    Weights,
};
use crate::mesh::intersect::{
    edge_meets, flat_triangle, flattening_axis, in_plane_of, intersecting, off_plane_of, overlapping, right_of, segment_meets,
    separated_by, side_of, Flat,
};
use crate::mesh::io::obj::flattened;
use crate::mesh::meeting::{lemma_cramer, lemma_from_other_end};
use crate::mesh::six::{lemma_some_edge_meets, lemma_volume_by_coordinates, lemma_weighed, minors, weighed};
use crate::predicates::{law_orient3d_is_antisymmetric, orient2d_det, orient3d_det, Orientation};
use vstd::arithmetic::mul::*;
use vstd::prelude::*;

verus! {

/// The weighted sum of the coordinates of the corners along an axis.
pub open spec fn placed(t: [Vec3; 3], w: Weights, k: int) -> int {
    w.over(t[0].at(k).value(), t[1].at(k).value(), t[2].at(k).value())
}

/// The weights give the same point of both triangles.
pub open spec fn common_point(s: [Vec3; 3], t: [Vec3; 3], l: Weights, m: Weights) -> bool {
    &&& l.proper()
    &&& m.proper()
    &&& l.total() == m.total()
    &&& placed(s, l, 0) == placed(t, m, 0)
    &&& placed(s, l, 1) == placed(t, m, 1)
    &&& placed(s, l, 2) == placed(t, m, 2)
}

/// The triangles have a point in common, boundaries included.
pub open spec fn sharing(s: [Vec3; 3], t: [Vec3; 3]) -> bool {
    exists|l: Weights, m: Weights| #[trigger] common_point(s, t, l, m)
}

/// A triangle with its corners turned round.
pub open spec fn rolled(t: [Vec3; 3]) -> [Vec3; 3] {
    [t[1], t[2], t[0]]
}

/// Having a point in common depends neither on which triangle comes first nor on
/// with which corner one begins.
pub proof fn law_sharing_is_symmetric(s: [Vec3; 3], t: [Vec3; 3])
    ensures
        sharing(s, t) == sharing(t, s),
        sharing(s, t) ==> sharing(rolled(s), t),
{
    if sharing(s, t) {
        let (l, m) = choose|l: Weights, m: Weights| #[trigger] common_point(s, t, l, m);
        assert(common_point(t, s, m, l));
        assert(common_point(rolled(s), t, Weights { a: l.b, b: l.c, c: l.a }, m));
    }
    if sharing(t, s) {
        let (l, m) = choose|l: Weights, m: Weights| #[trigger] common_point(t, s, l, m);
        assert(common_point(s, t, m, l));
    }
}

/// The point where a segment meets a triangle, along one axis.
proof fn lemma_meeting_place(v: int, e: int, f: int, g: int, a: int, b: int, x: int, y: int, z: int)
    requires
        v * (b - a) == e * (x - a) + f * (y - a) + g * (z - a),
    ensures
        (e + f + g - v) * a + v * b == e * x + f * y + g * z,
        (v - (e + f + g)) * a + (-v) * b == (-e) * x + (-f) * y + (-g) * z,
{
    assert(v * (b - a) == v * b - v * a) by (nonlinear_arith);
    assert(e * (x - a) == e * x - e * a) by (nonlinear_arith);
    assert(f * (y - a) == f * y - f * a) by (nonlinear_arith);
    assert(g * (z - a) == g * z - g * a) by (nonlinear_arith);
    let w = e + f + g;
    assert((w - v) * a == e * a + f * a + g * a - v * a) by (nonlinear_arith)
        requires
            w == e + f + g,
    ;
    assert((v - w) * a == -((w - v) * a)) by (nonlinear_arith);
    assert((-v) * b == -(v * b)) by (nonlinear_arith);
    assert((-e) * x == -(e * x)) by (nonlinear_arith);
    assert((-f) * y == -(f * y)) by (nonlinear_arith);
    assert((-g) * z == -(g * z)) by (nonlinear_arith);
}

/// A segment that meets a triangle has a point in common with it.
proof fn lemma_segment_shares(s: [Vec3; 3], t: [Vec3; 3])
    requires
        segment_meets(s[0], s[1], t),
    ensures
        sharing(s, t),
{
    let (a, b) = (s[0], s[1]);
    let d = offset(b, a);
    let (x, y, z) = (offset(t[0], a), offset(t[1], a), offset(t[2], a));
    let v = volume(x, y, z);
    let (e, f, g) = (volume(d, y, z), volume(d, z, x), volume(d, x, y));
    lemma_edge_determinant(a, b, t[0], t[1]);
    lemma_edge_determinant(a, b, t[1], t[2]);
    lemma_edge_determinant(a, b, t[2], t[0]);
    lemma_from_other_end(d, x, y, z, offset(t[0], b), offset(t[1], b), offset(t[2], b));
    assert(orient3d_det(t[0], t[1], t[2], a) == v) by {
        reveal(volume);
    }
    assert(orient3d_det(t[0], t[1], t[2], b) == v - e - f - g) by {
        reveal(volume);
    }
    let w = e + f + g;
    assert((e >= 0 && f >= 0 && g >= 0) || (e <= 0 && f <= 0 && g <= 0));
    assert((0 <= v <= w && w > 0) || (w <= v <= 0 && w < 0));
    let (l, m) = if w > 0 {
        (Weights { a: w - v, b: v, c: 0 }, Weights { a: e, b: f, c: g })
    } else {
        (Weights { a: v - w, b: -v, c: 0 }, Weights { a: -e, b: -f, c: -g })
    };
    assert forall|k: int| 0 <= k < 3 implies placed(s, l, k) == placed(t, m, k) by {
        lemma_cramer(d, x, y, z, k);
        lemma_meeting_place(
            v,
            e,
            f,
            g,
            a.at(k).value(),
            b.at(k).value(),
            t[0].at(k).value(),
            t[1].at(k).value(),
            t[2].at(k).value(),
        );
        assert(0 * s[2].at(k).value() == 0);
    }
    assert(placed(s, l, 0) == placed(t, m, 0));
    assert(placed(s, l, 1) == placed(t, m, 1));
    assert(placed(s, l, 2) == placed(t, m, 2));
    assert(common_point(s, t, l, m));
}

/// A triangle one of whose edges meets another has a point in common with it.
pub(crate) proof fn lemma_edge_shares(s: [Vec3; 3], t: [Vec3; 3])
    requires
        edge_meets(s, t),
    ensures
        sharing(s, t),
{
    let s1 = rolled(s);
    let s2 = rolled(s1);
    assert(rolled(s2) =~= s);
    if segment_meets(s[0], s[1], t) {
        lemma_segment_shares(s, t);
    } else if segment_meets(s[1], s[2], t) {
        lemma_segment_shares(s1, t);
        law_sharing_is_symmetric(s1, t);
        law_sharing_is_symmetric(s2, t);
    } else {
        lemma_segment_shares(s2, t);
        law_sharing_is_symmetric(s2, t);
    }
}

/// Twice the area of a triangle, as it is seen along an axis.
pub open spec fn shadow(t: [Vec3; 3], axis: int) -> int {
    orient2d_det(flattened(t[0], axis), flattened(t[1], axis), flattened(t[2], axis))
}

/// The normal of a triangle is not zero in the component in which it was computed to
/// be greatest.
pub open spec fn spread(t: [Vec3; 3]) -> bool {
    shadow(t, flattening_axis(t)) != 0
}

/// The exact normal of a triangle, by components.
spec fn normal(t: [Vec3; 3]) -> (int, int, int) {
    let n = minors(t[0], t[1], t[2]);
    (n.0, -n.1, n.2)
}

proof fn lemma_shadow_is_normal(t: [Vec3; 3])
    ensures
        shadow(t, 0) == normal(t).0,
        shadow(t, 1) == normal(t).1,
        shadow(t, 2) == normal(t).2,
{
    let (u, v) = (offset(t[1], t[0]), offset(t[2], t[0]));
    lemma_shadow(t, 0);
    lemma_shadow(t, 1);
    lemma_shadow(t, 2);
    lemma_mul_is_commutative(u.z, v.x);
    lemma_mul_is_commutative(u.x, v.z);
}

/// A point of the plane, by its coordinates.
spec fn spot(v: Vec2) -> Spot {
    Spot { x: v.x.value(), y: v.y.value() }
}

proof fn lemma_area(p: Vec2, q: Vec2, r: Vec2)
    ensures
        orient2d_det(p, q, r) == area(spot(p), spot(q), spot(r)),
{
    reveal(area);
}

proof fn lemma_shadow(t: [Vec3; 3], axis: int)
    ensures
        shadow(t, axis) == span(
            spot(flattened(t[0], axis)),
            spot(flattened(t[1], axis)),
            spot(flattened(t[2], axis)),
        ),
{
    let (p, q, r) = (flattened(t[0], axis), flattened(t[1], axis), flattened(t[2], axis));
    lemma_area(p, q, r);
    lemma_area_turns(spot(p), spot(q), spot(r));
}

/// The product of a normal with the way between two points.
spec fn along(n: (int, int, int), p: Vec3, q: Vec3) -> int {
    n.0 * (q.x.value() - p.x.value()) + n.1 * (q.y.value() - p.y.value()) + n.2 * (q.z.value() - p.z.value())
}

proof fn lemma_side(t: [Vec3; 3], p: Vec3)
    ensures
        orient3d_det(t[0], t[1], t[2], p) == -along(normal(t), t[0], p),
{
    let n = lemma_volume_by_coordinates(t[0], t[1], t[2], p);
    let (x, y, z) = (
        p.x.value() - t[0].x.value(),
        p.y.value() - t[0].y.value(),
        p.z.value() - t[0].z.value(),
    );
    lemma_mul_is_commutative(x, n.0);
    lemma_mul_is_commutative(y, n.1);
    lemma_mul_is_commutative(z, n.2);
    assert((-n.1) * y == -(n.1 * y)) by (nonlinear_arith);
}

proof fn lemma_along_sums(n: (int, int, int), p: Vec3, q: Vec3, r: Vec3)
    ensures
        along(n, p, r) == along(n, p, q) + along(n, q, r),
{
    lemma_way_sums(n.0, p.x.value(), q.x.value(), r.x.value());
    lemma_way_sums(n.1, p.y.value(), q.y.value(), r.y.value());
    lemma_way_sums(n.2, p.z.value(), q.z.value(), r.z.value());
}

proof fn lemma_way_sums(n: int, p: int, q: int, r: int)
    ensures
        n * (r - p) == n * (q - p) + n * (r - q),
{
    assert(n * (r - p) == n * (q - p) + n * (r - q)) by (nonlinear_arith);
}

/// One component of a product with a product.
proof fn lemma_double_product(n0: int, n1: int, n2: int, p0: int, p1: int, p2: int, q0: int, q1: int, q2: int)
    requires
        n0 * p0 + n1 * p1 + n2 * p2 == 0,
        n0 * q0 + n1 * q1 + n2 * q2 == 0,
    ensures
        n1 * (p0 * q1 - p1 * q0) == n2 * (p2 * q0 - p0 * q2),
{
    lemma_mul_is_distributive_sub(n1, p0 * q1, p1 * q0);
    lemma_mul_is_distributive_sub(n2, p2 * q0, p0 * q2);
    assert(p0 * (n0 * q0 + n1 * q1 + n2 * q2) == p0 * (n0 * q0) + p0 * (n1 * q1) + p0 * (n2 * q2)) by (nonlinear_arith);
    assert(q0 * (n0 * p0 + n1 * p1 + n2 * p2) == q0 * (n0 * p0) + q0 * (n1 * p1) + q0 * (n2 * p2)) by (nonlinear_arith);
    assert(p0 * (n0 * q0) == q0 * (n0 * p0)) by (nonlinear_arith);
    assert(p0 * (n1 * q1) == n1 * (p0 * q1)) by (nonlinear_arith);
    assert(p0 * (n2 * q2) == n2 * (p0 * q2)) by (nonlinear_arith);
    assert(q0 * (n1 * p1) == n1 * (p1 * q0)) by (nonlinear_arith);
    assert(q0 * (n2 * p2) == n2 * (p2 * q0)) by (nonlinear_arith);
    assert(p0 * 0 == 0 && q0 * 0 == 0);
}

/// The normals of triangles of one plane run along one line.
proof fn lemma_parallel_normals(s: [Vec3; 3], t: [Vec3; 3])
    requires
        in_plane_of(s, t),
    ensures
        normal(t).0 * normal(s).1 == normal(t).1 * normal(s).0,
        normal(t).1 * normal(s).2 == normal(t).2 * normal(s).1,
        normal(t).2 * normal(s).0 == normal(t).0 * normal(s).2,
{
    let n = normal(t);
    lemma_side(t, s[0]);
    lemma_side(t, s[1]);
    lemma_side(t, s[2]);
    lemma_along_sums(n, t[0], s[0], s[1]);
    lemma_along_sums(n, t[0], s[0], s[2]);
    let (p, q) = (offset(s[1], s[0]), offset(s[2], s[0]));
    assert(n.0 * p.x + n.1 * p.y + n.2 * p.z == 0);
    assert(n.0 * q.x + n.1 * q.y + n.2 * q.z == 0);
    lemma_double_product(n.0, n.1, n.2, p.x, p.y, p.z, q.x, q.y, q.z);
    lemma_double_product(n.1, n.2, n.0, p.y, p.z, p.x, q.y, q.z, q.x);
    lemma_double_product(n.2, n.0, n.1, p.z, p.x, p.y, q.z, q.x, q.y);
    lemma_mul_is_commutative(p.z, q.x);
    lemma_mul_is_commutative(p.x, q.z);
    let m = normal(s);
    assert(m.0 == p.y * q.z - p.z * q.y);
    assert(m.1 == p.z * q.x - p.x * q.z);
    assert(m.2 == p.x * q.y - p.y * q.x);
}

/// Some component is not zero.
spec fn solid(n: (int, int, int)) -> bool {
    n.0 != 0 || n.1 != 0 || n.2 != 0
}

/// Normals along one line, one of which is not zero in a component: neither is the
/// other there, and what is square to the one is square to the other.
proof fn lemma_one_line(n: (int, int, int), m: (int, int, int), x: int, y: int, z: int)
    requires
        n.0 * m.1 == n.1 * m.0,
        n.1 * m.2 == n.2 * m.1,
        n.2 * m.0 == n.0 * m.2,
        solid(n),
        solid(m),
    ensures
        n.0 != 0 <==> m.0 != 0,
        n.1 != 0 <==> m.1 != 0,
        n.2 != 0 <==> m.2 != 0,
        n.0 * x + n.1 * y + n.2 * z == 0 ==> m.0 * x + m.1 * y + m.2 * z == 0,
{
    lemma_zero_together(n.0, n.1, n.2, m.0, m.1, m.2);
    lemma_zero_together(n.1, n.2, n.0, m.1, m.2, m.0);
    lemma_zero_together(n.2, n.0, n.1, m.2, m.0, m.1);
    let d = m.0 * x + m.1 * y + m.2 * z;
    if n.0 * x + n.1 * y + n.2 * z == 0 {
        if n.0 != 0 {
            lemma_carried(n.0, n.1, n.2, m.0, m.1, m.2, x, y, z);
        } else if n.1 != 0 {
            lemma_carried(n.1, n.2, n.0, m.1, m.2, m.0, y, z, x);
        } else {
            lemma_carried(n.2, n.0, n.1, m.2, m.0, m.1, z, x, y);
        }
    }
}

proof fn lemma_zero_together(n0: int, n1: int, n2: int, m0: int, m1: int, m2: int)
    requires
        n0 * m1 == n1 * m0,
        n2 * m0 == n0 * m2,
        n0 != 0 || n1 != 0 || n2 != 0,
        m0 != 0 || m1 != 0 || m2 != 0,
    ensures
        n0 != 0 <==> m0 != 0,
{
    assert(n0 == 0 ==> n1 * m0 == 0 && n2 * m0 == 0) by (nonlinear_arith)
        requires
            n0 * m1 == n1 * m0,
            n2 * m0 == n0 * m2,
    ;
    assert(m0 == 0 ==> n0 * m1 == 0 && n0 * m2 == 0) by (nonlinear_arith)
        requires
            n0 * m1 == n1 * m0,
            n2 * m0 == n0 * m2,
    ;
    lemma_factor(n1, m0);
    lemma_factor(n2, m0);
    lemma_factor(n0, m1);
    lemma_factor(n0, m2);
}

proof fn lemma_factor(x: int, y: int)
    ensures
        x * y == 0 ==> x == 0 || y == 0,
{
    assert(x * y == 0 ==> x == 0 || y == 0) by (nonlinear_arith);
}

proof fn lemma_carried(n0: int, n1: int, n2: int, m0: int, m1: int, m2: int, x: int, y: int, z: int)
    requires
        n0 != 0,
        n0 * m1 == n1 * m0,
        n2 * m0 == n0 * m2,
        n0 * x + n1 * y + n2 * z == 0,
    ensures
        m0 * x + m1 * y + m2 * z == 0,
{
    let d = m0 * x + m1 * y + m2 * z;
    assert(n0 * d == n0 * (m0 * x) + n0 * (m1 * y) + n0 * (m2 * z)) by (nonlinear_arith)
        requires
            d == m0 * x + m1 * y + m2 * z,
    ;
    assert(n0 * (m0 * x) == m0 * (n0 * x)) by (nonlinear_arith);
    assert(n0 * (m1 * y) == m0 * (n1 * y)) by (nonlinear_arith)
        requires
            n0 * m1 == n1 * m0,
    ;
    assert(n0 * (m2 * z) == m0 * (n2 * z)) by (nonlinear_arith)
        requires
            n2 * m0 == n0 * m2,
    ;
    assert(m0 * (n0 * x) + m0 * (n1 * y) + m0 * (n2 * z) == m0 * (n0 * x + n1 * y + n2 * z)) by (nonlinear_arith);
    assert(m0 * 0 == 0);
    lemma_factor(n0, d);
}

/// A spread triangle has a normal.
proof fn lemma_spread_is_solid(t: [Vec3; 3])
    requires
        spread(t),
    ensures
        solid(normal(t)),
{
    lemma_shadow_is_normal(t);
}

/// If one spread triangle lies in the plane of another, so does the other in its.
proof fn lemma_one_plane(s: [Vec3; 3], t: [Vec3; 3])
    requires
        spread(s),
        spread(t),
        in_plane_of(s, t),
    ensures
        in_plane_of(t, s),
        shadow(s, flattening_axis(t)) != 0,
        shadow(t, flattening_axis(s)) != 0,
{
    let (n, m) = (normal(t), normal(s));
    lemma_spread_is_solid(s);
    lemma_spread_is_solid(t);
    lemma_parallel_normals(s, t);
    lemma_shadow_is_normal(s);
    lemma_shadow_is_normal(t);
    lemma_one_line(n, m, 0, 0, 0);
    lemma_side(t, s[0]);
    assert forall|j: int| 0 <= j < 3 implies side_of(s, #[trigger] t[j]) == Orientation::Zero by {
        let w = t[j];
        lemma_side(t, w);
        lemma_side(s, w);
        lemma_own_plane(t, j);
        lemma_along_sums(n, t[0], s[0], w);
        lemma_one_line(
            n,
            m,
            w.x.value() - s[0].x.value(),
            w.y.value() - s[0].y.value(),
            w.z.value() - s[0].z.value(),
        );
    }
    assert(side_of(s, t[0]) == Orientation::Zero && side_of(s, t[1]) == Orientation::Zero && side_of(s, t[2])
        == Orientation::Zero);
}

/// The corners of a triangle lie in its plane.
proof fn lemma_own_plane(t: [Vec3; 3], j: int)
    requires
        0 <= j < 3,
    ensures
        orient3d_det(t[0], t[1], t[2], t[j]) == 0,
{
    let (x, y, z) = (t[0], t[1], t[2]);
    law_orient3d_is_antisymmetric(x, x, y, z);
    law_orient3d_is_antisymmetric(x, y, x, z);
    law_orient3d_is_antisymmetric(x, y, z, x);
    law_orient3d_is_antisymmetric(y, y, x, z);
    law_orient3d_is_antisymmetric(y, x, y, z);
    law_orient3d_is_antisymmetric(x, y, y, z);
    law_orient3d_is_antisymmetric(x, y, z, y);
    law_orient3d_is_antisymmetric(z, z, x, y);
    law_orient3d_is_antisymmetric(z, x, z, y);
    law_orient3d_is_antisymmetric(x, z, z, y);
    law_orient3d_is_antisymmetric(x, z, y, z);
    law_orient3d_is_antisymmetric(x, y, z, z);
}

/// A triangle with a point in common with another does not lie off its plane.
proof fn lemma_sharing_is_not_off(s: [Vec3; 3], t: [Vec3; 3])
    requires
        sharing(s, t),
    ensures
        !off_plane_of(s, t),
{
    let (l, m) = choose|l: Weights, m: Weights| #[trigger] common_point(s, t, l, m);
    lemma_weighed(t[0], t[1], t[2], s, l);
    lemma_weighed(t[0], t[1], t[2], t, m);
    lemma_own_plane(t, 0);
    lemma_own_plane(t, 1);
    lemma_own_plane(t, 2);
    assert(weighed(t[0], t[1], t[2], t, m) == 0);
    let (x, y, z) = (
        orient3d_det(t[0], t[1], t[2], s[0]),
        orient3d_det(t[0], t[1], t[2], s[1]),
        orient3d_det(t[0], t[1], t[2], s[2]),
    );
    assert(l.a * x + l.b * y + l.c * z == 0);
    assert(!(x > 0 && y > 0 && z > 0)) by (nonlinear_arith)
        requires
            l.a * x + l.b * y + l.c * z == 0,
            l.a >= 0 && l.b >= 0 && l.c >= 0 && l.a + l.b + l.c > 0,
    ;
    assert(!(x < 0 && y < 0 && z < 0)) by (nonlinear_arith)
        requires
            l.a * x + l.b * y + l.c * z == 0,
            l.a >= 0 && l.b >= 0 && l.c >= 0 && l.a + l.b + l.c > 0,
    ;
}

/// A flattened triangle, by coordinates.
spec fn trio(t: Flat) -> Trio {
    Trio { a: spot(t.a), b: spot(t.b), c: spot(t.c) }
}

/// The same, with its corners in their own order.
spec fn laid(t: [Vec3; 3], axis: int) -> Trio {
    Trio { a: spot(flattened(t[0], axis)), b: spot(flattened(t[1], axis)), c: spot(flattened(t[2], axis)) }
}

proof fn lemma_right(p: Vec2, q: Vec2, t: Flat)
    ensures
        right_of(p, q, t) == beyond(spot(p), spot(q), trio(t)),
{
    lemma_area(p, q, t.a);
    lemma_area(p, q, t.b);
    lemma_area(p, q, t.c);
}

proof fn lemma_separated(s: Flat, t: Flat)
    ensures
        separated_by(s, t) == parted_by(trio(s), trio(t)),
{
    lemma_right(s.a, s.b, t);
    lemma_right(s.b, s.c, t);
    lemma_right(s.c, s.a, t);
}

/// Flattening turns a triangle counter-clockwise.
proof fn lemma_flattened(t: [Vec3; 3], axis: int)
    requires
        shadow(t, axis) != 0,
    ensures
        ({
            let r = trio(flat_triangle(t, axis));
            let own = laid(t, axis);
            &&& area(r.a, r.b, r.c) > 0
            &&& r == own || r == (Trio { a: own.a, b: own.c, c: own.b })
        }),
{
    let (a, b, c) = (flattened(t[0], axis), flattened(t[1], axis), flattened(t[2], axis));
    lemma_area(a, b, c);
    lemma_area_turns(spot(a), spot(b), spot(c));
}

/// Whether two triangles meet does not depend on how each is turned.
proof fn lemma_mirrored(s: Trio, t: Trio, p: Trio, q: Trio)
    requires
        p == s || p == (Trio { a: s.a, b: s.c, c: s.b }),
        q == t || q == (Trio { a: t.a, b: t.c, c: t.b }),
        meeting(s, t),
    ensures
        meeting(p, q),
{
    lemma_meeting_turns(s, t);
    lemma_meeting_turns(p, t);
    lemma_meeting_turns(t, p);
    lemma_meeting_turns(q, p);
}

/// Weights that agree in two coordinates agree in the third, in one plane.
proof fn lemma_lifted(s: [Vec3; 3], t: [Vec3; 3], l: Weights, m: Weights, axis: int)
    requires
        0 <= axis < 3,
        in_plane_of(s, t),
        shadow(t, axis) != 0,
        l.total() == m.total(),
        axis != 0 ==> placed(s, l, 0) == placed(t, m, 0),
        axis != 1 ==> placed(s, l, 1) == placed(t, m, 1),
        axis != 2 ==> placed(s, l, 2) == placed(t, m, 2),
    ensures
        placed(s, l, 0) == placed(t, m, 0),
        placed(s, l, 1) == placed(t, m, 1),
        placed(s, l, 2) == placed(t, m, 2),
{
    lemma_weighed(t[0], t[1], t[2], s, l);
    lemma_weighed(t[0], t[1], t[2], t, m);
    lemma_own_plane(t, 0);
    lemma_own_plane(t, 1);
    lemma_own_plane(t, 2);
    lemma_shadow_is_normal(t);
    assert(weighed(t[0], t[1], t[2], t, m) == 0);
    assert(weighed(t[0], t[1], t[2], s, l) == 0);
    let n = minors(t[0], t[1], t[2]);
    let (x, y) = (placed(s, l, axis), placed(t, m, axis));
    let k = if axis == 0 {
        n.0
    } else if axis == 1 {
        n.1
    } else {
        n.2
    };
    assert(k != 0);
    assert(x * k == y * k);
    assert((x - y) * k == x * k - y * k) by (nonlinear_arith);
    lemma_factor(x - y, k);
}

/// In one plane, having a point in common can be seen along an axis.
proof fn lemma_seen_along(s: [Vec3; 3], t: [Vec3; 3], axis: int)
    requires
        0 <= axis < 3,
        in_plane_of(s, t),
        shadow(t, axis) != 0,
    ensures
        sharing(s, t) == meeting(laid(s, axis), laid(t, axis)),
{
    let (p, q) = (laid(s, axis), laid(t, axis));
    if sharing(s, t) {
        let (l, m) = choose|l: Weights, m: Weights| #[trigger] common_point(s, t, l, m);
        assert(same_spot(p, q, l, m));
    }
    if meeting(p, q) {
        let (l, m) = choose|l: Weights, m: Weights| #[trigger] same_spot(p, q, l, m);
        lemma_lifted(s, t, l, m, axis);
        assert(common_point(s, t, l, m));
    }
}

/// Triangles of one plane overlap exactly if they have a point in common.
proof fn lemma_overlap_is_sharing(s: [Vec3; 3], t: [Vec3; 3])
    requires
        spread(s),
        spread(t),
        in_plane_of(s, t),
    ensures
        overlapping(s, t) == sharing(s, t),
{
    reveal(overlapping);
    let axis = flattening_axis(s);
    lemma_one_plane(s, t);
    let (f, g) = (flat_triangle(s, axis), flat_triangle(t, axis));
    lemma_flattened(s, axis);
    lemma_flattened(t, axis);
    lemma_separated(f, g);
    lemma_separated(g, f);
    law_plane_triangles_meet(trio(f), trio(g));
    lemma_seen_along(s, t, axis);
    let (p, q) = (laid(s, axis), laid(t, axis));
    if meeting(p, q) {
        lemma_mirrored(p, q, trio(f), trio(g));
    }
    if meeting(trio(f), trio(g)) {
        lemma_mirrored(trio(f), trio(g), p, q);
    }
}

/// Two triangles are found to intersect exactly if they have a point in common.
/// The normal of each must not be zero in the component in which it was computed to
/// be greatest, which rounding could make happen to a sliver.
pub proof fn law_intersecting_is_sharing(s: [Vec3; 3], t: [Vec3; 3])
    requires
        spread(s),
        spread(t),
    ensures
        intersecting(s, t) <==> sharing(s, t),
{
    law_sharing_is_symmetric(s, t);
    if in_plane_of(s, t) {
        lemma_one_plane(s, t);
        lemma_overlap_is_sharing(s, t);
    } else if in_plane_of(t, s) {
        lemma_one_plane(t, s);
    } else {
        if sharing(s, t) {
            let (l, m) = choose|l: Weights, m: Weights| #[trigger] common_point(s, t, l, m);
            lemma_some_edge_meets(s, t, l, m);
        }
        if edge_meets(s, t) {
            lemma_edge_shares(s, t);
        }
        if edge_meets(t, s) {
            lemma_edge_shares(t, s);
            law_sharing_is_symmetric(t, s);
        }
    }
    if sharing(s, t) {
        lemma_sharing_is_not_off(s, t);
        lemma_sharing_is_not_off(t, s);
    }
}

/// Which of two triangles comes first does not matter, in one plane or not.
pub proof fn law_spread_triangles_intersect_both_ways(s: [Vec3; 3], t: [Vec3; 3])
    requires
        spread(s),
        spread(t),
    ensures
        intersecting(s, t) == intersecting(t, s),
{
    law_intersecting_is_sharing(s, t);
    law_intersecting_is_sharing(t, s);
    law_sharing_is_symmetric(s, t);
}

} // verus!
