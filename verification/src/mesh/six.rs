//! Six points of space, the corners of two triangles of different planes: a point
//! that the triangles have in common shows on an edge of one of them.
//!
//! The argument is by signs alone: those of the volumes of four of the points, and
//! which corners the common point needs.

use crate::math::Vec3;
use crate::mesh::bvh::displaced::{
    lemma_edge_determinant, lemma_space_relation, lemma_volume_cycles, offset, sign, volume, Offset,
};
use crate::mesh::common::{common_point, placed};
use crate::mesh::flat::{balanced, lemma_sign_of_product, times, Weights};
use crate::mesh::intersect::{edge_meets, in_plane_of, segment_meets};
use crate::mesh::meeting::lemma_from_other_end;
use crate::predicates::{law_orient3d_is_antisymmetric, orient3d_det};
use vstd::prelude::*;

verus! {

/// The sign of the volume of four points.
#[verifier::opaque]
spec fn way(p: Vec3, q: Vec3, r: Vec3, s: Vec3) -> int {
    sign(orient3d_det(p, q, r, s))
}

/// Exchanging neighbours turns the sign.
proof fn lemma_swaps(p: Vec3, q: Vec3, r: Vec3, s: Vec3)
    ensures
        way(q, p, r, s) == -way(p, q, r, s),
        way(p, r, q, s) == -way(p, q, r, s),
        way(p, q, s, r) == -way(p, q, r, s),
{
    reveal(way);
    law_orient3d_is_antisymmetric(p, q, r, s);
}

/// The sign in other orders of the points.
spec fn ordered(p: Vec3, q: Vec3, r: Vec3, s: Vec3) -> bool {
    let w = way(p, q, r, s);
    &&& way(p, r, q, s) == -w
    &&& way(p, s, q, r) == w
    &&& way(q, r, p, s) == w
    &&& way(q, s, p, r) == -w
    &&& way(r, s, p, q) == w
    &&& way(p, q, s, r) == -w
    &&& way(p, r, s, q) == w
    &&& way(q, r, s, p) == -w
    &&& -1 <= w <= 1
}

proof fn lemma_ordered(p: Vec3, q: Vec3, r: Vec3, s: Vec3)
    ensures
        ordered(p, q, r, s),
{
    lemma_swaps(p, q, r, s);
    lemma_swaps(p, r, q, s);
    lemma_swaps(p, r, s, q);
    lemma_swaps(p, q, s, r);
    lemma_swaps(p, s, q, r);
    lemma_swaps(q, p, r, s);
    lemma_swaps(q, r, p, s);
    lemma_swaps(q, p, s, r);
    lemma_swaps(q, s, p, r);
    lemma_swaps(r, p, q, s);
    lemma_swaps(r, p, s, q);
    lemma_swaps(r, s, p, q);
    reveal(way);
}

/// What the signs of six points obey, as the line through two of them sees the four
/// others.
spec fn seen(p: Vec3, q: Vec3, a: Vec3, b: Vec3, c: Vec3, d: Vec3) -> bool {
    balanced(
        times(way(p, q, a, b), way(p, q, c, d)),
        -times(way(p, q, a, c), way(p, q, b, d)),
        times(way(p, q, a, d), way(p, q, b, c)),
    )
}

proof fn lemma_way_is_volume(p: Vec3, q: Vec3, a: Vec3, b: Vec3)
    ensures
        way(p, q, a, b) == -sign(volume(offset(q, p), offset(a, p), offset(b, p))),
{
    reveal(way);
    lemma_edge_determinant(p, q, a, b);
}

proof fn lemma_seen(p: Vec3, q: Vec3, a: Vec3, b: Vec3, c: Vec3, d: Vec3)
    ensures
        seen(p, q, a, b, c, d),
{
    let o = offset(q, p);
    let (x, y, z, w) = (offset(a, p), offset(b, p), offset(c, p), offset(d, p));
    lemma_space_relation(o, x, y, z, w);
    lemma_way_is_volume(p, q, a, b);
    lemma_way_is_volume(p, q, c, d);
    lemma_way_is_volume(p, q, a, c);
    lemma_way_is_volume(p, q, b, d);
    lemma_way_is_volume(p, q, a, d);
    lemma_way_is_volume(p, q, b, c);
    lemma_sign_of_product(volume(o, x, y), volume(o, z, w));
    lemma_sign_of_product(volume(o, x, z), volume(o, y, w));
    lemma_sign_of_product(volume(o, x, w), volume(o, y, z));
}

/// The volume with three points fixed, by the coordinates of the fourth.
pub(crate) proof fn lemma_volume_by_coordinates(x: Vec3, y: Vec3, z: Vec3, p: Vec3) -> (n: (int, int, int))
    ensures
        n == minors(x, y, z),
        orient3d_det(x, y, z, p) == -((p.x.value() - x.x.value()) * n.0 - (p.y.value() - x.y.value()) * n.1 + (
        p.z.value() - x.z.value()) * n.2),
{
    let none = Offset { x: 0, y: 0, z: 0 };
    let (b, t, u) = (offset(p, x), offset(y, x), offset(z, x));
    lemma_from_other_end(b, none, t, u, offset(x, p), offset(y, p), offset(z, p));
    reveal(volume);
    lemma_volume_cycles(b, u, none);
    lemma_volume_cycles(u, none, b);
    lemma_volume_cycles(b, none, t);
    assert(volume(none, t, u) == 0 && volume(none, b, u) == 0 && volume(none, t, b) == 0);
    minors(x, y, z)
}

/// The coefficients of the coordinates.
pub open spec fn minors(x: Vec3, y: Vec3, z: Vec3) -> (int, int, int) {
    let (t, u) = (offset(y, x), offset(z, x));
    (t.y * u.z - t.z * u.y, t.x * u.z - t.z * u.x, t.x * u.y - t.y * u.x)
}

/// The weighted sum of the volumes of the corners of a triangle with three points.
pub open spec fn weighed(x: Vec3, y: Vec3, z: Vec3, t: [Vec3; 3], w: Weights) -> int {
    w.over(orient3d_det(x, y, z, t[0]), orient3d_det(x, y, z, t[1]), orient3d_det(x, y, z, t[2]))
}

proof fn lemma_scaled(k: int, n: (int, int, int), x: int, y: int, z: int, a: int, b: int, c: int)
    ensures
        k * (-((a - x) * n.0 - (b - y) * n.1 + (c - z) * n.2)) == -((k * a) * n.0 - (k * b) * n.1 + (k * c) * n.2) + k * (x
            * n.0 - y * n.1 + z * n.2),
{
    assert((a - x) * n.0 == a * n.0 - x * n.0) by (nonlinear_arith);
    assert((b - y) * n.1 == b * n.1 - y * n.1) by (nonlinear_arith);
    assert((c - z) * n.2 == c * n.2 - z * n.2) by (nonlinear_arith);
    let (p, q, r) = (a * n.0, b * n.1, c * n.2);
    let o = x * n.0 - y * n.1 + z * n.2;
    assert(k * (-(p - q + r) + o) == -(k * p - k * q + k * r) + k * o) by (nonlinear_arith);
    vstd::arithmetic::mul::lemma_mul_is_associative(k, a, n.0);
    vstd::arithmetic::mul::lemma_mul_is_associative(k, b, n.1);
    vstd::arithmetic::mul::lemma_mul_is_associative(k, c, n.2);
}

pub(crate) proof fn lemma_weighed(x: Vec3, y: Vec3, z: Vec3, t: [Vec3; 3], w: Weights)
    ensures
        ({
            let n = minors(x, y, z);
            weighed(x, y, z, t, w) == -(placed(t, w, 0) * n.0 - placed(t, w, 1) * n.1 + placed(t, w, 2) * n.2) + w.total()
                * (x.x.value() * n.0 - x.y.value() * n.1 + x.z.value() * n.2)
        }),
{
    let n = lemma_volume_by_coordinates(x, y, z, t[0]);
    lemma_volume_by_coordinates(x, y, z, t[1]);
    lemma_volume_by_coordinates(x, y, z, t[2]);
    let (a, b, c) = (x.x.value(), x.y.value(), x.z.value());
    lemma_scaled(w.a, n, a, b, c, t[0].x.value(), t[0].y.value(), t[0].z.value());
    lemma_scaled(w.b, n, a, b, c, t[1].x.value(), t[1].y.value(), t[1].z.value());
    lemma_scaled(w.c, n, a, b, c, t[2].x.value(), t[2].y.value(), t[2].z.value());
    let o = a * n.0 - b * n.1 + c * n.2;
    assert((w.a + w.b + w.c) * o == w.a * o + w.b * o + w.c * o) by (nonlinear_arith);
    lemma_columns(w.a * t[0].x.value(), w.b * t[1].x.value(), w.c * t[2].x.value(), n.0);
    lemma_columns(w.a * t[0].y.value(), w.b * t[1].y.value(), w.c * t[2].y.value(), n.1);
    lemma_columns(w.a * t[0].z.value(), w.b * t[1].z.value(), w.c * t[2].z.value(), n.2);
}

proof fn lemma_columns(a: int, b: int, c: int, n: int)
    ensures
        (a + b + c) * n == a * n + b * n + c * n,
{
    assert((a + b + c) * n == a * n + b * n + c * n) by (nonlinear_arith);
}

/// Numbers of these signs can have equal sums.
spec fn even(a: int, b: int, c: int, d: int, e: int, f: int) -> bool {
    (a > 0 || b > 0 || c > 0 || d < 0 || e < 0 || f < 0) == (a < 0 || b < 0 || c < 0 || d > 0 || e > 0 || f > 0)
}

/// What a common point says of the signs with three points.
spec fn weighing(x: Vec3, y: Vec3, z: Vec3, s: [Vec3; 3], t: [Vec3; 3], l: Weights, m: Weights) -> bool {
    even(
        times(sign(l.a), way(x, y, z, s[0])),
        times(sign(l.b), way(x, y, z, s[1])),
        times(sign(l.c), way(x, y, z, s[2])),
        times(sign(m.a), way(x, y, z, t[0])),
        times(sign(m.b), way(x, y, z, t[1])),
        times(sign(m.c), way(x, y, z, t[2])),
    )
}

proof fn lemma_weighing(x: Vec3, y: Vec3, z: Vec3, s: [Vec3; 3], t: [Vec3; 3], l: Weights, m: Weights)
    requires
        common_point(s, t, l, m),
    ensures
        weighing(x, y, z, s, t, l, m),
        way(x, y, z, x) == 0,
        way(x, y, z, y) == 0,
        way(x, y, z, z) == 0,
{
    reveal(way);
    lemma_weighed(x, y, z, s, l);
    lemma_weighed(x, y, z, t, m);
    assert(weighed(x, y, z, s, l) == weighed(x, y, z, t, m));
    lemma_sign_of_product(l.a, orient3d_det(x, y, z, s[0]));
    lemma_sign_of_product(l.b, orient3d_det(x, y, z, s[1]));
    lemma_sign_of_product(l.c, orient3d_det(x, y, z, s[2]));
    lemma_sign_of_product(m.a, orient3d_det(x, y, z, t[0]));
    lemma_sign_of_product(m.b, orient3d_det(x, y, z, t[1]));
    lemma_sign_of_product(m.c, orient3d_det(x, y, z, t[2]));
    law_orient3d_is_antisymmetric(x, x, y, z);
    law_orient3d_is_antisymmetric(x, y, x, z);
    law_orient3d_is_antisymmetric(x, y, z, x);
    law_orient3d_is_antisymmetric(y, y, x, z);
    law_orient3d_is_antisymmetric(y, x, y, z);
    law_orient3d_is_antisymmetric(x, y, y, z);
    law_orient3d_is_antisymmetric(x, y, z, y);
    law_orient3d_is_antisymmetric(z, z, x, y);
    law_orient3d_is_antisymmetric(z, x, z, y);
    law_orient3d_is_antisymmetric(x, z, z, y);
    law_orient3d_is_antisymmetric(x, z, y, z);
    law_orient3d_is_antisymmetric(x, y, z, z);
}

/// The signs of a segment that meets a triangle.
spec fn crossing(p: Vec3, q: Vec3, t: [Vec3; 3]) -> bool {
    let (x, y, z) = (way(p, q, t[0], t[1]), way(p, q, t[1], t[2]), way(p, q, t[2], t[0]));
    &&& way(t[0], t[1], t[2], p) != way(t[0], t[1], t[2], q)
    &&& x == 0 || y == 0 || x == y
    &&& y == 0 || z == 0 || y == z
    &&& x == 0 || z == 0 || x == z
}

proof fn lemma_crossing(p: Vec3, q: Vec3, t: [Vec3; 3])
    ensures
        segment_meets(p, q, t) == crossing(p, q, t),
        way(p, q, t[2], t[0]) == -way(p, q, t[0], t[2]),
        way(q, p, t[0], t[1]) == -way(p, q, t[0], t[1]),
        way(q, p, t[1], t[2]) == -way(p, q, t[1], t[2]),
        way(q, p, t[2], t[0]) == -way(p, q, t[2], t[0]),
{
    lemma_swaps(p, q, t[0], t[2]);
    lemma_swaps(p, q, t[0], t[1]);
    lemma_swaps(p, q, t[1], t[2]);
    lemma_swaps(p, q, t[2], t[0]);
    reveal(way);
}

/// Two triangles of different planes with a point in common: an edge of one meets
/// the other.
#[verifier::rlimit(100)]
#[verifier::spinoff_prover]
pub(crate) proof fn lemma_some_edge_meets(s: [Vec3; 3], t: [Vec3; 3], l: Weights, m: Weights)
    requires
        common_point(s, t, l, m),
        !in_plane_of(s, t),
        !in_plane_of(t, s),
    ensures
        edge_meets(s, t) || edge_meets(t, s),
{
    let (a, b, c) = (s[0], s[1], s[2]);
    let (d, e, f) = (t[0], t[1], t[2]);
    lemma_ordered(a, b, c, d);
    lemma_ordered(a, b, c, e);
    lemma_ordered(a, b, c, f);
    lemma_ordered(a, b, d, e);
    lemma_ordered(a, b, d, f);
    lemma_ordered(a, b, e, f);
    lemma_ordered(a, c, d, e);
    lemma_ordered(a, c, d, f);
    lemma_ordered(a, c, e, f);
    lemma_ordered(a, d, e, f);
    lemma_ordered(b, c, d, e);
    lemma_ordered(b, c, d, f);
    lemma_ordered(b, c, e, f);
    lemma_ordered(b, d, e, f);
    lemma_ordered(c, d, e, f);
    lemma_seen(a, b, c, d, e, f);
    lemma_seen(a, c, b, d, e, f);
    lemma_seen(a, d, b, c, e, f);
    lemma_seen(a, e, b, c, d, f);
    lemma_seen(a, f, b, c, d, e);
    lemma_seen(b, c, a, d, e, f);
    lemma_seen(b, d, a, c, e, f);
    lemma_seen(b, e, a, c, d, f);
    lemma_seen(b, f, a, c, d, e);
    lemma_seen(c, d, a, b, e, f);
    lemma_seen(c, e, a, b, d, f);
    lemma_seen(c, f, a, b, d, e);
    lemma_seen(d, e, a, b, c, f);
    lemma_seen(d, f, a, b, c, e);
    lemma_seen(e, f, a, b, c, d);
    lemma_weighing(a, b, c, s, t, l, m);
    lemma_weighing(a, b, d, s, t, l, m);
    lemma_weighing(a, b, e, s, t, l, m);
    lemma_weighing(a, b, f, s, t, l, m);
    lemma_weighing(a, c, d, s, t, l, m);
    lemma_weighing(a, c, e, s, t, l, m);
    lemma_weighing(a, c, f, s, t, l, m);
    lemma_weighing(a, d, e, s, t, l, m);
    lemma_weighing(a, d, f, s, t, l, m);
    lemma_weighing(a, e, f, s, t, l, m);
    lemma_weighing(b, c, d, s, t, l, m);
    lemma_weighing(b, c, e, s, t, l, m);
    lemma_weighing(b, c, f, s, t, l, m);
    lemma_weighing(b, d, e, s, t, l, m);
    lemma_weighing(b, d, f, s, t, l, m);
    lemma_weighing(b, e, f, s, t, l, m);
    lemma_weighing(c, d, e, s, t, l, m);
    lemma_weighing(c, d, f, s, t, l, m);
    lemma_weighing(c, e, f, s, t, l, m);
    lemma_weighing(d, e, f, s, t, l, m);
    lemma_crossing(a, b, t);
    lemma_crossing(b, c, t);
    lemma_crossing(c, a, t);
    lemma_crossing(d, e, s);
    lemma_crossing(e, f, s);
    lemma_crossing(f, d, s);
    assert(!(way(d, e, f, a) == 0 && way(d, e, f, b) == 0 && way(d, e, f, c) == 0)) by {
        reveal(way);
    }
    assert(!(way(a, b, c, d) == 0 && way(a, b, c, e) == 0 && way(a, b, c, f) == 0)) by {
        reveal(way);
    }
}

} // verus!
