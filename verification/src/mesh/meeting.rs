//! Triangles that intersect have boxes that meet, so that a search by boxes finds
//! them.

use crate::math::Vec3;
use crate::mesh::bvh::displaced::{
    component, lemma_three_factors, lemma_turned, lemma_volume_cycles, lemma_volume_less, turned, volume, Offset,
};
use crate::mesh::bvh::laws::{law_query_is_complete, lemma_triangle_box};
use crate::mesh::bvh::tree::triangle_box;
use crate::mesh::bvh::{corner_array, reached, Bvh};
use crate::mesh::common::{
    common_point, law_intersecting_is_sharing, law_sharing_is_symmetric, lemma_edge_shares, placed, sharing,
};
use crate::mesh::flat::Weights;
use crate::mesh::intersect::{defect, edge_meets, in_plane_of, slivers};
use crate::mesh::{corners_of, sound, sound_vertex};
use crate::order::law_order_is_value_order;
use vstd::arithmetic::mul::*;
use vstd::prelude::*;

verus! {

/// Cramer's rule, in one component.
proof fn lemma_cramer_first(b: Offset, s: Offset, t: Offset, u: Offset)
    ensures
        volume(s, t, u) * b.x == volume(b, t, u) * s.x + volume(b, u, s) * t.x + volume(b, s, t) * u.x,
{
    reveal(volume);
    let (px, py, pz) = (t.y * u.z - t.z * u.y, t.x * u.z - t.z * u.x, t.x * u.y - t.y * u.x);
    let (qx, qy, qz) = (u.y * s.z - u.z * s.y, u.x * s.z - u.z * s.x, u.x * s.y - u.y * s.x);
    let (rx, ry, rz) = (s.y * t.z - s.z * t.y, s.x * t.z - s.z * t.x, s.x * t.y - s.y * t.x);
    let v = volume(s, t, u);
    assert(v == s.x * px - s.y * py + s.z * pz);
    assert(volume(b, t, u) == b.x * px - b.y * py + b.z * pz);
    assert(volume(b, u, s) == b.x * qx - b.y * qy + b.z * qz);
    assert(volume(b, s, t) == b.x * rx - b.y * ry + b.z * rz);
    lemma_minors(s.x, s.y, t.x, t.y, u.x, u.y);
    lemma_minors(s.x, s.z, t.x, t.z, u.x, u.z);
    lemma_column(s, t, u);
    lemma_spread(b, px, py, pz, s.x);
    lemma_spread(b, qx, qy, qz, t.x);
    lemma_spread(b, rx, ry, rz, u.x);
    lemma_gather(b.x, px * s.x, qx * t.x, rx * u.x);
    lemma_gather(b.y, py * s.x, qy * t.x, ry * u.x);
    lemma_gather(b.z, pz * s.x, qz * t.x, rz * u.x);
    assert(py * s.x + qy * t.x + ry * u.x == 0);
    assert(pz * s.x + qz * t.x + rz * u.x == 0);
    assert(b.y * 0 == 0 && b.z * 0 == 0);
    lemma_mul_is_commutative(v, b.x);
}

proof fn lemma_spread(b: Offset, x: int, y: int, z: int, k: int)
    ensures
        (b.x * x - b.y * y + b.z * z) * k == b.x * (x * k) - b.y * (y * k) + b.z * (z * k),
{
    let (p, q, r) = (b.x * x, b.y * y, b.z * z);
    assert((p - q + r) * k == p * k - q * k + r * k) by (nonlinear_arith);
    lemma_mul_is_associative(b.x, x, k);
    lemma_mul_is_associative(b.y, y, k);
    lemma_mul_is_associative(b.z, z, k);
}

proof fn lemma_gather(k: int, x: int, y: int, z: int)
    ensures
        k * x + k * y + k * z == k * (x + y + z),
{
    assert(k * x + k * y + k * z == k * (x + y + z)) by (nonlinear_arith);
}

/// A determinant with two equal columns vanishes.
pub(crate) proof fn lemma_minors(sx: int, sy: int, tx: int, ty: int, ux: int, uy: int)
    ensures
        (tx * uy - ty * ux) * sx + (ux * sy - uy * sx) * tx + (sx * ty - sy * tx) * ux == 0,
{
    lemma_mul_is_commutative(tx * uy - ty * ux, sx);
    lemma_mul_is_commutative(ux * sy - uy * sx, tx);
    lemma_mul_is_commutative(sx * ty - sy * tx, ux);
    lemma_mul_is_distributive_sub(sx, tx * uy, ty * ux);
    lemma_mul_is_distributive_sub(tx, ux * sy, uy * sx);
    lemma_mul_is_distributive_sub(ux, sx * ty, sy * tx);
    lemma_three_factors(sx, tx, uy);
    lemma_three_factors(sx, ty, ux);
    lemma_three_factors(tx, ux, sy);
    lemma_three_factors(tx, uy, sx);
    lemma_three_factors(ux, sx, ty);
    lemma_three_factors(ux, sy, tx);
    lemma_mul_is_commutative(tx, uy);
    lemma_mul_is_commutative(ty, ux);
    lemma_mul_is_commutative(ux, sy);
    lemma_mul_is_commutative(uy, sx);
    lemma_mul_is_commutative(sx, ty);
    lemma_mul_is_commutative(sy, tx);
}

/// A determinant by its first column.
proof fn lemma_column(s: Offset, t: Offset, u: Offset)
    ensures
        s.x * (t.y * u.z - t.z * u.y) - s.y * (t.x * u.z - t.z * u.x) + s.z * (t.x * u.y - t.y * u.x) == (t.y * u.z - t.z
            * u.y) * s.x + (u.y * s.z - u.z * s.y) * t.x + (s.y * t.z - s.z * t.y) * u.x,
{
    lemma_mul_is_commutative(t.y * u.z - t.z * u.y, s.x);
    lemma_mul_is_commutative(u.y * s.z - u.z * s.y, t.x);
    lemma_mul_is_commutative(s.y * t.z - s.z * t.y, u.x);
    lemma_mul_is_distributive_sub(s.y, t.x * u.z, t.z * u.x);
    lemma_mul_is_distributive_sub(s.z, t.x * u.y, t.y * u.x);
    lemma_mul_is_distributive_sub(t.x, u.y * s.z, u.z * s.y);
    lemma_mul_is_distributive_sub(u.x, s.y * t.z, s.z * t.y);
    lemma_three_factors(s.y, t.x, u.z);
    lemma_three_factors(s.y, t.z, u.x);
    lemma_three_factors(s.z, t.x, u.y);
    lemma_three_factors(s.z, t.y, u.x);
    lemma_three_factors(t.x, u.y, s.z);
    lemma_three_factors(t.x, u.z, s.y);
    lemma_three_factors(u.x, s.y, t.z);
    lemma_three_factors(u.x, s.z, t.y);
    lemma_mul_is_commutative(u.y, s.z);
    lemma_mul_is_commutative(u.z, s.y);
    lemma_mul_is_commutative(s.y, u.z);
    lemma_mul_is_commutative(s.z, u.y);
    lemma_mul_is_commutative(s.y, t.z);
    lemma_mul_is_commutative(s.z, t.y);
    lemma_mul_is_commutative(t.z, s.y);
    lemma_mul_is_commutative(t.y, s.z);
}

/// Cramer's rule: a vector by three others.
pub(crate) proof fn lemma_cramer(b: Offset, s: Offset, t: Offset, u: Offset, k: int)
    requires
        0 <= k < 3,
    ensures
        volume(s, t, u) * component(b, k) == volume(b, t, u) * component(s, k) + volume(b, u, s) * component(t, k)
            + volume(b, s, t) * component(u, k),
{
    let (b1, s1, t1, u1) = (turned(b), turned(s), turned(t), turned(u));
    let (b2, s2, t2, u2) = (turned(b1), turned(s1), turned(t1), turned(u1));
    if k == 0 {
        lemma_cramer_first(b, s, t, u);
    } else if k == 1 {
        lemma_cramer_first(b1, s1, t1, u1);
        lemma_turned(s, t, u);
        lemma_turned(b, t, u);
        lemma_turned(b, u, s);
        lemma_turned(b, s, t);
    } else {
        lemma_cramer_first(b2, s2, t2, u2);
        lemma_turned(s, t, u);
        lemma_turned(b, t, u);
        lemma_turned(b, u, s);
        lemma_turned(b, s, t);
        lemma_turned(s1, t1, u1);
        lemma_turned(b1, t1, u1);
        lemma_turned(b1, u1, s1);
        lemma_turned(b1, s1, t1);
    }
}

/// The volume that three points span with another point.
pub(crate) proof fn lemma_from_other_end(b: Offset, s: Offset, t: Offset, u: Offset, s2: Offset, t2: Offset, u2: Offset)
    requires
        s2 == (Offset { x: s.x - b.x, y: s.y - b.y, z: s.z - b.z }),
        t2 == (Offset { x: t.x - b.x, y: t.y - b.y, z: t.z - b.z }),
        u2 == (Offset { x: u.x - b.x, y: u.y - b.y, z: u.z - b.z }),
    ensures
        volume(s2, t2, u2) == volume(s, t, u) - volume(b, t, u) - volume(b, u, s) - volume(b, s, t),
{
    lemma_volume_less(s2, t2, u, b, u2);
    lemma_volume_cycles(u, s2, t2);
    lemma_volume_less(u, s2, t, b, t2);
    lemma_volume_cycles(b, s2, t2);
    lemma_volume_less(b, s2, t, b, t2);
    lemma_volume_cycles(b, s2, b);
    lemma_volume_cycles(t, u, s2);
    lemma_volume_less(t, u, s, b, s2);
    lemma_volume_cycles(b, u, s2);
    lemma_volume_less(b, u, s, b, s2);
    lemma_volume_cycles(b, u, b);
    lemma_volume_cycles(t, b, s2);
    lemma_volume_less(t, b, s, b, s2);
    lemma_volume_cycles(t, b, b);
    lemma_volume_cycles(s, t, u);
    lemma_volume_cycles(b, t, u);
    lemma_volume_cycles(t, b, s);
}

/// The coordinate of a vertex along an axis, exactly.
spec fn along(p: Vec3, k: int) -> int {
    p.at(k).value()
}

/// All corners of the first triangle lie below all corners of the second along an
/// axis.
spec fn wholly_below(s: [Vec3; 3], t: [Vec3; 3], k: int) -> bool {
    forall|i: int, j: int|
        #![trigger s[i], t[j]]
        0 <= i < 3 && 0 <= j < 3 ==> along(s[i], k) < along(t[j], k)
}

/// Triangles with a point in common do not lie one beyond the other along an axis.
proof fn lemma_sharing_reaches(s: [Vec3; 3], t: [Vec3; 3], k: int)
    requires
        sharing(s, t),
        0 <= k < 3,
    ensures
        !wholly_below(s, t, k),
{
    let (l, m) = choose|l: Weights, m: Weights| #[trigger] common_point(s, t, l, m);
    let (a, b, c) = (along(s[0], k), along(s[1], k), along(s[2], k));
    let (x, y, z) = (along(t[0], k), along(t[1], k), along(t[2], k));
    if wholly_below(s, t, k) {
        let h = if a >= b && a >= c {
            a
        } else if b >= c {
            b
        } else {
            c
        };
        assert(s[0] == s[0] && s[1] == s[1] && s[2] == s[2] && t[0] == t[0] && t[1] == t[1] && t[2] == t[2]);
        assert(h < x && h < y && h < z);
        assert(l.a * a <= l.a * h && l.b * b <= l.b * h && l.c * c <= l.c * h) by (nonlinear_arith)
            requires
                l.a >= 0 && l.b >= 0 && l.c >= 0,
                a <= h && b <= h && c <= h,
        ;
        assert(m.a * x >= m.a * h + m.a && m.b * y >= m.b * h + m.b && m.c * z >= m.c * h + m.c) by (nonlinear_arith)
            requires
                m.a >= 0 && m.b >= 0 && m.c >= 0,
                x >= h + 1 && y >= h + 1 && z >= h + 1,
        ;
        assert((l.a + l.b + l.c) * h == l.a * h + l.b * h + l.c * h) by (nonlinear_arith);
        assert((m.a + m.b + m.c) * h == m.a * h + m.b * h + m.c * h) by (nonlinear_arith);
        assert(l.total() == m.total());
        assert(placed(s, l, k) == placed(t, m, k));
    }
}

/// Triangles with a point in common have boxes that meet.
pub proof fn law_sharing_triangles_have_meeting_boxes(s: (Vec3, Vec3, Vec3), t: (Vec3, Vec3, Vec3))
    requires
        s.0.finite() && s.1.finite() && s.2.finite(),
        t.0.finite() && t.1.finite() && t.2.finite(),
        sharing([s.0, s.1, s.2], [t.0, t.1, t.2]),
    ensures
        triangle_box(t).meets(triangle_box(s)),
{
    let (p, q) = ([s.0, s.1, s.2], [t.0, t.1, t.2]);
    let (x, y) = (triangle_box(s), triangle_box(t));
    lemma_triangle_box(s);
    lemma_triangle_box(t);
    law_sharing_is_symmetric(p, q);
    assert forall|k: int| 0 <= k < 3 implies (#[trigger] x.min.at(k)).key() <= y.max.at(k).key() && y.min.at(k).key()
        <= x.max.at(k).key() by {
        lemma_sharing_reaches(p, q, k);
        lemma_sharing_reaches(q, p, k);
        if x.min.at(k).key() > y.max.at(k).key() {
            lemma_ordered(q, p, k, t, s);
        }
        if y.min.at(k).key() > x.max.at(k).key() {
            lemma_ordered(p, q, k, s, t);
        }
    }
    assert(x.min.at(0).finite() && x.max.at(0).finite() && y.min.at(0).finite() && y.max.at(0).finite());
    assert(x.min.at(0).key() <= y.max.at(0).key() && x.min.at(1).key() <= y.max.at(1).key() && x.min.at(2).key()
        <= y.max.at(2).key());
}

proof fn lemma_ordered(p: [Vec3; 3], q: [Vec3; 3], k: int, s: (Vec3, Vec3, Vec3), t: (Vec3, Vec3, Vec3))
    requires
        0 <= k < 3,
        p == [s.0, s.1, s.2],
        q == [t.0, t.1, t.2],
        s.0.finite() && s.1.finite() && s.2.finite(),
        t.0.finite() && t.1.finite() && t.2.finite(),
        triangle_box(t).min.at(k).key() > triangle_box(s).max.at(k).key(),
    ensures
        wholly_below(p, q, k),
{
    lemma_triangle_box(s);
    lemma_triangle_box(t);
    assert forall|i: int, j: int|
        #![trigger p[i], q[j]]
        0 <= i < 3 && 0 <= j < 3 implies along(p[i], k) < along(q[j], k) by {
        assert(s.0.at(k).key() <= triangle_box(s).max.at(k).key());
        assert(t.0.at(k).key() >= triangle_box(t).min.at(k).key());
        law_order_is_value_order(p[i].at(k), q[j].at(k));
    }
}

/// The hierarchy hides no defect: it brings two triangles together that intersect,
/// slivers of one plane apart.
pub proof fn law_defects_are_reached(b: Bvh, points: Seq<Vec3>, faces: Seq<[u32; 3]>, i: u32, j: u32)
    requires
        sound(points, faces),
        b.covers(points, faces),
        defect(points, faces, i, j),
        !slivers(corner_array(points, faces[i as int]), corner_array(points, faces[j as int])),
    ensures
        reached(b.node_list(), b.triangle_order(), triangle_box(corners_of(points, faces[i as int])), 0).contains(j),
{
    let (p, q) = (faces[i as int], faces[j as int]);
    assert(p[0] < points.len() && p[1] < points.len() && p[2] < points.len());
    assert(q[0] < points.len() && q[1] < points.len() && q[2] < points.len());
    let (s, t) = (corners_of(points, p), corners_of(points, q));
    assert(sound_vertex(s.0) && sound_vertex(s.1) && sound_vertex(s.2));
    assert(sound_vertex(t.0) && sound_vertex(t.1) && sound_vertex(t.2));
    let (x, y) = (corner_array(points, p), corner_array(points, q));
    if in_plane_of(x, y) && in_plane_of(y, x) {
        law_intersecting_is_sharing(x, y);
    } else if edge_meets(x, y) {
        lemma_edge_shares(x, y);
    } else {
        lemma_edge_shares(y, x);
        law_sharing_is_symmetric(y, x);
    }
    law_sharing_triangles_have_meeting_boxes(s, t);
    law_query_is_complete(b, points, faces, triangle_box(s), j);
}

} // verus!
