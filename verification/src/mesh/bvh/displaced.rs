//! The sign of an edge function is that of one displacement of all vertices.
//!
//! A vertex is displaced along one and the same skew direction, the more the lower
//! its number. Displaced far less than it is away from anything, no vertex of a
//! triangle lies on a line or in a plane with others by accident, and the signs of
//! the edge functions are those of the displaced edges. So they fit together: what
//! holds of the volumes that four vectors span holds of them.

use crate::math::Vec3;
use crate::mesh::bvh::simplicity::{edge_sign, law_edge_sign_is_antisymmetric, leading, perturbation};
use crate::predicates::{det2, det3, law_orient3d_is_antisymmetric, orient3d_det, orientation_of, Orientation};
use vstd::arithmetic::mul::*;
use vstd::prelude::*;

verus! {

proof fn lemma_three_minors(b1: int, b2: int, c1: int, c2: int, d1: int, d2: int)
    ensures
        b2 * det2(c1, c2, d1, d2) - c2 * det2(b1, b2, d1, d2) + d2 * det2(b1, b2, c1, c2) == 0,
        b1 * det2(c1, c2, d1, d2) - c1 * det2(b1, b2, d1, d2) + d1 * det2(b1, b2, c1, c2) == 0,
{
    lemma_mul_is_distributive_sub(b2, c1 * d2, c2 * d1);
    lemma_mul_is_distributive_sub(c2, b1 * d2, b2 * d1);
    lemma_mul_is_distributive_sub(d2, b1 * c2, b2 * c1);
    lemma_mul_is_distributive_sub(b1, c1 * d2, c2 * d1);
    lemma_mul_is_distributive_sub(c1, b1 * d2, b2 * d1);
    lemma_mul_is_distributive_sub(d1, b1 * c2, b2 * c1);
    lemma_three_factors(b2, c1, d2);
    lemma_three_factors(b2, c2, d1);
    lemma_three_factors(c2, b1, d2);
    lemma_three_factors(b1, c1, d2);
    lemma_three_factors(b1, c2, d1);
    lemma_three_factors(c1, b2, d1);
}

/// The relation between the areas that four vectors of the plane span.
proof fn lemma_plane_relation(a1: int, a2: int, b1: int, b2: int, c1: int, c2: int, d1: int, d2: int)
    ensures
        det2(a1, a2, b1, b2) * det2(c1, c2, d1, d2) - det2(a1, a2, c1, c2) * det2(b1, b2, d1, d2) + det2(a1, a2, d1, d2)
            * det2(b1, b2, c1, c2) == 0,
{
    let (x, y, z) = (det2(c1, c2, d1, d2), det2(b1, b2, d1, d2), det2(b1, b2, c1, c2));
    lemma_three_minors(b1, b2, c1, c2, d1, d2);
    assert((a1 * b2 - a2 * b1) * x == a1 * (b2 * x) - a2 * (b1 * x)) by (nonlinear_arith);
    assert((a1 * c2 - a2 * c1) * y == a1 * (c2 * y) - a2 * (c1 * y)) by (nonlinear_arith);
    assert((a1 * d2 - a2 * d1) * z == a1 * (d2 * z) - a2 * (d1 * z)) by (nonlinear_arith);
    let (p, q, r) = (b2 * x, c2 * y, d2 * z);
    let (s, t, u) = (b1 * x, c1 * y, d1 * z);
    assert(a1 * p - a1 * q + a1 * r == a1 * (p - q + r)) by (nonlinear_arith);
    assert(a2 * s - a2 * t + a2 * u == a2 * (s - t + u)) by (nonlinear_arith);
    assert(a1 * 0 - a2 * 0 == 0);
}

/// A vector seen along a direction: what is left of its first two components.
spec fn seen(v: int, vz: int, d: int, dz: int) -> int {
    dz * v - d * vz
}

proof fn lemma_seen(dx: int, dy: int, dz: int, ax: int, ay: int, az: int, bx: int, by: int, bz: int)
    ensures
        det2(seen(ax, az, dx, dz), seen(ay, az, dy, dz), seen(bx, bz, dx, dz), seen(by, bz, dy, dz)) == dz * det3(
            dx,
            dy,
            dz,
            ax,
            ay,
            az,
            bx,
            by,
            bz,
        ),
{
    let (p, q, r, s) = (dz * ax, dx * az, dz * by, dy * bz);
    let (t, u, v, w) = (dz * ay, dy * az, dz * bx, dx * bz);
    assert((p - q) * (r - s) == p * r - p * s - q * r + q * s) by (nonlinear_arith);
    assert((t - u) * (v - w) == t * v - t * w - u * v + u * w) by (nonlinear_arith);
    assert(q * s == u * w) by (nonlinear_arith)
        requires
            q == dx * az,
            s == dy * bz,
            u == dy * az,
            w == dx * bz,
    ;
    assert(p * r == dz * (dz * (ax * by))) by (nonlinear_arith)
        requires
            p == dz * ax,
            r == dz * by,
    ;
    assert(p * s == dz * (dy * (ax * bz))) by (nonlinear_arith)
        requires
            p == dz * ax,
            s == dy * bz,
    ;
    assert(q * r == dz * (dx * (az * by))) by (nonlinear_arith)
        requires
            q == dx * az,
            r == dz * by,
    ;
    assert(t * v == dz * (dz * (ay * bx))) by (nonlinear_arith)
        requires
            t == dz * ay,
            v == dz * bx,
    ;
    assert(t * w == dz * (dx * (ay * bz))) by (nonlinear_arith)
        requires
            t == dz * ay,
            w == dx * bz,
    ;
    assert(u * v == dz * (dy * (az * bx))) by (nonlinear_arith)
        requires
            u == dy * az,
            v == dz * bx,
    ;
    let (m, n, o) = (ay * bz - az * by, ax * bz - az * bx, ax * by - ay * bx);
    assert(dx * (ay * bz) - dx * (az * by) == dx * m) by (nonlinear_arith)
        requires
            m == ay * bz - az * by,
    ;
    assert(dy * (ax * bz) - dy * (az * bx) == dy * n) by (nonlinear_arith)
        requires
            n == ax * bz - az * bx,
    ;
    assert(dz * (ax * by) - dz * (ay * bx) == dz * o) by (nonlinear_arith)
        requires
            o == ax * by - ay * bx,
    ;
    let (i, j, k) = (dz * (ax * by), dy * (ax * bz), dx * (az * by));
    let (i2, k2, j2) = (dz * (ay * bx), dx * (ay * bz), dy * (az * bx));
    assert(dz * i - dz * j - dz * k - dz * i2 + dz * k2 + dz * j2 == dz * (i - j - k - i2 + k2 + j2)) by (nonlinear_arith);
}

/// A point as exact integers, seen from another.
#[verifier::ext_equal]
pub struct Offset {
    /// Along the first axis.
    pub x: int,
    /// Along the second axis.
    pub y: int,
    /// Along the third axis.
    pub z: int,
}

/// A point, seen from another.
pub open spec fn offset(a: Vec3, o: Vec3) -> Offset {
    Offset { x: a.x.value() - o.x.value(), y: a.y.value() - o.y.value(), z: a.z.value() - o.z.value() }
}

/// The volume that two vectors span with a direction.
#[verifier::opaque]
pub open spec fn volume(d: Offset, a: Offset, b: Offset) -> int {
    det3(d.x, d.y, d.z, a.x, a.y, a.z, b.x, b.y, b.z)
}

/// A vector with its components moved on by one.
pub open spec fn turned(a: Offset) -> Offset {
    Offset { x: a.y, y: a.z, z: a.x }
}

pub proof fn lemma_turned(d: Offset, a: Offset, b: Offset)
    ensures
        volume(turned(d), turned(a), turned(b)) == volume(d, a, b),
{
    reveal(volume);
    let (p, q, r) = (a.y * b.z - a.z * b.y, a.x * b.z - a.z * b.x, a.x * b.y - a.y * b.x);
    assert(volume(d, a, b) == d.x * p - d.y * q + d.z * r);
    assert(volume(turned(d), turned(a), turned(b)) == d.y * (a.z * b.x - a.x * b.z) - d.z * (a.y * b.x - a.x * b.y)
        + d.x * (a.y * b.z - a.z * b.y));
    assert(d.y * (-q) == -(d.y * q)) by (nonlinear_arith);
    assert(d.z * (-r) == -(d.z * r)) by (nonlinear_arith);
}

/// The relation between the volumes that four vectors span with a direction.
pub proof fn lemma_space_relation(d: Offset, a: Offset, b: Offset, c: Offset, e: Offset)
    ensures
        volume(d, a, b) * volume(d, c, e) - volume(d, a, c) * volume(d, b, e) + volume(d, a, e) * volume(d, b, c) == 0,
{
    reveal(volume);
    if d.z != 0 {
        lemma_space_relation_z(d, a, b, c, e);
    } else if d.x != 0 {
        lemma_space_relation_z(turned(d), turned(a), turned(b), turned(c), turned(e));
        lemma_turned(d, a, b);
        lemma_turned(d, c, e);
        lemma_turned(d, a, c);
        lemma_turned(d, b, e);
        lemma_turned(d, a, e);
        lemma_turned(d, b, c);
    } else if d.y != 0 {
        let (d2, a2, b2, c2, e2) = (turned(d), turned(a), turned(b), turned(c), turned(e));
        lemma_space_relation_z(turned(d2), turned(a2), turned(b2), turned(c2), turned(e2));
        lemma_turned(d, a, b);
        lemma_turned(d, c, e);
        lemma_turned(d, a, c);
        lemma_turned(d, b, e);
        lemma_turned(d, a, e);
        lemma_turned(d, b, c);
        lemma_turned(d2, a2, b2);
        lemma_turned(d2, c2, e2);
        lemma_turned(d2, a2, c2);
        lemma_turned(d2, b2, e2);
        lemma_turned(d2, a2, e2);
        lemma_turned(d2, b2, c2);
    } else {
        lemma_no_volume(d, a, b);
        lemma_no_volume(d, a, c);
        lemma_no_volume(d, a, e);
        lemma_mul_basics(volume(d, c, e));
        lemma_mul_basics(volume(d, b, e));
        lemma_mul_basics(volume(d, b, c));
    }
}

pub proof fn lemma_no_volume(d: Offset, a: Offset, b: Offset)
    requires
        d.x == 0 && d.y == 0 && d.z == 0,
    ensures
        volume(d, a, b) == 0,
{
    reveal(volume);
    lemma_mul_basics(det2(a.y, a.z, b.y, b.z));
    lemma_mul_basics(det2(a.x, a.z, b.x, b.z));
    lemma_mul_basics(det2(a.x, a.y, b.x, b.y));
}

proof fn lemma_space_relation_z(d: Offset, a: Offset, b: Offset, c: Offset, e: Offset)
    requires
        d.z != 0,
    ensures
        volume(d, a, b) * volume(d, c, e) - volume(d, a, c) * volume(d, b, e) + volume(d, a, e) * volume(d, b, c) == 0,
{
    reveal(volume);
    let (a1, a2) = (seen(a.x, a.z, d.x, d.z), seen(a.y, a.z, d.y, d.z));
    let (b1, b2) = (seen(b.x, b.z, d.x, d.z), seen(b.y, b.z, d.y, d.z));
    let (c1, c2) = (seen(c.x, c.z, d.x, d.z), seen(c.y, c.z, d.y, d.z));
    let (e1, e2) = (seen(e.x, e.z, d.x, d.z), seen(e.y, e.z, d.y, d.z));
    lemma_plane_relation(a1, a2, b1, b2, c1, c2, e1, e2);
    lemma_seen(d.x, d.y, d.z, a.x, a.y, a.z, b.x, b.y, b.z);
    lemma_seen(d.x, d.y, d.z, c.x, c.y, c.z, e.x, e.y, e.z);
    lemma_seen(d.x, d.y, d.z, a.x, a.y, a.z, c.x, c.y, c.z);
    lemma_seen(d.x, d.y, d.z, b.x, b.y, b.z, e.x, e.y, e.z);
    lemma_seen(d.x, d.y, d.z, a.x, a.y, a.z, e.x, e.y, e.z);
    lemma_seen(d.x, d.y, d.z, b.x, b.y, b.z, c.x, c.y, c.z);
    let k = d.z;
    let (p, q, r, s, t, u) = (
        volume(d, a, b),
        volume(d, c, e),
        volume(d, a, c),
        volume(d, b, e),
        volume(d, a, e),
        volume(d, b, c),
    );
    assert((k * p) * (k * q) - (k * r) * (k * s) + (k * t) * (k * u) == 0);
    lemma_scaled_out(k, p, q, r, s, t, u);
}

proof fn lemma_scaled_out(k: int, p: int, q: int, r: int, s: int, t: int, u: int)
    requires
        k != 0,
        (k * p) * (k * q) - (k * r) * (k * s) + (k * t) * (k * u) == 0,
    ensures
        p * q - r * s + t * u == 0,
{
    let kk = k * k;
    assert((k * p) * (k * q) == kk * (p * q)) by (nonlinear_arith)
        requires
            kk == k * k,
    ;
    assert((k * r) * (k * s) == kk * (r * s)) by (nonlinear_arith)
        requires
            kk == k * k,
    ;
    assert((k * t) * (k * u) == kk * (t * u)) by (nonlinear_arith)
        requires
            kk == k * k,
    ;
    let (x, y, z) = (p * q, r * s, t * u);
    assert(kk * x - kk * y + kk * z == kk * (x - y + z)) by (nonlinear_arith);
    assert(kk > 0) by (nonlinear_arith)
        requires
            kk == k * k,
            k != 0,
    ;
    let w = x - y + z;
    assert(w == 0) by (nonlinear_arith)
        requires
            kk * w == 0,
            kk > 0,
    ;
}


/// The vector product of a direction and a vector.
#[verifier::opaque]
pub open spec fn cross(d: Offset, a: Offset) -> Offset {
    Offset { x: d.y * a.z - d.z * a.y, y: d.z * a.x - d.x * a.z, z: d.x * a.y - d.y * a.x }
}

/// No component is other than zero.
pub open spec fn nil(a: Offset) -> bool {
    a.x == 0 && a.y == 0 && a.z == 0
}

/// A vector along another: `m` times one and `w` times the other.
#[verifier::opaque]
spec fn mixed(m: int, a: Offset, w: int, e: Offset) -> Offset {
    Offset { x: m * a.x + w * e.x, y: m * a.y + w * e.y, z: m * a.z + w * e.z }
}

#[verifier::opaque]
spec fn dot(a: Offset, c: Offset) -> int {
    a.x * c.x + a.y * c.y + a.z * c.z
}

/// The sign of a number.
pub open spec fn sign(x: int) -> int {
    if x > 0 {
        1
    } else if x < 0 {
        -1
    } else {
        0
    }
}

/// An orientation as a sign.
pub open spec fn signed(o: Orientation) -> int {
    match o {
        Orientation::Positive => 1,
        Orientation::Zero => 0,
        Orientation::Negative => -1,
    }
}

/// The sign of an edge function.
#[verifier::opaque]
pub open spec fn way(o: Vec3, p: Vec3, vi: Vec3, i: u32, vj: Vec3, j: u32) -> int {
    signed(edge_sign(o, p, vi, i, vj, j))
}

/// Turned round, an edge function has the other sign, which is not zero.
pub proof fn lemma_way_turns(o: Vec3, p: Vec3, vi: Vec3, i: u32, vj: Vec3, j: u32)
    requires
        i != j,
    ensures
        way(o, p, vj, j, vi, i) == -way(o, p, vi, i, vj, j),
        way(o, p, vi, i, vj, j) == 1 || way(o, p, vi, i, vj, j) == -1,
{
    reveal(way);
    law_edge_sign_is_antisymmetric(o, p, vi, i, vj, j);
}

/// The sign of the first component that is not zero.
pub open spec fn foremost(c: Offset) -> int {
    if c.x != 0 {
        sign(c.x)
    } else if c.y != 0 {
        sign(c.y)
    } else {
        sign(c.z)
    }
}

/// Three factors in other orders.
pub proof fn lemma_three_factors(x: int, y: int, z: int)
    ensures
        x * (y * z) == y * (x * z),
        x * (y * z) == z * (x * y),
{
    assert(x * (y * z) == y * (x * z)) by (nonlinear_arith);
    assert(x * (y * z) == z * (x * y)) by (nonlinear_arith);
}

proof fn lemma_volume_is_product(d: Offset, a: Offset, b: Offset)
    ensures
        volume(d, a, b) == -dot(a, cross(d, b)),
        volume(d, a, b) == dot(b, cross(d, a)),
{
    reveal(dot);
    reveal(volume);
    reveal(cross);
    lemma_mul_is_distributive_sub(d.x, a.y * b.z, a.z * b.y);
    lemma_mul_is_distributive_sub(d.y, a.x * b.z, a.z * b.x);
    lemma_mul_is_distributive_sub(d.z, a.x * b.y, a.y * b.x);
    lemma_mul_is_distributive_sub(a.x, d.y * b.z, d.z * b.y);
    lemma_mul_is_distributive_sub(a.y, d.z * b.x, d.x * b.z);
    lemma_mul_is_distributive_sub(a.z, d.x * b.y, d.y * b.x);
    lemma_mul_is_distributive_sub(b.x, d.y * a.z, d.z * a.y);
    lemma_mul_is_distributive_sub(b.y, d.z * a.x, d.x * a.z);
    lemma_mul_is_distributive_sub(b.z, d.x * a.y, d.y * a.x);
    lemma_three_factors(d.x, a.y, b.z);
    lemma_three_factors(d.x, a.z, b.y);
    lemma_three_factors(d.y, a.x, b.z);
    lemma_three_factors(d.y, a.z, b.x);
    lemma_three_factors(d.z, a.x, b.y);
    lemma_three_factors(d.z, a.y, b.x);
}

proof fn lemma_dot_mixed(m: int, a: Offset, w: int, e: Offset, c: Offset)
    ensures
        dot(mixed(m, a, w, e), c) == m * dot(a, c) + w * dot(e, c),
{
    reveal(dot);
    reveal(mixed);
    assert((m * a.x + w * e.x) * c.x == m * (a.x * c.x) + w * (e.x * c.x)) by (nonlinear_arith);
    assert((m * a.y + w * e.y) * c.y == m * (a.y * c.y) + w * (e.y * c.y)) by (nonlinear_arith);
    assert((m * a.z + w * e.z) * c.z == m * (a.z * c.z) + w * (e.z * c.z)) by (nonlinear_arith);
    let (p, q, r) = (a.x * c.x, a.y * c.y, a.z * c.z);
    let (s, t, u) = (e.x * c.x, e.y * c.y, e.z * c.z);
    assert(m * p + m * q + m * r == m * (p + q + r)) by (nonlinear_arith);
    assert(w * s + w * t + w * u == w * (s + t + u)) by (nonlinear_arith);
}

/// Volumes are linear in their first vector, and in their second.
proof fn lemma_volume_mixed(d: Offset, m: int, a: Offset, w: int, e: Offset, b: Offset)
    ensures
        volume(d, mixed(m, a, w, e), b) == m * volume(d, a, b) + w * volume(d, e, b),
        volume(d, b, mixed(m, a, w, e)) == m * volume(d, b, a) + w * volume(d, b, e),
{
    let x = mixed(m, a, w, e);
    lemma_volume_is_product(d, x, b);
    lemma_volume_is_product(d, a, b);
    lemma_volume_is_product(d, e, b);
    lemma_volume_is_product(d, b, x);
    lemma_volume_is_product(d, b, a);
    lemma_volume_is_product(d, b, e);
    lemma_dot_mixed(m, a, w, e, cross(d, b));
    let (p, q) = (dot(a, cross(d, b)), dot(e, cross(d, b)));
    assert(m * (-p) + w * (-q) == -(m * p + w * q)) by (nonlinear_arith);
}

/// The skew direction of base `b`.
spec fn skew(b: int) -> Offset {
    Offset { x: b * b, y: b, z: 1 }
}

/// A vector whose components are below a base.
spec fn below(c: Offset, b: int) -> bool {
    -b < c.x < b && -b < c.y < b && -b < c.z < b
}

/// Along the skew direction the first component decides.
proof fn lemma_skew_sign(c: Offset, b: int)
    requires
        below(c, b),
        b >= 2,
    ensures
        sign(dot(skew(b), c)) == foremost(c),
        -(b * b * b) < dot(skew(b), c) < b * b * b,
{
    reveal(dot);
    let bb = b * b;
    assert(dot(skew(b), c) == bb * c.x + b * c.y + 1 * c.z);
    let y = b * c.y + c.z;
    assert(-bb < y < bb) by (nonlinear_arith)
        requires
            bb == b * b,
            y == b * c.y + c.z,
            -b < c.y < b,
            -b < c.z < b,
            b >= 2,
    ;
    lemma_leads(b, c.y, c.z);
    lemma_leads(bb, c.x, y);
    assert(-(b * b * b) < bb * c.x + y < b * b * b) by (nonlinear_arith)
        requires
            bb == b * b,
            -bb < y < bb,
            -b < c.x < b,
            b >= 2,
    ;
}

/// What is multiplied by more than the rest decides.
proof fn lemma_leads(m: int, f: int, l: int)
    requires
        -m < l < m,
    ensures
        sign(m * f + l) == (if f != 0 {
            sign(f)
        } else {
            sign(l)
        }),
{
    if f > 0 {
        assert(m * f >= m) by (nonlinear_arith)
            requires
                f >= 1,
                m > 0,
        ;
    } else if f < 0 {
        assert(m * f <= -m) by (nonlinear_arith)
            requires
                f <= -1,
                m > 0,
        ;
    } else {
        assert(m * f == 0) by (nonlinear_arith)
            requires
                f == 0,
        ;
    }
}

/// Two displacements, the first far larger than the second.
proof fn lemma_larger_leads(w: int, v: int, b: int, x: int, y: int)
    requires
        b >= 2,
        v >= 1,
        w >= (b * b * b) * v,
        -(b * b * b) < y < b * b * b,
    ensures
        sign(w * x - v * y) == (if x != 0 {
            sign(x)
        } else {
            -sign(y)
        }),
{
    let c = b * b * b;
    assert(-w < -(v * y) < w) by (nonlinear_arith)
        requires
            v >= 1,
            w >= c * v,
            -c < y < c,
    ;
    lemma_leads(w, x, -(v * y));
    if y > 0 {
        assert(v * y > 0) by (nonlinear_arith)
            requires
                v >= 1,
                y > 0,
        ;
    } else if y < 0 {
        assert(v * y < 0) by (nonlinear_arith)
            requires
                v >= 1,
                y < 0,
        ;
    } else {
        assert(v * y == 0) by (nonlinear_arith)
            requires
                y == 0,
        ;
    }
}

/// The components of a perturbation are those of a vector product.
proof fn lemma_perturbation(o: Vec3, p: Vec3, v: Vec3)
    ensures
        signed(leading(perturbation(o, p, v))) == foremost(cross(offset(p, o), offset(v, o))),
{
    reveal(cross);
    let d = offset(p, o);
    let a = offset(v, o);
    lemma_plane_component(o.y.value(), o.z.value(), p.y.value(), p.z.value(), v.y.value(), v.z.value());
    lemma_plane_component(o.z.value(), o.x.value(), p.z.value(), p.x.value(), v.z.value(), v.x.value());
    lemma_plane_component(o.x.value(), o.y.value(), p.x.value(), p.y.value(), v.x.value(), v.y.value());
}

proof fn lemma_plane_component(oy: int, oz: int, py: int, pz: int, vy: int, vz: int)
    ensures
        det2(oy - vy, oz - vz, py - vy, pz - vz) == (py - oy) * (vz - oz) - (pz - oz) * (vy - oy),
{
    assert((oy - vy) * (pz - vz) - (oz - vz) * (py - vy) == (py - oy) * (vz - oz) - (pz - oz) * (vy - oy))
        by (nonlinear_arith);
}

/// The sign of an edge function from a lower-numbered vertex to a higher one, by
/// exact integers.
proof fn lemma_rising_sign(o: Vec3, p: Vec3, vl: Vec3, l: u32, vh: Vec3, h: u32)
    requires
        l < h,
    ensures
        ({
            let d = offset(p, o);
            let (a, b) = (offset(vl, o), offset(vh, o));
            way(o, p, vl, l, vh, h) == (if volume(d, a, b) != 0 {
                -sign(volume(d, a, b))
            } else if !nil(cross(d, b)) {
                foremost(cross(d, b))
            } else if !nil(cross(d, a)) {
                -foremost(cross(d, a))
            } else {
                1
            })
        }),
{
    reveal(way);
    lemma_perturbation(o, p, vl);
    lemma_perturbation(o, p, vh);
    lemma_edge_determinant(o, p, vl, vh);
}

/// The edge function has the opposite sign of the volume that its ends span.
pub proof fn lemma_edge_determinant(o: Vec3, p: Vec3, a: Vec3, b: Vec3)
    ensures
        signed(orientation_of(orient3d_det(o, p, a, b))) == -sign(volume(offset(p, o), offset(a, o), offset(b, o))),
        orient3d_det(o, p, a, b) == 0 <==> volume(offset(p, o), offset(a, o), offset(b, o)) == 0,
        volume(offset(p, o), offset(a, o), offset(b, o)) == -volume(offset(p, o), offset(b, o), offset(a, o)),
{
    reveal(volume);
    law_orient3d_is_antisymmetric(o, p, a, b);
    law_orient3d_is_antisymmetric(p, o, a, b);
    law_orient3d_is_antisymmetric(p, a, o, b);
    let (d, u, v) = (offset(p, o), offset(a, o), offset(b, o));
    assert(orient3d_det(p, a, b, o) == volume(d, u, v));
    lemma_volume_is_product(d, u, v);
    lemma_volume_is_product(d, v, u);
}

/// The sign of a displaced edge is that of the edge function, unless the line runs
/// along the edge.
proof fn lemma_displaced_edge(o: Vec3, p: Vec3, vl: Vec3, l: u32, vh: Vec3, h: u32, m: int, b: int, wl: int, wh: int)
    requires
        l < h,
        b >= 2,
        wh >= 1,
        wl >= (b * b * b) * wh,
        below(cross(offset(p, o), offset(vl, o)), b),
        below(cross(offset(p, o), offset(vh, o)), b),
        !(nil(cross(offset(p, o), offset(vl, o))) && nil(cross(offset(p, o), offset(vh, o)))),
        ({
            let d = offset(p, o);
            let x = wl * dot(skew(b), cross(d, offset(vh, o))) - wh * dot(skew(b), cross(d, offset(vl, o)));
            -m < x < m
        }),
    ensures
        ({
            let d = offset(p, o);
            let (u, v) = (mixed(m, offset(vl, o), wl, skew(b)), mixed(m, offset(vh, o), wh, skew(b)));
            &&& sign(volume(d, u, v)) == -way(o, p, vl, l, vh, h)
            &&& volume(d, v, u) == -volume(d, u, v)
        }),
{
    let d = offset(p, o);
    let (a, c) = (offset(vl, o), offset(vh, o));
    let e = skew(b);
    let (u, v) = (mixed(m, a, wl, e), mixed(m, c, wh, e));
    let (x, y) = (dot(e, cross(d, c)), dot(e, cross(d, a)));
    lemma_volume_mixed(d, m, a, wl, e, v);
    lemma_volume_mixed(d, m, c, wh, e, a);
    lemma_volume_mixed(d, m, c, wh, e, e);
    lemma_volume_is_product(d, e, c);
    lemma_volume_is_product(d, a, e);
    lemma_volume_is_product(d, e, e);
    let f = volume(d, a, c);
    assert(volume(d, e, e) == 0);
    assert(volume(d, u, v) == m * (m * f + wh * y) + wl * (m * (-x) + wh * 0));
    let k = wl * x - wh * y;
    assert(volume(d, u, v) == m * (m * f - k)) by (nonlinear_arith)
        requires
            volume(d, u, v) == m * (m * f + wh * y) + wl * (m * (-x) + wh * 0),
            k == wl * x - wh * y,
    ;
    lemma_skew_sign(cross(d, c), b);
    lemma_skew_sign(cross(d, a), b);
    lemma_larger_leads(wl, wh, b, x, y);
    lemma_leads(m, f, -k);
    lemma_rising_sign(o, p, vl, l, vh, h);
    let g = m * f - k;
    lemma_positive_factor(m, g);
    lemma_volume_is_product(d, u, v);
    lemma_volume_is_product(d, v, u);
}

proof fn lemma_positive_factor(m: int, g: int)
    requires
        m > 0,
    ensures
        sign(m * g) == sign(g),
{
    lemma_leads(m, g, 0);
}

/// On which side of a plane along the line a vertex lies, where `n` stands across
/// the plane: displaced, it always lies on one.
#[verifier::opaque]
pub open spec fn side_of(n: Offset, a: Offset) -> int {
    let h = a.x * n.x + a.y * n.y + a.z * n.z;
    if h != 0 {
        sign(h)
    } else {
        foremost(n)
    }
}

/// How a directed edge passes a half-line across the line.
pub open spec fn passing(ta: int, tb: int, s: int) -> int {
    if ta < 0 && tb > 0 && s > 0 {
        1
    } else if ta > 0 && tb < 0 && s < 0 {
        -1
    } else {
        0
    }
}

proof fn lemma_sign_product(x: int, y: int)
    ensures
        sign(x * y) == sign(x) * sign(y),
{
    assert(x > 0 && y > 0 ==> x * y > 0) by (nonlinear_arith);
    assert(x < 0 && y < 0 ==> x * y > 0) by (nonlinear_arith);
    assert(x > 0 && y < 0 ==> x * y < 0) by (nonlinear_arith);
    assert(x < 0 && y > 0 ==> x * y < 0) by (nonlinear_arith);
    assert(x == 0 || y == 0 ==> x * y == 0) by (nonlinear_arith);
    assert(sign(x) * sign(y) == (if sign(x) == 0 || sign(y) == 0 {
        0int
    } else if sign(x) == sign(y) {
        1
    } else {
        -1
    }));
}

/// The common sign of three, if they have one.
pub open spec fn common(s: int, t: int, u: int) -> int {
    if s > 0 && t > 0 && u > 0 {
        1
    } else if s < 0 && t < 0 && u < 0 {
        -1
    } else {
        0
    }
}

/// Signs that fit together: the edges of a triangle pass the half-line once where
/// their signs agree, and on balance never where they do not.
proof fn lemma_fitting_signs(ya: int, yb: int, yc: int, xab: int, xbc: int, xca: int)
    requires
        ya != 0 && yb != 0 && yc != 0,
        xab != 0 && xbc != 0 && xca != 0,
        ya * xbc + yb * xca + yc * xab == 0,
    ensures
        passing(sign(ya), sign(yb), sign(xab)) + passing(sign(yb), sign(yc), sign(xbc)) + passing(
            sign(yc),
            sign(ya),
            sign(xca),
        ) == common(sign(xab), sign(xbc), sign(xca)),
{
    lemma_sign_product(ya, xbc);
    lemma_sign_product(yb, xca);
    lemma_sign_product(yc, xab);
}

#[verifier::opaque]
spec fn size(x: int) -> int {
    if x < 0 {
        -x
    } else {
        x
    }
}

proof fn lemma_size(x: int)
    ensures
        0 <= size(x),
        -size(x) <= x <= size(x),
{
    reveal(size);
}

#[verifier::opaque]
spec fn reach(c: Offset) -> int {
    size(c.x) + size(c.y) + size(c.z)
}

proof fn lemma_reach(c: Offset)
    ensures
        0 <= reach(c),
        forall|b: int| b > reach(c) ==> #[trigger] below(c, b),
{
    reveal(reach);
    lemma_size(c.x);
    lemma_size(c.y);
    lemma_size(c.z);
}

/// How far a vertex is displaced, among three.
#[verifier::opaque]
spec fn share(i: u32, j: u32, k: u32, b: int) -> int {
    let c = b * b * b;
    if i < j && i < k {
        c * c
    } else if i > j && i > k {
        1
    } else {
        c
    }
}

proof fn lemma_shares(i: u32, j: u32, k: u32, b: int)
    requires
        i != j && j != k && k != i,
        b >= 2,
    ensures
        share(i, j, k, b) >= 1,
        i < j ==> share(i, j, k, b) >= (b * b * b) * share(j, k, i, b),
        share(i, k, j, b) == share(i, j, k, b),
{
    reveal(share);
    let c = b * b * b;
    assert(c >= 1 && c * c >= 1 && c * c >= c) by (nonlinear_arith)
        requires
            c == b * b * b,
            b >= 2,
    ;
    assert(c * 1 == c);
}

/// The displacement along an edge, from the vertex with share `wi`.
#[verifier::opaque]
spec fn slip(d: Offset, b: int, wi: int, ai: Offset, wj: int, aj: Offset) -> int {
    wi * dot(skew(b), cross(d, aj)) - wj * dot(skew(b), cross(d, ai))
}

proof fn lemma_slip_turns(d: Offset, b: int, wi: int, ai: Offset, wj: int, aj: Offset)
    ensures
        slip(d, b, wi, ai, wj, aj) == -slip(d, b, wj, aj, wi, ai),
{
    reveal(slip);
}

/// The sign of a displaced edge, whichever end has the lower number.
proof fn lemma_displaced(o: Vec3, p: Vec3, vi: Vec3, i: u32, vj: Vec3, j: u32, k: u32, m: int, b: int)
    requires
        i != j && j != k && k != i,
        b >= 2,
        below(cross(offset(p, o), offset(vi, o)), b),
        below(cross(offset(p, o), offset(vj, o)), b),
        !(nil(cross(offset(p, o), offset(vi, o))) && nil(cross(offset(p, o), offset(vj, o)))),
        -m < slip(offset(p, o), b, share(i, j, k, b), offset(vi, o), share(j, k, i, b), offset(vj, o)) < m,
    ensures
        sign(
            volume(
                offset(p, o),
                mixed(m, offset(vi, o), share(i, j, k, b), skew(b)),
                mixed(m, offset(vj, o), share(j, k, i, b), skew(b)),
            ),
        ) == -way(o, p, vi, i, vj, j),
{
    reveal(slip);
    lemma_shares(i, j, k, b);
    lemma_shares(j, i, k, b);
    lemma_shares(i, k, j, b);
    lemma_shares(j, k, i, b);
    let (wi, wj) = (share(i, j, k, b), share(j, k, i, b));
    if i < j {
        lemma_displaced_edge(o, p, vi, i, vj, j, m, b, wi, wj);
    } else {
        lemma_slip_turns(offset(p, o), b, wi, offset(vi, o), wj, offset(vj, o));
        lemma_displaced_edge(o, p, vj, j, vi, i, m, b, wj, wi);
        lemma_way_turns(o, p, vi, i, vj, j);
    }
}

/// A vertex on the line lies on the side that the displacement takes it to.
proof fn lemma_side_on_line(d: Offset, r: Offset, a: Offset)
    requires
        nil(cross(d, a)),
    ensures
        side_of(cross(d, r), a) == foremost(cross(d, r)),
{
    reveal(side_of);
    reveal(dot);
    lemma_volume_is_product(d, r, a);
    let n = cross(d, r);
    assert(dot(r, cross(d, a)) == r.x * 0 + r.y * 0 + r.z * 0);
    assert(a.x * n.x + a.y * n.y + a.z * n.z == dot(a, n));
}

/// The sign of the edge from a vertex on the line to one off it is that of the
/// latter.
proof fn lemma_sign_from_line(o: Vec3, p: Vec3, vi: Vec3, i: u32, vj: Vec3, j: u32)
    requires
        i != j,
        nil(cross(offset(p, o), offset(vi, o))),
        !nil(cross(offset(p, o), offset(vj, o))),
    ensures
        way(o, p, vi, i, vj, j) == foremost(cross(offset(p, o), offset(vj, o))),
{
    reveal(dot);
    let d = offset(p, o);
    let (a, b) = (offset(vi, o), offset(vj, o));
    lemma_volume_is_product(d, a, b);
    assert(dot(b, cross(d, a)) == b.x * 0 + b.y * 0 + b.z * 0);
    if i < j {
        lemma_rising_sign(o, p, vi, i, vj, j);
    } else {
        lemma_volume_is_product(d, b, a);
        lemma_rising_sign(o, p, vj, j, vi, i);
        lemma_way_turns(o, p, vi, i, vj, j);
    }
}

/// Where the line runs along an edge, what the triangle passes cancels, and its
/// signs do not agree.
proof fn lemma_along_edge(o: Vec3, p: Vec3, va: Vec3, a: u32, vb: Vec3, b: u32, vc: Vec3, c: u32, r: Offset)
    requires
        a != b && b != c && c != a,
        nil(cross(offset(p, o), offset(va, o))),
        nil(cross(offset(p, o), offset(vb, o))),
    ensures
        ({
            let n = cross(offset(p, o), r);
            let (ta, tb, tc) = (side_of(n, offset(va, o)), side_of(n, offset(vb, o)), side_of(n, offset(vc, o)));
            let (s, t, u) = (
                way(o, p, va, a, vb, b),
                way(o, p, vb, b, vc, c),
                way(o, p, vc, c, va, a),
            );
            &&& passing(ta, tb, s) + passing(tb, tc, t) + passing(tc, ta, u) == 0
            &&& common(s, t, u) == 0
        }),
{
    let d = offset(p, o);
    lemma_side_on_line(d, r, offset(va, o));
    lemma_side_on_line(d, r, offset(vb, o));
    if nil(cross(d, offset(vc, o))) {
        lemma_side_on_line(d, r, offset(vc, o));
        lemma_order_sign(o, p, va, a, vb, b);
        lemma_order_sign(o, p, vb, b, vc, c);
        lemma_order_sign(o, p, vc, c, va, a);
    } else {
        lemma_sign_from_line(o, p, vb, b, vc, c);
        lemma_sign_from_line(o, p, va, a, vc, c);
        lemma_way_turns(o, p, vc, c, va, a);
    }
}

/// Along the line itself the numbers of the vertices decide.
proof fn lemma_order_sign(o: Vec3, p: Vec3, vi: Vec3, i: u32, vj: Vec3, j: u32)
    requires
        i != j,
        nil(cross(offset(p, o), offset(vi, o))),
        nil(cross(offset(p, o), offset(vj, o))),
    ensures
        way(o, p, vi, i, vj, j) == (if i < j {
            1int
        } else {
            -1
        }),
{
    reveal(dot);
    let d = offset(p, o);
    let (a, b) = (offset(vi, o), offset(vj, o));
    lemma_volume_is_product(d, a, b);
    lemma_volume_is_product(d, b, a);
    assert(dot(b, cross(d, a)) == b.x * 0 + b.y * 0 + b.z * 0);
    assert(dot(a, cross(d, b)) == a.x * 0 + a.y * 0 + a.z * 0);
    if i < j {
        lemma_rising_sign(o, p, vi, i, vj, j);
    } else {
        lemma_rising_sign(o, p, vj, j, vi, i);
        lemma_way_turns(o, p, vi, i, vj, j);
    }
}

/// The edges of a triangle pass a half-line across a line once where the line
/// crosses the displaced triangle, and on balance never where it does not.
pub proof fn lemma_triangle_passes(o: Vec3, p: Vec3, va: Vec3, a: u32, vb: Vec3, b: u32, vc: Vec3, c: u32, r: Offset)
    requires
        a != b && b != c && c != a,
        !nil(cross(offset(p, o), r)),
    ensures
        ({
            let n = cross(offset(p, o), r);
            let (ta, tb, tc) = (side_of(n, offset(va, o)), side_of(n, offset(vb, o)), side_of(n, offset(vc, o)));
            let (s, t, u) = (
                way(o, p, va, a, vb, b),
                way(o, p, vb, b, vc, c),
                way(o, p, vc, c, va, a),
            );
            passing(ta, tb, s) + passing(tb, tc, t) + passing(tc, ta, u) == common(s, t, u)
        }),
{
    let d = offset(p, o);
    let (x, y, z) = (offset(va, o), offset(vb, o), offset(vc, o));
    let (ca, cb, cc) = (cross(d, x), cross(d, y), cross(d, z));
    if nil(ca) && nil(cb) {
        lemma_along_edge(o, p, va, a, vb, b, vc, c, r);
    } else if nil(cb) && nil(cc) {
        lemma_along_edge(o, p, vb, b, vc, c, va, a, r);
    } else if nil(cc) && nil(ca) {
        lemma_along_edge(o, p, vc, c, va, a, vb, b, r);
    } else {
        lemma_apart(o, p, va, a, vb, b, vc, c, r);
    }
}

/// No side of the triangle lies along the line.
proof fn lemma_apart(o: Vec3, p: Vec3, va: Vec3, a: u32, vb: Vec3, b: u32, vc: Vec3, c: u32, r: Offset)
    requires
        a != b && b != c && c != a,
        !nil(cross(offset(p, o), r)),
        !(nil(cross(offset(p, o), offset(va, o))) && nil(cross(offset(p, o), offset(vb, o)))),
        !(nil(cross(offset(p, o), offset(vb, o))) && nil(cross(offset(p, o), offset(vc, o)))),
        !(nil(cross(offset(p, o), offset(vc, o))) && nil(cross(offset(p, o), offset(va, o)))),
    ensures
        ({
            let n = cross(offset(p, o), r);
            let (ta, tb, tc) = (side_of(n, offset(va, o)), side_of(n, offset(vb, o)), side_of(n, offset(vc, o)));
            let (s, t, u) = (way(o, p, va, a, vb, b), way(o, p, vb, b, vc, c), way(o, p, vc, c, va, a));
            passing(ta, tb, s) + passing(tb, tc, t) + passing(tc, ta, u) == common(s, t, u)
        }),
{
    let d = offset(p, o);
    let (x, y, z) = (offset(va, o), offset(vb, o), offset(vc, o));
    let (ca, cb, cc) = (cross(d, x), cross(d, y), cross(d, z));
    let n = cross(d, r);
    let base = 2 + reach(ca) + reach(cb) + reach(cc) + reach(n);
    let (wa, wb, wc) = (share(a, b, c, base), share(b, c, a, base), share(c, a, b, base));
    let e = skew(base);
    let ln = dot(e, n);
    let (la, lb, lc) = (slip(d, base, wa, x, wb, y), slip(d, base, wb, y, wc, z), slip(d, base, wc, z, wa, x));
    let m = 1 + size(la) + size(lb) + size(lc) + size(wa * ln) + size(wb * ln) + size(wc * ln);
    let (pa, pb, pc) = (mixed(m, x, wa, e), mixed(m, y, wb, e), mixed(m, z, wc, e));
    lemma_reach(ca);
    lemma_reach(cb);
    lemma_reach(cc);
    lemma_reach(n);
    lemma_size(la);
    lemma_size(lb);
    lemma_size(lc);
    lemma_size(wa * ln);
    lemma_size(wb * ln);
    lemma_size(wc * ln);
    lemma_displaced(o, p, va, a, vb, b, c, m, base);
    lemma_displaced(o, p, vb, b, vc, c, a, m, base);
    lemma_displaced(o, p, vc, c, va, a, b, m, base);
    lemma_shares(a, b, c, base);
    lemma_shares(b, c, a, base);
    lemma_shares(c, a, b, base);
    lemma_displaced_side(d, r, x, m, wa, base);
    lemma_displaced_side(d, r, y, m, wb, base);
    lemma_displaced_side(d, r, z, m, wc, base);
    lemma_way_turns(o, p, va, a, vb, b);
    lemma_way_turns(o, p, vb, b, vc, c);
    lemma_way_turns(o, p, vc, c, va, a);
    lemma_spanned_signs(d, r, pa, pb, pc);
}

/// Four vectors that no plane with the direction holds two of.
proof fn lemma_spanned_signs(d: Offset, r: Offset, a: Offset, b: Offset, c: Offset)
    requires
        volume(d, r, a) != 0 && volume(d, r, b) != 0 && volume(d, r, c) != 0,
        volume(d, a, b) != 0 && volume(d, b, c) != 0 && volume(d, c, a) != 0,
    ensures
        ({
            let (ta, tb, tc) = (sign(volume(d, r, a)), sign(volume(d, r, b)), sign(volume(d, r, c)));
            let (s, t, u) = (-sign(volume(d, a, b)), -sign(volume(d, b, c)), -sign(volume(d, c, a)));
            passing(ta, tb, s) + passing(tb, tc, t) + passing(tc, ta, u) == common(s, t, u)
        }),
{
    lemma_space_relation(d, r, a, b, c);
    lemma_volume_is_product(d, a, c);
    lemma_volume_is_product(d, c, a);
    let (ya, yb, yc) = (volume(d, r, a), volume(d, r, b), volume(d, r, c));
    let (fab, fbc, fca) = (volume(d, a, b), volume(d, b, c), volume(d, c, a));
    assert(volume(d, a, c) == -fca);
    assert(ya * fbc + yb * fca + yc * fab == 0) by (nonlinear_arith)
        requires
            ya * fbc - yb * (-fca) + yc * fab == 0,
    ;
    assert(ya * (-fbc) + yb * (-fca) + yc * (-fab) == 0) by (nonlinear_arith)
        requires
            ya * fbc + yb * fca + yc * fab == 0,
    ;
    lemma_fitting_signs(ya, yb, yc, -fab, -fbc, -fca);
}

/// A displaced vertex lies on the side of the plane that `side_of` says.
proof fn lemma_displaced_side(d: Offset, r: Offset, a: Offset, m: int, w: int, b: int)
    requires
        b >= 2,
        w >= 1,
        below(cross(d, r), b),
        !nil(cross(d, r)),
        -m < w * dot(skew(b), cross(d, r)) < m,
    ensures
        sign(volume(d, r, mixed(m, a, w, skew(b)))) == side_of(cross(d, r), a),
        volume(d, r, mixed(m, a, w, skew(b))) != 0,
{
    reveal(side_of);
    reveal(dot);
    let n = cross(d, r);
    let e = skew(b);
    lemma_volume_mixed(d, m, a, w, e, r);
    lemma_volume_is_product(d, r, a);
    lemma_volume_is_product(d, r, e);
    lemma_skew_sign(n, b);
    lemma_positive_factor(w, dot(e, n));
    lemma_leads(m, dot(a, n), w * dot(e, n));
}

/// A vector that is not along a direction.
pub open spec fn aside(d: Offset) -> Offset {
    if d.x != 0 {
        Offset { x: 0, y: 1, z: 0 }
    } else if d.y != 0 {
        Offset { x: 0, y: 0, z: 1 }
    } else {
        Offset { x: 1, y: 0, z: 0 }
    }
}

pub proof fn lemma_aside(d: Offset)
    requires
        !nil(d),
    ensures
        !nil(cross(d, aside(d))),
{
    reveal(cross);
    assert(d.x * 1 == d.x && d.y * 1 == d.y && d.z * 1 == d.z);
    assert(d.x * 0 == 0 && d.y * 0 == 0 && d.z * 0 == 0);
}

/// A triangle all of whose vertices lie on one side of a plane along the line is
/// not crossed.
proof fn lemma_on_one_side(o: Vec3, p: Vec3, va: Vec3, a: u32, vb: Vec3, b: u32, vc: Vec3, c: u32, r: Offset)
    requires
        a != b && b != c && c != a,
        !nil(cross(offset(p, o), r)),
        side_of(cross(offset(p, o), r), offset(va, o)) == side_of(cross(offset(p, o), r), offset(vb, o)),
        side_of(cross(offset(p, o), r), offset(vb, o)) == side_of(cross(offset(p, o), r), offset(vc, o)),
    ensures
        common(way(o, p, va, a, vb, b), way(o, p, vb, b, vc, c), way(o, p, vc, c, va, a)) == 0,
{
    lemma_triangle_passes(o, p, va, a, vb, b, vc, c, r);
}

/// The component of an offset.
pub open spec fn component(a: Offset, k: int) -> int {
    if k == 0 {
        a.x
    } else if k == 1 {
        a.y
    } else {
        a.z
    }
}

/// A vector whose product with a direction that has no component `k` runs along
/// that component.
spec fn quarter_turned(d: Offset, k: int) -> Offset {
    if k == 0 {
        Offset { x: 0, y: -d.z, z: d.y }
    } else if k == 1 {
        Offset { x: d.z, y: 0, z: -d.x }
    } else {
        Offset { x: -d.y, y: d.x, z: 0 }
    }
}

proof fn lemma_quarter_turned(d: Offset, k: int, a: Offset)
    requires
        0 <= k < 3,
        component(d, k) == 0,
        !nil(d),
    ensures
        !nil(cross(d, quarter_turned(d, k))),
        component(a, k) > 0 ==> side_of(cross(d, quarter_turned(d, k)), a) == 1,
        component(a, k) < 0 ==> side_of(cross(d, quarter_turned(d, k)), a) == -1,
{
    reveal(cross);
    reveal(side_of);
    let (x, y, z) = (d.x, d.y, d.z);
    let n = cross(d, quarter_turned(d, k));
    let w = x * x + y * y + z * z;
    assert(w > 0) by (nonlinear_arith)
        requires
            w == x * x + y * y + z * z,
            x != 0 || y != 0 || z != 0,
    ;
    assert(y * y - z * (-z) == y * y + z * z) by (nonlinear_arith);
    assert(z * z - x * (-x) == z * z + x * x) by (nonlinear_arith);
    assert(x * x - y * (-y) == x * x + y * y) by (nonlinear_arith);
    assert(x == 0 ==> x * x == 0);
    assert(y == 0 ==> y * y == 0);
    assert(z == 0 ==> z * z == 0);
    assert(x * 0 == 0 && y * 0 == 0 && z * 0 == 0);
    assert(0 * (-x) == 0 && 0 * (-y) == 0 && 0 * (-z) == 0);
    assert(component(n, k) == w);
    assert(k != 0 ==> n.x == 0);
    assert(k != 1 ==> n.y == 0);
    assert(k != 2 ==> n.z == 0);
    let c = component(a, k);
    lemma_sign_product(c, w);
    assert(a.x * 0 == 0 && a.y * 0 == 0 && a.z * 0 == 0);
    assert(a.x * n.x + a.y * n.y + a.z * n.z == c * w);
}

/// A line that does not move along an axis does not cross a triangle that lies
/// wholly beyond it along that axis.
pub proof fn lemma_beside(o: Vec3, p: Vec3, va: Vec3, a: u32, vb: Vec3, b: u32, vc: Vec3, c: u32, k: int)
    requires
        a != b && b != c && c != a,
        0 <= k < 3,
        component(offset(p, o), k) == 0,
        ({
            let (x, y, z) = (
                component(offset(va, o), k),
                component(offset(vb, o), k),
                component(offset(vc, o), k),
            );
            (x > 0 && y > 0 && z > 0) || (x < 0 && y < 0 && z < 0)
        }),
    ensures
        common(way(o, p, va, a, vb, b), way(o, p, vb, b, vc, c), way(o, p, vc, c, va, a)) == 0,
{
    let d = offset(p, o);
    if nil(d) {
        reveal(cross);
        lemma_mul_basics(0);
        assert(nil(cross(d, offset(va, o))));
        assert(nil(cross(d, offset(vb, o))));
        lemma_along_edge(o, p, va, a, vb, b, vc, c, d);
    } else {
        lemma_quarter_turned(d, k, offset(va, o));
        lemma_quarter_turned(d, k, offset(vb, o));
        lemma_quarter_turned(d, k, offset(vc, o));
        lemma_on_one_side(o, p, va, a, vb, b, vc, c, quarter_turned(d, k));
    }
}

/// Volumes do not change when their vectors go round, turn when two of them are
/// exchanged, and vanish where two are equal.
pub proof fn lemma_volume_cycles(d: Offset, a: Offset, b: Offset)
    ensures
        volume(d, a, b) == volume(a, b, d),
        volume(d, a, b) == -volume(d, b, a),
        d == a || a == b || b == d ==> volume(d, a, b) == 0,
{
    lemma_goes_round(d, a, b);
    lemma_goes_round(a, b, d);
    lemma_volume_is_product(d, a, b);
    lemma_volume_is_product(d, b, a);
    lemma_volume_is_product(a, b, d);
    lemma_volume_is_product(b, d, a);
    lemma_volume_is_product(b, a, d);
    lemma_volume_is_product(a, d, b);
}

proof fn lemma_goes_round(d: Offset, a: Offset, b: Offset)
    ensures
        volume(d, a, b) == volume(a, b, d),
{
    lemma_volume_is_product(a, b, d);
    reveal(volume);
    reveal(cross);
    reveal(dot);
    let m = a.x * b.z - a.z * b.x;
    let w = a.z * b.x - a.x * b.z;
    assert(w == -m);
    lemma_mul_is_commutative(d.x, a.y * b.z - a.z * b.y);
    assert(d.y * (-m) == -(d.y * m)) by (nonlinear_arith);
}

/// Volumes are linear in their last vector.
pub proof fn lemma_volume_less(d: Offset, a: Offset, u: Offset, b: Offset, v: Offset)
    requires
        v == (Offset { x: u.x - b.x, y: u.y - b.y, z: u.z - b.z }),
    ensures
        volume(d, a, v) == volume(d, a, u) - volume(d, a, b),
{
    reveal(mixed);
    assert(mixed(1, u, -1, b) =~= v);
    lemma_volume_mixed(d, 1, u, -1, b, a);
}

} // verus!
