//! Exact geometric predicates.
//!
//! Each predicate is the sign of a determinant of its arguments' coordinates,
//! decided on the exact values of the coordinates with no rounding anywhere.

pub mod corpus;
pub mod words;
pub mod exact;

use crate::double::Double;
use crate::math::{Vec2, Vec3};
use vstd::arithmetic::mul::*;
use vstd::prelude::*;

verus! {

/// The result of an exact geometric predicate.
#[derive(Clone, Copy, Debug, PartialEq, Eq, PartialOrd, Ord, Hash, Structural)]
pub enum Orientation {
    /// The determinant is negative.
    Negative,
    /// The determinant is zero: collinear, coplanar, cocircular or cospherical.
    Zero,
    /// The determinant is positive.
    Positive,
}

/// The orientation that a determinant stands for.
pub open spec fn orientation_of(det: int) -> Orientation {
    if det < 0 {
        Orientation::Negative
    } else if det == 0 {
        Orientation::Zero
    } else {
        Orientation::Positive
    }
}

impl Orientation {
    /// Positive and negative exchanged.
    pub open spec fn reversed(self) -> Orientation {
        match self {
            Orientation::Positive => Orientation::Negative,
            Orientation::Negative => Orientation::Positive,
            Orientation::Zero => Orientation::Zero,
        }
    }

    /// The sign of an exactly computed determinant.
    pub fn from_determinant(det: Double) -> (o: Orientation)
        requires
            !det.nan(),
        ensures
            o == orientation_of(det.key()),
    {
        let zero: Double = Double::zeroed();
        if zero.less(det) {
            Orientation::Positive
        } else if det.less(zero) {
            Orientation::Negative
        } else {
            Orientation::Zero
        }
    }

    /// The sign as `-1`, `0` or `1`.
    pub fn as_i8(self) -> (r: i8)
        ensures
            self == orientation_of(r as int),
            -1 <= r <= 1,
    {
        match self {
            Orientation::Positive => 1,
            Orientation::Negative => -1,
            Orientation::Zero => 0,
        }
    }

    /// Exchanges positive and negative, leaving zero alone.
    pub fn reverse(self) -> (r: Orientation)
        ensures
            r == self.reversed(),
    {
        match self {
            Orientation::Positive => Orientation::Negative,
            Orientation::Negative => Orientation::Positive,
            Orientation::Zero => Orientation::Zero,
        }
    }

    /// True for the degenerate case.
    pub fn is_zero(self) -> (r: bool)
        ensures
            r == (self == Orientation::Zero),
    {
        self == Orientation::Zero
    }

    /// The character form: `+`, `-` or `0`.
    pub open spec fn letter(self) -> char {
        match self {
            Orientation::Positive => '+',
            Orientation::Negative => '-',
            Orientation::Zero => '0',
        }
    }

    /// The character form: `+`, `-` or `0`.
    pub fn as_char(self) -> (c: char)
        ensures
            c == self.letter(),
    {
        match self {
            Orientation::Positive => '+',
            Orientation::Negative => '-',
            Orientation::Zero => '0',
        }
    }

    /// The orientation written by a character, if it is one of the three.
    pub fn from_char(c: char) -> (r: Option<Orientation>)
        ensures
            r matches Some(o) ==> o.letter() == c,
            r is None ==> c != '+' && c != '-' && c != '0',
    {
        match c {
            '+' => Some(Orientation::Positive),
            '-' => Some(Orientation::Negative),
            '0' => Some(Orientation::Zero),
            _ => None,
        }
    }
}

/// The coordinate magnitudes that a predicate is specified for.
#[derive(Clone, Copy, Debug, PartialEq, Eq, Structural)]
pub struct CoordRange {
    /// Smallest nonzero magnitude.
    pub min: Double,
    /// Largest magnitude.
    pub max: Double,
    /// Degree of the determinant.
    pub degree: u32,
}

impl CoordRange {
    /// Exactly zero, or a magnitude within the range.
    pub open spec fn admits(self, v: Double) -> bool {
        v.zero() || (self.min.le(v.absolute()) && v.absolute().le(self.max))
    }

    /// True if `v` is exactly zero or lies within the range.
    pub fn contains(&self, v: Double) -> (r: bool)
        ensures
            r == self.admits(v),
    {
        v.is_zero() || (self.min.at_most(v.abs()) && v.abs().at_most(self.max))
    }

    /// True if every coordinate is in range.
    pub fn contains_all(&self, coords: &[Double]) -> (r: bool)
        ensures
            r == forall|i: int| 0 <= i < coords@.len() ==> self.admits(#[trigger] coords@[i]),
    {
        let mut i: usize = 0;
        while i < coords.len()
            invariant
                i <= coords.len(),
                forall|j: int| 0 <= j < i ==> self.admits(#[trigger] coords@[j]),
            decreases coords.len() - i,
        {
            if !self.contains(coords[i]) {
                return false;
            }
            i = i + 1;
        }
        true
    }
}

/// The range of [`orient2d`]: `1e-150` to `1e150`.
pub open spec fn orient2d_coords() -> CoordRange {
    CoordRange { min: Double { bits: 0x20ca_2fe7_6a3f_9475 }, max: Double { bits: 0x5f13_8d35_2e50_96af }, degree: 2 }
}

/// The range of [`orient3d`]: `1e-90` to `1e100`.
pub open spec fn orient3d_coords() -> CoordRange {
    CoordRange { min: Double { bits: 0x2d40_4bd9_8499_0e6f }, max: Double { bits: 0x54b2_49ad_2594_c37d }, degree: 3 }
}

/// The range of [`incircle`]: `1e-63` to `1e74`.
pub open spec fn incircle_coords() -> CoordRange {
    CoordRange { min: Double { bits: 0x32da_53fc_9631_d10d }, max: Double { bits: 0x4f4c_4c8b_1349_b9b5 }, degree: 4 }
}

/// The range of [`insphere`]: `1e-59` to `1e59`.
pub open spec fn insphere_coords() -> CoordRange {
    CoordRange { min: Double { bits: 0x33b0_11c2_eaab_e7d8 }, max: Double { bits: 0x4c2f_dca1_6e04_b86d }, degree: 5 }
}

/// The range of [`orient2d`].
pub fn orient2d_range() -> (r: CoordRange)
    ensures
        r == orient2d_coords(),
{
    CoordRange { min: Double::from_bits(0x20ca_2fe7_6a3f_9475), max: Double::from_bits(0x5f13_8d35_2e50_96af), degree: 2 }
}

/// The range of [`orient3d`].
pub fn orient3d_range() -> (r: CoordRange)
    ensures
        r == orient3d_coords(),
{
    CoordRange { min: Double::from_bits(0x2d40_4bd9_8499_0e6f), max: Double::from_bits(0x54b2_49ad_2594_c37d), degree: 3 }
}

/// The range of [`incircle`].
pub fn incircle_range() -> (r: CoordRange)
    ensures
        r == incircle_coords(),
{
    CoordRange { min: Double::from_bits(0x32da_53fc_9631_d10d), max: Double::from_bits(0x4f4c_4c8b_1349_b9b5), degree: 4 }
}

/// The range of [`insphere`].
pub fn insphere_range() -> (r: CoordRange)
    ensures
        r == insphere_coords(),
{
    CoordRange { min: Double::from_bits(0x33b0_11c2_eaab_e7d8), max: Double::from_bits(0x4c2f_dca1_6e04_b86d), degree: 5 }
}

/// `|p q|` for rows `p` and `q` of two.
pub open spec fn det2(px: int, py: int, qx: int, qy: int) -> int {
    px * qy - py * qx
}

/// The determinant of three rows.
pub open spec fn det3(
    px: int,
    py: int,
    pz: int,
    qx: int,
    qy: int,
    qz: int,
    rx: int,
    ry: int,
    rz: int,
) -> int {
    px * det2(qy, qz, ry, rz) - py * det2(qx, qz, rx, rz) + pz * det2(qx, qy, rx, ry)
}

/// Twice the signed area of the triangle `a b c`.
pub open spec fn orient2d_det(a: Vec2, b: Vec2, c: Vec2) -> int {
    det2(
        a.x.value() - c.x.value(),
        a.y.value() - c.y.value(),
        b.x.value() - c.x.value(),
        b.y.value() - c.y.value(),
    )
}

/// The determinant of the rows `a - d`, `b - d` and `c - d`.
pub open spec fn orient3d_det(a: Vec3, b: Vec3, c: Vec3, d: Vec3) -> int {
    det3(
        a.x.value() - d.x.value(),
        a.y.value() - d.y.value(),
        a.z.value() - d.z.value(),
        b.x.value() - d.x.value(),
        b.y.value() - d.y.value(),
        b.z.value() - d.z.value(),
        c.x.value() - d.x.value(),
        c.y.value() - d.y.value(),
        c.z.value() - d.z.value(),
    )
}

/// The determinant of three plane rows, each with its squared length appended.
pub open spec fn lifted2(px: int, py: int, qx: int, qy: int, rx: int, ry: int) -> int {
    (px * px + py * py) * det2(qx, qy, rx, ry) - (qx * qx + qy * qy) * det2(px, py, rx, ry) + (rx * rx + ry * ry) * det2(
        px,
        py,
        qx,
        qy,
    )
}

/// The determinant of `a`, `b` and `c`, seen from `d` and lifted to the
/// paraboloid.
pub open spec fn incircle_det(a: Vec2, b: Vec2, c: Vec2, d: Vec2) -> int {
    lifted2(
        a.x.value() - d.x.value(),
        a.y.value() - d.y.value(),
        b.x.value() - d.x.value(),
        b.y.value() - d.y.value(),
        c.x.value() - d.x.value(),
        c.y.value() - d.y.value(),
    )
}

/// The squared length of a row of three.
pub open spec fn norm3(x: int, y: int, z: int) -> int {
    x * x + y * y + z * z
}

/// The determinant of four space rows, each with its squared length appended,
/// positive for a point inside a positively oriented tetrahedron's sphere.
pub open spec fn lifted3(
    px: int,
    py: int,
    pz: int,
    qx: int,
    qy: int,
    qz: int,
    rx: int,
    ry: int,
    rz: int,
    sx: int,
    sy: int,
    sz: int,
) -> int {
    norm3(sx, sy, sz) * det3(px, py, pz, qx, qy, qz, rx, ry, rz) - norm3(rx, ry, rz) * det3(
        px,
        py,
        pz,
        qx,
        qy,
        qz,
        sx,
        sy,
        sz,
    ) + norm3(qx, qy, qz) * det3(px, py, pz, rx, ry, rz, sx, sy, sz) - norm3(px, py, pz) * det3(
        qx,
        qy,
        qz,
        rx,
        ry,
        rz,
        sx,
        sy,
        sz,
    )
}

/// The determinant of `a`, `b`, `c` and `d`, seen from `e` and lifted to the
/// paraboloid.
pub open spec fn insphere_det(a: Vec3, b: Vec3, c: Vec3, d: Vec3, e: Vec3) -> int {
    lifted3(
        a.x.value() - e.x.value(),
        a.y.value() - e.y.value(),
        a.z.value() - e.z.value(),
        b.x.value() - e.x.value(),
        b.y.value() - e.y.value(),
        b.z.value() - e.z.value(),
        c.x.value() - e.x.value(),
        c.y.value() - e.y.value(),
        c.z.value() - e.z.value(),
        d.x.value() - e.x.value(),
        d.y.value() - e.y.value(),
        d.z.value() - e.z.value(),
    )
}

/// The four exact predicates, behind a swappable implementation.
pub trait Predicates {
    /// Sidedness of `c` relative to the directed line `a -> b`.
    ///
    /// Positive when `a`, `b`, `c` turn counterclockwise, zero when they are
    /// collinear.
    fn orient2d(&self, a: Vec2, b: Vec2, c: Vec2) -> (o: Orientation)
        requires
            a.finite(),
            b.finite(),
            c.finite(),
        ensures
            o == orientation_of(orient2d_det(a, b, c)),
    ;

    /// Sidedness of `d` relative to the oriented plane through `a`, `b`, `c`.
    ///
    /// Positive when `d` lies below the plane, zero when all four are coplanar.
    fn orient3d(&self, a: Vec3, b: Vec3, c: Vec3, d: Vec3) -> (o: Orientation)
        requires
            a.finite(),
            b.finite(),
            c.finite(),
            d.finite(),
        ensures
            o == orientation_of(orient3d_det(a, b, c, d)),
    ;

    /// Whether `d` lies inside the circle through the counterclockwise points
    /// `a`, `b`, `c`.
    ///
    /// Positive means inside, zero cocircular.
    fn incircle(&self, a: Vec2, b: Vec2, c: Vec2, d: Vec2) -> (o: Orientation)
        requires
            a.finite(),
            b.finite(),
            c.finite(),
            d.finite(),
        ensures
            o == orientation_of(incircle_det(a, b, c, d)),
    ;

    /// Whether `e` lies inside the sphere through the positively oriented points
    /// `a`, `b`, `c`, `d`.
    ///
    /// Positive means inside, zero cospherical.
    fn insphere(&self, a: Vec3, b: Vec3, c: Vec3, d: Vec3, e: Vec3) -> (o: Orientation)
        requires
            a.finite(),
            b.finite(),
            c.finite(),
            d.finite(),
            e.finite(),
        ensures
            o == orientation_of(insphere_det(a, b, c, d, e)),
    ;
}

/// The default implementation: integer arithmetic of as many digits as it takes.
#[derive(Clone, Copy, Debug, PartialEq, Eq, Structural)]
pub struct Adaptive;

impl Default for Adaptive {
    fn default() -> (r: Self)
        ensures
            r == Adaptive,
    {
        Adaptive
    }
}

impl Predicates for Adaptive {
    fn orient2d(&self, a: Vec2, b: Vec2, c: Vec2) -> (o: Orientation) {
        exact::orient2d_sign(a, b, c)
    }

    fn orient3d(&self, a: Vec3, b: Vec3, c: Vec3, d: Vec3) -> (o: Orientation) {
        exact::orient3d_sign(a, b, c, d)
    }

    fn incircle(&self, a: Vec2, b: Vec2, c: Vec2, d: Vec2) -> (o: Orientation) {
        exact::incircle_sign(a, b, c, d)
    }

    fn insphere(&self, a: Vec3, b: Vec3, c: Vec3, d: Vec3, e: Vec3) -> (o: Orientation) {
        exact::insphere_sign(a, b, c, d, e)
    }
}

/// Sidedness of `c` relative to the directed line `a -> b`. See
/// [`Predicates::orient2d`].
pub fn orient2d(a: Vec2, b: Vec2, c: Vec2) -> (o: Orientation)
    requires
        a.finite(),
        b.finite(),
        c.finite(),
    ensures
        o == orientation_of(orient2d_det(a, b, c)),
{
    Adaptive.orient2d(a, b, c)
}

/// Sidedness of `d` relative to the plane through `a`, `b`, `c`. See
/// [`Predicates::orient3d`].
pub fn orient3d(a: Vec3, b: Vec3, c: Vec3, d: Vec3) -> (o: Orientation)
    requires
        a.finite(),
        b.finite(),
        c.finite(),
        d.finite(),
    ensures
        o == orientation_of(orient3d_det(a, b, c, d)),
{
    Adaptive.orient3d(a, b, c, d)
}

/// Whether `d` lies inside the circle through `a`, `b`, `c`. See
/// [`Predicates::incircle`].
pub fn incircle(a: Vec2, b: Vec2, c: Vec2, d: Vec2) -> (o: Orientation)
    requires
        a.finite(),
        b.finite(),
        c.finite(),
        d.finite(),
    ensures
        o == orientation_of(incircle_det(a, b, c, d)),
{
    Adaptive.incircle(a, b, c, d)
}

/// Whether `e` lies inside the sphere through `a`, `b`, `c`, `d`. See
/// [`Predicates::insphere`].
pub fn insphere(a: Vec3, b: Vec3, c: Vec3, d: Vec3, e: Vec3) -> (o: Orientation)
    requires
        a.finite(),
        b.finite(),
        c.finite(),
        d.finite(),
        e.finite(),
    ensures
        o == orientation_of(insphere_det(a, b, c, d, e)),
{
    Adaptive.insphere(a, b, c, d, e)
}

proof fn lemma_reversed(x: int)
    ensures
        orientation_of(-x) == orientation_of(x).reversed(),
{
}

/// Exchanging any two points of `orient2d` reverses it, and a repeated point is
/// degenerate.
pub proof fn law_orient2d_is_antisymmetric(a: Vec2, b: Vec2, c: Vec2)
    ensures
        orientation_of(orient2d_det(b, a, c)) == orientation_of(orient2d_det(a, b, c)).reversed(),
        orientation_of(orient2d_det(a, c, b)) == orientation_of(orient2d_det(a, b, c)).reversed(),
        orientation_of(orient2d_det(c, b, a)) == orientation_of(orient2d_det(a, b, c)).reversed(),
        orientation_of(orient2d_det(a, a, c)) == Orientation::Zero,
{
    let (ax, ay, bx, by, cx, cy) = (a.x.value(), a.y.value(), b.x.value(), b.y.value(), c.x.value(), c.y.value());
    let d = det2(ax - cx, ay - cy, bx - cx, by - cy);
    assert(det2(bx - cx, by - cy, ax - cx, ay - cy) == -d) by (nonlinear_arith)
        requires
            d == det2(ax - cx, ay - cy, bx - cx, by - cy),
    ;
    assert(det2(ax - bx, ay - by, cx - bx, cy - by) == -d) by (nonlinear_arith)
        requires
            d == det2(ax - cx, ay - cy, bx - cx, by - cy),
    ;
    assert(det2(cx - ax, cy - ay, bx - ax, by - ay) == -d) by (nonlinear_arith)
        requires
            d == det2(ax - cx, ay - cy, bx - cx, by - cy),
    ;
    assert(det2(ax - cx, ay - cy, ax - cx, ay - cy) == 0) by (nonlinear_arith);
    lemma_reversed(d);
}

proof fn lemma_det3_swap(
    px: int,
    py: int,
    pz: int,
    qx: int,
    qy: int,
    qz: int,
    rx: int,
    ry: int,
    rz: int,
)
    ensures
        det3(qx, qy, qz, px, py, pz, rx, ry, rz) == -det3(px, py, pz, qx, qy, qz, rx, ry, rz),
        det3(px, py, pz, rx, ry, rz, qx, qy, qz) == -det3(px, py, pz, qx, qy, qz, rx, ry, rz),
        det3(px, py, pz, px, py, pz, rx, ry, rz) == 0,
{
    lemma_det3_expanded(px, py, pz, qx, qy, qz, rx, ry, rz);
    lemma_det3_expanded(qx, qy, qz, px, py, pz, rx, ry, rz);
    lemma_det3_expanded(px, py, pz, rx, ry, rz, qx, qy, qz);
    lemma_det3_expanded(px, py, pz, px, py, pz, rx, ry, rz);
    lemma_triple(px, qy, rz);
    lemma_triple(px, qz, ry);
    lemma_triple(py, qx, rz);
    lemma_triple(py, qz, rx);
    lemma_triple(pz, qx, ry);
    lemma_triple(pz, qy, rx);
    lemma_triple(px, py, rz);
    lemma_triple(px, pz, ry);
    lemma_triple(py, pz, rx);
}

proof fn lemma_triple(a: int, b: int, c: int)
    ensures
        a * (b * c) == b * (a * c),
        a * (b * c) == a * (c * b),
{
    lemma_mul_is_associative(a, b, c);
    lemma_mul_is_associative(b, a, c);
    lemma_mul_is_commutative(a, b);
    lemma_mul_is_commutative(b, c);
}

/// The six products of a determinant of three rows.
proof fn lemma_det3_expanded(
    px: int,
    py: int,
    pz: int,
    qx: int,
    qy: int,
    qz: int,
    rx: int,
    ry: int,
    rz: int,
)
    ensures
        det3(px, py, pz, qx, qy, qz, rx, ry, rz) == px * (qy * rz) - px * (qz * ry) - py * (qx * rz) + py * (qz * rx) + pz
            * (qx * ry) - pz * (qy * rx),
{
    lemma_mul_is_distributive_sub(px, qy * rz, qz * ry);
    lemma_mul_is_distributive_sub(py, qx * rz, qz * rx);
    lemma_mul_is_distributive_sub(pz, qx * ry, qy * rx);
}

/// The determinant is linear in its first row, and odd in its last.
proof fn lemma_det3_linear(
    px: int,
    py: int,
    pz: int,
    ux: int,
    uy: int,
    uz: int,
    qx: int,
    qy: int,
    qz: int,
    rx: int,
    ry: int,
    rz: int,
)
    ensures
        det3(px - ux, py - uy, pz - uz, qx, qy, qz, rx, ry, rz) == det3(px, py, pz, qx, qy, qz, rx, ry, rz) - det3(
            ux,
            uy,
            uz,
            qx,
            qy,
            qz,
            rx,
            ry,
            rz,
        ),
        det3(px, py, pz, qx, qy, qz, -rx, -ry, -rz) == -det3(px, py, pz, qx, qy, qz, rx, ry, rz),
{
    let (a, b, c) = (det2(qy, qz, ry, rz), det2(qx, qz, rx, rz), det2(qx, qy, rx, ry));
    lemma_mul_is_distributive_sub_other_way(a, px, ux);
    lemma_mul_is_distributive_sub_other_way(b, py, uy);
    lemma_mul_is_distributive_sub_other_way(c, pz, uz);
    lemma_det2_negated(qy, qz, ry, rz);
    lemma_det2_negated(qx, qz, rx, rz);
    lemma_det2_negated(qx, qy, rx, ry);
    lemma_mul_unary_negation(px, a);
    lemma_mul_unary_negation(py, b);
    lemma_mul_unary_negation(pz, c);
}

proof fn lemma_det2_negated(px: int, py: int, qx: int, qy: int)
    ensures
        det2(px, py, -qx, -qy) == -det2(px, py, qx, qy),
{
    lemma_mul_unary_negation(px, qy);
    lemma_mul_unary_negation(py, qx);
}

/// Exchanging two neighbouring points of `orient3d` reverses it, and a repeated
/// point is degenerate.
pub proof fn law_orient3d_is_antisymmetric(a: Vec3, b: Vec3, c: Vec3, d: Vec3)
    ensures
        orientation_of(orient3d_det(b, a, c, d)) == orientation_of(orient3d_det(a, b, c, d)).reversed(),
        orientation_of(orient3d_det(a, c, b, d)) == orientation_of(orient3d_det(a, b, c, d)).reversed(),
        orientation_of(orient3d_det(a, b, d, c)) == orientation_of(orient3d_det(a, b, c, d)).reversed(),
        orientation_of(orient3d_det(a, a, c, d)) == Orientation::Zero,
{
    let (dx, dy, dz) = (d.x.value(), d.y.value(), d.z.value());
    let (ax, ay, az) = (a.x.value() - dx, a.y.value() - dy, a.z.value() - dz);
    let (bx, by, bz) = (b.x.value() - dx, b.y.value() - dy, b.z.value() - dz);
    let (cx, cy, cz) = (c.x.value() - dx, c.y.value() - dy, c.z.value() - dz);
    lemma_det3_swap(ax, ay, az, bx, by, bz, cx, cy, cz);
    lemma_det3_swap(ax, ay, az, ax, ay, az, cx, cy, cz);
    lemma_reversed(det3(ax, ay, az, bx, by, bz, cx, cy, cz));
    lemma_det3_origin(ax, ay, az, bx, by, bz, cx, cy, cz);
    assert(orient3d_det(a, b, d, c) == det3(ax - cx, ay - cy, az - cz, bx - cx, by - cy, bz - cz, -cx, -cy, -cz));
}

/// Moving the origin from `d` to `c`.
proof fn lemma_det3_origin(
    px: int,
    py: int,
    pz: int,
    qx: int,
    qy: int,
    qz: int,
    rx: int,
    ry: int,
    rz: int,
)
    ensures
        det3(px - rx, py - ry, pz - rz, qx - rx, qy - ry, qz - rz, -rx, -ry, -rz) == -det3(
            px,
            py,
            pz,
            qx,
            qy,
            qz,
            rx,
            ry,
            rz,
        ),
{
    let (ux, uy, uz) = (qx - rx, qy - ry, qz - rz);
    // the first row loses r, which the other two rows make degenerate
    lemma_det3_linear(px, py, pz, rx, ry, rz, ux, uy, uz, -rx, -ry, -rz);
    lemma_det3_swap(rx, ry, rz, ux, uy, uz, -rx, -ry, -rz);
    lemma_det3_linear(qx, qy, qz, rx, ry, rz, rx, ry, rz, -rx, -ry, -rz);
    lemma_det3_swap(rx, ry, rz, rx, ry, rz, -rx, -ry, -rz);
    lemma_det3_linear(qx, qy, qz, rx, ry, rz, rx, ry, rz, rx, ry, rz);
    lemma_det3_swap(qx, qy, qz, rx, ry, rz, rx, ry, rz);
    // and so does the second row
    lemma_det3_swap(px, py, pz, ux, uy, uz, -rx, -ry, -rz);
    lemma_det3_linear(qx, qy, qz, rx, ry, rz, px, py, pz, -rx, -ry, -rz);
    lemma_det3_swap(qx, qy, qz, px, py, pz, -rx, -ry, -rz);
    lemma_det3_linear(px, py, pz, rx, ry, rz, qx, qy, qz, rx, ry, rz);
    lemma_det3_linear(rx, ry, rz, rx, ry, rz, px, py, pz, rx, ry, rz);
    lemma_det3_swap(rx, ry, rz, px, py, pz, rx, ry, rz);
    lemma_det3_swap(rx, ry, rz, rx, ry, rz, px, py, pz);
}

/// An orientation survives being written as a character and read back.
pub proof fn law_letters_are_distinct(a: Orientation, b: Orientation)
    ensures
        a.letter() == b.letter() <==> a == b,
{
}

} // verus!
