//! Which points of a ray a level arc passes, by exact cross products.

use crate::arithmetic::{difference, product, quotient};
use crate::double::{Double, HIDDEN, INFINITY_BITS, SIGN};
use crate::error_bounds::{
    law_difference_error, law_product_is_under, law_quotient_error, law_sum_is_under, law_two_products_difference_error,
    lemma_magnitude_not_negative, lemma_size_of_product, parts, size, under, whole,
};
use crate::math::{Ray, Vec2, Vec3};
use crate::mesh::sphere::lemma_rounds_at_most;
use crate::order::law_order_is_value_order;
use crate::spans::Span;
use crate::sweep::arc::{common, half_line, listed, side_of_boundary, wedge_of, ArcMove, DEGENERATE};
use vstd::arithmetic::mul::*;
use vstd::arithmetic::power2::{lemma_pow2_adds, lemma_pow2_pos, lemma_pow2_strictly_increases, pow2};
use vstd::prelude::*;

verus! {

/// The parameter lies in the interval.
pub open spec fn holds(s: Span, t: Double) -> bool {
    s.t0.le(t) && t.le(s.t1)
}

/// The parameter lies in some of the intervals.
pub open spec fn covers(v: Seq<Span>, t: Double) -> bool {
    exists|i: int| 0 <= i < v.len() && holds(#[trigger] v[i], t)
}

/// Coordinates in the plane that are far from overflowing.
pub open spec fn moderate_plane(x: Double, y: Double) -> bool {
    under(x, 1274) && under(y, 1274)
}

/// Twice the signed area that a direction spans with the way from the centre of an
/// arc to the point of a ray at a parameter, exactly: not negative on its left.
#[verifier::opaque]
pub open spec fn left_of(u: Vec2, center: Vec3, ray: Ray, t: Double) -> int {
    let (x, y) = (ray.origin.x.value() - center.x.value(), ray.origin.y.value() - center.y.value());
    (u.x.value() * y - u.y.value() * x) * whole() + t.value() * (u.x.value() * ray.direction.y.value() - u.y.value()
        * ray.direction.x.value())
}

/// What the terms of the area come to without their signs, at the origin of the
/// ray.
pub open spec fn start_weight(u: Vec2, center: Vec3, ray: Ray) -> int {
    size(u.x.value() * (ray.origin.y.value() - center.y.value())) + size(
        u.y.value() * (ray.origin.x.value() - center.x.value()),
    )
}

/// The same, of how the area changes along the ray.
pub open spec fn rate_weight(u: Vec2, ray: Ray) -> int {
    size(u.x.value() * ray.direction.y.value()) + size(u.y.value() * ray.direction.x.value())
}

/// How small the area may be, times [`parts`], for rounding to decide its sign: a
/// few parts of its terms, and what is lost where a rate counts as none.
#[verifier::opaque]
pub open spec fn area_doubt(u: Vec2, center: Vec3, ray: Ray, t: Double) -> int {
    let w = whole();
    let k = parts();
    w * (16 * start_weight(u, center, ray) + 4 * k * w) + size(t.value()) * (3 * rate_weight(u, ray) + 2 * k * w + k * (
    Double { bits: DEGENERATE }).value() * w) + k * (2 * rate_weight(u, ray) + w)
}

/// The exact value of `a + t * b`.
spec fn line_at(a: Double, b: Double, t: Double) -> int {
    a.value() * whole() + t.value() * b.value()
}

/// What a half-line may get wrong, times [`parts`].
spec fn line_doubt(a: Double, b: Double, t: Double) -> int {
    size(a.value()) * whole() + HIDDEN * size(b.value()) + size(t.value()) * (Double { bits: DEGENERATE }).value()
        * parts()
}

pub(crate) proof fn lemma_degenerate()
    ensures
        ({
            let g = Double { bits: DEGENERATE };
            g.finite() && !g.signed() && g.magnitude() >= pow2(1034) && g.value() == g.magnitude()
        }),
{
    let g = Double { bits: DEGENERATE };
    let h = HIDDEN as int;
    crate::rounding::lemma_pow2_53();
    lemma_pow2_pos(982);
    assert(g.abs_bits() == 0x3d71_9799_812d_ea11);
    assert(0x3d71_9799_812d_ea11int / h == 983);
    let f = 0x3d71_9799_812d_ea11int % h;
    assert(g.magnitude() == (h + f) * pow2(982));
    assert((h + f) * pow2(982) >= h * pow2(982)) by (nonlinear_arith)
        requires
            f >= 0,
            pow2(982) > 0,
    ;
    lemma_pow2_adds(52, 982);
}

/// A half-line holds the parameters at which the line is positive, and no others,
/// but for what rounding decides.
proof fn lemma_half_line(a: Double, b: Double, t: Double)
    requires
        under(a, 1600),
        under(b, 1600),
        t.finite(),
    ensures
        line_at(a, b, t) * parts() > line_doubt(a, b, t) ==> (half_line(a, b) matches Some(s) && s.t0.lt(t) && t.lt(s.t1)),
        line_at(a, b, t) * parts() < -line_doubt(a, b, t) ==> !(half_line(a, b) matches Some(s) && holds(s, t)),
        half_line(a, b) matches Some(s) ==> !s.t0.nan() && !s.t1.nan(),
{
    let g = Double { bits: DEGENERATE };
    let zero = Double { bits: 0 };
    let w = whole();
    let k = parts();
    let f = line_at(a, b, t);
    lemma_degenerate();
    lemma_pow2_pos(1074);
    lemma_pow2_pos(1034);
    lemma_magnitude_not_negative(a);
    lemma_magnitude_not_negative(b);
    lemma_magnitude_not_negative(t);
    lemma_magnitude_not_negative(zero);
    assert(b.absolute().finite() && b.absolute().value() == b.magnitude());
    law_order_is_value_order(b.absolute(), g);
    law_order_is_value_order(zero, a);
    law_order_is_value_order(zero, b);
    let (av, bv, tv, gv) = (a.value(), b.value(), t.value(), g.value());
    assert(size(tv) * gv * k >= 0 && size(av) * w >= 0 && HIDDEN * size(bv) >= 0) by (nonlinear_arith)
        requires
            size(tv) >= 0,
            gv > 0,
            k > 0,
            size(av) >= 0,
            w > 0,
            size(bv) >= 0,
            HIDDEN as int > 0,
    ;
    if b.absolute().le(g) {
        lemma_size_of_product(tv, bv);
        assert(size(tv * bv) * k <= size(tv) * gv * k) by (nonlinear_arith)
            requires
                size(tv * bv) == size(tv) * size(bv),
                size(bv) <= gv,
                size(tv) >= 0,
                k > 0,
        ;
        assert(f * k == (av * w) * k + (tv * bv) * k) by (nonlinear_arith)
            requires
                f == av * w + tv * bv,
        ;
        assert(size((tv * bv) * k) == size(tv * bv) * k) by {
            lemma_size_of_product(tv * bv, k);
        }
        assert(av > 0 ==> av * w > 0) by (nonlinear_arith)
            requires
                w > 0,
        ;
        assert(av <= 0 ==> (av * w) * k <= 0) by (nonlinear_arith)
            requires
                w > 0,
                k > 0,
        ;
        assert(av >= 0 ==> (av * w) * k >= 0) by (nonlinear_arith)
            requires
                w > 0,
                k > 0,
        ;
        let low = Double { bits: (INFINITY_BITS + SIGN) as u64 };
        assert(low.abs_bits() == INFINITY_BITS && low.signed());
        assert(t.abs_bits() < INFINITY_BITS);
    } else {
        let c = quotient(a.negated(), b);
        assert(a.negated().abs_bits() == a.abs_bits() && a.negated().signed() == !a.signed());
        assert(a.negated().value() == -av);
        lemma_crossing_is_finite(a, b);
        law_quotient_error(a.negated(), b);
        law_order_is_value_order(t, c);
        law_order_is_value_order(c, t);
        let cv = c.value();
        assert((-av) * w == -(av * w)) by (nonlinear_arith);
        assert(size(-av) == size(av));
        let e = cv * bv + av * w;
        assert(size(e) * k <= size(av) * w + HIDDEN * size(bv));
        assert(f == e + (tv - cv) * bv) by (nonlinear_arith)
            requires
                f == av * w + tv * bv,
                e == cv * bv + av * w,
        ;
        assert(f * k == e * k + ((tv - cv) * bv) * k) by (nonlinear_arith)
            requires
                f == e + (tv - cv) * bv,
        ;
        lemma_size_of_product(e, k);
        assert(size(e * k) == size(e) * k);
        let j = ((tv - cv) * bv) * k;
        assert(bv > 0 && tv <= cv ==> j <= 0) by (nonlinear_arith)
            requires
                j == ((tv - cv) * bv) * k,
                k > 0,
        ;
        assert(bv > 0 && tv >= cv ==> j >= 0) by (nonlinear_arith)
            requires
                j == ((tv - cv) * bv) * k,
                k > 0,
        ;
        assert(bv < 0 && tv >= cv ==> j <= 0) by (nonlinear_arith)
            requires
                j == ((tv - cv) * bv) * k,
                k > 0,
        ;
        assert(bv < 0 && tv <= cv ==> j >= 0) by (nonlinear_arith)
            requires
                j == ((tv - cv) * bv) * k,
                k > 0,
        ;
        let low = Double { bits: (INFINITY_BITS + SIGN) as u64 };
        assert(low.abs_bits() == INFINITY_BITS && low.signed());
        assert(t.abs_bits() < INFINITY_BITS);
    }
}

pub(crate) proof fn lemma_crossing_is_finite(a: Double, b: Double)
    requires
        under(a, 1600),
        b.finite(),
        b.magnitude() >= pow2(1034),
    ensures
        quotient(a.negated(), b).finite(),
        !b.zero(),
{
    lemma_pow2_pos(1074);
    lemma_pow2_pos(1034);
    lemma_magnitude_not_negative(a);
    lemma_magnitude_not_negative(b);
    assert(a.negated().abs_bits() == a.abs_bits());
    let n = a.magnitude() * whole();
    lemma_pow2_adds(1600, 1074);
    lemma_pow2_adds(1640, 1034);
    lemma_pow2_pos(1640);
    assert(0 <= n <= pow2(1640) * b.magnitude()) by (nonlinear_arith)
        requires
            n == a.magnitude() * whole(),
            0 <= a.magnitude() <= pow2(1600),
            whole() > 0,
            pow2(1600) * whole() == pow2(1640) * pow2(1034),
            b.magnitude() >= pow2(1034),
            pow2(1640) > 0,
    ;
    lemma_rounds_at_most(a.negated().signed() != b.signed(), n, b.magnitude(), 1640);
}

/// A product with a rounded offset, against the product with the exact one.
proof fn lemma_offset_product(u: int, o: int, e: int)
    requires
        size(o - e) * parts() <= size(e),
    ensures
        size(u * o) <= 2 * size(u * e),
        size(u * o - u * e) * parts() <= size(u * e),
{
    let k = parts();
    lemma_size_of_product(u, o);
    lemma_size_of_product(u, e);
    lemma_size_of_product(u, o - e);
    lemma_mul_is_distributive_sub(u, o, e);
    assert(size(o - e) <= size(o - e) * k) by (nonlinear_arith)
        requires
            size(o - e) >= 0,
            k >= 1,
    ;
    assert(size(o) <= 2 * size(e));
    assert(size(u) * size(o) <= 2 * (size(u) * size(e))) by (nonlinear_arith)
        requires
            size(u) >= 0,
            size(o) <= 2 * size(e),
    ;
    assert(size(u) * size(o - e) * k <= size(u) * size(e)) by (nonlinear_arith)
        requires
            size(u) >= 0,
            size(o - e) * k <= size(e),
    ;
}

/// A rounded area with rounded offsets, against the exact one.
proof fn lemma_area_error(a: int, ux: int, uy: int, ox: int, oy: int, ex: int, ey: int, w: int)
    requires
        size(ox - ex) * parts() <= size(ex),
        size(oy - ey) * parts() <= size(ey),
        size(a * w - (ux * oy - uy * ox)) * parts() <= 3 * (size(ux * oy) + size(uy * ox)) + 2 * parts() * w,
    ensures
        size(a * w - (ux * ey - uy * ex)) * parts() <= 7 * (size(ux * ey) + size(uy * ex)) + 2 * parts() * w,
{
    let k = parts();
    lemma_offset_product(ux, oy, ey);
    lemma_offset_product(uy, ox, ex);
    let (f, g) = (ux * oy - ux * ey, uy * ox - uy * ex);
    let e = a * w - (ux * oy - uy * ox);
    let d = a * w - (ux * ey - uy * ex);
    assert(d == e + f - g);
    assert(size(d) <= size(e) + size(f) + size(g));
    assert(size(d) * k <= size(e) * k + size(f) * k + size(g) * k) by (nonlinear_arith)
        requires
            size(d) <= size(e) + size(f) + size(g),
            k > 0,
    ;
}

/// What rounding the area and its rate means for the area at a parameter.
proof fn lemma_area_at(a: int, b: int, t: int, g: int, area: int, rate: int, ha: int, hb: int, w: int)
    requires
        w > 0,
        g >= 0,
        size(area) <= ha,
        size(rate) <= hb,
        size(a * w - area) * parts() <= 7 * ha + 2 * parts() * w,
        size(b * w - rate) * parts() <= 3 * hb + 2 * parts() * w,
    ensures
        ({
            let k = parts();
            let f = a * w + t * b;
            let exact = area * w + t * rate;
            let line = size(a) * w + HIDDEN * size(b) + size(t) * g * k;
            let doubt = w * (16 * ha + 4 * k * w) + size(t) * (3 * hb + 2 * k * w + k * g * w) + k * (2 * hb + w);
            &&& exact * k > doubt ==> f * k > line
            &&& exact * k < -doubt ==> f * k < -line
        }),
{
    let k = parts();
    let h = HIDDEN as int;
    let f = a * w + t * b;
    let exact = area * w + t * rate;
    let line = size(a) * w + h * size(b) + size(t) * g * k;
    let (e1, e2) = (a * w - area, b * w - rate);
    let ts = size(t);
    assert(f * w - exact == e1 * w + t * e2) by (nonlinear_arith)
        requires
            f == a * w + t * b,
            exact == area * w + t * rate,
            e1 == a * w - area,
            e2 == b * w - rate,
    ;
    lemma_size_of_product(e1, w);
    lemma_size_of_product(t, e2);
    lemma_size_of_product(a, w);
    lemma_size_of_product(b, w);
    let gap = size(f * w - exact);
    assert(gap <= size(e1) * w + ts * size(e2));
    assert(gap * k <= (size(e1) * k) * w + ts * (size(e2) * k)) by (nonlinear_arith)
        requires
            gap <= size(e1) * w + ts * size(e2),
            k > 0,
    ;
    let (c1, c2) = (7 * ha + 2 * k * w, 3 * hb + 2 * k * w);
    assert((size(e1) * k) * w <= c1 * w && ts * (size(e2) * k) <= ts * c2) by (nonlinear_arith)
        requires
            size(e1) * k <= c1,
            size(e2) * k <= c2,
            w > 0,
            ts >= 0,
    ;
    assert(size(e1) <= 7 * ha + 2 * w) by (nonlinear_arith)
        requires
            size(e1) * k <= 7 * ha + 2 * k * w,
            k >= 1,
            ha >= 0,
            size(e1) >= 0,
    ;
    assert(size(e2) <= 3 * hb + 2 * w) by (nonlinear_arith)
        requires
            size(e2) * k <= 3 * hb + 2 * k * w,
            k >= 1,
            hb >= 0,
            size(e2) >= 0,
    ;
    assert(size(a) * w <= 8 * ha + 2 * w);
    assert(size(b) * w <= 4 * hb + 2 * w);
    assert(line * w == (size(a) * w) * w + h * (size(b) * w) + ts * g * k * w) by (nonlinear_arith)
        requires
            line == size(a) * w + h * size(b) + ts * g * k,
    ;
    assert((size(a) * w) * w <= (8 * ha + 2 * w) * w && h * (size(b) * w) <= h * (4 * hb + 2 * w)) by (nonlinear_arith)
        requires
            size(a) * w <= 8 * ha + 2 * w,
            size(b) * w <= 4 * hb + 2 * w,
            w > 0,
            h > 0,
    ;
    let doubt = w * (16 * ha + 4 * k * w) + ts * (3 * hb + 2 * k * w + k * g * w) + k * (2 * hb + w);
    assert(ts * (3 * hb + 2 * k * w + k * g * w) == ts * c2 + ts * g * k * w) by (nonlinear_arith)
        requires
            c2 == 3 * hb + 2 * k * w,
    ;
    assert(h * (4 * hb + 2 * w) == k * (2 * hb + w)) by (nonlinear_arith)
        requires
            k == 2 * h,
    ;
    assert(w * (16 * ha + 4 * k * w) >= c1 * w + (8 * ha + 2 * w) * w) by (nonlinear_arith)
        requires
            c1 == 7 * ha + 2 * k * w,
            w > 0,
            ha >= 0,
            k >= 1,
    ;
    assert(doubt >= gap * k + line * w);
    assert((f * w) * k == (f * k) * w) by (nonlinear_arith);
    assert(size((f * w - exact) * k) == gap * k) by {
        lemma_size_of_product(f * w - exact, k);
    }
    assert((f * w - exact) * k == (f * w) * k - exact * k) by (nonlinear_arith);
    if exact * k > doubt {
        assert((f * k) * w > line * w);
        assert(f * k > line) by (nonlinear_arith)
            requires
                (f * k) * w > line * w,
                w > 0,
        ;
    }
    if exact * k < -doubt {
        assert((-line) * w == -(line * w)) by (nonlinear_arith);
        assert((f * k) * w < (-line) * w);
        assert(f * k < -line) by (nonlinear_arith)
            requires
                (f * k) * w < (-line) * w,
                w > 0,
        ;
    }
}

/// A boundary through the centre holds the parameters at which the ray is on its
/// side, and no others, but for what rounding decides.
proof fn lemma_side(u: Vec2, center: Vec3, ray: Ray, t: Double, left: bool)
    requires
        moderate_plane(u.x, u.y),
        moderate_plane(center.x, center.y),
        moderate_plane(ray.origin.x, ray.origin.y),
        moderate_plane(ray.direction.x, ray.direction.y),
        t.finite(),
    ensures
        ({
            let side = side_of_boundary(
                u,
                difference(ray.origin.x, center.x),
                difference(ray.origin.y, center.y),
                ray,
                left,
            );
            let exact = if left {
                left_of(u, center, ray, t)
            } else {
                -left_of(u, center, ray, t)
            };
            let doubt = area_doubt(u, center, ray, t);
            &&& exact * parts() > doubt ==> (side matches Some(s) && s.t0.lt(t) && t.lt(s.t1))
            &&& exact * parts() < -doubt ==> !(side matches Some(s) && holds(s, t))
            &&& numeric(side)
        }),
{
    reveal(left_of);
    reveal(area_doubt);
    let w = whole();
    let d = ray.direction;
    let (ox, oy) = (difference(ray.origin.x, center.x), difference(ray.origin.y, center.y));
    let (ex, ey) = (ray.origin.x.value() - center.x.value(), ray.origin.y.value() - center.y.value());
    lemma_pow2_pos(1074);
    lemma_degenerate();
    law_sum_is_under(ray.origin.x, center.x, 1274);
    law_sum_is_under(ray.origin.y, center.y, 1274);
    law_difference_error(ray.origin.x, center.x);
    law_difference_error(ray.origin.y, center.y);
    lemma_weaken(u.x, 1274, 1275);
    lemma_weaken(u.y, 1274, 1275);
    lemma_weaken(d.x, 1274, 1275);
    lemma_weaken(d.y, 1274, 1275);
    let (ux, uy) = (u.x.value(), u.y.value());
    let (dx, dy) = (d.x.value(), d.y.value());
    let (ha, hb) = (start_weight(u, center, ray), rate_weight(u, ray));
    let (area, rate) = (ux * ey - uy * ex, ux * dy - uy * dx);
    let g = (Double { bits: DEGENERATE }).value();
    let tv = t.value();
    if left {
        let a = difference(product(u.x, oy), product(u.y, ox));
        let b = difference(product(u.x, d.y), product(u.y, d.x));
        lemma_area_is_under(u.x, oy, u.y, ox);
        lemma_area_is_under(u.x, d.y, u.y, d.x);
        law_two_products_difference_error(u.x, oy, u.y, ox);
        law_two_products_difference_error(u.x, d.y, u.y, d.x);
        lemma_area_error(a.value(), ux, uy, ox.value(), oy.value(), ex, ey, w);
        lemma_area_at(a.value(), b.value(), tv, g, area, rate, ha, hb, w);
        lemma_half_line(a, b, t);
    } else {
        let a = difference(product(ox, u.y), product(oy, u.x));
        let b = difference(product(d.x, u.y), product(d.y, u.x));
        lemma_area_is_under(ox, u.y, oy, u.x);
        lemma_area_is_under(d.x, u.y, d.y, u.x);
        law_two_products_difference_error(ox, u.y, oy, u.x);
        law_two_products_difference_error(d.x, u.y, d.y, u.x);
        lemma_mul_is_commutative(ox.value(), uy);
        lemma_mul_is_commutative(oy.value(), ux);
        lemma_mul_is_commutative(dx, uy);
        lemma_mul_is_commutative(dy, ux);
        lemma_area_error(a.value(), uy, ux, oy.value(), ox.value(), ey, ex, w);
        lemma_area_at(a.value(), b.value(), tv, g, -area, -rate, ha, hb, w);
        assert((-area) * w + tv * (-rate) == -(area * w + tv * rate)) by (nonlinear_arith);
        lemma_half_line(a, b, t);
    }
}

proof fn lemma_weaken(x: Double, lo: nat, hi: nat)
    requires
        under(x, lo),
        lo < hi,
    ensures
        under(x, hi),
{
    lemma_pow2_strictly_increases(lo, hi);
}

proof fn lemma_area_is_under(a: Double, b: Double, c: Double, d: Double)
    requires
        under(a, 1275) && under(b, 1275) && under(c, 1275) && under(d, 1275),
    ensures
        product(a, b).finite(),
        product(c, d).finite(),
        under(difference(product(a, b), product(c, d)), 1600),
{
    law_product_is_under(a, b, 1275, 1275);
    law_product_is_under(c, d, 1275, 1275);
    law_sum_is_under(product(a, b), product(c, d), 1476);
    lemma_weaken(difference(product(a, b), product(c, d)), 1477, 1600);
}

/// Which points of a ray have a bearing in the swept wedge, whose boundaries are
/// swept counter-clockwise from `first` to `second`. After a whole turn all have;
/// up to half a turn those to the left of the first and to the right of the second
/// boundary; beyond that those which are either. The sides are those of the exact
/// areas. Only where such an area is within what rounding may lose of it does the
/// law leave open which side the point counts to.
pub proof fn law_wedge_holds_the_swept_bearings(arc: ArcMove, ray: Ray, first: Vec2, second: Vec2, t: Double)
    requires
        moderate_plane(first.x, first.y),
        moderate_plane(second.x, second.y),
        moderate_plane(arc.center.x, arc.center.y),
        moderate_plane(ray.origin.x, ray.origin.y),
        moderate_plane(ray.direction.x, ray.direction.y),
        t.finite(),
    ensures
        ({
            let v = wedge_of(arc, ray, first, second);
            let behind_first = left_of(first, arc.center, ray, t) * parts();
            let before_second = -left_of(second, arc.center, ray, t) * parts();
            let (p, q) = (area_doubt(first, arc.center, ray, t), area_doubt(second, arc.center, ray, t));
            let pi = Double { bits: 0x4009_21fb_5444_2d18 };
            let turn = Double { bits: 0x4019_21fb_5444_2d18 };
            if turn.le(arc.sweep.absolute()) {
                covers(v, t)
            } else if arc.sweep.absolute().le(pi) {
                &&& behind_first > p && before_second > q ==> covers(v, t)
                &&& behind_first < -p || before_second < -q ==> !covers(v, t)
            } else {
                &&& behind_first > p || before_second > q ==> covers(v, t)
                &&& behind_first < -p && before_second < -q ==> !covers(v, t)
            }
        }),
{
    lemma_side(first, arc.center, ray, t, true);
    lemma_side(second, arc.center, ray, t, false);
    lemma_wedge_by_sides(arc, ray, first, second, t);
}

/// The parameter lies in the interval, if there is one.
spec fn within(s: Option<Span>, t: Double) -> bool {
    s matches Some(x) && holds(x, t)
}

/// The parameter lies between the ends of the interval, if there is one.
spec fn strictly_within(s: Option<Span>, t: Double) -> bool {
    s matches Some(x) && x.t0.lt(t) && t.lt(x.t1)
}

/// No end of the interval is a NaN.
spec fn numeric(s: Option<Span>) -> bool {
    s matches Some(x) ==> !x.t0.nan() && !x.t1.nan()
}

/// What the wedge holds, by what lies beside its boundaries.
proof fn lemma_wedge_by_sides(arc: ArcMove, ray: Ray, first: Vec2, second: Vec2, t: Double)
    requires
        t.finite(),
        ({
            let (ox, oy) = (difference(ray.origin.x, arc.center.x), difference(ray.origin.y, arc.center.y));
            numeric(side_of_boundary(first, ox, oy, ray, true)) && numeric(side_of_boundary(second, ox, oy, ray, false))
        }),
    ensures
        ({
            let v = wedge_of(arc, ray, first, second);
            let (ox, oy) = (difference(ray.origin.x, arc.center.x), difference(ray.origin.y, arc.center.y));
            let after = side_of_boundary(first, ox, oy, ray, true);
            let before = side_of_boundary(second, ox, oy, ray, false);
            if (Double { bits: 0x4019_21fb_5444_2d18 }).le(arc.sweep.absolute()) {
                covers(v, t)
            } else if arc.sweep.absolute().le(Double { bits: 0x4009_21fb_5444_2d18 }) {
                &&& strictly_within(after, t) && strictly_within(before, t) ==> covers(v, t)
                &&& covers(v, t) ==> within(after, t) && within(before, t)
            } else {
                covers(v, t) <==> within(after, t) || within(before, t)
            }
        }),
{
    let v = wedge_of(arc, ray, first, second);
    let (ox, oy) = (difference(ray.origin.x, arc.center.x), difference(ray.origin.y, arc.center.y));
    let after = side_of_boundary(first, ox, oy, ray, true);
    let before = side_of_boundary(second, ox, oy, ray, false);
    let low = Double { bits: (INFINITY_BITS + SIGN) as u64 };
    assert(low.abs_bits() == INFINITY_BITS && low.signed());
    assert(t.abs_bits() < INFINITY_BITS);
    if (Double { bits: 0x4019_21fb_5444_2d18 }).le(arc.sweep.absolute()) {
        assert(holds(v[0], t));
    } else if arc.sweep.absolute().le(Double { bits: 0x4009_21fb_5444_2d18 }) {
        if let Some(a) = after {
            if let Some(b) = before {
                assert(v == common(a, b));
                if strictly_within(after, t) && strictly_within(before, t) {
                    assert(holds(v[0], t));
                }
            }
        }
    } else {
        assert(v == listed(after) + listed(before));
        if let Some(a) = after {
            assert(v[0] == a);
            assert(holds(v[0], t) == within(after, t));
        }
        if let Some(b) = before {
            assert(v[v.len() - 1] == b);
            assert(holds(v[v.len() - 1], t) == within(before, t));
        }
    }
}

} // verus!
