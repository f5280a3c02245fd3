//! What a ray meets of a disc, how long a vector is, and where an arc goes, told by
//! the geometry.

use crate::arithmetic::{difference, product, quotient, sum};
use crate::double::{Double, HIDDEN};
use crate::error_bounds::{
    law_product_error, law_product_is_under, law_quotient_error, law_root_error, law_signs_multiply, law_sum_error, law_sum_is_under,
    law_two_products_error, lemma_magnitude_not_negative, lemma_size_of_product, parts, size, under, whole,
};
use crate::exactness::{
    is_whole, law_roots_of_squares_are_exact, law_short_products_are_exact, law_short_quotients_are_exact,
    law_short_sums_are_exact, law_units_are_ordered,
};
use crate::math::Ray;
use crate::order::law_rounding_keeps_order;
use crate::spans::Span;
use crate::sweep::arc::{chord_of, ArcMove, ArcPlane, DEGENERATE};
use crate::sweep::horizontal::{dot2, rescaled, PrismRay};
use crate::sweep::plane_length;
use crate::square_root::root;
use vstd::arithmetic::mul::*;
use vstd::arithmetic::power2::{lemma_pow2_pos, lemma_pow2_strictly_increases, pow2};
use vstd::prelude::*;

verus! {

/// An integer of at most twenty-one bits.
pub open spec fn modest(k: int) -> bool {
    -0x10_0000 <= k <= 0x10_0000
}

proof fn lemma_products_of_modest(a: int, b: int)
    requires
        -0x40_0000 <= a <= 0x40_0000,
        -0x40_0000 <= b <= 0x40_0000,
    ensures
        -0x1000_0000_0000 <= a * b <= 0x1000_0000_0000,
{
    assert(-0x1000_0000_0000 <= a * b <= 0x1000_0000_0000) by (nonlinear_arith)
        requires
            -0x40_0000 <= a <= 0x40_0000,
            -0x40_0000 <= b <= 0x40_0000,
    ;
}

/// The square of the distance from the origin, along a line.
pub(crate) proof fn lemma_along_line(ox: int, oy: int, dx: int, dy: int, t: int)
    ensures
        ({
            let (x, y) = (ox + t * dx, oy + t * dy);
            x * x + y * y == (ox * ox + oy * oy) + 2 * (t * (ox * dx + oy * dy)) + (t * t) * (dx * dx + dy * dy)
        }),
{
    let (u, v) = (t * dx, t * dy);
    assert((ox + u) * (ox + u) == ox * ox + 2 * (ox * u) + u * u) by (nonlinear_arith);
    assert((oy + v) * (oy + v) == oy * oy + 2 * (oy * v) + v * v) by (nonlinear_arith);
    assert(ox * (t * dx) == t * (ox * dx)) by (nonlinear_arith);
    assert(oy * (t * dy) == t * (oy * dy)) by (nonlinear_arith);
    assert((t * dx) * (t * dx) == (t * t) * (dx * dx)) by (nonlinear_arith);
    assert((t * dy) * (t * dy) == (t * t) * (dy * dy)) by (nonlinear_arith);
    lemma_mul_is_distributive_add(t, ox * dx, oy * dy);
    lemma_mul_is_distributive_add(t * t, dx * dx, dy * dy);
}

/// A line that meets a circle at two parameters is nearest the centre in the middle
/// between them.
pub(crate) proof fn lemma_middle_of_chord(ox: int, oy: int, dx: int, dy: int, r: int, c: int, h: int)
    requires
        h > 0,
        on_circle(ox, oy, dx, dy, r, c - h),
        on_circle(ox, oy, dx, dy, r, c + h),
    ensures
        ({
            let s = dx * dx + dy * dy;
            let (x, y) = (ox + c * dx, oy + c * dy);
            &&& ox * dx + oy * dy == -(c * s)
            &&& x * x + y * y == r * r - (h * h) * s
        }),
{
    let s = dx * dx + dy * dy;
    let b = ox * dx + oy * dy;
    lemma_along_line(ox, oy, dx, dy, c - h);
    lemma_along_line(ox, oy, dx, dy, c + h);
    lemma_along_line(ox, oy, dx, dy, c);
    assert((c - h) * b == c * b - h * b && (c + h) * b == c * b + h * b) by (nonlinear_arith);
    assert((c - h) * (c - h) == c * c - 2 * (c * h) + h * h && (c + h) * (c + h) == c * c + 2 * (c * h) + h * h)
        by (nonlinear_arith);
    let (cc, ch, hh) = (c * c, c * h, h * h);
    assert((cc - 2 * ch + hh) * s == cc * s - 2 * (ch * s) + hh * s && (cc + 2 * ch + hh) * s == cc * s + 2 * (ch * s) + hh
        * s) by (nonlinear_arith);
    assert(h * b + ch * s == 0);
    assert((c * h) * s == h * (c * s)) by (nonlinear_arith);
    let cs = c * s;
    assert(b == -cs) by (nonlinear_arith)
        requires
            h > 0,
            h * b + h * cs == 0,
    ;
    assert(c * b == -(c * (c * s))) by (nonlinear_arith)
        requires
            b == -(c * s),
    ;
    assert(c * (c * s) == (c * c) * s) by (nonlinear_arith);
}

/// The point of a line at a parameter is on the circle about the origin.
pub open spec fn on_circle(ox: int, oy: int, dx: int, dy: int, r: int, t: int) -> bool {
    (ox + t * dx) * (ox + t * dx) + (oy + t * dy) * (oy + t * dy) == r * r
}

/// A disc cuts from a ray the chord between the two parameters at which the ray is on
/// the circle: where coordinates, length and parameters are integers, exactly.
pub proof fn law_chord_ends_on_the_circle(
    center: (Double, Double),
    ray: Ray,
    radius: Double,
    k: (int, int),
    o: (int, int),
    d: (int, int),
    r: int,
    s: int,
    c: int,
    h: int,
)
    requires
        is_whole(center.0, k.0) && is_whole(center.1, k.1) && is_whole(radius, r),
        is_whole(ray.origin.x, o.0) && is_whole(ray.origin.y, o.1),
        is_whole(ray.direction.x, d.0) && is_whole(ray.direction.y, d.1),
        modest(k.0) && modest(k.1) && modest(o.0) && modest(o.1) && modest(d.0) && modest(d.1),
        modest(r) && modest(c) && 0 < h && modest(h) && 0 < s && modest(s),
        s * s == d.0 * d.0 + d.1 * d.1,
        on_circle(o.0 - k.0, o.1 - k.1, d.0, d.1, r, c - h),
        on_circle(o.0 - k.0, o.1 - k.1, d.0, d.1, r, c + h),
    ensures
        chord_of(center.0, center.1, ray, radius) matches Some(x) && is_whole(x.t0, c - h) && is_whole(x.t1, c + h),
{
    let (kx, ky) = (o.0 - k.0, o.1 - k.1);
    lemma_middle_of_chord(kx, ky, d.0, d.1, r, c, h);
    let (x, y) = (kx + c * d.0, ky + c * d.1);
    assert((h * h) * (s * s) == (h * s) * (h * s)) by (nonlinear_arith);
    lemma_foot(center, ray, radius, k, o, d, r, s, c, h * s);
    assert(h * s > 0) by (nonlinear_arith)
        requires
            h > 0,
            s > 0,
    ;
    assert(x * x >= 0 && y * y >= 0) by (nonlinear_arith);
    let hs = h * s;
    assert(hs <= 0x10_0000) by (nonlinear_arith)
        requires
            hs > 0,
            hs * hs <= r * r,
            -0x10_0000 <= r <= 0x10_0000,
    ;
    lemma_products_of_modest(hs, hs);
    let f = chord_parts(center, ray, radius);
    lemma_half_chord(f.0, f.1, f.2, s, c, h);
}

/// Half a chord to either side of the middle.
proof fn lemma_half_chord(speed: Double, closest: Double, inside: Double, s: int, c: int, h: int)
    requires
        is_whole(speed, s * s) && is_whole(closest, c) && is_whole(inside, (h * s) * (h * s)),
        modest(c) && 0 < h && modest(h) && 0 < s && modest(s),
        0 < h * s <= 0x10_0000,
    ensures
        ({
            let half = quotient(root(inside), root(speed));
            let (lo, hi) = (difference(closest, half), sum(closest, half));
            &&& !speed.le(Double { bits: 0 }) && !inside.le(Double { bits: 0 })
            &&& is_whole(lo, c - h) && is_whole(hi, c + h) && lo.le(hi)
        }),
{
    let hs = h * s;
    let zero = Double { bits: 0 };
    assert(is_whole(zero, 0)) by {
        lemma_magnitude_not_negative(zero);
        assert(0 * pow2(1074) == 0);
    }
    lemma_mul_strictly_positive(s, s);
    lemma_mul_strictly_positive(hs, hs);
    law_units_are_ordered(speed, zero, s * s, 0, 1074);
    law_units_are_ordered(inside, zero, hs * hs, 0, 1074);
    law_roots_of_squares_are_exact(speed, s, 1074);
    law_roots_of_squares_are_exact(inside, hs, 1074);
    let half = quotient(root(inside), root(speed));
    law_short_quotients_are_exact(root(inside), root(speed), h, s, 1074, 1074);
    law_short_sums_are_exact(closest, half, c, h, 1074);
    law_units_are_ordered(difference(closest, half), sum(closest, half), c - h, c + h, 1074);
}

/// A disc cuts nothing from a ray that comes no nearer the centre than the circle,
/// where the parameter nearest the centre is an integer.
pub proof fn law_missing_rays_have_no_chord(
    center: (Double, Double),
    ray: Ray,
    radius: Double,
    k: (int, int),
    o: (int, int),
    d: (int, int),
    r: int,
    s: int,
    c: int,
    far: int,
)
    requires
        is_whole(center.0, k.0) && is_whole(center.1, k.1) && is_whole(radius, r),
        is_whole(ray.origin.x, o.0) && is_whole(ray.origin.y, o.1),
        is_whole(ray.direction.x, d.0) && is_whole(ray.direction.y, d.1),
        modest(k.0) && modest(k.1) && modest(o.0) && modest(o.1) && modest(d.0) && modest(d.1),
        modest(r) && modest(c) && 0 < s && modest(s),
        s * s == d.0 * d.0 + d.1 * d.1,
        (o.0 - k.0) * d.0 + (o.1 - k.1) * d.1 == -(c * (s * s)),
        on_circle(o.0 - k.0, o.1 - k.1, d.0, d.1, far, c),
        r * r <= far * far <= 0x1000_0000_0000,
    ensures
        chord_of(center.0, center.1, ray, radius) is None,
{
    let (kx, ky) = (o.0 - k.0, o.1 - k.1);
    let (x, y) = (kx + c * d.0, ky + c * d.1);
    let f = chord_parts(center, ray, radius);
    let zero = Double { bits: 0 };
    assert(is_whole(zero, 0)) by {
        lemma_magnitude_not_negative(zero);
        assert(0 * pow2(1074) == 0);
    }
    assert(x * x >= 0 && y * y >= 0) by (nonlinear_arith);
    lemma_parts(center, ray, radius, k, o, d, r, s, c);
    law_units_are_ordered(f.2, zero, r * r - (x * x + y * y), 0, 1074);
}

/// The squared speed of a ray in plan, the parameter nearest a centre, and what is
/// left of the squared radius there.
spec fn chord_parts(center: (Double, Double), ray: Ray, radius: Double) -> (Double, Double, Double) {
    let (ox, oy) = (
        difference(ray.origin.x, center.0),
        difference(ray.origin.y, center.1),
    );
    let (dx, dy) = (ray.direction.x, ray.direction.y);
    let speed = dot2(dx, dy, dx, dy);
    let closest = quotient(dot2(ox, oy, dx, dy).negated(), speed);
    let (mx, my) = (sum(ox, product(dx, closest)), sum(oy, product(dy, closest)));
    (speed, closest, difference(product(radius, radius), dot2(mx, my, mx, my)))
}

proof fn lemma_parts(
    center: (Double, Double),
    ray: Ray,
    radius: Double,
    k: (int, int),
    o: (int, int),
    d: (int, int),
    r: int,
    s: int,
    c: int,
)
    requires
        is_whole(center.0, k.0) && is_whole(center.1, k.1) && is_whole(radius, r),
        is_whole(ray.origin.x, o.0) && is_whole(ray.origin.y, o.1),
        is_whole(ray.direction.x, d.0) && is_whole(ray.direction.y, d.1),
        modest(k.0) && modest(k.1) && modest(o.0) && modest(o.1) && modest(d.0) && modest(d.1),
        modest(r) && modest(c) && 0 < s && modest(s),
        s * s == d.0 * d.0 + d.1 * d.1,
        (o.0 - k.0) * d.0 + (o.1 - k.1) * d.1 == -(c * (s * s)),
        ({
            let (x, y) = ((o.0 - k.0) + c * d.0, (o.1 - k.1) + c * d.1);
            x * x + y * y <= 0x1000_0000_0000
        }),
    ensures
        ({
            let (x, y) = ((o.0 - k.0) + c * d.0, (o.1 - k.1) + c * d.1);
            let f = chord_parts(center, ray, radius);
            &&& is_whole(f.0, s * s)
            &&& is_whole(f.1, c)
            &&& is_whole(f.2, r * r - (x * x + y * y))
        }),
{
    let (kx, ky) = (o.0 - k.0, o.1 - k.1);
    let (dx, dy) = (ray.direction.x, ray.direction.y);
    law_short_sums_are_exact(ray.origin.x, center.0, o.0, k.0, 1074);
    law_short_sums_are_exact(ray.origin.y, center.1, o.1, k.1, 1074);
    let (ox, oy) = (
        difference(ray.origin.x, center.0),
        difference(ray.origin.y, center.1),
    );
    lemma_dot(dx, dy, dx, dy, d.0, d.1, d.0, d.1);
    lemma_dot(ox, oy, dx, dy, kx, ky, d.0, d.1);
    let speed = dot2(dx, dy, dx, dy);
    let b = dot2(ox, oy, dx, dy);
    law_short_sums_are_exact(b, b, -(c * (s * s)), -(c * (s * s)), 1074);
    lemma_mul_strictly_positive(s, s);
    law_short_quotients_are_exact(b.negated(), speed, c, s * s, 1074, 1074);
    let closest = quotient(b.negated(), speed);
    lemma_products_of_modest(d.0, c);
    lemma_products_of_modest(d.1, c);
    lemma_mul_is_commutative(d.0, c);
    lemma_mul_is_commutative(d.1, c);
    law_short_products_are_exact(dx, closest, d.0, c, 1074, 1074);
    law_short_products_are_exact(dy, closest, d.1, c, 1074, 1074);
    law_short_sums_are_exact(ox, product(dx, closest), kx, d.0 * c, 1074);
    law_short_sums_are_exact(oy, product(dy, closest), ky, d.1 * c, 1074);
    let (x, y) = (kx + c * d.0, ky + c * d.1);
    let (mx, my) = (sum(ox, product(dx, closest)), sum(oy, product(dy, closest)));
    assert(-0x40_0000 <= x <= 0x40_0000 && -0x40_0000 <= y <= 0x40_0000) by (nonlinear_arith)
        requires
            x * x + y * y <= 0x1000_0000_0000,
    ;
    lemma_dot(mx, my, mx, my, x, y, x, y);
    lemma_products_of_modest(r, r);
    law_short_products_are_exact(radius, radius, r, r, 1074, 1074);
    assert(x * x >= 0 && y * y >= 0) by (nonlinear_arith);
    law_short_sums_are_exact(product(radius, radius), dot2(mx, my, mx, my), r * r, x * x + y * y, 1074);
}

proof fn lemma_foot(
    center: (Double, Double),
    ray: Ray,
    radius: Double,
    k: (int, int),
    o: (int, int),
    d: (int, int),
    r: int,
    s: int,
    c: int,
    hs: int,
)
    requires
        is_whole(center.0, k.0) && is_whole(center.1, k.1) && is_whole(radius, r),
        is_whole(ray.origin.x, o.0) && is_whole(ray.origin.y, o.1),
        is_whole(ray.direction.x, d.0) && is_whole(ray.direction.y, d.1),
        modest(k.0) && modest(k.1) && modest(o.0) && modest(o.1) && modest(d.0) && modest(d.1),
        modest(r) && modest(c) && 0 < s && modest(s),
        s * s == d.0 * d.0 + d.1 * d.1,
        (o.0 - k.0) * d.0 + (o.1 - k.1) * d.1 == -(c * (s * s)),
        ({
            let (x, y) = ((o.0 - k.0) + c * d.0, (o.1 - k.1) + c * d.1);
            x * x + y * y == r * r - hs * hs
        }),
    ensures
        ({
            let f = chord_parts(center, ray, radius);
            &&& is_whole(f.0, s * s)
            &&& is_whole(f.1, c)
            &&& is_whole(f.2, hs * hs)
        }),
{
    assert(hs * hs >= 0) by (nonlinear_arith);
    lemma_products_of_modest(r, r);
    lemma_parts(center, ray, radius, k, o, d, r, s, c);
}

/// A sum of two products of integers is exact.
proof fn lemma_dot(ax: Double, ay: Double, bx: Double, by: Double, i: int, j: int, m: int, n: int)
    requires
        is_whole(ax, i) && is_whole(ay, j) && is_whole(bx, m) && is_whole(by, n),
        -0x40_0000 <= i <= 0x40_0000 && -0x40_0000 <= j <= 0x40_0000,
        -0x40_0000 <= m <= 0x40_0000 && -0x40_0000 <= n <= 0x40_0000,
    ensures
        is_whole(dot2(ax, ay, bx, by), i * m + j * n),
{
    lemma_products_of_modest(i, m);
    lemma_products_of_modest(j, n);
    law_short_products_are_exact(ax, bx, i, m, 1074, 1074);
    law_short_products_are_exact(ay, by, j, n, 1074, 1074);
    law_short_sums_are_exact(product(ax, bx), product(ay, by), i * m, j * n, 1074);
}

/// The length of a vector of two components is the hypotenuse over them, exactly
/// where all three are integers.
pub proof fn law_length_is_the_hypotenuse(x: Double, y: Double, i: int, j: int, k: int)
    requires
        is_whole(x, i) && is_whole(y, j),
        modest(i) && modest(j) && 0 <= k <= 0x20_0000,
        i * i + j * j == k * k,
    ensures
        is_whole(plane_length(x, y), k),
{
    lemma_dot(x, y, x, y, i, j, i, j);
    law_roots_of_squares_are_exact(dot2(x, y, x, y), k, 1074);
}

/// The length of a vector of two components, squared, is the sum of their squares, up
/// to rounding.
pub proof fn law_length_squares(x: Double, y: Double)
    requires
        under(x, 1173) && under(y, 1173),
    ensures
        ({
            let l = plane_length(x, y).value();
            let exact = x.value() * x.value() + y.value() * y.value();
            &&& plane_length(x, y).finite()
            &&& l >= 0
            &&& size(l * l - exact) * parts() <= 9 * exact + 8 * parts() * whole()
        }),
{
    let s = sum(product(x, x), product(y, y));
    let (w, k) = (whole(), parts());
    let exact = x.value() * x.value() + y.value() * y.value();
    law_product_is_under(x, x, 1173, 1173);
    law_product_is_under(y, y, 1173, 1173);
    law_sum_is_under(product(x, x), product(y, y), 1272);
    lemma_pow2_strictly_increases(1273, 1274);
    law_two_products_error(x, x, y, y);
    law_signs_multiply(x, x);
    law_signs_multiply(y, y);
    lemma_magnitude_not_negative(product(x, x));
    lemma_magnitude_not_negative(product(y, y));
    lemma_magnitude_not_negative(s);
    assert(x.value() * x.value() >= 0 && y.value() * y.value() >= 0) by (nonlinear_arith);
    lemma_pow2_pos(1074);
    let sw = s.value() * w;
    assert(size(sw - exact) * k <= 3 * exact + 2 * k * w);
    law_rounding_keeps_order(product(x, x).value() + product(y, y).value(), product(x, x).value() + product(y, y).value());
    if s.zero() {
        assert(plane_length(x, y) == s);
        assert(s.value() == 0);
        let l = s.value();
        assert(l * w == 0 && l * l == 0) by (nonlinear_arith)
            requires
                l == 0,
        ;
        assert(2 * k * w <= 8 * k * w) by (nonlinear_arith)
            requires
                k > 0,
                w > 0,
        ;
    } else {
        assert(!s.signed());
        law_root_error(s);
        let l = root(s).value();
        assert(size(l * l - exact) <= size(l * l - sw) + size(sw - exact));
        assert(k == 0x20_0000_0000_0000);
        let (d, e) = (size(l * l - sw), size(sw - exact));
        assert(d * k <= 5 * sw && sw <= exact + e);
        assert(e * k == e * 0x20_0000_0000_0000 && k * w == 0x20_0000_0000_0000 * w && 2 * k * w == 2 * (k * w) && 8 * k * w
            == 8 * (k * w)) by (nonlinear_arith)
            requires
                k == 0x20_0000_0000_0000,
        ;
        assert(5 * e <= exact + 10 * w);
        let f = size(l * l - exact);
        assert(f * k <= (d + e) * k && (d + e) * k == d * k + e * k) by (nonlinear_arith)
            requires
                f <= d + e,
                k > 0,
        ;
    }
}

/// The ray through the cross-section of a level motion goes at unit speed from where
/// the ray is: its direction, times the speed of the ray in the cross-section, is the
/// rate of the ray, up to rounding. Spans of it are brought back by the same factor.
pub proof fn law_section_is_brought_back(p: PrismRay, s: Span)
    requires
        p.offset_rate.finite() && p.height_rate.finite() && p.speed_of().finite(),
        s.t0.finite() && s.t1.finite(),
        p.section() is Some,
        p.section()->Some_0.direction.finite(),
        rescaled(s, p.speed_of(), p.across).t0.finite() && rescaled(s, p.speed_of(), p.across).t1.finite(),
        !p.speed_of().nan(),
    ensures
        ({
            let r = p.section()->Some_0;
            let back = rescaled(s, p.speed_of(), p.across);
            &&& r.origin.x == p.offset && r.origin.z == p.height && r.origin.y.value() == 0 && r.direction.y.value() == 0
            &&& divides(r.direction.x, p.offset_rate, p.speed_of())
            &&& divides(r.direction.z, p.height_rate, p.speed_of())
            &&& divides(back.t0, s.t0, p.speed_of())
            &&& divides(back.t1, s.t1, p.speed_of())
        }),
{
    let v = p.speed_of();
    let least = Double { bits: DEGENERATE };
    lemma_magnitude_not_negative(Double { bits: 0 });
    assert(least.lt(v));
    assert(!v.zero());
    law_quotient_error(p.offset_rate, v);
    law_quotient_error(p.height_rate, v);
    law_quotient_error(s.t0, v);
    law_quotient_error(s.t1, v);
}

/// A number, times another, is a third, up to rounding.
pub open spec fn divides(q: Double, a: Double, b: Double) -> bool {
    size(q.value() * b.value() - a.value() * whole()) * parts() <= size(a.value()) * whole() + HIDDEN * size(b.value())
}

/// A number is another one plus a product, up to rounding.
pub open spec fn displaced(x: Double, from: Double, a: Double, b: Double) -> bool {
    let exact = a.value() * b.value();
    size((x.value() - from.value()) * whole() - exact) * parts() <= size(from.value()) * whole() + 3 * size(exact) + parts()
        * whole()
}

pub(crate) proof fn lemma_displaced(from: Double, a: Double, b: Double)
    requires
        from.finite() && a.finite() && b.finite(),
        product(a, b).finite(),
        sum(from, product(a, b)).finite(),
    ensures
        displaced(sum(from, product(a, b)), from, a, b),
{
    let (f, w, pt) = (from.value(), whole(), parts());
    let q = product(a, b).value();
    let x = sum(from, product(a, b)).value();
    let e = a.value() * b.value();
    law_product_error(a, b);
    law_sum_error(from, product(a, b));
    lemma_pow2_pos(1074);
    let (u, v) = (x - (f + q), q * w - e);
    assert((x - f) * w - e == u * w + v) by (nonlinear_arith)
        requires
            u == x - (f + q),
            v == q * w - e,
    ;
    assert(size(u * w) == size(u) * w) by {
        lemma_size_of_product(u, w);
    }
    assert((size(u) * pt) * w == (size(u) * w) * pt) by (nonlinear_arith);
    lemma_mul_inequality(size(u) * pt, size(f + q), w);
    assert(size(f + q) * w <= size(f) * w + size(q) * w) by (nonlinear_arith)
        requires
            size(f + q) <= size(f) + size(q),
            w > 0,
    ;
    lemma_size_of_product(q, w);
    assert(size(q * w) <= size(v) + size(e));
    assert(size(v) <= size(v) * pt) by (nonlinear_arith)
        requires
            size(v) >= 0,
            pt >= 1,
    ;
}

/// The tip of an arc turns about its centre in its plane, from the first axis of the
/// plane to the second in the cyclic order of the axes, and rises along the third.
pub proof fn law_tip_turns_about_the_centre(arc: ArcMove, s: Double, cosine: Double, sine: Double)
    requires
        arc.center.finite() && arc.radius.finite() && arc.z.finite() && arc.rise.finite(),
        s.finite() && cosine.finite() && sine.finite(),
        product(arc.radius, cosine).finite() && product(arc.radius, sine).finite() && product(arc.rise, s).finite(),
        arc.tip(s, cosine, sine).finite(),
    ensures
        ({
            let p = arc.tip(s, cosine, sine);
            match arc.plane {
                ArcPlane::Xy => displaced(p.x, arc.center.x, arc.radius, cosine) && displaced(
                    p.y,
                    arc.center.y,
                    arc.radius,
                    sine,
                ) && displaced(p.z, arc.z, arc.rise, s),
                ArcPlane::Yz => displaced(p.y, arc.center.y, arc.radius, cosine) && displaced(
                    p.z,
                    arc.center.z,
                    arc.radius,
                    sine,
                ) && displaced(p.x, arc.z, arc.rise, s),
                ArcPlane::Zx => displaced(p.z, arc.center.z, arc.radius, cosine) && displaced(
                    p.x,
                    arc.center.x,
                    arc.radius,
                    sine,
                ) && displaced(p.y, arc.z, arc.rise, s),
            }
        }),
{
    match arc.plane {
        ArcPlane::Xy => {
            lemma_displaced(arc.center.x, arc.radius, cosine);
            lemma_displaced(arc.center.y, arc.radius, sine);
        },
        ArcPlane::Yz => {
            lemma_displaced(arc.center.y, arc.radius, cosine);
            lemma_displaced(arc.center.z, arc.radius, sine);
        },
        ArcPlane::Zx => {
            lemma_displaced(arc.center.z, arc.radius, cosine);
            lemma_displaced(arc.center.x, arc.radius, sine);
        },
    }
    lemma_displaced(arc.z, arc.rise, s);
}

} // verus!
