//! How far rounded arithmetic lies from exact arithmetic.
//!
//! Exact values are integers: a double is a whole number of units of the smallest
//! positive double, a product of two a whole number of units of its square.

use crate::arithmetic::{difference, product, quotient, sum};
use crate::double::{magnitude_of, Double, HIDDEN, INFINITY_BITS};
use crate::mesh::sphere::lemma_rounds_at_most;
use crate::order::{lemma_magnitude_increases, lemma_round_bits_increases};
use crate::precision::{apart, law_rounding_error, lemma_rounds_below_infinity};
use crate::square_root::{floor_root, lemma_floor_root, lemma_floor_root_is, root};
use crate::rounding::{lemma_quotient_range, nearest, round_bits};
use vstd::arithmetic::mul::*;
use vstd::arithmetic::power2::{lemma_pow2_adds, lemma_pow2_pos, lemma_pow2_strictly_increases, pow2};
use vstd::prelude::*;

verus! {

/// The absolute value of an integer.
pub open spec fn size(x: int) -> int {
    if x < 0 {
        -x
    } else {
        x
    }
}

/// The number one, in units of the smallest positive double.
pub open spec fn whole() -> int {
    pow2(1074) as int
}

/// Two to the power of fifty-three: one part in so many is what rounding may lose.
pub open spec fn parts() -> int {
    2 * HIDDEN as int
}

/// A finite number of at most two to the power of `hi` units.
pub open spec fn under(x: Double, hi: nat) -> bool {
    x.finite() && x.magnitude() <= pow2(hi)
}

pub proof fn lemma_size_of_product(x: int, y: int)
    ensures
        size(x * y) == size(x) * size(y),
{
    assert(size(x * y) == size(x) * size(y)) by (nonlinear_arith);
}

pub proof fn lemma_magnitude_not_negative(x: Double)
    ensures
        x.magnitude() >= 0,
        size(x.value()) == x.magnitude(),
        x.magnitude() == 0 <==> x.abs_bits() == 0,
{
    assert(magnitude_of(0) == 0);
    if x.abs_bits() > 0 {
        lemma_magnitude_increases(0, x.abs_bits());
    }
}

/// What rounding a ratio may lose.
proof fn lemma_nearest_error(negative: bool, n: int, d: int)
    requires
        n >= 0,
        d > 0,
        nearest(negative, n, d).finite(),
    ensures
        ({
            let r = nearest(negative, n, d);
            &&& apart(r.magnitude() * d, n) * parts() <= n + HIDDEN * d
            &&& d == 1 ==> apart(r.magnitude(), n) * parts() <= n
            &&& r.signed() == negative
        }),
{
    lemma_quotient_range(n, d);
    let r = nearest(negative, n, d);
    assert(round_bits(n, d) < INFINITY_BITS);
    assert(0 <= round_bits(n, d)) by {
        crate::order::lemma_round_bits_increases(n, n, d);
    }
    assert(r.abs_bits() == round_bits(n, d));
    law_rounding_error(n, d);
    let m = r.magnitude() * d;
    let g = apart(m, n);
    if 2 * g <= d {
        assert(g * parts() <= HIDDEN * d) by (nonlinear_arith)
            requires
                2 * g <= d,
                parts() == 2 * HIDDEN as int,
                HIDDEN as int > 0,
        ;
    }
    assert(HIDDEN * d >= 0) by (nonlinear_arith)
        requires
            d > 0,
            HIDDEN as int > 0,
    ;
    if d == 1 {
        assert(r.magnitude() * 1 == r.magnitude());
        assert(g * parts() <= n || g == 0);
        assert(0 * parts() == 0);
    }
}

/// A rounded product, against the exact one.
pub proof fn law_product_error(a: Double, b: Double)
    requires
        a.finite(),
        b.finite(),
        product(a, b).finite(),
    ensures
        size(product(a, b).value() * whole() - a.value() * b.value()) * parts() <= size(a.value() * b.value()) + HIDDEN
            * whole(),
{
    let p = product(a, b);
    let negative = a.signed() != b.signed();
    let n = a.magnitude() * b.magnitude();
    lemma_pow2_pos(1074);
    lemma_magnitude_not_negative(a);
    lemma_magnitude_not_negative(b);
    assert(n >= 0) by (nonlinear_arith)
        requires
            n == a.magnitude() * b.magnitude(),
            a.magnitude() >= 0,
            b.magnitude() >= 0,
    ;
    lemma_nearest_error(negative, n, whole());
    lemma_magnitude_not_negative(p);
    let m = p.magnitude();
    assert((-m) * whole() == -(m * whole())) by (nonlinear_arith);
    let (x, y) = (a.magnitude(), b.magnitude());
    assert((-x) * y == -(x * y) && x * (-y) == -(x * y) && (-x) * (-y) == x * y) by (nonlinear_arith);
}

/// A rounded sum, against the exact one: sums never lose what is too small.
pub proof fn law_sum_error(a: Double, b: Double)
    requires
        a.finite(),
        b.finite(),
        sum(a, b).finite(),
    ensures
        size(sum(a, b).value() - (a.value() + b.value())) * parts() <= size(a.value() + b.value()),
{
    let v = a.value() + b.value();
    let s = sum(a, b);
    if v == 0 {
        assert(magnitude_of(0) == 0);
        assert(s.abs_bits() == 0);
        assert(0 * parts() == 0);
    } else if v < 0 {
        lemma_nearest_error(true, -v, 1);
    } else {
        lemma_nearest_error(false, v, 1);
    }
}

/// A rounded difference, against the exact one.
pub proof fn law_difference_error(a: Double, b: Double)
    requires
        a.finite(),
        b.finite(),
        difference(a, b).finite(),
    ensures
        size(difference(a, b).value() - (a.value() - b.value())) * parts() <= size(a.value() - b.value()),
{
    assert(b.negated().abs_bits() == b.abs_bits() && b.negated().signed() == !b.signed());
    assert(b.negated().value() == -b.value());
    law_sum_error(a, b.negated());
}

/// A rounded quotient, against the exact one: by what it gives times the divisor.
pub proof fn law_quotient_error(a: Double, b: Double)
    requires
        a.finite(),
        b.finite(),
        !b.zero(),
        quotient(a, b).finite(),
    ensures
        size(quotient(a, b).value() * b.value() - a.value() * whole()) * parts() <= size(a.value()) * whole() + HIDDEN
            * size(b.value()),
{
    let q = quotient(a, b);
    let negative = a.signed() != b.signed();
    let n = a.magnitude() * whole();
    lemma_pow2_pos(1074);
    lemma_magnitude_not_negative(a);
    lemma_magnitude_not_negative(b);
    assert(n >= 0) by (nonlinear_arith)
        requires
            n == a.magnitude() * whole(),
            a.magnitude() >= 0,
            whole() > 0,
    ;
    lemma_nearest_error(negative, n, b.magnitude());
    lemma_magnitude_not_negative(q);
    let (x, y, s) = (q.magnitude(), b.magnitude(), whole());
    let z = a.magnitude();
    assert((-x) * y == -(x * y) && x * (-y) == -(x * y) && (-x) * (-y) == x * y) by (nonlinear_arith);
    assert((-z) * s == -(z * s)) by (nonlinear_arith);
}

/// The product of two numbers that are not too large.
pub proof fn law_product_is_under(a: Double, b: Double, ha: nat, hb: nat)
    requires
        under(a, ha),
        under(b, hb),
        1074 <= ha + hb <= 3100,
    ensures
        under(product(a, b), (ha + hb - 1074) as nat),
{
    lemma_pow2_pos(1074);
    lemma_magnitude_not_negative(a);
    lemma_magnitude_not_negative(b);
    let h = (ha + hb - 1074) as nat;
    lemma_pow2_adds(ha, hb);
    lemma_pow2_adds(h, 1074);
    let n = a.magnitude() * b.magnitude();
    assert(0 <= n <= pow2(ha) * pow2(hb)) by (nonlinear_arith)
        requires
            n == a.magnitude() * b.magnitude(),
            0 <= a.magnitude() <= pow2(ha),
            0 <= b.magnitude() <= pow2(hb),
    ;
    lemma_rounds_at_most(a.signed() != b.signed(), n, whole(), h);
}

/// The sum of two numbers that are not too large.
pub proof fn law_sum_is_under(a: Double, b: Double, h: nat)
    requires
        under(a, h),
        under(b, h),
        h <= 2044,
    ensures
        under(sum(a, b), h + 1),
        under(difference(a, b), h + 1),
        under(a.negated(), h),
{
    lemma_magnitude_not_negative(a);
    lemma_magnitude_not_negative(b);
    lemma_pow2_adds(h, 1);
    vstd::arithmetic::power2::lemma2_to64();
    assert(pow2(h + 1) == 2 * pow2(h));
    let c = b.negated();
    assert(c.abs_bits() == b.abs_bits());
    assert(a.negated().abs_bits() == a.abs_bits());
    lemma_magnitude_not_negative(c);
    lemma_one_sum(a, b, h);
    lemma_one_sum(a, c, h);
}

proof fn lemma_one_sum(a: Double, b: Double, h: nat)
    requires
        under(a, h),
        under(b, h),
        h <= 2044,
        pow2(h + 1) == 2 * pow2(h),
    ensures
        under(sum(a, b), h + 1),
{
    lemma_magnitude_not_negative(a);
    lemma_magnitude_not_negative(b);
    lemma_pow2_pos(h);
    let v = a.value() + b.value();
    assert(size(v) <= pow2(h + 1));
    assert(pow2(h + 1) * 1 == pow2(h + 1));
    if v == 0 {
        assert(magnitude_of(0) == 0);
        assert(sum(a, b).abs_bits() == 0);
    } else if v < 0 {
        lemma_rounds_at_most(true, -v, 1, h + 1);
    } else {
        lemma_rounds_at_most(false, v, 1, h + 1);
    }
}

/// The sum of two products, rounded at each step, against the exact one.
pub proof fn law_two_products_error(a: Double, b: Double, c: Double, d: Double)
    requires
        a.finite() && b.finite() && c.finite() && d.finite(),
        product(a, b).finite(),
        product(c, d).finite(),
        sum(product(a, b), product(c, d)).finite(),
    ensures
        ({
            let exact = a.value() * b.value() + c.value() * d.value();
            let all = size(a.value() * b.value()) + size(c.value() * d.value());
            size(sum(product(a, b), product(c, d)).value() * whole() - exact) * parts() <= 3 * all + 2 * parts() * whole()
        }),
{
    let (p, q) = (product(a, b), product(c, d));
    let s = sum(p, q);
    law_product_error(a, b);
    law_product_error(c, d);
    law_sum_error(p, q);
    lemma_pow2_pos(1074);
    lemma_two_products(a.value() * b.value(), c.value() * d.value(), p.value(), q.value(), s.value(), whole());
}

proof fn lemma_two_products(x: int, y: int, p: int, q: int, s: int, w: int)
    requires
        w > 0,
        size(p * w - x) * parts() <= size(x) + HIDDEN * w,
        size(q * w - y) * parts() <= size(y) + HIDDEN * w,
        size(s - (p + q)) * parts() <= size(p + q),
    ensures
        size(s * w - (x + y)) * parts() <= 3 * (size(x) + size(y)) + 2 * parts() * w,
{
    let k = parts();
    let h = HIDDEN as int;
    let (e, f, g) = (p * w - x, q * w - y, s - (p + q));
    assert(s * w - (x + y) == g * w + e + f) by (nonlinear_arith)
        requires
            e == p * w - x,
            f == q * w - y,
            g == s - (p + q),
    ;
    assert((p + q) * w == x + y + e + f) by (nonlinear_arith)
        requires
            e == p * w - x,
            f == q * w - y,
    ;
    lemma_size_of_product(p + q, w);
    lemma_size_of_product(g, w);
    let all = size(x) + size(y);
    let (es, fs) = (size(e), size(f));
    assert(size(g) * w * k <= size(p + q) * w) by (nonlinear_arith)
        requires
            size(g) * k <= size(p + q),
            w > 0,
    ;
    assert(size((p + q) * w) <= all + es + fs);
    assert(size(g * w) * k <= all + es + fs) by (nonlinear_arith)
        requires
            size(g * w) == size(g) * w,
            size(g) * w * k <= size(p + q) * w,
            size(p + q) * w <= all + es + fs,
    ;
    assert(size(s * w - (x + y)) <= size(g * w) + es + fs);
    assert(2 * h * w == k * w) by (nonlinear_arith)
        requires
            k == 2 * h,
    ;
    assert(size(s * w - (x + y)) * k <= (size(g * w) + es + fs) * k) by (nonlinear_arith)
        requires
            size(s * w - (x + y)) <= size(g * w) + es + fs,
            k > 0,
    ;
    assert((size(g * w) + es + fs) * k == size(g * w) * k + es * k + fs * k) by (nonlinear_arith);
    assert(es * k + fs * k <= all + k * w);
    assert(es <= es * k && fs <= fs * k) by (nonlinear_arith)
        requires
            es >= 0,
            fs >= 0,
            k >= 1,
    ;
    assert(2 * k * w == 2 * (k * w)) by (nonlinear_arith);
}

/// The difference of two products, rounded at each step, against the exact one.
pub proof fn law_two_products_difference_error(a: Double, b: Double, c: Double, d: Double)
    requires
        a.finite() && b.finite() && c.finite() && d.finite(),
        product(a, b).finite(),
        product(c, d).finite(),
        difference(product(a, b), product(c, d)).finite(),
    ensures
        ({
            let exact = a.value() * b.value() - c.value() * d.value();
            let all = size(a.value() * b.value()) + size(c.value() * d.value());
            size(difference(product(a, b), product(c, d)).value() * whole() - exact) * parts() <= 3 * all + 2 * parts()
                * whole()
        }),
{
    let (p, q) = (product(a, b), product(c, d));
    let s = difference(p, q);
    law_product_error(a, b);
    law_product_error(c, d);
    law_difference_error(p, q);
    lemma_pow2_pos(1074);
    let (x, y) = (a.value() * b.value(), c.value() * d.value());
    assert((-q.value()) * whole() == -(q.value() * whole())) by (nonlinear_arith);
    lemma_two_products(x, -y, p.value(), -q.value(), s.value(), whole());
}

/// The sum of three products, rounded at each step, against the exact one.
pub proof fn law_three_products_error(a: Double, b: Double, c: Double, d: Double, e: Double, f: Double)
    requires
        a.finite() && b.finite() && c.finite() && d.finite() && e.finite() && f.finite(),
        product(a, b).finite(),
        product(c, d).finite(),
        product(e, f).finite(),
        sum(product(a, b), product(c, d)).finite(),
        sum(sum(product(a, b), product(c, d)), product(e, f)).finite(),
    ensures
        ({
            let exact = a.value() * b.value() + c.value() * d.value() + e.value() * f.value();
            let all = size(a.value() * b.value()) + size(c.value() * d.value()) + size(e.value() * f.value());
            size(
                sum(sum(product(a, b), product(c, d)), product(e, f)).value() * whole() - exact,
            ) * parts() <= 8 * all + 6 * parts() * whole()
        }),
{
    let s = sum(product(a, b), product(c, d));
    let q = product(e, f);
    let r = sum(s, q);
    law_two_products_error(a, b, c, d);
    law_product_error(e, f);
    law_sum_error(s, q);
    lemma_pow2_pos(1074);
    let (x, z) = (a.value() * b.value() + c.value() * d.value(), e.value() * f.value());
    let (xs, zs) = (size(a.value() * b.value()) + size(c.value() * d.value()), size(z));
    lemma_three_products(x, xs, z, zs, s.value(), q.value(), r.value(), whole());
}

proof fn lemma_three_products(x: int, xs: int, z: int, zs: int, s: int, q: int, r: int, w: int)
    requires
        w > 0,
        size(x) <= xs,
        size(z) <= zs,
        size(s * w - x) * parts() <= 3 * xs + 2 * parts() * w,
        size(q * w - z) * parts() <= zs + HIDDEN * w,
        size(r - (s + q)) * parts() <= size(s + q),
    ensures
        size(r * w - (x + z)) * parts() <= 8 * (xs + zs) + 6 * parts() * w,
{
    let k = parts();
    let h = HIDDEN as int;
    let (e, f, g) = (s * w - x, q * w - z, r - (s + q));
    assert(r * w - (x + z) == g * w + e + f) by (nonlinear_arith)
        requires
            e == s * w - x,
            f == q * w - z,
            g == r - (s + q),
    ;
    assert((s + q) * w == x + z + e + f) by (nonlinear_arith)
        requires
            e == s * w - x,
            f == q * w - z,
    ;
    lemma_size_of_product(s + q, w);
    lemma_size_of_product(g, w);
    let (es, fs) = (size(e), size(f));
    assert(size(g) * w * k <= size(s + q) * w) by (nonlinear_arith)
        requires
            size(g) * k <= size(s + q),
            w > 0,
    ;
    assert(size((s + q) * w) <= xs + zs + es + fs);
    assert(size(r * w - (x + z)) <= size(g) * w + es + fs);
    assert(size(r * w - (x + z)) * k <= size(g) * w * k + es * k + fs * k) by (nonlinear_arith)
        requires
            size(r * w - (x + z)) <= size(g) * w + es + fs,
            k > 0,
    ;
    assert(es <= es * k && fs <= fs * k) by (nonlinear_arith)
        requires
            es >= 0,
            fs >= 0,
            k >= 1,
    ;
    assert(h * w <= k * w) by (nonlinear_arith)
        requires
            k == 2 * h,
            h > 0,
            w > 0,
    ;
    assert(2 * k * w == 2 * (k * w) && 6 * k * w == 6 * (k * w)) by (nonlinear_arith);
}

/// A product, or a quotient, is negative when just one of the two numbers is.
pub proof fn law_signs_multiply(a: Double, b: Double)
    requires
        a.finite(),
        b.finite(),
    ensures
        product(a, b).signed() == (a.signed() != b.signed()),
        !product(a, b).nan(),
        !b.zero() ==> quotient(a, b).signed() == (a.signed() != b.signed()) && !quotient(a, b).nan(),
{
    lemma_magnitude_not_negative(a);
    lemma_magnitude_not_negative(b);
    lemma_pow2_pos(1074);
    lemma_mul_nonnegative(a.magnitude(), b.magnitude());
    lemma_mul_nonnegative(a.magnitude(), pow2(1074) as int);
    let n = a.magnitude() * b.magnitude();
    lemma_round_bits_increases(n, n, pow2(1074) as int);
    if !b.zero() {
        let k = a.magnitude() * pow2(1074);
        lemma_round_bits_increases(k, k, b.magnitude());
    }
}

/// Of a number that stands for a root, four times rounded, its square against the
/// square of the root.
proof fn lemma_root_square(n: int, r: int, x: int, l: int)
    requires
        n == 4 * (n / 4),
        r >= 0x10_0000_0000_0000_0000,
        r * r <= n < (r + 1) * (r + 1),
        r * r == n ==> x == 2 * r,
        r * r != n ==> x == 2 * r + 1,
        size(4 * l - x) * parts() <= x,
        l >= 0,
    ensures
        size(4 * (l * l) - n) * parts() <= 5 * n,
{
    let k = parts();
    assert((r + 1) * (r + 1) == r * r + 2 * r + 1) by (nonlinear_arith);
    assert((2 * r) * (2 * r) == 4 * (r * r)) by (nonlinear_arith);
    assert((2 * r + 1) * (2 * r + 1) == 4 * (r * r) + 4 * r + 1) by (nonlinear_arith);
    let xx = x * x;
    assert(size(xx - 4 * n) <= 4 * r + 3);
    let e = 4 * l - x;
    assert((4 * l) * (4 * l) == 16 * (l * l)) by (nonlinear_arith);
    assert((4 * l) * (4 * l) - x * x == e * (2 * x + e)) by (nonlinear_arith)
        requires
            e == 4 * l - x,
    ;
    lemma_size_of_product(e, 2 * x + e);
    let s = size(e);
    let t = size(2 * x + e);
    assert(s <= s * k) by (nonlinear_arith)
        requires
            s >= 0,
            k >= 1,
    ;
    assert(t <= 3 * x);
    assert((s * t) * k == (s * k) * t) by (nonlinear_arith);
    lemma_mul_inequality(s * k, x, t);
    lemma_mul_inequality(t, 3 * x, x);
    assert((3 * x) * x == 3 * xx) by (nonlinear_arith)
        requires
            xx == x * x,
    ;
    lemma_mul_is_commutative(x, t);
    assert(size(16 * (l * l) - xx) * k <= 3 * xx);
    assert((4 * r + 3) * 0x20_0000_0000_0000 <= r * r) by (nonlinear_arith)
        requires
            r >= 0x10_0000_0000_0000_0000,
    ;
    assert(k == 0x20_0000_0000_0000);
    assert(size(xx - 4 * n) * k <= n);
    assert(size(16 * (l * l) - 4 * n) <= size(16 * (l * l) - xx) + size(xx - 4 * n));
}

/// A root is rounded by at most half of one part in two to the fifty-third: its square
/// is off by a few parts at most.
pub proof fn law_root_error(a: Double)
    requires
        under(a, 1274),
        !a.signed(),
        !a.zero(),
    ensures
        ({
            let l = root(a).value();
            &&& root(a).finite()
            &&& l > 0
            &&& size(l * l - a.value() * whole()) * parts() <= 5 * (a.value() * whole())
        }),
{
    let w = whole();
    let m = a.magnitude();
    lemma_magnitude_not_negative(a);
    lemma_pow2_pos(1074);
    let n = 4 * (m * w);
    let r = floor_root(n);
    lemma_mul_inequality(1, m, w);
    lemma_floor_root(n);
    let x = 2 * r + (if r * r == n {
        0int
    } else {
        1
    });
    lemma_pow2_adds(537, 537);
    lemma_pow2_pos(537);
    let h = pow2(537) as int;
    lemma_floor_root_is(n, h);
    lemma_pow2_strictly_increases(68, 537);
    assert(pow2(68) == 0x10_0000_0000_0000_0000) by {
        vstd::arithmetic::power2::lemma2_to64();
        vstd::arithmetic::power2::lemma2_to64_rest();
        lemma_pow2_adds(34, 34);
    }
    let t = pow2(1176) as int;
    lemma_pow2_adds(1274, 1074);
    lemma_pow2_adds(1176, 1176);
    lemma_pow2_adds(2348, 4);
    lemma_pow2_pos(2348);
    lemma_pow2_pos(1176);
    assert(pow2(4) == 16) by {
        vstd::arithmetic::power2::lemma2_to64();
    }
    assert(m * w <= pow2(1274) * w) by (nonlinear_arith)
        requires
            m <= pow2(1274),
            w > 0,
    ;
    assert(r < t) by (nonlinear_arith)
        requires
            r * r <= n,
            n < t * t,
            r >= 0,
            t > 0,
    ;
    lemma_pow2_strictly_increases(1176, 1200);
    lemma_rounds_below_infinity(x, 4);
    law_rounding_error(x, 4);
    let b = round_bits(x, 4);
    let l = magnitude_of(b);
    lemma_round_bits_increases(x, x, 4);
    assert(root(a) == nearest(false, x, 4));
    assert(root(a).abs_bits() == b);
    lemma_magnitude_not_negative(root(a));
    assert(apart(l * 4, x) * (2 * HIDDEN) <= x);
    assert(n / 4 == m * w);
    lemma_root_square(n, r, x, l);
    let d = size(l * l - m * w);
    assert(size(4 * (l * l) - n) == 4 * d);
    assert((4 * d) * parts() == 4 * (d * parts())) by (nonlinear_arith);
    assert(l > 0);
    assert(root(a).value() == l && a.value() == m);
    assert(d * parts() <= 5 * (m * w));
}

} // verus!
