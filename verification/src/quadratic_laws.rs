//! That quadratics with integer roots are solved exactly, and what the depressed form
//! of a cubic is.

use crate::arithmetic::{difference, product, quotient, sum};
use crate::double::{Double, HIDDEN};
use crate::error_bounds::{law_product_is_under, lemma_magnitude_not_negative, lemma_size_of_product, size, under, whole};
use crate::exactness::{
    is_whole, law_roots_of_squares_are_exact, law_short_products_are_exact, law_short_quotients_are_exact, law_short_sums_are_exact,
    law_units_are_ordered, stands,
};
use crate::math::greater;
use crate::order::{law_order_is_value_order, lemma_one_magnitude};
use crate::root_laws::{law_gathering_loses_nothing, lemma_one_more_coefficient, near, polynomial};
use crate::roots::{
    compensated, depressed_form, difference_error, discriminant_of, fourfold, gathered, negligible, product_error, quadratic_roots, scale_of,
    stable_half, sum_error, upper_half, vanishes, Depressed, DISCRIMINANT_SNAP, EPSILON, ROOT_DEGENERACY_TAU,
};
use crate::square_root::root;
use vstd::arithmetic::mul::*;
use vstd::arithmetic::power2::{lemma2_to64, lemma_pow2_adds, lemma_pow2_pos, lemma_pow2_strictly_increases, pow2};
use vstd::prelude::*;

verus! {

/// An integer of at most twenty-four bits.
pub open spec fn small(k: int) -> bool {
    -0x80_0000 <= k <= 0x80_0000
}

pub(crate) proof fn lemma_constants()
    ensures
        is_whole(Double { bits: 0 }, 0),
        is_whole(Double { bits: 0x3ff0_0000_0000_0000 }, 1),
        is_whole(Double { bits: 0x4000_0000_0000_0000 }, 2),
        is_whole(Double { bits: 0x4008_0000_0000_0000 }, 3),
        is_whole(Double { bits: 0x4010_0000_0000_0000 }, 4),
        is_whole(Double { bits: 0x403b_0000_0000_0000 }, 27),
        is_whole(Double { bits: 0x41a0_0000_0200_0000 }, 0x800_0001),
        stands(Double { bits: 0xbfe0_0000_0000_0000 }, -1, 1073),
        stands(Double { bits: 0x3fe0_0000_0000_0000 }, 1, 1073),
{
    let h = HIDDEN as int;
    crate::rounding::lemma_pow2_53();
    lemma_magnitude_not_negative(Double { bits: 0 });
    lemma_one_magnitude();
    lemma2_to64();
    lemma_small_powers();
    lemma_pow2_adds(52, 1021);
    lemma_pow2_adds(52, 1022);
    lemma_pow2_adds(1, 1022);
    lemma_pow2_adds(1, 1023);
    lemma_pow2_adds(2, 1022);
    lemma_pow2_adds(4, 1022);
    lemma_pow2_adds(27, 1022);
    let u = pow2(1022) as int;
    lemma_pow2_adds(52, 1022);
    let w = pow2(1074) as int;
    assert(w == h * u);
    assert(0 * w == 0 && 1 * w == w);
    assert((Double { bits: 0x4000_0000_0000_0000 }).magnitude() == h * pow2(1023));
    assert(h * (2 * u) == 2 * (h * u)) by (nonlinear_arith);
    assert((Double { bits: 0x4008_0000_0000_0000 }).magnitude() == (h + 0x8_0000_0000_0000) * pow2(1023));
    assert((h + 0x8_0000_0000_0000) * (2 * u) == 3 * (h * u)) by (nonlinear_arith)
        requires
            h == 0x10_0000_0000_0000,
    ;
    assert((Double { bits: 0x4010_0000_0000_0000 }).magnitude() == h * pow2(1024));
    assert(h * (4 * u) == 4 * (h * u)) by (nonlinear_arith);
    assert((Double { bits: 0x403b_0000_0000_0000 }).magnitude() == (h + 0xb_0000_0000_0000) * pow2(1026));
    assert((h + 0xb_0000_0000_0000) * (16 * u) == 27 * (h * u)) by (nonlinear_arith)
        requires
            h == 0x10_0000_0000_0000,
    ;
    assert((Double { bits: 0x41a0_0000_0200_0000 }).magnitude() == (h + 0x200_0000) * pow2(1049));
    assert((h + 0x200_0000) * (0x800_0000 * u) == 0x800_0001 * (h * u)) by (nonlinear_arith)
        requires
            h == 0x10_0000_0000_0000,
    ;
    assert((Double { bits: 0x3fe0_0000_0000_0000 }).magnitude() == h * pow2(1021));
    assert((Double { bits: 0xbfe0_0000_0000_0000 }).abs_bits() == (Double { bits: 0x3fe0_0000_0000_0000 }).abs_bits());
    assert((-1) * pow2(1073) == -(pow2(1073) as int) && 1 * pow2(1073) == pow2(1073));
}

proof fn lemma_small_powers()
    ensures
        pow2(27) == 0x800_0000,
        pow2(4) == 16,
        pow2(2) == 4,
        pow2(1) == 2,
{
    lemma2_to64();
}

proof fn lemma_upper_half(a: Double, k: int)
    requires
        is_whole(a, k),
        small(k),
    ensures
        is_whole(upper_half(a), k),
        is_whole(difference(a, upper_half(a)), 0),
{
    lemma_constants();
    let m = Double { bits: 0x41a0_0000_0200_0000 };
    law_short_products_are_exact(m, a, 0x800_0001, k, 1074, 1074);
    let c = product(m, a);
    law_short_sums_are_exact(c, a, 0x800_0001 * k, k, 1074);
    law_short_sums_are_exact(c, difference(c, a), 0x800_0001 * k, 0x800_0000 * k, 1074);
    law_short_sums_are_exact(a, upper_half(a), k, k, 1074);
}

/// A product of integers loses nothing.
proof fn lemma_product_error(a: Double, b: Double, i: int, j: int)
    requires
        is_whole(a, i) && is_whole(b, j),
        small(i) && small(j),
    ensures
        is_whole(product(a, b), i * j),
        is_whole(product_error(a, b), 0),
        -0x4000_0000_0000 <= i * j <= 0x4000_0000_0000,
{
    assert(-0x4000_0000_0000 <= i * j <= 0x4000_0000_0000) by (nonlinear_arith)
        requires
            -0x80_0000 <= i <= 0x80_0000,
            -0x80_0000 <= j <= 0x80_0000,
    ;
    lemma_upper_half(a, i);
    lemma_upper_half(b, j);
    let (ah, bh) = (upper_half(a), upper_half(b));
    let (al, bl) = (difference(a, ah), difference(b, bh));
    let p = product(a, b);
    law_short_products_are_exact(a, b, i, j, 1074, 1074);
    law_short_products_are_exact(ah, bh, i, j, 1074, 1074);
    assert(i * 0 == 0 && 0 * j == 0 && 0int * 0int == 0);
    law_short_products_are_exact(ah, bl, i, 0, 1074, 1074);
    law_short_products_are_exact(al, bh, 0, j, 1074, 1074);
    law_short_products_are_exact(al, bl, 0, 0, 1074, 1074);
    law_short_sums_are_exact(product(ah, bh), p, i * j, i * j, 1074);
    let d = difference(product(ah, bh), p);
    law_short_sums_are_exact(d, product(ah, bl), 0, 0, 1074);
    law_short_sums_are_exact(sum(d, product(ah, bl)), product(al, bh), 0, 0, 1074);
    law_short_sums_are_exact(sum(sum(d, product(ah, bl)), product(al, bh)), product(al, bl), 0, 0, 1074);
}

/// The discriminant of integer coefficients is exact.
pub proof fn law_discriminant_is_exact(a: Double, b: Double, c: Double, i: int, j: int, k: int)
    requires
        is_whole(a, i) && is_whole(b, j) && is_whole(c, k),
        -0x20_0000 <= i <= 0x20_0000 && small(j) && small(k),
    ensures
        is_whole(discriminant_of(a, b, c), j * j - 4 * (i * k)),
        is_whole(product(b, b), j * j),
        is_whole(product(fourfold(a), c), 4 * (i * k)),
{
    reveal(discriminant_of);
    lemma_constants();
    law_short_products_are_exact(Double { bits: 0x4010_0000_0000_0000 }, a, 4, i, 1074, 1074);
    let f = fourfold(a);
    lemma_product_error(b, b, j, j);
    lemma_product_error(f, c, 4 * i, k);
    lemma_mul_is_associative(4, i, k);
    let (p, q) = (product(b, b), product(f, c));
    let (x, y) = (j * j, 4 * (i * k));
    law_short_sums_are_exact(p, q, x, y, 1074);
    let s = difference(p, q);
    law_short_sums_are_exact(p, s, x, x - y, 1074);
    let bb = difference(p, s);
    law_short_sums_are_exact(s, bb, x - y, y, 1074);
    law_short_sums_are_exact(p, sum(s, bb), x, x, 1074);
    law_short_sums_are_exact(bb, q, y, y, 1074);
    law_short_sums_are_exact(difference(p, sum(s, bb)), difference(bb, q), 0, 0, 1074);
    law_short_sums_are_exact(product_error(b, b), product_error(f, c), 0, 0, 1074);
    let e = difference_error(p, q);
    let g = difference(product_error(b, b), product_error(f, c));
    law_short_sums_are_exact(e, g, 0, 0, 1074);
    law_short_sums_are_exact(s, sum(e, g), x - y, 0, 1074);
}

proof fn lemma_whole_is_under(x: Double, k: int)
    requires
        is_whole(x, k),
        -0x4000_0000_0000 <= k <= 0x4000_0000_0000,
    ensures
        under(x, 1120),
        under(x.absolute(), 1120),
        x.absolute().value() == size(k) * whole(),
{
    let w = whole();
    lemma_magnitude_not_negative(x);
    lemma_pow2_pos(1074);
    lemma_size_of_product(k, w);
    lemma_pow2_adds(46, 1074);
    assert(pow2(46) == 0x4000_0000_0000) by {
        lemma2_to64();
        lemma_pow2_adds(23, 23);
    }
    let m = size(k);
    assert(m * w <= 0x4000_0000_0000 * w) by (nonlinear_arith)
        requires
            m <= 0x4000_0000_0000,
            w > 0,
    ;
    assert(x.absolute().abs_bits() == x.abs_bits());
}

/// What is at least one is more than a small multiple of something moderate.
proof fn lemma_not_small(x: Double, k: int, ratio: Double, scale: Double)
    requires
        is_whole(x, k),
        k != 0,
        -0x4000_0000_0000 <= k <= 0x4000_0000_0000,
        under(ratio, 1028),
        under(scale, 1119),
    ensures
        !x.absolute().le(product(ratio, scale)),
{
    let w = whole();
    lemma_whole_is_under(x, k);
    law_product_is_under(ratio, scale, 1028, 1119);
    let p = product(ratio, scale);
    lemma_pow2_strictly_increases(1073, 1074);
    lemma_pow2_pos(1074);
    lemma_magnitude_not_negative(p);
    let m = size(k);
    assert(m * w >= w) by (nonlinear_arith)
        requires
            m >= 1,
            w > 0,
    ;
    law_order_is_value_order(x.absolute(), p);
}

proof fn lemma_ratios()
    ensures
        under(Double { bits: ROOT_DEGENERACY_TAU }, 1028),
        under(product(Double { bits: DISCRIMINANT_SNAP }, Double { bits: EPSILON }), 1028),
{
    let h = HIDDEN as int;
    crate::rounding::lemma_pow2_53();
    let t = Double { bits: ROOT_DEGENERACY_TAU };
    assert(t.abs_bits() == 0x3d06_849b_86a1_2b9b);
    let f = 0x3d06_849b_86a1_2b9bint % h;
    assert(0x3d06_849b_86a1_2b9bint / h == 976);
    lemma_pow2_pos(975);
    assert((h + f) * pow2(975) <= (2 * h) * pow2(975)) by (nonlinear_arith)
        requires
            0 <= f < h,
            pow2(975) > 0,
    ;
    lemma_pow2_adds(53, 975);
    let (a, b) = (Double { bits: DISCRIMINANT_SNAP }, Double { bits: EPSILON });
    assert(a.magnitude() == h * pow2(1025));
    assert(b.magnitude() == h * pow2(970));
    lemma_pow2_adds(52, 1025);
    lemma_pow2_adds(52, 970);
    law_product_is_under(a, b, 1077, 1022);
    lemma_pow2_strictly_increases(1025, 1028);
}

proof fn lemma_halved(x: Double, h: int)
    requires
        stands(x, 2 * h, 1073),
    ensures
        is_whole(x, h),
{
    lemma_pow2_adds(1, 1073);
    lemma2_to64();
    lemma_mul_is_associative(h, 2, pow2(1073) as int);
    lemma_mul_is_commutative(h, 2);
}

/// The half that does not cancel: minus half of the linear coefficient and of the root
/// of the discriminant, in one sense.
proof fn lemma_stable(b: Double, disc: Double, j: int, d: int, h: int)
    requires
        is_whole(b, j),
        is_whole(disc, d * d),
        0 < d <= 0x40_0000,
        -0x40_0000 <= j <= 0x40_0000,
        -2 * h == (if j >= 0 {
            j + d
        } else {
            j - d
        }),
    ensures
        is_whole(stable_half(b, disc), h),
{
    lemma_constants();
    law_roots_of_squares_are_exact(disc, d, 1074);
    let r = root(disc);
    let zero = Double { bits: 0 };
    let half = Double { bits: 0xbfe0_0000_0000_0000 };
    law_units_are_ordered(zero, b, 0, j, 1074);
    law_short_sums_are_exact(b, r, j, d, 1074);
    law_short_sums_are_exact(b, r.negated(), j, -d, 1074);
    let t = sum(
        b,
        if zero.le(b) {
            r
        } else {
            r.negated()
        },
    );
    assert(is_whole(t, -2 * h));
    law_short_products_are_exact(half, t, -1, -2 * h, 1073, 1074);
    lemma_halved(product(half, t), h);
}

/// A quadratic with two different integer roots is solved: each of them is found.
pub proof fn law_whole_roots_are_found(a: Double, b: Double, c: Double, k: int, p: int, q: int)
    requires
        is_whole(a, k) && is_whole(b, -(k * (p + q))) && is_whole(c, k * (p * q)),
        k != 0 && -32 <= k <= 32,
        -512 <= p <= 512 && -512 <= q <= 512 && p != q,
    ensures
        quadratic_roots(a, b, c).1 == 2,
        exists|i: int, x: Double|
            #![trigger quadratic_roots(a, b, c).0[i], is_whole(x, p)]
            0 <= i < quadratic_roots(a, b, c).0.len() && is_whole(x, p) && near(quadratic_roots(a, b, c).0[i].value, x),
        exists|i: int, x: Double|
            #![trigger quadratic_roots(a, b, c).0[i], is_whole(x, q)]
            0 <= i < quadratic_roots(a, b, c).0.len() && is_whole(x, q) && near(quadratic_roots(a, b, c).0[i].value, x),
{
    let j = -(k * (p + q));
    let l = k * (p * q);
    let (kp, kq) = (k * p, k * q);
    lemma_bounds(k, p, q);
    assert(k * (p + q) == kp + kq) by (nonlinear_arith)
        requires
            kp == k * p,
            kq == k * q,
    ;
    let d = size(kp - kq);
    assert(kp != kq) by (nonlinear_arith)
        requires
            kp == k * p,
            kq == k * q,
            p != q,
            k != 0,
    ;
    law_discriminant_is_exact(a, b, c, k, j, l);
    assert(k * (k * (p * q)) == kp * kq) by (nonlinear_arith)
        requires
            kp == k * p,
            kq == k * q,
    ;
    assert(j * j - 4 * (kp * kq) == d * d) by (nonlinear_arith)
        requires
            j == -(kp + kq),
            d == kp - kq || d == kq - kp,
    ;
    let disc = discriminant_of(a, b, c);
    let forward = (j >= 0) == (kp >= kq);
    let h = if forward {
        kq
    } else {
        kp
    };
    lemma_stable(b, disc, j, d, h);
    let s = stable_half(b, disc);
    let (r1, r2) = if forward {
        (q, p)
    } else {
        (p, q)
    };
    lemma_mul_is_commutative(r1, k);
    assert(h == r1 * k);
    law_short_quotients_are_exact(s, a, r1, k, 1074, 1074);
    assert(h != 0);
    assert(l == r2 * h) by (nonlinear_arith)
        requires
            l == k * (p * q),
            h == r1 * k,
            (r1 == p && r2 == q) || (r1 == q && r2 == p),
    ;
    law_short_quotients_are_exact(c, s, r2, h, 1074, 1074);
    let (x, y) = (quotient(s, a), quotient(c, s));
    lemma_constants();
    law_units_are_ordered(s, Double { bits: 0 }, h, 0, 1074);
    lemma_not_degenerate(a, b, c, k, j, l);
    assert(0 < d * d <= 0x4000_0000) by (nonlinear_arith)
        requires
            0 < d <= 0x8000,
    ;
    lemma_not_vanishing(disc, a, b, c, k, j, l, d * d);
    law_units_are_ordered(disc, Double { bits: 0 }, d * d, 0, 1074);
    let raw = seq![x, y];
    reveal(quadratic_roots);
    let roots = quadratic_roots(a, b, c);
    assert(roots.0 == gathered(raw));
    law_gathering_loses_nothing(raw, 0);
    law_gathering_loses_nothing(raw, 1);
    let m = choose|i: int| 0 <= i < gathered(raw).len() && near((#[trigger] gathered(raw)[i]).value, raw[0]);
    let n = choose|i: int| 0 <= i < gathered(raw).len() && near((#[trigger] gathered(raw)[i]).value, raw[1]);
    assert(near(roots.0[m].value, x) && is_whole(x, r1));
    assert(near(roots.0[n].value, y) && is_whole(y, r2));
}

proof fn lemma_bounds(k: int, p: int, q: int)
    requires
        -32 <= k <= 32,
        -512 <= p <= 512 && -512 <= q <= 512,
    ensures
        -0x8000 <= k * (p + q) <= 0x8000,
        -0x80_0000 <= k * (p * q) <= 0x80_0000,
        -0x4000 <= k * p <= 0x4000,
        -0x4000 <= k * q <= 0x4000,
{
    let (s, m) = (p + q, p * q);
    assert(-0x4_0000 <= m <= 0x4_0000) by (nonlinear_arith)
        requires
            m == p * q,
            -512 <= p <= 512 && -512 <= q <= 512,
    ;
    assert(-0x8000 <= k * s <= 0x8000) by (nonlinear_arith)
        requires
            -32 <= k <= 32,
            -1024 <= s <= 1024,
    ;
    assert(-0x80_0000 <= k * m <= 0x80_0000) by (nonlinear_arith)
        requires
            -32 <= k <= 32,
            -0x4_0000 <= m <= 0x4_0000,
    ;
    assert(-0x4000 <= k * p <= 0x4000 && -0x4000 <= k * q <= 0x4000) by (nonlinear_arith)
        requires
            -32 <= k <= 32,
            -512 <= p <= 512 && -512 <= q <= 512,
    ;
}

proof fn lemma_moderate(x: Double, k: int)
    requires
        is_whole(x, k),
        -0x1000_0000_0000 <= k <= 0x1000_0000_0000,
    ensures
        under(x.absolute(), 1119),
{
    let w = whole();
    lemma_whole_is_under(x, k);
    lemma_pow2_pos(1074);
    lemma_pow2_adds(45, 1074);
    assert(pow2(45) == 0x2000_0000_0000) by {
        lemma2_to64();
        lemma_pow2_adds(23, 22);
    }
    let m = size(k);
    assert(m * w <= 0x2000_0000_0000 * w) by (nonlinear_arith)
        requires
            m <= 0x2000_0000_0000,
            w > 0,
    ;
    lemma_magnitude_not_negative(x.absolute());
}

proof fn lemma_not_degenerate(a: Double, b: Double, c: Double, k: int, j: int, l: int)
    requires
        is_whole(a, k) && is_whole(b, j) && is_whole(c, l),
        k != 0 && -32 <= k <= 32,
        small(j) && small(l),
    ensures
        !negligible(a, seq![b, c]),
{
    lemma_constants();
    lemma_ratios();
    law_units_are_ordered(a, Double { bits: 0 }, k, 0, 1074);
    let rest = seq![b, c];
    let zero = Double { bits: 0 };
    lemma_moderate(b, j);
    lemma_moderate(c, l);
    lemma_magnitude_not_negative(zero);
    lemma_pow2_pos(1119);
    assert(scale_of(rest, 0) == zero);
    assert(scale_of(rest, 1) == greater(zero, b.absolute()));
    assert(scale_of(rest, 2) == greater(scale_of(rest, 1), c.absolute()));
    lemma_not_small(a, k, Double { bits: ROOT_DEGENERACY_TAU }, scale_of(rest, 2));
}

proof fn lemma_not_vanishing(disc: Double, a: Double, b: Double, c: Double, k: int, j: int, l: int, e: int)
    requires
        is_whole(disc, e),
        0 < e <= 0x4000_0000_0000,
        is_whole(product(b, b), j * j),
        is_whole(product(fourfold(a), c), 4 * (k * l)),
        -32 <= k <= 32,
        -0x8000 <= j <= 0x8000,
        small(l),
    ensures
        !vanishes(disc, a, b, c),
{
    lemma_constants();
    lemma_ratios();
    assert(0 <= j * j <= 0x4000_0000) by (nonlinear_arith)
        requires
            -0x8000 <= j <= 0x8000,
    ;
    assert(-0x1000_0000 <= k * l <= 0x1000_0000) by (nonlinear_arith)
        requires
            -32 <= k <= 32,
            -0x80_0000 <= l <= 0x80_0000,
    ;
    lemma_moderate(product(b, b), j * j);
    lemma_moderate(product(fourfold(a), c), 4 * (k * l));
    law_units_are_ordered(disc, Double { bits: 0 }, e, 0, 1074);
    lemma_not_small(
        disc,
        e,
        product(Double { bits: DISCRIMINANT_SNAP }, Double { bits: EPSILON }),
        greater(product(b, b).absolute(), product(fourfold(a), c).absolute()),
    );
}

/// The cube of an integer.
pub open spec fn cube(x: int) -> int {
    x * x * x
}

proof fn lemma_shifted_cubic(y: int, s: int, n: int, e: int)
    ensures
        ({
            let x = y - s;
            cube(x) + 3 * s * (x * x) + 3 * n * x + e == cube(y) + 3 * (n - s * s) * y + (2 * cube(s) - 3 * (s * n) + e)
        }),
{
    let x = y - s;
    assert(x * x == y * y - 2 * (y * s) + s * s) by (nonlinear_arith)
        requires
            x == y - s,
    ;
    let (yys, yss, sss) = (y * y * s, y * s * s, s * s * s);
    assert(x * x * x == y * y * y - 3 * yys + 3 * yss - sss) by (nonlinear_arith)
        requires
            x == y - s,
            yys == y * y * s,
            yss == y * s * s,
            sss == s * s * s,
    ;
    assert(3 * s * (x * x) == 3 * yys - 6 * yss + 3 * sss) by (nonlinear_arith)
        requires
            x * x == y * y - 2 * (y * s) + s * s,
            yys == y * y * s,
            yss == y * s * s,
            sss == s * s * s,
    ;
    assert(3 * n * x == 3 * (n * y) - 3 * (n * s)) by (nonlinear_arith)
        requires
            x == y - s,
    ;
    assert(3 * (n - s * s) * y == 3 * (n * y) - 3 * yss) by (nonlinear_arith)
        requires
            yss == y * s * s,
    ;
    lemma_mul_is_commutative(n, s);
}

/// The depressed form of a cubic is the cubic over its leading coefficient, moved by
/// the shift: the two have the same values, one at a number and the other at that
/// number less the shift. The sign of its discriminant is that of the exact one. All
/// this in integers.
pub proof fn law_depressed_form_is_the_cubic(
    a: Double,
    b: Double,
    c: Double,
    d: Double,
    k: int,
    s: int,
    n: int,
    e: int,
)
    requires
        is_whole(a, k) && is_whole(b, (3 * s) * k) && is_whole(c, (3 * n) * k) && is_whole(d, e * k),
        k != 0,
        -64 <= s <= 64 && -64 <= n <= 64 && -0x1_0000 <= e <= 0x1_0000,
    ensures
        exists|m: int, q: int|
            #![trigger is_whole(depressed_form(a, b, c, d).third_p, m), is_whole(depressed_form(a, b, c, d).q, q)]
            {
                let f = depressed_form(a, b, c, d);
                &&& is_whole(f.shift, s) && is_whole(f.p, 3 * m) && is_whole(f.third_p, m) && is_whole(f.q, q)
                &&& stands(f.half_q, q, 1073)
                &&& stands(f.delta, q * q + 4 * cube(m), 1072)
                &&& forall|y: int| cube(y - s) + 3 * s * ((y - s) * (y - s)) + 3 * n * (y - s) + e == #[trigger] cube(y) + 3 * m * y + q
            },
{
    let (bb, cc, dd) = (quotient(b, a), quotient(c, a), quotient(d, a));
    law_short_quotients_are_exact(b, a, 3 * s, k, 1074, 1074);
    law_short_quotients_are_exact(c, a, 3 * n, k, 1074, 1074);
    law_short_quotients_are_exact(d, a, e, k, 1074, 1074);
    let (ss, sss, sn) = (s * s, s * s * s, s * n);
    assert(0 <= ss <= 4096 && -0x4_0000 <= sss <= 0x4_0000 && -4096 <= sn <= 4096) by (nonlinear_arith)
        requires
            ss == s * s,
            sss == s * s * s,
            sn == s * n,
            -64 <= s <= 64,
            -64 <= n <= 64,
    ;
    lemma_linear_coefficient(bb, cc, s, n);
    lemma_constant(bb, cc, dd, s, n, e);
    let (m, q) = (n - ss, 2 * sss - 3 * sn + e);
    assert(depressed_form(a, b, c, d) == rest_of_form(bb, linear_of(bb, cc), constant_of(bb, cc, dd))) by {
        reveal(depressed_form);
        reveal(linear_of);
        reveal(constant_of);
        reveal(rest_of_form);
    }
    lemma_rest_of_form(bb, linear_of(bb, cc), constant_of(bb, cc, dd), s, m, q);
    let f = depressed_form(a, b, c, d);
    assert forall|y: int| cube(y - s) + 3 * s * ((y - s) * (y - s)) + 3 * n * (y - s) + e == #[trigger] cube(y) + 3 * m * y + q by {
        lemma_shifted_cubic(y, s, n, e);
    }
    assert(is_whole(f.third_p, m) && is_whole(f.q, q));
}

#[verifier::opaque]
spec fn linear_of(bb: Double, cc: Double) -> Double {
    difference(cc, quotient(product(bb, bb), Double { bits: 0x4008_0000_0000_0000 }))
}

#[verifier::opaque]
spec fn constant_of(bb: Double, cc: Double, dd: Double) -> Double {
    let two = Double { bits: 0x4000_0000_0000_0000 };
    sum(
        difference(
            quotient(product(product(product(two, bb), bb), bb), Double { bits: 0x403b_0000_0000_0000 }),
            quotient(product(bb, cc), Double { bits: 0x4008_0000_0000_0000 }),
        ),
        dd,
    )
}

#[verifier::opaque]
spec fn rest_of_form(bb: Double, p: Double, q: Double) -> Depressed {
    let three = Double { bits: 0x4008_0000_0000_0000 };
    let half_q = product(Double { bits: 0x3fe0_0000_0000_0000 }, q);
    let third_p = quotient(p, three);
    Depressed {
        shift: quotient(bb, three),
        p,
        q,
        half_q,
        third_p,
        delta: sum(product(half_q, half_q), product(product(third_p, third_p), third_p)),
    }
}

proof fn lemma_linear_coefficient(bb: Double, cc: Double, s: int, n: int)
    requires
        is_whole(bb, 3 * s) && is_whole(cc, 3 * n),
        -64 <= s <= 64 && -64 <= n <= 64,
    ensures
        is_whole(linear_of(bb, cc), 3 * (n - s * s)),
{
    reveal(linear_of);
    lemma_constants();
    let three = Double { bits: 0x4008_0000_0000_0000 };
    let ss = s * s;
    assert(0 <= ss <= 4096 && (3 * s) * (3 * s) == 9 * ss) by (nonlinear_arith)
        requires
            ss == s * s,
            -64 <= s <= 64,
    ;
    law_short_products_are_exact(bb, bb, 3 * s, 3 * s, 1074, 1074);
    law_short_quotients_are_exact(product(bb, bb), three, 3 * ss, 3, 1074, 1074);
    law_short_sums_are_exact(cc, quotient(product(bb, bb), three), 3 * n, 3 * ss, 1074);
}

proof fn lemma_constant(bb: Double, cc: Double, dd: Double, s: int, n: int, e: int)
    requires
        is_whole(bb, 3 * s) && is_whole(cc, 3 * n) && is_whole(dd, e),
        -64 <= s <= 64 && -64 <= n <= 64 && -0x1_0000 <= e <= 0x1_0000,
    ensures
        is_whole(constant_of(bb, cc, dd), 2 * (s * s * s) - 3 * (s * n) + e),
{
    reveal(constant_of);
    lemma_constants();
    let three = Double { bits: 0x4008_0000_0000_0000 };
    let two = Double { bits: 0x4000_0000_0000_0000 };
    let cubed = Double { bits: 0x403b_0000_0000_0000 };
    let (ss, sss, sn) = (s * s, s * s * s, s * n);
    assert(0 <= ss <= 4096 && -0x4_0000 <= sss <= 0x4_0000 && -4096 <= sn <= 4096) by (nonlinear_arith)
        requires
            ss == s * s,
            sss == s * s * s,
            sn == s * n,
            -64 <= s <= 64,
            -64 <= n <= 64,
    ;
    assert((6 * s) * (3 * s) == 18 * ss && (18 * ss) * (3 * s) == 54 * sss && (3 * s) * (3 * n) == 9 * sn) by (nonlinear_arith)
        requires
            ss == s * s,
            sss == s * s * s,
            sn == s * n,
    ;
    law_short_products_are_exact(two, bb, 2, 3 * s, 1074, 1074);
    let b2 = product(two, bb);
    law_short_products_are_exact(b2, bb, 6 * s, 3 * s, 1074, 1074);
    let b3 = product(b2, bb);
    law_short_products_are_exact(b3, bb, 18 * ss, 3 * s, 1074, 1074);
    let b4 = product(b3, bb);
    law_short_quotients_are_exact(b4, cubed, 2 * sss, 27, 1074, 1074);
    law_short_products_are_exact(bb, cc, 3 * s, 3 * n, 1074, 1074);
    law_short_quotients_are_exact(product(bb, cc), three, 3 * sn, 3, 1074, 1074);
    let (t, u) = (quotient(b4, cubed), quotient(product(bb, cc), three));
    law_short_sums_are_exact(t, u, 2 * sss, 3 * sn, 1074);
    law_short_sums_are_exact(difference(t, u), dd, 2 * sss - 3 * sn, e, 1074);
}

proof fn lemma_rest_of_form(bb: Double, p: Double, q: Double, s: int, m: int, k: int)
    requires
        is_whole(bb, 3 * s) && is_whole(p, 3 * m) && is_whole(q, k),
        -64 <= s <= 64 && -4160 <= m <= 4160 && -0x10_0000 <= k <= 0x10_0000,
    ensures
        ({
            let f = rest_of_form(bb, p, q);
            &&& f.p == p && f.q == q
            &&& is_whole(f.shift, s) && is_whole(f.third_p, m)
            &&& stands(f.half_q, k, 1073)
            &&& stands(f.delta, k * k + 4 * cube(m), 1072)
        }),
{
    reveal(rest_of_form);
    lemma_constants();
    let three = Double { bits: 0x4008_0000_0000_0000 };
    let half = Double { bits: 0x3fe0_0000_0000_0000 };
    law_short_quotients_are_exact(bb, three, s, 3, 1074, 1074);
    law_short_products_are_exact(half, q, 1, k, 1073, 1074);
    law_short_quotients_are_exact(p, three, m, 3, 1074, 1074);
    let (x, y) = (product(half, q), quotient(p, three));
    let mm = m * m;
    assert(0 <= mm <= 0x200_0000 && 0 <= k * k <= 0x100_0000_0000) by (nonlinear_arith)
        requires
            mm == m * m,
            -4160 <= m <= 4160,
            -0x10_0000 <= k <= 0x10_0000,
    ;
    assert(-0x40_0000_0000 <= mm * m <= 0x40_0000_0000) by (nonlinear_arith)
        requires
            0 <= mm <= 0x200_0000,
            -4160 <= m <= 4160,
    ;
    law_short_products_are_exact(y, y, m, m, 1074, 1074);
    law_short_products_are_exact(product(y, y), y, mm, m, 1074, 1074);
    let third = product(product(y, y), y);
    lemma_pow2_adds(2, 1072);
    lemma2_to64();
    lemma_mul_is_associative(mm * m, 4, pow2(1072) as int);
    assert(stands(third, (mm * m) * 4, 1072));
    law_short_products_are_exact(x, x, k, k, 1073, 1073);
    law_short_sums_are_exact(product(x, x), third, k * k, (mm * m) * 4, 1072);
}

/// The compensated evaluation of a polynomial with integer coefficients at an integer
/// is exact as well, and there is nothing to compensate.
pub proof fn law_compensated_evaluation_is_exact(c: Seq<Double>, k: Seq<int>, x: Double, at: int, n: nat)
    requires
        0 < n <= c.len() == k.len(),
        forall|i: int| 0 <= i < c.len() ==> is_whole(#[trigger] c[i], k[i]) && small(k[i]),
        is_whole(x, at) && small(at),
        forall|m: int| 0 <= m <= n ==> small(#[trigger] polynomial(k.take(m), at)),
    ensures
        is_whole(compensated(c, x, n).0, polynomial(k.take(n as int), at)),
        is_whole(compensated(c, x, n).1, 0),
        is_whole(sum(compensated(c, x, n).0, compensated(c, x, n).1), polynomial(k.take(n as int), at)),
    decreases n,
{
    let before = k.take(n - 1);
    assert(k.take(n as int) =~= before.push(k[n - 1]));
    lemma_one_more_coefficient(before, k[n - 1], at);
    assert(small(polynomial(k.take(n as int), at)));
    assert(is_whole(c[n - 1], k[n - 1]));
    lemma_constants();
    if n == 1 {
        assert(before =~= Seq::<int>::empty());
        assert(0 * at == 0);
    } else {
        law_compensated_evaluation_is_exact(c, k, x, at, (n - 1) as nat);
        let (v, e) = compensated(c, x, (n - 1) as nat);
        let m = polynomial(before, at);
        assert(small(m));
        lemma_compensated_step(v, e, x, c[n - 1], m, at, k[n - 1]);
        assert(compensated(c, x, n) == step_of(v, e, x, c[n - 1])) by {
            reveal(step_of);
        }
    }
    law_short_sums_are_exact(
        compensated(c, x, n).0,
        compensated(c, x, n).1,
        polynomial(k.take(n as int), at),
        0,
        1074,
    );
}

#[verifier::opaque]
spec fn step_of(v: Double, e: Double, x: Double, c: Double) -> (Double, Double) {
    let p = product(v, x);
    (sum(p, c), sum(product(e, x), sum(product_error(v, x), sum_error(p, c))))
}

proof fn lemma_sum_error(p: Double, c: Double, y: int, t: int)
    requires
        is_whole(p, y) && is_whole(c, t),
        -0x4000_0000_0000 <= y <= 0x4000_0000_0000,
        small(t),
    ensures
        is_whole(sum(p, c), y + t),
        is_whole(sum_error(p, c), 0),
{
    law_short_sums_are_exact(p, c, y, t, 1074);
    let s = sum(p, c);
    law_short_sums_are_exact(s, p, y + t, y, 1074);
    let shifted = difference(s, p);
    law_short_sums_are_exact(s, shifted, y + t, t, 1074);
    law_short_sums_are_exact(p, difference(s, shifted), y, y, 1074);
    law_short_sums_are_exact(c, shifted, t, t, 1074);
    law_short_sums_are_exact(difference(p, difference(s, shifted)), difference(c, shifted), 0, 0, 1074);
}

proof fn lemma_compensated_step(v: Double, e: Double, x: Double, c: Double, m: int, at: int, t: int)
    requires
        is_whole(v, m) && is_whole(e, 0) && is_whole(x, at) && is_whole(c, t),
        small(m) && small(at) && small(t),
    ensures
        is_whole(step_of(v, e, x, c).0, m * at + t),
        is_whole(step_of(v, e, x, c).1, 0),
{
    reveal(step_of);
    lemma_product_error(v, x, m, at);
    let p = product(v, x);
    lemma_sum_error(p, c, m * at, t);
    let (pe, se) = (product_error(v, x), sum_error(p, c));
    law_short_sums_are_exact(pe, se, 0, 0, 1074);
    assert(0 * at == 0);
    law_short_products_are_exact(e, x, 0, at, 1074, 1074);
    law_short_sums_are_exact(product(e, x), sum(pe, se), 0, 0, 1074);
}

} // verus!
