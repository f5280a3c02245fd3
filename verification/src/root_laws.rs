//! That the roots of a quartic are all found: where they can lie at all, and that
//! every change of sign is followed up.

use crate::arithmetic::{difference, product, quotient, rounded, sum};
use crate::double::{magnitude_of, Double, HIDDEN};
use crate::error_bounds::{
    law_quotient_error, law_sum_error, law_sum_is_under, lemma_magnitude_not_negative, lemma_size_of_product, parts, size, under, whole,
};
use crate::exactness::{is_whole, law_short_products_are_exact, law_short_sums_are_exact, short};
use crate::math::greater;
use crate::order::{
    law_order_is_value_order, law_rounding_keeps_order, lemma_round_bits_cancels, lemma_round_bits_increases,
    lemma_round_bits_of_magnitude,
};
use crate::precision::lemma_short_is_exact;
use crate::roots::{
    all_marks, below_zero, cauchy_bound, changes_sign, clustered, coincide, gathered, horner, inner_marks, linear_roots, middle, narrow,
    next_trial, ordered, quartic_roots, refined, repeated_at, repeated_roots, searched, simple_roots, usable, with_copies, Mark, Root,
    ROOT_CLUSTER_FACTOR, SQRT_EPSILON,
};
use crate::rounding::{lemma_quotient_range, round_bits};
use crate::sorting::{lemma_ascending_exists, lemma_same_values, sorted};
use vstd::arithmetic::mul::*;
use vstd::arithmetic::power::{lemma_pow0, lemma_pow1, lemma_pow_adds, pow};
use vstd::arithmetic::power2::{lemma_pow2_adds, lemma_pow2_pos, lemma_pow2_strictly_increases, pow2};
use vstd::prelude::*;

verus! {

/// The value of a quartic at the fraction `p / q`, times the fourth power of `q`,
/// exactly.
pub open spec fn quartic_at(a: int, b: int, c: int, d: int, e: int, p: int, q: int) -> int {
    a * (p * p * p * p) + b * (p * p * p * q) + c * (p * p * q * q) + d * (p * q * q * q) + e * (q * q * q * q)
}

/// A fraction lies beyond a number, by a few parts of it.
pub open spec fn beyond(p: int, q: int, bound: Double) -> bool {
    q > 0 && size(p) * whole() * parts() >= q * bound.value() * (parts() + 4)
}

/// A term of a quartic, against the leading one.
proof fn lemma_term(c: int, a: int, x: int, q: int, m: int)
    requires
        q > 0,
        size(c) * q <= size(a) * (x - q),
        m >= 0,
    ensures
        size(c * (q * m)) <= size(a) * (x - q) * m,
{
    lemma_size_of_product(c, q * m);
    assert(q * m >= 0) by (nonlinear_arith)
        requires
            q > 0,
            m >= 0,
    ;
    assert(size(c) * (q * m) == size(c) * q * m) by (nonlinear_arith);
    assert(size(c) * q * m <= size(a) * (x - q) * m) by (nonlinear_arith)
        requires
            size(c) * q <= size(a) * (x - q),
            m >= 0,
    ;
}

/// Beyond Cauchy's bound the leading term outweighs all others.
proof fn lemma_cauchy(a: int, b: int, c: int, d: int, e: int, p: int, q: int)
    requires
        q > 0,
        a != 0,
        size(b) * q <= size(a) * (size(p) - q),
        size(c) * q <= size(a) * (size(p) - q),
        size(d) * q <= size(a) * (size(p) - q),
        size(e) * q <= size(a) * (size(p) - q),
    ensures
        size(quartic_at(a, b, c, d, e, p, q)) >= size(a) * (q * q * q * q),
        quartic_at(a, b, c, d, e, p, q) > 0 <==> a > 0,
{
    let x = size(p);
    let (m3, m2, m1, m0) = (x * x * x, x * x * q, x * q * q, q * q * q);
    assert(x >= 0);
    assert(m3 >= 0 && m2 >= 0 && m1 >= 0 && m0 > 0) by (nonlinear_arith)
        requires
            m3 == x * x * x,
            m2 == x * x * q,
            m1 == x * q * q,
            m0 == q * q * q,
            x >= 0,
            q > 0,
    ;
    lemma_term(b, a, x, q, m3);
    lemma_term(c, a, x, q, m2);
    lemma_term(d, a, x, q, m1);
    lemma_term(e, a, x, q, m0);
    let s = size(a);
    let g = s * (x - q);
    let lead = p * p * p * p;
    assert(lead == x * x * x * x) by (nonlinear_arith)
        requires
            lead == p * p * p * p,
            x == p || x == -p,
    ;
    assert((x - q) * (m3 + m2 + m1 + m0) == x * x * x * x - q * q * q * q) by (nonlinear_arith)
        requires
            m3 == x * x * x,
            m2 == x * x * q,
            m1 == x * q * q,
            m0 == q * q * q,
    ;
    assert(g * m3 + g * m2 + g * m1 + g * m0 == s * ((x - q) * (m3 + m2 + m1 + m0))) by (nonlinear_arith)
        requires
            g == s * (x - q),
    ;
    let (t3, t2, t1, t0) = (b * (p * p * p * q), c * (p * p * q * q), d * (p * q * q * q), e * (q * q * q * q));
    lemma_size_of_product(b, p * p * p * q);
    lemma_size_of_product(b, q * m3);
    lemma_size_of_product(c, p * p * q * q);
    lemma_size_of_product(c, q * m2);
    lemma_size_of_product(d, p * q * q * q);
    lemma_size_of_product(d, q * m1);
    assert(p * p * p * q == q * m3 || p * p * p * q == -(q * m3)) by (nonlinear_arith)
        requires
            m3 == x * x * x,
            x == p || x == -p,
    ;
    assert(p * p * q * q == q * m2) by (nonlinear_arith)
        requires
            m2 == x * x * q,
            x == p || x == -p,
    ;
    assert(p * q * q * q == q * m1 || p * q * q * q == -(q * m1)) by (nonlinear_arith)
        requires
            m1 == x * q * q,
            x == p || x == -p,
    ;
    assert(q * q * q * q == q * m0) by (nonlinear_arith)
        requires
            m0 == q * q * q,
    ;
    assert(size(t3) <= g * m3 && size(t2) <= g * m2 && size(t1) <= g * m1 && size(t0) <= g * m0);
    let rest = t3 + t2 + t1 + t0;
    let (xx, qq) = (x * x * x * x, q * q * q * q);
    lemma_mul_is_distributive_sub(s, xx, qq);
    assert(size(rest) <= s * xx - s * qq);
    lemma_size_of_product(a, lead);
    assert(x * x * x * x == (x * x) * (x * x)) by (nonlinear_arith);
    assert(lead >= 0) by (nonlinear_arith)
        requires
            lead == (x * x) * (x * x),
    ;
    assert(s * qq > 0) by (nonlinear_arith)
        requires
            s > 0,
            qq == q * m0,
            q > 0,
            m0 > 0,
    ;
    assert(size(a * lead) == s * xx);
    assert(a > 0 ==> a * lead >= 0) by (nonlinear_arith)
        requires
            lead >= 0,
    ;
    assert(a < 0 ==> a * lead <= 0) by (nonlinear_arith)
        requires
            lead >= 0,
    ;
}

/// One coefficient against the bound.
proof fn lemma_coefficient(c: Double, a: Double, cb: Double, bound: Double)
    requires
        c.finite(),
        a.finite(),
        !a.zero(),
        quotient(c, a).finite(),
        cb.finite(),
        quotient(c, a).magnitude() <= cb.value(),
        bound == sum(cb, Double { bits: 0x3ff0_0000_0000_0000 }),
        bound.finite(),
    ensures
        size(c.value()) * whole() * parts() <= size(a.value()) * (bound.value() * (parts() + 4) - whole() * parts()),
        bound.value() > 0,
{
    let one = Double { bits: 0x3ff0_0000_0000_0000 };
    let (k, h, w) = (parts(), HIDDEN as int, whole());
    let q = quotient(c, a);
    crate::order::lemma_one_magnitude();
    lemma_pow2_pos(1074);
    lemma_pow2_strictly_increases(52, 1074);
    crate::rounding::lemma_pow2_53();
    lemma_magnitude_not_negative(q);
    lemma_magnitude_not_negative(a);
    lemma_magnitude_not_negative(c);
    law_quotient_error(c, a);
    law_sum_error(cb, one);
    assert(one.value() == w);
    let x = cb.value() + w;
    let bv = bound.value();
    let s = size(a.value());
    let (cs, aq, ab, ax, sw) = (size(c.value()) * w, s * size(q.value()), s * bv, s * x, s * w);
    lemma_size_of_product(q.value(), a.value());
    lemma_size_of_product(c.value(), w);
    assert(size(q.value()) * size(a.value()) == aq) by (nonlinear_arith)
        requires
            aq == s * size(q.value()),
            s == size(a.value()),
    ;
    assert(size(q.value() * a.value() - c.value() * w) * k <= cs + h * s);
    assert(size(bv - x) * k <= x);
    assert(cs * k <= aq * k + cs + h * s);
    assert(ax >= aq + sw) by (nonlinear_arith)
        requires
            ax == s * x,
            aq == s * size(q.value()),
            sw == s * w,
            x >= size(q.value()) + w,
            s >= 0,
    ;
    assert(x * (k - 1) <= bv * k);
    assert(ax * (k - 1) <= ab * k) by (nonlinear_arith)
        requires
            ax == s * x,
            ab == s * bv,
            x * (k - 1) <= bv * k,
            s >= 0,
    ;
    assert(h * s <= sw) by (nonlinear_arith)
        requires
            sw == s * w,
            h <= w,
            s >= 0,
    ;
    assert(s * (bv * (k + 4) - w * k) == ab * (k + 4) - sw * k) by (nonlinear_arith)
        requires
            ab == s * bv,
            sw == s * w,
    ;
    assert(k == 0x20_0000_0000_0000int);
    assert(cs * k <= ab * (k + 4) - sw * k);
}

/// The greatest of some quotients is at least each of them.
proof fn lemma_bound_covers(a: Double, rest: Seq<Double>, n: nat, i: int)
    requires
        n <= rest.len(),
        0 <= i < n,
        forall|j: int| 0 <= j < n ==> quotient(#[trigger] rest[j], a).finite(),
    ensures
        cauchy_bound(a, rest, n).finite(),
        !cauchy_bound(a, rest, n).signed(),
        quotient(rest[i], a).abs_bits() <= cauchy_bound(a, rest, n).abs_bits(),
    decreases n,
{
    let q = quotient(rest[n - 1], a);
    assert(q.finite());
    assert(q.absolute().key() == q.abs_bits());
    if n > 1 {
        if i < n - 1 {
            lemma_bound_covers(a, rest, (n - 1) as nat, i);
        } else {
            lemma_bound_covers(a, rest, (n - 1) as nat, 0);
        }
    } else {
        assert(cauchy_bound(a, rest, 0) == (Double { bits: 0 }));
    }
}

/// No root lies at or beyond a number: the value of the quartic there is at least
/// the leading coefficient, and of its sign.
pub open spec fn encloses_roots(a: Double, rest: Seq<Double>, bound: Double) -> bool {
    forall|p: int, q: int|
        beyond(p, q, bound) ==> ({
            let v = #[trigger] quartic_at(
                a.value(),
                rest[0].value(),
                rest[1].value(),
                rest[2].value(),
                rest[3].value(),
                p,
                q,
            );
            size(v) >= size(a.value()) * (q * q * q * q) && (v > 0 <==> a.value() > 0)
        })
}

/// Cauchy's bound, as it is computed, encloses every root of a quartic.
proof fn lemma_bound_encloses(a: Double, rest: Seq<Double>)
    requires
        a.finite(),
        !a.zero(),
        rest.len() == 4,
        forall|j: int| 0 <= j < 4 ==> (#[trigger] rest[j]).finite() && quotient(rest[j], a).finite(),
        sum(cauchy_bound(a, rest, 4), Double { bits: 0x3ff0_0000_0000_0000 }).finite(),
    ensures
        encloses_roots(a, rest, sum(cauchy_bound(a, rest, 4), Double { bits: 0x3ff0_0000_0000_0000 })),
{
    let cb = cauchy_bound(a, rest, 4);
    let bound = sum(cb, Double { bits: 0x3ff0_0000_0000_0000 });
    let (k, w) = (parts(), whole());
    lemma_pow2_pos(1074);
    lemma_magnitude_not_negative(a);
    assert forall|p: int, q: int| beyond(p, q, bound) implies ({
        let v = #[trigger] quartic_at(
            a.value(),
            rest[0].value(),
            rest[1].value(),
            rest[2].value(),
            rest[3].value(),
            p,
            q,
        );
        size(v) >= size(a.value()) * (q * q * q * q) && (v > 0 <==> a.value() > 0)
    }) by {
        assert forall|j: int| 0 <= j < 4 implies size((#[trigger] rest[j]).value()) * q <= size(a.value()) * (size(p)
            - q) by {
            let c = rest[j];
            lemma_bound_covers(a, rest, 4, j);
            assert(quotient(c, a).finite());
            lemma_magnitudes(quotient(c, a), cb);
            lemma_coefficient(c, a, cb, bound);
            lemma_scaled(size(c.value()), size(a.value()), bound.value(), size(p), q, w, k);
        }
        lemma_cauchy(
            a.value(),
            rest[0].value(),
            rest[1].value(),
            rest[2].value(),
            rest[3].value(),
            p,
            q,
        );
    }
}

proof fn lemma_magnitudes(x: Double, y: Double)
    requires
        x.abs_bits() <= y.abs_bits(),
    ensures
        x.magnitude() <= y.magnitude(),
{
    if x.abs_bits() < y.abs_bits() {
        crate::order::lemma_magnitude_increases(x.abs_bits(), y.abs_bits());
    }
}

proof fn lemma_scaled(c: int, a: int, b: int, x: int, q: int, w: int, k: int)
    requires
        c * w * k <= a * (b * (k + 4) - w * k),
        x * w * k >= q * b * (k + 4),
        a >= 0,
        q > 0,
        w > 0,
        k > 0,
    ensures
        c * q <= a * (x - q),
{
    let m = w * k;
    let r = b * (k + 4);
    assert(c * m <= a * (r - m)) by (nonlinear_arith)
        requires
            c * w * k <= a * (r - w * k),
            m == w * k,
    ;
    assert(x * m >= q * r) by (nonlinear_arith)
        requires
            x * w * k >= q * b * (k + 4),
            m == w * k,
            r == b * (k + 4),
    ;
    assert((c * q) * m <= (a * (r - m)) * q) by (nonlinear_arith)
        requires
            c * m <= a * (r - m),
            q > 0,
    ;
    assert((a * (r - m)) * q == a * (q * r - q * m)) by (nonlinear_arith);
    assert(a * (q * r - q * m) <= a * (x * m - q * m)) by (nonlinear_arith)
        requires
            x * m >= q * r,
            a >= 0,
    ;
    assert(a * (x * m - q * m) == (a * (x - q)) * m) by (nonlinear_arith);
    assert(m > 0) by (nonlinear_arith)
        requires
            m == w * k,
            w > 0,
            k > 0,
    ;
    assert(c * q <= a * (x - q)) by (nonlinear_arith)
        requires
            (c * q) * m <= (a * (x - q)) * m,
            m > 0,
    ;
}

/// Twice a number, exactly.
pub(crate) proof fn lemma_double(x: Double)
    requires
        under(x, 2043),
    ensures
        rounded(2 * x.value()).finite(),
        rounded(2 * x.value()).value() == 2 * x.value(),
{
    let h = HIDDEN as int;
    let m = x.abs_bits();
    let (ex, fr) = (m / h, m % h);
    let v = 2 * x.magnitude();
    lemma_magnitude_not_negative(x);
    vstd::arithmetic::power2::lemma2_to64();
    if ex == 0 {
        lemma_short_is_exact(fr, 1);
        assert(v == fr * pow2(1));
    } else {
        let e = (ex - 1) as nat;
        lemma_pow2_adds(e, 1);
        lemma_pow2_pos(e);
        if ex > 2045 {
            lemma_pow2_strictly_increases(2043, e);
            assert((h + fr) * pow2(e) >= pow2(e)) by (nonlinear_arith)
                requires
                    h + fr >= 1,
                    pow2(e) > 0,
            ;
        }
        lemma_short_is_exact(h + fr, (e + 1) as nat);
        assert((h + fr) * (pow2(e) * 2) == 2 * ((h + fr) * pow2(e))) by (nonlinear_arith);
        assert(v == (h + fr) * pow2((e + 1) as nat));
    }
    lemma_round_bits_increases(v, v, 1);
    let r = rounded(2 * x.value());
    if x.value() < 0 {
        assert(r.abs_bits() == round_bits(v, 1) && r.signed());
    } else {
        assert(r.abs_bits() == round_bits(v, 1) && !r.signed());
    }
}

/// One half.
spec fn one_half() -> Double {
    Double { bits: 0x3fe0_0000_0000_0000 }
}

proof fn lemma_half_magnitude()
    ensures
        one_half().finite(),
        one_half().magnitude() == pow2(1073),
        pow2(1074) == 2 * pow2(1073),
        pow2(1073) > 0,
{
    let h = one_half();
    crate::rounding::lemma_pow2_53();
    lemma_pow2_pos(1073);
    assert(h.magnitude() == HIDDEN * pow2(1021)) by {
        assert(0x3fe0_0000_0000_0000int / (HIDDEN as int) == 1022);
        assert(0x3fe0_0000_0000_0000int % (HIDDEN as int) == 0);
    }
    lemma_pow2_adds(52, 1021);
    lemma_pow2_adds(1073, 1);
    vstd::arithmetic::power2::lemma2_to64();
}

/// Half of the double of a number is that number.
proof fn lemma_half_of_double(x: Double, d: Double)
    requires
        x.finite(),
        d.finite(),
        d.value() == 2 * x.value(),
    ensures
        product(one_half(), d).key() == x.key(),
{
    lemma_half_magnitude();
    lemma_magnitude_not_negative(x);
    lemma_magnitude_not_negative(d);
    let w = pow2(1074) as int;
    let n = one_half().magnitude() * d.magnitude();
    assert(d.magnitude() == 2 * x.magnitude());
    assert(n == x.magnitude() * w) by (nonlinear_arith)
        requires
            n == one_half().magnitude() * d.magnitude(),
            d.magnitude() == 2 * x.magnitude(),
            w == 2 * one_half().magnitude(),
    ;
    lemma_round_bits_cancels(x.magnitude(), w);
    if x.abs_bits() == 0 {
        assert(x.magnitude() == 0);
        assert(0 * w == 0);
        crate::arithmetic::lemma_nearest_zero(d.signed(), w);
        assert(product(one_half(), d) == crate::arithmetic::signed_zero(d.signed()));
    } else {
        lemma_round_bits_of_magnitude(x.abs_bits());
        assert(product(one_half(), d).abs_bits() == x.abs_bits());
        assert(d.signed() == x.signed());
    }
}

/// Halving keeps the order.
proof fn lemma_half_keeps_order(s: Double, t: Double)
    requires
        s.finite(),
        t.finite(),
        s.key() <= t.key(),
    ensures
        product(one_half(), s).key() <= product(one_half(), t).key(),
        !product(one_half(), s).nan(),
        !product(one_half(), t).nan(),
{
    lemma_half_magnitude();
    lemma_magnitude_not_negative(s);
    lemma_magnitude_not_negative(t);
    let w = pow2(1074) as int;
    let h = one_half().magnitude();
    let (a, b) = (h * s.magnitude(), h * t.magnitude());
    assert(a >= 0 && b >= 0) by (nonlinear_arith)
        requires
            a == h * s.magnitude(),
            b == h * t.magnitude(),
            h > 0,
            s.magnitude() >= 0,
            t.magnitude() >= 0,
    ;
    lemma_round_bits_increases(a, a, w);
    lemma_round_bits_increases(b, b, w);
    lemma_quotient_range(a, w);
    lemma_quotient_range(b, w);
    let (x, y) = (product(one_half(), s), product(one_half(), t));
    assert(x.abs_bits() == round_bits(a, w) && x.signed() == s.signed());
    assert(y.abs_bits() == round_bits(b, w) && y.signed() == t.signed());
    assert(s.abs_bits() == t.abs_bits() ==> a == b);
    if s.abs_bits() == 0 {
        assert(a == 0) by (nonlinear_arith)
            requires
                a == h * s.magnitude(),
                s.magnitude() == 0,
        ;
        crate::arithmetic::lemma_nearest_zero(s.signed(), w);
        assert(x.key() == 0);
    }
    if t.abs_bits() == 0 {
        assert(b == 0) by (nonlinear_arith)
            requires
                b == h * t.magnitude(),
                t.magnitude() == 0,
        ;
        crate::arithmetic::lemma_nearest_zero(t.signed(), w);
        assert(y.key() == 0);
    }
    if s.abs_bits() <= t.abs_bits() {
        lemma_magnitudes(s, t);
        assert(a <= b) by (nonlinear_arith)
            requires
                a == h * s.magnitude(),
                b == h * t.magnitude(),
                h > 0,
                s.magnitude() <= t.magnitude(),
        ;
        lemma_round_bits_increases(a, b, w);
    } else {
        lemma_magnitudes(t, s);
        assert(b <= a) by (nonlinear_arith)
            requires
                a == h * s.magnitude(),
                b == h * t.magnitude(),
                h > 0,
                t.magnitude() <= s.magnitude(),
        ;
        lemma_round_bits_increases(b, a, w);
    }
}

/// The middle of two numbers lies between them.
proof fn lemma_middle(lo: Double, hi: Double)
    requires
        under(lo, 2043),
        under(hi, 2043),
        lo.le(hi),
    ensures
        lo.le(middle(lo, hi)),
        middle(lo, hi).le(hi),
{
    law_order_is_value_order(lo, hi);
    law_sum_is_under(lo, hi, 2043);
    lemma_double(lo);
    lemma_double(hi);
    let (d, e) = (rounded(2 * lo.value()), rounded(2 * hi.value()));
    let v = lo.value() + hi.value();
    let s = sum(lo, hi);
    law_rounding_keeps_order(2 * lo.value(), v);
    law_rounding_keeps_order(v, 2 * hi.value());
    law_rounding_keeps_order(v, v);
    assert(s.key() == rounded(v).key());
    lemma_half_of_double(lo, d);
    lemma_half_of_double(hi, e);
    lemma_half_keeps_order(d, s);
    lemma_half_keeps_order(s, e);
}

proof fn lemma_between(x: Double, lo: Double, hi: Double)
    requires
        under(lo, 2043),
        under(hi, 2043),
        lo.le(x),
        x.le(hi),
    ensures
        under(x, 2043),
{
    if x.abs_bits() <= lo.abs_bits() {
        lemma_magnitudes(x, lo);
    } else {
        lemma_magnitudes(x, hi);
    }
}

/// The polynomial, as it is evaluated, changes sign between two numbers around `x`
/// and within a bracket.
pub open spec fn crossing_around(c: Seq<Double>, lo: Double, hi: Double, x: Double) -> bool {
    exists|l: Double, h: Double|
        #![trigger horner(c, l, c.len()), horner(c, h, c.len())]
        lo.le(l) && l.le(x) && x.le(h) && h.le(hi) && below_zero(horner(c, l, c.len())) != below_zero(
            horner(c, h, c.len()),
        )
}

/// `x` lies in a bracket, and is a root of the polynomial as it is evaluated or stands
/// at a change of its sign.
pub open spec fn located(c: Seq<Double>, lo: Double, hi: Double, x: Double) -> bool {
    &&& lo.le(x)
    &&& x.le(hi)
    &&& horner(c, x, c.len()).same(Double { bits: 0 }) || crossing_around(c, lo, hi, x)
}

proof fn lemma_wider(c: Seq<Double>, lo: Double, hi: Double, l: Double, h: Double, x: Double)
    requires
        lo.le(l),
        h.le(hi),
        located(c, l, h, x),
    ensures
        located(c, lo, hi, x),
{
    if crossing_around(c, l, h, x) {
        let (a, b) = choose|a: Double, b: Double|
            #![trigger horner(c, a, c.len()), horner(c, b, c.len())]
            l.le(a) && a.le(x) && x.le(b) && b.le(h) && below_zero(horner(c, a, c.len())) != below_zero(
                horner(c, b, c.len()),
            );
        assert(lo.le(a) && b.le(hi));
    }
}

proof fn lemma_search(c: Seq<Double>, lo: Double, hi: Double, flo: Double, x: Double, n: nat)
    requires
        under(lo, 2043),
        under(hi, 2043),
        lo.le(x),
        x.le(hi),
        flo == horner(c, lo, c.len()),
        below_zero(flo) != below_zero(horner(c, hi, c.len())),
    ensures
        located(c, lo, hi, searched(c, lo, hi, flo, x, n)),
    decreases n,
{
    let fx = horner(c, x, c.len());
    lemma_between(x, lo, hi);
    if n == 0 || fx.same(Double { bits: 0 }) {
        assert(below_zero(horner(c, lo, c.len())) != below_zero(horner(c, hi, c.len())));
    } else {
        let crossed = below_zero(flo) != below_zero(fx);
        let lo2 = if crossed {
            lo
        } else {
            x
        };
        let hi2 = if crossed {
            x
        } else {
            hi
        };
        let flo2 = if crossed {
            flo
        } else {
            fx
        };
        assert(below_zero(horner(c, lo2, c.len())) != below_zero(horner(c, hi2, c.len())));
        if !narrow(lo2, hi2, x) {
            let y = next_trial(c, lo2, hi2, x, fx);
            lemma_middle(lo2, hi2);
            lemma_search(c, lo2, hi2, flo2, y, (n - 1) as nat);
            lemma_wider(c, lo, hi, lo2, hi2, searched(c, lo2, hi2, flo2, y, (n - 1) as nat));
        }
    }
}

/// Refining a bracket stays inside it and ends at a root of the polynomial, as it is
/// evaluated, or at a change of its sign.
pub proof fn law_refining_follows_the_crossing(c: Seq<Double>, a: Double, b: Double)
    requires
        under(a, 2043),
        under(b, 2043),
        a.le(b),
        below_zero(horner(c, a, c.len())) != below_zero(horner(c, b, c.len())),
    ensures
        located(c, a, b, refined(c, a, b)),
{
    reveal(refined);
    assert(!b.lt(a));
    let flo = horner(c, a, c.len());
    lemma_middle(a, b);
    lemma_search(c, a, b, flo, middle(a, b), 80);
}

/// Two roots are so near that they count as one: within a part in two to the power of
/// twenty-four of the greater.
pub open spec fn near(x: Double, y: Double) -> bool {
    x == y || difference(y, x).absolute().le(
        product(Double { bits: 0x3e70_0000_0000_0000 }, greater(x.absolute(), y.absolute())),
    )
}

proof fn lemma_cluster_width()
    ensures
        product(Double { bits: ROOT_CLUSTER_FACTOR }, Double { bits: SQRT_EPSILON }) == (Double {
            bits: 0x3e70_0000_0000_0000,
        }),
{
    let four = Double { bits: ROOT_CLUSTER_FACTOR };
    let tiny = Double { bits: SQRT_EPSILON };
    let h = HIDDEN as int;
    crate::rounding::lemma_pow2_53();
    lemma_pow2_pos(1074);
    lemma_pow2_pos(1050);
    assert(four.magnitude() == h * pow2(1024));
    assert(tiny.magnitude() == h * pow2(996));
    lemma_pow2_adds(52, 1024);
    lemma_pow2_adds(52, 996);
    lemma_pow2_adds(1076, 1048);
    lemma_pow2_adds(1050, 1074);
    let m = 0x3e70_0000_0000_0000int;
    assert(m / h == 999 && m % h == 0);
    lemma_pow2_adds(52, 998);
    assert(magnitude_of(m) == h * pow2(998));
    assert(four.magnitude() * tiny.magnitude() == pow2(1050) * pow2(1074));
    lemma_round_bits_cancels(pow2(1050) as int, pow2(1074) as int);
    lemma_round_bits_of_magnitude(m);
}

/// Every number that is clustered is near a root.
proof fn lemma_clustered_near(s: Seq<Double>, n: nat, j: int)
    requires
        n <= s.len(),
        0 <= j < n,
    ensures
        exists|i: int| 0 <= i < clustered(s, n).len() && near((#[trigger] clustered(s, n)[i]).value, s[j]),
    decreases n,
{
    lemma_cluster_width();
    let d = clustered(s, n);
    let c = clustered(s, (n - 1) as nat);
    if j < n - 1 {
        lemma_clustered_near(s, (n - 1) as nat, j);
        let i = choose|i: int| 0 <= i < c.len() && near((#[trigger] c[i]).value, s[j]);
        assert(d[i].value == c[i].value);
    } else if c.len() > 0 && coincide(c.last().value, s[j]) {
        assert(d[c.len() - 1].value == c.last().value);
        assert(near(d[c.len() - 1].value, s[j]));
    } else {
        assert(near(d[c.len() as int].value, s[j]));
    }
}

proof fn lemma_usable_keeps(raw: Seq<Double>, n: nat, j: int)
    requires
        0 <= j < n <= raw.len(),
        n <= 4,
        raw[j].finite(),
    ensures
        usable(raw, n).contains(raw[j]),
        usable(raw, n).len() <= n,
    decreases n,
{
    let u = usable(raw, (n - 1) as nat);
    lemma_usable_short(raw, (n - 1) as nat);
    lemma_usable_short(raw, n);
    if j < n - 1 {
        lemma_usable_keeps(raw, (n - 1) as nat, j);
        let i = choose|i: int| 0 <= i < u.len() && u[i] == raw[j];
        assert(usable(raw, n)[i] == raw[j]);
    } else {
        assert(usable(raw, n).last() == raw[j]);
    }
}

proof fn lemma_usable_short(raw: Seq<Double>, n: nat)
    ensures
        usable(raw, n).len() <= n,
    decreases n,
{
    if n > 0 {
        lemma_usable_short(raw, (n - 1) as nat);
    }
}

/// Gathering loses no finite number: each of at most four is near a root.
pub proof fn law_gathering_loses_nothing(raw: Seq<Double>, j: int)
    requires
        raw.len() <= 4,
        0 <= j < raw.len(),
        raw[j].finite(),
    ensures
        exists|i: int| 0 <= i < gathered(raw).len() && near((#[trigger] gathered(raw)[i]).value, raw[j]),
{
    let u = usable(raw, raw.len());
    lemma_usable_keeps(raw, raw.len(), j);
    let s = ordered(u);
    let w = lemma_ascending_exists(u);
    assert(sorted(w) && w.to_multiset() == u.to_multiset());
    lemma_same_values(s, u);
    assert(s.contains(raw[j]));
    let k = choose|k: int| 0 <= k < s.len() && s[k] == raw[j];
    lemma_clustered_near(s, s.len(), k);
    let g = clustered(s, s.len());
    assert(gathered(raw) == g);
    let i = choose|i: int| 0 <= i < g.len() && near((#[trigger] g[i]).value, s[k]);
    assert(near(gathered(raw)[i].value, raw[j]));
}

/// The polynomial, as it is evaluated, has values of opposite signs at two numbers.
pub open spec fn opposite(c: Seq<Double>, x: Double, y: Double) -> bool {
    let (l, h) = (horner(c, x, c.len()), horner(c, y, c.len()));
    &&& l.finite() && h.finite()
    &&& !l.same(Double { bits: 0 }) && !h.same(Double { bits: 0 })
    &&& below_zero(l) != below_zero(h)
}

/// Among the roots is one near a number that stands at a change of sign between two
/// others.
pub open spec fn found(roots: Seq<Root>, c: Seq<Double>, x: Double, y: Double) -> bool {
    exists|i: int, z: Double|
        #![trigger roots[i], located(c, x, y, z)]
        0 <= i < roots.len() && located(c, x, y, z) && near(roots[i].value, z)
}

/// The points between minus and plus a bound where the derivative vanishes, among the
/// first `n`.
pub open spec fn within_bound(critical: Seq<Root>, bound: Double, n: nat) -> Seq<Double>
    decreases n,
{
    if n == 0 {
        Seq::empty()
    } else {
        let before = within_bound(critical, bound, (n - 1) as nat);
        let x = critical[n - 1].value;
        if bound.negated().lt(x) && x.lt(bound) {
            before.push(x)
        } else {
            before
        }
    }
}

/// Where a quartic is looked at: at the bound on either side, and where its derivative
/// vanishes in between.
pub open spec fn stations(critical: Seq<Root>, bound: Double) -> Seq<Double> {
    seq![bound.negated()] + within_bound(critical, bound, critical.len()) + seq![bound]
}

proof fn lemma_inner_marks(c: Seq<Double>, critical: Seq<Root>, bound: Double, n: nat)
    requires
        n <= critical.len() <= 3,
    ensures
        ({
            let m = inner_marks(c, critical, bound, n);
            let v = within_bound(critical, bound, n);
            &&& m.len() == v.len() <= n
            &&& forall|i: int| 0 <= i < m.len() ==> (#[trigger] m[i]).x == v[i] && m[i].repeated == repeated_at(c, v[i])
        }),
    decreases n,
{
    if n > 0 {
        lemma_inner_marks(c, critical, bound, (n - 1) as nat);
    }
}

proof fn lemma_simple_roots(c: Seq<Double>, m: Seq<Mark>, n: nat)
    requires
        n < m.len() <= 5,
        forall|i: int| 0 <= i < m.len() ==> !(#[trigger] m[i]).repeated,
    ensures
        simple_roots(c, m, Seq::empty(), n).len() <= n,
        forall|i: int|
            0 <= i < n && changes_sign(c, #[trigger] m[i], m[i + 1]) ==> simple_roots(c, m, Seq::empty(), n).contains(
                refined(c, m[i].x, m[i + 1].x),
            ),
    decreases n,
{
    if n > 0 {
        lemma_simple_roots(c, m, (n - 1) as nat);
        let s = simple_roots(c, m, Seq::empty(), (n - 1) as nat);
        let t = simple_roots(c, m, Seq::empty(), n);
        assert forall|i: int| 0 <= i < n && changes_sign(c, #[trigger] m[i], m[i + 1]) implies t.contains(
            refined(c, m[i].x, m[i + 1].x),
        ) by {
            let x = refined(c, m[i].x, m[i + 1].x);
            if i < n - 1 {
                let k = choose|k: int| 0 <= k < s.len() && s[k] == x;
                assert(t[k] == x);
            } else {
                assert(t.last() == x);
            }
        }
    }
}

proof fn lemma_no_repeated(m: Seq<Mark>, n: nat)
    requires
        n <= m.len(),
        forall|i: int| 0 <= i < m.len() ==> !(#[trigger] m[i]).repeated,
    ensures
        repeated_roots(m, n) == Seq::<Double>::empty(),
    decreases n,
{
    if n > 0 {
        lemma_no_repeated(m, (n - 1) as nat);
        assert(!m[n - 1].repeated);
    }
}

/// The neighbouring stations of a quartic are in order.
spec fn in_order(v: Seq<Double>) -> bool {
    forall|i: int, j: int| 0 <= i && j == i + 1 && j < v.len() ==> (#[trigger] v[i]).le(#[trigger] v[j])
}

/// No simple root of a quartic is missed. There is a number beyond which, on either
/// side, the exact quartic has no root; and wherever the quartic, as it is evaluated,
/// changes sign between neighbours among minus that number, the points where its
/// derivative vanishes, and that number, a root is found at such a change.
///
/// The points where the derivative vanishes are in ascending order, and none of them
/// counts as a repeated root of the quartic.
pub proof fn law_quartic_misses_no_crossing(a: Double, rest: Seq<Double>, critical: Seq<Root>)
    requires
        a.finite(),
        !a.zero(),
        rest.len() == 4,
        forall|j: int| 0 <= j < 4 ==> (#[trigger] rest[j]).finite() && under(quotient(rest[j], a), 2000),
        critical.len() <= 3,
        forall|i: int, j: int| 0 <= i < j < critical.len() ==> (#[trigger] critical[i]).value.le((#[trigger] critical[j]).value),
        forall|i: int| 0 <= i < critical.len() ==> !repeated_at(seq![a] + rest, (#[trigger] critical[i]).value),
    ensures
        exists|bound: Double| #[trigger]
            encloses_roots(a, rest, bound) && ({
                let v = stations(critical, bound);
                forall|i: int|
                    0 <= i < v.len() - 1 && opposite(seq![a] + rest, #[trigger] v[i], v[i + 1]) ==> found(
                        quartic_roots(a, rest, critical),
                        seq![a] + rest,
                        v[i],
                        v[i + 1],
                    )
            }),
{
    let c = seq![a] + rest;
    let one = Double { bits: 0x3ff0_0000_0000_0000 };
    let cb = cauchy_bound(a, rest, 4);
    let bound = sum(cb, one);
    lemma_bound_is_under(a, rest, 4);
    lemma_one_is_under();
    law_sum_is_under(cb, one, 2000);
    lemma_pow2_strictly_increases(2001, 2043);
    lemma_bound_encloses(a, rest);
    let m = all_marks(c, critical, bound);
    let v = stations(critical, bound);
    let inner = inner_marks(c, critical, bound, critical.len());
    lemma_inner_marks(c, critical, bound, critical.len());
    lemma_within(c, critical, bound, critical.len());
    assert(m.len() == v.len() <= 5);
    assert forall|i: int| 0 <= i < m.len() implies (#[trigger] m[i]).x == v[i] && !m[i].repeated by {
        if 0 < i < m.len() - 1 {
            assert(m[i] == inner[i - 1]);
            assert(v[i] == within_bound(critical, bound, critical.len())[i - 1]);
        }
    }
    lemma_no_repeated(m, m.len());
    let raw = simple_roots(c, m, Seq::empty(), (m.len() - 1) as nat);
    lemma_simple_roots(c, m, (m.len() - 1) as nat);
    lemma_bound_positive(a, rest);
    lemma_stations_in_order(critical, bound);
    let roots = quartic_roots(a, rest, critical);
    assert(roots == gathered(raw));
    assert forall|i: int| 0 <= i < v.len() - 1 && opposite(c, #[trigger] v[i], v[i + 1]) implies found(
        roots,
        c,
        v[i],
        v[i + 1],
    ) by {
        reveal(changes_sign);
        assert(m[i].x == v[i] && m[i + 1].x == v[i + 1]);
        assert(changes_sign(c, m[i], m[i + 1]));
        let z = refined(c, v[i], v[i + 1]);
        assert(v[i].le(v[i + 1]));
        lemma_station_is_under(critical, bound, i);
        lemma_station_is_under(critical, bound, i + 1);
        law_refining_follows_the_crossing(c, v[i], v[i + 1]);
        lemma_between(z, v[i], v[i + 1]);
        let j = choose|j: int| 0 <= j < raw.len() && raw[j] == z;
        law_gathering_loses_nothing(raw, j);
        let k = choose|k: int| 0 <= k < gathered(raw).len() && near((#[trigger] gathered(raw)[k]).value, raw[j]);
        assert(located(c, v[i], v[i + 1], z) && near(roots[k].value, z));
    }
}

proof fn lemma_within(c: Seq<Double>, critical: Seq<Root>, bound: Double, n: nat)
    requires
        n <= critical.len(),
        forall|i: int| 0 <= i < critical.len() ==> !repeated_at(c, (#[trigger] critical[i]).value),
    ensures
        ({
            let v = within_bound(critical, bound, n);
            &&& forall|i: int| 0 <= i < v.len() ==> !repeated_at(c, #[trigger] v[i]) && bound.negated().lt(v[i]) && v[i].lt(bound)
        }),
    decreases n,
{
    if n > 0 {
        lemma_within(c, critical, bound, (n - 1) as nat);
        let u = within_bound(critical, bound, (n - 1) as nat);
        let v = within_bound(critical, bound, n);
        let x = critical[n - 1];
        assert(!repeated_at(c, x.value));
        assert forall|i: int| 0 <= i < v.len() implies !repeated_at(c, #[trigger] v[i]) && bound.negated().lt(v[i]) && v[i].lt(
            bound,
        ) by {
            if i < u.len() {
                assert(u[i] == v[i]);
            } else {
                assert(v[i] == x.value);
            }
        }
    }
}

proof fn lemma_within_order(critical: Seq<Root>, bound: Double, n: nat)
    requires
        n <= critical.len(),
        forall|i: int, j: int| 0 <= i < j < critical.len() ==> (#[trigger] critical[i]).value.le((#[trigger] critical[j]).value),
    ensures
        ({
            let v = within_bound(critical, bound, n);
            &&& in_order(v)
            &&& forall|i: int| 0 <= i < v.len() ==> bound.negated().lt(#[trigger] v[i]) && v[i].lt(bound)
            &&& forall|i: int, j: int|
                0 <= i < v.len() && n <= j < critical.len() ==> (#[trigger] v[i]).le((#[trigger] critical[j]).value)
        }),
    decreases n,
{
    if n > 0 {
        lemma_within_order(critical, bound, (n - 1) as nat);
        let u = within_bound(critical, bound, (n - 1) as nat);
        let v = within_bound(critical, bound, n);
        let x = critical[n - 1];
        assert forall|i: int, j: int| 0 <= i && j == i + 1 && j < v.len() implies (#[trigger] v[i]).le(#[trigger] v[j]) by {
            assert(u[i] == v[i]);
            if j < u.len() {
                assert(u[j] == v[j]);
            } else {
                assert(u[i].le(x.value));
            }
        }
        assert forall|i: int, j: int| 0 <= i < v.len() && n <= j < critical.len() implies (#[trigger] v[i]).le(
            (#[trigger] critical[j]).value,
        ) by {
            if i < u.len() {
                assert(u[i] == v[i]);
                assert(u[i].le(critical[j].value));
            } else {
                assert(x.value.le(critical[j].value));
            }
        }
    }
}

proof fn lemma_stations_in_order(critical: Seq<Root>, bound: Double)
    requires
        bound.finite(),
        bound.key() >= 0,
        forall|i: int, j: int| 0 <= i < j < critical.len() ==> (#[trigger] critical[i]).value.le((#[trigger] critical[j]).value),
    ensures
        in_order(stations(critical, bound)),
{
    let v = stations(critical, bound);
    let u = within_bound(critical, bound, critical.len());
    lemma_within_order(critical, bound, critical.len());
    assert(bound.negated().abs_bits() == bound.abs_bits());
    assert(bound.negated().key() == -bound.key());
    assert forall|i: int, j: int| 0 <= i && j == i + 1 && j < v.len() implies (#[trigger] v[i]).le(#[trigger] v[j]) by {
        if i > 0 {
            assert(v[i] == u[i - 1]);
        }
        if j < v.len() - 1 {
            assert(v[j] == u[j - 1]);
        }
        if i > 0 && j < v.len() - 1 {
            assert(u[i - 1].le(u[j - 1]));
        }
    }
}

proof fn lemma_station_is_under(critical: Seq<Root>, bound: Double, i: int)
    requires
        under(bound, 2043),
        bound.key() >= 0,
        0 <= i < stations(critical, bound).len(),
        forall|i: int, j: int| 0 <= i < j < critical.len() ==> (#[trigger] critical[i]).value.le((#[trigger] critical[j]).value),
    ensures
        under(stations(critical, bound)[i], 2043),
{
    let v = stations(critical, bound);
    let u = within_bound(critical, bound, critical.len());
    lemma_within_order(critical, bound, critical.len());
    assert(bound.negated().abs_bits() == bound.abs_bits());
    if 0 < i < v.len() - 1 {
        assert(v[i] == u[i - 1]);
        lemma_between(v[i], bound.negated(), bound);
    }
}

proof fn lemma_one_is_under()
    ensures
        under(Double { bits: 0x3ff0_0000_0000_0000 }, 2000),
        (Double { bits: 0x3ff0_0000_0000_0000 }).value() == whole(),
{
    crate::order::lemma_one_magnitude();
    lemma_pow2_strictly_increases(1074, 2000);
}

proof fn lemma_bound_is_under(a: Double, rest: Seq<Double>, n: nat)
    requires
        n <= rest.len(),
        forall|j: int| 0 <= j < rest.len() ==> under(quotient(#[trigger] rest[j], a), 2000),
    ensures
        under(cauchy_bound(a, rest, n), 2000),
        !cauchy_bound(a, rest, n).signed(),
    decreases n,
{
    lemma_pow2_pos(2000);
    assert(magnitude_of(0) == 0);
    if n > 0 {
        lemma_bound_is_under(a, rest, (n - 1) as nat);
        let q = quotient(rest[n - 1], a);
        assert(q.absolute().abs_bits() == q.abs_bits());
    }
}

proof fn lemma_bound_positive(a: Double, rest: Seq<Double>)
    requires
        rest.len() == 4,
        forall|j: int| 0 <= j < rest.len() ==> under(quotient(#[trigger] rest[j], a), 2000),
    ensures
        sum(cauchy_bound(a, rest, 4), Double { bits: 0x3ff0_0000_0000_0000 }).key() >= 0,
{
    let cb = cauchy_bound(a, rest, 4);
    lemma_bound_is_under(a, rest, 4);
    lemma_one_is_under();
    lemma_magnitude_not_negative(cb);
    lemma_pow2_pos(1074);
    let v = cb.value() + whole();
    law_rounding_keeps_order(v, v);
}

/// The value of a polynomial with integer coefficients, in descending degree, at an
/// integer: the sum of its terms.
pub open spec fn polynomial(k: Seq<int>, x: int) -> int
    decreases k.len(),
{
    if k.len() == 0 {
        0
    } else {
        k[0] * pow(x, (k.len() - 1) as nat) + polynomial(k.drop_first(), x)
    }
}

pub(crate) proof fn lemma_one_more_coefficient(k: Seq<int>, c: int, x: int)
    ensures
        polynomial(k.push(c), x) == polynomial(k, x) * x + c,
    decreases k.len(),
{
    if k.len() == 0 {
        assert(k.push(c).drop_first() =~= Seq::<int>::empty());
        lemma_pow0(x);
        assert(k =~= Seq::<int>::empty());
        assert(polynomial(Seq::<int>::empty(), x) == 0);
        assert(k.push(c)[0] == c);
        assert(polynomial(k.push(c), x) == c * 1 + 0);
        assert(0 * x == 0);
    } else {
        let t = k.drop_first();
        assert(k.push(c).drop_first() =~= t.push(c));
        lemma_one_more_coefficient(t, c, x);
        let p = pow(x, (k.len() - 1) as nat);
        lemma_pow_adds(x, (k.len() - 1) as nat, 1);
        lemma_pow1(x);
        lemma_mul_is_associative(k[0], p, x);
        lemma_mul_is_distributive_add_other_way(x, k[0] * p, polynomial(t, x));
        assert(k.push(c)[0] == k[0]);
        assert(polynomial(k.push(c), x) == k[0] * pow(x, k.len()) + polynomial(t.push(c), x));
    }
}

/// A polynomial with integer coefficients is evaluated exactly at an integer, as far as
/// the values of its leading parts are short.
pub proof fn law_evaluation_is_exact(c: Seq<Double>, k: Seq<int>, x: Double, at: int, n: nat)
    requires
        n <= c.len() == k.len(),
        forall|i: int| 0 <= i < c.len() ==> is_whole(#[trigger] c[i], k[i]),
        is_whole(x, at),
        forall|m: int|
            0 <= m <= n ==> short(#[trigger] polynomial(k.take(m), at)) && short(polynomial(k.take(m), at) * at),
    ensures
        is_whole(horner(c, x, n), polynomial(k.take(n as int), at)),
    decreases n,
{
    if n == 0 {
        lemma_magnitude_not_negative(Double { bits: 0 });
        assert(k.take(0) =~= Seq::<int>::empty());
        assert(0 * pow2(1074) == 0);
    } else {
        law_evaluation_is_exact(c, k, x, at, (n - 1) as nat);
        let before = k.take(n - 1);
        assert(k.take(n as int) =~= before.push(k[n - 1]));
        lemma_one_more_coefficient(before, k[n - 1], at);
        let h = horner(c, x, (n - 1) as nat);
        let v = polynomial(before, at);
        assert(short(polynomial(k.take(n as int), at)));
        law_short_products_are_exact(h, x, v, at, 1074, 1074);
        assert(is_whole(c[n - 1], k[n - 1]));
        law_short_sums_are_exact(product(h, x), c[n - 1], v * at, k[n - 1], 1074);
    }
}

/// The root of a linear polynomial is where it vanishes, up to rounding: the only
/// number that is found is near one that the leading coefficient turns into minus the
/// other.
pub proof fn law_linear_root_vanishes(a: Double, b: Double)
    requires
        a.finite() && b.finite(),
        !a.zero(),
        linear_roots(a, b).1 == 1,
        quotient(b.negated(), a).finite(),
    ensures
        exists|i: int, x: Double|
            #![trigger linear_roots(a, b).0[i], x.finite()]
            0 <= i < linear_roots(a, b).0.len() && near(linear_roots(a, b).0[i].value, x) && x.finite() && size(
                x.value() * a.value() + b.value() * whole(),
            ) * parts() <= size(b.value()) * whole() + HIDDEN * size(a.value()),
{
    let x = quotient(b.negated(), a);
    let raw = seq![x];
    assert(b.negated().abs_bits() == b.abs_bits());
    assert(b.negated().value() == -b.value());
    law_quotient_error(b.negated(), a);
    lemma_mul_unary_negation(b.value(), whole());
    law_gathering_loses_nothing(raw, 0);
    let i = choose|i: int| 0 <= i < gathered(raw).len() && near((#[trigger] gathered(raw)[i]).value, raw[0]);
    assert(near(linear_roots(a, b).0[i].value, x) && x.finite());
}

proof fn lemma_usable_first(raw: Seq<Double>, n: nat)
    requires
        0 < n <= raw.len(),
        raw[0].finite(),
    ensures
        usable(raw, n).len() > 0,
        usable(raw, n)[0] == raw[0],
    decreases n,
{
    if n > 1 {
        lemma_usable_first(raw, (n - 1) as nat);
    } else {
        assert(usable(raw, 0).len() == 0);
    }
}

proof fn lemma_simple_keep_first(c: Seq<Double>, m: Seq<Mark>, found: Seq<Double>, n: nat)
    requires
        n < m.len(),
        found.len() > 0,
    ensures
        simple_roots(c, m, found, n).len() > 0,
        simple_roots(c, m, found, n)[0] == found[0],
    decreases n,
{
    if n > 0 {
        lemma_simple_keep_first(c, m, found, (n - 1) as nat);
    }
}

proof fn lemma_copies(s: Seq<Double>, x: Double, n: nat)
    ensures
        s.len() > 0 ==> with_copies(s, x, n).len() > 0 && with_copies(s, x, n)[0] == s[0],
        s.len() == 0 && n > 0 ==> with_copies(s, x, n).len() > 0 && with_copies(s, x, n)[0] == x,
    decreases n,
{
    if n > 0 {
        lemma_copies(s, x, (n - 1) as nat);
        if n == 1 {
            assert(with_copies(s, x, 0) == s);
        }
    }
}

proof fn lemma_first_repeated(m: Seq<Mark>, i: int, n: nat)
    requires
        0 <= i < n <= m.len(),
        m[i].repeated,
        m[i].copies > 0,
        forall|j: int| 0 <= j < i ==> !(#[trigger] m[j]).repeated,
    ensures
        repeated_roots(m, n).len() > 0,
        repeated_roots(m, n)[0] == m[i].x,
    decreases n,
{
    let s = repeated_roots(m, (n - 1) as nat);
    if n == i + 1 {
        lemma_none_before(m, i as nat);
        lemma_copies(s, m[i].x, m[i].copies as nat);
    } else {
        lemma_first_repeated(m, i, (n - 1) as nat);
        lemma_copies(s, m[n - 1].x, m[n - 1].copies as nat);
    }
}

proof fn lemma_none_before(m: Seq<Mark>, n: nat)
    requires
        n <= m.len(),
        forall|j: int| 0 <= j < n ==> !(#[trigger] m[j]).repeated,
    ensures
        repeated_roots(m, n).len() == 0,
    decreases n,
{
    if n > 0 {
        lemma_none_before(m, (n - 1) as nat);
        assert(!m[n - 1].repeated);
    }
}

/// A repeated root of a quartic is found: the first of the points where the derivative
/// vanishes that counts as a root as well, if it lies within the bound on the roots.
pub proof fn law_quartic_finds_a_repeated_root(a: Double, rest: Seq<Double>, critical: Seq<Root>, i: int)
    requires
        rest.len() == 4,
        critical.len() <= 3,
        0 <= i < critical.len(),
        critical[i].value.finite(),
        critical[i].multiplicity < 255,
        repeated_at(seq![a] + rest, critical[i].value),
        forall|j: int| 0 <= j < i ==> !repeated_at(seq![a] + rest, (#[trigger] critical[j]).value),
        forall|j: int| 0 <= j < 4 ==> (#[trigger] rest[j]).finite() && under(quotient(rest[j], a), 2000),
        a.finite(),
        !a.zero(),
    ensures
        exists|bound: Double| #[trigger]
            encloses_roots(a, rest, bound) && (bound.negated().lt(critical[i].value) && critical[i].value.lt(bound)
                ==> exists|j: int|
                0 <= j < quartic_roots(a, rest, critical).len() && near(
                    (#[trigger] quartic_roots(a, rest, critical)[j]).value,
                    critical[i].value,
                )),
{
    let c = seq![a] + rest;
    let one = Double { bits: 0x3ff0_0000_0000_0000 };
    let cb = cauchy_bound(a, rest, 4);
    let bound = sum(cb, one);
    lemma_bound_is_under(a, rest, 4);
    lemma_one_is_under();
    law_sum_is_under(cb, one, 2000);
    lemma_pow2_strictly_increases(2001, 2043);
    lemma_bound_encloses(a, rest);
    if bound.negated().lt(critical[i].value) && critical[i].value.lt(bound) {
        lemma_repeated_is_found(c, critical, bound, i);
        let m = all_marks(c, critical, bound);
        let raw = simple_roots(c, m, repeated_roots(m, m.len()), (m.len() - 1) as nat);
        let j = choose|j: int| 0 <= j < gathered(raw).len() && near((#[trigger] gathered(raw)[j]).value, critical[i].value);
        assert(quartic_roots(a, rest, critical) == gathered(raw));
        assert(near(quartic_roots(a, rest, critical)[j].value, critical[i].value));
    }
}

proof fn lemma_marks_keep(c: Seq<Double>, critical: Seq<Root>, bound: Double, i: int, n: nat)
    requires
        0 <= i < n <= critical.len() <= 3,
        bound.negated().lt(critical[i].value),
        critical[i].value.lt(bound),
    ensures
        ({
            let m = inner_marks(c, critical, bound, n);
            let k = within_bound(critical, bound, i as nat).len() as int;
            &&& m.len() > k
            &&& m[k] == (Mark {
                x: critical[i].value,
                repeated: repeated_at(c, critical[i].value),
                copies: (critical[i].multiplicity + 1) as u8,
            })
        }),
    decreases n,
{
    if n == i + 1 {
        lemma_inner_marks(c, critical, bound, i as nat);
    } else {
        lemma_marks_keep(c, critical, bound, i, (n - 1) as nat);
    }
}

proof fn lemma_marks_before(c: Seq<Double>, critical: Seq<Root>, bound: Double, i: int, n: nat)
    requires
        0 <= i <= n <= critical.len() <= 3,
        forall|j: int| 0 <= j < i ==> !repeated_at(c, (#[trigger] critical[j]).value),
    ensures
        ({
            let m = inner_marks(c, critical, bound, n);
            let k = within_bound(critical, bound, i as nat).len() as int;
            &&& k <= m.len()
            &&& forall|j: int| 0 <= j < k ==> !(#[trigger] m[j]).repeated
        }),
    decreases n,
{
    if n > i {
        lemma_marks_before(c, critical, bound, i, (n - 1) as nat);
    } else if n > 0 {
        lemma_marks_before(c, critical, bound, i - 1, (n - 1) as nat);
        lemma_inner_marks(c, critical, bound, (n - 1) as nat);
        lemma_inner_marks(c, critical, bound, n);
        assert(!repeated_at(c, critical[n - 1].value));
    }
}

proof fn lemma_repeated_is_found(c: Seq<Double>, critical: Seq<Root>, bound: Double, i: int)
    requires
        critical.len() <= 3,
        0 <= i < critical.len(),
        critical[i].value.finite(),
        critical[i].multiplicity < 255,
        repeated_at(c, critical[i].value),
        forall|j: int| 0 <= j < i ==> !repeated_at(c, (#[trigger] critical[j]).value),
        bound.negated().lt(critical[i].value),
        critical[i].value.lt(bound),
    ensures
        ({
            let m = all_marks(c, critical, bound);
            let raw = simple_roots(c, m, repeated_roots(m, m.len()), (m.len() - 1) as nat);
            exists|j: int| 0 <= j < gathered(raw).len() && near((#[trigger] gathered(raw)[j]).value, critical[i].value)
        }),
{
    let x = critical[i].value;
    let m = all_marks(c, critical, bound);
    let inner = inner_marks(c, critical, bound, critical.len());
    let before = within_bound(critical, bound, i as nat);
    lemma_inner_marks(c, critical, bound, critical.len());
    lemma_marks_keep(c, critical, bound, i, critical.len());
    lemma_marks_before(c, critical, bound, i, critical.len());
    let k = before.len() as int;
    assert(m[k + 1] == inner[k]);
    assert forall|j: int| 0 <= j < k + 1 implies !(#[trigger] m[j]).repeated by {
        if j > 0 {
            assert(m[j] == inner[j - 1]);
        }
    }
    lemma_first_repeated(m, k + 1, m.len());
    let found = repeated_roots(m, m.len());
    let raw = simple_roots(c, m, found, (m.len() - 1) as nat);
    lemma_simple_keep_first(c, m, found, (m.len() - 1) as nat);
    lemma_gathering_keeps_first(raw);
}

proof fn lemma_gathering_keeps_first(raw: Seq<Double>)
    requires
        raw.len() > 0,
        raw[0].finite(),
    ensures
        exists|j: int| 0 <= j < gathered(raw).len() && near((#[trigger] gathered(raw)[j]).value, raw[0]),
{
    let u = usable(raw, raw.len());
    lemma_usable_first(raw, raw.len());
    let s = ordered(u);
    let w = lemma_ascending_exists(u);
    assert(sorted(w) && w.to_multiset() == u.to_multiset());
    lemma_same_values(s, u);
    assert(u.contains(raw[0]));
    assert(s.contains(raw[0]));
    let k = choose|k: int| 0 <= k < s.len() && s[k] == raw[0];
    lemma_clustered_near(s, s.len(), k);
    let g = clustered(s, s.len());
    assert(gathered(raw) == g);
    let i = choose|i: int| 0 <= i < g.len() && near((#[trigger] g[i]).value, s[k]);
    assert(near(gathered(raw)[i].value, raw[0]));
}

} // verus!
