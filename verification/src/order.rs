//! How the order of doubles meets their exact values and their arithmetic.

use crate::arithmetic::{lemma_nearest_zero, product, difference, quotient, rounded};
use crate::double::{Double, magnitude_of, HIDDEN, INFINITY_BITS};
use crate::rounding::{excess, lemma_excess_bounds, lemma_excess_is, lemma_quotient_range, round_bits};
use vstd::arithmetic::div_mod::*;
use vstd::arithmetic::mul::*;
use vstd::arithmetic::power2::*;
use vstd::prelude::*;

verus! {

/// A larger bit pattern is a larger magnitude.
pub proof fn lemma_magnitude_increases(a: int, b: int)
    requires
        0 <= a < b,
    ensures
        0 <= magnitude_of(a) < magnitude_of(b),
{
    let h = HIDDEN as int;
    let ea = a / h;
    let fa = a % h;
    let eb = b / h;
    let fb = b % h;
    lemma_fundamental_div_mod(a, h);
    lemma_fundamental_div_mod(b, h);
    assert(0 <= ea <= eb);
    lemma2_to64();
    if ea > 0 {
        let p = pow2((ea - 1) as nat) as int;
        let q = pow2((eb - 1) as nat) as int;
        lemma_pow2_pos((ea - 1) as nat);
        if ea == eb {
            assert((h + fa) * p < (h + fb) * p) by (nonlinear_arith)
                requires
                    fa < fb,
                    p > 0,
            ;
        } else {
            lemma_pow2_unfold(ea as nat);
            if ea < eb - 1 {
                lemma_pow2_strictly_increases(ea as nat, (eb - 1) as nat);
            }
            assert(2 * p <= q);
            assert((h + fa) * p < (h + fb) * q) by (nonlinear_arith)
                requires
                    2 * p <= q,
                    p > 0,
                    0 <= fa < h,
                    fb >= 0,
            ;
        }
        assert((h + fa) * p >= 0) by (nonlinear_arith)
            requires
                p > 0,
                fa >= 0,
                h >= 0,
        ;
    } else if eb > 0 {
        let q = pow2((eb - 1) as nat) as int;
        lemma_pow2_pos((eb - 1) as nat);
        assert((h + fb) * q >= h) by (nonlinear_arith)
            requires
                q >= 1,
                fb >= 0,
                h > 0,
        ;
    }
}

/// The numeric order of finite doubles is the order of their exact values.
pub proof fn law_order_is_value_order(a: Double, b: Double)
    requires
        a.finite(),
        b.finite(),
    ensures
        a.lt(b) <==> a.value() < b.value(),
        a.same(b) <==> a.value() == b.value(),
        a.le(b) <==> a.value() <= b.value(),
{
    let x = a.abs_bits();
    let y = b.abs_bits();
    if x < y {
        lemma_magnitude_increases(x, y);
    } else if y < x {
        lemma_magnitude_increases(y, x);
    }
    if x > 0 {
        lemma_magnitude_increases(0, x);
    }
    if y > 0 {
        lemma_magnitude_increases(0, y);
    }
}

proof fn lemma_excess_increases(a: int, b: int)
    requires
        0 <= a <= b,
    ensures
        excess(a) <= excess(b),
{
    lemma_excess_bounds(a);
    lemma_excess_bounds(b);
    let x = excess(a);
    let y = excess(b);
    if x > y {
        if 52 + x > 53 + y {
            lemma_pow2_strictly_increases((53 + y) as nat, (52 + x) as nat);
        }
        assert(false);
    }
}

/// A larger ratio rounds to no smaller a bit pattern.
pub proof fn lemma_round_bits_increases(a: int, b: int, d: int)
    requires
        0 <= a <= b,
        d > 0,
    ensures
        0 <= round_bits(a, d) <= round_bits(b, d),
{
    lemma_quotient_range(a, d);
    lemma_quotient_range(b, d);
    lemma_div_is_ordered(a, b, d);
    lemma_div_pos_is_pos(a, d);
    lemma_excess_increases(a / d, b / d);
    let e = excess(a / d);
    let f = excess(b / d);
    let h = HIDDEN as int;
    let s = d * pow2(e);
    assert(e * h >= 0) by (nonlinear_arith)
        requires
            e >= 0,
            h >= 0,
    ;
    if e < f {
        assert(e * h + h <= f * h) by (nonlinear_arith)
            requires
                e + 1 <= f,
                h > 0,
        ;
    } else {
        lemma_div_is_ordered(a, b, s);
        lemma_fundamental_div_mod(a, s);
        lemma_fundamental_div_mod(b, s);
    }
}

/// A positive whole number of units never rounds to zero.
pub proof fn lemma_round_bits_positive(n: int)
    requires
        n > 0,
    ensures
        round_bits(n, 1) > 0,
{
    lemma_quotient_range(n, 1);
    lemma2_to64();
    assert(1 * pow2(0) == 1);
    let e = excess(n / 1);
    if e > 0 {
        let h = HIDDEN as int;
        assert(e * h >= 0) by (nonlinear_arith)
            requires
                e >= 0,
                h >= 0,
        ;
    }
}

/// Rounding keeps the order of exact values, and zero only comes of zero.
pub proof fn law_rounding_keeps_order(v: int, w: int)
    requires
        v <= w,
    ensures
        rounded(v).key() <= rounded(w).key(),
        !rounded(v).nan(),
        v > 0 ==> rounded(v).key() > 0,
        v < 0 ==> rounded(v).key() < 0,
        v == 0 ==> rounded(v).key() == 0,
{
    if v > 0 {
        lemma_round_bits_positive(v);
    } else if v < 0 {
        lemma_round_bits_positive(-v);
    } else {
        lemma_round_bits_zero();
    }
    if w > 0 {
        lemma_round_bits_positive(w);
    } else if w == 0 {
        lemma_round_bits_zero();
    }
    if v >= 0 {
        lemma_round_bits_increases(v, w, 1);
    } else if w < 0 {
        lemma_round_bits_increases(-w, -v, 1);
        lemma_round_bits_positive(-w);
    }
}

proof fn lemma_round_bits_zero()
    ensures
        round_bits(0, 1) == 0,
{
    lemma2_to64();
    assert(1 * pow2(0) == 1);
}

/// The sign of a difference is the order of its operands: `x - y` is zero only
/// when `x` and `y` are the same number.
pub proof fn law_difference_sign(x: Double, y: Double)
    requires
        !difference(x, y).nan(),
    ensures
        difference(x, y).key() > 0 <==> x.key() > y.key(),
        difference(x, y).key() < 0 <==> x.key() < y.key(),
{
    let z = y.negated();
    assert(z.key() == -y.key());
    assert(z.abs_bits() == y.abs_bits());
    if x.finite() && y.finite() {
        law_order_is_value_order(x, y);
        law_order_is_value_order(y, x);
        if y.abs_bits() > 0 {
            lemma_magnitude_increases(0, y.abs_bits());
        }
        assert(z.value() == -y.value());
        law_rounding_keeps_order(x.value() - y.value(), x.value() - y.value());
    }
}

/// Taking away more leaves no more.
pub proof fn law_difference_keeps_order(x: Double, y: Double, z: Double)
    requires
        y.key() <= z.key(),
        !difference(x, y).nan(),
        !difference(x, z).nan(),
    ensures
        difference(x, z).key() <= difference(x, y).key(),
{
    if x.finite() && y.finite() && z.finite() {
        law_order_is_value_order(y, z);
        law_rounding_keeps_order(x.value() - z.value(), x.value() - y.value());
        if x.value() - z.value() == 0 {
            lemma_round_bits_zero();
        }
        if x.value() - y.value() == 0 {
            lemma_round_bits_zero();
        }
        assert(y.negated().abs_bits() == y.abs_bits());
        assert(z.negated().abs_bits() == z.abs_bits());
        assert(y.negated().value() == -y.value());
        assert(z.negated().value() == -z.value());
    } else {
        assert(y.negated().abs_bits() == y.abs_bits());
        assert(z.negated().abs_bits() == z.abs_bits());
        if x.finite() && y.finite() {
            lemma_rounded_range(x.value() - y.value());
        }
        if x.finite() && z.finite() {
            lemma_rounded_range(x.value() - z.value());
        }
    }
}

/// Starting from more leaves no less.
pub proof fn law_difference_keeps_order_first(x: Double, w: Double, y: Double)
    requires
        x.key() <= w.key(),
        !difference(x, y).nan(),
        !difference(w, y).nan(),
    ensures
        difference(x, y).key() <= difference(w, y).key(),
{
    assert(y.negated().abs_bits() == y.abs_bits());
    if x.finite() && y.finite() && w.finite() {
        law_order_is_value_order(x, w);
        law_rounding_keeps_order(x.value() - y.value(), w.value() - y.value());
        if x.value() - y.value() == 0 || w.value() - y.value() == 0 {
            lemma_round_bits_zero();
        }
        assert(y.negated().value() == -y.value());
    } else {
        if x.finite() && y.finite() {
            lemma_rounded_range(x.value() - y.value());
        }
        if w.finite() && y.finite() {
            lemma_rounded_range(w.value() - y.value());
        }
    }
}

/// A difference is a NaN only when an operand is one, or both are the same
/// infinity.
pub proof fn law_difference_nan(x: Double, y: Double)
    ensures
        difference(x, y).nan() <==> (x.nan() || y.nan() || (!x.finite() && !y.finite() && x.signed() == y.signed())),
{
    assert(y.negated().abs_bits() == y.abs_bits());
    assert(y.negated().signed() == !y.signed());
    law_rounding_keeps_order(x.value() + y.negated().value(), x.value() + y.negated().value());
}

/// A rounded value lies between the infinities.
proof fn lemma_rounded_range(v: int)
    ensures
        -INFINITY_BITS <= rounded(v).key() <= INFINITY_BITS,
{
    law_rounding_keeps_order(v, v);
}

/// Every finite double is its own rounding.
pub proof fn law_rounding_fixes_doubles(x: Double)
    requires
        x.finite(),
    ensures
        x.zero() || rounded(x.value()) == x,
        rounded(x.value()).same(x),
{
    let m = x.abs_bits();
    let h = HIDDEN as int;
    let ex = m / h;
    let fr = m % h;
    lemma_fundamental_div_mod(m, h);
    if m == 0 {
        lemma_round_bits_zero();
        return;
    }
    lemma_magnitude_increases(0, m);
    lemma_round_bits_of_magnitude(m);
}

pub proof fn lemma_round_bits_of_magnitude(m: int)
    requires
        0 < m < INFINITY_BITS,
    ensures
        round_bits(magnitude_of(m), 1) == m,
{
    let h = HIDDEN as int;
    let ex = m / h;
    let fr = m % h;
    lemma_fundamental_div_mod(m, h);
    lemma2_to64();
    lemma2_to64_rest();
    let (e, q) = if ex == 0 {
        (0nat, fr)
    } else {
        ((ex - 1) as nat, h + fr)
    };
    let n = q * pow2(e);
    assert(q * pow2(0) == q);
    assert(n == magnitude_of(m));
    lemma_pow2_pos(e);
    lemma_pow2_adds(53, e);
    lemma_pow2_adds(52, e);
    let p = pow2(e) as int;
    assert(0 <= n < 2 * h * p) by (nonlinear_arith)
        requires
            n == q * p,
            0 <= q < 2 * h,
            p > 0,
    ;
    if e > 0 {
        assert(n >= h * p) by (nonlinear_arith)
            requires
                n == q * p,
                q >= h,
                p > 0,
        ;
    }
    lemma_excess_is(n, e);
    assert(n / 1 == n);
    assert(1 * p == p);
    lemma_fundamental_div_mod_converse(n, p, q, 0);
}

/// Cancelling a common factor does not change a rounded ratio.
pub proof fn lemma_round_bits_cancels(n: int, d: int)
    requires
        n >= 0,
        d > 0,
    ensures
        round_bits(n * d, d) == round_bits(n, 1),
{
    let e = excess(n);
    lemma_div_multiples_vanish(n, d);
    lemma_mul_is_commutative(n, d);
    assert((n * d) / d == n);
    assert(n / 1 == n);
    let p = pow2(e) as int;
    lemma_pow2_pos(e);
    assert(1 * p == p);
    let q = n / p;
    let r = n % p;
    lemma_fundamental_div_mod(n, p);
    lemma_mod_bound(n, p);
    let s = d * p;
    assert(n * d == q * s + r * d) by (nonlinear_arith)
        requires
            n == p * q + r,
            s == d * p,
    ;
    assert(0 <= r * d < s) by (nonlinear_arith)
        requires
            0 <= r < p,
            d > 0,
            s == d * p,
    ;
    lemma_fundamental_div_mod_converse(n * d, s, q, r * d);
    assert((2 * (r * d) > s) == (2 * r > p)) by (nonlinear_arith)
        requires
            d > 0,
            s == d * p,
    ;
    assert((2 * (r * d) == s) == (2 * r == p)) by (nonlinear_arith)
        requires
            d > 0,
            s == d * p,
    ;
}

/// The double one.
pub open spec fn one() -> Double {
    Double { bits: 0x3ff0_0000_0000_0000 }
}

/// One is a whole unit.
pub proof fn lemma_one_magnitude()
    ensures
        one().magnitude() == pow2(1074),
        one().finite(),
        !one().signed(),
{
    lemma2_to64_rest();
    lemma_pow2_adds(52, 1022);
}

/// Multiplying by one changes no number.
pub proof fn law_one_is_neutral(x: Double)
    requires
        !x.nan(),
    ensures
        product(x, one()) == x,
{
    lemma_one_magnitude();
    lemma_pow2_pos(1074);
    if x.finite() {
        let m = x.abs_bits();
        if m == 0 {
            lemma_nearest_zero(x.signed(), pow2(1074) as int);
            assert(x.magnitude() == 0);
            assert(0 * pow2(1074) == 0);
        } else {
            lemma_magnitude_increases(0, m);
            lemma_round_bits_cancels(x.magnitude(), pow2(1074) as int);
            lemma_round_bits_of_magnitude(m);
        }
    }
}

/// A finite number over one that is not below one in magnitude is finite.
pub proof fn law_division_stays_finite(a: Double, b: Double)
    requires
        a.finite(),
        b.finite(),
        b.magnitude() >= pow2(1074),
    ensures
        quotient(a, b).finite(),
{
    lemma_pow2_pos(1074);
    let m = a.abs_bits();
    let d = b.magnitude();
    assert(!b.zero()) by {
        assert(magnitude_of(0) == 0);
    }
    if m == 0 {
        assert(a.magnitude() == 0);
        assert(0 * pow2(1074) == 0);
        lemma_nearest_zero(a.signed() != b.signed(), d);
    } else {
        lemma_magnitude_increases(0, m);
        assert(0 <= a.magnitude() * pow2(1074) <= a.magnitude() * d) by (nonlinear_arith)
            requires
                a.magnitude() >= 0,
                0 < pow2(1074) <= d,
        ;
        lemma_round_bits_increases(a.magnitude() * pow2(1074), a.magnitude() * d, d);
        lemma_round_bits_cancels(a.magnitude(), d);
        lemma_round_bits_of_magnitude(m);
    }
}

} // verus!
