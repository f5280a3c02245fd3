//! The double root of a quadratic is finite: a leading coefficient that is not
//! negligible keeps the quotient within bounds.

use crate::arithmetic::{product, quotient};
use crate::double::{magnitude_of, Double, HIDDEN, INFINITY_BITS};
use crate::math::greater;
use crate::mesh::sphere::lemma_rounds_at_most;
use crate::order::{
    law_difference_nan, law_order_is_value_order, lemma_magnitude_increases, lemma_round_bits_cancels,
    lemma_round_bits_increases, lemma_round_bits_of_magnitude,
};
use crate::precision::{apart, law_rounding_error};
use crate::roots::{discriminant_of, fourfold, negligible, scale_of, vanishes, ROOT_DEGENERACY_TAU};
use crate::rounding::{lemma_pow2_53, lemma_quotient_range, nearest, round_bits};
use vstd::arithmetic::power2::{lemma_pow2_adds, lemma_pow2_pos, lemma_pow2_strictly_increases, pow2};
use vstd::prelude::*;

verus! {

/// Minus one half.
spec fn minus_half() -> Double {
    Double { bits: 0xbfe0_0000_0000_0000 }
}

/// A discriminant that vanishes comes of coefficients that are numbers.
proof fn lemma_coefficients_are_numbers(a: Double, b: Double, c: Double)
    requires
        vanishes(discriminant_of(a, b, c), a, b, c),
    ensures
        !a.nan(),
        !b.nan(),
{
    reveal(discriminant_of);
    let p = product(b, b);
    let q = product(fourfold(a), c);
    law_difference_nan(p, q);
    let disc = discriminant_of(a, b, c);
    assert(disc.absolute().nan() == disc.nan());
}

/// The scale of two coefficients is at least the first of them.
proof fn lemma_scale(b: Double, c: Double)
    requires
        !b.nan(),
    ensures
        ({
            let s = scale_of(seq![b, c], 2);
            &&& !s.nan()
            &&& !s.signed()
            &&& b.abs_bits() <= s.abs_bits()
        }),
{
    let s = seq![b, c];
    reveal_with_fuel(scale_of, 3);
    let zero = Double { bits: 0 };
    assert(scale_of(s, 1) == greater(zero, b.absolute()));
    assert(scale_of(s, 2) == greater(scale_of(s, 1), c.absolute()));
    assert(b.absolute().key() == b.abs_bits());
    assert(c.absolute().nan() || c.absolute().key() == c.abs_bits());
}

/// A finite number is not below the number whose bit pattern is not above its own.
proof fn lemma_magnitudes(a: Double, b: Double)
    requires
        a.abs_bits() <= b.abs_bits(),
    ensures
        0 <= a.magnitude() <= b.magnitude(),
{
    assert(magnitude_of(0) == 0);
    if 0 < a.abs_bits() {
        lemma_magnitude_increases(0, a.abs_bits());
    }
    if a.abs_bits() < b.abs_bits() {
        lemma_magnitude_increases(a.abs_bits(), b.abs_bits());
    }
}

/// Half of a finite number is finite, and no greater.
proof fn lemma_half(b: Double)
    requires
        b.finite(),
    ensures
        product(minus_half(), b).finite(),
        0 <= product(minus_half(), b).magnitude() <= b.magnitude(),
{
    let h = minus_half();
    let d = pow2(1074) as int;
    lemma_pow2_pos(1074);
    lemma_pow2_53();
    assert(h.abs_bits() == 0x3fe0_0000_0000_0000);
    assert(h.magnitude() == HIDDEN * pow2(1021)) by {
        assert(0x3fe0_0000_0000_0000int / (HIDDEN as int) == 1022);
        assert(0x3fe0_0000_0000_0000int % (HIDDEN as int) == 0);
    }
    lemma_pow2_adds(52, 1021);
    assert(h.magnitude() == pow2(1073));
    lemma_pow2_strictly_increases(1073, 1074);
    let zero = Double { bits: 0 };
    lemma_magnitudes(zero, b);
    assert(zero.magnitude() == 0);
    let n = h.magnitude() * b.magnitude();
    assert(0 <= n <= b.magnitude() * d) by (nonlinear_arith)
        requires
            n == h.magnitude() * b.magnitude(),
            0 <= h.magnitude() <= d,
            b.magnitude() >= 0,
    ;
    lemma_round_bits_increases(n, b.magnitude() * d, d);
    lemma_round_bits_cancels(b.magnitude(), d);
    let r = product(h, b);
    let negative = h.signed() != b.signed();
    assert(r == nearest(negative, n, d));
    if b.abs_bits() == 0 {
        assert(b.magnitude() == 0);
        assert(n == 0) by (nonlinear_arith)
            requires
                n == h.magnitude() * b.magnitude(),
                b.magnitude() == 0,
        ;
        lemma_rounds_at_most(negative, n, d, 0);
        assert(round_bits(0, d) <= round_bits(0, 1));
        lemma_round_bits_increases(0, 0, d);
        crate::arithmetic::lemma_nearest_zero(negative, d);
    } else {
        lemma_round_bits_of_magnitude(b.abs_bits());
        lemma_magnitudes(r, b);
    }
}

/// What a coefficient must exceed so as not to be negligible is, within bounds, no
/// less than the scale over two to the power of forty-eight.
proof fn lemma_threshold(s: Double)
    requires
        s.finite(),
        !s.signed(),
        s.magnitude() >= pow2(900),
        product(Double { bits: ROOT_DEGENERACY_TAU }, s).finite(),
    ensures
        s.magnitude() <= product(Double { bits: ROOT_DEGENERACY_TAU }, s).magnitude() * pow2(48),
        !product(Double { bits: ROOT_DEGENERACY_TAU }, s).signed(),
{
    let tau = Double { bits: ROOT_DEGENERACY_TAU };
    let d = pow2(1074) as int;
    let h = HIDDEN as int;
    lemma_pow2_pos(1074);
    lemma_pow2_pos(975);
    lemma_pow2_53();
    assert(tau.abs_bits() == 0x3d06_849b_86a1_2b9b);
    assert(0x3d06_849b_86a1_2b9bint / h == 976);
    assert(tau.magnitude() == (h + 0x3d06_849b_86a1_2b9bint % h) * pow2(975));
    assert(tau.magnitude() >= h * pow2(975)) by (nonlinear_arith)
        requires
            tau.magnitude() == (h + 0x3d06_849b_86a1_2b9bint % h) * pow2(975),
            0x3d06_849b_86a1_2b9bint % h >= 0,
            pow2(975) > 0,
    ;
    lemma_pow2_adds(52, 975);
    lemma_pow2_adds(1027, 47);
    let n = tau.magnitude() * s.magnitude();
    let r = product(tau, s);
    assert(r == nearest(false, n, d));
    lemma_pow2_pos(900);
    assert(n >= pow2(1027) * s.magnitude() && n >= pow2(1027) * pow2(900)) by (nonlinear_arith)
        requires
            n == tau.magnitude() * s.magnitude(),
            tau.magnitude() >= pow2(1027),
            s.magnitude() >= pow2(900),
            pow2(900) > 0,
            pow2(1027) > 0,
    ;
    lemma_quotient_range(n, d);
    law_rounding_error(n, d);
    let m = r.magnitude() * d;
    lemma_pow2_adds(1027, 900);
    lemma_pow2_adds(853, 1074);
    lemma_pow2_strictly_increases(53, 853);
    assert(n / d >= pow2(853)) by {
        vstd::arithmetic::div_mod::lemma_div_is_ordered(pow2(853) * d, n, d);
        vstd::arithmetic::div_mod::lemma_div_multiples_vanish(pow2(853) as int, d);
        vstd::arithmetic::mul::lemma_mul_is_commutative(pow2(853) as int, d);
    }
    assert(apart(m, n) * (2 * HIDDEN) <= n);
    let g = apart(m, n);
    assert(2 * g <= n) by (nonlinear_arith)
        requires
            g * (2 * HIDDEN as int) <= n,
            g >= 0,
            HIDDEN as int >= 1,
    ;
    assert(2 * m >= n);
    let p = pow2(1027) as int;
    let k = pow2(47) as int;
    assert(d == p * k);
    lemma_pow2_adds(47, 1);
    assert(pow2(48) == 2 * k) by {
        vstd::arithmetic::power2::lemma2_to64();
    }
    assert(s.magnitude() <= r.magnitude() * (2 * k)) by (nonlinear_arith)
        requires
            2 * (r.magnitude() * (p * k)) >= p * s.magnitude(),
            p > 0,
    ;
}

/// The double root of a quadratic is finite.
pub proof fn law_double_root_is_finite(a: Double, b: Double, c: Double)
    requires
        !negligible(a, seq![b, c]),
        vanishes(discriminant_of(a, b, c), a, b, c),
    ensures
        quotient(product(Double { bits: 0xbfe0_0000_0000_0000 }, b), a).finite(),
{
    lemma_coefficients_are_numbers(a, b, c);
    lemma_scale(b, c);
    let s = scale_of(seq![b, c], 2);
    let tau = Double { bits: ROOT_DEGENERACY_TAU };
    let limit = product(tau, s);
    let zero = Double { bits: 0 };
    assert(seq![b, c].len() == 2);
    assert(a.absolute().key() == a.abs_bits());
    assert(a.abs_bits() != 0);
    if !s.finite() {
        assert(limit.abs_bits() == INFINITY_BITS && !limit.signed());
        assert(a.absolute().le(limit));
        assert(zero.lt(s));
    }
    lemma_half(b);
    let h = product(minus_half(), b);
    if a.finite() {
        lemma_magnitude_increases(0, a.abs_bits());
        assert(magnitude_of(0) == 0);
        let n = h.magnitude() * pow2(1074);
        let d = a.magnitude();
        lemma_pow2_pos(1074);
        lemma_magnitudes(b, s);
        if s.magnitude() < pow2(900) {
            lemma_pow2_adds(900, 1074);
            assert(0 <= n <= pow2(1974) * d) by (nonlinear_arith)
                requires
                    n == h.magnitude() * pow2(1074),
                    0 <= h.magnitude() <= pow2(900),
                    pow2(1974) == pow2(900) * pow2(1074),
                    pow2(1074) > 0,
                    d >= 1,
            ;
            lemma_rounds_at_most(h.signed() != a.signed(), n, d, 1974);
        } else {
            assert(zero.lt(s)) by {
                lemma_pow2_pos(900);
            }
            if !limit.finite() {
                lemma_limit_is_number(s);
                assert(a.absolute().le(limit));
            }
            lemma_threshold(s);
            law_order_is_value_order(a.absolute(), limit);
            assert(a.absolute().magnitude() == d);
            assert(d > limit.magnitude());
            lemma_pow2_adds(48, 1074);
            lemma_pow2_pos(48);
            assert(0 <= n <= pow2(1122) * d) by (nonlinear_arith)
                requires
                    n == h.magnitude() * pow2(1074),
                    0 <= h.magnitude() <= limit.magnitude() * pow2(48),
                    limit.magnitude() <= d,
                    pow2(1122) == pow2(48) * pow2(1074),
                    pow2(1074) > 0,
                    pow2(48) > 0,
            ;
            lemma_rounds_at_most(h.signed() != a.signed(), n, d, 1122);
        }
        assert(!a.zero());
    }
}

/// The limit of a finite scale is a number, and not negative.
proof fn lemma_limit_is_number(s: Double)
    requires
        s.finite(),
        !s.signed(),
    ensures
        !product(Double { bits: ROOT_DEGENERACY_TAU }, s).nan(),
        !product(Double { bits: ROOT_DEGENERACY_TAU }, s).signed(),
{
    let tau = Double { bits: ROOT_DEGENERACY_TAU };
    lemma_pow2_pos(1074);
    lemma_magnitudes(Double { bits: 0 }, s);
    lemma_magnitudes(Double { bits: 0 }, tau);
    let n = tau.magnitude() * s.magnitude();
    assert(n >= 0) by (nonlinear_arith)
        requires
            n == tau.magnitude() * s.magnitude(),
            tau.magnitude() >= 0,
            s.magnitude() >= 0,
    ;
    lemma_quotient_range(n, pow2(1074) as int);
}

} // verus!
