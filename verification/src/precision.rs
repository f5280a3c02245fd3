//! How far rounding takes a number.

use crate::arithmetic::of_int;
use crate::double::{magnitude_of, HIDDEN, INFINITY_BITS};
use crate::rounding::{
    excess, lemma_excess_bounds, lemma_packed_magnitude, lemma_pow2_53, lemma_quotient_range, nearest, round_bits,
};
use vstd::arithmetic::div_mod::*;
use vstd::arithmetic::power2::*;
use vstd::prelude::*;

verus! {

/// The distance between two numbers.
pub open spec fn apart(a: int, b: int) -> int {
    if a < b {
        b - a
    } else {
        a - b
    }
}

/// A ratio that does not overflow is rounded by at most one part in two to the
/// fifty-third, or, where it has fewer bits than a double keeps, by at most half
/// of the smallest positive double.
pub proof fn law_rounding_error(n: int, d: int)
    requires
        n >= 0,
        d > 0,
        round_bits(n, d) < INFINITY_BITS,
    ensures
        ({
            let m = magnitude_of(round_bits(n, d)) * d;
            ||| apart(m, n) * (2 * HIDDEN) <= n
            ||| 2 * apart(m, n) <= d && n / d < 2 * HIDDEN
        }),
{
    let h = HIDDEN as int;
    let e = excess(n / d);
    let p = pow2(e) as int;
    let s = d * p;
    let q = n / s;
    let r = n % s;
    lemma_quotient_range(n, d);
    lemma_fundamental_div_mod(n, s);
    lemma_mod_bound(n, s);
    let up = 2 * r > s || (2 * r == s && q % 2 == 1);
    let k = if up {
        q + 1
    } else {
        q
    };
    lemma_packed_magnitude(e, k);
    let m = (k * p) * d;
    assert(m == k * s) by (nonlinear_arith)
        requires
            m == (k * p) * d,
            s == d * p,
    ;
    assert(n == s * q + r);
    assert(m == s * q + (if up {
        s
    } else {
        0
    })) by (nonlinear_arith)
        requires
            m == k * s,
            k == (if up { q + 1 } else { q }),
    ;
    assert(2 * apart(m, n) <= s);
    if e > 0 {
        assert(s * q >= s * h) by (nonlinear_arith)
            requires
                q >= h,
                s > 0,
        ;
        let g = apart(m, n);
        assert(g * (2 * h) <= n) by (nonlinear_arith)
            requires
                2 * g <= s,
                s * h <= n,
                h > 0,
        ;
    } else {
        lemma2_to64();
        assert(s == d);
        lemma_pow2_53();
        lemma_div_pos_is_pos(n, d);
        lemma_excess_bounds(n / d);
    }
}

/// A ratio far below the largest double does not overflow.
pub proof fn lemma_rounds_below_infinity(n: int, d: int)
    requires
        n >= 0,
        d > 0,
        n / d < pow2(1200),
    ensures
        round_bits(n, d) < INFINITY_BITS,
{
    let h = HIDDEN as int;
    let e = excess(n / d);
    lemma_div_pos_is_pos(n, d);
    lemma_excess_bounds(n / d);
    lemma_quotient_range(n, d);
    if 52 + e >= 1200 {
        if 52 + e > 1200 {
            lemma_pow2_strictly_increases(1200, (52 + e) as nat);
        }
        assert(false);
    }
    assert(e * h + 2 * h < INFINITY_BITS) by (nonlinear_arith)
        requires
            e < 1200,
            h == 0x10_0000_0000_0000,
            INFINITY_BITS == 0x7ff0_0000_0000_0000u64,
    ;
}

/// A number of at most fifty-three bits before its zeros is not rounded.
pub proof fn lemma_short_is_exact(m: int, e: nat)
    requires
        0 <= m < 2 * HIDDEN,
        e <= 2045,
    ensures
        round_bits(m * pow2(e), 1) < INFINITY_BITS,
        magnitude_of(round_bits(m * pow2(e), 1)) == m * pow2(e),
{
    let h = HIDDEN as int;
    let u = pow2(e) as int;
    let n = m * u;
    lemma_pow2_pos(e);
    lemma_pow2_53();
    lemma_pow2_adds(53, e);
    assert(0 <= n < 2 * h * u) by (nonlinear_arith)
        requires
            n == m * u,
            0 <= m < 2 * h,
            u > 0,
    ;
    let f = excess(n);
    assert(n / 1 == n);
    lemma_excess_bounds(n);
    if f > e {
        if 52 + f > 53 + e {
            lemma_pow2_strictly_increases(53 + e, (52 + f) as nat);
        }
        assert(false);
    }
    let p = pow2(f) as int;
    lemma_pow2_pos(f);
    lemma_pow2_adds(f, (e - f) as nat);
    let q = m * pow2((e - f) as nat);
    assert(n == q * p) by (nonlinear_arith)
        requires
            n == m * u,
            u == p * pow2((e - f) as nat),
            q == m * pow2((e - f) as nat),
    ;
    assert(1 * p == p);
    lemma_fundamental_div_mod_converse(n, p, q, 0);
    lemma_quotient_range(n, 1);
    lemma_packed_magnitude(f, q);
    assert(f * h + q < INFINITY_BITS) by (nonlinear_arith)
        requires
            f <= 2045,
            q < 2 * h,
            h == 0x10_0000_0000_0000,
            INFINITY_BITS == 0x7ff0_0000_0000_0000u64,
    ;
}

/// An integer of at most fifty-three bits is a double.
pub proof fn law_integers_are_exact(k: int)
    requires
        -(2 * HIDDEN) < k < 2 * HIDDEN,
    ensures
        of_int(k).finite(),
        of_int(k).value() == k * pow2(1074),
        of_int(k).signed() == (k < 0),
{
    let u = pow2(1074) as int;
    let a = if k < 0 {
        -k
    } else {
        k
    };
    let n = a * u;
    lemma_pow2_pos(1074);
    assert((k < 0) == (k * u < 0) && n == (if k < 0 { -(k * u) } else { k * u }) && n >= 0) by (nonlinear_arith)
        requires
            u > 0,
            n == a * u,
            a == (if k < 0 { -k } else { k }),
    ;
    lemma_short_is_exact(a, 1074);
    lemma_quotient_range(n, 1);
    assert(of_int(k) == nearest(k < 0, n, 1));
}

} // verus!
