//! Single-precision numbers, held as their bit patterns.

use crate::arithmetic::{lemma_exact_scaled, lemma_nearest_zero, make_infinity, make_zero, not_a_number, signed_infinity};
use crate::double::{magnitude_of, Double, HIDDEN, INFINITY_BITS, NAN_BITS};
use crate::rounding::{
    bit_length, excess, lemma_excess_bounds, lemma_pack_quotient, lemma_packed_magnitude, lemma_pow2_127,
    lemma_pow2_53, nearest, pack, round_bits, two_to,
};
use vstd::arithmetic::div_mod::*;
use vstd::arithmetic::mul::*;
use vstd::arithmetic::power2::*;
use vstd::prelude::*;

verus! {

/// Two to the twenty-third: the weight of the implicit leading bit.
pub const SINGLE_HIDDEN: u32 = 0x80_0000;

/// Bit pattern of positive infinity.
pub const SINGLE_INFINITY: u32 = 0x7f80_0000;

/// How many low-order bits of `q` are beyond the 24 that a single keeps.
pub open spec fn single_excess(q: int) -> nat
    decreases q,
{
    if q < 2 * SINGLE_HIDDEN {
        0
    } else {
        1 + single_excess(q / 2)
    }
}

/// The single-precision bit pattern nearest `n` units of the smallest positive
/// double: rounded to nearest, ties to even, and infinite when it is too large.
///
/// The smallest positive single is the 925th power of two of those units.
pub open spec fn single_bits(n: int) -> int {
    let e = single_excess(n / pow2(925) as int);
    let s = pow2((925 + e) as nat) as int;
    let q = n / s;
    let r = n % s;
    let up = 2 * r > s || (2 * r == s && q % 2 == 1);
    let bits = e * SINGLE_HIDDEN + (if up {
        q + 1
    } else {
        q
    });
    if bits < SINGLE_INFINITY {
        bits
    } else {
        SINGLE_INFINITY as int
    }
}

/// The single-precision bit pattern nearest a number; an infinity keeps its sign,
/// and a NaN becomes a quiet one.
pub open spec fn narrowed(d: Double) -> u32 {
    let bits = if d.nan() {
        0x7fc0_0000
    } else if !d.finite() {
        SINGLE_INFINITY as int
    } else {
        single_bits(d.magnitude())
    };
    if d.signed() {
        (bits + 0x8000_0000) as u32
    } else {
        bits as u32
    }
}

proof fn lemma_single_excess_is(q: int, e: nat)
    requires
        0 <= q < pow2(24 + e),
        e == 0 || q >= pow2((23 + e) as nat),
    ensures
        single_excess(q) == e,
    decreases e,
{
    lemma2_to64();
    if e > 0 {
        lemma_pow2_unfold((24 + e) as nat);
        lemma_pow2_unfold((23 + e) as nat);
        if e > 1 {
            lemma_pow2_strictly_increases(24, (23 + e) as nat);
        }
        lemma_single_excess_is(q / 2, (e - 1) as nat);
    }
}

/// Dividing by a power of two shifts the bounds of a number.
proof fn lemma_shifted_bounds(n: int, k: nat, x: nat)
    requires
        0 <= n,
    ensures
        n < pow2(k + x) ==> 0 <= n / pow2(k) as int && n / (pow2(k) as int) < pow2(x),
        n >= pow2(k + x) ==> n / pow2(k) as int >= pow2(x),
{
    lemma_pow2_adds(k, x);
    lemma_pow2_pos(k);
    lemma_pow2_pos(x);
    let p = pow2(k) as int;
    let b = pow2(x) as int;
    lemma_mul_is_commutative(p, b);
    if n < p * b {
        lemma_multiply_divide_lt(n, p, b);
        lemma_div_pos_is_pos(n, p);
    } else {
        lemma_multiply_divide_le(p * b, p, b);
        lemma_div_is_ordered(p * b, n, p);
        lemma_div_multiples_vanish(b, p);
    }
}

/// The single-precision bit pattern nearest a number.
pub fn narrow(d: Double) -> (r: u32)
    ensures
        r == narrowed(d),
{
    let negative: bool = d.is_sign_negative();
    if d.is_nan() {
        return if negative { 0xffc0_0000 } else { 0x7fc0_0000 };
    }
    if !d.is_finite() {
        return if negative { 0xff80_0000 } else { SINGLE_INFINITY };
    }
    let (m, e) = d.decode();
    let ghost n = d.magnitude();
    if m == 0 {
        proof {
            lemma_pow2_pos(925);
            lemma_basic_div(0, pow2(925) as int);
            lemma_small_mod(0, pow2(925));
        }
        return if negative { 0x8000_0000 } else { 0 };
    }
    let wide: u128 = m as u128;
    let len: u32 = bit_length(wide);
    let over: i32 = e as i32 + len as i32 - 949;
    let top: i32 = if over > 0 { over } else { 0 };
    let k: i32 = 925 + top - e as i32;
    proof {
        lemma2_to64();
        lemma2_to64_rest();
        lemma_exact_scaled(m as int, e as nat);
        if len > 53 {
            if len > 54 {
                lemma_pow2_strictly_increases(53, (len - 1) as nat);
            }
            assert(false);
        }
        lemma_excess_here(n, m as int, e as nat, len as nat, top as nat);
        lemma_quotient_small(n, top as nat);
    }
    let significand: u32;
    let up: bool;
    if k <= 0 {
        proof {
            lemma_exact_quotient(n, m as int, e as nat, (925 + top) as nat);
            lemma_pow2_127();
            lemma_shift_fits(m as int, len as nat, (-k) as nat);
        }
        significand = (wide * two_to(-k)) as u32;
        up = false;
    } else if k > 127 {
        proof {
            lemma_pack_quotient(n, 1, m as int, e as int, false, (925 + top) as nat, k as nat);
            lemma_pow2_strictly_increases(54, k as nat);
            lemma_pow2_strictly_increases(54, (k - 1) as nat);
            lemma_basic_div(m as int, pow2(k as nat) as int);
            lemma_small_mod(m as nat, pow2(k as nat));
        }
        significand = 0;
        up = false;
    } else {
        proof {
            lemma_pack_quotient(n, 1, m as int, e as int, false, (925 + top) as nat, k as nat);
            lemma_pow2_unfold(k as nat);
            lemma_pow2_pos((k - 1) as nat);
        }
        let width: u128 = two_to(k);
        let lo: u128 = wide / width;
        let rem: u128 = wide % width;
        let half: u128 = width / 2;
        significand = lo as u32;
        up = rem > half || (rem == half && lo % 2 == 1);
    }
    let rounded: u32 = if up { significand + 1 } else { significand };
    let bits: u32 = if top >= 255 { SINGLE_INFINITY } else { top as u32 * SINGLE_HIDDEN + rounded };
    let bits: u32 = if bits < SINGLE_INFINITY { bits } else { SINGLE_INFINITY };
    if negative { bits + 0x8000_0000 } else { bits }
}

proof fn lemma_excess_here(n: int, m: int, e: nat, len: nat, top: nat)
    requires
        len > 0,
        pow2((len - 1) as nat) <= m < pow2(len),
        n == m * pow2(e),
        top == if e + len > 949 {
            e + len - 949
        } else {
            0
        },
    ensures
        n > 0,
        single_excess(n / pow2(925) as int) == top,
{
    lemma_pow2_pos(e);
    lemma_pow2_pos((len - 1) as nat);
    lemma_pow2_adds(len, e);
    lemma_pow2_adds((len - 1) as nat, e);
    let p = pow2(e) as int;
    let big = pow2(len) as int;
    let small = pow2((len - 1) as nat) as int;
    assert(small * p <= n < big * p) by (nonlinear_arith)
        requires
            small <= m < big,
            p > 0,
            n == m * p,
    ;
    assert(n > 0) by (nonlinear_arith)
        requires
            small * p <= n,
            small > 0,
            p > 0,
    ;
    if top == 0 {
        if len + e < 949 {
            lemma_pow2_strictly_increases((len + e) as nat, 949);
        }
        lemma_shifted_bounds(n, 925, 24);
    } else {
        lemma_shifted_bounds(n, 925, (24 + top) as nat);
        lemma_shifted_bounds(n, 925, (23 + top) as nat);
    }
    lemma_single_excess_is(n / pow2(925) as int, top);
}

/// The significand of a narrowed number has 24 bits.
proof fn lemma_quotient_small(n: int, top: nat)
    requires
        n > 0,
        single_excess(n / pow2(925) as int) == top,
    ensures
        0 <= n / pow2((925 + top) as nat) as int,
        n / (pow2((925 + top) as nat) as int) < 0x100_0000,
{
    let q = n / pow2(925) as int;
    lemma_pow2_pos(925);
    lemma_div_pos_is_pos(n, pow2(925) as int);
    lemma_single_excess_bounds(q);
    lemma_pow2_pos(top);
    lemma_pow2_adds(925, top);
    lemma_div_denominator(n, pow2(925) as int, pow2(top) as int);
    lemma2_to64();
    lemma_pow2_adds(top, 24);
    lemma_shifted_bounds(q, top, 24);
}

proof fn lemma_single_excess_bounds(q: int)
    requires
        0 <= q,
    ensures
        q < pow2(24 + single_excess(q)),
    decreases q,
{
    lemma2_to64();
    if q >= 2 * SINGLE_HIDDEN {
        lemma_single_excess_bounds(q / 2);
        lemma_pow2_unfold((25 + single_excess(q / 2)) as nat);
    }
}

/// A multiple of a larger power of two divides exactly.
proof fn lemma_exact_quotient(n: int, m: int, e: nat, t: nat)
    requires
        n == m * pow2(e),
        t <= e,
    ensures
        n / pow2(t) as int == m * pow2((e - t) as nat),
        n % pow2(t) as int == 0,
{
    let p = pow2(t) as int;
    let w = pow2((e - t) as nat) as int;
    lemma_pow2_pos(t);
    lemma_pow2_adds(t, (e - t) as nat);
    assert(n == p * (m * w)) by (nonlinear_arith)
        requires
            n == m * pow2(e),
            pow2(e) == p * w,
    ;
    lemma_mul_is_commutative(p, m * w);
    lemma_fundamental_div_mod_converse(n, p, m * w, 0);
}

proof fn lemma_shift_fits(m: int, len: nat, k: nat)
    requires
        0 <= m < pow2(len),
        len + k <= 24,
    ensures
        m * pow2(k) < 0x100_0000,
{
    lemma_pow2_adds(len, k);
    lemma_pow2_pos(k);
    lemma2_to64();
    if len + k < 24 {
        lemma_pow2_strictly_increases(len + k, 24);
    }
    assert(m * pow2(k) < 0x100_0000) by (nonlinear_arith)
        requires
            m < pow2(len),
            pow2(len) * pow2(k) <= 0x100_0000,
            pow2(k) > 0,
    ;
}

/// The double that a single-precision bit pattern stands for.
pub open spec fn widened(b: u32) -> Double {
    let negative = b >= 0x8000_0000;
    let m = b % 0x8000_0000;
    let exponent = m / 0x80_0000;
    let fraction = m % 0x80_0000;
    if exponent == 255 {
        if fraction == 0 {
            signed_infinity(negative)
        } else {
            not_a_number()
        }
    } else if exponent == 0 {
        nearest(negative, fraction * pow2(925), 1)
    } else {
        nearest(negative, (0x80_0000 + fraction) * pow2((924 + exponent) as nat), 1)
    }
}

/// The double that a single-precision bit pattern stands for.
pub fn widen(b: u32) -> (d: Double)
    ensures
        d == widened(b),
{
    let negative: bool = b >= 0x8000_0000;
    let m: u32 = b % 0x8000_0000;
    let exponent: u32 = m / 0x80_0000;
    let fraction: u32 = m % 0x80_0000;
    if exponent == 255 {
        if fraction == 0 {
            return make_infinity(negative);
        }
        return Double::from_bits(NAN_BITS);
    }
    if exponent == 0 {
        if fraction == 0 {
            proof {
                assert(0 * pow2(925) == 0) by (nonlinear_arith);
                lemma_nearest_zero(negative, 1);
            }
            return make_zero(negative);
        }
        proof {
            lemma_exact_scaled(fraction as int, 925);
        }
        return pack(negative, fraction as u128, 925, false, Ghost(fraction * pow2(925)), Ghost(1));
    }
    let significand: u32 = 0x80_0000 + fraction;
    proof {
        lemma_exact_scaled(significand as int, (924 + exponent) as nat);
    }
    pack(
        negative,
        significand as u128,
        924 + exponent as i128,
        false,
        Ghost(significand * pow2((924 + exponent) as nat)),
        Ghost(1),
    )
}

/// A number of at most 53 bits, scaled by a power of two, is a double.
pub proof fn lemma_short_is_exact(q: int, e: nat)
    requires
        0 <= q < pow2(53),
        e <= 1900,
    ensures
        0 <= round_bits(q * pow2(e), 1) < INFINITY_BITS,
        magnitude_of(round_bits(q * pow2(e), 1)) == q * pow2(e),
{
    let n = q * pow2(e);
    lemma_pow2_pos(e);
    lemma2_to64();
    lemma_pow2_53();
    lemma_mul_nonnegative(q, pow2(e) as int);
    assert(n / 1 == n);
    lemma_excess_bounds(n);
    let top = excess(n);
    lemma_pow2_adds(53, e);
    assert(n < pow2(53 + e)) by (nonlinear_arith)
        requires
            n == q * pow2(e),
            q < pow2(53),
            pow2(e) > 0,
            pow2(53 + e) == pow2(53) * pow2(e),
    ;
    if top > e {
        if top > e + 1 {
            lemma_pow2_strictly_increases((53 + e) as nat, (52 + top) as nat);
        }
        assert(false);
    }
    lemma_exact_quotient(n, q, e, top);
    let s = pow2(top) as int;
    lemma_pow2_pos(top);
    assert(1 * s == s);
    let k = n / s;
    // the significand lies between its bounds
    lemma_shifted_bounds(n, top, 53);
    assert(k < pow2(53));
    if top > 0 {
        lemma_shifted_bounds(n, top, 52);
        assert(k >= HIDDEN);
    } else {
        assert(s == 1);
    }
    lemma_packed_magnitude(top, k);
    lemma_fundamental_div_mod(n, s);
    lemma_mul_is_commutative(s, k);
    assert(round_bits(n, 1) == top * HIDDEN + k);
}

/// Widening is exact, and narrowing undoes it.
pub proof fn law_narrowing_undoes_widening(b: u32)
    requires
        b % 0x8000_0000 < SINGLE_INFINITY,
    ensures
        widened(b).finite(),
        narrowed(widened(b)) == b,
{
    let m = b % 0x8000_0000;
    let exponent = (m / 0x80_0000) as int;
    let fraction = (m % 0x80_0000) as int;
    lemma2_to64();
    lemma2_to64_rest();
    let (q, e): (int, nat) = if exponent == 0 {
        (fraction, 925)
    } else {
        (0x80_0000 + fraction, (924 + exponent) as nat)
    };
    let n = q * pow2(e);
    lemma_short_is_exact(q, e);
    let d = widened(b);
    assert(d.magnitude() == n);
    assert(d.signed() == (b >= 0x8000_0000));
    lemma_pow2_pos(e);
    lemma_mul_nonnegative(q, pow2(e) as int);
    lemma_exact_quotient(n, q, e, 925);
    let top = (e - 925) as nat;
    lemma_pow2_adds(24, top);
    lemma_pow2_adds(23, top);
    lemma_pow2_pos(top);
    let w = pow2(top) as int;
    assert(q * w < pow2(24) * w) by (nonlinear_arith)
        requires
            q < 0x100_0000,
            pow2(24) == 0x100_0000,
            w > 0,
    ;
    lemma_mul_nonnegative(q, w);
    if top > 0 {
        assert(q * w >= pow2(23) * w) by (nonlinear_arith)
            requires
                q >= 0x80_0000,
                pow2(23) == 0x80_0000,
                w > 0,
        ;
    }
    lemma_single_excess_is(n / pow2(925) as int, top);
    lemma_exact_quotient(n, q, e, e);
    assert(q * pow2(0) == q);
    assert(single_bits(n) == top * SINGLE_HIDDEN + q);
}

} // verus!
