//! Remainders, which are exact.

use crate::arithmetic::{lemma_exact_scaled, lemma_nearest_zero, make_zero, not_a_number, sum};
use crate::double::{Double, HIDDEN, NAN_BITS};
use crate::order::lemma_magnitude_increases;
use crate::precision::lemma_short_is_exact;
use crate::rounding::{lemma_quotient_range, nearest, pack};
use vstd::arithmetic::div_mod::*;
use vstd::arithmetic::power2::*;
use vstd::prelude::*;

verus! {

/// What is left of `a` when `b` is taken from it as often as it goes, towards
/// zero: it has the sign of `a`.
pub open spec fn remainder(a: Double, b: Double) -> Double {
    if a.nan() || b.nan() || !a.finite() || b.zero() {
        not_a_number()
    } else if !b.finite() {
        a
    } else {
        nearest(a.signed(), a.magnitude() % b.magnitude(), 1)
    }
}

/// The remainder that is not negative.
pub open spec fn positive_remainder(a: Double, b: Double) -> Double {
    let r = remainder(a, b);
    if r.lt(Double { bits: 0 }) {
        sum(r, b.absolute())
    } else {
        r
    }
}

/// A common factor goes through a remainder.
proof fn lemma_factor_out(a: int, b: int, p: int)
    requires
        a >= 0,
        b > 0,
        p > 0,
    ensures
        (a * p) % (b * p) == (a % b) * p,
{
    let q = a / b;
    let r = a % b;
    lemma_fundamental_div_mod(a, b);
    lemma_mod_bound(a, b);
    let d = b * p;
    assert(a * p == q * d + r * p) by (nonlinear_arith)
        requires
            a == b * q + r,
            d == b * p,
    ;
    assert(0 <= r * p < d) by (nonlinear_arith)
        requires
            0 <= r < b,
            p > 0,
            d == b * p,
    ;
    lemma_fundamental_div_mod_converse(a * p, d, q, r * p);
}

/// The significand and the scale of a finite number.
spec fn parts(a: Double) -> (int, nat) {
    let exponent = a.abs_bits() / HIDDEN as int;
    let fraction = a.abs_bits() % HIDDEN as int;
    if exponent == 0 {
        (fraction, 0)
    } else {
        (HIDDEN + fraction, (exponent - 1) as nat)
    }
}

proof fn lemma_parts(a: Double)
    requires
        a.finite(),
    ensures
        a.magnitude() == parts(a).0 * pow2(parts(a).1),
        0 <= parts(a).0 < 2 * HIDDEN,
        parts(a).1 <= 2045,
        parts(a).1 > 0 ==> parts(a).0 >= HIDDEN,
{
    lemma2_to64();
    lemma_fundamental_div_mod(a.abs_bits(), HIDDEN as int);
    let m = parts(a).0;
    assert(m * pow2(0) == m);
}

/// A remainder is exact: no bit of it is rounded away.
pub proof fn law_remainder_is_exact(a: Double, b: Double)
    requires
        a.finite(),
        b.finite(),
        !b.zero(),
    ensures
        remainder(a, b).finite(),
        remainder(a, b).magnitude() == a.magnitude() % b.magnitude(),
        remainder(a, b).signed() == a.signed(),
        remainder(a, b).magnitude() < b.magnitude(),
{
    let (ma, ea) = parts(a);
    let (mb, eb) = parts(b);
    lemma_parts(a);
    lemma_parts(b);
    lemma_magnitude_increases(0, b.abs_bits());
    lemma_pow2_pos(ea);
    lemma_pow2_pos(eb);
    let n = a.magnitude() % b.magnitude();
    lemma_mod_bound(a.magnitude(), b.magnitude());
    if ea < eb {
        lemma_below(ma, ea, mb, eb);
        lemma_small_mod(a.magnitude() as nat, b.magnitude() as nat);
        lemma_short_is_exact(ma, ea);
    } else {
        let p = pow2(eb) as int;
        let k = (ea - eb) as nat;
        let x = ma * pow2(k);
        lemma_pow2_adds(eb, k);
        lemma_pow2_pos(k);
        assert(ma * pow2(ea) == x * p && x >= 0) by (nonlinear_arith)
            requires
                pow2(ea) == p * pow2(k),
                x == ma * pow2(k),
                pow2(k) > 0,
                ma >= 0,
        ;
        assert(mb > 0) by (nonlinear_arith)
            requires
                mb * p > 0,
                p > 0,
        ;
        lemma_factor_out(x, mb, p);
        lemma_mod_bound(x, mb);
        lemma_short_is_exact(x % mb, eb);
    }
    lemma_quotient_range(n, 1);
}

/// A number of the smaller scale is the smaller one.
proof fn lemma_below(ma: int, ea: nat, mb: int, eb: nat)
    requires
        0 <= ma < 2 * HIDDEN,
        mb >= HIDDEN,
        ea < eb,
    ensures
        0 <= ma * pow2(ea) < mb * pow2(eb),
{
    lemma_pow2_adds(ea, (eb - ea) as nat);
    lemma_pow2_unfold((eb - ea) as nat);
    lemma_pow2_pos((eb - ea - 1) as nat);
    lemma_pow2_pos(ea);
    let p = pow2(ea) as int;
    let s = pow2((eb - ea) as nat) as int;
    assert(0 <= ma * p < mb * (p * s)) by (nonlinear_arith)
        requires
            0 <= ma < 2 * HIDDEN,
            mb >= HIDDEN,
            s >= 2,
            p > 0,
    ;
}

/// The remainder of `m` times a power of two.
fn shifted_remainder(m: u64, k: u32, d: u64) -> (r: u64)
    requires
        0 < d < 2 * HIDDEN,
    ensures
        r == (m * pow2(k as nat)) % (d as int),
{
    let mut r: u64 = m % d;
    let mut i: u32 = 0;
    proof {
        lemma2_to64();
    }
    while i < k
        invariant
            i <= k,
            0 < d < 2 * HIDDEN,
            r < d,
            r == (m * pow2(i as nat)) % (d as int),
        decreases k - i,
    {
        proof {
            let x = m * pow2(i as nat);
            lemma_pow2_unfold((i + 1) as nat);
            assert(m * pow2((i + 1) as nat) == 2 * x) by (nonlinear_arith)
                requires
                    pow2((i + 1) as nat) == 2 * pow2(i as nat),
                    x == m * pow2(i as nat),
            ;
            lemma_mul_mod_noop_right(2, x, d as int);
        }
        r = (2 * r) % d;
        i = i + 1;
    }
    r
}

impl Double {
    /// What is left of a number when another is taken from it as often as it
    /// goes, towards zero.
    pub fn rem(self, other: Double) -> (r: Double)
        ensures
            r == remainder(self, other),
    {
        if self.is_nan() || other.is_nan() || !self.is_finite() || other.is_zero() {
            return Double { bits: NAN_BITS };
        }
        if !other.is_finite() {
            return self;
        }
        let negative: bool = self.is_sign_negative();
        let (ma, ea) = self.decode();
        let (mb, eb) = other.decode();
        let ghost n = self.magnitude() % other.magnitude();
        proof {
            lemma_pow2_pos(ea as nat);
            lemma_pow2_pos(eb as nat);
        }
        let (m, e): (u64, u32) = if ea < eb {
            proof {
                lemma_below(ma as int, ea as nat, mb as int, eb as nat);
                lemma_small_mod(self.magnitude() as nat, other.magnitude() as nat);
            }
            (ma, ea)
        } else {
            let k: u32 = ea - eb;
            let r: u64 = shifted_remainder(ma, k, mb);
            proof {
                let p = pow2(eb as nat) as int;
                let x = ma * pow2(k as nat);
                lemma_pow2_adds(eb as nat, k as nat);
                lemma_pow2_pos(k as nat);
                assert(ma * pow2(ea as nat) == x * p && x >= 0) by (nonlinear_arith)
                    requires
                        pow2(ea as nat) == p * pow2(k as nat),
                        x == ma * pow2(k as nat),
                        pow2(k as nat) > 0,
                ;
                lemma_factor_out(x, mb as int, p);
            }
            (r, eb)
        };
        assert(n == m * pow2(e as nat));
        if m == 0 {
            proof {
                assert(n == 0) by (nonlinear_arith)
                    requires
                        n == m * pow2(e as nat),
                        m == 0,
                ;
                lemma_nearest_zero(negative, 1);
            }
            return make_zero(negative);
        }
        proof {
            lemma_exact_scaled(m as int, e as nat);
        }
        pack(negative, m as u128, e as i128, false, Ghost(n), Ghost(1))
    }

    /// The remainder that is not negative.
    pub fn rem_euclid(self, other: Double) -> (r: Double)
        ensures
            r == positive_remainder(self, other),
    {
        let r: Double = self.rem(other);
        if r.less(Double::zeroed()) {
            r.plus(other.abs())
        } else {
            r
        }
    }
}

} // verus!
