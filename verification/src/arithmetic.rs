//! Correctly rounded arithmetic on doubles.

use crate::double::{Double, HIDDEN, INFINITY_BITS, NAN_BITS, SIGN};
use crate::rounding::{bit_length, lemma_pow2_127, nearest, pack, plus, scaled, two_to};
use vstd::arithmetic::mul::*;
use vstd::arithmetic::power2::*;
use vstd::prelude::*;

verus! {

/// The NaN that an invalid operation returns.
pub open spec fn not_a_number() -> Double {
    Double { bits: NAN_BITS }
}

/// The zero of a sign.
pub open spec fn signed_zero(negative: bool) -> Double {
    Double {
        bits: if negative {
            SIGN
        } else {
            0
        },
    }
}

/// The infinity of a sign.
pub open spec fn signed_infinity(negative: bool) -> Double {
    Double {
        bits: if negative {
            (INFINITY_BITS + SIGN) as u64
        } else {
            INFINITY_BITS
        },
    }
}

/// An exact value, in units of the smallest positive double, rounded.
pub open spec fn rounded(v: int) -> Double {
    if v < 0 {
        nearest(true, -v, 1)
    } else {
        nearest(false, v, 1)
    }
}

/// `a + b`, rounded to nearest, ties to even.
pub open spec fn sum(a: Double, b: Double) -> Double {
    if a.nan() || b.nan() {
        not_a_number()
    } else if !a.finite() {
        if !b.finite() && a.signed() != b.signed() {
            not_a_number()
        } else {
            a
        }
    } else if !b.finite() {
        b
    } else if a.value() + b.value() == 0 {
        signed_zero(a.signed() && b.signed())
    } else {
        rounded(a.value() + b.value())
    }
}

/// `a - b`, rounded to nearest, ties to even.
pub open spec fn difference(a: Double, b: Double) -> Double {
    sum(a, b.negated())
}

/// `a * b`, rounded to nearest, ties to even.
pub open spec fn product(a: Double, b: Double) -> Double {
    let negative = a.signed() != b.signed();
    if a.nan() || b.nan() {
        not_a_number()
    } else if !a.finite() || !b.finite() {
        if a.zero() || b.zero() {
            not_a_number()
        } else {
            signed_infinity(negative)
        }
    } else {
        nearest(negative, a.magnitude() * b.magnitude(), pow2(1074) as int)
    }
}

/// `a / b`, rounded to nearest, ties to even.
pub open spec fn quotient(a: Double, b: Double) -> Double {
    let negative = a.signed() != b.signed();
    if a.nan() || b.nan() || (!a.finite() && !b.finite()) || (a.zero() && b.zero()) {
        not_a_number()
    } else if !a.finite() || b.zero() {
        signed_infinity(negative)
    } else if !b.finite() {
        signed_zero(negative)
    } else {
        nearest(negative, a.magnitude() * pow2(1074), b.magnitude())
    }
}

/// The double nearest an integer.
pub open spec fn of_int(v: int) -> Double {
    rounded(v * pow2(1074))
}

pub(crate) fn make_zero(negative: bool) -> (r: Double)
    ensures
        r == signed_zero(negative),
{
    Double { bits: if negative { SIGN } else { 0 } }
}

pub(crate) fn make_infinity(negative: bool) -> (r: Double)
    ensures
        r == signed_infinity(negative),
{
    Double { bits: if negative { INFINITY_BITS + SIGN } else { INFINITY_BITS } }
}

pub proof fn lemma_exact_scaled(m: int, e: nat)
    ensures
        scaled(m * pow2(e), 1, m, e as int, false),
{
    lemma_times_one(m * pow2(e));
    assert(plus(e as int) == e);
    assert(pow2(e) * 1 == pow2(e));
}

proof fn lemma_times_one(n: int)
    ensures
        n * pow2(0) == n,
{
    lemma2_to64();
    lemma_mul_basics(n);
}

/// A sum of two finite magnitudes with signs, the first of the larger exponent.
fn sum_aligned(na: bool, ma: u64, ea: u32, nb: bool, mb: u64, eb: u32) -> (r: Double)
    requires
        ma < 2 * HIDDEN,
        mb < 2 * HIDDEN,
        ea > 0 ==> ma >= HIDDEN,
        eb <= ea <= 2045,
    ensures
        ({
            let va = if na { -(ma * pow2(ea as nat)) } else { ma * pow2(ea as nat) };
            let vb = if nb { -(mb * pow2(eb as nat)) } else { mb * pow2(eb as nat) };
            r == if va + vb == 0 { signed_zero(na && nb) } else { rounded(va + vb) }
        }),
{
    let ghost pa = pow2(ea as nat) as int;
    let ghost pb = pow2(eb as nat) as int;
    let ghost xa = ma * pa;
    let ghost xb = mb * pb;
    let d: u32 = ea - eb;
    proof {
        lemma2_to64();
        lemma2_to64_rest();
        lemma_pow2_127();
        lemma_pow2_pos(ea as nat);
        lemma_pow2_pos(eb as nat);
        lemma_pow2_pos(d as nat);
        lemma_pow2_adds(eb as nat, d as nat);
    }
    if d <= 70 {
        let w: u128 = two_to(d as i32);
        proof {
            if d < 70 {
                lemma_pow2_strictly_increases(d as nat, 70);
            }
            lemma_pow2_adds(64, 6);
            assert(ma * w <= 0x20_0000_0000_0000 * 0x40_0000_0000_0000_0000) by (nonlinear_arith)
                requires
                    ma < 0x20_0000_0000_0000,
                    w <= 0x40_0000_0000_0000_0000,
            ;
        }
        let x: u128 = ma as u128 * w;
        let y: u128 = mb as u128;
        proof {
            assert(x * pb == xa) by (nonlinear_arith)
                requires
                    x == ma * w,
                    pa == pb * w,
                    xa == ma * pa,
            ;
        }
        if na == nb {
            let m: u128 = x + y;
            if m == 0 {
                proof {
                    assert(xa == 0 && xb == 0) by (nonlinear_arith)
                        requires
                            xa == x * pb,
                            xb == mb * pb,
                            x == 0,
                            mb == 0,
                    ;
                }
                return make_zero(na);
            }
            proof {
                assert(m * pb == xa + xb) by (nonlinear_arith)
                    requires
                        m == x + mb,
                        x * pb == xa,
                        xb == mb * pb,
                ;
                assert(m * pb > 0) by (nonlinear_arith)
                    requires
                        m > 0,
                        pb > 0,
                ;
                lemma_exact_scaled(m as int, eb as nat);
            }
            return pack(na, m, eb as i128, false, Ghost(m * pb), Ghost(1));
        }
        if x == y {
            proof {
                assert(xa == xb);
            }
            return make_zero(false);
        }
        let m: u128 = if x > y { x - y } else { y - x };
        let negative: bool = if x > y { na } else { nb };
        proof {
            assert(m * pb == if x > y {
                xa - xb
            } else {
                xb - xa
            }) by (nonlinear_arith)
                requires
                    x * pb == xa,
                    xb == mb * pb,
                    m == if x > mb {
                        x - mb
                    } else {
                        mb - x
                    },
                    y == mb,
            ;
            assert(m * pb > 0) by (nonlinear_arith)
                requires
                    m > 0,
                    pb > 0,
            ;
            lemma_exact_scaled(m as int, eb as nat);
        }
        return pack(negative, m, eb as i128, false, Ghost(m * pb), Ghost(1));
    }
    if mb == 0 {
        proof {
            lemma_exact_scaled(ma as int, ea as nat);
            assert(xb == 0) by (nonlinear_arith)
                requires
                    xb == mb * pb,
                    mb == 0,
            ;
            assert(xa > 0) by (nonlinear_arith)
                requires
                    xa == ma * pa,
                    ma > 0,
                    pa > 0,
            ;
        }
        return pack(na, ma as u128, ea as i128, false, Ghost(xa), Ghost(1));
    }
    // the second magnitude lies wholly below the place of the sticky bit
    let ghost unit = pow2((ea - 16) as nat) as int;
    proof {
        lemma_pow2_adds((ea - 16) as nat, 16);
        lemma_pow2_adds(eb as nat, 53);
        if eb + 53 < ea - 16 {
            lemma_pow2_strictly_increases((eb + 53) as nat, (ea - 16) as nat);
        }
        assert(0 < xb < unit) by (nonlinear_arith)
            requires
                xb == mb * pb,
                0 < mb < 0x20_0000_0000_0000,
                pb > 0,
                pb * 0x20_0000_0000_0000 <= unit,
        ;
        assert(xa == (ma * 65536) * unit) by (nonlinear_arith)
            requires
                xa == ma * pa,
                pa == unit * 65536,
        ;
        assert(unit * 1 == unit);
        lemma_times_one(xa + xb);
        lemma_times_one(xa - xb);
    }
    let m: u128 = ma as u128 * 65536;
    if na == nb {
        proof {
            assert((m + 1) * unit == xa + unit) by (nonlinear_arith)
                requires
                    xa == m * unit,
            ;
        }
        return pack(na, m, ea as i128 - 16, true, Ghost(xa + xb), Ghost(1));
    }
    proof {
        let less = m - 1;
        assert(less * unit == xa - unit) by (nonlinear_arith)
            requires
                xa == m * unit,
                less == m - 1,
        ;
        assert(xa >= unit) by (nonlinear_arith)
            requires
                xa == m * unit,
                m >= 1,
                unit > 0,
        ;
    }
    pack(na, m - 1, ea as i128 - 16, true, Ghost(xa - xb), Ghost(1))
}

impl Double {
    /// Significand and exponent of a finite number: the magnitude is
    /// `m * 2^e` units of the smallest positive double.
    pub(crate) fn decode(self) -> (r: (u64, u32))
        requires
            self.finite(),
        ensures
            self.magnitude() == r.0 * pow2(r.1 as nat),
            r.0 < 2 * HIDDEN,
            r.1 > 0 ==> r.0 >= HIDDEN,
            r.1 <= 2045,
            r.1 == self.scale(),
            r.0 == 0 <==> self.zero(),
            r.0 == 0 <==> self.magnitude() == 0,
    {
        let m: u64 = if self.bits >= SIGN { self.bits - SIGN } else { self.bits };
        let exponent: u64 = m / HIDDEN;
        let fraction: u64 = m % HIDDEN;
        proof {
            lemma2_to64();
        }
        if exponent == 0 {
            proof {
                assert(fraction * pow2(0) == fraction);
            }
            (fraction, 0)
        } else {
            proof {
                lemma_pow2_pos((exponent - 1) as nat);
                lemma_mul_strictly_positive((HIDDEN + fraction) as int, pow2((exponent - 1) as nat) as int);
            }
            (HIDDEN + fraction, (exponent - 1) as u32)
        }
    }

    /// The sum.
    pub fn plus(self, other: Double) -> (r: Double)
        ensures
            r == sum(self, other),
    {
        if self.is_nan() || other.is_nan() {
            return Double { bits: NAN_BITS };
        }
        if !self.is_finite() {
            if !other.is_finite() && self.is_sign_negative() != other.is_sign_negative() {
                return Double { bits: NAN_BITS };
            }
            return self;
        }
        if !other.is_finite() {
            return other;
        }
        let (ma, ea) = self.decode();
        let (mb, eb) = other.decode();
        if ea >= eb {
            sum_aligned(self.is_sign_negative(), ma, ea, other.is_sign_negative(), mb, eb)
        } else {
            sum_aligned(other.is_sign_negative(), mb, eb, self.is_sign_negative(), ma, ea)
        }
    }

    /// The difference.
    pub fn minus(self, other: Double) -> (r: Double)
        ensures
            r == difference(self, other),
    {
        self.plus(other.negate())
    }

    /// The product.
    pub fn times(self, other: Double) -> (r: Double)
        ensures
            r == product(self, other),
    {
        let negative: bool = self.is_sign_negative() != other.is_sign_negative();
        if self.is_nan() || other.is_nan() {
            return Double { bits: NAN_BITS };
        }
        if !self.is_finite() || !other.is_finite() {
            if self.is_zero() || other.is_zero() {
                return Double { bits: NAN_BITS };
            }
            return make_infinity(negative);
        }
        let (ma, ea) = self.decode();
        let (mb, eb) = other.decode();
        let ghost n = self.magnitude() * other.magnitude();
        let ghost d = pow2(1074) as int;
        proof {
            lemma_pow2_pos(1074);
        }
        if ma == 0 || mb == 0 {
            proof {
                assert(n == 0) by (nonlinear_arith)
                    requires
                        n == self.magnitude() * other.magnitude(),
                        self.magnitude() == 0 || other.magnitude() == 0,
                ;
                lemma_nearest_zero(negative, d);
            }
            return make_zero(negative);
        }
        proof {
            assert(0 < ma * mb < 0x8000_0000_0000_0000_0000_0000_0000_0000) by (nonlinear_arith)
                requires
                    0 < ma < 0x20_0000_0000_0000,
                    0 < mb < 0x20_0000_0000_0000,
            ;
        }
        let m: u128 = ma as u128 * mb as u128;
        let e: i128 = ea as i128 + eb as i128 - 1074;
        proof {
            let pa = pow2(ea as nat) as int;
            let pb = pow2(eb as nat) as int;
            let p = pow2(plus(e as int)) as int;
            let c = pow2(plus(-e as int)) as int;
            lemma_pow2_adds(ea as nat, eb as nat);
            lemma_pow2_adds((ea + eb) as nat, plus(-e as int));
            lemma_pow2_adds(plus(e as int), 1074);
            assert(n * c == m * (p * d)) by (nonlinear_arith)
                requires
                    n == (ma * pa) * (mb * pb),
                    m == ma * mb,
                    (pa * pb) * c == p * d,
            ;
        }
        pack(negative, m, e, false, Ghost(n), Ghost(d))
    }

    /// The quotient.
    pub fn over(self, other: Double) -> (r: Double)
        ensures
            r == quotient(self, other),
    {
        let negative: bool = self.is_sign_negative() != other.is_sign_negative();
        if self.is_nan() || other.is_nan() || (!self.is_finite() && !other.is_finite()) || (self.is_zero()
            && other.is_zero()) {
            return Double { bits: NAN_BITS };
        }
        if !self.is_finite() || other.is_zero() {
            return make_infinity(negative);
        }
        if !other.is_finite() {
            return make_zero(negative);
        }
        let (ma, ea) = self.decode();
        let (mb, eb) = other.decode();
        let ghost n = self.magnitude() * pow2(1074);
        let ghost d = other.magnitude();
        proof {
            lemma_pow2_pos(eb as nat);
            lemma_mul_strictly_positive(mb as int, pow2(eb as nat) as int);
        }
        if ma == 0 {
            proof {
                assert(n == 0) by (nonlinear_arith)
                    requires
                        n == self.magnitude() * pow2(1074),
                        self.magnitude() == 0,
                ;
                lemma_nearest_zero(negative, d);
            }
            return make_zero(negative);
        }
        let len: u32 = bit_length(ma as u128);
        proof {
            lemma2_to64();
            lemma2_to64_rest();
            lemma_pow2_127();
            if len > 53 {
                if len > 54 {
                    lemma_pow2_strictly_increases(53, (len - 1) as nat);
                }
                assert(false);
            }
        }
        let shift: i32 = 126 - len as i32;
        let w: u128 = two_to(shift);
        proof {
            lemma_pow2_pos(shift as nat);
            lemma_pow2_adds(shift as nat, len as nat);
            lemma_pow2_adds(shift as nat, (len - 1) as nat);
            lemma_pow2_unfold(127);
            lemma_pow2_unfold(126);
            lemma_pow2_adds(72, 53);
            lemma_pow2_adds(64, 8);
            assert(pow2(125) <= ma * w < pow2(126)) by (nonlinear_arith)
                requires
                    pow2((len - 1) as nat) <= ma < pow2(len as nat),
                    w * pow2((len - 1) as nat) == pow2(125),
                    w * pow2(len as nat) == pow2(126),
                    w > 0,
            ;
        }
        let x: u128 = ma as u128 * w;
        let q: u128 = x / mb as u128;
        let rest: u128 = x % mb as u128;
        let sticky: bool = rest != 0;
        let e: i128 = ea as i128 - eb as i128 + 1074 - shift as i128;
        proof {
            assert(x == q * mb + rest) by {
                vstd::arithmetic::div_mod::lemma_fundamental_div_mod(x as int, mb as int);
                lemma_mul_is_commutative(q as int, mb as int);
            }
            assert(q >= pow2(72)) by (nonlinear_arith)
                requires
                    x == q * mb + rest,
                    rest < mb,
                    mb < pow2(53),
                    x >= pow2(72) * pow2(53),
            ;
            assert(q <= x) by (nonlinear_arith)
                requires
                    x == q * mb + rest,
                    mb >= 1,
                    rest >= 0,
            ;
            let p = pow2(plus(e as int)) as int;
            let c = pow2(plus(-e as int)) as int;
            let pa = pow2(ea as nat) as int;
            let pb = pow2(eb as nat) as int;
            let big = pow2(1074) as int;
            let unit = p * d;
            lemma_pow2_adds(ea as nat, 1074);
            lemma_pow2_adds((ea + 1074) as nat, plus(-e as int));
            lemma_pow2_adds(plus(e as int), eb as nat);
            lemma_pow2_adds((plus(e as int) + eb) as nat, shift as nat);
            let f = p * pb;
            lemma_pow2_pos(plus(e as int));
            lemma_mul_strictly_positive(p, pb);
            assert(n * c == x * f) by (nonlinear_arith)
                requires
                    n == (ma * pa) * big,
                    x == ma * w,
                    (pa * big) * c == f * w,
            ;
            assert(unit == mb * f) by (nonlinear_arith)
                requires
                    unit == p * d,
                    d == mb * pb,
                    f == p * pb,
            ;
            assert(x * f == q * unit + rest * f) by (nonlinear_arith)
                requires
                    unit == mb * f,
                    x == q * mb + rest,
            ;
            assert((q + 1) * unit == q * unit + mb * f) by (nonlinear_arith)
                requires
                    unit == mb * f,
            ;
            assert(rest * f < mb * f) by (nonlinear_arith)
                requires
                    rest < mb,
                    f > 0,
            ;
            assert(rest > 0 ==> rest * f > 0) by (nonlinear_arith)
                requires
                    f > 0,
            ;
            assert(rest == 0 ==> rest * f == 0) by (nonlinear_arith);
        }
        pack(negative, q, e, sticky, Ghost(n), Ghost(d))
    }

    /// The double nearest an integer.
    pub fn from_i64(v: i64) -> (r: Double)
        ensures
            r == of_int(v as int),
    {
        let m: u128 = if v < 0 { (-(v as i128)) as u128 } else { v as u128 };
        proof {
            lemma_pow2_pos(1074);
            lemma_exact_scaled(m as int, 1074);
            assert((v * pow2(1074) < 0) == (v < 0)) by (nonlinear_arith)
                requires
                    pow2(1074) > 0,
            ;
            assert((-v) * pow2(1074) == -(v * pow2(1074))) by (nonlinear_arith);
        }
        if m == 0 {
            proof {
                lemma_nearest_zero(false, 1);
            }
            return make_zero(false);
        }
        pack(v < 0, m, 1074, false, Ghost(m * pow2(1074)), Ghost(1))
    }

    /// The double nearest a count.
    pub fn from_u64(v: u64) -> (r: Double)
        ensures
            r == of_int(v as int),
    {
        proof {
            lemma_pow2_pos(1074);
            lemma_exact_scaled(v as int, 1074);
            assert(v * pow2(1074) >= 0) by (nonlinear_arith)
                requires
                    pow2(1074) > 0,
            ;
        }
        if v == 0 {
            proof {
                lemma_nearest_zero(false, 1);
            }
            return make_zero(false);
        }
        pack(false, v as u128, 1074, false, Ghost(v * pow2(1074)), Ghost(1))
    }
}

pub proof fn lemma_nearest_zero(negative: bool, d: int)
    requires
        d > 0,
    ensures
        nearest(negative, 0, d) == signed_zero(negative),
{
    vstd::arithmetic::div_mod::lemma_div_of0(d);
    lemma2_to64();
    assert(d * pow2(0) == d);
    vstd::arithmetic::div_mod::lemma_small_mod(0, d as nat);
}

} // verus!
