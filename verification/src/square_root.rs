//! The correctly rounded square root.

use crate::arithmetic::not_a_number;
use crate::double::{Double, NAN_BITS};
use crate::rounding::{bit_length, lemma_pow2_127, nearest, pack, scaled, two_to};
use vstd::arithmetic::mul::*;
use vstd::arithmetic::power2::*;
use vstd::prelude::*;

verus! {

/// The largest integer whose square is at most `n`.
pub open spec fn floor_root(n: int) -> int
    decreases n,
{
    if n <= 0 {
        0
    } else {
        let r = floor_root(n - 1);
        if (r + 1) * (r + 1) <= n {
            r + 1
        } else {
            r
        }
    }
}

/// The square root, rounded to nearest, ties to even.
///
/// The root of `n` units lies in a half-open half-unit interval; every place
/// where rounding turns over is an end of such an interval, so the midpoint
/// stands for a root that is not at its start.
pub open spec fn root(a: Double) -> Double {
    if a.nan() || (a.signed() && !a.zero()) {
        not_a_number()
    } else if a.zero() || !a.finite() {
        a
    } else {
        let n = 4 * (a.magnitude() * pow2(1074));
        let r = floor_root(n);
        nearest(
            false,
            2 * r + (if r * r == n {
                0int
            } else {
                1
            }),
            4,
        )
    }
}

pub proof fn lemma_floor_root(n: int)
    requires
        n >= 0,
    ensures
        floor_root(n) >= 0,
        floor_root(n) * floor_root(n) <= n,
        n < (floor_root(n) + 1) * (floor_root(n) + 1),
    decreases n,
{
    if n > 0 {
        lemma_floor_root(n - 1);
        let r = floor_root(n - 1);
        assert((r + 2) * (r + 2) > (r + 1) * (r + 1)) by (nonlinear_arith)
            requires
                r >= 0,
        ;
    }
}

pub proof fn lemma_floor_root_is(n: int, r: int)
    requires
        n >= 0,
        r >= 0,
        r * r <= n,
    ensures
        floor_root(n) >= r,
        n < (r + 1) * (r + 1) ==> floor_root(n) == r,
{
    lemma_floor_root(n);
    let f = floor_root(n);
    if f < r {
        assert((f + 1) * (f + 1) <= r * r) by (nonlinear_arith)
            requires
                0 <= f < r,
        ;
    }
    if n < (r + 1) * (r + 1) && f > r {
        assert((r + 1) * (r + 1) <= f * f) by (nonlinear_arith)
            requires
                0 <= r < f,
        ;
    }
}

/// The integer square root of a number below `2^126`.
fn whole_root(x: u128) -> (r: u128)
    requires
        x < 0x4000_0000_0000_0000_0000_0000_0000_0000,
    ensures
        r * r <= x < (r + 1) * (r + 1),
        r < 0x8000_0000_0000_0000,
{
    let mut r: u128 = 0;
    let mut w: u128 = 0x8000_0000_0000_0000;
    let mut left: u32 = 63;
    proof {
        lemma_pow2_127();
        assert((0 + w) * (0 + w) == 0x4000_0000_0000_0000_0000_0000_0000_0000) by (nonlinear_arith)
            requires
                w == 0x8000_0000_0000_0000,
        ;
    }
    while left > 0
        invariant
            left <= 63,
            w == pow2(left as nat),
            r + w <= 0x8000_0000_0000_0000,
            r * r <= x < (r + w) * (r + w),
        decreases left,
    {
        proof {
            lemma_pow2_pos((left - 1) as nat);
            lemma_pow2_unfold(left as nat);
        }
        let half: u128 = w / 2;
        let t: u128 = r + half;
        proof {
            assert(t * t < 0x4000_0000_0000_0000_0000_0000_0000_0000) by (nonlinear_arith)
                requires
                    0 <= t < 0x8000_0000_0000_0000,
            ;
        }
        if t * t <= x {
            r = t;
        }
        w = half;
        left = left - 1;
    }
    proof {
        lemma2_to64();
    }
    r
}

impl Double {
    /// The square root.
    pub fn sqrt(self) -> (r: Double)
        ensures
            r == root(self),
    {
        if self.is_nan() || (self.is_sign_negative() && !self.is_zero()) {
            return Double { bits: NAN_BITS };
        }
        if self.is_zero() || !self.is_finite() {
            return self;
        }
        let (m, e) = self.decode();
        let len: u32 = bit_length(m as u128);
        proof {
            lemma2_to64();
            lemma2_to64_rest();
            lemma_pow2_127();
            if len > 53 {
                if len > 54 {
                    lemma_pow2_strictly_increases(53, (len - 1) as nat);
                }
                assert(false);
            }
        }
        // shift the significand up so that the exponent left over is even
        let total: u32 = e + 1074;
        let j: u32 = if (total + len) % 2 == 1 { 125 - len } else { 126 - len };
        let h: u32 = (total - j) / 2;
        let w: u128 = two_to(j as i32);
        proof {
            assert(total - j == 2 * h);
            lemma_pow2_pos(j as nat);
            lemma_pow2_adds(j as nat, len as nat);
            lemma_pow2_adds(j as nat, (len - 1) as nat);
            if j + len < 126 {
                lemma_pow2_strictly_increases((j + len) as nat, 126);
            }
            if 124 < j + len - 1 {
                lemma_pow2_strictly_increases(124, (j + len - 1) as nat);
            }
            lemma_pow2_unfold(127);
            lemma_pow2_unfold(126);
            lemma_pow2_unfold(125);
            assert(pow2(124) <= m * w < pow2(126)) by (nonlinear_arith)
                requires
                    pow2((len - 1) as nat) <= m < pow2(len as nat),
                    w * pow2((len - 1) as nat) >= pow2(124),
                    w * pow2(len as nat) <= pow2(126),
                    w > 0,
            ;
        }
        let x: u128 = m as u128 * w;
        let r: u128 = whole_root(x);
        let sticky: bool = r * r != x;
        proof {
            let n = 4 * (self.magnitude() * pow2(1074));
            lemma_root_scaled(self, m as int, e as nat, x as int, j as nat, h as nat, r as int, n);
            assert(r >= 0x80_0000_0000_0000) by (nonlinear_arith)
                requires
                    x < (r + 1) * (r + 1),
                    x >= 0x1000_0000_0000_0000_0000_0000_0000_0000,
                    r >= 0,
            ;
        }
        let ghost n = 4 * (self.magnitude() * pow2(1074));
        let ghost f = floor_root(n);
        pack(false, r, h as i128, sticky, Ghost(2 * f + (if f * f == n { 0int } else { 1 })), Ghost(4))
    }
}

proof fn lemma_root_scaled(a: Double, m: int, e: nat, x: int, j: nat, h: nat, r: int, n: int)
    requires
        a.magnitude() == m * pow2(e),
        m > 0,
        x == m * pow2(j),
        e + 1074 == j + 2 * h,
        r >= 0,
        r * r <= x < (r + 1) * (r + 1),
        n == 4 * (a.magnitude() * pow2(1074)),
    ensures
        ({
            let f = floor_root(n);
            scaled(
                2 * f + (if f * f == n {
                    0int
                } else {
                    1
                }),
                4,
                r,
                h as int,
                r * r != x,
            )
        }),
{
    let p = pow2(h) as int;
    lemma_pow2_pos(h);
    lemma_pow2_adds(e, 1074);
    lemma_pow2_adds(j, (2 * h) as nat);
    lemma_pow2_adds(h, h);
    assert(h + h == 2 * h);
    // n == x * (2 p)^2
    let u = 2 * p;
    assert(n == x * (u * u)) by (nonlinear_arith)
        requires
            n == 4 * ((m * pow2(e)) * pow2(1074)),
            x == m * pow2(j),
            pow2(e) * pow2(1074) == pow2(j) * (p * p),
            u == 2 * p,
    ;
    let s = r * u;
    assert(s * s == (r * r) * (u * u)) by (nonlinear_arith)
        requires
            s == r * u,
    ;
    assert((s + u) * (s + u) == ((r + 1) * (r + 1)) * (u * u)) by (nonlinear_arith)
        requires
            s == r * u,
    ;
    let uu = u * u;
    assert(uu > 0) by (nonlinear_arith)
        requires
            uu == u * u,
            u > 0,
    ;
    assert((r * r) * uu <= x * uu) by (nonlinear_arith)
        requires
            r * r <= x,
            uu > 0,
    ;
    assert(x * uu < ((r + 1) * (r + 1)) * uu) by (nonlinear_arith)
        requires
            x < (r + 1) * (r + 1),
            uu > 0,
    ;
    assert(s >= 0) by (nonlinear_arith)
        requires
            s == r * u,
            r >= 0,
            u > 0,
    ;
    assert(n >= 0) by (nonlinear_arith)
        requires
            s * s <= n,
    ;
    lemma_floor_root_is(n, s);
    lemma_floor_root(n);
    let f = floor_root(n);
    assert(s <= f < s + u) by {
        if f >= s + u {
            assert((s + u) * (s + u) <= f * f) by (nonlinear_arith)
                requires
                    0 <= s + u <= f,
            ;
        }
    }
    let v = 2 * f + (if f * f == n {
        0int
    } else {
        1
    });
    let unit = p * 4;
    lemma2_to64();
    assert(v * pow2(0) == v) by {
        lemma_mul_basics(v);
    }
    assert(r * unit == 2 * s) by (nonlinear_arith)
        requires
            unit == p * 4,
            s == r * (2 * p),
    ;
    assert((r + 1) * unit == 2 * s + 2 * u) by (nonlinear_arith)
        requires
            unit == p * 4,
            s == r * (2 * p),
            u == 2 * p,
    ;
    if r * r == x {
        assert(s * s == n);
        assert(f == s) by {
            assert(n < (s + 1) * (s + 1)) by (nonlinear_arith)
                requires
                    s * s == n,
                    s >= 0,
            ;
        }
    } else {
        assert(s * s < n) by (nonlinear_arith)
            requires
                s * s == (r * r) * uu,
                n == x * uu,
                r * r < x,
                uu > 0,
        ;
        if f == s {
            assert(f * f != n);
        }
    }
}

} // verus!
