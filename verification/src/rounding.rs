//! Rounding an exact ratio to the nearest double.

use crate::double::{Double, magnitude_of, HIDDEN, INFINITY_BITS, SIGN};
use vstd::arithmetic::div_mod::*;
use vstd::arithmetic::mul::*;
use vstd::arithmetic::power2::*;
use vstd::prelude::*;

verus! {

/// How many low-order bits of `q` are beyond the 53 that a double keeps.
pub open spec fn excess(q: int) -> nat
    decreases q,
{
    if q < 2 * HIDDEN {
        0
    } else {
        1 + excess(q / 2)
    }
}

/// The bit pattern nearest the ratio `n / d`, in units of the smallest positive
/// double: rounded to nearest, ties to even, and infinite when it is too large.
pub open spec fn round_bits(n: int, d: int) -> int {
    let e = excess(n / d);
    let s = d * pow2(e);
    let q = n / s;
    let r = n % s;
    let up = 2 * r > s || (2 * r == s && q % 2 == 1);
    let bits = e * HIDDEN + (if up {
        q + 1
    } else {
        q
    });
    if bits < INFINITY_BITS {
        bits
    } else {
        INFINITY_BITS as int
    }
}

/// The double nearest plus or minus `n / d` units of the smallest positive
/// double.
pub open spec fn nearest(negative: bool, n: int, d: int) -> Double {
    let m = round_bits(n, d);
    Double {
        bits: if negative {
            (m + SIGN) as u64
        } else {
            m as u64
        },
    }
}

pub proof fn lemma_pow2_53()
    ensures
        pow2(52) == HIDDEN,
        pow2(53) == 2 * HIDDEN,
{
    lemma2_to64_rest();
}

pub proof fn lemma_excess_is(q: int, e: nat)
    requires
        0 <= q < pow2(53 + e),
        e == 0 || q >= pow2((52 + e) as nat),
    ensures
        excess(q) == e,
    decreases e,
{
    lemma_pow2_53();
    if e > 0 {
        lemma_pow2_unfold((53 + e) as nat);
        lemma_pow2_unfold((52 + e) as nat);
        if e > 1 {
            lemma_pow2_strictly_increases(53, (52 + e) as nat);
        }
        assert(q >= 2 * HIDDEN);
        lemma_excess_is(q / 2, (e - 1) as nat);
    }
}

/// What `excess` says of a number, both ways round.
pub proof fn lemma_excess_bounds(q: int)
    requires
        0 <= q,
    ensures
        q < pow2(53 + excess(q)),
        excess(q) == 0 || q >= pow2((52 + excess(q)) as nat),
    decreases q,
{
    lemma_pow2_53();
    if q >= 2 * HIDDEN {
        lemma_excess_bounds(q / 2);
        let e = excess(q / 2);
        lemma_pow2_unfold((54 + e) as nat);
        lemma_pow2_unfold((53 + e) as nat);
    }
}

/// The magnitude of a packed exponent and significand.
pub proof fn lemma_packed_magnitude(e: nat, q: int)
    requires
        0 <= q <= 2 * HIDDEN,
        e == 0 || q >= HIDDEN,
    ensures
        magnitude_of(e * HIDDEN + q) == q * pow2(e),
{
    let h = HIDDEN as int;
    let m = e * h + q;
    lemma_pow2_unfold((e + 1) as nat);
    lemma2_to64();
    if q < h {
        assert(m / h == 0 && m % h == q);
    } else if q < 2 * h {
        assert(m == (e + 1) * h + (q - h)) by (nonlinear_arith)
            requires
                m == e * h + q,
        ;
        lemma_fundamental_div_mod_converse(m, h, (e + 1) as int, q - h);
        assert(pow2((e + 1 - 1) as nat) == pow2(e));
    } else {
        assert(m == (e + 2) * h) by (nonlinear_arith)
            requires
                m == e * h + q,
                q == 2 * h,
        ;
        lemma_fundamental_div_mod_converse(m, h, (e + 2) as int, 0);
        assert(pow2((e + 2 - 1) as nat) == 2 * pow2(e));
        assert(h * (2 * pow2(e)) == (2 * h) * pow2(e)) by (nonlinear_arith);
    }
}

/// The significand of a rounded ratio has 53 bits, unless it is subnormal.
pub proof fn lemma_quotient_range(n: int, d: int)
    requires
        n >= 0,
        d > 0,
    ensures
        ({
            let e = excess(n / d);
            let q = n / (d * pow2(e));
            &&& d * pow2(e) > 0
            &&& 0 <= q < 2 * HIDDEN
            &&& e > 0 ==> q >= HIDDEN
        }),
{
    let e = excess(n / d);
    let s = d * pow2(e);
    lemma_pow2_53();
    lemma_pow2_pos(e);
    lemma_mul_strictly_positive(d, pow2(e) as int);
    lemma_div_pos_is_pos(n, d);
    lemma_excess_bounds(n / d);
    lemma_div_denominator(n, d, pow2(e) as int);
    let f = n / d;
    let w = pow2(e) as int;
    lemma_pow2_adds(53, e);
    lemma_pow2_adds(52, e);
    let h = HIDDEN as int;
    assert(0 <= f / w < 2 * h) by (nonlinear_arith)
        requires
            0 <= f < 2 * h * w,
            w > 0,
    ;
    if e > 0 {
        assert(f / w >= h) by (nonlinear_arith)
            requires
                f >= h * w,
                w > 0,
        ;
    }
}

/// Nonnegative part.
pub open spec fn plus(e: int) -> nat {
    if e > 0 {
        e as nat
    } else {
        0
    }
}

/// `n / d` is `m * 2^e` exactly, or strictly between `m * 2^e` and
/// `(m + 1) * 2^e` when `sticky`.
pub open spec fn scaled(n: int, d: int, m: int, e: int, sticky: bool) -> bool {
    let unit = pow2(plus(e)) * d;
    let whole = n * pow2(plus(-e));
    if sticky {
        m * unit < whole < (m + 1) * unit
    } else {
        whole == m * unit
    }
}

proof fn lemma_pack_excess(n: int, d: int, m: int, e: int, sticky: bool, len: nat, top: nat)
    requires
        d > 0,
        0 < m < pow2(len),
        len > 0,
        m >= pow2((len - 1) as nat),
        scaled(n, d, m, e, sticky),
        top == plus(e + len - 53),
    ensures
        n > 0,
        excess(n / d) == top,
{
    let p = pow2(plus(e)) as int;
    let c = pow2(plus(-e)) as int;
    let unit = p * d;
    lemma_pow2_pos(plus(e));
    lemma_pow2_pos(plus(-e));
    let big = pow2(len) as int;
    let small = pow2((len - 1) as nat) as int;
    assert(unit > 0) by (nonlinear_arith)
        requires
            unit == p * d,
            p > 0,
            d > 0,
    ;
    assert(small * unit <= n * c < big * unit) by (nonlinear_arith)
        requires
            unit > 0,
            small <= m < big,
            if sticky {
                m * unit < n * c < (m + 1) * unit
            } else {
                n * c == m * unit
            },
    ;
    lemma_pow2_pos((len - 1) as nat);
    assert(n > 0) by (nonlinear_arith)
        requires
            small * unit <= n * c,
            c > 0,
            small > 0,
            unit > 0,
    ;
    // upper bound
    let hi = pow2(53 + top) as int;
    lemma_pow2_adds(len, plus(e));
    lemma_pow2_adds((53 + top) as nat, plus(-e));
    if len + plus(e) < 53 + top + plus(-e) {
        lemma_pow2_strictly_increases((len + plus(e)) as nat, (53 + top + plus(-e)) as nat);
    }
    assert(big * p <= hi * c);
    assert(n * c < hi * d * c) by (nonlinear_arith)
        requires
            n * c < big * unit,
            unit == p * d,
            big * p <= hi * c,
            d > 0,
    ;
    assert(n < hi * d) by (nonlinear_arith)
        requires
            n * c < hi * d * c,
            c > 0,
    ;
    assert(n / d < hi) by (nonlinear_arith)
        requires
            n < hi * d,
            d > 0,
            n > 0,
    ;
    assert(n / d >= 0) by (nonlinear_arith)
        requires
            n > 0,
            d > 0,
    ;
    if top > 0 {
        let lo = pow2((52 + top) as nat) as int;
        lemma_pow2_adds((len - 1) as nat, plus(e));
        lemma_pow2_adds((52 + top) as nat, plus(-e));
        assert(small * p == lo * c);
        assert(n * c >= lo * d * c) by (nonlinear_arith)
            requires
                n * c >= small * unit,
                unit == p * d,
                small * p == lo * c,
                d > 0,
        ;
        assert(n >= lo * d) by (nonlinear_arith)
            requires
                n * c >= lo * d * c,
                c > 0,
        ;
        assert(n / d >= lo) by (nonlinear_arith)
            requires
                n >= lo * d,
                d > 0,
        ;
    }
    lemma_excess_is(n / d, top);
}

/// The quotient and the position of the remainder, read off the leading bits.
pub proof fn lemma_pack_quotient(n: int, d: int, m: int, e: int, sticky: bool, top: nat, k: nat)
    requires
        d > 0,
        m >= 0,
        scaled(n, d, m, e, sticky),
        k > 0,
        top - e == k,
    ensures
        ({
            let s = d * pow2(top);
            let lo = m / pow2(k) as int;
            let rem = m % pow2(k) as int;
            let half = pow2((k - 1) as nat);
            &&& s > 0
            &&& n / s == lo
            &&& (2 * (n % s) > s) == (rem > half || (rem == half && sticky))
            &&& (2 * (n % s) == s) == (rem == half && !sticky)
        }),
{
    let p = pow2(plus(e)) as int;
    let c = pow2(plus(-e)) as int;
    let unit = p * d;
    let w = pow2(k) as int;
    let half = pow2((k - 1) as nat) as int;
    let s = d * pow2(top);
    let lo = m / w;
    let rem = m % w;
    lemma_pow2_pos(plus(e));
    lemma_pow2_pos(plus(-e));
    lemma_pow2_pos(k);
    lemma_pow2_pos(top);
    lemma_pow2_pos((k - 1) as nat);
    lemma_pow2_unfold(k);
    assert(w == 2 * half);
    lemma_fundamental_div_mod(m, w);
    lemma_mod_bound(m, w);
    assert(unit > 0) by (nonlinear_arith)
        requires
            unit == p * d,
            p > 0,
            d > 0,
    ;
    lemma_mul_strictly_positive(d, pow2(top) as int);
    // s * c == unit * w
    lemma_pow2_adds(plus(e), k);
    lemma_pow2_adds(top, plus(-e));
    assert(p * w == pow2(top) * c);
    assert(s * c == unit * w) by (nonlinear_arith)
        requires
            s == d * pow2(top),
            unit == p * d,
            p * w == pow2(top) * c,
    ;
    let whole = n * c;
    let r = n - lo * s;
    assert(r * c == whole - lo * (unit * w)) by (nonlinear_arith)
        requires
            r == n - lo * s,
            whole == n * c,
            s * c == unit * w,
    ;
    assert(m * unit == lo * (unit * w) + rem * unit) by (nonlinear_arith)
        requires
            m == w * lo + rem,
    ;
    assert((m + 1) * unit == lo * (unit * w) + (rem + 1) * unit) by (nonlinear_arith)
        requires
            m == w * lo + rem,
    ;
    let rc = r * c;
    assert(if sticky {
        rem * unit < rc < (rem + 1) * unit
    } else {
        rc == rem * unit
    });
    // 0 <= rc < s * c
    assert(rem * unit >= 0) by (nonlinear_arith)
        requires
            rem >= 0,
            unit > 0,
    ;
    assert((rem + 1) * unit <= unit * w) by (nonlinear_arith)
        requires
            rem + 1 <= w,
            unit > 0,
    ;
    assert(rem * unit < unit * w) by (nonlinear_arith)
        requires
            rem < w,
            unit > 0,
    ;
    assert(0 <= rc < s * c);
    assert(0 <= r < s) by (nonlinear_arith)
        requires
            0 <= rc < s * c,
            rc == r * c,
            c > 0,
    ;
    lemma_fundamental_div_mod_converse(n, s, lo, r);
    // compare 2 r with s through 2 rc and s c = 2 half unit
    assert(s * c == 2 * (half * unit)) by (nonlinear_arith)
        requires
            s * c == unit * w,
            w == 2 * half,
    ;
    assert((2 * r > s) == (2 * rc > s * c)) by (nonlinear_arith)
        requires
            rc == r * c,
            c > 0,
    ;
    assert((2 * r == s) == (2 * rc == s * c)) by (nonlinear_arith)
        requires
            rc == r * c,
            c > 0,
    ;
    if rem > half {
        assert(rem * unit >= half * unit + unit) by (nonlinear_arith)
            requires
                rem >= half + 1,
                unit > 0,
        ;
    } else if rem < half {
        assert((rem + 1) * unit <= half * unit) by (nonlinear_arith)
            requires
                rem + 1 <= half,
                unit > 0,
        ;
        assert(rem * unit < half * unit) by (nonlinear_arith)
            requires
                rem < half,
                unit > 0,
        ;
    }
}

/// The number of bits of `m`.
pub(crate) fn bit_length(m: u128) -> (len: u32)
    requires
        0 < m < 0x8000_0000_0000_0000_0000_0000_0000_0000,
    ensures
        0 < len <= 127,
        pow2((len - 1) as nat) <= m < pow2(len as nat),
{
    let mut len: u32 = 1;
    let mut bound: u128 = 2;
    proof {
        lemma2_to64();
        lemma_pow2_127();
    }
    while bound <= m
        invariant
            0 < len <= 127,
            bound == pow2(len as nat),
            pow2((len - 1) as nat) <= m,
            0 < m < 0x8000_0000_0000_0000_0000_0000_0000_0000,
            pow2(127) == 0x8000_0000_0000_0000_0000_0000_0000_0000,
        decreases 127 - len,
    {
        proof {
            if len == 127 {
                assert(false);
            }
            lemma_pow2_unfold((len + 1) as nat);
        }
        bound = bound * 2;
        len = len + 1;
    }
    len
}

/// The `k`th power of two.
pub(crate) fn two_to(k: i32) -> (p: u128)
    requires
        0 <= k <= 127,
    ensures
        p == pow2(k as nat),
{
    let mut p: u128 = 1;
    let mut i: i32 = 0;
    proof {
        lemma2_to64();
        lemma_pow2_127();
    }
    while i < k
        invariant
            0 <= i <= k <= 127,
            p == pow2(i as nat),
            pow2(127) == 0x8000_0000_0000_0000_0000_0000_0000_0000,
        decreases k - i,
    {
        proof {
            lemma_pow2_unfold((i + 1) as nat);
            if i + 1 < 127 {
                lemma_pow2_strictly_increases((i + 1) as nat, 127);
            }
        }
        p = p * 2;
        i = i + 1;
    }
    p
}

pub proof fn lemma_pow2_127()
    ensures
        pow2(127) == 0x8000_0000_0000_0000_0000_0000_0000_0000,
        pow2(63) == 0x8000_0000_0000_0000,
        pow2(64) == 0x1_0000_0000_0000_0000,
{
    lemma2_to64();
    lemma2_to64_rest();
    lemma_pow2_adds(63, 64);
}

/// The double nearest plus or minus `n / d`, given the leading bits of the ratio.
pub(crate) fn pack(negative: bool, m: u128, e: i128, sticky: bool, Ghost(n): Ghost<int>, Ghost(d): Ghost<int>) -> (r: Double)
    requires
        0 < m < 0x8000_0000_0000_0000_0000_0000_0000_0000,
        -0x10_0000_0000_0000_0000_0000_0000 <= e <= 0x10_0000_0000_0000_0000_0000_0000,
        d > 0,
        scaled(n, d, m as int, e as int, sticky),
        sticky ==> m >= 0x80_0000_0000_0000,
    ensures
        r == nearest(negative, n, d),
{
    let len: u32 = bit_length(m);
    let over: i128 = e + len as i128 - 53;
    let top: i128 = if over > 0 { over } else { 0 };
    let k: i128 = top - e;
    proof {
        lemma_pow2_53();
        lemma_pow2_127();
        lemma_pack_excess(n, d, m as int, e as int, sticky, len as nat, top as nat);
        if sticky && len < 56 {
            lemma2_to64_rest();
            if len < 55 {
                lemma_pow2_strictly_increases(len as nat, 55);
            }
            assert(false);
        }
    }
    let ghost s = d * pow2(top as nat);
    let ghost q = n / s;
    proof {
        lemma_quotient_range(n, d);
    }
    let significand: u64;
    let up: bool;
    if k <= 0 {
        // every bit fits: shift left, nothing is lost
        proof {
            let w = pow2((-k) as nat);
            lemma_pow2_adds(len as nat, (-k) as nat);
            lemma_pow2_pos((-k) as nat);
            assert(len - k <= 53);
            if len - k < 53 {
                lemma_pow2_strictly_increases((len - k) as nat, 53);
            }
            assert(m * w < pow2(53)) by (nonlinear_arith)
                requires
                    m < pow2(len as nat),
                    w > 0,
                    pow2(len as nat) * w <= pow2(53),
            ;
            lemma_pow2_adds(top as nat, (-k) as nat);
            assert(e >= 0);
            lemma2_to64();
            assert(n == m * (pow2(e as nat) * d));
            lemma_pow2_pos(top as nat);
            lemma_mul_strictly_positive(d, pow2(top as nat) as int);
            assert(n == (m * w) * s) by (nonlinear_arith)
                requires
                    n == m * (pow2(e as nat) * d),
                    pow2(e as nat) == pow2(top as nat) * w,
                    s == d * pow2(top as nat),
            ;
            lemma_fundamental_div_mod_converse(n, s, m * w, 0);
        }
        let shifted: u64 = (m * two_to(-k as i32)) as u64;
        significand = shifted;
        up = false;
    } else if k > 127 {
        // the ratio is below half of the last place
        proof {
            lemma_pack_quotient(n, d, m as int, e as int, sticky, top as nat, k as nat);
            if len + 1 < k {
                lemma_pow2_strictly_increases((len + 1) as nat, k as nat);
            }
            lemma_pow2_unfold((len + 1) as nat);
            lemma_pow2_unfold(k as nat);
            lemma_basic_div(m as int, pow2(k as nat) as int);
            lemma_small_mod(m as nat, pow2(k as nat));
        }
        significand = 0;
        up = false;
    } else {
        proof {
            lemma_pack_quotient(n, d, m as int, e as int, sticky, top as nat, k as nat);
            lemma_pow2_unfold(k as nat);
            lemma_pow2_pos((k - 1) as nat);
        }
        let width: u128 = two_to(k as i32);
        let lo: u128 = m / width;
        let rem: u128 = m % width;
        let half: u128 = width / 2;
        significand = lo as u64;
        up = rem > half || (rem == half && (sticky || lo % 2 == 1));
    }
    let rounded: u64 = if up { significand + 1 } else { significand };
    let bits: u64 = if top >= 2047 { INFINITY_BITS } else { top as u64 * HIDDEN + rounded };
    let bits: u64 = if bits < INFINITY_BITS { bits } else { INFINITY_BITS };
    Double { bits: if negative { bits + SIGN } else { bits } }
}

} // verus!
