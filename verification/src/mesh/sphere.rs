//! The vertices of a sphere are sound: finite, and neither too small nor too large.
//!
//! Bounds are powers of two, in units of the smallest positive double, of which
//! one has two to the power of 1074.

use crate::arithmetic::{lemma_nearest_zero, product, quotient, sum};
use crate::double::{magnitude_of, Double, HIDDEN, INFINITY_BITS};
use crate::math::{dot_product, normalized_vector, vector_length, vector_product, Vec3};
use crate::mesh::shapes::{golden_ratio, halfway, icosahedron_points, projected, Edge};
use crate::mesh::sound_vertex;
use crate::order::{lemma_magnitude_increases, lemma_one_magnitude, lemma_round_bits_cancels, lemma_round_bits_increases, one};
use crate::precision::lemma_short_is_exact;
use crate::predicates::orient3d_coords;
use crate::rounding::{
    excess, lemma_packed_magnitude, lemma_pow2_53, lemma_quotient_range, nearest, round_bits,
};
use crate::square_root::{floor_root, lemma_floor_root, lemma_floor_root_is, root};
use vstd::arithmetic::div_mod::*;
use vstd::arithmetic::power2::*;
use vstd::prelude::*;

verus! {

/// A finite number between two powers of two, whatever its sign.
pub open spec fn bounded(x: Double, lo: nat, hi: nat) -> bool {
    x.finite() && pow2(lo) <= x.magnitude() <= pow2(hi)
}

/// A radius between two to the power of minus two hundred and two to the power of
/// two hundred.
pub open spec fn moderate(radius: Double) -> bool {
    bounded(radius, 874, 1274)
}

/// A power of two is not rounded.
proof fn lemma_power_exact(a: nat)
    requires
        a <= 2045,
    ensures
        round_bits(pow2(a) as int, 1) < INFINITY_BITS,
        magnitude_of(round_bits(pow2(a) as int, 1)) == pow2(a),
{
    lemma_short_is_exact(1, a);
    assert(1 * pow2(a) == pow2(a));
}

/// A pattern below another has no larger magnitude.
proof fn lemma_magnitude_keeps(a: int, b: int)
    requires
        0 <= a <= b,
    ensures
        magnitude_of(a) <= magnitude_of(b),
{
    if a < b {
        lemma_magnitude_increases(a, b);
    }
}

/// What is at most a power of two is so when rounded.
pub proof fn lemma_rounds_at_most(negative: bool, n: int, d: int, hi: nat)
    requires
        0 <= n <= pow2(hi) * d,
        d > 0,
        hi <= 2045,
    ensures
        nearest(negative, n, d).finite(),
        nearest(negative, n, d).signed() == negative,
        nearest(negative, n, d).magnitude() <= pow2(hi),
{
    lemma_pow2_pos(hi);
    lemma_quotient_range(n, d);
    lemma_power_exact(hi);
    lemma_round_bits_cancels(pow2(hi) as int, d);
    lemma_round_bits_increases(n, pow2(hi) * d, d);
    lemma_magnitude_keeps(round_bits(n, d), round_bits(pow2(hi) as int, 1));
}

/// What lies between two powers of two does so when rounded.
proof fn lemma_rounds_between(negative: bool, n: int, d: int, lo: nat, hi: nat)
    requires
        pow2(lo) * d <= n <= pow2(hi) * d,
        d > 0,
        lo <= hi <= 2045,
    ensures
        bounded(nearest(negative, n, d), lo, hi),
        nearest(negative, n, d).signed() == negative,
{
    lemma_pow2_pos(lo);
    assert(pow2(lo) * d > 0) by (nonlinear_arith)
        requires
            pow2(lo) > 0,
            d > 0,
    ;
    lemma_rounds_at_most(negative, n, d, hi);
    lemma_power_exact(lo);
    lemma_round_bits_cancels(pow2(lo) as int, d);
    lemma_round_bits_increases(pow2(lo) * d, n, d);
    lemma_magnitude_keeps(round_bits(pow2(lo) as int, 1), round_bits(n, d));
}

proof fn lemma_not_zero(x: Double, lo: nat, hi: nat)
    requires
        bounded(x, lo, hi),
    ensures
        !x.zero(),
        x.magnitude() > 0,
        !x.nan(),
{
    lemma_pow2_pos(lo);
}

proof fn lemma_product_bounded(x: Double, y: Double, a: nat, b: nat, c: nat, d: nat)
    requires
        bounded(x, a, b),
        bounded(y, c, d),
        a <= b,
        c <= d,
        a + c >= 1074,
        b + d - 1074 <= 2045,
    ensures
        bounded(product(x, y), (a + c - 1074) as nat, (b + d - 1074) as nat),
        product(x, y).signed() == (x.signed() != y.signed()),
{
    lemma_not_zero(x, a, b);
    lemma_not_zero(y, c, d);
    let u = pow2(1074) as int;
    let n = x.magnitude() * y.magnitude();
    lemma_pow2_pos(1074);
    lemma_pow2_pos(a);
    lemma_pow2_pos(c);
    lemma_pow2_adds(a, c);
    lemma_pow2_adds(b, d);
    lemma_pow2_adds((a + c - 1074) as nat, 1074);
    lemma_pow2_adds((b + d - 1074) as nat, 1074);
    assert(pow2(a) * pow2(c) <= n <= pow2(b) * pow2(d)) by (nonlinear_arith)
        requires
            n == x.magnitude() * y.magnitude(),
            0 < pow2(a) <= x.magnitude() <= pow2(b),
            0 < pow2(c) <= y.magnitude() <= pow2(d),
    ;
    lemma_rounds_between(x.signed() != y.signed(), n, u, (a + c - 1074) as nat, (b + d - 1074) as nat);
}

proof fn lemma_quotient_bounded(x: Double, y: Double, a: nat, b: nat, c: nat, d: nat)
    requires
        bounded(x, a, b),
        bounded(y, c, d),
        a <= b,
        c <= d,
        a + 1074 >= d,
        b + 1074 - c <= 2045,
    ensures
        bounded(quotient(x, y), (a + 1074 - d) as nat, (b + 1074 - c) as nat),
        quotient(x, y).signed() == (x.signed() != y.signed()),
{
    lemma_not_zero(x, a, b);
    lemma_not_zero(y, c, d);
    let u = pow2(1074) as int;
    let m = y.magnitude();
    let n = x.magnitude() * u;
    let lo = (a + 1074 - d) as nat;
    let hi = (b + 1074 - c) as nat;
    lemma_pow2_pos(1074);
    lemma_pow2_pos(lo);
    lemma_pow2_pos(hi);
    lemma_pow2_adds(a, 1074);
    lemma_pow2_adds(b, 1074);
    lemma_pow2_adds(lo, d);
    lemma_pow2_adds(hi, c);
    assert(pow2(lo) * m <= n) by (nonlinear_arith)
        requires
            n == x.magnitude() * u,
            pow2(a) <= x.magnitude(),
            m <= pow2(d),
            pow2(lo) * pow2(d) == pow2(a) * u,
            pow2(lo) > 0,
            u > 0,
    ;
    assert(n <= pow2(hi) * m) by (nonlinear_arith)
        requires
            n == x.magnitude() * u,
            x.magnitude() <= pow2(b),
            m >= pow2(c),
            pow2(hi) * pow2(c) == pow2(b) * u,
            pow2(hi) > 0,
            u > 0,
    ;
    lemma_rounds_between(x.signed() != y.signed(), n, m, lo, hi);
}

/// A finite number that is not negative and at most a power of two.
spec fn upward(x: Double, hi: nat) -> bool {
    x.finite() && !x.signed() && x.magnitude() <= pow2(hi)
}

proof fn lemma_magnitude_range(x: Double)
    ensures
        x.magnitude() >= 0,
        x.zero() ==> x.magnitude() == 0,
        !x.zero() ==> x.magnitude() > 0,
{
    if !x.zero() {
        lemma_magnitude_increases(0, x.abs_bits());
    }
}

/// A sum of numbers that are not negative is at least either of them, between
/// powers of two.
proof fn lemma_sum_upward(x: Double, y: Double, lo: nat, hi: nat)
    requires
        upward(x, hi),
        upward(y, hi),
        lo <= hi,
        hi + 1 <= 2045,
    ensures
        upward(sum(x, y), hi + 1),
        x.magnitude() >= pow2(lo) || y.magnitude() >= pow2(lo) ==> sum(x, y).magnitude() >= pow2(lo),
        x.zero() && y.zero() ==> sum(x, y).zero(),
{
    lemma_magnitude_range(x);
    lemma_magnitude_range(y);
    lemma_pow2_pos(lo);
    lemma_pow2_pos(hi);
    lemma_pow2_unfold(hi + 1);
    let v = x.value() + y.value();
    if v != 0 {
        assert(sum(x, y) == nearest(false, v, 1));
        lemma_rounds_at_most(false, v, 1, hi + 1);
        if x.magnitude() >= pow2(lo) || y.magnitude() >= pow2(lo) {
            lemma_rounds_between(false, v, 1, lo, hi + 1);
        }
    }
}

/// The square root of a number between powers of two that have roots.
proof fn lemma_root_bounded(x: Double, a: nat, b: nat, lo: nat, hi: nat)
    requires
        bounded(x, a, b),
        !x.signed(),
        a + 1074 == 2 * lo,
        b + 1074 == 2 * hi,
        lo <= hi <= 2045,
    ensures
        bounded(root(x), lo, hi),
        !root(x).signed(),
{
    lemma_not_zero(x, a, b);
    let u = pow2(1074) as int;
    let p = pow2(lo) as int;
    let q = pow2(hi) as int;
    let n = 4 * (x.magnitude() * u);
    let r = floor_root(n);
    lemma_pow2_pos(1074);
    lemma_pow2_pos(lo);
    lemma_pow2_pos(hi);
    lemma_pow2_adds(a, 1074);
    lemma_pow2_adds(b, 1074);
    lemma_pow2_adds(lo, lo);
    lemma_pow2_adds(hi, hi);
    assert((2 * p) * (2 * p) <= n <= (2 * q) * (2 * q)) by (nonlinear_arith)
        requires
            n == 4 * (x.magnitude() * u),
            pow2(a) <= x.magnitude() <= pow2(b),
            pow2(a) * u == p * p,
            pow2(b) * u == q * q,
            u > 0,
    ;
    assert(n >= 0) by (nonlinear_arith)
        requires
            n >= (2 * p) * (2 * p),
    ;
    lemma_floor_root_is(n, 2 * p);
    lemma_floor_root(n);
    if r > 2 * q {
        assert(r * r > (2 * q) * (2 * q)) by (nonlinear_arith)
            requires
                r > 2 * q,
                q > 0,
        ;
    }
    let w = 2 * r + (if r * r == n {
        0int
    } else {
        1
    });
    if r == 2 * q {
        assert(r * r == n);
    }
    lemma_rounds_between(false, w, 4, lo, hi);
}

/// A coordinate of a divided icosahedron: a multiple of a power of two, and at most
/// four.
pub open spec fn coarse(x: Double, n: nat) -> bool {
    x.finite() && x.magnitude() <= pow2(1076) && x.magnitude() % (pow2((1022 - n) as nat) as int) == 0
}

/// A vertex of an icosahedron after `n` subdivisions.
pub open spec fn coarse_vertex(v: Vec3, n: nat) -> bool {
    coarse(v.x, n) && coarse(v.y, n) && coarse(v.z, n)
}

/// A multiple of a power of two is one of a lower power.
proof fn lemma_coarser(m: int, k: nat, j: nat)
    requires
        m % (pow2(k) as int) == 0,
        j <= k,
    ensures
        m % (pow2(j) as int) == 0,
{
    let p = pow2(j) as int;
    let s = pow2((k - j) as nat) as int;
    lemma_pow2_pos(j);
    lemma_pow2_pos(k);
    lemma_pow2_adds(j, (k - j) as nat);
    let q = m / (pow2(k) as int);
    lemma_fundamental_div_mod(m, pow2(k) as int);
    assert(m == (q * s) * p) by (nonlinear_arith)
        requires
            m == (p * s) * q,
    ;
    lemma_mod_multiples_basic(q * s, p);
}

/// Rounding keeps a multiple of a power of two one.
proof fn lemma_rounding_keeps_multiples(x: int, k: nat)
    requires
        x >= 0,
        x % (pow2(k) as int) == 0,
        round_bits(x, 1) < INFINITY_BITS,
    ensures
        magnitude_of(round_bits(x, 1)) % (pow2(k) as int) == 0,
{
    let e = excess(x);
    let p = pow2(e) as int;
    assert(x / 1 == x);
    assert(1 * p == p);
    lemma_pow2_pos(e);
    lemma_pow2_pos(k);
    lemma_quotient_range(x, 1);
    let q = x / p;
    let r = x % p;
    let up = 2 * r > p || (2 * r == p && q % 2 == 1);
    let m = if up {
        q + 1
    } else {
        q
    };
    lemma_packed_magnitude(e, m);
    lemma_fundamental_div_mod(x, p);
    if e <= k {
        lemma_coarser(x, k, e);
        assert(m * p == x) by (nonlinear_arith)
            requires
                x == p * q + r,
                r == 0,
                m == q,
        ;
    } else {
        lemma_mod_multiples_basic(m, p);
        lemma_coarser(m * p, e, k);
    }
}

/// A double of at least one is a multiple of the step above one.
proof fn lemma_large_is_coarse(x: Double)
    requires
        bounded(x, 1074, 1076),
    ensures
        coarse(x, 0),
{
    let h = HIDDEN as int;
    let exponent = x.abs_bits() / h;
    let fraction = x.abs_bits() % h;
    lemma_fundamental_div_mod(x.abs_bits(), h);
    lemma_pow2_53();
    if exponent == 0 {
        lemma_pow2_strictly_increases(52, 1074);
        assert(false);
    }
    let e = (exponent - 1) as nat;
    let p = pow2(e) as int;
    lemma_pow2_pos(e);
    let m = h + fraction;
    if e < 1022 {
        lemma_pow2_adds(53, e);
        assert(m * p < 2 * h * p) by (nonlinear_arith)
            requires
                m < 2 * h,
                p > 0,
        ;
        if 53 + e < 1074 {
            lemma_pow2_strictly_increases(53 + e, 1074);
        }
        assert(false);
    }
    lemma_mod_multiples_basic(m, p);
    lemma_coarser(m * p, e, 1022);
}

proof fn lemma_coarse_signs(x: Double, n: nat)
    requires
        coarse(x, n),
    ensures
        coarse(x.negated(), n),
{
    assert(x.negated().abs_bits() == x.abs_bits());
}

/// The golden ratio lies between one and four.
proof fn lemma_golden_ratio()
    ensures
        bounded(golden_ratio(), 1074, 1076),
{
    let five = Double { bits: 0x4014_0000_0000_0000 };
    let two = Double { bits: 0x4000_0000_0000_0000 };
    lemma_constants();
    lemma_root_bounded(five, 1076, 1078, 1075, 1076);
    lemma_pow2_strictly_increases(1074, 1076);
    lemma_sum_upward(one(), root(five), 1075, 1076);
    let s = sum(one(), root(five));
    lemma_quotient_bounded(s, two, 1075, 1077, 1075, 1075);
}

proof fn lemma_constants()
    ensures
        bounded(Double { bits: 0x4014_0000_0000_0000 }, 1076, 1078),
        (Double { bits: 0x4000_0000_0000_0000 }).magnitude() == pow2(1075),
        bounded(Double { bits: 0x4000_0000_0000_0000 }, 1075, 1075),
        one().magnitude() == pow2(1074),
        upward(one(), 1074),
        moderate(Double { bits: 0x4014_0000_0000_0000 }),
{
    lemma_one_magnitude();
    lemma_pow2_53();
    let five = Double { bits: 0x4014_0000_0000_0000 };
    assert(five.magnitude() == 0x14_0000_0000_0000 * pow2(1024));
    lemma_pow2_adds(52, 1024);
    lemma_pow2_adds(53, 1024);
    lemma_pow2_strictly_increases(1077, 1078);
    lemma_pow2_strictly_increases(874, 1076);
    lemma_pow2_strictly_increases(1078, 1274);
    lemma_pow2_pos(1024);
    assert(pow2(1076) <= five.magnitude() <= pow2(1077)) by (nonlinear_arith)
        requires
            five.magnitude() == 0x14_0000_0000_0000 * pow2(1024),
            pow2(1076) == 0x10_0000_0000_0000 * pow2(1024),
            pow2(1077) == 0x20_0000_0000_0000 * pow2(1024),
            pow2(1024) > 0,
    ;
    let two = Double { bits: 0x4000_0000_0000_0000 };
    assert(two.magnitude() == 0x10_0000_0000_0000 * pow2(1023));
    lemma_pow2_adds(52, 1023);
}

/// The vertices of the icosahedron are coarse.
pub proof fn lemma_icosahedron_is_coarse(i: int)
    requires
        0 <= i < icosahedron_points().len(),
    ensures
        coarse_vertex(icosahedron_points()[i], 0),
{
    let zero = Double { bits: 0 };
    lemma_constants();
    lemma_golden_ratio();
    lemma_pow2_strictly_increases(1074, 1076);
    lemma_large_is_coarse(one());
    lemma_large_is_coarse(golden_ratio());
    lemma_coarse_signs(one(), 0);
    lemma_coarse_signs(golden_ratio(), 0);
    lemma_magnitude_range(zero);
    lemma_pow2_pos(1076);
    lemma_pow2_pos(1022);
    lemma_mod_multiples_basic(0, pow2(1022) as int);
    assert(coarse(zero, 0));
}

/// Half of a coarse number.
proof fn lemma_half(x: Double, n: nat)
    requires
        coarse(x, n),
        n < 13,
    ensures
        ({
            let h = quotient(x, Double { bits: 0x4000_0000_0000_0000 });
            &&& coarse(h, n + 1)
            &&& h.magnitude() <= pow2(1075)
        }),
{
    let two = Double { bits: 0x4000_0000_0000_0000 };
    let u = pow2(1074) as int;
    let k = (1022 - n) as nat;
    let g = pow2((k - 1) as nat) as int;
    lemma_constants();
    lemma_magnitude_range(x);
    lemma_magnitude_range(two);
    lemma_pow2_pos(1075);
    lemma_pow2_pos((k - 1) as nat);
    lemma_pow2_unfold(k);
    lemma_pow2_unfold(1075);
    lemma_pow2_unfold(1076);
    let m = x.magnitude();
    let q = m / (2 * g);
    lemma_fundamental_div_mod(m, 2 * g);
    let half = q * g;
    assert(m == 2 * half) by (nonlinear_arith)
        requires
            m == (2 * g) * q,
            half == q * g,
    ;
    assert(m * u == half * (2 * u)) by (nonlinear_arith)
        requires
            m == 2 * half,
    ;
    lemma_pow2_pos(1074);
    lemma_round_bits_cancels(half, 2 * u);
    lemma_mod_multiples_basic(q, g);
    lemma_rounds_at_most(x.signed(), half, 1, 1075);
    let h = quotient(x, two);
    assert(h == nearest(x.signed(), m * u, 2 * u));
    assert(h == nearest(x.signed(), half, 1));
    lemma_quotient_range(half, 1);
    lemma_rounding_keeps_multiples(half, (k - 1) as nat);
    assert((1022 - (n + 1)) as nat == (k - 1) as nat);
}

/// The sum of two halves.
proof fn lemma_halves_sum(x: Double, y: Double, n: nat)
    requires
        coarse(x, n),
        coarse(y, n),
        n <= 13,
        x.magnitude() <= pow2(1075),
        y.magnitude() <= pow2(1075),
    ensures
        coarse(sum(x, y), n),
{
    let g = pow2((1022 - n) as nat) as int;
    lemma_magnitude_range(x);
    lemma_magnitude_range(y);
    lemma_pow2_pos((1022 - n) as nat);
    lemma_pow2_pos(1076);
    lemma_pow2_unfold(1076);
    let a = x.magnitude() / g;
    let b = y.magnitude() / g;
    lemma_fundamental_div_mod(x.magnitude(), g);
    lemma_fundamental_div_mod(y.magnitude(), g);
    let v = x.value() + y.value();
    if v == 0 {
        lemma_magnitude_range(sum(x, y));
        lemma_mod_multiples_basic(0, g);
    } else {
        let w = if v < 0 {
            -v
        } else {
            v
        };
        let c = (if x.signed() {
            -a
        } else {
            a
        }) + (if y.signed() {
            -b
        } else {
            b
        });
        assert(v == c * g) by (nonlinear_arith)
            requires
                x.magnitude() == g * a,
                y.magnitude() == g * b,
                v == x.value() + y.value(),
                x.value() == (if x.signed() { -x.magnitude() } else { x.magnitude() }),
                y.value() == (if y.signed() { -y.magnitude() } else { y.magnitude() }),
                c == (if x.signed() { -a } else { a }) + (if y.signed() { -b } else { b }),
        ;
        let d = if v < 0 {
            -c
        } else {
            c
        };
        assert(w == d * g) by (nonlinear_arith)
            requires
                v == c * g,
                w == (if v < 0 { -v } else { v }),
                d == (if v < 0 { -c } else { c }),
        ;
        lemma_mod_multiples_basic(d, g);
        lemma_rounds_at_most(v < 0, w, 1, 1076);
        lemma_quotient_range(w, 1);
        assert(sum(x, y) == nearest(v < 0, w, 1));
        lemma_rounding_keeps_multiples(w, (1022 - n) as nat);
    }
}

/// A coarse vertex stays so after a further subdivision.
pub proof fn lemma_coarse_kept(v: Vec3, n: nat)
    requires
        coarse_vertex(v, n),
        n < 13,
    ensures
        coarse_vertex(v, n + 1),
{
    let k = (1022 - n) as nat;
    assert((1022 - (n + 1)) as nat == (k - 1) as nat);
    lemma_coarser(v.x.magnitude(), k, (k - 1) as nat);
    lemma_coarser(v.y.magnitude(), k, (k - 1) as nat);
    lemma_coarser(v.z.magnitude(), k, (k - 1) as nat);
}

/// The point halfway along an edge between coarse vertices is coarse.
pub proof fn lemma_halfway_is_coarse(v: Seq<Vec3>, e: Edge, n: nat)
    requires
        coarse_vertex(v[e.a as int], n),
        coarse_vertex(v[e.b as int], n),
        n < 13,
    ensures
        coarse_vertex(halfway(v, e), n + 1),
{
    let (a, b) = (v[e.a as int], v[e.b as int]);
    let two = Double { bits: 0x4000_0000_0000_0000 };
    lemma_half(a.x, n);
    lemma_half(a.y, n);
    lemma_half(a.z, n);
    lemma_half(b.x, n);
    lemma_half(b.y, n);
    lemma_half(b.z, n);
    lemma_halves_sum(quotient(a.x, two), quotient(b.x, two), n + 1);
    lemma_halves_sum(quotient(a.y, two), quotient(b.y, two), n + 1);
    lemma_halves_sum(quotient(a.z, two), quotient(b.z, two), n + 1);
}

/// A coarse number is zero or bounded.
proof fn lemma_coarse_bounded(x: Double, n: nat)
    requires
        coarse(x, n),
        n <= 13,
    ensures
        x.zero() || bounded(x, 1009, 1076),
{
    let g = pow2((1022 - n) as nat) as int;
    lemma_magnitude_range(x);
    lemma_pow2_pos((1022 - n) as nat);
    if n < 13 {
        lemma_pow2_strictly_increases(1009, (1022 - n) as nat);
    }
    let q = x.magnitude() / g;
    lemma_fundamental_div_mod(x.magnitude(), g);
    if !x.zero() {
        assert(q >= 1) by (nonlinear_arith)
            requires
                x.magnitude() == g * q,
                x.magnitude() > 0,
                g > 0,
        ;
        assert(g * q >= g) by (nonlinear_arith)
            requires
                q >= 1,
                g > 0,
        ;
    }
}

/// A product with zero is zero.
proof fn lemma_product_zero(x: Double, y: Double)
    requires
        x.zero(),
        y.finite(),
    ensures
        product(x, y).zero(),
        product(x, y).finite(),
        product(x, y).signed() == (x.signed() != y.signed()),
{
    lemma_magnitude_range(x);
    lemma_pow2_pos(1074);
    assert(0 * y.magnitude() == 0);
    lemma_nearest_zero(x.signed() != y.signed(), pow2(1074) as int);
}

/// Zero over a number that is not zero is zero.
proof fn lemma_quotient_zero(x: Double, y: Double, lo: nat, hi: nat)
    requires
        x.zero(),
        bounded(y, lo, hi),
    ensures
        quotient(x, y).zero(),
        quotient(x, y).finite(),
{
    lemma_not_zero(y, lo, hi);
    lemma_magnitude_range(x);
    assert(0 * pow2(1074) == 0);
    lemma_nearest_zero(x.signed() != y.signed(), y.magnitude());
}

/// The square of a coarse number.
proof fn lemma_square(x: Double, n: nat)
    requires
        coarse(x, n),
        n <= 13,
    ensures
        upward(product(x, x), 1078),
        x.zero() ==> product(x, x).zero(),
        !x.zero() ==> product(x, x).magnitude() >= pow2(944),
{
    lemma_coarse_bounded(x, n);
    lemma_pow2_pos(1078);
    if x.zero() {
        lemma_product_zero(x, x);
        lemma_magnitude_range(product(x, x));
    } else {
        lemma_pow2_strictly_increases(1009, 1076);
        lemma_product_bounded(x, x, 1009, 1076, 1009, 1076);
    }
}

/// The length of a coarse vertex: nothing, or bounded.
proof fn lemma_length(v: Vec3, n: nat)
    requires
        coarse_vertex(v, n),
        n <= 13,
    ensures
        v.x.zero() && v.y.zero() && v.z.zero() ==> vector_length(v).zero(),
        !(v.x.zero() && v.y.zero() && v.z.zero()) ==> bounded(vector_length(v), 1009, 1077) && !vector_length(v).signed(),
{
    lemma_square(v.x, n);
    lemma_square(v.y, n);
    lemma_square(v.z, n);
    let (a, b, c) = (product(v.x, v.x), product(v.y, v.y), product(v.z, v.z));
    lemma_sum_upward(a, b, 944, 1078);
    let s = sum(a, b);
    lemma_pow2_strictly_increases(1078, 1079);
    lemma_sum_upward(s, c, 944, 1079);
    let d = dot_product(v, v);
    assert(d == sum(s, c));
    if !(v.x.zero() && v.y.zero() && v.z.zero()) {
        lemma_root_bounded(d, 944, 1080, 1009, 1077);
    }
}

/// A finite number that is zero or within the range of coordinates.
spec fn sound_number(x: Double) -> bool {
    x.finite() && orient3d_coords().admits(x)
}

/// A number between moderate powers of two is within the range of coordinates.
proof fn lemma_sound_number(x: Double)
    requires
        bounded(x, 806, 1341),
    ensures
        sound_number(x),
{
    let least = orient3d_coords().min;
    let most = orient3d_coords().max;
    lemma_pow2_53();
    lemma_pow2_adds(53, 723);
    lemma_pow2_adds(52, 1354);
    lemma_pow2_strictly_increases(776, 806);
    lemma_pow2_strictly_increases(1341, 1406);
    lemma_pow2_pos(723);
    lemma_pow2_pos(1354);
    let f = least.abs_bits() % (HIDDEN as int);
    assert(least.abs_bits() / (HIDDEN as int) == 724);
    assert(least.magnitude() == (HIDDEN + f) * pow2(723));
    assert((HIDDEN + f) * pow2(723) < pow2(776)) by (nonlinear_arith)
        requires
            f < HIDDEN,
            pow2(776) == 2 * HIDDEN * pow2(723),
            pow2(723) > 0,
    ;
    let g = most.abs_bits() % (HIDDEN as int);
    assert(most.abs_bits() / (HIDDEN as int) == 1355);
    assert(most.magnitude() == (HIDDEN + g) * pow2(1354));
    assert((HIDDEN + g) * pow2(1354) >= pow2(1406)) by (nonlinear_arith)
        requires
            g >= 0,
            pow2(1406) == HIDDEN * pow2(1354),
            pow2(1354) > 0,
    ;
    let m = x.abs_bits();
    if m < least.abs_bits() {
        lemma_magnitude_increases(m, least.abs_bits());
    }
    if most.abs_bits() < m {
        lemma_magnitude_increases(most.abs_bits(), m);
    }
}

/// A coordinate of a vertex, at the radius.
proof fn lemma_projected_coordinate(x: Double, n: nat, length: Double, radius: Double)
    requires
        coarse(x, n),
        n <= 13,
        bounded(length, 1009, 1077),
        moderate(radius),
    ensures
        sound_number(product(quotient(x, length), radius)),
{
    lemma_coarse_bounded(x, n);
    if x.zero() {
        lemma_quotient_zero(x, length, 1009, 1077);
        lemma_product_zero(quotient(x, length), radius);
    } else {
        lemma_quotient_bounded(x, length, 1009, 1076, 1009, 1077);
        lemma_product_bounded(quotient(x, length), radius, 1006, 1141, 874, 1274);
        lemma_sound_number(product(quotient(x, length), radius));
    }
}

/// A vertex of a sphere of a moderate radius is sound.
pub proof fn lemma_projected_is_sound(v: Vec3, n: nat, radius: Double)
    requires
        coarse_vertex(v, n),
        n <= 13,
        moderate(radius),
    ensures
        sound_vertex(projected(v, radius)),
{
    let length = vector_length(v);
    lemma_length(v, n);
    if v.x.zero() && v.y.zero() && v.z.zero() {
        assert(normalized_vector(v) is None);
    } else {
        lemma_not_zero(length, 1009, 1077);
        lemma_projected_coordinate(v.x, n, length, radius);
        lemma_projected_coordinate(v.y, n, length, radius);
        lemma_projected_coordinate(v.z, n, length, radius);
        assert(normalized_vector(v) is Some);
        assert(projected(v, radius) == vector_product(normalized_vector(v)->Some_0, radius));
    }
}

/// Five is a moderate radius.
pub proof fn lemma_five_is_moderate()
    ensures
        moderate(Double { bits: 0x4014_0000_0000_0000 }),
{
    lemma_constants();
}

} // verus!
