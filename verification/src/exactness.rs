//! Where arithmetic rounds nothing: on numbers of few bits the results are the
//! mathematical ones.

use crate::arithmetic::{difference, of_int, product, quotient, sum};
use crate::double::{Double, HIDDEN};
use crate::error_bounds::{lemma_magnitude_not_negative, lemma_size_of_product, size};
use crate::order::lemma_round_bits_cancels;
use crate::precision::{law_integers_are_exact, lemma_short_is_exact};
use crate::rounding::nearest;
use crate::square_root::{lemma_floor_root_is, root};
use vstd::arithmetic::mul::*;
use vstd::arithmetic::power2::{lemma_pow2_adds, lemma_pow2_pos, pow2};
use vstd::prelude::*;

verus! {

/// The number is `k` times a power of two: `k` units of two to the power of `e` of
/// the smallest positive number.
pub open spec fn stands(x: Double, k: int, e: nat) -> bool {
    x.finite() && x.value() == k * pow2(e)
}

/// The number is an integer.
pub open spec fn is_whole(x: Double, k: int) -> bool {
    stands(x, k, 1074)
}

/// An integer is short enough for a double to hold it.
pub open spec fn short(k: int) -> bool {
    -(2 * HIDDEN) < k < 2 * HIDDEN
}

proof fn lemma_nearest_is_exact(negative: bool, k: int, e: nat, d: int)
    requires
        0 <= k < 2 * HIDDEN,
        e <= 2045,
        d > 0,
    ensures
        ({
            let x = nearest(negative, (k * pow2(e)) * d, d);
            &&& x.finite()
            &&& x.magnitude() == k * pow2(e)
            &&& x.signed() == negative
        }),
{
    let n = k * pow2(e);
    lemma_pow2_pos(e);
    lemma_mul_nonnegative(k, pow2(e) as int);
    lemma_round_bits_cancels(n, d);
    lemma_short_is_exact(k, e);
    crate::order::lemma_round_bits_increases(n, n, 1);
}

proof fn lemma_sizes(x: Double, k: int, e: nat)
    requires
        stands(x, k, e),
    ensures
        x.magnitude() == size(k) * pow2(e),
        k != 0 ==> x.signed() == (k < 0),
        k == 0 <==> x.zero(),
        k == 0 <==> x.value() == 0,
{
    lemma_magnitude_not_negative(x);
    lemma_pow2_pos(e);
    lemma_size_of_product(k, pow2(e) as int);
    let p = pow2(e) as int;
    assert((k < 0 ==> k * p < 0) && (k > 0 ==> k * p > 0) && (k == 0 ==> k * p == 0)) by (nonlinear_arith)
        requires
            p > 0,
    ;
}

/// A sum that is short is exact, and so is a difference.
pub proof fn law_short_sums_are_exact(a: Double, b: Double, i: int, j: int, e: nat)
    requires
        stands(a, i, e),
        stands(b, j, e),
        e <= 2045,
    ensures
        short(i + j) ==> stands(sum(a, b), i + j, e),
        short(i - j) ==> stands(difference(a, b), i - j, e),
        stands(b.negated(), -j, e),
{
    assert(b.negated().abs_bits() == b.abs_bits());
    assert(b.negated().value() == -b.value());
    lemma_mul_unary_negation(j, pow2(e) as int);
    if short(i + j) {
        lemma_short_sum(a, b, i, j, e);
    }
    if short(i - j) {
        lemma_short_sum(a, b.negated(), i, -j, e);
    }
}

proof fn lemma_short_sum(a: Double, b: Double, i: int, j: int, e: nat)
    requires
        stands(a, i, e),
        stands(b, j, e),
        e <= 2045,
        short(i + j),
    ensures
        stands(sum(a, b), i + j, e),
{
    let p = pow2(e) as int;
    lemma_pow2_pos(e);
    lemma_mul_is_distributive_add_other_way(p, i, j);
    let k = i + j;
    assert(a.value() + b.value() == k * p);
    lemma_size_of_product(k, p);
    assert((k < 0 ==> k * p < 0) && (k > 0 ==> k * p > 0) && (k == 0 ==> k * p == 0)) by (nonlinear_arith)
        requires
            p > 0,
    ;
    lemma_nearest_is_exact(k < 0, size(k), e, 1);
    assert((size(k) * p) * 1 == size(k) * p);
    if k != 0 {
        assert(sum(a, b) == nearest(k < 0, size(k) * p, 1));
    } else {
        assert(sum(a, b).abs_bits() == 0);
        lemma_magnitude_not_negative(sum(a, b));
    }
}

/// A product that is short is exact.
pub proof fn law_short_products_are_exact(a: Double, b: Double, i: int, j: int, e: nat, f: nat)
    requires
        stands(a, i, e),
        stands(b, j, f),
        1074 <= e + f <= 3119,
        short(i * j),
    ensures
        stands(product(a, b), i * j, (e + f - 1074) as nat),
{
    let g = (e + f - 1074) as nat;
    let (p, q, r, w) = (pow2(e) as int, pow2(f) as int, pow2(g) as int, pow2(1074) as int);
    lemma_sizes(a, i, e);
    lemma_sizes(b, j, f);
    lemma_pow2_adds(e, f);
    lemma_pow2_adds(g, 1074);
    lemma_pow2_pos(1074);
    lemma_pow2_pos(g);
    let k = i * j;
    lemma_size_of_product(i, j);
    lemma_size_of_product(k, r);
    let (si, sj) = (size(i), size(j));
    assert((si * p) * (sj * q) == (si * sj) * (p * q)) by (nonlinear_arith);
    lemma_mul_is_associative(si * sj, r, w);
    lemma_nearest_is_exact(a.signed() != b.signed(), size(k), g, w);
    assert(product(a, b).magnitude() == size(k) * r);
    assert((k < 0) == (i != 0 && j != 0 && (i < 0) != (j < 0)) && (k == 0) == (i == 0 || j == 0)) by (nonlinear_arith)
        requires
            k == i * j,
    ;
    assert((-k) * r == -(k * r) && 0 * r == 0) by (nonlinear_arith);
}

/// A quotient that is short is exact.
pub proof fn law_short_quotients_are_exact(a: Double, b: Double, q: int, j: int, e: nat, f: nat)
    requires
        stands(a, q * j, e),
        stands(b, j, f),
        j != 0,
        f <= e + 1074,
        e + 1074 - f <= 2045,
        short(q),
    ensures
        stands(quotient(a, b), q, (e + 1074 - f) as nat),
{
    let g = (e + 1074 - f) as nat;
    let (p, t, r, w) = (pow2(e) as int, pow2(f) as int, pow2(g) as int, pow2(1074) as int);
    lemma_sizes(a, q * j, e);
    lemma_sizes(b, j, f);
    lemma_pow2_adds(e, 1074);
    lemma_pow2_adds(g, f);
    lemma_pow2_pos(f);
    lemma_pow2_pos(g);
    lemma_size_of_product(q, j);
    lemma_size_of_product(q, r);
    let (sq, sj) = (size(q), size(j));
    let d = sj * t;
    assert(d > 0) by (nonlinear_arith)
        requires
            d == sj * t,
            sj > 0,
            t > 0,
    ;
    assert(((sq * sj) * p) * w == (sq * sj) * (p * w)) by (nonlinear_arith);
    assert((sq * sj) * (r * t) == (sq * r) * (sj * t)) by (nonlinear_arith);
    lemma_nearest_is_exact(a.signed() != b.signed(), sq, g, d);
    assert(quotient(a, b).magnitude() == sq * r);
    assert((q * j < 0) == (q != 0 && (q < 0) != (j < 0)) && (q * j == 0) == (q == 0)) by (nonlinear_arith)
        requires
            j != 0,
    ;
    assert((-q) * r == -(q * r) && 0 * r == 0) by (nonlinear_arith);
}

/// The root of a square is exact.
pub proof fn law_roots_of_squares_are_exact(a: Double, k: int, g: nat)
    requires
        537 <= g <= 2045,
        0 <= k < 2 * HIDDEN,
        stands(a, k * k, (2 * g - 1074) as nat),
    ensures
        stands(root(a), k, g),
{
    let e = (2 * g - 1074) as nat;
    let (p, s, w) = (pow2(e) as int, pow2(g) as int, pow2(1074) as int);
    lemma_sizes(a, k * k, e);
    lemma_pow2_adds(e, 1074);
    lemma_pow2_adds(g, g);
    lemma_pow2_pos(g);
    assert((k * k == 0) == (k == 0) && k * k >= 0) by (nonlinear_arith);
    if k == 0 {
        assert(root(a) == a);
    } else {
        let r = 2 * (k * s);
        let n = 4 * (((k * k) * p) * w);
        assert(((k * k) * p) * w == (k * k) * (p * w)) by (nonlinear_arith);
        assert((k * k) * (s * s) == (k * s) * (k * s)) by (nonlinear_arith);
        let ks = k * s;
        assert(ks > 0) by (nonlinear_arith)
            requires
                ks == k * s,
                k > 0,
                s > 0,
        ;
        assert((2 * ks) * (2 * ks) == 4 * (ks * ks)) by (nonlinear_arith);
        assert(r * r == n);
        assert(n < (r + 1) * (r + 1)) by (nonlinear_arith)
            requires
                n == r * r,
                r > 0,
        ;
        lemma_floor_root_is(n, r);
        assert(4 * (a.magnitude() * pow2(1074)) == n);
        lemma_nearest_is_exact(false, k, g, 4);
    }
}

/// An integer of few bits, as a number, is that integer.
pub proof fn law_integers_stand(k: int)
    requires
        short(k),
    ensures
        is_whole(of_int(k), k),
{
    law_integers_are_exact(k);
}

/// Of two numbers in the same units, the one of more units is the greater.
pub proof fn law_units_are_ordered(a: Double, b: Double, i: int, j: int, e: nat)
    requires
        stands(a, i, e),
        stands(b, j, e),
    ensures
        a.lt(b) <==> i < j,
        a.le(b) <==> i <= j,
        a.same(b) <==> i == j,
{
    let p = pow2(e) as int;
    lemma_pow2_pos(e);
    crate::order::law_order_is_value_order(a, b);
    assert((i < j ==> i * p < j * p) && (i == j ==> i * p == j * p) && (i > j ==> i * p > j * p)) by (nonlinear_arith)
        requires
            p > 0,
    ;
}

} // verus!
