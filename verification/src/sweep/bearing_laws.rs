//! Which bearings an arc sweeps over, told by angles and whole turns.

use crate::arithmetic::{difference, rounded, sum};
use crate::double::{Double, HIDDEN};
use crate::error_bounds::{law_difference_error, law_sum_error, lemma_magnitude_not_negative, parts, size};
use crate::order::{law_order_is_value_order, law_rounding_fixes_doubles, law_rounding_keeps_order};
use crate::precision::lemma_rounds_below_infinity;
use crate::remainder::{law_remainder_is_exact, positive_remainder, remainder};
use crate::sweep::arc::{ArcMove, DEGENERATE, TURN};
use crate::sweep::arc_laws::lemma_degenerate;
use vstd::arithmetic::div_mod::{lemma_fundamental_div_mod, lemma_fundamental_div_mod_converse, lemma_mod_bound};
use vstd::arithmetic::mul::*;
use vstd::arithmetic::power2::{lemma_pow2_adds, lemma_pow2_pos, lemma_pow2_strictly_increases, pow2};
use vstd::prelude::*;

verus! {

/// A whole turn, in radians.
pub open spec fn turn() -> int {
    (Double { bits: 0x4019_21fb_5444_2d18 }).value()
}

/// How far past the end of a sweep a bearing may lie and still count, in radians.
pub open spec fn slack() -> int {
    (Double { bits: 0x3d71_9799_812d_ea11 }).value()
}

/// How far on from the start of an arc an angle is, in the sense of the sweep.
pub open spec fn onward(arc: ArcMove, angle: Double) -> int {
    if arc.sweep.value() >= 0 {
        angle.value() - arc.start_angle.value()
    } else {
        arc.start_angle.value() - angle.value()
    }
}

proof fn lemma_turn()
    ensures
        (Double { bits: TURN }).finite() && !(Double { bits: TURN }).signed() && !(Double { bits: TURN }).zero(),
        0 < turn() < pow2(1077),
        (Double { bits: TURN }).magnitude() == turn(),
        0 < slack() < turn(),
        slack() * parts() > 70 * turn(),
        (Double { bits: DEGENERATE }).value() == slack(),
        (Double { bits: DEGENERATE }).finite(),
{
    let t = Double { bits: TURN };
    let h = HIDDEN as int;
    crate::rounding::lemma_pow2_53();
    lemma_pow2_pos(1024);
    assert(t.abs_bits() == 0x4019_21fb_5444_2d18);
    assert(0x4019_21fb_5444_2d18int / h == 1025);
    let f = 0x4019_21fb_5444_2d18int % h;
    assert(t.magnitude() == (h + f) * pow2(1024));
    assert(0 < (h + f) * pow2(1024) < (2 * h) * pow2(1024)) by (nonlinear_arith)
        requires
            0 <= f < h,
            pow2(1024) > 0,
    ;
    lemma_pow2_adds(53, 1024);
    lemma_degenerate();
    lemma_pow2_pos(1034);
    law_order_is_value_order(Double { bits: DEGENERATE }, t);
    assert((Double { bits: DEGENERATE }).lt(t));
    lemma_pow2_adds(1034, 53);
    lemma_pow2_adds(7, 1077);
    lemma_pow2_strictly_increases(1084, 1087);
    vstd::arithmetic::power2::lemma2_to64();
    let g = slack();
    assert(g * parts() >= pow2(1034) * pow2(53)) by (nonlinear_arith)
        requires
            g >= pow2(1034),
            parts() == pow2(53),
    ;
}

/// The remainder that is not negative is the rounded remainder.
proof fn lemma_remainder(d: Double)
    requires
        d.finite(),
    ensures
        ({
            let r = positive_remainder(d, Double { bits: TURN });
            let e = d.value() % turn();
            &&& 0 <= e < turn()
            &&& r.finite()
            &&& r.key() == rounded(e).key()
            &&& size(r.value() - e) * parts() <= e
        }),
{
    let t = Double { bits: TURN };
    let w = turn();
    lemma_turn();
    lemma_magnitude_not_negative(d);
    law_remainder_is_exact(d, t);
    let r = remainder(d, t);
    lemma_magnitude_not_negative(r);
    let m = d.magnitude() % w;
    lemma_mod_bound(d.magnitude(), w);
    lemma_mod_bound(d.value(), w);
    let q = d.magnitude() / w;
    lemma_fundamental_div_mod(d.magnitude(), w);
    let zero = Double { bits: 0 };
    lemma_magnitude_not_negative(zero);
    law_order_is_value_order(r, zero);
    let e = d.value() % w;
    if d.value() >= 0 {
        if d.value() == 0 {
            assert(0int % w == 0) by {
                vstd::arithmetic::div_mod::lemma_small_mod(0, w as nat);
            }
        }
        assert(e == m);
        assert(r.value() == m);
        law_rounding_fixes_doubles(r);
        assert(0 * parts() == 0);
    } else if m == 0 {
        assert(d.value() == (-q) * w + 0) by (nonlinear_arith)
            requires
                d.value() == -(w * q),
        ;
        lemma_fundamental_div_mod_converse(d.value(), w, -q, 0);
        law_rounding_fixes_doubles(r);
        assert(0 * parts() == 0);
    } else {
        assert(d.value() == (-q - 1) * w + (w - m)) by (nonlinear_arith)
            requires
                d.value() == -(w * q + m),
        ;
        lemma_fundamental_div_mod_converse(d.value(), w, -q - 1, w - m);
        assert(t.absolute() == t) by {
            assert(t.absolute().abs_bits() == t.abs_bits());
        }
        assert(r.value() == -m);
        assert(e == w - m);
        lemma_pow2_strictly_increases(1077, 1200);
        assert(e / 1 == e);
        lemma_rounds_below_infinity(e, 1);
        crate::order::lemma_round_bits_increases(e, e, 1);
        assert(sum(r, t) == rounded(e));
        law_sum_error(r, t);
    }
}

/// A bearing that is on from the start, by no more than the sweep and a number of
/// whole turns, is swept over; one that lies past the end and before the next start
/// is not. Next to the start and to the end rounding decides.
pub proof fn law_bearings_in_the_sweep_are_swept_over(arc: ArcMove, angle: Double, turns: int)
    requires
        arc.start_angle.finite() && arc.sweep.finite() && angle.finite(),
        size(arc.sweep.value()) < turn(),
        size(onward(arc, angle)) <= 64 * turn(),
    ensures
        ({
            let b = onward(arc, angle) + turns * turn();
            let doubt = size(onward(arc, angle));
            let s = size(arc.sweep.value());
            &&& doubt <= b * parts() && b <= s ==> arc.sweeps_over(angle)
            &&& s + 2 * slack() <= b && b < turn() && doubt < (turn() - b) * parts() ==> !arc.sweeps_over(angle)
        }),
{
    let zero = Double { bits: 0 };
    let t = Double { bits: TURN };
    let (w, k) = (turn(), parts());
    let a = arc.sweep.absolute();
    lemma_turn();
    lemma_magnitude_not_negative(zero);
    lemma_magnitude_not_negative(arc.sweep);
    assert(a.abs_bits() == arc.sweep.abs_bits());
    lemma_magnitude_not_negative(a);
    law_order_is_value_order(zero, arc.sweep);
    law_order_is_value_order(t, a);
    assert(!arc.full());
    let x = onward(arc, angle);
    let d = if arc.sweep.value() >= 0 {
        difference(angle, arc.start_angle)
    } else {
        difference(arc.start_angle, angle)
    };
    lemma_difference_finite(angle, arc.start_angle);
    lemma_difference_finite(arc.start_angle, angle);
    let e = d.value() - x;
    assert(size(e) * k <= size(x)) by {
        if arc.sweep.value() >= 0 {
            law_difference_error(angle, arc.start_angle);
        } else {
            law_difference_error(arc.start_angle, angle);
        }
    }
    lemma_remainder(d);
    let r = positive_remainder(d, t);
    let m = d.value() % w;
    let s = a.value();
    let g = slack();
    let limit = sum(a, Double { bits: DEGENERATE });
    assert(arc.sweeps_over(angle) == r.le(limit));
    lemma_rounds_below(s + g);
    law_rounding_keeps_order(s + g, s + g);
    assert(limit == rounded(s + g));
    law_sum_error(a, Double { bits: DEGENERATE });
    let b = x + turns * w;
    let u = b + e;
    lemma_mul_is_distributive_add(w, -turns, 1);
    assert(d.value() == (-turns) * w + u) by (nonlinear_arith)
        requires
            u == b + e,
            e == d.value() - x,
            b == x + turns * w,
    ;
    assert(size(e) < g) by (nonlinear_arith)
        requires
            size(e) * k <= 64 * w,
            g * k > 70 * w,
            w > 0,
            k > 0,
    ;
    if size(x) <= b * k && b <= s {
        assert(size(e) <= b) by (nonlinear_arith)
            requires
                size(e) * k <= b * k,
                k > 0,
        ;
        if u < w {
            lemma_fundamental_div_mod_converse(d.value(), w, -turns, u);
            assert(m == u);
        } else {
            assert(d.value() == (1 - turns) * w + (u - w)) by (nonlinear_arith)
                requires
                    d.value() == (-turns) * w + u,
            ;
            assert(size(e) < w) by (nonlinear_arith)
                requires
                    size(e) * k <= 64 * w,
                    k > 64,
                    w > 0,
            ;
            lemma_fundamental_div_mod_converse(d.value(), w, 1 - turns, u - w);
            assert(m == u - w);
        }
        assert(m <= s + g);
        law_rounding_keeps_order(m, s + g);
        assert(r.le(limit));
    }
    if s + 2 * g <= b && b < w && size(x) < (w - b) * k {
        assert(size(e) < w - b) by (nonlinear_arith)
            requires
                size(e) * k < (w - b) * k,
                k > 0,
        ;
        lemma_fundamental_div_mod_converse(d.value(), w, -turns, u);
        assert(m == u);
        law_order_is_value_order(r, limit);
        let (rv, lv) = (r.value(), limit.value());
        assert(rv > lv) by (nonlinear_arith)
            requires
                size(rv - m) * k <= m,
                size(lv - (s + g)) * k <= s + g,
                m >= s + 2 * g - size(e),
                size(e) * k <= 64 * w,
                m < w,
                0 <= s < w,
                g < w,
                g * k > 70 * w,
                k > 0,
                size(lv - (s + g)) >= lv - (s + g),
                size(rv - m) >= m - rv,
        ;
    }
}

proof fn lemma_rounds_below(v: int)
    requires
        0 < v < 128 * turn(),
    ensures
        rounded(v).finite(),
{
    lemma_turn();
    lemma_pow2_adds(7, 1077);
    lemma_pow2_strictly_increases(1084, 1200);
    vstd::arithmetic::power2::lemma2_to64();
    assert(v / 1 == v);
    lemma_rounds_below_infinity(v, 1);
    crate::order::lemma_round_bits_increases(v, v, 1);
}

proof fn lemma_difference_finite(a: Double, b: Double)
    requires
        a.finite() && b.finite(),
        size(a.value() - b.value()) <= 64 * turn(),
    ensures
        difference(a, b).finite(),
{
    let v = a.value() - b.value();
    lemma_turn();
    assert(b.negated().abs_bits() == b.abs_bits());
    assert(b.negated().value() == -b.value());
    if v != 0 {
        lemma_rounds_below(size(v));
        crate::order::lemma_round_bits_increases(size(v), size(v), 1);
        assert(rounded(v).abs_bits() == rounded(size(v)).abs_bits());
    }
}

} // verus!
