//! That the middle of a level arc covers of a ray across it what lies between two
//! circles, and that steps keep to a tolerance.

use crate::arithmetic::{difference, product, quotient, sum};
use crate::double::{Double, HIDDEN};
use crate::error_bounds::{
    law_quotient_error, law_signs_multiply, lemma_magnitude_not_negative, parts, size, under, whole,
};
use crate::exactness::{is_whole, law_short_sums_are_exact, law_units_are_ordered};
use crate::math::Ray;
use crate::order::{law_order_is_value_order, lemma_one_magnitude, lemma_round_bits_cancels};
use crate::root_laws::lemma_double;
use crate::span_laws::{law_outcome_is_the_result, law_separated_operations_are_exact, outcome, separated};
use crate::spans::{covers, end_of, has_end, normalized, op_result, scanned, SetOp, Span, EPS_SPAN_MERGE, EPS_SPAN_MIN};
use crate::sweep::arc::{annulus_of, chord_of, one_span, ArcMove};
use crate::sweep::reference::{steps_for, usable, MAX_SUBSTEPS};
use crate::sweep::whole_laws::{law_chord_ends_on_the_circle, lemma_along_line, lemma_middle_of_chord, modest, on_circle};
use vstd::arithmetic::div_mod::lemma_fundamental_div_mod;
use vstd::arithmetic::mul::*;
use vstd::arithmetic::power2::{lemma_pow2_pos, pow2};
use vstd::prelude::*;

verus! {

/// The ends of a span are two integers.
spec fn ends_at(s: Span, i: int, j: int) -> bool {
    is_whole(s.t0, i) && is_whole(s.t1, j)
}

proof fn lemma_whole_gap(x: Double, y: Double, i: int, j: int)
    requires
        is_whole(x, i) && is_whole(y, j),
        i < j,
        j - i <= 0x40_0000,
    ensures
        x.lt(y),
        !difference(y, x).le(Double { bits: EPS_SPAN_MERGE }),
        (Double { bits: EPS_SPAN_MIN }).le(difference(y, x)),
{
    let d = difference(y, x);
    let one = Double { bits: 0x3ff0_0000_0000_0000 };
    law_short_sums_are_exact(y, x, j, i, 1074);
    law_units_are_ordered(x, y, i, j, 1074);
    lemma_one_magnitude();
    lemma_mul_basics(pow2(1074) as int);
    assert(is_whole(one, 1));
    law_units_are_ordered(one, d, 1, j - i, 1074);
    assert((Double { bits: EPS_SPAN_MERGE }).lt(one));
    assert(one.le(d));
}

/// A span without one that lies inside it is what is left on either side.
proof fn lemma_hole(a: Span, h: Span, c: int, ho: int, hi: int, k: int)
    requires
        ends_at(a, c - ho, c + ho),
        ends_at(h, c - hi, c + hi),
        0 < hi < ho,
        modest(c) && modest(ho),
    ensures
        one_span(a) == seq![a],
        one_span(h) == seq![h],
        covers(outcome(SetOp::Difference, seq![a], seq![h]), k) == (a.holds(k) && !h.holds(k)),
{
    lemma_whole_gap(a.t0, a.t1, c - ho, c + ho);
    lemma_whole_gap(h.t0, h.t1, c - hi, c + hi);
    lemma_whole_gap(a.t0, h.t0, c - ho, c - hi);
    lemma_whole_gap(h.t1, a.t1, c + hi, c + ho);
    lemma_whole_gap(a.t0, h.t1, c - ho, c + hi);
    lemma_whole_gap(h.t0, a.t1, c - hi, c + ho);
    let (sa, sh) = (seq![a], seq![h]);
    let raw = seq![
        Span { t0: a.t0, t1: h.t0, n0: a.n0, n1: h.n0.reversed() },
        Span { t0: h.t1, t1: a.t1, n0: h.n1.reversed(), n1: a.n1 },
    ];
    assert forall|x: int| #[trigger] covers(raw, x) == (covers(sa, x) && !covers(sh, x)) by {
        assert(covers(sa, x) == a.holds(x)) by {
            assert(sa[0] == a);
        }
        assert(covers(sh, x) == h.holds(x)) by {
            assert(sh[0] == h);
        }
        if a.holds(x) && !h.holds(x) {
            assert(raw[0].holds(x) || raw[1].holds(x));
        }
    }
    assert(sa[0] == a && sh[0] == h);
    assert(h.n0.reversed().reversed() == h.n0 && h.n1.reversed().reversed() == h.n1) by {
        crate::math::law_normal_reversed_twice(h.n0);
        crate::math::law_normal_reversed_twice(h.n1);
    }
    assert(end_of(sa, a.t0, a.n0) && end_of(sa, a.t1, a.n1));
    assert(end_of(sh, h.t0, h.n0) && end_of(sh, h.t1, h.n1));
    assert(!has_end(sa, h.t0.key()) && !has_end(sa, h.t1.key()));
    assert(scanned(SetOp::Difference, sa, sh, raw));
    assert(op_result(SetOp::Difference, sa, sh, normalized(raw)));
    law_outcome_is_the_result(SetOp::Difference, sa, sh, normalized(raw));
    assert(separated(sa, sh));
    law_separated_operations_are_exact(SetOp::Difference, sa, sh, normalized(raw));
    assert(covers(normalized(raw), k) == crate::spans::combined(SetOp::Difference, covers(sa, k), covers(sh, k)));
    assert(covers(sa, k) == a.holds(k));
    assert(covers(sh, k) == h.holds(k));
}

/// A point of a line is inside a circle between the parameters at which the line
/// meets it.
proof fn lemma_between_ends(ox: int, oy: int, dx: int, dy: int, r: int, c: int, h: int, u: int)
    requires
        h > 0,
        dx * dx + dy * dy > 0,
        on_circle(ox, oy, dx, dy, r, c - h),
        on_circle(ox, oy, dx, dy, r, c + h),
    ensures
        ({
            let f = (ox + u * dx) * (ox + u * dx) + (oy + u * dy) * (oy + u * dy);
            &&& f < r * r <==> c - h < u < c + h
            &&& f > r * r <==> u < c - h || c + h < u
        }),
{
    let s = dx * dx + dy * dy;
    let b = ox * dx + oy * dy;
    lemma_middle_of_chord(ox, oy, dx, dy, r, c, h);
    lemma_along_line(ox, oy, dx, dy, u);
    lemma_along_line(ox, oy, dx, dy, c);
    let f = (ox + u * dx) * (ox + u * dx) + (oy + u * dy) * (oy + u * dy);
    let v = u - c;
    let cs = c * s;
    assert(u * b == -(u * cs) && c * b == -(c * cs)) by (nonlinear_arith)
        requires
            b == -cs,
    ;
    assert(u * (c * s) == (u * c) * s && c * (c * s) == (c * c) * s) by (nonlinear_arith);
    assert((v * v) * s == (u * u) * s - 2 * ((u * c) * s) + (c * c) * s) by (nonlinear_arith)
        requires
            v == u - c,
    ;
    assert(f - r * r == (v * v) * s - (h * h) * s);
    assert((v * v) * s - (h * h) * s == (v * v - h * h) * s) by (nonlinear_arith);
    let e = v * v - h * h;
    assert((e < 0 <==> e * s < 0) && (e > 0 <==> e * s > 0)) by (nonlinear_arith)
        requires
            s > 0,
    ;
    assert(e == (v - h) * (v + h)) by (nonlinear_arith)
        requires
            e == v * v - h * h,
    ;
    assert(((v - h) * (v + h) < 0 <==> -h < v < h) && ((v - h) * (v + h) > 0 <==> v < -h || v > h)) by (nonlinear_arith)
        requires
            h > 0,
    ;
}

/// The ring that a tool sweeps about the centre of an arc covers a ray across it where
/// the ray is nearer the path of the axis than the radius of the tool, between the
/// inner circle and the outer one, and nowhere else: exactly, where the coordinates and
/// the parameters at which the ray meets the circles are integers.
pub proof fn law_ring_lies_between_the_circles(
    arc: ArcMove,
    ray: Ray,
    rho: Double,
    k: (int, int),
    o: (int, int),
    d: (int, int),
    r: int,
    m: int,
    s: int,
    c: int,
    outer: int,
    inner: int,
    t: Double,
    u: int,
)
    requires
        is_whole(arc.center.x, k.0) && is_whole(arc.center.y, k.1) && is_whole(arc.radius, r) && is_whole(rho, m),
        is_whole(ray.origin.x, o.0) && is_whole(ray.origin.y, o.1),
        is_whole(ray.direction.x, d.0) && is_whole(ray.direction.y, d.1),
        modest(k.0) && modest(k.1) && modest(o.0) && modest(o.1) && modest(d.0) && modest(d.1),
        0 < m < r && modest(r + m) && modest(c) && 0 < s && modest(s),
        0 < outer && modest(outer) && 0 < inner && modest(inner),
        s * s == d.0 * d.0 + d.1 * d.1,
        on_circle(o.0 - k.0, o.1 - k.1, d.0, d.1, r + m, c - outer),
        on_circle(o.0 - k.0, o.1 - k.1, d.0, d.1, r + m, c + outer),
        on_circle(o.0 - k.0, o.1 - k.1, d.0, d.1, r - m, c - inner),
        on_circle(o.0 - k.0, o.1 - k.1, d.0, d.1, r - m, c + inner),
        is_whole(t, u),
    ensures
        ({
            let (x, y) = ((o.0 - k.0) + u * d.0, (o.1 - k.1) + u * d.1);
            let f = x * x + y * y;
            &&& (r - m) * (r - m) < f < (r + m) * (r + m) ==> covers(annulus_of(arc, ray, rho), t.key())
            &&& f < (r - m) * (r - m) || f > (r + m) * (r + m) ==> !covers(annulus_of(arc, ray, rho), t.key())
        }),
{
    let (kx, ky) = (o.0 - k.0, o.1 - k.1);
    let center = (arc.center.x, arc.center.y);
    lemma_mul_strictly_positive(s, s);
    law_short_sums_are_exact(arc.radius, rho, r, m, 1074);
    let (big, small) = (sum(arc.radius, rho), difference(arc.radius, rho));
    law_chord_ends_on_the_circle(center, ray, big, k, o, d, r + m, s, c, outer);
    law_chord_ends_on_the_circle(center, ray, small, k, o, d, r - m, s, c, inner);
    let a = chord_of(arc.center.x, arc.center.y, ray, big)->Some_0;
    let h = chord_of(arc.center.x, arc.center.y, ray, small)->Some_0;
    lemma_between_ends(kx, ky, d.0, d.1, r + m, c, outer, u);
    lemma_between_ends(kx, ky, d.0, d.1, r - m, c, inner, u);
    lemma_between_ends(kx, ky, d.0, d.1, r + m, c, outer, c + inner);
    assert((r - m) * (r - m) < (r + m) * (r + m)) by (nonlinear_arith)
        requires
            0 < m < r,
    ;
    assert(inner < outer);
    let zero = Double { bits: 0 };
    lemma_magnitude_not_negative(zero);
    assert(0 * pow2(1074) == 0);
    assert(is_whole(zero, 0));
    law_units_are_ordered(zero, small, 0, r - m, 1074);
    lemma_hole(a, h, c, outer, inner, t.key());
    law_units_are_ordered(a.t0, t, c - outer, u, 1074);
    law_units_are_ordered(t, a.t1, u, c + outer, 1074);
    law_units_are_ordered(h.t0, t, c - inner, u, 1074);
    law_units_are_ordered(t, h.t1, u, c + inner, 1074);
}

/// Steps keep to a tolerance, and no fewer would: half a step is at most the
/// tolerance, and with one step less it would not be, up to rounding.
pub proof fn law_steps_keep_to_the_tolerance(distance: Double, tolerance: Double)
    requires
        distance.finite() && !distance.signed(),
        usable(tolerance) && under(tolerance, 2043),
        steps_for(distance, tolerance) < MAX_SUBSTEPS,
    ensures
        ({
            let n = steps_for(distance, tolerance);
            let (d, t, w) = (distance.value(), 2 * tolerance.value(), whole());
            let loss = d * w + HIDDEN * t;
            &&& n >= 1
            &&& (d * w - (n * w) * t) * parts() <= loss
            &&& n > 1 ==> (((n - 1) * w) * t - d * w) * parts() <= loss
        }),
{
    let two = Double { bits: 0x4000_0000_0000_0000 };
    let w = whole();
    let zero = Double { bits: 0 };
    lemma_pow2_pos(1074);
    lemma_magnitude_not_negative(tolerance);
    lemma_magnitude_not_negative(distance);
    law_order_is_value_order(zero, tolerance);
    lemma_magnitude_not_negative(zero);
    lemma_double(tolerance);
    let p = product(two, tolerance);
    assert(two.magnitude() == 2 * w) by {
        lemma_one_magnitude();
        let one = Double { bits: 0x3ff0_0000_0000_0000 };
        crate::rounding::lemma_pow2_53();
        vstd::arithmetic::power2::lemma_pow2_adds(52, 1022);
        vstd::arithmetic::power2::lemma_pow2_adds(52, 1023);
        vstd::arithmetic::power2::lemma_pow2_adds(1, 1074);
        vstd::arithmetic::power2::lemma2_to64();
    }
    let v = tolerance.magnitude();
    lemma_mul_is_associative(2, w, v);
    lemma_mul_is_commutative(w, v);
    lemma_mul_is_associative(2, v, w);
    assert((2 * w) * v == (2 * v) * w);
    lemma_round_bits_cancels(2 * v, w);
    assert(p.value() == 2 * v);
    let q = quotient(distance, p);
    law_signs_multiply(two, tolerance);
    law_signs_multiply(distance, p);
    assert(q.finite());
    law_quotient_error(distance, p);
    lemma_magnitude_not_negative(q);
    let g = q.magnitude();
    let x = g + w - 1;
    lemma_fundamental_div_mod(x, w);
    let c = x / w;
    vstd::arithmetic::div_mod::lemma_mod_bound(x, w);
    assert(w * c >= g && w * c <= g + w - 1);
    let n = steps_for(distance, tolerance);
    assert(n >= c && (n > 1 ==> n == c) && n >= 1);
    let t = 2 * v;
    lemma_mul_is_commutative(w, c);
    assert(n * w >= g) by (nonlinear_arith)
        requires
            n >= c,
            c * w >= g,
            w > 0,
    ;
    lemma_mul_inequality(g, n * w, t);
    let dw = distance.value() * w;
    let k = parts();
    assert(size(g * t - dw) * k <= dw + HIDDEN * t);
    assert((dw - (n * w) * t) * k <= size(g * t - dw) * k) by (nonlinear_arith)
        requires
            dw - (n * w) * t <= size(g * t - dw),
            k > 0,
    ;
    if n > 1 {
        assert((n - 1) * w == n * w - w) by (nonlinear_arith);
        lemma_mul_inequality((n - 1) * w, g, t);
        assert((((n - 1) * w) * t - dw) * k <= size(g * t - dw) * k) by (nonlinear_arith)
            requires
                ((n - 1) * w) * t - dw <= size(g * t - dw),
                k > 0,
        ;
    }
}

} // verus!
