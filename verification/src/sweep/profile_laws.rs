//! That the radius over a window of heights is no less than that of the profile
//! anywhere in the window.

use crate::arithmetic::{difference, product, quotient, sum};
use crate::double::Double;
use crate::error_bounds::{lemma_magnitude_not_negative, whole};
use crate::exactness::{
    is_whole, law_short_products_are_exact, law_short_quotients_are_exact, law_short_sums_are_exact, law_units_are_ordered, stands,
};
use crate::math::Vec2;
use crate::order::{law_order_is_value_order, lemma_one_magnitude};
use crate::sweep::arc::DEGENERATE;
use crate::sweep::plunge::{considered, crossed, radius_over, with_segment, ProfileSegment};
use crate::sweep::whole_laws::modest;
use vstd::arithmetic::mul::*;
use vstd::arithmetic::power2::{lemma2_to64, lemma_pow2_adds, lemma_pow2_pos, pow2};
use vstd::prelude::*;

verus! {

/// A height lies in a window.
pub open spec fn in_window(y: Double, lo: Double, hi: Double) -> bool {
    lo.le(y) && y.le(hi)
}

proof fn lemma_considered(best: Double, p: Vec2, lo: Double, hi: Double)
    requires
        !best.nan(),
    ensures
        !considered(best, p, lo, hi).nan(),
        best.le(considered(best, p, lo, hi)),
        !p.x.nan() && in_window(p.y, lo, hi) ==> p.x.le(considered(best, p, lo, hi)),
{
}

proof fn lemma_crossed(best: Double, s: ProfileSegment, edge: Double, lo: Double, hi: Double)
    requires
        !best.nan(),
    ensures
        !crossed(best, s, edge, lo, hi).nan(),
        best.le(crossed(best, s, edge, lo, hi)),
{
    let f = quotient(difference(edge, s.start.y), difference(s.end.y, s.start.y));
    lemma_considered(
        best,
        Vec2 { x: sum(s.start.x, product(difference(s.end.x, s.start.x), f)), y: edge },
        lo,
        hi,
    );
}

proof fn lemma_with_segment(best: Double, s: ProfileSegment, lo: Double, hi: Double)
    requires
        !best.nan(),
    ensures
        ({
            let r = with_segment(best, s, lo, hi);
            &&& !r.nan()
            &&& best.le(r)
            &&& !s.start.x.nan() && in_window(s.start.y, lo, hi) ==> s.start.x.le(r)
            &&& !s.end.x.nan() && in_window(s.end.y, lo, hi) ==> s.end.x.le(r)
        }),
{
    let one = considered(best, s.start, lo, hi);
    let two = considered(one, s.end, lo, hi);
    let three = crossed(two, s, lo, lo, hi);
    lemma_considered(best, s.start, lo, hi);
    lemma_considered(one, s.end, lo, hi);
    lemma_crossed(two, s, lo, lo, hi);
    lemma_crossed(three, s, hi, lo, hi);
}

proof fn lemma_radius_grows(segments: Seq<ProfileSegment>, lo: Double, hi: Double, m: nat, n: nat)
    requires
        m <= n <= segments.len(),
    ensures
        !radius_over(segments, lo, hi, m).nan(),
        !radius_over(segments, lo, hi, n).nan(),
        radius_over(segments, lo, hi, m).le(radius_over(segments, lo, hi, n)),
    decreases n,
{
    if m < n {
        lemma_radius_grows(segments, lo, hi, m, (n - 1) as nat);
        lemma_with_segment(radius_over(segments, lo, hi, (n - 1) as nat), segments[n - 1], lo, hi);
    } else if n > 0 {
        lemma_radius_grows(segments, lo, hi, (n - 1) as nat, (n - 1) as nat);
        lemma_with_segment(radius_over(segments, lo, hi, (n - 1) as nat), segments[n - 1], lo, hi);
    }
}

/// The radius over a window is not negative, and no less than the radius of any end of
/// a segment whose height is in the window.
pub proof fn law_radius_reaches_the_ends(segments: Seq<ProfileSegment>, lo: Double, hi: Double, i: int)
    requires
        0 <= i < segments.len(),
    ensures
        ({
            let r = radius_over(segments, lo, hi, segments.len());
            let s = segments[i];
            &&& (Double { bits: 0 }).le(r)
            &&& !s.start.x.nan() && in_window(s.start.y, lo, hi) ==> s.start.x.le(r)
            &&& !s.end.x.nan() && in_window(s.end.y, lo, hi) ==> s.end.x.le(r)
        }),
{
    lemma_radius_grows(segments, lo, hi, 0, segments.len());
    lemma_radius_grows(segments, lo, hi, (i + 1) as nat, segments.len());
    lemma_radius_grows(segments, lo, hi, 0, i as nat);
    lemma_with_segment(radius_over(segments, lo, hi, i as nat), segments[i], lo, hi);
}

/// A segment between two points of integer radius and height.
pub open spec fn joins(s: ProfileSegment, x0: int, y0: int, x1: int, y1: int) -> bool {
    &&& is_whole(s.start.x, x0) && is_whole(s.start.y, y0)
    &&& is_whole(s.end.x, x1) && is_whole(s.end.y, y1)
    &&& modest(x0) && modest(y0) && modest(x1) && modest(y1)
}

proof fn lemma_finer(x: Double, k: int)
    requires
        is_whole(x, k),
    ensures
        stands(x, k * 1024, 1064),
{
    lemma_pow2_adds(10, 1064);
    assert(pow2(10) == 1024) by {
        lemma2_to64();
    }
    lemma_mul_is_associative(k, 1024, pow2(1064) as int);
}

proof fn lemma_crossing_at(
    best: Double,
    s: ProfileSegment,
    edge: Double,
    lo: Double,
    hi: Double,
    x0: int,
    y0: int,
    x1: int,
    y1: int,
    y: int,
    q: int,
    x: Double,
)
    requires
        !best.nan(),
        joins(s, x0, y0, x1, y1),
        is_whole(edge, y) && modest(y),
        y1 != y0,
        0 <= q <= 1024,
        (y - y0) * 1024 == q * (y1 - y0),
        stands(x, x0 * 1024 + (x1 - x0) * q, 1064),
        in_window(edge, lo, hi),
    ensures
        x.le(crossed(best, s, edge, lo, hi)),
{
    let rise = difference(s.end.y, s.start.y);
    let way = difference(edge, s.start.y);
    let f = quotient(way, rise);
    law_short_sums_are_exact(s.end.y, s.start.y, y1, y0, 1074);
    law_short_sums_are_exact(edge, s.start.y, y, y0, 1074);
    lemma_finer(way, y - y0);
    law_short_quotients_are_exact(way, rise, q, y1 - y0, 1064, 1074);
    let zero = Double { bits: 0 };
    let one = Double { bits: 0x3ff0_0000_0000_0000 };
    lemma_magnitude_not_negative(zero);
    assert(0 * pow2(1064) == 0);
    assert(stands(zero, 0, 1064));
    lemma_one_magnitude();
    lemma_mul_basics(pow2(1074) as int);
    assert(is_whole(one, 1));
    lemma_finer(one, 1);
    law_units_are_ordered(zero, f, 0, q, 1064);
    law_units_are_ordered(f, one, q, 1024, 1064);
    let least = Double { bits: DEGENERATE };
    law_order_is_value_order(least, one);
    assert(least.lt(one));
    lemma_pow2_pos(1074);
    let w = whole();
    let d = y1 - y0;
    assert(rise.value() == d * w);
    assert(d * w >= w || d * w <= -w) by (nonlinear_arith)
        requires
            d != 0,
            w > 0,
    ;
    lemma_magnitude_not_negative(rise);
    assert(rise.absolute().abs_bits() == rise.abs_bits());
    assert(rise.absolute().value() >= w);
    law_order_is_value_order(least, rise.absolute());
    assert(least.lt(rise.absolute()));
    law_short_sums_are_exact(s.end.x, s.start.x, x1, x0, 1074);
    let wide = difference(s.end.x, s.start.x);
    let g = (x1 - x0) * q;
    assert(-0x8000_0000 <= g <= 0x8000_0000) by (nonlinear_arith)
        requires
            g == (x1 - x0) * q,
            0 <= q <= 1024,
            -0x20_0000 <= x1 - x0 <= 0x20_0000,
    ;
    law_short_products_are_exact(wide, f, x1 - x0, q, 1074, 1064);
    lemma_finer(s.start.x, x0);
    law_short_sums_are_exact(s.start.x, product(wide, f), x0 * 1024, g, 1064);
    let at = sum(s.start.x, product(wide, f));
    law_units_are_ordered(x, at, x0 * 1024 + g, x0 * 1024 + g, 1064);
    lemma_considered(best, Vec2 { x: at, y: edge }, lo, hi);
}

/// The radius over a window is no less than that of a segment where it passes an end
/// of the window: exactly, where the ends of the segment and of the window are
/// integers and the place divides the segment in a thousand and twenty-fourths.
pub proof fn law_radius_reaches_the_window(
    segments: Seq<ProfileSegment>,
    lo: Double,
    hi: Double,
    i: int,
    from: (int, int),
    to: (int, int),
    upper: bool,
    y: int,
    q: int,
    x: Double,
)
    requires
        0 <= i < segments.len(),
        lo.le(hi),
        joins(segments[i], from.0, from.1, to.0, to.1),
        is_whole(if upper {
            hi
        } else {
            lo
        }, y) && modest(y),
        from.1 != to.1,
        0 <= q <= 1024,
        (y - from.1) * 1024 == q * (to.1 - from.1),
        stands(x, from.0 * 1024 + (to.0 - from.0) * q, 1064),
    ensures
        x.le(radius_over(segments, lo, hi, segments.len())),
{
    let s = segments[i];
    lemma_radius_grows(segments, lo, hi, (i + 1) as nat, segments.len());
    lemma_radius_grows(segments, lo, hi, 0, i as nat);
    let best = radius_over(segments, lo, hi, i as nat);
    let one = considered(best, s.start, lo, hi);
    let two = considered(one, s.end, lo, hi);
    let three = crossed(two, s, lo, lo, hi);
    lemma_considered(best, s.start, lo, hi);
    lemma_considered(one, s.end, lo, hi);
    lemma_crossed(two, s, lo, lo, hi);
    lemma_crossed(three, s, hi, lo, hi);
    if upper {
        lemma_crossing_at(three, s, hi, lo, hi, from.0, from.1, to.0, to.1, y, q, x);
    } else {
        lemma_crossing_at(two, s, lo, lo, hi, from.0, from.1, to.0, to.1, y, q, x);
    }
}

} // verus!
