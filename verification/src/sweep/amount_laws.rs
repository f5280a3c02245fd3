//! How much a cut takes, and how long a helix is, in integers.

use crate::arithmetic::{difference, of_int, product, quotient};
use crate::double::Double;
use crate::error_bounds::{lemma_magnitude_not_negative, whole};
use crate::exactness::{
    is_whole, law_integers_stand, law_short_products_are_exact, law_short_quotients_are_exact, law_short_sums_are_exact, short, stands,
};
use crate::refixture::resampling_cost;
use crate::spans::{total_length, Span};
use crate::sweep::arc::ArcMove;
use crate::sweep::cut::volume;
use crate::sweep::whole_laws::{law_length_is_the_hypotenuse, modest};
use vstd::arithmetic::mul::*;
use vstd::arithmetic::power2::{lemma2_to64, lemma_pow2_adds, lemma_pow2_pos, pow2};
use vstd::prelude::*;

verus! {

/// The total length of intervals between integers.
pub open spec fn lengths(ends: Seq<(int, int)>) -> int
    decreases ends.len(),
{
    if ends.len() == 0 {
        0
    } else {
        lengths(ends.drop_last()) + (ends.last().1 - ends.last().0)
    }
}

/// Spans between integers.
pub open spec fn spans_between(s: Seq<Span>, ends: Seq<(int, int)>) -> bool {
    &&& s.len() == ends.len() <= 0x10_0000
    &&& forall|i: int|
        0 <= i < s.len() ==> is_whole((#[trigger] s[i]).t0, ends[i].0) && is_whole(s[i].t1, ends[i].1) && modest(ends[i].0)
            && modest(ends[i].1)
}

proof fn lemma_total_length(s: Seq<Span>, ends: Seq<(int, int)>)
    requires
        spans_between(s, ends),
    ensures
        is_whole(total_length(s), lengths(ends)),
        -0x20_0000 * s.len() <= lengths(ends) <= 0x20_0000 * s.len(),
    decreases s.len(),
{
    if s.len() == 0 {
        lemma_magnitude_not_negative(Double { bits: 0 });
        assert(0 * pow2(1074) == 0);
    } else {
        let (t, e) = (s.drop_last(), ends.drop_last());
        assert forall|i: int| 0 <= i < t.len() implies is_whole((#[trigger] t[i]).t0, e[i].0) && is_whole(t[i].t1, e[i].1)
            && modest(e[i].0) && modest(e[i].1) by {
            assert(t[i] == s[i]);
        }
        lemma_total_length(t, e);
        let n = s.len() - 1;
        assert(is_whole(s[n].t0, ends[n].0));
        law_short_sums_are_exact(s.last().t1, s.last().t0, ends.last().1, ends.last().0, 1074);
        law_short_sums_are_exact(
            total_length(t),
            difference(s.last().t1, s.last().t0),
            lengths(e),
            ends.last().1 - ends.last().0,
            1074,
        );
    }
}

/// What a cut takes from a ray is the length that it takes, times the area that the
/// ray stands for: in integers, exactly.
pub proof fn law_volume_is_length_times_area(
    before: Seq<Span>,
    after: Seq<Span>,
    area: Double,
    b: Seq<(int, int)>,
    a: Seq<(int, int)>,
    k: int,
)
    requires
        spans_between(before, b) && spans_between(after, a),
        is_whole(area, k),
        short((lengths(b) - lengths(a)) * k),
    ensures
        is_whole(volume(before, after, area), (lengths(b) - lengths(a)) * k),
{
    lemma_total_length(before, b);
    lemma_total_length(after, a);
    let d = difference(total_length(before), total_length(after));
    law_short_sums_are_exact(total_length(before), total_length(after), lengths(b), lengths(a), 1074);
    law_short_products_are_exact(d, area, lengths(b) - lengths(a), k, 1074, 1074);
}

/// A resample costs half of the sample distance, in spacings.
pub proof fn law_resampling_costs_half_the_distance(spacing: Double, distance: Double, s: int, d: int)
    requires
        is_whole(spacing, s) && is_whole(distance, 2 * d),
        modest(s) && modest(d),
    ensures
        is_whole(resampling_cost(spacing, distance), d * s),
{
    let half = Double { bits: 0x3fe0_0000_0000_0000 };
    assert(stands(half, 1, 1073)) by {
        crate::rounding::lemma_pow2_53();
        lemma_pow2_adds(52, 1021);
        lemma_mul_basics(pow2(1073) as int);
    }
    law_short_products_are_exact(half, distance, 1, 2 * d, 1073, 1074);
    let h = product(half, distance);
    lemma_pow2_adds(1, 1073);
    lemma2_to64();
    lemma_mul_is_associative(d, 2, pow2(1073) as int);
    lemma_mul_is_commutative(d, 2);
    assert(is_whole(h, d));
    assert(-0x100_0000_0000 <= d * s <= 0x100_0000_0000) by (nonlinear_arith)
        requires
            -0x10_0000 <= d <= 0x10_0000,
            -0x10_0000 <= s <= 0x10_0000,
    ;
    law_short_products_are_exact(h, spacing, d, s, 1074, 1074);
}

/// The path of a helix is as long as the hypotenuse over the length of its arc and its
/// rise, where all three are integers.
pub proof fn law_helix_is_a_hypotenuse(arc: ArcMove, r: int, s: int, h: int, l: int)
    requires
        is_whole(arc.radius, r) && is_whole(arc.sweep, s) && is_whole(arc.rise, h),
        modest(r * s) && modest(h) && 0 <= l <= 0x20_0000,
        (r * s) * (r * s) + h * h == l * l,
    ensures
        is_whole(arc.helical_length(), l),
{
    law_short_products_are_exact(arc.radius, arc.sweep, r, s, 1074, 1074);
    law_length_is_the_hypotenuse(product(arc.radius, arc.sweep), arc.rise, r * s, h, l);
}

/// The deviation of steps along an arc is the hypotenuse over the chord to the middle
/// between two steps, twice the radius times the sine of a quarter of the angle, and
/// half of the rise between them, where all three are integers.
pub proof fn law_deviation_is_a_hypotenuse(arc: ArcMove, n: int, sine: Double, r: int, q: int, h: int, l: int)
    requires
        is_whole(arc.radius, r) && stands(sine, q, 1064) && 0 < n <= 0x10_0000,
        modest(r) && -1024 <= q <= 1024,
        is_whole(arc.rise, (2 * n) * h) || is_whole(arc.rise, -((2 * n) * h)),
        0 <= h && modest(h) && 0 <= l <= 0x20_0000,
        (2 * r * q) % 1024 == 0,
        ({
            let x = (2 * r * q) / 1024;
            modest(x) && x * x + h * h == l * l
        }),
        -0x10_0000_0000_0000 <= (2 * n) * h <= 0x10_0000_0000_0000,
    ensures
        is_whole(arc.deviation(n, sine), l),
{
    let two = Double { bits: 0x4000_0000_0000_0000 };
    crate::quadratic_laws::lemma_constants();
    law_short_products_are_exact(two, arc.radius, 2, r, 1074, 1074);
    let d = product(two, arc.radius);
    let g = 2 * r * q;
    assert(-0x8000_0000 <= g <= 0x8000_0000) by (nonlinear_arith)
        requires
            g == 2 * r * q,
            -0x10_0000 <= r <= 0x10_0000,
            -1024 <= q <= 1024,
    ;
    law_short_products_are_exact(d, sine, 2 * r, q, 1074, 1064);
    let across = product(d, sine);
    let x = g / 1024;
    lemma_pow2_adds(10, 1064);
    lemma2_to64();
    lemma_mul_is_associative(x, 1024, pow2(1064) as int);
    assert(is_whole(across, x));
    let w = whole();
    lemma_pow2_pos(1074);
    lemma_magnitude_not_negative(arc.rise);
    let a = arc.rise.absolute();
    assert(a.abs_bits() == arc.rise.abs_bits());
    lemma_magnitude_not_negative(a);
    let k = (2 * n) * h;
    assert(k >= 0 && k * w >= 0 && (-k) * w == -(k * w)) by (nonlinear_arith)
        requires
            k == (2 * n) * h,
            n > 0,
            h >= 0,
            w > 0,
    ;
    assert(is_whole(a, k));
    law_integers_stand(n);
    assert(k == (2 * h) * n) by (nonlinear_arith)
        requires
            k == (2 * n) * h,
    ;
    law_short_quotients_are_exact(a, of_int(n), 2 * h, n, 1074, 1074);
    let b = quotient(a, of_int(n));
    lemma_mul_is_commutative(2, h);
    law_short_quotients_are_exact(b, two, h, 2, 1074, 1074);
    law_length_is_the_hypotenuse(across, quotient(b, two), x, h, l);
}

} // verus!
