//! Cutting motion after motion, ray by ray, leaves the field that a batch leaves.

use crate::arithmetic::{difference, lemma_nearest_zero, product, sum};
use crate::double::Double;
use crate::span_laws::outcome;
use crate::spans::{total_length, SetOp, Span};
use crate::sweep::batch::{cutting, held, reached, MotionSweep};
use crate::sweep::cut::{changes, cut_from, left_of, passes, same_span, same_spans, Bundle, CutStats};
use crate::sweep::parallel::batch_done;
use crate::sweep::sequence::{law_own_box_decides, measurable};
use vstd::arithmetic::power2::*;
use vstd::prelude::*;

verus! {

/// The same double, or both zero.
spec fn alike(x: Double, y: Double) -> bool {
    x == y || (x.zero() && y.zero())
}

proof fn lemma_zero_value(x: Double)
    requires
        x.zero(),
    ensures
        x.value() == 0,
        x.finite(),
        !x.nan(),
{
}

proof fn lemma_same_is_alike(x: Double, y: Double)
    requires
        x.same(y),
    ensures
        alike(x, y),
{
}

proof fn lemma_negated_alike(x: Double, y: Double)
    requires
        alike(x, y),
    ensures
        alike(x.negated(), y.negated()),
{
}

proof fn lemma_sums_alike(a: Double, b: Double, x: Double, y: Double)
    requires
        alike(a, x),
        alike(b, y),
    ensures
        alike(sum(a, b), sum(x, y)),
{
    if a.zero() {
        lemma_zero_value(a);
        lemma_zero_value(x);
    }
    if b.zero() {
        lemma_zero_value(b);
        lemma_zero_value(y);
    }
}

/// Lists that compare equal have lengths that do.
proof fn lemma_lengths_alike(s: Seq<Span>, t: Seq<Span>)
    requires
        same_spans(s, t),
    ensures
        alike(total_length(s), total_length(t)),
    decreases s.len(),
{
    if s.len() > 0 {
        let (p, q) = (s.drop_last(), t.drop_last());
        assert forall|i: int| 0 <= i < p.len() implies same_span(#[trigger] p[i], q[i]) by {
            assert(same_span(s[i], t[i]));
        }
        lemma_lengths_alike(p, q);
        let (a, b) = (s.last(), t.last());
        assert(same_span(s[s.len() - 1], t[s.len() - 1]));
        lemma_same_is_alike(a.t0, b.t0);
        lemma_same_is_alike(a.t1, b.t1);
        lemma_negated_alike(a.t0, b.t0);
        lemma_sums_alike(a.t1, a.t0.negated(), b.t1, b.t0.negated());
        lemma_sums_alike(total_length(p), difference(a.t1, a.t0), total_length(q), difference(b.t1, b.t0));
    }
}

/// Nothing times a finite number is nothing.
proof fn lemma_no_volume(x: Double, y: Double, area: Double)
    requires
        alike(x, y),
        x.finite(),
        area.finite(),
    ensures
        product(difference(x, y), area).same(Double { bits: 0 }),
        y.same(x),
{
    if x.zero() {
        lemma_zero_value(x);
        lemma_zero_value(y);
    }
    let d = difference(x, y);
    assert(x.value() + y.negated().value() == 0);
    assert(d.zero());
    lemma_zero_value(d);
    assert(d.magnitude() == 0);
    assert(0 * area.magnitude() == 0);
    lemma_pow2_pos(1074);
    lemma_nearest_zero(d.signed() != area.signed(), pow2(1074) as int);
}

/// Whether a cut makes a difference does not depend on whether it is judged by
/// the lengths or by the volume.
proof fn lemma_one_verdict(before: Seq<Span>, covered: Seq<Span>, area: Double)
    requires
        total_length(before).finite(),
        area.finite(),
    ensures
        changes(before, covered) == cutting(before, covered, area),
{
    let after = outcome(SetOp::Difference, before, covered);
    if same_spans(after, before) {
        assert forall|i: int| 0 <= i < before.len() implies same_span(#[trigger] before[i], after[i]) by {
            assert(same_span(after[i], before[i]));
        }
        lemma_lengths_alike(before, after);
        lemma_no_volume(total_length(before), total_length(after), area);
    }
}

/// Bundles, each of which a motion was cut from to give the next.
pub open spec fn one_by_one(chain: Seq<Bundle>, motions: Seq<MotionSweep>) -> bool {
    &&& chain.len() == motions.len() + 1
    &&& forall|m: int|
        0 <= m < motions.len() ==> cut_from(
            #[trigger] chain[m],
            motions[m].bounds,
            motions[m].swept@,
            chain[m + 1],
        )
}

/// What a ray holds stays measurable while motions are cut from it.
pub open spec fn lasting(b: Bundle, motions: Seq<MotionSweep>, r: int) -> bool {
    forall|m: nat| m <= motions.len() ==> total_length(#[trigger] held(b, motions, r, m)).finite()
}

proof fn lemma_chain(b: Bundle, motions: Seq<MotionSweep>, chain: Seq<Bundle>, r: int, m: nat)
    requires
        one_by_one(chain, motions),
        chain[0] == b,
        b.wf(),
        measurable(b, motions),
        b.cell_area.finite(),
        0 <= r < b.rays@.len(),
        forall|k: int| 0 <= k < motions.len() ==> (#[trigger] motions[k]).swept@.len() == b.rays@.len(),
        lasting(b, motions, r),
        m <= motions.len(),
    ensures
        chain[m as int].rays@[r]@ == held(b, motions, r, m),
        chain[m as int].rays@.len() == b.rays@.len(),
        chain[m as int].axis == b.axis,
        chain[m as int].spacing == b.spacing,
        chain[m as int].origins@ == b.origins@,
    decreases m,
{
    if m > 0 {
        let k = m - 1;
        lemma_chain(b, motions, chain, r, k as nat);
        let c = chain[k];
        let s = motions[k].swept@;
        assert(cut_from(c, motions[k].bounds, s, chain[k + 1]));
        assert(motions[k].swept@.len() == b.rays@.len());
        assert(chain[m as int].rays@[r]@ == left_of(c, motions[k].bounds, s, r));
        law_own_box_decides(b, motions, r, k);
        let before = held(b, motions, r, k as nat);
        assert(total_length(before).finite());
        lemma_one_verdict(before, s[r].spans@, b.cell_area);
        assert(reached(b, motions, r, k) == passes(
            motions[k].bounds,
            c.axis,
            c.origins@[r],
            c.spacing,
        ));
    }
}

/// Motions that are cut from a bundle one after the other leave the material that
/// they leave as a batch.
pub proof fn law_batching_keeps_the_field(
    b: Bundle,
    motions: Seq<MotionSweep>,
    chain: Seq<Bundle>,
    removed: Seq<Double>,
    after: Bundle,
    volumes: Seq<Double>,
    stats: CutStats,
    r: int,
)
    requires
        one_by_one(chain, motions),
        chain[0] == b,
        b.wf(),
        measurable(b, motions),
        b.cell_area.finite(),
        0 <= r < b.rays@.len(),
        forall|k: int| 0 <= k < motions.len() ==> (#[trigger] motions[k]).swept@.len() == b.rays@.len(),
        lasting(b, motions, r),
        batch_done(b, motions, removed, after, volumes, stats),
    ensures
        chain.last().rays@[r]@ == after.rays@[r]@,
{
    lemma_chain(b, motions, chain, r, motions.len());
}

} // verus!
