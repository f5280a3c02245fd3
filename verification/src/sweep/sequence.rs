//! Cutting a list of motions, batch by batch.
//!
//! How the list is divided is a tuning knob, and it must be invisible: the
//! field, the volume of each motion and the counters are those of one batch of
//! all motions.

use crate::arithmetic::{difference, product, sum};
use crate::double::Double;
use crate::math::{box_union, greater, lesser, Aabb3, Axis};
use crate::order::{law_difference_keeps_order_first, law_difference_nan};
use crate::sweep::batch::{
    boxes_united, fitting, gives, held, planned, ray_gives, ray_run, reached, removes, replayed, run_stats, taken, visit_stats,
    total_removed, volume_total, Contribution, MotionSweep, Run,
};
use crate::sweep::cut::{counted, no_stats, passes, within, Bundle, CutStats};
use crate::sweep::parallel::{
    batch_done, counts_merged, cut_batch_bundle, law_replaying_joins, law_statistics_join,
    lemma_gives_in_range, lemma_no_motions, lemma_ray_gives_in_range, lemma_ray_run_merges,
};
use crate::sweep::reference::MAX_SUBSTEPS;
use vstd::prelude::*;

verus! {

/// No bound of a box is a NaN.
pub open spec fn numeric(b: Aabb3) -> bool {
    &&& forall|k: int| 0 <= k < 3 ==> !(#[trigger] b.min.at(k)).nan()
    &&& forall|k: int| 0 <= k < 3 ==> !(#[trigger] b.max.at(k)).nan()
}

/// The boxes of the motions are numeric, and half a spacing is finite.
pub open spec fn measurable(b: Bundle, motions: Seq<MotionSweep>) -> bool {
    &&& product(Double { bits: 0x3fe0_0000_0000_0000 }, b.spacing).finite()
    &&& forall|m: int| 0 <= m < motions.len() ==> numeric((#[trigger] motions[m]).bounds)
}

/// One box reaches at least as far as another.
spec fn wider(a: Aabb3, b: Aabb3) -> bool {
    &&& forall|k: int| 0 <= k < 3 ==> (#[trigger] a.min.at(k)).key() <= b.min.at(k).key()
    &&& forall|k: int| 0 <= k < 3 ==> (#[trigger] a.max.at(k)).key() >= b.max.at(k).key()
}

proof fn lemma_union_is_wider(a: Aabb3, b: Aabb3)
    requires
        numeric(a),
        numeric(b),
    ensures
        numeric(box_union(a, b)),
        wider(box_union(a, b), a),
        wider(box_union(a, b), b),
{
    let u = box_union(a, b);
    assert(!a.min.at(0).nan() && !a.min.at(1).nan() && !a.min.at(2).nan());
    assert(!a.max.at(0).nan() && !a.max.at(1).nan() && !a.max.at(2).nan());
    assert(!b.min.at(0).nan() && !b.min.at(1).nan() && !b.min.at(2).nan());
    assert(!b.max.at(0).nan() && !b.max.at(1).nan() && !b.max.at(2).nan());
    assert forall|k: int| 0 <= k < 3 implies !(#[trigger] u.min.at(k)).nan() && u.min.at(k).key() <= a.min.at(k).key()
        && u.min.at(k).key() <= b.min.at(k).key() by {
        assert(u.min.at(k) == lesser(a.min.at(k), b.min.at(k)));
    }
    assert forall|k: int| 0 <= k < 3 implies !(#[trigger] u.max.at(k)).nan() && u.max.at(k).key() >= a.max.at(k).key()
        && u.max.at(k).key() >= b.max.at(k).key() by {
        assert(u.max.at(k) == greater(a.max.at(k), b.max.at(k)));
    }
}

proof fn lemma_united_is_wider(motions: Seq<MotionSweep>, n: nat, m: int)
    requires
        0 <= m < n <= motions.len(),
        forall|m: int| 0 <= m < motions.len() ==> numeric((#[trigger] motions[m]).bounds),
    ensures
        numeric(boxes_united(motions, n)),
        wider(boxes_united(motions, n), motions[m].bounds),
    decreases n,
{
    assert(numeric(motions[0].bounds));
    if n > 1 {
        let k = (n - 1) as nat;
        let own = if m < k {
            m
        } else {
            0
        };
        lemma_united_is_wider(motions, k, own);
        assert(numeric(motions[n - 1].bounds));
        lemma_union_is_wider(boxes_united(motions, k), motions[n - 1].bounds);
        let u = boxes_united(motions, n);
        if m < k {
            let w = boxes_united(motions, k);
            assert forall|j: int| 0 <= j < 3 implies (#[trigger] u.min.at(j)).key() <= motions[m].bounds.min.at(j).key() by {
                assert(w.min.at(j).key() <= motions[m].bounds.min.at(j).key());
            }
            assert forall|j: int| 0 <= j < 3 implies (#[trigger] u.max.at(j)).key() >= motions[m].bounds.max.at(j).key() by {
                assert(w.max.at(j).key() >= motions[m].bounds.max.at(j).key());
            }
        }
    }
}

proof fn lemma_within_wider(p: Double, lo: Double, hi: Double, wide_lo: Double, wide_hi: Double, slack: Double)
    requires
        !lo.nan(),
        !hi.nan(),
        !wide_lo.nan(),
        !wide_hi.nan(),
        wide_lo.key() <= lo.key(),
        wide_hi.key() >= hi.key(),
        slack.finite(),
        within(p, lo, hi, slack),
    ensures
        within(p, wide_lo, wide_hi, slack),
{
    let back = slack.negated();
    assert(back.negated() == slack);
    assert(back.finite());
    law_difference_nan(lo, slack);
    law_difference_nan(wide_lo, slack);
    law_difference_nan(hi, back);
    law_difference_nan(wide_hi, back);
    law_difference_keeps_order_first(wide_lo, lo, slack);
    law_difference_keeps_order_first(hi, wide_hi, back);
    assert(sum(hi, slack) == difference(hi, back));
    assert(sum(wide_hi, slack) == difference(wide_hi, back));
}

/// A motion reaches the rays that pass its own box: the box around the batch
/// turns none of them away.
pub proof fn law_own_box_decides(b: Bundle, motions: Seq<MotionSweep>, r: int, m: int)
    requires
        measurable(b, motions),
        0 <= m < motions.len(),
    ensures
        reached(b, motions, r, m) == passes(motions[m].bounds, b.axis, b.origins@[r], b.spacing),
{
    let u = boxes_united(motions, motions.len());
    let own = motions[m].bounds;
    let o = b.origins@[r];
    let slack = product(Double { bits: 0x3fe0_0000_0000_0000 }, b.spacing);
    lemma_united_is_wider(motions, motions.len(), m);
    if passes(own, b.axis, o, b.spacing) {
        assert(numeric(own));
        assert forall|k: int| 0 <= k < 3 && k != b.axis.number() implies within(
            #[trigger] o.at(k),
            u.min.at(k),
            u.max.at(k),
            slack,
        ) by {
            assert(within(o.at(k), own.min.at(k), own.max.at(k), slack));
            assert(!own.min.at(k).nan() && !own.max.at(k).nan());
            assert(!u.min.at(k).nan() && !u.max.at(k).nan());
            assert(u.min.at(k).key() <= own.min.at(k).key());
            assert(u.max.at(k).key() >= own.max.at(k).key());
            lemma_within_wider(o.at(k), own.min.at(k), own.max.at(k), u.min.at(k), u.max.at(k), slack);
        }
    }
}

/// One bundle stands where another does.
spec fn same_frame(a: Bundle, b: Bundle) -> bool {
    a.axis == b.axis && a.spacing == b.spacing && a.cell_area == b.cell_area && a.origins@ == b.origins@ && a.rays@.len()
        == b.rays@.len()
}

/// `mid` is what the first motions leave of `b`.
spec fn handed_on(b: Bundle, first: Seq<MotionSweep>, mid: Bundle) -> bool {
    &&& same_frame(mid, b)
    &&& forall|r: int| 0 <= r < b.rays@.len() ==> (#[trigger] mid.rays@[r])@ == held(b, first, r, first.len())
}

proof fn lemma_measurable_parts(b: Bundle, first: Seq<MotionSweep>, second: Seq<MotionSweep>)
    requires
        measurable(b, first + second),
    ensures
        measurable(b, first),
        measurable(b, second),
{
    let all = first + second;
    assert forall|m: int| 0 <= m < first.len() implies numeric((#[trigger] first[m]).bounds) by {
        assert(numeric(all[m].bounds));
    }
    assert forall|m: int| 0 <= m < second.len() implies numeric((#[trigger] second[m]).bounds) by {
        assert(all[first.len() + m] == second[m]);
        assert(numeric(all[first.len() + m].bounds));
    }
}

/// What the first motions do to a ray does not depend on those behind them.
proof fn lemma_held_first(b: Bundle, first: Seq<MotionSweep>, second: Seq<MotionSweep>, r: int, m: nat)
    requires
        measurable(b, first + second),
        m <= first.len(),
    ensures
        held(b, first + second, r, m) == held(b, first, r, m),
    decreases m,
{
    lemma_measurable_parts(b, first, second);
    if m > 0 {
        lemma_held_first(b, first, second, r, (m - 1) as nat);
        law_own_box_decides(b, first + second, r, m - 1);
        law_own_box_decides(b, first, r, m - 1);
        assert((first + second)[m - 1] == first[m - 1]);
    }
}

/// The motions behind the first find what those left.
proof fn lemma_held_second(b: Bundle, first: Seq<MotionSweep>, second: Seq<MotionSweep>, mid: Bundle, r: int, m: nat)
    requires
        measurable(b, first + second),
        handed_on(b, first, mid),
        0 <= r < b.rays@.len(),
        m <= second.len(),
    ensures
        held(b, first + second, r, first.len() + m) == held(mid, second, r, m),
    decreases m,
{
    lemma_measurable_parts(b, first, second);
    let k = first.len();
    if m == 0 {
        lemma_held_first(b, first, second, r, k);
        assert(mid.rays@[r]@ == held(b, first, r, k));
    } else {
        lemma_held_second(b, first, second, mid, r, (m - 1) as nat);
        assert(measurable(mid, second));
        law_own_box_decides(b, first + second, r, k + m - 1);
        law_own_box_decides(mid, second, r, m - 1);
        assert((first + second)[k + m - 1] == second[m - 1]);
        assert((k + m - 1) as nat == k + (m - 1) as nat);
    }
}

proof fn lemma_visit_first(s: CutStats, b: Bundle, first: Seq<MotionSweep>, second: Seq<MotionSweep>, r: int, m: int)
    requires
        measurable(b, first + second),
        0 <= m < first.len(),
    ensures
        visit_stats(s, b, first + second, r, m) == visit_stats(s, b, first, r, m),
        removes(b, first + second, r, m) == removes(b, first, r, m),
        taken(b, first + second, r, m) == taken(b, first, r, m),
{
    lemma_measurable_parts(b, first, second);
    lemma_held_first(b, first, second, r, m as nat);
    law_own_box_decides(b, first + second, r, m);
    law_own_box_decides(b, first, r, m);
    assert((first + second)[m] == first[m]);
}

proof fn lemma_visit_second(s: CutStats, b: Bundle, first: Seq<MotionSweep>, second: Seq<MotionSweep>, mid: Bundle, r: int, m: int)
    requires
        measurable(b, first + second),
        handed_on(b, first, mid),
        0 <= r < b.rays@.len(),
        0 <= m < second.len(),
    ensures
        visit_stats(s, b, first + second, r, first.len() + m) == visit_stats(s, mid, second, r, m),
        removes(b, first + second, r, first.len() + m) == removes(mid, second, r, m),
        taken(b, first + second, r, first.len() + m) == taken(mid, second, r, m),
{
    lemma_measurable_parts(b, first, second);
    let k = first.len();
    lemma_held_second(b, first, second, mid, r, m as nat);
    assert(measurable(mid, second));
    law_own_box_decides(b, first + second, r, k + m);
    law_own_box_decides(mid, second, r, m);
    assert((first + second)[k + m] == second[m]);
}

proof fn lemma_run_first(s: CutStats, b: Bundle, first: Seq<MotionSweep>, second: Seq<MotionSweep>, r: int, m: nat)
    requires
        measurable(b, first + second),
        m <= first.len(),
    ensures
        ray_run(s, b, first + second, r, m) == ray_run(s, b, first, r, m),
    decreases m,
{
    if m > 0 {
        lemma_run_first(s, b, first, second, r, (m - 1) as nat);
        lemma_visit_first(ray_run(s, b, first, r, (m - 1) as nat), b, first, second, r, m - 1);
    }
}

/// On one ray the counters of the first motions are followed by those of the
/// second.
proof fn lemma_run_second(s: CutStats, b: Bundle, first: Seq<MotionSweep>, second: Seq<MotionSweep>, mid: Bundle, r: int, m: nat)
    requires
        measurable(b, first + second),
        handed_on(b, first, mid),
        0 <= r < b.rays@.len(),
        m <= second.len(),
    ensures
        ray_run(s, b, first + second, r, first.len() + m) == ray_run(
            ray_run(s, b, first, r, first.len()),
            mid,
            second,
            r,
            m,
        ),
    decreases m,
{
    let k = first.len();
    if m == 0 {
        lemma_run_first(s, b, first, second, r, k);
    } else {
        lemma_run_second(s, b, first, second, mid, r, (m - 1) as nat);
        let t = ray_run(ray_run(s, b, first, r, k), mid, second, r, (m - 1) as nat);
        lemma_visit_second(t, b, first, second, mid, r, m - 1);
        assert((k + m - 1) as nat == k + (m - 1) as nat);
    }
}

/// Counters without volumes, whose worst bound is zero or positive.
spec fn bare(s: CutStats) -> bool {
    let zero = Double { bits: 0 };
    &&& s.removed_x == zero
    &&& s.removed_y == zero
    &&& s.removed_z == zero
    &&& !s.worst_bound_mm.nan()
    &&& s.worst_bound_mm == zero || s.worst_bound_mm.key() > 0
}

proof fn lemma_bare_ray(s: CutStats, b: Bundle, motions: Seq<MotionSweep>, r: int, m: nat)
    requires
        bare(s),
    ensures
        bare(ray_run(s, b, motions, r, m)),
    decreases m,
{
    if m > 0 {
        lemma_bare_ray(s, b, motions, r, (m - 1) as nat);
    }
}

proof fn lemma_bare(b: Bundle, motions: Seq<MotionSweep>, n: int)
    ensures
        bare(run_stats(b, motions, 0, n)),
    decreases n,
{
    if n > 0 {
        lemma_bare(b, motions, n - 1);
        lemma_bare_ray(run_stats(b, motions, 0, n - 1), b, motions, n - 1, motions.len());
    }
}

proof fn lemma_merging_commutes(a: CutStats, b: CutStats)
    requires
        bare(a),
        bare(b),
    ensures
        counts_merged(a, b) == counts_merged(b, a),
{
    let x = a.worst_bound_mm;
    let y = b.worst_bound_mm;
    if x.key() == y.key() {
        assert(x.bits == y.bits);
    }
}

proof fn lemma_stats_join(b: Bundle, first: Seq<MotionSweep>, second: Seq<MotionSweep>, mid: Bundle, n: int)
    requires
        measurable(b, first + second),
        handed_on(b, first, mid),
        0 <= n <= b.rays@.len(),
        n * (first.len() + second.len()) <= 0xfff_ffff_ffff,
        planned(first),
        planned(second),
    ensures
        run_stats(b, first + second, 0, n) == counts_merged(run_stats(b, first, 0, n), run_stats(mid, second, 0, n)),
    decreases n,
{
    let all = first + second;
    if n > 0 {
        let k1 = first.len() as int;
        let k2 = second.len() as int;
        let r = n - 1;
        assert(n * (k1 + k2) == r * k1 + r * k2 + k1 + k2 && r * (k1 + k2) == r * k1 + r * k2 && r * k1 >= 0 && r * k2 >= 0)
            by (nonlinear_arith)
            requires
                r == n - 1,
                n > 0,
                k1 >= 0,
                k2 >= 0,
        ;
        lemma_stats_join(b, first, second, mid, r);
        let p = run_stats(b, first, 0, r);
        let q = run_stats(mid, second, 0, r);
        assert((r - 0) * k1 == r * k1 && (r - 0) * k2 == r * k2);
        law_statistics_join(b, first, 0, r, r);
        law_statistics_join(mid, second, 0, r, r);
        lemma_bare(b, first, r);
        lemma_bare(mid, second, r);
        let s = run_stats(b, all, 0, r);
        lemma_run_second(s, b, first, second, mid, r, second.len());
        lemma_merging_commutes(p, q);
        lemma_ray_run_merges(q, p, b, first, r, first.len(), r * k2, r * k1);
        let p2 = ray_run(p, b, first, r, first.len());
        assert(p2 == run_stats(b, first, 0, n));
        lemma_bare(b, first, n);
        lemma_merging_commutes(q, p2);
        lemma_ray_run_merges(p2, q, mid, second, r, second.len(), r * k1 + k1, r * k2);
        assert(all.len() == first.len() + second.len());
    }
}

/// The volume of motion `m`, after the first `n` rays have given to it.
spec fn gathered_volume(x: Double, b: Bundle, motions: Seq<MotionSweep>, m: int, n: int) -> Double
    decreases n,
{
    if n <= 0 {
        x
    } else {
        let before = gathered_volume(x, b, motions, m, n - 1);
        if removes(b, motions, n - 1, m) {
            sum(before, taken(b, motions, n - 1, m))
        } else {
            before
        }
    }
}

proof fn lemma_replayed_length(v: Seq<Double>, c: Seq<Contribution>)
    requires
        forall|i: int| 0 <= i < c.len() ==> (#[trigger] c[i]).motion < v.len(),
    ensures
        replayed(v, c).len() == v.len(),
    decreases c.len(),
{
    if c.len() > 0 {
        let d = c.drop_last();
        assert forall|i: int| 0 <= i < d.len() implies (#[trigger] d[i]).motion < v.len() by {
            assert(c[i].motion < v.len());
        }
        lemma_replayed_length(v, d);
        assert(c[c.len() - 1].motion < v.len());
    }
}

/// Replaying what rays give keeps the number of volumes.
proof fn lemma_volume_count(v: Seq<Double>, b: Bundle, motions: Seq<MotionSweep>, n: int)
    requires
        motions.len() <= u32::MAX,
        v.len() == motions.len(),
    ensures
        replayed(v, gives(b, motions, 0, n)).len() == v.len(),
{
    let c = gives(b, motions, 0, n);
    assert forall|i: int| 0 <= i < c.len() implies (#[trigger] c[i]).motion < v.len() by {
        lemma_gives_in_range(b, motions, 0, n, i);
    }
    lemma_replayed_length(v, c);
}

proof fn lemma_ray_volume(v: Seq<Double>, b: Bundle, motions: Seq<MotionSweep>, r: int, k: nat, m: int)
    requires
        k <= motions.len() <= u32::MAX,
        v.len() == motions.len(),
        0 <= m < motions.len(),
    ensures
        replayed(v, ray_gives(b, motions, r, k))[m] == if m < k && removes(b, motions, r, m) {
            sum(v[m], taken(b, motions, r, m))
        } else {
            v[m]
        },
    decreases k,
{
    if k > 0 {
        let rest = ray_gives(b, motions, r, (k - 1) as nat);
        lemma_ray_volume(v, b, motions, r, (k - 1) as nat, m);
        assert forall|i: int| 0 <= i < rest.len() implies (#[trigger] rest[i]).motion < v.len() by {
            lemma_ray_gives_in_range(b, motions, r, (k - 1) as nat, i);
        }
        lemma_replayed_length(v, rest);
        if removes(b, motions, r, k - 1) {
            let c = Contribution { motion: (k - 1) as u32, value: taken(b, motions, r, k - 1) };
            assert(rest.push(c).drop_last() =~= rest);
        }
    }
}

proof fn lemma_volume(v: Seq<Double>, b: Bundle, motions: Seq<MotionSweep>, n: int, m: int)
    requires
        motions.len() <= u32::MAX,
        v.len() == motions.len(),
        0 <= m < motions.len(),
    ensures
        replayed(v, gives(b, motions, 0, n))[m] == gathered_volume(v[m], b, motions, m, n),
    decreases n,
{
    if n > 0 {
        lemma_volume(v, b, motions, n - 1, m);
        let before = gives(b, motions, 0, n - 1);
        let own = ray_gives(b, motions, n - 1, motions.len());
        law_replaying_joins(v, before, own);
        lemma_volume_count(v, b, motions, n - 1);
        lemma_ray_volume(replayed(v, before), b, motions, n - 1, motions.len(), m);
    }
}

proof fn lemma_volume_first(x: Double, b: Bundle, first: Seq<MotionSweep>, second: Seq<MotionSweep>, m: int, n: int)
    requires
        measurable(b, first + second),
        0 <= m < first.len(),
    ensures
        gathered_volume(x, b, first + second, m, n) == gathered_volume(x, b, first, m, n),
    decreases n,
{
    if n > 0 {
        lemma_volume_first(x, b, first, second, m, n - 1);
        lemma_visit_first(no_stats(), b, first, second, n - 1, m);
    }
}

proof fn lemma_volume_second(
    x: Double,
    b: Bundle,
    first: Seq<MotionSweep>,
    second: Seq<MotionSweep>,
    mid: Bundle,
    m: int,
    n: int,
)
    requires
        measurable(b, first + second),
        handed_on(b, first, mid),
        0 <= m < second.len(),
        n <= b.rays@.len(),
    ensures
        gathered_volume(x, b, first + second, first.len() + m, n) == gathered_volume(x, mid, second, m, n),
    decreases n,
{
    if n > 0 {
        lemma_volume_second(x, b, first, second, mid, m, n - 1);
        lemma_visit_second(no_stats(), b, first, second, mid, n - 1, m);
    }
}

proof fn lemma_planned(first: Seq<MotionSweep>, second: Seq<MotionSweep>)
    requires
        planned(first + second),
    ensures
        planned(first),
        planned(second),
{
    assert forall|m: int| 0 <= m < first.len() implies (#[trigger] first[m]).plan.steps <= MAX_SUBSTEPS by {
        assert((first + second)[m] == first[m]);
    }
    assert forall|m: int| 0 <= m < second.len() implies (#[trigger] second[m]).plan.steps <= MAX_SUBSTEPS by {
        assert((first + second)[first.len() + m] == second[m]);
    }
}

/// One batch after another is one batch: the field, the volumes and the counters
/// do not tell how the motions were divided.
pub proof fn law_batches_join(
    b: Bundle,
    first: Seq<MotionSweep>,
    second: Seq<MotionSweep>,
    removed1: Seq<Double>,
    removed2: Seq<Double>,
    mid: Bundle,
    after: Bundle,
    volumes1: Seq<Double>,
    volumes2: Seq<Double>,
    stats1: CutStats,
    stats2: CutStats,
)
    requires
        fitting(b, first + second),
        measurable(b, first + second),
        removed1.len() == first.len(),
        removed2.len() == second.len(),
        batch_done(b, first, removed1, mid, volumes1, stats1),
        batch_done(mid, second, removed2, after, volumes2, stats2),
    ensures
        batch_done(b, first + second, removed1 + removed2, after, volumes1 + volumes2, counts_merged(stats1, stats2)),
{
    let all = first + second;
    let n = b.rays@.len() as int;
    assert(handed_on(b, first, mid));
    assert forall|r: int| 0 <= r < n implies (#[trigger] after.rays@[r])@ == held(b, all, r, all.len()) by {
        lemma_held_second(b, first, second, mid, r, second.len());
    }
    lemma_planned(first, second);
    assert(n * (first.len() + second.len()) <= 0xfff_ffff_ffff) by {
        assert(all.len() == first.len() + second.len());
    }
    lemma_stats_join(b, first, second, mid, n);
    let whole = replayed(removed1 + removed2, gives(b, all, 0, n));
    lemma_volume_count(removed1 + removed2, b, all, n);
    lemma_volume_count(removed1, b, first, n);
    lemma_volume_count(removed2, mid, second, n);
    assert forall|m: int| 0 <= m < all.len() implies whole[m] == (volumes1 + volumes2)[m] by {
        lemma_volume(removed1 + removed2, b, all, n, m);
        if m < first.len() {
            lemma_volume(removed1, b, first, n, m);
            lemma_volume_first(removed1[m], b, first, second, m, n);
        } else {
            let j = m - first.len();
            lemma_volume(removed2, mid, second, n, j);
            lemma_volume_second(removed2[j], b, first, second, mid, j, n);
        }
    }
    assert(whole =~= volumes1 + volumes2);
}

/// Runs that follow each other from the first motion to the last.
pub open spec fn chained(runs: Seq<Run>, n: int) -> bool {
    &&& forall|i: int| 0 <= i < runs.len() ==> (#[trigger] runs[i]).start < runs[i].end
    &&& forall|i: int, j: int|
        0 <= i && j == i + 1 && j < runs.len() ==> (#[trigger] runs[i]).end == (#[trigger] runs[j]).start
    &&& runs.len() > 0 ==> runs[0].start == 0 && runs.last().end == n
    &&& runs.len() == 0 ==> n == 0
}

/// No volume for each of `n` motions.
pub open spec fn no_volumes(n: nat) -> Seq<Double> {
    Seq::new(n, |i: int| Double { bits: 0 })
}

proof fn lemma_chained_below(runs: Seq<Run>, n: int, i: int)
    requires
        chained(runs, n),
        0 <= i < runs.len(),
    ensures
        runs[i].end <= n,
    decreases runs.len() - i,
{
    if i + 1 < runs.len() {
        lemma_chained_below(runs, n, i + 1);
        assert(runs[i].end == runs[i + 1].start);
    }
}

proof fn lemma_fitting_part(b: Bundle, after: Bundle, motions: Seq<MotionSweep>, lo: int, hi: int)
    requires
        fitting(b, motions),
        measurable(b, motions),
        0 <= lo < hi <= motions.len(),
        after.wf(),
        after.rays@.len() == b.rays@.len(),
        after.spacing == b.spacing,
    ensures
        fitting(after, motions.subrange(lo, hi)),
        measurable(after, motions.subrange(lo, hi)),
{
    let part = motions.subrange(lo, hi);
    let n = b.rays@.len() as int;
    assert(n * (hi - lo) <= n * motions.len()) by (nonlinear_arith)
        requires
            0 <= hi - lo <= motions.len(),
            n >= 0,
    ;
    assert forall|m: int| 0 <= m < part.len() implies (#[trigger] part[m]).swept@.len() == n && numeric(part[m].bounds) by {
        assert(motions[lo + m] == part[m]);
        assert(motions[lo + m].swept@.len() == n && numeric(motions[lo + m].bounds));
    }
    assert forall|m: int, r: int| 0 <= m < part.len() && 0 <= r < n implies (#[trigger] part[m].swept@[r]).spans.wf() by {
        assert(motions[lo + m] == part[m]);
        assert(motions[lo + m].swept@[r].spans.wf());
    }
}

/// The counters of two batches can be added.
proof fn lemma_mergeable(b: Bundle, mid: Bundle, first: Seq<MotionSweep>, second: Seq<MotionSweep>)
    requires
        b.rays@.len() * (first.len() + second.len()) <= 0xfff_ffff_ffff,
        planned(first),
        planned(second),
        mid.rays@.len() == b.rays@.len(),
    ensures
        crate::sweep::cut::mergeable(
            run_stats(b, first, 0, b.rays@.len() as int),
            run_stats(mid, second, 0, b.rays@.len() as int),
        ),
{
    let n = b.rays@.len() as int;
    let k1 = first.len() as int;
    let k2 = second.len() as int;
    assert(n * (k1 + k2) == n * k1 + n * k2 && n * k1 >= 0 && n * k2 >= 0) by (nonlinear_arith)
        requires
            n >= 0,
            k1 >= 0,
            k2 >= 0,
    ;
    assert((n - 0) * k1 == n * k1 && (n - 0) * k2 == n * k2);
    law_statistics_join(b, first, 0, n, n);
    law_statistics_join(mid, second, 0, n, n);
}

/// Adding the counters of a batch to nothing gives those counters.
proof fn lemma_first_merge(b: Bundle, motions: Seq<MotionSweep>)
    ensures
        crate::sweep::cut::mergeable(no_stats(), run_stats(b, motions, 0, b.rays@.len() as int)),
        counts_merged(no_stats(), run_stats(b, motions, 0, b.rays@.len() as int)) == run_stats(
            b,
            motions,
            0,
            b.rays@.len() as int,
        ),
{
    lemma_bare(b, motions, b.rays@.len() as int);
}

/// Cuts a list of motions out of a bundle, run by run: what comes of it is what
/// one batch of all motions makes, however they are divided.
pub fn cut_all(bundle: &mut Bundle, motions: &[MotionSweep], runs: &[Run]) -> (r: (Vec<Double>, CutStats))
    requires
        fitting(*old(bundle), motions@),
        measurable(*old(bundle), motions@),
        chained(runs@, motions@.len() as int),
    ensures
        batch_done(*old(bundle), motions@, no_volumes(motions@.len()), *final(bundle), r.0@, r.1),
        r.0@.len() == motions@.len(),
{
    let ghost b = *bundle;
    let ghost count = motions@.len() as int;
    let mut volumes: Vec<Double> = Vec::new();
    let mut total: CutStats = CutStats::default();
    let mut i: usize = 0;
    let ghost mut done: int = 0;
    while i < runs.len()
        invariant
            i <= runs@.len(),
            count == motions@.len(),
            fitting(b, motions@),
            measurable(b, motions@),
            chained(runs@, count),
            0 <= done <= count,
            done == if i == 0 {
                0
            } else {
                runs@[i - 1].end as int
            },
            volumes@.len() == done,
            i == 0 ==> *bundle == b && total == no_stats(),
            i > 0 ==> batch_done(b, motions@.take(done), no_volumes(done as nat), *bundle, volumes@, total),
        decreases runs@.len() - i,
    {
        let run: Run = runs[i];
        let ghost before = *bundle;
        let ghost volumes_before = volumes@;
        let ghost total_before = total;
        proof {
            lemma_chained_below(runs@, count, i as int);
            if i > 0 {
                assert(runs@[i - 1].end == runs@[i as int].start);
            }
            lemma_fitting_part(b, *bundle, motions@, run.start as int, run.end as int);
        }
        let part: &[MotionSweep] = vstd::slice::slice_subrange(motions, run.start, run.end);
        let mut own: Vec<Double> = zeros(run.end - run.start);
        let stats: CutStats = cut_batch_bundle(bundle, part, &mut own);
        proof {
            let first = motions@.take(done);
            let second = motions@.subrange(done, run.end as int);
            assert(first + second =~= motions@.take(run.end as int));
            if i > 0 {
                assert(motions@.take(run.end as int) =~= motions@.subrange(0, run.end as int));
                lemma_fitting_part(b, b, motions@, 0, run.end as int);
                law_batches_join(
                    b,
                    first,
                    second,
                    no_volumes(done as nat),
                    no_volumes(second.len()),
                    before,
                    *bundle,
                    volumes_before,
                    own@,
                    total_before,
                    stats,
                );
                assert(no_volumes(done as nat) + no_volumes(second.len()) =~= no_volumes(run.end as nat));
                assert(motions@.take(run.end as int).len() == first.len() + second.len());
                lemma_mergeable(b, before, first, second);
            } else {
                assert(first + second =~= second);
                lemma_first_merge(b, second);
            }
        }
        total.merge_without_volume(&stats);
        let ghost added = own@;
        volumes.append(&mut own);
        proof {
            done = run.end as int;
            assert(volumes_before.len() == 0 ==> volumes@ =~= added);
        }
        i = i + 1;
    }
    assert(motions@.take(count) =~= motions@);
    proof {
        if runs@.len() == 0 {
            lemma_no_motions(b, motions@, b.rays@.len() as int);
            assert(volumes@ =~= no_volumes(0));
        }
    }
    (volumes, total)
}

fn zeros(n: usize) -> (v: Vec<Double>)
    ensures
        v@ == no_volumes(n as nat),
{
    let mut v: Vec<Double> = Vec::new();
    while v.len() < n
        invariant
            v@.len() <= n,
            v@ == no_volumes(v@.len()),
        decreases n - v@.len(),
    {
        v.push(Double::zeroed());
        assert(v@ =~= no_volumes(v@.len()));
    }
    v
}

/// Visits of the motions to the rays of the first `n` bundles.
pub open spec fn visits(field: Seq<Bundle>, motions: Seq<Vec<MotionSweep>>, n: nat) -> int
    decreases n,
{
    if n == 0 {
        0
    } else {
        visits(field, motions, (n - 1) as nat) + field[n - 1].rays@.len() * motions[n - 1]@.len()
    }
}

/// The statistics of the motions over the first `n` bundles. The volume along an
/// axis is that of the motions, summed once and in their order.
pub open spec fn list_stats(field: Seq<Bundle>, motions: Seq<Vec<MotionSweep>>, n: nat) -> CutStats
    decreases n,
{
    if n == 0 {
        no_stats()
    } else {
        let b = field[n - 1];
        let m = motions[n - 1]@;
        let rays = b.rays@.len() as int;
        counts_merged(list_stats(field, motions, (n - 1) as nat), run_stats(b, m, 0, rays)).with_removed(
            b.axis,
            volume_total(replayed(no_volumes(m.len()), gives(b, m, 0, rays)), m.len()),
        )
    }
}

proof fn lemma_visits(field: Seq<Bundle>, motions: Seq<Vec<MotionSweep>>, n: nat, k: nat)
    requires
        n <= k,
    ensures
        0 <= visits(field, motions, n) <= visits(field, motions, k),
    decreases k,
{
    if k > 0 {
        let a = field[k - 1].rays@.len() as int;
        let b = motions[k - 1]@.len() as int;
        assert(a * b >= 0) by (nonlinear_arith)
            requires
                a >= 0,
                b >= 0,
        ;
        if n < k {
            lemma_visits(field, motions, n, (k - 1) as nat);
        } else {
            lemma_visits(field, motions, (k - 1) as nat, (k - 1) as nat);
        }
    }
}

proof fn lemma_room(s: CutStats, t: CutStats, a: int, b: int)
    requires
        counted(s, a),
        counted(t, b),
        0 <= a,
        0 <= b,
        a + b <= 0xfff_ffff_ffff,
    ensures
        crate::sweep::cut::mergeable(s, t),
        counted(counts_merged(s, t), a + b),
{
}

/// What a list of motions makes of the bundles of a field: what their rays hold,
/// and nothing else is touched.
pub open spec fn field_left(field: Seq<Bundle>, motions: Seq<Vec<MotionSweep>>, after: Seq<Bundle>, n: nat) -> bool {
    forall|k: int|
        0 <= k < n ==> ({
            let b = field[k];
            let a = #[trigger] after[k];
            &&& a.wf()
            &&& a.axis == b.axis
            &&& a.spacing == b.spacing
            &&& a.cell_area == b.cell_area
            &&& a.origins@ == b.origins@
            &&& a.rays@.len() == b.rays@.len()
            &&& forall|i: int| 0 <= i < b.rays@.len() ==> (#[trigger] a.rays@[i])@ == held(b, motions[k]@, i, motions[k]@.len())
        })
}

/// The bundles of two fields stand alike and hold the same material.
pub open spec fn fields_agree(a: Seq<Bundle>, b: Seq<Bundle>) -> bool {
    &&& a.len() == b.len()
    &&& forall|k: int| 0 <= k < a.len() ==> bundles_agree(#[trigger] a[k], b[k])
}

/// Two bundles stand alike and hold the same material.
pub open spec fn bundles_agree(a: Bundle, b: Bundle) -> bool {
    &&& a.axis == b.axis
    &&& a.spacing == b.spacing
    &&& a.cell_area == b.cell_area
    &&& a.origins@ == b.origins@
    &&& a.rays@.len() == b.rays@.len()
    &&& forall|i: int| 0 <= i < a.rays@.len() ==> (#[trigger] a.rays@[i])@ == b.rays@[i]@
}

/// Cuts a list of motions out of every bundle of a field.
pub fn cut_field(field: &mut Vec<Bundle>, motions: &[Vec<MotionSweep>], runs: &[Run]) -> (r: CutStats)
    requires
        old(field)@.len() == motions@.len(),
        visits(old(field)@, motions@, motions@.len()) <= 0xfff_ffff_ffff,
        forall|k: int|
            0 <= k < motions@.len() ==> fitting(#[trigger] old(field)@[k], motions@[k]@) && measurable(
                old(field)@[k],
                motions@[k]@,
            ) && chained(runs@, motions@[k]@.len() as int),
    ensures
        r == list_stats(old(field)@, motions@, motions@.len()),
        final(field)@.len() == old(field)@.len(),
        field_left(old(field)@, motions@, final(field)@, motions@.len()),
{
    let ghost f = field@;
    let mut total: CutStats = CutStats::default();
    let mut k: usize = 0;
    while k < motions.len()
        invariant
            k <= motions@.len(),
            f == old(field)@,
            field@.len() == f.len(),
            f.len() == motions@.len(),
            visits(f, motions@, motions@.len()) <= 0xfff_ffff_ffff,
            forall|k: int|
                0 <= k < motions@.len() ==> fitting(#[trigger] f[k], motions@[k]@) && measurable(f[k], motions@[k]@)
                    && chained(runs@, motions@[k]@.len() as int),
            total == list_stats(f, motions@, k as nat),
            counted(total, visits(f, motions@, k as nat)),
            forall|j: int| k <= j < f.len() ==> #[trigger] field@[j] == f[j],
            field_left(f, motions@, field@, k as nat),
        decreases motions@.len() - k,
    {
        let ghost b = f[k as int];
        let ghost m = motions@[k as int]@;
        proof {
            assert(field@[k as int] == b);
            lemma_visits(f, motions@, k as nat, k as nat);
            lemma_visits(f, motions@, (k + 1) as nat, motions@.len());
            let n = b.rays@.len() as int;
            assert((n - 0) * m.len() == n * m.len());
            law_statistics_join(b, m, 0, n, n);
            lemma_room(
                total,
                run_stats(b, m, 0, n),
                visits(f, motions@, k as nat),
                n * m.len(),
            );
        }
        let axis: Axis = field[k].axis;
        let (volumes, stats) = cut_all(&mut field[k], motions[k].as_slice(), runs);
        total.merge_without_volume(&stats);
        total.add_removed(axis, total_removed(volumes.as_slice()));
        k = k + 1;
    }
    total
}

/// A batch for each run in turn, whoever made it: what each made of the bundle it
/// found, its volumes and its counters.
pub open spec fn batches_done(
    motions: Seq<MotionSweep>,
    runs: Seq<Run>,
    bundles: Seq<Bundle>,
    volumes: Seq<Seq<Double>>,
    stats: Seq<CutStats>,
) -> bool {
    &&& bundles.len() == runs.len() + 1
    &&& volumes.len() == runs.len()
    &&& stats.len() == runs.len()
    &&& forall|i: int|
        0 <= i < runs.len() ==> batch_done(
            bundles[i],
            motions.subrange((#[trigger] runs[i]).start as int, runs[i].end as int),
            no_volumes((runs[i].end - runs[i].start) as nat),
            bundles[i + 1],
            volumes[i],
            stats[i],
        )
}

/// The volumes of the first `n` batches, one behind the other.
pub open spec fn volumes_joined(volumes: Seq<Seq<Double>>, n: nat) -> Seq<Double>
    decreases n,
{
    if n == 0 {
        Seq::empty()
    } else {
        volumes_joined(volumes, (n - 1) as nat) + volumes[n - 1]
    }
}

/// The counters of the first `n` batches, added up.
pub open spec fn stats_joined(stats: Seq<CutStats>, n: nat) -> CutStats
    decreases n,
{
    if n == 0 {
        no_stats()
    } else if n == 1 {
        stats[0]
    } else {
        counts_merged(stats_joined(stats, (n - 1) as nat), stats[n - 1])
    }
}

proof fn lemma_batches_done(
    motions: Seq<MotionSweep>,
    runs: Seq<Run>,
    bundles: Seq<Bundle>,
    volumes: Seq<Seq<Double>>,
    stats: Seq<CutStats>,
    n: nat,
)
    requires
        0 < n <= runs.len(),
        chained(runs, motions.len() as int),
        fitting(bundles[0], motions),
        measurable(bundles[0], motions),
        batches_done(motions, runs, bundles, volumes, stats),
    ensures
        batch_done(
            bundles[0],
            motions.take(runs[n - 1].end as int),
            no_volumes(runs[n - 1].end as nat),
            bundles[n as int],
            volumes_joined(volumes, n),
            stats_joined(stats, n),
        ),
    decreases n,
{
    let b = bundles[0];
    let run = runs[n - 1];
    let end = run.end as int;
    lemma_chained_below(runs, motions.len() as int, n - 1);
    let second = motions.subrange(run.start as int, end);
    if n == 1 {
        assert(second =~= motions.take(end));
        assert(volumes_joined(volumes, 1) =~= volumes[0]) by {
            assert(volumes_joined(volumes, 0) =~= Seq::<Double>::empty());
        }
    } else {
        let m = (n - 1) as nat;
        lemma_batches_done(motions, runs, bundles, volumes, stats, m);
        assert(runs[n - 2].end == runs[n - 1].start);
        let done = run.start as int;
        let first = motions.take(done);
        assert(first + second =~= motions.take(end));
        assert(motions.take(end) =~= motions.subrange(0, end));
        lemma_fitting_part(b, b, motions, 0, end);
        law_batches_join(
            b,
            first,
            second,
            no_volumes(done as nat),
            no_volumes(second.len()),
            bundles[n - 1],
            bundles[n as int],
            volumes_joined(volumes, m),
            volumes[n - 1],
            stats_joined(stats, m),
            stats[n - 1],
        );
        assert(no_volumes(done as nat) + no_volumes(second.len()) =~= no_volumes(end as nat));
    }
}

/// However a list of motions is divided into batches, and however the rays of each
/// batch are shared out among workers, the bundle, the volumes and the counters
/// come out as [`cut_all`] has them.
pub proof fn law_schedule_is_invisible(
    motions: Seq<MotionSweep>,
    runs: Seq<Run>,
    bundles: Seq<Bundle>,
    volumes: Seq<Seq<Double>>,
    stats: Seq<CutStats>,
    after: Bundle,
    all_volumes: Seq<Double>,
    all_stats: CutStats,
)
    requires
        chained(runs, motions.len() as int),
        fitting(bundles[0], motions),
        measurable(bundles[0], motions),
        batches_done(motions, runs, bundles, volumes, stats),
        batch_done(bundles[0], motions, no_volumes(motions.len()), after, all_volumes, all_stats),
    ensures
        bundles_agree(bundles.last(), after),
        volumes_joined(volumes, volumes.len()) == all_volumes,
        stats_joined(stats, stats.len()) == all_stats,
{
    lemma_schedule(motions, runs, bundles, volumes, stats);
    assert forall|r: int| 0 <= r < after.rays@.len() implies (#[trigger] bundles.last().rays@[r])@ == after.rays@[r]@ by {
        assert(after.rays@[r]@ == held(bundles[0], motions, r, motions.len()));
    }
}

/// The batches of all runs come to one batch of all motions.
proof fn lemma_schedule(
    motions: Seq<MotionSweep>,
    runs: Seq<Run>,
    bundles: Seq<Bundle>,
    volumes: Seq<Seq<Double>>,
    stats: Seq<CutStats>,
)
    requires
        chained(runs, motions.len() as int),
        fitting(bundles[0], motions),
        measurable(bundles[0], motions),
        batches_done(motions, runs, bundles, volumes, stats),
    ensures
        batch_done(
            bundles[0],
            motions,
            no_volumes(motions.len()),
            bundles.last(),
            volumes_joined(volumes, volumes.len()),
            stats_joined(stats, stats.len()),
        ),
{
    if runs.len() == 0 {
        lemma_no_motions(bundles[0], motions, bundles[0].rays@.len() as int);
        assert(volumes_joined(volumes, 0) =~= no_volumes(0));
    } else {
        lemma_batches_done(motions, runs, bundles, volumes, stats, runs.len());
        assert(motions.take(motions.len() as int) =~= motions);
    }
}

/// The batches of one bundle: the bundle as each found it and as the last left it,
/// and what each took and counted.
pub struct Batches {
    /// How the motions are divided.
    pub runs: Seq<Run>,
    /// The bundle before each batch and after the last.
    pub bundles: Seq<Bundle>,
    /// The volumes that each batch took.
    pub volumes: Seq<Seq<Double>>,
    /// What each batch counted.
    pub stats: Seq<CutStats>,
}

impl Batches {
    /// The batches are those of the motions on a bundle.
    pub open spec fn cuts(self, b: Bundle, motions: Seq<MotionSweep>) -> bool {
        &&& chained(self.runs, motions.len() as int)
        &&& self.bundles[0] == b
        &&& batches_done(motions, self.runs, self.bundles, self.volumes, self.stats)
    }
}

/// The statistics of a field whose first `n` bundles are cut by schedules: the
/// counters of all batches, and the volumes of all motions in their order.
pub open spec fn schedule_stats(field: Seq<Bundle>, s: Seq<Batches>, n: nat) -> CutStats
    decreases n,
{
    if n == 0 {
        no_stats()
    } else {
        let own = s[n - 1];
        let volumes = volumes_joined(own.volumes, own.volumes.len());
        counts_merged(schedule_stats(field, s, (n - 1) as nat), stats_joined(own.stats, own.stats.len())).with_removed(
            field[n - 1].axis,
            volume_total(volumes, volumes.len()),
        )
    }
}

proof fn lemma_schedule_stats(field: Seq<Bundle>, motions: Seq<Vec<MotionSweep>>, s: Seq<Batches>, n: nat)
    requires
        n <= field.len(),
        field.len() == motions.len(),
        field.len() == s.len(),
        forall|k: int|
            0 <= k < field.len() ==> fitting(#[trigger] field[k], motions[k]@) && measurable(field[k], motions[k]@)
                && s[k].cuts(field[k], motions[k]@),
    ensures
        schedule_stats(field, s, n) == list_stats(field, motions, n),
    decreases n,
{
    if n > 0 {
        lemma_schedule_stats(field, motions, s, (n - 1) as nat);
        let own = s[n - 1];
        let b = field[n - 1];
        let m = motions[n - 1]@;
        assert(fitting(b, m) && measurable(b, m) && own.cuts(b, m));
        lemma_schedule(m, own.runs, own.bundles, own.volumes, own.stats);
        lemma_volume_count(no_volumes(m.len()), b, m, b.rays@.len() as int);
    }
}

/// Over a whole field, too, the schedule is invisible: however the motions are
/// divided on each bundle and its rays shared out among workers, the field and
/// every statistic come out as [`cut_field`] has them.
pub proof fn law_field_schedule_is_invisible(
    field: Seq<Bundle>,
    motions: Seq<Vec<MotionSweep>>,
    s: Seq<Batches>,
    after: Seq<Bundle>,
)
    requires
        field.len() == motions.len(),
        field.len() == s.len(),
        field.len() == after.len(),
        forall|k: int|
            0 <= k < field.len() ==> fitting(#[trigger] field[k], motions[k]@) && measurable(field[k], motions[k]@)
                && s[k].cuts(field[k], motions[k]@),
        field_left(field, motions, after, motions.len()),
    ensures
        fields_agree(Seq::new(s.len(), |k: int| s[k].bundles.last()), after),
        schedule_stats(field, s, s.len()) == list_stats(field, motions, motions.len()),
{
    let ends = Seq::new(s.len(), |k: int| s[k].bundles.last());
    assert forall|k: int| 0 <= k < ends.len() implies bundles_agree(#[trigger] ends[k], after[k]) by {
        let b = field[k];
        let m = motions[k]@;
        assert(fitting(b, m) && measurable(b, m) && s[k].cuts(b, m));
        lemma_schedule(m, s[k].runs, s[k].bundles, s[k].volumes, s[k].stats);
        assert(after[k].axis == b.axis);
        assert forall|i: int| 0 <= i < ends[k].rays@.len() implies (#[trigger] ends[k].rays@[i])@ == after[k].rays@[i]@ by {
            assert(after[k].rays@[i]@ == held(b, m, i, m.len()));
        }
    }
    lemma_schedule_stats(field, motions, s, s.len());
}

/// How a list of motions is divided cannot be told from what cutting it makes of a
/// field: the material is the same.
pub proof fn law_batch_size_is_invisible(
    field: Seq<Bundle>,
    motions: Seq<Vec<MotionSweep>>,
    one: Seq<Bundle>,
    other: Seq<Bundle>,
)
    requires
        field.len() == motions.len(),
        one.len() == field.len(),
        other.len() == field.len(),
        field_left(field, motions, one, motions.len()),
        field_left(field, motions, other, motions.len()),
    ensures
        fields_agree(one, other),
{
    assert forall|k: int| 0 <= k < one.len() implies bundles_agree(#[trigger] one[k], other[k]) by {
        assert(other[k].axis == field[k].axis);
        assert forall|i: int| 0 <= i < one[k].rays@.len() implies (#[trigger] one[k].rays@[i])@ == other[k].rays@[i]@ by {
            assert(other[k].rays@[i]@ == held(field[k], motions[k]@, i, motions[k]@.len()));
        }
    }
}

} // verus!
