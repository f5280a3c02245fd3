//! Cutting several motions in one traversal of the rays.
//!
//! Each ray takes its motions in order and rays do not interact, so the field is
//! the same however the traversal is divided. What a motion removes is recorded
//! ray by ray and summed in ascending order of the rays, so that the sums are the
//! same too.

use crate::arithmetic::sum;
use crate::double::Double;
use crate::math::{box_union, Aabb3};
use crate::span_laws::{law_outcome_is_the_result, outcome};
use crate::spans::{SetOp, Span, Spans};
use crate::sweep::arc::Motion;
use crate::sweep::cut::{
    are_same, cast_stats, closed_form, counted, is_exact, no_stats, passes, same_spans, tally_cast, transverse_overlaps,
    volume, Bundle, CutStats, StepPlan, Swept,
};
use crate::sweep::reference::MAX_SUBSTEPS;
use vstd::prelude::*;

verus! {

/// Default number of motions to a batch.
pub const DEFAULT_BATCH: usize = 32;

/// A motion over a bundle: its box, its plan and what it covers of each ray.
#[derive(Debug)]
pub struct MotionSweep {
    /// The box of the swept tool.
    pub bounds: Aabb3,
    /// How it is sub-stepped.
    pub plan: StepPlan,
    /// What the tool covers of each ray.
    pub swept: Vec<Swept>,
}

/// What one ray gives to the volume that one motion removes.
#[derive(Clone, Copy, Debug, PartialEq, Eq, Structural)]
pub struct Contribution {
    /// The motion.
    pub motion: u32,
    /// The volume.
    pub value: Double,
}

/// Half-open range of motions.
#[derive(Clone, Copy, Debug, PartialEq, Eq, Structural)]
pub struct Run {
    /// The first motion.
    pub start: usize,
    /// One past the last motion.
    pub end: usize,
}

/// Motions `i` to `j` can share a batch: one tool, and all exact or none.
pub open spec fn alike(motions: Seq<Motion>, tools: Seq<u32>, i: int, j: int) -> bool {
    tools[i] == tools[j] && closed_form(motions[i]) == closed_form(motions[j])
}

/// `r` is the longest run from its start: of at most `size` motions that can
/// share a batch with the first.
pub open spec fn longest_run(motions: Seq<Motion>, tools: Seq<u32>, size: int, r: Run) -> bool {
    &&& r.start < r.end <= motions.len()
    &&& r.end - r.start <= size
    &&& forall|k: int| r.start <= k < r.end ==> #[trigger] alike(motions, tools, r.start as int, k)
    &&& r.end == motions.len() || r.end - r.start == size || !alike(motions, tools, r.start as int, r.end as int)
}

/// Splits motions into runs of at most `size` that share a tool and a kind: each
/// the longest from where the one before it ends.
pub fn split_runs(motions: &[Motion], tools: &[u32], size: usize) -> (v: Vec<Run>)
    requires
        motions@.len() == tools@.len(),
    ensures
        forall|i: int|
            0 <= i < v@.len() ==> longest_run(
                motions@,
                tools@,
                if size < 1 {
                    1
                } else {
                    size as int
                },
                #[trigger] v@[i],
            ),
        forall|i: int, j: int| 0 <= i && j == i + 1 && j < v@.len() ==> (#[trigger] v@[i]).end == (#[trigger] v@[j]).start,
        motions@.len() == 0 <==> v@.len() == 0,
        v@.len() > 0 ==> v@[0].start == 0 && v@.last().end == motions@.len(),
{
    let size: usize = if size < 1 { 1 } else { size };
    let mut v: Vec<Run> = Vec::new();
    let mut start: usize = 0;
    while start < motions.len()
        invariant
            size >= 1,
            start <= motions@.len(),
            motions@.len() == tools@.len(),
            forall|i: int| 0 <= i < v@.len() ==> longest_run(motions@, tools@, size as int, #[trigger] v@[i]),
            forall|i: int, j: int|
                0 <= i && j == i + 1 && j < v@.len() ==> (#[trigger] v@[i]).end == (#[trigger] v@[j]).start,
            start == 0 <==> v@.len() == 0,
            v@.len() > 0 ==> v@[0].start == 0 && v@.last().end == start,
        decreases motions@.len() - start,
    {
        let tool: u32 = tools[start];
        let exact: bool = is_exact(&motions[start]);
        let limit: usize = if motions.len() - start < size { motions.len() } else { start + size };
        let mut end: usize = start + 1;
        while end < limit && tools[end] == tool && is_exact(&motions[end]) == exact
            invariant
                start < end <= limit <= motions@.len(),
                limit - start <= size,
                motions@.len() == tools@.len(),
                tool == tools@[start as int],
                exact == closed_form(motions@[start as int]),
                forall|k: int| start <= k < end ==> #[trigger] alike(motions@, tools@, start as int, k),
            decreases limit - end,
        {
            end = end + 1;
        }
        proof {
            if end < limit {
                assert(!alike(motions@, tools@, start as int, end as int));
            }
        }
        v.push(Run { start, end });
        start = end;
    }
    v
}

/// The box around the first `n` boxes.
pub open spec fn boxes_united(motions: Seq<MotionSweep>, n: nat) -> Aabb3
    decreases n,
{
    if n <= 1 {
        motions[0].bounds
    } else {
        box_union(boxes_united(motions, (n - 1) as nat), motions[n - 1].bounds)
    }
}

/// A motion can reach a ray: its box can, and so can the box around all.
pub open spec fn reached(b: Bundle, motions: Seq<MotionSweep>, r: int, m: int) -> bool {
    passes(boxes_united(motions, motions.len()), b.axis, b.origins@[r], b.spacing) && passes(
        motions[m].bounds,
        b.axis,
        b.origins@[r],
        b.spacing,
    )
}

/// What the tool covers of a ray makes a difference to its material: it covers
/// something, and it takes volume or leaves other spans.
pub open spec fn cutting(before: Seq<Span>, covered: Seq<Span>, area: Double) -> bool {
    let after = outcome(SetOp::Difference, before, covered);
    covered.len() > 0 && !(volume(before, after, area).same(Double { bits: 0 }) && same_spans(after, before))
}

/// What a ray holds after the first `m` motions.
pub open spec fn held(b: Bundle, motions: Seq<MotionSweep>, r: int, m: nat) -> Seq<Span>
    decreases m,
{
    if m == 0 {
        b.rays@[r]@
    } else {
        let before = held(b, motions, r, (m - 1) as nat);
        let covered = motions[m - 1].swept@[r].spans@;
        if visited(b, motions, r, m - 1, before) && cutting(before, covered, b.cell_area) {
            outcome(SetOp::Difference, before, covered)
        } else {
            before
        }
    }
}

/// A motion is tried on a ray that holds `before`.
pub open spec fn visited(b: Bundle, motions: Seq<MotionSweep>, r: int, m: int, before: Seq<Span>) -> bool {
    reached(b, motions, r, m) && before.len() > 0
}

/// The volume that motion `m` takes from a ray.
pub open spec fn taken(b: Bundle, motions: Seq<MotionSweep>, r: int, m: int) -> Double {
    let before = held(b, motions, r, m as nat);
    volume(before, outcome(SetOp::Difference, before, motions[m].swept@[r].spans@), b.cell_area)
}

/// Motion `m` takes a positive volume from a ray.
pub open spec fn removes(b: Bundle, motions: Seq<MotionSweep>, r: int, m: int) -> bool {
    let before = held(b, motions, r, m as nat);
    &&& visited(b, motions, r, m, before)
    &&& cutting(before, motions[m].swept@[r].spans@, b.cell_area)
    &&& (Double { bits: 0 }).lt(taken(b, motions, r, m))
}

/// What motion `m` on a ray adds to the statistics.
pub open spec fn visit_stats(s: CutStats, b: Bundle, motions: Seq<MotionSweep>, r: int, m: int) -> CutStats {
    if !visited(b, motions, r, m, held(b, motions, r, m as nat)) {
        CutStats { rays_rejected: (s.rays_rejected + 1) as u64, ..s }
    } else {
        let t = cast_stats(s, motions[m].plan, motions[m].swept@[r].exact);
        if removes(b, motions, r, m) {
            CutStats { rays_changed: (t.rays_changed + 1) as u64, ..t }
        } else {
            t
        }
    }
}

/// What the first `m` motions on a ray add to the statistics.
pub open spec fn ray_run(s: CutStats, b: Bundle, motions: Seq<MotionSweep>, r: int, m: nat) -> CutStats
    decreases m,
{
    if m == 0 {
        s
    } else {
        visit_stats(ray_run(s, b, motions, r, (m - 1) as nat), b, motions, r, m - 1)
    }
}

/// The statistics, but for volumes, of the motions on rays `from` to `to`.
pub open spec fn run_stats(b: Bundle, motions: Seq<MotionSweep>, from: int, to: int) -> CutStats
    decreases to - from,
{
    if to <= from {
        no_stats()
    } else {
        ray_run(run_stats(b, motions, from, to - 1), b, motions, to - 1, motions.len())
    }
}

/// What a ray gives to the volumes of the first `m` motions.
pub open spec fn ray_gives(b: Bundle, motions: Seq<MotionSweep>, r: int, m: nat) -> Seq<Contribution>
    decreases m,
{
    if m == 0 {
        Seq::empty()
    } else {
        let rest = ray_gives(b, motions, r, (m - 1) as nat);
        if removes(b, motions, r, m - 1) {
            rest.push(Contribution { motion: (m - 1) as u32, value: taken(b, motions, r, m - 1) })
        } else {
            rest
        }
    }
}

/// What rays `from` to `to` give, in ascending order.
pub open spec fn gives(b: Bundle, motions: Seq<MotionSweep>, from: int, to: int) -> Seq<Contribution>
    decreases to - from,
{
    if to <= from {
        Seq::empty()
    } else {
        gives(b, motions, from, to - 1) + ray_gives(b, motions, to - 1, motions.len())
    }
}

/// The volumes of the motions, after contributions have been added in order.
pub open spec fn replayed(removed: Seq<Double>, c: Seq<Contribution>) -> Seq<Double>
    decreases c.len(),
{
    if c.len() == 0 {
        removed
    } else {
        let v = replayed(removed, c.drop_last());
        v.update(c.last().motion as int, sum(v[c.last().motion as int], c.last().value))
    }
}

/// No motion has more steps than a plan can have.
pub open spec fn planned(motions: Seq<MotionSweep>) -> bool {
    forall|m: int| 0 <= m < motions.len() ==> (#[trigger] motions[m]).plan.steps <= MAX_SUBSTEPS
}

/// One batch fits: intervals for every ray, plans within their limit, and counters
/// that hold every visit.
pub open spec fn fitting(b: Bundle, motions: Seq<MotionSweep>) -> bool {
    &&& b.wf()
    &&& b.rays@.len() * motions.len() <= 0xfff_ffff_ffff
    &&& motions.len() <= u32::MAX
    &&& planned(motions)
    &&& forall|m: int| 0 <= m < motions.len() ==> (#[trigger] motions[m]).swept@.len() == b.rays@.len()
    &&& forall|m: int, r: int|
        0 <= m < motions.len() && 0 <= r < b.rays@.len() ==> (#[trigger] motions[m].swept@[r]).spans.wf()
}

/// What one chunk of rays produced.
#[derive(Debug)]
pub struct ChunkResult {
    /// First ray of the chunk.
    pub start: u32,
    /// What its rays hold.
    pub rays: Vec<Spans>,
    /// The volumes removed, by ray and then by motion.
    pub contributions: Vec<Contribution>,
    /// The counters.
    pub stats: CutStats,
}

/// `c` is what the motions make of rays `from` to `to`.
pub open spec fn is_chunk(c: ChunkResult, b: Bundle, motions: Seq<MotionSweep>, from: int, to: int) -> bool {
    &&& c.start == from
    &&& c.rays@.len() == to - from
    &&& forall|i: int|
        0 <= i < to - from ==> (#[trigger] c.rays@[i])@ == held(b, motions, from + i, motions.len()) && c.rays@[i].wf()
    &&& c.contributions@ == gives(b, motions, from, to)
    &&& c.stats == run_stats(b, motions, from, to)
    &&& counted(c.stats, (to - from) * motions.len())
}

/// The box around all boxes.
fn unite(motions: &[MotionSweep]) -> (r: Aabb3)
    requires
        motions@.len() > 0,
    ensures
        r == boxes_united(motions@, motions@.len()),
{
    let mut r: Aabb3 = motions[0].bounds;
    let mut i: usize = 1;
    while i < motions.len()
        invariant
            1 <= i <= motions@.len(),
            r == boxes_united(motions@, i as nat),
        decreases motions@.len() - i,
    {
        r = r.union(&motions[i].bounds);
        i = i + 1;
    }
    r
}

/// Takes the motions to one ray, without writing to the bundle.
fn run_ray(
    b: &Bundle,
    motions: &[MotionSweep],
    union: &Aabb3,
    r: usize,
    stats: &mut CutStats,
    given: &mut Vec<Contribution>,
    Ghost(n): Ghost<int>,
) -> (material: Spans)
    requires
        fitting(*b, motions@),
        *union == boxes_united(motions@, motions@.len()),
        r < b.rays@.len(),
        0 <= n,
        n + motions@.len() <= 0xfff_ffff_ffff,
        counted(*old(stats), n),
    ensures
        material@ == held(*b, motions@, r as int, motions@.len()),
        material.wf(),
        *final(stats) == ray_run(*old(stats), *b, motions@, r as int, motions@.len()),
        counted(*final(stats), n + motions@.len()),
        final(given)@ == old(given)@ + ray_gives(*b, motions@, r as int, motions@.len()),
{
    let ghost s0 = *stats;
    let ghost g0 = given@;
    let near: bool = transverse_overlaps(union, b.axis, b.origins[r], b.spacing);
    let mut material: Spans = b.rays[r].clone();
    let mut m: usize = 0;
    proof {
        assert(b.rays@[r as int].wf());
        assert(g0 =~= g0 + ray_gives(*b, motions@, r as int, 0));
    }
    while m < motions.len()
        invariant
            m <= motions@.len(),
            fitting(*b, motions@),
            r < b.rays@.len(),
            near == passes(boxes_united(motions@, motions@.len()), b.axis, b.origins@[r as int], b.spacing),
            material@ == held(*b, motions@, r as int, m as nat),
            material.wf(),
            0 <= n,
            n + motions@.len() <= 0xfff_ffff_ffff,
            *stats == ray_run(s0, *b, motions@, r as int, m as nat),
            counted(*stats, n + m),
            given@ == g0 + ray_gives(*b, motions@, r as int, m as nat),
        decreases motions@.len() - m,
    {
        proof {
            assert((n + m + 1) * 0x10_0000 == (n + m) * 0x10_0000 + 0x10_0000);
            assert(motions@[m as int].plan.steps <= MAX_SUBSTEPS);
            assert(motions@[m as int].swept@[r as int].spans.wf());
        }
        if !near || !transverse_overlaps(&motions[m].bounds, b.axis, b.origins[r], b.spacing) || material.is_empty() {
            stats.rays_rejected = stats.rays_rejected + 1;
        } else {
            let swept: &Swept = &motions[m].swept[r];
            tally_cast(stats, &motions[m].plan, swept.exact, Ghost(n + m), Ghost(0x10_0000));
            if !swept.spans.is_empty() {
                let next: Spans = material.subtract(&swept.spans);
                proof {
                    law_outcome_is_the_result(SetOp::Difference, material@, swept.spans@, next@);
                }
                let cut: Double = material.measure().minus(next.measure()).times(b.cell_area);
                if !(cut.equals(Double::zeroed()) && are_same(&next, &material)) {
                    material = next;
                    if Double::zeroed().less(cut) {
                        stats.rays_changed = stats.rays_changed + 1;
                        let ghost was = given@;
                        given.push(Contribution { motion: m as u32, value: cut });
                        proof {
                            assert(given@ =~= g0 + ray_gives(*b, motions@, r as int, m as nat).push(
                                Contribution { motion: m as u32, value: cut },
                            ));
                        }
                    }
                }
            }
        }
        m = m + 1;
    }
    material
}

/// One chunk of rays, against every motion of the run.
pub fn run_chunk(b: &Bundle, motions: &[MotionSweep], from: u32, to: u32) -> (c: ChunkResult)
    requires
        fitting(*b, motions@),
        motions@.len() > 0,
        from <= to <= b.rays@.len(),
    ensures
        is_chunk(c, *b, motions@, from as int, to as int),
{
    let union: Aabb3 = unite(motions);
    let mut stats: CutStats = CutStats::default();
    let mut rays: Vec<Spans> = Vec::new();
    let mut contributions: Vec<Contribution> = Vec::new();
    let mut r: u32 = from;
    while r < to
        invariant
            from <= r <= to <= b.rays@.len(),
            fitting(*b, motions@),
            union == boxes_united(motions@, motions@.len()),
            rays@.len() == r - from,
            forall|i: int|
                0 <= i < r - from ==> (#[trigger] rays@[i])@ == held(*b, motions@, from + i, motions@.len())
                    && rays@[i].wf(),
            contributions@ == gives(*b, motions@, from as int, r as int),
            stats == run_stats(*b, motions@, from as int, r as int),
            counted(stats, (r - from) * motions@.len()),
        decreases to - r,
    {
        let ghost n = (r - from) * motions@.len();
        proof {
            let k = motions@.len() as int;
            let a = b.rays@.len() as int;
            assert(n + k == (r + 1 - from) * k && n >= 0 && n + k <= a * k) by (nonlinear_arith)
                requires
                    n == (r - from) * k,
                    0 <= from <= r < a,
                    k >= 0,
            ;
        }
        let material: Spans = run_ray(b, motions, &union, r as usize, &mut stats, &mut contributions, Ghost(n));
        rays.push(material);
        r = r + 1;
    }
    ChunkResult { start: from, rays, contributions, stats }
}

/// The volumes of the first `n` motions added up in order.
pub open spec fn volume_total(removed: Seq<Double>, n: nat) -> Double
    decreases n,
{
    if n == 0 {
        Double { bits: 0 }
    } else {
        sum(volume_total(removed, (n - 1) as nat), removed[n - 1])
    }
}

/// The volume that all motions removed, summed once and in the order of the
/// motions, so that it does not depend on how they were batched.
pub fn total_removed(removed: &[Double]) -> (r: Double)
    ensures
        r == volume_total(removed@, removed@.len()),
{
    let mut r: Double = Double::zeroed();
    let mut i: usize = 0;
    while i < removed.len()
        invariant
            i <= removed@.len(),
            r == volume_total(removed@, i as nat),
        decreases removed@.len() - i,
    {
        r = r.plus(removed[i]);
        i = i + 1;
    }
    r
}

} // verus!
