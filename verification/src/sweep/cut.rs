//! Applying a swept volume to a bundle of parallel rays.
//!
//! Rays are independent of each other. The statistics accumulate over them in
//! ascending order, because a sum of doubles depends on its order.

use crate::arithmetic::{difference, product, quotient, sum};
use crate::double::Double;
use crate::math::{greater, max_number, vector_length, Aabb3, Axis, Vec3};
use crate::span_laws::{law_outcome_is_the_result, outcome};
use crate::spans::{total_length, SetOp, Span, Spans};
use crate::sweep::arc::Motion;
use crate::sweep::reference::{half_step, joined, steps_along, steps_for, substeps, union_all, usable};
use crate::sweep::SweepCase;
use vstd::prelude::*;

verus! {

/// How a swept volume should be computed.
#[derive(Clone, Copy, Debug, PartialEq, Eq, Structural)]
pub enum SweepMethod {
    /// Dense sub-stepping with a fixed step count.
    Reference {
        /// Sub-steps of each motion.
        steps: u32,
    },
    /// Closed form where one exists, bounded sub-stepping otherwise.
    Analytic {
        /// Deviation tolerance for the moves that need sub-stepping.
        tolerance: Double,
    },
    /// Sub-stepping refined until the deviation falls under a tolerance.
    Bounded {
        /// Greatest deviation.
        tolerance: Double,
    },
}

/// The motion has a closed form whatever the tool and the ray.
pub open spec fn closed_form(motion: Motion) -> bool {
    match motion {
        Motion::Linear(m) => m.kind() == SweepCase::Stationary || m.kind() == SweepCase::Horizontal,
        Motion::Arc(a) => !a.rising(),
    }
}

/// True if the motion has a closed form whatever the tool and the ray.
pub fn is_exact(motion: &Motion) -> (r: bool)
    ensures
        r == closed_form(*motion),
{
    match motion {
        Motion::Linear(m) => {
            let case: SweepCase = m.case();
            case == SweepCase::Stationary || case == SweepCase::Horizontal
        },
        Motion::Arc(a) => !a.is_helix(),
    }
}

/// The length of the path of a motion.
pub open spec fn length_of(motion: Motion) -> Double {
    match motion {
        Motion::Linear(m) => vector_length(m.step()),
        Motion::Arc(a) => a.helical_length(),
    }
}

/// The steps that bring a motion under a tolerance: one, where it goes nowhere.
pub open spec fn bounded_steps(motion: Motion, tolerance: Double) -> int {
    if length_of(motion).le(Double { bits: 0 }) {
        1
    } else {
        steps_for(length_of(motion), tolerance)
    }
}

/// How far `n` steps may lie from a motion.
pub open spec fn deviation_of(motion: Motion, n: int, sine: Double) -> Double {
    match motion {
        Motion::Linear(m) => half_step(vector_length(m.step()), n),
        Motion::Arc(a) => a.deviation(n, sine),
    }
}

impl SweepMethod {
    /// The steps that a method plans for a motion; none, where it is exact.
    pub open spec fn planned(self, motion: Motion) -> int {
        match self {
            SweepMethod::Reference { steps } => if steps < 1 {
                1
            } else {
                steps as int
            },
            SweepMethod::Bounded { tolerance } => bounded_steps(motion, tolerance),
            SweepMethod::Analytic { tolerance } => if closed_form(motion) {
                0
            } else {
                bounded_steps(motion, tolerance)
            },
        }
    }

    /// The plan of a method for a motion. A motion that goes nowhere has no
    /// deviation once its steps follow from a tolerance.
    pub open spec fn plan_of(self, motion: Motion, sine: Double) -> StepPlan {
        let n = self.planned(motion);
        let none = Double { bits: 0 };
        StepPlan {
            steps: n as u32,
            bound: if n == 0 {
                none
            } else if !(self is Reference) && length_of(motion).le(none) {
                none
            } else {
                deviation_of(motion, n, sine)
            },
        }
    }

    /// A method whose tolerance, if it has one, can be met.
    pub open spec fn feasible(self) -> bool {
        match self {
            SweepMethod::Reference { .. } => true,
            SweepMethod::Bounded { tolerance } => usable(tolerance),
            SweepMethod::Analytic { tolerance } => usable(tolerance),
        }
    }

    /// The steps planned for one motion.
    pub fn steps(self, motion: &Motion) -> (n: u32)
        requires
            self.feasible(),
        ensures
            n == self.planned(*motion),
    {
        match self {
            SweepMethod::Reference { steps } => if steps < 1 {
                1
            } else {
                steps
            },
            SweepMethod::Bounded { tolerance } => steps_of(motion, tolerance),
            SweepMethod::Analytic { tolerance } => if is_exact(motion) {
                0
            } else {
                steps_of(motion, tolerance)
            },
        }
    }

    /// Steps and the deviation they leave, for one motion. `sine` is read for an
    /// arc only: the sine of [`ArcMove::quarter_step`] for the planned steps.
    pub fn plan(self, motion: &Motion, sine: Double) -> (r: StepPlan)
        requires
            self.feasible(),
        ensures
            r == self.plan_of(*motion, sine),
    {
        let n: u32 = self.steps(motion);
        if n == 0 {
            return StepPlan { steps: 0, bound: Double::zeroed() };
        }
        let fixed: bool = matches!(self, SweepMethod::Reference { .. });
        let length: Double = path_of(motion);
        if !fixed && length.at_most(Double::zeroed()) {
            return StepPlan { steps: n, bound: Double::zeroed() };
        }
        let bound: Double = match motion {
            Motion::Linear(_) => {
                let two: Double = Double::from_bits(0x4000_0000_0000_0000);
                length.over(two.times(Double::from_i64(n as i64)))
            },
            Motion::Arc(a) => a.deviation_bound(n, sine),
        };
        StepPlan { steps: n, bound }
    }
}

fn path_of(motion: &Motion) -> (r: Double)
    ensures
        r == length_of(*motion),
{
    match motion {
        Motion::Linear(m) => m.delta().length(),
        Motion::Arc(a) => a.path_length(),
    }
}

fn steps_of(motion: &Motion, tolerance: Double) -> (n: u32)
    requires
        usable(tolerance),
    ensures
        n == bounded_steps(*motion, tolerance),
        n >= 1,
{
    let length: Double = path_of(motion);
    if length.at_most(Double::zeroed()) {
        1
    } else {
        steps_along(length, tolerance)
    }
}

/// How the intervals that a motion covers of a ray are to be found.
#[derive(Clone, Copy, Debug, PartialEq, Eq, Structural)]
pub enum Route {
    /// By the closed form of a level arc, where tool and ray allow it; else by
    /// sub-steps.
    LevelArc,
    /// By the closed form of a level move.
    Prism,
    /// By the tool at rest.
    Static,
    /// By the closed form of a plunge, where tool and ray allow it; else by
    /// sub-steps.
    Plunge,
    /// By sub-steps.
    Steps,
}

/// The route of a motion under a method.
pub open spec fn route_of(method: SweepMethod, motion: Motion) -> Route {
    if !(method is Analytic) {
        Route::Steps
    } else {
        match motion {
            Motion::Arc(a) => if a.rising() {
                Route::Steps
            } else {
                Route::LevelArc
            },
            Motion::Linear(m) => match m.kind() {
                SweepCase::Horizontal => Route::Prism,
                SweepCase::Stationary => Route::Static,
                SweepCase::Plunge => Route::Plunge,
                SweepCase::Ramp => Route::Steps,
            },
        }
    }
}

/// Which route to take for a motion.
pub fn route(method: SweepMethod, motion: &Motion) -> (r: Route)
    ensures
        r == route_of(method, *motion),
{
    if !matches!(method, SweepMethod::Analytic { .. }) {
        return Route::Steps;
    }
    match motion {
        Motion::Arc(a) => if a.is_helix() {
            Route::Steps
        } else {
            Route::LevelArc
        },
        Motion::Linear(m) => match m.case() {
            SweepCase::Horizontal => Route::Prism,
            SweepCase::Stationary => Route::Static,
            SweepCase::Plunge => Route::Plunge,
            SweepCase::Ramp => Route::Steps,
        },
    }
}

/// A bundle of parallel rays of material.
#[derive(Debug)]
pub struct Bundle {
    /// The axis that the rays run along.
    pub axis: Axis,
    /// The distance between neighbouring rays.
    pub spacing: Double,
    /// The area that a ray stands for.
    pub cell_area: Double,
    /// Where each ray starts.
    pub origins: Vec<Vec3>,
    /// The material along each ray.
    pub rays: Vec<Spans>,
}

impl Bundle {
    /// A material list for each ray, all of them well formed.
    pub open spec fn wf(self) -> bool {
        &&& self.origins@.len() == self.rays@.len()
        &&& self.rays@.len() <= u32::MAX
        &&& forall|i: int| 0 <= i < self.rays@.len() ==> (#[trigger] self.rays@[i]).wf()
    }
}

/// What the tool covers of one ray on its way.
#[derive(Debug)]
pub struct Swept {
    /// True if the intervals come of a closed form, false if of sub-steps.
    pub exact: bool,
    /// The intervals.
    pub spans: Spans,
}

/// How a motion is to be sub-stepped, where it is.
#[derive(Clone, Copy, Debug, PartialEq, Eq, Hash, Structural)]
pub struct StepPlan {
    /// The steps.
    pub steps: u32,
    /// How far the steps may lie from the motion.
    pub bound: Double,
}

/// What a cut did.
#[derive(Clone, Copy, Debug, PartialEq, Eq, Structural)]
pub struct CutStats {
    /// Rays examined after the box rejection.
    pub rays_tested: u64,
    /// Rays that were skipped.
    pub rays_rejected: u64,
    /// Rays whose material changed.
    pub rays_changed: u64,
    /// Material removed along x.
    pub removed_x: Double,
    /// Material removed along y.
    pub removed_y: Double,
    /// Material removed along z.
    pub removed_z: Double,
    /// Sub-steps used.
    pub substeps: u64,
    /// Rays whose swept volume was computed in closed form.
    pub rays_exact: u64,
    /// Rays whose swept volume was sub-stepped.
    pub rays_substepped: u64,
    /// Worst deviation bound among the rays that were not exact.
    pub worst_bound_mm: Double,
}

/// Nothing done.
pub open spec fn no_stats() -> CutStats {
    let zero = Double { bits: 0 };
    CutStats {
        rays_tested: 0,
        rays_rejected: 0,
        rays_changed: 0,
        removed_x: zero,
        removed_y: zero,
        removed_z: zero,
        substeps: 0,
        rays_exact: 0,
        rays_substepped: 0,
        worst_bound_mm: zero,
    }
}

impl Default for CutStats {
    fn default() -> (r: Self)
        ensures
            r == no_stats(),
    {
        let zero: Double = Double::zeroed();
        CutStats {
            rays_tested: 0,
            rays_rejected: 0,
            rays_changed: 0,
            removed_x: zero,
            removed_y: zero,
            removed_z: zero,
            substeps: 0,
            rays_exact: 0,
            rays_substepped: 0,
            worst_bound_mm: zero,
        }
    }
}

/// The statistics of two cuts together.
pub open spec fn merged(a: CutStats, b: CutStats) -> CutStats {
    CutStats {
        rays_tested: (a.rays_tested + b.rays_tested) as u64,
        rays_rejected: (a.rays_rejected + b.rays_rejected) as u64,
        rays_changed: (a.rays_changed + b.rays_changed) as u64,
        removed_x: sum(a.removed_x, b.removed_x),
        removed_y: sum(a.removed_y, b.removed_y),
        removed_z: sum(a.removed_z, b.removed_z),
        substeps: (a.substeps + b.substeps) as u64,
        rays_exact: (a.rays_exact + b.rays_exact) as u64,
        rays_substepped: (a.rays_substepped + b.rays_substepped) as u64,
        worst_bound_mm: greater(a.worst_bound_mm, b.worst_bound_mm),
    }
}

/// The counters of two cuts fit together.
pub open spec fn mergeable(a: CutStats, b: CutStats) -> bool {
    &&& a.rays_tested + b.rays_tested <= u64::MAX
    &&& a.rays_rejected + b.rays_rejected <= u64::MAX
    &&& a.rays_changed + b.rays_changed <= u64::MAX
    &&& a.substeps + b.substeps <= u64::MAX
    &&& a.rays_exact + b.rays_exact <= u64::MAX
    &&& a.rays_substepped + b.rays_substepped <= u64::MAX
}

impl CutStats {
    /// Material removed along an axis.
    pub open spec fn removed(self, axis: Axis) -> Double {
        match axis {
            Axis::X => self.removed_x,
            Axis::Y => self.removed_y,
            Axis::Z => self.removed_z,
        }
    }

    /// The statistics with more material removed along an axis.
    pub open spec fn with_removed(self, axis: Axis, v: Double) -> CutStats {
        match axis {
            Axis::X => CutStats { removed_x: sum(self.removed_x, v), ..self },
            Axis::Y => CutStats { removed_y: sum(self.removed_y, v), ..self },
            Axis::Z => CutStats { removed_z: sum(self.removed_z, v), ..self },
        }
    }

    /// Material removed along each axis, in cubic millimetres.
    pub fn removed_mm3(&self) -> (r: [Double; 3])
        ensures
            r@ == seq![self.removed_x, self.removed_y, self.removed_z],
    {
        [self.removed_x, self.removed_y, self.removed_z]
    }

    pub(crate) fn add_removed(&mut self, axis: Axis, v: Double)
        ensures
            *final(self) == old(self).with_removed(axis, v),
    {
        match axis {
            Axis::X => {
                self.removed_x = self.removed_x.plus(v);
            },
            Axis::Y => {
                self.removed_y = self.removed_y.plus(v);
            },
            Axis::Z => {
                self.removed_z = self.removed_z.plus(v);
            },
        }
    }

    /// Fraction of the rays that were skipped.
    pub fn rejection_rate(&self) -> (r: Double)
        requires
            self.rays_tested + self.rays_rejected <= u64::MAX,
        ensures
            r == if self.rays_tested + self.rays_rejected == 0 {
                Double { bits: 0 }
            } else {
                quotient(
                    crate::arithmetic::of_int(self.rays_rejected as int),
                    crate::arithmetic::of_int(self.rays_tested + self.rays_rejected),
                )
            },
    {
        let total: u64 = self.rays_tested + self.rays_rejected;
        if total == 0 {
            Double::zeroed()
        } else {
            Double::from_u64(self.rays_rejected).over(Double::from_u64(total))
        }
    }

    /// Adds another cut's statistics.
    pub fn merge(&mut self, other: &CutStats)
        requires
            mergeable(*old(self), *other),
        ensures
            *final(self) == merged(*old(self), *other),
    {
        self.rays_tested = self.rays_tested + other.rays_tested;
        self.rays_rejected = self.rays_rejected + other.rays_rejected;
        self.rays_changed = self.rays_changed + other.rays_changed;
        self.removed_x = self.removed_x.plus(other.removed_x);
        self.removed_y = self.removed_y.plus(other.removed_y);
        self.removed_z = self.removed_z.plus(other.removed_z);
        self.substeps = self.substeps + other.substeps;
        self.rays_exact = self.rays_exact + other.rays_exact;
        self.rays_substepped = self.rays_substepped + other.rays_substepped;
        self.worst_bound_mm = max_number(self.worst_bound_mm, other.worst_bound_mm);
    }
}

/// A coordinate lies no further outside an interval than the slack.
pub open spec fn within(p: Double, lo: Double, hi: Double, slack: Double) -> bool {
    !p.lt(difference(lo, slack)) && !sum(hi, slack).lt(p)
}

/// A ray along an axis passes a box, half a spacing around it counted in.
pub open spec fn passes(bounds: Aabb3, axis: Axis, origin: Vec3, spacing: Double) -> bool {
    let slack = product(Double { bits: 0x3fe0_0000_0000_0000 }, spacing);
    forall|k: int|
        0 <= k < 3 && k != axis.number() ==> within(#[trigger] origin.at(k), bounds.min.at(k), bounds.max.at(k), slack)
}

fn is_within(p: Double, lo: Double, hi: Double, slack: Double) -> (r: bool)
    ensures
        r == within(p, lo, hi, slack),
{
    !p.less(lo.minus(slack)) && !hi.plus(slack).less(p)
}

/// True if a ray's cell could meet the swept box. Along the ray nothing is
/// tested.
pub fn transverse_overlaps(bounds: &Aabb3, axis: Axis, origin: Vec3, spacing: Double) -> (r: bool)
    ensures
        r == passes(*bounds, axis, origin, spacing),
{
    let slack: Double = Double::from_bits(0x3fe0_0000_0000_0000).times(spacing);
    let x: bool = is_within(origin.x, bounds.min.x, bounds.max.x, slack);
    let y: bool = is_within(origin.y, bounds.min.y, bounds.max.y, slack);
    let z: bool = is_within(origin.z, bounds.min.z, bounds.max.z, slack);
    proof {
        assert(origin.at(0) == origin.x && origin.at(1) == origin.y && origin.at(2) == origin.z);
    }
    match axis {
        Axis::X => y && z,
        Axis::Y => z && x,
        Axis::Z => x && y,
    }
}

/// Two spans compare equal: as numbers their bounds, as they are their normals.
pub open spec fn same_span(a: Span, b: Span) -> bool {
    a.t0.same(b.t0) && a.t1.same(b.t1) && a.n0 == b.n0 && a.n1 == b.n1
}

/// Two lists of spans compare equal.
pub open spec fn same_spans(a: Seq<Span>, b: Seq<Span>) -> bool {
    a.len() == b.len() && forall|i: int| 0 <= i < a.len() ==> same_span(#[trigger] a[i], b[i])
}

pub(crate) fn are_same(a: &Spans, b: &Spans) -> (r: bool)
    ensures
        r == same_spans(a@, b@),
{
    if a.spans.len() != b.spans.len() {
        return false;
    }
    let mut i: usize = 0;
    while i < a.spans.len()
        invariant
            i <= a@.len(),
            a@.len() == b@.len(),
            forall|j: int| 0 <= j < i ==> same_span(#[trigger] a@[j], b@[j]),
        decreases a@.len() - i,
    {
        let x: Span = a.spans[i];
        let y: Span = b.spans[i];
        if !(x.t0.equals(y.t0) && x.t1.equals(y.t1) && x.n0 == y.n0 && x.n1 == y.n1) {
            assert(!same_span(a@[i as int], b@[i as int]));
            return false;
        }
        i = i + 1;
    }
    true
}

/// The material of a ray changes by what the tool covers of it.
pub open spec fn changes(before: Seq<Span>, covered: Seq<Span>) -> bool {
    let after = outcome(SetOp::Difference, before, covered);
    covered.len() > 0 && !(total_length(after).same(total_length(before)) && same_spans(after, before))
}

/// A ray that is examined: it passes the box and holds material.
pub open spec fn examined(b: Bundle, bounds: Aabb3, i: int) -> bool {
    passes(bounds, b.axis, b.origins@[i], b.spacing) && b.rays@[i]@.len() > 0
}

/// What a ray holds after a cut.
pub open spec fn left_of(b: Bundle, bounds: Aabb3, swept: Seq<Swept>, i: int) -> Seq<Span> {
    let before = b.rays@[i]@;
    let covered = swept[i].spans@;
    if examined(b, bounds, i) && changes(before, covered) {
        outcome(SetOp::Difference, before, covered)
    } else {
        before
    }
}

/// The steps that a plan takes where a closed form is not had: at least one.
pub open spec fn steps_taken(plan: StepPlan) -> int {
    if plan.steps < 1 {
        1
    } else {
        plan.steps as int
    }
}

/// What finding the covered intervals of an examined ray adds to the statistics.
pub open spec fn cast_stats(s: CutStats, plan: StepPlan, exact: bool) -> CutStats {
    let tested = CutStats { rays_tested: (s.rays_tested + 1) as u64, ..s };
    if exact {
        CutStats { rays_exact: (s.rays_exact + 1) as u64, ..tested }
    } else {
        CutStats {
            substeps: (s.substeps + steps_taken(plan)) as u64,
            rays_substepped: (s.rays_substepped + 1) as u64,
            worst_bound_mm: greater(s.worst_bound_mm, plan.bound),
            ..tested
        }
    }
}

/// The volume that a cut takes from a ray.
pub open spec fn volume(before: Seq<Span>, after: Seq<Span>, area: Double) -> Double {
    product(difference(total_length(before), total_length(after)), area)
}

/// What a ray adds to the statistics of a cut.
pub open spec fn ray_stats(
    s: CutStats,
    b: Bundle,
    bounds: Aabb3,
    plan: StepPlan,
    swept: Seq<Swept>,
    i: int,
) -> CutStats {
    if !examined(b, bounds, i) {
        CutStats { rays_rejected: (s.rays_rejected + 1) as u64, ..s }
    } else {
        let t = cast_stats(s, plan, swept[i].exact);
        let before = b.rays@[i]@;
        if changes(before, swept[i].spans@) {
            let after = outcome(SetOp::Difference, before, swept[i].spans@);
            CutStats { rays_changed: (t.rays_changed + 1) as u64, ..t }.with_removed(
                b.axis,
                volume(before, after, b.cell_area),
            )
        } else {
            t
        }
    }
}

/// The statistics after the first `n` rays.
pub open spec fn cut_stats(b: Bundle, bounds: Aabb3, plan: StepPlan, swept: Seq<Swept>, n: nat) -> CutStats
    decreases n,
{
    if n == 0 {
        no_stats()
    } else {
        ray_stats(cut_stats(b, bounds, plan, swept, (n - 1) as nat), b, bounds, plan, swept, n - 1)
    }
}

/// Counters that no more than `n` rays have gone into, each with no more than so
/// many steps.
pub open spec fn field_counted(s: CutStats, n: int, steps: int) -> bool {
    &&& s.rays_tested <= n
    &&& s.rays_rejected <= n
    &&& s.rays_changed <= n
    &&& s.rays_exact <= n
    &&& s.rays_substepped <= n
    &&& s.substeps <= n * steps
}

/// Counters that no more than `n` visits of planned motions have gone into.
pub open spec fn counted(s: CutStats, n: int) -> bool {
    field_counted(s, n, 0x10_0000)
}

pub(crate) fn tally_cast(stats: &mut CutStats, plan: &StepPlan, exact: bool, Ghost(n): Ghost<int>, Ghost(most): Ghost<int>)
    requires
        field_counted(*old(stats), n, most),
        0 <= n,
        steps_taken(*plan) <= most,
        (n + 1) * most <= u64::MAX,
    ensures
        *final(stats) == cast_stats(*old(stats), *plan, exact),
        field_counted(*final(stats), n + 1, most),
{
    proof {
        assert((n + 1) * most == n * most + most && n + 1 <= (n + 1) * most) by (nonlinear_arith)
            requires
                0 <= n,
                1 <= most,
        ;
    }
    stats.rays_tested = stats.rays_tested + 1;
    if exact {
        stats.rays_exact = stats.rays_exact + 1;
    } else {
        let steps: u32 = if plan.steps < 1 { 1 } else { plan.steps };
        stats.substeps = stats.substeps + steps as u64;
        stats.rays_substepped = stats.rays_substepped + 1;
        stats.worst_bound_mm = max_number(stats.worst_bound_mm, plan.bound);
    }
}

/// Subtracts a swept tool from one bundle, for a motion of any kind.
///
/// `swept` says what the tool covers of each ray; of a ray that is not examined
/// it is not read. The removed volume is recorded for the bundle's own axis.
pub fn cut_bundle_motion(bundle: &mut Bundle, bounds: &Aabb3, plan: &StepPlan, swept: &[Swept]) -> (r: CutStats)
    requires
        old(bundle).wf(),
        swept@.len() == old(bundle).rays@.len(),
        forall|i: int| 0 <= i < swept@.len() ==> (#[trigger] swept@[i]).spans.wf(),
    ensures
        r == cut_stats(*old(bundle), *bounds, *plan, swept@, swept@.len()),
        final(bundle).wf(),
        final(bundle).axis == old(bundle).axis,
        final(bundle).spacing == old(bundle).spacing,
        final(bundle).cell_area == old(bundle).cell_area,
        final(bundle).origins@ == old(bundle).origins@,
        final(bundle).rays@.len() == old(bundle).rays@.len(),
        forall|i: int|
            0 <= i < swept@.len() ==> (#[trigger] final(bundle).rays@[i])@ == left_of(*old(bundle), *bounds, swept@, i),
{
    let ghost b = *bundle;
    let mut stats: CutStats = CutStats::default();
    let mut i: usize = 0;
    while i < swept.len()
        invariant
            i <= swept@.len(),
            b == *old(bundle),
            b.wf(),
            bundle.wf(),
            swept@.len() == b.rays@.len(),
            bundle.rays@.len() == b.rays@.len(),
            bundle.axis == b.axis,
            bundle.spacing == b.spacing,
            bundle.cell_area == b.cell_area,
            bundle.origins@ == b.origins@,
            forall|j: int| 0 <= j < swept@.len() ==> (#[trigger] swept@[j]).spans.wf(),
            forall|j: int| 0 <= j < i ==> (#[trigger] bundle.rays@[j])@ == left_of(b, *bounds, swept@, j),
            forall|j: int| i <= j < swept@.len() ==> #[trigger] bundle.rays@[j] == b.rays@[j],
            stats == cut_stats(b, *bounds, *plan, swept@, i as nat),
            field_counted(stats, i as int, u32::MAX as int),
        decreases swept@.len() - i,
    {
        proof {
            assert(bundle.rays@[i as int] == b.rays@[i as int]);
            assert(b.rays@[i as int].wf());
            assert(swept@[i as int].spans.wf());
            assert((i + 1) * u32::MAX == i * u32::MAX + u32::MAX) by (nonlinear_arith);
            assert((i + 1) * u32::MAX <= u64::MAX) by (nonlinear_arith)
                requires
                    i < u32::MAX,
            ;
        }
        if !transverse_overlaps(bounds, bundle.axis, bundle.origins[i], bundle.spacing) || bundle.rays[i].is_empty() {
            stats.rays_rejected = stats.rays_rejected + 1;
        } else {
            tally_cast(&mut stats, plan, swept[i].exact, Ghost(i as int), Ghost(u32::MAX as int));
            if !swept[i].spans.is_empty() {
                let before: Double = bundle.rays[i].measure();
                let result: Spans = bundle.rays[i].subtract(&swept[i].spans);
                proof {
                    law_outcome_is_the_result(
                        SetOp::Difference,
                        b.rays@[i as int]@,
                        swept@[i as int].spans@,
                        result@,
                    );
                }
                let after: Double = result.measure();
                if !(after.equals(before) && are_same(&result, &bundle.rays[i])) {
                    stats.rays_changed = stats.rays_changed + 1;
                    stats.add_removed(bundle.axis, before.minus(after).times(bundle.cell_area));
                    bundle.rays.set(i, result);
                }
            }
        }
        i = i + 1;
    }
    stats
}

/// The statistics of a bundle added to a total: counters, the worst bound, and
/// the volume along the bundle's own axis.
pub open spec fn bundle_added(total: CutStats, s: CutStats, axis: Axis) -> CutStats {
    CutStats {
        rays_tested: (total.rays_tested + s.rays_tested) as u64,
        rays_rejected: (total.rays_rejected + s.rays_rejected) as u64,
        rays_changed: (total.rays_changed + s.rays_changed) as u64,
        substeps: (total.substeps + s.substeps) as u64,
        rays_exact: (total.rays_exact + s.rays_exact) as u64,
        rays_substepped: (total.rays_substepped + s.rays_substepped) as u64,
        worst_bound_mm: greater(total.worst_bound_mm, s.worst_bound_mm),
        ..total
    }.with_removed(axis, s.removed(axis))
}

/// The statistics of a cut through the first `n` bundles.
pub open spec fn field_stats(field: Seq<Bundle>, bounds: Aabb3, plan: StepPlan, swept: Seq<Vec<Swept>>, n: nat) -> CutStats
    decreases n,
{
    if n == 0 {
        no_stats()
    } else {
        let b = field[n - 1];
        bundle_added(
            field_stats(field, bounds, plan, swept, (n - 1) as nat),
            cut_stats(b, bounds, plan, swept[n - 1]@, swept[n - 1]@.len()),
            b.axis,
        )
    }
}

proof fn lemma_cut_counted(b: Bundle, bounds: Aabb3, plan: StepPlan, swept: Seq<Swept>, n: nat)
    requires
        n <= u32::MAX,
    ensures
        field_counted(cut_stats(b, bounds, plan, swept, n), n as int, steps_taken(plan)),
    decreases n,
{
    let k = steps_taken(plan);
    if n > 0 {
        lemma_cut_counted(b, bounds, plan, swept, (n - 1) as nat);
        assert(n * k == (n - 1) * k + k) by (nonlinear_arith);
        assert(n * k <= u32::MAX * u32::MAX) by (nonlinear_arith)
            requires
                0 <= n <= u32::MAX,
                0 <= k <= u32::MAX,
        ;
        assert(u32::MAX * u32::MAX <= u64::MAX) by (nonlinear_arith);
    }
}

/// What a cut leaves of a bundle.
pub open spec fn cut_from(b: Bundle, bounds: Aabb3, swept: Seq<Swept>, after: Bundle) -> bool {
    &&& after.wf()
    &&& after.axis == b.axis
    &&& after.spacing == b.spacing
    &&& after.cell_area == b.cell_area
    &&& after.origins@ == b.origins@
    &&& after.rays@.len() == b.rays@.len()
    &&& forall|i: int| 0 <= i < swept.len() ==> (#[trigger] after.rays@[i])@ == left_of(b, bounds, swept, i)
}

/// Rays of the first `n` bundles of a field.
pub open spec fn rays_of(field: Seq<Bundle>, n: nat) -> nat
    decreases n,
{
    if n == 0 {
        0
    } else {
        rays_of(field, (n - 1) as nat) + field[n - 1].rays@.len()
    }
}

proof fn lemma_rays_grow(field: Seq<Bundle>, n: nat, m: nat)
    requires
        n <= m,
    ensures
        rays_of(field, n) <= rays_of(field, m),
    decreases m,
{
    if n < m {
        lemma_rays_grow(field, n, (m - 1) as nat);
    }
}

/// Subtracts a swept tool from every bundle of a field, for a motion of any kind.
/// Each bundle is cut for itself and never compared with another.
pub fn cut_tri_motion(field: &mut Vec<Bundle>, bounds: &Aabb3, plan: &StepPlan, swept: &[Vec<Swept>]) -> (r: CutStats)
    requires
        rays_of(old(field)@, old(field)@.len()) * steps_taken(*plan) <= u64::MAX,
        swept@.len() == old(field)@.len(),
        forall|k: int| 0 <= k < old(field)@.len() ==> (#[trigger] old(field)@[k]).wf(),
        forall|k: int| 0 <= k < swept@.len() ==> (#[trigger] swept@[k])@.len() == old(field)@[k].rays@.len(),
        forall|k: int, i: int|
            0 <= k < swept@.len() && 0 <= i < swept@[k]@.len() ==> (#[trigger] swept@[k]@[i]).spans.wf(),
    ensures
        r == field_stats(old(field)@, *bounds, *plan, swept@, swept@.len()),
        final(field)@.len() == old(field)@.len(),
        forall|k: int|
            0 <= k < swept@.len() ==> cut_from(old(field)@[k], *bounds, swept@[k]@, #[trigger] final(field)@[k]),
{
    let ghost f = field@;
    let ghost most = steps_taken(*plan);
    let mut total: CutStats = CutStats::default();
    let mut k: usize = 0;
    while k < swept.len()
        invariant
            k <= swept@.len(),
            swept@.len() == f.len(),
            field@.len() == f.len(),
            f == old(field)@,
            most == steps_taken(*plan),
            rays_of(f, f.len()) * most <= u64::MAX,
            forall|j: int| 0 <= j < f.len() ==> (#[trigger] f[j]).wf(),
            forall|j: int| 0 <= j < swept@.len() ==> (#[trigger] swept@[j])@.len() == f[j].rays@.len(),
            forall|j: int, i: int|
                0 <= j < swept@.len() && 0 <= i < swept@[j]@.len() ==> (#[trigger] swept@[j]@[i]).spans.wf(),
            total == field_stats(f, *bounds, *plan, swept@, k as nat),
            field_counted(total, rays_of(f, k as nat) as int, most),
            forall|j: int| 0 <= j < k ==> cut_from(f[j], *bounds, swept@[j]@, #[trigger] field@[j]),
            forall|j: int| k <= j < f.len() ==> #[trigger] field@[j] == f[j],
        decreases swept@.len() - k,
    {
        proof {
            assert(field@[k as int] == f[k as int]);
            assert(f[k as int].wf());
            lemma_cut_counted(f[k as int], *bounds, *plan, swept@[k as int]@, swept@[k as int]@.len());
            let n = swept@[k as int]@.len() as int;
            let had = rays_of(f, k as nat) as int;
            lemma_rays_grow(f, (k + 1) as nat, f.len());
            assert(had * most + n * most == (had + n) * most) by (nonlinear_arith);
            assert((had + n) * most <= rays_of(f, f.len()) * most && had + n <= (had + n) * most) by (nonlinear_arith)
                requires
                    0 <= had + n <= rays_of(f, f.len()),
                    most >= 1,
            ;
        }
        let axis: Axis = field[k].axis;
        let stats: CutStats = cut_bundle_motion(&mut field[k], bounds, plan, swept[k].as_slice());
        total.rays_tested = total.rays_tested + stats.rays_tested;
        total.rays_rejected = total.rays_rejected + stats.rays_rejected;
        total.rays_changed = total.rays_changed + stats.rays_changed;
        total.substeps = total.substeps + stats.substeps;
        total.rays_exact = total.rays_exact + stats.rays_exact;
        total.rays_substepped = total.rays_substepped + stats.rays_substepped;
        total.worst_bound_mm = max_number(total.worst_bound_mm, stats.worst_bound_mm);
        total.add_removed(axis, match axis {
            Axis::X => stats.removed_x,
            Axis::Y => stats.removed_y,
            Axis::Z => stats.removed_z,
        });
        k = k + 1;
    }
    total
}

/// What is known of a ray on a motion.
#[derive(Debug)]
pub struct Cover {
    /// The intervals of the closed form, where tool and ray allow one.
    pub closed: Option<Spans>,
    /// The intervals at each of the steps.
    pub stepped: Vec<Spans>,
}

impl Cover {
    /// All intervals are well formed.
    pub open spec fn wf(self) -> bool {
        &&& self.closed matches Some(s) ==> s.wf()
        &&& forall|i: int| 0 <= i < self.stepped@.len() ==> (#[trigger] self.stepped@[i]).wf()
    }
}

/// A ray is had in closed form: the motion has one under the method, and tool and
/// ray allow it.
pub open spec fn had_exactly(method: SweepMethod, motion: Motion, closed: Option<Spans>) -> bool {
    route_of(method, motion) != Route::Steps && closed is Some
}

/// The intervals that a motion covers of a ray: those of the closed form where it
/// is had, else those of all steps together.
pub open spec fn covered(method: SweepMethod, motion: Motion, closed: Option<Spans>, stepped: Seq<Spans>) -> Seq<Span> {
    if had_exactly(method, motion, closed) {
        closed->Some_0@
    } else {
        joined(stepped, stepped.len())
    }
}

/// What a motion covers of a ray, by the route of the motion. A ray on which the
/// closed form is declined falls back to the steps.
pub fn swept_of(method: SweepMethod, motion: &Motion, closed: Option<Spans>, stepped: &[Spans]) -> (r: Swept)
    requires
        closed matches Some(s) ==> s.wf(),
        forall|i: int| 0 <= i < stepped@.len() ==> (#[trigger] stepped@[i]).wf(),
    ensures
        r.exact == had_exactly(method, *motion, closed),
        r.spans@ == covered(method, *motion, closed, stepped@),
        r.spans.wf(),
{
    if route(method, motion) != Route::Steps {
        if let Some(spans) = closed {
            return Swept { exact: true, spans };
        }
    }
    Swept { exact: false, spans: union_all(stepped) }
}

/// The intervals are those that the motion covers.
pub open spec fn swept_by(method: SweepMethod, motion: Motion, rays: Seq<Cover>, swept: Seq<Swept>) -> bool {
    &&& swept.len() == rays.len()
    &&& forall|i: int|
        0 <= i < rays.len() ==> (#[trigger] swept[i]).exact == had_exactly(method, motion, rays[i].closed)
            && swept[i].spans@ == covered(method, motion, rays[i].closed, rays[i].stepped@)
}

/// Subtracts a tool on a motion from one bundle: the steps are those that the
/// method plans, and each ray is had in closed form or by steps.
pub fn cut_along(
    bundle: &mut Bundle,
    bounds: &Aabb3,
    method: SweepMethod,
    motion: &Motion,
    sine: Double,
    rays: &[Cover],
) -> (r: CutStats)
    requires
        method.feasible(),
        old(bundle).wf(),
        rays@.len() == old(bundle).rays@.len(),
        forall|i: int| 0 <= i < rays@.len() ==> (#[trigger] rays@[i]).wf(),
    ensures
        exists|swept: Seq<Swept>| #[trigger]
            swept_by(method, *motion, rays@, swept) && cut_from(*old(bundle), *bounds, swept, *final(bundle)) && r
                == cut_stats(*old(bundle), *bounds, method.plan_of(*motion, sine), swept, swept.len()),
{
    let plan: StepPlan = method.plan(motion, sine);
    let mut swept: Vec<Swept> = Vec::new();
    let mut i: usize = 0;
    while i < rays.len()
        invariant
            i <= rays@.len(),
            forall|i: int| 0 <= i < rays@.len() ==> (#[trigger] rays@[i]).wf(),
            swept@.len() == i,
            forall|k: int| 0 <= k < i ==> (#[trigger] swept@[k]).spans.wf(),
            swept_by(method, *motion, rays@.take(i as int), swept@),
        decreases rays@.len() - i,
    {
        assert(rays@[i as int].wf());
        let closed: Option<Spans> = match &rays[i].closed {
            Some(s) => Some(s.clone()),
            None => None,
        };
        let ghost was = swept@;
        swept.push(swept_of(method, motion, closed, rays[i].stepped.as_slice()));
        i = i + 1;
        assert forall|k: int| 0 <= k < i implies (#[trigger] swept@[k]).exact == had_exactly(
            method,
            *motion,
            rays@.take(i as int)[k].closed,
        ) && swept@[k].spans@ == covered(method, *motion, rays@.take(i as int)[k].closed, rays@.take(i as int)[k].stepped@) by {
            if k < i - 1 {
                assert(was[k].exact == had_exactly(method, *motion, rays@.take(i - 1)[k].closed));
            }
        }
    }
    assert(rays@.take(i as int) =~= rays@);
    assert(swept_by(method, *motion, rays@, swept@));
    cut_bundle_motion(bundle, bounds, &plan, swept.as_slice())
}

/// The material of each ray of a bundle, for callers that only need to look.
pub fn arena_of(bundle: &Bundle) -> (r: &Vec<Spans>)
    ensures
        *r == bundle.rays,
{
    &bundle.rays
}

} // verus!
