//! Cutting along arcs and helices, and in batches of any size.
//!
//! Cosines, sines and arc cosines come from outside, as do the stock and what a
//! tool covers of a ray.

use crate::arithmetic::{difference, of_int, product, quotient};
use crate::canonical::{list_words, plain, plain_bits, same_words, Canonical};
use crate::double::Double;
use crate::math::{Ray, Vec3};
use crate::mesh::words::write_text;
use crate::selftest::{Failure, SuiteResult};
use crate::suites::outcomes::heading;
use crate::suites::cuts::{
    case_trouble, cut_case, cut_words, head_words, no_tool, place, place_at, spell, spelled, tell, told, trouble,
    write_head, CutCase,
};
use crate::sweep::arc::{ArcMove, ArcPlane, Motion, TURN};
use crate::sweep::batch::{fitting, held, split_runs, MotionSweep, Run};
use crate::sweep::cut::{Bundle, CutStats, StepPlan, SweepMethod};
use crate::sweep::path::one;
use crate::sweep::reference::{steps_for, usable, MAX_SUBSTEPS};
use crate::sweep::sequence::{cut_field, field_left, list_stats, measurable, visits};
use crate::sweep::LinearMove;
use vstd::prelude::*;

verus! {

/// Steps that the deviations of the suite are taken at.
pub const ARC_STEPS: u32 = 64;

/// The cosine and the sine of the bearing at one point of an arc.
#[derive(Clone, Copy, Debug, PartialEq, Eq, Structural)]
pub struct ArcPoint {
    /// The cosine.
    pub cosine: Double,
    /// The sine.
    pub sine: Double,
}

/// A tolerance for an arc.
#[derive(Clone, Copy, Debug, PartialEq, Eq, Structural)]
pub struct ArcTolerance {
    /// The tolerance.
    pub tolerance: Double,
    /// The sine of the quarter of a step, for the steps that keep to it.
    pub sine: Double,
    /// Half of the angle that a chord may span, where the arc has one.
    pub angle: Double,
}

/// An arc of a tool over a stock.
#[derive(Debug)]
pub struct ArcCase {
    /// The arc.
    pub arc: ArcMove,
    /// Whether each probe was had in closed form.
    pub closed: Vec<bool>,
    /// The sine of the quarter of a step.
    pub sine: Double,
    /// The cosine of half a step.
    pub cosine: Double,
    /// The tolerances.
    pub tolerances: Vec<ArcTolerance>,
    /// Points from the start of the arc to its end, eighths of it apart.
    pub points: Vec<ArcPoint>,
    /// The cut.
    pub cut: CutCase,
}

/// A stock that was to be built.
#[derive(Debug)]
pub struct Build {
    /// Why it could not be built, where it could not.
    pub refused: Option<String>,
    /// The stock.
    pub field: Vec<Bundle>,
}

/// Motions that are cut twice: one at a time, and in batches.
#[derive(Debug)]
pub struct BatchCase {
    /// The stock that is cut motion by motion.
    pub single: Build,
    /// The stock that is cut in batches of the usual size.
    pub batched: Build,
    /// The motions.
    pub motions: Vec<Motion>,
    /// What they cover, for each bundle.
    pub sweeps: Vec<Vec<MotionSweep>>,
}

/// A tool, its arcs, and motions to batch.
#[derive(Debug)]
pub struct ToolArcs {
    /// What the tool is called.
    pub tool: &'static str,
    /// The tool could be made.
    pub made: bool,
    /// Its arcs.
    pub arcs: Vec<ArcCase>,
    /// Its batch.
    pub batch: BatchCase,
}

impl ArcCase {
    /// The cut is well formed and the tolerances can be met.
    pub open spec fn wf(self) -> bool {
        &&& self.cut.wf()
        &&& self.points@.len() <= 9
        &&& forall|i: int| 0 <= i < self.tolerances@.len() ==> usable((#[trigger] self.tolerances@[i]).tolerance)
    }
}

/// The motions can be cut from a stock.
pub open spec fn cuttable(field: Seq<Bundle>, motions: Seq<Motion>, sweeps: Seq<Vec<MotionSweep>>) -> bool {
    &&& field.len() == sweeps.len()
    &&& visits(field, sweeps, sweeps.len()) <= 0xfff_ffff_ffff
    &&& forall|k: int|
        0 <= k < sweeps.len() ==> fitting(#[trigger] field[k], sweeps[k]@) && measurable(field[k], sweeps[k]@)
            && sweeps[k]@.len() == motions.len()
}

impl BatchCase {
    /// The motions can be cut from both stocks.
    pub open spec fn wf(self) -> bool {
        &&& cuttable(self.single.field@, self.motions@, self.sweeps@)
        &&& cuttable(self.batched.field@, self.motions@, self.sweeps@)
    }
}

impl ToolArcs {
    /// Every case is well formed.
    pub open spec fn wf(self) -> bool {
        self.batch.wf() && forall|i: int| 0 <= i < self.arcs@.len() ==> (#[trigger] self.arcs@[i]).wf()
    }
}

/// The words of flags: a one for each that is set.
pub open spec fn flag_words(f: Seq<bool>) -> Seq<u64> {
    Seq::new(f.len(), |i: int| if f[i] { 1u64 } else { 0u64 })
}

/// The chords of an arc that keep to a tolerance.
pub open spec fn chords_within(arc: ArcMove, t: ArcTolerance) -> int {
    if arc.trivial() {
        1
    } else if product(Double { bits: 0x4000_0000_0000_0000 }, t.angle).le(Double { bits: 0 }) {
        MAX_SUBSTEPS as int
    } else {
        steps_for(arc.sweep.absolute(), t.angle)
    }
}

/// What an arc records of a tolerance: the tolerance, the steps that keep to it,
/// what they leave, and the chords.
#[verifier::opaque]
pub open spec fn tolerance_words(arc: ArcMove, t: ArcTolerance) -> Seq<u64> {
    let plan = SweepMethod::Bounded { tolerance: t.tolerance }.plan_of(Motion::Arc(arc), t.sine);
    seq![plain_bits(t.tolerance), plan.steps as u64, plain_bits(plan.bound), chords_within(arc, t) as u64]
}

/// What an arc records of the first `n` tolerances.
pub open spec fn tolerances_words(arc: ArcMove, t: Seq<ArcTolerance>, n: nat) -> Seq<u64>
    decreases n,
{
    if n == 0 {
        Seq::empty()
    } else {
        tolerances_words(arc, t, (n - 1) as nat) + tolerance_words(arc, t[n - 1])
    }
}

/// What an arc records of its first `n` points.
pub open spec fn points_words(arc: ArcMove, p: Seq<ArcPoint>, n: nat) -> Seq<u64>
    decreases n,
{
    if n == 0 {
        Seq::empty()
    } else {
        points_words(arc, p, (n - 1) as nat) + arc.tip(
            quotient(of_int(n - 1), of_int(8)),
            p[n - 1].cosine,
            p[n - 1].sine,
        ).words()
    }
}

/// How long an arc is, and how far steps and chords may lie from it.
#[verifier::opaque]
pub open spec fn measure_words(c: ArcCase) -> Seq<u64> {
    seq![
        plain_bits(c.arc.helical_length()),
        plain_bits(c.arc.deviation(ARC_STEPS as int, c.sine)),
        plain_bits(product(c.arc.radius, difference(one(), c.cosine))),
    ]
}

/// What an arc records of itself: how its probes were had, its length, how far
/// steps and chords may lie from it, and where it runs.
#[verifier::opaque]
pub open spec fn arc_words(c: ArcCase) -> Seq<u64> {
    flag_words(c.closed@) + measure_words(c) + tolerances_words(c.arc, c.tolerances@, c.tolerances@.len()) + points_words(
        c.arc,
        c.points@,
        c.points@.len(),
    )
}

/// What the first `n` arcs of a tool record.
pub open spec fn arcs_words(tool: Seq<char>, c: Seq<ArcCase>, n: nat) -> Seq<u64>
    decreases n,
{
    if n == 0 {
        Seq::empty()
    } else {
        arcs_words(tool, c, (n - 1) as nat) + (head_words(tool, c[n - 1].cut) + arc_words(c[n - 1]) + cut_words(
            c[n - 1].cut,
        ))
    }
}

/// What is wrong with the first `n` arcs of a tool.
pub open spec fn arcs_trouble(tool: Seq<char>, c: Seq<ArcCase>, n: nat) -> Seq<(Seq<char>, Seq<char>)>
    decreases n,
{
    if n == 0 {
        Seq::empty()
    } else {
        arcs_trouble(tool, c, (n - 1) as nat) + case_trouble(tool, c[n - 1].cut)
    }
}

/// How many of the first `n` arcs have a stock.
pub open spec fn arcs_stocked(c: Seq<ArcCase>, n: nat) -> nat
    decreases n,
{
    if n == 0 {
        0
    } else {
        arcs_stocked(c, (n - 1) as nat) + if c[n - 1].cut.refused is None {
            1nat
        } else {
            0
        }
    }
}

/// The words of what motions leave on the first `n` rays of a bundle, each behind
/// a one.
pub open spec fn held_words(b: Bundle, motions: Seq<MotionSweep>, n: nat) -> Seq<u64>
    decreases n,
{
    if n == 0 {
        Seq::empty()
    } else {
        held_words(b, motions, (n - 1) as nat) + (seq![1u64] + list_words(held(b, motions, n - 1, motions.len())))
    }
}

/// The words of what motions leave of the first `n` bundles.
pub open spec fn held_field(field: Seq<Bundle>, sweeps: Seq<Vec<MotionSweep>>, n: nat) -> Seq<u64>
    decreases n,
{
    if n == 0 {
        Seq::empty()
    } else {
        held_field(field, sweeps, (n - 1) as nat) + held_words(
            field[n - 1],
            sweeps[n - 1]@,
            field[n - 1].rays@.len(),
        ).push(0)
    }
}

/// What cutting motions from a stock comes to: what is left, what went, and the
/// counters. How the motions are divided does not enter.
#[verifier::opaque]
pub open spec fn batch_words(field: Seq<Bundle>, sweeps: Seq<Vec<MotionSweep>>) -> Seq<u64> {
    let s = list_stats(field, sweeps, sweeps.len());
    held_field(field, sweeps, field.len()) + seq![
        plain_bits(s.removed_x),
        plain_bits(s.removed_y),
        plain_bits(s.removed_z),
        s.rays_tested,
        s.rays_changed,
        s.substeps,
    ]
}

/// What cutting motions makes of a stock.
pub open spec fn batch_cut(field: Seq<Bundle>, sweeps: Seq<Vec<MotionSweep>>, after: Seq<Bundle>) -> bool {
    after.len() == field.len() && field_left(field, sweeps, after, sweeps.len())
}

/// What cutting motions makes of a stock that was to be built.
pub open spec fn build_cut(b: Build, sweeps: Seq<Vec<MotionSweep>>, after: Build) -> bool {
    if b.refused is Some {
        after == b
    } else {
        after.refused is None && batch_cut(b.field@, sweeps, after.field@)
    }
}

/// What cutting makes of an arc: its stock is cut, and nothing else is touched.
pub open spec fn arc_cut(c: ArcCase, after: ArcCase) -> bool {
    c.cut.cut_to(after.cut) && after == (ArcCase { cut: after.cut, ..c })
}

/// What cutting makes of a tool's arcs and of its batch.
pub open spec fn tool_arcs_cut(t: ToolArcs, after: ToolArcs) -> bool {
    &&& after.tool == t.tool
    &&& after.made == t.made
    &&& after.arcs@.len() == t.arcs@.len()
    &&& forall|i: int| 0 <= i < t.arcs@.len() ==> arc_cut(t.arcs@[i], #[trigger] after.arcs@[i])
    &&& after.batch.motions == t.batch.motions
    &&& after.batch.sweeps == t.batch.sweeps
    &&& build_cut(t.batch.single, t.batch.sweeps@, after.batch.single)
    &&& build_cut(t.batch.batched, t.batch.sweeps@, after.batch.batched)
}

/// What a stock records, if it was built.
pub open spec fn build_words(b: Build, sweeps: Seq<Vec<MotionSweep>>) -> Seq<u64> {
    if b.refused is Some {
        Seq::empty()
    } else {
        batch_words(b.field@, sweeps)
    }
}

/// What is wrong with a stock: that it could not be built, and why.
pub open spec fn build_trouble(tool: Seq<char>, size: Seq<char>, b: Build) -> Seq<(Seq<char>, Seq<char>)> {
    match b.refused {
        Some(why) => seq![("batch/"@ + tool + size, why@)],
        None => Seq::empty(),
    }
}

/// What is said where the size of the batches can be seen in the result.
pub open spec fn seen_batching() -> Seq<char> {
    "batch size 1 and 32 produced different results, so batching is not the invisible tuning knob it is documented to be"@
}

/// Both stocks were built, and came out differently.
pub open spec fn sizes_differ(b: BatchCase) -> bool {
    b.single.refused is None && b.batched.refused is None && batch_words(b.single.field@, b.sweeps@) != batch_words(
        b.batched.field@,
        b.sweeps@,
    )
}

/// What is wrong with a batch.
#[verifier::opaque]
pub open spec fn batch_trouble(tool: Seq<char>, b: BatchCase) -> Seq<(Seq<char>, Seq<char>)> {
    build_trouble(tool, "/1"@, b.single) + build_trouble(tool, "/32"@, b.batched) + if sizes_differ(b) {
        seq![("batch/"@ + tool, seen_batching())]
    } else {
        Seq::empty()
    }
}

/// The number of stocks that were built.
pub open spec fn built(b: BatchCase) -> nat {
    (if b.single.refused is None {
        1nat
    } else {
        0
    }) + if b.batched.refused is None {
        1nat
    } else {
        0
    }
}

/// Where both stocks are the same, the size of the batches cannot be seen.
pub proof fn law_batch_size_is_invisible(tool: Seq<char>, b: BatchCase)
    requires
        b.single.refused is None,
        b.batched.refused is None,
        b.single.field@ == b.batched.field@,
    ensures
        batch_trouble(tool, b) == Seq::<(Seq<char>, Seq<char>)>::empty(),
{
    reveal(batch_trouble);
    assert(batch_trouble(tool, b) =~= Seq::<(Seq<char>, Seq<char>)>::empty());
}

/// What a tool records.
pub open spec fn tool_arcs_words(t: ToolArcs) -> Seq<u64> {
    arcs_words(t.tool@, t.arcs@, t.arcs@.len()) + list_words("batch"@) + list_words(t.tool@) + build_words(
        t.batch.single,
        t.batch.sweeps@,
    ) + build_words(t.batch.batched, t.batch.sweeps@)
}

/// What is wrong with a tool.
pub open spec fn tool_arcs_trouble(t: ToolArcs) -> Seq<(Seq<char>, Seq<char>)> {
    if t.made {
        arcs_trouble(t.tool@, t.arcs@, t.arcs@.len()) + batch_trouble(t.tool@, t.batch)
    } else {
        seq![no_tool(t.tool@)]
    }
}

/// What the first `n` tools record, behind the name of the suite.
pub open spec fn all_words(t: Seq<ToolArcs>, n: nat) -> Seq<u64>
    decreases n,
{
    if n == 0 {
        heading("sweep.arc"@)
    } else {
        all_words(t, (n - 1) as nat) + if t[n - 1].made {
            tool_arcs_words(t[n - 1])
        } else {
            Seq::empty()
        }
    }
}

/// What is wrong with the first `n` tools.
pub open spec fn all_trouble(t: Seq<ToolArcs>, n: nat) -> Seq<(Seq<char>, Seq<char>)>
    decreases n,
{
    if n == 0 {
        Seq::empty()
    } else {
        all_trouble(t, (n - 1) as nat) + tool_arcs_trouble(t[n - 1])
    }
}

/// How many cuts the first `n` tools make.
pub open spec fn all_made(t: Seq<ToolArcs>, n: nat) -> nat
    decreases n,
{
    if n == 0 {
        0
    } else {
        all_made(t, (n - 1) as nat) + if t[n - 1].made {
            arcs_stocked(t[n - 1].arcs@, t[n - 1].arcs@.len()) + built(t[n - 1].batch)
        } else {
            0
        }
    }
}

/// An arc and what it is called.
#[derive(Clone, Copy, Debug)]
pub struct NamedArc {
    /// What the arc is called.
    pub name: &'static str,
    /// The arc.
    pub arc: ArcMove,
}

/// An arc about the middle of the stock.
pub open spec fn arc_about(radius: int, start_angle: u64, sweep: u64, z: int, plane: ArcPlane, rise: int) -> ArcMove {
    ArcMove {
        center: place(14, 12, 0),
        radius: of_int(radius),
        start_angle: Double { bits: start_angle },
        sweep: Double { bits: sweep },
        z: of_int(z),
        plane,
        rise: of_int(rise),
    }
}

fn make_arc(name: &'static str, radius: i64, start_angle: u64, sweep: u64, z: i64, plane: ArcPlane, rise: i64) -> (a: NamedArc)
    ensures
        a.name == name,
        a.arc == arc_about(radius as int, start_angle, sweep, z as int, plane, rise as int),
{
    NamedArc {
        name,
        arc: ArcMove {
            center: place_at(14, 12, 0),
            radius: Double::from_i64(radius),
            start_angle: Double::from_bits(start_angle),
            sweep: Double::from_bits(sweep),
            z: Double::from_i64(z),
            plane,
            rise: Double::from_i64(rise),
        },
    }
}

/// Bits of a quarter of a turn, in radians.
pub const QUARTER_TURN: u64 = 0x3ff9_21fb_5444_2d18;

/// The names of the arcs of the suite.
pub open spec fn arc_names() -> Seq<Seq<char>> {
    seq!["full-circle"@, "quarter"@, "clockwise-across-zero"@, "helix"@, "g18"@]
}

/// The arcs of the suite.
pub open spec fn arcs_taken() -> Seq<ArcMove> {
    seq![
        arc_about(7, 0, TURN, 4, ArcPlane::Xy, 0),
        arc_about(7, 0x3fd7_ae14_7ae1_47ae, QUARTER_TURN, 4, ArcPlane::Xy, 0),
        arc_about(6, 0x3fd9_9999_9999_999a, 0xc004_cccc_cccc_cccd, 5, ArcPlane::Xy, 0),
        arc_about(5, 0, TURN, 10, ArcPlane::Xy, -5),
        arc_about(5, 0, QUARTER_TURN, 14, ArcPlane::Zx, 0),
    ]
}

/// The tolerances that are tried on each arc.
pub open spec fn tolerance_bits() -> Seq<u64> {
    seq![0x3fe0_0000_0000_0000, 0x3fa9_9999_9999_999a, 0x3f74_7ae1_47ae_147b]
}

/// The motions that are batched.
pub open spec fn batch_taken() -> Seq<Motion> {
    seq![
        Motion::Linear(LinearMove { start: place(3, 12, 4), end: place(7, 12, 4) }),
        Motion::Arc(arcs_taken()[1]),
        Motion::Arc(arcs_taken()[3]),
    ]
}

/// The names of the tools of the suite.
pub open spec fn arc_tools() -> Seq<Seq<char>> {
    seq!["flat"@, "ball"@, "bull"@]
}

/// A case is that of an arc of the suite: its name, the arc, three probes, three
/// tolerances, nine points, and the steps that keep to the middle tolerance.
pub open spec fn arc_case_of(c: ArcCase, k: int) -> bool {
    &&& c.cut.motion@ == arc_names()[k]
    &&& c.arc == arcs_taken()[k]
    &&& c.closed@.len() == 3
    &&& c.cut.probes@.len() == 3
    &&& c.points@.len() == 9
    &&& c.tolerances@.len() == 3
    &&& forall|i: int| 0 <= i < 3 ==> (#[trigger] c.tolerances@[i]).tolerance == (Double { bits: tolerance_bits()[i] })
    &&& c.cut.plan == (SweepMethod::Analytic { tolerance: Double { bits: tolerance_bits()[1] } }).plan_of(
        Motion::Arc(c.arc),
        c.tolerances@[1].sine,
    )
}

/// Every tool of the suite, and each that could be made with every arc and the
/// motions to batch.
pub open spec fn all_arcs(t: Seq<ToolArcs>) -> bool {
    &&& t.len() == 3
    &&& forall|i: int| 0 <= i < 3 ==> (#[trigger] t[i]).tool@ == arc_tools()[i]
    &&& forall|i: int|
        0 <= i < 3 && (#[trigger] t[i]).made ==> t[i].batch.motions@ == batch_taken() && t[i].arcs@.len() == 5
            && forall|k: int| 0 <= k < 5 ==> arc_case_of(#[trigger] t[i].arcs@[k], k)
}

/// The arcs of the suite: a circle, a quarter of one, one that crosses the first
/// axis clockwise, a helix, and one in another plane.
pub fn arc_motions() -> (v: [NamedArc; 5])
    ensures
        forall|k: int| 0 <= k < 5 ==> (#[trigger] v@[k]).name@ == arc_names()[k] && v@[k].arc == arcs_taken()[k],
{
    [
        make_arc("full-circle", 7, 0, TURN, 4, ArcPlane::Xy, 0),
        make_arc("quarter", 7, 0x3fd7_ae14_7ae1_47ae, QUARTER_TURN, 4, ArcPlane::Xy, 0),
        make_arc("clockwise-across-zero", 6, 0x3fd9_9999_9999_999a, 0xc004_cccc_cccc_cccd, 5, ArcPlane::Xy, 0),
        make_arc("helix", 5, 0, TURN, 10, ArcPlane::Xy, -5),
        make_arc("g18", 5, 0, QUARTER_TURN, 14, ArcPlane::Zx, 0),
    ]
}

/// One probe along each axis, across the arcs.
pub fn arc_probes() -> (v: [Ray; 3])
    ensures
        v@[0] == (Ray {
            origin: Vec3 { y: Double { bits: 0x4016_0000_0000_0000 }, ..place(14, 0, -5) },
            direction: place(0, 0, 1),
        }),
        v@[1] == (Ray { origin: place(-5, 12, 5), direction: place(1, 0, 0) }),
        v@[2] == (Ray { origin: place(14, -5, 5), direction: place(0, 1, 0) }),
{
    let up: Vec3 = Vec3::new(
        Double::from_i64(14),
        Double::from_bits(0x4016_0000_0000_0000),
        Double::from_i64(-5),
    );
    [
        Ray { origin: up, direction: place_at(0, 0, 1) },
        Ray { origin: place_at(-5, 12, 5), direction: place_at(1, 0, 0) },
        Ray { origin: place_at(14, -5, 5), direction: place_at(0, 1, 0) },
    ]
}

/// The motions that are batched: a lead-in along a line, a level arc that is had
/// in closed form, and a helix that is not.
pub fn batched_motions() -> (v: Vec<Motion>)
    ensures
        v@ == batch_taken(),
{
    let arcs: [NamedArc; 5] = arc_motions();
    let mut v: Vec<Motion> = Vec::new();
    v.push(Motion::Linear(LinearMove { start: place_at(3, 12, 4), end: place_at(7, 12, 4) }));
    v.push(Motion::Arc(arcs[1].arc));
    v.push(Motion::Arc(arcs[3].arc));
    v
}

fn count_chords(arc: &ArcMove, t: &ArcTolerance) -> (n: u32)
    requires
        usable(t.tolerance),
    ensures
        n == chords_within(*arc, *t),
{
    match arc.chord_cosine(t.tolerance) {
        None => 1,
        Some(_) => arc.chords_for_angle(t.angle),
    }
}

/// Puts down what an arc records of a tolerance.
fn write_tolerance(arc: &ArcMove, t: &ArcTolerance, words: &mut Vec<u64>)
    requires
        usable(t.tolerance),
    ensures
        final(words)@ == old(words)@ + tolerance_words(*arc, *t),
{
    let ghost was = words@;
    let method: SweepMethod = SweepMethod::Bounded { tolerance: t.tolerance };
    let plan: StepPlan = method.plan(&Motion::Arc(*arc), t.sine);
    words.push(plain(t.tolerance));
    words.push(plan.steps as u64);
    words.push(plain(plan.bound));
    words.push(count_chords(arc, t) as u64);
    reveal(tolerance_words);
    assert(words@ =~= was + tolerance_words(*arc, *t));
}

/// Puts down how the probes of an arc were had, and its measures.
fn write_measures(c: &ArcCase, words: &mut Vec<u64>)
    ensures
        final(words)@ == old(words)@ + flag_words(c.closed@) + measure_words(*c),
{
    let ghost was = words@;
    let mut i: usize = 0;
    while i < c.closed.len()
        invariant
            i <= c.closed@.len(),
            words@ == was + flag_words(c.closed@.take(i as int)),
        decreases c.closed@.len() - i,
    {
        words.push(if c.closed[i] { 1 } else { 0 });
        i = i + 1;
        assert(words@ =~= was + flag_words(c.closed@.take(i as int)));
    }
    assert(c.closed@.take(i as int) =~= c.closed@);
    words.push(plain(c.arc.path_length()));
    words.push(plain(c.arc.deviation_bound(ARC_STEPS, c.sine)));
    words.push(plain(c.arc.chord_deviation(c.cosine)));
    reveal(measure_words);
    assert(words@ =~= was + flag_words(c.closed@) + measure_words(*c));
}

/// Puts down what an arc records of itself.
fn write_arc(c: &ArcCase, words: &mut Vec<u64>)
    requires
        c.wf(),
    ensures
        final(words)@ == old(words)@ + arc_words(*c),
{
    let ghost was = words@;
    write_measures(c, words);
    let ghost head = words@;
    let mut k: usize = 0;
    assert(words@ =~= head + tolerances_words(c.arc, c.tolerances@, 0));
    while k < c.tolerances.len()
        invariant
            k <= c.tolerances@.len(),
            c.wf(),
            words@ == head + tolerances_words(c.arc, c.tolerances@, k as nat),
        decreases c.tolerances@.len() - k,
    {
        let t: ArcTolerance = c.tolerances[k];
        proof {
            assert(usable(c.tolerances@[k as int].tolerance));
        }
        write_tolerance(&c.arc, &t, words);
        k = k + 1;
        assert(words@ =~= head + tolerances_words(c.arc, c.tolerances@, k as nat));
    }
    let ghost middle = words@;
    let eight: Double = Double::from_i64(8);
    let mut p: usize = 0;
    assert(words@ =~= middle + points_words(c.arc, c.points@, 0));
    while p < c.points.len()
        invariant
            p <= c.points@.len() <= 9,
            eight == of_int(8),
            words@ == middle + points_words(c.arc, c.points@, p as nat),
        decreases c.points@.len() - p,
    {
        let at: ArcPoint = c.points[p];
        let tip: Vec3 = c.arc.at(Double::from_i64(p as i64).over(eight), at.cosine, at.sine);
        tip.write_words(words);
        p = p + 1;
        assert(words@ =~= middle + points_words(c.arc, c.points@, p as nat));
    }
    reveal(arc_words);
    assert(words@ =~= was + arc_words(*c));
}

/// Puts down what motions left of one bundle.
fn write_held(after: &Bundle, words: &mut Vec<u64>, Ghost(b): Ghost<Bundle>, Ghost(m): Ghost<Seq<MotionSweep>>)
    requires
        after.rays@.len() == b.rays@.len(),
        forall|i: int| 0 <= i < b.rays@.len() ==> (#[trigger] after.rays@[i])@ == held(b, m, i, m.len()),
    ensures
        final(words)@ == old(words)@ + held_words(b, m, b.rays@.len()).push(0),
{
    let ghost was = words@;
    let mut i: usize = 0;
    assert(words@ =~= was + held_words(b, m, 0));
    while i < after.rays.len()
        invariant
            i <= after.rays@.len(),
            after.rays@.len() == b.rays@.len(),
            forall|i: int| 0 <= i < b.rays@.len() ==> (#[trigger] after.rays@[i])@ == held(b, m, i, m.len()),
            words@ == was + held_words(b, m, i as nat),
        decreases after.rays@.len() - i,
    {
        words.push(1);
        after.rays[i].write_words(words);
        i = i + 1;
        assert(words@ =~= was + held_words(b, m, i as nat));
    }
    words.push(0);
    assert(words@ =~= was + held_words(b, m, b.rays@.len()).push(0));
}

/// One and the same tool for each motion.
fn one_tool(n: usize) -> (v: Vec<u32>)
    ensures
        v@.len() == n,
{
    let mut v: Vec<u32> = Vec::new();
    while v.len() < n
        invariant
            v@.len() <= n,
        decreases n - v@.len(),
    {
        v.push(0);
    }
    v
}

/// Cuts motions from a stock in batches of a size.
fn cut_batches(field: &mut Vec<Bundle>, motions: &Vec<Motion>, sweeps: &Vec<Vec<MotionSweep>>, size: usize) -> (w: Vec<u64>)
    requires
        cuttable(old(field)@, motions@, sweeps@),
    ensures
        w@ == batch_words(old(field)@, sweeps@),
        batch_cut(old(field)@, sweeps@, final(field)@),
{
    let ghost f = field@;
    let tools: Vec<u32> = one_tool(motions.len());
    let runs: Vec<Run> = split_runs(motions.as_slice(), tools.as_slice(), size);
    let stats: CutStats = cut_field(field, sweeps.as_slice(), runs.as_slice());
    let mut w: Vec<u64> = Vec::new();
    let mut k: usize = 0;
    while k < field.len()
        invariant
            k <= f.len(),
            field@.len() == f.len(),
            f.len() == sweeps@.len(),
            field_left(f, sweeps@, field@, sweeps@.len()),
            w@ == held_field(f, sweeps@, k as nat),
        decreases f.len() - k,
    {
        assert(field@[k as int].rays@.len() == f[k as int].rays@.len());
        write_held(&field[k], &mut w, Ghost(f[k as int]), Ghost(sweeps@[k as int]@));
        k = k + 1;
    }
    w.push(plain(stats.removed_x));
    w.push(plain(stats.removed_y));
    w.push(plain(stats.removed_z));
    w.push(stats.rays_tested);
    w.push(stats.rays_changed);
    w.push(stats.substeps);
    reveal(batch_words);
    assert(w@ =~= batch_words(f, sweeps@));
    w
}

/// Cuts one stock, if it was built.
fn cut_build(
    tool: &str,
    name: &str,
    build: &mut Build,
    motions: &Vec<Motion>,
    sweeps: &Vec<Vec<MotionSweep>>,
    size: usize,
    failures: &mut Vec<Failure>,
) -> (w: Option<Vec<u64>>)
    requires
        cuttable(old(build).field@, motions@, sweeps@),
    ensures
        (w is Some) == (old(build).refused is None),
        w matches Some(v) ==> v@ == batch_words(old(build).field@, sweeps@),
        told(final(failures)@) == told(old(failures)@) + build_trouble(tool@, name@, *old(build)),
        build_cut(*old(build), sweeps@, *final(build)),
{
    let ghost told_was = told(failures@);
    let ghost b = *build;
    match &build.refused {
        Some(why) => {
            let f: Failure = trouble("batch/", tool, name, why.as_str());
            tell(failures, f);
            return None;
        },
        None => {},
    }
    assert(told(failures@) =~= told_was + build_trouble(tool@, name@, b));
    Some(cut_batches(&mut build.field, motions, sweeps, size))
}

/// Puts down the words of a stock, if it was built.
fn write_build(w: &Option<Vec<u64>>, words: &mut Vec<u64>)
    ensures
        final(words)@ == old(words)@ + match *w {
            Some(v) => v@,
            None => Seq::<u64>::empty(),
        },
{
    let ghost was = words@;
    match w {
        None => {
            assert(words@ =~= was + Seq::<u64>::empty());
        },
        Some(v) => {
            let mut i: usize = 0;
            assert(words@ =~= was + v@.take(0));
            while i < v.len()
                invariant
                    i <= v@.len(),
                    words@ == was + v@.take(i as int),
                decreases v@.len() - i,
            {
                words.push(v[i]);
                i = i + 1;
                assert(words@ =~= was + v@.take(i as int));
            }
            assert(v@.take(i as int) =~= v@);
        },
    }
}

/// Cuts motions in two ways, and holds the results against each other.
fn cut_batch(tool: &str, b: &mut BatchCase, failures: &mut Vec<Failure>, words: &mut Vec<u64>) -> (n: usize)
    requires
        old(b).wf(),
    ensures
        n == built(*old(b)),
        n <= 2,
        told(final(failures)@) == told(old(failures)@) + batch_trouble(tool@, *old(b)),
        final(words)@ == old(words)@ + build_words(old(b).single, old(b).sweeps@) + build_words(
            old(b).batched,
            old(b).sweeps@,
        ),
        build_cut(old(b).single, old(b).sweeps@, final(b).single),
        build_cut(old(b).batched, old(b).sweeps@, final(b).batched),
        final(b).motions == old(b).motions,
        final(b).sweeps == old(b).sweeps,
{
    let ghost was = words@;
    let ghost told_was = told(failures@);
    let ghost c = *b;
    let first: Option<Vec<u64>> = cut_build(tool, "/1", &mut b.single, &b.motions, &b.sweeps, 1, failures);
    let second: Option<Vec<u64>> = cut_build(tool, "/32", &mut b.batched, &b.motions, &b.sweeps, 32, failures);
    let mut n: usize = 0;
    if first.is_some() {
        n = n + 1;
    }
    if second.is_some() {
        n = n + 1;
    }
    let mut differ: bool = false;
    if let Some(v) = &first {
        if let Some(w) = &second {
            differ = !same_words(v, w);
        }
    }
    if differ {
        let f: Failure = trouble(
            "batch/",
            tool,
            "",
            "batch size 1 and 32 produced different results, so batching is not the invisible tuning knob it is documented to be",
        );
        proof {
            reveal_strlit("");
            assert(f.case@ =~= "batch/"@ + tool@);
        }
        tell(failures, f);
    }
    reveal(batch_trouble);
    assert(told(failures@) =~= told_was + batch_trouble(tool@, c));
    write_build(&first, words);
    write_build(&second, words);
    assert(words@ =~= was + build_words(c.single, c.sweeps@) + build_words(c.batched, c.sweeps@));
    n
}

/// Cuts the arcs of a tool.
fn cut_arcs(tool: &str, arcs: &mut Vec<ArcCase>, failures: &mut Vec<Failure>, words: &mut Vec<u64>) -> (n: usize)
    requires
        forall|i: int| 0 <= i < old(arcs)@.len() ==> (#[trigger] old(arcs)@[i]).wf(),
    ensures
        n == arcs_stocked(old(arcs)@, old(arcs)@.len()),
        n <= old(arcs)@.len(),
        final(arcs)@.len() == old(arcs)@.len(),
        forall|i: int| 0 <= i < old(arcs)@.len() ==> arc_cut(old(arcs)@[i], #[trigger] final(arcs)@[i]),
        told(final(failures)@) == told(old(failures)@) + arcs_trouble(tool@, old(arcs)@, old(arcs)@.len()),
        final(words)@ == old(words)@ + arcs_words(tool@, old(arcs)@, old(arcs)@.len()),
{
    let ghost was = words@;
    let ghost told_was = told(failures@);
    let ghost c = arcs@;
    let mut n: usize = 0;
    let mut i: usize = 0;
    assert(words@ =~= was + arcs_words(tool@, c, 0));
    assert(told(failures@) =~= told_was + arcs_trouble(tool@, c, 0));
    while i < arcs.len()
        invariant
            i <= c.len(),
            arcs@.len() == c.len(),
            forall|k: int| 0 <= k < c.len() ==> (#[trigger] c[k]).wf(),
            forall|k: int| 0 <= k < i ==> arc_cut(c[k], #[trigger] arcs@[k]),
            forall|k: int| i <= k < c.len() ==> #[trigger] arcs@[k] == c[k],
            n == arcs_stocked(c, i as nat),
            n <= i,
            words@ == was + arcs_words(tool@, c, i as nat),
            told(failures@) == told_was + arcs_trouble(tool@, c, i as nat),
        decreases c.len() - i,
    {
        assert(arcs@[i as int] == c[i as int]);
        write_head(tool, &arcs[i].cut, words);
        write_arc(&arcs[i], words);
        let done: bool = cut_case(tool, &mut arcs[i].cut, failures, words);
        if done {
            n = n + 1;
        }
        i = i + 1;
        assert(words@ =~= was + arcs_words(tool@, c, i as nat));
        assert(told(failures@) =~= told_was + arcs_trouble(tool@, c, i as nat));
    }
    n
}

fn cut_tool(tool: &mut ToolArcs, failures: &mut Vec<Failure>, words: &mut Vec<u64>) -> (n: usize)
    requires
        old(tool).wf(),
        old(tool).made,
        arcs_stocked(old(tool).arcs@, old(tool).arcs@.len()) + built(old(tool).batch) <= usize::MAX,
    ensures
        n == arcs_stocked(old(tool).arcs@, old(tool).arcs@.len()) + built(old(tool).batch),
        told(final(failures)@) == told(old(failures)@) + tool_arcs_trouble(*old(tool)),
        final(words)@ == old(words)@ + tool_arcs_words(*old(tool)),
        tool_arcs_cut(*old(tool), *final(tool)),
{
    let ghost was = words@;
    let ghost told_was = told(failures@);
    let ghost t = *tool;
    let name: &'static str = tool.tool;
    let arcs: usize = cut_arcs(name, &mut tool.arcs, failures, words);
    write_text("batch", words);
    write_text(name, words);
    let batches: usize = cut_batch(name, &mut tool.batch, failures, words);
    assert(told(failures@) =~= told_was + tool_arcs_trouble(t));
    assert(words@ =~= was + tool_arcs_words(t));
    arcs + batches
}

proof fn lemma_made_grows(t: Seq<ToolArcs>, n: nat, m: nat)
    requires
        n <= m,
    ensures
        all_made(t, n) <= all_made(t, m),
    decreases m,
{
    if n < m {
        lemma_made_grows(t, n, (m - 1) as nat);
    }
}

/// Cuts a stock with every tool along every arc, and motions in batches of two
/// sizes, which must come to the same.
pub fn sweep_arc_suite(tools: &mut Vec<ToolArcs>) -> (r: SuiteResult)
    requires
        all_arcs(old(tools)@),
        forall|i: int| 0 <= i < old(tools)@.len() ==> (#[trigger] old(tools)@[i]).wf(),
        all_made(old(tools)@, old(tools)@.len()) <= usize::MAX,
    ensures
        r.name@ == "sweep.arc"@,
        r.description@ == "arcs, helices and batching across three tools and five motions"@,
        r.cases == all_made(old(tools)@, old(tools)@.len()),
        told(r.failures@) == all_trouble(old(tools)@, old(tools)@.len()),
        r.digest@ == ({
            let w = all_words(old(tools)@, old(tools)@.len());
            spelled(w, w.len())
        }),
        final(tools)@.len() == old(tools)@.len(),
        forall|i: int|
            0 <= i < old(tools)@.len() ==> if old(tools)@[i].made {
                tool_arcs_cut(old(tools)@[i], #[trigger] final(tools)@[i])
            } else {
                final(tools)@[i] == old(tools)@[i]
            },
{
    let ghost t = tools@;
    let mut failures: Vec<Failure> = Vec::new();
    let mut words: Vec<u64> = Vec::new();
    write_text("sweep.arc", &mut words);
    assert(words@ =~= all_words(t, 0));
    let mut cases: usize = 0;
    let mut i: usize = 0;
    assert(told(failures@) =~= all_trouble(t, 0));
    while i < tools.len()
        invariant
            i <= t.len(),
            tools@.len() == t.len(),
            forall|k: int| 0 <= k < t.len() ==> (#[trigger] t[k]).wf(),
            all_made(t, t.len()) <= usize::MAX,
            t == old(tools)@,
            forall|k: int|
                0 <= k < i ==> if t[k].made {
                    tool_arcs_cut(t[k], #[trigger] tools@[k])
                } else {
                    tools@[k] == t[k]
                },
            forall|k: int| i <= k < t.len() ==> #[trigger] tools@[k] == t[k],
            cases == all_made(t, i as nat),
            told(failures@) == all_trouble(t, i as nat),
            words@ == all_words(t, i as nat),
        decreases t.len() - i,
    {
        proof {
            assert(tools@[i as int] == t[i as int]);
            lemma_made_grows(t, (i + 1) as nat, t.len());
        }
        if tools[i].made {
            let n: usize = cut_tool(&mut tools[i], &mut failures, &mut words);
            cases = cases + n;
        } else {
            let f: Failure = trouble("build/", tools[i].tool, "", "the catalogue refused a standard tool");
            proof {
                reveal_strlit("");
                assert(f.case@ =~= "build/"@ + t[i as int].tool@);
            }
            tell(&mut failures, f);
            assert(words@ =~= all_words(t, (i + 1) as nat));
        }
        i = i + 1;
    }
    let digest: String = spell(words.as_slice());
    SuiteResult {
        name: "sweep.arc",
        description: "arcs, helices and batching across three tools and five motions",
        cases,
        failures,
        digest,
    }
}

} // verus!
