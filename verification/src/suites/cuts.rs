//! Cutting a stock with every tool and motion, and what the cuts came to.
//!
//! What a tool covers of a ray comes from outside, and so does the stock. The
//! cutting, the counting and the record are here.

use super::outcomes::heading;
use crate::arithmetic::{difference, of_int, product, sum};
use crate::canonical::{list_words, plain, plain_bits, write_list, Canonical};
use crate::double::Double;
use crate::math::{Aabb3, Axis, Ray, Vec3};
use crate::mesh::words::write_text;
use crate::selftest::{number_of, push_count, Failure, SuiteResult};
use crate::spans::{total_length, Span, Spans};
use crate::sweep::arc::Motion;
use crate::sweep::cut::{
    cut_from, cut_tri_motion, field_stats, left_of, rays_of, steps_taken, Bundle, CutStats, StepPlan, SweepMethod, Swept,
};
use crate::sweep::LinearMove;
use vstd::prelude::*;

verus! {

/// A motion of a tool over a stock.
#[derive(Debug)]
pub struct CutCase {
    /// What the motion is called.
    pub motion: &'static str,
    /// What the tool covers of each probe.
    pub probes: Vec<Spans>,
    /// Why there is no stock, where there is none.
    pub refused: Option<String>,
    /// The stock.
    pub field: Vec<Bundle>,
    /// The box of the swept tool.
    pub bounds: Aabb3,
    /// How the motion is sub-stepped.
    pub plan: StepPlan,
    /// What the tool covers of each ray of each bundle.
    pub swept: Vec<Vec<Swept>>,
}

/// A tool and what it is to cut.
#[derive(Debug)]
pub struct ToolCuts {
    /// What the tool is called.
    pub tool: &'static str,
    /// The tool could be made.
    pub made: bool,
    /// Its motions.
    pub cuts: Vec<CutCase>,
}

impl CutCase {
    /// The covered intervals are those of the bundles' rays.
    pub open spec fn wf(self) -> bool {
        &&& rays_of(self.field@, self.field@.len()) * steps_taken(self.plan) <= u64::MAX
        &&& self.swept@.len() == self.field@.len()
        &&& forall|k: int| 0 <= k < self.field@.len() ==> (#[trigger] self.field@[k]).wf()
        &&& forall|k: int| 0 <= k < self.swept@.len() ==> (#[trigger] self.swept@[k])@.len() == self.field@[k].rays@.len()
        &&& forall|k: int, i: int|
            0 <= k < self.swept@.len() && 0 <= i < self.swept@[k]@.len() ==> (#[trigger] self.swept@[k]@[i]).spans.wf()
    }

    /// What cutting makes of the case: the tool is gone from the stock, where
    /// there is one, and nothing else is touched.
    pub open spec fn cut_to(self, after: CutCase) -> bool {
        if self.refused is Some {
            after == self
        } else {
            &&& after == (CutCase { field: after.field, ..self })
            &&& after.field@.len() == self.field@.len()
            &&& forall|k: int|
                0 <= k < self.field@.len() ==> cut_from(
                    self.field@[k],
                    self.bounds,
                    self.swept@[k]@,
                    #[trigger] after.field@[k],
                )
        }
    }
}

impl ToolCuts {
    /// Every case is well formed.
    pub open spec fn wf(self) -> bool {
        forall|i: int| 0 <= i < self.cuts@.len() ==> (#[trigger] self.cuts@[i]).wf()
    }
}

/// What failures say.
pub open spec fn told(f: Seq<Failure>) -> Seq<(Seq<char>, Seq<char>)> {
    Seq::new(f.len(), |i: int| (f[i].case@, f[i].detail@))
}

/// Words in a record.
pub open spec fn spelled(w: Seq<u64>, n: nat) -> Seq<char>
    decreases n,
{
    if n == 0 {
        Seq::empty()
    } else {
        spelled(w, (n - 1) as nat) + number_of(w[n - 1] as nat)
    }
}

/// The words of what a cut leaves on the first `n` rays of a bundle, each behind
/// a one.
pub open spec fn left_words(b: Bundle, bounds: Aabb3, swept: Seq<Swept>, n: nat) -> Seq<u64>
    decreases n,
{
    if n == 0 {
        Seq::empty()
    } else {
        left_words(b, bounds, swept, (n - 1) as nat) + (seq![1u64] + list_words(left_of(b, bounds, swept, n - 1)))
    }
}

/// The words of what a cut leaves of the first `n` bundles.
pub open spec fn field_words(field: Seq<Bundle>, bounds: Aabb3, swept: Seq<Vec<Swept>>, n: nat) -> Seq<u64>
    decreases n,
{
    if n == 0 {
        Seq::empty()
    } else {
        field_words(field, bounds, swept, (n - 1) as nat) + left_words(
            field[n - 1],
            bounds,
            swept[n - 1]@,
            field[n - 1].rays@.len(),
        ).push(0)
    }
}

/// The volume of the first `n` rays of a bundle, a ray standing for an area.
pub open spec fn rays_volume(rays: Seq<Seq<Span>>, area: Double, n: nat) -> Double
    decreases n,
{
    if n == 0 {
        Double { bits: 0 }
    } else {
        sum(rays_volume(rays, area, (n - 1) as nat), product(total_length(rays[n - 1]), area))
    }
}

/// The volume of what the rays of the first `n` bundles hold, as the bundles
/// along one axis have it.
pub open spec fn axis_volume(field: Seq<Bundle>, rays: Seq<Seq<Seq<Span>>>, axis: Axis, n: nat) -> Double
    decreases n,
{
    if n == 0 {
        Double { bits: 0 }
    } else {
        let before = axis_volume(field, rays, axis, (n - 1) as nat);
        if field[n - 1].axis == axis {
            sum(before, rays_volume(rays[n - 1], field[n - 1].cell_area, rays[n - 1].len()))
        } else {
            before
        }
    }
}

/// What the rays of a field hold.
pub open spec fn stock_rays(field: Seq<Bundle>) -> Seq<Seq<Seq<Span>>> {
    Seq::new(field.len(), |k: int| Seq::new(field[k].rays@.len(), |i: int| field[k].rays@[i]@))
}

/// What a cut leaves on the rays of a field.
pub open spec fn left_rays(field: Seq<Bundle>, bounds: Aabb3, swept: Seq<Vec<Swept>>) -> Seq<Seq<Seq<Span>>> {
    Seq::new(field.len(), |k: int| Seq::new(field[k].rays@.len(), |i: int| left_of(field[k], bounds, swept[k]@, i)))
}

/// How much volume a cut takes, as the bundles along one axis have it: what was
/// there less what is left.
pub open spec fn gone(field: Seq<Bundle>, bounds: Aabb3, swept: Seq<Vec<Swept>>, axis: Axis) -> Double {
    difference(
        axis_volume(field, stock_rays(field), axis, field.len()),
        axis_volume(field, left_rays(field, bounds, swept), axis, field.len()),
    )
}

/// The words of the volume that a cut takes, for each axis.
pub open spec fn gone_words(field: Seq<Bundle>, bounds: Aabb3, swept: Seq<Vec<Swept>>) -> Seq<u64> {
    seq![
        plain_bits(gone(field, bounds, swept, Axis::X)),
        plain_bits(gone(field, bounds, swept, Axis::Y)),
        plain_bits(gone(field, bounds, swept, Axis::Z)),
    ]
}

/// The words of the statistics of a cut.
pub open spec fn stats_words(s: CutStats) -> Seq<u64> {
    seq![
        s.rays_tested,
        s.rays_rejected,
        s.rays_changed,
        s.substeps,
        s.rays_exact,
        s.rays_substepped,
        plain_bits(s.worst_bound_mm),
    ]
}

/// What a case records in front of its cut: names and probes.
#[verifier::opaque]
pub open spec fn head_words(tool: Seq<char>, c: CutCase) -> Seq<u64> {
    list_words(tool) + list_words(c.motion@) + list_words(c.probes@)
}

/// What the cut of a case records: nothing where there is no stock.
#[verifier::opaque]
pub open spec fn cut_words(c: CutCase) -> Seq<u64> {
    if c.refused is Some {
        Seq::empty()
    } else {
        field_words(c.field@, c.bounds, c.swept@, c.field@.len()) + gone_words(
            c.field@,
            c.bounds,
            c.swept@,
        ) + stats_words(
            field_stats(c.field@, c.bounds, c.plan, c.swept@, c.swept@.len()),
        )
    }
}

/// What is wrong with a case: that there is no stock, and why.
pub open spec fn case_trouble(tool: Seq<char>, c: CutCase) -> Seq<(Seq<char>, Seq<char>)> {
    match c.refused {
        Some(why) => seq![("stock/"@ + tool + "/"@ + c.motion@, why@)],
        None => Seq::empty(),
    }
}

/// What the first `n` cases of a tool record.
pub open spec fn tool_words(tool: Seq<char>, c: Seq<CutCase>, n: nat) -> Seq<u64>
    decreases n,
{
    if n == 0 {
        Seq::empty()
    } else {
        tool_words(tool, c, (n - 1) as nat) + (head_words(tool, c[n - 1]) + cut_words(c[n - 1]))
    }
}

/// What is wrong with the first `n` cases of a tool.
pub open spec fn tool_trouble(tool: Seq<char>, c: Seq<CutCase>, n: nat) -> Seq<(Seq<char>, Seq<char>)>
    decreases n,
{
    if n == 0 {
        Seq::empty()
    } else {
        tool_trouble(tool, c, (n - 1) as nat) + case_trouble(tool, c[n - 1])
    }
}

/// How many of the first `n` cases have a stock.
pub open spec fn stocked(c: Seq<CutCase>, n: nat) -> nat
    decreases n,
{
    if n == 0 {
        0
    } else {
        stocked(c, (n - 1) as nat) + if c[n - 1].refused is None {
            1nat
        } else {
            0
        }
    }
}

/// What is wrong where a tool could not be made.
pub open spec fn no_tool(tool: Seq<char>) -> (Seq<char>, Seq<char>) {
    ("build/"@ + tool, "the catalogue refused a standard tool"@)
}

/// What the first `n` tools record, behind the name of the suite.
pub open spec fn cuts_words(t: Seq<ToolCuts>, n: nat) -> Seq<u64>
    decreases n,
{
    if n == 0 {
        heading("sweep"@)
    } else {
        cuts_words(t, (n - 1) as nat) + if t[n - 1].made {
            tool_words(t[n - 1].tool@, t[n - 1].cuts@, t[n - 1].cuts@.len())
        } else {
            Seq::empty()
        }
    }
}

/// What is wrong with the first `n` tools.
pub open spec fn cuts_trouble(t: Seq<ToolCuts>, n: nat) -> Seq<(Seq<char>, Seq<char>)>
    decreases n,
{
    if n == 0 {
        Seq::empty()
    } else {
        cuts_trouble(t, (n - 1) as nat) + if t[n - 1].made {
            tool_trouble(t[n - 1].tool@, t[n - 1].cuts@, t[n - 1].cuts@.len())
        } else {
            seq![no_tool(t[n - 1].tool@)]
        }
    }
}

/// How many cases of the first `n` tools are cut.
pub open spec fn cuts_made(t: Seq<ToolCuts>, n: nat) -> nat
    decreases n,
{
    if n == 0 {
        0
    } else {
        cuts_made(t, (n - 1) as nat) + if t[n - 1].made {
            stocked(t[n - 1].cuts@, t[n - 1].cuts@.len())
        } else {
            0
        }
    }
}

/// Puts words into a record.
pub(crate) fn spell(w: &[u64]) -> (s: String)
    ensures
        s@ == spelled(w@, w@.len()),
{
    let mut s: String = String::new();
    let mut i: usize = 0;
    while i < w.len()
        invariant
            i <= w@.len(),
            s@ == spelled(w@, i as nat),
        decreases w@.len() - i,
    {
        push_count(&mut s, w[i]);
        i = i + 1;
    }
    s
}

/// A failure with a name that is put together.
pub(crate) fn trouble(kind: &str, tool: &str, rest: &str, detail: &str) -> (f: Failure)
    ensures
        f.case@ == kind@ + tool@ + rest@,
        f.detail@ == detail@,
{
    let mut case: String = String::new();
    case.append(kind);
    case.append(tool);
    case.append(rest);
    assert(case@ =~= kind@ + tool@ + rest@);
    let mut text: String = String::new();
    text.append(detail);
    assert(text@ =~= detail@);
    Failure { case, detail: text }
}

proof fn lemma_told_push(f: Seq<Failure>, x: Failure)
    ensures
        told(f.push(x)) == told(f) + seq![(x.case@, x.detail@)],
{
    assert(told(f.push(x)) =~= told(f) + seq![(x.case@, x.detail@)]);
}

/// Adds a failure.
pub(crate) fn tell(failures: &mut Vec<Failure>, f: Failure)
    ensures
        told(final(failures)@) == told(old(failures)@) + seq![(f.case@, f.detail@)],
{
    proof {
        lemma_told_push(failures@, f);
    }
    failures.push(f);
}

pub(crate) fn write_stats(s: &CutStats, words: &mut Vec<u64>)
    ensures
        final(words)@ == old(words)@ + stats_words(*s),
{
    let ghost was = words@;
    words.push(s.rays_tested);
    words.push(s.rays_rejected);
    words.push(s.rays_changed);
    words.push(s.substeps);
    words.push(s.rays_exact);
    words.push(s.rays_substepped);
    words.push(plain(s.worst_bound_mm));
    assert(words@ =~= was + stats_words(*s));
}

/// Puts down what a cut left of one bundle.
fn write_left(after: &Bundle, words: &mut Vec<u64>, Ghost(b): Ghost<Bundle>, Ghost(bounds): Ghost<Aabb3>, Ghost(swept): Ghost<Seq<Swept>>)
    requires
        swept.len() == b.rays@.len(),
        cut_from(b, bounds, swept, *after),
    ensures
        final(words)@ == old(words)@ + left_words(b, bounds, swept, b.rays@.len()).push(0),
{
    let ghost was = words@;
    let mut i: usize = 0;
    assert(words@ =~= was + left_words(b, bounds, swept, 0));
    while i < after.rays.len()
        invariant
            i <= after.rays@.len(),
            after.rays@.len() == b.rays@.len(),
            swept.len() == b.rays@.len(),
            cut_from(b, bounds, swept, *after),
            words@ == was + left_words(b, bounds, swept, i as nat),
        decreases after.rays@.len() - i,
    {
        words.push(1);
        after.rays[i].write_words(words);
        i = i + 1;
        assert(words@ =~= was + left_words(b, bounds, swept, i as nat));
    }
    words.push(0);
    assert(words@ =~= was + left_words(b, bounds, swept, b.rays@.len()).push(0));
}

/// Puts down what a cut left of a field.
fn write_field(
    after: &Vec<Bundle>,
    words: &mut Vec<u64>,
    Ghost(field): Ghost<Seq<Bundle>>,
    Ghost(bounds): Ghost<Aabb3>,
    Ghost(swept): Ghost<Seq<Vec<Swept>>>,
)
    requires
        swept.len() == field.len(),
        after@.len() == field.len(),
        forall|k: int| 0 <= k < swept.len() ==> (#[trigger] swept[k])@.len() == field[k].rays@.len(),
        forall|k: int| 0 <= k < swept.len() ==> cut_from(field[k], bounds, swept[k]@, #[trigger] after@[k]),
    ensures
        final(words)@ == old(words)@ + field_words(field, bounds, swept, field.len()),
{
    let ghost was = words@;
    let mut k: usize = 0;
    assert(words@ =~= was + field_words(field, bounds, swept, 0));
    while k < after.len()
        invariant
            k <= after@.len(),
            swept.len() == field.len(),
            after@.len() == field.len(),
            forall|k: int| 0 <= k < swept.len() ==> (#[trigger] swept[k])@.len() == field[k].rays@.len(),
            forall|k: int| 0 <= k < swept.len() ==> cut_from(field[k], bounds, swept[k]@, #[trigger] after@[k]),
            words@ == was + field_words(field, bounds, swept, k as nat),
        decreases after@.len() - k,
    {
        proof {
            assert(swept[k as int]@.len() == field[k as int].rays@.len());
            assert(cut_from(field[k as int], bounds, swept[k as int]@, after@[k as int]));
        }
        write_left(&after[k], words, Ghost(field[k as int]), Ghost(bounds), Ghost(swept[k as int]@));
        k = k + 1;
        assert(words@ =~= was + field_words(field, bounds, swept, k as nat));
    }
}

/// The volume of a bundle.
fn bundle_volume(b: &Bundle, Ghost(rays): Ghost<Seq<Seq<Span>>>) -> (r: Double)
    requires
        rays.len() == b.rays@.len(),
        forall|i: int| 0 <= i < rays.len() ==> (#[trigger] b.rays@[i])@ == rays[i],
    ensures
        r == rays_volume(rays, b.cell_area, rays.len()),
{
    let mut r: Double = Double::zeroed();
    let mut i: usize = 0;
    while i < b.rays.len()
        invariant
            i <= b.rays@.len(),
            rays.len() == b.rays@.len(),
            forall|i: int| 0 <= i < rays.len() ==> (#[trigger] b.rays@[i])@ == rays[i],
            r == rays_volume(rays, b.cell_area, i as nat),
        decreases b.rays@.len() - i,
    {
        r = r.plus(b.rays[i].measure().times(b.cell_area));
        i = i + 1;
    }
    r
}

/// The volume of a field, as the bundles along one axis have it.
fn field_volume(field: &Vec<Bundle>, axis: Axis, Ghost(f): Ghost<Seq<Bundle>>, Ghost(rays): Ghost<Seq<Seq<Seq<Span>>>>) -> (r: Double)
    requires
        f.len() == field@.len(),
        rays.len() == field@.len(),
        forall|k: int|
            0 <= k < f.len() ==> (#[trigger] field@[k]).axis == f[k].axis && field@[k].cell_area == f[k].cell_area
                && stock_rays(field@)[k] == rays[k],
    ensures
        r == axis_volume(f, rays, axis, f.len()),
{
    let mut r: Double = Double::zeroed();
    let mut k: usize = 0;
    while k < field.len()
        invariant
            k <= field@.len(),
            f.len() == field@.len(),
            rays.len() == field@.len(),
            forall|k: int|
                0 <= k < f.len() ==> (#[trigger] field@[k]).axis == f[k].axis && field@[k].cell_area == f[k].cell_area
                    && stock_rays(field@)[k] == rays[k],
            r == axis_volume(f, rays, axis, k as nat),
        decreases field@.len() - k,
    {
        assert(field@[k as int].axis == f[k as int].axis && stock_rays(field@)[k as int] == rays[k as int]);
        if field[k].axis == axis {
            r = r.plus(bundle_volume(&field[k], Ghost(rays[k as int])));
        }
        k = k + 1;
    }
    r
}

/// The volumes of a field, for each axis.
fn field_volumes(field: &Vec<Bundle>, Ghost(f): Ghost<Seq<Bundle>>, Ghost(rays): Ghost<Seq<Seq<Seq<Span>>>>) -> (r: [Double; 3])
    requires
        f.len() == field@.len(),
        rays.len() == field@.len(),
        forall|k: int|
            0 <= k < f.len() ==> (#[trigger] field@[k]).axis == f[k].axis && field@[k].cell_area == f[k].cell_area
                && stock_rays(field@)[k] == rays[k],
    ensures
        r[0] == axis_volume(f, rays, Axis::X, f.len()),
        r[1] == axis_volume(f, rays, Axis::Y, f.len()),
        r[2] == axis_volume(f, rays, Axis::Z, f.len()),
{
    let x: Double = field_volume(field, Axis::X, Ghost(f), Ghost(rays));
    let y: Double = field_volume(field, Axis::Y, Ghost(f), Ghost(rays));
    let z: Double = field_volume(field, Axis::Z, Ghost(f), Ghost(rays));
    [x, y, z]
}

/// Puts down the names and the probes of a case.
pub(crate) fn write_head(tool: &str, case: &CutCase, words: &mut Vec<u64>)
    ensures
        final(words)@ == old(words)@ + head_words(tool@, *case),
{
    let ghost was = words@;
    write_text(tool, words);
    write_text(case.motion, words);
    write_list(case.probes.as_slice(), words);
    reveal(head_words);
    assert(words@ =~= was + head_words(tool@, *case));
}

/// Cuts one case. The result says whether there was a stock.
pub(crate) fn cut_case(tool: &str, case: &mut CutCase, failures: &mut Vec<Failure>, words: &mut Vec<u64>) -> (r: bool)
    requires
        old(case).wf(),
    ensures
        r == (old(case).refused is None),
        old(case).cut_to(*final(case)),
        told(final(failures)@) == told(old(failures)@) + case_trouble(tool@, *old(case)),
        final(words)@ == old(words)@ + cut_words(*old(case)),
{
    let ghost was = words@;
    let ghost told_was = told(failures@);
    let ghost c = *case;
    reveal(cut_words);
    match &case.refused {
        Some(why) => {
            let mut rest: String = String::new();
            rest.append("/");
            rest.append(case.motion);
            let f: Failure = trouble("stock/", tool, rest.as_str(), why.as_str());
            assert(f.case@ =~= "stock/"@ + tool@ + "/"@ + c.motion@);
            tell(failures, f);
            assert(words@ =~= was + cut_words(c));
            return false;
        },
        None => {},
    }
    let before: [Double; 3] = field_volumes(&case.field, Ghost(c.field@), Ghost(stock_rays(c.field@)));
    let stats: CutStats = cut_tri_motion(&mut case.field, &case.bounds, &case.plan, case.swept.as_slice());
    write_field(&case.field, words, Ghost(c.field@), Ghost(c.bounds), Ghost(c.swept@));
    proof {
        let left = left_rays(c.field@, c.bounds, c.swept@);
        assert forall|k: int| 0 <= k < c.field@.len() implies (#[trigger] case.field@[k]).axis == c.field@[k].axis
            && case.field@[k].cell_area == c.field@[k].cell_area && stock_rays(case.field@)[k] == left[k] by {
            assert(cut_from(c.field@[k], c.bounds, c.swept@[k]@, case.field@[k]));
            assert(c.swept@[k]@.len() == c.field@[k].rays@.len());
            assert(stock_rays(case.field@)[k] =~= left[k]);
        }
    }
    let after: [Double; 3] = field_volumes(
        &case.field,
        Ghost(c.field@),
        Ghost(left_rays(c.field@, c.bounds, c.swept@)),
    );
    words.push(plain(before[0].minus(after[0])));
    words.push(plain(before[1].minus(after[1])));
    words.push(plain(before[2].minus(after[2])));
    write_stats(&stats, words);
    assert(words@ =~= was + cut_words(c));
    assert(told(failures@) =~= told_was + case_trouble(tool@, c));
    true
}

fn cut_tool(tool: &mut ToolCuts, failures: &mut Vec<Failure>, words: &mut Vec<u64>) -> (n: usize)
    requires
        old(tool).wf(),
    ensures
        n == stocked(old(tool).cuts@, old(tool).cuts@.len()),
        n <= old(tool).cuts@.len(),
        tool_cut(*old(tool), *final(tool)),
        told(final(failures)@) == told(old(failures)@) + tool_trouble(
            old(tool).tool@,
            old(tool).cuts@,
            old(tool).cuts@.len(),
        ),
        final(words)@ == old(words)@ + tool_words(old(tool).tool@, old(tool).cuts@, old(tool).cuts@.len()),
{
    let ghost was = words@;
    let ghost told_was = told(failures@);
    let ghost c = tool.cuts@;
    let name: &'static str = tool.tool;
    let mut n: usize = 0;
    let mut i: usize = 0;
    assert(words@ =~= was + tool_words(name@, c, 0));
    assert(told(failures@) =~= told_was + tool_trouble(name@, c, 0));
    while i < tool.cuts.len()
        invariant
            i <= c.len(),
            tool.cuts@.len() == c.len(),
            tool.tool == old(tool).tool,
            tool.made == old(tool).made,
            c == old(tool).cuts@,
            forall|k: int| 0 <= k < c.len() ==> (#[trigger] c[k]).wf(),
            forall|k: int| 0 <= k < i ==> c[k].cut_to(#[trigger] tool.cuts@[k]),
            forall|k: int| i <= k < c.len() ==> #[trigger] tool.cuts@[k] == c[k],
            n == stocked(c, i as nat),
            n <= i,
            words@ == was + tool_words(name@, c, i as nat),
            told(failures@) == told_was + tool_trouble(name@, c, i as nat),
        decreases c.len() - i,
    {
        assert(tool.cuts@[i as int] == c[i as int]);
        write_head(name, &tool.cuts[i], words);
        let done: bool = cut_case(name, &mut tool.cuts[i], failures, words);
        if done {
            n = n + 1;
        }
        i = i + 1;
        assert(words@ =~= was + tool_words(name@, c, i as nat));
        assert(told(failures@) =~= told_was + tool_trouble(name@, c, i as nat));
    }
    n
}

/// A motion and what it is called.
#[derive(Clone, Copy, Debug)]
pub struct NamedMove {
    /// What the motion is called.
    pub name: &'static str,
    /// The motion.
    pub motion: LinearMove,
}

/// A place with integer coordinates.
pub open spec fn place(x: int, y: int, z: int) -> Vec3 {
    Vec3 { x: of_int(x), y: of_int(y), z: of_int(z) }
}

pub(crate) fn place_at(x: i64, y: i64, z: i64) -> (p: Vec3)
    ensures
        p == place(x as int, y as int, z as int),
{
    Vec3::new(Double::from_i64(x), Double::from_i64(y), Double::from_i64(z))
}

/// The motions of the suite: along the table, into it, and both at once.
pub fn linear_motions() -> (v: [NamedMove; 3])
    ensures
        forall|k: int| 0 <= k < 3 ==> (#[trigger] v@[k]).name@ == move_names()[k] && v@[k].motion == moves()[k],
{
    [
        NamedMove { name: "horizontal", motion: LinearMove { start: place_at(2, 9, 4), end: place_at(26, 15, 4) } },
        NamedMove { name: "plunge", motion: LinearMove { start: place_at(14, 12, 11), end: place_at(14, 12, 2) } },
        NamedMove { name: "ramp", motion: LinearMove { start: place_at(4, 6, 10), end: place_at(24, 18, 3) } },
    ]
}

/// One probe along each axis: upwards, along x and along y.
pub fn linear_probes() -> (v: [Ray; 3])
    ensures
        v@[0] == (Ray { origin: place(13, 11, -5), direction: place(0, 0, 1) }),
        v@[1] == (Ray { origin: place(-5, 11, 5), direction: place(1, 0, 0) }),
        v@[2] == (Ray { origin: place(13, -5, 5), direction: place(0, 1, 0) }),
{
    [
        Ray { origin: place_at(13, 11, -5), direction: place_at(0, 0, 1) },
        Ray { origin: place_at(-5, 11, 5), direction: place_at(1, 0, 0) },
        Ray { origin: place_at(13, -5, 5), direction: place_at(0, 1, 0) },
    ]
}

/// The names of the tools of the suite.
pub open spec fn cut_tools() -> Seq<Seq<char>> {
    seq!["flat"@, "ball"@, "drill"@]
}

/// The names of the motions of the suite.
pub open spec fn move_names() -> Seq<Seq<char>> {
    seq!["horizontal"@, "plunge"@, "ramp"@]
}

/// The motions of the suite.
pub open spec fn moves() -> Seq<LinearMove> {
    seq![
        LinearMove { start: place(2, 9, 4), end: place(26, 15, 4) },
        LinearMove { start: place(14, 12, 11), end: place(14, 12, 2) },
        LinearMove { start: place(4, 6, 10), end: place(24, 18, 3) },
    ]
}

/// Bits of the tolerance that the cuts of the suite keep to: a tenth of the
/// distance between rays.
pub const CUT_TOLERANCE: u64 = 0x3fb4_7ae1_47ae_147b;

/// A case is that of a motion of the suite: its name, its three probes and its
/// steps.
pub open spec fn case_of(c: CutCase, k: int) -> bool {
    &&& c.motion@ == move_names()[k]
    &&& c.probes@.len() == 3
    &&& c.plan == (SweepMethod::Analytic { tolerance: Double { bits: CUT_TOLERANCE } }).plan_of(
        Motion::Linear(moves()[k]),
        Double { bits: 0 },
    )
}

/// Every tool of the suite, and each that could be made with every motion.
pub open spec fn all_cuts(t: Seq<ToolCuts>) -> bool {
    &&& t.len() == 3
    &&& forall|i: int| 0 <= i < 3 ==> (#[trigger] t[i]).tool@ == cut_tools()[i]
    &&& forall|i: int|
        0 <= i < 3 && (#[trigger] t[i]).made ==> t[i].cuts@.len() == 3 && forall|k: int|
            0 <= k < 3 ==> case_of(#[trigger] t[i].cuts@[k], k)
}

/// What cutting makes of a tool's cases.
pub open spec fn tool_cut(t: ToolCuts, after: ToolCuts) -> bool {
    &&& after.tool == t.tool
    &&& after.made == t.made
    &&& after.cuts@.len() == t.cuts@.len()
    &&& forall|i: int| 0 <= i < t.cuts@.len() ==> t.cuts@[i].cut_to(#[trigger] after.cuts@[i])
}

/// Cuts a stock with every tool and every motion.
pub fn sweep_suite(tools: &mut Vec<ToolCuts>) -> (r: SuiteResult)
    requires
        all_cuts(old(tools)@),
        forall|i: int| 0 <= i < old(tools)@.len() ==> (#[trigger] old(tools)@[i]).wf(),
        cuts_made(old(tools)@, old(tools)@.len()) <= usize::MAX,
    ensures
        r.name@ == "sweep"@,
        r.description@ == "swept spans and cut fields across three tools and three motion cases"@,
        r.cases == cuts_made(old(tools)@, old(tools)@.len()),
        told(r.failures@) == cuts_trouble(old(tools)@, old(tools)@.len()),
        r.digest@ == ({
            let w = cuts_words(old(tools)@, old(tools)@.len());
            spelled(w, w.len())
        }),
        final(tools)@.len() == old(tools)@.len(),
        forall|i: int|
            0 <= i < old(tools)@.len() ==> if old(tools)@[i].made {
                tool_cut(old(tools)@[i], #[trigger] final(tools)@[i])
            } else {
                final(tools)@[i] == old(tools)@[i]
            },
{
    let ghost t = tools@;
    let mut failures: Vec<Failure> = Vec::new();
    let mut words: Vec<u64> = Vec::new();
    write_text("sweep", &mut words);
    assert(words@ =~= cuts_words(t, 0));
    let mut cases: usize = 0;
    let mut i: usize = 0;
    assert(told(failures@) =~= cuts_trouble(t, 0));
    while i < tools.len()
        invariant
            i <= t.len(),
            tools@.len() == t.len(),
            t == old(tools)@,
            forall|k: int| 0 <= k < t.len() ==> (#[trigger] t[k]).wf(),
            cuts_made(t, t.len()) <= usize::MAX,
            forall|k: int|
                0 <= k < i ==> if t[k].made {
                    tool_cut(t[k], #[trigger] tools@[k])
                } else {
                    tools@[k] == t[k]
                },
            forall|k: int| i <= k < t.len() ==> #[trigger] tools@[k] == t[k],
            cases == cuts_made(t, i as nat),
            told(failures@) == cuts_trouble(t, i as nat),
            words@ == cuts_words(t, i as nat),
        decreases t.len() - i,
    {
        proof {
            assert(tools@[i as int] == t[i as int]);
            lemma_made_grows(t, (i + 1) as nat, t.len());
        }
        if tools[i].made {
            let n: usize = cut_tool(&mut tools[i], &mut failures, &mut words);
            cases = cases + n;
        } else {
            let f: Failure = trouble("build/", tools[i].tool, "", "the catalogue refused a standard tool");
            proof {
                reveal_strlit("");
                assert(f.case@ =~= "build/"@ + t[i as int].tool@);
            }
            tell(&mut failures, f);
            assert(words@ =~= cuts_words(t, (i + 1) as nat));
        }
        i = i + 1;
    }
    let digest: String = spell(words.as_slice());
    SuiteResult {
        name: "sweep",
        description: "swept spans and cut fields across three tools and three motion cases",
        cases,
        failures,
        digest,
    }
}

proof fn lemma_made_grows(t: Seq<ToolCuts>, n: nat, m: nat)
    requires
        n <= m,
    ensures
        cuts_made(t, n) <= cuts_made(t, m),
    decreases m,
{
    if n < m {
        lemma_made_grows(t, n, (m - 1) as nat);
    }
}

} // verus!
