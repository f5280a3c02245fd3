//! Self-test suites, and the record of what they computed.
//!
//! Inputs are drawn from a seeded generator. What a suite says of them holds
//! whatever was drawn.

use crate::double::Double;
use crate::predicates::corpus::{CorpusCase, PredicateKind};
use crate::suites::algebra::{drawn_pair, failing, pairs_words, span_algebra_suite, SpanPair};
use crate::suites::arcs::{all_arcs, all_made, all_trouble, all_words, sweep_arc_suite, ToolArcs};
use crate::suites::corpus::{case_finite, corpus_words, mismatched, predicate_corpus_suite};
use crate::suites::cuts::{all_cuts, cuts_made, cuts_trouble, cuts_words, spelled, sweep_suite, told, ToolCuts};
use crate::suites::encoding::{canonical_hash_suite, encoding_words};
use crate::suites::fields::{
    collision_suite, deviation_suite, dexel_field_suite, tool_geometry_suite, CollisionCase, Deviations, FieldCase,
    ProfileCase, ToolCase,
};
use crate::suites::identities::{identity_words, on_grid, predicate_identity_suite, IdentityCase};
use crate::suites::judging::{contour_suite, CodedNormal, Extraction};
use crate::suites::kernels::{math_kernel_suite, transcendental_suite, ExactCase, FunctionCase, KernelCase};
use crate::suites::outcomes::{contents_of, flaws_of, heading, weights_of};
use crate::suites::polynomials::{root_solver_suite, PolynomialCase};
use crate::suites::setups::{refixture_suite, setups_checked, setups_planned, suite_block, SetupCase};
use crate::suites::solids::{casts_of, mesh_suite, small, solids_flaws, solids_words, suite_shapes, SolidCase};
use crate::text::{decimal_text, push_number};
use crate::text_laws::law_decimal_spells;
use vstd::prelude::*;

verus! {

/// Seed for the predicate identity suite.
pub const PREDICATE_IDENTITY_SEED: u64 = 0x0000_c41b_0000_0001;

/// Seed for the span algebra suite.
pub const SPAN_ALGEBRA_SEED: u64 = 0x0000_c41b_0000_0002;

/// Seed for the root-solver suite.
pub const ROOT_SOLVER_SEED: u64 = 0x0000_c41b_0000_0005;

/// The cosine of `0.4`, by which the oblique setup turns.
pub const COSINE_OF_TURN: u64 = 0x3fed_7954_e7db_a2f8;

/// The sine of `0.4`.
pub const SINE_OF_TURN: u64 = 0x3fd8_ec3a_e92b_676b;

/// Iterations of the predicate identity suite.
pub const PREDICATE_IDENTITY_CASES: usize = 5000;

/// Iterations of the span algebra suite.
pub const SPAN_ALGEBRA_CASES: usize = 2000;

/// Polynomials solved in the root-solver suite.
pub const ROOT_SOLVER_CASES: usize = 3000;

/// One failing case within a suite.
#[derive(Debug, PartialEq, Eq)]
pub struct Failure {
    /// Identifies the case within the suite.
    pub case: String,
    /// What went wrong.
    pub detail: String,
}

/// The outcome of one suite.
#[derive(Debug, PartialEq, Eq)]
pub struct SuiteResult {
    /// Stable machine-readable name.
    pub name: &'static str,
    /// One-line description.
    pub description: &'static str,
    /// How many cases ran.
    pub cases: usize,
    /// Every failure, in order.
    pub failures: Vec<Failure>,
    /// A record of everything this suite computed.
    pub digest: String,
}

impl SuiteResult {
    /// True if the suite had no failures.
    pub fn passed(&self) -> (r: bool)
        ensures
            r == (self.failures@.len() == 0),
    {
        self.failures.len() == 0
    }
}

/// The full self-test result.
#[derive(Debug, PartialEq, Eq)]
pub struct SelfTestReport {
    /// Suites in a fixed order.
    pub suites: Vec<SuiteResult>,
    /// A record of every suite, in order.
    pub digest: String,
}

/// Cases of the first `n` suites.
pub open spec fn cases_of(s: Seq<SuiteResult>, n: nat) -> int
    decreases n,
{
    if n == 0 {
        0
    } else {
        cases_of(s, (n - 1) as nat) + s[n - 1].cases
    }
}

/// Failures of the first `n` suites.
pub open spec fn failures_of(s: Seq<SuiteResult>, n: nat) -> int
    decreases n,
{
    if n == 0 {
        0
    } else {
        failures_of(s, (n - 1) as nat) + s[n - 1].failures@.len()
    }
}

proof fn lemma_totals_grow(s: Seq<SuiteResult>, n: nat, m: nat)
    requires
        n <= m,
    ensures
        0 <= cases_of(s, n) <= cases_of(s, m),
        0 <= failures_of(s, n) <= failures_of(s, m),
    decreases m,
{
    if n < m {
        lemma_totals_grow(s, n, (m - 1) as nat);
    } else if n > 0 {
        lemma_totals_grow(s, (n - 1) as nat, (n - 1) as nat);
    }
}

impl SelfTestReport {
    /// True if every suite passed.
    pub fn passed(&self) -> (r: bool)
        ensures
            r <==> forall|i: int| 0 <= i < self.suites@.len() ==> (#[trigger] self.suites@[i]).failures@.len() == 0,
    {
        let mut i: usize = 0;
        while i < self.suites.len()
            invariant
                i <= self.suites@.len(),
                forall|k: int| 0 <= k < i ==> (#[trigger] self.suites@[k]).failures@.len() == 0,
            decreases self.suites@.len() - i,
        {
            if !self.suites[i].passed() {
                return false;
            }
            i = i + 1;
        }
        true
    }

    /// Total cases across all suites.
    pub fn total_cases(&self) -> (n: usize)
        requires
            cases_of(self.suites@, self.suites@.len()) <= usize::MAX,
        ensures
            n == cases_of(self.suites@, self.suites@.len()),
    {
        let mut n: usize = 0;
        let mut i: usize = 0;
        while i < self.suites.len()
            invariant
                i <= self.suites@.len(),
                cases_of(self.suites@, self.suites@.len()) <= usize::MAX,
                n == cases_of(self.suites@, i as nat),
            decreases self.suites@.len() - i,
        {
            proof {
                lemma_totals_grow(self.suites@, (i + 1) as nat, self.suites@.len());
            }
            n = n + self.suites[i].cases;
            i = i + 1;
        }
        n
    }

    /// Total failures across all suites.
    pub fn total_failures(&self) -> (n: usize)
        requires
            failures_of(self.suites@, self.suites@.len()) <= usize::MAX,
        ensures
            n == failures_of(self.suites@, self.suites@.len()),
    {
        let mut n: usize = 0;
        let mut i: usize = 0;
        while i < self.suites.len()
            invariant
                i <= self.suites@.len(),
                failures_of(self.suites@, self.suites@.len()) <= usize::MAX,
                n == failures_of(self.suites@, i as nat),
            decreases self.suites@.len() - i,
        {
            proof {
                lemma_totals_grow(self.suites@, (i + 1) as nat, self.suites@.len());
            }
            n = n + self.suites[i].failures.len();
            i = i + 1;
        }
        n
    }
}

/// A text in a record: its length in front.
pub open spec fn field_of(t: Seq<char>) -> Seq<char> {
    decimal_text(t.len()) + ":"@ + t
}

/// A number in a record.
pub open spec fn number_of(n: nat) -> Seq<char> {
    decimal_text(n) + ";"@
}

/// The names of the first `n` failures.
pub open spec fn failed_cases(f: Seq<Failure>, n: nat) -> Seq<char>
    decreases n,
{
    if n == 0 {
        Seq::empty()
    } else {
        failed_cases(f, (n - 1) as nat) + field_of(f[n - 1].case@)
    }
}

/// The record of one suite.
#[verifier::opaque]
pub open spec fn suite_record(s: SuiteResult) -> Seq<char> {
    field_of(s.name@) + number_of(s.cases as nat) + number_of(s.failures@.len()) + failed_cases(
        s.failures@,
        s.failures@.len(),
    ) + field_of(s.digest@)
}

/// The record of the first `n` suites.
pub open spec fn report_record(s: Seq<SuiteResult>, n: nat) -> Seq<char>
    decreases n,
{
    if n == 0 {
        Seq::empty()
    } else {
        report_record(s, (n - 1) as nat) + suite_record(s[n - 1])
    }
}

fn push_field(out: &mut String, t: &str)
    ensures
        final(out)@ == old(out)@ + field_of(t@),
{
    let ghost was = out@;
    let n: usize = crate::text::characters(t).len();
    push_number(out, n as u64);
    out.append(":");
    out.append(t);
    assert(out@ =~= was + field_of(t@));
}

pub(crate) fn push_count(out: &mut String, n: u64)
    ensures
        final(out)@ == old(out)@ + number_of(n as nat),
{
    let ghost was = out@;
    push_number(out, n);
    out.append(";");
    assert(out@ =~= was + number_of(n as nat));
}

fn push_suite(out: &mut String, s: &SuiteResult)
    ensures
        final(out)@ == old(out)@ + suite_record(*s),
{
    reveal(suite_record);
    let ghost was = out@;
    push_field(out, s.name);
    push_count(out, s.cases as u64);
    push_count(out, s.failures.len() as u64);
    let ghost head = out@;
    let mut i: usize = 0;
    assert(head + failed_cases(s.failures@, 0) =~= head);
    while i < s.failures.len()
        invariant
            i <= s.failures@.len(),
            out@ == head + failed_cases(s.failures@, i as nat),
        decreases s.failures@.len() - i,
    {
        push_field(out, s.failures[i].case.as_str());
        i = i + 1;
        assert(out@ =~= head + failed_cases(s.failures@, i as nat));
    }
    push_field(out, s.digest.as_str());
    assert(out@ =~= was + suite_record(*s));
}

/// The record of suites, in order.
pub fn record(suites: &[SuiteResult]) -> (out: String)
    ensures
        out@ == report_record(suites@, suites@.len()),
{
    let mut out: String = String::new();
    let mut i: usize = 0;
    while i < suites.len()
        invariant
            i <= suites@.len(),
            out@ == report_record(suites@, i as nat),
        decreases suites@.len() - i,
    {
        push_suite(&mut out, &suites[i]);
        i = i + 1;
    }
    out
}

/// What the suites judge but do not compute: inputs from files, and results of
/// elementary functions, of tools and of fields.
#[derive(Debug)]
pub struct Measured {
    /// The stored expectations of predicates.
    pub corpus: Vec<CorpusCase>,
    /// Floating-point kernels.
    pub kernels: Vec<KernelCase>,
    /// Elementary functions on drawn arguments.
    pub functions: Vec<FunctionCase>,
    /// Elementary functions where their values are known exactly.
    pub exact_values: Vec<ExactCase>,
    /// Shapes of revolution.
    pub turned: Vec<SolidCase>,
    /// The drawn polynomials, solved.
    pub polynomials: Vec<PolynomialCase>,
    /// Tools.
    pub tools: Vec<ToolCase>,
    /// Fields and their files.
    pub fields: Vec<FieldCase>,
    /// What tools sweep along straight moves.
    pub cuts: Vec<ToolCuts>,
    /// What tools sweep along arcs.
    pub arcs: Vec<ToolArcs>,
    /// Meshes that were extracted from fields.
    pub extractions: Vec<Extraction>,
    /// Directions that went through the codec of normals.
    pub codes: Vec<CodedNormal>,
    /// Comparisons with a nominal shape.
    pub deviations: Deviations,
    /// The parts of held tools that do not cut.
    pub profiles: Vec<ProfileCase>,
    /// What was found along planted motions.
    pub collisions: Vec<CollisionCase>,
    /// The cosine and the sine by which the oblique setup turns.
    pub turn: [Double; 2],
    /// How far apart samples of a surface may lie, in cells.
    pub sample_distance: Double,
}

impl Measured {
    /// The inputs are what the suites can take, and their cases can be counted.
    pub open spec fn wf(self) -> bool {
        &&& forall|i: int| 0 <= i < self.corpus@.len() ==> case_finite(#[trigger] self.corpus@[i])
        &&& weights_of(self.kernels@, self.kernels@.len()) <= usize::MAX
        &&& weights_of(self.functions@, self.functions@.len()) <= usize::MAX
        &&& small(self.turned@)
        &&& self.turned@.len() < 0x100_0000
        &&& weights_of(self.tools@, self.tools@.len()) <= usize::MAX
        &&& weights_of(self.fields@, self.fields@.len()) <= usize::MAX
        &&& all_cuts(self.cuts@)
        &&& forall|i: int| 0 <= i < self.cuts@.len() ==> (#[trigger] self.cuts@[i]).wf()
        &&& cuts_made(self.cuts@, self.cuts@.len()) <= usize::MAX
        &&& all_arcs(self.arcs@)
        &&& forall|i: int| 0 <= i < self.arcs@.len() ==> (#[trigger] self.arcs@[i]).wf()
        &&& all_made(self.arcs@, self.arcs@.len()) <= usize::MAX
        &&& weights_of(self.extractions@, self.extractions@.len()) + weights_of(self.codes@, self.codes@.len())
            <= usize::MAX
        &&& self.deviations.count() <= usize::MAX
        &&& weights_of(self.profiles@, self.profiles@.len()) + weights_of(self.collisions@, self.collisions@.len())
            <= usize::MAX
    }
}

/// The names of the suites, in their order.
pub open spec fn suite_names() -> Seq<Seq<char>> {
    seq![
        "predicates.corpus"@,
        "predicates.identities"@,
        "spans.algebra"@,
        "math.kernels"@,
        "transcendental"@,
        "mesh"@,
        "roots"@,
        "tool"@,
        "dexel.field"@,
        "sweep"@,
        "sweep.arc"@,
        "contour"@,
        "deviation"@,
        "refixture"@,
        "collision"@,
        "hash.selfcheck"@,
    ]
}

/// What is wrong with stored expectations, by kind of predicate.
pub open spec fn corpus_flaws(c: Seq<CorpusCase>) -> Seq<(Seq<char>, Seq<char>)> {
    mismatched(c, PredicateKind::Orient2d, c.len()) + mismatched(c, PredicateKind::Orient3d, c.len()) + mismatched(
        c,
        PredicateKind::InCircle,
        c.len(),
    ) + mismatched(c, PredicateKind::InSphere, c.len())
}

/// What the suites are about, in their order.
pub open spec fn suite_descriptions() -> Seq<Seq<char>> {
    seq![
        "adaptive predicates against the committed degenerate corpus"@,
        "argument-exchange antisymmetry and degeneracy on seeded random input"@,
        "set-algebra laws and the structural invariant over seeded random span sets"@,
        "matrix inverse, transform and normalization round-trips over seeded input"@,
        "libm-backed trig, exp and log evaluated on seeded input for cross-target parity"@,
        "shape generation, welding, topology, BVH shape and leak-free ray casting"@,
        "real roots of seeded polynomials built from known roots, a third of them repeated"@,
        "tool profiles, closed-form properties, ray-cast spans and tessellation across the catalogue"@,
        "builds dexel fields on all three axes and round-trips them through .dexel"@,
        "swept spans and cut fields across three tools and three motion cases"@,
        "arcs, helices and batching across three tools and five motions"@,
        "dual contouring with and without normals, and the octahedral normal codec"@,
        "comparison against a nominal, the analytic tool normal, and the tessellation floor"@,
        "classifying a setup transform, and moving a field across one exactly"@,
        "non-cutting geometry against the stock, replayed over planted crash cases"@,
        "canonical encoding known-answer checks (widening, NaN, signed zero)"@,
    ]
}

/// The digest of a suite spells these words.
pub open spec fn records(s: SuiteResult, w: Seq<u64>) -> bool {
    s.digest@ == spelled(w, w.len())
}

/// The digest is that of points on the grid that were drawn.
pub open spec fn identity_results(s: SuiteResult) -> bool {
    exists|cases: Seq<IdentityCase>|
        cases.len() == PREDICATE_IDENTITY_CASES && (forall|i: int| 0 <= i < cases.len() ==> on_grid(#[trigger] cases[i]))
            && records(s, #[trigger] identity_words(cases))
}

/// The failures and the digest are those of drawn pairs of span sets.
pub open spec fn algebra_results(s: SuiteResult) -> bool {
    exists|pairs: Seq<SpanPair>|
        pairs.len() == SPAN_ALGEBRA_CASES && (forall|i: int| 0 <= i < pairs.len() ==> drawn_pair(#[trigger] pairs[i]))
            && told(s.failures@) == failing(pairs, pairs.len()) && records(s, #[trigger] pairs_words(pairs, pairs.len()))
}

/// The cases, the failures and the digest are those of the shapes of the suite.
pub open spec fn mesh_results(turned: Seq<SolidCase>, s: SuiteResult) -> bool {
    exists|shapes: Seq<SolidCase>| #[trigger]
        suite_shapes(shapes, turned) && s.cases == casts_of(shapes, shapes.len()) && told(s.failures@) == solids_flaws(
            shapes,
            shapes.len(),
        ) && records(s, solids_words(shapes, shapes.len()))
}

/// The cases, the failures and the digest are those of the planned setups.
pub open spec fn setup_results(m: Measured, s: SuiteResult) -> bool {
    exists|cases: Seq<SetupCase>| #[trigger]
        setups_planned(cases, m.turn[0], m.turn[1]) && setups_checked(
            cases,
            suite_block(),
            Double { bits: 0x3fe0_0000_0000_0000 },
            m.sample_distance,
            s,
        )
}

/// What a suite on stored or measured cases records.
pub open spec fn suite_words(m: Measured, i: int) -> Seq<u64> {
    if i == 0 {
        corpus_words(m.corpus@)
    } else if i == 3 {
        heading("math.kernels"@) + contents_of(m.kernels@, m.kernels@.len())
    } else if i == 4 {
        heading("transcendental"@) + contents_of(m.functions@, m.functions@.len()) + contents_of(
            m.exact_values@,
            m.exact_values@.len(),
        )
    } else if i == 6 {
        heading("roots"@) + contents_of(m.polynomials@, m.polynomials@.len())
    } else if i == 7 {
        heading("tool"@) + contents_of(m.tools@, m.tools@.len())
    } else if i == 8 {
        heading("dexel"@) + contents_of(m.fields@, m.fields@.len())
    } else if i == 9 {
        cuts_words(m.cuts@, m.cuts@.len())
    } else if i == 10 {
        all_words(m.arcs@, m.arcs@.len())
    } else if i == 11 {
        heading("contour"@) + contents_of(m.extractions@, m.extractions@.len()) + heading("oct"@) + contents_of(
            m.codes@,
            m.codes@.len(),
        )
    } else if i == 12 {
        m.deviations.content()
    } else if i == 14 {
        heading("collision"@) + contents_of(m.profiles@, m.profiles@.len()) + heading("detect"@) + contents_of(
            m.collisions@,
            m.collisions@.len(),
        )
    } else {
        encoding_words()
    }
}

/// Suite `i` draws its cases or makes them itself.
pub open spec fn makes_cases(i: int) -> bool {
    i == 1 || i == 2 || i == 5 || i == 13
}

/// Suite `i` is the one of its name and description, and its cases, its failures
/// and its digest are those of what it judges.
#[verifier::opaque]
pub open spec fn judged(m: Measured, i: int, s: SuiteResult) -> bool {
    &&& s.name@ == suite_names()[i]
    &&& s.description@ == suite_descriptions()[i]
    &&& !makes_cases(i) ==> records(s, suite_words(m, i))
    &&& if i == 0 {
        s.cases == m.corpus@.len() && told(s.failures@) == corpus_flaws(m.corpus@)
    } else if i == 1 {
        s.cases == PREDICATE_IDENTITY_CASES && s.failures@.len() == 0 && identity_results(s)
    } else if i == 2 {
        s.cases == SPAN_ALGEBRA_CASES && algebra_results(s)
    } else if i == 3 {
        s.cases == weights_of(m.kernels@, m.kernels@.len()) && told(s.failures@) == flaws_of(m.kernels@, m.kernels@.len())
    } else if i == 4 {
        s.cases == weights_of(m.functions@, m.functions@.len()) && told(s.failures@) == flaws_of(m.functions@, m.functions@.len()) + flaws_of(m.exact_values@, m.exact_values@.len())
    } else if i == 5 {
        mesh_results(m.turned@, s)
    } else if i == 6 {
        s.cases == m.polynomials@.len() && told(s.failures@) == flaws_of(m.polynomials@, m.polynomials@.len())
    } else if i == 7 {
        s.cases == weights_of(m.tools@, m.tools@.len()) && told(s.failures@) == flaws_of(m.tools@, m.tools@.len())
    } else if i == 8 {
        s.cases == weights_of(m.fields@, m.fields@.len()) && told(s.failures@) == flaws_of(m.fields@, m.fields@.len())
    } else if i == 9 {
        s.cases == cuts_made(m.cuts@, m.cuts@.len()) && told(s.failures@) == cuts_trouble(m.cuts@, m.cuts@.len())
    } else if i == 10 {
        s.cases == all_made(m.arcs@, m.arcs@.len()) && told(s.failures@) == all_trouble(m.arcs@, m.arcs@.len())
    } else if i == 11 {
        s.cases == weights_of(m.extractions@, m.extractions@.len()) + weights_of(m.codes@, m.codes@.len()) && told(s.failures@) == flaws_of(m.extractions@, m.extractions@.len())
    } else if i == 12 {
        s.cases == m.deviations.count() && told(s.failures@) == m.deviations.flaws()
    } else if i == 13 {
        setup_results(m, s)
    } else if i == 14 {
        s.cases == weights_of(m.profiles@, m.profiles@.len()) + weights_of(m.collisions@, m.collisions@.len()) && told(s.failures@) == flaws_of(m.profiles@, m.profiles@.len()) + flaws_of(m.collisions@, m.collisions@.len())
    } else {
        s.cases == 18 && s.failures@.len() == 0
    }
}

fn corpus_part(corpus: &Vec<CorpusCase>, Ghost(m): Ghost<Measured>) -> (s: SuiteResult)
    requires
        m.wf(),
        corpus@ == m.corpus@,
    ensures
        judged(m, 0, s),
{
    reveal(judged);
    predicate_corpus_suite(corpus.as_slice())
}

fn identity_part(Ghost(m): Ghost<Measured>) -> (s: SuiteResult)
    requires
        m.wf(),
    ensures
        judged(m, 1, s),
{
    reveal(judged);
    predicate_identity_suite()
}

fn run_algebra() -> (s: SuiteResult)
    ensures
        s.name@ == "spans.algebra"@,
        s.description@ == "set-algebra laws and the structural invariant over seeded random span sets"@,
        s.cases == SPAN_ALGEBRA_CASES,
        algebra_results(s),
{
    let s: SuiteResult = span_algebra_suite();
    proof {
        let pairs = choose|pairs: Seq<SpanPair>|
            pairs.len() == SPAN_ALGEBRA_CASES && (forall|i: int| 0 <= i < pairs.len() ==> drawn_pair(#[trigger] pairs[i]))
                && told(s.failures@) == failing(pairs, pairs.len()) && s.digest@ == spelled(
                #[trigger] pairs_words(pairs, pairs.len()),
                pairs_words(pairs, pairs.len()).len(),
            );
        assert(records(s, pairs_words(pairs, pairs.len())));
    }
    s
}

fn algebra_part(Ghost(m): Ghost<Measured>) -> (s: SuiteResult)
    requires
        m.wf(),
    ensures
        judged(m, 2, s),
{
    let s: SuiteResult = run_algebra();
    reveal(judged);
    s
}

fn kernel_part(v: &Vec<KernelCase>, Ghost(m): Ghost<Measured>) -> (s: SuiteResult)
    requires
        m.wf(),
        v@ == m.kernels@,
    ensures
        judged(m, 3, s),
{
    reveal(judged);
    math_kernel_suite(v.as_slice())
}

fn function_part(v: &Vec<FunctionCase>, e: &Vec<ExactCase>, Ghost(m): Ghost<Measured>) -> (s: SuiteResult)
    requires
        m.wf(),
        v@ == m.functions@,
        e@ == m.exact_values@,
    ensures
        judged(m, 4, s),
{
    reveal(judged);
    transcendental_suite(v.as_slice(), e.as_slice())
}

fn mesh_part(v: Vec<SolidCase>, Ghost(m): Ghost<Measured>) -> (s: SuiteResult)
    requires
        m.wf(),
        v@ == m.turned@,
    ensures
        judged(m, 5, s),
{
    reveal(judged);
    mesh_suite(v)
}

fn root_part(v: &Vec<PolynomialCase>, Ghost(m): Ghost<Measured>) -> (s: SuiteResult)
    requires
        m.wf(),
        v@ == m.polynomials@,
    ensures
        judged(m, 6, s),
{
    reveal(judged);
    root_solver_suite(v.as_slice())
}

#[verifier::rlimit(60)]
fn tool_part(v: &Vec<ToolCase>, Ghost(m): Ghost<Measured>) -> (s: SuiteResult)
    requires
        m.wf(),
        v@ == m.tools@,
    ensures
        judged(m, 7, s),
{
    reveal(judged);
    tool_geometry_suite(v.as_slice())
}

fn field_part(v: &Vec<FieldCase>, Ghost(m): Ghost<Measured>) -> (s: SuiteResult)
    requires
        m.wf(),
        v@ == m.fields@,
    ensures
        judged(m, 8, s),
{
    reveal(judged);
    dexel_field_suite(v.as_slice())
}

fn cut_part(v: &mut Vec<ToolCuts>, Ghost(m): Ghost<Measured>) -> (s: SuiteResult)
    requires
        m.wf(),
        old(v)@ == m.cuts@,
    ensures
        judged(m, 9, s),
{
    reveal(judged);
    sweep_suite(v)
}

fn arc_part(v: &mut Vec<ToolArcs>, Ghost(m): Ghost<Measured>) -> (s: SuiteResult)
    requires
        m.wf(),
        old(v)@ == m.arcs@,
    ensures
        judged(m, 10, s),
{
    reveal(judged);
    sweep_arc_suite(v)
}

fn contour_part(v: &Vec<Extraction>, c: &Vec<CodedNormal>, Ghost(m): Ghost<Measured>) -> (s: SuiteResult)
    requires
        m.wf(),
        v@ == m.extractions@,
        c@ == m.codes@,
    ensures
        judged(m, 11, s),
{
    reveal(judged);
    contour_suite(v.as_slice(), c.as_slice())
}

fn deviation_part(v: &Deviations, Ghost(m): Ghost<Measured>) -> (s: SuiteResult)
    requires
        m.wf(),
        *v == m.deviations,
    ensures
        judged(m, 12, s),
{
    reveal(judged);
    deviation_suite(v)
}

fn setup_part(turn: [Double; 2], distance: Double, Ghost(m): Ghost<Measured>) -> (s: SuiteResult)
    requires
        m.wf(),
        turn == m.turn,
        distance == m.sample_distance,
    ensures
        judged(m, 13, s),
{
    reveal(judged);
    refixture_suite(turn[0], turn[1], distance)
}

fn collision_part(v: &Vec<ProfileCase>, c: &Vec<CollisionCase>, Ghost(m): Ghost<Measured>) -> (s: SuiteResult)
    requires
        m.wf(),
        v@ == m.profiles@,
        c@ == m.collisions@,
    ensures
        judged(m, 14, s),
{
    reveal(judged);
    collision_suite(v.as_slice(), c.as_slice())
}

fn encoding_part(Ghost(m): Ghost<Measured>) -> (s: SuiteResult)
    requires
        m.wf(),
    ensures
        judged(m, 15, s),
{
    reveal(judged);
    canonical_hash_suite()
}

/// Runs every suite.
///
/// Suites of other crates are contributed through [`run_with`].
pub fn run(m: Measured) -> (r: SelfTestReport)
    requires
        m.wf(),
    ensures
        r.suites@.len() == 16,
        forall|i: int| 0 <= i < 16 ==> judged(m, i, #[trigger] r.suites@[i]),
        r.digest@ == report_record(r.suites@, r.suites@.len()),
{
    run_with(m, Vec::new())
}

/// As [`run`], with further suites behind those of this crate, in their order.
pub fn run_with(m: Measured, extra: Vec<SuiteResult>) -> (r: SelfTestReport)
    requires
        m.wf(),
    ensures
        r.suites@.len() == 16 + extra@.len(),
        forall|i: int| 0 <= i < 16 ==> judged(m, i, #[trigger] r.suites@[i]),
        r.suites@.subrange(16, r.suites@.len() as int) == extra@,
        r.digest@ == report_record(r.suites@, r.suites@.len()),
{
    let ghost given = m;
    let mut cuts: Vec<ToolCuts> = m.cuts;
    let mut arcs: Vec<ToolArcs> = m.arcs;
    let turned: Vec<SolidCase> = m.turned;
    let mut suites: Vec<SuiteResult> = Vec::new();
    suites.push(corpus_part(&m.corpus, Ghost(given)));
    suites.push(identity_part(Ghost(given)));
    suites.push(algebra_part(Ghost(given)));
    suites.push(kernel_part(&m.kernels, Ghost(given)));
    suites.push(function_part(&m.functions, &m.exact_values, Ghost(given)));
    suites.push(mesh_part(turned, Ghost(given)));
    suites.push(root_part(&m.polynomials, Ghost(given)));
    suites.push(tool_part(&m.tools, Ghost(given)));
    suites.push(field_part(&m.fields, Ghost(given)));
    suites.push(cut_part(&mut cuts, Ghost(given)));
    suites.push(arc_part(&mut arcs, Ghost(given)));
    suites.push(contour_part(&m.extractions, &m.codes, Ghost(given)));
    suites.push(deviation_part(&m.deviations, Ghost(given)));
    suites.push(setup_part(m.turn, m.sample_distance, Ghost(given)));
    suites.push(collision_part(&m.profiles, &m.collisions, Ghost(given)));
    suites.push(encoding_part(Ghost(given)));
    let ghost own = suites@;
    let ghost more = extra@;
    let mut extra: Vec<SuiteResult> = extra;
    suites.append(&mut extra);
    proof {
        assert(suites@ =~= own + more);
        assert(suites@.subrange(16, suites@.len() as int) =~= more);
    }
    let digest: String = record(suites.as_slice());
    SelfTestReport { suites, digest }
}

/// Two texts around numbers, one behind each, tell the numbers apart.
proof fn lemma_number_between(a: Seq<char>, m: nat, n: nat, b: Seq<char>)
    requires
        a + number_of(m) + b == a + number_of(n) + b,
    ensures
        m == n,
{
    let x = decimal_text(m);
    let y = decimal_text(n);
    let left = a + number_of(m) + b;
    let right = a + number_of(n) + b;
    assert(left.len() == a.len() + x.len() + ";"@.len() + b.len());
    assert(right.len() == a.len() + y.len() + ";"@.len() + b.len());
    assert(x.len() == y.len());
    assert forall|i: int| 0 <= i < x.len() implies x[i] == y[i] by {
        assert(left[a.len() + i] == x[i]);
        assert(right[a.len() + i] == y[i]);
    }
    assert(x =~= y);
    law_decimal_spells(m);
    law_decimal_spells(n);
}

/// What stands in the record of a suite in front of its case count.
spec fn before_count(s: SuiteResult) -> Seq<char> {
    field_of(s.name@)
}

/// What stands in the record of a suite behind its case count.
spec fn behind_count(s: SuiteResult) -> Seq<char> {
    number_of(s.failures@.len()) + failed_cases(s.failures@, s.failures@.len()) + field_of(s.digest@)
}

proof fn lemma_suite_around(s: SuiteResult)
    ensures
        suite_record(s) == before_count(s) + number_of(s.cases as nat) + behind_count(s),
{
    reveal(suite_record);
    assert(suite_record(s) =~= before_count(s) + number_of(s.cases as nat) + behind_count(s));
}

proof fn lemma_regroup(p: Seq<char>, a: Seq<char>, m: Seq<char>, b: Seq<char>)
    ensures
        p + (a + m + b) == (p + a) + m + b,
{
    assert(p + (a + m + b) =~= (p + a) + m + b);
}

proof fn lemma_record_around(s: Seq<SuiteResult>, t: Seq<SuiteResult>, k: int, n: nat) -> (r: (Seq<char>, Seq<char>))
    requires
        0 <= k < n <= s.len(),
        s.len() == t.len(),
        forall|i: int| 0 <= i < s.len() && i != k ==> #[trigger] s[i] == t[i],
        t[k].name == s[k].name,
        t[k].failures == s[k].failures,
        t[k].digest == s[k].digest,
    ensures
        report_record(s, n) == r.0 + number_of(s[k].cases as nat) + r.1,
        report_record(t, n) == r.0 + number_of(t[k].cases as nat) + r.1,
    decreases n,
{
    if n == k + 1 {
        let p = report_record(s, k as nat);
        lemma_record_before(s, t, k as nat);
        lemma_suite_around(s[k]);
        lemma_suite_around(t[k]);
        lemma_regroup(p, before_count(s[k]), number_of(s[k].cases as nat), behind_count(s[k]));
        lemma_regroup(p, before_count(s[k]), number_of(t[k].cases as nat), behind_count(s[k]));
        (p + before_count(s[k]), behind_count(s[k]))
    } else {
        let (a, b) = lemma_record_around(s, t, k, (n - 1) as nat);
        let more = suite_record(s[n - 1]);
        lemma_append(a + number_of(s[k].cases as nat), b, more);
        lemma_append(a + number_of(t[k].cases as nat), b, more);
        (a, b + more)
    }
}

proof fn lemma_append(a: Seq<char>, b: Seq<char>, c: Seq<char>)
    ensures
        a + b + c == a + (b + c),
{
    assert(a + b + c =~= a + (b + c));
}

proof fn lemma_record_before(s: Seq<SuiteResult>, t: Seq<SuiteResult>, n: nat)
    requires
        n <= s.len(),
        n <= t.len(),
        forall|i: int| 0 <= i < n ==> #[trigger] s[i] == t[i],
    ensures
        report_record(s, n) == report_record(t, n),
    decreases n,
{
    if n > 0 {
        lemma_record_before(s, t, (n - 1) as nat);
    }
}

/// The record of a report depends on every suite: another case count in any of
/// them makes another record.
pub proof fn law_record_depends_on_every_suite(s: Seq<SuiteResult>, k: int, t: SuiteResult)
    requires
        0 <= k < s.len(),
        t.name == s[k].name,
        t.failures == s[k].failures,
        t.digest == s[k].digest,
        t.cases != s[k].cases,
    ensures
        report_record(s, s.len()) != report_record(s.update(k, t), s.len()),
{
    let (a, b) = lemma_record_around(s, s.update(k, t), k, s.len());
    if report_record(s, s.len()) == report_record(s.update(k, t), s.len()) {
        lemma_number_between(a, s[k].cases as nat, t.cases as nat, b);
    }
}

} // verus!
