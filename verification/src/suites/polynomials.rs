//! Real roots of polynomials that were built from known roots.
//!
//! Random coefficients almost never give a repeated root, and the repeated root
//! is the interesting case. The roots are small numbers of quarters, so that
//! expanding the product is exact.

use super::cuts::{spell, spelled, tell, told};
use super::outcomes::{
    contents_of, flaw_if, flaws_of, heading, judge_all, number_words, weights_of, write_numbers, Outcome,
};
use super::{draw_quarters, quarters_within, seeded};
use crate::arithmetic::{difference, product, sum};
use crate::double::Double;
use crate::math::{greater, lesser, max_number, min_number};
use crate::mesh::words::write_text;
use crate::roots::{eval, horner, quadratic_roots, solve_quadratic, RootSet};
use crate::selftest::{Failure, SuiteResult, ROOT_SOLVER_CASES, ROOT_SOLVER_SEED};
use crate::text::{decimal_text, push_number};
use rand::rngs::StdRng;
use vstd::prelude::*;

verus! {

/// Coefficient `k` of a polynomial times `x - r`.
pub open spec fn extended_at(c: Seq<Double>, r: Double, k: int) -> Double {
    let zero = Double { bits: 0 };
    let carried = difference(zero, product(c[k - 1], r));
    if k == 0 {
        sum(zero, c[0])
    } else if k < c.len() {
        sum(carried, c[k])
    } else {
        carried
    }
}

/// A polynomial times `x - r`, in descending coefficients.
pub open spec fn extended(c: Seq<Double>, r: Double) -> Seq<Double> {
    Seq::new(c.len() + 1, |k: int| extended_at(c, r, k))
}

/// `lead (x - r0)(x - r1)...` over the first `n` roots.
pub open spec fn expanded(lead: Double, roots: Seq<Double>, n: nat) -> Seq<Double>
    decreases n,
{
    if n == 0 {
        seq![lead]
    } else {
        extended(expanded(lead, roots, (n - 1) as nat), roots[n - 1])
    }
}

fn extend(c: &[Double], r: Double) -> (v: Vec<Double>)
    requires
        0 < c@.len() < usize::MAX,
    ensures
        v@ == extended(c@, r),
{
    let zero: Double = Double::zeroed();
    let mut v: Vec<Double> = Vec::new();
    v.push(zero.plus(c[0]));
    let mut k: usize = 1;
    while k < c.len()
        invariant
            1 <= k <= c@.len(),
            zero == (Double { bits: 0 }),
            v@ == extended(c@, r).take(k as int),
        decreases c@.len() - k,
    {
        v.push(zero.minus(c[k - 1].times(r)).plus(c[k]));
        k = k + 1;
        assert(v@ =~= extended(c@, r).take(k as int));
    }
    v.push(zero.minus(c[k - 1].times(r)));
    assert(v@ =~= extended(c@, r));
    v
}

/// Expands `lead (x - r0)(x - r1)...` into descending coefficients.
pub fn from_roots(lead: Double, roots: &[Double]) -> (v: Vec<Double>)
    requires
        roots@.len() < usize::MAX,
    ensures
        v@ == expanded(lead, roots@, roots@.len()),
        v@.len() == roots@.len() + 1,
{
    let mut v: Vec<Double> = Vec::new();
    v.push(lead);
    let mut i: usize = 0;
    assert(v@ =~= seq![lead]);
    while i < roots.len()
        invariant
            i <= roots@.len() < usize::MAX,
            v@ == expanded(lead, roots@, i as nat),
            v@.len() == i + 1,
        decreases roots@.len() - i,
    {
        v = extend(v.as_slice(), roots[i]);
        i = i + 1;
    }
    v
}

/// The greatest magnitude among the first `n` coefficients.
pub open spec fn greatest(c: Seq<Double>, n: nat) -> Double
    decreases n,
{
    if n == 0 {
        Double { bits: 0 }
    } else {
        greater(greatest(c, (n - 1) as nat), c[n - 1].absolute())
    }
}

/// How far from zero a root may leave its polynomial: `1e-6` of the greatest
/// coefficient, or of one.
pub open spec fn residual_allowed(c: Seq<Double>) -> Double {
    product(
        Double { bits: 0x3eb0_c6f7_a0b5_ed8d },
        greater(greatest(c, c.len()), Double { bits: 0x3ff0_0000_0000_0000 }),
    )
}

/// The distance from `r` to the nearest of the first `n` values.
pub open spec fn nearest_distance(values: Seq<Double>, r: Double, n: nat) -> Double
    decreases n,
{
    if n == 0 {
        Double { bits: 0x7ff0_0000_0000_0000 }
    } else {
        lesser(nearest_distance(values, r, (n - 1) as nat), difference(values[n - 1], r).absolute())
    }
}

/// How far a root that was built in may be missed: `1e-5` of it, or of one.
pub open spec fn miss_allowed(r: Double) -> Double {
    product(Double { bits: 0x3ee4_f8b5_88e3_68f1 }, greater(r.absolute(), Double { bits: 0x3ff0_0000_0000_0000 }))
}

/// A value does not solve the polynomial.
pub open spec fn unsolved(c: Seq<Double>, x: Double) -> bool {
    residual_allowed(c).lt(horner(c, x, c.len()).absolute())
}

/// A root that was built in is not among the values.
pub open spec fn missed(values: Seq<Double>, r: Double) -> bool {
    miss_allowed(r).lt(nearest_distance(values, r, values.len()))
}

/// How a failure is named.
pub open spec fn failure_name(i: nat, label: Seq<char>) -> Seq<char> {
    "case "@ + decimal_text(i) + ": "@ + label
}

/// Tests whether a value leaves its polynomial too far from zero.
pub fn is_unsolved(c: &[Double], x: Double) -> (r: bool)
    ensures
        r == unsolved(c@, x),
{
    let one: Double = Double::from_bits(0x3ff0_0000_0000_0000);
    let mut scale: Double = Double::zeroed();
    let mut i: usize = 0;
    while i < c.len()
        invariant
            i <= c@.len(),
            scale == greatest(c@, i as nat),
        decreases c@.len() - i,
    {
        scale = max_number(scale, c[i].abs());
        i = i + 1;
    }
    let allowed: Double = Double::from_bits(0x3eb0_c6f7_a0b5_ed8d).times(max_number(scale, one));
    allowed.less(eval(c, x).abs())
}

/// Tests whether a root is too far from every value.
pub fn is_missed(values: &[Double], r: Double) -> (b: bool)
    ensures
        b == missed(values@, r),
{
    let one: Double = Double::from_bits(0x3ff0_0000_0000_0000);
    let mut nearest: Double = Double::from_bits(0x7ff0_0000_0000_0000);
    let mut i: usize = 0;
    while i < values.len()
        invariant
            i <= values@.len(),
            nearest == nearest_distance(values@, r, i as nat),
        decreases values@.len() - i,
    {
        nearest = min_number(nearest, values[i].minus(r).abs());
        i = i + 1;
    }
    let allowed: Double = Double::from_bits(0x3ee4_f8b5_88e3_68f1).times(max_number(r.abs(), one));
    allowed.less(nearest)
}

/// A polynomial, the roots it was built from, and those found.
#[derive(Debug)]
pub struct PolynomialCase {
    /// Descending coefficients.
    pub coefficients: Vec<Double>,
    /// The roots that were built in.
    pub chosen: Vec<Double>,
    /// The roots that were found.
    pub found: Vec<Double>,
}

/// A failure for each of the first `n` found values that solves nothing.
pub open spec fn unsolved_flaws(c: PolynomialCase, i: nat, n: nat) -> Seq<(Seq<char>, Seq<char>)>
    decreases n,
{
    if n == 0 {
        Seq::empty()
    } else {
        unsolved_flaws(c, i, (n - 1) as nat) + flaw_if(
            unsolved(c.coefficients@, c.found@[n - 1]),
            failure_name(i, "residual"@),
            "a root leaves too great a residual"@,
        )
    }
}

/// A failure for each of the first `n` chosen roots that was missed.
pub open spec fn missed_flaws(c: PolynomialCase, i: nat, n: nat) -> Seq<(Seq<char>, Seq<char>)>
    decreases n,
{
    if n == 0 {
        Seq::empty()
    } else {
        missed_flaws(c, i, (n - 1) as nat) + flaw_if(
            missed(c.found@, c.chosen@[n - 1]),
            failure_name(i, "missing root"@),
            "a root that was built in is far from every root found"@,
        )
    }
}

fn complaint(i: usize, label: &str, detail: &str) -> (f: Failure)
    ensures
        f.case@ == failure_name(i as nat, label@),
        f.detail@ == detail@,
{
    let mut case: String = String::new();
    case.append("case ");
    push_number(&mut case, i as u64);
    case.append(": ");
    case.append(label);
    assert(case@ =~= failure_name(i as nat, label@));
    let mut text: String = String::new();
    text.append(detail);
    assert(text@ =~= detail@);
    Failure { case, detail: text }
}

impl Outcome for PolynomialCase {
    open spec fn flaws(self, i: nat) -> Seq<(Seq<char>, Seq<char>)> {
        unsolved_flaws(self, i, self.found@.len()) + missed_flaws(self, i, self.chosen@.len())
    }

    open spec fn content(self) -> Seq<u64> {
        number_words(self.found@)
    }

    open spec fn weight(self) -> nat {
        1
    }

    /// Checks both directions: every value that was found is a root, and every
    /// root that was built in was found.
    fn judge(&self, i: usize, failures: &mut Vec<Failure>, words: &mut Vec<u64>) -> (n: usize) {
        let ghost was = told(failures@);
        let mut k: usize = 0;
        assert(was =~= was + unsolved_flaws(*self, i as nat, 0));
        while k < self.found.len()
            invariant
                k <= self.found@.len(),
                told(failures@) == was + unsolved_flaws(*self, i as nat, k as nat),
            decreases self.found@.len() - k,
        {
            if is_unsolved(self.coefficients.as_slice(), self.found[k]) {
                let f: Failure = complaint(i, "residual", "a root leaves too great a residual");
                tell(failures, f);
            }
            k = k + 1;
            assert(told(failures@) =~= was + unsolved_flaws(*self, i as nat, k as nat));
        }
        let ghost middle = told(failures@);
        let mut j: usize = 0;
        assert(middle =~= middle + missed_flaws(*self, i as nat, 0));
        while j < self.chosen.len()
            invariant
                j <= self.chosen@.len(),
                told(failures@) == middle + missed_flaws(*self, i as nat, j as nat),
            decreases self.chosen@.len() - j,
        {
            if is_missed(self.found.as_slice(), self.chosen[j]) {
                let f: Failure = complaint(i, "missing root", "a root that was built in is far from every root found");
                tell(failures, f);
            }
            j = j + 1;
            assert(told(failures@) =~= middle + missed_flaws(*self, i as nat, j as nat));
        }
        write_numbers(self.found.as_slice(), words);
        assert(told(failures@) =~= was + self.flaws(i as nat));
        1
    }
}

proof fn lemma_one_each(cases: Seq<PolynomialCase>, n: nat)
    ensures
        weights_of(cases, n) == n,
    decreases n,
{
    if n > 0 {
        lemma_one_each(cases, (n - 1) as nat);
    }
}

/// Every root that was found must be one, and every root that was built in must
/// be found.
pub fn root_solver_suite(cases: &[PolynomialCase]) -> (r: SuiteResult)
    ensures
        r.name@ == "roots"@,
        r.description@ == "real roots of seeded polynomials built from known roots, a third of them repeated"@,
        r.cases == cases@.len(),
        told(r.failures@) == flaws_of(cases@, cases@.len()),
        r.digest@ == ({
            let w = heading("roots"@) + contents_of(cases@, cases@.len());
            spelled(w, w.len())
        }),
{
    let mut failures: Vec<Failure> = Vec::new();
    let mut words: Vec<u64> = Vec::new();
    write_text("roots", &mut words);
    assert(words@ =~= heading("roots"@));
    let ghost len = cases.len();
    proof {
        lemma_one_each(cases@, cases@.len());
        assert(len <= usize::MAX);
    }
    let n: usize = judge_all(cases, &mut failures, &mut words);
    assert(told(failures@) =~= flaws_of(cases@, cases@.len()));
    let digest: String = spell(words.as_slice());
    SuiteResult {
        name: "roots",
        description: "real roots of seeded polynomials built from known roots, a third of them repeated",
        cases: n,
        failures,
        digest,
    }
}

/// Polynomial `i` as the suite draws it: quadratics, cubics and quartics in turn,
/// built from quarters between minus eight and eight; the quadratics from one
/// root twice, and solved.
pub open spec fn drawn_polynomial(c: PolynomialCase, i: int) -> bool {
    let lead = Double { bits: if i % 7 == 0 { 0xc000_0000_0000_0000 } else { 0x3ff0_0000_0000_0000 } };
    &&& c.chosen@.len() == 2 + i % 3
    &&& forall|k: int| 0 <= k < c.chosen@.len() ==> quarters_within(#[trigger] c.chosen@[k], -32, 32)
    &&& i % 3 == 0 ==> c.chosen@[0] == c.chosen@.last()
    &&& c.coefficients@ == expanded(lead, c.chosen@, c.chosen@.len())
    &&& if i % 3 == 0 {
        let roots = quadratic_roots(c.coefficients@[0], c.coefficients@[1], c.coefficients@[2]).0;
        c.found@ == Seq::new(roots.len(), |k: int| roots[k].value)
    } else {
        c.found@.len() == 0
    }
}

fn draw_polynomial(g: &mut StdRng, i: usize) -> (c: PolynomialCase)
    ensures
        drawn_polynomial(c, i as int),
{
    let lead: Double = Double::from_bits(if i % 7 == 0 { 0xc000_0000_0000_0000 } else { 0x3ff0_0000_0000_0000 });
    let degree: usize = 2 + i % 3;
    let mut chosen: Vec<Double> = Vec::new();
    while chosen.len() < degree
        invariant
            chosen@.len() <= degree,
            forall|k: int| 0 <= k < chosen@.len() ==> quarters_within(#[trigger] chosen@[k], -32, 32),
        decreases degree - chosen@.len(),
    {
        let r: Double = draw_quarters(g, -32, 32);
        chosen.push(r);
    }
    if i % 3 == 0 {
        let last: Double = chosen[degree - 1];
        assert(quarters_within(chosen@[degree - 1], -32, 32));
        chosen.set(0, last);
    }
    let coefficients: Vec<Double> = from_roots(lead, chosen.as_slice());
    let mut found: Vec<Double> = Vec::new();
    if i % 3 == 0 {
        let set: RootSet = solve_quadratic(coefficients[0], coefficients[1], coefficients[2]);
        found = set.roots();
        proof {
            let roots = quadratic_roots(coefficients@[0], coefficients@[1], coefficients@[2]).0;
            assert(found@ =~= Seq::new(roots.len(), |k: int| roots[k].value));
        }
    }
    PolynomialCase { coefficients, chosen, found }
}

/// The polynomials of the suite. The quadratics are solved; the roots of the
/// others, which take elementary functions, are still to be found.
pub fn draw_polynomials() -> (cases: Vec<PolynomialCase>)
    ensures
        cases@.len() == ROOT_SOLVER_CASES,
        forall|i: int| 0 <= i < cases@.len() ==> drawn_polynomial(#[trigger] cases@[i], i),
{
    let mut g: StdRng = seeded(ROOT_SOLVER_SEED);
    let mut cases: Vec<PolynomialCase> = Vec::new();
    while cases.len() < ROOT_SOLVER_CASES
        invariant
            cases@.len() <= ROOT_SOLVER_CASES,
            forall|i: int| 0 <= i < cases@.len() ==> drawn_polynomial(#[trigger] cases@[i], i),
        decreases ROOT_SOLVER_CASES - cases@.len(),
    {
        let i: usize = cases.len();
        let c: PolynomialCase = draw_polynomial(&mut g, i);
        cases.push(c);
    }
    cases
}

} // verus!
