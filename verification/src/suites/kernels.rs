//! Floating-point kernels and elementary functions, evaluated elsewhere.

use super::cuts::{spell, spelled, told};
use super::judging::say;
use super::outcomes::{
    contents_of, flaw_if, flaws_of, heading, judge_all, matrix_words, number_words, numbered, point_words, say_if,
    weights_of, write_matrix, write_numbers, write_point, Outcome,
};
use crate::arithmetic::{difference, product, sum};
use crate::double::Double;
use crate::math::Vec3;
use crate::mesh::words::write_text;
use crate::order::one;
use crate::refixture::Mat4;
use crate::selftest::{Failure, SuiteResult};
use vstd::prelude::*;

verus! {

/// A point at unit length.
#[derive(Clone, Copy, Debug)]
pub struct UnitPoint {
    /// The point.
    pub point: Vec3,
    /// Its length is one, up to rounding.
    pub unit: bool,
}

/// A matrix turned round.
#[derive(Clone, Copy, Debug)]
pub struct InverseMatrix {
    /// The matrix.
    pub matrix: Mat4,
    /// A moved point, moved back.
    pub back: Vec3,
}

/// A matrix and a point, and what the kernels make of them.
#[derive(Clone, Copy, Debug)]
pub struct KernelCase {
    /// The matrix.
    pub matrix: Mat4,
    /// The point.
    pub point: Vec3,
    /// The determinant of the matrix.
    pub determinant: Double,
    /// The point, moved.
    pub moved: Vec3,
    /// The point, moved as a direction.
    pub turned: Vec3,
    /// The length of the point, and its square.
    pub lengths: [Double; 2],
    /// The point at unit length.
    pub normal: Option<UnitPoint>,
    /// The inverse of the matrix.
    pub inverse: Option<InverseMatrix>,
}

/// An optional point on record.
pub open spec fn normal_words(n: Option<UnitPoint>) -> Seq<u64> {
    match n {
        Some(n) => seq![1u64] + point_words(n.point),
        None => seq![0u64],
    }
}

/// An optional inverse on record.
pub open spec fn inverse_words(n: Option<InverseMatrix>) -> Seq<u64> {
    match n {
        Some(n) => seq![1u64] + matrix_words(n.matrix) + point_words(n.back),
        None => seq![0u64],
    }
}

impl Outcome for KernelCase {
    open spec fn flaws(self, i: nat) -> Seq<(Seq<char>, Seq<char>)> {
        flaw_if(
            self.normal is Some && !self.normal->0.unit,
            numbered("normalize/"@, i),
            "a point at unit length has another length"@,
        ) + flaw_if(
            self.inverse is Some && !self.inverse->0.back.finite(),
            numbered("inverse/"@, i),
            "round-trip produced a non-finite point"@,
        )
    }

    open spec fn content(self) -> Seq<u64> {
        matrix_words(self.matrix) + point_words(self.point) + number_words(seq![self.determinant]) + point_words(
            self.moved,
        ) + point_words(self.turned) + number_words(self.lengths@) + normal_words(self.normal) + inverse_words(
            self.inverse,
        )
    }

    open spec fn weight(self) -> nat {
        1
    }

    fn judge(&self, i: usize, failures: &mut Vec<Failure>, words: &mut Vec<u64>) -> (n: usize) {
        let ghost was = told(failures@);
        let ghost before = words@;
        write_matrix(&self.matrix, words);
        write_point(self.point, words);
        write_numbers([self.determinant].as_slice(), words);
        assert([self.determinant]@ =~= seq![self.determinant]);
        write_point(self.moved, words);
        write_point(self.turned, words);
        write_numbers(self.lengths.as_slice(), words);
        let ghost head = words@;
        let long: bool = match self.normal {
            Some(n) => {
                words.push(1);
                write_point(n.point, words);
                !n.unit
            },
            None => {
                words.push(0);
                false
            },
        };
        assert(words@ =~= head + normal_words(self.normal));
        let ghost body = words@;
        let lost: bool = match &self.inverse {
            Some(n) => {
                words.push(1);
                write_matrix(&n.matrix, words);
                write_point(n.back, words);
                !n.back.is_finite()
            },
            None => {
                words.push(0);
                false
            },
        };
        assert(words@ =~= body + inverse_words(self.inverse));
        say_if(long, "normalize/", i, "a point at unit length has another length", failures);
        say_if(lost, "inverse/", i, "round-trip produced a non-finite point", failures);
        assert(told(failures@) =~= was + self.flaws(i as nat));
        assert(words@ =~= before + self.content());
        1
    }
}

/// Floating-point kernels whose last bit must agree across targets.
pub fn math_kernel_suite(cases: &[KernelCase]) -> (r: SuiteResult)
    requires
        weights_of(cases@, cases@.len()) <= usize::MAX,
    ensures
        r.name@ == "math.kernels"@,
        r.description@ == "matrix inverse, transform and normalization round-trips over seeded input"@,
        r.cases == weights_of(cases@, cases@.len()),
        told(r.failures@) == flaws_of(cases@, cases@.len()),
        r.digest@ == ({
            let w = heading("math.kernels"@) + contents_of(cases@, cases@.len());
            spelled(w, w.len())
        }),
{
    let mut failures: Vec<Failure> = Vec::new();
    let mut words: Vec<u64> = Vec::new();
    write_text("math.kernels", &mut words);
    assert(words@ =~= heading("math.kernels"@));
    let n: usize = judge_all(cases, &mut failures, &mut words);
    assert(told(failures@) =~= flaws_of(cases@, cases@.len()));
    let digest: String = spell(words.as_slice());
    SuiteResult {
        name: "math.kernels",
        description: "matrix inverse, transform and normalization round-trips over seeded input",
        cases: n,
        failures,
        digest,
    }
}

/// Arguments, and what the elementary functions make of them.
#[derive(Clone, Copy, Debug)]
pub struct FunctionCase {
    /// An angle, any number, one within one of zero, a positive one and a small
    /// one.
    pub arguments: [Double; 5],
    /// The sine of the angle.
    pub sine: Double,
    /// The cosine of the angle.
    pub cosine: Double,
    /// The tangent of the angle.
    pub tangent: Double,
    /// Sine and cosine, computed together.
    pub both: [Double; 2],
    /// The arc sine and the arc cosine.
    pub arcs: [Double; 2],
    /// The two arc tangents.
    pub angles: [Double; 2],
    /// Exponential, logarithms and power.
    pub powers: [Double; 4],
    /// The hypotenuse and the cube root.
    pub lengths: [Double; 2],
    /// The exponential of the logarithm is what it was of, up to rounding.
    pub inverted: bool,
}

/// How far off a sum of two numbers may be.
pub const SLACK: u64 = 0x3d71_9799_812d_ea11;

/// A quarter of a turn.
pub const QUARTER_TURN: u64 = 0x3ff9_21fb_5444_2d18;

/// A number is further from a value than the slack allows.
pub open spec fn off(x: Double, value: Double) -> bool {
    (Double { bits: SLACK }).lt(difference(x, value).absolute())
}

fn is_off(x: Double, value: Double) -> (r: bool)
    ensures
        r == off(x, value),
{
    Double::from_bits(SLACK).less(x.minus(value).abs())
}

impl Outcome for FunctionCase {
    open spec fn flaws(self, i: nat) -> Seq<(Seq<char>, Seq<char>)> {
        flaw_if(
            !self.both[0].same(self.sine) || !self.both[1].same(self.cosine),
            numbered("sin_cos/"@, i),
            "sin_cos disagrees with sin/cos"@,
        ) + flaw_if(
            off(sum(product(self.both[0], self.both[0]), product(self.both[1], self.both[1])), one()),
            numbered("pythagorean/"@, i),
            "sin^2 + cos^2 is not one"@,
        ) + flaw_if(!self.inverted, numbered("exp-ln/"@, i), "exp(ln(x)) is not x"@) + flaw_if(
            off(sum(self.arcs[0], self.arcs[1]), Double { bits: QUARTER_TURN }),
            numbered("asin-acos/"@, i),
            "asin + acos != pi/2"@,
        )
    }

    open spec fn content(self) -> Seq<u64> {
        number_words(self.arguments@) + number_words(seq![self.sine, self.cosine, self.tangent]) + number_words(
            self.both@,
        ) + number_words(self.arcs@) + number_words(self.angles@) + number_words(self.powers@) + number_words(
            self.lengths@,
        )
    }

    open spec fn weight(self) -> nat {
        1
    }

    fn judge(&self, i: usize, failures: &mut Vec<Failure>, words: &mut Vec<u64>) -> (n: usize) {
        let ghost was = told(failures@);
        let ghost before = words@;
        write_numbers(self.arguments.as_slice(), words);
        write_numbers([self.sine, self.cosine, self.tangent].as_slice(), words);
        assert([self.sine, self.cosine, self.tangent]@ =~= seq![self.sine, self.cosine, self.tangent]);
        write_numbers(self.both.as_slice(), words);
        write_numbers(self.arcs.as_slice(), words);
        write_numbers(self.angles.as_slice(), words);
        write_numbers(self.powers.as_slice(), words);
        write_numbers(self.lengths.as_slice(), words);
        let (s, c) = (self.both[0], self.both[1]);
        let apart: bool = !s.equals(self.sine) || !c.equals(self.cosine);
        say_if(apart, "sin_cos/", i, "sin_cos disagrees with sin/cos", failures);
        let unit: Double = Double::from_bits(0x3ff0_0000_0000_0000);
        let long: bool = is_off(s.times(s).plus(c.times(c)), unit);
        say_if(long, "pythagorean/", i, "sin^2 + cos^2 is not one", failures);
        say_if(!self.inverted, "exp-ln/", i, "exp(ln(x)) is not x", failures);
        let open: bool = is_off(self.arcs[0].plus(self.arcs[1]), Double::from_bits(QUARTER_TURN));
        say_if(open, "asin-acos/", i, "asin + acos != pi/2", failures);
        assert(told(failures@) =~= was + self.flaws(i as nat));
        assert(words@ =~= before + self.content());
        1
    }
}

/// A function at a place where its value is known exactly.
#[derive(Clone, Copy, Debug)]
pub struct ExactCase {
    /// The function and its arguments, as in `sin(0)`.
    pub label: &'static str,
    /// What was computed.
    pub value: Double,
    /// What it is.
    pub expected: Double,
}

impl Outcome for ExactCase {
    open spec fn flaws(self, i: nat) -> Seq<(Seq<char>, Seq<char>)> {
        flaw_if(!self.value.same(self.expected), self.label@, "not the exact value"@)
    }

    open spec fn content(self) -> Seq<u64> {
        number_words(seq![self.value])
    }

    open spec fn weight(self) -> nat {
        0
    }

    fn judge(&self, i: usize, failures: &mut Vec<Failure>, words: &mut Vec<u64>) -> (n: usize) {
        let ghost was = told(failures@);
        write_numbers([self.value].as_slice(), words);
        assert([self.value]@ =~= seq![self.value]);
        if !self.value.equals(self.expected) {
            say(self.label, "not the exact value", failures);
        }
        assert(told(failures@) =~= was + self.flaws(i as nat));
        0
    }
}

/// Elementary functions must be the same to the last bit on every target.
pub fn transcendental_suite(cases: &[FunctionCase], exact: &[ExactCase]) -> (r: SuiteResult)
    requires
        weights_of(cases@, cases@.len()) <= usize::MAX,
    ensures
        r.name@ == "transcendental"@,
        r.description@ == "libm-backed trig, exp and log evaluated on seeded input for cross-target parity"@,
        r.cases == weights_of(cases@, cases@.len()),
        told(r.failures@) == flaws_of(cases@, cases@.len()) + flaws_of(exact@, exact@.len()),
        r.digest@ == ({
            let w = heading("transcendental"@) + contents_of(cases@, cases@.len()) + contents_of(exact@, exact@.len());
            spelled(w, w.len())
        }),
{
    let mut failures: Vec<Failure> = Vec::new();
    let mut words: Vec<u64> = Vec::new();
    write_text("transcendental", &mut words);
    assert(words@ =~= heading("transcendental"@));
    let n: usize = judge_all(cases, &mut failures, &mut words);
    assert(told(failures@) =~= flaws_of(cases@, cases@.len()));
    proof {
        lemma_weightless(exact@, exact@.len());
    }
    let _ = judge_all(exact, &mut failures, &mut words);
    let digest: String = spell(words.as_slice());
    SuiteResult {
        name: "transcendental",
        description: "libm-backed trig, exp and log evaluated on seeded input for cross-target parity",
        cases: n,
        failures,
        digest,
    }
}

proof fn lemma_weightless(c: Seq<ExactCase>, n: nat)
    ensures
        weights_of(c, n) == 0,
    decreases n,
{
    if n > 0 {
        lemma_weightless(c, (n - 1) as nat);
    }
}

} // verus!
