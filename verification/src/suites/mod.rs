//! The suites. Some draw their inputs, others are given what came from outside.

pub mod algebra;
pub mod arcs;
pub mod corpus;
pub mod cuts;
pub mod encoding;
pub mod fields;
pub mod identities;
pub mod judging;
pub mod kernels;
pub mod outcomes;
pub mod polynomials;
pub mod records;
pub mod setups;
pub mod solids;

use crate::arithmetic::{of_int, quotient, rounded};
use crate::double::Double;
use crate::order::{law_division_stays_finite, lemma_one_magnitude, lemma_round_bits_increases, lemma_round_bits_of_magnitude};
use crate::selftest::Failure;
use crate::sweep::reference::{lemma_most_substeps, most_substeps};
use crate::text::push_number;
use rand::rngs::StdRng;
use rand::{Rng, SeedableRng};
use vstd::arithmetic::power2::*;
use vstd::prelude::*;

verus! {

/// The generator of `rand` that the suites draw from.
#[verifier::external_type_specification]
#[verifier::external_body]
pub struct ExStdRng(rand::rngs::StdRng);

/// `StdRng::seed_from_u64`: a generator for a seed. Nothing is claimed of what
/// it will draw: `rand` reserves the right to change the algorithm.
#[verifier::external_body]
pub(crate) fn seeded(seed: u64) -> (g: StdRng) {
    StdRng::seed_from_u64(seed)
}

/// `Rng::random_range` over the integers from `lo` to `hi`, both of which can
/// come. It panics on an empty range.
#[verifier::external_body]
pub(crate) fn draw(g: &mut StdRng, lo: i32, hi: i32) -> (v: i32)
    requires
        lo <= hi,
    ensures
        lo <= v <= hi,
{
    g.random_range(lo..=hi)
}

/// Four.
pub open spec fn four() -> Double {
    Double { bits: 0x4010_0000_0000_0000 }
}

/// An integer number of quarters.
pub open spec fn quarters(v: int) -> Double {
    quotient(of_int(v), four())
}

/// A number of quarters between two bounds.
pub open spec fn quarters_within(d: Double, lo: int, hi: int) -> bool {
    exists|v: int| lo <= v <= hi && d == #[trigger] quarters(v)
}

/// A small integer is a finite double.
pub proof fn lemma_small_is_finite(v: int)
    requires
        -0x10_0000 <= v <= 0x10_0000,
    ensures
        of_int(v).finite(),
{
    lemma_most_substeps();
    lemma_pow2_pos(1074);
    let x = v * pow2(1074);
    let size = if x < 0 {
        -x
    } else {
        x
    };
    assert(0 <= size <= 0x10_0000 * pow2(1074)) by (nonlinear_arith)
        requires
            x == v * pow2(1074),
            size == (if x < 0 { -x } else { x }),
            -0x10_0000 <= v <= 0x10_0000,
            pow2(1074) > 0,
    ;
    let most = most_substeps();
    lemma_round_bits_increases(size, most.magnitude(), 1);
    lemma_round_bits_of_magnitude(most.abs_bits());
    assert(of_int(v) == rounded(x));
}

/// A number of quarters is finite.
pub proof fn lemma_quarters_are_finite(v: int)
    requires
        -0x10_0000 <= v <= 0x10_0000,
    ensures
        quarters(v).finite(),
{
    lemma_small_is_finite(v);
    lemma_four();
    law_division_stays_finite(of_int(v), four());
}

proof fn lemma_four()
    ensures
        four().finite(),
        four().magnitude() >= pow2(1074),
{
    let one = Double { bits: 0x3ff0_0000_0000_0000 };
    lemma_one_magnitude();
    crate::order::lemma_magnitude_increases(one.abs_bits(), four().abs_bits());
}

/// A number of quarters, drawn.
pub(crate) fn draw_quarters(g: &mut StdRng, lo: i32, hi: i32) -> (d: Double)
    requires
        -0x10_0000 <= lo <= hi <= 0x10_0000,
    ensures
        quarters_within(d, lo as int, hi as int),
        d.finite(),
{
    let v: i32 = draw(g, lo, hi);
    proof {
        lemma_quarters_are_finite(v as int);
        assert(quarters(v as int) == quarters(v as int));
    }
    Double::from_i64(v as i64).over(Double::from_bits(0x4010_0000_0000_0000))
}

/// A label and a number: how a case is named.
pub open spec fn case_name(label: Seq<char>, i: nat) -> Seq<char> {
    label + "/"@ + crate::text::decimal_text(i)
}

/// A failure of one case.
pub(crate) fn failure(label: &str, i: usize, detail: &str) -> (f: Failure)
    ensures
        f.case@ == case_name(label@, i as nat),
        f.detail@ == detail@,
{
    let mut case: String = String::new();
    case.append(label);
    case.append("/");
    push_number(&mut case, i as u64);
    assert(case@ =~= case_name(label@, i as nat));
    let mut text: String = String::new();
    text.append(detail);
    assert(text@ =~= detail@);
    Failure { case, detail: text }
}

} // verus!
