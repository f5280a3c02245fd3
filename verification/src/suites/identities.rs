//! Predicates obey their algebraic identities.
//!
//! Exchanging two arguments negates a determinant, and a repeated point is
//! always degenerate.

use super::cuts::{spell, spelled};
use super::outcomes::heading;
use super::{draw_quarters, failure, quarters_within, seeded};
use crate::canonical::list_words;
use crate::math::{Vec2, Vec3};
use crate::mesh::words::write_text;
use crate::predicates::{
    law_orient2d_is_antisymmetric, law_orient3d_is_antisymmetric, orient2d_det, orient3d_det, orientation_of, Adaptive,
    Orientation, Predicates,
};
use crate::selftest::{Failure, SuiteResult, PREDICATE_IDENTITY_CASES, PREDICATE_IDENTITY_SEED};
use rand::rngs::StdRng;
use vstd::prelude::*;

verus! {

/// The points of one case.
#[derive(Clone, Copy, Debug)]
pub struct IdentityCase {
    /// Points of the plane.
    pub plane: [Vec2; 3],
    /// Points of space.
    pub space: [Vec3; 4],
}

impl IdentityCase {
    /// Every coordinate is finite.
    pub open spec fn finite(self) -> bool {
        &&& forall|i: int| 0 <= i < 3 ==> (#[trigger] self.plane@[i]).finite()
        &&& forall|i: int| 0 <= i < 4 ==> (#[trigger] self.space@[i]).finite()
    }

    /// The orientations of the case, as they are recorded.
    pub open spec fn results(self) -> Seq<char> {
        let p = self.plane@;
        let s = self.space@;
        seq![
            orientation_of(orient2d_det(p[0], p[1], p[2])).letter(),
            orientation_of(orient3d_det(s[0], s[1], s[2], s[3])).letter(),
        ]
    }
}

/// What the first `n` cases record.
pub open spec fn results_of(cases: Seq<IdentityCase>, n: nat) -> Seq<char>
    decreases n,
{
    if n == 0 {
        Seq::empty()
    } else {
        results_of(cases, (n - 1) as nat) + cases[n - 1].results()
    }
}

/// What the suite records: its name and the orientations.
pub open spec fn identity_words(cases: Seq<IdentityCase>) -> Seq<u64> {
    heading("predicates.identities"@) + list_words(results_of(cases, cases.len()))
}

/// Checks the identities in the plane. They always hold.
fn check_plane(i: usize, a: Vec2, b: Vec2, c: Vec2, failures: &mut Vec<Failure>) -> (o: Orientation)
    requires
        a.finite(),
        b.finite(),
        c.finite(),
    ensures
        o == orientation_of(orient2d_det(a, b, c)),
        final(failures)@ == old(failures)@,
{
    proof {
        law_orient2d_is_antisymmetric(a, b, c);
    }
    let base: Orientation = Adaptive.orient2d(a, b, c);
    if Adaptive.orient2d(b, a, c) != base.reverse() {
        failures.push(failure("orient2d", i, "swapping a and b did not negate the result"));
    }
    if !Adaptive.orient2d(a, a, c).is_zero() {
        failures.push(failure("orient2d-degenerate", i, "a repeated point was not degenerate"));
    }
    base
}

/// Checks the identities in space. They always hold.
fn check_space(i: usize, p: Vec3, q: Vec3, r: Vec3, s: Vec3, failures: &mut Vec<Failure>) -> (o: Orientation)
    requires
        p.finite(),
        q.finite(),
        r.finite(),
        s.finite(),
    ensures
        o == orientation_of(orient3d_det(p, q, r, s)),
        final(failures)@ == old(failures)@,
{
    proof {
        law_orient3d_is_antisymmetric(p, q, r, s);
        law_orient3d_is_antisymmetric(q, p, r, s);
    }
    let base: Orientation = Adaptive.orient3d(p, q, r, s);
    if Adaptive.orient3d(q, p, r, s) != base.reverse() {
        failures.push(failure("orient3d", i, "swapping a and b did not negate the result"));
    }
    if Adaptive.orient3d(q, p, s, r) != base {
        failures.push(failure("orient3d-double-swap", i, "two argument exchanges did not restore the sign"));
    }
    base
}

/// The suite, on given cases: the identities hold of every one of them.
pub fn identities_of(cases: &[IdentityCase]) -> (r: SuiteResult)
    requires
        forall|i: int| 0 <= i < cases@.len() ==> (#[trigger] cases@[i]).finite(),
    ensures
        r.name@ == "predicates.identities"@,
        r.description@ == "argument-exchange antisymmetry and degeneracy on seeded random input"@,
        r.cases == cases@.len(),
        r.failures@.len() == 0,
        r.digest@ == spelled(identity_words(cases@), identity_words(cases@).len()),
{
    let mut failures: Vec<Failure> = Vec::new();
    let mut results: String = String::new();
    let mut i: usize = 0;
    while i < cases.len()
        invariant
            i <= cases@.len(),
            forall|i: int| 0 <= i < cases@.len() ==> (#[trigger] cases@[i]).finite(),
            failures@.len() == 0,
            results@ == results_of(cases@, i as nat),
        decreases cases@.len() - i,
    {
        let case: IdentityCase = cases[i];
        assert(cases@[i as int].finite());
        let ghost was = results@;
        let plane: Orientation = check_plane(i, case.plane[0], case.plane[1], case.plane[2], &mut failures);
        let space: Orientation = check_space(
            i,
            case.space[0],
            case.space[1],
            case.space[2],
            case.space[3],
            &mut failures,
        );
        results.push(plane.as_char());
        results.push(space.as_char());
        assert(results@ =~= was + case.results());
        i = i + 1;
    }
    let mut words: Vec<u64> = Vec::new();
    write_text("predicates.identities", &mut words);
    write_text(results.as_str(), &mut words);
    assert(words@ =~= identity_words(cases@));
    let digest: String = spell(words.as_slice());
    SuiteResult {
        name: "predicates.identities",
        description: "argument-exchange antisymmetry and degeneracy on seeded random input",
        cases: cases.len(),
        failures,
        digest,
    }
}

/// A point of the plane on the grid that the suite draws from.
#[verifier::opaque]
pub open spec fn plane_grid(p: Vec2) -> bool {
    quarters_within(p.x, -16, 16) && quarters_within(p.y, -16, 16)
}

/// A point of space on the grid that the suite draws from.
#[verifier::opaque]
pub open spec fn space_grid(p: Vec3) -> bool {
    quarters_within(p.x, -16, 16) && quarters_within(p.y, -16, 16) && quarters_within(p.z, -16, 16)
}

/// A case of points on the grid.
#[verifier::opaque]
pub open spec fn on_grid(c: IdentityCase) -> bool {
    &&& forall|i: int| 0 <= i < 3 ==> plane_grid(#[trigger] c.plane@[i])
    &&& forall|i: int| 0 <= i < 4 ==> space_grid(#[trigger] c.space@[i])
}

fn draw_plane(g: &mut StdRng) -> (p: Vec2)
    ensures
        plane_grid(p),
        p.finite(),
{
    reveal(plane_grid);
    let x = draw_quarters(g, -16, 16);
    let y = draw_quarters(g, -16, 16);
    Vec2::new(x, y)
}

fn draw_space(g: &mut StdRng) -> (p: Vec3)
    ensures
        space_grid(p),
        p.finite(),
{
    reveal(space_grid);
    let x = draw_quarters(g, -16, 16);
    let y = draw_quarters(g, -16, 16);
    let z = draw_quarters(g, -16, 16);
    Vec3::new(x, y, z)
}

/// A case on a grid so coarse that exact degeneracies occur often.
fn draw_case(g: &mut StdRng) -> (c: IdentityCase)
    ensures
        c.finite(),
        on_grid(c),
{
    let a = draw_plane(g);
    let b = draw_plane(g);
    let c = draw_plane(g);
    let p = draw_space(g);
    let q = draw_space(g);
    let r = draw_space(g);
    let s = draw_space(g);
    reveal(on_grid);
    IdentityCase { plane: [a, b, c], space: [p, q, r, s] }
}

/// Cases drawn for a seed.
fn draw_cases(seed: u64, count: usize) -> (v: Vec<IdentityCase>)
    ensures
        v@.len() == count,
        forall|i: int| 0 <= i < v@.len() ==> (#[trigger] v@[i]).finite() && on_grid(v@[i]),
{
    let mut g: StdRng = seeded(seed);
    let mut v: Vec<IdentityCase> = Vec::new();
    while v.len() < count
        invariant
            v@.len() <= count,
            forall|i: int| 0 <= i < v@.len() ==> (#[trigger] v@[i]).finite() && on_grid(v@[i]),
        decreases count - v@.len(),
    {
        let c = draw_case(&mut g);
        v.push(c);
    }
    v
}

/// Predicates must obey their algebraic identities on random input.
pub fn predicate_identity_suite() -> (r: SuiteResult)
    ensures
        r.name@ == "predicates.identities"@,
        r.description@ == "argument-exchange antisymmetry and degeneracy on seeded random input"@,
        r.cases == PREDICATE_IDENTITY_CASES,
        r.failures@.len() == 0,
        exists|cases: Seq<IdentityCase>|
            cases.len() == PREDICATE_IDENTITY_CASES && (forall|i: int| 0 <= i < cases.len() ==> on_grid(#[trigger] cases[i]))
                && r.digest@ == spelled(#[trigger] identity_words(cases), identity_words(cases).len()),
{
    let cases = draw_cases(PREDICATE_IDENTITY_SEED, PREDICATE_IDENTITY_CASES);
    identities_of(cases.as_slice())
}

} // verus!
