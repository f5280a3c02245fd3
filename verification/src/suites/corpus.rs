//! Stored expectations must match the predicates.

use super::cuts::{spell, spelled, tell, told};
use super::outcomes::{flaw_if, heading};
use crate::canonical::list_words;
use crate::mesh::words::write_text;
use crate::predicates::corpus::{exact_result, CorpusCase, PredicateKind};
use crate::predicates::{Adaptive, Orientation};
use crate::selftest::{Failure, SuiteResult};
use vstd::prelude::*;

verus! {

/// Every coordinate of the case is finite.
pub open spec fn case_finite(c: CorpusCase) -> bool {
    forall|i: int| 0 <= i < c@.coords.len() ==> (#[trigger] c@.coords[i]).finite()
}

/// What is said of an expectation that the predicate does not meet.
pub open spec fn mismatch(kind: PredicateKind, expected: Orientation, actual: Orientation) -> Seq<char> {
    kind.label() + " expected `"@ + seq![expected.letter()] + "`, adaptive predicate returned `"@ + seq![
        actual.letter(),
    ] + "`"@
}

/// The failures of the first `n` cases of a kind.
pub open spec fn mismatched(cases: Seq<CorpusCase>, kind: PredicateKind, n: nat) -> Seq<(Seq<char>, Seq<char>)>
    decreases n,
{
    if n == 0 {
        Seq::empty()
    } else {
        let c = cases[n - 1]@;
        let actual = exact_result(kind, c.coords);
        mismatched(cases, kind, (n - 1) as nat) + flaw_if(
            c.kind == kind && actual != c.expected,
            c.id,
            mismatch(kind, c.expected, actual),
        )
    }
}

/// What the first `n` cases record of one kind: the results.
pub open spec fn answers(cases: Seq<CorpusCase>, kind: PredicateKind, n: nat) -> Seq<char>
    decreases n,
{
    if n == 0 {
        Seq::empty()
    } else {
        let before = answers(cases, kind, (n - 1) as nat);
        let c = cases[n - 1]@;
        if c.kind == kind {
            before.push(exact_result(kind, c.coords).letter())
        } else {
            before
        }
    }
}

/// The results of all cases, by kind.
pub open spec fn all_answers(c: Seq<CorpusCase>) -> Seq<char> {
    answers(c, PredicateKind::Orient2d, c.len()) + answers(c, PredicateKind::Orient3d, c.len()) + answers(
        c,
        PredicateKind::InCircle,
        c.len(),
    ) + answers(c, PredicateKind::InSphere, c.len())
}

/// What the suite records: its name and the results.
pub open spec fn corpus_words(c: Seq<CorpusCase>) -> Seq<u64> {
    heading("predicates.corpus"@) + list_words(all_answers(c))
}

fn copied(s: &str) -> (r: String)
    ensures
        r@ == s@,
{
    let mut r: String = String::new();
    r.append(s);
    assert(r@ =~= s@);
    r
}

fn describe(kind: PredicateKind, expected: Orientation, actual: Orientation) -> (r: String)
    ensures
        r@ == mismatch(kind, expected, actual),
{
    let mut r: String = String::new();
    r.append(kind.name());
    r.append(" expected `");
    r.push(expected.as_char());
    r.append("`, adaptive predicate returned `");
    r.push(actual.as_char());
    r.append("`");
    assert(r@ =~= mismatch(kind, expected, actual));
    r
}

/// Checks the cases of one kind, in order.
fn check_kind(cases: &[CorpusCase], kind: PredicateKind, failures: &mut Vec<Failure>, digest: &mut String)
    requires
        forall|i: int| 0 <= i < cases@.len() ==> case_finite(#[trigger] cases@[i]),
    ensures
        told(final(failures)@) == told(old(failures)@) + mismatched(cases@, kind, cases@.len()),
        final(digest)@ == old(digest)@ + answers(cases@, kind, cases@.len()),
{
    let ghost names = told(failures@);
    assert(names =~= names + mismatched(cases@, kind, 0));
    let ghost was = digest@;
    let mut i: usize = 0;
    assert(digest@ =~= was + answers(cases@, kind, 0));
    while i < cases.len()
        invariant
            i <= cases@.len(),
            forall|i: int| 0 <= i < cases@.len() ==> case_finite(#[trigger] cases@[i]),
            told(failures@) == names + mismatched(cases@, kind, i as nat),
            digest@ == was + answers(cases@, kind, i as nat),
        decreases cases@.len() - i,
    {
        let c: &CorpusCase = &cases[i];
        assert(case_finite(cases@[i as int]));
        if c.kind() == kind {
            let actual: Orientation = c.evaluate(&Adaptive);
            digest.push(actual.as_char());
            if actual != c.expected() {
                let detail: String = describe(kind, c.expected(), actual);
                tell(failures, Failure { case: copied(c.id()), detail });
            }
        }
        i = i + 1;
        assert(digest@ =~= was + answers(cases@, kind, i as nat));
        assert(told(failures@) =~= names + mismatched(cases@, kind, i as nat));
    }
}

/// Every stored expectation must match the predicate.
///
/// The cases are taken by kind of predicate, and within a kind in their order.
pub fn predicate_corpus_suite(cases: &[CorpusCase]) -> (r: SuiteResult)
    requires
        forall|i: int| 0 <= i < cases@.len() ==> case_finite(#[trigger] cases@[i]),
    ensures
        r.name@ == "predicates.corpus"@,
        r.description@ == "adaptive predicates against the committed degenerate corpus"@,
        r.cases == cases@.len(),
        told(r.failures@) == mismatched(cases@, PredicateKind::Orient2d, cases@.len()) + mismatched(
            cases@,
            PredicateKind::Orient3d,
            cases@.len(),
        ) + mismatched(cases@, PredicateKind::InCircle, cases@.len()) + mismatched(
            cases@,
            PredicateKind::InSphere,
            cases@.len(),
        ),
        r.digest@ == spelled(corpus_words(cases@), corpus_words(cases@).len()),
{
    let mut failures: Vec<Failure> = Vec::new();
    let mut results: String = String::new();
    assert(told(failures@) =~= Seq::<(Seq<char>, Seq<char>)>::empty());
    check_kind(cases, PredicateKind::Orient2d, &mut failures, &mut results);
    assert(told(failures@) =~= mismatched(cases@, PredicateKind::Orient2d, cases@.len()));
    check_kind(cases, PredicateKind::Orient3d, &mut failures, &mut results);
    check_kind(cases, PredicateKind::InCircle, &mut failures, &mut results);
    check_kind(cases, PredicateKind::InSphere, &mut failures, &mut results);
    assert(results@ =~= all_answers(cases@));
    let mut words: Vec<u64> = Vec::new();
    write_text("predicates.corpus", &mut words);
    write_text(results.as_str(), &mut words);
    assert(words@ =~= corpus_words(cases@));
    let digest: String = spell(words.as_slice());
    SuiteResult {
        name: "predicates.corpus",
        description: "adaptive predicates against the committed degenerate corpus",
        cases: cases.len(),
        failures,
        digest,
    }
}

} // verus!
