//! What digests tell: which suite they are of, and what it judged.

use crate::canonical::{law_lists_delimit, list_words, Canonical};
use crate::double::Double;
use crate::refixture::FieldBundle;
use crate::selftest::{
    algebra_results, identity_results, judged, makes_cases, mesh_results, number_of, records, setup_results, suite_names,
    suite_words, Measured, SuiteResult, PREDICATE_IDENTITY_CASES, SPAN_ALGEBRA_CASES,
};
use crate::suites::algebra::{drawn_pair, failing, pair_words, pairs_words, SpanPair};
use crate::suites::arcs::{all_words, tool_arcs_words, ToolArcs};
use crate::suites::corpus::all_answers;
use crate::suites::cuts::{cuts_words, spelled, told, tool_words, ToolCuts};
use crate::suites::encoding::encoding_words;
use crate::suites::fields::taken;
use crate::suites::identities::{identity_words, on_grid, results_of, IdentityCase};
use crate::suites::outcomes::{contents_of, heading};
use crate::suites::setups::{block_moved, class_words, classes, crossings, setups_checked, setups_planned, suite_block, SetupCase};
use crate::suites::solids::{casts_of, law_suite_shapes_are_determined, solids_flaws, solids_words, suite_shapes, SolidCase};
use crate::text::{decimal_digit, decimal_text};
use crate::text_laws::law_decimal_spells;
use vstd::prelude::*;

verus! {

proof fn lemma_record_ends(w: Seq<u64>, n: nat)
    requires
        0 < n <= w.len(),
    ensures
        spelled(w, n).len() > 0,
        spelled(w, n).last() == ';',
{
    reveal_strlit(";");
    let s = number_of(w[n - 1] as nat);
    assert(s.last() == ';');
    assert(spelled(w, n).last() == s.last());
}

/// A text that ends in digits behind a semicolon, or in digits alone, has no more
/// digits at its end than another way to read it has.
proof fn lemma_last_number(p: Seq<char>, a: Seq<char>, q: Seq<char>, b: Seq<char>)
    requires
        p.len() == 0 || p.last() == ';',
        forall|i: int| 0 <= i < b.len() ==> decimal_digit(#[trigger] b[i]),
        p + (a + ";"@) == q + (b + ";"@),
    ensures
        b.len() <= a.len(),
{
    reveal_strlit(";");
    let s = p + (a + ";"@);
    let t = q + (b + ";"@);
    if a.len() < b.len() {
        let k = b.len() - 1 - a.len();
        assert(s.len() == p.len() + a.len() + 1);
        assert(t.len() == q.len() + b.len() + 1);
        assert(p.len() == q.len() + k + 1);
        assert(t[q.len() + k] == b[k]);
        assert(s[p.len() - 1] == p.last());
        assert(decimal_digit(b[k]));
    }
}

proof fn lemma_spelled(u: Seq<u64>, v: Seq<u64>, n: nat, m: nat)
    requires
        n <= u.len(),
        m <= v.len(),
        spelled(u, n) == spelled(v, m),
    ensures
        n == m,
        forall|i: int| 0 <= i < n ==> u[i] == v[i],
    decreases n,
{
    reveal_strlit(";");
    if n == 0 {
        if m > 0 {
            lemma_record_ends(v, m);
        }
    } else {
        lemma_record_ends(u, n);
        if m > 0 {
            let p = spelled(u, (n - 1) as nat);
            let q = spelled(v, (m - 1) as nat);
            let a = decimal_text(u[n - 1] as nat);
            let b = decimal_text(v[m - 1] as nat);
            law_decimal_spells(u[n - 1] as nat);
            law_decimal_spells(v[m - 1] as nat);
            if n > 1 {
                lemma_record_ends(u, (n - 1) as nat);
            }
            if m > 1 {
                lemma_record_ends(v, (m - 1) as nat);
            }
            lemma_last_number(p, a, q, b);
            lemma_last_number(q, b, p, a);
            let s = p + (a + ";"@);
            let t = q + (b + ";"@);
            assert(s.len() == p.len() + a.len() + 1);
            assert(t.len() == q.len() + b.len() + 1);
            assert forall|i: int| 0 <= i < p.len() implies p[i] == q[i] by {
                assert(s[i] == p[i] && t[i] == q[i]);
            }
            assert(p =~= q);
            assert forall|i: int| 0 <= i < a.len() implies a[i] == b[i] by {
                assert(s[p.len() + i] == a[i] && t[q.len() + i] == b[i]);
            }
            assert(a =~= b);
            lemma_spelled(u, v, (n - 1) as nat, (m - 1) as nat);
        }
    }
}

/// A record tells its words: two lists of words that are spelled alike are the
/// same.
pub proof fn law_records_tell_words(u: Seq<u64>, v: Seq<u64>)
    requires
        spelled(u, u.len()) == spelled(v, v.len()),
    ensures
        u == v,
{
    lemma_spelled(u, v, u.len(), v.len());
    assert(u =~= v);
}

/// The names that stand at the head of the records, in the order of the suites.
pub open spec fn record_heads() -> Seq<Seq<char>> {
    suite_names().update(8, "dexel"@)
}

/// Words that begin with a heading.
pub open spec fn headed(w: Seq<u64>, name: Seq<char>) -> bool {
    heading(name).is_prefix_of(w)
}

proof fn lemma_headed(w: Seq<u64>, more: Seq<u64>, name: Seq<char>)
    requires
        headed(w, name),
    ensures
        headed(w + more, name),
{
    let h = heading(name);
    assert(h =~= (w + more).subrange(0, h.len() as int)) by {
        assert(h == w.subrange(0, h.len() as int));
        assert forall|i: int| 0 <= i < h.len() implies h[i] == (w + more)[i] by {
            assert(h[i] == w.subrange(0, h.len() as int)[i]);
        }
    }
}

proof fn lemma_heading(name: Seq<char>)
    ensures
        headed(heading(name), name),
{
    assert(heading(name).subrange(0, heading(name).len() as int) =~= heading(name));
}

proof fn lemma_cuts_headed(t: Seq<ToolCuts>, n: nat)
    ensures
        headed(cuts_words(t, n), "sweep"@),
    decreases n,
{
    if n == 0 {
        lemma_heading("sweep"@);
    } else {
        lemma_cuts_headed(t, (n - 1) as nat);
        let before = cuts_words(t, (n - 1) as nat);
        let more = if t[n - 1].made {
            tool_words(t[n - 1].tool@, t[n - 1].cuts@, t[n - 1].cuts@.len())
        } else {
            Seq::empty()
        };
        lemma_headed(before, more, "sweep"@);
    }
}

proof fn lemma_arcs_headed(t: Seq<ToolArcs>, n: nat)
    ensures
        headed(all_words(t, n), "sweep.arc"@),
    decreases n,
{
    if n == 0 {
        lemma_heading("sweep.arc"@);
    } else {
        lemma_arcs_headed(t, (n - 1) as nat);
        let before = all_words(t, (n - 1) as nat);
        let more = if t[n - 1].made {
            tool_arcs_words(t[n - 1])
        } else {
            Seq::empty()
        };
        lemma_headed(before, more, "sweep.arc"@);
    }
}

proof fn lemma_pairs_headed(pairs: Seq<SpanPair>, n: nat)
    ensures
        headed(pairs_words(pairs, n), "spans.algebra"@),
    decreases n,
{
    if n == 0 {
        lemma_heading("spans.algebra"@);
    } else {
        lemma_pairs_headed(pairs, (n - 1) as nat);
        let before = pairs_words(pairs, (n - 1) as nat);
        let more = pair_words(pairs[n - 1]);
        lemma_headed(before, more, "spans.algebra"@);
    }
}

proof fn lemma_solids_headed(c: Seq<SolidCase>, n: nat)
    ensures
        headed(solids_words(c, n), "mesh"@),
    decreases n,
{
    if n == 0 {
        lemma_heading("mesh"@);
    } else {
        lemma_solids_headed(c, (n - 1) as nat);
        let before = solids_words(c, (n - 1) as nat);
        let more = c[n - 1].content();
        lemma_headed(before, more, "mesh"@);
    }
}

proof fn lemma_classes_headed(c: Seq<SetupCase>, spacing: Double, sample_distance: Double, n: nat)
    ensures
        headed(classes(c, spacing, sample_distance, n).2, "refixture"@),
    decreases n,
{
    if n == 0 {
        lemma_heading("refixture"@);
    } else {
        lemma_classes_headed(c, spacing, sample_distance, (n - 1) as nat);
        let before = classes(c, spacing, sample_distance, (n - 1) as nat).2;
        let more = class_words(c[n - 1], spacing, sample_distance);
        lemma_headed(before, more, "refixture"@);
    }
}

/// The record of a suite on stored or measured cases begins with its name.
proof fn lemma_words_headed(m: Measured, i: int)
    requires
        0 <= i < 16,
        !makes_cases(i),
    ensures
        headed(suite_words(m, i), record_heads()[i]),
{
    let name = record_heads()[i];
    lemma_heading(name);
    let h = heading(name);
    if i == 0 {
        lemma_headed(h, list_words(all_answers(m.corpus@)), name);
    } else if i == 3 {
        lemma_headed(h, contents_of(m.kernels@, m.kernels@.len()), name);
    } else if i == 4 {
        let a = contents_of(m.functions@, m.functions@.len());
        lemma_headed(h, a, name);
        lemma_headed(h + a, contents_of(m.exact_values@, m.exact_values@.len()), name);
    } else if i == 6 {
        lemma_headed(h, contents_of(m.polynomials@, m.polynomials@.len()), name);
    } else if i == 7 {
        lemma_headed(h, contents_of(m.tools@, m.tools@.len()), name);
    } else if i == 8 {
        lemma_headed(h, contents_of(m.fields@, m.fields@.len()), name);
    } else if i == 9 {
        lemma_cuts_headed(m.cuts@, m.cuts@.len());
    } else if i == 10 {
        lemma_arcs_headed(m.arcs@, m.arcs@.len());
    } else if i == 11 {
        let a = contents_of(m.extractions@, m.extractions@.len());
        lemma_headed(h, a, name);
        lemma_headed(h + a, heading("oct"@), name);
        lemma_headed(h + a + heading("oct"@), contents_of(m.codes@, m.codes@.len()), name);
    } else if i == 12 {
        let d = m.deviations;
        let a = contents_of(d.cuts@, d.cuts@.len());
        let b = contents_of(taken(d.normals), taken(d.normals).len());
        lemma_headed(h, a, name);
        lemma_headed(h + a, heading("tool-normal"@), name);
        lemma_headed(h + a + heading("tool-normal"@), b, name);
        lemma_headed(h + a + heading("tool-normal"@) + b, heading("facet-size"@), name);
        lemma_headed(
            h + a + heading("tool-normal"@) + b + heading("facet-size"@),
            contents_of(d.facets@, d.facets@.len()),
            name,
        );
    } else if i == 14 {
        let a = contents_of(m.profiles@, m.profiles@.len());
        lemma_headed(h, a, name);
        lemma_headed(h + a, heading("detect"@), name);
        lemma_headed(h + a + heading("detect"@), contents_of(m.collisions@, m.collisions@.len()), name);
    } else {
        lemma_encoding_headed();
    }
}

proof fn lemma_encoding_headed()
    ensures
        headed(encoding_words(), "hash.selfcheck"@),
{
    let h = heading("hash.selfcheck"@);
    let w = encoding_words();
    assert(h =~= w.subrange(0, h.len() as int));
}

/// What is said of the record of a suite on stored or measured cases.
#[verifier::rlimit(60)]
proof fn lemma_records(m: Measured, i: int, s: SuiteResult)
    requires
        0 <= i < 16,
        !makes_cases(i),
        judged(m, i, s),
    ensures
        records(s, suite_words(m, i)),
{
    reveal(judged);
}

/// What is said of a suite that makes its cases.
#[verifier::rlimit(60)]
proof fn lemma_made(m: Measured, i: int, s: SuiteResult)
    requires
        judged(m, i, s),
    ensures
        i == 1 ==> identity_results(s),
        i == 2 ==> algebra_results(s),
        i == 5 ==> mesh_results(m.turned@, s),
        i == 13 ==> setup_results(m, s),
{
    reveal(judged);
}

proof fn lemma_identities_headed(s: SuiteResult) -> (w: Seq<u64>)
    requires
        identity_results(s),
    ensures
        headed(w, "predicates.identities"@),
        records(s, w),
{
    let cases = choose|cases: Seq<IdentityCase>|
        cases.len() == PREDICATE_IDENTITY_CASES && (forall|i: int| 0 <= i < cases.len() ==> on_grid(#[trigger] cases[i]))
            && records(s, #[trigger] identity_words(cases));
    lemma_heading("predicates.identities"@);
    lemma_headed(
        heading("predicates.identities"@),
        list_words(results_of(cases, cases.len())),
        "predicates.identities"@,
    );
    identity_words(cases)
}

proof fn lemma_algebra_headed(s: SuiteResult) -> (w: Seq<u64>)
    requires
        algebra_results(s),
    ensures
        headed(w, "spans.algebra"@),
        records(s, w),
{
    let pairs = choose|pairs: Seq<SpanPair>|
        pairs.len() == SPAN_ALGEBRA_CASES && (forall|i: int| 0 <= i < pairs.len() ==> drawn_pair(#[trigger] pairs[i]))
            && told(s.failures@) == failing(pairs, pairs.len()) && records(
            s,
            #[trigger] pairs_words(pairs, pairs.len()),
        );
    lemma_pairs_headed(pairs, pairs.len());
    pairs_words(pairs, pairs.len())
}

proof fn lemma_mesh_headed(turned: Seq<SolidCase>, s: SuiteResult) -> (w: Seq<u64>)
    requires
        mesh_results(turned, s),
    ensures
        headed(w, "mesh"@),
        records(s, w),
{
    let shapes = choose|shapes: Seq<SolidCase>| #[trigger]
        suite_shapes(shapes, turned) && s.cases == casts_of(shapes, shapes.len()) && told(s.failures@) == solids_flaws(
            shapes,
            shapes.len(),
        ) && records(s, solids_words(shapes, shapes.len()));
    lemma_solids_headed(shapes, shapes.len());
    solids_words(shapes, shapes.len())
}

proof fn lemma_turned_headed(m: Measured, s: SuiteResult) -> (w: Seq<u64>)
    requires
        setup_results(m, s),
    ensures
        headed(w, "refixture"@),
        records(s, w),
{
    let half = Double { bits: 0x3fe0_0000_0000_0000 };
    let cases = choose|cases: Seq<SetupCase>| #[trigger]
        setups_planned(cases, m.turn[0], m.turn[1]) && setups_checked(cases, suite_block(), half, m.sample_distance, s);
    lemma_setups_headed(cases, half, m.sample_distance, s)
}

/// The digest of a suite is a record that begins with the name of the suite.
proof fn lemma_digest_headed(m: Measured, i: int, s: SuiteResult) -> (w: Seq<u64>)
    requires
        0 <= i < 16,
        judged(m, i, s),
    ensures
        headed(w, record_heads()[i]),
        records(s, w),
{
    lemma_made(m, i, s);
    if i == 1 {
        lemma_identities_headed(s)
    } else if i == 2 {
        lemma_algebra_headed(s)
    } else if i == 5 {
        lemma_mesh_headed(m.turned@, s)
    } else if i == 13 {
        lemma_turned_headed(m, s)
    } else {
        lemma_records(m, i, s);
        lemma_words_headed(m, i);
        suite_words(m, i)
    }
}

proof fn lemma_setups_headed(cases: Seq<SetupCase>, spacing: Double, sample_distance: Double, s: SuiteResult) -> (w: Seq<u64>)
    requires
        setups_checked(cases, suite_block(), spacing, sample_distance, s),
    ensures
        headed(w, "refixture"@),
        records(s, w),
{
    let n = cases.len();
    let (count, flaws, words) = classes(cases, spacing, sample_distance, n);
    let moved = choose|moved: Seq<Option<Vec<Option<FieldBundle>>>>|
        moved.len() == n && (forall|i: int|
            0 <= i < n && cases[i].exact ==> block_moved(suite_block(), cases[i].transform, spacing, #[trigger] moved[i]))
            && ({
            let (more, flaws2, words2) = #[trigger] crossings(cases, moved, n);
            &&& s.cases == count + more
            &&& told(s.failures@) == flaws + flaws2
            &&& s.digest@ == spelled(words + words2, (words + words2).len())
        });
    let words2 = crossings(cases, moved, n).2;
    lemma_classes_headed(cases, spacing, sample_distance, n);
    lemma_headed(words, words2, "refixture"@);
    words + words2
}

proof fn lemma_heads_differ(i: int, j: int)
    requires
        0 <= i < 16,
        0 <= j < 16,
        record_heads()[i].len() == record_heads()[j].len(),
        record_heads()[i][0] == record_heads()[j][0],
    ensures
        i == j,
{
    reveal_strlit("predicates.corpus");
    reveal_strlit("predicates.identities");
    reveal_strlit("spans.algebra");
    reveal_strlit("math.kernels");
    reveal_strlit("transcendental");
    reveal_strlit("mesh");
    reveal_strlit("roots");
    reveal_strlit("tool");
    reveal_strlit("dexel");
    reveal_strlit("sweep");
    reveal_strlit("sweep.arc");
    reveal_strlit("contour");
    reveal_strlit("deviation");
    reveal_strlit("refixture");
    reveal_strlit("collision");
    reveal_strlit("hash.selfcheck");
}

/// No two suites have the same name.
pub proof fn law_names_differ(i: int, j: int)
    requires
        0 <= i < 16,
        0 <= j < 16,
        i != j,
    ensures
        suite_names()[i] != suite_names()[j],
{
    reveal_strlit("dexel.field");
    reveal_strlit("sweep.arc");
    reveal_strlit("predicates.corpus");
    reveal_strlit("predicates.identities");
    reveal_strlit("spans.algebra");
    reveal_strlit("math.kernels");
    reveal_strlit("transcendental");
    reveal_strlit("mesh");
    reveal_strlit("roots");
    reveal_strlit("tool");
    reveal_strlit("sweep");
    reveal_strlit("contour");
    reveal_strlit("deviation");
    reveal_strlit("refixture");
    reveal_strlit("collision");
    reveal_strlit("hash.selfcheck");
    if suite_names()[i] == suite_names()[j] {
        if i != 8 && j != 8 {
            lemma_heads_differ(i, j);
        } else {
            let k = if i == 8 {
                j
            } else {
                i
            };
            assert(suite_names()[8].len() == 11);
            assert(suite_names()[k].len() == 11);
        }
    }
}

/// No two suites have the same digest, whatever they judge.
pub proof fn law_digests_differ(m: Measured, i: int, j: int, a: SuiteResult, b: SuiteResult)
    requires
        0 <= i < 16,
        0 <= j < 16,
        i != j,
        judged(m, i, a),
        judged(m, j, b),
    ensures
        a.digest@ != b.digest@,
{
    let u = lemma_digest_headed(m, i, a);
    let v = lemma_digest_headed(m, j, b);
    if a.digest@ == b.digest@ {
        law_records_tell_words(u, v);
        let x = record_heads()[i];
        let y = record_heads()[j];
        let p = u.subrange(heading(x).len() as int, u.len() as int);
        let q = v.subrange(heading(y).len() as int, v.len() as int);
        lemma_split(u, x);
        lemma_split(v, y);
        law_lists_delimit(x, y, p, q);
        lemma_heads_nonempty(i);
        assert(x[0].agrees(y[0]));
        lemma_heads_differ(i, j);
    }
}

proof fn lemma_heads_nonempty(i: int)
    requires
        0 <= i < 16,
    ensures
        record_heads()[i].len() > 0,
{
    reveal_strlit("predicates.corpus");
    reveal_strlit("predicates.identities");
    reveal_strlit("spans.algebra");
    reveal_strlit("math.kernels");
    reveal_strlit("transcendental");
    reveal_strlit("mesh");
    reveal_strlit("roots");
    reveal_strlit("tool");
    reveal_strlit("dexel");
    reveal_strlit("sweep");
    reveal_strlit("sweep.arc");
    reveal_strlit("contour");
    reveal_strlit("deviation");
    reveal_strlit("refixture");
    reveal_strlit("collision");
    reveal_strlit("hash.selfcheck");
}

proof fn lemma_split(w: Seq<u64>, name: Seq<char>)
    requires
        headed(w, name),
    ensures
        w == list_words(name) + w.subrange(heading(name).len() as int, w.len() as int),
{
    let h = heading(name);
    assert(w =~= h + w.subrange(h.len() as int, w.len() as int)) by {
        assert(h == w.subrange(0, h.len() as int));
    }
}

/// A suite on stored or measured cases is reproducible: judged twice, the same
/// cases give the same name, count, failures and digest.
#[verifier::rlimit(60)]
pub proof fn law_judging_is_reproducible(m: Measured, i: int, a: SuiteResult, b: SuiteResult)
    requires
        0 <= i < 16,
        !makes_cases(i),
        judged(m, i, a),
        judged(m, i, b),
    ensures
        a.name@ == b.name@,
        a.description@ == b.description@,
        a.cases == b.cases,
        told(a.failures@) == told(b.failures@),
        a.digest@ == b.digest@,
{
    reveal(judged);
    if i == 15 {
        assert(told(a.failures@) =~= told(b.failures@));
    }
}

/// The suite of meshes is reproducible: the shapes it makes for itself are always
/// the same.
pub proof fn law_meshes_are_judged_reproducibly(m: Measured, a: SuiteResult, b: SuiteResult)
    requires
        judged(m, 5, a),
        judged(m, 5, b),
    ensures
        a.cases == b.cases,
        told(a.failures@) == told(b.failures@),
        a.digest@ == b.digest@,
{
    lemma_made(m, 5, a);
    lemma_made(m, 5, b);
    let t = m.turned@;
    let c = choose|c: Seq<SolidCase>| #[trigger]
        suite_shapes(c, t) && a.cases == casts_of(c, c.len()) && told(a.failures@) == solids_flaws(c, c.len()) && records(
            a,
            solids_words(c, c.len()),
        );
    let d = choose|d: Seq<SolidCase>| #[trigger]
        suite_shapes(d, t) && b.cases == casts_of(d, d.len()) && told(b.failures@) == solids_flaws(d, d.len()) && records(
            b,
            solids_words(d, d.len()),
        );
    law_suite_shapes_are_determined(c, d, t);
}

} // verus!
