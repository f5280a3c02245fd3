//! Span sets obey set algebra, on data far coarser than the merge threshold.

use super::cuts::{spell, spelled, tell, told};
use super::outcomes::heading;
use super::{case_name, draw, failure, seeded};
use crate::arithmetic::{difference, of_int, rounded, sum};
use crate::canonical::{list_words, plain, plain_bits, Canonical};
use crate::double::Double;
use crate::math::OctNormal;
use crate::mesh::words::write_text;
use crate::order::{law_order_is_value_order, law_rounding_fixes_doubles, lemma_one_magnitude};
use crate::precision::law_integers_are_exact;
use crate::selftest::{Failure, SuiteResult, SPAN_ALGEBRA_CASES, SPAN_ALGEBRA_SEED};
use crate::span_laws::{law_outcome_is_the_result, outcome};
use crate::spans::{total_length, SetOp, Span, Spans, EPS_SPAN_MERGE};
use rand::rngs::StdRng;
use vstd::arithmetic::power2::*;
use vstd::prelude::*;

verus! {

/// Two lists of spans have numerically equal bounds and equal normals.
pub open spec fn alike(s: Seq<Span>, t: Seq<Span>) -> bool {
    &&& s.len() == t.len()
    &&& forall|i: int|
        0 <= i < s.len() ==> (#[trigger] s[i]).t0.same(t[i].t0) && s[i].t1.same(t[i].t1) && s[i].n0 == t[i].n0 && s[i].n1
            == t[i].n1
}

/// Compares two sets of spans.
pub fn sets_alike(s: &Spans, t: &Spans) -> (r: bool)
    ensures
        r == alike(s@, t@),
{
    if s.spans.len() != t.spans.len() {
        return false;
    }
    let mut i: usize = 0;
    while i < s.spans.len()
        invariant
            i <= s@.len(),
            s@.len() == t@.len(),
            forall|k: int|
                0 <= k < i ==> (#[trigger] s@[k]).t0.same(t@[k].t0) && s@[k].t1.same(t@[k].t1) && s@[k].n0 == t@[k].n0
                    && s@[k].n1 == t@[k].n1,
        decreases s@.len() - i,
    {
        let x: Span = s.spans[i];
        let y: Span = t.spans[i];
        assert(x == s@[i as int] && y == t@[i as int]);
        if !x.t0.equals(y.t0) || !x.t1.equals(y.t1) || x.n0 != y.n0 || x.n1 != y.n1 {
            return false;
        }
        i = i + 1;
    }
    true
}

/// One.
pub open spec fn unit() -> Double {
    Double { bits: 0x3ff0_0000_0000_0000 }
}

/// The window of one beyond the ends of a set.
pub open spec fn window(a: Seq<Span>) -> Span {
    Span {
        t0: difference(a[0].t0, unit()),
        t1: sum(a.last().t1, unit()),
        n0: OctNormal::unknown(),
        n1: OctNormal::unknown(),
    }
}

/// What of a window lies outside a set.
pub open spec fn outside(w: Span, a: Seq<Span>) -> Seq<Span> {
    if w.valid() {
        outcome(SetOp::Difference, seq![w], a)
    } else {
        Seq::empty()
    }
}

/// Which laws two sets obey.
#[derive(Clone, Copy, Debug, PartialEq, Eq, Structural)]
pub struct SpanVerdict {
    /// `a u a = a`.
    pub idempotent: bool,
    /// `a u b = b u a`.
    pub union_commutes: bool,
    /// `a n b = b n a`.
    pub intersect_commutes: bool,
    /// `(a - b) n b` is empty.
    pub disjoint: bool,
    /// `(a - b) u (a n b) = a`.
    pub partition: bool,
    /// `|a u b| + |a n b| = |a| + |b|`.
    pub measured: bool,
    /// Complementing `a` twice within a window around it gives `a` back.
    pub restored: bool,
}

/// Which laws two sets obey.
pub open spec fn verdict(a: Seq<Span>, b: Seq<Span>) -> SpanVerdict {
    let union = outcome(SetOp::Union, a, b);
    let shared = outcome(SetOp::Intersect, a, b);
    let cut = outcome(SetOp::Difference, a, b);
    SpanVerdict {
        idempotent: alike(outcome(SetOp::Union, a, a), a),
        union_commutes: alike(union, outcome(SetOp::Union, b, a)),
        intersect_commutes: alike(shared, outcome(SetOp::Intersect, b, a)),
        disjoint: outcome(SetOp::Intersect, cut, b).len() == 0,
        partition: alike(outcome(SetOp::Union, cut, shared), a),
        measured: sum(total_length(union), total_length(shared)).same(sum(total_length(a), total_length(b))),
        restored: a.len() == 0 || alike(outside(window(a), outside(window(a), a)), a),
    }
}

fn unite(a: &Spans, b: &Spans) -> (r: Spans)
    requires
        a.wf(),
        b.wf(),
    ensures
        r@ == outcome(SetOp::Union, a@, b@),
        r.wf(),
{
    let r: Spans = a.union(b);
    proof {
        law_outcome_is_the_result(SetOp::Union, a@, b@, r@);
    }
    r
}

fn share(a: &Spans, b: &Spans) -> (r: Spans)
    requires
        a.wf(),
        b.wf(),
    ensures
        r@ == outcome(SetOp::Intersect, a@, b@),
        r.wf(),
{
    let r: Spans = a.intersect(b);
    proof {
        law_outcome_is_the_result(SetOp::Intersect, a@, b@, r@);
    }
    r
}

fn cut_away(a: &Spans, b: &Spans) -> (r: Spans)
    requires
        a.wf(),
        b.wf(),
    ensures
        r@ == outcome(SetOp::Difference, a@, b@),
        r.wf(),
{
    let r: Spans = a.subtract(b);
    proof {
        law_outcome_is_the_result(SetOp::Difference, a@, b@, r@);
    }
    r
}

fn complement(a: &Spans, w: Span) -> (r: Spans)
    requires
        a.wf(),
    ensures
        r@ == outside(w, a@),
        r.wf(),
{
    let r: Spans = a.complement_within(w);
    proof {
        if w.valid() {
            law_outcome_is_the_result(SetOp::Difference, seq![w], a@, r@);
        } else {
            assert(r@ =~= Seq::<Span>::empty());
        }
    }
    r
}

fn restores(a: &Spans) -> (r: bool)
    requires
        a.wf(),
    ensures
        r == (a@.len() == 0 || alike(outside(window(a@), outside(window(a@), a@)), a@)),
{
    match a.hull() {
        None => true,
        Some(hull) => {
            let one: Double = Double::from_bits(0x3ff0_0000_0000_0000);
            let w: Span = Span::new(hull.t0.minus(one), hull.t1.plus(one));
            let once: Spans = complement(a, w);
            let twice: Spans = complement(&once, w);
            sets_alike(&twice, a)
        },
    }
}

/// Tests which laws two sets obey.
pub fn judge(a: &Spans, b: &Spans) -> (v: SpanVerdict)
    requires
        a.wf(),
        b.wf(),
    ensures
        v == verdict(a@, b@),
{
    let union: Spans = unite(a, b);
    let shared: Spans = share(a, b);
    let cut: Spans = cut_away(a, b);
    let idempotent: bool = sets_alike(&unite(a, a), a);
    let union_commutes: bool = sets_alike(&union, &unite(b, a));
    let intersect_commutes: bool = sets_alike(&shared, &share(b, a));
    let disjoint: bool = share(&cut, b).is_empty();
    let partition: bool = sets_alike(&unite(&cut, &shared), a);
    let measured: bool = union.measure().plus(shared.measure()).equals(a.measure().plus(b.measure()));
    let restored: bool = restores(a);
    SpanVerdict { idempotent, union_commutes, intersect_commutes, disjoint, partition, measured, restored }
}

/// Two sets to test.
#[derive(Debug)]
pub struct SpanPair {
    /// The first set.
    pub a: Spans,
    /// The second set.
    pub b: Spans,
}

/// A failure, where a law fails.
pub open spec fn noted(holds: bool, label: Seq<char>, i: nat, detail: Seq<char>) -> Seq<(Seq<char>, Seq<char>)> {
    if holds {
        Seq::empty()
    } else {
        seq![(case_name(label, i), detail)]
    }
}

/// The failures for the laws that a verdict denies.
pub open spec fn denied(v: SpanVerdict, i: nat) -> Seq<(Seq<char>, Seq<char>)> {
    noted(v.idempotent, "idempotence"@, i, "a u a != a"@) + noted(
        v.union_commutes,
        "union-commutes"@,
        i,
        "a u b != b u a"@,
    ) + noted(v.intersect_commutes, "intersect-commutes"@, i, "a n b != b n a"@) + noted(
        v.disjoint,
        "difference-disjoint"@,
        i,
        "(a - b) n b is not empty"@,
    ) + noted(v.partition, "difference-partition"@, i, "(a - b) u (a n b) != a"@) + noted(
        v.measured,
        "measure-inclusion-exclusion"@,
        i,
        "|a u b| + |a n b| != |a| + |b|"@,
    ) + noted(v.restored, "double-complement"@, i, "complementing twice does not give a back"@)
}

/// The failures of the first `n` pairs.
pub open spec fn failing(pairs: Seq<SpanPair>, n: nat) -> Seq<(Seq<char>, Seq<char>)>
    decreases n,
{
    if n == 0 {
        Seq::empty()
    } else {
        failing(pairs, (n - 1) as nat) + denied(verdict(pairs[n - 1].a@, pairs[n - 1].b@), (n - 1) as nat)
    }
}

/// What one pair records: the two sets, their union, intersection and difference,
/// and how long those are.
pub open spec fn pair_words(pair: SpanPair) -> Seq<u64> {
    let (a, b) = (pair.a@, pair.b@);
    let (u, n, d) = (outcome(SetOp::Union, a, b), outcome(SetOp::Intersect, a, b), outcome(SetOp::Difference, a, b));
    list_words(a) + list_words(b) + list_words(u) + list_words(n) + list_words(d) + seq![
        plain_bits(total_length(u)),
        plain_bits(total_length(n)),
        plain_bits(total_length(d)),
    ]
}

/// What the first `n` pairs record.
pub open spec fn pairs_words(pairs: Seq<SpanPair>, n: nat) -> Seq<u64>
    decreases n,
{
    if n == 0 {
        heading("spans.algebra"@)
    } else {
        pairs_words(pairs, (n - 1) as nat) + pair_words(pairs[n - 1])
    }
}

fn note(holds: bool, label: &str, i: usize, detail: &str, failures: &mut Vec<Failure>)
    ensures
        told(final(failures)@) == told(old(failures)@) + noted(holds, label@, i as nat, detail@),
{
    if !holds {
        let f: Failure = failure(label, i, detail);
        tell(failures, f);
    } else {
        assert(told(failures@) =~= told(failures@) + noted(holds, label@, i as nat, detail@));
    }
}

fn note_denied(v: SpanVerdict, i: usize, failures: &mut Vec<Failure>)
    ensures
        told(final(failures)@) == told(old(failures)@) + denied(v, i as nat),
{
    let ghost was = told(failures@);
    note(v.idempotent, "idempotence", i, "a u a != a", failures);
    note(v.union_commutes, "union-commutes", i, "a u b != b u a", failures);
    note(v.intersect_commutes, "intersect-commutes", i, "a n b != b n a", failures);
    note(v.disjoint, "difference-disjoint", i, "(a - b) n b is not empty", failures);
    note(v.partition, "difference-partition", i, "(a - b) u (a n b) != a", failures);
    note(v.measured, "measure-inclusion-exclusion", i, "|a u b| + |a n b| != |a| + |b|", failures);
    note(v.restored, "double-complement", i, "complementing twice does not give a back", failures);
    assert(told(failures@) =~= was + denied(v, i as nat));
}

fn write_pair(pair: &SpanPair, words: &mut Vec<u64>)
    requires
        pair.a.wf(),
        pair.b.wf(),
    ensures
        final(words)@ == old(words)@ + pair_words(*pair),
{
    let ghost before = words@;
    let u: Spans = unite(&pair.a, &pair.b);
    let n: Spans = share(&pair.a, &pair.b);
    let d: Spans = cut_away(&pair.a, &pair.b);
    pair.a.write_words(words);
    pair.b.write_words(words);
    u.write_words(words);
    n.write_words(words);
    d.write_words(words);
    words.push(plain(u.measure()));
    words.push(plain(n.measure()));
    words.push(plain(d.measure()));
    assert(words@ =~= before + pair_words(*pair));
}

/// The suite, on given pairs. The structural invariant holds of both sets of a
/// pair and of all that is made of them, so that it is not among the laws that
/// can fail.
pub fn algebra_of(pairs: &[SpanPair]) -> (r: SuiteResult)
    requires
        forall|i: int| 0 <= i < pairs@.len() ==> (#[trigger] pairs@[i]).a.wf() && pairs@[i].b.wf(),
    ensures
        r.name@ == "spans.algebra"@,
        r.description@ == "set-algebra laws and the structural invariant over seeded random span sets"@,
        r.cases == pairs@.len(),
        told(r.failures@) == failing(pairs@, pairs@.len()),
        r.digest@ == spelled(pairs_words(pairs@, pairs@.len()), pairs_words(pairs@, pairs@.len()).len()),
{
    let mut failures: Vec<Failure> = Vec::new();
    let mut words: Vec<u64> = Vec::new();
    write_text("spans.algebra", &mut words);
    assert(words@ =~= heading("spans.algebra"@));
    let mut i: usize = 0;
    assert(told(failures@) =~= failing(pairs@, 0));
    while i < pairs.len()
        invariant
            i <= pairs@.len(),
            forall|i: int| 0 <= i < pairs@.len() ==> (#[trigger] pairs@[i]).a.wf() && pairs@[i].b.wf(),
            told(failures@) == failing(pairs@, i as nat),
            words@ == pairs_words(pairs@, i as nat),
        decreases pairs@.len() - i,
    {
        assert(pairs@[i as int].a.wf());
        let v: SpanVerdict = judge(&pairs[i].a, &pairs[i].b);
        note_denied(v, i, &mut failures);
        write_pair(&pairs[i], &mut words);
        i = i + 1;
    }
    let digest: String = spell(words.as_slice());
    SuiteResult {
        name: "spans.algebra",
        description: "set-algebra laws and the structural invariant over seeded random span sets",
        cases: pairs.len(),
        failures,
        digest,
    }
}

/// The span between two integers, without normals.
pub open spec fn grid_span(a: int, b: int) -> Span {
    Span { t0: of_int(a), t1: of_int(b), n0: OctNormal::unknown(), n1: OctNormal::unknown() }
}

/// The span lies on the integer grid.
pub open spec fn gridded(x: Span) -> bool {
    exists|a: int, b: int| -20 <= a < b <= 100 && x == #[trigger] grid_span(a, b)
}

/// A set of at most so many spans on the integer grid.
pub open spec fn on_grid(s: Seq<Span>, most: int) -> bool {
    s.len() <= most && forall|i: int| 0 <= i < s.len() ==> gridded(#[trigger] s[i])
}

/// Integers apart are far apart.
proof fn lemma_grid_apart(a: int, b: int)
    requires
        -1000 <= a < b <= 1000,
    ensures
        of_int(a).lt(of_int(b)),
        of_int(a).finite() && of_int(b).finite(),
        !difference(of_int(b), of_int(a)).le(Double { bits: EPS_SPAN_MERGE }),
{
    law_integers_are_exact(a);
    law_integers_are_exact(b);
    law_integers_are_exact(1);
    law_integers_are_exact(b - a);
    lemma_pow2_pos(1074);
    let u = pow2(1074) as int;
    assert(a * u < b * u && b * u - a * u == (b - a) * u && (b - a) * u >= 1 * u && (b - a) * u > 0)
        by (nonlinear_arith)
        requires
            a < b,
            u > 0,
    ;
    law_order_is_value_order(of_int(a), of_int(b));
    law_order_is_value_order(of_int(1), of_int(b - a));
    assert(of_int(a).negated().value() == -of_int(a).value());
    assert(difference(of_int(b), of_int(a)) == rounded((b - a) * u));
    assert(difference(of_int(b), of_int(a)) == of_int(b - a));
    let eps = Double { bits: EPS_SPAN_MERGE };
    let one = Double { bits: 0x3ff0_0000_0000_0000 };
    assert(eps.key() == EPS_SPAN_MERGE as int);
    lemma_one_magnitude();
    law_rounding_fixes_doubles(one);
    assert(of_int(1) == one);
    assert(one.key() == 0x3ff0_0000_0000_0000);
}

/// A set on an integer grid, whose spacing is far above the merge threshold.
fn draw_spans(g: &mut StdRng, most: i32) -> (s: Spans)
    requires
        0 <= most <= 6,
    ensures
        s.wf(),
        on_grid(s@, most as int),
{
    let n: i32 = draw(g, 0, most);
    let mut s: Spans = Spans::new();
    let mut t: i64 = draw(g, -20, 20) as i64;
    let ghost mut last: int = t - 1;
    let mut i: i32 = 0;
    while i < n
        invariant
            i <= n <= most <= 6,
            s.wf(),
            s@.len() == i,
            -20 <= t <= 20 + 11 * i,
            -1000 <= last < t,
            s@.len() > 0 ==> exists|a: int| -20 <= a < last && s@.last() == #[trigger] grid_span(a, last),
            on_grid(s@, i as int),
        decreases n - i,
    {
        let end: i64 = t + draw(g, 1, 6) as i64;
        let x: Span = Span::new(Double::from_i64(t), Double::from_i64(end));
        let ghost was = s@;
        proof {
            assert(x == grid_span(t as int, end as int));
            lemma_grid_apart(t as int, end as int);
            lemma_grid_apart(last, t as int);
            if was.len() > 0 {
                let a = choose|a: int| -20 <= a < last && was.last() == #[trigger] grid_span(a, last);
                lemma_grid_apart(a, t as int);
            }
        }
        s.push_merge(x);
        proof {
            assert(s@ == was.push(x));
            assert(gridded(x));
            assert(s@.last() == grid_span(t as int, end as int));
            last = end as int;
        }
        t = end + draw(g, 1, 5) as i64;
        i = i + 1;
    }
    s
}

/// A pair of sets as the suite draws them.
pub open spec fn drawn_pair(p: SpanPair) -> bool {
    p.a.wf() && p.b.wf() && on_grid(p.a@, 6) && on_grid(p.b@, 6)
}

/// The span set algebra, on data far coarser than the merge threshold.
pub fn span_algebra_suite() -> (r: SuiteResult)
    ensures
        r.name@ == "spans.algebra"@,
        r.description@ == "set-algebra laws and the structural invariant over seeded random span sets"@,
        r.cases == SPAN_ALGEBRA_CASES,
        exists|pairs: Seq<SpanPair>|
            pairs.len() == SPAN_ALGEBRA_CASES && (forall|i: int| 0 <= i < pairs.len() ==> drawn_pair(#[trigger] pairs[i]))
                && told(r.failures@) == failing(pairs, pairs.len()) && r.digest@ == spelled(
                #[trigger] pairs_words(pairs, pairs.len()),
                pairs_words(pairs, pairs.len()).len(),
            ),
{
    let mut g: StdRng = seeded(SPAN_ALGEBRA_SEED);
    let mut pairs: Vec<SpanPair> = Vec::new();
    while pairs.len() < SPAN_ALGEBRA_CASES
        invariant
            pairs@.len() <= SPAN_ALGEBRA_CASES,
            forall|i: int| 0 <= i < pairs@.len() ==> drawn_pair(#[trigger] pairs@[i]),
        decreases SPAN_ALGEBRA_CASES - pairs@.len(),
    {
        let a: Spans = draw_spans(&mut g, 6);
        let b: Spans = draw_spans(&mut g, 6);
        pairs.push(SpanPair { a, b });
    }
    algebra_of(pairs.as_slice())
}

} // verus!
