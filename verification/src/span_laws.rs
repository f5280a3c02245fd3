//! The algebra of span sets.

use crate::arithmetic::difference;
use crate::double::Double;
use crate::order::{law_difference_nan, law_order_is_value_order, law_rounding_keeps_order};
use crate::spans::{
    absorbed, ascending, close, combined, covers, end_of, fused, has_end, inherited, kept,
    law_normalizing_is_idempotent, lemma_arranged_ascending, normal_form, normalized, op_result, scanned, SetOp, Span,
    EPS_SPAN_MERGE,
};
use vstd::prelude::*;

verus! {

/// Two sets hold the same points.
pub open spec fn same_points(s: Seq<Span>, t: Seq<Span>) -> bool {
    forall|k: int| #[trigger] covers(s, k) == covers(t, k)
}

/// Two lists of spans have equal bounds, whatever their normals.
pub open spec fn same_bounds(s: Seq<Span>, t: Seq<Span>) -> bool {
    &&& s.len() == t.len()
    &&& forall|i: int| 0 <= i < s.len() ==> (#[trigger] s[i]).t0.key() == t[i].t0.key() && s[i].t1.key() == t[i].t1.key()
}

/// `t` is a bound of one of the spans.
pub open spec fn bound_of(s: Seq<Span>, t: Double) -> bool {
    exists|i: int| 0 <= i < s.len() && ((#[trigger] s[i]).t0 == t || s[i].t1 == t)
}

/// `t` is a bound in one of two lists of spans.
pub open spec fn bound_in(a: Seq<Span>, b: Seq<Span>, t: Double) -> bool {
    bound_of(a, t) || bound_of(b, t)
}

/// Any two different bounds in play are more than the merge threshold apart.
pub open spec fn separated(a: Seq<Span>, b: Seq<Span>) -> bool {
    forall|x: Double, y: Double|
        #[trigger] bound_in(a, b, x) && #[trigger] bound_in(a, b, y) && x.key() < y.key() ==> !difference(y, x).le(Double { bits: EPS_SPAN_MERGE })
}

proof fn lemma_covers_tail(s: Seq<Span>, k: int)
    requires
        ascending(s),
        s.len() > 0,
    ensures
        covers(s, k) == (s[0].holds(k) || covers(s.drop_first(), k)),
        covers(s.drop_first(), k) ==> s[0].t1.key() < k,
{
    let t = s.drop_first();
    if covers(t, k) {
        let i = choose|i: int| 0 <= i < t.len() && (#[trigger] t[i]).holds(k);
        assert(s[i + 1].holds(k));
        assert(s[0].t1.key() < s[i + 1].t0.key());
    }
    if covers(s, k) {
        let i = choose|i: int| 0 <= i < s.len() && (#[trigger] s[i]).holds(k);
        if i > 0 {
            assert(t[i - 1].holds(k));
        }
    }
    if s[0].holds(k) {
        assert(covers(s, k));
    }
}

/// Ascending spans are determined by the points they hold.
pub proof fn law_points_determine_bounds(s: Seq<Span>, t: Seq<Span>)
    requires
        ascending(s),
        ascending(t),
        same_points(s, t),
    ensures
        same_bounds(s, t),
    decreases s.len(),
{
    if s.len() == 0 {
        if t.len() > 0 {
            assert(t[0].valid());
            assert(t[0].holds(t[0].t0.key()));
            assert(covers(t, t[0].t0.key()));
            assert(!covers(s, t[0].t0.key()));
        }
        return;
    }
    if t.len() == 0 {
        assert(s[0].valid());
        assert(s[0].holds(s[0].t0.key()));
        assert(covers(s, s[0].t0.key()));
        return;
    }
    assert(s[0].valid());
    assert(t[0].valid());
    let (s0, s1, t0, t1) = (s[0].t0.key(), s[0].t1.key(), t[0].t0.key(), t[0].t1.key());
    lemma_covers_tail(s, s0);
    lemma_covers_tail(s, t0);
    lemma_covers_tail(s, t1);
    lemma_covers_tail(s, s1);
    lemma_covers_tail(t, s0);
    lemma_covers_tail(t, t0);
    lemma_covers_tail(t, t1);
    lemma_covers_tail(t, s1);
    assert(s[0].holds(s0));
    assert(t[0].holds(t0));
    assert(covers(s, s0) == covers(t, s0));
    assert(covers(s, t0) == covers(t, t0));
    assert(s0 == t0);
    assert(covers(s, s1) == covers(t, s1));
    assert(covers(s, t1) == covers(t, t1));
    assert(s1 == t1);
    let u = s.drop_first();
    let v = t.drop_first();
    assert forall|k: int| #[trigger] covers(u, k) == covers(v, k) by {
        lemma_covers_tail(s, k);
        lemma_covers_tail(t, k);
        assert(covers(s, k) == covers(t, k));
    }
    law_points_determine_bounds(u, v);
    assert forall|i: int| 0 <= i < s.len() implies (#[trigger] s[i]).t0.key() == t[i].t0.key() && s[i].t1.key()
        == t[i].t1.key() by {
        if i > 0 {
            assert(u[i - 1] == s[i]);
            assert(v[i - 1] == t[i]);
        }
    }
}

/// Among ascending spans a bound is known by its place in the order.
proof fn lemma_end_unique(s: Seq<Span>, t: Double, n: crate::math::OctNormal, u: Double, m: crate::math::OctNormal)
    requires
        ascending(s),
        end_of(s, t, n),
        end_of(s, u, m),
        t.key() == u.key(),
    ensures
        t == u,
        n == m,
{
    let i = choose|i: int|
        0 <= i < s.len() && (((#[trigger] s[i]).t0 == t && s[i].n0 == n) || (s[i].t1 == t && s[i].n1 == n));
    let j = choose|j: int|
        0 <= j < s.len() && (((#[trigger] s[j]).t0 == u && s[j].n0 == m) || (s[j].t1 == u && s[j].n1 == m));
    assert(s[i].valid());
    assert(s[j].valid());
    if i < j {
        assert(s[i].t1.key() < s[j].t0.key());
    } else if j < i {
        assert(s[j].t1.key() < s[i].t0.key());
    }
}

proof fn lemma_end_has(s: Seq<Span>, t: Double, n: crate::math::OctNormal)
    requires
        end_of(s, t, n),
    ensures
        has_end(s, t.key()),
        bound_of(s, t),
{
    let i = choose|i: int|
        0 <= i < s.len() && (((#[trigger] s[i]).t0 == t && s[i].n0 == n) || (s[i].t1 == t && s[i].n1 == n));
    assert(s[i].t0 == t || s[i].t1 == t);
}

proof fn lemma_inherited_unique(
    op: SetOp,
    a: Seq<Span>,
    b: Seq<Span>,
    t: Double,
    n: crate::math::OctNormal,
    u: Double,
    m: crate::math::OctNormal,
)
    requires
        ascending(a),
        ascending(b),
        inherited(op, a, b, t, n),
        inherited(op, a, b, u, m),
        t.key() == u.key(),
    ensures
        t == u,
        n == m,
{
    crate::math::law_normal_reversed_twice(n);
    crate::math::law_normal_reversed_twice(m);
    if end_of(a, t, n) {
        lemma_end_has(a, t, n);
    }
    if end_of(a, u, m) {
        lemma_end_has(a, u, m);
    }
    if end_of(a, t, n) && end_of(a, u, m) {
        lemma_end_unique(a, t, n, u, m);
    } else if op == SetOp::Difference {
        lemma_end_unique(b, t, n.reversed(), u, m.reversed());
    } else {
        lemma_end_unique(b, t, n, u, m);
    }
}

/// A scan of two sets has one outcome, normals included; so every way of asking
/// for an operation gives the same set.
pub proof fn law_scan_is_determined(op: SetOp, a: Seq<Span>, b: Seq<Span>, s: Seq<Span>, t: Seq<Span>)
    requires
        ascending(a),
        ascending(b),
        scanned(op, a, b, s),
        scanned(op, a, b, t),
    ensures
        s == t,
{
    assert forall|k: int| #[trigger] covers(s, k) == covers(t, k) by {
        assert(covers(t, k) == combined(op, covers(a, k), covers(b, k)));
    }
    law_points_determine_bounds(s, t);
    assert forall|i: int| 0 <= i < s.len() implies s[i] == t[i] by {
        assert(s[i].t0.key() == t[i].t0.key());
        lemma_inherited_unique(op, a, b, s[i].t0, s[i].n0, t[i].t0, t[i].n0);
        lemma_inherited_unique(op, a, b, s[i].t1, s[i].n1, t[i].t1, t[i].n1);
    }
    assert(s =~= t);
}

/// An operation has one outcome.
pub proof fn law_operation_is_determined(op: SetOp, a: Seq<Span>, b: Seq<Span>, s: Seq<Span>, t: Seq<Span>)
    requires
        ascending(a),
        ascending(b),
        op_result(op, a, b, s),
        op_result(op, a, b, t),
    ensures
        s == t,
{
    let x = choose|raw: Seq<Span>| #[trigger] scanned(op, a, b, raw) && s == normalized(raw);
    let y = choose|raw: Seq<Span>| #[trigger] scanned(op, a, b, raw) && t == normalized(raw);
    law_scan_is_determined(op, a, b, x, y);
}

/// The result of an operation.
pub open spec fn outcome(op: SetOp, a: Seq<Span>, b: Seq<Span>) -> Seq<Span> {
    choose|out: Seq<Span>| op_result(op, a, b, out)
}

/// An operation has no result but its outcome.
pub proof fn law_outcome_is_the_result(op: SetOp, a: Seq<Span>, b: Seq<Span>, out: Seq<Span>)
    requires
        ascending(a),
        ascending(b),
        op_result(op, a, b, out),
    ensures
        out == outcome(op, a, b),
{
    law_operation_is_determined(op, a, b, out, outcome(op, a, b));
}

proof fn lemma_inherited_bound(op: SetOp, a: Seq<Span>, b: Seq<Span>, t: Double, n: crate::math::OctNormal)
    requires
        inherited(op, a, b, t, n),
    ensures
        bound_in(a, b, t),
{
    if end_of(a, t, n) {
        lemma_end_has(a, t, n);
    } else if op == SetOp::Difference {
        lemma_end_has(b, t, n.reversed());
    } else {
        lemma_end_has(b, t, n);
    }
}

/// Between separated bounds nothing is rounded away: the operation keeps exactly
/// the points it should, and what its scan finds is already normalized.
pub proof fn law_separated_operations_are_exact(op: SetOp, a: Seq<Span>, b: Seq<Span>, out: Seq<Span>)
    requires
        ascending(a),
        ascending(b),
        separated(a, b),
        op_result(op, a, b, out),
    ensures
        forall|k: int| #[trigger] covers(out, k) == combined(op, covers(a, k), covers(b, k)),
        scanned(op, a, b, out),
{
    let raw = choose|raw: Seq<Span>| #[trigger] scanned(op, a, b, raw) && out == normalized(raw);
    assert forall|i: int| 0 <= i < raw.len() implies (#[trigger] raw[i]).long() by {
        assert(raw[i].valid());
        lemma_inherited_bound(op, a, b, raw[i].t0, raw[i].n0);
        lemma_inherited_bound(op, a, b, raw[i].t1, raw[i].n1);
        law_difference_nan(raw[i].t1, raw[i].t0);
    }
    assert forall|i: int, j: int| 0 <= i && j == i + 1 && j < raw.len() implies !close(
        #[trigger] raw[i],
        #[trigger] raw[j],
    ) by {
        assert(raw[i].t1.key() < raw[j].t0.key());
        lemma_inherited_bound(op, a, b, raw[i].t1, raw[i].n1);
        lemma_inherited_bound(op, a, b, raw[j].t0, raw[j].n0);
    }
    law_normalizing_is_idempotent(raw);
}

proof fn lemma_bounds_inherited(op: SetOp, a: Seq<Span>, b: Seq<Span>, out: Seq<Span>, t: Double)
    requires
        scanned(op, a, b, out),
        bound_of(out, t),
    ensures
        bound_of(a, t) || bound_of(b, t),
{
    let i = choose|i: int| 0 <= i < out.len() && ((#[trigger] out[i]).t0 == t || out[i].t1 == t);
    if out[i].t0 == t {
        lemma_inherited_bound(op, a, b, t, out[i].n0);
    } else {
        lemma_inherited_bound(op, a, b, t, out[i].n1);
    }
}

proof fn lemma_separated_results(a: Seq<Span>, b: Seq<Span>, x: Seq<Span>, y: Seq<Span>)
    requires
        separated(a, b),
        forall|t: Double| #[trigger] bound_of(x, t) ==> bound_of(a, t) || bound_of(b, t),
        forall|t: Double| #[trigger] bound_of(y, t) ==> bound_of(a, t) || bound_of(b, t),
    ensures
        separated(x, y),
{
    assert forall|s: Double, t: Double|
        #[trigger] bound_in(x, y, s) && #[trigger] bound_in(x, y, t) && s.key() < t.key() implies !difference(
        t,
        s,
    ).le(Double { bits: EPS_SPAN_MERGE }) by {
        assert(bound_in(a, b, s));
        assert(bound_in(a, b, t));
    }
}

/// An end of the union of a cut and what it removed is one of the whole, where the
/// whole has an end.
proof fn lemma_end_of_whole(
    a: Seq<Span>,
    b: Seq<Span>,
    cut: Seq<Span>,
    removed: Seq<Span>,
    t: Double,
    n: crate::math::OctNormal,
    u: Double,
    m: crate::math::OctNormal,
)
    requires
        ascending(a),
        ascending(b),
        scanned(SetOp::Difference, a, b, cut),
        scanned(SetOp::Intersect, a, b, removed),
        inherited(SetOp::Union, cut, removed, t, n),
        end_of(a, u, m),
        t.key() == u.key(),
    ensures
        t == u,
        n == m,
{
    lemma_end_has(a, u, m);
    if end_of(cut, t, n) {
        assert(inherited(SetOp::Difference, a, b, t, n));
    } else {
        assert(end_of(removed, t, n));
        assert(inherited(SetOp::Intersect, a, b, t, n));
    }
    assert(end_of(a, t, n));
    lemma_inherited_unique(SetOp::Union, a, b, t, n, u, m);
}

/// A cut and what it removed make up the whole: `(a - b) u (a n b) = a`, normals
/// included.
pub proof fn law_cut_and_removed_make_the_whole(
    a: Seq<Span>,
    b: Seq<Span>,
    cut: Seq<Span>,
    removed: Seq<Span>,
    whole: Seq<Span>,
)
    requires
        normal_form(a),
        ascending(b),
        separated(a, b),
        op_result(SetOp::Difference, a, b, cut),
        op_result(SetOp::Intersect, a, b, removed),
        op_result(SetOp::Union, cut, removed, whole),
    ensures
        whole == a,
{
    law_separated_operations_are_exact(SetOp::Difference, a, b, cut);
    law_separated_operations_are_exact(SetOp::Intersect, a, b, removed);
    assert forall|t: Double| #[trigger] bound_of(cut, t) implies bound_of(a, t) || bound_of(b, t) by {
        lemma_bounds_inherited(SetOp::Difference, a, b, cut, t);
    }
    assert forall|t: Double| #[trigger] bound_of(removed, t) implies bound_of(a, t) || bound_of(b, t) by {
        lemma_bounds_inherited(SetOp::Intersect, a, b, removed, t);
    }
    lemma_separated_results(a, b, cut, removed);
    law_separated_operations_are_exact(SetOp::Union, cut, removed, whole);
    assert forall|k: int| #[trigger] covers(whole, k) == covers(a, k) by {
        assert(covers(cut, k) == (covers(a, k) && !covers(b, k)));
        assert(covers(removed, k) == (covers(a, k) && covers(b, k)));
    }
    law_points_determine_bounds(whole, a);
    assert forall|i: int| 0 <= i < whole.len() implies whole[i] == a[i] by {
        assert(whole[i].t0.key() == a[i].t0.key());
        assert(end_of(a, a[i].t0, a[i].n0));
        assert(end_of(a, a[i].t1, a[i].n1));
        lemma_end_of_whole(a, b, cut, removed, whole[i].t0, whole[i].n0, a[i].t0, a[i].n0);
        lemma_end_of_whole(a, b, cut, removed, whole[i].t1, whole[i].n1, a[i].t1, a[i].n1);
    }
    assert(whole =~= a);
}

/// A cut shares nothing with what was cut away: `(a - b) n b` is empty.
pub proof fn law_cut_is_disjoint(a: Seq<Span>, b: Seq<Span>, cut: Seq<Span>, shared: Seq<Span>)
    requires
        ascending(a),
        ascending(b),
        separated(a, b),
        op_result(SetOp::Difference, a, b, cut),
        op_result(SetOp::Intersect, cut, b, shared),
    ensures
        shared.len() == 0,
{
    law_separated_operations_are_exact(SetOp::Difference, a, b, cut);
    assert forall|t: Double| #[trigger] bound_of(cut, t) implies bound_of(a, t) || bound_of(b, t) by {
        lemma_bounds_inherited(SetOp::Difference, a, b, cut, t);
    }
    lemma_separated_results(a, b, cut, b);
    law_separated_operations_are_exact(SetOp::Intersect, cut, b, shared);
    if shared.len() > 0 {
        let k = shared[0].t0.key();
        assert(shared[0].valid());
        assert(shared[0].holds(k));
        assert(covers(shared, k));
        assert(covers(cut, k) == (covers(a, k) && !covers(b, k)));
        assert(false);
    }
}

/// Complementing twice within a window that holds the set gives the set back.
pub proof fn law_double_complement(a: Seq<Span>, window: Span, outside: Seq<Span>, back: Seq<Span>)
    requires
        normal_form(a),
        window.valid(),
        forall|k: int| #[trigger] covers(a, k) ==> window.holds(k),
        separated(seq![window], a),
        op_result(SetOp::Difference, seq![window], a, outside),
        op_result(SetOp::Difference, seq![window], outside, back),
    ensures
        same_bounds(back, a),
{
    let w = seq![window];
    law_separated_operations_are_exact(SetOp::Difference, w, a, outside);
    assert forall|t: Double| #[trigger] bound_of(outside, t) implies bound_of(w, t) || bound_of(a, t) by {
        lemma_bounds_inherited(SetOp::Difference, w, a, outside, t);
    }
    lemma_separated_results(w, a, w, outside);
    law_separated_operations_are_exact(SetOp::Difference, w, outside, back);
    assert forall|k: int| #[trigger] covers(back, k) == covers(a, k) by {
        assert(covers(w, k) == window.holds(k)) by {
            if window.holds(k) {
                assert(w[0].holds(k));
            }
        }
        assert(covers(outside, k) == (covers(w, k) && !covers(a, k)));
    }
    law_points_determine_bounds(back, a);
}

/// A normalized set united or intersected with itself is itself, bit for bit,
/// and cut by itself is empty.
pub proof fn law_operations_with_itself(a: Seq<Span>, u: Seq<Span>, i: Seq<Span>, d: Seq<Span>)
    requires
        normal_form(a),
        op_result(SetOp::Union, a, a, u),
        op_result(SetOp::Intersect, a, a, i),
        op_result(SetOp::Difference, a, a, d),
    ensures
        u == a,
        i == a,
        d.len() == 0,
{
    lemma_ends_inherited(SetOp::Union, a, a);
    lemma_ends_inherited(SetOp::Intersect, a, a);
    assert(scanned(SetOp::Union, a, a, a));
    assert(scanned(SetOp::Intersect, a, a, a));
    law_normalizing_is_idempotent(a);
    law_operation_is_determined(SetOp::Union, a, a, u, a);
    law_operation_is_determined(SetOp::Intersect, a, a, i, a);
    let e = Seq::<Span>::empty();
    assert(scanned(SetOp::Difference, a, a, e));
    law_normalizing_is_idempotent(e);
    law_operation_is_determined(SetOp::Difference, a, a, d, e);
}

/// Nothing is added by the empty set, and nothing taken away.
pub proof fn law_operations_with_nothing(a: Seq<Span>, u: Seq<Span>, i: Seq<Span>, d: Seq<Span>)
    requires
        normal_form(a),
        op_result(SetOp::Union, a, Seq::empty(), u),
        op_result(SetOp::Intersect, a, Seq::empty(), i),
        op_result(SetOp::Difference, a, Seq::empty(), d),
    ensures
        u == a,
        i.len() == 0,
        d == a,
{
    let e = Seq::<Span>::empty();
    assert(normal_form(e));
    lemma_ends_inherited(SetOp::Union, a, e);
    lemma_ends_inherited(SetOp::Difference, a, e);
    assert(scanned(SetOp::Union, a, e, a));
    assert(scanned(SetOp::Difference, a, e, a));
    assert(scanned(SetOp::Intersect, a, e, e));
    law_normalizing_is_idempotent(a);
    law_normalizing_is_idempotent(e);
    law_operation_is_determined(SetOp::Union, a, e, u, a);
    law_operation_is_determined(SetOp::Difference, a, e, d, a);
    law_operation_is_determined(SetOp::Intersect, a, e, i, e);
}

proof fn lemma_ends_inherited(op: SetOp, a: Seq<Span>, b: Seq<Span>)
    ensures
        forall|i: int|
            0 <= i < a.len() ==> inherited(op, a, b, (#[trigger] a[i]).t0, a[i].n0) && inherited(op, a, b, a[i].t1, a[i].n1),
{
    assert forall|i: int| 0 <= i < a.len() implies inherited(op, a, b, (#[trigger] a[i]).t0, a[i].n0) && inherited(
        op,
        a,
        b,
        a[i].t1,
        a[i].n1,
    ) by {
        assert(end_of(a, a[i].t0, a[i].n0));
        assert(end_of(a, a[i].t1, a[i].n1));
    }
}

/// Numbers at the same place in the order have differences at the same place.
proof fn lemma_difference_key(x: Double, y: Double, v: Double, w: Double)
    requires
        x.same(v),
        y.same(w),
    ensures
        difference(x, y).key() == difference(v, w).key(),
        difference(x, y).nan() == difference(v, w).nan(),
{
    law_difference_nan(x, y);
    law_difference_nan(v, w);
    assert(y.negated().abs_bits() == y.abs_bits());
    assert(w.negated().abs_bits() == w.abs_bits());
    if x.finite() && y.finite() {
        law_order_is_value_order(x, v);
        law_order_is_value_order(y, w);
        assert(y.negated().value() == -y.value());
        assert(w.negated().value() == -w.value());
        law_rounding_keeps_order(x.value() - y.value(), x.value() - y.value());
    }
}

proof fn lemma_fused_tail(x: Span, s: Seq<Span>, y: Span, t: Seq<Span>)
    requires
        x.valid(),
        y.valid(),
        x.t0.key() == y.t0.key(),
        x.t1.key() == y.t1.key(),
        same_bounds(s, t),
        forall|i: int| 0 <= i < s.len() ==> (#[trigger] s[i]).valid(),
        forall|i: int| 0 <= i < t.len() ==> (#[trigger] t[i]).valid(),
    ensures
        same_bounds(fused(x, s), fused(y, t)),
    decreases s.len(),
{
    lemma_difference_key(x.t1, x.t0, y.t1, y.t0);
    assert(same_bounds(kept(x), kept(y)));
    if s.len() > 0 {
        assert(s[0].valid() && t[0].valid());
        assert(s[0].t0.key() == t[0].t0.key());
        lemma_difference_key(s[0].t0, x.t1, t[0].t0, y.t1);
        let p = s.drop_first();
        let q = t.drop_first();
        assert forall|i: int| 0 <= i < p.len() implies (#[trigger] p[i]).t0.key() == q[i].t0.key() && p[i].t1.key()
            == q[i].t1.key() by {
            assert(s[i + 1].t0.key() == t[i + 1].t0.key());
        }
        assert forall|i: int| 0 <= i < q.len() implies (#[trigger] q[i]).valid() by {
            assert(t[i + 1].valid());
        }
        if close(x, s[0]) {
            lemma_fused_tail(absorbed(x, s[0]), p, absorbed(y, t[0]), q);
        } else {
            lemma_fused_tail(s[0], p, t[0], q);
            let f = fused(s[0], p);
            let g = fused(t[0], q);
            assert forall|i: int| 0 <= i < (kept(x) + f).len() implies (#[trigger] (kept(x) + f)[i]).t0.key() == (kept(y)
                + g)[i].t0.key() && (kept(x) + f)[i].t1.key() == (kept(y) + g)[i].t1.key() by {
                if i < kept(x).len() {
                    assert(kept(x)[i].t0.key() == kept(y)[i].t0.key());
                } else {
                    assert(f[i - kept(x).len()].t0.key() == g[i - kept(x).len()].t0.key());
                }
            }
        }
    }
}

/// Normalizing ascending spans depends on their bounds alone.
proof fn lemma_normalized_bounds(s: Seq<Span>, t: Seq<Span>)
    requires
        ascending(s),
        ascending(t),
        same_bounds(s, t),
    ensures
        same_bounds(normalized(s), normalized(t)),
{
    lemma_arranged_ascending(s);
    lemma_arranged_ascending(t);
    if s.len() > 0 {
        assert(s[0].t0.key() == t[0].t0.key());
        let p = s.drop_first();
        let q = t.drop_first();
        assert forall|i: int| 0 <= i < p.len() implies (#[trigger] p[i]).t0.key() == q[i].t0.key() && p[i].t1.key()
            == q[i].t1.key() by {
            assert(s[i + 1].t0.key() == t[i + 1].t0.key());
        }
        assert forall|i: int| 0 <= i < q.len() implies (#[trigger] q[i]).valid() by {
            assert(t[i + 1].valid());
        }
        lemma_fused_tail(s[0], p, t[0], q);
    }
}

/// The bounds of a result depend on the points of its operands alone, never on
/// the normals they carry.
pub proof fn law_normals_do_not_shape_results(
    op: SetOp,
    a: Seq<Span>,
    b: Seq<Span>,
    c: Seq<Span>,
    d: Seq<Span>,
    x: Seq<Span>,
    y: Seq<Span>,
)
    requires
        ascending(a),
        ascending(b),
        ascending(c),
        ascending(d),
        same_points(a, c),
        same_points(b, d),
        op_result(op, a, b, x),
        op_result(op, c, d, y),
    ensures
        same_bounds(x, y),
{
    let p = choose|raw: Seq<Span>| #[trigger] scanned(op, a, b, raw) && x == normalized(raw);
    let q = choose|raw: Seq<Span>| #[trigger] scanned(op, c, d, raw) && y == normalized(raw);
    assert forall|k: int| #[trigger] covers(p, k) == covers(q, k) by {
        assert(covers(a, k) == covers(c, k));
        assert(covers(b, k) == covers(d, k));
        assert(covers(q, k) == combined(op, covers(c, k), covers(d, k)));
    }
    law_points_determine_bounds(p, q);
    lemma_normalized_bounds(p, q);
}

/// Union and intersection commute, as far as bounds go.
pub proof fn law_operations_commute(op: SetOp, a: Seq<Span>, b: Seq<Span>, x: Seq<Span>, y: Seq<Span>)
    requires
        op != SetOp::Difference,
        ascending(a),
        ascending(b),
        op_result(op, a, b, x),
        op_result(op, b, a, y),
    ensures
        same_bounds(x, y),
{
    let p = choose|raw: Seq<Span>| #[trigger] scanned(op, a, b, raw) && x == normalized(raw);
    let q = choose|raw: Seq<Span>| #[trigger] scanned(op, b, a, raw) && y == normalized(raw);
    assert forall|k: int| #[trigger] covers(p, k) == covers(q, k) by {
        assert(covers(q, k) == combined(op, covers(b, k), covers(a, k)));
    }
    law_points_determine_bounds(p, q);
    lemma_normalized_bounds(p, q);
}

} // verus!
