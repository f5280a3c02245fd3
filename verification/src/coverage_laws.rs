//! That putting spans together keeps every point of them, and adds none but those of
//! gaps too narrow to keep.

use crate::double::Double;
use crate::order::{law_difference_keeps_order, law_difference_keeps_order_first, law_difference_nan};
use crate::spans::{
    absorbed, arranged, close, covers, earlier, fused, inserted, kept, lemma_apart, lemma_arranged, lemma_inserted,
    lemma_merged, merged, normalized, pushed, pushed_all, ranked, structured, Span, EPS_SPAN_MERGE,
};
use vstd::prelude::*;

verus! {

/// A position lies in a gap between two spans that is too narrow to keep.
pub open spec fn in_gap(v: Seq<Span>, k: int) -> bool {
    exists|i: int, j: int|
        #![trigger v[i], v[j]]
        0 <= i < v.len() && 0 <= j < v.len() && v[i].valid() && v[j].valid() && v[i].t1.key() <= k < v[j].t0.key()
            && crate::arithmetic::difference(v[j].t0, v[i].t1).le(Double { bits: EPS_SPAN_MERGE })
}

/// One span lies in another.
spec fn within(y: Span, x: Span) -> bool {
    x.t0.key() <= y.t0.key() && y.t1.key() <= x.t1.key()
}

proof fn lemma_wider_is_long(x: Span, y: Span)
    requires
        x.valid(),
        y.valid(),
        y.long(),
        within(y, x),
    ensures
        x.long(),
{
    law_difference_nan(y.t1, y.t0);
    law_difference_nan(x.t1, y.t0);
    law_difference_nan(x.t1, x.t0);
    law_difference_keeps_order_first(y.t1, x.t1, y.t0);
    law_difference_keeps_order(x.t1, x.t0, y.t0);
}

proof fn lemma_inserted_holds(v: Seq<Span>, x: Span, y: Span)
    ensures
        v.contains(y) || y == x ==> inserted(v, x).contains(y),
    decreases v.len(),
{
    if v.len() == 0 || !earlier(x, v.last()) {
        let r = v.push(x);
        if v.contains(y) {
            let i = choose|i: int| 0 <= i < v.len() && v[i] == y;
            assert(r[i] == y);
        }
        assert(r[v.len() as int] == x);
    } else {
        let w = v.drop_last();
        lemma_inserted_holds(w, x, y);
        let q = inserted(w, x);
        let r = q.push(v.last());
        assert(r[q.len() as int] == v.last());
        if v.contains(y) && y != v.last() {
            let i = choose|i: int| 0 <= i < v.len() && v[i] == y;
            assert(w[i] == y);
        }
        if q.contains(y) {
            let i = choose|i: int| 0 <= i < q.len() && q[i] == y;
            assert(r[i] == y);
        }
    }
}

proof fn lemma_arranged_holds(v: Seq<Span>, y: Span)
    ensures
        arranged(v).contains(y) <==> v.contains(y) && y.valid(),
    decreases v.len(),
{
    if v.len() > 0 {
        let w = v.drop_last();
        lemma_arranged_holds(w, y);
        lemma_arranged(w);
        assert(v.contains(y) <==> w.contains(y) || y == v.last()) by {
            if v.contains(y) && y != v.last() {
                let i = choose|i: int| 0 <= i < v.len() && v[i] == y;
                assert(w[i] == y);
            }
            if w.contains(y) {
                let i = choose|i: int| 0 <= i < w.len() && w[i] == y;
                assert(v[i] == y);
            }
            assert(v[v.len() - 1] == v.last());
        }
        if v.last().valid() {
            lemma_inserted(arranged(w), v.last());
            lemma_inserted_holds(arranged(w), v.last(), y);
        }
    }
}

/// The spans behind the first are ranked, and start no earlier than it.
proof fn lemma_tail(rest: Seq<Span>)
    requires
        ranked(rest),
        rest.len() > 0,
    ensures
        ranked(rest.drop_first()),
        rest[0].valid(),
        forall|i: int|
            0 <= i < rest.drop_first().len() ==> rest[0].t0.key() <= (#[trigger] rest.drop_first()[i]).t0.key(),
{
    let tail = rest.drop_first();
    assert forall|i: int| 0 <= i < tail.len() implies rest[0].t0.key() <= (#[trigger] tail[i]).t0.key() by {
        assert(!earlier(rest[i + 1], rest[0]));
        assert(rest[i + 1].valid());
    }
}

proof fn lemma_covers_in(a: Seq<Span>, b: Seq<Span>, k: int)
    ensures
        covers(a, k) || covers(b, k) ==> covers(a + b, k),
        covers(a + b, k) ==> covers(a, k) || covers(b, k),
{
    let s = a + b;
    if covers(a, k) {
        let i = choose|i: int| 0 <= i < a.len() && (#[trigger] a[i]).holds(k);
        assert(s[i].holds(k));
    } else if covers(b, k) {
        let i = choose|i: int| 0 <= i < b.len() && (#[trigger] b[i]).holds(k);
        assert(s[a.len() + i].holds(k));
    }
    if covers(s, k) {
        let i = choose|i: int| 0 <= i < s.len() && (#[trigger] s[i]).holds(k);
        if i < a.len() {
            assert(a[i].holds(k));
        } else {
            assert(b[i - a.len()].holds(k));
        }
    }
}

proof fn lemma_fusing_keeps(x: Span, rest: Seq<Span>, y: Span, k: int)
    requires
        x.valid(),
        ranked(rest),
        forall|i: int| 0 <= i < rest.len() ==> x.t0.key() <= (#[trigger] rest[i]).t0.key(),
        y.valid(),
        within(y, x) || rest.contains(y),
        y.holds(k),
    ensures
        y.long() ==> covers(fused(x, rest), k),
        covers(merged(x, rest), k),
    decreases rest.len(),
{
    if rest.len() == 0 {
        if y.long() {
            lemma_wider_is_long(x, y);
            assert(kept(x)[0].holds(k));
        }
        assert(seq![x][0].holds(k));
    } else {
        let first = rest[0];
        let tail = rest.drop_first();
        lemma_tail(rest);
        if rest.contains(y) && y != first {
            let i = choose|i: int| 0 <= i < rest.len() && rest[i] == y;
            assert(tail[i - 1] == y);
        }
        if close(x, first) {
            let a = absorbed(x, first);
            assert(within(y, x) ==> within(y, a));
            assert(within(first, a));
            assert forall|i: int| 0 <= i < tail.len() implies a.t0.key() <= (#[trigger] tail[i]).t0.key() by {
                assert(tail[i] == rest[i + 1]);
            }
            lemma_fusing_keeps(a, tail, y, k);
        } else {
            lemma_covers_in(kept(x), fused(first, tail), k);
            lemma_covers_in(seq![x], merged(first, tail), k);
            if within(y, x) {
                if y.long() {
                    lemma_wider_is_long(x, y);
                    assert(kept(x)[0].holds(k));
                }
                assert(seq![x][0].holds(k));
            } else {
                assert(within(first, first));
                lemma_fusing_keeps(first, tail, y, k);
            }
        }
    }
}

/// A position is in one of some spans, or in a gap between them.
spec fn accounted(v: Seq<Span>, k: int) -> bool {
    covers(v, k) || in_gap(v, k)
}

proof fn lemma_fusing_adds(v: Seq<Span>, x: Span, rest: Seq<Span>, k: int)
    requires
        x.valid(),
        ranked(rest),
        exists|i: int| 0 <= i < v.len() && (#[trigger] v[i]).valid() && v[i].t1 == x.t1,
        forall|y: Span| #[trigger] rest.contains(y) ==> v.contains(y),
        covers(fused(x, rest), k) || covers(merged(x, rest), k),
    ensures
        x.holds(k) || accounted(v, k),
    decreases rest.len(),
{
    if rest.len() == 0 {
        if covers(kept(x), k) {
            assert(kept(x)[0] == x);
        }
        if covers(seq![x], k) {
            assert(seq![x][0] == x);
        }
    } else {
        let first = rest[0];
        let tail = rest.drop_first();
        lemma_tail(rest);
        assert(rest.contains(first));
        let f = choose|f: int| 0 <= f < v.len() && v[f] == first;
        assert forall|y: Span| #[trigger] tail.contains(y) implies v.contains(y) by {
            let i = choose|i: int| 0 <= i < tail.len() && tail[i] == y;
            assert(rest[i + 1] == y);
            assert(rest.contains(y));
        }
        if close(x, first) {
            let a = absorbed(x, first);
            lemma_fusing_adds(v, a, tail, k);
            if a.holds(k) && !x.holds(k) {
                let e = choose|e: int| 0 <= e < v.len() && (#[trigger] v[e]).valid() && v[e].t1 == x.t1;
                if first.holds(k) {
                    assert(v[f].holds(k));
                } else {
                    assert(v[e].t1.key() <= k < v[f].t0.key());
                }
            }
        } else {
            lemma_covers_in(kept(x), fused(first, tail), k);
            lemma_covers_in(seq![x], merged(first, tail), k);
            if covers(kept(x), k) || covers(seq![x], k) {
                assert(x.holds(k));
            } else {
                lemma_fusing_adds(v, first, tail, k);
                if first.holds(k) {
                    assert(v[f].holds(k));
                }
            }
        }
    }
}

/// Normalizing keeps the points of every span that is long enough on its own.
pub proof fn law_normalizing_keeps_points(v: Seq<Span>, i: int, k: int)
    requires
        0 <= i < v.len(),
        v[i].valid(),
        v[i].long(),
        v[i].holds(k),
    ensures
        covers(normalized(v), k),
{
    let s = arranged(v);
    assert(v.contains(v[i]));
    lemma_arranged_holds(v, v[i]);
    lemma_arranged(v);
    let j = choose|j: int| 0 <= j < s.len() && s[j] == v[i];
    lemma_tail(s);
    if j > 0 {
        assert(s.drop_first()[j - 1] == v[i]);
    }
    lemma_fusing_keeps(s[0], s.drop_first(), v[i], k);
}

/// Normalizing adds no points but those of gaps too narrow to keep.
pub proof fn law_normalizing_adds_only_gaps(v: Seq<Span>, k: int)
    requires
        covers(normalized(v), k),
    ensures
        covers(v, k) || in_gap(v, k),
{
    let s = arranged(v);
    lemma_arranged(v);
    if s.len() > 0 {
        lemma_tail(s);
        assert forall|y: Span| #[trigger] s.drop_first().contains(y) implies v.contains(y) by {
            let i = choose|i: int| 0 <= i < s.drop_first().len() && s.drop_first()[i] == y;
            assert(s[i + 1] == y);
            assert(s.contains(y));
            lemma_arranged_holds(v, y);
        }
        assert(s.contains(s[0]));
        lemma_arranged_holds(v, s[0]);
        let f = choose|f: int| 0 <= f < v.len() && v[f] == s[0];
        assert(v[f].valid() && v[f].t1 == s[0].t1);
        lemma_fusing_adds(v, s[0], s.drop_first(), k);
        if s[0].holds(k) {
            assert(v[f].holds(k));
        }
    }
}

proof fn lemma_structured_is_ranked(v: Seq<Span>)
    requires
        structured(v),
    ensures
        ranked(v),
{
    assert forall|i: int, j: int| 0 <= i < j < v.len() implies !earlier(#[trigger] v[j], #[trigger] v[i]) by {
        assert(v[i].valid() && v[j].valid());
        assert(v[i].t1.key() < v[j].t0.key());
    }
}

/// Adding a span keeps the points there were and those of the span, and what comes out
/// keeps its structure.
pub proof fn law_pushing_keeps_points(v: Seq<Span>, span: Span, k: int)
    requires
        structured(v),
    ensures
        structured(pushed(v, span)),
        covers(v, k) ==> covers(pushed(v, span), k),
        span.valid() && span.holds(k) ==> covers(pushed(v, span), k),
{
    let r = pushed(v, span);
    if span.valid() {
        if v.len() == 0 {
            assert(r[0] == span);
        } else {
            let n = v.len() - 1;
            let last = v[n];
            assert(last.valid());
            lemma_apart(last, span);
            if !last.t0.le(span.t0) {
                lemma_structured_is_ranked(v);
                lemma_inserted(v, span);
                let s = inserted(v, span);
                lemma_tail(s);
                lemma_merged(s[0], s.drop_first());
                if covers(v, k) {
                    let i = choose|i: int| 0 <= i < v.len() && (#[trigger] v[i]).holds(k);
                    lemma_inserted_holds(v, span, v[i]);
                    assert(v.contains(v[i]));
                    lemma_slot_keeps(s, v[i], k);
                }
                if span.holds(k) {
                    lemma_inserted_holds(v, span, span);
                    lemma_slot_keeps(s, span, k);
                }
            } else {
                if covers(v, k) {
                    let i = choose|i: int| 0 <= i < v.len() && (#[trigger] v[i]).holds(k);
                    assert(r[i].holds(k));
                }
                if close(last, span) {
                    assert(r[n] == absorbed(last, span));
                    if span.holds(k) {
                        assert(r[n].holds(k));
                    }
                    assert forall|i: int, j: int| 0 <= i < j < r.len() implies (#[trigger] r[i]).t1.key() < (
                    #[trigger] r[j]).t0.key() by {
                        assert(v[i].t1.key() < v[j].t0.key());
                    }
                    assert forall|i: int, j: int| 0 <= i && j == i + 1 && j < r.len() implies !close(
                        #[trigger] r[i],
                        #[trigger] r[j],
                    ) by {
                        assert(!close(v[i], v[j]));
                    }
                } else {
                    assert(r[n + 1] == span);
                    assert forall|i: int, j: int| 0 <= i < j < r.len() implies (#[trigger] r[i]).t1.key() < (
                    #[trigger] r[j]).t0.key() by {
                        if j == v.len() && i < n {
                            assert(v[i].t1.key() < v[n].t0.key());
                        }
                    }
                }
            }
        }
    }
}

proof fn lemma_slot_keeps(s: Seq<Span>, y: Span, k: int)
    requires
        ranked(s),
        s.contains(y),
        y.holds(k),
    ensures
        covers(merged(s[0], s.drop_first()), k),
{
    lemma_tail(s);
    let j = choose|j: int| 0 <= j < s.len() && s[j] == y;
    if j > 0 {
        assert(s.drop_first()[j - 1] == y);
    }
    lemma_fusing_keeps(s[0], s.drop_first(), y, k);
}

/// Adding spans one after the other keeps the points of each.
pub proof fn law_pushing_all_keeps_points(v: Seq<Span>, more: Seq<Span>, n: nat, k: int)
    requires
        structured(v),
        n <= more.len(),
    ensures
        structured(pushed_all(v, more, n)),
        covers(v, k) ==> covers(pushed_all(v, more, n), k),
        forall|i: int| 0 <= i < n && (#[trigger] more[i]).valid() && more[i].holds(k) ==> covers(pushed_all(v, more, n), k),
    decreases n,
{
    if n > 0 {
        law_pushing_all_keeps_points(v, more, (n - 1) as nat, k);
        law_pushing_keeps_points(pushed_all(v, more, (n - 1) as nat), more[n - 1], k);
    }
}

} // verus!
