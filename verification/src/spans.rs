//! Sorted, disjoint, normalized sets of half-open intervals on a line.
//!
//! Every span is `[t0, t1)`: `t0` is inside, `t1` is not, so abutting spans
//! tile the line without a shared endpoint.
//!
//! A [`Spans`] is structurally valid: its spans have positive length, ascend,
//! and consecutive ones are separated by a gap greater than [`EPS_SPAN_MERGE`].
//! A normalized one has no span shorter than [`EPS_SPAN_MIN`] either.
//! Normalizing merges first and drops afterwards; dropping first would leave
//! gaps that a second pass could close.

use crate::arithmetic::{difference, quotient, sum};
use crate::double::Double;
use crate::math::OctNormal;
use crate::order::{law_difference_keeps_order_first, law_difference_nan, law_difference_sign};
use crate::text::{decimal_text, push_number};
use vstd::prelude::*;

verus! {

/// Bit pattern of the widest gap that is closed: one nanometre, in millimetres.
pub const EPS_SPAN_MERGE: u64 = 0x3e11_2e0b_e826_d695;

/// Bit pattern of the shortest span that is kept: one nanometre, in millimetres.
pub const EPS_SPAN_MIN: u64 = 0x3e11_2e0b_e826_d695;

/// A half-open interval `[t0, t1)`, with the surface normal at each end.
#[derive(Clone, Copy, Debug, PartialEq, Eq, Hash, Structural)]
pub struct Span {
    /// Inclusive lower bound.
    pub t0: Double,
    /// Exclusive upper bound.
    pub t1: Double,
    /// Outward surface normal at `t0`.
    pub n0: OctNormal,
    /// Outward surface normal at `t1`.
    pub n1: OctNormal,
}

impl Span {
    /// Positive length, and neither bound a NaN.
    pub open spec fn valid(self) -> bool {
        self.t0.lt(self.t1)
    }

    /// The number at position `k` of the order lies in the interval.
    pub open spec fn holds(self, k: int) -> bool {
        self.t0.key() <= k < self.t1.key()
    }

    /// Long enough to survive normalization.
    pub open spec fn long(self) -> bool {
        (Double { bits: EPS_SPAN_MIN }).le(difference(self.t1, self.t0))
    }

    /// A span with no recorded normals. Does not reorder its bounds.
    pub fn new(t0: Double, t1: Double) -> (s: Span)
        ensures
            s == (Span { t0, t1, n0: OctNormal::unknown(), n1: OctNormal::unknown() }),
    {
        Span { t0, t1, n0: OctNormal::placeholder(), n1: OctNormal::placeholder() }
    }

    /// A span carrying the outward normal at each end.
    pub fn with_normals(t0: Double, t1: Double, n0: OctNormal, n1: OctNormal) -> (s: Span)
        ensures
            s == (Span { t0, t1, n0, n1 }),
    {
        Span { t0, t1, n0, n1 }
    }

    /// The same interval with no recorded normals.
    pub fn without_normals(self) -> (s: Span)
        ensures
            s == (Span { n0: OctNormal::unknown(), n1: OctNormal::unknown(), ..self }),
    {
        Span::new(self.t0, self.t1)
    }

    /// A span from two bounds in either order.
    pub fn ordered(a: Double, b: Double) -> (s: Span)
        ensures
            s.n0 == OctNormal::unknown(),
            s.n1 == OctNormal::unknown(),
            a.le(b) ==> s.t0 == a && s.t1 == b,
            !a.le(b) ==> s.t0 == b && s.t1 == a,
    {
        if a.at_most(b) {
            Span::new(a, b)
        } else {
            Span::new(b, a)
        }
    }

    /// `t1 - t0`, which is negative for an inverted span.
    pub fn length(self) -> (d: Double)
        ensures
            d == difference(self.t1, self.t0),
    {
        self.t1.minus(self.t0)
    }

    /// True if the span has positive length and neither bound is a NaN.
    pub fn is_valid(self) -> (r: bool)
        ensures
            r == self.valid(),
    {
        self.t0.less(self.t1)
    }

    /// True if `t` lies in `[t0, t1)`.
    pub fn contains(self, t: Double) -> (r: bool)
        ensures
            r == (self.t0.le(t) && t.lt(self.t1)),
    {
        self.t0.at_most(t) && t.less(self.t1)
    }

    /// The midpoint, as `t0 / 2 + t1 / 2`, so that it cannot overflow.
    pub fn midpoint(self) -> (m: Double)
        ensures
            m == sum(
                quotient(self.t0, Double { bits: 0x4000_0000_0000_0000 }),
                quotient(self.t1, Double { bits: 0x4000_0000_0000_0000 }),
            ),
    {
        let two: Double = Double::from_bits(0x4000_0000_0000_0000);
        self.t0.over(two).plus(self.t1.over(two))
    }

    /// Both bounds shifted by `d`.
    pub fn translated(self, d: Double) -> (s: Span)
        ensures
            s == (Span { t0: sum(self.t0, d), t1: sum(self.t1, d), ..self }),
    {
        Span { t0: self.t0.plus(d), t1: self.t1.plus(d), n0: self.n0, n1: self.n1 }
    }

    /// Long enough to survive normalization.
    fn is_long(self) -> (r: bool)
        ensures
            r == self.long(),
    {
        Double::from_bits(EPS_SPAN_MIN).at_most(self.length())
    }
}

/// A boolean combination of two sets.
#[derive(Clone, Copy, Debug, PartialEq, Eq, Structural)]
pub enum SetOp {
    /// In either.
    Union,
    /// In both.
    Intersect,
    /// In the first and not in the second.
    Difference,
}

/// What an operation keeps of a point, by its membership of the operands.
pub open spec fn combined(op: SetOp, in_a: bool, in_b: bool) -> bool {
    match op {
        SetOp::Union => in_a || in_b,
        SetOp::Intersect => in_a && in_b,
        SetOp::Difference => in_a && !in_b,
    }
}

fn combine(op: SetOp, in_a: bool, in_b: bool) -> (r: bool)
    ensures
        r == combined(op, in_a, in_b),
{
    match op {
        SetOp::Union => in_a || in_b,
        SetOp::Intersect => in_a && in_b,
        SetOp::Difference => in_a && !in_b,
    }
}

/// The number at position `k` of the order lies in one of the spans.
pub open spec fn covers(s: Seq<Span>, k: int) -> bool {
    exists|i: int| 0 <= i < s.len() && (#[trigger] s[i]).holds(k)
}

/// Every span is valid and ends before the next begins.
pub open spec fn ascending(s: Seq<Span>) -> bool {
    &&& forall|i: int| 0 <= i < s.len() ==> (#[trigger] s[i]).valid()
    &&& forall|i: int, j: int| 0 <= i < j < s.len() ==> (#[trigger] s[i]).t1.key() < (#[trigger] s[j]).t0.key()
}

/// The gap from the end of `x` to the start of `y` is too narrow to keep.
pub open spec fn close(x: Span, y: Span) -> bool {
    difference(y.t0, x.t1).le(Double { bits: EPS_SPAN_MERGE })
}

/// The structural invariant: spans are valid, ascend, and consecutive ones are
/// separated by more than the merge threshold.
pub open spec fn structured(s: Seq<Span>) -> bool {
    &&& ascending(s)
    &&& forall|i: int, j: int| 0 <= i && j == i + 1 && j < s.len() ==> !close(#[trigger] s[i], #[trigger] s[j])
}

/// Structurally valid, and no span below the drop threshold.
pub open spec fn normal_form(s: Seq<Span>) -> bool {
    &&& structured(s)
    &&& forall|i: int| 0 <= i < s.len() ==> (#[trigger] s[i]).long()
}

/// `t`, with the normal `n`, is an end of one of the spans.
pub open spec fn end_of(s: Seq<Span>, t: Double, n: OctNormal) -> bool {
    exists|i: int|
        0 <= i < s.len() && (((#[trigger] s[i]).t0 == t && s[i].n0 == n) || (s[i].t1 == t && s[i].n1 == n))
}

/// Some span has an end at position `k` of the order.
pub open spec fn has_end(s: Seq<Span>, k: int) -> bool {
    exists|i: int| 0 <= i < s.len() && ((#[trigger] s[i]).t0.key() == k || s[i].t1.key() == k)
}

/// Where an end of the result comes from, and with which normal: from `a` where
/// `a` has an end there, and else from `b`, reversed by a difference.
pub open spec fn inherited(op: SetOp, a: Seq<Span>, b: Seq<Span>, t: Double, n: OctNormal) -> bool {
    ||| end_of(a, t, n)
    ||| !has_end(a, t.key()) && end_of(
        b,
        t,
        if op == SetOp::Difference {
            n.reversed()
        } else {
            n
        },
    )
}

/// What a merge scan of `a` and `b` produces: the maximal runs of the points
/// that the operation keeps, each end inherited from an operand.
pub open spec fn scanned(op: SetOp, a: Seq<Span>, b: Seq<Span>, out: Seq<Span>) -> bool {
    &&& ascending(out)
    &&& forall|k: int| #[trigger] covers(out, k) == combined(op, covers(a, k), covers(b, k))
    &&& forall|i: int|
        0 <= i < out.len() ==> inherited(op, a, b, (#[trigger] out[i]).t0, out[i].n0) && inherited(
            op,
            a,
            b,
            out[i].t1,
            out[i].n1,
        )
}

/// Where a scan stands in one stream: everything up to `at` has been passed,
/// and the stream is inside its span `i`, or before it.
spec fn standing(s: Seq<Span>, i: int, inside: bool, at: int) -> bool {
    &&& 0 <= i <= s.len()
    &&& i > 0 ==> s[i - 1].t1.key() <= at
    &&& inside ==> i < s.len() && s[i].holds(at)
    &&& !inside && i < s.len() ==> at < s[i].t0.key()
}

/// The next endpoint that a stream presents.
spec fn upcoming(s: Seq<Span>, i: int, inside: bool) -> Double {
    if inside {
        s[i].t1
    } else {
        s[i].t0
    }
}

proof fn lemma_standing_covers(s: Seq<Span>, i: int, inside: bool, at: int, k: int)
    requires
        ascending(s),
        standing(s, i, inside, at),
        at <= k,
        i < s.len() ==> k < upcoming(s, i, inside).key(),
    ensures
        covers(s, k) == inside,
        at < k ==> !has_end(s, k),
{
    if inside {
        assert(s[i].holds(k));
    }
    if covers(s, k) && !inside {
        let j = choose|j: int| 0 <= j < s.len() && (#[trigger] s[j]).holds(k);
        if j < i {
            if j < i - 1 {
                assert(s[j].t1.key() < s[i - 1].t0.key());
                assert(s[i - 1].valid());
            }
        } else if j > i {
            assert(s[i].t1.key() < s[j].t0.key());
            assert(s[i].valid());
        }
        assert(false);
    }
    if at < k && has_end(s, k) {
        let j = choose|j: int| 0 <= j < s.len() && ((#[trigger] s[j]).t0.key() == k || s[j].t1.key() == k);
        assert(s[j].valid());
        if j < i {
            if j < i - 1 {
                assert(s[j].t1.key() < s[i - 1].t0.key());
                assert(s[i - 1].valid());
            }
        } else if j > i {
            assert(s[i].t1.key() < s[j].t0.key());
            assert(s[i].valid());
        }
        assert(false);
    }
}

proof fn lemma_covers_push(s: Seq<Span>, x: Span, k: int)
    ensures
        covers(s.push(x), k) == (covers(s, k) || x.holds(k)),
{
    let t = s.push(x);
    if covers(s, k) {
        let i = choose|i: int| 0 <= i < s.len() && (#[trigger] s[i]).holds(k);
        assert(t[i].holds(k));
    }
    if x.holds(k) {
        assert(t[s.len() as int].holds(k));
    }
    if covers(t, k) {
        let i = choose|i: int| 0 <= i < t.len() && (#[trigger] t[i]).holds(k);
        if i < s.len() {
            assert(s[i].holds(k));
        }
    }
}

/// Up to `at`, the spans emitted and the one standing open since `from` are what
/// the operation keeps.
spec fn followed(op: SetOp, a: Seq<Span>, b: Seq<Span>, out: Seq<Span>, open: bool, from: int, at: int) -> bool {
    forall|k: int|
        k <= at ==> (#[trigger] covers(out, k) || (open && from <= k)) == combined(op, covers(a, k), covers(b, k))
}

proof fn lemma_followed_at(
    op: SetOp,
    a: Seq<Span>,
    b: Seq<Span>,
    out: Seq<Span>,
    open: bool,
    from: int,
    at: int,
    k: int,
)
    requires
        followed(op, a, b, out, open, from, at),
        k <= at,
    ensures
        (covers(out, k) || (open && from <= k)) == combined(op, covers(a, k), covers(b, k)),
{
    let c = covers(out, k);
}

/// One step of a scan, from the endpoint `was` to the next one `at`.
proof fn lemma_follow(
    op: SetOp,
    a: Seq<Span>,
    b: Seq<Span>,
    out: Seq<Span>,
    open: bool,
    from: int,
    was: int,
    at: int,
    wa: bool,
    wb: bool,
    x: Span,
)
    requires
        was < at,
        followed(op, a, b, out, open, from, was),
        forall|i: int| 0 <= i < out.len() ==> (#[trigger] out[i]).t1.key() <= was,
        open == combined(op, wa, wb),
        open ==> from <= was,
        forall|k: int| was <= k < at ==> #[trigger] covers(a, k) == wa && covers(b, k) == wb,
        x.t0.key() == from,
        x.t1.key() == at,
    ensures
        ({
            let inside = combined(op, covers(a, at), covers(b, at));
            if inside && !open {
                followed(op, a, b, out, true, at, at)
            } else if !inside && open {
                followed(op, a, b, out.push(x), false, from, at)
            } else {
                followed(op, a, b, out, open, from, at)
            }
        }),
{
    let inside = combined(op, covers(a, at), covers(b, at));
    let next = if !inside && open {
        out.push(x)
    } else {
        out
    };
    let start = if inside && !open {
        at
    } else {
        from
    };
    assert forall|k: int| k <= at implies (#[trigger] covers(next, k) || (inside && start <= k)) == combined(
        op,
        covers(a, k),
        covers(b, k),
    ) by {
        lemma_covers_push(out, x, k);
        if k > was {
            assert(!covers(out, k));
            if k < at {
                assert(covers(a, k) == wa);
                assert(covers(b, k) == wb);
                assert(combined(op, wa, wb) == open);
                assert((covers(next, k) || (inside && start <= k)) == open);
            } else {
                assert((covers(next, k) || (inside && start <= k)) == inside);
            }
        } else {
            lemma_followed_at(op, a, b, out, open, from, was, k);
            assert((covers(next, k) || (inside && start <= k)) == (covers(out, k) || (open && from <= k)));
        }
    }
}

/// One merge scan over two ascending span lists.
///
/// Walks the two endpoint streams together and emits a span for every maximal
/// run where the combination holds. The result ascends but is not normalized.
fn boolean_scan(op: SetOp, a: &[Span], b: &[Span], out: &mut Vec<Span>)
    requires
        ascending(a@),
        ascending(b@),
    ensures
        scanned(op, a@, b@, final(out)@),
{
    out.clear();
    let mut ia: usize = 0;
    let mut ib: usize = 0;
    let mut in_a: bool = false;
    let mut in_b: bool = false;
    let mut open_at: Double = Double::zeroed();
    let mut open_normal: OctNormal = OctNormal::placeholder();
    let mut open: bool = false;
    // every key is above this
    let ghost mut at: int = -0x8000_0000_0000_0000;

    loop
        invariant
            ascending(a@),
            ascending(b@),
            standing(a@, ia as int, in_a, at),
            standing(b@, ib as int, in_b, at),
            ascending(out@),
            open == combined(op, in_a, in_b),
            forall|i: int| 0 <= i < out.len() ==> (#[trigger] out@[i]).t1.key() <= at,
            open ==> open_at.key() <= at && !open_at.nan() && inherited(op, a@, b@, open_at, open_normal),
            open ==> forall|i: int| 0 <= i < out.len() ==> (#[trigger] out@[i]).t1.key() < open_at.key(),
            followed(op, a@, b@, out@, open, open_at.key(), at),
            forall|i: int|
                0 <= i < out.len() ==> inherited(op, a@, b@, (#[trigger] out@[i]).t0, out@[i].n0) && inherited(
                    op,
                    a@,
                    b@,
                    out@[i].t1,
                    out@[i].n1,
                ),
        ensures
            scanned(op, a@, b@, out@),
        decreases 2 * (a.len() - ia) + 2 * (b.len() - ib) - (if in_a { 1int } else { 0 }) - (if in_b { 1int } else { 0 }),
    {
        let has_a: bool = ia < a.len();
        let has_b: bool = ib < b.len();
        if (!has_a && !has_b) || (op == SetOp::Intersect && (!has_a || !has_b)) {
            proof {
                assert forall|k: int| #[trigger] covers(out@, k) == combined(op, covers(a@, k), covers(b@, k)) by {
                    if k > at {
                        if !has_a {
                            lemma_standing_covers(a@, ia as int, in_a, at, k);
                        }
                        if !has_b {
                            lemma_standing_covers(b@, ib as int, in_b, at, k);
                        }
                        assert(!covers(out@, k));
                    }
                }
            }
            break;
        }
        let ea: Double = if has_a { if in_a { a[ia].t1 } else { a[ia].t0 } } else { Double::zeroed() };
        let eb: Double = if has_b { if in_b { b[ib].t1 } else { b[ib].t0 } } else { Double::zeroed() };
        proof {
            if has_a {
                assert(a@[ia as int].valid());
            }
            if has_b {
                assert(b@[ib as int].valid());
            }
        }
        let t: Double = if !has_b || (has_a && ea.at_most(eb)) { ea } else { eb };
        let at_a: bool = has_a && ea.equals(t);
        let at_b: bool = has_b && eb.equals(t);
        let normal_here: OctNormal = if at_a {
            if in_a {
                a[ia].n1
            } else {
                a[ia].n0
            }
        } else {
            let n: OctNormal = if in_b { b[ib].n1 } else { b[ib].n0 };
            if op == SetOp::Difference {
                n.negated()
            } else {
                n
            }
        };
        let ghost was = at;
        let ghost (ja, jb, wa, wb) = (ia as int, ib as int, in_a, in_b);
        proof {
            at = t.key();
            // between the last endpoint and this one nothing changes
            assert forall|k: int| was <= k < at implies #[trigger] covers(a@, k) == wa && covers(b@, k) == wb by {
                lemma_standing_covers(a@, ja, wa, was, k);
                lemma_standing_covers(b@, jb, wb, was, k);
            }
            if at_a {
                assert(end_of(a@, t, normal_here)) by {
                    assert(a@[ja].t0 == ea || a@[ja].t1 == ea);
                }
            } else {
                lemma_standing_covers(a@, ja, wa, was, at);
                assert(b@[jb].t0 == eb || b@[jb].t1 == eb);
            }
            assert(inherited(op, a@, b@, t, normal_here));
        }
        if at_a {
            if in_a {
                ia = ia + 1;
            }
            in_a = !in_a;
        }
        if at_b {
            if in_b {
                ib = ib + 1;
            }
            in_b = !in_b;
        }
        proof {
            assert(standing(a@, ia as int, in_a, at)) by {
                if at_a && wa && ia < a.len() {
                    assert(a@[ja].t1.key() < a@[ja + 1].t0.key());
                }
            }
            assert(standing(b@, ib as int, in_b, at)) by {
                if at_b && wb && ib < b.len() {
                    assert(b@[jb].t1.key() < b@[jb + 1].t0.key());
                }
            }
            if ia < a.len() {
                assert(a@[ia as int].valid());
            }
            if ib < b.len() {
                assert(b@[ib as int].valid());
            }
            lemma_standing_covers(a@, ia as int, in_a, at, at);
            lemma_standing_covers(b@, ib as int, in_b, at, at);
        }
        let inside: bool = combine(op, in_a, in_b);
        let x: Span = Span::with_normals(open_at, t, open_normal, normal_here);
        proof {
            lemma_follow(op, a@, b@, out@, open, open_at.key(), was, at, wa, wb, x);
        }
        if inside && !open {
            open_at = t;
            open_normal = normal_here;
            open = true;
        } else if !inside && open {
            out.push(x);
            open = false;
        }
    }
}

/// `x` comes before `y` in the total order of bounds.
pub open spec fn earlier(x: Span, y: Span) -> bool {
    x.t0.total_key() < y.t0.total_key() || (x.t0.total_key() == y.t0.total_key() && x.t1.total_key()
        < y.t1.total_key())
}

/// `x` put into an ordered sequence, behind every span it does not precede.
pub open spec fn inserted(v: Seq<Span>, x: Span) -> Seq<Span>
    decreases v.len(),
{
    if v.len() == 0 || !earlier(x, v.last()) {
        v.push(x)
    } else {
        inserted(v.drop_last(), x).push(v.last())
    }
}

/// The valid spans of `v`, in a stable ascending order.
pub open spec fn arranged(v: Seq<Span>) -> Seq<Span>
    decreases v.len(),
{
    if v.len() == 0 {
        v
    } else if v.last().valid() {
        inserted(arranged(v.drop_last()), v.last())
    } else {
        arranged(v.drop_last())
    }
}

/// `x` extended over `y`: the far bound moves out together with its normal.
pub open spec fn absorbed(x: Span, y: Span) -> Span {
    if x.t1.lt(y.t1) {
        Span { t1: y.t1, n1: y.n1, ..x }
    } else {
        x
    }
}

/// A finished span, kept if it is long enough.
pub open spec fn kept(x: Span) -> Seq<Span> {
    if x.long() {
        seq![x]
    } else {
        Seq::empty()
    }
}

/// `x` and the ordered spans behind it: close ones fused, then short ones
/// dropped.
pub open spec fn fused(x: Span, rest: Seq<Span>) -> Seq<Span>
    decreases rest.len(),
{
    if rest.len() == 0 {
        kept(x)
    } else if close(x, rest[0]) {
        fused(absorbed(x, rest[0]), rest.drop_first())
    } else {
        kept(x) + fused(rest[0], rest.drop_first())
    }
}

/// The normalized form of any collection of spans.
pub open spec fn normalized(v: Seq<Span>) -> Seq<Span> {
    let s = arranged(v);
    if s.len() == 0 {
        s
    } else {
        fused(s[0], s.drop_first())
    }
}

/// Valid spans whose lower bounds do not descend.
pub open spec fn ranked(s: Seq<Span>) -> bool {
    &&& forall|i: int| 0 <= i < s.len() ==> (#[trigger] s[i]).valid()
    &&& forall|i: int, j: int| 0 <= i < j < s.len() ==> !earlier(#[trigger] s[j], #[trigger] s[i])
}

pub(crate) proof fn lemma_inserted(v: Seq<Span>, x: Span)
    requires
        ranked(v),
        x.valid(),
    ensures
        ranked(inserted(v, x)),
        inserted(v, x).len() == v.len() + 1,
        forall|y: Span| inserted(v, x).contains(y) ==> y == x || v.contains(y),
    decreases v.len(),
{
    if v.len() == 0 || !earlier(x, v.last()) {
        let r = v.push(x);
        assert forall|i: int, j: int| 0 <= i < j < r.len() implies !earlier(#[trigger] r[j], #[trigger] r[i]) by {
            if j == v.len() && i < v.len() - 1 {
                assert(!earlier(v[v.len() - 1], v[i]));
            }
        }
        assert forall|y: Span| r.contains(y) implies y == x || v.contains(y) by {
            let i = choose|i: int| 0 <= i < r.len() && r[i] == y;
            if i < v.len() {
                assert(v[i] == y);
            }
        }
    } else {
        let w = v.drop_last();
        lemma_inserted(w, x);
        let q = inserted(w, x);
        let r = q.push(v.last());
        assert forall|i: int, j: int| 0 <= i < j < r.len() implies !earlier(#[trigger] r[j], #[trigger] r[i]) by {
            if j == q.len() {
                assert(q.contains(q[i]));
                if q[i] != x {
                    assert(w.contains(q[i]));
                    let m = choose|m: int| 0 <= m < w.len() && w[m] == q[i];
                    assert(!earlier(v[v.len() - 1], v[m]));
                }
            }
        }
        assert forall|i: int| 0 <= i < r.len() implies (#[trigger] r[i]).valid() by {
            if i == q.len() {
                assert(v[v.len() - 1].valid());
            }
        }
        assert forall|y: Span| r.contains(y) implies y == x || v.contains(y) by {
            let i = choose|i: int| 0 <= i < r.len() && r[i] == y;
            if i < q.len() {
                assert(q.contains(y));
                if y != x {
                    assert(w.contains(y));
                    let m = choose|m: int| 0 <= m < w.len() && w[m] == y;
                    assert(v[m] == y);
                }
            } else {
                assert(v[v.len() - 1] == y);
            }
        }
    }
}

pub(crate) proof fn lemma_arranged(v: Seq<Span>)
    ensures
        ranked(arranged(v)),
        arranged(v).len() <= v.len(),
    decreases v.len(),
{
    if v.len() > 0 {
        lemma_arranged(v.drop_last());
        if v.last().valid() {
            lemma_inserted(arranged(v.drop_last()), v.last());
        }
    }
}

/// What it takes for a gap to be kept.
pub(crate) proof fn lemma_apart(x: Span, y: Span)
    requires
        x.valid(),
        y.valid(),
    ensures
        !difference(y.t0, x.t1).nan(),
        !close(x, y) ==> x.t1.key() < y.t0.key(),
{
    law_difference_nan(y.t0, x.t1);
    law_difference_sign(y.t0, x.t1);
}

proof fn lemma_apart_further(x: Span, y: Span, z: Span)
    requires
        x.valid(),
        y.valid(),
        z.valid(),
        !close(x, y),
        y.t0.key() <= z.t0.key(),
    ensures
        !close(x, z),
{
    lemma_apart(x, y);
    lemma_apart(x, z);
    law_difference_keeps_order_first(y.t0, z.t0, x.t1);
}

/// Fusing yields the normalized form, starting no earlier than it began.
proof fn lemma_fused(x: Span, rest: Seq<Span>)
    requires
        x.valid(),
        ranked(rest),
        forall|i: int| 0 <= i < rest.len() ==> x.t0.key() <= (#[trigger] rest[i]).t0.key(),
    ensures
        normal_form(fused(x, rest)),
        forall|i: int| 0 <= i < fused(x, rest).len() ==> x.t0.key() <= (#[trigger] fused(x, rest)[i]).t0.key(),
        fused(x, rest).len() <= 1 + rest.len(),
    decreases rest.len(),
{
    if rest.len() > 0 {
        let y = rest[0];
        let tail = rest.drop_first();
        assert forall|i: int| 0 <= i < tail.len() implies y.t0.key() <= (#[trigger] tail[i]).t0.key() by {
            assert(!earlier(rest[i + 1], rest[0]));
            assert(rest[i + 1].valid());
        }
        assert(ranked(tail));
        if close(x, y) {
            lemma_fused(absorbed(x, y), tail);
        } else {
            lemma_fused(y, tail);
            let k = kept(x);
            let r = fused(y, tail);
            let out = k + r;
            assert(fused(x, rest) == out);
            lemma_apart(x, y);
            if x.long() {
                assert(out[0] == x);
                assert forall|i: int| 0 <= i < r.len() implies out[i + 1] == #[trigger] r[i] by {
                }
                if r.len() > 0 {
                    assert(r[0].valid());
                    lemma_apart_further(x, y, r[0]);
                }
                assert forall|i: int| 0 <= i < out.len() implies (#[trigger] out[i]).valid() && out[i].long()
                    && x.t0.key() <= out[i].t0.key() by {
                    if i > 0 {
                        assert(out[i] == r[i - 1]);
                    }
                }
                assert forall|i: int, j: int| 0 <= i < j < out.len() implies (#[trigger] out[i]).t1.key()
                    < (#[trigger] out[j]).t0.key() by {
                    assert(out[j] == r[j - 1]);
                    if i > 0 {
                        assert(out[i] == r[i - 1]);
                    }
                }
                assert forall|i: int, j: int| 0 <= i && j == i + 1 && j < out.len() implies !close(
                    #[trigger] out[i],
                    #[trigger] out[j],
                ) by {
                    assert(out[j] == r[j - 1]);
                    if i > 0 {
                        assert(out[i] == r[i - 1]);
                    }
                }
            } else {
                assert(out =~= r);
            }
        }
    }
}

/// Whatever goes in, the normalized form comes out.
pub proof fn law_normalized_is_normal(v: Seq<Span>)
    ensures
        normal_form(normalized(v)),
        normalized(v).len() <= v.len(),
{
    lemma_arranged(v);
    let s = arranged(v);
    if s.len() > 0 {
        let rest = s.drop_first();
        assert forall|i: int| 0 <= i < rest.len() implies s[0].t0.key() <= (#[trigger] rest[i]).t0.key() by {
            assert(!earlier(s[i + 1], s[0]));
        }
        lemma_fused(s[0], rest);
    }
}

pub proof fn lemma_arranged_ascending(v: Seq<Span>)
    requires
        ascending(v),
    ensures
        arranged(v) == v,
    decreases v.len(),
{
    if v.len() > 0 {
        let w = v.drop_last();
        lemma_arranged_ascending(w);
        assert(v[v.len() - 1].valid());
        if w.len() > 0 {
            assert(v[v.len() - 2].valid());
            assert(v[v.len() - 2].t1.key() < v[v.len() - 1].t0.key());
        }
        assert(w.push(v.last()) =~= v);
    }
}

proof fn lemma_fused_normal(v: Seq<Span>)
    requires
        normal_form(v),
        v.len() > 0,
    ensures
        fused(v[0], v.drop_first()) == v,
    decreases v.len(),
{
    let rest = v.drop_first();
    assert(v[0].long());
    if rest.len() > 0 {
        assert(!close(v[0], v[1]));
        lemma_fused_normal(rest);
        assert(seq![v[0]] + rest =~= v);
    } else {
        assert(seq![v[0]] =~= v);
    }
}

/// Normalizing is idempotent: a normalized set is left as it is.
pub proof fn law_normalizing_is_idempotent(v: Seq<Span>)
    ensures
        normal_form(v) ==> normalized(v) == v,
        normalized(normalized(v)) == normalized(v),
{
    law_normalized_is_normal(v);
    let n = normalized(v);
    lemma_arranged_ascending(n);
    if n.len() > 0 {
        lemma_fused_normal(n);
    }
    if normal_form(v) {
        lemma_arranged_ascending(v);
        if v.len() > 0 {
            lemma_fused_normal(v);
        }
    }
}

/// `x` put into an ordered vector, behind every span it does not precede.
fn insert_ordered(v: &mut Vec<Span>, x: Span)
    ensures
        final(v)@ == inserted(old(v)@, x),
{
    let ghost all = v@;
    let mut i: usize = v.len();
    proof {
        assert(all.subrange(0, i as int) =~= all);
        assert(all.subrange(i as int, i as int) =~= Seq::<Span>::empty());
        assert(inserted(all, x) + Seq::<Span>::empty() =~= inserted(all, x));
    }
    while i > 0 && is_earlier(x, v[i - 1])
        invariant
            i <= v.len(),
            v@ == all,
            inserted(all, x) == inserted(all.subrange(0, i as int), x) + all.subrange(i as int, all.len() as int),
        decreases i,
    {
        proof {
            let head = all.subrange(0, i as int);
            assert(head.drop_last() =~= all.subrange(0, i - 1));
            assert(head.last() == all[i - 1]);
            assert(inserted(head, x) == inserted(head.drop_last(), x).push(all[i - 1]));
            assert(inserted(head.drop_last(), x).push(all[i - 1]) + all.subrange(i as int, all.len() as int)
                =~= inserted(head.drop_last(), x) + all.subrange(i - 1, all.len() as int));
        }
        i = i - 1;
    }
    proof {
        let head = all.subrange(0, i as int);
        assert(i > 0 ==> head.last() == all[i - 1]);
        assert(inserted(head, x) == head.push(x));
        assert(all.insert(i as int, x) =~= head.push(x) + all.subrange(i as int, all.len() as int));
    }
    v.insert(i, x);
}

fn is_earlier(x: Span, y: Span) -> (r: bool)
    ensures
        r == earlier(x, y),
{
    let a: i64 = x.t0.total_order();
    let b: i64 = y.t0.total_order();
    a < b || (a == b && x.t1.total_order() < y.t1.total_order())
}

/// True if the gap between two spans is too narrow to keep.
fn is_close(x: Span, y: Span) -> (r: bool)
    ensures
        r == close(x, y),
{
    y.t0.minus(x.t1).at_most(Double::from_bits(EPS_SPAN_MERGE))
}

/// `x` extended over `y`.
fn absorb(x: Span, y: Span) -> (r: Span)
    ensures
        r == absorbed(x, y),
{
    if x.t1.less(y.t1) {
        Span { t0: x.t0, t1: y.t1, n0: x.n0, n1: y.n1 }
    } else {
        x
    }
}

/// Sorts, merges and drops slivers, restoring the normalized form.
fn normalize_in_place(v: &mut Vec<Span>)
    ensures
        final(v)@ == normalized(old(v)@),
        normal_form(final(v)@),
{
    let ghost all = v@;
    proof {
        law_normalized_is_normal(all);
    }
    let mut s: Vec<Span> = Vec::new();
    let mut i: usize = 0;
    while i < v.len()
        invariant
            i <= v.len(),
            v@ == all,
            s@ == arranged(all.subrange(0, i as int)),
        decreases v.len() - i,
    {
        proof {
            let head = all.subrange(0, i + 1);
            assert(head.drop_last() =~= all.subrange(0, i as int));
            assert(head.last() == all[i as int]);
        }
        if v[i].is_valid() {
            insert_ordered(&mut s, v[i]);
        }
        i = i + 1;
    }
    proof {
        assert(all.subrange(0, all.len() as int) =~= all);
    }
    v.clear();
    if s.len() == 0 {
        return;
    }
    let mut current: Span = s[0];
    let mut read: usize = 1;
    proof {
        assert(s@.subrange(1, s.len() as int) =~= s@.drop_first());
        assert(v@ + fused(current, s@.subrange(1, s.len() as int)) =~= normalized(all));
    }
    while read < s.len()
        invariant
            1 <= read <= s.len(),
            normalized(all) == v@ + fused(current, s@.subrange(read as int, s.len() as int)),
        decreases s.len() - read,
    {
        let next: Span = s[read];
        proof {
            let rest = s@.subrange(read as int, s.len() as int);
            assert(rest[0] == next);
            assert(rest.drop_first() =~= s@.subrange(read + 1, s.len() as int));
        }
        if is_close(current, next) {
            current = absorb(current, next);
        } else {
            let ghost was = v@;
            if current.is_long() {
                v.push(current);
            }
            proof {
                let tail = fused(next, s@.subrange(read + 1, s.len() as int));
                assert(was + (kept(current) + tail) =~= v@ + tail);
            }
            current = next;
        }
        read = read + 1;
    }
    proof {
        assert(s@.subrange(read as int, s.len() as int) =~= Seq::<Span>::empty());
    }
    let ghost was = v@;
    if current.is_long() {
        v.push(current);
    }
    proof {
        assert(was + kept(current) =~= v@);
    }
}

/// What a set operation returns: its merge scan, normalized.
pub open spec fn op_result(op: SetOp, a: Seq<Span>, b: Seq<Span>, out: Seq<Span>) -> bool {
    exists|raw: Seq<Span>| #[trigger] scanned(op, a, b, raw) && out == normalized(raw)
}

/// The lengths added up in ascending order.
pub open spec fn total_length(s: Seq<Span>) -> Double
    decreases s.len(),
{
    if s.len() == 0 {
        Double { bits: 0 }
    } else {
        sum(total_length(s.drop_last()), difference(s.last().t1, s.last().t0))
    }
}

/// `x` and the ordered spans behind it, with close ones fused and none dropped.
pub open spec fn merged(x: Span, rest: Seq<Span>) -> Seq<Span>
    decreases rest.len(),
{
    if rest.len() == 0 {
        seq![x]
    } else if close(x, rest[0]) {
        merged(absorbed(x, rest[0]), rest.drop_first())
    } else {
        seq![x] + merged(rest[0], rest.drop_first())
    }
}

/// A set with a span put where it belongs, and close spans fused.
pub open spec fn slotted(v: Seq<Span>, x: Span) -> Seq<Span> {
    let s = inserted(v, x);
    merged(s[0], s.drop_first())
}

/// Fusing without dropping keeps the structure.
pub(crate) proof fn lemma_merged(x: Span, rest: Seq<Span>)
    requires
        x.valid(),
        ranked(rest),
        forall|i: int| 0 <= i < rest.len() ==> x.t0.key() <= (#[trigger] rest[i]).t0.key(),
    ensures
        structured(merged(x, rest)),
        forall|i: int| 0 <= i < merged(x, rest).len() ==> x.t0.key() <= (#[trigger] merged(x, rest)[i]).t0.key(),
    decreases rest.len(),
{
    if rest.len() > 0 {
        let y = rest[0];
        let tail = rest.drop_first();
        assert forall|i: int| 0 <= i < tail.len() implies y.t0.key() <= (#[trigger] tail[i]).t0.key() by {
            assert(!earlier(rest[i + 1], rest[0]));
            assert(rest[i + 1].valid());
        }
        assert(ranked(tail));
        if close(x, y) {
            lemma_merged(absorbed(x, y), tail);
        } else {
            lemma_merged(y, tail);
            let r = merged(y, tail);
            let out = seq![x] + r;
            assert(merged(x, rest) == out);
            lemma_apart(x, y);
            if r.len() > 0 {
                assert(r[0].valid());
                lemma_apart_further(x, y, r[0]);
            }
            assert forall|i: int| 0 <= i < out.len() implies (#[trigger] out[i]).valid() && x.t0.key() <= out[i].t0.key() by {
                if i > 0 {
                    assert(out[i] == r[i - 1]);
                }
            }
            assert forall|i: int, j: int| 0 <= i < j < out.len() implies (#[trigger] out[i]).t1.key() < (
            #[trigger] out[j]).t0.key() by {
                assert(out[j] == r[j - 1]);
                if i > 0 {
                    assert(out[i] == r[i - 1]);
                }
            }
            assert forall|i: int, j: int| 0 <= i && j == i + 1 && j < out.len() implies !close(
                #[trigger] out[i],
                #[trigger] out[j],
            ) by {
                assert(out[j] == r[j - 1]);
                if i > 0 {
                    assert(out[i] == r[i - 1]);
                }
            }
        }
    }
}

/// Puts a span where it belongs, and fuses close spans.
fn slot_in(v: &mut Vec<Span>, x: Span)
    requires
        structured(old(v)@),
        x.valid(),
    ensures
        final(v)@ == slotted(old(v)@, x),
        structured(final(v)@),
{
    let ghost all = v@;
    proof {
        lemma_arranged(all);
        lemma_arranged_ascending(all);
        lemma_inserted(all, x);
    }
    insert_ordered(v, x);
    let s: Vec<Span> = v.clone();
    assert(s@ =~= v@) by {
        assert forall|i: int| 0 <= i < s@.len() implies s@[i] == v@[i] by {
            assert(cloned(v@[i], s@[i]));
        }
    }
    proof {
        assert forall|i: int| 0 <= i < s@.drop_first().len() implies s@[0].t0.key() <= (
        #[trigger] s@.drop_first()[i]).t0.key() by {
            assert(!earlier(s@[i + 1], s@[0]));
        }
        lemma_merged(s@[0], s@.drop_first());
    }
    v.clear();
    let mut current: Span = s[0];
    let mut read: usize = 1;
    proof {
        assert(s@.subrange(1, s.len() as int) =~= s@.drop_first());
        assert(v@ + merged(current, s@.subrange(1, s.len() as int)) =~= slotted(all, x));
    }
    while read < s.len()
        invariant
            1 <= read <= s.len(),
            slotted(all, x) == v@ + merged(current, s@.subrange(read as int, s.len() as int)),
        decreases s.len() - read,
    {
        let next: Span = s[read];
        proof {
            let rest = s@.subrange(read as int, s.len() as int);
            assert(rest[0] == next);
            assert(rest.drop_first() =~= s@.subrange(read + 1, s.len() as int));
        }
        if is_close(current, next) {
            current = absorb(current, next);
        } else {
            let ghost was = v@;
            v.push(current);
            proof {
                let tail = merged(next, s@.subrange(read + 1, s.len() as int));
                assert(was + (seq![current] + tail) =~= v@ + tail);
            }
            current = next;
        }
        read = read + 1;
    }
    proof {
        assert(s@.subrange(read as int, s.len() as int) =~= Seq::<Span>::empty());
        assert(v@ + seq![current] =~= v@.push(current));
    }
    v.push(current);
}

/// A set with one more span merged in.
pub open spec fn pushed(v: Seq<Span>, span: Span) -> Seq<Span> {
    if !span.valid() {
        v
    } else if v.len() == 0 {
        v.push(span)
    } else if !v.last().t0.le(span.t0) {
        slotted(v, span)
    } else if close(v.last(), span) {
        v.update(v.len() - 1, absorbed(v.last(), span))
    } else {
        v.push(span)
    }
}

/// A set with the first `n` of some spans merged in.
pub open spec fn pushed_all(v: Seq<Span>, more: Seq<Span>, n: nat) -> Seq<Span>
    decreases n,
{
    if n == 0 {
        v
    } else {
        pushed(pushed_all(v, more, (n - 1) as nat), more[n - 1])
    }
}

/// The first way in which a set of spans breaks its invariant.
#[derive(Clone, Copy, Debug, PartialEq, Eq, Structural)]
pub enum SpanFault {
    /// The span at this index has no positive length, or a NaN bound.
    Degenerate(usize),
    /// The span at this index starts before the one before it.
    OutOfOrder(usize),
    /// The span at this index is too close to the one before it.
    TooClose(usize),
}

impl SpanFault {
    /// What a reader is told of the fault.
    pub open spec fn text(self) -> Seq<char> {
        match self {
            SpanFault::Degenerate(i) => "span "@ + decimal_text(i as nat) + " is degenerate or NaN"@,
            SpanFault::OutOfOrder(i) => "span "@ + decimal_text(i as nat) + " starts before span "@ + decimal_text(
                (i - 1) as nat,
            ),
            SpanFault::TooClose(i) => "spans "@ + decimal_text((i - 1) as nat) + " and "@ + decimal_text(i as nat)
                + " are separated by a gap that is not greater than EPS_SPAN_MERGE"@,
        }
    }

    /// What a reader is told of the fault: which span it is, and which one it
    /// stands in the way of.
    pub fn message(self) -> (m: String)
        requires
            !(self is Degenerate) ==> self.index() > 0,
        ensures
            m@ == self.text(),
    {
        let mut m: String = String::new();
        match self {
            SpanFault::Degenerate(i) => {
                m.append("span ");
                push_number(&mut m, i as u64);
                m.append(" is degenerate or NaN");
            },
            SpanFault::OutOfOrder(i) => {
                m.append("span ");
                push_number(&mut m, i as u64);
                m.append(" starts before span ");
                push_number(&mut m, (i - 1) as u64);
            },
            SpanFault::TooClose(i) => {
                m.append("spans ");
                push_number(&mut m, (i - 1) as u64);
                m.append(" and ");
                push_number(&mut m, i as u64);
                m.append(" are separated by a gap that is not greater than EPS_SPAN_MERGE");
            },
        }
        assert(m@ =~= self.text());
        m
    }

    /// The index of the span that is at fault.
    pub open spec fn index(self) -> usize {
        match self {
            SpanFault::Degenerate(i) => i,
            SpanFault::OutOfOrder(i) => i,
            SpanFault::TooClose(i) => i,
        }
    }
}

/// What is wrong at index `i`, if anything is.
pub open spec fn fault_at(s: Seq<Span>, i: int) -> Option<SpanFault> {
    if !s[i].valid() {
        Some(SpanFault::Degenerate(i as usize))
    } else if i > 0 && s[i].t0.lt(s[i - 1].t0) {
        Some(SpanFault::OutOfOrder(i as usize))
    } else if i > 0 && (difference(s[i].t0, s[i - 1].t1).nan() || close(s[i - 1], s[i])) {
        Some(SpanFault::TooClose(i as usize))
    } else {
        None
    }
}

/// A sorted, disjoint set of half-open intervals on a line.
#[derive(Debug, PartialEq, Eq)]
pub struct Spans {
    /// The spans, ascending, separated by more than the merge threshold.
    pub spans: Vec<Span>,
}

impl View for Spans {
    type V = Seq<Span>;

    open spec fn view(&self) -> Seq<Span> {
        self.spans@
    }
}

impl Clone for Spans {
    fn clone(&self) -> (r: Self)
        ensures
            r@ == self@,
    {
        let mut spans: Vec<Span> = Vec::new();
        let mut i: usize = 0;
        while i < self.spans.len()
            invariant
                i <= self.spans.len(),
                spans@ == self@.subrange(0, i as int),
            decreases self.spans.len() - i,
        {
            spans.push(self.spans[i]);
            i = i + 1;
            proof {
                assert(self@.subrange(0, i as int) =~= self@.subrange(0, i - 1).push(self@[i - 1]));
            }
        }
        proof {
            assert(self@.subrange(0, i as int) =~= self@);
        }
        Spans { spans }
    }
}

impl Default for Spans {
    fn default() -> (r: Self)
        ensures
            r@ == Seq::<Span>::empty(),
    {
        Spans { spans: Vec::new() }
    }
}

impl Spans {
    /// The structural invariant.
    pub open spec fn wf(self) -> bool {
        structured(self@)
    }

    /// The empty set.
    pub fn new() -> (r: Spans)
        ensures
            r@ == Seq::<Span>::empty(),
            r.wf(),
    {
        Spans { spans: Vec::new() }
    }

    /// The empty set, with room for `n` spans.
    pub fn with_capacity(n: usize) -> (r: Spans)
        ensures
            r@ == Seq::<Span>::empty(),
            r.wf(),
    {
        Spans { spans: Vec::with_capacity(n) }
    }

    /// The set of one span, or the empty set if it is invalid or too short.
    pub fn from_span(span: Span) -> (r: Spans)
        ensures
            r@ == if span.valid() && span.long() {
                seq![span]
            } else {
                Seq::empty()
            },
            normal_form(r@),
    {
        let mut spans: Vec<Span> = Vec::new();
        if span.is_valid() && span.is_long() {
            spans.push(span);
        }
        proof {
            assert(spans@ =~= if span.valid() && span.long() {
                seq![span]
            } else {
                Seq::empty()
            });
        }
        Spans { spans }
    }

    /// A set from arbitrary spans, in any order, possibly overlapping.
    pub fn from_unsorted(spans: Vec<Span>) -> (r: Spans)
        ensures
            r@ == normalized(spans@),
            normal_form(r@),
    {
        let mut v: Vec<Span> = spans;
        normalize_in_place(&mut v);
        Spans { spans: v }
    }

    /// The spans, in ascending order.
    pub fn as_slice(&self) -> (r: &[Span])
        ensures
            r@ == self@,
    {
        self.spans.as_slice()
    }

    /// The number of spans.
    pub fn len(&self) -> (n: usize)
        ensures
            n == self@.len(),
    {
        self.spans.len()
    }

    /// True if the set holds no spans.
    pub fn is_empty(&self) -> (r: bool)
        ensures
            r == (self@.len() == 0),
    {
        self.spans.len() == 0
    }

    /// Removes every span.
    pub fn clear(&mut self)
        ensures
            final(self)@ == Seq::<Span>::empty(),
            final(self).wf(),
    {
        self.spans.clear();
    }

    /// The smallest span containing all of them, or `None` when empty.
    pub fn hull(&self) -> (r: Option<Span>)
        ensures
            r == if self@.len() == 0 {
                None
            } else {
                Some(
                    Span {
                        t0: self@[0].t0,
                        t1: self@.last().t1,
                        n0: OctNormal::unknown(),
                        n1: OctNormal::unknown(),
                    },
                )
            },
    {
        let n: usize = self.spans.len();
        if n == 0 {
            None
        } else {
            Some(Span::new(self.spans[0].t0, self.spans[n - 1].t1))
        }
    }

    /// Total length of all spans, added up in ascending order.
    pub fn measure(&self) -> (r: Double)
        ensures
            r == total_length(self@),
    {
        let mut total: Double = Double::zeroed();
        let mut i: usize = 0;
        while i < self.spans.len()
            invariant
                i <= self.spans.len(),
                total == total_length(self@.subrange(0, i as int)),
            decreases self.spans.len() - i,
        {
            proof {
                let head = self@.subrange(0, i + 1);
                assert(head.drop_last() =~= self@.subrange(0, i as int));
                assert(head.last() == self@[i as int]);
            }
            total = total.plus(self.spans[i].length());
            i = i + 1;
        }
        proof {
            assert(self@.subrange(0, i as int) =~= self@);
        }
        total
    }

    /// True if `t` lies inside any span, by binary search.
    pub fn contains(&self, t: Double) -> (r: bool)
        requires
            self.wf(),
        ensures
            r == (!t.nan() && covers(self@, t.key())),
    {
        if t.is_nan() {
            return false;
        }
        let mut lo: usize = 0;
        let mut hi: usize = self.spans.len();
        // spans below `lo` start at or before `t`, those from `hi` on after it
        while lo < hi
            invariant
                self.wf(),
                !t.nan(),
                lo <= hi <= self.spans.len(),
                lo > 0 ==> self@[lo - 1].t0.key() <= t.key(),
                hi < self.spans.len() ==> t.key() < self@[hi as int].t0.key(),
            decreases hi - lo,
        {
            let mid: usize = lo + (hi - lo) / 2;
            proof {
                assert(self@[mid as int].valid());
            }
            if self.spans[mid].t0.at_most(t) {
                lo = mid + 1;
            } else {
                hi = mid;
            }
        }
        proof {
            if covers(self@, t.key()) {
                let j = choose|j: int| 0 <= j < self@.len() && (#[trigger] self@[j]).holds(t.key());
                if j < lo - 1 {
                    assert(self@[j].t1.key() < self@[lo - 1].t0.key());
                }
                if j >= lo && j > lo {
                    assert(self@[lo as int].valid());
                    assert(self@[lo as int].t1.key() < self@[j].t0.key());
                }
                assert(j == lo - 1);
            }
            if lo > 0 {
                assert(self@[lo - 1].valid());
            }
        }
        lo > 0 && self.spans[lo - 1].contains(t)
    }

    /// Adds a span, merging it into the set.
    ///
    /// A span that starts at or after the last one extends it or is appended;
    /// any other is put where it belongs, and what it comes close to is fused.
    /// Invalid spans are ignored, and short ones are not dropped.
    pub fn push_merge(&mut self, span: Span)
        requires
            old(self).wf(),
        ensures
            final(self).wf(),
            final(self)@ == pushed(old(self)@, span),
    {
        if !span.is_valid() {
            return;
        }
        let n: usize = self.spans.len();
        if n == 0 {
            self.spans.push(span);
            return;
        }
        let last: Span = self.spans[n - 1];
        proof {
            assert(self@[n - 1].valid());
            lemma_apart(last, span);
        }
        if last.t0.at_most(span.t0) {
            if is_close(last, span) {
                let grown: Span = absorb(last, span);
                let ghost v = self@;
                self.spans.set(n - 1, grown);
                proof {
                    assert forall|i: int, j: int| 0 <= i < j < self@.len() implies (#[trigger] self@[i]).t1.key()
                        < (#[trigger] self@[j]).t0.key() by {
                        assert(v[i].t1.key() < v[j].t0.key());
                    }
                    assert forall|i: int, j: int| 0 <= i && j == i + 1 && j < self@.len() implies !close(
                        #[trigger] self@[i],
                        #[trigger] self@[j],
                    ) by {
                        assert(!close(v[i], v[j]));
                    }
                }
            } else {
                let ghost v = self@;
                self.spans.push(span);
                proof {
                    assert forall|i: int, j: int| 0 <= i < j < self@.len() implies (#[trigger] self@[i]).t1.key()
                        < (#[trigger] self@[j]).t0.key() by {
                        if j == v.len() && i < v.len() - 1 {
                            assert(v[i].t1.key() < v[v.len() - 1].t0.key());
                        }
                    }
                }
            }
        } else {
            slot_in(&mut self.spans, span);
        }
    }

    /// Adds spans one after the other.
    pub fn push_all(&mut self, more: &[Span])
        requires
            old(self).wf(),
        ensures
            final(self).wf(),
            final(self)@ == pushed_all(old(self)@, more@, more@.len()),
    {
        let ghost v = self@;
        let mut i: usize = 0;
        while i < more.len()
            invariant
                i <= more@.len(),
                self.wf(),
                self@ == pushed_all(v, more@, i as nat),
            decreases more@.len() - i,
        {
            self.push_merge(more[i]);
            i = i + 1;
        }
    }

    /// Sorts, merges, and drops spans that are too short.
    pub fn normalize(&mut self)
        ensures
            final(self)@ == normalized(old(self)@),
            normal_form(final(self)@),
    {
        normalize_in_place(&mut self.spans);
    }

    /// True if the invariant holds and no span is too short.
    pub fn is_normalized(&self) -> (r: bool)
        ensures
            r == normal_form(self@),
    {
        match self.check_invariant() {
            Err(_) => false,
            Ok(_) => {
                let mut i: usize = 0;
                while i < self.spans.len()
                    invariant
                        i <= self.spans.len(),
                        forall|j: int| 0 <= j < i ==> (#[trigger] self@[j]).long(),
                    decreases self.spans.len() - i,
                {
                    if !self.spans[i].is_long() {
                        return false;
                    }
                    i = i + 1;
                }
                true
            },
        }
    }

    /// Checks the structural invariant, naming the first violation.
    pub fn check_invariant(&self) -> (r: Result<(), SpanFault>)
        ensures
            r is Ok <==> self.wf(),
            r matches Err(fault) ==> exists|i: int|
                0 <= i < self@.len() && #[trigger] fault_at(self@, i) == Some(fault) && forall|j: int|
                    0 <= j < i ==> #[trigger] fault_at(self@, j) is None,
    {
        let mut i: usize = 0;
        while i < self.spans.len()
            invariant
                i <= self.spans.len(),
                forall|j: int| 0 <= j < i ==> #[trigger] fault_at(self@, j) is None,
            decreases self.spans.len() - i,
        {
            let ghost here = fault_at(self@, i as int);
            let s: Span = self.spans[i];
            if !s.is_valid() {
                assert(!self.wf()) by {
                    assert(!self@[i as int].valid());
                }
                return Err(SpanFault::Degenerate(i));
            }
            if i > 0 {
                let prev: Span = self.spans[i - 1];
                proof {
                    assert(fault_at(self@, i - 1) is None);
                    lemma_apart(prev, s);
                }
                if s.t0.less(prev.t0) {
                    assert(!self.wf()) by {
                        if self.wf() {
                            assert(self@[i - 1].t1.key() < self@[i as int].t0.key());
                        }
                    }
                    return Err(SpanFault::OutOfOrder(i));
                }
                let gap: Double = s.t0.minus(prev.t1);
                if gap.is_nan() || gap.at_most(Double::from_bits(EPS_SPAN_MERGE)) {
                    assert(!self.wf()) by {
                        if self.wf() {
                            assert(!close(self@[i - 1], self@[i as int]));
                        }
                    }
                    return Err(SpanFault::TooClose(i));
                }
            }
            i = i + 1;
        }
        proof {
            lemma_faultless(self@);
        }
        Ok(())
    }

    /// Everything in either set.
    pub fn union(&self, other: &Spans) -> (r: Spans)
        requires
            self.wf(),
            other.wf(),
        ensures
            op_result(SetOp::Union, self@, other@, r@),
            normal_form(r@),
    {
        let mut out: Spans = Spans::new();
        self.union_into(other, &mut out);
        out
    }

    /// Everything in both sets.
    pub fn intersect(&self, other: &Spans) -> (r: Spans)
        requires
            self.wf(),
            other.wf(),
        ensures
            op_result(SetOp::Intersect, self@, other@, r@),
            normal_form(r@),
    {
        let mut out: Spans = Spans::new();
        self.intersect_into(other, &mut out);
        out
    }

    /// Everything in `self` that is not in `other`: a cut.
    pub fn subtract(&self, other: &Spans) -> (r: Spans)
        requires
            self.wf(),
            other.wf(),
        ensures
            op_result(SetOp::Difference, self@, other@, r@),
            normal_form(r@),
    {
        let mut out: Spans = Spans::new();
        self.subtract_into(other, &mut out);
        out
    }

    /// [`Spans::union`] into an existing set, whose contents are replaced.
    pub fn union_into(&self, other: &Spans, out: &mut Spans)
        requires
            self.wf(),
            other.wf(),
        ensures
            op_result(SetOp::Union, self@, other@, final(out)@),
            normal_form(final(out)@),
    {
        self.op_into(SetOp::Union, other, out);
    }

    /// [`Spans::intersect`] into an existing set, whose contents are replaced.
    pub fn intersect_into(&self, other: &Spans, out: &mut Spans)
        requires
            self.wf(),
            other.wf(),
        ensures
            op_result(SetOp::Intersect, self@, other@, final(out)@),
            normal_form(final(out)@),
    {
        self.op_into(SetOp::Intersect, other, out);
    }

    /// [`Spans::subtract`] into an existing set, whose contents are replaced.
    pub fn subtract_into(&self, other: &Spans, out: &mut Spans)
        requires
            self.wf(),
            other.wf(),
        ensures
            op_result(SetOp::Difference, self@, other@, final(out)@),
            normal_form(final(out)@),
    {
        self.op_into(SetOp::Difference, other, out);
    }

    fn op_into(&self, op: SetOp, other: &Spans, out: &mut Spans)
        requires
            self.wf(),
            other.wf(),
        ensures
            op_result(op, self@, other@, final(out)@),
            normal_form(final(out)@),
    {
        boolean_scan(op, self.spans.as_slice(), other.spans.as_slice(), &mut out.spans);
        assert(scanned(op, self@, other@, out@));
        normalize_in_place(&mut out.spans);
    }

    /// The part of `bounds` not covered by `self`.
    pub fn complement_within(&self, bounds: Span) -> (r: Spans)
        requires
            self.wf(),
        ensures
            if bounds.valid() {
                op_result(SetOp::Difference, seq![bounds], self@, r@)
            } else {
                r@.len() == 0
            },
            normal_form(r@),
    {
        let mut out: Spans = Spans::new();
        self.complement_within_into(bounds, &mut out);
        out
    }

    /// [`Spans::complement_within`] into an existing set, whose contents are
    /// replaced.
    pub fn complement_within_into(&self, bounds: Span, out: &mut Spans)
        requires
            self.wf(),
        ensures
            if bounds.valid() {
                op_result(SetOp::Difference, seq![bounds], self@, final(out)@)
            } else {
                final(out)@.len() == 0
            },
            normal_form(final(out)@),
    {
        if !bounds.is_valid() {
            out.clear();
            return;
        }
        let mut window: Vec<Span> = Vec::new();
        window.push(bounds);
        assert(window@ =~= seq![bounds]);
        boolean_scan(SetOp::Difference, window.as_slice(), self.spans.as_slice(), &mut out.spans);
        assert(scanned(SetOp::Difference, seq![bounds], self@, out@));
        normalize_in_place(&mut out.spans);
    }

    /// The spans of `self` clipped to `bounds`.
    pub fn clipped_to(&self, bounds: Span) -> (r: Spans)
        requires
            self.wf(),
        ensures
            op_result(
                SetOp::Intersect,
                self@,
                if bounds.valid() && bounds.long() {
                    seq![bounds]
                } else {
                    Seq::empty()
                },
                r@,
            ),
            normal_form(r@),
    {
        self.intersect(&Spans::from_span(bounds))
    }
}

proof fn lemma_faultless(s: Seq<Span>)
    requires
        forall|j: int| 0 <= j < s.len() ==> #[trigger] fault_at(s, j) is None,
    ensures
        structured(s),
{
    assert forall|i: int| 0 <= i < s.len() implies (#[trigger] s[i]).valid() by {
        assert(fault_at(s, i) is None);
    }
    assert forall|i: int, j: int| 0 <= i && j == i + 1 && j < s.len() implies !close(#[trigger] s[i], #[trigger] s[j]) by {
        assert(fault_at(s, j) is None);
    }
    assert forall|i: int, j: int| 0 <= i < j < s.len() implies (#[trigger] s[i]).t1.key() < (#[trigger] s[j]).t0.key() by {
        lemma_faultless_pair(s, i, j);
    }
}

proof fn lemma_faultless_pair(s: Seq<Span>, i: int, j: int)
    requires
        0 <= i < j < s.len(),
        forall|j: int| 0 <= j < s.len() ==> #[trigger] fault_at(s, j) is None,
    ensures
        s[i].t1.key() < s[j].t0.key(),
    decreases j - i,
{
    assert(fault_at(s, j) is None);
    assert(fault_at(s, j - 1) is None);
    lemma_apart(s[j - 1], s[j]);
    if i < j - 1 {
        lemma_faultless_pair(s, i, j - 1);
    }
}

} // verus!
