//! Two triangles of the plane, with whole coordinates: unless an edge of one
//! separates them, they have a point in common.

use crate::mesh::bvh::displaced::sign;
use crate::mesh::meeting::lemma_minors;
use vstd::arithmetic::mul::*;
use vstd::prelude::*;

verus! {

/// A point of the plane.
pub struct Spot {
    /// Along the first axis.
    pub x: int,
    /// Along the second.
    pub y: int,
}

/// Twice the signed area of the triangle `p q r`.
#[verifier::opaque]
pub open spec fn area(p: Spot, q: Spot, r: Spot) -> int {
    (p.x - r.x) * (q.y - r.y) - (p.y - r.y) * (q.x - r.x)
}

/// The cross product of the ways from one point to two others.
pub open spec fn span(o: Spot, p: Spot, q: Spot) -> int {
    (p.x - o.x) * (q.y - o.y) - (p.y - o.y) * (q.x - o.x)
}

/// The area keeps its value when the corners are turned round, and its opposite is
/// that of two exchanged.
pub(crate) proof fn lemma_area_turns(p: Spot, q: Spot, r: Spot)
    ensures
        area(p, q, r) == area(q, r, p),
        area(p, q, r) == area(r, p, q),
        area(q, p, r) == -area(p, q, r),
        area(p, r, q) == -area(p, q, r),
        area(r, q, p) == -area(p, q, r),
        area(p, q, r) == span(p, q, r),
        area(p, q, r) == span(r, p, q),
{
    reveal(area);
    let (a, b, c, d, e, f) = (p.x, q.x, r.x, p.y, q.y, r.y);
    let (ae, af, bd, bf, cd, ce) = (a * e, a * f, b * d, b * f, c * d, c * e);
    lemma_mul_is_commutative(a, e);
    lemma_mul_is_commutative(a, f);
    lemma_mul_is_commutative(b, d);
    lemma_mul_is_commutative(b, f);
    lemma_mul_is_commutative(c, d);
    lemma_mul_is_commutative(c, e);
    assert((a - c) * (e - f) == a * e - a * f - c * e + c * f) by (nonlinear_arith);
    assert((d - f) * (b - c) == b * d - c * d - b * f + c * f) by (nonlinear_arith);
    assert((b - a) * (f - d) == b * f - b * d - a * f + a * d) by (nonlinear_arith);
    assert((e - d) * (c - a) == c * e - a * e - c * d + a * d) by (nonlinear_arith);
    assert((c - b) * (d - e) == c * d - c * e - b * d + b * e) by (nonlinear_arith);
    assert((f - e) * (a - b) == a * f - b * f - a * e + b * e) by (nonlinear_arith);
    assert((b - c) * (d - f) == b * d - b * f - c * d + c * f) by (nonlinear_arith);
    assert((e - f) * (a - c) == a * e - c * e - a * f + c * f) by (nonlinear_arith);
    assert((a - b) * (f - e) == a * f - a * e - b * f + b * e) by (nonlinear_arith);
    assert((d - e) * (c - b) == c * d - b * d - c * e + b * e) by (nonlinear_arith);
    assert((c - a) * (e - d) == c * e - c * d - a * e + a * d) by (nonlinear_arith);
    assert((f - d) * (b - a) == b * f - a * f - b * d + a * d) by (nonlinear_arith);
}

/// Four points of the plane hang together: by weights that sum to nothing.
pub proof fn lemma_dependency(p: Spot, q: Spot, r: Spot, s: Spot)
    ensures
        area(q, r, s) - area(p, r, s) + area(p, q, s) - area(p, q, r) == 0,
        area(q, r, s) * p.x - area(p, r, s) * q.x + area(p, q, s) * r.x - area(p, q, r) * s.x == 0,
        area(q, r, s) * p.y - area(p, r, s) * q.y + area(p, q, s) * r.y - area(p, q, r) * s.y == 0,
{
    let (ux, uy, vx, vy, wx, wy) = (p.x - s.x, p.y - s.y, q.x - s.x, q.y - s.y, r.x - s.x, r.y - s.y);
    let (vw, uw, uv) = (vx * wy - vy * wx, ux * wy - uy * wx, ux * vy - uy * vx);
    assert(area(q, r, s) == vw && area(p, r, s) == uw && area(p, q, s) == uv) by {
        reveal(area);
    }
    assert(area(p, q, r) == uv + vw - uw) by {
        reveal(area);
        assert((ux - wx) * (vy - wy) == ux * vy - ux * wy - wx * vy + wx * wy) by (nonlinear_arith);
        assert((uy - wy) * (vx - wx) == uy * vx - uy * wx - wy * vx + wy * wx) by (nonlinear_arith);
        lemma_mul_is_commutative(wx, vy);
        lemma_mul_is_commutative(wy, vx);
        lemma_mul_is_commutative(wx, wy);
    }
    lemma_minors(ux, uy, vx, vy, wx, wy);
    lemma_minors(uy, ux, vy, vx, wy, wx);
    lemma_mul_is_commutative(wx, uy);
    lemma_mul_is_commutative(wy, ux);
    assert(wx * uy - wy * ux == -uw);
    assert(vw * ux + (-uw) * vx + uv * wx == 0);
    lemma_mul_is_commutative(vy, wx);
    lemma_mul_is_commutative(vx, wy);
    lemma_mul_is_commutative(uy, vx);
    lemma_mul_is_commutative(ux, vy);
    assert(vy * wx - vx * wy == -vw);
    assert(wy * ux - wx * uy == uw);
    assert(uy * vx - ux * vy == -uv);
    assert((-vw) * uy + uw * vy + (-uv) * wy == 0);
    assert((-vw) * uy == -(vw * uy) && (-uv) * wy == -(uv * wy)) by (nonlinear_arith);
    assert((-uw) * vx == -(uw * vx)) by (nonlinear_arith);
    lemma_shifted(vw, uw, uv, ux, vx, wx, s.x);
    lemma_shifted(vw, uw, uv, uy, vy, wy, s.y);
}

proof fn lemma_shifted(vw: int, uw: int, uv: int, u: int, v: int, w: int, s: int)
    requires
        vw * u - uw * v + uv * w == 0,
    ensures
        vw * (u + s) - uw * (v + s) + uv * (w + s) - (uv + vw - uw) * s == 0,
{
    lemma_mul_is_distributive_add(vw, u, s);
    lemma_mul_is_distributive_add(uw, v, s);
    lemma_mul_is_distributive_add(uv, w, s);
    assert((uv + vw - uw) * s == uv * s + vw * s - uw * s) by (nonlinear_arith);
}

/// The relation of five points, as one of them sees the four others.
proof fn lemma_five_seen(a: Spot, b: Spot, c: Spot, d: Spot, e: Spot)
    ensures
        area(a, b, c) * area(a, d, e) - area(a, b, d) * area(a, c, e) + area(a, b, e) * area(a, c, d) == 0,
{
    let (ux, uy, vx, vy) = (b.x - a.x, b.y - a.y, c.x - a.x, c.y - a.y);
    let (wx, wy, zx, zy) = (d.x - a.x, d.y - a.y, e.x - a.x, e.y - a.y);
    lemma_area_turns(a, b, c);
    lemma_area_turns(a, d, e);
    lemma_area_turns(a, b, d);
    lemma_area_turns(a, c, e);
    lemma_area_turns(a, b, e);
    lemma_area_turns(a, c, d);
    let (uv, uw, vw) = (ux * vy - uy * vx, ux * wy - uy * wx, vx * wy - vy * wx);
    lemma_minors(ux, uy, vx, vy, wx, wy);
    lemma_minors(uy, ux, vy, vx, wy, wx);
    lemma_mul_is_commutative(wx, uy);
    lemma_mul_is_commutative(wy, ux);
    lemma_mul_is_commutative(vy, wx);
    lemma_mul_is_commutative(vx, wy);
    lemma_mul_is_commutative(uy, vx);
    lemma_mul_is_commutative(ux, vy);
    let mx = vw * ux - uw * vx + uv * wx;
    let my = vw * uy - uw * vy + uv * wy;
    assert(wx * uy - wy * ux == -uw);
    assert((-uw) * vx == -(uw * vx)) by (nonlinear_arith);
    assert(mx == 0);
    assert(vy * wx - vx * wy == -vw && wy * ux - wx * uy == uw && uy * vx - ux * vy == -uv);
    assert((-vw) * uy == -(vw * uy) && (-uv) * wy == -(uv * wy)) by (nonlinear_arith);
    assert(my == 0);
    lemma_paired(uv, wx, wy, zx, zy);
    lemma_paired(uw, vx, vy, zx, zy);
    lemma_paired(vw, ux, uy, zx, zy);
    lemma_mul_is_commutative(ux * zy - uy * zx, vw);
    lemma_gathered(vw * ux, uw * vx, uv * wx, zy);
    lemma_gathered(vw * uy, uw * vy, uv * wy, zx);
}

proof fn lemma_paired(k: int, px: int, py: int, zx: int, zy: int)
    ensures
        k * (px * zy - py * zx) == (k * px) * zy - (k * py) * zx,
{
    lemma_mul_is_distributive_sub(k, px * zy, py * zx);
    lemma_mul_is_associative(k, px, zy);
    lemma_mul_is_associative(k, py, zx);
}

proof fn lemma_gathered(a: int, b: int, c: int, z: int)
    requires
        a - b + c == 0,
    ensures
        a * z - b * z + c * z == 0,
{
    assert(a * z - b * z + c * z == (a - b + c) * z) by (nonlinear_arith);
}

/// The sign of a product, by those of its factors.
pub open spec fn times(a: int, b: int) -> int {
    if a == 0 || b == 0 {
        0
    } else if a == b {
        1
    } else {
        -1
    }
}

/// Numbers of these signs can sum to nothing.
pub open spec fn balanced(a: int, b: int, c: int) -> bool {
    (a == 0 && b == 0 && c == 0) || ((a > 0 || b > 0 || c > 0) && (a < 0 || b < 0 || c < 0))
}

/// The same of four numbers.
spec fn balanced_four(a: int, b: int, c: int, d: int) -> bool {
    (a == 0 && b == 0 && c == 0 && d == 0) || ((a > 0 || b > 0 || c > 0 || d > 0) && (a < 0 || b < 0 || c < 0 || d < 0))
}

pub proof fn lemma_sign_of_product(x: int, y: int)
    ensures
        sign(x * y) == times(sign(x), sign(y)),
{
    if x > 0 && y > 0 {
        assert(x * y > 0) by (nonlinear_arith)
            requires
                x > 0,
                y > 0,
        ;
    } else if x < 0 && y < 0 {
        assert(x * y > 0) by (nonlinear_arith)
            requires
                x < 0,
                y < 0,
        ;
    } else if x > 0 && y < 0 {
        assert(x * y < 0) by (nonlinear_arith)
            requires
                x > 0,
                y < 0,
        ;
    } else if x < 0 && y > 0 {
        assert(x * y < 0) by (nonlinear_arith)
            requires
                x < 0,
                y > 0,
        ;
    } else {
        assert(x * y == 0) by (nonlinear_arith)
            requires
                x == 0 || y == 0,
        ;
    }
}

/// The sign of an area.
spec fn way(p: Spot, q: Spot, r: Spot) -> int {
    sign(area(p, q, r))
}

/// What the signs of five points obey, as the first sees the others.
spec fn seen(a: Spot, b: Spot, c: Spot, d: Spot, e: Spot) -> bool {
    balanced(
        times(way(a, b, c), way(a, d, e)),
        -times(way(a, b, d), way(a, c, e)),
        times(way(a, b, e), way(a, c, d)),
    )
}

/// What the signs of four points obey.
spec fn hanging(a: Spot, b: Spot, c: Spot, d: Spot) -> bool {
    balanced_four(way(b, c, d), -way(a, c, d), way(a, b, d), -way(a, b, c))
}

proof fn lemma_seen(a: Spot, b: Spot, c: Spot, d: Spot, e: Spot)
    ensures
        seen(a, b, c, d, e),
{
    lemma_five_seen(a, b, c, d, e);
    lemma_sign_of_product(area(a, b, c), area(a, d, e));
    lemma_sign_of_product(area(a, b, d), area(a, c, e));
    lemma_sign_of_product(area(a, b, e), area(a, c, d));
}

/// Exchanging corners, in signs.
spec fn alternating(p: Spot, q: Spot, r: Spot) -> bool {
    &&& way(p, q, r) == way(q, r, p)
    &&& way(p, q, r) == way(r, p, q)
    &&& way(q, p, r) == -way(p, q, r)
    &&& way(p, r, q) == -way(p, q, r)
    &&& way(r, q, p) == -way(p, q, r)
}

proof fn lemma_alternating(p: Spot, q: Spot, r: Spot)
    ensures
        alternating(p, q, r),
{
    lemma_area_turns(p, q, r);
}

/// What the signs of five points obey.
proof fn lemma_five(a: Spot, b: Spot, c: Spot, d: Spot, e: Spot)
    ensures
        seen(a, b, c, d, e),
        seen(b, a, c, d, e),
        seen(c, a, b, d, e),
        seen(d, a, b, c, e),
        seen(e, a, b, c, d),
        hanging(a, b, c, d),
        hanging(a, b, c, e),
        hanging(a, b, d, e),
        hanging(a, c, d, e),
        hanging(b, c, d, e),
        alternating(a, b, c),
        alternating(a, b, d),
        alternating(a, b, e),
        alternating(a, c, d),
        alternating(a, c, e),
        alternating(a, d, e),
        alternating(b, c, d),
        alternating(b, c, e),
        alternating(b, d, e),
        alternating(c, d, e),
{
    lemma_seen(a, b, c, d, e);
    lemma_seen(b, a, c, d, e);
    lemma_seen(c, a, b, d, e);
    lemma_seen(d, a, b, c, e);
    lemma_seen(e, a, b, c, d);
    lemma_dependency(a, b, c, d);
    lemma_dependency(a, b, c, e);
    lemma_dependency(a, b, d, e);
    lemma_dependency(a, c, d, e);
    lemma_dependency(b, c, d, e);
    lemma_alternating(a, b, c);
    lemma_alternating(a, b, d);
    lemma_alternating(a, b, e);
    lemma_alternating(a, c, d);
    lemma_alternating(a, c, e);
    lemma_alternating(a, d, e);
    lemma_alternating(b, c, d);
    lemma_alternating(b, c, e);
    lemma_alternating(b, d, e);
    lemma_alternating(c, d, e);
}

/// A triangle of the plane.
pub struct Trio {
    /// The first corner.
    pub a: Spot,
    /// The second.
    pub b: Spot,
    /// The third.
    pub c: Spot,
}

/// The triangle holds the point, boundary included.
spec fn holding(t: Trio, p: Spot) -> bool {
    way(t.a, t.b, p) >= 0 && way(t.b, t.c, p) >= 0 && way(t.c, t.a, p) >= 0
}

/// The triangle lies strictly to the right of the line from `p` to `q`.
pub open spec fn beyond(p: Spot, q: Spot, t: Trio) -> bool {
    area(p, q, t.a) < 0 && area(p, q, t.b) < 0 && area(p, q, t.c) < 0
}

/// An edge of the first triangle separates it from the second.
pub open spec fn parted_by(s: Trio, t: Trio) -> bool {
    beyond(s.a, s.b, t) || beyond(s.b, s.c, t) || beyond(s.c, s.a, t)
}

/// Two segments cross or touch, and do not lie on one line.
spec fn crossing(p: Spot, q: Spot, r: Spot, s: Spot) -> bool {
    ||| way(p, q, r) >= 0 && way(p, q, s) <= 0 && way(r, s, q) >= 0 && way(r, s, p) <= 0 && (way(p, q, r) > 0 || way(p, q, s) < 0)
    ||| way(p, q, r) <= 0 && way(p, q, s) >= 0 && way(r, s, q) <= 0 && way(r, s, p) >= 0 && (way(p, q, r) < 0 || way(p, q, s) > 0)
}

/// An edge crosses an edge of the triangle.
spec fn crossing_some(p: Spot, q: Spot, t: Trio) -> bool {
    crossing(p, q, t.a, t.b) || crossing(p, q, t.b, t.c) || crossing(p, q, t.c, t.a)
}

/// Unless an edge separates two triangles, a corner of one lies in the other or two
/// of their edges cross.
#[verifier::rlimit(100)]
#[verifier::spinoff_prover]
proof fn lemma_contact(s: Trio, t: Trio)
    requires
        way(s.a, s.b, s.c) == 1,
        way(t.a, t.b, t.c) == 1,
        !parted_by(s, t),
        !parted_by(t, s),
    ensures
        holding(s, t.a) || holding(s, t.b) || holding(s, t.c) || holding(t, s.a) || holding(t, s.b) || holding(t, s.c)
            || crossing_some(s.a, s.b, t) || crossing_some(s.b, s.c, t) || crossing_some(s.c, s.a, t),
{
    lemma_five(s.a, s.b, s.c, t.a, t.b);
    lemma_five(s.a, s.b, s.c, t.a, t.c);
    lemma_five(s.a, s.b, s.c, t.b, t.c);
    lemma_five(s.a, s.b, t.a, t.b, t.c);
    lemma_five(s.a, s.c, t.a, t.b, t.c);
    lemma_five(s.b, s.c, t.a, t.b, t.c);
}

/// Weights of the corners of a triangle: none negative.
pub struct Weights {
    /// That of the first corner.
    pub a: int,
    /// That of the second.
    pub b: int,
    /// That of the third.
    pub c: int,
}

impl Weights {
    /// No weight is negative, and some is positive.
    pub open spec fn proper(self) -> bool {
        self.a >= 0 && self.b >= 0 && self.c >= 0 && self.total() > 0
    }

    /// All weights together.
    pub open spec fn total(self) -> int {
        self.a + self.b + self.c
    }

    /// The weighted sum of three numbers.
    pub open spec fn over(self, x: int, y: int, z: int) -> int {
        self.a * x + self.b * y + self.c * z
    }
}

/// The weights give the same point of both triangles.
pub open spec fn same_spot(s: Trio, t: Trio, l: Weights, m: Weights) -> bool {
    &&& l.proper()
    &&& m.proper()
    &&& l.total() == m.total()
    &&& l.over(s.a.x, s.b.x, s.c.x) == m.over(t.a.x, t.b.x, t.c.x)
    &&& l.over(s.a.y, s.b.y, s.c.y) == m.over(t.a.y, t.b.y, t.c.y)
}

/// The triangles have a point in common.
pub open spec fn meeting(s: Trio, t: Trio) -> bool {
    exists|l: Weights, m: Weights| #[trigger] same_spot(s, t, l, m)
}

pub(crate) proof fn lemma_meeting_turns(s: Trio, t: Trio)
    requires
        meeting(s, t),
    ensures
        meeting(t, s),
        meeting(Trio { a: s.b, b: s.c, c: s.a }, t),
        meeting(Trio { a: s.a, b: s.c, c: s.b }, t),
{
    let (l, m) = choose|l: Weights, m: Weights| #[trigger] same_spot(s, t, l, m);
    assert(same_spot(t, s, m, l));
    assert(same_spot(Trio { a: s.b, b: s.c, c: s.a }, t, Weights { a: l.b, b: l.c, c: l.a }, m));
    assert(same_spot(Trio { a: s.a, b: s.c, c: s.b }, t, Weights { a: l.a, b: l.c, c: l.b }, m));
}

/// A corner that the other triangle holds is in common.
proof fn lemma_held_is_common(s: Trio, t: Trio)
    requires
        area(s.a, s.b, s.c) > 0,
        holding(s, t.a),
    ensures
        meeting(s, t),
{
    let p = t.a;
    let l = Weights { a: area(s.b, s.c, p), b: area(s.c, s.a, p), c: area(s.a, s.b, p) };
    let m = Weights { a: area(s.a, s.b, s.c), b: 0, c: 0 };
    lemma_dependency(s.a, s.b, s.c, p);
    lemma_area_turns(s.a, s.c, p);
    assert(l.b == -area(s.a, s.c, p));
    let k = area(s.a, s.c, p);
    assert(l.b * s.b.x == -(k * s.b.x) && l.b * s.b.y == -(k * s.b.y)) by (nonlinear_arith)
        requires
            l.b == -k,
    ;
    lemma_nothing(t.b.x);
    lemma_nothing(t.c.x);
    lemma_nothing(t.b.y);
    lemma_nothing(t.c.y);
    assert(same_spot(s, t, l, m));
}

proof fn lemma_nothing(x: int)
    ensures
        0 * x == 0,
{
}

/// Edges that cross have a point in common.
proof fn lemma_crossing_is_common(s: Trio, t: Trio)
    requires
        crossing(s.a, s.b, t.a, t.b),
    ensures
        meeting(s, t),
{
    let (p, q, r, v) = (s.a, s.b, t.a, t.b);
    let (e, f, g, h) = (area(q, r, v), area(p, r, v), area(p, q, v), area(p, q, r));
    lemma_dependency(p, q, r, v);
    lemma_area_turns(q, r, v);
    lemma_area_turns(p, r, v);
    assert(area(r, v, q) == e && area(r, v, p) == f);
    lemma_nothing(s.c.x);
    lemma_nothing(s.c.y);
    lemma_nothing(t.c.x);
    lemma_nothing(t.c.y);
    lemma_opposite(f, q.x);
    lemma_opposite(f, q.y);
    lemma_opposite(g, r.x);
    lemma_opposite(g, r.y);
    lemma_opposite(e, p.x);
    lemma_opposite(e, p.y);
    lemma_opposite(h, v.x);
    lemma_opposite(h, v.y);
    if h >= 0 && g <= 0 && e >= 0 && f <= 0 && (h > 0 || g < 0) {
        assert(same_spot(s, t, Weights { a: e, b: -f, c: 0 }, Weights { a: -g, b: h, c: 0 }));
    } else {
        assert(same_spot(s, t, Weights { a: -e, b: f, c: 0 }, Weights { a: g, b: -h, c: 0 }));
    }
}

proof fn lemma_opposite(k: int, x: int)
    ensures
        (-k) * x == -(k * x),
{
    assert((-k) * x == -(k * x)) by (nonlinear_arith);
}

/// An edge that crosses some edge of the other triangle has a point in common with
/// it.
proof fn lemma_some_crossing_is_common(s: Trio, t: Trio)
    requires
        crossing_some(s.a, s.b, t),
    ensures
        meeting(s, t),
{
    let t1 = Trio { a: t.b, b: t.c, c: t.a };
    let t2 = Trio { a: t.c, b: t.a, c: t.b };
    if crossing(s.a, s.b, t.a, t.b) {
        lemma_crossing_is_common(s, t);
    } else if crossing(s.a, s.b, t.b, t.c) {
        lemma_crossing_is_common(s, t1);
        lemma_turn_second(s, t1);
        lemma_turn_second(s, t2);
    } else {
        lemma_crossing_is_common(s, t2);
        lemma_turn_second(s, t2);
    }
}

/// The area with two points fixed is a weighted sum with the weights.
proof fn lemma_area_is_linear(p: Spot, q: Spot, t: Trio, w: Weights)
    ensures
        w.over(area(p, q, t.a), area(p, q, t.b), area(p, q, t.c)) == (q.x - p.x) * w.over(t.a.y, t.b.y, t.c.y) - (q.y
            - p.y) * w.over(t.a.x, t.b.x, t.c.x) + w.total() * (p.x * q.y - p.y * q.x),
{
    lemma_area_of(p, q, t.a);
    lemma_area_of(p, q, t.b);
    lemma_area_of(p, q, t.c);
    let (dx, dy, k) = (q.x - p.x, q.y - p.y, p.x * q.y - p.y * q.x);
    lemma_weighted(w.a, dx, dy, k, t.a.x, t.a.y);
    lemma_weighted(w.b, dx, dy, k, t.b.x, t.b.y);
    lemma_weighted(w.c, dx, dy, k, t.c.x, t.c.y);
    assert(dx * (w.a * t.a.y + w.b * t.b.y + w.c * t.c.y) == dx * (w.a * t.a.y) + dx * (w.b * t.b.y) + dx * (w.c * t.c.y))
        by (nonlinear_arith);
    assert(dy * (w.a * t.a.x + w.b * t.b.x + w.c * t.c.x) == dy * (w.a * t.a.x) + dy * (w.b * t.b.x) + dy * (w.c * t.c.x))
        by (nonlinear_arith);
    assert((w.a + w.b + w.c) * k == w.a * k + w.b * k + w.c * k) by (nonlinear_arith);
}

proof fn lemma_area_of(p: Spot, q: Spot, r: Spot)
    ensures
        area(p, q, r) == (q.x - p.x) * r.y - (q.y - p.y) * r.x + (p.x * q.y - p.y * q.x),
{
    reveal(area);
    assert((p.x - r.x) * (q.y - r.y) == p.x * q.y - p.x * r.y - r.x * q.y + r.x * r.y) by (nonlinear_arith);
    assert((p.y - r.y) * (q.x - r.x) == p.y * q.x - p.y * r.x - r.y * q.x + r.x * r.y) by (nonlinear_arith);
    assert((q.x - p.x) * r.y == r.y * q.x - p.x * r.y) by (nonlinear_arith);
    assert((q.y - p.y) * r.x == r.x * q.y - p.y * r.x) by (nonlinear_arith);
}

proof fn lemma_weighted(w: int, dx: int, dy: int, k: int, x: int, y: int)
    ensures
        w * (dx * y - dy * x + k) == dx * (w * y) - dy * (w * x) + w * k,
{
    let (a, b) = (dx * y, dy * x);
    assert(w * (a - b + k) == w * a - w * b + w * k) by (nonlinear_arith);
    assert(w * (dx * y) == dx * (w * y)) by (nonlinear_arith);
    assert(w * (dy * x) == dy * (w * x)) by (nonlinear_arith);
}

/// Triangles with a point in common are not separated by an edge of the first.
proof fn lemma_common_is_not_parted(s: Trio, t: Trio)
    requires
        area(s.a, s.b, s.c) >= 0,
        meeting(s, t),
    ensures
        !beyond(s.a, s.b, t),
{
    let (l, m) = choose|l: Weights, m: Weights| #[trigger] same_spot(s, t, l, m);
    if beyond(s.a, s.b, t) {
        lemma_area_is_linear(s.a, s.b, s, l);
        lemma_area_is_linear(s.a, s.b, t, m);
        lemma_area_of(s.a, s.b, s.a);
        lemma_area_of(s.a, s.b, s.b);
        assert(area(s.a, s.b, s.a) == 0 && area(s.a, s.b, s.b) == 0) by {
            lemma_area_turns(s.a, s.a, s.b);
            lemma_area_turns(s.a, s.b, s.a);
            lemma_area_turns(s.a, s.b, s.b);
            lemma_area_turns(s.b, s.b, s.a);
        }
        let (x, y, z, w) = (area(s.a, s.b, t.a), area(s.a, s.b, t.b), area(s.a, s.b, t.c), area(s.a, s.b, s.c));
        assert(l.a * 0 + l.b * 0 + l.c * w >= 0) by (nonlinear_arith)
            requires
                l.c >= 0,
                w >= 0,
        ;
        assert(m.a * x + m.b * y + m.c * z < 0) by (nonlinear_arith)
            requires
                m.a >= 0 && m.b >= 0 && m.c >= 0 && m.a + m.b + m.c > 0,
                x < 0 && y < 0 && z < 0,
        ;
    }
}

/// Two triangles of the plane, both turned counter-clockwise, have a point in
/// common exactly if no edge of either separates them.
pub proof fn law_plane_triangles_meet(s: Trio, t: Trio)
    requires
        area(s.a, s.b, s.c) > 0,
        area(t.a, t.b, t.c) > 0,
    ensures
        meeting(s, t) <==> !parted_by(s, t) && !parted_by(t, s),
{
    let (s1, s2) = (Trio { a: s.b, b: s.c, c: s.a }, Trio { a: s.c, b: s.a, c: s.b });
    let (t1, t2) = (Trio { a: t.b, b: t.c, c: t.a }, Trio { a: t.c, b: t.a, c: t.b });
    lemma_area_turns(s.a, s.b, s.c);
    lemma_area_turns(t.a, t.b, t.c);
    if meeting(s, t) {
        lemma_meeting_turns(s, t);
        lemma_meeting_turns(s1, t);
        lemma_meeting_turns(t, s);
        lemma_meeting_turns(t1, s);
        lemma_common_is_not_parted(s, t);
        lemma_common_is_not_parted(s1, t);
        lemma_common_is_not_parted(s2, t);
        lemma_common_is_not_parted(t, s);
        lemma_common_is_not_parted(t1, s);
        lemma_common_is_not_parted(t2, s);
    }
    if !parted_by(s, t) && !parted_by(t, s) {
        lemma_contact(s, t);
        lemma_touch(s, t);
    }
}

proof fn lemma_touch(s: Trio, t: Trio)
    requires
        area(s.a, s.b, s.c) > 0,
        area(t.a, t.b, t.c) > 0,
        holding(s, t.a) || holding(s, t.b) || holding(s, t.c) || holding(t, s.a) || holding(t, s.b) || holding(t, s.c)
            || crossing_some(s.a, s.b, t) || crossing_some(s.b, s.c, t) || crossing_some(s.c, s.a, t),
    ensures
        meeting(s, t),
{
    let (s1, s2) = (Trio { a: s.b, b: s.c, c: s.a }, Trio { a: s.c, b: s.a, c: s.b });
    let (t1, t2) = (Trio { a: t.b, b: t.c, c: t.a }, Trio { a: t.c, b: t.a, c: t.b });
    if holding(s, t.a) {
        lemma_held_is_common(s, t);
    } else if holding(s, t.b) {
        lemma_held_is_common(s, t1);
        lemma_turn_second(s, t1);
        lemma_turn_second(s, t2);
    } else if holding(s, t.c) {
        lemma_held_is_common(s, t2);
        lemma_turn_second(s, t2);
    } else if holding(t, s.a) {
        lemma_held_is_common(t, s);
        lemma_meeting_turns(t, s);
    } else if holding(t, s.b) {
        lemma_held_is_common(t, s1);
        lemma_turn_second(t, s1);
        lemma_turn_second(t, s2);
        lemma_meeting_turns(t, s);
    } else if holding(t, s.c) {
        lemma_held_is_common(t, s2);
        lemma_turn_second(t, s2);
        lemma_meeting_turns(t, s);
    } else if crossing_some(s.a, s.b, t) {
        lemma_some_crossing_is_common(s, t);
    } else if crossing_some(s.b, s.c, t) {
        lemma_some_crossing_is_common(s1, t);
        lemma_meeting_turns(s1, t);
        lemma_meeting_turns(s2, t);
    } else {
        lemma_some_crossing_is_common(s2, t);
        lemma_meeting_turns(s2, t);
    }
}

proof fn lemma_turn_second(s: Trio, t: Trio)
    requires
        meeting(s, t),
    ensures
        meeting(s, Trio { a: t.b, b: t.c, c: t.a }),
{
    lemma_meeting_turns(s, t);
    lemma_meeting_turns(t, s);
    lemma_meeting_turns(Trio { a: t.b, b: t.c, c: t.a }, s);
}

} // verus!
