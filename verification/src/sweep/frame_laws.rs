//! What the frame of a level motion is: distances from the line of the motion and
//! along it, by exact products.

use crate::arithmetic::{difference, product, quotient};
use crate::double::{Double, HIDDEN, INFINITY_BITS, SIGN};
use crate::error_bounds::{
    law_difference_error, law_product_is_under, law_quotient_error, law_sum_is_under, law_two_products_error,
    lemma_magnitude_not_negative, lemma_size_of_product, parts, size, under, whole,
};
use crate::math::Ray;
use crate::mesh::sphere::lemma_rounds_at_most;
use crate::order::law_order_is_value_order;
use crate::sweep::arc::DEGENERATE;
use crate::sweep::arc_laws::{holds, lemma_crossing_is_finite, lemma_degenerate, moderate_plane};
use crate::sweep::horizontal::{dot2, framed, slab_of};
use crate::sweep::LinearMove;
use vstd::arithmetic::mul::*;
use vstd::arithmetic::power2::{lemma_pow2_adds, lemma_pow2_pos, lemma_pow2_strictly_increases, pow2};
use vstd::prelude::*;

verus! {

/// A projection onto a rounded direction, against the exact one: `p` times the
/// length is the product of the way with the displacement.
proof fn lemma_projection(
    p: int,
    p1: int,
    p2: int,
    v1: int,
    v2: int,
    x1: int,
    x2: int,
    g1: int,
    g2: int,
    l: int,
    w: int,
)
    requires
        w > 0,
        l > 0,
        size(p * w - (p1 * v1 + p2 * v2)) * parts() <= 3 * (size(p1 * v1) + size(p2 * v2)) + 2 * parts() * w,
        size(v1 * l - g1 * w) * parts() <= size(g1) * w + HIDDEN * l,
        size(v2 * l - g2 * w) * parts() <= size(g2) * w + HIDDEN * l,
        size(p1 - x1) * parts() <= size(x1),
        size(p2 - x2) * parts() <= size(x2),
    ensures
        size(p * l - (x1 * g1 + x2 * g2)) * w * parts() <= 15 * w * (size(x1 * g1) + size(x2 * g2)) + 2 * parts() * l * (
        size(x1) + size(x2) + w),
{
    let k = parts();
    let (d1, d2) = (p1 * v1 * l - x1 * g1 * w, p2 * v2 * l - x2 * g2 * w);
    lemma_projected_term(p1, v1, x1, g1, l, w);
    lemma_projected_term(p2, v2, x2, g2, l, w);
    let e = p * w - (p1 * v1 + p2 * v2);
    let total = p * l - (x1 * g1 + x2 * g2);
    let (q1, q2, r1, r2) = (p1 * v1, p2 * v2, x1 * g1, x2 * g2);
    assert(total * w == (p * l) * w - r1 * w - r2 * w) by (nonlinear_arith)
        requires
            total == p * l - (r1 + r2),
    ;
    assert(e * l == (p * w) * l - q1 * l - q2 * l) by (nonlinear_arith)
        requires
            e == p * w - (q1 + q2),
    ;
    assert((p * l) * w == (p * w) * l) by (nonlinear_arith);
    assert(total * w == e * l + d1 + d2);
    lemma_size_of_product(total, w);
    lemma_size_of_product(e, l);
    let (m1, m2) = (size(p1 * v1), size(p2 * v2));
    assert(size(e) * l * k <= 3 * (m1 * l) + 3 * (m2 * l) + 2 * k * w * l) by (nonlinear_arith)
        requires
            size(e) * k <= 3 * (m1 + m2) + 2 * k * w,
            l > 0,
    ;
    assert(size(total * w) <= size(e * l) + size(d1) + size(d2));
    assert(size(total) * w * k <= size(e) * l * k + size(d1) * k + size(d2) * k) by (nonlinear_arith)
        requires
            size(total) * w <= size(e) * l + size(d1) + size(d2),
            k > 0,
    ;
    let (a1, a2, b1, b2) = (size(x1 * g1), size(x2 * g2), size(x1), size(x2));
    assert(15 * w * (a1 + a2) == 15 * (w * a1) + 15 * (w * a2)) by (nonlinear_arith);
    assert(2 * k * l * (b1 + b2 + w) == 2 * (k * (l * b1)) + 2 * (k * (l * b2)) + 2 * k * w * l) by (nonlinear_arith);
    assert(6 * (l * b1) <= k * (l * b1) && 6 * (l * b2) <= k * (l * b2)) by (nonlinear_arith)
        requires
            l > 0,
            b1 >= 0,
            b2 >= 0,
            k >= 6,
    ;
}

/// One term of a projection.
proof fn lemma_projected_term(p: int, v: int, x: int, g: int, l: int, w: int)
    requires
        w > 0,
        l > 0,
        size(v * l - g * w) * parts() <= size(g) * w + HIDDEN * l,
        size(p - x) * parts() <= size(x),
    ensures
        size(p * v * l - x * g * w) * parts() <= 3 * (w * size(x * g)) + parts() * (l * size(x)),
        size(p * v) * l <= 4 * (w * size(x * g)) + 2 * (l * size(x)),
{
    let k = parts();
    let h = HIDDEN as int;
    let e = v * l - g * w;
    let f = p - x;
    let (xs, gs) = (size(x), size(g));
    lemma_mul_is_associative(p, v, l);
    lemma_mul_is_distributive_sub(p, v * l, g * w);
    assert(f * g == p * g - x * g) by (nonlinear_arith)
        requires
            f == p - x,
    ;
    lemma_mul_is_distributive_sub(w, p * g, x * g);
    assert(p * (g * w) == w * (p * g)) by (nonlinear_arith);
    lemma_mul_is_commutative(w, x * g);
    assert(p * v * l - x * g * w == p * e + w * (f * g));
    lemma_size_of_product(p, e);
    lemma_size_of_product(f, g);
    lemma_size_of_product(w, f * g);
    lemma_size_of_product(x, g);
    lemma_size_of_product(p, v);
    assert(size(f) <= size(f) * k) by (nonlinear_arith)
        requires
            size(f) >= 0,
            k >= 1,
    ;
    assert(size(p) <= 2 * xs);
    assert(size(p) * size(e) * k <= 2 * xs * (gs * w + h * l)) by (nonlinear_arith)
        requires
            0 <= size(p) <= 2 * xs,
            size(e) * k <= gs * w + h * l,
            size(e) >= 0,
            k > 0,
    ;
    assert(w * (size(f) * gs) * k <= w * (xs * gs)) by (nonlinear_arith)
        requires
            size(f) * k <= xs,
            gs >= 0,
            w > 0,
    ;
    let d = size(p * v * l - x * g * w);
    assert(d <= size(p) * size(e) + w * (size(f) * gs));
    assert(d * k <= size(p) * size(e) * k + w * (size(f) * gs) * k) by (nonlinear_arith)
        requires
            d <= size(p) * size(e) + w * (size(f) * gs),
            k > 0,
    ;
    assert(2 * xs * (gs * w + h * l) == 2 * (w * (xs * gs)) + k * (l * xs)) by (nonlinear_arith)
        requires
            k == 2 * h,
    ;
    assert(size(v) * l <= 2 * (gs * w) + l) by {
        lemma_size_of_product(v, l);
        lemma_size_of_product(g, w);
        assert(size(e) * k <= gs * w + h * l);
        assert(size(e) <= gs * w + l) by (nonlinear_arith)
            requires
                size(e) * k <= gs * w + h * l,
                k == 2 * h,
                h >= 1,
                gs * w >= 0,
                l > 0,
                size(e) >= 0,
        ;
    }
    assert(size(p) * size(v) * l <= 2 * xs * (2 * (gs * w) + l)) by (nonlinear_arith)
        requires
            0 <= size(p) <= 2 * xs,
            size(v) * l <= 2 * (gs * w) + l,
            size(v) * l >= 0,
    ;
    assert(2 * xs * (2 * (gs * w) + l) == 4 * (w * (xs * gs)) + 2 * (l * xs)) by (nonlinear_arith);
}

/// A component of a displacement over its length, against the exact one.
spec fn normalized(v: Double, g: int, l: Double) -> bool {
    size(v.value() * l.value() - g * whole()) * parts() <= size(g) * whole() + HIDDEN * l.value()
}

proof fn lemma_normalized(s: Double, l: Double)
    requires
        under(s, 1275),
        under(l, 1480),
        l.magnitude() >= pow2(1034),
        !l.signed(),
    ensures
        under(quotient(s, l), 1320),
        normalized(quotient(s, l), s.value(), l),
        normalized(quotient(s, l).negated(), -s.value(), l),
        under(quotient(s, l).negated(), 1320),
{
    lemma_pow2_pos(1074);
    lemma_pow2_pos(1034);
    lemma_magnitude_not_negative(s);
    lemma_magnitude_not_negative(l);
    let n = s.magnitude() * whole();
    lemma_pow2_adds(1275, 1074);
    lemma_pow2_adds(1315, 1034);
    lemma_pow2_pos(1315);
    lemma_pow2_strictly_increases(1315, 1320);
    assert(0 <= n <= pow2(1315) * l.magnitude()) by (nonlinear_arith)
        requires
            n == s.magnitude() * whole(),
            0 <= s.magnitude() <= pow2(1275),
            whole() > 0,
            pow2(1275) * whole() == pow2(1315) * pow2(1034),
            l.magnitude() >= pow2(1034),
            pow2(1315) > 0,
    ;
    lemma_rounds_at_most(s.signed() != l.signed(), n, l.magnitude(), 1315);
    law_quotient_error(s, l);
    let q = quotient(s, l);
    assert(q.negated().abs_bits() == q.abs_bits() && q.negated().signed() == !q.signed());
    lemma_magnitude_not_negative(s);
    let (a, b, c) = (q.value(), l.value(), s.value());
    assert((-a) * b == -(a * b)) by (nonlinear_arith);
    assert((-c) * whole() == -(c * whole())) by (nonlinear_arith);
    assert(size(-(a * b) + c * whole()) == size(a * b - c * whole()));
}

proof fn lemma_dot_is_under(a: Double, b: Double, c: Double, d: Double)
    requires
        under(a, 1275) && under(b, 1275) && under(c, 1320) && under(d, 1320),
    ensures
        product(a, c).finite(),
        product(b, d).finite(),
        under(dot2(a, b, c, d), 1600),
{
    law_product_is_under(a, c, 1275, 1320);
    law_product_is_under(b, d, 1275, 1320);
    law_sum_is_under(product(a, c), product(b, d), 1521);
    lemma_pow2_strictly_increases(1522, 1600);
}

/// How far a projection onto a direction of the frame may lie from the exact one,
/// for the way `(x, y)` and the displacement `(gx, gy)` that the direction runs
/// along.
pub open spec fn projects(p: Double, x: int, y: int, gx: int, gy: int, length: Double) -> bool {
    let (w, k) = (whole(), parts());
    size(p.value() * length.value() - (x * gx + y * gy)) * w * k <= 15 * w * (size(x * gx) + size(y * gy)) + 2 * k
        * length.value() * (size(x) + size(y) + w)
}

proof fn lemma_dot_projects(a: Double, b: Double, v1: Double, v2: Double, x: int, y: int, gx: int, gy: int, l: Double)
    requires
        under(a, 1275) && under(b, 1275) && under(v1, 1320) && under(v2, 1320),
        normalized(v1, gx, l),
        normalized(v2, gy, l),
        l.value() > 0,
        size(a.value() - x) * parts() <= size(x),
        size(b.value() - y) * parts() <= size(y),
    ensures
        projects(dot2(a, b, v1, v2), x, y, gx, gy, l),
{
    lemma_pow2_pos(1074);
    lemma_dot_is_under(a, b, v1, v2);
    law_two_products_error(a, v1, b, v2);
    lemma_projection(
        dot2(a, b, v1, v2).value(),
        a.value(),
        b.value(),
        v1.value(),
        v2.value(),
        x,
        y,
        gx,
        gy,
        l.value(),
        whole(),
    );
}

/// The motion is level and moderate: its coordinates are far from overflowing, and
/// it is at least as long as one part in two to the power of forty.
pub open spec fn moderate_motion(motion: LinearMove, ray: Ray) -> bool {
    let l = motion.level_length();
    &&& moderate_plane(motion.start.x, motion.start.y)
    &&& moderate_plane(motion.end.x, motion.end.y)
    &&& moderate_plane(ray.origin.x, ray.origin.y)
    &&& moderate_plane(ray.direction.x, ray.direction.y)
    &&& under(l, 1480)
    &&& !l.signed()
    &&& l.magnitude() >= pow2(1034)
}

/// The frame of a level motion is a rigid one. Its direction across is square to the
/// displacement, and turned from it to the left. The offset of the ray is its
/// signed distance from the line of the motion, so that it vanishes on that line,
/// and its rate is how fast that distance changes. All of it holds but for what
/// rounding may lose, which is bounded by a few parts of the exact terms.
pub proof fn law_frame_measures_from_the_line(motion: LinearMove, ray: Ray)
    requires
        moderate_motion(motion, ray),
    ensures
        ({
            let r = framed(motion, ray);
            let l = motion.level_length();
            let (gx, gy) = (motion.step().x.value(), motion.step().y.value());
            let x = ray.origin.x.value() - motion.start.x.value();
            let y = ray.origin.y.value() - motion.start.y.value();
            let (w, k) = (whole(), parts());
            &&& size(r.across.x.value() * gx + r.across.y.value() * gy) * l.value() * k <= 2 * w * size(gx * gy) + k
                * l.value() * (size(gx) + size(gy))
            &&& size(r.across.x.value() * l.value() + gy * w) * k <= size(gy) * w + k * l.value()
            &&& size(r.across.y.value() * l.value() - gx * w) * k <= size(gx) * w + k * l.value()
            &&& projects(r.offset, x, y, -gy, gx, l)
            &&& projects(r.offset_rate, ray.direction.x.value(), ray.direction.y.value(), -gy, gx, l)
        }),
{
    let r = framed(motion, ray);
    let l = motion.level_length();
    let s = motion.step();
    let d = ray.direction;
    lemma_pow2_pos(1074);
    lemma_pow2_pos(1034);
    law_sum_is_under(motion.end.x, motion.start.x, 1274);
    law_sum_is_under(motion.end.y, motion.start.y, 1274);
    law_sum_is_under(ray.origin.x, motion.start.x, 1274);
    law_sum_is_under(ray.origin.y, motion.start.y, 1274);
    law_difference_error(ray.origin.x, motion.start.x);
    law_difference_error(ray.origin.y, motion.start.y);
    lemma_pow2_strictly_increases(1274, 1275);
    lemma_normalized(s.x, l);
    lemma_normalized(s.y, l);
    let (px, py) = (difference(ray.origin.x, motion.start.x), difference(ray.origin.y, motion.start.y));
    let x = ray.origin.x.value() - motion.start.x.value();
    let y = ray.origin.y.value() - motion.start.y.value();
    let (gx, gy) = (s.x.value(), s.y.value());
    let (v1, v2) = (quotient(s.y, l).negated(), quotient(s.x, l));
    assert(0 * parts() == 0);
    lemma_dot_projects(px, py, v1, v2, x, y, -gy, gx, l);
    lemma_dot_projects(d.x, d.y, v1, v2, d.x.value(), d.y.value(), -gy, gx, l);
    let (a, b, c, w, k, h) = (v1.value(), v2.value(), l.value(), whole(), parts(), HIDDEN as int);
    assert(r.across.x == v1 && r.across.y == v2);
    lemma_square(a, b, gx, gy, c, w);
    assert(h * c <= k * c) by (nonlinear_arith)
        requires
            k == 2 * h,
            c > 0,
            h > 0,
    ;
    assert((-gy) * w == -(gy * w)) by (nonlinear_arith);
}

/// A direction that is nearly that of a displacement turned by a right angle is
/// nearly square to the displacement.
proof fn lemma_square(a: int, b: int, gx: int, gy: int, l: int, w: int)
    requires
        l > 0,
        w > 0,
        size(a * l - (-gy) * w) * parts() <= size(-gy) * w + HIDDEN * l,
        size(b * l - gx * w) * parts() <= size(gx) * w + HIDDEN * l,
    ensures
        size(a * gx + b * gy) * l * parts() <= 2 * w * size(gx * gy) + parts() * l * (size(gx) + size(gy)),
{
    let (k, h) = (parts(), HIDDEN as int);
    let (e, f) = (a * l - (-gy) * w, b * l - gx * w);
    let t = a * gx + b * gy;
    assert((-gy) * w == -(gy * w)) by (nonlinear_arith);
    assert(t * l == (a * l) * gx + (b * l) * gy) by (nonlinear_arith)
        requires
            t == a * gx + b * gy,
    ;
    assert(e * gx == (a * l) * gx + (gy * w) * gx) by (nonlinear_arith)
        requires
            e == a * l + gy * w,
    ;
    assert(f * gy == (b * l) * gy - (gx * w) * gy) by (nonlinear_arith)
        requires
            f == b * l - gx * w,
    ;
    assert((gy * w) * gx == (gx * w) * gy) by (nonlinear_arith);
    assert(t * l == e * gx + f * gy);
    lemma_size_of_product(t, l);
    lemma_size_of_product(e, gx);
    lemma_size_of_product(f, gy);
    lemma_size_of_product(gx, gy);
    let (xs, ys) = (size(gx), size(gy));
    assert(size(t) * l * k <= size(e) * xs * k + size(f) * ys * k) by (nonlinear_arith)
        requires
            size(t) * l <= size(e) * xs + size(f) * ys,
            k > 0,
    ;
    assert(size(e) * xs * k <= (ys * w + h * l) * xs) by (nonlinear_arith)
        requires
            size(e) * k <= ys * w + h * l,
            xs >= 0,
    ;
    assert(size(f) * ys * k <= (xs * w + h * l) * ys) by (nonlinear_arith)
        requires
            size(f) * k <= xs * w + h * l,
            ys >= 0,
    ;
    assert((ys * w + h * l) * xs + (xs * w + h * l) * ys == 2 * w * (xs * ys) + h * l * (xs + ys)) by (nonlinear_arith);
    assert(h * l * (xs + ys) <= k * l * (xs + ys)) by (nonlinear_arith)
        requires
            k == 2 * h,
            h > 0,
            l > 0,
            xs + ys >= 0,
    ;
}

/// The exact value of `a + t * b`.
spec fn line_at(a: Double, b: Double, t: Double) -> int {
    a.value() * whole() + t.value() * b.value()
}

/// What a slab may get wrong, times [`parts`].
spec fn slab_doubt(a: Double, b: Double, length: Double, t: Double) -> int {
    3 * (size(a.value()) + length.value()) * whole() + HIDDEN * size(b.value()) + size(t.value()) * (Double {
        bits: DEGENERATE,
    }).value() * parts()
}

/// A quotient against a parameter: which of them is greater, by exact products.
proof fn lemma_quotient_order(n: Double, b: Double, t: Double, c: Double)
    requires
        n.finite() && b.finite() && t.finite() && c.finite(),
        !b.zero(),
        c == quotient(n, b),
    ensures
        ({
            let e = n.value() * whole() - t.value() * b.value();
            let d = size(n.value()) * whole() + HIDDEN * size(b.value());
            &&& e * parts() > d && b.value() > 0 ==> t.value() < c.value()
            &&& e * parts() > d && b.value() < 0 ==> t.value() > c.value()
            &&& e * parts() < -d && b.value() > 0 ==> t.value() > c.value()
            &&& e * parts() < -d && b.value() < 0 ==> t.value() < c.value()
        }),
{
    law_quotient_error(n, b);
    let (nv, bv, tv, cv, w, k) = (n.value(), b.value(), t.value(), c.value(), whole(), parts());
    let g = cv * bv - nv * w;
    let e = nv * w - tv * bv;
    assert(e == (cv - tv) * bv - g) by (nonlinear_arith)
        requires
            g == cv * bv - nv * w,
            e == nv * w - tv * bv,
    ;
    assert(e * k == ((cv - tv) * bv) * k - g * k) by (nonlinear_arith)
        requires
            e == (cv - tv) * bv - g,
    ;
    lemma_size_of_product(g, k);
    let j = ((cv - tv) * bv) * k;
    assert(bv > 0 && tv >= cv ==> j <= 0) by (nonlinear_arith)
        requires
            j == ((cv - tv) * bv) * k,
            k > 0,
    ;
    assert(bv > 0 && tv <= cv ==> j >= 0) by (nonlinear_arith)
        requires
            j == ((cv - tv) * bv) * k,
            k > 0,
    ;
    assert(bv < 0 && tv <= cv ==> j <= 0) by (nonlinear_arith)
        requires
            j == ((cv - tv) * bv) * k,
            k > 0,
    ;
    assert(bv < 0 && tv >= cv ==> j >= 0) by (nonlinear_arith)
        requires
            j == ((cv - tv) * bv) * k,
            k > 0,
    ;
}

/// A slab holds the parameters at which the line lies between its planes, and no
/// others, but for what rounding decides.
#[verifier::rlimit(60)]
proof fn lemma_slab(a: Double, b: Double, length: Double, t: Double)
    requires
        under(a, 1599),
        under(b, 1599),
        under(length, 1599),
        length.value() >= 0,
        t.finite(),
    ensures
        ({
            let f = line_at(a, b, t) * parts();
            let top = length.value() * whole() * parts();
            let d = slab_doubt(a, b, length, t);
            &&& f > d && top - f > d ==> (slab_of(a, b, length) matches Some(s) && holds(s, t))
            &&& f < -d || top - f < -d ==> !(slab_of(a, b, length) matches Some(s) && holds(s, t))
        }),
{
    let g = Double { bits: DEGENERATE };
    let zero = Double { bits: 0 };
    lemma_degenerate();
    lemma_pow2_pos(1074);
    lemma_pow2_pos(1034);
    lemma_magnitude_not_negative(a);
    lemma_magnitude_not_negative(b);
    lemma_magnitude_not_negative(t);
    lemma_magnitude_not_negative(zero);
    lemma_magnitude_not_negative(length);
    assert(b.absolute().finite() && b.absolute().value() == b.magnitude());
    law_order_is_value_order(b.absolute(), g);
    law_order_is_value_order(zero, a);
    law_order_is_value_order(a, length);
    let (av, bv, tv, gv, lv, w, k) = (a.value(), b.value(), t.value(), g.value(), length.value(), whole(), parts());
    let f = av * w + tv * bv;
    let d = slab_doubt(a, b, length, t);
    let low = Double { bits: (INFINITY_BITS + SIGN) as u64 };
    assert(low.abs_bits() == INFINITY_BITS && low.signed());
    assert(t.abs_bits() < INFINITY_BITS);
    assert(size(tv) * gv * k >= 0 && (size(av) + lv) * w >= 0 && HIDDEN * size(bv) >= 0) by (nonlinear_arith)
        requires
            size(tv) >= 0,
            gv > 0,
            k > 0,
            size(av) + lv >= 0,
            w > 0,
            size(bv) >= 0,
            HIDDEN as int > 0,
    ;
    assert(3 * (size(av) + lv) * w == 3 * ((size(av) + lv) * w)) by (nonlinear_arith);
    if b.absolute().le(g) {
        lemma_size_of_product(tv, bv);
        assert(size(tv * bv) * k <= size(tv) * gv * k) by (nonlinear_arith)
            requires
                size(tv * bv) == size(tv) * size(bv),
                size(bv) <= gv,
                size(tv) >= 0,
                k > 0,
        ;
        lemma_size_of_product(tv * bv, k);
        assert(f * k == (av * w) * k + (tv * bv) * k) by (nonlinear_arith)
            requires
                f == av * w + tv * bv,
        ;
        assert(av < 0 ==> (av * w) * k <= 0) by (nonlinear_arith)
            requires
                w > 0,
                k > 0,
        ;
        assert(av >= 0 ==> (av * w) * k >= 0) by (nonlinear_arith)
            requires
                w > 0,
                k > 0,
        ;
        assert(lv * w * k - (av * w) * k == ((lv - av) * w) * k) by (nonlinear_arith);
        assert(lv < av ==> ((lv - av) * w) * k <= 0) by (nonlinear_arith)
            requires
                w > 0,
                k > 0,
        ;
        assert(lv >= av ==> ((lv - av) * w) * k >= 0) by (nonlinear_arith)
            requires
                w > 0,
                k > 0,
        ;
    } else {
        let n = a.negated();
        let m = difference(length, a);
        let (c1, c2) = (quotient(n, b), quotient(m, b));
        assert(n.abs_bits() == a.abs_bits() && n.signed() == !a.signed());
        assert(n.value() == -av);
        assert(m.negated().abs_bits() == m.abs_bits());
        law_sum_is_under(length, a, 1599);
        law_difference_error(length, a);
        lemma_pow2_strictly_increases(1599, 1600);
        lemma_crossing_is_finite(a, b);
        lemma_crossing_is_finite(m.negated(), b);
        assert(m.negated().negated() == m);
        lemma_quotient_order(n, b, t, c1);
        lemma_quotient_order(m, b, t, c2);
        law_order_is_value_order(c1, t);
        law_order_is_value_order(t, c1);
        law_order_is_value_order(c2, t);
        law_order_is_value_order(t, c2);
        law_order_is_value_order(c1, c2);
        let mv = m.value();
        let e = mv - (lv - av);
        assert(size(e) <= size(e) * k) by (nonlinear_arith)
            requires
                size(e) >= 0,
                k >= 1,
        ;
        assert(size(mv) <= 2 * (size(av) + lv));
        assert(size(mv) * w <= 2 * ((size(av) + lv) * w)) by (nonlinear_arith)
            requires
                size(mv) <= 2 * (size(av) + lv),
                w > 0,
        ;
        assert(size(av) * w <= (size(av) + lv) * w) by (nonlinear_arith)
            requires
                lv >= 0,
                w > 0,
        ;
        assert((-av) * w == -(av * w)) by (nonlinear_arith);
        let e1 = (-av) * w - tv * bv;
        let e2 = mv * w - tv * bv;
        assert(e1 == -f);
        assert(e1 * k == -(f * k)) by (nonlinear_arith)
            requires
                e1 == -f,
        ;
        assert(e2 * k == (lv * w * k - f * k) + (e * w) * k) by (nonlinear_arith)
            requires
                e2 == mv * w - tv * bv,
                f == av * w + tv * bv,
                e == mv - (lv - av),
        ;
        lemma_size_of_product(e, w);
        lemma_size_of_product(e * w, k);
        assert(size(e) * w * k <= (size(av) + lv) * w) by (nonlinear_arith)
            requires
                size(e) * k <= size(av) + lv,
                w > 0,
        ;
    }
}

/// How far along a motion the point of a ray at a parameter lies, times the length
/// of the motion, exactly.
pub open spec fn along_at(motion: LinearMove, ray: Ray, t: Double) -> int {
    let (gx, gy) = (motion.step().x.value(), motion.step().y.value());
    let x = ray.origin.x.value() - motion.start.x.value();
    let y = ray.origin.y.value() - motion.start.y.value();
    (x * gx + y * gy) * whole() + t.value() * (ray.direction.x.value() * gx + ray.direction.y.value() * gy)
}

/// What a projection of a way onto a displacement may lose, times [`parts`].
pub open spec fn projection_loss(x: int, y: int, gx: int, gy: int, l: int) -> int {
    15 * whole() * (size(x * gx) + size(y * gy)) + 2 * parts() * l * (size(x) + size(y) + whole())
}

/// How near to the end planes of a motion a point may lie for rounding to decide
/// whether it lies between them, from what the projections lose.
pub open spec fn margin_of(g1: int, e1: int, g2: int, e2: int, l: int, t: int) -> int {
    let (w, k, h, g) = (whole(), parts(), HIDDEN as int, (Double { bits: DEGENERATE }).value());
    e1 * w + size(t) * e2 + 3 * w * (g1 * w + e1 + l * l * w) + h * (g2 * w + e2) + size(t) * g * k * l * w
}

/// How near to the end planes of a motion a point may lie for rounding to decide
/// whether it lies between them.
#[verifier::opaque]
pub open spec fn slab_margin(motion: LinearMove, ray: Ray, t: Double) -> int {
    let (gx, gy) = (motion.step().x.value(), motion.step().y.value());
    let x = ray.origin.x.value() - motion.start.x.value();
    let y = ray.origin.y.value() - motion.start.y.value();
    let (u, v) = (ray.direction.x.value(), ray.direction.y.value());
    let l = motion.level_length().value();
    margin_of(
        size(x * gx) + size(y * gy),
        projection_loss(x, y, gx, gy, l),
        size(u * gx) + size(v * gy),
        projection_loss(u, v, gx, gy, l),
        l,
        t.value(),
    )
}

/// From the exact place along the motion to the rounded one.
proof fn lemma_place(a: int, b: int, t: int, l: int, pa: int, pb: int, g1: int, e1: int, g2: int, e2: int)
    requires
        l > 0,
        whole() > 0,
        size(pa) <= g1,
        size(pb) <= g2,
        size(a * l - pa) * whole() * parts() <= e1,
        size(b * l - pb) * whole() * parts() <= e2,
        (Double { bits: DEGENERATE }).value() >= 0,
    ensures
        ({
            let (w, k) = (whole(), parts());
            let f = a * w + t * b;
            let q = pa * w + t * pb;
            let d = 3 * (size(a) + l) * w + HIDDEN * size(b) + size(t) * (Double { bits: DEGENERATE }).value() * k;
            let m = margin_of(g1, e1, g2, e2, l, t);
            &&& q * w * k > m ==> f * k > d
            &&& q * w * k < -m ==> f * k < -d
            &&& (l * l * w - q) * w * k > m ==> l * w * k - f * k > d
            &&& (l * l * w - q) * w * k < -m ==> l * w * k - f * k < -d
        }),
{
    let (w, k, h, g) = (whole(), parts(), HIDDEN as int, (Double { bits: DEGENERATE }).value());
    let ts = size(t);
    let f = a * w + t * b;
    let q = pa * w + t * pb;
    let (d1, d2) = (a * l - pa, b * l - pb);
    assert(f * l - q == d1 * w + t * d2) by (nonlinear_arith)
        requires
            f == a * w + t * b,
            q == pa * w + t * pb,
            d1 == a * l - pa,
            d2 == b * l - pb,
    ;
    lemma_size_of_product(d1, w);
    lemma_size_of_product(t, d2);
    lemma_size_of_product(a, l);
    lemma_size_of_product(b, l);
    let gap = size(f * l - q);
    assert(gap <= size(d1) * w + ts * size(d2));
    assert(gap * w * k <= (size(d1) * w * k) * w + ts * (size(d2) * w * k)) by (nonlinear_arith)
        requires
            gap <= size(d1) * w + ts * size(d2),
            w > 0,
            k > 0,
    ;
    assert((size(d1) * w * k) * w <= e1 * w && ts * (size(d2) * w * k) <= ts * e2) by (nonlinear_arith)
        requires
            size(d1) * w * k <= e1,
            size(d2) * w * k <= e2,
            w > 0,
            ts >= 0,
    ;
    assert(size(d1) * w <= e1 && size(d2) * w <= e2) by (nonlinear_arith)
        requires
            size(d1) * w * k <= e1,
            size(d2) * w * k <= e2,
            w > 0,
            k >= 1,
            size(d1) >= 0,
            size(d2) >= 0,
    ;
    assert(size(a) * l * w <= g1 * w + e1) by (nonlinear_arith)
        requires
            size(a) * l <= g1 + size(d1),
            size(d1) * w <= e1,
            w > 0,
    ;
    assert(size(b) * l * w <= g2 * w + e2) by (nonlinear_arith)
        requires
            size(b) * l <= g2 + size(d2),
            size(d2) * w <= e2,
            w > 0,
    ;
    let d = 3 * (size(a) + l) * w + h * size(b) + ts * g * k;
    let (az, bz, tz, p) = (size(a), size(b), ts * g * k, l * w);
    let (x1, x2) = (3 * (az + l) * w, h * bz);
    assert(d * p == x1 * p + x2 * p + tz * p) by (nonlinear_arith)
        requires
            d == x1 + x2 + tz,
    ;
    assert(x1 * p == 3 * w * (az * p) + 3 * w * (l * p)) by (nonlinear_arith)
        requires
            x1 == 3 * (az + l) * w,
    ;
    lemma_mul_is_associative(h, bz, p);
    lemma_mul_is_associative(d, l, w);
    lemma_mul_is_associative(az, l, w);
    lemma_mul_is_associative(bz, l, w);
    lemma_mul_is_associative(l, l, w);
    lemma_mul_is_associative(tz, l, w);
    assert(d * l * w == 3 * w * (size(a) * l * w) + 3 * w * (l * l * w) + h * (size(b) * l * w) + ts * g * k * l * w);
    assert(3 * w * (size(a) * l * w) <= 3 * w * (g1 * w + e1) && h * (size(b) * l * w) <= h * (g2 * w + e2))
        by (nonlinear_arith)
        requires
            size(a) * l * w <= g1 * w + e1,
            size(b) * l * w <= g2 * w + e2,
            w > 0,
            h > 0,
    ;
    let m = margin_of(g1, e1, g2, e2, l, t);
    assert(3 * w * (g1 * w + e1 + l * l * w) == 3 * w * (g1 * w + e1) + 3 * w * (l * l * w)) by (nonlinear_arith);
    assert(m >= gap * w * k + d * l * w);
    lemma_size_of_product(f * l - q, w);
    lemma_size_of_product((f * l - q) * w, k);
    assert((f * l - q) * w * k == (f * l) * w * k - q * w * k) by (nonlinear_arith);
    assert((f * l) * w * k == (f * k) * (l * w)) by (nonlinear_arith);
    assert((l * l * w - q) * w * k == (l * w * k) * (l * w) - q * w * k) by (nonlinear_arith);
    assert(d * l * w == d * (l * w)) by (nonlinear_arith);
    assert(l * w > 0) by (nonlinear_arith)
        requires
            l > 0,
            w > 0,
    ;
    lemma_cancel(f * k, d, l * w);
    lemma_cancel(l * w * k - f * k, d, l * w);
    assert((l * w * k - f * k) * (l * w) == (l * w * k) * (l * w) - (f * k) * (l * w)) by (nonlinear_arith);
}

proof fn lemma_cancel(x: int, d: int, p: int)
    requires
        p > 0,
    ensures
        x * p > d * p ==> x > d,
        x * p < -(d * p) ==> x < -d,
{
    assert(x * p > d * p ==> x > d) by (nonlinear_arith)
        requires
            p > 0,
    ;
    assert(x * p < -(d * p) ==> x < -d) by (nonlinear_arith)
        requires
            p > 0,
    ;
}

/// The slab of a level motion holds the points of the ray between the planes at its
/// ends, which are square to the displacement: those whose exact place along the
/// motion lies between nothing and its length, but for what rounding decides.
pub proof fn law_slab_lies_between_the_ends(motion: LinearMove, ray: Ray, t: Double)
    requires
        moderate_motion(motion, ray),
        t.finite(),
    ensures
        ({
            let slab = framed(motion, ray).slab;
            let l = motion.level_length().value();
            let from_start = along_at(motion, ray, t) * whole() * parts();
            let from_end = (l * l * whole() - along_at(motion, ray, t)) * whole() * parts();
            let m = slab_margin(motion, ray, t);
            &&& from_start > m && from_end > m ==> (slab matches Some(s) && holds(s, t))
            &&& from_start < -m || from_end < -m ==> !(slab matches Some(s) && holds(s, t))
        }),
{
    reveal(slab_margin);
    let l = motion.level_length();
    let s = motion.step();
    let d = ray.direction;
    lemma_pow2_pos(1074);
    lemma_pow2_pos(1034);
    lemma_degenerate();
    law_sum_is_under(motion.end.x, motion.start.x, 1274);
    law_sum_is_under(motion.end.y, motion.start.y, 1274);
    law_sum_is_under(ray.origin.x, motion.start.x, 1274);
    law_sum_is_under(ray.origin.y, motion.start.y, 1274);
    law_difference_error(ray.origin.x, motion.start.x);
    law_difference_error(ray.origin.y, motion.start.y);
    lemma_pow2_strictly_increases(1274, 1275);
    lemma_normalized(s.x, l);
    lemma_normalized(s.y, l);
    let (px, py) = (difference(ray.origin.x, motion.start.x), difference(ray.origin.y, motion.start.y));
    let x = ray.origin.x.value() - motion.start.x.value();
    let y = ray.origin.y.value() - motion.start.y.value();
    let (gx, gy) = (s.x.value(), s.y.value());
    let (u1, u2) = (quotient(s.x, l), quotient(s.y, l));
    let (dx, dy) = (d.x.value(), d.y.value());
    assert(0 * parts() == 0);
    lemma_dot_projects(px, py, u1, u2, x, y, gx, gy, l);
    lemma_dot_projects(d.x, d.y, u1, u2, dx, dy, gx, gy, l);
    lemma_dot_is_bounded(px, py, u1, u2);
    lemma_dot_is_bounded(d.x, d.y, u1, u2);
    let (a, b) = (dot2(px, py, u1, u2), dot2(d.x, d.y, u1, u2));
    lemma_pow2_strictly_increases(1480, 1599);
    lemma_slab(a, b, l, t);
    let lv = l.value();
    lemma_place(
        a.value(),
        b.value(),
        t.value(),
        lv,
        x * gx + y * gy,
        dx * gx + dy * gy,
        size(x * gx) + size(y * gy),
        projection_loss(x, y, gx, gy, lv),
        size(dx * gx) + size(dy * gy),
        projection_loss(dx, dy, gx, gy, lv),
    );
}

proof fn lemma_dot_is_bounded(a: Double, b: Double, c: Double, d: Double)
    requires
        under(a, 1275) && under(b, 1275) && under(c, 1320) && under(d, 1320),
    ensures
        under(dot2(a, b, c, d), 1599),
{
    law_product_is_under(a, c, 1275, 1320);
    law_product_is_under(b, d, 1275, 1320);
    law_sum_is_under(product(a, c), product(b, d), 1521);
    lemma_pow2_strictly_increases(1522, 1599);
}

/// The height of a ray in the frame is its height above the tip, and changes with
/// the ray.
pub proof fn law_frame_keeps_heights(motion: LinearMove, ray: Ray)
    requires
        under(ray.origin.z, 1274),
        under(motion.start.z, 1274),
    ensures
        size(
            framed(motion, ray).height.value() - (ray.origin.z.value() - motion.start.z.value()),
        ) * parts() <= size(ray.origin.z.value() - motion.start.z.value()),
        framed(motion, ray).height_rate == ray.direction.z,
{
    law_sum_is_under(ray.origin.z, motion.start.z, 1274);
    law_difference_error(ray.origin.z, motion.start.z);
}

} // verus!
