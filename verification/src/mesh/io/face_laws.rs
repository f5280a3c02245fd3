//! That a face is cut into triangles that keep its outline, and that the normal of a
//! polygon is its area.

use crate::arithmetic::{difference, product, sum};
use crate::double::Double;
use crate::error_bounds::lemma_magnitude_not_negative;
use crate::exactness::{is_whole, law_short_products_are_exact, law_short_sums_are_exact};
use crate::math::Vec3;
use crate::mesh::io::obj::{fan, newell};
use crate::mesh::measure_laws::{at_whole, in_cube};
use vstd::arithmetic::div_mod::lemma_small_mod;
use vstd::arithmetic::power2::pow2;
use vstd::prelude::*;

verus! {

/// A triangle has an edge from one corner to another, in this sense.
pub open spec fn has_edge(t: [u32; 3], a: u32, b: u32) -> bool {
    (t[0] == a && t[1] == b) || (t[1] == a && t[2] == b) || (t[2] == a && t[0] == b)
}

/// The triangles of a face have the outline of the face: each edge from a corner to
/// the next is an edge of one of them, in the same sense. The other edges run from the
/// first corner and cancel in pairs: where a triangle comes back to the first corner,
/// the next one sets out from it.
pub proof fn law_fan_keeps_the_outline(c: Seq<u32>, i: int)
    requires
        c.len() >= 3,
        0 <= i < c.len(),
    ensures
        fan(c).len() == c.len() - 2,
        exists|k: int| 0 <= k < fan(c).len() && has_edge(#[trigger] fan(c)[k], c[i], c[(i + 1) % c.len() as int]),
        forall|k: int, l: int|
            0 <= k && l == k + 1 && l < fan(c).len() ==> has_edge(#[trigger] fan(c)[k], c[l + 1], c[0]) && has_edge(
                #[trigger] fan(c)[l],
                c[0],
                c[l + 1],
            ),
{
    let n = c.len() as int;
    let f = fan(c);
    if i < n - 1 {
        lemma_small_mod((i + 1) as nat, n as nat);
    } else {
        vstd::arithmetic::div_mod::lemma_mod_self_0(n);
    }
    let k = if i == 0 {
        0
    } else if i == n - 1 {
        n - 3
    } else {
        i - 1
    };
    assert(f[k] == [c[0], c[k + 1], c[k + 2]]);
    assert(has_edge(f[k], c[i], c[(i + 1) % n]));
    assert forall|k: int, l: int| 0 <= k && l == k + 1 && l < f.len() implies has_edge(#[trigger] f[k], c[l + 1], c[0]) && has_edge(
        #[trigger] f[l],
        c[0],
        c[l + 1],
    ) by {
        assert(f[k] == [c[0], c[k + 1], c[k + 2]]);
        assert(f[l] == [c[0], c[l + 1], c[l + 2]]);
    }
}

/// Twice the area that the edges from the first `n` corners of a polygon sweep about
/// the origin, in each of the coordinate planes.
pub open spec fn swept_area(p: Seq<(int, int, int)>, n: nat) -> (int, int, int)
    decreases n,
{
    if n == 0 {
        (0, 0, 0)
    } else {
        let a = p[n - 1];
        let b = p[n as int % p.len() as int];
        let s = swept_area(p, (n - 1) as nat);
        (
            s.0 + (a.1 * b.2 - a.2 * b.1),
            s.1 + (a.2 * b.0 - a.0 * b.2),
            s.2 + (a.0 * b.1 - a.1 * b.0),
        )
    }
}

proof fn lemma_term(a: Double, b: Double, c: Double, d: Double, i: int, j: int, k: int, l: int)
    requires
        is_whole(a, i) && is_whole(b, j) && is_whole(c, k) && is_whole(d, l),
        -0x1_0000 <= i <= 0x1_0000 && -0x1_0000 <= j <= 0x1_0000,
        -0x1_0000 <= k <= 0x1_0000 && -0x1_0000 <= l <= 0x1_0000,
    ensures
        is_whole(product(difference(a, b), sum(c, d)), (i * l - k * j) + (i * k - j * l)),
        -0x4_0000_0000 <= (i * l - k * j) + (i * k - j * l) <= 0x4_0000_0000,
{
    law_short_sums_are_exact(a, b, i, j, 1074);
    law_short_sums_are_exact(c, d, k, l, 1074);
    assert((i - j) * (k + l) == (i * l - k * j) + (i * k - j * l)) by (nonlinear_arith);
    assert(-0x4_0000_0000 <= (i - j) * (k + l) <= 0x4_0000_0000) by (nonlinear_arith)
        requires
            -0x2_0000 <= i - j <= 0x2_0000,
            -0x2_0000 <= k + l <= 0x2_0000,
    ;
    law_short_products_are_exact(difference(a, b), sum(c, d), i - j, k + l, 1074, 1074);
}

/// The corner that the edge from corner `n - 1` goes to.
spec fn next_corner(p: Seq<(int, int, int)>, n: nat) -> (int, int, int) {
    if n == 0 {
        p[0]
    } else {
        p[n as int % p.len() as int]
    }
}

#[verifier::spinoff_prover]
#[verifier::rlimit(60)]
proof fn lemma_newell(points: Seq<Vec3>, p: Seq<(int, int, int)>, n: nat)
    requires
        0 < p.len() == points.len() <= 0x1_0000,
        n <= p.len(),
        forall|i: int| 0 <= i < p.len() ==> at_whole(#[trigger] points[i], p[i]) && in_cube(p[i], 0x1_0000),
    ensures
        ({
            let s = swept_area(p, n);
            let (a, b) = (p[0], next_corner(p, n));
            let t = (
                s.0 + (a.1 * a.2 - b.1 * b.2),
                s.1 + (a.2 * a.0 - b.2 * b.0),
                s.2 + (a.0 * a.1 - b.0 * b.1),
            );
            at_whole(newell(points, n), t) && in_cube(t, 0x4_0000_0000 * (n as int))
        }),
    decreases n,
{
    if n == 0 {
        lemma_magnitude_not_negative(Double { bits: 0 });
        assert(0 * pow2(1074) == 0);
    } else {
        lemma_newell(points, p, (n - 1) as nat);
        let m = n as int % p.len() as int;
        if n < p.len() {
            lemma_small_mod(n, p.len());
        } else {
            vstd::arithmetic::div_mod::lemma_mod_self_0(p.len() as int);
        }
        if n > 1 {
            lemma_small_mod((n - 1) as nat, p.len());
        }
        assert(next_corner(p, (n - 1) as nat) == p[n - 1]);
        let (a, b) = (p[n - 1], p[m]);
        let (u, v) = (points[n - 1], points[m]);
        assert(at_whole(u, a) && at_whole(v, b));
        let before = newell(points, (n - 1) as nat);
        let s = swept_area(p, (n - 1) as nat);
        let o = p[0];
        lemma_axis(before.x, u.y, v.y, u.z, v.z, a.1, b.1, a.2, b.2, s.0, o.1 * o.2, n as int);
        lemma_axis(before.y, u.z, v.z, u.x, v.x, a.2, b.2, a.0, b.0, s.1, o.2 * o.0, n as int);
        lemma_axis(before.z, u.x, v.x, u.y, v.y, a.0, b.0, a.1, b.1, s.2, o.0 * o.1, n as int);
    }
}

/// One more edge, along one axis.
proof fn lemma_axis(
    before: Double,
    a: Double,
    b: Double,
    c: Double,
    d: Double,
    i: int,
    j: int,
    k: int,
    l: int,
    s: int,
    o: int,
    n: int,
)
    requires
        is_whole(a, i) && is_whole(b, j) && is_whole(c, k) && is_whole(d, l),
        -0x1_0000 <= i <= 0x1_0000 && -0x1_0000 <= j <= 0x1_0000,
        -0x1_0000 <= k <= 0x1_0000 && -0x1_0000 <= l <= 0x1_0000,
        is_whole(before, s + (o - i * k)),
        0 < n <= 0x1_0000,
        -(0x4_0000_0000 * (n - 1)) <= s + (o - i * k) <= 0x4_0000_0000 * (n - 1),
    ensures
        ({
            let t = (s + (i * l - k * j)) + (o - j * l);
            &&& is_whole(sum(before, product(difference(a, b), sum(c, d))), t)
            &&& -(0x4_0000_0000 * n) <= t <= 0x4_0000_0000 * n
        }),
{
    lemma_term(a, b, c, d, i, j, k, l);
    let (ik, il, kj, jl) = (i * k, i * l, k * j, j * l);
    law_short_sums_are_exact(
        before,
        product(difference(a, b), sum(c, d)),
        s + (o - ik),
        (il - kj) + (ik - jl),
        1074,
    );
}

/// The normal of a polygon is twice its area in each of the coordinate planes, by the
/// right-hand rule: in integers, exactly.
pub proof fn law_polygon_normal_is_its_area(points: Seq<Vec3>, p: Seq<(int, int, int)>)
    requires
        0 < p.len() == points.len() <= 0x1_0000,
        forall|i: int| 0 <= i < p.len() ==> at_whole(#[trigger] points[i], p[i]) && in_cube(p[i], 0x1_0000),
    ensures
        at_whole(newell(points, points.len()), swept_area(p, p.len())),
{
    lemma_newell(points, p, p.len());
    vstd::arithmetic::div_mod::lemma_mod_self_0(p.len() as int);
}

} // verus!
