//! That volumes and normals follow the right-hand rule, in integers.

use crate::arithmetic::{difference, product, sum};
use crate::double::Double;
use crate::error_bounds::lemma_magnitude_not_negative;
use crate::exactness::{is_whole, law_short_products_are_exact, law_short_sums_are_exact};
use crate::math::{cross_product, dot_product, Vec3};
use crate::mesh::{corners_of, volume_sum};
use vstd::arithmetic::power2::pow2;
use vstd::prelude::*;

verus! {

/// A point with integer coordinates.
pub open spec fn at_whole(v: Vec3, p: (int, int, int)) -> bool {
    is_whole(v.x, p.0) && is_whole(v.y, p.1) && is_whole(v.z, p.2)
}

/// Coordinates of at most so many units.
pub open spec fn in_cube(p: (int, int, int), m: int) -> bool {
    -m <= p.0 <= m && -m <= p.1 <= m && -m <= p.2 <= m
}

/// The volume of the parallelepiped over three vectors, positive where they are
/// right-handed: by the rule of Sarrus.
pub open spec fn spanned(a: (int, int, int), b: (int, int, int), c: (int, int, int)) -> int {
    a.0 * b.1 * c.2 + a.1 * b.2 * c.0 + a.2 * b.0 * c.1 - a.2 * b.1 * c.0 - a.0 * b.2 * c.1 - a.1 * b.0 * c.2
}

/// The scalar product of integers.
pub open spec fn inner(a: (int, int, int), b: (int, int, int)) -> int {
    a.0 * b.0 + a.1 * b.1 + a.2 * b.2
}

proof fn lemma_bounded_product(x: int, y: int, m: int, n: int)
    requires
        -m <= x <= m,
        -n <= y <= n,
    ensures
        -(m * n) <= x * y <= m * n,
{
    assert(-(m * n) <= x * y <= m * n) by (nonlinear_arith)
        requires
            -m <= x <= m,
            -n <= y <= n,
    ;
}

proof fn lemma_minor(a: Double, b: Double, c: Double, d: Double, i: int, j: int, k: int, l: int)
    requires
        is_whole(a, i) && is_whole(b, j) && is_whole(c, k) && is_whole(d, l),
        -0x10_0000 <= i <= 0x10_0000 && -0x10_0000 <= j <= 0x10_0000,
        -0x10_0000 <= k <= 0x10_0000 && -0x10_0000 <= l <= 0x10_0000,
    ensures
        is_whole(difference(product(a, b), product(c, d)), i * j - k * l),
{
    lemma_bounded_product(i, j, 0x10_0000, 0x10_0000);
    lemma_bounded_product(k, l, 0x10_0000, 0x10_0000);
    law_short_products_are_exact(a, b, i, j, 1074, 1074);
    law_short_products_are_exact(c, d, k, l, 1074, 1074);
    law_short_sums_are_exact(product(a, b), product(c, d), i * j, k * l, 1074);
}

/// The vector product of two vectors is square to both and, with them, right-handed:
/// its scalar product with any third vector is the volume that the three span. In
/// integers it is exact.
pub proof fn law_vector_product_is_right_handed(a: Vec3, b: Vec3, p: (int, int, int), q: (int, int, int))
    requires
        at_whole(a, p) && at_whole(b, q),
        in_cube(p, 0x10_0000) && in_cube(q, 0x10_0000),
    ensures
        exists|n: (int, int, int)| #[trigger]
            at_whole(cross_product(a, b), n) && inner(n, p) == 0 && inner(n, q) == 0 && forall|r: (int, int, int)| #[trigger]
                inner(n, r) == spanned(p, q, r),
{
    let n = (p.1 * q.2 - p.2 * q.1, p.2 * q.0 - p.0 * q.2, p.0 * q.1 - p.1 * q.0);
    lemma_minor(a.y, b.z, a.z, b.y, p.1, q.2, p.2, q.1);
    lemma_minor(a.z, b.x, a.x, b.z, p.2, q.0, p.0, q.2);
    lemma_minor(a.x, b.y, a.y, b.x, p.0, q.1, p.1, q.0);
    assert(at_whole(cross_product(a, b), n));
    assert forall|r: (int, int, int)| #[trigger] inner(n, r) == spanned(p, q, r) by {
        lemma_expansion(p, q, r);
    }
    lemma_expansion(p, q, p);
    lemma_expansion(p, q, q);
    assert(spanned(p, q, p) == 0) by (nonlinear_arith);
    assert(spanned(p, q, q) == 0) by (nonlinear_arith);
}

proof fn lemma_expansion(p: (int, int, int), q: (int, int, int), r: (int, int, int))
    ensures
        (p.1 * q.2 - p.2 * q.1) * r.0 + (p.2 * q.0 - p.0 * q.2) * r.1 + (p.0 * q.1 - p.1 * q.0) * r.2 == spanned(p, q, r),
{
    let (x, y, z) = (p.1 * q.2, p.2 * q.1, r.0);
    assert((x - y) * z == x * z - y * z) by (nonlinear_arith);
    let (x, y, z) = (p.2 * q.0, p.0 * q.2, r.1);
    assert((x - y) * z == x * z - y * z) by (nonlinear_arith);
    let (x, y, z) = (p.0 * q.1, p.1 * q.0, r.2);
    assert((x - y) * z == x * z - y * z) by (nonlinear_arith);
}

/// Six times the volume under triangles: what each of the first `n` spans with the
/// origin.
pub open spec fn spanned_sum(points: Seq<(int, int, int)>, triangles: Seq<[u32; 3]>, n: nat) -> int
    decreases n,
{
    if n == 0 {
        0
    } else {
        let t = triangles[n - 1];
        spanned_sum(points, triangles, (n - 1) as nat) + spanned(
            points[t[0] as int],
            points[t[1] as int],
            points[t[2] as int],
        )
    }
}

/// The volume under triangles whose corners have integer coordinates is exact, and
/// positive where their corners, seen from outside, turn counter-clockwise.
pub proof fn law_volume_is_what_triangles_span(
    vertices: Seq<Vec3>,
    points: Seq<(int, int, int)>,
    triangles: Seq<[u32; 3]>,
    n: nat,
)
    requires
        n <= triangles.len() <= 0x8_0000,
        vertices.len() == points.len(),
        forall|i: int| 0 <= i < points.len() ==> at_whole(#[trigger] vertices[i], points[i]) && in_cube(points[i], 0x400),
        forall|i: int|
            0 <= i < triangles.len() ==> (#[trigger] triangles[i])[0] < points.len() && triangles[i][1] < points.len()
                && triangles[i][2] < points.len(),
    ensures
        is_whole(volume_sum(vertices, triangles, n), spanned_sum(points, triangles, n)),
        -0x2_0000_0000 * n <= spanned_sum(points, triangles, n) <= 0x2_0000_0000 * n,
    decreases n,
{
    if n == 0 {
        lemma_magnitude_not_negative(Double { bits: 0 });
        assert(0 * pow2(1074) == 0);
    } else {
        law_volume_is_what_triangles_span(vertices, points, triangles, (n - 1) as nat);
        let t = triangles[n - 1];
        let (a, b, c) = corners_of(vertices, t);
        let (p, q, r) = (points[t[0] as int], points[t[1] as int], points[t[2] as int]);
        assert(at_whole(a, p) && at_whole(b, q) && at_whole(c, r));
        lemma_tetrahedron(a, b, c, p, q, r);
        law_short_sums_are_exact(
            volume_sum(vertices, triangles, (n - 1) as nat),
            dot_product(a, cross_product(b, c)),
            spanned_sum(points, triangles, (n - 1) as nat),
            spanned(p, q, r),
            1074,
        );
    }
}

proof fn lemma_tetrahedron(a: Vec3, b: Vec3, c: Vec3, p: (int, int, int), q: (int, int, int), r: (int, int, int))
    requires
        at_whole(a, p) && at_whole(b, q) && at_whole(c, r),
        in_cube(p, 0x400) && in_cube(q, 0x400) && in_cube(r, 0x400),
    ensures
        is_whole(dot_product(a, cross_product(b, c)), spanned(p, q, r)),
        -0x2_0000_0000 <= spanned(p, q, r) <= 0x2_0000_0000,
{
    let n = cross_product(b, c);
    lemma_minor(b.y, c.z, b.z, c.y, q.1, r.2, q.2, r.1);
    lemma_minor(b.z, c.x, b.x, c.z, q.2, r.0, q.0, r.2);
    lemma_minor(b.x, c.y, b.y, c.x, q.0, r.1, q.1, r.0);
    let (i, j, k) = (q.1 * r.2 - q.2 * r.1, q.2 * r.0 - q.0 * r.2, q.0 * r.1 - q.1 * r.0);
    lemma_bounded_product(q.1, r.2, 0x400, 0x400);
    lemma_bounded_product(q.2, r.1, 0x400, 0x400);
    lemma_bounded_product(q.2, r.0, 0x400, 0x400);
    lemma_bounded_product(q.0, r.2, 0x400, 0x400);
    lemma_bounded_product(q.0, r.1, 0x400, 0x400);
    lemma_bounded_product(q.1, r.0, 0x400, 0x400);
    lemma_bounded_product(p.0, i, 0x400, 0x20_0000);
    lemma_bounded_product(p.1, j, 0x400, 0x20_0000);
    lemma_bounded_product(p.2, k, 0x400, 0x20_0000);
    law_short_products_are_exact(a.x, n.x, p.0, i, 1074, 1074);
    law_short_products_are_exact(a.y, n.y, p.1, j, 1074, 1074);
    law_short_products_are_exact(a.z, n.z, p.2, k, 1074, 1074);
    law_short_sums_are_exact(product(a.x, n.x), product(a.y, n.y), p.0 * i, p.1 * j, 1074);
    law_short_sums_are_exact(
        sum(product(a.x, n.x), product(a.y, n.y)),
        product(a.z, n.z),
        p.0 * i + p.1 * j,
        p.2 * k,
        1074,
    );
    lemma_cofactors(p, q, r);
}

proof fn lemma_cofactors(p: (int, int, int), q: (int, int, int), r: (int, int, int))
    ensures
        p.0 * (q.1 * r.2 - q.2 * r.1) + p.1 * (q.2 * r.0 - q.0 * r.2) + p.2 * (q.0 * r.1 - q.1 * r.0) == spanned(p, q, r),
{
    let (x, y, z) = (p.0, q.1, r.2);
    assert(x * (q.1 * r.2 - q.2 * r.1) == x * q.1 * r.2 - x * q.2 * r.1) by (nonlinear_arith);
    let y = p.1;
    assert(y * (q.2 * r.0 - q.0 * r.2) == y * q.2 * r.0 - y * q.0 * r.2) by (nonlinear_arith);
    let z = p.2;
    assert(z * (q.0 * r.1 - q.1 * r.0) == z * q.0 * r.1 - z * q.1 * r.0) by (nonlinear_arith);
}

} // verus!
