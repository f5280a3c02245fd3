//! Generated shapes are determined: what is said of their vertices and triangles
//! leaves no choice.

use crate::math::Vec3;
use crate::mesh::shapes::{
    block_points, corners_at, divided_at, divided_faces, divided_icosahedron, divided_points, edges_met, noted, quad_corner,
    same_edge, with_edge, Edge, GridPoint,
};
use vstd::prelude::*;

verus! {

proof fn lemma_noted_once(s: Seq<GridPoint>, p: GridPoint)
    requires
        s.no_duplicates(),
    ensures
        noted(s, p).no_duplicates(),
{
    if !s.contains(p) {
        let t = s.push(p);
        assert forall|i: int, j: int| 0 <= i < t.len() && 0 <= j < t.len() && i != j implies t[i] != t[j] by {
            if i < s.len() {
                assert(s.contains(s[i]));
            }
            if j < s.len() {
                assert(s.contains(s[j]));
            }
        }
    }
}

/// The points of a lattice block are noted once each.
pub proof fn law_block_points_are_distinct(n: int, k: nat)
    ensures
        block_points(n, k).no_duplicates(),
    decreases k,
{
    if k > 0 {
        let q = k - 1;
        let s = block_points(n, (k - 1) as nat);
        law_block_points_are_distinct(n, (k - 1) as nat);
        let s1 = noted(s, quad_corner(n, q, 0, 0));
        let s2 = noted(s1, quad_corner(n, q, 1, 0));
        let s3 = noted(s2, quad_corner(n, q, 1, 1));
        lemma_noted_once(s, quad_corner(n, q, 0, 0));
        lemma_noted_once(s1, quad_corner(n, q, 1, 0));
        lemma_noted_once(s2, quad_corner(n, q, 1, 1));
        lemma_noted_once(s3, quad_corner(n, q, 0, 1));
    }
}

/// Points that are noted once each tell a triangle by its corners.
pub proof fn law_corners_tell_a_triangle(
    points: Seq<GridPoint>,
    t: [u32; 3],
    u: [u32; 3],
    g: (GridPoint, GridPoint, GridPoint),
)
    requires
        points.no_duplicates(),
        corners_at(points, t, g),
        corners_at(points, u, g),
    ensures
        t == u,
{
    assert(t[0] == u[0] && t[1] == u[1] && t[2] == u[2]);
    assert(t@ =~= u@);
    assert(t =~= u);
}

/// No edge is met twice, whichever way it is run through.
spec fn met_once(s: Seq<Edge>) -> bool {
    forall|i: int, j: int| 0 <= i < s.len() && 0 <= j < s.len() && same_edge(#[trigger] s[i], #[trigger] s[j]) ==> i == j
}

proof fn lemma_edge_met_once(s: Seq<Edge>, e: Edge)
    requires
        met_once(s),
    ensures
        met_once(with_edge(s, e)),
{
    let t = with_edge(s, e);
    assert forall|i: int, j: int|
        0 <= i < t.len() && 0 <= j < t.len() && same_edge(#[trigger] t[i], #[trigger] t[j]) implies i == j by {
        if t.len() > s.len() {
            if i < s.len() {
                assert(t[i] == s[i]);
            }
            if j < s.len() {
                assert(t[j] == s[j]);
            }
        }
    }
}

proof fn lemma_edges_met_once(t: Seq<[u32; 3]>, n: nat)
    ensures
        met_once(edges_met(t, n)),
    decreases n,
{
    if n > 0 {
        lemma_edges_met_once(t, (n - 1) as nat);
        let x = t[n - 1];
        let s = edges_met(t, (n - 1) as nat);
        let s1 = with_edge(s, Edge { a: x[0], b: x[1] });
        let s2 = with_edge(s1, Edge { a: x[1], b: x[2] });
        lemma_edge_met_once(s, Edge { a: x[0], b: x[1] });
        lemma_edge_met_once(s1, Edge { a: x[1], b: x[2] });
        lemma_edge_met_once(s2, Edge { a: x[2], b: x[0] });
    }
}

proof fn lemma_same_divided(base: int, t: Seq<[u32; 3]>, u: Seq<[u32; 3]>, w: Seq<[u32; 3]>)
    requires
        divided_faces(base, t, u),
        divided_faces(base, t, w),
    ensures
        u == w,
{
    let s = edges_met(t, t.len());
    lemma_edges_met_once(t, t.len());
    assert forall|i: int| 0 <= i < u.len() implies u[i] == w[i] by {
        let k = i / 4;
        assert(0 <= k < t.len() && 4 * k <= i < 4 * k + 4);
        assert(divided_at(t, s, base, u, k));
        assert(divided_at(t, s, base, w, k));
        let (m, n) = (u[4 * k + 3], w[4 * k + 3]);
        assert(same_edge(s[m[0] - base], s[n[0] - base]));
        assert(same_edge(s[m[1] - base], s[n[1] - base]));
        assert(same_edge(s[m[2] - base], s[n[2] - base]));
        assert(m[0] == n[0] && m[1] == n[1] && m[2] == n[2]);
        assert(m@ =~= n@);
        assert(m =~= n);
        assert(u[i]@ =~= w[i]@);
        assert(u[i] =~= w[i]);
    }
    assert(u =~= w);
}

/// There is one icosahedron after `n` subdivisions.
pub proof fn law_divided_icosahedron_is_unique(
    v: Seq<Vec3>,
    t: Seq<[u32; 3]>,
    w: Seq<Vec3>,
    u: Seq<[u32; 3]>,
    n: nat,
)
    requires
        divided_icosahedron(v, t, n),
        divided_icosahedron(w, u, n),
    ensures
        v == w,
        t == u,
    decreases n,
{
    if n > 0 {
        let m = (n - 1) as nat;
        let (v1, t1) = choose|v1: Seq<Vec3>, t1: Seq<[u32; 3]>|
            #![trigger divided_faces(v1.len() as int, t1, t)]
            divided_icosahedron(v1, t1, m) && v == divided_points(v1, t1) && divided_faces(v1.len() as int, t1, t);
        let (w1, u1) = choose|w1: Seq<Vec3>, u1: Seq<[u32; 3]>|
            #![trigger divided_faces(w1.len() as int, u1, u)]
            divided_icosahedron(w1, u1, m) && w == divided_points(w1, u1) && divided_faces(w1.len() as int, u1, u);
        law_divided_icosahedron_is_unique(v1, t1, w1, u1, m);
        lemma_same_divided(v1.len() as int, t1, t, u);
    }
}

} // verus!
