//! A line crosses a closed surface inward as often as outward.

use crate::math::Vec3;
use crate::mesh::bvh::corner_array;
use crate::mesh::bvh::displaced::{
    aside, common, cross, lemma_aside, lemma_edge_determinant, lemma_no_volume, lemma_triangle_passes, lemma_way_turns,
    nil, offset, passing, side_of, way,
};
use crate::mesh::bvh::simplicity::{crossing, edge_sign, law_edge_sign_is_antisymmetric, Crossing};
use crate::mesh::validate::edges::{is_edge, is_side, lemma_uses, proper, side, uses, EdgeUse};
use crate::mesh::validate::{consistent, manifold};
use crate::predicates::orient3d_det;
use vstd::prelude::*;

verus! {

/// The total of a weight over a sequence.
spec fn total(s: Seq<EdgeUse>, w: spec_fn(EdgeUse) -> int) -> int
    decreases s.len(),
{
    if s.len() == 0 {
        0
    } else {
        total(s.drop_last(), w) + w(s.last())
    }
}

proof fn lemma_total_remove(s: Seq<EdgeUse>, w: spec_fn(EdgeUse) -> int, j: int)
    requires
        0 <= j < s.len(),
    ensures
        total(s, w) == total(s.remove(j), w) + w(s[j]),
    decreases s.len(),
{
    let t = s.remove(j);
    if j == s.len() - 1 {
        assert(t =~= s.drop_last());
    } else {
        lemma_total_remove(s.drop_last(), w, j);
        assert(t.drop_last() =~= s.drop_last().remove(j));
        assert(t.last() == s.last());
    }
}

/// A use that weighs nothing, or has another with the opposite weight.
spec fn matched(s: Seq<EdgeUse>, mate: spec_fn(EdgeUse) -> EdgeUse, w: spec_fn(EdgeUse) -> int, x: EdgeUse) -> bool {
    w(x) == 0 || (s.contains(mate(x)) && mate(x) != x && mate(mate(x)) == x && w(mate(x)) == -w(x))
}

/// The uses that weigh anything come in pairs of opposite weights.
spec fn paired(s: Seq<EdgeUse>, mate: spec_fn(EdgeUse) -> EdgeUse, w: spec_fn(EdgeUse) -> int) -> bool {
    &&& s.no_duplicates()
    &&& forall|x: EdgeUse| #[trigger] s.contains(x) ==> matched(s, mate, w, x)
}

pub proof fn lemma_removed<T>(s: Seq<T>, j: int, y: T)
    requires
        s.no_duplicates(),
        0 <= j < s.len(),
    ensures
        s.remove(j).no_duplicates(),
        s.remove(j).contains(y) <==> s.contains(y) && y != s[j],
{
    let t = s.remove(j);
    assert forall|p: int, q: int| 0 <= p < t.len() && 0 <= q < t.len() && p != q implies t[p] != t[q] by {
        let a = if p < j {
            p
        } else {
            p + 1
        };
        let b = if q < j {
            q
        } else {
            q + 1
        };
        assert(t[p] == s[a] && t[q] == s[b]);
    }
    if t.contains(y) {
        let p = choose|p: int| 0 <= p < t.len() && t[p] == y;
        let a = if p < j {
            p
        } else {
            p + 1
        };
        assert(s[a] == y);
    }
    if s.contains(y) && y != s[j] {
        let p = choose|p: int| 0 <= p < s.len() && s[p] == y;
        let a = if p < j {
            p
        } else {
            p - 1
        };
        assert(t[a] == y);
    }
}

proof fn lemma_paired_total(s: Seq<EdgeUse>, mate: spec_fn(EdgeUse) -> EdgeUse, w: spec_fn(EdgeUse) -> int)
    requires
        paired(s, mate, w),
    ensures
        total(s, w) == 0,
    decreases s.len(),
{
    if s.len() > 0 {
        let n = s.len() - 1;
        let x = s[n];
        assert(s.contains(x));
        let a = s.remove(n);
        lemma_total_remove(s, w, n);
        if w(x) == 0 {
            lemma_removed(s, n, x);
            assert forall|z: EdgeUse| #[trigger] a.contains(z) implies matched(a, mate, w, z) by {
                lemma_removed(s, n, z);
                lemma_removed(s, n, mate(z));
                assert(matched(s, mate, w, z));
            }
            lemma_paired_total(a, mate, w);
        } else {
            assert(matched(s, mate, w, x));
            let y = mate(x);
            lemma_removed(s, n, y);
            assert(a.contains(y));
            let j = choose|j: int| 0 <= j < a.len() && a[j] == y;
            let t = a.remove(j);
            lemma_total_remove(a, w, j);
            lemma_removed(a, j, y);
            assert forall|z: EdgeUse| #[trigger] t.contains(z) implies matched(t, mate, w, z) by {
                lemma_removed(s, n, z);
                lemma_removed(a, j, z);
                lemma_removed(s, n, mate(z));
                lemma_removed(a, j, mate(z));
                assert(matched(s, mate, w, z));
            }
            lemma_paired_total(t, mate, w);
        }
    }
}

/// How a line passes triangle `i` of a mesh.
pub open spec fn crossing_at(points: Seq<Vec3>, faces: Seq<[u32; 3]>, o: Vec3, p: Vec3, i: int) -> Crossing {
    crossing(o, p, corner_array(points, faces[i]), faces[i])
}

/// One for a crossing into the material, and minus one for a crossing out of it.
pub open spec fn worth(c: Crossing) -> int {
    match c {
        Crossing::Hit { positive } => if positive {
            1
        } else {
            -1
        },
        _ => 0,
    }
}

/// Crossings into the material less crossings out of it, over the first `n`
/// triangles.
pub open spec fn balance(points: Seq<Vec3>, faces: Seq<[u32; 3]>, o: Vec3, p: Vec3, n: nat) -> int
    decreases n,
{
    if n == 0 {
        0
    } else {
        balance(points, faces, o, p, (n - 1) as nat) + worth(crossing_at(points, faces, o, p, n - 1))
    }
}

/// Displaced vertices or not, the line passes triangle `i` on one side of all its
/// edges.
pub open spec fn agreeing(points: Seq<Vec3>, faces: Seq<[u32; 3]>, o: Vec3, p: Vec3, i: int) -> bool {
    let t = faces[i];
    let tri = corner_array(points, t);
    let s = edge_sign(o, p, tri[0], t[0], tri[1], t[1]);
    &&& t[0] != t[1] && t[1] != t[2] && t[2] != t[0]
    &&& s == edge_sign(o, p, tri[1], t[1], tri[2], t[2])
    &&& s == edge_sign(o, p, tri[2], t[2], tri[0], t[0])
}

/// The line lies in the plane of no triangle that it would cross if the vertices
/// were displaced.
pub open spec fn ungrazed(points: Seq<Vec3>, faces: Seq<[u32; 3]>, o: Vec3, p: Vec3) -> bool {
    forall|i: int|
        0 <= i < faces.len() && #[trigger] crossing_at(points, faces, o, p, i) is Coplanar ==> !agreeing(
            points,
            faces,
            o,
            p,
            i,
        )
}

/// No triangle lies in one plane with the line.
pub open spec fn out_of_plane(points: Seq<Vec3>, faces: Seq<[u32; 3]>, o: Vec3, p: Vec3) -> bool {
    forall|i: int| 0 <= i < faces.len() ==> !(#[trigger] crossing_at(points, faces, o, p, i) is Coplanar)
}

/// How the side of a use passes the half-line on one side of the line.
spec fn weight(points: Seq<Vec3>, o: Vec3, p: Vec3, x: EdgeUse) -> int {
    let (a, b) = if x.forward {
        (x.edge.low, x.edge.high)
    } else {
        (x.edge.high, x.edge.low)
    };
    edge_weight(points, o, p, a, b)
}

/// How the directed edge between two vertices passes that half-line.
#[verifier::opaque]
spec fn edge_weight(points: Seq<Vec3>, o: Vec3, p: Vec3, a: u32, b: u32) -> int {
    let n = cross(offset(p, o), aside(offset(p, o)));
    passing(
        side_of(n, offset(points[a as int], o)),
        side_of(n, offset(points[b as int], o)),
        way(o, p, points[a as int], a, points[b as int], b),
    )
}

proof fn lemma_edge_weight_turns(points: Seq<Vec3>, o: Vec3, p: Vec3, a: u32, b: u32)
    ensures
        a != b ==> edge_weight(points, o, p, b, a) == -edge_weight(points, o, p, a, b),
        a == b ==> edge_weight(points, o, p, a, b) == 0,
{
    reveal(edge_weight);
    if a != b {
        lemma_way_turns(o, p, points[a as int], a, points[b as int], b);
    }
}

/// The sides of the first triangles.
spec fn sides(faces: Seq<[u32; 3]>, m: nat) -> Seq<EdgeUse> {
    Seq::new(m, |s: int| side(faces, s / 3, s % 3))
}

/// The signs of the edge functions of a triangle tell its crossing.
pub proof fn lemma_crossing_of_ways(points: Seq<Vec3>, faces: Seq<[u32; 3]>, o: Vec3, p: Vec3, i: int)
    requires
        0 <= i < faces.len(),
        faces[i][0] != faces[i][1] && faces[i][1] != faces[i][2] && faces[i][2] != faces[i][0],
    ensures
        ({
            let t = faces[i];
            let (va, vb, vc) = (points[t[0] as int], points[t[1] as int], points[t[2] as int]);
            let s = way(o, p, va, t[0], vb, t[1]);
            let u = way(o, p, vb, t[1], vc, t[2]);
            let w = way(o, p, vc, t[2], va, t[0]);
            &&& agreeing(points, faces, o, p, i) <==> common(s, u, w) != 0
            &&& !(crossing_at(points, faces, o, p, i) is Coplanar && agreeing(points, faces, o, p, i)) ==> worth(
                crossing_at(points, faces, o, p, i),
            ) == common(s, u, w)
        }),
{
    reveal(way);
    let t = faces[i];
    let (va, vb, vc) = (points[t[0] as int], points[t[1] as int], points[t[2] as int]);
    let tri = corner_array(points, t);
    assert(tri[0] == va && tri[1] == vb && tri[2] == vc);
    lemma_way_turns(o, p, va, t[0], vb, t[1]);
    lemma_way_turns(o, p, vb, t[1], vc, t[2]);
    lemma_way_turns(o, p, vc, t[2], va, t[0]);
}

/// A triangle that uses a vertex twice is not crossed.
pub proof fn lemma_folded(points: Seq<Vec3>, faces: Seq<[u32; 3]>, o: Vec3, p: Vec3, i: int)
    requires
        0 <= i < faces.len(),
        faces[i][0] == faces[i][1] || faces[i][1] == faces[i][2] || faces[i][2] == faces[i][0],
    ensures
        worth(crossing_at(points, faces, o, p, i)) == 0,
{
    let t = faces[i];
    let (va, vb, vc) = (points[t[0] as int], points[t[1] as int], points[t[2] as int]);
    let tri = corner_array(points, t);
    assert(tri[0] == va && tri[1] == vb && tri[2] == vc);
    if t[0] == t[1] && t[1] == t[2] {
        lemma_edge_determinant(o, p, va, va);
    } else if t[0] == t[1] {
        law_edge_sign_is_antisymmetric(o, p, vb, t[1], vc, t[2]);
    } else if t[1] == t[2] {
        law_edge_sign_is_antisymmetric(o, p, vc, t[2], va, t[0]);
    } else {
        law_edge_sign_is_antisymmetric(o, p, va, t[0], vb, t[1]);
    }
}

proof fn lemma_triangle_weight(points: Seq<Vec3>, faces: Seq<[u32; 3]>, o: Vec3, p: Vec3, i: int)
    requires
        0 <= i < faces.len(),
        !nil(offset(p, o)),
        !(crossing_at(points, faces, o, p, i) is Coplanar && agreeing(points, faces, o, p, i)),
    ensures
        weight(points, o, p, side(faces, i, 0)) + weight(points, o, p, side(faces, i, 1)) + weight(
            points,
            o,
            p,
            side(faces, i, 2),
        ) == worth(crossing_at(points, faces, o, p, i)),
{
    let t = faces[i];
    let (a, b, c) = (t[0], t[1], t[2]);
    lemma_edge_weight_turns(points, o, p, a, b);
    lemma_edge_weight_turns(points, o, p, b, c);
    lemma_edge_weight_turns(points, o, p, c, a);
    if a == b || b == c || c == a {
        lemma_folded(points, faces, o, p, i);
    } else {
        let (va, vb, vc) = (points[a as int], points[b as int], points[c as int]);
        let d = offset(p, o);
        lemma_aside(d);
        lemma_triangle_passes(o, p, va, a, vb, b, vc, c, aside(d));
        lemma_crossing_of_ways(points, faces, o, p, i);
        reveal(edge_weight);
    }
}

proof fn lemma_sides_total(
    points: Seq<Vec3>,
    faces: Seq<[u32; 3]>,
    o: Vec3,
    p: Vec3,
    n: nat,
    f: spec_fn(EdgeUse) -> int,
)
    requires
        forall|x: EdgeUse| #[trigger] f(x) == weight(points, o, p, x),
        ungrazed(points, faces, o, p),
        !nil(offset(p, o)),
        n <= faces.len(),
    ensures
        total(sides(faces, 3 * n), f) == balance(points, faces, o, p, n),
    decreases n,
{
    if n > 0 {
        let m = (n - 1) as nat;
        lemma_sides_total(points, faces, o, p, m, f);
        lemma_triangle_weight(points, faces, o, p, m as int);
        let s0 = sides(faces, 3 * m);
        let s1 = sides(faces, (3 * m + 1) as nat);
        let s2 = sides(faces, (3 * m + 2) as nat);
        let s3 = sides(faces, 3 * n);
        assert(3 * m as int / 3 == m && 3 * m as int % 3 == 0);
        assert((3 * m + 1) as int / 3 == m && (3 * m + 1) as int % 3 == 1);
        assert((3 * m + 2) as int / 3 == m && (3 * m + 2) as int % 3 == 2);
        assert(s1.drop_last() =~= s0);
        assert(s2.drop_last() =~= s1);
        assert(s3.drop_last() =~= s2);
        assert(s1.last() == side(faces, m as int, 0));
        assert(s2.last() == side(faces, m as int, 1));
        assert(s3.last() == side(faces, m as int, 2));
        assert(total(s1, f) == total(s0, f) + f(s1.last()));
        assert(total(s2, f) == total(s1, f) + f(s2.last()));
        assert(total(s3, f) == total(s2, f) + f(s3.last()));
    }
}

proof fn lemma_all_sides(faces: Seq<[u32; 3]>)
    requires
        faces.len() <= u32::MAX,
    ensures
        sides(faces, 3 * faces.len()).no_duplicates(),
        forall|x: EdgeUse| #[trigger]
            sides(faces, 3 * faces.len()).contains(x) ==> is_side(faces, x) || x.edge.low == x.edge.high,
        forall|x: EdgeUse| #[trigger] is_side(faces, x) ==> sides(faces, 3 * faces.len()).contains(x),
{
    let s = sides(faces, 3 * faces.len());
    assert forall|i: int, j: int| 0 <= i < s.len() && 0 <= j < s.len() && i != j implies s[i] != s[j] by {
        assert(s[i].triangle == i / 3 && s[i].corner == i % 3);
        assert(s[j].triangle == j / 3 && s[j].corner == j % 3);
    }
    assert forall|x: EdgeUse| #[trigger] s.contains(x) implies is_side(faces, x) || x.edge.low == x.edge.high by {
        let i = choose|i: int| 0 <= i < s.len() && s[i] == x;
        assert(x.triangle == i / 3 && x.corner == i % 3);
        assert(0 <= i / 3 < faces.len() && 0 <= i % 3 < 3);
    }
    assert forall|x: EdgeUse| #[trigger] is_side(faces, x) implies s.contains(x) by {
        let i = 3 * x.triangle + x.corner;
        assert(i / 3 == x.triangle && i % 3 == x.corner);
        assert(s[i] == x);
    }
}

/// The other use of the edge of a use.
spec fn partner(faces: Seq<[u32; 3]>, x: EdgeUse) -> EdgeUse {
    let u = uses(faces, x.edge);
    if u[0] == x {
        u[1]
    } else {
        u[0]
    }
}

proof fn lemma_partner(points: Seq<Vec3>, faces: Seq<[u32; 3]>, o: Vec3, p: Vec3, x: EdgeUse)
    requires
        faces.len() <= u32::MAX,
        manifold(faces),
        consistent(faces),
        is_side(faces, x),
    ensures
        ({
            let y = partner(faces, x);
            &&& is_side(faces, y)
            &&& y != x
            &&& partner(faces, y) == x
            &&& weight(points, o, p, y) == -weight(points, o, p, x)
        }),
{
    let e = x.edge;
    let s = uses(faces, e);
    lemma_uses(faces, e);
    assert(s.contains(x));
    assert(is_edge(faces, e));
    assert(s.len() == 2);
    assert(s[0] != s[1]);
    assert(s.contains(s[0]) && s.contains(s[1]));
    assert(s[0].forward != s[1].forward);
    assert(e.low != e.high) by {
        assert(proper(faces, x.triangle as int, x.corner as int));
    }
    lemma_edge_weight_turns(points, o, p, e.low, e.high);
}

/// Where the two points of a line coincide, every triangle lies in a plane with
/// them.
proof fn lemma_no_line(points: Seq<Vec3>, faces: Seq<[u32; 3]>, o: Vec3, p: Vec3, n: nat)
    requires
        nil(offset(p, o)),
        n <= faces.len(),
    ensures
        balance(points, faces, o, p, n) == 0,
    decreases n,
{
    if n > 0 {
        lemma_no_line(points, faces, o, p, (n - 1) as nat);
        let t = faces[n - 1];
        let (va, vb, vc) = (points[t[0] as int], points[t[1] as int], points[t[2] as int]);
        let tri = corner_array(points, t);
        assert(tri[0] == va && tri[1] == vb && tri[2] == vc);
        lemma_flat(o, p, va, vb);
        lemma_flat(o, p, vb, vc);
        lemma_flat(o, p, vc, va);
    }
}

proof fn lemma_flat(o: Vec3, p: Vec3, a: Vec3, b: Vec3)
    requires
        nil(offset(p, o)),
    ensures
        orient3d_det(o, p, a, b) == 0,
{
    lemma_edge_determinant(o, p, a, b);
    lemma_no_volume(offset(p, o), offset(a, o), offset(b, o));
}

/// A line crosses a closed, consistently oriented surface inward exactly as often
/// as outward, also where it runs through edges and vertices, unless it lies in
/// the plane of a triangle that it would cross if the vertices were displaced.
pub proof fn law_displaced_crossings_balance(points: Seq<Vec3>, faces: Seq<[u32; 3]>, o: Vec3, p: Vec3)
    requires
        faces.len() <= u32::MAX,
        manifold(faces),
        consistent(faces),
        ungrazed(points, faces, o, p),
    ensures
        balance(points, faces, o, p, faces.len()) == 0,
{
    if nil(offset(p, o)) {
        lemma_no_line(points, faces, o, p, faces.len());
    } else {
        let f = |x: EdgeUse| weight(points, o, p, x);
        let mate = |x: EdgeUse| partner(faces, x);
        let s = sides(faces, 3 * faces.len());
        lemma_sides_total(points, faces, o, p, faces.len(), f);
        lemma_all_sides(faces);
        assert forall|x: EdgeUse| #[trigger] s.contains(x) implies matched(s, mate, f, x) by {
            if is_side(faces, x) {
                lemma_partner(points, faces, o, p, x);
                assert(is_side(faces, mate(x)));
            } else {
                lemma_edge_weight_turns(points, o, p, x.edge.low, x.edge.low);
            }
        }
        lemma_paired_total(s, mate, f);
    }
}

/// A line that lies in one plane with no triangle of a closed, consistently
/// oriented surface crosses it inward exactly as often as outward, also where it
/// runs through edges and vertices. So it crosses it evenly often.
pub proof fn law_crossings_balance(points: Seq<Vec3>, faces: Seq<[u32; 3]>, o: Vec3, p: Vec3)
    requires
        faces.len() <= u32::MAX,
        manifold(faces),
        consistent(faces),
        out_of_plane(points, faces, o, p),
    ensures
        balance(points, faces, o, p, faces.len()) == 0,
{
    law_displaced_crossings_balance(points, faces, o, p);
}

} // verus!
