//! What the hits of a line tell of the solid that it passes.

use crate::arithmetic::sum;
use crate::double::{Double, INFINITY_BITS, SIGN};
use crate::math::{Aabb3, Ray, Vec3};
use crate::mesh::bvh::casting::{castable, far_point, lemma_far_point, plane_meeting, slab_step, slabs, Hit};
use crate::mesh::bvh::displaced::{component, lemma_beside, offset};
use crate::mesh::bvh::laws::{law_node_bounds_enclose, lemma_scene_proper, lemma_triangle_box, proper_box, proper_scene};
use crate::mesh::bvh::parity::{
    agreeing, balance, crossing_at, law_displaced_crossings_balance, lemma_crossing_of_ways, worth,
};
use crate::mesh::bvh::tree::{
    beneath, in_index_order, left_half, lemma_beneath, lemma_beneath_bound, lemma_halves, lemma_settled, lemma_split, node_box, right_half, scene_of,
    split, triangle_box, BvhNode, Scene,
};
use crate::mesh::bvh::{
    corner_array, counts, lemma_children, lemma_leaf, lemma_root_subtree, line_of, parental, subtree, trace,
    triangle_trace, triangles_trace, Bvh, Line, RayStats, Trace,
};
use crate::mesh::validate::{consistent, manifold};
use crate::mesh::{corners_of, sound, sound_vertex};
use crate::order::{law_order_is_value_order, law_rounding_fixes_doubles};
use crate::sorting::lemma_same_values;
use vstd::prelude::*;

verus! {

/// The triangles that a walk tests beneath node `i`.
pub open spec fn walked(nodes: Seq<BvhNode>, order: Seq<u32>, line: Line, i: int) -> Seq<u32>
    decreases nodes.len() - i,
{
    if i < 0 || i >= nodes.len() || !slabs(nodes[i].bounds, line.origin, line.direction, line.inverse) {
        Seq::empty()
    } else if nodes[i].leaf() {
        let first = nodes[i].first_or_left as int;
        order.subrange(first, first + nodes[i].count)
    } else if !parental(nodes, i) {
        Seq::empty()
    } else {
        let left = nodes[i].first_or_left as int;
        walked(nodes, order, line, left) + walked(nodes, order, line, left + 1)
    }
}

proof fn lemma_traces_join(line: Line, a: Seq<u32>, b: Seq<u32>)
    ensures
        triangles_trace(line, a + b).hits == triangles_trace(line, a).hits + triangles_trace(line, b).hits,
        triangles_trace(line, a + b).coplanar == triangles_trace(line, a).coplanar + triangles_trace(line, b).coplanar,
    decreases b.len(),
{
    if b.len() == 0 {
        assert(a + b =~= a);
        assert(triangles_trace(line, a).hits + Seq::<Hit>::empty() =~= triangles_trace(line, a).hits);
    } else {
        lemma_traces_join(line, a, b.drop_last());
        assert((a + b).drop_last() =~= a + b.drop_last());
        assert((a + b).last() == b.last());
        let t = triangle_trace(line, b.last());
        assert(triangles_trace(line, a).hits + triangles_trace(line, b.drop_last()).hits + t.hits =~= triangles_trace(
            line,
            a,
        ).hits + (triangles_trace(line, b.drop_last()).hits + t.hits));
    }
}

/// A walk meets what it meets at the triangles that it tests.
proof fn lemma_walked(
    nodes: Seq<BvhNode>,
    order: Seq<u32>,
    scene: Scene,
    s: Seq<u32>,
    start: int,
    base: int,
    at: int,
    line: Line,
)
    requires
        subtree(nodes, order, scene, s, start, base, at),
        s.no_duplicates(),
    ensures
        trace(nodes, order, line, at).hits == triangles_trace(line, walked(nodes, order, line, at)).hits,
        trace(nodes, order, line, at).coplanar == triangles_trace(line, walked(nodes, order, line, at)).coplanar,
        walked(nodes, order, line, at).no_duplicates(),
        forall|x: u32| #[trigger] walked(nodes, order, line, at).contains(x) ==> s.contains(x),
    decreases s.len(),
{
    let w = walked(nodes, order, line, at);
    if s.len() <= 4 {
        lemma_leaf(nodes, order, scene, s, start, base, at);
        let t = triangles_trace(line, s);
        assert(Seq::<Hit>::empty() + t.hits =~= t.hits);
    } else {
        lemma_children(nodes, order, scene, s, start, base, at);
        let l = left_half(scene, s);
        let r = right_half(scene, s);
        let m = s.len() as int / 2;
        let next = base + 2 + beneath(l.len() as int);
        lemma_halves_apart(scene, s);
        lemma_halves(scene, s);
        lemma_walked(nodes, order, scene, l, start, base + 2, base, line);
        lemma_walked(nodes, order, scene, r, start + m, next, base + 1, line);
        let a = walked(nodes, order, line, base);
        let b = walked(nodes, order, line, base + 1);
        assert(parental(nodes, at));
        if slabs(nodes[at].bounds, line.origin, line.direction, line.inverse) {
            assert(w == a + b);
            lemma_traces_join(line, a, b);
            let (ha, hb) = (triangles_trace(line, a).hits, triangles_trace(line, b).hits);
            assert(Seq::<Hit>::empty() + ha + hb =~= ha + hb);
            assert forall|i: int, j: int| 0 <= i < w.len() && 0 <= j < w.len() && i != j implies w[i] != w[j] by {
                if i < a.len() && j >= a.len() {
                    assert(a.contains(w[i]) && b.contains(w[j]));
                }
                if j < a.len() && i >= a.len() {
                    assert(a.contains(w[j]) && b.contains(w[i]));
                }
            }
            assert forall|x: u32| #[trigger] w.contains(x) implies s.contains(x) by {
                let i = choose|i: int| 0 <= i < w.len() && w[i] == x;
                if i < a.len() {
                    assert(a.contains(x));
                } else {
                    assert(b[i - a.len()] == x);
                    assert(b.contains(x));
                }
            }
        }
    }
}

/// The halves of triangles that occur once each have none in common.
proof fn lemma_halves_apart(scene: Scene, s: Seq<u32>)
    requires
        s.no_duplicates(),
    ensures
        left_half(scene, s).no_duplicates(),
        right_half(scene, s).no_duplicates(),
        forall|x: u32, y: u32|
            #[trigger] left_half(scene, s).contains(x) && #[trigger] right_half(scene, s).contains(y) ==> x != y,
{
    lemma_split(scene, s);
    let t = split(scene, s);
    s.lemma_multiset_has_no_duplicates();
    t.lemma_multiset_has_no_duplicates_conv();
    let l = left_half(scene, s);
    let r = right_half(scene, s);
    let m = s.len() as int / 2;
    lemma_same_values(t, s);
    assert forall|x: u32, y: u32| #[trigger] l.contains(x) && #[trigger] r.contains(y) implies x != y by {
        let i = choose|i: int| 0 <= i < l.len() && l[i] == x;
        let j = choose|j: int| 0 <= j < r.len() && r[j] == y;
        assert(t[i] == x && t[m + j] == y);
    }
}

/// Crossings into the material less crossings out of it, at some triangles.
spec fn gains(points: Seq<Vec3>, faces: Seq<[u32; 3]>, o: Vec3, p: Vec3, s: Seq<u32>) -> int
    decreases s.len(),
{
    if s.len() == 0 {
        0
    } else {
        gains(points, faces, o, p, s.drop_last()) + worth(crossing_at(points, faces, o, p, s.last() as int))
    }
}

proof fn lemma_gains_remove(points: Seq<Vec3>, faces: Seq<[u32; 3]>, o: Vec3, p: Vec3, s: Seq<u32>, j: int)
    requires
        0 <= j < s.len(),
    ensures
        gains(points, faces, o, p, s) == gains(points, faces, o, p, s.remove(j)) + worth(
            crossing_at(points, faces, o, p, s[j] as int),
        ),
    decreases s.len(),
{
    let t = s.remove(j);
    if j == s.len() - 1 {
        assert(t =~= s.drop_last());
    } else {
        lemma_gains_remove(points, faces, o, p, s.drop_last(), j);
        assert(t.drop_last() =~= s.drop_last().remove(j));
        assert(t.last() == s.last());
    }
}

/// Triangles that occur once each, and among which are all that are crossed.
proof fn lemma_gains(points: Seq<Vec3>, faces: Seq<[u32; 3]>, o: Vec3, p: Vec3, s: Seq<u32>, n: nat)
    requires
        s.no_duplicates(),
        n <= u32::MAX,
        forall|x: u32| #[trigger] s.contains(x) ==> x < n,
        forall|x: u32| x < n && worth(#[trigger] crossing_at(points, faces, o, p, x as int)) != 0 ==> s.contains(x),
    ensures
        gains(points, faces, o, p, s) == balance(points, faces, o, p, n),
    decreases n,
{
    if n == 0 {
        if s.len() > 0 {
            assert(s.contains(s[0]));
        }
    } else {
        let x = (n - 1) as u32;
        let m = (n - 1) as nat;
        if s.contains(x) {
            let j = choose|j: int| 0 <= j < s.len() && s[j] == x;
            let t = s.remove(j);
            lemma_gains_remove(points, faces, o, p, s, j);
            assert forall|y: u32| (#[trigger] t.contains(y) <==> s.contains(y) && y != x) by {
                crate::mesh::bvh::parity::lemma_removed(s, j, y);
            }
            crate::mesh::bvh::parity::lemma_removed(s, j, x);
            lemma_gains(points, faces, o, p, t, m);
        } else {
            assert(worth(crossing_at(points, faces, o, p, x as int)) == 0);
            lemma_gains(points, faces, o, p, s, m);
        }
    }
}

/// How many hits enter material.
pub open spec fn entries(hits: Seq<Hit>) -> int
    decreases hits.len(),
{
    if hits.len() == 0 {
        0
    } else {
        entries(hits.drop_last()) + (if hits.last().entering {
            1int
        } else {
            0
        })
    }
}

proof fn lemma_entries_join(a: Seq<Hit>, b: Seq<Hit>)
    ensures
        entries(a + b) == entries(a) + entries(b),
    decreases b.len(),
{
    if b.len() == 0 {
        assert(a + b =~= a);
    } else {
        lemma_entries_join(a, b.drop_last());
        assert((a + b).drop_last() =~= a + b.drop_last());
        assert((a + b).last() == b.last());
    }
}

proof fn lemma_entries_remove(s: Seq<Hit>, j: int)
    requires
        0 <= j < s.len(),
    ensures
        entries(s) == entries(s.remove(j)) + (if s[j].entering {
            1int
        } else {
            0
        }),
    decreases s.len(),
{
    let t = s.remove(j);
    if j == s.len() - 1 {
        assert(t =~= s.drop_last());
    } else {
        lemma_entries_remove(s.drop_last(), j);
        assert(t.drop_last() =~= s.drop_last().remove(j));
        assert(t.last() == s.last());
    }
}

/// Permuted hits have as many entries.
proof fn lemma_entries_permute(a: Seq<Hit>, b: Seq<Hit>)
    requires
        a.to_multiset() == b.to_multiset(),
    ensures
        entries(a) == entries(b),
        a.len() == b.len(),
    decreases a.len(),
{
    broadcast use vstd::seq_lib::group_to_multiset_ensures;

    lemma_same_values(a, b);
    if a.len() > 0 {
        let x = a.last();
        assert(a.contains(x));
        assert(b.contains(x));
        let j = choose|j: int| 0 <= j < b.len() && b[j] == x;
        let c = a.drop_last();
        let d = b.remove(j);
        assert(a =~= c.push(x));
        assert(c.to_multiset() =~= a.to_multiset().remove(x));
        vstd::seq_lib::to_multiset_remove(b, j);
        assert(d.to_multiset() =~= b.to_multiset().remove(x));
        lemma_entries_permute(c, d);
        lemma_entries_remove(b, j);
    }
}

/// A triangle that is crossed has a place along the line.
pub open spec fn placed(line: Line, i: int) -> bool {
    worth(crossing_at(line.points, line.faces, line.origin, line.far, i)) != 0 ==> plane_meeting(
        line.origin,
        line.direction,
        corner_array(line.points, line.faces[i]),
    ) is Some
}

proof fn lemma_hits_of(line: Line, s: Seq<u32>)
    requires
        forall|x: u32| #[trigger] s.contains(x) ==> placed(line, x as int),
    ensures
        2 * entries(triangles_trace(line, s).hits) - triangles_trace(line, s).hits.len() == gains(
            line.points,
            line.faces,
            line.origin,
            line.far,
            s,
        ),
    decreases s.len(),
{
    if s.len() > 0 {
        let rest = s.drop_last();
        let x = s.last();
        assert forall|y: u32| #[trigger] rest.contains(y) implies placed(line, y as int) by {
            let i = choose|i: int| 0 <= i < rest.len() && rest[i] == y;
            assert(s[i] == y);
            assert(s.contains(y));
        }
        lemma_hits_of(line, rest);
        assert(s.contains(x));
        assert(placed(line, x as int));
        let h = triangle_trace(line, x).hits;
        lemma_entries_join(triangles_trace(line, rest).hits, h);
        reveal(triangle_trace);
        reveal_with_fuel(entries, 2);
        if h.len() == 1 {
            assert(h.drop_last() =~= Seq::<Hit>::empty());
        }
    }
}

proof fn lemma_one_coplanar(line: Line, x: u32)
    ensures
        triangle_trace(line, x).coplanar == (if crossing_at(
            line.points,
            line.faces,
            line.origin,
            line.far,
            x as int,
        ) is Coplanar {
            1int
        } else {
            0
        }),
{
    reveal(triangle_trace);
}

/// Where no triangle was counted, none of those tested lies in a plane with the
/// line.
proof fn lemma_none_coplanar(line: Line, s: Seq<u32>, i: int)
    requires
        0 <= i < s.len(),
    ensures
        triangles_trace(line, s).coplanar >= (if crossing_at(
            line.points,
            line.faces,
            line.origin,
            line.far,
            s[i] as int,
        ) is Coplanar {
            1int
        } else {
            0
        }),
    decreases s.len(),
{
    let rest = s.drop_last();
    lemma_one_coplanar(line, s.last());
    if i < rest.len() {
        assert(rest[i] == s[i]);
        lemma_none_coplanar(line, rest, i);
    } else {
        lemma_coplanar_counts(line, rest);
    }
}

proof fn lemma_coplanar_counts(line: Line, s: Seq<u32>)
    ensures
        triangles_trace(line, s).coplanar >= 0,
    decreases s.len(),
{
    if s.len() > 0 {
        lemma_coplanar_counts(line, s.drop_last());
        lemma_one_coplanar(line, s.last());
    }
}

/// The walk tests every triangle that the line crosses, displaced vertices or not,
/// and each that it crosses has a place along the line.
pub open spec fn loses_nothing(b: Bvh, line: Line) -> bool {
    forall|i: u32|
        i < line.faces.len() && #[trigger] agreeing(line.points, line.faces, line.origin, line.far, i as int) ==> walked(
            b.node_list(),
            b.triangle_order(),
            line,
            0,
        ).contains(i) && placed(line, i as int)
}

/// A crossing is one where the signs agree.
proof fn lemma_crossed_agrees(points: Seq<Vec3>, faces: Seq<[u32; 3]>, o: Vec3, p: Vec3, i: int)
    requires
        0 <= i < faces.len(),
        worth(crossing_at(points, faces, o, p, i)) != 0,
    ensures
        agreeing(points, faces, o, p, i),
{
    let t = faces[i];
    if t[0] == t[1] || t[1] == t[2] || t[2] == t[0] {
        crate::mesh::bvh::parity::lemma_folded(points, faces, o, p, i);
    } else {
        lemma_crossing_of_ways(points, faces, o, p, i);
    }
}

/// Of the hits of a line with a closed, consistently oriented surface half enter
/// material, so that their number is even: whatever is entered is left. This holds
/// of every line for which no triangle was rejected for lying in a plane with it
/// and which loses nothing to rounding.
pub proof fn law_hits_are_even(
    b: Bvh,
    points: Seq<Vec3>,
    faces: Seq<[u32; 3]>,
    ray: Ray,
    hits: Seq<Hit>,
    stats: RayStats,
)
    requires
        b.covers(points, faces),
        faces.len() <= 0x7fff_ffff,
        manifold(faces),
        consistent(faces),
        loses_nothing(b, line_of(points, faces, ray)),
        ({
            let t = trace(b.node_list(), b.triangle_order(), line_of(points, faces, ray), 0);
            hits.to_multiset() == t.hits.to_multiset() && counts(t, stats)
        }),
        stats.coplanar_rejected == 0,
    ensures
        hits.len() == 2 * entries(hits),
{
    let line = line_of(points, faces, ray);
    let (o, p) = (line.origin, line.far);
    let nodes = b.node_list();
    let order = b.triangle_order();
    let t = trace(nodes, order, line, 0);
    lemma_entries_permute(hits, t.hits);
    if faces.len() > 0 {
        let scene = scene_of(points, faces);
        let s = in_index_order(faces.len());
        lemma_root_subtree(scene, nodes, order);
        lemma_walked(nodes, order, scene, s, 0, 1, 0, line);
        let w = walked(nodes, order, line, 0);
        assert forall|i: int| 0 <= i < faces.len() && #[trigger] crossing_at(points, faces, o, p, i) is Coplanar implies !agreeing(
            points,
            faces,
            o,
            p,
            i,
        ) by {
            let x = i as u32;
            if agreeing(points, faces, o, p, x as int) {
                assert(w.contains(x));
                let k = choose|k: int| 0 <= k < w.len() && w[k] == x;
                lemma_none_coplanar(line, w, k);
            }
        }
        law_displaced_crossings_balance(points, faces, o, p);
        assert forall|x: u32| #[trigger] w.contains(x) implies x < faces.len() && placed(line, x as int) by {
            assert(s.contains(x));
            if worth(crossing_at(points, faces, o, p, x as int)) != 0 {
                lemma_crossed_agrees(points, faces, o, p, x as int);
            }
        }
        assert forall|x: u32| x < faces.len() && worth(#[trigger] crossing_at(points, faces, o, p, x as int)) != 0 implies w.contains(x) by {
            lemma_crossed_agrees(points, faces, o, p, x as int);
            assert(agreeing(line.points, line.faces, line.origin, line.far, x as int));
        }
        lemma_gains(points, faces, o, p, w, faces.len());
        lemma_hits_of(line, w);
    }
}

/// The ray runs along axis `j`.
pub open spec fn along_axis(ray: Ray, j: int) -> bool {
    &&& 0 <= j < 3
    &&& !ray.direction.at(j).zero()
    &&& forall|k: int| 0 <= k < 3 && k != j ==> (#[trigger] ray.direction.at(k)).zero()
}

/// Where a coordinate of the direction is zero, the far point stands still.
proof fn lemma_still(o: Double, d: Double)
    requires
        o.finite(),
        d.zero(),
    ensures
        sum(o, d).value() == o.value(),
{
    law_rounding_fixes_doubles(o);
    if o.value() != 0 {
        law_order_is_value_order(sum(o, d), o);
    }
}

/// Along the axis on which the ray moves no box is missed.
proof fn lemma_moving_step(lo: Double, hi: Double, o: Double, d: Double, inv: Double)
    ensures
        !d.zero() ==> slab_step(
            Some((Double { bits: (INFINITY_BITS + SIGN) as u64 }, Double { bits: INFINITY_BITS })),
            lo,
            hi,
            o,
            d,
            inv,
        ) is Some,
{
    let low = Double { bits: (INFINITY_BITS + SIGN) as u64 };
    let high = Double { bits: INFINITY_BITS };
    assert(low.key() == -(INFINITY_BITS as int));
    assert(high.key() == INFINITY_BITS as int);
}

/// The box lies wholly to one side of a point along axis `k`.
pub open spec fn beside(b: Aabb3, o: Vec3, k: int) -> bool {
    o.at(k).lt(b.min.at(k)) || b.max.at(k).lt(o.at(k))
}

/// A box that a ray along an axis misses lies wholly to one side of it, along an
/// axis on which the ray does not move.
proof fn lemma_missed(b: Aabb3, ray: Ray, inv: Vec3, j: int)
    requires
        along_axis(ray, j),
        !b.empty(),
        !slabs(b, ray.origin, ray.direction, inv),
    ensures
        exists|k: int| 0 <= k < 3 && k != j && #[trigger] beside(b, ray.origin, k),
{
    reveal(slabs);
    let (o, d) = (ray.origin, ray.direction);
    lemma_moving_step(b.min.x, b.max.x, o.x, d.x, inv.x);
    lemma_moving_step(b.min.y, b.max.y, o.y, d.y, inv.y);
    lemma_moving_step(b.min.z, b.max.z, o.z, d.z, inv.z);
    assert(d.at(0).zero() == (j != 0) && d.at(1).zero() == (j != 1) && d.at(2).zero() == (j != 2));
    let all = Some((Double { bits: (INFINITY_BITS + SIGN) as u64 }, Double { bits: INFINITY_BITS }));
    let x = slab_step(all, b.min.x, b.max.x, o.x, d.x, inv.x);
    let y = slab_step(x, b.min.y, b.max.y, o.y, d.y, inv.y);
    if j != 0 && beside(b, o, 0) {
        assert(beside(b, o, 0));
    } else if j != 1 && beside(b, o, 1) {
        assert(beside(b, o, 1));
    } else if j != 2 && beside(b, o, 2) {
        assert(beside(b, o, 2));
    } else {
        assert(j != 0 ==> x == all);
        assert(j == 0 ==> x is Some);
        assert(j == 2 ==> y == all);
        assert(y is Some);
        assert(slab_step(y, b.min.z, b.max.z, o.z, d.z, inv.z) is Some);
    }
}

/// A triangle that lies wholly to one side of the ray is not crossed.
proof fn lemma_not_beside(points: Seq<Vec3>, faces: Seq<[u32; 3]>, ray: Ray, j: int, k: int, b: Aabb3, i: int)
    requires
        sound(points, faces),
        castable(ray),
        along_axis(ray, j),
        0 <= k < 3,
        k != j,
        0 <= i < faces.len(),
        b.encloses(triangle_box(corners_of(points, faces[i]))),
        beside(b, ray.origin, k),
    ensures
        !agreeing(points, faces, ray.origin, far_point(ray), i),
{
    let t = faces[i];
    let o = ray.origin;
    let p = far_point(ray);
    let (va, vb, vc) = (points[t[0] as int], points[t[1] as int], points[t[2] as int]);
    assert(t[0] < points.len() && t[1] < points.len() && t[2] < points.len());
    assert(sound_vertex(va) && sound_vertex(vb) && sound_vertex(vc));
    lemma_triangle_box(corners_of(points, t));
    let own = triangle_box(corners_of(points, t));
    lemma_far_point(ray);
    assert(ray.direction.at(k).zero());
    lemma_still(o.at(k), ray.direction.at(k));
    assert(component(offset(p, o), k) == 0);
    assert(b.min.at(k).le(own.min.at(k)) && own.max.at(k).le(b.max.at(k)));
    assert(corners_of(points, t).0.at(k) == va.at(k));
    law_order_is_value_order(o.at(k), va.at(k));
    law_order_is_value_order(va.at(k), o.at(k));
    law_order_is_value_order(o.at(k), vb.at(k));
    law_order_is_value_order(vb.at(k), o.at(k));
    law_order_is_value_order(o.at(k), vc.at(k));
    law_order_is_value_order(vc.at(k), o.at(k));
    if t[0] != t[1] && t[1] != t[2] && t[2] != t[0] {
        assert(component(offset(va, o), k) == va.at(k).value() - o.at(k).value());
        assert(component(offset(vb, o), k) == vb.at(k).value() - o.at(k).value());
        assert(component(offset(vc, o), k) == vc.at(k).value() - o.at(k).value());
        lemma_beside(o, p, va, t[0], vb, t[1], vc, t[2], k);
        lemma_crossing_of_ways(points, faces, o, p, i);
    }
}

/// A walk along an axis tests every triangle of a subtree that the ray crosses.
proof fn lemma_axis_walk(
    nodes: Seq<BvhNode>,
    order: Seq<u32>,
    points: Seq<Vec3>,
    faces: Seq<[u32; 3]>,
    s: Seq<u32>,
    start: int,
    base: int,
    at: int,
    ray: Ray,
    j: int,
    x: u32,
)
    requires
        subtree(nodes, order, scene_of(points, faces), s, start, base, at),
        sound(points, faces),
        castable(ray),
        along_axis(ray, j),
        forall|i: int| 0 <= i < s.len() ==> (#[trigger] s[i]) < faces.len(),
        s.contains(x),
        agreeing(points, faces, ray.origin, far_point(ray), x as int),
    ensures
        walked(nodes, order, line_of(points, faces, ray), at).contains(x),
    decreases s.len(),
{
    let scene = scene_of(points, faces);
    let line = line_of(points, faces, ray);
    let w = walked(nodes, order, line, at);
    lemma_scene_proper(points, faces);
    let i = choose|i: int| 0 <= i < s.len() && s[i] == x;
    law_node_bounds_enclose(scene, s, s, i);
    let n = node_box(scene, s);
    let own = scene.boxes[x as int];
    assert(proper_box(own));
    assert(own.min.at(0).key() <= own.max.at(0).key());
    assert(own.min.at(1).key() <= own.max.at(1).key());
    assert(own.min.at(2).key() <= own.max.at(2).key());
    if !slabs(n, ray.origin, ray.direction, line.inverse) {
        lemma_missed(n, ray, line.inverse, j);
        let k = choose|k: int| 0 <= k < 3 && k != j && #[trigger] beside(n, ray.origin, k);
        lemma_not_beside(points, faces, ray, j, k, n, x as int);
    }
    if s.len() <= 4 {
        lemma_leaf(nodes, order, scene, s, start, base, at);
        assert(w == s);
    } else {
        lemma_children(nodes, order, scene, s, start, base, at);
        lemma_halves(scene, s);
        let l = left_half(scene, s);
        let r = right_half(scene, s);
        let m = s.len() as int / 2;
        let next = base + 2 + beneath(l.len() as int);
        assert forall|q: int| 0 <= q < l.len() implies (#[trigger] l[q]) < faces.len() by {
            assert(l.contains(l[q]));
            assert(s.contains(l[q]));
        }
        assert forall|q: int| 0 <= q < r.len() implies (#[trigger] r[q]) < faces.len() by {
            assert(r.contains(r[q]));
            assert(s.contains(r[q]));
        }
        let a = walked(nodes, order, line, base);
        let c = walked(nodes, order, line, base + 1);
        assert(parental(nodes, at));
        assert(w == a + c);
        if l.contains(x) {
            lemma_axis_walk(nodes, order, points, faces, l, start, base + 2, base, ray, j, x);
            let q = choose|q: int| 0 <= q < a.len() && a[q] == x;
            assert(w[q] == x);
        } else {
            lemma_axis_walk(nodes, order, points, faces, r, start + m, next, base + 1, ray, j, x);
            let q = choose|q: int| 0 <= q < c.len() && c[q] == x;
            assert(w[a.len() + q] == x);
        }
    }
}

/// A ray along an axis tests every triangle of the mesh that it crosses: the
/// hierarchy hides none.
pub proof fn law_axis_rays_test_what_they_cross(b: Bvh, points: Seq<Vec3>, faces: Seq<[u32; 3]>, ray: Ray, j: int, x: u32)
    requires
        sound(points, faces),
        b.covers(points, faces),
        castable(ray),
        along_axis(ray, j),
        x < faces.len(),
        agreeing(points, faces, ray.origin, far_point(ray), x as int),
    ensures
        walked(b.node_list(), b.triangle_order(), line_of(points, faces, ray), 0).contains(x),
{
    let scene = scene_of(points, faces);
    let s = in_index_order(faces.len());
    lemma_root_subtree(scene, b.node_list(), b.triangle_order());
    assert(s[x as int] == x);
    lemma_axis_walk(b.node_list(), b.triangle_order(), points, faces, s, 0, 1, 0, ray, j, x);
}

/// Node `j` of a hierarchy over `n` triangles: a leaf of some triangles, or the
/// parent of two nodes behind it.
pub open spec fn shapely(nodes: Seq<BvhNode>, n: int, j: int) -> bool {
    if nodes[j].leaf() {
        1 <= nodes[j].count <= 4 && nodes[j].first_or_left + nodes[j].count <= n
    } else {
        parental(nodes, j)
    }
}

/// Leaf `j` holds the triangle at place `k` of the order.
pub open spec fn holds_place(nodes: Seq<BvhNode>, j: int, k: int) -> bool {
    nodes[j].leaf() && nodes[j].first_or_left <= k < nodes[j].first_or_left + nodes[j].count
}

/// The node belongs to a subtree.
spec fn belongs(s: Seq<u32>, base: int, at: int, j: int) -> bool {
    j == at || base <= j < base + beneath(s.len() as int)
}

proof fn lemma_shape(
    nodes: Seq<BvhNode>,
    order: Seq<u32>,
    scene: Scene,
    s: Seq<u32>,
    start: int,
    base: int,
    at: int,
    k: int,
)
    requires
        subtree(nodes, order, scene, s, start, base, at),
    ensures
        forall|j: int| #[trigger] belongs(s, base, at, j) ==> shapely(nodes, order.len() as int, j),
        forall|j: int| #[trigger]
            belongs(s, base, at, j) && holds_place(nodes, j, k) ==> start <= k < start + s.len(),
        start <= k < start + s.len() ==> exists|j: int| #[trigger]
            belongs(s, base, at, j) && holds_place(nodes, j, k),
        forall|i: int, j: int| #[trigger]
            belongs(s, base, at, i) && #[trigger] belongs(s, base, at, j) && holds_place(nodes, i, k) && holds_place(
                nodes,
                j,
                k,
            ) ==> i == j,
    decreases s.len(),
{
    lemma_beneath_bound(s.len() as int);
    if s.len() <= 4 {
        lemma_leaf(nodes, order, scene, s, start, base, at);
        assert(belongs(s, base, at, at));
        assert(beneath(s.len() as int) == 0);
    } else {
        lemma_children(nodes, order, scene, s, start, base, at);
        let l = left_half(scene, s);
        let r = right_half(scene, s);
        let m = s.len() as int / 2;
        let next = base + 2 + beneath(l.len() as int);
        lemma_beneath_bound(l.len() as int);
        lemma_beneath_bound(r.len() as int);
        lemma_shape(nodes, order, scene, l, start, base + 2, base, k);
        lemma_shape(nodes, order, scene, r, start + m, next, base + 1, k);
        assert(beneath(s.len() as int) == 2 + beneath(l.len() as int) + beneath(r.len() as int));
        assert forall|j: int| belongs(s, base, at, j) implies j == at || #[trigger] belongs(l, base + 2, base, j)
            || #[trigger] belongs(r, next, base + 1, j) by {
        }
        if start <= k < start + m {
            let j = choose|j: int| #[trigger] belongs(l, base + 2, base, j) && holds_place(nodes, j, k);
            assert(belongs(s, base, at, j) && holds_place(nodes, j, k));
        } else if start + m <= k < start + s.len() {
            let j = choose|j: int| #[trigger] belongs(r, next, base + 1, j) && holds_place(nodes, j, k);
            assert(belongs(s, base, at, j) && holds_place(nodes, j, k));
        }
        assert forall|j: int| #[trigger] belongs(s, base, at, j) implies shapely(nodes, order.len() as int, j) by {
            assert(j == at || belongs(l, base + 2, base, j) || belongs(r, next, base + 1, j));
        }
        assert forall|j: int| #[trigger] belongs(s, base, at, j) && holds_place(nodes, j, k) implies start <= k < start
            + s.len() by {
            assert(j == at || belongs(l, base + 2, base, j) || belongs(r, next, base + 1, j));
        }
        assert forall|i: int, j: int| #[trigger]
            belongs(s, base, at, i) && #[trigger] belongs(s, base, at, j) && holds_place(nodes, i, k) && holds_place(
                nodes,
                j,
                k,
            ) implies i == j by {
            assert(i == at || belongs(l, base + 2, base, i) || belongs(r, next, base + 1, i));
            assert(j == at || belongs(l, base + 2, base, j) || belongs(r, next, base + 1, j));
        }
    }
}

/// The leaves of a hierarchy hold one to four triangles each and part the order
/// among them: every place belongs to exactly one leaf. All other nodes have their
/// children behind them, and there are nodes if and only if there are triangles.
pub proof fn law_leaves_part_the_order(b: Bvh, points: Seq<Vec3>, faces: Seq<[u32; 3]>, k: int)
    requires
        b.covers(points, faces),
    ensures
        b.node_list().len() == 0 <==> faces.len() == 0,
        forall|j: int| 0 <= j < b.node_list().len() ==> #[trigger] shapely(b.node_list(), faces.len() as int, j),
        0 <= k < faces.len() ==> exists|j: int|
            0 <= j < b.node_list().len() && #[trigger] holds_place(b.node_list(), j, k),
        forall|i: int, j: int|
            0 <= i < b.node_list().len() && 0 <= j < b.node_list().len() && #[trigger] holds_place(
                b.node_list(),
                i,
                k,
            ) && #[trigger] holds_place(b.node_list(), j, k) ==> i == j,
{
    let nodes = b.node_list();
    let scene = scene_of(points, faces);
    let s = in_index_order(faces.len());
    if faces.len() > 0 {
        lemma_root_subtree(scene, nodes, b.triangle_order());
        lemma_beneath(scene, s, 0, 1);
        lemma_shape(nodes, b.triangle_order(), scene, s, 0, 1, 0, k);
        assert(nodes.len() == 1 + beneath(s.len() as int));
        assert forall|j: int| 0 <= j < nodes.len() implies #[trigger] shapely(nodes, faces.len() as int, j) by {
            assert(belongs(s, 1, 0, j));
        }
        if 0 <= k < faces.len() {
            let j = choose|j: int| #[trigger] belongs(s, 1, 0, j) && holds_place(nodes, j, k);
            assert(holds_place(nodes, j, k));
        }
        assert forall|i: int, j: int|
            0 <= i < nodes.len() && 0 <= j < nodes.len() && #[trigger] holds_place(nodes, i, k) && #[trigger] holds_place(
                nodes,
                j,
                k,
            ) implies i == j by {
            assert(belongs(s, 1, 0, i) && belongs(s, 1, 0, j));
        }
    }
}

/// The bounds of node `j` enclose what is beneath it: those of both its children,
/// or the box of each triangle that it holds.
pub open spec fn bounded(nodes: Seq<BvhNode>, order: Seq<u32>, scene: Scene, j: int) -> bool {
    if nodes[j].leaf() {
        forall|k: int| #[trigger]
            holds_place(nodes, j, k) ==> nodes[j].bounds.encloses(scene.boxes[order[k] as int])
    } else {
        nodes[j].bounds.encloses(nodes[nodes[j].first_or_left as int].bounds) && nodes[j].bounds.encloses(
            nodes[nodes[j].first_or_left + 1].bounds,
        )
    }
}

proof fn lemma_bounded(nodes: Seq<BvhNode>, order: Seq<u32>, scene: Scene, s: Seq<u32>, start: int, base: int, at: int)
    requires
        subtree(nodes, order, scene, s, start, base, at),
        proper_scene(scene),
        forall|i: int| 0 <= i < s.len() ==> (#[trigger] s[i]) < scene.boxes.len(),
    ensures
        forall|j: int| #[trigger] belongs(s, base, at, j) ==> bounded(nodes, order, scene, j),
    decreases s.len(),
{
    lemma_beneath_bound(s.len() as int);
    if s.len() <= 4 {
        lemma_leaf(nodes, order, scene, s, start, base, at);
        assert(beneath(s.len() as int) == 0);
        assert forall|k: int| #[trigger] holds_place(nodes, at, k) implies nodes[at].bounds.encloses(
            scene.boxes[order[k] as int],
        ) by {
            assert(order.subrange(start, start + s.len())[k - start] == s[k - start]);
            law_node_bounds_enclose(scene, s, s, k - start);
        }
    } else {
        lemma_children(nodes, order, scene, s, start, base, at);
        lemma_halves(scene, s);
        let l = left_half(scene, s);
        let r = right_half(scene, s);
        let m = s.len() as int / 2;
        let next = base + 2 + beneath(l.len() as int);
        lemma_beneath_bound(l.len() as int);
        lemma_beneath_bound(r.len() as int);
        assert forall|j: int| 0 <= j < l.len() implies (#[trigger] l[j]) < scene.boxes.len() by {
            assert(l.contains(l[j]));
            assert(s.contains(l[j]));
        }
        assert forall|j: int| 0 <= j < r.len() implies (#[trigger] r[j]) < scene.boxes.len() by {
            assert(r.contains(r[j]));
            assert(s.contains(r[j]));
        }
        lemma_bounded(nodes, order, scene, l, start, base + 2, base);
        lemma_bounded(nodes, order, scene, r, start + m, next, base + 1);
        law_node_bounds_enclose(scene, s, l, 0);
        law_node_bounds_enclose(scene, s, r, 0);
        assert(beneath(s.len() as int) == 2 + beneath(l.len() as int) + beneath(r.len() as int));
        assert forall|j: int| #[trigger] belongs(s, base, at, j) implies bounded(nodes, order, scene, j) by {
            assert(j == at || belongs(l, base + 2, base, j) || belongs(r, next, base + 1, j));
        }
    }
}

/// In a hierarchy that was built, the bounds of every node contain those of its
/// children, and the bounds of a leaf contain every corner of its triangles.
pub proof fn law_built_bounds_enclose(b: Bvh, points: Seq<Vec3>, faces: Seq<[u32; 3]>, j: int)
    requires
        sound(points, faces),
        b.covers(points, faces),
        0 <= j < b.node_list().len(),
    ensures
        ({
            let node = b.node_list()[j];
            if node.leaf() {
                forall|k: int| #[trigger]
                    holds_place(b.node_list(), j, k) ==> ({
                        let t = corners_of(points, faces[b.triangle_order()[k] as int]);
                        node.bounds.holds(t.0) && node.bounds.holds(t.1) && node.bounds.holds(t.2)
                    })
            } else {
                node.bounds.encloses(b.node_list()[node.first_or_left as int].bounds) && node.bounds.encloses(
                    b.node_list()[node.first_or_left + 1].bounds,
                )
            }
        }),
{
    let nodes = b.node_list();
    let order = b.triangle_order();
    let scene = scene_of(points, faces);
    let s = in_index_order(faces.len());
    lemma_scene_proper(points, faces);
    lemma_root_subtree(scene, nodes, order);
    lemma_beneath(scene, s, 0, 1);
    lemma_bounded(nodes, order, scene, s, 0, 1, 0);
    assert(belongs(s, 1, 0, j));
    assert(bounded(nodes, order, scene, j));
    if nodes[j].leaf() {
        assert forall|k: int| #[trigger] holds_place(nodes, j, k) implies ({
            let t = corners_of(points, faces[order[k] as int]);
            nodes[j].bounds.holds(t.0) && nodes[j].bounds.holds(t.1) && nodes[j].bounds.holds(t.2)
        }) by {
            law_leaves_part_the_order(b, points, faces, k);
            assert(shapely(nodes, faces.len() as int, j));
            lemma_settled(scene, s);
            lemma_same_values(order, s);
            assert(order.contains(order[k]));
            assert(s.contains(order[k]));
            let x = order[k] as int;
            let t = corners_of(points, faces[x]);
            lemma_corners_finite(points, faces, x);
            lemma_triangle_box(t);
            assert(scene.boxes[x] == triangle_box(t));
            let own = scene.boxes[x];
            assert(nodes[j].bounds.encloses(own));
            assert(t.0.at(0).finite() && t.0.at(1).finite() && t.0.at(2).finite());
            assert(own.min.finite() && own.max.finite());
        }
    }
}

proof fn lemma_corners_finite(points: Seq<Vec3>, faces: Seq<[u32; 3]>, x: int)
    requires
        sound(points, faces),
        0 <= x < faces.len(),
    ensures
        corners_of(points, faces[x]).0.finite(),
        corners_of(points, faces[x]).1.finite(),
        corners_of(points, faces[x]).2.finite(),
{
    let t = faces[x];
    assert(t[0] < points.len() && t[1] < points.len() && t[2] < points.len());
    assert(sound_vertex(points[t[0] as int]) && sound_vertex(points[t[1] as int]) && sound_vertex(points[t[2] as int]));
}

/// What a walk has met, but for how its tests were decided.
pub open spec fn undecided(t: Trace) -> Trace {
    Trace { sure: 0, ..t }
}

/// A line with another margin.
pub open spec fn remargined(line: Line, margin: Double) -> Line {
    Line { margin, ..line }
}

proof fn lemma_margin_at_triangles(line: Line, margin: Double, s: Seq<u32>)
    ensures
        undecided(triangles_trace(line, s)) == undecided(triangles_trace(remargined(line, margin), s)),
    decreases s.len(),
{
    if s.len() > 0 {
        lemma_margin_at_triangles(line, margin, s.drop_last());
        reveal(triangle_trace);
    }
}

/// The margin of the filter only tells tests apart: what is met, and every other
/// count, is the same whatever it is.
pub proof fn law_margin_is_invisible(nodes: Seq<BvhNode>, order: Seq<u32>, line: Line, margin: Double, i: int)
    ensures
        undecided(trace(nodes, order, line, i)) == undecided(trace(nodes, order, remargined(line, margin), i)),
    decreases nodes.len() - i,
{
    if 0 <= i < nodes.len() && slabs(nodes[i].bounds, line.origin, line.direction, line.inverse) {
        if nodes[i].leaf() {
            let first = nodes[i].first_or_left as int;
            lemma_margin_at_triangles(line, margin, order.subrange(first, first + nodes[i].count));
        } else if parental(nodes, i) {
            law_margin_is_invisible(nodes, order, line, margin, nodes[i].first_or_left as int);
            law_margin_is_invisible(nodes, order, line, margin, nodes[i].first_or_left + 1);
        }
    }
}

} // verus!
