//! What the hierarchy guarantees.

use crate::double::{Double, INFINITY_BITS};
use crate::math::{box_around, box_union, empty_box, point_box, Aabb3, Vec3};
use crate::mesh::bvh::tree::{
    beneath, group_box, in_index_order, left_half, lemma_halves, lemma_settled, node_box, padded, right_half,
    scene_of, triangle_box, Scene,
};
use crate::mesh::bvh::{lemma_children, lemma_leaf, lemma_root_subtree, parental, reached, subtree, Bvh};
use crate::mesh::{corners_of, sound, sound_vertex};
use vstd::prelude::*;

verus! {

/// A box with finite bounds and some extent or none in each direction.
pub open spec fn proper_box(b: Aabb3) -> bool {
    &&& b.min.finite()
    &&& b.max.finite()
    &&& forall|a: int| 0 <= a < 3 ==> (#[trigger] b.min.at(a)).key() <= b.max.at(a).key()
}

/// The triangles of a scene have proper boxes.
pub open spec fn proper_scene(scene: Scene) -> bool {
    forall|i: int| 0 <= i < scene.boxes.len() ==> proper_box(#[trigger] scene.boxes[i])
}

proof fn lemma_union(a: Aabb3, b: Aabb3, k: int)
    requires
        0 <= k < 3,
        !a.min.at(k).nan() && !b.min.at(k).nan(),
        !a.max.at(k).nan() && !b.max.at(k).nan(),
    ensures
        ({
            let u = box_union(a, b);
            let (x, y) = (a.min.at(k).key(), b.min.at(k).key());
            let (z, w) = (a.max.at(k).key(), b.max.at(k).key());
            &&& u.min.at(k).key() == (if y < x {
                y
            } else {
                x
            })
            &&& u.max.at(k).key() == (if z < w {
                w
            } else {
                z
            })
            &&& !u.min.at(k).nan()
            &&& !u.max.at(k).nan()
        }),
{
}

/// The bounds of a group are those of some of its triangles, and no triangle goes
/// beyond them.
proof fn lemma_group_box(scene: Scene, s: Seq<u32>, k: int)
    requires
        proper_scene(scene),
        forall|i: int| 0 <= i < s.len() ==> (#[trigger] s[i]) < scene.boxes.len(),
        0 <= k < 3,
    ensures
        ({
            let g = group_box(scene, s);
            &&& !g.min.at(k).nan()
            &&& !g.max.at(k).nan()
            &&& s.len() == 0 ==> g.min.at(k).key() == INFINITY_BITS && g.max.at(k).key() == -INFINITY_BITS
            &&& forall|i: int|
                0 <= i < s.len() ==> g.min.at(k).key() <= scene.boxes[(#[trigger] s[i]) as int].min.at(k).key()
                    && scene.boxes[s[i] as int].max.at(k).key() <= g.max.at(k).key()
            &&& s.len() > 0 ==> exists|i: int|
                0 <= i < s.len() && g.min.at(k).key() == scene.boxes[(#[trigger] s[i]) as int].min.at(k).key()
            &&& s.len() > 0 ==> exists|i: int|
                0 <= i < s.len() && g.max.at(k).key() == scene.boxes[(#[trigger] s[i]) as int].max.at(k).key()
        }),
    decreases s.len(),
{
    reveal(group_box);
    if s.len() > 0 {
        let rest = s.drop_last();
        let x = s.last();
        assert(s[s.len() - 1] == x);
        assert(proper_box(scene.boxes[x as int]));
        assert forall|i: int| 0 <= i < rest.len() implies (#[trigger] rest[i]) < scene.boxes.len() by {
            assert(rest[i] == s[i]);
        }
        lemma_group_box(scene, rest, k);
        let a = group_box(scene, rest);
        let b = scene.boxes[x as int];
        assert(b.min.at(k).finite() && b.max.at(k).finite());
        lemma_union(a, b, k);
        let g = group_box(scene, s);
        assert forall|i: int| 0 <= i < s.len() implies g.min.at(k).key() <= scene.boxes[(#[trigger] s[i]) as int].min.at(
            k,
        ).key() && scene.boxes[s[i] as int].max.at(k).key() <= g.max.at(k).key() by {
            if i < rest.len() {
                assert(rest[i] == s[i]);
            }
        }
        if g.min.at(k).key() == b.min.at(k).key() {
            assert(g.min.at(k).key() == scene.boxes[s[s.len() - 1] as int].min.at(k).key());
        } else {
            let i = choose|i: int|
                0 <= i < rest.len() && a.min.at(k).key() == scene.boxes[(#[trigger] rest[i]) as int].min.at(k).key();
            assert(s[i] == rest[i]);
        }
        if g.max.at(k).key() == b.max.at(k).key() {
            assert(g.max.at(k).key() == scene.boxes[s[s.len() - 1] as int].max.at(k).key());
        } else {
            let i = choose|i: int|
                0 <= i < rest.len() && a.max.at(k).key() == scene.boxes[(#[trigger] rest[i]) as int].max.at(k).key();
            assert(s[i] == rest[i]);
        }
    }
}

/// Padding goes outward only, by a few representable steps.
pub proof fn law_padding_is_outward(b: Aabb3, k: int)
    requires
        proper_box(b),
        0 <= k < 3,
    ensures
        padded(b).encloses(b),
        padded(b).min.at(k).key() == (if b.min.at(k).key() - 4 < -INFINITY_BITS {
            -INFINITY_BITS
        } else {
            b.min.at(k).key() - 4
        }),
        padded(b).max.at(k).key() == (if b.max.at(k).key() + 4 > INFINITY_BITS {
            INFINITY_BITS as int
        } else {
            b.max.at(k).key() + 4
        }),
        !padded(b).min.at(k).nan(),
        !padded(b).max.at(k).nan(),
{
    reveal(padded);
    assert(b.min.at(0).key() <= b.max.at(0).key());
    assert(b.min.at(1).key() <= b.max.at(1).key());
    assert(b.min.at(2).key() <= b.max.at(2).key());
    assert(!b.empty());
    lemma_stepped(b.min.x);
    lemma_stepped(b.min.y);
    lemma_stepped(b.min.z);
    lemma_stepped(b.max.x);
    lemma_stepped(b.max.y);
    lemma_stepped(b.max.z);
}

proof fn lemma_stepped(x: Double)
    requires
        x.finite(),
    ensures
        x.raised(4).key() == (if x.key() + 4 > INFINITY_BITS {
            INFINITY_BITS as int
        } else {
            x.key() + 4
        }),
        x.dropped(4).key() == (if x.key() - 4 < -INFINITY_BITS {
            -INFINITY_BITS
        } else {
            x.key() - 4
        }),
        !x.raised(4).nan(),
        !x.dropped(4).nan(),
{
    let n = x.negated();
    assert(n.key() == -x.key());
    assert(n.finite());
    let r = n.raised(4);
    assert(r.negated().key() == -r.key());
}

/// A group of triangles with proper boxes has a proper box.
proof fn lemma_group_proper(scene: Scene, s: Seq<u32>)
    requires
        proper_scene(scene),
        forall|i: int| 0 <= i < s.len() ==> (#[trigger] s[i]) < scene.boxes.len(),
        s.len() > 0,
    ensures
        proper_box(group_box(scene, s)),
{
    let g = group_box(scene, s);
    assert forall|k: int| 0 <= k < 3 implies (#[trigger] g.min.at(k)).key() <= g.max.at(k).key() && g.min.at(
        k,
    ).finite() && g.max.at(k).finite() by {
        lemma_group_box(scene, s, k);
        assert(s[0] < scene.boxes.len());
        assert(proper_box(scene.boxes[s[0] as int]));
        let b = scene.boxes[s[0] as int];
        assert(b.min.at(k).key() <= b.max.at(k).key());
        let i = choose|i: int|
            0 <= i < s.len() && g.min.at(k).key() == scene.boxes[(#[trigger] s[i]) as int].min.at(k).key();
        let j = choose|j: int|
            0 <= j < s.len() && g.max.at(k).key() == scene.boxes[(#[trigger] s[j]) as int].max.at(k).key();
        assert(proper_box(scene.boxes[s[i] as int]));
        assert(proper_box(scene.boxes[s[j] as int]));
    }
    assert(g.min.at(0).finite() && g.min.at(1).finite() && g.min.at(2).finite());
    assert(g.max.at(0).finite() && g.max.at(1).finite() && g.max.at(2).finite());
}

/// The bounds of a node enclose those of any node over some of its triangles, and
/// the box of each of its triangles.
pub proof fn law_node_bounds_enclose(scene: Scene, s: Seq<u32>, part: Seq<u32>, i: int)
    requires
        proper_scene(scene),
        forall|i: int| 0 <= i < s.len() ==> (#[trigger] s[i]) < scene.boxes.len(),
        forall|x: u32| #[trigger] part.contains(x) ==> s.contains(x),
        part.len() > 0,
        0 <= i < s.len(),
    ensures
        node_box(scene, s).encloses(node_box(scene, part)),
        node_box(scene, s).encloses(scene.boxes[s[i] as int]),
{
    assert forall|j: int| 0 <= j < part.len() implies (#[trigger] part[j]) < scene.boxes.len() by {
        assert(part.contains(part[j]));
        assert(s.contains(part[j]));
    }
    lemma_group_proper(scene, s);
    lemma_group_proper(scene, part);
    let g = group_box(scene, s);
    let h = group_box(scene, part);
    assert(proper_box(scene.boxes[s[i] as int]));
    let n = node_box(scene, s);
    let p = node_box(scene, part);
    let own = scene.boxes[s[i] as int];
    assert forall|k: int| 0 <= k < 3 implies (#[trigger] n.min.at(k)).le(p.min.at(k)) && p.max.at(k).le(n.max.at(k))
        && n.min.at(k).le(own.min.at(k)) && own.max.at(k).le(n.max.at(k)) by {
        lemma_group_box(scene, s, k);
        lemma_group_box(scene, part, k);
        law_padding_is_outward(g, k);
        law_padding_is_outward(h, k);
        let a = choose|a: int|
            0 <= a < part.len() && h.min.at(k).key() == scene.boxes[(#[trigger] part[a]) as int].min.at(k).key();
        let b = choose|b: int|
            0 <= b < part.len() && h.max.at(k).key() == scene.boxes[(#[trigger] part[b]) as int].max.at(k).key();
        assert(part.contains(part[a]) && part.contains(part[b]));
        assert(s.contains(part[a]) && s.contains(part[b]));
        let c = choose|c: int| 0 <= c < s.len() && s[c] == part[a];
        let d = choose|d: int| 0 <= d < s.len() && s[d] == part[b];
        assert(s[c] < scene.boxes.len() && s[d] < scene.boxes.len());
        assert(s[i] < scene.boxes.len());
        assert(own.min.at(k).finite() && own.max.at(k).finite());
    }
    assert(n.min.at(0).le(p.min.at(0)) && n.min.at(1).le(p.min.at(1)) && n.min.at(2).le(p.min.at(2)));
}

/// A box that meets a part meets the whole.
proof fn lemma_meets_whole(whole: Aabb3, part: Aabb3, q: Aabb3)
    requires
        whole.encloses(part),
        part.meets(q),
    ensures
        whole.meets(q),
{
}

/// A search reaches every triangle of a subtree whose own box meets the query.
proof fn lemma_reaches(
    b: Bvh,
    scene: Scene,
    s: Seq<u32>,
    start: int,
    base: int,
    at: int,
    query: Aabb3,
    x: u32,
)
    requires
        subtree(b.node_list(), b.triangle_order(), scene, s, start, base, at),
        proper_scene(scene),
        forall|i: int| 0 <= i < s.len() ==> (#[trigger] s[i]) < scene.boxes.len(),
        s.contains(x),
        scene.boxes[x as int].meets(query),
    ensures
        reached(b.node_list(), b.triangle_order(), query, at).contains(x),
    decreases s.len(),
{
    let nodes = b.node_list();
    let order = b.triangle_order();
    let i = choose|i: int| 0 <= i < s.len() && s[i] == x;
    law_node_bounds_enclose(scene, s, s, i);
    lemma_meets_whole(node_box(scene, s), scene.boxes[x as int], query);
    let all = reached(nodes, order, query, at);
    if s.len() <= 4 {
        lemma_leaf(nodes, order, scene, s, start, base, at);
        assert(all == s);
    } else {
        lemma_children(nodes, order, scene, s, start, base, at);
        lemma_halves(scene, s);
        let l = left_half(scene, s);
        let r = right_half(scene, s);
        let m = s.len() as int / 2;
        let next = base + 2 + beneath(l.len() as int);
        assert forall|j: int| 0 <= j < l.len() implies (#[trigger] l[j]) < scene.boxes.len() by {
            assert(l.contains(l[j]));
            assert(s.contains(l[j]));
        }
        assert forall|j: int| 0 <= j < r.len() implies (#[trigger] r[j]) < scene.boxes.len() by {
            assert(r.contains(r[j]));
            assert(s.contains(r[j]));
        }
        let a = reached(nodes, order, query, base);
        let c = reached(nodes, order, query, base + 1);
        assert(parental(nodes, at));
        assert(all == a + c);
        if l.contains(x) {
            lemma_reaches(b, scene, l, start, base + 2, base, query, x);
            let j = choose|j: int| 0 <= j < a.len() && a[j] == x;
            assert(all[j] == x);
        } else {
            lemma_reaches(b, scene, r, start + m, next, base + 1, query, x);
            let j = choose|j: int| 0 <= j < c.len() && c[j] == x;
            assert(all[a.len() + j] == x);
        }
    }
}

/// A search brings up only triangles of the subtree.
proof fn lemma_reached_within(
    b: Bvh,
    scene: Scene,
    s: Seq<u32>,
    start: int,
    base: int,
    at: int,
    query: Aabb3,
    x: u32,
)
    requires
        subtree(b.node_list(), b.triangle_order(), scene, s, start, base, at),
        reached(b.node_list(), b.triangle_order(), query, at).contains(x),
    ensures
        s.contains(x),
    decreases s.len(),
{
    let nodes = b.node_list();
    let order = b.triangle_order();
    let all = reached(nodes, order, query, at);
    let i = choose|i: int| 0 <= i < all.len() && all[i] == x;
    if s.len() <= 4 {
        lemma_leaf(nodes, order, scene, s, start, base, at);
        assert(s[i] == x);
    } else {
        lemma_children(nodes, order, scene, s, start, base, at);
        lemma_halves(scene, s);
        let l = left_half(scene, s);
        let r = right_half(scene, s);
        let m = s.len() as int / 2;
        let a = reached(nodes, order, query, base);
        let c = reached(nodes, order, query, base + 1);
        assert(parental(nodes, at));
        assert(all == a + c);
        if i < a.len() {
            assert(a[i] == x);
            lemma_reached_within(b, scene, l, start, base + 2, base, query, x);
        } else {
            assert(c[i - a.len()] == x);
            lemma_reached_within(
                b,
                scene,
                r,
                start + m,
                base + 2 + beneath(l.len() as int),
                base + 1,
                query,
                x,
            );
        }
    }
}

/// A query brings up only triangles of the mesh.
pub proof fn law_query_stays_in_the_mesh(b: Bvh, points: Seq<Vec3>, faces: Seq<[u32; 3]>, query: Aabb3, x: u32)
    requires
        b.covers(points, faces),
        reached(b.node_list(), b.triangle_order(), query, 0).contains(x),
    ensures
        x < faces.len(),
{
    let scene = scene_of(points, faces);
    let s = in_index_order(faces.len());
    if faces.len() == 0 {
        assert(b.node_list().len() == 0);
    } else {
        lemma_root_subtree(scene, b.node_list(), b.triangle_order());
        lemma_reached_within(b, scene, s, 0, 1, 0, query, x);
        let i = choose|i: int| 0 <= i < s.len() && s[i] == x;
    }
}

/// The box of a triangle of finite corners is proper.
pub proof fn lemma_triangle_box(t: (Vec3, Vec3, Vec3))
    requires
        t.0.finite(),
        t.1.finite(),
        t.2.finite(),
    ensures
        proper_box(triangle_box(t)),
        forall|k: int|
            #![trigger t.0.at(k)]
            0 <= k < 3 ==> triangle_box(t).min.at(k).key() <= t.0.at(k).key() <= triangle_box(t).max.at(k).key()
                && triangle_box(t).min.at(k).key() <= t.1.at(k).key() <= triangle_box(t).max.at(k).key()
                && triangle_box(t).min.at(k).key() <= t.2.at(k).key() <= triangle_box(t).max.at(k).key(),
{
    let p = seq![t.0, t.1, t.2];
    let b1 = box_union(empty_box(), point_box(t.0));
    let b2 = box_union(b1, point_box(t.1));
    let b3 = box_union(b2, point_box(t.2));
    assert(box_around(p, 0) == empty_box());
    assert(box_around(p, 1) == b1);
    assert(box_around(p, 2) == b2);
    assert(box_around(p, 3) == b3);
    assert forall|k: int| 0 <= k < 3 implies (#[trigger] b3.min.at(k)).key() <= b3.max.at(k).key() && b3.min.at(
        k,
    ).finite() && b3.max.at(k).finite() by {
        assert(t.0.at(k).finite() && t.1.at(k).finite() && t.2.at(k).finite());
        lemma_union(empty_box(), point_box(t.0), k);
        lemma_union(b1, point_box(t.1), k);
        lemma_union(b2, point_box(t.2), k);
    }
    assert(b3.min.at(0).finite() && b3.min.at(1).finite() && b3.min.at(2).finite());
    assert(b3.max.at(0).finite() && b3.max.at(1).finite() && b3.max.at(2).finite());
    assert forall|k: int| #![trigger t.0.at(k)] 0 <= k < 3 implies b3.min.at(k).key() <= t.0.at(k).key() <= b3.max.at(
        k,
    ).key() && b3.min.at(k).key() <= t.1.at(k).key() <= b3.max.at(k).key() && b3.min.at(k).key() <= t.2.at(k).key()
        <= b3.max.at(k).key() by {
        assert(t.0.at(k).finite() && t.1.at(k).finite() && t.2.at(k).finite());
        lemma_union(empty_box(), point_box(t.0), k);
        lemma_union(b1, point_box(t.1), k);
        lemma_union(b2, point_box(t.2), k);
    }
}

/// The triangles of a sound mesh have proper boxes.
pub proof fn lemma_scene_proper(points: Seq<Vec3>, faces: Seq<[u32; 3]>)
    requires
        sound(points, faces),
    ensures
        proper_scene(scene_of(points, faces)),
{
    let scene = scene_of(points, faces);
    assert forall|i: int| 0 <= i < scene.boxes.len() implies proper_box(#[trigger] scene.boxes[i]) by {
        let t = faces[i];
        assert(t[0] < points.len() && t[1] < points.len() && t[2] < points.len());
        assert(sound_vertex(points[t[0] as int]));
        assert(sound_vertex(points[t[1] as int]));
        assert(sound_vertex(points[t[2] as int]));
        lemma_triangle_box(corners_of(points, t));
    }
}

/// A query finds every triangle of the mesh whose box meets it: what the search
/// skips cannot meet the query.
pub proof fn law_query_is_complete(b: Bvh, points: Seq<Vec3>, faces: Seq<[u32; 3]>, query: Aabb3, x: u32)
    requires
        sound(points, faces),
        b.covers(points, faces),
        x < faces.len(),
        triangle_box(corners_of(points, faces[x as int])).meets(query),
    ensures
        reached(b.node_list(), b.triangle_order(), query, 0).contains(x),
{
    let scene = scene_of(points, faces);
    let s = in_index_order(faces.len());
    lemma_scene_proper(points, faces);
    lemma_root_subtree(scene, b.node_list(), b.triangle_order());
    assert(s[x as int] == x);
    lemma_reaches(b, scene, s, 0, 1, 0, query, x);
}

/// The order of a hierarchy holds every triangle exactly once.
pub proof fn law_order_is_a_permutation(b: Bvh, points: Seq<Vec3>, faces: Seq<[u32; 3]>)
    requires
        b.covers(points, faces),
    ensures
        b.triangle_order().to_multiset() == in_index_order(faces.len()).to_multiset(),
{
    lemma_settled(scene_of(points, faces), in_index_order(faces.len()));
}

} // verus!
