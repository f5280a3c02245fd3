//! The shape of the hierarchy.
//!
//! Triangles are split at the median of their centroids along the longest axis
//! of the node, ties by triangle index, down to small leaves. Nodes stand in one
//! array: the children of a node are neighbours, and its left subtree comes before
//! its right one. So the tree is a function of the mesh alone.

use crate::math::{box_around, box_union, empty_box, Aabb3, Axis, Vec3};
use crate::mesh::{centroid_of, corners_of, TriMesh};
use crate::sorting::{
    law_sorted_is_unique, lemma_ascending_exists, lemma_same_values, sort, sorted, Ranked,
};
use vstd::prelude::*;

verus! {

/// Most triangles in a leaf.
pub const LEAF_SIZE: usize = 4;

/// Steps of padding applied to every node bound.
pub const BOUND_PAD_ULPS: u32 = 4;

/// One node of the hierarchy.
#[derive(Clone, Copy, Debug, PartialEq, Eq, Structural)]
pub struct BvhNode {
    /// Bounds of everything beneath the node, padded.
    pub bounds: Aabb3,
    /// For a leaf, the first place in the triangle order; else the left child,
    /// behind which the right one stands.
    pub first_or_left: u32,
    /// Triangle count for a leaf; zero for an interior node.
    pub count: u32,
}

impl BvhNode {
    /// The node has no children.
    pub open spec fn leaf(self) -> bool {
        self.count > 0
    }

    /// True if the node has no children.
    pub fn is_leaf(&self) -> (r: bool)
        ensures
            r == self.leaf(),
    {
        self.count > 0
    }
}

/// A box widened by a few representable steps on every side.
#[verifier::opaque]
pub open spec fn padded(b: Aabb3) -> Aabb3 {
    if b.empty() {
        b
    } else {
        Aabb3 {
            min: Vec3 { x: b.min.x.dropped(4), y: b.min.y.dropped(4), z: b.min.z.dropped(4) },
            max: Vec3 { x: b.max.x.raised(4), y: b.max.y.raised(4), z: b.max.z.raised(4) },
        }
    }
}

/// A box widened by a few representable steps on every side.
pub fn pad(b: Aabb3) -> (r: Aabb3)
    ensures
        r == padded(b),
{
    proof {
        reveal(padded);
    }
    if b.is_empty() {
        return b;
    }
    Aabb3::new(
        Vec3::new(
            b.min.x.step_down(BOUND_PAD_ULPS),
            b.min.y.step_down(BOUND_PAD_ULPS),
            b.min.z.step_down(BOUND_PAD_ULPS),
        ),
        Vec3::new(
            b.max.x.step_up(BOUND_PAD_ULPS),
            b.max.y.step_up(BOUND_PAD_ULPS),
            b.max.z.step_up(BOUND_PAD_ULPS),
        ),
    )
}

/// What the hierarchy knows of the triangles.
pub struct Scene {
    /// The centroid of each triangle.
    pub centroids: Seq<Vec3>,
    /// The box of each triangle.
    pub boxes: Seq<Aabb3>,
}

/// The box of a triangle.
pub open spec fn triangle_box(t: (Vec3, Vec3, Vec3)) -> Aabb3 {
    box_around(seq![t.0, t.1, t.2], 3)
}

/// The triangles of a mesh.
pub open spec fn scene_of(points: Seq<Vec3>, faces: Seq<[u32; 3]>) -> Scene {
    Scene {
        centroids: Seq::new(faces.len(), |i: int| centroid_of(corners_of(points, faces[i]))),
        boxes: Seq::new(faces.len(), |i: int| triangle_box(corners_of(points, faces[i]))),
    }
}

/// The smallest box around some triangles.
#[verifier::opaque]
pub open spec fn group_box(scene: Scene, s: Seq<u32>) -> Aabb3
    decreases s.len(),
{
    if s.len() == 0 {
        empty_box()
    } else {
        box_union(group_box(scene, s.drop_last()), scene.boxes[s.last() as int])
    }
}

/// The bounds of a node over some triangles.
pub open spec fn node_box(scene: Scene, s: Seq<u32>) -> Aabb3 {
    padded(group_box(scene, s))
}

/// A triangle with the place of its centroid along an axis.
#[derive(Clone, Copy, Debug, PartialEq, Eq, Structural)]
pub struct Placed {
    /// The place in the total order of numbers.
    pub key: i64,
    /// The triangle.
    pub triangle: u32,
}

impl Ranked for Placed {
    open spec fn at_most(self, other: Self) -> bool {
        self.key < other.key || (self.key == other.key && self.triangle <= other.triangle)
    }

    proof fn total(self, other: Self) {
    }

    proof fn transitive(self, mid: Self, other: Self) {
    }

    proof fn antisymmetric(self, other: Self) {
    }

    fn is_at_most(self, other: Self) -> (r: bool) {
        self.key < other.key || (self.key == other.key && self.triangle <= other.triangle)
    }
}

/// The places of some triangles along an axis.
pub open spec fn places(scene: Scene, axis: Axis, s: Seq<u32>) -> Seq<Placed> {
    Seq::new(
        s.len(),
        |i: int| Placed { key: scene.centroids[s[i] as int].at(axis.number()).total_key() as i64, triangle: s[i] },
    )
}

/// The places in ascending order.
pub open spec fn ascending_places(p: Seq<Placed>) -> Seq<Placed> {
    choose|t: Seq<Placed>| sorted(t) && t.to_multiset() == p.to_multiset()
}

proof fn lemma_ascending_places(p: Seq<Placed>)
    ensures
        sorted(ascending_places(p)),
        ascending_places(p).to_multiset() == p.to_multiset(),
        ascending_places(p).len() == p.len(),
{
    let t = lemma_ascending_exists(p);
    assert(sorted(t) && t.to_multiset() == p.to_multiset());
    lemma_same_values(ascending_places(p), p);
}

/// The triangles in ascending order of their centroids along the longest axis of
/// their node, ties by index.
#[verifier::opaque]
pub open spec fn split(scene: Scene, s: Seq<u32>) -> Seq<u32> {
    let t = ascending_places(places(scene, node_box(scene, s).longest(), s));
    Seq::new(s.len(), |i: int| t[i].triangle)
}

/// The first half of a split.
pub open spec fn left_half(scene: Scene, s: Seq<u32>) -> Seq<u32> {
    split(scene, s).take(s.len() as int / 2)
}

/// The second half of a split.
pub open spec fn right_half(scene: Scene, s: Seq<u32>) -> Seq<u32> {
    split(scene, s).skip(s.len() as int / 2)
}

/// The final order of the triangles of a node.
pub open spec fn settled(scene: Scene, s: Seq<u32>) -> Seq<u32>
    decreases s.len(),
{
    if s.len() <= 4 {
        s
    } else {
        proof {
            reveal(split);
        }
        settled(scene, left_half(scene, s)) + settled(scene, right_half(scene, s))
    }
}

/// How many nodes stand beneath a node of `n` triangles.
pub open spec fn beneath(n: int) -> int
    decreases n,
{
    if n <= 4 {
        0
    } else {
        2 + beneath(n / 2) + beneath(n - n / 2)
    }
}

/// The node over some triangles: where its triangles start, or where its
/// children stand.
pub open spec fn node_for(scene: Scene, s: Seq<u32>, start: int, base: int) -> BvhNode {
    if s.len() <= 4 {
        BvhNode { bounds: node_box(scene, s), first_or_left: start as u32, count: s.len() as u32 }
    } else {
        BvhNode { bounds: node_box(scene, s), first_or_left: base as u32, count: 0 }
    }
}

/// The nodes beneath the node over some triangles, from place `base` on.
pub open spec fn descendants(scene: Scene, s: Seq<u32>, start: int, base: int) -> Seq<BvhNode>
    decreases s.len(),
{
    if s.len() <= 4 {
        Seq::empty()
    } else {
        proof {
            reveal(split);
        }
        let l = left_half(scene, s);
        let r = right_half(scene, s);
        let mid = start + s.len() as int / 2;
        let next = base + 2 + beneath(l.len() as int);
        seq![node_for(scene, l, start, base + 2), node_for(scene, r, mid, next)] + descendants(scene, l, start, base + 2)
            + descendants(scene, r, mid, next)
    }
}

/// There are as many nodes beneath as counted.
pub proof fn lemma_beneath(scene: Scene, s: Seq<u32>, start: int, base: int)
    ensures
        descendants(scene, s, start, base).len() == beneath(s.len() as int),
    decreases s.len(),
{
    if s.len() > 4 {
        lemma_split(scene, s);
        let l = left_half(scene, s);
        let r = right_half(scene, s);
        lemma_beneath(scene, l, start, base + 2);
        lemma_beneath(scene, r, start + s.len() as int / 2, base + 2 + beneath(l.len() as int));
    }
}

/// There are fewer nodes than twice the triangles.
pub proof fn lemma_beneath_bound(n: int)
    ensures
        0 <= beneath(n),
        n >= 1 ==> beneath(n) <= 2 * n - 2,
    decreases n,
{
    if n > 4 {
        lemma_beneath_bound(n / 2);
        lemma_beneath_bound(n - n / 2);
    }
}

/// The triangles of a mesh, in index order.
pub open spec fn in_index_order(n: nat) -> Seq<u32> {
    Seq::new(n, |i: int| i as u32)
}

/// The nodes of the hierarchy over a mesh.
pub open spec fn tree_nodes(scene: Scene, n: nat) -> Seq<BvhNode> {
    if n == 0 {
        Seq::empty()
    } else {
        seq![node_for(scene, in_index_order(n), 0, 1)] + descendants(scene, in_index_order(n), 0, 1)
    }
}

/// A split keeps the triangles.
pub proof fn lemma_split(scene: Scene, s: Seq<u32>)
    ensures
        split(scene, s).len() == s.len(),
        split(scene, s).to_multiset() == s.to_multiset(),
{
    reveal(split);
    let p = places(scene, node_box(scene, s).longest(), s);
    let t = ascending_places(p);
    lemma_ascending_places(p);
    lemma_triangles_permute(t, p);
    assert(split(scene, s) =~= triangles_of(t));
    assert(triangles_of(p) =~= s);
}

/// The triangles of some places.
pub open spec fn triangles_of(p: Seq<Placed>) -> Seq<u32> {
    Seq::new(p.len(), |i: int| p[i].triangle)
}

/// Permuted places hold permuted triangles.
proof fn lemma_triangles_permute(a: Seq<Placed>, b: Seq<Placed>)
    requires
        a.to_multiset() == b.to_multiset(),
    ensures
        triangles_of(a).to_multiset() == triangles_of(b).to_multiset(),
    decreases a.len(),
{
    broadcast use vstd::seq_lib::group_to_multiset_ensures;

    lemma_same_values(a, b);
    if a.len() == 0 {
        assert(triangles_of(a) =~= triangles_of(b));
    } else {
        let x = a.last();
        assert(a.contains(x));
        assert(b.contains(x));
        let j = choose|j: int| 0 <= j < b.len() && b[j] == x;
        let c = a.drop_last();
        let d = b.remove(j);
        assert(a =~= c.push(x));
        assert(c.to_multiset() =~= a.to_multiset().remove(x));
        vstd::seq_lib::to_multiset_remove(b, j);
        assert(d.to_multiset() =~= b.to_multiset().remove(x));
        lemma_triangles_permute(c, d);
        assert(triangles_of(a) =~= triangles_of(c).push(x.triangle));
        assert(triangles_of(d) =~= triangles_of(b).remove(j));
        vstd::seq_lib::to_multiset_remove(triangles_of(b), j);
        assert(triangles_of(c).to_multiset().insert(x.triangle) =~= triangles_of(b).to_multiset());
    }
}

/// Whatever holds of all triangles of a node holds of both halves.
pub proof fn lemma_halves(scene: Scene, s: Seq<u32>)
    ensures
        forall|x: u32| #[trigger]
            s.contains(x) <==> left_half(scene, s).contains(x) || right_half(scene, s).contains(x),
        left_half(scene, s).len() == s.len() / 2,
        right_half(scene, s).len() == s.len() - s.len() / 2,
{
    lemma_split(scene, s);
    let t = split(scene, s);
    let m = s.len() as int / 2;
    lemma_same_values(t, s);
    assert forall|x: u32| #[trigger]
        s.contains(x) <==> left_half(scene, s).contains(x) || right_half(scene, s).contains(x) by {
        assert(t.contains(x) <==> s.contains(x));
        if t.contains(x) {
            let i = choose|i: int| 0 <= i < t.len() && t[i] == x;
            if i < m {
                assert(t.take(m)[i] == x);
            } else {
                assert(t.skip(m)[i - m] == x);
            }
        }
        if t.take(m).contains(x) {
            let i = choose|i: int| 0 <= i < m && t.take(m)[i] == x;
            assert(t[i] == x);
        }
        if t.skip(m).contains(x) {
            let i = choose|i: int| 0 <= i < t.len() - m && t.skip(m)[i] == x;
            assert(t[m + i] == x);
        }
    }
}

/// The numbers of triangles are those of the scene.
pub open spec fn within(scene: Scene, s: Seq<u32>) -> bool {
    forall|i: int| 0 <= i < s.len() ==> (#[trigger] s[i]) < scene.boxes.len()
}

fn bound_range(order: &Vec<u32>, start: usize, end: usize, boxes: &Vec<Aabb3>, Ghost(scene): Ghost<Scene>) -> (r: Aabb3)
    requires
        start <= end <= order@.len(),
        boxes@ == scene.boxes,
        within(scene, order@),
    ensures
        r == node_box(scene, order@.subrange(start as int, end as int)),
{
    let mut b: Aabb3 = Aabb3::nothing();
    let mut i: usize = start;
    proof {
        reveal(group_box);
        assert(order@.subrange(start as int, i as int).len() == 0);
    }
    while i < end
        invariant
            start <= i <= end <= order@.len(),
            boxes@ == scene.boxes,
            within(scene, order@),
            b == group_box(scene, order@.subrange(start as int, i as int)),
        decreases end - i,
    {
        proof {
            reveal(group_box);
            assert(order@[i as int] < scene.boxes.len());
            assert(order@.subrange(start as int, i + 1).drop_last() =~= order@.subrange(start as int, i as int));
        }
        b = b.union(&boxes[order[i] as usize]);
        i = i + 1;
    }
    pad(b)
}

/// Sorts a range of triangles by their centroids along an axis.
fn split_range(
    order: &mut Vec<u32>,
    start: usize,
    end: usize,
    axis: Axis,
    centroids: &Vec<Vec3>,
    Ghost(scene): Ghost<Scene>,
)
    requires
        start <= end <= old(order)@.len(),
        centroids@ == scene.centroids,
        scene.centroids.len() == scene.boxes.len(),
        within(scene, old(order)@),
        axis == node_box(scene, old(order)@.subrange(start as int, end as int)).longest(),
    ensures
        final(order)@.len() == old(order)@.len(),
        final(order)@ == old(order)@.take(start as int) + split(scene, old(order)@.subrange(start as int, end as int))
            + old(order)@.skip(end as int),
{
    let ghost was = order@;
    let ghost s = was.subrange(start as int, end as int);
    let a: usize = axis.index();
    let mut unsorted: Vec<Placed> = Vec::new();
    let mut i: usize = start;
    while i < end
        invariant
            start <= i <= end <= order@.len(),
            order@ == was,
            s == was.subrange(start as int, end as int),
            centroids@ == scene.centroids,
            scene.centroids.len() == scene.boxes.len(),
            within(scene, was),
            a == axis.number(),
            a < 3,
            unsorted@ == places(scene, axis, s).take(i - start),
        decreases end - i,
    {
        let t: u32 = order[i];
        proof {
            assert(was[i as int] < scene.boxes.len());
            assert(s[i - start] == t);
        }
        unsorted.push(Placed { key: centroids[t as usize].component(a).total_order(), triangle: t });
        i = i + 1;
        proof {
            assert(unsorted@ =~= places(scene, axis, s).take(i - start));
        }
    }
    proof {
        assert(unsorted@ =~= places(scene, axis, s));
    }
    let ascending: Vec<Placed> = sort(&unsorted);
    proof {
        lemma_ascending_places(unsorted@);
        law_sorted_is_unique(ascending@, ascending_places(unsorted@));
    }
    let ghost t = split(scene, s);
    proof {
        reveal(split);
    }
    let mut k: usize = start;
    while k < end
        invariant
            start <= k <= end <= was.len(),
            order@.len() == was.len(),
            ascending@.len() == end - start,
            s.len() == end - start,
            t == Seq::new(s.len(), |i: int| ascending@[i].triangle),
            forall|j: int| start <= j < k ==> order@[j] == t[j - start],
            forall|j: int| 0 <= j < start || k <= j < was.len() ==> order@[j] == was[j],
        decreases end - k,
    {
        order.set(k, ascending[k - start].triangle);
        k = k + 1;
    }
    proof {
        assert(order@ =~= was.take(start as int) + t + was.skip(end as int));
    }
}

/// Builds the subtree over a range of the order into a node.
fn build_range(
    nodes: &mut Vec<BvhNode>,
    node_index: usize,
    order: &mut Vec<u32>,
    start: usize,
    end: usize,
    centroids: &Vec<Vec3>,
    boxes: &Vec<Aabb3>,
    Ghost(scene): Ghost<Scene>,
)
    requires
        node_index < old(nodes)@.len(),
        start < end <= old(order)@.len(),
        centroids@ == scene.centroids,
        boxes@ == scene.boxes,
        scene.centroids.len() == scene.boxes.len(),
        within(scene, old(order)@),
        old(nodes)@.len() + beneath(end - start) <= u32::MAX,
        old(order)@.len() <= u32::MAX,
    ensures
        ({
            let s = old(order)@.subrange(start as int, end as int);
            let base = old(nodes)@.len() as int;
            &&& final(order)@ == old(order)@.take(start as int) + settled(scene, s) + old(order)@.skip(end as int)
            &&& final(nodes)@ == old(nodes)@.update(node_index as int, node_for(scene, s, start as int, base))
                + descendants(scene, s, start as int, base)
        }),
    decreases end - start,
{
    let ghost nodes0 = nodes@;
    let ghost order0 = order@;
    let ghost s = order0.subrange(start as int, end as int);
    let ghost base = nodes0.len() as int;
    let bounds: Aabb3 = bound_range(order, start, end, boxes, Ghost(scene));
    let count: usize = end - start;
    if count <= LEAF_SIZE {
        nodes.set(node_index, BvhNode { bounds, first_or_left: start as u32, count: count as u32 });
        proof {
            assert(order@ =~= order0.take(start as int) + s + order0.skip(end as int));
            assert(nodes@ =~= nodes0.update(node_index as int, node_for(scene, s, start as int, base)) + Seq::<
                BvhNode,
            >::empty());
        }
        return;
    }
    split_range(order, start, end, bounds.longest_axis(), centroids, Ghost(scene));
    let ghost order1 = order@;
    let mid: usize = start + count / 2;
    let left: usize = nodes.len();
    let ghost l = left_half(scene, s);
    let ghost r = right_half(scene, s);
    proof {
        lemma_split(scene, s);
        lemma_same_values(split(scene, s), s);
        lemma_beneath_bound(l.len() as int);
        lemma_beneath_bound(r.len() as int);
        lemma_split_within(scene, order0, order1, start as int, end as int);
        assert(order1.subrange(start as int, mid as int) =~= l);
        assert(order1.subrange(mid as int, end as int) =~= r);
    }
    let blank: BvhNode = BvhNode { bounds: Aabb3::nothing(), first_or_left: 0, count: 0 };
    nodes.push(blank);
    nodes.push(blank);
    nodes.set(node_index, BvhNode { bounds, first_or_left: left as u32, count: 0 });
    let ghost nodes1 = nodes@;
    build_range(nodes, left, order, start, mid, centroids, boxes, Ghost(scene));
    let ghost nodes2 = nodes@;
    let ghost order2 = order@;
    let ghost dl = descendants(scene, l, start as int, base + 2);
    let ghost next = base + 2 + beneath(l.len() as int);
    proof {
        lemma_beneath(scene, l, start as int, base + 2);
        lemma_settled(scene, l);
        lemma_same_values(settled(scene, l), l);
        lemma_left_within(scene, order1, order2, settled(scene, l), start as int, mid as int);
        assert(order2.subrange(mid as int, end as int) =~= r);
    }
    build_range(nodes, left + 1, order, mid, end, centroids, boxes, Ghost(scene));
    proof {
        let dr = descendants(scene, r, mid as int, next);
        lemma_settled(scene, r);
        lemma_same_values(settled(scene, r), r);
        lemma_order_joined(order0, order1, order2, order@, settled(scene, l), settled(scene, r), split(scene, s), start as int, mid as int, end as int);
        lemma_nodes_joined(
            nodes0,
            nodes1,
            nodes2,
            nodes@,
            node_index as int,
            node_for(scene, s, start as int, base),
            blank,
            node_for(scene, l, start as int, base + 2),
            node_for(scene, r, mid as int, next),
            dl,
            dr,
        );
    }
}

proof fn lemma_nodes_joined(
    nodes0: Seq<BvhNode>,
    nodes1: Seq<BvhNode>,
    nodes2: Seq<BvhNode>,
    nodes3: Seq<BvhNode>,
    at: int,
    top: BvhNode,
    blank: BvhNode,
    nl: BvhNode,
    nr: BvhNode,
    dl: Seq<BvhNode>,
    dr: Seq<BvhNode>,
)
    requires
        0 <= at < nodes0.len(),
        nodes1 == nodes0.push(blank).push(blank).update(at, top),
        nodes2 == nodes1.update(nodes0.len() as int, nl) + dl,
        nodes3 == nodes2.update(nodes0.len() as int + 1, nr) + dr,
    ensures
        nodes3 == nodes0.update(at, top) + (seq![nl, nr] + dl + dr),
{
    assert(nodes3 =~= nodes0.update(at, top) + (seq![nl, nr] + dl + dr));
}

/// Settling the left half leaves every number one of the scene.
proof fn lemma_left_within(scene: Scene, order1: Seq<u32>, order2: Seq<u32>, sl: Seq<u32>, start: int, mid: int)
    requires
        0 <= start <= mid <= order1.len(),
        within(scene, order1),
        sl.len() == mid - start,
        forall|x: u32| #[trigger] sl.contains(x) <==> order1.subrange(start, mid).contains(x),
        order2 == order1.take(start) + sl + order1.skip(mid),
    ensures
        order2.len() == order1.len(),
        within(scene, order2),
{
    let l = order1.subrange(start, mid);
    assert forall|i: int| 0 <= i < order2.len() implies (#[trigger] order2[i]) < scene.boxes.len() by {
        if start <= i < mid {
            let x = sl[i - start];
            assert(sl.contains(x));
            assert(l.contains(x));
            let k = choose|k: int| 0 <= k < l.len() && l[k] == x;
            assert(order1[start + k] == x);
        } else {
            assert(order2[i] == order1[i]);
        }
    }
}

proof fn lemma_order_joined(
    order0: Seq<u32>,
    order1: Seq<u32>,
    order2: Seq<u32>,
    order3: Seq<u32>,
    sl: Seq<u32>,
    sr: Seq<u32>,
    t: Seq<u32>,
    start: int,
    mid: int,
    end: int,
)
    requires
        0 <= start <= mid <= end <= order0.len(),
        t.len() == end - start,
        sl.len() == mid - start,
        sr.len() == end - mid,
        order1 == order0.take(start) + t + order0.skip(end),
        order2 == order1.take(start) + sl + order1.skip(mid),
        order3 == order2.take(mid) + sr + order2.skip(end),
    ensures
        order3 == order0.take(start) + (sl + sr) + order0.skip(end),
{
    assert(order3 =~= order0.take(start) + (sl + sr) + order0.skip(end));
}

proof fn lemma_split_within(scene: Scene, order0: Seq<u32>, order1: Seq<u32>, start: int, end: int)
    requires
        0 <= start <= end <= order0.len(),
        within(scene, order0),
        order1 == order0.take(start) + split(scene, order0.subrange(start, end)) + order0.skip(end),
    ensures
        order1.len() == order0.len(),
        within(scene, order1),
{
    let s = order0.subrange(start, end);
    lemma_split(scene, s);
    lemma_same_values(split(scene, s), s);
    assert forall|i: int| 0 <= i < order1.len() implies (#[trigger] order1[i]) < scene.boxes.len() by {
        if start <= i < end {
            let x = split(scene, s)[i - start];
            assert(split(scene, s).contains(x));
            assert(s.contains(x));
            let k = choose|k: int| 0 <= k < s.len() && s[k] == x;
            assert(order0[start + k] == x);
        } else {
            assert(order1[i] == order0[i]);
        }
    }
}

/// Settling keeps the triangles.
pub proof fn lemma_settled(scene: Scene, s: Seq<u32>)
    ensures
        settled(scene, s).len() == s.len(),
        settled(scene, s).to_multiset() == s.to_multiset(),
    decreases s.len(),
{
    if s.len() > 4 {
        let l = left_half(scene, s);
        let r = right_half(scene, s);
        lemma_split(scene, s);
        lemma_settled(scene, l);
        lemma_settled(scene, r);
        vstd::seq_lib::lemma_multiset_commutative(settled(scene, l), settled(scene, r));
        vstd::seq_lib::lemma_multiset_commutative(l, r);
        assert(split(scene, s) =~= l + r);
    }
}

/// The hierarchy over a mesh: its nodes and the order of its triangles.
pub(crate) fn build_tree(mesh: &TriMesh) -> (r: (Vec<BvhNode>, Vec<u32>))
    requires
        mesh.faces().len() <= 0x7fff_ffff,
    ensures
        ({
            let scene = scene_of(mesh.points(), mesh.faces());
            let n = mesh.faces().len();
            r.0@ == tree_nodes(scene, n) && r.1@ == settled(scene, in_index_order(n))
        }),
{
    let n: u32 = mesh.triangle_count();
    let ghost scene = scene_of(mesh.points(), mesh.faces());
    let mut order: Vec<u32> = Vec::new();
    let mut centroids: Vec<Vec3> = Vec::new();
    let mut boxes: Vec<Aabb3> = Vec::new();
    let mut i: u32 = 0;
    while i < n
        invariant
            i <= n,
            n == mesh.faces().len(),
            scene == scene_of(mesh.points(), mesh.faces()),
            order@ == in_index_order(i as nat),
            centroids@ == scene.centroids.take(i as int),
            boxes@ == scene.boxes.take(i as int),
        decreases n - i,
    {
        let t: [Vec3; 3] = mesh.triangle(i);
        let corners: Vec<Vec3> = vec![t[0], t[1], t[2]];
        order.push(i);
        centroids.push(mesh.centroid(i));
        boxes.push(Aabb3::from_points(corners.as_slice()));
        i = i + 1;
        proof {
            assert(corners@ =~= seq![t[0], t[1], t[2]]);
            assert(order@ =~= in_index_order(i as nat));
            assert(centroids@ =~= scene.centroids.take(i as int));
            assert(boxes@ =~= scene.boxes.take(i as int));
        }
    }
    let mut nodes: Vec<BvhNode> = Vec::new();
    if n == 0 {
        proof {
            assert(nodes@ =~= tree_nodes(scene, 0));
        }
        return (nodes, order);
    }
    nodes.push(BvhNode { bounds: Aabb3::nothing(), first_or_left: 0, count: 0 });
    proof {
        lemma_beneath_bound(n as int);
        assert(centroids@ =~= scene.centroids);
        assert(boxes@ =~= scene.boxes);
    }
    build_range(&mut nodes, 0, &mut order, 0, n as usize, &centroids, &boxes, Ghost(scene));
    proof {
        let all = in_index_order(n as nat);
        assert(all.subrange(0, n as int) =~= all);
        assert(order@ =~= settled(scene, all));
        assert(nodes@ =~= tree_nodes(scene, n as nat));
    }
    (nodes, order)
}

} // verus!
