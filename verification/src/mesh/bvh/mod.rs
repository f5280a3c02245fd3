//! Bounding volume hierarchy and leak-free ray casting.
//!
//! A line through a closed surface crosses it evenly often. Crossings are decided
//! by exact predicates, and where those vanish by a symbolic perturbation of the
//! vertices, so that no crossing is reported twice or lost at an edge or a vertex.

pub mod casting;
pub mod displaced;
pub mod filter;
pub mod hits;
pub mod laws;
pub mod parity;
pub mod simplicity;
pub mod tree;

use crate::arithmetic::{of_int, quotient};
use crate::double::{Double, INFINITY_BITS};
use crate::math::{empty_box, Aabb3, Ray, Vec3};
use crate::mesh::{corners_of, TriMesh};
use crate::order::one;
use crate::sorting::{sort, sorted};
use casting::{castable, check_ray, explains, far_point, lemma_far_point, plane_meeting, plane_parameter, slab_test, slabs, Hit, RayError};
use filter::{is_sure, sure};
use simplicity::{classify, crossing, vanishing, Crossing};
use tree::{
    beneath, build_tree, descendants, in_index_order, left_half, lemma_beneath, lemma_beneath_bound, lemma_halves,
    lemma_settled, lemma_split, node_for, right_half, scene_of, settled, tree_nodes, BvhNode, Scene,
};
use vstd::prelude::*;

verus! {

/// Counters describing how a ray query was answered.
#[derive(Clone, Copy, Debug, PartialEq, Eq, Structural)]
pub struct RayStats {
    /// Triangles tested.
    pub triangle_tests: u64,
    /// Tests answered without exact predicates.
    pub fast_path: u64,
    /// Tests answered by exact predicates.
    pub exact_path: u64,
    /// Edge functions that were exactly zero.
    pub sos_resolutions: u64,
    /// Triangles rejected because the line lies in their plane.
    pub coplanar_rejected: u64,
    /// Nodes visited.
    pub nodes_visited: u64,
}

impl Default for RayStats {
    fn default() -> (r: Self)
        ensures
            r == (RayStats {
                triangle_tests: 0,
                fast_path: 0,
                exact_path: 0,
                sos_resolutions: 0,
                coplanar_rejected: 0,
                nodes_visited: 0,
            }),
    {
        RayStats {
            triangle_tests: 0,
            fast_path: 0,
            exact_path: 0,
            sos_resolutions: 0,
            coplanar_rejected: 0,
            nodes_visited: 0,
        }
    }
}

impl RayStats {
    /// Adds another set of counters.
    pub fn merge(&mut self, other: &Self)
        requires
            old(self).triangle_tests + other.triangle_tests <= u64::MAX,
            old(self).fast_path + other.fast_path <= u64::MAX,
            old(self).exact_path + other.exact_path <= u64::MAX,
            old(self).sos_resolutions + other.sos_resolutions <= u64::MAX,
            old(self).coplanar_rejected + other.coplanar_rejected <= u64::MAX,
            old(self).nodes_visited + other.nodes_visited <= u64::MAX,
        ensures
            final(self).triangle_tests == old(self).triangle_tests + other.triangle_tests,
            final(self).fast_path == old(self).fast_path + other.fast_path,
            final(self).exact_path == old(self).exact_path + other.exact_path,
            final(self).sos_resolutions == old(self).sos_resolutions + other.sos_resolutions,
            final(self).coplanar_rejected == old(self).coplanar_rejected + other.coplanar_rejected,
            final(self).nodes_visited == old(self).nodes_visited + other.nodes_visited,
    {
        self.triangle_tests = self.triangle_tests + other.triangle_tests;
        self.fast_path = self.fast_path + other.fast_path;
        self.exact_path = self.exact_path + other.exact_path;
        self.sos_resolutions = self.sos_resolutions + other.sos_resolutions;
        self.coplanar_rejected = self.coplanar_rejected + other.coplanar_rejected;
        self.nodes_visited = self.nodes_visited + other.nodes_visited;
    }

    /// The fraction of tests that were answered by exact predicates.
    pub fn exact_fraction(&self) -> (r: Double)
        ensures
            r == if self.triangle_tests == 0 {
                Double { bits: 0 }
            } else {
                quotient(of_int(self.exact_path as int), of_int(self.triangle_tests as int))
            },
    {
        if self.triangle_tests == 0 {
            Double::zeroed()
        } else {
            Double::from_u64(self.exact_path).over(Double::from_u64(self.triangle_tests))
        }
    }
}

/// A bounding volume hierarchy over the triangles of a mesh.
#[derive(Debug, PartialEq, Eq)]
pub struct Bvh {
    nodes: Vec<BvhNode>,
    order: Vec<u32>,
}

/// The nodes and the order are those of a hierarchy over some triangles.
pub open spec fn is_tree(scene: Scene, nodes: Seq<BvhNode>, order: Seq<u32>) -> bool {
    let n = order.len();
    &&& n <= 0x7fff_ffff
    &&& scene.boxes.len() == n
    &&& scene.centroids.len() == n
    &&& nodes == tree_nodes(scene, n)
    &&& order == settled(scene, in_index_order(n))
}

/// Node `at` and those from `base` on are the subtree over some triangles, which
/// stand in the order from `start` on.
pub open spec fn subtree(
    nodes: Seq<BvhNode>,
    order: Seq<u32>,
    scene: Scene,
    s: Seq<u32>,
    start: int,
    base: int,
    at: int,
) -> bool {
    &&& 0 <= at < base <= nodes.len()
    &&& s.len() > 0
    &&& base + beneath(s.len() as int) <= nodes.len() <= u32::MAX
    &&& nodes[at] == node_for(scene, s, start, base)
    &&& nodes.subrange(base, base + beneath(s.len() as int)) == descendants(scene, s, start, base)
    &&& 0 <= start
    &&& start + s.len() <= order.len() <= u32::MAX
    &&& order.subrange(start, start + s.len()) == settled(scene, s)
}

/// The children of a node are subtrees.
pub(crate) proof fn lemma_children(
    nodes: Seq<BvhNode>,
    order: Seq<u32>,
    scene: Scene,
    s: Seq<u32>,
    start: int,
    base: int,
    at: int,
)
    requires
        subtree(nodes, order, scene, s, start, base, at),
        s.len() > 4,
    ensures
        ({
            let l = left_half(scene, s);
            let r = right_half(scene, s);
            let m = s.len() as int / 2;
            let next = base + 2 + beneath(l.len() as int);
            &&& l.len() == m
            &&& r.len() == s.len() - m
            &&& nodes[at].first_or_left == base
            &&& !nodes[at].leaf()
            &&& base + 1 < nodes.len()
            &&& subtree(nodes, order, scene, l, start, base + 2, base)
            &&& subtree(nodes, order, scene, r, start + m, next, base + 1)
        }),
{
    let l = left_half(scene, s);
    let r = right_half(scene, s);
    let m = s.len() as int / 2;
    let mid = start + m;
    let next = base + 2 + beneath(l.len() as int);
    lemma_split(scene, s);
    lemma_beneath_bound(l.len() as int);
    lemma_beneath_bound(r.len() as int);
    lemma_beneath(scene, l, start, base + 2);
    lemma_beneath(scene, r, mid, next);
    lemma_settled(scene, l);
    lemma_settled(scene, r);
    let all = descendants(scene, s, start, base);
    let d = nodes.subrange(base, base + beneath(s.len() as int));
    let dl = descendants(scene, l, start, base + 2);
    let dr = descendants(scene, r, mid, next);
    assert(d[0] == nodes[base]);
    assert(d[1] == nodes[base + 1]);
    assert(all[0] == node_for(scene, l, start, base + 2));
    assert(all[1] == node_for(scene, r, mid, next));
    assert(nodes.subrange(base + 2, base + 2 + beneath(l.len() as int)) =~= dl) by {
        assert forall|i: int| 0 <= i < dl.len() implies nodes[base + 2 + i] == dl[i] by {
            assert(d[2 + i] == nodes[base + 2 + i]);
            assert(all[2 + i] == dl[i]);
        }
    }
    assert(nodes.subrange(next, next + beneath(r.len() as int)) =~= dr) by {
        assert forall|i: int| 0 <= i < dr.len() implies nodes[next + i] == dr[i] by {
            assert(d[2 + dl.len() + i] == nodes[next + i]);
            assert(all[2 + dl.len() + i] == dr[i]);
        }
    }
    let o = order.subrange(start, start + s.len());
    assert(order.subrange(start, start + l.len()) =~= settled(scene, l)) by {
        assert forall|i: int| 0 <= i < l.len() implies order[start + i] == settled(scene, l)[i] by {
            assert(o[i] == order[start + i]);
        }
    }
    assert(order.subrange(mid, mid + r.len()) =~= settled(scene, r)) by {
        assert forall|i: int| 0 <= i < r.len() implies order[mid + i] == settled(scene, r)[i] by {
            assert(o[m + i] == order[mid + i]);
        }
    }
}

/// The whole hierarchy is the subtree of its root.
pub(crate) proof fn lemma_root_subtree(scene: Scene, nodes: Seq<BvhNode>, order: Seq<u32>)
    requires
        is_tree(scene, nodes, order),
        order.len() > 0,
    ensures
        subtree(nodes, order, scene, in_index_order(order.len()), 0, 1, 0),
{
    let s = in_index_order(order.len());
    lemma_beneath(scene, s, 0, 1);
    lemma_beneath_bound(s.len() as int);
    assert(nodes.subrange(1, 1 + beneath(s.len() as int)) =~= descendants(scene, s, 0, 1));
    assert(order.subrange(0, order.len() as int) =~= order);
}

/// A leaf holds its triangles.
pub(crate) proof fn lemma_leaf(
    nodes: Seq<BvhNode>,
    order: Seq<u32>,
    scene: Scene,
    s: Seq<u32>,
    start: int,
    base: int,
    at: int,
)
    requires
        subtree(nodes, order, scene, s, start, base, at),
        s.len() <= 4,
    ensures
        nodes[at].leaf(),
        nodes[at].first_or_left == start,
        nodes[at].count == s.len(),
        order.subrange(start, start + s.len()) == s,
{
}

/// Node `i` has its children behind it.
pub open spec fn parental(nodes: Seq<BvhNode>, i: int) -> bool {
    i < nodes[i].first_or_left && nodes[i].first_or_left + 1 < nodes.len()
}

/// The triangles of the leaves that a search for boxes reaches from node `i`.
pub open spec fn reached(nodes: Seq<BvhNode>, order: Seq<u32>, query: Aabb3, i: int) -> Seq<u32>
    decreases nodes.len() - i,
{
    if i < 0 || i >= nodes.len() || !nodes[i].bounds.meets(query) {
        Seq::empty()
    } else if nodes[i].leaf() {
        order.subrange(nodes[i].first_or_left as int, nodes[i].first_or_left + nodes[i].count)
    } else if !parental(nodes, i) {
        Seq::empty()
    } else {
        reached(nodes, order, query, nodes[i].first_or_left as int) + reached(
            nodes,
            order,
            query,
            nodes[i].first_or_left + 1,
        )
    }
}

/// The number of levels beneath node `i`, itself included.
pub open spec fn levels(nodes: Seq<BvhNode>, i: int) -> int
    decreases nodes.len() - i,
{
    if i < 0 || i >= nodes.len() {
        0
    } else if nodes[i].leaf() || !parental(nodes, i) {
        1
    } else {
        let a = levels(nodes, nodes[i].first_or_left as int);
        let b = levels(nodes, nodes[i].first_or_left + 1);
        1 + (if a >= b {
            a
        } else {
            b
        })
    }
}

/// How many of the first `n` nodes are leaves.
pub open spec fn leaves(nodes: Seq<BvhNode>, n: nat) -> int
    decreases n,
{
    if n == 0 {
        0
    } else {
        leaves(nodes, (n - 1) as nat) + (if nodes[n - 1].leaf() {
            1int
        } else {
            0
        })
    }
}

/// A line against a mesh.
pub struct Line {
    /// The vertices of the mesh.
    pub points: Seq<Vec3>,
    /// The triangles of the mesh.
    pub faces: Seq<[u32; 3]>,
    /// A point of the line.
    pub origin: Vec3,
    /// Its direction.
    pub direction: Vec3,
    /// Another point of the line.
    pub far: Vec3,
    /// One over each component of the direction.
    pub inverse: Vec3,
    /// By how much an edge function must exceed its rounding to need no exact
    /// arithmetic.
    pub margin: Double,
}

/// The line of a ray against a mesh.
pub open spec fn line_of(points: Seq<Vec3>, faces: Seq<[u32; 3]>, ray: Ray) -> Line {
    Line {
        points,
        faces,
        origin: ray.origin,
        direction: ray.direction,
        far: far_point(ray),
        inverse: Vec3 {
            x: quotient(one(), ray.direction.x),
            y: quotient(one(), ray.direction.y),
            z: quotient(one(), ray.direction.z),
        },
        margin: Double { bits: INFINITY_BITS },
    }
}

/// The line of a ray against a mesh, with a margin of its own.
pub open spec fn line_with(points: Seq<Vec3>, faces: Seq<[u32; 3]>, ray: Ray, margin: Double) -> Line {
    Line { margin, ..line_of(points, faces, ray) }
}

/// What a walk along a line has met.
#[verifier::ext_equal]
pub struct Trace {
    /// The crossings, in the order in which they were met.
    pub hits: Seq<Hit>,
    /// Triangles tested.
    pub tests: int,
    /// Those of them that needed no exact arithmetic.
    pub sure: int,
    /// Edge functions that were exactly zero.
    pub vanished: int,
    /// Triangles in whose plane the line lies.
    pub coplanar: int,
    /// Nodes visited.
    pub nodes: int,
}

impl Trace {
    /// Nothing met.
    pub open spec fn nothing() -> Trace {
        Trace { hits: Seq::empty(), tests: 0, sure: 0, vanished: 0, coplanar: 0, nodes: 0 }
    }

    /// One walk after another.
    pub open spec fn followed_by(self, other: Trace) -> Trace {
        Trace {
            hits: self.hits + other.hits,
            tests: self.tests + other.tests,
            sure: self.sure + other.sure,
            vanished: self.vanished + other.vanished,
            coplanar: self.coplanar + other.coplanar,
            nodes: self.nodes + other.nodes,
        }
    }
}

/// The corners of a triangle as an array.
pub open spec fn corner_array(points: Seq<Vec3>, t: [u32; 3]) -> [Vec3; 3] {
    let (a, b, c) = corners_of(points, t);
    [a, b, c]
}

/// What a line meets at one triangle.
#[verifier::opaque]
pub open spec fn triangle_trace(line: Line, i: u32) -> Trace {
    let idx = line.faces[i as int];
    let tri = corner_array(line.points, idx);
    let c = crossing(line.origin, line.far, tri, idx);
    let t = plane_meeting(line.origin, line.direction, tri);
    Trace {
        hits: match (c, t) {
            (Crossing::Hit { positive }, Some(t)) => seq![Hit { t, triangle: i, entering: positive }],
            _ => Seq::empty(),
        },
        tests: 1,
        sure: if sure(line.origin, line.far, tri, line.margin) {
            1
        } else {
            0
        },
        vanished: vanishing(line.origin, line.far, tri),
        coplanar: if c == Crossing::Coplanar {
            1
        } else {
            0
        },
        nodes: 0,
    }
}

/// What a line meets at some triangles in turn.
pub open spec fn triangles_trace(line: Line, s: Seq<u32>) -> Trace
    decreases s.len(),
{
    if s.len() == 0 {
        Trace::nothing()
    } else {
        triangles_trace(line, s.drop_last()).followed_by(triangle_trace(line, s.last()))
    }
}

/// What a line meets beneath node `i`.
pub open spec fn trace(nodes: Seq<BvhNode>, order: Seq<u32>, line: Line, i: int) -> Trace
    decreases nodes.len() - i,
{
    let visited = Trace { nodes: 1, ..Trace::nothing() };
    if i < 0 || i >= nodes.len() {
        Trace::nothing()
    } else if !slabs(nodes[i].bounds, line.origin, line.direction, line.inverse) {
        visited
    } else if nodes[i].leaf() {
        let first = nodes[i].first_or_left as int;
        visited.followed_by(triangles_trace(line, order.subrange(first, first + nodes[i].count)))
    } else if !parental(nodes, i) {
        visited
    } else {
        let left = nodes[i].first_or_left as int;
        visited.followed_by(trace(nodes, order, line, left)).followed_by(trace(nodes, order, line, left + 1))
    }
}

/// The counters of a walk.
pub open spec fn counts(t: Trace, s: RayStats) -> bool {
    &&& s.triangle_tests == t.tests
    &&& s.fast_path == t.sure
    &&& s.exact_path == t.tests - t.sure
    &&& s.sos_resolutions == t.vanished
    &&& s.coplanar_rejected == t.coplanar
    &&& s.nodes_visited == t.nodes
}

/// All numbers are below a bound.
pub open spec fn below(s: Seq<u32>, n: int) -> bool {
    forall|i: int| 0 <= i < s.len() ==> (#[trigger] s[i]) < n
}

proof fn lemma_halves_below(scene: Scene, s: Seq<u32>, n: int)
    requires
        below(s, n),
    ensures
        below(left_half(scene, s), n),
        below(right_half(scene, s), n),
{
    lemma_halves(scene, s);
    let l = left_half(scene, s);
    let r = right_half(scene, s);
    assert forall|i: int| 0 <= i < l.len() implies (#[trigger] l[i]) < n by {
        assert(l.contains(l[i]));
        assert(s.contains(l[i]));
    }
    assert forall|i: int| 0 <= i < r.len() implies (#[trigger] r[i]) < n by {
        assert(r.contains(r[i]));
        assert(s.contains(r[i]));
    }
}

proof fn lemma_triangles_trace_bound(line: Line, s: Seq<u32>)
    ensures
        triangles_trace(line, s).tests == s.len(),
        0 <= triangles_trace(line, s).sure <= s.len(),
        0 <= triangles_trace(line, s).vanished <= 3 * s.len(),
        0 <= triangles_trace(line, s).coplanar <= s.len(),
        triangles_trace(line, s).nodes == 0,
    decreases s.len(),
{
    if s.len() > 0 {
        lemma_triangles_trace_bound(line, s.drop_last());
        reveal(triangle_trace);
    }
}

/// A walk tests every triangle at most once and visits every node at most once.
proof fn lemma_trace_bound(
    nodes: Seq<BvhNode>,
    order: Seq<u32>,
    scene: Scene,
    s: Seq<u32>,
    start: int,
    base: int,
    at: int,
    line: Line,
)
    requires
        subtree(nodes, order, scene, s, start, base, at),
    ensures
        ({
            let t = trace(nodes, order, line, at);
            &&& 0 <= t.tests <= s.len()
            &&& 0 <= t.sure <= t.tests
            &&& 0 <= t.vanished <= 3 * s.len()
            &&& 0 <= t.coplanar <= s.len()
            &&& 1 <= t.nodes <= 1 + beneath(s.len() as int)
        }),
    decreases s.len(),
{
    lemma_beneath_bound(s.len() as int);
    if s.len() <= 4 {
        lemma_leaf(nodes, order, scene, s, start, base, at);
        lemma_triangles_trace_bound(line, s);
    } else {
        lemma_children(nodes, order, scene, s, start, base, at);
        let l = left_half(scene, s);
        let r = right_half(scene, s);
        let m = s.len() as int / 2;
        lemma_trace_bound(nodes, order, scene, l, start, base + 2, base, line);
        lemma_trace_bound(
            nodes,
            order,
            scene,
            r,
            start + m,
            base + 2 + beneath(l.len() as int),
            base + 1,
            line,
        );
    }
}

/// The counters after a walk.
pub open spec fn counted(before: RayStats, t: Trace, after: RayStats) -> bool {
    &&& after.triangle_tests == before.triangle_tests + t.tests
    &&& after.fast_path == before.fast_path + t.sure
    &&& after.exact_path == before.exact_path + t.tests - t.sure
    &&& after.sos_resolutions == before.sos_resolutions + t.vanished
    &&& after.coplanar_rejected == before.coplanar_rejected + t.coplanar
    &&& after.nodes_visited == before.nodes_visited + t.nodes
}

/// The counters have room for so much more.
spec fn roomy(s: RayStats, room: int) -> bool {
    &&& s.triangle_tests + room <= u64::MAX
    &&& s.fast_path + room <= u64::MAX
    &&& s.exact_path + room <= u64::MAX
    &&& s.sos_resolutions + room <= u64::MAX
    &&& s.coplanar_rejected + room <= u64::MAX
    &&& s.nodes_visited + room <= u64::MAX
}

/// Tests one triangle against a line.
fn test_triangle(mesh: &TriMesh, ray: &Ray, far: Vec3, margin: Double, i: u32, out: &mut Vec<Hit>, stats: &mut RayStats)
    requires
        i < mesh.faces().len(),
        castable(*ray),
        far == far_point(*ray),
        roomy(*old(stats), 8),
    ensures
        final(out)@ == old(out)@ + triangle_trace(line_with(mesh.points(), mesh.faces(), *ray, margin), i).hits,
        counted(*old(stats), triangle_trace(line_with(mesh.points(), mesh.faces(), *ray, margin), i), *final(stats)),
{
    let tri: [Vec3; 3] = mesh.triangle(i);
    let idx: [u32; 3] = mesh.triangles()[i as usize];
    proof {
        lemma_far_point(*ray);
        reveal(triangle_trace);
        assert(tri =~= corner_array(mesh.points(), idx));
    }
    let (c, vanished) = classify(ray.origin, far, tri, idx);
    stats.triangle_tests = stats.triangle_tests + 1;
    if is_sure(ray.origin, far, tri, margin) {
        stats.fast_path = stats.fast_path + 1;
    } else {
        stats.exact_path = stats.exact_path + 1;
    }
    stats.sos_resolutions = stats.sos_resolutions + vanished;
    match c {
        Crossing::Hit { positive } => {
            match plane_parameter(ray.origin, ray.direction, tri) {
                Some(t) => {
                    out.push(Hit { t, triangle: i, entering: positive });
                },
                None => {},
            }
        },
        Crossing::Miss => {},
        Crossing::Coplanar => {
            stats.coplanar_rejected = stats.coplanar_rejected + 1;
        },
    }
    proof {
        assert(out@ =~= old(out)@ + triangle_trace(line_with(mesh.points(), mesh.faces(), *ray, margin), i).hits);
    }
}

impl Bvh {
    /// The nodes.
    pub closed spec fn node_list(self) -> Seq<BvhNode> {
        self.nodes@
    }

    /// The order of the triangles.
    pub closed spec fn triangle_order(self) -> Seq<u32> {
        self.order@
    }

    /// The nodes and the order are those of a hierarchy.
    #[verifier::type_invariant]
    pub open spec fn inv(self) -> bool {
        exists|scene: Scene| #[trigger] is_tree(scene, self.node_list(), self.triangle_order())
    }

    /// The hierarchy is the one over a mesh.
    pub open spec fn covers(self, points: Seq<Vec3>, faces: Seq<[u32; 3]>) -> bool {
        is_tree(scene_of(points, faces), self.node_list(), self.triangle_order()) && self.triangle_order().len()
            == faces.len()
    }

    /// Builds a hierarchy over every triangle of `mesh`.
    pub fn build(mesh: &TriMesh) -> (b: Bvh)
        requires
            mesh.faces().len() <= 0x7fff_ffff,
        ensures
            b.covers(mesh.points(), mesh.faces()),
    {
        let (nodes, order) = build_tree(mesh);
        proof {
            let scene = scene_of(mesh.points(), mesh.faces());
            lemma_settled(scene, in_index_order(mesh.faces().len()));
            let b = Bvh { nodes, order };
            assert(is_tree(scene, b.node_list(), b.triangle_order()));
        }
        Bvh { nodes, order }
    }

    /// The nodes. The first is the root.
    pub fn nodes(&self) -> (r: &[BvhNode])
        ensures
            r@ == self.node_list(),
    {
        self.nodes.as_slice()
    }

    /// The order of the triangles that leaves refer to.
    pub fn order(&self) -> (r: &[u32])
        ensures
            r@ == self.triangle_order(),
    {
        self.order.as_slice()
    }

    /// Bounds of the whole hierarchy.
    pub fn bounds(&self) -> (b: Aabb3)
        ensures
            b == (if self.node_list().len() == 0 {
                empty_box()
            } else {
                self.node_list()[0].bounds
            }),
    {
        if self.nodes.len() == 0 {
            Aabb3::nothing()
        } else {
            self.nodes[0].bounds
        }
    }

    /// Number of leaves.
    pub fn leaf_count(&self) -> (n: usize)
        ensures
            n == leaves(self.node_list(), self.node_list().len()),
    {
        let mut n: usize = 0;
        let mut i: usize = 0;
        while i < self.nodes.len()
            invariant
                i <= self.nodes@.len(),
                n == leaves(self.nodes@, i as nat),
                n <= i,
            decreases self.nodes@.len() - i,
        {
            if self.nodes[i].is_leaf() {
                n = n + 1;
            }
            i = i + 1;
        }
        n
    }

    /// True if the hierarchy covers no triangles.
    pub fn is_empty(&self) -> (r: bool)
        ensures
            r == (self.node_list().len() == 0),
    {
        self.nodes.len() == 0
    }

    fn depth(
        &self,
        i: u32,
        Ghost(scene): Ghost<Scene>,
        Ghost(s): Ghost<Seq<u32>>,
        Ghost(start): Ghost<int>,
        Ghost(base): Ghost<int>,
    ) -> (d: u32)
        requires
            subtree(self.nodes@, self.order@, scene, s, start, base, i as int),
        ensures
            d == levels(self.nodes@, i as int),
            1 <= d <= s.len(),
        decreases s.len(),
    {
        let node: BvhNode = self.nodes[i as usize];
        proof {
            if s.len() <= 4 {
                lemma_leaf(self.nodes@, self.order@, scene, s, start, base, i as int);
            } else {
                lemma_children(self.nodes@, self.order@, scene, s, start, base, i as int);
            }
        }
        if node.is_leaf() {
            return 1;
        }
        let ghost l = left_half(scene, s);
        let ghost r = right_half(scene, s);
        let ghost m = s.len() as int / 2;
        let left: u32 = node.first_or_left;
        let a: u32 = self.depth(left, Ghost(scene), Ghost(l), Ghost(start), Ghost(base + 2));
        let b: u32 = self.depth(
            left + 1,
            Ghost(scene),
            Ghost(r),
            Ghost(start + m),
            Ghost(base + 2 + beneath(l.len() as int)),
        );
        1 + (if a >= b { a } else { b })
    }

    /// Greatest number of nodes from the root to a leaf; zero for an empty
    /// hierarchy.
    pub fn max_depth(&self) -> (d: u32)
        ensures
            d == (if self.node_list().len() == 0 {
                0
            } else {
                levels(self.node_list(), 0)
            }),
    {
        if self.nodes.len() == 0 {
            return 0;
        }
        proof {
            use_type_invariant(self);
        }
        let ghost scene = choose|scene: Scene| #[trigger] is_tree(scene, self.node_list(), self.triangle_order());
        proof {
            lemma_root_subtree(scene, self.nodes@, self.order@);
        }
        self.depth(0, Ghost(scene), Ghost(in_index_order(self.order@.len())), Ghost(0), Ghost(1))
    }

    fn collect(
        &self,
        i: u32,
        query: &Aabb3,
        out: &mut Vec<u32>,
        Ghost(scene): Ghost<Scene>,
        Ghost(s): Ghost<Seq<u32>>,
        Ghost(start): Ghost<int>,
        Ghost(base): Ghost<int>,
    )
        requires
            subtree(self.nodes@, self.order@, scene, s, start, base, i as int),
        ensures
            final(out)@ == old(out)@ + reached(self.nodes@, self.order@, *query, i as int),
        decreases s.len(),
    {
        let node: BvhNode = self.nodes[i as usize];
        let ghost was = out@;
        proof {
            if s.len() <= 4 {
                lemma_leaf(self.nodes@, self.order@, scene, s, start, base, i as int);
            } else {
                lemma_children(self.nodes@, self.order@, scene, s, start, base, i as int);
            }
        }
        if !node.bounds.intersects(query) {
            proof {
                assert(out@ =~= was + Seq::<u32>::empty());
            }
            return;
        }
        if node.is_leaf() {
            let first: usize = node.first_or_left as usize;
            let n: usize = node.count as usize;
            let len: usize = self.order.len();
            assert(first + n <= len);
            let mut k: usize = 0;
            while k < n
                invariant
                    k <= n,
                    first + n <= self.order@.len(),
                    first + n <= len,
                    out@ == was + self.order@.subrange(first as int, first + k),
                decreases n - k,
            {
                out.push(self.order[first + k]);
                k = k + 1;
                proof {
                    assert(out@ =~= was + self.order@.subrange(first as int, first + k));
                }
            }
            return;
        }
        let ghost l = left_half(scene, s);
        let ghost r = right_half(scene, s);
        let ghost m = s.len() as int / 2;
        let left: u32 = node.first_or_left;
        self.collect(left, query, out, Ghost(scene), Ghost(l), Ghost(start), Ghost(base + 2));
        self.collect(
            left + 1,
            query,
            out,
            Ghost(scene),
            Ghost(r),
            Ghost(start + m),
            Ghost(base + 2 + beneath(l.len() as int)),
        );
        proof {
            let a = reached(self.nodes@, self.order@, *query, left as int);
            let b = reached(self.nodes@, self.order@, *query, left + 1);
            assert(was + a + b =~= was + (a + b));
        }
    }

    /// Replaces `out` by the triangles of every leaf that the query box reaches,
    /// ascending. Every triangle whose own box meets the query is among them.
    pub fn query_aabb(&self, query: &Aabb3, out: &mut Vec<u32>)
        ensures
            sorted(final(out)@),
            final(out)@.to_multiset() == (if query.empty() {
                Seq::<u32>::empty()
            } else {
                reached(self.node_list(), self.triangle_order(), *query, 0)
            }).to_multiset(),
    {
        out.clear();
        let none: bool = self.nodes.len() == 0 || query.is_empty();
        if none {
            return;
        }
        proof {
            use_type_invariant(self);
        }
        let ghost scene = choose|scene: Scene| #[trigger] is_tree(scene, self.node_list(), self.triangle_order());
        proof {
            lemma_root_subtree(scene, self.nodes@, self.order@);
        }
        let mut found: Vec<u32> = Vec::new();
        self.collect(
            0,
            query,
            &mut found,
            Ghost(scene),
            Ghost(in_index_order(self.order@.len())),
            Ghost(0),
            Ghost(1),
        );
        proof {
            let r = reached(self.nodes@, self.order@, *query, 0);
            assert(Seq::<u32>::empty() + r =~= r);
        }
        *out = sort(&found);
    }

    fn walk(
        &self,
        mesh: &TriMesh,
        ray: &Ray,
        far: Vec3,
        inverse: Vec3,
        margin: Double,
        i: u32,
        out: &mut Vec<Hit>,
        stats: &mut RayStats,
        Ghost(scene): Ghost<Scene>,
        Ghost(s): Ghost<Seq<u32>>,
        Ghost(start): Ghost<int>,
        Ghost(base): Ghost<int>,
    )
        requires
            subtree(self.nodes@, self.order@, scene, s, start, base, i as int),
            below(s, mesh.faces().len() as int),
            castable(*ray),
            far == far_point(*ray),
            inverse == line_with(mesh.points(), mesh.faces(), *ray, margin).inverse,
            roomy(*old(stats), 16 * s.len() as int + 64),
        ensures
            ({
                let t = trace(self.nodes@, self.order@, line_with(mesh.points(), mesh.faces(), *ray, margin), i as int);
                &&& final(out)@ == old(out)@ + t.hits
                &&& counted(*old(stats), t, *final(stats))
            }),
        decreases s.len(),
    {
        let node: BvhNode = self.nodes[i as usize];
        let ghost line = line_with(mesh.points(), mesh.faces(), *ray, margin);
        let ghost out0 = out@;
        let ghost stats0 = *stats;
        proof {
            if s.len() <= 4 {
                lemma_leaf(self.nodes@, self.order@, scene, s, start, base, i as int);
            } else {
                lemma_children(self.nodes@, self.order@, scene, s, start, base, i as int);
            }
        }
        stats.nodes_visited = stats.nodes_visited + 1;
        if !slab_test(&node.bounds, ray.origin, ray.direction, inverse) {
            proof {
                assert(out@ =~= out0 + Seq::<Hit>::empty());
            }
            return;
        }
        if node.is_leaf() {
            self.scan(mesh, ray, far, margin, node.first_or_left, node.count, out, stats);
            proof {
                let t = triangles_trace(line, s);
                assert(Seq::<Hit>::empty() + t.hits =~= t.hits);
            }
            return;
        }
        let ghost l = left_half(scene, s);
        let ghost r = right_half(scene, s);
        let ghost m = s.len() as int / 2;
        let ghost next = base + 2 + beneath(l.len() as int);
        let left: u32 = node.first_or_left;
        proof {
            lemma_halves_below(scene, s, mesh.faces().len() as int);
            lemma_trace_bound(self.nodes@, self.order@, scene, l, start, base + 2, base, line);
            lemma_beneath_bound(l.len() as int);
        }
        self.walk(mesh, ray, far, inverse, margin, left, out, stats, Ghost(scene), Ghost(l), Ghost(start), Ghost(base + 2));
        self.walk(
            mesh,
            ray,
            far,
            inverse,
            margin,
            left + 1,
            out,
            stats,
            Ghost(scene),
            Ghost(r),
            Ghost(start + m),
            Ghost(next),
        );
        proof {
            let a = trace(self.nodes@, self.order@, line, left as int);
            let b = trace(self.nodes@, self.order@, line, left + 1);
            assert(out0 + a.hits + b.hits =~= out0 + (Seq::<Hit>::empty() + a.hits + b.hits));
        }
    }

    /// Tests the triangles of a leaf.
    fn scan(
        &self,
        mesh: &TriMesh,
        ray: &Ray,
        far: Vec3,
        margin: Double,
        first: u32,
        count: u32,
        out: &mut Vec<Hit>,
        stats: &mut RayStats,
    )
        requires
            first + count <= self.order@.len() <= u32::MAX,
            count <= 4,
            below(self.order@.subrange(first as int, first + count), mesh.faces().len() as int),
            castable(*ray),
            far == far_point(*ray),
            roomy(*old(stats), 32),
        ensures
            ({
                let t = triangles_trace(
                    line_with(mesh.points(), mesh.faces(), *ray, margin),
                    self.order@.subrange(first as int, first + count),
                );
                &&& final(out)@ == old(out)@ + t.hits
                &&& counted(*old(stats), t, *final(stats))
            }),
    {
        let ghost line = line_with(mesh.points(), mesh.faces(), *ray, margin);
        let ghost s = self.order@.subrange(first as int, first + count);
        let ghost out0 = out@;
        let ghost stats0 = *stats;
        let mut k: u32 = 0;
        proof {
            assert(out@ =~= out0 + triangles_trace(line, s.take(0)).hits);
        }
        while k < count
            invariant
                k <= count <= 4,
                first + count <= self.order@.len() <= u32::MAX,
                s == self.order@.subrange(first as int, first + count),
                below(s, mesh.faces().len() as int),
                castable(*ray),
                far == far_point(*ray),
                line == line_with(mesh.points(), mesh.faces(), *ray, margin),
                roomy(stats0, 32),
                out@ == out0 + triangles_trace(line, s.take(k as int)).hits,
                counted(stats0, triangles_trace(line, s.take(k as int)), *stats),
            decreases count - k,
        {
            let i: u32 = self.order[(first + k) as usize];
            proof {
                assert(s[k as int] == i);
                lemma_triangles_trace_bound(line, s.take(k as int));
                assert(s.take(k + 1).drop_last() =~= s.take(k as int));
            }
            let ghost before = triangles_trace(line, s.take(k as int));
            test_triangle(mesh, ray, far, margin, i, out, stats);
            k = k + 1;
            proof {
                let t = triangle_trace(line, i);
                assert(out0 + before.hits + t.hits =~= out0 + (before.hits + t.hits));
            }
        }
        proof {
            assert(s.take(k as int) =~= s);
        }
    }

    /// Every crossing of the infinite line through the ray, ascending in its
    /// parameter, behind the origin too.
    pub fn intersect_ray_all(&self, mesh: &TriMesh, ray: &Ray) -> (r: Result<(Vec<Hit>, RayStats), RayError>)
        requires
            self.triangle_order().len() <= mesh.faces().len(),
        ensures
            match r {
                Ok((hits, stats)) => castable(*ray) && ({
                    let t = trace(
                        self.node_list(),
                        self.triangle_order(),
                        line_of(mesh.points(), mesh.faces(), *ray),
                        0,
                    );
                    sorted(hits@) && hits@.to_multiset() == t.hits.to_multiset() && counts(t, stats)
                }),
                Err(e) => !castable(*ray) && explains(e, *ray),
            },
    {
        let mut out: Vec<Hit> = Vec::new();
        match self.intersect_ray_all_into(mesh, ray, &mut out) {
            Ok(stats) => Ok((out, stats)),
            Err(e) => Err(e),
        }
    }

    /// [`Self::intersect_ray_all`] into the buffer of the caller, which is left
    /// alone on an error.
    pub fn intersect_ray_all_into(&self, mesh: &TriMesh, ray: &Ray, out: &mut Vec<Hit>) -> (r: Result<RayStats, RayError>)
        requires
            self.triangle_order().len() <= mesh.faces().len(),
        ensures
            match r {
                Ok(stats) => castable(*ray) && ({
                    let t = trace(
                        self.node_list(),
                        self.triangle_order(),
                        line_of(mesh.points(), mesh.faces(), *ray),
                        0,
                    );
                    sorted(final(out)@) && final(out)@.to_multiset() == t.hits.to_multiset() && counts(t, stats)
                }),
                Err(e) => !castable(*ray) && explains(e, *ray) && final(out)@ == old(out)@,
            },
    {
        let margin: Double = Double::from_bits(INFINITY_BITS);
        assert(line_with(mesh.points(), mesh.faces(), *ray, margin) == line_of(mesh.points(), mesh.faces(), *ray));
        self.cast_into(mesh, ray, margin, out)
    }

    /// As [`Self::intersect_ray_all`], counting apart the tests on which every
    /// edge function exceeds its rounding by the margin.
    pub fn intersect_ray_all_with(&self, mesh: &TriMesh, ray: &Ray, margin: Double) -> (r: Result<
        (Vec<Hit>, RayStats),
        RayError,
    >)
        requires
            self.triangle_order().len() <= mesh.faces().len(),
        ensures
            match r {
                Ok((hits, stats)) => castable(*ray) && ({
                    let t = trace(
                        self.node_list(),
                        self.triangle_order(),
                        line_with(mesh.points(), mesh.faces(), *ray, margin),
                        0,
                    );
                    sorted(hits@) && hits@.to_multiset() == t.hits.to_multiset() && counts(t, stats)
                }),
                Err(e) => !castable(*ray) && explains(e, *ray),
            },
    {
        let mut out: Vec<Hit> = Vec::new();
        match self.cast_into(mesh, ray, margin, &mut out) {
            Ok(stats) => Ok((out, stats)),
            Err(e) => Err(e),
        }
    }

    fn cast_into(&self, mesh: &TriMesh, ray: &Ray, margin: Double, out: &mut Vec<Hit>) -> (r: Result<RayStats, RayError>)
        requires
            self.triangle_order().len() <= mesh.faces().len(),
        ensures
            match r {
                Ok(stats) => castable(*ray) && ({
                    let t = trace(
                        self.node_list(),
                        self.triangle_order(),
                        line_with(mesh.points(), mesh.faces(), *ray, margin),
                        0,
                    );
                    sorted(final(out)@) && final(out)@.to_multiset() == t.hits.to_multiset() && counts(t, stats)
                }),
                Err(e) => !castable(*ray) && explains(e, *ray) && final(out)@ == old(out)@,
            },
    {
        match check_ray(ray) {
            Ok(_) => {},
            Err(e) => {
                return Err(e);
            },
        }
        out.clear();
        let mut stats: RayStats = RayStats::default();
        let ghost line = line_with(mesh.points(), mesh.faces(), *ray, margin);
        if self.nodes.len() == 0 {
            return Ok(stats);
        }
        proof {
            use_type_invariant(self);
        }
        let ghost scene = choose|scene: Scene| #[trigger] is_tree(scene, self.node_list(), self.triangle_order());
        let ghost s = in_index_order(self.order@.len());
        proof {
            lemma_root_subtree(scene, self.nodes@, self.order@);
        }
        let far: Vec3 = ray.origin.plus(ray.direction);
        let unit: Double = Double::from_bits(0x3ff0_0000_0000_0000);
        let d: Vec3 = ray.direction;
        let inverse: Vec3 = Vec3::new(unit.over(d.x), unit.over(d.y), unit.over(d.z));
        let mut found: Vec<Hit> = Vec::new();
        self.walk(
            mesh,
            ray,
            far,
            inverse,
            margin,
            0,
            &mut found,
            &mut stats,
            Ghost(scene),
            Ghost(s),
            Ghost(0),
            Ghost(1),
        );
        proof {
            let t = trace(self.nodes@, self.order@, line, 0);
            assert(Seq::<Hit>::empty() + t.hits =~= t.hits);
        }
        *out = sort(&found);
        Ok(stats)
    }

    /// The nearest crossing that is not behind the origin, if any.
    pub fn intersect_ray(&self, mesh: &TriMesh, ray: &Ray) -> (r: Result<Option<Hit>, RayError>)
        requires
            self.triangle_order().len() <= mesh.faces().len(),
        ensures
            match r {
                Ok(h) => castable(*ray) && exists|hits: Seq<Hit>| #[trigger]
                    sorted(hits) && hits.to_multiset() == trace(
                        self.node_list(),
                        self.triangle_order(),
                        line_of(mesh.points(), mesh.faces(), *ray),
                        0,
                    ).hits.to_multiset() && h == first_ahead(hits, 0),
                Err(e) => !castable(*ray) && explains(e, *ray),
            },
    {
        let hits: Vec<Hit> = match self.intersect_ray_all(mesh, ray) {
            Ok((hits, _)) => hits,
            Err(e) => {
                return Err(e);
            },
        };
        let mut i: usize = 0;
        while i < hits.len()
            invariant
                i <= hits@.len(),
                sorted(hits@),
                castable(*ray),
                hits@.to_multiset() == trace(
                    self.node_list(),
                    self.triangle_order(),
                    line_of(mesh.points(), mesh.faces(), *ray),
                    0,
                ).hits.to_multiset(),
                first_ahead(hits@, 0) == first_ahead(hits@, i as int),
            decreases hits@.len() - i,
        {
            if Double::zeroed().at_most(hits[i].t) {
                return Ok(Some(hits[i]));
            }
            i = i + 1;
        }
        Ok(None)
    }
}

/// The first crossing from place `i` on whose parameter is not negative.
pub open spec fn first_ahead(hits: Seq<Hit>, i: int) -> Option<Hit>
    decreases hits.len() - i,
{
    if i < 0 || i >= hits.len() {
        None
    } else if (Double { bits: 0 }).le(hits[i].t) {
        Some(hits[i])
    } else {
        first_ahead(hits, i + 1)
    }
}

} // verus!
