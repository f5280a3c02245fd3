//! Connected components of a mesh, by union-find.

use crate::arithmetic::{quotient, sum};
use crate::double::Double;
use crate::math::{cross_product, dot_product, Vec3};
use crate::mesh::validate::edges::{edge_key, edge_of, is_edge, is_side, lemma_uses, uses, EdgeKey, EdgeMap, EdgeUse};
use crate::mesh::{corners_of, six, TriMesh};
use crate::sorting::{singles, sort_distinct, strictly_sorted, tally, Ranked};
use vstd::prelude::*;

verus! {

/// A labelling does not tell related items apart.
pub open spec fn respects(label: spec_fn(int) -> int, related: spec_fn(int, int) -> bool) -> bool {
    forall|a: int, b: int| #[trigger] related(a, b) ==> label(a) == label(b)
}

/// Two items belong together: no labelling that keeps related items together
/// tells them apart. This is the least equivalence that holds the relation.
pub open spec fn linked(related: spec_fn(int, int) -> bool, i: int, j: int) -> bool {
    forall|label: spec_fn(int) -> int| #[trigger] respects(label, related) ==> label(i) == label(j)
}

/// Belonging together carries over.
pub proof fn lemma_linked_transitive(related: spec_fn(int, int) -> bool, i: int, j: int, k: int)
    requires
        linked(related, i, j),
        linked(related, j, k),
    ensures
        linked(related, i, k),
        linked(related, k, i),
{
}

/// Every parent is an earlier item or the item itself.
pub open spec fn descending(parent: Seq<u32>) -> bool {
    forall|x: int| 0 <= x < parent.len() ==> #[trigger] parent[x] <= x
}

/// The item that a chain of parents ends in.
pub open spec fn root(parent: Seq<u32>, x: int) -> int
    decreases x,
{
    if 0 <= x < parent.len() && parent[x] < x {
        root(parent, parent[x] as int)
    } else {
        x
    }
}

proof fn lemma_root(parent: Seq<u32>, x: int)
    requires
        descending(parent),
        0 <= x < parent.len(),
    ensures
        0 <= root(parent, x) <= x,
        parent[root(parent, x)] == root(parent, x),
        root(parent, root(parent, x)) == root(parent, x),
    decreases x,
{
    if parent[x] < x {
        lemma_root(parent, parent[x] as int);
    }
}

/// Skipping a parent changes no root.
proof fn lemma_halved(parent: Seq<u32>, x: int, y: int)
    requires
        descending(parent),
        0 <= x < parent.len(),
        0 <= y < parent.len(),
    ensures
        root(parent.update(x, parent[parent[x] as int]), y) == root(parent, y),
    decreases y,
{
    let next = parent.update(x, parent[parent[x] as int]);
    let p = parent[x] as int;
    if y == x {
        if p < x {
            let g = parent[p] as int;
            lemma_halved(parent, x, g);
            assert(root(parent, x) == root(parent, p));
            assert(root(parent, p) == root(parent, g));
        }
    } else if parent[y] < y {
        lemma_halved(parent, x, parent[y] as int);
    }
}

/// Hanging a root under an earlier root joins their trees and no others.
proof fn lemma_hung(parent: Seq<u32>, hi: int, lo: int, y: int)
    requires
        descending(parent),
        0 <= lo < hi < parent.len(),
        parent[lo] == lo,
        parent[hi] == hi,
        0 <= y < parent.len(),
    ensures
        root(parent.update(hi, lo as u32), y) == (if root(parent, y) == hi {
            lo
        } else {
            root(parent, y)
        }),
    decreases y,
{
    let next = parent.update(hi, lo as u32);
    if y == hi {
        assert(root(next, hi) == root(next, lo));
        assert(root(next, lo) == lo);
    } else if parent[y] < y {
        lemma_hung(parent, hi, lo, parent[y] as int);
    }
}

/// Union-find over the first items, each tree rooted in its earliest item.
pub(crate) struct UnionFind {
    parent: Vec<u32>,
}

impl UnionFind {
    /// How many items there are.
    pub(crate) closed spec fn size(self) -> nat {
        self.parent@.len()
    }

    /// The earliest item known to belong with `x`.
    pub(crate) closed spec fn leader(self, x: int) -> int {
        root(self.parent@, x)
    }

    /// Chains of parents descend, and lead only to items that belong together.
    pub(crate) closed spec fn sound(self, related: spec_fn(int, int) -> bool) -> bool {
        &&& descending(self.parent@)
        &&& self.parent@.len() <= u32::MAX
        &&& forall|x: int| 0 <= x < self.parent@.len() ==> linked(related, x, #[trigger] self.parent@[x] as int)
    }

    /// What being sound says of leaders.
    pub(crate) proof fn lemma_leader(self, related: spec_fn(int, int) -> bool, x: int)
        requires
            self.sound(related),
            0 <= x < self.size(),
        ensures
            0 <= self.leader(x) <= x,
            self.leader(self.leader(x)) == self.leader(x),
            linked(related, x, self.leader(x)),
        decreases x,
    {
        lemma_root(self.parent@, x);
        let p = self.parent@[x] as int;
        assert(linked(related, x, self.parent@[x] as int));
        if p < x {
            self.lemma_leader(related, p);
            lemma_linked_transitive(related, x, p, self.leader(p));
        }
    }

    /// Items none of which are known to belong together.
    pub(crate) fn new(n: u32, Ghost(related): Ghost<spec_fn(int, int) -> bool>) -> (u: UnionFind)
        ensures
            u.size() == n,
            u.sound(related),
            forall|x: int| 0 <= x < n ==> #[trigger] u.leader(x) == x,
    {
        let mut parent: Vec<u32> = Vec::new();
        let mut i: u32 = 0;
        while i < n
            invariant
                i <= n,
                parent@.len() == i,
                forall|x: int| 0 <= x < i ==> #[trigger] parent@[x] == x,
            decreases n - i,
        {
            parent.push(i);
            i = i + 1;
        }
        UnionFind { parent }
    }

    /// The leader of an item. Chains get shorter on the way.
    pub(crate) fn find(&mut self, x: u32, Ghost(related): Ghost<spec_fn(int, int) -> bool>) -> (r: u32)
        requires
            old(self).sound(related),
            x < old(self).size(),
        ensures
            final(self).sound(related),
            final(self).size() == old(self).size(),
            r == old(self).leader(x as int),
            forall|y: int| 0 <= y < old(self).size() ==> #[trigger] final(self).leader(y) == old(self).leader(y),
    {
        let mut x: u32 = x;
        let ghost start = x as int;
        while self.parent[x as usize] != x
            invariant
                self.sound(related),
                self.size() == old(self).size(),
                x < self.size(),
                root(self.parent@, x as int) == old(self).leader(start),
                forall|y: int| 0 <= y < old(self).size() ==> #[trigger] self.leader(y) == old(self).leader(y),
            decreases x,
        {
            let ghost was = self.parent@;
            let ghost before = *self;
            let p: u32 = self.parent[x as usize];
            let above: u32 = self.parent[p as usize];
            proof {
                assert(was[x as int] == p && was[p as int] == above);
                assert(linked(related, x as int, was[x as int] as int));
                assert(linked(related, p as int, was[p as int] as int));
                lemma_linked_transitive(related, x as int, p as int, above as int);
                lemma_halved(was, x as int, x as int);
                assert forall|y: int| 0 <= y < was.len() implies root(
                    was.update(x as int, above),
                    y,
                ) == root(was, y) by {
                    lemma_halved(was, x as int, y);
                }
            }
            self.parent.set(x as usize, above);
            proof {
                assert forall|y: int| 0 <= y < old(self).size() implies #[trigger] self.leader(y) == old(self).leader(
                    y,
                ) by {
                    assert(self.leader(y) == root(was, y));
                    assert(before.leader(y) == old(self).leader(y));
                }
                assert(root(self.parent@, x as int) == root(self.parent@, above as int));
            }
            x = above;
        }
        x
    }

    /// Joins the trees of two items that belong together.
    pub(crate) fn union(&mut self, a: u32, b: u32, Ghost(related): Ghost<spec_fn(int, int) -> bool>)
        requires
            old(self).sound(related),
            a < old(self).size(),
            b < old(self).size(),
            linked(related, a as int, b as int),
        ensures
            final(self).sound(related),
            final(self).size() == old(self).size(),
            final(self).leader(a as int) == final(self).leader(b as int),
            forall|x: int, y: int|
                0 <= x < old(self).size() && 0 <= y < old(self).size() && old(self).leader(x) == old(self).leader(y)
                    ==> #[trigger] final(self).leader(x) == #[trigger] final(self).leader(y),
    {
        let ra: u32 = self.find(a, Ghost(related));
        let rb: u32 = self.find(b, Ghost(related));
        if ra == rb {
            return;
        }
        let ghost was = *self;
        proof {
            was.lemma_leader(related, a as int);
            was.lemma_leader(related, b as int);
            lemma_linked_transitive(related, ra as int, a as int, b as int);
            lemma_linked_transitive(related, ra as int, b as int, rb as int);
            lemma_root(was.parent@, a as int);
            lemma_root(was.parent@, b as int);
        }
        let (lo, hi) = if ra < rb { (ra, rb) } else { (rb, ra) };
        self.parent.set(hi as usize, lo);
        proof {
            assert forall|y: int| 0 <= y < was.size() implies #[trigger] self.leader(y) == (if was.leader(y) == hi {
                lo as int
            } else {
                was.leader(y)
            }) by {
                lemma_hung(was.parent@, hi as int, lo as int, y);
            }
        }
    }
}

/// Two triangles have an edge in common.
pub open spec fn adjacent(faces: Seq<[u32; 3]>, a: int, b: int) -> bool {
    exists|u: EdgeUse, v: EdgeUse| #[trigger]
        is_side(faces, u) && #[trigger] is_side(faces, v) && u.triangle == a && v.triangle == b && u.edge == v.edge
}

/// Two triangles are in one component: a walk over common edges leads from one to
/// the other.
pub open spec fn connected(faces: Seq<[u32; 3]>, a: int, b: int) -> bool {
    linked(|i: int, j: int| adjacent(faces, i, j), a, b)
}

/// The groups are the components: each in ascending order, in ascending order of
/// their first triangles.
pub open spec fn are_components(faces: Seq<[u32; 3]>, groups: Seq<Seq<u32>>) -> bool {
    &&& forall|g: int| 0 <= g < groups.len() ==> (#[trigger] groups[g]).len() > 0 && strictly_sorted(groups[g])
    &&& forall|g: int, h: int| 0 <= g < h < groups.len() ==> (#[trigger] groups[g])[0] < (#[trigger] groups[h])[0]
    &&& forall|x: u32|
        #![trigger in_some(groups, x)]
        in_some(groups, x) <==> x < faces.len()
    &&& forall|g: int, x: u32, y: u32|
        #![trigger groups[g].contains(x), groups[g].contains(y)]
        0 <= g < groups.len() && groups[g].contains(x) && y < faces.len() ==> (groups[g].contains(y) <==> connected(
            faces,
            x as int,
            y as int,
        ))
}

/// Some group has this triangle.
pub open spec fn in_some(groups: Seq<Seq<u32>>, x: u32) -> bool {
    exists|g: int| 0 <= g < groups.len() && #[trigger] groups[g].contains(x)
}

/// The leaders of all triangles of a mesh.
fn leaders(faces: &[[u32; 3]], m: &EdgeMap) -> (r: Vec<u32>)
    requires
        faces@.len() <= u32::MAX,
        m.wf(faces@),
    ensures
        r@.len() == faces@.len(),
        forall|i: int| 0 <= i < r@.len() ==> #[trigger] r@[i] <= i && r@[r@[i] as int] == r@[i],
        forall|i: int, j: int|
            0 <= i < r@.len() && 0 <= j < r@.len() ==> (#[trigger] r@[i] == #[trigger] r@[j] <==> connected(
                faces@,
                i,
                j,
            )),
{
    let n: u32 = faces.len() as u32;
    let ghost related = |i: int, j: int| adjacent(faces@, i, j);
    let mut u: UnionFind = UnionFind::new(n, Ghost(related));
    let mut r: usize = 0;
    let count: usize = m.starts.len() - 1;
    while r < count
        invariant
            r <= count,
            count == m.count(),
            n == faces@.len(),
            faces@.len() <= u32::MAX,
            related == |i: int, j: int| adjacent(faces@, i, j),
            m.wf(faces@),
            u.sound(related),
            u.size() == n,
            forall|q: int, x: int, y: int|
                #![trigger m.run(q)[x], m.run(q)[y]]
                0 <= q < r && 0 <= x < m.run(q).len() && 0 <= y < m.run(q).len() ==> u.leader(
                    m.run(q)[x].triangle as int,
                ) == u.leader(m.run(q)[y].triangle as int),
        decreases count - r,
    {
        let ghost was = u;
        join_run(faces, m, r, &mut u);
        proof {
            assert forall|q: int, x: int, y: int|
                #![trigger m.run(q)[x], m.run(q)[y]]
                0 <= q < r + 1 && 0 <= x < m.run(q).len() && 0 <= y < m.run(q).len() implies u.leader(
                m.run(q)[x].triangle as int,
            ) == u.leader(m.run(q)[y].triangle as int) by {
                if q < r {
                    lemma_run_sides(*m, faces@, q);
                    assert(is_side(faces@, m.run(q)[x]) && is_side(faces@, m.run(q)[y]));
                    assert(was.leader(m.run(q)[x].triangle as int) == was.leader(m.run(q)[y].triangle as int));
                }
            }
        }
        r = r + 1;
    }
    let ghost done = u;
    let mut roots: Vec<u32> = Vec::new();
    let mut i: u32 = 0;
    while i < n
        invariant
            i <= n,
            n == done.size(),
            u.sound(related),
            u.size() == n,
            forall|y: int| 0 <= y < n ==> #[trigger] u.leader(y) == done.leader(y),
            roots@.len() == i,
            forall|y: int| 0 <= y < i ==> #[trigger] roots@[y] == done.leader(y),
        decreases n - i,
    {
        let x: u32 = u.find(i, Ghost(related));
        roots.push(x);
        i = i + 1;
    }
    proof {
        assert forall|i: int| 0 <= i < roots@.len() implies #[trigger] roots@[i] <= i && roots@[roots@[i] as int]
            == roots@[i] by {
            done.lemma_leader(related, i);
        }
        lemma_leaders_split(faces@, *m, done, related);
        assert forall|i: int, j: int| 0 <= i < roots@.len() && 0 <= j < roots@.len() implies (#[trigger] roots@[i]
            == #[trigger] roots@[j] <==> connected(faces@, i, j)) by {
            if roots@[i] == roots@[j] {
                done.lemma_leader(related, i);
                done.lemma_leader(related, j);
                lemma_linked_transitive(related, j, done.leader(j), done.leader(j));
                lemma_linked_transitive(related, i, done.leader(i), j);
            }
        }
    }
    roots
}

/// Triangles that belong together have the same leader, once all runs were
/// joined.
proof fn lemma_leaders_split(
    faces: Seq<[u32; 3]>,
    m: EdgeMap,
    u: UnionFind,
    related: spec_fn(int, int) -> bool,
)
    requires
        faces.len() <= u32::MAX,
        m.wf(faces),
        related == |i: int, j: int| adjacent(faces, i, j),
        u.sound(related),
        u.size() == faces.len(),
        forall|q: int, x: int, y: int|
            #![trigger m.run(q)[x], m.run(q)[y]]
            0 <= q < m.count() && 0 <= x < m.run(q).len() && 0 <= y < m.run(q).len() ==> u.leader(
                m.run(q)[x].triangle as int,
            ) == u.leader(m.run(q)[y].triangle as int),
    ensures
        forall|i: int, j: int| #[trigger] connected(faces, i, j) ==> u.leader(i) == u.leader(j),
{
    let label = |i: int| u.leader(i);
    assert forall|a: int, b: int| #[trigger] related(a, b) implies label(a) == label(b) by {
        assert(adjacent(faces, a, b));
        let (s, t) = choose|s: EdgeUse, t: EdgeUse| #[trigger]
            is_side(faces, s) && #[trigger] is_side(faces, t) && s.triangle == a && t.triangle == b && s.edge == t.edge;
        lemma_uses(faces, s.edge);
        let all = uses(faces, s.edge);
        assert(all.contains(s));
        assert(all.contains(t));
        assert(is_edge(faces, s.edge));
        let q = choose|q: int| 0 <= q < m.count() && #[trigger] m.edge(q) == s.edge;
        assert(m.run(q) == all);
        let x = choose|x: int| 0 <= x < all.len() && all[x] == s;
        let y = choose|y: int| 0 <= y < all.len() && all[y] == t;
        assert(m.run(q)[x] == s && m.run(q)[y] == t);
    }
    assert(respects(label, related));
    assert forall|i: int, j: int| #[trigger] connected(faces, i, j) implies u.leader(i) == u.leader(j) by {
        assert(linked(related, i, j));
        assert(label(i) == label(j));
    }
}

/// The uses in a run are sides with its edge.
pub(crate) proof fn lemma_run_sides(m: EdgeMap, faces: Seq<[u32; 3]>, r: int)
    requires
        faces.len() <= u32::MAX,
        m.wf(faces),
        0 <= r < m.count(),
    ensures
        m.starts@[r] < m.starts@[r + 1] <= m.all@.len(),
        forall|x: int| 0 <= x < m.run(r).len() ==> #[trigger] is_side(faces, m.run(r)[x]),
        forall|x: int| 0 <= x < m.run(r).len() ==> (#[trigger] m.run(r)[x]).edge == m.edge(r),
{
    let run = m.run(r);
    assert(m.starts@[r] < m.starts@[r + 1]);
    if r + 1 < m.starts@.len() - 1 {
        assert(m.starts@[r + 1] < m.starts@[m.starts@.len() - 1]);
    }
    lemma_uses(faces, m.edge(r));
    assert forall|x: int| 0 <= x < run.len() implies #[trigger] is_side(faces, run[x]) && run[x].edge == m.edge(r) by {
        assert(uses(faces, m.edge(r)).contains(run[x]));
    }
    assert forall|x: int| 0 <= x < run.len() implies (#[trigger] run[x]).edge == m.edge(r) by {
        assert(is_side(faces, run[x]));
    }
}

/// Joins all triangles that use an edge.
fn join_run(faces: &[[u32; 3]], m: &EdgeMap, r: usize, u: &mut UnionFind)
    requires
        faces@.len() <= u32::MAX,
        m.wf(faces@),
        r < m.count(),
        old(u).sound(|i: int, j: int| adjacent(faces@, i, j)),
        old(u).size() == faces@.len(),
    ensures
        final(u).sound(|i: int, j: int| adjacent(faces@, i, j)),
        final(u).size() == old(u).size(),
        forall|x: int, y: int|
            0 <= x < old(u).size() && 0 <= y < old(u).size() && old(u).leader(x) == old(u).leader(y)
                ==> #[trigger] final(u).leader(x) == #[trigger] final(u).leader(y),
        forall|x: int, y: int|
            #![trigger m.run(r as int)[x], m.run(r as int)[y]]
            0 <= x < m.run(r as int).len() && 0 <= y < m.run(r as int).len() ==> final(u).leader(
                m.run(r as int)[x].triangle as int,
            ) == final(u).leader(m.run(r as int)[y].triangle as int),
{
    let ghost related = |i: int, j: int| adjacent(faces@, i, j);
    let ghost run = m.run(r as int);
    let len: usize = m.starts.len();
    assert(r + 1 < len);
    let from: usize = m.starts[r];
    let to: usize = m.starts[r + 1];
    proof {
        lemma_run_sides(*m, faces@, r as int);
    }
    let mut k: usize = from + 1;
    while k < to
        invariant
            from < k <= to <= m.all@.len(),
            run == m.all@.subrange(from as int, to as int),
            related == |i: int, j: int| adjacent(faces@, i, j),
            u.sound(related),
            u.size() == old(u).size(),
            u.size() == faces@.len(),
            forall|x: int| 0 <= x < run.len() ==> #[trigger] is_side(faces@, run[x]),
            forall|x: int| 0 <= x < run.len() ==> (#[trigger] run[x]).edge == m.edge(r as int),
            forall|x: int, y: int|
                0 <= x < old(u).size() && 0 <= y < old(u).size() && old(u).leader(x) == old(u).leader(y)
                    ==> #[trigger] u.leader(x) == #[trigger] u.leader(y),
            forall|x: int|
                0 <= x < k - from ==> u.leader((#[trigger] run[x]).triangle as int) == u.leader(run[0].triangle as int),
        decreases to - k,
    {
        let a: EdgeUse = m.all[k - 1];
        let b: EdgeUse = m.all[k];
        let ghost was = *u;
        proof {
            assert(run[k - 1 - from] == a && run[k - from] == b);
            assert(is_side(faces@, run[k - 1 - from]) && is_side(faces@, run[k - from]));
            assert(adjacent(faces@, a.triangle as int, b.triangle as int));
            assert(related(a.triangle as int, b.triangle as int));
        }
        u.union(a.triangle, b.triangle, Ghost(related));
        proof {
            assert forall|x: int| 0 <= x < k + 1 - from implies u.leader((#[trigger] run[x]).triangle as int) == u.leader(
                run[0].triangle as int,
            ) by {
                assert(is_side(faces@, run[x]) && is_side(faces@, run[0]));
                if x < k - from {
                    assert(was.leader(run[x].triangle as int) == was.leader(run[0].triangle as int));
                } else {
                    assert(was.leader(run[k - 1 - from].triangle as int) == was.leader(run[0].triangle as int));
                }
            }
        }
        k = k + 1;
    }
}

/// A triangle with the leader of its component.
#[derive(Clone, Copy, Debug, PartialEq, Eq, Structural)]
struct Member {
    leader: u32,
    item: u32,
}

impl Ranked for Member {
    closed spec fn at_most(self, other: Self) -> bool {
        self.leader < other.leader || (self.leader == other.leader && self.item <= other.item)
    }

    proof fn total(self, other: Self) {
    }

    proof fn transitive(self, mid: Self, other: Self) {
    }

    proof fn antisymmetric(self, other: Self) {
    }

    fn is_at_most(self, other: Self) -> (r: bool) {
        self.leader < other.leader || (self.leader == other.leader && self.item <= other.item)
    }
}

/// The groups that some vectors hold.
pub open spec fn groups_in(v: Seq<Vec<u32>>) -> Seq<Seq<u32>> {
    Seq::new(v.len(), |g: int| v[g]@)
}

/// A group is all items of the leader that comes first in it.
spec fn is_class(roots: Seq<u32>, group: Seq<u32>) -> bool {
    &&& group.len() > 0
    &&& strictly_sorted(group)
    &&& forall|y: u32| #[trigger] group.contains(y) <==> y < roots.len() && roots[y as int] == group[0]
}

fn members_of(roots: &Vec<u32>) -> (r: Vec<Member>)
    requires
        roots@.len() <= u32::MAX,
    ensures
        forall|x: Member| #[trigger] r@.contains(x) <==> x.item < roots@.len() && x.leader == roots@[x.item as int],
{
    let mut r: Vec<Member> = Vec::new();
    let mut i: usize = 0;
    while i < roots.len()
        invariant
            i <= roots@.len() <= u32::MAX,
            r@.len() == i,
            forall|k: int| 0 <= k < i ==> (#[trigger] r@[k]) == (Member { leader: roots@[k], item: k as u32 }),
        decreases roots@.len() - i,
    {
        r.push(Member { leader: roots[i], item: i as u32 });
        i = i + 1;
    }
    proof {
        assert forall|x: Member| #[trigger] r@.contains(x) <==> x.item < roots@.len() && x.leader
            == roots@[x.item as int] by {
            if x.item < roots@.len() && x.leader == roots@[x.item as int] {
                assert(r@[x.item as int] == x);
            }
        }
    }
    r
}

/// A maximal stretch of one leader among the sorted members is its class.
proof fn lemma_class(roots: Seq<u32>, all: Seq<Member>, from: int, to: int, group: Seq<u32>)
    requires
        forall|i: int| 0 <= i < roots.len() ==> #[trigger] roots[i] <= i && roots[roots[i] as int] == roots[i],
        strictly_sorted(all),
        forall|x: Member| #[trigger] all.contains(x) <==> x.item < roots.len() && x.leader == roots[x.item as int],
        0 <= from < to <= all.len(),
        forall|k: int| from <= k < to ==> (#[trigger] all[k]).leader == all[from].leader,
        from > 0 ==> all[from - 1].leader != all[from].leader,
        to < all.len() ==> all[to].leader != all[from].leader,
        group == Seq::new((to - from) as nat, |k: int| all[from + k].item),
    ensures
        group[0] == all[from].leader,
        is_class(roots, group),
{
    let l = all[from].leader;
    assert forall|p: int, q: int| 0 <= p < q < group.len() implies (#[trigger] group[p]).at_most(#[trigger] group[q])
        && group[p] != group[q] by {
        assert(all[from + p].at_most(all[from + q]) && all[from + p] != all[from + q]);
        assert(all[from + p].leader == all[from + q].leader);
    }
    assert forall|y: u32| #[trigger] group.contains(y) <==> y < roots.len() && roots[y as int] == l by {
        if group.contains(y) {
            let k = choose|k: int| 0 <= k < group.len() && group[k] == y;
            assert(all.contains(all[from + k]));
            assert(all[from + k].leader == l);
        }
        if y < roots.len() && roots[y as int] == l {
            let x = Member { leader: l, item: y };
            assert(all.contains(x));
            let k = choose|k: int| 0 <= k < all.len() && all[k] == x;
            if k < from {
                assert(all[k].at_most(all[from - 1]) || k == from - 1);
                if k < from - 1 {
                    assert(all[k].at_most(all[from - 1]));
                }
                assert(all[from - 1].at_most(all[from]));
                assert(false);
            }
            if k >= to {
                assert(all[from].at_most(all[to]));
                if k > to {
                    assert(all[to].at_most(all[k]));
                }
                assert(false);
            }
            assert(group[k - from] == y);
        }
    }
    assert(all.contains(all[from]));
    let first = all[from].item as int;
    assert(roots[first] == l && l <= first);
    assert(roots[l as int] == l);
    assert(group.contains(l));
    let k = choose|k: int| 0 <= k < group.len() && group[k] == l;
    if k > 0 {
        assert(group[0].at_most(group[k]) && group[0] != group[k]);
    }
    assert(group[0] == l);
}

/// The components of a mesh.
pub(crate) fn components(faces: &[[u32; 3]], m: &EdgeMap) -> (r: Vec<Vec<u32>>)
    requires
        faces@.len() <= u32::MAX,
        m.wf(faces@),
    ensures
        are_components(faces@, groups_in(r@)),
{
    let roots: Vec<u32> = leaders(faces, m);
    let unsorted: Vec<Member> = members_of(&roots);
    let all: Vec<Member> = sort_distinct(&unsorted);
    proof {
        assert forall|x: Member| #[trigger] all@.contains(x) <==> x.item < roots@.len() && x.leader
            == roots@[x.item as int] by {
            assert(all@.contains(x) <==> unsorted@.contains(x));
        }
    }
    let mut r: Vec<Vec<u32>> = Vec::new();
    let mut i: usize = 0;
    while i < all.len()
        invariant
            i <= all@.len(),
            forall|k: int| 0 <= k < roots@.len() ==> #[trigger] roots@[k] <= k && roots@[roots@[k] as int] == roots@[k],
            strictly_sorted(all@),
            forall|x: Member| #[trigger]
                all@.contains(x) <==> x.item < roots@.len() && x.leader == roots@[x.item as int],
            0 < i < all@.len() ==> all@[i - 1].leader != all@[i as int].leader,
            forall|g: int| 0 <= g < r@.len() ==> #[trigger] is_class(roots@, r@[g]@),
            forall|g: int, h: int| 0 <= g < h < r@.len() ==> (#[trigger] r@[g])@[0] < (#[trigger] r@[h])@[0],
            r@.len() > 0 ==> i > 0 && r@.last()@[0] == all@[i - 1].leader,
            forall|k: int| 0 <= k < i ==> in_some(groups_in(r@), (#[trigger] all@[k]).item),
        decreases all@.len() - i,
    {
        let from: usize = i;
        let l: u32 = all[i].leader;
        let mut group: Vec<u32> = Vec::new();
        while i < all.len() && all[i].leader == l
            invariant
                from <= i <= all@.len(),
                from < all@.len(),
                l == all@[from as int].leader,
                forall|k: int| from <= k < i ==> (#[trigger] all@[k]).leader == l,
                group@ == Seq::new((i - from) as nat, |k: int| all@[from + k].item),
            decreases all@.len() - i,
        {
            group.push(all[i].item);
            i = i + 1;
            proof {
                assert(group@ =~= Seq::new((i - from) as nat, |k: int| all@[from + k].item));
            }
        }
        let ghost was = r@;
        proof {
            lemma_class(roots@, all@, from as int, i as int, group@);
            if was.len() > 0 {
                assert(all@[from - 1].at_most(all@[from as int]));
            }
        }
        let ghost g = group@;
        r.push(group);
        proof {
            let before = groups_in(was);
            let now = groups_in(r@);
            assert forall|a: int, b: int| 0 <= a < b < r@.len() implies (#[trigger] r@[a])@[0] < (#[trigger] r@[b])@[0] by {
                if b == was.len() && a < was.len() - 1 {
                    assert(was[a]@[0] < was[was.len() - 1]@[0]);
                }
            }
            assert forall|k: int| 0 <= k < i implies in_some(now, (#[trigger] all@[k]).item) by {
                if k < from {
                    let y = all@[k].item;
                    assert(in_some(before, y));
                    let a = choose|a: int| 0 <= a < before.len() && #[trigger] before[a].contains(y);
                    assert(now[a] == before[a]);
                    assert(now[a].contains(y));
                } else {
                    assert(g[k - from] == all@[k].item);
                    assert(now[was.len() as int] == g);
                    assert(now[was.len() as int].contains(all@[k].item));
                }
            }
        }
    }
    proof {
        lemma_components(faces@, roots@, all@, groups_in(r@));
    }
    r
}

proof fn lemma_components(faces: Seq<[u32; 3]>, roots: Seq<u32>, all: Seq<Member>, groups: Seq<Seq<u32>>)
    requires
        roots.len() == faces.len() <= u32::MAX,
        forall|i: int, j: int|
            0 <= i < roots.len() && 0 <= j < roots.len() ==> (#[trigger] roots[i] == #[trigger] roots[j] <==> connected(
                faces,
                i,
                j,
            )),
        forall|x: Member| #[trigger] all.contains(x) <==> x.item < roots.len() && x.leader == roots[x.item as int],
        forall|g: int| 0 <= g < groups.len() ==> #[trigger] is_class(roots, groups[g]),
        forall|g: int, h: int| 0 <= g < h < groups.len() ==> (#[trigger] groups[g])[0] < (#[trigger] groups[h])[0],
        forall|k: int| 0 <= k < all.len() ==> in_some(groups, (#[trigger] all[k]).item),
    ensures
        are_components(faces, groups),
{
    assert forall|g: int| 0 <= g < groups.len() implies (#[trigger] groups[g]).len() > 0 && strictly_sorted(
        groups[g],
    ) by {
        assert(is_class(roots, groups[g]));
    }
    assert forall|x: u32| #![trigger in_some(groups, x)] in_some(groups, x) <==> x < faces.len() by {
        if in_some(groups, x) {
            let g = choose|g: int| 0 <= g < groups.len() && #[trigger] groups[g].contains(x);
            assert(is_class(roots, groups[g]));
        }
        if x < faces.len() {
            let y = Member { leader: roots[x as int], item: x };
            assert(all.contains(y));
            let k = choose|k: int| 0 <= k < all.len() && all[k] == y;
            assert(in_some(groups, all[k].item));
        }
    }
    assert forall|g: int, x: u32, y: u32|
        #![trigger groups[g].contains(x), groups[g].contains(y)]
        0 <= g < groups.len() && groups[g].contains(x) && y < faces.len() implies (groups[g].contains(y) <==> connected(
        faces,
        x as int,
        y as int,
    )) by {
        assert(is_class(roots, groups[g]));
        assert(roots[x as int] == roots[y as int] <==> connected(faces, x as int, y as int));
    }
}

/// Topology of one connected component.
#[derive(Clone, Copy, Debug, PartialEq, Eq, Structural)]
pub struct ComponentInfo {
    /// Triangles in the component.
    pub triangles: u32,
    /// Different vertices of those triangles.
    pub vertices: u32,
    /// Different undirected edges of those triangles.
    pub edges: u32,
    /// Edges that only one side in the component uses.
    pub boundary_edges: u32,
    /// Vertices less edges plus triangles.
    pub euler_characteristic: i64,
    /// The genus of a closed component; `None` for an open one or an odd
    /// characteristic.
    pub genus: Option<i64>,
    /// Signed volume under the component alone.
    pub signed_volume: Double,
}

/// The edges of a triangle, without sides that join a vertex to itself.
pub open spec fn triangle_edges(t: [u32; 3]) -> Seq<EdgeKey> {
    let a = if t[0] != t[1] {
        seq![edge_of(t[0], t[1])]
    } else {
        Seq::empty()
    };
    let b = if t[1] != t[2] {
        seq![edge_of(t[1], t[2])]
    } else {
        Seq::empty()
    };
    let c = if t[2] != t[0] {
        seq![edge_of(t[2], t[0])]
    } else {
        Seq::empty()
    };
    a + b + c
}

/// The edges of the triangles of a group, one after the other.
pub open spec fn group_edges(faces: Seq<[u32; 3]>, group: Seq<u32>) -> Seq<EdgeKey>
    decreases group.len(),
{
    if group.len() == 0 {
        Seq::empty()
    } else {
        group_edges(faces, group.drop_last()) + triangle_edges(faces[group.last() as int])
    }
}

/// The corners of the triangles of a group, one after the other.
pub open spec fn group_corners(faces: Seq<[u32; 3]>, group: Seq<u32>) -> Seq<u32>
    decreases group.len(),
{
    if group.len() == 0 {
        Seq::empty()
    } else {
        let t = faces[group.last() as int];
        group_corners(faces, group.drop_last()) + seq![t[0], t[1], t[2]]
    }
}

/// Six times the signed volume under the triangles of a group, added up in order.
pub open spec fn group_volume(points: Seq<Vec3>, faces: Seq<[u32; 3]>, group: Seq<u32>) -> Double
    decreases group.len(),
{
    if group.len() == 0 {
        Double { bits: 0 }
    } else {
        let (a, b, c) = corners_of(points, faces[group.last() as int]);
        sum(group_volume(points, faces, group.drop_last()), dot_product(a, cross_product(b, c)))
    }
}

/// The topology of a group of triangles.
pub open spec fn component_info(points: Seq<Vec3>, faces: Seq<[u32; 3]>, group: Seq<u32>) -> ComponentInfo {
    let v = group_corners(faces, group).to_set().len() as int;
    let e = group_edges(faces, group).to_set().len() as int;
    let f = group.len() as int;
    let boundary = singles(group_edges(faces, group)).len();
    let euler = v - e + f;
    ComponentInfo {
        triangles: f as u32,
        vertices: v as u32,
        edges: e as u32,
        boundary_edges: boundary as u32,
        euler_characteristic: euler as i64,
        genus: if boundary == 0 && (2 - euler) % 2 == 0 {
            Some(((2 - euler) / 2) as i64)
        } else {
            None
        },
        signed_volume: quotient(group_volume(points, faces, group), six()),
    }
}

fn push_edges(out: &mut Vec<EdgeKey>, t: [u32; 3])
    ensures
        final(out)@ == old(out)@ + triangle_edges(t),
        final(out)@.len() <= old(out)@.len() + 3,
{
    if t[0] != t[1] {
        out.push(edge_key(t[0], t[1]));
    }
    if t[1] != t[2] {
        out.push(edge_key(t[1], t[2]));
    }
    if t[2] != t[0] {
        out.push(edge_key(t[2], t[0]));
    }
    proof {
        assert(out@ =~= old(out)@ + triangle_edges(t));
    }
}

/// The edges of the triangles of a group.
pub(crate) fn edges_of_group(faces: &[[u32; 3]], group: &Vec<u32>) -> (out: Vec<EdgeKey>)
    requires
        forall|k: int| 0 <= k < group@.len() ==> (#[trigger] group@[k]) < faces@.len(),
    ensures
        out@ == group_edges(faces@, group@),
        out@.len() <= 3 * group@.len(),
{
    let mut out: Vec<EdgeKey> = Vec::new();
    let mut i: usize = 0;
    while i < group.len()
        invariant
            i <= group@.len(),
            forall|k: int| 0 <= k < group@.len() ==> (#[trigger] group@[k]) < faces@.len(),
            out@ == group_edges(faces@, group@.take(i as int)),
            out@.len() <= 3 * i,
        decreases group@.len() - i,
    {
        push_edges(&mut out, faces[group[i] as usize]);
        i = i + 1;
        proof {
            assert(group@.take(i as int).drop_last() =~= group@.take(i - 1));
        }
    }
    proof {
        assert(group@.take(i as int) =~= group@);
    }
    out
}

fn corners_of_group(faces: &[[u32; 3]], group: &Vec<u32>) -> (out: Vec<u32>)
    requires
        forall|k: int| 0 <= k < group@.len() ==> (#[trigger] group@[k]) < faces@.len(),
    ensures
        out@ == group_corners(faces@, group@),
        out@.len() == 3 * group@.len(),
{
    let mut out: Vec<u32> = Vec::new();
    let mut i: usize = 0;
    while i < group.len()
        invariant
            i <= group@.len(),
            forall|k: int| 0 <= k < group@.len() ==> (#[trigger] group@[k]) < faces@.len(),
            out@ == group_corners(faces@, group@.take(i as int)),
            out@.len() == 3 * i,
        decreases group@.len() - i,
    {
        let t: [u32; 3] = faces[group[i] as usize];
        let ghost was = out@;
        out.push(t[0]);
        out.push(t[1]);
        out.push(t[2]);
        i = i + 1;
        proof {
            assert(group@.take(i as int).drop_last() =~= group@.take(i - 1));
            assert(out@ =~= was + seq![t[0], t[1], t[2]]);
        }
    }
    proof {
        assert(group@.take(i as int) =~= group@);
    }
    out
}

fn volume_of_group(mesh: &TriMesh, group: &Vec<u32>) -> (r: Double)
    requires
        forall|k: int| 0 <= k < group@.len() ==> (#[trigger] group@[k]) < mesh.faces().len(),
    ensures
        r == group_volume(mesh.points(), mesh.faces(), group@),
{
    let mut total: Double = Double::zeroed();
    let mut i: usize = 0;
    while i < group.len()
        invariant
            i <= group@.len(),
            forall|k: int| 0 <= k < group@.len() ==> (#[trigger] group@[k]) < mesh.faces().len(),
            total == group_volume(mesh.points(), mesh.faces(), group@.take(i as int)),
        decreases group@.len() - i,
    {
        let t: [Vec3; 3] = mesh.triangle(group[i]);
        total = total.plus(t[0].dot(t[1].cross(t[2])));
        i = i + 1;
        proof {
            assert(group@.take(i as int).drop_last() =~= group@.take(i - 1));
        }
    }
    proof {
        assert(group@.take(i as int) =~= group@);
    }
    total
}

/// The topology of a group of triangles.
pub(crate) fn measure(mesh: &TriMesh, group: &Vec<u32>) -> (r: ComponentInfo)
    requires
        group@.len() <= u32::MAX,
        forall|k: int| 0 <= k < group@.len() ==> (#[trigger] group@[k]) < mesh.faces().len(),
    ensures
        r == component_info(mesh.points(), mesh.faces(), group@),
{
    let faces: &[[u32; 3]] = mesh.triangles();
    let corners: Vec<u32> = corners_of_group(faces, group);
    let edges: Vec<EdgeKey> = edges_of_group(faces, group);
    let (v, all_corners) = tally(&corners);
    let (e, boundary) = tally(&edges);
    let f: usize = group.len();
    let euler: i64 = v as i64 - e as i64 + f as i64;
    let genus: Option<i64> = if boundary == 0 && (2 - euler) % 2 == 0 { Some((2 - euler) / 2) } else { None };
    proof {
        assert(boundary == 0 && (2 - euler) % 2 == 0 ==> genus == Some(((2 - euler) / 2) as i64));
    }
    let total: Double = volume_of_group(mesh, group);
    ComponentInfo {
        triangles: f as u32,
        vertices: v as u32,
        edges: e as u32,
        boundary_edges: boundary as u32,
        euler_characteristic: euler,
        genus,
        signed_volume: total.over(Double::from_bits(0x4018_0000_0000_0000)),
    }
}

} // verus!
