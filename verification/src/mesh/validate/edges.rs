//! The edges of a mesh and the triangles that use them.

use crate::sorting::{law_sorting_is_canonical, sort_distinct, strictly_sorted, Ranked};
use vstd::prelude::*;

verus! {

/// An undirected edge, by its vertices in ascending order.
#[derive(Clone, Copy, Debug, PartialEq, Eq, Structural)]
pub struct EdgeKey {
    /// The lower vertex.
    pub low: u32,
    /// The higher vertex.
    pub high: u32,
}

impl Ranked for EdgeKey {
    open spec fn at_most(self, other: Self) -> bool {
        self.low < other.low || (self.low == other.low && self.high <= other.high)
    }

    proof fn total(self, other: Self) {
    }

    proof fn transitive(self, mid: Self, other: Self) {
    }

    proof fn antisymmetric(self, other: Self) {
    }

    fn is_at_most(self, other: Self) -> (r: bool) {
        self.low < other.low || (self.low == other.low && self.high <= other.high)
    }
}

/// The edge between two vertices.
pub open spec fn edge_of(a: u32, b: u32) -> EdgeKey {
    if a <= b {
        EdgeKey { low: a, high: b }
    } else {
        EdgeKey { low: b, high: a }
    }
}

/// The edge between two vertices.
pub(crate) fn edge_key(a: u32, b: u32) -> (e: EdgeKey)
    ensures
        e == edge_of(a, b),
{
    if a <= b {
        EdgeKey { low: a, high: b }
    } else {
        EdgeKey { low: b, high: a }
    }
}

/// The use of an edge by one side of a triangle.
#[derive(Clone, Copy, Debug, PartialEq, Eq, Structural)]
pub struct EdgeUse {
    /// The edge.
    pub edge: EdgeKey,
    /// The triangle.
    pub triangle: u32,
    /// The corner at which the side starts.
    pub corner: u32,
    /// The side runs from the lower vertex to the higher.
    pub forward: bool,
}

impl Ranked for EdgeUse {
    open spec fn at_most(self, other: Self) -> bool {
        if self.edge != other.edge {
            self.edge.at_most(other.edge)
        } else if self.triangle != other.triangle {
            self.triangle < other.triangle
        } else if self.corner != other.corner {
            self.corner < other.corner
        } else {
            self.forward ==> other.forward
        }
    }

    proof fn total(self, other: Self) {
    }

    proof fn transitive(self, mid: Self, other: Self) {
    }

    proof fn antisymmetric(self, other: Self) {
    }

    fn is_at_most(self, other: Self) -> (r: bool) {
        if self.edge != other.edge {
            self.edge.is_at_most(other.edge)
        } else if self.triangle != other.triangle {
            self.triangle < other.triangle
        } else if self.corner != other.corner {
            self.corner < other.corner
        } else {
            !self.forward || other.forward
        }
    }
}

/// The corner behind a corner.
pub open spec fn next_corner(k: int) -> int {
    if k == 2 {
        0
    } else {
        k + 1
    }
}

/// The side of triangle `i` that starts at corner `k`.
pub open spec fn side(faces: Seq<[u32; 3]>, i: int, k: int) -> EdgeUse {
    let a = faces[i][k];
    let b = faces[i][next_corner(k)];
    EdgeUse { edge: edge_of(a, b), triangle: i as u32, corner: k as u32, forward: a < b }
}

/// The side joins two different vertices.
pub open spec fn proper(faces: Seq<[u32; 3]>, i: int, k: int) -> bool {
    faces[i][k] != faces[i][next_corner(k)]
}

/// A use is one of a proper side of the mesh.
pub open spec fn is_side(faces: Seq<[u32; 3]>, u: EdgeUse) -> bool {
    &&& u.triangle < faces.len()
    &&& u.corner < 3
    &&& proper(faces, u.triangle as int, u.corner as int)
    &&& u == side(faces, u.triangle as int, u.corner as int)
}

/// The uses of an edge by the first `m` sides, three to each triangle.
pub open spec fn uses_upto(faces: Seq<[u32; 3]>, e: EdgeKey, m: nat) -> Seq<EdgeUse>
    decreases m,
{
    if m == 0 {
        Seq::empty()
    } else {
        let i = (m - 1) / 3;
        let k = (m - 1) % 3;
        let before = uses_upto(faces, e, (m - 1) as nat);
        if proper(faces, i, k) && side(faces, i, k).edge == e {
            before.push(side(faces, i, k))
        } else {
            before
        }
    }
}

/// The uses of an edge, in ascending order of triangles.
pub open spec fn uses(faces: Seq<[u32; 3]>, e: EdgeKey) -> Seq<EdgeUse> {
    uses_upto(faces, e, 3 * faces.len())
}

/// The mesh has this edge.
pub open spec fn is_edge(faces: Seq<[u32; 3]>, e: EdgeKey) -> bool {
    uses(faces, e).len() > 0
}

proof fn lemma_uses_upto(faces: Seq<[u32; 3]>, e: EdgeKey, m: nat)
    requires
        m <= 3 * faces.len(),
        faces.len() <= u32::MAX,
    ensures
        strictly_sorted(uses_upto(faces, e, m)),
        forall|u: EdgeUse| #[trigger]
            uses_upto(faces, e, m).contains(u) <==> is_side(faces, u) && u.edge == e && 3 * u.triangle + u.corner < m,
    decreases m,
{
    let s = uses_upto(faces, e, m);
    if m > 0 {
        let n = (m - 1) as nat;
        lemma_uses_upto(faces, e, n);
        let before = uses_upto(faces, e, n);
        let i = (m - 1) / 3;
        let k = (m - 1) % 3;
        let x = side(faces, i, k);
        assert(0 <= i < faces.len() && 0 <= k < 3);
        assert(x.triangle == i && x.corner == k);
        if proper(faces, i, k) && x.edge == e {
            assert forall|p: int, q: int| 0 <= p < q < s.len() implies (#[trigger] s[p]).at_most(#[trigger] s[q])
                && s[p] != s[q] by {
                if q == before.len() {
                    assert(before.contains(s[p]));
                }
            }
            assert forall|u: EdgeUse| #[trigger]
                s.contains(u) <==> is_side(faces, u) && u.edge == e && 3 * u.triangle + u.corner < m by {
                assert(before.contains(u) <==> is_side(faces, u) && u.edge == e && 3 * u.triangle + u.corner < n);
                lemma_pushed(before, x, u);
                if is_side(faces, u) && 3 * u.triangle + u.corner == n {
                    assert(u.triangle == i && u.corner == k);
                }
            }
        } else {
            assert forall|u: EdgeUse| #[trigger]
                s.contains(u) <==> is_side(faces, u) && u.edge == e && 3 * u.triangle + u.corner < m by {
                assert(before.contains(u) <==> is_side(faces, u) && u.edge == e && 3 * u.triangle + u.corner < n);
                if is_side(faces, u) && 3 * u.triangle + u.corner == n {
                    assert(u.triangle == i && u.corner == k);
                }
            }
        }
    }
}

/// What a sequence holds once a value was added.
pub proof fn lemma_pushed<T>(s: Seq<T>, x: T, y: T)
    ensures
        s.push(x).contains(y) <==> s.contains(y) || y == x,
{
    let t = s.push(x);
    if s.contains(y) {
        let i = choose|i: int| 0 <= i < s.len() && s[i] == y;
        assert(t[i] == y);
    }
    if y == x {
        assert(t[s.len() as int] == y);
    }
    if t.contains(y) && y != x {
        let i = choose|i: int| 0 <= i < t.len() && t[i] == y;
        assert(s[i] == y);
    }
}

/// What the uses of an edge are.
pub proof fn lemma_uses(faces: Seq<[u32; 3]>, e: EdgeKey)
    requires
        faces.len() <= u32::MAX,
    ensures
        strictly_sorted(uses(faces, e)),
        forall|u: EdgeUse| #[trigger] uses(faces, e).contains(u) <==> is_side(faces, u) && u.edge == e,
{
    lemma_uses_upto(faces, e, 3 * faces.len());
    assert forall|u: EdgeUse| #[trigger] uses(faces, e).contains(u) <==> is_side(faces, u) && u.edge == e by {
        if is_side(faces, u) {
            assert(3 * u.triangle + u.corner < 3 * faces.len());
        }
    }
}

/// All uses of edges, sorted by edge, and where the uses of each edge start.
pub(crate) struct EdgeMap {
    pub(crate) all: Vec<EdgeUse>,
    pub(crate) starts: Vec<usize>,
}

impl EdgeMap {
    /// How many edges there are.
    pub(crate) open spec fn count(self) -> int {
        self.starts@.len() - 1
    }

    /// The uses of the edge with number `r`.
    pub(crate) open spec fn run(self, r: int) -> Seq<EdgeUse> {
        self.all@.subrange(self.starts@[r] as int, self.starts@[r + 1] as int)
    }

    /// The edge with number `r`.
    pub(crate) open spec fn edge(self, r: int) -> EdgeKey {
        self.all@[self.starts@[r] as int].edge
    }

    /// The bounds of runs ascend over all uses.
    pub(crate) open spec fn partitioned(self) -> bool {
        &&& self.starts@.len() >= 1
        &&& self.starts@[0] == 0
        &&& self.starts@.last() == self.all@.len()
        &&& forall|r: int, q: int| 0 <= r < q < self.starts@.len() ==> #[trigger] self.starts@[r] < #[trigger] self.starts@[q]
    }

    /// The runs are those of a mesh.
    pub(crate) open spec fn wf(self, faces: Seq<[u32; 3]>) -> bool {
        &&& self.partitioned()
        &&& forall|r: int| 0 <= r < self.count() ==> #[trigger] self.run(r) == uses(faces, self.edge(r))
        &&& forall|r: int, q: int| 0 <= r < q < self.count() ==> #[trigger] self.edge(r) != #[trigger] self.edge(q)
        &&& forall|e: EdgeKey| #[trigger] is_edge(faces, e) ==> exists|r: int| 0 <= r < self.count() && #[trigger] self.edge(r) == e
        &&& forall|u: EdgeUse| #[trigger] self.all@.contains(u) <==> is_side(faces, u)
    }
}

proof fn lemma_in_run(m: EdgeMap, x: int, r: int)
    requires
        m.partitioned(),
        0 <= r < m.starts@.len(),
        0 <= x < m.starts@[r],
    ensures
        exists|q: int| 0 <= q < r && #[trigger] m.starts@[q] <= x < m.starts@[q + 1],
    decreases r,
{
    if r > 0 {
        if m.starts@[r - 1] <= x {
            assert(m.starts@[r - 1] <= x < m.starts@[r - 1 + 1]);
        } else {
            lemma_in_run(m, x, r - 1);
        }
    }
}

/// A maximal stretch of one edge among the sorted uses is all uses of the edge.
proof fn lemma_stretch(all: Seq<EdgeUse>, faces: Seq<[u32; 3]>, from: int, to: int)
    requires
        faces.len() <= u32::MAX,
        strictly_sorted(all),
        forall|u: EdgeUse| #[trigger] all.contains(u) <==> is_side(faces, u),
        0 <= from < to <= all.len(),
        forall|k: int| from <= k < to ==> (#[trigger] all[k]).edge == all[from].edge,
        from > 0 ==> all[from - 1].edge != all[from].edge,
        to < all.len() ==> all[to].edge != all[from].edge,
    ensures
        all.subrange(from, to) == uses(faces, all[from].edge),
{
    let e = all[from].edge;
    let run = all.subrange(from, to);
    let u = uses(faces, e);
    lemma_uses(faces, e);
    assert(strictly_sorted(run)) by {
        assert forall|p: int, q: int| 0 <= p < q < run.len() implies (#[trigger] run[p]).at_most(#[trigger] run[q])
            && run[p] != run[q] by {
            assert(all[from + p].at_most(all[from + q]) && all[from + p] != all[from + q]);
        }
    }
    assert forall|x: EdgeUse| #[trigger] run.contains(x) <==> u.contains(x) by {
        if run.contains(x) {
            let p = choose|p: int| 0 <= p < run.len() && run[p] == x;
            assert(all[from + p] == x);
            assert(all.contains(x));
        }
        if u.contains(x) {
            assert(all.contains(x));
            let p = choose|p: int| 0 <= p < all.len() && all[p] == x;
            if p < from {
                assert(all[p].at_most(all[from - 1]) || p == from - 1);
                assert(all[from - 1].at_most(all[from]));
                if p < from - 1 {
                    assert(all[p].at_most(all[from - 1]));
                }
                assert(false);
            }
            if p >= to {
                assert(all[from].at_most(all[to]));
                if p > to {
                    assert(all[to].at_most(all[p]));
                }
                assert(false);
            }
            assert(run[p - from] == x);
        }
    }
    law_sorting_is_canonical(run, u);
}

fn all_sides(faces: &[[u32; 3]]) -> (r: Vec<EdgeUse>)
    requires
        faces@.len() <= u32::MAX,
    ensures
        forall|u: EdgeUse| #[trigger] r@.contains(u) <==> is_side(faces@, u),
{
    let mut r: Vec<EdgeUse> = Vec::new();
    let mut i: usize = 0;
    while i < faces.len()
        invariant
            i <= faces@.len() <= u32::MAX,
            forall|u: EdgeUse| #[trigger] r@.contains(u) <==> is_side(faces@, u) && u.triangle < i,
        decreases faces@.len() - i,
    {
        let t: [u32; 3] = faces[i];
        let mut k: usize = 0;
        while k < 3
            invariant
                k <= 3,
                i < faces@.len() <= u32::MAX,
                t == faces@[i as int],
                forall|u: EdgeUse| #[trigger]
                    r@.contains(u) <==> is_side(faces@, u) && (u.triangle < i || (u.triangle == i && u.corner < k)),
            decreases 3 - k,
        {
            let next: usize = if k == 2 { 0 } else { k + 1 };
            let (a, b) = (t[k], t[next]);
            let ghost was = r@;
            if a != b {
                let x: EdgeUse = EdgeUse { edge: edge_key(a, b), triangle: i as u32, corner: k as u32, forward: a < b };
                r.push(x);
                proof {
                    assert(x == side(faces@, i as int, k as int));
                    assert forall|u: EdgeUse| #[trigger]
                        r@.contains(u) <==> is_side(faces@, u) && (u.triangle < i || (u.triangle == i && u.corner
                            < k + 1)) by {
                        lemma_pushed(was, x, u);
                        assert(was.contains(u) <==> is_side(faces@, u) && (u.triangle < i || (u.triangle == i
                            && u.corner < k)));
                    }
                }
            }
            k = k + 1;
        }
        i = i + 1;
    }
    r
}

/// The edges of a mesh with their uses.
pub(crate) fn edge_map(faces: &[[u32; 3]]) -> (m: EdgeMap)
    requires
        faces@.len() <= u32::MAX,
    ensures
        m.wf(faces@),
{
    let sides: Vec<EdgeUse> = all_sides(faces);
    let all: Vec<EdgeUse> = sort_distinct(&sides);
    proof {
        assert forall|u: EdgeUse| #[trigger] all@.contains(u) <==> is_side(faces@, u) by {
            assert(all@.contains(u) <==> sides@.contains(u));
        }
    }
    let mut starts: Vec<usize> = vec![0];
    let mut i: usize = 0;
    while i < all.len()
        invariant
            i <= all@.len(),
            faces@.len() <= u32::MAX,
            strictly_sorted(all@),
            forall|u: EdgeUse| #[trigger] all@.contains(u) <==> is_side(faces@, u),
            starts@.len() >= 1,
            starts@[0] == 0,
            starts@.last() == i,
            forall|r: int, q: int| 0 <= r < q < starts@.len() ==> #[trigger] starts@[r] < #[trigger] starts@[q],
            0 < i < all@.len() ==> all@[i - 1].edge != all@[i as int].edge,
            forall|r: int|
                0 <= r < starts@.len() - 1 ==> all@.subrange(#[trigger] starts@[r] as int, starts@[r + 1] as int) == uses(
                    faces@,
                    all@[starts@[r] as int].edge,
                ),
            forall|r: int|
                0 <= r < starts@.len() - 1 ==> starts@[r + 1] <= all@.len() && (starts@[r + 1] < all@.len() ==> all@[(
                #[trigger] starts@[r]) as int].edge != all@[starts@[r + 1] as int].edge),
        decreases all@.len() - i,
    {
        let from: usize = i;
        let e: EdgeKey = all[i].edge;
        i = i + 1;
        while i < all.len() && all[i].edge == e
            invariant
                from < i <= all@.len(),
                e == all@[from as int].edge,
                forall|k: int| from <= k < i ==> (#[trigger] all@[k]).edge == e,
            decreases all@.len() - i,
        {
            i = i + 1;
        }
        proof {
            lemma_stretch(all@, faces@, from as int, i as int);
        }
        starts.push(i);
        proof {
            let n = starts@.len() - 1;
            assert forall|r: int| 0 <= r < starts@.len() - 1 implies all@.subrange(
                #[trigger] starts@[r] as int,
                starts@[r + 1] as int,
            ) == uses(faces@, all@[starts@[r] as int].edge) by {
                if r == n - 1 {
                    assert(starts@[r] == from && starts@[r + 1] == i);
                }
            }
            assert forall|r: int| 0 <= r < starts@.len() - 1 implies starts@[r + 1] <= all@.len() && (starts@[r + 1]
                < all@.len() ==> all@[(#[trigger] starts@[r]) as int].edge != all@[starts@[r + 1] as int].edge) by {
                if r == n - 1 {
                    assert(starts@[r] == from && starts@[r + 1] == i);
                }
            }
        }
    }
    let m: EdgeMap = EdgeMap { all, starts };
    proof {
        lemma_edge_map(m, faces@);
    }
    m
}

/// The edges of two runs differ.
proof fn lemma_runs_differ(m: EdgeMap, r: int, q: int)
    requires
        strictly_sorted(m.all@),
        m.partitioned(),
        0 <= r < q < m.count(),
        m.starts@[r + 1] <= m.all@.len(),
        m.starts@[r + 1] < m.all@.len() ==> m.all@[m.starts@[r] as int].edge != m.all@[m.starts@[r + 1] as int].edge,
    ensures
        m.edge(r) != m.edge(q),
{
    let all = m.all@;
    let s = m.starts@[r] as int;
    let n = m.starts@[r + 1] as int;
    let t = m.starts@[q] as int;
    assert(m.starts@[q] < m.starts@[m.starts@.len() - 1]);
    assert(m.starts@[r] < m.starts@[r + 1]);
    if r + 1 < q {
        assert(m.starts@[r + 1] < m.starts@[q]);
    }
    assert(all[s].at_most(all[n]));
    if n < t {
        assert(all[n].at_most(all[t]));
    }
}

/// Every edge has a run.
proof fn lemma_has_run(m: EdgeMap, faces: Seq<[u32; 3]>, e: EdgeKey)
    requires
        faces.len() <= u32::MAX,
        m.partitioned(),
        forall|u: EdgeUse| #[trigger] m.all@.contains(u) <==> is_side(faces, u),
        forall|r: int| 0 <= r < m.count() ==> #[trigger] m.run(r) == uses(faces, m.edge(r)),
        is_edge(faces, e),
    ensures
        exists|r: int| 0 <= r < m.count() && #[trigger] m.edge(r) == e,
{
    let all = m.all@;
    lemma_uses(faces, e);
    let u = uses(faces, e)[0];
    assert(uses(faces, e).contains(u));
    assert(all.contains(u));
    let x = choose|x: int| 0 <= x < all.len() && all[x] == u;
    lemma_in_run(m, x, m.starts@.len() - 1);
    let q = choose|q: int| 0 <= q < m.starts@.len() - 1 && #[trigger] m.starts@[q] <= x < m.starts@[q + 1];
    let run = m.run(q);
    assert(run == uses(faces, m.edge(q)));
    if q + 1 < m.starts@.len() - 1 {
        assert(m.starts@[q + 1] < m.starts@[m.starts@.len() - 1]);
    }
    assert(run[x - m.starts@[q]] == u);
    lemma_uses(faces, m.edge(q));
    assert(uses(faces, m.edge(q)).contains(u));
    assert(m.edge(q) == e);
}

proof fn lemma_edge_map(m: EdgeMap, faces: Seq<[u32; 3]>)
    requires
        faces.len() <= u32::MAX,
        strictly_sorted(m.all@),
        forall|u: EdgeUse| #[trigger] m.all@.contains(u) <==> is_side(faces, u),
        m.partitioned(),
        forall|r: int|
            0 <= r < m.count() ==> m.all@.subrange(#[trigger] m.starts@[r] as int, m.starts@[r + 1] as int) == uses(
                faces,
                m.all@[m.starts@[r] as int].edge,
            ),
        forall|r: int|
            0 <= r < m.count() ==> m.starts@[r + 1] <= m.all@.len() && (m.starts@[r + 1] < m.all@.len() ==> m.all@[(
            #[trigger] m.starts@[r]) as int].edge != m.all@[m.starts@[r + 1] as int].edge),
    ensures
        m.wf(faces),
{
    assert forall|r: int| 0 <= r < m.count() implies #[trigger] m.run(r) == uses(faces, m.edge(r)) by {
        let s = m.starts@[r];
    }
    assert forall|r: int, q: int| 0 <= r < q < m.count() implies #[trigger] m.edge(r) != #[trigger] m.edge(q) by {
        let s = m.starts@[r];
        lemma_runs_differ(m, r, q);
    }
    assert forall|e: EdgeKey| #[trigger] is_edge(faces, e) implies exists|r: int|
        0 <= r < m.count() && #[trigger] m.edge(r) == e by {
        lemma_has_run(m, faces, e);
    }
}

} // verus!
