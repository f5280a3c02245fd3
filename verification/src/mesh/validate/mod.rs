//! Topological validation of a welded triangle mesh.
//!
//! Decides whether a mesh is a closed, consistently oriented, outward-facing
//! surface, and where it is not, which elements are at fault. Nothing is
//! repaired. Degeneracy is decided by exact predicates, never by a threshold.

pub mod components;
pub mod edges;
pub mod findings;

use crate::arithmetic::quotient;
use crate::double::Double;
use crate::math::{Vec2, Vec3};
use crate::mesh::bvh::Bvh;
use crate::mesh::intersect::{clashing, self_intersections, Pair};
use crate::mesh::{area_sum, corners_of, six, two, volume_sum, TriMesh};
use crate::predicates::{orient2d, orient2d_det, Orientation};
use crate::sorting::{
    law_sorted_is_unique, law_sorting_is_canonical, lemma_same_values, sort, sort_distinct, sorted, strictly_sorted, Ranked,
};
use crate::text::{decimal_text, push_number};
use components::{are_components, component_info, components, groups_in, in_some, measure, ComponentInfo};
use edges::{edge_map, is_edge, uses, EdgeKey, EdgeMap, EdgeUse};
use findings::{
    arrange, arranged, in_order, law_arranging_sorts, lemma_moved, lemma_sum_contains, same_place, sort_findings, stated,
    Finding, FindingKind, FindingView,
};
use vstd::prelude::*;

verus! {

/// Version of the report format.
pub const REPORT_VERSION: u32 = 1;

/// Three points lie on one line: so do their projections on all three coordinate
/// planes.
pub open spec fn collinear(a: Vec3, b: Vec3, c: Vec3) -> bool {
    &&& orient2d_det(Vec2 { x: a.x, y: a.y }, Vec2 { x: b.x, y: b.y }, Vec2 { x: c.x, y: c.y }) == 0
    &&& orient2d_det(Vec2 { x: a.y, y: a.z }, Vec2 { x: b.y, y: b.z }, Vec2 { x: c.y, y: c.z }) == 0
    &&& orient2d_det(Vec2 { x: a.z, y: a.x }, Vec2 { x: b.z, y: b.x }, Vec2 { x: c.z, y: c.x }) == 0
}

/// Exact collinearity of three points in space.
pub fn collinear_exact(a: Vec3, b: Vec3, c: Vec3) -> (r: bool)
    requires
        a.finite(),
        b.finite(),
        c.finite(),
    ensures
        r == collinear(a, b, c),
{
    let xy: Orientation = orient2d(Vec2::new(a.x, a.y), Vec2::new(b.x, b.y), Vec2::new(c.x, c.y));
    let yz: Orientation = orient2d(Vec2::new(a.y, a.z), Vec2::new(b.y, b.z), Vec2::new(c.y, c.z));
    let zx: Orientation = orient2d(Vec2::new(a.z, a.x), Vec2::new(b.z, b.x), Vec2::new(c.z, c.x));
    xy == Orientation::Zero && yz == Orientation::Zero && zx == Orientation::Zero
}

/// Three vertex indices in ascending order.
#[derive(Clone, Copy, Debug, PartialEq, Eq, Structural)]
pub struct Triple {
    /// The lowest.
    pub a: u32,
    /// The middle one.
    pub b: u32,
    /// The highest.
    pub c: u32,
}

/// The corners of a triangle in ascending order.
pub open spec fn sorted_corners(t: [u32; 3]) -> Triple {
    let lo = if t[0] <= t[1] {
        t[0]
    } else {
        t[1]
    };
    let hi = if t[0] <= t[1] {
        t[1]
    } else {
        t[0]
    };
    if t[2] <= lo {
        Triple { a: t[2], b: lo, c: hi }
    } else if t[2] <= hi {
        Triple { a: lo, b: t[2], c: hi }
    } else {
        Triple { a: lo, b: hi, c: t[2] }
    }
}

fn sort_corners(t: [u32; 3]) -> (r: Triple)
    ensures
        r == sorted_corners(t),
{
    let lo: u32 = if t[0] <= t[1] { t[0] } else { t[1] };
    let hi: u32 = if t[0] <= t[1] { t[1] } else { t[0] };
    if t[2] <= lo {
        Triple { a: t[2], b: lo, c: hi }
    } else if t[2] <= hi {
        Triple { a: lo, b: t[2], c: hi }
    } else {
        Triple { a: lo, b: hi, c: t[2] }
    }
}

/// Three numbers as a list.
pub open spec fn triple_text(a: u32, b: u32, c: u32) -> Seq<char> {
    "["@ + decimal_text(a as nat) + ", "@ + decimal_text(b as nat) + ", "@ + decimal_text(c as nat) + "]"@
}

fn push_triple(s: &mut String, a: u32, b: u32, c: u32)
    ensures
        final(s)@ == old(s)@ + triple_text(a, b, c),
{
    s.append("[");
    push_number(s, a as u64);
    s.append(", ");
    push_number(s, b as u64);
    s.append(", ");
    push_number(s, c as u64);
    s.append("]");
    proof {
        assert(s@ =~= old(s)@ + triple_text(a, b, c));
    }
}

/// An edge as a pair.
pub open spec fn edge_text(e: EdgeKey) -> Seq<char> {
    "("@ + decimal_text(e.low as nat) + ", "@ + decimal_text(e.high as nat) + ")"@
}

fn push_edge(s: &mut String, e: EdgeKey)
    ensures
        final(s)@ == old(s)@ + edge_text(e),
{
    s.append("(");
    push_number(s, e.low as u64);
    s.append(", ");
    push_number(s, e.high as u64);
    s.append(")");
    proof {
        assert(s@ =~= old(s)@ + edge_text(e));
    }
}

/// The triangles of some uses.
pub open spec fn users(u: Seq<EdgeUse>) -> Seq<u32> {
    Seq::new(u.len(), |i: int| u[i].triangle)
}

/// What is wrong with an edge, if anything is: one side uses it, or two in the
/// same direction, or more than two.
#[verifier::opaque]
pub open spec fn edge_finding(faces: Seq<[u32; 3]>, e: EdgeKey) -> Option<FindingView> {
    let u = uses(faces, e);
    let vertices = seq![e.low, e.high];
    if u.len() == 0 {
        None
    } else if u.len() == 1 {
        Some(
            FindingView {
                kind: FindingKind::BoundaryEdge,
                triangles: users(u),
                vertices,
                detail: "edge "@ + edge_text(e) + " has one incident triangle: the surface has a hole here"@,
            },
        )
    } else if u.len() == 2 {
        if u[0].forward == u[1].forward {
            Some(
                FindingView {
                    kind: FindingKind::InconsistentOrientation,
                    triangles: users(u),
                    vertices,
                    detail: "triangles "@ + decimal_text(u[0].triangle as nat) + " and "@ + decimal_text(
                        u[1].triangle as nat,
                    ) + " both traverse edge "@ + edge_text(e)
                        + " in the same direction, so one of them is wound backwards"@,
                },
            )
        } else {
            None
        }
    } else {
        Some(
            FindingView {
                kind: FindingKind::NonManifoldEdge,
                triangles: users(u),
                vertices,
                detail: "edge "@ + edge_text(e) + " has "@ + decimal_text(u.len())
                    + " incident triangles; the surface is not a manifold here and 'inside' is undefined"@,
            },
        )
    }
}

/// What is wrong with a triangle by itself, if anything is.
#[verifier::opaque]
pub open spec fn triangle_finding(points: Seq<Vec3>, faces: Seq<[u32; 3]>, i: int) -> Option<FindingView> {
    let t = faces[i];
    let k = sorted_corners(t);
    let (a, b, c) = corners_of(points, t);
    if t[0] == t[1] || t[1] == t[2] || t[2] == t[0] {
        Some(
            FindingView {
                kind: FindingKind::DegenerateTriangle,
                triangles: seq![i as u32],
                vertices: seq![k.a, k.b, k.c],
                detail: "triangle "@ + decimal_text(i as nat) + " repeats a vertex index: "@ + triple_text(
                    t[0],
                    t[1],
                    t[2],
                ),
            },
        )
    } else if collinear(a, b, c) {
        Some(
            FindingView {
                kind: FindingKind::DegenerateTriangle,
                triangles: seq![i as u32],
                vertices: seq![k.a, k.b, k.c],
                detail: "triangle "@ + decimal_text(i as nat) + " has three exactly collinear vertices"@,
            },
        )
    } else {
        None
    }
}

/// Those of the first `n` triangles with these vertices, in any winding.
pub open spec fn sharers(faces: Seq<[u32; 3]>, k: Triple, n: nat) -> Seq<u32>
    decreases n,
{
    if n == 0 {
        Seq::empty()
    } else if sorted_corners(faces[n - 1]) == k {
        sharers(faces, k, (n - 1) as nat).push((n - 1) as u32)
    } else {
        sharers(faces, k, (n - 1) as nat)
    }
}

/// What is wrong with a set of vertices, if more than one triangle has it.
#[verifier::opaque]
pub open spec fn duplicate_finding(faces: Seq<[u32; 3]>, k: Triple) -> Option<FindingView> {
    let s = sharers(faces, k, faces.len());
    if s.len() > 1 {
        Some(
            FindingView {
                kind: FindingKind::DuplicateTriangle,
                triangles: s,
                vertices: seq![k.a, k.b, k.c],
                detail: decimal_text(s.len()) + " triangles share the vertex set "@ + triple_text(k.a, k.b, k.c)
                    + " (in some winding)"@,
            },
        )
    } else {
        None
    }
}

/// Every edge has exactly two uses.
pub open spec fn manifold(faces: Seq<[u32; 3]>) -> bool {
    forall|e: EdgeKey| #[trigger] is_edge(faces, e) ==> uses(faces, e).len() == 2
}

/// No edge has exactly one use.
pub open spec fn watertight(faces: Seq<[u32; 3]>) -> bool {
    forall|e: EdgeKey| #[trigger] is_edge(faces, e) ==> uses(faces, e).len() != 1
}

/// Where an edge has two uses they run in opposite directions.
pub open spec fn consistent(faces: Seq<[u32; 3]>) -> bool {
    forall|e: EdgeKey| #[trigger]
        is_edge(faces, e) && uses(faces, e).len() == 2 ==> uses(faces, e)[0].forward != uses(faces, e)[1].forward
}

/// The signed volume of a mesh.
pub open spec fn enclosed(points: Seq<Vec3>, faces: Seq<[u32; 3]>) -> Double {
    quotient(volume_sum(points, faces, faces.len()), six())
}

/// What is wrong with the surface as a whole, if it is closed but inside out.
#[verifier::opaque]
pub open spec fn inverted_finding(points: Seq<Vec3>, faces: Seq<[u32; 3]>) -> Option<FindingView> {
    if watertight(faces) && manifold(faces) && consistent(faces) && enclosed(points, faces).lt(Double { bits: 0 }) {
        Some(
            FindingView {
                kind: FindingKind::InvertedOrientation,
                triangles: Seq::empty(),
                vertices: Seq::empty(),
                detail: "the surface is closed and consistently wound, but encloses a negative volume; the whole mesh is inside out"@,
            },
        )
    } else {
        None
    }
}

/// Some triangle has this corner.
pub open spec fn used(faces: Seq<[u32; 3]>, v: int) -> bool {
    exists|i: int| 0 <= i < faces.len() && ((#[trigger] faces[i])[0] == v || faces[i][1] == v || faces[i][2] == v)
}

/// Those of the first `n` vertices that no triangle uses.
pub open spec fn unused(faces: Seq<[u32; 3]>, n: nat) -> Seq<u32>
    decreases n,
{
    if n == 0 {
        Seq::empty()
    } else if used(faces, n - 1) {
        unused(faces, (n - 1) as nat)
    } else {
        unused(faces, (n - 1) as nat).push((n - 1) as u32)
    }
}

/// What is wrong with the vertices, if some are not used.
#[verifier::opaque]
pub open spec fn unused_finding(points: Seq<Vec3>, faces: Seq<[u32; 3]>) -> Option<FindingView> {
    let v = unused(faces, points.len());
    if v.len() > 0 {
        Some(
            FindingView {
                kind: FindingKind::UnusedVertex,
                triangles: Seq::empty(),
                vertices: v,
                detail: decimal_text(v.len()) + " vertices are referenced by no triangle"@,
            },
        )
    } else {
        None
    }
}

/// What the loader noted about faces that are not convex.
#[verifier::opaque]
pub open spec fn fan_finding(non_convex: u32) -> Option<FindingView> {
    if non_convex > 0 {
        Some(
            FindingView {
                kind: FindingKind::NonConvexPolygonFan,
                triangles: Seq::empty(),
                vertices: Seq::empty(),
                detail: decimal_text(non_convex as nat)
                    + " non-convex face(s) were fan-triangulated from their first vertex; that is only correct if each is star-shaped from that vertex, and the resulting triangles may lie outside the face"@,
            },
        )
    } else {
        None
    }
}

/// A finding of the topology of a mesh.
pub open spec fn is_finding(points: Seq<Vec3>, faces: Seq<[u32; 3]>, non_convex: u32, x: FindingView) -> bool {
    ||| exists|e: EdgeKey| #[trigger] edge_finding(faces, e) == Some(x)
    ||| exists|i: int| 0 <= i < faces.len() && #[trigger] triangle_finding(points, faces, i) == Some(x)
    ||| exists|k: Triple| #[trigger] duplicate_finding(faces, k) == Some(x)
    ||| inverted_finding(points, faces) == Some(x)
    ||| unused_finding(points, faces) == Some(x)
    ||| fan_finding(non_convex) == Some(x)
}

/// What the finding of an edge is about.
proof fn lemma_edge_finding(faces: Seq<[u32; 3]>, e: EdgeKey)
    ensures
        ({
            let u = uses(faces, e);
            match edge_finding(faces, e) {
                Some(x) => {
                    &&& is_edge(faces, e)
                    &&& x.vertices == seq![e.low, e.high]
                    &&& x.kind.rank() <= 2
                    &&& x.kind == FindingKind::BoundaryEdge <==> u.len() == 1
                    &&& x.kind == FindingKind::InconsistentOrientation <==> u.len() == 2
                    &&& u.len() == 2 ==> u[0].forward == u[1].forward
                },
                None => u.len() == 0 || (u.len() == 2 && u[0].forward != u[1].forward),
            }
        }),
{
    reveal(edge_finding);
}

proof fn lemma_triangle_finding(points: Seq<Vec3>, faces: Seq<[u32; 3]>, i: int)
    ensures
        triangle_finding(points, faces, i) matches Some(x) ==> x.kind == FindingKind::DegenerateTriangle && x.triangles
            == seq![i as u32],
{
    reveal(triangle_finding);
}

proof fn lemma_duplicate_finding(faces: Seq<[u32; 3]>, k: Triple)
    ensures
        duplicate_finding(faces, k) matches Some(x) ==> x.kind == FindingKind::DuplicateTriangle && x.vertices == seq![
            k.a,
            k.b,
            k.c,
        ],
{
    reveal(duplicate_finding);
}

proof fn lemma_other_findings(points: Seq<Vec3>, faces: Seq<[u32; 3]>, non_convex: u32)
    ensures
        inverted_finding(points, faces) matches Some(x) ==> x.kind == FindingKind::InvertedOrientation,
        unused_finding(points, faces) matches Some(x) ==> x.kind == FindingKind::UnusedVertex,
        fan_finding(non_convex) matches Some(x) ==> x.kind == FindingKind::NonConvexPolygonFan,
{
    reveal(inverted_finding);
    reveal(unused_finding);
    reveal(fan_finding);
}

/// Where a finding of each kind comes from.
proof fn lemma_origin(points: Seq<Vec3>, faces: Seq<[u32; 3]>, non_convex: u32, x: FindingView)
    requires
        is_finding(points, faces, non_convex, x),
    ensures
        match x.kind {
            FindingKind::DegenerateTriangle => exists|i: int|
                0 <= i < faces.len() && #[trigger] triangle_finding(points, faces, i) == Some(x),
            FindingKind::DuplicateTriangle => exists|k: Triple| #[trigger] duplicate_finding(faces, k) == Some(x),
            FindingKind::SelfIntersection => false,
            FindingKind::InvertedOrientation => inverted_finding(points, faces) == Some(x),
            FindingKind::UnusedVertex => unused_finding(points, faces) == Some(x),
            FindingKind::NonConvexPolygonFan => fan_finding(non_convex) == Some(x),
            _ => exists|e: EdgeKey| #[trigger] edge_finding(faces, e) == Some(x),
        },
{
    lemma_other_findings(points, faces, non_convex);
    if exists|e: EdgeKey| #[trigger] edge_finding(faces, e) == Some(x) {
        let e = choose|e: EdgeKey| #[trigger] edge_finding(faces, e) == Some(x);
        lemma_edge_finding(faces, e);
    } else if exists|i: int| 0 <= i < faces.len() && #[trigger] triangle_finding(points, faces, i) == Some(x) {
        let i = choose|i: int| 0 <= i < faces.len() && #[trigger] triangle_finding(points, faces, i) == Some(x);
        lemma_triangle_finding(points, faces, i);
    } else if exists|k: Triple| #[trigger] duplicate_finding(faces, k) == Some(x) {
        let k = choose|k: Triple| #[trigger] duplicate_finding(faces, k) == Some(x);
        lemma_duplicate_finding(faces, k);
    }
}

/// Findings about one place say the same.
proof fn lemma_findings_coherent(
    points: Seq<Vec3>,
    faces: Seq<[u32; 3]>,
    non_convex: u32,
    x: FindingView,
    y: FindingView,
)
    requires
        faces.len() <= u32::MAX,
        is_finding(points, faces, non_convex, x),
        is_finding(points, faces, non_convex, y),
        same_place(x, y),
    ensures
        x == y,
{
    lemma_origin(points, faces, non_convex, x);
    lemma_origin(points, faces, non_convex, y);
    match x.kind {
        FindingKind::DegenerateTriangle => {
            let i = choose|i: int| 0 <= i < faces.len() && #[trigger] triangle_finding(points, faces, i) == Some(x);
            let j = choose|j: int| 0 <= j < faces.len() && #[trigger] triangle_finding(points, faces, j) == Some(y);
            lemma_triangle_finding(points, faces, i);
            lemma_triangle_finding(points, faces, j);
            assert(x.triangles[0] == y.triangles[0]);
        },
        FindingKind::DuplicateTriangle => {
            let k = choose|k: Triple| #[trigger] duplicate_finding(faces, k) == Some(x);
            let l = choose|l: Triple| #[trigger] duplicate_finding(faces, l) == Some(y);
            lemma_duplicate_finding(faces, k);
            lemma_duplicate_finding(faces, l);
            assert(x.vertices[0] == y.vertices[0] && x.vertices[1] == y.vertices[1] && x.vertices[2] == y.vertices[2]);
        },
        FindingKind::NonManifoldEdge | FindingKind::BoundaryEdge | FindingKind::InconsistentOrientation => {
            let e = choose|e: EdgeKey| #[trigger] edge_finding(faces, e) == Some(x);
            let f = choose|f: EdgeKey| #[trigger] edge_finding(faces, f) == Some(y);
            lemma_edge_finding(faces, e);
            lemma_edge_finding(faces, f);
            assert(x.vertices[0] == y.vertices[0] && x.vertices[1] == y.vertices[1]);
        },
        _ => {},
    }
}

/// The problem with the edge of a run, if it has one.
fn check_edge(faces: &[[u32; 3]], m: &EdgeMap, r: usize) -> (f: Option<Finding>)
    requires
        faces@.len() <= u32::MAX,
        m.wf(faces@),
        r < m.count(),
    ensures
        match f {
            Some(f) => edge_finding(faces@, m.edge(r as int)) == Some(f@),
            None => edge_finding(faces@, m.edge(r as int)) is None,
        },
{
    let len: usize = m.starts.len();
    assert(r + 1 < len);
    let from: usize = m.starts[r];
    let to: usize = m.starts[r + 1];
    proof {
        reveal(edge_finding);
        components::lemma_run_sides(*m, faces@, r as int);
    }
    let ghost u = m.run(r as int);
    let n: usize = to - from;
    let e: EdgeKey = m.all[from].edge;
    let mut detail: String = String::new();
    let kind: FindingKind;
    if n == 1 {
        kind = FindingKind::BoundaryEdge;
        detail.append("edge ");
        push_edge(&mut detail, e);
        detail.append(" has one incident triangle: the surface has a hole here");
        proof {
            assert(detail@ =~= "edge "@ + edge_text(e) + " has one incident triangle: the surface has a hole here"@);
        }
    } else if n == 2 {
        if m.all[from].forward != m.all[from + 1].forward {
            proof {
                assert(u[0] == m.all@[from as int] && u[1] == m.all@[from + 1]);
            }
            return None;
        }
        kind = FindingKind::InconsistentOrientation;
        detail.append("triangles ");
        push_number(&mut detail, m.all[from].triangle as u64);
        detail.append(" and ");
        push_number(&mut detail, m.all[from + 1].triangle as u64);
        detail.append(" both traverse edge ");
        push_edge(&mut detail, e);
        detail.append(" in the same direction, so one of them is wound backwards");
        proof {
            assert(u[0] == m.all@[from as int] && u[1] == m.all@[from + 1]);
            assert(detail@ =~= "triangles "@ + decimal_text(u[0].triangle as nat) + " and "@ + decimal_text(
                u[1].triangle as nat,
            ) + " both traverse edge "@ + edge_text(e)
                + " in the same direction, so one of them is wound backwards"@);
        }
    } else {
        kind = FindingKind::NonManifoldEdge;
        detail.append("edge ");
        push_edge(&mut detail, e);
        detail.append(" has ");
        push_number(&mut detail, n as u64);
        detail.append(" incident triangles; the surface is not a manifold here and 'inside' is undefined");
        proof {
            assert(detail@ =~= "edge "@ + edge_text(e) + " has "@ + decimal_text(u.len())
                + " incident triangles; the surface is not a manifold here and 'inside' is undefined"@);
        }
    }
    let mut triangles: Vec<u32> = Vec::new();
    let mut k: usize = from;
    while k < to
        invariant
            from <= k <= to <= m.all@.len(),
            u == m.all@.subrange(from as int, to as int),
            triangles@ == users(u).take(k - from),
        decreases to - k,
    {
        triangles.push(m.all[k].triangle);
        k = k + 1;
        proof {
            assert(triangles@ =~= users(u).take(k - from));
        }
    }
    let vertices: Vec<u32> = vec![e.low, e.high];
    let f: Finding = Finding { kind, triangles, vertices, detail };
    proof {
        assert(triangles@ =~= users(u));
        assert(vertices@ =~= seq![e.low, e.high]);
        assert(edge_finding(faces@, e)->Some_0 =~= f@);
    }
    Some(f)
}

/// Adds the findings on edges, and decides whether the mesh is manifold,
/// watertight and consistently oriented.
fn check_edges(faces: &[[u32; 3]], m: &EdgeMap, out: &mut Vec<Finding>) -> (r: (bool, bool, bool))
    requires
        faces@.len() <= u32::MAX,
        m.wf(faces@),
    ensures
        r.0 == manifold(faces@),
        r.1 == watertight(faces@),
        r.2 == consistent(faces@),
        forall|x: FindingView| #[trigger]
            stated(final(out)@).contains(x) <==> stated(old(out)@).contains(x) || exists|e: EdgeKey| #[trigger]
                edge_finding(faces@, e) == Some(x),
{
    let count: usize = m.starts.len() - 1;
    let mut one: bool = false;
    let mut many: bool = false;
    let mut same: bool = false;
    let mut r: usize = 0;
    while r < count
        invariant
            r <= count,
            count == m.count(),
            faces@.len() <= u32::MAX,
            m.wf(faces@),
            one == exists|q: int| 0 <= q < r && uses(faces@, #[trigger] m.edge(q)).len() == 1,
            many == exists|q: int| 0 <= q < r && uses(faces@, #[trigger] m.edge(q)).len() > 2,
            same == exists|q: int|
                0 <= q < r && uses(faces@, #[trigger] m.edge(q)).len() == 2 && uses(faces@, m.edge(q))[0].forward
                    == uses(faces@, m.edge(q))[1].forward,
            forall|x: FindingView| #[trigger]
                stated(out@).contains(x) <==> stated(old(out)@).contains(x) || exists|q: int|
                    0 <= q < r && edge_finding(faces@, #[trigger] m.edge(q)) == Some(x),
        decreases count - r,
    {
        let ghost was = out@;
        let found: Option<Finding> = check_edge(faces, m, r);
        proof {
            components::lemma_run_sides(*m, faces@, r as int);
            lemma_edge_finding(faces@, m.edge(r as int));
            assert(m.run(r as int) == uses(faces@, m.edge(r as int)));
        }
        match found {
            Some(f) => {
                match f.kind {
                    FindingKind::BoundaryEdge => {
                        one = true;
                    },
                    FindingKind::InconsistentOrientation => {
                        same = true;
                    },
                    _ => {
                        many = true;
                    },
                }
                proof {
                    assert forall|x: FindingView| #[trigger]
                        stated(was.push(f)).contains(x) <==> stated(old(out)@).contains(x) || exists|q: int|
                            0 <= q < r + 1 && edge_finding(faces@, #[trigger] m.edge(q)) == Some(x) by {
                        lemma_moved(was, f, x);
                        assert(stated(was).contains(x) <==> stated(old(out)@).contains(x) || exists|q: int|
                            0 <= q < r && edge_finding(faces@, #[trigger] m.edge(q)) == Some(x));
                        if x == f@ {
                            assert(edge_finding(faces@, m.edge(r as int)) == Some(x));
                        }
                    }
                }
                out.push(f);
            },
            None => {},
        }
        r = r + 1;
    }
    proof {
        lemma_flags(*m, faces@, one, many, same);
        assert forall|x: FindingView| #[trigger]
            stated(out@).contains(x) <==> stated(old(out)@).contains(x) || exists|e: EdgeKey| #[trigger]
                edge_finding(faces@, e) == Some(x) by {
            if exists|e: EdgeKey| #[trigger] edge_finding(faces@, e) == Some(x) {
                let e = choose|e: EdgeKey| #[trigger] edge_finding(faces@, e) == Some(x);
                lemma_edge_finding(faces@, e);
                let q = choose|q: int| 0 <= q < m.count() && #[trigger] m.edge(q) == e;
                assert(edge_finding(faces@, m.edge(q)) == Some(x));
            }
        }
    }
    (!one && !many, !one, !same)
}

proof fn lemma_flags(m: EdgeMap, faces: Seq<[u32; 3]>, one: bool, many: bool, same: bool)
    requires
        faces.len() <= u32::MAX,
        m.wf(faces),
        one == exists|q: int| 0 <= q < m.count() && uses(faces, #[trigger] m.edge(q)).len() == 1,
        many == exists|q: int| 0 <= q < m.count() && uses(faces, #[trigger] m.edge(q)).len() > 2,
        same == exists|q: int|
            0 <= q < m.count() && uses(faces, #[trigger] m.edge(q)).len() == 2 && uses(faces, m.edge(q))[0].forward
                == uses(faces, m.edge(q))[1].forward,
    ensures
        manifold(faces) == (!one && !many),
        watertight(faces) == !one,
        consistent(faces) == !same,
{
    if one {
        let q = choose|q: int| 0 <= q < m.count() && uses(faces, #[trigger] m.edge(q)).len() == 1;
        assert(is_edge(faces, m.edge(q)));
    }
    if many {
        let q = choose|q: int| 0 <= q < m.count() && uses(faces, #[trigger] m.edge(q)).len() > 2;
        assert(is_edge(faces, m.edge(q)));
    }
    if same {
        let q = choose|q: int|
            0 <= q < m.count() && uses(faces, #[trigger] m.edge(q)).len() == 2 && uses(faces, m.edge(q))[0].forward
                == uses(faces, m.edge(q))[1].forward;
        assert(is_edge(faces, m.edge(q)));
    }
    assert forall|e: EdgeKey| #[trigger] is_edge(faces, e) implies {
        &&& !one && !many ==> uses(faces, e).len() == 2
        &&& !one ==> uses(faces, e).len() != 1
        &&& !same && uses(faces, e).len() == 2 ==> uses(faces, e)[0].forward != uses(faces, e)[1].forward
    } by {
        let q = choose|q: int| 0 <= q < m.count() && #[trigger] m.edge(q) == e;
        assert(uses(faces, m.edge(q)) == uses(faces, e));
    }
}

/// The problem with a triangle by itself, if it has one.
fn check_triangle(mesh: &TriMesh, i: u32) -> (f: Option<Finding>)
    requires
        i < mesh.faces().len(),
    ensures
        match f {
            Some(f) => triangle_finding(mesh.points(), mesh.faces(), i as int) == Some(f@),
            None => triangle_finding(mesh.points(), mesh.faces(), i as int) is None,
        },
{
    let t: [u32; 3] = mesh.triangles()[i as usize];
    let p: [Vec3; 3] = mesh.triangle(i);
    proof {
        reveal(triangle_finding);
    }
    let repeated: bool = t[0] == t[1] || t[1] == t[2] || t[2] == t[0];
    if !repeated && !collinear_exact(p[0], p[1], p[2]) {
        return None;
    }
    let mut detail: String = String::from_str("triangle ");
    push_number(&mut detail, i as u64);
    if repeated {
        detail.append(" repeats a vertex index: ");
        push_triple(&mut detail, t[0], t[1], t[2]);
    } else {
        detail.append(" has three exactly collinear vertices");
    }
    let k: Triple = sort_corners(t);
    let f: Finding = Finding {
        kind: FindingKind::DegenerateTriangle,
        triangles: vec![i],
        vertices: vec![k.a, k.b, k.c],
        detail,
    };
    proof {
        assert(f.triangles@ =~= seq![i as u32]);
        assert(f.vertices@ =~= seq![k.a, k.b, k.c]);
        assert(triangle_finding(mesh.points(), mesh.faces(), i as int)->Some_0 =~= f@);
    }
    Some(f)
}

/// Adds the findings on triangles by themselves.
fn check_triangles(mesh: &TriMesh, out: &mut Vec<Finding>)
    ensures
        forall|x: FindingView| #[trigger]
            stated(final(out)@).contains(x) <==> stated(old(out)@).contains(x) || exists|i: int|
                0 <= i < mesh.faces().len() && #[trigger] triangle_finding(mesh.points(), mesh.faces(), i) == Some(x),
{
    let n: u32 = mesh.triangle_count();
    let ghost points = mesh.points();
    let ghost faces = mesh.faces();
    let mut i: u32 = 0;
    while i < n
        invariant
            i <= n,
            n == faces.len(),
            points == mesh.points(),
            faces == mesh.faces(),
            forall|x: FindingView| #[trigger]
                stated(out@).contains(x) <==> stated(old(out)@).contains(x) || exists|j: int|
                    0 <= j < i && #[trigger] triangle_finding(points, faces, j) == Some(x),
        decreases n - i,
    {
        let ghost was = out@;
        match check_triangle(mesh, i) {
            Some(f) => {
                proof {
                    assert forall|x: FindingView| #[trigger]
                        stated(was.push(f)).contains(x) <==> stated(old(out)@).contains(x) || exists|j: int|
                            0 <= j < i + 1 && #[trigger] triangle_finding(points, faces, j) == Some(x) by {
                        lemma_moved(was, f, x);
                        assert(stated(was).contains(x) <==> stated(old(out)@).contains(x) || exists|j: int|
                            0 <= j < i && #[trigger] triangle_finding(points, faces, j) == Some(x));
                        if x == f@ {
                            assert(triangle_finding(points, faces, i as int) == Some(x));
                        }
                    }
                }
                out.push(f);
            },
            None => {},
        }
        i = i + 1;
    }
}

/// A triangle with its vertices in ascending order.
#[derive(Clone, Copy, Debug, PartialEq, Eq, Structural)]
struct Sharer {
    key: Triple,
    triangle: u32,
}

impl Ranked for Sharer {
    closed spec fn at_most(self, other: Self) -> bool {
        if self.key.a != other.key.a {
            self.key.a < other.key.a
        } else if self.key.b != other.key.b {
            self.key.b < other.key.b
        } else if self.key.c != other.key.c {
            self.key.c < other.key.c
        } else {
            self.triangle <= other.triangle
        }
    }

    proof fn total(self, other: Self) {
    }

    proof fn transitive(self, mid: Self, other: Self) {
    }

    proof fn antisymmetric(self, other: Self) {
    }

    fn is_at_most(self, other: Self) -> (r: bool) {
        if self.key.a != other.key.a {
            self.key.a < other.key.a
        } else if self.key.b != other.key.b {
            self.key.b < other.key.b
        } else if self.key.c != other.key.c {
            self.key.c < other.key.c
        } else {
            self.triangle <= other.triangle
        }
    }
}

spec fn is_sharer(faces: Seq<[u32; 3]>, x: Sharer) -> bool {
    x.triangle < faces.len() && x.key == sorted_corners(faces[x.triangle as int])
}

proof fn lemma_sharers(faces: Seq<[u32; 3]>, k: Triple, n: nat)
    requires
        n <= faces.len() <= u32::MAX,
    ensures
        strictly_sorted(sharers(faces, k, n)),
        forall|y: u32| #[trigger] sharers(faces, k, n).contains(y) <==> y < n && sorted_corners(faces[y as int]) == k,
    decreases n,
{
    let s = sharers(faces, k, n);
    if n > 0 {
        let m = (n - 1) as nat;
        lemma_sharers(faces, k, m);
        let was = sharers(faces, k, m);
        if sorted_corners(faces[n - 1]) == k {
            assert forall|i: int, j: int| 0 <= i < j < s.len() implies (#[trigger] s[i]).at_most(#[trigger] s[j]) && s[i]
                != s[j] by {
                if j == was.len() {
                    assert(was.contains(s[i]));
                }
            }
            assert forall|y: u32| #[trigger] s.contains(y) <==> y < n && sorted_corners(faces[y as int]) == k by {
                edges::lemma_pushed(was, m as u32, y);
                assert(was.contains(y) <==> y < m && sorted_corners(faces[y as int]) == k);
            }
        } else {
            assert forall|y: u32| #[trigger] s.contains(y) <==> y < n && sorted_corners(faces[y as int]) == k by {
                assert(was.contains(y) <==> y < m && sorted_corners(faces[y as int]) == k);
            }
        }
    }
}

/// A maximal stretch of one key among the sorted sharers is all its triangles.
proof fn lemma_shared(all: Seq<Sharer>, faces: Seq<[u32; 3]>, from: int, to: int, group: Seq<u32>)
    requires
        faces.len() <= u32::MAX,
        strictly_sorted(all),
        forall|x: Sharer| #[trigger] all.contains(x) <==> is_sharer(faces, x),
        0 <= from < to <= all.len(),
        forall|k: int| from <= k < to ==> (#[trigger] all[k]).key == all[from].key,
        from > 0 ==> all[from - 1].key != all[from].key,
        to < all.len() ==> all[to].key != all[from].key,
        group == Seq::new((to - from) as nat, |k: int| all[from + k].triangle),
    ensures
        group == sharers(faces, all[from].key, faces.len()),
{
    let key = all[from].key;
    let s = sharers(faces, key, faces.len());
    lemma_sharers(faces, key, faces.len());
    assert forall|p: int, q: int| 0 <= p < q < group.len() implies (#[trigger] group[p]).at_most(#[trigger] group[q])
        && group[p] != group[q] by {
        assert(all[from + p].at_most(all[from + q]) && all[from + p] != all[from + q]);
        assert(all[from + p].key == all[from + q].key);
    }
    assert forall|y: u32| #[trigger] group.contains(y) <==> s.contains(y) by {
        if group.contains(y) {
            let k = choose|k: int| 0 <= k < group.len() && group[k] == y;
            assert(all.contains(all[from + k]));
            assert(all[from + k].key == key);
        }
        if s.contains(y) {
            let x = Sharer { key, triangle: y };
            assert(is_sharer(faces, x));
            assert(all.contains(x));
            let k = choose|k: int| 0 <= k < all.len() && all[k] == x;
            if k < from {
                if k < from - 1 {
                    assert(all[k].at_most(all[from - 1]));
                }
                assert(all[from - 1].at_most(all[from]));
                assert(false);
            }
            if k >= to {
                assert(all[from].at_most(all[to]));
                if k > to {
                    assert(all[to].at_most(all[k]));
                }
                assert(false);
            }
            assert(group[k - from] == y);
        }
    }
    law_sorting_is_canonical(group, s);
}

fn all_sharers(faces: &[[u32; 3]]) -> (r: Vec<Sharer>)
    requires
        faces@.len() <= u32::MAX,
    ensures
        forall|x: Sharer| #[trigger] r@.contains(x) <==> is_sharer(faces@, x),
{
    let mut r: Vec<Sharer> = Vec::new();
    let mut i: usize = 0;
    while i < faces.len()
        invariant
            i <= faces@.len() <= u32::MAX,
            r@.len() == i,
            forall|k: int|
                0 <= k < i ==> (#[trigger] r@[k]) == (Sharer { key: sorted_corners(faces@[k]), triangle: k as u32 }),
        decreases faces@.len() - i,
    {
        r.push(Sharer { key: sort_corners(faces[i]), triangle: i as u32 });
        i = i + 1;
    }
    proof {
        assert forall|x: Sharer| #[trigger] r@.contains(x) <==> is_sharer(faces@, x) by {
            if is_sharer(faces@, x) {
                assert(r@[x.triangle as int] == x);
            }
        }
    }
    r
}

/// The finding on triangles that share their vertices.
fn report_shared(faces: &[[u32; 3]], k: Triple, group: Vec<u32>) -> (f: Option<Finding>)
    requires
        group@ == sharers(faces@, k, faces@.len()),
    ensures
        match f {
            Some(f) => duplicate_finding(faces@, k) == Some(f@),
            None => duplicate_finding(faces@, k) is None,
        },
{
    proof {
        reveal(duplicate_finding);
    }
    if group.len() <= 1 {
        return None;
    }
    let mut detail: String = String::new();
    push_number(&mut detail, group.len() as u64);
    detail.append(" triangles share the vertex set ");
    push_triple(&mut detail, k.a, k.b, k.c);
    detail.append(" (in some winding)");
    let ghost n = group@.len();
    let f: Finding = Finding {
        kind: FindingKind::DuplicateTriangle,
        triangles: group,
        vertices: vec![k.a, k.b, k.c],
        detail,
    };
    proof {
        assert(f.vertices@ =~= seq![k.a, k.b, k.c]);
        assert(detail@ =~= decimal_text(n) + " triangles share the vertex set "@ + triple_text(k.a, k.b, k.c)
            + " (in some winding)"@);
        assert(duplicate_finding(faces@, k)->Some_0 =~= f@);
    }
    Some(f)
}

/// Adds the findings on triangles that share their vertices.
fn check_duplicates(faces: &[[u32; 3]], out: &mut Vec<Finding>)
    requires
        faces@.len() <= u32::MAX,
    ensures
        forall|x: FindingView| #[trigger]
            stated(final(out)@).contains(x) <==> stated(old(out)@).contains(x) || exists|k: Triple| #[trigger]
                duplicate_finding(faces@, k) == Some(x),
{
    let unsorted: Vec<Sharer> = all_sharers(faces);
    let all: Vec<Sharer> = sort_distinct(&unsorted);
    proof {
        assert forall|x: Sharer| #[trigger] all@.contains(x) <==> is_sharer(faces@, x) by {
            assert(all@.contains(x) <==> unsorted@.contains(x));
        }
    }
    let mut i: usize = 0;
    while i < all.len()
        invariant
            i <= all@.len(),
            faces@.len() <= u32::MAX,
            strictly_sorted(all@),
            forall|x: Sharer| #[trigger] all@.contains(x) <==> is_sharer(faces@, x),
            0 < i < all@.len() ==> all@[i - 1].key != all@[i as int].key,
            forall|x: FindingView| #[trigger]
                stated(out@).contains(x) <==> stated(old(out)@).contains(x) || exists|j: int|
                    0 <= j < i && duplicate_finding(faces@, (#[trigger] all@[j]).key) == Some(x),
        decreases all@.len() - i,
    {
        let from: usize = i;
        let key: Triple = all[i].key;
        let mut group: Vec<u32> = Vec::new();
        while i < all.len() && all[i].key == key
            invariant
                from <= i <= all@.len(),
                from < all@.len(),
                key == all@[from as int].key,
                forall|k: int| from <= k < i ==> (#[trigger] all@[k]).key == key,
                group@ == Seq::new((i - from) as nat, |k: int| all@[from + k].triangle),
            decreases all@.len() - i,
        {
            group.push(all[i].triangle);
            i = i + 1;
            proof {
                assert(group@ =~= Seq::new((i - from) as nat, |k: int| all@[from + k].triangle));
            }
        }
        proof {
            lemma_shared(all@, faces@, from as int, i as int, group@);
        }
        let ghost was = out@;
        let found: Option<Finding> = report_shared(faces, key, group);
        let ghost seen = |x: FindingView, n: int| exists|j: int|
            0 <= j < n && duplicate_finding(faces@, (#[trigger] all@[j]).key) == Some(x);
        proof {
            assert forall|x: FindingView| #[trigger] seen(x, i as int) <==> seen(x, from as int)
                || duplicate_finding(faces@, key) == Some(x) by {
                if duplicate_finding(faces@, key) == Some(x) {
                    assert(duplicate_finding(faces@, all@[from as int].key) == Some(x));
                }
            }
        }
        match found {
            Some(f) => {
                proof {
                    assert forall|x: FindingView| #[trigger]
                        stated(was.push(f)).contains(x) <==> stated(old(out)@).contains(x) || seen(x, i as int) by {
                        lemma_moved(was, f, x);
                        assert(stated(was).contains(x) <==> stated(old(out)@).contains(x) || seen(x, from as int));
                    }
                }
                out.push(f);
            },
            None => {
                proof {
                    assert forall|x: FindingView| #[trigger]
                        stated(out@).contains(x) <==> stated(old(out)@).contains(x) || seen(x, i as int) by {
                        assert(stated(was).contains(x) <==> stated(old(out)@).contains(x) || seen(x, from as int));
                    }
                }
            },
        }
    }
    proof {
        assert forall|x: FindingView| #[trigger]
            stated(out@).contains(x) <==> stated(old(out)@).contains(x) || exists|k: Triple| #[trigger]
                duplicate_finding(faces@, k) == Some(x) by {
            if exists|k: Triple| #[trigger] duplicate_finding(faces@, k) == Some(x) {
                let k = choose|k: Triple| #[trigger] duplicate_finding(faces@, k) == Some(x);
                reveal(duplicate_finding);
                let s = sharers(faces@, k, faces@.len());
                lemma_sharers(faces@, k, faces@.len());
                assert(s.contains(s[0]));
                let y = Sharer { key: k, triangle: s[0] };
                assert(is_sharer(faces@, y));
                assert(all@.contains(y));
                let j = choose|j: int| 0 <= j < all@.len() && all@[j] == y;
                assert(duplicate_finding(faces@, all@[j].key) == Some(x));
            }
        }
    }
}

/// The finding on a closed surface that is inside out.
fn check_volume(mesh: &TriMesh, closed: bool, volume: Double) -> (f: Option<Finding>)
    requires
        closed == (watertight(mesh.faces()) && manifold(mesh.faces()) && consistent(mesh.faces())),
        volume == enclosed(mesh.points(), mesh.faces()),
    ensures
        match f {
            Some(f) => inverted_finding(mesh.points(), mesh.faces()) == Some(f@),
            None => inverted_finding(mesh.points(), mesh.faces()) is None,
        },
{
    proof {
        reveal(inverted_finding);
    }
    if !closed || !volume.less(Double::zeroed()) {
        return None;
    }
    let f: Finding = Finding {
        kind: FindingKind::InvertedOrientation,
        triangles: Vec::new(),
        vertices: Vec::new(),
        detail: String::from_str(
            "the surface is closed and consistently wound, but encloses a negative volume; the whole mesh is inside out",
        ),
    };
    proof {
        assert(inverted_finding(mesh.points(), mesh.faces())->Some_0 =~= f@);
    }
    Some(f)
}

/// Which vertices are used.
fn mark_used(mesh: &TriMesh) -> (r: Vec<bool>)
    ensures
        r@.len() == mesh.points().len(),
        forall|v: int| 0 <= v < r@.len() ==> #[trigger] r@[v] == used(mesh.faces(), v),
{
    let n: usize = mesh.vertices().len();
    let faces: &[[u32; 3]] = mesh.triangles();
    let ghost f = mesh.faces();
    let mut r: Vec<bool> = Vec::new();
    let mut k: usize = 0;
    while k < n
        invariant
            k <= n,
            r@.len() == k,
            forall|v: int| 0 <= v < k ==> !(#[trigger] r@[v]),
        decreases n - k,
    {
        r.push(false);
        k = k + 1;
    }
    let mut i: usize = 0;
    while i < faces.len()
        invariant
            i <= faces@.len(),
            faces@ == f,
            f == mesh.faces(),
            n == mesh.points().len(),
            r@.len() == n,
            forall|v: int| 0 <= v < n ==> #[trigger] r@[v] == used(f.take(i as int), v),
        decreases faces@.len() - i,
    {
        let t: [u32; 3] = faces[i];
        let ghost was = r@;
        proof {
            use_type_invariant(mesh);
            assert(t == mesh.faces()[i as int]);
        }
        r.set(t[0] as usize, true);
        r.set(t[1] as usize, true);
        r.set(t[2] as usize, true);
        proof {
            let a = f.take(i as int);
            let b = f.take(i + 1);
            assert forall|v: int| 0 <= v < n implies #[trigger] r@[v] == used(b, v) by {
                assert(was[v] == used(a, v));
                if used(a, v) {
                    let j = choose|j: int| 0 <= j < a.len() && ((#[trigger] a[j])[0] == v || a[j][1] == v || a[j][2] == v);
                    assert(b[j] == a[j]);
                    assert(used(b, v));
                }
                if t[0] == v || t[1] == v || t[2] == v {
                    assert(b[i as int] == t);
                    assert(used(b, v));
                }
                if used(b, v) {
                    let j = choose|j: int| 0 <= j < b.len() && ((#[trigger] b[j])[0] == v || b[j][1] == v || b[j][2] == v);
                    if j < i {
                        assert(a[j] == b[j]);
                        assert(used(a, v));
                    }
                }
            }
        }
        i = i + 1;
    }
    proof {
        assert(f.take(i as int) =~= f);
    }
    r
}

/// The finding on vertices that no triangle uses.
fn check_vertices(mesh: &TriMesh) -> (f: Option<Finding>)
    ensures
        match f {
            Some(f) => unused_finding(mesh.points(), mesh.faces()) == Some(f@),
            None => unused_finding(mesh.points(), mesh.faces()) is None,
        },
{
    proof {
        reveal(unused_finding);
    }
    let marks: Vec<bool> = mark_used(mesh);
    let n: u32 = mesh.vertex_count();
    let mut idle: Vec<u32> = Vec::new();
    let mut v: u32 = 0;
    while v < n
        invariant
            v <= n,
            n == marks@.len(),
            forall|v: int| 0 <= v < n ==> #[trigger] marks@[v] == used(mesh.faces(), v),
            idle@ == unused(mesh.faces(), v as nat),
        decreases n - v,
    {
        if !marks[v as usize] {
            idle.push(v);
        }
        v = v + 1;
    }
    if idle.len() == 0 {
        return None;
    }
    let mut detail: String = String::new();
    push_number(&mut detail, idle.len() as u64);
    detail.append(" vertices are referenced by no triangle");
    proof {
        assert(detail@ =~= decimal_text(idle@.len()) + " vertices are referenced by no triangle"@);
    }
    let f: Finding = Finding { kind: FindingKind::UnusedVertex, triangles: Vec::new(), vertices: idle, detail };
    proof {
        assert(unused_finding(mesh.points(), mesh.faces())->Some_0 =~= f@);
    }
    Some(f)
}

/// The finding on faces that were fan-triangulated though not convex.
fn check_fans(non_convex: u32) -> (f: Option<Finding>)
    ensures
        match f {
            Some(f) => fan_finding(non_convex) == Some(f@),
            None => fan_finding(non_convex) is None,
        },
{
    proof {
        reveal(fan_finding);
    }
    if non_convex == 0 {
        return None;
    }
    let mut detail: String = String::new();
    push_number(&mut detail, non_convex as u64);
    detail.append(
        " non-convex face(s) were fan-triangulated from their first vertex; that is only correct if each is star-shaped from that vertex, and the resulting triangles may lie outside the face",
    );
    proof {
        assert(detail@ =~= decimal_text(non_convex as nat)
            + " non-convex face(s) were fan-triangulated from their first vertex; that is only correct if each is star-shaped from that vertex, and the resulting triangles may lie outside the face"@);
    }
    let f: Finding = Finding {
        kind: FindingKind::NonConvexPolygonFan,
        triangles: Vec::new(),
        vertices: Vec::new(),
        detail,
    };
    proof {
        assert(fan_finding(non_convex)->Some_0 =~= f@);
    }
    Some(f)
}

/// The full validation result.
#[derive(Debug, PartialEq, Eq)]
pub struct MeshReport {
    /// Format version; see [`REPORT_VERSION`].
    pub version: u32,
    /// Vertex count.
    pub vertices: u32,
    /// Triangle count.
    pub triangles: u32,
    /// Count of different undirected edges.
    pub edges: u32,
    /// Every edge has exactly two uses.
    pub is_manifold: bool,
    /// No edge has exactly one use.
    pub is_watertight: bool,
    /// Every edge with two uses is run along in both directions.
    pub is_orientation_consistent: bool,
    /// Signed volume of the whole mesh.
    pub signed_volume: Double,
    /// Total surface area.
    pub surface_area: Double,
    /// The connected components, in ascending order of their first triangles.
    pub components: Vec<ComponentInfo>,
    /// Findings, by kind, then by the elements involved.
    pub findings: Vec<Finding>,
    /// Whether the self-intersection check was run.
    pub self_intersection_checked: bool,
}

/// The edges of a mesh.
pub open spec fn edge_set(faces: Seq<[u32; 3]>) -> Set<EdgeKey> {
    Set::new(|e: EdgeKey| is_edge(faces, e))
}

/// The components of a mesh, measured.
pub open spec fn measured(points: Seq<Vec3>, faces: Seq<[u32; 3]>, groups: Seq<Seq<u32>>) -> Seq<ComponentInfo> {
    Seq::new(groups.len(), |g: int| component_info(points, faces, groups[g]))
}

impl MeshReport {
    /// Closed, manifold, consistently oriented and outward-facing.
    pub open spec fn solid(self) -> bool {
        self.is_manifold && self.is_watertight && self.is_orientation_consistent && (Double { bits: 0 }).lt(
            self.signed_volume,
        )
    }

    /// The report is the one on a mesh.
    pub open spec fn describes(self, points: Seq<Vec3>, faces: Seq<[u32; 3]>) -> bool {
        &&& self.version == 1
        &&& self.vertices == points.len()
        &&& self.triangles == faces.len()
        &&& self.edges == edge_set(faces).len() as u32
        &&& self.is_manifold == manifold(faces)
        &&& self.is_watertight == watertight(faces)
        &&& self.is_orientation_consistent == consistent(faces)
        &&& self.signed_volume == enclosed(points, faces)
        &&& self.surface_area == quotient(area_sum(points, faces, faces.len()), two())
        &&& exists|groups: Seq<Seq<u32>>| #[trigger]
            are_components(faces, groups) && self.components@ == measured(points, faces, groups)
    }

    /// True if the mesh is safe for the parity argument.
    pub fn is_solid(&self) -> (r: bool)
        ensures
            r == self.solid(),
    {
        self.is_manifold && self.is_watertight && self.is_orientation_consistent && Double::zeroed().less(
            self.signed_volume,
        )
    }

    /// Findings that break ray casting outright, in order.
    pub fn fatal_findings(&self) -> (r: Vec<&Finding>)
        ensures
            r@.len() == fatal_ones(self.findings@, self.findings@.len()).len(),
            forall|k: int|
                0 <= k < r@.len() ==> *#[trigger] r@[k] == fatal_ones(self.findings@, self.findings@.len())[k],
    {
        let mut r: Vec<&Finding> = Vec::new();
        let mut i: usize = 0;
        while i < self.findings.len()
            invariant
                i <= self.findings@.len(),
                r@.len() == fatal_ones(self.findings@, i as nat).len(),
                forall|k: int| 0 <= k < r@.len() ==> *#[trigger] r@[k] == fatal_ones(self.findings@, i as nat)[k],
            decreases self.findings@.len() - i,
        {
            if self.findings[i].kind.is_fatal_for_raycasting() {
                r.push(&self.findings[i]);
            }
            i = i + 1;
        }
        r
    }

    /// How many findings of a kind there are.
    pub fn count_of(&self, kind: FindingKind) -> (n: usize)
        ensures
            n == kind_count(self.findings@, kind, self.findings@.len()),
    {
        let mut n: usize = 0;
        let mut i: usize = 0;
        while i < self.findings.len()
            invariant
                i <= self.findings@.len(),
                n == kind_count(self.findings@, kind, i as nat),
                n <= i,
            decreases self.findings@.len() - i,
        {
            if self.findings[i].kind == kind {
                n = n + 1;
            }
            i = i + 1;
        }
        n
    }
}

/// The fatal ones of the first `n` findings.
pub open spec fn fatal_ones(s: Seq<Finding>, n: nat) -> Seq<Finding>
    decreases n,
{
    if n == 0 {
        Seq::empty()
    } else if s[n - 1].kind.fatal() {
        fatal_ones(s, (n - 1) as nat).push(s[n - 1])
    } else {
        fatal_ones(s, (n - 1) as nat)
    }
}

/// How many of the first `n` findings are of a kind.
pub open spec fn kind_count(s: Seq<Finding>, kind: FindingKind, n: nat) -> int
    decreases n,
{
    if n == 0 {
        0
    } else {
        kind_count(s, kind, (n - 1) as nat) + (if s[n - 1].kind == kind {
            1int
        } else {
            0
        })
    }
}

/// There are as many edges as runs.
proof fn lemma_edge_count(m: EdgeMap, faces: Seq<[u32; 3]>)
    requires
        faces.len() <= u32::MAX,
        m.wf(faces),
    ensures
        edge_set(faces).finite(),
        edge_set(faces).len() == m.count(),
{
    broadcast use vstd::seq_lib::seq_to_set_is_finite;

    let s = Seq::new(m.count() as nat, |r: int| m.edge(r));
    assert(s.no_duplicates()) by {
        assert forall|i: int, j: int| 0 <= i < s.len() && 0 <= j < s.len() && i != j implies s[i] != s[j] by {
            if i < j {
                assert(m.edge(i) != m.edge(j));
            } else {
                assert(m.edge(j) != m.edge(i));
            }
        }
    }
    s.unique_seq_to_set();
    assert forall|e: EdgeKey| s.to_set().contains(e) <==> edge_set(faces).contains(e) by {
        if s.contains(e) {
            let r = choose|r: int| 0 <= r < s.len() && s[r] == e;
            components::lemma_run_sides(m, faces, r);
            assert(m.run(r) == uses(faces, m.edge(r)));
        }
        if is_edge(faces, e) {
            let r = choose|r: int| 0 <= r < m.count() && #[trigger] m.edge(r) == e;
            assert(s[r] == e);
        }
    }
    assert(s.to_set() =~= edge_set(faces));
}

/// The members of a group are triangles of the mesh.
proof fn lemma_group_fits(faces: Seq<[u32; 3]>, g: Seq<Seq<u32>>, i: int)
    requires
        are_components(faces, g),
        0 <= i < g.len(),
        faces.len() <= u32::MAX,
    ensures
        strictly_sorted(g[i]),
        g[i].len() <= faces.len(),
        forall|k: int| 0 <= k < g[i].len() ==> (#[trigger] g[i][k]) < faces.len(),
{
    let group = g[i];
    assert forall|k: int| 0 <= k < group.len() implies (#[trigger] group[k]) < faces.len() by {
        assert(g[i].contains(group[k]));
        assert(in_some(g, group[k]));
    }
    lemma_short(group, faces.len() as int);
}

/// Measures all components.
#[verifier::spinoff_prover]
#[verifier::rlimit(40)]
fn measure_all(mesh: &TriMesh, m: &EdgeMap) -> (r: Vec<ComponentInfo>)
    requires
        m.wf(mesh.faces()),
    ensures
        exists|groups: Seq<Seq<u32>>| #[trigger]
            are_components(mesh.faces(), groups) && r@ == measured(mesh.points(), mesh.faces(), groups),
{
    proof {
        use_type_invariant(mesh);
    }
    let groups: Vec<Vec<u32>> = components(mesh.triangles(), m);
    let ghost g = groups_in(groups@);
    let mut r: Vec<ComponentInfo> = Vec::new();
    let mut i: usize = 0;
    while i < groups.len()
        invariant
            i <= groups@.len(),
            g == groups_in(groups@),
            are_components(mesh.faces(), g),
            mesh.faces().len() <= u32::MAX,
            r@ == measured(mesh.points(), mesh.faces(), g).take(i as int),
        decreases groups@.len() - i,
    {
        proof {
            assert(g[i as int] == groups@[i as int]@);
            lemma_group_fits(mesh.faces(), g, i as int);
        }
        r.push(measure(mesh, &groups[i]));
        i = i + 1;
        proof {
            assert(r@ =~= measured(mesh.points(), mesh.faces(), g).take(i as int));
        }
    }
    proof {
        assert(r@ =~= measured(mesh.points(), mesh.faces(), g));
    }
    r
}

/// Ascending numbers below a bound are no more than the bound.
proof fn lemma_short(s: Seq<u32>, n: int)
    requires
        strictly_sorted(s),
        forall|k: int| 0 <= k < s.len() ==> (#[trigger] s[k]) < n,
    ensures
        s.len() <= n || s.len() == 0,
        s.len() > 0 ==> s.last() >= s.len() - 1,
    decreases s.len(),
{
    if s.len() > 0 {
        assert(s[s.len() - 1] < n);
    }
    if s.len() > 1 {
        let t = s.drop_last();
        assert(strictly_sorted(t)) by {
            assert forall|i: int, j: int| 0 <= i < j < t.len() implies (#[trigger] t[i]).at_most(#[trigger] t[j]) && t[i]
                != t[j] by {
                assert(s[i].at_most(s[j]) && s[i] != s[j]);
            }
        }
        lemma_short(t, n);
        assert(s[s.len() - 2].at_most(s[s.len() - 1]) && s[s.len() - 2] != s[s.len() - 1]);
    }
}

fn push_some(out: &mut Vec<Finding>, f: Option<Finding>)
    ensures
        forall|x: FindingView| #[trigger]
            stated(final(out)@).contains(x) <==> stated(old(out)@).contains(x) || (f matches Some(g) && g@ == x),
{
    match f {
        Some(g) => {
            proof {
                assert forall|x: FindingView| #[trigger]
                    stated(out@.push(g)).contains(x) <==> stated(out@).contains(x) || g@ == x by {
                    lemma_moved(out@, g, x);
                }
            }
            out.push(g);
        },
        None => {},
    }
}

/// Validates the topology of a mesh.
///
/// The mesh should already be welded: in a triangle soup every edge is a boundary
/// edge. Self-intersection is a separate check, see
/// [`check_self_intersections`].
pub fn validate(mesh: &TriMesh) -> (r: MeshReport)
    ensures
        r.describes(mesh.points(), mesh.faces()),
        !r.self_intersection_checked,
        in_order(stated(r.findings@)),
        forall|x: FindingView| #[trigger]
            stated(r.findings@).contains(x) <==> is_finding(
                mesh.points(),
                mesh.faces(),
                mesh.origin().non_convex_polygons,
                x,
            ),
{
    proof {
        use_type_invariant(mesh);
    }
    let faces: &[[u32; 3]] = mesh.triangles();
    let m: EdgeMap = edge_map(faces);
    let mut found: Vec<Finding> = Vec::new();
    check_triangles(mesh, &mut found);
    check_duplicates(faces, &mut found);
    let (is_manifold, is_watertight, is_orientation_consistent) = check_edges(faces, &m, &mut found);
    let signed_volume: Double = mesh.signed_volume();
    let closed: bool = is_watertight && is_manifold && is_orientation_consistent;
    push_some(&mut found, check_volume(mesh, closed, signed_volume));
    push_some(&mut found, check_vertices(mesh));
    let non_convex: u32 = mesh.meta().non_convex_polygons;
    push_some(&mut found, check_fans(non_convex));
    let ghost all = stated(found@);
    proof {
        assert forall|x: FindingView| #[trigger]
            all.contains(x) <==> is_finding(mesh.points(), mesh.faces(), non_convex, x) by {}
        assert forall|i: int, j: int|
            0 <= i < all.len() && 0 <= j < all.len() && same_place(#[trigger] all[i], #[trigger] all[j]) implies all[i]
            == all[j] by {
            assert(all.contains(all[i]) && all.contains(all[j]));
            lemma_findings_coherent(mesh.points(), mesh.faces(), non_convex, all[i], all[j]);
        }
    }
    let findings: Vec<Finding> = sort_findings(found);
    let components: Vec<ComponentInfo> = measure_all(mesh, &m);
    proof {
        lemma_edge_count(m, faces@);
    }
    MeshReport {
        version: REPORT_VERSION,
        vertices: mesh.vertex_count(),
        triangles: mesh.triangle_count(),
        edges: (m.starts.len() - 1) as u32,
        is_manifold,
        is_watertight,
        is_orientation_consistent,
        signed_volume,
        surface_area: mesh.surface_area(),
        components,
        findings,
        self_intersection_checked: false,
    }
}

/// Numbers in ascending order.
pub open spec fn ascending(s: Seq<u32>) -> Seq<u32> {
    choose|t: Seq<u32>| sorted(t) && t.to_multiset() == s.to_multiset()
}

/// What is wrong with two triangles that intersect.
pub open spec fn clash_finding(faces: Seq<[u32; 3]>, i: u32, j: u32) -> FindingView {
    let (s, t) = (faces[i as int], faces[j as int]);
    FindingView {
        kind: FindingKind::SelfIntersection,
        triangles: seq![i, j],
        vertices: ascending(seq![s[0], s[1], s[2], t[0], t[1], t[2]]),
        detail: "triangles "@ + decimal_text(i as nat) + " and "@ + decimal_text(j as nat)
            + " intersect but share no vertex"@,
    }
}

/// A finding of two triangles of a mesh that intersect.
pub open spec fn is_clash(points: Seq<Vec3>, faces: Seq<[u32; 3]>, x: FindingView) -> bool {
    exists|i: u32, j: u32| #[trigger] clashing(points, faces, i, j) && x == clash_finding(faces, i, j)
}

fn report_clash(faces: &[[u32; 3]], i: u32, j: u32) -> (f: Finding)
    requires
        i < faces@.len(),
        j < faces@.len(),
    ensures
        f@ == clash_finding(faces@, i, j),
{
    let s: [u32; 3] = faces[i as usize];
    let t: [u32; 3] = faces[j as usize];
    let unsorted: Vec<u32> = vec![s[0], s[1], s[2], t[0], t[1], t[2]];
    let vertices: Vec<u32> = sort(&unsorted);
    let mut detail: String = String::from_str("triangles ");
    push_number(&mut detail, i as u64);
    detail.append(" and ");
    push_number(&mut detail, j as u64);
    detail.append(" intersect but share no vertex");
    let f: Finding = Finding { kind: FindingKind::SelfIntersection, triangles: vec![i, j], vertices, detail };
    proof {
        let u = seq![s[0], s[1], s[2], t[0], t[1], t[2]];
        assert(unsorted@ =~= u);
        assert(sorted(vertices@) && vertices@.to_multiset() == u.to_multiset());
        law_sorted_is_unique(vertices@, ascending(u));
        assert(f.triangles@ =~= seq![i, j]);
        assert(detail@ =~= "triangles "@ + decimal_text(i as nat) + " and "@ + decimal_text(j as nat)
            + " intersect but share no vertex"@);
        assert(f@ =~= clash_finding(faces@, i, j));
    }
    f
}

/// The findings for the first `n` of some pairs.
pub open spec fn clash_findings(faces: Seq<[u32; 3]>, pairs: Seq<Pair>, n: nat) -> Seq<FindingView>
    decreases n,
{
    if n == 0 {
        Seq::empty()
    } else {
        clash_findings(faces, pairs, (n - 1) as nat).push(clash_finding(faces, pairs[n - 1].first, pairs[n - 1].second))
    }
}

/// The pairs are all that clash, in ascending order.
pub open spec fn all_clashes(points: Seq<Vec3>, faces: Seq<[u32; 3]>, pairs: Seq<Pair>) -> bool {
    &&& strictly_sorted(pairs)
    &&& forall|x: Pair| #[trigger] pairs.contains(x) <==> clashing(points, faces, x.first, x.second)
}

proof fn lemma_clash_in_range(points: Seq<Vec3>, faces: Seq<[u32; 3]>, i: u32, j: u32)
    requires
        clashing(points, faces, i, j),
    ensures
        i < faces.len(),
        j < faces.len(),
{
    reveal(clashing);
}

/// Adds the self-intersection findings to a report on the same mesh.
///
/// Separate from [`validate`], because it costs a search of the hierarchy for each
/// triangle and an exact test for each candidate pair.
pub fn check_self_intersections(mesh: &TriMesh, report: &mut MeshReport)
    requires
        mesh.faces().len() <= 0x7fff_ffff,
    ensures
        exists|pairs: Seq<Pair>| #[trigger]
            all_clashes(mesh.points(), mesh.faces(), pairs) && ({
                let all = stated(old(report).findings@) + clash_findings(mesh.faces(), pairs, pairs.len());
                stated(final(report).findings@) == arranged(all, all.len())
            }),
        final(report).self_intersection_checked,
        final(report).version == old(report).version,
        final(report).vertices == old(report).vertices,
        final(report).triangles == old(report).triangles,
        final(report).edges == old(report).edges,
        final(report).is_manifold == old(report).is_manifold,
        final(report).is_watertight == old(report).is_watertight,
        final(report).is_orientation_consistent == old(report).is_orientation_consistent,
        final(report).signed_volume == old(report).signed_volume,
        final(report).surface_area == old(report).surface_area,
        final(report).components == old(report).components,
{
    let ghost faces = mesh.faces();
    let bvh: Bvh = Bvh::build(mesh);
    let pairs: Vec<Pair> = self_intersections(mesh, &bvh);
    let mut found: Vec<Finding> = Vec::new();
    found.append(&mut report.findings);
    let ghost before = stated(old(report).findings@);
    proof {
        assert(found@ =~= old(report).findings@);
        assert(stated(found@) =~= before + clash_findings(faces, pairs@, 0));
    }
    let mut k: usize = 0;
    while k < pairs.len()
        invariant
            k <= pairs@.len(),
            faces == mesh.faces(),
            all_clashes(mesh.points(), faces, pairs@),
            stated(found@) == before + clash_findings(faces, pairs@, k as nat),
        decreases pairs@.len() - k,
    {
        let p: Pair = pairs[k];
        proof {
            assert(pairs@.contains(p));
            lemma_clash_in_range(mesh.points(), faces, p.first, p.second);
        }
        let f: Finding = report_clash(mesh.triangles(), p.first, p.second);
        let ghost was = found@;
        found.push(f);
        proof {
            let c = clash_findings(faces, pairs@, k as nat);
            assert(stated(found@) =~= stated(was).push(f@));
            assert((before + c).push(f@) =~= before + c.push(f@));
        }
        k = k + 1;
    }
    assert(all_clashes(mesh.points(), faces, pairs@));
    report.findings = arrange(found);
    report.self_intersection_checked = true;
}

proof fn lemma_clash_findings(faces: Seq<[u32; 3]>, pairs: Seq<Pair>, n: nat, x: FindingView)
    requires
        n <= pairs.len(),
    ensures
        clash_findings(faces, pairs, n).len() == n,
        clash_findings(faces, pairs, n).contains(x) <==> exists|q: int|
            0 <= q < n && x == clash_finding(faces, (#[trigger] pairs[q]).first, pairs[q].second),
    decreases n,
{
    if n > 0 {
        let m = (n - 1) as nat;
        lemma_clash_findings(faces, pairs, m, x);
        edges::lemma_pushed(clash_findings(faces, pairs, m), clash_finding(faces, pairs[m as int].first, pairs[m as int].second), x);
        let p = pairs[m as int];
    }
}

/// What a report says after a check for self-intersections is what it said before
/// and, of the mesh, that each pair of triangles that clash intersects.
pub proof fn law_check_adds_the_clashes(
    points: Seq<Vec3>,
    faces: Seq<[u32; 3]>,
    was: Seq<FindingView>,
    pairs: Seq<Pair>,
    x: FindingView,
)
    requires
        all_clashes(points, faces, pairs),
    ensures
        ({
            let all = was + clash_findings(faces, pairs, pairs.len());
            arranged(all, all.len()).contains(x) <==> was.contains(x) || is_clash(points, faces, x)
        }),
{
    let more = clash_findings(faces, pairs, pairs.len());
    let all = was + more;
    law_arranging_sorts(all, all.len());
    assert(all.take(all.len() as int) =~= all);
    lemma_same_values(arranged(all, all.len()), all);
    assert(arranged(all, all.len()).contains(x) <==> all.contains(x));
    lemma_sum_contains(was, more, x);
    lemma_clash_findings(faces, pairs, pairs.len(), x);
    if is_clash(points, faces, x) {
        let (i, j) = choose|i: u32, j: u32| #[trigger] clashing(points, faces, i, j) && x == clash_finding(faces, i, j);
        let p = Pair { first: i, second: j };
        assert(pairs.contains(p));
        let q = choose|q: int| 0 <= q < pairs.len() && pairs[q] == p;
        assert(x == clash_finding(faces, pairs[q].first, pairs[q].second));
    }
    if more.contains(x) {
        let q = choose|q: int| 0 <= q < pairs.len() && x == clash_finding(faces, (#[trigger] pairs[q]).first, pairs[q].second);
        assert(pairs.contains(pairs[q]));
        assert(clashing(points, faces, pairs[q].first, pairs[q].second));
    }
}

} // verus!
