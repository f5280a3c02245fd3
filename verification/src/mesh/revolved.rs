//! Solids of revolution, from points of a unit circle.
//!
//! The circle is given by the cosine and the sine of as many evenly spaced angles
//! as there are segments.

use crate::arithmetic::{product, sum};
use crate::double::Double;
use crate::math::{Vec2, Vec3};
use crate::mesh::{built_in_memory, mesh_fault, MeshError, MeshMeta, TriMesh};
use vstd::prelude::*;

verus! {

/// A point of a ring: a point of the circle at a radius and a height.
pub open spec fn ring_point(c: Vec2, r: Double, z: Double) -> Vec3 {
    Vec3 { x: product(r, c.x), y: product(r, c.y), z }
}

/// The number after `i` around a ring of `n`.
pub open spec fn around(i: int, n: int) -> int {
    if i + 1 < n {
        i + 1
    } else {
        0
    }
}

fn after(i: u32, n: u32) -> (j: u32)
    requires
        i < n,
    ensures
        j == around(i as int, n as int),
{
    if i + 1 < n {
        i + 1
    } else {
        0
    }
}

/// The vertices of a cylinder: the ring at the base, the ring at the top, and the
/// two centres.
pub open spec fn cylinder_points(r: Double, h: Double, circle: Seq<Vec2>) -> Seq<Vec3> {
    let zero = Double { bits: 0 };
    Seq::new(circle.len(), |i: int| ring_point(circle[i], r, zero)) + Seq::new(
        circle.len(),
        |i: int| ring_point(circle[i], r, h),
    ) + seq![Vec3 { x: zero, y: zero, z: zero }, Vec3 { x: zero, y: zero, z: h }]
}

/// The triangles of segment `i` of a cylinder: two of the side, one of the base
/// and one of the top.
pub open spec fn cylinder_segment(i: int, n: int) -> Seq<Seq<int>> {
    let j = around(i, n);
    seq![seq![i, j, n + j], seq![i, n + j, n + i], seq![2 * n, j, i], seq![2 * n + 1, n + i, n + j]]
}

/// The vertices of a cone: the ring at the base, its centre, and the apex.
pub open spec fn cone_points(r: Double, h: Double, circle: Seq<Vec2>) -> Seq<Vec3> {
    let zero = Double { bits: 0 };
    Seq::new(circle.len(), |i: int| ring_point(circle[i], r, zero)) + seq![
        Vec3 { x: zero, y: zero, z: zero },
        Vec3 { x: zero, y: zero, z: h },
    ]
}

/// The triangles of segment `i` of a cone: one of the side and one of the base.
pub open spec fn cone_segment(i: int, n: int) -> Seq<Seq<int>> {
    let j = around(i, n);
    seq![seq![i, j, n + 1], seq![n, j, i]]
}

/// A vertex of a torus.
pub open spec fn torus_point(major: Double, minor: Double, u: Vec2, v: Vec2) -> Vec3 {
    let radial = sum(major, product(minor, v.x));
    Vec3 { x: product(radial, u.x), y: product(radial, u.y), z: product(minor, v.y) }
}

/// The vertices of a torus: around the tube, for each point around the axis.
pub open spec fn torus_points(major: Double, minor: Double, ring: Seq<Vec2>, tube: Seq<Vec2>) -> Seq<Vec3> {
    Seq::new(
        ring.len() * tube.len(),
        |q: int| torus_point(major, minor, ring[q / tube.len() as int], tube[q % tube.len() as int]),
    )
}

/// The two triangles of a quad of a torus.
pub open spec fn torus_quad(i: int, j: int, nu: int, nv: int) -> Seq<Seq<int>> {
    let k = around(i, nu);
    let l = around(j, nv);
    let (a, b, c, d) = (i * nv + j, k * nv + j, k * nv + l, i * nv + l);
    seq![seq![a, b, c], seq![a, c, d]]
}

/// The triangles of each segment of a cylinder.
pub open spec fn cylinder_segments(n: int) -> spec_fn(int) -> Seq<Seq<int>> {
    |i: int| cylinder_segment(i, n)
}

/// The triangles of each segment of a cone.
pub open spec fn cone_segments(n: int) -> spec_fn(int) -> Seq<Seq<int>> {
    |i: int| cone_segment(i, n)
}

/// The triangles of each quad of a torus, around the tube and then around the
/// axis.
pub open spec fn torus_quads(nu: int, nv: int) -> spec_fn(int) -> Seq<Seq<int>> {
    |q: int| torus_quad(q / nv, q % nv, nu, nv)
}

/// A triangle has these numbers.
pub open spec fn reads(t: [u32; 3], s: Seq<int>) -> bool {
    t[0] == s[0] && t[1] == s[1] && t[2] == s[2]
}

/// The triangles of the first `n` segments, `k` to each.
pub open spec fn segments_read(t: Seq<[u32; 3]>, segment: spec_fn(int) -> Seq<Seq<int>>, k: int, n: int) -> bool {
    &&& t.len() == k * n
    &&& forall|i: int, j: int|
        0 <= i < n && 0 <= j < k ==> reads(#[trigger] t[k * i + j], segment(i)[j])
}

/// What the mesh constructor makes of vertices and triangles that were built in
/// memory.
pub open spec fn constructed(r: Result<TriMesh, MeshError>, points: Seq<Vec3>, t: Seq<[u32; 3]>) -> bool {
    match r {
        Ok(m) => m.points() == points && m.faces() == t && mesh_fault(points, t) is None && built_in_memory(m.origin()),
        Err(e) => mesh_fault(points, t) == Some(e),
    }
}

fn push_ring(v: &mut Vec<Vec3>, circle: &[Vec2], r: Double, z: Double)
    ensures
        final(v)@ == old(v)@ + Seq::new(circle@.len(), |i: int| ring_point(circle@[i], r, z)),
{
    let ghost was = v@;
    let mut i: usize = 0;
    proof {
        assert(v@ =~= was + Seq::new(0, |k: int| ring_point(circle@[k], r, z)));
    }
    while i < circle.len()
        invariant
            i <= circle@.len(),
            v@ == was + Seq::new(i as nat, |k: int| ring_point(circle@[k], r, z)),
        decreases circle@.len() - i,
    {
        let c: Vec2 = circle[i];
        v.push(Vec3::new(r.times(c.x), r.times(c.y), z));
        i = i + 1;
        assert(v@ =~= was + Seq::new(i as nat, |k: int| ring_point(circle@[k], r, z)));
    }
}

/// A closed cylinder along the z axis with its base at the origin, from at least
/// three points of a circle. The error is that of the mesh constructor.
pub fn cylinder(r: Double, h: Double, circle: &[Vec2]) -> (m: Result<TriMesh, MeshError>)
    requires
        3 <= circle@.len() <= 0x3fff_ffff,
    ensures
        exists|t: Seq<[u32; 3]>|
            segments_read(t, cylinder_segments(circle@.len() as int), 4, circle@.len() as int)
                && #[trigger] constructed(m, cylinder_points(r, h, circle@), t),
{
    let zero: Double = Double::zeroed();
    let n: u32 = circle.len() as u32;
    let mut v: Vec<Vec3> = Vec::new();
    push_ring(&mut v, circle, r, zero);
    push_ring(&mut v, circle, r, h);
    v.push(Vec3::new(zero, zero, zero));
    v.push(Vec3::new(zero, zero, h));
    proof {
        assert(v@ =~= cylinder_points(r, h, circle@));
    }
    let ghost f = cylinder_segments(circle@.len() as int);
    let mut t: Vec<[u32; 3]> = Vec::new();
    let mut i: u32 = 0;
    while i < n
        invariant
            i <= n == circle@.len() <= 0x3fff_ffff,
            f == cylinder_segments(circle@.len() as int),
            segments_read(t@, f, 4, i as int),
        decreases n - i,
    {
        let j: u32 = after(i, n);
        let ghost was = t@;
        t.push([i, j, n + j]);
        t.push([i, n + j, n + i]);
        t.push([2 * n, j, i]);
        t.push([2 * n + 1, n + i, n + j]);
        proof {
            assert forall|a: int, b: int| 0 <= a < i + 1 && 0 <= b < 4 implies reads(#[trigger] t@[4 * a + b], f(a)[b]) by {
                if a < i {
                    assert(t@[4 * a + b] == was[4 * a + b]);
                }
            }
        }
        i = i + 1;
    }
    let ghost faces = t@;
    let m: Result<TriMesh, MeshError> = TriMesh::new(v, t, MeshMeta::synthetic());
    assert(constructed(m, cylinder_points(r, h, circle@), faces));
    m
}

/// A closed cone along the z axis with its base at the origin, from at least three
/// points of a circle. The error is that of the mesh constructor.
pub fn cone(r: Double, h: Double, circle: &[Vec2]) -> (m: Result<TriMesh, MeshError>)
    requires
        3 <= circle@.len() <= 0x7fff_ffff,
    ensures
        exists|t: Seq<[u32; 3]>|
            segments_read(t, cone_segments(circle@.len() as int), 2, circle@.len() as int)
                && #[trigger] constructed(m, cone_points(r, h, circle@), t),
{
    let zero: Double = Double::zeroed();
    let n: u32 = circle.len() as u32;
    let mut v: Vec<Vec3> = Vec::new();
    push_ring(&mut v, circle, r, zero);
    v.push(Vec3::new(zero, zero, zero));
    v.push(Vec3::new(zero, zero, h));
    proof {
        assert(v@ =~= cone_points(r, h, circle@));
    }
    let ghost f = cone_segments(circle@.len() as int);
    let mut t: Vec<[u32; 3]> = Vec::new();
    let mut i: u32 = 0;
    while i < n
        invariant
            i <= n == circle@.len() <= 0x7fff_ffff,
            f == cone_segments(circle@.len() as int),
            segments_read(t@, f, 2, i as int),
        decreases n - i,
    {
        let j: u32 = after(i, n);
        let ghost was = t@;
        t.push([i, j, n + 1]);
        t.push([n, j, i]);
        proof {
            assert forall|a: int, b: int| 0 <= a < i + 1 && 0 <= b < 2 implies reads(#[trigger] t@[2 * a + b], f(a)[b]) by {
                if a < i {
                    assert(t@[2 * a + b] == was[2 * a + b]);
                }
            }
        }
        i = i + 1;
    }
    let ghost faces = t@;
    let m: Result<TriMesh, MeshError> = TriMesh::new(v, t, MeshMeta::synthetic());
    assert(constructed(m, cone_points(r, h, circle@), faces));
    m
}

/// A torus in the xy plane, from points of a circle around its axis and around its
/// tube, at least three of each. The error is that of the mesh constructor.
pub fn torus(major: Double, minor: Double, ring: &[Vec2], tube: &[Vec2]) -> (m: Result<TriMesh, MeshError>)
    requires
        3 <= ring@.len(),
        3 <= tube@.len(),
        ring@.len() * tube@.len() <= 0x7fff_ffff,
    ensures
        exists|t: Seq<[u32; 3]>|
            segments_read(
                t,
                torus_quads(ring@.len() as int, tube@.len() as int),
                2,
                (ring@.len() * tube@.len()) as int,
            ) && #[trigger] constructed(m, torus_points(major, minor, ring@, tube@), t),
{
    let ghost nu = ring@.len() as int;
    let ghost nv = tube@.len() as int;
    proof {
        assert(nu <= nu * nv && nv <= nu * nv) by (nonlinear_arith)
            requires
                nu >= 3,
                nv >= 3,
        ;
    }
    let a: u32 = ring.len() as u32;
    let b: u32 = tube.len() as u32;
    let count: u32 = a * b;
    let ghost f = torus_quads(nu, nv);
    let mut v: Vec<Vec3> = Vec::new();
    let mut t: Vec<[u32; 3]> = Vec::new();
    let mut q: u32 = 0;
    while q < count
        invariant
            q <= count,
            count == nu * nv <= 0x7fff_ffff,
            a == nu == ring@.len(),
            b == nv == tube@.len(),
            nu >= 3,
            nv >= 3,
            f == torus_quads(nu, nv),
            v@ == Seq::new(q as nat, |k: int| torus_point(major, minor, ring@[k / nv], tube@[k % nv])),
            segments_read(t@, f, 2, q as int),
        decreases count - q,
    {
        let i: u32 = q / b;
        let j: u32 = q % b;
        proof {
            vstd::arithmetic::div_mod::lemma_fundamental_div_mod(q as int, nv);
            assert(i < nu) by (nonlinear_arith)
                requires
                    q == nv * i + j,
                    0 <= j,
                    q < nu * nv,
                    nv > 0,
            ;
        }
        let k: u32 = after(i, a);
        let l: u32 = after(j, b);
        proof {
            assert(0 <= i * nv && i * nv + nv <= nu * nv && 0 <= k * nv && k * nv + nv <= nu * nv) by (nonlinear_arith)
                requires
                    0 <= i < nu,
                    0 <= k < nu,
                    nv > 0,
            ;
        }
        let c: Vec2 = ring[i as usize];
        let d: Vec2 = tube[j as usize];
        let radial: Double = major.plus(minor.times(d.x));
        v.push(Vec3::new(radial.times(c.x), radial.times(c.y), minor.times(d.y)));
        let ghost was = t@;
        t.push([i * b + j, k * b + j, k * b + l]);
        t.push([i * b + j, k * b + l, i * b + l]);
        proof {
            assert(v@ =~= Seq::new((q + 1) as nat, |k: int| torus_point(major, minor, ring@[k / nv], tube@[k % nv])));
            assert forall|x: int, y: int| 0 <= x < q + 1 && 0 <= y < 2 implies reads(#[trigger] t@[2 * x + y], f(x)[y]) by {
                if x < q {
                    assert(t@[2 * x + y] == was[2 * x + y]);
                }
            }
        }
        q = q + 1;
    }
    assert(v@ =~= torus_points(major, minor, ring@, tube@));
    let ghost faces = t@;
    let m: Result<TriMesh, MeshError> = TriMesh::new(v, t, MeshMeta::synthetic());
    assert(constructed(m, torus_points(major, minor, ring@, tube@), faces));
    m
}

} // verus!
