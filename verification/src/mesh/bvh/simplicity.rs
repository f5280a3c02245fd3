//! Crossings of a line with a triangle, decided by exact predicates and, where
//! those vanish, by a symbolic perturbation of the vertices.
//!
//! The edge function of a directed edge against a line is an orientation
//! determinant. Where it is exactly zero, its sign is that of the first component
//! that does not vanish among its derivatives by the displaced vertices, the
//! lower-numbered vertex first. Turning an edge round negates the determinant and
//! every derivative but leaves their order, so two triangles always disagree
//! about the edge that they share: none is crossed twice, and none missed twice.

use crate::math::{Vec2, Vec3};
use crate::predicates::{
    law_orient3d_is_antisymmetric, orient2d, orient2d_det, orient3d, orient3d_det, orientation_of, Orientation,
};
use vstd::prelude::*;

verus! {

/// The three components of `(o - v) x (p - v)`.
pub open spec fn perturbation(o: Vec3, p: Vec3, v: Vec3) -> Seq<Orientation> {
    seq![
        orientation_of(orient2d_det(Vec2 { x: o.y, y: o.z }, Vec2 { x: p.y, y: p.z }, Vec2 { x: v.y, y: v.z })),
        orientation_of(orient2d_det(Vec2 { x: o.z, y: o.x }, Vec2 { x: p.z, y: p.x }, Vec2 { x: v.z, y: v.x })),
        orientation_of(orient2d_det(Vec2 { x: o.x, y: o.y }, Vec2 { x: p.x, y: p.y }, Vec2 { x: v.x, y: v.y })),
    ]
}

/// The first of three that is not zero, or zero.
pub open spec fn leading(s: Seq<Orientation>) -> Orientation {
    if s[0] != Orientation::Zero {
        s[0]
    } else if s[1] != Orientation::Zero {
        s[1]
    } else {
        s[2]
    }
}

/// The sign of the derivatives of the edge function where the edge is walked from
/// its lower-numbered vertex `low` to the other: those by `low` first.
pub open spec fn resolved_sign(o: Vec3, p: Vec3, low: Vec3, high: Vec3) -> Orientation {
    let first = leading(perturbation(o, p, high));
    let second = leading(perturbation(o, p, low)).reversed();
    if first != Orientation::Zero {
        first
    } else if second != Orientation::Zero {
        second
    } else {
        Orientation::Positive
    }
}

/// The sign of the edge function of the directed edge from vertex `i` to vertex
/// `j`, never zero.
pub open spec fn edge_sign(o: Vec3, p: Vec3, vi: Vec3, i: u32, vj: Vec3, j: u32) -> Orientation {
    let exact = orientation_of(orient3d_det(o, p, vi, vj));
    if exact != Orientation::Zero {
        exact
    } else if i < j {
        resolved_sign(o, p, vi, vj)
    } else {
        resolved_sign(o, p, vj, vi).reversed()
    }
}

/// Turning an edge round flips its sign, also where the exact determinant is
/// zero; and no sign is zero. So two triangles that share an edge never agree
/// about it.
pub proof fn law_edge_sign_is_antisymmetric(o: Vec3, p: Vec3, vi: Vec3, i: u32, vj: Vec3, j: u32)
    requires
        i != j,
    ensures
        edge_sign(o, p, vi, i, vj, j) != Orientation::Zero,
        edge_sign(o, p, vj, j, vi, i) == edge_sign(o, p, vi, i, vj, j).reversed(),
{
    law_orient3d_is_antisymmetric(o, p, vi, vj);
}

fn leading_of(o: Vec3, p: Vec3, v: Vec3) -> (r: Orientation)
    requires
        o.finite(),
        p.finite(),
        v.finite(),
    ensures
        r == leading(perturbation(o, p, v)),
{
    let x: Orientation = orient2d(Vec2::new(o.y, o.z), Vec2::new(p.y, p.z), Vec2::new(v.y, v.z));
    if x != Orientation::Zero {
        return x;
    }
    let y: Orientation = orient2d(Vec2::new(o.z, o.x), Vec2::new(p.z, p.x), Vec2::new(v.z, v.x));
    if y != Orientation::Zero {
        return y;
    }
    orient2d(Vec2::new(o.x, o.y), Vec2::new(p.x, p.y), Vec2::new(v.x, v.y))
}

fn resolve(o: Vec3, p: Vec3, low: Vec3, high: Vec3) -> (r: Orientation)
    requires
        o.finite(),
        p.finite(),
        low.finite(),
        high.finite(),
    ensures
        r == resolved_sign(o, p, low, high),
{
    let first: Orientation = leading_of(o, p, high);
    if first != Orientation::Zero {
        return first;
    }
    let second: Orientation = leading_of(o, p, low).reverse();
    if second != Orientation::Zero {
        return second;
    }
    Orientation::Positive
}

/// The sign of the edge function of a directed edge, never zero. The counter goes
/// up when the exact determinant was zero.
pub fn sos_edge_function(o: Vec3, p: Vec3, vi: Vec3, i: u32, vj: Vec3, j: u32, sos_used: &mut u64) -> (r: Orientation)
    requires
        o.finite(),
        p.finite(),
        vi.finite(),
        vj.finite(),
        *old(sos_used) < u64::MAX,
    ensures
        r == edge_sign(o, p, vi, i, vj, j),
        r != Orientation::Zero,
        *final(sos_used) == *old(sos_used) + (if orient3d_det(o, p, vi, vj) == 0 {
            1int
        } else {
            0
        }),
{
    let exact: Orientation = orient3d(o, p, vi, vj);
    if exact != Orientation::Zero {
        return exact;
    }
    *sos_used = *sos_used + 1;
    if i < j {
        resolve(o, p, vi, vj)
    } else {
        resolve(o, p, vj, vi).reverse()
    }
}

/// How a line passes a triangle.
#[derive(Clone, Copy, Debug, PartialEq, Eq, Structural)]
pub enum Crossing {
    /// It crosses; the common sign of the edge functions tells from which side.
    Hit {
        /// The common sign is positive.
        positive: bool,
    },
    /// It misses.
    Miss,
    /// It lies in the plane of the triangle.
    Coplanar,
}

/// How the line through `o` and `p` passes a triangle: it crosses where the signs
/// of all three edges agree, unless all three determinants vanish.
pub open spec fn crossing(o: Vec3, p: Vec3, tri: [Vec3; 3], idx: [u32; 3]) -> Crossing {
    let s0 = edge_sign(o, p, tri[0], idx[0], tri[1], idx[1]);
    let s1 = edge_sign(o, p, tri[1], idx[1], tri[2], idx[2]);
    let s2 = edge_sign(o, p, tri[2], idx[2], tri[0], idx[0]);
    if vanishing(o, p, tri) == 3 {
        Crossing::Coplanar
    } else if s0 == s1 && s1 == s2 {
        Crossing::Hit { positive: s0 == Orientation::Positive }
    } else {
        Crossing::Miss
    }
}

/// How many of the three edge functions vanish.
pub open spec fn vanishing(o: Vec3, p: Vec3, tri: [Vec3; 3]) -> int {
    zero_count(orient3d_det(o, p, tri[0], tri[1])) + zero_count(orient3d_det(o, p, tri[1], tri[2])) + zero_count(
        orient3d_det(o, p, tri[2], tri[0]),
    )
}

/// One for zero, and zero for all else.
pub open spec fn zero_count(d: int) -> int {
    if d == 0 {
        1
    } else {
        0
    }
}

/// Classifies a line against a triangle; also counts the vanishing edge
/// functions.
pub fn classify(o: Vec3, p: Vec3, tri: [Vec3; 3], idx: [u32; 3]) -> (r: (Crossing, u64))
    requires
        o.finite(),
        p.finite(),
        tri[0].finite(),
        tri[1].finite(),
        tri[2].finite(),
    ensures
        r.0 == crossing(o, p, tri, idx),
        r.1 == vanishing(o, p, tri),
{
    let mut vanished: u64 = 0;
    let s0: Orientation = sos_edge_function(o, p, tri[0], idx[0], tri[1], idx[1], &mut vanished);
    let s1: Orientation = sos_edge_function(o, p, tri[1], idx[1], tri[2], idx[2], &mut vanished);
    let s2: Orientation = sos_edge_function(o, p, tri[2], idx[2], tri[0], idx[0], &mut vanished);
    if vanished == 3 {
        return (Crossing::Coplanar, vanished);
    }
    if s0 == s1 && s1 == s2 {
        (Crossing::Hit { positive: s0 == Orientation::Positive }, vanished)
    } else {
        (Crossing::Miss, vanished)
    }
}

} // verus!
