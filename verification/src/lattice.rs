//! The lattice that parallel rays stand on.

use crate::arithmetic::{difference, of_int, product, quotient, sum};
use crate::double::Double;
use crate::math::{Aabb3, Axis, Vec3};
use crate::mesh::weld::{nearest_whole, round_whole};
use vstd::prelude::*;

verus! {

/// The axes across a direction, in cyclic order, and the direction itself.
pub open spec fn cyclic_of(a: Axis) -> Seq<int> {
    match a {
        Axis::X => seq![1int, 2, 0],
        Axis::Y => seq![2int, 0, 1],
        Axis::Z => seq![0int, 1, 2],
    }
}

/// The axes across a direction, in cyclic order, and the direction itself.
pub fn cyclic(a: Axis) -> (r: (usize, usize, usize))
    ensures
        seq![r.0 as int, r.1 as int, r.2 as int] == cyclic_of(a),
        r.0 == cyclic_of(a)[0],
        r.1 == cyclic_of(a)[1],
        r.2 == cyclic_of(a)[2],
{
    match a {
        Axis::X => (1, 2, 0),
        Axis::Y => (2, 0, 1),
        Axis::Z => (0, 1, 2),
    }
}

/// A lattice of rays along an axis. Pairs are for the two axes across it, in
/// cyclic order.
#[derive(Clone, Copy, Debug, PartialEq, Eq, Structural)]
pub struct Lattice {
    /// The axis that the rays run along.
    pub axis: Axis,
    /// The lower corner of the workspace.
    pub origin: Vec3,
    /// The spacing of the rays along the first axis.
    pub spacing_u: Double,
    /// The spacing of the rays along the second axis.
    pub spacing_v: Double,
    /// The rays along the first axis.
    pub count_u: u32,
    /// The rays along the second axis.
    pub count_v: u32,
    /// The extent of the workspace along the first axis.
    pub extent_u: Double,
    /// The extent of the workspace along the second axis.
    pub extent_v: Double,
    /// The extent of the workspace along the rays.
    pub length: Double,
    /// By how much the cells reach past the workspace along the first axis.
    pub pad_u: Double,
    /// By how much the cells reach past the workspace along the second axis.
    pub pad_v: Double,
}

/// A vector with one component replaced.
pub open spec fn with_component(v: Vec3, k: int, x: Double) -> Vec3 {
    if k == 0 {
        Vec3 { x, ..v }
    } else if k == 1 {
        Vec3 { y: x, ..v }
    } else {
        Vec3 { z: x, ..v }
    }
}

/// A vector with one component replaced.
pub(crate) fn replace_component(v: Vec3, k: usize, x: Double) -> (r: Vec3)
    ensures
        r == with_component(v, k as int, x),
{
    if k == 0 {
        Vec3::new(x, v.y, v.z)
    } else if k == 1 {
        Vec3::new(v.x, x, v.z)
    } else {
        Vec3::new(v.x, v.y, x)
    }
}

/// One half.
pub open spec fn half() -> Double {
    Double { bits: 0x3fe0_0000_0000_0000 }
}

/// The middle of cell `i`, from a lower corner that the cells reach past.
pub open spec fn cell_middle(corner: Double, pad: Double, spacing: Double, i: int) -> Double {
    sum(difference(corner, pad), product(sum(of_int(i), half()), spacing))
}

/// The cell whose middle a coordinate is, if it is within a thousandth of one;
/// the first cell, where the coordinate comes to no number.
pub open spec fn cell_of(p: Double, corner: Double, pad: Double, spacing: Double, count: u32) -> Option<u32> {
    let raw = difference(quotient(sum(difference(p, corner), pad), spacing), half());
    match nearest_whole(raw) {
        None => if raw.nan() && count > 0 {
            Some(0)
        } else {
            None
        },
        Some(n) => if (Double { bits: 0x3f50_624d_d2f1_a9fc }).lt(difference(raw, of_int(n as int)).absolute()) {
            None
        } else if 0 <= n < count {
            Some(n as u32)
        } else {
            None
        },
    }
}

fn find_cell(p: Double, corner: Double, pad: Double, spacing: Double, count: u32) -> (r: Option<u32>)
    ensures
        r == cell_of(p, corner, pad, spacing, count),
{
    let raw: Double = p.minus(corner).plus(pad).over(spacing).minus(Double::from_bits(0x3fe0_0000_0000_0000));
    match round_whole(raw) {
        None => if raw.is_nan() && count > 0 {
            Some(0)
        } else {
            None
        },
        Some(n) => {
            let off: Double = raw.minus(Double::from_i64(n)).abs();
            if Double::from_bits(0x3f50_624d_d2f1_a9fc).less(off) {
                None
            } else if 0 <= n && n < count as i64 {
                Some(n as u32)
            } else {
                None
            }
        },
    }
}

impl Lattice {
    /// The number of rays.
    pub open spec fn rays(self) -> int {
        self.count_u * self.count_v
    }

    /// The rays can be numbered.
    pub open spec fn wf(self) -> bool {
        self.rays() <= u32::MAX
    }

    /// Where the ray in cell `(i, j)` starts.
    pub open spec fn start(self, i: int, j: int) -> Vec3 {
        let u = cyclic_of(self.axis)[0];
        let v = cyclic_of(self.axis)[1];
        with_component(
            with_component(self.origin, u, cell_middle(self.origin.at(u), self.pad_u, self.spacing_u, i)),
            v,
            cell_middle(self.origin.at(v), self.pad_v, self.spacing_v, j),
        )
    }

    /// The cell of the ray through a point.
    pub open spec fn cell_at(self, p: Vec3) -> Option<(u32, u32)> {
        let u = cyclic_of(self.axis)[0];
        let v = cyclic_of(self.axis)[1];
        match (
            cell_of(p.at(u), self.origin.at(u), self.pad_u, self.spacing_u, self.count_u),
            cell_of(p.at(v), self.origin.at(v), self.pad_v, self.spacing_v, self.count_v),
        ) {
            (Some(i), Some(j)) => Some((i, j)),
            _ => None,
        }
    }

    /// The number of rays.
    pub fn ray_count(&self) -> (n: u32)
        requires
            self.wf(),
        ensures
            n == self.rays(),
    {
        self.count_u * self.count_v
    }

    /// The number of the ray in a cell: row by row.
    pub fn index(&self, i: u32, j: u32) -> (n: u32)
        requires
            self.wf(),
            i < self.count_u,
            j < self.count_v,
        ensures
            n == j * self.count_u + i,
            n < self.rays(),
    {
        proof {
            assert(j * self.count_u + i < self.count_u * self.count_v && j * self.count_u >= 0) by (nonlinear_arith)
                requires
                    0 <= i < self.count_u,
                    0 <= j < self.count_v,
            ;
        }
        j * self.count_u + i
    }

    /// The cell of a ray.
    pub fn coords(&self, ray: u32) -> (r: (u32, u32))
        requires
            ray < self.rays(),
        ensures
            r.0 == ray as int % self.count_u as int,
            r.1 == ray as int / self.count_u as int,
            r.0 < self.count_u,
            r.1 < self.count_v,
    {
        proof {
            assert(self.count_u > 0) by (nonlinear_arith)
                requires
                    0 <= ray < self.count_u * self.count_v,
            ;
            vstd::arithmetic::div_mod::lemma_fundamental_div_mod(ray as int, self.count_u as int);
            let q = ray as int / self.count_u as int;
            assert(q < self.count_v) by (nonlinear_arith)
                requires
                    self.count_u * q <= ray < self.count_u * self.count_v,
                    self.count_u > 0,
            ;
        }
        (ray % self.count_u, ray / self.count_u)
    }

    /// Where the ray in a cell starts.
    pub fn origin_of(&self, i: u32, j: u32) -> (p: Vec3)
        ensures
            p == self.start(i as int, j as int),
    {
        let (u, v, w) = cyclic(self.axis);
        let h: Double = Double::from_bits(0x3fe0_0000_0000_0000);
        let x: Double = self.origin.component(u).minus(self.pad_u).plus(
            Double::from_i64(i as i64).plus(h).times(self.spacing_u),
        );
        let y: Double = self.origin.component(v).minus(self.pad_v).plus(
            Double::from_i64(j as i64).plus(h).times(self.spacing_v),
        );
        replace_component(replace_component(self.origin, u, x), v, y)
    }

    /// Which ray passes through a point.
    pub fn ray_at_point(&self, p: Vec3) -> (r: Option<(u32, u32)>)
        ensures
            r == self.cell_at(p),
            r matches Some(c) ==> c.0 < self.count_u && c.1 < self.count_v,
    {
        let (u, v, w) = cyclic(self.axis);
        let i: Option<u32> = find_cell(
            p.component(u),
            self.origin.component(u),
            self.pad_u,
            self.spacing_u,
            self.count_u,
        );
        let j: Option<u32> = find_cell(
            p.component(v),
            self.origin.component(v),
            self.pad_v,
            self.spacing_v,
            self.count_v,
        );
        match (i, j) {
            (Some(i), Some(j)) => Some((i, j)),
            _ => None,
        }
    }

    /// The workspace that the lattice covers: the box it was built from, and not
    /// that of its cells.
    pub fn workspace(&self) -> (b: Aabb3)
        ensures
            b.min == self.origin,
            ({
                let c = cyclic_of(self.axis);
                &&& b.max.at(c[0]) == sum(self.origin.at(c[0]), self.extent_u)
                &&& b.max.at(c[1]) == sum(self.origin.at(c[1]), self.extent_v)
                &&& b.max.at(c[2]) == sum(self.origin.at(c[2]), self.length)
            }),
    {
        let (u, v, w) = cyclic(self.axis);
        let o: Vec3 = self.origin;
        let a: Vec3 = replace_component(o, u, o.component(u).plus(self.extent_u));
        let b: Vec3 = replace_component(a, v, o.component(v).plus(self.extent_v));
        let c: Vec3 = replace_component(b, w, o.component(w).plus(self.length));
        Aabb3::new(o, c)
    }
}

} // verus!
