//! A line against boxes and triangles.

use crate::arithmetic::{difference, product, quotient, sum};
use crate::double::{Double, HIDDEN, INFINITY_BITS, SIGN};
use crate::math::{
    cross_product, dot_product, greater, lesser, max_number, min_number, vector_difference, vector_sum, Aabb3, Ray, Vec3,
};
use crate::order::{law_order_is_value_order, law_rounding_fixes_doubles, law_rounding_keeps_order};
use crate::predicates::{orient3d_coords, orient3d_range, CoordRange};
use crate::sorting::Ranked;
use vstd::arithmetic::power2::*;
use vstd::prelude::*;

verus! {

/// A crossing of a line with the surface.
#[derive(Clone, Copy, Debug, PartialEq, Eq, Structural)]
pub struct Hit {
    /// The parameter of the crossing along the line.
    pub t: Double,
    /// The triangle that was crossed.
    pub triangle: u32,
    /// The line enters material here.
    pub entering: bool,
}

impl Ranked for Hit {
    open spec fn at_most(self, other: Self) -> bool {
        if self.t.total_key() != other.t.total_key() {
            self.t.total_key() < other.t.total_key()
        } else if self.triangle != other.triangle {
            self.triangle < other.triangle
        } else {
            self.entering ==> other.entering
        }
    }

    proof fn total(self, other: Self) {
    }

    proof fn transitive(self, mid: Self, other: Self) {
    }

    proof fn antisymmetric(self, other: Self) {
        assert(self.t.bits == other.t.bits);
    }

    fn is_at_most(self, other: Self) -> (r: bool) {
        let a: i64 = self.t.total_order();
        let b: i64 = other.t.total_order();
        if a != b {
            a < b
        } else if self.triangle != other.triangle {
            self.triangle < other.triangle
        } else {
            !self.entering || other.entering
        }
    }
}

/// Why a ray query could not be answered.
#[derive(Debug, PartialEq, Eq)]
pub enum RayError {
    /// A coordinate is outside the range of the exact predicates.
    OutOfRange {
        /// Which part of the ray: `origin` or `direction`.
        what: &'static str,
        /// The value.
        value: Double,
    },
    /// The direction was zero or not finite.
    DegenerateDirection {
        /// The direction.
        direction: Vec3,
    },
}

/// Zero in every component.
pub open spec fn zero_vector(v: Vec3) -> bool {
    v.x.zero() && v.y.zero() && v.z.zero()
}

/// The first component out of range, if any.
pub open spec fn out_of_range(v: Vec3) -> Option<Double> {
    if !orient3d_coords().admits(v.x) {
        Some(v.x)
    } else if !orient3d_coords().admits(v.y) {
        Some(v.y)
    } else if !orient3d_coords().admits(v.z) {
        Some(v.z)
    } else {
        None
    }
}

/// The ray can be answered for.
pub open spec fn castable(ray: Ray) -> bool {
    ray.direction.finite() && !zero_vector(ray.direction) && out_of_range(ray.origin) is None && out_of_range(
        ray.direction,
    ) is None
}

/// The error says why the ray cannot be answered for.
pub open spec fn explains(e: RayError, ray: Ray) -> bool {
    if !ray.direction.finite() || zero_vector(ray.direction) {
        e == (RayError::DegenerateDirection { direction: ray.direction })
    } else {
        match out_of_range(ray.origin) {
            Some(c) => e matches RayError::OutOfRange { what, value } && what@ == "origin"@ && value == c,
            None => match out_of_range(ray.direction) {
                Some(c) => e matches RayError::OutOfRange { what, value } && what@ == "direction"@ && value == c,
                None => false,
            },
        }
    }
}

fn find_out_of_range(v: Vec3) -> (r: Option<Double>)
    ensures
        r == out_of_range(v),
{
    let range: CoordRange = orient3d_range();
    if !range.contains(v.x) {
        Some(v.x)
    } else if !range.contains(v.y) {
        Some(v.y)
    } else if !range.contains(v.z) {
        Some(v.z)
    } else {
        None
    }
}

/// Rejects rays that the exact predicates cannot answer for.
pub(crate) fn check_ray(ray: &Ray) -> (r: Result<(), RayError>)
    ensures
        match r {
            Ok(_) => castable(*ray),
            Err(e) => !castable(*ray) && explains(e, *ray),
        },
{
    let d: Vec3 = ray.direction;
    if !d.is_finite() || (d.x.is_zero() && d.y.is_zero() && d.z.is_zero()) {
        return Err(RayError::DegenerateDirection { direction: d });
    }
    match find_out_of_range(ray.origin) {
        Some(value) => {
            return Err(RayError::OutOfRange { what: "origin", value });
        },
        None => {},
    }
    match find_out_of_range(d) {
        Some(value) => {
            return Err(RayError::OutOfRange { what: "direction", value });
        },
        None => {},
    }
    Ok(())
}

/// The sum of two numbers in range is finite.
proof fn lemma_sum_finite(a: Double, b: Double)
    requires
        a.finite(),
        b.finite(),
        orient3d_coords().admits(a),
        orient3d_coords().admits(b),
    ensures
        sum(a, b).finite(),
{
    let m = Double { bits: 0x54b2_49ad_2594_c37d };
    let w = Double { bits: (0x54b2_49ad_2594_c37d + HIDDEN) as u64 };
    let e = 0x54b2_49ad_2594_c37dint / 0x10_0000_0000_0000int;
    lemma_pow2_unfold(e as nat);
    assert(m.abs_bits() / (HIDDEN as int) == e);
    assert(w.abs_bits() / (HIDDEN as int) == e + 1);
    assert(w.abs_bits() % (HIDDEN as int) == m.abs_bits() % (HIDDEN as int));
    let f = HIDDEN as int + m.abs_bits() % (HIDDEN as int);
    assert(w.value() == f * pow2(e as nat));
    assert(m.value() == f * pow2((e - 1) as nat));
    assert(w.value() == 2 * m.value()) by (nonlinear_arith)
        requires
            w.value() == f * pow2(e as nat),
            m.value() == f * pow2((e - 1) as nat),
            pow2(e as nat) == 2 * pow2((e - 1) as nat),
    ;
    let n = m.negated();
    assert(n.value() == -m.value());
    assert(w.negated().value() == -w.value());
    law_order_is_value_order(a, m);
    law_order_is_value_order(n, a);
    law_order_is_value_order(b, m);
    law_order_is_value_order(n, b);
    let v = a.value() + b.value();
    law_rounding_keeps_order(v, w.value());
    law_rounding_keeps_order(-w.value(), v);
    law_rounding_fixes_doubles(w);
    law_rounding_fixes_doubles(w.negated());
}

/// A second point of the line of a ray.
pub open spec fn far_point(ray: Ray) -> Vec3 {
    vector_sum(ray.origin, ray.direction)
}

/// A second point of a line in range is finite.
pub(crate) proof fn lemma_far_point(ray: Ray)
    requires
        castable(ray),
    ensures
        ray.origin.finite(),
        far_point(ray).finite(),
{
    lemma_sum_finite(ray.origin.x, ray.direction.x);
    lemma_sum_finite(ray.origin.y, ray.direction.y);
    lemma_sum_finite(ray.origin.z, ray.direction.z);
}

/// The parameter at which a line meets the plane of a triangle, where rounding
/// leaves one.
pub open spec fn plane_meeting(o: Vec3, d: Vec3, tri: [Vec3; 3]) -> Option<Double> {
    let n = cross_product(vector_difference(tri[1], tri[0]), vector_difference(tri[2], tri[0]));
    let denom = dot_product(d, n);
    let t = quotient(dot_product(vector_difference(tri[0], o), n), denom);
    if denom.zero() || !denom.finite() || !t.finite() {
        None
    } else {
        Some(t)
    }
}

pub(crate) fn plane_parameter(o: Vec3, d: Vec3, tri: [Vec3; 3]) -> (r: Option<Double>)
    ensures
        r == plane_meeting(o, d, tri),
{
    let n: Vec3 = tri[1].minus(tri[0]).cross(tri[2].minus(tri[0]));
    let denom: Double = d.dot(n);
    if denom.is_zero() || !denom.is_finite() {
        return None;
    }
    let t: Double = tri[0].minus(o).dot(n).over(denom);
    if t.is_finite() {
        Some(t)
    } else {
        None
    }
}

/// What remains of an interval of the line within one slab of a box, or nothing.
pub open spec fn slab_step(
    so_far: Option<(Double, Double)>,
    lo: Double,
    hi: Double,
    o: Double,
    d: Double,
    inv: Double,
) -> Option<(Double, Double)> {
    match so_far {
        None => None,
        Some((t_min, t_max)) => if d.zero() {
            if o.lt(lo) || hi.lt(o) {
                None
            } else {
                so_far
            }
        } else {
            let a = product(difference(lo, o), inv);
            let b = product(difference(hi, o), inv);
            let (t1, t2) = if b.lt(a) {
                (b, a)
            } else {
                (a, b)
            };
            let near = greater(t_min, t1);
            let far = lesser(t_max, t2);
            if far.lt(near) {
                None
            } else {
                Some((near, far))
            }
        },
    }
}

/// The line may pass the box.
#[verifier::opaque]
pub open spec fn slabs(b: Aabb3, o: Vec3, d: Vec3, inv: Vec3) -> bool {
    let all = Some((Double { bits: (INFINITY_BITS + SIGN) as u64 }, Double { bits: INFINITY_BITS }));
    let x = slab_step(all, b.min.x, b.max.x, o.x, d.x, inv.x);
    let y = slab_step(x, b.min.y, b.max.y, o.y, d.y, inv.y);
    let z = slab_step(y, b.min.z, b.max.z, o.z, d.z, inv.z);
    !b.empty() && z is Some
}

fn cut(t_min: Double, t_max: Double, lo: Double, hi: Double, o: Double, d: Double, inv: Double) -> (r: Option<(Double, Double)>)
    ensures
        r == slab_step(Some((t_min, t_max)), lo, hi, o, d, inv),
{
    if d.is_zero() {
        if o.less(lo) || hi.less(o) {
            return None;
        }
        return Some((t_min, t_max));
    }
    let a: Double = lo.minus(o).times(inv);
    let b: Double = hi.minus(o).times(inv);
    let (t1, t2) = if b.less(a) { (b, a) } else { (a, b) };
    let near: Double = max_number(t_min, t1);
    let far: Double = min_number(t_max, t2);
    if far.less(near) {
        None
    } else {
        Some((near, far))
    }
}

/// Conservative overlap of a line with a box. An axis along which the line does
/// not move is a containment test.
pub fn slab_test(b: &Aabb3, origin: Vec3, dir: Vec3, inv: Vec3) -> (r: bool)
    ensures
        r == slabs(*b, origin, dir, inv),
{
    proof {
        reveal(slabs);
    }
    if b.is_empty() {
        return false;
    }
    let low: Double = Double::from_bits(INFINITY_BITS + SIGN);
    let high: Double = Double::from_bits(INFINITY_BITS);
    match cut(low, high, b.min.x, b.max.x, origin.x, dir.x, inv.x) {
        None => false,
        Some((t0, t1)) => match cut(t0, t1, b.min.y, b.max.y, origin.y, dir.y, inv.y) {
            None => false,
            Some((u0, u1)) => match cut(u0, u1, b.min.z, b.max.z, origin.z, dir.z, inv.z) {
                None => false,
                Some(_) => true,
            },
        },
    }
}

} // verus!
