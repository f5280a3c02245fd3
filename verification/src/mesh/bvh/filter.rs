//! The floating-point filter in front of the exact edge functions.
//!
//! An edge function that is large against what rounding can have done to it needs
//! no exact arithmetic. How large it must be, as a multiple of the product of its
//! rows, is the margin. The filter is only counted here: the signs that decide are
//! the exact ones, whatever the margin.

use crate::arithmetic::product;
use crate::double::Double;
use crate::math::{cross_product, dot_product, greater, max_number, vector_difference, Vec3};
use vstd::prelude::*;

verus! {

/// The greatest component of a vector, in absolute value.
pub open spec fn extent(v: Vec3) -> Double {
    greater(greater(v.x.absolute(), v.y.absolute()), v.z.absolute())
}

/// An edge function, rounded at each step.
pub open spec fn estimate(o: Vec3, p: Vec3, a: Vec3, b: Vec3) -> Double {
    dot_product(vector_difference(o, b), cross_product(vector_difference(p, b), vector_difference(a, b)))
}

/// What an estimate must exceed.
pub open spec fn doubt(o: Vec3, p: Vec3, a: Vec3, b: Vec3, margin: Double) -> Double {
    product(
        product(product(extent(vector_difference(o, b)), extent(vector_difference(p, b))), extent(vector_difference(a, b))),
        margin,
    )
}

/// The estimate of an edge function is beyond doubt.
pub open spec fn sure_edge(o: Vec3, p: Vec3, a: Vec3, b: Vec3, margin: Double) -> bool {
    (Double { bits: 0 }).lt(doubt(o, p, a, b, margin)) && doubt(o, p, a, b, margin).lt(estimate(o, p, a, b).absolute())
}

/// The estimates of all edge functions of a triangle are beyond doubt.
pub open spec fn sure(o: Vec3, p: Vec3, t: [Vec3; 3], margin: Double) -> bool {
    sure_edge(o, p, t[0], t[1], margin) && sure_edge(o, p, t[1], t[2], margin) && sure_edge(o, p, t[2], t[0], margin)
}

fn find_extent(v: Vec3) -> (r: Double)
    ensures
        r == extent(v),
{
    max_number(max_number(v.x.abs(), v.y.abs()), v.z.abs())
}

fn is_sure_edge(o: Vec3, p: Vec3, a: Vec3, b: Vec3, margin: Double) -> (r: bool)
    ensures
        r == sure_edge(o, p, a, b, margin),
{
    let r1: Vec3 = o.minus(b);
    let r2: Vec3 = p.minus(b);
    let r3: Vec3 = a.minus(b);
    let limit: Double = find_extent(r1).times(find_extent(r2)).times(find_extent(r3)).times(margin);
    Double::zeroed().less(limit) && limit.less(r1.dot(r2.cross(r3)).abs())
}

/// Whether the filter alone could decide a triangle.
pub fn is_sure(o: Vec3, p: Vec3, t: [Vec3; 3], margin: Double) -> (r: bool)
    ensures
        r == sure(o, p, t, margin),
{
    is_sure_edge(o, p, t[0], t[1], margin) && is_sure_edge(o, p, t[1], t[2], margin) && is_sure_edge(
        o,
        p,
        t[2],
        t[0],
        margin,
    )
}

} // verus!
