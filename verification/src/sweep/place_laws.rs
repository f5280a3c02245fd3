//! Where a tool that passes along an arc is nearest, and which way the walls of a level
//! motion face.

use crate::arithmetic::{difference, product, quotient};
use crate::double::Double;
use crate::error_bounds::{law_product_error, law_quotient_error, lemma_magnitude_not_negative, parts, size, whole};
use crate::exactness::{is_whole, law_short_sums_are_exact};
use crate::math::{OctNormal, Ray, Vec2, Vec3};
use crate::order::law_order_is_value_order;
use crate::sweep::arc::ArcMove;
use crate::sweep::closed::upright_of;
use crate::sweep::horizontal::restored;
use crate::sweep::plane_length;
use crate::sweep::whole_laws::{displaced, divides, law_length_is_the_hypotenuse, lemma_displaced, modest};
use vstd::arithmetic::mul::*;
use vstd::arithmetic::power2::{lemma_pow2_pos, pow2};
use vstd::prelude::*;

verus! {

/// For a ray along the axis of an arc the tool at rest is asked for a ray as far from
/// its axis as the ray is from the circle of the arc, inside or outside of it, at the
/// same height above the tip and in the same direction: in integers, exactly.
pub proof fn law_upright_ray_is_as_far_as_the_circle(
    arc: ArcMove,
    ray: Ray,
    k: (int, int, int),
    o: (int, int, int),
    r: int,
    d: int,
)
    requires
        is_whole(arc.center.x, k.0) && is_whole(arc.center.y, k.1) && is_whole(arc.z, k.2) && is_whole(arc.radius, r),
        is_whole(ray.origin.x, o.0) && is_whole(ray.origin.y, o.1) && is_whole(ray.origin.z, o.2),
        modest(o.0 - k.0) && modest(o.1 - k.1) && modest(o.2 - k.2) && modest(r) && 0 <= d <= 0x20_0000,
        (o.0 - k.0) * (o.0 - k.0) + (o.1 - k.1) * (o.1 - k.1) == d * d,
    ensures
        ({
            let u = upright_of(arc, ray);
            &&& is_whole(u.origin.x, size(d - r)) && is_whole(u.origin.y, 0) && is_whole(u.origin.z, o.2 - k.2)
            &&& u.direction == ray.direction
        }),
{
    law_short_sums_are_exact(ray.origin.x, arc.center.x, o.0, k.0, 1074);
    law_short_sums_are_exact(ray.origin.y, arc.center.y, o.1, k.1, 1074);
    law_short_sums_are_exact(ray.origin.z, arc.z, o.2, k.2, 1074);
    let (x, y) = (difference(ray.origin.x, arc.center.x), difference(ray.origin.y, arc.center.y));
    law_length_is_the_hypotenuse(x, y, o.0 - k.0, o.1 - k.1, d);
    let l = plane_length(x, y);
    law_short_sums_are_exact(l, arc.radius, d, r, 1074);
    let g = difference(l, arc.radius);
    lemma_magnitude_not_negative(g);
    assert(g.absolute().abs_bits() == g.abs_bits());
    lemma_magnitude_not_negative(g.absolute());
    let w = pow2(1074) as int;
    lemma_pow2_pos(1074);
    let e = d - r;
    assert((e >= 0 ==> e * w >= 0) && (e <= 0 ==> e * w <= 0) && (-e) * w == -(e * w)) by (nonlinear_arith)
        requires
            w > 0,
    ;
    lemma_magnitude_not_negative(Double { bits: 0 });
    assert(0 * w == 0);
}

/// The tip that is nearest a point on a level arc lies from the centre as far as the
/// radius, in the direction of the point, up to rounding, and at the height of the arc.
pub proof fn law_nearest_tip_is_towards_the_point(arc: ArcMove, p: Vec3)
    requires
        ({
            let (x, y) = (difference(p.x, arc.center.x), difference(p.y, arc.center.y));
            let d = plane_length(x, y);
            &&& x.finite() && y.finite() && d.finite() && (Double { bits: 0 }).lt(d)
            &&& quotient(x, d).finite() && quotient(y, d).finite()
            &&& product(arc.radius, quotient(x, d)).finite() && product(arc.radius, quotient(y, d)).finite()
        }),
        arc.center.finite() && arc.radius.finite(),
        arc.nearest_tip(p).x.finite() && arc.nearest_tip(p).y.finite(),
    ensures
        ({
            let (x, y) = (difference(p.x, arc.center.x), difference(p.y, arc.center.y));
            let d = plane_length(x, y);
            let tip = arc.nearest_tip(p);
            &&& tip.z == arc.z
            &&& exists|ux: Double, uy: Double|
                #![trigger displaced(tip.x, arc.center.x, arc.radius, ux), displaced(tip.y, arc.center.y, arc.radius, uy)]
                displaced(tip.x, arc.center.x, arc.radius, ux) && displaced(tip.y, arc.center.y, arc.radius, uy) && divides(
                    ux,
                    x,
                    d,
                ) && divides(uy, y, d)
        }),
{
    let (x, y) = (difference(p.x, arc.center.x), difference(p.y, arc.center.y));
    let d = plane_length(x, y);
    let zero = Double { bits: 0 };
    lemma_magnitude_not_negative(zero);
    law_order_is_value_order(zero, d);
    lemma_magnitude_not_negative(d);
    assert(!d.zero());
    law_quotient_error(x, d);
    law_quotient_error(y, d);
    let (ux, uy) = (quotient(x, d), quotient(y, d));
    lemma_displaced(arc.center.x, arc.radius, ux);
    lemma_displaced(arc.center.y, arc.radius, uy);
    let tip = arc.nearest_tip(p);
    assert(displaced(tip.x, arc.center.x, arc.radius, ux) && displaced(tip.y, arc.center.y, arc.radius, uy));
}

/// A number is a product, up to rounding.
pub open spec fn multiplies(x: Double, a: Double, b: Double) -> bool {
    let exact = a.value() * b.value();
    size(x.value() * whole() - exact) * parts() <= size(exact) + parts() * whole()
}

/// A normal of the cross-section keeps its height in the world, and what it has across
/// the motion lies along the direction across: nothing of it lies along the motion. One
/// that is not known stays so.
pub proof fn law_normals_face_across_the_motion(n: OctNormal, across: Vec2)
    requires
        n.direction matches Some(v) ==> v.finite() && across.x.finite() && across.y.finite() && product(v.x, across.x).finite()
            && product(v.x, across.y).finite(),
    ensures
        n.direction is None ==> restored(n, across).direction is None,
        n.direction matches Some(v) ==> (restored(n, across).direction matches Some(r) && r.z == v.z && multiplies(
            r.x,
            v.x,
            across.x,
        ) && multiplies(r.y, v.x, across.y)),
{
    if let Some(v) = n.direction {
        law_product_error(v.x, across.x);
        law_product_error(v.x, across.y);
        lemma_pow2_pos(1074);
        let (k, w) = (parts(), whole());
        assert(crate::double::HIDDEN * w <= k * w) by (nonlinear_arith)
            requires
                k == 2 * crate::double::HIDDEN,
                w > 0,
        ;
    }
}

} // verus!
