//! The closed form of a level arc, put together.

use crate::arithmetic::{difference, sum};
use crate::double::Double;
use crate::math::{Ray, Vec2, Vec3};
use crate::spans::{Span, Spans};
use crate::sweep::arc::{across_spans, annulus_of, chord_of, wedge_of, wedge_pieces, ArcMove, ArcPlane};
use crate::sweep::plunge::{lie, lie_of, Lie};
use crate::sweep::reference::{between, unite_pieces};
use crate::sweep::{hypot, plane_length};
use vstd::prelude::*;

verus! {

/// The closed form of a level arc applies: to a ray along its axis, and to one
/// across it where the tool has no undercuts.
pub open spec fn arc_applies(arc: ArcMove, ray: Ray, convex: bool) -> bool {
    arc.plane == ArcPlane::Xy && !arc.rising() && match lie_of(ray) {
        Lie::Along => true,
        Lie::Across => convex,
        Lie::Oblique => false,
    }
}

/// The ray that the tool at rest is asked for, for a ray along the axis of the
/// arc: the same ray, as far from the tool as it is from the circle.
pub open spec fn upright_of(arc: ArcMove, ray: Ray) -> Ray {
    let d = plane_length(difference(ray.origin.x, arc.center.x), difference(ray.origin.y, arc.center.y));
    Ray {
        origin: Vec3 {
            x: difference(d, arc.radius).absolute(),
            y: Double { bits: 0 },
            z: difference(ray.origin.z, arc.z),
        },
        direction: ray.direction,
    }
}

/// The ray that the tool at rest is to be asked for, for a ray along the axis of
/// the arc whose bearing from the centre is given. None outside the wedge.
pub fn upright_ray(arc: &ArcMove, ray: &Ray, bearing: Double) -> (r: Option<Ray>)
    ensures
        r == if arc.sweeps_over(bearing) {
            Some(upright_of(*arc, *ray))
        } else {
            None
        },
{
    if !arc.wedge_contains(bearing) {
        return None;
    }
    let d: Double = hypot(ray.origin.x.minus(arc.center.x), ray.origin.y.minus(arc.center.y));
    Some(
        Ray {
            origin: Vec3::new(d.minus(arc.radius).abs(), Double::zeroed(), ray.origin.z.minus(arc.z)),
            direction: ray.direction,
        },
    )
}

/// What the middle of a level arc covers of a ray across its axis.
pub open spec fn ring_of(arc: ArcMove, ray: Ray, rho: Double, first: Vec2, second: Vec2) -> Seq<Span> {
    if rho.le(Double { bits: 0 }) || chord_of(
        arc.center.x,
        arc.center.y,
        ray,
        sum(arc.radius, rho),
    ) is None {
        Seq::empty()
    } else {
        let wedge = wedge_of(arc, ray, first, second);
        wedge_pieces(annulus_of(arc, ray, rho), wedge, wedge.len())
    }
}

/// The middle of a level arc, without normals. Of a ray along the axis it is what
/// the tool covers of [`upright_ray`], which is nothing outside the wedge; of one
/// across it, what the ring of the tool does.
pub fn middle_spans_into(
    arc: &ArcMove,
    ray: &Ray,
    upright: Option<&Spans>,
    rho: Double,
    first: Vec2,
    second: Vec2,
    out: &mut Spans,
)
    requires
        upright matches Some(s) ==> s.wf(),
    ensures
        final(out).wf(),
        final(out)@ == if lie_of(*ray) is Along {
            match upright {
                Some(s) => s@,
                None => Seq::empty(),
            }
        } else {
            ring_of(*arc, *ray, rho, first, second)
        },
{
    match lie(ray) {
        Lie::Along => {
            match upright {
                Some(s) => {
                    *out = s.clone();
                },
                None => {
                    *out = Spans::new();
                },
            }
        },
        _ => {
            *out = across_spans(arc, ray, rho, first, second);
        },
    }
}

/// What a level arc covers of a ray, from what the tool covers at either end and
/// the middle. False, with the set left alone, where the closed form does not
/// apply.
pub fn swept_spans_into(
    arc: &ArcMove,
    ray: &Ray,
    convex: bool,
    start: &Spans,
    end: &Spans,
    middle: &Spans,
    out: &mut Spans,
) -> (r: bool)
    requires
        start.wf(),
        end.wf(),
        middle.wf(),
    ensures
        r == arc_applies(*arc, *ray, convex),
        if r {
            final(out).wf() && final(out)@ == between(start@, end@, middle@)
        } else {
            *final(out) == *old(out)
        },
{
    if !arc.is_level_xy() {
        return false;
    }
    let applies: bool = match lie(ray) {
        Lie::Along => true,
        Lie::Across => convex,
        Lie::Oblique => false,
    };
    if !applies {
        return false;
    }
    *out = unite_pieces(start, end, middle);
    true
}

} // verus!
