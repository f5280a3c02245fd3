//! That the boxes of motions hold the tool, and that spans are drawn out by a plunge.

use crate::arithmetic::{difference, product, quotient, rounded, sum};
use crate::coverage_laws::law_pushing_all_keeps_points;
use crate::double::Double;
use crate::error_bounds::{law_quotient_error, law_signs_multiply, lemma_magnitude_not_negative};
use crate::math::{box_around, box_union, law_box_around_holds, Aabb3, Axis, Ray, Vec3};
use crate::order::{law_order_is_value_order, law_rounding_fixes_doubles, law_rounding_keeps_order};
use crate::spans::{covers, Span};
use crate::sweep::cut::{passes, within};
use crate::sweep::path::widened;
use crate::sweep::plunge::{dilated, lie_of, plunge_covers};
use crate::sweep::whole_laws::divides;
use crate::sweep::{tool_box, LinearMove, ToolExtent};
use vstd::prelude::*;

verus! {

/// No number lies between an exact sum and the rounded one.
pub proof fn law_sum_passes_no_number(a: Double, b: Double, x: Double)
    requires
        a.finite() && b.finite() && x.finite(),
    ensures
        x.value() <= a.value() + b.value() ==> x.le(sum(a, b)),
        x.value() >= a.value() + b.value() ==> sum(a, b).le(x),
        x.value() <= a.value() - b.value() ==> x.le(difference(a, b)),
        x.value() >= a.value() - b.value() ==> difference(a, b).le(x),
        !sum(a, b).nan(),
        !difference(a, b).nan(),
{
    assert(b.negated().abs_bits() == b.abs_bits());
    assert(b.negated().value() == -b.value());
    law_rounding_fixes_doubles(x);
    lemma_sum_key(a, b, x);
    lemma_sum_key(a, b.negated(), x);
}

proof fn lemma_sum_key(a: Double, b: Double, x: Double)
    requires
        a.finite() && b.finite() && x.finite(),
    ensures
        x.value() <= a.value() + b.value() ==> x.le(sum(a, b)),
        x.value() >= a.value() + b.value() ==> sum(a, b).le(x),
        !sum(a, b).nan(),
{
    let v = a.value() + b.value();
    let zero = Double { bits: 0 };
    law_rounding_fixes_doubles(x);
    law_rounding_keeps_order(v, v);
    law_order_is_value_order(x, zero);
    law_order_is_value_order(zero, x);
    assert(rounded(x.value()).key() == x.key());
    if v != 0 {
        if x.value() <= v {
            law_rounding_keeps_order(x.value(), v);
        }
        if x.value() >= v {
            law_rounding_keeps_order(v, x.value());
        }
    } else {
        assert(sum(a, b).zero());
        law_order_is_value_order(x, sum(a, b));
        law_order_is_value_order(sum(a, b), x);
    }
}

/// A point is no farther from a tip than the tool reaches: its greatest radius to
/// either side, and its length above the tip, exactly.
pub open spec fn reaches(tool: ToolExtent, tip: Vec3, q: Vec3) -> bool {
    &&& tip.x.value() - tool.max_radius.value() <= q.x.value() <= tip.x.value() + tool.max_radius.value()
    &&& tip.y.value() - tool.max_radius.value() <= q.y.value() <= tip.y.value() + tool.max_radius.value()
    &&& tip.z.value() <= q.z.value() <= tip.z.value() + tool.total_length.value()
}

/// One number lies between two others, whichever of these is the greater.
pub open spec fn amid(a: Double, x: Double, b: Double) -> bool {
    (a.value() <= x.value() <= b.value()) || (b.value() <= x.value() <= a.value())
}

/// The box of a tool at a tip holds every point that the tool reaches.
pub proof fn law_tool_box_is_its_reach(tool: ToolExtent, tip: Vec3, q: Vec3)
    requires
        tip.finite() && q.finite() && tool.max_radius.finite() && tool.total_length.finite(),
    ensures
        reaches(tool, tip, q) ==> tool_box(tool, tip).holds(q),
{
    law_sum_passes_no_number(tip.x, tool.max_radius, q.x);
    law_sum_passes_no_number(tip.y, tool.max_radius, q.y);
    law_sum_passes_no_number(tip.z, tool.total_length, q.z);
    law_order_is_value_order(tip.z, q.z);
}

/// The box of a straight motion holds every point that the tool reaches from any tip
/// on the way.
pub proof fn law_motion_box_holds_the_way(motion: LinearMove, tool: ToolExtent, tip: Vec3, q: Vec3)
    requires
        motion.start.finite() && motion.end.finite() && tip.finite() && q.finite(),
        tool.max_radius.finite() && tool.total_length.finite(),
        amid(motion.start.x, tip.x, motion.end.x),
        amid(motion.start.y, tip.y, motion.end.y),
        amid(motion.start.z, tip.z, motion.end.z),
        reaches(tool, tip, q),
    ensures
        box_union(tool_box(tool, motion.start), tool_box(tool, motion.end)).holds(q),
{
    let (s, e, r, h) = (motion.start, motion.end, tool.max_radius, tool.total_length);
    law_sum_passes_no_number(s.x, r, q.x);
    law_sum_passes_no_number(e.x, r, q.x);
    law_sum_passes_no_number(s.y, r, q.y);
    law_sum_passes_no_number(e.y, r, q.y);
    law_sum_passes_no_number(s.z, h, q.z);
    law_sum_passes_no_number(e.z, h, q.z);
    law_order_is_value_order(s.z, q.z);
    law_order_is_value_order(e.z, q.z);
}

/// The box of a path holds every point that the tool reaches from any of the tips.
pub proof fn law_path_box_holds_the_tool(points: Seq<Vec3>, tool: ToolExtent, i: int, q: Vec3)
    requires
        0 <= i < points.len(),
        forall|j: int| 0 <= j < points.len() ==> (#[trigger] points[j]).finite(),
        q.finite(),
        tool.max_radius.finite() && tool.total_length.finite(),
        reaches(tool, points[i], q),
        ({
            let b = box_around(points, points.len());
            b.min.finite() && b.max.finite()
        }),
    ensures
        widened(box_around(points, points.len()), tool).holds(q),
{
    let b = box_around(points, points.len());
    let p = points[i];
    law_box_around_holds(points, points.len(), i);
    law_order_is_value_order(b.min.x, p.x);
    law_order_is_value_order(p.x, b.max.x);
    law_order_is_value_order(b.min.y, p.y);
    law_order_is_value_order(p.y, b.max.y);
    law_order_is_value_order(b.min.z, p.z);
    law_order_is_value_order(p.z, b.max.z);
    law_sum_passes_no_number(b.min.x, tool.max_radius, q.x);
    law_sum_passes_no_number(b.max.x, tool.max_radius, q.x);
    law_sum_passes_no_number(b.min.y, tool.max_radius, q.y);
    law_sum_passes_no_number(b.max.y, tool.max_radius, q.y);
    law_sum_passes_no_number(b.max.z, tool.total_length, q.z);
    law_order_is_value_order(b.min.z, q.z);
}

/// No ray that meets a box is passed over: where a point of the box differs from the
/// origin of a ray along the axis of the ray only, the ray passes the box.
pub proof fn law_meeting_rays_pass(bounds: Aabb3, axis: Axis, origin: Vec3, spacing: Double, q: Vec3)
    requires
        bounds.min.finite() && bounds.max.finite() && origin.finite(),
        spacing.finite() && !spacing.signed(),
        bounds.holds(q),
        q.finite(),
        axis == Axis::X || origin.x.same(q.x),
        axis == Axis::Y || origin.y.same(q.y),
        axis == Axis::Z || origin.z.same(q.z),
        product(Double { bits: 0x3fe0_0000_0000_0000 }, spacing).finite(),
    ensures
        passes(bounds, axis, origin, spacing),
{
    let slack = product(Double { bits: 0x3fe0_0000_0000_0000 }, spacing);
    law_signs_multiply(Double { bits: 0x3fe0_0000_0000_0000 }, spacing);
    lemma_magnitude_not_negative(slack);
    assert forall|k: int| 0 <= k < 3 && k != axis.number() implies within(
        #[trigger] origin.at(k),
        bounds.min.at(k),
        bounds.max.at(k),
        slack,
    ) by {
        let (p, lo, hi) = (origin.at(k), bounds.min.at(k), bounds.max.at(k));
        law_order_is_value_order(lo, p);
        law_order_is_value_order(p, hi);
        law_sum_passes_no_number(lo, slack, p);
        law_sum_passes_no_number(hi, slack, p);
    }
}

/// Drawing out a span by a shift covers what the span covers on the way of the shift:
/// every number between one of the span and that one shifted. It covers nothing that
/// lies beyond both the span and the shifted span.
pub proof fn law_drawing_out_covers_the_way(s: Span, shift: Double, t: Double, u: Double)
    requires
        s.t0.finite() && s.t1.finite() && shift.finite() && t.finite() && u.finite(),
        s.t0.value() <= t.value() <= s.t1.value(),
        s.t0.value() <= s.t1.value(),
    ensures
        t.value() <= u.value() <= t.value() + shift.value() || t.value() + shift.value() <= u.value() <= t.value()
            ==> dilated(s, shift).t0.le(u) && u.le(dilated(s, shift).t1),
        u.value() < s.t0.value() && u.value() < s.t0.value() + shift.value() ==> u.le(dilated(s, shift).t0),
        u.value() > s.t1.value() && u.value() > s.t1.value() + shift.value() ==> dilated(s, shift).t1.le(u),
{
    let zero = Double { bits: 0 };
    assert(zero.value() == 0);
    law_order_is_value_order(shift, zero);
    law_sum_passes_no_number(s.t0, shift, u);
    law_sum_passes_no_number(s.t1, shift, u);
    law_sum_passes_no_number(s.t0, zero, u);
    law_sum_passes_no_number(s.t1, zero, u);
    law_sum_passes_no_number(s.t0, zero, s.t0);
    law_sum_passes_no_number(s.t1, zero, s.t1);
    law_sum_passes_no_number(s.t0, zero, s.t1);
    law_sum_passes_no_number(s.t1, shift, s.t0);
    law_sum_passes_no_number(s.t0, shift, s.t1);
}

/// What a plunge covers of a ray along it: what the tool covers at the start is drawn
/// out by the displacement, told in the parameter of the ray. The shift, times the
/// direction of the ray, is the displacement, up to rounding; whatever lies between a
/// point of the ray in the tool and that point shifted is covered.
pub proof fn law_plunge_covers_the_way(
    motion: LinearMove,
    ray: Ray,
    base: Seq<Span>,
    radius: Double,
    shift: Double,
    i: int,
    t: Double,
    u: Double,
)
    requires
        lie_of(ray) is Along,
        motion.step().z.finite() && ray.direction.z.finite() && !ray.direction.z.zero(),
        shift == quotient(motion.step().z, ray.direction.z),
        shift.finite(),
        0 <= i < base.len(),
        base[i].valid(),
        base[i].t0.finite() && base[i].t1.finite() && t.finite() && u.finite(),
        base[i].t0.value() <= t.value() <= base[i].t1.value(),
        t.value() <= u.value() < t.value() + shift.value() || t.value() + shift.value() <= u.value() < t.value(),
        u.lt(sum(base[i].t1, shift)) || u.lt(base[i].t1),
    ensures
        divides(shift, motion.step().z, ray.direction.z),
        covers(plunge_covers(motion, ray, base, radius), u.key()),
{
    let s = base[i];
    let zero = Double { bits: 0 };
    assert(zero.value() == 0);
    law_quotient_error(motion.step().z, ray.direction.z);
    law_order_is_value_order(s.t0, s.t1);
    law_drawing_out_covers_the_way(s, shift, t, u);
    let d = dilated(s, shift);
    let more = Seq::new(base.len(), |j: int| dilated(base[j], shift));
    assert(more[i] == d);
    law_order_is_value_order(shift, zero);
    law_order_is_value_order(u, s.t1);
    law_sum_passes_no_number(s.t1, zero, s.t1);
    law_sum_passes_no_number(s.t0, zero, s.t1);
    law_sum_passes_no_number(s.t0, shift, s.t1);
    law_sum_passes_no_number(s.t1, shift, s.t0);
    law_sum_passes_no_number(s.t1, shift, s.t1);
    law_sum_passes_no_number(s.t0, zero, s.t0);
    law_sum_passes_no_number(s.t0, shift, s.t0);
    assert(u.lt(d.t1));
    assert(d.valid() && d.holds(u.key()));
    law_pushing_all_keeps_points(Seq::empty(), more, base.len(), u.key());
}

} // verus!
