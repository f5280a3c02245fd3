//! Motion of the tool tip along a circle or a helix.

use crate::arithmetic::{difference, of_int, product, quotient, sum};
use crate::double::{Double, INFINITY_BITS, SIGN};
use crate::math::{greater, lesser, max_number, min_number, Ray, Vec2, Vec3};
use crate::remainder::positive_remainder;
use crate::span_laws::{law_outcome_is_the_result, outcome};
use crate::spans::{pushed_all, SetOp, Span, Spans};
use crate::square_root::root;
use crate::sweep::horizontal::{dot2, everything, in_order, whole_line};
use crate::sweep::{hypot, plane_length, LinearMove};
use vstd::prelude::*;

verus! {

/// Bits of the length up to which a direction or a rise counts as none.
pub const DEGENERATE: u64 = 0x3d71_9799_812d_ea11;

/// Bits of a full turn, in radians.
pub const TURN: u64 = 0x4019_21fb_5444_2d18;

/// The plane that an arc turns in.
#[derive(Clone, Copy, Debug, PartialEq, Eq, Hash, Structural)]
pub enum ArcPlane {
    /// About the z axis.
    Xy,
    /// About the y axis.
    Zx,
    /// About the x axis.
    Yz,
}

/// An arc of the tool tip.
#[derive(Clone, Copy, Debug, PartialEq, Eq, Hash, Structural)]
pub struct ArcMove {
    /// Centre of curvature.
    pub center: Vec3,
    /// Radius.
    pub radius: Double,
    /// Bearing of the start, in radians.
    pub start_angle: Double,
    /// Signed sweep in radians, positive counter-clockwise.
    pub sweep: Double,
    /// Height of the tip at the start.
    pub z: Double,
    /// The plane that the arc turns in.
    pub plane: ArcPlane,
    /// Rise over the whole sweep.
    pub rise: Double,
}

impl ArcMove {
    /// The rise is not negligible.
    pub open spec fn rising(self) -> bool {
        (Double { bits: DEGENERATE }).lt(self.rise.absolute())
    }

    /// The length of the path of the tip.
    pub open spec fn helical_length(self) -> Double {
        plane_length(product(self.radius, self.sweep), self.rise)
    }

    /// The quarter of the angle between two of `n` steps.
    pub open spec fn quarter_angle(self, n: int) -> Double {
        quotient(quotient(self.sweep.absolute(), of_int(n)), Double { bits: 0x4010_0000_0000_0000 })
    }

    /// How far `n` steps may lie from the arc, where `sine` is the sine of the
    /// quarter of the angle between two of them: at the middle between two steps,
    /// around the circle and along the axis.
    pub open spec fn deviation(self, n: int, sine: Double) -> Double {
        let two = Double { bits: 0x4000_0000_0000_0000 };
        plane_length(
            product(product(two, self.radius), sine),
            quotient(quotient(self.rise.absolute(), of_int(n)), two),
        )
    }

    /// The arc turns at least once.
    pub open spec fn full(self) -> bool {
        (Double { bits: TURN }).le(self.sweep.absolute())
    }

    /// How far behind the start a bearing lies, in the sense of the sweep.
    pub open spec fn angle_behind(self, angle: Double) -> Double {
        if (Double { bits: 0 }).le(self.sweep) {
            positive_remainder(difference(angle, self.start_angle), Double { bits: TURN })
        } else {
            positive_remainder(difference(self.start_angle, angle), Double { bits: TURN })
        }
    }

    /// A bearing lies in the swept wedge.
    pub open spec fn sweeps_over(self, angle: Double) -> bool {
        self.full() || self.angle_behind(angle).le(sum(self.sweep.absolute(), Double { bits: DEGENERATE }))
    }

    /// True if a bearing, in radians, lies in the swept wedge.
    pub fn wedge_contains(&self, angle: Double) -> (r: bool)
        ensures
            r == self.sweeps_over(angle),
    {
        let turn: Double = Double::from_bits(TURN);
        if turn.at_most(self.sweep.abs()) {
            return true;
        }
        let behind: Double = if Double::zeroed().at_most(self.sweep) {
            angle.minus(self.start_angle).rem_euclid(turn)
        } else {
            self.start_angle.minus(angle).rem_euclid(turn)
        };
        behind.at_most(self.sweep.abs().plus(Double::from_bits(DEGENERATE)))
    }

    /// True if the tip rises on its way.
    pub fn is_helix(&self) -> (r: bool)
        ensures
            r == self.rising(),
    {
        Double::from_bits(DEGENERATE).less(self.rise.abs())
    }

    /// True if the arc turns about the axis of the tool and does not rise.
    pub fn is_level_xy(&self) -> (r: bool)
        ensures
            r == (self.plane == ArcPlane::Xy && !self.rising()),
    {
        self.plane == ArcPlane::Xy && !self.is_helix()
    }

    /// The length of the path of the tip: of the helix, not of its chord.
    pub fn path_length(&self) -> (r: Double)
        ensures
            r == self.helical_length(),
    {
        hypot(self.radius.times(self.sweep), self.rise)
    }

    /// The angle whose sine [`ArcMove::deviation_bound`] wants, in radians.
    pub fn quarter_step(&self, steps: u32) -> (r: Double)
        requires
            steps > 0,
        ensures
            r == self.quarter_angle(steps as int),
    {
        self.sweep.abs().over(Double::from_i64(steps as i64)).over(Double::from_bits(0x4010_0000_0000_0000))
    }

    /// Worst distance from a point of the path to the nearest of `steps` evenly
    /// spaced positions on it.
    pub fn deviation_bound(&self, steps: u32, sine: Double) -> (r: Double)
        requires
            steps > 0,
        ensures
            r == self.deviation(steps as int, sine),
    {
        let two: Double = Double::from_bits(0x4000_0000_0000_0000);
        let axial: Double = self.rise.abs().over(Double::from_i64(steps as i64));
        hypot(two.times(self.radius).times(sine), axial.over(two))
    }
}

/// A motion of any kind.
#[derive(Clone, Copy, Debug, PartialEq, Eq, Hash, Structural)]
pub enum Motion {
    /// Along a line.
    Linear(LinearMove),
    /// Along an arc or a helix.
    Arc(ArcMove),
}

/// Where a ray lies in a disc about a centre, in plan: half a chord to either
/// side of the closest approach. None where it touches or misses the disc.
pub open spec fn chord_of(cx: Double, cy: Double, ray: Ray, radius: Double) -> Option<Span> {
    let (ox, oy) = (difference(ray.origin.x, cx), difference(ray.origin.y, cy));
    let (dx, dy) = (ray.direction.x, ray.direction.y);
    let speed = dot2(dx, dy, dx, dy);
    let closest = quotient(dot2(ox, oy, dx, dy).negated(), speed);
    let (mx, my) = (sum(ox, product(dx, closest)), sum(oy, product(dy, closest)));
    let inside = difference(product(radius, radius), dot2(mx, my, mx, my));
    let half = quotient(root(inside), root(speed));
    if speed.le(Double { bits: 0 }) || inside.le(Double { bits: 0 }) {
        None
    } else {
        Some(in_order(difference(closest, half), sum(closest, half)))
    }
}

/// The interval where a ray lies inside a disc about a centre, in plan.
pub fn disc_chord(cx: Double, cy: Double, ray: &Ray, radius: Double) -> (r: Option<Span>)
    ensures
        r == chord_of(cx, cy, *ray, radius),
{
    let zero: Double = Double::zeroed();
    let ox: Double = ray.origin.x.minus(cx);
    let oy: Double = ray.origin.y.minus(cy);
    let dx: Double = ray.direction.x;
    let dy: Double = ray.direction.y;
    let speed: Double = dx.times(dx).plus(dy.times(dy));
    if speed.at_most(zero) {
        return None;
    }
    let closest: Double = ox.times(dx).plus(oy.times(dy)).negate().over(speed);
    let mx: Double = ox.plus(dx.times(closest));
    let my: Double = oy.plus(dy.times(closest));
    let inside: Double = radius.times(radius).minus(mx.times(mx).plus(my.times(my)));
    if inside.at_most(zero) {
        return None;
    }
    let half: Double = inside.sqrt().over(speed.sqrt());
    let s: Span = Span::ordered(closest.minus(half), closest.plus(half));
    assert(s == in_order(difference(closest, half), sum(closest, half)));
    Some(s)
}

/// Where `a + t * b` is not negative.
pub open spec fn half_line(a: Double, b: Double) -> Option<Span> {
    let crossing = quotient(a.negated(), b);
    if b.absolute().le(Double { bits: DEGENERATE }) {
        if (Double { bits: 0 }).le(a) {
            Some(whole_line())
        } else {
            None
        }
    } else if (Double { bits: 0 }).lt(b) {
        Some(Span { t0: crossing, ..whole_line() })
    } else {
        Some(Span { t1: crossing, ..whole_line() })
    }
}

/// Where a ray from the offset `(ox, oy)` lies to the left of the direction `u`,
/// or to its right.
pub open spec fn side_of_boundary(u: Vec2, ox: Double, oy: Double, ray: Ray, left: bool) -> Option<Span> {
    let d = ray.direction;
    if left {
        half_line(
            difference(product(u.x, oy), product(u.y, ox)),
            difference(product(u.x, d.y), product(u.y, d.x)),
        )
    } else {
        half_line(
            difference(product(ox, u.y), product(oy, u.x)),
            difference(product(d.x, u.y), product(d.y, u.x)),
        )
    }
}

/// The interval where the ray lies on one side of a boundary through the centre.
pub fn half_plane(u: Vec2, ox: Double, oy: Double, ray: &Ray, left: bool) -> (r: Option<Span>)
    ensures
        r == side_of_boundary(u, ox, oy, *ray, left),
{
    let d: Vec3 = ray.direction;
    let (a, b) = if left {
        (u.x.times(oy).minus(u.y.times(ox)), u.x.times(d.y).minus(u.y.times(d.x)))
    } else {
        (ox.times(u.y).minus(oy.times(u.x)), d.x.times(u.y).minus(d.y.times(u.x)))
    };
    if b.abs().at_most(Double::from_bits(DEGENERATE)) {
        return if Double::zeroed().at_most(a) {
            Some(everything())
        } else {
            None
        };
    }
    let crossing: Double = a.negate().over(b);
    if Double::zeroed().less(b) {
        Some(Span::new(crossing, Double::from_bits(INFINITY_BITS)))
    } else {
        Some(Span::new(Double::from_bits(INFINITY_BITS + SIGN), crossing))
    }
}

/// Half a turn in radians.
pub open spec fn half_turn() -> Double {
    Double { bits: 0x4009_21fb_5444_2d18 }
}

/// A whole turn in radians.
pub open spec fn full_turn() -> Double {
    Double { bits: 0x4019_21fb_5444_2d18 }
}

/// The part common to two half-lines, if there is any.
pub open spec fn common(a: Span, b: Span) -> Seq<Span> {
    let lo = greater(a.t0, b.t0);
    let hi = lesser(a.t1, b.t1);
    if lo.lt(hi) {
        seq![Span { t0: lo, t1: hi, ..whole_line() }]
    } else {
        Seq::empty()
    }
}

/// A half-line as a list.
pub open spec fn listed(s: Option<Span>) -> Seq<Span> {
    match s {
        Some(x) => seq![x],
        None => Seq::empty(),
    }
}

/// Where the bearing of a ray lies in the wedge that is swept from the direction
/// `first` to `second`, counter-clockwise: everywhere after a whole turn, between
/// the boundaries up to half a turn, and beside either of them beyond.
pub open spec fn wedge_of(arc: ArcMove, ray: Ray, first: Vec2, second: Vec2) -> Seq<Span> {
    let (ox, oy) = (difference(ray.origin.x, arc.center.x), difference(ray.origin.y, arc.center.y));
    let after = side_of_boundary(first, ox, oy, ray, true);
    let before = side_of_boundary(second, ox, oy, ray, false);
    if full_turn().le(arc.sweep.absolute()) {
        seq![whole_line()]
    } else if arc.sweep.absolute().le(half_turn()) {
        match (after, before) {
            (Some(a), Some(b)) => common(a, b),
            _ => Seq::empty(),
        }
    } else {
        listed(after) + listed(before)
    }
}

/// The intervals where the ray's bearing from the centre lies in the wedge, whose
/// boundary directions are given in counter-clockwise order.
pub fn wedge_intervals(arc: &ArcMove, ray: &Ray, first: Vec2, second: Vec2) -> (v: Vec<Span>)
    ensures
        v@ == wedge_of(*arc, *ray, first, second),
{
    let mut v: Vec<Span> = Vec::new();
    let swept: Double = arc.sweep.abs();
    if Double::from_bits(0x4019_21fb_5444_2d18).at_most(swept) {
        v.push(everything());
        assert(v@ =~= seq![whole_line()]);
        return v;
    }
    let ox: Double = ray.origin.x.minus(arc.center.x);
    let oy: Double = ray.origin.y.minus(arc.center.y);
    let after: Option<Span> = half_plane(first, ox, oy, ray, true);
    let before: Option<Span> = half_plane(second, ox, oy, ray, false);
    if swept.at_most(Double::from_bits(0x4009_21fb_5444_2d18)) {
        if let Some(a) = after {
            if let Some(b) = before {
                let lo: Double = max_number(a.t0, b.t0);
                let hi: Double = min_number(a.t1, b.t1);
                if lo.less(hi) {
                    v.push(Span::new(lo, hi));
                    assert(v@ =~= common(a, b));
                }
            }
        }
    } else {
        if let Some(a) = after {
            v.push(a);
        }
        if let Some(b) = before {
            v.push(b);
        }
        assert(v@ =~= listed(after) + listed(before));
    }
    v
}

/// What the annulus about an arc covers of a ray across its axis: the chord of
/// the outer disc, without that of the inner one.
pub open spec fn annulus_of(arc: ArcMove, ray: Ray, rho: Double) -> Seq<Span> {
    let inner = difference(arc.radius, rho);
    match chord_of(arc.center.x, arc.center.y, ray, sum(arc.radius, rho)) {
        None => Seq::empty(),
        Some(outer) => {
            let disc = one_span(outer);
            match chord_of(arc.center.x, arc.center.y, ray, inner) {
                Some(hole) => if (Double { bits: 0 }).lt(inner) {
                    outcome(SetOp::Difference, disc, one_span(hole))
                } else {
                    disc
                },
                None => disc,
            }
        },
    }
}

/// A set of one span, if it is long enough to keep.
pub open spec fn one_span(s: Span) -> Seq<Span> {
    if s.valid() && s.long() {
        seq![s]
    } else {
        Seq::empty()
    }
}

/// The pieces of an annulus in the first `n` intervals of a wedge.
pub open spec fn wedge_pieces(annulus: Seq<Span>, wedge: Seq<Span>, n: nat) -> Seq<Span>
    decreases n,
{
    if n == 0 {
        Seq::empty()
    } else {
        let piece = outcome(SetOp::Intersect, annulus, one_span(wedge[n - 1]));
        pushed_all(wedge_pieces(annulus, wedge, (n - 1) as nat), piece, piece.len())
    }
}

/// What the middle of a level arc covers of a ray across its axis, where `rho` is
/// the radius of the tool at the height of the ray and the directions bound the
/// wedge.
pub fn across_spans(arc: &ArcMove, ray: &Ray, rho: Double, first: Vec2, second: Vec2) -> (r: Spans)
    ensures
        r.wf(),
        r@ == if rho.le(Double { bits: 0 }) || chord_of(
            arc.center.x,
            arc.center.y,
            *ray,
            sum(arc.radius, rho),
        ) is None {
            Seq::empty()
        } else {
            let wedge = wedge_of(*arc, *ray, first, second);
            wedge_pieces(annulus_of(*arc, *ray, rho), wedge, wedge.len())
        },
{
    let mut r: Spans = Spans::new();
    if rho.at_most(Double::zeroed()) {
        return r;
    }
    let cx: Double = arc.center.x;
    let cy: Double = arc.center.y;
    let outer: Span = match disc_chord(cx, cy, ray, arc.radius.plus(rho)) {
        Some(s) => s,
        None => {
            return r;
        },
    };
    let mut annulus: Spans = Spans::from_span(outer);
    let inner: Double = arc.radius.minus(rho);
    if Double::zeroed().less(inner) {
        if let Some(hole) = disc_chord(cx, cy, ray, inner) {
            let gap: Spans = Spans::from_span(hole);
            let rest: Spans = annulus.subtract(&gap);
            proof {
                law_outcome_is_the_result(SetOp::Difference, annulus@, gap@, rest@);
            }
            annulus = rest;
        }
    }
    let wedge: Vec<Span> = wedge_intervals(arc, ray, first, second);
    assert(annulus@ == annulus_of(*arc, *ray, rho));
    let mut i: usize = 0;
    while i < wedge.len()
        invariant
            i <= wedge@.len(),
            annulus.wf(),
            r.wf(),
            r@ == wedge_pieces(annulus@, wedge@, i as nat),
        decreases wedge@.len() - i,
    {
        let piece: Spans = annulus.clipped_to(wedge[i]);
        proof {
            law_outcome_is_the_result(SetOp::Intersect, annulus@, one_span(wedge@[i as int]), piece@);
        }
        r.push_all(piece.as_slice());
        i = i + 1;
    }
    r
}

} // verus!
