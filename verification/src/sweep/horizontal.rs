//! Level moves: two static tools and the prism between them.
//!
//! In a frame along the motion, the prism is the cross-section of the tool between
//! two planes. A ray is cast against the cross-section at unit speed, the spans
//! are brought back to the parameter of the ray, and the planes clip them.

use crate::arithmetic::{difference, product, quotient, sum};
use crate::double::{Double, INFINITY_BITS, SIGN};
use crate::math::{OctNormal, Ray, Vec2, Vec3};
use crate::span_laws::{law_outcome_is_the_result, outcome};
use crate::spans::{pushed, pushed_all, SetOp, Span, Spans};
use crate::sweep::arc::DEGENERATE;
use crate::sweep::reference::{between, unite_pieces};
use crate::sweep::{hypot, plane_length, LinearMove};
use vstd::prelude::*;

verus! {

/// The whole line.
pub open spec fn whole_line() -> Span {
    Span {
        t0: Double { bits: (INFINITY_BITS + SIGN) as u64 },
        t1: Double { bits: INFINITY_BITS },
        n0: OctNormal::unknown(),
        n1: OctNormal::unknown(),
    }
}

/// The whole line.
pub(crate) fn everything() -> (s: Span)
    ensures
        s == whole_line(),
{
    Span::new(Double::from_bits(INFINITY_BITS + SIGN), Double::from_bits(INFINITY_BITS))
}

/// Two bounds, the lesser first.
pub open spec fn in_order(a: Double, b: Double) -> Span {
    Span {
        t0: if a.le(b) {
            a
        } else {
            b
        },
        t1: if a.le(b) {
            b
        } else {
            a
        },
        n0: OctNormal::unknown(),
        n1: OctNormal::unknown(),
    }
}

/// Where `a0 + t * da` lies in `[0, length]`.
pub open spec fn slab_of(a0: Double, da: Double, length: Double) -> Option<Span> {
    if da.absolute().le(Double { bits: DEGENERATE }) {
        if (Double { bits: 0 }).le(a0) && a0.le(length) {
            Some(whole_line())
        } else {
            None
        }
    } else {
        Some(in_order(quotient(a0.negated(), da), quotient(difference(length, a0), da)))
    }
}

/// The interval of `t` for which `a0 + t * da` lies in `[0, length]`: all or
/// nothing, where `da` is negligible.
pub fn slab_interval(a0: Double, da: Double, length: Double) -> (r: Option<Span>)
    ensures
        r == slab_of(a0, da, length),
{
    if da.abs().at_most(Double::from_bits(DEGENERATE)) {
        if Double::zeroed().at_most(a0) && a0.at_most(length) {
            Some(everything())
        } else {
            None
        }
    } else {
        let s: Span = Span::ordered(a0.negate().over(da), length.minus(a0).over(da));
        assert(s == in_order(quotient(a0.negated(), da), quotient(difference(length, a0), da)));
        Some(s)
    }
}

/// A ray in the frame of a level motion.
#[derive(Clone, Copy, Debug, PartialEq, Eq, Structural)]
pub struct PrismRay {
    /// The direction across the motion.
    pub across: Vec2,
    /// The interval between the two end planes, if the ray ever is there.
    pub slab: Option<Span>,
    /// Offset across the motion.
    pub offset: Double,
    /// Height above the tip.
    pub height: Double,
    /// Change of the offset for a unit of the parameter.
    pub offset_rate: Double,
    /// Change of the height for a unit of the parameter.
    pub height_rate: Double,
}

/// A product of two vectors of the plane.
pub open spec fn dot2(ax: Double, ay: Double, bx: Double, by: Double) -> Double {
    sum(product(ax, bx), product(ay, by))
}

/// A ray in the frame of a level motion.
pub open spec fn framed(motion: LinearMove, ray: Ray) -> PrismRay {
    let length = motion.level_length();
    let (ux, uy) = (quotient(motion.step().x, length), quotient(motion.step().y, length));
    let (vx, vy) = (uy.negated(), ux);
    let (px, py) = (difference(ray.origin.x, motion.start.x), difference(ray.origin.y, motion.start.y));
    let d = ray.direction;
    PrismRay {
        across: Vec2 { x: vx, y: vy },
        slab: slab_of(dot2(px, py, ux, uy), dot2(d.x, d.y, ux, uy), length),
        offset: dot2(px, py, vx, vy),
        height: difference(ray.origin.z, motion.start.z),
        offset_rate: dot2(d.x, d.y, vx, vy),
        height_rate: d.z,
    }
}

/// Brings a ray into the frame of a level motion.
pub fn frame(motion: &LinearMove, ray: &Ray) -> (r: PrismRay)
    ensures
        r == framed(*motion, *ray),
{
    let length: Double = motion.horizontal();
    let step: Vec3 = motion.delta();
    let ux: Double = step.x.over(length);
    let uy: Double = step.y.over(length);
    let vx: Double = uy.negate();
    let vy: Double = ux;
    let px: Double = ray.origin.x.minus(motion.start.x);
    let py: Double = ray.origin.y.minus(motion.start.y);
    let d: Vec3 = ray.direction;
    PrismRay {
        across: Vec2::new(vx, vy),
        slab: slab_interval(px.times(ux).plus(py.times(uy)), d.x.times(ux).plus(d.y.times(uy)), length),
        offset: px.times(vx).plus(py.times(vy)),
        height: ray.origin.z.minus(motion.start.z),
        offset_rate: d.x.times(vx).plus(d.y.times(vy)),
        height_rate: d.z,
    }
}

impl PrismRay {
    /// How fast the ray moves through the cross-section.
    pub open spec fn speed_of(self) -> Double {
        plane_length(self.offset_rate, self.height_rate)
    }

    /// How fast the ray moves through the cross-section.
    pub fn speed(&self) -> (r: Double)
        ensures
            r == self.speed_of(),
    {
        hypot(self.offset_rate, self.height_rate)
    }

    /// The ray through the cross-section, at unit speed; none, where the ray runs
    /// along the motion.
    pub open spec fn section(self) -> Option<Ray> {
        if self.speed_of().le(Double { bits: DEGENERATE }) {
            None
        } else {
            let zero = Double { bits: 0 };
            Some(
                Ray {
                    origin: Vec3 { x: self.offset, y: zero, z: self.height },
                    direction: Vec3 {
                        x: quotient(self.offset_rate, self.speed_of()),
                        y: zero,
                        z: quotient(self.height_rate, self.speed_of()),
                    },
                },
            )
        }
    }

    /// The ray to cast against the cross-section, at unit speed; none, where the
    /// ray runs along the motion and is inside all the way or nowhere.
    pub fn cross_section_ray(&self) -> (r: Option<Ray>)
        ensures
            r == self.section(),
    {
        let speed: Double = self.speed();
        if speed.at_most(Double::from_bits(DEGENERATE)) {
            return None;
        }
        let zero: Double = Double::zeroed();
        Some(
            Ray {
                origin: Vec3::new(self.offset, zero, self.height),
                direction: Vec3::new(self.offset_rate.over(speed), zero, self.height_rate.over(speed)),
            },
        )
    }
}

/// A normal of the cross-section, in the world: nothing of it lies along the
/// motion.
pub open spec fn restored(n: OctNormal, across: Vec2) -> OctNormal {
    OctNormal {
        direction: match n.direction {
            Some(v) => Some(Vec3 { x: product(v.x, across.x), y: product(v.x, across.y), z: v.z }),
            None => None,
        },
    }
}

/// A span of the cross-section, in the parameter of the ray.
pub open spec fn rescaled(s: Span, speed: Double, across: Vec2) -> Span {
    Span {
        t0: quotient(s.t0, speed),
        t1: quotient(s.t1, speed),
        n0: restored(s.n0, across),
        n1: restored(s.n1, across),
    }
}

fn restore(n: OctNormal, across: Vec2) -> (r: OctNormal)
    ensures
        r == restored(n, across),
{
    match n.decode() {
        Some(v) => {
            let r: OctNormal = OctNormal::encode(Vec3::new(v.x.times(across.x), v.x.times(across.y), v.z));
            r
        },
        None => OctNormal::placeholder(),
    }
}

/// What the prism covers of a ray, from what its cross-section does: the spans
/// brought back, and clipped to the slab.
pub open spec fn prism_of(p: PrismRay, cross: Seq<Span>) -> Seq<Span> {
    let back = pushed_all(
        Seq::empty(),
        Seq::new(cross.len(), |i: int| rescaled(cross[i], p.speed_of(), p.across)),
        cross.len(),
    );
    let slab = p.slab->Some_0;
    let clipped = outcome(
        SetOp::Intersect,
        back,
        if slab.valid() && slab.long() {
            seq![slab]
        } else {
            Seq::empty()
        },
    );
    pushed_all(Seq::empty(), clipped, clipped.len())
}

/// What the prism covers of a ray that enters the slab, from what its
/// cross-section covers of [`PrismRay::cross_section_ray`].
pub fn prism_spans(p: &PrismRay, cross: &Spans) -> (r: Spans)
    requires
        p.slab is Some,
    ensures
        r.wf(),
        r@ == prism_of(*p, cross@),
{
    let speed: Double = p.speed();
    let mut back: Vec<Span> = Vec::new();
    let mut i: usize = 0;
    while i < cross.spans.len()
        invariant
            i <= cross@.len(),
            speed == p.speed_of(),
            back@ == Seq::new(i as nat, |j: int| rescaled(cross@[j], p.speed_of(), p.across)),
        decreases cross@.len() - i,
    {
        let s: Span = cross.spans[i];
        back.push(
            Span::with_normals(s.t0.over(speed), s.t1.over(speed), restore(s.n0, p.across), restore(s.n1, p.across)),
        );
        i = i + 1;
        assert(back@ =~= Seq::new(i as nat, |j: int| rescaled(cross@[j], p.speed_of(), p.across)));
    }
    let mut set: Spans = Spans::new();
    set.push_all(back.as_slice());
    let slab: Span = match p.slab {
        Some(s) => s,
        None => everything(),
    };
    let clipped: Spans = set.clipped_to(slab);
    proof {
        let window = if slab.valid() && slab.long() {
            seq![slab]
        } else {
            Seq::empty()
        };
        law_outcome_is_the_result(SetOp::Intersect, set@, window, clipped@);
    }
    let mut r: Spans = Spans::new();
    r.push_all(clipped.as_slice());
    r
}

/// What the middle of a level move covers of a ray: nothing outside the slab; of a
/// ray along the motion all of the slab or nothing; else what the prism does.
pub open spec fn middle_of(p: PrismRay, inside: bool, cross: Seq<Span>) -> Seq<Span> {
    if p.slab is None {
        Seq::empty()
    } else if p.speed_of().le(Double { bits: DEGENERATE }) {
        if inside {
            pushed(Seq::empty(), p.slab->Some_0)
        } else {
            Seq::empty()
        }
    } else {
        prism_of(p, cross)
    }
}

/// The middle of a level move. `inside` says whether the tool holds the point at
/// the offset and height of a ray along the motion, `cross` what the tool covers
/// of [`PrismRay::cross_section_ray`] for any other.
pub fn prism_spans_into(p: &PrismRay, inside: bool, cross: &Spans, out: &mut Spans)
    ensures
        final(out).wf(),
        final(out)@ == middle_of(*p, inside, cross@),
{
    let mut r: Spans = Spans::new();
    if let Some(slab) = p.slab {
        if p.speed().at_most(Double::from_bits(DEGENERATE)) {
            if inside {
                r.push_merge(slab);
            }
        } else {
            r = prism_spans(p, cross);
        }
    }
    *out = r;
}

/// What a level move covers of a ray, from what the tool covers at either end and
/// the middle of [`prism_spans_into`].
pub fn swept_spans_into(start: &Spans, end: &Spans, middle: &Spans, out: &mut Spans)
    requires
        start.wf(),
        end.wf(),
        middle.wf(),
    ensures
        final(out).wf(),
        final(out)@ == between(start@, end@, middle@),
{
    *out = unite_pieces(start, end, middle);
}

} // verus!
