//! Vertical moves.
//!
//! Along the plunge the spans of the static tool are dilated. Across it the swept
//! solid is a disc, whose radius is the greatest that the tool has over the
//! heights that pass.

use crate::arithmetic::{difference, of_int, product, quotient, sum};
use crate::double::Double;
use crate::math::{greater, max_number, Ray, Vec2};
use crate::spans::{pushed_all, Span, Spans};
use crate::sweep::arc::{chord_of, disc_chord, DEGENERATE};
use crate::sweep::horizontal::in_order;
use crate::sweep::{hypot, plane_length, LinearMove, ToolExtent};
use vstd::prelude::*;

verus! {

/// Samples taken of the heights, and of the radii at each, by
/// [`is_radially_convex`].
pub const CONVEXITY_SAMPLES: u32 = 64;

/// A straight piece of a tool's profile, between points of radius and height.
#[derive(Clone, Copy, Debug, PartialEq, Eq, Structural)]
pub struct ProfileSegment {
    /// Where it starts.
    pub start: Vec2,
    /// Where it ends.
    pub end: Vec2,
}

/// The greater of a radius so far and the radius of a point, if the point lies in
/// the window.
pub open spec fn considered(best: Double, p: Vec2, lo: Double, hi: Double) -> Double {
    if lo.le(p.y) && p.y.le(hi) {
        greater(best, p.x)
    } else {
        best
    }
}

fn consider(best: Double, p: Vec2, lo: Double, hi: Double) -> (r: Double)
    ensures
        r == considered(best, p, lo, hi),
{
    if lo.at_most(p.y) && p.y.at_most(hi) {
        max_number(best, p.x)
    } else {
        best
    }
}

/// The radius so far, with the point of a segment at a height considered.
pub open spec fn crossed(best: Double, s: ProfileSegment, edge: Double, lo: Double, hi: Double) -> Double {
    let rise = difference(s.end.y, s.start.y);
    let f = quotient(difference(edge, s.start.y), rise);
    if (Double { bits: DEGENERATE }).lt(rise.absolute()) && (Double { bits: 0 }).le(f) && f.le(
        Double { bits: 0x3ff0_0000_0000_0000 },
    ) {
        considered(best, Vec2 { x: sum(s.start.x, product(difference(s.end.x, s.start.x), f)), y: edge }, lo, hi)
    } else {
        best
    }
}

fn cross(best: Double, s: &ProfileSegment, edge: Double, lo: Double, hi: Double) -> (r: Double)
    ensures
        r == crossed(best, *s, edge, lo, hi),
{
    let rise: Double = s.end.y.minus(s.start.y);
    if !Double::from_bits(DEGENERATE).less(rise.abs()) {
        return best;
    }
    let f: Double = edge.minus(s.start.y).over(rise);
    if Double::zeroed().at_most(f) && f.at_most(Double::from_bits(0x3ff0_0000_0000_0000)) {
        let x: Double = s.start.x.plus(s.end.x.minus(s.start.x).times(f));
        consider(best, Vec2::new(x, edge), lo, hi)
    } else {
        best
    }
}

/// The radius so far, with a segment considered: its ends, and where it meets the
/// edges of the window.
pub open spec fn with_segment(best: Double, s: ProfileSegment, lo: Double, hi: Double) -> Double {
    let ends = considered(considered(best, s.start, lo, hi), s.end, lo, hi);
    crossed(crossed(ends, s, lo, lo, hi), s, hi, lo, hi)
}

/// The greatest radius of the first `n` segments in a window.
pub open spec fn radius_over(segments: Seq<ProfileSegment>, lo: Double, hi: Double, n: nat) -> Double
    decreases n,
{
    if n == 0 {
        Double { bits: 0 }
    } else {
        with_segment(radius_over(segments, lo, hi, (n - 1) as nat), segments[n - 1], lo, hi)
    }
}

/// The largest radius a chain of segments reaches with its height in a window,
/// whose ends may come in either order; zero where nothing lies in it.
pub fn max_radius_over_z(segments: &[ProfileSegment], lo: Double, hi: Double) -> (r: Double)
    ensures
        r == if lo.le(hi) {
            radius_over(segments@, lo, hi, segments@.len())
        } else {
            radius_over(segments@, hi, lo, segments@.len())
        },
{
    let (lo, hi) = if lo.at_most(hi) {
        (lo, hi)
    } else {
        (hi, lo)
    };
    let mut best: Double = Double::zeroed();
    let mut i: usize = 0;
    while i < segments.len()
        invariant
            i <= segments@.len(),
            best == radius_over(segments@, lo, hi, i as nat),
        decreases segments@.len() - i,
    {
        let s: ProfileSegment = segments[i];
        best = consider(best, s.start, lo, hi);
        best = consider(best, s.end, lo, hi);
        best = cross(best, &s, lo, lo, hi);
        best = cross(best, &s, hi, lo, hi);
        i = i + 1;
    }
    best
}

/// Sample `i` of 64 of a length.
pub open spec fn sampled(length: Double, i: int) -> Double {
    quotient(product(length, of_int(i)), of_int(CONVEXITY_SAMPLES as int))
}

/// Where the solid is sampled: at height `i` and radius `j`, of 64 each.
pub fn sample_point(tool: &ToolExtent, i: u32, j: u32) -> (p: Vec2)
    ensures
        p == (Vec2 { x: sampled(tool.max_radius, j as int), y: sampled(tool.total_length, i as int) }),
{
    let n: Double = Double::from_i64(CONVEXITY_SAMPLES as i64);
    Vec2::new(
        tool.max_radius.times(Double::from_i64(j as i64)).over(n),
        tool.total_length.times(Double::from_i64(i as i64)).over(n),
    )
}

/// No material comes back after a gap, from the axis outward.
pub open spec fn unbroken(row: Seq<bool>) -> bool {
    forall|j: int, k: int| 0 <= j < k < row.len() && !#[trigger] row[j] ==> !#[trigger] row[k]
}

/// The tool has an extent, and every row of samples is unbroken.
pub open spec fn radially_convex(tool: ToolExtent, inside: Seq<Vec<bool>>) -> bool {
    &&& (Double { bits: 0 }).lt(tool.total_length)
    &&& (Double { bits: 0 }).lt(tool.max_radius)
    &&& forall|i: int| 0 <= i < inside.len() ==> unbroken(#[trigger] inside[i]@)
}

fn is_unbroken(row: &Vec<bool>) -> (r: bool)
    ensures
        r == unbroken(row@),
{
    let mut gap: bool = false;
    let mut j: usize = 0;
    while j < row.len()
        invariant
            j <= row@.len(),
            gap == exists|k: int| 0 <= k < j && !#[trigger] row@[k],
            forall|i: int, k: int| 0 <= i < k < j && !#[trigger] row@[i] ==> !#[trigger] row@[k],
        decreases row@.len() - j,
    {
        if row[j] {
            if gap {
                let ghost k = choose|k: int| 0 <= k < j && !#[trigger] row@[k];
                assert(!row@[k] && row@[j as int]);
                return false;
            }
        } else {
            gap = true;
            assert(!row@[j as int]);
        }
        j = j + 1;
    }
    true
}

/// True if the solid fills continuously from the axis outward, as far as the
/// samples show: `inside` has a row for each height, of whether the tool holds
/// each [`sample_point`] of it.
pub fn is_radially_convex(tool: &ToolExtent, inside: &[Vec<bool>]) -> (r: bool)
    requires
        !tool.total_length.nan(),
        !tool.max_radius.nan(),
    ensures
        r == radially_convex(*tool, inside@),
{
    let zero: Double = Double::zeroed();
    if tool.total_length.at_most(zero) || tool.max_radius.at_most(zero) {
        return false;
    }
    let mut i: usize = 0;
    while i < inside.len()
        invariant
            i <= inside@.len(),
            forall|k: int| 0 <= k < i ==> unbroken(#[trigger] inside@[k]@),
        decreases inside@.len() - i,
    {
        if !is_unbroken(&inside[i]) {
            assert(!unbroken(inside@[i as int]@));
            return false;
        }
        i = i + 1;
    }
    true
}

/// How a ray lies to a vertical motion.
#[derive(Clone, Copy, Debug, PartialEq, Eq, Structural)]
pub enum Lie {
    /// Along it.
    Along,
    /// Across it.
    Across,
    /// Neither.
    Oblique,
}

/// How a ray lies to a vertical motion.
pub open spec fn lie_of(ray: Ray) -> Lie {
    let level = (Double { bits: DEGENERATE }).lt(plane_length(ray.direction.x, ray.direction.y));
    let vertical = (Double { bits: DEGENERATE }).lt(ray.direction.z.absolute());
    if vertical && !level {
        Lie::Along
    } else if level && !vertical {
        Lie::Across
    } else {
        Lie::Oblique
    }
}

/// How a ray lies to a vertical motion, or to the axis of a level arc.
pub fn lie(ray: &Ray) -> (r: Lie)
    ensures
        r == lie_of(*ray),
{
    let least: Double = Double::from_bits(DEGENERATE);
    let level: bool = least.less(hypot(ray.direction.x, ray.direction.y));
    let vertical: bool = least.less(ray.direction.z.abs());
    if vertical && !level {
        Lie::Along
    } else if level && !vertical {
        Lie::Across
    } else {
        Lie::Oblique
    }
}

/// A span drawn out by a shift, to the side that the shift goes.
pub open spec fn dilated(s: Span, shift: Double) -> Span {
    let zero = Double { bits: 0 };
    if shift.le(zero) {
        in_order(sum(s.t0, shift), sum(s.t1, zero))
    } else {
        in_order(sum(s.t0, zero), sum(s.t1, shift))
    }
}

/// What a plunge covers of a ray along it, from what the tool covers at the
/// start: each span drawn out by the distance of the plunge.
pub fn along_spans(motion: &LinearMove, ray: &Ray, base: &Spans) -> (r: Spans)
    ensures
        r.wf(),
        ({
            let shift = quotient(motion.step().z, ray.direction.z);
            r@ == pushed_all(Seq::empty(), Seq::new(base@.len(), |i: int| dilated(base@[i], shift)), base@.len())
        }),
{
    let zero: Double = Double::zeroed();
    let shift: Double = motion.delta().z.over(ray.direction.z);
    let (lo, hi) = if shift.at_most(zero) {
        (shift, zero)
    } else {
        (zero, shift)
    };
    let mut drawn: Vec<Span> = Vec::new();
    let mut i: usize = 0;
    while i < base.spans.len()
        invariant
            i <= base@.len(),
            lo == if shift.le(Double { bits: 0 }) {
                shift
            } else {
                Double { bits: 0 }
            },
            hi == if shift.le(Double { bits: 0 }) {
                Double { bits: 0 }
            } else {
                shift
            },
            drawn@ == Seq::new(i as nat, |j: int| dilated(base@[j], shift)),
        decreases base@.len() - i,
    {
        let s: Span = base.spans[i];
        let d: Span = Span::ordered(s.t0.plus(lo), s.t1.plus(hi));
        assert(d == dilated(base@[i as int], shift));
        drawn.push(d);
        i = i + 1;
        assert(drawn@ =~= Seq::new(i as nat, |j: int| dilated(base@[j], shift)));
    }
    let mut r: Spans = Spans::new();
    r.push_all(drawn.as_slice());
    r
}

/// What a plunge covers of a ray across it, where `radius` is the greatest of the
/// tool over the heights that pass the ray: the chord of a disc.
pub fn across_spans(motion: &LinearMove, ray: &Ray, radius: Double) -> (r: Spans)
    ensures
        r.wf(),
        r@ == match chord_of(motion.start.x, motion.start.y, *ray, radius) {
            Some(s) => if !radius.le(Double { bits: 0 }) && s.valid() {
                seq![s]
            } else {
                Seq::empty()
            },
            None => Seq::empty(),
        },
{
    let mut r: Spans = Spans::new();
    if radius.at_most(Double::zeroed()) {
        return r;
    }
    if let Some(s) = disc_chord(motion.start.x, motion.start.y, ray, radius) {
        r.push_merge(s);
        assert(s.valid() ==> r@ =~= seq![s]);
    }
    r
}

/// The closed form of a plunge applies: to a tool without undercuts, and to a ray
/// along the plunge or across it.
pub open spec fn plunge_applies(ray: Ray, convex: bool) -> bool {
    convex && !(lie_of(ray) is Oblique)
}

/// What a plunge covers of a ray that its closed form applies to.
pub open spec fn plunge_covers(motion: LinearMove, ray: Ray, base: Seq<Span>, radius: Double) -> Seq<Span> {
    if lie_of(ray) is Along {
        let shift = quotient(motion.step().z, ray.direction.z);
        pushed_all(Seq::empty(), Seq::new(base.len(), |i: int| dilated(base[i], shift)), base.len())
    } else {
        match chord_of(motion.start.x, motion.start.y, ray, radius) {
            Some(s) => if !radius.le(Double { bits: 0 }) && s.valid() {
                seq![s]
            } else {
                Seq::empty()
            },
            None => Seq::empty(),
        }
    }
}

/// What a plunge covers of a ray, from what the tool covers at the start and its
/// greatest radius over the heights that pass the ray. False, with the set left
/// alone, where the closed form does not apply.
pub fn swept_spans_into(
    motion: &LinearMove,
    ray: &Ray,
    convex: bool,
    base: &Spans,
    radius: Double,
    out: &mut Spans,
) -> (r: bool)
    ensures
        r == plunge_applies(*ray, convex),
        if r {
            final(out).wf() && final(out)@ == plunge_covers(*motion, *ray, base@, radius)
        } else {
            *final(out) == *old(out)
        },
{
    if !convex {
        return false;
    }
    match lie(ray) {
        Lie::Along => {
            *out = along_spans(motion, ray, base);
            true
        },
        Lie::Across => {
            *out = across_spans(motion, ray, radius);
            true
        },
        Lie::Oblique => false,
    }
}

} // verus!
