//! Points along an arc, and the chords through them.
//!
//! The cosines and sines come from outside; everything around them is here.

use crate::arithmetic::{difference, of_int, product, quotient, sum};
use crate::double::Double;
use crate::lattice::{replace_component, with_component};
use crate::math::{box_around, greater, max_number, Aabb3, Vec3};
use crate::sweep::arc::{ArcMove, ArcPlane, DEGENERATE};
use crate::sweep::reference::{steps_along, steps_for, usable, MAX_SUBSTEPS};
use crate::sweep::{hypot, plane_length, LinearMove, ToolExtent};
use vstd::prelude::*;

verus! {

/// One.
pub open spec fn one() -> Double {
    Double { bits: 0x3ff0_0000_0000_0000 }
}

/// The axes of a plane: the two it turns in, in order, and the one it turns
/// about.
pub open spec fn axes_of(plane: ArcPlane) -> Seq<int> {
    match plane {
        ArcPlane::Xy => seq![0, 1, 2],
        ArcPlane::Zx => seq![2, 0, 1],
        ArcPlane::Yz => seq![1, 2, 0],
    }
}

fn axes(plane: ArcPlane) -> (r: (usize, usize, usize))
    ensures
        axes_of(plane) == seq![r.0 as int, r.1 as int, r.2 as int],
        r.0 < 3,
        r.1 < 3,
        r.2 < 3,
{
    match plane {
        ArcPlane::Xy => (0, 1, 2),
        ArcPlane::Zx => (2, 0, 1),
        ArcPlane::Yz => (1, 2, 0),
    }
}

impl ArcMove {
    /// Where the tip is at parameter `s`, given the cosine and the sine of its
    /// bearing.
    pub open spec fn tip(self, s: Double, cosine: Double, sine: Double) -> Vec3 {
        let a = axes_of(self.plane);
        let zero = Double { bits: 0 };
        let p = Vec3 { x: zero, y: zero, z: zero };
        with_component(
            with_component(
                with_component(p, a[0], sum(self.center.at(a[0]), product(self.radius, cosine))),
                a[1],
                sum(self.center.at(a[1]), product(self.radius, sine)),
            ),
            a[2],
            sum(self.z, product(self.rise, s)),
        )
    }

    /// The bearing of the tip at parameter `s` in `[0, 1]`, in radians.
    pub fn bearing(&self, s: Double) -> (r: Double)
        ensures
            r == sum(self.start_angle, product(self.sweep, s)),
    {
        self.start_angle.plus(self.sweep.times(s))
    }

    /// Where the tip is at parameter `s`, given the cosine and the sine of
    /// [`ArcMove::bearing`].
    pub fn at(&self, s: Double, cosine: Double, sine: Double) -> (p: Vec3)
        ensures
            p == self.tip(s, cosine, sine),
    {
        let (u, v, w) = axes(self.plane);
        let x: Double = self.center.component(u).plus(self.radius.times(cosine));
        let y: Double = self.center.component(v).plus(self.radius.times(sine));
        let z: Double = self.z.plus(self.rise.times(s));
        replace_component(replace_component(replace_component(Vec3::zeroed(), u, x), v, y), w, z)
    }

    /// The angle whose cosine [`ArcMove::chord_deviation`] wants, in radians: half
    /// of that between two of `steps` points.
    pub fn half_step(&self, steps: u32) -> (r: Double)
        requires
            steps > 0,
        ensures
            r == quotient(quotient(self.sweep.absolute(), of_int(steps as int)), Double { bits: 0x4000_0000_0000_0000 }),
    {
        self.sweep.abs().over(Double::from_i64(steps as i64)).over(Double::from_bits(0x4000_0000_0000_0000))
    }

    /// How far an arc bulges from the chords through evenly spaced points of it.
    pub fn chord_deviation(&self, cosine: Double) -> (r: Double)
        ensures
            r == product(self.radius, difference(one(), cosine)),
    {
        self.radius.times(Double::from_bits(0x3ff0_0000_0000_0000).minus(cosine))
    }

    /// A point arc, or one that goes nowhere: a single chord will do.
    pub open spec fn trivial(self) -> bool {
        self.sweep.absolute().le(Double { bits: DEGENERATE }) || self.radius.le(Double { bits: DEGENERATE })
    }

    /// The number whose arc cosine [`ArcMove::chords_for_angle`] wants, for a
    /// tolerance; none where one chord will do.
    pub fn chord_cosine(&self, tolerance: Double) -> (r: Option<Double>)
        requires
            usable(tolerance),
        ensures
            r == if self.trivial() {
                None
            } else {
                Some(greater(difference(one(), quotient(tolerance, self.radius)), one().negated()))
            },
    {
        let least: Double = Double::from_bits(DEGENERATE);
        if self.sweep.abs().at_most(least) || self.radius.at_most(least) {
            return None;
        }
        let unit: Double = Double::from_bits(0x3ff0_0000_0000_0000);
        Some(max_number(unit.minus(tolerance.over(self.radius)), unit.negate()))
    }

    /// The chords that keep to a tolerance, where half of the angle that one may
    /// span is given.
    pub fn chords_for_angle(&self, angle: Double) -> (n: u32)
        ensures
            n == if product(Double { bits: 0x4000_0000_0000_0000 }, angle).le(Double { bits: 0 }) {
                MAX_SUBSTEPS as int
            } else {
                steps_for(self.sweep.absolute(), angle)
            },
            1 <= n <= MAX_SUBSTEPS,
    {
        let delta: Double = Double::from_bits(0x4000_0000_0000_0000).times(angle);
        if delta.at_most(Double::zeroed()) {
            return MAX_SUBSTEPS;
        }
        steps_along(self.sweep.abs(), angle)
    }

    /// The place on the circle of the arc that is nearest a point, in plan: where
    /// the bearing is undefined, that of the first axis.
    pub open spec fn nearest_tip(self, p: Vec3) -> Vec3 {
        let dx = difference(p.x, self.center.x);
        let dy = difference(p.y, self.center.y);
        let d = plane_length(dx, dy);
        let (ux, uy) = if (Double { bits: 0 }).lt(d) {
            (quotient(dx, d), quotient(dy, d))
        } else {
            (one(), Double { bits: 0 })
        };
        Vec3 {
            x: sum(self.center.x, product(self.radius, ux)),
            y: sum(self.center.y, product(self.radius, uy)),
            z: self.z,
        }
    }

    /// A point as the tool sees it that passes nearest, on a level arc.
    pub fn seen_from_tool(&self, p: Vec3) -> (r: Vec3)
        ensures
            ({
                let tip = self.nearest_tip(p);
                r == (Vec3 { x: difference(p.x, tip.x), y: difference(p.y, tip.y), z: difference(p.z, tip.z) })
            }),
    {
        let dx: Double = p.x.minus(self.center.x);
        let dy: Double = p.y.minus(self.center.y);
        let d: Double = hypot(dx, dy);
        let (ux, uy) = if Double::zeroed().less(d) {
            (dx.over(d), dy.over(d))
        } else {
            (Double::from_bits(0x3ff0_0000_0000_0000), Double::zeroed())
        };
        Vec3::new(
            p.x.minus(self.center.x.plus(self.radius.times(ux))),
            p.y.minus(self.center.y.plus(self.radius.times(uy))),
            p.z.minus(self.z),
        )
    }
}

/// The chords through points, one after another: each starts where the one before
/// it ends.
pub fn linearise(points: &[Vec3]) -> (v: Vec<LinearMove>)
    requires
        points@.len() > 0,
    ensures
        v@ == Seq::new(
            (points@.len() - 1) as nat,
            |i: int| LinearMove { start: points@[i], end: points@[i + 1] },
        ),
{
    let mut v: Vec<LinearMove> = Vec::new();
    let mut i: usize = 1;
    while i < points.len()
        invariant
            1 <= i <= points@.len(),
            v@ == Seq::new((i - 1) as nat, |k: int| LinearMove { start: points@[k], end: points@[k + 1] }),
        decreases points@.len() - i,
    {
        v.push(LinearMove { start: points[i - 1], end: points[i] });
        i = i + 1;
        assert(v@ =~= Seq::new((i - 1) as nat, |k: int| LinearMove { start: points@[k], end: points@[k + 1] }));
    }
    v
}

/// A box widened by a tool whose tip stays in it.
pub open spec fn widened(b: Aabb3, tool: ToolExtent) -> Aabb3 {
    Aabb3 {
        min: Vec3 { x: difference(b.min.x, tool.max_radius), y: difference(b.min.y, tool.max_radius), z: b.min.z },
        max: Vec3 {
            x: sum(b.max.x, tool.max_radius),
            y: sum(b.max.y, tool.max_radius),
            z: sum(b.max.z, tool.total_length),
        },
    }
}

/// The box of everything a tool occupies with its tip at some points.
pub fn path_bounds(tool: &ToolExtent, points: &[Vec3]) -> (b: Aabb3)
    ensures
        b == widened(box_around(points@, points@.len()), *tool),
{
    let b: Aabb3 = Aabb3::from_points(points);
    let r: Double = tool.max_radius;
    Aabb3::new(
        Vec3::new(b.min.x.minus(r), b.min.y.minus(r), b.min.z),
        Vec3::new(b.max.x.plus(r), b.max.y.plus(r), b.max.z.plus(tool.total_length)),
    )
}

} // verus!
