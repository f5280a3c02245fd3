//! Material removal: what a moving tool takes away from rays of material.
//!
//! A tool enters as two lengths, its greatest radius and its height, and as the
//! intervals of each ray that it covers. What is decided here is which rays a
//! motion can reach, how its covered intervals are to be found, and what the rays
//! hold afterwards.

pub mod amount_laws;
pub mod arc;
pub mod arc_laws;
pub mod batch;
pub mod bearing_laws;
pub mod closed;
pub mod cover_laws;
pub mod cut;
pub mod frame_laws;
pub mod horizontal;
pub mod parallel;
pub mod path;
pub mod place_laws;
pub mod plunge;
pub mod profile_laws;
pub mod reference;
pub mod ring_laws;
pub mod sequence;
pub mod storage;
pub mod unbatched;
pub mod whole_laws;

use crate::arithmetic::{difference, product, sum};
use crate::double::Double;
use crate::math::{box_union, vector_difference, vector_product, vector_sum, Aabb3, Vec3};
use crate::square_root::root;
use vstd::prelude::*;

verus! {

/// Bits of the displacement, a billionth of a millimetre, up to which a move
/// counts as none.
pub const ZERO_MOTION: u64 = 0x3e11_2e0b_e826_d695;

/// Which reduction applies to a motion.
#[derive(Clone, Copy, Debug, PartialEq, Eq, Hash, Structural)]
pub enum SweepCase {
    /// No motion: the swept volume is the static tool.
    Stationary,
    /// Level motion.
    Horizontal,
    /// Vertical motion.
    Plunge,
    /// Motion that is neither level nor vertical.
    Ramp,
}

impl SweepCase {
    /// Stable name for reports.
    pub fn as_str(self) -> (s: &'static str)
        ensures
            s@ == match self {
                SweepCase::Stationary => "stationary"@,
                SweepCase::Horizontal => "horizontal"@,
                SweepCase::Plunge => "plunge"@,
                SweepCase::Ramp => "ramp"@,
            },
    {
        match self {
            SweepCase::Stationary => "stationary",
            SweepCase::Horizontal => "horizontal",
            SweepCase::Plunge => "plunge",
            SweepCase::Ramp => "ramp",
        }
    }
}

/// The lengths of a tool that bound it.
#[derive(Clone, Copy, Debug, PartialEq, Eq, Hash, Structural)]
pub struct ToolExtent {
    /// The greatest radius.
    pub max_radius: Double,
    /// The height from the tip to the top.
    pub total_length: Double,
}

/// The box of a tool with its tip at a position.
pub open spec fn tool_box(tool: ToolExtent, position: Vec3) -> Aabb3 {
    Aabb3 {
        min: Vec3 {
            x: difference(position.x, tool.max_radius),
            y: difference(position.y, tool.max_radius),
            z: position.z,
        },
        max: Vec3 {
            x: sum(position.x, tool.max_radius),
            y: sum(position.y, tool.max_radius),
            z: sum(position.z, tool.total_length),
        },
    }
}

/// The box a tool occupies with its tip at `position`.
pub fn tool_bounds(tool: &ToolExtent, position: Vec3) -> (b: Aabb3)
    ensures
        b == tool_box(*tool, position),
{
    let r: Double = tool.max_radius;
    Aabb3::new(
        Vec3::new(position.x.minus(r), position.y.minus(r), position.z),
        Vec3::new(position.x.plus(r), position.y.plus(r), position.z.plus(tool.total_length)),
    )
}

/// The length of a vector of two components: the root of the sum of squares.
pub open spec fn plane_length(x: Double, y: Double) -> Double {
    root(sum(product(x, x), product(y, y)))
}

/// The length of a vector of two components.
pub fn hypot(x: Double, y: Double) -> (r: Double)
    ensures
        r == plane_length(x, y),
{
    x.times(x).plus(y.times(y)).sqrt()
}

/// A straight motion of a tool tip.
#[derive(Clone, Copy, Debug, PartialEq, Eq, Hash, Structural)]
pub struct LinearMove {
    /// Where the tip starts.
    pub start: Vec3,
    /// Where the tip ends.
    pub end: Vec3,
}

impl LinearMove {
    /// The displacement.
    pub open spec fn step(self) -> Vec3 {
        vector_difference(self.end, self.start)
    }

    /// The length of the level part of the displacement.
    pub open spec fn level_length(self) -> Double {
        plane_length(self.step().x, self.step().y)
    }

    /// The case of the move: whether it goes anywhere level, and anywhere
    /// vertically.
    pub open spec fn kind(self) -> SweepCase {
        let none = Double { bits: ZERO_MOTION };
        let level = none.lt(self.level_length());
        let vertical = none.lt(self.step().z.absolute());
        if level && vertical {
            SweepCase::Ramp
        } else if level {
            SweepCase::Horizontal
        } else if vertical {
            SweepCase::Plunge
        } else {
            SweepCase::Stationary
        }
    }

    /// The displacement.
    pub fn delta(&self) -> (d: Vec3)
        ensures
            d == self.step(),
    {
        self.end.minus(self.start)
    }

    /// The length of the level part of the displacement.
    pub fn horizontal(&self) -> (r: Double)
        ensures
            r == self.level_length(),
    {
        let d: Vec3 = self.delta();
        hypot(d.x, d.y)
    }

    /// The length of the vertical part of the displacement.
    pub fn vertical(&self) -> (r: Double)
        ensures
            r == self.step().z.absolute(),
    {
        self.delta().z.abs()
    }

    /// Where the tip is at parameter `s`, from 0 at the start to 1 at the end.
    pub fn at(&self, s: Double) -> (p: Vec3)
        ensures
            p == vector_sum(self.start, vector_product(self.step(), s)),
    {
        self.start.plus(self.delta().times(s))
    }

    /// Which case this motion falls into.
    pub fn case(&self) -> (c: SweepCase)
        ensures
            c == self.kind(),
    {
        let none: Double = Double::from_bits(ZERO_MOTION);
        match (none.less(self.horizontal()), none.less(self.vertical())) {
            (false, false) => SweepCase::Stationary,
            (true, false) => SweepCase::Horizontal,
            (false, true) => SweepCase::Plunge,
            (true, true) => SweepCase::Ramp,
        }
    }

    /// The box of everything the tool occupies on the way.
    pub fn swept_bounds(&self, tool: &ToolExtent) -> (b: Aabb3)
        ensures
            b == box_union(tool_box(*tool, self.start), tool_box(*tool, self.end)),
    {
        tool_bounds(tool, self.start).union(&tool_bounds(tool, self.end))
    }
}

} // verus!
