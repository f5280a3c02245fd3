//! Points, directions and boxes.

use crate::arithmetic::{difference, product, quotient, sum};
use crate::double::{Double, INFINITY_BITS, SIGN};
use crate::square_root::root;
use vstd::prelude::*;

verus! {

/// A point or direction in the plane.
#[derive(Clone, Copy, Debug, PartialEq, Eq, Hash, Structural)]
pub struct Vec2 {
    /// First coordinate.
    pub x: Double,
    /// Second coordinate.
    pub y: Double,
}

impl Vec2 {
    /// A point from its coordinates.
    pub fn new(x: Double, y: Double) -> (v: Vec2)
        ensures
            v.x == x,
            v.y == y,
    {
        Vec2 { x, y }
    }

    /// Both coordinates are finite.
    pub open spec fn finite(self) -> bool {
        self.x.finite() && self.y.finite()
    }
}

/// A point or direction in space.
#[derive(Clone, Copy, Debug, PartialEq, Eq, Hash, Structural)]
pub struct Vec3 {
    /// First coordinate.
    pub x: Double,
    /// Second coordinate.
    pub y: Double,
    /// Third coordinate.
    pub z: Double,
}

impl Vec3 {
    /// A point from its coordinates.
    pub fn new(x: Double, y: Double, z: Double) -> (v: Vec3)
        ensures
            v.x == x,
            v.y == y,
            v.z == z,
    {
        Vec3 { x, y, z }
    }

    /// All coordinates are finite.
    pub open spec fn finite(self) -> bool {
        self.x.finite() && self.y.finite() && self.z.finite()
    }

    /// All coordinates with their signs flipped.
    pub open spec fn negated(self) -> Vec3 {
        Vec3 { x: self.x.negated(), y: self.y.negated(), z: self.z.negated() }
    }

    /// The coordinate at an index: `x`, `y`, and `z` for any other.
    pub open spec fn at(self, axis: int) -> Double {
        if axis == 0 {
            self.x
        } else if axis == 1 {
            self.y
        } else {
            self.z
        }
    }

    /// The origin.
    pub fn zeroed() -> (v: Vec3)
        ensures
            v == (Vec3 { x: Double { bits: 0 }, y: Double { bits: 0 }, z: Double { bits: 0 } }),
    {
        Vec3 { x: Double::zeroed(), y: Double::zeroed(), z: Double::zeroed() }
    }

    /// The coordinate at an index: `x`, `y`, and `z` for any other.
    pub fn component(self, axis: usize) -> (r: Double)
        ensures
            r == self.at(axis as int),
    {
        if axis == 0 {
            self.x
        } else if axis == 1 {
            self.y
        } else {
            self.z
        }
    }

    /// The sum, by component.
    pub fn plus(self, other: Vec3) -> (r: Vec3)
        ensures
            r == vector_sum(self, other),
    {
        Vec3 { x: self.x.plus(other.x), y: self.y.plus(other.y), z: self.z.plus(other.z) }
    }

    /// The difference, by component.
    pub fn minus(self, other: Vec3) -> (r: Vec3)
        ensures
            r == vector_difference(self, other),
    {
        Vec3 { x: self.x.minus(other.x), y: self.y.minus(other.y), z: self.z.minus(other.z) }
    }

    /// Every component times a factor.
    pub fn times(self, k: Double) -> (r: Vec3)
        ensures
            r == vector_product(self, k),
    {
        Vec3 { x: self.x.times(k), y: self.y.times(k), z: self.z.times(k) }
    }

    /// Every component over a divisor.
    pub fn over(self, k: Double) -> (r: Vec3)
        ensures
            r == vector_quotient(self, k),
    {
        Vec3 { x: self.x.over(k), y: self.y.over(k), z: self.z.over(k) }
    }

    /// The scalar product.
    pub fn dot(self, other: Vec3) -> (r: Double)
        ensures
            r == dot_product(self, other),
    {
        self.x.times(other.x).plus(self.y.times(other.y)).plus(self.z.times(other.z))
    }

    /// The vector product.
    pub fn cross(self, other: Vec3) -> (r: Vec3)
        ensures
            r == cross_product(self, other),
    {
        Vec3 {
            x: self.y.times(other.z).minus(self.z.times(other.y)),
            y: self.z.times(other.x).minus(self.x.times(other.z)),
            z: self.x.times(other.y).minus(self.y.times(other.x)),
        }
    }

    /// Every component without its sign.
    pub fn abs(self) -> (r: Vec3)
        ensures
            r == (Vec3 { x: self.x.absolute(), y: self.y.absolute(), z: self.z.absolute() }),
    {
        Vec3 { x: self.x.abs(), y: self.y.abs(), z: self.z.abs() }
    }

    /// The length.
    pub fn length(self) -> (r: Double)
        ensures
            r == vector_length(self),
    {
        self.dot(self).sqrt()
    }

    /// The direction, of length one, or `None` when there is none.
    pub fn normalize(self) -> (r: Option<Vec3>)
        ensures
            r == normalized_vector(self),
    {
        let length: Double = self.length();
        if Double::zeroed().less(length) && length.is_finite() {
            Some(self.over(length))
        } else {
            None
        }
    }

    /// True when all coordinates are finite.
    pub fn is_finite(self) -> (r: bool)
        ensures
            r == self.finite(),
    {
        self.x.is_finite() && self.y.is_finite() && self.z.is_finite()
    }

    /// All coordinates with their signs flipped.
    pub fn negate(self) -> (r: Vec3)
        ensures
            r == self.negated(),
    {
        Vec3 { x: self.x.negate(), y: self.y.negate(), z: self.z.negate() }
    }
}

/// The outward surface normal recorded at the end of a span, or none.
#[derive(Clone, Copy, Debug, PartialEq, Eq, Hash, Structural)]
pub struct OctNormal {
    /// The direction, where one is recorded.
    pub direction: Option<Vec3>,
}

impl OctNormal {
    /// The normal of a face whose orientation is unknown.
    pub open spec fn unknown() -> OctNormal {
        OctNormal { direction: None }
    }

    /// The normal of the same face seen from the other side.
    pub open spec fn reversed(self) -> OctNormal {
        OctNormal {
            direction: match self.direction {
                Some(v) => Some(v.negated()),
                None => None,
            },
        }
    }

    /// The normal of a face whose orientation is unknown.
    pub fn placeholder() -> (n: OctNormal)
        ensures
            n == OctNormal::unknown(),
    {
        OctNormal { direction: None }
    }

    /// A recorded direction.
    pub fn encode(direction: Vec3) -> (n: OctNormal)
        ensures
            n.direction == Some(direction),
    {
        OctNormal { direction: Some(direction) }
    }

    /// The direction recorded, if any.
    pub fn decode(self) -> (d: Option<Vec3>)
        ensures
            d == self.direction,
    {
        self.direction
    }

    /// The normal of the same face seen from the other side.
    pub fn negated(self) -> (n: OctNormal)
        ensures
            n == self.reversed(),
    {
        match self.direction {
            Some(v) => OctNormal { direction: Some(v.negate()) },
            None => OctNormal { direction: None },
        }
    }
}

/// Reversing a normal twice gives it back.
pub proof fn law_normal_reversed_twice(n: OctNormal)
    ensures
        n.reversed().reversed() == n,
{
}

/// The sum of two vectors, each component rounded.
pub open spec fn vector_sum(a: Vec3, b: Vec3) -> Vec3 {
    Vec3 { x: sum(a.x, b.x), y: sum(a.y, b.y), z: sum(a.z, b.z) }
}

/// The difference of two vectors, each component rounded.
pub open spec fn vector_difference(a: Vec3, b: Vec3) -> Vec3 {
    Vec3 { x: difference(a.x, b.x), y: difference(a.y, b.y), z: difference(a.z, b.z) }
}

/// A vector times a factor, each component rounded.
pub open spec fn vector_product(a: Vec3, k: Double) -> Vec3 {
    Vec3 { x: product(a.x, k), y: product(a.y, k), z: product(a.z, k) }
}

/// A vector over a divisor, each component rounded.
pub open spec fn vector_quotient(a: Vec3, k: Double) -> Vec3 {
    Vec3 { x: quotient(a.x, k), y: quotient(a.y, k), z: quotient(a.z, k) }
}

/// The scalar product, rounded at each step, in the order `x`, `y`, `z`.
pub open spec fn dot_product(a: Vec3, b: Vec3) -> Double {
    sum(sum(product(a.x, b.x), product(a.y, b.y)), product(a.z, b.z))
}

/// The vector product, rounded at each step.
pub open spec fn cross_product(a: Vec3, b: Vec3) -> Vec3 {
    Vec3 {
        x: difference(product(a.y, b.z), product(a.z, b.y)),
        y: difference(product(a.z, b.x), product(a.x, b.z)),
        z: difference(product(a.x, b.y), product(a.y, b.x)),
    }
}

/// The length of a vector, rounded at each step.
pub open spec fn vector_length(a: Vec3) -> Double {
    root(dot_product(a, a))
}

/// A vector over its length, where that is positive and finite.
pub open spec fn normalized_vector(a: Vec3) -> Option<Vec3> {
    let length = vector_length(a);
    if (Double { bits: 0 }).lt(length) && length.finite() {
        Some(vector_quotient(a, length))
    } else {
        None
    }
}

/// A coordinate axis.
#[derive(Clone, Copy, Debug, PartialEq, Eq, Hash, Structural)]
pub enum Axis {
    /// The first.
    X,
    /// The second.
    Y,
    /// The third.
    Z,
}

impl Axis {
    /// The index of the axis.
    pub open spec fn number(self) -> int {
        match self {
            Axis::X => 0,
            Axis::Y => 1,
            Axis::Z => 2,
        }
    }

    /// The index of the axis.
    pub fn index(self) -> (i: usize)
        ensures
            i == self.number(),
    {
        match self {
            Axis::X => 0,
            Axis::Y => 1,
            Axis::Z => 2,
        }
    }
}

/// A line, by a point on it and a direction.
#[derive(Clone, Copy, Debug, PartialEq, Eq, Hash, Structural)]
pub struct Ray {
    /// Where the parameter is zero.
    pub origin: Vec3,
    /// The step of one unit of the parameter.
    pub direction: Vec3,
}

/// The lesser of two numbers; of two equal ones, the first.
pub open spec fn lesser(a: Double, b: Double) -> Double {
    if b.lt(a) || a.nan() {
        b
    } else {
        a
    }
}

/// The greater of two numbers; of two equal ones, the first.
pub open spec fn greater(a: Double, b: Double) -> Double {
    if a.lt(b) || a.nan() {
        b
    } else {
        a
    }
}

/// The lesser of two numbers; of two equal ones, the first.
pub fn min_number(a: Double, b: Double) -> (r: Double)
    ensures
        r == lesser(a, b),
{
    if b.less(a) || a.is_nan() {
        b
    } else {
        a
    }
}

/// The greater of two numbers; of two equal ones, the first.
pub fn max_number(a: Double, b: Double) -> (r: Double)
    ensures
        r == greater(a, b),
{
    if a.less(b) || a.is_nan() {
        b
    } else {
        a
    }
}

/// An axis-aligned box.
#[derive(Clone, Copy, Debug, PartialEq, Eq, Hash, Structural)]
pub struct Aabb3 {
    /// The corner of least coordinates.
    pub min: Vec3,
    /// The corner of greatest coordinates.
    pub max: Vec3,
}

/// The box that holds nothing.
pub open spec fn empty_box() -> Aabb3 {
    let low = Double { bits: INFINITY_BITS };
    let high = Double { bits: (INFINITY_BITS + SIGN) as u64 };
    Aabb3 { min: Vec3 { x: low, y: low, z: low }, max: Vec3 { x: high, y: high, z: high } }
}

/// The smallest box around two.
pub open spec fn box_union(a: Aabb3, b: Aabb3) -> Aabb3 {
    Aabb3 {
        min: Vec3 { x: lesser(a.min.x, b.min.x), y: lesser(a.min.y, b.min.y), z: lesser(a.min.z, b.min.z) },
        max: Vec3 { x: greater(a.max.x, b.max.x), y: greater(a.max.y, b.max.y), z: greater(a.max.z, b.max.z) },
    }
}

/// The box of a single point.
pub open spec fn point_box(p: Vec3) -> Aabb3 {
    Aabb3 { min: p, max: p }
}

/// The smallest box around the first `n` points.
pub open spec fn box_around(points: Seq<Vec3>, n: nat) -> Aabb3
    decreases n,
{
    if n == 0 {
        empty_box()
    } else {
        box_union(box_around(points, (n - 1) as nat), point_box(points[n - 1]))
    }
}

impl Aabb3 {
    /// Some extent is negative.
    pub open spec fn empty(self) -> bool {
        self.max.x.lt(self.min.x) || self.max.y.lt(self.min.y) || self.max.z.lt(self.min.z)
    }

    /// The point lies in the box, boundary included.
    pub open spec fn holds(self, p: Vec3) -> bool {
        &&& self.min.x.le(p.x) && p.x.le(self.max.x)
        &&& self.min.y.le(p.y) && p.y.le(self.max.y)
        &&& self.min.z.le(p.z) && p.z.le(self.max.z)
    }

    /// The boxes share a point, boundary included.
    pub open spec fn meets(self, other: Aabb3) -> bool {
        &&& self.min.x.le(other.max.x) && other.min.x.le(self.max.x)
        &&& self.min.y.le(other.max.y) && other.min.y.le(self.max.y)
        &&& self.min.z.le(other.max.z) && other.min.z.le(self.max.z)
    }

    /// The other box lies within this one.
    pub open spec fn encloses(self, other: Aabb3) -> bool {
        &&& self.min.x.le(other.min.x) && other.max.x.le(self.max.x)
        &&& self.min.y.le(other.min.y) && other.max.y.le(self.max.y)
        &&& self.min.z.le(other.min.z) && other.max.z.le(self.max.z)
    }

    /// The axis of greatest extent; of equal ones, the first.
    #[verifier::opaque]
    pub open spec fn longest(self) -> Axis {
        let e = vector_difference(self.max, self.min);
        if !e.x.lt(e.y) && !e.x.lt(e.z) {
            Axis::X
        } else if !e.y.lt(e.z) {
            Axis::Y
        } else {
            Axis::Z
        }
    }

    /// A box from its corners.
    pub fn new(min: Vec3, max: Vec3) -> (b: Aabb3)
        ensures
            b == (Aabb3 { min, max }),
    {
        Aabb3 { min, max }
    }

    /// The box that holds nothing.
    pub fn nothing() -> (b: Aabb3)
        ensures
            b == empty_box(),
    {
        let low: Double = Double::from_bits(INFINITY_BITS);
        let high: Double = Double::from_bits(INFINITY_BITS + SIGN);
        Aabb3 { min: Vec3 { x: low, y: low, z: low }, max: Vec3 { x: high, y: high, z: high } }
    }

    /// True if some extent is negative.
    pub fn is_empty(&self) -> (r: bool)
        ensures
            r == self.empty(),
    {
        self.max.x.less(self.min.x) || self.max.y.less(self.min.y) || self.max.z.less(self.min.z)
    }

    /// The smallest box around both.
    pub fn union(&self, other: &Aabb3) -> (b: Aabb3)
        ensures
            b == box_union(*self, *other),
    {
        Aabb3 {
            min: Vec3 {
                x: min_number(self.min.x, other.min.x),
                y: min_number(self.min.y, other.min.y),
                z: min_number(self.min.z, other.min.z),
            },
            max: Vec3 {
                x: max_number(self.max.x, other.max.x),
                y: max_number(self.max.y, other.max.y),
                z: max_number(self.max.z, other.max.z),
            },
        }
    }

    /// The smallest box around some points.
    pub fn from_points(points: &[Vec3]) -> (b: Aabb3)
        ensures
            b == box_around(points@, points@.len()),
    {
        let mut b: Aabb3 = Aabb3::nothing();
        let mut i: usize = 0;
        while i < points.len()
            invariant
                i <= points.len(),
                b == box_around(points@, i as nat),
            decreases points.len() - i,
        {
            let p: Vec3 = points[i];
            b = b.union(&Aabb3 { min: p, max: p });
            i = i + 1;
        }
        b
    }

    /// True if the boxes share a point, boundary included.
    pub fn intersects(&self, other: &Aabb3) -> (r: bool)
        ensures
            r == self.meets(*other),
    {
        self.min.x.at_most(other.max.x) && other.min.x.at_most(self.max.x) && self.min.y.at_most(other.max.y)
            && other.min.y.at_most(self.max.y) && self.min.z.at_most(other.max.z) && other.min.z.at_most(self.max.z)
    }

    /// True if the other box lies within this one.
    pub fn contains_aabb(&self, other: &Aabb3) -> (r: bool)
        ensures
            r == self.encloses(*other),
    {
        self.min.x.at_most(other.min.x) && other.max.x.at_most(self.max.x) && self.min.y.at_most(other.min.y)
            && other.max.y.at_most(self.max.y) && self.min.z.at_most(other.min.z) && other.max.z.at_most(self.max.z)
    }

    /// The axis of greatest extent; of equal ones, the first.
    pub fn longest_axis(&self) -> (a: Axis)
        ensures
            a == self.longest(),
    {
        proof {
            reveal(Aabb3::longest);
        }
        let e: Vec3 = self.max.minus(self.min);
        if !e.x.less(e.y) && !e.x.less(e.z) {
            Axis::X
        } else if !e.y.less(e.z) {
            Axis::Y
        } else {
            Axis::Z
        }
    }
}

pub proof fn lemma_box_union_encloses(a: Aabb3, b: Aabb3, p: Vec3)
    requires
        p.finite(),
        a.holds(p) || b.holds(p),
        !a.min.x.nan() && !a.min.y.nan() && !a.min.z.nan(),
        !a.max.x.nan() && !a.max.y.nan() && !a.max.z.nan(),
        !b.min.x.nan() && !b.min.y.nan() && !b.min.z.nan(),
        !b.max.x.nan() && !b.max.y.nan() && !b.max.z.nan(),
    ensures
        box_union(a, b).holds(p),
{
}

/// The box around some finite points holds each of them.
pub proof fn law_box_around_holds(points: Seq<Vec3>, n: nat, i: int)
    requires
        0 <= i < n <= points.len(),
        forall|j: int| 0 <= j < n ==> (#[trigger] points[j]).finite(),
    ensures
        box_around(points, n).holds(points[i]),
    decreases n,
{
    lemma_box_around_numbers(points, (n - 1) as nat);
    let p = points[n - 1];
    assert(p.finite());
    assert(points[i].finite());
    if i < n - 1 {
        law_box_around_holds(points, (n - 1) as nat, i);
    }
    lemma_box_union_encloses(box_around(points, (n - 1) as nat), point_box(p), points[i]);
}

proof fn lemma_box_around_numbers(points: Seq<Vec3>, n: nat)
    requires
        n <= points.len(),
        forall|j: int| 0 <= j < n ==> (#[trigger] points[j]).finite(),
    ensures
        ({
            let b = box_around(points, n);
            &&& !b.min.x.nan() && !b.min.y.nan() && !b.min.z.nan()
            &&& !b.max.x.nan() && !b.max.y.nan() && !b.max.z.nan()
        }),
    decreases n,
{
    if n > 0 {
        lemma_box_around_numbers(points, (n - 1) as nat);
        assert(points[n - 1].finite());
    }
}

} // verus!
