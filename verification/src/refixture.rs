//! Moving stock between setups.
//!
//! A quarter turn is a signed permutation of the coordinates: rays map onto rays,
//! and their spans move across untouched. Any other rotation has to be resampled,
//! which costs a bound.

use crate::arithmetic::{difference, product, sum};
use crate::double::Double;
use crate::lattice::{cyclic, cyclic_of, Lattice};
use crate::math::{box_union, dot_product, empty_box, point_box, vector_length, Aabb3, Axis, OctNormal, Vec3};
use crate::spans::Span;
use vstd::prelude::*;

verus! {

/// A transform, by the rows of its matrix.
#[derive(Clone, Copy, Debug, PartialEq, Eq)]
pub struct Mat4 {
    /// The rows.
    pub rows: [[Double; 4]; 4],
}

impl Mat4 {
    /// An entry of the matrix.
    pub open spec fn entry(self, i: int, j: int) -> Double {
        self.rows@[i]@[j]
    }

    /// Every entry is finite.
    pub open spec fn finite(self) -> bool {
        forall|i: int, j: int| 0 <= i < 4 && 0 <= j < 4 ==> (#[trigger] self.entry(i, j)).finite()
    }

    /// A component of the image of a direction.
    pub open spec fn turned(self, v: Vec3, i: int) -> Double {
        sum(
            sum(product(self.entry(i, 0), v.x), product(self.entry(i, 1), v.y)),
            product(self.entry(i, 2), v.z),
        )
    }

    /// The image of a direction.
    pub open spec fn direction_image(self, v: Vec3) -> Vec3 {
        Vec3 { x: self.turned(v, 0), y: self.turned(v, 1), z: self.turned(v, 2) }
    }

    /// The image of a point.
    pub open spec fn point_image(self, v: Vec3) -> Vec3 {
        Vec3 {
            x: sum(self.turned(v, 0), self.entry(0, 3)),
            y: sum(self.turned(v, 1), self.entry(1, 3)),
            z: sum(self.turned(v, 2), self.entry(2, 3)),
        }
    }

    /// A transform from its rows.
    pub fn from_rows_array(rows: [[Double; 4]; 4]) -> (m: Mat4)
        ensures
            m.rows == rows,
    {
        Mat4 { rows }
    }

    fn row(&self, v: Vec3, i: usize) -> (r: Double)
        requires
            i < 4,
        ensures
            r == self.turned(v, i as int),
    {
        let row: [Double; 4] = self.rows[i];
        row[0].times(v.x).plus(row[1].times(v.y)).plus(row[2].times(v.z))
    }

    /// The image of a direction.
    pub fn transform_direction(&self, v: Vec3) -> (r: Vec3)
        ensures
            r == self.direction_image(v),
    {
        Vec3::new(self.row(v, 0), self.row(v, 1), self.row(v, 2))
    }

    /// The image of a point.
    pub fn transform_point(&self, v: Vec3) -> (r: Vec3)
        ensures
            r == self.point_image(v),
    {
        Vec3::new(
            self.row(v, 0).plus(self.rows[0][3]),
            self.row(v, 1).plus(self.rows[1][3]),
            self.row(v, 2).plus(self.rows[2][3]),
        )
    }

    /// True if every entry is finite.
    pub fn is_finite(&self) -> (r: bool)
        ensures
            r == self.finite(),
    {
        let mut i: usize = 0;
        while i < 4
            invariant
                i <= 4,
                forall|a: int, b: int| 0 <= a < i && 0 <= b < 4 ==> (#[trigger] self.entry(a, b)).finite(),
            decreases 4 - i,
        {
            let mut j: usize = 0;
            while j < 4
                invariant
                    i < 4,
                    j <= 4,
                    forall|a: int, b: int| 0 <= a < i && 0 <= b < 4 ==> (#[trigger] self.entry(a, b)).finite(),
                    forall|b: int| 0 <= b < j ==> (#[trigger] self.entry(i as int, b)).finite(),
                decreases 4 - j,
            {
                let row: [Double; 4] = self.rows[i];
                if !row[j].is_finite() {
                    assert(!self.entry(i as int, j as int).finite());
                    return false;
                }
                j = j + 1;
            }
            i = i + 1;
        }
        true
    }
}

/// How a setup boundary was crossed, and what it cost.
#[derive(Clone, Copy, Debug, PartialEq, Eq)]
pub enum Regime {
    /// Rays mapped onto rays.
    Exact {
        /// Which source axis each destination axis came from.
        from: [Axis; 3],
        /// Whether that axis was reversed.
        flipped: [bool; 3],
    },
    /// The field was resampled on a rotated lattice.
    Resampled {
        /// Worst departure the resampling can introduce, in millimetres.
        bound_mm: Double,
    },
}

impl Regime {
    /// What the boundary costs.
    pub open spec fn cost(self) -> Double {
        match self {
            Regime::Exact { .. } => Double { bits: 0 },
            Regime::Resampled { bound_mm } => bound_mm,
        }
    }

    /// The bound this boundary contributes: zero for the exact case.
    pub fn bound_mm(&self) -> (r: Double)
        ensures
            r == self.cost(),
    {
        match self {
            Regime::Exact { .. } => Double::zeroed(),
            Regime::Resampled { bound_mm } => *bound_mm,
        }
    }

    /// The name used in a report.
    pub fn as_str(&self) -> (s: &'static str)
        ensures
            s@ == if self is Exact {
                "exact"@
            } else {
                "resampled"@
            },
    {
        match self {
            Regime::Exact { .. } => "exact",
            Regime::Resampled { .. } => "resampled",
        }
    }

    /// Whether this boundary cost nothing.
    pub fn is_exact(&self) -> (r: bool)
        ensures
            r == (self is Exact),
    {
        matches!(self, Regime::Exact { .. })
    }
}

/// The costs of the first `n` boundaries, added up from zero.
pub open spec fn costs(regimes: Seq<Regime>, n: nat) -> Double
    decreases n,
{
    if n == 0 {
        Double { bits: 0 }
    } else {
        sum(costs(regimes, (n - 1) as nat), regimes[n - 1].cost())
    }
}

/// The bound accumulated across a whole job: the plain sum, from positive zero.
pub fn accumulated_bound(regimes: &[Regime]) -> (r: Double)
    ensures
        r == costs(regimes@, regimes@.len()),
{
    let mut r: Double = Double::zeroed();
    let mut i: usize = 0;
    while i < regimes.len()
        invariant
            i <= regimes@.len(),
            r == costs(regimes@, i as nat),
        decreases regimes@.len() - i,
    {
        r = r.plus(regimes[i].bound_mm());
        i = i + 1;
    }
    r
}

/// The worst departure of a resample on a rotated lattice: half of the sample
/// distance, in cells, times the spacing.
pub open spec fn resampling_cost(spacing: Double, sample_distance: Double) -> Double {
    product(product(Double { bits: 0x3fe0_0000_0000_0000 }, sample_distance), spacing)
}

/// The worst departure a resample on a rotated lattice can introduce.
pub fn resample_bound(spacing_mm: Double, sample_distance: Double) -> (r: Double)
    ensures
        r == resampling_cost(spacing_mm, sample_distance),
{
    Double::from_bits(0x3fe0_0000_0000_0000).times(sample_distance).times(spacing_mm)
}

/// The image of a basis vector.
#[verifier::opaque]
pub open spec fn column(m: Mat4, k: int) -> Vec3 {
    let one = Double { bits: 0x3ff0_0000_0000_0000 };
    let zero = Double { bits: 0 };
    m.direction_image(
        if k == 0 {
            Vec3 { x: one, y: zero, z: zero }
        } else if k == 1 {
            Vec3 { x: zero, y: one, z: zero }
        } else {
            Vec3 { x: zero, y: zero, z: one }
        },
    )
}

/// A length is one, as nearly as a rigid motion needs.
#[verifier::opaque]
pub open spec fn unit_length(v: Vec3) -> bool {
    !(Double { bits: 0x3e11_2e0b_e826_d695 }).lt(
        difference(vector_length(v), Double { bits: 0x3ff0_0000_0000_0000 }).absolute(),
    )
}

/// Two directions are perpendicular, as nearly as a rigid motion needs.
#[verifier::opaque]
pub open spec fn perpendicular(v: Vec3, w: Vec3) -> bool {
    !(Double { bits: 0x3e11_2e0b_e826_d695 }).lt(dot_product(v, w).absolute())
}

/// The images of the basis vectors have length one and are perpendicular.
pub open spec fn rigid(m: Mat4) -> bool {
    &&& m.finite()
    &&& forall|i: int| 0 <= i < 3 ==> unit_length(#[trigger] column(m, i))
    &&& forall|i: int, j: int| 0 <= i < j < 3 ==> perpendicular(#[trigger] column(m, i), #[trigger] column(m, j))
}

/// A component is not negligible.
pub open spec fn present(x: Double) -> bool {
    (Double { bits: 0x3d71_9799_812d_ea11 }).lt(x.absolute())
}

/// A magnitude is one, but for what a cosine leaves.
pub open spec fn near_one(x: Double) -> bool {
    !(Double { bits: 0x3d71_9799_812d_ea11 }).lt(
        difference(x.absolute(), Double { bits: 0x3ff0_0000_0000_0000 }).absolute(),
    )
}

/// `v` is a signed basis vector along axis `d`: no other component is present,
/// and that one is one in magnitude.
#[verifier::opaque]
pub open spec fn signed_axis(v: Vec3, d: int) -> bool {
    &&& 0 <= d < 3
    &&& forall|k: int| 0 <= k < 3 ==> (#[trigger] present(v.at(k)) <==> k == d)
    &&& near_one(v.at(d))
}

/// The transform permutes the axes: image `k` is a signed basis vector along
/// `to[k]`, and no two have the same.
pub open spec fn permutes(m: Mat4, to: Seq<int>) -> bool {
    &&& to.len() == 3
    &&& signed_axis(column(m, 0), to[0])
    &&& signed_axis(column(m, 1), to[1])
    &&& signed_axis(column(m, 2), to[2])
    &&& to[0] != to[1] && to[1] != to[2] && to[0] != to[2]
}

/// The axis with an index.
pub open spec fn axis_of(k: int) -> Axis {
    if k == 0 {
        Axis::X
    } else if k == 1 {
        Axis::Y
    } else {
        Axis::Z
    }
}

/// What crossing a rigid transform costs: nothing, where it permutes the axes,
/// and else a resample.
pub open spec fn crossing(m: Mat4, spacing: Double, sample_distance: Double, r: Regime) -> bool {
    match r {
        Regime::Exact { from, flipped } => exists|to: Seq<int>|
            #[trigger] permutes(m, to) && forall|k: int|
                0 <= k < 3 ==> from@[#[trigger] to[k]] == axis_of(k) && flipped@[to[k]] == column(m, k).at(to[k]).lt(
                    Double { bits: 0 },
                ),
        Regime::Resampled { bound_mm } => bound_mm == resampling_cost(spacing, sample_distance) && forall|to: Seq<int>|
            !#[trigger] permutes(m, to),
    }
}

fn image_of(m: &Mat4, k: usize) -> (v: Vec3)
    requires
        k < 3,
    ensures
        v == column(*m, k as int),
{
    reveal(column);
    let one: Double = Double::from_bits(0x3ff0_0000_0000_0000);
    let zero: Double = Double::zeroed();
    if k == 0 {
        m.transform_direction(Vec3::new(one, zero, zero))
    } else if k == 1 {
        m.transform_direction(Vec3::new(zero, one, zero))
    } else {
        m.transform_direction(Vec3::new(zero, zero, one))
    }
}

fn has_unit_length(v: Vec3) -> (r: bool)
    ensures
        r == unit_length(v),
{
    reveal(unit_length);
    let off: Double = v.length().minus(Double::from_bits(0x3ff0_0000_0000_0000)).abs();
    !Double::from_bits(0x3e11_2e0b_e826_d695).less(off)
}

fn are_perpendicular(v: Vec3, w: Vec3) -> (r: bool)
    ensures
        r == perpendicular(v, w),
{
    reveal(perpendicular);
    !Double::from_bits(0x3e11_2e0b_e826_d695).less(v.dot(w).abs())
}

fn is_present(x: Double) -> (r: bool)
    ensures
        r == present(x),
{
    Double::from_bits(0x3d71_9799_812d_ea11).less(x.abs())
}

/// The axis that a signed basis vector lies along; 3 if it is none.
fn along(v: Vec3) -> (d: usize)
    ensures
        d <= 3,
        d < 3 ==> signed_axis(v, d as int),
        d == 3 ==> forall|k: int| !#[trigger] signed_axis(v, k),
{
    reveal(signed_axis);
    let x: bool = is_present(v.x);
    let y: bool = is_present(v.y);
    let z: bool = is_present(v.z);
    proof {
        assert(v.at(0) == v.x && v.at(1) == v.y && v.at(2) == v.z);
        assert(present(v.at(0)) == x && present(v.at(1)) == y && present(v.at(2)) == z);
    }
    let d: usize = if x && !y && !z {
        0
    } else if !x && y && !z {
        1
    } else if !x && !y && z {
        2
    } else {
        return 3;
    };
    let c: Double = v.component(d);
    let off: Double = c.abs().minus(Double::from_bits(0x3ff0_0000_0000_0000)).abs();
    if Double::from_bits(0x3d71_9799_812d_ea11).less(off) {
        proof {
            assert forall|k: int| !#[trigger] signed_axis(v, k) by {
                if signed_axis(v, k) {
                    assert(present(v.at(k)));
                    assert(present(v.at(d as int)));
                    assert(k == d);
                }
            }
        }
        return 3;
    }
    d
}

proof fn lemma_signed_axis_unique(v: Vec3, a: int, b: int)
    requires
        signed_axis(v, a),
        signed_axis(v, b),
    ensures
        a == b,
{
    reveal(signed_axis);
    assert(present(v.at(a)) <==> a == b);
    assert(present(v.at(a)) <==> a == a);
}

fn axis_at(k: usize) -> (a: Axis)
    ensures
        a == axis_of(k as int),
{
    if k == 0 {
        Axis::X
    } else if k == 1 {
        Axis::Y
    } else {
        Axis::Z
    }
}

/// Classifies a rigid transform, and says what crossing it costs. None if it is
/// not a rigid motion. `sample_distance` is the distance of a surface from its
/// samples, in cells.
pub fn classify(transform: &Mat4, spacing_mm: Double, sample_distance: Double) -> (r: Option<Regime>)
    ensures
        r is None <==> !rigid(*transform),
        r is Some ==> crossing(*transform, spacing_mm, sample_distance, r->Some_0),
{
    if !transform.is_finite() {
        return None;
    }
    let a: Vec3 = image_of(transform, 0);
    let b: Vec3 = image_of(transform, 1);
    let c: Vec3 = image_of(transform, 2);
    proof {
        assert(column(*transform, 0) == a && column(*transform, 1) == b && column(*transform, 2) == c);
    }
    if !has_unit_length(a) || !has_unit_length(b) || !has_unit_length(c) {
        return None;
    }
    if !are_perpendicular(a, b) || !are_perpendicular(a, c) || !are_perpendicular(b, c) {
        return None;
    }
    let p: usize = along(a);
    let q: usize = along(b);
    let s: usize = along(c);
    if p == 3 || q == 3 || s == 3 || p == q || q == s || p == s {
        proof {
            assert forall|to: Seq<int>| !#[trigger] permutes(*transform, to) by {
                if permutes(*transform, to) {
                    if p < 3 {
                        lemma_signed_axis_unique(a, p as int, to[0]);
                    }
                    if q < 3 {
                        lemma_signed_axis_unique(b, q as int, to[1]);
                    }
                    if s < 3 {
                        lemma_signed_axis_unique(c, s as int, to[2]);
                    }
                }
            }
        }
        return Some(Regime::Resampled { bound_mm: resample_bound(spacing_mm, sample_distance) });
    }
    let r: Regime = relabelled(a, b, c, p, q, s, Ghost(*transform));
    proof {
        let to = seq![p as int, q as int, s as int];
        assert(permutes(*transform, to));
    }
    Some(r)
}

/// The exact regime that takes the axes to `p`, `q` and `s`.
fn relabelled(a: Vec3, b: Vec3, c: Vec3, p: usize, q: usize, s: usize, Ghost(m): Ghost<Mat4>) -> (r: Regime)
    requires
        p < 3,
        q < 3,
        s < 3,
        p != q,
        q != s,
        p != s,
        a == column(m, 0),
        b == column(m, 1),
        c == column(m, 2),
    ensures
        r matches Regime::Exact { from, flipped } && ({
            let to = seq![p as int, q as int, s as int];
            forall|k: int|
                0 <= k < 3 ==> from@[#[trigger] to[k]] == axis_of(k) && flipped@[to[k]] == column(m, k).at(to[k]).lt(
                    Double { bits: 0 },
                )
        }),
{
    let mut from: [Axis; 3] = [Axis::X, Axis::X, Axis::X];
    let mut flipped: [bool; 3] = [false, false, false];
    let zero: Double = Double::zeroed();
    from[p] = axis_at(0);
    from[q] = axis_at(1);
    from[s] = axis_at(2);
    flipped[p] = a.component(p).less(zero);
    flipped[q] = b.component(q).less(zero);
    flipped[s] = c.component(s).less(zero);
    Regime::Exact { from, flipped }
}

/// A normal carried through a transform.
pub open spec fn turned_normal(n: OctNormal, m: Mat4) -> OctNormal {
    OctNormal {
        direction: match n.direction {
            Some(v) => Some(m.direction_image(v)),
            None => None,
        },
    }
}

/// Carries a normal through a transform.
fn rotate_normal(n: OctNormal, m: &Mat4) -> (r: OctNormal)
    ensures
        r == turned_normal(n, *m),
{
    match n.decode() {
        Some(v) => OctNormal::encode(m.transform_direction(v)),
        None => OctNormal::placeholder(),
    }
}

/// A span on a ray that runs the same way and starts `delta` before.
pub open spec fn shifted(s: Span, m: Mat4, delta: Double) -> Span {
    Span { t0: sum(s.t0, delta), t1: sum(s.t1, delta), n0: turned_normal(s.n0, m), n1: turned_normal(s.n1, m) }
}

/// A span on a ray that runs the other way: its ends change places.
pub open spec fn mirrored(s: Span, m: Mat4, delta: Double) -> Span {
    Span {
        t0: difference(delta, s.t1),
        t1: difference(delta, s.t0),
        n0: turned_normal(s.n1, m),
        n1: turned_normal(s.n0, m),
    }
}

/// The spans of a ray on its image.
pub open spec fn moved(s: Seq<Span>, m: Mat4, delta: Double, flipped: bool) -> Seq<Span> {
    if flipped {
        Seq::new(s.len(), |i: int| mirrored(s[s.len() - 1 - i], m, delta))
    } else {
        Seq::new(s.len(), |i: int| shifted(s[i], m, delta))
    }
}

/// Moves the spans of a ray onto its image.
pub fn move_spans(s: &[Span], m: &Mat4, delta: Double, flipped: bool) -> (v: Vec<Span>)
    ensures
        v@ == moved(s@, *m, delta, flipped),
{
    let mut v: Vec<Span> = Vec::new();
    let mut i: usize = 0;
    let n: usize = s.len();
    while i < n
        invariant
            i <= n,
            n == s@.len(),
            v@.len() == i,
            forall|k: int| 0 <= k < i ==> #[trigger] v@[k] == moved(s@, *m, delta, flipped)[k],
        decreases n - i,
    {
        if flipped {
            let x: Span = s[n - 1 - i];
            v.push(
                Span::with_normals(delta.minus(x.t1), delta.minus(x.t0), rotate_normal(x.n1, m), rotate_normal(x.n0, m)),
            );
        } else {
            let x: Span = s[i];
            v.push(
                Span::with_normals(x.t0.plus(delta), x.t1.plus(delta), rotate_normal(x.n0, m), rotate_normal(x.n1, m)),
            );
        }
        i = i + 1;
    }
    assert(v@ =~= moved(s@, *m, delta, flipped));
    v
}

/// The image of the start of ray `r`.
pub open spec fn image_start(m: Mat4, source: Lattice, r: int) -> Vec3 {
    m.point_image(source.start(r % source.count_u as int, r / source.count_u as int))
}

/// The ray of the destination that ray `r` of the source maps onto.
#[verifier::opaque]
pub open spec fn target_of(m: Mat4, source: Lattice, dest: Lattice, r: int) -> Option<int> {
    match dest.cell_at(image_start(m, source, r)) {
        Some(c) => Some(c.1 * dest.count_u + c.0),
        None => None,
    }
}

/// What ray `r` of the source puts on the ray that it maps onto.
#[verifier::opaque]
pub open spec fn arrival(
    m: Mat4,
    source: Lattice,
    dest: Lattice,
    flipped: bool,
    rays: Seq<Vec<Span>>,
    r: int,
) -> Seq<Span> {
    let image = image_start(m, source, r);
    let c = dest.cell_at(image)->Some_0;
    let d = dest.axis.number();
    moved(rays[r]@, m, difference(image.at(d), dest.start(c.0 as int, c.1 as int).at(d)), flipped)
}

/// What ray `t` of the destination holds, after the first `n` rays of the source
/// have been moved.
pub open spec fn landed(
    m: Mat4,
    source: Lattice,
    dest: Lattice,
    flipped: bool,
    rays: Seq<Vec<Span>>,
    t: int,
    n: nat,
) -> Seq<Span>
    decreases n,
{
    if n == 0 {
        Seq::empty()
    } else if rays[n - 1]@.len() > 0 && target_of(m, source, dest, n - 1) == Some(t) {
        arrival(m, source, dest, flipped, rays, n - 1)
    } else {
        landed(m, source, dest, flipped, rays, t, (n - 1) as nat)
    }
}

/// Every ray of the source that holds something maps onto a ray of the
/// destination.
pub open spec fn registered(m: Mat4, source: Lattice, dest: Lattice, rays: Seq<Vec<Span>>) -> bool {
    forall|r: int| 0 <= r < rays.len() && (#[trigger] rays[r])@.len() > 0 ==> target_of(m, source, dest, r) is Some
}

/// Which ray of the destination a ray maps onto, and what it puts there.
fn land(
    m: &Mat4,
    source: &Lattice,
    dest: &Lattice,
    flipped: bool,
    rays: &[Vec<Span>],
    r: u32,
) -> (x: Option<(u32, Vec<Span>)>)
    requires
        dest.wf(),
        rays@.len() == source.rays(),
        r < rays@.len(),
    ensures
        match x {
            None => target_of(*m, *source, *dest, r as int) is None,
            Some(p) => {
                &&& target_of(*m, *source, *dest, r as int) == Some(p.0 as int)
                &&& p.0 < dest.rays()
                &&& p.1@ == arrival(*m, *source, *dest, flipped, rays@, r as int)
            },
        },
{
    reveal(target_of);
    reveal(arrival);
    let (i, j) = source.coords(r);
    let image: Vec3 = m.transform_point(source.origin_of(i, j));
    assert(image == image_start(*m, *source, r as int));
    let (a, b) = match dest.ray_at_point(image) {
        Some(c) => c,
        None => {
            return None;
        },
    };
    let d: usize = dest.axis.index();
    let delta: Double = image.component(d).minus(dest.origin_of(a, b).component(d));
    let put: Vec<Span> = move_spans(rays[r as usize].as_slice(), m, delta, flipped);
    Some((dest.index(a, b), put))
}

/// Moves the rays of one bundle onto the lattice of the setup that follows. None
/// if a ray that holds something maps onto no ray.
pub fn move_bundle(
    m: &Mat4,
    source: &Lattice,
    dest: &Lattice,
    flipped: bool,
    rays: &[Vec<Span>],
) -> (r: Option<Vec<Vec<Span>>>)
    requires
        source.wf(),
        dest.wf(),
        rays@.len() == source.rays(),
    ensures
        r is Some <==> registered(*m, *source, *dest, rays@),
        r matches Some(v) ==> v@.len() == dest.rays() && forall|t: int|
            0 <= t < v@.len() ==> (#[trigger] v@[t])@ == landed(*m, *source, *dest, flipped, rays@, t, rays@.len()),
{
    let count: u32 = dest.ray_count();
    let mut v: Vec<Vec<Span>> = Vec::new();
    let mut k: u32 = 0;
    while k < count
        invariant
            k <= count,
            v@.len() == k,
            forall|t: int| 0 <= t < k ==> (#[trigger] v@[t])@ == Seq::<Span>::empty(),
        decreases count - k,
    {
        v.push(Vec::new());
        k = k + 1;
    }
    let mut r: u32 = 0;
    while (r as usize) < rays.len()
        invariant
            r <= rays@.len(),
            source.wf(),
            dest.wf(),
            rays@.len() == source.rays(),
            v@.len() == dest.rays(),
            forall|q: int|
                0 <= q < r && (#[trigger] rays@[q])@.len() > 0 ==> target_of(*m, *source, *dest, q) is Some,
            forall|t: int|
                0 <= t < v@.len() ==> (#[trigger] v@[t])@ == landed(*m, *source, *dest, flipped, rays@, t, r as nat),
        decreases rays@.len() - r,
    {
        if rays[r as usize].len() > 0 {
            let (t, put) = match land(m, source, dest, flipped, rays, r) {
                Some(x) => x,
                None => {
                    assert(rays@[r as int]@.len() > 0);
                    return None;
                },
            };
            v.set(t as usize, put);
        }
        r = r + 1;
    }
    Some(v)
}

/// The image of corner `c` of a box, whose three bits choose between the lower
/// and the upper coordinate.
pub open spec fn corner_of(b: Aabb3, c: int) -> Vec3 {
    Vec3 {
        x: if c % 2 == 0 {
            b.min.x
        } else {
            b.max.x
        },
        y: if (c / 2) % 2 == 0 {
            b.min.y
        } else {
            b.max.y
        },
        z: if (c / 4) % 2 == 0 {
            b.min.z
        } else {
            b.max.z
        },
    }
}

/// The box around the images of the first `n` corners of a box.
pub open spec fn turned_box(b: Aabb3, m: Mat4, n: nat) -> Aabb3
    decreases n,
{
    if n == 0 {
        empty_box()
    } else {
        box_union(turned_box(b, m, (n - 1) as nat), point_box(m.point_image(corner_of(b, n - 1))))
    }
}

/// The box around the image of a box.
pub fn rotate_box(b: &Aabb3, m: &Mat4) -> (r: Aabb3)
    ensures
        r == turned_box(*b, *m, 8),
{
    let mut r: Aabb3 = Aabb3::nothing();
    let mut c: u32 = 0;
    while c < 8
        invariant
            c <= 8,
            r == turned_box(*b, *m, c as nat),
        decreases 8 - c,
    {
        let p: Vec3 = Vec3::new(
            if c % 2 == 0 {
                b.min.x
            } else {
                b.max.x
            },
            if (c / 2) % 2 == 0 {
                b.min.y
            } else {
                b.max.y
            },
            if (c / 4) % 2 == 0 {
                b.min.z
            } else {
                b.max.z
            },
        );
        let q: Vec3 = m.transform_point(p);
        r = r.union(&Aabb3::new(q, q));
        c = c + 1;
    }
    r
}

/// The component of a vector that is greatest in magnitude; of equal ones, the
/// last.
pub open spec fn dominant(v: Vec3) -> int {
    let (x, y, z) = (v.x.absolute().total_key(), v.y.absolute().total_key(), v.z.absolute().total_key());
    if z >= x && z >= y {
        2
    } else if y >= x {
        1
    } else {
        0
    }
}

fn dominant_axis(v: Vec3) -> (d: usize)
    ensures
        d == dominant(v),
{
    let x: i64 = v.x.abs().total_order();
    let y: i64 = v.y.abs().total_order();
    let z: i64 = v.z.abs().total_order();
    if z >= x && z >= y {
        2
    } else if y >= x {
        1
    } else {
        0
    }
}

/// The pairs of a lattice change places on their way to the lattice along `axis`.
pub open spec fn swaps(source: Lattice, m: Mat4, axis: Axis) -> bool {
    let s = cyclic_of(source.axis);
    let d = cyclic_of(axis);
    dominant(column(m, s[0])) == d[1] || dominant(column(m, s[1])) == d[0]
}

/// Where a lattice ends up under an axis-aligned transform.
pub open spec fn turned_lattice(source: Lattice, m: Mat4, axis: Axis) -> Lattice {
    let at = Lattice { axis, origin: m.point_image(source.origin), ..source };
    if swaps(source, m, axis) {
        Lattice {
            spacing_u: source.spacing_v,
            spacing_v: source.spacing_u,
            count_u: source.count_v,
            count_v: source.count_u,
            extent_u: source.extent_v,
            extent_v: source.extent_u,
            pad_u: source.pad_v,
            pad_v: source.pad_u,
            ..at
        }
    } else {
        at
    }
}

/// Where a lattice ends up under an axis-aligned transform.
pub fn transformed_lattice(source: &Lattice, transform: &Mat4, axis: Axis) -> (r: Lattice)
    ensures
        r == turned_lattice(*source, *transform, axis),
{
    let (su, sv, sw) = cyclic(source.axis);
    let (du, dv, dw) = cyclic(axis);
    let iu: usize = dominant_axis(image_of(transform, su));
    let iv: usize = dominant_axis(image_of(transform, sv));
    let mut r: Lattice = *source;
    r.axis = axis;
    r.origin = transform.transform_point(source.origin);
    if iu == dv || iv == du {
        r.spacing_u = source.spacing_v;
        r.spacing_v = source.spacing_u;
        r.count_u = source.count_v;
        r.count_v = source.count_u;
        r.extent_u = source.extent_v;
        r.extent_v = source.extent_u;
        r.pad_u = source.pad_v;
        r.pad_v = source.pad_u;
    }
    r
}

/// A bundle of rays on its lattice.
#[derive(Debug)]
pub struct FieldBundle {
    /// The lattice.
    pub lattice: Lattice,
    /// The material of each ray.
    pub rays: Vec<Vec<Span>>,
}

impl FieldBundle {
    /// Material for each ray of the lattice.
    pub open spec fn wf(self) -> bool {
        self.lattice.wf() && self.rays@.len() == self.lattice.rays()
    }
}

/// The first bundle along an axis, or the number of bundles if there is none.
pub open spec fn bundle_along(field: Seq<FieldBundle>, axis: Axis, i: int) -> int
    decreases field.len() - i,
{
    if i < 0 || i >= field.len() || field[i].lattice.axis == axis {
        i
    } else {
        bundle_along(field, axis, i + 1)
    }
}

/// Whether destination axis `d`, which source axis `k` maps onto, is reversed.
pub open spec fn reversed(m: Mat4, k: int, d: int) -> bool {
    column(m, k).at(d).lt(Double { bits: 0 })
}

/// The bundle that becomes the one along destination axis `d`, if source axis `k`
/// maps onto it.
pub open spec fn predecessor(field: Seq<FieldBundle>, k: int) -> Option<FieldBundle> {
    let i = bundle_along(field, axis_of(k), 0);
    if i < field.len() {
        Some(field[i])
    } else {
        None
    }
}

/// Source axis `k` can be moved onto destination axis `d`.
pub open spec fn movable(field: Seq<FieldBundle>, m: Mat4, targets: Seq<Lattice>, k: int, d: int) -> bool {
    match predecessor(field, k) {
        None => true,
        Some(b) => registered(m, b.lattice, targets[d], b.rays@),
    }
}

/// `x` is what source axis `k` becomes along destination axis `d`.
pub open spec fn successor(
    field: Seq<FieldBundle>,
    m: Mat4,
    targets: Seq<Lattice>,
    k: int,
    d: int,
    x: Option<FieldBundle>,
) -> bool {
    match predecessor(field, k) {
        None => x is None,
        Some(b) => x matches Some(y) && y.lattice == targets[d] && y.rays@.len() == targets[d].rays() && forall|t: int|
            0 <= t < y.rays@.len() ==> (#[trigger] y.rays@[t])@ == landed(
                m,
                b.lattice,
                targets[d],
                reversed(m, k, d),
                b.rays@,
                t,
                b.rays@.len(),
            ),
    }
}

fn find_bundle(field: &[FieldBundle], axis: Axis) -> (i: usize)
    ensures
        i == bundle_along(field@, axis, 0),
        i <= field@.len(),
{
    let mut i: usize = 0;
    while i < field.len()
        invariant
            i <= field@.len(),
            bundle_along(field@, axis, 0) == bundle_along(field@, axis, i as int),
        decreases field@.len() - i,
    {
        if field[i].lattice.axis == axis {
            return i;
        }
        i = i + 1;
    }
    i
}

/// Moves a field into a new setup, exactly: only where the transform permutes the
/// axes, so that rays map onto rays. `targets` are the lattices of the new setup,
/// by axis. None if the field is empty, if the transform is anything else, or if
/// the lattices are not registered with each other.
pub fn refixture_exact(field: &[FieldBundle], transform: &Mat4, targets: &[Lattice]) -> (r: Option<Vec<Option<FieldBundle>>>)
    requires
        targets@.len() == 3,
        forall|d: int| 0 <= d < 3 ==> (#[trigger] targets@[d]).wf(),
        forall|i: int| 0 <= i < field@.len() ==> (#[trigger] field@[i]).wf(),
    ensures
        refixtured(field@, *transform, targets@, r),
{
    if field.len() == 0 {
        return None;
    }
    let zero: Double = Double::zeroed();
    let (from, flipped) = match classify(transform, zero, zero) {
        Some(Regime::Exact { from, flipped }) => (from, flipped),
        _ => {
            return None;
        },
    };
    let ghost to = choose|to: Seq<int>| #[trigger]
        permutes(*transform, to) && forall|k: int|
            0 <= k < 3 ==> from@[#[trigger] to[k]] == axis_of(k) && flipped@[to[k]] == column(*transform, k).at(to[k]).lt(
                Double { bits: 0 },
            );
    proof {
        reveal(signed_axis);
        assert(0 <= to[0] < 3 && 0 <= to[1] < 3 && 0 <= to[2] < 3);
    }
    let mut v: Vec<Option<FieldBundle>> = Vec::new();
    let mut d: usize = 0;
    while d < 3
        invariant
            d <= 3,
            v@.len() == d,
            targets@.len() == 3,
            forall|a: int| 0 <= a < 3 ==> (#[trigger] targets@[a]).wf(),
            forall|i: int| 0 <= i < field@.len() ==> (#[trigger] field@[i]).wf(),
            permutes(*transform, to),
            0 <= to[0] < 3,
            0 <= to[1] < 3,
            0 <= to[2] < 3,
            forall|k: int|
                0 <= k < 3 ==> from@[#[trigger] to[k]] == axis_of(k) && flipped@[to[k]] == reversed(*transform, k, to[k]),
            forall|k: int|
                0 <= k < 3 && #[trigger] to[k] < d ==> movable(field@, *transform, targets@, k, to[k]) && successor(
                    field@,
                    *transform,
                    targets@,
                    k,
                    to[k],
                    v@[to[k]],
                ),
        decreases 3 - d,
    {
        let ghost k = if to[0] == d {
            0int
        } else if to[1] == d {
            1
        } else {
            2
        };
        assert(to[k] == d);
        let i: usize = find_bundle(field, from[d]);
        if i < field.len() {
            let source: &FieldBundle = &field[i];
            match move_bundle(transform, &source.lattice, &targets[d], flipped[d], source.rays.as_slice()) {
                Some(rays) => {
                    v.push(Some(FieldBundle { lattice: targets[d], rays }));
                },
                None => {
                    proof {
                        lemma_not_movable(field@, *transform, targets@, to, k);
                    }
                    return None;
                },
            }
        } else {
            v.push(None);
        }
        d = d + 1;
    }
    proof {
        assert forall|k: int| 0 <= k < 3 implies successor(field@, *transform, targets@, k, #[trigger] to[k], v@[to[k]])
            && movable(field@, *transform, targets@, k, to[k]) by {
            assert(to[k] < 3);
        }
    }
    Some(v)
}

proof fn lemma_not_movable(field: Seq<FieldBundle>, m: Mat4, targets: Seq<Lattice>, to: Seq<int>, k: int)
    requires
        permutes(m, to),
        0 <= k < 3,
        !movable(field, m, targets, k, to[k]),
    ensures
        forall|u: Seq<int>| #[trigger]
            permutes(m, u) ==> exists|j: int| 0 <= j < 3 && !movable(field, m, targets, j, #[trigger] u[j]),
{
    assert forall|u: Seq<int>| #[trigger] permutes(m, u) implies exists|j: int|
        0 <= j < 3 && !movable(field, m, targets, j, #[trigger] u[j]) by {
        lemma_signed_axis_unique(column(m, 0), to[0], u[0]);
        lemma_signed_axis_unique(column(m, 1), to[1], u[1]);
        lemma_signed_axis_unique(column(m, 2), to[2], u[2]);
        assert(u[k] == to[k]);
    }
}

/// Spans on the first `n` rays.
pub open spec fn spans_held(rays: Seq<Vec<Span>>, n: nat) -> nat
    decreases n,
{
    if n == 0 {
        0
    } else {
        spans_held(rays, (n - 1) as nat) + rays[n - 1]@.len()
    }
}

/// Spans on the first `count` rays of the destination, after the first `n` rays of
/// the source have been moved.
spec fn spans_landed(
    m: Mat4,
    source: Lattice,
    dest: Lattice,
    flipped: bool,
    rays: Seq<Vec<Span>>,
    count: nat,
    n: nat,
) -> nat
    decreases count,
{
    if count == 0 {
        0
    } else {
        spans_landed(m, source, dest, flipped, rays, (count - 1) as nat, n) + landed(
            m,
            source,
            dest,
            flipped,
            rays,
            count - 1,
            n,
        ).len()
    }
}

/// No two rays that hold something map onto one ray.
pub open spec fn onto_different(m: Mat4, source: Lattice, dest: Lattice, rays: Seq<Vec<Span>>) -> bool {
    forall|q: int, r: int|
        #![trigger rays[q], rays[r]]
        0 <= q < r < rays.len() && rays[q]@.len() > 0 && rays[r]@.len() > 0 ==> target_of(m, source, dest, q)
            != target_of(m, source, dest, r)
}

proof fn lemma_nothing_landed(
    m: Mat4,
    source: Lattice,
    dest: Lattice,
    flipped: bool,
    rays: Seq<Vec<Span>>,
    t: int,
    n: nat,
)
    requires
        n <= rays.len(),
        forall|q: int| 0 <= q < n && (#[trigger] rays[q])@.len() > 0 ==> target_of(m, source, dest, q) != Some(t),
    ensures
        landed(m, source, dest, flipped, rays, t, n).len() == 0,
    decreases n,
{
    if n > 0 {
        let x = rays[n - 1];
        lemma_nothing_landed(m, source, dest, flipped, rays, t, (n - 1) as nat);
    }
}

/// One more ray adds its spans to one ray of the destination, and to no other.
proof fn lemma_one_lands(
    m: Mat4,
    source: Lattice,
    dest: Lattice,
    flipped: bool,
    rays: Seq<Vec<Span>>,
    count: nat,
    n: nat,
)
    requires
        0 < n <= rays.len(),
        onto_different(m, source, dest, rays),
    ensures
        spans_landed(m, source, dest, flipped, rays, count, n) == spans_landed(
            m,
            source,
            dest,
            flipped,
            rays,
            count,
            (n - 1) as nat,
        ) + (if rays[n - 1]@.len() > 0 && (target_of(m, source, dest, n - 1) matches Some(t) && 0 <= t < count) {
            rays[n - 1]@.len()
        } else {
            0
        }),
    decreases count,
{
    if count > 0 {
        let k = count - 1;
        lemma_one_lands(m, source, dest, flipped, rays, k as nat, n);
        if rays[n - 1]@.len() > 0 && target_of(m, source, dest, n - 1) == Some(k) {
            assert forall|q: int| 0 <= q < n - 1 && (#[trigger] rays[q])@.len() > 0 implies target_of(
                m,
                source,
                dest,
                q,
            ) != Some(k) by {
                assert(rays[n - 1]@.len() > 0);
            }
            lemma_nothing_landed(m, source, dest, flipped, rays, k, (n - 1) as nat);
            reveal(arrival);
        }
    }
}

proof fn lemma_all_land(
    m: Mat4,
    source: Lattice,
    dest: Lattice,
    flipped: bool,
    rays: Seq<Vec<Span>>,
    count: nat,
    n: nat,
)
    requires
        n <= rays.len(),
        onto_different(m, source, dest, rays),
        forall|r: int|
            0 <= r < rays.len() && (#[trigger] rays[r])@.len() > 0 ==> (target_of(m, source, dest, r) matches Some(t)
                && 0 <= t < count),
    ensures
        spans_landed(m, source, dest, flipped, rays, count, n) == spans_held(rays, n),
    decreases n,
{
    if n > 0 {
        let x = rays[n - 1];
        lemma_all_land(m, source, dest, flipped, rays, count, (n - 1) as nat);
        lemma_one_lands(m, source, dest, flipped, rays, count, n);
    } else {
        lemma_none_land(m, source, dest, flipped, rays, count);
    }
}

proof fn lemma_none_land(m: Mat4, source: Lattice, dest: Lattice, flipped: bool, rays: Seq<Vec<Span>>, count: nat)
    ensures
        spans_landed(m, source, dest, flipped, rays, count, 0) == 0,
    decreases count,
{
    if count > 0 {
        lemma_none_land(m, source, dest, flipped, rays, (count - 1) as nat);
    }
}

proof fn lemma_held_is_landed(
    m: Mat4,
    source: Lattice,
    dest: Lattice,
    flipped: bool,
    rays: Seq<Vec<Span>>,
    after: Seq<Vec<Span>>,
    count: nat,
)
    requires
        count <= after.len(),
        forall|t: int|
            0 <= t < after.len() ==> (#[trigger] after[t])@ == landed(m, source, dest, flipped, rays, t, rays.len()),
    ensures
        spans_held(after, count) == spans_landed(m, source, dest, flipped, rays, count, rays.len()),
    decreases count,
{
    if count > 0 {
        let x = after[count - 1];
        lemma_held_is_landed(m, source, dest, flipped, rays, after, (count - 1) as nat);
    }
}

/// Moving a bundle keeps the number of its spans, where no two rays that hold
/// something map onto one.
pub proof fn law_moving_keeps_every_span(
    m: Mat4,
    source: Lattice,
    dest: Lattice,
    flipped: bool,
    rays: Seq<Vec<Span>>,
    after: Seq<Vec<Span>>,
)
    requires
        registered(m, source, dest, rays),
        onto_different(m, source, dest, rays),
        forall|r: int|
            0 <= r < rays.len() && (#[trigger] target_of(m, source, dest, r) matches Some(t)) ==> 0 <= target_of(
                m,
                source,
                dest,
                r,
            )->0 < dest.rays(),
        after.len() == dest.rays(),
        forall|t: int|
            0 <= t < after.len() ==> (#[trigger] after[t])@ == landed(m, source, dest, flipped, rays, t, rays.len()),
    ensures
        spans_held(after, after.len()) == spans_held(rays, rays.len()),
{
    assert forall|r: int| 0 <= r < rays.len() && (#[trigger] rays[r])@.len() > 0 implies (target_of(m, source, dest, r) matches Some(t)
        && 0 <= t < after.len()) by {
        assert(target_of(m, source, dest, r) is Some);
    }
    lemma_all_land(m, source, dest, flipped, rays, after.len(), rays.len());
    lemma_held_is_landed(m, source, dest, flipped, rays, after, after.len());
}

/// What moving a field comes to: nothing, or a bundle for each axis.
pub open spec fn refixtured(
    field: Seq<FieldBundle>,
    m: Mat4,
    targets: Seq<Lattice>,
    r: Option<Vec<Option<FieldBundle>>>,
) -> bool {
    &&& r is Some <==> field.len() > 0 && rigid(m) && exists|to: Seq<int>| #[trigger]
        permutes(m, to) && forall|k: int| 0 <= k < 3 ==> movable(field, m, targets, k, #[trigger] to[k])
    &&& r matches Some(v) ==> v@.len() == 3 && exists|to: Seq<int>| #[trigger]
        permutes(m, to) && forall|k: int| 0 <= k < 3 ==> successor(field, m, targets, k, #[trigger] to[k], v@[to[k]])
}

} // verus!
