//! Moving stock between setups keeps its material: what is where it was before,
//! seen from the new setup.

use crate::arithmetic::{difference, product, sum};
use crate::double::Double;
use crate::error_bounds::{
    law_difference_error, law_product_is_under, law_sum_error, law_sum_is_under, law_three_products_error, parts, size, under, whole,
};
use crate::lattice::{cyclic_of, Lattice};
use crate::math::{lemma_box_union_encloses, point_box, Aabb3, Axis, Vec3};
use crate::order::{law_difference_keeps_order, law_difference_keeps_order_first, law_difference_nan};
use crate::refixture::{arrival, column, corner_of, dominant, image_start, landed, moved, onto_different, target_of, turned_box, turned_lattice, Mat4};
use crate::spans::Span;
use crate::sweep::arc_laws::{covers, holds};
use vstd::arithmetic::power2::lemma_pow2_strictly_increases;
use vstd::prelude::*;

verus! {

/// Where a parameter of a ray lies on the image of the ray: `delta` on, or as far
/// before `delta` if the image runs the other way.
pub open spec fn carried(t: Double, delta: Double, flipped: bool) -> Double {
    if flipped {
        difference(delta, t)
    } else {
        sum(t, delta)
    }
}

/// The ends of all spans are finite.
pub open spec fn finite_spans(s: Seq<Span>) -> bool {
    forall|i: int| 0 <= i < s.len() ==> (#[trigger] s[i]).t0.finite() && s[i].t1.finite()
}

/// The parameter lies between the ends of some span.
pub open spec fn inside(s: Seq<Span>, t: Double) -> bool {
    exists|i: int| 0 <= i < s.len() && (#[trigger] s[i]).t0.lt(t) && t.lt(s[i].t1)
}

/// Carrying keeps the order, or turns it round.
proof fn lemma_carried_order(a: Double, b: Double, delta: Double, flipped: bool)
    requires
        a.finite(),
        b.finite(),
        delta.finite(),
        a.le(b),
    ensures
        flipped ==> carried(b, delta, flipped).le(carried(a, delta, flipped)),
        !flipped ==> carried(a, delta, flipped).le(carried(b, delta, flipped)),
{
    let back = delta.negated();
    assert(back.negated() == delta);
    assert(back.abs_bits() == delta.abs_bits());
    assert(sum(a, delta) == difference(a, back));
    assert(sum(b, delta) == difference(b, back));
    law_difference_nan(delta, a);
    law_difference_nan(delta, b);
    law_difference_nan(a, back);
    law_difference_nan(b, back);
    law_difference_keeps_order(delta, a, b);
    law_difference_keeps_order_first(a, b, back);
}

/// Moving the spans of a ray keeps its material. Every parameter that was in it is
/// in it where it was carried, and a parameter that is carried between the ends of
/// a moved span was between the ends of a span before. So nothing is lost, nothing
/// is added, and only at an end can rounding make two parameters one.
pub proof fn law_moving_carries_material(s: Seq<Span>, m: Mat4, delta: Double, flipped: bool, t: Double)
    requires
        finite_spans(s),
        delta.finite(),
        t.finite(),
    ensures
        covers(s, t) ==> covers(moved(s, m, delta, flipped), carried(t, delta, flipped)),
        inside(moved(s, m, delta, flipped), carried(t, delta, flipped)) ==> inside(s, t),
{
    let r = moved(s, m, delta, flipped);
    let n = s.len() as int;
    let x = carried(t, delta, flipped);
    if covers(s, t) {
        let i = choose|i: int| 0 <= i < s.len() && holds(#[trigger] s[i], t);
        let j = if flipped {
            n - 1 - i
        } else {
            i
        };
        lemma_carried_order(s[i].t0, t, delta, flipped);
        lemma_carried_order(t, s[i].t1, delta, flipped);
        assert(holds(r[j], x));
    }
    if inside(r, x) {
        let j = choose|j: int| 0 <= j < r.len() && (#[trigger] r[j]).t0.lt(x) && x.lt(r[j].t1);
        let i = if flipped {
            n - 1 - j
        } else {
            j
        };
        let y = s[i];
        if !y.t0.lt(t) {
            lemma_carried_order(t, y.t0, delta, flipped);
        }
        if !t.lt(y.t1) {
            lemma_carried_order(y.t1, t, delta, flipped);
        }
        assert(y.t0.lt(t) && t.lt(y.t1));
    }
}

/// Moved spans are as many as before and follow each other where the spans did, in
/// ascending order whichever way the ray runs.
pub proof fn law_moving_keeps_order(s: Seq<Span>, m: Mat4, delta: Double, flipped: bool)
    requires
        finite_spans(s),
        delta.finite(),
        forall|i: int| 0 <= i < s.len() ==> (#[trigger] s[i]).t0.le(s[i].t1),
        forall|i: int, j: int| 0 <= i < j < s.len() ==> (#[trigger] s[i]).t1.le((#[trigger] s[j]).t0),
    ensures
        ({
            let r = moved(s, m, delta, flipped);
            &&& r.len() == s.len()
            &&& forall|i: int| 0 <= i < r.len() ==> (#[trigger] r[i]).t0.le(r[i].t1)
            &&& forall|i: int, j: int| 0 <= i < j < r.len() ==> (#[trigger] r[i]).t1.le((#[trigger] r[j]).t0)
        }),
{
    let r = moved(s, m, delta, flipped);
    let n = s.len() as int;
    assert forall|i: int| 0 <= i < r.len() implies (#[trigger] r[i]).t0.le(r[i].t1) by {
        let k = if flipped {
            n - 1 - i
        } else {
            i
        };
        let y = s[k];
        lemma_carried_order(y.t0, y.t1, delta, flipped);
    }
    assert forall|i: int, j: int| 0 <= i < j < r.len() implies (#[trigger] r[i]).t1.le((#[trigger] r[j]).t0) by {
        if flipped {
            let (a, b) = (s[n - 1 - j], s[n - 1 - i]);
            assert(a.t1.le(b.t0));
            lemma_carried_order(a.t1, b.t0, delta, flipped);
        } else {
            let (a, b) = (s[i], s[j]);
            assert(a.t1.le(b.t0));
            lemma_carried_order(a.t1, b.t0, delta, flipped);
        }
    }
}

/// `y` is `x` where it was carried, with the normals of its ends turned: on a ray
/// that runs the other way, a lower end becomes an upper one.
pub open spec fn carried_span(x: Span, y: Span, m: Mat4, delta: Double, flipped: bool) -> bool {
    let low = match x.n0.direction {
        Some(v) => Some(m.direction_image(v)),
        None => None,
    };
    let high = match x.n1.direction {
        Some(v) => Some(m.direction_image(v)),
        None => None,
    };
    if flipped {
        &&& y.t0 == carried(x.t1, delta, flipped) && y.n0.direction == high
        &&& y.t1 == carried(x.t0, delta, flipped) && y.n1.direction == low
    } else {
        &&& y.t0 == carried(x.t0, delta, flipped) && y.n0.direction == low
        &&& y.t1 == carried(x.t1, delta, flipped) && y.n1.direction == high
    }
}

/// Every span is among the moved ones where it was carried, with its normals turned,
/// and every moved span was there before.
pub proof fn law_moving_carries_spans(s: Seq<Span>, m: Mat4, delta: Double, flipped: bool, i: int)
    requires
        0 <= i < s.len(),
    ensures
        exists|j: int|
            0 <= j < moved(s, m, delta, flipped).len() && carried_span(
                s[i],
                #[trigger] moved(s, m, delta, flipped)[j],
                m,
                delta,
                flipped,
            ),
        exists|j: int|
            0 <= j < s.len() && carried_span(#[trigger] s[j], moved(s, m, delta, flipped)[i], m, delta, flipped),
{
    let r = moved(s, m, delta, flipped);
    let j = if flipped {
        s.len() - 1 - i
    } else {
        i
    };
    assert(carried_span(s[i], r[j], m, delta, flipped));
    assert(carried_span(s[j], r[i], m, delta, flipped));
}

/// The ray that ray `q` of a bundle maps onto holds its material, where no two rays
/// that hold something map onto one: carried by how far, along the rays, the image
/// of its start lies from the start of the ray it maps onto. Nothing else is there.
pub proof fn law_bundle_carries_material(
    m: Mat4,
    source: Lattice,
    dest: Lattice,
    flipped: bool,
    rays: Seq<Vec<Span>>,
    q: int,
    t: Double,
)
    requires
        onto_different(m, source, dest, rays),
        0 <= q < rays.len(),
        rays[q]@.len() > 0,
        finite_spans(rays[q]@),
        t.finite(),
        ({
            let image = m.point_image(source.start(q % source.count_u as int, q / source.count_u as int));
            let d = dest.axis.number();
            dest.cell_at(image) matches Some(c) && under(image.at(d), 1274) && under(
                dest.start(c.0 as int, c.1 as int).at(d),
                1274,
            )
        }),
    ensures
        ({
            let image = m.point_image(source.start(q % source.count_u as int, q / source.count_u as int));
            let d = dest.axis.number();
            let c = dest.cell_at(image)->Some_0;
            let start = dest.start(c.0 as int, c.1 as int).at(d);
            let there = landed(m, source, dest, flipped, rays, c.1 * dest.count_u + c.0, rays.len());
            exists|delta: Double|
                delta.finite() && size(delta.value() - (image.at(d).value() - start.value())) * parts() <= size(
                    image.at(d).value() - start.value(),
                ) && (covers(rays[q]@, t) ==> covers(there, #[trigger] carried(t, delta, flipped))) && (inside(
                    there,
                    carried(t, delta, flipped),
                ) ==> inside(rays[q]@, t))
        }),
{
    reveal(target_of);
    reveal(arrival);
    let image = m.point_image(source.start(q % source.count_u as int, q / source.count_u as int));
    assert(image == image_start(m, source, q));
    let d = dest.axis.number();
    let c = dest.cell_at(image)->Some_0;
    let start = dest.start(c.0 as int, c.1 as int).at(d);
    let delta = difference(image.at(d), start);
    law_sum_is_under(image.at(d), start, 1274);
    law_difference_error(image.at(d), start);
    let k = c.1 * dest.count_u + c.0;
    assert(target_of(m, source, dest, q) == Some(k));
    lemma_lands(m, source, dest, flipped, rays, q, k, rays.len());
    assert(landed(m, source, dest, flipped, rays, k, rays.len()) == moved(rays[q]@, m, delta, flipped));
    law_moving_carries_material(rays[q]@, m, delta, flipped, t);
    let x = carried(t, delta, flipped);
}

proof fn lemma_lands(
    m: Mat4,
    source: Lattice,
    dest: Lattice,
    flipped: bool,
    rays: Seq<Vec<Span>>,
    q: int,
    k: int,
    n: nat,
)
    requires
        onto_different(m, source, dest, rays),
        0 <= q < n <= rays.len(),
        rays[q]@.len() > 0,
        target_of(m, source, dest, q) == Some(k),
    ensures
        landed(m, source, dest, flipped, rays, k, n) == arrival(m, source, dest, flipped, rays, q),
    decreases n,
{
    if q < n - 1 {
        let (x, y) = (rays[q], rays[n - 1]);
        assert(y@.len() > 0 ==> target_of(m, source, dest, n - 1) != Some(k));
        lemma_lands(m, source, dest, flipped, rays, q, k, (n - 1) as nat);
    }
}

/// The exact image of a direction, along one axis.
pub open spec fn exact_image(m: Mat4, v: Vec3, i: int) -> int {
    m.entry(i, 0).value() * v.x.value() + m.entry(i, 1).value() * v.y.value() + m.entry(i, 2).value() * v.z.value()
}

/// The terms of an image without their signs.
pub open spec fn image_weight(m: Mat4, v: Vec3, i: int) -> int {
    size(m.entry(i, 0).value() * v.x.value()) + size(m.entry(i, 1).value() * v.y.value()) + size(
        m.entry(i, 2).value() * v.z.value(),
    )
}

/// Entries and coordinates that are far from overflowing.
pub open spec fn moderate_image(m: Mat4, v: Vec3) -> bool {
    &&& forall|i: int, j: int| 0 <= i < 4 && 0 <= j < 4 ==> under(#[trigger] m.entry(i, j), 1274)
    &&& under(v.x, 1274)
    &&& under(v.y, 1274)
    &&& under(v.z, 1274)
}

proof fn lemma_row(m: Mat4, v: Vec3, i: int)
    requires
        moderate_image(m, v),
        0 <= i < 3,
    ensures
        under(m.turned(v, i), 1480),
        size(m.turned(v, i).value() * whole() - exact_image(m, v, i)) * parts() <= 8 * image_weight(m, v, i) + 6 * parts()
            * whole(),
{
    let (a, b, c) = (m.entry(i, 0), m.entry(i, 1), m.entry(i, 2));
    law_product_is_under(a, v.x, 1274, 1274);
    law_product_is_under(b, v.y, 1274, 1274);
    law_product_is_under(c, v.z, 1274, 1274);
    law_sum_is_under(product(a, v.x), product(b, v.y), 1474);
    lemma_pow2_strictly_increases(1474, 1475);
    law_sum_is_under(sum(product(a, v.x), product(b, v.y)), product(c, v.z), 1475);
    lemma_pow2_strictly_increases(1476, 1480);
    law_three_products_error(a, v.x, b, v.y, c, v.z);
}

/// A direction is turned by the rows of the matrix: component `i` of its image is
/// the product of row `i` with it, but for what rounding may lose.
pub proof fn law_directions_turn_by_rows(m: Mat4, v: Vec3, i: int)
    requires
        moderate_image(m, v),
        0 <= i < 3,
    ensures
        size(m.direction_image(v).at(i).value() * whole() - exact_image(m, v, i)) * parts() <= 8 * image_weight(m, v, i)
            + 6 * parts() * whole(),
{
    lemma_row(m, v, i);
}

/// A point is turned by the rows of the matrix and moved by its last column, but for
/// what rounding may lose.
pub proof fn law_points_turn_and_move(m: Mat4, v: Vec3, i: int)
    requires
        moderate_image(m, v),
        0 <= i < 3,
    ensures
        size(
            m.point_image(v).at(i).value() * whole() - (exact_image(m, v, i) + m.entry(i, 3).value() * whole()),
        ) * parts() <= 18 * (image_weight(m, v, i) + size(m.entry(i, 3).value()) * whole()) + 12 * parts() * whole(),
{
    lemma_row(m, v, i);
    let (a, b) = (m.turned(v, i), m.entry(i, 3));
    lemma_pow2_strictly_increases(1274, 1480);
    law_sum_is_under(a, b, 1480);
    law_sum_error(a, b);
    vstd::arithmetic::power2::lemma_pow2_pos(1074);
    lemma_moved(
        a.value(),
        b.value(),
        sum(a, b).value(),
        exact_image(m, v, i),
        image_weight(m, v, i),
        whole(),
    );
}

proof fn lemma_moved(a: int, b: int, s: int, x: int, xs: int, w: int)
    requires
        w > 0,
        size(x) <= xs,
        size(a * w - x) * parts() <= 8 * xs + 6 * parts() * w,
        size(s - (a + b)) * parts() <= size(a + b),
    ensures
        size(s * w - (x + b * w)) * parts() <= 18 * (xs + size(b) * w) + 12 * parts() * w,
{
    let k = parts();
    let (e, g) = (a * w - x, s - (a + b));
    assert(s * w - (x + b * w) == g * w + e) by (nonlinear_arith)
        requires
            e == a * w - x,
            g == s - (a + b),
    ;
    assert((a + b) * w == x + e + b * w) by (nonlinear_arith)
        requires
            e == a * w - x,
    ;
    crate::error_bounds::lemma_size_of_product(a + b, w);
    crate::error_bounds::lemma_size_of_product(g, w);
    crate::error_bounds::lemma_size_of_product(b, w);
    let es = size(e);
    assert(size(g) * w * k <= size(a + b) * w) by (nonlinear_arith)
        requires
            size(g) * k <= size(a + b),
            w > 0,
    ;
    assert(size(s * w - (x + b * w)) <= size(g) * w + es);
    assert(size(s * w - (x + b * w)) * k <= size(g) * w * k + es * k) by (nonlinear_arith)
        requires
            size(s * w - (x + b * w)) <= size(g) * w + es,
            k > 0,
    ;
    assert(es <= es * k) by (nonlinear_arith)
        requires
            es >= 0,
            k >= 1,
    ;
    assert(6 * k * w == 6 * (k * w) && 12 * k * w == 12 * (k * w)) by (nonlinear_arith);
}

proof fn lemma_turned_box_holds(b: Aabb3, m: Mat4, n: nat, c: int)
    requires
        0 <= c < n <= 8,
        forall|i: int| 0 <= i < n ==> m.point_image(#[trigger] corner_of(b, i)).finite(),
    ensures
        turned_box(b, m, n).holds(m.point_image(corner_of(b, c))),
    decreases n,
{
    lemma_turned_box_numbers(b, m, (n - 1) as nat);
    assert(m.point_image(corner_of(b, n - 1)).finite());
    assert(m.point_image(corner_of(b, c)).finite());
    if c < n - 1 {
        lemma_turned_box_holds(b, m, (n - 1) as nat, c);
    }
    lemma_box_union_encloses(
        turned_box(b, m, (n - 1) as nat),
        point_box(m.point_image(corner_of(b, n - 1))),
        m.point_image(corner_of(b, c)),
    );
}

proof fn lemma_turned_box_numbers(b: Aabb3, m: Mat4, n: nat)
    requires
        n <= 8,
        forall|i: int| 0 <= i < n ==> m.point_image(#[trigger] corner_of(b, i)).finite(),
    ensures
        ({
            let t = turned_box(b, m, n);
            &&& !t.min.x.nan() && !t.min.y.nan() && !t.min.z.nan()
            &&& !t.max.x.nan() && !t.max.y.nan() && !t.max.z.nan()
        }),
    decreases n,
{
    if n > 0 {
        lemma_turned_box_numbers(b, m, (n - 1) as nat);
        assert(m.point_image(corner_of(b, n - 1)).finite());
    }
}

/// A point is a corner of a box: each coordinate is the lower or the upper one.
pub open spec fn is_corner(b: Aabb3, p: Vec3) -> bool {
    (p.x == b.min.x || p.x == b.max.x) && (p.y == b.min.y || p.y == b.max.y) && (p.z == b.min.z || p.z == b.max.z)
}

/// The box around the image of a box holds the image of each of its corners.
pub proof fn law_turned_box_holds_the_corners(b: Aabb3, m: Mat4, p: Vec3)
    requires
        is_corner(b, p),
        forall|q: Vec3| is_corner(b, q) ==> (#[trigger] m.point_image(q)).finite(),
    ensures
        turned_box(b, m, 8).holds(m.point_image(p)),
{
    let x = if p.x == b.min.x {
        0int
    } else {
        1
    };
    let y = if p.y == b.min.y {
        0int
    } else {
        2
    };
    let z = if p.z == b.min.z {
        0int
    } else {
        4
    };
    let c = x + y + z;
    assert(corner_of(b, c) == p);
    assert forall|i: int| 0 <= i < 8 implies m.point_image(#[trigger] corner_of(b, i)).finite() by {
        assert(is_corner(b, corner_of(b, i)));
    }
    lemma_turned_box_holds(b, m, 8, c);
}

/// A vector points along an axis more than along any other.
pub open spec fn points_along(v: Vec3, d: int) -> bool {
    &&& 0 <= d < 3
    &&& forall|j: int| 0 <= j < 3 && j != d ==> (#[trigger] v.at(j)).absolute().lt(v.at(d).absolute())
}

/// What a lattice has along one of the axes across it: the spacing, the number of
/// rays, the extent and the pad.
pub open spec fn measures(l: Lattice, d: int) -> (Double, u32, Double, Double) {
    if cyclic_of(l.axis)[0] == d {
        (l.spacing_u, l.count_u, l.extent_u, l.pad_u)
    } else {
        (l.spacing_v, l.count_v, l.extent_v, l.pad_v)
    }
}

proof fn lemma_dominant(v: Vec3, d: int)
    requires
        points_along(v, d),
    ensures
        dominant(v) == d,
{
    assert(v.at(0) == v.x && v.at(1) == v.y && v.at(2) == v.z);
    if d != 0 {
        assert(v.at(0).absolute().lt(v.at(d).absolute()));
    }
    if d != 1 {
        assert(v.at(1).absolute().lt(v.at(d).absolute()));
    }
    if d != 2 {
        assert(v.at(2).absolute().lt(v.at(d).absolute()));
    }
}

/// A lattice turns with its axes: what it has along an axis, its image has along the
/// axis that the image of that axis points along. The extent along the rays stays, and
/// the corner goes where the transform takes it.
pub proof fn law_lattice_turns_with_its_axes(source: Lattice, m: Mat4, axis: Axis, u: int, v: int)
    requires
        points_along(column(m, cyclic_of(source.axis)[0]), u),
        points_along(column(m, cyclic_of(source.axis)[1]), v),
        u != v && u != axis.number() && v != axis.number(),
    ensures
        ({
            let r = turned_lattice(source, m, axis);
            &&& r.axis == axis && r.origin == m.point_image(source.origin) && r.length == source.length
            &&& measures(r, u) == measures(source, cyclic_of(source.axis)[0])
            &&& measures(r, v) == measures(source, cyclic_of(source.axis)[1])
        }),
{
    lemma_dominant(column(m, cyclic_of(source.axis)[0]), u);
    lemma_dominant(column(m, cyclic_of(source.axis)[1]), v);
    match axis {
        Axis::X => {},
        Axis::Y => {},
        Axis::Z => {},
    }
    match source.axis {
        Axis::X => {},
        Axis::Y => {},
        Axis::Z => {},
    }
}

} // verus!
