//! That a lattice finds each of its rays where it starts.

use crate::arithmetic::{difference, of_int, product, quotient, sum};
use crate::double::Double;
use crate::error_bounds::{lemma_magnitude_not_negative, whole};
use crate::exactness::{
    is_whole, law_integers_stand, law_short_products_are_exact, law_short_quotients_are_exact,
    law_short_sums_are_exact, stands,
};
use crate::lattice::{cell_middle, cell_of, half, Lattice};
use crate::math::{Axis, Vec3};
use crate::mesh::weld::{nearest_whole, whole_of};
use vstd::arithmetic::div_mod::lemma_fundamental_div_mod_converse;
use vstd::arithmetic::mul::*;
use vstd::arithmetic::power2::{lemma2_to64, lemma_pow2_adds, lemma_pow2_pos, pow2};
use vstd::prelude::*;

verus! {

/// An integer of at most thirty-one bits.
pub open spec fn middling(k: int) -> bool {
    -0x4000_0000 <= k <= 0x4000_0000
}

proof fn lemma_half_stands()
    ensures
        stands(half(), 1, 1073),
{
    crate::rounding::lemma_pow2_53();
    lemma_pow2_adds(52, 1021);
    lemma_mul_basics(pow2(1073) as int);
}

/// A number of whole units is twice as many halves.
proof fn lemma_halves(x: Double, k: int)
    ensures
        is_whole(x, k) <==> stands(x, 2 * k, 1073),
{
    lemma_pow2_adds(1, 1073);
    assert(pow2(1) == 2) by {
        lemma2_to64();
    }
    lemma_mul_is_associative(k, 2, pow2(1073) as int);
    lemma_mul_is_commutative(k, 2);
}

/// Where cells start, in integers: the middle of cell `i` is half a spacing past `i`
/// whole ones, from the corner less the pad.
pub proof fn law_cells_are_evenly_spaced(corner: Double, pad: Double, spacing: Double, a: int, b: int, g: int, i: int)
    requires
        is_whole(corner, a) && is_whole(pad, b) && is_whole(spacing, 2 * g),
        middling(a) && middling(b) && 0 < g && 0 <= i < 0x1_0000_0000,
        (2 * i + 1) * g <= 0x100_0000_0000,
    ensures
        is_whole(cell_middle(corner, pad, spacing, i), a - b + (2 * i + 1) * g),
{
    let n = of_int(i);
    lemma_half_stands();
    law_integers_stand(i);
    lemma_halves(n, i);
    law_short_sums_are_exact(n, half(), 2 * i, 1, 1073);
    let m = sum(n, half());
    let k = (2 * i + 1) * g;
    assert((2 * i + 1) * (2 * g) == 2 * k) by (nonlinear_arith)
        requires
            k == (2 * i + 1) * g,
    ;
    assert(k > 0) by (nonlinear_arith)
        requires
            k == (2 * i + 1) * g,
            i >= 0,
            g > 0,
    ;
    law_short_products_are_exact(m, spacing, 2 * i + 1, 2 * g, 1073, 1074);
    let p = product(m, spacing);
    lemma_halves(p, k);
    law_short_sums_are_exact(corner, pad, a, b, 1074);
    law_short_sums_are_exact(difference(corner, pad), p, a - b, k, 1074);
}

/// The cell of a coordinate in the middle of cell `i` is cell `i`.
pub proof fn law_cells_are_found(
    p: Double,
    corner: Double,
    pad: Double,
    spacing: Double,
    count: u32,
    a: int,
    b: int,
    g: int,
    i: int,
)
    requires
        is_whole(corner, a) && is_whole(pad, b) && is_whole(spacing, 2 * g),
        middling(a) && middling(b) && 0 < g && 0 <= i < count,
        (2 * i + 1) * g <= 0x100_0000_0000,
        is_whole(p, a - b + (2 * i + 1) * g),
    ensures
        cell_of(p, corner, pad, spacing, count) == Some(i as u32),
{
    let k = (2 * i + 1) * g;
    assert(k > 0) by (nonlinear_arith)
        requires
            k == (2 * i + 1) * g,
            i >= 0,
            g > 0,
    ;
    law_short_sums_are_exact(p, corner, a - b + k, a, 1074);
    let d = difference(p, corner);
    law_short_sums_are_exact(d, pad, k - b, b, 1074);
    let e = sum(d, pad);
    lemma_halves(e, k);
    assert(2 * k == (2 * i + 1) * (2 * g)) by (nonlinear_arith)
        requires
            k == (2 * i + 1) * g,
    ;
    law_short_quotients_are_exact(e, spacing, 2 * i + 1, 2 * g, 1073, 1074);
    let q = quotient(e, spacing);
    lemma_half_stands();
    law_short_sums_are_exact(q, half(), 2 * i + 1, 1, 1073);
    let raw = difference(q, half());
    lemma_halves(raw, i);
    lemma_magnitude_not_negative(raw);
    lemma_pow2_pos(1074);
    let w = whole();
    assert(i * w >= 0) by (nonlinear_arith)
        requires
            i >= 0,
            w > 0,
    ;
    assert(raw.magnitude() == i * w);
    assert(2 * (i * w) + w == (2 * w) * i + w) by (nonlinear_arith);
    lemma_mul_is_commutative(i, 2 * w);
    lemma_fundamental_div_mod_converse(2 * (i * w) + w, 2 * w, i, w);
    assert(whole_of(raw) == i || whole_of(raw) == -i);
    if raw.signed() {
        assert(raw.value() == -(i * w));
        assert(i == 0) by (nonlinear_arith)
            requires
                i * w == -(i * w),
                w > 0,
        ;
    }
    assert(nearest_whole(raw) == Some(i as i64));
    law_integers_stand(i);
    law_short_sums_are_exact(raw, of_int(i), i, i, 1074);
    let off = difference(raw, of_int(i));
    assert(off.value() == 0) by {
        assert(0 * pow2(1074) == 0);
    }
    lemma_magnitude_not_negative(off);
    assert(off.absolute().key() == 0);
}

/// A lattice whose corner, pads and half spacings are integers.
pub open spec fn whole_lattice(l: Lattice, corner: (int, int), pad: (int, int), g: (int, int)) -> bool {
    let (u, v) = across(l.axis, l.origin);
    &&& is_whole(u, corner.0) && is_whole(v, corner.1)
    &&& is_whole(l.pad_u, pad.0) && is_whole(l.pad_v, pad.1)
    &&& is_whole(l.spacing_u, 2 * g.0) && is_whole(l.spacing_v, 2 * g.1)
    &&& middling(corner.0) && middling(corner.1) && middling(pad.0) && middling(pad.1) && g.0 > 0 && g.1 > 0
}

/// The coordinates of a point across an axis, in cyclic order.
pub open spec fn across(axis: Axis, p: Vec3) -> (Double, Double) {
    match axis {
        Axis::X => (p.y, p.z),
        Axis::Y => (p.z, p.x),
        Axis::Z => (p.x, p.y),
    }
}

/// The coordinate of a point along an axis.
pub open spec fn along(axis: Axis, p: Vec3) -> Double {
    match axis {
        Axis::X => p.x,
        Axis::Y => p.y,
        Axis::Z => p.z,
    }
}

/// The ray in a cell starts in the middle of the cell, on the workspace's lower face,
/// and the point it starts at is found to lie in that cell.
pub proof fn law_rays_are_found_where_they_start(l: Lattice, corner: (int, int), pad: (int, int), g: (int, int), i: int, j: int)
    requires
        whole_lattice(l, corner, pad, g),
        0 <= i < l.count_u && 0 <= j < l.count_v,
        (2 * i + 1) * g.0 <= 0x100_0000_0000 && (2 * j + 1) * g.1 <= 0x100_0000_0000,
    ensures
        ({
            let p = l.start(i, j);
            let (u, v) = across(l.axis, p);
            &&& is_whole(u, corner.0 - pad.0 + (2 * i + 1) * g.0)
            &&& is_whole(v, corner.1 - pad.1 + (2 * j + 1) * g.1)
            &&& along(l.axis, p) == along(l.axis, l.origin)
            &&& l.cell_at(p) == Some((i as u32, j as u32))
        }),
{
    let (u, v) = across(l.axis, l.origin);
    let p = l.start(i, j);
    let (x, y) = across(l.axis, p);
    lemma_start(l, i, j);
    law_cells_are_evenly_spaced(u, l.pad_u, l.spacing_u, corner.0, pad.0, g.0, i);
    law_cells_are_evenly_spaced(v, l.pad_v, l.spacing_v, corner.1, pad.1, g.1, j);
    law_cells_are_found(x, u, l.pad_u, l.spacing_u, l.count_u, corner.0, pad.0, g.0, i);
    law_cells_are_found(y, v, l.pad_v, l.spacing_v, l.count_v, corner.1, pad.1, g.1, j);
    lemma_cell(l, p, i as u32, j as u32);
}

proof fn lemma_start(l: Lattice, i: int, j: int)
    ensures
        ({
            let (u, v) = across(l.axis, l.origin);
            &&& across(l.axis, l.start(i, j)) == (
                cell_middle(u, l.pad_u, l.spacing_u, i),
                cell_middle(v, l.pad_v, l.spacing_v, j),
            )
            &&& along(l.axis, l.start(i, j)) == along(l.axis, l.origin)
        }),
{
    match l.axis {
        Axis::X => {},
        Axis::Y => {},
        Axis::Z => {},
    }
}

#[verifier::spinoff_prover]
#[verifier::rlimit(50)]
proof fn lemma_cell(l: Lattice, p: Vec3, i: u32, j: u32)
    requires
        ({
            let (u, v) = across(l.axis, l.origin);
            let (x, y) = across(l.axis, p);
            &&& cell_of(x, u, l.pad_u, l.spacing_u, l.count_u) == Some(i)
            &&& cell_of(y, v, l.pad_v, l.spacing_v, l.count_v) == Some(j)
        }),
    ensures
        l.cell_at(p) == Some((i, j)),
{
    let c = crate::lattice::cyclic_of(l.axis);
    let (u, v) = across(l.axis, l.origin);
    let (x, y) = across(l.axis, p);
    assert(l.origin.at(c[0]) == u && l.origin.at(c[1]) == v && p.at(c[0]) == x && p.at(c[1]) == y) by {
        match l.axis {
            Axis::X => {},
            Axis::Y => {},
            Axis::Z => {},
        }
    }
}

} // verus!
