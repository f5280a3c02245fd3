//! Welding twice is welding once.

use crate::arithmetic::{lemma_nearest_zero, of_int, product, quotient};
use crate::double::{magnitude_of, Double, HIDDEN};
use crate::math::Vec3;
use crate::mesh::weld::{
    clusters, collapsed, key_fault, key_of, keys_of, lattice_point, lemma_clusters, lemma_clusters_exist, nearest_whole,
    quantised, valid_lattice, weld_fault, weld_outcome, welded_index, welded_triangle, welded_triangles, welded_vertices,
    LatticeKey, WeldError, WeldReport,
};
use crate::mesh::{law_faultless_is_sound, sound_vertex, TriMesh};
use crate::order::lemma_magnitude_increases;
use crate::precision::{apart, law_integers_are_exact, law_rounding_error, lemma_rounds_below_infinity};
use crate::rounding::{lemma_pow2_53, lemma_quotient_range, nearest, round_bits};
use crate::sorting::strictly_sorted;
use vstd::arithmetic::div_mod::*;
use vstd::arithmetic::power2::*;
use vstd::prelude::*;

verus! {

/// A lattice coordinate below two to the fifty-first, either way.
pub open spec fn near_zero(k: int) -> bool {
    -0x8_0000_0000_0000 < k < 0x8_0000_0000_0000
}

/// A key with all coordinates below two to the fifty-first.
pub open spec fn small_key(k: LatticeKey) -> bool {
    near_zero(k.x as int) && near_zero(k.y as int) && near_zero(k.z as int)
}

/// Rounded to `p` and back to `q`, a multiple of a lattice stays nearest itself.
proof fn lemma_back_and_forth(k: int, u: int, l: int, p: int, q: int)
    requires
        0 < k < 0x8_0000_0000_0000,
        u > 0,
        l > 0,
        apart(p * u, k * u * l) * (2 * HIDDEN) <= k * u * l,
        apart(q * l, p * u) * (2 * HIDDEN) <= p * u,
    ensures
        2 * apart(q, k * u) < u,
{
    let w = 2 * HIDDEN as int;
    let a = p * u;
    let b = q * l;
    let c = u * l;
    let n = k * u * l;
    assert(n == k * c) by (nonlinear_arith)
        requires
            n == k * u * l,
            c == u * l,
    ;
    assert(c > 0) by (nonlinear_arith)
        requires
            c == u * l,
            u > 0,
            l > 0,
    ;
    let x = apart(a, n);
    let y = apart(b, a);
    let z = apart(b, n);
    assert(z <= x + y);
    assert(z * w <= x * w + y * w) by (nonlinear_arith)
        requires
            z <= x + y,
            w > 0,
    ;
    assert(a <= n + x);
    assert(z * w <= 2 * n + x);
    assert((z * w) * w <= 2 * (n * w) + x * w) by (nonlinear_arith)
        requires
            z * w <= 2 * n + x,
            w > 0,
    ;
    assert((z * w) * w <= (2 * w + 1) * n) by (nonlinear_arith)
        requires
            (z * w) * w <= 2 * (n * w) + x * w,
            x * w <= n,
    ;
    assert((2 * w + 1) * n <= ((2 * w + 1) * 0x7_ffff_ffff_ffff) * c) by (nonlinear_arith)
        requires
            n == k * c,
            k <= 0x7_ffff_ffff_ffff,
            c > 0,
            w > 0,
    ;
    assert(w == 0x20_0000_0000_0000);
    assert(2 * ((2 * w + 1) * 0x7_ffff_ffff_ffff) < w * w) by (nonlinear_arith)
        requires
            w == 0x20_0000_0000_0000,
    ;
    assert(2 * z < c) by (nonlinear_arith)
        requires
            (z * w) * w <= ((2 * w + 1) * 0x7_ffff_ffff_ffff) * c,
            2 * ((2 * w + 1) * 0x7_ffff_ffff_ffff) < w * w,
            c > 0,
            w > 0,
    ;
    let g = apart(q, k * u);
    assert(g * l == z) by (nonlinear_arith)
        requires
            g == apart(q, k * u),
            z == apart(q * l, k * u * l),
            l > 0,
    ;
    assert(2 * g < u) by (nonlinear_arith)
        requires
            g * l == z,
            2 * z < u * l,
            l > 0,
    ;
}

/// What is within half a unit of an integer is nearest to it.
proof fn lemma_whole_near(q: int, k: int, u: int)
    requires
        u > 0,
        2 * apart(q, k * u) < u,
    ensures
        (2 * q + u) / (2 * u) == k,
{
    let r = 2 * q + u - k * (2 * u);
    assert(r == 2 * (q - k * u) + u) by (nonlinear_arith)
        requires
            r == 2 * q + u - k * (2 * u),
    ;
    lemma_fundamental_div_mod_converse(2 * q + u, 2 * u, k, r);
}

proof fn lemma_lattice_size(lattice: Double)
    requires
        valid_lattice(lattice),
    ensures
        lattice.magnitude() > 0,
        !lattice.signed(),
        !lattice.zero(),
        !lattice.nan(),
{
    lemma_magnitude_increases(0, lattice.abs_bits());
}

/// The parts of a rounded ratio.
proof fn lemma_nearest_parts(negative: bool, n: int, d: int)
    requires
        n >= 0,
        d > 0,
    ensures
        nearest(negative, n, d).abs_bits() == round_bits(n, d),
        nearest(negative, n, d).signed() == negative,
{
    lemma_quotient_range(n, d);
}

/// A multiple of a lattice that is a double is off by at most one part in two to
/// the fifty-third.
proof fn lemma_multiple(k: int, l: int, u: int)
    requires
        k > 0,
        l > 0,
        u > 0,
        round_bits((k * u) * l, u) < crate::double::INFINITY_BITS,
    ensures
        ({
            let p = magnitude_of(round_bits((k * u) * l, u));
            apart(p * u, k * u * l) * (2 * HIDDEN) <= k * u * l
        }),
{
    let n = (k * u) * l;
    let p = magnitude_of(round_bits(n, u));
    assert(n > 0) by (nonlinear_arith)
        requires
            n == (k * u) * l,
            k > 0,
            u > 0,
            l > 0,
    ;
    law_rounding_error(n, u);
    if 2 * apart(p * u, n) <= u {
        let g = p - k * l;
        assert(p * u - n == g * u) by (nonlinear_arith)
            requires
                n == (k * u) * l,
                g == p - k * l,
        ;
        assert(g == 0) by (nonlinear_arith)
            requires
                -u <= 2 * (g * u) <= u,
                u > 0,
        ;
        assert(g * u == 0) by (nonlinear_arith)
            requires
                g == 0,
        ;
        let far = apart(p * u, n);
        assert(far * (2 * HIDDEN) == 0) by (nonlinear_arith)
            requires
                far == 0,
        ;
    }
}

/// A lattice point snaps back to its own coordinate.
proof fn lemma_coordinate_snaps_back(k: int, lattice: Double)
    requires
        valid_lattice(lattice),
        near_zero(k),
        product(of_int(k), lattice).finite(),
    ensures
        quantised(product(of_int(k), lattice), lattice) == Some(k as i64),
{
    let u = pow2(1074) as int;
    let l = lattice.magnitude();
    lemma_pow2_pos(1074);
    lemma_lattice_size(lattice);
    law_integers_are_exact(k);
    let a = if k < 0 {
        -k
    } else {
        k
    };
    let x = product(of_int(k), lattice);
    assert(of_int(k).magnitude() == a * u) by (nonlinear_arith)
        requires
            of_int(k).value() == k * u,
            of_int(k).signed() == (k < 0),
            of_int(k).value() == (if of_int(k).signed() { -of_int(k).magnitude() } else { of_int(k).magnitude() }),
            a == (if k < 0 { -k } else { k }),
    ;
    assert(x == nearest(k < 0, (a * u) * l, u));
    if k == 0 {
        assert((0 * u) * l == 0) by (nonlinear_arith);
        lemma_nearest_zero(false, u);
        assert(x.magnitude() == 0);
        assert(0 * u == 0) by (nonlinear_arith);
        lemma_nearest_zero(false, l);
        let y = quotient(x, lattice);
        assert(y == nearest(false, 0, l));
        lemma_whole_near(0, 0, u);
        assert(nearest_whole(y) == Some(0i64));
        return;
    }
    let b = round_bits((a * u) * l, u);
    assert((a * u) * l > 0) by (nonlinear_arith)
        requires
            a >= 1,
            u >= 1,
            l >= 1,
    ;
    lemma_nearest_parts(k < 0, (a * u) * l, u);
    let p = magnitude_of(b);
    lemma_multiple(a, l, u);
    let n = a * u * l;
    lemma_pow2_53();
    let w = 2 * HIDDEN as int;
    lemma_pow2_strictly_increases(53, 1074);
    let c = u * l;
    assert(n == a * c && n >= c && c >= l && c > 0) by (nonlinear_arith)
        requires
            n == a * u * l,
            c == u * l,
            a >= 1,
            u >= 1,
            l >= 1,
    ;
    let g = apart(p * u, n);
    assert(2 * g <= n) by (nonlinear_arith)
        requires
            g * w <= n,
            g >= 0,
            w >= 2,
    ;
    assert(n <= 2 * (p * u) && p * u <= 2 * n);
    let m = p * u;
    assert(m > 0);
    assert(p > 0) by (nonlinear_arith)
        requires
            p * u > 0,
            u > 0,
    ;
    assert(b > 0) by {
        if b == 0 {
            lemma2_to64();
        }
    }
    // The ratio neither overflows nor falls short of the bits that a double keeps.
    lemma_pow2_adds(53, 1074);
    lemma_pow2_strictly_increases(1127, 1200);
    assert(m <= (w * u) * l) by (nonlinear_arith)
        requires
            m <= 2 * n,
            n == a * c,
            c == u * l,
            0 < 2 * a <= w,
            c > 0,
    ;
    lemma_div_is_ordered(m, (w * u) * l, l);
    lemma_div_multiples_vanish(w * u, l);
    assert(((w * u) * l) / l == w * u) by {
        assert((w * u) * l == l * (w * u)) by (nonlinear_arith);
    }
    lemma_div_pos_is_pos(m, l);
    lemma_rounds_below_infinity(m, l);
    law_rounding_error(m, l);
    let y = quotient(x, lattice);
    let r = round_bits(m, l);
    assert(y == nearest(k < 0, m, l));
    lemma_nearest_parts(k < 0, m, l);
    let q = magnitude_of(r);
    lemma_pow2_unfold(1074);
    lemma_pow2_strictly_increases(53, 1073);
    assert(m / l >= w) by {
        assert(m >= w * l) by (nonlinear_arith)
            requires
                2 * m >= c,
                c == u * l,
                u >= 2 * w,
                l > 0,
        ;
        lemma_div_is_ordered(w * l, m, l);
        lemma_div_multiples_vanish(w, l);
        assert(w * l == l * w) by (nonlinear_arith);
    }
    lemma_back_and_forth(a, u, l, p, q);
    lemma_whole_near(q, a, u);
    assert(nearest_whole(y) == Some(k as i64));
}

/// A lattice point with a small key snaps back to that key.
pub proof fn law_lattice_points_snap_back(k: LatticeKey, lattice: Double)
    requires
        valid_lattice(lattice),
        small_key(k),
        lattice_point(k, lattice).finite(),
    ensures
        key_fault(lattice_point(k, lattice), 0, lattice) is None,
        key_of(lattice_point(k, lattice), lattice) == k,
{
    lemma_coordinate_snaps_back(k.x as int, lattice);
    lemma_coordinate_snaps_back(k.y as int, lattice);
    lemma_coordinate_snaps_back(k.z as int, lattice);
}

proof fn lemma_no_weld_fault(v: Seq<Vec3>, i: int, lattice: Double)
    requires
        0 <= i <= v.len(),
        forall|j: int| 0 <= j < v.len() ==> key_fault(#[trigger] v[j], 0, lattice) is None,
    ensures
        weld_fault(v, i, lattice) is None,
    decreases v.len() - i,
{
    if i < v.len() {
        assert(key_fault(v[i], 0, lattice) is None);
        assert(key_fault(v[i], i as u32, lattice) is None);
        lemma_no_weld_fault(v, i + 1, lattice);
    }
}

proof fn lemma_none_collapsed(f: Seq<[u32; 3]>, n: nat)
    ensures
        collapsed(f, f, n) == 0,
    decreases n,
{
    if n > 0 {
        lemma_none_collapsed(f, (n - 1) as nat);
    }
}

/// Welding what is welded changes nothing, as long as the lattice is not so fine
/// that a key has more bits than a double keeps of its multiple.
pub proof fn law_welding_is_idempotent(
    mesh: TriMesh,
    lattice: Double,
    once: TriMesh,
    report: WeldReport,
    twice: Result<(TriMesh, WeldReport), WeldError>,
)
    requires
        weld_outcome(mesh, lattice, Ok((once, report))),
        weld_outcome(once, lattice, twice),
        forall|i: int| 0 <= i < mesh.points().len() ==> small_key(key_of(#[trigger] mesh.points()[i], lattice)),
    ensures
        twice matches Ok((m, r)) && m.points() == once.points() && m.faces() == once.faces() && m.origin()
            == once.origin() && r == (WeldReport {
            vertices_before: report.vertices_after,
            vertices_after: report.vertices_after,
            triangles_collapsed: 0,
            lattice,
        }),
{
    let v = mesh.points();
    let w = once.points();
    let f = once.faces();
    let keys = keys_of(v, lattice);
    let c = clusters(keys);
    lemma_clusters_exist(keys);
    law_faultless_is_sound(w, f);
    assert forall|i: int| 0 <= i < w.len() implies key_fault(#[trigger] w[i], 0, lattice) is None && key_of(w[i], lattice)
        == c[i] by {
        assert(c.contains(c[i]));
        assert(keys.contains(c[i]));
        let j = choose|j: int| 0 <= j < keys.len() && keys[j] == c[i];
        assert(small_key(key_of(v[j], lattice)));
        assert(sound_vertex(w[i]));
        law_lattice_points_snap_back(c[i], lattice);
    }
    lemma_no_weld_fault(w, 0, lattice);
    assert(keys_of(w, lattice) =~= c);
    lemma_clusters(c, keys_of(w, lattice));
    assert(welded_vertices(w, lattice) =~= w);
    assert forall|i: int| 0 <= i < f.len() implies welded_triangle(w, lattice, #[trigger] f[i]) == f[i] by {
        lemma_stays(w, lattice, c, f[i][0]);
        lemma_stays(w, lattice, c, f[i][1]);
        lemma_stays(w, lattice, c, f[i][2]);
        assert(welded_triangle(w, lattice, f[i])@ =~= f[i]@);
        assert(welded_triangle(w, lattice, f[i]) =~= f[i]);
    }
    assert(welded_triangles(w, lattice, f) =~= f);
    lemma_none_collapsed(f, f.len());
}

/// A welded vertex keeps its place.
proof fn lemma_stays(w: Seq<Vec3>, lattice: Double, c: Seq<LatticeKey>, i: u32)
    requires
        i < w.len() <= u32::MAX,
        w.len() == c.len(),
        strictly_sorted(c),
        clusters(keys_of(w, lattice)) == c,
        key_of(w[i as int], lattice) == c[i as int],
    ensures
        welded_index(w, lattice, i) == i,
{
    let k = c[i as int];
    assert(c.contains(k));
    let j = c.index_of(k);
    assert(0 <= j < c.len() && c[j] == k);
    if j < i {
        assert(c[j] != c[i as int]);
    } else if i < j {
        assert(c[i as int] != c[j]);
    }
}

} // verus!
