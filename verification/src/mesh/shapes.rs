//! Generators of solids.

use crate::arithmetic::{of_int, quotient, sum};
use crate::double::Double;
use crate::math::{normalized_vector, vector_product, vector_quotient, vector_sum, Vec3};
use crate::mesh::sphere::{
    coarse_vertex, lemma_coarse_kept, lemma_halfway_is_coarse, lemma_icosahedron_is_coarse, lemma_projected_is_sound, moderate,
};
use crate::mesh::{built_in_memory, law_faultless_is_sound, mesh_fault, sound, sound_vertex, MeshError, MeshMeta, TriMesh};
use crate::order::{law_rounding_fixes_doubles, law_rounding_keeps_order, lemma_one_magnitude, one};
use crate::predicates::orient3d_coords;
use crate::square_root::root;
use crate::sweep::reference::{lemma_most_substeps, most_substeps};
use std::collections::BTreeMap;
use vstd::arithmetic::power2::*;
use vstd::prelude::*;

verus! {

/// Builds a mesh that has nothing wrong with it.
fn build(vertices: Vec<Vec3>, triangles: Vec<[u32; 3]>) -> (m: TriMesh)
    requires
        sound(vertices@, triangles@),
    ensures
        m.points() == vertices@,
        m.faces() == triangles@,
        built_in_memory(m.origin()),
{
    proof {
        law_faultless_is_sound(vertices@, triangles@);
    }
    TriMesh::new(vertices, triangles, MeshMeta::synthetic()).unwrap()
}

/// The corners of a box.
pub open spec fn box_points(min: Vec3, max: Vec3) -> Seq<Vec3> {
    seq![
        Vec3 { x: min.x, y: min.y, z: min.z },
        Vec3 { x: max.x, y: min.y, z: min.z },
        Vec3 { x: max.x, y: max.y, z: min.z },
        Vec3 { x: min.x, y: max.y, z: min.z },
        Vec3 { x: min.x, y: min.y, z: max.z },
        Vec3 { x: max.x, y: min.y, z: max.z },
        Vec3 { x: max.x, y: max.y, z: max.z },
        Vec3 { x: min.x, y: max.y, z: max.z },
    ]
}

/// The sides of a box, seen from outside.
pub open spec fn box_faces() -> Seq<[u32; 3]> {
    seq![
        [0u32, 2, 1],
        [0u32, 3, 2],
        [4u32, 5, 6],
        [4u32, 6, 7],
        [0u32, 1, 5],
        [0u32, 5, 4],
        [2u32, 3, 7],
        [2u32, 7, 6],
        [0u32, 4, 7],
        [0u32, 7, 3],
        [1u32, 2, 6],
        [1u32, 6, 5],
    ]
}

/// An axis-aligned box from `min` to `max`, outward-oriented, twelve triangles.
pub fn box_solid(min: Vec3, max: Vec3) -> (m: TriMesh)
    requires
        sound_vertex(min),
        sound_vertex(max),
    ensures
        m.points() == box_points(min, max),
        m.faces() == box_faces(),
        built_in_memory(m.origin()),
{
    let v: Vec<Vec3> = vec![
        Vec3::new(min.x, min.y, min.z),
        Vec3::new(max.x, min.y, min.z),
        Vec3::new(max.x, max.y, min.z),
        Vec3::new(min.x, max.y, min.z),
        Vec3::new(min.x, min.y, max.z),
        Vec3::new(max.x, min.y, max.z),
        Vec3::new(max.x, max.y, max.z),
        Vec3::new(min.x, max.y, max.z),
    ];
    let t: Vec<[u32; 3]> = vec![
        [0, 2, 1],
        [0, 3, 2],
        [4, 5, 6],
        [4, 6, 7],
        [0, 1, 5],
        [0, 5, 4],
        [2, 3, 7],
        [2, 7, 6],
        [0, 4, 7],
        [0, 7, 3],
        [1, 2, 6],
        [1, 6, 5],
    ];
    assert(v@ =~= box_points(min, max));
    assert(t@ =~= box_faces());
    build(v, t)
}

/// A cube of side `size` with one corner at the origin.
pub fn cube(size: Double) -> (m: TriMesh)
    requires
        size.finite(),
        orient3d_coords().admits(size),
    ensures
        ({
            let zero = Double { bits: 0 };
            m.points() == box_points(Vec3 { x: zero, y: zero, z: zero }, Vec3 { x: size, y: size, z: size })
        }),
        m.faces() == box_faces(),
        built_in_memory(m.origin()),
{
    box_solid(Vec3::zeroed(), Vec3::new(size, size, size))
}

/// A point with whole coordinates.
#[derive(Clone, Copy, Debug, PartialEq, Eq, Structural)]
pub struct GridPoint {
    /// Along the first axis.
    pub x: u32,
    /// Along the second axis.
    pub y: u32,
    /// Along the third axis.
    pub z: u32,
}

/// The vertex at a grid point.
pub open spec fn grid_vertex(p: GridPoint) -> Vec3 {
    Vec3 { x: of_int(p.x as int), y: of_int(p.y as int), z: of_int(p.z as int) }
}

/// A corner of quad `k` of the sides of a block of `n` cells along each axis: the
/// quads of each side in rows, and the sides by axis, the lower one first.
pub open spec fn quad_corner(n: int, k: int, da: int, db: int) -> GridPoint {
    let side = k / (n * n);
    let a = (k / n) % n + da;
    let b = k % n + db;
    let fixed = if side % 2 == 1 {
        n
    } else {
        0
    };
    if side / 2 == 0 {
        GridPoint { x: fixed as u32, y: a as u32, z: b as u32 }
    } else if side / 2 == 1 {
        GridPoint { x: a as u32, y: fixed as u32, z: b as u32 }
    } else {
        GridPoint { x: a as u32, y: b as u32, z: fixed as u32 }
    }
}

/// A list with a point added, if it is not there.
pub open spec fn noted(s: Seq<GridPoint>, p: GridPoint) -> Seq<GridPoint> {
    if s.contains(p) {
        s
    } else {
        s.push(p)
    }
}

/// The points of the first `k` quads, in the order in which they first occur.
pub open spec fn block_points(n: int, k: nat) -> Seq<GridPoint>
    decreases k,
{
    if k == 0 {
        Seq::empty()
    } else {
        let q = k - 1;
        let s = block_points(n, (k - 1) as nat);
        noted(
            noted(noted(noted(s, quad_corner(n, q, 0, 0)), quad_corner(n, q, 1, 0)), quad_corner(n, q, 1, 1)),
            quad_corner(n, q, 0, 1),
        )
    }
}

/// The triangles of the first `k` quads, by their points, seen from outside.
pub open spec fn block_triangles(n: int, k: nat) -> Seq<(GridPoint, GridPoint, GridPoint)>
    decreases k,
{
    if k == 0 {
        Seq::empty()
    } else {
        let q = k - 1;
        let side = q / (n * n);
        let (a, b, c, d) = (
            quad_corner(n, q, 0, 0),
            quad_corner(n, q, 1, 0),
            quad_corner(n, q, 1, 1),
            quad_corner(n, q, 0, 1),
        );
        let rest = block_triangles(n, (k - 1) as nat);
        if (side % 2 == 1) != (side / 2 == 1) {
            rest.push((a, b, c)).push((a, c, d))
        } else {
            rest.push((a, c, b)).push((a, d, c))
        }
    }
}

/// A triangle of a mesh has these points as its corners.
pub open spec fn corners_at(points: Seq<GridPoint>, t: [u32; 3], g: (GridPoint, GridPoint, GridPoint)) -> bool {
    &&& t[0] < points.len() && t[1] < points.len() && t[2] < points.len()
    &&& points[t[0] as int] == g.0 && points[t[1] as int] == g.1 && points[t[2] as int] == g.2
}

/// Whole numbers up to a million make sound coordinates.
proof fn lemma_small_whole(v: int)
    requires
        0 <= v <= 0x10_0000,
    ensures
        of_int(v).finite(),
        orient3d_coords().admits(of_int(v)),
{
    let unit = pow2(1074) as int;
    lemma_pow2_pos(1074);
    lemma_most_substeps();
    lemma_one_magnitude();
    law_rounding_fixes_doubles(most_substeps());
    law_rounding_fixes_doubles(one());
    assert(v * unit <= 0x10_0000 * unit) by (nonlinear_arith)
        requires
            v <= 0x10_0000,
            unit > 0,
    ;
    law_rounding_keeps_order(v * unit, 0x10_0000 * unit);
    if v == 0 {
        assert(v * unit == 0);
    } else {
        assert(unit <= v * unit) by (nonlinear_arith)
            requires
                v >= 1,
                unit > 0,
        ;
        law_rounding_keeps_order(unit, v * unit);
    }
}

/// A number for each point of a grid.
spec fn packed(w: int, p: GridPoint) -> int {
    (p.x * w + p.y) * w + p.z
}

proof fn lemma_packed(w: int, p: GridPoint, q: GridPoint)
    requires
        p.x < w,
        p.y < w,
        p.z < w,
        q.x < w,
        q.y < w,
        q.z < w,
        packed(w, p) == packed(w, q),
    ensures
        p == q,
{
    let a = p.x * w + p.y;
    let b = q.x * w + q.y;
    assert(a == b) by (nonlinear_arith)
        requires
            a * w + p.z == b * w + q.z,
            0 <= p.z < w,
            0 <= q.z < w,
    ;
    assert(p.x == q.x) by (nonlinear_arith)
        requires
            p.x * w + p.y == q.x * w + q.y,
            0 <= p.y < w,
            0 <= q.y < w,
    ;
}

/// Points in the order in which they were first noted, and where each stands.
struct Notes {
    list: Vec<GridPoint>,
    index: BTreeMap<u64, u32>,
}

/// A point of a grid of `w` points along each axis.
spec fn on_grid(w: int, p: GridPoint) -> bool {
    p.x < w && p.y < w && p.z < w
}

impl Notes {
    spec fn wf(self, w: int) -> bool {
        &&& self.list@.len() <= u32::MAX
        &&& forall|i: int| 0 <= i < self.list@.len() ==> on_grid(w, #[trigger] self.list@[i])
        &&& forall|i: int|
            0 <= i < self.list@.len() ==> #[trigger] self.index@.contains_key(packed(w, self.list@[i]) as u64)
                && self.index@[packed(w, self.list@[i]) as u64] == i
        &&& forall|k: u64| #[trigger]
            self.index@.contains_key(k) ==> self.index@[k] < self.list@.len() && packed(
                w,
                self.list@[self.index@[k] as int],
            ) == k
    }

    fn note(&mut self, w: u32, p: GridPoint) -> (i: u32)
        requires
            old(self).wf(w as int),
            0 < w <= 0x10_0000,
            on_grid(w as int, p),
            old(self).list@.len() < u32::MAX,
        ensures
            final(self).wf(w as int),
            final(self).list@ == noted(old(self).list@, p),
            i < final(self).list@.len(),
            final(self).list@[i as int] == p,
    {
        let ghost was = self.list@;
        proof {
            let x = p.x as int;
            let v = w as int;
            assert(0 <= p.x * w + p.y < w * w) by (nonlinear_arith)
                requires
                    0 <= p.x < w,
                    0 <= p.y < w,
            ;
            assert(0 <= (p.x * w + p.y) * w + p.z < w * w * w) by (nonlinear_arith)
                requires
                    0 <= p.x * w + p.y < w * w,
                    0 <= p.z < w,
            ;
            assert(w * w * w <= 0x1000_0000_0000_0000) by (nonlinear_arith)
                requires
                    0 < w <= 0x10_0000,
            ;
            assert(0 <= p.x * w <= 0x100_0000_0000) by (nonlinear_arith)
                requires
                    0 <= p.x < w,
                    0 < w <= 0x10_0000,
            ;
            assert(0 <= (p.x * w + p.y) * w) by (nonlinear_arith)
                requires
                    0 <= p.x * w + p.y,
                    0 < w,
            ;
        }
        let key: u64 = (p.x as u64 * w as u64 + p.y as u64) * w as u64 + p.z as u64;
        assert(key == packed(w as int, p));
        if let Some(i) = self.index.get(&key) {
            let i: u32 = *i;
            proof {
                assert(self.index@.contains_key(key));
                lemma_packed(w as int, self.list@[i as int], p);
            }
            return i;
        }
        proof {
            if was.contains(p) {
                let i = choose|i: int| 0 <= i < was.len() && was[i] == p;
                assert(self.index@.contains_key(packed(w as int, was[i]) as u64));
            }
        }
        let i: u32 = self.list.len() as u32;
        let ghost before = self.index@;
        self.list.push(p);
        self.index.insert(key, i);
        proof {
            assert forall|j: int| 0 <= j < self.list@.len() implies #[trigger] self.index@.contains_key(
                packed(w as int, self.list@[j]) as u64,
            ) && self.index@[packed(w as int, self.list@[j]) as u64] == j by {
                if j < was.len() {
                    assert(before.contains_key(packed(w as int, was[j]) as u64));
                }
            }
        }
        i
    }
}

/// The most cells along an axis of a block whose triangles can be counted.
pub const MOST_CELLS: u32 = 18918;

/// A point on the surface of a block.
spec fn on_surface(n: int, p: GridPoint) -> bool {
    &&& on_grid(n + 1, p)
    &&& p.x == 0 || p.x == n || p.y == 0 || p.y == n || p.z == 0 || p.z == n
}

/// A number for each point on the surface of a block: by side, and then by row.
spec fn surface_code(n: int, p: GridPoint) -> int {
    let w = n + 1;
    let s = w * w;
    if p.x == 0 {
        p.y * w + p.z
    } else if p.x == n {
        s + (p.y * w + p.z)
    } else if p.y == 0 {
        2 * s + (p.x * w + p.z)
    } else if p.y == n {
        3 * s + (p.x * w + p.z)
    } else if p.z == 0 {
        4 * s + (p.x * w + p.y)
    } else {
        5 * s + (p.x * w + p.y)
    }
}

proof fn lemma_row(w: int, a: int, b: int)
    requires
        0 <= a < w,
        0 <= b < w,
    ensures
        0 <= a * w + b < w * w,
{
    assert(0 <= a * w + b < w * w) by (nonlinear_arith)
        requires
            0 <= a < w,
            0 <= b < w,
    ;
}

proof fn lemma_rows(w: int, a: int, b: int, c: int, d: int)
    requires
        0 <= b < w,
        0 <= d < w,
        a * w + b == c * w + d,
    ensures
        a == c,
        b == d,
{
    assert(a == c) by (nonlinear_arith)
        requires
            a * w + b == c * w + d,
            0 <= b < w,
            0 <= d < w,
    ;
}

proof fn lemma_surface_code(n: int, p: GridPoint)
    requires
        n > 0,
        on_surface(n, p),
    ensures
        0 <= surface_code(n, p) < 6 * ((n + 1) * (n + 1)),
{
    lemma_row(n + 1, p.y as int, p.z as int);
    lemma_row(n + 1, p.x as int, p.z as int);
    lemma_row(n + 1, p.x as int, p.y as int);
}

proof fn lemma_surface_code_distinct(n: int, p: GridPoint, q: GridPoint)
    requires
        n > 0,
        on_surface(n, p),
        on_surface(n, q),
        surface_code(n, p) == surface_code(n, q),
    ensures
        p == q,
{
    let w = n + 1;
    lemma_row(w, p.y as int, p.z as int);
    lemma_row(w, p.x as int, p.z as int);
    lemma_row(w, p.x as int, p.y as int);
    lemma_row(w, q.y as int, q.z as int);
    lemma_row(w, q.x as int, q.z as int);
    lemma_row(w, q.x as int, q.y as int);
    if p.x == 0 || p.x == n {
        lemma_rows(w, p.y as int, p.z as int, q.y as int, q.z as int);
    } else if p.y == 0 || p.y == n {
        lemma_rows(w, p.x as int, p.z as int, q.x as int, q.z as int);
    } else {
        lemma_rows(w, p.x as int, p.y as int, q.x as int, q.y as int);
    }
}

proof fn lemma_surface_is_small(n: int, s: Seq<GridPoint>)
    requires
        n > 0,
        s.no_duplicates(),
        forall|i: int| 0 <= i < s.len() ==> on_surface(n, #[trigger] s[i]),
    ensures
        s.len() <= 6 * ((n + 1) * (n + 1)),
{
    let top = 6 * ((n + 1) * (n + 1));
    assert(top >= 0) by (nonlinear_arith)
        requires
            top == 6 * ((n + 1) * (n + 1)),
    ;
    let codes = Seq::new(s.len(), |i: int| surface_code(n, s[i]));
    assert forall|i: int, j: int| 0 <= i < codes.len() && 0 <= j < codes.len() && i != j implies codes[i] != codes[j] by {
        if codes[i] == codes[j] {
            lemma_surface_code_distinct(n, s[i], s[j]);
        }
    }
    codes.unique_seq_to_set();
    vstd::set_lib::lemma_int_range(0, top);
    assert forall|c: int| codes.to_set().contains(c) implies vstd::set_lib::set_int_range(0, top).contains(c) by {
        let i = choose|i: int| 0 <= i < codes.len() && codes[i] == c;
        lemma_surface_code(n, s[i]);
    }
    vstd::set_lib::lemma_len_subset(codes.to_set(), vstd::set_lib::set_int_range(0, top));
}

proof fn lemma_noted_distinct(n: int, s: Seq<GridPoint>, p: GridPoint)
    requires
        s.no_duplicates(),
        on_surface(n, p),
        forall|i: int| 0 <= i < s.len() ==> on_surface(n, #[trigger] s[i]),
    ensures
        noted(s, p).no_duplicates(),
        noted(s, p).len() <= s.len() + 1,
        forall|i: int| 0 <= i < noted(s, p).len() ==> on_surface(n, #[trigger] noted(s, p)[i]),
{
}

proof fn lemma_block_points_few(n: int, k: nat)
    requires
        0 < n <= MOST_CELLS,
        k <= 6 * (n * n),
    ensures
        block_points(n, k).no_duplicates(),
        forall|i: int| 0 <= i < block_points(n, k).len() ==> on_surface(n, #[trigger] block_points(n, k)[i]),
        block_points(n, k).len() <= 2_147_571_366,
    decreases k,
{
    if k > 0 {
        lemma_block_points_few(n, (k - 1) as nat);
        let q = k - 1;
        let s = block_points(n, (k - 1) as nat);
        let (a, b, c, d) = (
            quad_corner(n, q, 0, 0),
            quad_corner(n, q, 1, 0),
            quad_corner(n, q, 1, 1),
            quad_corner(n, q, 0, 1),
        );
        lemma_quad_in_range(n, q, 0, 0);
        lemma_quad_in_range(n, q, 1, 0);
        lemma_quad_in_range(n, q, 1, 1);
        lemma_quad_in_range(n, q, 0, 1);
        lemma_noted_distinct(n, s, a);
        lemma_noted_distinct(n, noted(s, a), b);
        lemma_noted_distinct(n, noted(noted(s, a), b), c);
        lemma_noted_distinct(n, noted(noted(noted(s, a), b), c), d);
    }
    lemma_surface_is_small(n, block_points(n, k));
    assert(6 * ((n + 1) * (n + 1)) <= 2_147_571_366) by (nonlinear_arith)
        requires
            0 < n <= 18918,
    ;
}

proof fn lemma_quad_in_range(n: int, k: int, da: int, db: int)
    requires
        0 < n <= MOST_CELLS,
        0 <= k < 6 * (n * n),
        0 <= da <= 1,
        0 <= db <= 1,
    ensures
        0 <= (k / n) % n < n,
        0 <= k % n < n,
        0 <= k / (n * n) < 6,
        on_surface(n, quad_corner(n, k, da, db)),
{
    let s = n * n;
    assert(s > 0) by (nonlinear_arith)
        requires
            n > 0,
            s == n * n,
    ;
    vstd::arithmetic::div_mod::lemma_mod_bound(k / n, n);
    vstd::arithmetic::div_mod::lemma_mod_bound(k, n);
    vstd::arithmetic::div_mod::lemma_fundamental_div_mod(k, s);
    vstd::arithmetic::div_mod::lemma_mod_bound(k, s);
    let q = k / s;
    assert(0 <= q < 6) by (nonlinear_arith)
        requires
            k == s * q + k % s,
            0 <= k % s < s,
            0 <= k < 6 * s,
            s > 0,
    ;
}

fn quad(n: u32, k: u32, da: u32, db: u32) -> (p: GridPoint)
    requires
        0 < n <= MOST_CELLS,
        k < 6 * (n * n),
        da <= 1,
        db <= 1,
    ensures
        p == quad_corner(n as int, k as int, da as int, db as int),
        on_grid(n + 1, p),
{
    proof {
        lemma_quad_in_range(n as int, k as int, da as int, db as int);
        assert(n * n <= MOST_CELLS * MOST_CELLS && n * n > 0) by (nonlinear_arith)
            requires
                0 < n <= MOST_CELLS,
        ;
    }
    let side: u32 = k / (n * n);
    let a: u32 = (k / n) % n + da;
    let b: u32 = k % n + db;
    let fixed: u32 = if side % 2 == 1 { n } else { 0 };
    if side / 2 == 0 {
        GridPoint { x: fixed, y: a, z: b }
    } else if side / 2 == 1 {
        GridPoint { x: a, y: fixed, z: b }
    } else {
        GridPoint { x: a, y: b, z: fixed }
    }
}

/// A triangle keeps its corners when points are noted.
proof fn lemma_noted_keeps(s: Seq<GridPoint>, p: GridPoint, i: int)
    requires
        0 <= i < s.len(),
    ensures
        i < noted(s, p).len(),
        noted(s, p)[i] == s[i],
{
}

/// An `n` by `n` by `n` box whose sides are divided into unit quads, so that every
/// vertex has whole coordinates.
///
/// The vertices are the points of the quads in the order in which they first
/// occur, each once, and the triangles are those of the quads.
#[verifier::rlimit(50)]
pub fn lattice_block(n: u32) -> (m: TriMesh)
    requires
        1 <= n <= MOST_CELLS,
    ensures
        ({
            let k = (6 * (n * n)) as nat;
            let points = block_points(n as int, k);
            let triangles = block_triangles(n as int, k);
            &&& m.points() == Seq::new(points.len(), |i: int| grid_vertex(points[i]))
            &&& m.faces().len() == triangles.len()
            &&& forall|i: int| 0 <= i < triangles.len() ==> corners_at(points, #[trigger] m.faces()[i], triangles[i])
        }),
        built_in_memory(m.origin()),
{
    proof {
        assert(n * n <= MOST_CELLS * MOST_CELLS && n * n > 0) by (nonlinear_arith)
            requires
                0 < n <= MOST_CELLS,
        ;
    }
    let count: u32 = 6 * (n * n);
    let w: u32 = n + 1;
    let mut notes: Notes = Notes { list: Vec::new(), index: BTreeMap::new() };
    let mut triangles: Vec<[u32; 3]> = Vec::new();
    let mut k: u32 = 0;
    while k < count
        invariant
            k <= count == 6 * (n * n),
            0 < n <= MOST_CELLS,
            n * n <= MOST_CELLS * MOST_CELLS,
            w == n + 1,
            notes.wf(w as int),
            notes.list@ == block_points(n as int, k as nat),
            triangles@.len() == block_triangles(n as int, k as nat).len(),
            triangles@.len() == 2 * k,
            forall|i: int|
                0 <= i < triangles@.len() ==> corners_at(
                    notes.list@,
                    #[trigger] triangles@[i],
                    block_triangles(n as int, k as nat)[i],
                ),
        decreases count - k,
    {
        let ghost s0 = notes.list@;
        let ghost t0 = triangles@;
        proof {
            lemma_block_points_few(n as int, k as nat);
        }
        let a: GridPoint = quad(n, k, 0, 0);
        let b: GridPoint = quad(n, k, 1, 0);
        let c: GridPoint = quad(n, k, 1, 1);
        let d: GridPoint = quad(n, k, 0, 1);
        let i0: u32 = notes.note(w, a);
        let ghost s1 = notes.list@;
        let i1: u32 = notes.note(w, b);
        let ghost s2 = notes.list@;
        let i2: u32 = notes.note(w, c);
        let ghost s3 = notes.list@;
        let i3: u32 = notes.note(w, d);
        let ghost s4 = notes.list@;
        proof {
            lemma_noted_keeps(s1, b, i0 as int);
            lemma_noted_keeps(s2, c, i0 as int);
            lemma_noted_keeps(s3, d, i0 as int);
            lemma_noted_keeps(s2, c, i1 as int);
            lemma_noted_keeps(s3, d, i1 as int);
            lemma_noted_keeps(s3, d, i2 as int);
            assert(s4[i0 as int] == a && s4[i1 as int] == b && s4[i2 as int] == c && s4[i3 as int] == d);
            lemma_quad_in_range(n as int, k as int, 0, 0);
        }
        let side: u32 = k / (n * n);
        if (side % 2 == 1) != (side / 2 == 1) {
            triangles.push([i0, i1, i2]);
            triangles.push([i0, i2, i3]);
        } else {
            triangles.push([i0, i2, i1]);
            triangles.push([i0, i3, i2]);
        }
        proof {
            let g = block_triangles(n as int, (k + 1) as nat);
            let h = block_triangles(n as int, k as nat);
            assert forall|i: int| 0 <= i < triangles@.len() implies corners_at(s4, #[trigger] triangles@[i], g[i]) by {
                if i < t0.len() {
                    assert(triangles@[i] == t0[i] && g[i] == h[i]);
                    assert(corners_at(s0, t0[i], h[i]));
                    lemma_corner_kept(s0, a, b, c, d, t0[i][0] as int);
                    lemma_corner_kept(s0, a, b, c, d, t0[i][1] as int);
                    lemma_corner_kept(s0, a, b, c, d, t0[i][2] as int);
                }
            }
        }
        k = k + 1;
    }
    let vertices: Vec<Vec3> = grid_vertices(&notes.list, w);
    proof {
        assert forall|i: int| 0 <= i < triangles@.len() implies (#[trigger] triangles@[i])[0] < vertices@.len()
            && triangles@[i][1] < vertices@.len() && triangles@[i][2] < vertices@.len() by {
            assert(corners_at(notes.list@, triangles@[i], block_triangles(n as int, k as nat)[i]));
        }
    }
    build(vertices, triangles)
}

proof fn lemma_corner_kept(s: Seq<GridPoint>, a: GridPoint, b: GridPoint, c: GridPoint, d: GridPoint, i: int)
    requires
        0 <= i < s.len(),
    ensures
        ({
            let t = noted(noted(noted(noted(s, a), b), c), d);
            i < t.len() && t[i] == s[i]
        }),
{
    lemma_noted_keeps(s, a, i);
    lemma_noted_keeps(noted(s, a), b, i);
    lemma_noted_keeps(noted(noted(s, a), b), c, i);
    lemma_noted_keeps(noted(noted(noted(s, a), b), c), d, i);
}

fn grid_vertices(list: &Vec<GridPoint>, w: u32) -> (v: Vec<Vec3>)
    requires
        w <= 0x10_0000,
        forall|i: int| 0 <= i < list@.len() ==> on_grid(w as int, #[trigger] list@[i]),
    ensures
        v@ == Seq::new(list@.len(), |i: int| grid_vertex(list@[i])),
        forall|i: int| 0 <= i < v@.len() ==> sound_vertex(#[trigger] v@[i]),
{
    let mut v: Vec<Vec3> = Vec::new();
    let mut i: usize = 0;
    while i < list.len()
        invariant
            i <= list@.len(),
            w <= 0x10_0000,
            forall|k: int| 0 <= k < list@.len() ==> on_grid(w as int, #[trigger] list@[k]),
            v@ == Seq::new(i as nat, |k: int| grid_vertex(list@[k])),
            forall|k: int| 0 <= k < v@.len() ==> sound_vertex(#[trigger] v@[k]),
        decreases list@.len() - i,
    {
        let p: GridPoint = list[i];
        proof {
            assert(on_grid(w as int, p));
            lemma_small_whole(p.x as int);
            lemma_small_whole(p.y as int);
            lemma_small_whole(p.z as int);
        }
        let ghost was = v@;
        v.push(Vec3::new(Double::from_i64(p.x as i64), Double::from_i64(p.y as i64), Double::from_i64(p.z as i64)));
        i = i + 1;
        proof {
            assert(v@ =~= Seq::new(i as nat, |k: int| grid_vertex(list@[k])));
            assert(sound_vertex(grid_vertex(p)));
        }
    }
    v
}

/// The ratio of a diagonal of a regular pentagon to its side.
pub open spec fn golden_ratio() -> Double {
    quotient(sum(one(), root(Double { bits: 0x4014_0000_0000_0000 })), Double { bits: 0x4000_0000_0000_0000 })
}

/// The vertices of a regular icosahedron.
pub open spec fn icosahedron_points() -> Seq<Vec3> {
    let phi = golden_ratio();
    let minus = phi.negated();
    let pos = one();
    let neg = one().negated();
    let zero = Double { bits: 0 };
    seq![
        Vec3 { x: neg, y: phi, z: zero },
        Vec3 { x: pos, y: phi, z: zero },
        Vec3 { x: neg, y: minus, z: zero },
        Vec3 { x: pos, y: minus, z: zero },
        Vec3 { x: zero, y: neg, z: phi },
        Vec3 { x: zero, y: pos, z: phi },
        Vec3 { x: zero, y: neg, z: minus },
        Vec3 { x: zero, y: pos, z: minus },
        Vec3 { x: phi, y: zero, z: neg },
        Vec3 { x: phi, y: zero, z: pos },
        Vec3 { x: minus, y: zero, z: neg },
        Vec3 { x: minus, y: zero, z: pos },
    ]
}

/// The sides of a regular icosahedron, seen from outside.
pub open spec fn icosahedron_faces() -> Seq<[u32; 3]> {
    seq![
        [0u32, 11, 5],
        [0u32, 5, 1],
        [0u32, 1, 7],
        [0u32, 7, 10],
        [0u32, 10, 11],
        [1u32, 5, 9],
        [5u32, 11, 4],
        [11u32, 10, 2],
        [10u32, 7, 6],
        [7u32, 1, 8],
        [3u32, 9, 4],
        [3u32, 4, 2],
        [3u32, 2, 6],
        [3u32, 6, 8],
        [3u32, 8, 9],
        [4u32, 9, 5],
        [2u32, 4, 11],
        [6u32, 2, 10],
        [8u32, 6, 7],
        [9u32, 8, 1],
    ]
}

fn icosahedron() -> (r: (Vec<Vec3>, Vec<[u32; 3]>))
    ensures
        r.0@ == icosahedron_points(),
        r.1@ == icosahedron_faces(),
{
    let pos: Double = Double::from_bits(0x3ff0_0000_0000_0000);
    let neg: Double = pos.negate();
    let zero: Double = Double::zeroed();
    let phi: Double = pos.plus(Double::from_bits(0x4014_0000_0000_0000).sqrt()).over(
        Double::from_bits(0x4000_0000_0000_0000),
    );
    let minus: Double = phi.negate();
    let v: Vec<Vec3> = vec![
        Vec3::new(neg, phi, zero),
        Vec3::new(pos, phi, zero),
        Vec3::new(neg, minus, zero),
        Vec3::new(pos, minus, zero),
        Vec3::new(zero, neg, phi),
        Vec3::new(zero, pos, phi),
        Vec3::new(zero, neg, minus),
        Vec3::new(zero, pos, minus),
        Vec3::new(phi, zero, neg),
        Vec3::new(phi, zero, pos),
        Vec3::new(minus, zero, neg),
        Vec3::new(minus, zero, pos),
    ];
    let t: Vec<[u32; 3]> = vec![
        [0, 11, 5],
        [0, 5, 1],
        [0, 1, 7],
        [0, 7, 10],
        [0, 10, 11],
        [1, 5, 9],
        [5, 11, 4],
        [11, 10, 2],
        [10, 7, 6],
        [7, 1, 8],
        [3, 9, 4],
        [3, 4, 2],
        [3, 2, 6],
        [3, 6, 8],
        [3, 8, 9],
        [4, 9, 5],
        [2, 4, 11],
        [6, 2, 10],
        [8, 6, 7],
        [9, 8, 1],
    ];
    assert(v@ =~= icosahedron_points());
    assert(t@ =~= icosahedron_faces());
    (v, t)
}

/// An edge, by its ends as it was first met.
#[derive(Clone, Copy, Debug, PartialEq, Eq, Structural)]
pub struct Edge {
    /// One end.
    pub a: u32,
    /// The other end.
    pub b: u32,
}

/// Two edges have the same ends.
pub open spec fn same_edge(e: Edge, f: Edge) -> bool {
    (e.a == f.a && e.b == f.b) || (e.a == f.b && e.b == f.a)
}

/// The edge is among those met.
pub open spec fn met(s: Seq<Edge>, e: Edge) -> bool {
    exists|i: int| 0 <= i < s.len() && same_edge(#[trigger] s[i], e)
}

/// The edges met, with one more if it is new.
pub open spec fn with_edge(s: Seq<Edge>, e: Edge) -> Seq<Edge> {
    if met(s, e) {
        s
    } else {
        s.push(e)
    }
}

/// The edges of the first `k` triangles, in the order in which they are met.
pub open spec fn edges_met(t: Seq<[u32; 3]>, k: nat) -> Seq<Edge>
    decreases k,
{
    if k == 0 {
        Seq::empty()
    } else {
        let x = t[k - 1];
        let s = edges_met(t, (k - 1) as nat);
        with_edge(
            with_edge(with_edge(s, Edge { a: x[0], b: x[1] }), Edge { a: x[1], b: x[2] }),
            Edge { a: x[2], b: x[0] },
        )
    }
}

/// The point halfway along an edge.
pub open spec fn halfway(v: Seq<Vec3>, e: Edge) -> Vec3 {
    let two = Double { bits: 0x4000_0000_0000_0000 };
    vector_sum(vector_quotient(v[e.a as int], two), vector_quotient(v[e.b as int], two))
}

/// The vertices after a subdivision: those before, and a point halfway along each
/// edge.
pub open spec fn divided_points(v: Seq<Vec3>, t: Seq<[u32; 3]>) -> Seq<Vec3> {
    let s = edges_met(t, t.len());
    v + Seq::new(s.len(), |i: int| halfway(v, s[i]))
}

/// `m` is the vertex halfway along an edge, where the edges come after `base`
/// vertices.
pub open spec fn halves(s: Seq<Edge>, base: int, m: u32, a: u32, b: u32) -> bool {
    base <= m < base + s.len() && same_edge(s[m - base], Edge { a, b })
}

/// The four triangles from `4 k` on are those that triangle `k` is divided into.
pub open spec fn divided_at(t: Seq<[u32; 3]>, s: Seq<Edge>, base: int, u: Seq<[u32; 3]>, k: int) -> bool {
    let x = t[k];
    let m = u[4 * k + 3];
    &&& halves(s, base, m[0], x[0], x[1])
    &&& halves(s, base, m[1], x[1], x[2])
    &&& halves(s, base, m[2], x[2], x[0])
    &&& u[4 * k]@ == seq![x[0], m[0], m[2]]
    &&& u[4 * k + 1]@ == seq![x[1], m[1], m[0]]
    &&& u[4 * k + 2]@ == seq![x[2], m[2], m[1]]
}

/// `u` are the triangles after a subdivision.
pub open spec fn divided_faces(base: int, t: Seq<[u32; 3]>, u: Seq<[u32; 3]>) -> bool {
    &&& u.len() == 4 * t.len()
    &&& forall|k: int| 0 <= k < t.len() ==> #[trigger] divided_at(t, edges_met(t, t.len()), base, u, k)
}

/// `v` and `t` are an icosahedron after `n` subdivisions.
pub open spec fn divided_icosahedron(v: Seq<Vec3>, t: Seq<[u32; 3]>, n: nat) -> bool
    decreases n,
{
    if n == 0 {
        v == icosahedron_points() && t == icosahedron_faces()
    } else {
        exists|w: Seq<Vec3>, u: Seq<[u32; 3]>|
            #![trigger divided_faces(w.len() as int, u, t)]
            divided_icosahedron(w, u, (n - 1) as nat) && v == divided_points(w, u) && divided_faces(
                w.len() as int,
                u,
                t,
            )
    }
}

/// A number for each edge, whatever the order of its ends.
spec fn edge_key(e: Edge) -> int {
    if e.a < e.b {
        e.a * 0x1_0000_0000 + e.b
    } else {
        e.b * 0x1_0000_0000 + e.a
    }
}

/// Edges in the order in which they were met, and where each stands.
struct EdgeNotes {
    list: Vec<Edge>,
    index: BTreeMap<u64, u32>,
}

impl EdgeNotes {
    spec fn wf(self) -> bool {
        &&& self.list@.len() <= u32::MAX
        &&& forall|i: int|
            0 <= i < self.list@.len() ==> #[trigger] self.index@.contains_key(edge_key(self.list@[i]) as u64)
                && self.index@[edge_key(self.list@[i]) as u64] == i
        &&& forall|k: u64| #[trigger]
            self.index@.contains_key(k) ==> self.index@[k] < self.list@.len() && edge_key(
                self.list@[self.index@[k] as int],
            ) == k
    }

    fn note(&mut self, a: u32, b: u32) -> (i: u32)
        requires
            old(self).wf(),
            old(self).list@.len() < u32::MAX,
        ensures
            final(self).wf(),
            final(self).list@ == with_edge(old(self).list@, Edge { a, b }),
            final(self).list@.len() <= old(self).list@.len() + 1,
            i < final(self).list@.len(),
            same_edge(final(self).list@[i as int], Edge { a, b }),
            forall|k: int| 0 <= k < old(self).list@.len() ==> #[trigger] final(self).list@[k] == old(self).list@[k],
    {
        let ghost was = self.list@;
        let ghost e = Edge { a, b };
        let key: u64 = if a < b {
            a as u64 * 0x1_0000_0000 + b as u64
        } else {
            b as u64 * 0x1_0000_0000 + a as u64
        };
        assert(key == edge_key(e));
        if let Some(i) = self.index.get(&key) {
            let i: u32 = *i;
            proof {
                assert(self.index@.contains_key(key));
                assert(same_edge(was[i as int], e));
            }
            return i;
        }
        proof {
            if met(was, e) {
                let i = choose|i: int| 0 <= i < was.len() && same_edge(#[trigger] was[i], e);
                assert(self.index@.contains_key(edge_key(was[i]) as u64));
            }
        }
        let i: u32 = self.list.len() as u32;
        let ghost before = self.index@;
        self.list.push(Edge { a, b });
        self.index.insert(key, i);
        proof {
            assert forall|j: int| 0 <= j < self.list@.len() implies #[trigger] self.index@.contains_key(
                edge_key(self.list@[j]) as u64,
            ) && self.index@[edge_key(self.list@[j]) as u64] == j by {
                if j < was.len() {
                    assert(before.contains_key(edge_key(was[j]) as u64));
                    if edge_key(was[j]) == key {
                        assert(same_edge(was[j], e));
                        assert(met(was, e));
                    }
                }
            }
        }
        i
    }
}

/// Triangles of vertices below `n`.
spec fn all_below(t: Seq<[u32; 3]>, n: int) -> bool {
    forall|i: int| 0 <= i < t.len() ==> (#[trigger] t[i])[0] < n && t[i][1] < n && t[i][2] < n
}

/// Triangles are divided as far as `k`, by the edges met so far.
spec fn divided_to(t: Seq<[u32; 3]>, s: Seq<Edge>, base: int, u: Seq<[u32; 3]>, k: int) -> bool {
    &&& u.len() == 4 * k
    &&& forall|j: int| 0 <= j < k ==> #[trigger] divided_at(t, s, base, u, j)
}

proof fn lemma_divided_kept(
    t: Seq<[u32; 3]>,
    s: Seq<Edge>,
    s2: Seq<Edge>,
    base: int,
    u: Seq<[u32; 3]>,
    u2: Seq<[u32; 3]>,
    k: int,
)
    requires
        divided_to(t, s, base, u, k),
        0 <= k <= t.len(),
        s.len() <= s2.len(),
        forall|i: int| 0 <= i < s.len() ==> #[trigger] s2[i] == s[i],
        u.len() <= u2.len(),
        forall|i: int| 0 <= i < u.len() ==> #[trigger] u2[i] == u[i],
    ensures
        forall|j: int| 0 <= j < k ==> #[trigger] divided_at(t, s2, base, u2, j),
{
    assert forall|j: int| 0 <= j < k implies #[trigger] divided_at(t, s2, base, u2, j) by {
        assert(divided_at(t, s, base, u, j));
        assert(u2[4 * j] == u[4 * j] && u2[4 * j + 1] == u[4 * j + 1] && u2[4 * j + 2] == u[4 * j + 2] && u2[4 * j + 3]
            == u[4 * j + 3]);
        let m = u[4 * j + 3];
        assert(s2[m[0] - base] == s[m[0] - base]);
        assert(s2[m[1] - base] == s[m[1] - base]);
        assert(s2[m[2] - base] == s[m[2] - base]);
    }
}

/// Divides each triangle into four by the points halfway along its edges.
fn subdivide(v: &mut Vec<Vec3>, t: &Vec<[u32; 3]>) -> (u: Vec<[u32; 3]>)
    requires
        old(v)@.len() + 3 * t@.len() <= u32::MAX,
        all_below(t@, old(v)@.len() as int),
    ensures
        final(v)@ == divided_points(old(v)@, t@),
        divided_faces(old(v)@.len() as int, t@, u@),
        final(v)@.len() <= old(v)@.len() + 3 * t@.len(),
        all_below(u@, final(v)@.len() as int),
{
    let ghost w = v@;
    let base: u32 = v.len() as u32;
    let two: Double = Double::from_bits(0x4000_0000_0000_0000);
    let mut notes: EdgeNotes = EdgeNotes { list: Vec::new(), index: BTreeMap::new() };
    let mut u: Vec<[u32; 3]> = Vec::new();
    let mut k: usize = 0;
    while k < t.len()
        invariant
            k <= t@.len(),
            base == w.len(),
            w.len() + 3 * t@.len() <= u32::MAX,
            all_below(t@, w.len() as int),
            notes.wf(),
            notes.list@ == edges_met(t@, k as nat),
            notes.list@.len() <= 3 * k,
            divided_to(t@, notes.list@, base as int, u@, k as int),
            all_below(u@, base + notes.list@.len()),
        decreases t@.len() - k,
    {
        let x: [u32; 3] = t[k];
        let ghost s0 = notes.list@;
        let ghost u0 = u@;
        assert(t@[k as int] == x && x[0] < w.len() && x[1] < w.len() && x[2] < w.len());
        let a: u32 = base + notes.note(x[0], x[1]);
        let ghost s1 = notes.list@;
        let b: u32 = base + notes.note(x[1], x[2]);
        let ghost s2 = notes.list@;
        let c: u32 = base + notes.note(x[2], x[0]);
        let ghost s3 = notes.list@;
        proof {
            assert(s2[a - base] == s1[a - base]);
            assert(s3[a - base] == s2[a - base]);
            assert(s3[b - base] == s2[b - base]);
        }
        u.push([x[0], a, c]);
        u.push([x[1], b, a]);
        u.push([x[2], c, b]);
        u.push([a, b, c]);
        proof {
            lemma_divided_kept(t@, s0, s3, base as int, u0, u@, k as int);
            let q = u@[4 * k + 3];
            assert(u@[4 * k]@ =~= seq![x[0], a, c]);
            assert(u@[4 * k + 1]@ =~= seq![x[1], b, a]);
            assert(u@[4 * k + 2]@ =~= seq![x[2], c, b]);
            assert(q@ =~= seq![a, b, c]);
            assert(divided_at(t@, s3, base as int, u@, k as int));
            assert forall|i: int| 0 <= i < u@.len() implies (#[trigger] u@[i])[0] < base + s3.len() && u@[i][1] < base
                + s3.len() && u@[i][2] < base + s3.len() by {
                if i < u0.len() {
                    assert(u@[i] == u0[i]);
                } else if i == u0.len() {
                    assert(u@[i] == u@[4 * k]);
                } else if i == u0.len() + 1 {
                    assert(u@[i] == u@[4 * k + 1]);
                } else if i == u0.len() + 2 {
                    assert(u@[i] == u@[4 * k + 2]);
                } else {
                    assert(u@[i] == q);
                }
            }
        }
        k = k + 1;
    }
    let ghost s = notes.list@;
    let mut i: usize = 0;
    proof {
        assert(v@ =~= w + Seq::new(0, |j: int| halfway(w, s[j])));
        lemma_edges_below(t@, t@.len(), w.len() as int);
    }
    while i < notes.list.len()
        invariant
            i <= notes.list@.len(),
            s == notes.list@,
            two == (Double { bits: 0x4000_0000_0000_0000 }),
            forall|j: int| 0 <= j < s.len() ==> (#[trigger] s[j]).a < w.len() && s[j].b < w.len(),
            v@ == w + Seq::new(i as nat, |j: int| halfway(w, s[j])),
        decreases notes.list@.len() - i,
    {
        let f: Edge = notes.list[i];
        assert(s[i as int] == f);
        assert(v@[f.a as int] == w[f.a as int] && v@[f.b as int] == w[f.b as int]);
        let m: Vec3 = v[f.a as usize].over(two).plus(v[f.b as usize].over(two));
        v.push(m);
        i = i + 1;
        assert(v@ =~= w + Seq::new(i as nat, |j: int| halfway(w, s[j])));
    }
    u
}

proof fn lemma_edges_below(t: Seq<[u32; 3]>, k: nat, n: int)
    requires
        k <= t.len(),
        all_below(t, n),
    ensures
        forall|j: int| 0 <= j < edges_met(t, k).len() ==> (#[trigger] edges_met(t, k)[j]).a < n && edges_met(t, k)[j].b < n,
    decreases k,
{
    if k > 0 {
        lemma_edges_below(t, (k - 1) as nat, n);
        let x = t[k - 1];
        assert(x[0] < n && x[1] < n && x[2] < n);
        let s = edges_met(t, (k - 1) as nat);
        let s1 = with_edge(s, Edge { a: x[0], b: x[1] });
        let s2 = with_edge(s1, Edge { a: x[1], b: x[2] });
        assert forall|j: int| 0 <= j < s1.len() implies (#[trigger] s1[j]).a < n && s1[j].b < n by {
            if j < s.len() {
                assert(s1[j] == s[j]);
            }
        }
        assert forall|j: int| 0 <= j < s2.len() implies (#[trigger] s2[j]).a < n && s2[j].b < n by {
            if j < s1.len() {
                assert(s2[j] == s1[j]);
            }
        }
        let s3 = edges_met(t, k);
        assert forall|j: int| 0 <= j < s3.len() implies (#[trigger] s3[j]).a < n && s3[j].b < n by {
            if j < s2.len() {
                assert(s3[j] == s2[j]);
            }
        }
    }
}

/// A vertex of a sphere: the direction of a point, at the radius.
pub open spec fn projected(v: Vec3, radius: Double) -> Vec3 {
    match normalized_vector(v) {
        Some(n) => vector_product(n, radius),
        None => Vec3 { x: Double { bits: 0 }, y: Double { bits: 0 }, z: Double { bits: 0 } },
    }
}

/// The most subdivisions of an icosahedron whose triangles can be counted.
pub const MOST_SUBDIVISIONS: u32 = 13;

/// Triangles after `n` subdivisions.
pub open spec fn sphere_triangles(n: nat) -> int
    decreases n,
{
    if n == 0 {
        20
    } else {
        4 * sphere_triangles((n - 1) as nat)
    }
}

proof fn lemma_sphere_triangles(n: nat)
    requires
        n <= MOST_SUBDIVISIONS,
    ensures
        20 <= sphere_triangles(n) <= 1_342_177_280,
{
    reveal_with_fuel(sphere_triangles, 14);
}

/// An icosphere of the given radius, centred at the origin: an icosahedron, each
/// of whose sides is divided into four as often as `subdivisions` says, with its
/// vertices moved to the radius. The error is that of the mesh constructor, which
/// a moderate radius never gives.
pub fn icosphere(radius: Double, subdivisions: u32) -> (r: Result<TriMesh, MeshError>)
    requires
        subdivisions <= MOST_SUBDIVISIONS,
    ensures
        exists|v: Seq<Vec3>, t: Seq<[u32; 3]>| #[trigger]
            divided_icosahedron(v, t, subdivisions as nat) && t.len() == sphere_triangles(subdivisions as nat) && ({
                let points = Seq::new(v.len(), |i: int| projected(v[i], radius));
                match r {
                    Ok(m) => m.points() == points && m.faces() == t && mesh_fault(points, t) is None && built_in_memory(
                        m.origin(),
                    ),
                    Err(e) => mesh_fault(points, t) == Some(e),
                }
            }),
        moderate(radius) ==> r is Ok,
{
    let (mut v, mut t) = icosahedron();
    proof {
        assert forall|i: int| 0 <= i < v@.len() implies coarse_vertex(#[trigger] v@[i], 0) by {
            lemma_icosahedron_is_coarse(i);
        }
    }
    let mut n: u32 = 0;
    while n < subdivisions
        invariant
            n <= subdivisions <= MOST_SUBDIVISIONS,
            divided_icosahedron(v@, t@, n as nat),
            t@.len() == sphere_triangles(n as nat),
            v@.len() <= t@.len(),
            all_below(t@, v@.len() as int),
            forall|i: int| 0 <= i < v@.len() ==> coarse_vertex(#[trigger] v@[i], n as nat),
        decreases subdivisions - n,
    {
        let ghost w = v@;
        let ghost u = t@;
        proof {
            lemma_sphere_triangles((n + 1) as nat);
            lemma_divided_is_coarse(w, u, n as nat);
        }
        let next: Vec<[u32; 3]> = subdivide(&mut v, &t);
        t = next;
        n = n + 1;
        assert(divided_icosahedron(w, u, (n - 1) as nat) && v@ == divided_points(w, u) && divided_faces(
            w.len() as int,
            u,
            t@,
        ));
    }
    let mut points: Vec<Vec3> = Vec::new();
    let mut i: usize = 0;
    while i < v.len()
        invariant
            i <= v@.len(),
            points@ == Seq::new(i as nat, |k: int| projected(v@[k], radius)),
        decreases v@.len() - i,
    {
        let p: Vec3 = match v[i].normalize() {
            Some(d) => d.times(radius),
            None => Vec3::zeroed(),
        };
        points.push(p);
        i = i + 1;
        assert(points@ =~= Seq::new(i as nat, |k: int| projected(v@[k], radius)));
    }
    proof {
        lemma_sphere_triangles(subdivisions as nat);
        if moderate(radius) {
            assert forall|k: int| 0 <= k < points@.len() implies sound_vertex(#[trigger] points@[k]) by {
                assert(coarse_vertex(v@[k], subdivisions as nat));
                lemma_projected_is_sound(v@[k], subdivisions as nat, radius);
            }
            assert(sound(points@, t@));
            law_faultless_is_sound(points@, t@);
        }
    }
    TriMesh::new(points, t, MeshMeta::synthetic())
}

/// The vertices after a subdivision are as coarse as one more halving makes them.
proof fn lemma_divided_is_coarse(v: Seq<Vec3>, t: Seq<[u32; 3]>, n: nat)
    requires
        forall|i: int| 0 <= i < v.len() ==> coarse_vertex(#[trigger] v[i], n),
        all_below(t, v.len() as int),
        n < MOST_SUBDIVISIONS,
    ensures
        forall|i: int| 0 <= i < divided_points(v, t).len() ==> coarse_vertex(#[trigger] divided_points(v, t)[i], n + 1),
{
    let s = edges_met(t, t.len());
    let d = divided_points(v, t);
    lemma_edges_below(t, t.len(), v.len() as int);
    assert forall|i: int| 0 <= i < d.len() implies coarse_vertex(#[trigger] d[i], n + 1) by {
        if i < v.len() {
            assert(d[i] == v[i]);
            lemma_coarse_kept(v[i], n);
        } else {
            let e = s[i - v.len()];
            assert(d[i] == halfway(v, e));
            assert(coarse_vertex(v[e.a as int], n) && coarse_vertex(v[e.b as int], n));
            lemma_halfway_is_coarse(v, e, n);
        }
    }
}

} // verus!
