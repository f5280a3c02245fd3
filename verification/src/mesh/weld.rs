//! Vertex welding by lattice quantisation.
//!
//! Each coordinate is snapped to a lattice, which gives a vertex a key of three
//! integers. Two vertices weld exactly when their keys are equal, so the result
//! does not depend on the order in which vertices are visited. A welded vertex is
//! the lattice point itself, and welded vertices are numbered in ascending order
//! of their keys.

use crate::arithmetic::{of_int, product, quotient};
use crate::double::Double;
use crate::math::Vec3;
use crate::mesh::{axis_label, axis_name, mesh_fault, MeshError, TriMesh};
use crate::rounding::{lemma_pow2_127, two_to};
use crate::sorting::{
    find, law_sorting_is_canonical, lemma_sorted_exists, same_values, sort_distinct, strictly_sorted, Ranked,
};
use crate::text::{decimal_text, push_number};
use vstd::arithmetic::div_mod::*;
use vstd::arithmetic::mul::*;
use vstd::arithmetic::power2::*;
use vstd::prelude::*;

verus! {

/// Bits of the usual lattice spacing, a millionth of a millimetre.
pub const EPS_WELD: u64 = 0x3eb0_c6f7_a0b5_ed8d;

/// The integer lattice coordinates that a vertex snaps to.
#[derive(Clone, Copy, Debug, PartialEq, Eq, Structural)]
pub struct LatticeKey {
    /// Along the first axis.
    pub x: i64,
    /// Along the second axis.
    pub y: i64,
    /// Along the third axis.
    pub z: i64,
}

impl Ranked for LatticeKey {
    open spec fn at_most(self, other: Self) -> bool {
        self.x < other.x || (self.x == other.x && (self.y < other.y || (self.y == other.y && self.z <= other.z)))
    }

    proof fn total(self, other: Self) {
    }

    proof fn transitive(self, mid: Self, other: Self) {
    }

    proof fn antisymmetric(self, other: Self) {
    }

    fn is_at_most(self, other: Self) -> (r: bool) {
        self.x < other.x || (self.x == other.x && (self.y < other.y || (self.y == other.y && self.z <= other.z)))
    }
}

/// The integer nearest a finite number, halves away from zero.
pub open spec fn whole_of(d: Double) -> int {
    let unit = pow2(1074) as int;
    let n = (2 * d.magnitude() + unit) / (2 * unit);
    if d.signed() {
        -n
    } else {
        n
    }
}

/// The integer nearest a number, where that is below nine quintillion.
pub open spec fn nearest_whole(q: Double) -> Option<i64> {
    if !q.finite() {
        None
    } else if -9_000_000_000_000_000_000 < whole_of(q) < 9_000_000_000_000_000_000 {
        Some(whole_of(q) as i64)
    } else {
        None
    }
}

/// The lattice coordinate of a number: the integer nearest its ratio to the
/// spacing.
pub open spec fn quantised(value: Double, lattice: Double) -> Option<i64> {
    nearest_whole(quotient(value, lattice))
}

/// The lattice point of a key.
pub open spec fn lattice_point(k: LatticeKey, lattice: Double) -> Vec3 {
    Vec3 {
        x: product(of_int(k.x as int), lattice),
        y: product(of_int(k.y as int), lattice),
        z: product(of_int(k.z as int), lattice),
    }
}

proof fn lemma_whole_shifted(n: int, m: int, e: nat, t: nat)
    requires
        n == m * pow2(e),
        e + t == 1074,
        t > 0,
    ensures
        (2 * n + pow2(1074)) / (2 * pow2(1074) as int) == (m + pow2((t - 1) as nat)) / pow2(t) as int,
{
    let p = pow2(e) as int;
    let w = pow2(t) as int;
    let h = pow2((t - 1) as nat) as int;
    lemma_pow2_pos(e);
    lemma_pow2_pos(t);
    lemma_pow2_adds(e, t);
    lemma_pow2_unfold(t);
    assert(w == 2 * h);
    let a = m + h;
    let q = a / w;
    let r = a % w;
    lemma_fundamental_div_mod(a, w);
    lemma_mod_bound(a, w);
    let big = 2 * (p * w);
    assert(2 * n + p * w == q * big + r * (2 * p)) by (nonlinear_arith)
        requires
            n == m * p,
            w == 2 * h,
            m + h == w * q + r,
            big == 2 * (p * w),
    ;
    assert(0 <= r * (2 * p) < big) by (nonlinear_arith)
        requires
            0 <= r < w,
            p > 0,
            big == 2 * (p * w),
    ;
    lemma_fundamental_div_mod_converse(2 * n + p * w, big, q, r * (2 * p));
}

proof fn lemma_whole_scaled(n: int, m: int, e: nat)
    requires
        n == m * pow2(e),
        e >= 1074,
        m >= 0,
    ensures
        (2 * n + pow2(1074)) / (2 * pow2(1074) as int) == m * pow2((e - 1074) as nat),
{
    let u = pow2(1074) as int;
    let w = pow2((e - 1074) as nat) as int;
    lemma_pow2_pos(1074);
    lemma_pow2_adds(1074, (e - 1074) as nat);
    let k = m * w;
    assert(2 * n + u == k * (2 * u) + u) by (nonlinear_arith)
        requires
            n == m * pow2(e),
            pow2(e) == u * w,
            k == m * w,
    ;
    lemma_fundamental_div_mod_converse(2 * n + u, 2 * u, k, u);
}

/// Snaps one coordinate to the lattice.
pub fn quantise(value: Double, lattice: Double) -> (r: Option<i64>)
    ensures
        r == quantised(value, lattice),
{
    round_whole(value.over(lattice))
}

/// The integer nearest a number.
pub(crate) fn round_whole(q: Double) -> (r: Option<i64>)
    ensures
        r == nearest_whole(q),
{
    if !q.is_finite() {
        return None;
    }
    let (m, e) = q.decode();
    let negative: bool = q.is_sign_negative();
    let whole: u128;
    if m == 0 {
        proof {
            lemma_pow2_pos(1074);
            lemma_small_div_of_half();
        }
        whole = 0;
    } else if e >= 1074 {
        let k: u32 = e - 1074;
        proof {
            lemma_whole_scaled(q.magnitude(), m as int, e as nat);
            lemma2_to64_rest();
            lemma_pow2_pos(k as nat);
        }
        if k > 64 {
            proof {
                lemma_pow2_strictly_increases(64, k as nat);
                assert(m * pow2(k as nat) >= 9_000_000_000_000_000_000) by (nonlinear_arith)
                    requires
                        m >= 1,
                        pow2(k as nat) >= 9_000_000_000_000_000_000,
                ;
            }
            return None;
        }
        proof {
            if k < 64 {
                lemma_pow2_strictly_increases(k as nat, 64);
            }
            assert(m * pow2(k as nat) <= 0x20_0000_0000_0000 * 0x1_0000_0000_0000_0000) by (nonlinear_arith)
                requires
                    m <= 0x20_0000_0000_0000,
                    pow2(k as nat) <= 0x1_0000_0000_0000_0000,
            ;
        }
        whole = (m as u128) * two_to(k as i32);
    } else {
        let t: u32 = 1074 - e;
        proof {
            lemma_whole_shifted(q.magnitude(), m as int, e as nat, t as nat);
        }
        if t > 100 {
            proof {
                lemma2_to64_rest();
                lemma_pow2_strictly_increases(64, (t - 1) as nat);
                lemma_pow2_unfold(t as nat);
                lemma_basic_div(m + pow2((t - 1) as nat), pow2(t as nat) as int);
            }
            whole = 0;
        } else {
            proof {
                lemma_pow2_127();
                lemma_pow2_strictly_increases(t as nat, 127);
                lemma_pow2_unfold(t as nat);
                lemma_pow2_pos((t - 1) as nat);
            }
            whole = ((m as u128) + two_to(t as i32 - 1)) / two_to(t as i32);
        }
    }
    if whole >= 9_000_000_000_000_000_000 {
        return None;
    }
    if negative {
        Some(-(whole as i64))
    } else {
        Some(whole as i64)
    }
}

proof fn lemma_small_div_of_half()
    ensures
        (2 * 0 + pow2(1074) as int) / (2 * pow2(1074) as int) == 0,
{
    lemma_pow2_pos(1074);
    lemma_basic_div(pow2(1074) as int, 2 * pow2(1074) as int);
}

/// The lattice point of a key.
pub fn dequantise(k: LatticeKey, lattice: Double) -> (p: Vec3)
    ensures
        p == lattice_point(k, lattice),
{
    Vec3::new(
        Double::from_i64(k.x).times(lattice),
        Double::from_i64(k.y).times(lattice),
        Double::from_i64(k.z).times(lattice),
    )
}

/// Why welding could not proceed.
#[derive(Debug, PartialEq, Eq)]
pub enum WeldError {
    /// The lattice spacing was not a positive finite number.
    InvalidLattice {
        /// The value.
        lattice: Double,
    },
    /// A coordinate over the lattice spacing is outside the range of keys.
    CoordinateTooLarge {
        /// Index of the vertex.
        vertex: u32,
        /// Which component: 0 = x, 1 = y, 2 = z.
        axis: usize,
        /// The value.
        value: Double,
        /// The lattice spacing in force.
        lattice: Double,
    },
    /// The welded vertices do not make a mesh.
    Rebuild(MeshError),
}

impl WeldError {
    /// What a reader is told of the error, given how the value and the spacing
    /// are written.
    pub open spec fn text(self, value: Seq<char>, lattice: Seq<char>) -> Seq<char> {
        match self {
            WeldError::InvalidLattice { .. } => "weld lattice must be a positive finite length, got "@ + lattice,
            WeldError::CoordinateTooLarge { vertex, axis, .. } => "vertex "@ + decimal_text(vertex as nat) + " component "@
                + axis_label(axis as int) + " is "@ + value + ", which does not fit the integer lattice at spacing "@ + lattice
                + "; a wrapped key would weld unrelated vertices and silently change the topology"@,
            WeldError::Rebuild(e) => "welded mesh failed validation: "@ + e.text(),
        }
    }

    /// What a reader is told of the error, given how the value and the spacing
    /// are written.
    pub fn message(&self, value: &str, lattice: &str) -> (s: String)
        ensures
            s@ == self.text(value@, lattice@),
    {
        let mut s: String = String::new();
        match self {
            WeldError::InvalidLattice { .. } => {
                s.append("weld lattice must be a positive finite length, got ");
                s.append(lattice);
            },
            WeldError::CoordinateTooLarge { vertex, axis, .. } => {
                s.append("vertex ");
                push_number(&mut s, *vertex as u64);
                s.append(" component ");
                s.append(axis_name(*axis));
                s.append(" is ");
                s.append(value);
                s.append(", which does not fit the integer lattice at spacing ");
                s.append(lattice);
                s.append("; a wrapped key would weld unrelated vertices and silently change the topology");
            },
            WeldError::Rebuild(e) => {
                s.append("welded mesh failed validation: ");
                s.append(e.message().as_str());
            },
        }
        assert(s@ =~= self.text(value@, lattice@));
        s
    }
}

/// What welding did.
#[derive(Clone, Copy, Debug, PartialEq, Eq, Structural)]
pub struct WeldReport {
    /// Vertices before welding.
    pub vertices_before: u32,
    /// Vertices after welding.
    pub vertices_after: u32,
    /// Triangles with three different corners before welding and fewer after.
    pub triangles_collapsed: u32,
    /// The lattice spacing used.
    pub lattice: Double,
}

/// A positive finite lattice spacing.
pub open spec fn valid_lattice(lattice: Double) -> bool {
    lattice.finite() && (Double { bits: 0 }).lt(lattice)
}

/// What is wrong with coordinate `axis` of a vertex, if anything is.
pub open spec fn snap_fault(v: Vec3, vertex: u32, axis: int, lattice: Double) -> Option<WeldError> {
    if quantised(v.at(axis), lattice) is None {
        Some(WeldError::CoordinateTooLarge { vertex, axis: axis as usize, value: v.at(axis), lattice })
    } else {
        None
    }
}

/// The first coordinate of a vertex that does not fit, if any.
pub open spec fn key_fault(v: Vec3, vertex: u32, lattice: Double) -> Option<WeldError> {
    if snap_fault(v, vertex, 0, lattice) is Some {
        snap_fault(v, vertex, 0, lattice)
    } else if snap_fault(v, vertex, 1, lattice) is Some {
        snap_fault(v, vertex, 1, lattice)
    } else {
        snap_fault(v, vertex, 2, lattice)
    }
}

/// The first coordinate from vertex `i` on that does not fit, if any.
pub open spec fn weld_fault(vertices: Seq<Vec3>, i: int, lattice: Double) -> Option<WeldError>
    decreases vertices.len() - i,
{
    if i >= vertices.len() {
        None
    } else {
        match key_fault(vertices[i], i as u32, lattice) {
            Some(e) => Some(e),
            None => weld_fault(vertices, i + 1, lattice),
        }
    }
}

/// The key of a vertex whose coordinates fit.
pub open spec fn key_of(v: Vec3, lattice: Double) -> LatticeKey {
    LatticeKey {
        x: quantised(v.x, lattice)->Some_0,
        y: quantised(v.y, lattice)->Some_0,
        z: quantised(v.z, lattice)->Some_0,
    }
}

/// The keys of all vertices.
pub open spec fn keys_of(vertices: Seq<Vec3>, lattice: Double) -> Seq<LatticeKey> {
    Seq::new(vertices.len(), |i: int| key_of(vertices[i], lattice))
}

/// The different keys in ascending order.
pub open spec fn clusters(keys: Seq<LatticeKey>) -> Seq<LatticeKey> {
    choose|c: Seq<LatticeKey>| strictly_sorted(c) && same_values(c, keys)
}

/// Ascending keys with the same values are the clusters.
pub proof fn lemma_clusters(c: Seq<LatticeKey>, keys: Seq<LatticeKey>)
    requires
        strictly_sorted(c),
        same_values(c, keys),
    ensures
        clusters(keys) == c,
{
    let d = clusters(keys);
    assert(strictly_sorted(d) && same_values(d, keys));
    assert forall|x: LatticeKey| #[trigger] c.contains(x) <==> d.contains(x) by {
        assert(keys.contains(x) <==> c.contains(x));
    }
    law_sorting_is_canonical(c, d);
}

/// There are clusters of any keys.
pub proof fn lemma_clusters_exist(keys: Seq<LatticeKey>)
    ensures
        strictly_sorted(clusters(keys)),
        same_values(clusters(keys), keys),
        clusters(keys).len() <= keys.len(),
{
    let c = lemma_sorted_exists(keys);
    lemma_clusters(c, keys);
}

/// The welded vertices: a lattice point for each cluster.
pub open spec fn welded_vertices(vertices: Seq<Vec3>, lattice: Double) -> Seq<Vec3> {
    let c = clusters(keys_of(vertices, lattice));
    Seq::new(c.len(), |i: int| lattice_point(c[i], lattice))
}

/// The welded vertex that a vertex becomes.
pub open spec fn welded_index(vertices: Seq<Vec3>, lattice: Double, v: u32) -> u32 {
    clusters(keys_of(vertices, lattice)).index_of(key_of(vertices[v as int], lattice)) as u32
}

/// A triangle after welding.
pub open spec fn welded_triangle(vertices: Seq<Vec3>, lattice: Double, t: [u32; 3]) -> [u32; 3] {
    [
        welded_index(vertices, lattice, t[0]),
        welded_index(vertices, lattice, t[1]),
        welded_index(vertices, lattice, t[2]),
    ]
}

/// The triangles after welding.
pub open spec fn welded_triangles(vertices: Seq<Vec3>, lattice: Double, triangles: Seq<[u32; 3]>) -> Seq<[u32; 3]> {
    Seq::new(triangles.len(), |i: int| welded_triangle(vertices, lattice, triangles[i]))
}

/// Two corners are the same vertex.
pub open spec fn degenerate(t: [u32; 3]) -> bool {
    t[0] == t[1] || t[1] == t[2] || t[2] == t[0]
}

/// How many of the first `n` triangles welding makes degenerate.
pub open spec fn collapsed(before: Seq<[u32; 3]>, after: Seq<[u32; 3]>, n: nat) -> int
    decreases n,
{
    if n == 0 {
        0
    } else {
        collapsed(before, after, (n - 1) as nat) + (if degenerate(after[n - 1]) && !degenerate(before[n - 1]) {
            1int
        } else {
            0
        })
    }
}

fn is_degenerate(t: [u32; 3]) -> (r: bool)
    ensures
        r == degenerate(t),
{
    t[0] == t[1] || t[1] == t[2] || t[2] == t[0]
}

fn snap(v: Vec3, vertex: u32, lattice: Double) -> (r: Result<LatticeKey, WeldError>)
    ensures
        match r {
            Ok(k) => key_fault(v, vertex, lattice) is None && k == key_of(v, lattice),
            Err(e) => key_fault(v, vertex, lattice) == Some(e),
        },
{
    let x: i64 = match quantise(v.x, lattice) {
        Some(x) => x,
        None => {
            return Err(WeldError::CoordinateTooLarge { vertex, axis: 0, value: v.x, lattice });
        },
    };
    let y: i64 = match quantise(v.y, lattice) {
        Some(y) => y,
        None => {
            return Err(WeldError::CoordinateTooLarge { vertex, axis: 1, value: v.y, lattice });
        },
    };
    let z: i64 = match quantise(v.z, lattice) {
        Some(z) => z,
        None => {
            return Err(WeldError::CoordinateTooLarge { vertex, axis: 2, value: v.z, lattice });
        },
    };
    Ok(LatticeKey { x, y, z })
}

fn snap_all(vertices: &[Vec3], lattice: Double) -> (r: Result<Vec<LatticeKey>, WeldError>)
    requires
        vertices@.len() <= u32::MAX,
    ensures
        match r {
            Ok(k) => weld_fault(vertices@, 0, lattice) is None && k@ == keys_of(vertices@, lattice),
            Err(e) => weld_fault(vertices@, 0, lattice) == Some(e),
        },
{
    let mut keys: Vec<LatticeKey> = Vec::new();
    let mut i: usize = 0;
    while i < vertices.len()
        invariant
            i <= vertices@.len() <= u32::MAX,
            keys@ == keys_of(vertices@, lattice).take(i as int),
            weld_fault(vertices@, 0, lattice) == weld_fault(vertices@, i as int, lattice),
        decreases vertices@.len() - i,
    {
        match snap(vertices[i], i as u32, lattice) {
            Ok(k) => {
                keys.push(k);
            },
            Err(e) => {
                return Err(e);
            },
        }
        i = i + 1;
        proof {
            assert(keys@ =~= keys_of(vertices@, lattice).take(i as int));
        }
    }
    proof {
        assert(keys@ =~= keys_of(vertices@, lattice));
    }
    Ok(keys)
}

/// Where each vertex goes among the clusters.
fn remap_all(keys: &Vec<LatticeKey>, c: &Vec<LatticeKey>) -> (r: Vec<u32>)
    requires
        strictly_sorted(c@),
        same_values(c@, keys@),
        c@.len() <= u32::MAX,
    ensures
        r@.len() == keys@.len(),
        forall|i: int| 0 <= i < keys@.len() ==> #[trigger] r@[i] == c@.index_of(keys@[i]) as u32,
{
    let mut r: Vec<u32> = Vec::new();
    let mut i: usize = 0;
    while i < keys.len()
        invariant
            i <= keys@.len(),
            strictly_sorted(c@),
            same_values(c@, keys@),
            c@.len() <= u32::MAX,
            r@.len() == i,
            forall|j: int| 0 <= j < i ==> #[trigger] r@[j] == c@.index_of(keys@[j]) as u32,
        decreases keys@.len() - i,
    {
        let k: LatticeKey = keys[i];
        proof {
            assert(keys@.contains(k));
            assert(c@.contains(k));
        }
        let at: usize = find(c, k);
        proof {
            let m = c@.index_of(k);
            assert(0 <= m < c@.len() && c@[m] == k);
            if m < at {
                assert(c@[m] != c@[at as int]);
            } else if at < m {
                assert(c@[at as int] != c@[m]);
            }
        }
        r.push(at as u32);
        i = i + 1;
    }
    r
}

/// What welding makes of a mesh.
pub open spec fn weld_outcome(
    mesh: TriMesh,
    lattice: Double,
    r: Result<(TriMesh, WeldReport), WeldError>,
) -> bool {
    let v = mesh.points();
    let f = mesh.faces();
    let wv = welded_vertices(v, lattice);
    let wf = welded_triangles(v, lattice, f);
    if !valid_lattice(lattice) {
        r == Err::<(TriMesh, WeldReport), WeldError>(WeldError::InvalidLattice { lattice })
    } else if weld_fault(v, 0, lattice) is Some {
        r == Err::<(TriMesh, WeldReport), WeldError>(weld_fault(v, 0, lattice)->Some_0)
    } else if mesh_fault(wv, wf) is Some {
        r == Err::<(TriMesh, WeldReport), WeldError>(WeldError::Rebuild(mesh_fault(wv, wf)->Some_0))
    } else {
        &&& r matches Ok((m, report))
        &&& m.points() == wv
        &&& m.faces() == wf
        &&& m.origin() == mesh.origin()
        &&& report == (WeldReport {
            vertices_before: v.len() as u32,
            vertices_after: wv.len() as u32,
            triangles_collapsed: collapsed(f, wf, f.len()) as u32,
            lattice,
        })
    }
}

/// Welds coincident vertices at the given lattice spacing.
///
/// Triangles are kept, in order, even where welding makes two of their corners
/// one vertex; those are counted.
pub fn weld(mesh: &TriMesh, lattice: Double) -> (r: Result<(TriMesh, WeldReport), WeldError>)
    ensures
        weld_outcome(*mesh, lattice, r),
{
    if !lattice.is_finite() || !Double::zeroed().less(lattice) {
        return Err(WeldError::InvalidLattice { lattice });
    }
    let before: &[Vec3] = mesh.vertices();
    let count: u32 = mesh.vertex_count();
    let keys: Vec<LatticeKey> = match snap_all(before, lattice) {
        Ok(k) => k,
        Err(e) => {
            return Err(e);
        },
    };
    let c: Vec<LatticeKey> = sort_distinct(&keys);
    proof {
        lemma_clusters(c@, keys@);
    }
    let mut vertices: Vec<Vec3> = Vec::new();
    let mut i: usize = 0;
    while i < c.len()
        invariant
            i <= c@.len(),
            vertices@ == Seq::new(i as nat, |j: int| lattice_point(c@[j], lattice)),
        decreases c@.len() - i,
    {
        vertices.push(dequantise(c[i], lattice));
        i = i + 1;
        proof {
            assert(vertices@ =~= Seq::new(i as nat, |j: int| lattice_point(c@[j], lattice)));
        }
    }
    proof {
        assert(vertices@ =~= welded_vertices(mesh.points(), lattice));
    }
    let remap: Vec<u32> = remap_all(&keys, &c);
    let old_faces: &[[u32; 3]] = mesh.triangles();
    let ghost f = mesh.faces();
    let ghost wf = welded_triangles(mesh.points(), lattice, f);
    let total: u32 = mesh.triangle_count();
    let mut triangles: Vec<[u32; 3]> = Vec::new();
    let mut fallen: u32 = 0;
    let mut j: usize = 0;
    while j < old_faces.len()
        invariant
            j <= old_faces@.len(),
            old_faces@.len() == total,
            old_faces@ == f,
            f == mesh.faces(),
            wf == welded_triangles(mesh.points(), lattice, f),
            keys@ == keys_of(mesh.points(), lattice),
            c@ == clusters(keys@),
            remap@.len() == keys@.len(),
            forall|i: int| 0 <= i < keys@.len() ==> #[trigger] remap@[i] == c@.index_of(keys@[i]) as u32,
            triangles@ == wf.take(j as int),
            fallen == collapsed(f, wf, j as nat),
            fallen <= j,
        decreases old_faces@.len() - j,
    {
        let t: [u32; 3] = old_faces[j];
        proof {
            use_type_invariant(mesh);
            assert(t == mesh.faces()[j as int]);
        }
        let w: [u32; 3] = [remap[t[0] as usize], remap[t[1] as usize], remap[t[2] as usize]];
        proof {
            assert(w@ =~= welded_triangle(mesh.points(), lattice, t)@);
            assert(w =~= wf[j as int]);
        }
        if is_degenerate(w) && !is_degenerate(t) {
            fallen = fallen + 1;
        }
        triangles.push(w);
        j = j + 1;
        proof {
            assert(triangles@ =~= wf.take(j as int));
        }
    }
    proof {
        assert(triangles@ =~= wf);
    }
    let report: WeldReport = WeldReport {
        vertices_before: count,
        vertices_after: vertices.len() as u32,
        triangles_collapsed: fallen,
        lattice,
    };
    match TriMesh::new(vertices, triangles, mesh.meta().clone()) {
        Ok(m) => Ok((m, report)),
        Err(e) => Err(WeldError::Rebuild(e)),
    }
}

/// Two vertices weld exactly when their keys are equal.
pub proof fn law_welding_is_key_equality(vertices: Seq<Vec3>, lattice: Double, a: u32, b: u32)
    requires
        a < vertices.len() <= u32::MAX,
        b < vertices.len(),
    ensures
        welded_index(vertices, lattice, a) == welded_index(vertices, lattice, b) <==> key_of(vertices[a as int], lattice)
            == key_of(vertices[b as int], lattice),
        welded_index(vertices, lattice, a) < welded_vertices(vertices, lattice).len(),
{
    let keys = keys_of(vertices, lattice);
    lemma_clusters_exist(keys);
    let c = clusters(keys);
    assert(keys[a as int] == key_of(vertices[a as int], lattice));
    assert(keys[b as int] == key_of(vertices[b as int], lattice));
    assert(keys.contains(keys[a as int]));
    assert(keys.contains(keys[b as int]));
    assert(c.contains(keys[a as int]));
    assert(c.contains(keys[b as int]));
}

/// Welded vertices do not depend on the order in which the vertices came, nor on
/// how often each came: only on which keys there are.
pub proof fn law_welding_is_order_independent(v: Seq<Vec3>, w: Seq<Vec3>, lattice: Double)
    requires
        same_values(keys_of(v, lattice), keys_of(w, lattice)),
    ensures
        welded_vertices(v, lattice) == welded_vertices(w, lattice),
{
    let (a, b) = (keys_of(v, lattice), keys_of(w, lattice));
    lemma_clusters_exist(b);
    let c = clusters(b);
    assert forall|x: LatticeKey| #[trigger] c.contains(x) <==> a.contains(x) by {
        assert(a.contains(x) <==> b.contains(x));
    }
    lemma_clusters(c, a);
}

/// `q` undoes `p`: both arrange `n` vertices anew.
pub open spec fn undoes(p: Seq<u32>, q: Seq<u32>, n: int) -> bool {
    &&& p.len() == n
    &&& q.len() == n
    &&& forall|i: int| 0 <= i < n ==> #[trigger] p[i] < n && q[p[i] as int] == i
    &&& forall|i: int| 0 <= i < n ==> #[trigger] q[i] < n && p[q[i] as int] == i
}

/// The second triangle is the first with its vertices arranged anew.
pub open spec fn follows(t: [u32; 3], u: [u32; 3], p: Seq<u32>) -> bool {
    &&& t[0] < p.len() && u[0] == p[t[0] as int]
    &&& t[1] < p.len() && u[1] == p[t[1] as int]
    &&& t[2] < p.len() && u[2] == p[t[2] as int]
}

/// One mesh is another with its vertices arranged anew.
pub open spec fn rearranged(v: Seq<Vec3>, f: Seq<[u32; 3]>, w: Seq<Vec3>, g: Seq<[u32; 3]>, p: Seq<u32>) -> bool {
    &&& w.len() == v.len()
    &&& g.len() == f.len()
    &&& forall|i: int| 0 <= i < v.len() ==> w[#[trigger] p[i] as int] == v[i]
    &&& forall|i: int| 0 <= i < f.len() ==> #[trigger] follows(f[i], g[i], p)
}

proof fn lemma_rearranged_keys(v: Seq<Vec3>, w: Seq<Vec3>, lattice: Double, p: Seq<u32>, q: Seq<u32>)
    requires
        undoes(p, q, v.len() as int),
        w.len() == v.len(),
        forall|i: int| 0 <= i < v.len() ==> w[#[trigger] p[i] as int] == v[i],
    ensures
        clusters(keys_of(v, lattice)) == clusters(keys_of(w, lattice)),
{
    let (a, b) = (keys_of(v, lattice), keys_of(w, lattice));
    lemma_clusters_exist(b);
    let c = clusters(b);
    assert forall|x: LatticeKey| #[trigger] c.contains(x) <==> a.contains(x) by {
        if a.contains(x) {
            let i = choose|i: int| 0 <= i < a.len() && a[i] == x;
            assert(p[i] < v.len());
            assert(b[p[i] as int] == x);
            assert(b.contains(x));
        }
        if b.contains(x) {
            let j = choose|j: int| 0 <= j < b.len() && b[j] == x;
            assert(q[j] < v.len());
            assert(p[q[j] as int] == j);
            assert(a[q[j] as int] == x);
        }
    }
    lemma_clusters(c, a);
}

proof fn lemma_rearranged_collapse(
    f: Seq<[u32; 3]>,
    g: Seq<[u32; 3]>,
    after: Seq<[u32; 3]>,
    p: Seq<u32>,
    q: Seq<u32>,
    count: int,
    n: nat,
)
    requires
        undoes(p, q, count),
        n <= f.len(),
        forall|i: int| 0 <= i < f.len() ==> #[trigger] follows(f[i], g[i], p),
    ensures
        collapsed(f, after, n) == collapsed(g, after, n),
    decreases n,
{
    if n > 0 {
        lemma_rearranged_collapse(f, g, after, p, q, count, (n - 1) as nat);
        let i = n - 1;
        assert(follows(f[i], g[i], p));
        assert(q[p[f[i][0] as int] as int] == f[i][0]);
        assert(q[p[f[i][1] as int] as int] == f[i][1]);
        assert(q[p[f[i][2] as int] as int] == f[i][2]);
    }
}

/// Welding does not depend on the order of the vertices: two meshes that differ in
/// nothing but that order weld to the same vertices and the same triangles, with
/// as many collapsed.
pub proof fn law_rearranged_meshes_weld_alike(
    v: Seq<Vec3>,
    f: Seq<[u32; 3]>,
    w: Seq<Vec3>,
    g: Seq<[u32; 3]>,
    p: Seq<u32>,
    q: Seq<u32>,
    lattice: Double,
)
    requires
        undoes(p, q, v.len() as int),
        rearranged(v, f, w, g, p),
    ensures
        welded_vertices(v, lattice) == welded_vertices(w, lattice),
        welded_triangles(v, lattice, f) == welded_triangles(w, lattice, g),
        collapsed(f, welded_triangles(v, lattice, f), f.len()) == collapsed(g, welded_triangles(w, lattice, g), g.len()),
{
    lemma_rearranged_keys(v, w, lattice, p, q);
    let (a, b) = (welded_triangles(v, lattice, f), welded_triangles(w, lattice, g));
    assert forall|i: int| 0 <= i < f.len() implies a[i] == b[i] by {
        assert(follows(f[i], g[i], p));
        assert(w[p[f[i][0] as int] as int] == v[f[i][0] as int]);
        assert(w[p[f[i][1] as int] as int] == v[f[i][1] as int]);
        assert(w[p[f[i][2] as int] as int] == v[f[i][2] as int]);
        assert(a[i]@ =~= b[i]@);
    }
    assert(a =~= b);
    lemma_rearranged_collapse(f, g, a, p, q, v.len() as int, f.len());
}

} // verus!
