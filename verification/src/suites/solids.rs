//! Generated shapes are closed outward solids, and rays cross them evenly.

use super::cuts::{spell, spelled, told};
use super::judging::{say, say_of};
use super::outcomes::{flaw_if, heading, point_words, write_point};
use crate::arithmetic::{difference, of_int, product, quotient, sum};
use crate::canonical::{list_words, write_list, Canonical};
use crate::double::Double;
use crate::math::{box_around, Aabb3, Ray, Vec3};
use crate::mesh::bvh::casting::{castable, Hit};
use crate::mesh::bvh::tree::{in_index_order, scene_of, settled, tree_nodes};
use crate::mesh::bvh::{line_of, trace, Bvh, Trace};
use crate::mesh::shapes::{
    block_points, block_triangles, box_faces, box_points, corners_at, cube, divided_faces, divided_icosahedron, divided_points, grid_vertex, icosphere,
    lattice_block, projected,
};
use crate::mesh::sphere::lemma_five_is_moderate;
use crate::mesh::validate::{consistent, enclosed, manifold, watertight};
use crate::mesh::validate::validate;
use crate::mesh::unique::{
    law_block_points_are_distinct, law_corners_tell_a_triangle, law_divided_icosahedron_is_unique,
};
use crate::mesh::weld::{valid_lattice, weld, weld_fault, welded_triangles, welded_vertices, EPS_WELD};
use crate::mesh::{built_in_memory, mesh_fault, TriMesh};
use crate::mesh::words::write_text;
use crate::selftest::{Failure, SuiteResult};
use crate::sorting::{lemma_ascending_exists, law_sorted_is_unique, sorted};
use crate::text::{decimal_text, push_number};
use vstd::prelude::*;

verus! {

/// A shape and what it is called.
#[derive(Debug)]
pub struct SolidCase {
    /// What the shape is called.
    pub name: &'static str,
    /// The shape.
    pub mesh: TriMesh,
}

/// A mesh can be welded at the default lattice.
pub open spec fn welds(m: TriMesh) -> bool {
    let lattice = Double { bits: EPS_WELD };
    &&& valid_lattice(lattice)
    &&& weld_fault(m.points(), 0, lattice) is None
    &&& mesh_fault(
        welded_vertices(m.points(), lattice),
        welded_triangles(m.points(), lattice, m.faces()),
    ) is None
}

/// A mesh is closed, manifold, consistently oriented and outward-facing.
pub open spec fn solid(m: TriMesh) -> bool {
    manifold(m.faces()) && watertight(m.faces()) && consistent(m.faces()) && (Double { bits: 0 }).lt(
        enclosed(m.points(), m.faces()),
    )
}

/// Coordinate `i` of eight, from one end of an extent to the other.
pub open spec fn sample(lo: Double, hi: Double, i: int) -> Double {
    sum(lo, quotient(product(difference(hi, lo), of_int(i)), Double { bits: 0x401c_0000_0000_0000 }))
}

/// Ray `k` of the sixty-four that are sent up through a box.
pub open spec fn probe(b: Aabb3, k: int) -> Ray {
    let zero = Double { bits: 0 };
    let one = Double { bits: 0x3ff0_0000_0000_0000 };
    Ray {
        origin: Vec3 {
            x: sample(b.min.x, b.max.x, k / 8),
            y: sample(b.min.y, b.max.y, k % 8),
            z: difference(difference(b.min.z, difference(b.max.z, b.min.z)), one),
        },
        direction: Vec3 { x: zero, y: zero, z: one },
    }
}

/// What a ray meets of a mesh.
pub open spec fn met(m: TriMesh, ray: Ray) -> Trace {
    let scene = scene_of(m.points(), m.faces());
    let n = m.faces().len();
    trace(
        tree_nodes(scene, n),
        settled(scene, in_index_order(n)),
        line_of(m.points(), m.faces(), ray),
        0,
    )
}

/// The hits of a ray, ascending.
pub open spec fn hits_of(m: TriMesh, ray: Ray) -> Seq<Hit> {
    choose|h: Seq<Hit>| sorted(h) && h.to_multiset() == met(m, ray).hits.to_multiset()
}

proof fn lemma_hits_of(m: TriMesh, ray: Ray, h: Seq<Hit>)
    requires
        sorted(h),
        h.to_multiset() == met(m, ray).hits.to_multiset(),
    ensures
        h == hits_of(m, ray),
{
    law_sorted_is_unique(h, hits_of(m, ray));
}

/// Probe `k` of a mesh.
pub open spec fn probe_of(m: TriMesh, k: int) -> Ray {
    probe(box_around(m.points(), m.points().len()), k)
}

/// How many of the first `n` probes can be cast.
pub open spec fn cast_count(m: TriMesh, n: nat) -> nat
    decreases n,
{
    if n == 0 {
        0
    } else {
        cast_count(m, (n - 1) as nat) + if castable(probe_of(m, n - 1)) {
            1nat
        } else {
            0
        }
    }
}

/// The name of a probe: the shape, and its place in the square of probes.
pub open spec fn probe_name(kind: Seq<char>, name: Seq<char>, k: nat) -> Seq<char> {
    kind + name + "/"@ + decimal_text(k / 8) + "-"@ + decimal_text(k % 8)
}

/// What is wrong with a probe: it cannot be cast, or crosses the mesh an odd
/// number of times.
pub open spec fn probe_flaws(name: Seq<char>, m: TriMesh, k: nat) -> Seq<(Seq<char>, Seq<char>)> {
    let ray = probe_of(m, k as int);
    if !castable(ray) {
        seq![(probe_name("raycast/"@, name, k), "the ray cannot be cast"@)]
    } else {
        flaw_if(
            hits_of(m, ray).len() % 2 != 0,
            probe_name("parity/"@, name, k),
            "odd crossing count; material leaks"@,
        )
    }
}

/// What is wrong with the first `n` probes.
pub open spec fn probes_flaws(name: Seq<char>, m: TriMesh, n: nat) -> Seq<(Seq<char>, Seq<char>)>
    decreases n,
{
    if n == 0 {
        Seq::empty()
    } else {
        probes_flaws(name, m, (n - 1) as nat) + probe_flaws(name, m, (n - 1) as nat)
    }
}

/// What a probe puts on record: where it starts, its hits, and how they were
/// decided.
pub open spec fn probe_words(m: TriMesh, k: int) -> Seq<u64> {
    let ray = probe_of(m, k);
    let t = met(m, ray);
    if castable(ray) {
        point_words(ray.origin) + list_words(hits_of(m, ray)) + seq![
            t.tests as u64,
            (t.tests - t.sure) as u64,
            t.vanished as u64,
            t.coplanar as u64,
        ]
    } else {
        Seq::empty()
    }
}

/// What the first `n` probes put on record.
pub open spec fn probes_words(m: TriMesh, n: nat) -> Seq<u64>
    decreases n,
{
    if n == 0 {
        Seq::empty()
    } else {
        probes_words(m, (n - 1) as nat) + probe_words(m, n - 1)
    }
}

/// A hierarchy on record.
#[verifier::opaque]
pub open spec fn tree_words(m: TriMesh) -> Seq<u64> {
    let scene = scene_of(m.points(), m.faces());
    let n = m.faces().len();
    list_words(tree_nodes(scene, n)) + list_words(settled(scene, in_index_order(n)))
}

/// What is wrong with the surface of a shape.
#[verifier::opaque]
pub open spec fn surface_flaws(c: SolidCase) -> Seq<(Seq<char>, Seq<char>)> {
    flaw_if(!welds(c.mesh), "weld/"@ + c.name@, "the shape does not weld"@) + flaw_if(
        !solid(c.mesh),
        "validate/"@ + c.name@,
        "generated shape is not a closed outward solid"@,
    )
}

impl SolidCase {
    /// The shape is small enough for a hierarchy.
    pub open spec fn wf(self) -> bool {
        self.mesh.faces().len() <= 0x7fff_ffff
    }

    /// What is wrong with the shape.
    #[verifier::opaque]
    pub open spec fn flaws(self) -> Seq<(Seq<char>, Seq<char>)> {
        surface_flaws(self) + probes_flaws(self.name@, self.mesh, 64)
    }

    /// What the shape puts on record.
    #[verifier::opaque]
    pub open spec fn content(self) -> Seq<u64> {
        list_words(self.name@) + self.mesh.words() + tree_words(self.mesh) + probes_words(self.mesh, 64)
    }
}

/// What is wrong with the first `n` shapes.
pub open spec fn solids_flaws(c: Seq<SolidCase>, n: nat) -> Seq<(Seq<char>, Seq<char>)>
    decreases n,
{
    if n == 0 {
        Seq::empty()
    } else {
        solids_flaws(c, (n - 1) as nat) + c[n - 1].flaws()
    }
}

/// How many probes of the first `n` shapes can be cast.
pub open spec fn casts_of(c: Seq<SolidCase>, n: nat) -> nat
    decreases n,
{
    if n == 0 {
        0
    } else {
        casts_of(c, (n - 1) as nat) + cast_count(c[n - 1].mesh, 64)
    }
}

/// What the first `n` shapes put on record.
pub open spec fn solids_words(c: Seq<SolidCase>, n: nat) -> Seq<u64>
    decreases n,
{
    if n == 0 {
        heading("mesh"@)
    } else {
        solids_words(c, (n - 1) as nat) + c[n - 1].content()
    }
}

/// A failure of one probe.
fn say_probe(kind: &str, name: &str, k: u32, detail: &str, failures: &mut Vec<Failure>)
    ensures
        told(final(failures)@) == told(old(failures)@) + seq![(probe_name(kind@, name@, k as nat), detail@)],
{
    let mut case: String = String::new();
    case.append(kind);
    case.append(name);
    case.append("/");
    push_number(&mut case, (k / 8) as u64);
    case.append("-");
    push_number(&mut case, (k % 8) as u64);
    assert(case@ =~= probe_name(kind@, name@, k as nat));
    say(case.as_str(), detail, failures);
}

/// Samples one coordinate.
fn sample_at(lo: Double, hi: Double, i: u32) -> (d: Double)
    ensures
        d == sample(lo, hi, i as int),
{
    lo.plus(hi.minus(lo).times(Double::from_i64(i as i64)).over(Double::from_bits(0x401c_0000_0000_0000)))
}

/// Sends one ray up through a box.
pub fn send(b: &Aabb3, k: u32) -> (r: Ray)
    ensures
        r == probe(*b, k as int),
{
    let one: Double = Double::from_bits(0x3ff0_0000_0000_0000);
    let zero: Double = Double::zeroed();
    let origin: Vec3 = Vec3::new(
        sample_at(b.min.x, b.max.x, k / 8),
        sample_at(b.min.y, b.max.y, k % 8),
        b.min.z.minus(b.max.z.minus(b.min.z)).minus(one),
    );
    Ray { origin, direction: Vec3::new(zero, zero, one) }
}

/// Casts one probe. The result says whether it could be cast.
fn cast_probe(case: &SolidCase, bvh: &Bvh, bounds: &Aabb3, k: u32, failures: &mut Vec<Failure>, words: &mut Vec<u64>) -> (r: bool)
    requires
        bvh.covers(case.mesh.points(), case.mesh.faces()),
        *bounds == box_around(case.mesh.points(), case.mesh.points().len()),
    ensures
        r == castable(probe_of(case.mesh, k as int)),
        told(final(failures)@) == told(old(failures)@) + probe_flaws(case.name@, case.mesh, k as nat),
        final(words)@ == old(words)@ + probe_words(case.mesh, k as int),
{
    let ray: Ray = send(bounds, k);
    let ghost was = told(failures@);
    let ghost before = words@;
    let mut hits: Vec<Hit> = Vec::new();
    match bvh.intersect_ray_all_into(&case.mesh, &ray, &mut hits) {
        Ok(stats) => {
            proof {
                lemma_hits_of(case.mesh, ray, hits@);
            }
            write_point(ray.origin, words);
            write_list(hits.as_slice(), words);
            words.push(stats.triangle_tests);
            words.push(stats.exact_path);
            words.push(stats.sos_resolutions);
            words.push(stats.coplanar_rejected);
            assert(words@ =~= before + probe_words(case.mesh, k as int));
            if hits.len() % 2 != 0 {
                say_probe("parity/", case.name, k, "odd crossing count; material leaks", failures);
            }
            assert(told(failures@) =~= was + probe_flaws(case.name@, case.mesh, k as nat));
            true
        },
        Err(_) => {
            assert(words@ =~= before + probe_words(case.mesh, k as int));
            say_probe("raycast/", case.name, k, "the ray cannot be cast", failures);
            false
        },
    }
}

/// Casts all probes of a shape. The result is how many could be cast.
fn cast_probes(case: &SolidCase, bvh: &Bvh, failures: &mut Vec<Failure>, words: &mut Vec<u64>) -> (cast: usize)
    requires
        bvh.covers(case.mesh.points(), case.mesh.faces()),
    ensures
        cast == cast_count(case.mesh, 64),
        cast <= 64,
        told(final(failures)@) == told(old(failures)@) + probes_flaws(case.name@, case.mesh, 64),
        final(words)@ == old(words)@ + probes_words(case.mesh, 64),
{
    let ghost head = words@;
    let ghost said = told(failures@);
    let bounds: Aabb3 = case.mesh.bounds();
    let mut cast: usize = 0;
    let mut k: u32 = 0;
    assert(words@ =~= head + probes_words(case.mesh, 0));
    assert(told(failures@) =~= said + probes_flaws(case.name@, case.mesh, 0));
    while k < 64
        invariant
            k <= 64,
            cast == cast_count(case.mesh, k as nat),
            cast <= k,
            bvh.covers(case.mesh.points(), case.mesh.faces()),
            bounds == box_around(case.mesh.points(), case.mesh.points().len()),
            told(failures@) == said + probes_flaws(case.name@, case.mesh, k as nat),
            words@ == head + probes_words(case.mesh, k as nat),
        decreases 64 - k,
    {
        if cast_probe(case, bvh, &bounds, k, failures, words) {
            cast = cast + 1;
        }
        k = k + 1;
        assert(words@ =~= head + probes_words(case.mesh, k as nat));
        assert(told(failures@) =~= said + probes_flaws(case.name@, case.mesh, k as nat));
    }
    cast
}

/// Welds and validates a shape.
fn check_surface(case: &SolidCase, failures: &mut Vec<Failure>)
    ensures
        told(final(failures)@) == told(old(failures)@) + surface_flaws(*case),
{
    reveal(surface_flaws);
    let ghost was = told(failures@);
    match weld(&case.mesh, Double::from_bits(EPS_WELD)) {
        Ok(_) => {},
        Err(_) => {
            say_of("weld/", case.name, "the shape does not weld", failures);
        },
    }
    if !validate(&case.mesh).is_solid() {
        say_of("validate/", case.name, "generated shape is not a closed outward solid", failures);
    }
    assert(told(failures@) =~= was + surface_flaws(*case));
}

fn write_tree(bvh: &Bvh, words: &mut Vec<u64>, Ghost(m): Ghost<TriMesh>)
    requires
        bvh.covers(m.points(), m.faces()),
    ensures
        final(words)@ == old(words)@ + tree_words(m),
{
    reveal(tree_words);
    bvh.write_words(words);
}

proof fn lemma_joined<T>(a: Seq<T>, b: Seq<T>, c: Seq<T>, d: Seq<T>, e: Seq<T>)
    ensures
        a + b + c + d + e == a + (b + c + d + e),
        a + b + c == a + (b + c),
{
    assert(a + b + c + d + e =~= a + (b + c + d + e));
    assert(a + b + c =~= a + (b + c));
}

/// Checks one shape. The result is how many probes could be cast.
fn check_shape(case: &SolidCase, failures: &mut Vec<Failure>, words: &mut Vec<u64>) -> (cast: usize)
    requires
        case.wf(),
    ensures
        cast == cast_count(case.mesh, 64),
        cast <= 64,
        told(final(failures)@) == told(old(failures)@) + case.flaws(),
        final(words)@ == old(words)@ + case.content(),
{
    let ghost was = told(failures@);
    let ghost before = words@;
    write_text(case.name, words);
    case.mesh.write_words(words);
    check_surface(case, failures);
    let bvh: Bvh = Bvh::build(&case.mesh);
    write_tree(&bvh, words, Ghost(case.mesh));
    let cast: usize = cast_probes(case, &bvh, failures, words);
    proof {
        lemma_joined(
            before,
            list_words(case.name@),
            case.mesh.words(),
            tree_words(case.mesh),
            probes_words(case.mesh, 64),
        );
        let none = Seq::<(Seq<char>, Seq<char>)>::empty();
        lemma_joined(was, surface_flaws(*case), probes_flaws(case.name@, case.mesh, 64), none, none);
        reveal(SolidCase::flaws);
        reveal(SolidCase::content);
    }
    cast
}

/// Every shape is small enough for a hierarchy.
pub open spec fn small(shapes: Seq<SolidCase>) -> bool {
    forall|i: int| 0 <= i < shapes.len() ==> (#[trigger] shapes[i]).wf()
}

/// The suite, on given shapes.
pub fn solids_of(shapes: &[SolidCase]) -> (r: SuiteResult)
    requires
        small(shapes@),
        casts_of(shapes@, shapes@.len()) <= usize::MAX,
    ensures
        r.name@ == "mesh"@,
        r.description@ == "shape generation, welding, topology, BVH shape and leak-free ray casting"@,
        r.cases == casts_of(shapes@, shapes@.len()),
        told(r.failures@) == solids_flaws(shapes@, shapes@.len()),
        r.digest@ == ({
            let w = solids_words(shapes@, shapes@.len());
            spelled(w, w.len())
        }),
{
    let mut failures: Vec<Failure> = Vec::new();
    let mut words: Vec<u64> = Vec::new();
    write_text("mesh", &mut words);
    assert(words@ =~= heading("mesh"@));
    assert(told(failures@) =~= solids_flaws(shapes@, 0));
    let mut cases: usize = 0;
    let mut i: usize = 0;
    while i < shapes.len()
        invariant
            i <= shapes@.len(),
            small(shapes@),
            casts_of(shapes@, shapes@.len()) <= usize::MAX,
            cases == casts_of(shapes@, i as nat),
            told(failures@) == solids_flaws(shapes@, i as nat),
            words@ == solids_words(shapes@, i as nat),
        decreases shapes@.len() - i,
    {
        assert(shapes@[i as int].wf());
        proof {
            lemma_casts_grow(shapes@, (i + 1) as nat, shapes@.len());
        }
        let cast: usize = check_shape(&shapes[i], &mut failures, &mut words);
        cases = cases + cast;
        i = i + 1;
    }
    let digest: String = spell(words.as_slice());
    SuiteResult {
        name: "mesh",
        description: "shape generation, welding, topology, BVH shape and leak-free ray casting",
        cases,
        failures,
        digest,
    }
}

proof fn lemma_casts_grow(c: Seq<SolidCase>, n: nat, m: nat)
    requires
        n <= m,
    ensures
        casts_of(c, n) <= casts_of(c, m),
    decreases m,
{
    if n < m {
        lemma_casts_grow(c, n, (m - 1) as nat);
    }
}

/// The cube of the suite.
pub open spec fn suite_cube(c: SolidCase) -> bool {
    let zero = Double { bits: 0 };
    let ten = Double { bits: 0x4024_0000_0000_0000 };
    &&& c.name@ == "cube"@
    &&& c.mesh.points() == box_points(Vec3 { x: zero, y: zero, z: zero }, Vec3 { x: ten, y: ten, z: ten })
    &&& c.mesh.faces() == box_faces()
    &&& built_in_memory(c.mesh.origin())
}

/// The sphere of the suite.
#[verifier::opaque]
pub open spec fn suite_sphere(c: SolidCase) -> bool {
    c.name@ == "sphere-2"@ && built_in_memory(c.mesh.origin()) && exists|v: Seq<Vec3>| #[trigger]
        divided_icosahedron(v, c.mesh.faces(), 2) && c.mesh.points().len() == v.len() && forall|i: int|
            0 <= i < v.len() ==> #[trigger] c.mesh.points()[i] == projected(v[i], Double { bits: 0x4014_0000_0000_0000 })
}

/// The box of the suite that lies on the integers.
#[verifier::opaque]
pub open spec fn suite_lattice(c: SolidCase) -> bool {
    let points = block_points(3, 54);
    let triangles = block_triangles(3, 54);
    &&& c.name@ == "lattice-3"@
    &&& built_in_memory(c.mesh.origin())
    &&& c.mesh.points() == Seq::new(points.len(), |i: int| grid_vertex(points[i]))
    &&& c.mesh.faces().len() == triangles.len()
    &&& forall|i: int| 0 <= i < triangles.len() ==> corners_at(points, #[trigger] c.mesh.faces()[i], triangles[i])
}

/// The shapes of the suite: a cube, a sphere, the shapes of revolution, and a box
/// on the lattice of the integers.
pub open spec fn suite_shapes(c: Seq<SolidCase>, turned: Seq<SolidCase>) -> bool {
    &&& c.len() == 3 + turned.len()
    &&& suite_cube(c[0])
    &&& suite_sphere(c[1])
    &&& c.subrange(2, 2 + turned.len() as int) == turned
    &&& suite_lattice(c.last())
}

proof fn lemma_sphere_faces(v: Seq<Vec3>, t: Seq<[u32; 3]>, n: nat)
    requires
        divided_icosahedron(v, t, n),
        n <= 2,
    ensures
        t.len() <= 320,
        n == 0 ==> t.len() == 20,
        n == 1 ==> t.len() == 80,
    decreases n,
{
    if n > 0 {
        let (w, u) = choose|w: Seq<Vec3>, u: Seq<[u32; 3]>|
            #![trigger divided_faces(w.len() as int, u, t)]
            divided_icosahedron(w, u, (n - 1) as nat) && v == divided_points(w, u) && divided_faces(w.len() as int, u, t);
        lemma_sphere_faces(w, u, (n - 1) as nat);
    }
}

/// The sphere, which can always be made.
fn make_sphere() -> (r: Option<TriMesh>)
    ensures
        r matches Some(mesh) && suite_sphere(SolidCase { name: "sphere-2", mesh }) && mesh.faces().len() <= 320,
{
    let radius: Double = Double::from_bits(0x4014_0000_0000_0000);
    proof {
        lemma_five_is_moderate();
    }
    match icosphere(radius, 2) {
        Ok(mesh) => {
            proof {
                reveal(suite_sphere);
                let (v, t) = choose|v: Seq<Vec3>, t: Seq<[u32; 3]>| #[trigger]
                    divided_icosahedron(v, t, 2) && mesh.faces() == t && mesh.points().len() == v.len() && forall|i: int|
                        0 <= i < v.len() ==> #[trigger] mesh.points()[i] == projected(v[i], radius);
                let c = SolidCase { name: "sphere-2", mesh };
                assert(divided_icosahedron(v, c.mesh.faces(), 2));
                assert(radius == (Double { bits: 0x4014_0000_0000_0000 }));
                assert(c.mesh.points().len() == v.len());
                assert(suite_sphere(c));
                lemma_sphere_faces(v, t, 2);
            }
            Some(mesh)
        },
        Err(_) => None,
    }
}

proof fn lemma_block_triangles(n: int, k: nat)
    ensures
        block_triangles(n, k).len() == 2 * k,
    decreases k,
{
    if k > 0 {
        lemma_block_triangles(n, (k - 1) as nat);
    }
}

fn make_lattice() -> (mesh: TriMesh)
    ensures
        suite_lattice(SolidCase { name: "lattice-3", mesh }),
        mesh.faces().len() == 108,
{
    let mesh: TriMesh = lattice_block(3);
    proof {
        reveal(suite_lattice);
        lemma_block_triangles(3, 54);
    }
    mesh
}

/// The shapes of the suite, around those of revolution.
pub fn shapes_to_check(turned: Vec<SolidCase>) -> (v: Vec<SolidCase>)
    requires
        small(turned@),
    ensures
        small(v@),
        suite_shapes(v@, turned@),
{
    let ghost given = turned@;
    let mut turned: Vec<SolidCase> = turned;
    let mut v: Vec<SolidCase> = Vec::new();
    v.push(SolidCase { name: "cube", mesh: cube(Double::from_bits(0x4024_0000_0000_0000)) });
    match make_sphere() {
        Some(mesh) => {
            v.push(SolidCase { name: "sphere-2", mesh });
        },
        None => {},
    }
    let ghost first = v@;
    v.append(&mut turned);
    v.push(SolidCase { name: "lattice-3", mesh: make_lattice() });
    proof {
        assert(v@.subrange(2, 2 + given.len() as int) =~= given);
        assert forall|i: int| 0 <= i < v@.len() implies (#[trigger] v@[i]).wf() by {
            if 2 <= i < 2 + given.len() {
                assert(v@[i] == given[i - 2]);
                assert(given[i - 2].wf());
            }
        }
    }
    v
}

proof fn lemma_few_casts(c: Seq<SolidCase>, n: nat)
    ensures
        casts_of(c, n) <= 64 * n,
    decreases n,
{
    if n > 0 {
        lemma_few_casts(c, (n - 1) as nat);
        lemma_cast_count(c[n - 1].mesh, 64);
    }
}

proof fn lemma_cast_count(m: TriMesh, n: nat)
    ensures
        cast_count(m, n) <= n,
    decreases n,
{
    if n > 0 {
        lemma_cast_count(m, (n - 1) as nat);
    }
}

/// Generated shapes must be solids that no ray leaks through. Those of revolution
/// are given.
pub fn mesh_suite(turned: Vec<SolidCase>) -> (r: SuiteResult)
    requires
        small(turned@),
        turned@.len() < 0x100_0000,
    ensures
        r.name@ == "mesh"@,
        r.description@ == "shape generation, welding, topology, BVH shape and leak-free ray casting"@,
        exists|shapes: Seq<SolidCase>| #[trigger]
            suite_shapes(shapes, turned@) && r.cases == casts_of(shapes, shapes.len()) && told(r.failures@)
                == solids_flaws(shapes, shapes.len()) && r.digest@ == spelled(
                solids_words(shapes, shapes.len()),
                solids_words(shapes, shapes.len()).len(),
            ),
        r.cases <= 64 * (3 + turned@.len()),
{
    let ghost given = turned@;
    let shapes: Vec<SolidCase> = shapes_to_check(turned);
    proof {
        lemma_few_casts(shapes@, shapes@.len());
    }
    let r: SuiteResult = solids_of(shapes.as_slice());
    assert(suite_shapes(shapes@, given));
    r
}

/// Two cases are of one shape under one name.
pub open spec fn same_shape(c: SolidCase, d: SolidCase) -> bool {
    &&& c.name@ == d.name@
    &&& c.mesh.points() == d.mesh.points()
    &&& c.mesh.faces() == d.mesh.faces()
    &&& c.mesh.origin().words() == d.mesh.origin().words()
}

proof fn lemma_same_hits(m: TriMesh, w: TriMesh, ray: Ray)
    requires
        m.points() == w.points(),
        m.faces() == w.faces(),
    ensures
        hits_of(m, ray) == hits_of(w, ray),
        met(m, ray) == met(w, ray),
{
    let h = lemma_ascending_exists(met(m, ray).hits);
    lemma_hits_of(m, ray, h);
    lemma_hits_of(w, ray, h);
}

proof fn lemma_same_probes(name: Seq<char>, m: TriMesh, w: TriMesh, n: nat)
    requires
        m.points() == w.points(),
        m.faces() == w.faces(),
    ensures
        cast_count(m, n) == cast_count(w, n),
        probes_flaws(name, m, n) == probes_flaws(name, w, n),
        probes_words(m, n) == probes_words(w, n),
    decreases n,
{
    if n > 0 {
        lemma_same_probes(name, m, w, (n - 1) as nat);
        lemma_same_hits(m, w, probe_of(m, n - 1));
    }
}

proof fn lemma_same_shape(c: SolidCase, d: SolidCase)
    requires
        same_shape(c, d),
    ensures
        c.flaws() == d.flaws(),
        c.content() == d.content(),
        cast_count(c.mesh, 64) == cast_count(d.mesh, 64),
{
    reveal(SolidCase::flaws);
    reveal(SolidCase::content);
    reveal(surface_flaws);
    reveal(tree_words);
    lemma_same_probes(c.name@, c.mesh, d.mesh, 64);
}

proof fn lemma_same_shapes(c: Seq<SolidCase>, d: Seq<SolidCase>, n: nat)
    requires
        n <= c.len(),
        c.len() == d.len(),
        forall|i: int| 0 <= i < c.len() ==> same_shape(#[trigger] c[i], d[i]),
    ensures
        solids_flaws(c, n) == solids_flaws(d, n),
        solids_words(c, n) == solids_words(d, n),
        casts_of(c, n) == casts_of(d, n),
    decreases n,
{
    if n > 0 {
        lemma_same_shapes(c, d, (n - 1) as nat);
        assert(same_shape(c[n - 1], d[n - 1]));
        lemma_same_shape(c[n - 1], d[n - 1]);
    }
}

proof fn lemma_one_sphere(c: SolidCase, d: SolidCase)
    requires
        suite_sphere(c),
        suite_sphere(d),
    ensures
        same_shape(c, d),
{
    reveal(suite_sphere);
    let radius = Double { bits: 0x4014_0000_0000_0000 };
    let v = choose|v: Seq<Vec3>| #[trigger]
        divided_icosahedron(v, c.mesh.faces(), 2) && c.mesh.points().len() == v.len() && forall|i: int|
            0 <= i < v.len() ==> #[trigger] c.mesh.points()[i] == projected(v[i], radius);
    let w = choose|v: Seq<Vec3>| #[trigger]
        divided_icosahedron(v, d.mesh.faces(), 2) && d.mesh.points().len() == v.len() && forall|i: int|
            0 <= i < v.len() ==> #[trigger] d.mesh.points()[i] == projected(v[i], radius);
    law_divided_icosahedron_is_unique(v, c.mesh.faces(), w, d.mesh.faces(), 2);
    assert(c.mesh.points() =~= d.mesh.points());
}

proof fn lemma_one_lattice(c: SolidCase, d: SolidCase)
    requires
        suite_lattice(c),
        suite_lattice(d),
    ensures
        same_shape(c, d),
{
    reveal(suite_lattice);
    let points = block_points(3, 54);
    let triangles = block_triangles(3, 54);
    law_block_points_are_distinct(3, 54);
    assert forall|i: int| 0 <= i < triangles.len() implies c.mesh.faces()[i] == d.mesh.faces()[i] by {
        assert(corners_at(points, c.mesh.faces()[i], triangles[i]));
        assert(corners_at(points, d.mesh.faces()[i], triangles[i]));
        law_corners_tell_a_triangle(points, c.mesh.faces()[i], d.mesh.faces()[i], triangles[i]);
    }
    assert(c.mesh.faces() =~= d.mesh.faces());
}

/// The shapes of the suite are determined, and so are its cases, its failures and
/// its record.
pub proof fn law_suite_shapes_are_determined(c: Seq<SolidCase>, d: Seq<SolidCase>, turned: Seq<SolidCase>)
    requires
        suite_shapes(c, turned),
        suite_shapes(d, turned),
    ensures
        c.len() == d.len(),
        solids_flaws(c, c.len()) == solids_flaws(d, d.len()),
        solids_words(c, c.len()) == solids_words(d, d.len()),
        casts_of(c, c.len()) == casts_of(d, d.len()),
{
    assert forall|i: int| 0 <= i < c.len() implies same_shape(#[trigger] c[i], d[i]) by {
        if i == 1 {
            lemma_one_sphere(c[1], d[1]);
        } else if i == c.len() - 1 {
            lemma_one_lattice(c[i], d[i]);
        } else if i > 1 {
            assert(c.subrange(2, 2 + turned.len() as int)[i - 2] == turned[i - 2]);
            assert(d.subrange(2, 2 + turned.len() as int)[i - 2] == turned[i - 2]);
        }
    }
    lemma_same_shapes(c, d, c.len());
}

} // verus!
