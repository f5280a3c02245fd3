//! Classifying a setup transform, and moving a field across one exactly.

use super::cuts::{spell, spelled, told};
use super::judging::say_of;
use super::outcomes::{flaw_if, heading, point_words, write_point};
use crate::arithmetic::{difference, quotient};
use crate::canonical::{list_words, plain, plain_bits, write_list};
use crate::double::Double;
use crate::lattice::{cyclic, cyclic_of, Lattice};
use crate::math::{Aabb3, Axis, Vec3};
use crate::mesh::weld::{nearest_whole, round_whole};
use crate::refixture::{
    classify, permutes, refixture_exact, refixtured, resampling_cost, rigid, rotate_box, turned_box, FieldBundle, Mat4,
};
use crate::mesh::words::write_text;
use crate::selftest::{Failure, SuiteResult};
use crate::spans::Span;
use vstd::prelude::*;

verus! {

/// A transform and what it is called.
#[derive(Clone, Copy, Debug)]
pub struct SetupCase {
    /// What the transform is called.
    pub name: &'static str,
    /// The transform.
    pub transform: Mat4,
    /// A field is to be moved across it.
    pub exact: bool,
}

/// The cells of a spacing along an extent; none where there are too many to
/// count.
pub open spec fn cells_along(extent: Double, spacing: Double) -> u32 {
    match nearest_whole(quotient(extent, spacing)) {
        Some(n) => if 0 <= n <= 0x1000 {
            n as u32
        } else {
            0
        },
        None => 0,
    }
}

/// The lattice of a box along an axis, with its cells flush.
pub open spec fn block_lattice(b: Aabb3, axis: Axis, spacing: Double) -> Lattice {
    let c = cyclic_of(axis);
    let along = |k: int| difference(b.max.at(c[k]), b.min.at(c[k]));
    Lattice {
        axis,
        origin: b.min,
        spacing_u: spacing,
        spacing_v: spacing,
        count_u: cells_along(along(0), spacing),
        count_v: cells_along(along(1), spacing),
        extent_u: along(0),
        extent_v: along(1),
        length: along(2),
        pad_u: Double { bits: 0 },
        pad_v: Double { bits: 0 },
    }
}

/// A bundle of a full box: every ray holds material from end to end.
pub open spec fn is_block(f: FieldBundle, b: Aabb3, axis: Axis, spacing: Double) -> bool {
    &&& f.wf()
    &&& f.lattice == block_lattice(b, axis, spacing)
    &&& forall|i: int|
        0 <= i < f.rays@.len() ==> (#[trigger] f.rays@[i])@.len() == 1 && f.rays@[i]@[0].t0 == (Double { bits: 0 })
            && f.rays@[i]@[0].t1 == f.lattice.length
}

/// The bundles of a full box, by axis.
pub open spec fn is_block_field(f: Seq<FieldBundle>, b: Aabb3, spacing: Double) -> bool {
    &&& f.len() == 3
    &&& is_block(f[0], b, Axis::X, spacing)
    &&& is_block(f[1], b, Axis::Y, spacing)
    &&& is_block(f[2], b, Axis::Z, spacing)
}

/// The lattices of a box, by axis.
pub open spec fn block_lattices(b: Aabb3, spacing: Double) -> Seq<Lattice> {
    seq![
        block_lattice(b, Axis::X, spacing),
        block_lattice(b, Axis::Y, spacing),
        block_lattice(b, Axis::Z, spacing),
    ]
}

fn count_cells(extent: Double, spacing: Double) -> (n: u32)
    ensures
        n == cells_along(extent, spacing),
        n <= 0x1000,
{
    match round_whole(extent.over(spacing)) {
        Some(n) => if 0 <= n && n <= 0x1000 {
            n as u32
        } else {
            0
        },
        None => 0,
    }
}

fn make_lattice(b: &Aabb3, axis: Axis, spacing: Double) -> (l: Lattice)
    ensures
        l == block_lattice(*b, axis, spacing),
        l.wf(),
{
    let (u, v, w) = cyclic(axis);
    let along_u: Double = b.max.component(u).minus(b.min.component(u));
    let along_v: Double = b.max.component(v).minus(b.min.component(v));
    let along_w: Double = b.max.component(w).minus(b.min.component(w));
    let count_u: u32 = count_cells(along_u, spacing);
    let count_v: u32 = count_cells(along_v, spacing);
    assert(count_u * count_v <= u32::MAX) by (nonlinear_arith)
        requires
            0 <= count_u <= 0x1000,
            0 <= count_v <= 0x1000,
    ;
    Lattice {
        axis,
        origin: b.min,
        spacing_u: spacing,
        spacing_v: spacing,
        count_u,
        count_v,
        extent_u: along_u,
        extent_v: along_v,
        length: along_w,
        pad_u: Double::zeroed(),
        pad_v: Double::zeroed(),
    }
}

fn make_bundle(b: &Aabb3, axis: Axis, spacing: Double) -> (f: FieldBundle)
    ensures
        is_block(f, *b, axis, spacing),
{
    let lattice: Lattice = make_lattice(b, axis, spacing);
    let n: u32 = lattice.ray_count();
    let mut rays: Vec<Vec<Span>> = Vec::new();
    let mut i: u32 = 0;
    while i < n
        invariant
            i <= n,
            rays@.len() == i,
            forall|k: int|
                0 <= k < i ==> (#[trigger] rays@[k])@.len() == 1 && rays@[k]@[0].t0 == (Double { bits: 0 })
                    && rays@[k]@[0].t1 == lattice.length,
        decreases n - i,
    {
        let mut ray: Vec<Span> = Vec::new();
        ray.push(Span::new(Double::zeroed(), lattice.length));
        rays.push(ray);
        i = i + 1;
    }
    FieldBundle { lattice, rays }
}

fn make_field(b: &Aabb3, spacing: Double) -> (v: Vec<FieldBundle>)
    ensures
        is_block_field(v@, *b, spacing),
{
    let mut v: Vec<FieldBundle> = Vec::new();
    v.push(make_bundle(b, Axis::X, spacing));
    v.push(make_bundle(b, Axis::Y, spacing));
    v.push(make_bundle(b, Axis::Z, spacing));
    v
}

/// What a field of a full box becomes across a transform.
#[verifier::opaque]
pub open spec fn block_moved(b: Aabb3, m: Mat4, spacing: Double, r: Option<Vec<Option<FieldBundle>>>) -> bool {
    exists|f: Seq<FieldBundle>| #[trigger]
        is_block_field(f, b, spacing) && refixtured(f, m, block_lattices(turned_box(b, m, 8), spacing), r)
}

/// Moves the field of a full box across a transform; nothing where that is
/// refused.
pub fn block_moves(b: &Aabb3, m: &Mat4, spacing: Double) -> (r: Option<Vec<Option<FieldBundle>>>)
    ensures
        block_moved(*b, *m, spacing, r),
{
    let field: Vec<FieldBundle> = make_field(b, spacing);
    let image: Aabb3 = rotate_box(b, m);
    let targets: [Lattice; 3] = [
        make_lattice(&image, Axis::X, spacing),
        make_lattice(&image, Axis::Y, spacing),
        make_lattice(&image, Axis::Z, spacing),
    ];
    assert(targets@ =~= block_lattices(turned_box(*b, *m, 8), spacing));
    assert forall|d: int| 0 <= d < 3 implies (#[trigger] targets@[d]).wf() by {
        assert(d == 0 || d == 1 || d == 2);
    }
    assert forall|i: int| 0 <= i < field@.len() implies (#[trigger] field@[i]).wf() by {
        assert(i == 0 || i == 1 || i == 2);
    }
    let moved: Option<Vec<Option<FieldBundle>>> = refixture_exact(field.as_slice(), m, targets.as_slice());
    assert(is_block_field(field@, *b, spacing));
    reveal(block_moved);
    moved
}

/// The class of a transform on record: its name, how it is crossed, and at what
/// cost.
pub open spec fn class_words(c: SetupCase, spacing: Double, sample_distance: Double) -> Seq<u64> {
    if !rigid(c.transform) {
        Seq::empty()
    } else if exists|to: Seq<int>| #[trigger] permutes(c.transform, to) {
        list_words(c.name@) + list_words("exact"@) + seq![0u64]
    } else {
        list_words(c.name@) + list_words("resampled"@) + seq![plain_bits(resampling_cost(spacing, sample_distance))]
    }
}

/// What is wrong with the class of a transform.
pub open spec fn class_flaws(c: SetupCase) -> Seq<(Seq<char>, Seq<char>)> {
    flaw_if(!rigid(c.transform), "refixture/classify/"@ + c.name@, "a rigid motion was refused"@)
}

/// What the classes of the first `n` transforms come to.
pub open spec fn classes(c: Seq<SetupCase>, spacing: Double, sample_distance: Double, n: nat) -> (
    nat,
    Seq<(Seq<char>, Seq<char>)>,
    Seq<u64>,
)
    decreases n,
{
    if n == 0 {
        (0, Seq::empty(), heading("refixture"@))
    } else {
        let (count, flaws, words) = classes(c, spacing, sample_distance, (n - 1) as nat);
        (
            count + (if rigid(c[n - 1].transform) {
                1nat
            } else {
                0
            }),
            flaws + class_flaws(c[n - 1]),
            words + class_words(c[n - 1], spacing, sample_distance),
        )
    }
}

/// The spans of the first `n` rays on record.
pub open spec fn rays_words(rays: Seq<Vec<Span>>, n: nat) -> Seq<u64>
    decreases n,
{
    if n == 0 {
        Seq::empty()
    } else {
        rays_words(rays, (n - 1) as nat) + list_words(rays[n - 1]@)
    }
}

/// A bundle on record: its lattice, and what each of its rays holds.
pub open spec fn bundle_words(f: FieldBundle) -> Seq<u64> {
    seq![f.lattice.axis.number() as u64] + point_words(f.lattice.origin) + seq![
        plain_bits(f.lattice.spacing_u),
        plain_bits(f.lattice.spacing_v),
        f.lattice.count_u as u64,
        f.lattice.count_v as u64,
    ] + rays_words(f.rays@, f.rays@.len())
}

/// The first `n` bundles of a moved field on record.
pub open spec fn field_words(v: Seq<Option<FieldBundle>>, n: nat) -> Seq<u64>
    decreases n,
{
    if n == 0 {
        Seq::empty()
    } else {
        field_words(v, (n - 1) as nat) + match v[n - 1] {
            Some(f) => bundle_words(f),
            None => Seq::empty(),
        }
    }
}

/// What moving the block across the first `n` transforms comes to, where a field
/// is to be moved.
pub open spec fn crossings(
    c: Seq<SetupCase>,
    moved: Seq<Option<Vec<Option<FieldBundle>>>>,
    n: nat,
) -> (nat, Seq<(Seq<char>, Seq<char>)>, Seq<u64>)
    decreases n,
{
    if n == 0 {
        (0, Seq::empty(), heading("move"@))
    } else {
        let (count, flaws, words) = crossings(c, moved, (n - 1) as nat);
        if !c[n - 1].exact {
            (count, flaws, words)
        } else {
            match moved[n - 1] {
                Some(v) => (count + 1, flaws, words + list_words(c[n - 1].name@) + field_words(v@, v@.len())),
                None => (
                    count,
                    flaws + seq![("refixture/move/"@ + c[n - 1].name@, "an axis-aligned transform was refused"@)],
                    words,
                ),
            }
        }
    }
}

proof fn lemma_crossings_kept(
    c: Seq<SetupCase>,
    moved: Seq<Option<Vec<Option<FieldBundle>>>>,
    last: Option<Vec<Option<FieldBundle>>>,
    n: nat,
)
    requires
        n <= moved.len(),
    ensures
        crossings(c, moved.push(last), n) == crossings(c, moved, n),
    decreases n,
{
    if n > 0 {
        lemma_crossings_kept(c, moved, last, (n - 1) as nat);
    }
}

/// Classifies one transform; false where it is refused.
fn check_class(case: &SetupCase, spacing: Double, sample_distance: Double, words: &mut Vec<u64>) -> (r: bool)
    ensures
        r == rigid(case.transform),
        final(words)@ == old(words)@ + class_words(*case, spacing, sample_distance),
{
    let ghost was = words@;
    match classify(&case.transform, spacing, sample_distance) {
        Some(regime) => {
            write_text(case.name, words);
            write_text(regime.as_str(), words);
            words.push(plain(regime.bound_mm()));
            assert(words@ =~= was + class_words(*case, spacing, sample_distance));
            true
        },
        None => {
            assert(words@ =~= was + class_words(*case, spacing, sample_distance));
            false
        },
    }
}

fn write_rays(rays: &Vec<Vec<Span>>, words: &mut Vec<u64>)
    ensures
        final(words)@ == old(words)@ + rays_words(rays@, rays@.len()),
{
    let ghost was = words@;
    let mut i: usize = 0;
    assert(words@ =~= was + rays_words(rays@, 0));
    while i < rays.len()
        invariant
            i <= rays@.len(),
            words@ == was + rays_words(rays@, i as nat),
        decreases rays@.len() - i,
    {
        write_list(rays[i].as_slice(), words);
        i = i + 1;
        assert(words@ =~= was + rays_words(rays@, i as nat));
    }
}

fn axis_word(axis: Axis) -> (w: u64)
    ensures
        w == axis.number() as u64,
{
    match axis {
        Axis::X => 0,
        Axis::Y => 1,
        Axis::Z => 2,
    }
}

fn write_field(v: &Vec<Option<FieldBundle>>, words: &mut Vec<u64>)
    ensures
        final(words)@ == old(words)@ + field_words(v@, v@.len()),
{
    let ghost was = words@;
    let mut i: usize = 0;
    assert(words@ =~= was + field_words(v@, 0));
    while i < v.len()
        invariant
            i <= v@.len(),
            words@ == was + field_words(v@, i as nat),
        decreases v@.len() - i,
    {
        let ghost before = words@;
        match &v[i] {
            Some(f) => {
                words.push(axis_word(f.lattice.axis));
                write_point(f.lattice.origin, words);
                words.push(plain(f.lattice.spacing_u));
                words.push(plain(f.lattice.spacing_v));
                words.push(f.lattice.count_u as u64);
                words.push(f.lattice.count_v as u64);
                write_rays(&f.rays, words);
                assert(words@ =~= before + bundle_words(*f));
            },
            None => {},
        }
        i = i + 1;
        assert(words@ =~= was + field_words(v@, i as nat));
    }
}

/// What the suite finds: a failure for each transform that is not rigid, and for
/// each on which the block does not move though it is to.
pub open spec fn setups_checked(
    cases: Seq<SetupCase>,
    b: Aabb3,
    spacing: Double,
    sample_distance: Double,
    r: SuiteResult,
) -> bool {
    let n = cases.len();
    let (count, flaws, words) = classes(cases, spacing, sample_distance, n);
    exists|moved: Seq<Option<Vec<Option<FieldBundle>>>>|
        moved.len() == n && (forall|i: int|
            0 <= i < n && cases[i].exact ==> block_moved(b, cases[i].transform, spacing, #[trigger] moved[i])) && ({
            let (more, flaws2, words2) = #[trigger] crossings(cases, moved, n);
            &&& r.cases == count + more
            &&& told(r.failures@) == flaws + flaws2
            &&& r.digest@ == spelled(words + words2, (words + words2).len())
        })
}

/// Moves the block across the transforms that are to be exact.
fn move_block(
    cases: &[SetupCase],
    b: &Aabb3,
    spacing: Double,
    failures: &mut Vec<Failure>,
    words: &mut Vec<u64>,
) -> (r: (usize, Ghost<Seq<Option<Vec<Option<FieldBundle>>>>>))
    ensures
        r.0 <= cases@.len(),
        ({
            let moved = r.1@;
            let (more, flaws, record) = crossings(cases@, moved, cases@.len());
            &&& moved.len() == cases@.len()
            &&& forall|i: int|
                0 <= i < cases@.len() && cases@[i].exact ==> block_moved(
                    *b,
                    cases@[i].transform,
                    spacing,
                    #[trigger] moved[i],
                )
            &&& r.0 == more
            &&& told(final(failures)@) == told(old(failures)@) + flaws
            &&& final(words)@ == old(words)@ + record
        }),
{
    let ghost was = told(failures@);
    let ghost before = words@;
    write_text("move", words);
    let mut count: usize = 0;
    let mut i: usize = 0;
    let ghost mut moved: Seq<Option<Vec<Option<FieldBundle>>>> = Seq::empty();
    assert(words@ =~= before + crossings(cases@, moved, 0).2);
    assert(told(failures@) =~= was + crossings(cases@, moved, 0).1);
    while i < cases.len()
        invariant
            i <= cases@.len(),
            count <= i,
            moved.len() == i,
            forall|k: int|
                0 <= k < i && cases@[k].exact ==> block_moved(*b, cases@[k].transform, spacing, #[trigger] moved[k]),
            count == crossings(cases@, moved, i as nat).0,
            told(failures@) == was + crossings(cases@, moved, i as nat).1,
            words@ == before + crossings(cases@, moved, i as nat).2,
        decreases cases@.len() - i,
    {
        let case: SetupCase = cases[i];
        if case.exact {
            let v: Option<Vec<Option<FieldBundle>>> = block_moves(b, &case.transform, spacing);
            proof {
                lemma_crossings_kept(cases@, moved, v, i as nat);
                moved = moved.push(v);
            }
            match &v {
                Some(f) => {
                    write_text(case.name, words);
                    write_field(f, words);
                    count = count + 1;
                },
                None => {
                    say_of("refixture/move/", case.name, "an axis-aligned transform was refused", failures);
                },
            }
        } else {
            proof {
                lemma_crossings_kept(cases@, moved, None, i as nat);
                moved = moved.push(None);
            }
        }
        i = i + 1;
        assert(words@ =~= before + crossings(cases@, moved, i as nat).2);
        assert(told(failures@) =~= was + crossings(cases@, moved, i as nat).1);
    }
    (count, Ghost(moved))
}

/// The suite, on given transforms: a rigid motion must not be refused, and a
/// full box must move across those that are to be exact.
pub fn setups_of(cases: &[SetupCase], b: &Aabb3, spacing: Double, sample_distance: Double) -> (r: SuiteResult)
    requires
        cases@.len() <= 0x7fff_ffff,
    ensures
        r.name@ == "refixture"@,
        r.description@ == "classifying a setup transform, and moving a field across one exactly"@,
        setups_checked(cases@, *b, spacing, sample_distance, r),
        r.cases <= 2 * cases@.len(),
{
    let mut failures: Vec<Failure> = Vec::new();
    let mut words: Vec<u64> = Vec::new();
    write_text("refixture", &mut words);
    let mut count: usize = 0;
    let mut i: usize = 0;
    assert(words@ =~= heading("refixture"@));
    assert(told(failures@) =~= Seq::<(Seq<char>, Seq<char>)>::empty());
    while i < cases.len()
        invariant
            i <= cases@.len() <= 0x7fff_ffff,
            count <= i,
            count == classes(cases@, spacing, sample_distance, i as nat).0,
            told(failures@) == classes(cases@, spacing, sample_distance, i as nat).1,
            words@ == classes(cases@, spacing, sample_distance, i as nat).2,
        decreases cases@.len() - i,
    {
        let case: SetupCase = cases[i];
        if check_class(&case, spacing, sample_distance, &mut words) {
            count = count + 1;
        } else {
            say_of("refixture/classify/", case.name, "a rigid motion was refused", &mut failures);
        }
        i = i + 1;
        assert(told(failures@) =~= classes(cases@, spacing, sample_distance, i as nat).1);
    }
    let (more, moved) = move_block(cases, b, spacing, &mut failures, &mut words);
    let digest: String = spell(words.as_slice());
    let r: SuiteResult = SuiteResult {
        name: "refixture",
        description: "classifying a setup transform, and moving a field across one exactly",
        cases: count + more,
        failures,
        digest,
    };
    proof {
        let c = crossings(cases@, moved@, cases@.len());
        assert(setups_checked(cases@, *b, spacing, sample_distance, r));
    }
    r
}

/// A matrix turns by three rows of patterns.
pub open spec fn turns_by(m: Mat4, a: Seq<u64>, b: Seq<u64>, c: Seq<u64>) -> bool {
    forall|j: int|
        0 <= j < 3 ==> (#[trigger] m.entry(0, j)).bits == a[j] && m.entry(1, j).bits == b[j] && m.entry(2, j).bits == c[j]
}

fn rows(a: [u64; 3], b: [u64; 3], c: [u64; 3]) -> (m: Mat4)
    ensures
        turns_by(m, a@, b@, c@),
        fixes_the_origin(m),
{
    let zero: Double = Double::zeroed();
    let one: Double = Double::from_bits(0x3ff0_0000_0000_0000);
    Mat4::from_rows_array(
        [
            [Double::from_bits(a[0]), Double::from_bits(a[1]), Double::from_bits(a[2]), zero],
            [Double::from_bits(b[0]), Double::from_bits(b[1]), Double::from_bits(b[2]), zero],
            [Double::from_bits(c[0]), Double::from_bits(c[1]), Double::from_bits(c[2]), zero],
            [zero, zero, zero, one],
        ],
    )
}

/// A matrix moves nothing: it only turns, and its last row is that of a motion.
pub open spec fn fixes_the_origin(m: Mat4) -> bool {
    &&& forall|i: int| 0 <= i < 3 ==> (#[trigger] m.entry(i, 3)).bits == 0
    &&& forall|j: int| 0 <= j < 3 ==> (#[trigger] m.entry(3, j)).bits == 0
    &&& m.entry(3, 3).bits == 0x3ff0_0000_0000_0000
}

/// The transforms that the suite takes, by name.
pub open spec fn setups_planned(v: Seq<SetupCase>, cosine: Double, sine: Double) -> bool {
    let p = 0x3ff0_0000_0000_0000u64;
    let n = 0xbff0_0000_0000_0000u64;
    let (c, s, t) = (cosine.bits, sine.bits, sine.negated().bits);
    &&& v.len() == 4
    &&& forall|i: int| 0 <= i < 4 ==> fixes_the_origin((#[trigger] v[i]).transform)
    &&& v[0].name@ == "identity"@ && !v[0].exact
    &&& turns_by(v[0].transform, seq![p, 0, 0], seq![0, p, 0], seq![0, 0, p])
    &&& v[1].name@ == "quarter-z"@ && v[1].exact
    &&& turns_by(v[1].transform, seq![0, n, 0], seq![p, 0, 0], seq![0, 0, p])
    &&& v[2].name@ == "flip-x"@ && v[2].exact
    &&& turns_by(v[2].transform, seq![p, 0, 0], seq![0, n, 0], seq![0, 0, n])
    &&& v[3].name@ == "oblique"@ && !v[3].exact
    &&& turns_by(v[3].transform, seq![c, t, 0], seq![s, c, 0], seq![0, 0, p])
}

/// The block of the suite.
pub open spec fn suite_block() -> Aabb3 {
    let zero = Double { bits: 0 };
    Aabb3 {
        min: Vec3 { x: zero, y: zero, z: zero },
        max: Vec3 {
            x: Double { bits: 0x4028_0000_0000_0000 },
            y: Double { bits: 0x4020_0000_0000_0000 },
            z: Double { bits: 0x4014_0000_0000_0000 },
        },
    }
}

/// The transforms of the suite: two that a second operation uses, the identity,
/// and one that turns by an angle whose cosine and sine are given.
pub fn setup_cases(cosine: Double, sine: Double) -> (v: Vec<SetupCase>)
    ensures
        setups_planned(v@, cosine, sine),
{
    let p: u64 = 0x3ff0_0000_0000_0000;
    let n: u64 = 0xbff0_0000_0000_0000;
    let mut v: Vec<SetupCase> = Vec::new();
    v.push(SetupCase { name: "identity", transform: rows([p, 0, 0], [0, p, 0], [0, 0, p]), exact: false });
    v.push(SetupCase { name: "quarter-z", transform: rows([0, n, 0], [p, 0, 0], [0, 0, p]), exact: true });
    v.push(SetupCase { name: "flip-x", transform: rows([p, 0, 0], [0, n, 0], [0, 0, n]), exact: true });
    let c: u64 = cosine.to_bits();
    let s: u64 = sine.to_bits();
    let t: u64 = sine.negate().to_bits();
    v.push(SetupCase { name: "oblique", transform: rows([c, t, 0], [s, c, 0], [0, 0, p]), exact: false });
    v
}

/// Rigid motions must be classified, and a lopsided block must move across those
/// that permute the axes, so that a wrong axis cannot pass by symmetry.
pub fn refixture_suite(cosine: Double, sine: Double, sample_distance: Double) -> (r: SuiteResult)
    ensures
        r.name@ == "refixture"@,
        r.description@ == "classifying a setup transform, and moving a field across one exactly"@,
        r.cases <= 8,
        exists|cases: Seq<SetupCase>| #[trigger]
            setups_planned(cases, cosine, sine) && setups_checked(
                cases,
                suite_block(),
                Double { bits: 0x3fe0_0000_0000_0000 },
                sample_distance,
                r,
            ),
{
    let cases: Vec<SetupCase> = setup_cases(cosine, sine);
    let block: Aabb3 = Aabb3::new(
        Vec3::zeroed(),
        Vec3::new(
            Double::from_bits(0x4028_0000_0000_0000),
            Double::from_bits(0x4020_0000_0000_0000),
            Double::from_bits(0x4014_0000_0000_0000),
        ),
    );
    let half: Double = Double::from_bits(0x3fe0_0000_0000_0000);
    let r: SuiteResult = setups_of(cases.as_slice(), &block, half, sample_distance);
    assert(setups_planned(cases@, cosine, sine) && setups_checked(cases@, suite_block(), half, sample_distance, r));
    r
}

} // verus!
