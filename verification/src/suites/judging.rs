//! What is wrong with results that come from outside: extracted meshes, what a
//! tool covers of rays, and deviations from a nominal shape.

use super::cuts::{spell, spelled, tell, told, trouble};
use super::outcomes::{
    contents_of, flaws_of, heading, judge_all, point_words, weights_of, write_all, write_point, Outcome,
};
use crate::arithmetic::product;
use crate::canonical::{list_words, Canonical};
use crate::double::Double;
use crate::math::Vec3;
use crate::mesh::validate::{enclosed, manifold, validate, watertight, MeshReport};
use crate::mesh::words::write_text;
use crate::mesh::TriMesh;
use crate::selftest::{Failure, SuiteResult};
use crate::spans::{Span, Spans};
use vstd::prelude::*;

verus! {

/// A mesh that was extracted from a field, or why there is none.
#[derive(Debug)]
pub struct Extraction {
    /// The shape and whether normals were used, as in `box/normals=true`.
    pub name: &'static str,
    /// The mesh.
    pub mesh: Result<TriMesh, String>,
    /// The counters of the extraction.
    pub stats: Vec<u64>,
}

/// What is wrong with an extracted mesh: a hole, or a volume that is not positive.
pub open spec fn extraction_trouble(c: Extraction) -> Seq<(Seq<char>, Seq<char>)> {
    match c.mesh {
        Err(why) => seq![(c.name@, why@)],
        Ok(m) => (if manifold(m.faces()) && watertight(m.faces()) {
            Seq::empty()
        } else {
            seq![(c.name@, "not manifold or not watertight"@)]
        }) + (if enclosed(m.points(), m.faces()).le(Double { bits: 0 }) {
            seq![(c.name@, "the signed volume is not positive, so the mesh is inside out"@)]
        } else {
            Seq::empty()
        }),
    }
}

/// A failure under a name.
pub(crate) fn say(name: &str, detail: &str, failures: &mut Vec<Failure>)
    ensures
        told(final(failures)@) == told(old(failures)@) + seq![(name@, detail@)],
{
    let f: Failure = trouble(name, "", "", detail);
    proof {
        reveal_strlit("");
        assert(f.case@ =~= name@);
    }
    tell(failures, f);
}

fn judge_extraction(c: &Extraction, failures: &mut Vec<Failure>)
    ensures
        told(final(failures)@) == told(old(failures)@) + extraction_trouble(*c),
{
    let ghost was = told(failures@);
    match &c.mesh {
        Err(why) => {
            say(c.name, why.as_str(), failures);
        },
        Ok(m) => {
            let report: MeshReport = validate(m);
            if !report.is_manifold || !report.is_watertight {
                say(c.name, "not manifold or not watertight", failures);
            }
            if report.signed_volume.at_most(Double::zeroed()) {
                say(c.name, "the signed volume is not positive, so the mesh is inside out", failures);
            }
            assert(told(failures@) =~= was + extraction_trouble(*c));
        },
    }
}

/// What an extraction puts on record: its name, the mesh and the counters.
pub open spec fn extraction_words(c: Extraction) -> Seq<u64> {
    match c.mesh {
        Ok(m) => list_words(c.name@) + m.words() + c.stats@,
        Err(_) => Seq::empty(),
    }
}

fn write_extraction(c: &Extraction, words: &mut Vec<u64>) -> (r: bool)
    ensures
        r == (c.mesh is Ok),
        final(words)@ == old(words)@ + extraction_words(*c),
{
    let ghost before = words@;
    match &c.mesh {
        Ok(m) => {
            write_text(c.name, words);
            m.write_words(words);
            write_all(c.stats.as_slice(), words);
            proof {
                lemma_joined(before, list_words(c.name@), m.words(), c.stats@);
            }
            true
        },
        Err(_) => {
            assert(words@ =~= before + Seq::<u64>::empty());
            false
        },
    }
}

proof fn lemma_joined(a: Seq<u64>, b: Seq<u64>, c: Seq<u64>, d: Seq<u64>)
    ensures
        a + b + c + d == a + (b + c + d),
{
    assert(a + b + c + d =~= a + (b + c + d));
}

impl Outcome for Extraction {
    open spec fn flaws(self, i: nat) -> Seq<(Seq<char>, Seq<char>)> {
        extraction_trouble(self)
    }

    open spec fn content(self) -> Seq<u64> {
        extraction_words(self)
    }

    open spec fn weight(self) -> nat {
        if self.mesh is Ok {
            1
        } else {
            0
        }
    }

    fn judge(&self, i: usize, failures: &mut Vec<Failure>, words: &mut Vec<u64>) -> (n: usize) {
        judge_extraction(self, failures);
        let made: bool = write_extraction(self, words);
        if made {
            1
        } else {
            0
        }
    }
}

/// A direction that went through the codec of normals.
#[derive(Clone, Copy, Debug)]
pub struct CodedNormal {
    /// Its code.
    pub code: u64,
    /// The direction that the code stands for.
    pub back: Vec3,
    /// The code of the opposite direction.
    pub reversed: u64,
}

impl Outcome for CodedNormal {
    open spec fn flaws(self, i: nat) -> Seq<(Seq<char>, Seq<char>)> {
        Seq::empty()
    }

    open spec fn content(self) -> Seq<u64> {
        seq![self.code] + point_words(self.back) + seq![self.reversed]
    }

    open spec fn weight(self) -> nat {
        1
    }

    fn judge(&self, i: usize, failures: &mut Vec<Failure>, words: &mut Vec<u64>) -> (n: usize) {
        let ghost before = words@;
        words.push(self.code);
        write_point(self.back, words);
        words.push(self.reversed);
        assert(words@ =~= before + self.content());
        assert(told(failures@) =~= told(failures@) + self.flaws(i as nat));
        1
    }
}

proof fn lemma_codes_flawless(c: Seq<CodedNormal>, n: nat)
    ensures
        flaws_of(c, n) == Seq::<(Seq<char>, Seq<char>)>::empty(),
    decreases n,
{
    if n > 0 {
        lemma_codes_flawless(c, (n - 1) as nat);
        assert(flaws_of(c, n) =~= Seq::<(Seq<char>, Seq<char>)>::empty());
    }
}

/// Extracted meshes must be closed and outward-facing; the codec of normals is put
/// on record.
pub fn contour_suite(cases: &[Extraction], codes: &[CodedNormal]) -> (r: SuiteResult)
    requires
        weights_of(cases@, cases@.len()) + weights_of(codes@, codes@.len()) <= usize::MAX,
    ensures
        r.name@ == "contour"@,
        r.description@ == "dual contouring with and without normals, and the octahedral normal codec"@,
        r.cases == weights_of(cases@, cases@.len()) + weights_of(codes@, codes@.len()),
        told(r.failures@) == flaws_of(cases@, cases@.len()),
        r.digest@ == ({
            let w = heading("contour"@) + contents_of(cases@, cases@.len()) + heading("oct"@) + contents_of(
                codes@,
                codes@.len(),
            );
            spelled(w, w.len())
        }),
{
    let mut failures: Vec<Failure> = Vec::new();
    let mut words: Vec<u64> = Vec::new();
    write_text("contour", &mut words);
    assert(words@ =~= heading("contour"@));
    let made: usize = judge_all(cases, &mut failures, &mut words);
    assert(told(failures@) =~= flaws_of(cases@, cases@.len()));
    write_text("oct", &mut words);
    let ghost said = told(failures@);
    let coded: usize = judge_all(codes, &mut failures, &mut words);
    proof {
        lemma_codes_flawless(codes@, codes@.len());
        assert(told(failures@) =~= said);
    }
    let digest: String = spell(words.as_slice());
    SuiteResult {
        name: "contour",
        description: "dual contouring with and without normals, and the octahedral normal codec",
        cases: made + coded,
        failures,
        digest,
    }
}

/// What a tool covers of a ray, and how far it can reach along it.
#[derive(Debug)]
pub struct ToolRay {
    /// The tool and the axis of the ray, as in `ball: leak on axis 2`.
    pub name: &'static str,
    /// What is covered.
    pub spans: Spans,
    /// A bound on what can be.
    pub reach: Double,
}

/// A span that leaves its bound.
pub open spec fn escapes(s: Span, reach: Double) -> bool {
    !s.t0.finite() || !s.t1.finite() || reach.lt(s.t1)
}

/// What is wrong with the first `n` spans.
pub open spec fn leak_trouble(name: Seq<char>, s: Seq<Span>, reach: Double, n: nat) -> Seq<(Seq<char>, Seq<char>)>
    decreases n,
{
    if n == 0 {
        Seq::empty()
    } else {
        leak_trouble(name, s, reach, (n - 1) as nat) + if escapes(s[n - 1], reach) {
            seq![(name, "a span escapes its bound"@)]
        } else {
            Seq::empty()
        }
    }
}

/// Spans that leave their bound, one failure for each.
pub fn check_leaks(ray: &ToolRay, failures: &mut Vec<Failure>)
    ensures
        told(final(failures)@) == told(old(failures)@) + leak_trouble(
            ray.name@,
            ray.spans@,
            ray.reach,
            ray.spans@.len(),
        ),
{
    let ghost was = told(failures@);
    let s: &[Span] = ray.spans.as_slice();
    let mut i: usize = 0;
    assert(told(failures@) =~= was + leak_trouble(ray.name@, s@, ray.reach, 0));
    while i < s.len()
        invariant
            i <= s@.len(),
            s@ == ray.spans@,
            told(failures@) == was + leak_trouble(ray.name@, s@, ray.reach, i as nat),
        decreases s@.len() - i,
    {
        if !s[i].t0.is_finite() || !s[i].t1.is_finite() || ray.reach.less(s[i].t1) {
            say(ray.name, "a span escapes its bound", failures);
        }
        i = i + 1;
        assert(told(failures@) =~= was + leak_trouble(ray.name@, s@, ray.reach, i as nat));
    }
}

/// A mesh of a tool whose true volume is known must not hold more than it.
pub fn is_inscribed(mesh: &TriMesh, exact: Double) -> (r: bool)
    ensures
        r == !product(exact, Double { bits: 0x3ff0_0000_0044_b830 }).lt(enclosed(mesh.points(), mesh.faces())),
{
    !exact.times(Double::from_bits(0x3ff0_0000_0044_b830)).less(mesh.signed_volume())
}

/// What comparing a cut stock with the uncut one came to.
#[derive(Clone, Copy, Debug)]
pub struct Comparison {
    /// What the case is called.
    pub name: &'static str,
    /// The most that stands proud.
    pub worst_excess: Double,
    /// The most that is missing.
    pub worst_gouge: Double,
    /// How many samples were taken.
    pub samples: usize,
}

/// What is wrong with a comparison: its signs, its depth, or that it is empty.
pub open spec fn comparison_trouble(c: Comparison) -> Seq<(Seq<char>, Seq<char>)> {
    (if c.worst_gouge.le(c.worst_excess) {
        seq![(c.name@ + "/sign"@, "cutting material away reported more excess than gouge"@)]
    } else {
        Seq::empty()
    }) + (if c.worst_gouge.lt(Double { bits: 0x3fe0_0000_0000_0000 }) {
        seq![(c.name@ + "/depth"@, "a channel cut right through the stock left hardly a gouge"@)]
    } else {
        Seq::empty()
    }) + (if c.samples == 0 {
        seq![(c.name@ + "/samples"@, "no samples at all, so the digest below covers nothing"@)]
    } else {
        Seq::empty()
    })
}

pub(crate) fn say_of(name: &str, what: &str, detail: &str, failures: &mut Vec<Failure>)
    ensures
        told(final(failures)@) == told(old(failures)@) + seq![(name@ + what@, detail@)],
{
    let f: Failure = trouble(name, what, "", detail);
    proof {
        reveal_strlit("");
        assert(f.case@ =~= name@ + what@);
    }
    tell(failures, f);
}

/// Cutting material away must show as a gouge, and not as an excess.
pub fn judge_comparison(c: &Comparison, failures: &mut Vec<Failure>)
    ensures
        told(final(failures)@) == told(old(failures)@) + comparison_trouble(*c),
{
    let ghost was = told(failures@);
    if c.worst_gouge.at_most(c.worst_excess) {
        say_of(c.name, "/sign", "cutting material away reported more excess than gouge", failures);
    }
    if c.worst_gouge.less(Double::from_bits(0x3fe0_0000_0000_0000)) {
        say_of(c.name, "/depth", "a channel cut right through the stock left hardly a gouge", failures);
    }
    if c.samples == 0 {
        say_of(c.name, "/samples", "no samples at all, so the digest below covers nothing", failures);
    }
    assert(told(failures@) =~= was + comparison_trouble(*c));
}

} // verus!
