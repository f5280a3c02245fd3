//! Tools, fields, deviations and collisions that were computed elsewhere.

use super::cuts::{spell, spelled, told};
use super::judging::{
    check_leaks, comparison_trouble, is_inscribed, judge_comparison, leak_trouble, say, say_of, Comparison, ToolRay,
};
use super::outcomes::{
    byte_words, contents_of, flaw_if, flaws_of, heading, judge_all, number_words, numbered, point_words, weights_of,
    write_all, write_bytes, write_numbers, write_point, Outcome,
};
use crate::arithmetic::product;
use crate::canonical::{list_words, same_words, Canonical};
use crate::double::Double;
use crate::math::Vec3;
use crate::mesh::validate::enclosed;
use crate::mesh::words::write_text;
use crate::mesh::TriMesh;
use crate::selftest::{Failure, SuiteResult};
use crate::text::{decimal_text, push_number};
use vstd::prelude::*;

verus! {

impl Outcome for ToolRay {
    open spec fn flaws(self, i: nat) -> Seq<(Seq<char>, Seq<char>)> {
        leak_trouble(self.name@, self.spans@, self.reach, self.spans@.len())
    }

    open spec fn content(self) -> Seq<u64> {
        self.spans.words()
    }

    open spec fn weight(self) -> nat {
        1
    }

    fn judge(&self, i: usize, failures: &mut Vec<Failure>, words: &mut Vec<u64>) -> (n: usize) {
        self.spans.write_words(words);
        check_leaks(self, failures);
        1
    }
}

/// What is wrong with a tessellation that goes beyond its tool.
pub open spec fn beyond_flaws(beyond: bool, name: Seq<char>) -> Seq<(Seq<char>, Seq<char>)> {
    flaw_if(beyond, name + ": tessellation is not inscribed"@, "the mesh holds more than the tool"@)
}

fn say_beyond(beyond: bool, name: &str, failures: &mut Vec<Failure>)
    ensures
        told(final(failures)@) == told(old(failures)@) + beyond_flaws(beyond, name@),
{
    let ghost was = told(failures@);
    if beyond {
        say_of(name, ": tessellation is not inscribed", "the mesh holds more than the tool", failures);
    }
    assert(told(failures@) =~= was + beyond_flaws(beyond, name@));
}

proof fn lemma_joined(a: Seq<u64>, b: Seq<u64>, c: Seq<u64>, d: Seq<u64>, e: Seq<u64>, f: Seq<u64>, g: Seq<u64>)
    ensures
        a + b + c + d + e + f + g == a + (b + c + d + e + f + g),
{
    assert(a + b + c + d + e + f + g =~= a + (b + c + d + e + f + g));
}

proof fn lemma_appended<T>(a: Seq<T>, b: Seq<T>, c: Seq<T>)
    ensures
        a + b + c == a + (b + c),
{
    assert(a + b + c =~= a + (b + c));
}

/// A tool, its closed-form properties, the rays that were cast at it, and its
/// tessellation.
#[derive(Debug)]
pub struct ToolCase {
    /// What the tool is called.
    pub name: &'static str,
    /// The record of its profile.
    pub profile: Vec<u64>,
    /// Volume, surface area, greatest radius and total length.
    pub properties: [Double; 4],
    /// What it covers of rays.
    pub rays: Vec<ToolRay>,
    /// Its tessellation.
    pub mesh: TriMesh,
    /// Divisions of a full turn.
    pub divisions: u64,
    /// Places along the profile.
    pub stations: u64,
}

impl Outcome for ToolCase {
    open spec fn flaws(self, i: nat) -> Seq<(Seq<char>, Seq<char>)> {
        flaws_of(self.rays@, self.rays@.len()) + beyond_flaws(
            product(self.properties[0], Double { bits: 0x3ff0_0000_0044_b830 }).lt(
                enclosed(self.mesh.points(), self.mesh.faces()),
            ),
            self.name@,
        )
    }

    open spec fn content(self) -> Seq<u64> {
        list_words(self.name@) + self.profile@ + number_words(self.properties@) + contents_of(
            self.rays@,
            self.rays@.len(),
        ) + self.mesh.words() + seq![self.divisions, self.stations]
    }

    open spec fn weight(self) -> nat {
        2 + weights_of(self.rays@, self.rays@.len())
    }

    fn judge(&self, i: usize, failures: &mut Vec<Failure>, words: &mut Vec<u64>) -> (n: usize) {
        let ghost was = told(failures@);
        let ghost before = words@;
        write_text(self.name, words);
        write_all(self.profile.as_slice(), words);
        write_numbers(self.properties.as_slice(), words);
        let n: usize = judge_all(self.rays.as_slice(), failures, words);
        self.mesh.write_words(words);
        write_all([self.divisions, self.stations].as_slice(), words);
        let beyond: bool = !is_inscribed(&self.mesh, self.properties[0]);
        say_beyond(beyond, self.name, failures);
        proof {
            assert([self.divisions, self.stations]@ =~= seq![self.divisions, self.stations]);
            lemma_joined(
                before,
                list_words(self.name@),
                self.profile@,
                number_words(self.properties@),
                contents_of(self.rays@, self.rays@.len()),
                self.mesh.words(),
                seq![self.divisions, self.stations],
            );
            lemma_appended(was, flaws_of(self.rays@, self.rays@.len()), beyond_flaws(beyond, self.name@));
        }
        2 + n
    }
}

/// Tool geometry, ray casting and tessellation must agree across targets.
pub fn tool_geometry_suite(tools: &[ToolCase]) -> (r: SuiteResult)
    requires
        weights_of(tools@, tools@.len()) <= usize::MAX,
    ensures
        r.name@ == "tool"@,
        r.description@
            == "tool profiles, closed-form properties, ray-cast spans and tessellation across the catalogue"@,
        r.cases == weights_of(tools@, tools@.len()),
        told(r.failures@) == flaws_of(tools@, tools@.len()),
        r.digest@ == ({
            let w = heading("tool"@) + contents_of(tools@, tools@.len());
            spelled(w, w.len())
        }),
{
    let mut failures: Vec<Failure> = Vec::new();
    let mut words: Vec<u64> = Vec::new();
    write_text("tool", &mut words);
    assert(words@ =~= heading("tool"@));
    let n: usize = judge_all(tools, &mut failures, &mut words);
    assert(told(failures@) =~= flaws_of(tools@, tools@.len()));
    let digest: String = spell(words.as_slice());
    SuiteResult {
        name: "tool",
        description: "tool profiles, closed-form properties, ray-cast spans and tessellation across the catalogue",
        cases: n,
        failures,
        digest,
    }
}

/// A field as a file, and what came back of it.
#[derive(Debug)]
pub struct FieldFile {
    /// The file.
    pub bytes: Vec<u8>,
    /// The record of the field that was read back, or why none was.
    pub back: Result<Vec<u64>, String>,
}

/// A field that was built from a mesh.
#[derive(Debug)]
pub struct BuiltField {
    /// Its record.
    pub record: Vec<u64>,
    /// Its volume.
    pub volume: Double,
    /// Rays, empty rays, spans and rays with many spans.
    pub counts: [u64; 4],
    /// The field as a file, or why there is none.
    pub file: Result<FieldFile, String>,
}

/// A shape, and the field that was built from it or why none was.
#[derive(Debug)]
pub struct FieldCase {
    /// What the shape is called.
    pub name: &'static str,
    /// The field.
    pub built: Result<BuiltField, String>,
}

/// What is wrong with the file of a field.
pub open spec fn file_flaws(name: Seq<char>, record: Seq<u64>, file: Result<FieldFile, String>) -> Seq<
    (Seq<char>, Seq<char>),
> {
    match file {
        Err(why) => seq![("write/"@ + name, why@)],
        Ok(f) => match f.back {
            Err(why) => seq![("read/"@ + name, why@)],
            Ok(back) => flaw_if(
                back@ != record,
                "roundtrip/"@ + name,
                "a field did not survive a .dexel round trip with the same digest"@,
            ),
        },
    }
}

fn judge_file(name: &str, record: &Vec<u64>, file: &Result<FieldFile, String>, failures: &mut Vec<Failure>, words: &mut Vec<u64>)
    ensures
        told(final(failures)@) == told(old(failures)@) + file_flaws(name@, record@, *file),
        final(words)@ == old(words)@ + (match *file {
            Ok(f) => byte_words(f.bytes@),
            Err(_) => Seq::empty(),
        }),
{
    let ghost was = told(failures@);
    let ghost before = words@;
    match file {
        Err(why) => {
            say_of("write/", name, why.as_str(), failures);
        },
        Ok(f) => {
            write_bytes(f.bytes.as_slice(), words);
            match &f.back {
                Err(why) => {
                    say_of("read/", name, why.as_str(), failures);
                },
                Ok(back) => {
                    if !same_words(back, record) {
                        say_of(
                            "roundtrip/",
                            name,
                            "a field did not survive a .dexel round trip with the same digest",
                            failures,
                        );
                    }
                },
            }
        },
    }
    assert(told(failures@) =~= was + file_flaws(name@, record@, *file));
    assert(words@ =~= before + (match *file {
        Ok(f) => byte_words(f.bytes@),
        Err(_) => Seq::empty(),
    }));
}

impl Outcome for FieldCase {
    open spec fn flaws(self, i: nat) -> Seq<(Seq<char>, Seq<char>)> {
        match self.built {
            Err(why) => seq![("build/"@ + self.name@, why@)],
            Ok(b) => file_flaws(self.name@, b.record@, b.file),
        }
    }

    open spec fn content(self) -> Seq<u64> {
        list_words(self.name@) + match self.built {
            Err(_) => Seq::empty(),
            Ok(b) => b.record@ + number_words(seq![b.volume]) + b.counts@ + (match b.file {
                Ok(f) => byte_words(f.bytes@),
                Err(_) => Seq::empty(),
            }),
        }
    }

    open spec fn weight(self) -> nat {
        if self.built is Ok {
            1
        } else {
            0
        }
    }

    fn judge(&self, i: usize, failures: &mut Vec<Failure>, words: &mut Vec<u64>) -> (n: usize) {
        let ghost was = told(failures@);
        let ghost before = words@;
        write_text(self.name, words);
        match &self.built {
            Err(why) => {
                say_of("build/", self.name, why.as_str(), failures);
                assert(words@ =~= before + self.content());
                0
            },
            Ok(b) => {
                write_all(b.record.as_slice(), words);
                write_numbers([b.volume].as_slice(), words);
                assert([b.volume]@ =~= seq![b.volume]);
                write_all(b.counts.as_slice(), words);
                judge_file(self.name, &b.record, &b.file, failures, words);
                assert(words@ =~= before + self.content());
                1
            },
        }
    }
}

/// Fields must be the same on every target, and survive their file.
pub fn dexel_field_suite(cases: &[FieldCase]) -> (r: SuiteResult)
    requires
        weights_of(cases@, cases@.len()) <= usize::MAX,
    ensures
        r.name@ == "dexel.field"@,
        r.description@ == "builds dexel fields on all three axes and round-trips them through .dexel"@,
        r.cases == weights_of(cases@, cases@.len()),
        told(r.failures@) == flaws_of(cases@, cases@.len()),
        r.digest@ == ({
            let w = heading("dexel"@) + contents_of(cases@, cases@.len());
            spelled(w, w.len())
        }),
{
    let mut failures: Vec<Failure> = Vec::new();
    let mut words: Vec<u64> = Vec::new();
    write_text("dexel", &mut words);
    assert(words@ =~= heading("dexel"@));
    let n: usize = judge_all(cases, &mut failures, &mut words);
    assert(told(failures@) =~= flaws_of(cases@, cases@.len()));
    let digest: String = spell(words.as_slice());
    SuiteResult {
        name: "dexel.field",
        description: "builds dexel fields on all three axes and round-trips them through .dexel",
        cases: n,
        failures,
        digest,
    }
}

/// A cut stock against the uncut one.
#[derive(Debug)]
pub struct Compared {
    /// What it came to.
    pub outcome: Comparison,
    /// The record of every sample.
    pub record: Vec<u64>,
    /// Root mean square, projection gap and the least tolerance that can be told.
    pub figures: [Double; 3],
}

/// How comparing a cut stock with the uncut one went.
#[derive(Debug)]
pub enum DeviationOutcome {
    /// There was no such tool.
    NoTool,
    /// There was no field of the stock.
    NoField,
    /// They were compared.
    Compared(Compared),
}

/// A cut that is compared with the uncut stock.
#[derive(Debug)]
pub struct DeviationCase {
    /// What the case is called.
    pub name: &'static str,
    /// How it went.
    pub outcome: DeviationOutcome,
}

impl Outcome for DeviationCase {
    open spec fn flaws(self, i: nat) -> Seq<(Seq<char>, Seq<char>)> {
        match self.outcome {
            DeviationOutcome::NoTool => seq![(self.name@ + "/tool"@, "the catalogue refused a standard cutter"@)],
            DeviationOutcome::NoField => seq![(self.name@ + "/build"@, "the stock field would not build"@)],
            DeviationOutcome::Compared(c) => comparison_trouble(c.outcome),
        }
    }

    open spec fn content(self) -> Seq<u64> {
        list_words(self.name@) + match self.outcome {
            DeviationOutcome::Compared(c) => c.record@ + number_words(
                seq![c.outcome.worst_gouge, c.outcome.worst_excess],
            ) + number_words(c.figures@),
            _ => Seq::empty(),
        }
    }

    open spec fn weight(self) -> nat {
        match self.outcome {
            DeviationOutcome::Compared(c) => c.outcome.samples as nat,
            _ => 0,
        }
    }

    fn judge(&self, i: usize, failures: &mut Vec<Failure>, words: &mut Vec<u64>) -> (n: usize) {
        let ghost before = words@;
        write_text(self.name, words);
        match &self.outcome {
            DeviationOutcome::NoTool => {
                say_of(self.name, "/tool", "the catalogue refused a standard cutter", failures);
                assert(words@ =~= before + self.content());
                0
            },
            DeviationOutcome::NoField => {
                say_of(self.name, "/build", "the stock field would not build", failures);
                assert(words@ =~= before + self.content());
                0
            },
            DeviationOutcome::Compared(c) => {
                write_all(c.record.as_slice(), words);
                write_numbers([c.outcome.worst_gouge, c.outcome.worst_excess].as_slice(), words);
                assert([c.outcome.worst_gouge, c.outcome.worst_excess]@ =~= seq![
                    c.outcome.worst_gouge,
                    c.outcome.worst_excess,
                ]);
                write_numbers(c.figures.as_slice(), words);
                judge_comparison(&c.outcome, failures);
                assert(words@ =~= before + self.content());
                c.outcome.samples
            },
        }
    }
}

/// The normal of a tool at one of a square of places, nine to a side.
#[derive(Clone, Copy, Debug)]
pub struct NormalCase {
    /// The normal and its packed form, where the tool has a surface.
    pub normal: Option<(Vec3, u64)>,
}

/// The name of a place of the square.
pub open spec fn square_name(i: nat) -> Seq<char> {
    numbered("tool-normal/"@, i / 9) + "/"@ + decimal_text(i % 9)
}

impl Outcome for NormalCase {
    open spec fn flaws(self, i: nat) -> Seq<(Seq<char>, Seq<char>)> {
        flaw_if(self.normal is None, square_name(i), "a validated profile reported no surface"@)
    }

    open spec fn content(self) -> Seq<u64> {
        match self.normal {
            Some(n) => point_words(n.0) + seq![n.1],
            None => Seq::empty(),
        }
    }

    open spec fn weight(self) -> nat {
        if self.normal is Some {
            1
        } else {
            0
        }
    }

    fn judge(&self, i: usize, failures: &mut Vec<Failure>, words: &mut Vec<u64>) -> (n: usize) {
        let ghost was = told(failures@);
        let ghost before = words@;
        match self.normal {
            Some((p, packed)) => {
                write_point(p, words);
                words.push(packed);
                assert(words@ =~= before + self.content());
                assert(told(failures@) =~= was + self.flaws(i as nat));
                1
            },
            None => {
                let mut name: String = String::new();
                name.append("tool-normal/");
                push_number(&mut name, (i / 9) as u64);
                name.append("/");
                push_number(&mut name, (i % 9) as u64);
                assert(name@ =~= square_name(i as nat));
                say(name.as_str(), "a validated profile reported no surface", failures);
                assert(words@ =~= before + self.content());
                0
            },
        }
    }
}

/// The facet size of a mesh.
#[derive(Clone, Copy, Debug)]
pub struct FacetCase {
    /// What the mesh is called.
    pub name: &'static str,
    /// The size.
    pub size: Double,
}

impl Outcome for FacetCase {
    open spec fn flaws(self, i: nat) -> Seq<(Seq<char>, Seq<char>)> {
        Seq::empty()
    }

    open spec fn content(self) -> Seq<u64> {
        list_words(self.name@) + number_words(seq![self.size])
    }

    open spec fn weight(self) -> nat {
        1
    }

    fn judge(&self, i: usize, failures: &mut Vec<Failure>, words: &mut Vec<u64>) -> (n: usize) {
        let ghost before = words@;
        write_text(self.name, words);
        write_numbers([self.size].as_slice(), words);
        assert([self.size]@ =~= seq![self.size]);
        assert(words@ =~= before + self.content());
        assert(told(failures@) =~= told(failures@) + self.flaws(i as nat));
        1
    }
}

/// What is compared with a nominal shape.
#[derive(Debug)]
pub struct Deviations {
    /// The cuts.
    pub cuts: Vec<DeviationCase>,
    /// The normals of a bull mill, unless there was none.
    pub normals: Option<Vec<NormalCase>>,
    /// The facet sizes.
    pub facets: Vec<FacetCase>,
}

/// The normals that were taken.
pub open spec fn taken(n: Option<Vec<NormalCase>>) -> Seq<NormalCase> {
    match n {
        Some(v) => v@,
        None => Seq::empty(),
    }
}

impl Deviations {
    /// How many cases there are.
    pub open spec fn count(self) -> nat {
        weights_of(self.cuts@, self.cuts@.len()) + weights_of(taken(self.normals), taken(self.normals).len())
            + weights_of(self.facets@, self.facets@.len())
    }

    /// What is wrong with them.
    pub open spec fn flaws(self) -> Seq<(Seq<char>, Seq<char>)> {
        flaws_of(self.cuts@, self.cuts@.len()) + (if self.normals is Some {
            flaws_of(taken(self.normals), taken(self.normals).len())
        } else {
            seq![("tool-normal/tool"@, "the catalogue refused a standard bull mill"@)]
        })
    }

    /// What they put on record.
    pub open spec fn content(self) -> Seq<u64> {
        heading("deviation"@) + contents_of(self.cuts@, self.cuts@.len()) + heading("tool-normal"@) + contents_of(
            taken(self.normals),
            taken(self.normals).len(),
        ) + heading("facet-size"@) + contents_of(self.facets@, self.facets@.len())
    }
}

proof fn lemma_flawless(c: Seq<FacetCase>, n: nat)
    ensures
        flaws_of(c, n) == Seq::<(Seq<char>, Seq<char>)>::empty(),
    decreases n,
{
    if n > 0 {
        lemma_flawless(c, (n - 1) as nat);
        assert(flaws_of(c, n) =~= Seq::<(Seq<char>, Seq<char>)>::empty());
    }
}

/// Comparisons with a nominal shape, the normal of a tool, and facet sizes.
pub fn deviation_suite(d: &Deviations) -> (r: SuiteResult)
    requires
        d.count() <= usize::MAX,
    ensures
        r.name@ == "deviation"@,
        r.description@ == "comparison against a nominal, the analytic tool normal, and the tessellation floor"@,
        r.cases == d.count(),
        told(r.failures@) == d.flaws(),
        r.digest@ == spelled(d.content(), d.content().len()),
{
    let mut failures: Vec<Failure> = Vec::new();
    let mut words: Vec<u64> = Vec::new();
    write_text("deviation", &mut words);
    let cuts: usize = judge_all(d.cuts.as_slice(), &mut failures, &mut words);
    write_text("tool-normal", &mut words);
    let ghost was = told(failures@);
    let ghost before = words@;
    let normals: usize = match &d.normals {
        Some(n) => judge_all(n.as_slice(), &mut failures, &mut words),
        None => {
            say("tool-normal/tool", "the catalogue refused a standard bull mill", &mut failures);
            assert(words@ =~= before + contents_of(taken(d.normals), taken(d.normals).len()));
            0
        },
    };
    write_text("facet-size", &mut words);
    let facets: usize = judge_all(d.facets.as_slice(), &mut failures, &mut words);
    proof {
        lemma_flawless(d.facets@, d.facets@.len());
        assert(told(failures@) =~= d.flaws());
        assert(words@ =~= d.content());
    }
    let digest: String = spell(words.as_slice());
    SuiteResult {
        name: "deviation",
        description: "comparison against a nominal, the analytic tool normal, and the tessellation floor",
        cases: cuts + normals + facets,
        failures,
        digest,
    }
}

/// The part of a held tool that does not cut.
#[derive(Debug)]
pub struct ProfileCase {
    /// What the tool is called.
    pub name: &'static str,
    /// The record of that part, where there is one, or why there is no tool.
    pub outcome: Result<Option<Vec<u64>>, String>,
}

impl Outcome for ProfileCase {
    open spec fn flaws(self, i: nat) -> Seq<(Seq<char>, Seq<char>)> {
        match self.outcome {
            Ok(Some(_)) => Seq::empty(),
            Ok(None) => seq![
                ("collision/profile/"@ + self.name@, "a held tool reported no non-cutting geometry"@),
            ],
            Err(why) => seq![
                ("collision/profile/"@ + self.name@, "the catalogue refused a standard held mill: "@ + why@),
            ],
        }
    }

    open spec fn content(self) -> Seq<u64> {
        match self.outcome {
            Ok(Some(w)) => list_words(self.name@) + w@,
            _ => Seq::empty(),
        }
    }

    open spec fn weight(self) -> nat {
        if self.outcome matches Ok(Some(_)) {
            1
        } else {
            0
        }
    }

    fn judge(&self, i: usize, failures: &mut Vec<Failure>, words: &mut Vec<u64>) -> (n: usize) {
        let ghost was = told(failures@);
        let ghost before = words@;
        match &self.outcome {
            Ok(Some(w)) => {
                write_text(self.name, words);
                write_all(w.as_slice(), words);
                assert(words@ =~= before + self.content());
                assert(told(failures@) =~= was + self.flaws(i as nat));
                1
            },
            Ok(None) => {
                say_of("collision/profile/", self.name, "a held tool reported no non-cutting geometry", failures);
                assert(words@ =~= before + self.content());
                0
            },
            Err(why) => {
                let mut text: String = String::new();
                text.append("the catalogue refused a standard held mill: ");
                text.append(why.as_str());
                assert(text@ =~= "the catalogue refused a standard held mill: "@ + why@);
                say_of("collision/profile/", self.name, text.as_str(), failures);
                assert(words@ =~= before + self.content());
                0
            },
        }
    }
}

/// A contact of the tool with something it must not touch.
#[derive(Debug)]
pub struct Contact {
    /// What identifies it.
    pub id: String,
    /// What kind of contact it is.
    pub contact: &'static str,
    /// How deep it is.
    pub magnitude: Double,
    /// Which part of the tool touches.
    pub role: &'static str,
    /// The number of the part.
    pub element: u64,
    /// What is touched.
    pub obstacle: &'static str,
    /// What kind of motion the tool was in.
    pub motion: &'static str,
    /// Where.
    pub at: Vec3,
}

impl Outcome for Contact {
    open spec fn flaws(self, i: nat) -> Seq<(Seq<char>, Seq<char>)> {
        Seq::empty()
    }

    open spec fn content(self) -> Seq<u64> {
        list_words(self.id@) + list_words(self.contact@) + number_words(seq![self.magnitude]) + list_words(self.role@)
            + seq![self.element] + list_words(self.obstacle@) + list_words(self.motion@) + point_words(self.at)
    }

    open spec fn weight(self) -> nat {
        0
    }

    fn judge(&self, i: usize, failures: &mut Vec<Failure>, words: &mut Vec<u64>) -> (n: usize) {
        let ghost before = words@;
        write_text(self.id.as_str(), words);
        write_text(self.contact, words);
        write_numbers([self.magnitude].as_slice(), words);
        assert([self.magnitude]@ =~= seq![self.magnitude]);
        write_text(self.role, words);
        words.push(self.element);
        write_text(self.obstacle, words);
        write_text(self.motion, words);
        write_point(self.at, words);
        assert(words@ =~= before + self.content());
        assert(told(failures@) =~= told(failures@) + self.flaws(i as nat));
        0
    }
}

/// How looking for contacts along planted motions went.
#[derive(Debug)]
pub enum CollisionOutcome {
    /// There was no field of the stock.
    NoField,
    /// The motions were not checked, and why.
    Unchecked(String),
    /// What was found.
    Found(Vec<Contact>),
}

/// Planted motions.
#[derive(Debug)]
pub struct CollisionCase {
    /// What identifies them.
    pub id: String,
    /// How it went.
    pub outcome: CollisionOutcome,
}

proof fn lemma_contacts(c: Seq<Contact>, n: nat)
    ensures
        flaws_of(c, n) == Seq::<(Seq<char>, Seq<char>)>::empty(),
        weights_of(c, n) == 0,
    decreases n,
{
    if n > 0 {
        lemma_contacts(c, (n - 1) as nat);
        assert(flaws_of(c, n) =~= Seq::<(Seq<char>, Seq<char>)>::empty());
    }
}

impl Outcome for CollisionCase {
    open spec fn flaws(self, i: nat) -> Seq<(Seq<char>, Seq<char>)> {
        match self.outcome {
            CollisionOutcome::NoField => seq![("collision/"@ + self.id@, "the stock field would not build"@)],
            CollisionOutcome::Unchecked(why) => seq![
                ("collision/"@ + self.id@, "a corpus case was unexpectedly unchecked: "@ + why@),
            ],
            CollisionOutcome::Found(_) => Seq::empty(),
        }
    }

    open spec fn content(self) -> Seq<u64> {
        match self.outcome {
            CollisionOutcome::Found(c) => list_words(self.id@) + seq![c@.len() as u64] + contents_of(c@, c@.len()),
            _ => Seq::empty(),
        }
    }

    open spec fn weight(self) -> nat {
        if self.outcome is Found {
            1
        } else {
            0
        }
    }

    fn judge(&self, i: usize, failures: &mut Vec<Failure>, words: &mut Vec<u64>) -> (n: usize) {
        let ghost was = told(failures@);
        let ghost before = words@;
        match &self.outcome {
            CollisionOutcome::NoField => {
                say_of("collision/", self.id.as_str(), "the stock field would not build", failures);
                assert(words@ =~= before + self.content());
                0
            },
            CollisionOutcome::Unchecked(why) => {
                let mut text: String = String::new();
                text.append("a corpus case was unexpectedly unchecked: ");
                text.append(why.as_str());
                assert(text@ =~= "a corpus case was unexpectedly unchecked: "@ + why@);
                say_of("collision/", self.id.as_str(), text.as_str(), failures);
                assert(words@ =~= before + self.content());
                0
            },
            CollisionOutcome::Found(c) => {
                write_text(self.id.as_str(), words);
                words.push(c.len() as u64);
                proof {
                    lemma_contacts(c@, c@.len());
                }
                let _ = judge_all(c.as_slice(), failures, words);
                assert(words@ =~= before + self.content());
                assert(told(failures@) =~= was + self.flaws(i as nat));
                1
            },
        }
    }
}

/// What does not cut against the stock: the profiles, and what was found along
/// planted motions.
pub fn collision_suite(profiles: &[ProfileCase], cases: &[CollisionCase]) -> (r: SuiteResult)
    requires
        weights_of(profiles@, profiles@.len()) + weights_of(cases@, cases@.len()) <= usize::MAX,
    ensures
        r.name@ == "collision"@,
        r.description@ == "non-cutting geometry against the stock, replayed over planted crash cases"@,
        r.cases == weights_of(profiles@, profiles@.len()) + weights_of(cases@, cases@.len()),
        told(r.failures@) == flaws_of(profiles@, profiles@.len()) + flaws_of(cases@, cases@.len()),
        r.digest@ == ({
            let w = heading("collision"@) + contents_of(profiles@, profiles@.len()) + heading("detect"@) + contents_of(
                cases@,
                cases@.len(),
            );
            spelled(w, w.len())
        }),
{
    let mut failures: Vec<Failure> = Vec::new();
    let mut words: Vec<u64> = Vec::new();
    write_text("collision", &mut words);
    assert(words@ =~= heading("collision"@));
    let held: usize = judge_all(profiles, &mut failures, &mut words);
    assert(told(failures@) =~= flaws_of(profiles@, profiles@.len()));
    write_text("detect", &mut words);
    let found: usize = judge_all(cases, &mut failures, &mut words);
    let digest: String = spell(words.as_slice());
    SuiteResult {
        name: "collision",
        description: "non-cutting geometry against the stock, replayed over planted crash cases",
        cases: held + found,
        failures,
        digest,
    }
}

} // verus!
