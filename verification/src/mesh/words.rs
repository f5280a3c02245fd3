//! Meshes and what is said of them, in words.

use crate::canonical::{
    alike, digest, law_lists_delimit, law_patterns_stand_for_numbers, lemma_same_width, list_words, lists_agree, plain,
    plain_bits, write_list, Canonical,
};
use crate::mesh::units::Unit;
use crate::mesh::validate::components::ComponentInfo;
use crate::mesh::validate::findings::Finding;
use crate::mesh::validate::MeshReport;
use crate::mesh::weld::WeldReport;
use crate::mesh::{MeshMeta, TriMesh};
use crate::text::characters;
use vstd::prelude::*;

verus! {

proof fn lemma_same_character(a: char, b: char)
    requires
        (a as u32) as u64 == (b as u32) as u64,
    ensures
        a == b,
{
}

impl Canonical for char {
    open spec fn words(self) -> Seq<u64> {
        seq![(self as u32) as u64]
    }

    open spec fn agrees(self, other: Self) -> bool {
        self == other
    }

    proof fn delimits(self, other: Self, p: Seq<u64>, q: Seq<u64>) {
        lemma_same_width(self.words(), other.words(), p, q);
        assert(self.words()[0] == other.words()[0]);
        lemma_same_character(self, other);
    }

    fn write_words(&self, out: &mut Vec<u64>) {
        let ghost was = out@;
        out.push((*self as u32) as u64);
        assert(out@ =~= was + self.words());
    }
}

impl Canonical for [u32; 3] {
    open spec fn words(self) -> Seq<u64> {
        seq![self[0] as u64, self[1] as u64, self[2] as u64]
    }

    open spec fn agrees(self, other: Self) -> bool {
        self == other
    }

    proof fn delimits(self, other: Self, p: Seq<u64>, q: Seq<u64>) {
        lemma_same_width(self.words(), other.words(), p, q);
        assert(self.words()[0] == other.words()[0]);
        assert(self.words()[1] == other.words()[1]);
        assert(self.words()[2] == other.words()[2]);
        assert(self@ =~= other@);
        assert(self =~= other);
    }

    fn write_words(&self, out: &mut Vec<u64>) {
        let ghost was = out@;
        out.push(self[0] as u64);
        out.push(self[1] as u64);
        out.push(self[2] as u64);
        assert(out@ =~= was + self.words());
    }
}

/// Lists of values that agree only when equal are equal when they agree.
proof fn lemma_equal_characters(s: Seq<char>, t: Seq<char>)
    requires
        lists_agree(s, t),
    ensures
        s == t,
{
    assert forall|i: int| 0 <= i < s.len() implies s[i] == t[i] by {
        assert(s[i].agrees(t[i]));
    }
    assert(s =~= t);
}

proof fn lemma_equal_numbers(s: Seq<u32>, t: Seq<u32>)
    requires
        lists_agree(s, t),
    ensures
        s == t,
{
    assert forall|i: int| 0 <= i < s.len() implies s[i] == t[i] by {
        assert(s[i].agrees(t[i]));
    }
    assert(s =~= t);
}

/// The place of a unit among the units.
pub open spec fn unit_word(u: Unit) -> u64 {
    match u {
        Unit::Micron => 0,
        Unit::Millimetre => 1,
        Unit::Centimetre => 2,
        Unit::Metre => 3,
        Unit::Inch => 4,
        Unit::Foot => 5,
        Unit::Thou => 6,
    }
}

fn number_unit(u: Unit) -> (n: u64)
    ensures
        n == unit_word(u),
{
    match u {
        Unit::Micron => 0,
        Unit::Millimetre => 1,
        Unit::Centimetre => 2,
        Unit::Metre => 3,
        Unit::Inch => 4,
        Unit::Foot => 5,
        Unit::Thou => 6,
    }
}

/// Puts the words of a text behind others.
pub(crate) fn write_text(s: &str, out: &mut Vec<u64>)
    ensures
        final(out)@ == old(out)@ + list_words(s@),
{
    let c: Vec<char> = characters(s);
    write_list(c.as_slice(), out);
}

impl Canonical for MeshMeta {
    open spec fn words(self) -> Seq<u64> {
        seq![
            unit_word(self.source_unit),
            self.polygons_triangulated as u64,
            self.non_convex_polygons as u64,
            self.ignored_records as u64,
        ] + list_words(self.source_format@)
    }

    open spec fn agrees(self, other: Self) -> bool {
        &&& self.source_format@ == other.source_format@
        &&& self.source_unit == other.source_unit
        &&& self.polygons_triangulated == other.polygons_triangulated
        &&& self.non_convex_polygons == other.non_convex_polygons
        &&& self.ignored_records == other.ignored_records
    }

    proof fn delimits(self, other: Self, p: Seq<u64>, q: Seq<u64>) {
        let a = self.words().take(4);
        let b = other.words().take(4);
        let x = list_words(self.source_format@) + p;
        let y = list_words(other.source_format@) + q;
        assert(self.words() + p =~= a + x);
        assert(other.words() + q =~= b + y);
        lemma_same_width(a, b, x, y);
        assert(a[0] == b[0] && a[1] == b[1] && a[2] == b[2] && a[3] == b[3]);
        law_lists_delimit(self.source_format@, other.source_format@, p, q);
        lemma_equal_characters(self.source_format@, other.source_format@);
    }

    fn write_words(&self, out: &mut Vec<u64>) {
        let ghost was = out@;
        out.push(number_unit(self.source_unit));
        out.push(self.polygons_triangulated as u64);
        out.push(self.non_convex_polygons as u64);
        out.push(self.ignored_records as u64);
        write_text(self.source_format.as_str(), out);
        assert(out@ =~= was + self.words());
    }
}

impl Canonical for TriMesh {
    open spec fn words(self) -> Seq<u64> {
        list_words(self.points()) + (list_words(self.faces()) + self.origin().words())
    }

    open spec fn agrees(self, other: Self) -> bool {
        lists_agree(self.points(), other.points()) && self.faces() == other.faces() && self.origin().agrees(other.origin())
    }

    proof fn delimits(self, other: Self, p: Seq<u64>, q: Seq<u64>) {
        let x2 = self.origin().words() + p;
        let y2 = other.origin().words() + q;
        let x1 = list_words(self.faces()) + x2;
        let y1 = list_words(other.faces()) + y2;
        assert(self.words() + p =~= list_words(self.points()) + x1);
        assert(other.words() + q =~= list_words(other.points()) + y1);
        law_lists_delimit(self.points(), other.points(), x1, y1);
        law_lists_delimit(self.faces(), other.faces(), x2, y2);
        self.origin().delimits(other.origin(), p, q);
        assert forall|i: int| 0 <= i < self.faces().len() implies self.faces()[i] == other.faces()[i] by {
            assert(self.faces()[i].agrees(other.faces()[i]));
        }
        assert(self.faces() =~= other.faces());
    }

    fn write_words(&self, out: &mut Vec<u64>) {
        let ghost was = out@;
        write_list(self.vertices(), out);
        write_list(self.triangles(), out);
        self.meta().write_words(out);
        assert(out@ =~= was + self.words());
    }
}

impl Canonical for WeldReport {
    open spec fn words(self) -> Seq<u64> {
        seq![
            self.vertices_before as u64,
            self.vertices_after as u64,
            self.triangles_collapsed as u64,
            plain_bits(self.lattice),
        ]
    }

    open spec fn agrees(self, other: Self) -> bool {
        other == (WeldReport { lattice: other.lattice, ..self }) && alike(self.lattice, other.lattice)
    }

    proof fn delimits(self, other: Self, p: Seq<u64>, q: Seq<u64>) {
        lemma_same_width(self.words(), other.words(), p, q);
        assert(self.words()[0] == other.words()[0]);
        assert(self.words()[1] == other.words()[1]);
        assert(self.words()[2] == other.words()[2]);
        assert(self.words()[3] == other.words()[3]);
        law_patterns_stand_for_numbers(self.lattice, other.lattice);
    }

    fn write_words(&self, out: &mut Vec<u64>) {
        let ghost was = out@;
        out.push(self.vertices_before as u64);
        out.push(self.vertices_after as u64);
        out.push(self.triangles_collapsed as u64);
        out.push(plain(self.lattice));
        assert(out@ =~= was + self.words());
    }
}

/// A genus in words: whether there is one, and its pattern.
pub open spec fn genus_words(g: Option<i64>) -> Seq<u64> {
    match g {
        None => seq![0u64, 0u64],
        Some(n) => seq![1u64, n as u64],
    }
}

proof fn lemma_same_pattern(a: i64, b: i64)
    requires
        a as u64 == b as u64,
    ensures
        a == b,
{
    assert(a == b) by (bit_vector)
        requires
            a as u64 == b as u64,
    ;
}

impl Canonical for ComponentInfo {
    open spec fn words(self) -> Seq<u64> {
        seq![
            self.triangles as u64,
            self.vertices as u64,
            self.edges as u64,
            self.boundary_edges as u64,
            self.euler_characteristic as u64,
            plain_bits(self.signed_volume),
        ] + genus_words(self.genus)
    }

    open spec fn agrees(self, other: Self) -> bool {
        other == (ComponentInfo { signed_volume: other.signed_volume, ..self }) && alike(
            self.signed_volume,
            other.signed_volume,
        )
    }

    proof fn delimits(self, other: Self, p: Seq<u64>, q: Seq<u64>) {
        lemma_same_width(self.words(), other.words(), p, q);
        let a = self.words();
        let b = other.words();
        assert(a[0] == b[0] && a[1] == b[1] && a[2] == b[2] && a[3] == b[3]);
        assert(a[4] == b[4] && a[5] == b[5] && a[6] == b[6] && a[7] == b[7]);
        lemma_same_pattern(self.euler_characteristic, other.euler_characteristic);
        law_patterns_stand_for_numbers(self.signed_volume, other.signed_volume);
        match (self.genus, other.genus) {
            (Some(m), Some(n)) => {
                lemma_same_pattern(m, n);
            },
            _ => {},
        }
    }

    fn write_words(&self, out: &mut Vec<u64>) {
        let ghost was = out@;
        out.push(self.triangles as u64);
        out.push(self.vertices as u64);
        out.push(self.edges as u64);
        out.push(self.boundary_edges as u64);
        out.push(self.euler_characteristic as u64);
        out.push(plain(self.signed_volume));
        match self.genus {
            None => {
                out.push(0);
                out.push(0);
            },
            Some(n) => {
                out.push(1);
                out.push(n as u64);
            },
        }
        assert(out@ =~= was + self.words());
    }
}

impl Canonical for Finding {
    open spec fn words(self) -> Seq<u64> {
        seq![self.kind.rank() as u64] + (list_words(self.triangles@) + (list_words(self.vertices@) + list_words(
            self.detail@,
        )))
    }

    open spec fn agrees(self, other: Self) -> bool {
        self@ == other@
    }

    proof fn delimits(self, other: Self, p: Seq<u64>, q: Seq<u64>) {
        let a = seq![self.kind.rank() as u64];
        let b = seq![other.kind.rank() as u64];
        let x3 = list_words(self.detail@) + p;
        let y3 = list_words(other.detail@) + q;
        let x2 = list_words(self.vertices@) + x3;
        let y2 = list_words(other.vertices@) + y3;
        let x1 = list_words(self.triangles@) + x2;
        let y1 = list_words(other.triangles@) + y2;
        assert(self.words() + p =~= a + x1);
        assert(other.words() + q =~= b + y1);
        lemma_same_width(a, b, x1, y1);
        assert(a[0] == b[0]);
        law_lists_delimit(self.triangles@, other.triangles@, x2, y2);
        law_lists_delimit(self.vertices@, other.vertices@, x3, y3);
        law_lists_delimit(self.detail@, other.detail@, p, q);
        lemma_equal_numbers(self.triangles@, other.triangles@);
        lemma_equal_numbers(self.vertices@, other.vertices@);
        lemma_equal_characters(self.detail@, other.detail@);
    }

    fn write_words(&self, out: &mut Vec<u64>) {
        let ghost was = out@;
        out.push(self.kind.number() as u64);
        write_list(self.triangles.as_slice(), out);
        write_list(self.vertices.as_slice(), out);
        write_text(self.detail.as_str(), out);
        assert(out@ =~= was + self.words());
    }
}

/// A truth as a word.
pub open spec fn flag(b: bool) -> u64 {
    if b {
        1
    } else {
        0
    }
}

fn flag_word(b: bool) -> (n: u64)
    ensures
        n == flag(b),
{
    if b {
        1
    } else {
        0
    }
}

/// What findings say, in order.
pub open spec fn said(f: Seq<Finding>) -> Seq<crate::mesh::validate::findings::FindingView> {
    Seq::new(f.len(), |i: int| f[i]@)
}

impl Canonical for MeshReport {
    open spec fn words(self) -> Seq<u64> {
        seq![
            self.version as u64,
            self.vertices as u64,
            self.triangles as u64,
            self.edges as u64,
            flag(self.is_manifold),
            flag(self.is_watertight),
            flag(self.is_orientation_consistent),
            plain_bits(self.signed_volume),
            plain_bits(self.surface_area),
            flag(self.self_intersection_checked),
        ] + (list_words(self.components@) + list_words(self.findings@))
    }

    open spec fn agrees(self, other: Self) -> bool {
        &&& self.version == other.version
        &&& self.vertices == other.vertices
        &&& self.triangles == other.triangles
        &&& self.edges == other.edges
        &&& self.is_manifold == other.is_manifold
        &&& self.is_watertight == other.is_watertight
        &&& self.is_orientation_consistent == other.is_orientation_consistent
        &&& alike(self.signed_volume, other.signed_volume)
        &&& alike(self.surface_area, other.surface_area)
        &&& self.self_intersection_checked == other.self_intersection_checked
        &&& lists_agree(self.components@, other.components@)
        &&& said(self.findings@) == said(other.findings@)
    }

    proof fn delimits(self, other: Self, p: Seq<u64>, q: Seq<u64>) {
        let a = self.words().take(10);
        let b = other.words().take(10);
        let x2 = list_words(self.findings@) + p;
        let y2 = list_words(other.findings@) + q;
        let x1 = list_words(self.components@) + x2;
        let y1 = list_words(other.components@) + y2;
        assert(self.words() + p =~= a + x1);
        assert(other.words() + q =~= b + y1);
        lemma_same_width(a, b, x1, y1);
        assert(a[0] == b[0] && a[1] == b[1] && a[2] == b[2] && a[3] == b[3] && a[4] == b[4]);
        assert(a[5] == b[5] && a[6] == b[6] && a[7] == b[7] && a[8] == b[8] && a[9] == b[9]);
        law_lists_delimit(self.components@, other.components@, x2, y2);
        law_lists_delimit(self.findings@, other.findings@, p, q);
        law_patterns_stand_for_numbers(self.signed_volume, other.signed_volume);
        law_patterns_stand_for_numbers(self.surface_area, other.surface_area);
        assert forall|i: int| 0 <= i < self.findings@.len() implies self.findings@[i]@ == other.findings@[i]@ by {
            assert(self.findings@[i].agrees(other.findings@[i]));
        }
        assert(said(self.findings@) =~= said(other.findings@));
    }

    fn write_words(&self, out: &mut Vec<u64>) {
        let ghost was = out@;
        out.push(self.version as u64);
        out.push(self.vertices as u64);
        out.push(self.triangles as u64);
        out.push(self.edges as u64);
        out.push(flag_word(self.is_manifold));
        out.push(flag_word(self.is_watertight));
        out.push(flag_word(self.is_orientation_consistent));
        out.push(plain(self.signed_volume));
        out.push(plain(self.surface_area));
        out.push(flag_word(self.self_intersection_checked));
        write_list(self.components.as_slice(), out);
        write_list(self.findings.as_slice(), out);
        assert(out@ =~= was + self.words());
    }
}

impl MeshReport {
    /// The words of the whole report.
    pub fn digest(&self) -> (v: Vec<u64>)
        ensures
            v@ == self.words(),
    {
        digest(self)
    }
}

} // verus!
