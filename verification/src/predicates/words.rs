//! Orientations and corpus cases, in words.

use super::corpus::{CorpusCase, PredicateKind};
use super::Orientation;
use crate::canonical::{law_lists_delimit, lemma_same_width, list_words, lists_agree, write_list, Canonical};
use crate::text::characters;
use vstd::prelude::*;

verus! {

/// An orientation as a word.
pub open spec fn orientation_word(o: Orientation) -> u64 {
    match o {
        Orientation::Negative => 0,
        Orientation::Zero => 1,
        Orientation::Positive => 2,
    }
}

impl Canonical for Orientation {
    open spec fn words(self) -> Seq<u64> {
        seq![orientation_word(self)]
    }

    open spec fn agrees(self, other: Self) -> bool {
        self == other
    }

    proof fn delimits(self, other: Self, p: Seq<u64>, q: Seq<u64>) {
        lemma_same_width(self.words(), other.words(), p, q);
        assert(self.words()[0] == other.words()[0]);
    }

    fn write_words(&self, out: &mut Vec<u64>) {
        let ghost was = out@;
        out.push(
            match self {
                Orientation::Negative => 0,
                Orientation::Zero => 1,
                Orientation::Positive => 2,
            },
        );
        assert(out@ =~= was + self.words());
    }
}

/// A kind of predicate as a word.
pub open spec fn kind_word(k: PredicateKind) -> u64 {
    match k {
        PredicateKind::Orient2d => 0,
        PredicateKind::Orient3d => 1,
        PredicateKind::InCircle => 2,
        PredicateKind::InSphere => 3,
    }
}

impl Canonical for PredicateKind {
    open spec fn words(self) -> Seq<u64> {
        seq![kind_word(self)]
    }

    open spec fn agrees(self, other: Self) -> bool {
        self == other
    }

    proof fn delimits(self, other: Self, p: Seq<u64>, q: Seq<u64>) {
        lemma_same_width(self.words(), other.words(), p, q);
        assert(self.words()[0] == other.words()[0]);
    }

    fn write_words(&self, out: &mut Vec<u64>) {
        let ghost was = out@;
        out.push(
            match self {
                PredicateKind::Orient2d => 0,
                PredicateKind::Orient3d => 1,
                PredicateKind::InCircle => 2,
                PredicateKind::InSphere => 3,
            },
        );
        assert(out@ =~= was + self.words());
    }
}

impl Canonical for CorpusCase {
    open spec fn words(self) -> Seq<u64> {
        self@.kind.words() + (self@.expected.words() + (list_words(self@.id) + list_words(self@.coords)))
    }

    open spec fn agrees(self, other: Self) -> bool {
        &&& self@.kind == other@.kind
        &&& self@.expected == other@.expected
        &&& self@.id == other@.id
        &&& lists_agree(self@.coords, other@.coords)
    }

    proof fn delimits(self, other: Self, p: Seq<u64>, q: Seq<u64>) {
        let a = self@;
        let b = other@;
        let x3 = list_words(a.coords) + p;
        let y3 = list_words(b.coords) + q;
        let x2 = list_words(a.id) + x3;
        let y2 = list_words(b.id) + y3;
        let x1 = a.expected.words() + x2;
        let y1 = b.expected.words() + y2;
        assert(self.words() + p =~= a.kind.words() + x1);
        assert(other.words() + q =~= b.kind.words() + y1);
        a.kind.delimits(b.kind, x1, y1);
        a.expected.delimits(b.expected, x2, y2);
        law_lists_delimit(a.id, b.id, x3, y3);
        law_lists_delimit(a.coords, b.coords, p, q);
        assert forall|i: int| 0 <= i < a.id.len() implies a.id[i] == b.id[i] by {
            assert(a.id[i].agrees(b.id[i]));
        }
        assert(a.id =~= b.id);
    }

    fn write_words(&self, out: &mut Vec<u64>) {
        let ghost was = out@;
        self.kind().write_words(out);
        self.expected().write_words(out);
        let id: Vec<char> = characters(self.id());
        write_list(id.as_slice(), out);
        write_list(self.coords(), out);
        assert(out@ =~= was + self.words());
    }
}

} // verus!
