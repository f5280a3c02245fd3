//! A text corpus of predicate configurations.
//!
//! One case to a line: an identifier, a predicate, the expected sign and the
//! coordinates, each a decimal number or an exact bit pattern. `#` starts a
//! comment.

use crate::decimal::{number_of, parse_number};
use crate::double::Double;
use crate::math::{Vec2, Vec3};
use crate::predicates::{
    incircle_coords, incircle_det, incircle_range, insphere_coords, insphere_det, insphere_range, orient2d_coords,
    orient2d_det, orient2d_range, orient3d_coords, orient3d_det, orient3d_range, orientation_of, CoordRange, Orientation,
    Predicates,
};
use crate::text::{
    characters, decimal_text, excerpt, lines, push_characters, push_number, same_text, split_lines, split_words,
    string_of, texts, words,
};
use crate::text_laws::{law_first_word, lemma_position_is, lemma_spaced_word, plain_word, spaced};
use vstd::prelude::*;

verus! {

/// Which predicate a case exercises.
#[derive(Clone, Copy, Debug, PartialEq, Eq, Hash, Structural)]
pub enum PredicateKind {
    /// Three points of the plane.
    Orient2d,
    /// Four points of space.
    Orient3d,
    /// Four points of the plane.
    InCircle,
    /// Five points of space.
    InSphere,
}

/// The largest coordinate count of any predicate.
pub const MAX_COORDS: usize = 15;

/// The predicate with a name.
pub open spec fn kind_named(s: Seq<char>) -> Option<PredicateKind> {
    if s == "orient2d"@ {
        Some(PredicateKind::Orient2d)
    } else if s == "orient3d"@ {
        Some(PredicateKind::Orient3d)
    } else if s == "incircle"@ {
        Some(PredicateKind::InCircle)
    } else if s == "insphere"@ {
        Some(PredicateKind::InSphere)
    } else {
        None
    }
}

impl PredicateKind {
    /// The number of coordinates.
    pub open spec fn count(self) -> int {
        match self {
            PredicateKind::Orient2d => 6,
            PredicateKind::Orient3d => 12,
            PredicateKind::InCircle => 8,
            PredicateKind::InSphere => 15,
        }
    }

    /// The name in a corpus.
    pub open spec fn label(self) -> Seq<char> {
        match self {
            PredicateKind::Orient2d => "orient2d"@,
            PredicateKind::Orient3d => "orient3d"@,
            PredicateKind::InCircle => "incircle"@,
            PredicateKind::InSphere => "insphere"@,
        }
    }

    /// All kinds.
    pub fn all() -> (r: [PredicateKind; 4])
        ensures
            r@ == seq![
                PredicateKind::Orient2d,
                PredicateKind::Orient3d,
                PredicateKind::InCircle,
                PredicateKind::InSphere,
            ],
    {
        [PredicateKind::Orient2d, PredicateKind::Orient3d, PredicateKind::InCircle, PredicateKind::InSphere]
    }

    /// The number of coordinates a case of this kind carries.
    pub fn arity(self) -> (n: usize)
        ensures
            n == self.count(),
    {
        match self {
            PredicateKind::Orient2d => 6,
            PredicateKind::Orient3d => 12,
            PredicateKind::InCircle => 8,
            PredicateKind::InSphere => 15,
        }
    }

    /// The coordinate magnitudes that this predicate is meant for.
    pub fn coord_range(self) -> (r: CoordRange)
        ensures
            r == match self {
                PredicateKind::Orient2d => orient2d_coords(),
                PredicateKind::Orient3d => orient3d_coords(),
                PredicateKind::InCircle => incircle_coords(),
                PredicateKind::InSphere => insphere_coords(),
            },
    {
        match self {
            PredicateKind::Orient2d => orient2d_range(),
            PredicateKind::Orient3d => orient3d_range(),
            PredicateKind::InCircle => incircle_range(),
            PredicateKind::InSphere => insphere_range(),
        }
    }

    /// The lower-case name used in a corpus.
    pub fn name(self) -> (s: &'static str)
        ensures
            s@ == self.label(),
    {
        match self {
            PredicateKind::Orient2d => "orient2d",
            PredicateKind::Orient3d => "orient3d",
            PredicateKind::InCircle => "incircle",
            PredicateKind::InSphere => "insphere",
        }
    }

    /// Parses the name used in a corpus.
    pub fn from_name(s: &str) -> (r: Option<PredicateKind>)
        ensures
            r == kind_named(s@),
    {
        let c: Vec<char> = characters(s);
        named(c.as_slice())
    }
}

fn named(s: &[char]) -> (r: Option<PredicateKind>)
    ensures
        r == kind_named(s@),
{
    if same_text(s, "orient2d") {
        Some(PredicateKind::Orient2d)
    } else if same_text(s, "orient3d") {
        Some(PredicateKind::Orient3d)
    } else if same_text(s, "incircle") {
        Some(PredicateKind::InCircle)
    } else if same_text(s, "insphere") {
        Some(PredicateKind::InSphere)
    } else {
        None
    }
}

/// A name names its kind and no other.
pub proof fn law_names_round_trip(k: PredicateKind)
    ensures
        kind_named(k.label()) == Some(k),
{
    reveal_strlit("orient2d");
    reveal_strlit("orient3d");
    reveal_strlit("incircle");
    reveal_strlit("insphere");
    assert("orient2d"@[6] != "orient3d"@[6]);
    assert("orient2d"@[0] != "incircle"@[0]);
    assert("orient2d"@[0] != "insphere"@[0]);
    assert("orient3d"@[0] != "incircle"@[0]);
    assert("orient3d"@[0] != "insphere"@[0]);
    assert("incircle"@[2] != "insphere"@[2]);
}

/// The value of a hexadecimal digit.
pub open spec fn hex_digit(c: char) -> Option<int> {
    if '0' <= c <= '9' {
        Some(c as int - '0' as int)
    } else if 'a' <= c <= 'f' {
        Some(c as int - 'a' as int + 10)
    } else if 'A' <= c <= 'F' {
        Some(c as int - 'A' as int + 10)
    } else {
        None
    }
}

/// The value of hexadecimal digits.
pub open spec fn hex_value(s: Seq<char>) -> Option<int>
    decreases s.len(),
{
    if s.len() == 0 {
        Some(0)
    } else {
        match (hex_value(s.drop_last()), hex_digit(s.last())) {
            (Some(v), Some(d)) => Some(16 * v + d),
            _ => None,
        }
    }
}

/// The bit pattern that sixteen characters spell: hexadecimal digits, the first
/// of which a plus sign may stand for.
pub open spec fn pattern(s: Seq<char>) -> Option<int> {
    if s.len() != 16 {
        None
    } else if s[0] == '+' {
        hex_value(s.subrange(1, 16))
    } else {
        hex_value(s)
    }
}

/// The number that a coordinate token spells.
pub open spec fn coordinate_of(s: Seq<char>) -> Option<Double> {
    if s.len() >= 2 && s[0] == '0' && (s[1] == 'x' || s[1] == 'X') {
        match pattern(s.subrange(2, s.len() as int)) {
            Some(v) => Some(Double { bits: v as u64 }),
            None => None,
        }
    } else {
        number_of(s)
    }
}

fn digit(c: char) -> (r: Option<u64>)
    ensures
        match r {
            Some(d) => hex_digit(c) == Some(d as int) && d < 16,
            None => hex_digit(c) is None,
        },
{
    if '0' <= c && c <= '9' {
        Some((c as u32 - '0' as u32) as u64)
    } else if 'a' <= c && c <= 'f' {
        Some((c as u32 - 'a' as u32 + 10) as u64)
    } else if 'A' <= c && c <= 'F' {
        Some((c as u32 - 'A' as u32 + 10) as u64)
    } else {
        None
    }
}

proof fn lemma_hex_prefix_none(s: Seq<char>, n: int)
    requires
        0 <= n <= s.len(),
        hex_value(s.subrange(0, n)) is None,
    ensures
        hex_value(s) is None,
    decreases s.len() - n,
{
    if n == s.len() {
        assert(s.subrange(0, n) =~= s);
    } else {
        assert(s.subrange(0, n + 1).drop_last() =~= s.subrange(0, n));
        lemma_hex_prefix_none(s, n + 1);
    }
}

fn parse_hex(s: &[char]) -> (r: Option<u64>)
    requires
        s@.len() <= 16,
    ensures
        match r {
            Some(v) => hex_value(s@) == Some(v as int),
            None => hex_value(s@) is None,
        },
{
    let mut v: u128 = 0;
    let mut i: usize = 0;
    let ghost mut top: int = 1;
    proof {
        assert(s@.subrange(0, 0) =~= Seq::empty());
        vstd::arithmetic::power2::lemma2_to64_rest();
        vstd::arithmetic::power2::lemma2_to64();
    }
    while i < s.len()
        invariant
            i <= s@.len() <= 16,
            hex_value(s@.subrange(0, i as int)) == Some(v as int),
            v < vstd::arithmetic::power2::pow2((4 * i) as nat),
            vstd::arithmetic::power2::pow2(64) == 0x1_0000_0000_0000_0000,
        decreases s@.len() - i,
    {
        proof {
            assert(s@.subrange(0, i + 1).drop_last() =~= s@.subrange(0, i as int));
            assert(s@.subrange(0, i + 1).last() == s@[i as int]);
            vstd::arithmetic::power2::lemma_pow2_adds((4 * i) as nat, 4);
            vstd::arithmetic::power2::lemma2_to64();
            if 4 * i < 64 {
                vstd::arithmetic::power2::lemma_pow2_strictly_increases((4 * i) as nat, 64);
            }
        }
        match digit(s[i]) {
            Some(d) => {
                v = 16 * v + d as u128;
            },
            None => {
                proof {
                    lemma_hex_prefix_none(s@, i + 1);
                }
                return None;
            },
        }
        i = i + 1;
    }
    proof {
        assert(s@.subrange(0, i as int) =~= s@);
        if 4 * i < 64 {
            vstd::arithmetic::power2::lemma_pow2_strictly_increases((4 * i) as nat, 64);
        }
    }
    Some(v as u64)
}

/// Parses one coordinate token: a decimal number, or `0x` and sixteen hexadecimal
/// digits.
pub fn parse_coord(tok: &[char]) -> (r: Option<Double>)
    ensures
        r == coordinate_of(tok@),
{
    let n: usize = tok.len();
    if n >= 2 && tok[0] == '0' && (tok[1] == 'x' || tok[1] == 'X') {
        if n != 18 {
            return None;
        }
        let hex: Vec<char> = excerpt(tok, 2, n);
        let v: Option<u64> = if hex[0] == '+' {
            let rest: Vec<char> = excerpt(hex.as_slice(), 1, 16);
            parse_hex(rest.as_slice())
        } else {
            parse_hex(hex.as_slice())
        };
        return match v {
            Some(b) => Some(Double::from_bits(b)),
            None => None,
        };
    }
    parse_number(tok)
}

/// A case of a corpus.
#[derive(Debug)]
pub struct CorpusCase {
    /// Unique identifier.
    pub id: String,
    /// Which predicate to run.
    pub kind: PredicateKind,
    /// The expected result.
    pub expected: Orientation,
    coords: Vec<Double>,
}

/// A case of a corpus, as mathematical values.
pub struct CaseView {
    /// Unique identifier.
    pub id: Seq<char>,
    /// Which predicate to run.
    pub kind: PredicateKind,
    /// The expected result.
    pub expected: Orientation,
    /// The coordinates.
    pub coords: Seq<Double>,
}

impl View for CorpusCase {
    type V = CaseView;

    closed spec fn view(&self) -> CaseView {
        CaseView { id: self.id@, kind: self.kind, expected: self.expected, coords: self.coords@ }
    }
}

/// Point `i` of the plane.
pub open spec fn point2(c: Seq<Double>, i: int) -> Vec2 {
    Vec2 { x: c[2 * i], y: c[2 * i + 1] }
}

/// Point `i` of space.
pub open spec fn point3(c: Seq<Double>, i: int) -> Vec3 {
    Vec3 { x: c[3 * i], y: c[3 * i + 1], z: c[3 * i + 2] }
}

/// The exact result of a predicate on coordinates.
pub open spec fn exact_result(kind: PredicateKind, c: Seq<Double>) -> Orientation {
    orientation_of(
        match kind {
            PredicateKind::Orient2d => orient2d_det(point2(c, 0), point2(c, 1), point2(c, 2)),
            PredicateKind::Orient3d => orient3d_det(point3(c, 0), point3(c, 1), point3(c, 2), point3(c, 3)),
            PredicateKind::InCircle => incircle_det(point2(c, 0), point2(c, 1), point2(c, 2), point2(c, 3)),
            PredicateKind::InSphere => insphere_det(
                point3(c, 0),
                point3(c, 1),
                point3(c, 2),
                point3(c, 3),
                point3(c, 4),
            ),
        },
    )
}

impl CorpusCase {
    /// As many coordinates as the predicate takes.
    #[verifier::type_invariant]
    pub closed spec fn complete(self) -> bool {
        self.coords@.len() == self.kind.count()
    }

    /// The case as an exact view.
    pub fn new(id: String, kind: PredicateKind, expected: Orientation, coords: Vec<Double>) -> (c: CorpusCase)
        requires
            coords@.len() == kind.count(),
        ensures
            c@ == (CaseView { id: id@, kind, expected, coords: coords@ }),
    {
        CorpusCase { id, kind, expected, coords }
    }

    /// Unique identifier.
    pub fn id(&self) -> (r: &str)
        ensures
            r@ == self@.id,
    {
        self.id.as_str()
    }

    /// Which predicate to run.
    pub fn kind(&self) -> (r: PredicateKind)
        ensures
            r == self@.kind,
    {
        self.kind
    }

    /// The expected result.
    pub fn expected(&self) -> (r: Orientation)
        ensures
            r == self@.expected,
    {
        self.expected
    }

    /// The coordinates, exactly as many as the predicate takes.
    pub fn coords(&self) -> (r: &[Double])
        ensures
            r@ == self@.coords,
            r@.len() == self@.kind.count(),
    {
        proof {
            use_type_invariant(self);
        }
        self.coords.as_slice()
    }

    fn v2(&self, i: usize) -> (v: Vec2)
        requires
            2 * i + 1 < self@.coords.len(),
            i < 10,
        ensures
            v == point2(self@.coords, i as int),
    {
        Vec2::new(self.coords[2 * i], self.coords[2 * i + 1])
    }

    fn v3(&self, i: usize) -> (v: Vec3)
        requires
            3 * i + 2 < self@.coords.len(),
            i < 10,
        ensures
            v == point3(self@.coords, i as int),
    {
        Vec3::new(self.coords[3 * i], self.coords[3 * i + 1], self.coords[3 * i + 2])
    }

    /// Runs the case against a predicate implementation.
    pub fn evaluate<P: Predicates>(&self, p: &P) -> (o: Orientation)
        requires
            forall|i: int| 0 <= i < self@.coords.len() ==> (#[trigger] self@.coords[i]).finite(),
        ensures
            o == exact_result(self@.kind, self@.coords),
    {
        proof {
            use_type_invariant(self);
        }
        match self.kind {
            PredicateKind::Orient2d => p.orient2d(self.v2(0), self.v2(1), self.v2(2)),
            PredicateKind::Orient3d => p.orient3d(self.v3(0), self.v3(1), self.v3(2), self.v3(3)),
            PredicateKind::InCircle => p.incircle(self.v2(0), self.v2(1), self.v2(2), self.v2(3)),
            PredicateKind::InSphere => p.insphere(self.v3(0), self.v3(1), self.v3(2), self.v3(3), self.v3(4)),
        }
    }
}

/// A malformed corpus line.
#[derive(Debug, PartialEq, Eq)]
pub struct CorpusError {
    /// One-based line number.
    pub line: usize,
    /// What was wrong.
    pub message: String,
}

impl CorpusError {
    /// The line and the message in one text.
    pub fn describe(&self) -> (s: String)
        ensures
            s@ == "corpus line "@ + decimal_text(self.line as nat) + ": "@ + self.message@,
    {
        let mut s: String = String::from_str("corpus line ");
        push_number(&mut s, self.line as u64);
        s.append(": ");
        s.append(self.message.as_str());
        assert(s@ =~= "corpus line "@ + decimal_text(self.line as nat) + ": "@ + self.message@);
        s
    }
}

/// The first `n` coordinates that the words of a line spell, or what is wrong.
pub open spec fn coordinates(w: Seq<Seq<char>>, kind: PredicateKind, n: nat) -> Result<Seq<Double>, Seq<char>>
    decreases n,
{
    if n == 0 {
        Ok(Seq::empty())
    } else {
        let i = (n - 1) as nat;
        match coordinates(w, kind, i) {
            Err(m) => Err(m),
            Ok(c) => if 3 + i >= w.len() {
                Err(
                    kind.label() + " needs "@ + decimal_text(kind.count() as nat) + " coordinates, found "@
                        + decimal_text(i),
                )
            } else {
                match coordinate_of(w[3 + i as int]) {
                    Some(d) => Ok(c.push(d)),
                    None => Err("coordinate "@ + decimal_text(i) + " is not a number: `"@ + w[3 + i as int] + "`"@),
                }
            },
        }
    }
}

/// The sign that a word writes.
pub open spec fn sign_of(w: Seq<char>) -> Option<Orientation> {
    if w.len() != 1 {
        None
    } else if w[0] == '+' {
        Some(Orientation::Positive)
    } else if w[0] == '-' {
        Some(Orientation::Negative)
    } else if w[0] == '0' {
        Some(Orientation::Zero)
    } else {
        None
    }
}

/// The case that the words of a line spell, or what is wrong with them.
pub open spec fn case_of(w: Seq<Seq<char>>) -> Result<CaseView, Seq<char>> {
    if w.len() < 2 {
        Err("missing predicate name"@)
    } else {
        match kind_named(w[1]) {
            None => Err("unknown predicate `"@ + w[1] + "`"@),
            Some(kind) => if w.len() < 3 {
                Err("missing expected result"@)
            } else {
                match sign_of(w[2]) {
                    None => Err("expected `+`, `-` or `0`, found `"@ + w[2] + "`"@),
                    Some(expected) => match coordinates(w, kind, kind.count() as nat) {
                        Err(m) => Err(m),
                        Ok(coords) => if w.len() > 3 + kind.count() {
                            Err(
                                kind.label() + " takes "@ + decimal_text(kind.count() as nat)
                                    + " coordinates; trailing token `"@ + w[3 + kind.count()] + "`"@,
                            )
                        } else {
                            Ok(CaseView { id: w[0], kind, expected, coords })
                        },
                    },
                }
            },
        }
    }
}

/// What stands in front of a comment.
pub open spec fn uncommented(l: Seq<char>) -> Seq<char> {
    l.subrange(0, crate::text::position_of(l, '#', 0))
}

/// The cases on lines `i` and later, or the first malformed line and what is wrong
/// with it. Lines without words are skipped.
pub open spec fn cases_from(l: Seq<Seq<char>>, i: int) -> Result<Seq<CaseView>, (int, Seq<char>)>
    decreases l.len() - i,
{
    if i < 0 || i >= l.len() {
        Ok(Seq::empty())
    } else {
        let w = words(uncommented(l[i]));
        if w.len() == 0 {
            cases_from(l, i + 1)
        } else {
            match case_of(w) {
                Err(m) => Err((i + 1, m)),
                Ok(c) => match cases_from(l, i + 1) {
                    Err(e) => Err(e),
                    Ok(rest) => Ok(seq![c] + rest),
                },
            }
        }
    }
}

/// Cases as mathematical values.
pub open spec fn case_views(v: Seq<CorpusCase>) -> Seq<CaseView> {
    Seq::new(v.len(), |i: int| v[i]@)
}

/// Puts a word between two texts.
fn quoted(before: &str, word: &[char], after: &str) -> (m: String)
    ensures
        m@ == before@ + word@ + after@,
{
    let mut m: String = String::from_str(before);
    push_characters(&mut m, word);
    m.append(after);
    assert(m@ =~= before@ + word@ + after@);
    m
}

fn read_coordinates(w: &Vec<Vec<char>>, kind: PredicateKind) -> (r: Result<Vec<Double>, String>)
    ensures
        match r {
            Ok(c) => coordinates(texts(w@), kind, kind.count() as nat) == Ok::<Seq<Double>, Seq<char>>(c@) && c@.len()
                == kind.count() && w@.len() >= 3 + kind.count(),
            Err(m) => coordinates(texts(w@), kind, kind.count() as nat) == Err::<Seq<Double>, Seq<char>>(m@),
        },
{
    let n: usize = kind.arity();
    let mut c: Vec<Double> = Vec::new();
    let mut i: usize = 0;
    while i < n
        invariant
            i <= n,
            n == kind.count(),
            c@.len() == i,
            i > 0 ==> w@.len() >= 3 + i,
            coordinates(texts(w@), kind, i as nat) == Ok::<Seq<Double>, Seq<char>>(c@),
        decreases n - i,
    {
        if 3 + i >= w.len() {
            let mut m: String = String::from_str(kind.name());
            m.append(" needs ");
            push_number(&mut m, n as u64);
            m.append(" coordinates, found ");
            push_number(&mut m, i as u64);
            proof {
                assert(m@ =~= kind.label() + " needs "@ + decimal_text(n as nat) + " coordinates, found "@ + decimal_text(
                    i as nat,
                ));
                lemma_coordinates_fail(texts(w@), kind, (i + 1) as nat, n as nat);
            }
            return Err(m);
        }
        match parse_coord(w[3 + i].as_slice()) {
            Some(d) => {
                c.push(d);
            },
            None => {
                let mut m: String = String::from_str("coordinate ");
                push_number(&mut m, i as u64);
                m.append(" is not a number: `");
                push_characters(&mut m, w[3 + i].as_slice());
                m.append("`");
                proof {
                    assert(m@ =~= "coordinate "@ + decimal_text(i as nat) + " is not a number: `"@ + texts(w@)[3 + i]
                        + "`"@);
                    lemma_coordinates_fail(texts(w@), kind, (i + 1) as nat, n as nat);
                }
                return Err(m);
            },
        }
        i = i + 1;
    }
    Ok(c)
}

proof fn lemma_coordinates_fail(w: Seq<Seq<char>>, kind: PredicateKind, k: nat, n: nat)
    requires
        k <= n,
        coordinates(w, kind, k) is Err,
    ensures
        coordinates(w, kind, n) == coordinates(w, kind, k),
    decreases n,
{
    if k < n {
        lemma_coordinates_fail(w, kind, k, (n - 1) as nat);
    }
}

fn read_sign(w: &Vec<char>) -> (r: Option<Orientation>)
    ensures
        r == sign_of(w@),
{
    if w.len() != 1 {
        None
    } else {
        Orientation::from_char(w[0])
    }
}

fn read_case(w: &Vec<Vec<char>>) -> (r: Result<CorpusCase, String>)
    requires
        w@.len() > 0,
    ensures
        match r {
            Ok(c) => case_of(texts(w@)) == Ok::<CaseView, Seq<char>>(c@),
            Err(m) => case_of(texts(w@)) == Err::<CaseView, Seq<char>>(m@),
        },
{
    if w.len() < 2 {
        return Err(String::from_str("missing predicate name"));
    }
    let kind: PredicateKind = match named(w[1].as_slice()) {
        Some(k) => k,
        None => {
            return Err(quoted("unknown predicate `", w[1].as_slice(), "`"));
        },
    };
    if w.len() < 3 {
        return Err(String::from_str("missing expected result"));
    }
    let expected: Orientation = match read_sign(&w[2]) {
        Some(o) => o,
        None => {
            return Err(quoted("expected `+`, `-` or `0`, found `", w[2].as_slice(), "`"));
        },
    };
    let coords: Vec<Double> = match read_coordinates(w, kind) {
        Ok(c) => c,
        Err(m) => {
            return Err(m);
        },
    };
    let n: usize = kind.arity();
    if w.len() > 3 + n {
        let mut m: String = String::from_str(kind.name());
        m.append(" takes ");
        push_number(&mut m, n as u64);
        m.append(" coordinates; trailing token `");
        push_characters(&mut m, w[3 + n].as_slice());
        m.append("`");
        assert(m@ =~= kind.label() + " takes "@ + decimal_text(n as nat) + " coordinates; trailing token `"@ + texts(
            w@,
        )[3 + n] + "`"@);
        return Err(m);
    }
    Ok(CorpusCase::new(string_of(w[0].as_slice()), kind, expected, coords))
}

fn before_comment(l: &[char]) -> (v: Vec<char>)
    ensures
        v@ == uncommented(l@),
{
    let mut i: usize = 0;
    while i < l.len() && l[i] != '#'
        invariant
            i <= l@.len(),
            forall|j: int| 0 <= j < i ==> #[trigger] l@[j] != '#',
        decreases l@.len() - i,
    {
        i = i + 1;
    }
    proof {
        lemma_position_is(l@, '#', 0, i as int);
    }
    excerpt(l, 0, i)
}

/// Parses corpus text into cases. The error is that of the first malformed line.
pub fn parse(src: &str) -> (r: Result<Vec<CorpusCase>, CorpusError>)
    ensures
        match cases_from(lines(src@), 0) {
            Ok(c) => r matches Ok(v) && case_views(v@) == c,
            Err((line, m)) => r matches Err(e) && e.line == line && e.message@ == m,
        },
{
    let chars: Vec<char> = characters(src);
    let all: Vec<Vec<char>> = split_lines(chars.as_slice());
    let ghost l = lines(src@);
    let mut v: Vec<CorpusCase> = Vec::new();
    let mut i: usize = 0;
    proof {
        if let Ok(c) = cases_from(l, 0) {
            assert(case_views(v@) + c =~= c);
        }
    }
    while i < all.len()
        invariant
            i <= all@.len(),
            l == texts(all@),
            l == lines(src@),
            match cases_from(l, i as int) {
                Ok(rest) => cases_from(l, 0) == Ok::<Seq<CaseView>, (int, Seq<char>)>(case_views(v@) + rest),
                Err(e) => cases_from(l, 0) == Err::<Seq<CaseView>, (int, Seq<char>)>(e),
            },
        decreases all@.len() - i,
    {
        let ghost was = v@;
        assert(l[i as int] == all@[i as int]@);
        let text: Vec<char> = before_comment(all[i].as_slice());
        let w: Vec<Vec<char>> = split_words(text.as_slice());
        assert(texts(w@).len() == w@.len());
        if w.len() > 0 {
            match read_case(&w) {
                Ok(c) => {
                    v.push(c);
                    proof {
                        if let Ok(rest) = cases_from(l, i + 1) {
                            assert(case_views(was) + (seq![c@] + rest) =~= case_views(v@) + rest);
                        }
                    }
                },
                Err(message) => {
                    return Err(CorpusError { line: i + 1, message });
                },
            }
        }
        i = i + 1;
    }
    proof {
        assert(case_views(v@) + Seq::<CaseView>::empty() =~= case_views(v@));
    }
    Ok(v)
}

/// A hexadecimal digit.
pub open spec fn hex_char(d: int) -> char {
    if d < 10 {
        ('0' as int + d) as char
    } else {
        ('a' as int + d - 10) as char
    }
}

/// The last `n` hexadecimal digits of a number.
pub open spec fn hex_text(v: int, n: nat) -> Seq<char>
    decreases n,
{
    if n == 0 {
        Seq::empty()
    } else {
        hex_text(v / 16, (n - 1) as nat).push(hex_char(v % 16))
    }
}

/// The token of a bit pattern.
pub open spec fn pattern_text(d: Double) -> Seq<char> {
    "0x"@ + hex_text(d.bits as int, 16)
}

/// The words of a case, each coordinate as an exact bit pattern.
pub open spec fn case_words(c: CaseView) -> Seq<Seq<char>> {
    seq![c.id, c.kind.label(), seq![c.expected.letter()]] + Seq::new(c.coords.len(), |i: int| pattern_text(c.coords[i]))
}

/// The words from `i` on, each behind a space.
pub open spec fn spaced_from(w: Seq<Seq<char>>, i: int) -> Seq<char>
    decreases w.len() - i,
{
    if i < 0 || i >= w.len() {
        Seq::empty()
    } else {
        spaced(w[i]) + spaced_from(w, i + 1)
    }
}

/// The line of a case.
pub open spec fn canonical_line(c: CaseView) -> Seq<char> {
    c.id + spaced_from(case_words(c), 1)
}

fn hex_digit_of(d: u64) -> (c: char)
    requires
        d < 16,
    ensures
        c == hex_char(d as int),
{
    if d < 10 {
        ('0' as u8 + d as u8) as char
    } else {
        ('a' as u8 + (d as u8 - 10)) as char
    }
}

fn hex_digits(v: u64, n: usize) -> (s: Vec<char>)
    ensures
        s@ == hex_text(v as int, n as nat),
    decreases n,
{
    if n == 0 {
        Vec::new()
    } else {
        let mut s: Vec<char> = hex_digits(v / 16, n - 1);
        s.push(hex_digit_of(v % 16));
        s
    }
}

impl CorpusCase {
    /// Renders the case as a corpus line, with every coordinate as an exact bit
    /// pattern.
    pub fn to_canonical_line(&self) -> (s: String)
        ensures
            s@ == canonical_line(self@),
    {
        let ghost w = case_words(self@);
        let mut s: String = self.id.clone();
        let ghost whole = canonical_line(self@);
        s.append(" ");
        s.append(self.kind.name());
        s.append(" ");
        s.push(self.expected.as_char());
        proof {
            reveal_strlit(" ");
            let label = self.kind.label();
            let letter = seq![self.expected.letter()];
            assert(w[1] == label && w[2] == letter);
            assert(spaced_from(w, 2) == spaced(w[2]) + spaced_from(w, 3));
            assert(spaced_from(w, 1) == spaced(label) + (spaced(letter) + spaced_from(w, 3)));
            assert(s@ + spaced_from(w, 3) =~= whole);
        }
        let mut i: usize = 0;
        while i < self.coords.len()
            invariant
                i <= self.coords@.len(),
                w == case_words(self@),
                s@ + spaced_from(w, 3 + i) == whole,
            decreases self.coords@.len() - i,
        {
            let ghost was = s@;
            s.append(" 0x");
            let digits: Vec<char> = hex_digits(self.coords[i].to_bits(), 16);
            push_characters(&mut s, digits.as_slice());
            proof {
                reveal_strlit(" 0x");
                reveal_strlit("0x");
                assert(w[3 + i] == pattern_text(self.coords@[i as int]));
                assert(" 0x"@ =~= seq![' '] + "0x"@);
                assert(s@ + spaced_from(w, 4 + i) =~= was + (spaced(w[3 + i]) + spaced_from(w, 4 + i)));
            }
            i = i + 1;
        }
        proof {
            assert(s@ + spaced_from(w, 3 + i) =~= s@);
        }
        s
    }
}

proof fn lemma_hex_round_trip(v: int, n: nat)
    requires
        0 <= v,
    ensures
        hex_text(v, n).len() == n,
        hex_value(hex_text(v, n)) is Some,
        v < vstd::arithmetic::power2::pow2((4 * n) as nat) ==> hex_value(hex_text(v, n)) == Some(v),
        forall|i: int| 0 <= i < n ==> hex_digit(#[trigger] hex_text(v, n)[i]) is Some,
    decreases n,
{
    if n > 0 {
        lemma_hex_round_trip(v / 16, (n - 1) as nat);
        let t = hex_text(v, n);
        assert(t.drop_last() =~= hex_text(v / 16, (n - 1) as nat));
        assert(t.last() == hex_char(v % 16));
        assert(hex_digit(hex_char(v % 16)) == Some(v % 16));
        vstd::arithmetic::power2::lemma_pow2_adds((4 * (n - 1)) as nat, 4);
        vstd::arithmetic::power2::lemma2_to64();
    } else {
        vstd::arithmetic::power2::lemma2_to64();
    }
}

/// A bit pattern survives being written and read back.
pub proof fn law_pattern_round_trips(d: Double)
    ensures
        coordinate_of(pattern_text(d)) == Some(d),
        plain_word(pattern_text(d)),
        forall|i: int| 0 <= i < pattern_text(d).len() ==> #[trigger] pattern_text(d)[i] != '#',
{
    reveal_strlit("0x");
    vstd::arithmetic::power2::lemma2_to64_rest();
    lemma_hex_round_trip(d.bits as int, 16);
    let t = pattern_text(d);
    let h = hex_text(d.bits as int, 16);
    assert(t.subrange(2, 18) =~= h);
    assert(hex_digit(h[0]) is Some);
    assert forall|i: int| 0 <= i < t.len() implies !crate::text::white(#[trigger] t[i]) && t[i] != '#' by {
        if i >= 2 {
            assert(t[i] == h[i - 2]);
            assert(hex_digit(h[i - 2]) is Some);
        }
    }
}

proof fn lemma_words_of_spaced(w: Seq<Seq<char>>, i: int)
    requires
        0 <= i <= w.len(),
        forall|k: int| 0 <= k < w.len() ==> plain_word(#[trigger] w[k]),
    ensures
        words(spaced_from(w, i)) == w.subrange(i, w.len() as int),
        spaced_from(w, i).len() > 0 ==> crate::text::white(spaced_from(w, i)[0]),
    decreases w.len() - i,
{
    if i < w.len() {
        lemma_words_of_spaced(w, i + 1);
        lemma_spaced_word(w[i], spaced_from(w, i + 1));
        assert(seq![w[i]] + w.subrange(i + 1, w.len() as int) =~= w.subrange(i, w.len() as int));
        assert(spaced_from(w, i)[0] == ' ');
    } else {
        assert(words(spaced_from(w, i)) =~= w.subrange(i, w.len() as int));
    }
}

proof fn lemma_spaced_free(w: Seq<Seq<char>>, i: int, c: char)
    requires
        0 <= i <= w.len(),
        c != ' ',
        forall|k: int, j: int| 0 <= k < w.len() && 0 <= j < w[k].len() ==> #[trigger] w[k][j] != c,
    ensures
        forall|j: int| 0 <= j < spaced_from(w, i).len() ==> #[trigger] spaced_from(w, i)[j] != c,
    decreases w.len() - i,
{
    if i < w.len() {
        lemma_spaced_free(w, i + 1, c);
        let s = spaced_from(w, i);
        let rest = spaced_from(w, i + 1);
        let n = spaced(w[i]).len() as int;
        assert forall|j: int| 0 <= j < s.len() implies #[trigger] s[j] != c by {
            if j == 0 {
                assert(s[0] == ' ');
            } else if j < n {
                assert(s[j] == w[i][j - 1]);
            } else {
                assert(s[j] == rest[j - n]);
            }
        }
    }
}

proof fn lemma_coordinates_back(c: CaseView, w: Seq<Seq<char>>, n: nat)
    requires
        w == case_words(c),
        n <= c.coords.len(),
    ensures
        coordinates(w, c.kind, n) == Ok::<Seq<Double>, Seq<char>>(c.coords.subrange(0, n as int)),
    decreases n,
{
    if n > 0 {
        lemma_coordinates_back(c, w, (n - 1) as nat);
        assert(w[3 + n - 1] == pattern_text(c.coords[n - 1]));
        law_pattern_round_trips(c.coords[n - 1]);
        assert(c.coords.subrange(0, n as int) =~= c.coords.subrange(0, n - 1).push(c.coords[n - 1]));
    } else {
        assert(c.coords.subrange(0, 0) =~= Seq::empty());
    }
}

/// A case survives being written as a line and parsed again: one case comes back,
/// and it is the same.
pub proof fn law_canonical_line_round_trips(c: CaseView)
    requires
        plain_word(c.id),
        forall|i: int| 0 <= i < c.id.len() ==> #[trigger] c.id[i] != '#',
        c.coords.len() == c.kind.count(),
    ensures
        cases_from(lines(canonical_line(c)), 0) == Ok::<Seq<CaseView>, (int, Seq<char>)>(seq![c]),
{
    let w = case_words(c);
    let l = canonical_line(c);
    reveal_strlit("orient2d");
    reveal_strlit("orient3d");
    reveal_strlit("incircle");
    reveal_strlit("insphere");
    assert forall|k: int| 0 <= k < w.len() implies plain_word(#[trigger] w[k]) && forall|j: int|
        0 <= j < w[k].len() ==> #[trigger] w[k][j] != '#' by {
        if k >= 3 {
            assert(w[k] == pattern_text(c.coords[k - 3]));
            law_pattern_round_trips(c.coords[k - 3]);
        }
    }
    assert forall|k: int, j: int| 0 <= k < w.len() && 0 <= j < w[k].len() implies #[trigger] w[k][j] != '\n' by {
        assert(plain_word(w[k]));
        assert(!crate::text::white(w[k][j]));
    }
    lemma_words_of_spaced(w, 1);
    law_first_word(c.id, spaced_from(w, 1));
    lemma_spaced_free(w, 1, '#');
    lemma_spaced_free(w, 1, '\n');
    assert forall|j: int| 0 <= j < l.len() implies #[trigger] l[j] != '#' && l[j] != '\n' by {
        if j < c.id.len() {
            assert(l[j] == c.id[j]);
            assert(!crate::text::white(c.id[j]));
        } else {
            assert(l[j] == spaced_from(w, 1)[j - c.id.len()]);
        }
    }
    lemma_position_is(l, '\n', 0, l.len() as int);
    assert(lines(l) =~= seq![l]);
    lemma_position_is(l, '#', 0, l.len() as int);
    assert(uncommented(l) =~= l);
    assert(words(l) =~= w) by {
        assert(w[0] == c.id);
        assert(seq![c.id] + w.subrange(1, w.len() as int) =~= w);
    }
    law_names_round_trip(c.kind);
    lemma_coordinates_back(c, w, c.kind.count() as nat);
    assert(c.coords.subrange(0, c.coords.len() as int) =~= c.coords);
    assert(case_of(w) == Ok::<CaseView, Seq<char>>(c));
    assert(cases_from(seq![l], 1) == Ok::<Seq<CaseView>, (int, Seq<char>)>(Seq::empty()));
    assert(seq![c] + Seq::<CaseView>::empty() =~= seq![c]);
}

} // verus!
