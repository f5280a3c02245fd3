//! Judging what was computed elsewhere: one outcome after another, each with what
//! is wrong with it, what it puts on record, and how many cases it stands for.

use super::cuts::{tell, told};
use crate::canonical::{list_words, plain, plain_bits};
use crate::double::Double;
use crate::math::Vec3;
use crate::refixture::Mat4;
use crate::selftest::Failure;
use crate::text::{decimal_text, push_number};
use vstd::prelude::*;

verus! {

/// A result that is judged and recorded.
pub trait Outcome: Sized {
    /// What is wrong with it where it stands at place `i`: names and details.
    spec fn flaws(self, i: nat) -> Seq<(Seq<char>, Seq<char>)>;

    /// What it puts on record.
    spec fn content(self) -> Seq<u64>;

    /// How many cases it stands for.
    spec fn weight(self) -> nat;

    /// Judges and records it.
    fn judge(&self, i: usize, failures: &mut Vec<Failure>, words: &mut Vec<u64>) -> (n: usize)
        requires
            self.weight() <= usize::MAX,
        ensures
            n == self.weight(),
            told(final(failures)@) == told(old(failures)@) + self.flaws(i as nat),
            final(words)@ == old(words)@ + self.content(),
    ;
}

/// What is wrong with the first `n` outcomes.
pub open spec fn flaws_of<T: Outcome>(c: Seq<T>, n: nat) -> Seq<(Seq<char>, Seq<char>)>
    decreases n,
{
    if n == 0 {
        Seq::empty()
    } else {
        flaws_of(c, (n - 1) as nat) + c[n - 1].flaws((n - 1) as nat)
    }
}

/// What the first `n` outcomes put on record.
pub open spec fn contents_of<T: Outcome>(c: Seq<T>, n: nat) -> Seq<u64>
    decreases n,
{
    if n == 0 {
        Seq::empty()
    } else {
        contents_of(c, (n - 1) as nat) + c[n - 1].content()
    }
}

/// How many cases the first `n` outcomes stand for.
pub open spec fn weights_of<T: Outcome>(c: Seq<T>, n: nat) -> nat
    decreases n,
{
    if n == 0 {
        0
    } else {
        weights_of(c, (n - 1) as nat) + c[n - 1].weight()
    }
}

proof fn lemma_weights_grow<T: Outcome>(c: Seq<T>, n: nat, m: nat)
    requires
        n <= m,
    ensures
        weights_of(c, n) <= weights_of(c, m),
    decreases m,
{
    if n < m {
        lemma_weights_grow(c, n, (m - 1) as nat);
    }
}

/// Judges and records outcomes in turn.
pub fn judge_all<T: Outcome>(c: &[T], failures: &mut Vec<Failure>, words: &mut Vec<u64>) -> (n: usize)
    requires
        weights_of(c@, c@.len()) <= usize::MAX,
    ensures
        n == weights_of(c@, c@.len()),
        told(final(failures)@) == told(old(failures)@) + flaws_of(c@, c@.len()),
        final(words)@ == old(words)@ + contents_of(c@, c@.len()),
{
    let ghost was = told(failures@);
    let ghost before = words@;
    let mut n: usize = 0;
    let mut i: usize = 0;
    assert(was =~= was + flaws_of(c@, 0));
    assert(before =~= before + contents_of(c@, 0));
    while i < c.len()
        invariant
            i <= c@.len(),
            weights_of(c@, c@.len()) <= usize::MAX,
            n == weights_of(c@, i as nat),
            told(failures@) == was + flaws_of(c@, i as nat),
            words@ == before + contents_of(c@, i as nat),
        decreases c@.len() - i,
    {
        proof {
            lemma_weights_grow(c@, (i + 1) as nat, c@.len());
        }
        let k: usize = c[i].judge(i, failures, words);
        n = n + k;
        i = i + 1;
        assert(told(failures@) =~= was + flaws_of(c@, i as nat));
        assert(words@ =~= before + contents_of(c@, i as nat));
    }
    n
}

/// No flaw, or one.
pub open spec fn flaw_if(wrong: bool, name: Seq<char>, detail: Seq<char>) -> Seq<(Seq<char>, Seq<char>)> {
    if wrong {
        seq![(name, detail)]
    } else {
        Seq::empty()
    }
}

/// A name that ends in a number.
pub open spec fn numbered(kind: Seq<char>, i: nat) -> Seq<char> {
    kind + decimal_text(i)
}

/// A failure under a name that ends in a number, if something is wrong.
pub(crate) fn say_if(wrong: bool, kind: &str, i: usize, detail: &str, failures: &mut Vec<Failure>)
    ensures
        told(final(failures)@) == told(old(failures)@) + flaw_if(wrong, numbered(kind@, i as nat), detail@),
{
    if wrong {
        let mut case: String = String::new();
        case.append(kind);
        push_number(&mut case, i as u64);
        assert(case@ =~= numbered(kind@, i as nat));
        let mut text: String = String::new();
        text.append(detail);
        assert(text@ =~= detail@);
        tell(failures, Failure { case, detail: text });
    } else {
        assert(told(failures@) =~= told(failures@) + Seq::<(Seq<char>, Seq<char>)>::empty());
    }
}

/// Numbers on record.
pub open spec fn number_words(s: Seq<Double>) -> Seq<u64> {
    s.map_values(|d: Double| plain_bits(d))
}

/// Puts numbers on record.
pub(crate) fn write_numbers(s: &[Double], words: &mut Vec<u64>)
    ensures
        final(words)@ == old(words)@ + number_words(s@),
{
    let ghost before = words@;
    let mut i: usize = 0;
    assert(words@ =~= before + number_words(s@.take(0)));
    while i < s.len()
        invariant
            i <= s@.len(),
            words@ == before + number_words(s@.take(i as int)),
        decreases s@.len() - i,
    {
        words.push(plain(s[i]));
        i = i + 1;
        assert(words@ =~= before + number_words(s@.take(i as int)));
    }
    assert(s@.take(i as int) =~= s@);
}

/// Puts words on record.
pub(crate) fn write_all(s: &[u64], words: &mut Vec<u64>)
    ensures
        final(words)@ == old(words)@ + s@,
{
    let ghost before = words@;
    let mut i: usize = 0;
    assert(words@ =~= before + s@.take(0));
    while i < s.len()
        invariant
            i <= s@.len(),
            words@ == before + s@.take(i as int),
        decreases s@.len() - i,
    {
        words.push(s[i]);
        i = i + 1;
        assert(words@ =~= before + s@.take(i as int));
    }
    assert(s@.take(i as int) =~= s@);
}

/// Bytes on record.
pub open spec fn byte_words(s: Seq<u8>) -> Seq<u64> {
    s.map_values(|b: u8| b as u64)
}

/// Puts bytes on record.
pub(crate) fn write_bytes(s: &[u8], words: &mut Vec<u64>)
    ensures
        final(words)@ == old(words)@ + byte_words(s@),
{
    let ghost before = words@;
    let mut i: usize = 0;
    assert(words@ =~= before + byte_words(s@.take(0)));
    while i < s.len()
        invariant
            i <= s@.len(),
            words@ == before + byte_words(s@.take(i as int)),
        decreases s@.len() - i,
    {
        words.push(s[i] as u64);
        i = i + 1;
        assert(words@ =~= before + byte_words(s@.take(i as int)));
    }
    assert(s@.take(i as int) =~= s@);
}

/// A point on record.
pub open spec fn point_words(p: Vec3) -> Seq<u64> {
    seq![plain_bits(p.x), plain_bits(p.y), plain_bits(p.z)]
}

/// Puts a point on record.
pub(crate) fn write_point(p: Vec3, words: &mut Vec<u64>)
    ensures
        final(words)@ == old(words)@ + point_words(p),
{
    let ghost before = words@;
    words.push(plain(p.x));
    words.push(plain(p.y));
    words.push(plain(p.z));
    assert(words@ =~= before + point_words(p));
}

/// A matrix on record, row by row.
pub open spec fn matrix_words(m: Mat4) -> Seq<u64> {
    Seq::new(16, |k: int| plain_bits(m.rows[k / 4][k % 4]))
}

/// Puts a matrix on record.
pub(crate) fn write_matrix(m: &Mat4, words: &mut Vec<u64>)
    ensures
        final(words)@ == old(words)@ + matrix_words(*m),
{
    let ghost before = words@;
    let mut k: usize = 0;
    assert(words@ =~= before + matrix_words(*m).take(0));
    while k < 16
        invariant
            k <= 16,
            words@ == before + matrix_words(*m).take(k as int),
        decreases 16 - k,
    {
        let x: Double = m.rows[k / 4][k % 4];
        words.push(plain(x));
        k = k + 1;
        assert(words@ =~= before + matrix_words(*m).take(k as int));
    }
    assert(matrix_words(*m).take(16) =~= matrix_words(*m));
}

/// The heading of a record: the name of its suite.
pub open spec fn heading(name: Seq<char>) -> Seq<u64> {
    list_words(name)
}

} // verus!
