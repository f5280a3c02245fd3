//! What a value comes to in words of 64 bits, on every machine alike.
//!
//! The words of a value delimit themselves, so that two values whose words agree
//! hold the same, whatever follows them. Numbers count by their bit patterns, but
//! both zeros are one number, and so is every NaN.

use crate::double::{Double, NAN_BITS};
use crate::math::{OctNormal, Vec2, Vec3};
use crate::mesh::bvh::casting::Hit;
use crate::mesh::bvh::tree::BvhNode;
use crate::mesh::bvh::Bvh;
use crate::roots::{Root, RootSet};
use crate::spans::{Span, Spans};
use vstd::prelude::*;

verus! {

/// A value that can be put down in words.
pub trait Canonical: Sized {
    /// The words of the value.
    spec fn words(self) -> Seq<u64>;

    /// The values hold the same.
    spec fn agrees(self, other: Self) -> bool;

    /// Values whose words agree hold the same, and so does what follows them.
    proof fn delimits(self, other: Self, p: Seq<u64>, q: Seq<u64>)
        requires
            self.words() + p == other.words() + q,
        ensures
            self.agrees(other),
            p == q,
    ;

    /// Puts the words behind others.
    fn write_words(&self, out: &mut Vec<u64>)
        ensures
            final(out)@ == old(out)@ + self.words(),
    ;
}

/// The words of a value.
pub fn digest<T: Canonical>(x: &T) -> (v: Vec<u64>)
    ensures
        v@ == x.words(),
{
    let mut v: Vec<u64> = Vec::new();
    x.write_words(&mut v);
    assert(v@ =~= x.words());
    v
}

/// Two values have the same words only if they hold the same.
pub proof fn law_digest_tells_apart<T: Canonical>(x: T, y: T)
    requires
        x.words() == y.words(),
    ensures
        x.agrees(y),
{
    x.delimits(y, Seq::empty(), Seq::empty());
}

/// The words of the first `n` values, with a one in front of each.
pub open spec fn listed<T: Canonical>(s: Seq<T>, n: nat) -> Seq<u64>
    decreases n,
{
    if n == 0 {
        Seq::empty()
    } else {
        listed(s, (n - 1) as nat) + (seq![1u64] + s[n - 1].words())
    }
}

/// The words of a list: those of its values, each behind a one, and a zero at the
/// end.
pub open spec fn list_words<T: Canonical>(s: Seq<T>) -> Seq<u64> {
    listed(s, s.len()) + seq![0u64]
}

/// Two lists hold the same values in the same order.
pub open spec fn lists_agree<T: Canonical>(s: Seq<T>, t: Seq<T>) -> bool {
    s.len() == t.len() && forall|i: int| 0 <= i < s.len() ==> (#[trigger] s[i]).agrees(t[i])
}

/// The words of the values from `k` on.
spec fn listed_from<T: Canonical>(s: Seq<T>, k: int) -> Seq<u64>
    decreases s.len() - k,
{
    if k >= s.len() {
        seq![0u64]
    } else {
        seq![1u64] + (s[k].words() + listed_from(s, k + 1))
    }
}

proof fn lemma_listed<T: Canonical>(s: Seq<T>, k: nat)
    requires
        k <= s.len(),
    ensures
        list_words(s) == listed(s, k) + listed_from(s, k as int),
    decreases s.len() - k,
{
    if k < s.len() {
        lemma_listed(s, k + 1);
        assert(listed(s, k) + listed_from(s, k as int) =~= listed(s, k + 1) + listed_from(s, k as int + 1));
    }
}

proof fn lemma_rest_delimits<T: Canonical>(s: Seq<T>, t: Seq<T>, k: int, p: Seq<u64>, q: Seq<u64>)
    requires
        0 <= k <= s.len(),
        0 <= k <= t.len(),
        listed_from(s, k) + p == listed_from(t, k) + q,
    ensures
        s.len() == t.len(),
        forall|i: int| k <= i < s.len() ==> (#[trigger] s[i]).agrees(t[i]),
        p == q,
    decreases s.len() - k,
{
    let a = listed_from(s, k) + p;
    let b = listed_from(t, k) + q;
    assert(a[0] == b[0]);
    if k < s.len() {
        assert(a[0] == 1);
        assert(k < t.len());
        let x = listed_from(s, k + 1) + p;
        let y = listed_from(t, k + 1) + q;
        assert(a.skip(1) =~= s[k].words() + x);
        assert(b.skip(1) =~= t[k].words() + y);
        s[k].delimits(t[k], x, y);
        lemma_rest_delimits(s, t, k + 1, p, q);
    } else {
        assert(a[0] == 0);
        assert(k == t.len());
        assert(a.skip(1) =~= p);
        assert(b.skip(1) =~= q);
    }
}

/// The words of a list delimit themselves.
pub proof fn law_lists_delimit<T: Canonical>(s: Seq<T>, t: Seq<T>, p: Seq<u64>, q: Seq<u64>)
    requires
        list_words(s) + p == list_words(t) + q,
    ensures
        lists_agree(s, t),
        p == q,
{
    lemma_listed(s, 0);
    lemma_listed(t, 0);
    assert(listed(s, 0) + listed_from(s, 0) =~= listed_from(s, 0));
    assert(listed(t, 0) + listed_from(t, 0) =~= listed_from(t, 0));
    lemma_rest_delimits(s, t, 0, p, q);
}

/// Puts the words of a list behind others.
pub fn write_list<T: Canonical>(s: &[T], out: &mut Vec<u64>)
    ensures
        final(out)@ == old(out)@ + list_words(s@),
{
    let ghost was = out@;
    let mut i: usize = 0;
    assert(out@ =~= was + listed(s@, 0));
    while i < s.len()
        invariant
            i <= s@.len(),
            out@ == was + listed(s@, i as nat),
        decreases s@.len() - i,
    {
        out.push(1);
        s[i].write_words(out);
        i = i + 1;
        assert(out@ =~= was + listed(s@, i as nat));
    }
    out.push(0);
    assert(out@ =~= was + list_words(s@));
}

/// Whether two lists of words are the same.
pub fn same_words(a: &Vec<u64>, b: &Vec<u64>) -> (r: bool)
    ensures
        r == (a@ == b@),
{
    if a.len() != b.len() {
        return false;
    }
    let mut i: usize = 0;
    while i < a.len()
        invariant
            i <= a@.len(),
            a@.len() == b@.len(),
            forall|k: int| 0 <= k < i ==> a@[k] == b@[k],
        decreases a@.len() - i,
    {
        if a[i] != b[i] {
            assert(a@[i as int] != b@[i as int]);
            return false;
        }
        i = i + 1;
    }
    assert(a@ =~= b@);
    true
}

/// What begins with the same words goes on alike.
pub proof fn lemma_same_width(a: Seq<u64>, b: Seq<u64>, p: Seq<u64>, q: Seq<u64>)
    requires
        a.len() == b.len(),
        a + p == b + q,
    ensures
        a == b,
        p == q,
{
    let x = a + p;
    let y = b + q;
    assert(a =~= x.take(a.len() as int));
    assert(b =~= y.take(b.len() as int));
    assert(p =~= x.skip(a.len() as int));
    assert(q =~= y.skip(b.len() as int));
}

/// The pattern that stands for a number: one for both zeros, and one for every
/// NaN.
pub open spec fn plain_bits(d: Double) -> u64 {
    if d.zero() {
        0
    } else if d.nan() {
        NAN_BITS
    } else {
        d.bits
    }
}

/// Two numbers are the same double, both zero or both a NaN.
pub open spec fn alike(a: Double, b: Double) -> bool {
    a == b || (a.zero() && b.zero()) || (a.nan() && b.nan())
}

/// The pattern that stands for a number.
pub(crate) fn plain(d: Double) -> (b: u64)
    ensures
        b == plain_bits(d),
{
    if d.is_zero() {
        0
    } else if d.is_nan() {
        NAN_BITS
    } else {
        d.to_bits()
    }
}

/// Numbers share a pattern exactly when they are alike.
pub proof fn law_patterns_stand_for_numbers(a: Double, b: Double)
    ensures
        plain_bits(a) == plain_bits(b) <==> alike(a, b),
{
}

impl Canonical for Double {
    open spec fn words(self) -> Seq<u64> {
        seq![plain_bits(self)]
    }

    open spec fn agrees(self, other: Self) -> bool {
        alike(self, other)
    }

    proof fn delimits(self, other: Self, p: Seq<u64>, q: Seq<u64>) {
        lemma_same_width(self.words(), other.words(), p, q);
        assert(self.words()[0] == other.words()[0]);
        law_patterns_stand_for_numbers(self, other);
    }

    fn write_words(&self, out: &mut Vec<u64>) {
        let ghost was = out@;
        out.push(plain(*self));
        assert(out@ =~= was + self.words());
    }
}

impl Canonical for u32 {
    open spec fn words(self) -> Seq<u64> {
        seq![self as u64]
    }

    open spec fn agrees(self, other: Self) -> bool {
        self == other
    }

    proof fn delimits(self, other: Self, p: Seq<u64>, q: Seq<u64>) {
        lemma_same_width(self.words(), other.words(), p, q);
        assert(self.words()[0] == other.words()[0]);
    }

    fn write_words(&self, out: &mut Vec<u64>) {
        let ghost was = out@;
        out.push(*self as u64);
        assert(out@ =~= was + self.words());
    }
}

impl Canonical for Vec2 {
    open spec fn words(self) -> Seq<u64> {
        seq![plain_bits(self.x), plain_bits(self.y)]
    }

    open spec fn agrees(self, other: Self) -> bool {
        alike(self.x, other.x) && alike(self.y, other.y)
    }

    proof fn delimits(self, other: Self, p: Seq<u64>, q: Seq<u64>) {
        lemma_same_width(self.words(), other.words(), p, q);
        assert(self.words()[0] == other.words()[0]);
        assert(self.words()[1] == other.words()[1]);
        law_patterns_stand_for_numbers(self.x, other.x);
        law_patterns_stand_for_numbers(self.y, other.y);
    }

    fn write_words(&self, out: &mut Vec<u64>) {
        let ghost was = out@;
        out.push(plain(self.x));
        out.push(plain(self.y));
        assert(out@ =~= was + self.words());
    }
}

impl Canonical for Vec3 {
    open spec fn words(self) -> Seq<u64> {
        seq![plain_bits(self.x), plain_bits(self.y), plain_bits(self.z)]
    }

    open spec fn agrees(self, other: Self) -> bool {
        alike(self.x, other.x) && alike(self.y, other.y) && alike(self.z, other.z)
    }

    proof fn delimits(self, other: Self, p: Seq<u64>, q: Seq<u64>) {
        lemma_same_width(self.words(), other.words(), p, q);
        assert(self.words()[0] == other.words()[0]);
        assert(self.words()[1] == other.words()[1]);
        assert(self.words()[2] == other.words()[2]);
        law_patterns_stand_for_numbers(self.x, other.x);
        law_patterns_stand_for_numbers(self.y, other.y);
        law_patterns_stand_for_numbers(self.z, other.z);
    }

    fn write_words(&self, out: &mut Vec<u64>) {
        let ghost was = out@;
        out.push(plain(self.x));
        out.push(plain(self.y));
        out.push(plain(self.z));
        assert(out@ =~= was + self.words());
    }
}

/// A value that may be missing, as a list of at most one.
pub open spec fn option_words(n: OctNormal) -> Seq<u64> {
    match n.direction {
        None => seq![0u64],
        Some(v) => seq![1u64] + v.words(),
    }
}

impl Canonical for OctNormal {
    open spec fn words(self) -> Seq<u64> {
        option_words(self)
    }

    open spec fn agrees(self, other: Self) -> bool {
        match (self.direction, other.direction) {
            (None, None) => true,
            (Some(a), Some(b)) => a.agrees(b),
            _ => false,
        }
    }

    proof fn delimits(self, other: Self, p: Seq<u64>, q: Seq<u64>) {
        assert((self.words() + p)[0] == (other.words() + q)[0]);
        assert((self.words() + p)[0] == self.words()[0] && (other.words() + q)[0] == other.words()[0]);
        assert((self.direction is Some) == (other.direction is Some));
        lemma_same_width(self.words(), other.words(), p, q);
        if self.direction is Some {
            let a = self.direction->Some_0;
            let b = other.direction->Some_0;
            assert(self.words().skip(1) =~= a.words());
            assert(other.words().skip(1) =~= b.words());
            assert(a.words() + p == b.words() + p);
            a.delimits(b, p, p);
        }
    }

    fn write_words(&self, out: &mut Vec<u64>) {
        let ghost was = out@;
        match &self.direction {
            None => {
                out.push(0);
            },
            Some(v) => {
                out.push(1);
                v.write_words(out);
            },
        }
        assert(out@ =~= was + self.words());
    }
}

impl Canonical for Span {
    open spec fn words(self) -> Seq<u64> {
        seq![plain_bits(self.t0), plain_bits(self.t1)] + (self.n0.words() + self.n1.words())
    }

    open spec fn agrees(self, other: Self) -> bool {
        alike(self.t0, other.t0) && alike(self.t1, other.t1) && self.n0.agrees(other.n0) && self.n1.agrees(other.n1)
    }

    proof fn delimits(self, other: Self, p: Seq<u64>, q: Seq<u64>) {
        let a = seq![plain_bits(self.t0), plain_bits(self.t1)];
        let b = seq![plain_bits(other.t0), plain_bits(other.t1)];
        let x = self.n1.words() + p;
        let y = other.n1.words() + q;
        assert(self.words() + p =~= a + (self.n0.words() + x));
        assert(other.words() + q =~= b + (other.n0.words() + y));
        lemma_same_width(a, b, self.n0.words() + x, other.n0.words() + y);
        assert(a[0] == b[0] && a[1] == b[1]);
        law_patterns_stand_for_numbers(self.t0, other.t0);
        law_patterns_stand_for_numbers(self.t1, other.t1);
        self.n0.delimits(other.n0, x, y);
        self.n1.delimits(other.n1, p, q);
    }

    fn write_words(&self, out: &mut Vec<u64>) {
        let ghost was = out@;
        out.push(plain(self.t0));
        out.push(plain(self.t1));
        self.n0.write_words(out);
        self.n1.write_words(out);
        assert(out@ =~= was + self.words());
    }
}

impl Canonical for Spans {
    open spec fn words(self) -> Seq<u64> {
        list_words(self@)
    }

    open spec fn agrees(self, other: Self) -> bool {
        lists_agree(self@, other@)
    }

    proof fn delimits(self, other: Self, p: Seq<u64>, q: Seq<u64>) {
        law_lists_delimit(self@, other@, p, q);
    }

    fn write_words(&self, out: &mut Vec<u64>) {
        write_list(self.as_slice(), out);
    }
}

impl Canonical for Root {
    open spec fn words(self) -> Seq<u64> {
        seq![plain_bits(self.value), self.multiplicity as u64]
    }

    open spec fn agrees(self, other: Self) -> bool {
        alike(self.value, other.value) && self.multiplicity == other.multiplicity
    }

    proof fn delimits(self, other: Self, p: Seq<u64>, q: Seq<u64>) {
        lemma_same_width(self.words(), other.words(), p, q);
        assert(self.words()[0] == other.words()[0]);
        assert(self.words()[1] == other.words()[1]);
        law_patterns_stand_for_numbers(self.value, other.value);
    }

    fn write_words(&self, out: &mut Vec<u64>) {
        let ghost was = out@;
        out.push(plain(self.value));
        out.push(self.multiplicity as u64);
        assert(out@ =~= was + self.words());
    }
}

impl Canonical for RootSet {
    open spec fn words(self) -> Seq<u64> {
        seq![self.degree as u64] + list_words(self.held())
    }

    open spec fn agrees(self, other: Self) -> bool {
        lists_agree(self.held(), other.held()) && self.degree == other.degree
    }

    proof fn delimits(self, other: Self, p: Seq<u64>, q: Seq<u64>) {
        let a = seq![self.degree as u64];
        let b = seq![other.degree as u64];
        assert(self.words() + p =~= a + (list_words(self.held()) + p));
        assert(other.words() + q =~= b + (list_words(other.held()) + q));
        lemma_same_width(a, b, list_words(self.held()) + p, list_words(other.held()) + q);
        assert(a[0] == b[0]);
        law_lists_delimit(self.held(), other.held(), p, q);
    }

    fn write_words(&self, out: &mut Vec<u64>) {
        let ghost was = out@;
        out.push(self.degree as u64);
        write_list(self.list.as_slice(), out);
        assert(out@ =~= was + self.words());
    }
}

impl Canonical for Hit {
    open spec fn words(self) -> Seq<u64> {
        seq![plain_bits(self.t), self.triangle as u64, if self.entering { 1u64 } else { 0u64 }]
    }

    open spec fn agrees(self, other: Self) -> bool {
        alike(self.t, other.t) && self.triangle == other.triangle && self.entering == other.entering
    }

    proof fn delimits(self, other: Self, p: Seq<u64>, q: Seq<u64>) {
        lemma_same_width(self.words(), other.words(), p, q);
        assert(self.words()[0] == other.words()[0]);
        assert(self.words()[1] == other.words()[1]);
        assert(self.words()[2] == other.words()[2]);
        law_patterns_stand_for_numbers(self.t, other.t);
    }

    fn write_words(&self, out: &mut Vec<u64>) {
        let ghost was = out@;
        out.push(plain(self.t));
        out.push(self.triangle as u64);
        out.push(if self.entering { 1 } else { 0 });
        assert(out@ =~= was + self.words());
    }
}

impl Canonical for BvhNode {
    open spec fn words(self) -> Seq<u64> {
        self.bounds.min.words() + (self.bounds.max.words() + seq![self.first_or_left as u64, self.count as u64])
    }

    open spec fn agrees(self, other: Self) -> bool {
        &&& self.bounds.min.agrees(other.bounds.min)
        &&& self.bounds.max.agrees(other.bounds.max)
        &&& self.first_or_left == other.first_or_left
        &&& self.count == other.count
    }

    proof fn delimits(self, other: Self, p: Seq<u64>, q: Seq<u64>) {
        lemma_same_width(self.words(), other.words(), p, q);
        let tail = seq![self.first_or_left as u64, self.count as u64];
        let last = seq![other.first_or_left as u64, other.count as u64];
        self.bounds.min.delimits(other.bounds.min, self.bounds.max.words() + tail, other.bounds.max.words() + last);
        self.bounds.max.delimits(other.bounds.max, tail, last);
        assert(tail[0] == last[0] && tail[1] == last[1]);
    }

    fn write_words(&self, out: &mut Vec<u64>) {
        let ghost was = out@;
        self.bounds.min.write_words(out);
        self.bounds.max.write_words(out);
        out.push(self.first_or_left as u64);
        out.push(self.count as u64);
        assert(out@ =~= was + self.words());
    }
}

impl Canonical for Bvh {
    open spec fn words(self) -> Seq<u64> {
        list_words(self.node_list()) + list_words(self.triangle_order())
    }

    open spec fn agrees(self, other: Self) -> bool {
        lists_agree(self.node_list(), other.node_list()) && self.triangle_order() == other.triangle_order()
    }

    proof fn delimits(self, other: Self, p: Seq<u64>, q: Seq<u64>) {
        let x = list_words(self.triangle_order()) + p;
        let y = list_words(other.triangle_order()) + q;
        assert(self.words() + p =~= list_words(self.node_list()) + x);
        assert(other.words() + q =~= list_words(other.node_list()) + y);
        law_lists_delimit(self.node_list(), other.node_list(), x, y);
        law_lists_delimit(self.triangle_order(), other.triangle_order(), p, q);
        assert forall|i: int| 0 <= i < self.triangle_order().len() implies self.triangle_order()[i]
            == other.triangle_order()[i] by {
            assert(self.triangle_order()[i].agrees(other.triangle_order()[i]));
        }
        assert(self.triangle_order() =~= other.triangle_order());
    }

    fn write_words(&self, out: &mut Vec<u64>) {
        let ghost was = out@;
        write_list(self.nodes(), out);
        write_list(self.order(), out);
        assert(out@ =~= was + self.words());
    }
}

impl Bvh {
    /// The words of the tree's shape and bounds.
    pub fn topology_digest(&self) -> (v: Vec<u64>)
        ensures
            v@ == self.words(),
    {
        digest(self)
    }
}

/// Hierarchies with the same words have the same nodes, bound for bound, and the
/// same order: another tree gives other words.
pub proof fn law_topology_words_tell_trees_apart(a: Bvh, b: Bvh)
    requires
        a.words() == b.words(),
    ensures
        lists_agree(a.node_list(), b.node_list()),
        a.triangle_order() == b.triangle_order(),
{
    let none = Seq::<u64>::empty();
    assert(a.words() + none =~= b.words() + none);
    a.delimits(b, none, none);
}

} // verus!
