//! Reproducible real roots of polynomials up to degree four.
//!
//! At a double root a double resolves eight digits and not sixteen, so two roots
//! closer than that count as one. Coefficients are in descending degree.

use crate::arithmetic::{difference, of_int, product, quotient, sum};
use crate::double::Double;
use crate::double_root::law_double_root_is_finite;
use crate::math::{greater, max_number};
use crate::mesh::sphere::lemma_rounds_at_most;
use crate::order::law_order_is_value_order;
use crate::rounding::{lemma_pow2_53, lemma_quotient_range};
use crate::sorting::{law_sorted_is_unique, lemma_ascending_exists, lemma_same_values, sort, sorted, Ranked};
use crate::square_root::root;
use vstd::arithmetic::power2::*;
use vstd::prelude::*;

verus! {

/// Largest number of distinct real roots a quartic can have.
pub const MAX_ROOTS: usize = 4;

/// Bits of the ratio, a hundred trillionth, up to which a leading coefficient is
/// negligible against the rest.
pub const ROOT_DEGENERACY_TAU: u64 = 0x3d06_849b_86a1_2b9b;

/// Bits of the relative accuracy of a double root, the root of the spacing of
/// doubles at one.
pub const SQRT_EPSILON: u64 = 0x3e50_0000_0000_0000;

/// Bits of the multiple of [`SQRT_EPSILON`], four, that two roots may be apart to
/// count as one.
pub const ROOT_CLUSTER_FACTOR: u64 = 0x4010_0000_0000_0000;

/// Bits of the multiple of the spacing of doubles at one, eight, that a
/// discriminant may be of its terms to count as zero.
pub const DISCRIMINANT_SNAP: u64 = 0x4020_0000_0000_0000;

/// Bits of the spacing of doubles at one.
pub const EPSILON: u64 = 0x3cb0_0000_0000_0000;

impl Ranked for Double {
    open spec fn at_most(self, other: Self) -> bool {
        self.total_key() <= other.total_key()
    }

    proof fn total(self, other: Self) {
    }

    proof fn transitive(self, mid: Self, other: Self) {
    }

    proof fn antisymmetric(self, other: Self) {
    }

    fn is_at_most(self, other: Self) -> (r: bool) {
        self.total_order() <= other.total_order()
    }
}

/// A root, and how often it counts.
#[derive(Clone, Copy, Debug, PartialEq, Eq, Structural)]
pub struct Root {
    /// The value.
    pub value: Double,
    /// The multiplicity.
    pub multiplicity: u8,
}

/// The real roots of a polynomial: distinct values, ascending.
#[derive(Debug)]
pub struct RootSet {
    /// The roots.
    pub list: Vec<Root>,
    /// The degree solved, after any reduction.
    pub degree: u8,
}

/// What a set of roots says.
#[verifier::ext_equal]
pub struct RootSetView {
    /// The roots.
    pub roots: Seq<Root>,
    /// The degree solved.
    pub degree: int,
}

impl View for RootSet {
    type V = RootSetView;

    open spec fn view(&self) -> RootSetView {
        RootSetView { roots: self.list@, degree: self.degree as int }
    }
}

impl RootSet {
    /// The roots.
    pub open spec fn held(self) -> Seq<Root> {
        self.list@
    }

    /// At most four roots, strictly ascending, each counted at least once and all
    /// of them no more often than the degree solved.
    pub open spec fn proper(self) -> bool {
        let s = self.held();
        &&& s.len() <= 4
        &&& forall|i: int| 0 <= i < s.len() ==> (#[trigger] s[i]).multiplicity >= 1
        &&& forall|i: int, j: int| 0 <= i < j < s.len() ==> (#[trigger] s[i]).value.lt((#[trigger] s[j]).value)
        &&& multiplicities(s, s.len()) <= self.degree <= 4
    }

    /// Every root is finite.
    pub open spec fn finite(self) -> bool {
        forall|i: int| 0 <= i < self.held().len() ==> (#[trigger] self.held()[i]).value.finite()
    }
}

/// The roots of the first `n` entries, counted with repetition.
pub open spec fn multiplicities(s: Seq<Root>, n: nat) -> int
    decreases n,
{
    if n == 0 {
        0
    } else {
        multiplicities(s, (n - 1) as nat) + s[n - 1].multiplicity
    }
}

/// The finite numbers among the first `n`, the first four of them.
pub open spec fn usable(raw: Seq<Double>, n: nat) -> Seq<Double>
    decreases n,
{
    if n == 0 {
        Seq::empty()
    } else {
        let rest = usable(raw, (n - 1) as nat);
        if raw[n - 1].finite() && rest.len() < 4 {
            rest.push(raw[n - 1])
        } else {
            rest
        }
    }
}

/// Numbers in ascending order.
pub open spec fn ordered(s: Seq<Double>) -> Seq<Double> {
    choose|t: Seq<Double>| sorted(t) && t.to_multiset() == s.to_multiset()
}

/// Two roots count as one: their distance, against their magnitude.
pub open spec fn coincide(previous: Double, r: Double) -> bool {
    difference(r, previous).absolute().le(
        product(
            product(Double { bits: ROOT_CLUSTER_FACTOR }, Double { bits: SQRT_EPSILON }),
            greater(previous.absolute(), r.absolute()),
        ),
    )
}

/// The first `n` numbers, with each that coincides with the root in front of it
/// counted to that.
pub open spec fn clustered(s: Seq<Double>, n: nat) -> Seq<Root>
    decreases n,
{
    if n == 0 {
        Seq::empty()
    } else {
        let c = clustered(s, (n - 1) as nat);
        let r = s[n - 1];
        if c.len() > 0 && coincide(c.last().value, r) {
            c.update(
                c.len() - 1,
                Root { value: c.last().value, multiplicity: (c.last().multiplicity + 1) as u8 },
            )
        } else {
            c.push(Root { value: r, multiplicity: 1 })
        }
    }
}

/// The roots that raw numbers come to: finite, in order, and clustered.
pub open spec fn gathered(raw: Seq<Double>) -> Seq<Root> {
    let s = ordered(usable(raw, raw.len()));
    clustered(s, s.len())
}

proof fn lemma_usable_bounds(raw: Seq<Double>, n: nat)
    ensures
        usable(raw, n).len() <= 4,
        usable(raw, n).len() <= n,
    decreases n,
{
    if n > 0 {
        lemma_usable_bounds(raw, (n - 1) as nat);
    }
}

/// Every number is counted once, and no cluster is empty.
pub proof fn law_clusters_count(s: Seq<Double>, n: nat)
    requires
        n <= s.len(),
        s.len() <= 4,
    ensures
        multiplicities(clustered(s, n), clustered(s, n).len()) == n,
        clustered(s, n).len() <= n,
        forall|i: int| 0 <= i < clustered(s, n).len() ==> 1 <= (#[trigger] clustered(s, n)[i]).multiplicity <= n,
    decreases n,
{
    if n > 0 {
        law_clusters_count(s, (n - 1) as nat);
        let c = clustered(s, (n - 1) as nat);
        let d = clustered(s, n);
        if c.len() > 0 && coincide(c.last().value, s[n - 1]) {
            lemma_multiplicities_agree(c, d, (c.len() - 1) as nat);
        } else {
            lemma_multiplicities_agree(c, d, c.len());
        }
    }
}

proof fn lemma_multiplicities_agree(c: Seq<Root>, d: Seq<Root>, n: nat)
    requires
        n <= c.len(),
        n <= d.len(),
        forall|i: int| 0 <= i < n ==> #[trigger] c[i] == d[i],
    ensures
        multiplicities(c, n) == multiplicities(d, n),
    decreases n,
{
    if n > 0 {
        lemma_multiplicities_agree(c, d, (n - 1) as nat);
    }
}

/// Roots ascend.
pub proof fn law_clusters_ascend(s: Seq<Double>, n: nat)
    requires
        n <= s.len(),
        sorted(s),
        forall|i: int| 0 <= i < s.len() ==> (#[trigger] s[i]).finite(),
    ensures
        forall|i: int, j: int|
            0 <= i < j < clustered(s, n).len() ==> (#[trigger] clustered(s, n)[i]).value.total_key() <= (
            #[trigger] clustered(s, n)[j]).value.total_key(),
        forall|i: int|
            0 <= i < clustered(s, n).len() ==> n > 0 && (#[trigger] clustered(s, n)[i]).value.total_key() <= s[n
                - 1].total_key(),
    decreases n,
{
    if n > 0 {
        law_clusters_ascend(s, (n - 1) as nat);
        let c = clustered(s, (n - 1) as nat);
        if n > 1 {
            assert(Ranked::at_most(s[n - 2], s[n - 1]));
        }
    }
}

/// Roots that do not count as one differ.
proof fn lemma_apart(previous: Double, r: Double)
    requires
        previous.finite(),
        r.finite(),
        previous.total_key() <= r.total_key(),
        !coincide(previous, r),
    ensures
        previous.key() < r.key(),
{
    if previous.key() == r.key() {
        law_order_is_value_order(previous, r);
        assert(r.value() + previous.negated().value() == 0);
        let gap = difference(r, previous).absolute();
        assert(gap.bits == 0);
        let factor = product(Double { bits: ROOT_CLUSTER_FACTOR }, Double { bits: SQRT_EPSILON });
        let size = greater(previous.absolute(), r.absolute());
        assert(size.finite() && !size.signed());
        lemma_cluster_factor();
        lemma_pow2_pos(1074);
        let limit = product(factor, size);
        lemma_quotient_range(factor.magnitude() * size.magnitude(), pow2(1074) as int);
        assert(!limit.nan() && limit.key() >= 0);
    }
}

/// How far apart roots may be to count as one is no more than one, against their
/// magnitude.
proof fn lemma_cluster_factor()
    ensures
        ({
            let f = product(Double { bits: ROOT_CLUSTER_FACTOR }, Double { bits: SQRT_EPSILON });
            f.finite() && !f.signed()
        }),
{
    let four = Double { bits: ROOT_CLUSTER_FACTOR };
    let tiny = Double { bits: SQRT_EPSILON };
    lemma_pow2_53();
    assert(four.magnitude() == 0x10_0000_0000_0000 * pow2(1024));
    assert(tiny.magnitude() == 0x10_0000_0000_0000 * pow2(996));
    lemma_pow2_adds(52, 1024);
    lemma_pow2_adds(52, 996);
    lemma_pow2_adds(1076, 1048);
    lemma_pow2_adds(1050, 1074);
    lemma_pow2_pos(1074);
    lemma_pow2_pos(2124);
    lemma_rounds_at_most(false, four.magnitude() * tiny.magnitude(), pow2(1074) as int, 1050);
}

/// The roots that raw numbers come to are finite and strictly ascending, at most
/// four and no more than the numbers, and count no number twice.
pub proof fn law_gathered_roots_ascend(raw: Seq<Double>)
    ensures
        gathered(raw).len() <= 4,
        multiplicities(gathered(raw), gathered(raw).len()) <= 4,
        multiplicities(gathered(raw), gathered(raw).len()) <= raw.len(),
        forall|i: int|
            0 <= i < gathered(raw).len() ==> (#[trigger] gathered(raw)[i]).multiplicity >= 1 && gathered(
                raw,
            )[i].value.finite(),
        forall|i: int, j: int|
            0 <= i < j < gathered(raw).len() ==> (#[trigger] gathered(raw)[i]).value.lt(
                (#[trigger] gathered(raw)[j]).value,
            ),
{
    let u = usable(raw, raw.len());
    let s = ordered(u);
    let w = lemma_ascending_exists(u);
    assert(sorted(w) && w.to_multiset() == u.to_multiset());
    lemma_same_values(s, u);
    lemma_usable_bounds(raw, raw.len());
    lemma_usable_finite(raw, raw.len());
    assert forall|i: int| 0 <= i < s.len() implies (#[trigger] s[i]).finite() by {
        assert(s.contains(s[i]));
        assert(u.contains(s[i]));
    }
    law_clusters_count(s, s.len());
    lemma_clusters_rise(s, s.len());
}

proof fn lemma_usable_finite(raw: Seq<Double>, n: nat)
    requires
        n <= raw.len(),
    ensures
        forall|x: Double| #[trigger] usable(raw, n).contains(x) ==> x.finite(),
    decreases n,
{
    if n > 0 {
        lemma_usable_finite(raw, (n - 1) as nat);
        let rest = usable(raw, (n - 1) as nat);
        assert forall|x: Double| #[trigger] usable(raw, n).contains(x) implies x.finite() by {
            let i = choose|i: int| 0 <= i < usable(raw, n).len() && usable(raw, n)[i] == x;
            if i < rest.len() {
                assert(rest[i] == x);
                assert(rest.contains(x));
            }
        }
    }
}

proof fn lemma_clusters_rise(s: Seq<Double>, n: nat)
    requires
        n <= s.len(),
        sorted(s),
        forall|i: int| 0 <= i < s.len() ==> (#[trigger] s[i]).finite(),
    ensures
        forall|i: int| 0 <= i < clustered(s, n).len() ==> (#[trigger] clustered(s, n)[i]).value.finite(),
        forall|i: int, j: int|
            0 <= i < j < clustered(s, n).len() ==> (#[trigger] clustered(s, n)[i]).value.key() < (
            #[trigger] clustered(s, n)[j]).value.key(),
    decreases n,
{
    if n > 0 {
        lemma_clusters_rise(s, (n - 1) as nat);
        law_clusters_ascend(s, (n - 1) as nat);
        let c = clustered(s, (n - 1) as nat);
        if c.len() > 0 {
            assert(Ranked::at_most(s[n - 2], s[n - 1]));
            assert(c[c.len() - 1].value.total_key() <= s[n - 2].total_key());
            if !coincide(c.last().value, s[n - 1]) {
                lemma_apart(c.last().value, s[n - 1]);
            }
        }
    }
}

fn coincides(previous: Double, r: Double) -> (b: bool)
    ensures
        b == coincide(previous, r),
{
    let limit: Double = Double::from_bits(ROOT_CLUSTER_FACTOR).times(Double::from_bits(SQRT_EPSILON)).times(
        max_number(previous.abs(), r.abs()),
    );
    r.minus(previous).abs().at_most(limit)
}

impl RootSet {
    /// No real roots.
    pub fn empty(degree: u8) -> (r: RootSet)
        ensures
            r.held() == Seq::<Root>::empty(),
            r.degree == degree,
            degree <= 4 ==> r.proper(),
            r.finite(),
    {
        RootSet { list: Vec::new(), degree }
    }

    /// Number of distinct real roots.
    pub fn len(&self) -> (n: usize)
        ensures
            n == self.held().len(),
    {
        self.list.len()
    }

    /// True if there are no real roots.
    pub fn is_empty(&self) -> (r: bool)
        ensures
            r == (self.held().len() == 0),
    {
        self.list.len() == 0
    }

    /// The distinct roots, ascending.
    pub fn roots(&self) -> (v: Vec<Double>)
        ensures
            v@ == Seq::new(self.held().len(), |i: int| self.held()[i].value),
    {
        let mut v: Vec<Double> = Vec::new();
        let mut i: usize = 0;
        while i < self.list.len()
            invariant
                i <= self.held().len(),
                v@ == Seq::new(i as nat, |k: int| self.held()[k].value),
            decreases self.held().len() - i,
        {
            v.push(self.list[i].value);
            i = i + 1;
            assert(v@ =~= Seq::new(i as nat, |k: int| self.held()[k].value));
        }
        v
    }

    /// Multiplicity of the `i`th distinct root.
    pub fn multiplicity(&self, i: usize) -> (m: u8)
        requires
            i < self.held().len(),
        ensures
            m == self.held()[i as int].multiplicity,
    {
        self.list[i].multiplicity
    }

    /// Roots counted with repetition.
    pub fn total_multiplicity(&self) -> (n: usize)
        requires
            self.held().len() <= 4,
        ensures
            n == multiplicities(self.held(), self.held().len()),
    {
        let mut n: usize = 0;
        let mut i: usize = 0;
        while i < self.list.len()
            invariant
                i <= self.held().len() <= 4,
                n == multiplicities(self.held(), i as nat),
                n <= 255 * i,
            decreases self.held().len() - i,
        {
            n = n + self.list[i].multiplicity as usize;
            i = i + 1;
        }
        n
    }

    /// The degree that was solved, after reduction.
    pub fn solved_degree(&self) -> (d: u8)
        ensures
            d == self.degree,
    {
        self.degree
    }

    /// Builds a set from raw roots: finite ones, at most four, in order, with
    /// coincident ones merged into the first of them.
    pub fn from_raw(raw: &[Double], degree: u8) -> (r: RootSet)
        ensures
            r.held() == gathered(raw@),
            r.degree == degree,
            r.held().len() <= 4,
            multiplicities(r.held(), r.held().len()) <= raw@.len(),
            multiplicities(r.held(), r.held().len()) <= 4,
            raw@.len() <= degree <= 4 || degree == 4 ==> r.proper(),
            r.finite(),
    {
        let mut kept: Vec<Double> = Vec::new();
        let mut i: usize = 0;
        while i < raw.len()
            invariant
                i <= raw@.len(),
                kept@ == usable(raw@, i as nat),
            decreases raw@.len() - i,
        {
            if raw[i].is_finite() && kept.len() < 4 {
                kept.push(raw[i]);
            }
            i = i + 1;
        }
        let arranged: Vec<Double> = sort(&kept);
        proof {
            lemma_usable_bounds(raw@, raw@.len());
            law_sorted_is_unique(arranged@, ordered(kept@));
        }
        let mut list: Vec<Root> = Vec::new();
        let mut k: usize = 0;
        while k < arranged.len()
            invariant
                k <= arranged@.len() <= 4,
                list@ == clustered(arranged@, k as nat),
            decreases arranged@.len() - k,
        {
            proof {
                law_clusters_count(arranged@, k as nat);
            }
            let n: usize = list.len();
            if n > 0 && coincides(list[n - 1].value, arranged[k]) {
                let last: Root = list[n - 1];
                assert(last.multiplicity <= 4);
                list.set(n - 1, Root { value: last.value, multiplicity: last.multiplicity + 1 });
            } else {
                list.push(Root { value: arranged[k], multiplicity: 1 });
            }
            k = k + 1;
        }
        proof {
            law_clusters_count(arranged@, arranged@.len());
            law_gathered_roots_ascend(raw@);
        }
        RootSet { list, degree }
    }
}

/// The value of the first `n` coefficients by Horner's rule.
pub open spec fn horner(c: Seq<Double>, x: Double, n: nat) -> Double
    decreases n,
{
    if n == 0 {
        Double { bits: 0 }
    } else {
        sum(product(horner(c, x, (n - 1) as nat), x), c[n - 1])
    }
}

/// Evaluates a polynomial by Horner's rule, coefficients in descending degree.
pub fn eval(coefficients: &[Double], x: Double) -> (r: Double)
    ensures
        r == horner(coefficients@, x, coefficients@.len()),
{
    let mut r: Double = Double::zeroed();
    let mut i: usize = 0;
    while i < coefficients.len()
        invariant
            i <= coefficients@.len(),
            r == horner(coefficients@, x, i as nat),
        decreases coefficients@.len() - i,
    {
        r = r.times(x).plus(coefficients[i]);
        i = i + 1;
    }
    r
}

/// The coefficients of the derivative.
pub open spec fn derivative(c: Seq<Double>) -> Seq<Double> {
    if c.len() < 2 {
        Seq::empty()
    } else {
        Seq::new((c.len() - 1) as nat, |i: int| product(c[i], of_int(c.len() - 1 - i)))
    }
}

/// The coefficients of the derivative, in descending degree.
pub fn derivative_coefficients(c: &[Double]) -> (v: Vec<Double>)
    requires
        c@.len() <= 0x7fff_ffff,
    ensures
        v@ == derivative(c@),
{
    let mut v: Vec<Double> = Vec::new();
    let n: usize = c.len();
    if n < 2 {
        return v;
    }
    let mut i: usize = 0;
    while i < n - 1
        invariant
            2 <= n == c@.len() <= 0x7fff_ffff,
            i <= n - 1,
            v@ == derivative(c@).subrange(0, i as int),
        decreases n - 1 - i,
    {
        v.push(c[i].times(Double::from_i64((n - 1 - i) as i64)));
        i = i + 1;
        assert(v@ =~= derivative(c@).subrange(0, i as int));
    }
    assert(v@ =~= derivative(c@));
    v
}

/// Evaluates the derivative by Horner's rule.
pub fn eval_derivative(c: &[Double], x: Double) -> (r: Double)
    requires
        c@.len() <= 0x7fff_ffff,
    ensures
        r == horner(derivative(c@), x, derivative(c@).len()),
{
    let d: Vec<Double> = derivative_coefficients(c);
    eval(d.as_slice(), x)
}

/// A number in two halves whose products are exact: the upper one.
pub open spec fn upper_half(a: Double) -> Double {
    let c = product(Double { bits: 0x41a0_0000_0200_0000 }, a);
    difference(c, difference(c, a))
}

/// What a product loses when it is rounded.
pub open spec fn product_error(a: Double, b: Double) -> Double {
    let p = product(a, b);
    let ah = upper_half(a);
    let al = difference(a, ah);
    let bh = upper_half(b);
    let bl = difference(b, bh);
    sum(sum(sum(difference(product(ah, bh), p), product(ah, bl)), product(al, bh)), product(al, bl))
}

/// What a sum loses when it is rounded.
pub open spec fn sum_error(a: Double, b: Double) -> Double {
    let s = sum(a, b);
    let shifted = difference(s, a);
    sum(difference(a, difference(s, shifted)), difference(b, shifted))
}

/// What a difference loses when it is rounded.
pub open spec fn difference_error(a: Double, b: Double) -> Double {
    let s = difference(a, b);
    let bb = difference(a, s);
    sum(difference(a, sum(s, bb)), difference(bb, b))
}

fn split(a: Double) -> (r: (Double, Double))
    ensures
        r.0 == upper_half(a),
        r.1 == difference(a, upper_half(a)),
{
    let c: Double = Double::from_bits(0x41a0_0000_0200_0000).times(a);
    let hi: Double = c.minus(c.minus(a));
    (hi, a.minus(hi))
}

/// A product and what it loses.
fn two_product(a: Double, b: Double) -> (r: (Double, Double))
    ensures
        r.0 == product(a, b),
        r.1 == product_error(a, b),
{
    let p: Double = a.times(b);
    let (ah, al) = split(a);
    let (bh, bl) = split(b);
    (p, ah.times(bh).minus(p).plus(ah.times(bl)).plus(al.times(bh)).plus(al.times(bl)))
}

/// A sum and what it loses.
fn two_sum(a: Double, b: Double) -> (r: (Double, Double))
    ensures
        r.0 == sum(a, b),
        r.1 == sum_error(a, b),
{
    let s: Double = a.plus(b);
    let shifted: Double = s.minus(a);
    (s, a.minus(s.minus(shifted)).plus(b.minus(shifted)))
}

/// A difference and what it loses.
fn two_diff(a: Double, b: Double) -> (r: (Double, Double))
    ensures
        r.0 == difference(a, b),
        r.1 == difference_error(a, b),
{
    let s: Double = a.minus(b);
    let bb: Double = a.minus(s);
    (s, a.minus(s.plus(bb)).plus(bb.minus(b)))
}

/// Four times a number.
pub open spec fn fourfold(a: Double) -> Double {
    product(Double { bits: 0x4010_0000_0000_0000 }, a)
}

/// `b^2 - 4ac`, with what its products and its difference lose added back.
#[verifier::opaque]
pub open spec fn discriminant_of(a: Double, b: Double, c: Double) -> Double {
    let p = product(b, b);
    let q = product(fourfold(a), c);
    sum(
        difference(p, q),
        sum(difference_error(p, q), difference(product_error(b, b), product_error(fourfold(a), c))),
    )
}

/// `b^2 - 4ac`, computed so that cancellation does not destroy it.
pub fn discriminant(a: Double, b: Double, c: Double) -> (r: Double)
    ensures
        r == discriminant_of(a, b, c),
{
    reveal(discriminant_of);
    let (p, pe) = two_product(b, b);
    let (q, qe) = two_product(Double::from_bits(0x4010_0000_0000_0000).times(a), c);
    let (s, se) = two_diff(p, q);
    s.plus(se.plus(pe.minus(qe)))
}

/// The greatest magnitude of the first `n` coefficients.
pub open spec fn scale_of(c: Seq<Double>, n: nat) -> Double
    decreases n,
{
    if n == 0 {
        Double { bits: 0 }
    } else {
        greater(scale_of(c, (n - 1) as nat), c[n - 1].absolute())
    }
}

fn find_scale(c: &[Double]) -> (r: Double)
    ensures
        r == scale_of(c@, c@.len()),
{
    let mut r: Double = Double::zeroed();
    let mut i: usize = 0;
    while i < c.len()
        invariant
            i <= c@.len(),
            r == scale_of(c@, i as nat),
        decreases c@.len() - i,
    {
        r = max_number(r, c[i].abs());
        i = i + 1;
    }
    r
}

/// The leading coefficient is zero, or nothing against the rest.
pub open spec fn negligible(a: Double, rest: Seq<Double>) -> bool {
    let scale = scale_of(rest, rest.len());
    a.same(Double { bits: 0 }) || ((Double { bits: 0 }).lt(scale) && a.absolute().le(
        product(Double { bits: ROOT_DEGENERACY_TAU }, scale),
    ))
}

/// True if the leading coefficient is negligible against the rest.
pub fn leading_is_negligible(a: Double, rest: &[Double]) -> (r: bool)
    ensures
        r == negligible(a, rest@),
{
    if a.equals(Double::zeroed()) {
        return true;
    }
    let scale: Double = find_scale(rest);
    Double::zeroed().less(scale) && a.abs().at_most(Double::from_bits(ROOT_DEGENERACY_TAU).times(scale))
}

/// What a solver returns: the roots, and the degree solved.
pub open spec fn solution(roots: Seq<Root>, degree: int) -> (Seq<Root>, int) {
    (roots, degree)
}

/// The roots of `a x + b`, and the degree solved.
pub open spec fn linear_roots(a: Double, b: Double) -> (Seq<Root>, int) {
    if negligible(a, seq![b]) {
        solution(Seq::empty(), 0)
    } else {
        solution(gathered(seq![quotient(b.negated(), a)]), 1)
    }
}

/// A discriminant no greater than what its terms lose.
pub open spec fn vanishes(disc: Double, a: Double, b: Double, c: Double) -> bool {
    let scale = greater(product(b, b).absolute(), product(fourfold(a), c).absolute());
    disc.absolute().le(product(product(Double { bits: DISCRIMINANT_SNAP }, Double { bits: EPSILON }), scale))
        || disc.same(Double { bits: 0 })
}

/// The root of `a x^2 + b x + c` that does not cancel, times `a`.
pub open spec fn stable_half(b: Double, disc: Double) -> Double {
    let r = root(disc);
    product(
        Double { bits: 0xbfe0_0000_0000_0000 },
        sum(
            b,
            if (Double { bits: 0 }).le(b) {
                r
            } else {
                r.negated()
            },
        ),
    )
}

/// The roots of `a x^2 + b x + c`, and the degree solved: a double root where the
/// discriminant vanishes, none where it is negative, and else the one that does
/// not cancel and the other from their product.
#[verifier::opaque]
pub open spec fn quadratic_roots(a: Double, b: Double, c: Double) -> (Seq<Root>, int) {
    let disc = discriminant_of(a, b, c);
    if negligible(a, seq![b, c]) {
        linear_roots(b, c)
    } else if vanishes(disc, a, b, c) {
        solution(
            seq![
                Root {
                    value: quotient(product(Double { bits: 0xbfe0_0000_0000_0000 }, b), a),
                    multiplicity: 2,
                },
            ],
            2,
        )
    } else if disc.lt(Double { bits: 0 }) {
        solution(Seq::empty(), 2)
    } else {
        let q = stable_half(b, disc);
        let x = quotient(q, a);
        let y = if q.same(Double { bits: 0 }) {
            x.negated()
        } else {
            quotient(c, q)
        };
        solution(gathered(seq![x, y]), 2)
    }
}

/// A set is a solution.
pub open spec fn solves(r: RootSet, s: (Seq<Root>, int)) -> bool {
    r.held() == s.0 && r.degree == s.1
}

/// Real roots of `a x + b`.
pub fn solve_linear(a: Double, b: Double) -> (r: RootSet)
    ensures
        solves(r, linear_roots(a, b)),
        r.proper(),
        r.degree <= 1,
        r.finite(),
{
    let rest: [Double; 1] = [b];
    assert(rest@ =~= seq![b]);
    if leading_is_negligible(a, rest.as_slice()) {
        return RootSet::empty(0);
    }
    let raw: [Double; 1] = [b.negate().over(a)];
    assert(raw@ =~= seq![quotient(b.negated(), a)]);
    RootSet::from_raw(raw.as_slice(), 1)
}

/// Real roots of `a x^2 + b x + c`, ascending, with multiplicity.
pub fn solve_quadratic(a: Double, b: Double, c: Double) -> (r: RootSet)
    ensures
        solves(r, quadratic_roots(a, b, c)),
        r.proper(),
        r.finite(),
        r.degree <= 2,
{
    reveal(quadratic_roots);
    let rest: [Double; 2] = [b, c];
    assert(rest@ =~= seq![b, c]);
    if leading_is_negligible(a, rest.as_slice()) {
        return solve_linear(b, c);
    }
    let zero: Double = Double::zeroed();
    let disc: Double = discriminant(a, b, c);
    let four: Double = Double::from_bits(0x4010_0000_0000_0000);
    let scale: Double = max_number(b.times(b).abs(), four.times(a).times(c).abs());
    let snap: Double = Double::from_bits(DISCRIMINANT_SNAP).times(Double::from_bits(EPSILON)).times(scale);
    if disc.abs().at_most(snap) || disc.equals(zero) {
        let x: Double = Double::from_bits(0xbfe0_0000_0000_0000).times(b).over(a);
        let mut list: Vec<Root> = Vec::new();
        list.push(Root { value: x, multiplicity: 2 });
        proof {
            assert(list@ =~= seq![Root { value: x, multiplicity: 2 }]);
            assert(multiplicities(list@, 1) == multiplicities(list@, 0) + 2);
            law_double_root_is_finite(a, b, c);
        }
        return RootSet { list, degree: 2 };
    }
    if disc.less(zero) {
        return RootSet::empty(2);
    }
    let r: Double = disc.sqrt();
    let signed: Double = if zero.at_most(b) { r } else { r.negate() };
    let q: Double = Double::from_bits(0xbfe0_0000_0000_0000).times(b.plus(signed));
    let x: Double = q.over(a);
    let y: Double = if q.equals(zero) { x.negate() } else { c.over(q) };
    let raw: [Double; 2] = [x, y];
    assert(raw@ =~= seq![x, y]);
    RootSet::from_raw(raw.as_slice(), 2)
}

/// The value and the accumulated loss of the first `n` coefficients by Horner's
/// rule.
pub open spec fn compensated(c: Seq<Double>, x: Double, n: nat) -> (Double, Double)
    decreases n,
{
    if n <= 1 {
        (c[0], Double { bits: 0 })
    } else {
        let (v, e) = compensated(c, x, (n - 1) as nat);
        let p = product(v, x);
        (sum(p, c[n - 1]), sum(product(e, x), sum(product_error(v, x), sum_error(p, c[n - 1]))))
    }
}

/// Evaluates a polynomial to about twice the accuracy of a double.
#[verifier::spinoff_prover]
#[verifier::rlimit(60)]
pub fn eval_compensated(c: &[Double], x: Double) -> (r: Double)
    requires
        c@.len() > 0,
    ensures
        r == sum(compensated(c@, x, c@.len()).0, compensated(c@, x, c@.len()).1),
{
    let mut value: Double = c[0];
    let mut error: Double = Double::zeroed();
    let mut i: usize = 1;
    while i < c.len()
        invariant
            1 <= i <= c@.len(),
            (value, error) == compensated(c@, x, i as nat),
        decreases c@.len() - i,
    {
        let (p, pe) = two_product(value, x);
        let (t, te) = two_sum(p, c[i]);
        value = t;
        error = error.times(x).plus(pe.plus(te));
        i = i + 1;
    }
    value.plus(error)
}

/// The sum of the magnitudes of the first `n` terms by Horner's rule.
pub open spec fn magnitudes(c: Seq<Double>, x: Double, n: nat) -> Double
    decreases n,
{
    if n == 0 {
        Double { bits: 0 }
    } else {
        sum(product(magnitudes(c, x, (n - 1) as nat), x.absolute()), c[n - 1].absolute())
    }
}

fn horner_abs_sum(c: &[Double], x: Double) -> (r: Double)
    ensures
        r == magnitudes(c@, x, c@.len()),
{
    let m: Double = x.abs();
    let mut r: Double = Double::zeroed();
    let mut i: usize = 0;
    while i < c.len()
        invariant
            i <= c@.len(),
            m == x.absolute(),
            r == magnitudes(c@, x, i as nat),
        decreases c@.len() - i,
    {
        r = r.times(m).plus(c[i].abs());
        i = i + 1;
    }
    r
}

/// What evaluating a polynomial at `x` may be off by, when the value is `value`.
pub open spec fn noise_of(c: Seq<Double>, x: Double, value: Double) -> Double {
    let gamma = product(
        product(Double { bits: 0x4000_0000_0000_0000 }, of_int(c.len() as int)),
        Double { bits: EPSILON },
    );
    sum(
        product(Double { bits: EPSILON }, value.absolute()),
        product(product(gamma, gamma), magnitudes(c, x, c.len())),
    )
}

/// `x`, where the derivative vanishes, is a repeated root: the value is noise, or
/// the two crossings that the curvature implies coincide.
#[verifier::opaque]
pub open spec fn repeated_at(c: Seq<Double>, x: Double) -> bool {
    let (v, e) = compensated(c, x, c.len());
    let value = sum(v, e);
    let second = derivative(derivative(c));
    let curvature = horner(second, x, second.len());
    let two = Double { bits: 0x4000_0000_0000_0000 };
    let half_gap = root(quotient(product(two, value.absolute()), curvature.absolute()));
    value.absolute().le(noise_of(c, x, value)) || (!(Double { bits: 0 }).le(product(value, curvature)) && product(
        two,
        half_gap,
    ).le(
        product(product(Double { bits: ROOT_CLUSTER_FACTOR }, Double { bits: SQRT_EPSILON }), x.absolute()),
    ))
}

/// Is `x`, where the derivative vanishes, a root of the polynomial too?
pub fn is_repeated_root(c: &[Double], x: Double) -> (r: bool)
    requires
        0 < c@.len() <= 16,
    ensures
        r == repeated_at(c@, x),
{
    reveal(repeated_at);
    let value: Double = eval_compensated(c, x);
    let two: Double = Double::from_bits(0x4000_0000_0000_0000);
    let eps: Double = Double::from_bits(EPSILON);
    let gamma: Double = two.times(Double::from_i64(c.len() as i64)).times(eps);
    let noise: Double = eps.times(value.abs()).plus(gamma.times(gamma).times(horner_abs_sum(c, x)));
    if value.abs().at_most(noise) {
        return true;
    }
    let first: Vec<Double> = derivative_coefficients(c);
    let second: Vec<Double> = derivative_coefficients(first.as_slice());
    let curvature: Double = eval(second.as_slice(), x);
    if Double::zeroed().at_most(value.times(curvature)) {
        return false;
    }
    let half_gap: Double = two.times(value.abs()).over(curvature.abs()).sqrt();
    two.times(half_gap).at_most(
        Double::from_bits(ROOT_CLUSTER_FACTOR).times(Double::from_bits(SQRT_EPSILON)).times(x.abs()),
    )
}

/// A step of Newton's method that improves the value and is no jump; none, if the
/// step is not to be taken.
#[verifier::opaque]
pub open spec fn newton_step(c: Seq<Double>, x: Double, limit: Double) -> Option<Double> {
    let value = horner(c, x, c.len());
    let d = derivative(c);
    let slope = horner(d, x, d.len());
    let step = quotient(value, slope);
    let candidate = difference(x, step);
    if slope.same(Double { bits: 0 }) || !slope.finite() || !step.finite() || limit.lt(step.absolute())
        || !candidate.finite() || !horner(c, candidate, c.len()).absolute().le(value.absolute()) {
        None
    } else {
        Some(candidate)
    }
}

/// At most `n` steps of Newton's method.
pub open spec fn polished_by(c: Seq<Double>, x: Double, limit: Double, n: nat) -> Double
    decreases n,
{
    if n == 0 {
        x
    } else {
        match newton_step(c, x, limit) {
            Some(y) => polished_by(c, y, limit, (n - 1) as nat),
            None => x,
        }
    }
}

/// A root after two steps of Newton's method, none of them longer than a hundredth
/// of it, or of one.
pub open spec fn polished(c: Seq<Double>, x: Double) -> Double {
    let limit = product(
        Double { bits: 0x3f84_7ae1_47ae_147b },
        greater(x.absolute(), Double { bits: 0x3ff0_0000_0000_0000 }),
    );
    if scale_of(c, c.len()).same(Double { bits: 0 }) {
        x
    } else {
        polished_by(c, x, limit, 2)
    }
}

fn try_step(c: &[Double], x: Double, limit: Double) -> (r: Option<Double>)
    requires
        c@.len() <= 16,
    ensures
        r == newton_step(c@, x, limit),
{
    reveal(newton_step);
    let value: Double = eval(c, x);
    let slope: Double = eval_derivative(c, x);
    if slope.equals(Double::zeroed()) || !slope.is_finite() {
        return None;
    }
    let step: Double = value.over(slope);
    if !step.is_finite() || limit.less(step.abs()) {
        return None;
    }
    let candidate: Double = x.minus(step);
    if !candidate.is_finite() || !eval(c, candidate).abs().at_most(value.abs()) {
        return None;
    }
    Some(candidate)
}

/// Newton iterations on the polynomial itself, guarded against jumps.
pub fn polish(c: &[Double], x: Double) -> (r: Double)
    requires
        c@.len() <= 16,
    ensures
        r == polished(c@, x),
{
    if find_scale(c).equals(Double::zeroed()) {
        return x;
    }
    let limit: Double = Double::from_bits(0x3f84_7ae1_47ae_147b).times(
        max_number(x.abs(), Double::from_bits(0x3ff0_0000_0000_0000)),
    );
    proof {
        reveal_with_fuel(polished_by, 3);
    }
    match try_step(c, x, limit) {
        None => x,
        Some(y) => match try_step(c, y, limit) {
            None => y,
            Some(z) => z,
        },
    }
}

/// Polishing does not make the value of a polynomial greater.
pub proof fn law_polishing_never_worsens(c: Seq<Double>, x: Double, limit: Double)
    ensures
        newton_step(c, x, limit) matches Some(y) ==> horner(c, y, c.len()).absolute().le(
            horner(c, x, c.len()).absolute(),
        ),
{
    reveal(newton_step);
}

/// The middle of two numbers.
pub open spec fn middle(lo: Double, hi: Double) -> Double {
    product(Double { bits: 0x3fe0_0000_0000_0000 }, sum(lo, hi))
}

/// A number is negative.
pub open spec fn below_zero(x: Double) -> bool {
    x.lt(Double { bits: 0 })
}

/// The next trial in a bracket: Newton's, where it stays inside, and else the
/// middle.
pub open spec fn next_trial(c: Seq<Double>, lo: Double, hi: Double, x: Double, fx: Double) -> Double {
    let d = derivative(c);
    let slope = horner(d, x, d.len());
    let newton = difference(x, quotient(fx, slope));
    if !slope.same(Double { bits: 0 }) && newton.finite() && lo.lt(newton) && newton.lt(hi) {
        newton
    } else {
        middle(lo, hi)
    }
}

/// A bracket as narrow as doubles allow.
pub open spec fn narrow(lo: Double, hi: Double, x: Double) -> bool {
    difference(hi, lo).le(
        product(Double { bits: EPSILON }, greater(x.absolute(), Double { bits: 0x0010_0000_0000_0000 })),
    )
}

/// A search for a root in the bracket from `lo` to `hi`, where the value at `lo`
/// is `flo`, from the trial `x` on and with at most `n` trials.
pub open spec fn searched(c: Seq<Double>, lo: Double, hi: Double, flo: Double, x: Double, n: nat) -> Double
    decreases n,
{
    let fx = horner(c, x, c.len());
    if n == 0 || fx.same(Double { bits: 0 }) {
        x
    } else {
        let crossed = below_zero(flo) != below_zero(fx);
        let lo2 = if crossed {
            lo
        } else {
            x
        };
        let hi2 = if crossed {
            x
        } else {
            hi
        };
        let flo2 = if crossed {
            flo
        } else {
            fx
        };
        if narrow(lo2, hi2, x) {
            x
        } else {
            searched(c, lo2, hi2, flo2, next_trial(c, lo2, hi2, x, fx), (n - 1) as nat)
        }
    }
}

/// A root in a bracket: an end, if it is one, and else what a search finds.
#[verifier::opaque]
pub open spec fn refined(c: Seq<Double>, a: Double, b: Double) -> Double {
    let (lo, hi) = if b.lt(a) {
        (b, a)
    } else {
        (a, b)
    };
    let flo = horner(c, lo, c.len());
    if flo.same(Double { bits: 0 }) {
        lo
    } else if horner(c, hi, c.len()).same(Double { bits: 0 }) {
        hi
    } else {
        searched(c, lo, hi, flo, middle(lo, hi), 80)
    }
}

fn choose_trial(c: &[Double], lo: Double, hi: Double, x: Double, fx: Double) -> (r: Double)
    requires
        c@.len() <= 16,
    ensures
        r == next_trial(c@, lo, hi, x, fx),
{
    let slope: Double = eval_derivative(c, x);
    if !slope.equals(Double::zeroed()) {
        let newton: Double = x.minus(fx.over(slope));
        if newton.is_finite() && lo.less(newton) && newton.less(hi) {
            return newton;
        }
    }
    Double::from_bits(0x3fe0_0000_0000_0000).times(lo.plus(hi))
}

/// Refines a root known to lie between two numbers where the sign changes.
pub fn refine_bracket(c: &[Double], a: Double, b: Double) -> (r: Double)
    requires
        c@.len() <= 16,
    ensures
        r == refined(c@, a, b),
{
    reveal(refined);
    let zero: Double = Double::zeroed();
    let mut lo: Double = a;
    let mut hi: Double = b;
    if b.less(a) {
        lo = b;
        hi = a;
    }
    let mut flo: Double = eval(c, lo);
    if flo.equals(zero) {
        return lo;
    }
    if eval(c, hi).equals(zero) {
        return hi;
    }
    let mut x: Double = Double::from_bits(0x3fe0_0000_0000_0000).times(lo.plus(hi));
    let mut left: u32 = 80;
    let ghost found = searched(c@, lo, hi, flo, x, 80);
    while left > 0
        invariant
            c@.len() <= 16,
            zero == (Double { bits: 0 }),
            found == searched(c@, lo, hi, flo, x, left as nat),
            found == refined(c@, a, b),
        decreases left,
    {
        let fx: Double = eval(c, x);
        if fx.equals(zero) {
            return x;
        }
        if flo.less(zero) != fx.less(zero) {
            hi = x;
        } else {
            lo = x;
            flo = fx;
        }
        let least: Double = Double::from_bits(EPSILON).times(
            max_number(x.abs(), Double::from_bits(0x0010_0000_0000_0000)),
        );
        if hi.minus(lo).at_most(least) {
            return x;
        }
        x = choose_trial(c, lo, hi, x, fx);
        left = left - 1;
    }
    x
}

/// A value as often as it counts.
pub open spec fn copies(r: Root) -> Seq<Double> {
    Seq::new(r.multiplicity as nat, |i: int| r.value)
}

/// The first `n` roots, each as often as it counts.
pub open spec fn expanded(s: Seq<Root>, n: nat) -> Seq<Double>
    decreases n,
{
    if n == 0 {
        Seq::empty()
    } else {
        expanded(s, (n - 1) as nat) + copies(s[n - 1])
    }
}

proof fn lemma_expanded_length(s: Seq<Root>, n: nat)
    ensures
        expanded(s, n).len() == multiplicities(s, n),
    decreases n,
{
    if n > 0 {
        lemma_expanded_length(s, (n - 1) as nat);
    }
}

fn expand(r: &RootSet) -> (v: Vec<Double>)
    ensures
        v@ == expanded(r.held(), r.held().len()),
{
    let mut v: Vec<Double> = Vec::new();
    let mut i: usize = 0;
    while i < r.list.len()
        invariant
            i <= r.held().len(),
            v@ == expanded(r.held(), i as nat),
        decreases r.held().len() - i,
    {
        let x: Root = r.list[i];
        let ghost was = v@;
        let mut k: u8 = 0;
        while k < x.multiplicity
            invariant
                k <= x.multiplicity,
                v@ == was + Seq::new(k as nat, |j: int| x.value),
            decreases x.multiplicity - k,
        {
            v.push(x.value);
            k = k + 1;
            assert(v@ =~= was + Seq::new(k as nat, |j: int| x.value));
        }
        i = i + 1;
    }
    v
}

/// A root of a cubic, and the roots of the quadratic that dividing by it leaves.
pub open spec fn deflated(c: Seq<Double>, x: Double) -> Seq<Double> {
    let q1 = sum(c[1], product(x, c[0]));
    let q0 = sum(c[2], product(x, q1));
    let rest = quadratic_roots(c[0], q1, q0).0;
    seq![x] + expanded(rest, rest.len())
}

/// The roots of a cubic from raw ones: each polished.
pub open spec fn settled(c: Seq<Double>, raw: Seq<Double>) -> Seq<Root> {
    gathered(Seq::new(raw.len(), |i: int| polished(c, raw[i])))
}

fn deflate(c: &[Double], x: Double) -> (v: Vec<Double>)
    requires
        c@.len() == 4,
    ensures
        v@ == deflated(c@, x),
        v@.len() <= 3,
{
    let q1: Double = c[1].plus(x.times(c[0]));
    let q0: Double = c[2].plus(x.times(q1));
    let rest: RootSet = solve_quadratic(c[0], q1, q0);
    let more: Vec<Double> = expand(&rest);
    proof {
        lemma_expanded_length(rest.held(), rest.held().len());
    }
    let mut v: Vec<Double> = Vec::new();
    v.push(x);
    let mut i: usize = 0;
    while i < more.len()
        invariant
            i <= more@.len(),
            v@ == seq![x] + more@.subrange(0, i as int),
        decreases more@.len() - i,
    {
        v.push(more[i]);
        i = i + 1;
        assert(v@ =~= seq![x] + more@.subrange(0, i as int));
    }
    assert(more@.subrange(0, i as int) =~= more@);
    v
}

fn settle(c: &[Double], raw: &Vec<Double>) -> (r: RootSet)
    requires
        c@.len() == 4,
        raw@.len() <= 3,
    ensures
        r.held() == settled(c@, raw@),
        r.degree == 3,
        r.proper(),
        r.finite(),
{
    let mut v: Vec<Double> = Vec::new();
    let mut i: usize = 0;
    while i < raw.len()
        invariant
            i <= raw@.len() <= 3,
            c@.len() == 4,
            v@ == Seq::new(i as nat, |k: int| polished(c@, raw@[k])),
        decreases raw@.len() - i,
    {
        v.push(polish(c, raw[i]));
        i = i + 1;
        assert(v@ =~= Seq::new(i as nat, |k: int| polished(c@, raw@[k])));
    }
    RootSet::from_raw(v.as_slice(), 3)
}

/// A monic cubic without its square term: `y^3 + p y + q`, where `x` is `y` less
/// the shift.
#[derive(Clone, Copy, Debug, PartialEq, Eq, Structural)]
pub struct Depressed {
    /// What `y` is less, to make `x`.
    pub shift: Double,
    /// The linear coefficient.
    pub p: Double,
    /// The constant.
    pub q: Double,
    /// Half of the constant.
    pub half_q: Double,
    /// A third of the linear coefficient.
    pub third_p: Double,
    /// Negative where there are three distinct roots.
    pub delta: Double,
}

/// The depressed form of a cubic.
#[verifier::opaque]
pub open spec fn depressed_form(a: Double, b: Double, c: Double, d: Double) -> Depressed {
    let three = Double { bits: 0x4008_0000_0000_0000 };
    let two = Double { bits: 0x4000_0000_0000_0000 };
    let bb = quotient(b, a);
    let cc = quotient(c, a);
    let dd = quotient(d, a);
    let p = difference(cc, quotient(product(bb, bb), three));
    let q = sum(
        difference(
            quotient(product(product(product(two, bb), bb), bb), Double { bits: 0x403b_0000_0000_0000 }),
            quotient(product(bb, cc), three),
        ),
        dd,
    );
    let half_q = product(Double { bits: 0x3fe0_0000_0000_0000 }, q);
    let third_p = quotient(p, three);
    Depressed {
        shift: quotient(bb, three),
        p,
        q,
        half_q,
        third_p,
        delta: sum(product(half_q, half_q), product(product(third_p, third_p), third_p)),
    }
}

fn depress(a: Double, b: Double, c: Double, d: Double) -> (r: Depressed)
    ensures
        r == depressed_form(a, b, c, d),
{
    reveal(depressed_form);
    let three: Double = Double::from_bits(0x4008_0000_0000_0000);
    let two: Double = Double::from_bits(0x4000_0000_0000_0000);
    let bb: Double = b.over(a);
    let cc: Double = c.over(a);
    let dd: Double = d.over(a);
    let p: Double = cc.minus(bb.times(bb).over(three));
    let q: Double = two.times(bb).times(bb).times(bb).over(Double::from_bits(0x403b_0000_0000_0000)).minus(
        bb.times(cc).over(three),
    ).plus(dd);
    let half_q: Double = Double::from_bits(0x3fe0_0000_0000_0000).times(q);
    let third_p: Double = p.over(three);
    Depressed {
        shift: bb.over(three),
        p,
        q,
        half_q,
        third_p,
        delta: half_q.times(half_q).plus(third_p.times(third_p).times(third_p)),
    }
}

/// What is left to do for a cubic.
#[derive(Debug)]
pub enum CubicStage {
    /// Nothing: it had a lower degree or a repeated root.
    Done(RootSet),
    /// Three distinct roots: [`finish_three`] wants three cosines.
    Three {
        /// The scale of the roots.
        scale: Double,
        /// The cosine, in `[-1, 1]`, of three times the first angle.
        argument: Double,
        /// What the roots are shifted by.
        shift: Double,
    },
    /// One root at first: [`finish_one`] wants two cube roots.
    One {
        /// What the first cube root is of.
        first: Double,
        /// What the second cube root is of.
        second: Double,
        /// What the root is shifted by.
        shift: Double,
    },
}

/// The first repeated root among the points where the derivative vanishes, from
/// point `i` on.
pub open spec fn repeated_from(c: Seq<Double>, critical: Seq<Root>, i: int) -> Option<Double>
    decreases critical.len() - i,
{
    if i < 0 || i >= critical.len() {
        None
    } else if repeated_at(c, critical[i].value) {
        Some(critical[i].value)
    } else {
        repeated_from(c, critical, i + 1)
    }
}

/// Where the derivative of a cubic vanishes.
pub open spec fn critical_points(a: Double, b: Double, c: Double) -> Seq<Root> {
    quadratic_roots(
        product(Double { bits: 0x4008_0000_0000_0000 }, a),
        product(Double { bits: 0x4000_0000_0000_0000 }, b),
        c,
    ).0
}

/// A number held between minus one and one.
pub open spec fn clamped(x: Double) -> Double {
    if x.lt(Double { bits: 0xbff0_0000_0000_0000 }) {
        Double { bits: 0xbff0_0000_0000_0000 }
    } else if (Double { bits: 0x3ff0_0000_0000_0000 }).lt(x) {
        Double { bits: 0x3ff0_0000_0000_0000 }
    } else {
        x
    }
}

/// `s` is what is left to do for a cubic.
pub open spec fn is_stage(s: CubicStage, a: Double, b: Double, c: Double, d: Double) -> bool {
    let coefficients = seq![a, b, c, d];
    let f = depressed_form(a, b, c, d);
    let r = root(f.delta);
    let m = product(Double { bits: 0x4000_0000_0000_0000 }, root(f.third_p.negated()));
    if negligible(a, seq![b, c, d]) {
        s matches CubicStage::Done(x) && solves(x, quadratic_roots(b, c, d))
    } else {
        match repeated_from(coefficients, critical_points(a, b, c), 0) {
            Some(x) => s matches CubicStage::Done(y) && solves(
                y,
                (settled(coefficients, deflated(coefficients, x)), 3),
            ),
            None => if f.delta.lt(Double { bits: 0 }) {
                s == (CubicStage::Three {
                    scale: m,
                    argument: clamped(
                        quotient(product(Double { bits: 0x4008_0000_0000_0000 }, f.q), product(f.p, m)),
                    ),
                    shift: f.shift,
                })
            } else {
                s == (CubicStage::One {
                    first: sum(f.half_q.negated(), r),
                    second: difference(f.half_q.negated(), r),
                    shift: f.shift,
                })
            },
        }
    }
}

fn find_repeated(c: &[Double], critical: &RootSet) -> (r: Option<Double>)
    requires
        0 < c@.len() <= 16,
    ensures
        r == repeated_from(c@, critical.held(), 0),
{
    let mut i: usize = 0;
    while i < critical.list.len()
        invariant
            i <= critical.held().len(),
            0 < c@.len() <= 16,
            repeated_from(c@, critical.held(), 0) == repeated_from(c@, critical.held(), i as int),
        decreases critical.held().len() - i,
    {
        if is_repeated_root(c, critical.list[i].value) {
            return Some(critical.list[i].value);
        }
        i = i + 1;
    }
    None
}

/// Starts on the real roots of `a x^3 + b x^2 + c x + d`: all there is to do but
/// for the cosines or the cube roots that the rest wants.
pub fn start_cubic(a: Double, b: Double, c: Double, d: Double) -> (s: CubicStage)
    ensures
        is_stage(s, a, b, c, d),
        s matches CubicStage::Done(r) ==> r.proper() && r.finite() && r.degree <= 3,
{
    let rest: [Double; 3] = [b, c, d];
    assert(rest@ =~= seq![b, c, d]);
    if leading_is_negligible(a, rest.as_slice()) {
        return CubicStage::Done(solve_quadratic(b, c, d));
    }
    let coefficients: [Double; 4] = [a, b, c, d];
    assert(coefficients@ =~= seq![a, b, c, d]);
    let three: Double = Double::from_bits(0x4008_0000_0000_0000);
    let two: Double = Double::from_bits(0x4000_0000_0000_0000);
    let critical: RootSet = solve_quadratic(three.times(a), two.times(b), c);
    if let Some(x) = find_repeated(coefficients.as_slice(), &critical) {
        let raw: Vec<Double> = deflate(coefficients.as_slice(), x);
        return CubicStage::Done(settle(coefficients.as_slice(), &raw));
    }
    let f: Depressed = depress(a, b, c, d);
    if f.delta.less(Double::zeroed()) {
        let m: Double = two.times(f.third_p.negate().sqrt());
        let raw: Double = three.times(f.q).over(f.p.times(m));
        let one: Double = Double::from_bits(0x3ff0_0000_0000_0000);
        let minus: Double = Double::from_bits(0xbff0_0000_0000_0000);
        let argument: Double = if raw.less(minus) {
            minus
        } else if one.less(raw) {
            one
        } else {
            raw
        };
        CubicStage::Three { scale: m, argument, shift: f.shift }
    } else {
        let r: Double = f.delta.sqrt();
        CubicStage::One { first: f.half_q.negate().plus(r), second: f.half_q.negate().minus(r), shift: f.shift }
    }
}

/// The roots of a cubic that has three distinct ones, from the cosines of the
/// first angle and of those a third of a turn less each.
pub fn finish_three(
    a: Double,
    b: Double,
    c: Double,
    d: Double,
    scale: Double,
    shift: Double,
    cosines: [Double; 3],
) -> (r: RootSet)
    ensures
        solves(
            r,
            (
                settled(
                    seq![a, b, c, d],
                    Seq::new(3, |k: int| difference(product(scale, cosines@[k]), shift)),
                ),
                3,
            ),
        ),
        r.proper(),
        r.finite(),
{
    let coefficients: [Double; 4] = [a, b, c, d];
    assert(coefficients@ =~= seq![a, b, c, d]);
    let mut raw: Vec<Double> = Vec::new();
    raw.push(scale.times(cosines[0]).minus(shift));
    raw.push(scale.times(cosines[1]).minus(shift));
    raw.push(scale.times(cosines[2]).minus(shift));
    assert(raw@ =~= Seq::new(3, |k: int| difference(product(scale, cosines@[k]), shift)));
    settle(coefficients.as_slice(), &raw)
}

/// The roots of a cubic, from two cube roots: one, polished before the cubic is
/// divided by it, and those of the quadratic that is left.
pub fn finish_one(
    a: Double,
    b: Double,
    c: Double,
    d: Double,
    first: Double,
    second: Double,
    shift: Double,
) -> (r: RootSet)
    ensures
        ({
            let k = seq![a, b, c, d];
            let x = polished(k, difference(sum(first, second), shift));
            solves(r, (settled(k, deflated(k, x)), 3))
        }),
        r.proper(),
        r.finite(),
{
    let coefficients: [Double; 4] = [a, b, c, d];
    assert(coefficients@ =~= seq![a, b, c, d]);
    let x: Double = polish(coefficients.as_slice(), first.plus(second).minus(shift));
    let raw: Vec<Double> = deflate(coefficients.as_slice(), x);
    settle(coefficients.as_slice(), &raw)
}

/// A point that divides the line, and whether it is a repeated root, and how often
/// it counts.
#[derive(Clone, Copy, Debug, PartialEq, Eq, Structural)]
pub struct Mark {
    /// Where it is.
    pub x: Double,
    /// Whether it is a repeated root.
    pub repeated: bool,
    /// How often it counts, if it is one.
    pub copies: u8,
}

/// The bound on the roots of a quartic: one more than the greatest ratio of a
/// coefficient to the leading one.
pub open spec fn cauchy_bound(a: Double, rest: Seq<Double>, n: nat) -> Double
    decreases n,
{
    if n == 0 {
        Double { bits: 0 }
    } else {
        greater(cauchy_bound(a, rest, (n - 1) as nat), quotient(rest[n - 1], a).absolute())
    }
}

/// The marks of the first `n` points where the derivative vanishes: those within
/// the bound, the first three of them.
pub open spec fn inner_marks(c: Seq<Double>, critical: Seq<Root>, bound: Double, n: nat) -> Seq<Mark>
    decreases n,
{
    if n == 0 {
        Seq::empty()
    } else {
        let m = inner_marks(c, critical, bound, (n - 1) as nat);
        let r = critical[n - 1];
        if bound.negated().lt(r.value) && r.value.lt(bound) && m.len() < 3 {
            m.push(Mark { x: r.value, repeated: repeated_at(c, r.value), copies: (r.multiplicity + 1) as u8 })
        } else {
            m
        }
    }
}

/// All marks: the bounds, and those in between.
pub open spec fn all_marks(c: Seq<Double>, critical: Seq<Root>, bound: Double) -> Seq<Mark> {
    let plain = Mark { x: bound, repeated: false, copies: 0 };
    seq![Mark { x: bound.negated(), ..plain }] + inner_marks(c, critical, bound, critical.len()) + seq![plain]
}

/// A list with copies of a number added, up to four in all.
pub open spec fn with_copies(s: Seq<Double>, x: Double, n: nat) -> Seq<Double>
    decreases n,
{
    if n == 0 {
        s
    } else {
        let t = with_copies(s, x, (n - 1) as nat);
        if t.len() < 4 {
            t.push(x)
        } else {
            t
        }
    }
}

/// The repeated roots among the first `n` marks, each as often as it counts.
pub open spec fn repeated_roots(m: Seq<Mark>, n: nat) -> Seq<Double>
    decreases n,
{
    if n == 0 {
        Seq::empty()
    } else {
        let s = repeated_roots(m, (n - 1) as nat);
        if m[n - 1].repeated {
            with_copies(s, m[n - 1].x, m[n - 1].copies as nat)
        } else {
            s
        }
    }
}

/// The polynomial changes sign between two marks, neither of them a root.
#[verifier::opaque]
pub open spec fn changes_sign(c: Seq<Double>, a: Mark, b: Mark) -> bool {
    let low = horner(c, a.x, c.len());
    let high = horner(c, b.x, c.len());
    &&& !a.repeated && !b.repeated
    &&& low.finite() && high.finite()
    &&& !low.same(Double { bits: 0 }) && !high.same(Double { bits: 0 })
    &&& below_zero(low) != below_zero(high)
}

/// The roots found so far, with those between the first `n` neighbouring marks.
pub open spec fn simple_roots(c: Seq<Double>, m: Seq<Mark>, found: Seq<Double>, n: nat) -> Seq<Double>
    decreases n,
{
    if n == 0 {
        found
    } else {
        let s = simple_roots(c, m, found, (n - 1) as nat);
        if s.len() < 4 && changes_sign(c, m[n - 1], m[n as int]) {
            s.push(refined(c, m[n - 1].x, m[n as int].x))
        } else {
            s
        }
    }
}

/// The roots of a quartic, from the points where its derivative vanishes.
pub open spec fn quartic_roots(a: Double, rest: Seq<Double>, critical: Seq<Root>) -> Seq<Root> {
    let c = seq![a] + rest;
    let bound = sum(cauchy_bound(a, rest, rest.len()), Double { bits: 0x3ff0_0000_0000_0000 });
    let m = all_marks(c, critical, bound);
    gathered(simple_roots(c, m, repeated_roots(m, m.len()), (m.len() - 1) as nat))
}

fn marks_of(c: &[Double], critical: &RootSet, bound: Double) -> (m: Vec<Mark>)
    requires
        0 < c@.len() <= 16,
        forall|i: int| 0 <= i < critical.held().len() ==> (#[trigger] critical.held()[i]).multiplicity < 255,
    ensures
        m@ == all_marks(c@, critical.held(), bound),
        m@.len() <= 5,
{
    let lower: Double = bound.negate();
    let mut m: Vec<Mark> = Vec::new();
    m.push(Mark { x: lower, repeated: false, copies: 0 });
    let ghost head = m@;
    proof {
        assert(head + Seq::<Mark>::empty() =~= head);
    }
    let mut i: usize = 0;
    while i < critical.list.len()
        invariant
            i <= critical.held().len(),
            0 < c@.len() <= 16,
            head.len() == 1,
            lower == bound.negated(),
            forall|k: int| 0 <= k < critical.held().len() ==> (#[trigger] critical.held()[k]).multiplicity < 255,
            m@ == head + inner_marks(c@, critical.held(), bound, i as nat),
            m@.len() <= 4,
        decreases critical.held().len() - i,
    {
        let r: Root = critical.list[i];
        let ghost was = inner_marks(c@, critical.held(), bound, i as nat);
        if lower.less(r.value) && r.value.less(bound) && m.len() < 4 {
            let repeated: bool = is_repeated_root(c, r.value);
            assert(critical.held()[i as int].multiplicity < 255);
            m.push(Mark { x: r.value, repeated, copies: r.multiplicity + 1 });
            assert(m@ =~= head + was.push(m@.last()));
        }
        i = i + 1;
    }
    let plain: Mark = Mark { x: bound, repeated: false, copies: 0 };
    m.push(plain);
    assert(m@ =~= all_marks(c@, critical.held(), bound));
    m
}

fn add_copies(s: &mut Vec<Double>, x: Double, n: u8)
    ensures
        final(s)@ == with_copies(old(s)@, x, n as nat),
{
    let ghost was = s@;
    let mut k: u8 = 0;
    while k < n
        invariant
            k <= n,
            s@ == with_copies(was, x, k as nat),
        decreases n - k,
    {
        if s.len() < 4 {
            s.push(x);
        }
        k = k + 1;
    }
}

fn sign_changes(c: &[Double], a: &Mark, b: &Mark) -> (r: bool)
    ensures
        r == changes_sign(c@, *a, *b),
{
    reveal(changes_sign);
    if a.repeated || b.repeated {
        return false;
    }
    let zero: Double = Double::zeroed();
    let low: Double = eval(c, a.x);
    let high: Double = eval(c, b.x);
    if !low.is_finite() || !high.is_finite() || low.equals(zero) || high.equals(zero) {
        return false;
    }
    low.less(zero) != high.less(zero)
}

/// The cubic whose roots a quartic `a x^4 + b x^3 + c x^2 + d x + e` wants: its
/// own lower terms, where the leading one is negligible, and else its derivative.
#[derive(Clone, Copy, Debug, PartialEq, Eq, Structural)]
pub enum QuarticStage {
    /// The roots of this cubic are those of the quartic.
    Cubic(Double, Double, Double, Double),
    /// [`finish_quartic`] wants the roots of this cubic.
    Derivative(Double, Double, Double, Double),
}

/// The cubic that a quartic is solved by.
pub fn start_quartic(a: Double, b: Double, c: Double, d: Double, e: Double) -> (s: QuarticStage)
    ensures
        s == if negligible(a, seq![b, c, d, e]) {
            QuarticStage::Cubic(b, c, d, e)
        } else {
            QuarticStage::Derivative(
                fourfold(a),
                product(Double { bits: 0x4008_0000_0000_0000 }, b),
                product(Double { bits: 0x4000_0000_0000_0000 }, c),
                d,
            )
        },
{
    let rest: [Double; 4] = [b, c, d, e];
    assert(rest@ =~= seq![b, c, d, e]);
    if leading_is_negligible(a, rest.as_slice()) {
        return QuarticStage::Cubic(b, c, d, e);
    }
    QuarticStage::Derivative(
        Double::from_bits(0x4010_0000_0000_0000).times(a),
        Double::from_bits(0x4008_0000_0000_0000).times(b),
        Double::from_bits(0x4000_0000_0000_0000).times(c),
        d,
    )
}

/// Real roots of a quartic, from those of its derivative: repeated roots are where
/// both vanish, and between neighbouring points a change of sign shows one more.
pub fn finish_quartic(a: Double, b: Double, c: Double, d: Double, e: Double, critical: &RootSet) -> (r: RootSet)
    requires
        forall|i: int| 0 <= i < critical.held().len() ==> (#[trigger] critical.held()[i]).multiplicity < 255,
    ensures
        solves(r, (quartic_roots(a, seq![b, c, d, e], critical.held()), 4)),
        r.proper(),
        r.finite(),
{
    let rest: [Double; 4] = [b, c, d, e];
    let coefficients: [Double; 5] = [a, b, c, d, e];
    let mut bound: Double = Double::zeroed();
    let mut i: usize = 0;
    while i < 4
        invariant
            i <= 4,
            bound == cauchy_bound(a, rest@, i as nat),
        decreases 4 - i,
    {
        bound = max_number(bound, rest[i].over(a).abs());
        i = i + 1;
    }
    bound = bound.plus(Double::from_bits(0x3ff0_0000_0000_0000));
    let k: &[Double] = coefficients.as_slice();
    proof {
        assert(rest@ =~= seq![b, c, d, e]);
        assert(k@ =~= seq![a] + rest@);
    }
    let m: Vec<Mark> = marks_of(k, critical, bound);
    let mut raw: Vec<Double> = Vec::new();
    let mut j: usize = 0;
    while j < m.len()
        invariant
            j <= m@.len(),
            raw@ == repeated_roots(m@, j as nat),
        decreases m@.len() - j,
    {
        if m[j].repeated {
            add_copies(&mut raw, m[j].x, m[j].copies);
        }
        j = j + 1;
    }
    let ghost found = raw@;
    let mut n: usize = 0;
    while n < m.len() - 1
        invariant
            n <= m@.len() - 1,
            k@.len() == 5,
            raw@ == simple_roots(k@, m@, found, n as nat),
        decreases m@.len() - 1 - n,
    {
        if raw.len() < 4 && sign_changes(k, &m[n], &m[n + 1]) {
            raw.push(refine_bracket(k, m[n].x, m[n + 1].x));
        }
        n = n + 1;
    }
    RootSet::from_raw(raw.as_slice(), 4)
}

} // verus!
