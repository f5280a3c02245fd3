//! Integers of any size, for exact determinants and exact conversions.

use vstd::arithmetic::div_mod::*;
use vstd::arithmetic::mul::*;
use vstd::arithmetic::power2::*;
use vstd::prelude::*;

verus! {

/// The weight of the limb at index `i`.
pub open spec fn weight(i: nat) -> nat {
    pow2(32 * i)
}

/// The limb at index `i`, zero beyond the last.
pub open spec fn digit(s: Seq<u32>, i: int) -> nat {
    if 0 <= i < s.len() {
        s[i] as nat
    } else {
        0
    }
}

/// The value of the lowest `n` limbs.
pub open spec fn prefix(s: Seq<u32>, n: nat) -> nat
    decreases n,
{
    if n == 0 {
        0
    } else {
        prefix(s, (n - 1) as nat) + digit(s, n - 1) * weight((n - 1) as nat)
    }
}

/// The value of all limbs.
pub open spec fn limbs_value(s: Seq<u32>) -> nat {
    prefix(s, s.len())
}

proof fn lemma_weight_step(i: nat)
    ensures
        weight(i + 1) == weight(i) * 0x1_0000_0000,
        weight(i) > 0,
        weight(0) == 1,
{
    lemma2_to64();
    lemma_pow2_adds(32 * i, 32);
    lemma_pow2_pos(32 * i);
    assert(32 * (i + 1) == 32 * i + 32);
}

proof fn lemma_prefix_bound(s: Seq<u32>, n: nat)
    ensures
        prefix(s, n) < weight(n),
    decreases n,
{
    lemma_weight_step(n);
    if n > 0 {
        let m = (n - 1) as nat;
        lemma_prefix_bound(s, m);
        lemma_weight_step(m);
        let w = weight(m) as int;
        let d = digit(s, n - 1) as int;
        assert(d * w <= 0xffff_ffff * w) by (nonlinear_arith)
            requires
                d <= 0xffff_ffff,
                w > 0,
        ;
    }
}

proof fn lemma_prefix_beyond(s: Seq<u32>, n: nat)
    requires
        n >= s.len(),
    ensures
        prefix(s, n) == limbs_value(s),
    decreases n,
{
    if n > s.len() {
        lemma_prefix_beyond(s, (n - 1) as nat);
        lemma_mul_basics(weight((n - 1) as nat) as int);
    }
}

proof fn lemma_prefix_agree(s: Seq<u32>, t: Seq<u32>, n: nat)
    requires
        forall|i: int| 0 <= i < n ==> digit(s, i) == #[trigger] digit(t, i),
    ensures
        prefix(s, n) == prefix(t, n),
    decreases n,
{
    if n > 0 {
        lemma_prefix_agree(s, t, (n - 1) as nat);
        assert(digit(s, n - 1) == digit(t, n - 1));
    }
}

proof fn lemma_push_value(s: Seq<u32>, d: u32)
    ensures
        limbs_value(s.push(d)) == limbs_value(s) + d * weight(s.len()),
{
    let t = s.push(d);
    assert forall|i: int| 0 <= i < s.len() implies digit(s, i) == #[trigger] digit(t, i) by {
    }
    lemma_prefix_agree(s, t, s.len());
}

/// Zero exactly when every limb is.
proof fn lemma_value_zero(s: Seq<u32>, n: nat)
    ensures
        prefix(s, n) == 0 <==> forall|i: int| 0 <= i < n ==> #[trigger] digit(s, i) == 0,
    decreases n,
{
    if n > 0 {
        let m = (n - 1) as nat;
        lemma_value_zero(s, m);
        lemma_weight_step(m);
        let d = digit(s, n - 1) as int;
        let w = weight(m) as int;
        assert(d > 0 ==> d * w > 0) by (nonlinear_arith)
            requires
                w > 0,
        ;
        assert(d == 0 ==> d * w == 0) by (nonlinear_arith);
        if prefix(s, n) != 0 && prefix(s, m) == 0 {
            assert(digit(s, n - 1) != 0);
        }
    }
}

/// The limb at index `i`, zero beyond the last.
fn limb(v: &Vec<u32>, i: usize) -> (d: u32)
    ensures
        d == digit(v@, i as int),
{
    if i < v.len() {
        v[i]
    } else {
        0
    }
}

/// Limbs without the leading zeros.
spec fn trimmed(s: Seq<u32>) -> Seq<u32>
    decreases s.len(),
{
    if s.len() > 0 && s.last() == 0 {
        trimmed(s.drop_last())
    } else {
        s
    }
}

/// Drops the leading zero limbs.
fn trim(v: &mut Vec<u32>)
    ensures
        final(v)@ == trimmed(old(v)@),
        limbs_value(final(v)@) == limbs_value(old(v)@),
{
    let ghost all = limbs_value(v@);
    let ghost left = trimmed(v@);
    while v.len() > 0 && v[v.len() - 1] == 0
        invariant
            limbs_value(v@) == all,
            trimmed(v@) == left,
        decreases v.len(),
    {
        let ghost was = v@;
        v.pop();
        proof {
            assert(was =~= v@.push(0));
            assert(was.drop_last() =~= v@);
            lemma_push_value(v@, 0);
            lemma_mul_basics(weight(v@.len()) as int);
        }
    }
}

/// The sum of two magnitudes.
fn add_limbs(a: &Vec<u32>, b: &Vec<u32>) -> (r: Vec<u32>)
    ensures
        limbs_value(r@) == limbs_value(a@) + limbs_value(b@),
{
    let n: usize = if a.len() > b.len() { a.len() } else { b.len() };
    let mut r: Vec<u32> = Vec::new();
    let mut carry: u64 = 0;
    let mut i: usize = 0;
    while i < n
        invariant
            i <= n,
            n == if a.len() > b.len() { a.len() } else { b.len() },
            r.len() == i,
            carry <= 1,
            limbs_value(r@) + carry * weight(i as nat) == prefix(a@, i as nat) + prefix(b@, i as nat),
        decreases n - i,
    {
        let x: u64 = limb(a, i) as u64;
        let y: u64 = limb(b, i) as u64;
        let t: u64 = x + y + carry;
        let low: u64 = t % 0x1_0000_0000;
        let high: u64 = t / 0x1_0000_0000;
        proof {
            let w = weight(i as nat) as int;
            lemma_weight_step(i as nat);
            lemma_push_value(r@, low as u32);
            let v = weight((i + 1) as nat) as int;
            assert(low * w + high * v == x * w + y * w + carry * w) by (nonlinear_arith)
                requires
                    x + y + carry == low + high * 0x1_0000_0000,
                    v == w * 0x1_0000_0000,
            ;
        }
        r.push(low as u32);
        carry = high;
        i = i + 1;
    }
    proof {
        lemma_prefix_beyond(a@, n as nat);
        lemma_prefix_beyond(b@, n as nat);
        lemma_push_value(r@, carry as u32);
    }
    r.push(carry as u32);
    trim(&mut r);
    r
}

/// The difference of two magnitudes, and whether it went below zero.
fn sub_limbs(a: &Vec<u32>, b: &Vec<u32>) -> (r: (Vec<u32>, bool))
    ensures
        r.1 == (limbs_value(a@) < limbs_value(b@)),
        !r.1 ==> limbs_value(r.0@) == limbs_value(a@) - limbs_value(b@),
{
    let n: usize = if a.len() > b.len() { a.len() } else { b.len() };
    let mut r: Vec<u32> = Vec::new();
    let mut borrow: i64 = 0;
    let mut i: usize = 0;
    while i < n
        invariant
            i <= n,
            n == if a.len() > b.len() { a.len() } else { b.len() },
            r.len() == i,
            0 <= borrow <= 1,
            limbs_value(r@) - borrow * weight(i as nat) == prefix(a@, i as nat) - prefix(b@, i as nat),
        decreases n - i,
    {
        let x: i64 = limb(a, i) as i64;
        let y: i64 = limb(b, i) as i64;
        let t: i64 = x - y - borrow;
        let next: i64 = if t < 0 { 1 } else { 0 };
        let low: i64 = if t < 0 { t + 0x1_0000_0000 } else { t };
        proof {
            let w = weight(i as nat) as int;
            lemma_weight_step(i as nat);
            lemma_push_value(r@, low as u32);
            let v = weight((i + 1) as nat) as int;
            assert(low * w - next * v == x * w - y * w - borrow * w) by (nonlinear_arith)
                requires
                    x - y - borrow == low - next * 0x1_0000_0000,
                    v == w * 0x1_0000_0000,
            ;
        }
        r.push(low as u32);
        borrow = next;
        i = i + 1;
    }
    proof {
        lemma_prefix_beyond(a@, n as nat);
        lemma_prefix_beyond(b@, n as nat);
        lemma_prefix_bound(r@, n as nat);
        lemma_weight_step(n as nat);
        assert(borrow == 1 ==> borrow * weight(n as nat) == weight(n as nat));
        assert(borrow == 0 ==> borrow * weight(n as nat) == 0);
    }
    trim(&mut r);
    (r, borrow == 1)
}

/// A magnitude times one limb.
fn mul_limb(a: &Vec<u32>, d: u32) -> (r: Vec<u32>)
    ensures
        limbs_value(r@) == limbs_value(a@) * d,
{
    let mut r: Vec<u32> = Vec::new();
    let mut carry: u64 = 0;
    let mut i: usize = 0;
    proof {
        assert(0 * d == 0) by (nonlinear_arith);
    }
    while i < a.len()
        invariant
            i <= a.len(),
            r.len() == i,
            carry <= 0xffff_ffff,
            limbs_value(r@) + carry * weight(i as nat) == prefix(a@, i as nat) * d,
        decreases a.len() - i,
    {
        let x: u64 = a[i] as u64;
        proof {
            assert(x * d <= 0xffff_ffff * 0xffff_ffff) by (nonlinear_arith)
                requires
                    x <= 0xffff_ffff,
                    d <= 0xffff_ffff,
            ;
        }
        let t: u64 = x * d as u64 + carry;
        let low: u64 = t % 0x1_0000_0000;
        let high: u64 = t / 0x1_0000_0000;
        proof {
            let w = weight(i as nat) as int;
            lemma_weight_step(i as nat);
            lemma_push_value(r@, low as u32);
            let v = weight((i + 1) as nat) as int;
            let p = prefix(a@, i as nat) as int;
            assert(low * w + high * v == x * w * d + carry * w) by (nonlinear_arith)
                requires
                    x * d + carry == low + high * 0x1_0000_0000,
                    v == w * 0x1_0000_0000,
            ;
            assert((p + x * w) * d == p * d + x * w * d) by (nonlinear_arith);
        }
        r.push(low as u32);
        carry = high;
        i = i + 1;
    }
    proof {
        lemma_push_value(r@, carry as u32);
    }
    r.push(carry as u32);
    trim(&mut r);
    r
}

proof fn lemma_shift_prefix(s: Seq<u32>, q: nat, n: nat)
    requires
        n <= s.len(),
    ensures
        prefix(Seq::new(q, |i: int| 0u32) + s, q + n) == prefix(s, n) * weight(q),
    decreases n,
{
    let t = Seq::new(q, |i: int| 0u32) + s;
    if n == 0 {
        lemma_value_zero(t, q);
        assert(forall|i: int| 0 <= i < q ==> #[trigger] digit(t, i) == 0);
        lemma_mul_basics(weight(q) as int);
    } else {
        let m = (n - 1) as nat;
        lemma_shift_prefix(s, q, m);
        assert(digit(t, (q + m) as int) == digit(s, m as int));
        lemma_pow2_adds(32 * m, 32 * q);
        assert(32 * m + 32 * q == 32 * (q + m));
        let d = digit(s, m as int) as int;
        let p = prefix(s, m) as int;
        let wm = weight(m) as int;
        let wq = weight(q) as int;
        assert((p + d * wm) * wq == p * wq + d * (wm * wq)) by (nonlinear_arith);
    }
}

/// A magnitude moved up by whole limbs.
fn shift_limbs(a: &Vec<u32>, q: usize) -> (r: Vec<u32>)
    ensures
        limbs_value(r@) == limbs_value(a@) * weight(q as nat),
{
    let mut r: Vec<u32> = Vec::new();
    let mut i: usize = 0;
    while i < q
        invariant
            i <= q,
            r@ == Seq::new(i as nat, |i: int| 0u32),
        decreases q - i,
    {
        r.push(0);
        i = i + 1;
        proof {
            assert(r@ =~= Seq::new(i as nat, |i: int| 0u32));
        }
    }
    let mut j: usize = 0;
    while j < a.len()
        invariant
            j <= a.len(),
            r@ == Seq::new(q as nat, |i: int| 0u32) + a@.subrange(0, j as int),
        decreases a.len() - j,
    {
        r.push(a[j]);
        j = j + 1;
        proof {
            assert(r@ =~= Seq::new(q as nat, |i: int| 0u32) + a@.subrange(0, j as int));
        }
    }
    proof {
        assert(a@.subrange(0, a@.len() as int) =~= a@);
        lemma_shift_prefix(a@, q as nat, a@.len());
    }
    r
}

/// The product of two magnitudes.
fn mul_limbs(a: &Vec<u32>, b: &Vec<u32>) -> (r: Vec<u32>)
    ensures
        limbs_value(r@) == limbs_value(a@) * limbs_value(b@),
{
    let mut r: Vec<u32> = Vec::new();
    let mut i: usize = 0;
    proof {
        assert(0 * limbs_value(b@) == 0) by (nonlinear_arith);
    }
    while i < a.len()
        invariant
            i <= a.len(),
            limbs_value(r@) == prefix(a@, i as nat) * limbs_value(b@),
        decreases a.len() - i,
    {
        let part: Vec<u32> = shift_limbs(&mul_limb(b, a[i]), i);
        let next: Vec<u32> = add_limbs(&r, &part);
        proof {
            let p = prefix(a@, i as nat) as int;
            let v = limbs_value(b@) as int;
            let d = a@[i as int] as int;
            let w = weight(i as nat) as int;
            assert((p + d * w) * v == p * v + v * d * w) by (nonlinear_arith);
        }
        r = next;
        i = i + 1;
    }
    r
}

/// An integer of any size, as a sign and a magnitude.
#[derive(Debug)]
pub struct Integer {
    negative: bool,
    limbs: Vec<u32>,
}

impl View for Integer {
    type V = int;

    closed spec fn view(&self) -> int {
        if self.negative {
            -(limbs_value(self.limbs@) as int)
        } else {
            limbs_value(self.limbs@) as int
        }
    }
}

/// The sign of an integer.
pub open spec fn sign_of(v: int) -> int {
    if v < 0 {
        -1
    } else if v == 0 {
        0
    } else {
        1
    }
}

impl Integer {
    /// `m * 2^shift`, negated when asked.
    pub fn shifted(negative: bool, m: u64, shift: u32) -> (r: Integer)
        requires
            shift <= 0x1_0000,
        ensures
            r@ == if negative {
                -(m * pow2(shift as nat))
            } else {
                m * pow2(shift as nat)
            },
    {
        let mut v: Vec<u32> = Vec::new();
        let low: u32 = (m % 0x1_0000_0000) as u32;
        let high: u32 = (m / 0x1_0000_0000) as u32;
        proof {
            lemma_push_value(Seq::empty(), low);
            lemma_push_value(Seq::<u32>::empty().push(low), high);
            lemma_weight_step(0);
        }
        v.push(low);
        v.push(high);
        let small: u32 = shift % 32;
        let whole: u32 = shift / 32;
        proof {
            assert(v@ =~= Seq::<u32>::empty().push(low).push(high));
            assert(low * weight(0) == low) by {
                lemma_mul_basics(low as int);
            }
            assert(limbs_value(Seq::<u32>::empty()) == 0);
            assert(weight(1) == 0x1_0000_0000);
            assert(limbs_value(v@) == low + high * 0x1_0000_0000);
            lemma_pow2_adds(small as nat, 32 * (whole as nat));
            lemma2_to64();
            if small < 31 {
                lemma_pow2_strictly_increases(small as nat, 31);
            }
        }
        let factor: u32 = crate::rounding::two_to(small as i32) as u32;
        let limbs: Vec<u32> = shift_limbs(&mul_limb(&v, factor), whole as usize);
        proof {
            let p = pow2(small as nat) as int;
            let w = weight(whole as nat) as int;
            assert(m * p * w == m * (p * w)) by (nonlinear_arith);
        }
        Integer { negative, limbs }
    }

    /// The sum.
    pub fn plus(&self, other: &Integer) -> (r: Integer)
        ensures
            r@ == self@ + other@,
    {
        if self.negative == other.negative {
            return Integer { negative: self.negative, limbs: add_limbs(&self.limbs, &other.limbs) };
        }
        let (r, below) = sub_limbs(&self.limbs, &other.limbs);
        if !below {
            return Integer { negative: self.negative, limbs: r };
        }
        let (r, _) = sub_limbs(&other.limbs, &self.limbs);
        Integer { negative: other.negative, limbs: r }
    }

    /// The difference.
    pub fn minus(&self, other: &Integer) -> (r: Integer)
        ensures
            r@ == self@ - other@,
    {
        if self.negative != other.negative {
            return Integer { negative: self.negative, limbs: add_limbs(&self.limbs, &other.limbs) };
        }
        let (r, below) = sub_limbs(&self.limbs, &other.limbs);
        if !below {
            return Integer { negative: self.negative, limbs: r };
        }
        let (r, _) = sub_limbs(&other.limbs, &self.limbs);
        Integer { negative: !self.negative, limbs: r }
    }

    /// The product.
    pub fn times(&self, other: &Integer) -> (r: Integer)
        ensures
            r@ == self@ * other@,
    {
        let limbs: Vec<u32> = mul_limbs(&self.limbs, &other.limbs);
        proof {
            let x = limbs_value(self.limbs@) as int;
            let y = limbs_value(other.limbs@) as int;
            assert((-x) * y == -(x * y)) by (nonlinear_arith);
            assert(x * (-y) == -(x * y)) by (nonlinear_arith);
            assert((-x) * (-y) == x * y) by (nonlinear_arith);
        }
        Integer { negative: self.negative != other.negative, limbs }
    }

    /// The sign: -1, 0 or 1.
    pub fn signum(&self) -> (r: i8)
        ensures
            r == sign_of(self@),
    {
        proof {
            lemma_value_zero(self.limbs@, self.limbs@.len());
        }
        let mut i: usize = 0;
        while i < self.limbs.len()
            invariant
                i <= self.limbs.len(),
                forall|j: int| 0 <= j < i ==> #[trigger] digit(self.limbs@, j) == 0,
                limbs_value(self.limbs@) == 0 <==> forall|j: int|
                    0 <= j < self.limbs@.len() ==> #[trigger] digit(self.limbs@, j) == 0,
            decreases self.limbs.len() - i,
        {
            if self.limbs[i] != 0 {
                assert(digit(self.limbs@, i as int) != 0);
                return if self.negative { -1 } else { 1 };
            }
            i = i + 1;
        }
        0
    }
}

/// The number of bits of a magnitude, zero for none.
pub open spec fn bits_of(v: int, b: int) -> bool {
    if v == 0 {
        b == 0
    } else {
        b > 0 && pow2((b - 1) as nat) <= v < pow2(b as nat)
    }
}

impl Integer {
    /// The number of bits of a nonnegative integer.
    pub fn bits(&self) -> (b: u128)
        requires
            self@ >= 0,
        ensures
            bits_of(self@, b as int),
            b <= 0x10_0000_0000_0000_0000_0000,
    {
        let mut n: usize = self.limbs.len();
        proof {
            lemma_value_zero(self.limbs@, self.limbs@.len());
        }
        while n > 0 && self.limbs[n - 1] == 0
            invariant
                n <= self.limbs.len(),
                limbs_value(self.limbs@) == prefix(self.limbs@, n as nat),
            decreases n,
        {
            proof {
                lemma_mul_basics(weight((n - 1) as nat) as int);
            }
            n = n - 1;
        }
        if n == 0 {
            return 0;
        }
        let top: u32 = self.limbs[n - 1];
        let len: u32 = crate::rounding::bit_length(top as u128);
        proof {
            let m = (n - 1) as nat;
            let w = weight(m) as int;
            let v = prefix(self.limbs@, n as nat) as int;
            let low = prefix(self.limbs@, m) as int;
            lemma_prefix_bound(self.limbs@, m);
            lemma_weight_step(m);
            lemma_pow2_adds(len as nat, 32 * m);
            lemma_pow2_adds((len - 1) as nat, 32 * m);
            assert(v == low + top * w);
            assert(v < pow2(len as nat) * w) by (nonlinear_arith)
                requires
                    v == low + top * w,
                    0 <= low < w,
                    top + 1 <= pow2(len as nat),
            ;
            assert(v >= pow2((len - 1) as nat) * w) by (nonlinear_arith)
                requires
                    v == low + top * w,
                    0 <= low,
                    w > 0,
                    top >= pow2((len - 1) as nat),
            ;
            assert(v > 0) by {
                lemma_pow2_pos((len - 1) as nat);
                lemma_mul_strictly_positive(pow2((len - 1) as nat) as int, w);
            }
            assert(len + 32 * m == 32 * (n - 1) + len);
        }
        32 * (n as u128 - 1) + len as u128
    }

    /// True if `self >= other`.
    pub fn at_least(&self, other: &Integer) -> (r: bool)
        ensures
            r == (self@ >= other@),
    {
        self.minus(other).signum() >= 0
    }

    /// Ten times the integer, and a digit more.
    pub fn with_digit(&self, d: u32) -> (r: Integer)
        requires
            self@ >= 0,
        ensures
            r@ == 10 * self@ + d,
    {
        let ten: Integer = Integer::small(10);
        let digit: Integer = Integer::small(d);
        proof {
            lemma_mul_is_commutative(10, self@);
        }
        self.times(&ten).plus(&digit)
    }

    /// A small integer.
    pub fn small(d: u32) -> (r: Integer)
        ensures
            r@ == d,
    {
        let mut limbs: Vec<u32> = Vec::new();
        proof {
            lemma_push_value(Seq::empty(), d);
            lemma_weight_step(0);
            lemma_mul_basics(d as int);
        }
        limbs.push(d);
        proof {
            assert(limbs@ =~= Seq::<u32>::empty().push(d));
            assert(limbs_value(Seq::<u32>::empty()) == 0);
        }
        Integer { negative: false, limbs }
    }

    /// A copy.
    pub fn copy(&self) -> (r: Integer)
        ensures
            r@ == self@,
    {
        self.plus(&Integer::small(0))
    }

    /// The integer times a power of two.
    pub fn scaled_up(&self, shift: u128) -> (r: Integer)
        ensures
            r@ == self@ * pow2(shift as nat),
    {
        let mut r: Integer = self.copy();
        let mut left: u128 = shift;
        let big: Integer = Integer::shifted(false, 1, 1024);
        proof {
            lemma_mul_basics(self@);
            lemma_mul_basics(pow2(1024) as int);
        }
        while left >= 1024
            invariant
                left <= shift,
                big@ == pow2(1024),
                r@ * pow2(left as nat) == self@ * pow2(shift as nat),
            decreases left,
        {
            proof {
                lemma_pow2_adds(1024, (left - 1024) as nat);
                lemma_mul_is_associative(r@, pow2(1024) as int, pow2((left - 1024) as nat) as int);
            }
            r = r.times(&big);
            left = left - 1024;
        }
        let rest: Integer = Integer::shifted(false, 1, left as u32);
        proof {
            lemma_mul_basics(pow2(left as nat) as int);
        }
        r.times(&rest)
    }
}

} // verus!
