//! Reading decimal numbers, correctly rounded.

use crate::arithmetic::{lemma_nearest_zero, make_infinity, make_zero, not_a_number, signed_infinity, signed_zero};
use crate::double::{Double, HIDDEN, NAN_BITS};
use crate::integer::{bits_of, Integer};
use crate::rounding::{excess, lemma_excess_bounds, lemma_quotient_range, nearest, pack, plus, scaled};
use crate::text::{decimal_digit, digits_value, excerpt, integer_of, position_of, same_text, unsigned_part};
use vstd::arithmetic::div_mod::*;
use vstd::arithmetic::mul::*;
use vstd::arithmetic::power::*;
use vstd::arithmetic::power2::*;
use vstd::prelude::*;

verus! {

/// The double nearest plus or minus `n / d`, both whole numbers.
pub(crate) fn round_ratio(negative: bool, n: &Integer, d: &Integer) -> (r: Double)
    requires
        n@ >= 0,
        d@ > 0,
    ensures
        r == nearest(negative, n@, d@),
{
    let bn: u128 = n.bits();
    let bd: u128 = d.bits();
    if bn == 0 {
        proof {
            lemma_nearest_zero(negative, d@);
        }
        return make_zero(negative);
    }
    // scale both so that the ratio lies between one half and two
    let x: Integer = if bn >= bd { n.copy() } else { n.scaled_up(bd - bn) };
    let y: Integer = if bn >= bd { d.scaled_up(bn - bd) } else { d.copy() };
    let ghost up = if bn >= bd { 0int } else { bd - bn };
    let ghost down = if bn >= bd { bn - bd } else { 0int };
    proof {
        lemma2_to64();
        lemma_mul_basics(n@);
        lemma_mul_basics(d@);
        assert(x@ == n@ * pow2(up as nat));
        assert(y@ == d@ * pow2(down as nat));
        lemma_scaled_bits(n@, bn as int, up as nat);
        lemma_scaled_bits(d@, bd as int, down as nat);
        lemma_pow2_pos((bd - 1) as nat);
    }
    let ghost top = bn + up;
    proof {
        assert(top == bd + down);
        lemma_pow2_unfold(top as nat);
        lemma_pow2_pos((top - 1) as nat);
    }
    // restoring division, sixty-four bits of it
    let mut rest: Integer = x.copy();
    let mut m: u128 = 0;
    if rest.at_least(&y) {
        rest = rest.minus(&y);
        m = 1;
    }
    let mut i: u32 = 0;
    while i < 64
        invariant
            i <= 64,
            y@ > 0,
            x@ > 0,
            y@ < 2 * x@,
            x@ < 2 * y@,
            0 <= rest@ < y@,
            x@ * pow2(i as nat) == m * y@ + rest@,
            m < 2 * pow2(i as nat),
        decreases 64 - i,
    {
        let twice: Integer = rest.plus(&rest);
        proof {
            lemma_pow2_unfold((i + 1) as nat);
            lemma2_to64();
            lemma2_to64_rest();
            if i < 63 {
                lemma_pow2_strictly_increases(i as nat, 63);
            }
            let p = pow2(i as nat) as int;
            assert(x@ * (2 * p) == 2 * (x@ * p)) by (nonlinear_arith);
            assert((2 * m) * y@ == 2 * (m * y@)) by (nonlinear_arith);
            assert((2 * m + 1) * y@ == 2 * (m * y@) + y@) by (nonlinear_arith);
        }
        if twice.at_least(&y) {
            rest = twice.minus(&y);
            m = 2 * m + 1;
        } else {
            rest = twice;
            m = 2 * m;
        }
        i = i + 1;
    }
    let sticky: bool = rest.signum() != 0;
    let e: i128 = bn as i128 - bd as i128 - 64;
    proof {
        lemma2_to64();
        lemma2_to64_rest();
        assert(m >= 0x8000_0000_0000_0000 - 1) by (nonlinear_arith)
            requires
                x@ * 0x1_0000_0000_0000_0000 == m * y@ + rest@,
                y@ < 2 * x@,
                0 <= rest@ < y@,
                y@ > 0,
        ;
        lemma_ratio_scaled(n@, d@, x@, y@, m as int, rest@, bn as int, bd as int);
    }
    pack(negative, m, e, sticky, Ghost(n@), Ghost(d@))
}

proof fn lemma_scaled_bits(v: int, b: int, s: nat)
    requires
        v > 0,
        bits_of(v, b),
    ensures
        pow2((b + s - 1) as nat) <= v * pow2(s) < pow2((b + s) as nat),
{
    lemma_pow2_pos(s);
    lemma_pow2_adds((b - 1) as nat, s);
    lemma_pow2_adds(b as nat, s);
    let p = pow2(s) as int;
    let lo = pow2((b - 1) as nat) as int;
    let hi = pow2(b as nat) as int;
    assert(lo * p <= v * p < hi * p) by (nonlinear_arith)
        requires
            lo <= v < hi,
            p > 0,
    ;
}

proof fn lemma_ratio_scaled(n: int, d: int, x: int, y: int, m: int, rest: int, bn: int, bd: int)
    requires
        n > 0,
        d > 0,
        bn > 0,
        bd > 0,
        y > 0,
        x == n * pow2((if bn >= bd { 0int } else { bd - bn }) as nat),
        y == d * pow2((if bn >= bd { bn - bd } else { 0int }) as nat),
        x * pow2(64) == m * y + rest,
        0 <= rest < y,
    ensures
        scaled(n, d, m, bn - bd - 64, rest != 0),
{
    let e = bn - bd - 64;
    let up = (if bn >= bd { 0int } else { bd - bn }) as nat;
    let down = (if bn >= bd { bn - bd } else { 0int }) as nat;
    let p = pow2(plus(e)) as int;
    let c = pow2(plus(-e)) as int;
    let f = pow2(up) as int;
    let g = pow2(down) as int;
    let h = pow2(64) as int;
    lemma_pow2_pos(plus(e));
    lemma_pow2_pos(plus(-e));
    lemma_pow2_pos(up);
    lemma_pow2_pos(down);
    lemma_pow2_pos(64);
    // f h / g == c / p: cross-multiplied
    lemma_pow2_adds(up, 64);
    lemma_pow2_adds((up + 64) as nat, plus(e));
    lemma_pow2_adds(plus(-e), down);
    assert(f * h * p == c * g);
    let unit = p * d;
    let whole = n * c;
    // (n f h) == m d g + rest, times p, gives  n c g == (m unit) g + rest p
    assert(((n * f) * h) * p == n * (f * h * p)) by (nonlinear_arith);
    assert((m * (d * g) + rest) * p == (m * (p * d)) * g + rest * p) by (nonlinear_arith);
    assert(n * (c * g) == (n * c) * g) by (nonlinear_arith);
    assert(whole * g == (m * unit) * g + rest * p);
    assert(unit * g == y * p) by (nonlinear_arith)
        requires
            unit == p * d,
            y == d * g,
    ;
    if rest == 0 {
        assert(whole == m * unit) by (nonlinear_arith)
            requires
                whole * g == (m * unit) * g + rest * p,
                rest == 0,
                g > 0,
        ;
    } else {
        assert(rest * p > 0) by (nonlinear_arith)
            requires
                rest > 0,
                p > 0,
        ;
        assert(rest * p < unit * g) by (nonlinear_arith)
            requires
                rest < y,
                p > 0,
                unit * g == y * p,
        ;
        assert(m * unit < whole) by (nonlinear_arith)
            requires
                whole * g == (m * unit) * g + rest * p,
                rest * p > 0,
                g > 0,
        ;
        assert(whole < (m + 1) * unit) by (nonlinear_arith)
            requires
                whole * g == (m * unit) * g + rest * p,
                rest * p < unit * g,
                g > 0,
        ;
    }
}

/// A text of decimal digits, or none.
pub open spec fn digits_or_none(s: Seq<char>) -> bool {
    forall|i: int| 0 <= i < s.len() ==> decimal_digit(#[trigger] s[i])
}

/// An ASCII letter in lower case, any other character as it is.
pub open spec fn lower(c: char) -> char {
    if 'A' <= c && c <= 'Z' {
        (c as u32 + 32) as char
    } else {
        c
    }
}

/// A text in lower case, as far as ASCII goes.
pub open spec fn lowered(s: Seq<char>) -> Seq<char> {
    Seq::new(s.len(), |i: int| lower(s[i]))
}

/// Where the exponent of a number starts: its first `e` of either case.
pub open spec fn exponent_mark(u: Seq<char>) -> int {
    let a = position_of(u, 'e', 0);
    let b = position_of(u, 'E', 0);
    if a < b {
        a
    } else {
        b
    }
}

/// A decimal number as an integer times a power of ten: digits with at most one
/// point among them, and an exponent behind.
pub open spec fn decimal_of(u: Seq<char>) -> Option<(int, int)> {
    let e = exponent_mark(u);
    let m = u.subrange(0, e);
    let point = position_of(m, '.', 0);
    let whole = m.subrange(0, point);
    let fraction = if point < m.len() {
        m.subrange(point + 1, m.len() as int)
    } else {
        Seq::empty()
    };
    let digits = whole + fraction;
    let exponent = if e < u.len() {
        integer_of(u.subrange(e + 1, u.len() as int))
    } else {
        Some(0int)
    };
    if digits.len() == 0 || !digits_or_none(digits) || exponent is None {
        None
    } else {
        Some((digits_value(digits, digits.len() as int), exponent->0 - fraction.len()))
    }
}

/// The double nearest plus or minus `d * 10^x`.
pub open spec fn nearest_decimal(negative: bool, d: int, x: int) -> Double {
    if x >= 0 {
        nearest(negative, d * pow(10, x as nat) * pow2(1074), 1)
    } else {
        nearest(negative, d * pow2(1074), pow(10, (-x) as nat))
    }
}

/// The double that a text spells: a sign and a decimal number, an infinity or a
/// NaN by name.
#[verifier::opaque]
pub open spec fn number_of(s: Seq<char>) -> Option<Double> {
    let negative = s.len() > 0 && s[0] == '-';
    let u = unsigned_part(s);
    let w = lowered(u);
    if w == "inf"@ || w == "infinity"@ {
        Some(signed_infinity(negative))
    } else if w == "nan"@ {
        Some(not_a_number())
    } else {
        match decimal_of(u) {
            Some((d, x)) => Some(nearest_decimal(negative, d, x)),
            None => None,
        }
    }
}

/// An ASCII letter in lower case.
pub fn to_lower(c: char) -> (r: char)
    ensures
        r == lower(c),
{
    match c {
        'A' => 'a',
        'B' => 'b',
        'C' => 'c',
        'D' => 'd',
        'E' => 'e',
        'F' => 'f',
        'G' => 'g',
        'H' => 'h',
        'I' => 'i',
        'J' => 'j',
        'K' => 'k',
        'L' => 'l',
        'M' => 'm',
        'N' => 'n',
        'O' => 'o',
        'P' => 'p',
        'Q' => 'q',
        'R' => 'r',
        'S' => 's',
        'T' => 't',
        'U' => 'u',
        'V' => 'v',
        'W' => 'w',
        'X' => 'x',
        'Y' => 'y',
        'Z' => 'z',
        _ => c,
    }
}

/// A text in lower case.
pub fn to_lowered(s: &[char]) -> (v: Vec<char>)
    ensures
        v@ == lowered(s@),
{
    let mut v: Vec<char> = Vec::new();
    let mut i: usize = 0;
    while i < s.len()
        invariant
            i <= s.len(),
            v@ == lowered(s@).subrange(0, i as int),
        decreases s.len() - i,
    {
        v.push(to_lower(s[i]));
        i = i + 1;
        proof {
            assert(lowered(s@).subrange(0, i as int) =~= lowered(s@).subrange(0, i - 1).push(lower(s@[i - 1])));
        }
    }
    proof {
        assert(lowered(s@).subrange(0, i as int) =~= lowered(s@));
    }
    v
}

/// The position of a character, or the length of the text.
fn find(s: &[char], c: char) -> (k: usize)
    ensures
        k == position_of(s@, c, 0),
        k <= s@.len(),
{
    let mut k: usize = 0;
    while k < s.len() && s[k] != c
        invariant
            k <= s.len(),
            position_of(s@, c, 0) == position_of(s@, c, k as int),
        decreases s.len() - k,
    {
        k = k + 1;
    }
    k
}

proof fn lemma_digits_value_nonnegative(s: Seq<char>, n: int)
    requires
        0 <= n <= s.len(),
        forall|i: int| 0 <= i < n ==> decimal_digit(#[trigger] s[i]),
    ensures
        0 <= digits_value(s, n) < pow(10, n as nat),
    decreases n,
{
    if n > 0 {
        lemma_digits_value_nonnegative(s, n - 1);
        assert(decimal_digit(s[n - 1]));
        lemma_pow10_unfold(n as nat);
    } else {
        lemma_pow0(10);
    }
}

proof fn lemma_pow10_unfold(n: nat)
    requires
        n > 0,
    ensures
        pow(10, n) == 10 * pow(10, (n - 1) as nat),
        pow(10, n) > 0,
{
    reveal(pow);
    lemma_pow_positive(10, n);
}

/// The digits of a text as an integer, or `None` where something else is among
/// them.
fn collect_digits(s: &[char], start: Integer, Ghost(before): Ghost<Seq<char>>) -> (r: Option<Integer>)
    requires
        digits_or_none(before),
        start@ == digits_value(before, before.len() as int),
    ensures
        r matches Some(v) ==> digits_or_none(s@) && v@ == digits_value(before + s@, (before + s@).len() as int),
        r is None ==> !digits_or_none(s@),
{
    let mut v: Integer = start;
    let mut i: usize = 0;
    let ghost all = before + s@;
    proof {
        lemma_digits_value_prefix(before, all, before.len() as int);
        lemma_digits_value_nonnegative(before, before.len() as int);
    }
    while i < s.len()
        invariant
            i <= s.len(),
            all == before + s@,
            v@ >= 0,
            v@ == digits_value(all, before.len() + i),
            forall|j: int| 0 <= j < i ==> decimal_digit(#[trigger] s@[j]),
        decreases s.len() - i,
    {
        let c: char = s[i];
        if !('0' <= c && c <= '9') {
            assert(!decimal_digit(s@[i as int]));
            return None;
        }
        assert(all[before.len() + i] == c);
        v = v.with_digit(c as u32 - '0' as u32);
        i = i + 1;
    }
    Some(v)
}

proof fn lemma_digits_value_prefix(s: Seq<char>, t: Seq<char>, n: int)
    requires
        0 <= n <= s.len(),
        n <= t.len(),
        forall|i: int| 0 <= i < n ==> s[i] == t[i],
    ensures
        digits_value(s, n) == digits_value(t, n),
    decreases n,
{
    if n > 0 {
        lemma_digits_value_prefix(s, t, n - 1);
    }
}

/// The exponent that a text spells, kept within a range far beyond any that
/// matters.
fn parse_exponent(s: &[char]) -> (r: Option<i128>)
    ensures
        r is Some <==> integer_of(s@) is Some,
        r matches Some(x) ==> ({
            let v = integer_of(s@)->0;
            &&& -0x10_0000_0000_0000_0000_0000_0000 <= x <= 0x10_0000_0000_0000_0000_0000_0000
            &&& x == v || (x == 0x10_0000_0000_0000_0000_0000_0000 && v >= x) || (x
                == -0x10_0000_0000_0000_0000_0000_0000 && v <= x)
        }),
{
    let n: usize = s.len();
    if n == 0 {
        return None;
    }
    let start: usize = if s[0] == '+' || s[0] == '-' { 1 } else { 0 };
    let negative: bool = s[0] == '-';
    let ghost d = unsigned_part(s@);
    proof {
        assert(forall|i: int| 0 <= i < d.len() ==> d[i] == s@[i + start]);
    }
    if start == n {
        return None;
    }
    let mut i: usize = start;
    let mut total: i128 = 0;
    while i < n
        invariant
            start <= i <= n,
            n == s@.len(),
            d == unsigned_part(s@),
            d.len() == n - start,
            forall|j: int| 0 <= j < d.len() ==> d[j] == s@[j + start],
            forall|j: int| 0 <= j < i - start ==> decimal_digit(#[trigger] d[j]),
            0 <= total <= 0x10_0000_0000_0000_0000_0000_0000,
            digits_value(d, i - start) == total || (total == 0x10_0000_0000_0000_0000_0000_0000 && digits_value(
                d,
                i - start,
            ) >= total),
        decreases n - i,
    {
        let c: char = s[i];
        assert(d[i - start] == c);
        if !('0' <= c && c <= '9') {
            assert(!decimal_digit(d[i - start]));
            return None;
        }
        let digit: i128 = (c as u32 - '0' as u32) as i128;
        let next: i128 = 10 * total + digit;
        total = if next > 0x10_0000_0000_0000_0000_0000_0000 { 0x10_0000_0000_0000_0000_0000_0000 } else { next };
        i = i + 1;
    }
    Some(if negative { -total } else { total })
}

/// A power of ten.
fn ten_to(k: u128) -> (r: Integer)
    ensures
        r@ == pow(10, k as nat),
{
    let mut r: Integer = Integer::small(1);
    let mut i: u128 = 0;
    proof {
        lemma_pow0(10);
    }
    while i < k
        invariant
            i <= k,
            r@ == pow(10, i as nat),
            r@ > 0,
        decreases k - i,
    {
        proof {
            lemma_pow10_unfold((i + 1) as nat);
        }
        r = r.with_digit(0);
        i = i + 1;
    }
    r
}

/// Powers of ten outgrow powers of eight.
proof fn lemma_ten_beyond_eight(k: nat)
    ensures
        pow(10, k) >= pow2(3 * k),
    decreases k,
{
    lemma2_to64();
    if k == 0 {
        lemma_pow0(10);
    } else {
        lemma_ten_beyond_eight((k - 1) as nat);
        lemma_pow10_unfold(k);
        lemma_pow2_adds(3, (3 * (k - 1)) as nat);
        assert(3 + 3 * (k - 1) == 3 * k);
    }
}

/// Anything from `10^401` on rounds to infinity.
proof fn lemma_too_large(negative: bool, d: int, x: int)
    requires
        d >= 1,
        x > 400,
    ensures
        nearest_decimal(negative, d, x) == signed_infinity(negative),
{
    lemma_ten_beyond_eight(x as nat);
    let t = pow(10, x as nat);
    let n = d * t * pow2(1074);
    lemma_pow2_strictly_increases(1200, (3 * x) as nat);
    lemma_pow2_adds(1200, 1074);
    lemma_pow2_pos(1074);
    lemma_pow2_pos(1200);
    assert(n >= pow2(1200) * pow2(1074)) by (nonlinear_arith)
        requires
            n == d * t * pow2(1074),
            d >= 1,
            t >= pow2(1200),
            pow2(1074) > 0,
            pow2(1200) > 0,
    ;
    lemma_pow2_strictly_increases(2098, 2274);
    assert(n / 1 == n);
    lemma_excess_bounds(n);
    let e = excess(n);
    if e < 2046 {
        if 53 + e < 2098 {
            lemma_pow2_strictly_increases((53 + e) as nat, 2098);
        }
        assert(false);
    }
    lemma_quotient_range(n, 1);
    let h = HIDDEN as int;
    assert(e * h >= 2046 * h) by (nonlinear_arith)
        requires
            e >= 2046,
            h > 0,
    ;
}

/// Anything below `10^-400` rounds to zero.
proof fn lemma_too_small(negative: bool, d: int, digits: nat, x: int)
    requires
        0 <= d < pow(10, digits),
        digits + x < -400,
    ensures
        nearest_decimal(negative, d, x) == signed_zero(negative),
{
    let k = (-x) as nat;
    let t = pow(10, k);
    let n = d * pow2(1074);
    lemma_pow_adds(10, digits, (k - digits) as nat);
    lemma_ten_beyond_eight((k - digits) as nat);
    lemma_pow2_strictly_increases(1200, (3 * (k - digits)) as nat);
    lemma_pow2_strictly_increases(1075, 1200);
    lemma_pow2_unfold(1075);
    lemma_pow2_pos(1074);
    let p = pow(10, digits);
    let q = pow(10, (k - digits) as nat);
    lemma_pow_positive(10, digits);
    assert(2 * n < t) by (nonlinear_arith)
        requires
            n == d * pow2(1074),
            0 <= d < p,
            t == p * q,
            q > 2 * pow2(1074),
            p > 0,
    ;
    assert(n >= 0) by (nonlinear_arith)
        requires
            n == d * pow2(1074),
            d >= 0,
    ;
    lemma_basic_div(n, t);
    lemma_small_mod(n as nat, t as nat);
    lemma2_to64();
    assert(t * pow2(0) == t);
}

/// The double nearest plus or minus `d * 10^x`.
fn round_decimal(negative: bool, d: &Integer, digits: usize, x: i128) -> (r: Double)
    requires
        0 <= d@ < pow(10, digits as nat),
        -0x20_0000_0000_0000_0000_0000_0000 <= x <= 0x20_0000_0000_0000_0000_0000_0000,
    ensures
        r == nearest_decimal(negative, d@, x as int),
{
    if d.signum() == 0 {
        proof {
            lemma_zero_decimal(negative, x as int);
        }
        return make_zero(negative);
    }
    if x > 400 {
        proof {
            lemma_too_large(negative, d@, x as int);
        }
        return make_infinity(negative);
    }
    if digits as i128 + x < -400 {
        proof {
            lemma_too_small(negative, d@, digits as nat, x as int);
        }
        return make_zero(negative);
    }
    if x >= 0 {
        let t: Integer = ten_to(x as u128);
        let n: Integer = d.times(&t).scaled_up(1074);
        let one: Integer = Integer::small(1);
        proof {
            lemma_pow_positive(10, x as nat);
            lemma_pow2_pos(1074);
            lemma_mul_nonnegative(d@, t@);
            lemma_mul_nonnegative(d@ * t@, pow2(1074) as int);
        }
        round_ratio(negative, &n, &one)
    } else {
        let t: Integer = ten_to((-x) as u128);
        let n: Integer = d.scaled_up(1074);
        proof {
            lemma_pow_positive(10, (-x) as nat);
            lemma_pow2_pos(1074);
            lemma_mul_nonnegative(d@, pow2(1074) as int);
        }
        round_ratio(negative, &n, &t)
    }
}

/// The double that a text spells.
pub fn parse_number(s: &[char]) -> (r: Option<Double>)
    ensures
        r == number_of(s@),
{
    let n: usize = s.len();
    let negative: bool = n > 0 && s[0] == '-';
    let start: usize = if n > 0 && (s[0] == '+' || s[0] == '-') { 1 } else { 0 };
    let u: Vec<char> = excerpt(s, start, n);
    proof {
        reveal(number_of);
        assert(u@ =~= unsigned_part(s@));
    }
    let w: Vec<char> = to_lowered(u.as_slice());
    if same_text(w.as_slice(), "inf") || same_text(w.as_slice(), "infinity") {
        return Some(make_infinity(negative));
    }
    if same_text(w.as_slice(), "nan") {
        return Some(Double::from_bits(NAN_BITS));
    }
    parse_decimal(negative, u.as_slice())
}

/// The double that an unsigned decimal number spells, with a sign.
#[verifier::rlimit(40)]
fn parse_decimal(negative: bool, u: &[char]) -> (r: Option<Double>)
    ensures
        r == match decimal_of(u@) {
            Some((d, x)) => Some(nearest_decimal(negative, d, x)),
            None => None,
        },
{
    let a: usize = find(u, 'e');
    let b: usize = find(u, 'E');
    let e: usize = if a < b { a } else { b };
    let m: Vec<char> = excerpt(u, 0, e);
    let point: usize = find(m.as_slice(), '.');
    let whole: Vec<char> = excerpt(m.as_slice(), 0, point);
    let fraction: Vec<char> = if point < m.len() {
        excerpt(m.as_slice(), point + 1, m.len())
    } else {
        Vec::new()
    };
    let ghost digits = whole@ + fraction@;
    proof {
        assert(fraction@ =~= if point < m@.len() {
            m@.subrange(point + 1, m@.len() as int)
        } else {
            Seq::empty()
        });
        assert(forall|i: int| 0 <= i < whole@.len() ==> digits[i] == whole@[i]);
        assert(forall|i: int| 0 <= i < fraction@.len() ==> digits[i + whole@.len()] == fraction@[i]);
    }
    if whole.len() == 0 && fraction.len() == 0 {
        return None;
    }
    let exponent: i128 = if e < u.len() {
        let tail: Vec<char> = excerpt(u, e + 1, u.len());
        match parse_exponent(tail.as_slice()) {
            Some(x) => x,
            None => {
                return None;
            },
        }
    } else {
        0
    };
    let ghost nothing = Seq::<char>::empty();
    let first: Integer = match collect_digits(whole.as_slice(), Integer::small(0), Ghost(nothing)) {
        Some(v) => v,
        None => {
            proof {
                let i = choose|i: int| 0 <= i < whole@.len() && !decimal_digit(#[trigger] whole@[i]);
                assert(!decimal_digit(digits[i]));
            }
            return None;
        },
    };
    proof {
        assert(nothing + whole@ =~= whole@);
    }
    let all: Integer = match collect_digits(fraction.as_slice(), first, Ghost(whole@)) {
        Some(v) => v,
        None => {
            proof {
                let i = choose|i: int| 0 <= i < fraction@.len() && !decimal_digit(#[trigger] fraction@[i]);
                assert(!decimal_digit(digits[i + whole@.len()]));
            }
            return None;
        },
    };
    proof {
        assert(digits_or_none(digits)) by {
            assert forall|i: int| 0 <= i < digits.len() implies decimal_digit(#[trigger] digits[i]) by {
                if i < whole@.len() {
                    assert(decimal_digit(whole@[i]));
                } else {
                    assert(decimal_digit(fraction@[i - whole@.len()]));
                }
            }
        }
        lemma_digits_value_nonnegative(digits, digits.len() as int);
        assert(whole@.len() + fraction@.len() <= m@.len());
    }
    let count: usize = whole.len() + fraction.len();
    let x: i128 = exponent - fraction.len() as i128;
    let r: Double = round_decimal(negative, &all, count, x);
    proof {
        let v = decimal_of(u@)->0;
        assert(decimal_of(u@) is Some);
        assert(v.0 == all@);
        if x != v.1 {
            lemma_far_exponents(negative, all@, count as nat, x as int, v.1);
        }
    }
    Some(r)
}

proof fn lemma_zero_decimal(negative: bool, x: int)
    ensures
        nearest_decimal(negative, 0, x) == signed_zero(negative),
{
    assert(0 * pow2(1074) == 0) by (nonlinear_arith);
    if x >= 0 {
        assert(0 * pow(10, x as nat) == 0) by (nonlinear_arith);
        lemma_nearest_zero(negative, 1);
    } else {
        lemma_pow_positive(10, (-x) as nat);
        lemma_nearest_zero(negative, pow(10, (-x) as nat));
    }
}

/// Exponents far beyond the range of doubles are alike.
proof fn lemma_far_exponents(negative: bool, d: int, count: nat, x: int, y: int)
    requires
        0 <= d < pow(10, count),
        (x > 400 && y > 400) || (count + x < -400 && count + y < -400),
    ensures
        nearest_decimal(negative, d, x) == nearest_decimal(negative, d, y),
{
    if d == 0 {
        lemma_zero_decimal(negative, x);
        lemma_zero_decimal(negative, y);
    } else if x > 400 {
        lemma_too_large(negative, d, x);
        lemma_too_large(negative, d, y);
    } else {
        lemma_too_small(negative, d, count, x);
        lemma_too_small(negative, d, count, y);
    }
}

} // verus!
