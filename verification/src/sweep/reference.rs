//! Sub-stepping a motion: how many static positions stand for it, and how far
//! they may lie from it.

use crate::arithmetic::{of_int, product, quotient};
use crate::double::Double;
use crate::math::{vector_length, vector_product, vector_sum, Vec3};
use crate::order::law_order_is_value_order;
use crate::rounding::{lemma_pow2_127, two_to};
use crate::span_laws::{law_outcome_is_the_result, outcome};
use crate::spans::{structured, SetOp, Span, Spans};
use crate::sweep::LinearMove;
use vstd::arithmetic::div_mod::*;
use vstd::arithmetic::mul::*;
use vstd::arithmetic::power2::*;
use vstd::prelude::*;

verus! {

/// The largest number of sub-steps that is ever asked for.
pub const MAX_SUBSTEPS: u32 = 0x10_0000;

/// The least integer that is no less than a number that is not negative.
pub open spec fn ceiling(d: Double) -> int {
    let unit = pow2(1074) as int;
    (d.magnitude() + unit - 1) / unit
}

/// [`MAX_SUBSTEPS`] as a double.
pub open spec fn most_substeps() -> Double {
    Double { bits: 0x4130_0000_0000_0000 }
}

/// The steps that bring a deviation of half a step under a tolerance, for a path
/// of a given length: at least one, and no more than the limit.
pub open spec fn steps_for(distance: Double, tolerance: Double) -> int {
    let wanted = quotient(distance, product(Double { bits: 0x4000_0000_0000_0000 }, tolerance));
    if wanted.finite() && wanted.lt(most_substeps()) {
        if wanted.signed() || ceiling(wanted) < 1 {
            1
        } else {
            ceiling(wanted)
        }
    } else {
        MAX_SUBSTEPS as int
    }
}

/// The steps of a motion for a tolerance, and the deviation they leave: none for
/// a motion that goes nowhere.
pub open spec fn substeps(motion: LinearMove, tolerance: Double) -> (u32, Double) {
    let distance = vector_length(motion.step());
    if distance.le(Double { bits: 0 }) {
        (1, Double { bits: 0 })
    } else {
        let n = steps_for(distance, tolerance);
        (n as u32, half_step(distance, n))
    }
}

/// Half of a step, when a path is divided into `n`.
pub open spec fn half_step(distance: Double, n: int) -> Double {
    quotient(distance, product(Double { bits: 0x4000_0000_0000_0000 }, of_int(n)))
}

/// A tolerance that steps can be found for.
pub open spec fn usable(tolerance: Double) -> bool {
    tolerance.finite() && (Double { bits: 0 }).lt(tolerance)
}

proof fn lemma_ceiling_shifted(n: int, m: int, e: nat, t: nat)
    requires
        n == m * pow2(e),
        e + t == 1074,
    ensures
        (n + pow2(1074) - 1) / (pow2(1074) as int) == (m + pow2(t) - 1) / (pow2(t) as int),
{
    let p = pow2(e) as int;
    let w = pow2(t) as int;
    lemma_pow2_pos(e);
    lemma_pow2_pos(t);
    lemma_pow2_adds(e, t);
    let q = m / w;
    let r = m % w;
    lemma_fundamental_div_mod(m, w);
    lemma_mod_bound(m, w);
    let u = p * w;
    assert(n == q * u + r * p) by (nonlinear_arith)
        requires
            n == m * p,
            m == w * q + r,
            u == p * w,
    ;
    assert(u >= 1) by (nonlinear_arith)
        requires
            u == p * w,
            p >= 1,
            w >= 1,
    ;
    if r == 0 {
        assert(r * p == 0) by (nonlinear_arith)
            requires
                r == 0,
        ;
        lemma_fundamental_div_mod_converse(n + u - 1, u, q, u - 1);
        lemma_fundamental_div_mod_converse(m + w - 1, w, q, w - 1);
    } else {
        assert(1 <= r * p <= u) by (nonlinear_arith)
            requires
                1 <= r < w,
                p >= 1,
                u == p * w,
        ;
        assert((q + 1) * u == q * u + u) by (nonlinear_arith);
        assert((q + 1) * w == q * w + w) by (nonlinear_arith);
        lemma_fundamental_div_mod_converse(n + u - 1, u, q + 1, r * p - 1);
        lemma_fundamental_div_mod_converse(m + w - 1, w, q + 1, r - 1);
    }
}

pub proof fn lemma_most_substeps()
    ensures
        most_substeps().finite(),
        most_substeps().value() == 0x10_0000 * pow2(1074),
{
    let d = most_substeps();
    lemma_fundamental_div_mod_converse(0x4130_0000_0000_0000, 0x0010_0000_0000_0000, 0x413, 0);
    assert(d.abs_bits() == 0x4130_0000_0000_0000);
    assert(d.magnitude() == 0x10_0000_0000_0000 * pow2(0x412));
    lemma2_to64();
    lemma2_to64_rest();
    lemma_pow2_adds(32, 0x412);
    lemma_pow2_adds(1074, 0);
    assert(0x412 + 32 == 1074);
    assert(0x10_0000_0000_0000 * pow2(0x412) == 0x10_0000 * (pow2(32) * pow2(0x412))) by (nonlinear_arith)
        requires
            pow2(32) == 0x1_0000_0000,
    ;
}

/// The least integer that is no less than a number below the limit on steps.
fn ceil(d: Double) -> (n: u32)
    requires
        d.finite(),
        !d.signed(),
        d.lt(most_substeps()),
    ensures
        n == ceiling(d),
        n <= MAX_SUBSTEPS,
{
    let (m, e) = d.decode();
    proof {
        lemma_most_substeps();
        law_order_is_value_order(d, most_substeps());
        lemma_pow2_pos(1074);
        lemma_pow2_pos(e as nat);
        let unit = pow2(1074) as int;
        assert(d.magnitude() + unit - 1 < 0x10_0001 * unit);
        assert(ceiling(d) <= 0x10_0000) by {
            lemma_fundamental_div_mod(d.magnitude() + unit - 1, unit);
            lemma_mod_bound(d.magnitude() + unit - 1, unit);
            assert(ceiling(d) <= 0x10_0000) by (nonlinear_arith)
                requires
                    unit * ceiling(d) <= d.magnitude() + unit - 1 < 0x10_0001 * unit,
                    unit > 0,
            ;
        }
    }
    if m == 0 {
        proof {
            lemma_basic_div(pow2(1074) - 1, pow2(1074) as int);
        }
        return 0;
    }
    if e >= 1074 {
        let k: u32 = e - 1074;
        proof {
            lemma_pow2_pos(k as nat);
            lemma_pow2_adds(1074, k as nat);
            let unit = pow2(1074) as int;
            let w = pow2(k as nat) as int;
            assert(d.magnitude() == (m * w) * unit) by (nonlinear_arith)
                requires
                    d.magnitude() == m * (unit * w),
            ;
            lemma_fundamental_div_mod_converse(d.magnitude() + unit - 1, unit, m * w, unit - 1);
            assert(m * w >= w) by (nonlinear_arith)
                requires
                    m >= 1,
                    w >= 1,
            ;
            lemma2_to64();
            if k > 20 {
                lemma_pow2_strictly_increases(20, k as nat);
            } else if k < 20 {
                lemma_pow2_strictly_increases(k as nat, 20);
            }
        }
        let r: u128 = (m as u128) * two_to(k as i32);
        return r as u32;
    }
    let t: u32 = 1074 - e;
    proof {
        lemma_ceiling_shifted(d.magnitude(), m as int, e as nat, t as nat);
        lemma_pow2_pos(t as nat);
    }
    if t > 100 {
        proof {
            lemma2_to64_rest();
            lemma_pow2_strictly_increases(64, t as nat);
            lemma_fundamental_div_mod_converse(m + pow2(t as nat) - 1, pow2(t as nat) as int, 1, m - 1);
        }
        return 1;
    }
    proof {
        lemma_pow2_127();
        lemma_pow2_strictly_increases(t as nat, 127);
    }
    let w: u128 = two_to(t as i32);
    let r: u128 = ((m as u128) + w - 1) / w;
    r as u32
}

/// Sub-steps needed to bring the deviation of a stepped motion under a
/// tolerance, and the deviation they leave.
pub fn substeps_for_error(motion: &LinearMove, tolerance: Double) -> (r: (u32, Double))
    requires
        usable(tolerance),
    ensures
        r == substeps(*motion, tolerance),
        1 <= r.0 <= MAX_SUBSTEPS,
{
    let distance: Double = motion.delta().length();
    if distance.at_most(Double::zeroed()) {
        return (1, Double::zeroed());
    }
    let n: u32 = steps_along(distance, tolerance);
    let two: Double = Double::from_bits(0x4000_0000_0000_0000);
    (n, distance.over(two.times(Double::from_i64(n as i64))))
}

/// The steps for a path of a given length.
pub(crate) fn steps_along(distance: Double, tolerance: Double) -> (n: u32)
    ensures
        n == steps_for(distance, tolerance),
        1 <= n <= MAX_SUBSTEPS,
{
    let two: Double = Double::from_bits(0x4000_0000_0000_0000);
    let wanted: Double = distance.over(two.times(tolerance));
    if wanted.is_finite() && wanted.less(Double::from_bits(0x4130_0000_0000_0000)) {
        if wanted.is_sign_negative() {
            return 1;
        }
        let n: u32 = ceil(wanted);
        if n < 1 {
            1
        } else {
            n
        }
    } else {
        MAX_SUBSTEPS
    }
}

/// Where the tip stands at step `k` of `n`.
pub open spec fn position(motion: LinearMove, n: u32, k: int) -> Vec3 {
    vector_sum(motion.start, vector_product(motion.step(), quotient(of_int(k), of_int(n as int))))
}

/// The tip positions of a motion divided into steps, both ends among them.
pub fn positions(motion: &LinearMove, steps: u32) -> (v: Vec<Vec3>)
    requires
        0 < steps < u32::MAX,
    ensures
        v@.len() == steps + 1,
        forall|k: int| 0 <= k <= steps ==> #[trigger] v@[k] == position(*motion, steps, k),
{
    let mut v: Vec<Vec3> = Vec::new();
    let mut k: u32 = 0;
    while k <= steps
        invariant
            k <= steps + 1,
            steps < u32::MAX,
            v@.len() == k,
            forall|i: int| 0 <= i < k ==> #[trigger] v@[i] == position(*motion, steps, i),
        decreases steps + 1 - k,
    {
        let s: Double = Double::from_i64(k as i64).over(Double::from_i64(steps as i64));
        v.push(motion.at(s));
        k = k + 1;
    }
    v
}

/// The pieces joined one after the other.
pub open spec fn joined(pieces: Seq<Spans>, n: nat) -> Seq<Span>
    decreases n,
{
    if n == 0 {
        Seq::empty()
    } else if pieces[n - 1]@.len() == 0 {
        joined(pieces, (n - 1) as nat)
    } else {
        outcome(SetOp::Union, joined(pieces, (n - 1) as nat), pieces[n - 1]@)
    }
}

/// What a stepped motion covers of a ray, from what the tool covers at each of
/// its positions.
pub fn union_all(pieces: &[Spans]) -> (r: Spans)
    requires
        forall|i: int| 0 <= i < pieces@.len() ==> (#[trigger] pieces@[i]).wf(),
    ensures
        r@ == joined(pieces@, pieces@.len()),
        structured(r@),
{
    let mut r: Spans = Spans::new();
    let mut i: usize = 0;
    while i < pieces.len()
        invariant
            i <= pieces@.len(),
            forall|j: int| 0 <= j < pieces@.len() ==> (#[trigger] pieces@[j]).wf(),
            r@ == joined(pieces@, i as nat),
            r.wf(),
        decreases pieces@.len() - i,
    {
        if !pieces[i].is_empty() {
            let next: Spans = r.union(&pieces[i]);
            proof {
                law_outcome_is_the_result(SetOp::Union, r@, pieces@[i as int]@, next@);
            }
            r = next;
        }
        i = i + 1;
    }
    r
}

/// A set with one more piece.
pub open spec fn with_piece(s: Seq<Span>, piece: Seq<Span>) -> Seq<Span> {
    if piece.len() == 0 {
        s
    } else {
        outcome(SetOp::Union, s, piece)
    }
}

/// Adds a piece to a set.
pub(crate) fn add_piece(out: &mut Spans, piece: &Spans)
    requires
        old(out).wf(),
        piece.wf(),
    ensures
        final(out).wf(),
        final(out)@ == with_piece(old(out)@, piece@),
{
    if !piece.is_empty() {
        let next: Spans = out.union(piece);
        proof {
            law_outcome_is_the_result(SetOp::Union, out@, piece@, next@);
        }
        *out = next;
    }
}

/// What a motion covers of a ray: the tool at the start, at the end, and all
/// between them.
pub open spec fn between(start: Seq<Span>, end: Seq<Span>, middle: Seq<Span>) -> Seq<Span> {
    with_piece(with_piece(with_piece(Seq::empty(), start), end), middle)
}

/// Puts together what a motion covers of a ray.
pub(crate) fn unite_pieces(start: &Spans, end: &Spans, middle: &Spans) -> (r: Spans)
    requires
        start.wf(),
        end.wf(),
        middle.wf(),
    ensures
        r.wf(),
        r@ == between(start@, end@, middle@),
{
    let mut r: Spans = Spans::new();
    add_piece(&mut r, start);
    add_piece(&mut r, end);
    add_piece(&mut r, middle);
    r
}

} // verus!
