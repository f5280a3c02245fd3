use chipbreaker_core::canonical::digest;
use chipbreaker_core::double::Double;
use chipbreaker_core::roots::{
    discriminant, eval, eval_derivative, finish_one, finish_quartic, finish_three, polish, solve_linear,
    solve_quadratic, start_cubic, start_quartic, CubicStage, QuarticStage, RootSet, ROOT_DEGENERACY_TAU,
};

fn d(x: f64) -> Double {
    Double::from_bits(x.to_bits())
}

fn f(x: Double) -> f64 {
    f64::from_bits(x.to_bits())
}

fn values(set: &RootSet) -> Vec<f64> {
    set.roots().iter().map(|x| f(*x)).collect()
}

fn doubles(c: &[f64]) -> Vec<Double> {
    c.iter().map(|x| d(*x)).collect()
}

fn value_at(c: &[f64], x: f64) -> f64 {
    f(eval(&doubles(c), d(x)))
}

fn slope_at(c: &[f64], x: f64) -> f64 {
    f(eval_derivative(&doubles(c), d(x)))
}

fn polish_at(c: &[f64], x: f64) -> f64 {
    f(polish(&doubles(c), d(x)))
}

fn linear_of(a: f64, b: f64) -> RootSet {
    solve_linear(d(a), d(b))
}

fn quadratic_of(a: f64, b: f64, c: f64) -> RootSet {
    solve_quadratic(d(a), d(b), d(c))
}

fn cubic(a: Double, b: Double, c: Double, k: Double) -> RootSet {
    match start_cubic(a, b, c, k) {
        CubicStage::Done(roots) => roots,
        CubicStage::Three { scale, argument, shift } => {
            let theta = f(argument).acos() / 3.0;
            let turn = |i: f64| d((theta - 2.0 * std::f64::consts::PI * i / 3.0).cos());
            finish_three(a, b, c, k, scale, shift, [turn(0.0), turn(1.0), turn(2.0)])
        }
        CubicStage::One { first, second, shift } => {
            finish_one(a, b, c, k, d(f(first).cbrt()), d(f(second).cbrt()), shift)
        }
    }
}

fn cubic_of(a: f64, b: f64, c: f64, k: f64) -> RootSet {
    cubic(d(a), d(b), d(c), d(k))
}

fn quartic_of(a: f64, b: f64, c: f64, k: f64, e: f64) -> RootSet {
    match start_quartic(d(a), d(b), d(c), d(k), d(e)) {
        QuarticStage::Cubic(p, q, r, s) => cubic(p, q, r, s),
        QuarticStage::Derivative(p, q, r, s) => {
            finish_quartic(d(a), d(b), d(c), d(k), d(e), &cubic(p, q, r, s))
        }
    }
}


fn from_roots(a: f64, roots: &[f64]) -> Vec<f64> {
    let mut coefficients = vec![a];
    for &r in roots {
        let mut next = vec![0.0; coefficients.len() + 1];
        for (i, &c) in coefficients.iter().enumerate() {
            next[i] += c;
            next[i + 1] -= c * r;
        }
        coefficients = next;
    }
    coefficients
}

fn assert_roots(found: &RootSet, expected: &[f64], tolerance: f64, label: &str) {
    let got = values(found);
    assert_eq!(
        got.len(),
        expected.len(),
        "{label}: expected {expected:?}, found {got:?}"
    );
    for (g, w) in got.iter().zip(expected) {
        let scale = w.abs().max(1.0);
        assert!(
            (g - w).abs() <= tolerance * scale,
            "{label}: root {g} vs expected {w} (tolerance {tolerance})"
        );
    }
}

#[test]
fn linear() {
    assert_roots(&linear_of(2.0, -6.0), &[3.0], 1e-15, "2x-6");
    assert_roots(&linear_of(-1.0, 1.0), &[1.0], 1e-15, "-x+1");
    assert!(linear_of(0.0, 5.0).is_empty(), "a constant has no roots");
    assert_eq!(linear_of(2.0, -6.0).solved_degree(), 1);
}

#[test]
fn quadratic_simple_and_double() {
    assert_roots(
        &quadratic_of(1.0, -3.0, 2.0),
        &[1.0, 2.0],
        1e-15,
        "x^2-3x+2",
    );
    let double = quadratic_of(1.0, -4.0, 4.0);
    assert_eq!(double.len(), 1);
    assert_eq!(double.multiplicity(0), 2);
    assert!((values(&double)[0] - 2.0).abs() < 1e-15);
    assert_eq!(double.total_multiplicity(), 2);
    assert!(quadratic_of(1.0, 0.0, 1.0).is_empty());
    let r = quadratic_of(1.0, 0.0, -4.0);
    assert_roots(&r, &[-2.0, 2.0], 1e-15, "x^2-4");
}

#[test]
fn quadratic_avoids_catastrophic_cancellation() {
    let big = 1.0e8;
    let small = 1.0e-8;
    let r = quadratic_of(1.0, -(big + small), 1.0);
    assert_eq!(r.len(), 2);
    let (found_small, found_big) = (values(&r)[0], values(&r)[1]);
    assert!(
        (found_small - small).abs() / small < 1e-10,
        "small root came back as {found_small}, expected {small}; the naive \
         formula is what produces this failure"
    );
    assert!((found_big - big).abs() / big < 1e-14, "{found_big}");
}

#[test]
fn the_exact_discriminant_beats_the_naive_one() {
    let a = 1.0;
    let b = 2.0;
    let c = 1.0 - 1.0e-15;
    let naive = b * b - 4.0 * a * c;
    let exact = f(discriminant(d(a), d(b), d(c)));
    let truth = 4.0e-15; // b^2 - 4ac = 4 - 4 + 4e-15
    assert!(
        (exact - truth).abs() < 1e-17,
        "exact discriminant {exact} vs truth {truth}"
    );
    assert!(
        (exact - truth).abs() < (naive - truth).abs() || naive == exact,
        "the compensated form must be at least as good: naive {naive}, exact {exact}"
    );
}

#[test]
fn cubic_all_branches() {
    assert_roots(
        &cubic_of(1.0, -6.0, 11.0, -6.0),
        &[1.0, 2.0, 3.0],
        1e-12,
        "(x-1)(x-2)(x-3)",
    );
    let one = cubic_of(1.0, 0.0, 0.0, -8.0);
    assert_roots(&one, &[2.0], 1e-12, "x^3-8");
    let triple = cubic_of(1.0, -3.0, 3.0, -1.0);
    assert_eq!(triple.len(), 1, "{:?}", triple.roots());
    assert_eq!(triple.multiplicity(0), 3);
    assert!((values(&triple)[0] - 1.0).abs() < 1e-8);
    let mixed = cubic_of(1.0, -4.0, 5.0, -2.0); // (x-1)^2 (x-2)
    assert_eq!(mixed.len(), 2, "{:?}", mixed.roots());
    assert_eq!(mixed.total_multiplicity(), 3);
}

#[test]
fn quartic_all_branches() {
    assert_roots(
        &quartic_of(1.0, -10.0, 35.0, -50.0, 24.0),
        &[1.0, 2.0, 3.0, 4.0],
        1e-10,
        "(x-1)(x-2)(x-3)(x-4)",
    );
    assert_roots(
        &quartic_of(1.0, 0.0, -5.0, 0.0, 4.0),
        &[-2.0, -1.0, 1.0, 2.0],
        1e-12,
        "biquadratic",
    );
    assert_roots(
        &quartic_of(1.0, -3.0, 3.0, -3.0, 2.0),
        &[1.0, 2.0],
        1e-10,
        "two real two complex",
    );
    assert!(quartic_of(1.0, 0.0, 5.0, 0.0, 4.0).is_empty());
    let tangent = quartic_of(1.0, -4.0, 6.0, -4.0, 1.0); // (x-1)^4
    assert_eq!(tangent.len(), 1, "{:?}", tangent.roots());
    assert!(
        (values(&tangent)[0] - 1.0).abs() < 1e-3,
        "{:?}",
        tangent.roots()
    );
}

#[test]
fn degeneracy_degrades_by_one_degree_at_a_time() {
    let r = quartic_of(1e-20, 1.0, -6.0, 11.0, -6.0);
    assert_eq!(r.solved_degree(), 3, "must degrade to a cubic");
    assert_roots(&r, &[1.0, 2.0, 3.0], 1e-12, "degraded quartic");

    assert_eq!(quartic_of(0.0, 0.0, 1.0, -3.0, 2.0).solved_degree(), 2);
    assert_eq!(quartic_of(0.0, 0.0, 0.0, 2.0, -6.0).solved_degree(), 1);
    assert_eq!(quartic_of(0.0, 0.0, 0.0, 0.0, 5.0).solved_degree(), 0);

    let kept = quartic_of(1e-10, 1.0, -6.0, 11.0, -6.0);
    assert_eq!(kept.solved_degree(), 4);
}

#[test]
fn the_discarded_root_is_provably_out_of_range() {
    let a = f64::from_bits(ROOT_DEGENERACY_TAU);
    let r = quartic_of(a, 1.0, 0.0, 0.0, 0.0);
    let escaping = 1.0 / f64::from_bits(ROOT_DEGENERACY_TAU);
    assert!(
        escaping >= 1e14,
        "the threshold must push the discarded root far outside any tool"
    );
    let _ = r;
}

#[test]
fn roots_come_back_sorted_and_deduplicated() {
    let r = RootSet::from_raw(&[d(3.0), d(1.0), d(2.0), d(1.0)], 4);
    assert_eq!(values(&r), [1.0, 2.0, 3.0]);
    assert_eq!(r.multiplicity(0), 2);
    assert_eq!(r.total_multiplicity(), 4);
    let r = RootSet::from_raw(&[d(f64::NAN), d(1.0), d(f64::INFINITY)], 3);
    assert_eq!(values(&r), [1.0]);
}

#[test]
fn evaluation_is_horner_in_a_fixed_order() {
    let c = [1.0, -6.0, 11.0, -6.0];
    assert_eq!(value_at(&c, 2.0), 0.0);
    assert_eq!(value_at(&c, 0.0), -6.0);
    assert_eq!(slope_at(&c, 2.0), -1.0);
    assert_eq!(slope_at(&[5.0], 3.0), 0.0);
}

#[test]
fn polish_improves_a_perturbed_root_and_never_worsens_it() {
    let c = from_roots(1.0, &[1.0, 2.0, 3.0, 4.0]);
    for truth in [1.0, 2.0, 3.0, 4.0] {
        let perturbed = truth + 1e-6;
        let polished = polish_at(&c, perturbed);
        assert!(
            (polished - truth).abs() < (perturbed - truth).abs(),
            "polish made {perturbed} worse: {polished} vs {truth}"
        );
    }
    let quad = from_roots(1.0, &[1.0, 1.0, 1.0, 1.0]);
    let polished = polish_at(&quad, 1.0 + 1e-3);
    assert!(polished.is_finite());
    assert!((polished - 1.0).abs() <= 1e-3);
}

#[test]
fn from_roots_helper_is_correct() {
    assert_eq!(from_roots(1.0, &[1.0, 2.0]), vec![1.0, -3.0, 2.0]);
    assert_eq!(from_roots(2.0, &[0.0]), vec![2.0, 0.0]);
    let c = from_roots(1.0, &[1.0, 2.0, 3.0, 4.0]);
    for r in [1.0, 2.0, 3.0, 4.0] {
        assert!(value_at(&c, r).abs() < 1e-12, "root {r} of {c:?}");
    }
}

#[test]
fn hashing_covers_roots_and_degree() {
    let a = quadratic_of(1.0, -3.0, 2.0);
    assert_eq!(digest(&a), digest(&quadratic_of(1.0, -3.0, 2.0)));
    assert_ne!(digest(&a), digest(&quadratic_of(1.0, -4.0, 3.0)));
    assert_ne!(digest(&RootSet::empty(1)), digest(&RootSet::empty(2)));
}

#[test]
fn roots_never_count_beyond_the_degree_solved() {
    let cases = [
        quartic_of(1.0, 0.0, -2.0, 0.0, 1.0),
        quartic_of(1.0, -10.0, 35.0, -50.0, 24.0),
        quartic_of(1.0, 0.0, 0.0, 0.0, 1.0),
        quartic_of(1e-20, 1.0, -6.0, 11.0, -6.0),
        quartic_of(0.0, 0.0, 1.0, -4.0, 4.0),
        quartic_of(0.0, 0.0, 0.0, 2.0, -8.0),
        quartic_of(0.0, 0.0, 0.0, 0.0, 5.0),
        cubic_of(1.0, -3.0, 3.0, -1.0),
    ];
    let degrees: Vec<u8> = cases.iter().map(|c| c.solved_degree()).collect();
    assert_eq!(degrees, [4, 4, 4, 3, 2, 1, 0, 3]);
    for c in &cases {
        assert!(c.len() <= 4);
        assert!(c.total_multiplicity() <= usize::from(c.solved_degree()), "{c:?}");
        assert!((0..c.len()).all(|i| c.multiplicity(i) >= 1));
        assert!(values(c).iter().all(|x| x.is_finite()));
        assert!(values(c).windows(2).all(|w| w[0] < w[1]));
    }
}

#[test]
fn a_double_root_is_finite_however_small_or_large_its_coefficients() {
    for (a, b, c) in [
        (5e-324, 1e-310, 0.0),
        (1e-160, 2e-160, 1e-160),
        (1e300, 2e300, 1e300),
        (f64::INFINITY, 1.0, 1.0),
        (1.0, 0.0, 0.0),
    ] {
        let found = quadratic_of(a, b, c);
        assert!(values(&found).iter().all(|x| x.is_finite()), "{a} {b} {c}: {found:?}");
        assert!(found.total_multiplicity() <= usize::from(found.solved_degree()));
    }
    assert_eq!(values(&quadratic_of(1.0, 0.0, 0.0)), [0.0]);
    assert_eq!(quadratic_of(1.0, -4.0, 4.0).multiplicity(0), 2);
}
