use chipbreaker_core::double::Double;
use chipbreaker_core::math::{Vec2, Vec3};
use chipbreaker_core::predicates::{incircle, insphere, orient2d, orient3d, Adaptive, Orientation, Predicates};

fn d(x: f64) -> Double {
    Double::from_bits(x.to_bits())
}

fn v(x: f64, y: f64, z: f64) -> Vec3 {
    Vec3::new(d(x), d(y), d(z))
}

fn w(x: f64, y: f64) -> Vec2 {
    Vec2::new(d(x), d(y))
}

#[test]
fn orient2d_sign_convention() {
    let a = w(0.0, 0.0);
    let b = w(1.0, 0.0);
    assert_eq!(orient2d(a, b, w(0.0, 1.0)), Orientation::Positive);
    assert_eq!(orient2d(a, b, w(0.0, -1.0)), Orientation::Negative);
    assert_eq!(orient2d(a, b, w(2.0, 0.0)), Orientation::Zero);
}

#[test]
fn orient3d_sign_convention() {
    let a = v(1.0, 0.0, 0.0);
    let b = v(0.0, 1.0, 0.0);
    let c = v(0.0, 0.0, 1.0);
    assert_eq!(orient3d(a, b, c, v(0.0, 0.0, 0.0)), Orientation::Positive);
    assert_eq!(
        orient3d(a, b, c, v(1.0, 1.0, -1.0)),
        Orientation::Zero
    );
    assert_eq!(
        orient3d(a, b, c, v(-3.0, 2.0, 2.0)),
        Orientation::Zero
    );
    assert_eq!(orient3d(a, b, c, v(2.0, 2.0, 2.0)), Orientation::Negative);
}

#[test]
fn incircle_sign_convention() {
    let a = w(1.0, 0.0);
    let b = w(0.0, 1.0);
    let c = w(-1.0, 0.0);
    assert_eq!(orient2d(a, b, c), Orientation::Positive);
    assert_eq!(incircle(a, b, c, w(0.0, 0.0)), Orientation::Positive);
    assert_eq!(incircle(a, b, c, w(0.0, -1.0)), Orientation::Zero);
    assert_eq!(
        incircle(a, b, c, w(0.0, -2.0)),
        Orientation::Negative
    );
}

#[test]
fn insphere_sign_convention() {
    let a = v(1.0, 0.0, 0.0);
    let b = v(0.0, 1.0, 0.0);
    let c = v(0.0, 0.0, 1.0);
    let e = v(0.0, 0.0, 0.0);
    assert_eq!(
        orient3d(a, b, c, e),
        Orientation::Positive,
        "must be positively oriented"
    );
    assert_eq!(
        insphere(a, b, c, e, v(0.5, 0.5, 0.5)),
        Orientation::Positive
    );
    assert_eq!(
        insphere(a, b, c, e, v(1.0, 1.0, 0.0)),
        Orientation::Zero
    );
    assert_eq!(
        insphere(a, b, c, e, v(10.0, 10.0, 10.0)),
        Orientation::Negative
    );
}

#[test]
fn swapping_two_arguments_negates_the_result() {
    let a = w(0.0, 0.0);
    let b = w(3.0, 1.0);
    let c = w(1.0, 7.0);
    assert_eq!(orient2d(a, b, c), orient2d(b, a, c).reverse());
    assert_eq!(orient2d(a, b, c), orient2d(a, c, b).reverse());

    let p = v(0.0, 0.0, 0.0);
    let q = v(1.0, 2.0, 3.0);
    let r = v(-4.0, 1.0, 0.5);
    let s = v(2.0, -3.0, 6.0);
    assert_eq!(orient3d(p, q, r, s), orient3d(q, p, r, s).reverse());
    assert_eq!(orient3d(p, q, r, s), orient3d(p, q, s, r).reverse());
}

#[test]
fn exactness_where_naive_f64_fails() {
    let a = w(0.5, 0.5);
    let b = w(12.0, 12.0);
    let c = w(24.0, 24.0);
    assert_eq!(orient2d(a, b, c), Orientation::Zero);

    let c_up = w(24.0, 24.0_f64.next_up());
    assert_eq!(orient2d(a, b, c_up), Orientation::Positive);
    let c_down = w(24.0, 24.0_f64.next_down());
    assert_eq!(orient2d(a, b, c_down), Orientation::Negative);
}

#[test]
fn orientation_helpers() {
    assert_eq!(Orientation::from_determinant(d(0.0)), Orientation::Zero);
    assert_eq!(Orientation::from_determinant(d(-0.0)), Orientation::Zero);
    assert_eq!(Orientation::from_determinant(d(1e-320)), Orientation::Positive);
    assert_eq!(Orientation::Positive.reverse(), Orientation::Negative);
    assert_eq!(Orientation::Zero.reverse(), Orientation::Zero);
    assert_eq!(Orientation::Negative.as_i8(), -1);
    assert!(Orientation::Zero.is_zero());
    for o in [
        Orientation::Positive,
        Orientation::Negative,
        Orientation::Zero,
    ] {
        assert_eq!(Orientation::from_char(o.as_char()), Some(o));
    }
    assert_eq!(Orientation::from_char('x'), None);
}

#[test]
fn trait_object_is_usable() {
    let p: &dyn Predicates = &Adaptive;
    assert_eq!(p.orient2d(w(0.0, 0.0), w(1.0, 0.0), w(0.0, 1.0)), Orientation::Positive);
}
