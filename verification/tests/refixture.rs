use chipbreaker_core::double::Double;
use chipbreaker_core::math::Axis;
use chipbreaker_core::refixture::{accumulated_bound, classify, resample_bound, Mat4, Regime};

const SAMPLE: f64 = 1.75;

fn d(x: f64) -> Double {
    Double::from_bits(x.to_bits())
}

fn f(x: Double) -> f64 {
    f64::from_bits(x.to_bits())
}

fn matrix(rows: [[f64; 4]; 4]) -> Mat4 {
    Mat4::from_rows_array(rows.map(|row| row.map(d)))
}

fn identity() -> Mat4 {
    matrix([
        [1.0, 0.0, 0.0, 0.0],
        [0.0, 1.0, 0.0, 0.0],
        [0.0, 0.0, 1.0, 0.0],
        [0.0, 0.0, 0.0, 1.0],
    ])
}


fn rot_z_90() -> Mat4 {
    matrix([
        [0.0, -1.0, 0.0, 0.0],
        [1.0, 0.0, 0.0, 0.0],
        [0.0, 0.0, 1.0, 0.0],
        [0.0, 0.0, 0.0, 1.0],
    ])
}

#[test]
fn a_quarter_turn_is_exact() {
    let r = classify(&rot_z_90(), d(0.5), d(SAMPLE)).expect("a rigid motion");
    assert!(r.is_exact(), "a quarter turn must not resample: {r:?}");
    assert_eq!(f(r.bound_mm()), 0.0);
}

#[test]
fn the_identity_is_exact() {
    let r = classify(&identity(), d(0.5), d(SAMPLE)).expect("rigid");
    assert!(r.is_exact());
    match r {
        Regime::Exact { from, flipped } => {
            assert_eq!(from, [Axis::X, Axis::Y, Axis::Z]);
            assert_eq!(flipped, [false; 3]);
        }
        Regime::Resampled { .. } => panic!("the identity resampled"),
    }
}

#[test]
fn an_arbitrary_rotation_resamples_and_carries_a_bound() {
    let (c, s) = (
        0.5f64.cos(),
        0.5f64.sin(),
    );
    let m = matrix([
        [c, -s, 0.0, 0.0],
        [s, c, 0.0, 0.0],
        [0.0, 0.0, 1.0, 0.0],
        [0.0, 0.0, 0.0, 1.0],
    ]);
    let r = classify(&m, d(0.5), d(SAMPLE)).expect("rigid");
    assert!(
        !r.is_exact(),
        "an arbitrary rotation must not claim exactness"
    );
    assert!(f(r.bound_mm()) > 0.0);
    assert!((f(r.bound_mm()) - f(resample_bound(d(0.5), d(SAMPLE)))).abs() < 1e-15);
}

#[test]
fn a_scale_is_refused_rather_than_bounded() {
    let m = matrix([
        [2.0, 0.0, 0.0, 0.0],
        [0.0, 1.0, 0.0, 0.0],
        [0.0, 0.0, 1.0, 0.0],
        [0.0, 0.0, 0.0, 1.0],
    ]);
    assert!(classify(&m, d(0.5), d(SAMPLE)).is_none());
}

#[test]
fn an_accumulated_bound_of_zero_is_positive_zero() {
    let exact = Regime::Exact {
        from: [Axis::X, Axis::Y, Axis::Z],
        flipped: [false; 3],
    };
    for regimes in [&[][..], &[exact][..], &[exact, exact][..]] {
        let b = f(accumulated_bound(regimes));
        assert_eq!(b, 0.0);
        assert!(
            b.is_sign_positive(),
            "an accumulated bound of zero came out negative for {} boundary(ies),                  which serialises as -0.0",
            regimes.len()
        );
    }
}

#[test]
fn bounds_add_rather_than_cancel() {
    let exact = Regime::Exact {
        from: [Axis::X, Axis::Y, Axis::Z],
        flipped: [false; 3],
    };
    let rough = Regime::Resampled { bound_mm: d(0.3) };
    assert_eq!(f(accumulated_bound(&[exact, exact])), 0.0);
    assert!((f(accumulated_bound(&[rough, exact, rough])) - 0.6).abs() < 1e-15);
}
