use chipbreaker_core::decimal::parse_number;
use chipbreaker_core::double::Double;
use chipbreaker_core::integer::Integer;
use chipbreaker_core::math::{max_number, min_number, Aabb3, Axis, OctNormal, Vec3};
use chipbreaker_core::predicates::{orient2d_range, orient3d_range};
use chipbreaker_core::single::{narrow, widen};
use chipbreaker_core::text::{parse_integer, split_lines, split_words, trim};
use rand::rngs::StdRng;
use rand::{Rng, SeedableRng};

fn d(x: f64) -> Double {
    Double::from_bits(x.to_bits())
}

fn f(x: Double) -> f64 {
    f64::from_bits(x.to_bits())
}

fn v(x: f64, y: f64, z: f64) -> Vec3 {
    Vec3::new(d(x), d(y), d(z))
}

fn same(ours: Double, theirs: f64) -> bool {
    if theirs.is_nan() {
        ours.is_nan()
    } else {
        ours.to_bits() == theirs.to_bits()
    }
}

fn samples() -> Vec<f64> {
    let mut all = vec![
        0.0,
        -0.0,
        1.0,
        -1.0,
        0.1,
        3.0,
        f64::MIN_POSITIVE,
        5e-324,
        -5e-324,
        1e-310,
        f64::MAX,
        f64::MIN,
        f64::INFINITY,
        f64::NEG_INFINITY,
        f64::NAN,
        f64::EPSILON,
        1.0 + f64::EPSILON,
        9007199254740993.0,
    ];
    let mut rng = StdRng::seed_from_u64(11);
    for _ in 0..60 {
        all.push(f64::from_bits(rng.random_range(0..=u64::MAX)));
        all.push(rng.random_range(-100.0..100.0));
    }
    all
}

#[test]
fn arithmetic_agrees_with_the_machine_bit_for_bit() {
    let all = samples();
    for a in &all {
        for b in &all {
            assert!(same(d(*a).plus(d(*b)), a + b), "{a} + {b}");
            assert!(same(d(*a).minus(d(*b)), a - b), "{a} - {b}");
            assert!(same(d(*a).times(d(*b)), a * b), "{a} * {b}");
            assert!(same(d(*a).over(d(*b)), a / b), "{a} / {b}");
            assert_eq!(d(*a).less(d(*b)), a < b, "{a} < {b}");
            assert_eq!(d(*a).at_most(d(*b)), a <= b, "{a} <= {b}");
            assert_eq!(d(*a).equals(d(*b)), a == b, "{a} == {b}");
        }
        assert!(same(d(*a).sqrt(), a.sqrt()), "sqrt {a}");
        assert!(same(d(*a).negate(), -a));
        assert!(same(d(*a).abs(), a.abs()));
        assert_eq!(d(*a).is_finite(), a.is_finite());
    }
}

#[test]
fn integers_become_the_nearest_double() {
    for k in [0i64, 1, -1, 7, i64::MAX, i64::MIN, 9007199254740993, -9007199254740993] {
        assert_eq!(f(Double::from_i64(k)), k as f64);
    }
    for k in [0u64, 1, u64::MAX, 18446744073709550592, 9007199254740993] {
        assert_eq!(f(Double::from_u64(k)), k as f64);
    }
}

#[test]
fn steps_are_the_next_representable_numbers() {
    for x in [0.0, 1.0, -1.0, 5e-324, f64::MAX, -5e-324] {
        assert_eq!(f(d(x).step_up(1)), x.next_up());
        assert_eq!(f(d(x).step_down(1)), x.next_down());
    }
    assert_eq!(f(d(1.0).step_up(4)), 1.0 + 4.0 * f64::EPSILON);
    assert_eq!(f(d(f64::INFINITY).step_up(1)), f64::INFINITY);
    assert!(d(f64::NAN).step_up(3).is_nan());
}

#[test]
fn the_total_order_places_every_pattern() {
    let mut all = samples();
    all.sort_by(f64::total_cmp);
    for w in all.windows(2) {
        assert!(d(w[0]).total_order() <= d(w[1]).total_order(), "{} {}", w[0], w[1]);
    }
}

#[test]
fn singles_narrow_and_widen_like_the_machine() {
    for x in samples() {
        if x.is_nan() {
            continue;
        }
        assert_eq!(narrow(d(x)), (x as f32).to_bits(), "{x}");
    }
    let mut rng = StdRng::seed_from_u64(12);
    for _ in 0..500 {
        let bits: u32 = rng.random_range(0..=u32::MAX);
        let single = f32::from_bits(bits);
        if single.is_nan() {
            assert!(widen(bits).is_nan());
        } else {
            assert_eq!(widen(bits).to_bits(), f64::from(single).to_bits());
        }
    }
}

#[test]
fn decimal_texts_parse_like_the_standard_library() {
    for text in [
        "0", "-0", "1", "+1", "1.", ".5", "1e3", "1E-3", "1e400", "-1e400", "1e-400", "4.9e-324", "2.4e-324", "inf",
        "-inf", "infinity", "nan", "NaN", "-NaN", "1e+5", "0.1", "123456789012345678901234567890", "9007199254740993",
        "1.7976931348623157e308", "1.7976931348623159e308", "2.2250738585072011e-308", "", ".", "e5", "1e", "1e+", "--1",
        "1_0", " 1", "1 ", "0x10", "1.5.2", "+", "-", "+inf", "infin", "00012.50",
    ] {
        let chars: Vec<char> = text.chars().collect();
        match (parse_number(&chars), text.parse::<f64>()) {
            (Some(ours), Ok(theirs)) => assert!(same(ours, theirs), "{text}: {} {theirs}", f(ours)),
            (None, Err(_)) => {}
            (ours, theirs) => panic!("{text}: {ours:?} {theirs:?}"),
        }
    }
}

#[test]
fn texts_split_like_the_standard_library() {
    let text = "a b\r\n\n\u{2003}c\td \n  e";
    let chars: Vec<char> = text.chars().collect();
    let ours: Vec<String> = split_lines(&chars).iter().map(|l| l.iter().collect()).collect();
    let theirs: Vec<&str> = text.lines().collect();
    assert_eq!(ours, theirs);
    let ours: Vec<String> = split_words(&chars).iter().map(|l| l.iter().collect()).collect();
    let theirs: Vec<&str> = text.split_whitespace().collect();
    assert_eq!(ours, theirs);
    let padded: Vec<char> = " \u{a0}x y\n".chars().collect();
    assert_eq!(trim(&padded).iter().collect::<String>(), "x y");
    for text in ["0", "-1", "+7", "9223372036854775807", "9223372036854775808", "-9223372036854775808", "", "x", "1-"] {
        let chars: Vec<char> = text.chars().collect();
        assert_eq!(parse_integer(&chars), text.parse::<i64>().ok(), "{text}");
    }
}

#[test]
fn long_integers_multiply_exactly() {
    let a = Integer::shifted(false, u64::MAX, 3);
    let b = Integer::shifted(true, u64::MAX, 3);
    assert_eq!(a.plus(&b).signum(), 0);
    assert_eq!(a.minus(&b).signum(), 1);
    assert_eq!(a.times(&b).signum(), -1);
    let square = a.times(&a);
    let other = b.times(&b);
    assert_eq!(square.minus(&other).signum(), 0);
    assert_eq!(square.plus(&Integer::small(1)).minus(&other).signum(), 1);
}

#[test]
fn boxes_ignore_a_coordinate_that_is_no_number() {
    assert_eq!(f(min_number(d(f64::NAN), d(2.0))), 2.0);
    assert_eq!(f(max_number(d(1.0), d(f64::NAN))), 1.0);
    let b = Aabb3::from_points(&[v(0.0, 5.0, -1.0), v(2.0, 1.0, 3.0)]);
    assert_eq!(b, Aabb3::new(v(0.0, 1.0, -1.0), v(2.0, 5.0, 3.0)));
    assert_eq!(b.longest_axis(), Axis::Y);
    assert!(Aabb3::nothing().is_empty());
    assert_eq!(Aabb3::nothing().union(&b), b);
}

#[test]
fn a_normal_reversed_twice_is_itself() {
    let n = OctNormal::encode(v(0.0, 3.0, -4.0));
    assert_eq!(n.negated().negated(), n);
    assert_eq!(OctNormal::placeholder().negated(), OctNormal::placeholder());
    assert_eq!(OctNormal::placeholder().decode(), None);
    assert_eq!(v(3.0, 0.0, 4.0).normalize(), Some(v(0.6, 0.0, 0.8)));
    assert_eq!(v(0.0, 0.0, 0.0).normalize(), None);
}

#[test]
fn ranges_admit_zero_and_their_ends() {
    let r = orient3d_range();
    assert!(r.contains(d(0.0)) && r.contains(d(-0.0)));
    assert!(r.contains(d(1e100)) && !r.contains(d(1e100f64.next_up())));
    assert!(r.contains(d(-1e-90)) && !r.contains(d(1e-90f64.next_down())));
    assert!(!r.contains(d(f64::NAN)));
    assert!(orient2d_range().contains_all(&[d(1.0), d(0.0), d(-3.0)]));
    assert!(!orient2d_range().contains_all(&[d(1.0), d(f64::INFINITY)]));
}

#[test]
fn remainders_are_those_of_the_machine() {
    let values = [
        0.0,
        -0.0,
        1.0,
        -1.0,
        0.1,
        -7.25,
        6.283185307179586,
        1e300,
        -3.7e200,
        5e-324,
        -2.2250738585072014e-308,
        1.7976931348623157e308,
        f64::INFINITY,
        f64::NEG_INFINITY,
        f64::NAN,
    ];
    for a in values {
        for b in values {
            let x = Double::from_bits(a.to_bits());
            let y = Double::from_bits(b.to_bits());
            let (r, e) = (f64::from_bits(x.rem(y).to_bits()), f64::from_bits(x.rem_euclid(y).to_bits()));
            assert!(r.to_bits() == (a % b).to_bits() || (r.is_nan() && (a % b).is_nan()), "{a} {b} {r}");
            let wanted = a.rem_euclid(b);
            assert!(e.to_bits() == wanted.to_bits() || (e.is_nan() && wanted.is_nan()), "{a} {b} {e} {wanted}");
        }
    }
}

#[test]
fn integers_of_fifty_three_bits_are_exact() {
    for k in [0i64, 1, -1, (1 << 53) - 1, 1 - (1 << 53), 0x12_3456_789a_bcde] {
        assert_eq!(f64::from_bits(Double::from_i64(k).to_bits()), k as f64);
        assert_eq!(f64::from_bits(Double::from_i64(k).to_bits()) as i64, k);
    }
}
