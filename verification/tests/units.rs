use chipbreaker_core::double::Double;
use chipbreaker_core::mesh::units::{accepted_names, Unit};
use chipbreaker_core::mesh::weld::EPS_WELD;

fn value(x: Double) -> f64 {
    f64::from_bits(x.to_bits())
}

#[test]
fn names_round_trip() {
    for u in Unit::all() {
        assert_eq!(Unit::from_name(u.name()), Some(u), "{u:?}");
        assert_eq!(Unit::from_name(&u.name().to_uppercase()), Some(u), "{u:?}");
        assert_eq!(
            Unit::from_name(&format!("  {}  ", u.name())),
            Some(u),
            "{u:?}"
        );
    }
    assert_eq!(Unit::from_name("furlong"), None);
    assert_eq!(Unit::from_name(""), None);
}

#[test]
fn aliases_people_actually_type() {
    assert_eq!(Unit::from_name("millimeter"), Some(Unit::Millimetre));
    assert_eq!(Unit::from_name("millimetre"), Some(Unit::Millimetre));
    assert_eq!(Unit::from_name("inches"), Some(Unit::Inch));
    assert_eq!(Unit::from_name("mil"), Some(Unit::Thou));
    assert_eq!(Unit::from_name("feet"), Some(Unit::Foot));
    assert_eq!(Unit::from_name("um"), Some(Unit::Micron));
}

#[test]
fn metric_conversions_are_exact_and_reversible() {
    for u in [
        Unit::Micron,
        Unit::Millimetre,
        Unit::Centimetre,
        Unit::Metre,
    ] {
        assert!(u.conversion_is_exact(), "{u:?}");
        let f = value(u.millimetres_per());
        for v in [1.0f64, 3.0, 12345.0, 0.5] {
            assert_eq!(v * f / f, v, "{u:?} round trip of {v}");
        }
    }
}

#[test]
fn imperial_conversion_is_documented_as_inexact() {
    assert!(!Unit::Inch.conversion_is_exact());
    assert!(!Unit::Thou.conversion_is_exact());
    assert!(!Unit::Foot.conversion_is_exact());
    let f = value(Unit::Inch.millimetres_per());
    assert_ne!(f, 25.4f64.next_up());
    assert!((f - 25.4).abs() < 1e-15);
    let one_inch_in_mm = 1.0 * f;
    assert!((one_inch_in_mm - 25.4).abs() < f64::from_bits(EPS_WELD));
}

#[test]
fn relative_magnitudes_are_right() {
    assert_eq!(value(Unit::Metre.millimetres_per()), 1000.0);
    assert_eq!(value(Unit::Centimetre.millimetres_per()), 10.0);
    assert_eq!(value(Unit::Micron.millimetres_per()), 0.001);
    let thou = value(Unit::Thou.millimetres_per());
    let inch = value(Unit::Inch.millimetres_per());
    assert!((thou * 1000.0 - inch).abs() < 1e-12);
    assert!((value(Unit::Foot.millimetres_per()) - inch * 12.0).abs() < 1e-12);
}

#[test]
fn accepted_names_lists_everything() {
    let listed = accepted_names();
    for u in Unit::all() {
        assert!(listed.contains(u.name()), "{u:?} missing from the help text");
    }
}

#[test]
fn accepted_names_lists_every_spelling() {
    let listed = accepted_names();
    for word in listed.split(", ") {
        assert!(Unit::from_name(word).is_some(), "`{word}` is listed but not accepted");
    }
    for word in ["mm", "in", "mil", "thou", "ft"] {
        assert!(listed.split(", ").any(|w| w == word), "`{word}` is missing from `{listed}`");
    }
}
