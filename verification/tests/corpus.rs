use chipbreaker_core::double::Double;
use chipbreaker_core::predicates::corpus::{parse, parse_coord, CorpusCase, PredicateKind, MAX_COORDS};
use chipbreaker_core::predicates::{orient2d_range, Adaptive, Orientation};

fn coord(text: &str) -> Option<f64> {
    let chars: Vec<char> = text.chars().collect();
    parse_coord(&chars).map(|x| f64::from_bits(x.to_bits()))
}

fn count(text: &str) -> Result<usize, usize> {
    parse(text).map(|v| v.len()).map_err(|e| e.line)
}

#[test]
fn hex_and_decimal_coordinates_round_trip() {
    assert_eq!(coord("1.5"), Some(1.5));
    assert_eq!(coord("-1e300"), Some(-1e300));
    assert_eq!(coord("0x3ff0000000000000"), Some(1.0));
    assert_eq!(coord(&format!("0x{:016x}", (0.1f64).to_bits())), Some(0.1));
    assert_eq!(coord("0x1"), None);
    assert_eq!(coord("banana"), None);
}

#[test]
fn parse_rejects_malformed_lines() {
    assert_eq!(count("a orient2d + 0 0 1 0 0 1"), Ok(1));
    assert_eq!(count("# nothing\n\n   \na orient2d + 0 0 1 0 0 1 # trailing"), Ok(1));
    assert_eq!(count("a nosuchpred + 0"), Err(1));
    assert!(parse("a orient2d ? 0 0 1 0 0 1").is_err());
    assert!(parse("a orient2d + 0 0 1 0 0").is_err(), "too few coordinates");
    assert!(parse("a orient2d + 0 0 1 0 0 1 9").is_err(), "too many coordinates");
    assert_eq!(count("ok orient2d + 0 0 1 0 0 1\nbad orient2d +"), Err(2));
}

#[test]
fn canonical_lines_of_every_kind_reparse() {
    for kind in PredicateKind::all() {
        let coords: Vec<Double> = (0..kind.arity())
            .map(|i| Double::from_bits((0.1f64 * (i as f64) - 0.3).to_bits()))
            .collect();
        let case = CorpusCase::new(String::from("k"), kind, Orientation::Negative, coords);
        let line = case.to_canonical_line();
        let reparsed = parse(&line).expect("canonical line must reparse");
        assert_eq!(reparsed.len(), 1);
        assert_eq!(reparsed[0].id(), "k");
        assert_eq!(reparsed[0].kind(), kind);
        assert_eq!(reparsed[0].expected(), Orientation::Negative);
        assert_eq!(reparsed[0].coords(), case.coords());
    }
}

#[test]
fn a_parsed_case_evaluates_to_the_exact_sign() {
    let cases = parse(
        "turn orient2d + 0 0 1 0 0 1\n\
         flat orient2d 0 0.5 0.5 12 12 24 24\n\
         below orient3d + 1 0 0 0 1 0 0 0 1 0 0 0\n\
         inside incircle + 1 0 0 1 -1 0 0 0\n\
         centre insphere + 1 0 0 0 1 0 0 0 1 0 0 0 0.5 0.5 0.5\n",
    )
    .expect("well formed");
    assert_eq!(cases.len(), 5);
    for case in &cases {
        assert_eq!(case.evaluate(&Adaptive), case.expected(), "case `{}`", case.id());
    }
}

#[test]
fn kinds_know_their_names_and_ranges() {
    assert_eq!(PredicateKind::from_name("incircle"), Some(PredicateKind::InCircle));
    assert_eq!(PredicateKind::from_name("InCircle"), None);
    assert_eq!(PredicateKind::InSphere.arity(), MAX_COORDS);
    assert_eq!(PredicateKind::Orient2d.coord_range(), orient2d_range());
    for kind in PredicateKind::all() {
        assert_eq!(PredicateKind::from_name(kind.name()), Some(kind));
    }
}

#[test]
fn errors_name_the_line() {
    let e = parse("a nosuchpred + 0").expect_err("unknown predicate");
    assert!(e.describe().contains("line 1"), "{}", e.describe());
    assert!(e.message.contains("nosuchpred"), "{}", e.message);
}
