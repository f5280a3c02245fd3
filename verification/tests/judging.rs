use chipbreaker_core::canonical::{digest, same_words};
use chipbreaker_core::double::Double;
use chipbreaker_core::math::{Vec2, Vec3};
use chipbreaker_core::mesh::shapes::cube;
use chipbreaker_core::mesh::{MeshMeta, TriMesh};
use chipbreaker_core::spans::{Span, Spans};
use chipbreaker_core::suites::encoding::canonical_hash_suite;
use chipbreaker_core::suites::judging::{
    check_leaks, contour_suite, is_inscribed, judge_comparison, CodedNormal, Comparison, Extraction, ToolRay,
};

fn d(x: f64) -> Double {
    Double::from_bits(x.to_bits())
}

#[test]
fn extracted_meshes_must_be_closed_and_outward() {
    let solid = cube(d(2.0));
    let inward = TriMesh::new(
        solid.vertices().to_vec(),
        solid.triangles().iter().map(|t| [t[0], t[2], t[1]]).collect(),
        MeshMeta::synthetic(),
    )
    .expect("valid");
    let open = TriMesh::new(solid.vertices().to_vec(), solid.triangles()[1..].to_vec(), MeshMeta::synthetic())
        .expect("valid");
    let r = contour_suite(&[
        Extraction { name: "box/normals=true", mesh: Ok(solid), stats: vec![8, 0] },
        Extraction { name: "box/normals=false", mesh: Ok(inward), stats: vec![] },
        Extraction { name: "open", mesh: Ok(open), stats: vec![] },
        Extraction { name: "none", mesh: Err("no field".to_owned()), stats: vec![] },
    ], &[CodedNormal { code: 5, back: Vec3::new(d(0.0), d(0.0), d(1.0)), reversed: 6 }]);
    assert_eq!(r.name, "contour");
    assert_eq!(r.cases, 4);
    let said: Vec<_> = r.failures.iter().map(|x| (x.case.as_str(), x.detail.as_str())).collect();
    assert_eq!(
        said,
        [
            ("box/normals=false", "the signed volume is not positive, so the mesh is inside out"),
            ("open", "not manifold or not watertight"),
            ("none", "no field"),
        ]
    );
    let coded = format!("5;0;0;{};6;", 1.0f64.to_bits());
    assert!(r.digest.ends_with(&coded), "{}", r.digest);
}

#[test]
fn spans_must_stay_within_reach() {
    let ray = |hi: f64| ToolRay {
        name: "ball: leak on axis 2",
        spans: Spans::from_unsorted(vec![Span::new(d(0.0), d(1.0)), Span::new(d(3.0), d(hi))]),
        reach: d(10.0),
    };
    let mut failures = Vec::new();
    check_leaks(&ray(9.0), &mut failures);
    assert!(failures.is_empty());
    check_leaks(&ray(11.0), &mut failures);
    check_leaks(&ray(f64::INFINITY), &mut failures);
    assert_eq!(failures.len(), 2);
    assert_eq!(failures[0].case, "ball: leak on axis 2");
    assert!(is_inscribed(&cube(d(2.0)), d(8.0)));
    assert!(is_inscribed(&cube(d(2.0)), d(8.5)));
    assert!(!is_inscribed(&cube(d(2.0)), d(7.9)));
}

#[test]
fn a_cut_shows_as_a_gouge() {
    let case = |excess: f64, gouge: f64, samples: usize| Comparison {
        name: "flat-slot",
        worst_excess: d(excess),
        worst_gouge: d(gouge),
        samples,
    };
    let mut failures = Vec::new();
    judge_comparison(&case(1e-12, 3.0, 9), &mut failures);
    assert!(failures.is_empty());
    judge_comparison(&case(0.4, 0.3, 0), &mut failures);
    let said: Vec<_> = failures.iter().map(|x| x.case.as_str()).collect();
    assert_eq!(said, ["flat-slot/sign", "flat-slot/depth", "flat-slot/samples"]);
}

#[test]
fn zeros_and_nans_are_one_number_to_a_digest() {
    assert!(same_words(&digest(&d(0.0)), &digest(&d(-0.0))));
    let odd = Double::from_bits(f64::NAN.to_bits() ^ 0x7);
    assert!(same_words(&digest(&d(f64::NAN)), &digest(&odd)));
    assert!(!same_words(&digest(&d(1.0)), &digest(&d(-1.0))));
    assert!(!same_words(&digest(&d(5e-324)), &digest(&d(0.0))));
    let plane = digest(&Vec2::new(d(1.0), d(2.0)));
    let space = digest(&Vec3::new(d(1.0), d(2.0), d(0.0)));
    assert!(!same_words(&plane, &space));
    let r = canonical_hash_suite();
    assert_eq!((r.name, r.cases), ("hash.selfcheck", 18));
    assert!(r.passed());
    assert!(r.digest.contains(&format!(";107;0;0;0;{};", 1.0f64.to_bits())));
}
