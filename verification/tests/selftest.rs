use chipbreaker_core::double::Double;
use chipbreaker_core::math::{Aabb3, Axis, Vec2, Vec3};
use chipbreaker_core::mesh::revolved::{cone, cylinder, torus};
use chipbreaker_core::mesh::shapes::cube;
use chipbreaker_core::mesh::{MeshMeta, TriMesh};
use chipbreaker_core::predicates::corpus::parse;
use chipbreaker_core::refixture::Mat4;
use chipbreaker_core::selftest::{
    record, run, run_with, Failure, Measured, SuiteResult, COSINE_OF_TURN, ROOT_SOLVER_CASES, SINE_OF_TURN,
};
use chipbreaker_core::spans::{Span, Spans};
use chipbreaker_core::suites::algebra::{algebra_of, judge, SpanPair};
use chipbreaker_core::suites::arcs::{
    arc_motions, batched_motions, ArcCase, ArcPoint, ArcTolerance, BatchCase, Build, NamedArc, ToolArcs,
};
use chipbreaker_core::suites::corpus::predicate_corpus_suite;
use chipbreaker_core::suites::cuts::{linear_motions, CutCase, NamedMove, ToolCuts};
use chipbreaker_core::suites::fields::{
    collision_suite, deviation_suite, dexel_field_suite, tool_geometry_suite, BuiltField, CollisionCase,
    CollisionOutcome, Compared, Contact, DeviationCase, DeviationOutcome, Deviations, FacetCase, FieldCase, FieldFile,
    NormalCase, ProfileCase, ToolCase,
};
use chipbreaker_core::suites::judging::{CodedNormal, Comparison, Extraction, ToolRay};
use chipbreaker_core::suites::kernels::{
    math_kernel_suite, transcendental_suite, ExactCase, FunctionCase, InverseMatrix, KernelCase, UnitPoint,
};
use chipbreaker_core::suites::polynomials::{draw_polynomials, from_roots, root_solver_suite, PolynomialCase};
use chipbreaker_core::suites::setups::{setup_cases, setups_of};
use chipbreaker_core::suites::solids::{solids_of, SolidCase};
use chipbreaker_core::sweep::arc::Motion;
use chipbreaker_core::sweep::batch::MotionSweep;
use chipbreaker_core::sweep::cut::{Bundle, StepPlan, SweepMethod, Swept};
use std::f64::consts::{FRAC_PI_2, TAU};

fn d(x: f64) -> Double {
    Double::from_bits(x.to_bits())
}

fn v(x: f64, y: f64, z: f64) -> Vec3 {
    Vec3::new(d(x), d(y), d(z))
}

fn circle(segments: u32) -> Vec<Vec2> {
    (0..segments)
        .map(|i| {
            let a = TAU * f64::from(i) / f64::from(segments);
            Vec2::new(d(a.cos()), d(a.sin()))
        })
        .collect()
}

fn set(lo: f64, hi: f64) -> Spans {
    Spans::from_span(Span::new(d(lo), d(hi)))
}

fn told(r: &SuiteResult) -> Vec<(&str, &str)> {
    r.failures.iter().map(|x| (x.case.as_str(), x.detail.as_str())).collect()
}

fn identity() -> Mat4 {
    let (o, z) = (d(1.0), d(0.0));
    Mat4::from_rows_array([[o, z, z, z], [z, o, z, z], [z, z, o, z], [z, z, z, o]])
}

fn kernel() -> KernelCase {
    let p = v(3.0, 0.0, 4.0);
    KernelCase {
        matrix: identity(),
        point: p,
        determinant: d(1.0),
        moved: p,
        turned: p,
        lengths: [d(5.0), d(25.0)],
        normal: Some(UnitPoint { point: v(0.6, 0.0, 0.8), unit: true }),
        inverse: Some(InverseMatrix { matrix: identity(), back: p }),
    }
}

fn function(angle: f64) -> FunctionCase {
    let (any, unit, positive, small) = (2.5f64, 0.25f64, 3.0f64, 1.5f64);
    FunctionCase {
        arguments: [d(angle), d(any), d(unit), d(positive), d(small)],
        sine: d(angle.sin()),
        cosine: d(angle.cos()),
        tangent: d(angle.tan()),
        both: [d(angle.sin()), d(angle.cos())],
        arcs: [d(unit.asin()), d(unit.acos())],
        angles: [d(any.atan()), d(any.atan2(angle))],
        powers: [d(small.exp()), d(positive.ln()), d(positive.log10()), d(positive.powf(small))],
        lengths: [d(any.hypot(angle)), d(any.cbrt())],
        inverted: true,
    }
}

fn tool() -> ToolCase {
    ToolCase {
        name: "flat",
        profile: vec![7, 11],
        properties: [d(8.0), d(24.0), d(1.0), d(2.0)],
        rays: vec![ToolRay { name: "flat: leak on axis 0", spans: set(0.0, 2.0), reach: d(10.0) }],
        mesh: cube(d(2.0)),
        divisions: 12,
        stations: 3,
    }
}

fn field() -> FieldCase {
    FieldCase {
        name: "box-z",
        built: Ok(BuiltField {
            record: vec![1, 2, 3],
            volume: d(480.0),
            counts: [4, 0, 4, 0],
            file: Ok(FieldFile { bytes: vec![9, 8], back: Ok(vec![1, 2, 3]) }),
        }),
    }
}

fn stock() -> Vec<Bundle> {
    vec![Bundle {
        axis: Axis::Z,
        spacing: d(1.0),
        cell_area: d(2.0),
        origins: vec![v(0.5, 0.5, 0.0)],
        rays: vec![set(0.0, 10.0)],
    }]
}

fn near() -> Aabb3 {
    Aabb3::new(v(-1.0, -1.0, -1.0), v(2.0, 2.0, 20.0))
}

fn plan() -> StepPlan {
    StepPlan { steps: 1, bound: d(0.0) }
}

fn covers(lo: f64, hi: f64) -> Vec<Swept> {
    vec![Swept { exact: true, spans: set(lo, hi) }]
}

fn cut(motion: &'static str, plan: StepPlan) -> CutCase {
    CutCase {
        motion,
        probes: vec![set(1.0, 2.0), Spans::new(), set(0.0, 3.0)],
        refused: None,
        field: stock(),
        bounds: near(),
        plan,
        swept: vec![covers(2.0, 5.0)],
    }
}

fn cuts(tool: &'static str) -> ToolCuts {
    let method = SweepMethod::Analytic { tolerance: d(0.08) };
    let of = |m: &NamedMove| cut(m.name, method.plan(&Motion::Linear(m.motion), d(0.0)));
    ToolCuts { tool, made: true, cuts: linear_motions().iter().map(of).collect() }
}

fn arc_case(named: &NamedArc) -> ArcCase {
    let arc = named.arc;
    let sine_of = |n: u32| (f64::from_bits(arc.quarter_step(n).to_bits())).sin();
    let method = SweepMethod::Analytic { tolerance: d(0.05) };
    ArcCase {
        arc,
        closed: vec![true, true, false],
        sine: d(sine_of(64)),
        cosine: d(0.5),
        tolerances: [0.5, 0.05, 0.005]
            .iter()
            .map(|t| ArcTolerance { tolerance: d(*t), sine: d(0.01), angle: d(0.1) })
            .collect(),
        points: (0..9)
            .map(|k| {
                let a = f64::from_bits(arc.bearing(d(f64::from(k) / 8.0)).to_bits());
                ArcPoint { cosine: d(a.cos()), sine: d(a.sin()) }
            })
            .collect(),
        cut: cut(named.name, method.plan(&Motion::Arc(arc), d(0.01))),
    }
}

fn arcs(tool: &'static str) -> ToolArcs {
    ToolArcs { tool, made: true, arcs: arc_motions().iter().map(arc_case).collect(), batch: batch() }
}

fn batch() -> BatchCase {
    BatchCase {
        single: Build { refused: None, field: stock() },
        batched: Build { refused: None, field: stock() },
        motions: batched_motions(),
        sweeps: vec![[(0.0, 1.0), (0.5, 2.0), (1.5, 4.0)]
            .iter()
            .map(|s| MotionSweep { bounds: near(), plan: plan(), swept: covers(s.0, s.1) })
            .collect()],
    }
}

fn compared(gouge: f64) -> DeviationOutcome {
    DeviationOutcome::Compared(Compared {
        outcome: Comparison { name: "flat-slot", worst_excess: d(0.1), worst_gouge: d(gouge), samples: 5 },
        record: vec![5],
        figures: [d(0.2), d(0.0), d(0.01)],
    })
}

fn deviations() -> Deviations {
    Deviations {
        cuts: vec![DeviationCase { name: "flat-slot", outcome: compared(3.0) }],
        normals: Some(vec![NormalCase { normal: Some((v(0.0, 0.0, 1.0), 77)) }]),
        facets: vec![FacetCase { name: "box", size: d(0.0) }],
    }
}

fn contact() -> Contact {
    Contact {
        id: String::from("c-1"),
        contact: "penetration",
        magnitude: d(0.5),
        role: "holder",
        element: 2,
        obstacle: "stock",
        motion: "linear",
        at: v(1.0, 2.0, 3.0),
    }
}

fn measured() -> Measured {
    let exact = [
        ("sin(0)", 0.0f64.sin(), 0.0),
        ("cos(0)", 0.0f64.cos(), 1.0),
        ("exp(0)", 0.0f64.exp(), 1.0),
        ("ln(1)", 1.0f64.ln(), 0.0),
        ("log10(1000)", 1000.0f64.log10(), 3.0),
        ("2^10", 2.0f64.powf(10.0), 1024.0),
        ("hypot(3,4)", 3.0f64.hypot(4.0), 5.0),
        ("cbrt(-27)", (-27.0f64).cbrt(), -3.0),
    ];
    let mut polynomials = draw_polynomials();
    for c in &mut polynomials {
        if c.chosen.len() > 2 {
            c.found = c.chosen.clone();
        }
    }
    Measured {
        corpus: parse("ccw orient2d + 0 0 1 0 0 1\n").expect("well formed"),
        kernels: vec![kernel()],
        functions: vec![function(0.5), function(-31.0)],
        exact_values: exact.iter().map(|x| ExactCase { label: x.0, value: d(x.1), expected: d(x.2) }).collect(),
        turned: vec![
            SolidCase { name: "cylinder-32", mesh: cylinder(d(4.0), d(9.0), &circle(32)).expect("a cylinder") },
            SolidCase { name: "cone-32", mesh: cone(d(4.0), d(9.0), &circle(32)).expect("a cone") },
            SolidCase { name: "torus-16", mesh: torus(d(6.0), d(2.0), &circle(16), &circle(8)).expect("a torus") },
        ],
        polynomials,
        tools: vec![tool()],
        fields: vec![field()],
        cuts: vec![cuts("flat"), cuts("ball"), cuts("drill")],
        arcs: vec![arcs("flat"), arcs("ball"), arcs("bull")],
        extractions: vec![Extraction { name: "box/normals=true", mesh: Ok(cube(d(2.0))), stats: vec![8] }],
        codes: vec![CodedNormal { code: 5, back: v(0.0, 0.0, 1.0), reversed: 6 }],
        deviations: deviations(),
        profiles: vec![ProfileCase { name: "stub", outcome: Ok(Some(vec![1])) }],
        collisions: vec![CollisionCase { id: String::from("crash-1"), outcome: CollisionOutcome::Found(vec![contact()]) }],
        turn: [Double::from_bits(COSINE_OF_TURN), Double::from_bits(SINE_OF_TURN)],
        sample_distance: d(1.0),
    }
}

#[test]
fn selftest_passes() {
    let report = run(measured());
    for suite in &report.suites {
        assert!(suite.passed(), "suite `{}` failed: {:?}", suite.name, suite.failures);
    }
    assert!(report.passed());
    assert_eq!(report.total_failures(), 0);
    assert!(report.total_cases() > 9_000);
}

#[test]
fn selftest_is_reproducible_within_a_process() {
    let a = run(measured());
    let b = run(measured());
    assert_eq!(a.digest, b.digest, "two runs produced different digests");
    assert_eq!(a, b);
}

#[test]
fn every_suite_has_a_distinct_name_and_digest() {
    let report = run(measured());
    let mut names: Vec<&str> = report.suites.iter().map(|s| s.name).collect();
    names.sort_unstable();
    let before = names.len();
    names.dedup();
    assert_eq!(before, names.len(), "duplicate suite names");

    let mut digests: Vec<String> = report.suites.iter().map(|s| s.digest.clone()).collect();
    digests.sort();
    let before = digests.len();
    digests.dedup();
    assert_eq!(before, digests.len(), "two suites produced the same digest");
}

#[test]
fn report_digest_depends_on_every_suite() {
    let mut tampered = run(measured());
    let baseline = tampered.digest.clone();
    tampered.suites[0].cases += 1;
    assert_ne!(record(&tampered.suites), baseline);
}

#[test]
fn the_suites_come_in_their_order_and_further_ones_last() {
    let extra = vec![SuiteResult {
        name: "gcode",
        description: "a suite of another crate",
        cases: 7,
        failures: vec![Failure { case: String::from("x"), detail: String::from("y") }],
        digest: String::from("none"),
    }];
    let report = run_with(measured(), extra);
    let names: Vec<&str> = report.suites.iter().map(|s| s.name).collect();
    assert_eq!(
        names,
        [
            "predicates.corpus",
            "predicates.identities",
            "spans.algebra",
            "math.kernels",
            "transcendental",
            "mesh",
            "roots",
            "tool",
            "dexel.field",
            "sweep",
            "sweep.arc",
            "contour",
            "deviation",
            "refixture",
            "collision",
            "hash.selfcheck",
            "gcode",
        ]
    );
    assert_eq!(report.suites[5].cases, 6 * 64);
    assert_eq!(report.suites[6].cases, ROOT_SOLVER_CASES);
    assert!(!report.passed());
    assert_eq!(report.total_failures(), 1);
    assert_eq!(report.digest, record(&report.suites));
    let plain = run(measured());
    assert_eq!(plain.suites[..], report.suites[..16]);
    assert_eq!(plain, run_with(measured(), Vec::new()));
    assert_eq!(report.suites[9].cases, 9);
    assert_eq!(report.suites[10].cases, 21);
    assert_eq!(report.suites[3].description, "matrix inverse, transform and normalization round-trips over seeded input");
}

#[test]
fn kernels_are_judged() {
    let mut long = kernel();
    long.normal = Some(UnitPoint { point: v(2.0, 0.0, 0.0), unit: false });
    let mut lost = kernel();
    lost.inverse = Some(InverseMatrix { matrix: identity(), back: v(f64::NAN, 0.0, 0.0) });
    let r = math_kernel_suite(&[kernel(), long, lost]);
    assert_eq!(r.cases, 3);
    assert_eq!(
        told(&r),
        [
            ("normalize/1", "a point at unit length has another length"),
            ("inverse/2", "round-trip produced a non-finite point"),
        ]
    );
    assert_ne!(r.digest, math_kernel_suite(&[kernel(), kernel(), kernel()]).digest);
}

#[test]
fn elementary_functions_are_judged() {
    let mut wrong = function(1.0);
    wrong.both = [d(0.5), d(0.5)];
    wrong.inverted = false;
    wrong.arcs = [d(0.0), d(0.0)];
    assert!((0.25f64.asin() + 0.25f64.acos() - FRAC_PI_2).abs() < 1e-12);
    let r = transcendental_suite(
        &[function(0.3), wrong],
        &[ExactCase { label: "cos(0)", value: d(0.5), expected: d(1.0) }, ExactCase { label: "sin(0)", value: d(-0.0), expected: d(0.0) }],
    );
    assert_eq!(r.cases, 2);
    let names: Vec<&str> = r.failures.iter().map(|f| f.case.as_str()).collect();
    assert_eq!(names, ["sin_cos/1", "pythagorean/1", "exp-ln/1", "asin-acos/1", "cos(0)"]);
}

#[test]
fn tools_must_not_leak_nor_outgrow_themselves() {
    let mut bad = tool();
    bad.rays.push(ToolRay { name: "flat: leak on axis 2", spans: set(0.0, 20.0), reach: d(10.0) });
    bad.properties[0] = d(7.0);
    let r = tool_geometry_suite(&[tool(), bad]);
    assert_eq!(r.cases, 3 + 4);
    assert_eq!(
        told(&r),
        [
            ("flat: leak on axis 2", "a span escapes its bound"),
            ("flat: tessellation is not inscribed", "the mesh holds more than the tool"),
        ]
    );
}

#[test]
fn fields_must_survive_their_file() {
    let named = |name, built| FieldCase { name, built };
    let built = |file| Ok(BuiltField { record: vec![1], volume: d(1.0), counts: [1, 0, 1, 0], file });
    let r = dexel_field_suite(&[
        field(),
        named("a", Err(String::from("too fine"))),
        named("b", built(Err(String::from("disk full")))),
        named("c", built(Ok(FieldFile { bytes: vec![1], back: Err(String::from("bad magic")) }))),
        named("d", built(Ok(FieldFile { bytes: vec![1], back: Ok(vec![2]) }))),
    ]);
    assert_eq!(r.cases, 4);
    assert_eq!(
        told(&r),
        [
            ("build/a", "too fine"),
            ("write/b", "disk full"),
            ("read/c", "bad magic"),
            ("roundtrip/d", "a field did not survive a .dexel round trip with the same digest"),
        ]
    );
}

#[test]
fn deviations_are_judged() {
    let mut given = deviations();
    given.cuts.push(DeviationCase { name: "ball-skim", outcome: DeviationOutcome::NoTool });
    given.cuts.push(DeviationCase { name: "ball-deep", outcome: DeviationOutcome::NoField });
    given.cuts.push(DeviationCase { name: "shallow", outcome: compared(0.3) });
    given.normals = Some(vec![NormalCase { normal: None }; 11]);
    let r = deviation_suite(&given);
    assert_eq!(r.cases, 5 + 5 + 1);
    let names: Vec<&str> = r.failures.iter().map(|f| f.case.as_str()).collect();
    assert_eq!(&names[..3], ["ball-skim/tool", "ball-deep/build", "flat-slot/depth"]);
    assert_eq!(names[3], "tool-normal/0/0");
    assert_eq!(names[13], "tool-normal/1/1");
    given.normals = None;
    let r = deviation_suite(&given);
    assert_eq!(told(&r)[3], ("tool-normal/tool", "the catalogue refused a standard bull mill"));
}

#[test]
fn collisions_are_recorded() {
    let profile = |name, outcome| ProfileCase { name, outcome };
    let case = |id: &str, outcome| CollisionCase { id: id.to_owned(), outcome };
    let r = collision_suite(
        &[
            profile("stub", Ok(Some(vec![3]))),
            profile("mid", Ok(None)),
            profile("long", Err(String::from("no flute"))),
        ],
        &[
            case("c1", CollisionOutcome::Found(vec![contact()])),
            case("c2", CollisionOutcome::NoField),
            case("c3", CollisionOutcome::Unchecked(String::from("too many"))),
        ],
    );
    assert_eq!(r.cases, 2);
    assert_eq!(
        told(&r),
        [
            ("collision/profile/mid", "a held tool reported no non-cutting geometry"),
            ("collision/profile/long", "the catalogue refused a standard held mill: no flute"),
            ("collision/c2", "the stock field would not build"),
            ("collision/c3", "a corpus case was unexpectedly unchecked: too many"),
        ]
    );
    let mut deeper = contact();
    deeper.magnitude = d(0.75);
    let other = collision_suite(&[], &[case("c1", CollisionOutcome::Found(vec![deeper]))]);
    let same = collision_suite(&[], &[case("c1", CollisionOutcome::Found(vec![contact()]))]);
    assert_ne!(other.digest, same.digest);
}

#[test]
fn an_open_shape_leaks_and_is_named() {
    let solid = cube(d(4.0));
    let open = TriMesh::new(
        solid.vertices().to_vec(),
        solid.triangles()[2..].to_vec(),
        MeshMeta::synthetic(),
    )
    .expect("valid");
    let r = solids_of(&[SolidCase { name: "open", mesh: open }]);
    assert_eq!(r.cases, 64);
    let names: Vec<&str> = r.failures.iter().map(|f| f.case.as_str()).collect();
    assert_eq!(names[0], "validate/open");
    assert!(names.contains(&"parity/open/3-4"), "{names:?}");
    assert!(solids_of(&[SolidCase { name: "cube", mesh: solid }]).passed());
}

#[test]
fn polynomials_are_drawn_in_three_degrees() {
    let drawn = draw_polynomials();
    assert_eq!(drawn.len(), ROOT_SOLVER_CASES);
    for (i, c) in drawn.iter().enumerate() {
        assert_eq!(c.chosen.len(), 2 + i % 3);
        assert_eq!(c.coefficients.len(), 3 + i % 3);
        for r in &c.chosen {
            let x = f64::from_bits(r.to_bits());
            assert!((-8.0..=8.0).contains(&x) && (4.0 * x).fract() == 0.0, "{x}");
        }
        assert_eq!(c.found.is_empty(), i % 3 != 0);
    }
}

#[test]
fn a_wrong_expectation_is_a_failure() {
    let cases = parse("right orient2d + 0 0 1 0 0 1\nwrong orient2d - 0 0 1 0 0 1\n").expect("well formed");
    let r = predicate_corpus_suite(&cases);
    assert_eq!(r.cases, 2);
    assert_eq!(r.failures.len(), 1);
    assert_eq!(told(&r), [("wrong", "orient2d expected `-`, adaptive predicate returned `+`")]);
    assert!(r.digest.starts_with("1;112;1;114;1;101;"), "{}", r.digest);
    assert!(r.digest.ends_with(";0;1;43;1;43;0;"), "{}", r.digest);
}

#[test]
fn a_sliver_breaks_a_law_and_is_named() {
    let a = Spans::from_span(Span::new(d(0.0), d(10.0)));
    let mut b = Spans::new();
    b.push_merge(Span::new(d(5.0), d(5.0 + 5e-10)));
    let verdict = judge(&a, &b);
    assert!(verdict.idempotent && verdict.union_commutes && verdict.restored);
    assert!(!verdict.disjoint || !verdict.partition || !verdict.measured);
    let r = algebra_of(&[SpanPair { a, b }]);
    assert!(!r.passed());
    assert!(r.failures[0].case.ends_with("/0"), "{:?}", r.failures);
}

#[test]
fn a_missed_root_is_a_failure() {
    let chosen = vec![d(1.0), d(2.0)];
    let coefficients = from_roots(d(1.0), &chosen);
    assert_eq!(coefficients, vec![d(1.0), d(-3.0), d(2.0)]);
    let r = root_solver_suite(&[PolynomialCase { coefficients, chosen, found: vec![d(1.0), d(1.5)] }]);
    let names: Vec<&str> = r.failures.iter().map(|f| f.case.as_str()).collect();
    assert_eq!(names, ["case 0: residual", "case 0: missing root"]);
}

#[test]
fn a_scaled_setup_is_refused_by_the_suite() {
    let mut cases = setup_cases(Double::from_bits(COSINE_OF_TURN), Double::from_bits(SINE_OF_TURN));
    cases[3].transform.rows[2][2] = d(2.0);
    let block = Aabb3::new(Vec3::zeroed(), Vec3::new(d(2.0), d(3.0), d(4.0)));
    let r = setups_of(&cases, &block, d(0.5), d(1.0));
    assert_eq!(r.cases, 5);
    assert_eq!(r.failures.len(), 1);
    assert_eq!(r.failures[0].case, "refixture/classify/oblique");
    assert_eq!(f64::from_bits(COSINE_OF_TURN), 0.4f64.cos());
    assert_eq!(f64::from_bits(SINE_OF_TURN), 0.4f64.sin());
}
