use chipbreaker_core::double::Double;
use chipbreaker_core::math::{Aabb3, Axis, Vec3};
use chipbreaker_core::spans::{Span, Spans};
use chipbreaker_core::suites::arcs::{
    arc_motions, arc_probes, batched_motions, sweep_arc_suite, ArcCase, ArcPoint, ArcTolerance, BatchCase, Build,
    ToolArcs, ARC_STEPS,
};
use chipbreaker_core::suites::cuts::{linear_motions, linear_probes, sweep_suite, CutCase, ToolCuts, CUT_TOLERANCE};
use chipbreaker_core::sweep::arc::Motion;
use chipbreaker_core::sweep::batch::MotionSweep;
use chipbreaker_core::sweep::cut::{is_exact, Bundle, StepPlan, SweepMethod, Swept};
use chipbreaker_core::sweep::SweepCase;

fn d(x: f64) -> Double {
    Double::from_bits(x.to_bits())
}

fn f(x: Double) -> f64 {
    f64::from_bits(x.to_bits())
}

fn v(x: f64, y: f64, z: f64) -> Vec3 {
    Vec3::new(d(x), d(y), d(z))
}

fn set(pairs: &[(f64, f64)]) -> Spans {
    Spans::from_unsorted(pairs.iter().map(|p| Span::new(d(p.0), d(p.1))).collect())
}

fn pairs(s: &Spans) -> Vec<(f64, f64)> {
    s.as_slice().iter().map(|x| (f(x.t0), f(x.t1))).collect()
}

fn stock(length: f64) -> Vec<Bundle> {
    vec![Bundle {
        axis: Axis::Z,
        spacing: d(1.0),
        cell_area: d(2.0),
        origins: vec![v(0.5, 0.5, 0.0), v(50.0, 50.0, 0.0)],
        rays: vec![set(&[(0.0, length)]), set(&[(0.0, length)])],
    }]
}

fn covers(lo: f64, hi: f64) -> Vec<Swept> {
    vec![Swept { exact: true, spans: set(&[(lo, hi)]) }, Swept { exact: true, spans: set(&[(lo, hi)]) }]
}

fn near() -> Aabb3 {
    Aabb3::new(v(-1.0, -1.0, -1.0), v(2.0, 2.0, 20.0))
}

fn cut(motion: &'static str, plan: StepPlan, refused: Option<String>) -> CutCase {
    CutCase {
        motion,
        probes: vec![set(&[(1.0, 2.0)]), Spans::new(), set(&[(3.0, 4.0)])],
        refused,
        field: stock(10.0),
        bounds: near(),
        plan,
        swept: vec![covers(2.0, 5.0)],
    }
}

fn tool(name: &'static str, made: bool) -> ToolCuts {
    let method = SweepMethod::Analytic { tolerance: d(0.08) };
    let cuts = linear_motions()
        .iter()
        .map(|m| cut(m.name, method.plan(&Motion::Linear(m.motion), d(0.0)), None))
        .collect();
    ToolCuts { tool: name, made, cuts }
}

fn arc_tool(name: &'static str, made: bool, batch: BatchCase) -> ToolArcs {
    ToolArcs { tool: name, made, arcs: (0..5).map(arc_case).collect(), batch }
}

fn sweeps() -> Vec<Vec<MotionSweep>> {
    let spans = [(0.0, 1.0), (0.5, 2.0), (1.5, 4.0)];
    vec![spans
        .iter()
        .map(|s| MotionSweep { bounds: near(), plan: StepPlan { steps: 1, bound: d(0.0) }, swept: covers(s.0, s.1) })
        .collect()]
}

fn batch(first: f64, second: f64) -> BatchCase {
    BatchCase {
        single: Build { refused: None, field: stock(first) },
        batched: Build { refused: None, field: stock(second) },
        motions: batched_motions(),
        sweeps: sweeps(),
    }
}

fn arc_case(k: usize) -> ArcCase {
    let arc = arc_motions()[k].arc;
    let point = |s: f64| {
        let a = f(arc.bearing(d(s)));
        ArcPoint { cosine: d(a.cos()), sine: d(a.sin()) }
    };
    let method = SweepMethod::Analytic { tolerance: d(0.05) };
    let plan = method.plan(&Motion::Arc(arc), d(0.01));
    ArcCase {
        arc,
        closed: vec![true, false, true],
        sine: d(f(arc.quarter_step(ARC_STEPS)).sin()),
        cosine: d(f(arc.half_step(ARC_STEPS)).cos()),
        tolerances: [0.5, 0.05, 0.005]
            .iter()
            .map(|t| ArcTolerance {
                tolerance: d(*t),
                sine: d(0.01),
                angle: d(f(arc.chord_cosine(d(*t)).expect("a real arc")).acos()),
            })
            .collect(),
        points: (0..=8).map(|k| point(f64::from(k) / 8.0)).collect(),
        cut: cut(arc_motions()[k].name, plan, None),
    }
}

#[test]
fn linear_motions_cover_the_cases() {
    let m = linear_motions();
    assert_eq!(m[0].motion.case(), SweepCase::Horizontal);
    assert_eq!(m[1].motion.case(), SweepCase::Plunge);
    assert_eq!(m[2].motion.case(), SweepCase::Ramp);
    assert_eq!(m.iter().map(|x| x.name).collect::<Vec<_>>(), ["horizontal", "plunge", "ramp"]);
    assert_eq!(m[2].motion.end, v(24.0, 18.0, 3.0));
    assert_eq!(linear_probes()[1].origin, v(-5.0, 11.0, 5.0));
    assert_eq!(linear_probes()[2].direction, v(0.0, 1.0, 0.0));
}

#[test]
fn arc_motions_are_as_listed() {
    let a = arc_motions();
    assert_eq!(f(a[0].arc.sweep), 2.0 * std::f64::consts::PI);
    assert_eq!(f(a[1].arc.start_angle), 0.37);
    assert_eq!(f(a[2].arc.sweep), -2.6);
    assert!(a[3].arc.is_helix() && f(a[3].arc.rise) == -5.0);
    assert_eq!(a.iter().map(|x| x.arc.is_level_xy()).collect::<Vec<_>>(), [true, true, true, false, false]);
    assert_eq!(arc_probes()[0].origin, v(14.0, 5.5, -5.0));
    let m: Vec<Motion> = batched_motions();
    assert_eq!(m.iter().map(is_exact).collect::<Vec<_>>(), [true, true, false]);
}

#[test]
fn the_sweep_suite_cuts_every_stock() {
    assert_eq!(CUT_TOLERANCE, 0.08f64.to_bits());
    let mut tools = vec![tool("flat", true), tool("ball", true), tool("drill", false)];
    tools[0].cuts[1].refused = Some("too fine".to_owned());
    let r = sweep_suite(&mut tools);
    assert_eq!(r.name, "sweep");
    assert_eq!(r.cases, 5);
    let said: Vec<_> = r.failures.iter().map(|x| (x.case.as_str(), x.detail.as_str())).collect();
    assert_eq!(said, [("stock/flat/plunge", "too fine"), ("build/drill", "the catalogue refused a standard tool")]);
    let after = &tools[0].cuts[0].field[0].rays;
    assert_eq!(pairs(&after[0]), [(0.0, 2.0), (5.0, 10.0)]);
    assert_eq!(pairs(&after[1]), [(0.0, 10.0)]);
    assert_eq!(pairs(&tools[0].cuts[1].field[0].rays[0]), [(0.0, 10.0)]);
    assert_eq!(pairs(&tools[2].cuts[0].field[0].rays[0]), [(0.0, 10.0)]);
    let removed = format!("0;0;{};1;1;1;0;1;0;0;", 6.0f64.to_bits());
    assert!(r.digest.contains(&removed), "{}", r.digest);
    assert!(r.digest.starts_with("1;115;1;119;1;101;1;101;1;112;0;"), "{}", r.digest);
}

#[test]
fn the_arc_suite_does_not_see_the_batch_size() {
    let mut tools = vec![
        arc_tool("flat", true, batch(10.0, 10.0)),
        arc_tool("ball", true, batch(10.0, 10.0)),
        arc_tool("bull", true, batch(10.0, 10.0)),
    ];
    let r = sweep_arc_suite(&mut tools);
    assert_eq!(r.name, "sweep.arc");
    assert_eq!(r.cases, 21);
    assert!(r.passed(), "{:?}", r.failures);
    assert_eq!(pairs(&tools[0].batch.single.field[0].rays[0]), [(4.0, 10.0)]);
    assert_eq!(pairs(&tools[0].batch.batched.field[0].rays[0]), [(4.0, 10.0)]);
    assert_eq!(pairs(&tools[0].arcs[1].cut.field[0].rays[0]), [(0.0, 2.0), (5.0, 10.0)]);
    let length = f(arc_motions()[0].arc.path_length());
    assert_eq!(length, 7.0 * 2.0 * std::f64::consts::PI);
    assert!(r.digest.contains(&format!(";{};", length.to_bits())));
}

#[test]
fn different_stocks_come_out_differently() {
    let mut tools = vec![
        arc_tool("flat", true, batch(10.0, 10.0)),
        arc_tool("ball", false, batch(10.0, 10.0)),
        arc_tool("bull", true, batch(10.0, 12.0)),
    ];
    tools[0].batch.batched.refused = Some("no room".to_owned());
    let r = sweep_arc_suite(&mut tools);
    assert_eq!(r.cases, 13);
    let said: Vec<_> = r.failures.iter().map(|x| x.case.as_str()).collect();
    assert_eq!(said, ["batch/flat/32", "build/ball", "batch/bull"]);
    assert_eq!(r.failures[0].detail, "no room");
    assert!(r.failures[2].detail.contains("invisible tuning knob"));
}
