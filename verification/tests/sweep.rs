use chipbreaker_core::double::Double;
use chipbreaker_core::math::{Aabb3, Axis, OctNormal, Ray, Vec2, Vec3};
use chipbreaker_core::spans::{Span, Spans};
use chipbreaker_core::sweep::arc::{disc_chord, half_plane, wedge_intervals, ArcMove, ArcPlane, Motion};
use chipbreaker_core::sweep::batch::{run_chunk, split_runs, total_removed, MotionSweep, Run};
use chipbreaker_core::sweep::closed::{middle_spans_into, upright_ray};
use chipbreaker_core::sweep::cut::{
    cut_along, cut_bundle_motion, cut_tri_motion, is_exact, route, swept_of, transverse_overlaps, Bundle, Cover, CutStats, Route, StepPlan,
    SweepMethod, Swept,
};
use chipbreaker_core::sweep::horizontal::{frame, prism_spans, slab_interval};
use chipbreaker_core::sweep::parallel::{chaos_order, combine_chunks, cut_batch_bundle, Schedule};
use chipbreaker_core::sweep::path::{linearise, path_bounds};
use chipbreaker_core::sweep::plunge::{
    across_spans, along_spans, is_radially_convex, lie, max_radius_over_z, sample_point, Lie, ProfileSegment,
    CONVEXITY_SAMPLES,
};
use chipbreaker_core::sweep::reference::{positions, substeps_for_error, union_all, MAX_SUBSTEPS};
use chipbreaker_core::sweep::sequence::{cut_all, cut_field};
use chipbreaker_core::sweep::storage::{bytes, distribution, spilled, Arena, SpanCount};
use chipbreaker_core::sweep::{tool_bounds, LinearMove, SweepCase, ToolExtent};

fn d(x: f64) -> Double {
    Double::from_bits(x.to_bits())
}

fn f(x: Double) -> f64 {
    f64::from_bits(x.to_bits())
}

fn v(x: f64, y: f64, z: f64) -> Vec3 {
    Vec3::new(d(x), d(y), d(z))
}

fn set(pairs: &[(f64, f64)]) -> Spans {
    Spans::from_unsorted(pairs.iter().map(|p| Span::new(d(p.0), d(p.1))).collect())
}

fn pairs(s: &Spans) -> Vec<(f64, f64)> {
    s.as_slice().iter().map(|x| (f(x.t0), f(x.t1))).collect()
}

fn line(a: Vec3, b: Vec3) -> LinearMove {
    LinearMove { start: a, end: b }
}

fn arc(rise: f64) -> ArcMove {
    ArcMove {
        center: v(0.0, 0.0, 0.0),
        radius: d(5.0),
        start_angle: d(0.0),
        sweep: d(2.0),
        z: d(1.0),
        plane: ArcPlane::Xy,
        rise: d(rise),
    }
}

fn tool() -> ToolExtent {
    ToolExtent { max_radius: d(3.0), total_length: d(20.0) }
}

#[test]
fn motions_fall_into_four_cases() {
    let o = v(0.0, 0.0, 0.0);
    assert_eq!(line(o, o).case(), SweepCase::Stationary);
    assert_eq!(line(o, v(3.0, 4.0, 0.0)).case(), SweepCase::Horizontal);
    assert_eq!(line(o, v(0.0, 0.0, -2.0)).case(), SweepCase::Plunge);
    assert_eq!(line(o, v(1.0, 0.0, -2.0)).case(), SweepCase::Ramp);
    assert_eq!(f(line(o, v(3.0, 4.0, 7.0)).horizontal()), 5.0);
    assert_eq!(f(line(o, v(3.0, 4.0, -7.0)).vertical()), 7.0);
    assert_eq!(line(o, v(2.0, 4.0, 6.0)).at(d(0.5)), v(1.0, 2.0, 3.0));
    assert_eq!(SweepCase::Plunge.as_str(), "plunge");
}

#[test]
fn the_swept_box_holds_both_ends() {
    let m = line(v(0.0, 0.0, 0.0), v(10.0, 0.0, 5.0));
    assert_eq!(m.swept_bounds(&tool()), Aabb3::new(v(-3.0, -3.0, 0.0), v(13.0, 3.0, 25.0)));
    assert_eq!(tool_bounds(&tool(), v(1.0, 2.0, 3.0)), Aabb3::new(v(-2.0, -1.0, 3.0), v(4.0, 5.0, 23.0)));
}

#[test]
fn sub_steps_keep_their_tolerance() {
    let m = line(v(0.0, 0.0, 0.0), v(10.0, 0.0, 0.0));
    let (steps, bound) = substeps_for_error(&m, d(0.01));
    assert!(steps >= 1 && steps <= MAX_SUBSTEPS);
    assert!(f(bound) <= 0.01, "{}", f(bound));
    let (capped, coarse) = substeps_for_error(&m, d(1e-9));
    assert_eq!(capped, MAX_SUBSTEPS);
    assert!(f(coarse) > 1e-9);
    let tips = positions(&m, 4);
    assert_eq!(tips.first(), Some(&m.start));
    assert_eq!(tips.last(), Some(&m.end));
    assert_eq!(tips.len(), 5);
    assert_eq!(tips[1], v(2.5, 0.0, 0.0));
    let all = union_all(&[set(&[(0.0, 1.0)]), set(&[(0.5, 2.0), (4.0, 5.0)]), Spans::new()]);
    assert_eq!(pairs(&all), [(0.0, 2.0), (4.0, 5.0)]);
}

#[test]
fn a_disc_is_crossed_along_its_chord() {
    let ray = Ray { origin: v(-2.0, 0.0, 7.0), direction: v(1.0, 0.0, 0.0) };
    let chord = disc_chord(d(0.0), d(0.0), &ray, d(1.0)).expect("through the middle");
    assert_eq!((f(chord.t0), f(chord.t1)), (1.0, 3.0));
    let beside = Ray { origin: v(-2.0, 1.5, 7.0), direction: v(1.0, 0.0, 0.0) };
    assert_eq!(disc_chord(d(0.0), d(0.0), &beside, d(1.0)), None);
}

#[test]
fn a_half_plane_cuts_a_ray_once() {
    let ray = Ray { origin: v(0.0, -3.0, 0.0), direction: v(0.0, 1.0, 0.0) };
    let east = Vec2::new(d(1.0), d(0.0));
    let left = half_plane(east, ray.origin.x, ray.origin.y, &ray, true).expect("reaches the left side");
    let right = half_plane(east, ray.origin.x, ray.origin.y, &ray, false).expect("starts on the right side");
    assert_eq!(f(left.t0), 3.0);
    assert_eq!(f(right.t1), 3.0);
    assert_eq!(f(left.t1), f64::INFINITY);
    assert_eq!(f(right.t0), f64::NEG_INFINITY);
}

#[test]
fn a_quarter_wedge_is_met_in_one_piece() {
    let mut quarter = arc(0.0);
    quarter.sweep = d(std::f64::consts::FRAC_PI_2);
    let ray = Ray { origin: v(-4.0, 2.0, 0.0), direction: v(1.0, 0.0, 0.0) };
    let pieces = wedge_intervals(&quarter, &ray, Vec2::new(d(1.0), d(0.0)), Vec2::new(d(0.0), d(1.0)));
    assert_eq!(pieces.len(), 1, "{pieces:?}");
    assert_eq!(f(pieces[0].t0), 4.0);
}

#[test]
fn level_moves_and_arcs_have_closed_forms() {
    let o = v(0.0, 0.0, 0.0);
    assert!(is_exact(&Motion::Linear(line(o, v(1.0, 0.0, 0.0)))));
    assert!(!is_exact(&Motion::Linear(line(o, v(1.0, 0.0, 1.0)))));
    assert!(is_exact(&Motion::Arc(arc(0.0))));
    assert!(!is_exact(&Motion::Arc(arc(1.0))));
    let analytic = SweepMethod::Analytic { tolerance: d(0.1) };
    assert_eq!(route(analytic, &Motion::Arc(arc(0.0))), Route::LevelArc);
    assert_eq!(route(analytic, &Motion::Arc(arc(1.0))), Route::Steps);
    assert_eq!(route(analytic, &Motion::Linear(line(o, v(0.0, 0.0, 1.0)))), Route::Plunge);
    assert_eq!(route(SweepMethod::Reference { steps: 9 }, &Motion::Linear(line(o, o))), Route::Steps);
    let plan = SweepMethod::Reference { steps: 9 }.plan(&Motion::Linear(line(o, v(9.0, 0.0, 0.0))), d(0.0));
    assert_eq!(plan.steps, 9);
    assert_eq!(f(arc(0.0).path_length()), 10.0);
}

#[test]
fn the_frame_of_a_level_move() {
    let m = line(v(0.0, 0.0, 1.0), v(10.0, 0.0, 1.0));
    let ray = Ray { origin: v(4.0, -5.0, 2.0), direction: v(0.0, 1.0, 0.0) };
    let p = frame(&m, &ray);
    assert_eq!(f(p.offset), -5.0);
    assert_eq!(f(p.height), 1.0);
    assert_eq!(f(p.speed()), 1.0);
    assert!(p.cross_section_ray().is_some());
    let covered = prism_spans(&p, &set(&[(2.0, 8.0)]));
    assert_eq!(pairs(&covered), [(2.0, 8.0)]);
    let slab = slab_interval(d(4.0), d(-2.0), d(10.0)).expect("crosses");
    assert_eq!((f(slab.t0), f(slab.t1)), (-3.0, 2.0));
    assert_eq!(slab_interval(d(-1.0), d(0.0), d(10.0)), None);
}

#[test]
fn plunges_draw_out_what_the_tool_covers() {
    let down = line(v(0.0, 0.0, 10.0), v(0.0, 0.0, 4.0));
    let up = Ray { origin: v(0.0, 0.0, 0.0), direction: v(0.0, 0.0, 1.0) };
    assert_eq!(lie(&up), Lie::Along);
    assert_eq!(pairs(&along_spans(&down, &up, &set(&[(10.0, 30.0)]))), [(4.0, 30.0)]);
    let east = Ray { origin: v(-5.0, 0.0, 12.0), direction: v(1.0, 0.0, 0.0) };
    assert_eq!(lie(&east), Lie::Across);
    assert_eq!(pairs(&across_spans(&down, &east, d(2.0))), [(3.0, 7.0)]);
    assert!(across_spans(&down, &east, d(0.0)).is_empty());
    let slanted = Ray { origin: v(0.0, 0.0, 0.0), direction: v(1.0, 0.0, 1.0) };
    assert_eq!(lie(&slanted), Lie::Oblique);
    let p = |x: f64, y: f64| Vec2::new(d(x), d(y));
    let profile = [
        ProfileSegment { start: p(0.0, 0.0), end: p(3.0, 3.0) },
        ProfileSegment { start: p(3.0, 3.0), end: p(3.0, 20.0) },
    ];
    assert_eq!(f(max_radius_over_z(&profile, d(0.0), d(1.0))), 1.0);
    assert_eq!(f(max_radius_over_z(&profile, d(5.0), d(4.0))), 3.0);
    assert_eq!(f(max_radius_over_z(&profile, d(30.0), d(40.0))), 0.0);
}

#[test]
fn a_hollow_profile_is_not_radially_convex() {
    let n = CONVEXITY_SAMPLES as usize;
    let full = vec![vec![true; n]; n];
    assert!(is_radially_convex(&tool(), &full));
    let mut hollow = full.clone();
    hollow[n / 2][n / 4] = false;
    assert!(!is_radially_convex(&tool(), &hollow));
    let p = sample_point(&tool(), 0, 0);
    assert!(f(p.x) >= 0.0 && f(p.x) <= 3.0 && f(p.y) >= 0.0 && f(p.y) <= 20.0);
}

fn bundle(rays: usize) -> Bundle {
    Bundle {
        axis: Axis::Z,
        spacing: d(1.0),
        cell_area: d(2.0),
        origins: (0..rays).map(|i| v(i as f64, 0.0, 0.0)).collect(),
        rays: (0..rays).map(|_| set(&[(0.0, 10.0)])).collect(),
    }
}

fn covering(bounds: Aabb3, list: Vec<Spans>) -> MotionSweep {
    MotionSweep {
        bounds,
        plan: StepPlan { steps: 3, bound: d(0.25) },
        swept: list.into_iter().enumerate().map(|(i, spans)| Swept { exact: i % 2 == 0, spans }).collect(),
    }
}

fn all_space() -> Aabb3 {
    Aabb3::new(v(-100.0, -100.0, -100.0), v(100.0, 100.0, 100.0))
}

#[test]
fn a_cut_removes_what_the_tool_covers_and_counts_it() {
    let mut b = bundle(3);
    let m = covering(
        Aabb3::new(v(-0.5, -1.0, 0.0), v(1.2, 1.0, 10.0)),
        vec![set(&[(2.0, 4.0)]), set(&[(8.0, 20.0)]), set(&[(0.0, 10.0)])],
    );
    let stats = cut_bundle_motion(&mut b, &m.bounds, &m.plan, &m.swept);
    assert_eq!(pairs(&b.rays[0]), [(0.0, 2.0), (4.0, 10.0)]);
    assert_eq!(pairs(&b.rays[1]), [(0.0, 8.0)]);
    assert_eq!(pairs(&b.rays[2]), [(0.0, 10.0)], "outside the box");
    assert_eq!((stats.rays_tested, stats.rays_rejected, stats.rays_changed), (2, 1, 2));
    assert_eq!((stats.rays_exact, stats.rays_substepped, stats.substeps), (1, 1, 3));
    assert_eq!(f(stats.worst_bound_mm), 0.25);
    assert_eq!(stats.removed_mm3().map(f), [0.0, 0.0, 8.0]);
    assert_eq!(f(stats.rejection_rate()), 1.0 / 3.0);
    let mut twice = CutStats::default();
    twice.merge(&stats);
    twice.merge(&stats);
    assert_eq!(twice.rays_tested, 4);
    assert_eq!(f(twice.removed_z), 16.0);
}

#[test]
fn three_bundles_are_cut_by_one_motion() {
    let mut field = vec![bundle(1), bundle(1)];
    field[1].axis = Axis::X;
    field[1].origins[0] = v(0.0, 0.0, 0.0);
    let covered = vec![
        covering(all_space(), vec![set(&[(0.0, 1.0)])]).swept,
        covering(all_space(), vec![set(&[(0.0, 2.0)])]).swept,
    ];
    let plan = StepPlan { steps: 1, bound: d(0.0) };
    let stats = cut_tri_motion(&mut field, &all_space(), &plan, &covered);
    assert_eq!(stats.removed_mm3().map(f), [4.0, 0.0, 2.0]);
    assert_eq!(pairs(&field[0].rays[0]), [(1.0, 10.0)]);
    assert_eq!(pairs(&field[1].rays[0]), [(2.0, 10.0)]);
}

#[test]
fn chunks_in_any_order_cut_what_one_pass_cuts() {
    let motions: Vec<MotionSweep> = (0..3)
        .map(|k| {
            let k = f64::from(k);
            covering(all_space(), (0..7).map(|i| set(&[(k + i as f64 * 0.25, k + 2.0)])).collect())
        })
        .collect();
    let mut whole = bundle(7);
    let mut volumes = vec![d(0.0); 3];
    let stats = cut_batch_bundle(&mut whole, &motions, &mut volumes);

    let mut pieces = bundle(7);
    let mut chunks = Vec::new();
    for k in chaos_order(4, Some(99)) {
        let from = 2 * k as u32;
        chunks.push(run_chunk(&pieces, &motions, from, (from + 2).min(7)));
    }
    let mut other = vec![d(0.0); 3];
    let joined = combine_chunks(&mut pieces, &motions, &chunks, 2, &mut other);
    assert_eq!(joined, stats);
    assert_eq!(other, volumes);
    for i in 0..7 {
        assert_eq!(pairs(&pieces.rays[i]), pairs(&whole.rays[i]), "ray {i}");
    }
    assert!(f(total_removed(&volumes)) > 0.0);
}

#[test]
fn runs_share_a_tool_and_a_kind() {
    let o = v(0.0, 0.0, 0.0);
    let level = Motion::Linear(line(o, v(1.0, 0.0, 0.0)));
    let ramp = Motion::Linear(line(o, v(1.0, 0.0, 1.0)));
    let runs = split_runs(&[level, level, level, ramp, level, level], &[1, 1, 1, 1, 1, 2], 2);
    let expected = [(0, 2), (2, 3), (3, 4), (4, 5), (5, 6)].map(|(start, end)| Run { start, end });
    assert_eq!(runs, expected);
}

#[test]
fn schedules_size_their_batches() {
    let s = Schedule::default();
    assert_eq!(s.workers(Some(8)), 8);
    assert_eq!(s.workers(None), 1);
    assert_eq!(Schedule::sequential().workers(Some(8)), 1);
    assert_eq!(Schedule::sequential().batch(32, 1), 32);
    assert_eq!(s.batch(32, 8), 512);
    let mut order = chaos_order(10, Some(5));
    assert_ne!(order, (0..10).collect::<Vec<usize>>());
    order.sort_unstable();
    assert_eq!(order, (0..10).collect::<Vec<usize>>());
    assert_eq!(chaos_order(4, None), vec![0, 1, 2, 3]);
}

#[test]
fn a_ray_beside_the_box_is_rejected() {
    let b = Aabb3::new(v(0.0, 0.0, 0.0), v(1.0, 1.0, 1.0));
    assert!(transverse_overlaps(&b, Axis::Z, v(0.5, 0.5, 9.0), d(0.1)));
    assert!(!transverse_overlaps(&b, Axis::Z, v(3.0, 0.5, 0.5), d(0.1)));
    assert!(transverse_overlaps(&b, Axis::X, v(9.0, 0.5, 0.5), d(0.1)));
}

#[test]
fn storage_adds_up_over_bundles() {
    let one = Arena {
        spilled_rays: 2,
        bytes: 100,
        counts: vec![SpanCount { spans: 1, rays: 5 }, SpanCount { spans: 3, rays: 2 }],
    };
    let two = Arena { spilled_rays: 1, bytes: 50, counts: vec![SpanCount { spans: 3, rays: 4 }] };
    let field = [one, two];
    assert_eq!(spilled(&field), 3);
    assert_eq!(bytes(&field), 150);
    assert_eq!(
        distribution(&field),
        vec![SpanCount { spans: 1, rays: 5 }, SpanCount { spans: 3, rays: 6 }]
    );
}

#[test]
fn cut_faces_carry_the_normal_of_the_cutter_reversed() {
    let n = OctNormal::encode(v(0.0, 0.0, -1.0));
    let stock = set(&[(0.0, 10.0)]);
    let cutter = Spans::from_span(Span::with_normals(d(4.0), d(20.0), n, n));
    let left = stock.subtract(&cutter);
    assert_eq!(left.as_slice()[0].n1, n.negated());
}

fn many_motions() -> Vec<MotionSweep> {
    (0..5)
        .map(|k| {
            let k = f64::from(k);
            let near = Aabb3::new(v(k - 2.0, -1.0, 0.0), v(k + 1.5, 1.0, 10.0));
            covering(near, (0..7).map(|i| set(&[(k * 0.7 + i as f64 * 0.1, k + 1.3)])).collect())
        })
        .collect()
}

#[test]
fn the_batch_size_is_invisible() {
    let motions = many_motions();
    let mut whole = bundle(7);
    let mut volumes = vec![d(0.0); 5];
    let stats = cut_batch_bundle(&mut whole, &motions, &mut volumes);
    for cuts in [vec![5], vec![1, 2, 3, 4, 5], vec![2, 5], vec![3, 4, 5]] {
        let mut start = 0;
        let runs: Vec<Run> = cuts
            .iter()
            .map(|end| {
                let run = Run { start, end: *end };
                start = *end;
                run
            })
            .collect();
        let mut b = bundle(7);
        let (each, counters) = cut_all(&mut b, &motions, &runs);
        assert_eq!(each, volumes, "{cuts:?}");
        assert_eq!(counters, stats, "{cuts:?}");
        for i in 0..7 {
            assert_eq!(pairs(&b.rays[i]), pairs(&whole.rays[i]), "ray {i} with {cuts:?}");
        }
    }
    let mut field = vec![bundle(7)];
    let total = cut_field(&mut field, &[many_motions()], &[Run { start: 0, end: 5 }]);
    assert_eq!(f(total.removed_z), f(total_removed(&volumes)));
    assert_eq!(total.rays_tested, stats.rays_tested);
}

#[test]
fn chords_share_their_ends() {
    let a = arc(3.0);
    let points: Vec<Vec3> = (0..=4)
        .map(|k| {
            let s = f64::from(k) / 4.0;
            let angle = f(a.bearing(d(s)));
            a.at(d(s), d(angle.cos()), d(angle.sin()))
        })
        .collect();
    assert_eq!(points[0], v(5.0, 0.0, 1.0));
    assert_eq!(f(points[4].z), 4.0);
    let chords = linearise(&points);
    assert_eq!(chords.len(), 4);
    for w in chords.windows(2) {
        assert_eq!(w[0].end, w[1].start);
    }
    assert_eq!(f(a.half_step(4)), 0.25);
    assert_eq!(f(a.chord_deviation(d(0.5))), 2.5);
    assert_eq!(a.chord_cosine(d(0.5)).map(f), Some(0.9));
    assert_eq!(a.chord_cosine(d(1000.0)).map(f), Some(-1.0));
    assert_eq!(a.chords_for_angle(d(0.1)), 10);
    assert_eq!(a.chords_for_angle(d(0.0)), MAX_SUBSTEPS);
    let b = path_bounds(&tool(), &points);
    assert_eq!(f(b.min.z), 1.0);
    assert_eq!(f(b.max.z), 24.0);
    assert_eq!(f(b.max.x), 8.0);
    assert_eq!(a.seen_from_tool(v(7.0, 0.0, 3.0)), v(2.0, 0.0, 2.0));
}

#[test]
fn a_wedge_holds_the_bearings_it_sweeps() {
    let pi = std::f64::consts::PI;
    let mut a = arc(0.0);
    a.start_angle = d(3.0);
    for (sweep, angle, inside) in [
        (1.0, 3.5, true),
        (1.0, 4.1, false),
        (1.0, -3.0, true),
        (1.0, 2.9, false),
        (-1.0, 2.5, true),
        (-1.0, 3.1, false),
        (-4.0, -0.5, true),
        (2.0 * pi, 1.0, true),
        (-2.0 * pi, 1.0, true),
        (1.0, 3.0, true),
    ] {
        a.sweep = d(sweep);
        assert_eq!(a.wedge_contains(d(angle)), inside, "{sweep} {angle}");
    }
    assert!(!a.wedge_contains(d(f64::NAN)));
}

#[test]
fn a_level_arc_is_met_from_above_and_from_the_side() {
    let mut a = arc(0.0);
    a.sweep = d(std::f64::consts::FRAC_PI_2);
    let up = Ray { origin: v(4.0, 3.0, 0.0), direction: v(0.0, 0.0, 1.0) };
    let seen = upright_ray(&a, &up, d(0.6)).expect("in the wedge");
    assert_eq!(seen.origin, v(0.0, 0.0, -1.0));
    assert_eq!(seen.direction, up.direction);
    assert_eq!(upright_ray(&a, &up, d(2.0)), None);
    let east = Vec2::new(d(1.0), d(0.0));
    let north = Vec2::new(d(0.0), d(1.0));
    let mut middle = Spans::new();
    middle_spans_into(&a, &up, Some(&set(&[(1.0, 21.0)])), d(1.0), east, north, &mut middle);
    assert_eq!(pairs(&middle), [(1.0, 21.0)]);
    middle_spans_into(&a, &up, None, d(1.0), east, north, &mut middle);
    assert!(middle.is_empty());
    let side = Ray { origin: v(0.0, 3.0, 2.0), direction: v(1.0, 0.0, 0.0) };
    middle_spans_into(&a, &side, None, d(1.0), east, north, &mut middle);
    assert_eq!(middle.len(), 1);
    assert!((f(middle.as_slice()[0].t0) - 7f64.sqrt()).abs() < 1e-12);
    assert!((f(middle.as_slice()[0].t1) - 27f64.sqrt()).abs() < 1e-12);

    let swept = chipbreaker_core::sweep::closed::swept_spans_into;
    let (start, end) = (set(&[(0.0, 1.0)]), set(&[(8.0, 9.0)]));
    let mut out = set(&[(70.0, 71.0)]);
    assert!(!swept(&a, &side, false, &start, &end, &middle, &mut out));
    assert_eq!(pairs(&out), [(70.0, 71.0)]);
    assert!(swept(&a, &side, true, &start, &end, &set(&[(0.5, 3.0)]), &mut out));
    assert_eq!(pairs(&out), [(0.0, 3.0), (8.0, 9.0)]);
    let slanted = Ray { origin: v(0.0, 0.0, 0.0), direction: v(0.6, 0.0, 0.8) };
    assert!(!swept(&a, &slanted, true, &start, &end, &middle, &mut out));
    a.rise = d(1.0);
    assert!(!swept(&a, &side, true, &start, &end, &middle, &mut out));
}

#[test]
fn a_level_move_is_its_ends_and_its_middle() {
    let m = line(v(0.0, 0.0, 0.0), v(10.0, 0.0, 0.0));
    let along = Ray { origin: v(-5.0, 1.0, 2.0), direction: v(1.0, 0.0, 0.0) };
    let p = frame(&m, &along);
    let mut middle = Spans::new();
    let prism = chipbreaker_core::sweep::horizontal::prism_spans_into;
    prism(&p, true, &Spans::new(), &mut middle);
    assert_eq!(pairs(&middle), [(5.0, 15.0)]);
    prism(&p, false, &Spans::new(), &mut middle);
    assert!(middle.is_empty());
    let above = frame(&m, &Ray { origin: v(4.0, 0.0, 0.0), direction: v(0.0, 0.0, 1.0) });
    prism(&above, false, &set(&[(0.0, 20.0)]), &mut middle);
    assert_eq!(pairs(&middle), [(0.0, 20.0)]);
    let beside = frame(&m, &Ray { origin: v(40.0, 0.0, 0.0), direction: v(0.0, 0.0, 1.0) });
    prism(&beside, false, &set(&[(0.0, 20.0)]), &mut middle);
    assert!(middle.is_empty());
    let mut out = Spans::new();
    chipbreaker_core::sweep::horizontal::swept_spans_into(
        &set(&[(0.0, 4.0)]),
        &Spans::new(),
        &set(&[(3.0, 6.0)]),
        &mut out,
    );
    assert_eq!(pairs(&out), [(0.0, 6.0)]);
}

#[test]
fn a_plunge_is_drawn_out_or_refused() {
    let m = line(v(0.0, 0.0, 10.0), v(0.0, 0.0, 4.0));
    let swept = chipbreaker_core::sweep::plunge::swept_spans_into;
    let up = Ray { origin: v(1.0, 0.0, 0.0), direction: v(0.0, 0.0, 1.0) };
    let side = Ray { origin: v(-9.0, 0.0, 5.0), direction: v(1.0, 0.0, 0.0) };
    let slanted = Ray { origin: v(0.0, 0.0, 0.0), direction: v(0.6, 0.0, 0.8) };
    let mut out = Spans::new();
    assert!(swept(&m, &up, true, &set(&[(10.0, 30.0)]), d(3.0), &mut out));
    assert_eq!(pairs(&out), [(4.0, 30.0)]);
    assert!(swept(&m, &side, true, &Spans::new(), d(3.0), &mut out));
    assert_eq!(pairs(&out), [(6.0, 12.0)]);
    assert!(!swept(&m, &slanted, true, &Spans::new(), d(3.0), &mut out));
    assert!(!swept(&m, &side, false, &Spans::new(), d(3.0), &mut out));
    assert_eq!(pairs(&out), [(6.0, 12.0)]);
}

#[test]
fn motions_leave_the_same_one_by_one_and_as_a_batch() {
    let stock = || Bundle {
        axis: Axis::Z,
        spacing: d(1.0),
        cell_area: d(1.0),
        origins: vec![v(0.5, 0.5, 0.0), v(1.5, 0.5, 0.0), v(40.0, 0.5, 0.0)],
        rays: vec![set(&[(0.0, 10.0)]), set(&[(0.0, 3.0), (4.0, 10.0)]), set(&[(0.0, 10.0)])],
    };
    let near = Aabb3::new(v(-1.0, -1.0, -1.0), v(3.0, 3.0, 20.0));
    let plan = StepPlan { steps: 3, bound: d(0.25) };
    let covered = [(8.0, 12.0), (2.0, 5.0), (8.0, 12.0)];
    let swept = |c: (f64, f64)| -> Vec<Swept> { (0..3).map(|i| Swept { exact: i == 1, spans: set(&[c]) }).collect() };
    let mut single = stock();
    for c in covered {
        cut_bundle_motion(&mut single, &near, &plan, &swept(c));
    }
    let motions: Vec<MotionSweep> =
        covered.iter().map(|c| MotionSweep { bounds: near, plan, swept: swept(*c) }).collect();
    let mut batched = stock();
    let mut removed = vec![d(0.0); 3];
    cut_batch_bundle(&mut batched, &motions, &mut removed);
    for r in 0..3 {
        assert_eq!(pairs(&single.rays[r]), pairs(&batched.rays[r]));
    }
    assert_eq!(pairs(&single.rays[0]), [(0.0, 2.0), (5.0, 8.0)]);
    assert_eq!(pairs(&single.rays[1]), [(0.0, 2.0), (5.0, 8.0)]);
    assert_eq!(pairs(&single.rays[2]), [(0.0, 10.0)]);
    assert_eq!(chipbreaker_core::sweep::cut::arena_of(&single).len(), 3);
}

#[test]
fn a_declined_closed_form_falls_back_to_steps() {
    let analytic = SweepMethod::Analytic { tolerance: d(0.1) };
    let level = Motion::Linear(line(v(0.0, 0.0, 1.0), v(5.0, 0.0, 1.0)));
    let ramp = Motion::Linear(line(v(0.0, 0.0, 0.0), v(4.0, 0.0, 3.0)));
    let steps = [set(&[(0.0, 1.0)]), set(&[(0.5, 2.0)])];
    let closed = || Some(set(&[(0.0, 1.9)]));
    let exact = swept_of(analytic, &level, closed(), &steps);
    assert!(exact.exact);
    assert_eq!(pairs(&exact.spans), [(0.0, 1.9)]);
    for (method, motion, had) in [
        (analytic, &level, None),
        (analytic, &ramp, closed()),
        (SweepMethod::Reference { steps: 2 }, &level, closed()),
        (SweepMethod::Bounded { tolerance: d(0.1) }, &level, closed()),
    ] {
        let stepped = swept_of(method, motion, had, &steps);
        assert!(!stepped.exact);
        assert_eq!(pairs(&stepped.spans), [(0.0, 2.0)]);
    }
}

#[test]
fn a_motion_is_cut_by_its_own_plan() {
    let near = Aabb3::new(v(-1.0, -1.0, 0.0), v(10.0, 1.0, 10.0));
    let plunge = Motion::Linear(line(v(0.0, 0.0, 9.0), v(0.0, 0.0, 3.0)));
    let method = SweepMethod::Analytic { tolerance: d(1.0) };
    let covers: Vec<Cover> = (0..3)
        .map(|i| Cover {
            closed: if i == 1 { None } else { Some(set(&[(0.0, 1.0)])) },
            stepped: vec![set(&[(0.0, 0.5)]), set(&[(0.25, 2.0)])],
        })
        .collect();
    let mut b = bundle(3);
    let before: Vec<f64> = b.rays.iter().map(|r| f(r.measure())).collect();
    let stats = cut_along(&mut b, &near, method, &plunge, d(0.0), &covers);
    assert_eq!(stats.rays_tested, 3);
    assert_eq!((stats.rays_exact, stats.rays_substepped), (2, 1));
    assert_eq!(stats.substeps, u64::from(method.plan(&plunge, d(0.0)).steps));
    assert_eq!(f(b.rays[0].measure()), before[0] - 1.0);
    assert_eq!(f(b.rays[1].measure()), before[1] - 2.0);
}

#[test]
fn no_motions_cut_nothing() {
    let mut b = bundle(4);
    let (volumes, stats) = cut_all(&mut b, &[], &split_runs(&[], &[], 8));
    assert!(volumes.is_empty());
    assert_eq!(stats, CutStats::default());
    assert_eq!(cut_batch_bundle(&mut b, &[], &mut Vec::new()), CutStats::default());
    let mut field = vec![bundle(4), bundle(2)];
    assert_eq!(cut_field(&mut field, &[vec![], vec![]], &[]), CutStats::default());
    for i in 0..4 {
        assert_eq!(pairs(&b.rays[i]), pairs(&bundle(4).rays[i]));
        assert_eq!(pairs(&field[0].rays[i]), pairs(&b.rays[i]));
    }
}

#[test]
fn a_whole_field_does_not_show_its_batches() {
    let mut one = vec![bundle(7), bundle(7)];
    let mut other = vec![bundle(7), bundle(7)];
    let motions = || [many_motions(), many_motions()];
    let a = cut_field(&mut one, &motions(), &[Run { start: 0, end: 5 }]);
    let b = cut_field(&mut other, &motions(), &[Run { start: 0, end: 2 }, Run { start: 2, end: 3 }, Run { start: 3, end: 5 }]);
    assert_eq!(a, b);
    for (x, y) in one.iter().zip(&other) {
        assert_eq!((x.axis, x.spacing, x.cell_area), (y.axis, y.spacing, y.cell_area));
        assert_eq!(x.origins, y.origins);
        assert!(x.rays.iter().zip(&y.rays).all(|(p, q)| pairs(p) == pairs(q)));
        assert_eq!((x.spacing, x.cell_area), (bundle(7).spacing, bundle(7).cell_area));
    }
}
