use chipbreaker_core::canonical::digest;
use chipbreaker_core::double::Double;
use chipbreaker_core::math::{OctNormal, Vec3};
use chipbreaker_core::spans::{Span, Spans, EPS_SPAN_MERGE, EPS_SPAN_MIN};

const MERGE: f64 = f64::from_bits(EPS_SPAN_MERGE);
const MIN: f64 = f64::from_bits(EPS_SPAN_MIN);

fn d(x: f64) -> Double {
    Double::from_bits(x.to_bits())
}

fn f(x: Double) -> f64 {
    f64::from_bits(x.to_bits())
}

fn v(x: f64, y: f64, z: f64) -> Vec3 {
    Vec3::new(d(x), d(y), d(z))
}

fn sp(t0: f64, t1: f64) -> Span {
    Span::new(d(t0), d(t1))
}

fn sn(t0: f64, t1: f64, a: Vec3, b: Vec3) -> Span {
    Span::with_normals(d(t0), d(t1), OctNormal::encode(a), OctNormal::encode(b))
}

fn dir(n: OctNormal) -> Vec3 {
    n.decode().expect("a direction")
}

fn same_dir(a: Vec3, b: Vec3) -> bool {
    f(a.dot(b)) > 0.999 * f(a.length()) * f(b.length())
}

#[test]
fn subtracting_puts_the_cutter_normal_on_the_new_faces_reversed() {
    let material = sn(
        0.0,
        10.0,
        v(0.0, 0.0, -1.0),
        v(0.0, 0.0, 1.0),
    );
    let cutter = sn(
        4.0,
        6.0,
        v(0.0, 0.0, -1.0),
        v(0.0, 0.0, 1.0),
    );

    let out = Spans::from_span(material).subtract(&Spans::from_span(cutter));
    assert_eq!(pairs(&out), [(0.0, 4.0), (6.0, 10.0)]);
    let w = out.as_slice();

    assert!(
        same_dir(dir(w[0].n0), v(0.0, 0.0, -1.0)),
        "the untouched near face kept its own normal, got {:?}",
        dir(w[0].n0)
    );
    assert!(
        same_dir(dir(w[0].n1), v(0.0, 0.0, 1.0)),
        "the cut face at 4 must point OUT of the material that remains below              it, i.e. +Z -- the reverse of the cutter's -Z there. Got {:?}. If              this is -Z the whole mesh will be inside out on cut faces only.",
        dir(w[0].n1)
    );
    assert!(
        same_dir(dir(w[1].n0), v(0.0, 0.0, -1.0)),
        "the cut face at 6 must point -Z, got {:?}",
        dir(w[1].n0)
    );
    assert!(
        same_dir(dir(w[1].n1), v(0.0, 0.0, 1.0)),
        "the untouched far face kept its own normal, got {:?}",
        dir(w[1].n1)
    );
}

#[test]
fn an_untouched_span_keeps_its_normals_exactly() {
    let a = sn(
        0.0,
        2.0,
        v(-1.0, 0.0, 0.0),
        v(0.3, 0.5, 0.8),
    );
    let far = Spans::from_span(sp(50.0, 60.0));
    let out = Spans::from_span(a).subtract(&far);
    assert_eq!(
        out.as_slice(),
        &[a],
        "an untouched span must survive bit for bit"
    );
}

#[test]
fn fusing_two_spans_takes_the_far_normal_from_the_far_span() {
    let a = sn(
        0.0,
        4.0,
        v(-1.0, 0.0, 0.0),
        v(1.0, 0.0, 0.0),
    );
    let b = sn(
        4.0,
        8.0,
        v(-1.0, 0.0, 0.0),
        v(0.0, 1.0, 0.0),
    );
    let out = Spans::from_unsorted(vec![a, b]);
    assert_eq!(pairs(&out), [(0.0, 8.0)]);
    assert!(
        same_dir(dir(out.as_slice()[0].n1), v(0.0, 1.0, 0.0)),
        "fused span kept the interior face's normal, got {:?}",
        dir(out.as_slice()[0].n1)
    );
    assert!(
        same_dir(dir(out.as_slice()[0].n0), v(-1.0, 0.0, 0.0)),
        "fused span lost its near normal"
    );
}

#[test]
fn normals_do_not_affect_the_geometry_of_any_operation() {
    let bare = |x: &Spans| -> Vec<(f64, f64)> { pairs(x) };
    let a_plain = s(&[(0.0, 4.0), (6.0, 10.0)]);
    let b_plain = s(&[(2.0, 7.0)]);
    let a_norm = Spans::from_unsorted(vec![
        sn(
            0.0,
            4.0,
            v(1.0, 2.0, 3.0),
            v(-3.0, 1.0, 0.5),
        ),
        sn(
            6.0,
            10.0,
            v(0.0, -1.0, 0.0),
            v(0.2, 0.2, -1.0),
        ),
    ]);
    let b_norm = Spans::from_unsorted(vec![sn(
        2.0,
        7.0,
        v(0.0, 0.0, -1.0),
        v(0.0, 0.0, 1.0),
    )]);
    assert_eq!(bare(&a_plain.union(&b_plain)), bare(&a_norm.union(&b_norm)));
    assert_eq!(
        bare(&a_plain.intersect(&b_plain)),
        bare(&a_norm.intersect(&b_norm))
    );
    assert_eq!(
        bare(&a_plain.subtract(&b_plain)),
        bare(&a_norm.subtract(&b_norm))
    );
    assert_eq!(a_plain.measure(), a_norm.measure());
}

#[test]
fn a_span_differing_only_in_its_normals_is_not_equal() {
    let up = sn(
        0.0,
        1.0,
        v(0.0, 0.0, -1.0),
        v(0.0, 0.0, 1.0),
    );
    let down = sn(
        0.0,
        1.0,
        v(0.0, 0.0, 1.0),
        v(0.0, 0.0, -1.0),
    );
    assert_ne!(up, down);
    assert_ne!(digest(&up), digest(&down), "an inverted face must move the digest");
}

fn s(pairs: &[(f64, f64)]) -> Spans {
    let list: Vec<Span> = pairs.iter().map(|&(a, b)| sp(a, b)).collect();
    let out = Spans::from_unsorted(list.clone());
    assert_eq!(
        out.as_slice(),
        list.as_slice(),
        "test literal is not already normalized"
    );
    out
}

fn pairs(x: &Spans) -> Vec<(f64, f64)> {
    x.as_slice().iter().map(|s| (f(s.t0), f(s.t1))).collect()
}

#[test]
fn span_basics() {
    let a = sp(1.0, 3.0);
    assert_eq!(f(a.length()), 2.0);
    assert!(a.is_valid());
    assert!(a.contains(d(1.0)), "lower bound is inclusive");
    assert!(!a.contains(d(3.0)), "upper bound is exclusive");
    assert!(!a.contains(d(0.9)));
    assert_eq!(f(a.midpoint()), 2.0);
    assert_eq!(a.translated(d(1.0)), sp(2.0, 4.0));
    assert_eq!(Span::ordered(d(3.0), d(1.0)), a);

    assert!(!sp(1.0, 1.0).is_valid(), "zero length");
    assert!(!sp(3.0, 1.0).is_valid(), "inverted");
    assert!(!sp(f64::NAN, 1.0).is_valid(), "NaN");
    assert!(!sp(0.0, f64::NAN).is_valid(), "NaN");
}

#[test]
fn midpoint_does_not_overflow() {
    let huge = sp(-f64::MAX, f64::MAX);
    assert_eq!(f(huge.midpoint()), 0.0);
}

#[test]
fn construction_normalizes() {
    let raw = vec![
        sp(5.0, 7.0),
        sp(0.0, 2.0),
        sp(1.0, 3.0),
        sp(3.0, 4.0),
        sp(9.0, 9.0),
        sp(f64::NAN, 1.0),
    ];
    let x = Spans::from_unsorted(raw);
    assert_eq!(pairs(&x), [(0.0, 4.0), (5.0, 7.0)]);
    assert!(x.is_normalized());

    assert!(Spans::new().is_empty());
    assert_eq!(Spans::from_span(sp(2.0, 1.0)), Spans::new());
    assert_eq!(pairs(&Spans::from_span(sp(1.0, 2.0))), [(1.0, 2.0)]);
}

#[test]
fn union_merges_and_orders() {
    let a = s(&[(0.0, 1.0), (4.0, 5.0)]);
    let b = s(&[(0.5, 4.5)]);
    assert_eq!(pairs(&a.union(&b)), [(0.0, 5.0)]);

    let c = s(&[(10.0, 11.0)]);
    assert_eq!(pairs(&a.union(&c)), [(0.0, 1.0), (4.0, 5.0), (10.0, 11.0)]);
    assert_eq!(a.union(&Spans::new()), a);
    assert_eq!(Spans::new().union(&a), a);
    assert_eq!(
        pairs(&s(&[(0.0, 1.0)]).union(&s(&[(1.0, 2.0)]))),
        [(0.0, 2.0)]
    );
}

#[test]
fn intersect_keeps_only_overlap() {
    let a = s(&[(0.0, 10.0)]);
    let b = s(&[(-5.0, 2.0), (4.0, 6.0), (8.0, 20.0)]);
    assert_eq!(
        pairs(&a.intersect(&b)),
        [(0.0, 2.0), (4.0, 6.0), (8.0, 10.0)]
    );
    assert!(a.intersect(&Spans::new()).is_empty());
    assert!(Spans::new().intersect(&a).is_empty());
    assert!(s(&[(0.0, 1.0)]).intersect(&s(&[(1.0, 2.0)])).is_empty());
}

#[test]
fn subtract_removes_material() {
    let stock = s(&[(0.0, 10.0)]);
    let cut = s(&[(2.0, 3.0), (7.0, 20.0)]);
    assert_eq!(pairs(&stock.subtract(&cut)), [(0.0, 2.0), (3.0, 7.0)]);
    assert_eq!(stock.subtract(&Spans::new()), stock);
    assert!(stock.subtract(&stock).is_empty());
    assert!(Spans::new().subtract(&stock).is_empty());
    assert_eq!(
        pairs(&s(&[(0.0, 10.0)]).subtract(&s(&[(4.0, 6.0)]))),
        [(0.0, 4.0), (6.0, 10.0)]
    );
}

#[test]
fn complement_within_clips_to_bounds() {
    let a = s(&[(2.0, 4.0), (6.0, 8.0)]);
    assert_eq!(
        pairs(&a.complement_within(sp(0.0, 10.0))),
        [(0.0, 2.0), (4.0, 6.0), (8.0, 10.0)]
    );
    assert_eq!(
        pairs(&a.complement_within(sp(3.0, 7.0))),
        [(4.0, 6.0)]
    );
    assert_eq!(
        pairs(&Spans::new().complement_within(sp(0.0, 1.0))),
        [(0.0, 1.0)]
    );
    assert!(a.complement_within(sp(5.0, 5.0)).is_empty());
    assert!(a.complement_within(sp(5.0, 1.0)).is_empty());
}

#[test]
fn complement_within_is_an_involution_on_subsets() {
    let bounds = sp(0.0, 10.0);
    for a in [
        s(&[(2.0, 4.0), (6.0, 8.0)]),
        s(&[(0.0, 10.0)]),
        s(&[(0.0, 3.0)]),
        s(&[(7.0, 10.0)]),
        Spans::new(),
    ] {
        let round_tripped = a.complement_within(bounds).complement_within(bounds);
        assert_eq!(round_tripped, a, "double complement of {a:?}");
    }
}

#[test]
fn measure_sums_in_ascending_order() {
    let a = s(&[(0.0, 1.0), (4.0, 5.5), (10.0, 10.25)]);
    assert_eq!(f(a.measure()), 2.75);
    assert_eq!(f(Spans::new().measure()), 0.0);
    let b = s(&[(0.5, 4.5)]);
    assert_eq!(
        f(a.union(&b).measure()) + f(a.intersect(&b).measure()),
        f(a.measure()) + f(b.measure())
    );
}

#[test]
fn contains_respects_half_open_bounds() {
    let a = s(&[(0.0, 1.0), (4.0, 5.0)]);
    assert!(a.contains(d(0.0)));
    assert!(a.contains(d(0.5)));
    assert!(!a.contains(d(1.0)), "upper bound excluded");
    assert!(!a.contains(d(2.0)));
    assert!(a.contains(d(4.999)));
    assert!(!a.contains(d(-1.0)));
    assert!(!a.contains(d(f64::NAN)));
    assert!(!Spans::new().contains(d(0.0)));
}

#[test]
fn push_merge_appends_in_the_hot_path() {
    let mut x = Spans::new();
    x.push_merge(sp(0.0, 1.0));
    x.push_merge(sp(2.0, 3.0));
    x.push_merge(sp(2.5, 4.0));
    x.push_merge(sp(4.0, 5.0));
    x.push_merge(sp(4.2, 4.3));
    assert_eq!(pairs(&x), [(0.0, 1.0), (2.0, 5.0)]);
    x.push_merge(sp(9.0, 9.0));
    x.push_merge(sp(f64::NAN, 1.0));
    assert_eq!(pairs(&x), [(0.0, 1.0), (2.0, 5.0)]);
}

#[test]
fn push_merge_handles_the_out_of_order_slow_path() {
    let mut x = Spans::new();
    x.push_merge(sp(5.0, 6.0));
    x.push_merge(sp(0.0, 1.0));
    x.push_merge(sp(0.5, 5.5));
    assert_eq!(pairs(&x), [(0.0, 6.0)]);
    assert!(x.check_invariant().is_ok());
}

#[test]
fn normalize_is_idempotent() {
    let g = MERGE / 2.0;
    let raw = vec![
        sp(0.0, 1.0),
        sp(1.0 + g, 1.0 + g + MIN / 4.0),
        sp(1.0 + 2.0 * g + MIN / 4.0, 3.0),
    ];
    let mut x = Spans::from_unsorted(raw);
    assert_eq!(x.len(), 1, "merge-first must fuse across the sliver");
    let once = Spans { spans: x.as_slice().to_vec() };
    x.normalize();
    assert_eq!(x, once, "normalize must be idempotent");
    assert!(x.is_normalized());
}

#[test]
fn tolerance_behaviour_is_characterised() {

    let merged = Spans::from_unsorted(vec![
        sp(0.0, 1.0),
        sp(1.0 + MERGE / 2.0, 2.0),
    ]);
    assert_eq!(pairs(&merged), [(0.0, 2.0)]);

    let kept = Spans::from_unsorted(vec![
        sp(0.0, 1.0),
        sp(1.0 + MERGE * 10.0, 2.0),
    ]);
    assert_eq!(kept.len(), 2);

    let dropped = Spans::from_unsorted(vec![
        sp(0.0, 1.0),
        sp(5.0, 5.0 + MIN / 2.0),
    ]);
    assert_eq!(pairs(&dropped), [(0.0, 1.0)]);

    let a = s(&[(0.0, 10.0)]);
    let normalized_sliver = Spans::from_span(sp(5.0, 5.0 + MERGE / 2.0));
    assert!(normalized_sliver.is_empty(), "the cut set itself vanishes");
    assert_eq!(pairs(&a.subtract(&normalized_sliver)), [(0.0, 10.0)]);

    let mut raw_sliver = Spans::new();
    raw_sliver.push_merge(sp(5.0, 5.0 + MERGE / 2.0));
    assert_eq!(raw_sliver.len(), 1, "push_merge keeps sub-threshold spans");
    assert!(!raw_sliver.is_normalized());
    assert_eq!(
        pairs(&a.subtract(&raw_sliver)),
        [(0.0, 10.0)],
        "sub-tolerance cuts are absorbed; this is the documented trade"
    );

    let just_big_enough = Spans::from_span(sp(5.0, 5.0 + MIN * 2.0));
    assert_eq!(just_big_enough.len(), 1);
    assert_eq!(a.subtract(&just_big_enough).len(), 2, "clean split");
}

#[test]
fn invariant_checker_names_violations() {
    assert!(Spans::new().check_invariant().is_ok());
    let bad_order = Spans {
        spans: vec![sp(5.0, 6.0), sp(0.0, 1.0)],
    };
    assert!(
        bad_order
            .check_invariant()
            .expect_err("out of order")
            .message()
            .contains("starts before")
    );

    let touching = Spans {
        spans: vec![sp(0.0, 1.0), sp(1.0, 2.0)],
    };
    assert!(
        touching
            .check_invariant()
            .expect_err("zero gap")
            .message()
            .contains("EPS_SPAN_MERGE")
    );

    let degenerate = Spans {
        spans: vec![sp(1.0, 1.0)],
    };
    assert!(
        degenerate
            .check_invariant()
            .expect_err("zero length")
            .message()
            .contains("degenerate")
    );
}

#[test]
fn scratch_buffer_variants_match_allocating_ones() {
    let a = s(&[(0.0, 3.0), (5.0, 9.0)]);
    let b = s(&[(2.0, 6.0)]);
    let mut out = Spans::with_capacity(8);

    a.union_into(&b, &mut out);
    assert_eq!(out, a.union(&b));
    a.intersect_into(&b, &mut out);
    assert_eq!(out, a.intersect(&b));
    a.subtract_into(&b, &mut out);
    assert_eq!(out, a.subtract(&b));
    a.complement_within_into(sp(0.0, 10.0), &mut out);
    assert_eq!(out, a.complement_within(sp(0.0, 10.0)));

    Spans::new().union_into(&Spans::new(), &mut out);
    assert!(out.is_empty());
}

#[test]
fn helpers() {
    let a = s(&[(0.0, 1.0), (4.0, 5.0)]);
    assert_eq!(a.len(), 2);
    assert_eq!(a.hull(), Some(sp(0.0, 5.0)));
    assert_eq!(Spans::new().hull(), None);
    assert_eq!(
        pairs(&a.clipped_to(sp(0.5, 4.5))),
        [(0.5, 1.0), (4.0, 4.5)]
    );
    let collected = Spans::from_unsorted(vec![sp(4.0, 5.0), sp(0.0, 1.0)]);
    assert_eq!(collected, a);

    let mut c = a;
    c.clear();
    assert!(c.is_empty());
}

#[test]
fn empty_and_unbounded_edge_cases() {
    let e = Spans::new();
    assert_eq!(e.union(&e), e);
    assert_eq!(e.intersect(&e), e);
    assert_eq!(e.subtract(&e), e);
    assert_eq!(f(e.measure()), 0.0);
    assert_eq!(e.hull(), None);

    let a = s(&[(0.0, 1.0)]);
    let all = sp(f64::NEG_INFINITY, f64::INFINITY);
    let comp = a.complement_within(all);
    assert_eq!(comp.len(), 2);
    assert!(comp.contains(d(-1e300)));
    assert!(comp.contains(d(1e300)));
    assert!(!comp.contains(d(0.5)));
}
#[test]
fn hashing_reflects_content_not_history() {
    let built_at_once = s(&[(0.0, 2.0)]);
    let mut built_piecewise = Spans::new();
    built_piecewise.push_merge(sp(0.0, 1.0));
    built_piecewise.push_merge(sp(1.0, 2.0));
    assert_eq!(
        digest(&built_at_once),
        digest(&built_piecewise),
        "equal sets must hash equally regardless of construction order"
    );
    assert_ne!(digest(&built_at_once), digest(&s(&[(0.0, 1.0), (1.5, 2.0)])));
    assert_ne!(digest(&Spans::new()), digest(&built_at_once));
}

#[test]
fn normals_can_be_left_off() {
    let s = sn(1.0, 2.0, v(0.0, 0.0, 1.0), v(0.0, 0.0, -1.0));
    let bare = s.without_normals();
    assert_eq!((bare.t0, bare.t1), (s.t0, s.t1));
    assert_eq!(bare.n0.decode(), None);
    assert_eq!(bare.n1.decode(), None);
}

#[test]
fn push_merge_keeps_what_comes_late() {
    let mut x = Spans::new();
    x.push_merge(sp(5.0, 6.0));
    x.push_merge(sp(0.0, 5e-10));
    x.push_merge(sp(2.0, 3.0));
    assert_eq!(x.as_slice(), [sp(0.0, 5e-10), sp(2.0, 3.0), sp(5.0, 6.0)]);
    x.push_merge(sp(2.5, 5.5));
    assert_eq!(x.as_slice(), [sp(0.0, 5e-10), sp(2.0, 6.0)]);
}

#[test]
fn a_cut_and_what_it_removed_make_the_whole_with_its_normals() {
    let up = OctNormal::encode(Vec3::new(d(0.0), d(0.0), d(1.0)));
    let side = OctNormal::encode(Vec3::new(d(1.0), d(0.0), d(0.0)));
    let a = Spans::from_span(Span::with_normals(d(0.0), d(10.0), up, side));
    let b = Spans::from_span(Span::with_normals(d(0.0), d(4.0), side, up));
    assert_eq!(a.subtract(&b).union(&a.intersect(&b)), a);
}

#[test]
fn faults_name_their_spans() {
    let far = Spans { spans: vec![sp(0.0, 1.0), sp(5.0, 6.0), sp(2.0, 3.0)] };
    assert_eq!(far.check_invariant().expect_err("out of order").message(), "span 2 starts before span 1");
    let flat = Spans { spans: vec![sp(0.0, 1.0), sp(2.0, 2.0)] };
    assert_eq!(flat.check_invariant().expect_err("flat").message(), "span 1 is degenerate or NaN");
}
