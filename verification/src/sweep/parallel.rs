//! Cutting in chunks of rays that are computed apart, with the answer unchanged.
//!
//! Which worker computes a chunk, and when it is done, does not matter: results
//! are put together in ascending order of their rays.

use crate::double::Double;
use crate::math::{greater, max_number};
use crate::sorting::{sort, Ranked};
use crate::spans::Spans;
use crate::sweep::batch::{
    fitting, gives, held, is_chunk, planned, ray_gives, ray_run, replayed, run_chunk, run_stats, ChunkResult, Contribution,
    MotionSweep,
};
use crate::sweep::cut::{counted, no_stats, Bundle, CutStats};
use crate::sweep::reference::MAX_SUBSTEPS;
use vstd::prelude::*;

verus! {

/// Rays to a chunk.
pub const DEFAULT_CHUNK: usize = 256;

/// Smallest batch of motions that is cut on several workers.
pub const PARALLEL_BATCH: usize = 512;

/// How to schedule a cut.
#[derive(Clone, Copy, Debug, PartialEq, Eq, Structural)]
pub struct Schedule {
    /// Workers; 0 means one for each available core.
    pub threads: usize,
    /// Rays to a chunk.
    pub chunk: usize,
    /// A seed to shuffle the chunks by.
    pub chaos: Option<u64>,
}

impl Default for Schedule {
    fn default() -> (s: Self)
        ensures
            s == (Schedule { threads: 0, chunk: DEFAULT_CHUNK, chaos: None }),
    {
        Schedule { threads: 0, chunk: DEFAULT_CHUNK, chaos: None }
    }
}

impl Schedule {
    /// A schedule for one worker.
    pub fn sequential() -> (s: Schedule)
        ensures
            s == (Schedule { threads: 1, chunk: DEFAULT_CHUNK, chaos: None }),
    {
        Schedule { threads: 1, chunk: DEFAULT_CHUNK, chaos: None }
    }

    /// The workers this comes to, on a machine with so many cores, if that is
    /// known.
    pub fn workers(&self, available: Option<usize>) -> (n: usize)
        ensures
            n == if self.threads > 0 {
                self.threads
            } else {
                match available {
                    Some(k) => k,
                    None => 1,
                }
            },
    {
        if self.threads > 0 {
            return self.threads;
        }
        match available {
            Some(k) => k,
            None => 1,
        }
    }

    /// The motions to a batch: more, where there is more than one worker.
    pub fn batch(&self, size: usize, workers: usize) -> (n: usize)
        ensures
            n == if workers > 1 && size < PARALLEL_BATCH {
                PARALLEL_BATCH
            } else {
                size
            },
    {
        if workers > 1 && size < PARALLEL_BATCH {
            PARALLEL_BATCH
        } else {
            size
        }
    }
}

/// One step of the generator that shuffles: the next state.
pub open spec fn next_state(state: u64) -> u64 {
    state.wrapping_add(0x9e37_79b9_7f4a_7c15)
}

/// The number that a state of the generator stands for.
pub open spec fn mixed(state: u64) -> u64 {
    let a = (state ^ (state >> 30)).wrapping_mul(0xbf58_476d_1ce4_e5b9);
    let b = (a ^ (a >> 27)).wrapping_mul(0x94d0_49bb_1331_11eb);
    b ^ (b >> 31)
}

/// Two places of a sequence exchanged.
pub open spec fn exchanged(s: Seq<usize>, i: int, j: int) -> Seq<usize> {
    s.update(i, s[j]).update(j, s[i])
}

/// The shuffle from place `i` down: each place is exchanged with one at or below
/// it, as the generator says.
pub open spec fn shuffled(s: Seq<usize>, i: int, state: u64) -> Seq<usize>
    decreases i,
{
    if i < 1 {
        s
    } else {
        let t = next_state(state);
        shuffled(exchanged(s, i, mixed(t) as int % (i + 1)), i - 1, t)
    }
}

/// The numbers below `count` in ascending order.
pub open spec fn in_order(count: nat) -> Seq<usize> {
    Seq::new(count, |i: int| i as usize)
}

/// The order chunks are handed out in: as they are, unless a seed is given.
pub open spec fn handed_out(count: nat, seed: Option<u64>) -> Seq<usize> {
    match seed {
        None => in_order(count),
        Some(s) => shuffled(in_order(count), count - 1, next_state(s)),
    }
}

/// Exchanging places keeps what a sequence holds.
proof fn lemma_exchanged(s: Seq<usize>, i: int, j: int)
    requires
        0 <= i < s.len(),
        0 <= j < s.len(),
    ensures
        exchanged(s, i, j).to_multiset() == s.to_multiset(),
        exchanged(s, i, j).len() == s.len(),
{
    broadcast use vstd::seq_lib::group_to_multiset_ensures;

    vstd::seq_lib::to_multiset_update(s, i, s[j]);
    vstd::seq_lib::to_multiset_update(s.update(i, s[j]), j, s[i]);
    assert(exchanged(s, i, j).to_multiset() =~= s.to_multiset());
}

/// However the chunks are shuffled, each is handed out once.
pub proof fn law_shuffling_loses_nothing(s: Seq<usize>, i: int, state: u64)
    requires
        i < s.len(),
    ensures
        shuffled(s, i, state).to_multiset() == s.to_multiset(),
        shuffled(s, i, state).len() == s.len(),
    decreases i,
{
    if i >= 1 {
        let t = next_state(state);
        let j = mixed(t) as int % (i + 1);
        lemma_exchanged(s, i, j);
        law_shuffling_loses_nothing(exchanged(s, i, j), i - 1, t);
    }
}

/// The order chunks are handed out in.
pub fn chaos_order(count: usize, seed: Option<u64>) -> (order: Vec<usize>)
    ensures
        order@ == handed_out(count as nat, seed),
        order@.to_multiset() == in_order(count as nat).to_multiset(),
{
    let mut order: Vec<usize> = Vec::new();
    let mut k: usize = 0;
    while k < count
        invariant
            k <= count,
            order@ == in_order(k as nat),
        decreases count - k,
    {
        order.push(k);
        k = k + 1;
        assert(order@ =~= in_order(k as nat));
    }
    let seed: u64 = match seed {
        None => {
            return order;
        },
        Some(s) => s,
    };
    let ghost whole = shuffled(in_order(count as nat), count - 1, next_state(seed));
    proof {
        law_shuffling_loses_nothing(in_order(count as nat), count - 1, next_state(seed));
    }
    let mut state: u64 = seed.wrapping_add(0x9e37_79b9_7f4a_7c15);
    let mut left: usize = count;
    while left > 1
        invariant
            left <= count,
            order@.len() == count,
            shuffled(order@, left - 1, state) == whole,
        decreases left,
    {
        let i: usize = left - 1;
        state = state.wrapping_add(0x9e37_79b9_7f4a_7c15);
        let a: u64 = (state ^ (state >> 30)).wrapping_mul(0xbf58_476d_1ce4_e5b9);
        let b: u64 = (a ^ (a >> 27)).wrapping_mul(0x94d0_49bb_1331_11eb);
        let z: u64 = b ^ (b >> 31);
        let j: usize = (z as u128 % left as u128) as usize;
        let ghost was = order@;
        let x: usize = order[i];
        let y: usize = order[j];
        order.set(i, y);
        order.set(j, x);
        assert(order@ =~= exchanged(was, i as int, j as int));
        left = left - 1;
    }
    order
}

/// The counters of two cuts together, with the volumes of the first.
pub open spec fn counts_merged(a: CutStats, b: CutStats) -> CutStats {
    CutStats {
        rays_tested: (a.rays_tested + b.rays_tested) as u64,
        rays_rejected: (a.rays_rejected + b.rays_rejected) as u64,
        rays_changed: (a.rays_changed + b.rays_changed) as u64,
        substeps: (a.substeps + b.substeps) as u64,
        rays_exact: (a.rays_exact + b.rays_exact) as u64,
        rays_substepped: (a.rays_substepped + b.rays_substepped) as u64,
        worst_bound_mm: greater(a.worst_bound_mm, b.worst_bound_mm),
        ..a
    }
}

/// Of three numbers it does not matter which two are compared first.
pub proof fn law_greater_is_associative(a: Double, b: Double, c: Double)
    ensures
        greater(greater(a, b), c) == greater(a, greater(b, c)),
{
}

pub proof fn lemma_ray_run_merges(a: CutStats, s: CutStats, b: Bundle, motions: Seq<MotionSweep>, r: int, m: nat, na: int, n: int)
    requires
        counted(a, na),
        counted(s, n),
        0 <= na,
        0 <= n,
        na + n + m <= 0xfff_ffff_ffff,
        m <= motions.len(),
        planned(motions),
    ensures
        ray_run(counts_merged(a, s), b, motions, r, m) == counts_merged(a, ray_run(s, b, motions, r, m)),
        counted(ray_run(s, b, motions, r, m), n + m),
    decreases m,
{
    if m > 0 {
        lemma_ray_run_merges(a, s, b, motions, r, (m - 1) as nat, na, n);
        let t = ray_run(s, b, motions, r, (m - 1) as nat);
        law_greater_is_associative(a.worst_bound_mm, t.worst_bound_mm, motions[m - 1].plan.bound);
        assert(motions[m - 1].plan.steps <= MAX_SUBSTEPS);
    }
}

pub proof fn lemma_worst(b: Bundle, motions: Seq<MotionSweep>, from: int, to: int)
    ensures
        !run_stats(b, motions, from, to).worst_bound_mm.nan(),
        run_stats(b, motions, from, to).worst_bound_mm.key() >= 0,
    decreases to - from,
{
    if to > from {
        lemma_worst(b, motions, from, to - 1);
        lemma_worst_of_ray(run_stats(b, motions, from, to - 1), b, motions, to - 1, motions.len());
    }
}

proof fn lemma_worst_of_ray(s: CutStats, b: Bundle, motions: Seq<MotionSweep>, r: int, m: nat)
    requires
        !s.worst_bound_mm.nan(),
        s.worst_bound_mm.key() >= 0,
    ensures
        !ray_run(s, b, motions, r, m).worst_bound_mm.nan(),
        ray_run(s, b, motions, r, m).worst_bound_mm.key() >= 0,
    decreases m,
{
    if m > 0 {
        lemma_worst_of_ray(s, b, motions, r, (m - 1) as nat);
    }
}

/// The statistics of neighbouring ranges of rays make those of both together.
pub proof fn law_statistics_join(b: Bundle, motions: Seq<MotionSweep>, from: int, mid: int, to: int)
    requires
        from <= mid <= to,
        (to - from) * motions.len() <= 0xfff_ffff_ffff,
        planned(motions),
    ensures
        run_stats(b, motions, from, to) == counts_merged(run_stats(b, motions, from, mid), run_stats(b, motions, mid, to)),
        counted(run_stats(b, motions, from, to), (to - from) * motions.len()),
        counted(run_stats(b, motions, mid, to), (to - mid) * motions.len()),
    decreases to - from,
{
    let k = motions.len() as int;
    let a = run_stats(b, motions, from, mid);
    assert((to - from) * k == (mid - from) * k + (to - mid) * k && (mid - from) * k >= 0 && (to - mid) * k >= 0)
        by (nonlinear_arith)
        requires
            from <= mid <= to,
            k >= 0,
    ;
    if to == mid {
        lemma_worst(b, motions, from, mid);
        if to > from {
            assert((to - from) * k == (to - 1 - from) * k + k) by (nonlinear_arith);
            law_statistics_join(b, motions, from, to - 1, to - 1);
            let s = run_stats(b, motions, from, to - 1);
            assert(counted(no_stats(), 0));
            lemma_ray_run_merges(no_stats(), s, b, motions, to - 1, k as nat, 0, (to - 1 - from) * k);
        }
    } else {
        assert((to - from) * k == (to - 1 - from) * k + k) by (nonlinear_arith);
        assert((to - mid) * k == (to - 1 - mid) * k + k) by (nonlinear_arith);
        law_statistics_join(b, motions, from, mid, to - 1);
        assert((mid - from) * k >= 0 && (to - 1 - mid) * k >= 0) by (nonlinear_arith)
            requires
                from <= mid <= to - 1,
                k >= 0,
        ;
        law_statistics_join(b, motions, from, mid, mid);
        let s = run_stats(b, motions, mid, to - 1);
        lemma_ray_run_merges(a, s, b, motions, to - 1, k as nat, (mid - from) * k, (to - 1 - mid) * k);
        lemma_ray_run_merges(
            no_stats(),
            run_stats(b, motions, from, to - 1),
            b,
            motions,
            to - 1,
            k as nat,
            0,
            (to - 1 - from) * k,
        );
    }
}

/// The contributions of neighbouring ranges of rays make those of both together.
pub proof fn law_contributions_join(b: Bundle, motions: Seq<MotionSweep>, from: int, mid: int, to: int)
    requires
        from <= mid <= to,
    ensures
        gives(b, motions, from, to) == gives(b, motions, from, mid) + gives(b, motions, mid, to),
    decreases to - mid,
{
    if to > mid {
        law_contributions_join(b, motions, from, mid, to - 1);
    }
    assert(gives(b, motions, from, to) =~= gives(b, motions, from, mid) + gives(b, motions, mid, to));
}

/// Replaying contributions in two parts is replaying them at once.
pub proof fn law_replaying_joins(removed: Seq<Double>, c: Seq<Contribution>, d: Seq<Contribution>)
    ensures
        replayed(replayed(removed, c), d) == replayed(removed, c + d),
    decreases d.len(),
{
    if d.len() == 0 {
        assert(c + d =~= c);
    } else {
        law_replaying_joins(removed, c, d.drop_last());
        assert((c + d).drop_last() =~= c + d.drop_last());
    }
}

pub proof fn lemma_ray_gives_in_range(b: Bundle, motions: Seq<MotionSweep>, r: int, m: nat, i: int)
    requires
        m <= motions.len() <= u32::MAX,
        0 <= i < ray_gives(b, motions, r, m).len(),
    ensures
        ray_gives(b, motions, r, m)[i].motion < motions.len(),
    decreases m,
{
    if m > 0 && i < ray_gives(b, motions, r, (m - 1) as nat).len() {
        lemma_ray_gives_in_range(b, motions, r, (m - 1) as nat, i);
    }
}

pub proof fn lemma_gives_in_range(b: Bundle, motions: Seq<MotionSweep>, from: int, to: int, i: int)
    requires
        motions.len() <= u32::MAX,
        0 <= i < gives(b, motions, from, to).len(),
    ensures
        gives(b, motions, from, to)[i].motion < motions.len(),
    decreases to - from,
{
    if to > from {
        let first = gives(b, motions, from, to - 1);
        if i < first.len() {
            lemma_gives_in_range(b, motions, from, to - 1, i);
        } else {
            lemma_ray_gives_in_range(b, motions, to - 1, motions.len(), i - first.len());
        }
    }
}

/// Adds contributions to the volumes of their motions, in order.
fn replay(removed: &mut Vec<Double>, c: &[Contribution])
    requires
        forall|i: int| 0 <= i < c@.len() ==> (#[trigger] c@[i]).motion < old(removed)@.len(),
    ensures
        final(removed)@ == replayed(old(removed)@, c@),
        final(removed)@.len() == old(removed)@.len(),
{
    let ghost was = removed@;
    let mut i: usize = 0;
    proof {
        assert(c@.subrange(0, 0) =~= Seq::empty());
    }
    while i < c.len()
        invariant
            i <= c@.len(),
            removed@.len() == was.len(),
            forall|j: int| 0 <= j < c@.len() ==> (#[trigger] c@[j]).motion < was.len(),
            removed@ == replayed(was, c@.subrange(0, i as int)),
        decreases c@.len() - i,
    {
        let m: usize = c[i].motion as usize;
        let v: Double = removed[m].plus(c[i].value);
        removed.set(m, v);
        i = i + 1;
        proof {
            assert(c@.subrange(0, i as int).drop_last() =~= c@.subrange(0, i - 1));
            assert(c@.subrange(0, i as int).last() == c@[i - 1]);
        }
    }
    proof {
        assert(c@.subrange(0, i as int) =~= c@);
    }
}

/// What a batch makes of a bundle: what its rays hold, and the volumes.
pub open spec fn batch_done(
    b: Bundle,
    motions: Seq<MotionSweep>,
    removed: Seq<Double>,
    after: Bundle,
    volumes: Seq<Double>,
    stats: CutStats,
) -> bool {
    let n = b.rays@.len() as int;
    &&& after.wf()
    &&& after.axis == b.axis
    &&& after.spacing == b.spacing
    &&& after.cell_area == b.cell_area
    &&& after.origins@ == b.origins@
    &&& after.rays@.len() == n
    &&& forall|r: int| 0 <= r < n ==> (#[trigger] after.rays@[r])@ == held(b, motions, r, motions.len())
    &&& volumes == replayed(removed, gives(b, motions, 0, n))
    &&& stats == run_stats(b, motions, 0, n)
}

/// No motion counts nothing and takes nothing.
pub proof fn lemma_no_motions(b: Bundle, motions: Seq<MotionSweep>, n: int)
    requires
        motions.len() == 0,
    ensures
        run_stats(b, motions, 0, n) == no_stats(),
        gives(b, motions, 0, n) == Seq::<Contribution>::empty(),
    decreases n,
{
    if n > 0 {
        lemma_no_motions(b, motions, n - 1);
        assert(gives(b, motions, 0, n) =~= Seq::<Contribution>::empty());
    }
}

/// Cuts a batch of motions out of one bundle, ray after ray.
///
/// `removed` has the volume of each motion, and grows by what it takes here.
pub fn cut_batch_bundle(bundle: &mut Bundle, motions: &[MotionSweep], removed: &mut Vec<Double>) -> (stats: CutStats)
    requires
        fitting(*old(bundle), motions@),
        old(removed)@.len() == motions@.len(),
    ensures
        batch_done(*old(bundle), motions@, old(removed)@, *final(bundle), final(removed)@, stats),
        final(removed)@.len() == motions@.len(),
{
    let ghost b = *bundle;
    if motions.len() == 0 {
        proof {
            lemma_no_motions(b, motions@, b.rays@.len() as int);
        }
        return CutStats::default();
    }
    let n: u32 = bundle.rays.len() as u32;
    let c: ChunkResult = run_chunk(bundle, motions, 0, n);
    proof {
        assert forall|i: int| 0 <= i < c.contributions@.len() implies (#[trigger] c.contributions@[i]).motion
            < removed@.len() by {
            lemma_gives_in_range(b, motions@, 0, n as int, i);
        }
    }
    replay(removed, c.contributions.as_slice());
    bundle.rays = c.rays;
    proof {
        assert forall|r: int| 0 <= r < n implies (#[trigger] bundle.rays@[r])@ == held(b, motions@, r, motions@.len()) by {
            assert(0 + r == r);
        }
    }
    c.stats
}

/// Where chunk `slot` of `chunk` rays ends, when there are `n` rays.
pub open spec fn chunk_end(slot: int, chunk: int, n: int) -> int {
    if (slot + 1) * chunk < n {
        (slot + 1) * chunk
    } else {
        n
    }
}

/// The results of all chunks, in whatever order they were done.
pub open spec fn all_chunks(chunks: Seq<ChunkResult>, b: Bundle, motions: Seq<MotionSweep>, chunk: int) -> bool {
    let n = b.rays@.len() as int;
    &&& chunk > 0
    &&& (chunks.len() - 1) * chunk < n <= chunks.len() * chunk || (n == 0 && chunks.len() == 0)
    &&& forall|i: int|
        0 <= i < chunks.len() ==> {
            let slot = (#[trigger] chunks[i]).start as int / chunk;
            slot < chunks.len() && is_chunk(chunks[i], b, motions, slot * chunk, chunk_end(slot, chunk, n))
        }
    &&& forall|i: int, j: int|
        0 <= i < j < chunks.len() ==> (#[trigger] chunks[i]).start != (#[trigger] chunks[j]).start
}

/// The place of a chunk among the results.
#[derive(Clone, Copy, Debug, PartialEq, Eq, Structural)]
struct Place {
    start: u32,
    index: u32,
}

impl Ranked for Place {
    closed spec fn at_most(self, other: Self) -> bool {
        self.start < other.start || (self.start == other.start && self.index <= other.index)
    }

    proof fn total(self, other: Self) {
    }

    proof fn transitive(self, mid: Self, other: Self) {
    }

    proof fn antisymmetric(self, other: Self) {
    }

    fn is_at_most(self, other: Self) -> (r: bool) {
        self.start < other.start || (self.start == other.start && self.index <= other.index)
    }
}

/// Where each chunk stands in the results, in ascending order of the rays.
fn arrange(chunks: &Vec<ChunkResult>) -> (v: Vec<usize>)
    requires
        chunks@.len() <= u32::MAX,
        forall|i: int, j: int|
            0 <= i < j < chunks@.len() ==> (#[trigger] chunks@[i]).start != (#[trigger] chunks@[j]).start,
    ensures
        v@.len() == chunks@.len(),
        forall|i: int| 0 <= i < v@.len() ==> #[trigger] v@[i] < chunks@.len(),
        forall|i: int, j: int|
            0 <= i < j < v@.len() ==> chunks@[#[trigger] v@[i] as int].start < chunks@[#[trigger] v@[j] as int].start,
{
    let mut places: Vec<Place> = Vec::new();
    let mut i: usize = 0;
    while i < chunks.len()
        invariant
            i <= chunks@.len() <= u32::MAX,
            places@.len() == i,
            forall|j: int|
                0 <= j < i ==> #[trigger] places@[j] == (Place { start: chunks@[j].start, index: j as u32 }),
        decreases chunks@.len() - i,
    {
        places.push(Place { start: chunks[i].start, index: i as u32 });
        i = i + 1;
    }
    let arranged: Vec<Place> = sort(&places);
    proof {
        assert forall|k: int| 0 <= k < arranged@.len() implies {
            &&& (#[trigger] arranged@[k]).index < chunks@.len()
            &&& arranged@[k].start == chunks@[arranged@[k].index as int].start
        } by {
            assert(arranged@.contains(arranged@[k]));
            assert(places@.contains(arranged@[k]));
        }
        lemma_arranged_distinct(arranged@, places@);
    }
    let mut v: Vec<usize> = Vec::new();
    let mut k: usize = 0;
    while k < arranged.len()
        invariant
            k <= arranged@.len(),
            v@.len() == k,
            forall|j: int| 0 <= j < k ==> #[trigger] v@[j] == arranged@[j].index,
        decreases arranged@.len() - k,
    {
        v.push(arranged[k].index as usize);
        k = k + 1;
    }
    proof {
        assert forall|i: int, j: int| 0 <= i < j < v@.len() implies chunks@[#[trigger] v@[i] as int].start
            < chunks@[#[trigger] v@[j] as int].start by {
            let x = arranged@[i];
            let y = arranged@[j];
            assert(x.at_most(y) && x != y);
            if x.index < y.index {
                assert(chunks@[x.index as int].start != chunks@[y.index as int].start);
            } else if y.index < x.index {
                assert(chunks@[y.index as int].start != chunks@[x.index as int].start);
            }
        }
    }
    v
}

proof fn lemma_arranged_distinct(a: Seq<Place>, p: Seq<Place>)
    requires
        a.to_multiset() == p.to_multiset(),
        forall|j: int| 0 <= j < p.len() ==> (#[trigger] p[j]).index == j as u32,
        p.len() <= u32::MAX,
    ensures
        forall|i: int, j: int| 0 <= i < j < a.len() ==> #[trigger] a[i] != #[trigger] a[j],
{
    assert(p.no_duplicates()) by {
        assert forall|i: int, j: int| 0 <= i < p.len() && 0 <= j < p.len() && i != j implies p[i] != p[j] by {
            assert(p[i].index == i as u32 && p[j].index == j as u32);
        }
    }
    p.lemma_multiset_has_no_duplicates();
    assert forall|x: Place| a.to_multiset().contains(x) implies a.to_multiset().count(x) == 1 by {}
    a.lemma_multiset_has_no_duplicates_conv();
}

proof fn lemma_slots(slots: Seq<int>, i: int)
    requires
        0 <= i < slots.len(),
        forall|k: int| 0 <= k < slots.len() ==> 0 <= #[trigger] slots[k] < slots.len(),
        forall|k: int, l: int| 0 <= k < l < slots.len() ==> #[trigger] slots[k] < #[trigger] slots[l],
    ensures
        slots[i] == i,
{
    lemma_slots_below(slots, i);
    lemma_slots_above(slots, i);
}

proof fn lemma_slots_below(slots: Seq<int>, i: int)
    requires
        0 <= i < slots.len(),
        forall|k: int| 0 <= k < slots.len() ==> 0 <= #[trigger] slots[k] < slots.len(),
        forall|k: int, l: int| 0 <= k < l < slots.len() ==> #[trigger] slots[k] < #[trigger] slots[l],
    ensures
        slots[i] >= i,
    decreases i,
{
    if i > 0 {
        lemma_slots_below(slots, i - 1);
        assert(slots[i - 1] < slots[i]);
    }
}

proof fn lemma_slots_above(slots: Seq<int>, i: int)
    requires
        0 <= i < slots.len(),
        forall|k: int| 0 <= k < slots.len() ==> 0 <= #[trigger] slots[k] < slots.len(),
        forall|k: int, l: int| 0 <= k < l < slots.len() ==> #[trigger] slots[k] < #[trigger] slots[l],
    ensures
        slots[i] <= i,
    decreases slots.len() - i,
{
    if i + 1 < slots.len() {
        lemma_slots_above(slots, i + 1);
        assert(slots[i] < slots[i + 1]);
    }
}

/// After `k` chunks in order have been put together.
spec fn gathered(
    b: Bundle,
    motions: Seq<MotionSweep>,
    removed: Seq<Double>,
    rays: Seq<Spans>,
    volumes: Seq<Double>,
    stats: CutStats,
    end: int,
) -> bool {
    &&& rays.len() == end
    &&& forall|r: int| 0 <= r < end ==> (#[trigger] rays[r])@ == held(b, motions, r, motions.len()) && rays[r].wf()
    &&& volumes == replayed(removed, gives(b, motions, 0, end))
    &&& volumes.len() == removed.len()
    &&& stats == run_stats(b, motions, 0, end)
}

impl CutStats {
    /// Adds the counters of another cut, and leaves the volumes.
    pub fn merge_without_volume(&mut self, other: &CutStats)
        requires
            crate::sweep::cut::mergeable(*old(self), *other),
        ensures
            *final(self) == counts_merged(*old(self), *other),
    {
        self.rays_tested = self.rays_tested + other.rays_tested;
        self.rays_rejected = self.rays_rejected + other.rays_rejected;
        self.rays_changed = self.rays_changed + other.rays_changed;
        self.substeps = self.substeps + other.substeps;
        self.rays_exact = self.rays_exact + other.rays_exact;
        self.rays_substepped = self.rays_substepped + other.rays_substepped;
        self.worst_bound_mm = max_number(self.worst_bound_mm, other.worst_bound_mm);
    }
}

/// Puts one more chunk behind those gathered.
fn gather(
    c: &ChunkResult,
    rays: &mut Vec<Spans>,
    removed: &mut Vec<Double>,
    total: &mut CutStats,
    Ghost(b): Ghost<Bundle>,
    Ghost(motions): Ghost<Seq<MotionSweep>>,
    Ghost(was): Ghost<Seq<Double>>,
    Ghost(from): Ghost<int>,
    Ghost(to): Ghost<int>,
)
    requires
        fitting(b, motions),
        0 <= from <= to <= b.rays@.len(),
        was.len() == motions.len(),
        is_chunk(*c, b, motions, from, to),
        gathered(b, motions, was, old(rays)@, old(removed)@, *old(total), from),
    ensures
        gathered(b, motions, was, final(rays)@, final(removed)@, *final(total), to),
{
    proof {
        let k = motions.len() as int;
        let n = b.rays@.len() as int;
        assert((to - 0) * k <= n * k) by (nonlinear_arith)
            requires
                0 <= to <= n,
                k >= 0,
        ;
        assert((from - 0) * k >= 0 && (to - from) * k >= 0 && (from - 0) * k + (to - from) * k == (to - 0) * k)
            by (nonlinear_arith)
            requires
                0 <= from <= to,
                k >= 0,
        ;
        law_statistics_join(b, motions, 0, from, to);
        law_statistics_join(b, motions, 0, from, from);
        law_contributions_join(b, motions, 0, from, to);
        law_replaying_joins(was, gives(b, motions, 0, from), gives(b, motions, from, to));
        assert forall|i: int| 0 <= i < c.contributions@.len() implies (#[trigger] c.contributions@[i]).motion
            < removed@.len() by {
            lemma_gives_in_range(b, motions, from, to, i);
        }
    }
    total.merge_without_volume(&c.stats);
    replay(removed, c.contributions.as_slice());
    let mut i: usize = 0;
    while i < c.rays.len()
        invariant
            i <= c.rays@.len(),
            c.rays@.len() == to - from,
            rays@.len() == from + i,
            0 <= from,
            forall|j: int|
                0 <= j < to - from ==> (#[trigger] c.rays@[j])@ == held(b, motions, from + j, motions.len())
                    && c.rays@[j].wf(),
            forall|r: int|
                0 <= r < from + i ==> (#[trigger] rays@[r])@ == held(b, motions, r, motions.len()) && rays@[r].wf(),
        decreases c.rays@.len() - i,
    {
        rays.push(c.rays[i].clone());
        i = i + 1;
    }
}

/// Puts the results of all chunks together, in ascending order of their rays and
/// whatever the order they were done in: what the bundle and the volumes become
/// is what [`cut_batch_bundle`] makes of them.
pub fn combine_chunks(
    bundle: &mut Bundle,
    motions: &[MotionSweep],
    chunks: &Vec<ChunkResult>,
    chunk: usize,
    removed: &mut Vec<Double>,
) -> (stats: CutStats)
    requires
        fitting(*old(bundle), motions@),
        old(removed)@.len() == motions@.len(),
        all_chunks(chunks@, *old(bundle), motions@, chunk as int),
    ensures
        batch_done(*old(bundle), motions@, old(removed)@, *final(bundle), final(removed)@, stats),
        final(removed)@.len() == motions@.len(),
{
    let ghost b = *bundle;
    let ghost was = removed@;
    let ghost n = b.rays@.len() as int;
    let ghost w = chunk as int;
    proof {
        lemma_chunk_count(chunks@.len() as int, w, n);
    }
    let order: Vec<usize> = arrange(chunks);
    let ghost slots = Seq::new(order@.len(), |i: int| chunks@[order@[i] as int].start as int / w);
    proof {
        lemma_ordered_slots(chunks@, order@, b, motions@, w, slots);
    }
    let mut rays: Vec<Spans> = Vec::new();
    let mut total: CutStats = CutStats::default();
    let mut i: usize = 0;
    let ghost mut end: int = 0;
    proof {
        assert(gives(b, motions@, 0, 0) =~= Seq::empty());
    }
    while i < order.len()
        invariant
            i <= order@.len(),
            order@.len() == chunks@.len(),
            fitting(b, motions@),
            was.len() == motions@.len(),
            w == chunk,
            n == b.rays@.len(),
            all_chunks(chunks@, b, motions@, w),
            slots.len() == order@.len(),
            forall|k: int| 0 <= k < order@.len() ==> #[trigger] order@[k] < chunks@.len(),
            forall|k: int|
                0 <= k < slots.len() ==> #[trigger] slots[k] == k && slots[k] == chunks@[order@[k] as int].start as int / w,
            end == if i == 0 {
                0
            } else {
                chunk_end(i - 1, w, n)
            },
            gathered(b, motions@, was, rays@, removed@, total, end),
        decreases order@.len() - i,
    {
        let c: &ChunkResult = &chunks[order[i]];
        let ghost to = chunk_end(i as int, w, n);
        proof {
            assert(slots[i as int] == i);
            assert(order@[i as int] < chunks@.len());
            assert(chunks@[order@[i as int] as int].start as int / w == i);
            lemma_chunk_ends(i as int, chunks@.len() as int, w, n);
        }
        gather(c, &mut rays, removed, &mut total, Ghost(b), Ghost(motions@), Ghost(was), Ghost(end), Ghost(to));
        proof {
            end = to;
        }
        i = i + 1;
    }
    proof {
        lemma_last_chunk_end(chunks@.len() as int, w, n);
    }
    bundle.rays = rays;
    total
}

proof fn lemma_chunk_count(count: int, w: int, n: int)
    requires
        w > 0,
        (count - 1) * w < n <= count * w || (n == 0 && count == 0),
        0 <= n <= u32::MAX,
    ensures
        count <= u32::MAX,
{
    if n != 0 || count != 0 {
        assert(count - 1 < n || n == 0 && count <= 1) by (nonlinear_arith)
            requires
                w > 0,
                (count - 1) * w < n,
                n >= 0,
        ;
    }
}

proof fn lemma_chunk_ends(i: int, count: int, w: int, n: int)
    requires
        w > 0,
        (count - 1) * w < n <= count * w || (n == 0 && count == 0),
        0 <= i < count,
        n >= 0,
    ensures
        i * w <= chunk_end(i, w, n) <= n,
        i * w == if i == 0 {
            0
        } else {
            chunk_end(i - 1, w, n)
        },
{
    assert(i * w <= (count - 1) * w && (i + 1) * w == i * w + w) by (nonlinear_arith)
        requires
            i <= count - 1,
            w > 0,
    ;
}

proof fn lemma_last_chunk_end(count: int, w: int, n: int)
    requires
        w > 0,
        (count - 1) * w < n <= count * w || (n == 0 && count == 0),
        count >= 0,
    ensures
        count > 0 ==> chunk_end(count - 1, w, n) == n,
        count == 0 ==> n <= 0,
{
    assert(count - 1 + 1 == count);
}

proof fn lemma_ordered_slots(
    chunks: Seq<ChunkResult>,
    order: Seq<usize>,
    b: Bundle,
    motions: Seq<MotionSweep>,
    w: int,
    slots: Seq<int>,
)
    requires
        w > 0,
        all_chunks(chunks, b, motions, w),
        order.len() == chunks.len(),
        slots.len() == order.len(),
        forall|i: int| 0 <= i < order.len() ==> #[trigger] order[i] < chunks.len(),
        forall|i: int| 0 <= i < slots.len() ==> #[trigger] slots[i] == chunks[order[i] as int].start as int / w,
        forall|i: int, j: int|
            0 <= i < j < order.len() ==> chunks[#[trigger] order[i] as int].start < chunks[#[trigger] order[j] as int].start,
    ensures
        forall|k: int| 0 <= k < slots.len() ==> #[trigger] slots[k] == k,
{
    assert forall|k: int| 0 <= k < slots.len() implies 0 <= #[trigger] slots[k] < slots.len() by {
        let c = chunks[order[k] as int];
        vstd::arithmetic::div_mod::lemma_div_pos_is_pos(c.start as int, w);
    }
    assert forall|k: int, l: int| 0 <= k < l < slots.len() implies #[trigger] slots[k] < #[trigger] slots[l] by {
        let c = chunks[order[k] as int];
        let d = chunks[order[l] as int];
        assert(c.start < d.start);
        assert(c.start == slots[k] * w && d.start == slots[l] * w);
        assert(slots[k] < slots[l]) by (nonlinear_arith)
            requires
                slots[k] * w < slots[l] * w,
                w > 0,
        ;
    }
    assert forall|k: int| 0 <= k < slots.len() implies #[trigger] slots[k] == k by {
        lemma_slots(slots, k);
    }
}

} // verus!
