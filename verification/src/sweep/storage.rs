//! What the storage of a field's spans comes to, over its bundles.

use vstd::prelude::*;

verus! {

/// Rays that hold a given number of spans.
#[derive(Clone, Copy, Debug, PartialEq, Eq, Structural)]
pub struct SpanCount {
    /// The number of spans.
    pub spans: usize,
    /// The rays that hold so many.
    pub rays: usize,
}

/// What the storage of one bundle reports of itself.
#[derive(Debug)]
pub struct Arena {
    /// Rays whose spans do not fit in line.
    pub spilled_rays: usize,
    /// Bytes of storage.
    pub bytes: usize,
    /// How many rays hold how many spans.
    pub counts: Vec<SpanCount>,
}

/// Rays with `spans` spans, in the first `n` entries of a histogram.
pub open spec fn rays_with(c: Seq<SpanCount>, spans: usize, n: nat) -> int
    decreases n,
{
    if n == 0 {
        0
    } else {
        rays_with(c, spans, (n - 1) as nat) + if c[n - 1].spans == spans {
            c[n - 1].rays as int
        } else {
            0
        }
    }
}

/// Rays with `spans` spans, in the first `n` bundles.
pub open spec fn field_rays_with(field: Seq<Arena>, spans: usize, n: nat) -> int
    decreases n,
{
    if n == 0 {
        0
    } else {
        field_rays_with(field, spans, (n - 1) as nat) + rays_with(
            field[n - 1].counts@,
            spans,
            field[n - 1].counts@.len(),
        )
    }
}

/// A histogram in ascending order of the spans.
pub open spec fn ascending_counts(c: Seq<SpanCount>) -> bool {
    forall|i: int, j: int| 0 <= i < j < c.len() ==> (#[trigger] c[i]).spans < (#[trigger] c[j]).spans
}

proof fn lemma_rays_updated(c: Seq<SpanCount>, at: int, x: SpanCount, spans: usize, n: nat)
    requires
        0 <= at < c.len(),
        n <= c.len(),
        x.spans == c[at].spans,
    ensures
        rays_with(c.update(at, x), spans, n) == rays_with(c, spans, n) + if at < n && x.spans == spans {
            x.rays - c[at].rays
        } else {
            0
        },
    decreases n,
{
    if n > 0 {
        lemma_rays_updated(c, at, x, spans, (n - 1) as nat);
    }
}

proof fn lemma_rays_inserted(c: Seq<SpanCount>, at: int, x: SpanCount, spans: usize, n: nat)
    requires
        0 <= at <= c.len(),
        n <= c.len() + 1,
    ensures
        rays_with(c.insert(at, x), spans, n) == if n <= at {
            rays_with(c, spans, n)
        } else {
            rays_with(c, spans, (n - 1) as nat) + if x.spans == spans {
                x.rays as int
            } else {
                0
            }
        },
    decreases n,
{
    if n > 0 {
        lemma_rays_inserted(c, at, x, spans, (n - 1) as nat);
    }
}

proof fn lemma_rays_at(c: Seq<SpanCount>, i: int, n: nat)
    requires
        ascending_counts(c),
        n <= c.len(),
        0 <= i < c.len(),
    ensures
        rays_with(c, c[i].spans, n) == if i < n {
            c[i].rays as int
        } else {
            0
        },
    decreases n,
{
    if n > 0 {
        lemma_rays_at(c, i, (n - 1) as nat);
        if n - 1 < i {
            assert(c[n - 1].spans < c[i].spans);
        } else if i < n - 1 {
            assert(c[i].spans < c[n - 1].spans);
        }
    }
}

/// Adds rays to a histogram.
fn count_in(c: &mut Vec<SpanCount>, x: SpanCount)
    requires
        ascending_counts(old(c)@),
        rays_with(old(c)@, x.spans, old(c)@.len()) + x.rays <= usize::MAX,
    ensures
        ascending_counts(final(c)@),
        forall|k: usize|
            #![trigger rays_with(final(c)@, k, final(c)@.len())]
            rays_with(final(c)@, k, final(c)@.len()) == rays_with(old(c)@, k, old(c)@.len()) + if k == x.spans {
                x.rays as int
            } else {
                0
            },
{
    let ghost was = c@;
    let mut at: usize = 0;
    while at < c.len() && c[at].spans < x.spans
        invariant
            at <= c@.len(),
            c@ == was,
            forall|i: int| 0 <= i < at ==> (#[trigger] c@[i]).spans < x.spans,
        decreases c@.len() - at,
    {
        at = at + 1;
    }
    if at < c.len() && c[at].spans == x.spans {
        proof {
            lemma_rays_at(was, at as int, was.len());
        }
        let sum: usize = c[at].rays + x.rays;
        c.set(at, SpanCount { spans: x.spans, rays: sum });
        proof {
            assert forall|k: usize|
                #![trigger rays_with(c@, k, c@.len())]
                rays_with(c@, k, c@.len()) == rays_with(was, k, was.len()) + if k == x.spans {
                    x.rays as int
                } else {
                    0
                } by {
                lemma_rays_updated(was, at as int, SpanCount { spans: x.spans, rays: sum }, k, was.len());
            }
        }
    } else {
        c.insert(at, x);
        proof {
            assert forall|k: usize|
                #![trigger rays_with(c@, k, c@.len())]
                rays_with(c@, k, c@.len()) == rays_with(was, k, was.len()) + if k == x.spans {
                    x.rays as int
                } else {
                    0
                } by {
                lemma_rays_inserted(was, at as int, x, k, (was.len() + 1) as nat);
            }
            assert forall|i: int, j: int| 0 <= i < j < c@.len() implies (#[trigger] c@[i]).spans < (#[trigger] c@[j]).spans by {
                if at < was.len() {
                    assert(x.spans < was[at as int].spans);
                    if j > at + 1 {
                        assert(was[at as int].spans < was[j - 1].spans);
                    }
                }
            }
        }
    }
}

/// The histograms of the first `n` bundles fit together.
pub open spec fn countable(field: Seq<Arena>) -> bool {
    forall|spans: usize| #[trigger] field_rays_with(field, spans, field.len()) <= usize::MAX
}

proof fn lemma_rays_grow(c: Seq<SpanCount>, spans: usize, n: nat, m: nat)
    requires
        n <= m <= c.len(),
    ensures
        0 <= rays_with(c, spans, n) <= rays_with(c, spans, m),
    decreases m,
{
    if n < m {
        lemma_rays_grow(c, spans, n, (m - 1) as nat);
    } else if n > 0 {
        lemma_rays_grow(c, spans, (n - 1) as nat, (n - 1) as nat);
    }
}

proof fn lemma_field_rays_grow(field: Seq<Arena>, spans: usize, n: nat, m: nat)
    requires
        n <= m <= field.len(),
    ensures
        0 <= field_rays_with(field, spans, n) <= field_rays_with(field, spans, m),
    decreases m,
{
    if n < m {
        lemma_field_rays_grow(field, spans, n, (m - 1) as nat);
        let c = field[m - 1].counts@;
        lemma_rays_grow(c, spans, 0, c.len());
    } else if n > 0 {
        lemma_field_rays_grow(field, spans, (n - 1) as nat, (n - 1) as nat);
        let c = field[n - 1].counts@;
        lemma_rays_grow(c, spans, 0, c.len());
    }
}

/// How many rays hold how many spans, across every bundle, in ascending order of
/// the spans.
pub fn distribution(field: &[Arena]) -> (out: Vec<SpanCount>)
    requires
        countable(field@),
    ensures
        ascending_counts(out@),
        forall|spans: usize|
            #![trigger rays_with(out@, spans, out@.len())]
            rays_with(out@, spans, out@.len()) == field_rays_with(field@, spans, field@.len()),
{
    let mut out: Vec<SpanCount> = Vec::new();
    let mut i: usize = 0;
    while i < field.len()
        invariant
            i <= field@.len(),
            countable(field@),
            ascending_counts(out@),
            forall|spans: usize|
                #![trigger rays_with(out@, spans, out@.len())]
                rays_with(out@, spans, out@.len()) == field_rays_with(field@, spans, i as nat),
        decreases field@.len() - i,
    {
        let counts: &Vec<SpanCount> = &field[i].counts;
        let mut k: usize = 0;
        while k < counts.len()
            invariant
                i < field@.len(),
                k <= counts@.len(),
                counts@ == field@[i as int].counts@,
                countable(field@),
                ascending_counts(out@),
                forall|spans: usize|
                    #![trigger rays_with(out@, spans, out@.len())]
                    rays_with(out@, spans, out@.len()) == field_rays_with(field@, spans, i as nat) + rays_with(
                        counts@,
                        spans,
                        k as nat,
                    ),
            decreases counts@.len() - k,
        {
            proof {
                let spans = counts@[k as int].spans;
                lemma_rays_grow(counts@, spans, (k + 1) as nat, counts@.len());
                lemma_field_rays_grow(field@, spans, (i + 1) as nat, field@.len());
                assert(field_rays_with(field@, spans, field@.len()) <= usize::MAX);
                assert(rays_with(out@, spans, out@.len()) == field_rays_with(field@, spans, i as nat) + rays_with(
                    counts@,
                    spans,
                    k as nat,
                ));
            }
            count_in(&mut out, counts[k]);
            k = k + 1;
        }
        i = i + 1;
    }
    out
}

/// Spilled rays in the first `n` bundles.
pub open spec fn spilled_rays(field: Seq<Arena>, n: nat) -> int
    decreases n,
{
    if n == 0 {
        0
    } else {
        spilled_rays(field, (n - 1) as nat) + field[n - 1].spilled_rays
    }
}

proof fn lemma_spilled_grows(field: Seq<Arena>, n: nat, m: nat)
    requires
        n <= m,
    ensures
        spilled_rays(field, n) <= spilled_rays(field, m),
    decreases m,
{
    if n < m {
        lemma_spilled_grows(field, n, (m - 1) as nat);
    }
}

/// Spilled rays across every bundle.
pub fn spilled(field: &[Arena]) -> (r: usize)
    requires
        spilled_rays(field@, field@.len()) <= usize::MAX,
    ensures
        r == spilled_rays(field@, field@.len()),
{
    let mut r: usize = 0;
    let mut i: usize = 0;
    while i < field.len()
        invariant
            i <= field@.len(),
            spilled_rays(field@, field@.len()) <= usize::MAX,
            r == spilled_rays(field@, i as nat),
        decreases field@.len() - i,
    {
        proof {
            lemma_spilled_grows(field@, (i + 1) as nat, field@.len());
        }
        r = r + field[i].spilled_rays;
        i = i + 1;
    }
    r
}

/// Bytes of storage in the first `n` bundles.
pub open spec fn stored_bytes(field: Seq<Arena>, n: nat) -> int
    decreases n,
{
    if n == 0 {
        0
    } else {
        stored_bytes(field, (n - 1) as nat) + field[n - 1].bytes
    }
}

proof fn lemma_bytes_grow(field: Seq<Arena>, n: nat, m: nat)
    requires
        n <= m,
    ensures
        stored_bytes(field, n) <= stored_bytes(field, m),
    decreases m,
{
    if n < m {
        lemma_bytes_grow(field, n, (m - 1) as nat);
    }
}

/// Total bytes of span storage.
pub fn bytes(field: &[Arena]) -> (r: usize)
    requires
        stored_bytes(field@, field@.len()) <= usize::MAX,
    ensures
        r == stored_bytes(field@, field@.len()),
{
    let mut r: usize = 0;
    let mut i: usize = 0;
    while i < field.len()
        invariant
            i <= field@.len(),
            stored_bytes(field@, field@.len()) <= usize::MAX,
            r == stored_bytes(field@, i as nat),
        decreases field@.len() - i,
    {
        proof {
            lemma_bytes_grow(field@, (i + 1) as nat, field@.len());
        }
        r = r + field[i].bytes;
        i = i + 1;
    }
    r
}

} // verus!
