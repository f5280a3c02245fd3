//! Sorting by a total order.

use vstd::prelude::*;
use vstd::seq_lib::*;

verus! {

/// A type with a total order that tells all its values apart.
pub trait Ranked: Copy {
    /// The value does not come behind the other.
    spec fn at_most(self, other: Self) -> bool;

    /// Any two values are in some order.
    proof fn total(self, other: Self)
        ensures
            self.at_most(other) || other.at_most(self),
    ;

    /// The order carries over.
    proof fn transitive(self, mid: Self, other: Self)
        requires
            self.at_most(mid),
            mid.at_most(other),
        ensures
            self.at_most(other),
    ;

    /// Only equal values come behind neither.
    proof fn antisymmetric(self, other: Self)
        requires
            self.at_most(other),
            other.at_most(self),
        ensures
            self == other,
    ;

    /// True if the value does not come behind the other.
    fn is_at_most(self, other: Self) -> (r: bool)
        ensures
            r == self.at_most(other),
    ;
}

/// In ascending order.
pub open spec fn sorted<T: Ranked>(s: Seq<T>) -> bool {
    forall|i: int, j: int| 0 <= i <= j < s.len() ==> (#[trigger] s[i]).at_most(#[trigger] s[j])
}

/// In ascending order without repetition.
pub open spec fn strictly_sorted<T: Ranked>(s: Seq<T>) -> bool {
    forall|i: int, j: int| 0 <= i < j < s.len() ==> (#[trigger] s[i]).at_most(#[trigger] s[j]) && s[i] != s[j]
}

/// The two hold the same values.
pub open spec fn same_values<T>(a: Seq<T>, b: Seq<T>) -> bool {
    forall|x: T| #[trigger] a.contains(x) <==> b.contains(x)
}

proof fn lemma_push_count<T>(s: Seq<T>, x: T)
    ensures
        s.push(x).to_multiset() == s.to_multiset().insert(x),
{
    broadcast use vstd::seq_lib::group_to_multiset_ensures;
}

proof fn lemma_take_count<T>(s: Seq<T>, i: int)
    requires
        0 <= i < s.len(),
    ensures
        s.take(i + 1).to_multiset() == s.take(i).to_multiset().insert(s[i]),
{
    assert(s.take(i + 1) =~= s.take(i).push(s[i]));
    lemma_push_count(s.take(i), s[i]);
}

proof fn lemma_sorted_push<T: Ranked>(s: Seq<T>, x: T)
    requires
        sorted(s),
        s.len() > 0 ==> s.last().at_most(x),
    ensures
        sorted(s.push(x)),
{
    let t = s.push(x);
    assert forall|i: int, j: int| 0 <= i <= j < t.len() implies (#[trigger] t[i]).at_most(#[trigger] t[j]) by {
        if j == s.len() {
            if i < s.len() {
                assert(s[i].at_most(s[s.len() - 1]));
                s[i].transitive(s.last(), x);
            } else {
                x.total(x);
            }
        }
    }
}

fn merge<T: Ranked>(a: &Vec<T>, b: &Vec<T>) -> (out: Vec<T>)
    requires
        sorted(a@),
        sorted(b@),
    ensures
        sorted(out@),
        out@.to_multiset() == a@.to_multiset().add(b@.to_multiset()),
{
    let mut out: Vec<T> = Vec::new();
    let mut i: usize = 0;
    let mut j: usize = 0;
    proof {
        broadcast use vstd::seq_lib::group_to_multiset_ensures;

        assert(a@.take(0) =~= Seq::<T>::empty());
        assert(b@.take(0) =~= Seq::<T>::empty());
        assert(out@.to_multiset() =~= a@.take(0).to_multiset().add(b@.take(0).to_multiset()));
    }
    while i < a.len() || j < b.len()
        invariant
            i <= a@.len(),
            j <= b@.len(),
            sorted(a@),
            sorted(b@),
            sorted(out@),
            out@.len() > 0 && i < a@.len() ==> out@.last().at_most(a@[i as int]),
            out@.len() > 0 && j < b@.len() ==> out@.last().at_most(b@[j as int]),
            out@.to_multiset() == a@.take(i as int).to_multiset().add(b@.take(j as int).to_multiset()),
        decreases a@.len() - i + b@.len() - j,
    {
        let first: bool = j >= b.len() || (i < a.len() && a[i].is_at_most(b[j]));
        let ghost was = out@;
        if first {
            let x: T = a[i];
            proof {
                lemma_sorted_push(out@, x);
                lemma_push_count(out@, x);
                lemma_take_count(a@, i as int);
                if i + 1 < a@.len() {
                    assert(a@[i as int].at_most(a@[i + 1]));
                }
            }
            out.push(x);
            i = i + 1;
            proof {
                assert(out@.to_multiset() =~= a@.take(i as int).to_multiset().add(b@.take(j as int).to_multiset()));
            }
        } else {
            let x: T = b[j];
            proof {
                lemma_sorted_push(out@, x);
                lemma_push_count(out@, x);
                lemma_take_count(b@, j as int);
                if j + 1 < b@.len() {
                    assert(b@[j as int].at_most(b@[j + 1]));
                }
                if i < a@.len() {
                    a@[i as int].total(x);
                }
            }
            out.push(x);
            j = j + 1;
            proof {
                assert(out@.to_multiset() =~= a@.take(i as int).to_multiset().add(b@.take(j as int).to_multiset()));
            }
        }
    }
    proof {
        assert(a@.take(i as int) =~= a@);
        assert(b@.take(j as int) =~= b@);
    }
    out
}

fn sort_range<T: Ranked>(v: &Vec<T>, from: usize, to: usize) -> (out: Vec<T>)
    requires
        from <= to <= v@.len(),
    ensures
        sorted(out@),
        out@.to_multiset() == v@.subrange(from as int, to as int).to_multiset(),
    decreases to - from,
{
    let mut out: Vec<T> = Vec::new();
    if to - from == 0 {
        proof {
            assert(v@.subrange(from as int, to as int) =~= out@);
        }
        return out;
    }
    if to - from == 1 {
        out.push(v[from]);
        proof {
            assert(v@.subrange(from as int, to as int) =~= out@);
            v@[from as int].total(v@[from as int]);
        }
        return out;
    }
    let mid: usize = from + (to - from) / 2;
    let a: Vec<T> = sort_range(v, from, mid);
    let b: Vec<T> = sort_range(v, mid, to);
    proof {
        let x = v@.subrange(from as int, mid as int);
        let y = v@.subrange(mid as int, to as int);
        assert(v@.subrange(from as int, to as int) =~= x + y);
        lemma_multiset_commutative(x, y);
    }
    merge(&a, &b)
}

/// The values in ascending order.
pub fn sort<T: Ranked>(v: &Vec<T>) -> (out: Vec<T>)
    ensures
        sorted(out@),
        out@.to_multiset() == v@.to_multiset(),
        out@.len() == v@.len(),
        same_values(out@, v@),
{
    let out: Vec<T> = sort_range(v, 0, v.len());
    proof {
        assert(v@.subrange(0, v@.len() as int) =~= v@);
        lemma_same_values(out@, v@);
    }
    out
}

/// Equal multisets have equal lengths and hold the same values.
pub proof fn lemma_same_values<T>(a: Seq<T>, b: Seq<T>)
    requires
        a.to_multiset() == b.to_multiset(),
    ensures
        a.len() == b.len(),
        same_values(a, b),
{
    broadcast use vstd::seq_lib::group_to_multiset_ensures;

    assert(a.to_multiset().len() == a.len());
    assert(b.to_multiset().len() == b.len());
    assert forall|x: T| #[trigger] a.contains(x) <==> b.contains(x) by {
        assert(a.contains(x) <==> a.to_multiset().count(x) > 0);
        assert(b.contains(x) <==> b.to_multiset().count(x) > 0);
    }
}

/// The values in ascending order, each once.
pub fn sort_distinct<T: Ranked>(v: &Vec<T>) -> (out: Vec<T>)
    ensures
        strictly_sorted(out@),
        same_values(out@, v@),
        out@.len() <= v@.len(),
{
    let all: Vec<T> = sort(v);
    let mut out: Vec<T> = Vec::new();
    let mut i: usize = 0;
    while i < all.len()
        invariant
            i <= all@.len(),
            sorted(all@),
            strictly_sorted(out@),
            out@.len() <= i,
            i > 0 ==> out@.len() > 0 && out@.last() == all@[i - 1],
            same_values(out@, all@.take(i as int)),
        decreases all@.len() - i,
    {
        let x: T = all[i];
        let fresh: bool = out.len() == 0 || !x.is_at_most(out[out.len() - 1]);
        proof {
            let ghost seen = all@.take(i as int);
            let ghost next = all@.take(i + 1);
            assert(next =~= seen.push(x));
            if i > 0 {
                assert(all@[i - 1].at_most(x));
                if !fresh {
                    x.antisymmetric(out@.last());
                }
            }
            lemma_grown(out@, seen, x, fresh);
        }
        if fresh {
            proof {
                lemma_strictly_sorted_push(out@, x);
            }
            out.push(x);
        }
        i = i + 1;
    }
    proof {
        assert(all@.take(i as int) =~= all@);
        assert forall|x: T| #[trigger] out@.contains(x) <==> v@.contains(x) by {
            assert(all@.contains(x) <==> v@.contains(x));
        }
    }
    out
}

proof fn lemma_strictly_sorted_push<T: Ranked>(s: Seq<T>, x: T)
    requires
        strictly_sorted(s),
        s.len() > 0 ==> s.last().at_most(x) && s.last() != x,
    ensures
        strictly_sorted(s.push(x)),
{
    let t = s.push(x);
    assert forall|i: int, j: int| 0 <= i < j < t.len() implies (#[trigger] t[i]).at_most(#[trigger] t[j]) && t[i]
        != t[j] by {
        if j == s.len() && i < s.len() - 1 {
            assert(s[i].at_most(s[s.len() - 1]) && s[i] != s[s.len() - 1]);
            s[i].transitive(s.last(), x);
            if s[i] == x {
                s.last().antisymmetric(x);
            }
        }
    }
}

proof fn lemma_grown<T>(out: Seq<T>, seen: Seq<T>, x: T, fresh: bool)
    requires
        same_values(out, seen),
        !fresh ==> out.len() > 0 && out.last() == x,
    ensures
        same_values(if fresh { out.push(x) } else { out }, seen.push(x)),
{
    let grown = if fresh {
        out.push(x)
    } else {
        out
    };
    let next = seen.push(x);
    assert forall|y: T| #[trigger] grown.contains(y) <==> next.contains(y) by {
        assert(out.contains(y) <==> seen.contains(y));
        if grown.contains(y) {
            let k = choose|k: int| 0 <= k < grown.len() && grown[k] == y;
            if k < out.len() {
                assert(out[k] == y);
                let m = choose|m: int| 0 <= m < seen.len() && seen[m] == y;
                assert(next[m] == y);
            } else {
                assert(next[seen.len() as int] == y);
            }
        }
        if next.contains(y) {
            let m = choose|m: int| 0 <= m < next.len() && next[m] == y;
            if m < seen.len() {
                assert(seen[m] == y);
                let k = choose|k: int| 0 <= k < out.len() && out[k] == y;
                assert(grown[k] == y);
            } else if fresh {
                assert(grown[out.len() as int] == y);
            } else {
                assert(grown[out.len() - 1] == y);
            }
        }
    }
}

/// Two strictly ascending sequences with the same values are equal: what is sorted
/// does not depend on the order in which it came.
pub proof fn law_sorting_is_canonical<T: Ranked>(a: Seq<T>, b: Seq<T>)
    requires
        strictly_sorted(a),
        strictly_sorted(b),
        same_values(a, b),
    ensures
        a == b,
    decreases a.len(),
{
    if a.len() == 0 {
        if b.len() > 0 {
            assert(b.contains(b[0]));
            assert(a.contains(b[0]));
        }
        assert(a =~= b);
    } else {
        let x = a.last();
        assert(a.contains(x));
        assert(b.contains(x));
        let y = b.last();
        assert(b.contains(y));
        assert(a.contains(y));
        let i = choose|i: int| 0 <= i < a.len() && a[i] == y;
        let j = choose|j: int| 0 <= j < b.len() && b[j] == x;
        if x != y {
            assert(a[i].at_most(a[a.len() - 1]));
            assert(b[j].at_most(b[b.len() - 1]));
            x.antisymmetric(y);
        }
        let c = a.drop_last();
        let d = b.drop_last();
        assert forall|z: T| #[trigger] c.contains(z) <==> d.contains(z) by {
            assert(a.contains(z) <==> b.contains(z));
            if c.contains(z) {
                let k = choose|k: int| 0 <= k < c.len() && c[k] == z;
                assert(a[k] == z);
                assert(z != x);
                let m = choose|m: int| 0 <= m < b.len() && b[m] == z;
                assert(d[m] == z);
            }
            if d.contains(z) {
                let k = choose|k: int| 0 <= k < d.len() && d[k] == z;
                assert(b[k] == z);
                assert(z != y);
                let m = choose|m: int| 0 <= m < a.len() && a[m] == z;
                assert(c[m] == z);
            }
        }
        law_sorting_is_canonical(c, d);
        assert(a =~= c.push(x));
        assert(b =~= d.push(y));
    }
}

proof fn lemma_inserted<T: Ranked>(c: Seq<T>, x: T) -> (d: Seq<T>)
    requires
        strictly_sorted(c),
    ensures
        strictly_sorted(d),
        forall|y: T| #[trigger] d.contains(y) <==> c.contains(y) || y == x,
        d.len() <= c.len() + 1,
    decreases c.len(),
{
    if c.len() == 0 {
        let d = seq![x];
        assert(d[0] == x);
        assert forall|y: T| #[trigger] d.contains(y) <==> c.contains(y) || y == x by {}
        d
    } else {
        let l = c.last();
        assert(c[c.len() - 1] == l);
        if l == x {
            c
        } else if l.at_most(x) {
            lemma_strictly_sorted_push(c, x);
            let d = c.push(x);
            assert forall|y: T| #[trigger] d.contains(y) <==> c.contains(y) || y == x by {
                lemma_push_contains(c, x, y);
            }
            d
        } else {
            x.total(l);
            let rest = c.drop_last();
            let e = lemma_inserted(rest, x);
            assert(e.contains(x));
            let k = e.last();
            assert(e.contains(k));
            if k != x {
                let i = choose|i: int| 0 <= i < rest.len() && rest[i] == k;
                assert(c[i].at_most(c[c.len() - 1]) && c[i] != c[c.len() - 1]);
            }
            lemma_strictly_sorted_push(e, l);
            let d = e.push(l);
            assert(c =~= rest.push(l));
            assert forall|y: T| #[trigger] d.contains(y) <==> c.contains(y) || y == x by {
                lemma_push_contains(e, l, y);
                lemma_push_contains(rest, l, y);
            }
            d
        }
    }
}

proof fn lemma_push_contains<T>(s: Seq<T>, x: T, y: T)
    ensures
        s.push(x).contains(y) <==> s.contains(y) || y == x,
{
    let t = s.push(x);
    if s.contains(y) {
        let i = choose|i: int| 0 <= i < s.len() && s[i] == y;
        assert(t[i] == y);
    }
    if y == x {
        assert(t[s.len() as int] == y);
    }
    if t.contains(y) && y != x {
        let i = choose|i: int| 0 <= i < t.len() && t[i] == y;
        assert(s[i] == y);
    }
}

/// Any values can be put in ascending order, each once.
pub proof fn lemma_sorted_exists<T: Ranked>(s: Seq<T>) -> (c: Seq<T>)
    ensures
        strictly_sorted(c),
        same_values(c, s),
        c.len() <= s.len(),
    decreases s.len(),
{
    if s.len() == 0 {
        s
    } else {
        let rest = s.drop_last();
        let c = lemma_sorted_exists(rest);
        let d = lemma_inserted(c, s.last());
        assert(s =~= rest.push(s.last()));
        assert forall|y: T| #[trigger] d.contains(y) <==> s.contains(y) by {
            lemma_push_contains(rest, s.last(), y);
            assert(c.contains(y) <==> rest.contains(y));
        }
        d
    }
}

/// Two ascending sequences with the same values equally often are equal.
pub proof fn law_sorted_is_unique<T: Ranked>(a: Seq<T>, b: Seq<T>)
    requires
        sorted(a),
        sorted(b),
        a.to_multiset() == b.to_multiset(),
    ensures
        a == b,
    decreases a.len(),
{
    broadcast use vstd::seq_lib::group_to_multiset_ensures;

    lemma_same_values(a, b);
    if a.len() == 0 {
        assert(a =~= b);
    } else {
        let x = a.last();
        let y = b.last();
        assert(a.contains(x) && b.contains(y));
        assert(b.contains(x) && a.contains(y));
        let i = choose|i: int| 0 <= i < a.len() && a[i] == y;
        let j = choose|j: int| 0 <= j < b.len() && b[j] == x;
        assert(a[i].at_most(a[a.len() - 1]));
        assert(b[j].at_most(b[b.len() - 1]));
        x.antisymmetric(y);
        let c = a.drop_last();
        let d = b.drop_last();
        assert(a =~= c.push(x));
        assert(b =~= d.push(x));
        lemma_push_count(c, x);
        lemma_push_count(d, x);
        assert(c.to_multiset() =~= c.to_multiset().insert(x).remove(x));
        assert(d.to_multiset() =~= d.to_multiset().insert(x).remove(x));
        assert(sorted(c) && sorted(d));
        law_sorted_is_unique(c, d);
    }
}

proof fn lemma_placed<T: Ranked>(c: Seq<T>, x: T) -> (d: Seq<T>)
    requires
        sorted(c),
    ensures
        sorted(d),
        d.to_multiset() == c.to_multiset().insert(x),
        d.len() == c.len() + 1,
        d.last() == x || (c.len() > 0 && d.last() == c.last()),
    decreases c.len(),
{
    if c.len() == 0 || c.last().at_most(x) {
        lemma_sorted_push(c, x);
        lemma_push_count(c, x);
        c.push(x)
    } else {
        let l = c.last();
        x.total(l);
        let rest = c.drop_last();
        assert(sorted(rest));
        let e = lemma_placed(rest, x);
        if e.last() != x {
            assert(c[rest.len() - 1].at_most(c[c.len() - 1]));
        }
        lemma_sorted_push(e, l);
        lemma_push_count(e, l);
        lemma_push_count(rest, l);
        assert(c =~= rest.push(l));
        assert(e.to_multiset().insert(l) =~= c.to_multiset().insert(x));
        e.push(l)
    }
}

/// Any values can be put in ascending order.
pub proof fn lemma_ascending_exists<T: Ranked>(s: Seq<T>) -> (c: Seq<T>)
    ensures
        sorted(c),
        c.to_multiset() == s.to_multiset(),
    decreases s.len(),
{
    if s.len() == 0 {
        s
    } else {
        let rest = s.drop_last();
        let c = lemma_ascending_exists(rest);
        assert(s =~= rest.push(s.last()));
        lemma_push_count(rest, s.last());
        lemma_placed(c, s.last())
    }
}

/// Where a value stands among ascending ones.
pub fn find<T: Ranked>(v: &Vec<T>, x: T) -> (r: usize)
    requires
        strictly_sorted(v@),
        v@.contains(x),
    ensures
        r < v@.len(),
        v@[r as int] == x,
{
    let ghost at = choose|i: int| 0 <= i < v@.len() && v@[i] == x;
    let mut lo: usize = 0;
    let mut hi: usize = v.len() - 1;
    while lo < hi
        invariant
            strictly_sorted(v@),
            lo <= at <= hi < v@.len(),
            v@[at] == x,
        decreases hi - lo,
    {
        let mid: usize = lo + (hi - lo) / 2;
        let low: bool = x.is_at_most(v[mid]);
        proof {
            let y = v@[mid as int];
            if low && at > mid {
                assert(v@[mid as int].at_most(v@[at]) && y != x);
                x.antisymmetric(y);
            }
            if !low && at <= mid {
                if at == mid {
                    x.total(x);
                } else {
                    assert(v@[at].at_most(v@[mid as int]));
                }
            }
        }
        if low {
            hi = mid;
        } else {
            lo = mid + 1;
        }
    }
    lo
}

impl Ranked for u32 {
    open spec fn at_most(self, other: Self) -> bool {
        self <= other
    }

    proof fn total(self, other: Self) {
    }

    proof fn transitive(self, mid: Self, other: Self) {
    }

    proof fn antisymmetric(self, other: Self) {
    }

    fn is_at_most(self, other: Self) -> (r: bool) {
        self <= other
    }
}

/// The values that occur exactly once.
pub open spec fn singles<T>(s: Seq<T>) -> Set<T> {
    s.to_set().filter(|x: T| s.to_multiset().count(x) == 1)
}

/// The tally of values that came before a run and of a run of one value.
proof fn lemma_run<T: Ranked>(s: Seq<T>, from: int, to: int)
    requires
        sorted(s),
        0 <= from < to <= s.len(),
        forall|k: int| from <= k < to ==> s[k] == s[from],
        from > 0 ==> s[from - 1] != s[from],
    ensures
        s.take(to).to_set().finite(),
        singles(s.take(to)).finite(),
        s.take(to).to_set().len() == s.take(from).to_set().len() + 1,
        singles(s.take(to)).len() == singles(s.take(from)).len() + (if to == from + 1 {
            1int
        } else {
            0
        }),
{
    broadcast use vstd::seq_lib::group_to_multiset_ensures;
    broadcast use vstd::set::group_set_axioms;
    broadcast use vstd::seq_lib::seq_to_set_is_finite;

    let x = s[from];
    let a = s.take(from);
    let b = s.take(to);
    let run = s.subrange(from, to);
    assert(b =~= a + run);
    lemma_multiset_commutative(a, run);
    assert(!a.contains(x)) by {
        if a.contains(x) {
            let k = choose|k: int| 0 <= k < a.len() && a[k] == x;
            assert(s[k].at_most(s[from - 1]));
            assert(s[from - 1].at_most(s[from]));
            s[from - 1].antisymmetric(s[from]);
        }
    }
    lemma_run_count(run, x);
    assert(b.to_set() =~= a.to_set().insert(x)) by {
        assert forall|y: T| b.to_set().contains(y) <==> a.to_set().insert(x).contains(y) by {
            if b.contains(y) {
                let k = choose|k: int| 0 <= k < b.len() && b[k] == y;
                if k < from {
                    assert(a[k] == y);
                } else {
                    assert(s[k] == x);
                }
            }
            if a.contains(y) {
                let k = choose|k: int| 0 <= k < a.len() && a[k] == y;
                assert(b[k] == y);
            }
            assert(b[from] == x);
        }
    }
    assert(a.to_multiset().count(x) == 0);
    assert forall|y: T| #[trigger] singles(b).contains(y) <==> (if to == from + 1 {
        singles(a).insert(x).contains(y)
    } else {
        singles(a).contains(y)
    }) by {
        if y == x {
            assert(b.to_multiset().count(x) == to - from);
        } else {
            assert(run.to_multiset().count(y) == 0);
            assert(b.to_multiset().count(y) == a.to_multiset().count(y));
        }
    }
    assert(a.to_set().finite());
    assert(singles(a).subset_of(a.to_set()));
    vstd::set_lib::lemma_set_subset_finite(a.to_set(), singles(a));
    assert(!singles(a).contains(x));
    if to == from + 1 {
        assert(singles(b) =~= singles(a).insert(x));
    } else {
        assert(singles(b) =~= singles(a));
    }
}

proof fn lemma_run_count<T>(run: Seq<T>, x: T)
    requires
        forall|k: int| 0 <= k < run.len() ==> run[k] == x,
    ensures
        run.to_multiset().count(x) == run.len(),
        forall|y: T| y != x ==> #[trigger] run.to_multiset().count(y) == 0,
    decreases run.len(),
{
    broadcast use vstd::seq_lib::group_to_multiset_ensures;

    if run.len() > 0 {
        lemma_run_count(run.drop_last(), x);
        assert(run =~= run.drop_last().push(x));
        lemma_push_count(run.drop_last(), x);
    }
    assert forall|y: T| y != x implies #[trigger] run.to_multiset().count(y) == 0 by {
        if run.len() > 0 {
            assert(run.drop_last().to_multiset().count(y) == 0);
        }
    }
}

/// How many different values there are, and how many occur exactly once.
pub fn tally<T: Ranked>(v: &Vec<T>) -> (r: (usize, usize))
    ensures
        r.0 == v@.to_set().len(),
        r.1 == singles(v@).len(),
        v@.to_set().finite(),
        singles(v@).finite(),
        r.0 <= v@.len(),
        r.1 <= v@.len(),
{
    let all: Vec<T> = sort(v);
    let mut distinct: usize = 0;
    let mut once: usize = 0;
    let mut i: usize = 0;
    proof {
        lemma_tally_permutes(all@, v@);
        assert(all@.take(0).to_set() =~= Set::<T>::empty());
        assert(singles(all@.take(0)) =~= Set::<T>::empty());
    }
    while i < all.len()
        invariant
            i <= all@.len(),
            sorted(all@),
            distinct == all@.take(i as int).to_set().len(),
            once == singles(all@.take(i as int)).len(),
            distinct <= i,
            once <= i,
            0 < i < all@.len() ==> all@[i - 1] != all@[i as int],
        decreases all@.len() - i,
    {
        let x: T = all[i];
        let from: usize = i;
        i = i + 1;
        proof {
            x.total(x);
        }
        while i < all.len() && all[i].is_at_most(x)
            invariant
                from < i <= all@.len(),
                sorted(all@),
                x == all@[from as int],
                forall|k: int| from <= k < i ==> all@[k] == x,
            decreases all@.len() - i,
        {
            proof {
                assert(all@[from as int].at_most(all@[i as int]));
                x.antisymmetric(all@[i as int]);
            }
            i = i + 1;
        }
        proof {
            lemma_run(all@, from as int, i as int);
            if i < all@.len() {
                x.total(x);
            }
        }
        distinct = distinct + 1;
        if i == from + 1 {
            once = once + 1;
        }
    }
    proof {
        assert(all@.take(i as int) =~= all@);
    }
    (distinct, once)
}

proof fn lemma_tally_permutes<T: Ranked>(a: Seq<T>, b: Seq<T>)
    requires
        a.to_multiset() == b.to_multiset(),
    ensures
        a.to_set() == b.to_set(),
        singles(a) == singles(b),
        a.to_set().finite(),
        singles(a).finite(),
{
    broadcast use vstd::seq_lib::seq_to_set_is_finite;

    lemma_same_values(a, b);
    assert forall|x: T| a.to_set().contains(x) <==> b.to_set().contains(x) by {
        assert(a.contains(x) <==> b.contains(x));
    }
    assert(a.to_set() =~= b.to_set());
    assert(singles(a) =~= singles(b));
    assert(singles(a).subset_of(a.to_set()));
    vstd::set_lib::lemma_set_subset_finite(a.to_set(), singles(a));
}

} // verus!
