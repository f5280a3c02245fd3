//! What validation finds, and the order in which it is reported.

use crate::canonical::{law_lists_delimit, list_words, lists_agree, write_list};
use crate::mesh::words::write_text;
use crate::sorting::same_values;
use crate::suites::cuts::{spell, spelled};
use crate::suites::records::law_records_tell_words;
use vstd::prelude::*;

verus! {

/// What kind of problem a finding describes, in the order in which kinds are
/// reported.
#[derive(Clone, Copy, Debug, PartialEq, Eq, PartialOrd, Ord, Hash, Structural)]
pub enum FindingKind {
    /// An edge that three or more sides use.
    NonManifoldEdge,
    /// An edge that exactly one side uses: a hole in the surface.
    BoundaryEdge,
    /// Two triangles that run along a common edge in the same direction.
    InconsistentOrientation,
    /// A triangle with two identical indices, or three collinear corners.
    DegenerateTriangle,
    /// Triangles with the same three vertices in any winding.
    DuplicateTriangle,
    /// Two triangles that intersect without a common vertex.
    SelfIntersection,
    /// The surface is closed but inside out.
    InvertedOrientation,
    /// Vertices that no triangle uses.
    UnusedVertex,
    /// Faces that are not convex were fan-triangulated.
    NonConvexPolygonFan,
}

impl FindingKind {
    /// The position of the kind in a report.
    pub open spec fn rank(self) -> int {
        match self {
            FindingKind::NonManifoldEdge => 0,
            FindingKind::BoundaryEdge => 1,
            FindingKind::InconsistentOrientation => 2,
            FindingKind::DegenerateTriangle => 3,
            FindingKind::DuplicateTriangle => 4,
            FindingKind::SelfIntersection => 5,
            FindingKind::InvertedOrientation => 6,
            FindingKind::UnusedVertex => 7,
            FindingKind::NonConvexPolygonFan => 8,
        }
    }

    pub(crate) fn number(self) -> (n: u8)
        ensures
            n == self.rank(),
    {
        match self {
            FindingKind::NonManifoldEdge => 0,
            FindingKind::BoundaryEdge => 1,
            FindingKind::InconsistentOrientation => 2,
            FindingKind::DegenerateTriangle => 3,
            FindingKind::DuplicateTriangle => 4,
            FindingKind::SelfIntersection => 5,
            FindingKind::InvertedOrientation => 6,
            FindingKind::UnusedVertex => 7,
            FindingKind::NonConvexPolygonFan => 8,
        }
    }

    /// The stable name of the kind.
    pub open spec fn label(self) -> Seq<char> {
        match self {
            FindingKind::NonManifoldEdge => "non-manifold-edge"@,
            FindingKind::BoundaryEdge => "boundary-edge"@,
            FindingKind::InconsistentOrientation => "inconsistent-orientation"@,
            FindingKind::DegenerateTriangle => "degenerate-triangle"@,
            FindingKind::DuplicateTriangle => "duplicate-triangle"@,
            FindingKind::SelfIntersection => "self-intersection"@,
            FindingKind::InvertedOrientation => "inverted-orientation"@,
            FindingKind::UnusedVertex => "unused-vertex"@,
            FindingKind::NonConvexPolygonFan => "non-convex-polygon-fan"@,
        }
    }

    /// The stable name of the kind.
    pub fn name(self) -> (s: &'static str)
        ensures
            s@ == self.label(),
    {
        match self {
            FindingKind::NonManifoldEdge => "non-manifold-edge",
            FindingKind::BoundaryEdge => "boundary-edge",
            FindingKind::InconsistentOrientation => "inconsistent-orientation",
            FindingKind::DegenerateTriangle => "degenerate-triangle",
            FindingKind::DuplicateTriangle => "duplicate-triangle",
            FindingKind::SelfIntersection => "self-intersection",
            FindingKind::InvertedOrientation => "inverted-orientation",
            FindingKind::UnusedVertex => "unused-vertex",
            FindingKind::NonConvexPolygonFan => "non-convex-polygon-fan",
        }
    }

    /// The finding breaks the argument from crossing parity to material.
    pub open spec fn fatal(self) -> bool {
        self == FindingKind::NonManifoldEdge || self == FindingKind::BoundaryEdge || self
            == FindingKind::InconsistentOrientation
    }

    /// True if the finding makes a mesh unusable for the parity argument.
    pub fn is_fatal_for_raycasting(self) -> (r: bool)
        ensures
            r == self.fatal(),
    {
        matches!(self, FindingKind::NonManifoldEdge | FindingKind::BoundaryEdge | FindingKind::InconsistentOrientation)
    }
}

/// One problem found in a mesh.
#[derive(Debug, PartialEq, Eq)]
pub struct Finding {
    /// What kind of problem.
    pub kind: FindingKind,
    /// Triangles involved, ascending.
    pub triangles: Vec<u32>,
    /// Vertices involved, ascending.
    pub vertices: Vec<u32>,
    /// Explanation for a reader.
    pub detail: String,
}

/// What a finding says.
#[verifier::ext_equal]
pub struct FindingView {
    /// What kind of problem.
    pub kind: FindingKind,
    /// Triangles involved.
    pub triangles: Seq<u32>,
    /// Vertices involved.
    pub vertices: Seq<u32>,
    /// Explanation for a reader.
    pub detail: Seq<char>,
}

impl View for Finding {
    type V = FindingView;

    open spec fn view(&self) -> FindingView {
        FindingView {
            kind: self.kind,
            triangles: self.triangles@,
            vertices: self.vertices@,
            detail: self.detail@,
        }
    }
}

impl FindingView {
    /// The words that a finding is known by: its kind and what it is about.
    pub open spec fn id_words(self) -> Seq<u64> {
        list_words(self.kind.label()) + list_words(self.triangles) + list_words(self.vertices)
    }

    /// What a finding says, given how the enclosed volume is written.
    pub open spec fn detail_with(self, volume: Seq<char>) -> Seq<char> {
        if self.kind == FindingKind::InvertedOrientation {
            "the surface is closed and consistently wound, but encloses a negative volume ("@ + volume
                + "); the whole mesh is inside out"@
        } else {
            self.detail
        }
    }
}

impl Finding {
    /// What the finding is known by. It follows from the kind and the elements
    /// alone, so that one finding more or less leaves that of the others as it is.
    pub fn id(&self) -> (s: String)
        ensures
            s@ == spelled(self@.id_words(), self@.id_words().len()),
    {
        let mut words: Vec<u64> = Vec::new();
        write_text(self.kind.name(), &mut words);
        write_list(self.triangles.as_slice(), &mut words);
        write_list(self.vertices.as_slice(), &mut words);
        assert(words@ =~= self@.id_words());
        spell(words.as_slice())
    }

    /// What the finding says, given how the enclosed volume is written.
    pub fn told_with(&self, volume: &str) -> (s: String)
        ensures
            s@ == self@.detail_with(volume@),
    {
        let mut s: String = String::new();
        if self.kind == FindingKind::InvertedOrientation {
            s.append("the surface is closed and consistently wound, but encloses a negative volume (");
            s.append(volume);
            s.append("); the whole mesh is inside out");
        } else {
            s.append(self.detail.as_str());
        }
        assert(s@ =~= self@.detail_with(volume@));
        s
    }
}

proof fn lemma_labels_differ(a: FindingKind, b: FindingKind)
    requires
        a.label() == b.label(),
    ensures
        a == b,
{
    reveal_strlit("non-manifold-edge");
    reveal_strlit("boundary-edge");
    reveal_strlit("inconsistent-orientation");
    reveal_strlit("degenerate-triangle");
    reveal_strlit("duplicate-triangle");
    reveal_strlit("self-intersection");
    reveal_strlit("inverted-orientation");
    reveal_strlit("unused-vertex");
    reveal_strlit("non-convex-polygon-fan");
    let (x, y) = (a.label(), b.label());
    assert(x.len() == y.len() && x[0] == y[0]);
    assert(a.rank() == b.rank());
}

/// Two findings are known by the same text exactly if they are of one kind and
/// about the same elements.
pub proof fn law_ids_tell_findings(a: FindingView, b: FindingView)
    ensures
        spelled(a.id_words(), a.id_words().len()) == spelled(b.id_words(), b.id_words().len()) <==> same_place(a, b),
{
    if spelled(a.id_words(), a.id_words().len()) == spelled(b.id_words(), b.id_words().len()) {
        law_records_tell_words(a.id_words(), b.id_words());
        let none = Seq::<u64>::empty();
        let (p, q) = (list_words(a.vertices), list_words(b.vertices));
        let (x, y) = (list_words(a.triangles) + p, list_words(b.triangles) + q);
        assert(a.id_words() =~= list_words(a.kind.label()) + x);
        assert(b.id_words() =~= list_words(b.kind.label()) + y);
        law_lists_delimit(a.kind.label(), b.kind.label(), x, y);
        assert(a.kind.label() =~= b.kind.label()) by {
            assert(lists_agree(a.kind.label(), b.kind.label()));
        }
        lemma_labels_differ(a.kind, b.kind);
        law_lists_delimit(a.triangles, b.triangles, p, q);
        assert(a.triangles =~= b.triangles) by {
            assert(lists_agree(a.triangles, b.triangles));
        }
        assert(p + none =~= p && q + none =~= q);
        law_lists_delimit(a.vertices, b.vertices, none, none);
        assert(a.vertices =~= b.vertices) by {
            assert(lists_agree(a.vertices, b.vertices));
        }
    }
}

/// What some findings say.
pub open spec fn stated(v: Seq<Finding>) -> Seq<FindingView> {
    Seq::new(v.len(), |i: int| v[i]@)
}

/// The first sequence comes before the second as words do in a dictionary.
pub open spec fn earlier_list(a: Seq<u32>, b: Seq<u32>) -> bool
    decreases a.len(),
{
    if b.len() == 0 {
        false
    } else if a.len() == 0 {
        true
    } else {
        a[0] < b[0] || (a[0] == b[0] && earlier_list(a.drop_first(), b.drop_first()))
    }
}

/// A finding comes before another: by kind, then by triangles, then by vertices.
pub open spec fn before(a: FindingView, b: FindingView) -> bool {
    ||| a.kind.rank() < b.kind.rank()
    ||| a.kind == b.kind && earlier_list(a.triangles, b.triangles)
    ||| a.kind == b.kind && a.triangles == b.triangles && earlier_list(a.vertices, b.vertices)
}

/// Two findings of one kind about the same elements.
pub open spec fn same_place(a: FindingView, b: FindingView) -> bool {
    a.kind == b.kind && a.triangles == b.triangles && a.vertices == b.vertices
}

/// In ascending order without repetition.
pub open spec fn in_order(s: Seq<FindingView>) -> bool {
    forall|i: int, j: int| 0 <= i < j < s.len() ==> before(#[trigger] s[i], #[trigger] s[j])
}

/// Findings about one place say the same.
pub open spec fn coherent(s: Seq<FindingView>) -> bool {
    forall|i: int, j: int|
        0 <= i < s.len() && 0 <= j < s.len() && same_place(#[trigger] s[i], #[trigger] s[j]) ==> s[i] == s[j]
}

proof fn lemma_list_total(a: Seq<u32>, b: Seq<u32>)
    ensures
        a == b || earlier_list(a, b) || earlier_list(b, a),
        !(earlier_list(a, b) && earlier_list(b, a)),
        a == b ==> !earlier_list(a, b),
    decreases a.len(),
{
    if a.len() > 0 && b.len() > 0 {
        lemma_list_total(a.drop_first(), b.drop_first());
        if a[0] == b[0] && a.drop_first() == b.drop_first() {
            assert(a =~= seq![a[0]] + a.drop_first());
            assert(b =~= seq![b[0]] + b.drop_first());
        }
    } else if a.len() == 0 && b.len() == 0 {
        assert(a =~= b);
    }
}

proof fn lemma_list_transitive(a: Seq<u32>, b: Seq<u32>, c: Seq<u32>)
    requires
        earlier_list(a, b),
        earlier_list(b, c),
    ensures
        earlier_list(a, c),
    decreases a.len(),
{
    if a.len() > 0 && b.len() > 0 && c.len() > 0 {
        if a[0] == b[0] && b[0] == c[0] {
            lemma_list_transitive(a.drop_first(), b.drop_first(), c.drop_first());
        }
    }
}

proof fn lemma_rank_distinct(a: FindingKind, b: FindingKind)
    ensures
        a.rank() == b.rank() <==> a == b,
{
}

/// Any two findings are in one order or about one place.
pub proof fn lemma_before_total(a: FindingView, b: FindingView)
    ensures
        same_place(a, b) || before(a, b) || before(b, a),
        !(before(a, b) && before(b, a)),
        same_place(a, b) ==> !before(a, b),
{
    lemma_rank_distinct(a.kind, b.kind);
    lemma_list_total(a.triangles, b.triangles);
    lemma_list_total(a.vertices, b.vertices);
}

/// The order of findings carries over.
pub proof fn lemma_before_transitive(a: FindingView, b: FindingView, c: FindingView)
    requires
        before(a, b),
        before(b, c),
    ensures
        before(a, c),
{
    lemma_rank_distinct(a.kind, b.kind);
    lemma_rank_distinct(b.kind, c.kind);
    if a.kind == b.kind && b.kind == c.kind {
        if earlier_list(a.triangles, b.triangles) && earlier_list(b.triangles, c.triangles) {
            lemma_list_transitive(a.triangles, b.triangles, c.triangles);
        }
        lemma_list_total(a.triangles, a.triangles);
        if a.triangles == b.triangles && b.triangles == c.triangles {
            lemma_list_transitive(a.vertices, b.vertices, c.vertices);
        }
    }
}

/// How two lists stand to each other: -1, 0 or 1.
fn weigh(a: &Vec<u32>, b: &Vec<u32>) -> (r: i8)
    ensures
        r < 0 <==> earlier_list(a@, b@),
        r > 0 <==> earlier_list(b@, a@),
        r == 0 <==> a@ == b@,
{
    let mut i: usize = 0;
    proof {
        lemma_list_total(a@, b@);
        assert(a@.skip(0) =~= a@);
        assert(b@.skip(0) =~= b@);
    }
    while i < a.len() && i < b.len() && a[i] == b[i]
        invariant
            i <= a@.len(),
            i <= b@.len(),
            earlier_list(a@, b@) == earlier_list(a@.skip(i as int), b@.skip(i as int)),
            earlier_list(b@, a@) == earlier_list(b@.skip(i as int), a@.skip(i as int)),
        decreases a@.len() - i,
    {
        proof {
            assert(a@.skip(i as int).drop_first() =~= a@.skip(i + 1));
            assert(b@.skip(i as int).drop_first() =~= b@.skip(i + 1));
        }
        i = i + 1;
    }
    if i < a.len() {
        if i < b.len() {
            if a[i] < b[i] {
                -1
            } else {
                1
            }
        } else {
            1
        }
    } else if i < b.len() {
        -1
    } else {
        0
    }
}

/// How two findings stand to each other: -1, 0 or 1.
fn place(a: &Finding, b: &Finding) -> (r: i8)
    ensures
        r < 0 <==> before(a@, b@),
        r > 0 <==> before(b@, a@),
        r == 0 <==> same_place(a@, b@),
{
    let x: u8 = a.kind.number();
    let y: u8 = b.kind.number();
    proof {
        lemma_before_total(a@, b@);
        lemma_rank_distinct(a.kind, b.kind);
    }
    if x < y {
        return -1;
    }
    if x > y {
        return 1;
    }
    let t: i8 = weigh(&a.triangles, &b.triangles);
    if t != 0 {
        proof {
            lemma_list_total(a.triangles@, b.triangles@);
        }
        return t;
    }
    weigh(&a.vertices, &b.vertices)
}

/// Merges two ordered lists of findings.
fn merge(first: Vec<Finding>, second: Vec<Finding>) -> (r: Vec<Finding>)
    requires
        in_order(stated(first@)),
        in_order(stated(second@)),
        coherent(stated(first@) + stated(second@)),
    ensures
        in_order(stated(r@)),
        forall|x: FindingView| #[trigger]
            stated(r@).contains(x) <==> stated(first@).contains(x) || stated(second@).contains(x),
{
    let ghost a = stated(first@);
    let ghost b = stated(second@);
    let mut first: Vec<Finding> = first;
    let mut second: Vec<Finding> = second;
    let mut rev: Vec<Finding> = Vec::new();
    proof {
        assert(a.take(a.len() as int) =~= a);
        assert(b.take(b.len() as int) =~= b);
    }
    while first.len() > 0 || second.len() > 0
        invariant
            in_order(a),
            in_order(b),
            coherent(a + b),
            first@.len() <= a.len(),
            second@.len() <= b.len(),
            stated(first@) == a.take(first@.len() as int),
            stated(second@) == b.take(second@.len() as int),
            forall|i: int, j: int| 0 <= i < j < rev@.len() ==> before((#[trigger] rev@[j])@, (#[trigger] rev@[i])@),
            rev@.len() > 0 && first@.len() > 0 ==> before(first@.last()@, rev@.last()@),
            rev@.len() > 0 && second@.len() > 0 ==> before(second@.last()@, rev@.last()@),
            forall|x: FindingView| #[trigger]
                merged(stated(rev@), stated(first@), stated(second@), x) <==> a.contains(x) || b.contains(x),
        decreases first@.len() + second@.len(),
    {
        let ghost rev0 = rev@;
        let ghost first0 = first@;
        let ghost second0 = second@;
        let side: i8 = if second.len() == 0 {
            1
        } else if first.len() == 0 {
            -1
        } else {
            place(&first[first.len() - 1], &second[second.len() - 1])
        };
        proof {
            lemma_lasts(a, b, first0, second0);
        }
        let next: Option<Finding> = if side >= 0 { first.pop() } else { second.pop() };
        if side == 0 {
            let _ = second.pop();
        }
        match next {
            Some(f) => {
                rev.push(f);
            },
            None => {},
        }
        proof {
            lemma_merge_step(a, b, rev0, first0, second0, side, rev@, first@, second@);
        }
    }
    let ghost all = rev@;
    let mut r: Vec<Finding> = Vec::new();
    while rev.len() > 0
        invariant
            rev@.len() <= all.len(),
            rev@ == all.take(rev@.len() as int),
            r@.len() == all.len() - rev@.len(),
            forall|i: int| 0 <= i < r@.len() ==> #[trigger] r@[i] == all[all.len() - 1 - i],
        decreases rev@.len(),
    {
        match rev.pop() {
            Some(f) => {
                r.push(f);
            },
            None => {},
        }
    }
    proof {
        let s = stated(r@);
        assert forall|i: int, j: int| 0 <= i < j < s.len() implies before(#[trigger] s[i], #[trigger] s[j]) by {
            assert(before(all[all.len() - 1 - i]@, all[all.len() - 1 - j]@));
        }
        assert forall|x: FindingView| #[trigger] s.contains(x) <==> a.contains(x) || b.contains(x) by {
            let none = stated(first@);
            assert(merged(stated(all), stated(first@), stated(second@), x) <==> a.contains(x) || b.contains(x));
            if s.contains(x) {
                let i = choose|i: int| 0 <= i < s.len() && s[i] == x;
                assert(stated(all)[all.len() - 1 - i] == x);
            }
            if stated(all).contains(x) {
                let i = choose|i: int| 0 <= i < all.len() && stated(all)[i] == x;
                assert(s[all.len() - 1 - i] == x);
            }
        }
    }
    r
}

/// A finding is in one of three lists.
spec fn merged(r: Seq<FindingView>, a: Seq<FindingView>, b: Seq<FindingView>, x: FindingView) -> bool {
    r.contains(x) || a.contains(x) || b.contains(x)
}

/// What is known of the last findings of what remains of two lists.
proof fn lemma_lasts(a: Seq<FindingView>, b: Seq<FindingView>, first: Seq<Finding>, second: Seq<Finding>)
    requires
        in_order(a),
        in_order(b),
        coherent(a + b),
        first.len() <= a.len(),
        second.len() <= b.len(),
        stated(first) == a.take(first.len() as int),
        stated(second) == b.take(second.len() as int),
    ensures
        first.len() > 1 ==> before(first[first.len() - 2]@, first.last()@),
        second.len() > 1 ==> before(second[second.len() - 2]@, second.last()@),
        first.len() > 0 && second.len() > 0 && same_place(first.last()@, second.last()@) ==> first.last()@
            == second.last()@,
{
    if first.len() > 0 {
        assert(stated(first)[first.len() - 1] == a[first.len() - 1]);
    }
    if second.len() > 0 {
        assert(stated(second)[second.len() - 1] == b[second.len() - 1]);
    }
    if first.len() > 1 {
        assert(stated(first)[first.len() - 2] == a[first.len() - 2]);
        assert(before(a[first.len() - 2], a[first.len() - 1]));
    }
    if second.len() > 1 {
        assert(stated(second)[second.len() - 2] == b[second.len() - 2]);
        assert(before(b[second.len() - 2], b[second.len() - 1]));
    }
    if first.len() > 0 && second.len() > 0 {
        let c = a + b;
        assert(c[first.len() - 1] == a[first.len() - 1]);
        assert(c[a.len() + second.len() - 1] == b[second.len() - 1]);
    }
}

proof fn lemma_merge_step(
    a: Seq<FindingView>,
    b: Seq<FindingView>,
    rev0: Seq<Finding>,
    first0: Seq<Finding>,
    second0: Seq<Finding>,
    side: i8,
    rev: Seq<Finding>,
    first: Seq<Finding>,
    second: Seq<Finding>,
)
    requires
        first0.len() <= a.len(),
        second0.len() <= b.len(),
        stated(first0) == a.take(first0.len() as int),
        stated(second0) == b.take(second0.len() as int),
        first0.len() > 0 || second0.len() > 0,
        side > 0 ==> first0.len() > 0 && (second0.len() > 0 ==> before(second0.last()@, first0.last()@)),
        side < 0 ==> second0.len() > 0 && (first0.len() > 0 ==> before(first0.last()@, second0.last()@)),
        side == 0 ==> first0.len() > 0 && second0.len() > 0 && first0.last()@ == second0.last()@,
        first0.len() > 1 ==> before(first0[first0.len() - 2]@, first0.last()@),
        second0.len() > 1 ==> before(second0[second0.len() - 2]@, second0.last()@),
        first == (if side >= 0 {
            first0.subrange(0, first0.len() - 1)
        } else {
            first0
        }),
        second == (if side <= 0 {
            second0.subrange(0, second0.len() - 1)
        } else {
            second0
        }),
        rev == rev0.push(if side >= 0 {
            first0.last()
        } else {
            second0.last()
        }),
        forall|i: int, j: int| 0 <= i < j < rev0.len() ==> before((#[trigger] rev0[j])@, (#[trigger] rev0[i])@),
        rev0.len() > 0 && first0.len() > 0 ==> before(first0.last()@, rev0.last()@),
        rev0.len() > 0 && second0.len() > 0 ==> before(second0.last()@, rev0.last()@),
        forall|x: FindingView| #[trigger]
            merged(stated(rev0), stated(first0), stated(second0), x) <==> a.contains(x) || b.contains(x),
    ensures
        stated(first) == a.take(first.len() as int),
        stated(second) == b.take(second.len() as int),
        forall|i: int, j: int| 0 <= i < j < rev.len() ==> before((#[trigger] rev[j])@, (#[trigger] rev[i])@),
        first.len() > 0 ==> before(first.last()@, rev.last()@),
        second.len() > 0 ==> before(second.last()@, rev.last()@),
        forall|x: FindingView| #[trigger]
            merged(stated(rev), stated(first), stated(second), x) <==> a.contains(x) || b.contains(x),
{
    let f = rev.last();
    assert(stated(first) =~= a.take(first.len() as int)) by {
        assert forall|i: int| 0 <= i < first.len() implies stated(first)[i] == a[i] by {
            assert(stated(first0)[i] == a[i]);
        }
    }
    assert(stated(second) =~= b.take(second.len() as int)) by {
        assert forall|i: int| 0 <= i < second.len() implies stated(second)[i] == b[i] by {
            assert(stated(second0)[i] == b[i]);
        }
    }
    assert forall|i: int, j: int| 0 <= i < j < rev.len() implies before((#[trigger] rev[j])@, (#[trigger] rev[i])@) by {
        if j == rev0.len() && i < rev0.len() - 1 {
            assert(before(rev0[rev0.len() - 1]@, rev0[i]@));
            lemma_before_transitive(f@, rev0.last()@, rev0[i]@);
        }
    }
    assert forall|x: FindingView| #[trigger] merged(stated(rev), stated(first), stated(second), x) <==> a.contains(x)
        || b.contains(x) by {
        assert(merged(stated(rev0), stated(first0), stated(second0), x) <==> a.contains(x) || b.contains(x));
        lemma_moved(rev0, f, x);
        if side >= 0 {
            lemma_popped(first0, x);
        }
        if side <= 0 {
            lemma_popped(second0, x);
        }
    }
}

/// What a list states once a finding was added.
pub proof fn lemma_moved(s: Seq<Finding>, f: Finding, x: FindingView)
    ensures
        stated(s.push(f)).contains(x) <==> stated(s).contains(x) || x == f@,
{
    let t = stated(s.push(f));
    if stated(s).contains(x) {
        let i = choose|i: int| 0 <= i < s.len() && stated(s)[i] == x;
        assert(t[i] == x);
    }
    if x == f@ {
        assert(t[s.len() as int] == x);
    }
    if t.contains(x) && x != f@ {
        let i = choose|i: int| 0 <= i < t.len() && t[i] == x;
        assert(stated(s)[i] == x);
    }
}

proof fn lemma_popped(s: Seq<Finding>, x: FindingView)
    requires
        s.len() > 0,
    ensures
        stated(s).contains(x) <==> stated(s.subrange(0, s.len() - 1)).contains(x) || x == s.last()@,
{
    let t = s.subrange(0, s.len() - 1);
    assert(s =~= t.push(s.last()));
    lemma_moved(t, s.last(), x);
}

/// The findings in order, each once.
pub(crate) fn sort_findings(v: Vec<Finding>) -> (r: Vec<Finding>)
    requires
        coherent(stated(v@)),
    ensures
        in_order(stated(r@)),
        same_values(stated(r@), stated(v@)),
    decreases v@.len(),
{
    let n: usize = v.len();
    if n <= 1 {
        return v;
    }
    let ghost all = stated(v@);
    let mut first: Vec<Finding> = v;
    let half: usize = n / 2;
    let second: Vec<Finding> = first.split_off(half);
    let ghost x = stated(first@);
    let ghost y = stated(second@);
    proof {
        assert(all =~= x + y);
        lemma_coherent_parts(x, y);
    }
    let a: Vec<Finding> = sort_findings(first);
    let b: Vec<Finding> = sort_findings(second);
    proof {
        lemma_coherent_same(x + y, stated(a@) + stated(b@), x, y, stated(a@), stated(b@));
    }
    let r: Vec<Finding> = merge(a, b);
    proof {
        assert forall|z: FindingView| #[trigger] stated(r@).contains(z) <==> all.contains(z) by {
            assert(stated(a@).contains(z) <==> x.contains(z));
            assert(stated(b@).contains(z) <==> y.contains(z));
            lemma_sum_contains(x, y, z);
        }
    }
    r
}

pub proof fn lemma_sum_contains(x: Seq<FindingView>, y: Seq<FindingView>, z: FindingView)
    ensures
        (x + y).contains(z) <==> x.contains(z) || y.contains(z),
{
    let s = x + y;
    if x.contains(z) {
        let i = choose|i: int| 0 <= i < x.len() && x[i] == z;
        assert(s[i] == z);
    }
    if y.contains(z) {
        let i = choose|i: int| 0 <= i < y.len() && y[i] == z;
        assert(s[x.len() + i] == z);
    }
    if s.contains(z) {
        let i = choose|i: int| 0 <= i < s.len() && s[i] == z;
        if i < x.len() {
            assert(x[i] == z);
        } else {
            assert(y[i - x.len()] == z);
        }
    }
}

proof fn lemma_coherent_parts(x: Seq<FindingView>, y: Seq<FindingView>)
    requires
        coherent(x + y),
    ensures
        coherent(x),
        coherent(y),
{
    let s = x + y;
    assert forall|i: int, j: int|
        0 <= i < x.len() && 0 <= j < x.len() && same_place(#[trigger] x[i], #[trigger] x[j]) implies x[i] == x[j] by {
        assert(s[i] == x[i] && s[j] == x[j]);
    }
    assert forall|i: int, j: int|
        0 <= i < y.len() && 0 <= j < y.len() && same_place(#[trigger] y[i], #[trigger] y[j]) implies y[i] == y[j] by {
        assert(s[x.len() + i] == y[i] && s[x.len() + j] == y[j]);
    }
}

/// Lists of the same findings are coherent together.
proof fn lemma_coherent_same(
    s: Seq<FindingView>,
    t: Seq<FindingView>,
    x: Seq<FindingView>,
    y: Seq<FindingView>,
    a: Seq<FindingView>,
    b: Seq<FindingView>,
)
    requires
        s == x + y,
        t == a + b,
        coherent(s),
        same_values(a, x),
        same_values(b, y),
    ensures
        coherent(t),
{
    assert forall|i: int, j: int|
        0 <= i < t.len() && 0 <= j < t.len() && same_place(#[trigger] t[i], #[trigger] t[j]) implies t[i] == t[j] by {
        let (p, q) = (t[i], t[j]);
        assert(t.contains(p) && t.contains(q));
        lemma_sum_contains(a, b, p);
        lemma_sum_contains(a, b, q);
        assert(a.contains(p) <==> x.contains(p));
        assert(b.contains(p) <==> y.contains(p));
        assert(a.contains(q) <==> x.contains(q));
        assert(b.contains(q) <==> y.contains(q));
        lemma_sum_contains(x, y, p);
        lemma_sum_contains(x, y, q);
        let m = choose|m: int| 0 <= m < s.len() && s[m] == p;
        let n = choose|n: int| 0 <= n < s.len() && s[n] == q;
        assert(same_place(s[m], s[n]));
    }
}

/// A finding put behind all that it does not come before.
pub open spec fn inserted(s: Seq<FindingView>, x: FindingView) -> Seq<FindingView>
    decreases s.len(),
{
    if s.len() == 0 || !before(x, s.last()) {
        s.push(x)
    } else {
        inserted(s.drop_last(), x).push(s.last())
    }
}

/// The first `n` findings, arranged: those about one place in the order in which
/// they stood.
pub open spec fn arranged(s: Seq<FindingView>, n: nat) -> Seq<FindingView>
    decreases n,
{
    if n == 0 {
        Seq::empty()
    } else {
        inserted(arranged(s, (n - 1) as nat), s[n - 1])
    }
}

/// No finding comes before one in front of it.
pub open spec fn ascending_findings(s: Seq<FindingView>) -> bool {
    forall|i: int, j: int| 0 <= i < j < s.len() ==> !before(#[trigger] s[j], #[trigger] s[i])
}

proof fn lemma_inserted(s: Seq<FindingView>, x: FindingView)
    requires
        ascending_findings(s),
    ensures
        ascending_findings(inserted(s, x)),
        inserted(s, x).len() == s.len() + 1,
        inserted(s, x).to_multiset() == s.to_multiset().insert(x),
        forall|i: int| 0 <= i < inserted(s, x).len() ==> (#[trigger] inserted(s, x)[i]) == x || s.contains(inserted(s, x)[i]),
    decreases s.len(),
{
    broadcast use vstd::seq_lib::group_to_multiset_ensures;

    let r = inserted(s, x);
    if s.len() == 0 {
    } else if !before(x, s.last()) {
        assert forall|i: int, j: int| 0 <= i < j < r.len() implies !before(#[trigger] r[j], #[trigger] r[i]) by {
            if j == s.len() && i < s.len() - 1 {
                lemma_before_total(s.last(), s[i]);
                lemma_before_total(x, s.last());
                if before(x, s[i]) {
                    lemma_before_chain(x, s[i], s.last());
                }
            }
        }
        assert forall|i: int| 0 <= i < r.len() implies (#[trigger] r[i]) == x || s.contains(r[i]) by {
            if i < s.len() {
                assert(s[i] == r[i]);
            }
        }
    } else {
        let t = s.drop_last();
        lemma_inserted(t, x);
        let q = inserted(t, x);
        assert(s =~= t.push(s.last()));
        assert(s.to_multiset() =~= t.to_multiset().insert(s.last()));
        assert(r.to_multiset() =~= q.to_multiset().insert(s.last()));
        assert(r.to_multiset() =~= s.to_multiset().insert(x));
        assert forall|i: int, j: int| 0 <= i < j < r.len() implies !before(#[trigger] r[j], #[trigger] r[i]) by {
            if j == q.len() {
                if q[i] == x {
                    lemma_before_total(x, s.last());
                } else {
                    assert(t.contains(q[i]));
                    let k = choose|k: int| 0 <= k < t.len() && t[k] == q[i];
                    assert(s[k] == q[i]);
                }
            } else {
                assert(r[i] == q[i] && r[j] == q[j]);
            }
        }
        assert forall|i: int| 0 <= i < r.len() implies (#[trigger] r[i]) == x || s.contains(r[i]) by {
            if i < q.len() {
                if q[i] != x {
                    assert(t.contains(q[i]));
                    let k = choose|k: int| 0 <= k < t.len() && t[k] == q[i];
                    assert(s[k] == q[i]);
                }
            } else {
                assert(s[s.len() - 1] == r[i]);
            }
        }
    }
}

/// Where `x` comes before `y`, and `z` does not come before `y`, `x` comes before
/// `z`.
proof fn lemma_before_chain(x: FindingView, y: FindingView, z: FindingView)
    requires
        before(x, y),
        !before(z, y),
    ensures
        before(x, z),
{
    lemma_before_total(y, z);
    if before(y, z) {
        lemma_before_transitive(x, y, z);
    }
}

/// Arranging findings sorts them and neither loses nor adds one, also where one
/// occurs more than once.
pub proof fn law_arranging_sorts(s: Seq<FindingView>, n: nat)
    requires
        n <= s.len(),
    ensures
        ascending_findings(arranged(s, n)),
        arranged(s, n).len() == n,
        arranged(s, n).to_multiset() == s.take(n as int).to_multiset(),
    decreases n,
{
    broadcast use vstd::seq_lib::group_to_multiset_ensures;

    if n > 0 {
        law_arranging_sorts(s, (n - 1) as nat);
        lemma_inserted(arranged(s, (n - 1) as nat), s[n - 1]);
        assert(s.take(n as int) =~= s.take(n - 1).push(s[n - 1]));
        assert(s.take(n as int).to_multiset() =~= s.take(n - 1).to_multiset().insert(s[n - 1]));
    } else {
        assert(s.take(0) =~= Seq::<FindingView>::empty());
    }
}

/// Inserting far from the end leaves the end.
proof fn lemma_inserted_ahead(s: Seq<FindingView>, x: FindingView, i: int)
    requires
        0 <= i <= s.len(),
        forall|k: int| i <= k < s.len() ==> before(x, #[trigger] s[k]),
    ensures
        inserted(s, x) == inserted(s.take(i), x) + s.skip(i),
    decreases s.len() - i,
{
    if i == s.len() {
        assert(s.take(i) =~= s);
        assert(inserted(s, x) + s.skip(i) =~= inserted(s, x));
    } else {
        let t = s.drop_last();
        assert forall|k: int| i <= k < t.len() implies before(x, #[trigger] t[k]) by {
            assert(s[k] == t[k]);
        }
        lemma_inserted_ahead(t, x, i);
        assert(before(x, s[s.len() - 1]));
        assert(t.take(i) =~= s.take(i));
        assert(t.skip(i).push(s.last()) =~= s.skip(i));
        assert((inserted(s.take(i), x) + t.skip(i)).push(s.last()) =~= inserted(s.take(i), x) + s.skip(i));
    }
}

/// Puts a finding behind all that it does not come before.
fn insert_finding(v: &mut Vec<Finding>, f: Finding)
    ensures
        stated(final(v)@) == inserted(stated(old(v)@), f@),
{
    let ghost s = stated(v@);
    let ghost old_v = v@;
    let mut i: usize = v.len();
    while i > 0 && place(&f, &v[i - 1]) < 0
        invariant
            i <= v@.len(),
            v@ == old_v,
            s == stated(v@),
            forall|k: int| i <= k < s.len() ==> before(f@, #[trigger] s[k]),
        decreases i,
    {
        i = i - 1;
    }
    proof {
        lemma_inserted_ahead(s, f@, i as int);
        if i > 0 {
            assert(s.take(i as int).last() == s[i - 1]);
        }
    }
    v.insert(i, f);
    assert(stated(v@) =~= s.take(i as int).push(f@) + s.skip(i as int));
}

/// Arranges findings: in order, those about one place as they stood.
pub(crate) fn arrange(v: Vec<Finding>) -> (r: Vec<Finding>)
    ensures
        stated(r@) == arranged(stated(v@), v@.len()),
{
    let ghost all = v@;
    let ghost n = v@.len();
    let mut v: Vec<Finding> = v;
    let mut rest: Vec<Finding> = Vec::new();
    while v.len() > 0
        invariant
            v@.len() + rest@.len() == n,
            all.len() == n,
            forall|k: int| 0 <= k < v@.len() ==> #[trigger] v@[k] == all[k],
            forall|k: int| 0 <= k < rest@.len() ==> #[trigger] rest@[k] == all[n - 1 - k],
        decreases v@.len(),
    {
        match v.pop() {
            Some(f) => {
                rest.push(f);
            },
            None => {},
        }
    }
    let mut r: Vec<Finding> = Vec::new();
    assert(stated(r@) =~= arranged(stated(all), 0));
    while rest.len() > 0
        invariant
            all.len() == n,
            rest@.len() <= n,
            forall|k: int| 0 <= k < rest@.len() ==> #[trigger] rest@[k] == all[n - 1 - k],
            stated(r@) == arranged(stated(all), (n - rest@.len()) as nat),
        decreases rest@.len(),
    {
        let ghost k = rest@.len() - 1;
        assert(rest@[k] == all[n - 1 - k]);
        match rest.pop() {
            Some(f) => {
                assert(stated(all)[n - 1 - k] == f@);
                insert_finding(&mut r, f);
            },
            None => {},
        }
    }
    r
}

} // verus!
