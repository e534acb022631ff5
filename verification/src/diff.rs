//! Line-by-line comparison of two files: the lines of a longest common
//! subsequence are kept as equal lines, every other line of the first file is a
//! deletion and every other line of the second file an insertion; runs of
//! lines of one kind form the segments of the diff.

use vstd::prelude::*;
use vstd::hash_map::StringHashMap;
use crate::lcs::{
    is_common_subsequence, lcs_length, lcs_trace, lemma_full_subsequence_is_diagonal,
    lemma_trace_is_common_subsequence, lemma_trace_respects_equality, longest_common_subsequence,
};

verus! {

/// What happened to a line.
#[derive(Clone, Copy, Debug, PartialEq, Eq, Structural)]
pub enum DiffType {
    Insert,
    Delete,
    Equal,
}

/// Whether a segment holds changed lines or unchanged ones.
#[derive(Clone, Copy, Debug, PartialEq, Eq, Structural)]
pub enum SegmentType {
    Diff,
    Equal,
}

/// One line of a diff. `line_no` is 1-based and counts lines of the first
/// file: for a deleted or equal line its own number, for an inserted line the
/// number of the first-file line it goes before.
#[derive(Clone)]
pub struct DiffLine {
    pub diff_type: DiffType,
    pub line_no: usize,
    pub line: String,
}

/// A maximal run of equal lines, or of changed lines.
pub struct DiffSegment {
    pub segment_type: SegmentType,
    pub lines: Vec<DiffLine>,
}

/// The diff of two files, as a list of segments.
pub struct FileDiff {
    pub segments: Vec<DiffSegment>,
}

/// A diff line as a mathematical value.
pub struct LineView {
    pub diff_type: DiffType,
    pub line_no: int,
    pub line: Seq<char>,
}

/// A segment as a mathematical value.
pub struct SegmentView {
    pub segment_type: SegmentType,
    pub lines: Seq<LineView>,
}

impl View for DiffLine {
    type V = LineView;

    open spec fn view(&self) -> LineView {
        LineView { diff_type: self.diff_type, line_no: self.line_no as int, line: self.line@ }
    }
}

pub open spec fn lines_view(v: Seq<DiffLine>) -> Seq<LineView> {
    v.map_values(|l: DiffLine| l@)
}

impl View for DiffSegment {
    type V = SegmentView;

    open spec fn view(&self) -> SegmentView {
        SegmentView { segment_type: self.segment_type, lines: lines_view(self.lines@) }
    }
}

pub open spec fn segments_view(v: Seq<DiffSegment>) -> Seq<SegmentView> {
    v.map_values(|s: DiffSegment| s@)
}

impl View for FileDiff {
    type V = Seq<SegmentView>;

    open spec fn view(&self) -> Seq<SegmentView> {
        segments_view(self.segments@)
    }
}

/// The contents of a list of lines.
pub open spec fn text_view(v: Seq<String>) -> Seq<Seq<char>> {
    v.map_values(|s: String| s@)
}

/// The segment type a line of the given kind belongs to.
pub open spec fn kind_of(t: DiffType) -> SegmentType {
    if t == DiffType::Equal {
        SegmentType::Equal
    } else {
        SegmentType::Diff
    }
}

/// The lines of all segments, in order.
pub open spec fn all_lines(segs: Seq<SegmentView>) -> Seq<LineView>
    decreases segs.len(),
{
    if segs.len() == 0 {
        seq![]
    } else {
        all_lines(segs.drop_last()) + segs.last().lines
    }
}

/// `segs` cuts `lines` into maximal runs of one kind: every segment is
/// non-empty, its lines all have its type, and neighbouring segments differ
/// in type.
pub open spec fn is_grouping(segs: Seq<SegmentView>, lines: Seq<LineView>) -> bool {
    &&& all_lines(segs) == lines
    &&& forall|k: int| 0 <= k < segs.len() ==> (#[trigger] segs[k]).lines.len() > 0
    &&& forall|k: int, l: int|
        0 <= k < segs.len() && 0 <= l < segs[k].lines.len() ==> kind_of(
            (#[trigger] segs[k].lines[l]).diff_type,
        ) == segs[k].segment_type
    &&& forall|k: int, l: int|
        0 <= k && l == k + 1 && l < segs.len() ==> (#[trigger] segs[k]).segment_type != (#[trigger] segs[l]).segment_type
}

/// Cuts `lines` into runs, left to right: a line of the same kind as the open
/// run joins it, any other line opens a new run.
pub open spec fn runs(lines: Seq<LineView>) -> Seq<SegmentView>
    decreases lines.len(),
{
    if lines.len() == 0 {
        seq![]
    } else {
        let prev = runs(lines.drop_last());
        let x = lines.last();
        if prev.len() > 0 && prev.last().segment_type == kind_of(x.diff_type) {
            prev.drop_last().push(SegmentView { segment_type: prev.last().segment_type, lines: prev.last().lines.push(x) })
        } else {
            prev.push(SegmentView { segment_type: kind_of(x.diff_type), lines: seq![x] })
        }
    }
}

/// Lines `from..to` of `a`, each deleted under its own number.
pub open spec fn deleted_lines(a: Seq<Seq<char>>, from: int, to: int) -> Seq<LineView> {
    Seq::new(
        (to - from) as nat,
        |k: int| LineView { diff_type: DiffType::Delete, line_no: from + k + 1, line: a[from + k] },
    )
}

/// Lines `from..to` of `b`, each inserted before first-file line `anchor + 1`.
pub open spec fn inserted_lines(b: Seq<Seq<char>>, from: int, to: int, anchor: int) -> Seq<LineView> {
    Seq::new(
        (to - from) as nat,
        |k: int| LineView { diff_type: DiffType::Insert, line_no: anchor + 1, line: b[from + k] },
    )
}

/// The lines of the diff from position `i` of `a` and `j` of `b` on, given the
/// remaining matched pairs `ps`: before each pair, the lines of `a` up to it
/// are deleted and then the lines of `b` up to it inserted; the pair itself is
/// an equal line; after the last pair the rest of `a` is deleted and the rest
/// of `b` inserted.
pub open spec fn edit_script(a: Seq<Seq<char>>, b: Seq<Seq<char>>, ps: Seq<(int, int)>, i: int, j: int) -> Seq<LineView>
    decreases ps.len(),
{
    if ps.len() == 0 {
        deleted_lines(a, i, a.len() as int) + inserted_lines(b, j, b.len() as int, i)
    } else {
        let p = ps[0];
        deleted_lines(a, i, p.0) + inserted_lines(b, j, p.1, i) + seq![
            LineView { diff_type: DiffType::Equal, line_no: p.0 + 1, line: a[p.0] },
        ] + edit_script(a, b, ps.drop_first(), p.0 + 1, p.1 + 1)
    }
}

/// The lines of the diff of `a` against `b`.
pub open spec fn diff_lines(a: Seq<Seq<char>>, b: Seq<Seq<char>>) -> Seq<LineView> {
    edit_script(a, b, lcs_trace(a, b, a.len() as int, b.len() as int), 0, 0)
}

/// The lines of `a` from `k` on, all equal, under their own numbers.
pub open spec fn equal_lines(a: Seq<Seq<char>>, k: int) -> Seq<LineView> {
    Seq::new(
        (a.len() - k) as nat,
        |x: int| LineView { diff_type: DiffType::Equal, line_no: k + x + 1, line: a[k + x] },
    )
}

/// The lines the diff keeps from the first file: deleted and equal ones.
pub open spec fn old_side(lines: Seq<LineView>) -> Seq<Seq<char>>
    decreases lines.len(),
{
    if lines.len() == 0 {
        seq![]
    } else if lines.last().diff_type == DiffType::Insert {
        old_side(lines.drop_last())
    } else {
        old_side(lines.drop_last()).push(lines.last().line)
    }
}

/// The lines the diff keeps from the second file: inserted and equal ones.
pub open spec fn new_side(lines: Seq<LineView>) -> Seq<Seq<char>>
    decreases lines.len(),
{
    if lines.len() == 0 {
        seq![]
    } else if lines.last().diff_type == DiffType::Delete {
        new_side(lines.drop_last())
    } else {
        new_side(lines.drop_last()).push(lines.last().line)
    }
}

proof fn lemma_sides_concat(x: Seq<LineView>, y: Seq<LineView>)
    ensures
        old_side(x + y) == old_side(x) + old_side(y),
        new_side(x + y) == new_side(x) + new_side(y),
    decreases y.len(),
{
    if y.len() == 0 {
        assert(x + y =~= x);
        assert(old_side(x) + old_side(y) =~= old_side(x));
        assert(new_side(x) + new_side(y) =~= new_side(x));
    } else {
        lemma_sides_concat(x, y.drop_last());
        assert((x + y).drop_last() =~= x + y.drop_last());
        assert((x + y).last() == y.last());
        assert(old_side(x) + old_side(y.drop_last()).push(y.last().line) =~= (old_side(x) + old_side(
            y.drop_last(),
        )).push(y.last().line));
        assert(new_side(x) + new_side(y.drop_last()).push(y.last().line) =~= (new_side(x) + new_side(
            y.drop_last(),
        )).push(y.last().line));
    }
}

proof fn lemma_sides_deleted(a: Seq<Seq<char>>, from: int, to: int)
    requires
        0 <= from <= to <= a.len(),
    ensures
        old_side(deleted_lines(a, from, to)) == a.subrange(from, to),
        new_side(deleted_lines(a, from, to)) == Seq::<Seq<char>>::empty(),
    decreases to - from,
{
    if from < to {
        lemma_sides_deleted(a, from, to - 1);
        assert(deleted_lines(a, from, to).drop_last() =~= deleted_lines(a, from, to - 1));
        assert(a.subrange(from, to - 1).push(a[to - 1]) =~= a.subrange(from, to));
    } else {
        assert(deleted_lines(a, from, to) =~= Seq::<LineView>::empty());
        assert(a.subrange(from, to) =~= Seq::<Seq<char>>::empty());
    }
}

proof fn lemma_sides_inserted(b: Seq<Seq<char>>, from: int, to: int, anchor: int)
    requires
        0 <= from <= to <= b.len(),
    ensures
        new_side(inserted_lines(b, from, to, anchor)) == b.subrange(from, to),
        old_side(inserted_lines(b, from, to, anchor)) == Seq::<Seq<char>>::empty(),
    decreases to - from,
{
    if from < to {
        lemma_sides_inserted(b, from, to - 1, anchor);
        assert(inserted_lines(b, from, to, anchor).drop_last() =~= inserted_lines(b, from, to - 1, anchor));
        assert(b.subrange(from, to - 1).push(b[to - 1]) =~= b.subrange(from, to));
    } else {
        assert(inserted_lines(b, from, to, anchor) =~= Seq::<LineView>::empty());
        assert(b.subrange(from, to) =~= Seq::<Seq<char>>::empty());
    }
}

proof fn lemma_script_sides(a: Seq<Seq<char>>, b: Seq<Seq<char>>, ps: Seq<(int, int)>, i: int, j: int)
    requires
        0 <= i <= a.len(),
        0 <= j <= b.len(),
        forall|k: int| 0 <= k < ps.len() ==> i <= (#[trigger] ps[k]).0 < a.len() && j <= ps[k].1 < b.len() && a[ps[k].0] == b[ps[k].1],
        forall|k: int, l: int| 0 <= k < l < ps.len() ==> (#[trigger] ps[k]).0 < (#[trigger] ps[l]).0 && ps[k].1 < ps[l].1,
    ensures
        old_side(edit_script(a, b, ps, i, j)) == a.subrange(i, a.len() as int),
        new_side(edit_script(a, b, ps, i, j)) == b.subrange(j, b.len() as int),
    decreases ps.len(),
{
    if ps.len() == 0 {
        lemma_sides_concat(deleted_lines(a, i, a.len() as int), inserted_lines(b, j, b.len() as int, i));
        lemma_sides_deleted(a, i, a.len() as int);
        lemma_sides_inserted(b, j, b.len() as int, i);
        assert(a.subrange(i, a.len() as int) + Seq::<Seq<char>>::empty() =~= a.subrange(i, a.len() as int));
        assert(Seq::<Seq<char>>::empty() + b.subrange(j, b.len() as int) =~= b.subrange(j, b.len() as int));
    } else {
        let p = ps[0];
        let rest = ps.drop_first();
        assert forall|k: int| 0 <= k < rest.len() implies p.0 + 1 <= (#[trigger] rest[k]).0 < a.len()
            && p.1 + 1 <= rest[k].1 < b.len() && a[rest[k].0] == b[rest[k].1] by {
            assert(rest[k] == ps[k + 1]);
        }
        assert forall|k: int, l: int| 0 <= k < l < rest.len() implies (#[trigger] rest[k]).0 < (
        #[trigger] rest[l]).0 && rest[k].1 < rest[l].1 by {
            assert(rest[k] == ps[k + 1] && rest[l] == ps[l + 1]);
        }
        lemma_script_sides(a, b, rest, p.0 + 1, p.1 + 1);
        let d = deleted_lines(a, i, p.0);
        let n = inserted_lines(b, j, p.1, i);
        let e = seq![LineView { diff_type: DiffType::Equal, line_no: p.0 + 1, line: a[p.0] }];
        let r = edit_script(a, b, rest, p.0 + 1, p.1 + 1);
        lemma_sides_concat(d, n);
        lemma_sides_concat(d + n, e);
        lemma_sides_concat(d + n + e, r);
        lemma_sides_deleted(a, i, p.0);
        lemma_sides_inserted(b, j, p.1, i);
        assert(e.drop_last() =~= Seq::<LineView>::empty());
        assert(old_side(e.drop_last()) =~= Seq::<Seq<char>>::empty());
        assert(new_side(e.drop_last()) =~= Seq::<Seq<char>>::empty());
        assert(old_side(e) =~= seq![a[p.0]]);
        assert(new_side(e) =~= seq![a[p.0]]);
        assert(a.subrange(i, p.0) + Seq::<Seq<char>>::empty() + seq![a[p.0]] + a.subrange(p.0 + 1, a.len() as int)
            =~= a.subrange(i, a.len() as int));
        assert(Seq::<Seq<char>>::empty() + b.subrange(j, p.1) + seq![b[p.1]] + b.subrange(p.1 + 1, b.len() as int)
            =~= b.subrange(j, b.len() as int));
    }
}

/// Law: the diff of `a` against `b` is an edit of `a` into `b`: its deleted and
/// equal lines, in order, are exactly the lines of `a`, and its inserted and
/// equal lines, in order, are exactly the lines of `b`.
pub proof fn lemma_diff_reconstructs_both_files(a: Seq<Seq<char>>, b: Seq<Seq<char>>)
    ensures
        old_side(diff_lines(a, b)) == a,
        new_side(diff_lines(a, b)) == b,
{
    lemma_trace_is_common_subsequence(a, b, a.len() as int, b.len() as int);
    lemma_script_sides(a, b, lcs_trace(a, b, a.len() as int, b.len() as int), 0, 0);
    assert(a.subrange(0, a.len() as int) =~= a);
    assert(b.subrange(0, b.len() as int) =~= b);
}

/// Law: a file compared with itself gives only equal lines, each under its own
/// number, in one segment (none for an empty file).
pub proof fn lemma_diff_of_identical_files(a: Seq<Seq<char>>)
    ensures
        diff_lines(a, a) == equal_lines(a, 0),
        runs(diff_lines(a, a)) == (if a.len() > 0 {
            seq![SegmentView { segment_type: SegmentType::Equal, lines: equal_lines(a, 0) }]
        } else {
            Seq::<SegmentView>::empty()
        }),
{
    let n = a.len() as int;
    lemma_self_trace_is_full(a, n);
    let ps = lcs_trace(a, a, n, n);
    lemma_trace_is_common_subsequence(a, a, n, n);
    lemma_full_subsequence_is_diagonal(a, a, ps, n);
    lemma_diagonal_script(a, a, ps, 0);
    assert(ps.skip(0) =~= ps);
    if a.len() > 0 {
        lemma_runs_of_equal_lines(a, n);
        assert(equal_lines(a, 0).take(n) =~= equal_lines(a, 0));
    } else {
        assert(equal_lines(a, 0) =~= Seq::<LineView>::empty());
    }
}

proof fn lemma_self_trace_is_full(a: Seq<Seq<char>>, i: int)
    requires
        0 <= i <= a.len(),
    ensures
        lcs_trace(a, a, i, i).len() == i,
    decreases i,
{
    if i > 0 {
        lemma_self_trace_is_full(a, i - 1);
    }
}

/// With every position paired with itself, the script from `k` on is the
/// equal lines from `k` on.
proof fn lemma_diagonal_script(a: Seq<Seq<char>>, b: Seq<Seq<char>>, ps: Seq<(int, int)>, k: int)
    requires
        a.len() == b.len(),
        ps.len() == a.len(),
        0 <= k <= a.len(),
        forall|x: int| 0 <= x < ps.len() ==> #[trigger] ps[x] == (x, x),
    ensures
        edit_script(a, b, ps.skip(k), k, k) == equal_lines(a, k),
    decreases a.len() - k,
{
    let s = ps.skip(k);
    if k == a.len() {
        assert(s.len() == 0);
        assert(deleted_lines(a, k, a.len() as int) =~= Seq::<LineView>::empty());
        assert(inserted_lines(b, k, b.len() as int, k) =~= Seq::<LineView>::empty());
        assert(equal_lines(a, k) =~= Seq::<LineView>::empty());
        assert(Seq::<LineView>::empty() + Seq::<LineView>::empty() =~= Seq::<LineView>::empty());
    } else {
        lemma_diagonal_script(a, b, ps, k + 1);
        assert(s[0] == ps[k]);
        assert(s.drop_first() =~= ps.skip(k + 1));
        assert(deleted_lines(a, k, k) =~= Seq::<LineView>::empty());
        assert(inserted_lines(b, k, k, k) =~= Seq::<LineView>::empty());
        assert(edit_script(a, b, s, k, k) =~= equal_lines(a, k));
    }
}

/// Where the lines pushed so far stand: the closed segments `segs`, the open
/// run `pending` of type given by `state`, together cutting `produced` into
/// maximal runs.
spec fn builds(segs: Seq<SegmentView>, pending: Seq<LineView>, state: ProcessingState, produced: Seq<LineView>) -> bool {
    if produced.len() == 0 {
        &&& state == ProcessingState::Start
        &&& segs.len() == 0
        &&& pending.len() == 0
    } else {
        &&& state != ProcessingState::Start
        &&& pending.len() > 0
        &&& runs(produced) == segs.push(SegmentView { segment_type: run_type(state), lines: pending })
    }
}

spec fn run_type(state: ProcessingState) -> SegmentType {
    if state == ProcessingState::InEqual {
        SegmentType::Equal
    } else {
        SegmentType::Diff
    }
}

proof fn lemma_all_lines_push(segs: Seq<SegmentView>, s: SegmentView)
    ensures
        all_lines(segs.push(s)) == all_lines(segs) + s.lines,
{
    assert(segs.push(s).drop_last() =~= segs);
}

proof fn lemma_extend_run(segs: Seq<SegmentView>, t: SegmentType, pending: Seq<LineView>, produced: Seq<LineView>, line: LineView)
    requires
        is_grouping(segs.push(SegmentView { segment_type: t, lines: pending }), produced),
        kind_of(line.diff_type) == t,
    ensures
        is_grouping(segs.push(SegmentView { segment_type: t, lines: pending.push(line) }), produced.push(line)),
{
    let old_s = segs.push(SegmentView { segment_type: t, lines: pending });
    let new_s = segs.push(SegmentView { segment_type: t, lines: pending.push(line) });
    lemma_all_lines_push(segs, SegmentView { segment_type: t, lines: pending });
    lemma_all_lines_push(segs, SegmentView { segment_type: t, lines: pending.push(line) });
    assert(all_lines(segs) + pending.push(line) =~= (all_lines(segs) + pending).push(line));
    assert forall|k: int| 0 <= k < new_s.len() implies (#[trigger] new_s[k]).lines.len() > 0 by {
        if k < segs.len() {
            assert(new_s[k] == old_s[k]);
        }
    }
    assert forall|k: int, l: int| 0 <= k < new_s.len() && 0 <= l < new_s[k].lines.len() implies kind_of(
        (#[trigger] new_s[k].lines[l]).diff_type,
    ) == new_s[k].segment_type by {
        if k < segs.len() {
            assert(new_s[k] == old_s[k]);
        } else if l < pending.len() {
            assert(new_s[k].lines[l] == old_s[k].lines[l]);
        }
    }
    assert forall|k: int, l: int| 0 <= k && l == k + 1 && l < new_s.len() implies (#[trigger] new_s[k]).segment_type
        != (#[trigger] new_s[l]).segment_type by {
        assert(new_s[k].segment_type == old_s[k].segment_type);
        assert(new_s[l].segment_type == old_s[l].segment_type);
    }
}

proof fn lemma_new_run(segs: Seq<SegmentView>, t: SegmentType, pending: Seq<LineView>, produced: Seq<LineView>, line: LineView)
    requires
        is_grouping(segs.push(SegmentView { segment_type: t, lines: pending }), produced),
        kind_of(line.diff_type) != t,
    ensures
        is_grouping(
            segs.push(SegmentView { segment_type: t, lines: pending }).push(
                SegmentView { segment_type: kind_of(line.diff_type), lines: seq![line] },
            ),
            produced.push(line),
        ),
{
    let old_s = segs.push(SegmentView { segment_type: t, lines: pending });
    let new_s = old_s.push(SegmentView { segment_type: kind_of(line.diff_type), lines: seq![line] });
    lemma_all_lines_push(old_s, SegmentView { segment_type: kind_of(line.diff_type), lines: seq![line] });
    assert(produced + seq![line] =~= produced.push(line));
    assert forall|k: int| 0 <= k < new_s.len() implies (#[trigger] new_s[k]).lines.len() > 0 by {
        if k < old_s.len() {
            assert(new_s[k] == old_s[k]);
        }
    }
    assert forall|k: int, l: int| 0 <= k < new_s.len() && 0 <= l < new_s[k].lines.len() implies kind_of(
        (#[trigger] new_s[k].lines[l]).diff_type,
    ) == new_s[k].segment_type by {
        if k < old_s.len() {
            assert(new_s[k] == old_s[k]);
        }
    }
    assert forall|k: int, l: int| 0 <= k && l == k + 1 && l < new_s.len() implies (#[trigger] new_s[k]).segment_type
        != (#[trigger] new_s[l]).segment_type by {
        if l < old_s.len() {
            assert(new_s[k] == old_s[k]);
            assert(new_s[l] == old_s[l]);
        } else {
            assert(new_s[k] == old_s[k]);
            assert(old_s[k].segment_type == t);
        }
    }
}

proof fn lemma_first_run(line: LineView)
    ensures
        is_grouping(
            Seq::<SegmentView>::empty().push(SegmentView { segment_type: kind_of(line.diff_type), lines: seq![line] }),
            Seq::<LineView>::empty().push(line),
        ),
{
    let s = Seq::<SegmentView>::empty().push(SegmentView { segment_type: kind_of(line.diff_type), lines: seq![line] });
    lemma_all_lines_push(Seq::<SegmentView>::empty(), SegmentView { segment_type: kind_of(line.diff_type), lines: seq![line] });
    assert(Seq::<LineView>::empty() + seq![line] =~= Seq::<LineView>::empty().push(line));
    assert(Seq::<SegmentView>::empty().len() == 0);
}

/// The lines of a file, all equal, form one run.
pub proof fn lemma_runs_of_equal_lines(a: Seq<Seq<char>>, k: int)
    requires
        1 <= k <= a.len(),
    ensures
        runs(equal_lines(a, 0).take(k)) == seq![SegmentView { segment_type: SegmentType::Equal, lines: equal_lines(a, 0).take(k) }],
    decreases k,
{
    let e = equal_lines(a, 0);
    assert(e.take(k).drop_last() =~= e.take(k - 1));
    assert(e.take(k).last() == e[k - 1]);
    assert(e[k - 1].diff_type == DiffType::Equal);
    if k == 1 {
        assert(e.take(0) =~= Seq::<LineView>::empty());
        assert(runs(e.take(0)) == Seq::<SegmentView>::empty());
        assert(seq![e[0]] =~= e.take(1));
        assert(runs(e.take(1)) =~= Seq::<SegmentView>::empty().push(
            SegmentView { segment_type: SegmentType::Equal, lines: seq![e[0]] }));
    } else {
        lemma_runs_of_equal_lines(a, k - 1);
        let prev = runs(e.take(k - 1));
        assert(prev.last().segment_type == SegmentType::Equal);
        assert(e.take(k - 1).push(e[k - 1]) =~= e.take(k));
        assert(prev.drop_last() =~= Seq::<SegmentView>::empty());
        assert(runs(e.take(k)) =~= Seq::<SegmentView>::empty().push(
            SegmentView { segment_type: SegmentType::Equal, lines: e.take(k - 1).push(e[k - 1]) }));
    }
}

/// Law: the runs of a line sequence are a grouping of it into maximal runs of
/// one kind: every segment is non-empty, all its lines have its type,
/// neighbouring segments differ in type, and together they hold the lines in
/// order.
pub proof fn lemma_runs_are_maximal(lines: Seq<LineView>)
    ensures
        is_grouping(runs(lines), lines),
    decreases lines.len(),
{
    if lines.len() == 0 {
        assert(runs(lines) == Seq::<SegmentView>::empty());
        assert(all_lines(runs(lines)) =~= lines);
    } else {
        let front = lines.drop_last();
        let x = lines.last();
        lemma_runs_are_maximal(front);
        assert(front.push(x) =~= lines);
        let prev = runs(front);
        if prev.len() == 0 {
            assert(all_lines(prev) == front);
            assert(front =~= Seq::<LineView>::empty());
            lemma_first_run(x);
            assert(prev =~= Seq::<SegmentView>::empty());
            assert(lines =~= Seq::<LineView>::empty().push(x));
            assert(runs(lines) == prev.push(SegmentView { segment_type: kind_of(x.diff_type), lines: seq![x] }));
            assert(is_grouping(runs(lines), lines));
        } else {
            let segs = prev.drop_last();
            let last = prev.last();
            assert(segs.push(last) =~= prev);
            assert(last == SegmentView { segment_type: last.segment_type, lines: last.lines });
            if last.segment_type == kind_of(x.diff_type) {
                lemma_extend_run(segs, last.segment_type, last.lines, front, x);
                assert(runs(lines) == segs.push(SegmentView { segment_type: last.segment_type, lines: last.lines.push(x) }));
                assert(is_grouping(runs(lines), lines));
            } else {
                lemma_new_run(segs, last.segment_type, last.lines, front, x);
                assert(runs(lines) == prev.push(SegmentView { segment_type: kind_of(x.diff_type), lines: seq![x] }));
                assert(is_grouping(runs(lines), lines));
            }
        }
    }
}

/// The state of the segment builder: nothing seen yet, inside a run of changed
/// lines, or inside a run of equal lines.
#[derive(PartialEq, Eq, Structural)]
enum ProcessingState {
    Start,
    InDiff,
    InEqual,
}

/// Closes the open run: pushes `lines` as a segment of the type that `state`
/// names, unless it is empty, and returns the state of the other run type.
fn collect(lines: &mut Vec<DiffLine>, state: ProcessingState, segments: &mut Vec<DiffSegment>) -> (next: ProcessingState)
    requires
        state != ProcessingState::Start,
    ensures
        final(lines)@.len() == 0,
        segments_view(final(segments)@) == (if old(lines)@.len() > 0 {
            segments_view(old(segments)@).push(
                SegmentView { segment_type: run_type(state), lines: lines_view(old(lines)@) },
            )
        } else {
            segments_view(old(segments)@)
        }),
        next == (if state == ProcessingState::InDiff {
            ProcessingState::InEqual
        } else {
            ProcessingState::InDiff
        }),
{
    let segment_type = match state {
        ProcessingState::InDiff => SegmentType::Diff,
        _ => SegmentType::Equal,
    };

    // Avoid adding an empty segment
    if lines.len() > 0 {
        let mut taken: Vec<DiffLine> = Vec::new();
        std::mem::swap(&mut taken, lines);
        segments.push(DiffSegment { segment_type, lines: taken });
        proof {
            assert(segments_view(segments@) =~= segments_view(old(segments)@).push(
                SegmentView { segment_type: run_type(state), lines: lines_view(old(lines)@) },
            ));
        }
    }
    match state {
        ProcessingState::InDiff => ProcessingState::InEqual,
        _ => ProcessingState::InDiff,
    }
}

/// Appends `line` to the open run, first closing the run when the line is of
/// the other kind.
fn push_line(
    lines: &mut Vec<DiffLine>,
    state: ProcessingState,
    segments: &mut Vec<DiffSegment>,
    line: DiffLine,
    Ghost(produced): Ghost<Seq<LineView>>,
) -> (next: ProcessingState)
    requires
        builds(segments_view(old(segments)@), lines_view(old(lines)@), state, produced),
    ensures
        builds(segments_view(final(segments)@), lines_view(final(lines)@), next, produced.push(line@)),
{
    let ghost line_v = line@;
    let is_equal = line.diff_type == DiffType::Equal;
    let mut next = state;
    if is_equal {
        if next == ProcessingState::Start {
            next = ProcessingState::InEqual;
        } else if next == ProcessingState::InDiff {
            next = collect(lines, next, segments);
        }
    } else {
        if next == ProcessingState::Start {
            next = ProcessingState::InDiff;
        } else if next == ProcessingState::InEqual {
            next = collect(lines, next, segments);
        }
    }
    proof {
        let segs0 = segments_view(old(segments)@);
        let pend0 = lines_view(old(lines)@);
        let grown = produced.push(line_v);
        assert(grown.drop_last() =~= produced);
        if produced.len() == 0 {
            assert(produced =~= Seq::<LineView>::empty());
            assert(segments_view(segments@) =~= Seq::<SegmentView>::empty());
            assert(runs(produced) == Seq::<SegmentView>::empty());
            assert(runs(grown) =~= seq![SegmentView { segment_type: kind_of(line_v.diff_type), lines: seq![line_v] }]);
        } else if run_type(state) == kind_of(line_v.diff_type) {
            let prev = segs0.push(SegmentView { segment_type: run_type(state), lines: pend0 });
            assert(prev.drop_last() =~= segs0);
            assert(runs(grown) == segs0.push(SegmentView { segment_type: run_type(state), lines: pend0.push(line_v) }));
        } else {
            let prev = segs0.push(SegmentView { segment_type: run_type(state), lines: pend0 });
            assert(runs(grown) == prev.push(SegmentView { segment_type: kind_of(line_v.diff_type), lines: seq![line_v] }));
            assert(segments_view(segments@) == prev);
        }
        assert(run_type(next) == kind_of(line_v.diff_type));
    }
    lines.push(line);
    proof {
        assert(lines_view(lines@) =~= lines_view(old(lines)@).push(line_v)
            || lines_view(lines@) =~= seq![line_v]);
        if produced.len() == 0 || run_type(state) != kind_of(line_v.diff_type) {
            assert(lines_view(lines@) =~= seq![line_v]);
        } else {
            assert(lines_view(lines@) =~= lines_view(old(lines)@).push(line_v));
        }
    }
    next
}

/// Closes the last open run.
fn finish(lines: &mut Vec<DiffLine>, state: ProcessingState, segments: &mut Vec<DiffSegment>, Ghost(produced): Ghost<Seq<LineView>>)
    requires
        builds(segments_view(old(segments)@), lines_view(old(lines)@), state, produced),
    ensures
        segments_view(final(segments)@) == runs(produced),
{
    if state != ProcessingState::Start {
        let _ = collect(lines, state, segments);
    } else {
        proof {
            assert(segments_view(segments@) =~= Seq::<SegmentView>::empty());
            assert(produced =~= Seq::<LineView>::empty());
        }
    }
}

/// The numbers given so far: distinct lines have distinct numbers, all
/// below `next`.
pub open spec fn numbering_holds(ids: Map<Seq<char>, usize>, next: usize) -> bool {
    &&& forall|l: Seq<char>| #[trigger] ids.contains_key(l) ==> ids[l] < next
    &&& forall|l1: Seq<char>, l2: Seq<char>|
        #[trigger] ids.contains_key(l1) && #[trigger] ids.contains_key(l2) && ids[l1] == ids[l2] ==> l1 == l2
}

/// Gives each line a number, the same for two lines exactly when they are
/// equal: the number of a line is looked up in a map from the lines seen so
/// far to their numbers, and a new line gets the next number.
fn intern_lines(first: &Vec<String>, second: &Vec<String>) -> (ids: (Vec<usize>, Vec<usize>))
    requires
        first.len() + second.len() < usize::MAX,
    ensures
        ids.0@.len() == first@.len(),
        ids.1@.len() == second@.len(),
        forall|x: int, y: int|
            0 <= x < first@.len() && 0 <= y < second@.len() ==> (#[trigger] ids.0@[x] == #[trigger] ids.1@[y]
                <==> first@[x]@ == second@[y]@),
{
    let mut numbers: StringHashMap<usize> = StringHashMap::new();
    let mut next: usize = 0;
    let mut first_ids: Vec<usize> = Vec::new();
    let mut k: usize = 0;
    while k < first.len()
        invariant
            0 <= k <= first.len(),
            first.len() + second.len() < usize::MAX,
            next <= k,
            numbering_holds(numbers@, next),
            first_ids@.len() == k,
            forall|x: int| 0 <= x < k ==> numbers@.contains_key(#[trigger] first@[x]@) && first_ids@[x] == numbers@[first@[x]@],
        decreases first.len() - k,
    {
        let ghost before = numbers@;
        let id = assign_id(&mut numbers, &mut next, &first[k]);
        first_ids.push(id);
        proof {
            assert forall|x: int| 0 <= x < k + 1 implies numbers@.contains_key(#[trigger] first@[x]@) && first_ids@[x]
                == numbers@[first@[x]@] by {
                if x < k {
                    assert(before.contains_key(first@[x]@));
                }
            }
        }
        k += 1;
    }
    let mut second_ids: Vec<usize> = Vec::new();
    let mut k: usize = 0;
    while k < second.len()
        invariant
            0 <= k <= second.len(),
            first.len() + second.len() < usize::MAX,
            next <= first.len() + k,
            numbering_holds(numbers@, next),
            first_ids@.len() == first.len(),
            second_ids@.len() == k,
            forall|x: int|
                0 <= x < first.len() ==> numbers@.contains_key(#[trigger] first@[x]@) && first_ids@[x] == numbers@[first@[x]@],
            forall|x: int| 0 <= x < k ==> numbers@.contains_key(#[trigger] second@[x]@) && second_ids@[x] == numbers@[second@[x]@],
        decreases second.len() - k,
    {
        let ghost before = numbers@;
        let id = assign_id(&mut numbers, &mut next, &second[k]);
        second_ids.push(id);
        proof {
            assert forall|x: int| 0 <= x < k + 1 implies numbers@.contains_key(#[trigger] second@[x]@) && second_ids@[x]
                == numbers@[second@[x]@] by {
                if x < k {
                    assert(before.contains_key(second@[x]@));
                }
            }
            assert forall|x: int| 0 <= x < first.len() implies numbers@.contains_key(#[trigger] first@[x]@) && first_ids@[x]
                == numbers@[first@[x]@] by {
                assert(before.contains_key(first@[x]@));
            }
        }
        k += 1;
    }
    proof {
        assert forall|x: int, y: int| 0 <= x < first@.len() && 0 <= y < second@.len() implies (
        #[trigger] first_ids@[x] == #[trigger] second_ids@[y] <==> first@[x]@ == second@[y]@) by {
            assert(numbers@.contains_key(first@[x]@));
            assert(numbers@.contains_key(second@[y]@));
        }
    }
    (first_ids, second_ids)
}

/// The number of `line`: the one it was given before, or `next`, which is
/// then recorded for it and advanced.
fn assign_id(numbers: &mut StringHashMap<usize>, next: &mut usize, line: &String) -> (id: usize)
    requires
        *old(next) < usize::MAX,
        numbering_holds(old(numbers)@, *old(next)),
    ensures
        numbering_holds(final(numbers)@, *final(next)),
        *old(next) <= *final(next) <= *old(next) + 1,
        final(numbers)@.contains_key(line@),
        id == final(numbers)@[line@],
        forall|l: Seq<char>| #[trigger] old(numbers)@.contains_key(l) ==> final(numbers)@.contains_key(l)
            && final(numbers)@[l] == old(numbers)@[l],
{
    match numbers.get(line.as_str()) {
        Some(id) => *id,
        None => {
            let id = *next;
            numbers.insert(line.clone(), id);
            *next = id + 1;
            id
        },
    }
}

/// Compares the contents of two files line by line.
///
/// The lines of a longest common subsequence are equal lines; before each of
/// them, the lines of the first file that are not in it are deletions, then
/// the lines of the second file that are not in it are insertions; after the
/// last, the rest of the first file is deleted and the rest of the second
/// inserted. The lines are cut into maximal runs of equal and of changed lines.
pub fn diff(first_lines: Vec<String>, second_lines: Vec<String>) -> (res: FileDiff)
    requires
        first_lines.len() < i32::MAX,
        second_lines.len() < i32::MAX,
        first_lines.len() * second_lines.len() * 4 <= isize::MAX,
    ensures
        res@ == runs(diff_lines(text_view(first_lines@), text_view(second_lines@))),
{
    let ghost ta = text_view(first_lines@);
    let ghost tb = text_view(second_lines@);
    let n = first_lines.len();
    let m = second_lines.len();

    if n == 0 && m == 0 {
        proof {
            assert(deleted_lines(ta, 0, 0) =~= Seq::<LineView>::empty());
            assert(inserted_lines(tb, 0, 0, 0) =~= Seq::<LineView>::empty());
            assert(diff_lines(ta, tb) =~= Seq::<LineView>::empty());
        }
        let segments: Vec<DiffSegment> = Vec::new();
        proof {
            assert(segments_view(segments@) =~= Seq::<SegmentView>::empty());
        }
        return FileDiff { segments };
    }

    let (first_ids, second_ids) = intern_lines(&first_lines, &second_lines);
    let ghost ia = first_ids@;
    let ghost ib = second_ids@;
    let result = longest_common_subsequence(first_ids, second_ids);
    let ghost ps = lcs_trace(ta, tb, n as int, m as int);
    proof {
        assert forall|x: int, y: int| 0 <= x < ia.len() && 0 <= y < ib.len() implies (ia[x] == ib[y] <==> ta[x]
            == tb[y]) by {
            assert(ta[x] == first_lines@[x]@);
            assert(tb[y] == second_lines@[y]@);
        }
        lemma_trace_respects_equality(ia, ib, ta, tb, n as int, m as int);
        lemma_trace_is_common_subsequence(ta, tb, n as int, m as int);
    }
    let lcs_len = result.lcs.len();

    // 'first' and 'second' are identical -- so there's no diff
    if lcs_len == n && lcs_len == m {
        proof {
            lemma_full_subsequence_is_diagonal(ta, tb, ps, n as int);
            assert forall|x: int| 0 <= x < n implies ta[x] == tb[x] by {
                assert(ps[x] == (x, x));
            }
            assert(ta =~= tb);
            lemma_diff_of_identical_files(ta);
        }
        let mut lines: Vec<DiffLine> = Vec::new();
        let mut idx: usize = 0;
        while idx < n
            invariant
                0 <= idx <= n,
                n == first_lines.len(),
                ta == text_view(first_lines@),
                lines_view(lines@) == equal_lines(ta, 0).take(idx as int),
            decreases n - idx,
        {
            lines.push(DiffLine { diff_type: DiffType::Equal, line_no: idx + 1, line: first_lines[idx].clone() });
            proof {
                let e = equal_lines(ta, 0);
                assert(ta[idx as int] == first_lines@[idx as int]@);
                assert(e[idx as int] == LineView { diff_type: DiffType::Equal, line_no: idx + 1, line: ta[idx as int] });
                assert(e.take(idx + 1) =~= e.take(idx as int).push(e[idx as int]));
                assert(lines_view(lines@) =~= e.take(idx + 1));
            }
            idx += 1;
        }
        let segments = vec![DiffSegment { segment_type: SegmentType::Equal, lines }];
        proof {
            let sv = segments_view(segments@);
            assert(lines_view(lines@) =~= equal_lines(ta, 0));
            lemma_runs_of_equal_lines(ta, n as int);
            assert(equal_lines(ta, 0).take(n as int) =~= equal_lines(ta, 0));
            assert(sv =~= seq![SegmentView { segment_type: SegmentType::Equal, lines: equal_lines(ta, 0) }]);
        }
        return FileDiff { segments };
    }

    let mut segments: Vec<DiffSegment> = Vec::new();
    let mut lines: Vec<DiffLine> = Vec::new();
    let mut state = ProcessingState::Start;
    let ghost total = diff_lines(ta, tb);
    let ghost mut produced: Seq<LineView> = seq![];
    let mut i: usize = 0;
    let mut j: usize = 0;

    proof {
        assert(ps.skip(0) =~= ps);
        assert(produced + edit_script(ta, tb, ps.skip(0), 0, 0) =~= total);
    }
    let mut k: usize = 0;
    while k < lcs_len
        invariant
            n == first_lines.len(),
            m == second_lines.len(),
            ta == text_view(first_lines@),
            tb == text_view(second_lines@),
            ps == lcs_trace(ta, tb, n as int, m as int),
            n < i32::MAX,
            m < i32::MAX,
            is_common_subsequence(ta, tb, ps, n as int, m as int),
            lcs_len == ps.len(),
            result.first_pos@ == crate::lcs::first_coords(ps),
            result.second_pos@ == crate::lcs::second_coords(ps),
            total == diff_lines(ta, tb),
            0 <= k <= lcs_len,
            i <= n,
            j <= m,
            k < lcs_len ==> i <= ps[k as int].0 && j <= ps[k as int].1,
            produced + edit_script(ta, tb, ps.skip(k as int), i as int, j as int) == total,
            builds(segments_view(segments@), lines_view(lines@), state, produced),
        decreases lcs_len - k,
    {
        let ghost base = produced;
        proof {
            assert(0 <= ps[k as int].0 < n && 0 <= ps[k as int].1 < m);
            assert(result.first_pos@[k as int] == ps[k as int].0 as i32);
            assert(result.second_pos@[k as int] == ps[k as int].1 as i32);
        }
        let p = result.first_pos[k] as usize;
        let q = result.second_pos[k] as usize;
        proof {
            assert(ps[k as int].0 == p && ps[k as int].1 == q);
            assert(ps.skip(k as int)[0] == ps[k as int]);
        }
        let i_start = i;

        /*
         * The 'first' file is considered the original state, while the 'second'
         * file is the new state.
         *
         * We treat any line in the 'first' list that isn't a part of the LCS as a
         * removal and any line in the 'second' as an addition. We keep processing
         * elements in 'first' and 'second' in order until we reach an element of
         * the LCS -- which marks the end of the current DIFF segment and the start
         * of a new EQUAL segment.
         */
        while i < p
            invariant
                n == first_lines.len(),
                ta == text_view(first_lines@),
                i_start <= i <= p < n,
                produced == base + deleted_lines(ta, i_start as int, i as int),
                builds(segments_view(segments@), lines_view(lines@), state, produced),
            decreases p - i,
        {
            let line = DiffLine { diff_type: DiffType::Delete, line_no: i + 1, line: first_lines[i].clone() };
            state = push_line(&mut lines, state, &mut segments, line, Ghost(produced));
            proof {
                produced = produced.push(line@);
                assert(base + deleted_lines(ta, i_start as int, i + 1) =~= produced);
            }
            i += 1;
        }

        let ghost after_deletes = produced;
        let j_start = j;
        while j < q
            invariant
                m == second_lines.len(),
                tb == text_view(second_lines@),
                i_start <= n < i32::MAX,
                j_start <= j <= q < m,
                produced == after_deletes + inserted_lines(tb, j_start as int, j as int, i_start as int),
                builds(segments_view(segments@), lines_view(lines@), state, produced),
            decreases q - j,
        {
            /*
             * we use 'i_start' here because the positions are anchored against the numbering of the
             * original file, and it would be the position prior to any deletions.
             */
            let line = DiffLine { diff_type: DiffType::Insert, line_no: i_start + 1, line: second_lines[j].clone() };
            state = push_line(&mut lines, state, &mut segments, line, Ghost(produced));
            proof {
                produced = produced.push(line@);
                assert(after_deletes + inserted_lines(tb, j_start as int, j + 1, i_start as int) =~= produced);
            }
            j += 1;
        }

        let line = DiffLine { diff_type: DiffType::Equal, line_no: p + 1, line: first_lines[p].clone() };
        state = push_line(&mut lines, state, &mut segments, line, Ghost(produced));
        proof {
            let e = LineView { diff_type: DiffType::Equal, line_no: p + 1, line: ta[p as int] };
            assert(line@ == e);
            produced = produced.push(line@);
            let rest = ps.skip(k as int);
            assert(rest.drop_first() =~= ps.skip(k + 1));
            assert(edit_script(ta, tb, rest, i_start as int, j_start as int) == deleted_lines(ta, i_start as int, p as int)
                + inserted_lines(tb, j_start as int, q as int, i_start as int) + seq![e] + edit_script(ta, tb, ps.skip(k + 1), p + 1, q + 1));
            assert(produced =~= base + (deleted_lines(ta, i_start as int, p as int)
                + inserted_lines(tb, j_start as int, q as int, i_start as int) + seq![e]));
            assert(produced + edit_script(ta, tb, ps.skip(k + 1), p + 1, q + 1) =~= base + edit_script(ta, tb, rest, i_start as int, j_start as int));
            if k + 1 < lcs_len {
                assert(ps[k as int].0 < ps[k + 1].0 && ps[k as int].1 < ps[k + 1].1);
            }
        }
        i = p + 1;
        j = q + 1;
        k += 1;
    }

    /*
     * Collect the remaining lines to finish out the segment. Handle the edge case where there
     * are still lines after the last LCS element and collect those as well.
     */
    let ghost base = produced;
    proof {
        assert(ps.skip(lcs_len as int) =~= Seq::<(int, int)>::empty());
    }
    let i_start = i;
    while i < n
        invariant
            n == first_lines.len(),
            ta == text_view(first_lines@),
            i_start <= i <= n,
            produced == base + deleted_lines(ta, i_start as int, i as int),
            builds(segments_view(segments@), lines_view(lines@), state, produced),
        decreases n - i,
    {
        let line = DiffLine { diff_type: DiffType::Delete, line_no: i + 1, line: first_lines[i].clone() };
        state = push_line(&mut lines, state, &mut segments, line, Ghost(produced));
        proof {
            produced = produced.push(line@);
            assert(base + deleted_lines(ta, i_start as int, i + 1) =~= produced);
        }
        i += 1;
    }

    let ghost after_deletes = produced;
    let j_start = j;
    while j < m
        invariant
            m == second_lines.len(),
            tb == text_view(second_lines@),
            i_start <= n < i32::MAX,
            j_start <= j <= m,
            produced == after_deletes + inserted_lines(tb, j_start as int, j as int, i_start as int),
            builds(segments_view(segments@), lines_view(lines@), state, produced),
        decreases m - j,
    {
        let line = DiffLine { diff_type: DiffType::Insert, line_no: i_start + 1, line: second_lines[j].clone() };
        state = push_line(&mut lines, state, &mut segments, line, Ghost(produced));
        proof {
            produced = produced.push(line@);
            assert(after_deletes + inserted_lines(tb, j_start as int, j + 1, i_start as int) =~= produced);
        }
        j += 1;
    }
    proof {
        assert(produced =~= base + edit_script(ta, tb, ps.skip(lcs_len as int), i_start as int, j_start as int));
        assert(produced =~= total);
    }
    finish(&mut lines, state, &mut segments, Ghost(produced));
    FileDiff { segments }
}

} // verus!
