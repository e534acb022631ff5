//! Three-way merge: the changes of two versions against their common original,
//! as found by the diff, are replayed line by line over the original; where
//! both versions change the same line in a way that cannot be reconciled, a
//! conflict is recorded.

use vstd::prelude::*;
use std::collections::HashMap;
use crate::lcs::{is_subsequence_of, lcs_trace, lemma_trace_is_common_subsequence, lemma_trace_of_subsequence_in_first, lemma_trace_of_subsequence_in_second};
use crate::diff::{
    diff, equal_lines, kind_of, lemma_runs_are_maximal, deleted_lines, inserted_lines, edit_script, lemma_diff_of_identical_files, lemma_runs_of_equal_lines, lines_view, runs, segments_view, text_view, diff_lines, DiffLine, DiffSegment, DiffType,
    FileDiff, LineView, SegmentType, SegmentView,
};

verus! {

broadcast use vstd::std_specs::hash::group_hash_axioms;

/// A piece of the merged file: lines both versions agree on, or a conflict
/// with the competing lines of each version.
#[derive(PartialEq)]
pub enum MergeSegment {
    Conflict { v1_changes: Vec<String>, v2_changes: Vec<String> },
    Lines { lines: Vec<String> },
}

/// The merged file, as a list of segments.
pub struct MergeResult {
    pub segments: Vec<MergeSegment>,
}

/// How a version changes a line of the original.
#[derive(Clone, Copy, PartialEq, Eq, Structural)]
pub enum LineModificationType {
    /// Inserting a net-new line into the original file.
    Insert,
    /// Removing a line from the original file.
    Delete,
    /// Replacing a line from the original file with a new line.
    /// This is a special case of INSERT followed by DELETE.
    Replace,
}

/// One change, keyed by the 1-based number of the original line it applies to.
#[derive(Clone)]
pub struct LineModification {
    pub mod_type: LineModificationType,
    pub line_no: usize,
    pub line: String,
}

/// A change as a mathematical value.
pub struct ModView {
    pub mod_type: LineModificationType,
    pub line_no: int,
    pub line: Seq<char>,
}

impl View for LineModification {
    type V = ModView;

    open spec fn view(&self) -> ModView {
        ModView { mod_type: self.mod_type, line_no: self.line_no as int, line: self.line@ }
    }
}

pub open spec fn mods_view(v: Seq<LineModification>) -> Seq<ModView> {
    v.map_values(|m: LineModification| m@)
}

/// A merge segment as a mathematical value.
pub enum MergeSegmentView {
    Conflict { v1: Seq<Seq<char>>, v2: Seq<Seq<char>> },
    Lines { lines: Seq<Seq<char>> },
}

impl View for MergeSegment {
    type V = MergeSegmentView;

    open spec fn view(&self) -> MergeSegmentView {
        match self {
            MergeSegment::Conflict { v1_changes, v2_changes } => MergeSegmentView::Conflict {
                v1: text_view(v1_changes@),
                v2: text_view(v2_changes@),
            },
            MergeSegment::Lines { lines } => MergeSegmentView::Lines { lines: text_view(lines@) },
        }
    }
}

pub open spec fn merge_segments_view(v: Seq<MergeSegment>) -> Seq<MergeSegmentView> {
    v.map_values(|s: MergeSegment| s@)
}

impl View for MergeResult {
    type V = Seq<MergeSegmentView>;

    open spec fn view(&self) -> Seq<MergeSegmentView> {
        merge_segments_view(self.segments@)
    }
}

// ---------------------------------------------------------------------------
// Categorising the lines of a diff into changes of the original.

/// The change of kind `t` that the diff line `l` stands for.
pub open spec fn mod_of(t: LineModificationType, l: LineView) -> ModView {
    ModView { mod_type: t, line_no: l.line_no, line: l.line }
}

/// Some line of `lines` is of kind `t`.
pub open spec fn has_line_type(lines: Seq<LineView>, t: DiffType) -> bool {
    exists|k: int| 0 <= k < lines.len() && (#[trigger] lines[k]).diff_type == t
}

/// The position of the first insertion in `lines` at or after `i`, or the
/// length of `lines` when there is none.
pub open spec fn first_insert(lines: Seq<LineView>, i: int) -> int
    decreases lines.len() - i,
{
    if i < 0 || i >= lines.len() {
        lines.len() as int
    } else if lines[i].diff_type == DiffType::Insert {
        i
    } else {
        first_insert(lines, i + 1)
    }
}

/// Replacements pairing the `k`-th line of `lines` with the line `b + k`
/// positions on, for `k < r`.
pub open spec fn replace_part(lines: Seq<LineView>, b: int, r: int) -> Seq<ModView> {
    Seq::new(
        r as nat,
        |k: int| ModView { mod_type: LineModificationType::Replace, line_no: lines[k].line_no, line: lines[b + k].line },
    )
}

/// The lines `from..to` of `lines`, each taken as a change of kind `t`.
pub open spec fn part_as(lines: Seq<LineView>, t: LineModificationType, from: int, to: int) -> Seq<ModView> {
    Seq::new((to - from) as nat, |k: int| mod_of(t, lines[from + k]))
}

/// The changes a segment of a diff stands for, in the order they are
/// recorded. A segment of equal lines stands for none. A segment without
/// deletions is all insertions, one without insertions all deletions.
/// Otherwise the leading deletions are paired, in order, with the insertions
/// after them into replacements of the deleted lines; the insertions left over
/// follow as insertions, then the deletions left over as deletions.
pub open spec fn segment_mods(seg: SegmentView) -> Seq<ModView> {
    let lines = seg.lines;
    if seg.segment_type == SegmentType::Equal {
        seq![]
    } else if !has_line_type(lines, DiffType::Delete) {
        part_as(lines, LineModificationType::Insert, 0, lines.len() as int)
    } else if !has_line_type(lines, DiffType::Insert) {
        part_as(lines, LineModificationType::Delete, 0, lines.len() as int)
    } else {
        let b = first_insert(lines, 0);
        let r = if b <= lines.len() - b { b } else { lines.len() - b };
        replace_part(lines, b, r) + part_as(lines, LineModificationType::Insert, b + r, lines.len() as int)
            + part_as(lines, LineModificationType::Delete, r, b)
    }
}

/// The changes of all segments, in order.
pub open spec fn all_mods(segs: Seq<SegmentView>) -> Seq<ModView>
    decreases segs.len(),
{
    if segs.len() == 0 {
        seq![]
    } else {
        all_mods(segs.drop_last()) + segment_mods(segs.last())
    }
}

/// The changes in `mods` keyed by `key`, in order.
pub open spec fn mods_at(mods: Seq<ModView>, key: int) -> Seq<ModView>
    decreases mods.len(),
{
    if mods.len() == 0 {
        seq![]
    } else if mods.last().line_no == key {
        mods_at(mods.drop_last(), key).push(mods.last())
    } else {
        mods_at(mods.drop_last(), key)
    }
}

/// `m` maps each key to the changes of `mods` under that key, and holds no
/// key without changes.
pub open spec fn categories_hold(m: Map<usize, Vec<LineModification>>, mods: Seq<ModView>) -> bool {
    &&& forall|k: usize| #[trigger] m.contains_key(k) <==> mods_at(mods, k as int).len() > 0
    &&& forall|k: usize| #[trigger] m.contains_key(k) ==> mods_view(m[k]@) == mods_at(mods, k as int)
}

proof fn lemma_mods_at_push(mods: Seq<ModView>, m: ModView, key: int)
    ensures
        mods_at(mods.push(m), key) == (if m.line_no == key {
            mods_at(mods, key).push(m)
        } else {
            mods_at(mods, key)
        }),
{
    assert(mods.push(m).drop_last() =~= mods);
}

proof fn lemma_categories_push(old_m: Map<usize, Vec<LineModification>>, new_m: Map<usize, Vec<LineModification>>, mods: Seq<ModView>, line: LineModification)
    requires
        categories_hold(old_m, mods),
        forall|k: usize| #[trigger] new_m.contains_key(k) == (old_m.contains_key(k) || k == line.line_no),
        forall|k: usize| k != line.line_no && #[trigger] old_m.contains_key(k) ==> new_m[k] == old_m[k],
        new_m[line.line_no]@ == (if old_m.contains_key(line.line_no) {
            old_m[line.line_no]@
        } else {
            Seq::<LineModification>::empty()
        }).push(line),
    ensures
        categories_hold(new_m, mods.push(line@)),
{
    assert forall|k: usize| #[trigger] new_m.contains_key(k) <==> mods_at(mods.push(line@), k as int).len() > 0 by {
        lemma_mods_at_push(mods, line@, k as int);
    }
    assert forall|k: usize| #[trigger] new_m.contains_key(k) implies mods_view(new_m[k]@) == mods_at(mods.push(line@), k as int) by {
        lemma_mods_at_push(mods, line@, k as int);
        if k == line.line_no {
            if old_m.contains_key(k) {
                assert(mods_view(new_m[k]@) =~= mods_view(old_m[k]@).push(line@));
            } else {
                assert(mods_at(mods, k as int).len() == 0);
                assert(mods_view(new_m[k]@) =~= seq![line@]);
                assert(mods_at(mods, k as int) =~= Seq::<ModView>::empty());
            }
        }
    }
}

/// Records `line` under `line_no`, after the changes already there.
fn add_to_map(map: &mut HashMap<usize, Vec<LineModification>>, line_no: usize, line: LineModification)
    requires
        line.line_no == line_no,
    ensures
        forall|k: usize| #[trigger] final(map)@.contains_key(k) == (old(map)@.contains_key(k) || k == line_no),
        forall|k: usize| k != line_no && #[trigger] old(map)@.contains_key(k) ==> final(map)@[k] == old(map)@[k],
        final(map)@[line_no]@ == (if old(map)@.contains_key(line_no) {
            old(map)@[line_no]@
        } else {
            Seq::<LineModification>::empty()
        }).push(line),
{
    match map.remove(&line_no) {
        Some(mut existing) => {
            existing.push(line);
            map.insert(line_no, existing);
        },
        None => {
            let mut fresh: Vec<LineModification> = Vec::new();
            fresh.push(line);
            map.insert(line_no, fresh);
        },
    }
}

/// Whether some line of `lines` is of kind `t`.
fn any_line_of_type(lines: &Vec<DiffLine>, t: DiffType) -> (res: bool)
    ensures
        res == has_line_type(lines_view(lines@), t),
{
    let mut k: usize = 0;
    while k < lines.len()
        invariant
            0 <= k <= lines@.len(),
            forall|x: int| 0 <= x < k ==> (#[trigger] lines@[x]).diff_type != t,
        decreases lines@.len() - k,
    {
        if lines[k].diff_type == t {
            assert(lines_view(lines@)[k as int].diff_type == t);
            return true;
        }
        k += 1;
    }
    proof {
        assert forall|x: int| 0 <= x < lines_view(lines@).len() implies (#[trigger] lines_view(lines@)[x]).diff_type != t by {
            assert(lines_view(lines@)[x] == lines@[x]@);
        }
    }
    false
}

/// The position of the first insertion in `lines`, or its length when there
/// is none.
fn find_insert_position(lines: &Vec<DiffLine>) -> (pos: usize)
    ensures
        pos == first_insert(lines_view(lines@), 0),
{
    let mut i: usize = 0;
    while i < lines.len() && lines[i].diff_type != DiffType::Insert
        invariant
            0 <= i <= lines@.len(),
            first_insert(lines_view(lines@), 0) == first_insert(lines_view(lines@), i as int),
        decreases lines@.len() - i,
    {
        proof {
            assert(lines_view(lines@)[i as int].diff_type != DiffType::Insert);
        }
        i += 1;
    }
    i
}

proof fn lemma_first_insert_bounds(lines: Seq<LineView>, i: int)
    requires
        0 <= i <= lines.len(),
    ensures
        i <= first_insert(lines, i) <= lines.len(),
        first_insert(lines, i) < lines.len() ==> lines[first_insert(lines, i)].diff_type == DiffType::Insert,
        forall|k: int| i <= k < first_insert(lines, i) ==> (#[trigger] lines[k]).diff_type != DiffType::Insert,
    decreases lines.len() - i,
{
    if i < lines.len() && lines[i].diff_type != DiffType::Insert {
        lemma_first_insert_bounds(lines, i + 1);
    }
}

/// Sorts the lines of `diff` into changes of the first file, keyed by the
/// number of the line they apply to; equal segments are skipped.
fn categorise(diff: &FileDiff) -> (result: HashMap<usize, Vec<LineModification>>)
    ensures
        categories_hold(result@, all_mods(diff@)),
{
    let mut result: HashMap<usize, Vec<LineModification>> = HashMap::new();
    let ghost segs = diff@;
    proof {
        assert(segs.take(0) =~= Seq::<SegmentView>::empty());
        assert(categories_hold(result@, all_mods(segs.take(0))));
    }
    let mut s: usize = 0;
    while s < diff.segments.len()
        invariant
            0 <= s <= diff.segments@.len(),
            segs == diff@,
            categories_hold(result@, all_mods(segs.take(s as int))),
        decreases diff.segments@.len() - s,
    {
        let seg = &diff.segments[s];
        let ghost lines = lines_view(seg.lines@);
        let ghost before = all_mods(segs.take(s as int));
        proof {
            assert(segs[s as int] == seg@);
            assert(segs.take(s + 1).drop_last() =~= segs.take(s as int));
            assert(all_mods(segs.take(s + 1)) == before + segment_mods(seg@));
        }
        if seg.segment_type == SegmentType::Equal {
            proof {
                assert(before + segment_mods(seg@) =~= before);
            }
        } else if !any_line_of_type(&seg.lines, DiffType::Delete) {
            // All lines in this diff are INSERT(s)
            add_all_as(&mut result, &seg.lines, LineModificationType::Insert, 0, seg.lines.len(), Ghost(before));
            proof {
                assert(before + part_as(lines, LineModificationType::Insert, 0, lines.len() as int) == before + segment_mods(seg@));
            }
        } else if !any_line_of_type(&seg.lines, DiffType::Insert) {
            // All lines in this diff are DELETE(s)
            add_all_as(&mut result, &seg.lines, LineModificationType::Delete, 0, seg.lines.len(), Ghost(before));
        } else {
            /*
             * Now comes the complicated part -- we've got both INSERT and DELETE types in this diff
             * segment, so that means that some of these will coalesce into a REPLACE type.
             *
             * We need to pair up the DELETE and INSERT lines to form a REPLACE line, and anything that
             * remains unpaired will be treated as a separate INSERT or DELETE line.
             */
            let len = seg.lines.len();
            let boundary = find_insert_position(&seg.lines);
            proof {
                lemma_first_insert_bounds(lines, 0);
            }
            let mut del_pos: usize = 0;
            let mut ins_pos: usize = boundary;
            while del_pos < boundary && ins_pos < len
                invariant
                    len == seg.lines@.len(),
                    lines == lines_view(seg.lines@),
                    boundary <= len,
                    0 <= del_pos <= boundary,
                    ins_pos == boundary + del_pos,
                    ins_pos <= len,
                    categories_hold(result@, before + replace_part(lines, boundary as int, del_pos as int)),
                decreases boundary - del_pos,
            {
                let line_no = seg.lines[del_pos].line_no;
                let line = seg.lines[ins_pos].line.clone();
                let m = LineModification { mod_type: LineModificationType::Replace, line_no, line };
                let ghost old_map = result@;
                add_to_map(&mut result, line_no, m);
                proof {
                    lemma_categories_push(old_map, result@, before + replace_part(lines, boundary as int, del_pos as int), m);
                    assert(m@ == ModView { mod_type: LineModificationType::Replace, line_no: lines[del_pos as int].line_no, line: lines[ins_pos as int].line });
                    assert((before + replace_part(lines, boundary as int, del_pos as int)).push(m@)
                        =~= before + replace_part(lines, boundary as int, del_pos + 1));
                }
                del_pos += 1;
                ins_pos += 1;
            }
            let r = del_pos;
            proof {
                assert(r == (if boundary <= len - boundary { boundary as int } else { len - boundary }));
            }
            let ghost with_replacements = before + replace_part(lines, boundary as int, r as int);
            add_all_as(&mut result, &seg.lines, LineModificationType::Insert, ins_pos, len, Ghost(with_replacements));
            let ghost with_inserts = with_replacements + part_as(lines, LineModificationType::Insert, ins_pos as int, len as int);
            add_all_as(&mut result, &seg.lines, LineModificationType::Delete, del_pos, boundary, Ghost(with_inserts));
            proof {
                assert(with_inserts + part_as(lines, LineModificationType::Delete, r as int, boundary as int)
                    =~= before + segment_mods(seg@));
            }
        }
        s += 1;
    }
    proof {
        assert(segs.take(segs.len() as int) =~= segs);
    }
    result
}

/// Records lines `from..to` of `lines`, each as a change of kind `t` under its
/// own line number.
fn add_all_as(
    map: &mut HashMap<usize, Vec<LineModification>>,
    lines: &Vec<DiffLine>,
    t: LineModificationType,
    from: usize,
    to: usize,
    Ghost(before): Ghost<Seq<ModView>>,
)
    requires
        from <= to <= lines@.len(),
        categories_hold(old(map)@, before),
    ensures
        categories_hold(final(map)@, before + part_as(lines_view(lines@), t, from as int, to as int)),
{
    let ghost lv = lines_view(lines@);
    let mut pos: usize = from;
    proof {
        assert(before + part_as(lv, t, from as int, from as int) =~= before);
    }
    while pos < to
        invariant
            from <= pos <= to <= lines@.len(),
            lv == lines_view(lines@),
            categories_hold(map@, before + part_as(lv, t, from as int, pos as int)),
        decreases to - pos,
    {
        let diff_line = &lines[pos];
        let m = LineModification { mod_type: t, line_no: diff_line.line_no, line: diff_line.line.clone() };
        let ghost old_map = map@;
        add_to_map(map, diff_line.line_no, m);
        proof {
            lemma_categories_push(old_map, map@, before + part_as(lv, t, from as int, pos as int), m);
            assert(m@ == mod_of(t, lv[pos as int]));
            assert((before + part_as(lv, t, from as int, pos as int)).push(m@) =~= before + part_as(lv, t, from as int, pos + 1));
        }
        pos += 1;
    }
}


// ---------------------------------------------------------------------------
// Replaying the changes of both versions over the original.

/// What the merge emits while it walks the original: a line for the merged
/// output, or a conflict between the lines of the two versions.
pub enum MergeEvent {
    Keep(Seq<char>),
    Clash(Seq<Seq<char>>, Seq<Seq<char>>),
}

/// Some change in `mods` is of kind `t`.
pub open spec fn has_mod_type(mods: Seq<ModView>, t: LineModificationType) -> bool {
    exists|k: int| 0 <= k < mods.len() && (#[trigger] mods[k]).mod_type == t
}

/// The lines of the changes of kind `t` in `mods`, in order.
pub open spec fn lines_of_type(mods: Seq<ModView>, t: LineModificationType) -> Seq<Seq<char>>
    decreases mods.len(),
{
    if mods.len() == 0 {
        seq![]
    } else if mods.last().mod_type == t {
        lines_of_type(mods.drop_last(), t).push(mods.last().line)
    } else {
        lines_of_type(mods.drop_last(), t)
    }
}

/// The lines that the insertions and replacements in `mods` bring, in order.
pub open spec fn changed_lines(mods: Seq<ModView>) -> Seq<Seq<char>>
    decreases mods.len(),
{
    if mods.len() == 0 {
        seq![]
    } else if mods.last().mod_type == LineModificationType::Insert || mods.last().mod_type
        == LineModificationType::Replace {
        changed_lines(mods.drop_last()).push(mods.last().line)
    } else {
        changed_lines(mods.drop_last())
    }
}

/// The original line at 0-based position `ln`, if there is one.
pub open spec fn original_lines_at(o: Seq<Seq<char>>, ln: int) -> Seq<Seq<char>> {
    if 0 <= ln < o.len() {
        seq![o[ln]]
    } else {
        seq![]
    }
}

/// Each line, emitted for the output.
pub open spec fn keep_all(lines: Seq<Seq<char>>) -> Seq<MergeEvent> {
    lines.map_values(|l: Seq<char>| MergeEvent::Keep(l))
}

/// The changes of `mods` under `key`, if there are any.
pub open spec fn category(mods: Seq<ModView>, key: int) -> Option<Seq<ModView>> {
    if mods_at(mods, key).len() > 0 {
        Some(mods_at(mods, key))
    } else {
        None
    }
}

/// What the merge emits at position `ln` of the original, given the changes
/// `c1` and `c2` of the two versions keyed by line `ln + 1`.
///
/// With changes from both versions, insertions on both sides or replacements
/// on both sides conflict: the conflict holds each side's inserted and
/// replacing lines, and the original line follows when neither side replaces
/// it. Without such a clash, the replacing lines of both versions and then
/// their inserted lines are emitted, version 1 before version 2 each time;
/// before the first line the insertions come first. With changes from one
/// version only, its inserted and replacing lines are emitted, then the
/// original line when its first change is an insertion. Without changes the
/// original line is emitted.
pub open spec fn step_events(o: Seq<Seq<char>>, c1: Option<Seq<ModView>>, c2: Option<Seq<ModView>>, ln: int) -> Seq<MergeEvent> {
    match (c1, c2) {
        (Some(v1), Some(v2)) => {
            if (has_mod_type(v1, LineModificationType::Insert) && has_mod_type(v2, LineModificationType::Insert))
                || (has_mod_type(v1, LineModificationType::Replace) && has_mod_type(v2, LineModificationType::Replace)) {
                seq![MergeEvent::Clash(changed_lines(v1), changed_lines(v2))] + (if !has_mod_type(
                    v1,
                    LineModificationType::Replace,
                ) && !has_mod_type(v2, LineModificationType::Replace) {
                    keep_all(original_lines_at(o, ln))
                } else {
                    seq![]
                })
            } else if ln == 0 {
                keep_all(
                    lines_of_type(v1, LineModificationType::Insert) + lines_of_type(v2, LineModificationType::Insert)
                        + lines_of_type(v1, LineModificationType::Replace) + lines_of_type(v2, LineModificationType::Replace),
                )
            } else {
                keep_all(
                    lines_of_type(v1, LineModificationType::Replace) + lines_of_type(v2, LineModificationType::Replace)
                        + lines_of_type(v1, LineModificationType::Insert) + lines_of_type(v2, LineModificationType::Insert),
                )
            }
        },
        (Some(v), None) | (None, Some(v)) => keep_all(changed_lines(v)) + (if v.len() > 0 && v[0].mod_type
            == LineModificationType::Insert {
            keep_all(original_lines_at(o, ln))
        } else {
            seq![]
        }),
        (None, None) => keep_all(original_lines_at(o, ln)),
    }
}

/// Everything the merge emits at positions `0..upto` of the original.
pub open spec fn merge_events(o: Seq<Seq<char>>, m1: Seq<ModView>, m2: Seq<ModView>, upto: int) -> Seq<MergeEvent>
    decreases upto,
{
    if upto <= 0 {
        seq![]
    } else {
        merge_events(o, m1, m2, upto - 1) + step_events(
            o,
            category(m1, upto),
            category(m2, upto),
            upto - 1,
        )
    }
}

/// Closes the open run of lines into a segment, unless it is empty.
pub open spec fn flush(segs: Seq<MergeSegmentView>, curr: Seq<Seq<char>>) -> Seq<MergeSegmentView> {
    if curr.len() > 0 {
        segs.push(MergeSegmentView::Lines { lines: curr })
    } else {
        segs
    }
}

/// The closed segments and the open run of lines after the events `evs`:
/// lines gather in the open run, a conflict closes it and follows it.
pub open spec fn fold_events(evs: Seq<MergeEvent>) -> (Seq<MergeSegmentView>, Seq<Seq<char>>)
    decreases evs.len(),
{
    if evs.len() == 0 {
        (seq![], seq![])
    } else {
        let prev = fold_events(evs.drop_last());
        match evs.last() {
            MergeEvent::Keep(l) => (prev.0, prev.1.push(l)),
            MergeEvent::Clash(a, b) => (flush(prev.0, prev.1).push(MergeSegmentView::Conflict { v1: a, v2: b }), seq![]),
        }
    }
}

/// The changes a version makes to the original, as the diff finds them.
pub open spec fn version_mods(o: Seq<Seq<char>>, v: Seq<Seq<char>>) -> Seq<ModView> {
    all_mods(runs(diff_lines(o, v)))
}

/// The merge of `v1` and `v2` against their common original `o`.
pub open spec fn merged(o: Seq<Seq<char>>, v1: Seq<Seq<char>>, v2: Seq<Seq<char>>) -> Seq<MergeSegmentView> {
    let r = fold_events(merge_events(o, version_mods(o, v1), version_mods(o, v2), (o.len() + 1) as int));
    flush(r.0, r.1)
}

proof fn lemma_fold_push(evs: Seq<MergeEvent>, e: MergeEvent)
    ensures
        fold_events(evs.push(e)) == (match e {
            MergeEvent::Keep(l) => (fold_events(evs).0, fold_events(evs).1.push(l)),
            MergeEvent::Clash(a, b) => (
                flush(fold_events(evs).0, fold_events(evs).1).push(MergeSegmentView::Conflict { v1: a, v2: b }),
                Seq::<Seq<char>>::empty(),
            ),
        }),
{
    assert(evs.push(e).drop_last() =~= evs);
}

proof fn lemma_fold_keep_all(evs: Seq<MergeEvent>, xs: Seq<Seq<char>>)
    ensures
        fold_events(evs + keep_all(xs)) == (fold_events(evs).0, fold_events(evs).1 + xs),
    decreases xs.len(),
{
    if xs.len() == 0 {
        assert(evs + keep_all(xs) =~= evs);
        assert(fold_events(evs).1 + xs =~= fold_events(evs).1);
    } else {
        lemma_fold_keep_all(evs, xs.drop_last());
        assert(evs + keep_all(xs) =~= (evs + keep_all(xs.drop_last())).push(MergeEvent::Keep(xs.last())));
        lemma_fold_push(evs + keep_all(xs.drop_last()), MergeEvent::Keep(xs.last()));
        assert(fold_events(evs).1 + xs.drop_last() + seq![xs.last()] =~= fold_events(evs).1 + xs);
        assert((fold_events(evs).1 + xs.drop_last()).push(xs.last()) =~= fold_events(evs).1 + xs);
    }
}

/// Whether some change in `lines` is of kind `t`.
fn has_type(lines: &Vec<LineModification>, t: LineModificationType) -> (res: bool)
    ensures
        res == has_mod_type(mods_view(lines@), t),
{
    let mut k: usize = 0;
    while k < lines.len()
        invariant
            0 <= k <= lines@.len(),
            forall|x: int| 0 <= x < k ==> (#[trigger] lines@[x]).mod_type != t,
        decreases lines@.len() - k,
    {
        if lines[k].mod_type == t {
            assert(mods_view(lines@)[k as int].mod_type == t);
            return true;
        }
        k += 1;
    }
    proof {
        assert forall|x: int| 0 <= x < mods_view(lines@).len() implies (#[trigger] mods_view(lines@)[x]).mod_type != t by {
            assert(mods_view(lines@)[x] == lines@[x]@);
        }
    }
    false
}

/// Appends the lines of the changes of kind `t` in `lines` to `out`.
fn push_lines_of_type(out: &mut Vec<String>, lines: &Vec<LineModification>, t: LineModificationType)
    ensures
        text_view(final(out)@) == text_view(old(out)@) + lines_of_type(mods_view(lines@), t),
{
    let ghost mv = mods_view(lines@);
    let mut k: usize = 0;
    proof {
        assert(mv.take(0) =~= Seq::<ModView>::empty());
        assert(text_view(out@) + lines_of_type(mv.take(0), t) =~= text_view(out@));
    }
    while k < lines.len()
        invariant
            0 <= k <= lines@.len(),
            mv == mods_view(lines@),
            text_view(out@) == text_view(old(out)@) + lines_of_type(mv.take(k as int), t),
        decreases lines@.len() - k,
    {
        proof {
            assert(mv.take(k + 1).drop_last() =~= mv.take(k as int));
            assert(mv.take(k + 1).last() == lines@[k as int]@);
        }
        if lines[k].mod_type == t {
            let ghost prev = text_view(out@);
            out.push(lines[k].line.clone());
            proof {
                assert(text_view(out@) =~= prev.push(lines@[k as int].line@));
                assert(lines_of_type(mv.take(k + 1), t) == lines_of_type(mv.take(k as int), t).push(lines@[k as int].line@));
                assert(text_view(out@) =~= text_view(old(out)@) + lines_of_type(mv.take(k + 1), t));
            }
        }
        k += 1;
    }
    proof {
        assert(mv.take(lines@.len() as int) =~= mv);
    }
}

/// The lines that the insertions and replacements in `lines` bring.
fn changed(lines: &Vec<LineModification>) -> (res: Vec<String>)
    ensures
        text_view(res@) == changed_lines(mods_view(lines@)),
{
    let mut res: Vec<String> = Vec::new();
    append(&mut res, lines);
    proof {
        assert(text_view(Seq::<String>::empty()) =~= Seq::<Seq<char>>::empty());
        assert(Seq::<Seq<char>>::empty() + changed_lines(mods_view(lines@)) =~= changed_lines(mods_view(lines@)));
    }
    res
}

/// Appends the lines that the insertions and replacements in `lines` bring.
fn append(curr_lines: &mut Vec<String>, lines: &Vec<LineModification>)
    ensures
        text_view(final(curr_lines)@) == text_view(old(curr_lines)@) + changed_lines(mods_view(lines@)),
{
    let ghost mv = mods_view(lines@);
    let mut k: usize = 0;
    proof {
        assert(mv.take(0) =~= Seq::<ModView>::empty());
        assert(text_view(curr_lines@) + changed_lines(mv.take(0)) =~= text_view(curr_lines@));
    }
    while k < lines.len()
        invariant
            0 <= k <= lines@.len(),
            mv == mods_view(lines@),
            text_view(curr_lines@) == text_view(old(curr_lines)@) + changed_lines(mv.take(k as int)),
        decreases lines@.len() - k,
    {
        proof {
            assert(mv.take(k + 1).drop_last() =~= mv.take(k as int));
            assert(mv.take(k + 1).last() == lines@[k as int]@);
        }
        let m = &lines[k];
        if m.mod_type == LineModificationType::Insert || m.mod_type == LineModificationType::Replace {
            let ghost prev = text_view(curr_lines@);
            curr_lines.push(m.line.clone());
            proof {
                assert(text_view(curr_lines@) =~= prev.push(lines@[k as int].line@));
                assert(changed_lines(mv.take(k + 1)) == changed_lines(mv.take(k as int)).push(lines@[k as int].line@));
                assert(text_view(curr_lines@) =~= text_view(old(curr_lines)@) + changed_lines(mv.take(k + 1)));
            }
        }
        k += 1;
    }
    proof {
        assert(mv.take(lines@.len() as int) =~= mv);
    }
}

/// Appends the original line at position `line_no`, if there is one.
fn add_original_line(line_no: usize, curr_lines: &mut Vec<String>, original_lines: &Vec<String>)
    ensures
        text_view(final(curr_lines)@) == text_view(old(curr_lines)@) + original_lines_at(text_view(original_lines@), line_no as int),
{
    if line_no < original_lines.len() {
        curr_lines.push(original_lines[line_no].clone());
        proof {
            assert(text_view(curr_lines@) =~= text_view(old(curr_lines)@) + original_lines_at(text_view(original_lines@), line_no as int));
        }
    } else {
        proof {
            assert(text_view(curr_lines@) =~= text_view(old(curr_lines)@) + original_lines_at(text_view(original_lines@), line_no as int));
        }
    }
}

/// Closes the open run of lines into a segment, unless it is empty.
fn collect(curr_lines: &mut Vec<String>, segments: &mut Vec<MergeSegment>)
    ensures
        final(curr_lines)@.len() == 0,
        merge_segments_view(final(segments)@) == flush(merge_segments_view(old(segments)@), text_view(old(curr_lines)@)),
{
    if curr_lines.len() > 0 {
        let mut taken: Vec<String> = Vec::new();
        std::mem::swap(&mut taken, curr_lines);
        segments.push(MergeSegment::Lines { lines: taken });
        proof {
            assert(merge_segments_view(segments@) =~= flush(merge_segments_view(old(segments)@), text_view(old(curr_lines)@)));
        }
    } else {
        proof {
            assert(text_view(old(curr_lines)@) =~= Seq::<Seq<char>>::empty());
        }
    }
}

/// A copy of a list of lines.
fn copy_lines(lines: &Vec<String>) -> (res: Vec<String>)
    ensures
        res@ == lines@,
{
    let mut res: Vec<String> = Vec::new();
    let mut k: usize = 0;
    while k < lines.len()
        invariant
            0 <= k <= lines@.len(),
            res@ == lines@.take(k as int),
        decreases lines@.len() - k,
    {
        res.push(lines[k].clone());
        proof {
            assert(res@ =~= lines@.take(k + 1));
        }
        k += 1;
    }
    proof {
        assert(lines@.take(lines@.len() as int) =~= lines@);
    }
    res
}

/// Merges changes from two sets of lines (`v1_lines` and `v2_lines`) based on
/// an original set of lines (`original_lines`), recording a conflict where both
/// modify the same line of the original in a way that cannot be reconciled.
///
/// The original is walked from its first line to one past its last. At each
/// position the changes each version makes there, as found by diffing it
/// against the original, decide what goes to the output (see `step_events`);
/// the lines gather into `Lines` segments that conflicts interrupt.
#[verifier::rlimit(40)]
pub fn merge(original_lines: &Vec<String>, v1_lines: &Vec<String>, v2_lines: &Vec<String>) -> (res: MergeResult)
    requires
        original_lines.len() < i32::MAX,
        v1_lines.len() < i32::MAX,
        v2_lines.len() < i32::MAX,
        original_lines.len() * v1_lines.len() * 4 <= isize::MAX,
        original_lines.len() * v2_lines.len() * 4 <= isize::MAX,
    ensures
        res@ == merged(text_view(original_lines@), text_view(v1_lines@), text_view(v2_lines@)),
{
    let n = original_lines.len();
    let ghost o = text_view(original_lines@);
    let ghost m1 = version_mods(o, text_view(v1_lines@));
    let ghost m2 = version_mods(o, text_view(v2_lines@));

    let v1_diff = diff(copy_lines(original_lines), copy_lines(v1_lines));
    let v2_diff = diff(copy_lines(original_lines), copy_lines(v2_lines));

    let v1_categories = categorise(&v1_diff);
    let v2_categories = categorise(&v2_diff);

    let mut segments: Vec<MergeSegment> = Vec::new();
    let mut curr_lines: Vec<String> = Vec::new();

    proof {
        assert(merge_segments_view(segments@) =~= Seq::<MergeSegmentView>::empty());
        assert(text_view(curr_lines@) =~= Seq::<Seq<char>>::empty());
    }
    let mut line_no: usize = 0;
    while line_no <= n
        invariant
            n == original_lines.len(),
            n < i32::MAX,
            o == text_view(original_lines@),
            0 <= line_no <= n + 1,
            categories_hold(v1_categories@, m1),
            categories_hold(v2_categories@, m2),
            (merge_segments_view(segments@), text_view(curr_lines@)) == fold_events(merge_events(o, m1, m2, line_no as int)),
        decreases n + 1 - line_no,
    {
        let key = line_no + 1;
        let ghost before = merge_events(o, m1, m2, line_no as int);
        let ghost segs0 = merge_segments_view(segments@);
        let ghost curr0 = text_view(curr_lines@);
        let ghost c1 = category(m1, key as int);
        let ghost c2 = category(m2, key as int);
        let v1_lines = v1_categories.get(&key);
        let v2_lines = v2_categories.get(&key);
        proof {
            assert(merge_events(o, m1, m2, line_no + 1) == before + step_events(o, c1, c2, line_no as int));
            assert(v1_lines.is_some() == c1.is_some());
            assert(v2_lines.is_some() == c2.is_some());
            if v1_lines.is_some() {
                assert(mods_view(v1_lines.unwrap()@) == c1.unwrap());
            }
            if v2_lines.is_some() {
                assert(mods_view(v2_lines.unwrap()@) == c2.unwrap());
            }
        }

        if v1_lines.is_some() && v2_lines.is_some() {
            let v1m = v1_lines.unwrap();
            let v2m = v2_lines.unwrap();

            /*
             * Conflict conditions.
             *
             * Inserts conflict with each other, due to a lack of a good reconciliation strategy.
             * It is definitely possible to auto-resolve via some combination, e.g. accept both and
             * just concatenate, but that likely causes more problems than it solves.
             *
             * Replaces directly conflict each other, as they replace the same line in the original
             * to two different lines.
             */
            if (has_type(v1m, LineModificationType::Insert) && has_type(v2m, LineModificationType::Insert))
                || (has_type(v1m, LineModificationType::Replace) && has_type(v2m, LineModificationType::Replace)) {
                collect(&mut curr_lines, &mut segments);

                let no_replace = !has_type(v1m, LineModificationType::Replace) && !has_type(v2m, LineModificationType::Replace);
                let v1_filtered = changed(v1m);
                let v2_filtered = changed(v2m);
                let ghost clash = MergeEvent::Clash(text_view(v1_filtered@), text_view(v2_filtered@));
                segments.push(MergeSegment::Conflict { v1_changes: v1_filtered, v2_changes: v2_filtered });
                proof {
                    lemma_fold_push(before, clash);
                    assert(merge_segments_view(segments@) =~= flush(segs0, curr0).push(
                        MergeSegmentView::Conflict { v1: changed_lines(c1.unwrap()), v2: changed_lines(c2.unwrap()) }));
                }
                if no_replace {
                    add_original_line(line_no, &mut curr_lines, original_lines);
                    proof {
                        lemma_fold_keep_all(before.push(clash), original_lines_at(o, line_no as int));
                        assert(before + step_events(o, c1, c2, line_no as int) =~= before.push(clash) + keep_all(
                            original_lines_at(o, line_no as int)));
                        assert(text_view(curr_lines@) =~= Seq::<Seq<char>>::empty() + original_lines_at(o, line_no as int));
                    }
                } else {
                    proof {
                        assert(before + step_events(o, c1, c2, line_no as int) =~= before.push(clash));
                    }
                }
            } else {
                /*
                 * It cannot be the case that both v1Lines and v2Lines contain the same type, as that
                 * would be a merge conflict -- but the code below is written like this, so we
                 * don't need to do a bunch of if-else(s) based on whether the INSERT or REPLACE is
                 * in v1Lines or v2Lines.
                 *
                 * Handle REPLACE first, then INSERT to preserve correct ordering -- except for
                 * the first line where we need to do the INSERT(s) first, since they are actually
                 * inserting *before* the first line.
                 */
                let ghost i1 = lines_of_type(c1.unwrap(), LineModificationType::Insert);
                let ghost i2 = lines_of_type(c2.unwrap(), LineModificationType::Insert);
                let ghost r1 = lines_of_type(c1.unwrap(), LineModificationType::Replace);
                let ghost r2 = lines_of_type(c2.unwrap(), LineModificationType::Replace);
                if line_no == 0 {
                    push_lines_of_type(&mut curr_lines, v1m, LineModificationType::Insert);
                    push_lines_of_type(&mut curr_lines, v2m, LineModificationType::Insert);
                    push_lines_of_type(&mut curr_lines, v1m, LineModificationType::Replace);
                    push_lines_of_type(&mut curr_lines, v2m, LineModificationType::Replace);
                    proof {
                        lemma_fold_keep_all(before, i1 + i2 + r1 + r2);
                        assert(text_view(curr_lines@) =~= curr0 + (i1 + i2 + r1 + r2));
                    }
                } else {
                    push_lines_of_type(&mut curr_lines, v1m, LineModificationType::Replace);
                    push_lines_of_type(&mut curr_lines, v2m, LineModificationType::Replace);
                    push_lines_of_type(&mut curr_lines, v1m, LineModificationType::Insert);
                    push_lines_of_type(&mut curr_lines, v2m, LineModificationType::Insert);
                    proof {
                        lemma_fold_keep_all(before, r1 + r2 + i1 + i2);
                        assert(text_view(curr_lines@) =~= curr0 + (r1 + r2 + i1 + i2));
                    }
                }
            }
        } else if v1_lines.is_some() || v2_lines.is_some() {
            let lines = if v1_lines.is_some() { v1_lines.unwrap() } else { v2_lines.unwrap() };
            let ghost v = mods_view(lines@);
            let ghost ch = changed_lines(v);
            append(&mut curr_lines, lines);

            /*
             * When handling an INSERT line, the original line should still be
             * retained as well.
             */
            if lines.len() > 0 && lines[0].mod_type == LineModificationType::Insert {
                add_original_line(line_no, &mut curr_lines, original_lines);
                proof {
                    assert(v[0] == lines@[0]@);
                    let orig = original_lines_at(o, line_no as int);
                    lemma_fold_keep_all(before, ch);
                    lemma_fold_keep_all(before + keep_all(ch), orig);
                    assert(before + step_events(o, c1, c2, line_no as int) =~= before + keep_all(ch) + keep_all(orig));
                    assert(text_view(curr_lines@) =~= curr0 + ch + orig);
                }
            } else {
                proof {
                    if lines@.len() > 0 {
                        assert(v[0] == lines@[0]@);
                    }
                    lemma_fold_keep_all(before, ch);
                    assert(before + step_events(o, c1, c2, line_no as int) =~= before + keep_all(ch));
                }
            }
        } else {
            add_original_line(line_no, &mut curr_lines, original_lines);
            proof {
                lemma_fold_keep_all(before, original_lines_at(o, line_no as int));
            }
        }
        line_no += 1;
    }

    collect(&mut curr_lines, &mut segments);
    MergeResult { segments }
}

// ---------------------------------------------------------------------------
// Laws of the merge.

/// A version identical to the original changes nothing.
pub proof fn lemma_unchanged_version_has_no_mods(o: Seq<Seq<char>>)
    ensures
        version_mods(o, o) == Seq::<ModView>::empty(),
{
    lemma_diff_of_identical_files(o);
    let e = equal_lines(o, 0);
    if o.len() == 0 {
        assert(e =~= Seq::<LineView>::empty());
        assert(runs(e) == Seq::<SegmentView>::empty());
    } else {
        lemma_runs_of_equal_lines(o, o.len() as int);
        assert(e.take(o.len() as int) =~= e);
        let r = runs(e);
        assert(r.drop_last() =~= Seq::<SegmentView>::empty());
        assert(all_mods(r.drop_last()) == Seq::<ModView>::empty());
        assert(r.last().segment_type == SegmentType::Equal);
        assert(segment_mods(r.last()) == Seq::<ModView>::empty());
        assert(all_mods(r) =~= Seq::<ModView>::empty());
    }
}

proof fn lemma_mods_at_empty(key: int)
    ensures
        mods_at(Seq::<ModView>::empty(), key) == Seq::<ModView>::empty(),
{
}

/// With no changes on one side, the merge emits no conflict.
proof fn lemma_one_sided_events(o: Seq<Seq<char>>, m1: Seq<ModView>, m2: Seq<ModView>, upto: int)
    requires
        m1.len() == 0 || m2.len() == 0,
    ensures
        forall|i: int| 0 <= i < merge_events(o, m1, m2, upto).len() ==> (#[trigger] merge_events(o, m1, m2, upto)[i]) is Keep,
    decreases upto,
{
    if upto > 0 {
        lemma_one_sided_events(o, m1, m2, upto - 1);
        let prev = merge_events(o, m1, m2, upto - 1);
        let c1 = category(m1, upto);
        let c2 = category(m2, upto);
        if m1.len() == 0 {
            assert(m1 =~= Seq::<ModView>::empty());
            lemma_mods_at_empty(upto);
            assert(c1 is None);
        } else {
            assert(m2 =~= Seq::<ModView>::empty());
            lemma_mods_at_empty(upto);
            assert(c2 is None);
        }
        let step = step_events(o, c1, c2, upto - 1);
        assert forall|i: int| 0 <= i < step.len() implies (#[trigger] step[i]) is Keep by {
            match (c1, c2) {
                (Some(v), None) | (None, Some(v)) => {
                    let a = keep_all(changed_lines(v));
                    if i < a.len() {
                        assert(step[i] == a[i]);
                    } else {
                        let b = step.skip(a.len() as int);
                        assert(step[i] == b[i - a.len()]);
                    }
                },
                _ => {},
            }
        }
        let all = merge_events(o, m1, m2, upto);
        assert forall|i: int| 0 <= i < all.len() implies (#[trigger] all[i]) is Keep by {
            if i < prev.len() {
                assert(all[i] == prev[i]);
            } else {
                assert(all[i] == step[i - prev.len()]);
            }
        }
    }
}

/// Without conflicts, no segment is closed before the end.
proof fn lemma_fold_without_clash(evs: Seq<MergeEvent>)
    requires
        forall|i: int| 0 <= i < evs.len() ==> (#[trigger] evs[i]) is Keep,
    ensures
        fold_events(evs).0 == Seq::<MergeSegmentView>::empty(),
    decreases evs.len(),
{
    if evs.len() > 0 {
        let front = evs.drop_last();
        assert forall|i: int| 0 <= i < front.len() implies (#[trigger] front[i]) is Keep by {
            assert(front[i] == evs[i]);
        }
        lemma_fold_without_clash(front);
        assert(evs[evs.len() - 1] is Keep);
    }
}

/// Law: when one of the two versions leaves the original as it is, the merge
/// has no conflict: it is at most one segment of lines.
pub proof fn lemma_one_sided_merge_has_no_conflict(o: Seq<Seq<char>>, v: Seq<Seq<char>>)
    ensures
        merged(o, o, v).len() <= 1,
        forall|k: int| 0 <= k < merged(o, o, v).len() ==> #[trigger] merged(o, o, v)[k] is Lines,
        merged(o, v, o).len() <= 1,
        forall|k: int| 0 <= k < merged(o, v, o).len() ==> #[trigger] merged(o, v, o)[k] is Lines,
{
    lemma_unchanged_version_has_no_mods(o);
    let upto = (o.len() + 1) as int;
    lemma_one_sided_events(o, version_mods(o, o), version_mods(o, v), upto);
    lemma_one_sided_events(o, version_mods(o, v), version_mods(o, o), upto);
    lemma_fold_without_clash(merge_events(o, version_mods(o, o), version_mods(o, v), upto));
    lemma_fold_without_clash(merge_events(o, version_mods(o, v), version_mods(o, o), upto));
}

/// With no changes on either side, the merge walks the original line by line.
proof fn lemma_no_change_events(o: Seq<Seq<char>>, upto: int)
    requires
        0 <= upto <= o.len() + 1,
    ensures
        merge_events(o, Seq::<ModView>::empty(), Seq::<ModView>::empty(), upto) == keep_all(
            o.take(if upto <= o.len() { upto } else { o.len() as int }),
        ),
    decreases upto,
{
    let none = Seq::<ModView>::empty();
    if upto == 0 {
        assert(o.take(0) =~= Seq::<Seq<char>>::empty());
        assert(keep_all(o.take(0)) =~= Seq::<MergeEvent>::empty());
    } else {
        lemma_no_change_events(o, upto - 1);
        lemma_mods_at_empty(upto);
        assert(category(none, upto) is None);
        let ln = upto - 1;
        if ln < o.len() {
            assert(o.take(ln) + seq![o[ln]] =~= o.take(upto));
            assert(keep_all(o.take(ln)) + keep_all(original_lines_at(o, ln)) =~= keep_all(o.take(upto)));
        } else {
            assert(keep_all(original_lines_at(o, ln)) =~= Seq::<MergeEvent>::empty());
            assert(keep_all(o.take(o.len() as int)) + keep_all(original_lines_at(o, ln)) =~= keep_all(o.take(o.len() as int)));
        }
    }
}

/// Law: merging two versions that both leave the original as it is gives the
/// original back, as one segment of lines (none for an empty original).
pub proof fn lemma_merge_of_unchanged_versions(o: Seq<Seq<char>>)
    ensures
        merged(o, o, o) == (if o.len() > 0 {
            seq![MergeSegmentView::Lines { lines: o }]
        } else {
            Seq::<MergeSegmentView>::empty()
        }),
{
    lemma_unchanged_version_has_no_mods(o);
    lemma_no_change_events(o, (o.len() + 1) as int);
    assert(o.take(o.len() as int) =~= o);
    lemma_fold_keep_all(Seq::<MergeEvent>::empty(), o);
    assert(Seq::<MergeEvent>::empty() + keep_all(o) =~= keep_all(o));
    assert(Seq::<Seq<char>>::empty() + o =~= o);
}

/// The segment with the two sides of a conflict exchanged.
pub open spec fn swap_sides(s: MergeSegmentView) -> MergeSegmentView {
    match s {
        MergeSegmentView::Conflict { v1, v2 } => MergeSegmentView::Conflict { v1: v2, v2: v1 },
        MergeSegmentView::Lines { lines } => MergeSegmentView::Lines { lines },
    }
}

/// The segments with the two sides of every conflict exchanged.
pub open spec fn swap_conflicts(segs: Seq<MergeSegmentView>) -> Seq<MergeSegmentView> {
    segs.map_values(|s: MergeSegmentView| swap_sides(s))
}

/// The event with the two sides of a clash exchanged.
pub open spec fn swap_event(e: MergeEvent) -> MergeEvent {
    match e {
        MergeEvent::Clash(a, b) => MergeEvent::Clash(b, a),
        MergeEvent::Keep(l) => MergeEvent::Keep(l),
    }
}

pub open spec fn swap_events(evs: Seq<MergeEvent>) -> Seq<MergeEvent> {
    evs.map_values(|e: MergeEvent| swap_event(e))
}

proof fn lemma_swap_events_concat(x: Seq<MergeEvent>, y: Seq<MergeEvent>)
    ensures
        swap_events(x + y) == swap_events(x) + swap_events(y),
{
    assert(swap_events(x + y) =~= swap_events(x) + swap_events(y));
}

proof fn lemma_swap_keep_all(xs: Seq<Seq<char>>)
    ensures
        swap_events(keep_all(xs)) == keep_all(xs),
{
    assert(swap_events(keep_all(xs)) =~= keep_all(xs));
}

proof fn lemma_no_lines_of_absent_type(mods: Seq<ModView>, t: LineModificationType)
    requires
        !has_mod_type(mods, t),
    ensures
        lines_of_type(mods, t) == Seq::<Seq<char>>::empty(),
    decreases mods.len(),
{
    if mods.len() > 0 {
        let front = mods.drop_last();
        assert(!has_mod_type(front, t)) by {
            if has_mod_type(front, t) {
                let k = choose|k: int| 0 <= k < front.len() && (#[trigger] front[k]).mod_type == t;
                assert(mods[k] == front[k]);
            }
        }
        assert(mods[mods.len() - 1].mod_type != t);
        lemma_no_lines_of_absent_type(front, t);
    }
}

/// Exchanging the two versions' changes at one position exchanges the sides
/// of what is emitted there and changes nothing else.
proof fn lemma_step_events_swap(o: Seq<Seq<char>>, c1: Option<Seq<ModView>>, c2: Option<Seq<ModView>>, ln: int)
    ensures
        step_events(o, c2, c1, ln) == swap_events(step_events(o, c1, c2, ln)),
{
    match (c1, c2) {
        (Some(v1), Some(v2)) => {
            let ins = LineModificationType::Insert;
            let rep = LineModificationType::Replace;
            if (has_mod_type(v1, ins) && has_mod_type(v2, ins)) || (has_mod_type(v1, rep) && has_mod_type(v2, rep)) {
                let tail = if !has_mod_type(v1, rep) && !has_mod_type(v2, rep) {
                    keep_all(original_lines_at(o, ln))
                } else {
                    seq![]
                };
                lemma_swap_events_concat(seq![MergeEvent::Clash(changed_lines(v1), changed_lines(v2))], tail);
                lemma_swap_keep_all(original_lines_at(o, ln));
                assert(swap_events(seq![MergeEvent::Clash(changed_lines(v1), changed_lines(v2))]) =~= seq![
                    MergeEvent::Clash(changed_lines(v2), changed_lines(v1)),
                ]);
                assert(swap_events(Seq::<MergeEvent>::empty()) =~= Seq::<MergeEvent>::empty());
            } else {
                if !has_mod_type(v1, ins) {
                    lemma_no_lines_of_absent_type(v1, ins);
                } else {
                    lemma_no_lines_of_absent_type(v2, ins);
                }
                if !has_mod_type(v1, rep) {
                    lemma_no_lines_of_absent_type(v1, rep);
                } else {
                    lemma_no_lines_of_absent_type(v2, rep);
                }
                let i1 = lines_of_type(v1, ins);
                let i2 = lines_of_type(v2, ins);
                let r1 = lines_of_type(v1, rep);
                let r2 = lines_of_type(v2, rep);
                assert(i2 + i1 =~= i1 + i2);
                assert(r2 + r1 =~= r1 + r2);
                assert(i2 + i1 + r2 + r1 =~= i1 + i2 + r1 + r2);
                assert(r2 + r1 + i2 + i1 =~= r1 + r2 + i1 + i2);
                lemma_swap_keep_all(i1 + i2 + r1 + r2);
                lemma_swap_keep_all(r1 + r2 + i1 + i2);
            }
        },
        (Some(v), None) | (None, Some(v)) => {
            let tail = if v.len() > 0 && v[0].mod_type == LineModificationType::Insert {
                original_lines_at(o, ln)
            } else {
                seq![]
            };
            assert(keep_all(changed_lines(v)) + keep_all(tail) =~= keep_all(changed_lines(v) + tail));
            lemma_swap_keep_all(changed_lines(v) + tail);
            assert(keep_all(Seq::<Seq<char>>::empty()) =~= Seq::<MergeEvent>::empty());
            assert(keep_all(changed_lines(v)) + Seq::<MergeEvent>::empty() =~= keep_all(changed_lines(v)));
        },
        (None, None) => {
            lemma_swap_keep_all(original_lines_at(o, ln));
        },
    }
}

proof fn lemma_merge_events_swap(o: Seq<Seq<char>>, m1: Seq<ModView>, m2: Seq<ModView>, upto: int)
    ensures
        merge_events(o, m2, m1, upto) == swap_events(merge_events(o, m1, m2, upto)),
    decreases upto,
{
    if upto <= 0 {
        assert(swap_events(Seq::<MergeEvent>::empty()) =~= Seq::<MergeEvent>::empty());
    } else {
        lemma_merge_events_swap(o, m1, m2, upto - 1);
        lemma_step_events_swap(o, category(m1, upto), category(m2, upto), upto - 1);
        lemma_swap_events_concat(
            merge_events(o, m1, m2, upto - 1),
            step_events(o, category(m1, upto), category(m2, upto), upto - 1),
        );
    }
}

proof fn lemma_flush_swap(segs: Seq<MergeSegmentView>, curr: Seq<Seq<char>>)
    ensures
        flush(swap_conflicts(segs), curr) == swap_conflicts(flush(segs, curr)),
{
    assert(swap_conflicts(segs.push(MergeSegmentView::Lines { lines: curr })) =~= swap_conflicts(segs).push(
        MergeSegmentView::Lines { lines: curr },
    ));
}

proof fn lemma_fold_swap(evs: Seq<MergeEvent>)
    ensures
        fold_events(swap_events(evs)) == (swap_conflicts(fold_events(evs).0), fold_events(evs).1),
    decreases evs.len(),
{
    if evs.len() == 0 {
        assert(swap_events(evs) =~= Seq::<MergeEvent>::empty());
        assert(swap_conflicts(Seq::<MergeSegmentView>::empty()) =~= Seq::<MergeSegmentView>::empty());
    } else {
        let front = evs.drop_last();
        let e = evs.last();
        lemma_fold_swap(front);
        assert(front.push(e) =~= evs);
        assert(swap_events(evs) =~= swap_events(front).push(swap_event(e)));
        lemma_fold_push(swap_events(front), swap_event(e));
        lemma_fold_push(front, e);
        let prev = fold_events(front);
        match e {
            MergeEvent::Keep(l) => {},
            MergeEvent::Clash(a, b) => {
                lemma_flush_swap(prev.0, prev.1);
                assert(swap_conflicts(flush(prev.0, prev.1).push(MergeSegmentView::Conflict { v1: a, v2: b }))
                    =~= swap_conflicts(flush(prev.0, prev.1)).push(MergeSegmentView::Conflict { v1: b, v2: a }));
            },
        }
    }
}

/// Law: exchanging the two versions exchanges the two sides of every conflict
/// and changes nothing else: the same segments, in the same order, with the
/// same lines.
pub proof fn lemma_merge_is_symmetric(o: Seq<Seq<char>>, v1: Seq<Seq<char>>, v2: Seq<Seq<char>>)
    ensures
        merged(o, v2, v1) == swap_conflicts(merged(o, v1, v2)),
{
    let upto = (o.len() + 1) as int;
    let m1 = version_mods(o, v1);
    let m2 = version_mods(o, v2);
    lemma_merge_events_swap(o, m1, m2, upto);
    lemma_fold_swap(merge_events(o, m1, m2, upto));
    let r = fold_events(merge_events(o, m1, m2, upto));
    lemma_flush_swap(r.0, r.1);
}

// ---------------------------------------------------------------------------
// Merging against a version that only inserts or only deletes lines.

/// The lines of kind `t` in `lines`, in order, each taken as a change of kind
/// `mt`.
pub open spec fn kind_mods(lines: Seq<LineView>, t: DiffType, mt: LineModificationType) -> Seq<ModView>
    decreases lines.len(),
{
    if lines.len() == 0 {
        seq![]
    } else if lines.last().diff_type == t {
        kind_mods(lines.drop_last(), t, mt).push(mod_of(mt, lines.last()))
    } else {
        kind_mods(lines.drop_last(), t, mt)
    }
}

/// The change kind that a diff line of kind `t` (an insertion or a deletion)
/// stands for, and the other changed kind.
pub open spec fn mod_kind(t: DiffType) -> LineModificationType {
    if t == DiffType::Insert {
        LineModificationType::Insert
    } else {
        LineModificationType::Delete
    }
}

pub open spec fn other_kind(t: DiffType) -> DiffType {
    if t == DiffType::Insert {
        DiffType::Delete
    } else {
        DiffType::Insert
    }
}

proof fn lemma_kind_mods_concat(x: Seq<LineView>, y: Seq<LineView>, t: DiffType, mt: LineModificationType)
    ensures
        kind_mods(x + y, t, mt) == kind_mods(x, t, mt) + kind_mods(y, t, mt),
    decreases y.len(),
{
    if y.len() == 0 {
        assert(x + y =~= x);
        assert(kind_mods(x, t, mt) + kind_mods(y, t, mt) =~= kind_mods(x, t, mt));
    } else {
        lemma_kind_mods_concat(x, y.drop_last(), t, mt);
        assert((x + y).drop_last() =~= x + y.drop_last());
        assert((x + y).last() == y.last());
        assert((kind_mods(x, t, mt) + kind_mods(y.drop_last(), t, mt)).push(mod_of(mt, y.last())) =~= kind_mods(x, t, mt)
            + kind_mods(y.drop_last(), t, mt).push(mod_of(mt, y.last())));
    }
}

proof fn lemma_kind_mods_all(lines: Seq<LineView>, t: DiffType, mt: LineModificationType)
    requires
        forall|k: int| 0 <= k < lines.len() ==> (#[trigger] lines[k]).diff_type == t,
    ensures
        kind_mods(lines, t, mt) == lines.map_values(|l: LineView| mod_of(mt, l)),
    decreases lines.len(),
{
    if lines.len() > 0 {
        let front = lines.drop_last();
        assert forall|k: int| 0 <= k < front.len() implies (#[trigger] front[k]).diff_type == t by {
            assert(front[k] == lines[k]);
        }
        lemma_kind_mods_all(front, t, mt);
        assert(lines[lines.len() - 1].diff_type == t);
        assert(front.map_values(|l: LineView| mod_of(mt, l)).push(mod_of(mt, lines.last())) =~= lines.map_values(
            |l: LineView| mod_of(mt, l),
        ));
    } else {
        assert(lines.map_values(|l: LineView| mod_of(mt, l)) =~= Seq::<ModView>::empty());
    }
}

proof fn lemma_kind_mods_none(lines: Seq<LineView>, t: DiffType, mt: LineModificationType)
    requires
        forall|k: int| 0 <= k < lines.len() ==> (#[trigger] lines[k]).diff_type != t,
    ensures
        kind_mods(lines, t, mt) == Seq::<ModView>::empty(),
    decreases lines.len(),
{
    if lines.len() > 0 {
        let front = lines.drop_last();
        assert forall|k: int| 0 <= k < front.len() implies (#[trigger] front[k]).diff_type != t by {
            assert(front[k] == lines[k]);
        }
        lemma_kind_mods_none(front, t, mt);
        assert(lines[lines.len() - 1].diff_type != t);
    }
}

proof fn lemma_kind_mods_type(lines: Seq<LineView>, t: DiffType, mt: LineModificationType)
    ensures
        forall|x: int| 0 <= x < kind_mods(lines, t, mt).len() ==> (#[trigger] kind_mods(lines, t, mt)[x]).mod_type == mt,
    decreases lines.len(),
{
    if lines.len() > 0 {
        lemma_kind_mods_type(lines.drop_last(), t, mt);
        let f = kind_mods(lines.drop_last(), t, mt);
        assert forall|x: int| 0 <= x < kind_mods(lines, t, mt).len() implies (#[trigger] kind_mods(lines, t, mt)[x]).mod_type
            == mt by {
            if x < f.len() {
                assert(kind_mods(lines, t, mt)[x] == f[x]);
            }
        }
    }
}

/// Lines whose numbers all differ from `key` bring no change under `key`.
proof fn lemma_kind_mods_at_absent(lines: Seq<LineView>, t: DiffType, mt: LineModificationType, key: int)
    requires
        forall|k: int| 0 <= k < lines.len() ==> (#[trigger] lines[k]).line_no != key,
    ensures
        mods_at(kind_mods(lines, t, mt), key) == Seq::<ModView>::empty(),
    decreases lines.len(),
{
    if lines.len() > 0 {
        let front = lines.drop_last();
        assert forall|k: int| 0 <= k < front.len() implies (#[trigger] front[k]).line_no != key by {
            assert(front[k] == lines[k]);
        }
        lemma_kind_mods_at_absent(front, t, mt, key);
        assert(lines[lines.len() - 1].line_no != key);
        if lines.last().diff_type == t {
            lemma_mods_at_push(kind_mods(front, t, mt), mod_of(mt, lines.last()), key);
        }
    }
}

proof fn lemma_mods_at_concat(x: Seq<ModView>, y: Seq<ModView>, key: int)
    ensures
        mods_at(x + y, key) == mods_at(x, key) + mods_at(y, key),
    decreases y.len(),
{
    if y.len() == 0 {
        assert(x + y =~= x);
        assert(mods_at(x, key) + mods_at(y, key) =~= mods_at(x, key));
    } else {
        lemma_mods_at_concat(x, y.drop_last(), key);
        assert((x + y).drop_last() =~= x + y.drop_last());
        assert((x + y).last() == y.last());
        assert((mods_at(x, key) + mods_at(y.drop_last(), key)).push(y.last()) =~= mods_at(x, key) + mods_at(
            y.drop_last(),
            key,
        ).push(y.last()));
    }
}

proof fn lemma_mods_at_all_key(mods: Seq<ModView>, key: int)
    requires
        forall|k: int| 0 <= k < mods.len() ==> (#[trigger] mods[k]).line_no == key,
    ensures
        mods_at(mods, key) == mods,
    decreases mods.len(),
{
    if mods.len() > 0 {
        let front = mods.drop_last();
        assert forall|k: int| 0 <= k < front.len() implies (#[trigger] front[k]).line_no == key by {
            assert(front[k] == mods[k]);
        }
        lemma_mods_at_all_key(front, key);
        assert(mods[mods.len() - 1].line_no == key);
        assert(front.push(mods.last()) =~= mods);
    }
}

proof fn lemma_mods_at_nonempty(mods: Seq<ModView>, key: int, k: int)
    requires
        0 <= k < mods.len(),
        mods[k].line_no == key,
    ensures
        mods_at(mods, key).len() > 0,
    decreases mods.len(),
{
    if k < mods.len() - 1 {
        assert(mods.drop_last()[k] == mods[k]);
        lemma_mods_at_nonempty(mods.drop_last(), key, k);
    }
}

proof fn lemma_mods_at_type(mods: Seq<ModView>, key: int, mt: LineModificationType)
    requires
        forall|k: int| 0 <= k < mods.len() ==> (#[trigger] mods[k]).mod_type == mt,
    ensures
        forall|x: int| 0 <= x < mods_at(mods, key).len() ==> (#[trigger] mods_at(mods, key)[x]).mod_type == mt,
    decreases mods.len(),
{
    if mods.len() > 0 {
        let front = mods.drop_last();
        assert forall|k: int| 0 <= k < front.len() implies (#[trigger] front[k]).mod_type == mt by {
            assert(front[k] == mods[k]);
        }
        lemma_mods_at_type(front, key, mt);
        assert(mods[mods.len() - 1].mod_type == mt);
        let f = mods_at(front, key);
        assert forall|x: int| 0 <= x < mods_at(mods, key).len() implies (#[trigger] mods_at(mods, key)[x]).mod_type == mt by {
            if x < f.len() {
                assert(mods_at(mods, key)[x] == f[x]);
            }
        }
    }
}

proof fn lemma_changed_lines_of_inserts(mods: Seq<ModView>)
    requires
        forall|k: int| 0 <= k < mods.len() ==> (#[trigger] mods[k]).mod_type == LineModificationType::Insert,
    ensures
        changed_lines(mods) == mods.map_values(|m: ModView| m.line),
    decreases mods.len(),
{
    if mods.len() > 0 {
        let front = mods.drop_last();
        assert forall|k: int| 0 <= k < front.len() implies (#[trigger] front[k]).mod_type == LineModificationType::Insert by {
            assert(front[k] == mods[k]);
        }
        lemma_changed_lines_of_inserts(front);
        assert(mods[mods.len() - 1].mod_type == LineModificationType::Insert);
        assert(front.map_values(|m: ModView| m.line).push(mods.last().line) =~= mods.map_values(|m: ModView| m.line));
    } else {
        assert(mods.map_values(|m: ModView| m.line) =~= Seq::<Seq<char>>::empty());
    }
}

proof fn lemma_changed_lines_of_deletes(mods: Seq<ModView>)
    requires
        forall|k: int| 0 <= k < mods.len() ==> (#[trigger] mods[k]).mod_type == LineModificationType::Delete,
    ensures
        changed_lines(mods) == Seq::<Seq<char>>::empty(),
    decreases mods.len(),
{
    if mods.len() > 0 {
        let front = mods.drop_last();
        assert forall|k: int| 0 <= k < front.len() implies (#[trigger] front[k]).mod_type == LineModificationType::Delete by {
            assert(front[k] == mods[k]);
        }
        lemma_changed_lines_of_deletes(front);
        assert(mods[mods.len() - 1].mod_type == LineModificationType::Delete);
    }
}

/// A segment of changed lines that are all of kind `t` stands for each of
/// them taken as a change of the matching kind.
proof fn lemma_segment_mods_one_kind(seg: SegmentView, t: DiffType)
    requires
        t == DiffType::Insert || t == DiffType::Delete,
        seg.segment_type == SegmentType::Diff,
        forall|k: int| 0 <= k < seg.lines.len() ==> (#[trigger] seg.lines[k]).diff_type == t,
    ensures
        segment_mods(seg) == part_as(seg.lines, mod_kind(t), 0, seg.lines.len() as int),
{
    let lines = seg.lines;
    if t == DiffType::Insert {
        assert(!has_line_type(lines, DiffType::Delete));
    } else if has_line_type(lines, DiffType::Delete) {
        assert(!has_line_type(lines, DiffType::Insert));
    } else {
        assert(lines.len() == 0) by {
            if lines.len() > 0 {
                assert(lines[0].diff_type == DiffType::Delete);
            }
        }
        assert(part_as(lines, LineModificationType::Insert, 0, 0) =~= part_as(lines, LineModificationType::Delete, 0, 0));
    }
}

/// In a diff without lines of the other changed kind, the changes are the
/// lines of kind `t`, in order, and no segment holds a line of the other kind.
proof fn lemma_runs_one_kind(lines: Seq<LineView>, t: DiffType)
    requires
        t == DiffType::Insert || t == DiffType::Delete,
        forall|k: int| 0 <= k < lines.len() ==> (#[trigger] lines[k]).diff_type != other_kind(t),
    ensures
        all_mods(runs(lines)) == kind_mods(lines, t, mod_kind(t)),
        forall|k: int, l: int|
            0 <= k < runs(lines).len() && 0 <= l < runs(lines)[k].lines.len() ==> (#[trigger] runs(lines)[k].lines[l]).diff_type
                != other_kind(t),
    decreases lines.len(),
{
    let mt = mod_kind(t);
    if lines.len() > 0 {
        let front = lines.drop_last();
        let x = lines.last();
        assert forall|k: int| 0 <= k < front.len() implies (#[trigger] front[k]).diff_type != other_kind(t) by {
            assert(front[k] == lines[k]);
        }
        assert(lines[lines.len() - 1].diff_type != other_kind(t));
        lemma_runs_one_kind(front, t);
        lemma_runs_are_maximal(front);
        let prev = runs(front);
        let r = runs(lines);
        if prev.len() > 0 && prev.last().segment_type == kind_of(x.diff_type) {
            let last = prev.last();
            let seg2 = SegmentView { segment_type: last.segment_type, lines: last.lines.push(x) };
            assert(r == prev.drop_last().push(seg2));
            assert(r.drop_last() =~= prev.drop_last());
            assert(all_mods(r) == all_mods(prev.drop_last()) + segment_mods(seg2));
            assert(all_mods(prev) == all_mods(prev.drop_last()) + segment_mods(last));
            if last.segment_type == SegmentType::Equal {
                assert(x.diff_type == DiffType::Equal);
                assert(all_mods(r) =~= all_mods(prev));
            } else {
                assert forall|l: int| 0 <= l < last.lines.len() implies (#[trigger] last.lines[l]).diff_type == t by {
                    assert(prev[prev.len() - 1].lines[l] == last.lines[l]);
                    assert(kind_of(prev[prev.len() - 1].lines[l].diff_type) == prev[prev.len() - 1].segment_type);
                }
                assert(x.diff_type == t);
                assert forall|l: int| 0 <= l < seg2.lines.len() implies (#[trigger] seg2.lines[l]).diff_type == t by {
                    if l < last.lines.len() {
                        assert(seg2.lines[l] == last.lines[l]);
                    }
                }
                lemma_segment_mods_one_kind(last, t);
                lemma_segment_mods_one_kind(seg2, t);
                assert(part_as(seg2.lines, mt, 0, seg2.lines.len() as int) =~= part_as(last.lines, mt, 0, last.lines.len() as int).push(
                    mod_of(mt, x),
                ));
                assert(all_mods(r) =~= all_mods(prev).push(mod_of(mt, x)));
            }
            assert forall|k: int, l: int| 0 <= k < r.len() && 0 <= l < r[k].lines.len() implies (#[trigger] r[k].lines[l]).diff_type
                != other_kind(t) by {
                if k < r.len() - 1 {
                    assert(r[k] == prev[k]);
                } else if l < last.lines.len() {
                    assert(r[k].lines[l] == prev[prev.len() - 1].lines[l]);
                }
            }
        } else {
            let seg2 = SegmentView { segment_type: kind_of(x.diff_type), lines: seq![x] };
            assert(r == prev.push(seg2));
            assert(r.drop_last() =~= prev);
            if x.diff_type == DiffType::Equal {
                assert(all_mods(r) =~= all_mods(prev));
            } else {
                assert(x.diff_type == t);
                lemma_segment_mods_one_kind(seg2, t);
                assert(part_as(seg2.lines, mt, 0, 1) =~= seq![mod_of(mt, x)]);
                assert(all_mods(r) =~= all_mods(prev).push(mod_of(mt, x)));
            }
            assert forall|k: int, l: int| 0 <= k < r.len() && 0 <= l < r[k].lines.len() implies (#[trigger] r[k].lines[l]).diff_type
                != other_kind(t) by {
                if k < r.len() - 1 {
                    assert(r[k] == prev[k]);
                }
            }
        }
    }
}

/// Everything the merge emits at positions `lo..hi` of the original, walked
/// from `lo` on.
pub open spec fn events_between(o: Seq<Seq<char>>, m1: Seq<ModView>, m2: Seq<ModView>, lo: int, hi: int) -> Seq<MergeEvent>
    decreases hi - lo,
{
    if lo >= hi {
        seq![]
    } else {
        step_events(o, category(m1, lo + 1), category(m2, lo + 1), lo) + events_between(o, m1, m2, lo + 1, hi)
    }
}

proof fn lemma_events_split(o: Seq<Seq<char>>, m1: Seq<ModView>, m2: Seq<ModView>, lo: int, mid: int, hi: int)
    requires
        lo <= mid <= hi,
    ensures
        events_between(o, m1, m2, lo, hi) == events_between(o, m1, m2, lo, mid) + events_between(o, m1, m2, mid, hi),
    decreases mid - lo,
{
    if lo == mid {
        assert(Seq::<MergeEvent>::empty() + events_between(o, m1, m2, mid, hi) =~= events_between(o, m1, m2, mid, hi));
    } else {
        lemma_events_split(o, m1, m2, lo + 1, mid, hi);
        let st = step_events(o, category(m1, lo + 1), category(m2, lo + 1), lo);
        assert(st + (events_between(o, m1, m2, lo + 1, mid) + events_between(o, m1, m2, mid, hi)) =~= (st
            + events_between(o, m1, m2, lo + 1, mid)) + events_between(o, m1, m2, mid, hi));
    }
}

proof fn lemma_merge_events_forward(o: Seq<Seq<char>>, m1: Seq<ModView>, m2: Seq<ModView>, upto: int)
    requires
        0 <= upto,
    ensures
        merge_events(o, m1, m2, upto) == events_between(o, m1, m2, 0, upto),
    decreases upto,
{
    if upto > 0 {
        lemma_merge_events_forward(o, m1, m2, upto - 1);
        lemma_events_split(o, m1, m2, 0, upto - 1, upto);
        let st = step_events(o, category(m1, upto), category(m2, upto), upto - 1);
        assert(events_between(o, m1, m2, upto, upto) == Seq::<MergeEvent>::empty());
        assert(events_between(o, m1, m2, upto - 1, upto) == st + Seq::<MergeEvent>::empty());
        assert(events_between(o, m1, m2, upto - 1, upto) =~= st);
    }
}

/// Every change in `mods` is a deletion.
pub open spec fn all_deletes(mods: Seq<ModView>) -> bool {
    forall|x: int| 0 <= x < mods.len() ==> (#[trigger] mods[x]).mod_type == LineModificationType::Delete
}

/// With no change on the first side and only insertions on the second, a
/// position emits the inserted lines and then the original line.
proof fn lemma_step_inserts(o: Seq<Seq<char>>, m: Seq<ModView>, ln: int)
    requires
        forall|x: int| 0 <= x < mods_at(m, ln + 1).len() ==> (#[trigger] mods_at(m, ln + 1)[x]).mod_type
            == LineModificationType::Insert,
    ensures
        step_events(o, category(Seq::<ModView>::empty(), ln + 1), category(m, ln + 1), ln) == keep_all(
            mods_at(m, ln + 1).map_values(|c: ModView| c.line) + original_lines_at(o, ln),
        ),
{
    lemma_mods_at_empty(ln + 1);
    let c = mods_at(m, ln + 1);
    if c.len() > 0 {
        lemma_changed_lines_of_inserts(c);
        assert(c[0].mod_type == LineModificationType::Insert);
    } else {
        assert(c.map_values(|x: ModView| x.line) =~= Seq::<Seq<char>>::empty());
    }
    assert(keep_all(c.map_values(|x: ModView| x.line)) + keep_all(original_lines_at(o, ln)) =~= keep_all(
        c.map_values(|x: ModView| x.line) + original_lines_at(o, ln),
    ));
    assert(Seq::<Seq<char>>::empty() + original_lines_at(o, ln) =~= original_lines_at(o, ln));
}

/// With no change on the first side, or the same changes as on the second,
/// and only deletions (at least one) on the second, a position emits
/// nothing.
proof fn lemma_step_deletes(o: Seq<Seq<char>>, m1: Seq<ModView>, m: Seq<ModView>, ln: int)
    requires
        m1 == Seq::<ModView>::empty() || m1 == m,
        mods_at(m, ln + 1).len() > 0,
        all_deletes(mods_at(m, ln + 1)),
    ensures
        step_events(o, category(m1, ln + 1), category(m, ln + 1), ln) == Seq::<MergeEvent>::empty(),
{
    lemma_mods_at_empty(ln + 1);
    let c = mods_at(m, ln + 1);
    lemma_changed_lines_of_deletes(c);
    assert(c[0].mod_type == LineModificationType::Delete);
    assert(keep_all(Seq::<Seq<char>>::empty()) =~= Seq::<MergeEvent>::empty());
    if m1 == m {
        assert(!has_mod_type(c, LineModificationType::Insert));
        assert(!has_mod_type(c, LineModificationType::Replace));
        lemma_no_lines_of_absent_type(c, LineModificationType::Insert);
        lemma_no_lines_of_absent_type(c, LineModificationType::Replace);
        let e = Seq::<Seq<char>>::empty();
        assert(e + e + e + e =~= e);
    }
}

/// Where neither side changes a line, a position emits the original line.
proof fn lemma_step_untouched(o: Seq<Seq<char>>, m1: Seq<ModView>, m: Seq<ModView>, ln: int)
    requires
        m1 == Seq::<ModView>::empty() || m1 == m,
        mods_at(m, ln + 1).len() == 0,
    ensures
        step_events(o, category(m1, ln + 1), category(m, ln + 1), ln) == keep_all(original_lines_at(o, ln)),
{
    lemma_mods_at_empty(ln + 1);
}

proof fn lemma_delete_stretch(o: Seq<Seq<char>>, m1: Seq<ModView>, m: Seq<ModView>, lo: int, hi: int)
    requires
        m1 == Seq::<ModView>::empty() || m1 == m,
        lo <= hi,
        forall|key: int| lo + 1 <= key <= hi ==> #[trigger] mods_at(m, key).len() > 0 && all_deletes(mods_at(m, key)),
    ensures
        events_between(o, m1, m, lo, hi) == Seq::<MergeEvent>::empty(),
    decreases hi - lo,
{
    if lo < hi {
        assert(mods_at(m, lo + 1).len() > 0);
        lemma_step_deletes(o, m1, m, lo);
        lemma_delete_stretch(o, m1, m, lo + 1, hi);
        assert(Seq::<MergeEvent>::empty() + Seq::<MergeEvent>::empty() =~= Seq::<MergeEvent>::empty());
    }
}

/// Every line of the script from position `i` of the first file on is
/// numbered after `i`.
proof fn lemma_script_line_nos(a: Seq<Seq<char>>, b: Seq<Seq<char>>, ps: Seq<(int, int)>, i: int, j: int)
    requires
        0 <= i <= a.len(),
        forall|k: int| 0 <= k < ps.len() ==> i <= (#[trigger] ps[k]).0 < a.len(),
        forall|k: int, l: int| 0 <= k < l < ps.len() ==> (#[trigger] ps[k]).0 < (#[trigger] ps[l]).0,
    ensures
        forall|k: int| 0 <= k < edit_script(a, b, ps, i, j).len() ==> (#[trigger] edit_script(a, b, ps, i, j)[k]).line_no >= i + 1,
    decreases ps.len(),
{
    let e = edit_script(a, b, ps, i, j);
    if ps.len() == 0 {
        let d = deleted_lines(a, i, a.len() as int);
        let n = inserted_lines(b, j, b.len() as int, i);
        assert forall|k: int| 0 <= k < e.len() implies (#[trigger] e[k]).line_no >= i + 1 by {
            if k < d.len() {
                assert(e[k] == d[k]);
            } else {
                assert(e[k] == n[k - d.len()]);
            }
        }
    } else {
        let p = ps[0];
        let rest = ps.drop_first();
        assert forall|k: int| 0 <= k < rest.len() implies p.0 + 1 <= (#[trigger] rest[k]).0 < a.len() by {
            assert(rest[k] == ps[k + 1]);
        }
        assert forall|k: int, l: int| 0 <= k < l < rest.len() implies (#[trigger] rest[k]).0 < (#[trigger] rest[l]).0 by {
            assert(rest[k] == ps[k + 1] && rest[l] == ps[l + 1]);
        }
        lemma_script_line_nos(a, b, rest, p.0 + 1, p.1 + 1);
        let d = deleted_lines(a, i, p.0);
        let n = inserted_lines(b, j, p.1, i);
        let q = seq![LineView { diff_type: DiffType::Equal, line_no: p.0 + 1, line: a[p.0] }];
        let r = edit_script(a, b, rest, p.0 + 1, p.1 + 1);
        assert(e == d + n + q + r);
        assert forall|k: int| 0 <= k < e.len() implies (#[trigger] e[k]).line_no >= i + 1 by {
            if k < d.len() {
                assert(e[k] == d[k]);
            } else if k < d.len() + n.len() {
                assert(e[k] == n[k - d.len()]);
            } else if k < d.len() + n.len() + 1 {
                assert(e[k] == q[0]);
            } else {
                assert(e[k] == r[k - d.len() - n.len() - 1]);
            }
        }
    }
}

/// The changes of a block of lines inserted before first-file line `i + 1`.
proof fn lemma_insert_block(b: Seq<Seq<char>>, j: int, p: int, i: int)
    requires
        0 <= j <= p <= b.len(),
    ensures
        mods_at(kind_mods(inserted_lines(b, j, p, i), DiffType::Insert, LineModificationType::Insert), i + 1)
            == kind_mods(inserted_lines(b, j, p, i), DiffType::Insert, LineModificationType::Insert),
        kind_mods(inserted_lines(b, j, p, i), DiffType::Insert, LineModificationType::Insert).map_values(|c: ModView| c.line)
            == b.subrange(j, p),
        forall|x: int|
            0 <= x < kind_mods(inserted_lines(b, j, p, i), DiffType::Insert, LineModificationType::Insert).len() ==> (#[trigger] kind_mods(
                inserted_lines(b, j, p, i),
                DiffType::Insert,
                LineModificationType::Insert,
            )[x]).mod_type == LineModificationType::Insert,
        forall|key: int| key != i + 1 ==> #[trigger] mods_at(
            kind_mods(inserted_lines(b, j, p, i), DiffType::Insert, LineModificationType::Insert),
            key,
        ) == Seq::<ModView>::empty(),
{
    let n = inserted_lines(b, j, p, i);
    let mt = LineModificationType::Insert;
    lemma_kind_mods_all(n, DiffType::Insert, mt);
    let kn = kind_mods(n, DiffType::Insert, mt);
    lemma_mods_at_all_key(kn, i + 1);
    assert(kn.map_values(|c: ModView| c.line) =~= b.subrange(j, p));
    assert forall|key: int| key != i + 1 implies #[trigger] mods_at(kn, key) == Seq::<ModView>::empty() by {
        lemma_kind_mods_at_absent(n, DiffType::Insert, mt, key);
    }
}

/// A version in which the original occurs replays, from position `i` of the
/// original and `j` of the version on, into the rest of the version.
#[verifier::spinoff_prover]
proof fn lemma_insert_replay(a: Seq<Seq<char>>, b: Seq<Seq<char>>, ps: Seq<(int, int)>, i: int, j: int, m: Seq<ModView>)
    requires
        0 <= i <= a.len(),
        0 <= j <= b.len(),
        ps.len() == a.len() - i,
        forall|k: int|
            0 <= k < ps.len() ==> (#[trigger] ps[k]).0 == i + k && j <= ps[k].1 < b.len() && a[ps[k].0] == b[ps[k].1],
        forall|k: int, l: int| 0 <= k < l < ps.len() ==> (#[trigger] ps[k]).1 < (#[trigger] ps[l]).1,
        forall|key: int|
            key >= i + 1 ==> #[trigger] mods_at(m, key) == mods_at(
                kind_mods(edit_script(a, b, ps, i, j), DiffType::Insert, LineModificationType::Insert),
                key,
            ),
    ensures
        forall|k: int| 0 <= k < edit_script(a, b, ps, i, j).len() ==> (#[trigger] edit_script(a, b, ps, i, j)[k]).diff_type
            != DiffType::Delete,
        events_between(a, Seq::<ModView>::empty(), m, i, a.len() as int + 1) == keep_all(b.subrange(j, b.len() as int)),
    decreases ps.len(),
{
    let t = DiffType::Insert;
    let mt = LineModificationType::Insert;
    let e = edit_script(a, b, ps, i, j);
    let nlen = a.len() as int;
    if ps.len() == 0 {
        let d = deleted_lines(a, i, nlen);
        let n = inserted_lines(b, j, b.len() as int, i);
        assert(d =~= Seq::<LineView>::empty());
        assert(e =~= n);
        assert forall|k: int| 0 <= k < e.len() implies (#[trigger] e[k]).diff_type != DiffType::Delete by {
            assert(e[k] == n[k]);
        }
        lemma_insert_block(b, j, b.len() as int, i);
        assert(mods_at(m, i + 1) == mods_at(kind_mods(e, t, mt), i + 1));
        lemma_step_inserts(a, m, i);
        assert(original_lines_at(a, i) =~= Seq::<Seq<char>>::empty());
        assert(b.subrange(j, b.len() as int) + Seq::<Seq<char>>::empty() =~= b.subrange(j, b.len() as int));
        assert(events_between(a, Seq::<ModView>::empty(), m, i + 1, nlen + 1) == Seq::<MergeEvent>::empty());
        assert(keep_all(b.subrange(j, b.len() as int)) + Seq::<MergeEvent>::empty() =~= keep_all(b.subrange(j, b.len() as int)));
    } else {
        let p = ps[0];
        let rest = ps.drop_first();
        assert(p.0 == i);
        assert forall|k: int| 0 <= k < rest.len() implies (#[trigger] rest[k]).0 == (i + 1) + k && p.1 + 1 <= rest[k].1 < b.len()
            && a[rest[k].0] == b[rest[k].1] by {
            assert(rest[k] == ps[k + 1]);
        }
        assert forall|k: int, l: int| 0 <= k < l < rest.len() implies (#[trigger] rest[k]).1 < (#[trigger] rest[l]).1 by {
            assert(rest[k] == ps[k + 1] && rest[l] == ps[l + 1]);
        }
        assert forall|k: int, l: int| 0 <= k < l < rest.len() implies (#[trigger] rest[k]).0 < (#[trigger] rest[l]).0 by {
            assert(rest[k] == ps[k + 1] && rest[l] == ps[l + 1]);
        }
        let d = deleted_lines(a, i, p.0);
        let n = inserted_lines(b, j, p.1, i);
        let q = seq![LineView { diff_type: DiffType::Equal, line_no: p.0 + 1, line: a[p.0] }];
        let r = edit_script(a, b, rest, i + 1, p.1 + 1);
        assert(d =~= Seq::<LineView>::empty());
        assert(e == d + n + q + r);
        assert(e =~= n + q + r);
        lemma_script_line_nos(a, b, rest, i + 1, p.1 + 1);
        lemma_kind_mods_concat(n, q, t, mt);
        lemma_kind_mods_concat(n + q, r, t, mt);
        lemma_kind_mods_none(q, t, mt);
        let kn = kind_mods(n, t, mt);
        let kr = kind_mods(r, t, mt);
        assert(kind_mods(e, t, mt) =~= kn + kr);
        lemma_insert_block(b, j, p.1, i);
        assert forall|key: int| key >= i + 2 implies #[trigger] mods_at(m, key) == mods_at(kr, key) by {
            lemma_mods_at_concat(kn, kr, key);
            assert(mods_at(kn, key) == Seq::<ModView>::empty());
            assert(Seq::<ModView>::empty() + mods_at(kr, key) =~= mods_at(kr, key));
        }
        lemma_insert_replay(a, b, rest, i + 1, p.1 + 1, m);
        assert forall|k: int| 0 <= k < e.len() implies (#[trigger] e[k]).diff_type != DiffType::Delete by {
            if k < n.len() {
                assert(e[k] == n[k]);
            } else if k < n.len() + 1 {
                assert(e[k] == q[0]);
            } else {
                assert(e[k] == r[k - n.len() - 1]);
            }
        }
        lemma_mods_at_concat(kn, kr, i + 1);
        lemma_kind_mods_at_absent(r, t, mt, i + 1);
        assert(mods_at(m, i + 1) =~= kn);
        lemma_step_inserts(a, m, i);
        assert(original_lines_at(a, i) =~= seq![b[p.1]]);
        assert(b.subrange(j, p.1) + seq![b[p.1]] =~= b.subrange(j, p.1 + 1));
        assert(keep_all(b.subrange(j, p.1 + 1)) + keep_all(b.subrange(p.1 + 1, b.len() as int)) =~= keep_all(
            b.subrange(j, b.len() as int),
        ));
    }
}

/// A version that occurs in the original replays, from position `i` of the
/// original and `j` of the version on, into the rest of the version.
#[verifier::spinoff_prover]
proof fn lemma_delete_replay(a: Seq<Seq<char>>, b: Seq<Seq<char>>, ps: Seq<(int, int)>, i: int, j: int, m1: Seq<ModView>, m: Seq<ModView>)
    requires
        m1 == Seq::<ModView>::empty() || m1 == m,
        0 <= i <= a.len(),
        0 <= j <= b.len(),
        ps.len() == b.len() - j,
        forall|k: int|
            0 <= k < ps.len() ==> (#[trigger] ps[k]).1 == j + k && i <= ps[k].0 < a.len() && a[ps[k].0] == b[ps[k].1],
        forall|k: int, l: int| 0 <= k < l < ps.len() ==> (#[trigger] ps[k]).0 < (#[trigger] ps[l]).0,
        forall|key: int|
            key >= i + 1 ==> #[trigger] mods_at(m, key) == mods_at(
                kind_mods(edit_script(a, b, ps, i, j), DiffType::Delete, LineModificationType::Delete),
                key,
            ),
    ensures
        forall|k: int| 0 <= k < edit_script(a, b, ps, i, j).len() ==> (#[trigger] edit_script(a, b, ps, i, j)[k]).diff_type
            != DiffType::Insert,
        events_between(a, m1, m, i, a.len() as int + 1) == keep_all(b.subrange(j, b.len() as int)),
    decreases ps.len(),
{
    let t = DiffType::Delete;
    let mt = LineModificationType::Delete;
    let e = edit_script(a, b, ps, i, j);
    let ke = kind_mods(e, t, mt);
    let nlen = a.len() as int;
    lemma_kind_mods_type(e, t, mt);
    // Up to `to`, every first-file line after `i` is deleted by the first
    // block `d` of the script.
    let to = if ps.len() == 0 { nlen } else { ps[0].0 };
    let d = deleted_lines(a, i, to);
    let n = inserted_lines(b, j, if ps.len() == 0 { b.len() as int } else { ps[0].1 }, i);
    assert(n =~= Seq::<LineView>::empty());
    let tail = if ps.len() == 0 {
        Seq::<LineView>::empty()
    } else {
        seq![LineView { diff_type: DiffType::Equal, line_no: ps[0].0 + 1, line: a[ps[0].0] }] + edit_script(
            a,
            b,
            ps.drop_first(),
            ps[0].0 + 1,
            ps[0].1 + 1,
        )
    };
    assert(e == d + n + tail);
    assert(e =~= d + tail);
    lemma_kind_mods_all(d, t, mt);
    lemma_kind_mods_concat(d, tail, t, mt);
    let kd = kind_mods(d, t, mt);
    assert forall|key: int| i + 1 <= key <= to implies #[trigger] mods_at(m, key).len() > 0 && all_deletes(mods_at(m, key)) by {
        assert(ke[key - i - 1] == kd[key - i - 1]);
        lemma_mods_at_nonempty(ke, key, key - i - 1);
        lemma_mods_at_type(ke, key, mt);
    }
    lemma_delete_stretch(a, m1, m, i, to);
    lemma_events_split(a, m1, m, i, to, nlen + 1);
    if ps.len() == 0 {
        lemma_kind_mods_at_absent(d, t, mt, nlen + 1);
        assert(ke =~= kd);
        lemma_step_untouched(a, m1, m, nlen);
        assert(original_lines_at(a, nlen) =~= Seq::<Seq<char>>::empty());
        assert(keep_all(Seq::<Seq<char>>::empty() + Seq::<Seq<char>>::empty()) =~= Seq::<MergeEvent>::empty());
        assert(events_between(a, m1, m, nlen + 1, nlen + 1) == Seq::<MergeEvent>::empty());
        assert(b.subrange(j, b.len() as int) =~= Seq::<Seq<char>>::empty());
        assert(keep_all(b.subrange(j, b.len() as int)) =~= Seq::<MergeEvent>::empty());
        assert(Seq::<MergeEvent>::empty() + (Seq::<MergeEvent>::empty() + Seq::<MergeEvent>::empty()) =~= Seq::<MergeEvent>::empty());
        assert forall|k: int| 0 <= k < e.len() implies (#[trigger] e[k]).diff_type != DiffType::Insert by {
            assert(e[k] == d[k]);
        }
    } else {
        let p = ps[0];
        let rest = ps.drop_first();
        assert(p.1 == j);
        assert forall|k: int| 0 <= k < rest.len() implies (#[trigger] rest[k]).1 == (j + 1) + k && p.0 + 1 <= rest[k].0 < a.len()
            && a[rest[k].0] == b[rest[k].1] by {
            assert(rest[k] == ps[k + 1]);
        }
        assert forall|k: int, l: int| 0 <= k < l < rest.len() implies (#[trigger] rest[k]).0 < (#[trigger] rest[l]).0 by {
            assert(rest[k] == ps[k + 1] && rest[l] == ps[l + 1]);
        }
        let q = seq![LineView { diff_type: DiffType::Equal, line_no: p.0 + 1, line: a[p.0] }];
        let r = edit_script(a, b, rest, p.0 + 1, j + 1);
        assert(tail == q + r);
        lemma_kind_mods_concat(q, r, t, mt);
        lemma_kind_mods_none(q, t, mt);
        let kr = kind_mods(r, t, mt);
        assert(ke =~= kd + kr);
        lemma_script_line_nos(a, b, rest, p.0 + 1, j + 1);
        assert forall|key: int| key >= p.0 + 1 implies #[trigger] mods_at(m, key) == mods_at(kr, key) by {
            lemma_mods_at_concat(kd, kr, key);
            lemma_kind_mods_at_absent(d, t, mt, key);
            assert(Seq::<ModView>::empty() + mods_at(kr, key) =~= mods_at(kr, key));
        }
        lemma_delete_replay(a, b, rest, p.0 + 1, j + 1, m1, m);
        lemma_kind_mods_at_absent(r, t, mt, p.0 + 1);
        lemma_step_untouched(a, m1, m, p.0);
        assert(original_lines_at(a, p.0) =~= seq![b[j]]);
        assert(Seq::<Seq<char>>::empty() + seq![b[j]] =~= seq![b[j]]);
        assert(seq![b[j]] + b.subrange(j + 1, b.len() as int) =~= b.subrange(j, b.len() as int));
        assert(keep_all(seq![b[j]]) + keep_all(b.subrange(j + 1, b.len() as int)) =~= keep_all(b.subrange(j, b.len() as int)));
        assert(Seq::<MergeEvent>::empty() + keep_all(b.subrange(j, b.len() as int)) =~= keep_all(b.subrange(j, b.len() as int)));
        assert forall|k: int| 0 <= k < e.len() implies (#[trigger] e[k]).diff_type != DiffType::Insert by {
            if k < d.len() {
                assert(e[k] == d[k]);
            } else if k < d.len() + 1 {
                assert(e[k] == q[0]);
            } else {
                assert(e[k] == r[k - d.len() - 1]);
            }
        }
    }
}

/// Law: when one version leaves the original as it is and the other only
/// inserts lines into it (the original occurs in it) or only deletes lines
/// from it (it occurs in the original), the merge is the other version, as
/// one segment of lines (none when it is empty), whichever side it is on.
pub proof fn lemma_one_sided_merge_gives_the_other_version(o: Seq<Seq<char>>, v: Seq<Seq<char>>)
    requires
        is_subsequence_of(o, v) || is_subsequence_of(v, o),
    ensures
        merged(o, o, v) == (if v.len() > 0 {
            seq![MergeSegmentView::Lines { lines: v }]
        } else {
            Seq::<MergeSegmentView>::empty()
        }),
        merged(o, v, o) == (if v.len() > 0 {
            seq![MergeSegmentView::Lines { lines: v }]
        } else {
            Seq::<MergeSegmentView>::empty()
        }),
{
    lemma_unchanged_version_has_no_mods(o);
    let none = Seq::<ModView>::empty();
    let n = o.len() as int;
    let tr = lcs_trace(o, v, n, v.len() as int);
    lemma_trace_is_common_subsequence(o, v, n, v.len() as int);
    let e = diff_lines(o, v);
    let m = version_mods(o, v);
    if is_subsequence_of(o, v) {
        lemma_trace_of_subsequence_in_first(o, v);
        lemma_insert_replay(o, v, tr, 0, 0, kind_mods(e, DiffType::Insert, LineModificationType::Insert));
        lemma_runs_one_kind(e, DiffType::Insert);
    } else {
        lemma_trace_of_subsequence_in_second(o, v);
        lemma_delete_replay(o, v, tr, 0, 0, none, kind_mods(e, DiffType::Delete, LineModificationType::Delete));
        lemma_runs_one_kind(e, DiffType::Delete);
    }
    assert(v.subrange(0, v.len() as int) =~= v);
    lemma_merge_events_forward(o, none, m, n + 1);
    assert(merge_events(o, none, m, n + 1) == keep_all(v));
    lemma_fold_keep_all(Seq::<MergeEvent>::empty(), v);
    assert(Seq::<MergeEvent>::empty() + keep_all(v) =~= keep_all(v));
    assert(Seq::<Seq<char>>::empty() + v =~= v);
    lemma_merge_is_symmetric(o, o, v);
    let one = if v.len() > 0 {
        seq![MergeSegmentView::Lines { lines: v }]
    } else {
        Seq::<MergeSegmentView>::empty()
    };
    assert(swap_conflicts(one) =~= one);
}

/// Law: when both versions delete the same lines from the original and change
/// nothing else (each is the same subsequence of it), the merge is that
/// version, as one segment of lines (none when it is empty): a line both
/// versions delete does not come back.
pub proof fn lemma_merge_of_equal_deletions(o: Seq<Seq<char>>, v: Seq<Seq<char>>)
    requires
        is_subsequence_of(v, o),
    ensures
        merged(o, v, v) == (if v.len() > 0 {
            seq![MergeSegmentView::Lines { lines: v }]
        } else {
            Seq::<MergeSegmentView>::empty()
        }),
{
    let n = o.len() as int;
    let tr = lcs_trace(o, v, n, v.len() as int);
    lemma_trace_is_common_subsequence(o, v, n, v.len() as int);
    let e = diff_lines(o, v);
    let m = version_mods(o, v);
    lemma_trace_of_subsequence_in_second(o, v);
    lemma_delete_replay(o, v, tr, 0, 0, kind_mods(e, DiffType::Delete, LineModificationType::Delete), kind_mods(
        e,
        DiffType::Delete,
        LineModificationType::Delete,
    ));
    lemma_runs_one_kind(e, DiffType::Delete);
    assert(v.subrange(0, v.len() as int) =~= v);
    lemma_merge_events_forward(o, m, m, n + 1);
    assert(merge_events(o, m, m, n + 1) == keep_all(v));
    lemma_fold_keep_all(Seq::<MergeEvent>::empty(), v);
    assert(Seq::<MergeEvent>::empty() + keep_all(v) =~= keep_all(v));
    assert(Seq::<Seq<char>>::empty() + v =~= v);
}

// ---------------------------------------------------------------------------
// Merging against a version with arbitrary changes.

/// The lines of the diff for one block of changes: the lines `i..p` of the
/// original deleted, then the lines `j..q` of the version inserted.
pub open spec fn gap_lines(a: Seq<Seq<char>>, b: Seq<Seq<char>>, i: int, p: int, j: int, q: int) -> Seq<LineView> {
    deleted_lines(a, i, p) + inserted_lines(b, j, q, i)
}

/// The changes a block of changes stands for.
pub open spec fn gap_mods(a: Seq<Seq<char>>, b: Seq<Seq<char>>, i: int, p: int, j: int, q: int) -> Seq<ModView> {
    if gap_lines(a, b, i, p, j, q).len() == 0 {
        seq![]
    } else {
        segment_mods(SegmentView { segment_type: SegmentType::Diff, lines: gap_lines(a, b, i, p, j, q) })
    }
}

/// The changes of the script from position `i` of the original and `j` of
/// the version on, block by block.
pub open spec fn script_mods(a: Seq<Seq<char>>, b: Seq<Seq<char>>, ps: Seq<(int, int)>, i: int, j: int) -> Seq<ModView>
    decreases ps.len(),
{
    if ps.len() == 0 {
        gap_mods(a, b, i, a.len() as int, j, b.len() as int)
    } else {
        gap_mods(a, b, i, ps[0].0, j, ps[0].1) + script_mods(a, b, ps.drop_first(), ps[0].0 + 1, ps[0].1 + 1)
    }
}

proof fn lemma_runs_last(lines: Seq<LineView>)
    requires
        lines.len() > 0,
    ensures
        runs(lines).len() > 0,
        runs(lines).last().segment_type == kind_of(lines.last().diff_type),
{
}

proof fn lemma_runs_concat(x: Seq<LineView>, y: Seq<LineView>)
    requires
        x.len() > 0,
        y.len() > 0,
        kind_of(x.last().diff_type) != kind_of(y[0].diff_type),
    ensures
        runs(x + y) == runs(x) + runs(y),
    decreases y.len(),
{
    let yl = y.last();
    if y.len() == 1 {
        assert((x + y).drop_last() =~= x);
        assert((x + y).last() == y[0]);
        lemma_runs_last(x);
        assert(y.drop_last() =~= Seq::<LineView>::empty());
        assert(runs(y.drop_last()) == Seq::<SegmentView>::empty());
        assert(y.last() == yl);
        assert(runs(y) == Seq::<SegmentView>::empty().push(SegmentView { segment_type: kind_of(yl.diff_type), lines: seq![yl] }));
        assert(runs(x + y) =~= runs(x) + runs(y));
    } else {
        let y1 = y.drop_last();
        assert(y1[0] == y[0]);
        lemma_runs_concat(x, y1);
        assert((x + y).drop_last() =~= x + y1);
        assert((x + y).last() == yl);
        lemma_runs_last(y1);
        let prev = runs(y1);
        assert((runs(x) + prev).last() == prev.last());
        assert((runs(x) + prev).drop_last() =~= runs(x) + prev.drop_last());
        if prev.last().segment_type == kind_of(yl.diff_type) {
            let ext = SegmentView { segment_type: prev.last().segment_type, lines: prev.last().lines.push(yl) };
            assert(runs(x + y) =~= runs(x) + prev.drop_last().push(ext));
        } else {
            let fresh = SegmentView { segment_type: kind_of(yl.diff_type), lines: seq![yl] };
            assert(runs(x + y) =~= runs(x) + prev.push(fresh));
        }
    }
}

proof fn lemma_all_mods_concat(x: Seq<SegmentView>, y: Seq<SegmentView>)
    ensures
        all_mods(x + y) == all_mods(x) + all_mods(y),
    decreases y.len(),
{
    if y.len() == 0 {
        assert(x + y =~= x);
        assert(all_mods(x) + all_mods(y) =~= all_mods(x));
    } else {
        lemma_all_mods_concat(x, y.drop_last());
        assert((x + y).drop_last() =~= x + y.drop_last());
        assert((x + y).last() == y.last());
        assert(all_mods(x) + all_mods(y.drop_last()) + segment_mods(y.last()) =~= all_mods(x) + (all_mods(y.drop_last())
            + segment_mods(y.last())));
    }
}

/// A non-empty run of changed lines is one segment.
proof fn lemma_runs_of_changes(lines: Seq<LineView>)
    requires
        lines.len() > 0,
        forall|k: int| 0 <= k < lines.len() ==> (#[trigger] lines[k]).diff_type != DiffType::Equal,
    ensures
        runs(lines) == seq![SegmentView { segment_type: SegmentType::Diff, lines: lines }],
    decreases lines.len(),
{
    let x = lines.last();
    let front = lines.drop_last();
    assert(lines[lines.len() - 1].diff_type != DiffType::Equal);
    assert(kind_of(x.diff_type) == SegmentType::Diff);
    if lines.len() == 1 {
        assert(front =~= Seq::<LineView>::empty());
        assert(runs(front) == Seq::<SegmentView>::empty());
        assert(seq![x] =~= lines);
        assert(runs(lines) =~= seq![SegmentView { segment_type: SegmentType::Diff, lines: seq![x] }]);
    } else {
        assert forall|k: int| 0 <= k < front.len() implies (#[trigger] front[k]).diff_type != DiffType::Equal by {
            assert(front[k] == lines[k]);
        }
        lemma_runs_of_changes(front);
        assert(front.push(x) =~= lines);
        assert(runs(lines) =~= seq![SegmentView { segment_type: SegmentType::Diff, lines: front.push(x) }]);
    }
}

/// Equal lines bring no changes.
proof fn lemma_equal_lines_no_mods(lines: Seq<LineView>)
    requires
        forall|k: int| 0 <= k < lines.len() ==> (#[trigger] lines[k]).diff_type == DiffType::Equal,
    ensures
        all_mods(runs(lines)) == Seq::<ModView>::empty(),
    decreases lines.len(),
{
    if lines.len() > 0 {
        let front = lines.drop_last();
        let x = lines.last();
        assert forall|k: int| 0 <= k < front.len() implies (#[trigger] front[k]).diff_type == DiffType::Equal by {
            assert(front[k] == lines[k]);
        }
        lemma_equal_lines_no_mods(front);
        assert(lines[lines.len() - 1].diff_type == DiffType::Equal);
        let prev = runs(front);
        if prev.len() > 0 && prev.last().segment_type == kind_of(x.diff_type) {
            let ext = SegmentView { segment_type: prev.last().segment_type, lines: prev.last().lines.push(x) };
            assert(runs(lines) == prev.drop_last().push(ext));
            assert(runs(lines).drop_last() =~= prev.drop_last());
            assert(all_mods(prev) == all_mods(prev.drop_last()) + segment_mods(prev.last()));
            assert(all_mods(runs(lines)) =~= all_mods(prev));
        } else {
            assert(runs(lines).drop_last() =~= prev);
            assert(all_mods(runs(lines)) =~= all_mods(prev));
        }
    }
}

proof fn lemma_gap_runs(pre: Seq<LineView>, g: Seq<LineView>)
    requires
        forall|k: int| 0 <= k < pre.len() ==> (#[trigger] pre[k]).diff_type == DiffType::Equal,
        forall|k: int| 0 <= k < g.len() ==> (#[trigger] g[k]).diff_type != DiffType::Equal,
    ensures
        all_mods(runs(pre + g)) == (if g.len() == 0 {
            Seq::<ModView>::empty()
        } else {
            segment_mods(SegmentView { segment_type: SegmentType::Diff, lines: g })
        }),
{
    lemma_equal_lines_no_mods(pre);
    if g.len() == 0 {
        assert(pre + g =~= pre);
    } else {
        lemma_runs_of_changes(g);
        let one = seq![SegmentView { segment_type: SegmentType::Diff, lines: g }];
        assert(one.drop_last() =~= Seq::<SegmentView>::empty());
        assert(all_mods(one.drop_last()) == Seq::<ModView>::empty());
        assert(one.last() == SegmentView { segment_type: SegmentType::Diff, lines: g });
        assert(all_mods(one) =~= segment_mods(SegmentView { segment_type: SegmentType::Diff, lines: g }));
        if pre.len() == 0 {
            assert(pre + g =~= g);
        } else {
            assert(pre[pre.len() - 1].diff_type == DiffType::Equal);
            assert(g[0].diff_type != DiffType::Equal);
            lemma_runs_concat(pre, g);
            lemma_all_mods_concat(runs(pre), runs(g));
            assert(Seq::<ModView>::empty() + all_mods(one) =~= all_mods(one));
        }
    }
}

/// The changes of a diff script are those of its blocks of changes, in order.
#[verifier::spinoff_prover]
proof fn lemma_runs_script(a: Seq<Seq<char>>, b: Seq<Seq<char>>, ps: Seq<(int, int)>, i: int, j: int, pre: Seq<LineView>)
    requires
        0 <= i <= a.len(),
        0 <= j <= b.len(),
        forall|k: int| 0 <= k < ps.len() ==> i <= (#[trigger] ps[k]).0 < a.len() && j <= ps[k].1 < b.len(),
        forall|k: int, l: int| 0 <= k < l < ps.len() ==> (#[trigger] ps[k]).0 < (#[trigger] ps[l]).0 && ps[k].1 < ps[l].1,
        forall|k: int| 0 <= k < pre.len() ==> (#[trigger] pre[k]).diff_type == DiffType::Equal,
    ensures
        all_mods(runs(pre + edit_script(a, b, ps, i, j))) == script_mods(a, b, ps, i, j),
    decreases ps.len(),
{
    let e = edit_script(a, b, ps, i, j);
    if ps.len() == 0 {
        let g = gap_lines(a, b, i, a.len() as int, j, b.len() as int);
        assert(e == g);
        assert forall|k: int| 0 <= k < g.len() implies (#[trigger] g[k]).diff_type != DiffType::Equal by {
            let d = deleted_lines(a, i, a.len() as int);
            if k < d.len() {
                assert(g[k] == d[k]);
            } else {
                assert(g[k] == inserted_lines(b, j, b.len() as int, i)[k - d.len()]);
            }
        }
        lemma_gap_runs(pre, g);
    } else {
        let p = ps[0];
        let rest = ps.drop_first();
        assert forall|k: int| 0 <= k < rest.len() implies p.0 + 1 <= (#[trigger] rest[k]).0 < a.len() && p.1 + 1 <= rest[k].1
            < b.len() by {
            assert(rest[k] == ps[k + 1]);
        }
        assert forall|k: int, l: int| 0 <= k < l < rest.len() implies (#[trigger] rest[k]).0 < (#[trigger] rest[l]).0
            && rest[k].1 < rest[l].1 by {
            assert(rest[k] == ps[k + 1] && rest[l] == ps[l + 1]);
        }
        let g = gap_lines(a, b, i, p.0, j, p.1);
        let q = seq![LineView { diff_type: DiffType::Equal, line_no: p.0 + 1, line: a[p.0] }];
        let r = edit_script(a, b, rest, p.0 + 1, p.1 + 1);
        assert(e == deleted_lines(a, i, p.0) + inserted_lines(b, j, p.1, i) + q + r);
        assert(e =~= g + (q + r));
        assert forall|k: int| 0 <= k < g.len() implies (#[trigger] g[k]).diff_type != DiffType::Equal by {
            let d = deleted_lines(a, i, p.0);
            if k < d.len() {
                assert(g[k] == d[k]);
            } else {
                assert(g[k] == inserted_lines(b, j, p.1, i)[k - d.len()]);
            }
        }
        if g.len() == 0 {
            assert(pre + e =~= pre.push(q[0]) + r);
            assert forall|k: int| 0 <= k < pre.push(q[0]).len() implies (#[trigger] pre.push(q[0])[k]).diff_type
                == DiffType::Equal by {
                if k < pre.len() {
                    assert(pre.push(q[0])[k] == pre[k]);
                }
            }
            lemma_runs_script(a, b, rest, p.0 + 1, p.1 + 1, pre.push(q[0]));
            assert(gap_mods(a, b, i, p.0, j, p.1) == Seq::<ModView>::empty());
            assert(Seq::<ModView>::empty() + script_mods(a, b, rest, p.0 + 1, p.1 + 1) =~= script_mods(a, b, rest, p.0 + 1, p.1 + 1));
        } else {
            lemma_runs_script(a, b, rest, p.0 + 1, p.1 + 1, q);
            lemma_gap_runs(pre, g);
            let x = pre + g;
            let y = q + r;
            assert(pre + e =~= x + y);
            assert(x.last() == g.last());
            assert(g[g.len() - 1].diff_type != DiffType::Equal);
            assert(y[0] == q[0]);
            lemma_runs_concat(x, y);
            lemma_all_mods_concat(runs(x), runs(y));
        }
    }
}

/// The first `r` lines of the block replaced, in order, by `b[j..j + r]`.
pub open spec fn rep_mods(b: Seq<Seq<char>>, i: int, j: int, r: int) -> Seq<ModView> {
    Seq::new(r as nat, |k: int| ModView { mod_type: LineModificationType::Replace, line_no: i + 1 + k, line: b[j + k] })
}

/// The lines `b[from..to]` inserted before original line `key`.
pub open spec fn ins_mods(b: Seq<Seq<char>>, from: int, to: int, key: int) -> Seq<ModView> {
    Seq::new((to - from) as nat, |k: int| ModView { mod_type: LineModificationType::Insert, line_no: key, line: b[from + k] })
}

/// The original lines `from..to` deleted.
pub open spec fn del_mods(a: Seq<Seq<char>>, from: int, to: int) -> Seq<ModView> {
    Seq::new((to - from) as nat, |k: int| ModView { mod_type: LineModificationType::Delete, line_no: from + 1 + k, line: a[from + k] })
}

pub open spec fn min_of(x: int, y: int) -> int {
    if x <= y {
        x
    } else {
        y
    }
}

/// A block deleting `p` lines and inserting `q`: its first `min(p, q)`
/// deleted lines are replaced by the first inserted ones, the inserted lines
/// left over go before the block's first line, and the deleted lines left
/// over are deleted.
pub open spec fn gap_form(a: Seq<Seq<char>>, b: Seq<Seq<char>>, i: int, p: int, j: int, q: int) -> Seq<ModView> {
    let r = min_of(p - i, q - j);
    rep_mods(b, i, j, r) + ins_mods(b, j + r, q, i + 1) + del_mods(a, i + r, p)
}

proof fn lemma_gap_mods_form(a: Seq<Seq<char>>, b: Seq<Seq<char>>, i: int, p: int, j: int, q: int)
    requires
        0 <= i <= p <= a.len(),
        0 <= j <= q <= b.len(),
    ensures
        gap_mods(a, b, i, p, j, q) == gap_form(a, b, i, p, j, q),
{
    let lines = gap_lines(a, b, i, p, j, q);
    let d = deleted_lines(a, i, p);
    let n = inserted_lines(b, j, q, i);
    let np = p - i;
    let nq = q - j;
    let r = min_of(np, nq);
    assert forall|k: int| 0 <= k < np implies (#[trigger] lines[k]).diff_type == DiffType::Delete && lines[k].line_no == i + k + 1
        && lines[k].line == a[i + k] by {
        assert(lines[k] == d[k]);
    }
    assert forall|k: int| np <= k < np + nq implies (#[trigger] lines[k]).diff_type == DiffType::Insert && lines[k].line_no == i + 1
        && lines[k].line == b[j + k - np] by {
        assert(lines[k] == n[k - np]);
    }
    let g = gap_form(a, b, i, p, j, q);
    if np == 0 && nq == 0 {
        assert(lines.len() == 0);
        assert(g =~= Seq::<ModView>::empty());
    } else if np == 0 {
        assert(!has_line_type(lines, DiffType::Delete));
        assert(segment_mods(SegmentView { segment_type: SegmentType::Diff, lines }) =~= g);
    } else if nq == 0 {
        assert(lines[0].diff_type == DiffType::Delete);
        assert(has_line_type(lines, DiffType::Delete));
        assert(!has_line_type(lines, DiffType::Insert));
        assert(segment_mods(SegmentView { segment_type: SegmentType::Diff, lines }) =~= g);
    } else {
        assert(lines[0].diff_type == DiffType::Delete);
        assert(lines[np].diff_type == DiffType::Insert);
        assert(has_line_type(lines, DiffType::Delete));
        assert(has_line_type(lines, DiffType::Insert));
        lemma_first_insert_bounds(lines, 0);
        let fi = first_insert(lines, 0);
        if fi < np {
            assert(lines[fi].diff_type == DiffType::Insert);
        }
        if fi > np {
            assert(lines[np].diff_type != DiffType::Insert);
        }
        assert(fi == np);
        let sm = segment_mods(SegmentView { segment_type: SegmentType::Diff, lines });
        assert(sm == replace_part(lines, np, r) + part_as(lines, LineModificationType::Insert, np + r, lines.len() as int)
            + part_as(lines, LineModificationType::Delete, r, np));
        assert(replace_part(lines, np, r) =~= rep_mods(b, i, j, r));
        assert(part_as(lines, LineModificationType::Insert, np + r, lines.len() as int) =~= ins_mods(b, j + r, q, i + 1));
        assert(part_as(lines, LineModificationType::Delete, r, np) =~= del_mods(a, i + r, p));
    }
}

proof fn lemma_mods_at_absent(mods: Seq<ModView>, key: int)
    requires
        forall|k: int| 0 <= k < mods.len() ==> (#[trigger] mods[k]).line_no != key,
    ensures
        mods_at(mods, key) == Seq::<ModView>::empty(),
    decreases mods.len(),
{
    if mods.len() > 0 {
        let front = mods.drop_last();
        assert forall|k: int| 0 <= k < front.len() implies (#[trigger] front[k]).line_no != key by {
            assert(front[k] == mods[k]);
        }
        lemma_mods_at_absent(front, key);
        assert(mods[mods.len() - 1].line_no != key);
    }
}

/// Changes under consecutive keys from `base` on: each key has one.
proof fn lemma_mods_at_consecutive(mods: Seq<ModView>, base: int, key: int)
    requires
        forall|k: int| 0 <= k < mods.len() ==> (#[trigger] mods[k]).line_no == base + k,
    ensures
        mods_at(mods, key) == (if base <= key < base + mods.len() {
            seq![mods[key - base]]
        } else {
            Seq::<ModView>::empty()
        }),
    decreases mods.len(),
{
    if mods.len() > 0 {
        let front = mods.drop_last();
        assert forall|k: int| 0 <= k < front.len() implies (#[trigger] front[k]).line_no == base + k by {
            assert(front[k] == mods[k]);
        }
        lemma_mods_at_consecutive(front, base, key);
        assert(mods[mods.len() - 1].line_no == base + mods.len() - 1);
        if key == base + mods.len() - 1 {
            assert(Seq::<ModView>::empty().push(mods.last()) =~= seq![mods[key - base]]);
        } else if base <= key < base + front.len() {
            assert(front[key - base] == mods[key - base]);
        }
    } else {
        assert(mods_at(mods, key) == Seq::<ModView>::empty());
    }
}

proof fn lemma_changed_lines_concat(x: Seq<ModView>, y: Seq<ModView>)
    ensures
        changed_lines(x + y) == changed_lines(x) + changed_lines(y),
    decreases y.len(),
{
    if y.len() == 0 {
        assert(x + y =~= x);
        assert(changed_lines(x) + changed_lines(y) =~= changed_lines(x));
    } else {
        lemma_changed_lines_concat(x, y.drop_last());
        assert((x + y).drop_last() =~= x + y.drop_last());
        assert((x + y).last() == y.last());
        assert((changed_lines(x) + changed_lines(y.drop_last())).push(y.last().line) =~= changed_lines(x) + changed_lines(
            y.drop_last(),
        ).push(y.last().line));
    }
}

proof fn lemma_changed_lines_of_additions(mods: Seq<ModView>)
    requires
        forall|k: int| 0 <= k < mods.len() ==> (#[trigger] mods[k]).mod_type != LineModificationType::Delete,
    ensures
        changed_lines(mods) == mods.map_values(|m: ModView| m.line),
    decreases mods.len(),
{
    if mods.len() > 0 {
        let front = mods.drop_last();
        assert forall|k: int| 0 <= k < front.len() implies (#[trigger] front[k]).mod_type != LineModificationType::Delete by {
            assert(front[k] == mods[k]);
        }
        lemma_changed_lines_of_additions(front);
        assert(mods[mods.len() - 1].mod_type != LineModificationType::Delete);
        assert(front.map_values(|m: ModView| m.line).push(mods.last().line) =~= mods.map_values(|m: ModView| m.line));
    } else {
        assert(mods.map_values(|m: ModView| m.line) =~= Seq::<Seq<char>>::empty());
    }
}

/// What one position emits when the first side changes nothing.
proof fn lemma_step_single(o: Seq<Seq<char>>, m: Seq<ModView>, ln: int)
    ensures
        step_events(o, category(Seq::<ModView>::empty(), ln + 1), category(m, ln + 1), ln) == (if mods_at(m, ln + 1).len() == 0 {
            keep_all(original_lines_at(o, ln))
        } else {
            keep_all(changed_lines(mods_at(m, ln + 1))) + (if mods_at(m, ln + 1)[0].mod_type == LineModificationType::Insert {
                keep_all(original_lines_at(o, ln))
            } else {
                Seq::<MergeEvent>::empty()
            })
        }),
{
    lemma_mods_at_empty(ln + 1);
}

proof fn lemma_replace_stretch(o: Seq<Seq<char>>, m: Seq<ModView>, lo: int, hi: int, ls: Seq<Seq<char>>)
    requires
        lo <= hi,
        ls.len() == hi - lo,
        forall|key: int|
            lo + 1 <= key <= hi ==> #[trigger] mods_at(m, key) == seq![
                ModView { mod_type: LineModificationType::Replace, line_no: key, line: ls[key - lo - 1] },
            ],
    ensures
        events_between(o, Seq::<ModView>::empty(), m, lo, hi) == keep_all(ls),
    decreases hi - lo,
{
    if lo == hi {
        assert(keep_all(ls) =~= Seq::<MergeEvent>::empty());
    } else {
        let c = mods_at(m, lo + 1);
        assert(c == seq![ModView { mod_type: LineModificationType::Replace, line_no: lo + 1, line: ls[0] }]);
        lemma_step_single(o, m, lo);
        assert(c.drop_last() =~= Seq::<ModView>::empty());
        assert(changed_lines(c.drop_last()) == Seq::<Seq<char>>::empty());
        assert(c.last().mod_type == LineModificationType::Replace);
        assert(changed_lines(c) =~= seq![ls[0]]);
        let rest = ls.drop_first();
        assert forall|key: int| lo + 2 <= key <= hi implies #[trigger] mods_at(m, key) == seq![
            ModView { mod_type: LineModificationType::Replace, line_no: key, line: rest[key - (lo + 1) - 1] },
        ] by {
            assert(rest[key - lo - 2] == ls[key - lo - 1]);
        }
        lemma_replace_stretch(o, m, lo + 1, hi, rest);
        assert(keep_all(seq![ls[0]]) + Seq::<MergeEvent>::empty() + keep_all(rest) =~= keep_all(ls));
    }
}

/// A block that deletes at least two lines does not insert more lines than
/// it deletes.
pub open spec fn gap_ok(deleted: int, inserted: int) -> bool {
    !(deleted >= 2 && inserted > deleted)
}

/// Every block of changes of the script from `i`, `j` on, between the matched
/// pairs `ps`, is one that `gap_ok` allows.
pub open spec fn blocks_ok(ps: Seq<(int, int)>, i: int, j: int, n: int, m: int) -> bool
    decreases ps.len(),
{
    if ps.len() == 0 {
        gap_ok(n - i, m - j)
    } else {
        gap_ok(ps[0].0 - i, ps[0].1 - j) && blocks_ok(ps.drop_first(), ps[0].0 + 1, ps[0].1 + 1, n, m)
    }
}

/// With no change on the first side, one block of changes of the second and
/// the original line after it emit the block's inserted lines and that line.
#[verifier::spinoff_prover]
proof fn lemma_gap_events(a: Seq<Seq<char>>, b: Seq<Seq<char>>, i: int, p: int, j: int, q: int, m: Seq<ModView>)
    requires
        0 <= i <= p <= a.len(),
        0 <= j <= q <= b.len(),
        gap_ok(p - i, q - j),
        forall|key: int| i + 1 <= key <= p + 1 ==> #[trigger] mods_at(m, key) == mods_at(gap_form(a, b, i, p, j, q), key),
    ensures
        events_between(a, Seq::<ModView>::empty(), m, i, p + 1) == keep_all(b.subrange(j, q) + original_lines_at(a, p)),
{
    let none = Seq::<ModView>::empty();
    let np = p - i;
    let nq = q - j;
    let r = min_of(np, nq);
    let rm = rep_mods(b, i, j, r);
    let im = ins_mods(b, j + r, q, i + 1);
    let dm = del_mods(a, i + r, p);
    let g = gap_form(a, b, i, p, j, q);
    let orig = original_lines_at(a, p);
    assert forall|key: int| #[trigger] mods_at(g, key) == mods_at(rm, key) + mods_at(im, key) + mods_at(dm, key) by {
        lemma_mods_at_concat(rm + im, dm, key);
        lemma_mods_at_concat(rm, im, key);
    }
    assert forall|key: int| #[trigger] mods_at(rm, key) == (if i + 1 <= key < i + 1 + rm.len() {
        seq![rm[key - i - 1]]
    } else {
        Seq::<ModView>::empty()
    }) by {
        lemma_mods_at_consecutive(rm, i + 1, key);
    }
    assert forall|key: int| #[trigger] mods_at(dm, key) == (if i + r + 1 <= key < i + r + 1 + dm.len() {
        seq![dm[key - i - r - 1]]
    } else {
        Seq::<ModView>::empty()
    }) by {
        lemma_mods_at_consecutive(dm, i + r + 1, key);
    }
    lemma_mods_at_all_key(im, i + 1);
    assert forall|key: int| key != i + 1 implies #[trigger] mods_at(im, key) == Seq::<ModView>::empty() by {
        lemma_mods_at_absent(im, key);
    }
    let e = Seq::<ModView>::empty();
    if np == 0 {
        // Only insertions: they all go before the original line `p`.
        assert(rm =~= e);
        assert(dm =~= e);
        assert(mods_at(m, i + 1) =~= im);
        lemma_step_single(a, m, i);
        assert(events_between(a, none, m, i + 1, p + 1) == Seq::<MergeEvent>::empty());
        if nq == 0 {
            assert(b.subrange(j, q) =~= Seq::<Seq<char>>::empty());
            assert(Seq::<Seq<char>>::empty() + orig =~= orig);
        } else {
            lemma_changed_lines_of_additions(im);
            assert(im.map_values(|c: ModView| c.line) =~= b.subrange(j, q));
            assert(im[0].mod_type == LineModificationType::Insert);
            assert(keep_all(b.subrange(j, q)) + keep_all(orig) =~= keep_all(b.subrange(j, q) + orig));
        }
        assert(events_between(a, none, m, i, p + 1) == step_events(a, category(none, i + 1), category(m, i + 1), i)
            + events_between(a, none, m, i + 1, p + 1));
        assert(step_events(a, category(none, i + 1), category(m, i + 1), i) + Seq::<MergeEvent>::empty() =~= step_events(
            a,
            category(none, i + 1),
            category(m, i + 1),
            i,
        ));
    } else {
        // The deleted lines past the replaced ones emit nothing, and the
        // original line after the block comes back.
        lemma_events_split(a, none, m, i, p, p + 1);
        assert(mods_at(m, p + 1) =~= e);
        lemma_step_single(a, m, p);
        assert(events_between(a, none, m, p + 1, p + 1) == Seq::<MergeEvent>::empty());
        assert(events_between(a, none, m, p, p + 1) =~= keep_all(orig));
        if nq == 0 {
            assert(r == 0);
            assert(rm =~= e);
            assert(im =~= e);
            assert forall|key: int| i + 1 <= key <= p implies #[trigger] mods_at(m, key).len() > 0 && all_deletes(mods_at(m, key)) by {
                assert(mods_at(m, key) =~= seq![dm[key - i - 1]]);
            }
            lemma_delete_stretch(a, none, m, i, p);
            assert(b.subrange(j, q) =~= Seq::<Seq<char>>::empty());
            assert(Seq::<Seq<char>>::empty() + orig =~= orig);
            assert(Seq::<MergeEvent>::empty() + keep_all(orig) =~= keep_all(orig));
        } else {
            assert(r >= 1);
            lemma_events_split(a, none, m, i, i + r, p);
            lemma_events_split(a, none, m, i, i + 1, i + r);
            // The block's first line: its replacement, then the inserted lines
            // left over.
            let c = mods_at(m, i + 1);
            assert(c =~= seq![rm[0]] + im);
            lemma_step_single(a, m, i);
            assert forall|k: int| 0 <= k < c.len() implies (#[trigger] c[k]).mod_type != LineModificationType::Delete by {
                if k > 0 {
                    assert(c[k] == im[k - 1]);
                }
            }
            lemma_changed_lines_of_additions(c);
            assert(c.map_values(|x: ModView| x.line) =~= seq![b[j]] + b.subrange(j + r, q));
            assert(c[0].mod_type == LineModificationType::Replace);
            assert(events_between(a, none, m, i + 1, i + 1) == Seq::<MergeEvent>::empty());
            assert(events_between(a, none, m, i, i + 1) =~= keep_all(seq![b[j]] + b.subrange(j + r, q)));
            // The other replaced lines.
            assert forall|key: int| i + 2 <= key <= i + r implies #[trigger] mods_at(m, key) == seq![
                ModView { mod_type: LineModificationType::Replace, line_no: key, line: b.subrange(j + 1, j + r)[key - (i + 1) - 1] },
            ] by {
                assert(mods_at(m, key) =~= seq![rm[key - i - 1]]);
            }
            lemma_replace_stretch(a, m, i + 1, i + r, b.subrange(j + 1, j + r));
            // The deleted lines left over.
            assert forall|key: int| i + r + 1 <= key <= p implies #[trigger] mods_at(m, key).len() > 0 && all_deletes(mods_at(m, key)) by {
                assert(mods_at(m, key) =~= seq![dm[key - i - r - 1]]);
            }
            lemma_delete_stretch(a, none, m, i + r, p);
            if r == 1 {
                assert(b.subrange(j + 1, j + r) =~= Seq::<Seq<char>>::empty());
                assert(seq![b[j]] + b.subrange(j + r, q) =~= b.subrange(j, q));
            } else {
                assert(r == nq);
                assert(b.subrange(j + r, q) =~= Seq::<Seq<char>>::empty());
                assert(seq![b[j]] + b.subrange(j + 1, j + r) =~= b.subrange(j, q));
            }
            assert(keep_all(seq![b[j]] + b.subrange(j + r, q)) + keep_all(b.subrange(j + 1, j + r)) + Seq::<MergeEvent>::empty()
                + keep_all(orig) =~= keep_all(b.subrange(j, q) + orig));
        }
    }
}

proof fn lemma_gap_form_keys(a: Seq<Seq<char>>, b: Seq<Seq<char>>, i: int, p: int, j: int, q: int)
    requires
        0 <= i <= p,
        j <= q,
    ensures
        forall|x: int|
            0 <= x < gap_form(a, b, i, p, j, q).len() ==> i + 1 <= (#[trigger] gap_form(a, b, i, p, j, q)[x]).line_no <= (if p
                > i {
                p
            } else {
                i + 1
            }),
{
    let r = min_of(p - i, q - j);
    let rm = rep_mods(b, i, j, r);
    let im = ins_mods(b, j + r, q, i + 1);
    let dm = del_mods(a, i + r, p);
    let g = gap_form(a, b, i, p, j, q);
    assert forall|x: int| 0 <= x < g.len() implies i + 1 <= (#[trigger] g[x]).line_no <= (if p > i { p } else { i + 1 }) by {
        if x < rm.len() {
            assert(g[x] == rm[x]);
        } else if x < rm.len() + im.len() {
            assert(g[x] == im[x - rm.len()]);
        } else {
            assert(g[x] == dm[x - rm.len() - im.len()]);
        }
    }
}

proof fn lemma_script_mods_keys(a: Seq<Seq<char>>, b: Seq<Seq<char>>, ps: Seq<(int, int)>, i: int, j: int)
    requires
        0 <= i <= a.len(),
        0 <= j <= b.len(),
        forall|k: int| 0 <= k < ps.len() ==> i <= (#[trigger] ps[k]).0 < a.len() && j <= ps[k].1 < b.len(),
        forall|k: int, l: int| 0 <= k < l < ps.len() ==> (#[trigger] ps[k]).0 < (#[trigger] ps[l]).0 && ps[k].1 < ps[l].1,
    ensures
        forall|x: int| 0 <= x < script_mods(a, b, ps, i, j).len() ==> (#[trigger] script_mods(a, b, ps, i, j)[x]).line_no >= i + 1,
    decreases ps.len(),
{
    let sm = script_mods(a, b, ps, i, j);
    if ps.len() == 0 {
        lemma_gap_mods_form(a, b, i, a.len() as int, j, b.len() as int);
        lemma_gap_form_keys(a, b, i, a.len() as int, j, b.len() as int);
    } else {
        let p = ps[0];
        let rest = ps.drop_first();
        assert forall|k: int| 0 <= k < rest.len() implies p.0 + 1 <= (#[trigger] rest[k]).0 < a.len() && p.1 + 1 <= rest[k].1
            < b.len() by {
            assert(rest[k] == ps[k + 1]);
        }
        assert forall|k: int, l: int| 0 <= k < l < rest.len() implies (#[trigger] rest[k]).0 < (#[trigger] rest[l]).0
            && rest[k].1 < rest[l].1 by {
            assert(rest[k] == ps[k + 1] && rest[l] == ps[l + 1]);
        }
        lemma_script_mods_keys(a, b, rest, p.0 + 1, p.1 + 1);
        lemma_gap_mods_form(a, b, i, p.0, j, p.1);
        lemma_gap_form_keys(a, b, i, p.0, j, p.1);
        let g = gap_mods(a, b, i, p.0, j, p.1);
        let sr = script_mods(a, b, rest, p.0 + 1, p.1 + 1);
        assert forall|x: int| 0 <= x < sm.len() implies (#[trigger] sm[x]).line_no >= i + 1 by {
            if x < g.len() {
                assert(sm[x] == g[x]);
            } else {
                assert(sm[x] == sr[x - g.len()]);
            }
        }
    }
}

/// Changes keyed up to `p + 1` and changes keyed after it, looked up apart.
proof fn lemma_split_keys(m: Seq<ModView>, g: Seq<ModView>, sr: Seq<ModView>, i: int, p: int)
    requires
        forall|key: int| key >= i + 1 ==> #[trigger] mods_at(m, key) == mods_at(g + sr, key),
        forall|x: int| 0 <= x < g.len() ==> (#[trigger] g[x]).line_no <= p + 1,
        forall|x: int| 0 <= x < sr.len() ==> (#[trigger] sr[x]).line_no >= p + 2,
    ensures
        forall|key: int| i + 1 <= key <= p + 1 ==> #[trigger] mods_at(m, key) == mods_at(g, key),
        forall|key: int| key >= p + 2 && key >= i + 1 ==> #[trigger] mods_at(m, key) == mods_at(sr, key),
{
    assert forall|key: int| i + 1 <= key <= p + 1 implies #[trigger] mods_at(m, key) == mods_at(g, key) by {
        lemma_mods_at_concat(g, sr, key);
        lemma_mods_at_absent(sr, key);
        assert(mods_at(g, key) + Seq::<ModView>::empty() =~= mods_at(g, key));
    }
    assert forall|key: int| key >= p + 2 && key >= i + 1 implies #[trigger] mods_at(m, key) == mods_at(sr, key) by {
        lemma_mods_at_concat(g, sr, key);
        lemma_mods_at_absent(g, key);
        assert(Seq::<ModView>::empty() + mods_at(sr, key) =~= mods_at(sr, key));
    }
}

/// With no change on the first side, a version whose blocks of changes `gap_ok`
/// allows replays, from position `i` of the original and `j` of the version
/// on, into the rest of the version.
#[verifier::spinoff_prover]
proof fn lemma_mixed_replay(a: Seq<Seq<char>>, b: Seq<Seq<char>>, ps: Seq<(int, int)>, i: int, j: int, m: Seq<ModView>)
    requires
        0 <= i <= a.len(),
        0 <= j <= b.len(),
        forall|k: int|
            0 <= k < ps.len() ==> i <= (#[trigger] ps[k]).0 < a.len() && j <= ps[k].1 < b.len() && a[ps[k].0] == b[ps[k].1],
        forall|k: int, l: int| 0 <= k < l < ps.len() ==> (#[trigger] ps[k]).0 < (#[trigger] ps[l]).0 && ps[k].1 < ps[l].1,
        blocks_ok(ps, i, j, a.len() as int, b.len() as int),
        forall|key: int| key >= i + 1 ==> #[trigger] mods_at(m, key) == mods_at(script_mods(a, b, ps, i, j), key),
    ensures
        events_between(a, Seq::<ModView>::empty(), m, i, a.len() as int + 1) == keep_all(b.subrange(j, b.len() as int)),
    decreases ps.len(),
{
    let n = a.len() as int;
    let none = Seq::<ModView>::empty();
    if ps.len() == 0 {
        lemma_gap_mods_form(a, b, i, n, j, b.len() as int);
        lemma_gap_events(a, b, i, n, j, b.len() as int, m);
        assert(original_lines_at(a, n) =~= Seq::<Seq<char>>::empty());
        assert(b.subrange(j, b.len() as int) + Seq::<Seq<char>>::empty() =~= b.subrange(j, b.len() as int));
    } else {
        let p = ps[0];
        let rest = ps.drop_first();
        assert forall|k: int| 0 <= k < rest.len() implies p.0 + 1 <= (#[trigger] rest[k]).0 < a.len() && p.1 + 1 <= rest[k].1
            < b.len() && a[rest[k].0] == b[rest[k].1] by {
            assert(rest[k] == ps[k + 1]);
        }
        assert forall|k: int, l: int| 0 <= k < l < rest.len() implies (#[trigger] rest[k]).0 < (#[trigger] rest[l]).0
            && rest[k].1 < rest[l].1 by {
            assert(rest[k] == ps[k + 1] && rest[l] == ps[l + 1]);
        }
        lemma_gap_mods_form(a, b, i, p.0, j, p.1);
        lemma_gap_form_keys(a, b, i, p.0, j, p.1);
        lemma_script_mods_keys(a, b, rest, p.0 + 1, p.1 + 1);
        let g = gap_form(a, b, i, p.0, j, p.1);
        let sr = script_mods(a, b, rest, p.0 + 1, p.1 + 1);
        assert(script_mods(a, b, ps, i, j) == g + sr);
        lemma_split_keys(m, g, sr, i, p.0);
        lemma_gap_events(a, b, i, p.0, j, p.1, m);
        lemma_mixed_replay(a, b, rest, p.0 + 1, p.1 + 1, m);
        lemma_events_split(a, none, m, i, p.0 + 1, n + 1);
        assert(original_lines_at(a, p.0) =~= seq![b[p.1]]);
        assert(b.subrange(j, p.1) + seq![b[p.1]] + b.subrange(p.1 + 1, b.len() as int) =~= b.subrange(j, b.len() as int));
        assert(keep_all(b.subrange(j, p.1) + seq![b[p.1]]) + keep_all(b.subrange(p.1 + 1, b.len() as int)) =~= keep_all(
            b.subrange(j, b.len() as int),
        ));
    }
}

/// Law: when one version leaves the original as it is, the merge is the other
/// version, as one segment of lines (none when it is empty), whatever the
/// other changes: insertions, deletions and replacements alike, provided no
/// block of changes of its diff against the original both deletes two or more
/// lines and inserts more lines than it deletes. (Such a block puts its extra
/// inserted lines before its second replacing line, as the merge keys them to
/// the block's first line.)
pub proof fn lemma_one_sided_merge_gives_the_changed_version(o: Seq<Seq<char>>, v: Seq<Seq<char>>)
    requires
        blocks_ok(lcs_trace(o, v, o.len() as int, v.len() as int), 0, 0, o.len() as int, v.len() as int),
    ensures
        merged(o, o, v) == (if v.len() > 0 {
            seq![MergeSegmentView::Lines { lines: v }]
        } else {
            Seq::<MergeSegmentView>::empty()
        }),
        merged(o, v, o) == (if v.len() > 0 {
            seq![MergeSegmentView::Lines { lines: v }]
        } else {
            Seq::<MergeSegmentView>::empty()
        }),
{
    lemma_unchanged_version_has_no_mods(o);
    let none = Seq::<ModView>::empty();
    let n = o.len() as int;
    let tr = lcs_trace(o, v, n, v.len() as int);
    lemma_trace_is_common_subsequence(o, v, n, v.len() as int);
    let e = diff_lines(o, v);
    let m = version_mods(o, v);
    lemma_runs_script(o, v, tr, 0, 0, Seq::<LineView>::empty());
    assert(Seq::<LineView>::empty() + e =~= e);
    assert(m == script_mods(o, v, tr, 0, 0));
    lemma_mixed_replay(o, v, tr, 0, 0, m);
    assert(v.subrange(0, v.len() as int) =~= v);
    lemma_merge_events_forward(o, none, m, n + 1);
    assert(merge_events(o, none, m, n + 1) == keep_all(v));
    lemma_fold_keep_all(Seq::<MergeEvent>::empty(), v);
    assert(Seq::<MergeEvent>::empty() + keep_all(v) =~= keep_all(v));
    assert(Seq::<Seq<char>>::empty() + v =~= v);
    lemma_merge_is_symmetric(o, o, v);
    let one = if v.len() > 0 {
        seq![MergeSegmentView::Lines { lines: v }]
    } else {
        Seq::<MergeSegmentView>::empty()
    };
    assert(swap_conflicts(one) =~= one);
}

} // verus!
