//! What the `diff` and `merge` commands print: the text, line by line, with
//! the terminal colour codes of the diff.

use vstd::prelude::*;
use vstd::string::StringExecFns;
use vstd::string::StrSliceExecFns;
use std::collections::HashSet;
use crate::diff::{lines_view, segments_view, DiffLine, DiffSegment, DiffType, FileDiff, LineView, SegmentType, SegmentView};
use crate::merge::{merge_segments_view, MergeResult, MergeSegment, MergeSegmentView};
use crate::diff::{diff, diff_lines, lemma_diff_of_identical_files, lemma_diff_reconstructs_both_files, lemma_runs_are_maximal, runs, text_view};
use crate::diff::{all_lines, new_side, old_side};

verus! {

broadcast use vstd::std_specs::hash::group_hash_axioms;

// ASCII escape codes for diff color
pub const RED_COLOR: &'static str = "\u{001B}[31m";
pub const BLUE_COLOR: &'static str = "\u{001B}[34m";
pub const GREEN_COLOR: &'static str = "\u{001B}[32m";
pub const RESET_COLOR: &'static str = "\u{001B}[0m";

/// The decimal digit of `n`, for `0 <= n < 10`.
pub open spec fn digit_char(n: int) -> char {
    seq!['0', '1', '2', '3', '4', '5', '6', '7', '8', '9'][n]
}

/// `n` in decimal, without leading zeros.
pub open spec fn decimal(n: nat) -> Seq<char>
    decreases n,
{
    if n < 10 {
        seq![digit_char(n as int)]
    } else {
        decimal(n / 10) + seq![digit_char((n % 10) as int)]
    }
}

/// `c` is a decimal digit.
pub open spec fn is_digit(c: char) -> bool {
    '0' <= c && c <= '9'
}

/// The value of the decimal digit `c`.
pub open spec fn digit_value(c: char) -> int {
    (c as int) - ('0' as int)
}

/// The number a string of decimal digits stands for, most significant digit
/// first.
pub open spec fn numeral_value(s: Seq<char>) -> int
    decreases s.len(),
{
    if s.len() == 0 {
        0
    } else {
        numeral_value(s.drop_last()) * 10 + digit_value(s.last())
    }
}

proof fn lemma_digit_char(d: int)
    requires
        0 <= d < 10,
    ensures
        is_digit(digit_char(d)),
        digit_value(digit_char(d)) == d,
{
    let ds = seq!['0', '1', '2', '3', '4', '5', '6', '7', '8', '9'];
    assert(digit_char(d) == ds[d]);
    if d == 0 { assert(ds[0] == '0'); }
    else if d == 1 { assert(ds[1] == '1'); }
    else if d == 2 { assert(ds[2] == '2'); }
    else if d == 3 { assert(ds[3] == '3'); }
    else if d == 4 { assert(ds[4] == '4'); }
    else if d == 5 { assert(ds[5] == '5'); }
    else if d == 6 { assert(ds[6] == '6'); }
    else if d == 7 { assert(ds[7] == '7'); }
    else if d == 8 { assert(ds[8] == '8'); }
    else { assert(ds[9] == '9'); }
}

/// Law: `decimal(n)` is the usual decimal numeral of `n`: a non-empty string
/// of digits that reads back as `n`, with no leading zero (only `0` itself
/// starts with `0`).
pub proof fn lemma_decimal_reads_back(n: nat)
    ensures
        decimal(n).len() > 0,
        forall|i: int| 0 <= i < decimal(n).len() ==> is_digit(#[trigger] decimal(n)[i]),
        numeral_value(decimal(n)) == n,
        decimal(n)[0] == '0' <==> n == 0,
    decreases n,
{
    let s = decimal(n);
    if n < 10 {
        lemma_digit_char(n as int);
        assert(s.drop_last() =~= Seq::<char>::empty());
        assert(s.last() == digit_char(n as int));
        assert(numeral_value(s.drop_last()) == 0);
        assert(numeral_value(s) == numeral_value(s.drop_last()) * 10 + digit_value(s.last()));
    } else {
        let hi = decimal(n / 10);
        lemma_decimal_reads_back(n / 10);
        lemma_digit_char((n % 10) as int);
        assert(s == hi + seq![digit_char((n % 10) as int)]);
        assert(s.drop_last() =~= hi);
        assert(s[0] == hi[0]);
        assert forall|i: int| 0 <= i < s.len() implies is_digit(#[trigger] s[i]) by {
            if i < hi.len() {
                assert(s[i] == hi[i]);
            }
        }
        assert(s.last() == digit_char((n % 10) as int));
        assert(numeral_value(s) == numeral_value(hi) * 10 + digit_value(s.last()));
        assert(n == (n / 10) * 10 + n % 10);
    }
}

/// Appends `n` in decimal to `out`.
fn push_decimal(out: &mut String, n: usize)
    ensures
        final(out)@ == old(out)@ + decimal(n as nat),
    decreases n,
{
    if n >= 10 {
        push_decimal(out, n / 10);
    }
    let digits = "0123456789";
    proof {
        reveal_strlit("0123456789");
    }
    let d = n % 10;
    let s = digits.substring_char(d, d + 1);
    out.append(s);
    proof {
        assert(s@ =~= seq![digit_char(d as int)]);
        if n < 10 {
            assert(out@ =~= old(out)@ + decimal(n as nat));
        } else {
            assert(decimal(n as nat) == decimal((n / 10) as nat) + seq![digit_char((n % 10) as int)]);
            assert(out@ =~= old(out)@ + decimal(n as nat));
        }
    }
}

/// The context lines of a diff that get printed: each one whose number was not
/// printed before, indented by two spaces.
pub open spec fn context_text(lines: Seq<LineView>, processed: Set<usize>) -> Seq<Seq<char>>
    decreases lines.len(),
{
    if lines.len() == 0 {
        seq![]
    } else if processed.contains(lines.last().line_no as usize) {
        context_text(lines.drop_last(), processed)
    } else {
        context_text(lines.drop_last(), processed).push("  "@ + lines.last().line)
    }
}

/// The numbers of `lines`.
pub open spec fn line_nos(lines: Seq<LineView>) -> Set<usize> {
    lines.map_values(|l: LineView| l.line_no as usize).to_set()
}

/// The printed form of the changed lines: insertions in green after `+ `,
/// deletions in red after `- `; equal lines are not printed.
pub open spec fn changed_text(lines: Seq<LineView>) -> Seq<Seq<char>>
    decreases lines.len(),
{
    if lines.len() == 0 {
        seq![]
    } else {
        let front = changed_text(lines.drop_last());
        let l = lines.last();
        if l.diff_type == DiffType::Insert {
            front.push(GREEN_COLOR@ + "+ "@ + l.line + RESET_COLOR@)
        } else if l.diff_type == DiffType::Delete {
            front.push(RED_COLOR@ + "- "@ + l.line + RESET_COLOR@)
        } else {
            front
        }
    }
}

/// The header of a run of changes starting at first-file line `line_no`.
pub open spec fn hunk_header(line_no: int) -> Seq<char> {
    BLUE_COLOR@ + "@ line_no:"@ + decimal(line_no as nat) + RESET_COLOR@
}

/// The lines of `list` from `from` to `to`, both clamped into its range.
pub open spec fn sub_list(list: Seq<LineView>, from: int, to: int) -> Seq<LineView> {
    let lo = if from < 0 { 0 } else { from };
    let hi = if to > list.len() { list.len() as int } else { to };
    list.subrange(lo, hi)
}

/// The unchanged lines printed around segment `i`: before a run of changes,
/// the last four lines of the equal segment before it; after a run of
/// changes, the first four lines of the equal segment after it.
pub open spec fn context_of(segs: Seq<SegmentView>, i: int) -> Seq<LineView> {
    if i > 0 && segs[i].segment_type == SegmentType::Diff && segs[i - 1].segment_type == SegmentType::Equal {
        let prev = segs[i - 1].lines;
        sub_list(prev, prev.len() - 4, prev.len() as int)
    } else if i > 0 && segs[i].segment_type == SegmentType::Equal && segs[i - 1].segment_type == SegmentType::Diff {
        sub_list(segs[i].lines, 0, 4)
    } else {
        seq![]
    }
}

/// What gets printed for segments `i..` when the line numbers in `processed`
/// were printed as context already: for each segment, its context lines not
/// printed before, then, for a run of changes, its header and its lines.
pub open spec fn render_from(segs: Seq<SegmentView>, i: int, processed: Set<usize>) -> Seq<Seq<char>>
    decreases segs.len() - i,
{
    if i < 0 || i >= segs.len() {
        seq![]
    } else {
        let seg = segs[i];
        let ctx = context_of(segs, i);
        let own = if seg.segment_type == SegmentType::Diff {
            seq![hunk_header(seg.lines[0].line_no)] + changed_text(seg.lines)
        } else {
            seq![]
        };
        context_text(ctx, processed) + own + render_from(segs, i + 1, processed.union(line_nos(ctx)))
    }
}

/// What `diff` prints: nothing when the files are the same, otherwise every
/// run of changes with up to four unchanged lines of context on each side.
pub open spec fn rendered_diff(segs: Seq<SegmentView>) -> Seq<Seq<char>> {
    if segs.len() == 1 && segs[0].segment_type == SegmentType::Equal {
        seq![]
    } else {
        render_from(segs, 0, Set::empty())
    }
}

proof fn lemma_push_to_set(s: Seq<usize>, x: usize)
    ensures
        s.push(x).to_set() == s.to_set().insert(x),
{
    Seq::lemma_to_set_insert_commutes(s, x);
    assert(s.push(x) =~= s + seq![x]);
}

/// A copy of a diff line.
fn copy_line(line: &DiffLine) -> (res: DiffLine)
    ensures
        res@ == line@,
{
    DiffLine { diff_type: line.diff_type, line_no: line.line_no, line: line.line.clone() }
}

/// The lines of `list` from `anchor` on (a non-negative `line_count`) or up to
/// `anchor` (a negative one), `line_count` of them as far as the list
/// reaches.
fn safe_sub_list(list: &Vec<DiffLine>, anchor: usize, line_count: i64) -> (res: Vec<DiffLine>)
    requires
        anchor <= list@.len(),
        list@.len() <= i64::MAX,
        anchor + line_count <= i64::MAX,
        anchor + line_count <= usize::MAX,
    ensures
        lines_view(res@) == (if line_count < 0 {
            sub_list(lines_view(list@), anchor + line_count, anchor as int)
        } else {
            sub_list(lines_view(list@), anchor as int, anchor + line_count)
        }),
{
    let from_index: i64 = if line_count < 0 {
        anchor as i64 + line_count
    } else {
        anchor as i64
    };

    let to_index: i64 = if line_count < 0 {
        anchor as i64
    } else {
        anchor as i64 + line_count
    };

    let lo: usize = if from_index < 0 { 0 } else { from_index as usize };
    let to = to_index as usize;
    let hi: usize = if to < list.len() { to } else { list.len() };
    assert(lo <= hi);
    let ghost lv = lines_view(list@);
    let mut res: Vec<DiffLine> = Vec::new();
    let mut k = lo;
    while k < hi
        invariant
            lo <= k <= hi,
            hi <= list@.len(),
            lv == lines_view(list@),
            lines_view(res@) == lv.subrange(lo as int, k as int),
        decreases hi - k,
    {
        let ghost before = res@;
        res.push(copy_line(&list[k]));
        proof {
            assert(res@ == before.push(res@[res@.len() - 1]));
            assert(lines_view(res@) =~= lines_view(before).push(lv[k as int]));
            assert(lines_view(res@) =~= lv.subrange(lo as int, k + 1));
        }
        k += 1;
    }
    res
}

/// The segment at `index`, if there is one.
fn get(segments: &Vec<DiffSegment>, index: i64) -> (res: Option<&DiffSegment>)
    requires
        segments@.len() <= i64::MAX,
    ensures
        res is Some <==> (0 <= index < segments@.len()),
        res matches Some(s) ==> *s == segments@[index as int],
{
    if index < 0 {
        None
    } else if index < segments.len() as i64 {
        Some(&segments[index as usize])
    } else {
        None
    }
}

/// Prints, as context, the lines of `equal_lines` whose numbers were not
/// printed before, then records their numbers as printed.
fn print_equal_lines(equal_lines: &Vec<DiffLine>, processed: &mut HashSet<usize>, out: &mut Vec<String>)
    ensures
        text_view(final(out)@) == text_view(old(out)@) + context_text(lines_view(equal_lines@), old(processed)@),
        final(processed)@ == old(processed)@.union(line_nos(lines_view(equal_lines@))),
{
    /*
     * There's an edge case where the same equal (non-diff) line could be printed multiple times,
     * so this logic below tracks if we've ever seen a line before and filters it out.
     */
    let ghost lv = lines_view(equal_lines@);
    let ghost seen = processed@;
    let mut n_processed: Vec<usize> = Vec::new();
    let mut k: usize = 0;
    proof {
        assert(lv.take(0) =~= Seq::<LineView>::empty());
        assert(text_view(out@) + context_text(lv.take(0), seen) =~= text_view(out@));
    }
    while k < equal_lines.len()
        invariant
            0 <= k <= equal_lines@.len(),
            lv == lines_view(equal_lines@),
            processed@ == seen,
            text_view(out@) == text_view(old(out)@) + context_text(lv.take(k as int), seen),
            n_processed@.to_set().union(seen) == line_nos(lv.take(k as int)).union(seen),
        decreases equal_lines@.len() - k,
    {
        let it = &equal_lines[k];
        proof {
            assert(lv.take(k + 1).drop_last() =~= lv.take(k as int));
            assert(lv.take(k + 1).last() == it@);
            assert(lv.take(k + 1).map_values(|l: LineView| l.line_no as usize) =~= lv.take(k as int).map_values(
                |l: LineView| l.line_no as usize,
            ).push(it.line_no));
            assert(line_nos(lv.take(k + 1)) =~= line_nos(lv.take(k as int)).insert(it.line_no)) by {
                lemma_push_to_set(
                    lv.take(k as int).map_values(|l: LineView| l.line_no as usize),
                    it.line_no,
                );
            };
        }
        if !processed.contains(&it.line_no) {
            let mut text = String::from_str("  ");
            text.append(it.line.as_str());
            let ghost before = text_view(out@);
            out.push(text);
            let ghost before_nos = n_processed@;
            n_processed.push(it.line_no);
            proof {
                assert(text_view(out@) =~= before.push("  "@ + it.line@));
                assert(text_view(out@) =~= text_view(old(out)@) + context_text(lv.take(k + 1), seen));
                lemma_push_to_set(before_nos, it.line_no);
                assert(n_processed@ == before_nos.push(it.line_no));
                assert(n_processed@.to_set() == before_nos.to_set().insert(it.line_no));
                assert(line_nos(lv.take(k + 1)) == line_nos(lv.take(k as int)).insert(it.line_no));
                assert(before_nos.to_set().union(seen) == line_nos(lv.take(k as int)).union(seen));
                assert forall|x: usize| n_processed@.to_set().union(seen).contains(x) <==> line_nos(lv.take(k + 1)).union(seen).contains(x) by {
                    assert(before_nos.to_set().union(seen).contains(x) <==> line_nos(lv.take(k as int)).union(seen).contains(x));
                }
                assert(n_processed@.to_set().union(seen) =~= line_nos(lv.take(k + 1)).union(seen));
            }
        } else {
            proof {
                assert(seen.contains(it.line_no));
                assert(line_nos(lv.take(k + 1)) == line_nos(lv.take(k as int)).insert(it.line_no));
                assert forall|x: usize| n_processed@.to_set().union(seen).contains(x) <==> line_nos(lv.take(k + 1)).union(seen).contains(x) by {
                    assert(n_processed@.to_set().union(seen).contains(x) <==> line_nos(lv.take(k as int)).union(seen).contains(x));
                }
                assert(n_processed@.to_set().union(seen) =~= line_nos(lv.take(k + 1)).union(seen));
            }
        }
        k += 1;
    }
    proof {
        assert(lv.take(equal_lines@.len() as int) =~= lv);
    }

    let mut j: usize = 0;
    proof {
        assert(n_processed@.take(0).to_set() =~= Set::<usize>::empty());
        assert(processed@ =~= seen.union(n_processed@.take(0).to_set()));
    }
    while j < n_processed.len()
        invariant
            0 <= j <= n_processed@.len(),
            processed@ == seen.union(n_processed@.take(j as int).to_set()),
        decreases n_processed@.len() - j,
    {
        processed.insert(n_processed[j]);
        proof {
            assert(n_processed@.take(j + 1) =~= n_processed@.take(j as int).push(n_processed@[j as int]));
            lemma_push_to_set(n_processed@.take(j as int), n_processed@[j as int]);
            assert(processed@ =~= seen.union(n_processed@.take(j + 1).to_set()));
        }
        j += 1;
    }
    proof {
        assert(n_processed@.take(n_processed@.len() as int) =~= n_processed@);
        assert(n_processed@.to_set().union(seen) == line_nos(lv).union(seen));
        assert forall|x: usize| processed@.contains(x) <==> seen.union(line_nos(lv)).contains(x) by {
            assert(n_processed@.to_set().union(seen).contains(x) <==> line_nos(lv).union(seen).contains(x));
        }
        assert(processed@ =~= seen.union(line_nos(lv)));
    }
}

/// Prints the changed lines of a run of changes.
fn print_changes(lines: &Vec<DiffLine>, out: &mut Vec<String>)
    ensures
        text_view(final(out)@) == text_view(old(out)@) + changed_text(lines_view(lines@)),
{
    let ghost lv = lines_view(lines@);
    let mut k: usize = 0;
    proof {
        assert(lv.take(0) =~= Seq::<LineView>::empty());
        assert(text_view(out@) + changed_text(lv.take(0)) =~= text_view(out@));
    }
    while k < lines.len()
        invariant
            0 <= k <= lines@.len(),
            lv == lines_view(lines@),
            text_view(out@) == text_view(old(out)@) + changed_text(lv.take(k as int)),
        decreases lines@.len() - k,
    {
        let line = &lines[k];
        proof {
            assert(lv.take(k + 1).drop_last() =~= lv.take(k as int));
            assert(lv.take(k + 1).last() == line@);
        }
        let ghost before = text_view(out@);
        match line.diff_type {
            DiffType::Insert => {
                let mut text = String::from_str(GREEN_COLOR);
                text.append("+ ");
                text.append(line.line.as_str());
                text.append(RESET_COLOR);
                out.push(text);
                proof {
                    assert(text_view(out@) =~= before.push(GREEN_COLOR@ + "+ "@ + line.line@ + RESET_COLOR@));
                }
            },
            DiffType::Delete => {
                let mut text = String::from_str(RED_COLOR);
                text.append("- ");
                text.append(line.line.as_str());
                text.append(RESET_COLOR);
                out.push(text);
                proof {
                    assert(text_view(out@) =~= before.push(RED_COLOR@ + "- "@ + line.line@ + RESET_COLOR@));
                }
            },
            DiffType::Equal => {},
        }
        proof {
            assert(text_view(out@) =~= text_view(old(out)@) + changed_text(lv.take(k + 1)));
        }
        k += 1;
    }
    proof {
        assert(lv.take(lines@.len() as int) =~= lv);
    }
}

/// The header of a run of changes.
fn hunk_header_text(line_no: usize) -> (text: String)
    ensures
        text@ == hunk_header(line_no as int),
{
    let mut text = String::from_str(BLUE_COLOR);
    text.append("@ line_no:");
    push_decimal(&mut text, line_no);
    text.append(RESET_COLOR);
    text
}

/// The lines the `diff` command prints for `file_diff`, in order: each run
/// of changes with its header and up to four unchanged lines of context on
/// either side, each context line once; nothing when the files are the same.
pub fn render_diff(file_diff: &FileDiff) -> (out: Vec<String>)
    requires
        forall|k: int|
            0 <= k < file_diff@.len() && (#[trigger] file_diff@[k]).segment_type == SegmentType::Diff
                ==> file_diff@[k].lines.len() > 0,
        file_diff.segments@.len() <= i64::MAX,
        forall|k: int| 0 <= k < file_diff@.len() ==> (#[trigger] file_diff@[k]).lines.len() <= i64::MAX,
    ensures
        text_view(out@) == rendered_diff(file_diff@),
{
    let segments = &file_diff.segments;
    let ghost segs = file_diff@;
    let mut out: Vec<String> = Vec::new();

    // No diff
    if segments.len() == 1 && segments[0].segment_type == SegmentType::Equal {
        proof {
            assert(segs[0] == segments@[0]@);
            assert(text_view(out@) =~= Seq::<Seq<char>>::empty());
        }
        return out;
    }

    let mut processed: HashSet<usize> = HashSet::new();
    proof {
        assert(processed@ =~= Set::<usize>::empty());
        assert(text_view(out@) + render_from(segs, 0, processed@) =~= rendered_diff(segs));
    }
    let mut i: usize = 0;
    while i < segments.len()
        invariant
            0 <= i <= segments@.len(),
            segs == file_diff@,
            segments == &file_diff.segments,
            segments@.len() <= i64::MAX,
            forall|k: int|
                0 <= k < segs.len() && (#[trigger] segs[k]).segment_type == SegmentType::Diff ==> segs[k].lines.len() > 0,
            forall|k: int| 0 <= k < segs.len() ==> (#[trigger] segs[k]).lines.len() <= i64::MAX,
            text_view(out@) + render_from(segs, i as int, processed@) == rendered_diff(segs),
        decreases segments@.len() - i,
    {
        let segment = &segments[i];
        let ghost before_out = text_view(out@);
        let ghost before_seen = processed@;
        let ghost ctx = context_of(segs, i as int);
        proof {
            assert(segs[i as int] == segment@);
            if i > 0 {
                assert(segs[i - 1] == segments@[i - 1]@);
            }
        }
        if segment.segment_type == SegmentType::Diff {
            let prev_segment = get(segments, i as i64 - 1);
            if prev_segment.is_some() && prev_segment.unwrap().segment_type == SegmentType::Equal {
                let prev = prev_segment.unwrap();
                let equal_lines = safe_sub_list(&prev.lines, prev.lines.len(), -4);
                print_equal_lines(&equal_lines, &mut processed, &mut out);
            } else {
                proof {
                    assert(ctx =~= Seq::<LineView>::empty());
                    assert(processed@ =~= before_seen.union(line_nos(ctx)));
                    assert(text_view(out@) =~= before_out + context_text(ctx, before_seen));
                }
            }
            let ghost after_ctx = text_view(out@);
            let header = hunk_header_text(segment.lines[0].line_no);
            out.push(header);
            print_changes(&segment.lines, &mut out);
            proof {
                assert(segment@.lines[0] == segment.lines@[0]@);
                assert(text_view(out@) =~= after_ctx + (seq![hunk_header(segment@.lines[0].line_no)] + changed_text(segment@.lines)));
            }
        } else {
            let prev_segment = get(segments, i as i64 - 1);
            if prev_segment.is_some() && prev_segment.unwrap().segment_type == SegmentType::Diff {
                let equal_lines = safe_sub_list(&segment.lines, 0, 4);
                print_equal_lines(&equal_lines, &mut processed, &mut out);
                proof {
                    assert(text_view(out@) =~= text_view(out@) + Seq::<Seq<char>>::empty());
                }
            } else {
                proof {
                    assert(ctx =~= Seq::<LineView>::empty());
                    assert(processed@ =~= before_seen.union(line_nos(ctx)));
                    assert(text_view(out@) =~= before_out + context_text(ctx, before_seen));
                }
            }
        }
        proof {
            let own = if segs[i as int].segment_type == SegmentType::Diff {
                seq![hunk_header(segs[i as int].lines[0].line_no)] + changed_text(segs[i as int].lines)
            } else {
                seq![]
            };
            assert(render_from(segs, i as int, before_seen) == context_text(ctx, before_seen) + own + render_from(
                segs,
                i + 1,
                before_seen.union(line_nos(ctx)),
            ));
            assert(text_view(out@) =~= before_out + context_text(ctx, before_seen) + own);
        }
        i += 1;
    }
    proof {
        assert(text_view(out@) + Seq::<Seq<char>>::empty() =~= text_view(out@));
    }
    out
}

/// The lines joined with newlines between them.
pub open spec fn join_lines(lines: Seq<Seq<char>>) -> Seq<char>
    decreases lines.len(),
{
    if lines.len() == 0 {
        seq![]
    } else if lines.len() == 1 {
        lines[0]
    } else {
        join_lines(lines.drop_last()) + "\n"@ + lines.last()
    }
}

/// The pieces of `s` between newlines, where `cur` is the piece read so far:
/// every newline ends a piece, and what follows the last one is the last
/// piece, empty or not.
pub open spec fn split_newlines(s: Seq<char>, cur: Seq<char>) -> Seq<Seq<char>>
    decreases s.len(),
{
    if s.len() == 0 {
        seq![cur]
    } else if s[0] == '\n' {
        seq![cur] + split_newlines(s.drop_first(), seq![])
    } else {
        split_newlines(s.drop_first(), cur.push(s[0]))
    }
}

proof fn lemma_split_scan(x: Seq<char>, y: Seq<char>, cur: Seq<char>)
    requires
        forall|i: int| 0 <= i < x.len() ==> x[i] != '\n',
    ensures
        split_newlines(x + y, cur) == split_newlines(y, cur + x),
    decreases x.len(),
{
    if x.len() == 0 {
        assert(x + y =~= y);
        assert(cur + x =~= cur);
    } else {
        assert((x + y)[0] == x[0]);
        assert((x + y).drop_first() =~= x.drop_first() + y);
        lemma_split_scan(x.drop_first(), y, cur.push(x[0]));
        assert(cur.push(x[0]) + x.drop_first() =~= cur + x);
    }
}

proof fn lemma_join_front(ls: Seq<Seq<char>>)
    requires
        ls.len() >= 2,
    ensures
        join_lines(ls) == ls[0] + "\n"@ + join_lines(ls.drop_first()),
    decreases ls.len(),
{
    let rest = ls.drop_first();
    if ls.len() == 2 {
        assert(ls.drop_last().len() == 1);
        assert(join_lines(ls.drop_last()) == ls.drop_last()[0]);
        assert(ls.drop_last()[0] == ls[0]);
        assert(rest.len() == 1);
        assert(join_lines(rest) == rest[0]);
        assert(rest[0] == ls[1]);
        assert(join_lines(ls) == join_lines(ls.drop_last()) + "\n"@ + ls.last());
    } else {
        lemma_join_front(ls.drop_last());
        assert(ls.drop_last().drop_first() =~= rest.drop_last());
        assert(rest.last() == ls.last());
        assert(ls.drop_last()[0] == ls[0]);
        assert(join_lines(ls) =~= ls[0] + "\n"@ + join_lines(rest));
    }
}

/// Law: joining lines that hold no newline and splitting the text at its
/// newlines gives the lines back: every line, empty ones included, with one
/// newline between neighbours.
pub proof fn lemma_join_splits_back(ls: Seq<Seq<char>>)
    requires
        ls.len() > 0,
        forall|i: int, j: int| 0 <= i < ls.len() && 0 <= j < ls[i].len() ==> #[trigger] ls[i][j] != '\n',
    ensures
        split_newlines(join_lines(ls), seq![]) == ls,
    decreases ls.len(),
{
    reveal_strlit("\n");
    let l0 = ls[0];
    assert forall|j: int| 0 <= j < l0.len() implies l0[j] != '\n' by {
        assert(ls[0][j] != '\n');
    }
    if ls.len() == 1 {
        lemma_split_scan(l0, Seq::<char>::empty(), Seq::<char>::empty());
        assert(l0 + Seq::<char>::empty() =~= l0);
        assert(Seq::<char>::empty() + l0 =~= l0);
        assert(seq![l0] =~= ls);
    } else {
        let rest = ls.drop_first();
        assert forall|i: int, j: int| 0 <= i < rest.len() && 0 <= j < rest[i].len() implies #[trigger] rest[i][j] != '\n' by {
            assert(rest[i] == ls[i + 1]);
            assert(ls[i + 1][j] != '\n');
        }
        lemma_join_splits_back(rest);
        lemma_join_front(ls);
        let j = join_lines(rest);
        assert(l0 + "\n"@ + j =~= l0 + ("\n"@ + j));
        lemma_split_scan(l0, "\n"@ + j, Seq::<char>::empty());
        assert(Seq::<char>::empty() + l0 =~= l0);
        assert(("\n"@ + j)[0] == '\n');
        assert(("\n"@ + j).drop_first() =~= j);
        assert(seq![l0] + rest =~= ls);
    }
}

/// What the `merge` command prints for one segment: the lines of a `Lines`
/// segment joined by newlines; a conflict between marker lines.
pub open spec fn rendered_segment(seg: MergeSegmentView) -> Seq<Seq<char>> {
    match seg {
        MergeSegmentView::Lines { lines } => seq![join_lines(lines)],
        MergeSegmentView::Conflict { v1, v2 } => seq![
            "--- @blaze:mg_conflict:v1 ---"@,
            join_lines(v1),
            "--- @blaze:mg_conflict:v2 ---"@,
            join_lines(v2),
            "--- @blaze:mg_conflict:end ---"@,
        ],
    }
}

/// What the `merge` command prints, segment after segment.
pub open spec fn rendered_merge(segs: Seq<MergeSegmentView>) -> Seq<Seq<char>>
    decreases segs.len(),
{
    if segs.len() == 0 {
        seq![]
    } else {
        rendered_merge(segs.drop_last()) + rendered_segment(segs.last())
    }
}

/// The lines joined with newlines between them.
fn join(lines: &Vec<String>) -> (text: String)
    ensures
        text@ == join_lines(text_view(lines@)),
{
    let ghost tv = text_view(lines@);
    let mut text = String::new();
    let mut k: usize = 0;
    proof {
        assert(tv.take(0) =~= Seq::<Seq<char>>::empty());
    }
    while k < lines.len()
        invariant
            0 <= k <= lines@.len(),
            tv == text_view(lines@),
            text@ == join_lines(tv.take(k as int)),
        decreases lines@.len() - k,
    {
        proof {
            assert(tv.take(k + 1).drop_last() =~= tv.take(k as int));
            assert(tv.take(k + 1).last() == lines@[k as int]@);
        }
        if k > 0 {
            text.append("\n");
        } else {
            proof {
                assert(text@ =~= Seq::<char>::empty());
            }
        }
        text.append(lines[k].as_str());
        proof {
            if k == 0 {
                assert(text@ =~= join_lines(tv.take(1)));
            } else {
                assert(text@ =~= join_lines(tv.take(k + 1)));
            }
        }
        k += 1;
    }
    proof {
        assert(tv.take(lines@.len() as int) =~= tv);
    }
    text
}

/// The lines the `merge` command prints for `result`.
pub fn render_merge(result: &MergeResult) -> (out: Vec<String>)
    ensures
        text_view(out@) == rendered_merge(result@),
{
    let ghost segs = result@;
    let mut out: Vec<String> = Vec::new();
    let mut i: usize = 0;
    proof {
        assert(segs.take(0) =~= Seq::<MergeSegmentView>::empty());
        assert(text_view(out@) =~= Seq::<Seq<char>>::empty());
    }
    while i < result.segments.len()
        invariant
            0 <= i <= result.segments@.len(),
            segs == result@,
            text_view(out@) == rendered_merge(segs.take(i as int)),
        decreases result.segments@.len() - i,
    {
        let ghost before = text_view(out@);
        proof {
            assert(segs.take(i + 1).drop_last() =~= segs.take(i as int));
            assert(segs.take(i + 1).last() == result.segments@[i as int]@);
        }
        match &result.segments[i] {
            MergeSegment::Lines { lines } => {
                out.push(join(lines));
                proof {
                    assert(text_view(out@) =~= before + rendered_segment(result.segments@[i as int]@));
                }
            },
            MergeSegment::Conflict { v1_changes, v2_changes } => {
                out.push(String::from_str("--- @blaze:mg_conflict:v1 ---"));
                out.push(join(v1_changes));
                out.push(String::from_str("--- @blaze:mg_conflict:v2 ---"));
                out.push(join(v2_changes));
                out.push(String::from_str("--- @blaze:mg_conflict:end ---"));
                proof {
                    assert(text_view(out@) =~= before + rendered_segment(result.segments@[i as int]@));
                }
            },
        }
        i += 1;
    }
    proof {
        assert(segs.take(segs.len() as int) =~= segs);
    }
    out
}

/// Every diff line counts on at least one side.
proof fn lemma_lines_bounded_by_sides(lines: Seq<LineView>)
    ensures
        lines.len() <= old_side(lines).len() + new_side(lines).len(),
    decreases lines.len(),
{
    if lines.len() > 0 {
        lemma_lines_bounded_by_sides(lines.drop_last());
    }
}

/// In a grouping into non-empty segments, there are no more segments than
/// lines, and no segment holds more lines than there are.
proof fn lemma_segments_bounded(segs: Seq<SegmentView>)
    requires
        forall|k: int| 0 <= k < segs.len() ==> (#[trigger] segs[k]).lines.len() > 0,
    ensures
        segs.len() <= all_lines(segs).len(),
        forall|k: int| 0 <= k < segs.len() ==> (#[trigger] segs[k]).lines.len() <= all_lines(segs).len(),
    decreases segs.len(),
{
    if segs.len() > 0 {
        let front = segs.drop_last();
        assert forall|k: int| 0 <= k < front.len() implies (#[trigger] front[k]).lines.len() > 0 by {
            assert(front[k] == segs[k]);
        }
        lemma_segments_bounded(front);
        assert(segs[segs.len() - 1].lines.len() > 0);
        assert forall|k: int| 0 <= k < segs.len() implies (#[trigger] segs[k]).lines.len() <= all_lines(segs).len() by {
            if k < front.len() {
                assert(segs[k] == front[k]);
            }
        }
    }
}

/// The lines the `diff` command prints for two files: their diff, rendered.
pub fn diff_text(first_lines: Vec<String>, second_lines: Vec<String>) -> (out: Vec<String>)
    requires
        first_lines.len() < i32::MAX,
        second_lines.len() < i32::MAX,
        first_lines.len() * second_lines.len() * 4 <= isize::MAX,
    ensures
        text_view(out@) == rendered_diff(runs(diff_lines(text_view(first_lines@), text_view(second_lines@)))),
{
    let ghost a = text_view(first_lines@);
    let ghost b = text_view(second_lines@);
    let file_diff = diff(first_lines, second_lines);
    proof {
        let lines = diff_lines(a, b);
        let segs = runs(lines);
        lemma_runs_are_maximal(lines);
        lemma_diff_reconstructs_both_files(a, b);
        lemma_lines_bounded_by_sides(lines);
        lemma_segments_bounded(segs);
        assert(file_diff.segments@.len() == file_diff@.len());
    }
    render_diff(&file_diff)
}

/// Law: comparing a file with itself prints nothing.
pub proof fn lemma_identical_files_print_nothing(a: Seq<Seq<char>>)
    ensures
        rendered_diff(runs(diff_lines(a, a))) == Seq::<Seq<char>>::empty(),
{
    lemma_diff_of_identical_files(a);
}

} // verus!
