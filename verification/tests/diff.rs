use blaze::diff::{diff, DiffType, SegmentType};

#[test]
fn test_identical_files() {
    let first = vec!["line1".to_string(), "line2".to_string()];
    let second = first.clone();
    let result = diff(first, second);
    assert_eq!(result.segments.len(), 1);
    assert_eq!(result.segments[0].segment_type, SegmentType::Equal);
}

#[test]
fn test_completely_different_files() {
    let first = vec!["line1".to_string()];
    let second = vec!["line2".to_string()];
    let result = diff(first, second);
    assert_eq!(result.segments.len(), 1);
    assert_eq!(result.segments[0].segment_type, SegmentType::Diff);
}

#[test]
fn test_partial_diff() {
    let first = vec!["line1".to_string(), "line2".to_string()];
    let second = vec!["line1".to_string(), "line3".to_string()];
    let result = diff(first, second);
    assert_eq!(result.segments.len(), 2);
    assert_eq!(result.segments[0].segment_type, SegmentType::Equal);
    assert_eq!(result.segments[1].segment_type, SegmentType::Diff);
}

#[test]
fn test_alternating_segments() {
    let first = vec!["a".to_string(), "b".to_string(), "c".to_string(), "d".to_string()];
    let second = vec!["a".to_string(), "x".to_string(), "c".to_string(), "y".to_string()];
    let result = diff(first, second);
    assert_eq!(result.segments.len(), 4);
    assert_eq!(result.segments[0].segment_type, SegmentType::Equal);
    assert_eq!(result.segments[1].segment_type, SegmentType::Diff);
    assert_eq!(result.segments[2].segment_type, SegmentType::Equal);
    assert_eq!(result.segments[3].segment_type, SegmentType::Diff);
}

#[test]
fn test_changes_at_start() {
    let first = vec!["a".to_string(), "b".to_string(), "c".to_string()];
    let second = vec!["x".to_string(), "y".to_string(), "c".to_string()];
    let result = diff(first, second);
    assert_eq!(result.segments.len(), 2);
    assert_eq!(result.segments[0].segment_type, SegmentType::Diff);
    assert_eq!(result.segments[1].segment_type, SegmentType::Equal);
}

#[test]
fn test_changes_at_end() {
    let first = vec!["a".to_string(), "b".to_string(), "c".to_string()];
    let second = vec!["a".to_string(), "x".to_string(), "y".to_string()];
    let result = diff(first, second);
    assert_eq!(result.segments.len(), 2);
    assert_eq!(result.segments[0].segment_type, SegmentType::Equal);
    assert_eq!(result.segments[1].segment_type, SegmentType::Diff);
}

#[test]
fn test_empty_files() {
    let first: Vec<String> = vec![];
    let second: Vec<String> = vec![];
    let result = diff(first, second);
    assert_eq!(result.segments.len(), 0);
}

fn lines(v: &[&str]) -> Vec<String> {
    v.iter().map(|s| s.to_string()).collect()
}

#[test]
fn diff_lines_are_numbered_against_the_first_file() {
    let result = diff(lines(&["a", "b", "c"]), lines(&["a", "x", "c", "d"]));
    let seen: Vec<(DiffType, usize, String)> = result
        .segments
        .iter()
        .flat_map(|s| s.lines.iter().map(|l| (l.diff_type, l.line_no, l.line.clone())))
        .collect();
    assert_eq!(
        seen,
        vec![
            (DiffType::Equal, 1, "a".to_string()),
            (DiffType::Delete, 2, "b".to_string()),
            (DiffType::Insert, 2, "x".to_string()),
            (DiffType::Equal, 3, "c".to_string()),
            (DiffType::Insert, 4, "d".to_string()),
        ]
    );
    let types: Vec<SegmentType> = result.segments.iter().map(|s| s.segment_type).collect();
    assert_eq!(types, vec![SegmentType::Equal, SegmentType::Diff, SegmentType::Equal, SegmentType::Diff]);
}

#[test]
fn diff_deletions_come_before_insertions() {
    let result = diff(lines(&["a", "b"]), lines(&["c", "d"]));
    assert_eq!(result.segments.len(), 1);
    let kinds: Vec<DiffType> = result.segments[0].lines.iter().map(|l| l.diff_type).collect();
    assert_eq!(kinds, vec![DiffType::Delete, DiffType::Delete, DiffType::Insert, DiffType::Insert]);
    let numbers: Vec<usize> = result.segments[0].lines.iter().map(|l| l.line_no).collect();
    assert_eq!(numbers, vec![1, 2, 1, 1]);
}

#[test]
fn diff_against_empty_file() {
    let result = diff(lines(&[]), lines(&["x", "y"]));
    assert_eq!(result.segments.len(), 1);
    assert_eq!(result.segments[0].segment_type, SegmentType::Diff);
    assert!(result.segments[0].lines.iter().all(|l| l.diff_type == DiffType::Insert && l.line_no == 1));
    let result = diff(lines(&["x", "y"]), lines(&[]));
    assert!(result.segments[0].lines.iter().all(|l| l.diff_type == DiffType::Delete));
}

#[test]
fn diff_keeps_both_files() {
    // Deleted and equal lines give the first file back, inserted and equal
    // lines the second.
    let first = lines(&["p", "q", "r", "q", "s", "t"]);
    let second = lines(&["q", "p", "r", "s", "u", "t", "q"]);
    let result = diff(first.clone(), second.clone());
    let all: Vec<_> = result.segments.iter().flat_map(|s| s.lines.iter()).collect();
    let old: Vec<String> = all.iter().filter(|l| l.diff_type != DiffType::Insert).map(|l| l.line.clone()).collect();
    let new: Vec<String> = all.iter().filter(|l| l.diff_type != DiffType::Delete).map(|l| l.line.clone()).collect();
    assert_eq!(old, first);
    assert_eq!(new, second);
}
