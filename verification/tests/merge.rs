use blaze::merge::{merge, MergeSegment};

#[test]
fn test_merge_with_no_differences() {
    let original = vec![
        "line1".to_string(),
        "line2".to_string(),
        "line3".to_string(),
    ];
    let v1 = vec![
        "line1".to_string(),
        "line2".to_string(),
        "line3".to_string(),
    ];
    let v2 = vec![
        "line1".to_string(),
        "line2".to_string(),
        "line3".to_string(),
    ];

    let result = merge(&original, &v1, &v2);

    assert_eq!(1, result.segments.len());
    let segment = &result.segments[0];

    match segment {
        MergeSegment::Lines { lines } => {
            assert_eq!(original, *lines);
        }
        _ => panic!("Expected MergeSegment::Lines"),
    }
}

#[test]
fn test_merge_with_non_conflicting_changes() {
    let original = vec![
        "line1".to_string(),
        "line2".to_string(),
        "line3".to_string(),
    ];
    let v1 = vec![
        "line1".to_string(),
        "v1-line2".to_string(),
        "line3".to_string(),
    ];
    let v2 = vec![
        "line1".to_string(),
        "line2".to_string(),
        "v2-line3".to_string(),
    ];

    let result = merge(&original, &v1, &v2);

    assert_eq!(1, result.segments.len());
    let segment = &result.segments[0];
    match segment {
        MergeSegment::Lines { lines } => {
            assert_eq!(
                vec![
                    "line1".to_string(),
                    "v1-line2".to_string(),
                    "v2-line3".to_string()
                ],
                *lines
            );
        }
        _ => panic!("Expected MergeSegment::Lines"),
    }
}

#[test]
fn test_merge_with_conflicting_changes() {
    let original = vec![
        "line1".to_string(),
        "line2".to_string(),
        "line3".to_string(),
    ];
    let v1 = vec![
        "line1".to_string(),
        "v1-line2".to_string(),
        "line3".to_string(),
    ];
    let v2 = vec![
        "line1".to_string(),
        "v2-line2".to_string(),
        "line3".to_string(),
    ];

    let result = merge(&original, &v1, &v2);

    assert_eq!(3, result.segments.len());
    match &result.segments[0] {
        MergeSegment::Lines { .. } => (),
        _ => panic!("Expected MergeSegment::Lines"),
    }
    match &result.segments[1] {
        MergeSegment::Conflict {
            v1_changes,
            v2_changes,
        } => {
            assert_eq!(vec!["v1-line2".to_string()], *v1_changes);
            assert_eq!(vec!["v2-line2".to_string()], *v2_changes);
        }
        _ => panic!("Expected MergeSegment::Conflict"),
    }
    match &result.segments[2] {
        MergeSegment::Lines { .. } => (),
        _ => panic!("Expected MergeSegment::Lines"),
    }
}

#[test]
fn test_merge_with_multiple_conflicts() {
    let original = vec![
        "line1".to_string(),
        "line2".to_string(),
        "line3".to_string(),
    ];
    let v1 = vec![
        "line1".to_string(),
        "v1-line2".to_string(),
        "v1-line3".to_string(),
    ];
    let v2 = vec![
        "line1".to_string(),
        "v2-line2".to_string(),
        "v2-line3".to_string(),
    ];

    let result = merge(&original, &v1, &v2);

    assert_eq!(3, result.segments.len());
    match &result.segments[0] {
        MergeSegment::Lines { .. } => (),
        _ => panic!("Expected MergeSegment::Lines"),
    }
    match &result.segments[1] {
        MergeSegment::Conflict {
            v1_changes,
            v2_changes,
        } => {
            assert_eq!(vec!["v1-line2".to_string()], *v1_changes);
            assert_eq!(vec!["v2-line2".to_string()], *v2_changes);
        }
        _ => panic!("Expected MergeSegment::Conflict"),
    }
    match &result.segments[2] {
        MergeSegment::Conflict {
            v1_changes,
            v2_changes,
        } => {
            assert_eq!(vec!["v1-line3".to_string()], *v1_changes);
            assert_eq!(vec!["v2-line3".to_string()], *v2_changes);
        }
        _ => panic!("Expected MergeSegment::Conflict"),
    }
}

#[test]
fn test_merge_with_insertions_in_both_versions() {
    let original = vec![
        "line1".to_string(),
        "line2".to_string(),
        "line3".to_string(),
    ];
    let v1 = vec![
        "line1".to_string(),
        "line2".to_string(),
        "v1-line".to_string(),
        "line3".to_string(),
    ];
    let v2 = vec![
        "line1".to_string(),
        "v2-line".to_string(),
        "line2".to_string(),
        "line3".to_string(),
    ];

    let result = merge(&original, &v1, &v2);

    assert_eq!(1, result.segments.len());
    match &result.segments[0] {
        MergeSegment::Lines { lines } => {
            assert_eq!(
                vec![
                    "line1".to_string(),
                    "v2-line".to_string(),
                    "line2".to_string(),
                    "v1-line".to_string(),
                    "line3".to_string()
                ],
                *lines
            );
        }
        _ => panic!("Expected MergeSegment::Lines"),
    }
}

#[test]
fn test_merge_with_deletions_in_both_versions() {
    let original = vec![
        "line1".to_string(),
        "line2".to_string(),
        "line3".to_string(),
        "line4".to_string(),
    ];
    let v1 = vec![
        "line1".to_string(),
        "line3".to_string(),
        "line4".to_string(),
    ];
    let v2 = vec![
        "line1".to_string(),
        "line2".to_string(),
        "line4".to_string(),
    ];

    let result = merge(&original, &v1, &v2);

    assert_eq!(1, result.segments.len());
    match &result.segments[0] {
        MergeSegment::Lines { lines } => {
            assert_eq!(vec!["line1".to_string(), "line4".to_string()], *lines);
        }
        _ => panic!("Expected MergeSegment::Lines"),
    }
}

#[test]
fn test_merge_with_interleaved_changes() {
    let original = vec![
        "line1".to_string(),
        "line2".to_string(),
        "line3".to_string(),
        "line4".to_string(),
    ];
    let v1 = vec![
        "line1".to_string(),
        "v1-line2".to_string(),
        "line3".to_string(),
        "v1-line4".to_string(),
    ];
    let v2 = vec![
        "v2-line1".to_string(),
        "line2".to_string(),
        "v2-line3".to_string(),
        "line4".to_string(),
    ];

    let result = merge(&original, &v1, &v2);

    match &result.segments[0] {
        MergeSegment::Lines { lines } => {
            assert_eq!(
                vec![
                    "v2-line1".to_string(),
                    "v1-line2".to_string(),
                    "v2-line3".to_string(),
                    "v1-line4".to_string()
                ],
                *lines
            );
        }
        _ => panic!("Expected MergeSegment::Lines"),
    }
}

#[test]
fn test_merge_with_prepended_changes_and_replacement() {
    let original = vec![
        "line1".to_string(),
        "line2".to_string(),
        "line3".to_string(),
    ];
    let v1 = vec![
        "v1-line1".to_string(),
        "v1-line1-2".to_string(),
        "line1".to_string(),
        "line2".to_string(),
        "line3".to_string(),
    ];
    let v2 = vec![
        "v2-line1".to_string(),
        "line2".to_string(),
        "line3".to_string(),
    ];

    let result = merge(&original, &v1, &v2);

    match &result.segments[0] {
        MergeSegment::Lines { lines } => {
            assert_eq!(
                vec![
                    "v1-line1".to_string(),
                    "v1-line1-2".to_string(),
                    "v2-line1".to_string(),
                    "line2".to_string(),
                    "line3".to_string()
                ],
                *lines
            );
        }
        _ => panic!("Expected MergeSegment::Lines"),
    }
}

#[test]
fn test_merge_with_replacements_and_deletes() {
    let original = vec![
        "line1".to_string(),
        "line2".to_string(),
        "line3".to_string(),
    ];
    let v1 = vec!["line1".to_string(), "line3".to_string()];
    let v2 = vec![
        "line1".to_string(),
        "v2-line2".to_string(),
        "v2-line2-2".to_string(),
        "line3".to_string(),
    ];

    let result = merge(&original, &v1, &v2);

    match &result.segments[0] {
        MergeSegment::Lines { lines } => {
            assert_eq!(
                vec![
                    "line1".to_string(),
                    "v2-line2".to_string(),
                    "v2-line2-2".to_string(),
                    "line3".to_string()
                ],
                *lines
            );
        }
        _ => panic!("Expected MergeSegment::Lines"),
    }
}

fn lines(v: &[&str]) -> Vec<String> {
    v.iter().map(|s| s.to_string()).collect()
}

#[test]
fn merge_of_empty_files_is_empty() {
    let result = merge(&lines(&[]), &lines(&[]), &lines(&[]));
    assert!(result.segments.is_empty());
}

#[test]
fn merge_of_unchanged_versions_is_the_original() {
    let original = lines(&["a", "b", "b", "c"]);
    let result = merge(&original, &original, &original);
    assert_eq!(result.segments.len(), 1);
    match &result.segments[0] {
        MergeSegment::Lines { lines } => assert_eq!(*lines, original),
        _ => panic!("Expected MergeSegment::Lines"),
    }
}

#[test]
fn merge_with_one_side_unchanged_has_no_conflict() {
    let original = lines(&["a", "b", "c", "d"]);
    let changed = lines(&["x", "b", "y", "z", "d", "w"]);
    for result in [merge(&original, &original, &changed), merge(&original, &changed, &original)] {
        assert!(result.segments.len() <= 1);
        for segment in &result.segments {
            assert!(matches!(segment, MergeSegment::Lines { .. }));
        }
    }
}

#[test]
fn merge_conflict_on_both_inserting_before_a_line() {
    let original = lines(&["a", "b"]);
    let v1 = lines(&["a", "x", "b"]);
    let v2 = lines(&["a", "y", "b"]);
    let result = merge(&original, &v1, &v2);
    assert_eq!(result.segments.len(), 3);
    match &result.segments[1] {
        MergeSegment::Conflict { v1_changes, v2_changes } => {
            assert_eq!(*v1_changes, lines(&["x"]));
            assert_eq!(*v2_changes, lines(&["y"]));
        }
        _ => panic!("Expected MergeSegment::Conflict"),
    }
    // Neither side replaces line "b", so it follows the conflict.
    match &result.segments[2] {
        MergeSegment::Lines { lines: l } => assert_eq!(*l, lines(&["b"])),
        _ => panic!("Expected MergeSegment::Lines"),
    }
}

#[test]
fn merge_replacement_with_extra_insertions_reorders_lines() {
    // Two lines replaced by three: the extra insertion is keyed to the first
    // replaced line, so it comes out before the second replacement.
    let original = lines(&["a", "b", "c"]);
    let changed = lines(&["x", "y", "z", "c"]);
    let result = merge(&original, &original, &changed);
    assert_eq!(result.segments.len(), 1);
    match &result.segments[0] {
        MergeSegment::Lines { lines: l } => assert_eq!(*l, lines(&["x", "z", "y", "c"])),
        _ => panic!("Expected MergeSegment::Lines"),
    }
}

fn swapped(segments: &[MergeSegment]) -> Vec<MergeSegment> {
    segments
        .iter()
        .map(|s| match s {
            MergeSegment::Conflict { v1_changes, v2_changes } => MergeSegment::Conflict {
                v1_changes: v2_changes.clone(),
                v2_changes: v1_changes.clone(),
            },
            MergeSegment::Lines { lines } => MergeSegment::Lines { lines: lines.clone() },
        })
        .collect()
}

#[test]
fn merge_with_swapped_versions_swaps_conflict_sides() {
    let original = lines(&["a", "b", "c"]);
    let v1 = lines(&["a", "x", "b", "q", "c"]);
    let v2 = lines(&["a", "y", "b", "c", "w"]);
    let forward = merge(&original, &v1, &v2);
    let backward = merge(&original, &v2, &v1);
    assert!(forward.segments.iter().any(|s| matches!(s, MergeSegment::Conflict { .. })));
    assert!(swapped(&forward.segments) == backward.segments);
}

#[test]
fn merge_with_one_side_only_inserting_gives_that_side() {
    let original = lines(&["a", "b", "c"]);
    let changed = lines(&["x", "a", "b", "y", "c", "z"]);
    for result in [merge(&original, &original, &changed), merge(&original, &changed, &original)] {
        assert_eq!(result.segments.len(), 1);
        match &result.segments[0] {
            MergeSegment::Lines { lines: l } => assert_eq!(*l, changed),
            _ => panic!("Expected MergeSegment::Lines"),
        }
    }
}

#[test]
fn merge_with_one_side_only_deleting_gives_that_side() {
    let original = lines(&["a", "b", "c", "d"]);
    let changed = lines(&["b", "d"]);
    for result in [merge(&original, &original, &changed), merge(&original, &changed, &original)] {
        assert_eq!(result.segments.len(), 1);
        match &result.segments[0] {
            MergeSegment::Lines { lines: l } => assert_eq!(*l, changed),
            _ => panic!("Expected MergeSegment::Lines"),
        }
    }
    let emptied: Vec<String> = vec![];
    assert!(merge(&original, &original, &emptied).segments.is_empty());
}
