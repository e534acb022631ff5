use blaze::diff::diff;
use blaze::merge::merge;
use blaze::render::{diff_text, render_diff, render_merge};

fn lines(v: &[&str]) -> Vec<String> {
    v.iter().map(|s| s.to_string()).collect()
}

#[test]
fn identical_files_print_nothing() {
    let d = diff(lines(&["a", "b"]), lines(&["a", "b"]));
    assert!(render_diff(&d).is_empty());
}

#[test]
fn changes_print_with_context() {
    let first = lines(&["1", "2", "3", "4", "5", "6", "7", "8", "9", "10"]);
    let second = lines(&["1", "2", "3", "4", "5", "x", "7", "8", "9", "10"]);
    let out = render_diff(&diff(first, second));
    assert_eq!(
        out,
        vec![
            "  2".to_string(),
            "  3".to_string(),
            "  4".to_string(),
            "  5".to_string(),
            "\u{001B}[34m@ line_no:6\u{001B}[0m".to_string(),
            "\u{001B}[31m- 6\u{001B}[0m".to_string(),
            "\u{001B}[32m+ x\u{001B}[0m".to_string(),
            "  7".to_string(),
            "  8".to_string(),
            "  9".to_string(),
            "  10".to_string(),
        ]
    );
}

#[test]
fn context_lines_print_once() {
    let first = lines(&["a", "b", "c"]);
    let second = lines(&["x", "a", "b", "y", "c"]);
    let out = render_diff(&diff(first, second));
    assert_eq!(
        out,
        vec![
            "\u{001B}[34m@ line_no:1\u{001B}[0m".to_string(),
            "\u{001B}[32m+ x\u{001B}[0m".to_string(),
            "  a".to_string(),
            "  b".to_string(),
            "\u{001B}[34m@ line_no:3\u{001B}[0m".to_string(),
            "\u{001B}[32m+ y\u{001B}[0m".to_string(),
            "  c".to_string(),
        ]
    );
}

#[test]
fn large_line_numbers_print_in_decimal() {
    let first: Vec<String> = (0..120).map(|i| i.to_string()).collect();
    let mut second = first.clone();
    second[111] = "changed".to_string();
    let out = render_diff(&diff(first, second));
    assert!(out.contains(&"\u{001B}[34m@ line_no:112\u{001B}[0m".to_string()));
}

#[test]
fn merge_output_with_conflict_markers() {
    let original = lines(&["a", "b", "c"]);
    let v1 = lines(&["a", "v1", "c"]);
    let v2 = lines(&["a", "v2", "c"]);
    let out = render_merge(&merge(&original, &v1, &v2));
    assert_eq!(
        out,
        vec![
            "a".to_string(),
            "--- @blaze:mg_conflict:v1 ---".to_string(),
            "v1".to_string(),
            "--- @blaze:mg_conflict:v2 ---".to_string(),
            "v2".to_string(),
            "--- @blaze:mg_conflict:end ---".to_string(),
            "c".to_string(),
        ]
    );
}

#[test]
fn merge_output_joins_lines() {
    let original = lines(&["a", "b"]);
    let out = render_merge(&merge(&original, &original, &lines(&["a", "b", "c"])));
    assert_eq!(out, vec!["a\nb\nc".to_string()]);
}

#[test]
fn diff_text_renders_the_diff_of_two_files() {
    let first = lines(&["a", "b", "c"]);
    let second = lines(&["a", "x", "c"]);
    let expected = render_diff(&diff(first.clone(), second.clone()));
    assert_eq!(diff_text(first, second), expected);
    assert_eq!(
        expected,
        vec![
            "  a".to_string(),
            "\u{001B}[34m@ line_no:2\u{001B}[0m".to_string(),
            "\u{001B}[31m- b\u{001B}[0m".to_string(),
            "\u{001B}[32m+ x\u{001B}[0m".to_string(),
            "  c".to_string(),
        ]
    );
    assert!(diff_text(lines(&["same"]), lines(&["same"])).is_empty());
}
