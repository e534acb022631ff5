use blaze::text::lines_of;

fn owned(v: &[&str]) -> Vec<String> {
    v.iter().map(|s| s.to_string()).collect()
}

#[test]
fn lines_split_at_newlines_like_str_lines() {
    for text in ["a\nb\n\nc", "a\r\nb\r\n", "", "\n", "x\n", "a\rb", "a\r", "é\nü\r\nß", "\r\n\r\n", "one"] {
        let expected: Vec<String> = text.lines().map(String::from).collect();
        assert_eq!(lines_of(text), expected, "text {:?}", text);
    }
}

#[test]
fn lines_drop_carriage_returns_only_before_newlines() {
    assert_eq!(lines_of("a\r\nb\rc\n"), owned(&["a", "b\rc"]));
    assert_eq!(lines_of("last\r"), owned(&["last\r"]));
}

#[test]
fn no_lines_in_an_empty_text_and_no_last_line_after_a_final_newline() {
    assert!(lines_of("").is_empty());
    assert_eq!(lines_of("a\n"), owned(&["a"]));
    assert_eq!(lines_of("\n\n"), owned(&["", ""]));
}
