use repo_search::lines::split_lines;

fn lines(text: &str) -> Vec<String> {
    split_lines(text)
}

#[test]
fn lines_of_empty_text() {
    assert_eq!(lines(""), Vec::<String>::new());
}

#[test]
fn lines_end_at_newlines() {
    assert_eq!(lines("foo bar\nbaz foo\n"), vec!["foo bar", "baz foo"]);
    assert_eq!(lines("a\nb"), vec!["a", "b"]);
    assert_eq!(lines("a"), vec!["a"]);
}

#[test]
fn empty_lines_count() {
    assert_eq!(lines("\n"), vec![""]);
    assert_eq!(lines("\n\n"), vec!["", ""]);
    assert_eq!(lines("a\n\nb\n"), vec!["a", "", "b"]);
}

#[test]
fn return_before_newline_is_dropped() {
    assert_eq!(lines("a\r\nb\r\n"), vec!["a", "b"]);
    assert_eq!(lines("\r\n"), vec![""]);
    assert_eq!(lines("a\r\r\nb"), vec!["a\r", "b"]);
}

#[test]
fn other_returns_stay() {
    assert_eq!(lines("a\rb\nc"), vec!["a\rb", "c"]);
    assert_eq!(lines("a\r"), vec!["a\r"]);
    assert_eq!(lines("a\n\r"), vec!["a", "\r"]);
}

#[test]
fn lines_agree_with_std() {
    for text in [
        "", "\n", "\r", "\r\n", "a", "a\n", "a\r\n", "a\r", "a\n\n", "\n\na", "a\r\n\r\nb",
        "a\n\rb", "héllo\nwörld\r\n", "one\ntwo\nthree", "\r\r\n\n\r",
    ] {
        let std_lines: Vec<String> = text.lines().map(|l| l.to_string()).collect();
        assert_eq!(lines(text), std_lines, "{:?}", text);
    }
}
