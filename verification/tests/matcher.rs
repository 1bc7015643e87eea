use repo_search::matcher::{search_file, Content, Matcher, PatternError};

fn fields(c: &Content) -> (u64, u64, u64, &str, &str) {
    (c.line, c.start, c.end, c.content.as_str(), c.path.as_str())
}

fn search(path: &str, contents: Option<&str>, pattern: &str) -> Result<Vec<Content>, PatternError> {
    search_file(path, contents, &pattern.to_string())
}

#[test]
fn one_hit_for_each_matching_line() {
    let hits = search("a.txt", Some("foo bar\nbaz foo\n"), "foo").unwrap();
    assert_eq!(hits.len(), 2);
    assert_eq!(fields(&hits[0]), (1, 0, 3, "foo bar", "a.txt"));
    assert_eq!(fields(&hits[1]), (2, 4, 7, "baz foo", "a.txt"));
}

#[test]
fn only_the_first_match_in_a_line() {
    let hits = search("a.txt", Some("foo foo"), "foo").unwrap();
    assert_eq!(hits.len(), 1);
    assert_eq!(fields(&hits[0]), (1, 0, 3, "foo foo", "a.txt"));
}

#[test]
fn lines_without_a_match_give_nothing() {
    let hits = search("a.txt", Some("one\ntwo\nthree\nfour\n"), "t").unwrap();
    assert_eq!(hits.len(), 2);
    assert_eq!(fields(&hits[0]), (2, 0, 1, "two", "a.txt"));
    assert_eq!(fields(&hits[1]), (3, 0, 1, "three", "a.txt"));
    assert!(search("a.txt", Some("one\ntwo\n"), "xyz").unwrap().is_empty());
    assert!(search("a.txt", Some(""), "x").unwrap().is_empty());
}

#[test]
fn offsets_count_bytes() {
    let hits = search("a.txt", Some("héllo wörld"), "wörld").unwrap();
    assert_eq!(hits.len(), 1);
    assert_eq!(fields(&hits[0]), (1, 7, 13, "héllo wörld", "a.txt"));
}

#[test]
fn the_leftmost_match_counts() {
    let hits = search("a.txt", Some("xx ab abc"), "abc|ab").unwrap();
    assert_eq!(fields(&hits[0]), (1, 3, 5, "xx ab abc", "a.txt"));
}

#[test]
fn an_empty_match_is_a_hit() {
    let hits = search("a.txt", Some("abc\n\n"), "x*").unwrap();
    assert_eq!(hits.len(), 2);
    assert_eq!(fields(&hits[0]), (1, 0, 0, "abc", "a.txt"));
    assert_eq!(fields(&hits[1]), (2, 0, 0, "", "a.txt"));
}

#[test]
fn line_endings_are_not_part_of_the_line() {
    let hits = search("a.txt", Some("foo\r\nfoo\n"), "foo$").unwrap();
    assert_eq!(hits.len(), 2);
    assert_eq!(fields(&hits[0]), (1, 0, 3, "foo", "a.txt"));
    assert_eq!(fields(&hits[1]), (2, 0, 3, "foo", "a.txt"));
}

#[test]
fn pattern_is_a_regular_expression() {
    let hits = search("a.txt", Some("let x = 42;\nlet name = 7;\n"), r"\d+").unwrap();
    assert_eq!(hits.len(), 2);
    assert_eq!(fields(&hits[0]), (1, 8, 10, "let x = 42;", "a.txt"));
    assert_eq!(fields(&hits[1]), (2, 11, 12, "let name = 7;", "a.txt"));
}

#[test]
fn unreadable_file_gives_nothing() {
    assert!(search("a.bin", None, "foo").unwrap().is_empty());
}

#[test]
fn invalid_pattern_fails() {
    assert_eq!(search("a.txt", Some("foo"), "foo(bar").err(), Some(PatternError));
    assert_eq!(search("a.txt", Some(""), "[").err(), Some(PatternError));
    assert_eq!(search("a.txt", Some("foo"), r"\w{1000}").err(), Some(PatternError));
}

#[test]
fn invalid_pattern_fails_for_an_unreadable_file_too() {
    assert_eq!(search("a.bin", None, "foo(bar").err(), Some(PatternError));
}

#[test]
fn matcher_compiles_once_and_finds_often() {
    let m = Matcher::new(&"b+".to_string()).ok().unwrap();
    assert_eq!(m.first_in("aabbbcc bb"), Some((2, 5)));
    assert_eq!(m.first_in("b"), Some((0, 1)));
    assert_eq!(m.first_in("aacc"), None);
    assert_eq!(m.first_in(""), None);
    assert!(Matcher::new(&"(".to_string()).is_err());
}

#[test]
fn matcher_remembers_its_pattern() {
    for pattern in ["b+", r"\d{2,}", "", "(a|b)*c", "héllo"] {
        let m = Matcher::new(&pattern.to_string()).ok().unwrap();
        assert_eq!(m.source(), pattern);
    }
}

#[test]
fn hit_of_a_line() {
    let c = Content::of_line("p/q.rs", 7, "some line", Some((5, 9))).unwrap();
    assert_eq!(fields(&c), (7, 5, 9, "some line", "p/q.rs"));
    assert!(Content::of_line("p/q.rs", 7, "some line", None).is_none());
}

#[test]
fn scan_text_numbers_lines_from_one() {
    let m = Matcher::new(&"c".to_string()).ok().unwrap();
    let hits = m.scan_text("f", "a\nb\nc\nd\nc c");
    assert_eq!(hits.len(), 2);
    assert_eq!(fields(&hits[0]), (3, 0, 1, "c", "f"));
    assert_eq!(fields(&hits[1]), (5, 0, 1, "c c", "f"));
}
