use repo_search::matcher::{Content, Matcher};
use repo_search::walk::{search_dir, Node, TreeWalk};

fn names(list: &[&str]) -> Node {
    Node::Directory(list.iter().map(|n| n.to_string()).collect())
}

fn file(text: &str) -> Node {
    Node::File(text.to_string())
}

fn next(walk: &TreeWalk) -> Option<String> {
    walk.next_path().cloned()
}

fn summary(hits: &[Content]) -> Vec<(String, u64)> {
    hits.iter().map(|c| (c.path.clone(), c.line)).collect()
}

fn start(dir: &str, pattern: &str) -> TreeWalk {
    search_dir(dir, &pattern.to_string()).ok().unwrap()
}

#[test]
fn excluded_root_is_not_visited() {
    let walk = start("/res/acme/widgets/.git", "foo");
    assert_eq!(next(&walk), None);
    assert!(walk.into_found().is_empty());
    assert_eq!(next(&start("/", "foo")), None);
    assert_eq!(next(&start("", "foo")), None);
    assert_eq!(next(&start("node_modules", "foo")), None);
}

#[test]
fn invalid_pattern_starts_nothing() {
    assert!(search_dir("/res", &"(".to_string()).is_err());
}

#[test]
fn nothing_inside_an_excluded_directory_is_visited() {
    let mut walk = start("/repo", "foo");
    assert_eq!(next(&walk), Some("/repo".to_string()));
    walk = walk.advance(names(&[".git", "src", "target", "README"]));
    assert_eq!(next(&walk), Some("/repo/src".to_string()));
    walk = walk.advance(names(&["node_modules", "main.rs", "bundle.js", ".DS_Store"]));
    assert_eq!(next(&walk), Some("/repo/src/main.rs".to_string()));
    walk = walk.advance(file("foo\nbar\nfoo\n"));
    assert_eq!(next(&walk), Some("/repo/README".to_string()));
    walk = walk.advance(file("no match\nfoo here\n"));
    assert_eq!(next(&walk), None);
    let hits = walk.into_found();
    assert_eq!(
        summary(&hits),
        vec![
            ("/repo/src/main.rs".to_string(), 1),
            ("/repo/src/main.rs".to_string(), 3),
            ("/repo/README".to_string(), 2),
        ]
    );
    assert!(hits.iter().all(|c| !c.path.contains(".git")));
}

#[test]
fn entries_are_visited_depth_first_in_listed_order() {
    let mut walk = start("r", "x");
    let mut visited = Vec::new();
    while let Some(path) = next(&walk) {
        visited.push(path.clone());
        let node = match path.as_str() {
            "r" => names(&["b", "a", "c"]),
            "r/b" => names(&["2", "1"]),
            "r/a" => file("x"),
            "r/c" => names(&[]),
            "r/b/2" => file("x\nx"),
            "r/b/1" => file("-"),
            _ => Node::Unreadable,
        };
        walk = walk.advance(node);
    }
    assert_eq!(visited, vec!["r", "r/b", "r/b/2", "r/b/1", "r/a", "r/c"]);
    assert_eq!(
        summary(&walk.into_found()),
        vec![("r/b/2".to_string(), 1), ("r/b/2".to_string(), 2), ("r/a".to_string(), 1)]
    );
}

#[test]
fn unreadable_entries_are_passed_over() {
    let mut walk = start("/repo", "foo");
    walk = walk.advance(names(&["gone", "bin", "ok"]));
    assert_eq!(next(&walk), Some("/repo/gone".to_string()));
    walk = walk.advance(Node::Unreadable);
    assert_eq!(next(&walk), Some("/repo/bin".to_string()));
    walk = walk.advance(Node::Unreadable);
    assert_eq!(next(&walk), Some("/repo/ok".to_string()));
    walk = walk.advance(file("foo"));
    assert_eq!(next(&walk), None);
    assert_eq!(summary(&walk.into_found()), vec![("/repo/ok".to_string(), 1)]);
}

#[test]
fn unreadable_root_gives_nothing() {
    let mut walk = start("/missing", "foo");
    walk = walk.advance(Node::Unreadable);
    assert_eq!(next(&walk), None);
    assert!(walk.into_found().is_empty());
}

#[test]
fn a_root_that_is_a_file_is_searched() {
    let mut walk = start("notes.txt", "foo");
    walk = walk.advance(file("a foo"));
    assert_eq!(next(&walk), None);
    let hits = walk.into_found();
    assert_eq!(hits.len(), 1);
    assert_eq!((hits[0].start, hits[0].end), (2, 5));
}

#[test]
fn names_that_name_no_entry_are_passed_over() {
    let mut walk = start("/repo", "foo");
    walk = walk.advance(names(&["", ".", "..", "a/b", "/etc", "ok"]));
    assert_eq!(next(&walk), Some("/repo/ok".to_string()));
    walk = walk.advance(Node::Unreadable);
    assert_eq!(next(&walk), None);
}

#[test]
fn advancing_a_finished_walk_changes_nothing() {
    let mut walk = start(".git", "foo");
    walk = walk.advance(file("foo"));
    walk = walk.advance(names(&["a"]));
    assert_eq!(next(&walk), None);
    assert!(walk.into_found().is_empty());
}

#[test]
fn a_walk_can_be_made_from_a_matcher() {
    let m = Matcher::new(&"o+".to_string()).ok().unwrap();
    let mut walk = TreeWalk::new(m, "d/");
    assert_eq!(next(&walk), Some("d/".to_string()));
    walk = walk.advance(names(&["f"]));
    assert_eq!(next(&walk), Some("d/f".to_string()));
    walk = walk.advance(file("foo"));
    let hits = walk.into_found();
    assert_eq!((hits[0].path.as_str(), hits[0].start, hits[0].end), ("d/f", 1, 3));
}
