use repo_search::filter::in_black_list;
use repo_search::path::{final_name, joined};

#[test]
fn excluded_names_are_excluded() {
    for name in [".git", "target", "node_modules", "bundle.js", "bundle.js.map", ".DS_Store"] {
        assert!(in_black_list(name), "{}", name);
    }
}

#[test]
fn excluded_wherever_the_entry_lies() {
    assert!(in_black_list("/res/acme/widgets/.git"));
    assert!(in_black_list("res/acme/widgets/.git"));
    assert!(in_black_list("./node_modules"));
    assert!(in_black_list("/target"));
    assert!(in_black_list("a/b/c/bundle.js.map"));
}

#[test]
fn other_names_are_kept() {
    assert!(!in_black_list("src"));
    assert!(!in_black_list("/res/acme/widgets/src/main.rs"));
    assert!(!in_black_list("widgets"));
    assert!(!in_black_list("git"));
    assert!(!in_black_list(".gitignore"));
}

#[test]
fn the_whole_name_counts_not_its_stem() {
    assert!(!in_black_list("target.txt"));
    assert!(!in_black_list("bundle"));
    assert!(!in_black_list("bundle.js.map.gz"));
    assert!(!in_black_list("/x/.git.bak"));
}

#[test]
fn only_the_last_name_counts() {
    assert!(!in_black_list(".git/config"));
    assert!(!in_black_list("/res/target/debug"));
}

#[test]
fn paths_without_a_name_are_excluded() {
    assert!(in_black_list(""));
    assert!(in_black_list("/"));
    assert!(in_black_list(".."));
    assert!(in_black_list("a/.."));
    assert!(in_black_list("."));
    assert!(in_black_list("./"));
}

#[test]
fn trailing_separators_and_dots_are_skipped() {
    assert!(in_black_list("a/.git/"));
    assert!(in_black_list("a/.git/."));
    assert!(in_black_list("a//target//"));
    assert!(!in_black_list("a/src/"));
}

#[test]
fn final_name_is_the_last_component() {
    assert_eq!(final_name("/res/acme/widgets"), Some("widgets".to_string()));
    assert_eq!(final_name("widgets"), Some("widgets".to_string()));
    assert_eq!(final_name("a/b/"), Some("b".to_string()));
    assert_eq!(final_name("a/b/."), Some("b".to_string()));
    assert_eq!(final_name("a//b"), Some("b".to_string()));
    assert_eq!(final_name("./b"), Some("b".to_string()));
    assert_eq!(final_name("..a"), Some("..a".to_string()));
    assert_eq!(final_name("a/../b"), Some("b".to_string()));
}

#[test]
fn final_name_is_missing_where_no_entry_is_named() {
    assert_eq!(final_name(""), None);
    assert_eq!(final_name("/"), None);
    assert_eq!(final_name("//"), None);
    assert_eq!(final_name("."), None);
    assert_eq!(final_name("./."), None);
    assert_eq!(final_name(".."), None);
    assert_eq!(final_name("a/.."), None);
    assert_eq!(final_name("/.."), None);
}

#[test]
fn final_name_agrees_with_std() {
    for p in [
        "", "/", ".", "..", "a", "a/", "a/.", "a/..", "/a", "/a/b", "a//b", "./a", "./", "/.",
        "a/./b", "a/b/./", "..a", ".a", "a/.b", "a b/c d", "/res/acme/widgets/src/main.rs",
    ] {
        let std_name = std::path::Path::new(p).file_name().map(|n| n.to_str().unwrap().to_string());
        assert_eq!(final_name(p), std_name, "{:?}", p);
    }
}

#[test]
fn joined_puts_one_separator_between() {
    assert_eq!(joined("/res", "acme"), "/res/acme");
    assert_eq!(joined("/res/", "acme"), "/res/acme");
    assert_eq!(joined("", "acme"), "acme");
    assert_eq!(joined("res", ""), "res/");
    assert_eq!(joined("/", "acme"), "/acme");
}

#[test]
fn joined_lets_a_rooted_segment_replace_the_base() {
    assert_eq!(joined("/res", "/etc"), "/etc");
    assert_eq!(joined("", "/"), "/");
}

#[test]
fn joined_agrees_with_std() {
    for base in ["", "/", "a", "a/", "/a/b", "a//", "."] {
        for seg in ["", "x", "x/y", "/x", ".", ".."] {
            let std_joined = std::path::Path::new(base).join(seg).to_str().unwrap().to_string();
            assert_eq!(joined(base, seg), std_joined, "{:?} {:?}", base, seg);
        }
    }
}
