use repo_search::identity::Project;

fn parse(url: &str) -> Option<Project> {
    Project::parse(&url.to_string())
}

fn parts(url: &str) -> Option<(String, String, String, String)> {
    parse(url).map(|p| (p.url, p.company, p.owner, p.name))
}

fn expect(url: &str, company: &str, owner: &str, name: &str) -> Option<(String, String, String, String)> {
    Some((url.to_string(), company.to_string(), owner.to_string(), name.to_string()))
}

#[test]
fn web_address() {
    assert_eq!(
        parts("https://github.com/acme/widgets"),
        expect("https://github.com/acme/widgets", "github", "acme", "widgets")
    );
}

#[test]
fn web_address_with_git_ending() {
    assert_eq!(
        parts("https://github.com/acme/widgets.git"),
        expect("https://github.com/acme/widgets.git", "github", "acme", "widgets")
    );
}

#[test]
fn shell_address() {
    assert_eq!(
        parts("git@github.com:acme/widgets.git"),
        expect("git@github.com:acme/widgets.git", "github", "acme", "widgets")
    );
    assert_eq!(
        parts("git@github.com:acme/widgets"),
        expect("git@github.com:acme/widgets", "github", "acme", "widgets")
    );
}

#[test]
fn plain_http() {
    assert_eq!(
        parts("http://github.com/acme/widgets"),
        expect("http://github.com/acme/widgets", "github", "acme", "widgets")
    );
}

#[test]
fn no_address() {
    assert!(parse("not a url").is_none());
    assert!(parse("").is_none());
    assert!(parse("https://github.com/").is_none());
    assert!(parse("https://github.com/acme").is_none());
    assert!(parse("https://github.com/acme/").is_none());
    assert!(parse("https://github.com//widgets").is_none());
    assert!(parse("git@github.com:acme").is_none());
}

#[test]
fn other_hosts_are_unknown() {
    assert!(parse("https://gitlab.com/acme/widgets").is_none());
    assert!(parse("https://github.org/acme/widgets").is_none());
    assert!(parse("git@bitbucket.org:acme/widgets.git").is_none());
    assert!(parse("ftp://github.com/acme/widgets").is_none());
}

#[test]
fn address_inside_other_text() {
    assert_eq!(
        parts("clone https://github.com/acme/widgets now"),
        expect("https://github.com/acme/widgets", "github", "acme", "widgets")
    );
    assert_eq!(
        parts("xhttps://github.com/acme/widgets\tnow"),
        expect("https://github.com/acme/widgets", "github", "acme", "widgets")
    );
}

#[test]
fn web_form_is_tried_first() {
    assert_eq!(
        parts("git@github.com:one/two https://github.com/three/four"),
        expect("https://github.com/three/four", "github", "three", "four")
    );
}

#[test]
fn first_address_of_a_form_wins() {
    assert_eq!(
        parts("https://github.com/a/b https://github.com/c/d"),
        expect("https://github.com/a/b", "github", "a", "b")
    );
    assert_eq!(
        parts("https://github.com/a-b/c https://github.com/d/e"),
        expect("https://github.com/d/e", "github", "d", "e")
    );
}

#[test]
fn owner_is_a_run_of_word_characters() {
    assert_eq!(
        parts("https://github.com/Acme_42/widgets"),
        expect("https://github.com/Acme_42/widgets", "github", "Acme_42", "widgets")
    );
    assert!(parse("https://github.com/my-org/widgets").is_none());
    assert!(parse("https://github.com/my.org/widgets").is_none());
    assert!(parse("https://github.com/my org/widgets").is_none());
}

#[test]
fn owner_beyond_ascii() {
    assert_eq!(
        parts("https://github.com/école/widgets"),
        expect("https://github.com/école/widgets", "github", "école", "widgets")
    );
    assert_eq!(
        parts("https://github.com/数据/x"),
        expect("https://github.com/数据/x", "github", "数据", "x")
    );
    assert!(parse("https://github.com/a→b/widgets").is_none());
    assert!(parse("https://github.com/€/widgets").is_none());
}

#[test]
fn name_runs_up_to_white_space() {
    assert_eq!(
        parts("https://github.com/acme/wid-gets.rs/tree/main?x=1 rest"),
        expect(
            "https://github.com/acme/wid-gets.rs/tree/main?x=1",
            "github",
            "acme",
            "wid-gets.rs/tree/main?x=1"
        )
    );
    assert_eq!(
        parts("https://github.com/acme/widgets\u{a0}more"),
        expect("https://github.com/acme/widgets", "github", "acme", "widgets")
    );
    assert_eq!(
        parts("https://github.com/acme/widgets\u{3000}more"),
        expect("https://github.com/acme/widgets", "github", "acme", "widgets")
    );
    assert_eq!(
        parts("https://github.com/acme/widgets\nmore"),
        expect("https://github.com/acme/widgets", "github", "acme", "widgets")
    );
    assert!(parse("https://github.com/acme/ widgets").is_none());
}

#[test]
fn git_ending_comes_off_once() {
    assert_eq!(
        parts("https://github.com/acme/widgets.git.git"),
        expect("https://github.com/acme/widgets.git.git", "github", "acme", "widgets.git")
    );
    assert_eq!(
        parts("https://github.com/acme/widgets.gitx"),
        expect("https://github.com/acme/widgets.gitx", "github", "acme", "widgets.gitx")
    );
}

#[test]
fn a_name_that_is_only_the_git_ending_stays() {
    assert_eq!(
        parts("https://github.com/acme/.git"),
        expect("https://github.com/acme/.git", "github", "acme", ".git")
    );
    assert_eq!(
        parts("https://github.com/acme/x.git"),
        expect("https://github.com/acme/x.git", "github", "acme", "x")
    );
}

#[test]
fn agrees_with_the_patterns() {
    let web = regex::Regex::new(r"https?://(github)\.com/(\w+)/(\S+)").unwrap();
    let shell = regex::Regex::new(r"git@(github)\.com:(\w+)/(\S+)").unwrap();
    for url in [
        "https://github.com/acme/widgets",
        "http://github.com/acme/widgets.git",
        "git@github.com:acme/widgets.git",
        "not a url",
        "see https://github.com/a_b/c-d/e and more",
        "https://github.com/a-b/c git@github.com:d/e.git",
        "https://github.com/école/x",
        "https://github.com/a→b/x",
        "https://github.com/a/b\u{2003}c",
        "httpss://github.com/a/b",
        "https://github.com/a//b",
        "HTTPS://GITHUB.COM/a/b",
        "git@github.com:a/b git@github.com:c/d",
    ] {
        let caps = web.captures(url).or_else(|| shell.captures(url));
        let expected = caps.map(|c| {
            let name = c[3].to_string();
            let name = match name.strip_suffix(".git") {
                Some(short) if !short.is_empty() => short.to_string(),
                _ => name,
            };
            (c[0].to_string(), c[1].to_string(), c[2].to_string(), name)
        });
        assert_eq!(parts(url), expected, "{:?}", url);
    }
}
