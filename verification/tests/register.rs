use repo_search::register::{register, Outcome, Registration};

fn decide(url: &str, resources: &str) -> Registration {
    register(&url.to_string(), resources)
}

#[test]
fn valid_address_is_fetched_into_its_directory() {
    match decide("https://github.com/acme/widgets.git", "/res") {
        Registration::Fetch { project, target } => {
            assert_eq!(project.url, "https://github.com/acme/widgets.git");
            assert_eq!(project.company, "github");
            assert_eq!(project.owner, "acme");
            assert_eq!(project.name, "widgets");
            assert_eq!(target, "/res/acme/widgets");
            assert_eq!(target, project.get_path("/res"));
        },
        Registration::Invalid => panic!("address was rejected"),
    }
}

#[test]
fn shell_address_is_fetched_too() {
    match decide("git@github.com:acme/widgets.git", "res/") {
        Registration::Fetch { project, target } => {
            assert_eq!(project.url, "git@github.com:acme/widgets.git");
            assert_eq!(target, "res/acme/widgets");
        },
        Registration::Invalid => panic!("address was rejected"),
    }
}

#[test]
fn invalid_address_is_rejected() {
    assert!(matches!(decide("not a url", "/res"), Registration::Invalid));
    assert!(matches!(decide("", "/res"), Registration::Invalid));
    assert!(matches!(decide("https://example.com/acme/widgets", "/res"), Registration::Invalid));
}

#[test]
fn outcome_of_a_rejected_address() {
    let r = decide("not a url", "/res");
    assert_eq!(r.settle(true), Outcome::Invalid);
    assert_eq!(r.settle(false), Outcome::Invalid);
    assert_eq!(Outcome::Invalid.reply(), "Invalid URL");
    assert!(!Outcome::Invalid.removes_target());
}

#[test]
fn outcome_of_a_fetch() {
    let r = decide("https://github.com/acme/widgets", "/res");
    assert_eq!(r.settle(true), Outcome::Cloned);
    assert_eq!(r.settle(false), Outcome::Failed);
    assert_eq!(Outcome::Cloned.reply(), "Repository is cloned.");
    assert_eq!(Outcome::Failed.reply(), "Failed to clone repo");
    assert!(!Outcome::Cloned.removes_target());
    assert!(Outcome::Failed.removes_target());
}

#[test]
fn target_keeps_a_name_with_separators_below_the_owner() {
    match decide("https://github.com/acme//odd", "/res") {
        Registration::Fetch { project, target } => {
            assert_eq!(project.name, "/odd");
            assert_eq!(target, "/res/acme//odd");
        },
        Registration::Invalid => panic!("address was rejected"),
    }
}
