//! What each refusal says.

use clt::error::{describe_branch, plural_of, Error};

#[test]
fn every_refusal_says_what_to_do() {
    let cases: Vec<(Error, &str)> = vec![
        (Error::NoTask { id: 3 }, "no task #3 (try `clt ls --all`)"),
        (Error::OwnParent, "a task cannot be its own parent"),
        (Error::NoTitle, "a task needs a title"),
        (Error::BadLocation { reason: "empty location".into() }, "empty location"),
        (Error::SyncNeedsRepo, "clt sync needs a git repository"),
        (
            Error::ScanNeedsRepo,
            "clt scan needs a git repository (it reads the working tree via git ls-files)",
        ),
        (
            Error::ShareNeedsRepo,
            "there is no repo here for the task list to travel with",
        ),
        (
            Error::UnshareNeedsRepo,
            "there is no repo here — the global task list is always local",
        ),
        (
            Error::HasSubtasks { id: 1, count: 1 },
            "#1 has 1 subtask — pass -r to delete them too, or `clt move` them out first",
        ),
        (
            Error::OrphansNeedRepo,
            "--orphaned needs a git repository (there are no branches to compare against)",
        ),
    ];
    for (e, text) in cases {
        assert_eq!(e.message(), text);
    }
}

#[test]
fn refusals_about_trees_name_the_tasks() {
    let cycle = Error::WouldCycle { id: 1, parent: 3 }.message();
    assert!(cycle.contains("#3 is already inside #1's subtree"), "{cycle}");
    let other = Error::OtherBranch {
        id: 2,
        branch: Some("feat/x".into()),
        parent: 1,
        parent_branch: None,
    }
    .message();
    assert!(other.contains("feat/x") && other.contains("the whole repo"), "{other}");
    let nested = Error::Nested { id: 2, parent: 1 }.message();
    assert!(nested.contains("nested under #1"), "{nested}");
    let future = Error::FutureFormat { version: 9 }.message();
    assert!(future.contains("format version 9"), "{future}");
}

#[test]
fn branches_and_counts_are_put_in_words() {
    assert_eq!(describe_branch(Some("main")), "`main`");
    assert_eq!(describe_branch(None), "the whole repo");
    assert_eq!((plural_of(0), plural_of(1), plural_of(2)), ("s", "", "s"));
}
