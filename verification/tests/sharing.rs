//! Whether the task list travels.

use clt::git::Repo;
use clt::hooks::{candidates, environment, report, resolve, runnable, Output, SAMPLE};
use clt::sharing::{blocked_by, report_init, report_share, report_unshare, ShareReport};
use clt::store::{LOCAL_GITIGNORE, README, REL_TASKS};
use clt::task::{State, Task};
use clt::time::Moment;

#[test]
fn unshare_puts_the_exclude_back_and_share_can_undo_it_again() {
    let hidden = Repo::ensure_excluded("").unwrap();
    assert!(hidden.contains(".clt/"), "the default is local-only");

    let shared = Repo::unexclude(&hidden).unwrap();
    assert!(!shared.contains(".clt/"), "share must lift the exclusion");

    let again = Repo::ensure_excluded(&shared).unwrap();
    assert!(again.contains(".clt/"), "unshare must restore it");

    // And round-tripping must not have eaten anyone else's patterns.
    assert!(Repo::unexclude(&again).is_some());
    assert_eq!(Repo::unexclude(&shared), None, "nothing of ours is left");
}

#[test]
fn unexclude_leaves_other_peoples_patterns_alone() {
    let mine = "# mine\nscratch/\n*.local\n";
    let hidden = Repo::ensure_excluded(mine).unwrap();
    let after = Repo::unexclude(&hidden).unwrap();
    assert!(after.contains("scratch/"), "lost a pattern:\n{after}");
    assert!(after.contains("*.local"), "lost a pattern:\n{after}");
    assert!(after.contains("# mine"), "lost a comment:\n{after}");
    assert!(!after.contains(".clt"), "kept our own:\n{after}");
}

#[test]
fn share_reports_a_project_gitignore_it_cannot_override() {
    // clt only writes info/exclude. A committed .gitignore listing .clt/ is the
    // project's decision, and share has to say so rather than appearing to work.
    let blocked = blocked_by(Some(".gitignore".to_string()));
    assert_eq!(
        blocked.as_deref(),
        Some(".gitignore"),
        "share must name the file that is still ignoring the list"
    );
    match report_share(false, blocked.as_deref()) {
        ShareReport::Blocked(w) => assert_eq!(
            w,
            "`.gitignore` still ignores the task list, and that file belongs to the project, \
             not to clt. Remove its .clt/ entry, then run `clt share` again."
        ),
        ShareReport::Lines(l) => panic!("{l:?}"),
    }
    assert_eq!(blocked_by(Some(".git/info/exclude".to_string())), None);
    assert_eq!(blocked_by(None), None);
}

#[test]
fn sharing_says_what_is_left_to_do() {
    match report_share(false, None) {
        ShareReport::Lines(l) => {
            assert_eq!(l.len(), 7);
            assert_eq!(l[2], "    git add .clt && git commit -m \"track the clt task list\"");
        }
        ShareReport::Blocked(w) => panic!("{w}"),
    }
    match report_share(true, Some(".gitignore")) {
        ShareReport::Lines(l) => assert_eq!(l, vec!["  The task list is already tracked by git."]),
        ShareReport::Blocked(w) => panic!("{w}"),
    }
    assert_eq!(report_unshare(false), vec!["  New commits will not carry the task list."]);
    assert!(report_unshare(true).iter().any(|l| l.contains("git rm -r --cached .clt")));
}

#[test]
fn the_journal_stays_local_when_the_list_is_shared() {
    assert!(LOCAL_GITIGNORE.lines().any(|l| l == "log.jsonl"));
    assert!(LOCAL_GITIGNORE.lines().any(|l| l == "lock"));
    assert!(!LOCAL_GITIGNORE.lines().any(|l| l == "tasks.json"));
    assert_eq!(REL_TASKS, ".clt/tasks.json");
    assert!(README.starts_with("# .clt/\n"));
}

#[test]
fn setting_up_says_where_everything_is() {
    assert_eq!(
        report_init("/r/.clt/tasks.json", Some("main"), "/r/s", "/r/m"),
        vec![
            "  Task list ready at /r/.clt/tasks.json",
            "  Tasks you add now are scoped to `main`.",
            "  Sample hook: /r/s",
            "  What's in .clt/: /r/m",
        ]
    );
    assert_eq!(report_init("p", None, "s", "m").len(), 3);
}

#[test]
fn a_hook_learns_everything_about_the_task() {
    let mut t = Task::new(3, "a thing", Moment::new(1, 0).unwrap());
    t.state = State::Done;
    let env = environment("post-done", &t, "{}", Some("robot"));
    let get = |k: &str| env.iter().find(|(n, _)| n == k).map(|(_, v)| v.clone());
    assert_eq!(get("CLT_EVENT").as_deref(), Some("post-done"));
    assert_eq!(get("CLT_TASK_ID").as_deref(), Some("3"));
    assert_eq!(get("CLT_TASK_TITLE").as_deref(), Some("a thing"));
    assert_eq!(get("CLT_TASK_STATE").as_deref(), Some("done"));
    assert_eq!(get("CLT_TASK_JSON").as_deref(), Some("{}"));
    assert_eq!(get("CLT_BRANCH").as_deref(), Some(""));
    assert_eq!(get("CLT_ACTOR").as_deref(), Some("robot"));
    assert_ne!(Output::Inherit, Output::Divert);
    for event in ["post-add", "post-done", "post-start", "post-reopen", "post-rm"] {
        assert!(SAMPLE.contains(event), "{event}");
    }
}

#[test]
fn hooks_run_through_their_interpreters() {
    assert!(runnable(true, 0o755));
    assert!(!runnable(true, 0o644));
    assert!(!runnable(false, 0o755));
    let names = candidates("post-add");
    assert_eq!(names[0], "post-add");
    assert_eq!(names[4], "post-add.ps1");
    assert_eq!(resolve(0, "h"), ("sh".to_string(), vec!["h".to_string()]));
    assert_eq!(resolve(1, "h.exe"), ("h.exe".to_string(), vec![]));
    assert_eq!(resolve(4, "h.ps1").0, "powershell");
    assert_eq!(resolve(5, "h.sh").0, "sh");
}

#[test]
fn a_failing_hook_is_reported_and_no_more() {
    assert_eq!(report("post-add", true, Some(0)), None);
    assert_eq!(report("post-add", false, Some(3)).unwrap(), "hook `post-add` exited with 3");
    assert_eq!(report("post-add", false, Some(-1)).unwrap(), "hook `post-add` exited with -1");
    assert_eq!(report("post-add", false, None).unwrap(), "hook `post-add` exited with a signal");
}

#[test]
fn every_other_line_of_the_exclude_file_keeps_its_place() {
    let hidden = "one\n\n/.clt\ntwo\n# clt task list (mine)\nthree";
    let after = Repo::unexclude(hidden).unwrap();
    assert_eq!(after.lines().collect::<Vec<_>>(), vec!["one", "", "two", "three"]);
    assert!(after.ends_with("three\n"));
}
