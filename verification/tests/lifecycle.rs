//! Tasks from filing to closing, across branches and scans.

use clt::cli::{
    access_for, AddArgs, Cli, Command, EditArgs, FindArgs, IdsArgs, ListArgs, MoveArgs, RmArgs,
    ScanArgs, ScopeArgs, ScopeTarget, SyncArgs,
};
use clt::commands::{
    cmd_add, cmd_edit, cmd_move, cmd_rm, cmd_scope, deleted_line, describe_scope, refuse_add,
    report_scope, swept,
};
use clt::error::Error;
use clt::git::{Commit, Repo};
use clt::journal::Entry;
use clt::linkage::cmd_sync;
use clt::reconcile::{cmd_scan, new_markers, report_scan, scan_wanted, wanted, Scanned};
use clt::scan::{gather, load_ignores, Source};
use clt::states::{already, apply_state, cmd_set_state, require_all, state_event};
use clt::store::{Access, Data, Scope, Store};
use clt::task::{Origin, State, Task};
use clt::time::Moment;
use clt::views::{
    any_has, cmd_find, cmd_list, cmd_list_orphaned, find_rows, list_branch, list_rows, matched,
    report_find, searched,
};

fn at(secs: i64) -> Moment {
    Moment::new(secs, 0).unwrap()
}

fn on(branch: Option<&str>) -> Scope {
    Scope::Repo(Repo {
        root: "/r".to_string(),
        git_common_dir: "/r/.git".to_string(),
        branch: branch.map(str::to_owned),
    })
}

fn repo(branch: &str) -> Store {
    Store {
        scope: on(Some(branch)),
        data: Data::default(),
        warnings: Vec::new(),
        migrated: false,
    }
}

fn new_task(title: &str) -> AddArgs {
    AddArgs {
        title: title.split(' ').map(str::to_owned).collect(),
        note: None,
        file: None,
        parent: None,
        repo: false,
        start: false,
    }
}

fn add(store: &mut Store, title: &str) -> Task {
    cmd_add(store, None, at(1), &new_task(title)).unwrap().task
}

fn add_under(store: &mut Store, title: &str, parent: u32) -> Task {
    let args = AddArgs { parent: Some(parent), ..new_task(title) };
    cmd_add(store, None, at(1), &args).unwrap().task
}

fn add_repo_wide(store: &mut Store, title: &str) -> Task {
    let args = AddArgs { repo: true, ..new_task(title) };
    cmd_add(store, None, at(1), &args).unwrap().task
}

fn edit(id: u32) -> EditArgs {
    EditArgs { id, title: None, note: None, file: None, state: None }
}

fn tree() -> Store {
    let mut store = repo("main");
    add(&mut store, "parent");
    add_under(&mut store, "child", 1);
    add_under(&mut store, "grandchild", 2);
    store
}

fn states(store: &Store) -> Vec<&'static str> {
    store.tasks().iter().map(|t| t.state.as_str()).collect()
}

fn actions(entries: &[Entry]) -> Vec<&str> {
    entries.iter().map(|e| e.action.as_str()).collect()
}

fn titled<'a>(store: &'a Store, title: &str) -> &'a Task {
    store.tasks().iter().find(|t| t.title == title).unwrap()
}

fn to(repo: bool, branch: Option<&str>, here: bool) -> ScopeTarget {
    ScopeTarget { repo, branch: branch.map(str::to_owned), here }
}

fn everything() -> ListArgs {
    ListArgs { all: true, done: true, ..ListArgs::default() }
}

fn listed(store: &Store, args: &ListArgs) -> Vec<String> {
    list_rows(store, args, at(0)).iter().map(|r| r.task.title.clone()).collect()
}

// ---------------------------------------------------------------------------
// States
// ---------------------------------------------------------------------------

#[test]
fn edit_state_done_cascades_exactly_like_done() {
    let mut via_edit = tree();
    cmd_edit(&mut via_edit, None, at(2), &EditArgs { state: Some(State::Done), ..edit(1) }).unwrap();

    let mut via_done = tree();
    cmd_set_state(&mut via_done, None, at(2), &vec![1], State::Done).unwrap();

    assert_eq!(states(&via_edit), vec!["done", "done", "done"]);
    assert_eq!(
        states(&via_edit),
        states(&via_done),
        "both doors must leave the tree in the same state"
    );
}

#[test]
fn edit_state_journals_under_the_transition_not_as_an_edit() {
    let mut store = tree();
    let out =
        cmd_edit(&mut store, None, at(2), &EditArgs { state: Some(State::Done), ..edit(1) }).unwrap();
    let actions = actions(&out.entries);
    assert_eq!(
        actions.iter().filter(|a| **a == "done").count(),
        3,
        "the close and its cascade must be recorded as closes; got {actions:?}"
    );
    assert!(
        !actions.contains(&"edit"),
        "a pure state change is not an edit; got {actions:?}"
    );
    assert_eq!(out.fire.len(), 1, "the hook fires for the task that was named");
    assert_eq!(swept(out.touched.len()).unwrap(), "  and 2 nested tasks");
}

#[test]
fn editing_a_field_and_the_state_records_both() {
    let mut store = tree();
    let args = EditArgs {
        title: Some("renamed".to_string()),
        state: Some(State::Doing),
        ..edit(3)
    };
    let out = cmd_edit(&mut store, None, at(2), &args).unwrap();
    let actions = actions(&out.entries);
    assert!(actions.contains(&"edit"), "{actions:?}");
    assert!(actions.contains(&"doing"), "{actions:?}");
    assert_eq!(titled(&store, "renamed").state.as_str(), "doing");
    assert_eq!(swept(out.touched.len()), None);
}

#[test]
fn reopening_through_edit_clears_the_commit_that_closed_it() {
    // `closed_by` is set by commit linkage. Leaving it behind on a reopened task
    // claims a commit closed something that is currently open.
    let mut store = repo("main");
    add(&mut store, "fix the race");
    let commits = vec![Commit {
        sha: "0123456789abcdef".to_string(),
        message: "fix it\n\ncloses clt#1".to_string(),
    }];
    cmd_sync(&mut store, None, at(2), &commits);
    assert!(
        titled(&store, "fix the race").closed_by.is_some(),
        "fixture: sync should have recorded the closing commit"
    );

    cmd_edit(&mut store, None, at(3), &EditArgs { state: Some(State::Todo), ..edit(1) }).unwrap();
    let t = titled(&store, "fix the race");
    assert_eq!(t.state.as_str(), "todo");
    assert!(
        t.closed_by.is_none(),
        "an open task must not still name the commit that closed it"
    );
}

#[test]
fn reopening_a_parent_does_not_reopen_its_subtasks() {
    // Closing cascades; reopening deliberately does not. Reopening a parent to
    // add one more subtask should not undo the ones already finished.
    let mut store = tree();
    cmd_set_state(&mut store, None, at(2), &vec![1], State::Done).unwrap();
    assert_eq!(states(&store), vec!["done", "done", "done"]);

    cmd_edit(&mut store, None, at(3), &EditArgs { state: Some(State::Todo), ..edit(1) }).unwrap();
    assert_eq!(
        states(&store),
        vec!["todo", "done", "done"],
        "only the named task reopens"
    );
}

#[test]
fn a_typo_in_the_third_id_leaves_the_first_two_alone() {
    let mut store = tree();
    let e = cmd_set_state(&mut store, None, at(2), &vec![1, 2, 9], State::Done).err().unwrap();
    assert!(matches!(e, Error::NoTask { id: 9 }));
    assert_eq!(e.message(), "no task #9 (try `clt ls --all`)");
    assert_eq!(states(&store), vec!["todo", "todo", "todo"]);
    assert!(require_all(&store, &vec![1, 2, 3]).is_ok());
}

#[test]
fn closing_twice_changes_nothing() {
    let mut store = tree();
    let first = cmd_set_state(&mut store, Some("robot"), at(2), &vec![1], State::Done).unwrap();
    assert_eq!(first.touched.len(), 3);
    assert_eq!(first.fire.len(), 1);
    assert_eq!(first.entries[0].actor.as_deref(), Some("robot"));
    let (touched, entries) = apply_state(&mut store, None, at(3), &vec![1], State::Done);
    assert!(touched.is_empty() && entries.is_empty());
    assert_eq!(already(State::Done), "  Already done.");
    assert_eq!(store.get(1).unwrap().updated, at(2));
    assert_eq!(state_event(State::Done), "post-done");
    assert_eq!(state_event(State::Doing), "post-start");
    assert_eq!(state_event(State::Todo), "post-reopen");
}

// ---------------------------------------------------------------------------
// Filing, editing, moving, deleting
// ---------------------------------------------------------------------------

#[test]
fn a_filed_task_carries_what_it_was_given() {
    let mut store = repo("main");
    let args = AddArgs {
        note: Some("the long version".to_string()),
        file: Some("src/a.rs:7".to_string()),
        start: true,
        ..new_task("  token refresh  ")
    };
    let out = cmd_add(&mut store, Some("robot"), at(5), &args).unwrap();
    let t = &out.task;
    assert_eq!((t.id, t.title.as_str(), t.state), (1, "token refresh", State::Doing));
    assert_eq!(t.branch.as_deref(), Some("main"));
    assert_eq!(t.actor.as_deref(), Some("robot"));
    assert_eq!(t.location.as_ref().unwrap().to_string(), "src/a.rs:7");
    assert_eq!((out.entry.action.as_str(), out.entry.id), ("add", Some(1)));
    assert_eq!(store.data.next_id, 2);
}

#[test]
fn subtasks_live_on_their_parents_branch() {
    let mut store = repo("main");
    add_repo_wide(&mut store, "everywhere");
    add(&mut store, "here");
    store.scope = on(Some("feat/x"));
    assert_eq!(add_under(&mut store, "a", 1).branch, None);
    assert_eq!(add_under(&mut store, "b", 2).branch.as_deref(), Some("main"));
    let conflict = AddArgs { repo: true, parent: Some(2), ..new_task("c") };
    let e = cmd_add(&mut store, None, at(1), &conflict).err().unwrap();
    assert!(matches!(e, Error::RepoUnderBranch { .. }));
    assert_eq!(
        e.message(),
        "--repo conflicts with --parent 2, which is scoped to `main`\n\
         (subtasks inherit their parent's branch)"
    );
}

#[test]
fn what_cannot_be_filed_is_refused_without_an_id() {
    let mut store = repo("main");
    store.data.next_id = u32::MAX;
    assert!(refuse_add(&store, &new_task("x")).is_none());
    assert!(matches!(refuse_add(&store, &new_task(" ")), Some(Error::NoTitle)));
    assert!(matches!(cmd_add(&mut store, None, at(1), &new_task(" ")), Err(Error::NoTitle)));
}

#[test]
fn what_cannot_be_filed_is_refused_and_nothing_is_filed() {
    let mut store = repo("main");
    let e = cmd_add(&mut store, None, at(1), &new_task("   ")).err().unwrap();
    assert_eq!(e.message(), "a task needs a title");
    let orphan = AddArgs { parent: Some(7), ..new_task("x") };
    assert!(matches!(cmd_add(&mut store, None, at(1), &orphan), Err(Error::NoTask { id: 7 })));
    let nowhere = AddArgs { file: Some(" ".to_string()), ..new_task("x") };
    let e = cmd_add(&mut store, None, at(1), &nowhere).err().unwrap();
    assert_eq!(e.message(), "empty location");
    assert!(store.tasks().is_empty());
    assert_eq!(store.data.next_id, 1);
}

#[test]
fn retitling_a_scanned_task_severs_it_from_its_marker() {
    let mut store = repo("main");
    scan_files(&mut store, &[("a.rs", "// TODO(clt): fix it\n")]);
    let args = EditArgs { title: Some("fix it properly".to_string()), ..edit(1) };
    let out = cmd_edit(&mut store, None, at(2), &args).unwrap();
    assert_eq!(out.task.origin, Origin::Manual);
    let noted = EditArgs { note: Some("why".to_string()), ..edit(1) };
    assert_eq!(cmd_edit(&mut store, None, at(3), &noted).unwrap().task.note.as_deref(), Some("why"));
    let blanked = EditArgs { note: Some("  ".to_string()), ..edit(1) };
    assert_eq!(cmd_edit(&mut store, None, at(4), &blanked).unwrap().task.note, None);
    let placed = EditArgs { file: Some("b.rs:3".to_string()), ..edit(1) };
    let t = cmd_edit(&mut store, None, at(5), &placed).unwrap().task;
    assert_eq!(t.location.unwrap().to_string(), "b.rs:3");
    assert_eq!(t.updated, at(5));
}

#[test]
fn edits_that_make_no_sense_are_refused() {
    let mut store = tree();
    let e = cmd_edit(&mut store, None, at(2), &edit(1)).err().unwrap();
    assert!(matches!(e, Error::NothingToChange));
    assert_eq!(e.message(), "nothing to change (try --title, --note, --file or --state)");
    let lost = EditArgs { title: Some("x".to_string()), ..edit(9) };
    assert!(matches!(cmd_edit(&mut store, None, at(2), &lost), Err(Error::NoTask { id: 9 })));
}

#[test]
fn moving_needs_somewhere_to_go() {
    let mut store = tree();
    add(&mut store, "other");
    let e = cmd_move(&mut store, None, at(2), &MoveArgs { id: 3, under: None, root: false });
    assert_eq!(
        e.err().unwrap().message(),
        "say where: --under <ID> to nest, or --root to detach"
    );
    let out =
        cmd_move(&mut store, None, at(2), &MoveArgs { id: 3, under: Some(4), root: false }).unwrap();
    assert_eq!(out.line, "  #3 now under #4");
    assert_eq!(out.entry.detail.as_deref(), Some("under #4"));
    assert_eq!(out.task.parent, Some(4));
    let out =
        cmd_move(&mut store, None, at(3), &MoveArgs { id: 3, under: None, root: true }).unwrap();
    assert_eq!(out.line, "  #3 detached to the top level");
    assert_eq!(out.entry.detail.as_deref(), Some("to top level"));
    let e = cmd_move(&mut store, None, at(3), &MoveArgs { id: 1, under: Some(2), root: false });
    assert!(e.err().unwrap().message().contains("cycle"));
}

#[test]
fn deleting_a_tree_has_to_be_meant() {
    let mut store = tree();
    add(&mut store, "other");
    let e = cmd_rm(&mut store, None, &RmArgs { ids: vec![1], recursive: false }).err().unwrap();
    assert!(matches!(e, Error::HasSubtasks { id: 1, count: 2 }));
    assert_eq!(
        e.message(),
        "#1 has 2 subtasks — pass -r to delete them too, or `clt move` them out first"
    );
    assert_eq!(store.tasks().len(), 4);

    let out = cmd_rm(&mut store, None, &RmArgs { ids: vec![1, 2], recursive: true }).unwrap();
    assert_eq!(out.tasks.len(), 1, "#2 went with #1");
    assert_eq!(deleted_line(&out.tasks[0]), "  deleted #1 parent");
    let gone: Vec<Option<u32>> = out.entries.iter().map(|e| e.id).collect();
    assert_eq!(gone, vec![Some(1), Some(2), Some(3)]);
    let left: Vec<u32> = store.tasks().iter().map(|t| t.id).collect();
    assert_eq!(left, vec![4]);
    let missing = RmArgs { ids: vec![9], recursive: true };
    assert!(matches!(cmd_rm(&mut store, None, &missing), Err(Error::NoTask { id: 9 })));
}

// ---------------------------------------------------------------------------
// Branches
// ---------------------------------------------------------------------------

#[test]
fn tasks_survive_the_branch_they_were_filed_on() {
    let mut store = repo("feat/auth");
    add(&mut store, "wire up the refresh");
    add_under(&mut store, "hash passwords", 1);

    // The lifecycle nobody handles: merged, then deleted.
    store.scope = on(Some("main"));
    let live = vec!["main".to_string()];
    let orphans = cmd_list_orphaned(&store, &live, false, at(2)).unwrap();
    let ids: Vec<u32> = orphans.tasks.iter().map(|t| t.id).collect();
    assert_eq!(ids, vec![1, 2], "both tasks are stranded on a dead branch");
    assert!(orphans.lines.contains(&"  2 tasks on branches that no longer exist.".to_string()));

    let args = ScopeArgs { ids: vec![1], target: to(true, None, false) };
    cmd_scope(&mut store, None, at(3), &args).unwrap();

    let after = cmd_list_orphaned(&store, &live, false, at(2)).unwrap();
    assert!(
        after.tasks.is_empty(),
        "rescuing the root must rescue the subtree too"
    );
    assert_eq!(after.lines, vec!["  Every task is on a branch that still exists."]);

    // And they are visible again from a plain `clt`.
    assert_eq!(listed(&store, &ListArgs::default()).len(), 2);
}

#[test]
fn re_scoping_moves_the_whole_subtree_and_refuses_to_split_one() {
    let mut store = repo("main");
    add(&mut store, "parent");
    add_under(&mut store, "child", 1);

    // A subtask cannot be moved out from under its parent: that would leave the
    // tree visible from one branch and half-visible from another.
    let args = ScopeArgs { ids: vec![2], target: to(true, None, false) };
    let e = cmd_scope(&mut store, None, at(2), &args).err().unwrap();
    assert!(
        e.message().contains("nested under #1"),
        "the error must say which parent to re-scope instead"
    );

    let args = ScopeArgs { ids: vec![1], target: to(true, None, false) };
    let out = cmd_scope(&mut store, None, at(2), &args).unwrap();
    for title in ["parent", "child"] {
        assert!(
            titled(&store, title).branch.is_none(),
            "{title} should be repo-wide after re-scoping the root"
        );
    }
    assert_eq!(out.entries[0].detail.as_deref(), Some("to the whole repo"));
    assert_eq!(
        report_scope(&out.tasks, out.branch.as_deref()),
        vec!["  #1 parent → the whole repo", "  #2 child → the whole repo"]
    );
}

#[test]
fn a_repo_wide_task_can_be_pinned_back_to_a_branch() {
    // The inverse direction, so scope is a door that swings both ways.
    let mut store = repo("main");
    add_repo_wide(&mut store, "everywhere");
    let args = ScopeArgs { ids: vec![1], target: to(false, None, true) };
    cmd_scope(&mut store, None, at(2), &args).unwrap();
    assert_eq!(titled(&store, "everywhere").branch.as_deref(), Some("main"));

    // Now it is genuinely branch-scoped: invisible from another branch.
    store.scope = on(Some("other"));
    assert!(
        listed(&store, &ListArgs::default()).is_empty(),
        "a task pinned to main must not show on `other`"
    );
}

#[test]
fn orphaned_ignores_repo_wide_tasks() {
    // Repo-wide tasks belong to no branch, so no branch can strand them.
    let mut store = repo("main");
    add_repo_wide(&mut store, "belongs to everything");
    store.scope = on(Some("temp"));
    add(&mut store, "belongs to temp");
    store.scope = on(Some("main"));
    let live = vec!["main".to_string()];
    let orphans = cmd_list_orphaned(&store, &live, false, at(2)).unwrap();
    let titles: Vec<&str> = orphans.tasks.iter().map(|t| t.title.as_str()).collect();
    assert_eq!(titles, vec!["belongs to temp"]);
}

#[test]
fn a_no_op_re_scope_reports_no_change() {
    let mut store = repo("main");
    add_repo_wide(&mut store, "a task");
    let args = ScopeArgs { ids: vec![1], target: to(true, None, false) };
    let out = cmd_scope(&mut store, None, at(2), &args).unwrap();
    assert!(out.tasks.is_empty() && out.entries.is_empty());
    assert_eq!(report_scope(&out.tasks, None), vec!["  Already scoped to the whole repo."]);
    assert_eq!(describe_scope(Some("main")), "`main`");
}

#[test]
fn here_means_nothing_on_a_detached_head() {
    let mut store = repo("main");
    add(&mut store, "a task");
    store.scope = on(None);
    let args = ScopeArgs { ids: vec![1], target: to(false, None, true) };
    let e = cmd_scope(&mut store, None, at(2), &args).err().unwrap();
    assert!(matches!(e, Error::HereIsDetached));
    assert_eq!(
        e.message(),
        "--here needs a branch, and HEAD is detached (try --branch <NAME> or --repo)"
    );
    let named = ScopeArgs { ids: vec![1], target: to(false, Some("feat/y"), false) };
    let out = cmd_scope(&mut store, None, at(3), &named).unwrap();
    assert_eq!(out.entries[0].detail.as_deref(), Some("to `feat/y`"));
    let lost = ScopeArgs { ids: vec![1, 9], target: to(true, None, false) };
    assert!(matches!(cmd_scope(&mut store, None, at(3), &lost), Err(Error::NoTask { id: 9 })));
}

#[test]
fn orphans_need_branches_to_compare_with() {
    let mut store = repo("main");
    let e = cmd_list_orphaned(&store, &Vec::new(), false, at(1)).err().unwrap();
    assert_eq!(e.message(), "this repository has no branches yet, so nothing can be orphaned");
    store.scope = Scope::Global;
    let e = cmd_list_orphaned(&store, &vec!["main".to_string()], false, at(1)).err().unwrap();
    assert!(matches!(e, Error::OrphansNeedRepo));
    assert!(e.message().contains("--orphaned needs a git repository"));
}

// ---------------------------------------------------------------------------
// Views
// ---------------------------------------------------------------------------

#[test]
fn the_default_view_keeps_todays_work_and_drops_yesterdays() {
    let mut store = repo("main");
    add(&mut store, "open");
    add(&mut store, "finished long ago");
    add(&mut store, "finished today");
    cmd_set_state(&mut store, None, at(50), &vec![2], State::Done).unwrap();
    cmd_set_state(&mut store, None, at(200), &vec![3], State::Done).unwrap();
    let args = ListArgs::default();
    let shown: Vec<String> =
        list_rows(&store, &args, at(100)).iter().map(|r| r.task.title.clone()).collect();
    assert_eq!(shown, vec!["open", "finished today"]);
    let text = cmd_list(&store, &args, at(300), at(100));
    assert_eq!(text.len(), 3);
    assert!(text[2].contains("1 open · 1 done (clt ls --done)"), "{:?}", text[2]);
    assert_eq!(listed(&store, &everything()).len(), 3);
    let done = ListArgs { state: Some(State::Done), ..ListArgs::default() };
    assert_eq!(listed(&store, &done), vec!["finished long ago", "finished today"]);
    let doing = ListArgs { state: Some(State::Doing), ..ListArgs::default() };
    assert!(cmd_list(&store, &doing, at(300), at(100))[0].contains("Nothing matches that filter."));
}

#[test]
fn a_listing_can_be_about_another_branch() {
    let mut store = repo("main");
    add(&mut store, "here");
    store.scope = on(Some("feat/x"));
    add(&mut store, "there");
    assert_eq!(listed(&store, &ListArgs::default()), vec!["there"]);
    let other = ListArgs { branch: Some("main".to_string()), ..ListArgs::default() };
    assert_eq!(listed(&store, &other), vec!["here"]);
    assert_eq!(list_branch(&store, &other).as_deref(), Some("main"));
    assert_eq!(list_branch(&store, &ListArgs::default()).as_deref(), Some("feat/x"));
}

#[test]
fn a_search_spans_branches_titles_notes_and_places() {
    let mut store = repo("main");
    let args = AddArgs {
        note: Some("Argon2, not bcrypt".to_string()),
        file: Some("src/Auth.rs:8".to_string()),
        ..new_task("hash passwords")
    };
    cmd_add(&mut store, None, at(1), &args).unwrap();
    add_under(&mut store, "pick a salt", 1);
    store.scope = on(Some("feat/x"));
    let found = |store: &Store, words: &[&str], here: bool| -> Vec<(u32, bool)> {
        let args = FindArgs { query: words.iter().map(|w| w.to_string()).collect(), here };
        cmd_find(store, &args).iter().map(|r| (r.task.id, r.context)).collect()
    };
    assert_eq!(found(&store, &["HASH", "pass"], false), vec![(1, false)]);
    assert_eq!(found(&store, &["argon2"], false), vec![(1, false)]);
    assert_eq!(found(&store, &["auth.rs:8"], false), vec![(1, false)]);
    assert_eq!(found(&store, &["salt"], false), vec![(1, true), (2, false)]);
    assert!(found(&store, &["MAIN"], false).is_empty(), "the branch is not searched");
    assert!(found(&store, &["salt"], true).is_empty(), "nothing of it is on this branch");
    let nothing = FindArgs { query: vec!["zzz".to_string(), "\"y".to_string()], here: false };
    let rows = cmd_find(&store, &nothing);
    assert_eq!(report_find(&store, &rows, &nothing, at(9)), vec!["  Nothing matching \"zzz \\\"y\"."]);
    let rows = find_rows(&store, "salt", false);
    assert_eq!(report_find(&store, &rows, &nothing, at(9)).len(), 2);
    let ids: Vec<u32> = matched(&rows).iter().map(|t| t.id).collect();
    assert_eq!(ids, vec![2], "the parent is there for context only");
    assert_eq!(searched(store.get(2).unwrap()), vec!["pick a salt"]);
    assert!(any_has(&vec!["abc".to_string()], "bc"));
    assert!(!any_has(&vec!["abc".to_string()], "cb"));
}

// ---------------------------------------------------------------------------
// Scanning
// ---------------------------------------------------------------------------

fn scan_files(store: &mut Store, files: &[(&str, &str)]) -> Scanned {
    let sources: Vec<Source> = files
        .iter()
        .map(|(rel, text)| Source { rel: rel.to_string(), text: Some(text.to_string()) })
        .collect();
    let hits = scan_wanted(&sources, &vec!["vendor/".to_string()]);
    cmd_scan(store, None, at(7), &hits)
}

#[test]
fn scanning_on_one_branch_does_not_close_another_branchs_tasks() {
    let mut store = repo("feat/x");
    scan_files(&mut store, &[("feature.rs", "// TODO(clt): finish the feature\n")]);
    assert_eq!(titled(&store, "finish the feature").state.as_str(), "todo");

    // Back to main, where feature.rs does not exist at all.
    store.scope = on(Some("main"));
    scan_files(&mut store, &[]);

    assert_eq!(
        titled(&store, "finish the feature").state.as_str(),
        "todo",
        "a marker that lives on another branch has not been deleted, and closing \
         it here is unrecoverable — a later scan sees a done task and leaves it"
    );
}

#[test]
fn deleting_a_marker_on_its_own_branch_still_closes_the_task() {
    // The guard above must not cost the feature its actual job.
    let mut store = repo("main");
    scan_files(&mut store, &[("code.rs", "// TODO(clt): retry on 429 too\n")]);
    assert_eq!(titled(&store, "retry on 429 too").state.as_str(), "todo");

    let out = scan_files(&mut store, &[("code.rs", "// nothing to see here\n")]);
    assert_eq!(
        titled(&store, "retry on 429 too").state.as_str(),
        "done",
        "the marker was deleted on the branch that owns the task"
    );
    assert_eq!(
        out.entries[0].detail.as_deref(),
        Some("closed (marker gone) retry on 429 too")
    );
    assert_eq!(
        report_scan(&out.added, &out.closed, &out.moved, true),
        vec!["  ✓ #1  retry on 429 too  (marker gone)", "  (dry run — nothing written)"]
    );
}

#[test]
fn a_marker_that_moves_between_files_keeps_one_task() {
    let mut store = repo("main");
    scan_files(&mut store, &[("old.rs", "// TODO(clt): a specific thing\n")]);
    let out = scan_files(&mut store, &[("new.rs", "\n\n// TODO(clt): a specific thing\n")]);

    assert_eq!(store.tasks().len(), 1, "the task follows the comment, it does not fork");
    let t = titled(&store, "a specific thing");
    assert_eq!(t.state.as_str(), "todo");
    assert_eq!(t.location.as_ref().unwrap().file, "new.rs");
    assert_eq!(t.location.as_ref().unwrap().line, Some(3));
    assert_eq!(
        report_scan(&out.added, &out.closed, &out.moved, false),
        vec!["  → #1  a specific thing  now at new.rs:3"]
    );
}

#[test]
fn switching_branches_does_not_churn_scanned_tasks() {
    // A scan on every branch switch must not flip tasks closed and leave them
    // closed. Walk a realistic loop and assert the list is stable.
    let shared = ("shared.rs", "// TODO(clt): shared work\n");
    let only_here = ("only-here.rs", "// TODO(clt): branch work\n");
    let mut store = repo("main");
    scan_files(&mut store, &[shared]);
    store.scope = on(Some("feat/y"));
    scan_files(&mut store, &[shared, only_here]);

    for _ in 0..3 {
        store.scope = on(Some("main"));
        scan_files(&mut store, &[shared]);
        store.scope = on(Some("feat/y"));
        scan_files(&mut store, &[shared, only_here]);
    }

    assert_eq!(titled(&store, "shared work").state.as_str(), "todo");
    assert_eq!(titled(&store, "branch work").state.as_str(), "todo");
    assert_eq!(store.tasks().len(), 2, "and no duplicates accumulated");
}

#[test]
fn origin_says_where_a_task_came_from() {
    // `origin` is what makes a rescan close a harvested task instead of filing
    // a second one, and its key is derived from the marker text.
    let mut store = repo("main");
    add(&mut store, "a plain task");
    let out =
        scan_files(&mut store, &[("src.rs", "// TODO(clt): harvested, so origin is a scan\n")]);
    assert_eq!(
        titled(&store, "a plain task").origin,
        Origin::Manual,
        "a typed task is manual"
    );
    let harvested = titled(&store, "harvested, so origin is a scan");
    assert!(
        harvested.scan_key().is_some(),
        "a scanned task carries the marker key that identifies it"
    );
    assert_eq!(harvested.actor.as_deref(), Some("scan"));
    assert_eq!(
        report_scan(&out.added, &out.closed, &out.moved, false),
        vec!["  + #2  harvested, so origin is a scan  src.rs:1"]
    );
}

#[test]
fn scanning_the_same_files_again_changes_nothing() {
    let files = [("a.rs", "// TODO(clt): one\n// TODO(clt): two\n"), ("b.rs", "// TODO(clt): one\n")];
    let mut store = repo("main");
    let first = scan_files(&mut store, &files);
    assert_eq!(first.added.len(), 2);
    assert_eq!(first.entries[0].detail.as_deref(), Some("+ one"));
    let again = scan_files(&mut store, &files);
    assert!(again.added.is_empty() && again.closed.is_empty() && again.moved.is_empty());
    assert!(again.entries.is_empty());
    assert_eq!(
        report_scan(&again.added, &again.closed, &again.moved, true),
        vec!["  Markers and tasks already agree."]
    );
}

#[test]
fn markers_in_ignored_places_do_not_count() {
    let mut store = repo("main");
    let out = scan_files(
        &mut store,
        &[
            ("vendor/x.js", "// TODO(clt): theirs\n"),
            (".clt/README.md", "// TODO(clt): ours\n"),
            ("src.rs", "// TODO(clt): mine\n"),
        ],
    );
    let titles: Vec<&str> = out.added.iter().map(|t| t.title.as_str()).collect();
    assert_eq!(titles, vec!["mine"]);
}

#[test]
fn an_ignored_file_does_not_hide_a_marker_elsewhere() {
    let text = Some("// TODO(clt): same text\n".to_string());
    let sources = vec![
        Source { rel: "docs/a.md".to_string(), text: text.clone() },
        Source { rel: "src/b.rs".to_string(), text },
    ];
    let ignores = load_ignores("docs/\n");
    assert_eq!(wanted(&gather(&sources), &ignores).len(), 1);
    let mut store = repo("main");
    let out = cmd_scan(&mut store, None, at(7), &scan_wanted(&sources, &ignores));
    assert_eq!(out.added.len(), 1);
    assert_eq!(store.tasks().len(), 1);
    let t = titled(&store, "same text");
    assert_eq!(t.location.as_ref().unwrap().to_string(), "src/b.rs:1");

    let both = scan_wanted(&sources, &Vec::new());
    assert_eq!(both.len(), 1, "one marker, however often it occurs");
    assert_eq!(both[0].file, "docs/a.md");
}

#[test]
fn known_markers_take_no_ids() {
    let source = |text: &str| Source { rel: "a.rs".to_string(), text: Some(text.to_string()) };
    let two = gather(&vec![source("// TODO(clt): one\n// TODO(clt): two\n// TODO(clt): two\n")]);
    let mut store = repo("main");
    assert_eq!(new_markers(&store, &two), 2, "a repeated marker counts once");
    cmd_scan(&mut store, None, at(7), &two);
    assert_eq!(new_markers(&store, &two), 0);
    store.data.next_id = u32::MAX;
    assert!(cmd_scan(&mut store, None, at(8), &two).added.is_empty(), "no id is needed");
}

#[test]
fn a_manual_task_is_never_closed_by_a_scan() {
    let mut store = repo("main");
    add(&mut store, "typed by hand");
    scan_files(&mut store, &[]);
    assert_eq!(titled(&store, "typed by hand").state, State::Todo);
}

// ---------------------------------------------------------------------------
// Access
// ---------------------------------------------------------------------------

fn run(command: Option<Command>) -> Cli {
    Cli { command, list: ListArgs::default(), actor: None, json: false, global: false }
}

#[test]
fn only_commands_that_write_take_the_lock() {
    assert_eq!(access_for(&run(None)), Access::Read);
    assert_eq!(access_for(&run(Some(Command::Path))), Access::Read);
    assert_eq!(access_for(&run(Some(Command::List(ListArgs::default())))), Access::Read);
    assert_eq!(access_for(&run(Some(Command::Scan(ScanArgs { dry_run: true })))), Access::Read);
    assert_eq!(access_for(&run(Some(Command::Scan(ScanArgs { dry_run: false })))), Access::Write);
    let dry = SyncArgs { rescan: false, dry_run: true };
    assert_eq!(access_for(&run(Some(Command::Sync(dry)))), Access::Read);
    assert_eq!(access_for(&run(Some(Command::Done(IdsArgs { ids: vec![1] })))), Access::Write);
    assert_eq!(access_for(&run(Some(Command::Share))), Access::Write);
}

// ---------------------------------------------------------------------------
// What every command keeps
// ---------------------------------------------------------------------------

fn check_branches(store: &Store) {
    for t in store.tasks() {
        if let Some(p) = t.parent {
            assert_eq!(t.branch, store.get(p).unwrap().branch, "#{} left its parent", t.id);
        }
    }
}

#[test]
fn no_command_splits_a_tree() {
    let mut store = tree();
    store.scope = on(Some("feat/x"));
    add_under(&mut store, "filed elsewhere", 3);
    check_branches(&store);
    let edits = EditArgs {
        title: Some("renamed".to_string()),
        state: Some(State::Doing),
        ..edit(2)
    };
    cmd_edit(&mut store, None, at(2), &edits).unwrap();
    check_branches(&store);
    scan_files(&mut store, &[("a.rs", "// TODO(clt): a marker\n")]);
    check_branches(&store);
    let commits = vec![Commit { sha: "abc".to_string(), message: "fixes clt#2".to_string() }];
    cmd_sync(&mut store, None, at(3), &commits);
    check_branches(&store);
    let away = ScopeArgs { ids: vec![1], target: to(false, Some("feat/x"), false) };
    cmd_scope(&mut store, None, at(4), &away).unwrap();
    check_branches(&store);
    cmd_move(&mut store, None, at(5), &MoveArgs { id: 4, under: Some(5), root: false }).unwrap();
    check_branches(&store);
    cmd_set_state(&mut store, None, at(6), &vec![1, 5], State::Done).unwrap();
    check_branches(&store);
    cmd_rm(&mut store, None, &RmArgs { ids: vec![2], recursive: true }).unwrap();
    check_branches(&store);
    assert_eq!(store.data.next_id, 6, "and no id was freed");
}

#[test]
fn every_state_change_is_recorded_with_its_author() {
    let mut store = tree();
    let (touched, entries) = apply_state(&mut store, Some("robot"), at(2), &vec![2], State::Done);
    assert_eq!(touched.len(), entries.len());
    for (t, e) in touched.iter().zip(&entries) {
        assert_eq!((e.id, e.action.as_str()), (Some(t.id), "done"));
        assert_eq!(e.detail.as_deref(), Some(t.title.as_str()));
        assert_eq!(e.actor.as_deref(), Some("robot"));
    }
}
