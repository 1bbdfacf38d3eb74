//! The list in memory: its tree, its repairs and its views.

use clt::cycles::find_cycles;
use clt::error::Error;
use clt::repair::{ids_left, repair};
use clt::store::{check_format, global_dir, Data, Loaded, Scope, Store};
use clt::git::{GitRun, Repo};
use clt::task::{State, Task};
use clt::time::Moment;
use std::collections::HashSet;

fn now() -> Moment {
    Moment::new(1_786_000_000, 0).unwrap()
}

/// A store's worth of tasks, with `next_id` past the highest one so an
/// insert can't collide with a fixture.
fn data_with(tasks: Vec<Task>) -> Data {
    Data {
        next_id: tasks.iter().map(|t| t.id + 1).max().unwrap_or(1),
        tasks,
        ..Data::default()
    }
}

fn store_with(tasks: Vec<Task>) -> Store {
    let data = data_with(tasks);
    Store { scope: Scope::Global, data, warnings: Vec::new(), migrated: false }
}

fn task(id: u32, parent: Option<u32>) -> Task {
    let mut t = Task::new(id, &format!("task {id}"), now());
    t.parent = parent;
    t
}

#[test]
fn ids_are_never_reused() {
    let mut store = store_with(vec![task(1, None), task(2, None)]);
    store.remove_subtree(2);
    let mut fresh = Task::new(0, "new", now());
    fresh.id = 0;
    let id = store.insert(fresh);
    assert_eq!(id, 3, "deleting the highest id must not free it for reuse");
}

#[test]
fn removing_a_parent_takes_the_whole_subtree() {
    let mut store = store_with(vec![
        task(1, None),
        task(2, Some(1)),
        task(3, Some(2)),
        task(4, None),
    ]);
    let removed = store.remove_subtree(1);
    assert_eq!(removed, vec![1, 2, 3]);
    assert_eq!(store.tasks().len(), 1);
    assert_eq!(store.tasks()[0].id, 4);
}

#[test]
fn reparent_refuses_to_build_a_cycle() {
    let mut store = store_with(vec![task(1, None), task(2, Some(1)), task(3, Some(2))]);
    // Putting 1 under its own grandchild would close the loop.
    let err = store.reparent(1, Some(3), now()).unwrap_err();
    assert!(err.message().contains("cycle"), "got: {}", err.message());
}

#[test]
fn reparent_refuses_to_be_its_own_parent() {
    let mut store = store_with(vec![task(1, None)]);
    assert!(store.reparent(1, Some(1), now()).is_err());
}

#[test]
fn reparent_refuses_to_cross_branches() {
    let mut a = task(1, None);
    a.branch = Some("main".into());
    let mut b = task(2, None);
    b.branch = Some("feat/x".into());
    let mut store = store_with(vec![a, b]);

    let err = store.reparent(2, Some(1), now()).unwrap_err();
    assert!(err.message().contains("branch"), "got: {}", err.message());
}

#[test]
fn load_breaks_parent_cycles_instead_of_hanging() {
    // Exactly what a careless hand-edit produces.
    let mut data = data_with(vec![task(1, Some(3)), task(2, Some(1)), task(3, Some(2))]);
    let mut warnings = Vec::new();
    repair(&mut data, &mut warnings);

    assert_eq!(data.tasks.iter().filter(|t| t.parent.is_none()).count(), 1);
    assert!(warnings.iter().any(|w| w.contains("cycle")), "{warnings:?}");

    // And the tree walk now terminates.
    let store = store_with(data.tasks);
    assert_eq!(store.tree(|_| true).len(), 3);
}

/// Ids still reachable by walking down from the roots — i.e. everything the
/// renderer, `find` and `--json` can actually see.
fn visible(store: &Store) -> HashSet<u32> {
    store.tree(|_| true).iter().map(|r| r.task.id).collect()
}

#[test]
fn a_cycle_is_broken_even_when_another_task_points_into_it() {
    // 2 ↔ 3 is the cycle, and 1 merely hangs off it. Detaching #1 would leave
    // the loop in place, and #2 and #3 would disappear from every view.
    let mut data = data_with(vec![task(1, Some(2)), task(2, Some(3)), task(3, Some(2))]);
    let mut warnings = Vec::new();
    repair(&mut data, &mut warnings);

    assert!(
        find_cycles(&data.tasks).is_empty(),
        "the cycle must actually be gone, not merely reported"
    );
    assert!(warnings.iter().any(|w| w.contains("cycle")), "{warnings:?}");

    let store = store_with(data.tasks);
    assert_eq!(
        visible(&store),
        HashSet::from([1, 2, 3]),
        "no task may be left unreachable from any root"
    );
}

#[test]
fn several_independent_cycles_are_all_broken() {
    // Each task has one parent, so cycles are disjoint — but there can be
    // more than one, and stopping after the first would leave the rest.
    let mut data = data_with(vec![
        task(1, Some(2)),
        task(2, Some(1)),
        task(3, Some(4)),
        task(4, Some(5)),
        task(5, Some(3)),
    ]);
    let mut warnings = Vec::new();
    repair(&mut data, &mut warnings);

    assert!(find_cycles(&data.tasks).is_empty());
    assert_eq!(
        warnings.iter().filter(|w| w.contains("cycle")).count(),
        2,
        "each cycle deserves its own report"
    );
    let store = store_with(data.tasks);
    assert_eq!(visible(&store).len(), 5);
}

#[test]
fn a_task_that_is_its_own_parent_is_a_cycle_of_one() {
    let mut data = data_with(vec![task(1, Some(1)), task(2, Some(1))]);
    let mut warnings = Vec::new();
    repair(&mut data, &mut warnings);

    assert_eq!(data.tasks[0].parent, None);
    let store = store_with(data.tasks);
    assert_eq!(visible(&store).len(), 2);
}

#[test]
fn find_cycles_reports_only_the_loop_not_the_tail_leading_into_it() {
    // 1 → 2 → 3 → 4 → 3. The cycle is {3,4}; 1 and 2 are just a tail.
    let tasks = vec![
        task(1, Some(2)),
        task(2, Some(3)),
        task(3, Some(4)),
        task(4, Some(3)),
    ];
    let cycles = find_cycles(&tasks);
    assert_eq!(cycles.len(), 1);
    let members: HashSet<u32> = cycles[0].iter().copied().collect();
    assert_eq!(members, HashSet::from([3, 4]), "got {:?}", cycles[0]);
}

#[test]
fn find_cycles_leaves_an_ordinary_tree_alone() {
    let tasks = vec![task(1, None), task(2, Some(1)), task(3, Some(2))];
    assert!(find_cycles(&tasks).is_empty());
}

#[test]
fn load_detaches_tasks_pointing_at_missing_parents() {
    let mut data = data_with(vec![task(1, Some(99))]);
    let mut warnings = Vec::new();
    repair(&mut data, &mut warnings);
    assert_eq!(data.tasks[0].parent, None);
    assert!(warnings.iter().any(|w| w.contains("missing parent")));
}

#[test]
fn load_renumbers_duplicate_ids() {
    let mut data = data_with(vec![task(1, None), task(1, None)]);
    let mut warnings = Vec::new();
    repair(&mut data, &mut warnings);
    let ids: HashSet<u32> = data.tasks.iter().map(|t| t.id).collect();
    assert_eq!(ids.len(), 2, "duplicate ids must be resolved");
    assert!(warnings.iter().any(|w| w.contains("duplicate")));
}

#[test]
fn re_scoping_takes_the_whole_subtree() {
    // Half a tree on one branch and half on another renders as a tree with
    // holes in it from both sides, so the subtree is the unit of movement.
    let mut a = task(1, None);
    a.branch = Some("feat/x".into());
    let mut b = task(2, Some(1));
    b.branch = Some("feat/x".into());
    let mut c = task(3, Some(2));
    c.branch = Some("feat/x".into());
    let mut store = store_with(vec![a, b, c]);

    let moved = store.set_scope(1, None, now()).unwrap();
    assert_eq!(moved, vec![1, 2, 3]);
    assert!(store.tasks().iter().all(|t| t.branch.is_none()));
}

#[test]
fn re_scoping_a_subtask_is_refused() {
    let mut parent = task(1, None);
    parent.branch = Some("feat/x".into());
    let mut child = task(2, Some(1));
    child.branch = Some("feat/x".into());
    let mut store = store_with(vec![parent, child]);

    let err = store.set_scope(2, None, now()).unwrap_err();
    assert!(err.message().contains("nested under #1"), "got: {}", err.message());
    // And nothing moved.
    assert_eq!(store.get(2).unwrap().branch.as_deref(), Some("feat/x"));
}

#[test]
fn re_scoping_reports_only_what_actually_changed() {
    let mut t = task(1, None);
    t.branch = Some("main".into());
    let mut store = store_with(vec![t]);
    assert!(
        store.set_scope(1, Some("main"), now()).unwrap().is_empty(),
        "moving a task where it already is is not a change"
    );
}

#[test]
fn orphans_are_tasks_whose_branch_git_has_forgotten() {
    let mut live_branch = task(1, None);
    live_branch.branch = Some("main".into());
    let mut dead_branch = task(2, None);
    dead_branch.branch = Some("feat/merged-and-deleted".into());
    let repo_wide = task(3, None);

    let store = store_with(vec![live_branch, dead_branch, repo_wide]);
    let live = vec!["main".to_string()];

    let orphans: Vec<u32> = store.orphaned(&live).iter().map(|t| t.id).collect();
    assert_eq!(
        orphans,
        vec![2],
        "only the task on a branch that no longer exists — a repo-wide task \
         belongs to no branch and can never be orphaned"
    );
}

#[test]
fn repo_wide_tasks_are_visible_from_every_branch() {
    let repo_wide = task(1, None);
    assert!(Store::in_scope(&repo_wide, Some("main")));
    assert!(Store::in_scope(&repo_wide, Some("feat/x")));
    assert!(Store::in_scope(&repo_wide, None));
}

#[test]
fn branch_tasks_hide_on_other_branches_and_on_detached_head() {
    let mut scoped = task(1, None);
    scoped.branch = Some("feat/x".into());
    assert!(Store::in_scope(&scoped, Some("feat/x")));
    assert!(!Store::in_scope(&scoped, Some("main")));
    assert!(!Store::in_scope(&scoped, None));
}

#[test]
fn tree_pulls_in_ancestors_of_matches_as_context() {
    let store = store_with(vec![task(1, None), task(2, Some(1)), task(3, Some(2))]);
    // Match only the deepest task; its ancestors must come along.
    let rows = store.tree(|t| t.id == 3);
    assert_eq!(rows.len(), 3);
    assert_eq!(rows.iter().map(|r| r.task.id).collect::<Vec<_>>(), vec![1, 2, 3]);
    assert_eq!(rows.iter().map(|r| r.depth).collect::<Vec<_>>(), vec![0, 1, 2]);
    assert!(rows[0].context, "unmatched ancestor should be marked context");
    assert!(!rows[2].context, "the match itself is not context");
}

#[test]
fn tree_reroots_children_whose_parent_was_filtered_out() {
    let store = store_with(vec![task(1, None), task(2, Some(1))]);
    // Keep only the child, and suppress the ancestor pull-in by matching a
    // task with no parent in the visible set.
    let rows = store.tree(|t| t.id == 2);
    // Parent comes back as context, so nothing floats.
    assert_eq!(rows.len(), 2);
    assert_eq!(rows[0].depth, 0);
}

#[test]
fn progress_counts_the_whole_subtree() {
    let mut kids = vec![task(1, None), task(2, Some(1)), task(3, Some(2))];
    kids[1].state = State::Done;
    let store = store_with(kids);
    assert_eq!(store.progress(1), Some((1, 2)));
    assert_eq!(store.progress(3), None, "a leaf has no progress");
}

#[test]
fn progress_all_agrees_with_progress_task_for_task() {
    // The batch version exists only to be faster, so the one thing that
    // must never differ is the answer.
    let mut tasks = vec![
        task(1, None),
        task(2, Some(1)),
        task(3, Some(1)),
        task(4, Some(2)),
        task(5, Some(4)),
        task(6, None), // a leaf root
        task(7, None),
    ];
    tasks[1].state = State::Done; // #2
    tasks[4].state = State::Done; // #5
    tasks[6].state = State::Done; // #7
    let store = store_with(tasks);

    let batch = store.progress_all();
    for t in store.tasks() {
        assert_eq!(
            batch.get(&t.id).copied(),
            store.progress(t.id),
            "disagreement on #{}",
            t.id
        );
    }
    // And spot-check the shape, so a mutual failure can't pass.
    assert_eq!(batch.get(&1).copied(), Some((2, 4)));
    assert_eq!(batch.get(&6), None, "a leaf is absent, not (0, 0)");
}

#[test]
fn progress_all_counts_a_parent_that_is_itself_done() {
    // A parent's own state must not leak into its own rollup.
    let mut tasks = vec![task(1, None), task(2, Some(1))];
    tasks[0].state = State::Done;
    let store = store_with(tasks);
    assert_eq!(store.progress_all().get(&1).copied(), Some((0, 1)));
}

#[test]
fn format_version_from_the_future_is_refused_not_silently_rewritten() {
    let data = Data { version: 999, next_id: 1, tasks: Vec::new(), last_commit: None };
    let err = check_format(data).unwrap_err();
    assert!(err.message().contains("Upgrade clt"), "got: {}", err.message());
}

#[test]
fn the_present_format_is_taken_as_it_is() {
    let data = check_format(data_with(vec![task(1, None)])).unwrap();
    assert_eq!((data.version, data.tasks.len()), (1, 1));
    let older = Data { version: 0, ..data };
    assert!(check_format(older).is_ok());
}

#[test]
fn opening_repairs_and_says_so() {
    let data = data_with(vec![task(1, Some(99)), task(2, None)]);
    assert!(ids_left(&data));
    let store = Store::open_in(Scope::Global, Loaded::File(data));
    assert_eq!(store.get(1).unwrap().parent, None);
    assert!(store.migrated, "the damage is still on disk");
    assert_eq!(store.warnings.len(), 1);

    let again = Store::open_in(Scope::Global, Loaded::File(store.data));
    assert!(!again.migrated, "repairing once is enough");
    assert!(again.warnings.is_empty());
}

#[test]
fn opening_nothing_gives_an_empty_list() {
    let store = Store::open_in(Scope::Global, Loaded::Nothing);
    assert!(store.tasks().is_empty());
    assert_eq!((store.data.version, store.data.next_id), (1, 1));
    assert!(!store.migrated);
    assert_eq!(store.scope.branch(), None);
    assert!(store.scope.repo().is_none());
}

#[test]
fn a_duplicate_takes_a_fresh_id_and_keeps_its_place() {
    let mut data = data_with(vec![task(2, None), task(2, None), task(5, Some(2))]);
    let mut warnings = Vec::new();
    assert!(repair(&mut data, &mut warnings));
    let ids: Vec<u32> = data.tasks.iter().map(|t| t.id).collect();
    assert_eq!(ids, vec![2, 6, 5]);
    assert_eq!(data.next_id, 7);
}

#[test]
fn the_only_holder_of_an_id_keeps_it_whatever_the_counter_says() {
    let mut data = data_with(vec![task(1, None), task(1, None), task(2, None)]);
    data.next_id = 1;
    assert!(ids_left(&data));
    let mut warnings = Vec::new();
    assert!(repair(&mut data, &mut warnings));
    let ids: Vec<u32> = data.tasks.iter().map(|t| t.id).collect();
    assert_eq!(ids, vec![1, 3, 2]);
    assert_eq!(data.next_id, 4);
    assert_eq!(warnings, vec!["duplicate id #1 renumbered to #3"]);
}

#[test]
fn a_high_id_further_down_leaves_room_for_a_duplicate() {
    let mut data = Data {
        next_id: 1,
        tasks: vec![task(1, None), task(1, None), task(u32::MAX, None)],
        ..Data::default()
    };
    assert!(ids_left(&data));
    repair(&mut data, &mut Vec::new());
    let ids: Vec<u32> = data.tasks.iter().map(|t| t.id).collect();
    assert_eq!(ids, vec![1, 2, u32::MAX]);
    assert_eq!(data.next_id, u32::MAX);

    data.tasks = vec![task(u32::MAX, None), task(1, None), task(1, None)];
    assert!(!ids_left(&data), "there is no id left to give");
}

#[test]
fn a_change_that_nothing_is_said_of_is_a_change() {
    let mut older = Data { version: 0, ..Data::default() };
    let mut warnings = Vec::new();
    assert!(repair(&mut older, &mut warnings), "the version was raised");
    assert_eq!(older.version, 1);
    assert!(warnings.is_empty());
    assert!(!repair(&mut older, &mut warnings));

    let mut behind = data_with(vec![task(4, None)]);
    behind.next_id = 2;
    let store = Store::open_in(Scope::Global, Loaded::File(behind));
    assert_eq!(store.data.next_id, 5);
    assert!(store.migrated, "the counter on disk is behind");
    assert!(store.warnings.is_empty());
}

#[test]
fn removing_what_is_not_there_removes_nothing() {
    let mut store = store_with(vec![task(1, None)]);
    assert_eq!(store.remove_subtree(9), Vec::<u32>::new());
    assert_eq!(store.tasks().len(), 1);
    assert_eq!(store.tasks()[0].id, 1);
}

#[test]
fn a_sound_list_is_left_alone() {
    let mut data = data_with(vec![task(1, None), task(2, Some(1))]);
    let mut warnings = Vec::new();
    assert!(!repair(&mut data, &mut warnings));
    assert!(warnings.is_empty());
    assert_eq!(data.tasks[1].parent, Some(1));
}

#[test]
fn reparenting_moves_a_subtree_and_nothing_else() {
    let mut store = store_with(vec![task(1, None), task(2, None), task(3, Some(2))]);
    store.reparent(2, Some(1), now()).unwrap();
    assert_eq!(store.get(2).unwrap().parent, Some(1));
    assert_eq!(store.ancestors(3), vec![2, 1]);
    assert_eq!(store.descendants(1), vec![2, 3]);
    store.reparent(2, None, now()).unwrap();
    assert_eq!(store.get(2).unwrap().parent, None);
    assert!(matches!(store.reparent(9, None, now()), Err(Error::NoTask { id: 9 })));
}

#[test]
fn siblings_are_sorted_by_state_and_then_by_id() {
    let mut tasks = vec![task(1, None), task(2, None), task(3, None), task(4, None)];
    tasks[0].state = State::Done;
    tasks[3].state = State::Doing;
    let store = store_with(tasks);
    let order: Vec<u32> = store.tree(|_| true).iter().map(|r| r.task.id).collect();
    assert_eq!(order, vec![4, 2, 3, 1]);
}

#[test]
fn a_scanned_task_is_found_by_its_marker() {
    let mut t = task(3, None);
    t.origin = clt::task::Origin::Scan { key: "k".to_string() };
    let store = store_with(vec![task(1, None), t]);
    assert_eq!(store.find_by_scan_key("k").unwrap().id, 3);
    assert!(store.find_by_scan_key("other").is_none());
}

#[test]
fn the_global_list_lives_in_the_data_directory() {
    let xdg = global_dir(Some("/data"), Some("/home/x"), false).unwrap();
    assert_eq!(xdg, vec!["/data", "clt"]);
    let home = global_dir(Some(""), Some("/home/x"), false).unwrap();
    assert_eq!(home, vec!["/home/x", ".local", "share", "clt"]);
    let windows = global_dir(None, Some("C:\\Users\\x"), true).unwrap();
    assert_eq!(windows, vec!["C:\\Users\\x", "AppData", "Local", "clt"]);
    let e = global_dir(None, Some(""), false).unwrap_err();
    assert_eq!(e.message(), "cannot locate a data directory (XDG_DATA_HOME and HOME are unset)");
    let e = global_dir(None, None, true).unwrap_err();
    assert!(e.message().contains("LOCALAPPDATA"));
}

#[test]
fn only_a_first_save_in_a_repo_hides_the_list() {
    let mut store = store_with(vec![]);
    assert!(!store.claims_exclusion(false), "there is no repo to hide it from");
    store.scope = Scope::Repo(Repo {
        root: "/r".to_string(),
        git_common_dir: ".git".to_string(),
        branch: None,
    });
    assert!(store.claims_exclusion(false));
    assert!(!store.claims_exclusion(true), "saving again must not undo sharing");
    let known = GitRun::Exited { success: true, stdout: b".clt/tasks.json\n".to_vec() };
    assert!(store.is_shared(&known));
    store.scope = Scope::Global;
    assert!(!store.is_shared(&known));
    assert!(matches!(
        store.scope.repo_or(Error::SyncNeedsRepo),
        Err(Error::SyncNeedsRepo)
    ));
}

#[test]
fn the_tree_goes_depth_first_and_a_walk_down_breadth_first() {
    let mut store = store_with(vec![
        task(1, None),
        task(2, None),
        task(3, Some(1)),
        task(4, Some(3)),
        task(5, Some(1)),
        task(6, Some(2)),
        task(7, Some(5)),
    ]);
    store.get_mut(5).unwrap().state = State::Doing;
    let rows: Vec<(u32, usize)> = store
        .tree_of(&vec![true; 7])
        .iter()
        .map(|r| (r.task.id, r.depth))
        .collect();
    assert_eq!(rows, vec![(1, 0), (5, 1), (7, 2), (3, 1), (4, 2), (2, 0), (6, 1)]);
    assert_eq!(store.descendants(1), vec![3, 5, 4, 7]);
}
