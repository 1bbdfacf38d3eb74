//! Closing tasks from commit messages.

use clt::git::Commit;
use clt::linkage::{close_refs, closing_refs, cmd_sync, refs_in, report_sync, since, sync_to, Synced};
use clt::store::{Data, Scope, Store};
use clt::task::{State, Task};
use clt::time::Moment;

fn at(secs: i64) -> Moment {
    Moment::new(secs, 0).unwrap()
}

fn store_with(tasks: Vec<Task>) -> Store {
    let next_id = tasks.iter().map(|t| t.id + 1).max().unwrap_or(1);
    Store {
        scope: Scope::Global,
        data: Data { next_id, tasks, ..Data::default() },
        warnings: Vec::new(),
        migrated: false,
    }
}

fn commit(sha: &str, message: &str) -> Commit {
    Commit { sha: sha.to_string(), message: message.to_string() }
}

#[test]
fn closing_refs_reads_the_github_vocabulary() {
    assert_eq!(closing_refs("fix the race\n\ncloses clt#3"), vec![3]);
    assert_eq!(closing_refs("resolves clt#12"), vec![12]);
    assert_eq!(closing_refs("Fixed clt#7."), vec![7]);
}

#[test]
fn closing_refs_takes_several_at_once() {
    assert_eq!(closing_refs("closes clt#3 clt#4"), vec![3, 4]);
    assert_eq!(closing_refs("closes clt#3, clt#4"), vec![3, 4]);
}

#[test]
fn bare_references_do_not_close_anything() {
    // Mentioning a task is not the same as finishing it.
    assert!(closing_refs("see clt#3 for context").is_empty());
    assert!(closing_refs("clt#3").is_empty());
}

#[test]
fn an_intervening_word_breaks_the_association() {
    assert!(closing_refs("closes the bug described in clt#3").is_empty());
}

#[test]
fn other_projects_hash_refs_are_ignored() {
    assert!(closing_refs("closes #3").is_empty());
    assert!(closing_refs("closes GH-3").is_empty());
}

#[test]
fn every_closing_word_counts_and_case_does_not() {
    for word in [
        "close", "closes", "closed", "fix", "fixes", "fixed", "resolve", "resolves", "resolved",
        "CLOSES", "Fix", "(fixes",
    ] {
        assert_eq!(closing_refs(&format!("{word} clt#5")), vec![5], "{word}");
    }
    assert_eq!(closing_refs("Closes CLT#9!"), vec![9]);
}

#[test]
fn ids_that_are_none_are_passed_over() {
    assert!(closing_refs("closes clt#").is_empty());
    assert!(closing_refs("closes clt#99999999999").is_empty());
    assert_eq!(closing_refs("closes clt#x clt#4x"), vec![4]);
    assert_eq!(closing_refs("closes clt#4294967295"), vec![4294967295]);
}

#[test]
fn bare_words_are_read_one_after_the_other() {
    let words: Vec<String> =
        ["closes", "clt#1", "and", "clt#2", "fixes", "clt#3"].iter().map(|w| w.to_string()).collect();
    assert_eq!(refs_in(&words), vec![1, 3]);
}

#[test]
fn a_sync_closes_what_the_commits_name_and_says_by_which() {
    let mut a = Task::new(1, "one", at(1));
    a.branch = Some("main".into());
    let mut b = Task::new(2, "two", at(1));
    b.state = State::Done;
    let mut store = store_with(vec![a, b, Task::new(3, "three", at(1))]);
    let commits = vec![
        commit("0123456789ab", "work\n\ncloses clt#1"),
        commit("fedcba987654", "closes clt#1, clt#2, clt#99"),
    ];
    let out = cmd_sync(&mut store, Some("robot"), at(9), &commits);
    assert_eq!(out.closed.len(), 1);
    assert_eq!(out.by, vec!["0123456"]);
    let t = store.get(1).unwrap();
    assert_eq!(t.state, State::Done);
    assert_eq!(t.closed_by.as_deref(), Some("0123456789ab"));
    assert_eq!(t.updated, at(9));
    assert_eq!(store.get(2).unwrap().closed_by, None, "done already");
    assert_eq!(store.get(3).unwrap().state, State::Todo);
    let e = &out.entries[0];
    assert_eq!((e.action.as_str(), e.id), ("sync", Some(1)));
    assert_eq!(e.detail.as_deref(), Some("closed by 0123456"));
    assert_eq!(e.actor.as_deref(), Some("robot"));
    assert_eq!(e.branch.as_deref(), Some("main"));

    assert_eq!(report_sync(&out, 2, false), vec!["  ✓ #1  one  (0123456)"]);
    assert_eq!(
        report_sync(&out, 2, true),
        vec!["  ✓ #1  one  (0123456)", "  (dry run — nothing written)"]
    );
}

#[test]
fn reading_the_same_commits_again_closes_nothing() {
    let mut store = store_with(vec![Task::new(1, "one", at(1))]);
    let commits = vec![commit("0123456789ab", "closes clt#1")];
    cmd_sync(&mut store, None, at(9), &commits);
    let again = cmd_sync(&mut store, None, at(10), &commits);
    assert!(again.closed.is_empty() && again.entries.is_empty());
    assert_eq!(report_sync(&again, 1, false), vec!["  Nothing to close in 1 commit(s)."]);
    assert_eq!(store.get(1).unwrap().updated, at(9));
}

#[test]
fn the_log_is_read_from_the_last_commit_on() {
    let mut store = store_with(vec![]);
    assert_eq!(since(&store, false), None);
    store.set_last_commit(Some("abc".to_string()));
    assert_eq!(since(&store, false), Some("abc".to_string()));
    assert_eq!(since(&store, true), None, "a rescan starts over");
    assert_eq!(store.last_commit(), Some("abc"));
}

#[test]
fn one_commit_closes_its_references_in_order() {
    let mut store = store_with(vec![Task::new(1, "one", at(1)), Task::new(2, "two", at(1))]);
    let mut out = Synced::nothing();
    close_refs(&mut store, &mut out, &commit("abc", ""), &vec![2, 1, 2], None, at(3));
    let ids: Vec<u32> = out.closed.iter().map(|t| t.id).collect();
    assert_eq!(ids, vec![2, 1]);
}

#[test]
fn the_first_commit_to_name_a_task_is_the_one_recorded() {
    let mut store = store_with(vec![Task::new(1, "one", at(1)), Task::new(2, "two", at(1))]);
    let commits = vec![
        commit("aaaaaaaa", "start on clt#1"),
        commit("bbbbbbbb", "closes clt#1"),
        commit("cccccccc", "closes clt#1, clt#2"),
    ];
    let out = cmd_sync(&mut store, None, at(5), &commits);
    assert_eq!(out.closed.len(), 2);
    assert_eq!(store.get(1).unwrap().closed_by.as_deref(), Some("bbbbbbbb"));
    assert_eq!(store.get(2).unwrap().closed_by.as_deref(), Some("cccccccc"));
}

#[test]
fn a_sync_moves_on_to_the_head_even_when_nothing_closed() {
    let mut store = store_with(vec![Task::new(1, "one", at(1))]);
    let head = Some("cafe".to_string());
    let out = sync_to(&mut store, None, at(5), &vec![commit("cafe", "no news")], head);
    assert!(out.closed.is_empty());
    assert_eq!(store.last_commit(), Some("cafe"));
    assert_eq!(since(&store, false), Some("cafe".to_string()));
    assert_eq!(store.get(1).unwrap().state, State::Todo);

    let out = sync_to(&mut store, None, at(6), &vec![commit("beefbeef", "closes clt#1")], None);
    assert_eq!(out.closed.len(), 1);
    assert_eq!(store.get(1).unwrap().state, State::Done);
    assert_eq!(store.last_commit(), None, "git named no head");
}
