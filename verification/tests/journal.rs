//! The audit log.

use clt::journal::{
    batch, due_for_rotation, entry_lines, needs_older, tail, Entry, FILE, MAX_BYTES, ROTATED,
};
use clt::time::Moment;
use clt::views::{cmd_log, log_line};

fn entry(n: u32) -> Entry {
    Entry::new("add").id(n).detail(&format!("task {n}"))
}

fn entries(from: u32, to: u32) -> Vec<Entry> {
    (from..=to).map(entry).collect()
}

#[test]
fn tail_reads_across_a_rotation() {
    // The entries either side of a rotation are one continuous history, and
    // `clt log -n 20` must not go blank the moment the log rolls over.
    let ids: Vec<u32> = tail(entries(6, 8), entries(1, 5), 6).iter().filter_map(|e| e.id).collect();
    assert_eq!(
        ids,
        vec![3, 4, 5, 6, 7, 8],
        "oldest first, spanning the rotation boundary"
    );

    // And a request the live log can satisfy alone still works.
    assert!(!needs_older(&entries(6, 8), 2));
    let ids: Vec<u32> = tail(entries(6, 8), Vec::new(), 2).iter().filter_map(|e| e.id).collect();
    assert_eq!(ids, vec![7, 8]);
}

#[test]
fn a_large_log_is_due_for_rotation() {
    assert!(!due_for_rotation(MAX_BYTES - 1));
    assert!(due_for_rotation(MAX_BYTES));
    assert_ne!(FILE, ROTATED);
}

#[test]
fn the_previous_generation_is_read_only_where_it_is_needed() {
    assert!(needs_older(&entries(6, 8), 4));
    assert!(!needs_older(&entries(6, 8), 3));
}

#[test]
fn a_batch_ends_every_line() {
    assert_eq!(batch(&vec!["{1}".to_string(), "{2}".to_string()]), "{1}\n{2}\n");
    assert_eq!(batch(&Vec::new()), "");
}

#[test]
fn blank_lines_are_no_entries() {
    assert_eq!(entry_lines("{1}\n\n  \n{2}"), vec!["{1}", "{2}"]);
}

#[test]
fn an_entry_says_who_did_what() {
    let now = Moment::new(5, 0).unwrap();
    let e = Entry::at("done", now)
        .actor(Some("robot".to_string()))
        .id(3)
        .detail("a thing")
        .branch(Some("main"));
    assert_eq!(e.ts, now);
    assert_eq!(e.actor.as_deref(), Some("robot"));
    assert_eq!((e.action.as_str(), e.id), ("done", Some(3)));
    assert_eq!(e.detail.as_deref(), Some("a thing"));
    assert_eq!(e.branch.as_deref(), Some("main"));
    assert!(Entry::new("add").ts.secs() > 1_600_000_000, "the clock is read");
}

#[test]
fn the_log_is_printed_in_columns() {
    let stamp = "2026-08-09 12:00";
    let mine = entry(7);
    assert_eq!(log_line(stamp, &mine), "  2026-08-09 12:00  you      add     #7    task 7");
    let theirs = Entry::new("reopened-it").actor(Some("a long name".to_string()));
    assert_eq!(log_line(stamp, &theirs), "  2026-08-09 12:00  a long name reopened-it       ");
    assert_eq!(cmd_log(&Vec::new(), &Vec::new()), vec!["  No history yet."]);
    let lines = cmd_log(&vec![stamp.to_string(), stamp.to_string()], &entries(1, 2));
    assert_eq!(lines.len(), 2);
    assert!(lines[1].ends_with("task 2"));
}

#[test]
fn what_is_appended_is_read_back_after_what_was_there() {
    let new = vec!["{\"id\":2}".to_string(), "{\"id\":3}".to_string()];
    let log = "{\"id\":1}\n\n".to_string() + &batch(&new);
    assert_eq!(entry_lines(&log), vec!["{\"id\":1}", "{\"id\":2}", "{\"id\":3}"]);
}
