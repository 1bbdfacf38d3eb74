//! What is printed.

use chrono::{TimeZone, Utc};
use clt::render::{ago, changed, dimmed, empty, note, pad, summary, tasks, warn, width, ListOpts};
use clt::store::{Data, Scope, Store};
use clt::task::{Location, State, Task};
use clt::time::{start_of_today, Moment};

fn utc(y: i32, mo: u32, d: u32, h: u32, mi: u32) -> Moment {
    let t = Utc.with_ymd_and_hms(y, mo, d, h, mi, 0).unwrap();
    Moment::new(t.timestamp(), t.timestamp_subsec_nanos()).unwrap()
}

/// Text without its colours.
fn plain(s: &str) -> String {
    let mut out = String::new();
    let mut inside = false;
    for c in s.chars() {
        if c == '\u{1b}' {
            inside = true;
        } else if inside {
            inside = c != 'm';
        } else {
            out.push(c);
        }
    }
    out
}

#[test]
fn ago_buckets_read_the_way_you_would_say_them() {
    let now = utc(2026, 8, 9, 12, 0);
    assert_eq!(ago(now, now), "now");
    assert_eq!(ago(utc(2026, 8, 9, 11, 30), now), "30m");
    assert_eq!(ago(utc(2026, 8, 9, 6, 0), now), "6h");
    assert_eq!(ago(utc(2026, 8, 6, 12, 0), now), "3d");
    assert_eq!(ago(utc(2026, 7, 12, 12, 0), now), "4w");
}

#[test]
fn ago_survives_timestamps_from_the_future() {
    // Clock skew across machines, or an agent writing a bad timestamp.
    // Must not panic or print a negative age.
    let now = utc(2026, 8, 9, 12, 0);
    assert_eq!(ago(utc(2027, 1, 1, 0, 0), now), "now");
}

#[test]
fn pad_never_truncates() {
    assert_eq!(pad("abc", 5), "abc  ");
    assert_eq!(pad("abcdef", 3), "abcdef");
}

#[test]
fn width_counts_cells_not_chars() {
    // Four ideographs, eight cells. Counting chars was the old bug.
    assert_eq!("修复登录".chars().count(), 4);
    assert_eq!(width("修复登录"), 8);
    // Combining acute occupies no cell of its own.
    assert_eq!(width("e\u{0301}"), 1);
    // Our state glyphs stay one cell wide (East Asian Ambiguous).
    assert_eq!(width("○"), 1);
    assert_eq!(width("●"), 1);
    assert_eq!(width("✓"), 1);
}

#[test]
fn pad_aligns_wide_titles() {
    // Both cells must end up occupying ten terminal columns, which means
    // the wide one gets *fewer* spaces, not the same number.
    assert_eq!(width(&pad("修复登录", 10)), 10);
    assert_eq!(width(&pad("fix login", 10)), 10);
}

#[test]
fn colours_wrap_the_text_and_change_nothing_in_it() {
    for s in [dimmed("quiet"), warn("careful"), note("by the way")] {
        assert!(s.starts_with('\u{1b}'), "{s:?}");
        assert!(s.ends_with('m'), "{s:?}");
    }
    assert_eq!(plain(&dimmed("quiet")), "quiet");
    assert_eq!(plain(&warn("careful")), "clt: careful");
    assert_eq!(plain(&note("by the way")), "clt: by the way");
    assert_ne!(warn("x"), note("x"));
}

fn list(tasks: Vec<Task>) -> Store {
    let next_id = tasks.iter().map(|t| t.id + 1).max().unwrap_or(1);
    Store {
        scope: Scope::Global,
        data: Data { next_id, tasks, ..Data::default() },
        warnings: Vec::new(),
        migrated: false,
    }
}

#[test]
fn a_tree_is_laid_out_in_columns() {
    let now = utc(2026, 8, 9, 12, 0);
    let mut parent = Task::new(1, "auth", utc(2026, 8, 9, 11, 30));
    parent.branch = Some("main".into());
    let mut child = Task::new(12, "hash passwords", utc(2026, 8, 9, 6, 0));
    child.parent = Some(1);
    child.state = State::Done;
    child.location = Some(Location::new("src/auth.rs", Some(88)));
    child.actor = Some("robot".into());
    child.branch = Some("main".into());
    let store = list(vec![parent, child]);
    let rows = store.tree(|_| true);
    let lines = tasks(&store, &rows, &ListOpts { now, show_branch: false });
    assert_eq!(lines.len(), 2);
    let first = plain(&lines[0]);
    let second = plain(&lines[1]);
    assert!(first.contains("auth") && first.contains("1/1") && first.contains("30m"), "{first:?}");
    assert!(second.contains("hash passwords") && second.contains("src/auth.rs:88"), "{second:?}");
    assert!(second.contains("robot") && second.contains("6h"), "{second:?}");
    assert!(!first.contains("main"), "the branch is shown only where it was asked for");
    let wide = tasks(&store, &rows, &ListOpts { now, show_branch: true });
    assert!(plain(&wide[0]).contains("main"));
}

#[test]
fn a_change_is_confirmed_in_one_line() {
    let mut t = Task::new(3, "fix it", utc(2026, 8, 9, 12, 0));
    assert_eq!(plain(&changed(&t)), "  ○ #3 fix it");
    t.state = State::Done;
    assert_eq!(plain(&changed(&t)), "  ✓ #3 fix it");
}

#[test]
fn the_footer_counts_what_is_and_is_not_on_screen() {
    assert_eq!(plain(&summary(2, 0, 0)), "  2 open");
    assert_eq!(plain(&summary(2, 1, 3)), "  1 in progress · 2 open · 3 done (clt ls --done)");
}

#[test]
fn an_empty_list_says_what_to_do_next() {
    let lines = empty(Some("main"), false);
    assert_eq!(plain(&lines[0]), "  Nothing on main.");
    assert!(lines.iter().any(|l| l.contains("clt add")));
    assert_eq!(plain(&empty(None, false)[0]), "  Nothing here.");
    assert_eq!(plain(&empty(None, true)[0]), "  Nothing matches that filter.");
}

#[test]
fn a_day_without_a_midnight_starts_a_day_ago() {
    let now = utc(2026, 8, 9, 12, 0);
    let midnight = utc(2026, 8, 9, 0, 0);
    assert_eq!(start_of_today(Some(midnight), now), midnight);
    assert_eq!(start_of_today(None, now), utc(2026, 8, 8, 12, 0));
    let leap = Moment::new(1_483_228_799, 1_500_000_000).unwrap();
    let back = start_of_today(None, leap);
    assert_eq!((back.secs(), back.nanos()), (1_483_228_800 - 86_400, 500_000_000));
}

#[test]
fn moments_are_ordered_and_bounded() {
    let a = Moment::new(10, 5).unwrap();
    let b = Moment::new(10, 6).unwrap();
    assert!(b.is_at_or_after(a));
    assert!(a.is_at_or_after(a));
    assert!(!a.is_at_or_after(b));
    assert!(Moment::new(i64::MAX, 0).is_none());
    assert!(Moment::new(0, 2_000_000_000).is_none());
    assert!(Moment::new(0, 1_000_000_000).is_none(), "a leap second ends a minute");
}

#[test]
fn colours_are_the_terminals_own() {
    assert_eq!(dimmed("x"), "\u{1b}[2mx\u{1b}[0m");
    assert_eq!(warn("x"), "\u{1b}[33mclt: x\u{1b}[0m");
    let mut t = Task::new(3, "fix it", utc(2026, 8, 9, 12, 0));
    assert_eq!(changed(&t), "  ○ \u{1b}[2m#3\u{1b}[0m fix it");
    t.state = State::Doing;
    assert_eq!(changed(&t), "  \u{1b}[33m●\u{1b}[0m \u{1b}[2m#3\u{1b}[0m fix it");
    t.state = State::Done;
    assert_eq!(
        changed(&t),
        "  \u{1b}[32m✓\u{1b}[0m \u{1b}[2m#3\u{1b}[0m \u{1b}[2mfix it\u{1b}[0m"
    );
    assert_eq!(empty(Some("main"), false)[0], "  Nothing on \u{1b}[1mmain\u{1b}[0m.");
    let mut t = Task::new(3, "fix it", utc(2026, 8, 9, 12, 0));
    t.location = Some(Location::new("a.rs", None));
    t.actor = Some("bot".into());
    let store = list(vec![t]);
    let rows = store.tree(|_| true);
    let opts = ListOpts { now: utc(2026, 8, 9, 12, 0), show_branch: false };
    assert_eq!(
        tasks(&store, &rows, &opts),
        vec![
            "  \u{1b}[2m#3\u{1b}[0m  ○ fix it  \u{1b}[36ma.rs\u{1b}[0m  \u{1b}[35m[bot]\u{1b}[0m  \
             \u{1b}[2mnow\u{1b}[0m"
        ]
    );
}
