//! Tasks, their states and their locations.

use clt::task::{Location, Origin, State, Task};
use clt::time::Moment;

#[test]
fn location_parses_line_suffix() {
    let loc: Location = "src/auth.rs:88".parse().unwrap();
    assert_eq!(loc.file, "src/auth.rs");
    assert_eq!(loc.line, Some(88));
    assert_eq!(loc.to_string(), "src/auth.rs:88");
}

#[test]
fn location_without_line_round_trips() {
    let loc: Location = "src/auth.rs".parse().unwrap();
    assert_eq!(loc.line, None);
    assert_eq!(loc.to_string(), "src/auth.rs");
}

#[test]
fn location_keeps_windows_drive_letters() {
    // The naive `split(':')` version of this turns C: into a filename and
    // `\src\auth.rs:88` into garbage.
    let loc: Location = r"C:\src\auth.rs:88".parse().unwrap();
    assert_eq!(loc.file, "C:/src/auth.rs");
    assert_eq!(loc.line, Some(88));
}

#[test]
fn location_backslashes_are_normalized() {
    let loc: Location = r"src\http\client.rs".parse().unwrap();
    assert_eq!(loc.file, "src/http/client.rs");
}

#[test]
fn state_accepts_legacy_names() {
    // Files written by the pre-0.1 version used these.
    assert_eq!("NotStarted".parse::<State>().unwrap(), State::Todo);
    assert_eq!("InProgress".parse::<State>().unwrap(), State::Doing);
    assert_eq!("Finished".parse::<State>().unwrap(), State::Done);
}

#[test]
fn state_rejects_nonsense_with_a_useful_message() {
    let err = "eventually".parse::<State>().unwrap_err();
    assert!(err.contains("todo, doing, done"), "unhelpful error: {err}");
}

#[test]
fn states_show_and_sort_as_they_should() {
    assert_eq!(State::Todo.glyph(), "○");
    assert_eq!(State::Doing.glyph(), "●");
    assert_eq!(State::Done.glyph(), "✓");
    assert!(State::Doing.rank() < State::Todo.rank(), "work in progress comes first");
    assert!(State::Todo.rank() < State::Done.rank());
    for s in [State::Todo, State::Doing, State::Done] {
        assert_eq!(s.as_str().parse::<State>().unwrap(), s);
        assert_eq!(clt::cli::parse_state(s.as_str()).unwrap(), s);
    }
    assert!(clt::cli::parse_state("eventually").unwrap_err().contains("eventually"));
}

#[test]
fn locations_that_make_no_sense_are_refused() {
    assert_eq!("   ".parse::<Location>().unwrap_err(), "empty location");
    let err = "src/a.rs:99999999999".parse::<Location>().unwrap_err();
    assert_eq!(err, "line number out of range in \"src/a.rs:99999999999\"");
}

#[test]
fn a_location_survives_being_written_and_read_again() {
    for (file, line) in [("src/a.rs", Some(7)), ("src/a.rs", None), ("C:/x.rs", Some(1))] {
        let l = Location::new(file, line);
        let back = Location::parse(&l.to_string()).unwrap();
        assert_eq!((back.file, back.line), (l.file, l.line));
    }
}

#[test]
fn a_new_task_starts_out_open_and_manual() {
    let now = Moment::new(1_000, 5).unwrap();
    let t = Task::new(7, "a thing", now);
    assert_eq!((t.id, t.title.as_str(), t.state), (7, "a thing", State::Todo));
    assert!(!t.is_done());
    assert_eq!(t.origin, Origin::Manual);
    assert_eq!(t.scan_key(), None);
    assert_eq!((t.created, t.updated), (now, now));
    let mut s = t.clone();
    s.origin = Origin::Scan { key: "k".to_string() };
    assert_eq!(s.scan_key(), Some("k"));
}
