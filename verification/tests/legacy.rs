//! Lists from before version 1.

use clt::legacy::{import_legacy, LegacyTask};
use clt::store::{Loaded, Scope, Store};
use clt::task::State;
use clt::time::Moment;

fn legacy(id: i32, name: &str, description: &str, state: &str) -> LegacyTask {
    LegacyTask {
        id,
        name: name.to_string(),
        description: description.to_string(),
        state: state.to_string(),
    }
}

#[test]
fn legacy_lists_import_as_repo_wide_tasks() {
    let items = vec![legacy(1, "Fix empty list", "Fix the code", "InProgress")];
    let (data, note) = import_legacy(&items, "tasks.json", Moment::new(9, 0).unwrap());
    assert_eq!(data.tasks.len(), 1);
    assert_eq!(data.tasks[0].title, "Fix empty list");
    assert_eq!(data.tasks[0].state, State::Doing);
    assert_eq!(data.tasks[0].note.as_deref(), Some("Fix the code"));
    assert_eq!(data.tasks[0].branch, None, "legacy tasks predate branches");
    assert!(note.contains("imported 1 task"));

    let store = Store::open_in(Scope::Global, Loaded::Legacy(data, note));
    assert!(store.migrated, "the import must land on disk");
    assert_eq!(store.warnings.len(), 1);
}

#[test]
fn odd_legacy_tasks_are_made_the_best_of() {
    let items = vec![
        legacy(4, "a", "  ", "Finished"),
        legacy(-1, "b", "x", "who knows"),
    ];
    let (data, note) = import_legacy(&items, "/r/tasks.json", Moment::new(9, 0).unwrap());
    assert_eq!(data.tasks[0].note, None);
    assert_eq!(data.tasks[0].state, State::Done);
    assert_eq!((data.tasks[1].id, data.tasks[1].state), (5, State::Todo));
    assert_eq!(data.next_id, 6);
    assert_eq!(
        note,
        "imported 2 tasks from /r/tasks.json (the original is untouched; delete it when happy)"
    );
}
