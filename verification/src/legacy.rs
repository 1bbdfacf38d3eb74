//! Lists in the format that came before version 1.

use crate::error::{plural, plural_of};
use crate::forest::task_views;
use crate::store::{Data, DataView, FORMAT_VERSION};
use crate::task::{state_named, State, Task, TaskView};
use crate::text::{blank, decimal, is_blank, lower_ascii, to_decimal, trimmed};
use crate::time::Moment;
use vstd::prelude::*;

verus! {

/// A task as the old format wrote it.
pub struct LegacyTask {
    pub id: i32,
    pub name: String,
    pub description: String,
    pub state: String,
}

#[verifier::ext_equal]
pub struct LegacyView {
    pub id: i32,
    pub name: Seq<char>,
    pub description: Seq<char>,
    pub state: Seq<char>,
}

impl View for LegacyTask {
    type V = LegacyView;

    open spec fn view(&self) -> LegacyView {
        LegacyView {
            id: self.id,
            name: self.name@,
            description: self.description@,
            state: self.state@,
        }
    }
}

pub open spec fn legacy_views(v: Seq<LegacyTask>) -> Seq<LegacyView> {
    Seq::new(v.len(), |i: int| v[i]@)
}

/// The id an old task gets: its own, or the next one where that is negative.
pub open spec fn legacy_id(old: LegacyView, next_id: u32) -> u32 {
    if old.id >= 0 {
        old.id as u32
    } else {
        next_id
    }
}

/// An old task in today's terms. A state that nobody knows counts as open, and
/// the task is repo-wide: it predates branch scoping.
pub open spec fn legacy_task(old: LegacyView, id: u32, now: Moment) -> TaskView {
    TaskView {
        state: match state_named(lower_ascii(trimmed(old.state))) {
            Some(s) => s,
            None => State::Todo,
        },
        note: if is_blank(old.description) {
            None
        } else {
            Some(old.description)
        },
        ..TaskView::fresh(id, old.name, now)
    }
}

/// The list made of the first `n` old tasks.
pub open spec fn imported(items: Seq<LegacyView>, n: nat, now: Moment) -> DataView
    decreases n,
{
    if n == 0 {
        DataView {
            version: FORMAT_VERSION,
            next_id: 1,
            tasks: Seq::empty(),
            last_commit: None,
        }
    } else {
        let d = imported(items, (n - 1) as nat, now);
        let id = legacy_id(items[n - 1], d.next_id);
        DataView {
            next_id: if id < d.next_id {
                d.next_id
            } else {
                (id + 1) as u32
            },
            tasks: d.tasks.push(legacy_task(items[n - 1], id, now)),
            ..d
        }
    }
}

pub open spec fn import_note(count: nat, source: Seq<char>) -> Seq<char> {
    "imported "@ + decimal(count) + " task"@ + plural(count) + " from "@ + source
        + " (the original is untouched; delete it when happy)"@
}

/// Imports an old list, rather than leaving someone's tasks stranded in a file
/// that is no longer read. `source` is where it was found.
pub fn import_legacy(items: &Vec<LegacyTask>, source: &str, now: Moment) -> (r: (Data, String))
    requires
        items@.len() <= i32::MAX,
    ensures
        r.0@ == imported(legacy_views(items@), items@.len(), now),
        r.1@ == import_note(items@.len(), source@),
{
    let ghost olds = legacy_views(items@);
    let mut data = Data::default();
    let mut i: usize = 0;
    while i < items.len()
        invariant
            i <= items@.len() <= i32::MAX,
            olds == legacy_views(items@),
            data@ == imported(olds, i as nat, now),
            data.next_id <= 0x8000_0000 + i,
        decreases items@.len() - i,
    {
        let old = &items[i];
        let ghost before = data@;
        assert(olds[i as int] == old@);
        let id: u32 = if old.id >= 0 {
            old.id as u32
        } else {
            data.next_id
        };
        let mut task = Task::new(id, old.name.as_str(), now);
        match State::parse(old.state.as_str()) {
            Ok(s) => {
                task.state = s;
            },
            Err(_) => {
                task.state = State::Todo;
            },
        }
        if !blank(old.description.as_str()) {
            task.note = Some(old.description.clone());
        }
        assert(task@ == legacy_task(old@, id, now));
        if id >= data.next_id {
            data.next_id = id + 1;
        }
        data.tasks.push(task);
        assert(task_views(data.tasks@) =~= before.tasks.push(task@));
        i += 1;
    }
    let count: usize = items.len();
    let mut note = "imported ".to_owned();
    let n = to_decimal(count as u64);
    note.append(n.as_str());
    note.append(" task");
    note.append(plural_of(count));
    note.append(" from ");
    note.append(source);
    note.append(" (the original is untouched; delete it when happy)");
    (data, note)
}

/// Every old task is taken over, in its place: under its name, with its
/// description unless that is blank, in its state, or yet to do where nobody
/// knows that, and for every branch. It keeps its id; one with no id gets one
/// above those before it, and the counter is past them all.
pub proof fn law_old_tasks_are_taken_over(items: Seq<LegacyView>, n: nat, now: Moment)
    requires
        n <= items.len() <= i32::MAX,
    ensures
        ({
            let d = imported(items, n, now);
            &&& d.version == 1 && d.last_commit is None
            &&& d.tasks.len() == n
            &&& 1 <= d.next_id <= i32::MAX + 1 + n
            &&& forall|i: int|
                0 <= i < n ==> ({
                    let t = #[trigger] d.tasks[i];
                    let old = items[i];
                    &&& t.title == old.name
                    &&& is_blank(old.description) ==> t.note is None
                    &&& !is_blank(old.description) ==> t.note == Some(old.description)
                    &&& state_named(lower_ascii(trimmed(old.state))) is Some ==> Some(t.state)
                        == state_named(lower_ascii(trimmed(old.state)))
                    &&& state_named(lower_ascii(trimmed(old.state))) is None ==> t.state
                        == State::Todo
                    &&& t.branch is None && t.parent is None && t.location is None && t.actor is None
                    &&& t.closed_by is None
                    &&& t.origin == crate::task::OriginView::Manual
                    &&& t.created == now && t.updated == now
                    &&& old.id >= 0 ==> t.id == old.id
                    &&& t.id < d.next_id
                })
            &&& forall|i: int, j: int|
                0 <= i < j < n && items[j].id < 0 ==> (#[trigger] d.tasks[i]).id < (
                #[trigger] d.tasks[j]).id
        }),
    decreases n,
{
    if n > 0 {
        law_old_tasks_are_taken_over(items, (n - 1) as nat, now);
        let p = imported(items, (n - 1) as nat, now);
        let d = imported(items, n, now);
        assert forall|i: int| 0 <= i < n - 1 implies #[trigger] d.tasks[i] == p.tasks[i] by {}
    }
}

} // verus!
