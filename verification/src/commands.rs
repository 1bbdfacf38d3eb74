//! What the commands that change the list do to it.
//!
//! Each takes the list in memory and says what came of it; writing it back,
//! recording it and telling the user are up to the caller.

use crate::cli::{AddArgs, AddView, EditArgs, EditView, MoveArgs, RmArgs, ScopeArgs};
use crate::error::{branch_words, describe_branch, plural, plural_of, Error, ErrorView};
use crate::forest::{
    ancestor, below, has_id, lemma_below_held, lemma_parent_at, parents_exist, subtree, task_views,
    under, unique_ids,
};
use crate::journal::{records, Entry, Record};
use crate::states::{
    applied, apply_state, entry, first_missing, law_state_changes_keep_branches_together,
    named, named_among, record_of, require_all, Change,
};
use crate::store::{
    ascending, coherent, data_ok, elsewhere, law_changes_in_place_keep_branches_together,
    law_removal_takes_exactly_the_subtree, lemma_in_place, lemma_lookup, lemma_lookup_at,
    lemma_removal_keeps_forest, lemma_same_links, lookup, reparent_refusal, reparented,
    rescoped, scope_refusal, whole, without, DataView, Store,
};
use crate::task::{
    location_error, location_of, BadLocation, Location, LocationView, Origin, OriginView, State,
    Task, TaskView,
};
use crate::text::{
    as_opt, blank, cat, copy_opt, decimal, is_blank, join, joined, opt_str_view, opt_view, own_opt,
    to_decimal, trim, trimmed, views,
};
use crate::time::Moment;
use vstd::prelude::*;

verus! {

// ---------------------------------------------------------------------------
// Adding
// ---------------------------------------------------------------------------

/// The words of the title, joined and trimmed.
pub open spec fn title_from(words: Seq<Seq<char>>) -> Seq<char> {
    trimmed(joined(words, " "@))
}

/// What is wrong with a source location that was asked for, if anything is.
pub open spec fn file_refusal(file: Option<Seq<char>>) -> Option<ErrorView> {
    match file {
        None => None,
        Some(f) => match location_of(f) {
            Ok(_) => None,
            Err(bad) => Some(ErrorView::BadLocation { reason: location_error(f, bad) }),
        },
    }
}

pub open spec fn file_location(file: Option<Seq<char>>) -> Option<LocationView> {
    match file {
        None => None,
        Some(f) => match location_of(f) {
            Ok(l) => Some(l),
            Err(_) => None,
        },
    }
}

/// Why a task cannot be filed, if it cannot.
pub open spec fn add_refusal(ts: Seq<TaskView>, args: AddView) -> Option<ErrorView> {
    if title_from(args.title).len() == 0 {
        Some(ErrorView::NoTitle)
    } else {
        match args.parent {
            Some(p) => if !has_id(ts, p) {
                Some(ErrorView::NoTask { id: p })
            } else {
                match ts[lookup(ts, p)->0].branch {
                    Some(b) if args.repo => Some(
                        ErrorView::RepoUnderBranch { parent: p, scoped_to: b },
                    ),
                    _ => file_refusal(args.file),
                }
            },
            None => file_refusal(args.file),
        }
    }
}

/// The branch of a new task: its parent's, or none where it is to be seen from
/// every branch, or the current one.
pub open spec fn add_branch(
    ts: Seq<TaskView>,
    parent: Option<u32>,
    repo: bool,
    here: Option<Seq<char>>,
) -> Option<Seq<char>> {
    match parent {
        Some(p) => ts[lookup(ts, p)->0].branch,
        None => if repo {
            None
        } else {
            here
        },
    }
}

/// The task that is filed.
pub open spec fn added_task(
    ts: Seq<TaskView>,
    args: AddView,
    here: Option<Seq<char>>,
    actor: Option<Seq<char>>,
    id: u32,
    now: Moment,
) -> TaskView {
    TaskView {
        note: args.note,
        parent: args.parent,
        branch: add_branch(ts, args.parent, args.repo, here),
        location: file_location(args.file),
        actor,
        state: if args.start {
            State::Doing
        } else {
            State::Todo
        },
        ..TaskView::fresh(id, title_from(args.title), now)
    }
}

pub struct Added {
    pub task: Task,
    pub entry: Entry,
}

fn parse_file(file: &Option<String>) -> (r: Result<Option<Location>, Error>)
    ensures
        match r {
            Ok(l) => file_refusal(opt_view(*file)) is None && crate::task::opt_location(l) == file_location(
                opt_view(*file),
            ) && (l is Some <==> *file is Some),
            Err(e) => file_refusal(opt_view(*file)) == Some(e@),
        },
{
    match file {
        None => Ok(None),
        Some(f) => match Location::parse(f.as_str()) {
            Ok(l) => Ok(Some(l)),
            Err(reason) => Err(Error::BadLocation { reason }),
        },
    }
}

/// Why a task cannot be filed, if it cannot.
pub fn refuse_add(store: &Store, args: &AddArgs) -> (r: Option<Error>)
    ensures
        match r {
            Some(e) => add_refusal(store@.tasks, args@) == Some(e@),
            None => add_refusal(store@.tasks, args@) is None,
        },
{
    let ghost ts = store@.tasks;
    let words = join(&args.title, " ");
    let title = trim(words.as_str());
    if title.as_str().is_empty() {
        return Some(Error::NoTitle);
    }
    if let Some(pid) = args.parent {
        proof {
            lemma_lookup(ts, pid);
        }
        match store.require(pid) {
            Ok(parent) => {
                if let Some(b) = as_opt(&parent.branch) {
                    if args.repo {
                        return Some(
                            Error::RepoUnderBranch { parent: pid, scoped_to: b.to_owned() },
                        );
                    }
                }
            },
            Err(e) => {
                return Some(e);
            },
        }
    }
    match parse_file(&args.file) {
        Ok(_) => None,
        Err(e) => Some(e),
    }
}

/// Files a new task.
///
/// A subtask lives on its parent's branch, full stop. Letting the two differ
/// would make a tree half-visible in any given view.
pub fn cmd_add(store: &mut Store, actor: Option<&str>, now: Moment, args: &AddArgs) -> (r: Result<
    Added,
    Error,
>)
    requires
        old(store).wf(),
        add_refusal(old(store)@.tasks, args@) is None ==> old(store)@.next_id < u32::MAX,
    ensures
        match r {
            Ok(added) => add_refusal(old(store)@.tasks, args@) is None && ({
                let t = added_task(
                    old(store)@.tasks,
                    args@,
                    old(store).scope.branch_of(),
                    opt_str_view(actor),
                    old(store)@.next_id,
                    now,
                );
                &&& added.task@ == t
                &&& t.id == old(store)@.next_id
                &&& t.title == trimmed(joined(views(args.title@), " "@))
                &&& t.note == opt_view(args.note)
                &&& t.parent == args.parent
                &&& t.actor == opt_str_view(actor)
                &&& t.state == (if args.start {
                    State::Doing
                } else {
                    State::Todo
                })
                &&& args.parent is None ==> t.branch == (if args.repo {
                    None
                } else {
                    old(store).scope.branch_of()
                })
                &&& added.entry@.record() == record_of(
                    "add"@,
                    opt_str_view(actor),
                    t.id,
                    Some(t.title),
                    t.branch,
                )
                &&& final(store)@ == (DataView {
                    next_id: (old(store)@.next_id + 1) as u32,
                    tasks: old(store)@.tasks.push(t),
                    ..old(store)@
                })
            }),
            Err(e) => add_refusal(old(store)@.tasks, args@) == Some(e@) && final(store)@ == old(
                store,
            )@,
        },
        final(store).kept(*old(store)),
        final(store).wf(),
{
    let ghost ts = store@.tasks;
    if let Some(e) = refuse_add(store, args) {
        return Err(e);
    }
    let words = join(&args.title, " ");
    let title = trim(words.as_str());
    let branch: Option<String> = match args.parent {
        Some(pid) => {
            proof {
                lemma_lookup(ts, pid);
            }
            match store.get(pid) {
                Some(parent) => copy_opt(&parent.branch),
                None => None,
            }
        },
        None => if args.repo {
            None
        } else {
            own_opt(store.scope.branch())
        },
    };
    let location = match parse_file(&args.file) {
        Ok(l) => l,
        Err(e) => {
            return Err(e);
        },
    };
    let id: u32 = store.reserve_id();
    let mut t = Task::new(id, title.as_str(), now);
    t.note = copy_opt(&args.note);
    t.parent = args.parent;
    t.branch = branch;
    t.location = location;
    t.actor = own_opt(actor);
    t.state = if args.start {
        State::Doing
    } else {
        State::Todo
    };
    proof {
        assert(t@ == added_task(
            ts,
            args@,
            old(store).scope.branch_of(),
            opt_str_view(actor),
            id,
            now,
        ));
        assert(t@.id == id);
    }
    store.insert(t.clone());
    let e = entry("add", actor, id, Some(t.title.as_str()), as_opt(&t.branch));
    Ok(Added { task: t, entry: e })
}

// ---------------------------------------------------------------------------
// Removing
// ---------------------------------------------------------------------------

/// Why the tasks named from position `i` on cannot be removed, if they cannot.
pub open spec fn rm_refusal_from(
    ts: Seq<TaskView>,
    ids: Seq<u32>,
    recursive: bool,
    i: int,
) -> Option<ErrorView>
    decreases ids.len() - i,
{
    if i < 0 || i >= ids.len() {
        None
    } else if !has_id(ts, ids[i]) {
        Some(ErrorView::NoTask { id: ids[i] })
    } else if below(ts, ids[i]).len() > 0 && !recursive {
        Some(ErrorView::HasSubtasks { id: ids[i], count: below(ts, ids[i]).len() })
    } else {
        rm_refusal_from(ts, ids, recursive, i + 1)
    }
}

/// The members of a set, in ascending order.
pub open spec fn sorted_members(s: Set<u32>) -> Seq<u32> {
    choose|q: Seq<u32>| #[trigger] ascending(q) && q.to_set() == s
}

/// An ascending list is determined by what it holds.
pub proof fn lemma_sorted_members(q: Seq<u32>)
    requires
        ascending(q),
    ensures
        sorted_members(q.to_set()) == q,
{
    let p = sorted_members(q.to_set());
    assert(ascending(p) && p.to_set() == q.to_set());
    lemma_ascending_unique(p, q);
}

proof fn lemma_ascending_unique(p: Seq<u32>, q: Seq<u32>)
    requires
        ascending(p),
        ascending(q),
        p.to_set() == q.to_set(),
    ensures
        p == q,
    decreases p.len(),
{
    assert forall|x: u32| p.contains(x) <==> q.contains(x) by {
        assert(p.to_set().contains(x) <==> p.contains(x));
        assert(q.to_set().contains(x) <==> q.contains(x));
    }
    if p.len() == 0 {
        if q.len() > 0 {
            assert(q.contains(q[0]));
        }
        assert(p =~= q);
    } else if q.len() == 0 {
        assert(p.contains(p[0]));
    } else {
        let a = p.last();
        let b = q.last();
        assert(p[p.len() - 1] == a && p.contains(a));
        assert(q[q.len() - 1] == b && q.contains(b));
        assert(a == b) by {
            let i = choose|i: int| 0 <= i < q.len() && q[i] == a;
            let j = choose|j: int| 0 <= j < p.len() && p[j] == b;
            if i < q.len() - 1 {
                assert(q[i] < q[q.len() - 1]);
            }
            if j < p.len() - 1 {
                assert(p[j] < p[p.len() - 1]);
            }
        }
        let p2 = p.drop_last();
        let q2 = q.drop_last();
        assert forall|x: u32| p2.to_set().contains(x) <==> q2.to_set().contains(x) by {
            lemma_drop_last_ascending(p, x);
            lemma_drop_last_ascending(q, x);
        }
        assert(p2.to_set() =~= q2.to_set());
        assert(ascending(p2)) by {
            assert forall|i: int, j: int| 0 <= i < j < p2.len() implies p2[i] < p2[j] by {
                assert(p[i] < p[j]);
            }
        }
        assert(ascending(q2)) by {
            assert forall|i: int, j: int| 0 <= i < j < q2.len() implies q2[i] < q2[j] by {
                assert(q[i] < q[j]);
            }
        }
        lemma_ascending_unique(p2, q2);
        assert(p =~= p2.push(a));
        assert(q =~= q2.push(b));
    }
}

proof fn lemma_drop_last_ascending(p: Seq<u32>, x: u32)
    requires
        ascending(p),
        p.len() > 0,
    ensures
        p.drop_last().contains(x) <==> p.contains(x) && x != p.last(),
{
    if p.contains(x) && x != p.last() {
        let i = choose|i: int| 0 <= i < p.len() && p[i] == x;
        assert(p.drop_last()[i] == x);
    }
    if p.drop_last().contains(x) {
        let i = choose|i: int| 0 <= i < p.drop_last().len() && p.drop_last()[i] == x;
        assert(p[i] == x);
        assert(p[i] < p[p.len() - 1]);
    }
}

/// One entry for each task removed, under the branch of the one that was named.
pub open spec fn rm_records(
    gone: Seq<u32>,
    actor: Option<Seq<char>>,
    branch: Option<Seq<char>>,
) -> Seq<Record> {
    Seq::new(gone.len(), |i: int| record_of("rm"@, actor, gone[i], None, branch))
}

/// The list after the first `n` of `ids` and their subtrees were removed. One
/// that an earlier removal swept up is passed over.
pub open spec fn removal(
    ts: Seq<TaskView>,
    ids: Seq<u32>,
    n: nat,
    actor: Option<Seq<char>>,
) -> Change
    decreases n,
{
    if n == 0 {
        Change { tasks: ts, touched: Seq::empty(), records: Seq::empty() }
    } else {
        let c = removal(ts, ids, (n - 1) as nat, actor);
        let id = ids[n - 1];
        match lookup(c.tasks, id) {
            None => c,
            Some(i) => Change {
                tasks: without(c.tasks, subtree(c.tasks, id)),
                touched: c.touched.push(c.tasks[i]),
                records: c.records + rm_records(
                    sorted_members(subtree(c.tasks, id)),
                    actor,
                    c.tasks[i].branch,
                ),
            },
        }
    }
}

pub struct Removed {
    /// The tasks that were named, as they were.
    pub tasks: Vec<Task>,
    pub entries: Vec<Entry>,
}

/// Deletes tasks and everything nested under them.
///
/// Unless that was asked for, a task with subtasks is not deleted: deleting a
/// subtree by accident is not recoverable.
pub fn cmd_rm(store: &mut Store, actor: Option<&str>, args: &RmArgs) -> (r: Result<Removed, Error>)
    ensures
        match r {
            Ok(gone) => rm_refusal_from(old(store)@.tasks, args.ids@, args.recursive, 0) is None && ({
                let c = removal(
                    old(store)@.tasks,
                    args.ids@,
                    args.ids@.len(),
                    opt_str_view(actor),
                );
                &&& final(store)@ == (DataView { tasks: c.tasks, ..old(store)@ })
                &&& task_views(gone.tasks@) == c.touched
                &&& records(gone.entries@) == c.records
                &&& old(store).wf() ==> forall|t: TaskView| #[trigger]
                    final(store)@.tasks.contains(t) <==> old(store)@.tasks.contains(t) && !swept_up(
                        old(store)@.tasks,
                        args.ids@,
                        args.ids@.len(),
                        t.id,
                    )
            }),
            Err(e) => rm_refusal_from(old(store)@.tasks, args.ids@, args.recursive, 0) == Some(e@)
                && final(store)@ == old(store)@,
        },
        final(store).kept(*old(store)),
        old(store).wf() ==> final(store).wf(),
{
    let ghost was = store@;
    let ghost ts = store@.tasks;
    let ghost who = opt_str_view(actor);
    let mut i: usize = 0;
    while i < args.ids.len()
        invariant
            i <= args.ids@.len(),
            ts == store@.tasks,
            *store == *old(store),
            rm_refusal_from(ts, args.ids@, args.recursive, 0) == rm_refusal_from(
                ts,
                args.ids@,
                args.recursive,
                i as int,
            ),
        decreases args.ids@.len() - i,
    {
        let id: u32 = args.ids[i];
        match store.require(id) {
            Ok(_) => {
                proof {
                    lemma_lookup(ts, id);
                }
            },
            Err(e) => {
                return Err(e);
            },
        }
        let kids: usize = store.descendants(id).len();
        if kids > 0 && !args.recursive {
            return Err(Error::HasSubtasks { id, count: kids });
        }
        i += 1;
    }
    let mut removed: Vec<Task> = Vec::new();
    let mut entries: Vec<Entry> = Vec::new();
    assert(task_views(removed@) =~= Seq::empty());
    assert(records(entries@) =~= Seq::empty());
    let mut k: usize = 0;
    while k < args.ids.len()
        invariant
            k <= args.ids@.len(),
            ts == was.tasks,
            who == opt_str_view(actor),
            store.kept(*old(store)),
            data_ok(was) ==> store.wf(),
            store@ == (DataView { tasks: removal(ts, args.ids@, k as nat, who).tasks, ..was }),
            task_views(removed@) == removal(ts, args.ids@, k as nat, who).touched,
            records(entries@) == removal(ts, args.ids@, k as nat, who).records,
        decreases args.ids@.len() - k,
    {
        let id: u32 = args.ids[k];
        let ghost before = removal(ts, args.ids@, k as nat, who);
        let found: Option<Task> = match store.get(id) {
            Some(t) => Some(t.clone()),
            None => None,
        };
        if let Some(task) = found {
            let gone = store.remove_subtree(id);
            let ghost branch = task@.branch;
            proof {
                lemma_sorted_members(gone@);
                lemma_lookup(before.tasks, id);
                lemma_below_held(before.tasks, id);
                assert(gone@.to_set() =~= subtree(before.tasks, id)) by {
                    assert forall|x: u32|
                        gone@.to_set().contains(x) <==> subtree(before.tasks, id).contains(x) by {
                        assert(gone@.to_set().contains(x) <==> gone@.contains(x));
                    }
                }
            }
            let ghost start = records(entries@);
            assert(start + rm_records(gone@, who, branch).take(0) =~= start);
            let mut j: usize = 0;
            while j < gone.len()
                invariant
                    j <= gone@.len(),
                    who == opt_str_view(actor),
                    branch == task@.branch,
                    records(entries@) == start + rm_records(gone@, who, branch).take(j as int),
                decreases gone@.len() - j,
            {
                let ghost so_far = entries@;
                let e = entry("rm", actor, gone[j], None, as_opt(&task.branch));
                entries.push(e);
                proof {
                    assert(records(entries@) =~= records(so_far).push(e@.record()));
                    assert(records(entries@) =~= start + rm_records(gone@, who, branch).take(j + 1));
                }
                j += 1;
            }
            assert(rm_records(gone@, who, branch).take(j as int) =~= rm_records(gone@, who, branch));
            let ghost listed = removed@;
            removed.push(task);
            assert(task_views(removed@) =~= task_views(listed).push(task@));
        }
        k += 1;
    }
    proof {
        if data_ok(was) {
            law_deleting_takes_what_was_named(was, args.ids@, args.ids@.len(), who);
        }
    }
    Ok(Removed { tasks: removed, entries })
}

/// What is said of a deleted task.
pub fn deleted_line(task: &Task) -> (r: String)
    ensures
        r@ == "  deleted #"@ + decimal(task@.id as nat) + " "@ + task@.title,
{
    let n = to_decimal(task.id as u64);
    let mut out = cat("  deleted #", n.as_str());
    out.append(" ");
    out.append(task.title.as_str());
    out
}

// ---------------------------------------------------------------------------
// Editing
// ---------------------------------------------------------------------------

/// Why an edit cannot be made, if it cannot.
pub open spec fn edit_refusal(ts: Seq<TaskView>, args: EditView) -> Option<ErrorView> {
    if args.title is None && args.note is None && args.file is None && args.state is None {
        Some(ErrorView::NothingToChange)
    } else if file_refusal(args.file) is Some {
        file_refusal(args.file)
    } else if !has_id(ts, args.id) {
        Some(ErrorView::NoTask { id: args.id })
    } else {
        None
    }
}

/// Whether any plain field is to change, as opposed to only the state: closing
/// a task is no edit.
pub open spec fn edits_fields(args: EditView) -> bool {
    args.title is Some || args.note is Some || args.file is Some
}

/// `t` with its plain fields edited. A new title severs a scanned task from its
/// marker, lest the next scan revert it; a blank note takes the note away.
pub open spec fn edited(t: TaskView, args: EditView, now: Moment) -> TaskView {
    TaskView {
        title: match args.title {
            Some(title) => title,
            None => t.title,
        },
        origin: match args.title {
            Some(_) => OriginView::Manual,
            None => t.origin,
        },
        note: match args.note {
            Some(note) => if is_blank(note) {
                None
            } else {
                Some(note)
            },
            None => t.note,
        },
        location: match args.file {
            Some(_) => file_location(args.file),
            None => t.location,
        },
        updated: now,
        ..t
    }
}

/// The list with the plain fields of one task edited, and what is recorded.
pub open spec fn edit_fields(
    ts: Seq<TaskView>,
    args: EditView,
    actor: Option<Seq<char>>,
    now: Moment,
) -> Change {
    let i = lookup(ts, args.id)->0;
    if edits_fields(args) {
        let t = edited(ts[i], args, now);
        Change {
            tasks: ts.update(i, t),
            touched: Seq::empty(),
            records: seq![record_of("edit"@, actor, args.id, Some(t.title), t.branch)],
        }
    } else {
        Change { tasks: ts, touched: Seq::empty(), records: Seq::empty() }
    }
}

/// The list after an edit: the plain fields first, then the state, which is
/// changed as any other request for that state changes it.
pub open spec fn edit(
    ts: Seq<TaskView>,
    args: EditView,
    actor: Option<Seq<char>>,
    now: Moment,
) -> Change {
    let c = edit_fields(ts, args, actor, now);
    match args.state {
        None => c,
        Some(state) => {
            let s = applied(c.tasks, seq![args.id], state, actor, now);
            Change {
                tasks: s.tasks,
                touched: s.touched,
                records: c.records + s.records,
            }
        },
    }
}

pub struct Edited {
    /// The task, as it is now.
    pub task: Task,
    pub entries: Vec<Entry>,
    /// Every task whose state changed, as it is now.
    pub touched: Vec<Task>,
    /// The tasks to fire the hook of the new state for.
    pub fire: Vec<Task>,
}

/// Changes a task's title, note, location or state.
pub fn cmd_edit(store: &mut Store, actor: Option<&str>, now: Moment, args: &EditArgs) -> (r: Result<
    Edited,
    Error,
>)
    ensures
        match r {
            Ok(out) => edit_refusal(old(store)@.tasks, args@) is None && ({
                let c = edit(old(store)@.tasks, args@, opt_str_view(actor), now);
                &&& final(store)@ == (DataView { tasks: c.tasks, ..old(store)@ })
                &&& out.task@ == c.tasks[lookup(old(store)@.tasks, args.id)->0]
                &&& records(out.entries@) == c.records
                &&& task_views(out.touched@) == c.touched
                &&& task_views(out.fire@) == named(c.touched, seq![args.id])
            }),
            Err(e) => edit_refusal(old(store)@.tasks, args@) == Some(e@) && final(store)@ == old(
                store,
            )@,
        },
        final(store).kept(*old(store)),
        old(store).wf() ==> final(store).wf(),
{
    let ghost was = store@;
    let ghost ts = store@.tasks;
    let ghost who = opt_str_view(actor);
    if args.title.is_none() && args.note.is_none() && args.file.is_none() && args.state.is_none() {
        return Err(Error::NothingToChange);
    }
    let location = match parse_file(&args.file) {
        Ok(l) => l,
        Err(e) => {
            return Err(e);
        },
    };
    proof {
        lemma_lookup(ts, args.id);
    }
    match store.require(args.id) {
        Ok(_) => {},
        Err(e) => {
            return Err(e);
        },
    }
    let mut entries: Vec<Entry> = Vec::new();
    assert(records(entries@) =~= Seq::empty());
    let edits = args.title.is_some() || args.note.is_some() || args.file.is_some();
    if edits {
        if let Some(task) = store.get_mut(args.id) {
            if let Some(title) = &args.title {
                task.title = title.clone();
                task.origin = Origin::Manual;
            }
            if let Some(note) = &args.note {
                task.note = if blank(note.as_str()) {
                    None
                } else {
                    Some(note.clone())
                };
            }
            if args.file.is_some() {
                task.location = location;
            }
            task.updated = now;
            let e = entry(
                "edit",
                actor,
                args.id,
                Some(task.title.as_str()),
                as_opt(&task.branch),
            );
            entries.push(e);
        }
    }
    let ghost c = edit_fields(ts, args@, who, now);
    proof {
        assert(store@.tasks =~= c.tasks);
        assert(records(entries@) =~= c.records);
        assert forall|i: int| 0 <= i < ts.len() implies (#[trigger] c.tasks[i]).id == ts[i].id
            && c.tasks[i].parent == ts[i].parent by {}
        if data_ok(was) {
            lemma_in_place(was, store@);
        }
    }
    let mut one: Vec<u32> = Vec::new();
    one.push(args.id);
    assert(one@ =~= seq![args.id]);
    let mut touched: Vec<Task> = Vec::new();
    if let Some(state) = args.state {
        let ghost first = entries@;
        let (changed, mut more) = apply_state(store, actor, now, &one, state);
        let ghost second = more@;
        entries.append(&mut more);
        assert(records(entries@) =~= records(first) + records(second));
        touched = changed;
    } else {
        assert(task_views(touched@) =~= Seq::empty());
    }
    let fire = named_among(&touched, &one);
    proof {
        lemma_edit_keeps_place(ts, args@, who, now);
    }
    let task = match store.get(args.id) {
        Some(t) => t.clone(),
        None => {
            proof {
                lemma_lookup(store@.tasks, args.id);
            }
            return Err(Error::NoTask { id: args.id });
        },
    };
    Ok(Edited { task, entries, touched, fire })
}

/// An edit leaves every task where it is.
proof fn lemma_edit_keeps_place(
    ts: Seq<TaskView>,
    args: EditView,
    actor: Option<Seq<char>>,
    now: Moment,
)
    requires
        edit_refusal(ts, args) is None,
    ensures
        lookup(edit(ts, args, actor, now).tasks, args.id) == lookup(ts, args.id),
        lookup(ts, args.id) is Some,
        edit(ts, args, actor, now).tasks.len() == ts.len(),
{
    lemma_lookup(ts, args.id);
    let c = edit_fields(ts, args, actor, now).tasks;
    assert forall|i: int| 0 <= i < ts.len() implies (#[trigger] c[i]).id == ts[i].id && c[i].parent
        == ts[i].parent by {}
    lemma_same_links(ts, c);
    if let Some(state) = args.state {
        crate::states::lemma_applied_links(c, seq![args.id], state, actor, now);
        lemma_same_links(c, applied(c, seq![args.id], state, actor, now).tasks);
    }
}

/// What is said of the subtasks that an edit's new state swept up: nothing
/// where there are none.
pub open spec fn swept_text(touched: nat) -> Option<Seq<char>> {
    if touched <= 1 {
        None
    } else {
        Some(
            "  and "@ + decimal((touched - 1) as nat) + " nested task"@ + plural(
                (touched - 1) as nat,
            ),
        )
    }
}

/// The sentence on subtasks that were closed along.
pub fn swept(touched: usize) -> (r: Option<String>)
    ensures
        opt_view(r) == swept_text(touched as nat),
{
    if touched <= 1 {
        return None;
    }
    let n: usize = touched - 1;
    let d = to_decimal(n as u64);
    let mut out = cat("  and ", d.as_str());
    out.append(" nested task");
    out.append(plural_of(n));
    Some(out)
}

// ---------------------------------------------------------------------------
// Moving
// ---------------------------------------------------------------------------

/// Why a task cannot be moved as asked, if it cannot.
pub open spec fn move_refusal(ts: Seq<TaskView>, args: MoveArgs) -> Option<ErrorView> {
    if args.under is None && !args.root {
        Some(ErrorView::NowhereToMove)
    } else {
        reparent_refusal(ts, args.id, new_parent(args))
    }
}

pub open spec fn new_parent(args: MoveArgs) -> Option<u32> {
    if args.root {
        None
    } else {
        args.under
    }
}

pub open spec fn move_detail(parent: Option<u32>) -> Seq<char> {
    match parent {
        Some(p) => "under #"@ + decimal(p as nat),
        None => "to top level"@,
    }
}

pub open spec fn move_line(id: u32, parent: Option<u32>) -> Seq<char> {
    match parent {
        Some(p) => "  #"@ + decimal(id as nat) + " now under #"@ + decimal(p as nat),
        None => "  #"@ + decimal(id as nat) + " detached to the top level"@,
    }
}

pub struct Moved {
    /// The task, as it is now.
    pub task: Task,
    pub entry: Entry,
    /// What to say.
    pub line: String,
}

/// Re-nests a task under another one, or detaches it to the top level.
pub fn cmd_move(store: &mut Store, actor: Option<&str>, now: Moment, args: &MoveArgs) -> (r: Result<
    Moved,
    Error,
>)
    ensures
        match r {
            Ok(out) => move_refusal(old(store)@.tasks, *args) is None && ({
                let ts = reparented(old(store)@.tasks, args.id, new_parent(*args), now);
                let t = ts[lookup(old(store)@.tasks, args.id)->0];
                &&& final(store)@ == (DataView { tasks: ts, ..old(store)@ })
                &&& out.task@ == t
                &&& old(store).wf() ==> forall|i: int|
                    0 <= i < old(store)@.tasks.len() ==> (#[trigger] final(store)@.tasks[i]) == (
                    if old(store)@.tasks[i].id == args.id {
                        TaskView {
                            parent: if args.root {
                                None
                            } else {
                                args.under
                            },
                            updated: now,
                            ..old(store)@.tasks[i]
                        }
                    } else {
                        old(store)@.tasks[i]
                    })
                &&& out.entry@.record() == record_of(
                    "move"@,
                    opt_str_view(actor),
                    args.id,
                    Some(move_detail(new_parent(*args))),
                    t.branch,
                )
                &&& out.line@ == move_line(args.id, new_parent(*args))
            }),
            Err(e) => move_refusal(old(store)@.tasks, *args) == Some(e@) && final(store)@ == old(
                store,
            )@,
        },
        final(store).kept(*old(store)),
        old(store).wf() ==> final(store).wf(),
{
    let ghost ts = store@.tasks;
    if args.under.is_none() && !args.root {
        return Err(Error::NowhereToMove);
    }
    let parent: Option<u32> = if args.root {
        None
    } else {
        args.under
    };
    match store.reparent(args.id, parent, now) {
        Ok(_) => {},
        Err(e) => {
            return Err(e);
        },
    }
    proof {
        lemma_lookup(ts, args.id);
        crate::store::lemma_same_lookup(ts, store@.tasks, args.id, 0);
    }
    let task = match store.require(args.id) {
        Ok(t) => t.clone(),
        Err(e) => {
            proof {
                lemma_lookup(store@.tasks, args.id);
            }
            return Err(e);
        },
    };
    let id = to_decimal(args.id as u64);
    let mut line = cat("  #", id.as_str());
    let detail = match parent {
        Some(p) => {
            let n = to_decimal(p as u64);
            line.append(" now under #");
            line.append(n.as_str());
            cat("under #", n.as_str())
        },
        None => {
            line.append(" detached to the top level");
            "to top level".to_owned()
        },
    };
    let e = entry("move", actor, args.id, Some(detail.as_str()), as_opt(&task.branch));
    Ok(Moved { task, entry: e, line })
}

// ---------------------------------------------------------------------------
// Scoping
// ---------------------------------------------------------------------------

/// The branch that is asked for: none for the whole repo, one by name, or the
/// current one, which must be there. On a detached HEAD there is no branch to
/// mean, and quietly making a task repo-wide is not what anyone asked for.
pub open spec fn scope_target(args: ScopeArgs, here: Option<Seq<char>>) -> Result<
    Option<Seq<char>>,
    ErrorView,
> {
    if args.target.repo {
        Ok(None)
    } else {
        match args.target.branch {
            Some(name) => Ok(Some(name@)),
            None => match here {
                Some(b) => Ok(Some(b)),
                None => Err(ErrorView::HereIsDetached),
            },
        }
    }
}

/// A list of tasks on the way to another branch.
#[verifier::ext_equal]
pub struct Scoping {
    pub tasks: Seq<TaskView>,
    /// The ids that moved.
    pub changed: Seq<u32>,
    /// What stopped it.
    pub refusal: Option<ErrorView>,
}

/// The list after the first `n` of `ids` and their subtrees were moved to
/// `branch`, or as far as that went.
pub open spec fn scoping(
    ts: Seq<TaskView>,
    ids: Seq<u32>,
    n: nat,
    branch: Option<Seq<char>>,
    now: Moment,
) -> Scoping
    decreases n,
{
    if n == 0 {
        Scoping { tasks: ts, changed: Seq::empty(), refusal: None }
    } else {
        let s = scoping(ts, ids, (n - 1) as nat, branch, now);
        let id = ids[n - 1];
        if s.refusal is Some {
            s
        } else if scope_refusal(s.tasks, id) is Some {
            Scoping { refusal: scope_refusal(s.tasks, id), ..s }
        } else {
            Scoping {
                tasks: rescoped(s.tasks, whole(s.tasks, id), branch, now),
                changed: s.changed + elsewhere(s.tasks, whole(s.tasks, id), branch),
                refusal: None,
            }
        }
    }
}

pub open spec fn scope_detail(branch: Option<Seq<char>>) -> Seq<char> {
    "to "@ + branch_words(branch)
}

pub open spec fn scope_records(
    changed: Seq<u32>,
    actor: Option<Seq<char>>,
    branch: Option<Seq<char>>,
) -> Seq<Record> {
    Seq::new(
        changed.len(),
        |i: int| record_of("scope"@, actor, changed[i], Some(scope_detail(branch)), branch),
    )
}

pub struct Rescoped {
    /// Where to.
    pub branch: Option<String>,
    /// The tasks that moved, as they are now.
    pub tasks: Vec<Task>,
    pub entries: Vec<Entry>,
}

/// A branch in words.
pub fn describe_scope(branch: Option<&str>) -> (r: String)
    ensures
        r@ == branch_words(opt_str_view(branch)),
{
    describe_branch(branch)
}

fn describe_target(branch: Option<&str>) -> (r: String)
    ensures
        r@ == scope_detail(opt_str_view(branch)),
{
    let b = describe_branch(branch);
    cat("to ", b.as_str())
}

/// Some tasks, looked up by id.
pub open spec fn found(ts: Seq<TaskView>, ids: Seq<u32>) -> Seq<TaskView> {
    Seq::new(ids.len(), |i: int| ts[lookup(ts, ids[i])->0])
}

/// Moves tasks between a branch and the whole repo.
///
/// This is the way back for what is stranded on a branch that was merged and
/// deleted: promote it to repo-wide, or re-pin it to the branch the work
/// continued on. Where it is refused midway, the tasks before have moved in
/// memory; what is refused is not to be written back.
pub fn cmd_scope(store: &mut Store, actor: Option<&str>, now: Moment, args: &ScopeArgs) -> (r: Result<
    Rescoped,
    Error,
>)
    requires
        old(store).wf(),
    ensures
        ({
            let ts = old(store)@.tasks;
            match scope_target(*args, old(store).scope.branch_of()) {
                Err(bad) => r matches Err(e) && e@ == bad && final(store)@ == old(store)@,
                Ok(branch) => match first_missing(ts, args.ids@) {
                    Some(id) => r matches Err(e) && e@ == (ErrorView::NoTask { id }) && final(store)@
                        == old(store)@,
                    None => {
                        let s = scoping(ts, args.ids@, args.ids@.len(), branch, now);
                        &&& final(store)@ == (DataView { tasks: s.tasks, ..old(store)@ })
                        &&& match r {
                            Ok(out) => s.refusal is None && opt_view(out.branch) == branch
                                && task_views(out.tasks@) == found(s.tasks, s.changed) && records(
                                out.entries@,
                            ) == scope_records(s.changed, opt_str_view(actor), branch),
                            Err(e) => s.refusal == Some(e@),
                        }
                    },
                },
            }
        }),
        final(store).kept(*old(store)),
        final(store).wf(),
{
    let ghost was = store@;
    let ghost ts = store@.tasks;
    let ghost who = opt_str_view(actor);
    let branch: Option<String> = if args.target.repo {
        None
    } else {
        match &args.target.branch {
            Some(name) => Some(name.clone()),
            None => match store.scope.branch() {
                Some(b) => Some(b.to_owned()),
                None => {
                    return Err(Error::HereIsDetached);
                },
            },
        }
    };
    let ghost b = opt_view(branch);
    match require_all(store, &args.ids) {
        Ok(_) => {},
        Err(e) => {
            return Err(e);
        },
    }
    let mut changed: Vec<u32> = Vec::new();
    let mut entries: Vec<Entry> = Vec::new();
    assert(records(entries@) =~= scope_records(Seq::empty(), who, b));
    let mut k: usize = 0;
    while k < args.ids.len()
        invariant
            k <= args.ids@.len(),
            ts == was.tasks,
            who == opt_str_view(actor),
            b == opt_view(branch),
            scope_target(*args, old(store).scope.branch_of()) == Ok::<
                Option<Seq<char>>,
                ErrorView,
            >(b),
            first_missing(old(store)@.tasks, args.ids@) is None,
            was == old(store)@,
            store.kept(*old(store)),
            store.wf(),
            ({
                let s = scoping(ts, args.ids@, k as nat, b, now);
                &&& s.refusal is None
                &&& store@ == (DataView { tasks: s.tasks, ..was })
                &&& changed@ == s.changed
                &&& records(entries@) == scope_records(s.changed, who, b)
            }),
            forall|x: int|
                0 <= x < changed@.len() ==> has_id(store@.tasks, #[trigger] changed@[x]),
        decreases args.ids@.len() - k,
    {
        let id: u32 = args.ids[k];
        let ghost before = scoping(ts, args.ids@, k as nat, b, now);
        let ghost prior = store@.tasks;
        let mut moved = match store.set_scope(id, as_opt(&branch), now) {
            Ok(m) => m,
            Err(e) => {
                proof {
                    lemma_scoping_stuck(ts, args.ids@, (k + 1) as nat, args.ids@.len(), b, now);
                }
                return Err(e);
            },
        };
        let ghost here = moved@;
        let ghost start = records(entries@);
        assert(start + scope_records(here, who, b).take(0) =~= start);
        let mut j: usize = 0;
        while j < moved.len()
            invariant
                j <= moved@.len(),
                moved@ == here,
                who == opt_str_view(actor),
                b == opt_view(branch),
                records(entries@) == start + scope_records(here, who, b).take(j as int),
            decreases moved@.len() - j,
        {
            let ghost so_far = entries@;
            let detail = describe_target(as_opt(&branch));
            let e = entry("scope", actor, moved[j], Some(detail.as_str()), as_opt(&branch));
            entries.push(e);
            proof {
                assert(records(entries@) =~= records(so_far).push(e@.record()));
                assert(records(entries@) =~= start + scope_records(here, who, b).take(j + 1));
            }
            j += 1;
        }
        proof {
            assert(scope_records(here, who, b).take(j as int) =~= scope_records(here, who, b));
            let after = scoping(ts, args.ids@, (k + 1) as nat, b, now);
            assert(records(entries@) =~= scope_records(after.changed, who, b));
            lemma_same_links(prior, store@.tasks);
            assert forall|x: int| 0 <= x < here.len() implies has_id(prior, #[trigger] here[x]) by {
                lemma_elsewhere_exist(prior, whole(prior, id), b, x);
            }
            assert forall|x: int| 0 <= x < after.changed.len() implies has_id(
                store@.tasks,
                #[trigger] after.changed[x],
            ) by {
                if x < changed@.len() {
                    assert(after.changed[x] == changed@[x]);
                } else {
                    assert(after.changed[x] == here[x - changed@.len()]);
                }
            }
        }
        changed.append(&mut moved);
        k += 1;
    }
    let mut tasks: Vec<Task> = Vec::new();
    assert(task_views(tasks@) =~= found(store@.tasks, changed@).take(0));
    let mut m: usize = 0;
    while m < changed.len()
        invariant
            m <= changed@.len(),
            forall|x: int|
                0 <= x < changed@.len() ==> has_id(store@.tasks, #[trigger] changed@[x]),
            task_views(tasks@) == found(store@.tasks, changed@).take(m as int),
        decreases changed@.len() - m,
    {
        let ghost so_far = tasks@;
        proof {
            lemma_lookup(store@.tasks, changed@[m as int]);
        }
        if let Some(t) = store.get(changed[m]) {
            tasks.push(t.clone());
            assert(task_views(tasks@) =~= task_views(so_far).push(t@));
            assert(task_views(tasks@) =~= found(store@.tasks, changed@).take(m + 1));
        }
        m += 1;
    }
    assert(found(store@.tasks, changed@).take(m as int) =~= found(store@.tasks, changed@));
    Ok(Rescoped { branch, tasks, entries })
}

/// What stops a request stops the rest of it.
proof fn lemma_scoping_stuck(
    ts: Seq<TaskView>,
    ids: Seq<u32>,
    k: nat,
    n: nat,
    branch: Option<Seq<char>>,
    now: Moment,
)
    requires
        k <= n,
        scoping(ts, ids, k, branch, now).refusal is Some,
    ensures
        scoping(ts, ids, n, branch, now) == scoping(ts, ids, k, branch, now),
    decreases n - k,
{
    if k < n {
        lemma_scoping_stuck(ts, ids, k, (n - 1) as nat, branch, now);
    }
}

proof fn lemma_elsewhere_exist(
    ts: Seq<TaskView>,
    ids: Seq<u32>,
    branch: Option<Seq<char>>,
    x: int,
)
    requires
        0 <= x < elsewhere(ts, ids, branch).len(),
    ensures
        has_id(ts, elsewhere(ts, ids, branch)[x]),
    decreases ids.len(),
{
    reveal(Seq::filter);
    let r = ids.drop_last();
    if x < elsewhere(ts, r, branch).len() {
        lemma_elsewhere_exist(ts, r, branch, x);
        assert(elsewhere(ts, ids, branch)[x] == elsewhere(ts, r, branch)[x]);
    } else {
        lemma_lookup(ts, ids.last());
        assert(elsewhere(ts, ids, branch)[x] == ids.last());
    }
}

/// What is said of tasks that moved.
pub open spec fn scope_line(t: TaskView, branch: Option<Seq<char>>) -> Seq<char> {
    "  #"@ + decimal(t.id as nat) + " "@ + t.title + " → "@ + branch_words(branch)
}

pub open spec fn scope_lines(ts: Seq<TaskView>, branch: Option<Seq<char>>) -> Seq<Seq<char>> {
    if ts.len() == 0 {
        seq!["  Already scoped to "@ + branch_words(branch) + "."@]
    } else {
        Seq::new(ts.len(), |i: int| scope_line(ts[i], branch))
    }
}

/// What is said after tasks were moved between branches.
pub fn report_scope(tasks: &Vec<Task>, branch: Option<&str>) -> (r: Vec<String>)
    ensures
        views(r@) == scope_lines(task_views(tasks@), opt_str_view(branch)),
{
    let ghost ts = task_views(tasks@);
    let ghost b = opt_str_view(branch);
    let mut out: Vec<String> = Vec::new();
    let place = describe_branch(branch);
    if tasks.len() == 0 {
        let mut line = cat("  Already scoped to ", place.as_str());
        line.append(".");
        out.push(line);
        assert(views(out@) =~= scope_lines(ts, b));
        return out;
    }
    let mut i: usize = 0;
    while i < tasks.len()
        invariant
            i <= tasks@.len(),
            ts == task_views(tasks@),
            ts.len() > 0,
            b == opt_str_view(branch),
            place@ == branch_words(b),
            views(out@) == scope_lines(ts, b).take(i as int),
        decreases tasks@.len() - i,
    {
        let ghost so_far = out@;
        let t = &tasks[i];
        let n = to_decimal(t.id as u64);
        let mut line = cat("  #", n.as_str());
        line.append(" ");
        line.append(t.title.as_str());
        line.append(" → ");
        line.append(place.as_str());
        out.push(line);
        assert(views(out@) =~= views(so_far).push(scope_line(t@, b)));
        assert(views(out@) =~= scope_lines(ts, b).take(i + 1));
        i += 1;
    }
    assert(scope_lines(ts, b).take(i as int) =~= scope_lines(ts, b));
    out
}

// ---------------------------------------------------------------------------
// What holds of the commands
// ---------------------------------------------------------------------------

/// A list that kept some tasks of another one, and the parents of those, kept
/// their chains of parents.
proof fn lemma_kept_chain(ts: Seq<TaskView>, c: Seq<TaskView>, x: u32, k: nat)
    requires
        unique_ids(ts),
        unique_ids(c),
        parents_exist(c),
        forall|t: TaskView| #[trigger] c.contains(t) ==> ts.contains(t),
        has_id(c, x),
    ensures
        ancestor(c, x, k) == ancestor(ts, x, k),
        ancestor(c, x, k) matches Some(y) ==> has_id(c, y),
    decreases k,
{
    if k > 0 {
        lemma_kept_chain(ts, c, x, (k - 1) as nat);
        if let Some(y) = ancestor(c, x, (k - 1) as nat) {
            let i = choose|i: int| 0 <= i < c.len() && (#[trigger] c[i]).id == y;
            lemma_parent_at(c, i);
            assert(c.contains(c[i]));
            let j = choose|j: int| 0 <= j < ts.len() && ts[j] == c[i];
            lemma_parent_at(ts, j);
        }
    }
}

/// Whether a task is one of the first `n` that were named, or below one.
pub open spec fn swept_up(ts: Seq<TaskView>, ids: Seq<u32>, n: nat, x: u32) -> bool {
    exists|k: int| 0 <= k < n && (x == #[trigger] ids[k] || under(ts, x, ids[k]))
}

/// Deleting takes the tasks that were named and what is nested under them, and
/// leaves every other task as it was.
pub proof fn law_deleting_takes_what_was_named(
    d: DataView,
    ids: Seq<u32>,
    n: nat,
    actor: Option<Seq<char>>,
)
    requires
        data_ok(d),
        n <= ids.len(),
    ensures
        data_ok(DataView { tasks: removal(d.tasks, ids, n, actor).tasks, ..d }),
        forall|t: TaskView| #[trigger]
            removal(d.tasks, ids, n, actor).tasks.contains(t) <==> d.tasks.contains(t) && !swept_up(
                d.tasks,
                ids,
                n,
                t.id,
            ),
    decreases n,
{
    let ts = d.tasks;
    if n > 0 {
        let m = (n - 1) as nat;
        law_deleting_takes_what_was_named(d, ids, m, actor);
        let c = removal(ts, ids, m, actor).tasks;
        let e = DataView { tasks: c, ..d };
        let id = ids[m as int];
        let after = removal(ts, ids, n, actor).tasks;
        lemma_lookup(c, id);
        lemma_removal_keeps_forest(e, id);
        law_removal_takes_exactly_the_subtree(c, id);
        assert forall|t: TaskView| #[trigger] after.contains(t) <==> ts.contains(t) && !swept_up(
            ts,
            ids,
            n,
            t.id,
        ) by {
            if c.contains(t) {
                let i = choose|i: int| 0 <= i < c.len() && c[i] == t;
                assert(c[i].id == t.id);
                lemma_kept_under(ts, c, t.id, id);
            }
            if swept_up(ts, ids, m, t.id) {
                let k = choose|k: int|
                    0 <= k < m && (t.id == #[trigger] ids[k] || under(ts, t.id, ids[k]));
                assert(swept_up(ts, ids, n, t.id));
            }
            if t.id == id || under(ts, t.id, id) {
                assert(ids[m as int] == id);
                assert(swept_up(ts, ids, n, t.id));
            }
            if swept_up(ts, ids, n, t.id) {
                let k = choose|k: int|
                    0 <= k < n && (t.id == #[trigger] ids[k] || under(ts, t.id, ids[k]));
                if k < m {
                    assert(swept_up(ts, ids, m, t.id));
                }
            }
        }
    }
}

proof fn lemma_kept_under(ts: Seq<TaskView>, c: Seq<TaskView>, x: u32, a: u32)
    requires
        unique_ids(ts),
        unique_ids(c),
        parents_exist(c),
        forall|t: TaskView| #[trigger] c.contains(t) ==> ts.contains(t),
        has_id(c, x),
    ensures
        under(c, x, a) <==> under(ts, x, a),
        under(c, x, a) ==> has_id(c, a),
{
    if under(c, x, a) {
        let k = choose|k: nat| k > 0 && #[trigger] ancestor(c, x, k) == Some(a);
        lemma_kept_chain(ts, c, x, k);
        assert(under(ts, x, a));
    }
    if under(ts, x, a) {
        let k = choose|k: nat| k > 0 && #[trigger] ancestor(ts, x, k) == Some(a);
        lemma_kept_chain(ts, c, x, k);
        assert(under(c, x, a));
    }
}

/// A subtask lives on its parent's branch, whatever else was asked for.
pub proof fn law_subtasks_inherit_their_branch(
    ts: Seq<TaskView>,
    args: AddView,
    here: Option<Seq<char>>,
    actor: Option<Seq<char>>,
    id: u32,
    now: Moment,
    p: int,
)
    requires
        unique_ids(ts),
        add_refusal(ts, args) is None,
        0 <= p < ts.len(),
        args.parent == Some(ts[p].id),
    ensures
        added_task(ts, args, here, actor, id, now).branch == ts[p].branch,
{
    lemma_lookup_at(ts, p);
}

/// Editing nothing but the state is changing the state: it cascades, and is
/// recorded and announced, in the same way.
pub proof fn law_editing_the_state_is_changing_it(
    ts: Seq<TaskView>,
    args: EditView,
    state: State,
    actor: Option<Seq<char>>,
    now: Moment,
)
    requires
        args.title is None && args.note is None && args.file is None,
        args.state == Some(state),
    ensures
        edit(ts, args, actor, now) == applied(ts, seq![args.id], state, actor, now),
{
    let s = applied(ts, seq![args.id], state, actor, now);
    assert(Seq::<Record>::empty() + s.records =~= s.records);
}

/// A task with a new title no longer stands for a marker in the source, so no
/// scan will revert the title.
pub proof fn law_retitling_severs_the_marker(t: TaskView, args: EditView, now: Moment)
    requires
        args.title is Some,
    ensures
        edited(t, args, now).scan_key() is None,
{
}

/// Editing plain fields touches one task, and neither its place nor its state.
pub proof fn law_edits_stay_in_place(
    ts: Seq<TaskView>,
    args: EditView,
    actor: Option<Seq<char>>,
    now: Moment,
    i: int,
)
    requires
        edit_refusal(ts, args) is None,
        0 <= i < ts.len(),
    ensures
        ({
            let after = edit_fields(ts, args, actor, now).tasks;
            &&& after.len() == ts.len()
            &&& after[i].id == ts[i].id
            &&& after[i].parent == ts[i].parent
            &&& after[i].branch == ts[i].branch
            &&& after[i].state == ts[i].state
            &&& ts[i].id != args.id ==> after[i] == ts[i]
        }),
{
    lemma_lookup(ts, args.id);
}

/// Filing a task splits no tree.
pub proof fn law_filing_keeps_branches_together(
    d: DataView,
    args: AddView,
    here: Option<Seq<char>>,
    actor: Option<Seq<char>>,
    now: Moment,
)
    requires
        data_ok(d),
        d.next_id < u32::MAX,
        add_refusal(d.tasks, args) is None,
        coherent(d.tasks),
    ensures
        coherent(d.tasks.push(added_task(d.tasks, args, here, actor, d.next_id, now))),
{
    let ts = d.tasks;
    let t = added_task(ts, args, here, actor, d.next_id, now);
    let b = ts.push(t);
    assert forall|i: int, j: int|
        0 <= i < b.len() && 0 <= j < b.len() && (#[trigger] b[i]).parent == Some(
            (#[trigger] b[j]).id,
        ) implies b[i].branch == b[j].branch by {
        if i < ts.len() {
            if j == ts.len() {
                // no task can have one as its parent that was not there yet
                assert(ts[i].parent == Some(d.next_id));
                assert(has_id(ts, d.next_id));
                let k = choose|k: int| 0 <= k < ts.len() && (#[trigger] ts[k]).id == d.next_id;
                assert(ts[k].id < d.next_id || d.next_id == u32::MAX);
            } else {
                assert(ts[i].parent == Some(ts[j].id));
            }
        } else if j < ts.len() {
            lemma_lookup_at(ts, j);
        }
    }
}

/// Deleting splits no tree.
pub proof fn law_deleting_keeps_branches_together(
    d: DataView,
    ids: Seq<u32>,
    n: nat,
    actor: Option<Seq<char>>,
)
    requires
        data_ok(d),
        n <= ids.len(),
        coherent(d.tasks),
    ensures
        coherent(removal(d.tasks, ids, n, actor).tasks),
{
    law_deleting_takes_what_was_named(d, ids, n, actor);
    let ts = d.tasks;
    let b = removal(ts, ids, n, actor).tasks;
    assert forall|i: int, j: int|
        0 <= i < b.len() && 0 <= j < b.len() && (#[trigger] b[i]).parent == Some(
            (#[trigger] b[j]).id,
        ) implies b[i].branch == b[j].branch by {
        assert(b.contains(b[i]));
        assert(b.contains(b[j]));
        let x = choose|x: int| 0 <= x < ts.len() && ts[x] == b[i];
        let y = choose|y: int| 0 <= y < ts.len() && ts[y] == b[j];
        assert(ts[x].parent == Some(ts[y].id));
    }
}

/// Editing splits no tree.
pub proof fn law_editing_keeps_branches_together(
    ts: Seq<TaskView>,
    args: EditView,
    actor: Option<Seq<char>>,
    now: Moment,
)
    requires
        edit_refusal(ts, args) is None,
        coherent(ts),
    ensures
        coherent(edit(ts, args, actor, now).tasks),
{
    let c = edit_fields(ts, args, actor, now).tasks;
    assert forall|i: int| 0 <= i < ts.len() implies (#[trigger] c[i]).id == ts[i].id && c[i].parent
        == ts[i].parent && c[i].branch == ts[i].branch by {
        law_edits_stay_in_place(ts, args, actor, now, i);
    }
    lemma_lookup(ts, args.id);
    assert(c.len() == ts.len());
    law_changes_in_place_keep_branches_together(ts, c);
    if let Some(state) = args.state {
        law_state_changes_keep_branches_together(c, seq![args.id], state, actor, now);
    }
}

/// Only what was passed changes: of the task that is edited, whatever was not
/// asked for stays as it was, and the rest becomes what was asked for.
pub proof fn law_only_what_is_passed_changes(t: TaskView, args: EditView, now: Moment)
    ensures
        ({
            let e = edited(t, args, now);
            &&& args.title is None ==> e.title == t.title && e.origin == t.origin
            &&& args.title is Some ==> e.title == args.title->0
            &&& args.note is None ==> e.note == t.note
            &&& args.note is Some && !is_blank(args.note->0) ==> e.note == args.note
            &&& args.file is None ==> e.location == t.location
            &&& args.file is Some ==> e.location == file_location(args.file)
            &&& e == (TaskView {
                title: e.title,
                origin: e.origin,
                note: e.note,
                location: e.location,
                updated: now,
                ..t
            })
        }),
{
}

/// A filed task has the title that was given, without the blank space around it,
/// and everything else that was given; it starts in progress where that was
/// asked for, and nobody has closed it.
pub proof fn law_a_filed_task_is_what_was_asked_for(
    ts: Seq<TaskView>,
    args: AddView,
    here: Option<Seq<char>>,
    actor: Option<Seq<char>>,
    id: u32,
    now: Moment,
)
    ensures
        ({
            let t = added_task(ts, args, here, actor, id, now);
            &&& t.id == id
            &&& t.title == trimmed(joined(args.title, " "@))
            &&& t.note == args.note
            &&& t.parent == args.parent
            &&& t.actor == actor
            &&& t.created == now && t.updated == now
            &&& t.closed_by is None
            &&& t.origin == OriginView::Manual
            &&& args.start ==> t.state == State::Doing
            &&& !args.start ==> t.state == State::Todo
            &&& args.file is None ==> t.location is None
            &&& args.file matches Some(f) ==> (location_of(f) matches Ok(l) ==> t.location == Some(l))
            &&& args.parent is None && args.repo ==> t.branch is None
            &&& args.parent is None && !args.repo ==> t.branch == here
        }),
{
}

/// What can be filed: anything with a title, below a task that is there or at
/// the top, at a place that can be read; and not for every branch below a task
/// that is on one.
pub proof fn law_what_can_be_filed(ts: Seq<TaskView>, args: AddView, p: int)
    requires
        unique_ids(ts),
        args.parent is Some && has_id(ts, args.parent->0) ==> 0 <= p < ts.len() && ts[p].id
            == args.parent->0,
    ensures
        ({
            let blank_title = trimmed(joined(args.title, " "@)).len() == 0;
            let missing = args.parent is Some && !has_id(ts, args.parent->0);
            let split = args.parent is Some && args.repo && ts[p].branch is Some;
            let unreadable = args.file matches Some(f) && location_of(f) is Err;
            &&& blank_title ==> add_refusal(ts, args) == Some(ErrorView::NoTitle)
            &&& !blank_title && missing ==> add_refusal(ts, args) == Some(
                ErrorView::NoTask { id: args.parent->0 },
            )
            &&& !blank_title && !missing && split ==> add_refusal(ts, args) == Some(
                ErrorView::RepoUnderBranch {
                    parent: args.parent->0,
                    scoped_to: ts[p].branch->0,
                },
            )
            &&& !blank_title && !missing && !split && unreadable ==> add_refusal(ts, args) == Some(
                ErrorView::BadLocation {
                    reason: location_error(args.file->0, location_of(args.file->0)->Err_0),
                },
            )
            &&& !blank_title && !missing && !split && !unreadable ==> add_refusal(ts, args) is None
        }),
{
    if args.parent is Some && has_id(ts, args.parent->0) {
        lemma_lookup_at(ts, p);
    }
}

/// What can be deleted: tasks that are there, and ones with subtasks only where
/// that is said. Otherwise the first that cannot is named.
pub proof fn law_what_can_be_deleted(ts: Seq<TaskView>, ids: Seq<u32>, recursive: bool)
    requires
        crate::forest::is_forest(ts),
    ensures
        rm_refusal_from(ts, ids, recursive, 0) is None <==> forall|i: int|
            0 <= i < ids.len() ==> has_id(ts, #[trigger] ids[i]) && (recursive || forall|j: int|
                0 <= j < ts.len() ==> (#[trigger] ts[j]).parent != Some(ids[i])),
        rm_refusal_from(ts, ids, recursive, 0) matches Some(e) ==> exists|i: int|
            {
                &&& 0 <= i < ids.len()
                &&& if has_id(ts, #[trigger] ids[i]) {
                    e == (ErrorView::HasSubtasks {
                        id: ids[i],
                        count: ts.filter(|t: TaskView| under(ts, t.id, ids[i])).len(),
                    })
                } else {
                    e == (ErrorView::NoTask { id: ids[i] })
                }
            },
{
    lemma_what_can_be_deleted(ts, ids, recursive, 0);
}

proof fn lemma_no_children(ts: Seq<TaskView>, id: u32)
    requires
        crate::forest::is_forest(ts),
    ensures
        below(ts, id).len() == 0 <==> forall|j: int|
            0 <= j < ts.len() ==> (#[trigger] ts[j]).parent != Some(id),
{
    crate::forest::lemma_below(ts, id);
    if below(ts, id).len() == 0 {
        assert forall|j: int| 0 <= j < ts.len() implies (#[trigger] ts[j]).parent != Some(id) by {
            if ts[j].parent == Some(id) {
                lemma_parent_at(ts, j);
                crate::forest::lemma_child_is_under(ts, ts[j].id, id, id);
                assert(has_id(ts, ts[j].id));
                if ts[j].id == id {
                    assert(crate::forest::cyclic(ts, id));
                }
                assert(below(ts, id).contains(ts[j].id));
            }
        }
    } else {
        let x = below(ts, id)[0];
        assert(below(ts, id).contains(x));
        let k = choose|k: nat| k > 0 && #[trigger] ancestor(ts, x, k) == Some(id);
        crate::forest::lemma_ancestor_prefix(ts, x, (k - 1) as nat, k);
        crate::forest::lemma_ancestor_has_id(ts, x, (k - 1) as nat);
        let y = ancestor(ts, x, (k - 1) as nat)->0;
        let j = choose|j: int| 0 <= j < ts.len() && (#[trigger] ts[j]).id == y;
        lemma_parent_at(ts, j);
        assert(ts[j].parent == Some(id));
    }
}

proof fn lemma_what_can_be_deleted(ts: Seq<TaskView>, ids: Seq<u32>, recursive: bool, k: int)
    requires
        crate::forest::is_forest(ts),
        0 <= k <= ids.len(),
    ensures
        rm_refusal_from(ts, ids, recursive, k) is None <==> forall|i: int|
            k <= i < ids.len() ==> has_id(ts, #[trigger] ids[i]) && (recursive || forall|j: int|
                0 <= j < ts.len() ==> (#[trigger] ts[j]).parent != Some(ids[i])),
        rm_refusal_from(ts, ids, recursive, k) matches Some(e) ==> exists|i: int|
            {
                &&& k <= i < ids.len()
                &&& if has_id(ts, #[trigger] ids[i]) {
                    e == (ErrorView::HasSubtasks {
                        id: ids[i],
                        count: ts.filter(|t: TaskView| under(ts, t.id, ids[i])).len(),
                    })
                } else {
                    e == (ErrorView::NoTask { id: ids[i] })
                }
            },
    decreases ids.len() - k,
{
    if k < ids.len() {
        lemma_what_can_be_deleted(ts, ids, recursive, k + 1);
        lemma_no_children(ts, ids[k]);
        crate::store::law_subtasks_are_counted_at_any_depth(ts, ids[k]);
        assert(ids[k] == ids[k]);
    }
}

/// A sequence with one more number, put where it belongs.
proof fn lemma_sort_one(r: Seq<u32>, x: u32) -> (q: Seq<u32>)
    requires
        ascending(r),
    ensures
        ascending(q),
        forall|y: u32| #[trigger] q.contains(y) <==> r.contains(y) || y == x,
        r.len() > 0 && q.len() > 0 ==> q.last() == (if x > r.last() {
            x
        } else {
            r.last()
        }),
        r.len() == 0 ==> q == seq![x],
        q.len() > 0,
    decreases r.len(),
{
    if r.len() == 0 {
        assert(seq![x][0] == x);
        seq![x]
    } else if r.last() == x {
        assert(r.contains(x)) by {
            assert(r[r.len() - 1] == x);
        }
        r
    } else if r.last() < x {
        let q = r.push(x);
        assert forall|y: u32| #[trigger] q.contains(y) <==> r.contains(y) || y == x by {
            if r.contains(y) {
                let k = choose|k: int| 0 <= k < r.len() && r[k] == y;
                assert(q[k] == y);
            }
            assert(q[r.len() as int] == x);
            if q.contains(y) && y != x {
                let k = choose|k: int| 0 <= k < q.len() && q[k] == y;
                assert(r[k] == y);
            }
        }
        assert forall|i: int, j: int| 0 <= i < j < q.len() implies q[i] < q[j] by {
            if j == r.len() {
                assert(q[i] == r[i]);
                if i < r.len() - 1 {
                    assert(r[i] < r[r.len() - 1]);
                }
            }
        }
        q
    } else {
        let s = r.drop_last();
        assert forall|i: int, j: int| 0 <= i < j < s.len() implies s[i] < s[j] by {
            assert(r[i] < r[j]);
        }
        let p = lemma_sort_one(s, x);
        let q = p.push(r.last());
        assert forall|y: u32| #[trigger] q.contains(y) <==> r.contains(y) || y == x by {
            if p.contains(y) {
                let k = choose|k: int| 0 <= k < p.len() && p[k] == y;
                assert(q[k] == y);
            }
            assert(q[p.len() as int] == r.last());
            if q.contains(y) && y != r.last() {
                let k = choose|k: int| 0 <= k < q.len() && q[k] == y;
                assert(p[k] == y);
                assert(p.contains(y));
            }
            assert(r.contains(y) <==> s.contains(y) || y == r.last()) by {
                if s.contains(y) {
                    let k = choose|k: int| 0 <= k < s.len() && s[k] == y;
                    assert(r[k] == y);
                }
                assert(r[r.len() - 1] == r.last());
                if r.contains(y) && y != r.last() {
                    let k = choose|k: int| 0 <= k < r.len() && r[k] == y;
                    assert(s[k] == y);
                }
            }
        }
        assert(p.last() < r.last()) by {
            if s.len() > 0 {
                assert(s.last() == r[r.len() - 2]);
                assert(r[r.len() - 2] < r[r.len() - 1]);
            } else {
                assert(p[0] == x);
            }
        }
        assert forall|i: int, j: int| 0 <= i < j < q.len() implies q[i] < q[j] by {
            if j == p.len() {
                assert(q[i] == p[i]);
                if i < p.len() - 1 {
                    assert(p[i] < p[p.len() - 1]);
                }
            }
        }
        q
    }
}

proof fn lemma_sortable(q: Seq<u32>) -> (r: Seq<u32>)
    ensures
        ascending(r),
        r.to_set() == q.to_set(),
    decreases q.len(),
{
    if q.len() == 0 {
        assert(q.to_set() =~= Seq::<u32>::empty().to_set());
        Seq::empty()
    } else {
        let p = lemma_sortable(q.drop_last());
        let r = lemma_sort_one(p, q.last());
        assert(r.to_set() =~= q.to_set()) by {
            assert forall|y: u32| r.to_set().contains(y) <==> q.to_set().contains(y) by {
                assert(r.to_set().contains(y) <==> r.contains(y));
                assert(p.to_set().contains(y) <==> p.contains(y));
                assert(q.drop_last().to_set().contains(y) <==> q.drop_last().contains(y));
                assert(q.to_set().contains(y) <==> q.contains(y));
                assert(q.contains(y) <==> q.drop_last().contains(y) || y == q.last()) by {
                    if q.drop_last().contains(y) {
                        let k = choose|k: int|
                            0 <= k < q.drop_last().len() && q.drop_last()[k] == y;
                        assert(q[k] == y);
                    }
                    assert(q[q.len() - 1] == q.last());
                    if q.contains(y) && y != q.last() {
                        let k = choose|k: int| 0 <= k < q.len() && q[k] == y;
                        assert(q.drop_last()[k] == y);
                    }
                }
            }
        }
        r
    }
}

/// The subtree of a task can be told in ascending order.
proof fn lemma_subtree_members(ts: Seq<TaskView>, id: u32)
    ensures
        ascending(sorted_members(subtree(ts, id))),
        forall|x: u32| #[trigger]
            sorted_members(subtree(ts, id)).contains(x) <==> subtree(ts, id).contains(x),
{
    let q = below(ts, id).push(id);
    let r = lemma_sortable(q);
    assert(q.to_set() =~= subtree(ts, id)) by {
        assert forall|y: u32| q.to_set().contains(y) <==> subtree(ts, id).contains(y) by {
            assert(q.to_set().contains(y) <==> q.contains(y));
            assert(below(ts, id).to_set().contains(y) <==> below(ts, id).contains(y));
            if below(ts, id).contains(y) {
                let k = choose|k: int| 0 <= k < below(ts, id).len() && below(ts, id)[k] == y;
                assert(q[k] == y);
            }
            assert(q[below(ts, id).len() as int] == id);
            if q.contains(y) && y != id {
                let k = choose|k: int| 0 <= k < q.len() && q[k] == y;
                assert(below(ts, id)[k] == y);
            }
        }
    }
    lemma_sorted_members(r);
    assert forall|x: u32| #[trigger]
        sorted_members(subtree(ts, id)).contains(x) <==> subtree(ts, id).contains(x) by {
        assert(r.to_set().contains(x) <==> r.contains(x));
    }
}

/// Whether an entry tells that a task was deleted, and who did it.
pub open spec fn tells_deletion(r: Record, x: u32, actor: Option<Seq<char>>) -> bool {
    r.action == "rm"@ && r.actor == actor && r.detail is None && r.id == Some(x)
}

/// Every task that a deletion takes is recorded, and nothing else is; what is
/// reported are tasks that were there and were named.
pub proof fn law_deletions_are_recorded(
    d: DataView,
    ids: Seq<u32>,
    n: nat,
    actor: Option<Seq<char>>,
)
    requires
        data_ok(d),
        n <= ids.len(),
    ensures
        ({
            let c = removal(d.tasks, ids, n, actor);
            &&& forall|x: u32| #[trigger] has_id(c.tasks, x) ==> has_id(d.tasks, x)
            &&& forall|x: u32|
                has_id(d.tasks, x) && !#[trigger] has_id(c.tasks, x) ==> exists|k: int|
                    0 <= k < c.records.len() && tells_deletion(#[trigger] c.records[k], x, actor)
            &&& forall|k: int|
                0 <= k < c.records.len() ==> ((#[trigger] c.records[k]).id matches Some(x)
                    && tells_deletion(c.records[k], x, actor) && has_id(d.tasks, x) && !has_id(
                    c.tasks,
                    x,
                ))
            &&& forall|k: int|
                0 <= k < c.touched.len() ==> d.tasks.contains(#[trigger] c.touched[k])
                    && ids.contains(c.touched[k].id)
        }),
    decreases n,
{
    let ts = d.tasks;
    if n > 0 {
        let m = (n - 1) as nat;
        law_deletions_are_recorded(d, ids, m, actor);
        law_deleting_takes_what_was_named(d, ids, m, actor);
        let p = removal(ts, ids, m, actor);
        let c = removal(ts, ids, n, actor);
        let id = ids[m as int];
        assert(ids.contains(id));
        lemma_lookup(p.tasks, id);
        if let Some(at) = lookup(p.tasks, id) {
            let gone = sorted_members(subtree(p.tasks, id));
            let added = rm_records(gone, actor, p.tasks[at].branch);
            lemma_subtree_members(p.tasks, id);
            lemma_below_held(p.tasks, id);
            assert(has_id(p.tasks, id));
            assert forall|x: u32| #[trigger] has_id(c.tasks, x) <==> has_id(p.tasks, x) && !subtree(
                p.tasks,
                id,
            ).contains(x) by {
                lemma_has_id_without(p.tasks, subtree(p.tasks, id), x);
            }
            assert forall|x: u32| has_id(ts, x) && !#[trigger] has_id(c.tasks, x) implies exists|
                k: int,
            |
                0 <= k < c.records.len() && tells_deletion(#[trigger] c.records[k], x, actor) by {
                if has_id(p.tasks, x) {
                    assert(gone.contains(x));
                    let k = choose|k: int| 0 <= k < gone.len() && gone[k] == x;
                    assert(c.records[p.records.len() + k] == added[k]);
                    assert(tells_deletion(c.records[p.records.len() + k], x, actor));
                } else {
                    let k = choose|k: int|
                        0 <= k < p.records.len() && tells_deletion(
                            #[trigger] p.records[k],
                            x,
                            actor,
                        );
                    assert(c.records[k] == p.records[k]);
                }
            }
            assert forall|k: int| 0 <= k < c.records.len() implies ((
            #[trigger] c.records[k]).id matches Some(x) && tells_deletion(c.records[k], x, actor)
                && has_id(ts, x) && !has_id(c.tasks, x)) by {
                if k < p.records.len() {
                    assert(c.records[k] == p.records[k]);
                } else {
                    let j = k - p.records.len();
                    assert(c.records[k] == added[j]);
                    assert(gone.contains(gone[j]));
                    assert(has_id(p.tasks, gone[j]));
                    assert(!has_id(c.tasks, gone[j]));
                }
            }
            assert forall|k: int| 0 <= k < c.touched.len() implies ts.contains(
                #[trigger] c.touched[k],
            ) && ids.contains(c.touched[k].id) by {
                if k < p.touched.len() {
                    assert(c.touched[k] == p.touched[k]);
                } else {
                    assert(p.tasks.contains(p.tasks[at]));
                }
            }
        }
    }
}

proof fn lemma_has_id_without(ts: Seq<TaskView>, gone: Set<u32>, x: u32)
    ensures
        has_id(without(ts, gone), x) <==> has_id(ts, x) && !gone.contains(x),
{
    let kept = without(ts, gone);
    crate::text::lemma_filter_contains(ts, |t: TaskView| !gone.contains(t.id));
    if has_id(kept, x) {
        let i = choose|i: int| 0 <= i < kept.len() && (#[trigger] kept[i]).id == x;
        assert(kept.contains(kept[i]));
        let j = choose|j: int| 0 <= j < ts.len() && ts[j] == kept[i];
        assert(ts[j].id == x);
    }
    if has_id(ts, x) && !gone.contains(x) {
        let i = choose|i: int| 0 <= i < ts.len() && (#[trigger] ts[i]).id == x;
        assert(ts.contains(ts[i]));
        assert(kept.contains(ts[i]));
        let j = choose|j: int| 0 <= j < kept.len() && kept[j] == ts[i];
        assert(kept[j].id == x);
    }
}

/// What can be edited: a task that is there, where something is to change and
/// the place can be read.
pub proof fn law_what_can_be_edited(ts: Seq<TaskView>, args: EditView)
    ensures
        ({
            let nothing = args.title is None && args.note is None && args.file is None
                && args.state is None;
            let unreadable = args.file matches Some(f) && location_of(f) is Err;
            &&& nothing ==> edit_refusal(ts, args) == Some(ErrorView::NothingToChange)
            &&& !nothing && unreadable ==> edit_refusal(ts, args) == Some(
                ErrorView::BadLocation {
                    reason: location_error(args.file->0, location_of(args.file->0)->Err_0),
                },
            )
            &&& !nothing && !unreadable && !has_id(ts, args.id) ==> edit_refusal(ts, args) == Some(
                ErrorView::NoTask { id: args.id },
            )
            &&& !nothing && !unreadable && has_id(ts, args.id) ==> edit_refusal(ts, args) is None
        }),
{
}

/// A blank note takes the note away, and a place is what it is read as.
pub proof fn law_blank_notes_take_the_note_away(t: TaskView, args: EditView, now: Moment)
    ensures
        args.note matches Some(n) ==> ((forall|i: int|
            0 <= i < n.len() ==> crate::text::is_white(#[trigger] n[i])) ==> edited(
            t,
            args,
            now,
        ).note is None),
        args.note matches Some(n) ==> ((exists|i: int|
            0 <= i < n.len() && !crate::text::is_white(#[trigger] n[i])) ==> edited(
            t,
            args,
            now,
        ).note == Some(n)),
        args.file matches Some(f) ==> (location_of(f) matches Ok(l) ==> edited(
            t,
            args,
            now,
        ).location == Some(l)),
        args.title is Some ==> edited(t, args, now).origin == OriginView::Manual,
{
}

/// An edit is recorded where a plain field was edited, once, under the new title;
/// one of the state alone is recorded as the change of state that it is.
pub proof fn law_edits_are_recorded(
    ts: Seq<TaskView>,
    args: EditView,
    actor: Option<Seq<char>>,
    now: Moment,
    i: int,
)
    requires
        unique_ids(ts),
        0 <= i < ts.len(),
        ts[i].id == args.id,
    ensures
        ({
            let c = edit_fields(ts, args, actor, now);
            let plain = args.title is Some || args.note is Some || args.file is Some;
            &&& plain ==> c.records == seq![
                Record {
                    actor,
                    action: "edit"@,
                    id: Some(args.id),
                    detail: Some(
                        match args.title {
                            Some(t) => t,
                            None => ts[i].title,
                        },
                    ),
                    branch: ts[i].branch,
                },
            ]
            &&& plain ==> c.tasks[i].updated == now
            &&& !plain ==> c.records.len() == 0 && c.tasks == ts
            &&& args.state is None ==> edit(ts, args, actor, now) == c
            &&& args.state matches Some(s) ==> edit(ts, args, actor, now).tasks == applied(
                c.tasks,
                seq![args.id],
                s,
                actor,
                now,
            ).tasks && edit(ts, args, actor, now).records == c.records + applied(
                c.tasks,
                seq![args.id],
                s,
                actor,
                now,
            ).records
        }),
{
    lemma_lookup_at(ts, i);
}

/// A move is to the top where that is asked for, and below the task that was
/// named otherwise; with neither there is nowhere to move.
pub proof fn law_moves_need_somewhere_to_go(ts: Seq<TaskView>, args: MoveArgs)
    ensures
        args.root ==> new_parent(args) is None,
        !args.root ==> new_parent(args) == args.under,
        !args.root && args.under is None ==> move_refusal(ts, args) == Some(ErrorView::NowhereToMove),
        args.root || args.under is Some ==> move_refusal(ts, args) == reparent_refusal(
            ts,
            args.id,
            if args.root {
                None
            } else {
                args.under
            },
        ),
{
}

/// The branch that a re-scoping asks for: none for the whole repo, the one that
/// is named, or the current one, which has to be there.
pub proof fn law_what_a_rescoping_asks_for(args: ScopeArgs, here: Option<Seq<char>>)
    ensures
        args.target.repo ==> scope_target(args, here) == Ok::<Option<Seq<char>>, ErrorView>(None),
        !args.target.repo && args.target.branch is Some ==> scope_target(args, here) == Ok::<
            Option<Seq<char>>,
            ErrorView,
        >(Some(args.target.branch->0@)),
        !args.target.repo && args.target.branch is None && here is Some ==> scope_target(args, here)
            == Ok::<Option<Seq<char>>, ErrorView>(here),
        !args.target.repo && args.target.branch is None && here is None ==> scope_target(args, here)
            == Err::<Option<Seq<char>>, ErrorView>(ErrorView::HereIsDetached),
{
}

/// Re-scoping several trees moves each of them whole: what is in none of them
/// stays, and of what is, only the branch and the time change, and only where it
/// was elsewhere. What was elsewhere is reported.
pub proof fn law_rescoping_several_moves_each(
    ts: Seq<TaskView>,
    ids: Seq<u32>,
    n: nat,
    branch: Option<Seq<char>>,
    now: Moment,
)
    requires
        crate::forest::is_forest(ts),
        n <= ids.len(),
        scoping(ts, ids, n, branch, now).refusal is None,
    ensures
        ({
            let s = scoping(ts, ids, n, branch, now);
            &&& s.tasks.len() == ts.len()
            &&& forall|i: int|
                0 <= i < ts.len() ==> (#[trigger] s.tasks[i]) == (if swept_up(ts, ids, n, ts[i].id)
                    && ts[i].branch != branch {
                    TaskView { branch, updated: now, ..ts[i] }
                } else {
                    ts[i]
                })
            &&& forall|i: int|
                0 <= i < ts.len() ==> (s.changed.contains((#[trigger] s.tasks[i]).id) <==> swept_up(
                    ts,
                    ids,
                    n,
                    ts[i].id,
                ) && ts[i].branch != branch)
        }),
    decreases n,
{
    if n > 0 {
        let m = (n - 1) as nat;
        let id = ids[m as int];
        let p = scoping(ts, ids, m, branch, now);
        let s = scoping(ts, ids, n, branch, now);
        law_rescoping_several_moves_each(ts, ids, m, branch, now);
        assert forall|i: int| 0 <= i < ts.len() implies (#[trigger] p.tasks[i]).id == ts[i].id
            && p.tasks[i].parent == ts[i].parent by {}
        lemma_same_links(ts, p.tasks);
        assert forall|i: int| 0 <= i < ts.len() implies (#[trigger] s.tasks[i]) == (if swept_up(
            ts,
            ids,
            n,
            ts[i].id,
        ) && ts[i].branch != branch {
            TaskView { branch, updated: now, ..ts[i] }
        } else {
            ts[i]
        }) && (s.changed.contains(s.tasks[i].id) <==> swept_up(ts, ids, n, ts[i].id) && ts[i].branch
            != branch) by {
            let x = ts[i].id;
            assert(p.tasks[i].id == x);
            crate::store::law_rescoping_touches_what_was_elsewhere(p.tasks, id, branch, now, i);
            assert(under(p.tasks, x, id) <==> under(ts, x, id)) by {
                if under(ts, x, id) {
                    let k = choose|k: nat| k > 0 && #[trigger] ancestor(ts, x, k) == Some(id);
                    assert(ancestor(p.tasks, x, k) == Some(id));
                }
                if under(p.tasks, x, id) {
                    let k = choose|k: nat| k > 0 && #[trigger] ancestor(p.tasks, x, k) == Some(id);
                    assert(ancestor(ts, x, k) == Some(id));
                }
            }
            assert(swept_up(ts, ids, n, x) <==> swept_up(ts, ids, m, x) || x == id || under(
                ts,
                x,
                id,
            )) by {
                if swept_up(ts, ids, m, x) {
                    let k = choose|k: int|
                        0 <= k < m && (x == #[trigger] ids[k] || under(ts, x, ids[k]));
                    assert(x == ids[k] || under(ts, x, ids[k]));
                }
                assert(ids[m as int] == id);
                if swept_up(ts, ids, n, x) {
                    let k = choose|k: int|
                        0 <= k < n && (x == #[trigger] ids[k] || under(ts, x, ids[k]));
                    if k < m {
                        assert(swept_up(ts, ids, m, x));
                    }
                }
            }
            crate::forest::lemma_contains_concat(
                p.changed,
                elsewhere(p.tasks, whole(p.tasks, id), branch),
            );
        }
    }
}

/// A re-scoping goes through where every task that it names is there and at the
/// top; otherwise it is refused for the first that is not.
pub proof fn law_what_can_be_rescoped(
    ts: Seq<TaskView>,
    ids: Seq<u32>,
    n: nat,
    branch: Option<Seq<char>>,
    now: Moment,
)
    requires
        crate::forest::is_forest(ts),
        n <= ids.len(),
    ensures
        scoping(ts, ids, n, branch, now).refusal is None <==> forall|k: int|
            0 <= k < n ==> scope_refusal(ts, #[trigger] ids[k]) is None,
        scoping(ts, ids, n, branch, now).refusal is Some ==> exists|k: int|
            0 <= k < n && scoping(ts, ids, n, branch, now).refusal == scope_refusal(
                ts,
                #[trigger] ids[k],
            ) && forall|j: int| 0 <= j < k ==> scope_refusal(ts, #[trigger] ids[j]) is None,
    decreases n,
{
    if n > 0 {
        let m = (n - 1) as nat;
        let p = scoping(ts, ids, m, branch, now);
        law_what_can_be_rescoped(ts, ids, m, branch, now);
        if p.refusal is None {
            law_rescoping_several_moves_each(ts, ids, m, branch, now);
            assert forall|i: int| 0 <= i < ts.len() implies (#[trigger] p.tasks[i]).id == ts[i].id
                && p.tasks[i].parent == ts[i].parent by {}
            lemma_same_links(ts, p.tasks);
            let id = ids[m as int];
            lemma_lookup(ts, id);
            assert(scope_refusal(p.tasks, id) == scope_refusal(ts, id));
        } else {
            let k = choose|k: int|
                0 <= k < m && p.refusal == scope_refusal(ts, #[trigger] ids[k]) && forall|j: int|
                    0 <= j < k ==> scope_refusal(ts, #[trigger] ids[j]) is None;
            assert(scope_refusal(ts, ids[k]) is Some);
        }
    }
}

/// Each task that moved is recorded, with where it went.
pub proof fn law_rescopings_are_recorded(
    ts: Seq<TaskView>,
    changed: Seq<u32>,
    actor: Option<Seq<char>>,
    branch: Option<Seq<char>>,
    k: int,
)
    requires
        unique_ids(ts),
        0 <= k < changed.len(),
        has_id(ts, changed[k]),
    ensures
        scope_records(changed, actor, branch).len() == changed.len(),
        scope_records(changed, actor, branch)[k] == (Record {
            actor,
            action: "scope"@,
            id: Some(changed[k]),
            detail: Some("to "@ + branch_words(branch)),
            branch,
        }),
        found(ts, changed).len() == changed.len(),
        found(ts, changed)[k].id == changed[k] && ts.contains(found(ts, changed)[k]),
        branch is None ==> branch_words(branch) == "the whole repo"@,
{
    lemma_lookup(ts, changed[k]);
}

/// What is said of the tasks below one that was closed: how many there were
/// besides it, and nothing where there were none.
pub proof fn law_what_is_said_of_swept_tasks(n: nat)
    ensures
        swept_text(0) is None && swept_text(1) is None,
        swept_text(2) == Some("  and "@ + decimal(1) + " nested task"@ + ""@),
        n >= 2 ==> swept_text(n + 1) == Some("  and "@ + decimal(n) + " nested task"@ + "s"@),
{
}

/// A move is told and recorded with where the task went.
pub proof fn law_moves_tell_where_to(id: u32, p: u32)
    ensures
        move_detail(Some(p)) == "under #"@ + decimal(p as nat),
        move_detail(None) == "to top level"@,
        move_line(id, Some(p)) == "  #"@ + decimal(id as nat) + " now under #"@ + decimal(p as nat),
        move_line(id, None) == "  #"@ + decimal(id as nat) + " detached to the top level"@,
{
}

/// A deletion is recorded under the branch of the task that was named.
pub proof fn law_deletions_are_recorded_by_branch(
    gone: Seq<u32>,
    actor: Option<Seq<char>>,
    branch: Option<Seq<char>>,
    k: int,
)
    requires
        0 <= k < gone.len(),
    ensures
        rm_records(gone, actor, branch).len() == gone.len(),
        rm_records(gone, actor, branch)[k] == (Record {
            actor,
            action: "rm"@,
            id: Some(gone[k]),
            detail: None,
            branch,
        }),
{
}

} // verus!
