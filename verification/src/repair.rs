//! Repairing what a hand-edit could have broken.
//!
//! The task file is advertised as agent-writable, so treating it as trusted
//! input would be naive. Everything here fixes rather than rejects: refusing to
//! start because a subtask points at a deleted parent would be a terrible trade.

use crate::cycles::{
    all_loops, find_cycles, id_lists, is_loop, lemma_loop_from, lemma_loops_met,
    lemma_no_loops, lemma_way_in, loop_from, on_any, on_loop_after, way_in,
};
use crate::forest::{
    acyclic, ancestor, cyclic, has_id, is_forest, lemma_parent_at, lemma_parent_of, parent_of,
    parents_exist, task_views, unique_ids,
};
use crate::store::{Data, DataView, FORMAT_VERSION};
use crate::task::{Task, TaskView};
use crate::text::{decimal, join, joined, to_decimal, views};
use std::collections::HashSet;
use vstd::prelude::*;

verus! {

broadcast use vstd::std_specs::hash::group_hash_axioms;

// ---------------------------------------------------------------------------
// Duplicate ids
// ---------------------------------------------------------------------------

/// A list of tasks on the way to having unique ids.
#[verifier::ext_equal]
pub struct Renumbering {
    pub tasks: Seq<TaskView>,
    /// The next id that nobody has.
    pub next: int,
    /// Old and new id of each task that had to change.
    pub changes: Seq<(u32, int)>,
}

/// The first id from `n` on that no task has.
pub open spec fn first_free(ts: Seq<TaskView>, n: int) -> int
    decreases u32::MAX + 1 - n,
{
    if 0 <= n <= u32::MAX && has_id(ts, n as u32) {
        first_free(ts, n + 1)
    } else {
        n
    }
}

/// Whether a task further up has the id of the task at `i`.
pub open spec fn is_duplicate(ts: Seq<TaskView>, i: int) -> bool {
    has_id(ts.take(i), ts[i].id)
}

/// The first `n` tasks, where the first bearer of an id keeps it and the others
/// get fresh ones: past the counter, past every id so far, and held by no task.
pub open spec fn renumbering(ts: Seq<TaskView>, next_id: u32, n: nat) -> Renumbering
    decreases n,
{
    if n == 0 {
        Renumbering {
            tasks: Seq::empty(),
            next: if next_id > 1 {
                next_id as int
            } else {
                1
            },
            changes: Seq::empty(),
        }
    } else {
        let r = renumbering(ts, next_id, (n - 1) as nat);
        let t = ts[n - 1];
        let after = if t.id < u32::MAX {
            t.id + 1
        } else {
            u32::MAX as int
        };
        let next = if after > r.next {
            after
        } else {
            r.next
        };
        if is_duplicate(ts, n - 1) {
            let fresh = first_free(ts, next);
            Renumbering {
                tasks: r.tasks.push(TaskView { id: fresh as u32, ..t }),
                next: fresh + 1,
                changes: r.changes.push((t.id, fresh)),
            }
        } else {
            Renumbering { tasks: r.tasks.push(t), next, changes: r.changes }
        }
    }
}

pub open spec fn renumbered(d: DataView) -> Renumbering {
    renumbering(d.tasks, d.next_id, d.tasks.len())
}

/// Whether there are ids left for everyone who needs a fresh one.
pub open spec fn ids_suffice(d: DataView) -> bool {
    renumbered(d).next <= u32::MAX
}

pub open spec fn hash_id(id: int) -> Seq<char> {
    "#"@ + decimal(id as nat)
}

pub open spec fn duplicate_note(change: (u32, int)) -> Seq<char> {
    "duplicate id "@ + hash_id(change.0 as int) + " renumbered to "@ + hash_id(change.1)
}

pub open spec fn duplicate_notes(d: DataView) -> Seq<Seq<char>> {
    Seq::new(renumbered(d).changes.len(), |i: int| duplicate_note(renumbered(d).changes[i]))
}

// ---------------------------------------------------------------------------
// Parents that cannot be
// ---------------------------------------------------------------------------

/// Whether `t` points at a task that is not in the list.
pub open spec fn parent_missing(ts: Seq<TaskView>, t: TaskView) -> bool {
    t.parent is Some && !has_id(ts, t.parent->0)
}

pub open spec fn own_parent(t: TaskView) -> bool {
    t.parent == Some(t.id)
}

/// `t`, detached if its parent is missing or itself.
pub open spec fn with_real_parent(ts: Seq<TaskView>, t: TaskView) -> TaskView {
    if parent_missing(ts, t) || own_parent(t) {
        TaskView { parent: None, ..t }
    } else {
        t
    }
}

pub open spec fn with_real_parents(ts: Seq<TaskView>) -> Seq<TaskView> {
    Seq::new(ts.len(), |i: int| with_real_parent(ts, ts[i]))
}

pub open spec fn missing_note(id: u32, p: u32) -> Seq<char> {
    hash_id(id as int) + " pointed at missing parent "@ + hash_id(p as int) + "; detached"@
}

pub open spec fn own_note(id: u32) -> Seq<char> {
    hash_id(id as int) + " was its own parent; detached"@
}

/// What is said of the first `n` tasks.
pub open spec fn parent_notes(ts: Seq<TaskView>, n: nat) -> Seq<Seq<char>>
    decreases n,
{
    if n == 0 {
        Seq::empty()
    } else {
        let before = parent_notes(ts, (n - 1) as nat);
        let t = ts[n - 1];
        if parent_missing(ts, t) {
            before.push(missing_note(t.id, t.parent->0))
        } else if own_parent(t) {
            before.push(own_note(t.id))
        } else {
            before
        }
    }
}

// ---------------------------------------------------------------------------
// Loops
// ---------------------------------------------------------------------------

/// The lowest id of a loop.
pub open spec fn lowest(c: Seq<u32>) -> u32
    decreases c.len(),
{
    if c.len() <= 1 {
        c[0]
    } else if lowest(c.drop_last()) <= c.last() {
        lowest(c.drop_last())
    } else {
        c.last()
    }
}

/// Whether `id` is the lowest of the ids of one of the loops.
pub open spec fn is_cut(cycles: Seq<Seq<u32>>, id: u32) -> bool {
    exists|j: int| 0 <= j < cycles.len() && lowest(#[trigger] cycles[j]) == id
}

pub open spec fn without_cuts(ts: Seq<TaskView>, cycles: Seq<Seq<u32>>) -> Seq<TaskView> {
    Seq::new(
        ts.len(),
        |i: int|
            if is_cut(cycles, ts[i].id) {
                TaskView { parent: None, ..ts[i] }
            } else {
                ts[i]
            },
    )
}

pub open spec fn hash_ids(c: Seq<u32>) -> Seq<Seq<char>> {
    Seq::new(c.len(), |i: int| hash_id(c[i] as int))
}

pub open spec fn loop_note(c: Seq<u32>) -> Seq<char> {
    "parent cycle "@ + joined(hash_ids(c), " → "@) + " — detached "@ + hash_id(lowest(c) as int)
        + " to break it"@
}

pub open spec fn loop_notes(cycles: Seq<Seq<u32>>) -> Seq<Seq<char>> {
    Seq::new(cycles.len(), |j: int| loop_note(cycles[j]))
}

// ---------------------------------------------------------------------------
// All of it
// ---------------------------------------------------------------------------

/// The list once every id is unique and every parent is another task in it.
pub open spec fn linked(d: DataView) -> Seq<TaskView> {
    with_real_parents(renumbered(d).tasks)
}

pub open spec fn repaired_tasks(d: DataView) -> Seq<TaskView> {
    without_cuts(linked(d), all_loops(linked(d)))
}

pub open spec fn repaired(d: DataView) -> DataView {
    DataView {
        version: if d.version < FORMAT_VERSION {
            FORMAT_VERSION
        } else {
            d.version
        },
        next_id: renumbered(d).next as u32,
        tasks: repaired_tasks(d),
        last_commit: d.last_commit,
    }
}

/// One note for each repair.
pub open spec fn repair_notes(d: DataView) -> Seq<Seq<char>> {
    duplicate_notes(d) + parent_notes(renumbered(d).tasks, d.tasks.len()) + loop_notes(
        all_loops(linked(d)),
    )
}

fn hash_text(id: u32) -> (r: String)
    ensures
        r@ == hash_id(id as int),
{
    let mut out = "#".to_owned();
    let n = to_decimal(id as u64);
    out.append(n.as_str());
    out
}

/// The first id from `from` on that is not held, if there is one.
fn free_from(held: &HashSet<u32>, from: u32, Ghost(ts): Ghost<Seq<TaskView>>) -> (r: Option<u32>)
    requires
        forall|id: u32| #[trigger] held@.contains(id) <==> has_id(ts, id),
    ensures
        match r {
            Some(id) => id == first_free(ts, from as int),
            None => first_free(ts, from as int) > u32::MAX,
        },
{
    let mut id: u32 = from;
    while held.contains(&id)
        invariant
            forall|id: u32| #[trigger] held@.contains(id) <==> has_id(ts, id),
            first_free(ts, id as int) == first_free(ts, from as int),
        decreases u32::MAX - id,
    {
        assert(has_id(ts, id));
        if id == u32::MAX {
            assert(first_free(ts, id + 1) == id + 1);
            return None;
        }
        id = id + 1;
    }
    assert(!has_id(ts, id));
    Some(id)
}

/// Whether there are ids left for every task that [`repair`] would renumber.
pub fn ids_left(data: &Data) -> (r: bool)
    ensures
        r == ids_suffice(data@),
{
    let ghost ts = data@.tasks;
    let ghost n = ts.len();
    let next_id: u32 = data.next_id;
    let held = id_set(&data.tasks);
    let mut seen: HashSet<u32> = HashSet::new();
    let mut next: u32 = if next_id > 1 {
        next_id
    } else {
        1
    };
    let mut i: usize = 0;
    while i < data.tasks.len()
        invariant
            i <= data.tasks@.len() == n,
            ts == task_views(data.tasks@),
            next == renumbering(ts, next_id, i as nat).next,
            forall|id: u32| #[trigger] held@.contains(id) <==> has_id(ts, id),
            forall|id: u32| #[trigger] seen@.contains(id) <==> has_id(ts.take(i as int), id),
            ids_suffice(data@) == (renumbering(ts, next_id, n).next <= u32::MAX),
        decreases data.tasks@.len() - i,
    {
        let id: u32 = data.tasks[i].id;
        proof {
            lemma_next_grows(ts, next_id, (i + 1) as nat, n);
            assert(ts[i as int].id == id);
            lemma_has_id_push(ts.take(i as int), ts[i as int]);
            assert(ts.take(i as int).push(ts[i as int]) =~= ts.take(i + 1));
        }
        let after: u32 = if id < u32::MAX {
            id + 1
        } else {
            u32::MAX
        };
        if after > next {
            next = after;
        }
        if seen.contains(&id) {
            match free_from(&held, next, Ghost(ts)) {
                Some(fresh) if fresh < u32::MAX => {
                    next = fresh + 1;
                },
                _ => {
                    return false;
                },
            }
        } else {
            seen.insert(id);
        }
        i += 1;
    }
    true
}

/// Gives every task an id of its own, and says whom it changed.
fn renumber(tasks: &mut Vec<Task>, next_id: u32) -> (r: (u32, Vec<(u32, u32)>))
    requires
        renumbering(task_views(old(tasks)@), next_id, old(tasks)@.len()).next <= u32::MAX,
    ensures
        ({
            let all = renumbering(task_views(old(tasks)@), next_id, old(tasks)@.len());
            &&& task_views(final(tasks)@) == all.tasks
            &&& r.0 == all.next
            &&& r.1@.len() == all.changes.len()
            &&& forall|i: int|
                0 <= i < r.1@.len() ==> (#[trigger] r.1@[i]).0 == all.changes[i].0 && r.1@[i].1
                    == all.changes[i].1
        }),
{
    let ghost ts = task_views(tasks@);
    let ghost was = tasks@;
    let ghost n = tasks@.len();
    let held = id_set(tasks);
    let mut seen: HashSet<u32> = HashSet::new();
    let mut changes: Vec<(u32, u32)> = Vec::new();
    let mut next: u32 = if next_id > 1 {
        next_id
    } else {
        1
    };
    let mut i: usize = 0;
    while i < tasks.len()
        invariant
            i <= tasks@.len() == n == ts.len() == was.len(),
            ts == task_views(was),
            renumbering(ts, next_id, n).next <= u32::MAX,
            forall|k: int| i <= k < n ==> tasks@[k] == was[k],
            task_views(tasks@).take(i as int) == renumbering(ts, next_id, i as nat).tasks,
            next == renumbering(ts, next_id, i as nat).next,
            changes@.len() == renumbering(ts, next_id, i as nat).changes.len(),
            forall|k: int|
                0 <= k < changes@.len() ==> (#[trigger] changes@[k]).0 == renumbering(
                    ts,
                    next_id,
                    i as nat,
                ).changes[k].0 && changes@[k].1 == renumbering(ts, next_id, i as nat).changes[k].1,
            forall|id: u32| #[trigger] held@.contains(id) <==> has_id(ts, id),
            forall|id: u32| #[trigger] seen@.contains(id) <==> has_id(ts.take(i as int), id),
        decreases tasks@.len() - i,
    {
        let ghost prior = tasks@;
        let id: u32 = tasks[i].id;
        proof {
            lemma_next_grows(ts, next_id, (i + 1) as nat, n);
            assert(ts[i as int].id == id);
            lemma_has_id_push(ts.take(i as int), ts[i as int]);
            assert(ts.take(i as int).push(ts[i as int]) =~= ts.take(i + 1));
        }
        let after: u32 = if id < u32::MAX {
            id + 1
        } else {
            u32::MAX
        };
        if after > next {
            next = after;
        }
        if seen.contains(&id) {
            if let Some(fresh) = free_from(&held, next, Ghost(ts)) {
                tasks[i].id = fresh;
                next = fresh + 1;
                changes.push((id, fresh));
                assert(tasks@[i as int]@ == (TaskView { id: fresh, ..ts[i as int] }));
            }
        } else {
            seen.insert(id);
        }
        proof {
            assert(task_views(tasks@).take(i + 1) =~= task_views(prior).take(i as int).push(
                tasks@[i as int]@,
            ));
        }
        i += 1;
    }
    assert(task_views(tasks@).take(i as int) =~= task_views(tasks@));
    (next, changes)
}

proof fn lemma_has_id_push(ts: Seq<TaskView>, t: TaskView)
    ensures
        forall|id: u32| #[trigger] has_id(ts.push(t), id) <==> has_id(ts, id) || id == t.id,
{
    assert forall|id: u32| #[trigger] has_id(ts.push(t), id) <==> has_id(ts, id) || id == t.id by {
        if has_id(ts, id) {
            let i = choose|i: int| 0 <= i < ts.len() && (#[trigger] ts[i]).id == id;
            assert(ts.push(t)[i].id == id);
        }
        if id == t.id {
            assert(ts.push(t)[ts.len() as int].id == id);
        }
        if has_id(ts.push(t), id) && id != t.id {
            let i = choose|i: int| 0 <= i < ts.push(t).len() && (#[trigger] ts.push(t)[i]).id == id;
            assert(ts[i].id == id);
        }
    }
}

/// The counter never goes back.
pub proof fn lemma_next_grows(ts: Seq<TaskView>, next_id: u32, a: nat, b: nat)
    requires
        a <= b,
    ensures
        renumbering(ts, next_id, a).next <= renumbering(ts, next_id, b).next,
        next_id <= renumbering(ts, next_id, a).next,
        1 <= renumbering(ts, next_id, a).next,
    decreases b,
{
    if a < b {
        lemma_next_grows(ts, next_id, a, (b - 1) as nat);
        lemma_one_step(ts, next_id, b);
    } else if a > 0 {
        lemma_next_grows(ts, next_id, (a - 1) as nat, (a - 1) as nat);
        lemma_one_step(ts, next_id, a);
    }
}

proof fn lemma_first_free(ts: Seq<TaskView>, n: int)
    ensures
        n <= first_free(ts, n),
        0 <= n && first_free(ts, n) <= u32::MAX ==> !has_id(ts, first_free(ts, n) as u32),
    decreases u32::MAX + 1 - n,
{
    if 0 <= n <= u32::MAX && has_id(ts, n as u32) {
        lemma_first_free(ts, n + 1);
    }
}

/// What one more task does to the counter, and that the id a duplicate gets is
/// past the counter and held by nobody.
proof fn lemma_one_step(ts: Seq<TaskView>, next_id: u32, n: nat)
    requires
        n > 0,
        1 <= renumbering(ts, next_id, (n - 1) as nat).next,
    ensures
        ({
            let r = renumbering(ts, next_id, (n - 1) as nat);
            let q = renumbering(ts, next_id, n);
            let t = ts[n - 1];
            &&& r.next <= q.next
            &&& t.id < q.next || (t.id == u32::MAX && u32::MAX <= q.next)
            &&& is_duplicate(ts, n - 1) ==> {
                let fresh = q.changes.last().1;
                &&& q.tasks == r.tasks.push(TaskView { id: fresh as u32, ..t })
                &&& q.changes == r.changes.push((t.id, fresh))
                &&& r.next <= fresh < q.next
                &&& fresh <= u32::MAX ==> !has_id(ts, fresh as u32)
            }
        }),
{
    let r = renumbering(ts, next_id, (n - 1) as nat);
    let t = ts[n - 1];
    let after = if t.id < u32::MAX {
        t.id + 1
    } else {
        u32::MAX as int
    };
    let next = if after > r.next {
        after
    } else {
        r.next
    };
    lemma_first_free(ts, next);
    if is_duplicate(ts, n - 1) {
        let fresh = first_free(ts, next);
        assert(renumbering(ts, next_id, n).changes == r.changes.push((t.id, fresh)));
        assert(r.changes.push((t.id, fresh)).last() == (t.id, fresh));
    }
}

/// The ids of all tasks.
fn id_set(tasks: &Vec<Task>) -> (r: HashSet<u32>)
    ensures
        forall|id: u32| #[trigger] r@.contains(id) <==> has_id(task_views(tasks@), id),
{
    let ghost ts = task_views(tasks@);
    let mut ids: HashSet<u32> = HashSet::new();
    let mut i: usize = 0;
    while i < tasks.len()
        invariant
            i <= tasks@.len(),
            ts == task_views(tasks@),
            forall|id: u32| #[trigger] ids@.contains(id) <==> has_id(ts.take(i as int), id),
        decreases tasks@.len() - i,
    {
        ids.insert(tasks[i].id);
        proof {
            lemma_has_id_push(ts.take(i as int), ts[i as int]);
            assert(ts.take(i as int).push(ts[i as int]) =~= ts.take(i + 1));
        }
        i += 1;
    }
    assert(ts.take(i as int) =~= ts);
    ids
}

fn missing_text(id: u32, p: u32) -> (r: String)
    ensures
        r@ == missing_note(id, p),
{
    let mut out = hash_text(id);
    let parent = hash_text(p);
    out.append(" pointed at missing parent ");
    out.append(parent.as_str());
    out.append("; detached");
    out
}

fn own_text(id: u32) -> (r: String)
    ensures
        r@ == own_note(id),
{
    let mut out = hash_text(id);
    out.append(" was its own parent; detached");
    out
}

/// Detaches the tasks whose parent is missing or themselves.
fn detach_strays(tasks: &mut Vec<Task>, warnings: &mut Vec<String>)
    ensures
        task_views(final(tasks)@) == with_real_parents(task_views(old(tasks)@)),
        views(final(warnings)@) == views(old(warnings)@) + parent_notes(
            task_views(old(tasks)@),
            old(tasks)@.len(),
        ),
{
    let ids = id_set(tasks);
    let ghost was = tasks@;
    let ghost ts = task_views(was);
    let ghost n = tasks@.len();
    let ghost said = views(warnings@);
    assert(said + parent_notes(ts, 0) =~= said);
    let mut i: usize = 0;
    while i < tasks.len()
        invariant
            i <= tasks@.len() == n == was.len(),
            ts == task_views(was),
            forall|id: u32| #[trigger] ids@.contains(id) <==> has_id(ts, id),
            forall|k: int| i <= k < n ==> tasks@[k] == was[k],
            forall|k: int| 0 <= k < i ==> (#[trigger] tasks@[k])@ == with_real_parent(ts, ts[k]),
            views(warnings@) == said + parent_notes(ts, i as nat),
        decreases tasks@.len() - i,
    {
        let ghost prior = views(warnings@);
        let ghost t = ts[i as int];
        let ghost before = warnings@;
        assert(tasks@[i as int]@ == t);
        let id: u32 = tasks[i].id;
        if let Some(p) = tasks[i].parent {
            if !ids.contains(&p) {
                warnings.push(missing_text(id, p));
                tasks[i].parent = None;
                proof {
                    assert(views(warnings@) =~= prior.push(missing_note(id, p)));
                    assert(parent_missing(ts, t));
                }
            } else if p == id {
                warnings.push(own_text(id));
                tasks[i].parent = None;
                assert(views(warnings@) =~= prior.push(own_note(id)));
            }
        }
        assert(tasks@[i as int]@ == with_real_parent(ts, t));
        assert(views(warnings@) =~= said + parent_notes(ts, (i + 1) as nat));
        i += 1;
    }
    assert(task_views(tasks@) =~= with_real_parents(ts));
}

fn lowest_of(c: &Vec<u32>) -> (r: u32)
    requires
        c@.len() > 0,
    ensures
        r == lowest(c@),
{
    let mut low: u32 = c[0];
    let mut i: usize = 1;
    assert(c@.take(1)[0] == c@[0]);
    while i < c.len()
        invariant
            1 <= i <= c@.len(),
            low == lowest(c@.take(i as int)),
        decreases c@.len() - i,
    {
        assert(c@.take(i + 1).drop_last() =~= c@.take(i as int));
        if c[i] < low {
            low = c[i];
        }
        i += 1;
    }
    assert(c@.take(i as int) =~= c@);
    low
}

fn loop_text(c: &Vec<u32>, cut: u32) -> (r: String)
    requires
        c@.len() > 0,
        cut == lowest(c@),
    ensures
        r@ == loop_note(c@),
{
    let mut parts: Vec<String> = Vec::new();
    let mut i: usize = 0;
    while i < c.len()
        invariant
            i <= c@.len(),
            views(parts@) == hash_ids(c@).take(i as int),
        decreases c@.len() - i,
    {
        let ghost before = views(parts@);
        parts.push(hash_text(c[i]));
        assert(views(parts@) =~= before.push(hash_id(c@[i as int] as int)));
        assert(views(parts@) =~= hash_ids(c@).take(i + 1));
        i += 1;
    }
    assert(hash_ids(c@).take(i as int) =~= hash_ids(c@));
    let mut out = "parent cycle ".to_owned();
    let path = join(&parts, " → ");
    let low = hash_text(cut);
    out.append(path.as_str());
    out.append(" — detached ");
    out.append(low.as_str());
    out.append(" to break it");
    out
}

/// Detaches every task with this id.
fn detach(tasks: &mut Vec<Task>, cut: u32)
    ensures
        final(tasks)@.len() == old(tasks)@.len(),
        forall|k: int|
            0 <= k < old(tasks)@.len() ==> (#[trigger] final(tasks)@[k])@ == (if old(tasks)@[k].id
                == cut {
                TaskView { parent: None, ..old(tasks)@[k]@ }
            } else {
                old(tasks)@[k]@
            }),
{
    let ghost was = tasks@;
    let mut i: usize = 0;
    while i < tasks.len()
        invariant
            i <= tasks@.len() == was.len(),
            forall|k: int| i <= k < was.len() ==> tasks@[k] == was[k],
            forall|k: int|
                0 <= k < i ==> (#[trigger] tasks@[k])@ == (if was[k].id == cut {
                    TaskView { parent: None, ..was[k]@ }
                } else {
                    was[k]@
                }),
        decreases tasks@.len() - i,
    {
        assert(tasks@[i as int] == was[i as int]);
        if tasks[i].id == cut {
            tasks[i].parent = None;
        }
        i += 1;
    }
}

proof fn lemma_loops_not_empty(ts: Seq<TaskView>)
    ensures
        forall|k: int| 0 <= k < all_loops(ts).len() ==> (#[trigger] all_loops(ts)[k]).len() > 0,
{
    lemma_loops_met(ts, ts.len());
    assert forall|k: int| 0 <= k < all_loops(ts).len() implies (#[trigger] all_loops(ts)[k]).len()
        > 0 by {
        assert(is_loop(ts, all_loops(ts)[k]));
        let e = choose|e: u32| #[trigger] cyclic(ts, e) && all_loops(ts)[k] == loop_from(ts, e);
        lemma_loop_from(ts, e);
    }
}

proof fn lemma_cut_one_more(ts: Seq<TaskView>, a: Seq<Seq<u32>>, c: Seq<u32>)
    ensures
        forall|id: u32| #[trigger] is_cut(a.push(c), id) <==> is_cut(a, id) || id == lowest(c),
        forall|k: int|
            0 <= k < ts.len() ==> #[trigger] without_cuts(ts, a.push(c))[k] == (if ts[k].id
                == lowest(c) {
                TaskView { parent: None, ..without_cuts(ts, a)[k] }
            } else {
                without_cuts(ts, a)[k]
            }),
{
    let b = a.push(c);
    assert forall|id: u32| #[trigger] is_cut(b, id) <==> is_cut(a, id) || id == lowest(c) by {
        if is_cut(a, id) {
            let k = choose|k: int| 0 <= k < a.len() && lowest(#[trigger] a[k]) == id;
            assert(b[k] == a[k]);
        }
        if id == lowest(c) {
            assert(b[a.len() as int] == c);
        }
        if is_cut(b, id) && id != lowest(c) {
            let k = choose|k: int| 0 <= k < b.len() && lowest(#[trigger] b[k]) == id;
            assert(a[k] == b[k]);
        }
    }
    assert forall|k: int| 0 <= k < ts.len() implies #[trigger] without_cuts(ts, b)[k] == (if ts[k].id
        == lowest(c) {
        TaskView { parent: None, ..without_cuts(ts, a)[k] }
    } else {
        without_cuts(ts, a)[k]
    }) by {
        assert(is_cut(b, ts[k].id) <==> is_cut(a, ts[k].id) || ts[k].id == lowest(c));
    }
}

/// Breaks every loop at its lowest id: deterministic, and it keeps the largest
/// possible intact subtree.
fn break_loops(tasks: &mut Vec<Task>, warnings: &mut Vec<String>)
    ensures
        task_views(final(tasks)@) == without_cuts(
            task_views(old(tasks)@),
            all_loops(task_views(old(tasks)@)),
        ),
        views(final(warnings)@) == views(old(warnings)@) + loop_notes(
            all_loops(task_views(old(tasks)@)),
        ),
{
    let cycles = find_cycles(tasks);
    let ghost ts = task_views(tasks@);
    let ghost cs = id_lists(cycles@);
    let ghost said = views(warnings@);
    assert(cs == all_loops(ts));
    proof {
        lemma_loops_not_empty(ts);
        assert(said + loop_notes(cs.take(0)) =~= said);
        assert(task_views(tasks@) =~= without_cuts(ts, cs.take(0)));
    }
    let mut j: usize = 0;
    while j < cycles.len()
        invariant
            j <= cycles@.len(),
            cs == id_lists(cycles@),
            cs == all_loops(ts),
            forall|k: int| 0 <= k < cs.len() ==> (#[trigger] cs[k]).len() > 0,
            tasks@.len() == ts.len(),
            task_views(tasks@) == without_cuts(ts, cs.take(j as int)),
            views(warnings@) == said + loop_notes(cs.take(j as int)),
        decreases cycles@.len() - j,
    {
        let ghost before = tasks@;
        let ghost prior = views(warnings@);
        let c = &cycles[j];
        proof {
            assert(c@ == cs[j as int]);
        }
        let cut: u32 = lowest_of(c);
        detach(tasks, cut);
        warnings.push(loop_text(c, cut));
        proof {
            let a = cs.take(j as int);
            let b = cs.take(j + 1);
            assert(b =~= a.push(cs[j as int]));
            lemma_cut_one_more(ts, a, cs[j as int]);
            assert forall|k: int| 0 <= k < ts.len() implies task_views(tasks@)[k] == without_cuts(
                ts,
                b,
            )[k] by {
                assert(before[k]@ == without_cuts(ts, a)[k]) by {
                    assert(task_views(before)[k] == without_cuts(ts, a)[k]);
                }
            }
            assert(task_views(tasks@) =~= without_cuts(ts, b));
            assert(views(warnings@) =~= prior.push(loop_note(cs[j as int])));
            assert(loop_notes(b) =~= loop_notes(a).push(loop_note(cs[j as int])));
            assert(views(warnings@) =~= said + loop_notes(b));
        }
        j += 1;
    }
    assert(cs.take(j as int) =~= cs);
}

/// Repairs the list in place and appends a warning for every repair.
///
/// Returns whether anything was actually changed, so the caller knows the copy
/// on disk no longer matches the one in memory. That goes for the counter and
/// the format version too, of which nothing is said.
pub fn repair(data: &mut Data, warnings: &mut Vec<String>) -> (changed: bool)
    requires
        ids_suffice(old(data)@),
    ensures
        final(data)@ == repaired(old(data)@),
        views(final(warnings)@) == views(old(warnings)@) + repair_notes(old(data)@),
        changed == (final(data)@ != old(data)@),
{
    let ghost d = data@;
    let ghost said = views(warnings@);
    let before: usize = warnings.len();
    let counted: u32 = data.next_id;
    let version: u32 = data.version;
    let (next, changes) = renumber(&mut data.tasks, data.next_id);
    data.next_id = next;
    let mut i: usize = 0;
    assert(views(warnings@) =~= said + duplicate_notes(d).take(0));
    while i < changes.len()
        invariant
            i <= changes@.len() == renumbered(d).changes.len(),
            forall|k: int|
                0 <= k < changes@.len() ==> (#[trigger] changes@[k]).0 == renumbered(d).changes[k].0
                    && changes@[k].1 == renumbered(d).changes[k].1,
            views(warnings@) == said + duplicate_notes(d).take(i as int),
        decreases changes@.len() - i,
    {
        let ghost prior = views(warnings@);
        let mut note = "duplicate id ".to_owned();
        let old_id = hash_text(changes[i].0);
        let new_id = hash_text(changes[i].1);
        note.append(old_id.as_str());
        note.append(" renumbered to ");
        note.append(new_id.as_str());
        assert(note@ == duplicate_note(renumbered(d).changes[i as int])) by {
            assert(changes@[i as int].0 == renumbered(d).changes[i as int].0);
        }
        warnings.push(note);
        assert(views(warnings@) =~= prior.push(duplicate_notes(d)[i as int]));
        assert(views(warnings@) =~= said + duplicate_notes(d).take(i + 1));
        i += 1;
    }
    assert(duplicate_notes(d).take(i as int) =~= duplicate_notes(d));
    assert(task_views(data.tasks@) == renumbered(d).tasks);
    proof {
        lemma_renumbering_len(d.tasks, d.next_id, d.tasks.len());
    }
    detach_strays(&mut data.tasks, warnings);
    break_loops(&mut data.tasks, warnings);
    if data.version < FORMAT_VERSION {
        data.version = FORMAT_VERSION;
    }
    proof {
        assert(views(warnings@) =~= said + repair_notes(d));
        assert(views(warnings@).len() == warnings@.len());
        law_silent_means_tasks_unchanged(d);
    }
    warnings.len() > before || data.next_id != counted || data.version != version
}

proof fn lemma_renumbering_len(ts: Seq<TaskView>, next_id: u32, n: nat)
    requires
        n <= ts.len(),
    ensures
        renumbering(ts, next_id, n).tasks.len() == n,
    decreases n,
{
    if n > 0 {
        lemma_renumbering_len(ts, next_id, (n - 1) as nat);
    }
}

// ---------------------------------------------------------------------------
// What repairing guarantees
// ---------------------------------------------------------------------------

/// Ids past the counter can only be the very last one.
proof fn lemma_ids_below_next(ts: Seq<TaskView>, next_id: u32, n: nat)
    requires
        n <= ts.len(),
        renumbering(ts, next_id, n).next <= u32::MAX,
    ensures
        forall|i: int|
            0 <= i < n ==> (#[trigger] renumbering(ts, next_id, n).tasks[i]).id < renumbering(
                ts,
                next_id,
                n,
            ).next || (renumbering(ts, next_id, n).tasks[i].id == u32::MAX && renumbering(
                ts,
                next_id,
                n,
            ).next == u32::MAX),
        // whoever did not keep an id has one that nobody had
        forall|i: int|
            0 <= i < n ==> (#[trigger] renumbering(ts, next_id, n).tasks[i]).id == ts[i].id
                || !has_id(ts, renumbering(ts, next_id, n).tasks[i].id),
        unique_ids(renumbering(ts, next_id, n).tasks),
        renumbering(ts, next_id, n).tasks.len() == n,
    decreases n,
{
    if n > 0 {
        let r = renumbering(ts, next_id, (n - 1) as nat);
        let q = renumbering(ts, next_id, n);
        lemma_next_grows(ts, next_id, (n - 1) as nat, n);
        lemma_ids_below_next(ts, next_id, (n - 1) as nat);
        lemma_one_step(ts, next_id, n);
        assert forall|i: int| 0 <= i < n implies (#[trigger] q.tasks[i]).id < q.next || (q.tasks[i].id
            == u32::MAX && q.next == u32::MAX) by {
            if i < n - 1 {
                assert(q.tasks[i] == r.tasks[i]);
            }
        }
        assert forall|i: int| 0 <= i < n implies (#[trigger] q.tasks[i]).id == ts[i].id || !has_id(
            ts,
            q.tasks[i].id,
        ) by {
            if i < n - 1 {
                assert(q.tasks[i] == r.tasks[i]);
            }
        }
        assert forall|i: int, j: int| 0 <= i < j < n implies (#[trigger] q.tasks[i]).id
            != (#[trigger] q.tasks[j]).id by {
            assert(q.tasks[i] == r.tasks[i]);
            if j < n - 1 {
                assert(q.tasks[j] == r.tasks[j]);
            } else if !is_duplicate(ts, n - 1) {
                assert(q.tasks[j] == ts[n - 1]);
                assert(ts[j].id == q.tasks[j].id);
                assert(ts.take(n - 1)[i] == ts[i]);
            }
        }
    }
}

/// Ids survive everything but renumbering.
proof fn lemma_ids_kept(d: DataView)
    ensures
        linked(d).len() == renumbered(d).tasks.len(),
        repaired_tasks(d).len() == renumbered(d).tasks.len(),
        forall|i: int|
            0 <= i < linked(d).len() ==> (#[trigger] linked(d)[i]).id == renumbered(d).tasks[i].id,
        forall|i: int|
            0 <= i < linked(d).len() ==> (#[trigger] repaired_tasks(d)[i]).id == linked(d)[i].id,
        forall|id: u32| #[trigger] has_id(repaired_tasks(d), id) <==> has_id(linked(d), id),
        forall|id: u32| #[trigger] has_id(linked(d), id) <==> has_id(renumbered(d).tasks, id),
{
    let a = renumbered(d).tasks;
    let b = linked(d);
    let c = repaired_tasks(d);
    assert forall|id: u32| #[trigger] has_id(b, id) <==> has_id(a, id) by {
        if has_id(b, id) {
            let i = choose|i: int| 0 <= i < b.len() && (#[trigger] b[i]).id == id;
            assert(a[i].id == id);
        }
        if has_id(a, id) {
            let i = choose|i: int| 0 <= i < a.len() && (#[trigger] a[i]).id == id;
            assert(b[i].id == id);
        }
    }
    assert forall|id: u32| #[trigger] has_id(c, id) <==> has_id(b, id) by {
        if has_id(c, id) {
            let i = choose|i: int| 0 <= i < c.len() && (#[trigger] c[i]).id == id;
            assert(b[i].id == id);
        }
        if has_id(b, id) {
            let i = choose|i: int| 0 <= i < b.len() && (#[trigger] b[i]).id == id;
            assert(c[i].id == id);
        }
    }
}

proof fn lemma_lowest_in(c: Seq<u32>)
    requires
        c.len() > 0,
    ensures
        c.contains(lowest(c)),
        forall|i: int| 0 <= i < c.len() ==> lowest(c) <= #[trigger] c[i],
    decreases c.len(),
{
    if c.len() > 1 {
        let r = c.drop_last();
        lemma_lowest_in(r);
        let i = choose|i: int| 0 <= i < r.len() && r[i] == lowest(r);
        assert(c[i] == lowest(r));
        assert(c[c.len() - 1] == c.last());
        assert forall|i: int| 0 <= i < c.len() implies lowest(c) <= #[trigger] c[i] by {
            if i < r.len() {
                assert(r[i] == c[i]);
            }
        }
    } else {
        assert(c[0] == lowest(c));
    }
}

/// Any two ids on one loop are ancestors of each other.
proof fn lemma_loop_mates(ts: Seq<TaskView>, e: u32, i: int, j: int) -> (k: nat)
    requires
        cyclic(ts, e),
        0 <= i < loop_from(ts, e).len(),
        0 <= j < loop_from(ts, e).len(),
    ensures
        ancestor(ts, loop_from(ts, e)[i], k) == Some(loop_from(ts, e)[j]),
{
    lemma_loop_from(ts, e);
    crate::cycles::lemma_loop_len(ts, e);
    let c = loop_from(ts, e);
    let n = c.len();
    if i <= j {
        crate::forest::lemma_ancestor_steps(ts, e, i as nat, (j - i) as nat);
        (j - i) as nat
    } else {
        crate::forest::lemma_ancestor_steps(ts, e, i as nat, (n - i) as nat);
        crate::forest::lemma_ancestor_steps(ts, c[i], (n - i) as nat, j as nat);
        assert(ancestor(ts, c[i], (n - i) as nat) == Some(e));
        (n - i + j) as nat
    }
}

/// Taking parents away makes chains no different, only shorter.
pub proof fn lemma_cut_chain(a: Seq<TaskView>, b: Seq<TaskView>, x: u32, k: nat)
    requires
        forall|y: u32| #[trigger] parent_of(b, y) == parent_of(a, y) || parent_of(b, y) is None,
        ancestor(b, x, k) is Some,
    ensures
        ancestor(a, x, k) == ancestor(b, x, k),
    decreases k,
{
    if k > 0 {
        crate::forest::lemma_ancestor_prefix(b, x, (k - 1) as nat, k);
        lemma_cut_chain(a, b, x, (k - 1) as nat);
        let y = ancestor(b, x, (k - 1) as nat)->0;
        assert(parent_of(b, y) == parent_of(a, y) || parent_of(b, y) is None);
    }
}

proof fn lemma_cuts_break_loops(a: Seq<TaskView>)
    requires
        unique_ids(a),
    ensures
        acyclic(without_cuts(a, all_loops(a))),
{
    let cs = all_loops(a);
    let b = without_cuts(a, cs);
    assert(unique_ids(b)) by {
        assert forall|i: int, j: int| 0 <= i < j < b.len() implies (#[trigger] b[i]).id
            != (#[trigger] b[j]).id by {
            assert(a[i].id != a[j].id);
        }
    }
    assert forall|y: u32| #[trigger]
        parent_of(b, y) == (if is_cut(cs, y) {
            None
        } else {
            parent_of(a, y)
        }) by {
        lemma_parent_of(a, y);
        lemma_parent_of(b, y);
        if has_id(a, y) {
            let i = choose|i: int| 0 <= i < a.len() && (#[trigger] a[i]).id == y;
            assert(b[i].id == y);
            lemma_parent_at(a, i);
            lemma_parent_at(b, i);
        } else if has_id(b, y) {
            let i = choose|i: int| 0 <= i < b.len() && (#[trigger] b[i]).id == y;
            assert(a[i].id == y);
        }
    }
    lemma_loops_met(a, a.len());
    assert forall|x: u32| !#[trigger] cyclic(b, x) by {
        if cyclic(b, x) {
            let k = choose|k: nat| k > 0 && #[trigger] ancestor(b, x, k) == Some(x);
            lemma_cut_chain(a, b, x, k);
            assert(cyclic(a, x));
            // `x` is a task, and on a loop that was found
            crate::forest::lemma_ancestor_prefix(a, x, 1, k);
            assert(ancestor(a, x, 0) == Some(x));
            assert(ancestor(a, x, 1) == parent_of(a, x)) by {
                reveal_with_fuel(ancestor, 2);
            }
            lemma_parent_of(a, x);
            let i = choose|i: int| 0 <= i < a.len() && (#[trigger] a[i]).id == x;
            lemma_way_in(a, x);
            assert(on_loop_after(a, x, 0));
            assert(way_in(a, x) == Some(x));
            assert(on_any(cs, x)) by {
                assert(a[i].id == x);
            }
            let j = choose|j: int| 0 <= j < cs.len() && (#[trigger] cs[j]).contains(x);
            assert(is_loop(a, cs[j]));
            let e = choose|e: u32| #[trigger] cyclic(a, e) && cs[j] == loop_from(a, e);
            lemma_loop_from(a, e);
            lemma_lowest_in(cs[j]);
            let p = choose|p: int| 0 <= p < cs[j].len() && cs[j][p] == x;
            let q = choose|q: int| 0 <= q < cs[j].len() && cs[j][q] == lowest(cs[j]);
            let m = lemma_loop_mates(a, e, p, q);
            let cut = lowest(cs[j]);
            assert(is_cut(cs, cut));
            crate::cycles::lemma_loop_never_ends(b, x, k, m + 1);
            crate::forest::lemma_ancestor_prefix(b, x, m, m + 1);
            lemma_cut_chain(a, b, x, m);
            assert(ancestor(b, x, m) == Some(cut));
            assert(ancestor(b, x, m + 1) == parent_of(b, cut));
        }
    }
}

/// A repaired list is a forest: every id stands for one task, every parent is
/// there, and no task is its own ancestor.
pub proof fn law_repair_makes_a_forest(d: DataView)
    requires
        ids_suffice(d),
    ensures
        is_forest(repaired(d).tasks),
{
    let a = renumbered(d).tasks;
    let b = linked(d);
    let c = repaired_tasks(d);
    lemma_ids_below_next(d.tasks, d.next_id, d.tasks.len());
    lemma_ids_kept(d);
    assert(unique_ids(b)) by {
        assert forall|i: int, j: int| 0 <= i < j < b.len() implies (#[trigger] b[i]).id
            != (#[trigger] b[j]).id by {
            assert(a[i].id != a[j].id);
        }
    }
    assert(unique_ids(c)) by {
        assert forall|i: int, j: int| 0 <= i < j < c.len() implies (#[trigger] c[i]).id
            != (#[trigger] c[j]).id by {
            assert(b[i].id != b[j].id);
        }
    }
    assert(parents_exist(c)) by {
        assert forall|i: int| 0 <= i < c.len() implies match (#[trigger] c[i]).parent {
            Some(p) => has_id(c, p),
            None => true,
        } by {
            if let Some(p) = c[i].parent {
                assert(b[i].parent == Some(p));
                assert(b[i] == with_real_parent(a, a[i]));
                assert(has_id(a, p));
                assert(has_id(b, p));
                assert(has_id(c, p));
            }
        }
    }
    lemma_cuts_break_loops(b);
}

/// In a list with unique ids there is nobody to renumber.
proof fn lemma_unique_unchanged(ts: Seq<TaskView>, next_id: u32, n: nat)
    requires
        unique_ids(ts),
        n <= ts.len(),
    ensures
        renumbering(ts, next_id, n).tasks == ts.take(n as int),
        renumbering(ts, next_id, n).changes.len() == 0,
        renumbering(ts, next_id, n).next <= u32::MAX,
    decreases n,
{
    if n > 0 {
        lemma_unique_unchanged(ts, next_id, (n - 1) as nat);
        let r = renumbering(ts, next_id, (n - 1) as nat);
        if is_duplicate(ts, n - 1) {
            let i = choose|i: int|
                0 <= i < n - 1 && (#[trigger] ts.take(n - 1)[i]).id == ts[n - 1].id;
            assert(ts[i].id == ts[n - 1].id);
        }
        assert(ts.take(n as int) =~= ts.take(n - 1).push(ts[n - 1]));
    }
}

proof fn lemma_real_parents_unchanged(ts: Seq<TaskView>, n: nat)
    requires
        is_forest(ts),
        n <= ts.len(),
    ensures
        parent_notes(ts, n).len() == 0,
        forall|i: int| 0 <= i < n ==> with_real_parent(ts, #[trigger] ts[i]) == ts[i],
    decreases n,
{
    if n > 0 {
        lemma_real_parents_unchanged(ts, (n - 1) as nat);
        let t = ts[n - 1];
        if own_parent(t) {
            lemma_parent_at(ts, n - 1);
            assert(ancestor(ts, t.id, 0) == Some(t.id));
            assert(ancestor(ts, t.id, 1) == Some(t.id)) by {
                reveal_with_fuel(ancestor, 2);
            }
            assert(cyclic(ts, t.id));
        }
    }
}

/// A list that is a forest already is left as it is, and nothing is said.
pub proof fn law_repair_leaves_a_forest_alone(d: DataView)
    requires
        is_forest(d.tasks),
    ensures
        ids_suffice(d),
        repaired(d).tasks == d.tasks,
        repair_notes(d).len() == 0,
{
    lemma_unique_unchanged(d.tasks, d.next_id, d.tasks.len());
    assert(d.tasks.take(d.tasks.len() as int) =~= d.tasks);
    lemma_real_parents_unchanged(d.tasks, d.tasks.len());
    assert(linked(d) =~= d.tasks);
    lemma_no_loops(d.tasks, d.tasks.len());
    assert(repaired_tasks(d) =~= d.tasks);
}

/// Repairing a repaired list changes nothing and says nothing.
pub proof fn law_repairing_once_is_enough(d: DataView)
    requires
        ids_suffice(d),
    ensures
        ids_suffice(repaired(d)),
        repaired(repaired(d)) == repaired(d),
        repair_notes(repaired(d)).len() == 0,
{
    law_repair_makes_a_forest(d);
    let r = repaired(d);
    law_repair_leaves_a_forest_alone(r);
    lemma_ids_below_next(d.tasks, d.next_id, d.tasks.len());
    lemma_ids_kept(d);
    lemma_next_grows(d.tasks, d.next_id, d.tasks.len(), d.tasks.len());
    assert forall|i: int| 0 <= i < r.tasks.len() implies (#[trigger] r.tasks[i]).id < r.next_id || (
    r.tasks[i].id == u32::MAX && r.next_id == u32::MAX) by {
        assert(r.tasks[i].id == linked(d)[i].id);
        assert(linked(d)[i].id == renumbered(d).tasks[i].id);
    }
    lemma_next_settled(r.tasks, r.next_id, r.tasks.len());
}

proof fn lemma_next_settled(ts: Seq<TaskView>, next_id: u32, n: nat)
    requires
        unique_ids(ts),
        n <= ts.len(),
        next_id >= 1,
        forall|i: int|
            0 <= i < ts.len() ==> (#[trigger] ts[i]).id < next_id || (ts[i].id == u32::MAX && next_id
                == u32::MAX),
    ensures
        renumbering(ts, next_id, n).next == next_id,
    decreases n,
{
    if n > 0 {
        lemma_next_settled(ts, next_id, (n - 1) as nat);
        lemma_unique_unchanged(ts, next_id, n);
        let r = renumbering(ts, next_id, (n - 1) as nat);
        assert(ts[n - 1].id < next_id || next_id == u32::MAX);
        if is_duplicate(ts, n - 1) {
            assert(renumbering(ts, next_id, n).changes.len() > 0);
        }
    }
}

/// After a repair the counter is past every id, unless an id is the last there
/// is.
pub proof fn law_counter_is_past_every_id(d: DataView)
    requires
        ids_suffice(d),
        forall|i: int| 0 <= i < d.tasks.len() ==> (#[trigger] d.tasks[i]).id < u32::MAX,
    ensures
        forall|i: int|
            0 <= i < repaired(d).tasks.len() ==> (#[trigger] repaired(d).tasks[i]).id < repaired(
                d,
            ).next_id,
        repaired(d).next_id >= d.next_id,
{
    lemma_ids_below_next(d.tasks, d.next_id, d.tasks.len());
    lemma_ids_kept(d);
    lemma_next_grows(d.tasks, d.next_id, d.tasks.len(), d.tasks.len());
    lemma_ids_stay_small(d.tasks, d.next_id, d.tasks.len());
    assert forall|i: int| 0 <= i < repaired(d).tasks.len() implies (#[trigger] repaired(d).tasks[i]).id
        < repaired(d).next_id by {
        assert(repaired_tasks(d)[i].id == linked(d)[i].id);
        assert(linked(d)[i].id == renumbered(d).tasks[i].id);
    }
}

/// After a repair every id is below the counter, or the counter is at its end.
pub proof fn lemma_repaired_is_counted(d: DataView)
    requires
        ids_suffice(d),
    ensures
        crate::store::counted(repaired(d)),
        repaired(d).next_id >= 1,
{
    lemma_ids_below_next(d.tasks, d.next_id, d.tasks.len());
    lemma_ids_kept(d);
    lemma_next_grows(d.tasks, d.next_id, d.tasks.len(), d.tasks.len());
    let r = repaired(d);
    assert forall|i: int| 0 <= i < r.tasks.len() implies (#[trigger] r.tasks[i]).id < r.next_id
        || r.next_id == u32::MAX by {
        assert(r.tasks[i].id == linked(d)[i].id);
        assert(linked(d)[i].id == renumbered(d).tasks[i].id);
    }
}

proof fn lemma_ids_stay_small(ts: Seq<TaskView>, next_id: u32, n: nat)
    requires
        n <= ts.len(),
        renumbering(ts, next_id, n).next <= u32::MAX,
        forall|i: int| 0 <= i < ts.len() ==> (#[trigger] ts[i]).id < u32::MAX,
    ensures
        renumbering(ts, next_id, n).tasks.len() == n,
        forall|i: int| 0 <= i < n ==> (#[trigger] renumbering(ts, next_id, n).tasks[i]).id < u32::MAX,
    decreases n,
{
    if n > 0 {
        let r = renumbering(ts, next_id, (n - 1) as nat);
        let q = renumbering(ts, next_id, n);
        lemma_next_grows(ts, next_id, (n - 1) as nat, n);
        lemma_ids_stay_small(ts, next_id, (n - 1) as nat);
        lemma_next_grows(ts, next_id, (n - 1) as nat, (n - 1) as nat);
        lemma_one_step(ts, next_id, n);
        assert forall|i: int| 0 <= i < n implies (#[trigger] q.tasks[i]).id < u32::MAX by {
            if i < n - 1 {
                assert(q.tasks[i] == r.tasks[i]);
            } else {
                assert(ts[n - 1].id < u32::MAX);
            }
        }
    }
}

proof fn lemma_renumbering_keeps(ts: Seq<TaskView>, next_id: u32, n: nat)
    requires
        n <= ts.len(),
        renumbering(ts, next_id, n).next <= u32::MAX,
    ensures
        renumbering(ts, next_id, n).tasks.len() == n,
        forall|i: int|
            0 <= i < n ==> (#[trigger] renumbering(ts, next_id, n).tasks[i]) == (TaskView {
                id: renumbering(ts, next_id, n).tasks[i].id,
                ..ts[i]
            }),
        forall|i: int|
            0 <= i < n ==> (renumbering(ts, next_id, n).tasks[i].id == (#[trigger] ts[i]).id
                <==> !is_duplicate(ts, i)),
        // silent exactly where nothing moved
        (renumbering(ts, next_id, n).changes.len() == 0) == (renumbering(ts, next_id, n).tasks
            == ts.take(n as int)),
    decreases n,
{
    if n > 0 {
        let r = renumbering(ts, next_id, (n - 1) as nat);
        let q = renumbering(ts, next_id, n);
        lemma_next_grows(ts, next_id, (n - 1) as nat, n);
        lemma_renumbering_keeps(ts, next_id, (n - 1) as nat);
        assert forall|i: int| 0 <= i < n implies (#[trigger] q.tasks[i]) == (TaskView {
            id: q.tasks[i].id,
            ..ts[i]
        }) by {
            if i < n - 1 {
                assert(q.tasks[i] == r.tasks[i]);
            }
        }
        lemma_next_grows(ts, next_id, (n - 1) as nat, (n - 1) as nat);
        lemma_one_step(ts, next_id, n);
        assert(has_id(ts, ts[n - 1].id));
        assert forall|i: int| 0 <= i < n implies (q.tasks[i].id == (#[trigger] ts[i]).id
            <==> !is_duplicate(ts, i)) by {
            if i < n - 1 {
                assert(q.tasks[i] == r.tasks[i]);
            }
        }
        assert(ts.take(n as int) =~= ts.take(n - 1).push(ts[n - 1]));
        if is_duplicate(ts, n - 1) {
            assert(ts.take(n as int)[n - 1] == ts[n - 1]);
            assert(q.tasks != ts.take(n as int));
        } else {
            if q.tasks == ts.take(n as int) {
                assert(r.tasks =~= ts.take(n - 1)) by {
                    assert forall|i: int| 0 <= i < n - 1 implies r.tasks[i] == ts.take(n - 1)[i] by {
                        assert(q.tasks[i] == r.tasks[i]);
                        assert(q.tasks[i] == ts.take(n as int)[i]);
                    }
                }
            }
        }
    } else {
        assert(ts.take(0) =~= Seq::<TaskView>::empty());
    }
}

proof fn lemma_fresh_past_counter(ts: Seq<TaskView>, next_id: u32, n: nat)
    requires
        n <= ts.len(),
        renumbering(ts, next_id, n).next <= u32::MAX,
    ensures
        renumbering(ts, next_id, n).tasks.len() == n,
        forall|i: int|
            0 <= i < n && is_duplicate(ts, i) ==> (#[trigger] renumbering(
                ts,
                next_id,
                n,
            ).tasks[i]).id >= next_id,
    decreases n,
{
    if n > 0 {
        let r = renumbering(ts, next_id, (n - 1) as nat);
        let q = renumbering(ts, next_id, n);
        lemma_next_grows(ts, next_id, (n - 1) as nat, n);
        lemma_one_step(ts, next_id, n);
        lemma_fresh_past_counter(ts, next_id, (n - 1) as nat);
        assert forall|i: int| 0 <= i < n && is_duplicate(ts, i) implies (#[trigger] q.tasks[i]).id
            >= next_id by {
            if i < n - 1 {
                assert(q.tasks[i] == r.tasks[i]);
            }
        }
    }
}

/// A repair loses nothing: every task is still there, in its place, and all of
/// it but its id and its parent is as it was. The first bearer of an id keeps
/// it, any other gets one past the counter that no task had, and a parent is at
/// most taken away.
pub proof fn law_repair_keeps_every_task(d: DataView)
    requires
        ids_suffice(d),
    ensures
        repaired(d).tasks.len() == d.tasks.len(),
        forall|i: int|
            0 <= i < d.tasks.len() ==> (#[trigger] repaired(d).tasks[i]) == (TaskView {
                id: repaired(d).tasks[i].id,
                parent: repaired(d).tasks[i].parent,
                ..d.tasks[i]
            }),
        forall|i: int|
            0 <= i < d.tasks.len() ==> (#[trigger] repaired(d).tasks[i]).parent == d.tasks[i].parent
                || repaired(d).tasks[i].parent is None,
        forall|i: int|
            0 <= i < d.tasks.len() && !has_id(d.tasks.take(i), (#[trigger] d.tasks[i]).id)
                ==> repaired(d).tasks[i].id == d.tasks[i].id,
        forall|i: int|
            0 <= i < d.tasks.len() && has_id(d.tasks.take(i), (#[trigger] d.tasks[i]).id)
                ==> !has_id(d.tasks, repaired(d).tasks[i].id) && repaired(d).tasks[i].id
                >= d.next_id,
{
    lemma_renumbering_keeps(d.tasks, d.next_id, d.tasks.len());
    lemma_ids_kept(d);
    let a = renumbered(d).tasks;
    let b = linked(d);
    let c = repaired_tasks(d);
    assert forall|i: int| 0 <= i < d.tasks.len() implies (#[trigger] c[i]) == (TaskView {
        id: c[i].id,
        parent: c[i].parent,
        ..d.tasks[i]
    }) && (c[i].parent == d.tasks[i].parent || c[i].parent is None) by {
        assert(a[i] == (TaskView { id: a[i].id, ..d.tasks[i] }));
        assert(b[i] == with_real_parent(a, a[i]));
    }
    lemma_ids_below_next(d.tasks, d.next_id, d.tasks.len());
    lemma_fresh_past_counter(d.tasks, d.next_id, d.tasks.len());
    assert forall|i: int| 0 <= i < d.tasks.len() implies c[i].id == (#[trigger] a[i]).id by {
        assert(b[i].id == a[i].id);
        assert(c[i].id == b[i].id);
    }
    assert forall|i: int|
        0 <= i < d.tasks.len() && !has_id(d.tasks.take(i), (#[trigger] d.tasks[i]).id) implies c[i].id
        == d.tasks[i].id by {
        assert(!is_duplicate(d.tasks, i));
        assert(c[i].id == a[i].id);
    }
    assert forall|i: int|
        0 <= i < d.tasks.len() && has_id(d.tasks.take(i), (#[trigger] d.tasks[i]).id) implies !has_id(
        d.tasks,
        c[i].id,
    ) && c[i].id >= d.next_id by {
        assert(is_duplicate(d.tasks, i));
        assert(c[i].id == a[i].id);
    }
}

proof fn lemma_parent_notes_iff(ts: Seq<TaskView>, n: nat)
    requires
        n <= ts.len(),
    ensures
        parent_notes(ts, n).len() == 0 <==> forall|i: int|
            0 <= i < n ==> !parent_missing(ts, #[trigger] ts[i]) && !own_parent(ts[i]),
    decreases n,
{
    if n > 0 {
        lemma_parent_notes_iff(ts, (n - 1) as nat);
    }
}

/// There is something to say exactly where a task was changed. Of the list as a
/// whole, a repair may besides raise the counter and the format version, which
/// it does without a word.
pub proof fn law_silent_means_tasks_unchanged(d: DataView)
    requires
        ids_suffice(d),
    ensures
        repair_notes(d).len() == 0 <==> repaired(d).tasks == d.tasks,
        repaired(d) == d <==> {
            &&& repair_notes(d).len() == 0
            &&& repaired(d).next_id == d.next_id
            &&& repaired(d).version == d.version
        },
{
    lemma_renumbering_keeps(d.tasks, d.next_id, d.tasks.len());
    lemma_ids_kept(d);
    let a = renumbered(d).tasks;
    let b = linked(d);
    let c = repaired_tasks(d);
    let cs = all_loops(b);
    assert(d.tasks.take(d.tasks.len() as int) =~= d.tasks);
    lemma_parent_notes_iff(a, a.len());
    lemma_loops_met(b, b.len());
    if repair_notes(d).len() == 0 {
        assert(a == d.tasks);
        assert(b =~= a);
        assert(cs.len() == 0);
        assert(c =~= b);
    } else if duplicate_notes(d).len() > 0 {
        assert(a != d.tasks);
        if c == d.tasks {
            assert(a =~= d.tasks) by {
                assert forall|i: int| 0 <= i < a.len() implies a[i] == d.tasks[i] by {
                    assert(a[i] == (TaskView { id: a[i].id, ..d.tasks[i] }));
                    assert(c[i].id == b[i].id);
                    assert(b[i].id == a[i].id);
                }
            }
        }
    } else if parent_notes(a, a.len()).len() > 0 {
        let i = choose|i: int|
            0 <= i < a.len() && (parent_missing(a, #[trigger] a[i]) || own_parent(a[i]));
        assert(a[i] == (TaskView { id: a[i].id, ..d.tasks[i] }));
        assert(b[i] == with_real_parent(a, a[i]));
        assert(c[i].parent is None);
        assert(d.tasks[i].parent is Some);
    } else {
        assert(cs.len() > 0);
        assert(is_loop(b, cs[0]));
        let e = choose|e: u32| #[trigger] cyclic(b, e) && cs[0] == loop_from(b, e);
        lemma_loop_from(b, e);
        lemma_lowest_in(cs[0]);
        let cut = lowest(cs[0]);
        let q = choose|q: int| 0 <= q < cs[0].len() && cs[0][q] == cut;
        assert(parent_of(b, loop_from(b, e)[q]) is Some);
        lemma_parent_of(b, cut);
        let i = choose|i: int|
            0 <= i < b.len() && (#[trigger] b[i]).id == cut && b[i].parent == parent_of(b, cut);
        assert(is_cut(cs, cut));
        assert(c[i].parent is None);
        assert(b[i] == with_real_parent(a, a[i]));
        assert(a[i].parent is Some);
        assert(d.tasks[i].parent is Some) by {
            assert(a[i] == (TaskView { id: a[i].id, ..d.tasks[i] }));
        }
    }
}

/// A walk up from a loop stays on it.
proof fn lemma_stays_on_loop(ts: Seq<TaskView>, e: u32, x: u32, k: nat)
    requires
        cyclic(ts, e),
        loop_from(ts, e).contains(x),
    ensures
        ancestor(ts, x, k) matches Some(y) && loop_from(ts, e).contains(y),
    decreases k,
{
    lemma_loop_from(ts, e);
    let c = loop_from(ts, e);
    if k > 0 {
        lemma_stays_on_loop(ts, e, x, (k - 1) as nat);
        let y = ancestor(ts, x, (k - 1) as nat)->0;
        let i = choose|i: int| 0 <= i < c.len() && c[i] == y;
        let j = if i + 1 < c.len() {
            i + 1
        } else {
            0
        };
        assert(parent_of(ts, c[i]) == Some(c[j]));
    }
}

/// Where a loop is cut: at the one task of it whose id is the lowest.
proof fn lemma_where_loops_are_cut(ts: Seq<TaskView>, i: int)
    requires
        unique_ids(ts),
        0 <= i < ts.len(),
    ensures
        is_cut(all_loops(ts), ts[i].id) <==> cyclic(ts, ts[i].id) && forall|k: nat|
            (#[trigger] ancestor(ts, ts[i].id, k)) matches Some(y) ==> ts[i].id <= y,
{
    let cs = all_loops(ts);
    let x = ts[i].id;
    lemma_loops_met(ts, ts.len());
    if is_cut(cs, x) {
        let j = choose|j: int| 0 <= j < cs.len() && lowest(#[trigger] cs[j]) == x;
        assert(is_loop(ts, cs[j]));
        let e = choose|e: u32| #[trigger] cyclic(ts, e) && cs[j] == loop_from(ts, e);
        lemma_loop_from(ts, e);
        lemma_lowest_in(cs[j]);
        let q = choose|q: int| 0 <= q < cs[j].len() && cs[j][q] == x;
        assert(cyclic(ts, loop_from(ts, e)[q]));
        assert forall|k: nat| (#[trigger] ancestor(ts, x, k)) matches Some(y) ==> x <= y by {
            lemma_stays_on_loop(ts, e, x, k);
            let y = ancestor(ts, x, k)->0;
            let p = choose|p: int| 0 <= p < cs[j].len() && cs[j][p] == y;
            assert(lowest(cs[j]) <= cs[j][p]);
        }
    }
    if cyclic(ts, x) && forall|k: nat|
        (#[trigger] ancestor(ts, x, k)) matches Some(y) ==> x <= y {
        lemma_way_in(ts, x);
        assert(ancestor(ts, x, 0) == Some(x));
        assert(on_loop_after(ts, x, 0));
        assert(way_in(ts, x) == Some(x));
        assert(on_any(cs, x)) by {
            assert(ts[i].id == x);
        }
        let j = choose|j: int| 0 <= j < cs.len() && (#[trigger] cs[j]).contains(x);
        assert(is_loop(ts, cs[j]));
        let e = choose|e: u32| #[trigger] cyclic(ts, e) && cs[j] == loop_from(ts, e);
        lemma_loop_from(ts, e);
        lemma_lowest_in(cs[j]);
        let p = choose|p: int| 0 <= p < cs[j].len() && cs[j][p] == x;
        let q = choose|q: int| 0 <= q < cs[j].len() && cs[j][q] == lowest(cs[j]);
        let m = lemma_loop_mates(ts, e, p, q);
        assert(ancestor(ts, x, m) == Some(lowest(cs[j])));
        assert(lowest(cs[j]) <= cs[j][p]);
        assert(lowest(cs[j]) == x);
    }
}

/// Which parents a repair takes away: one that is not there, one's own, and of
/// each loop the parent of the task with the lowest id. Every other stays.
pub proof fn law_which_parents_are_taken_away(d: DataView, i: int, p: u32)
    requires
        ids_suffice(d),
        0 <= i < d.tasks.len(),
        d.tasks[i].parent == Some(p),
    ensures
        ({
            let t = repaired(d).tasks[i];
            let lost = !has_id(repaired(d).tasks, p) || p == t.id;
            let cut = cyclic(linked(d), t.id) && forall|k: nat|
                (#[trigger] ancestor(linked(d), t.id, k)) matches Some(y) ==> t.id <= y;
            &&& lost || cut ==> t.parent is None
            &&& !lost && !cut ==> t.parent == Some(p)
            &&& linked(d).len() == d.tasks.len()
            &&& linked(d)[i].id == t.id
            &&& lost ==> linked(d)[i].parent is None
            &&& !lost ==> linked(d)[i].parent == Some(p)
        }),
{
    lemma_renumbering_keeps(d.tasks, d.next_id, d.tasks.len());
    lemma_ids_below_next(d.tasks, d.next_id, d.tasks.len());
    lemma_ids_kept(d);
    let a = renumbered(d).tasks;
    let b = linked(d);
    let c = repaired_tasks(d);
    assert(a[i] == (TaskView { id: a[i].id, ..d.tasks[i] }));
    assert(b[i] == with_real_parent(a, a[i]));
    assert(b[i].id == a[i].id);
    assert(c[i].id == b[i].id);
    assert(has_id(c, p) <==> has_id(b, p));
    assert(has_id(b, p) <==> has_id(a, p));
    assert(unique_ids(b)) by {
        assert forall|i: int, j: int| 0 <= i < j < b.len() implies (#[trigger] b[i]).id
            != (#[trigger] b[j]).id by {
            assert(a[i].id != a[j].id);
        }
    }
    lemma_where_loops_are_cut(b, i);
}

/// A repair says one thing of each task that it changes: of those that got
/// another id, then of those whose parent was not there, then of each loop.
pub proof fn law_every_repair_is_told(d: DataView)
    requires
        ids_suffice(d),
    ensures
        repair_notes(d).len() == renumbered(d).changes.len() + parent_notes(
            renumbered(d).tasks,
            d.tasks.len(),
        ).len() + all_loops(linked(d)).len(),
        renumbered(d).changes.len() == 0 <==> forall|i: int|
            0 <= i < d.tasks.len() ==> !has_id(d.tasks.take(i), (#[trigger] d.tasks[i]).id),
{
    lemma_renumbering_keeps(d.tasks, d.next_id, d.tasks.len());
    lemma_renumbering_len(d.tasks, d.next_id, d.tasks.len());
    let a = renumbered(d).tasks;
    assert(d.tasks.take(d.tasks.len() as int) =~= d.tasks);
    if renumbered(d).changes.len() == 0 {
        assert forall|i: int| 0 <= i < d.tasks.len() implies !has_id(
            d.tasks.take(i),
            (#[trigger] d.tasks[i]).id,
        ) by {
            assert(a[i].id == d.tasks[i].id);
            assert(!is_duplicate(d.tasks, i));
        }
    }
    if forall|i: int|
        0 <= i < d.tasks.len() ==> !has_id(d.tasks.take(i), (#[trigger] d.tasks[i]).id) {
        assert(a =~= d.tasks) by {
            assert forall|i: int| 0 <= i < a.len() implies a[i] == d.tasks[i] by {
                assert(!has_id(d.tasks.take(i), d.tasks[i].id));
                assert(!is_duplicate(d.tasks, i));
                assert(a[i] == (TaskView { id: a[i].id, ..d.tasks[i] }));
            }
        }
    }
}

/// A repair raises the format version to the present one, and the counter at
/// least to one; it never lowers either, and it leaves the last commit alone.
pub proof fn law_repair_raises_what_is_behind(d: DataView)
    requires
        ids_suffice(d),
    ensures
        repaired(d).version == (if d.version < 1 {
            1
        } else {
            d.version
        }),
        repaired(d).next_id >= d.next_id,
        repaired(d).next_id >= 1,
        repaired(d).last_commit == d.last_commit,
        forall|i: int|
            0 <= i < d.tasks.len() && (#[trigger] d.tasks[i]).id < u32::MAX ==> repaired(d).next_id
                > d.tasks[i].id,
        (forall|i: int| 0 <= i < d.tasks.len() ==> (#[trigger] d.tasks[i]).id < d.next_id)
            && unique_ids(d.tasks) && d.next_id >= 1 ==> repaired(d).next_id == d.next_id,
{
    let n = d.tasks.len();
    lemma_next_grows(d.tasks, d.next_id, n, n);
    assert forall|i: int| 0 <= i < n && (#[trigger] d.tasks[i]).id < u32::MAX implies repaired(
        d,
    ).next_id > d.tasks[i].id by {
        lemma_next_grows(d.tasks, d.next_id, i as nat, i as nat);
        lemma_one_step(d.tasks, d.next_id, (i + 1) as nat);
        lemma_next_grows(d.tasks, d.next_id, (i + 1) as nat, n);
    }
    if (forall|i: int| 0 <= i < n ==> (#[trigger] d.tasks[i]).id < d.next_id) && unique_ids(d.tasks)
        && d.next_id >= 1 {
        lemma_next_settled(d.tasks, d.next_id, n);
    }
}

} // verus!
