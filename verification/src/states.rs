//! What a change of state means.
//!
//! One implementation of the cascade rule, of clearing a stale `closed_by`, of
//! skipping tasks already in that state, and of what is recorded. Everything
//! that closes a task on request goes through it.

use crate::error::{Error, ErrorView};
use crate::forest::{below, has_id, task_views, unique_ids};
use crate::journal::{records, Entry, Record};
use crate::store::{
    coherent, data_ok, law_changes_in_place_keep_branches_together, lemma_lookup,
    lemma_lookup_at, lemma_same_links, lookup, whole, DataView, Store,
};
use crate::task::{State, Task, TaskView};
use crate::text::{as_opt, opt_str_view, own_opt};
use crate::time::Moment;
use vstd::prelude::*;

verus! {

/// The name of the event that a task's reaching `state` is.
pub open spec fn event_name(state: State) -> Seq<char> {
    match state {
        State::Done => "post-done"@,
        State::Doing => "post-start"@,
        State::Todo => "post-reopen"@,
    }
}

/// The hook fired when a task reaches `state`.
pub fn state_event(state: State) -> (r: &'static str)
    ensures
        r@ == event_name(state),
{
    match state {
        State::Done => "post-done",
        State::Doing => "post-start",
        State::Todo => "post-reopen",
    }
}

/// An entry, without its time.
pub open spec fn record_of(
    action: Seq<char>,
    actor: Option<Seq<char>>,
    id: u32,
    detail: Option<Seq<char>>,
    branch: Option<Seq<char>>,
) -> Record {
    Record { actor, action, id: Some(id), detail, branch }
}

/// An entry written now.
pub fn entry(
    action: &str,
    actor: Option<&str>,
    id: u32,
    detail: Option<&str>,
    branch: Option<&str>,
) -> (r: Entry)
    ensures
        r@.record() == record_of(
            action@,
            opt_str_view(actor),
            id,
            opt_str_view(detail),
            opt_str_view(branch),
        ),
{
    let e = Entry::new(action).actor(own_opt(actor)).id(id).branch(branch);
    match detail {
        Some(d) => e.detail(d),
        None => e,
    }
}

/// A list of tasks on the way from one state to another.
#[verifier::ext_equal]
pub struct Change {
    pub tasks: Seq<TaskView>,
    /// What changed, as it is now.
    pub touched: Seq<TaskView>,
    pub records: Seq<Record>,
}

/// `t` in `state`. A reopened task stops naming the commit that closed it.
pub open spec fn put_in(t: TaskView, state: State, now: Moment) -> TaskView {
    TaskView {
        state,
        updated: now,
        closed_by: if state == State::Done {
            t.closed_by
        } else {
            None
        },
        ..t
    }
}

/// One task put in `state`, unless it is there or there is no such task.
pub open spec fn put_one(
    c: Change,
    target: u32,
    state: State,
    actor: Option<Seq<char>>,
    now: Moment,
) -> Change {
    match lookup(c.tasks, target) {
        None => c,
        Some(i) => if c.tasks[i].state == state {
            c
        } else {
            let t = put_in(c.tasks[i], state, now);
            Change {
                tasks: c.tasks.update(i, t),
                touched: c.touched.push(t),
                records: c.records.push(
                    record_of(state.name_of(), actor, target, Some(t.title), t.branch),
                ),
            }
        },
    }
}

/// The first `n` targets put in `state`, one after the other.
pub open spec fn put_all(
    ts: Seq<TaskView>,
    targets: Seq<u32>,
    n: nat,
    state: State,
    actor: Option<Seq<char>>,
    now: Moment,
) -> Change
    decreases n,
{
    if n == 0 {
        Change { tasks: ts, touched: Seq::empty(), records: Seq::empty() }
    } else {
        put_one(
            put_all(ts, targets, (n - 1) as nat, state, actor, now),
            targets[n - 1],
            state,
            actor,
            now,
        )
    }
}

/// Whom a request for `id` concerns: closing a task closes its subtree, and
/// nothing else cascades. Reopening a parent to add one more subtask should not
/// undo the twelve already finished.
pub open spec fn concerned(ts: Seq<TaskView>, id: u32, state: State) -> Seq<u32> {
    if state == State::Done {
        whole(ts, id)
    } else {
        seq![id]
    }
}

/// Whom a request for several ids concerns, one id after the other.
pub open spec fn all_concerned(ts: Seq<TaskView>, ids: Seq<u32>, state: State) -> Seq<u32>
    decreases ids.len(),
{
    if ids.len() == 0 {
        Seq::empty()
    } else {
        all_concerned(ts, ids.drop_last(), state) + concerned(ts, ids.last(), state)
    }
}

/// The list after `ids` were put in `state`, with what changed and what is
/// recorded.
pub open spec fn applied(
    ts: Seq<TaskView>,
    ids: Seq<u32>,
    state: State,
    actor: Option<Seq<char>>,
    now: Moment,
) -> Change {
    let targets = all_concerned(ts, ids, state);
    put_all(ts, targets, targets.len(), state, actor, now)
}

/// Neither parents nor branches change.
proof fn lemma_put_all_links(
    ts: Seq<TaskView>,
    targets: Seq<u32>,
    n: nat,
    state: State,
    actor: Option<Seq<char>>,
    now: Moment,
)
    requires
        n <= targets.len(),
    ensures
        ({
            let c = put_all(ts, targets, n, state, actor, now).tasks;
            &&& c.len() == ts.len()
            &&& forall|i: int|
                0 <= i < ts.len() ==> (#[trigger] c[i]).id == ts[i].id && c[i].parent
                    == ts[i].parent && c[i].branch == ts[i].branch
        }),
    decreases n,
{
    if n > 0 {
        lemma_put_all_links(ts, targets, (n - 1) as nat, state, actor, now);
        let p = put_all(ts, targets, (n - 1) as nat, state, actor, now);
        lemma_lookup(p.tasks, targets[n - 1]);
    }
}

/// A change of state changes neither parents nor branches.
pub proof fn lemma_applied_links(
    ts: Seq<TaskView>,
    ids: Seq<u32>,
    state: State,
    actor: Option<Seq<char>>,
    now: Moment,
)
    ensures
        ({
            let c = applied(ts, ids, state, actor, now).tasks;
            &&& c.len() == ts.len()
            &&& forall|i: int|
                0 <= i < ts.len() ==> (#[trigger] c[i]).id == ts[i].id && c[i].parent
                    == ts[i].parent && c[i].branch == ts[i].branch
        }),
{
    let targets = all_concerned(ts, ids, state);
    lemma_put_all_links(ts, targets, targets.len(), state, actor, now);
}

/// Moves tasks to `state`, returning what changed and the journal to match.
pub fn apply_state(
    store: &mut Store,
    actor: Option<&str>,
    now: Moment,
    ids: &Vec<u32>,
    state: State,
) -> (r: (Vec<Task>, Vec<Entry>))
    ensures
        ({
            let c = applied(old(store)@.tasks, ids@, state, opt_str_view(actor), now);
            &&& final(store)@ == (DataView { tasks: c.tasks, ..old(store)@ })
            &&& task_views(r.0@) == c.touched
            &&& records(r.1@) == c.records
        }),
        final(store).kept(*old(store)),
        old(store).wf() ==> final(store).wf(),
{
    let ghost was = store@;
    let ghost ts = store@.tasks;
    let ghost who = opt_str_view(actor);
    let ghost all = all_concerned(ts, ids@, state);
    let mut touched: Vec<Task> = Vec::new();
    let mut entries: Vec<Entry> = Vec::new();
    let ghost mut n: nat = 0;
    let mut k: usize = 0;
    proof {
        assert(task_views(touched@) =~= Seq::empty());
        assert(records(entries@) =~= Seq::empty());
        assert(all_concerned(ts, ids@.take(0), state) =~= Seq::empty());
        lemma_all_concerned_prefix(ts, ids@, 0, state);
    }
    while k < ids.len()
        invariant
            k <= ids@.len(),
            ts == was.tasks,
            who == opt_str_view(actor),
            all == all_concerned(ts, ids@, state),
            n == all_concerned(ts, ids@.take(k as int), state).len(),
            n <= all.len(),
            store.kept(*old(store)),
            store@ == (DataView { tasks: put_all(ts, all, n, state, who, now).tasks, ..was }),
            task_views(touched@) == put_all(ts, all, n, state, who, now).touched,
            records(entries@) == put_all(ts, all, n, state, who, now).records,
        decreases ids@.len() - k,
    {
        let id: u32 = ids[k];
        let mut targets: Vec<u32> = Vec::new();
        targets.push(id);
        if state == State::Done {
            let mut rest = store.descendants(id);
            targets.append(&mut rest);
        }
        let ghost base = n;
        proof {
            lemma_put_all_links(ts, all, n, state, who, now);
            lemma_same_links(ts, store@.tasks);
            assert(targets@ =~= concerned(ts, id, state));
            lemma_all_concerned_prefix(ts, ids@, (k + 1) as nat, state);
            assert(ids@.take(k + 1).drop_last() =~= ids@.take(k as int));
            let upto = all_concerned(ts, ids@.take(k + 1), state);
            assert(upto == all_concerned(ts, ids@.take(k as int), state) + targets@);
            assert forall|i: int| 0 <= i < targets@.len() implies all[base + i] == targets@[i] by {
                assert(upto[base + i] == targets@[i]);
                assert(all[base + i] == upto[base + i]);
            }
        }
        let mut j: usize = 0;
        while j < targets.len()
            invariant
                j <= targets@.len(),
                ts == was.tasks,
                who == opt_str_view(actor),
                n == base + j,
                base + targets@.len() <= all.len(),
                forall|i: int| 0 <= i < targets@.len() ==> all[base + i] == #[trigger] targets@[i],
                store.kept(*old(store)),
                store@ == (DataView { tasks: put_all(ts, all, n, state, who, now).tasks, ..was }),
                task_views(touched@) == put_all(ts, all, n, state, who, now).touched,
                records(entries@) == put_all(ts, all, n, state, who, now).records,
            decreases targets@.len() - j,
        {
            let target: u32 = targets[j];
            let ghost before = put_all(ts, all, n, state, who, now);
            let ghost touched0 = touched@;
            let ghost entries0 = entries@;
            assert(all[n as int] == target);
            if let Some(task) = store.get_mut(target) {
                if task.state != state {
                    task.state = state;
                    task.updated = now;
                    if state != State::Done {
                        task.closed_by = None;
                    }
                    let snapshot = task.clone();
                    let e = entry(
                        state.as_str(),
                        actor,
                        target,
                        Some(snapshot.title.as_str()),
                        as_opt(&snapshot.branch),
                    );
                    entries.push(e);
                    touched.push(snapshot);
                    proof {
                        assert(task_views(touched@) =~= task_views(touched0).push(snapshot@));
                        assert(records(entries@) =~= records(entries0).push(e@.record()));
                    }
                }
            }
            proof {
                n = n + 1;
                let after = put_all(ts, all, n, state, who, now);
                assert(after == put_one(before, target, state, who, now));
                lemma_lookup(before.tasks, target);
                assert(store@.tasks =~= after.tasks);
            }
            j += 1;
        }
        k += 1;
    }
    proof {
        assert(ids@.take(k as int) =~= ids@);
        lemma_put_all_links(ts, all, n, state, who, now);
        lemma_same_links(ts, store@.tasks);
        if data_ok(was) {
            assert forall|i: int| 0 <= i < store@.tasks.len() implies (#[trigger] store@.tasks[i]).id
                < store@.next_id || store@.next_id == u32::MAX by {
                assert(ts[i].id < was.next_id || was.next_id == u32::MAX);
            }
        }
    }
    (touched, entries)
}

/// Whom the first ids concern comes first.
proof fn lemma_all_concerned_prefix(ts: Seq<TaskView>, ids: Seq<u32>, k: nat, state: State)
    requires
        k <= ids.len(),
    ensures
        all_concerned(ts, ids.take(k as int), state).len() <= all_concerned(ts, ids, state).len(),
        forall|i: int|
            0 <= i < all_concerned(ts, ids.take(k as int), state).len() ==> #[trigger] all_concerned(
                ts,
                ids.take(k as int),
                state,
            )[i] == all_concerned(ts, ids, state)[i],
    decreases ids.len() - k,
{
    if k == ids.len() {
        assert(ids.take(k as int) =~= ids);
    } else {
        lemma_all_concerned_prefix(ts, ids, k + 1, state);
        assert(ids.take((k + 1) as int).drop_last() =~= ids.take(k as int));
        let a = all_concerned(ts, ids.take(k as int), state);
        let b = all_concerned(ts, ids.take((k + 1) as int), state);
        assert(b == a + concerned(ts, ids[k as int], state));
        assert forall|i: int| 0 <= i < a.len() implies #[trigger] a[i] == all_concerned(
            ts,
            ids,
            state,
        )[i] by {
            assert(b[i] == a[i]);
        }
    }
}

/// The first of `ids`, from `i` on, that no task has.
pub open spec fn missing_from(ts: Seq<TaskView>, ids: Seq<u32>, i: int) -> Option<u32>
    decreases ids.len() - i,
{
    if i < 0 || i >= ids.len() {
        None
    } else if !has_id(ts, ids[i]) {
        Some(ids[i])
    } else {
        missing_from(ts, ids, i + 1)
    }
}

/// The first of `ids` that no task has.
pub open spec fn first_missing(ts: Seq<TaskView>, ids: Seq<u32>) -> Option<u32> {
    missing_from(ts, ids, 0)
}

/// Refuses a request that names a task that is not there.
pub fn require_all(store: &Store, ids: &Vec<u32>) -> (r: Result<(), Error>)
    ensures
        match r {
            Ok(_) => first_missing(store@.tasks, ids@) is None,
            Err(e) => first_missing(store@.tasks, ids@) matches Some(id) && e@ == (
            ErrorView::NoTask { id }),
        },
{
    let mut i: usize = 0;
    while i < ids.len()
        invariant
            i <= ids@.len(),
            first_missing(store@.tasks, ids@) == missing_from(store@.tasks, ids@, i as int),
        decreases ids@.len() - i,
    {
        proof {
            lemma_lookup(store@.tasks, ids@[i as int]);
        }
        match store.require(ids[i]) {
            Ok(_) => {},
            Err(e) => {
                return Err(e);
            },
        }
        i += 1;
    }
    Ok(())
}

/// The outcome of a change of state.
pub struct StateChange {
    /// What changed, as it is now.
    pub touched: Vec<Task>,
    pub entries: Vec<Entry>,
    /// The tasks to fire hooks for: those that were named, not every task the
    /// cascade swept up. Closing a parent with twenty children should not spawn
    /// twenty-one processes.
    pub fire: Vec<Task>,
}

/// Those of `touched` that were named.
pub open spec fn named(touched: Seq<TaskView>, ids: Seq<u32>) -> Seq<TaskView> {
    touched.filter(|t: TaskView| ids.contains(t.id))
}

fn contains_number(ids: &Vec<u32>, x: u32) -> (r: bool)
    ensures
        r == ids@.contains(x),
{
    let mut i: usize = 0;
    while i < ids.len()
        invariant
            i <= ids@.len(),
            forall|k: int| 0 <= k < i ==> ids@[k] != x,
        decreases ids@.len() - i,
    {
        if ids[i] == x {
            return true;
        }
        i += 1;
    }
    false
}

/// Those of `touched` that were named.
pub fn named_among(touched: &Vec<Task>, ids: &Vec<u32>) -> (r: Vec<Task>)
    ensures
        task_views(r@) == named(task_views(touched@), ids@),
{
    let ghost ts = task_views(touched@);
    let ghost p = |t: TaskView| ids@.contains(t.id);
    let mut out: Vec<Task> = Vec::new();
    let mut i: usize = 0;
    proof {
        reveal(Seq::filter);
        assert(task_views(out@) =~= ts.take(0).filter(p));
    }
    while i < touched.len()
        invariant
            i <= touched@.len(),
            ts == task_views(touched@),
            p == |t: TaskView| ids@.contains(t.id),
            task_views(out@) == ts.take(i as int).filter(p),
        decreases touched@.len() - i,
    {
        let ghost before = out@;
        let t = &touched[i];
        let hit = contains_number(ids, t.id);
        if hit {
            out.push(t.clone());
        }
        proof {
            reveal(Seq::filter);
            assert(ts.take(i + 1).drop_last() =~= ts.take(i as int));
            assert(ts.take(i + 1).last() == t@);
            if hit {
                assert(task_views(out@) =~= task_views(before).push(t@));
            }
        }
        i += 1;
    }
    assert(ts.take(i as int) =~= ts);
    out
}

/// Puts tasks in a state, on request.
///
/// Everything is validated before anything is touched: a typo in the third id
/// shouldn't leave the first two half-applied.
pub fn cmd_set_state(
    store: &mut Store,
    actor: Option<&str>,
    now: Moment,
    ids: &Vec<u32>,
    state: State,
) -> (r: Result<StateChange, Error>)
    ensures
        match r {
            Ok(change) => first_missing(old(store)@.tasks, ids@) is None && ({
                let c = applied(old(store)@.tasks, ids@, state, opt_str_view(actor), now);
                &&& final(store)@ == (DataView { tasks: c.tasks, ..old(store)@ })
                &&& task_views(change.touched@) == c.touched
                &&& records(change.entries@) == c.records
                &&& task_views(change.fire@) == named(c.touched, ids@)
                &&& old(store).wf() ==> forall|i: int|
                    0 <= i < old(store)@.tasks.len() ==> (#[trigger] final(store)@.tasks[i]).state
                        == (if is_asked(old(store)@.tasks, ids@, state, old(store)@.tasks[i].id) {
                        state
                    } else {
                        old(store)@.tasks[i].state
                    })
            }),
            Err(e) => first_missing(old(store)@.tasks, ids@) matches Some(id) && e@ == (
            ErrorView::NoTask { id }) && final(store)@ == old(store)@,
        },
        final(store).kept(*old(store)),
        old(store).wf() ==> final(store).wf(),
{
    match require_all(store, ids) {
        Ok(_) => {},
        Err(e) => {
            return Err(e);
        },
    }
    proof {
        let ts = store@.tasks;
        let who = opt_str_view(actor);
        if unique_ids(ts) {
            assert forall|i: int| 0 <= i < ts.len() implies (#[trigger] applied(
                ts,
                ids@,
                state,
                who,
                now,
            ).tasks[i]).state == (if is_asked(ts, ids@, state, ts[i].id) {
                state
            } else {
                ts[i].state
            }) by {
                law_requests_reach_whom_they_are_about(ts, ids@, state, who, now, i);
            }
        }
    }
    let (touched, entries) = apply_state(store, actor, now, ids, state);
    let fire = named_among(&touched, ids);
    Ok(StateChange { touched, entries, fire })
}

/// What is said when there was nothing to change.
pub fn already(state: State) -> (r: String)
    ensures
        r@ == "  Already "@ + state.name_of() + "."@,
{
    let mut out = crate::text::cat("  Already ", state.as_str());
    out.append(".");
    out
}

// ---------------------------------------------------------------------------
// What a change of state guarantees
// ---------------------------------------------------------------------------

/// A task after it was asked to be in `state`, where that concerned it.
pub open spec fn put_if(t: TaskView, concerned: bool, state: State, now: Moment) -> TaskView {
    if concerned && t.state != state {
        put_in(t, state, now)
    } else {
        t
    }
}

proof fn lemma_put_all_pointwise(
    ts: Seq<TaskView>,
    targets: Seq<u32>,
    n: nat,
    state: State,
    actor: Option<Seq<char>>,
    now: Moment,
)
    requires
        unique_ids(ts),
        n <= targets.len(),
    ensures
        ({
            let c = put_all(ts, targets, n, state, actor, now).tasks;
            &&& c.len() == ts.len()
            &&& forall|i: int|
                0 <= i < ts.len() ==> (#[trigger] c[i]) == put_if(
                    ts[i],
                    targets.take(n as int).contains(ts[i].id),
                    state,
                    now,
                )
        }),
    decreases n,
{
    if n > 0 {
        lemma_put_all_pointwise(ts, targets, (n - 1) as nat, state, actor, now);
        let p = put_all(ts, targets, (n - 1) as nat, state, actor, now).tasks;
        let c = put_all(ts, targets, n, state, actor, now).tasks;
        let x = targets[n - 1];
        let a = targets.take(n - 1);
        let b = targets.take(n as int);
        assert forall|y: u32| #[trigger] b.contains(y) <==> a.contains(y) || y == x by {
            if a.contains(y) {
                let j = choose|j: int| 0 <= j < a.len() && a[j] == y;
                assert(b[j] == y);
            }
            if y == x {
                assert(b[n - 1] == y);
            }
            if b.contains(y) && y != x {
                let j = choose|j: int| 0 <= j < b.len() && b[j] == y;
                assert(a[j] == y);
            }
        }
        assert(unique_ids(p)) by {
            assert forall|i: int, j: int| 0 <= i < j < p.len() implies (#[trigger] p[i]).id
                != (#[trigger] p[j]).id by {
                assert(ts[i].id != ts[j].id);
            }
        }
        lemma_lookup(p, x);
        assert forall|i: int| 0 <= i < ts.len() implies (#[trigger] c[i]) == put_if(
            ts[i],
            b.contains(ts[i].id),
            state,
            now,
        ) by {
            assert(p[i] == put_if(ts[i], a.contains(ts[i].id), state, now));
            assert(p[i].id == ts[i].id);
            if ts[i].id == x {
                lemma_lookup_at(p, i);
            } else {
                assert(b.contains(ts[i].id) <==> a.contains(ts[i].id));
            }
        }
    } else {
        assert(targets.take(0) =~= Seq::<u32>::empty());
    }
}

/// Whom a request concerns: the ids named, and for closing whatever lies below
/// them.
proof fn lemma_all_concerned(ts: Seq<TaskView>, ids: Seq<u32>, state: State)
    requires
        unique_ids(ts),
    ensures
        forall|x: u32| #[trigger]
            all_concerned(ts, ids, state).contains(x) <==> exists|k: int|
                0 <= k < ids.len() && (x == #[trigger] ids[k] || (state == State::Done && below(
                    ts,
                    ids[k],
                ).contains(x))),
    decreases ids.len(),
{
    if ids.len() > 0 {
        let r = ids.drop_last();
        let y = ids.last();
        lemma_all_concerned(ts, r, state);
        let a = all_concerned(ts, r, state);
        let b = concerned(ts, y, state);
        crate::forest::lemma_contains_concat(a, b);
        crate::forest::lemma_contains_concat(seq![y], below(ts, y));
        assert(seq![y][0] == y);
        assert forall|x: u32| #[trigger] b.contains(x) <==> x == y || (state == State::Done && below(
            ts,
            y,
        ).contains(x)) by {
            assert(seq![y].contains(x) <==> x == y) by {
                if x == y {
                    assert(seq![y][0] == x);
                }
            }
        }
        assert forall|x: u32| #[trigger] (a + b).contains(x) <==> exists|k: int|
            0 <= k < ids.len() && (x == #[trigger] ids[k] || (state == State::Done && below(
                ts,
                ids[k],
            ).contains(x))) by {
            if a.contains(x) {
                let k = choose|k: int|
                    0 <= k < r.len() && (x == #[trigger] r[k] || (state == State::Done && below(
                        ts,
                        r[k],
                    ).contains(x)));
                assert(ids[k] == r[k]);
            }
            if b.contains(x) {
                assert(ids[ids.len() - 1] == y);
            }
            if exists|k: int|
                0 <= k < ids.len() && (x == #[trigger] ids[k] || (state == State::Done && below(
                    ts,
                    ids[k],
                ).contains(x))) {
                let k = choose|k: int|
                    0 <= k < ids.len() && (x == #[trigger] ids[k] || (state == State::Done && below(
                        ts,
                        ids[k],
                    ).contains(x)));
                if k < r.len() {
                    assert(r[k] == ids[k]);
                    assert(a.contains(x));
                }
            }
        }
    }
}

/// A change of state changes exactly the tasks it concerns that are not in that
/// state yet, and nothing about them but the state, the time and, when they are
/// reopened, the commit.
pub proof fn law_state_change_is_exact(
    ts: Seq<TaskView>,
    ids: Seq<u32>,
    state: State,
    actor: Option<Seq<char>>,
    now: Moment,
)
    requires
        unique_ids(ts),
    ensures
        applied(ts, ids, state, actor, now).tasks == Seq::new(
            ts.len(),
            |i: int| put_if(ts[i], all_concerned(ts, ids, state).contains(ts[i].id), state, now),
        ),
{
    let targets = all_concerned(ts, ids, state);
    lemma_put_all_pointwise(ts, targets, targets.len(), state, actor, now);
    assert(targets.take(targets.len() as int) =~= targets);
    assert(applied(ts, ids, state, actor, now).tasks =~= Seq::new(
        ts.len(),
        |i: int| put_if(ts[i], targets.contains(ts[i].id), state, now),
    ));
}

/// Closing a task closes everything below it.
pub proof fn law_closing_cascades(
    ts: Seq<TaskView>,
    ids: Seq<u32>,
    actor: Option<Seq<char>>,
    now: Moment,
    k: int,
    i: int,
)
    requires
        unique_ids(ts),
        0 <= k < ids.len(),
        0 <= i < ts.len(),
        ts[i].id == ids[k] || crate::forest::under(ts, ts[i].id, ids[k]),
    ensures
        applied(ts, ids, State::Done, actor, now).tasks[i].state == State::Done,
{
    law_state_change_is_exact(ts, ids, State::Done, actor, now);
    lemma_all_concerned(ts, ids, State::Done);
    crate::forest::lemma_below(ts, ids[k]);
    assert(has_id(ts, ts[i].id));
    assert(all_concerned(ts, ids, State::Done).contains(ts[i].id)) by {
        assert(ts[i].id == ids[k] || below(ts, ids[k]).contains(ts[i].id));
    }
}

/// Starting and reopening do not cascade: a task that was not named stays as it
/// was.
pub proof fn law_only_closing_cascades(
    ts: Seq<TaskView>,
    ids: Seq<u32>,
    state: State,
    actor: Option<Seq<char>>,
    now: Moment,
    i: int,
)
    requires
        unique_ids(ts),
        state != State::Done,
        0 <= i < ts.len(),
        !ids.contains(ts[i].id),
    ensures
        applied(ts, ids, state, actor, now).tasks[i] == ts[i],
{
    law_state_change_is_exact(ts, ids, state, actor, now);
    lemma_all_concerned(ts, ids, state);
    if all_concerned(ts, ids, state).contains(ts[i].id) {
        let k = choose|k: int|
            0 <= k < ids.len() && (ts[i].id == #[trigger] ids[k] || (state == State::Done && below(
                ts,
                ids[k],
            ).contains(ts[i].id)));
        assert(ids.contains(ts[i].id));
    }
}

/// A task that a request takes out of done no longer names a commit.
pub proof fn law_reopened_tasks_name_no_commit(
    ts: Seq<TaskView>,
    ids: Seq<u32>,
    state: State,
    actor: Option<Seq<char>>,
    now: Moment,
    i: int,
)
    requires
        unique_ids(ts),
        state != State::Done,
        0 <= i < ts.len(),
        ts[i].state == State::Done,
        ids.contains(ts[i].id),
    ensures
        applied(ts, ids, state, actor, now).tasks[i].state == state,
        applied(ts, ids, state, actor, now).tasks[i].closed_by is None,
{
    law_state_change_is_exact(ts, ids, state, actor, now);
    lemma_all_concerned(ts, ids, state);
    let k = choose|k: int| 0 <= k < ids.len() && ids[k] == ts[i].id;
    assert(ts[i].id == ids[k]);
}

/// Asking twice changes nothing the second time.
pub proof fn law_asking_twice_changes_nothing(
    ts: Seq<TaskView>,
    ids: Seq<u32>,
    state: State,
    actor: Option<Seq<char>>,
    now: Moment,
    later: Moment,
)
    requires
        unique_ids(ts),
    ensures
        ({
            let once = applied(ts, ids, state, actor, now).tasks;
            let twice = applied(once, ids, state, actor, later);
            twice.tasks == once && twice.touched.len() == 0 && twice.records.len() == 0
        }),
{
    let once = applied(ts, ids, state, actor, now).tasks;
    let targets = all_concerned(ts, ids, state);
    law_state_change_is_exact(ts, ids, state, actor, now);
    assert(once.len() == ts.len());
    assert forall|i: int| 0 <= i < ts.len() implies (#[trigger] once[i]).id == ts[i].id && once[i].parent
        == ts[i].parent by {}
    lemma_same_links(ts, once);
    lemma_same_concerned(ts, once, ids, state);
    assert(unique_ids(once)) by {
        assert forall|i: int, j: int| 0 <= i < j < once.len() implies (#[trigger] once[i]).id
            != (#[trigger] once[j]).id by {
            assert(ts[i].id != ts[j].id);
        }
    }
    lemma_settled_stays(once, targets, targets.len(), state, actor, later);
}

proof fn lemma_same_concerned(a: Seq<TaskView>, b: Seq<TaskView>, ids: Seq<u32>, state: State)
    requires
        forall|x: u32| #[trigger] below(b, x) == below(a, x),
    ensures
        all_concerned(b, ids, state) == all_concerned(a, ids, state),
    decreases ids.len(),
{
    if ids.len() > 0 {
        lemma_same_concerned(a, b, ids.drop_last(), state);
        assert(below(b, ids.last()) == below(a, ids.last()));
    }
}

proof fn lemma_settled_stays(
    ts: Seq<TaskView>,
    targets: Seq<u32>,
    n: nat,
    state: State,
    actor: Option<Seq<char>>,
    now: Moment,
)
    requires
        unique_ids(ts),
        n <= targets.len(),
        forall|i: int|
            0 <= i < ts.len() && targets.contains((#[trigger] ts[i]).id) ==> ts[i].state == state,
    ensures
        put_all(ts, targets, n, state, actor, now).tasks == ts,
        put_all(ts, targets, n, state, actor, now).touched.len() == 0,
        put_all(ts, targets, n, state, actor, now).records.len() == 0,
    decreases n,
{
    if n > 0 {
        lemma_settled_stays(ts, targets, (n - 1) as nat, state, actor, now);
        lemma_lookup(ts, targets[n - 1]);
        assert(targets.contains(targets[n - 1]));
    }
}

/// Changing states splits no tree.
pub proof fn law_state_changes_keep_branches_together(
    ts: Seq<TaskView>,
    ids: Seq<u32>,
    state: State,
    actor: Option<Seq<char>>,
    now: Moment,
)
    requires
        coherent(ts),
    ensures
        coherent(applied(ts, ids, state, actor, now).tasks),
{
    lemma_applied_links(ts, ids, state, actor, now);
    law_changes_in_place_keep_branches_together(ts, applied(ts, ids, state, actor, now).tasks);
}

/// Every change of state is recorded, under its own name and with whom it is
/// attributed to: one entry for each task that changed, in the same order.
pub proof fn law_every_state_change_is_recorded(
    ts: Seq<TaskView>,
    ids: Seq<u32>,
    state: State,
    actor: Option<Seq<char>>,
    now: Moment,
)
    ensures
        ({
            let c = applied(ts, ids, state, actor, now);
            &&& c.records.len() == c.touched.len()
            &&& forall|i: int|
                0 <= i < c.touched.len() ==> {
                    &&& (#[trigger] c.touched[i]).state == state
                    &&& c.records[i] == record_of(
                        state.name_of(),
                        actor,
                        c.touched[i].id,
                        Some(c.touched[i].title),
                        c.touched[i].branch,
                    )
                }
        }),
{
    let targets = all_concerned(ts, ids, state);
    lemma_put_all_recorded(ts, targets, targets.len(), state, actor, now);
}

proof fn lemma_put_all_recorded(
    ts: Seq<TaskView>,
    targets: Seq<u32>,
    n: nat,
    state: State,
    actor: Option<Seq<char>>,
    now: Moment,
)
    requires
        n <= targets.len(),
    ensures
        ({
            let c = put_all(ts, targets, n, state, actor, now);
            &&& c.records.len() == c.touched.len()
            &&& forall|i: int|
                0 <= i < c.touched.len() ==> {
                    &&& (#[trigger] c.touched[i]).state == state
                    &&& c.records[i] == record_of(
                        state.name_of(),
                        actor,
                        c.touched[i].id,
                        Some(c.touched[i].title),
                        c.touched[i].branch,
                    )
                }
        }),
    decreases n,
{
    if n > 0 {
        let p = put_all(ts, targets, (n - 1) as nat, state, actor, now);
        lemma_put_all_recorded(ts, targets, (n - 1) as nat, state, actor, now);
        lemma_lookup(p.tasks, targets[n - 1]);
        let c = put_all(ts, targets, n, state, actor, now);
        assert forall|i: int| 0 <= i < c.touched.len() implies {
            &&& (#[trigger] c.touched[i]).state == state
            &&& c.records[i] == record_of(
                state.name_of(),
                actor,
                c.touched[i].id,
                Some(c.touched[i].title),
                c.touched[i].branch,
            )
        } by {
            if i < p.touched.len() {
                assert(p.touched[i].state == state);
            }
        }
    }
}

/// Whether a request for `ids` to be in `state` is about a task: it was named,
/// or it is closed along with a task above it.
pub open spec fn is_asked(ts: Seq<TaskView>, ids: Seq<u32>, state: State, x: u32) -> bool {
    ids.contains(x) || (state == State::Done && exists|k: int|
        0 <= k < ids.len() && crate::forest::under(ts, x, #[trigger] ids[k]))
}

/// A request puts every task that it is about, and that is not there yet, in the
/// state it asks for. Of such a task the time changes too, and one that is not
/// done any more names no commit; all else of it stays, and so does every other
/// task.
pub proof fn law_requests_reach_whom_they_are_about(
    ts: Seq<TaskView>,
    ids: Seq<u32>,
    state: State,
    actor: Option<Seq<char>>,
    now: Moment,
    i: int,
)
    requires
        unique_ids(ts),
        0 <= i < ts.len(),
    ensures
        ({
            let after = applied(ts, ids, state, actor, now).tasks;
            &&& after.len() == ts.len()
            &&& is_asked(ts, ids, state, ts[i].id) && ts[i].state != state ==> after[i] == (
            TaskView {
                state,
                updated: now,
                closed_by: if state == State::Done {
                    ts[i].closed_by
                } else {
                    None
                },
                ..ts[i]
            })
            &&& !is_asked(ts, ids, state, ts[i].id) || ts[i].state == state ==> after[i] == ts[i]
        }),
{
    law_state_change_is_exact(ts, ids, state, actor, now);
    lemma_all_concerned(ts, ids, state);
    let x = ts[i].id;
    assert(has_id(ts, x));
    if all_concerned(ts, ids, state).contains(x) {
        let k = choose|k: int|
            0 <= k < ids.len() && (x == #[trigger] ids[k] || (state == State::Done && below(
                ts,
                ids[k],
            ).contains(x)));
        crate::forest::lemma_below(ts, ids[k]);
        assert(ids.contains(ids[k]));
        assert(is_asked(ts, ids, state, x));
    }
    if is_asked(ts, ids, state, x) {
        if ids.contains(x) {
            let k = choose|k: int| 0 <= k < ids.len() && ids[k] == x;
            assert(ids[k] == x);
        } else {
            let k = choose|k: int|
                0 <= k < ids.len() && crate::forest::under(ts, x, #[trigger] ids[k]);
            crate::forest::lemma_below(ts, ids[k]);
            assert(x != ids[k]) by {
                if x == ids[k] {
                    assert(ids.contains(x));
                }
            }
            assert(below(ts, ids[k]).contains(x));
        }
        assert(all_concerned(ts, ids, state).contains(x));
    }
}

/// What is reported of a request are the tasks that it changed, as they are now,
/// each once.
pub proof fn law_requests_report_what_they_changed(
    ts: Seq<TaskView>,
    ids: Seq<u32>,
    state: State,
    actor: Option<Seq<char>>,
    now: Moment,
)
    requires
        unique_ids(ts),
    ensures
        ({
            let c = applied(ts, ids, state, actor, now);
            &&& forall|k: int| 0 <= k < c.touched.len() ==> #[trigger] touched_at(ts, c, state, k)
            &&& forall|i: int|
                0 <= i < ts.len() && (#[trigger] c.tasks[i]) != ts[i] ==> c.touched.contains(
                    c.tasks[i],
                )
            &&& forall|j: int, k: int|
                0 <= j < k < c.touched.len() ==> (#[trigger] c.touched[j]).id != (
                #[trigger] c.touched[k]).id
        }),
{
    let targets = all_concerned(ts, ids, state);
    lemma_put_all_reported(ts, targets, targets.len(), state, actor, now);
}

/// Whether the `k`-th task reported is one of the list as it is now, in the
/// state asked for, in which it was not before.
pub open spec fn touched_at(ts: Seq<TaskView>, c: Change, state: State, k: int) -> bool {
    c.touched[k].state == state && exists|i: int|
        0 <= i < ts.len() && c.touched[k] == #[trigger] c.tasks[i] && ts[i].state != state
}

proof fn lemma_put_all_reported(
    ts: Seq<TaskView>,
    targets: Seq<u32>,
    n: nat,
    state: State,
    actor: Option<Seq<char>>,
    now: Moment,
)
    requires
        unique_ids(ts),
        n <= targets.len(),
    ensures
        ({
            let c = put_all(ts, targets, n, state, actor, now);
            &&& c.tasks.len() == ts.len()
            &&& forall|i: int| 0 <= i < ts.len() ==> (#[trigger] c.tasks[i]).id == ts[i].id
            &&& forall|i: int|
                0 <= i < ts.len() ==> (#[trigger] c.tasks[i]) == ts[i] || (c.tasks[i].state == state
                    && ts[i].state != state)
            &&& forall|k: int| 0 <= k < c.touched.len() ==> #[trigger] touched_at(ts, c, state, k)
            &&& forall|i: int|
                0 <= i < ts.len() && (#[trigger] c.tasks[i]) != ts[i] ==> c.touched.contains(
                    c.tasks[i],
                )
            &&& forall|j: int, k: int|
                0 <= j < k < c.touched.len() ==> (#[trigger] c.touched[j]).id != (
                #[trigger] c.touched[k]).id
        }),
    decreases n,
{
    if n > 0 {
        let m = (n - 1) as nat;
        lemma_put_all_reported(ts, targets, m, state, actor, now);
        let p = put_all(ts, targets, m, state, actor, now);
        let c = put_all(ts, targets, n, state, actor, now);
        let target = targets[m as int];
        lemma_lookup(p.tasks, target);
        if let Some(at) = lookup(p.tasks, target) {
            if p.tasks[at].state != state {
                assert(p.tasks[at] == ts[at]);
                let last = p.touched.len() as int;
                assert(c.touched[last] == c.tasks[at]);
                assert forall|k: int| 0 <= k < c.touched.len() implies #[trigger] touched_at(
                    ts,
                    c,
                    state,
                    k,
                ) by {
                    if k < last {
                        assert(touched_at(ts, p, state, k));
                        let i = choose|i: int|
                            0 <= i < ts.len() && p.touched[k] == #[trigger] p.tasks[i]
                                && ts[i].state != state;
                        assert(c.touched[k] == p.touched[k]);
                        assert(p.touched[k].state == state);
                        assert(i != at);
                        assert(c.tasks[i] == p.tasks[i]);
                    } else {
                        assert(c.tasks[at] == c.touched[k]);
                    }
                }
                assert forall|i: int| 0 <= i < ts.len() && (#[trigger] c.tasks[i])
                    != ts[i] implies c.touched.contains(c.tasks[i]) by {
                    if i != at {
                        assert(c.tasks[i] == p.tasks[i]);
                        let k = choose|k: int| 0 <= k < p.touched.len() && p.touched[k] == p.tasks[i];
                        assert(c.touched[k] == c.tasks[i]);
                    }
                }
                assert forall|j: int, k: int| 0 <= j < k < c.touched.len() implies (
                #[trigger] c.touched[j]).id != (#[trigger] c.touched[k]).id by {
                    assert(c.touched[j] == p.touched[j]);
                    if k == last {
                        assert(touched_at(ts, p, state, j));
                        let i = choose|i: int|
                            0 <= i < ts.len() && p.touched[j] == #[trigger] p.tasks[i]
                                && ts[i].state != state;
                        assert(i != at);
                        if i < at {
                            assert(ts[i].id != ts[at].id);
                        } else {
                            assert(ts[at].id != ts[i].id);
                        }
                    }
                }
            }
        }
    }
}

/// A hook fires for the tasks that changed and were named, not for those that
/// were swept along.
pub proof fn law_hooks_fire_for_what_was_named(touched: Seq<TaskView>, ids: Seq<u32>)
    ensures
        forall|t: TaskView| #[trigger]
            named(touched, ids).contains(t) <==> touched.contains(t) && ids.contains(t.id),
        (forall|i: int| 0 <= i < touched.len() ==> ids.contains((#[trigger] touched[i]).id))
            ==> named(touched, ids) == touched,
    decreases touched.len(),
{
    crate::text::lemma_filter_contains(touched, |t: TaskView| ids.contains(t.id));
    if forall|i: int| 0 <= i < touched.len() ==> ids.contains((#[trigger] touched[i]).id) {
        reveal(Seq::filter);
        if touched.len() > 0 {
            let r = touched.drop_last();
            assert forall|i: int| 0 <= i < r.len() implies ids.contains((#[trigger] r[i]).id) by {
                assert(r[i] == touched[i]);
            }
            law_hooks_fire_for_what_was_named(r, ids);
            assert(ids.contains(touched[touched.len() - 1].id));
            assert(r.push(touched.last()) =~= touched);
        } else {
            assert(named(touched, ids) =~= touched);
        }
    }
}

/// A request names no task that is missing exactly where every id it names is
/// there; otherwise it is the first of those that are not.
pub proof fn law_the_first_missing_id_is_named(ts: Seq<TaskView>, ids: Seq<u32>)
    ensures
        first_missing(ts, ids) is None <==> forall|i: int|
            0 <= i < ids.len() ==> has_id(ts, #[trigger] ids[i]),
        first_missing(ts, ids) matches Some(id) ==> exists|k: int|
            0 <= k < ids.len() && #[trigger] ids[k] == id && !has_id(ts, id) && forall|i: int|
                0 <= i < k ==> has_id(ts, #[trigger] ids[i]),
{
    lemma_missing_from(ts, ids, 0);
}

proof fn lemma_missing_from(ts: Seq<TaskView>, ids: Seq<u32>, i: int)
    requires
        0 <= i <= ids.len(),
    ensures
        missing_from(ts, ids, i) is None <==> forall|k: int|
            i <= k < ids.len() ==> has_id(ts, #[trigger] ids[k]),
        missing_from(ts, ids, i) matches Some(id) ==> exists|k: int|
            i <= k < ids.len() && #[trigger] ids[k] == id && !has_id(ts, id) && forall|j: int|
                i <= j < k ==> has_id(ts, #[trigger] ids[j]),
    decreases ids.len() - i,
{
    if i < ids.len() {
        lemma_missing_from(ts, ids, i + 1);
        if has_id(ts, ids[i]) {
            if let Some(id) = missing_from(ts, ids, i) {
                let k = choose|k: int|
                    i + 1 <= k < ids.len() && #[trigger] ids[k] == id && !has_id(ts, id) && forall|
                        j: int,
                    |
                        i + 1 <= j < k ==> has_id(ts, #[trigger] ids[j]);
                assert(ids[k] == id);
            }
        } else {
            assert(ids[i] == ids[i]);
        }
    }
}

/// An entry says who did what to which task, with what detail and on which
/// branch.
pub proof fn law_entries_say_who_did_what(
    action: Seq<char>,
    actor: Option<Seq<char>>,
    id: u32,
    detail: Option<Seq<char>>,
    branch: Option<Seq<char>>,
)
    ensures
        ({
            let e = record_of(action, actor, id, detail, branch);
            e.action == action && e.actor == actor && e.id == Some(id) && e.detail == detail
                && e.branch == branch
        }),
{
}

} // verus!
