//! What is shown of the list: the default view, the search, the orphans and
//! the log.

use crate::cli::{FindArgs, ListArgs};
use crate::error::{plural, plural_of, Error, ErrorView};
use crate::forest::task_views;
use crate::journal::{entry_views, Entry, EntryView};
use crate::render::{
    cells_of, empty, empty_lines, list_lines, painted, spaces, summary, summary_parts, tasks, Ink,
    ListOpts,
};
use crate::store::{is_orphan, ref_views, seen_from, Scope, Store};
use crate::task::{State, Task, TaskView};
use crate::text::{
    as_opt, cat, contains, debug_quoted, decimal, has, join, joined, lowercase, opt_str_view,
    opt_view, own_opt, quoted, to_decimal, to_lower, views,
};
use crate::time::Moment;
use crate::tree::{row_views, tree_rows, Row, RowView};
use vstd::prelude::*;

verus! {

// ---------------------------------------------------------------------------
// The list
// ---------------------------------------------------------------------------

/// The branch a listing is about: the one that was asked for, or the current
/// one.
pub open spec fn listed_branch(args: ListArgs, here: Option<Seq<char>>) -> Option<Seq<char>> {
    match args.branch {
        Some(b) => Some(b@),
        None => here,
    }
}

pub open spec fn list_scope(t: TaskView, args: ListArgs, branch: Option<Seq<char>>) -> bool {
    args.all || seen_from(t, branch)
}

/// Done tasks stay visible for the rest of the day they were closed on, and
/// then drop out so the list stays short.
pub open spec fn list_state(t: TaskView, args: ListArgs, today: Moment) -> bool {
    match args.state {
        Some(s) => t.state == s,
        None => args.done || t.state != State::Done || t.updated.at_or_after(today),
    }
}

/// Which tasks are asked for.
pub open spec fn listed(
    ts: Seq<TaskView>,
    args: ListArgs,
    branch: Option<Seq<char>>,
    today: Moment,
) -> Seq<bool> {
    Seq::new(
        ts.len(),
        |i: int| list_scope(ts[i], args, branch) && list_state(ts[i], args, today),
    )
}

fn in_list(t: &Task, args: &ListArgs, branch: Option<&str>) -> (r: bool)
    ensures
        r == list_scope(t@, *args, opt_str_view(branch)),
{
    args.all || Store::in_scope(t, branch)
}

fn state_ok(t: &Task, args: &ListArgs, today: Moment) -> (r: bool)
    ensures
        r == list_state(t@, *args, today),
{
    match args.state {
        Some(s) => t.state == s,
        None => args.done || !t.is_done() || t.updated.is_at_or_after(today),
    }
}

/// The branch a listing is about.
pub fn list_branch(store: &Store, args: &ListArgs) -> (r: Option<String>)
    ensures
        opt_view(r) == listed_branch(*args, store.scope.branch_of()),
{
    match &args.branch {
        Some(b) => Some(b.clone()),
        None => own_opt(store.scope.branch()),
    }
}

/// Whether some row shows a task for its own sake, not for context.
pub open spec fn shows(rows: Seq<RowView>, t: TaskView) -> bool {
    exists|r: int| 0 <= r < rows.len() && (#[trigger] rows[r]).task == t && !rows[r].context
}

/// The rows show what was flagged.
proof fn lemma_shown_iff_kept(ts: Seq<TaskView>, keep: Seq<bool>)
    requires
        crate::forest::is_forest(ts),
        keep.len() == ts.len(),
    ensures
        forall|j: int|
            0 <= j < ts.len() ==> (shows(tree_rows(ts, keep), #[trigger] ts[j]) <==> keep[j]),
{
    let rows = tree_rows(ts, keep);
    assert forall|j: int| 0 <= j < ts.len() implies (shows(rows, #[trigger] ts[j]) <==> keep[j]) by {
        if keep[j] {
            let r = crate::tree::law_every_match_has_a_row(ts, keep, j);
            assert(rows[r].task == ts[j]);
        }
        if shows(rows, ts[j]) {
            let r = choose|r: int|
                0 <= r < rows.len() && (#[trigger] rows[r]).task == ts[j] && !rows[r].context;
            crate::tree::law_rows_hold_every_match_once(ts, keep);
            let k = choose|k: int|
                0 <= k < ts.len() && #[trigger] crate::tree::row_holds(rows[r], ts, keep, k);
            if j < k {
                assert(ts[j].id != ts[k].id);
            } else if k < j {
                assert(ts[k].id != ts[j].id);
            }
        }
    }
}

/// The rows of a listing.
pub fn list_rows<'a>(store: &'a Store, args: &ListArgs, today: Moment) -> (r: Vec<Row<'a>>)
    requires
        store.wf(),
    ensures
        row_views(r@) == tree_rows(
            store@.tasks,
            listed(store@.tasks, *args, listed_branch(*args, store.scope.branch_of()), today),
        ),
        forall|j: int|
            0 <= j < store@.tasks.len() ==> ({
                let t = #[trigger] store@.tasks[j];
                let branch = match args.branch {
                    Some(b) => Some(b@),
                    None => store.scope.branch_of(),
                };
                shows(row_views(r@), t) <==> (args.all || t.branch is None || t.branch == branch)
                    && match args.state {
                    Some(s) => t.state == s,
                    None => args.done || t.state == State::Todo || t.state == State::Doing
                        || t.updated.at_or_after(today),
                }
            }),
{
    let branch = list_branch(store, args);
    let ghost b = listed_branch(*args, store.scope.branch_of());
    let ghost flags = listed(store@.tasks, *args, b, today);
    let all = store.tasks();
    let mut kept: Vec<bool> = Vec::new();
    let mut i: usize = 0;
    while i < all.len()
        invariant
            i <= all@.len(),
            task_views(all@) == store@.tasks,
            opt_view(branch) == b,
            flags == listed(store@.tasks, *args, b, today),
            kept@ == flags.take(i as int),
        decreases all@.len() - i,
    {
        let t = &all[i];
        assert(store@.tasks[i as int] == t@);
        let keep = in_list(t, args, as_opt(&branch)) && state_ok(t, args, today);
        kept.push(keep);
        assert(kept@ =~= flags.take(i + 1));
        i += 1;
    }
    assert(kept@ =~= flags);
    proof {
        lemma_shown_iff_kept(store@.tasks, flags);
    }
    store.tree_of(&kept)
}

/// How many of the shown tasks are in `state`.
pub open spec fn shown_in(rows: Seq<RowView>, state: State) -> nat
    decreases rows.len(),
{
    if rows.len() == 0 {
        0
    } else {
        shown_in(rows.drop_last(), state) + (if rows.last().task.state == state {
            1nat
        } else {
            0nat
        })
    }
}

fn count_shown(rows: &Vec<Row<'_>>, state: State) -> (r: usize)
    ensures
        r == shown_in(row_views(rows@), state),
{
    let ghost rs = row_views(rows@);
    let mut n: usize = 0;
    let mut i: usize = 0;
    while i < rows.len()
        invariant
            i <= rows@.len(),
            n <= i,
            rs == row_views(rows@),
            n == shown_in(rs.take(i as int), state),
        decreases rows@.len() - i,
    {
        proof {
            assert(rs.take(i + 1).drop_last() =~= rs.take(i as int));
            assert(rs.take(i + 1).last() == rows@[i as int]@);
        }
        if rows[i].task.state == state {
            n += 1;
        }
        i += 1;
    }
    assert(rs.take(i as int) =~= rs);
    n
}

/// How many finished tasks the listing leaves out.
pub open spec fn hidden_done(
    ts: Seq<TaskView>,
    args: ListArgs,
    branch: Option<Seq<char>>,
    today: Moment,
) -> nat
    decreases ts.len(),
{
    if ts.len() == 0 {
        0
    } else {
        let t = ts.last();
        hidden_done(ts.drop_last(), args, branch, today) + (if list_scope(t, args, branch)
            && t.state == State::Done && !list_state(t, args, today) {
            1nat
        } else {
            0nat
        })
    }
}

fn count_hidden(all: &Vec<Task>, args: &ListArgs, branch: Option<&str>, today: Moment) -> (r: usize)
    ensures
        r == hidden_done(task_views(all@), *args, opt_str_view(branch), today),
{
    let ghost ts = task_views(all@);
    let ghost b = opt_str_view(branch);
    let mut n: usize = 0;
    let mut i: usize = 0;
    while i < all.len()
        invariant
            i <= all@.len(),
            n <= i,
            ts == task_views(all@),
            b == opt_str_view(branch),
            n == hidden_done(ts.take(i as int), *args, b, today),
        decreases all@.len() - i,
    {
        let t = &all[i];
        proof {
            assert(ts.take(i + 1).drop_last() =~= ts.take(i as int));
            assert(ts.take(i + 1).last() == t@);
        }
        if in_list(t, args, branch) && t.is_done() && !state_ok(t, args, today) {
            n += 1;
        }
        i += 1;
    }
    assert(ts.take(i as int) =~= ts);
    n
}

pub open spec fn tree_text(
    ts: Seq<TaskView>,
    rows: Seq<RowView>,
    now: Moment,
    show_branch: bool,
) -> Seq<Seq<char>> {
    list_lines(cells_of(ts, rows, now, show_branch))
}

/// The text of a listing: the tree and a footer, or what to do when there is
/// nothing to show.
pub open spec fn list_text(
    ts: Seq<TaskView>,
    args: ListArgs,
    branch: Option<Seq<char>>,
    now: Moment,
    today: Moment,
) -> Seq<Seq<char>> {
    let rows = tree_rows(ts, listed(ts, args, branch, today));
    if rows.len() == 0 {
        empty_lines(branch, args.state is Some)
    } else {
        tree_text(ts, rows, now, args.all).push(
            painted(
                Ink::Dim,
                "  "@ + joined(
                    summary_parts(
                        shown_in(rows, State::Todo),
                        shown_in(rows, State::Doing),
                        hidden_done(ts, args, branch, today),
                    ),
                    " · "@,
                ),
            ),
        )
    }
}

/// Lists tasks.
pub fn cmd_list(store: &Store, args: &ListArgs, now: Moment, today: Moment) -> (r: Vec<String>)
    requires
        store.wf(),
    ensures
        views(r@) == list_text(
            store@.tasks,
            *args,
            listed_branch(*args, store.scope.branch_of()),
            now,
            today,
        ),
{
    let rows = list_rows(store, args, today);
    let branch = list_branch(store, args);
    if rows.len() == 0 {
        return empty(as_opt(&branch), args.state.is_some());
    }
    let mut out = tasks(store, &rows, &ListOpts { now, show_branch: args.all });
    let open: usize = count_shown(&rows, State::Todo);
    let doing: usize = count_shown(&rows, State::Doing);
    let hidden: usize = count_hidden(store.tasks(), args, as_opt(&branch), today);
    let ghost body = out@;
    let footer = summary(open, doing, hidden);
    out.push(footer);
    assert(views(out@) =~= views(body).push(footer@));
    out
}

// ---------------------------------------------------------------------------
// Orphans
// ---------------------------------------------------------------------------

/// Which tasks are stranded on a branch that is gone; finished ones only where
/// they were asked for.
pub open spec fn stranded(ts: Seq<TaskView>, live: Seq<Seq<char>>, done: bool) -> Seq<bool> {
    Seq::new(ts.len(), |i: int| is_orphan(ts[i], live) && (done || ts[i].state != State::Done))
}

/// The tasks behind some flags.
pub open spec fn picked(ts: Seq<TaskView>, kept: Seq<bool>, n: nat) -> Seq<TaskView>
    decreases n,
{
    if n == 0 {
        Seq::empty()
    } else if kept[n - 1] {
        picked(ts, kept, (n - 1) as nat).push(ts[n - 1])
    } else {
        picked(ts, kept, (n - 1) as nat)
    }
}

/// Why orphans cannot be told, if they cannot. With no branches at all, every
/// task would be an orphan, which is technically true and actively misleading.
pub open spec fn orphan_refusal(scope: Scope, live: Seq<Seq<char>>) -> Option<ErrorView> {
    if scope == Scope::Global {
        Some(ErrorView::OrphansNeedRepo)
    } else if live.len() == 0 {
        Some(ErrorView::NoBranches)
    } else {
        None
    }
}

pub struct Orphans<'a> {
    pub tasks: Vec<&'a Task>,
    pub lines: Vec<String>,
}

pub open spec fn orphan_lines(
    ts: Seq<TaskView>,
    live: Seq<Seq<char>>,
    done: bool,
    now: Moment,
) -> Seq<Seq<char>> {
    let kept = stranded(ts, live, done);
    let n = picked(ts, kept, ts.len()).len();
    if n == 0 {
        seq!["  Every task is on a branch that still exists."@]
    } else {
        tree_text(ts, tree_rows(ts, kept), now, true) + seq![
            ""@,
            stranded_count(n),
            "  Rescue them with `clt scope <ID> --repo` or `--branch <NAME>`."@,
        ]
    }
}

/// Which tasks are stranded, and those tasks.
fn strand<'a>(store: &'a Store, live: &Vec<String>, done: bool) -> (r: (Vec<bool>, Vec<&'a Task>))
    ensures
        r.0@ == stranded(store@.tasks, views(live@), done),
        ref_views(r.1@) == picked(
            store@.tasks,
            stranded(store@.tasks, views(live@), done),
            store@.tasks.len(),
        ),
{
    let ghost ts = store@.tasks;
    let ghost names = views(live@);
    let ghost flags = stranded(ts, names, done);
    let all = store.tasks();
    let mut kept: Vec<bool> = Vec::new();
    let mut tasks_kept: Vec<&'a Task> = Vec::new();
    assert(ref_views(tasks_kept@) =~= picked(ts, flags, 0));
    let mut i: usize = 0;
    while i < all.len()
        invariant
            i <= all@.len(),
            task_views(all@) == ts,
            names == views(live@),
            flags == stranded(ts, names, done),
            kept@ == flags.take(i as int),
            ref_views(tasks_kept@) == picked(ts, flags, i as nat),
        decreases all@.len() - i,
    {
        let t = &all[i];
        assert(ts[i as int] == t@);
        let ghost before = tasks_kept@;
        let orphan = match as_opt(&t.branch) {
            Some(b) => !crate::store::contains_text(live, b),
            None => false,
        };
        let keep = orphan && (done || !t.is_done());
        kept.push(keep);
        assert(flags[i as int] == keep);
        assert(kept@ =~= flags.take(i + 1));
        if keep {
            tasks_kept.push(t);
            assert(ref_views(tasks_kept@) =~= ref_views(before).push(t@));
        }
        i += 1;
    }
    assert(kept@ =~= flags);
    (kept, tasks_kept)
}

pub open spec fn stranded_count(n: nat) -> Seq<char> {
    "  "@ + decimal(n) + " task"@ + plural(n) + " on branches that no longer exist."@
}

fn count_stranded(n: usize) -> (r: String)
    ensures
        r@ == stranded_count(n as nat),
{
    let d = to_decimal(n as u64);
    let mut count = cat("  ", d.as_str());
    count.append(" task");
    count.append(plural_of(n));
    count.append(" on branches that no longer exist.");
    count
}

/// Lists the tasks pinned to a branch git no longer has.
pub fn cmd_list_orphaned<'a>(
    store: &'a Store,
    live: &Vec<String>,
    done: bool,
    now: Moment,
) -> (r: Result<Orphans<'a>, Error>)
    requires
        store.wf(),
    ensures
        match r {
            Ok(o) => orphan_refusal(store.scope, views(live@)) is None && ref_views(o.tasks@)
                == picked(
                store@.tasks,
                stranded(store@.tasks, views(live@), done),
                store@.tasks.len(),
            ) && views(o.lines@) == orphan_lines(store@.tasks, views(live@), done, now),
            Err(e) => orphan_refusal(store.scope, views(live@)) == Some(e@),
        },
{
    if store.scope.repo().is_none() {
        return Err(Error::OrphansNeedRepo);
    }
    if live.len() == 0 {
        return Err(Error::NoBranches);
    }
    let (kept, found) = strand(store, live, done);
    let n: usize = found.len();
    assert(ref_views(found@).len() == n);
    if n == 0 {
        let mut lines: Vec<String> = Vec::new();
        lines.push("  Every task is on a branch that still exists.".to_owned());
        assert(views(lines@) =~= seq!["  Every task is on a branch that still exists."@]);
        return Ok(Orphans { tasks: found, lines });
    }
    let rows = store.tree_of(&kept);
    let mut lines = tasks(store, &rows, &ListOpts { now, show_branch: true });
    let ghost body = views(lines@);
    lines.push("".to_owned());
    lines.push(count_stranded(n));
    lines.push("  Rescue them with `clt scope <ID> --repo` or `--branch <NAME>`.".to_owned());
    assert(views(lines@) =~= body + seq![
        ""@,
        stranded_count(n as nat),
        "  Rescue them with `clt scope <ID> --repo` or `--branch <NAME>`."@,
    ]);
    Ok(Orphans { tasks: found, lines })
}

// ---------------------------------------------------------------------------
// Search
// ---------------------------------------------------------------------------

/// What is searched of a task: its title, note and location.
pub open spec fn haystacks(t: TaskView) -> Seq<Seq<char>> {
    seq![t.title] + (match t.note {
        Some(n) => seq![n],
        None => Seq::empty(),
    }) + (match t.location {
        Some(l) => seq![l.text()],
        None => Seq::empty(),
    })
}

/// Whether one of some texts, in lower case, holds the needle.
pub open spec fn any_holds(texts: Seq<Seq<char>>, needle: Seq<char>) -> bool {
    exists|i: int| 0 <= i < texts.len() && has(#[trigger] texts[i], needle)
}

pub open spec fn lowered(texts: Seq<Seq<char>>) -> Seq<Seq<char>> {
    Seq::new(texts.len(), |i: int| lowercase(texts[i]))
}

/// Whether one of some texts holds the needle.
pub fn any_has(texts: &Vec<String>, needle: &str) -> (r: bool)
    ensures
        r == any_holds(views(texts@), needle@),
{
    let ghost all = views(texts@);
    let mut i: usize = 0;
    while i < texts.len()
        invariant
            i <= texts@.len(),
            all == views(texts@),
            forall|k: int| 0 <= k < i ==> !(has(#[trigger] all[k], needle@)),
        decreases texts@.len() - i,
    {
        assert(all[i as int] == texts@[i as int]@);
        if contains(texts[i].as_str(), needle) {
            return true;
        }
        i += 1;
    }
    false
}

/// The parts of a task that a search looks at, in lower case.
pub fn searched(t: &Task) -> (r: Vec<String>)
    ensures
        views(r@) == lowered(haystacks(t@)),
{
    let mut out: Vec<String> = Vec::new();
    out.push(to_lower(t.title.as_str()));
    if let Some(n) = as_opt(&t.note) {
        out.push(to_lower(n));
    }
    if let Some(l) = &t.location {
        let s = l.to_string();
        out.push(to_lower(s.as_str()));
    }
    assert(views(out@) =~= lowered(haystacks(t@)));
    out
}

/// Whether a task matches. The search spans every branch unless it is kept to
/// the current one: needing to search is precisely the situation where one has
/// forgotten which branch it was filed on.
pub open spec fn is_hit(t: TaskView, needle: Seq<char>, here: bool, branch: Option<Seq<char>>) -> bool {
    any_holds(lowered(haystacks(t)), needle) && (!here || seen_from(t, branch))
}

pub open spec fn hit_flags(
    ts: Seq<TaskView>,
    needle: Seq<char>,
    here: bool,
    branch: Option<Seq<char>>,
) -> Seq<bool> {
    Seq::new(ts.len(), |i: int| is_hit(ts[i], needle, here, branch))
}

pub open spec fn query_text(query: Seq<String>) -> Seq<char> {
    joined(views(query), " "@)
}

/// Searches for a needle that is in lower case already.
pub fn find_rows<'a>(store: &'a Store, needle: &str, here: bool) -> (r: Vec<Row<'a>>)
    requires
        store.wf(),
    ensures
        row_views(r@) == tree_rows(
            store@.tasks,
            hit_flags(store@.tasks, needle@, here, store.scope.branch_of()),
        ),
{
    let ghost flags = hit_flags(store@.tasks, needle@, here, store.scope.branch_of());
    let branch = own_opt(store.scope.branch());
    let all = store.tasks();
    let mut kept: Vec<bool> = Vec::new();
    let mut i: usize = 0;
    while i < all.len()
        invariant
            i <= all@.len(),
            task_views(all@) == store@.tasks,
            opt_view(branch) == store.scope.branch_of(),
            flags == hit_flags(store@.tasks, needle@, here, store.scope.branch_of()),
            kept@ == flags.take(i as int),
        decreases all@.len() - i,
    {
        let t = &all[i];
        assert(store@.tasks[i as int] == t@);
        let texts = searched(t);
        let keep = any_has(&texts, needle) && (!here || Store::in_scope(t, as_opt(&branch)));
        kept.push(keep);
        assert(kept@ =~= flags.take(i + 1));
        i += 1;
    }
    assert(kept@ =~= flags);
    store.tree_of(&kept)
}

/// The rows that a query finds.
pub fn cmd_find<'a>(store: &'a Store, args: &FindArgs) -> (r: Vec<Row<'a>>)
    requires
        store.wf(),
    ensures
        row_views(r@) == tree_rows(
            store@.tasks,
            hit_flags(
                store@.tasks,
                lowercase(query_text(args.query@)),
                args.here,
                store.scope.branch_of(),
            ),
        ),
        forall|j: int|
            0 <= j < store@.tasks.len() ==> ({
                let t = #[trigger] store@.tasks[j];
                let needle = lowercase(joined(views(args.query@), " "@));
                shows(row_views(r@), t) <==> (!args.here || t.branch is None || t.branch
                    == store.scope.branch_of()) && ({
                    ||| has(lowercase(t.title), needle)
                    ||| t.note matches Some(note) && has(lowercase(note), needle)
                    ||| t.location matches Some(place) && has(lowercase(place.text()), needle)
                })
            }),
{
    let query = join(&args.query, " ");
    let needle = to_lower(query.as_str());
    proof {
        let flags = hit_flags(store@.tasks, needle@, args.here, store.scope.branch_of());
        lemma_shown_iff_kept(store@.tasks, flags);
        assert forall|j: int| 0 <= j < store@.tasks.len() implies ({
            let t = #[trigger] store@.tasks[j];
            flags[j] <==> (!args.here || t.branch is None || t.branch == store.scope.branch_of())
                && ({
                ||| has(lowercase(t.title), needle@)
                ||| t.note matches Some(note) && has(lowercase(note), needle@)
                ||| t.location matches Some(place) && has(lowercase(place.text()), needle@)
            })
        }) by {
            lemma_searched(store@.tasks[j], needle@);
        }
    }
    find_rows(store, needle.as_str(), args.here)
}

/// The tasks of the first `n` rows that are not just there for context.
pub open spec fn matches_in(rows: Seq<RowView>, n: nat) -> Seq<TaskView>
    decreases n,
{
    if n == 0 {
        Seq::empty()
    } else if rows[n - 1].context {
        matches_in(rows, (n - 1) as nat)
    } else {
        matches_in(rows, (n - 1) as nat).push(rows[n - 1].task)
    }
}

/// The tasks that were found, without the ancestors that give them context.
pub fn matched<'a>(rows: &Vec<Row<'a>>) -> (r: Vec<&'a Task>)
    ensures
        ref_views(r@) == matches_in(row_views(rows@), rows@.len()),
{
    let ghost all = row_views(rows@);
    let mut out: Vec<&'a Task> = Vec::new();
    assert(ref_views(out@) =~= matches_in(all, 0));
    let mut i: usize = 0;
    while i < rows.len()
        invariant
            i <= rows@.len(),
            all == row_views(rows@),
            ref_views(out@) == matches_in(all, i as nat),
        decreases rows@.len() - i,
    {
        let ghost before = out@;
        assert(all[i as int] == rows@[i as int]@);
        if !rows[i].context {
            let t: &'a Task = rows[i].task;
            out.push(t);
            assert(ref_views(out@) =~= ref_views(before).push(t@));
        }
        i += 1;
    }
    out
}

pub open spec fn find_lines(
    ts: Seq<TaskView>,
    rows: Seq<RowView>,
    query: Seq<char>,
    now: Moment,
) -> Seq<Seq<char>> {
    if rows.len() == 0 {
        seq!["  Nothing matching "@ + debug_quoted(query) + "."@]
    } else {
        tree_text(ts, rows, now, true)
    }
}

/// What is said after a search.
pub fn report_find(store: &Store, rows: &Vec<Row<'_>>, args: &FindArgs, now: Moment) -> (r: Vec<
    String,
>)
    requires
        store.wf(),
    ensures
        views(r@) == find_lines(store@.tasks, row_views(rows@), query_text(args.query@), now),
{
    if rows.len() == 0 {
        let query = join(&args.query, " ");
        let q = quoted(query.as_str());
        let mut line = cat("  Nothing matching ", q.as_str());
        line.append(".");
        let mut out: Vec<String> = Vec::new();
        out.push(line);
        assert(views(out@) =~= seq![line@]);
        return out;
    }
    tasks(store, rows, &ListOpts { now, show_branch: true })
}

// ---------------------------------------------------------------------------
// The log
// ---------------------------------------------------------------------------

/// `s`, followed by blanks up to `n` characters.
pub open spec fn filled(s: Seq<char>, n: nat) -> Seq<char> {
    if s.len() < n {
        s + spaces((n - s.len()) as nat)
    } else {
        s
    }
}

fn fill(s: &str, n: usize) -> (r: String)
    ensures
        r@ == filled(s@, n as nat),
{
    let mut out = s.to_owned();
    let len: usize = s.unicode_len();
    let mut k: usize = len;
    assert(spaces(0) =~= Seq::empty());
    while k < n
        invariant
            len == s@.len(),
            len <= k,
            k <= n || k == len,
            out@ == s@ + spaces((k - len) as nat),
        decreases n - k,
    {
        out.append(" ");
        proof {
            reveal_strlit(" ");
            assert(out@ =~= s@ + spaces((k + 1 - len) as nat));
        }
        k += 1;
    }
    proof {
        if len >= n {
            assert(out@ =~= s@);
        }
    }
    out
}

/// One line of the log. `stamp` is the time of the entry, as text.
pub open spec fn log_text(stamp: Seq<char>, e: EntryView) -> Seq<char> {
    "  "@ + stamp + "  "@ + filled(
        match e.actor {
            Some(a) => a,
            None => "you"@,
        },
        8,
    ) + " "@ + filled(e.action, 7) + " "@ + filled(
        match e.id {
            Some(id) => "#"@ + decimal(id as nat),
            None => ""@,
        },
        5,
    ) + " "@ + (match e.detail {
        Some(d) => d,
        None => ""@,
    })
}

/// One line of the log.
pub fn log_line(stamp: &str, e: &Entry) -> (r: String)
    ensures
        r@ == log_text(stamp@, e@),
{
    let who = match as_opt(&e.actor) {
        Some(a) => fill(a, 8),
        None => fill("you", 8),
    };
    let action = fill(e.action.as_str(), 7);
    let id = match e.id {
        Some(id) => {
            let n = to_decimal(id as u64);
            let s = cat("#", n.as_str());
            fill(s.as_str(), 5)
        },
        None => fill("", 5),
    };
    let mut out = cat("  ", stamp);
    out.append("  ");
    out.append(who.as_str());
    out.append(" ");
    out.append(action.as_str());
    out.append(" ");
    out.append(id.as_str());
    out.append(" ");
    match as_opt(&e.detail) {
        Some(d) => out.append(d),
        None => out.append(""),
    }
    out
}

pub open spec fn log_lines(stamps: Seq<Seq<char>>, entries: Seq<EntryView>) -> Seq<Seq<char>> {
    if entries.len() == 0 {
        seq!["  No history yet."@]
    } else {
        Seq::new(entries.len(), |i: int| log_text(stamps[i], entries[i]))
    }
}

/// The log as text, given the time of each entry as text.
pub fn cmd_log(stamps: &Vec<String>, entries: &Vec<Entry>) -> (r: Vec<String>)
    requires
        stamps@.len() == entries@.len(),
    ensures
        views(r@) == log_lines(views(stamps@), entry_views(entries@)),
{
    let ghost es = entry_views(entries@);
    let ghost ss = views(stamps@);
    let ghost all = log_lines(ss, es);
    let mut out: Vec<String> = Vec::new();
    if entries.len() == 0 {
        out.push("  No history yet.".to_owned());
        assert(views(out@) =~= all);
        return out;
    }
    assert(views(out@) =~= all.take(0));
    let mut i: usize = 0;
    while i < entries.len()
        invariant
            i <= entries@.len(),
            stamps@.len() == entries@.len(),
            entries@.len() > 0,
            es == entry_views(entries@),
            ss == views(stamps@),
            all == log_lines(ss, es),
            views(out@) == all.take(i as int),
        decreases entries@.len() - i,
    {
        let ghost so_far = out@;
        let line = log_line(stamps[i].as_str(), &entries[i]);
        out.push(line);
        assert(views(out@) =~= views(so_far).push(log_text(ss[i as int], es[i as int])));
        assert(views(out@) =~= all.take(i + 1));
        i += 1;
    }
    assert(all.take(i as int) =~= all);
    out
}

// ---------------------------------------------------------------------------
// What holds of the views
// ---------------------------------------------------------------------------

/// With every branch and every state asked for, nothing is left out.
pub proof fn law_asking_for_everything_lists_everything(
    ts: Seq<TaskView>,
    args: ListArgs,
    branch: Option<Seq<char>>,
    today: Moment,
    i: int,
)
    requires
        args.all && args.done && args.state is None,
        0 <= i < ts.len(),
    ensures
        listed(ts, args, branch, today)[i],
        hidden_done(ts, args, branch, today) == 0,
{
    lemma_nothing_hidden(ts, args, branch, today);
}

proof fn lemma_nothing_hidden(
    ts: Seq<TaskView>,
    args: ListArgs,
    branch: Option<Seq<char>>,
    today: Moment,
)
    requires
        args.done && args.state is None,
    ensures
        hidden_done(ts, args, branch, today) == 0,
    decreases ts.len(),
{
    if ts.len() > 0 {
        lemma_nothing_hidden(ts.drop_last(), args, branch, today);
    }
}

/// The default view shows what is open and seen from here, and what was
/// finished today; finished work from before drops out.
pub proof fn law_default_view_keeps_todays_work(
    ts: Seq<TaskView>,
    args: ListArgs,
    branch: Option<Seq<char>>,
    today: Moment,
    i: int,
)
    requires
        !args.all && !args.done && args.state is None,
        0 <= i < ts.len(),
    ensures
        listed(ts, args, branch, today)[i] <==> seen_from(ts[i], branch) && (ts[i].state
            != State::Done || ts[i].updated.at_or_after(today)),
{
}

/// Repo-wide tasks belong to no branch by design, so they are never stranded;
/// nor is a task on a branch that is there.
pub proof fn law_only_lost_branches_strand(
    ts: Seq<TaskView>,
    live: Seq<Seq<char>>,
    done: bool,
    i: int,
)
    requires
        0 <= i < ts.len(),
        match ts[i].branch {
            None => true,
            Some(b) => live.contains(b),
        },
    ensures
        !stranded(ts, live, done)[i],
{
}

/// Moving a stranded task to the whole repo, or to a branch that is there,
/// rescues it.
pub proof fn law_rescoping_rescues(
    t: TaskView,
    live: Seq<Seq<char>>,
    branch: Option<Seq<char>>,
    now: Moment,
)
    requires
        match branch {
            None => true,
            Some(b) => live.contains(b),
        },
    ensures
        !is_orphan(crate::store::rescoped_task(t, branch, now), live),
{
}

/// A search that spans every branch finds whatever one kept to this branch
/// finds.
pub proof fn law_search_spans_every_branch(
    ts: Seq<TaskView>,
    needle: Seq<char>,
    branch: Option<Seq<char>>,
    i: int,
)
    requires
        0 <= i < ts.len(),
    ensures
        hit_flags(ts, needle, true, branch)[i] ==> hit_flags(ts, needle, false, branch)[i],
        hit_flags(ts, needle, true, branch)[i] ==> seen_from(ts[i], branch),
        hit_flags(ts, needle, false, branch)[i] == any_holds(lowered(haystacks(ts[i])), needle),
{
}

/// Asked for one state, a listing is about the tasks in that very state that are
/// in scope, old or new.
pub proof fn law_a_state_asked_for_is_the_state_shown(
    ts: Seq<TaskView>,
    args: ListArgs,
    branch: Option<Seq<char>>,
    today: Moment,
    s: State,
    i: int,
)
    requires
        args.state == Some(s),
        0 <= i < ts.len(),
    ensures
        listed(ts, args, branch, today).len() == ts.len(),
        listed(ts, args, branch, today)[i] <==> (args.all || ts[i].branch is None || ts[i].branch
            == branch) && ts[i].state == s,
{
}

/// With no state asked for, a listing is about the tasks in scope that are open,
/// or were touched today, or any at all where finished ones are asked for.
pub proof fn law_finished_work_drops_out_overnight(
    ts: Seq<TaskView>,
    args: ListArgs,
    branch: Option<Seq<char>>,
    today: Moment,
    i: int,
)
    requires
        args.state is None,
        0 <= i < ts.len(),
    ensures
        listed(ts, args, branch, today).len() == ts.len(),
        !(args.all || ts[i].branch is None || ts[i].branch == branch) ==> !listed(
            ts,
            args,
            branch,
            today,
        )[i],
        args.all || ts[i].branch is None || ts[i].branch == branch ==> {
            let shown = listed(ts, args, branch, today)[i];
            let (then, midnight) = (ts[i].updated, today);
            &&& args.done ==> shown
            &&& ts[i].state == State::Todo || ts[i].state == State::Doing ==> shown
            &&& !args.done && ts[i].state == State::Done ==> {
                &&& then.secs_of() > midnight.secs_of() ==> shown
                &&& then.secs_of() < midnight.secs_of() ==> !shown
                &&& then.secs_of() == midnight.secs_of() ==> (shown <==> then.nanos_of()
                    >= midnight.nanos_of())
            }
        },
{
}

/// A listing of a branch by name is the same wherever it is asked for, and the
/// same as the listing of the branch one is on.
pub proof fn law_a_branch_can_be_listed_from_anywhere(
    args: ListArgs,
    plain: ListArgs,
    name: String,
    here: Option<Seq<char>>,
)
    requires
        args.branch == Some(name),
        plain.branch is None,
    ensures
        listed_branch(args, here) == Some(name@),
        listed_branch(plain, here) == here,
        listed_branch(args, here) == listed_branch(plain, Some(name@)),
{
}

/// The footer counts the finished tasks in scope that are not listed.
pub proof fn law_the_footer_counts_what_is_hidden(
    ts: Seq<TaskView>,
    args: ListArgs,
    branch: Option<Seq<char>>,
    today: Moment,
)
    ensures
        hidden_done(ts, args, branch, today) == ts.filter(
            |t: TaskView|
                t.state == State::Done && (args.all || t.branch is None || t.branch == branch)
                    && match args.state {
                    Some(s) => s != State::Done,
                    None => !args.done && (t.updated.secs_of() < today.secs_of() || (
                    t.updated.secs_of() == today.secs_of() && t.updated.nanos_of()
                        < today.nanos_of())),
                },
        ).len(),
    decreases ts.len(),
{
    reveal(Seq::filter);
    if ts.len() > 0 {
        law_the_footer_counts_what_is_hidden(ts.drop_last(), args, branch, today);
    }
}

/// The footer counts the rows in a state.
pub proof fn law_the_footer_counts_the_rows(rows: Seq<RowView>, state: State)
    ensures
        shown_in(rows, state) == rows.filter(|r: RowView| r.task.state == state).len(),
    decreases rows.len(),
{
    reveal(Seq::filter);
    if rows.len() > 0 {
        law_the_footer_counts_the_rows(rows.drop_last(), state);
    }
}

/// A task is stranded exactly where it is pinned to a branch that is not there;
/// one that is finished counts only where those are asked for.
pub proof fn law_lost_branches_strand(
    ts: Seq<TaskView>,
    live: Seq<Seq<char>>,
    done: bool,
    i: int,
    b: Seq<char>,
)
    requires
        0 <= i < ts.len(),
        ts[i].branch == Some(b),
    ensures
        stranded(ts, live, done).len() == ts.len(),
        stranded(ts, live, done)[i] <==> !live.contains(b) && (ts[i].state == State::Todo
            || ts[i].state == State::Doing || done),
{
}

/// Orphans are told in a repo that has branches, and nowhere else.
pub proof fn law_orphans_need_branches_to_compare_with(scope: Scope, live: Seq<Seq<char>>)
    ensures
        orphan_refusal(scope, live) is None <==> scope is Repo && live.len() > 0,
        scope is Global ==> orphan_refusal(scope, live) == Some(ErrorView::OrphansNeedRepo),
        scope is Repo && live.len() == 0 ==> orphan_refusal(scope, live) == Some(
            ErrorView::NoBranches,
        ),
{
}

/// How many of the first `n` flags are set.
pub open spec fn flags_set(kept: Seq<bool>, n: nat) -> nat
    decreases n,
{
    if n == 0 {
        0
    } else if kept[n - 1] {
        flags_set(kept, (n - 1) as nat) + 1
    } else {
        flags_set(kept, (n - 1) as nat)
    }
}

/// What is picked are the flagged tasks, each once and in their order: a task
/// stands behind as many others as there are flags before its own.
pub proof fn law_picking_takes_what_is_flagged(ts: Seq<TaskView>, kept: Seq<bool>, n: nat)
    requires
        n <= ts.len() == kept.len(),
    ensures
        picked(ts, kept, n).len() == flags_set(kept, n),
        forall|i: nat|
            0 <= i < n && kept[i as int] ==> picked(ts, kept, n)[#[trigger] flags_set(
                kept,
                i,
            ) as int] == ts[i as int],
    decreases n,
{
    if n > 0 {
        let m = (n - 1) as nat;
        law_picking_takes_what_is_flagged(ts, kept, m);
        assert forall|i: nat| 0 <= i < n && kept[i as int] implies picked(
            ts,
            kept,
            n,
        )[#[trigger] flags_set(kept, i) as int] == ts[i as int] by {
            if i < m {
                lemma_fewer_flags(kept, i, m);
            }
        }
    }
}

/// A flag more for each that is set.
proof fn lemma_fewer_flags(kept: Seq<bool>, i: nat, n: nat)
    requires
        0 <= i < n <= kept.len(),
        kept[i as int],
    ensures
        flags_set(kept, i) < flags_set(kept, n),
    decreases n,
{
    if i < n - 1 {
        lemma_fewer_flags(kept, i, (n - 1) as nat);
    }
}

/// A search finds a task by its title, by its note, if it has one, and by its
/// location, if it has one; each by itself is enough, and nothing else is.
pub proof fn law_title_note_and_place_are_searched(
    ts: Seq<TaskView>,
    needle: Seq<char>,
    here: bool,
    branch: Option<Seq<char>>,
    i: int,
)
    requires
        0 <= i < ts.len(),
    ensures
        hit_flags(ts, needle, here, branch).len() == ts.len(),
        hit_flags(ts, needle, here, branch)[i] <==> (!here || ts[i].branch is None || ts[i].branch
            == branch) && ({
            ||| has(lowercase(ts[i].title), needle)
            ||| ts[i].note matches Some(note) && has(lowercase(note), needle)
            ||| ts[i].location matches Some(place) && has(
                lowercase(
                    place.file + (match place.line {
                        Some(line) => ":"@ + decimal(line as nat),
                        None => Seq::empty(),
                    }),
                ),
                needle,
            )
        }),
{
    let t = ts[i];
    lemma_searched(t, needle);
    if let Some(place) = t.location {
        assert(place.text() =~= place.file + (match place.line {
            Some(line) => ":"@ + decimal(line as nat),
            None => Seq::empty(),
        }));
    }
}

/// What is searched is the title, the note and the location.
pub proof fn lemma_searched(t: TaskView, needle: Seq<char>)
    ensures
        any_holds(lowered(haystacks(t)), needle) <==> ({
            ||| has(lowercase(t.title), needle)
            ||| t.note matches Some(note) && has(lowercase(note), needle)
            ||| t.location matches Some(place) && has(lowercase(place.text()), needle)
        }),
{
    let texts = haystacks(t);
    let low = lowered(texts);
    assert(texts[0] == t.title);
    assert(low[0] == lowercase(t.title));
    let noted: int = if t.note is Some {
        1
    } else {
        0
    };
    if let Some(note) = t.note {
        assert(texts[1] == note);
        assert(low[1] == lowercase(note));
    }
    if let Some(place) = t.location {
        assert(texts[1 + noted] == place.text());
        assert(low[1 + noted] == lowercase(place.text()));
    }
    if any_holds(low, needle) {
        let k = choose|k: int| 0 <= k < low.len() && has(#[trigger] low[k], needle);
        assert(k == 0 || (k == 1 && t.note is Some) || (k == 1 + noted && t.location is Some));
    }
}

/// The words of a query are searched for as one, a blank between each two.
pub proof fn law_queries_are_read_as_one(query: Seq<String>, word: String)
    ensures
        query.len() == 0 ==> query_text(query) == Seq::<char>::empty(),
        query_text(seq![word]) == word@,
        query.len() > 0 ==> query_text(query.push(word)) == query_text(query) + seq![' '] + word@,
{
    reveal_strlit(" ");
    assert(views(seq![word]) =~= seq![word@]);
    assert(views(query.push(word)).drop_last() =~= views(query));
    assert(views(query.push(word)).last() == word@);
    assert(" "@ =~= seq![' ']);
}

/// What was found are the rows that are not there for context, each once and in
/// their order.
pub proof fn law_context_is_not_a_match(rows: Seq<RowView>, n: nat)
    requires
        n <= rows.len(),
    ensures
        matches_in(rows, n) == rows.take(n as int).filter(|r: RowView| !r.context).map_values(
            |r: RowView| r.task,
        ),
    decreases n,
{
    reveal(Seq::filter);
    let p = |r: RowView| !r.context;
    let f = |r: RowView| r.task;
    if n > 0 {
        law_context_is_not_a_match(rows, (n - 1) as nat);
        let m = rows.take(n as int);
        assert(m.drop_last() =~= rows.take(n - 1));
        assert(m.last() == rows[n - 1]);
        assert(m.filter(p).map_values(f) =~= matches_in(rows, n));
    } else {
        assert(rows.take(0).filter(p).map_values(f) =~= Seq::empty());
    }
}

/// A line of the log shows who did what to which task, in columns that are no
/// narrower than asked for and cut nothing off.
pub proof fn law_columns_cut_nothing_off(s: Seq<char>, n: nat)
    ensures
        filled(s, n).len() >= n,
        filled(s, n).len() == n || filled(s, n) == s,
        filled(s, n).take(s.len() as int) == s,
        forall|i: int| s.len() <= i < filled(s, n).len() ==> #[trigger] filled(s, n)[i] == ' ',
{
    assert(filled(s, n).take(s.len() as int) =~= s);
}

/// A listing with something in it is the tree, branches shown where every branch
/// was asked for, and a last line that counts: the rows that are yet to do, those
/// in progress, and the finished tasks that are not shown. An empty one says so.
pub proof fn law_what_a_listing_says(
    ts: Seq<TaskView>,
    args: ListArgs,
    branch: Option<Seq<char>>,
    now: Moment,
    today: Moment,
)
    ensures
        ({
            let rows = tree_rows(ts, listed(ts, args, branch, today));
            let lines = list_text(ts, args, branch, now, today);
            let todo = rows.filter(|r: RowView| r.task.state == State::Todo).len();
            let doing = rows.filter(|r: RowView| r.task.state == State::Doing).len();
            &&& rows.len() == 0 ==> lines == empty_lines(branch, args.state is Some)
            &&& rows.len() > 0 ==> {
                &&& lines.len() == rows.len() + 1
                &&& lines.drop_last() == list_lines(cells_of(ts, rows, now, args.all))
                &&& lines.last() == painted(
                    Ink::Dim,
                    "  "@ + joined(
                        summary_parts(todo, doing, hidden_done(ts, args, branch, today)),
                        " · "@,
                    ),
                )
            }
        }),
{
    let rows = tree_rows(ts, listed(ts, args, branch, today));
    law_the_footer_counts_the_rows(rows, State::Todo);
    law_the_footer_counts_the_rows(rows, State::Doing);
    let lines = list_text(ts, args, branch, now, today);
    if rows.len() > 0 {
        assert(lines.drop_last() =~= list_lines(cells_of(ts, rows, now, args.all)));
    }
}

/// The text for orphans is the tree of them, with their branches, how many there
/// are and how to rescue them; where there are none it says so.
pub proof fn law_what_is_said_of_orphans(
    ts: Seq<TaskView>,
    live: Seq<Seq<char>>,
    done: bool,
    now: Moment,
)
    ensures
        ({
            let kept = stranded(ts, live, done);
            let lines = orphan_lines(ts, live, done, now);
            let n = flags_set(kept, ts.len());
            &&& n == 0 ==> lines == seq!["  Every task is on a branch that still exists."@]
            &&& n > 0 ==> {
                let tree = list_lines(cells_of(ts, tree_rows(ts, kept), now, true));
                &&& lines.len() == tree.len() + 3
                &&& lines.take(tree.len() as int) == tree
                &&& lines[(tree.len() + 1) as int] == "  "@ + decimal(n) + " task"@ + (if n == 1 {
                    ""@
                } else {
                    "s"@
                }) + " on branches that no longer exist."@
            }
        }),
{
    let kept = stranded(ts, live, done);
    law_picking_takes_what_is_flagged(ts, kept, ts.len());
    let tree = list_lines(cells_of(ts, tree_rows(ts, kept), now, true));
    let lines = orphan_lines(ts, live, done, now);
    if flags_set(kept, ts.len()) > 0 {
        assert(lines.take(tree.len() as int) =~= tree);
    }
}

/// A line of the log tells when, who, what, which task and with what detail; an
/// entry by nobody in particular is yours.
pub proof fn law_what_a_line_of_the_log_tells(stamp: Seq<char>, e: EntryView)
    ensures
        ({
            let who = match e.actor {
                Some(a) => a,
                None => "you"@,
            };
            let number = match e.id {
                Some(id) => "#"@ + decimal(id as nat),
                None => ""@,
            };
            let detail = match e.detail {
                Some(d) => d,
                None => ""@,
            };
            log_text(stamp, e) == "  "@ + stamp + "  "@ + filled(who, 8) + " "@ + filled(e.action, 7)
                + " "@ + filled(number, 5) + " "@ + detail
        }),
{
}

/// The log has a line for each entry, in their order; an empty one says so.
pub proof fn law_a_line_for_each_entry(stamps: Seq<Seq<char>>, entries: Seq<EntryView>)
    ensures
        entries.len() == 0 ==> log_lines(stamps, entries) == seq!["  No history yet."@],
        entries.len() > 0 ==> log_lines(stamps, entries).len() == entries.len(),
        forall|i: int|
            0 <= i < entries.len() ==> log_lines(stamps, entries)[i] == log_text(
                stamps[i],
                #[trigger] entries[i],
            ),
{
}

} // verus!
