//! What an agent can ask of the list, and what comes of it.

use crate::cli::{AddArgs, AddView, EditArgs, EditView};
use crate::commands::{
    add_refusal, added_task, cmd_add, cmd_edit, edit, edit_refusal, refuse_add,
};
use crate::error::{Error, ErrorView};
use crate::forest::task_views;
use crate::journal::{records, Entry, Record};
use crate::states::{
    applied, cmd_set_state, event_name, first_missing, named, record_of, state_event,
};
use crate::store::{lookup, seen_from, Access, DataView, Store};
use crate::task::{State, Task, TaskView};
use crate::text::{
    as_opt, blank, cat, copy_opt, is_blank, joined, lowercase, opt_str_view, opt_view, own_opt,
    same, to_lower, trimmed, views,
};
use crate::time::Moment;
use crate::tree::{row_views, tree_rows, RowView};
use crate::views::{any_has, any_holds, haystacks, lowered, searched};
use vstd::prelude::*;

verus! {

// ---------------------------------------------------------------------------
// Arguments
// ---------------------------------------------------------------------------

/// The arguments of a tool, as far as they were given and are of the right
/// kind.
#[derive(Debug)]
pub struct ToolArgs {
    pub all: Option<bool>,
    pub include_done: Option<bool>,
    pub title: Option<String>,
    pub note: Option<String>,
    pub file: Option<String>,
    pub parent: Option<u64>,
    pub repo: Option<bool>,
    pub id: Option<u64>,
    pub ids: Option<Vec<u64>>,
    pub query: Option<String>,
}

#[verifier::ext_equal]
pub struct ToolArgsView {
    pub all: Option<bool>,
    pub include_done: Option<bool>,
    pub title: Option<Seq<char>>,
    pub note: Option<Seq<char>>,
    pub file: Option<Seq<char>>,
    pub parent: Option<u64>,
    pub repo: Option<bool>,
    pub id: Option<u64>,
    pub ids: Option<Seq<u64>>,
    pub query: Option<Seq<char>>,
}

impl View for ToolArgs {
    type V = ToolArgsView;

    open spec fn view(&self) -> ToolArgsView {
        ToolArgsView {
            all: self.all,
            include_done: self.include_done,
            title: opt_view(self.title),
            note: opt_view(self.note),
            file: opt_view(self.file),
            parent: self.parent,
            repo: self.repo,
            id: self.id,
            ids: match self.ids {
                Some(v) => Some(v@),
                None => None,
            },
            query: opt_view(self.query),
        }
    }
}

impl ToolArgs {
    /// No arguments at all.
    pub fn none() -> (r: ToolArgs)
        ensures
            r@ == (ToolArgsView {
                all: None,
                include_done: None,
                title: None,
                note: None,
                file: None,
                parent: None,
                repo: None,
                id: None,
                ids: None,
                query: None,
            }),
    {
        ToolArgs {
            all: None,
            include_done: None,
            title: None,
            note: None,
            file: None,
            parent: None,
            repo: None,
            id: None,
            ids: None,
            query: None,
        }
    }
}

/// An id as it arrives: its lowest 32 bits count.
pub open spec fn narrowed(v: u64) -> u32 {
    v as u32
}

fn narrow(v: u64) -> (r: u32)
    ensures
        r == narrowed(v),
{
    #[verifier::truncate]
    (v as u32)
}

pub open spec fn narrowed_all(v: Seq<u64>) -> Seq<u32> {
    Seq::new(v.len(), |i: int| narrowed(v[i]))
}

fn narrow_all(v: &Vec<u64>) -> (r: Vec<u32>)
    ensures
        r@ == narrowed_all(v@),
{
    let mut out: Vec<u32> = Vec::new();
    let mut i: usize = 0;
    assert(out@ =~= narrowed_all(v@).take(0));
    while i < v.len()
        invariant
            i <= v@.len(),
            out@ == narrowed_all(v@).take(i as int),
        decreases v@.len() - i,
    {
        out.push(narrow(v[i]));
        assert(out@ =~= narrowed_all(v@).take(i + 1));
        i += 1;
    }
    assert(narrowed_all(v@).take(i as int) =~= narrowed_all(v@));
    out
}

// ---------------------------------------------------------------------------
// Refusals
// ---------------------------------------------------------------------------

/// Why a tool failed. A model reads the message and corrects itself.
#[derive(Debug)]
pub enum ToolError {
    NoTitle,
    NoId,
    NoIds,
    NoQuery,
    Unknown { name: String },
    Refused { error: Error },
}

#[verifier::ext_equal]
pub enum ToolErrorView {
    NoTitle,
    NoId,
    NoIds,
    NoQuery,
    Unknown { name: Seq<char> },
    Refused { error: ErrorView },
}

impl View for ToolError {
    type V = ToolErrorView;

    open spec fn view(&self) -> ToolErrorView {
        match self {
            ToolError::NoTitle => ToolErrorView::NoTitle,
            ToolError::NoId => ToolErrorView::NoId,
            ToolError::NoIds => ToolErrorView::NoIds,
            ToolError::NoQuery => ToolErrorView::NoQuery,
            ToolError::Unknown { name } => ToolErrorView::Unknown { name: name@ },
            ToolError::Refused { error } => ToolErrorView::Refused { error: error@ },
        }
    }
}

impl ToolErrorView {
    pub open spec fn text(self) -> Seq<char> {
        match self {
            ToolErrorView::NoTitle => "title is required and must not be empty"@,
            ToolErrorView::NoId => "id is required"@,
            ToolErrorView::NoIds => "ids is required"@,
            ToolErrorView::NoQuery => "query is required"@,
            ToolErrorView::Unknown { name } => "unknown tool: "@ + name,
            ToolErrorView::Refused { error } => error.text(),
        }
    }
}

impl ToolError {
    pub fn message(&self) -> (r: String)
        ensures
            r@ == self@.text(),
    {
        match self {
            ToolError::NoTitle => "title is required and must not be empty".to_owned(),
            ToolError::NoId => "id is required".to_owned(),
            ToolError::NoIds => "ids is required".to_owned(),
            ToolError::NoQuery => "query is required".to_owned(),
            ToolError::Unknown { name } => cat("unknown tool: ", name.as_str()),
            ToolError::Refused { error } => error.message(),
        }
    }
}

// ---------------------------------------------------------------------------
// Outcomes
// ---------------------------------------------------------------------------

/// A task of a listing, and how deep it is nested.
pub struct Listed {
    pub task: Task,
    pub depth: usize,
}

pub open spec fn listed_views(v: Seq<Listed>) -> Seq<(TaskView, nat)> {
    Seq::new(v.len(), |i: int| (v[i].task@, v[i].depth as nat))
}

/// What a tool hands back.
pub enum Reply {
    /// A listing, and the branch it is about.
    List { branch: Option<String>, rows: Vec<Listed> },
    /// One task.
    One { task: Task },
    /// Some tasks.
    Many { tasks: Vec<Task> },
}

#[verifier::ext_equal]
pub enum ReplyView {
    List { branch: Option<Seq<char>>, rows: Seq<(TaskView, nat)> },
    One { task: TaskView },
    Many { tasks: Seq<TaskView> },
}

impl View for Reply {
    type V = ReplyView;

    open spec fn view(&self) -> ReplyView {
        match self {
            Reply::List { branch, rows } => ReplyView::List {
                branch: opt_view(*branch),
                rows: listed_views(rows@),
            },
            Reply::One { task } => ReplyView::One { task: task@ },
            Reply::Many { tasks } => ReplyView::Many { tasks: task_views(tasks@) },
        }
    }
}

/// What a tool did.
pub struct Called {
    pub reply: Reply,
    pub entries: Vec<Entry>,
    /// The hook to fire, and the tasks to fire it for.
    pub event: Option<&'static str>,
    pub fire: Vec<Task>,
}

#[verifier::ext_equal]
pub struct CalledView {
    /// The list, afterwards.
    pub data: DataView,
    pub reply: ReplyView,
    pub records: Seq<Record>,
    pub event: Option<Seq<char>>,
    pub fire: Seq<TaskView>,
}

impl Called {
    /// This, with the list it left behind.
    pub open spec fn at(self, data: DataView) -> CalledView {
        CalledView {
            data,
            reply: self.reply@,
            records: records(self.entries@),
            event: opt_str_view(self.event),
            fire: task_views(self.fire@),
        }
    }
}

// ---------------------------------------------------------------------------
// The tools
// ---------------------------------------------------------------------------

/// Which tasks a listing is about.
pub open spec fn listing_flags(
    ts: Seq<TaskView>,
    here: Option<Seq<char>>,
    a: ToolArgsView,
) -> Seq<bool> {
    Seq::new(
        ts.len(),
        |i: int|
            (a.all == Some(true) || seen_from(ts[i], here)) && (a.include_done == Some(true)
                || ts[i].state != State::Done),
    )
}

pub open spec fn depths(rows: Seq<RowView>) -> Seq<(TaskView, nat)> {
    Seq::new(rows.len(), |i: int| (rows[i].task, rows[i].depth))
}

/// What came of a tool that only looks.
pub open spec fn looked(d: DataView, reply: ReplyView) -> CalledView {
    CalledView {
        data: d,
        reply,
        records: Seq::empty(),
        event: None,
        fire: Seq::empty(),
    }
}

/// A listing.
pub open spec fn list_called(d: DataView, here: Option<Seq<char>>, a: ToolArgsView) -> CalledView {
    looked(
        d,
        ReplyView::List {
            branch: here,
            rows: depths(tree_rows(d.tasks, listing_flags(d.tasks, here, a))),
        },
    )
}

/// A task as an agent asks for it: a blank note is none, and a subtask's branch
/// is its parent's, whatever else was asked for.
pub open spec fn asked(a: ToolArgsView) -> AddView {
    AddView {
        title: seq![a.title->0],
        note: match a.note {
            Some(n) if !is_blank(n) => Some(n),
            _ => None,
        },
        file: a.file,
        parent: match a.parent {
            Some(v) => Some(narrowed(v)),
            None => None,
        },
        repo: a.repo == Some(true) && a.parent is None,
        start: false,
    }
}

pub open spec fn add_called(
    d: DataView,
    here: Option<Seq<char>>,
    a: ToolArgsView,
    who: Option<Seq<char>>,
    now: Moment,
) -> Result<CalledView, ToolErrorView> {
    if a.title is None || is_blank(a.title->0) {
        Err(ToolErrorView::NoTitle)
    } else {
        match add_refusal(d.tasks, asked(a)) {
            Some(error) => Err(ToolErrorView::Refused { error }),
            None => {
                let t = added_task(d.tasks, asked(a), here, who, d.next_id, now);
                Ok(
                    CalledView {
                        data: DataView {
                            next_id: (d.next_id + 1) as u32,
                            tasks: d.tasks.push(t),
                            ..d
                        },
                        reply: ReplyView::One { task: t },
                        records: seq![record_of("add"@, who, t.id, Some(t.title), t.branch)],
                        event: Some("post-add"@),
                        fire: seq![t],
                    },
                )
            },
        }
    }
}

pub open spec fn asked_edit(a: ToolArgsView) -> EditView {
    EditView {
        id: narrowed(a.id->0),
        title: a.title,
        note: a.note,
        file: a.file,
        state: None,
    }
}

pub open spec fn edit_called(
    d: DataView,
    a: ToolArgsView,
    who: Option<Seq<char>>,
    now: Moment,
) -> Result<CalledView, ToolErrorView> {
    if a.id is None {
        Err(ToolErrorView::NoId)
    } else {
        match edit_refusal(d.tasks, asked_edit(a)) {
            Some(error) => Err(ToolErrorView::Refused { error }),
            None => {
                let c = edit(d.tasks, asked_edit(a), who, now);
                Ok(
                    CalledView {
                        data: DataView { tasks: c.tasks, ..d },
                        reply: ReplyView::One {
                            task: c.tasks[lookup(d.tasks, narrowed(a.id->0))->0],
                        },
                        records: c.records,
                        event: None,
                        fire: Seq::empty(),
                    },
                )
            },
        }
    }
}

/// A change of state, which is what it is anywhere else.
pub open spec fn state_called(
    d: DataView,
    ids: Seq<u32>,
    state: State,
    who: Option<Seq<char>>,
    now: Moment,
) -> Result<CalledView, ToolErrorView> {
    match first_missing(d.tasks, ids) {
        Some(id) => Err(ToolErrorView::Refused { error: ErrorView::NoTask { id } }),
        None => {
            let c = applied(d.tasks, ids, state, who, now);
            Ok(
                CalledView {
                    data: DataView { tasks: c.tasks, ..d },
                    reply: ReplyView::Many { tasks: c.touched },
                    records: c.records,
                    event: Some(event_name(state)),
                    fire: named(c.touched, ids),
                },
            )
        },
    }
}

/// The tasks that an agent's search finds.
pub open spec fn found_by(ts: Seq<TaskView>, needle: Seq<char>) -> Seq<TaskView> {
    ts.filter(|t: TaskView| any_holds(lowered(haystacks(t)), needle))
}

/// What comes of a tool.
pub open spec fn called(
    d: DataView,
    here: Option<Seq<char>>,
    name: Seq<char>,
    a: ToolArgsView,
    who: Option<Seq<char>>,
    now: Moment,
) -> Result<CalledView, ToolErrorView> {
    if name == "clt_list"@ {
        Ok(list_called(d, here, a))
    } else if name == "clt_add"@ {
        add_called(d, here, a, who, now)
    } else if name == "clt_edit"@ {
        edit_called(d, a, who, now)
    } else if name == "clt_close"@ {
        if a.ids is None {
            Err(ToolErrorView::NoIds)
        } else {
            state_called(d, narrowed_all(a.ids->0), State::Done, who, now)
        }
    } else if name == "clt_reopen"@ {
        if a.ids is None {
            Err(ToolErrorView::NoIds)
        } else {
            state_called(d, narrowed_all(a.ids->0), State::Todo, who, now)
        }
    } else if name == "clt_start"@ {
        if a.id is None {
            Err(ToolErrorView::NoId)
        } else {
            state_called(d, seq![narrowed(a.id->0)], State::Doing, who, now)
        }
    } else if name == "clt_search"@ {
        if a.query is None {
            Err(ToolErrorView::NoQuery)
        } else {
            Ok(
                looked(
                    d,
                    ReplyView::Many { tasks: found_by(d.tasks, lowercase(a.query->0)) },
                ),
            )
        }
    } else {
        Err(ToolErrorView::Unknown { name })
    }
}

/// Whether a tool changes the list.
pub open spec fn changes(name: Seq<char>) -> bool {
    ||| name == "clt_add"@
    ||| name == "clt_edit"@
    ||| name == "clt_close"@
    ||| name == "clt_reopen"@
    ||| name == "clt_start"@
}

/// Whether a tool needs the write lock.
pub fn tool_access(name: &str) -> (r: Access)
    ensures
        r == (if changes(name@) {
            Access::Write
        } else {
            Access::Read
        }),
{
    if same(name, "clt_add") || same(name, "clt_edit") || same(name, "clt_close") || same(
        name,
        "clt_reopen",
    ) || same(name, "clt_start") {
        Access::Write
    } else {
        Access::Read
    }
}

/// Who to attribute an agent's changes to: whoever the environment names, or
/// "agent". Everything arriving this way is, by construction, not a human at a
/// terminal, and mislabelling it would defeat the point of the journal.
pub fn agent(named: Option<&str>) -> (r: String)
    ensures
        r@ == (match named {
            Some(n) if !is_blank(n@) => n@,
            _ => "agent"@,
        }),
{
    if let Some(n) = named {
        if !blank(n) {
            return n.to_owned();
        }
    }
    "agent".to_owned()
}

fn call_list(store: &Store, a: &ToolArgs) -> (r: Called)
    requires
        store.wf(),
    ensures
        r.at(store@) == list_called(store@, store.scope.branch_of(), a@),
{
    let ghost here = store.scope.branch_of();
    let ghost flags = listing_flags(store@.tasks, here, a@);
    let branch = own_opt(store.scope.branch());
    let every = match a.all {
        Some(b) => b,
        None => false,
    };
    let include_done = match a.include_done {
        Some(b) => b,
        None => false,
    };
    let all = store.tasks();
    let mut kept: Vec<bool> = Vec::new();
    let mut i: usize = 0;
    while i < all.len()
        invariant
            i <= all@.len(),
            task_views(all@) == store@.tasks,
            opt_view(branch) == here,
            every == (a@.all == Some(true)),
            include_done == (a@.include_done == Some(true)),
            flags == listing_flags(store@.tasks, here, a@),
            kept@ == flags.take(i as int),
        decreases all@.len() - i,
    {
        let t = &all[i];
        assert(store@.tasks[i as int] == t@);
        let keep = (every || Store::in_scope(t, as_opt(&branch))) && (include_done || !t.is_done());
        kept.push(keep);
        assert(kept@ =~= flags.take(i + 1));
        i += 1;
    }
    assert(kept@ =~= flags);
    let rows = store.tree_of(&kept);
    let ghost ds = depths(row_views(rows@));
    let mut tasks: Vec<Listed> = Vec::new();
    assert(listed_views(tasks@) =~= ds.take(0));
    let mut j: usize = 0;
    while j < rows.len()
        invariant
            j <= rows@.len(),
            ds == depths(row_views(rows@)),
            listed_views(tasks@) == ds.take(j as int),
        decreases rows@.len() - j,
    {
        let ghost so_far = tasks@;
        let row = &rows[j];
        tasks.push(Listed { task: row.task.clone(), depth: row.depth });
        assert(listed_views(tasks@) =~= listed_views(so_far).push(ds[j as int]));
        assert(listed_views(tasks@) =~= ds.take(j + 1));
        j += 1;
    }
    assert(ds.take(j as int) =~= ds);
    let r = Called {
        reply: Reply::List { branch, rows: tasks },
        entries: Vec::new(),
        event: None,
        fire: Vec::new(),
    };
    proof {
        assert(records(r.entries@) =~= Seq::empty());
        assert(task_views(r.fire@) =~= Seq::empty());
    }
    r
}

proof fn lemma_join_one(s: Seq<char>, sep: Seq<char>)
    ensures
        joined(seq![s], sep) == s,
{
    reveal_with_fuel(joined, 3);
    assert(seq![s].drop_last() =~= Seq::empty());
    assert(seq![s].skip(1) =~= Seq::empty());
    assert(joined(seq![s], sep) =~= s);
}

/// The task that an agent asks for, under a title.
fn ask(title: String, a: &ToolArgs) -> (r: AddArgs)
    requires
        a@.title == Some(title@),
    ensures
        r@ == asked(a@),
{
    let note = match &a.note {
        Some(n) => if blank(n.as_str()) {
            None
        } else {
            Some(n.clone())
        },
        None => None,
    };
    let parent: Option<u32> = match a.parent {
        Some(v) => Some(narrow(v)),
        None => None,
    };
    let repo = match a.repo {
        Some(b) => b && parent.is_none(),
        None => false,
    };
    let mut words: Vec<String> = Vec::new();
    words.push(title);
    let args = AddArgs { title: words, note, file: copy_opt(&a.file), parent, repo, start: false };
    proof {
        assert(views(args.title@) =~= asked(a@).title);
        assert(args@ =~= asked(a@));
    }
    args
}

/// Whether a tool is about to file a task, which takes an id.
pub open spec fn files_a_task(d: DataView, name: Seq<char>, a: ToolArgsView) -> bool {
    name == "clt_add"@ && a.title is Some && add_refusal(d.tasks, asked(a)) is None
}

/// Whether a tool is about to file a task, which takes an id.
pub fn takes_id(store: &Store, name: &str, a: &ToolArgs) -> (r: bool)
    ensures
        r == files_a_task(store@, name@, a@),
{
    if !same(name, "clt_add") {
        return false;
    }
    match &a.title {
        Some(t) => {
            let args = ask(t.clone(), a);
            refuse_add(store, &args).is_none()
        },
        None => false,
    }
}

fn call_add(store: &mut Store, who: Option<&str>, now: Moment, a: &ToolArgs) -> (r: Result<
    Called,
    ToolError,
>)
    requires
        old(store).wf(),
        a@.title is Some && add_refusal(old(store)@.tasks, asked(a@)) is None ==> old(store)@.next_id
            < u32::MAX,
    ensures
        match r {
            Ok(c) => add_called(
                old(store)@,
                old(store).scope.branch_of(),
                a@,
                opt_str_view(who),
                now,
            ) == Ok::<CalledView, ToolErrorView>(c.at(final(store)@)),
            Err(e) => add_called(
                old(store)@,
                old(store).scope.branch_of(),
                a@,
                opt_str_view(who),
                now,
            ) == Err::<CalledView, ToolErrorView>(e@) && final(store)@ == old(store)@,
        },
        final(store).kept(*old(store)),
        final(store).wf(),
{
    let title = match &a.title {
        Some(t) => t.clone(),
        None => {
            return Err(ToolError::NoTitle);
        },
    };
    if blank(title.as_str()) {
        return Err(ToolError::NoTitle);
    }
    let args = ask(title, a);
    match cmd_add(store, who, now, &args) {
        Ok(added) => {
            let mut entries: Vec<Entry> = Vec::new();
            let ghost rec = added.entry@.record();
            entries.push(added.entry);
            let mut fire: Vec<Task> = Vec::new();
            fire.push(added.task.clone());
            let r = Called {
                reply: Reply::One { task: added.task },
                entries,
                event: Some("post-add"),
                fire,
            };
            proof {
                assert(records(r.entries@) =~= seq![rec]);
                assert(task_views(r.fire@) =~= seq![added.task@]);
            }
            Ok(r)
        },
        Err(error) => Err(ToolError::Refused { error }),
    }
}

fn call_edit(store: &mut Store, who: Option<&str>, now: Moment, a: &ToolArgs) -> (r: Result<
    Called,
    ToolError,
>)
    ensures
        match r {
            Ok(c) => edit_called(old(store)@, a@, opt_str_view(who), now) == Ok::<
                CalledView,
                ToolErrorView,
            >(c.at(final(store)@)),
            Err(e) => edit_called(old(store)@, a@, opt_str_view(who), now) == Err::<
                CalledView,
                ToolErrorView,
            >(e@) && final(store)@ == old(store)@,
        },
        final(store).kept(*old(store)),
        old(store).wf() ==> final(store).wf(),
{
    let id: u32 = match a.id {
        Some(v) => narrow(v),
        None => {
            return Err(ToolError::NoId);
        },
    };
    let args = EditArgs {
        id,
        title: copy_opt(&a.title),
        note: copy_opt(&a.note),
        file: copy_opt(&a.file),
        state: None,
    };
    assert(args@ =~= asked_edit(a@));
    match cmd_edit(store, who, now, &args) {
        Ok(edited) => {
            let r = Called {
                reply: Reply::One { task: edited.task },
                entries: edited.entries,
                event: None,
                fire: Vec::new(),
            };
            assert(task_views(r.fire@) =~= Seq::empty());
            Ok(r)
        },
        Err(error) => Err(ToolError::Refused { error }),
    }
}

fn call_state(
    store: &mut Store,
    who: Option<&str>,
    now: Moment,
    ids: &Vec<u32>,
    state: State,
) -> (r: Result<Called, ToolError>)
    ensures
        match r {
            Ok(c) => state_called(old(store)@, ids@, state, opt_str_view(who), now) == Ok::<
                CalledView,
                ToolErrorView,
            >(c.at(final(store)@)),
            Err(e) => state_called(old(store)@, ids@, state, opt_str_view(who), now) == Err::<
                CalledView,
                ToolErrorView,
            >(e@) && final(store)@ == old(store)@,
        },
        final(store).kept(*old(store)),
        old(store).wf() ==> final(store).wf(),
{
    match cmd_set_state(store, who, now, ids, state) {
        Ok(change) => Ok(
            Called {
                reply: Reply::Many { tasks: change.touched },
                entries: change.entries,
                event: Some(state_event(state)),
                fire: change.fire,
            },
        ),
        Err(error) => Err(ToolError::Refused { error }),
    }
}

/// The tasks that hold a needle, which is in lower case already, in their
/// title, note or location.
pub fn search_tasks(store: &Store, needle: &str) -> (r: Vec<Task>)
    ensures
        task_views(r@) == found_by(store@.tasks, needle@),
{
    let ghost ts = store@.tasks;
    let all = store.tasks();
    let mut out: Vec<Task> = Vec::new();
    let mut i: usize = 0;
    proof {
        reveal(Seq::filter);
        assert(task_views(out@) =~= found_by(ts.take(0), needle@));
    }
    while i < all.len()
        invariant
            i <= all@.len(),
            task_views(all@) == ts,
            task_views(out@) == found_by(ts.take(i as int), needle@),
        decreases all@.len() - i,
    {
        let ghost so_far = out@;
        let t = &all[i];
        let texts = searched(t);
        let hit = any_has(&texts, needle);
        proof {
            reveal(Seq::filter);
            assert(ts[i as int] == t@);
            assert(ts.take(i + 1).drop_last() =~= ts.take(i as int));
            assert(ts.take(i + 1).last() == t@);
        }
        if hit {
            out.push(t.clone());
            assert(task_views(out@) =~= task_views(so_far).push(t@));
        }
        i += 1;
    }
    assert(ts.take(i as int) =~= ts);
    out
}

/// Runs a tool.
pub fn call_tool(store: &mut Store, who: Option<&str>, now: Moment, name: &str, a: &ToolArgs) -> (r:
    Result<Called, ToolError>)
    requires
        old(store).wf(),
        files_a_task(old(store)@, name@, a@) ==> old(store)@.next_id < u32::MAX,
    ensures
        match r {
            Ok(c) => called(
                old(store)@,
                old(store).scope.branch_of(),
                name@,
                a@,
                opt_str_view(who),
                now,
            ) == Ok::<CalledView, ToolErrorView>(c.at(final(store)@)),
            Err(e) => called(
                old(store)@,
                old(store).scope.branch_of(),
                name@,
                a@,
                opt_str_view(who),
                now,
            ) == Err::<CalledView, ToolErrorView>(e@) && final(store)@ == old(store)@,
        },
        final(store).kept(*old(store)),
        final(store).wf(),
{
    if same(name, "clt_list") {
        return Ok(call_list(store, a));
    }
    if same(name, "clt_add") {
        return call_add(store, who, now, a);
    }
    if same(name, "clt_edit") {
        return call_edit(store, who, now, a);
    }
    if same(name, "clt_close") || same(name, "clt_reopen") {
        let state = if same(name, "clt_close") {
            State::Done
        } else {
            State::Todo
        };
        let ids = match &a.ids {
            Some(v) => narrow_all(v),
            None => {
                return Err(ToolError::NoIds);
            },
        };
        return call_state(store, who, now, &ids, state);
    }
    if same(name, "clt_start") {
        let mut ids: Vec<u32> = Vec::new();
        match a.id {
            Some(v) => {
                ids.push(narrow(v));
                assert(ids@ =~= seq![narrowed(v)]);
            },
            None => {
                return Err(ToolError::NoId);
            },
        }
        return call_state(store, who, now, &ids, State::Doing);
    }
    if same(name, "clt_search") {
        let query = match &a.query {
            Some(q) => to_lower(q.as_str()),
            None => {
                return Err(ToolError::NoQuery);
            },
        };
        let tasks = search_tasks(store, query.as_str());
        let r = Called {
            reply: Reply::Many { tasks },
            entries: Vec::new(),
            event: None,
            fire: Vec::new(),
        };
        proof {
            assert(records(r.entries@) =~= Seq::empty());
            assert(task_views(r.fire@) =~= Seq::empty());
        }
        return Ok(r);
    }
    Err(ToolError::Unknown { name: name.to_owned() })
}

// ---------------------------------------------------------------------------
// What holds of the tools
// ---------------------------------------------------------------------------

/// A tool that only looks leaves the list alone, and so does one that fails;
/// what needs no write lock writes nothing.
pub proof fn law_looking_changes_nothing(
    d: DataView,
    here: Option<Seq<char>>,
    name: Seq<char>,
    a: ToolArgsView,
    who: Option<Seq<char>>,
    now: Moment,
)
    requires
        !changes(name),
    ensures
        match called(d, here, name, a, who, now) {
            Ok(c) => c.data == d && c.records.len() == 0 && c.event is None,
            Err(_) => true,
        },
{
}

/// Closing through a tool is closing: it cascades, and is recorded, as it is
/// anywhere else.
pub proof fn law_tools_close_as_commands_do(
    d: DataView,
    here: Option<Seq<char>>,
    a: ToolArgsView,
    who: Option<Seq<char>>,
    now: Moment,
)
    requires
        a.ids is Some,
        first_missing(d.tasks, narrowed_all(a.ids->0)) is None,
    ensures
        ({
            let c = applied(d.tasks, narrowed_all(a.ids->0), State::Done, who, now);
            called(d, here, "clt_close"@, a, who, now) matches Ok(r) && r.data.tasks == c.tasks
                && r.records == c.records && r.reply == (ReplyView::Many { tasks: c.touched })
        }),
{
    reveal_strlit("clt_list");
    reveal_strlit("clt_add");
    reveal_strlit("clt_edit");
    reveal_strlit("clt_close");
    assert("clt_list"@.len() != "clt_close"@.len());
    assert("clt_add"@.len() != "clt_close"@.len());
    assert("clt_edit"@.len() != "clt_close"@.len());
}

/// A task that a tool filed has the title that was given, trimmed, and carries
/// whom it is attributed to.
pub proof fn law_filed_tasks_are_attributed(
    d: DataView,
    here: Option<Seq<char>>,
    a: ToolArgsView,
    who: Option<Seq<char>>,
    now: Moment,
)
    ensures
        add_called(d, here, a, who, now) matches Ok(c) ==> c.data.tasks.last().actor == who
            && c.data.tasks.last().title == trimmed(a.title->0) && c.records.len() == 1
            && c.records[0].actor == who,
{
    lemma_join_one(a.title->0, " "@);
}

/// The tools have names of their own.
proof fn lemma_names_apart()
    ensures
        "clt_list"@ != "clt_add"@ && "clt_list"@ != "clt_edit"@ && "clt_list"@ != "clt_close"@,
        "clt_list"@ != "clt_reopen"@ && "clt_list"@ != "clt_start"@ && "clt_list"@ != "clt_search"@,
        "clt_add"@ != "clt_edit"@ && "clt_add"@ != "clt_close"@ && "clt_add"@ != "clt_reopen"@,
        "clt_add"@ != "clt_start"@ && "clt_add"@ != "clt_search"@,
        "clt_edit"@ != "clt_close"@ && "clt_edit"@ != "clt_reopen"@ && "clt_edit"@ != "clt_start"@,
        "clt_edit"@ != "clt_search"@ && "clt_close"@ != "clt_reopen"@ && "clt_close"@
            != "clt_start"@,
        "clt_close"@ != "clt_search"@ && "clt_reopen"@ != "clt_start"@ && "clt_reopen"@
            != "clt_search"@,
        "clt_start"@ != "clt_search"@,
{
    reveal_strlit("clt_list");
    reveal_strlit("clt_add");
    reveal_strlit("clt_edit");
    reveal_strlit("clt_close");
    reveal_strlit("clt_reopen");
    reveal_strlit("clt_start");
    reveal_strlit("clt_search");
    assert("clt_list"@[4] == 'l');
    assert("clt_add"@[4] == 'a');
    assert("clt_edit"@[4] == 'e');
    assert("clt_close"@[4] == 'c');
    assert("clt_reopen"@[4] == 'r');
    assert("clt_start"@[4] == 's' && "clt_start"@[5] == 't');
    assert("clt_search"@[4] == 's' && "clt_search"@[5] == 'e');
}

/// Whether a listing with these arguments is to show a task: it is seen from
/// here, or every branch was asked for; and it is open, or finished ones were
/// asked for.
pub open spec fn agent_wants(t: TaskView, here: Option<Seq<char>>, a: ToolArgsView) -> bool {
    &&& t.branch is None || t.branch == here || a.all == Some(true)
    &&& t.state == State::Todo || t.state == State::Doing || a.include_done == Some(true)
}

/// A listing shows what it is to show, and above that what lies above it; where
/// finished tasks were not asked for, one is shown only above an open one.
pub proof fn law_a_listing_leaves_finished_work_out(
    d: DataView,
    here: Option<Seq<char>>,
    a: ToolArgsView,
    who: Option<Seq<char>>,
    now: Moment,
)
    requires
        crate::forest::is_forest(d.tasks),
    ensures
        called(d, here, "clt_list"@, a, who, now) == Ok::<CalledView, ToolErrorView>(
            list_called(d, here, a),
        ),
        list_called(d, here, a).data == d,
        list_called(d, here, a).reply matches ReplyView::List { branch, rows } && branch == here && {
            &&& forall|r: int|
                0 <= r < rows.len() ==> d.tasks.contains((#[trigger] rows[r]).0) && (agent_wants(
                    rows[r].0,
                    here,
                    a,
                ) || is_above_wanted(d.tasks, rows[r].0.id, here, a))
            &&& forall|j: int|
                0 <= j < d.tasks.len() && agent_wants(#[trigger] d.tasks[j], here, a)
                    ==> has_row_for(rows, d.tasks[j])
        },
{
    lemma_names_apart();
    let ts = d.tasks;
    let keep = listing_flags(ts, here, a);
    let all = tree_rows(ts, keep);
    let rows = depths(all);
    assert forall|j: int| 0 <= j < ts.len() implies (#[trigger] keep[j] <==> agent_wants(
        ts[j],
        here,
        a,
    )) by {}
    assert forall|r: int| 0 <= r < rows.len() implies ts.contains((#[trigger] rows[r]).0) && (
    agent_wants(rows[r].0, here, a) || is_above_wanted(ts, rows[r].0.id, here, a)) by {
        let j = crate::tree::law_rows_are_matches_or_above_one(ts, keep, r);
        assert(rows[r].0 == all[r].task);
        assert(keep[j]);
        if all[r].task.id == ts[j].id {
            let i = choose|i: int| 0 <= i < ts.len() && ts[i] == all[r].task;
            if i < j {
                assert(ts[i].id != ts[j].id);
            } else if j < i {
                assert(ts[j].id != ts[i].id);
            }
        } else {
            assert(is_above_wanted(ts, rows[r].0.id, here, a));
        }
    }
    assert forall|j: int|
        0 <= j < ts.len() && agent_wants(#[trigger] ts[j], here, a) implies has_row_for(
        rows,
        ts[j],
    ) by {
        assert(keep[j]);
        let r = crate::tree::law_every_match_has_a_row(ts, keep, j);
        assert(rows[r].0 == ts[j]);
    }
}

/// Whether a task lies above one that a listing is to show.
pub open spec fn is_above_wanted(
    ts: Seq<TaskView>,
    id: u32,
    here: Option<Seq<char>>,
    a: ToolArgsView,
) -> bool {
    exists|j: int|
        0 <= j < ts.len() && agent_wants(#[trigger] ts[j], here, a) && crate::forest::under(
            ts,
            ts[j].id,
            id,
        )
}

pub open spec fn has_row_for(rows: Seq<(TaskView, nat)>, t: TaskView) -> bool {
    exists|r: int| 0 <= r < rows.len() && (#[trigger] rows[r]).0 == t
}

/// What a listing is not told counts as no: neither every branch nor finished
/// tasks are shown unless that is asked for.
pub proof fn law_listings_are_short_by_default(
    d: DataView,
    here: Option<Seq<char>>,
    a: ToolArgsView,
)
    ensures
        a.include_done is None ==> list_called(d, here, a) == list_called(
            d,
            here,
            ToolArgsView { include_done: Some(false), ..a },
        ),
        a.all is None ==> list_called(d, here, a) == list_called(
            d,
            here,
            ToolArgsView { all: Some(false), ..a },
        ),
{
    let b = ToolArgsView { include_done: Some(false), ..a };
    let c = ToolArgsView { all: Some(false), ..a };
    if a.include_done is None {
        assert(listing_flags(d.tasks, here, a) =~= listing_flags(d.tasks, here, b));
    }
    if a.all is None {
        assert(listing_flags(d.tasks, here, a) =~= listing_flags(d.tasks, here, c));
    }
}

/// What an agent files is what it asked for: the title without the blank space
/// around it, the note unless that is blank, and yet to do. It is on the branch
/// of the task it is nested under, on none where it is for every branch, and on
/// the current one otherwise. The rest of the list stays, and one id is used.
pub proof fn law_what_an_agent_files(
    d: DataView,
    here: Option<Seq<char>>,
    a: ToolArgsView,
    who: Option<Seq<char>>,
    now: Moment,
    p: int,
)
    requires
        crate::forest::unique_ids(d.tasks),
        a.parent is None || (0 <= p < d.tasks.len() && a.parent->0 as u32 == d.tasks[p].id),
        called(d, here, "clt_add"@, a, who, now) is Ok,
        d.next_id < u32::MAX,
    ensures
        ({
            let c = called(d, here, "clt_add"@, a, who, now)->Ok_0;
            let t = c.data.tasks.last();
            &&& a.title is Some
            &&& c.data.tasks == d.tasks.push(t)
            &&& c.data.next_id == d.next_id + 1
            &&& c.data.last_commit == d.last_commit && c.data.version == d.version
            &&& t.id == d.next_id
            &&& t.title == trimmed(a.title->0) && t.title.len() > 0
            &&& a.note is None || is_blank(a.note->0) ==> t.note is None
            &&& a.note is Some && !is_blank(a.note->0) ==> t.note == a.note
            &&& t.state == State::Todo
            &&& t.actor == who
            &&& t.created == now && t.updated == now
            &&& a.parent is Some ==> t.parent == Some(d.tasks[p].id) && t.branch
                == d.tasks[p].branch
            &&& a.parent is None ==> t.parent is None
            &&& a.parent is None && a.repo == Some(true) ==> t.branch is None
            &&& a.parent is None && a.repo != Some(true) ==> t.branch == here
            &&& a.file is None ==> t.location is None
            &&& a.file matches Some(f) ==> (crate::task::location_of(f) matches Ok(l) && t.location
                == Some(l))
            &&& c.reply == (ReplyView::One { task: t })
            &&& c.fire == seq![t] && c.event == Some("post-add"@)
            &&& c.records == seq![
                Record {
                    actor: who,
                    action: "add"@,
                    id: Some(t.id),
                    detail: Some(t.title),
                    branch: t.branch,
                },
            ]
        }),
{
    lemma_names_apart();
    lemma_join_one(a.title->0, " "@);
    if a.parent is Some {
        crate::store::lemma_lookup_at(d.tasks, p);
    }
    let c = called(d, here, "clt_add"@, a, who, now)->Ok_0;
    assert(d.tasks.push(c.data.tasks.last()) =~= c.data.tasks);
}

/// A tool that is not given what it needs says so, and one that nobody knows is
/// unknown.
pub proof fn law_tools_say_what_they_need(
    d: DataView,
    here: Option<Seq<char>>,
    name: Seq<char>,
    a: ToolArgsView,
    who: Option<Seq<char>>,
    now: Moment,
)
    ensures
        name == "clt_add"@ && a.title is None ==> called(d, here, name, a, who, now) == Err::<
            CalledView,
            ToolErrorView,
        >(ToolErrorView::NoTitle),
        name == "clt_add"@ && a.title is Some && is_blank(a.title->0) ==> called(
            d,
            here,
            name,
            a,
            who,
            now,
        ) == Err::<CalledView, ToolErrorView>(ToolErrorView::NoTitle),
        name == "clt_edit"@ || name == "clt_start"@ ==> (a.id is None ==> called(
            d,
            here,
            name,
            a,
            who,
            now,
        ) == Err::<CalledView, ToolErrorView>(ToolErrorView::NoId)),
        name == "clt_close"@ || name == "clt_reopen"@ ==> (a.ids is None ==> called(
            d,
            here,
            name,
            a,
            who,
            now,
        ) == Err::<CalledView, ToolErrorView>(ToolErrorView::NoIds)),
        name == "clt_search"@ ==> (a.query is None ==> called(d, here, name, a, who, now) == Err::<
            CalledView,
            ToolErrorView,
        >(ToolErrorView::NoQuery)),
{
    lemma_names_apart();
}

/// Closing, starting and reopening through a tool are what they are anywhere
/// else, with the state that the tool is named for.
pub proof fn law_tools_change_states_as_commands_do(
    d: DataView,
    here: Option<Seq<char>>,
    a: ToolArgsView,
    who: Option<Seq<char>>,
    now: Moment,
    ids: Seq<u32>,
    id: u32,
)
    requires
        a.ids matches Some(v) && v.len() == ids.len() && forall|i: int|
            0 <= i < v.len() ==> (#[trigger] v[i]) as u32 == ids[i],
        a.id matches Some(v) && v as u32 == id,
    ensures
        called(d, here, "clt_close"@, a, who, now) == state_called(d, ids, State::Done, who, now),
        called(d, here, "clt_reopen"@, a, who, now) == state_called(d, ids, State::Todo, who, now),
        called(d, here, "clt_start"@, a, who, now) == state_called(
            d,
            seq![id],
            State::Doing,
            who,
            now,
        ),
{
    lemma_names_apart();
    assert(narrowed_all(a.ids->0) =~= ids);
    assert(seq![narrowed(a.id->0)] =~= seq![id]);
}

/// A change of state through a tool is refused where a task is missing, and
/// changes nothing then. Otherwise the tasks that it is about reach the state,
/// and those that changed are the reply; the hook for that state fires for those
/// that were named.
pub proof fn law_what_a_change_of_state_answers(
    d: DataView,
    ids: Seq<u32>,
    state: State,
    who: Option<Seq<char>>,
    now: Moment,
)
    requires
        crate::forest::unique_ids(d.tasks),
    ensures
        (exists|k: int| 0 <= k < ids.len() && !crate::forest::has_id(d.tasks, #[trigger] ids[k]))
            <==> state_called(d, ids, state, who, now) is Err,
        state_called(d, ids, state, who, now) matches Err(e) ==> (e matches ToolErrorView::Refused {
            error,
        } && error matches ErrorView::NoTask { id } && ids.contains(id) && !crate::forest::has_id(
            d.tasks,
            id,
        )),
        state_called(d, ids, state, who, now) matches Ok(c) ==> {
            &&& c.data == (DataView { tasks: c.data.tasks, ..d })
            &&& c.data.tasks.len() == d.tasks.len()
            &&& forall|i: int|
                0 <= i < d.tasks.len() ==> (#[trigger] c.data.tasks[i]).state == (
                if crate::states::is_asked(d.tasks, ids, state, d.tasks[i].id) {
                    state
                } else {
                    d.tasks[i].state
                })
            &&& c.reply matches ReplyView::Many { tasks } && {
                &&& forall|i: int|
                    0 <= i < d.tasks.len() && (#[trigger] c.data.tasks[i]) != d.tasks[i]
                        ==> tasks.contains(c.data.tasks[i])
                &&& forall|t: TaskView| #[trigger]
                    c.fire.contains(t) <==> tasks.contains(t) && ids.contains(t.id)
            }
            &&& c.event == Some(
                match state {
                    State::Done => "post-done"@,
                    State::Doing => "post-start"@,
                    State::Todo => "post-reopen"@,
                },
            )
        },
{
    crate::states::law_the_first_missing_id_is_named(d.tasks, ids);
    crate::states::law_requests_report_what_they_changed(d.tasks, ids, state, who, now);
    let applied_to = applied(d.tasks, ids, state, who, now);
    crate::states::law_hooks_fire_for_what_was_named(applied_to.touched, ids);
    assert forall|i: int| 0 <= i < d.tasks.len() implies applied_to.tasks.len() == d.tasks.len() && (
    #[trigger] applied_to.tasks[i]).state == (if crate::states::is_asked(
        d.tasks,
        ids,
        state,
        d.tasks[i].id,
    ) {
        state
    } else {
        d.tasks[i].state
    }) by {
        crate::states::law_requests_reach_whom_they_are_about(d.tasks, ids, state, who, now, i);
    }
    crate::states::lemma_applied_links(d.tasks, ids, state, who, now);
}

/// An agent's search finds, on every branch, the tasks whose title, note or
/// location holds the query, whatever its case; and it finds nothing else.
pub proof fn law_what_an_agent_finds(
    d: DataView,
    here: Option<Seq<char>>,
    a: ToolArgsView,
    who: Option<Seq<char>>,
    now: Moment,
    query: Seq<char>,
    t: TaskView,
)
    requires
        a.query == Some(query),
    ensures
        match called(d, here, "clt_search"@, a, who, now) {
            Ok(c) => c.data == d && match c.reply {
                ReplyView::Many { tasks } => tasks.contains(t) <==> d.tasks.contains(t) && ({
                    ||| crate::text::has(lowercase(t.title), lowercase(query))
                    ||| t.note matches Some(note) && crate::text::has(
                        lowercase(note),
                        lowercase(query),
                    )
                    ||| t.location matches Some(place) && crate::text::has(
                        lowercase(place.text()),
                        lowercase(query),
                    )
                }),
                _ => false,
            },
            Err(_) => false,
        },
{
    lemma_names_apart();
    let needle = lowercase(query);
    crate::text::lemma_filter_contains(
        d.tasks,
        |t: TaskView| any_holds(lowered(haystacks(t)), needle),
    );
    crate::views::lemma_searched(t, needle);
}

/// An edit through a tool is the edit of the task with that id, with the fields
/// that were given and no other.
pub proof fn law_tools_edit_as_commands_do(
    d: DataView,
    here: Option<Seq<char>>,
    a: ToolArgsView,
    who: Option<Seq<char>>,
    now: Moment,
    args: EditView,
)
    requires
        a.id matches Some(v) && args.id == v as u32,
        args.title == a.title && args.note == a.note && args.file == a.file,
        args.state is None,
    ensures
        match edit_refusal(d.tasks, args) {
            Some(error) => called(d, here, "clt_edit"@, a, who, now) == Err::<
                CalledView,
                ToolErrorView,
            >(ToolErrorView::Refused { error }),
            None => called(d, here, "clt_edit"@, a, who, now) matches Ok(c) && c.data == (DataView {
                tasks: edit(d.tasks, args, who, now).tasks,
                ..d
            }) && c.records == edit(d.tasks, args, who, now).records && c.event is None
                && c.fire.len() == 0,
        },
{
    lemma_names_apart();
    assert(asked_edit(a) =~= args);
}

/// The tools that take the write lock are those that file, edit and change
/// states, and not those that list and search.
pub proof fn law_what_changes_the_list()
    ensures
        changes("clt_add"@) && changes("clt_edit"@) && changes("clt_close"@) && changes(
            "clt_start"@,
        ) && changes("clt_reopen"@),
        !changes("clt_list"@) && !changes("clt_search"@),
{
    lemma_names_apart();
}

/// A row of a listing tells how many tasks lie above its task.
pub proof fn law_rows_tell_how_deep_they_are(
    d: DataView,
    here: Option<Seq<char>>,
    a: ToolArgsView,
    r: int,
)
    requires
        crate::forest::is_forest(d.tasks),
        list_called(d, here, a).reply matches ReplyView::List { branch, rows } && 0 <= r < rows.len(),
    ensures
        list_called(d, here, a).reply matches ReplyView::List { branch, rows } && ({
            let (t, depth) = rows[r];
            crate::forest::ancestor(d.tasks, t.id, depth) is Some && crate::forest::ancestor(
                d.tasks,
                t.id,
                depth + 1,
            ) is None
        }),
{
    let keep = listing_flags(d.tasks, here, a);
    crate::tree::law_tree_shows_everything_once(d.tasks, keep);
    let all = tree_rows(d.tasks, keep);
    assert(depths(all)[r] == (all[r].task, all[r].depth));
    assert(all[r].depth == crate::tree::layout(d.tasks, keep)[r].1);
    assert(all[r].task == d.tasks[crate::tree::layout(d.tasks, keep)[r].0]);
}

/// What a search finds comes in the order of the list, each task once.
pub proof fn law_a_search_keeps_the_order(ts: Seq<TaskView>, needle: Seq<char>)
    ensures
        found_by(ts, needle) == ts.filter(
            |t: TaskView|
                {
                    ||| crate::text::has(lowercase(t.title), needle)
                    ||| t.note matches Some(note) && crate::text::has(lowercase(note), needle)
                    ||| t.location matches Some(place) && crate::text::has(
                        lowercase(place.text()),
                        needle,
                    )
                },
        ),
{
    let p = |t: TaskView| any_holds(lowered(haystacks(t)), needle);
    let q = |t: TaskView|
        {
            ||| crate::text::has(lowercase(t.title), needle)
            ||| t.note matches Some(note) && crate::text::has(lowercase(note), needle)
            ||| t.location matches Some(place) && crate::text::has(lowercase(place.text()), needle)
        };
    assert forall|i: int| 0 <= i < ts.len() implies p(#[trigger] ts[i]) == q(ts[i]) by {
        crate::views::lemma_searched(ts[i], needle);
    }
    crate::text::lemma_same_filter(ts, p, q);
}

} // verus!
