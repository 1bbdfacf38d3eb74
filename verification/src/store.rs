//! The task list in memory.

use crate::error::{Error, ErrorView};
use crate::forest::{
    acyclic, ancestor, below, children, cyclic, has_id, is_ancestry, is_forest,
    lemma_ancestor_end, lemma_ancestor_prefix, lemma_ancestor_steps, lemma_below,
    lemma_below_held, lemma_parent_at, lemma_parent_of, parent_of, parents_exist, subtree, task_views, under,
    unique_ids, Kids, Parents,
};
use crate::git::{answer, GitRun, Repo};
use crate::repair::{ids_suffice, law_repair_makes_a_forest, repair, repair_notes, repaired};
use crate::task::{State, Task, TaskView};
use crate::text::{as_opt, opt_str_view, opt_view, own_opt, same, same_opt, views};
use crate::time::Moment;
use crate::tree::{row_views, rows, tree_rows, Row};
use std::collections::HashMap;
use vstd::prelude::*;

verus! {

broadcast use vstd::std_specs::hash::group_hash_axioms;

/// Bumped only for changes that need a migration. Readers must tolerate a
/// *lower* version by filling defaults, and refuse a higher one rather than
/// silently discarding fields they don't understand.
pub const FORMAT_VERSION: u32 = 1;

/// The task list's path relative to the repo root, for the git queries that
/// decide whether it is shared.
pub const REL_TASKS: &'static str = ".clt/tasks.json";

/// Dropped into `.clt/README.md` by `clt init`.
///
/// The directory holds a format this project deliberately documents as open —
/// hand-editable, agent-writable — so it should explain itself to whoever opens
/// it next, without them having to already know the tool exists.
pub const README: &'static str = r##"# .clt/

The task list for this repository, written by `clt`. Run `clt` anywhere in the
repo to see it, or `clt --help` for the rest.

## What is in here

| File | Purpose |
| --- | --- |
| `tasks.json` | The list itself. Documented format, safe to hand-edit. |
| `log.jsonl` | Append-only audit log: who changed what, and when. |
| `hooks/` | Executables run after a task changes. See below. |
| `.gitignore` | Present only when the list is shared; keeps local state local. |
| `lock` | Held briefly while a process writes. Safe to delete if stale. |

## tasks.json

```json
{
  "version": 1,
  "next_id": 4,
  "tasks": [
    {
      "id": 3,
      "title": "token refresh races on 401",
      "state": "todo",
      "branch": "feat/auth",
      "parent": 1,
      "location": { "file": "src/auth.rs", "line": 88 },
      "created": "2026-08-09T14:37:02Z",
      "updated": "2026-08-09T14:37:02Z"
    }
  ]
}
```

`state` is `todo`, `doing` or `done`. `branch` absent means the task is
repo-wide and shows on every branch. `parent` absent means it is a root task.

Edit it by hand if you like. On load, clt repairs duplicate ids, parents that
do not exist, and parent cycles, reporting each repair on stderr. Ids are never
reused, so deleting a task does not free its number.

## Is this committed?

By default, no: `clt` adds `.clt/` to `.git/info/exclude`, which is per-clone
and untracked. That keeps the list out of pull requests and out of merge
conflicts, at the cost of it not surviving a clone.

Run `clt share` to commit it instead, and `clt unshare` to go back.

## Hooks

An executable named for the event, in `hooks/`, in any language:

    post-add  post-done  post-start  post-reopen  post-rm

The task arrives as JSON on stdin, and in `CLT_EVENT`, `CLT_TASK_ID`,
`CLT_TASK_TITLE`, `CLT_TASK_STATE`, `CLT_BRANCH`, `CLT_ACTOR` and
`CLT_TASK_JSON`. Exit status is reported but ignored — these run after the
change has already happened.

`post-add.sample` in `hooks/` is a working example. Rename it to `post-add`
(and `chmod +x` it on Unix) to enable it.
"##;

/// Written into `.clt/.gitignore` by `clt share`, so that opting in shares the
/// task list without also sharing per-clone noise.
pub const LOCAL_GITIGNORE: &'static str = "\
# Written by `clt share`. The task list (tasks.json) and hooks/ are shared with
# the repo; everything below is per-clone and must not be committed.
#
# The journal is local on purpose: it is an append-only record of activity in
# this checkout, and two clones appending to the same file would conflict on
# every pull.
log.jsonl
log.jsonl.*
lock
*.tmp
";

/// What the task file holds.
#[derive(Debug)]
pub struct Data {
    pub version: u32,
    /// Monotonic id counter. Never reuses an id even after deletion: ids get
    /// typed by humans and quoted by agents, and silently recycling `3` onto a
    /// different task is a great way to close the wrong thing.
    pub next_id: u32,
    pub tasks: Vec<Task>,
    /// Last commit examined for closing directives, so that only new history
    /// is looked at.
    pub last_commit: Option<String>,
}

#[verifier::ext_equal]
pub struct DataView {
    pub version: u32,
    pub next_id: u32,
    pub tasks: Seq<TaskView>,
    pub last_commit: Option<Seq<char>>,
}

impl View for Data {
    type V = DataView;

    open spec fn view(&self) -> DataView {
        DataView {
            version: self.version,
            next_id: self.next_id,
            tasks: task_views(self.tasks@),
            last_commit: opt_view(self.last_commit),
        }
    }
}

impl Default for Data {
    fn default() -> (r: Data)
        ensures
            r@ == (DataView {
                version: FORMAT_VERSION,
                next_id: 1,
                tasks: Seq::empty(),
                last_commit: None,
            }),
    {
        Data { version: FORMAT_VERSION, next_id: 1, tasks: Vec::new(), last_commit: None }
    }
}

/// Refuses a list that a later version wrote.
pub fn check_format(data: Data) -> (r: Result<Data, Error>)
    ensures
        match r {
            Ok(d) => data.version <= FORMAT_VERSION && d == data,
            Err(e) => data.version > FORMAT_VERSION && e@ == (ErrorView::FutureFormat {
                version: data.version,
            }),
        },
{
    if data.version > FORMAT_VERSION {
        Err(Error::FutureFormat { version: data.version })
    } else {
        Ok(data)
    }
}

/// Which list we're operating on.
#[derive(Debug)]
pub enum Scope {
    Repo(Repo),
    Global,
}

impl Scope {
    /// The branch a new task is scoped to, and the one the default view filters
    /// on. `None` outside a repo or on a detached HEAD.
    pub open spec fn branch_of(self) -> Option<Seq<char>> {
        match self {
            Scope::Repo(r) => opt_view(r.branch),
            Scope::Global => None,
        }
    }

    pub fn repo(&self) -> (r: Option<&Repo>)
        ensures
            match r {
                Some(x) => *self == Scope::Repo(*x),
                None => *self == Scope::Global,
            },
    {
        match self {
            Scope::Repo(r) => Some(r),
            Scope::Global => None,
        }
    }

    /// The repo, or why one is needed.
    pub fn repo_or(&self, refusal: Error) -> (r: Result<&Repo, Error>)
        ensures
            match r {
                Ok(x) => *self == Scope::Repo(*x),
                Err(e) => *self == Scope::Global && e == refusal,
            },
    {
        match self {
            Scope::Repo(r) => Ok(r),
            Scope::Global => Err(refusal),
        }
    }

    pub fn branch(&self) -> (r: Option<&str>)
        ensures
            opt_str_view(r) == self.branch_of(),
    {
        match self {
            Scope::Repo(r) => as_opt(&r.branch),
            Scope::Global => None,
        }
    }
}

/// Whether the caller intends to modify the list.
///
/// A writer takes the cross-process lock at load time and holds it until it has
/// saved, because a task edit is a read-modify-write and two of those
/// interleaved lose one of the changes. A reader takes nothing: the file is
/// replaced by an atomic rename, so a reader always sees some whole version.
#[derive(Debug, Clone, Copy, PartialEq, Eq, Structural)]
pub enum Access {
    Read,
    Write,
}

/// What was found where the list is kept.
pub enum Loaded {
    /// A task file.
    File(Data),
    /// A list in the format before version 1, and what to say about it.
    Legacy(Data, String),
    Nothing,
}

impl Loaded {
    /// The list to begin with.
    pub open spec fn start(self) -> DataView {
        match self {
            Loaded::File(d) => d@,
            Loaded::Legacy(d, _) => d@,
            Loaded::Nothing => DataView {
                version: FORMAT_VERSION,
                next_id: 1,
                tasks: Seq::empty(),
                last_commit: None,
            },
        }
    }

    pub open spec fn said(self) -> Seq<Seq<char>> {
        match self {
            Loaded::Legacy(_, note) => seq![note@],
            _ => Seq::empty(),
        }
    }
}

/// The position of the first task with this id, at or after `i`.
pub open spec fn lookup_from(ts: Seq<TaskView>, id: u32, i: int) -> Option<int>
    decreases ts.len() - i,
{
    if i < 0 || i >= ts.len() {
        None
    } else if ts[i].id == id {
        Some(i)
    } else {
        lookup_from(ts, id, i + 1)
    }
}

/// The position of the first task with this id.
pub open spec fn lookup(ts: Seq<TaskView>, id: u32) -> Option<int> {
    lookup_from(ts, id, 0)
}

proof fn lemma_lookup_from(ts: Seq<TaskView>, id: u32, i: int)
    requires
        0 <= i <= ts.len(),
    ensures
        match lookup_from(ts, id, i) {
            Some(k) => i <= k < ts.len() && ts[k].id == id && forall|j: int|
                i <= j < k ==> (#[trigger] ts[j]).id != id,
            None => forall|j: int| i <= j < ts.len() ==> (#[trigger] ts[j]).id != id,
        },
    decreases ts.len() - i,
{
    if i < ts.len() && ts[i].id != id {
        lemma_lookup_from(ts, id, i + 1);
    }
}

pub proof fn lemma_lookup(ts: Seq<TaskView>, id: u32)
    ensures
        match lookup(ts, id) {
            Some(k) => 0 <= k < ts.len() && ts[k].id == id && forall|j: int|
                0 <= j < k ==> (#[trigger] ts[j]).id != id,
            None => !has_id(ts, id),
        },
        lookup(ts, id) is Some <==> has_id(ts, id),
{
    lemma_lookup_from(ts, id, 0);
    if let Some(k) = lookup(ts, id) {
        assert(ts[k].id == id);
    }
}

/// With unique ids, a task is found by its id.
pub proof fn lemma_lookup_at(ts: Seq<TaskView>, k: int)
    requires
        unique_ids(ts),
        0 <= k < ts.len(),
    ensures
        lookup(ts, ts[k].id) == Some(k),
{
    lemma_lookup(ts, ts[k].id);
    assert(has_id(ts, ts[k].id));
    let j = lookup(ts, ts[k].id)->0;
    if j < k {
        assert(ts[j].id != ts[k].id);
    }
    if k < j {
        assert(ts[k].id != ts[j].id);
    }
}

/// The way to the directory of the list that is used outside of any repo: below
/// the platform's data directory where it is set, and below the home directory
/// otherwise. An empty setting is none.
pub open spec fn data_dir(base: Option<Seq<char>>, home: Option<Seq<char>>, windows: bool) -> Option<
    Seq<Seq<char>>,
> {
    match base {
        Some(b) if b.len() > 0 => Some(seq![b, "clt"@]),
        _ => match home {
            Some(h) if h.len() > 0 => Some(
                if windows {
                    seq![h, "AppData"@, "Local"@, "clt"@]
                } else {
                    seq![h, ".local"@, "share"@, "clt"@]
                },
            ),
            _ => None,
        },
    }
}

/// The way to the directory of the global list, step by step.
pub fn global_dir(base: Option<&str>, home: Option<&str>, windows: bool) -> (r: Result<
    Vec<String>,
    Error,
>)
    ensures
        match r {
            Ok(steps) => data_dir(opt_str_view(base), opt_str_view(home), windows) == Some(
                views(steps@),
            ),
            Err(e) => data_dir(opt_str_view(base), opt_str_view(home), windows) is None && e@ == (
            ErrorView::NoDataDir { windows }),
        },
{
    let mut steps: Vec<String> = Vec::new();
    if let Some(b) = base {
        if !b.is_empty() {
            steps.push(b.to_owned());
            steps.push("clt".to_owned());
            assert(views(steps@) =~= seq![b@, "clt"@]);
            return Ok(steps);
        }
    }
    if let Some(h) = home {
        if !h.is_empty() {
            steps.push(h.to_owned());
            if windows {
                steps.push("AppData".to_owned());
                steps.push("Local".to_owned());
                steps.push("clt".to_owned());
                assert(views(steps@) =~= seq![h@, "AppData"@, "Local"@, "clt"@]);
            } else {
                steps.push(".local".to_owned());
                steps.push("share".to_owned());
                steps.push("clt".to_owned());
                assert(views(steps@) =~= seq![h@, ".local"@, "share"@, "clt"@]);
            }
            return Ok(steps);
        }
    }
    Err(Error::NoDataDir { windows })
}

/// The task list, loaded and repaired.
pub struct Store {
    pub scope: Scope,
    /// What is on disk, or is to be.
    pub data: Data,
    /// Warnings raised while loading (repaired cycles, dropped junk). Surfaced
    /// once rather than swallowed.
    pub warnings: Vec<String>,
    /// Set when this load performed a one-time migration, or repaired damage in
    /// the file, and the result isn't on disk yet.
    ///
    /// It must be persisted even for a read-only command. Otherwise the import
    /// would run on every single invocation, and the broken file would stay on
    /// disk for every other reader of this deliberately open format.
    pub migrated: bool,
}

impl View for Store {
    type V = DataView;

    open spec fn view(&self) -> DataView {
        self.data@
    }
}

/// Whether the counter has begun, and every id is below it. Only the last id
/// there is can lie past it.
pub open spec fn counted(d: DataView) -> bool {
    d.next_id >= 1 && forall|i: int|
        0 <= i < d.tasks.len() ==> (#[trigger] d.tasks[i]).id < d.next_id || d.next_id == u32::MAX
}

pub open spec fn data_ok(d: DataView) -> bool {
    is_forest(d.tasks) && counted(d)
}

/// Whether `t` should appear in a view of `branch`.
pub open spec fn seen_from(t: TaskView, branch: Option<Seq<char>>) -> bool {
    t.branch is None || t.branch == branch
}

/// The number of ids with some property.
pub open spec fn count_where(ids: Seq<u32>, p: spec_fn(u32) -> bool) -> nat
    decreases ids.len(),
{
    if ids.len() == 0 {
        0
    } else {
        count_where(ids.drop_last(), p) + (if p(ids.last()) {
            1nat
        } else {
            0
        })
    }
}

pub open spec fn id_done(ts: Seq<TaskView>) -> spec_fn(u32) -> bool {
    |id: u32|
        match lookup(ts, id) {
            Some(i) => ts[i].state == State::Done,
            None => false,
        }
}

/// How many of the tasks below `id` are done, and how many there are; nothing
/// for a task with no subtasks.
pub open spec fn progress_of(ts: Seq<TaskView>, id: u32) -> Option<(nat, nat)> {
    if below(ts, id).len() == 0 {
        None
    } else {
        Some((count_where(below(ts, id), id_done(ts)), below(ts, id).len()))
    }
}

pub open spec fn pair_view(p: Option<(usize, usize)>) -> Option<(nat, nat)> {
    match p {
        Some((a, b)) => Some((a as nat, b as nat)),
        None => None,
    }
}

/// Why `id` cannot be put under `parent`, if it cannot.
pub open spec fn reparent_refusal(
    ts: Seq<TaskView>,
    id: u32,
    parent: Option<u32>,
) -> Option<ErrorView> {
    if !has_id(ts, id) {
        Some(ErrorView::NoTask { id })
    } else {
        match parent {
            None => None,
            Some(p) => {
                let child = ts[lookup(ts, id)->0];
                let above = ts[lookup(ts, p)->0];
                if p == id {
                    Some(ErrorView::OwnParent)
                } else if !has_id(ts, p) {
                    Some(ErrorView::NoTask { id: p })
                } else if below(ts, id).contains(p) {
                    Some(ErrorView::WouldCycle { id, parent: p })
                } else if above.branch != child.branch {
                    Some(
                        ErrorView::OtherBranch {
                            id,
                            branch: child.branch,
                            parent: p,
                            parent_branch: above.branch,
                        },
                    )
                } else {
                    None
                }
            },
        }
    }
}

pub open spec fn reparented(
    ts: Seq<TaskView>,
    id: u32,
    parent: Option<u32>,
    now: Moment,
) -> Seq<TaskView> {
    let i = lookup(ts, id)->0;
    ts.update(i, TaskView { parent, updated: now, ..ts[i] })
}

/// Why `id` cannot be moved to another branch, if it cannot.
pub open spec fn scope_refusal(ts: Seq<TaskView>, id: u32) -> Option<ErrorView> {
    if !has_id(ts, id) {
        Some(ErrorView::NoTask { id })
    } else {
        match ts[lookup(ts, id)->0].parent {
            Some(parent) => Some(ErrorView::Nested { id, parent }),
            None => None,
        }
    }
}

/// `id` and everything below it, breadth-first.
pub open spec fn whole(ts: Seq<TaskView>, id: u32) -> Seq<u32> {
    seq![id] + below(ts, id)
}

/// `t`, moved to `branch` if it is not there.
pub open spec fn rescoped_task(t: TaskView, branch: Option<Seq<char>>, now: Moment) -> TaskView {
    if t.branch == branch {
        t
    } else {
        TaskView { branch, updated: now, ..t }
    }
}

pub open spec fn rescoped(
    ts: Seq<TaskView>,
    ids: Seq<u32>,
    branch: Option<Seq<char>>,
    now: Moment,
) -> Seq<TaskView> {
    Seq::new(
        ts.len(),
        |i: int|
            if ids.contains(ts[i].id) {
                rescoped_task(ts[i], branch, now)
            } else {
                ts[i]
            },
    )
}

/// Which of `ids` are on another branch, in their order.
pub open spec fn elsewhere(
    ts: Seq<TaskView>,
    ids: Seq<u32>,
    branch: Option<Seq<char>>,
) -> Seq<u32> {
    ids.filter(
        |id: u32|
            match lookup(ts, id) {
                Some(i) => ts[i].branch != branch,
                None => false,
            },
    )
}

/// Whether `t` is pinned to a branch that is not among `live`.
pub open spec fn is_orphan(t: TaskView, live: Seq<Seq<char>>) -> bool {
    t.branch is Some && !live.contains(t.branch->0)
}

pub open spec fn orphans(ts: Seq<TaskView>, live: Seq<Seq<char>>) -> Seq<TaskView> {
    ts.filter(|t: TaskView| is_orphan(t, live))
}

pub open spec fn ref_views(v: Seq<&Task>) -> Seq<TaskView> {
    Seq::new(v.len(), |i: int| v[i]@)
}

pub open spec fn without(ts: Seq<TaskView>, gone: Set<u32>) -> Seq<TaskView> {
    ts.filter(|t: TaskView| !gone.contains(t.id))
}

pub open spec fn ascending(s: Seq<u32>) -> bool {
    forall|i: int, j: int| 0 <= i < j < s.len() ==> s[i] < s[j]
}

/// The position of the first task that a marker with this key stands for, at or
/// after `i`.
pub open spec fn marked_from(ts: Seq<TaskView>, key: Seq<char>, i: int) -> Option<int>
    decreases ts.len() - i,
{
    if i < 0 || i >= ts.len() {
        None
    } else if ts[i].scan_key() == Some(key) {
        Some(i)
    } else {
        marked_from(ts, key, i + 1)
    }
}

impl Store {
    /// The list is a forest, and its counter is past every id.
    pub open spec fn wf(self) -> bool {
        data_ok(self@)
    }

    /// Everything about the store but its list.
    pub open spec fn kept(self, was: Store) -> bool {
        self.scope == was.scope && self.warnings == was.warnings && self.migrated == was.migrated
    }

    /// Takes what was found, and repairs it.
    ///
    /// A repair is as much a reason to rewrite the file as a migration is: the
    /// damage is still on disk until then.
    pub fn open_in(scope: Scope, found: Loaded) -> (r: Store)
        requires
            ids_suffice(found.start()),
        ensures
            r.scope == scope,
            r.wf(),
            r@ == repaired(found.start()),
            views(r.warnings@) == found.said() + repair_notes(found.start()),
            r.migrated == (found is Legacy || repaired(found.start()) != found.start()),
    {
        let ghost start = found.start();
        let mut warnings: Vec<String> = Vec::new();
        let mut migrated: bool = false;
        let mut data = match found {
            Loaded::File(d) => d,
            Loaded::Legacy(d, note) => {
                warnings.push(note);
                migrated = true;
                d
            },
            Loaded::Nothing => Data::default(),
        };
        assert(views(warnings@) =~= found.said());
        assert(data@ =~= start);
        let repaired = repair(&mut data, &mut warnings);
        proof {
            law_repair_makes_a_forest(start);
            crate::repair::lemma_repaired_is_counted(start);
        }
        Store { scope, data, warnings, migrated: migrated || repaired }
    }

    pub fn tasks(&self) -> (r: &Vec<Task>)
        ensures
            task_views(r@) == self@.tasks,
    {
        &self.data.tasks
    }

    /// Whether the list travels with the repo, given what git said when it was
    /// asked whether it tracks [`REL_TASKS`]. Never outside a repo, where there
    /// is nothing for the list to travel with.
    pub fn is_shared(&self, run: &GitRun) -> (r: bool)
        ensures
            r == (self.scope is Repo && answer(*run) matches Ok(Some(_))),
    {
        match self.scope.repo() {
            Some(repo) => repo.is_tracked(run),
            None => false,
        }
    }

    /// Whether saving is to hide the list from git: only when it is written for
    /// the first time. Doing so on every save would silently undo sharing, and
    /// would hide a list that arrived with a clone.
    pub fn claims_exclusion(&self, file_exists: bool) -> (r: bool)
        ensures
            r == (!file_exists && self.scope is Repo),
    {
        !file_exists && self.scope.repo().is_some()
    }

    pub fn last_commit(&self) -> (r: Option<&str>)
        ensures
            opt_str_view(r) == self@.last_commit,
    {
        as_opt(&self.data.last_commit)
    }

    pub fn set_last_commit(&mut self, sha: Option<String>)
        ensures
            final(self)@ == (DataView { last_commit: opt_view(sha), ..old(self)@ }),
            final(self).kept(*old(self)),
            old(self).wf() ==> final(self).wf(),
    {
        self.data.last_commit = sha;
    }

    /// The position of a task.
    fn find(&self, id: u32) -> (r: Option<usize>)
        ensures
            match r {
                Some(i) => lookup(self@.tasks, id) == Some(i as int) && i < self.data.tasks@.len(),
                None => lookup(self@.tasks, id) is None,
            },
    {
        let mut i: usize = 0;
        while i < self.data.tasks.len()
            invariant
                i <= self.data.tasks@.len(),
                lookup(self@.tasks, id) == lookup_from(self@.tasks, id, i as int),
            decreases self.data.tasks@.len() - i,
        {
            if self.data.tasks[i].id == id {
                return Some(i);
            }
            i += 1;
        }
        None
    }

    pub fn get(&self, id: u32) -> (r: Option<&Task>)
        ensures
            match r {
                Some(t) => lookup(self@.tasks, id) is Some && t@ == self@.tasks[lookup(
                    self@.tasks,
                    id,
                )->0],
                None => lookup(self@.tasks, id) is None,
            },
    {
        match self.find(id) {
            Some(i) => Some(&self.data.tasks[i]),
            None => None,
        }
    }

    pub fn get_mut(&mut self, id: u32) -> (r: Option<&mut Task>)
        ensures
            match r {
                Some(t) => lookup(old(self)@.tasks, id) matches Some(i) && t@ == old(self)@.tasks[i]
                    && final(self)@ == (DataView {
                    tasks: old(self)@.tasks.update(i, final(t)@),
                    ..old(self)@
                }),
                None => lookup(old(self)@.tasks, id) is None && final(self)@ == old(self)@,
            },
            final(self).kept(*old(self)),
    {
        let found = self.find(id);
        match found {
            Some(i) => {
                let t = &mut self.data.tasks[i];
                assert(task_views(after_borrow(self).data.tasks@) =~= old(self)@.tasks.update(
                    i as int,
                    final(t)@,
                ));
                Some(t)
            },
            None => None,
        }
    }

    /// Like [`Self::get`], but with an error message that helps.
    pub fn require(&self, id: u32) -> (r: Result<&Task, Error>)
        ensures
            match r {
                Ok(t) => lookup(self@.tasks, id) is Some && t@ == self@.tasks[lookup(
                    self@.tasks,
                    id,
                )->0],
                Err(e) => !has_id(self@.tasks, id) && e@ == (ErrorView::NoTask { id }),
            },
    {
        proof {
            lemma_lookup(self@.tasks, id);
        }
        match self.get(id) {
            Some(t) => Ok(t),
            None => Err(Error::NoTask { id }),
        }
    }

    /// Adds a task at the end of the list; one without an id gets the next one.
    pub fn insert(&mut self, task: Task) -> (id: u32)
        requires
            task.id == 0 ==> old(self)@.next_id < u32::MAX,
            task.id < u32::MAX,
        ensures
            id == (if task.id == 0 {
                old(self)@.next_id
            } else {
                task.id
            }),
            final(self)@ == (DataView {
                next_id: if id < old(self)@.next_id {
                    old(self)@.next_id
                } else {
                    (id + 1) as u32
                },
                tasks: old(self)@.tasks.push(TaskView { id, ..task@ }),
                ..old(self)@
            }),
            final(self).kept(*old(self)),
            old(self).wf() && !has_id(old(self)@.tasks, id) && (task.parent is None || has_id(
                old(self)@.tasks,
                task.parent->0,
            )) ==> final(self).wf(),
    {
        let ghost was = self@;
        let ghost given = task@;
        let mut task = task;
        if task.id == 0 {
            task.id = self.data.next_id;
        }
        let id: u32 = task.id;
        if id >= self.data.next_id {
            self.data.next_id = id + 1;
        }
        self.data.tasks.push(task);
        proof {
            assert(task_views(self.data.tasks@) =~= was.tasks.push(TaskView { id, ..given }));
            if data_ok(was) && !has_id(was.tasks, id) && (given.parent is None || has_id(
                was.tasks,
                given.parent->0,
            )) {
                lemma_insert_keeps_forest(was.tasks, TaskView { id, ..given });
            }
        }
        id
    }

    /// Allocates an id without inserting, for callers that build the task
    /// themselves.
    pub fn reserve_id(&mut self) -> (id: u32)
        requires
            old(self)@.next_id < u32::MAX,
        ensures
            id == old(self)@.next_id,
            final(self)@ == (DataView { next_id: (id + 1) as u32, ..old(self)@ }),
            final(self).kept(*old(self)),
            old(self).wf() ==> final(self).wf() && !has_id(final(self)@.tasks, id),
    {
        let id: u32 = self.data.next_id;
        self.data.next_id = id + 1;
        id
    }

    /// Every descendant of `id`, breadth-first, excluding `id` itself.
    pub fn descendants(&self, id: u32) -> (r: Vec<u32>)
        ensures
            r@ == below(self@.tasks, id),
    {
        let kids = Kids::index(&self.data.tasks);
        kids.descend(id, Ghost(self@.tasks))
    }

    /// Ancestors of `id`, nearest first.
    pub fn ancestors(&self, id: u32) -> (r: Vec<u32>)
        ensures
            is_ancestry(self@.tasks, id, r@),
    {
        let parents = Parents::index(&self.data.tasks);
        parents.climb(id, Ghost(self@.tasks))
    }

    /// Reparents `id` under `parent`, refusing anything that would corrupt the
    /// tree.
    ///
    /// A subtree must be visible or invisible as a unit, otherwise a tree is
    /// half-rendered in any given view: so a subtask has to be on its parent's
    /// branch.
    pub fn reparent(&mut self, id: u32, parent: Option<u32>, now: Moment) -> (r: Result<(), Error>)
        ensures
            match r {
                Ok(_) => reparent_refusal(old(self)@.tasks, id, parent) is None && final(self)@ == (
                DataView { tasks: reparented(old(self)@.tasks, id, parent, now), ..old(self)@ }),
                Err(e) => reparent_refusal(old(self)@.tasks, id, parent) == Some(e@) && final(self)@
                    == old(self)@,
            },
            final(self).kept(*old(self)),
            old(self).wf() ==> final(self).wf(),
    {
        let ghost was = self@;
        let ghost ts = self@.tasks;
        proof {
            lemma_lookup(ts, id);
        }
        let at: usize = match self.find(id) {
            Some(i) => i,
            None => {
                return Err(Error::NoTask { id });
            },
        };
        if let Some(p) = parent {
            if p == id {
                return Err(Error::OwnParent);
            }
            proof {
                lemma_lookup(ts, p);
            }
            let above: usize = match self.find(p) {
                Some(i) => i,
                None => {
                    return Err(Error::NoTask { id: p });
                },
            };
            let subtasks = self.descendants(id);
            if contains_id(&subtasks, p) {
                return Err(Error::WouldCycle { id, parent: p });
            }
            let parent_branch = as_opt(&self.data.tasks[above].branch);
            let child_branch = as_opt(&self.data.tasks[at].branch);
            assert(ts[above as int] == self.data.tasks@[above as int]@);
            assert(ts[at as int] == self.data.tasks@[at as int]@);
            if !same_opt(parent_branch, child_branch) {
                return Err(
                    Error::OtherBranch {
                        id,
                        branch: own_opt(child_branch),
                        parent: p,
                        parent_branch: own_opt(parent_branch),
                    },
                );
            }
        }
        self.data.tasks[at].parent = parent;
        self.data.tasks[at].updated = now;
        proof {
            assert(task_views(self.data.tasks@) =~= reparented(ts, id, parent, now));
            if data_ok(was) {
                lemma_reparent_keeps_forest(ts, id, parent, now);
                assert forall|i: int| 0 <= i < self@.tasks.len() implies (#[trigger] self@.tasks[i]).id
                    < self@.next_id || self@.next_id == u32::MAX by {
                    assert(ts[i].id < was.next_id || was.next_id == u32::MAX);
                }
            }
        }
        Ok(())
    }

    /// Moves `id` and everything beneath it to `branch` (`None` for repo-wide).
    ///
    /// Returns the ids that actually changed.
    ///
    /// The whole subtree moves together, and re-scoping anything other than a
    /// root is refused: a subtask lives on its parent's branch, and moving one
    /// task out from under its parent would leave a tree that renders
    /// half-visible on either branch.
    pub fn set_scope(&mut self, id: u32, branch: Option<&str>, now: Moment) -> (r: Result<
        Vec<u32>,
        Error,
    >)
        requires
            old(self).wf(),
        ensures
            match r {
                Ok(changed) => scope_refusal(old(self)@.tasks, id) is None && final(self)@ == (
                DataView {
                    tasks: rescoped(
                        old(self)@.tasks,
                        whole(old(self)@.tasks, id),
                        opt_str_view(branch),
                        now,
                    ),
                    ..old(self)@
                }) && changed@ == elsewhere(
                    old(self)@.tasks,
                    whole(old(self)@.tasks, id),
                    opt_str_view(branch),
                ),
                Err(e) => scope_refusal(old(self)@.tasks, id) == Some(e@) && final(self)@ == old(
                    self,
                )@,
            },
            final(self).kept(*old(self)),
            final(self).wf(),
    {
        let ghost was = self@;
        let ghost ts = self@.tasks;
        let ghost b = opt_str_view(branch);
        proof {
            lemma_lookup(ts, id);
        }
        match self.find(id) {
            Some(i) => {
                assert(ts[i as int] == self.data.tasks@[i as int]@);
                if let Some(parent) = self.data.tasks[i].parent {
                    return Err(Error::Nested { id, parent });
                }
            },
            None => {
                return Err(Error::NoTask { id });
            },
        }
        let mut targets: Vec<u32> = Vec::new();
        targets.push(id);
        let mut subtasks = self.descendants(id);
        targets.append(&mut subtasks);
        assert(targets@ =~= whole(ts, id));
        let mut changed: Vec<u32> = Vec::new();
        let mut k: usize = 0;
        proof {
            lemma_whole(ts, id);
            assert(rescoped(ts, targets@.take(0), b, now) =~= ts);
            assert(elsewhere(ts, targets@.take(0), b) =~= Seq::empty()) by {
                reveal(Seq::filter);
            }
        }
        while k < targets.len()
            invariant
                k <= targets@.len(),
                targets@ == whole(ts, id),
                targets@.no_duplicates(),
                unique_ids(ts),
                b == opt_str_view(branch),
                self@ == (DataView { tasks: rescoped(ts, targets@.take(k as int), b, now), ..was }),
                self.kept(*old(self)),
                changed@ == elsewhere(ts, targets@.take(k as int), b),
            decreases targets@.len() - k,
        {
            let target: u32 = targets[k];
            let ghost before = self@;
            proof {
                lemma_rescope_one(ts, targets@, k as int, b, now);
                lemma_lookup(self@.tasks, target);
                lemma_lookup(ts, target);
            }
            if let Some(i) = self.find(target) {
                assert(self.data.tasks@[i as int]@ == before.tasks[i as int]);
                if !same_opt(as_opt(&self.data.tasks[i].branch), branch) {
                    self.data.tasks[i].branch = own_opt(branch);
                    self.data.tasks[i].updated = now;
                    changed.push(target);
                    assert(self@.tasks =~= before.tasks.update(
                        i as int,
                        rescoped_task(before.tasks[i as int], b, now),
                    ));
                } else {
                    assert(self@.tasks =~= before.tasks.update(
                        i as int,
                        rescoped_task(before.tasks[i as int], b, now),
                    ));
                }
            }
            k += 1;
        }
        proof {
            assert(targets@.take(k as int) =~= targets@);
            lemma_rescope_keeps_forest(ts, targets@, b, now);
            assert forall|i: int| 0 <= i < self@.tasks.len() implies (#[trigger] self@.tasks[i]).id
                < self@.next_id || self@.next_id == u32::MAX by {
                assert(ts[i].id < was.next_id || was.next_id == u32::MAX);
            }
        }
        Ok(changed)
    }
}

impl Store {
    /// Tasks pinned to a branch that no longer exists.
    ///
    /// This is what happens to every task on a feature branch you merged and
    /// deleted: it is scoped to a name git has forgotten, so it matches no view
    /// of a branch. Repo-wide tasks are never orphaned: they belong to no
    /// branch by design.
    pub fn orphaned(&self, live: &Vec<String>) -> (r: Vec<&Task>)
        ensures
            ref_views(r@) == orphans(self@.tasks, views(live@)),
    {
        let ghost ts = self@.tasks;
        let ghost p = |t: TaskView| is_orphan(t, views(live@));
        let mut out: Vec<&Task> = Vec::new();
        let mut i: usize = 0;
        proof {
            reveal(Seq::filter);
            assert(ref_views(out@) =~= ts.take(0).filter(p));
        }
        while i < self.data.tasks.len()
            invariant
                i <= self.data.tasks@.len(),
                ts == self@.tasks,
                p == |t: TaskView| is_orphan(t, views(live@)),
                ref_views(out@) == ts.take(i as int).filter(p),
            decreases self.data.tasks@.len() - i,
        {
            let t = &self.data.tasks[i];
            let ghost before = out@;
            let orphan = match as_opt(&t.branch) {
                Some(b) => !contains_text(live, b),
                None => false,
            };
            if orphan {
                out.push(t);
            }
            proof {
                reveal(Seq::filter);
                assert(ts.take(i + 1).drop_last() =~= ts.take(i as int));
                assert(ts.take(i + 1).last() == t@);
                if orphan {
                    assert(ref_views(out@) =~= ref_views(before).push(t@));
                }
            }
            i += 1;
        }
        assert(ts.take(i as int) =~= ts);
        out
    }

    /// Removes `id` and its entire subtree. Returns the ids removed, in
    /// ascending order: none of a task that is not there.
    pub fn remove_subtree(&mut self, id: u32) -> (r: Vec<u32>)
        ensures
            ascending(r@),
            forall|x: u32| #[trigger]
                r@.contains(x) <==> subtree(old(self)@.tasks, id).contains(x) && has_id(
                    old(self)@.tasks,
                    x,
                ),
            final(self)@ == (DataView {
                tasks: without(old(self)@.tasks, subtree(old(self)@.tasks, id)),
                ..old(self)@
            }),
            final(self).kept(*old(self)),
            old(self).wf() ==> final(self).wf(),
    {
        let ghost was = self@;
        let ghost ts = self@.tasks;
        let ghost gone = subtree(ts, id);
        let subtasks = self.descendants(id);
        let mut ids: Vec<u32> = Vec::new();
        let there = self.find(id).is_some();
        if there {
            ids.push(id);
        }
        proof {
            lemma_lookup(ts, id);
            if there {
                assert(ids@ =~= seq![id]);
                assert(ids@[0] == id);
            }
        }
        let mut k: usize = 0;
        while k < subtasks.len()
            invariant
                k <= subtasks@.len(),
                subtasks@ == below(ts, id),
                ascending(ids@),
                forall|x: u32| #[trigger]
                    ids@.contains(x) <==> subtasks@.take(k as int).contains(x) || (there && x == id),
            decreases subtasks@.len() - k,
        {
            let x: u32 = subtasks[k];
            let ghost before = ids@;
            let ghost met = subtasks@.take(k as int);
            put_ascending(&mut ids, x);
            proof {
                lemma_push_set(met, x);
                assert(subtasks@.take(k + 1) =~= met.push(x));
                assert forall|y: u32| #[trigger]
                    ids@.contains(y) <==> subtasks@.take(k + 1).contains(y) || (there && y
                        == id) by {
                    assert(ids@.to_set().contains(y) <==> before.to_set().insert(x).contains(y));
                    assert(before.to_set().contains(y) <==> before.contains(y));
                    assert(met.push(x).to_set().contains(y) <==> met.to_set().insert(x).contains(y));
                }
            }
            k += 1;
        }
        assert(subtasks@.take(k as int) =~= subtasks@);
        proof {
            lemma_below_held(ts, id);
            assert forall|x: u32| #[trigger]
                ids@.contains(x) <==> gone.contains(x) && has_id(ts, x) by {
                assert(gone.contains(x) <==> below(ts, id).contains(x) || x == id);
            }
        }
        let mut kept: Vec<Task> = Vec::new();
        let ghost p = |t: TaskView| !gone.contains(t.id);
        let mut i: usize = 0;
        proof {
            reveal(Seq::filter);
            assert(task_views(kept@) =~= ts.take(0).filter(p));
        }
        while i < self.data.tasks.len()
            invariant
                i <= self.data.tasks@.len(),
                ts == task_views(self.data.tasks@),
                self@ == was,
                self.kept(*old(self)),
                p == |t: TaskView| !gone.contains(t.id),
                forall|x: u32| #[trigger] ids@.contains(x) <==> gone.contains(x) && has_id(ts, x),
                task_views(kept@) == ts.take(i as int).filter(p),
            decreases self.data.tasks@.len() - i,
        {
            let t = &self.data.tasks[i];
            let ghost before = kept@;
            let stays = !contains_id(&ids, t.id);
            assert(has_id(ts, t.id)) by {
                assert(ts[i as int].id == t.id);
            }
            if stays {
                kept.push(t.clone());
            }
            proof {
                reveal(Seq::filter);
                assert(ts.take(i + 1).drop_last() =~= ts.take(i as int));
                assert(ts.take(i + 1).last() == t@);
                if stays {
                    assert(task_views(kept@) =~= task_views(before).push(t@));
                }
            }
            i += 1;
        }
        assert(ts.take(i as int) =~= ts);
        self.data.tasks = kept;
        proof {
            assert(task_views(self.data.tasks@) == without(ts, gone));
            if data_ok(was) {
                lemma_removal_keeps_forest(was, id);
            }
        }
        ids
    }

    /// True when `task` should appear in a view scoped to `branch`.
    ///
    /// Repo-wide tasks are always visible; that's what makes them repo-wide. On
    /// a detached HEAD only repo-wide tasks show, since there is no branch to
    /// match against.
    pub fn in_scope(task: &Task, branch: Option<&str>) -> (r: bool)
        ensures
            r == seen_from(task@, opt_str_view(branch)),
    {
        match as_opt(&task.branch) {
            None => true,
            Some(own) => match branch {
                None => false,
                Some(b) => same(own, b),
            },
        }
    }

    /// Flattens the task list into display order: depth-first, parents before
    /// children, in-progress work first.
    ///
    /// `keep` selects the tasks the caller actually asked for. Ancestors of a
    /// kept task are pulled in even when they don't match, so a matched subtask
    /// is never rendered floating with no context; they come back marked
    /// `context: true`.
    pub fn tree(&self, keep: impl Fn(&Task) -> bool) -> (r: Vec<Row<'_>>)
        requires
            self.wf(),
            forall|t: &Task| #[trigger] call_requires(keep, (t,)),
        ensures
            exists|kept: Seq<bool>|
                #![trigger tree_rows(self@.tasks, kept)]
                kept.len() == self@.tasks.len() && (forall|i: int|
                    0 <= i < kept.len() ==> call_ensures(
                        keep,
                        (&self.data.tasks@[i],),
                        #[trigger] kept[i],
                    )) && row_views(r@) == tree_rows(self@.tasks, kept),
    {
        let mut kept: Vec<bool> = Vec::new();
        let mut i: usize = 0;
        while i < self.data.tasks.len()
            invariant
                i <= self.data.tasks@.len(),
                kept@.len() == i,
                forall|t: &Task| #[trigger] call_requires(keep, (t,)),
                forall|k: int|
                    0 <= k < i ==> call_ensures(
                        keep,
                        (&self.data.tasks@[k],),
                        #[trigger] kept@[k],
                    ),
            decreases self.data.tasks@.len() - i,
        {
            let b = keep(&self.data.tasks[i]);
            kept.push(b);
            i += 1;
        }
        let r = rows(&self.data.tasks, &kept);
        assert(row_views(r@) == tree_rows(self@.tasks, kept@));
        r
    }

    /// The same for a selection made beforehand, one flag for each task.
    pub fn tree_of(&self, kept: &Vec<bool>) -> (r: Vec<Row<'_>>)
        requires
            self.wf(),
            kept@.len() == self@.tasks.len(),
        ensures
            row_views(r@) == tree_rows(self@.tasks, kept@),
    {
        rows(&self.data.tasks, kept)
    }

    /// Done/total counts across a task's descendants, for the `2/5` rollup.
    ///
    /// Convenient for a single lookup. Rendering a list wants
    /// [`Self::progress_all`] instead: this rebuilds the index on every call.
    pub fn progress(&self, id: u32) -> (r: Option<(usize, usize)>)
        ensures
            pair_view(r) == progress_of(self@.tasks, id),
    {
        let kids = self.descendants(id);
        if kids.len() == 0 {
            return None;
        }
        let ghost p = id_done(self@.tasks);
        let mut done: usize = 0;
        let mut i: usize = 0;
        while i < kids.len()
            invariant
                i <= kids@.len(),
                done <= i,
                p == id_done(self@.tasks),
                done == count_where(kids@.take(i as int), p),
            decreases kids@.len() - i,
        {
            assert(kids@.take(i + 1).drop_last() =~= kids@.take(i as int));
            if let Some(t) = self.get(kids[i]) {
                if t.is_done() {
                    done += 1;
                }
            }
            i += 1;
        }
        assert(kids@.take(i as int) =~= kids@);
        Some((done, kids.len()))
    }

    /// The same rollup for every task at once.
    ///
    /// Tasks with no subtasks are absent from the map rather than present as
    /// zero, matching [`Self::progress`] returning `None` for a leaf.
    pub fn progress_all(&self) -> (r: HashMap<u32, (usize, usize)>)
        requires
            self.wf(),
        ensures
            forall|id: u32| #[trigger]
                r@.contains_key(id) <==> progress_of(self@.tasks, id) is Some,
            forall|id: u32|
                r@.contains_key(id) ==> Some(
                    ((#[trigger] r@[id]).0 as nat, r@[id].1 as nat),
                ) == progress_of(self@.tasks, id),
    {
        let ghost ts = self@.tasks;
        let parents = Parents::index(&self.data.tasks);
        let mut sums: HashMap<u32, (usize, usize)> = HashMap::new();
        let mut i: usize = 0;
        while i < self.data.tasks.len()
            invariant
                i <= self.data.tasks@.len(),
                ts == self@.tasks,
                is_forest(ts),
                parents.of(ts),
                forall|a: u32| #[trigger] sums@.contains_key(a) <==> tally(ts, a, i as nat).1 > 0,
                forall|a: u32|
                    sums@.contains_key(a) ==> ((#[trigger] sums@[a]).0 as nat, sums@[a].1 as nat)
                        == tally(ts, a, i as nat),
            decreases self.data.tasks@.len() - i,
        {
            let t = &self.data.tasks[i];
            let id: u32 = t.id;
            let done = t.is_done();
            let above = parents.climb(id, Ghost(ts));
            let ghost before = sums@;
            proof {
                assert(ts[i as int] == t@);
                lemma_ancestry_is_all(ts, id, above@);
                lemma_tally_bound(ts, i as nat);
            }
            let mut j: usize = 0;
            while j < above.len()
                invariant
                    j <= above@.len(),
                    i < self.data.tasks@.len() <= usize::MAX,
                    above@.no_duplicates(),
                    forall|a: u32| #[trigger]
                        sums@.contains_key(a) <==> before.contains_key(a) || above@.take(
                            j as int,
                        ).contains(a),
                    forall|a: u32|
                        sums@.contains_key(a) ==> #[trigger] sums@[a] == bumped(
                            before,
                            a,
                            above@.take(j as int).contains(a),
                            done,
                        ),
                    forall|a: u32|
                        before.contains_key(a) ==> (#[trigger] before[a]).0 <= before[a].1
                            && before[a].1 <= i,
                decreases above@.len() - j,
            {
                let a: u32 = above[j];
                let ghost prior = sums@;
                let (d, n) = match sums.get(&a) {
                    Some(p) => *p,
                    None => (0, 0),
                };
                proof {
                    assert(!above@.take(j as int).contains(a)) by {
                        if above@.take(j as int).contains(a) {
                            let m = choose|m: int|
                                0 <= m < above@.take(j as int).len() && above@.take(j as int)[m] == a;
                            assert(above@[m] == above@[j as int]);
                        }
                    }
                    assert(prior.contains_key(a) || !prior.contains_key(a));
                    assert(before.contains_key(a) || !before.contains_key(a));
                    if prior.contains_key(a) {
                        assert(before.contains_key(a));
                        assert(prior[a] == before[a]);
                    }
                }
                let bump: usize = if done {
                    1
                } else {
                    0
                };
                sums.insert(a, (d + bump, n + 1));
                proof {
                    lemma_take_contains(above@, j as int);
                    assert forall|x: u32| #[trigger]
                        sums@.contains_key(x) <==> before.contains_key(x) || above@.take(
                            j + 1,
                        ).contains(x) by {
                        assert(prior.contains_key(x) || !prior.contains_key(x));
                        assert(above@.take(j + 1).contains(x) <==> above@.take(j as int).contains(x)
                            || x == a);
                    }
                    assert forall|x: u32| sums@.contains_key(x) implies #[trigger] sums@[x] == bumped(
                        before,
                        x,
                        above@.take(j + 1).contains(x),
                        done,
                    ) by {
                        assert(above@.take(j + 1).contains(x) <==> above@.take(j as int).contains(x)
                            || x == a);
                        if x != a {
                            assert(prior.contains_key(x));
                            assert(prior[x] == sums@[x]);
                        }
                    }
                }
                j += 1;
            }
            proof {
                assert(above@.take(j as int) =~= above@);
                assert forall|a: u32| #[trigger] sums@.contains_key(a) <==> tally(
                    ts,
                    a,
                    (i + 1) as nat,
                ).1 > 0 by {
                    assert(before.contains_key(a) || !before.contains_key(a));
                    assert(above@.contains(a) <==> under(ts, id, a));
                }
                assert forall|a: u32| sums@.contains_key(a) implies ((#[trigger] sums@[a]).0 as nat,
                    sums@[a].1 as nat) == tally(ts, a, (i + 1) as nat) by {
                    assert(before.contains_key(a) || !before.contains_key(a));
                    assert(above@.contains(a) <==> under(ts, id, a));
                    lemma_tally_bound(ts, i as nat);
                }
            }
            i += 1;
        }
        proof {
            assert forall|a: u32| (tally(ts, a, ts.len()).1 > 0) == (#[trigger] progress_of(ts, a)
                is Some) && (tally(ts, a, ts.len()).1 > 0 ==> progress_of(ts, a) == Some(
                tally(ts, a, ts.len()),
            )) by {
                lemma_tally_is_progress(ts, a);
            }
            assert forall|id: u32| sums@.contains_key(id) implies Some(
                ((#[trigger] sums@[id]).0 as nat, sums@[id].1 as nat),
            ) == progress_of(ts, id) by {
                lemma_tally_is_progress(ts, id);
            }
        }
        sums
    }

    /// Finds an existing task harvested from the same source marker.
    pub fn find_by_scan_key(&self, key: &str) -> (r: Option<&Task>)
        ensures
            match r {
                Some(t) => marked_from(self@.tasks, key@, 0) matches Some(i) && t@
                    == self@.tasks[i],
                None => marked_from(self@.tasks, key@, 0) is None,
            },
    {
        let mut i: usize = 0;
        while i < self.data.tasks.len()
            invariant
                i <= self.data.tasks@.len(),
                marked_from(self@.tasks, key@, 0) == marked_from(self@.tasks, key@, i as int),
            decreases self.data.tasks@.len() - i,
        {
            let t = &self.data.tasks[i];
            if let Some(k) = t.scan_key() {
                if same(k, key) {
                    return Some(t);
                }
            }
            i += 1;
        }
        None
    }
}

/// Of the first `n` tasks, how many of those below `a` are done, and how many
/// there are.
pub open spec fn tally(ts: Seq<TaskView>, a: u32, n: nat) -> (nat, nat)
    decreases n,
{
    if n == 0 {
        (0, 0)
    } else {
        let t = tally(ts, a, (n - 1) as nat);
        if under(ts, ts[n - 1].id, a) {
            (
                t.0 + (if ts[n - 1].state == State::Done {
                    1nat
                } else {
                    0
                }),
                t.1 + 1,
            )
        } else {
            t
        }
    }
}

proof fn lemma_tally_bound(ts: Seq<TaskView>, n: nat)
    ensures
        forall|a: u32| (#[trigger] tally(ts, a, n)).0 <= tally(ts, a, n).1 && tally(ts, a, n).1 <= n,
    decreases n,
{
    if n > 0 {
        lemma_tally_bound(ts, (n - 1) as nat);
        assert forall|a: u32| (#[trigger] tally(ts, a, n)).0 <= tally(ts, a, n).1 && tally(
            ts,
            a,
            n,
        ).1 <= n by {
            assert(tally(ts, a, (n - 1) as nat).1 <= n - 1);
        }
    }
}

/// A pair of counts, raised by one task.
spec fn bumped(
    m: Map<u32, (usize, usize)>,
    a: u32,
    hit: bool,
    done: bool,
) -> (usize, usize) {
    let was: (usize, usize) = if m.contains_key(a) {
        m[a]
    } else {
        (0, 0)
    };
    if hit {
        (
            (was.0 + (if done {
                1int
            } else {
                0
            })) as usize,
            (was.1 + 1) as usize,
        )
    } else {
        was
    }
}

proof fn lemma_take_contains(s: Seq<u32>, j: int)
    requires
        0 <= j < s.len(),
    ensures
        forall|x: u32| #[trigger] s.take(j + 1).contains(x) <==> s.take(j).contains(x) || x == s[j],
{
    assert(s.take(j + 1) =~= s.take(j) + seq![s[j]]);
    crate::forest::lemma_contains_concat(s.take(j), seq![s[j]]);
    assert forall|x: u32| #[trigger] s.take(j + 1).contains(x) <==> s.take(j).contains(x) || x == s[j] by {
        if x == s[j] {
            assert(seq![s[j]][0] == x);
        }
    }
}

/// In a forest, climbing finds every ancestor.
proof fn lemma_ancestry_is_all(ts: Seq<TaskView>, id: u32, out: Seq<u32>)
    requires
        acyclic(ts),
        is_ancestry(ts, id, out),
    ensures
        forall|a: u32| #[trigger] out.contains(a) <==> under(ts, id, a),
{
    let n = out.len();
    assert(ancestor(ts, id, n) is Some) by {
        if n > 0 {
            assert(ancestor(ts, id, ((n - 1) + 1) as nat) == Some(out[n - 1]));
        }
    }
    assert(ancestor(ts, id, (n + 1) as nat) is None) by {
        if let Some(p) = ancestor(ts, id, (n + 1) as nat) {
            if p == id {
                assert(cyclic(ts, id));
            } else {
                let i = choose|i: int| 0 <= i < out.len() && out[i] == p;
                lemma_ancestor_steps(ts, id, (i + 1) as nat, (n - i) as nat);
                assert(ancestor(ts, p, (n - i) as nat) == Some(p));
                assert(cyclic(ts, p));
            }
        }
    }
    assert forall|a: u32| #[trigger] out.contains(a) <==> under(ts, id, a) by {
        if out.contains(a) {
            let i = choose|i: int| 0 <= i < out.len() && out[i] == a;
            assert(ancestor(ts, id, (i + 1) as nat) == Some(a));
        }
        if under(ts, id, a) {
            let k = choose|k: nat| k > 0 && #[trigger] ancestor(ts, id, k) == Some(a);
            lemma_ancestor_end(ts, id, n, k);
            assert(ancestor(ts, id, ((k - 1) + 1) as nat) == Some(out[k - 1]));
        }
    }
}

/// The ids of the first `n` tasks that lie below `a`.
spec fn ids_under(ts: Seq<TaskView>, a: u32, n: nat) -> Seq<u32>
    decreases n,
{
    if n == 0 {
        Seq::empty()
    } else if under(ts, ts[n - 1].id, a) {
        ids_under(ts, a, (n - 1) as nat).push(ts[n - 1].id)
    } else {
        ids_under(ts, a, (n - 1) as nat)
    }
}

proof fn lemma_ids_under(ts: Seq<TaskView>, a: u32, n: nat)
    requires
        unique_ids(ts),
        n <= ts.len(),
    ensures
        ids_under(ts, a, n).no_duplicates(),
        forall|x: u32| #[trigger]
            ids_under(ts, a, n).contains(x) <==> under(ts, x, a) && exists|i: int|
                0 <= i < n && (#[trigger] ts[i]).id == x,
        tally(ts, a, n) == (
            count_where(ids_under(ts, a, n), id_done(ts)),
            ids_under(ts, a, n).len(),
        ),
    decreases n,
{
    if n > 0 {
        lemma_ids_under(ts, a, (n - 1) as nat);
        let r = ids_under(ts, a, (n - 1) as nat);
        let q = ids_under(ts, a, n);
        let y = ts[n - 1].id;
        lemma_lookup_at(ts, n - 1);
        assert(!r.contains(y)) by {
            if r.contains(y) {
                let i = choose|i: int| 0 <= i < n - 1 && (#[trigger] ts[i]).id == y;
                assert(ts[i].id != ts[n - 1].id);
            }
        }
        if under(ts, y, a) {
            assert(q.drop_last() =~= r);
            assert(q =~= r + seq![y]);
            crate::forest::lemma_contains_concat(r, seq![y]);
            assert(seq![y][0] == y);
            assert forall|i: int, j: int| 0 <= i < j < q.len() implies q[i] != q[j] by {
                assert(r.contains(r[i]));
            }
        }
        assert forall|x: u32| #[trigger] q.contains(x) <==> under(ts, x, a) && exists|i: int|
            0 <= i < n && (#[trigger] ts[i]).id == x by {
            assert(seq![y].contains(x) <==> x == y) by {
                if x == y {
                    assert(seq![y][0] == x);
                }
            }
            if q.contains(x) {
                if r.contains(x) {
                    let i = choose|i: int| 0 <= i < n - 1 && (#[trigger] ts[i]).id == x;
                    assert(ts[i].id == x);
                } else {
                    assert(ts[n - 1].id == x);
                }
            }
            if under(ts, x, a) && exists|i: int| 0 <= i < n && (#[trigger] ts[i]).id == x {
                let i = choose|i: int| 0 <= i < n && (#[trigger] ts[i]).id == x;
                if i < n - 1 {
                    assert(r.contains(x));
                }
            }
        }
    }
}

/// Of distinct ids, the number with a property depends only on which they are.
proof fn lemma_count_by_set(s: Seq<u32>, p: spec_fn(u32) -> bool)
    requires
        s.no_duplicates(),
    ensures
        s.to_set().filter(p).finite(),
        count_where(s, p) == s.to_set().filter(p).len(),
    decreases s.len(),
{
    vstd::seq_lib::seq_to_set_is_finite(s);
    if s.len() == 0 {
        assert(s.to_set().filter(p) =~= Set::empty());
    } else {
        let r = s.drop_last();
        let y = s.last();
        lemma_count_by_set(r, p);
        assert(s =~= r.push(y));
        lemma_push_set(r, y);
        assert(!r.contains(y)) by {
            if r.contains(y) {
                let k = choose|k: int| 0 <= k < r.len() && r[k] == y;
                assert(s[k] == s[s.len() - 1]);
            }
        }
        if p(y) {
            assert(s.to_set().filter(p) =~= r.to_set().filter(p).insert(y));
        } else {
            assert(s.to_set().filter(p) =~= r.to_set().filter(p));
        }
    }
}

proof fn lemma_push_set(s: Seq<u32>, y: u32)
    ensures
        s.push(y).to_set() == s.to_set().insert(y),
{
    crate::forest::lemma_contains_concat(s, seq![y]);
    assert(s.push(y) =~= s + seq![y]);
    assert(seq![y][0] == y);
    assert forall|x: u32| s.push(y).to_set().contains(x) <==> s.to_set().insert(y).contains(x) by {
        assert((s + seq![y]).contains(x) <==> s.contains(x) || seq![y].contains(x));
    }
    assert(s.push(y).to_set() =~= s.to_set().insert(y));
}

proof fn lemma_tally_is_progress(ts: Seq<TaskView>, a: u32)
    requires
        is_forest(ts),
    ensures
        (tally(ts, a, ts.len()).1 > 0) == (progress_of(ts, a) is Some),
        tally(ts, a, ts.len()).1 > 0 ==> progress_of(ts, a) == Some(tally(ts, a, ts.len())),
{
    let s = ids_under(ts, a, ts.len());
    let d = below(ts, a);
    lemma_ids_under(ts, a, ts.len());
    lemma_below(ts, a);
    assert(s.to_set() =~= d.to_set()) by {
        assert forall|x: u32| s.to_set().contains(x) <==> d.to_set().contains(x) by {
            assert(s.contains(x) <==> d.contains(x)) by {
                assert(!cyclic(ts, a));
                assert(has_id(ts, x) <==> exists|i: int|
                    0 <= i < ts.len() && (#[trigger] ts[i]).id == x);
            }
        }
    }
    s.unique_seq_to_set();
    d.unique_seq_to_set();
    lemma_count_by_set(s, id_done(ts));
    lemma_count_by_set(d, id_done(ts));
}

/// Adds an id to an ascending list, unless it is there.
fn put_ascending(ids: &mut Vec<u32>, x: u32)
    requires
        ascending(old(ids)@),
    ensures
        ascending(final(ids)@),
        final(ids)@.to_set() == old(ids)@.to_set().insert(x),
{
    let ghost was = ids@;
    let mut k: usize = 0;
    while k < ids.len() && ids[k] < x
        invariant
            k <= ids@.len(),
            ids@ == was,
            forall|j: int| 0 <= j < k ==> ids@[j] < x,
        decreases ids@.len() - k,
    {
        k += 1;
    }
    if k < ids.len() && ids[k] == x {
        assert(was.contains(x));
        assert(was.to_set().insert(x) =~= was.to_set());
        return ;
    }
    ids.insert(k, x);
    proof {
        assert(ids@ =~= was.insert(k as int, x));
        assert forall|i: int, j: int| 0 <= i < j < ids@.len() implies ids@[i] < ids@[j] by {
            if i < k && j > k {
                assert(was[i] < was[j - 1]);
            } else if i == k {
                if k < was.len() && j - 1 > k {
                    assert(was[k as int] < was[j - 1]);
                }
            } else if i > k {
                assert(was[i - 1] < was[j - 1]);
            }
        }
        assert forall|y: u32| ids@.to_set().contains(y) <==> was.to_set().insert(x).contains(y) by {
            if was.contains(y) {
                let m = choose|m: int| 0 <= m < was.len() && was[m] == y;
                if m < k {
                    assert(ids@[m] == y);
                } else {
                    assert(ids@[m + 1] == y);
                }
            }
            if y == x {
                assert(ids@[k as int] == y);
            }
            if ids@.contains(y) && y != x {
                let m = choose|m: int| 0 <= m < ids@.len() && ids@[m] == y;
                if m < k {
                    assert(was[m] == y);
                } else {
                    assert(was[m - 1] == y);
                }
            }
        }
        assert(ids@.to_set() =~= was.to_set().insert(x));
    }
}

pub fn contains_text(list: &Vec<String>, x: &str) -> (r: bool)
    ensures
        r == views(list@).contains(x@),
{
    let mut i: usize = 0;
    while i < list.len()
        invariant
            i <= list@.len(),
            forall|k: int| 0 <= k < i ==> (#[trigger] views(list@)[k]) != x@,
        decreases list@.len() - i,
    {
        if same(list[i].as_str(), x) {
            assert(views(list@)[i as int] == x@);
            return true;
        }
        i += 1;
    }
    false
}

fn contains_id(ids: &Vec<u32>, x: u32) -> (r: bool)
    ensures
        r == ids@.contains(x),
{
    let mut i: usize = 0;
    while i < ids.len()
        invariant
            i <= ids@.len(),
            forall|k: int| 0 <= k < i ==> ids@[k] != x,
        decreases ids@.len() - i,
    {
        if ids[i] == x {
            return true;
        }
        i += 1;
    }
    false
}

// ---------------------------------------------------------------------------
// What every change keeps
// ---------------------------------------------------------------------------

/// Changes to anything but ids and parents leave a forest a forest.
pub proof fn lemma_same_links(a: Seq<TaskView>, b: Seq<TaskView>)
    requires
        a.len() == b.len(),
        forall|i: int|
            0 <= i < a.len() ==> (#[trigger] b[i]).id == a[i].id && b[i].parent == a[i].parent,
    ensures
        forall|x: u32| #[trigger] has_id(b, x) <==> has_id(a, x),
        forall|x: u32| #[trigger] parent_of(b, x) == parent_of(a, x),
        forall|x: u32, k: nat| #[trigger] ancestor(b, x, k) == ancestor(a, x, k),
        forall|x: u32| #[trigger] lookup(b, x) == lookup(a, x),
        forall|x: u32| #[trigger] below(b, x) == below(a, x),
        is_forest(a) ==> is_forest(b),
{
    assert forall|x: u32| #[trigger] has_id(b, x) <==> has_id(a, x) by {
        if has_id(a, x) {
            let i = choose|i: int| 0 <= i < a.len() && (#[trigger] a[i]).id == x;
            assert(b[i].id == x);
        }
        if has_id(b, x) {
            let i = choose|i: int| 0 <= i < b.len() && (#[trigger] b[i]).id == x;
            assert(a[i].id == x);
        }
    }
    assert forall|x: u32| #[trigger] parent_of(b, x) == parent_of(a, x) by {
        lemma_same_parent_of(a, b, x);
    }
    assert forall|x: u32, k: nat| #[trigger] ancestor(b, x, k) == ancestor(a, x, k) by {
        lemma_same_ancestor(a, b, x, k);
    }
    assert forall|x: u32| #[trigger] lookup(b, x) == lookup(a, x) by {
        lemma_same_lookup(a, b, x, 0);
    }
    assert forall|p: u32| #[trigger] children(b, p) == children(a, p) by {
        lemma_same_children(a, b, p);
    }
    assert forall|x: u32| #[trigger] below(b, x) == below(a, x) by {
        lemma_same_levels(a, b, seq![x], set![x]);
    }
    if is_forest(a) {
        assert forall|i: int, j: int| 0 <= i < j < b.len() implies (#[trigger] b[i]).id
            != (#[trigger] b[j]).id by {
            assert(a[i].id != a[j].id);
        }
        assert forall|i: int| 0 <= i < b.len() implies match (#[trigger] b[i]).parent {
            Some(p) => has_id(b, p),
            None => true,
        } by {
            assert(a[i].parent == b[i].parent);
        }
        assert forall|x: u32| !#[trigger] cyclic(b, x) by {
            if cyclic(b, x) {
                let k = choose|k: nat| k > 0 && #[trigger] ancestor(b, x, k) == Some(x);
                assert(ancestor(a, x, k) == Some(x));
                assert(cyclic(a, x));
            }
        }
    }
}

/// Changing tasks in place keeps a list in order.
pub proof fn lemma_in_place(a: DataView, b: DataView)
    requires
        data_ok(a),
        b == (DataView { tasks: b.tasks, ..a }),
        a.tasks.len() == b.tasks.len(),
        forall|i: int|
            0 <= i < a.tasks.len() ==> (#[trigger] b.tasks[i]).id == a.tasks[i].id
                && b.tasks[i].parent == a.tasks[i].parent,
    ensures
        data_ok(b),
{
    lemma_same_links(a.tasks, b.tasks);
    assert forall|i: int| 0 <= i < b.tasks.len() implies (#[trigger] b.tasks[i]).id < b.next_id
        || b.next_id == u32::MAX by {
        assert(a.tasks[i].id < a.next_id || a.next_id == u32::MAX);
    }
}

proof fn lemma_same_parent_of(a: Seq<TaskView>, b: Seq<TaskView>, x: u32)
    requires
        a.len() == b.len(),
        forall|i: int|
            0 <= i < a.len() ==> (#[trigger] b[i]).id == a[i].id && b[i].parent == a[i].parent,
    ensures
        parent_of(b, x) == parent_of(a, x),
    decreases a.len(),
{
    if a.len() > 0 {
        assert(b[a.len() - 1].id == a[a.len() - 1].id);
        assert forall|i: int| 0 <= i < a.drop_last().len() implies (#[trigger] b.drop_last()[i]).id
            == a.drop_last()[i].id && b.drop_last()[i].parent == a.drop_last()[i].parent by {
            assert(b[i].id == a[i].id);
        }
        lemma_same_parent_of(a.drop_last(), b.drop_last(), x);
    }
}

proof fn lemma_same_ancestor(a: Seq<TaskView>, b: Seq<TaskView>, x: u32, k: nat)
    requires
        forall|y: u32| #[trigger] parent_of(b, y) == parent_of(a, y),
    ensures
        ancestor(b, x, k) == ancestor(a, x, k),
    decreases k,
{
    if k > 0 {
        lemma_same_ancestor(a, b, x, (k - 1) as nat);
    }
}

pub proof fn lemma_same_lookup(a: Seq<TaskView>, b: Seq<TaskView>, x: u32, i: int)
    requires
        a.len() == b.len(),
        forall|j: int| 0 <= j < a.len() ==> (#[trigger] b[j]).id == a[j].id,
    ensures
        lookup_from(b, x, i) == lookup_from(a, x, i),
    decreases a.len() - i,
{
    if 0 <= i < a.len() {
        assert(b[i].id == a[i].id);
        lemma_same_lookup(a, b, x, i + 1);
    }
}

proof fn lemma_same_children(a: Seq<TaskView>, b: Seq<TaskView>, p: u32)
    requires
        a.len() == b.len(),
        forall|i: int|
            0 <= i < a.len() ==> (#[trigger] b[i]).id == a[i].id && b[i].parent == a[i].parent,
    ensures
        children(b, p) == children(a, p),
    decreases a.len(),
{
    if a.len() > 0 {
        assert(b[a.len() - 1].id == a[a.len() - 1].id);
        assert forall|i: int| 0 <= i < a.drop_last().len() implies (#[trigger] b.drop_last()[i]).id
            == a.drop_last()[i].id && b.drop_last()[i].parent == a.drop_last()[i].parent by {
            assert(b[i].id == a[i].id);
        }
        lemma_same_children(a.drop_last(), b.drop_last(), p);
    }
}

proof fn lemma_same_children_of_all(a: Seq<TaskView>, b: Seq<TaskView>, level: Seq<u32>)
    requires
        forall|p: u32| #[trigger] children(b, p) == children(a, p),
    ensures
        crate::forest::children_of_all(b, level) == crate::forest::children_of_all(a, level),
    decreases level.len(),
{
    if level.len() > 0 {
        lemma_same_children_of_all(a, b, level.drop_last());
        assert(children(b, level.last()) == children(a, level.last()));
    }
}

proof fn lemma_same_levels(a: Seq<TaskView>, b: Seq<TaskView>, level: Seq<u32>, seen: Set<u32>)
    requires
        forall|p: u32| #[trigger] children(b, p) == children(a, p),
        a.len() == b.len(),
        forall|i: int| 0 <= i < a.len() ==> (#[trigger] b[i]).id == a[i].id,
    ensures
        crate::forest::levels_below(b, level, seen) == crate::forest::levels_below(a, level, seen),
    decreases crate::forest::ids_of(a).to_set().difference(seen).len(),
{
    assert(crate::forest::ids_of(b) =~= crate::forest::ids_of(a));
    lemma_same_children_of_all(a, b, level);
    let next = crate::forest::newcomers(crate::forest::children_of_all(a, level), seen);
    if next.len() > 0 {
        crate::forest::lemma_fewer_unseen(a, level, seen);
        lemma_same_levels(a, b, next, seen.union(next.to_set()));
    }
}

proof fn lemma_insert_keeps_forest(ts: Seq<TaskView>, t: TaskView)
    requires
        is_forest(ts),
        !has_id(ts, t.id),
        t.parent is None || has_id(ts, t.parent->0),
    ensures
        is_forest(ts.push(t)),
{
    let b = ts.push(t);
    assert forall|x: u32| #[trigger] parent_of(b, x) == (if x == t.id {
        t.parent
    } else {
        parent_of(ts, x)
    }) by {
        assert(b.drop_last() =~= ts);
    }
    assert forall|i: int, j: int| 0 <= i < j < b.len() implies (#[trigger] b[i]).id
        != (#[trigger] b[j]).id by {
        assert(b[i] == ts[i]);
        if j < ts.len() {
            assert(b[j] == ts[j]);
        }
    }
    assert forall|i: int| 0 <= i < b.len() implies match (#[trigger] b[i]).parent {
        Some(p) => has_id(b, p),
        None => true,
    } by {
        if let Some(p) = b[i].parent {
            if i < ts.len() {
                assert(b[i] == ts[i]);
            }
            assert(has_id(ts, p));
            let k = choose|k: int| 0 <= k < ts.len() && (#[trigger] ts[k]).id == p;
            assert(b[k].id == p);
        }
    }
    // nothing points at the new task, so no loop can pass through it
    assert forall|x: u32, k: nat|
        x != t.id && #[trigger] ancestor(b, x, k) is Some implies ancestor(b, x, k) == ancestor(
        ts,
        x,
        k,
    ) && ancestor(b, x, k) != Some(t.id) by {
        lemma_insert_ancestor(ts, t, x, k);
    }
    assert forall|x: u32| !#[trigger] cyclic(b, x) by {
        if cyclic(b, x) {
            let k = choose|k: nat| k > 0 && #[trigger] ancestor(b, x, k) == Some(x);
            if x != t.id {
                assert(ancestor(ts, x, k) == Some(x));
                assert(cyclic(ts, x));
            } else {
                lemma_ancestor_steps(b, x, 1, (k - 1) as nat);
                assert(ancestor(b, x, 0) == Some(x));
                assert(ancestor(b, x, 1) == parent_of(b, x)) by {
                    reveal_with_fuel(ancestor, 2);
                }
                let p = t.parent->0;
                assert(p != t.id);
                assert(ancestor(b, p, (k - 1) as nat) == Some(t.id));
            }
        }
    }
}

proof fn lemma_insert_ancestor(ts: Seq<TaskView>, t: TaskView, x: u32, k: nat)
    requires
        parents_exist(ts),
        !has_id(ts, t.id),
        x != t.id,
        forall|y: u32| #[trigger]
            parent_of(ts.push(t), y) == (if y == t.id {
                t.parent
            } else {
                parent_of(ts, y)
            }),
        ancestor(ts.push(t), x, k) is Some,
    ensures
        ancestor(ts.push(t), x, k) == ancestor(ts, x, k),
        ancestor(ts.push(t), x, k) != Some(t.id),
    decreases k,
{
    let b = ts.push(t);
    if k > 0 {
        lemma_ancestor_prefix(b, x, (k - 1) as nat, k);
        lemma_insert_ancestor(ts, t, x, (k - 1) as nat);
        let y = ancestor(b, x, (k - 1) as nat)->0;
        assert(parent_of(b, y) == parent_of(ts, y));
        lemma_parent_of(ts, y);
        if parent_of(ts, y) == Some(t.id) {
            let i = choose|i: int|
                0 <= i < ts.len() && (#[trigger] ts[i]).id == y && ts[i].parent == parent_of(ts, y);
            assert(has_id(ts, t.id));
        }
    }
}

/// Putting a task where it may go leaves a forest a forest: no loop comes up.
pub proof fn lemma_reparent_keeps_forest(
    ts: Seq<TaskView>,
    id: u32,
    parent: Option<u32>,
    now: Moment,
)
    requires
        is_forest(ts),
        reparent_refusal(ts, id, parent) is None,
    ensures
        is_forest(reparented(ts, id, parent, now)),
{
    let b = reparented(ts, id, parent, now);
    lemma_lookup(ts, id);
    let at = lookup(ts, id)->0;
    lemma_below(ts, id);
    assert forall|i: int, j: int| 0 <= i < j < b.len() implies (#[trigger] b[i]).id
        != (#[trigger] b[j]).id by {
        assert(ts[i].id != ts[j].id);
    }
    assert forall|x: u32| #[trigger] has_id(b, x) <==> has_id(ts, x) by {
        if has_id(ts, x) {
            let i = choose|i: int| 0 <= i < ts.len() && (#[trigger] ts[i]).id == x;
            assert(b[i].id == x);
        }
        if has_id(b, x) {
            let i = choose|i: int| 0 <= i < b.len() && (#[trigger] b[i]).id == x;
            assert(ts[i].id == x);
        }
    }
    assert forall|i: int| 0 <= i < b.len() implies match (#[trigger] b[i]).parent {
        Some(p) => has_id(b, p),
        None => true,
    } by {
        if let Some(p) = b[i].parent {
            if i != at {
                assert(b[i] == ts[i]);
            }
            assert(has_id(ts, p));
            assert(has_id(b, p));
        }
    }
    assert forall|x: u32| #[trigger] parent_of(b, x) == (if x == id {
        parent
    } else {
        parent_of(ts, x)
    }) by {
        lemma_parent_of(ts, x);
        lemma_parent_of(b, x);
        if has_id(ts, x) {
            let i = choose|i: int| 0 <= i < ts.len() && (#[trigger] ts[i]).id == x;
            assert(b[i].id == x);
            lemma_parent_at(ts, i);
            lemma_parent_at(b, i);
            if x == id && i != at {
                if i < at {
                    assert(ts[i].id != ts[at].id);
                } else {
                    assert(ts[at].id != ts[i].id);
                }
            }
        } else {
            assert(!has_id(b, x));
        }
    }
    assert forall|x: u32| !#[trigger] cyclic(b, x) by {
        if cyclic(b, x) {
            let k = choose|k: nat| k > 0 && #[trigger] ancestor(b, x, k) == Some(x);
            if forall|j: nat| j < k ==> #[trigger] ancestor(b, x, j) != Some(id) {
                lemma_chain_avoiding(ts, b, id, x, k);
                assert(cyclic(ts, x));
            } else {
                // the loop passes through `id`, so it passes through `id` and
                // what is above it
                let j = choose|j: nat| j < k && #[trigger] ancestor(b, x, j) == Some(id);
                lemma_ancestor_steps(b, x, j, (k - j) as nat);
                lemma_ancestor_steps(b, id, (k - j) as nat, j);
                assert(ancestor(b, id, k) == Some(id));
                lemma_return_to(ts, b, id, k);
                assert(ancestor(b, id, 0) == Some(id));
                assert(ancestor(b, id, 1) == parent) by {
                    reveal_with_fuel(ancestor, 2);
                }
                lemma_ancestor_prefix(b, id, 1, k);
                let p = parent->0;
                assert(p == id || under(ts, p, id));
                if p != id {
                    assert(below(ts, id).contains(p));
                }
            }
        }
    }
}

/// A walk that does not meet `id` is the same before and after.
proof fn lemma_chain_avoiding(ts: Seq<TaskView>, b: Seq<TaskView>, id: u32, x: u32, k: nat)
    requires
        forall|y: u32| y != id ==> #[trigger] parent_of(b, y) == parent_of(ts, y),
        forall|j: nat| j < k ==> #[trigger] ancestor(b, x, j) != Some(id),
    ensures
        ancestor(ts, x, k) == ancestor(b, x, k),
    decreases k,
{
    if k > 0 {
        lemma_chain_avoiding(ts, b, id, x, (k - 1) as nat);
        assert(ancestor(b, x, (k - 1) as nat) != Some(id));
    }
}

/// If the walk up from `id` comes back to `id`, its new parent was below it.
proof fn lemma_return_to(ts: Seq<TaskView>, b: Seq<TaskView>, id: u32, k: nat)
    requires
        k > 0,
        forall|y: u32| y != id ==> #[trigger] parent_of(b, y) == parent_of(ts, y),
        ancestor(b, id, k) == Some(id),
    ensures
        ancestor(b, id, 1) matches Some(p) && (p == id || under(ts, p, id)),
    decreases k,
{
    lemma_ancestor_prefix(b, id, 1, k);
    let p = ancestor(b, id, 1)->0;
    lemma_ancestor_steps(b, id, 1, (k - 1) as nat);
    if k > 1 && p != id {
        if forall|j: nat| j < k - 1 ==> #[trigger] ancestor(b, p, j) != Some(id) {
            lemma_chain_avoiding(ts, b, id, p, (k - 1) as nat);
            assert(ancestor(ts, p, (k - 1) as nat) == Some(id));
        } else {
            let j = choose|j: nat| j < k - 1 && #[trigger] ancestor(b, p, j) == Some(id);
            lemma_ancestor_steps(b, id, 1, j);
            lemma_return_to(ts, b, id, j + 1);
        }
    }
}

/// A subtree has each of its tasks once.
proof fn lemma_whole(ts: Seq<TaskView>, id: u32)
    requires
        unique_ids(ts),
    ensures
        whole(ts, id).no_duplicates(),
        forall|x: u32| #[trigger] whole(ts, id).contains(x) <==> x == id || below(ts, id).contains(x),
{
    lemma_below(ts, id);
    let w = whole(ts, id);
    let d = below(ts, id);
    crate::forest::lemma_contains_concat(seq![id], d);
    assert(seq![id][0] == id);
    assert forall|x: u32| #[trigger] w.contains(x) <==> x == id || d.contains(x) by {
        assert(seq![id].contains(x) <==> x == id) by {
            if x == id {
                assert(seq![id][0] == x);
            }
        }
    }
    assert forall|i: int, j: int| 0 <= i < j < w.len() implies w[i] != w[j] by {
        if i == 0 {
            assert(d.contains(d[j - 1]));
        }
    }
}

/// Moving one more of the targets.
proof fn lemma_rescope_one(
    ts: Seq<TaskView>,
    targets: Seq<u32>,
    k: int,
    b: Option<Seq<char>>,
    now: Moment,
)
    requires
        unique_ids(ts),
        targets.no_duplicates(),
        0 <= k < targets.len(),
    ensures
        ({
            let before = rescoped(ts, targets.take(k), b, now);
            let after = rescoped(ts, targets.take(k + 1), b, now);
            let x = targets[k];
            &&& lookup(before, x) == lookup(ts, x)
            &&& match lookup(ts, x) {
                Some(i) => 0 <= i < ts.len() && before[i] == ts[i] && after == before.update(
                    i,
                    rescoped_task(ts[i], b, now),
                ),
                None => after == before,
            }
            &&& elsewhere(ts, targets.take(k + 1), b) == (if lookup(ts, x) is Some && ts[lookup(
                ts,
                x,
            )->0].branch != b {
                elsewhere(ts, targets.take(k), b).push(x)
            } else {
                elsewhere(ts, targets.take(k), b)
            })
        }),
{
    let a = targets.take(k);
    let c = targets.take(k + 1);
    let before = rescoped(ts, a, b, now);
    let after = rescoped(ts, c, b, now);
    let x = targets[k];
    assert(c =~= a.push(x));
    assert(!a.contains(x)) by {
        if a.contains(x) {
            let j = choose|j: int| 0 <= j < a.len() && a[j] == x;
            assert(targets[j] == targets[k]);
        }
    }
    assert forall|y: u32| #[trigger] c.contains(y) <==> a.contains(y) || y == x by {
        if a.contains(y) {
            let j = choose|j: int| 0 <= j < a.len() && a[j] == y;
            assert(c[j] == y);
        }
        if y == x {
            assert(c[k] == y);
        }
        if c.contains(y) && y != x {
            let j = choose|j: int| 0 <= j < c.len() && c[j] == y;
            assert(a[j] == y);
        }
    }
    lemma_same_lookup(ts, before, x, 0);
    lemma_lookup(ts, x);
    match lookup(ts, x) {
        Some(i) => {
            assert(before[i] == ts[i]);
            assert forall|j: int| 0 <= j < ts.len() implies after[j] == before.update(
                i,
                rescoped_task(ts[i], b, now),
            )[j] by {
                if j != i {
                    if j < i {
                        assert(ts[j].id != ts[i].id);
                    } else {
                        assert(ts[i].id != ts[j].id);
                    }
                }
            }
            assert(after =~= before.update(i, rescoped_task(ts[i], b, now)));
        },
        None => {
            assert forall|j: int| 0 <= j < ts.len() implies after[j] == before[j] by {
                assert(ts[j].id != x) by {
                    if ts[j].id == x {
                        assert(has_id(ts, x));
                    }
                }
            }
            assert(after =~= before);
        },
    }
    reveal(Seq::filter);
    assert(c.drop_last() =~= a);
}

/// What stays after a removal, in terms of what was there.
pub proof fn lemma_without(ts: Seq<TaskView>, gone: Set<u32>)
    ensures
        forall|t: TaskView| #[trigger]
            without(ts, gone).contains(t) <==> ts.contains(t) && !gone.contains(t.id),
        unique_ids(ts) ==> unique_ids(without(ts, gone)),
        forall|x: u32| #[trigger]
            has_id(without(ts, gone), x) <==> has_id(ts, x) && !gone.contains(x),
    decreases ts.len(),
{
    reveal(Seq::filter);
    let w = without(ts, gone);
    if ts.len() > 0 {
        let r = ts.drop_last();
        let z = ts.last();
        lemma_without(r, gone);
        let v = without(r, gone);
        assert(ts =~= r.push(z));
        assert forall|t: TaskView| #[trigger] ts.contains(t) <==> r.contains(t) || t == z by {
            if r.contains(t) {
                let k = choose|k: int| 0 <= k < r.len() && r[k] == t;
                assert(ts[k] == t);
            }
            if t == z {
                assert(ts[ts.len() - 1] == t);
            }
            if ts.contains(t) && t != z {
                let k = choose|k: int| 0 <= k < ts.len() && ts[k] == t;
                assert(r[k] == t);
            }
        }
        if gone.contains(z.id) {
            assert(w == v);
        } else {
            assert(w =~= v.push(z));
            assert forall|t: TaskView| #[trigger] w.contains(t) <==> v.contains(t) || t == z by {
                if v.contains(t) {
                    let k = choose|k: int| 0 <= k < v.len() && v[k] == t;
                    assert(w[k] == t);
                }
                if t == z {
                    assert(w[v.len() as int] == t);
                }
                if w.contains(t) && t != z {
                    let k = choose|k: int| 0 <= k < w.len() && w[k] == t;
                    assert(v[k] == t);
                }
            }
        }
        if unique_ids(ts) {
            assert(unique_ids(r)) by {
                assert forall|i: int, j: int| 0 <= i < j < r.len() implies (#[trigger] r[i]).id
                    != (#[trigger] r[j]).id by {
                    assert(ts[i].id != ts[j].id);
                }
            }
            if !gone.contains(z.id) {
                assert forall|i: int, j: int| 0 <= i < j < w.len() implies (#[trigger] w[i]).id
                    != (#[trigger] w[j]).id by {
                    assert(w[i] == v[i]);
                    if j < v.len() {
                        assert(w[j] == v[j]);
                    } else {
                        assert(v.contains(v[i]));
                        assert(r.contains(v[i]));
                        let k = choose|k: int| 0 <= k < r.len() && r[k] == v[i];
                        assert(ts[k].id != ts[ts.len() - 1].id);
                    }
                }
            }
        }
        assert forall|x: u32| #[trigger] has_id(w, x) <==> has_id(ts, x) && !gone.contains(x) by {
            if has_id(w, x) {
                let i = choose|i: int| 0 <= i < w.len() && (#[trigger] w[i]).id == x;
                assert(w.contains(w[i]));
                let k = choose|k: int| 0 <= k < ts.len() && ts[k] == w[i];
                assert(ts[k].id == x);
            }
            if has_id(ts, x) && !gone.contains(x) {
                let i = choose|i: int| 0 <= i < ts.len() && (#[trigger] ts[i]).id == x;
                assert(ts.contains(ts[i]));
                assert(w.contains(ts[i]));
                let k = choose|k: int| 0 <= k < w.len() && w[k] == ts[i];
                assert(w[k].id == x);
            }
        }
    }
}

/// Removing a whole subtree leaves a forest.
pub proof fn lemma_removal_keeps_forest(d: DataView, id: u32)
    requires
        data_ok(d),
    ensures
        data_ok(DataView { tasks: without(d.tasks, subtree(d.tasks, id)), ..d }),
{
    let ts = d.tasks;
    let gone = subtree(ts, id);
    let w = without(ts, gone);
    lemma_without(ts, gone);
    lemma_below(ts, id);
    assert forall|i: int| 0 <= i < w.len() implies ts.contains(#[trigger] w[i]) && !gone.contains(
        w[i].id,
    ) by {
        assert(w.contains(w[i]));
    }
    assert forall|x: u32| has_id(w, x) implies #[trigger] parent_of(w, x) == parent_of(ts, x) by {
        let i = choose|i: int| 0 <= i < w.len() && (#[trigger] w[i]).id == x;
        lemma_parent_at(w, i);
        assert(ts.contains(w[i]));
        let k = choose|k: int| 0 <= k < ts.len() && ts[k] == w[i];
        lemma_parent_at(ts, k);
    }
    assert forall|i: int| 0 <= i < w.len() implies match (#[trigger] w[i]).parent {
        Some(p) => has_id(w, p),
        None => true,
    } by {
        if let Some(p) = w[i].parent {
            assert(ts.contains(w[i]));
            let k = choose|k: int| 0 <= k < ts.len() && ts[k] == w[i];
            assert(ts[k].parent == Some(p));
            assert(has_id(ts, p));
            lemma_parent_at(ts, k);
            if gone.contains(p) {
                // then the task itself lies below `id`
                if p != id {
                    assert(below(ts, id).to_set().contains(p));
                    assert(below(ts, id).contains(p));
                }
                crate::forest::lemma_child_is_under(ts, w[i].id, p, id);
                if w[i].id != id {
                    assert(has_id(ts, w[i].id)) by {
                        assert(ts[k].id == w[i].id);
                    }
                    assert(below(ts, id).contains(w[i].id));
                    assert(below(ts, id).to_set().contains(w[i].id));
                }
                assert(gone.contains(w[i].id));
            }
        }
    }
    assert forall|x: u32| !#[trigger] cyclic(w, x) by {
        if cyclic(w, x) {
            let k = choose|k: nat| k > 0 && #[trigger] ancestor(w, x, k) == Some(x);
            assert forall|y: u32| #[trigger] parent_of(w, y) == parent_of(ts, y) || parent_of(w, y)
                is None by {
                lemma_parent_of(w, y);
            }
            crate::repair::lemma_cut_chain(ts, w, x, k);
            assert(cyclic(ts, x));
        }
    }
    assert forall|i: int| 0 <= i < w.len() implies (#[trigger] w[i]).id < d.next_id || d.next_id
        == u32::MAX by {
        assert(ts.contains(w[i]));
        let k = choose|k: int| 0 <= k < ts.len() && ts[k] == w[i];
        assert(ts[k].id < d.next_id || d.next_id == u32::MAX);
    }
}

/// Moving tasks between branches leaves a forest a forest.
proof fn lemma_rescope_keeps_forest(
    ts: Seq<TaskView>,
    ids: Seq<u32>,
    b: Option<Seq<char>>,
    now: Moment,
)
    requires
        is_forest(ts),
    ensures
        is_forest(rescoped(ts, ids, b, now)),
{
    lemma_same_links(ts, rescoped(ts, ids, b, now));
}

// ---------------------------------------------------------------------------
// What holds of the list as a whole
// ---------------------------------------------------------------------------

/// The next id is one that no task has, and it stays so when tasks are removed:
/// an id is never handed out twice.
pub proof fn law_ids_are_never_reused(d: DataView, id: u32)
    requires
        data_ok(d),
        d.next_id < u32::MAX,
    ensures
        !has_id(d.tasks, d.next_id),
        data_ok(DataView { tasks: without(d.tasks, subtree(d.tasks, id)), ..d }),
{
    lemma_removal_keeps_forest(d, id);
    if has_id(d.tasks, d.next_id) {
        let i = choose|i: int| 0 <= i < d.tasks.len() && (#[trigger] d.tasks[i]).id == d.next_id;
        assert(d.tasks[i].id < d.next_id);
    }
}

/// A repo-wide task is seen from every branch and from a detached HEAD, and is
/// never orphaned, whatever branches there are.
pub proof fn law_repo_wide_tasks_belong_everywhere(
    t: TaskView,
    branch: Option<Seq<char>>,
    live: Seq<Seq<char>>,
)
    requires
        t.branch is None,
    ensures
        seen_from(t, branch),
        !is_orphan(t, live),
{
}

/// A task on a branch is seen from that branch alone.
pub proof fn law_branch_tasks_hide_elsewhere(t: TaskView, branch: Option<Seq<char>>)
    requires
        t.branch is Some,
    ensures
        seen_from(t, branch) <==> branch == t.branch,
{
}

/// Whether every subtask is on its parent's branch.
pub open spec fn coherent(ts: Seq<TaskView>) -> bool {
    forall|i: int, j: int|
        0 <= i < ts.len() && 0 <= j < ts.len() && (#[trigger] ts[i]).parent == Some(
            (#[trigger] ts[j]).id,
        ) ==> ts[i].branch == ts[j].branch
}

/// Putting a task where it may go keeps every subtask on its parent's branch.
pub proof fn law_reparenting_keeps_branches_together(
    ts: Seq<TaskView>,
    id: u32,
    parent: Option<u32>,
    now: Moment,
)
    requires
        is_forest(ts),
        coherent(ts),
        reparent_refusal(ts, id, parent) is None,
    ensures
        coherent(reparented(ts, id, parent, now)),
{
    let b = reparented(ts, id, parent, now);
    lemma_lookup(ts, id);
    let at = lookup(ts, id)->0;
    assert forall|i: int, j: int|
        0 <= i < b.len() && 0 <= j < b.len() && (#[trigger] b[i]).parent == Some(
            (#[trigger] b[j]).id,
        ) implies b[i].branch == b[j].branch by {
        assert(b[j].id == ts[j].id && b[j].branch == ts[j].branch);
        if i == at {
            lemma_lookup_at(ts, j);
            assert(parent == Some(ts[j].id));
        } else {
            assert(b[i] == ts[i]);
            assert(ts[i].parent == Some(ts[j].id));
        }
    }
}

/// Re-scoping a root takes its whole subtree along and nothing else, so every
/// subtask stays on its parent's branch.
pub proof fn law_rescoping_moves_whole_subtrees(
    ts: Seq<TaskView>,
    id: u32,
    branch: Option<Seq<char>>,
    now: Moment,
)
    requires
        is_forest(ts),
        scope_refusal(ts, id) is None,
    ensures
        forall|i: int|
            0 <= i < ts.len() ==> if ts[i].id == id || under(ts, ts[i].id, id) {
                (#[trigger] rescoped(ts, whole(ts, id), branch, now)[i]).branch == branch
            } else {
                rescoped(ts, whole(ts, id), branch, now)[i] == ts[i]
            },
        coherent(ts) ==> coherent(rescoped(ts, whole(ts, id), branch, now)),
{
    let w = whole(ts, id);
    let b = rescoped(ts, w, branch, now);
    lemma_whole(ts, id);
    lemma_below(ts, id);
    assert forall|i: int| 0 <= i < ts.len() implies (w.contains((#[trigger] ts[i]).id) <==> ts[i].id
        == id || under(ts, ts[i].id, id)) by {
        assert(has_id(ts, ts[i].id));
    }
    assert forall|i: int| 0 <= i < ts.len() implies if ts[i].id == id || under(ts, ts[i].id, id) {
        (#[trigger] b[i]).branch == branch
    } else {
        b[i] == ts[i]
    } by {
        assert(w.contains(ts[i].id) <==> ts[i].id == id || under(ts, ts[i].id, id));
    }
    if coherent(ts) {
        assert forall|i: int, j: int|
            0 <= i < b.len() && 0 <= j < b.len() && (#[trigger] b[i]).parent == Some(
                (#[trigger] b[j]).id,
            ) implies b[i].branch == b[j].branch by {
            assert(ts[i].parent == Some(ts[j].id));
            assert(ts[i].branch == ts[j].branch);
            lemma_lookup_at(ts, i);
            lemma_parent_at(ts, i);
            let x = ts[i].id;
            let p = ts[j].id;
            assert(x != id);
            if w.contains(p) {
                crate::forest::lemma_child_is_under(ts, x, p, id);
            }
            if w.contains(x) {
                let k = choose|k: nat| k > 0 && #[trigger] ancestor(ts, x, k) == Some(id);
                lemma_ancestor_steps(ts, x, 1, (k - 1) as nat);
                assert(ancestor(ts, x, 0) == Some(x));
                assert(ancestor(ts, x, 1) == Some(p)) by {
                    reveal_with_fuel(ancestor, 2);
                }
                if k > 1 {
                    assert(ancestor(ts, p, (k - 1) as nat) == Some(id));
                    assert(under(ts, p, id));
                }
            }
            assert(w.contains(x) <==> w.contains(p));
        }
    }
}

/// A removal takes exactly the subtree, and leaves every other task as it was.
pub proof fn law_removal_takes_exactly_the_subtree(ts: Seq<TaskView>, id: u32)
    requires
        is_forest(ts),
    ensures
        forall|t: TaskView| #[trigger]
            without(ts, subtree(ts, id)).contains(t) <==> ts.contains(t) && t.id != id && !under(
                ts,
                t.id,
                id,
            ),
{
    let gone = subtree(ts, id);
    lemma_without(ts, gone);
    lemma_below(ts, id);
    assert forall|t: TaskView| #[trigger] without(ts, gone).contains(t) <==> ts.contains(t) && t.id
        != id && !under(ts, t.id, id) by {
        if ts.contains(t) {
            let k = choose|k: int| 0 <= k < ts.len() && ts[k] == t;
            assert(ts[k].id == t.id);
            assert(has_id(ts, t.id));
            assert(below(ts, id).to_set().contains(t.id) <==> below(ts, id).contains(t.id));
        }
    }
}

/// Changing tasks without moving them keeps every subtask on its parent's
/// branch.
pub proof fn law_changes_in_place_keep_branches_together(a: Seq<TaskView>, b: Seq<TaskView>)
    requires
        a.len() == b.len(),
        forall|i: int|
            0 <= i < a.len() ==> (#[trigger] b[i]).id == a[i].id && b[i].parent == a[i].parent
                && b[i].branch == a[i].branch,
        coherent(a),
    ensures
        coherent(b),
{
    assert forall|i: int, j: int|
        0 <= i < b.len() && 0 <= j < b.len() && (#[trigger] b[i]).parent == Some(
            (#[trigger] b[j]).id,
        ) implies b[i].branch == b[j].branch by {
        assert(a[i].parent == Some(a[j].id));
    }
}

/// The progress of a task counts the tasks below it, at any depth, and those of
/// them that are done; a task with nothing below it has none.
pub proof fn law_progress_counts_what_is_below(ts: Seq<TaskView>, a: u32)
    requires
        is_forest(ts),
    ensures
        ({
            let all = ts.filter(|t: TaskView| under(ts, t.id, a));
            let done = ts.filter(|t: TaskView| under(ts, t.id, a) && t.state == State::Done);
            &&& progress_of(ts, a) is None <==> all.len() == 0
            &&& progress_of(ts, a) matches Some(p) ==> p.0 == done.len() && p.1 == all.len()
        }),
{
    lemma_tally_is_progress(ts, a);
    lemma_tally_by_filter(ts, a, ts.len());
    assert(ts.take(ts.len() as int) =~= ts);
}

proof fn lemma_tally_by_filter(ts: Seq<TaskView>, a: u32, n: nat)
    requires
        n <= ts.len(),
    ensures
        ({
            let p = |t: TaskView| under(ts, t.id, a);
            let q = |t: TaskView| under(ts, t.id, a) && t.state == State::Done;
            tally(ts, a, n) == (ts.take(n as int).filter(q).len(), ts.take(n as int).filter(p).len())
        }),
    decreases n,
{
    reveal(Seq::filter);
    if n > 0 {
        lemma_tally_by_filter(ts, a, (n - 1) as nat);
        assert(ts.take(n as int).drop_last() =~= ts.take(n - 1));
        assert(ts.take(n as int).last() == ts[n - 1]);
    }
}

/// As many tasks lie below another as have it among their ancestors.
pub proof fn law_subtasks_are_counted_at_any_depth(ts: Seq<TaskView>, a: u32)
    requires
        is_forest(ts),
    ensures
        below(ts, a).len() == ts.filter(|t: TaskView| under(ts, t.id, a)).len(),
{
    law_progress_counts_what_is_below(ts, a);
}

/// Where a task may be put: anywhere at the top, and below a task that is there,
/// is not itself nor below it, and is on the same branch.
pub proof fn law_where_a_task_may_be_put(ts: Seq<TaskView>, c: int, p: int)
    requires
        is_forest(ts),
        0 <= c < ts.len(),
        0 <= p < ts.len(),
    ensures
        reparent_refusal(ts, ts[c].id, None) is None,
        reparent_refusal(ts, ts[c].id, Some(ts[p].id)) is None <==> c != p && !under(
            ts,
            ts[p].id,
            ts[c].id,
        ) && ts[c].branch == ts[p].branch,
        c == p ==> reparent_refusal(ts, ts[c].id, Some(ts[p].id)) == Some(ErrorView::OwnParent),
        under(ts, ts[p].id, ts[c].id) ==> reparent_refusal(ts, ts[c].id, Some(ts[p].id)) == Some(
            ErrorView::WouldCycle { id: ts[c].id, parent: ts[p].id },
        ),
        c != p && !under(ts, ts[p].id, ts[c].id) && ts[c].branch != ts[p].branch
            ==> reparent_refusal(ts, ts[c].id, Some(ts[p].id)) == Some(
            ErrorView::OtherBranch {
                id: ts[c].id,
                branch: ts[c].branch,
                parent: ts[p].id,
                parent_branch: ts[p].branch,
            },
        ),
        forall|x: u32|
            !has_id(ts, x) ==> #[trigger] reparent_refusal(ts, ts[c].id, Some(x)) == Some(
                ErrorView::NoTask { id: x },
            ),
        forall|x: u32, to: Option<u32>|
            !has_id(ts, x) ==> #[trigger] reparent_refusal(ts, x, to) == Some(
                ErrorView::NoTask { id: x },
            ),
{
    lemma_lookup_at(ts, c);
    lemma_lookup_at(ts, p);
    lemma_below(ts, ts[c].id);
    assert(has_id(ts, ts[c].id));
    assert(has_id(ts, ts[p].id));
    if c < p {
        assert(ts[c].id != ts[p].id);
    }
    if p < c {
        assert(ts[p].id != ts[c].id);
    }
    if c == p && under(ts, ts[p].id, ts[c].id) {
        assert(cyclic(ts, ts[c].id));
    }
}

/// Putting a task elsewhere changes its parent and its time, and nothing else of
/// it or of any other task.
pub proof fn law_reparenting_changes_one_parent(
    ts: Seq<TaskView>,
    c: int,
    parent: Option<u32>,
    now: Moment,
    i: int,
)
    requires
        unique_ids(ts),
        0 <= c < ts.len(),
        0 <= i < ts.len(),
    ensures
        reparented(ts, ts[c].id, parent, now).len() == ts.len(),
        reparented(ts, ts[c].id, parent, now)[i] == (if i == c {
            TaskView { parent, updated: now, ..ts[i] }
        } else {
            ts[i]
        }),
{
    lemma_lookup_at(ts, c);
}

/// A task can be moved to another branch where it is at the top; one that is
/// nested goes with the task above it.
pub proof fn law_only_roots_change_branches(ts: Seq<TaskView>, i: int)
    requires
        unique_ids(ts),
        0 <= i < ts.len(),
    ensures
        scope_refusal(ts, ts[i].id) == (match ts[i].parent {
            None => None,
            Some(p) => Some(ErrorView::Nested { id: ts[i].id, parent: p }),
        }),
        forall|x: u32|
            !has_id(ts, x) ==> #[trigger] scope_refusal(ts, x) == Some(ErrorView::NoTask { id: x }),
{
    lemma_lookup_at(ts, i);
    assert(has_id(ts, ts[i].id));
}

/// Re-scoping changes the branch and the time of the tasks that were elsewhere,
/// and nothing else; a task that is there already is not even touched.
pub proof fn law_rescoping_touches_what_was_elsewhere(
    ts: Seq<TaskView>,
    id: u32,
    branch: Option<Seq<char>>,
    now: Moment,
    i: int,
)
    requires
        unique_ids(ts),
        0 <= i < ts.len(),
    ensures
        rescoped(ts, whole(ts, id), branch, now).len() == ts.len(),
        (ts[i].id == id || under(ts, ts[i].id, id)) && ts[i].branch != branch ==> rescoped(
            ts,
            whole(ts, id),
            branch,
            now,
        )[i] == (TaskView { branch, updated: now, ..ts[i] }),
        !(ts[i].id == id || under(ts, ts[i].id, id)) || ts[i].branch == branch ==> rescoped(
            ts,
            whole(ts, id),
            branch,
            now,
        )[i] == ts[i],
        elsewhere(ts, whole(ts, id), branch).contains(ts[i].id) <==> (ts[i].id == id || under(
            ts,
            ts[i].id,
            id,
        )) && ts[i].branch != branch,
{
    let w = whole(ts, id);
    let x = ts[i].id;
    lemma_below(ts, id);
    assert(has_id(ts, x));
    crate::forest::lemma_contains_concat(seq![id], below(ts, id));
    assert(seq![id].contains(x) <==> x == id) by {
        assert(seq![id][0] == id);
    }
    assert(w.contains(x) <==> x == id || under(ts, x, id));
    lemma_lookup_at(ts, i);
    crate::text::lemma_filter_contains(
        w,
        |id: u32|
            match lookup(ts, id) {
                Some(i) => ts[i].branch != branch,
                None => false,
            },
    );
}

/// The orphans are the tasks pinned to a branch that is not there.
pub proof fn law_orphans_are_on_lost_branches(ts: Seq<TaskView>, live: Seq<Seq<char>>, t: TaskView)
    ensures
        orphans(ts, live).contains(t) <==> ts.contains(t) && (t.branch matches Some(b)
            && !live.contains(b)),
{
    crate::text::lemma_filter_contains(ts, |t: TaskView| is_orphan(t, live));
}

/// A task is found by its marker exactly where it was harvested from one with
/// that key, and it is the first such task.
pub proof fn law_markers_find_their_task(ts: Seq<TaskView>, key: Seq<char>)
    ensures
        match marked_from(ts, key, 0) {
            Some(i) => 0 <= i < ts.len() && ts[i].origin == (crate::task::OriginView::Scan { key })
                && forall|j: int|
                0 <= j < i ==> (#[trigger] ts[j]).origin != (crate::task::OriginView::Scan { key }),
            None => forall|j: int|
                0 <= j < ts.len() ==> (#[trigger] ts[j]).origin != (crate::task::OriginView::Scan {
                    key,
                }),
        },
{
    lemma_marked_first(ts, key, 0);
}

proof fn lemma_marked_first(ts: Seq<TaskView>, key: Seq<char>, i: int)
    requires
        0 <= i <= ts.len(),
    ensures
        match marked_from(ts, key, i) {
            Some(k) => i <= k < ts.len() && ts[k].origin == (crate::task::OriginView::Scan { key })
                && forall|j: int|
                i <= j < k ==> (#[trigger] ts[j]).origin != (crate::task::OriginView::Scan { key }),
            None => forall|j: int|
                i <= j < ts.len() ==> (#[trigger] ts[j]).origin != (crate::task::OriginView::Scan {
                    key,
                }),
        },
    decreases ts.len() - i,
{
    if i < ts.len() && ts[i].scan_key() != Some(key) {
        lemma_marked_first(ts, key, i + 1);
    }
}

/// Outside of any repo the list lies below the platform's data directory, if
/// that is set, and otherwise at the platform's usual place below the home
/// directory; an empty setting is as good as none.
pub proof fn law_where_the_list_outside_repos_is(
    base: Seq<char>,
    home: Seq<char>,
    windows: bool,
    any: Option<Seq<char>>,
)
    ensures
        base.len() > 0 ==> data_dir(Some(base), any, windows) == Some(seq![base, "clt"@]),
        data_dir(Some(Seq::empty()), any, windows) == data_dir(None, any, windows),
        home.len() > 0 ==> data_dir(None, Some(home), true) == Some(
            seq![home, "AppData"@, "Local"@, "clt"@],
        ) && data_dir(None, Some(home), false) == Some(seq![home, ".local"@, "share"@, "clt"@]),
        data_dir(None, None, windows) is None,
        data_dir(None, Some(Seq::empty()), windows) is None,
{
}

/// The branch one is on is that of the repo; outside of any repo there is none.
pub proof fn law_which_branch_one_is_on(scope: Scope)
    ensures
        scope matches Scope::Repo(r) ==> scope.branch_of() == opt_view(r.branch),
        scope is Global ==> scope.branch_of() is None,
{
}

} // verus!
