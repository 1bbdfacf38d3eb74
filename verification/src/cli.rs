//! What can be asked for on the command line.

use crate::store::Access;
use crate::task::{state_named, unknown_state, State};
use crate::text::{lower_ascii, opt_view, trimmed, views};
use vstd::prelude::*;

verus! {

/// One invocation.
#[derive(Debug)]
pub struct Cli {
    pub command: Option<Command>,
    /// Flags for the implicit listing when no command is given.
    pub list: ListArgs,
    /// Who is making this change. Renders as a tag and lands in the journal.
    pub actor: Option<String>,
    /// Emit machine-readable JSON instead of a table.
    pub json: bool,
    /// Operate on the global list even inside a repo.
    pub global: bool,
}

#[derive(Debug)]
pub enum Command {
    /// File a new task on the current branch.
    Add(AddArgs),
    /// List tasks (the default).
    List(ListArgs),
    /// Search every branch for a task.
    Find(FindArgs),
    /// Mark tasks done, along with everything nested under them.
    Done(IdsArgs),
    /// Mark tasks in progress.
    Start(IdsArgs),
    /// Move tasks back to todo.
    Reopen(IdsArgs),
    /// Delete tasks permanently.
    Rm(RmArgs),
    /// Change a task's title, note, location or state.
    Edit(EditArgs),
    /// Re-nest a task under another one, or detach it to the top level.
    Move(MoveArgs),
    /// Move tasks between a branch and the whole repo.
    Scope(ScopeArgs),
    /// Harvest `TODO(clt):` markers from the source into tasks.
    Scan(ScanArgs),
    /// Close tasks referenced by new commit messages.
    Sync(SyncArgs),
    /// Show the audit log of who changed what.
    Log(LogArgs),
    /// Print where the task list is stored.
    Path,
    /// Commit the task list with the repo, so it survives a clone.
    Share,
    /// Go back to a local-only task list that is never committed.
    Unshare,
    /// Create `.clt/` with sample hooks and a README.
    Init,
    /// Serve the task list to an agent.
    Mcp,
}

#[derive(Debug)]
pub struct AddArgs {
    /// Task title. Quoting is optional: trailing words are joined.
    pub title: Vec<String>,
    /// Longer description.
    pub note: Option<String>,
    /// Source location this is about, as `path` or `path:line`.
    pub file: Option<String>,
    /// Nest under an existing task.
    pub parent: Option<u32>,
    /// Visible from every branch, not just this one.
    pub repo: bool,
    /// Create it already in progress.
    pub start: bool,
}

#[derive(Debug)]
pub struct ListArgs {
    /// Every branch, not just the current one.
    pub all: bool,
    /// Show done tasks older than today too.
    pub done: bool,
    /// Only this state.
    pub state: Option<State>,
    /// A specific branch instead of the current one.
    pub branch: Option<String>,
    /// Only tasks pinned to a branch that no longer exists.
    pub orphaned: bool,
}

#[derive(Debug)]
pub struct FindArgs {
    /// Text to look for in titles, notes and file paths.
    pub query: Vec<String>,
    /// Restrict to the current branch (search spans every branch by default).
    pub here: bool,
}

#[derive(Debug)]
pub struct IdsArgs {
    /// One or more task ids.
    pub ids: Vec<u32>,
}

#[derive(Debug)]
pub struct RmArgs {
    pub ids: Vec<u32>,
    /// Also delete everything nested underneath. Required when a task has
    /// subtasks: deleting a subtree by accident is not recoverable.
    pub recursive: bool,
}

#[derive(Debug)]
pub struct EditArgs {
    pub id: u32,
    pub title: Option<String>,
    pub note: Option<String>,
    pub file: Option<String>,
    pub state: Option<State>,
}

#[derive(Debug)]
pub struct MoveArgs {
    pub id: u32,
    /// New parent.
    pub under: Option<u32>,
    /// Detach to the top level.
    pub root: bool,
}

/// Where a task lives: one branch, or the whole repo. Exactly one of these is
/// asked for.
#[derive(Debug)]
pub struct ScopeTarget {
    /// Visible from every branch.
    pub repo: bool,
    /// A named branch.
    pub branch: Option<String>,
    /// The branch you are on right now.
    pub here: bool,
}

#[derive(Debug)]
pub struct ScopeArgs {
    /// One or more task ids. Subtasks follow their parent, so name the root.
    pub ids: Vec<u32>,
    pub target: ScopeTarget,
}

#[derive(Debug)]
pub struct ScanArgs {
    /// Report what would change without writing anything.
    pub dry_run: bool,
}

#[derive(Debug)]
pub struct SyncArgs {
    /// Re-read the last 50 commits instead of only what is new since the last
    /// sync.
    pub rescan: bool,
    pub dry_run: bool,
}

#[derive(Debug)]
pub struct LogArgs {
    /// How many entries to show.
    pub limit: usize,
}

/// A new task, as it is asked for.
#[verifier::ext_equal]
pub struct AddView {
    pub title: Seq<Seq<char>>,
    pub note: Option<Seq<char>>,
    pub file: Option<Seq<char>>,
    pub parent: Option<u32>,
    pub repo: bool,
    pub start: bool,
}

impl View for AddArgs {
    type V = AddView;

    open spec fn view(&self) -> AddView {
        AddView {
            title: views(self.title@),
            note: opt_view(self.note),
            file: opt_view(self.file),
            parent: self.parent,
            repo: self.repo,
            start: self.start,
        }
    }
}

/// A change to a task, as it is asked for.
#[verifier::ext_equal]
pub struct EditView {
    pub id: u32,
    pub title: Option<Seq<char>>,
    pub note: Option<Seq<char>>,
    pub file: Option<Seq<char>>,
    pub state: Option<State>,
}

impl View for EditArgs {
    type V = EditView;

    open spec fn view(&self) -> EditView {
        EditView {
            id: self.id,
            title: opt_view(self.title),
            note: opt_view(self.note),
            file: opt_view(self.file),
            state: self.state,
        }
    }
}

impl Default for ListArgs {
    fn default() -> (r: ListArgs)
        ensures
            !r.all && !r.done && r.state is None && r.branch is None && !r.orphaned,
    {
        ListArgs { all: false, done: false, state: None, branch: None, orphaned: false }
    }
}

/// Whether a command changes nothing. Dry runs mutate the in-memory copy and
/// deliberately never save, so they read.
pub open spec fn only_reads(command: Option<Command>) -> bool {
    match command {
        None => true,
        Some(Command::List(_)) => true,
        Some(Command::Find(_)) => true,
        Some(Command::Log(_)) => true,
        Some(Command::Path) => true,
        Some(Command::Scan(a)) => a.dry_run,
        Some(Command::Sync(a)) => a.dry_run,
        _ => false,
    }
}

/// Whether this invocation will modify the list, and so has to take the
/// cross-process write lock.
///
/// Enumerated explicitly rather than inferred: getting it wrong in the safe
/// direction costs a few milliseconds of queueing, and getting it wrong in the
/// other direction costs somebody a task.
pub fn access_for(args: &Cli) -> (r: Access)
    ensures
        r == (if only_reads(args.command) {
            Access::Read
        } else {
            Access::Write
        }),
{
    match &args.command {
        None => Access::Read,
        Some(Command::List(_)) => Access::Read,
        Some(Command::Find(_)) => Access::Read,
        Some(Command::Log(_)) => Access::Read,
        Some(Command::Path) => Access::Read,
        Some(Command::Scan(a)) => if a.dry_run {
            Access::Read
        } else {
            Access::Write
        },
        Some(Command::Sync(a)) => if a.dry_run {
            Access::Read
        } else {
            Access::Write
        },
        _ => Access::Write,
    }
}

/// A state as it is typed.
pub fn parse_state(s: &str) -> (r: Result<State, String>)
    ensures
        match r {
            Ok(state) => state_named(lower_ascii(trimmed(s@))) == Some(state),
            Err(e) => state_named(lower_ascii(trimmed(s@))) is None && e@ == unknown_state(
                lower_ascii(trimmed(s@)),
            ),
        },
{
    State::parse(s)
}

/// What takes the write lock: every command that can change the list. Listing,
/// searching, the log and the path only read, and so do dry runs.
pub proof fn law_dry_runs_only_read(command: Command)
    ensures
        only_reads(None),
        command matches Command::Scan(a) ==> only_reads(Some(command)) == a.dry_run,
        command matches Command::Sync(a) ==> only_reads(Some(command)) == a.dry_run,
        command is List || command is Find || command is Log || command is Path ==> only_reads(
            Some(command),
        ),
        !(command is List || command is Find || command is Log || command is Path || command is Scan
            || command is Sync) ==> !only_reads(Some(command)),
{
}

} // verus!
