//! Why a request was refused.

use crate::text::{decimal, opt_view, to_decimal};
use vstd::prelude::*;

verus! {

/// Everything the library refuses to do, with what is needed to say why.
#[derive(Debug)]
pub enum Error {
    NoTask { id: u32 },
    OwnParent,
    WouldCycle { id: u32, parent: u32 },
    OtherBranch { id: u32, branch: Option<String>, parent: u32, parent_branch: Option<String> },
    Nested { id: u32, parent: u32 },
    FutureFormat { version: u32 },
    NoTitle,
    RepoUnderBranch { parent: u32, scoped_to: String },
    BadLocation { reason: String },
    NothingToChange,
    NowhereToMove,
    HereIsDetached,
    HasSubtasks { id: u32, count: usize },
    OrphansNeedRepo,
    NoBranches,
    ScanNeedsRepo,
    SyncNeedsRepo,
    ShareNeedsRepo,
    UnshareNeedsRepo,
    GitFailed { reason: String },
    ListingFailed { reason: String },
    ListingRefused,
    NoDataDir { windows: bool },
}

#[verifier::ext_equal]
pub enum ErrorView {
    NoTask { id: u32 },
    OwnParent,
    WouldCycle { id: u32, parent: u32 },
    OtherBranch {
        id: u32,
        branch: Option<Seq<char>>,
        parent: u32,
        parent_branch: Option<Seq<char>>,
    },
    Nested { id: u32, parent: u32 },
    FutureFormat { version: u32 },
    NoTitle,
    RepoUnderBranch { parent: u32, scoped_to: Seq<char> },
    BadLocation { reason: Seq<char> },
    NothingToChange,
    NowhereToMove,
    HereIsDetached,
    HasSubtasks { id: u32, count: nat },
    OrphansNeedRepo,
    NoBranches,
    ScanNeedsRepo,
    SyncNeedsRepo,
    ShareNeedsRepo,
    UnshareNeedsRepo,
    GitFailed { reason: Seq<char> },
    ListingFailed { reason: Seq<char> },
    ListingRefused,
    NoDataDir { windows: bool },
}

impl View for Error {
    type V = ErrorView;

    open spec fn view(&self) -> ErrorView {
        match self {
            Error::NoTask { id } => ErrorView::NoTask { id: *id },
            Error::OwnParent => ErrorView::OwnParent,
            Error::WouldCycle { id, parent } => ErrorView::WouldCycle { id: *id, parent: *parent },
            Error::OtherBranch { id, branch, parent, parent_branch } => ErrorView::OtherBranch {
                id: *id,
                branch: opt_view(*branch),
                parent: *parent,
                parent_branch: opt_view(*parent_branch),
            },
            Error::Nested { id, parent } => ErrorView::Nested { id: *id, parent: *parent },
            Error::FutureFormat { version } => ErrorView::FutureFormat { version: *version },
            Error::NoTitle => ErrorView::NoTitle,
            Error::RepoUnderBranch { parent, scoped_to } => ErrorView::RepoUnderBranch {
                parent: *parent,
                scoped_to: scoped_to@,
            },
            Error::BadLocation { reason } => ErrorView::BadLocation { reason: reason@ },
            Error::NothingToChange => ErrorView::NothingToChange,
            Error::NowhereToMove => ErrorView::NowhereToMove,
            Error::HereIsDetached => ErrorView::HereIsDetached,
            Error::HasSubtasks { id, count } => ErrorView::HasSubtasks {
                id: *id,
                count: *count as nat,
            },
            Error::OrphansNeedRepo => ErrorView::OrphansNeedRepo,
            Error::NoBranches => ErrorView::NoBranches,
            Error::ScanNeedsRepo => ErrorView::ScanNeedsRepo,
            Error::SyncNeedsRepo => ErrorView::SyncNeedsRepo,
            Error::ShareNeedsRepo => ErrorView::ShareNeedsRepo,
            Error::UnshareNeedsRepo => ErrorView::UnshareNeedsRepo,
            Error::GitFailed { reason } => ErrorView::GitFailed { reason: reason@ },
            Error::ListingFailed { reason } => ErrorView::ListingFailed { reason: reason@ },
            Error::ListingRefused => ErrorView::ListingRefused,
            Error::NoDataDir { windows } => ErrorView::NoDataDir { windows: *windows },
        }
    }
}

/// A branch in words: its name, or the whole repo.
pub open spec fn branch_words(branch: Option<Seq<char>>) -> Seq<char> {
    match branch {
        Some(b) => "`"@ + b + "`"@,
        None => "the whole repo"@,
    }
}

pub fn describe_branch(branch: Option<&str>) -> (r: String)
    ensures
        r@ == branch_words(crate::text::opt_str_view(branch)),
{
    match branch {
        Some(b) => {
            let mut out = "`".to_owned();
            out.append(b);
            out.append("`");
            out
        },
        None => "the whole repo".to_owned(),
    }
}

/// The plural ending, unless there is one.
pub open spec fn plural(n: nat) -> Seq<char> {
    if n == 1 {
        ""@
    } else {
        "s"@
    }
}

pub fn plural_of(n: usize) -> (r: &'static str)
    ensures
        r@ == plural(n as nat),
{
    if n == 1 {
        ""
    } else {
        "s"
    }
}

impl ErrorView {
    /// What the user is told.
    pub open spec fn text(self) -> Seq<char> {
        match self {
            ErrorView::NoTask { id } => "no task #"@ + decimal(id as nat)
                + " (try `clt ls --all`)"@,
            ErrorView::OwnParent => "a task cannot be its own parent"@,
            ErrorView::WouldCycle { id, parent } => "#"@ + decimal(parent as nat)
                + " is already inside #"@ + decimal(id as nat)
                + "'s subtree — that would make a cycle\n(detach it first: `clt move "@ + decimal(
                parent as nat,
            ) + " --root`)"@,
            ErrorView::OtherBranch { id, branch, parent, parent_branch } => "#"@ + decimal(
                id as nat,
            ) + " is scoped to "@ + branch_words(branch) + " but #"@ + decimal(parent as nat)
                + " is scoped to "@ + branch_words(parent_branch)
                + " — subtasks must share their parent's branch"@,
            ErrorView::Nested { id, parent } => "#"@ + decimal(id as nat) + " is nested under #"@
                + decimal(parent as nat)
                + ", and a subtask shares its parent's scope\n(re-scope #"@ + decimal(parent as nat)
                + ", or detach it first: `clt move "@ + decimal(id as nat) + " --root`)"@,
            ErrorView::FutureFormat { version } => "task list is format version "@ + decimal(
                version as nat,
            ) + " but this clt understands up to "@ + decimal(1)
                + ". Upgrade clt rather than letting an old build rewrite the file."@,
            ErrorView::NoTitle => "a task needs a title"@,
            ErrorView::RepoUnderBranch { parent, scoped_to } => "--repo conflicts with --parent "@
                + decimal(parent as nat) + ", which is scoped to `"@ + scoped_to
                + "`\n(subtasks inherit their parent's branch)"@,
            ErrorView::BadLocation { reason } => reason,
            ErrorView::NothingToChange =>
                "nothing to change (try --title, --note, --file or --state)"@,
            ErrorView::NowhereToMove => "say where: --under <ID> to nest, or --root to detach"@,
            ErrorView::HereIsDetached =>
                "--here needs a branch, and HEAD is detached (try --branch <NAME> or --repo)"@,
            ErrorView::HasSubtasks { id, count } => "#"@ + decimal(id as nat) + " has "@ + decimal(
                count,
            ) + " subtask"@ + plural(count)
                + " — pass -r to delete them too, or `clt move` them out first"@,
            ErrorView::OrphansNeedRepo =>
                "--orphaned needs a git repository (there are no branches to compare against)"@,
            ErrorView::NoBranches =>
                "this repository has no branches yet, so nothing can be orphaned"@,
            ErrorView::ScanNeedsRepo =>
                "clt scan needs a git repository (it reads the working tree via git ls-files)"@,
            ErrorView::SyncNeedsRepo => "clt sync needs a git repository"@,
            ErrorView::ShareNeedsRepo => "there is no repo here for the task list to travel with"@,
            ErrorView::UnshareNeedsRepo =>
                "there is no repo here — the global task list is always local"@,
            ErrorView::GitFailed { reason } => "failed to run git: "@ + reason,
            ErrorView::ListingFailed { reason } =>
                "running `git ls-files` (is git on PATH?): "@ + reason,
            ErrorView::ListingRefused =>
                "`git ls-files` failed — clt scan needs a working git repository"@,
            ErrorView::NoDataDir { windows } => if windows {
                "cannot locate an application data directory (LOCALAPPDATA and USERPROFILE are unset)"@
            } else {
                "cannot locate a data directory (XDG_DATA_HOME and HOME are unset)"@
            },
        }
    }
}

fn put(out: &mut String, s: &str)
    ensures
        final(out)@ == old(out)@ + s@,
{
    out.append(s);
}

fn put_number(out: &mut String, n: u64)
    ensures
        final(out)@ == old(out)@ + decimal(n as nat),
{
    let d = to_decimal(n);
    out.append(d.as_str());
}

impl Error {
    /// What the user is told.
    pub fn message(&self) -> (r: String)
        ensures
            r@ == self@.text(),
    {
        match self {
            Error::NoTask { id } => {
                let mut out = "no task #".to_owned();
                put_number(&mut out, *id as u64);
                put(&mut out, " (try `clt ls --all`)");
                out
            },
            Error::OwnParent => "a task cannot be its own parent".to_owned(),
            Error::WouldCycle { id, parent } => {
                let mut out = "#".to_owned();
                put_number(&mut out, *parent as u64);
                put(&mut out, " is already inside #");
                put_number(&mut out, *id as u64);
                put(
                    &mut out,
                    "'s subtree — that would make a cycle\n(detach it first: `clt move ",
                );
                put_number(&mut out, *parent as u64);
                put(&mut out, " --root`)");
                out
            },
            Error::OtherBranch { id, branch, parent, parent_branch } => {
                let mut out = "#".to_owned();
                put_number(&mut out, *id as u64);
                put(&mut out, " is scoped to ");
                let own = describe_branch(crate::text::as_opt(branch));
                put(&mut out, own.as_str());
                put(&mut out, " but #");
                put_number(&mut out, *parent as u64);
                put(&mut out, " is scoped to ");
                let other = describe_branch(crate::text::as_opt(parent_branch));
                put(&mut out, other.as_str());
                put(&mut out, " — subtasks must share their parent's branch");
                out
            },
            Error::Nested { id, parent } => {
                let mut out = "#".to_owned();
                put_number(&mut out, *id as u64);
                put(&mut out, " is nested under #");
                put_number(&mut out, *parent as u64);
                put(&mut out, ", and a subtask shares its parent's scope\n(re-scope #");
                put_number(&mut out, *parent as u64);
                put(&mut out, ", or detach it first: `clt move ");
                put_number(&mut out, *id as u64);
                put(&mut out, " --root`)");
                out
            },
            Error::FutureFormat { version } => {
                let mut out = "task list is format version ".to_owned();
                put_number(&mut out, *version as u64);
                put(&mut out, " but this clt understands up to ");
                put_number(&mut out, 1);
                put(
                    &mut out,
                    ". Upgrade clt rather than letting an old build rewrite the file.",
                );
                out
            },
            Error::NoTitle => "a task needs a title".to_owned(),
            Error::RepoUnderBranch { parent, scoped_to } => {
                let mut out = "--repo conflicts with --parent ".to_owned();
                put_number(&mut out, *parent as u64);
                put(&mut out, ", which is scoped to `");
                put(&mut out, scoped_to.as_str());
                put(&mut out, "`\n(subtasks inherit their parent's branch)");
                out
            },
            Error::BadLocation { reason } => reason.clone(),
            Error::NothingToChange => {
                "nothing to change (try --title, --note, --file or --state)".to_owned()
            },
            Error::NowhereToMove => {
                "say where: --under <ID> to nest, or --root to detach".to_owned()
            },
            Error::HereIsDetached => {
                "--here needs a branch, and HEAD is detached (try --branch <NAME> or --repo)".to_owned()
            },
            Error::HasSubtasks { id, count } => {
                let mut out = "#".to_owned();
                put_number(&mut out, *id as u64);
                put(&mut out, " has ");
                put_number(&mut out, *count as u64);
                put(&mut out, " subtask");
                put(&mut out, plural_of(*count));
                put(&mut out, " — pass -r to delete them too, or `clt move` them out first");
                out
            },
            Error::OrphansNeedRepo => {
                "--orphaned needs a git repository (there are no branches to compare against)".to_owned()
            },
            Error::NoBranches => {
                "this repository has no branches yet, so nothing can be orphaned".to_owned()
            },
            Error::ScanNeedsRepo => {
                "clt scan needs a git repository (it reads the working tree via git ls-files)".to_owned()
            },
            Error::SyncNeedsRepo => "clt sync needs a git repository".to_owned(),
            Error::ShareNeedsRepo => {
                "there is no repo here for the task list to travel with".to_owned()
            },
            Error::UnshareNeedsRepo => {
                "there is no repo here — the global task list is always local".to_owned()
            },
            Error::GitFailed { reason } => {
                let mut out = "failed to run git: ".to_owned();
                put(&mut out, reason.as_str());
                out
            },
            Error::ListingFailed { reason } => {
                let mut out = "running `git ls-files` (is git on PATH?): ".to_owned();
                put(&mut out, reason.as_str());
                out
            },
            Error::ListingRefused => {
                "`git ls-files` failed — clt scan needs a working git repository".to_owned()
            },
            Error::NoDataDir { windows } => if *windows {
                "cannot locate an application data directory (LOCALAPPDATA and USERPROFILE are unset)".to_owned()
            } else {
                "cannot locate a data directory (XDG_DATA_HOME and HOME are unset)".to_owned()
            },
        }
    }
}

} // verus!
