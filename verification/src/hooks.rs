//! Hook scripts.
//!
//! An executable with the right name, in the right directory, in whatever
//! language you like. Hooks receive the task as JSON and as `CLT_*` environment
//! variables, and cannot fail the command that triggered them: each reports
//! something that already happened.

use crate::task::{Task, TaskView};
use crate::text::{as_opt, decimal, opt_str_view, signed, to_decimal, to_signed, views};
use vstd::prelude::*;

verus! {

/// Where a hook's stdout is allowed to go.
///
/// Hooks print whatever they like, and when an agent is served, stdout is a
/// stream of frames: a single line of hook chatter on it desynchronises the
/// transport. So the caller has to state which regime it is in.
#[derive(Debug, Clone, Copy, PartialEq, Eq, Structural)]
pub enum Output {
    /// Terminal use: hook output goes straight to the user's screen.
    Inherit,
    /// Protocol use: hook stdout is captured and replayed on *our* stderr, so
    /// it stays visible for debugging without touching the frame stream.
    Divert,
}

pub open spec fn pair_views(v: Seq<(String, String)>) -> Seq<(Seq<char>, Seq<char>)> {
    Seq::new(v.len(), |i: int| (v[i].0@, v[i].1@))
}

/// What a hook learns from its environment.
pub open spec fn hook_variables(
    event: Seq<char>,
    task: TaskView,
    payload: Seq<char>,
    actor: Option<Seq<char>>,
) -> Seq<(Seq<char>, Seq<char>)> {
    seq![
        ("CLT_EVENT"@, event),
        ("CLT_TASK_ID"@, decimal(task.id as nat)),
        ("CLT_TASK_TITLE"@, task.title),
        ("CLT_TASK_STATE"@, task.state.name_of()),
        ("CLT_TASK_JSON"@, payload),
        ("CLT_BRANCH"@, match task.branch {
            Some(b) => b,
            None => ""@,
        }),
        ("CLT_ACTOR"@, match actor {
            Some(a) => a,
            None => ""@,
        }),
    ]
}

/// The environment of a hook fired for `task`, whose JSON is `payload`.
pub fn environment(event: &str, task: &Task, payload: &str, actor: Option<&str>) -> (r: Vec<
    (String, String),
>)
    ensures
        pair_views(r@) == hook_variables(event@, task@, payload@, opt_str_view(actor)),
{
    let branch = match as_opt(&task.branch) {
        Some(b) => b,
        None => "",
    };
    let who = match actor {
        Some(a) => a,
        None => "",
    };
    let mut out: Vec<(String, String)> = Vec::new();
    out.push(("CLT_EVENT".to_owned(), event.to_owned()));
    out.push(("CLT_TASK_ID".to_owned(), to_decimal(task.id as u64)));
    out.push(("CLT_TASK_TITLE".to_owned(), task.title.clone()));
    out.push(("CLT_TASK_STATE".to_owned(), task.state.as_str().to_owned()));
    out.push(("CLT_TASK_JSON".to_owned(), payload.to_owned()));
    out.push(("CLT_BRANCH".to_owned(), branch.to_owned()));
    out.push(("CLT_ACTOR".to_owned(), who.to_owned()));
    assert(pair_views(out@) =~= hook_variables(event@, task@, payload@, opt_str_view(actor)));
    out
}

/// Whether a file can be run as a hook where files have an execute bit.
pub fn runnable(is_file: bool, mode: u32) -> (r: bool)
    ensures
        r == (is_file && mode & 0x49 != 0),
{
    is_file && mode & 0x49 != 0
}

/// The endings that a hook's file may have on Windows, in the order in which
/// they are looked for.
pub open spec fn suffixes() -> Seq<Seq<char>> {
    seq![""@, ".exe"@, ".cmd"@, ".bat"@, ".ps1"@, ".sh"@]
}

/// Where a hook for `event` may be on Windows, in order.
pub fn candidates(event: &str) -> (r: Vec<String>)
    ensures
        views(r@) == Seq::new(6, |i: int| event@ + suffixes()[i]),
{
    let mut out: Vec<String> = Vec::new();
    out.push(crate::text::cat(event, ""));
    out.push(crate::text::cat(event, ".exe"));
    out.push(crate::text::cat(event, ".cmd"));
    out.push(crate::text::cat(event, ".bat"));
    out.push(crate::text::cat(event, ".ps1"));
    out.push(crate::text::cat(event, ".sh"));
    assert(views(out@) =~= Seq::new(6, |i: int| event@ + suffixes()[i]));
    out
}

/// How the file with the given ending is run on Windows: scripts through their
/// interpreters, anything else directly. A file without an ending is almost
/// always a shell script from another machine.
pub open spec fn command_line(ending: int, path: Seq<char>) -> (Seq<char>, Seq<Seq<char>>) {
    if ending == 4 {
        (
            "powershell"@,
            seq!["-NoProfile"@, "-ExecutionPolicy"@, "Bypass"@, "-File"@, path],
        )
    } else if ending == 0 || ending == 5 {
        ("sh"@, seq![path])
    } else {
        (path, Seq::empty())
    }
}

/// The program and the arguments for a hook found at `path`, where `found` is
/// the position of its name among [`candidates`].
pub fn resolve(found: usize, path: &str) -> (r: (String, Vec<String>))
    requires
        found < 6,
    ensures
        (r.0@, views(r.1@)) == command_line(found as int, path@),
{
    let mut args: Vec<String> = Vec::new();
    if found == 4 {
        args.push("-NoProfile".to_owned());
        args.push("-ExecutionPolicy".to_owned());
        args.push("Bypass".to_owned());
        args.push("-File".to_owned());
        args.push(path.to_owned());
        assert(views(args@) =~= command_line(4, path@).1);
        ("powershell".to_owned(), args)
    } else if found == 0 || found == 5 {
        args.push(path.to_owned());
        assert(views(args@) =~= command_line(found as int, path@).1);
        ("sh".to_owned(), args)
    } else {
        assert(views(args@) =~= Seq::empty());
        (path.to_owned(), args)
    }
}

/// What is said of a hook that failed. It has no veto: the task is already
/// added, closed, or deleted.
pub open spec fn complaint(event: Seq<char>, code: Option<i32>) -> Seq<char> {
    "hook `"@ + event + "` exited with "@ + (match code {
        Some(c) => signed(c as int),
        None => "a signal"@,
    })
}

/// What to report of a hook that ran: nothing where it succeeded.
pub fn report(event: &str, success: bool, code: Option<i32>) -> (r: Option<String>)
    ensures
        crate::text::opt_view(r) == (if success {
            None
        } else {
            Some(complaint(event@, code))
        }),
{
    if success {
        return None;
    }
    let mut out = "hook `".to_owned();
    out.append(event);
    out.append("` exited with ");
    match code {
        Some(c) => {
            let n = to_signed(c);
            out.append(n.as_str());
        },
        None => {
            out.append("a signal");
        },
    }
    Some(out)
}

/// An example hook, so the directory documents itself.
pub const SAMPLE: &'static str = "#!/bin/sh
# clt hook — rename to `post-add` (and chmod +x) to enable.
#
# Fired after a task is created. The task is on stdin as JSON, and also in:
#   CLT_EVENT CLT_TASK_ID CLT_TASK_TITLE CLT_TASK_STATE CLT_BRANCH CLT_ACTOR
#   CLT_TASK_JSON
#
# Exit status is reported but ignored — this hook cannot veto the change.
#
# Events: post-add  post-done  post-start  post-reopen  post-rm
#
# Example: shout when your agent files something, but stay quiet for yourself.
if [ -n \"$CLT_ACTOR\" ]; then
  printf '\\n  %s filed #%s: %s\\n\\n' \"$CLT_ACTOR\" \"$CLT_TASK_ID\" \"$CLT_TASK_TITLE\"
fi
";

/// What a hook learns: what happened, to which task, and who did it; a task on no
/// branch and a change by nobody in particular are told as empty.
pub proof fn law_what_a_hook_learns(
    event: Seq<char>,
    task: TaskView,
    payload: Seq<char>,
    actor: Option<Seq<char>>,
)
    ensures
        ({
            let v = hook_variables(event, task, payload, actor);
            &&& v.contains(("CLT_EVENT"@, event))
            &&& v.contains(("CLT_TASK_ID"@, decimal(task.id as nat)))
            &&& v.contains(("CLT_TASK_TITLE"@, task.title))
            &&& v.contains(("CLT_TASK_STATE"@, task.state.name_of()))
            &&& v.contains(("CLT_TASK_JSON"@, payload))
            &&& task.branch matches Some(b) ==> v.contains(("CLT_BRANCH"@, b))
            &&& task.branch is None ==> v.contains(("CLT_BRANCH"@, ""@))
            &&& actor matches Some(a) ==> v.contains(("CLT_ACTOR"@, a))
            &&& actor is None ==> v.contains(("CLT_ACTOR"@, ""@))
            &&& v.len() == 7
        }),
{
    let v = hook_variables(event, task, payload, actor);
    assert(v[0] == ("CLT_EVENT"@, event));
    assert(v[1] == ("CLT_TASK_ID"@, decimal(task.id as nat)));
    assert(v[2] == ("CLT_TASK_TITLE"@, task.title));
    assert(v[3] == ("CLT_TASK_STATE"@, task.state.name_of()));
    assert(v[4] == ("CLT_TASK_JSON"@, payload));
    assert(v[5].0 == "CLT_BRANCH"@);
    assert(v[6].0 == "CLT_ACTOR"@);
}

/// Scripts are run through their interpreters, and programs as they are.
pub proof fn law_how_hooks_are_run(ending: int, path: Seq<char>)
    requires
        0 <= ending < 6,
    ensures
        suffixes().len() == 6,
        ({
            let s = suffixes()[ending];
            let (program, args) = command_line(ending, path);
            &&& s == ""@ || s == ".sh"@ ==> program == "sh"@ && args == seq![path]
            &&& s == ".ps1"@ ==> program == "powershell"@ && args.last() == path && args.contains(
                "-File"@,
            )
            &&& s == ".exe"@ || s == ".cmd"@ || s == ".bat"@ ==> program == path && args.len() == 0
        }),
{
    reveal_strlit("");
    reveal_strlit(".exe");
    reveal_strlit(".cmd");
    reveal_strlit(".bat");
    reveal_strlit(".ps1");
    reveal_strlit(".sh");
    assert(".exe"@[1] == 'e' && ".cmd"@[1] == 'c' && ".bat"@[1] == 'b' && ".ps1"@[1] == 'p');
    assert(".sh"@[1] == 's' && ""@.len() == 0);
    if ending == 4 {
        assert(command_line(ending, path).1[3] == "-File"@);
    }
}

} // verus!
