//! Committing the task list with the repo, and going back to a local one.

use crate::text::{cat, ends, ends_with, opt_str_view, opt_view, views};
use vstd::prelude::*;

verus! {

/// The ignore file that keeps git from seeing the list, if it is not clt's own
/// to edit: the exclude file of the clone is, a committed one is not.
pub open spec fn blocking(source: Option<Seq<char>>) -> Option<Seq<char>> {
    match source {
        Some(s) if !ends(s, "info/exclude"@) => Some(s),
        _ => None,
    }
}

/// What still blocks sharing, given the file that makes git ignore the list.
pub fn blocked_by(source: Option<String>) -> (r: Option<String>)
    ensures
        opt_view(r) == blocking(opt_view(source)),
{
    match source {
        Some(s) => if ends_with(s.as_str(), "info/exclude") {
            None
        } else {
            Some(s)
        },
        None => None,
    }
}

/// What is said of an ignore file that blocks sharing.
pub open spec fn blocked_text(source: Seq<char>) -> Seq<char> {
    "`"@ + source
        + "` still ignores the task list, and that file belongs to the project, not to clt. Remove its .clt/ entry, then run `clt share` again."@
}

pub open spec fn share_lines(already: bool) -> Seq<Seq<char>> {
    if already {
        seq!["  The task list is already tracked by git."@]
    } else {
        seq![
            "  The task list is no longer excluded. To share it:"@,
            ""@,
            "    git add .clt && git commit -m \"track the clt task list\""@,
            ""@,
            "  tasks.json and hooks/ travel with the repo; the journal stays local,"@,
            "  per .clt/.gitignore. Expect the occasional merge conflict in tasks.json —"@,
            "  the format is line-oriented and meant to be resolved by hand."@,
        ]
    }
}

/// What to say after sharing: a warning, or some lines.
pub enum ShareReport {
    Blocked(String),
    Lines(Vec<String>),
}

/// What to say once the list may be committed.
///
/// It deliberately stops short of touching the index: staging files is a
/// decision about a commit that someone is in the middle of composing.
pub fn report_share(already: bool, blocked: Option<&str>) -> (r: ShareReport)
    ensures
        match r {
            ShareReport::Blocked(w) => !already && (blocked matches Some(s) && w@ == blocked_text(
                s@,
            )),
            ShareReport::Lines(l) => (already || blocked is None) && views(l@) == share_lines(
                already,
            ),
        },
{
    let mut lines: Vec<String> = Vec::new();
    if already {
        lines.push("  The task list is already tracked by git.".to_owned());
        assert(views(lines@) =~= share_lines(already));
        return ShareReport::Lines(lines);
    }
    if let Some(s) = blocked {
        let mut w = cat("`", s);
        w.append(
            "` still ignores the task list, and that file belongs to the project, not to clt. Remove its .clt/ entry, then run `clt share` again.",
        );
        return ShareReport::Blocked(w);
    }
    lines.push("  The task list is no longer excluded. To share it:".to_owned());
    lines.push("".to_owned());
    lines.push("    git add .clt && git commit -m \"track the clt task list\"".to_owned());
    lines.push("".to_owned());
    lines.push("  tasks.json and hooks/ travel with the repo; the journal stays local,".to_owned());
    lines.push(
        "  per .clt/.gitignore. Expect the occasional merge conflict in tasks.json —".to_owned(),
    );
    lines.push("  the format is line-oriented and meant to be resolved by hand.".to_owned());
    assert(views(lines@) =~= share_lines(already));
    ShareReport::Lines(lines)
}

pub open spec fn unshare_lines(shared: bool) -> Seq<Seq<char>> {
    let first = seq!["  New commits will not carry the task list."@];
    if shared {
        first + seq![
            ""@,
            "  It is still tracked, though. To stop committing it:"@,
            ""@,
            "    git rm -r --cached .clt"@,
            ""@,
            "  That leaves your tasks on disk and drops them from the index."@,
        ]
    } else {
        first
    }
}

/// What to say once the list is local again.
///
/// Excluding a file git already tracks does nothing at all: the entry only
/// applies to untracked paths. Without a word on that the command would look
/// like it worked and the list would keep getting committed.
pub fn report_unshare(shared: bool) -> (r: Vec<String>)
    ensures
        views(r@) == unshare_lines(shared),
{
    let mut lines: Vec<String> = Vec::new();
    lines.push("  New commits will not carry the task list.".to_owned());
    if shared {
        lines.push("".to_owned());
        lines.push("  It is still tracked, though. To stop committing it:".to_owned());
        lines.push("".to_owned());
        lines.push("    git rm -r --cached .clt".to_owned());
        lines.push("".to_owned());
        lines.push("  That leaves your tasks on disk and drops them from the index.".to_owned());
    }
    assert(views(lines@) =~= unshare_lines(shared));
    lines
}

pub open spec fn init_lines(
    path: Seq<char>,
    branch: Option<Seq<char>>,
    sample: Seq<char>,
    readme: Seq<char>,
) -> Seq<Seq<char>> {
    seq!["  Task list ready at "@ + path] + (match branch {
        Some(b) => seq!["  Tasks you add now are scoped to `"@ + b + "`."@],
        None => Seq::empty(),
    }) + seq!["  Sample hook: "@ + sample, "  What's in .clt/: "@ + readme]
}

/// What to say once the directory is set up.
pub fn report_init(path: &str, branch: Option<&str>, sample: &str, readme: &str) -> (r: Vec<String>)
    ensures
        views(r@) == init_lines(path@, opt_str_view(branch), sample@, readme@),
{
    let mut lines: Vec<String> = Vec::new();
    lines.push(cat("  Task list ready at ", path));
    if let Some(b) = branch {
        let mut line = cat("  Tasks you add now are scoped to `", b);
        line.append("`.");
        lines.push(line);
    }
    lines.push(cat("  Sample hook: ", sample));
    lines.push(cat("  What's in .clt/: ", readme));
    assert(views(lines@) =~= init_lines(path@, opt_str_view(branch), sample@, readme@));
    lines
}

/// Sharing is blocked by an ignore file of the project, and by no other: the
/// exclude file of the clone is ours to edit.
pub proof fn law_what_blocks_sharing(dir: Seq<char>, source: Seq<char>)
    ensures
        blocking(None) is None,
        blocking(Some(dir + "info/exclude"@)) is None,
        (source.len() < 12 || source.skip(source.len() - 12) != "info/exclude"@) ==> blocking(
            Some(source),
        ) == Some(source),
{
    reveal_strlit("info/exclude");
    let s = dir + "info/exclude"@;
    assert(s.subrange(s.len() - 12, s.len() as int) =~= "info/exclude"@);
    if source.len() >= 12 {
        assert(source.skip(source.len() - 12) =~= source.subrange(
            source.len() - 12,
            source.len() as int,
        ));
    }
}

} // verus!
