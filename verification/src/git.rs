//! What git says about the repository.

use crate::error::{Error, ErrorView};
use crate::text::{
    begins, cat, chars_of, copy_opt, is_blank, join, joined, lemma_lines_joined,
    lemma_lines_of_two, lemma_one_line, lemma_tight, lines, lines_from, lines_of, opt_str_view, opt_view, other_than, pieces_from, pieces_of, run_end, same, split, starts_with, string_of,
    swap_char, swapped, trim, trimmed, views,
};
use vstd::prelude::*;
use vstd::utf8::{decode_utf8, encode_utf8, is_char_boundary, valid_utf8};

verus! {

/// A git worktree.
#[derive(Debug)]
pub struct Repo {
    /// Worktree root. For a linked worktree this is that worktree, not the
    /// primary one, which is what you want: tasks follow the checkout.
    pub root: String,
    /// Shared git dir. For a linked worktree this is the *common* dir, so the
    /// `info/exclude` entry is shared by every worktree.
    pub git_common_dir: String,
    /// Current branch, or `None` when HEAD is detached.
    pub branch: Option<String>,
}

#[verifier::ext_equal]
pub struct RepoView {
    pub root: Seq<char>,
    pub git_common_dir: Seq<char>,
    pub branch: Option<Seq<char>>,
}

impl View for Repo {
    type V = RepoView;

    open spec fn view(&self) -> RepoView {
        RepoView {
            root: self.root@,
            git_common_dir: self.git_common_dir@,
            branch: opt_view(self.branch),
        }
    }
}

impl Clone for Repo {
    fn clone(&self) -> (r: Repo)
        ensures
            r == *self,
    {
        Repo {
            root: self.root.clone(),
            git_common_dir: self.git_common_dir.clone(),
            branch: copy_opt(&self.branch),
        }
    }
}

/// How a run of git ended.
pub enum GitRun {
    /// There is no git to run.
    NotFound { reason: String },
    /// It could not be run for another reason.
    Failed { reason: String },
    Exited { success: bool, stdout: Vec<u8> },
}

/// Bytes as text, with what is not UTF-8 replaced.
pub uninterp spec fn lossy_text(bytes: Seq<u8>) -> Seq<char>;

/// Bytes as text.
///
/// Trusted: what `String::from_utf8_lossy` gives depends on the bytes alone,
/// and bytes that are UTF-8 are decoded as they are. What it makes of other
/// bytes is not stated.
#[verifier::external_body]
pub(crate) fn decode_lossy(bytes: &Vec<u8>) -> (r: String)
    ensures
        r@ == lossy_text(bytes@),
        valid_utf8(bytes@) ==> encode_utf8(r@) == bytes@,
{
    String::from_utf8_lossy(bytes).into_owned()
}

/// What git said, where it succeeded and said something.
pub open spec fn said(success: bool, text: Seq<char>) -> Option<Seq<char>> {
    if success && trimmed(text).len() > 0 {
        Some(trimmed(text))
    } else {
        None
    }
}

/// The trimmed output of a successful run, if there is any.
pub fn output(success: bool, text: &str) -> (r: Option<String>)
    ensures
        opt_view(r) == said(success, text@),
{
    if !success {
        return None;
    }
    let s = trim(text);
    if s.as_str().is_empty() {
        None
    } else {
        Some(s)
    }
}

/// What comes of a run: nothing where git is missing, fails or keeps silent
/// (the "not a repo" and "detached HEAD" signals), and an error only where it
/// could not be run at all.
pub open spec fn answer(run: GitRun) -> Result<Option<Seq<char>>, ErrorView> {
    match run {
        GitRun::NotFound { .. } => Ok(None),
        GitRun::Failed { reason } => Err(ErrorView::GitFailed { reason: reason@ }),
        GitRun::Exited { success, stdout } => Ok(said(success, lossy_text(stdout@))),
    }
}

pub open spec fn answer_view(r: Result<Option<String>, Error>) -> Result<
    Option<Seq<char>>,
    ErrorView,
> {
    match r {
        Ok(o) => Ok(opt_view(o)),
        Err(e) => Err(e@),
    }
}

/// Reads the outcome of a run.
pub fn git(run: &GitRun) -> (r: Result<Option<String>, Error>)
    ensures
        answer_view(r) == answer(*run),
{
    match run {
        GitRun::NotFound { reason } => Ok(None),
        GitRun::Failed { reason } => Err(Error::GitFailed { reason: reason.clone() }),
        GitRun::Exited { success, stdout } => {
            let text = decode_lossy(stdout);
            Ok(output(*success, text.as_str()))
        },
    }
}

/// A path in the platform's spelling.
pub open spec fn native_path(path: Seq<char>, windows: bool) -> Seq<char> {
    if windows {
        swapped(path, '/', '\\')
    } else {
        path
    }
}

/// Turns a path as git spells it into one the platform spells the same way.
///
/// Git answers in forward slashes everywhere, including on Windows, where
/// everything that gets joined onto its answer uses a backslash. Left alone the
/// two meet inside a single string.
pub fn native(path: &str, windows: bool) -> (r: String)
    ensures
        r@ == native_path(path@, windows),
{
    if windows {
        swap_char(path, '/', '\\')
    } else {
        path.to_owned()
    }
}

/// The line with this number, trimmed, where there is one that holds something.
pub open spec fn line_at(text: Seq<char>, i: int) -> Option<Seq<char>> {
    if i < lines_of(text).len() && trimmed(lines_of(text)[i]).len() > 0 {
        Some(trimmed(lines_of(text)[i]))
    } else {
        None
    }
}

fn trimmed_line(all: &Vec<String>, i: usize, Ghost(text): Ghost<Seq<char>>) -> (r: Option<String>)
    requires
        views(all@) == lines_of(text),
    ensures
        opt_view(r) == line_at(text, i as int),
{
    assert(views(all@).len() == all@.len());
    if i < all.len() {
        assert(views(all@)[i as int] == all@[i as int]@);
        let t = trim(all[i].as_str());
        if t.as_str().is_empty() {
            None
        } else {
            Some(t)
        }
    } else {
        None
    }
}

/// How the platform reads a path that is to be found from some directory.
#[derive(Debug)]
pub enum Anchor {
    /// An absolute path, or one that names a drive of its own. It stands for
    /// itself, whatever the directory.
    Own,
    /// A path that starts at the directory.
    Relative,
    /// A path that the platform puts somewhere by rules of its own: on Windows,
    /// one that starts at the root of a drive it does not name, or one found
    /// from a directory with a `\\?\` prefix.
    Placed { path: String },
}

/// Whether a character ends a directory's name.
pub open spec fn is_separator(c: char, windows: bool) -> bool {
    c == '/' || (windows && c == '\\')
}

/// Whether a directory is a drive's letter and nothing more, which stands for
/// the current directory of that drive.
pub open spec fn is_bare_drive(cwd: Seq<char>, windows: bool) -> bool {
    windows && cwd.len() == 2 && cwd[1] == ':' && ('a' <= cwd[0] <= 'z' || 'A' <= cwd[0] <= 'Z')
}

/// A path that is relative to `cwd`, from where `cwd` itself starts.
pub open spec fn path_under(cwd: Seq<char>, dir: Seq<char>, windows: bool) -> Seq<char> {
    if cwd.len() == 0 || is_separator(cwd.last(), windows) || is_bare_drive(cwd, windows) {
        cwd + dir
    } else if windows {
        cwd + "\\"@ + dir
    } else {
        cwd + "/"@ + dir
    }
}

/// Where the shared git dir is that git called `dir` when it was asked in `cwd`.
pub open spec fn resolved(
    cwd: Seq<char>,
    dir: Seq<char>,
    anchor: Anchor,
    windows: bool,
) -> Seq<char> {
    match anchor {
        Anchor::Own => dir,
        Anchor::Relative => path_under(cwd, dir, windows),
        Anchor::Placed { path } => path@,
    }
}

/// Resolves the shared git dir. Git prints it relative to the *current
/// directory*, so it must be resolved against `cwd`, not the worktree root:
/// those differ whenever clt is run from a subdirectory.
pub fn common_dir(cwd: &str, dir: &str, anchor: &Anchor, windows: bool) -> (r: String)
    ensures
        r@ == resolved(cwd@, dir@, *anchor, windows),
{
    match anchor {
        Anchor::Own => dir.to_owned(),
        Anchor::Placed { path } => path.clone(),
        Anchor::Relative => {
            let v = chars_of(cwd);
            let n: usize = v.len();
            let mut out = cwd.to_owned();
            let ended = n == 0 || v[n - 1] == '/' || (windows && v[n - 1] == '\\');
            let drive = windows && n == 2 && v[1] == ':' && (('a' <= v[0] && v[0] <= 'z') || ('A'
                <= v[0] && v[0] <= 'Z'));
            if !ended && !drive {
                if windows {
                    out.append("\\");
                } else {
                    out.append("/");
                }
            }
            out.append(dir);
            out
        },
    }
}

/// The shared git dir as `rev-parse --show-toplevel --git-common-dir` spelled
/// it.
pub open spec fn spelled_dir(paths: Seq<char>, windows: bool) -> Seq<char> {
    native_path(
        match line_at(paths, 1) {
            Some(dir) => dir,
            None => ".git"@,
        },
        windows,
    )
}

/// The shared git dir as git spelled it, for the platform to say how it reads
/// that.
pub fn shared_dir(paths: &str, windows: bool) -> (r: String)
    ensures
        r@ == spelled_dir(paths@, windows),
{
    let all = lines(paths);
    let common = match trimmed_line(&all, 1, Ghost(paths@)) {
        Some(dir) => dir,
        None => ".git".to_owned(),
    };
    native(common.as_str(), windows)
}

/// The repo that `rev-parse --show-toplevel --git-common-dir` printed in `cwd`,
/// on the branch that `symbolic-ref` printed. `anchor` says how the platform
/// reads the shared git dir as git spelled it.
pub open spec fn repo_in(
    paths: Seq<char>,
    branch: Option<Seq<char>>,
    cwd: Seq<char>,
    anchor: Anchor,
    windows: bool,
) -> Option<RepoView> {
    match line_at(paths, 0) {
        None => None,
        Some(root) => Some(
            RepoView {
                root: native_path(root, windows),
                git_common_dir: resolved(cwd, spelled_dir(paths, windows), anchor, windows),
                branch,
            },
        ),
    }
}

pub open spec fn opt_repo(r: Option<Repo>) -> Option<RepoView> {
    match r {
        Some(x) => Some(x@),
        None => None,
    }
}

/// The repo that git printed, if it printed one.
pub fn discover_in(
    paths: &str,
    branch: Option<String>,
    cwd: &str,
    anchor: &Anchor,
    windows: bool,
) -> (r: Option<Repo>)
    ensures
        opt_repo(r) == repo_in(paths@, opt_view(branch), cwd@, *anchor, windows),
{
    let all = lines(paths);
    let root = match trimmed_line(&all, 0, Ghost(paths@)) {
        Some(root) => root,
        None => {
            return None;
        },
    };
    let spelled = shared_dir(paths, windows);
    Some(
        Repo {
            root: native(root.as_str(), windows),
            git_common_dir: common_dir(cwd, spelled.as_str(), anchor, windows),
            branch,
        },
    )
}

/// Finds the repo, from what git said in `cwd` of its paths and of its branch.
///
/// The two path queries are answered by a single `rev-parse`, which returns one
/// result per line. The branch is asked for apart from them: the query fails on
/// an unborn HEAD, and that must not make a fresh repo look like no repo. It
/// fails on a detached HEAD too, which is exactly the signal wanted.
pub fn discover(
    cwd: &str,
    paths: &GitRun,
    branch: &GitRun,
    anchor: &Anchor,
    windows: bool,
) -> (r: Result<Option<Repo>, Error>)
    ensures
        match r {
            Ok(found) => match answer(*paths) {
                Ok(Some(text)) => match repo_in(text, None, cwd@, *anchor, windows) {
                    Some(_) => answer(*branch) is Ok && opt_repo(found) == repo_in(
                        text,
                        answer(*branch)->Ok_0,
                        cwd@,
                        *anchor,
                        windows,
                    ),
                    None => found is None,
                },
                Ok(None) => found is None,
                Err(_) => false,
            },
            Err(e) => match answer(*paths) {
                Ok(Some(text)) => repo_in(text, None, cwd@, *anchor, windows) is Some && answer(*branch) == Err::<
                    Option<Seq<char>>,
                    ErrorView,
                >(e@),
                Ok(None) => false,
                Err(bad) => bad == e@,
            },
        },
{
    let text = match git(paths) {
        Ok(Some(t)) => t,
        Ok(None) => {
            return Ok(None);
        },
        Err(e) => {
            return Err(e);
        },
    };
    match discover_in(text.as_str(), None, cwd, anchor, windows) {
        None => Ok(None),
        Some(found) => match git(branch) {
            Ok(b) => {
                let repo = Repo { branch: b, ..found };
                Ok(Some(repo))
            },
            Err(e) => Err(e),
        },
    }
}

// ---------------------------------------------------------------------------
// Keeping the list out of commits
// ---------------------------------------------------------------------------

/// Whether an exclude pattern is the one that hides the task list.
pub open spec fn hides_list(line: Seq<char>) -> bool {
    let t = trimmed(line);
    t == ".clt/"@ || t == ".clt"@ || t == "/.clt/"@ || t == "/.clt"@
}

/// Whether a line of the exclude file is ours: the pattern, or the comment that
/// introduces it.
pub open spec fn is_ours(line: Seq<char>) -> bool {
    hides_list(line) || begins(trimmed(line), "# clt task list"@)
}

/// Whether the task list is excluded.
pub open spec fn is_excluded(current: Seq<char>) -> bool {
    exists|i: int| 0 <= i < lines_of(current).len() && hides_list(#[trigger] lines_of(current)[i])
}

/// `text`, ended by a line feed unless it is empty.
pub open spec fn line_ended(text: Seq<char>) -> Seq<char> {
    if text.len() > 0 && text.last() != '\n' {
        text + "\n"@
    } else {
        text
    }
}

/// The exclude file with our entry at its end.
pub open spec fn with_entry(current: Seq<char>) -> Seq<char> {
    line_ended(current)
        + "\n# clt task list (local only; delete this line to commit it)\n.clt/\n"@
}

fn end_line(text: &mut String)
    ensures
        final(text)@ == line_ended(old(text)@),
{
    let v = chars_of(text.as_str());
    if v.len() > 0 && v[v.len() - 1] != '\n' {
        text.append("\n");
    }
}

fn hides(line: &str) -> (r: bool)
    ensures
        r == hides_list(line@),
{
    let t = trim(line);
    let s = t.as_str();
    same(s, ".clt/") || same(s, ".clt") || same(s, "/.clt/") || same(s, "/.clt")
}

/// The lines of the exclude file that are not ours.
pub open spec fn others(lines: Seq<Seq<char>>) -> Seq<Seq<char>> {
    lines.filter(|l: Seq<char>| !is_ours(l))
}

/// The exclude file without our entry.
pub open spec fn without_entry(current: Seq<char>) -> Seq<char> {
    line_ended(joined(others(lines_of(current)), "\n"@))
}

impl Repo {
    /// What the exclude file is to hold so that the task list is ignored locally;
    /// nothing where it is already.
    ///
    /// Deliberately not `.gitignore`: that file is committed. `info/exclude` is
    /// per-clone and untracked. Anyone who wants to commit their task list can
    /// delete the line.
    pub fn ensure_excluded(current: &str) -> (r: Option<String>)
        ensures
            opt_view(r) == (if is_excluded(current@) {
                None
            } else {
                Some(with_entry(current@))
            }),
    {
        let all = lines(current);
        let mut i: usize = 0;
        while i < all.len()
            invariant
                i <= all@.len(),
                views(all@) == lines_of(current@),
                forall|k: int| 0 <= k < i ==> !hides_list(#[trigger] lines_of(current@)[k]),
            decreases all@.len() - i,
        {
            assert(views(all@)[i as int] == all@[i as int]@);
            if hides(all[i].as_str()) {
                assert(hides_list(lines_of(current@)[i as int]));
                return None;
            }
            i += 1;
        }
        assert(views(all@).len() == all@.len());
        let mut next = current.to_owned();
        end_line(&mut next);
        next.append("\n# clt task list (local only; delete this line to commit it)\n.clt/\n");
        Some(next)
    }

    /// What the exclude file is to hold so that the task list can be committed;
    /// nothing where it held no entry of ours.
    ///
    /// Removes our line and the comment that introduces it, and nothing else: the
    /// file may well contain patterns somebody else put there.
    pub fn unexclude(current: &str) -> (r: Option<String>)
        ensures
            opt_view(r) == (if others(lines_of(current@)).len() == lines_of(current@).len() {
                None
            } else {
                Some(without_entry(current@))
            }),
    {
        let all = lines(current);
        let ghost ls = lines_of(current@);
        let ghost p = |l: Seq<char>| !is_ours(l);
        let mut kept: Vec<String> = Vec::new();
        let mut removed: bool = false;
        let mut i: usize = 0;
        proof {
            reveal(Seq::filter);
            assert(views(kept@) =~= ls.take(0).filter(p));
            assert(views(all@).len() == all@.len());
        }
        while i < all.len()
            invariant
                i <= all@.len() == ls.len(),
                ls == views(all@),
                p == |l: Seq<char>| !is_ours(l),
                views(kept@) == ls.take(i as int).filter(p),
                removed == (kept@.len() < i),
                kept@.len() <= i,
            decreases all@.len() - i,
        {
            let ghost before = kept@;
            let line = &all[i];
            assert(ls[i as int] == line@);
            let t = trim(line.as_str());
            let ours = hides(line.as_str()) || starts_with(t.as_str(), "# clt task list");
            if ours {
                removed = true;
            } else {
                kept.push(line.clone());
            }
            proof {
                reveal(Seq::filter);
                assert(ls.take(i + 1).drop_last() =~= ls.take(i as int));
                assert(ls.take(i + 1).last() == line@);
                if !ours {
                    assert(views(kept@) =~= views(before).push(line@));
                }
            }
            i += 1;
        }
        proof {
            assert(ls.take(i as int) =~= ls);
            assert(views(kept@).len() == kept@.len());
        }
        if !removed {
            return None;
        }
        let mut next = join(&kept, "\n");
        end_line(&mut next);
        Some(next)
    }
}

// ---------------------------------------------------------------------------
// Questions and answers
// ---------------------------------------------------------------------------

/// Asks for the worktree root and the shared git dir: two questions in one run,
/// since process spawns dominate the startup.
pub fn paths_query() -> (r: Vec<String>)
    ensures
        views(r@) == seq!["rev-parse"@, "--show-toplevel"@, "--git-common-dir"@],
{
    let mut q: Vec<String> = Vec::new();
    q.push("rev-parse".to_owned());
    q.push("--show-toplevel".to_owned());
    q.push("--git-common-dir".to_owned());
    assert(views(q@) =~= seq!["rev-parse"@, "--show-toplevel"@, "--git-common-dir"@]);
    q
}

/// Asks for the current branch. `symbolic-ref` fails on a detached HEAD, where
/// `rev-parse --abbrev-ref` would print `HEAD`, a name that a branch can have.
pub fn branch_query() -> (r: Vec<String>)
    ensures
        views(r@) == seq!["symbolic-ref"@, "--quiet"@, "--short"@, "HEAD"@],
{
    let mut q: Vec<String> = Vec::new();
    q.push("symbolic-ref".to_owned());
    q.push("--quiet".to_owned());
    q.push("--short".to_owned());
    q.push("HEAD".to_owned());
    assert(views(q@) =~= seq!["symbolic-ref"@, "--quiet"@, "--short"@, "HEAD"@]);
    q
}

/// Asks for the commit that HEAD is at.
pub fn head_query() -> (r: Vec<String>)
    ensures
        views(r@) == seq!["rev-parse"@, "HEAD"@],
{
    let mut q: Vec<String> = Vec::new();
    q.push("rev-parse".to_owned());
    q.push("HEAD".to_owned());
    assert(views(q@) =~= seq!["rev-parse"@, "HEAD"@]);
    q
}

/// Asks for every local branch.
pub fn branches_query() -> (r: Vec<String>)
    ensures
        views(r@) == seq!["for-each-ref"@, "--format=%(refname:short)"@, "refs/heads/"@],
{
    let mut q: Vec<String> = Vec::new();
    q.push("for-each-ref".to_owned());
    q.push("--format=%(refname:short)".to_owned());
    q.push("refs/heads/".to_owned());
    assert(views(q@) =~= seq![
        "for-each-ref"@,
        "--format=%(refname:short)"@,
        "refs/heads/"@,
    ]);
    q
}

/// Asks for every file git considers part of the working tree: tracked, plus
/// untracked files that aren't ignored. NUL-separated, since filenames may
/// contain line feeds.
pub fn files_query() -> (r: Vec<String>)
    ensures
        views(r@) == seq!["ls-files"@, "--cached"@, "--others"@, "--exclude-standard"@, "-z"@],
{
    let mut q: Vec<String> = Vec::new();
    q.push("ls-files".to_owned());
    q.push("--cached".to_owned());
    q.push("--others".to_owned());
    q.push("--exclude-standard".to_owned());
    q.push("-z".to_owned());
    assert(views(q@) =~= seq![
        "ls-files"@,
        "--cached"@,
        "--others"@,
        "--exclude-standard"@,
        "-z"@,
    ]);
    q
}

/// Asks whether git tracks a file.
pub fn tracked_query(rel: &str) -> (r: Vec<String>)
    ensures
        views(r@) == seq!["ls-files"@, "--error-unmatch"@, "--"@, rel@],
{
    let mut q: Vec<String> = Vec::new();
    q.push("ls-files".to_owned());
    q.push("--error-unmatch".to_owned());
    q.push("--".to_owned());
    q.push(rel.to_owned());
    assert(views(q@) =~= seq!["ls-files"@, "--error-unmatch"@, "--"@, rel@]);
    q
}

/// Asks why git ignores a file.
pub fn ignore_query(rel: &str) -> (r: Vec<String>)
    ensures
        views(r@) == seq!["check-ignore"@, "-v"@, "--"@, rel@],
{
    let mut q: Vec<String> = Vec::new();
    q.push("check-ignore".to_owned());
    q.push("-v".to_owned());
    q.push("--".to_owned());
    q.push(rel.to_owned());
    assert(views(q@) =~= seq!["check-ignore"@, "-v"@, "--"@, rel@]);
    q
}

pub open spec fn log_format() -> Seq<char> {
    "--format=%H%x1f%s%x1f%b%x1e"@
}

/// What to ask for the commits after `since`, oldest first. Without a floor,
/// only the last fifty: the entire history of the repo is not walked.
pub open spec fn log_words(since: Option<Seq<char>>) -> Seq<Seq<char>> {
    match since {
        Some(sha) => seq!["log"@, "--reverse"@, log_format(), sha + "..HEAD"@],
        None => seq!["log"@, "--reverse"@, "-n"@, "50"@, log_format(), "HEAD"@],
    }
}

/// Asks for the commits reachable from HEAD but not from `since`.
pub fn log_query(since: Option<&str>) -> (r: Vec<String>)
    ensures
        views(r@) == log_words(opt_str_view(since)),
{
    let mut q: Vec<String> = Vec::new();
    q.push("log".to_owned());
    q.push("--reverse".to_owned());
    match since {
        Some(sha) => {
            q.push("--format=%H%x1f%s%x1f%b%x1e".to_owned());
            q.push(cat(sha, "..HEAD"));
        },
        None => {
            q.push("-n".to_owned());
            q.push("50".to_owned());
            q.push("--format=%H%x1f%s%x1f%b%x1e".to_owned());
            q.push("HEAD".to_owned());
        },
    }
    assert(views(q@) =~= log_words(opt_str_view(since)));
    q
}

/// The source of an ignore rule, from `<source>:<line>:<pattern>`.
pub open spec fn ignore_source_in(out: Seq<char>) -> Option<Seq<char>> {
    if lines_of(out).len() == 0 {
        None
    } else {
        let source = trimmed(pieces_of(lines_of(out)[0], ':')[0]);
        if source.len() == 0 {
            None
        } else {
            Some(source)
        }
    }
}

pub fn read_ignore_source(out: &str) -> (r: Option<String>)
    ensures
        opt_view(r) == ignore_source_in(out@),
{
    let all = lines(out);
    assert(views(all@).len() == all@.len());
    if all.len() == 0 {
        return None;
    }
    assert(views(all@)[0] == all@[0]@);
    let parts = split(all[0].as_str(), ':');
    proof {
        assert(views(parts@).len() == parts@.len());
        lemma_pieces_not_empty(all@[0]@, 0, ':');
        assert(views(parts@)[0] == parts@[0]@);
    }
    let source = trim(parts[0].as_str());
    if source.as_str().is_empty() {
        None
    } else {
        Some(source)
    }
}

proof fn lemma_pieces_not_empty(s: Seq<char>, i: int, d: char)
    requires
        0 <= i <= s.len(),
    ensures
        pieces_from(s, i, d).len() > 0,
{
    crate::text::lemma_run_end(s, i, other_than(d));
}

#[derive(Debug)]
pub struct Commit {
    pub sha: String,
    pub message: String,
}

#[verifier::ext_equal]
pub struct CommitView {
    pub sha: Seq<char>,
    pub message: Seq<char>,
}

impl View for Commit {
    type V = CommitView;

    open spec fn view(&self) -> CommitView {
        CommitView { sha: self.sha@, message: self.message@ }
    }
}

pub open spec fn commit_views(v: Seq<Commit>) -> Seq<CommitView> {
    Seq::new(v.len(), |i: int| v[i]@)
}

/// `s` without the line breaks at its start.
pub open spec fn unbroken(s: Seq<char>) -> Seq<char> {
    s.skip(run_end(s, 0, breaks()))
}

pub open spec fn breaks() -> spec_fn(char) -> bool {
    |c: char| c == '\n' || c == '\r'
}

/// The commit in one record: a hash, a subject and a body, separated. A record
/// without a subject is none.
pub open spec fn commit_in(record: Seq<char>) -> Option<CommitView> {
    let parts = pieces_of(unbroken(record), '\x1f');
    if is_blank(unbroken(record)) || parts.len() < 2 {
        None
    } else {
        Some(
            CommitView {
                sha: trimmed(parts[0]),
                message: parts[1] + "\n"@ + (if parts.len() > 2 {
                    parts[2]
                } else {
                    ""@
                }),
            },
        )
    }
}

pub open spec fn commits_of(records: Seq<Seq<char>>, n: nat) -> Seq<CommitView>
    decreases n,
{
    if n == 0 {
        Seq::empty()
    } else {
        match commit_in(records[n - 1]) {
            Some(c) => commits_of(records, (n - 1) as nat).push(c),
            None => commits_of(records, (n - 1) as nat),
        }
    }
}

/// The commits of a log. The separators are control characters, which do not
/// appear in a commit message.
pub open spec fn commits_in(out: Seq<char>) -> Seq<CommitView> {
    commits_of(pieces_of(out, '\x1e'), pieces_of(out, '\x1e').len())
}

fn read_commit(record: &str) -> (r: Option<Commit>)
    ensures
        match r {
            Some(c) => commit_in(record@) == Some(c@),
            None => commit_in(record@) is None,
        },
{
    let v = chars_of(record);
    let mut i: usize = 0;
    while i < v.len() && (v[i] == '\n' || v[i] == '\r')
        invariant
            i <= v@.len(),
            run_end(v@, 0, breaks()) == run_end(v@, i as int, breaks()),
        decreases v@.len() - i,
    {
        i += 1;
    }
    let n: usize = v.len();
    let rest = string_of(&v, i, n);
    assert(rest@ =~= unbroken(record@));
    if crate::text::blank(rest.as_str()) {
        return None;
    }
    let parts = split(rest.as_str(), '\x1f');
    assert(views(parts@).len() == parts@.len());
    if parts.len() < 2 {
        return None;
    }
    proof {
        assert(views(parts@)[0] == parts@[0]@);
        assert(views(parts@)[1] == parts@[1]@);
    }
    let mut message = parts[1].clone();
    message.append("\n");
    if parts.len() > 2 {
        assert(views(parts@)[2] == parts@[2]@);
        message.append(parts[2].as_str());
    } else {
        proof {
            reveal_strlit("");
            assert(message@ + ""@ =~= message@);
        }
    }
    Some(Commit { sha: trim(parts[0].as_str()), message })
}

pub fn read_commits(out: &str) -> (r: Vec<Commit>)
    ensures
        commit_views(r@) == commits_in(out@),
{
    let records = split(out, '\x1e');
    let ghost rs = views(records@);
    let mut commits: Vec<Commit> = Vec::new();
    assert(commit_views(commits@) =~= commits_of(rs, 0));
    let mut i: usize = 0;
    while i < records.len()
        invariant
            i <= records@.len(),
            rs == views(records@),
            commit_views(commits@) == commits_of(rs, i as nat),
        decreases records@.len() - i,
    {
        let ghost before = commits@;
        assert(rs[i as int] == records@[i as int]@);
        if let Some(c) = read_commit(records[i].as_str()) {
            commits.push(c);
            assert(commit_views(commits@) =~= commit_views(before).push(c@));
        }
        i += 1;
    }
    commits
}

/// The trimmed lines that hold something.
pub open spec fn names_of(lines: Seq<Seq<char>>, n: nat) -> Seq<Seq<char>>
    decreases n,
{
    if n == 0 {
        Seq::empty()
    } else if trimmed(lines[n - 1]).len() > 0 {
        names_of(lines, (n - 1) as nat).push(trimmed(lines[n - 1]))
    } else {
        names_of(lines, (n - 1) as nat)
    }
}

pub open spec fn names_in(out: Seq<char>) -> Seq<Seq<char>> {
    names_of(lines_of(out), lines_of(out).len())
}

pub fn read_names(out: &str) -> (r: Vec<String>)
    ensures
        views(r@) == names_in(out@),
{
    let all = lines(out);
    let ghost ls = lines_of(out@);
    let mut names: Vec<String> = Vec::new();
    assert(views(names@) =~= names_of(ls, 0));
    let mut i: usize = 0;
    while i < all.len()
        invariant
            i <= all@.len(),
            ls == views(all@),
            views(names@) == names_of(ls, i as nat),
        decreases all@.len() - i,
    {
        let ghost before = names@;
        assert(ls[i as int] == all@[i as int]@);
        let t = trim(all[i].as_str());
        if !t.as_str().is_empty() {
            names.push(t);
            assert(views(names@) =~= views(before).push(t@));
        }
        i += 1;
    }
    names
}

impl Repo {
    /// True when git is tracking the file it was asked about.
    ///
    /// This is how "is the task list shared?" is answered. Deriving it from git
    /// rather than storing a flag means the answer cannot drift from reality.
    pub fn is_tracked(&self, run: &GitRun) -> (r: bool)
        ensures
            r == (answer(*run) matches Ok(Some(_))),
    {
        match git(run) {
            Ok(Some(_)) => true,
            _ => false,
        }
    }

    /// Which file makes git ignore the one it was asked about, if any does.
    pub fn ignore_source(&self, run: &GitRun) -> (r: Option<String>)
        ensures
            opt_view(r) == (match answer(*run) {
                Ok(Some(out)) => ignore_source_in(out),
                _ => None,
            }),
    {
        match git(run) {
            Ok(Some(out)) => read_ignore_source(out.as_str()),
            _ => None,
        }
    }

    /// The commits that git printed, oldest first.
    pub fn commits_since(&self, run: &GitRun) -> (r: Result<Vec<Commit>, Error>)
        ensures
            match r {
                Ok(commits) => match answer(*run) {
                    Ok(Some(out)) => commit_views(commits@) == commits_in(out),
                    Ok(None) => commits@.len() == 0,
                    Err(_) => false,
                },
                Err(e) => answer(*run) == Err::<Option<Seq<char>>, ErrorView>(e@),
            },
    {
        match git(run) {
            Ok(Some(out)) => Ok(read_commits(out.as_str())),
            Ok(None) => Ok(Vec::new()),
            Err(e) => Err(e),
        }
    }

    /// Every local branch name that git printed.
    ///
    /// Local heads only: a task filed on a branch that now exists only on the
    /// remote is orphaned as far as this checkout is concerned.
    pub fn branches(&self, run: &GitRun) -> (r: Vec<String>)
        ensures
            views(r@) == (match answer(*run) {
                Ok(Some(out)) => names_in(out),
                _ => Seq::empty(),
            }),
    {
        match git(run) {
            Ok(Some(out)) => read_names(out.as_str()),
            _ => {
                let none: Vec<String> = Vec::new();
                assert(views(none@) =~= Seq::empty());
                none
            },
        }
    }

    /// HEAD as a full sha, if there is one (a fresh repo has none).
    pub fn head(&self, run: &GitRun) -> (r: Result<Option<String>, Error>)
        ensures
            answer_view(r) == answer(*run),
    {
        git(run)
    }
}

/// How many bytes of a sha are shown.
pub open spec fn short_len(sha: Seq<char>) -> int {
    if encode_utf8(sha).len() < 7 {
        encode_utf8(sha).len() as int
    } else {
        7
    }
}

impl CommitView {
    /// Whether the sha can be cut after its seventh byte, as any that git
    /// prints can.
    pub open spec fn wf(self) -> bool {
        is_char_boundary(encode_utf8(self.sha), short_len(self.sha))
    }

    /// The sha's first seven bytes.
    pub open spec fn short(self) -> Seq<char> {
        decode_utf8(encode_utf8(self.sha).subrange(0, short_len(self.sha)))
    }
}

impl Commit {
    pub fn short(&self) -> (r: &str)
        requires
            self@.wf(),
        ensures
            r@ == self@.short(),
    {
        let s = self.sha.as_str();
        let len: usize = s.as_bytes().len();
        let n: usize = if len < 7 {
            len
        } else {
            7
        };
        let (head, tail) = s.split_at(n);
        proof {
            vstd::utf8::encode_utf8_decode_utf8(head@);
        }
        head
    }

    /// Whether [`Self::short`] may be asked for.
    pub fn can_be_shortened(&self) -> (r: bool)
        ensures
            r == self@.wf(),
    {
        let s = self.sha.as_str();
        let len: usize = s.as_bytes().len();
        let n: usize = if len < 7 {
            len
        } else {
            7
        };
        s.is_char_boundary(n)
    }
}

// ---------------------------------------------------------------------------
// What adding and removing the entry guarantee
// ---------------------------------------------------------------------------

/// The last of the lines of a text that ends in a line of its own.
proof fn lemma_last_line(p: Seq<char>, l: Seq<char>, i: int)
    requires
        0 <= i <= p.len() + 1,
        forall|k: int| 0 <= k < l.len() ==> l[k] != '\n',
        l.len() > 0,
        l.last() != '\r',
    ensures
        lines_from(p + seq!['\n'] + l + seq!['\n'], i).len() > 0,
        lines_from(p + seq!['\n'] + l + seq!['\n'], i).last() == l,
    decreases p.len() + 1 - i,
{
    let s = p + seq!['\n'] + l + seq!['\n'];
    let n = run_end(s, i, other_than('\n'));
    crate::text::lemma_run_end(s, i, other_than('\n'));
    assert(s[p.len() as int] == '\n');
    if i <= p.len() {
        assert(n <= p.len()) by {
            if n > p.len() {
                assert(other_than('\n')(s[p.len() as int]));
            }
        }
        lemma_last_line(p, l, n + 1);
        assert(lines_from(s, i).last() == lines_from(s, n + 1).last());
    } else {
        let e = p.len() + 1 + l.len();
        assert(s[e as int] == '\n');
        assert forall|k: int| p.len() + 1 <= k < e implies s[k] != '\n' by {
            assert(s[k] == l[k - p.len() - 1]);
        }
        assert(n == e) by {
            if n > e {
                assert(other_than('\n')(s[e as int]));
            }
            if n < e {
                assert(!other_than('\n')(s[n]));
            }
        }
        assert(s[n - 1] == l.last());
        assert(s.subrange(i, n) =~= l);
        assert(lines_from(s, n + 1) =~= Seq::empty());
        assert(lines_from(s, i) =~= seq![l]);
    }
}

/// Once the entry is there the list is excluded, so it is added at most once.
pub proof fn law_excluding_once_is_enough(current: Seq<char>)
    ensures
        is_excluded(with_entry(current)),
{
    reveal_strlit("\n# clt task list (local only; delete this line to commit it)\n.clt/\n");
    reveal_strlit(".clt/");
    let tail = "\n# clt task list (local only; delete this line to commit it)\n.clt/\n"@;
    let s = with_entry(current);
    let l = ".clt/"@;
    let p = line_ended(current) + tail.take(tail.len() - 7);
    assert(tail =~= tail.take(tail.len() - 7) + seq!['\n'] + l + seq!['\n']);
    assert(s =~= p + seq!['\n'] + l + seq!['\n']);
    lemma_last_line(p, l, 0);
    let k = lines_of(s).len() - 1;
    assert(lines_of(s)[k] == l);
    lemma_dot_clt_is_tight();
    assert(hides_list(lines_of(s)[k]));
}

proof fn lemma_dot_clt_is_tight()
    ensures
        trimmed(".clt/"@) == ".clt/"@,
{
    reveal_strlit(".clt/");
    let l = ".clt/"@;
    assert(run_end(l, 0, crate::text::white()) == 0);
    assert(crate::text::run_start(l, 0, l.len() as int, crate::text::white()) == l.len());
    assert(l.subrange(0, l.len() as int) =~= l);
}

/// A carriage return at the end does not count.
proof fn lemma_trimmed_return(t: Seq<char>)
    ensures
        trimmed(t.push('\r')) == trimmed(t),
{
    let white = crate::text::white();
    let s = t.push('\r');
    let a = run_end(t, 0, white);
    let b = run_end(s, 0, white);
    crate::text::lemma_run_end(t, 0, white);
    crate::text::lemma_run_end(s, 0, white);
    assert(white('\r'));
    if a < t.len() {
        assert(!white(t[a]));
        assert(b == a) by {
            if b < a {
                assert(!white(s[b]));
                assert(white(t[b]));
            }
            if b > a {
                assert(white(s[a]));
            }
        }
        assert(crate::text::run_start(s, a, s.len() as int, white) == crate::text::run_start(
            s,
            a,
            t.len() as int,
            white,
        ));
        lemma_run_start_prefix(t, '\r', a, t.len() as int);
        crate::text::lemma_run_start(t, a, t.len() as int, white);
        let e = crate::text::run_start(t, a, t.len() as int, white);
        assert(s.subrange(a, e) =~= t.subrange(a, e));
    } else {
        assert(b == s.len()) by {
            if b < s.len() {
                assert(!white(s[b]));
                if b < t.len() {
                    assert(white(t[b]));
                }
            }
        }
        crate::text::lemma_run_start(s, b, s.len() as int, white);
        crate::text::lemma_run_start(t, a, t.len() as int, white);
        assert(trimmed(s) =~= trimmed(t));
    }
}

proof fn lemma_run_start_prefix(t: Seq<char>, c: char, lo: int, i: int)
    requires
        0 <= lo <= i <= t.len(),
    ensures
        crate::text::run_start(t.push(c), lo, i, crate::text::white()) == crate::text::run_start(
            t,
            lo,
            i,
            crate::text::white(),
        ),
    decreases i - lo,
{
    if i > lo && crate::text::is_white(t[i - 1]) {
        lemma_run_start_prefix(t, c, lo, i - 1);
    }
}

/// No line of a text holds a line feed.
proof fn lemma_lines_unbroken(s: Seq<char>, i: int)
    requires
        0 <= i,
    ensures
        forall|k: int, j: int|
            0 <= k < lines_from(s, i).len() && 0 <= j < lines_from(s, i)[k].len() ==> (
            #[trigger] lines_from(s, i)[k][j]) != '\n',
    decreases s.len() - i,
{
    if i < s.len() {
        let n = run_end(s, i, other_than('\n'));
        crate::text::lemma_run_end(s, i, other_than('\n'));
        let all = lines_from(s, i);
        if n < s.len() {
            lemma_lines_unbroken(s, n + 1);
        }
        assert forall|k: int, j: int| 0 <= k < all.len() && 0 <= j < all[k].len() implies (
        #[trigger] all[k][j]) != '\n' by {
            if k == 0 {
                assert(all[0][j] == s[i + j]);
                assert(other_than('\n')(s[i + j]));
            } else {
                assert(all[k] == lines_from(s, n + 1)[k - 1]);
            }
        }
    }
}

/// Joined by line feeds, then split into lines, lines come back trimmed the
/// same.
proof fn lemma_joined_lines(kept: Seq<Seq<char>>, tail: Seq<char>, k: nat, at: int)
    requires
        forall|m: int, j: int|
            0 <= m < kept.len() && 0 <= j < kept[m].len() ==> (#[trigger] kept[m][j]) != '\n',
        tail.len() == 0 || tail == seq!['\n'],
        k < kept.len(),
        at == (if k == 0 {
            0
        } else {
            joined(kept.take(k as int), "\n"@).len() + 1
        }),
    ensures
        forall|m: int|
            0 <= m < lines_from(joined(kept, "\n"@) + tail, at).len() ==> exists|q: int|
                0 <= q < kept.len() && trimmed(#[trigger] kept[q]) == trimmed(
                    #[trigger] lines_from(joined(kept, "\n"@) + tail, at)[m],
                ),
    decreases kept.len() - k,
{
    reveal_strlit("\n");
    let s = joined(kept, "\n"@) + tail;
    let w = kept[k as int];
    assert(kept.take(kept.len() as int) =~= kept);
    lemma_join_steps(kept, k);
    lemma_join_prefix(kept, (k + 1) as nat, kept.len());
    let t = joined(kept.take((k + 1) as int), "\n"@);
    let e = at + w.len();
    assert(t.len() == e);
    assert forall|i: int| 0 <= i < w.len() implies s[at + i] == w[i] by {
        assert(t[at + i] == t.skip(at)[i]);
        assert(t[at + i] == joined(kept, "\n"@)[at + i]);
    }
    let n = run_end(s, at, other_than('\n'));
    if at < s.len() {
        crate::text::lemma_run_end(s, at, other_than('\n'));
        assert(e <= s.len());
        assert forall|i: int| at <= i < e implies s[i] != '\n' by {
            assert(s[at + (i - at)] == w[i - at]);
        }
        assert(e < s.len() ==> s[e] == '\n');
        assert(n == e) by {
            if n < e {
                assert(!other_than('\n')(s[n]));
            }
            if n > e {
                assert(other_than('\n')(s[e]));
            }
        }
        let all = lines_from(s, at);
        assert(s.subrange(at, n) =~= w);
        if n < s.len() && n > at && s[n - 1] == '\r' {
            let cut = s.subrange(at, n - 1);
            assert(cut.push('\r') =~= w);
            lemma_trimmed_return(cut);
        }
        let rest = if n < s.len() {
            lines_from(s, n + 1)
        } else {
            Seq::empty()
        };
        if n < s.len() {
            if k + 1 < kept.len() {
                lemma_joined_lines(kept, tail, k + 1, n + 1);
            } else {
                assert(kept.take((k + 1) as int) =~= kept);
                assert(n + 1 == s.len());
                assert(lines_from(s, n + 1) =~= Seq::empty());
            }
        }
        assert forall|m: int| 0 <= m < all.len() implies exists|q: int|
            0 <= q < kept.len() && trimmed(#[trigger] kept[q]) == trimmed(#[trigger] all[m]) by {
            if m == 0 {
                assert(trimmed(kept[k as int]) == trimmed(all[0]));
            } else {
                assert(all[m] == rest[m - 1]);
                let q = choose|q: int|
                    0 <= q < kept.len() && trimmed(#[trigger] kept[q]) == trimmed(rest[m - 1]);
                assert(trimmed(kept[q]) == trimmed(all[m]));
            }
        }
    }
}

proof fn lemma_join_steps(ws: Seq<Seq<char>>, n: nat)
    requires
        n < ws.len(),
    ensures
        ({
            let at: int = if n == 0 {
                0
            } else {
                joined(ws.take(n as int), "\n"@).len() as int + 1
            };
            &&& joined(ws.take((n + 1) as int), "\n"@).len() == at + ws[n as int].len()
            &&& joined(ws.take((n + 1) as int), "\n"@).skip(at) == ws[n as int]
        }),
{
    reveal_strlit("\n");
    let t = ws.take((n + 1) as int);
    assert(t.last() == ws[n as int]);
    if n > 0 {
        assert(t.drop_last() =~= ws.take(n as int));
        let j = joined(t, "\n"@);
        assert(j == joined(ws.take(n as int), "\n"@) + "\n"@ + ws[n as int]);
        assert(j.skip(joined(ws.take(n as int), "\n"@).len() as int + 1) =~= ws[n as int]);
    } else {
        assert(joined(t, "\n"@) =~= ws[0]);
        assert(ws[0].skip(0) =~= ws[0]);
    }
}

proof fn lemma_join_prefix(ws: Seq<Seq<char>>, n: nat, m: nat)
    requires
        0 < n <= m <= ws.len(),
    ensures
        joined(ws.take(n as int), "\n"@).len() <= joined(ws.take(m as int), "\n"@).len(),
        forall|i: int|
            0 <= i < joined(ws.take(n as int), "\n"@).len() ==> #[trigger] joined(
                ws.take(n as int),
                "\n"@,
            )[i] == joined(ws.take(m as int), "\n"@)[i],
        n < m ==> joined(ws.take(n as int), "\n"@).len() < joined(ws.take(m as int), "\n"@).len()
            && joined(ws.take(m as int), "\n"@)[joined(ws.take(n as int), "\n"@).len() as int]
            == '\n',
    decreases m - n,
{
    reveal_strlit("\n");
    if n < m {
        lemma_join_prefix(ws, n, (m - 1) as nat);
        let t = ws.take(m as int);
        assert(t.drop_last() =~= ws.take(m - 1));
        assert(joined(t, "\n"@) == joined(ws.take(m - 1), "\n"@) + "\n"@ + t.last());
    }
}

/// Without our entry the list is not excluded any more.
pub proof fn law_removing_the_entry_unhides_the_list(current: Seq<char>)
    ensures
        !is_excluded(without_entry(current)),
{
    reveal_strlit("\n");
    let ls = lines_of(current);
    let kept = others(ls);
    let p = |l: Seq<char>| !is_ours(l);
    lemma_lines_unbroken(current, 0);
    let body = joined(kept, "\n"@);
    let text = without_entry(current);
    let tail: Seq<char> = if body.len() > 0 && body.last() != '\n' {
        seq!['\n']
    } else {
        Seq::empty()
    };
    assert(text =~= body + tail) by {
        assert("\n"@ =~= seq!['\n']);
    }
    if kept.len() == 0 {
        assert(lines_of(text) =~= Seq::empty());
    } else {
        assert forall|m: int| 0 <= m < kept.len() implies p(#[trigger] kept[m]) && ls.contains(
            kept[m],
        ) by {
            lemma_others(ls, m);
        }
        assert forall|m: int, j: int| 0 <= m < kept.len() && 0 <= j < kept[m].len() implies (
        #[trigger] kept[m][j]) != '\n' by {
            assert(ls.contains(kept[m]));
            let q = choose|q: int| 0 <= q < ls.len() && ls[q] == kept[m];
            assert(ls[q][j] != '\n');
        }
        lemma_joined_lines(kept, tail, 0, 0);
        assert forall|m: int| 0 <= m < lines_of(text).len() implies !hides_list(
            #[trigger] lines_of(text)[m],
        ) by {
            let q = choose|q: int|
                0 <= q < kept.len() && trimmed(#[trigger] kept[q]) == trimmed(lines_of(text)[m]);
            assert(p(kept[q]));
        }
    }
}

/// What is kept was there, and is not ours.
proof fn lemma_others(ls: Seq<Seq<char>>, m: int)
    requires
        0 <= m < others(ls).len(),
    ensures
        !is_ours(others(ls)[m]),
        ls.contains(others(ls)[m]),
    decreases ls.len(),
{
    reveal(Seq::filter);
    let r = ls.drop_last();
    let k = others(r);
    if m < k.len() {
        lemma_others(r, m);
        assert(others(ls)[m] == k[m]);
        let q = choose|q: int| 0 <= q < r.len() && r[q] == k[m];
        assert(ls[q] == k[m]);
    } else {
        assert(others(ls)[m] == ls.last());
        assert(ls[ls.len() - 1] == ls.last());
    }
}

/// Joined and ended by line feeds, then split into lines, lines come back as
/// they were.
proof fn lemma_lines_come_back(kept: Seq<Seq<char>>, k: nat, at: int)
    requires
        forall|m: int, j: int|
            0 <= m < kept.len() && 0 <= j < kept[m].len() ==> (#[trigger] kept[m][j]) != '\n',
        forall|m: int|
            0 <= m < kept.len() && (#[trigger] kept[m]).len() > 0 ==> kept[m].last() != '\r',
        k < kept.len(),
        at == (if k == 0 {
            0
        } else {
            joined(kept.take(k as int), "\n"@).len() + 1
        }),
    ensures
        lines_from(joined(kept, "\n"@) + seq!['\n'], at) == kept.skip(k as int),
    decreases kept.len() - k,
{
    reveal_strlit("\n");
    let s = joined(kept, "\n"@) + seq!['\n'];
    let w = kept[k as int];
    assert(kept.take(kept.len() as int) =~= kept);
    lemma_join_steps(kept, k);
    lemma_join_prefix(kept, (k + 1) as nat, kept.len());
    let t = joined(kept.take((k + 1) as int), "\n"@);
    let e = at + w.len();
    assert(t.len() == e);
    assert forall|i: int| 0 <= i < w.len() implies s[at + i] == w[i] by {
        assert(t[at + i] == t.skip(at)[i]);
        assert(t[at + i] == joined(kept, "\n"@)[at + i]);
    }
    assert(e < s.len());
    assert(s[e] == '\n');
    let n = run_end(s, at, other_than('\n'));
    crate::text::lemma_run_end(s, at, other_than('\n'));
    assert forall|i: int| at <= i < e implies s[i] != '\n' by {
        assert(s[at + (i - at)] == w[i - at]);
    }
    assert(n == e) by {
        if n < e {
            assert(!other_than('\n')(s[n]));
        }
        if n > e {
            assert(other_than('\n')(s[e]));
        }
    }
    assert(s.subrange(at, n) =~= w);
    if n > at {
        assert(s[n - 1] == w.last());
    }
    if k + 1 < kept.len() {
        lemma_lines_come_back(kept, k + 1, n + 1);
        assert(lines_from(s, at) =~= kept.skip(k as int));
    } else {
        assert(kept.take((k + 1) as int) =~= kept);
        assert(lines_from(s, n + 1) =~= Seq::empty());
        assert(lines_from(s, at) =~= kept.skip(k as int));
    }
}

/// Taking our entry out leaves every other line of the file as it was, and in
/// order; of blank lines at the very end, the last is dropped. A line that ends
/// in a stray carriage return is another matter: it loses that.
pub proof fn law_other_patterns_are_left_alone(current: Seq<char>)
    requires
        forall|m: int|
            0 <= m < others(lines_of(current)).len() && (#[trigger] others(
                lines_of(current),
            )[m]).len() > 0 ==> others(lines_of(current))[m].last() != '\r',
    ensures
        ({
            let kept = others(lines_of(current));
            lines_of(without_entry(current)) == if kept.len() > 0 && kept.last().len() == 0 {
                kept.drop_last()
            } else {
                kept
            }
        }),
{
    reveal_strlit("\n");
    let ls = lines_of(current);
    let kept = others(ls);
    lemma_lines_unbroken(current, 0);
    assert("\n"@ =~= seq!['\n']);
    assert forall|m: int, j: int| 0 <= m < kept.len() && 0 <= j < kept[m].len() implies (
    #[trigger] kept[m][j]) != '\n' by {
        lemma_others(ls, m);
        let q = choose|q: int| 0 <= q < ls.len() && ls[q] == kept[m];
        assert(ls[q][j] != '\n');
    }
    let body = joined(kept, "\n"@);
    if kept.len() == 0 {
        assert(lines_of(without_entry(current)) =~= kept);
    } else if kept.last().len() > 0 {
        let n = (kept.len() - 1) as nat;
        assert(kept.take((n + 1) as int) =~= kept);
        lemma_join_steps(kept, n);
        let last = kept[n as int];
        assert(body.last() == body.skip(body.len() - last.len()).last());
        assert(body.last() == last[last.len() - 1]);
        assert(without_entry(current) == body + seq!['\n']);
        lemma_lines_come_back(kept, 0, 0);
        assert(kept.skip(0) =~= kept);
    } else if kept.len() == 1 {
        assert(body == kept[0]);
        assert(lines_of(without_entry(current)) =~= kept.drop_last());
    } else {
        let r = kept.drop_last();
        assert(body =~= joined(r, "\n"@) + seq!['\n']);
        assert(without_entry(current) == body);
        assert forall|m: int, j: int| 0 <= m < r.len() && 0 <= j < r[m].len() implies (
        #[trigger] r[m][j]) != '\n' by {
            assert(r[m] == kept[m]);
            assert(kept[m][j] != '\n');
        }
        assert forall|m: int| 0 <= m < r.len() && (#[trigger] r[m]).len() > 0 implies r[m].last()
            != '\r' by {
            assert(r[m] == kept[m]);
        }
        lemma_lines_come_back(r, 0, 0);
        assert(r.skip(0) =~= r);
    }
}

/// One line more.
proof fn lemma_others_push(ls: Seq<Seq<char>>, l: Seq<char>)
    ensures
        others(ls.push(l)) == if is_ours(l) {
            others(ls)
        } else {
            others(ls).push(l)
        },
{
    reveal(Seq::filter);
    assert(ls.push(l).drop_last() =~= ls);
    assert(ls.push(l).last() == l);
}

/// Where no line is ours, all are kept.
proof fn lemma_none_ours(ls: Seq<Seq<char>>)
    requires
        forall|i: int| 0 <= i < ls.len() ==> !is_ours(#[trigger] ls[i]),
    ensures
        others(ls) == ls,
    decreases ls.len(),
{
    if ls.len() > 0 {
        let r = ls.drop_last();
        assert forall|i: int| 0 <= i < r.len() implies !is_ours(#[trigger] r[i]) by {
            assert(r[i] == ls[i]);
        }
        lemma_none_ours(r);
        lemma_others_push(r, ls.last());
        assert(r.push(ls.last()) =~= ls);
        assert(!is_ours(ls[ls.len() - 1]));
    } else {
        reveal(Seq::filter);
        assert(others(ls) =~= ls);
    }
}

/// The lines that putting our entry in adds.
proof fn lemma_entry_lines()
    ensures
        ({
            let entry = "\n# clt task list (local only; delete this line to commit it)\n.clt/\n"@;
            let ls = lines_of(entry);
            &&& ls.len() == 3
            &&& ls[0].len() == 0
            &&& !is_ours(ls[0])
            &&& is_ours(ls[1])
            &&& is_ours(ls[2])
        }),
{
    reveal_strlit("\n# clt task list (local only; delete this line to commit it)\n.clt/\n");
    reveal_strlit("# clt task list (local only; delete this line to commit it)");
    reveal_strlit("# clt task list");
    reveal_strlit(".clt/");
    reveal_strlit(".clt");
    reveal_strlit("/.clt/");
    reveal_strlit("/.clt");
    let entry = "\n# clt task list (local only; delete this line to commit it)\n.clt/\n"@;
    let none = Seq::<char>::empty();
    let comment = "# clt task list (local only; delete this line to commit it)"@;
    let pattern = ".clt/"@;
    let a = none + seq!['\n'];
    let b = comment + seq!['\n'];
    let c = pattern + seq!['\n'];
    assert(entry =~= a + (b + c));
    lemma_one_line(none);
    lemma_one_line(comment);
    lemma_one_line(pattern);
    lemma_lines_of_two(b, c);
    lemma_lines_of_two(a, b + c);
    assert(lines_of(entry) =~= seq![none, comment, pattern]);
    assert(trimmed(none).len() == 0);
    lemma_tight(comment);
    assert(comment.subrange(0, 15) =~= "# clt task list"@);
    lemma_dot_clt_is_tight();
}

/// Taking the entry out undoes putting it in, byte for byte, and a second time
/// there is nothing to take out.
///
/// That is said of a file that ends with a line, in which no line feed follows a
/// carriage return and no line is ours. Of any other, the entry is put on a line
/// of its own, returns before line feeds are dropped, and lines that look like
/// ours are taken for ours.
pub proof fn law_removing_undoes_excluding(current: Seq<char>)
    requires
        current.len() == 0 || current.last() == '\n',
        forall|k: int|
            0 < k < current.len() && (#[trigger] current[k]) == '\n' ==> current[k - 1] != '\r',
        forall|i: int| 0 <= i < lines_of(current).len() ==> !is_ours(#[trigger] lines_of(current)[i]),
    ensures
        !is_excluded(current),
        others(lines_of(with_entry(current))).len() < lines_of(with_entry(current)).len(),
        without_entry(with_entry(current)) == current,
        others(lines_of(current)).len() == lines_of(current).len(),
{
    lemma_none_ours(lines_of(current));
    lemma_kept_with_entry(current);
    lemma_text_comes_back(current);
}

/// What is kept of a file that our entry was put into.
proof fn lemma_kept_with_entry(current: Seq<char>)
    requires
        current.len() == 0 || current.last() == '\n',
        others(lines_of(current)) == lines_of(current),
    ensures
        lines_of(with_entry(current)).len() == lines_of(current).len() + 3,
        others(lines_of(with_entry(current))) == lines_of(current).push(Seq::empty()),
{
    let entry = "\n# clt task list (local only; delete this line to commit it)\n.clt/\n"@;
    assert(line_ended(current) == current);
    lemma_lines_of_two(current, entry);
    lemma_entry_lines();
    lemma_others_of_entry(lines_of(current), lines_of(entry));
}

/// Of three lines more, of which the last two are ours, the first is kept.
proof fn lemma_others_of_entry(ls: Seq<Seq<char>>, es: Seq<Seq<char>>)
    requires
        es.len() == 3,
        es[0].len() == 0,
        !is_ours(es[0]),
        is_ours(es[1]),
        is_ours(es[2]),
    ensures
        others(ls + es) == others(ls).push(Seq::empty()),
{
    let a = ls.push(es[0]);
    let b = a.push(es[1]);
    let c = b.push(es[2]);
    lemma_others_push(ls, es[0]);
    lemma_others_push(a, es[1]);
    lemma_others_push(b, es[2]);
    assert(c =~= ls + es);
    assert(es[0] =~= Seq::<char>::empty());
}

/// The lines of a file and an empty one, joined, are the file.
proof fn lemma_text_comes_back(current: Seq<char>)
    requires
        current.len() == 0 || current.last() == '\n',
        forall|k: int|
            0 < k < current.len() && (#[trigger] current[k]) == '\n' ==> current[k - 1] != '\r',
    ensures
        line_ended(joined(lines_of(current).push(Seq::empty()), "\n"@)) == current,
{
    reveal_strlit("\n");
    assert("\n"@ =~= seq!['\n']);
    let ls = lines_of(current);
    let kept = ls.push(Seq::empty());
    let body = joined(kept, "\n"@);
    if current.len() > 0 {
        lemma_lines_joined(current, 0);
        assert(kept.drop_last() =~= ls);
        assert(kept.last() =~= Seq::<char>::empty());
        assert(body == joined(ls, "\n"@) + "\n"@ + kept.last());
        assert(body =~= joined(ls, "\n"@) + seq!['\n']);
        assert(current.skip(0) =~= current);
        assert(body == current);
    } else {
        assert(ls =~= Seq::empty());
        assert(body == kept[0]);
        assert(body =~= current);
    }
}

/// The commits of a log are read one record at a time: line breaks before a
/// record are skipped, and it is made of a hash, a subject and a body.
pub proof fn law_commits_are_read_record_by_record(
    breaks_before: Seq<char>,
    sha: Seq<char>,
    subject: Seq<char>,
    body: Seq<char>,
    rest: Seq<char>,
)
    requires
        forall|i: int|
            0 <= i < breaks_before.len() ==> breaks_before[i] == '\n' || breaks_before[i] == '\r',
        sha.len() > 0,
        !crate::text::is_white(sha[0]),
        !sha.contains('\x1f') && !sha.contains('\x1e'),
        !subject.contains('\x1f') && !subject.contains('\x1e'),
        !body.contains('\x1f') && !body.contains('\x1e'),
    ensures
        ({
            let record = breaks_before + sha + seq!['\x1f'] + subject + seq!['\x1f'] + body;
            commits_in(record.push('\x1e') + rest) == seq![
                CommitView { sha: trimmed(sha), message: subject + seq!['\n'] + body },
            ] + commits_in(rest)
        }),
{
    let fields = sha + seq!['\x1f'] + subject + seq!['\x1f'] + body;
    let record = breaks_before + sha + seq!['\x1f'] + subject + seq!['\x1f'] + body;
    assert(record =~= breaks_before + fields);
    let n = breaks_before.len() as int;
    let p = breaks();
    let e = run_end(record, 0, p);
    crate::text::lemma_run_end(record, 0, p);
    assert(record[n] == sha[0]);
    assert(e == n) by {
        if e < n {
            assert(record[e] == breaks_before[e]);
            assert(p(record[e]));
        }
        if n < e {
            assert(p(record[n]));
        }
    }
    assert(unbroken(record) =~= fields);
    let tail = subject + seq!['\x1f'] + body;
    assert(fields =~= sha.push('\x1f') + tail);
    assert(tail =~= subject.push('\x1f') + body);
    crate::text::law_pieces_end_at_the_separator(sha, '\x1f', tail);
    crate::text::law_pieces_end_at_the_separator(subject, '\x1f', body);
    crate::text::law_pieces_end_at_the_separator(body, '\x1f', Seq::empty());
    let parts = pieces_of(fields, '\x1f');
    assert(parts =~= seq![sha, subject, body]);
    assert(!is_blank(fields)) by {
        assert(fields[0] == sha[0]);
    }
    reveal_strlit("\n");
    assert("\n"@ =~= seq!['\n']);
    let c = CommitView { sha: trimmed(sha), message: subject + seq!['\n'] + body };
    assert(commit_in(record) == Some(c));
    assert(!record.contains('\x1e')) by {
        if record.contains('\x1e') {
            let k = choose|k: int| 0 <= k < record.len() && record[k] == '\x1e';
            if k < n {
                assert(record[k] == breaks_before[k]);
            } else if k < n + sha.len() {
                assert(record[k] == sha[k - n]);
                assert(sha.contains(record[k]));
            } else if k == n + sha.len() {
                assert(record[k] == '\x1f');
            } else if k < n + sha.len() + 1 + subject.len() {
                assert(record[k] == subject[k - n - sha.len() - 1]);
                assert(subject.contains(record[k]));
            } else if k == n + sha.len() + 1 + subject.len() {
                assert(record[k] == '\x1f');
            } else {
                assert(record[k] == body[k - n - sha.len() - 2 - subject.len()]);
                assert(body.contains(record[k]));
            }
        }
    }
    crate::text::law_pieces_end_at_the_separator(record, '\x1e', rest);
    let records = pieces_of(rest, '\x1e');
    lemma_commits_of_first(record, records, records.len());
    assert(seq![record] + records =~= pieces_of(record.push('\x1e') + rest, '\x1e'));
    assert((seq![record] + records).len() == records.len() + 1);
}

proof fn lemma_commits_of_first(record: Seq<char>, records: Seq<Seq<char>>, n: nat)
    requires
        n <= records.len(),
        commit_in(record) is Some,
    ensures
        commits_of(seq![record] + records, (n + 1) as nat) == seq![commit_in(record)->0]
            + commits_of(records, n),
    decreases n,
{
    let all = seq![record] + records;
    if n == 0 {
        assert(commits_of(all, 0) =~= Seq::empty());
        assert(all[0] == record);
        assert(commits_of(all, 1) =~= seq![commit_in(record)->0] + commits_of(records, 0));
    } else {
        lemma_commits_of_first(record, records, (n - 1) as nat);
        assert(all[n as int] == records[n - 1]);
        assert(commits_of(all, (n + 1) as nat) =~= seq![commit_in(record)->0] + commits_of(
            records,
            n,
        ));
    }
}

/// What is left at the end of a log is no commit where it is blank, or lacks a
/// subject.
pub proof fn law_records_without_a_subject_are_none(record: Seq<char>)
    ensures
        is_blank(record) ==> commit_in(record) is None,
        !record.contains('\x1f') ==> commit_in(record) is None,
{
    let t = unbroken(record);
    let e = run_end(record, 0, breaks());
    crate::text::lemma_run_end(record, 0, breaks());
    if is_blank(record) {
        assert forall|i: int| 0 <= i < t.len() implies crate::text::is_white(#[trigger] t[i]) by {
            assert(t[i] == record[e + i]);
        }
    }
    if !record.contains('\x1f') {
        assert(!t.contains('\x1f')) by {
            if t.contains('\x1f') {
                let k = choose|k: int| 0 <= k < t.len() && t[k] == '\x1f';
                assert(record[e + k] == '\x1f');
            }
        }
        crate::text::law_pieces_end_at_the_separator(t, '\x1f', Seq::empty());
    }
}

/// Names are read one to a line, without the blank space around them; a line
/// with nothing on it names nothing.
pub proof fn law_names_are_read_one_to_a_line(line: Seq<char>, rest: Seq<char>)
    requires
        !line.contains('\n'),
        line.len() == 0 || line.last() != '\r',
    ensures
        is_blank(line) ==> names_in(line.push('\n') + rest) == names_in(rest),
        !is_blank(line) ==> names_in(line.push('\n') + rest) == seq![trimmed(line)] + names_in(rest),
{
    crate::text::law_lines_end_at_the_line_feed(line, rest);
    crate::text::lemma_blank_is_trimmed_away(line);
    let ls = lines_of(rest);
    lemma_names_of_first(line, ls, ls.len());
    assert((seq![line] + ls).len() == ls.len() + 1);
}

proof fn lemma_names_of_first(line: Seq<char>, ls: Seq<Seq<char>>, n: nat)
    requires
        n <= ls.len(),
    ensures
        names_of(seq![line] + ls, (n + 1) as nat) == (if trimmed(line).len() > 0 {
            seq![trimmed(line)] + names_of(ls, n)
        } else {
            names_of(ls, n)
        }),
    decreases n,
{
    let all = seq![line] + ls;
    let head: Seq<Seq<char>> = if trimmed(line).len() > 0 {
        seq![trimmed(line)]
    } else {
        Seq::empty()
    };
    if n == 0 {
        assert(names_of(all, 0) =~= Seq::empty());
        assert(all[0] == line);
        assert(names_of(all, 1) =~= head + names_of(ls, 0));
        assert(head + names_of(ls, 0) =~= head);
    } else {
        lemma_names_of_first(line, ls, (n - 1) as nat);
        assert(all[n as int] == ls[n - 1]);
        assert(names_of(all, (n + 1) as nat) =~= head + names_of(ls, n));
    }
    if trimmed(line).len() == 0 {
        assert(head + names_of(ls, n) =~= names_of(ls, n));
    }
}

/// Git answers where it ran well and said something; a git that is missing, or
/// fails, or says nothing, answers nothing; and one that could not be run is an
/// error.
pub proof fn law_when_git_answers(run: GitRun)
    ensures
        run is NotFound ==> answer(run) == Ok::<Option<Seq<char>>, ErrorView>(None),
        run matches GitRun::Failed { reason } ==> answer(run) == Err::<Option<Seq<char>>, ErrorView>(
            ErrorView::GitFailed { reason: reason@ },
        ),
        run matches GitRun::Exited { success, stdout } ==> {
            let text = lossy_text(stdout@);
            &&& !success || is_blank(text) ==> answer(run) == Ok::<Option<Seq<char>>, ErrorView>(
                None,
            )
            &&& success && !is_blank(text) ==> answer(run) == Ok::<Option<Seq<char>>, ErrorView>(
                Some(trimmed(text)),
            )
        },
{
    if let GitRun::Exited { success, stdout } = run {
        crate::text::lemma_blank_is_trimmed_away(lossy_text(stdout@));
    }
}

/// A line hides the list where it is one of its four spellings, with or without
/// blank space around it. Any other pattern does not, and is not taken for ours
/// unless it is the comment that introduces it.
pub proof fn law_what_hides_the_list(
    u: Seq<char>,
    pattern: Seq<char>,
    v: Seq<char>,
)
    requires
        is_blank(u),
        is_blank(v),
        pattern.len() > 0,
        !crate::text::is_white(pattern[0]),
        !crate::text::is_white(pattern.last()),
    ensures
        hides_list(u + pattern + v) <==> pattern == ".clt"@ || pattern == ".clt/"@ || pattern
            == "/.clt"@ || pattern == "/.clt/"@,
        is_ours(u + pattern + v) <==> hides_list(pattern) || (pattern.len() >= 15 && pattern.take(15)
            == "# clt task list"@),
        !hides_list(u),
{
    crate::text::lemma_trimmed_is(u, pattern, v);
    crate::text::lemma_tight(pattern);
    crate::text::lemma_blank_is_trimmed_away(u);
    reveal_strlit("# clt task list");
    reveal_strlit(".clt");
    reveal_strlit(".clt/");
    reveal_strlit("/.clt");
    reveal_strlit("/.clt/");
    if pattern.len() >= 15 {
        assert(pattern.subrange(0, 15) =~= pattern.take(15));
    }
}

/// Git is asked for the commits after the last one that was read, and for no
/// more than fifty where none was; the oldest comes first.
pub proof fn law_what_git_is_asked_for(sha: Seq<char>)
    ensures
        log_words(Some(sha)).contains("--reverse"@) && log_words(None).contains("--reverse"@),
        log_words(Some(sha)).last() == sha + "..HEAD"@,
        log_words(None).last() == "HEAD"@,
        exists|i: int|
            0 <= i < log_words(None).len() - 1 && #[trigger] log_words(None)[i] == "-n"@
                && log_words(None)[i + 1] == "50"@,
{
    assert(log_words(Some(sha))[1] == "--reverse"@);
    assert(log_words(None)[1] == "--reverse"@);
    assert(log_words(None)[2] == "-n"@);
}

/// A hash is shown by its first seven characters, or whole where it is shorter.
pub proof fn law_hashes_are_shown_by_seven_characters(c: CommitView)
    requires
        forall|i: int| 0 <= i < c.sha.len() ==> '\0' <= #[trigger] c.sha[i] <= '\u{7f}',
    ensures
        c.sha.len() <= 7 ==> c.short() == c.sha,
        c.sha.len() > 7 ==> c.short() == c.sha.take(7),
{
    let s = c.sha;
    assert(vstd::utf8::is_ascii_chars(s));
    vstd::utf8::is_ascii_chars_encode_utf8(s);
    let n: int = if s.len() < 7 {
        s.len() as int
    } else {
        7
    };
    let t = s.take(n);
    assert forall|i: int| 0 <= i < t.len() implies '\0' <= #[trigger] t[i] <= '\u{7f}' by {
        assert(t[i] == s[i]);
    }
    assert(vstd::utf8::is_ascii_chars(t));
    vstd::utf8::is_ascii_chars_encode_utf8(t);
    assert(encode_utf8(s).subrange(0, n) =~= encode_utf8(t));
    vstd::utf8::encode_utf8_decode_utf8(t);
    if s.len() <= 7 {
        assert(t =~= s);
    }
}

/// A path that git spells is respelled for the platform, slash by slash.
pub proof fn law_paths_are_respelled_on_windows(path: Seq<char>, i: int)
    requires
        0 <= i < path.len(),
    ensures
        native_path(path, false) == path,
        native_path(path, true).len() == path.len(),
        path[i] == '/' ==> native_path(path, true)[i] == '\\',
        path[i] != '/' ==> native_path(path, true)[i] == path[i],
{
}

/// The shared git dir is found from the directory that git was asked in: where it
/// is relative, the one is put behind the other, with one separator between
/// them.
pub proof fn law_where_the_shared_dir_is(cwd: Seq<char>, dir: Seq<char>, path: String)
    requires
        cwd.len() > 2,
        cwd.last() != '/' && cwd.last() != '\\',
    ensures
        resolved(cwd, dir, Anchor::Own, false) == dir && resolved(cwd, dir, Anchor::Own, true) == dir,
        resolved(cwd, dir, Anchor::Relative, false) == cwd + seq!['/'] + dir,
        resolved(cwd, dir, Anchor::Relative, true) == cwd + seq!['\\'] + dir,
        resolved(cwd.push('/'), dir, Anchor::Relative, false) == cwd + seq!['/'] + dir,
        resolved(cwd, dir, Anchor::Placed { path }, true) == path@,
{
    reveal_strlit("/");
    reveal_strlit("\\");
    assert("/"@ =~= seq!['/']);
    assert("\\"@ =~= seq!['\\']);
    assert(cwd.push('/') + dir =~= cwd + seq!['/'] + dir);
}

/// The repo is what git printed: its root on the first line and its shared dir on
/// the second, or at the usual place where there is none; nothing printed is no
/// repo.
pub proof fn law_what_git_prints_of_a_repo(
    root: Seq<char>,
    dir: Seq<char>,
    branch: Option<Seq<char>>,
    cwd: Seq<char>,
    anchor: Anchor,
    windows: bool,
)
    requires
        root.len() > 0 && !root.contains('\n'),
        !crate::text::is_white(root[0]) && !crate::text::is_white(root.last()),
        dir.len() > 0 && !dir.contains('\n'),
        !crate::text::is_white(dir[0]) && !crate::text::is_white(dir.last()),
    ensures
        repo_in(root.push('\n') + dir, branch, cwd, anchor, windows) == Some(
            RepoView {
                root: native_path(root, windows),
                git_common_dir: resolved(cwd, native_path(dir, windows), anchor, windows),
                branch,
            },
        ),
        repo_in(root, branch, cwd, anchor, windows) == Some(
            RepoView {
                root: native_path(root, windows),
                git_common_dir: resolved(cwd, native_path(".git"@, windows), anchor, windows),
                branch,
            },
        ),
        repo_in(Seq::empty(), branch, cwd, anchor, windows) is None,
{
    crate::text::law_lines_end_at_the_line_feed(root, dir);
    crate::text::law_lines_end_at_the_line_feed(dir, Seq::empty());
    crate::text::lemma_tight(root);
    crate::text::lemma_tight(dir);
    let two = lines_of(root.push('\n') + dir);
    assert(two =~= seq![root, dir]);
    assert(lines_of(root) =~= seq![root]);
    assert(lines_of(Seq::empty()) =~= Seq::empty());
}

} // verus!
