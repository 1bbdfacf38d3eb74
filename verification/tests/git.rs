//! What git says, and what the exclude file is to hold.

use clt::error::Error;
use clt::git::{
    branch_query, branches_query, common_dir, discover, discover_in, files_query, git, head_query,
    ignore_query, log_query, native, output, paths_query, read_commits, read_ignore_source,
    read_names, shared_dir, tracked_query, Anchor, Commit, GitRun, Repo,
};
use std::path::PathBuf;

fn said(text: &str) -> GitRun {
    GitRun::Exited { success: true, stdout: text.as_bytes().to_vec() }
}

fn refused() -> GitRun {
    GitRun::Exited { success: false, stdout: Vec::new() }
}

fn repo() -> Repo {
    Repo {
        root: "/r".to_string(),
        git_common_dir: "/r/.git".to_string(),
        branch: Some("main".to_string()),
    }
}

#[test]
fn a_git_path_joins_without_mixing_separators() {
    // The shape git hands us on Windows. Whatever we join onto it has to
    // come out in one separator style, because this string gets printed.
    let joined = PathBuf::from(native("C:/code/app", false)).join(".clt").join("tasks.json");
    let shown = joined.display().to_string();
    assert!(
        !(shown.contains('/') && shown.contains('\\')),
        "mixed separators in {shown:?}"
    );
    assert!(shown.ends_with("tasks.json"));

    let shown = native("C:/code/app", true) + "\\.clt\\tasks.json";
    assert!(
        !(shown.contains('/') && shown.contains('\\')),
        "mixed separators in {shown:?}"
    );
    assert_eq!(shown, "C:\\code\\app\\.clt\\tasks.json");
}

#[test]
fn a_git_path_still_points_at_the_same_place() {
    // Normalising must not change which file is meant, only how it reads.
    assert_eq!(PathBuf::from(native("C:/code/app", false)), PathBuf::from("C:/code/app"));
    assert_eq!(PathBuf::from(native("/home/x/app", false)), PathBuf::from("/home/x/app"));
    assert_eq!(native("C:/code/app", true).replace('\\', "/"), "C:/code/app");
}

#[test]
fn a_relative_git_dir_is_normalised_too() {
    // `--git-common-dir` comes back relative in a plain repo.
    assert_eq!(PathBuf::from(native(".git", false)), PathBuf::from(".git"));
    for windows in [false, true] {
        let shown = native("../.git/worktrees/x", windows);
        assert!(!(shown.contains('/') && shown.contains('\\')), "{shown:?}");
    }
}

#[test]
fn short_sha_survives_a_short_sha() {
    // Slicing a 40-char sha to 7 is obvious; slicing a hand-written 4-char
    // one to 7 is a panic, which is why `short` takes a min.
    let c = Commit { sha: "abc".into(), message: String::new() };
    assert_eq!(c.short(), "abc");
}

#[test]
fn a_full_sha_is_cut_to_seven() {
    let c = Commit {
        sha: "0123456789abcdef0123456789abcdef01234567".into(),
        message: String::new(),
    };
    assert!(c.can_be_shortened());
    assert_eq!(c.short(), "0123456");
    let odd = Commit { sha: "ééééé".into(), message: String::new() };
    assert!(!odd.can_be_shortened(), "the seventh byte is inside a character");
}

#[test]
fn output_is_trimmed_and_silence_is_nothing() {
    assert_eq!(output(true, "  main\n"), Some("main".to_string()));
    assert_eq!(output(true, " \n"), None);
    assert_eq!(output(false, "main"), None);
}

#[test]
fn a_missing_git_is_no_error_but_a_broken_one_is() {
    let missing = GitRun::NotFound { reason: "no such file".to_string() };
    assert!(matches!(git(&missing), Ok(None)));
    assert!(matches!(git(&refused()), Ok(None)));
    assert_eq!(git(&said("x\n")).unwrap(), Some("x".to_string()));
    let broken = GitRun::Failed { reason: "boom".to_string() };
    let e = git(&broken).unwrap_err();
    assert!(matches!(e, Error::GitFailed { .. }));
    assert_eq!(e.message(), "failed to run git: boom");
}

#[test]
fn bytes_that_are_no_text_are_replaced_not_refused() {
    let run = GitRun::Exited { success: true, stdout: vec![0x61, 0xff, 0x62] };
    assert_eq!(git(&run).unwrap(), Some("a\u{fffd}b".to_string()));
}

#[test]
fn a_repo_is_discovered_with_its_branch() {
    let cwd = "/home/x/app";
    let paths = said("/home/x/app\n.git\n");
    let r = discover(cwd, &paths, &said("feat/x\n"), &Anchor::Relative, false).unwrap().unwrap();
    assert_eq!(r.root, "/home/x/app");
    assert_eq!(r.git_common_dir, "/home/x/app/.git");
    assert_eq!(r.branch.as_deref(), Some("feat/x"));

    let bare = said("/home/x/app\n");
    let detached = discover(cwd, &bare, &refused(), &Anchor::Relative, false).unwrap().unwrap();
    assert_eq!(detached.branch, None);
    assert_eq!(
        detached.git_common_dir,
        "/home/x/app/.git",
        "the usual place where git names none"
    );

    assert!(discover(cwd, &refused(), &refused(), &Anchor::Relative, false).unwrap().is_none());
}

#[test]
fn the_shared_dir_is_resolved_against_the_current_directory() {
    let paths = "/r\n../../.git";
    assert_eq!(shared_dir(paths, false), "../../.git");
    let deep = discover_in(paths, None, "/r/src/deep", &Anchor::Relative, false).unwrap();
    assert_eq!(deep.root, "/r");
    assert_eq!(deep.git_common_dir, "/r/src/deep/../../.git", "not against the root");

    let linked = discover_in("/w\n/r/.git", None, "/w/src", &Anchor::Own, false).unwrap();
    assert_eq!(linked.git_common_dir, "/r/.git");

    let from = |cwd: &str, windows: bool| common_dir(cwd, ".git", &Anchor::Relative, windows);
    assert_eq!(from("/", false), "/.git");
    assert_eq!(from("", false), ".git");
    assert_eq!(from("C:\\code", true), "C:\\code\\.git");
    assert_eq!(from("C:\\", true), "C:\\.git");
    assert_eq!(from("C:", true), "C:.git", "a drive is not its root");
    assert_eq!(from("C:", false), "C:/.git", "and no drive elsewhere");
    assert_eq!(common_dir("/r", "/elsewhere/.git", &Anchor::Own, false), "/elsewhere/.git");
    assert_eq!(common_dir("C:\\code", "D:repo", &Anchor::Own, true), "D:repo");
    let placed = Anchor::Placed { path: "C:\\shared".to_string() };
    assert_eq!(common_dir("C:\\code", "\\shared", &placed, true), "C:\\shared");
}

#[test]
fn a_relative_dir_is_joined_as_the_platform_joins_it() {
    for cwd in ["/", "/r", "/r/", "", "r/s", "C:", "C:\\code"] {
        for dir in [".git", "../.git", "a b/c"] {
            let joined = PathBuf::from(cwd).join(dir);
            let ours = common_dir(cwd, dir, &Anchor::Relative, std::path::MAIN_SEPARATOR == '\\');
            assert_eq!(joined.to_string_lossy(), ours);
        }
    }
}

#[test]
fn paths_from_git_are_respelled_on_windows() {
    let r = discover_in("C:/code/app\nC:/code/app/.git", None, "C:\\", &Anchor::Own, true).unwrap();
    assert_eq!(r.root, "C:\\code\\app");
    assert_eq!(r.git_common_dir, "C:\\code\\app\\.git");
}

#[test]
fn questions_are_spelled_the_way_git_takes_them() {
    assert_eq!(tracked_query(".clt/tasks.json"), vec!["ls-files", "--error-unmatch", "--", ".clt/tasks.json"]);
    assert_eq!(ignore_query(".clt/tasks.json"), vec!["check-ignore", "-v", "--", ".clt/tasks.json"]);
    assert_eq!(paths_query(), vec!["rev-parse", "--show-toplevel", "--git-common-dir"]);
    assert_eq!(branch_query(), vec!["symbolic-ref", "--quiet", "--short", "HEAD"]);
    assert_eq!(head_query(), vec!["rev-parse", "HEAD"]);
    assert_eq!(branches_query(), vec!["for-each-ref", "--format=%(refname:short)", "refs/heads/"]);
    assert_eq!(
        files_query(),
        vec!["ls-files", "--cached", "--others", "--exclude-standard", "-z"]
    );
    let recent = log_query(None);
    assert!(recent.iter().any(|a| a.contains("50")), "{recent:?}");
    let new = log_query(Some("abc"));
    assert!(new.iter().any(|a| a.contains("abc..HEAD")), "{new:?}");
}

#[test]
fn commits_are_read_oldest_first_with_their_bodies() {
    let log = "aaa\x1fsubject one\x1fbody one\x1e\nbbb\x1fsubject two\x1f\x1e\n";
    let commits = read_commits(log);
    let seen: Vec<(&str, &str)> =
        commits.iter().map(|c| (c.sha.as_str(), c.message.as_str())).collect();
    assert_eq!(seen, vec![("aaa", "subject one\nbody one"), ("bbb", "subject two\n")]);
    assert_eq!(repo().commits_since(&said(log)).unwrap().len(), 2);
    assert!(repo().commits_since(&refused()).unwrap().is_empty());
}

#[test]
fn branches_and_the_ignoring_file_are_read_off_what_git_prints() {
    assert_eq!(read_names("main\n  feat/x \n\n"), vec!["main", "feat/x"]);
    assert_eq!(repo().branches(&said("main\nfeat/x\n")), vec!["main", "feat/x"]);
    assert!(repo().branches(&refused()).is_empty());
    let line = ".gitignore:2:.clt/\t.clt/tasks.json";
    assert_eq!(read_ignore_source(line), Some(".gitignore".to_string()));
    assert_eq!(repo().ignore_source(&said(line)), Some(".gitignore".to_string()));
    assert_eq!(repo().ignore_source(&refused()), None);
    assert!(repo().is_tracked(&said(".clt/tasks.json\n")));
    assert!(!repo().is_tracked(&refused()));
    assert_eq!(repo().head(&said("abc\n")).unwrap(), Some("abc".to_string()));
}

#[test]
fn excluding_twice_adds_one_entry() {
    let once = Repo::ensure_excluded("# git's own\n*.swp").unwrap();
    assert!(once.contains("\n.clt/\n"), "{once:?}");
    assert_eq!(Repo::ensure_excluded(&once), None);
    assert_eq!(Repo::ensure_excluded("/.clt\n"), None, "any spelling counts");
}

#[test]
fn taking_the_entry_out_gives_the_old_text_back() {
    for text in ["", "*.swp\n", "# git's own\n\n*.swp\n\n\n", "a\rb\n"] {
        let hidden = Repo::ensure_excluded(text).unwrap();
        assert_eq!(Repo::unexclude(&hidden).as_deref(), Some(text));
        assert_eq!(Repo::unexclude(text), None);
    }
}
