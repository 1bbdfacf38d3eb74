//! Harvesting markers.

use clt::scan::{
    clean, fnv1a, inside_string_literal, is_ignored, is_own_storage, key_for, key_for_lower,
    list_files, load_ignores, opens_comment, scan, scan_text, settle, worth_reading, Source,
    MAX_FILE_BYTES,
};
use clt::error::Error;
use clt::git::GitRun;

#[test]
fn finds_a_plain_marker() {
    let hits = scan_text("// TODO(clt): retry on 429 too\n", "src/http.rs");
    assert_eq!(hits.len(), 1);
    assert_eq!(hits[0].title, "retry on 429 too");
    assert_eq!(hits[0].line, 1);
    assert_eq!(hits[0].file, "src/http.rs");
}

#[test]
fn ignores_bare_todos() {
    // The whole feature dies if this ever returns a hit.
    let hits = scan_text("// TODO: everything\n# TODO fix\n", "a.rs");
    assert!(hits.is_empty(), "unqualified TODOs must not be harvested");
}

#[test]
fn requires_a_separator_after_the_marker() {
    assert!(scan_text("// TODO(clt)x: nope\n", "a.rs").is_empty());
}

#[test]
fn accepts_fixme_and_reports_line_numbers() {
    let src = "one\ntwo\n/* FIXME(clt) the parser eats commas */\n";
    let hits = scan_text(src, "p.rs");
    assert_eq!(hits.len(), 1);
    assert_eq!(hits[0].line, 3);
    assert_eq!(hits[0].title, "the parser eats commas");
}

#[test]
fn strips_block_and_markup_comment_tails() {
    assert_eq!(scan_text("/* TODO(clt): a */", "x")[0].title, "a");
    assert_eq!(scan_text("<!-- TODO(clt): b -->", "x")[0].title, "b");
}

#[test]
fn skips_markers_with_nothing_to_say() {
    assert!(scan_text("// TODO(clt):\n", "x").is_empty());
}

#[test]
fn key_is_stable_across_reindentation_and_case() {
    // Reformatting a file must not orphan its task.
    let a = key_for("Retry on 429 too");
    let b = key_for("retry   on 429    too");
    assert_eq!(a, b);
}

#[test]
fn key_differs_for_different_text() {
    assert_ne!(key_for("retry on 429"), key_for("retry on 503"));
}

#[test]
fn key_is_pinned_so_upgrades_do_not_orphan_tasks() {
    // If this assertion ever fails, every scanned task in every existing
    // install just lost its identity. Change the algorithm only with a
    // format-version bump and a migration.
    assert_eq!(key_for("retry on 429 too"), "d441342cf10dab0d");
}

#[test]
fn markers_inside_string_literals_are_not_harvested() {
    // The bug this prevents: clt scanning its own test fixtures and filing
    // tasks titled `retry on 429 too\n", "src/http.rs");`.
    let src = r#"    let hits = scan_text("// TODO(clt): retry on 429 too\n", "a.rs");"#;
    assert!(
        scan_text(src, "src/scan.rs").is_empty(),
        "a marker in a string literal is code, not a comment"
    );
}

#[test]
fn quote_counting_respects_escapes() {
    assert!(!inside_string_literal("let x = \"a\";  // "));
    assert!(inside_string_literal("let x = \"open "));
    // An escaped quote doesn't close the literal.
    assert!(inside_string_literal("let x = \"he said \\\" "));
}

#[test]
fn a_comment_containing_a_quoted_phrase_still_scans() {
    // Balanced quotes before the marker must not disqualify a real comment.
    let hits = scan_text("// the \"auth\" flow: TODO(clt): fix the retry", "a.rs");
    assert_eq!(hits.len(), 1, "balanced quotes are not a string literal");
}

#[test]
fn duplicate_markers_collapse_to_one_task() {
    // Two identical markers in one file share a key; the scanner must not
    // report the second as a move of the first, forever.
    let src = "// TODO(clt): same\n// TODO(clt): same\n";
    let hits = scan_text(src, "a.rs");
    assert_eq!(hits.len(), 2, "scan_text reports raw hits");
    assert_eq!(hits[0].key, hits[1].key, "and they share an identity");
    assert_eq!(settle(hits).len(), 1, "of which one is kept");
}

#[test]
fn prose_mentions_of_the_marker_are_not_harvested() {
    // Documentation that names the marker shouldn't file a task about it.
    let src = "//! Harvesting `TODO(clt):` markers out of the source tree.";
    assert!(scan_text(src, "src/scan.rs").is_empty());
}

#[test]
fn recognises_the_comment_styles_people_actually_use() {
    for line in [
        "// TODO(clt): a",
        "  # TODO(clt): a",
        "/* TODO(clt): a */",
        " * TODO(clt): a",
        "<!-- TODO(clt): a -->",
        "-- TODO(clt): a",
        "; TODO(clt): a",
        "% TODO(clt): a",
    ] {
        assert_eq!(scan_text(line, "f").len(), 1, "should have matched: {line}");
    }
}

#[test]
fn clt_never_scans_its_own_metadata() {
    assert!(is_own_storage(".clt/tasks.json"));
    assert!(is_own_storage(".cltignore"));
    assert!(!is_own_storage("src/clt.rs"));
}

#[test]
fn cltignore_matches_files_directories_and_wildcards() {
    let patterns = vec![
        "README.md".to_string(),
        "vendor/".to_string(),
        "tests/fixtures*".to_string(),
    ];
    assert!(is_ignored("README.md", &patterns));
    assert!(is_ignored("vendor/junk.js", &patterns));
    assert!(is_ignored("tests/fixtures/a.rs", &patterns));
    assert!(!is_ignored("src/main.rs", &patterns));
    // A prefix must stop at a path boundary, or `vendor` would also
    // swallow `vendored-thing/`.
    assert!(!is_ignored("vendorish/a.rs", &vec!["vendor".to_string()]));
}

#[test]
fn moving_a_marker_between_files_keeps_its_identity() {
    let a = &scan_text("// TODO(clt): same text", "old.rs")[0];
    let b = &scan_text("// TODO(clt): same text", "new.rs")[0];
    assert_eq!(a.key, b.key);
    assert_ne!(a.file, b.file);
}

#[test]
fn ignore_files_are_read_without_their_comments() {
    let raw = "# what clt scan leaves alone\n\nvendor/\n  docs/*  # the manual\n";
    assert_eq!(load_ignores(raw), vec!["vendor/", "docs/*"]);
}

#[test]
fn the_hash_is_stable() {
    assert_eq!(fnv1a(b""), 0xcbf2_9ce4_8422_2325);
    assert_eq!(fnv1a(b"a"), 0xaf74_d84c_8601_ec8c);
}

#[test]
fn keys_fold_case_beyond_ascii() {
    assert_eq!(key_for("ÉTÉ"), key_for("été"));
    assert_eq!(key_for_lower("a  b"), key_for("A b"));
}

#[test]
fn titles_lose_what_belongs_to_the_comment() {
    assert_eq!(clean(" fix it */"), "fix it");
    assert!(opens_comment("    // "));
    assert!(!opens_comment("let x = 1 "));
}

#[test]
fn a_scan_goes_over_every_file_and_settles_on_one_place_each() {
    let sources = vec![
        Source { rel: "b.rs".to_string(), text: Some("// TODO(clt): shared\n".to_string()) },
        Source { rel: "a.rs".to_string(), text: Some("\n// TODO(clt): shared\n".to_string()) },
        Source { rel: "c.bin".to_string(), text: Some("// TODO(clt): no\0t text\n".to_string()) },
        Source { rel: "d.rs".to_string(), text: None },
    ];
    let hits = scan(&sources);
    assert_eq!(hits.len(), 1);
    assert_eq!((hits[0].file.as_str(), hits[0].line), ("a.rs", 2), "the first by file and line");
}

#[test]
fn large_files_are_not_read() {
    assert!(worth_reading(true, MAX_FILE_BYTES));
    assert!(!worth_reading(true, MAX_FILE_BYTES + 1));
    assert!(!worth_reading(false, 1));
}

#[test]
fn a_failing_listing_says_why() {
    let ok = GitRun::Exited { success: true, stdout: b"a.rs\0dir/b.rs\0".to_vec() };
    assert_eq!(list_files(&ok).unwrap(), vec!["a.rs", "dir/b.rs"]);
    let refused = GitRun::Exited { success: false, stdout: Vec::new() };
    assert!(matches!(list_files(&refused), Err(Error::ListingRefused)));
    let missing = GitRun::NotFound { reason: "no git".to_string() };
    let e = list_files(&missing).unwrap_err();
    assert!(matches!(e, Error::ListingFailed { .. }));
    assert_eq!(e.message(), "running `git ls-files` (is git on PATH?): no git");
}

#[test]
fn two_texts_are_scanned_one_after_the_other() {
    let a = "// TODO(clt): first\n\nlet x = 1;\n";
    let b = "# FIXME(clt):   second   thing \nfn f() {}\n-- TODO(clt): third";
    let whole = scan_text(&format!("{a}{b}"), "src\\x.rs");
    let seen: Vec<(&str, u32, &str)> =
        whole.iter().map(|h| (h.title.as_str(), h.line, h.file.as_str())).collect();
    assert_eq!(
        seen,
        vec![("first", 1, "src/x.rs"), ("second thing", 4, "src/x.rs"), ("third", 6, "src/x.rs")]
    );
    let apart: Vec<(String, u32)> = scan_text(a, "x")
        .into_iter()
        .map(|h| (h.key, h.line))
        .chain(scan_text(b, "x").into_iter().map(|h| (h.key, h.line + 3)))
        .collect();
    let joined: Vec<(String, u32)> = whole.into_iter().map(|h| (h.key, h.line)).collect();
    assert_eq!(joined, apart);
}
