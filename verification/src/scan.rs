//! Harvesting `TODO(clt):` markers out of the source tree.
//!
//! A task list drifts away from the code the moment the two are maintained
//! separately. Here the comment is the source of truth: write the marker, and
//! the task appears; delete the marker, and the task closes.

use crate::error::{Error, ErrorView};
use crate::git::{decode_lossy, lossy_text, GitRun};
use crate::text::{
    begins, chars_of, contains, ends, ends_with, find, first_at, has, hex16, is_blank, is_white,
    join, joined, lemma_lines_of_two, lines, lines_of, lowercase, pieces_of, same, sorts_before_or_same, split,
    occurs_at, starts_with, string_of, swap_char, swapped, text_le, to_hex16, to_lower, trim, trim_end,
    trimmed, trimmed_end, views, words, words_of,
};
use vstd::prelude::*;
use vstd::utf8::encode_utf8;

verus! {

broadcast use vstd::string::group_string_axioms;

/// Files above this size are skipped. Source files are not 2MB; things that are
/// tend to be vendored bundles, fixtures or lockfiles.
pub const MAX_FILE_BYTES: u64 = 2_097_152;

#[derive(Debug, PartialEq, Eq)]
pub struct Hit {
    /// Stable identity, derived from the marker text.
    pub key: String,
    pub title: String,
    pub file: String,
    pub line: u32,
}

#[verifier::ext_equal]
pub struct HitView {
    pub key: Seq<char>,
    pub title: Seq<char>,
    pub file: Seq<char>,
    pub line: u32,
}

impl View for Hit {
    type V = HitView;

    open spec fn view(&self) -> HitView {
        HitView { key: self.key@, title: self.title@, file: self.file@, line: self.line }
    }
}

impl Clone for Hit {
    fn clone(&self) -> (r: Hit)
        ensures
            r == *self,
    {
        Hit {
            key: self.key.clone(),
            title: self.title.clone(),
            file: self.file.clone(),
            line: self.line,
        }
    }
}

pub open spec fn hit_views(v: Seq<Hit>) -> Seq<HitView> {
    Seq::new(v.len(), |i: int| v[i]@)
}

// ---------------------------------------------------------------------------
// Recognising a marker
// ---------------------------------------------------------------------------

/// The double quotes in `s` from `i` on that no backslash stands before. What
/// follows a backslash is skipped, whatever it is.
pub open spec fn quotes_from(s: Seq<char>, i: int) -> nat
    decreases s.len() + 1 - i,
{
    if i < 0 || i >= s.len() {
        0
    } else if s[i] == '\\' {
        quotes_from(s, i + 2)
    } else if s[i] == '"' {
        1 + quotes_from(s, i + 1)
    } else {
        quotes_from(s, i + 1)
    }
}

/// Whether the text before a marker leaves it inside a string literal: quoted
/// text is data, not a comment.
pub open spec fn in_literal(prefix: Seq<char>) -> bool {
    quotes_from(prefix, 0) % 2 == 1
}

/// True when the text before the marker leaves us inside a string literal.
///
/// Only `"` is counted. Apostrophes are ordinary comment text, and a false
/// negative in a scanner is worse than the rare false positive of a shell
/// script that single-quotes a marker.
pub fn inside_string_literal(prefix: &str) -> (r: bool)
    ensures
        r == in_literal(prefix@),
{
    let v = chars_of(prefix);
    let n: usize = v.len();
    let mut odd: bool = false;
    let mut i: usize = 0;
    let ghost mut seen: nat = 0;
    while i < n
        invariant
            i <= n == v@.len(),
            v@ == prefix@,
            odd == (seen % 2 == 1),
            quotes_from(prefix@, 0) == seen + quotes_from(prefix@, i as int),
        decreases n - i,
    {
        if v[i] == '\\' {
            if n - i >= 2 {
                i += 2;
            } else {
                assert(quotes_from(prefix@, i + 2) == 0);
                i = n;
            }
        } else if v[i] == '"' {
            odd = !odd;
            proof {
                seen = seen + 1;
            }
            i += 1;
        } else {
            i += 1;
        }
    }
    odd
}

/// Whether some comment opener stands in `s`: `//`, `#`, `/*`, the continuation
/// `*`, `<!--`, `--`, `;`, `%`, or a docstring's quotes.
pub open spec fn has_opener(s: Seq<char>) -> bool {
    ||| has(s, "//"@)
    ||| has(s, "#"@)
    ||| has(s, "/*"@)
    ||| has(s, "*"@)
    ||| has(s, "<!--"@)
    ||| has(s, "--"@)
    ||| has(s, ";"@)
    ||| has(s, "%"@)
    ||| has(s, "\"\"\""@)
    ||| has(s, "'''"@)
}

/// Whether a marker after `prefix` stands in a comment: not inside a string
/// literal, and either with nothing before it on its line or with a comment
/// opener somewhere before it.
pub open spec fn in_comment(prefix: Seq<char>) -> bool {
    !in_literal(prefix) && (is_blank(trimmed_end(prefix)) || has_opener(trimmed_end(prefix)))
}

/// True when what stands before the marker on this line is a comment.
///
/// Two rules, because either alone is defeated. The prefix must *contain* a
/// comment opener, which rejects `foo(MARKER)` while accepting prose before the
/// marker. And the marker must not be inside a string literal, where the
/// comment opener is itself part of the quoted data.
pub fn opens_comment(prefix: &str) -> (r: bool)
    ensures
        r == in_comment(prefix@),
{
    if inside_string_literal(prefix) {
        return false;
    }
    let t = trim_end(prefix);
    let s = t.as_str();
    if crate::text::blank(s) {
        return true;
    }
    contains(s, "//") || contains(s, "#") || contains(s, "/*") || contains(s, "*") || contains(
        s,
        "<!--",
    ) || contains(s, "--") || contains(s, ";") || contains(s, "%") || contains(s, "\"\"\"")
        || contains(s, "'''")
}

/// The text after the first occurrence of `marker`, where that is in a comment
/// and followed by a separator: a colon, a blank, both, or the end of the line.
pub open spec fn after_marker(line: Seq<char>, marker: Seq<char>) -> Option<Seq<char>> {
    match first_at(line, marker, 0) {
        None => None,
        Some(i) => {
            let tail = line.skip(i + marker.len());
            let rest = if begins(tail, ":"@) {
                tail.skip(1)
            } else {
                tail
            };
            if in_comment(line.take(i)) && (rest.len() == 0 || rest[0] == ' ' || rest[0] == '\t') {
                Some(rest)
            } else {
                None
            }
        },
    }
}

/// The text after a marker on this line. The `(clt)` qualifier is mandatory:
/// harvesting every bare `TODO` would produce hundreds of tasks nobody asked
/// for.
pub open spec fn marker_text(line: Seq<char>) -> Option<Seq<char>> {
    match after_marker(line, "TODO(clt)"@) {
        Some(rest) => Some(rest),
        None => after_marker(line, "FIXME(clt)"@),
    }
}

fn find_one(line: &str, marker: &str) -> (r: Option<String>)
    ensures
        crate::text::opt_view(r) == after_marker(line@, marker@),
{
    let v = chars_of(line);
    let m = chars_of(marker);
    let i: usize = match find(&v, &m) {
        Some(i) => i,
        None => {
            return None;
        },
    };
    let n: usize = v.len();
    let prefix = string_of(&v, 0, i);
    assert(prefix@ =~= line@.take(i as int));
    if !opens_comment(prefix.as_str()) {
        return None;
    }
    let mut from: usize = i + m.len();
    let ghost tail = line@.skip(from as int);
    proof {
        reveal_strlit(":");
        assert(begins(tail, ":"@) <==> tail.len() > 0 && tail[0] == ':') by {
            if tail.len() > 0 && tail[0] == ':' {
                assert(tail.subrange(0, 1) =~= ":"@);
            }
            if begins(tail, ":"@) {
                assert(tail.subrange(0, 1)[0] == ":"@[0]);
            }
        }
    }
    if from < n && v[from] == ':' {
        from += 1;
        assert(tail.skip(1) =~= line@.skip(from as int));
    }
    if from == n || v[from] == ' ' || v[from] == '\t' {
        let rest = string_of(&v, from, n);
        assert(rest@ =~= line@.skip(from as int));
        Some(rest)
    } else {
        None
    }
}

/// Returns the text following a marker on this line, if there is one.
pub fn find_marker(line: &str) -> (r: Option<String>)
    ensures
        crate::text::opt_view(r) == marker_text(line@),
{
    match find_one(line, "TODO(clt)") {
        Some(rest) => Some(rest),
        None => find_one(line, "FIXME(clt)"),
    }
}

/// `s` without one closing delimiter at its end, and without the blank space
/// before that.
pub open spec fn without_tail(s: Seq<char>, tail: Seq<char>) -> Seq<char> {
    if ends(s, tail) {
        trimmed_end(s.take(s.len() - tail.len()))
    } else {
        s
    }
}

/// A marker's text without the punctuation that closes the comment.
pub open spec fn without_tails(s: Seq<char>) -> Seq<char> {
    let a = without_tail(trimmed(s), "*/"@);
    let b = without_tail(a, "-->"@);
    let c = without_tail(b, "\"\"\""@);
    let d = without_tail(c, "'''"@);
    let e = without_tail(d, "#}"@);
    without_tail(e, "--}}"@)
}

/// The title a marker's text makes: its words, with one blank between them.
pub open spec fn title_of(s: Seq<char>) -> Seq<char> {
    joined(words_of(without_tails(s)), " "@)
}

fn drop_tail(s: String, tail: &str) -> (r: String)
    ensures
        r@ == without_tail(s@, tail@),
{
    if ends_with(s.as_str(), tail) {
        let v = chars_of(s.as_str());
        let t = chars_of(tail);
        let n: usize = v.len() - t.len();
        let kept = string_of(&v, 0, n);
        assert(kept@ =~= s@.take(s@.len() - tail@.len()));
        trim_end(kept.as_str())
    } else {
        s
    }
}

/// Strips comment punctuation that would otherwise end up in the task title,
/// and collapses runs of blank space, so re-indenting a comment doesn't change
/// the task's identity.
pub fn clean(s: &str) -> (r: String)
    ensures
        r@ == title_of(s@),
{
    let t = trim(s);
    let t = drop_tail(t, "*/");
    let t = drop_tail(t, "-->");
    let t = drop_tail(t, "\"\"\"");
    let t = drop_tail(t, "'''");
    let t = drop_tail(t, "#}");
    let t = drop_tail(t, "--}}");
    let w = words(t.as_str());
    join(&w, " ")
}

// ---------------------------------------------------------------------------
// Identity
// ---------------------------------------------------------------------------

/// The hash of some bytes.
pub open spec fn fnv(bytes: Seq<u8>) -> u64
    decreases bytes.len(),
{
    if bytes.len() == 0 {
        0xcbf2_9ce4_8422_2325
    } else {
        fnv_step(fnv(bytes.drop_last()), bytes.last())
    }
}

pub open spec fn fnv_step(hash: u64, b: u8) -> u64 {
    (hash ^ (b as u64)).wrapping_mul(0x1000_0000_01b3)
}

/// A hash in the manner of FNV-1a, with a multiplier of its own. The value is
/// written to disk and compared across runs and machines, so it must be stable
/// forever.
pub fn fnv1a(bytes: &[u8]) -> (r: u64)
    ensures
        r == fnv(bytes@),
{
    let mut hash: u64 = 0xcbf2_9ce4_8422_2325;
    let mut i: usize = 0;
    while i < bytes.len()
        invariant
            i <= bytes@.len(),
            hash == fnv(bytes@.take(i as int)),
        decreases bytes@.len() - i,
    {
        assert(bytes@.take(i + 1).drop_last() =~= bytes@.take(i as int));
        hash = (hash ^ (bytes[i] as u64)).wrapping_mul(0x1000_0000_01b3);
        i += 1;
    }
    assert(bytes@.take(i as int) =~= bytes@);
    hash
}

/// The identity that text in lower case has: its words, hashed.
pub open spec fn key_of_lower(lower: Seq<char>) -> Seq<char> {
    hex16(fnv(encode_utf8(joined(words_of(lower), " "@))))
}

/// The identity of a marker with this title.
pub open spec fn key_of(title: Seq<char>) -> Seq<char> {
    key_of_lower(lowercase(title))
}

/// The identity of a marker whose title is `lower` once in lower case.
pub fn key_for_lower(lower: &str) -> (r: String)
    ensures
        r@ == key_of_lower(lower@),
{
    let w = words(lower);
    let normalized = join(&w, " ");
    let n = normalized.as_str();
    to_hex16(fnv1a(n.as_bytes()))
}

/// Identity of a marker, from its text alone.
///
/// Text-only, not text-plus-path, so that moving a comment to another file
/// updates the task's location instead of closing one task and opening a
/// duplicate.
pub fn key_for(title: &str) -> (r: String)
    ensures
        r@ == key_of(title@),
{
    let lower = to_lower(title);
    key_for_lower(lower.as_str())
}

// ---------------------------------------------------------------------------
// Files
// ---------------------------------------------------------------------------

/// The marker on line `n` (counted from one) of a file, if there is one that
/// says something.
pub open spec fn hit_on(line: Seq<char>, file: Seq<char>, n: nat) -> Option<HitView> {
    match marker_text(line) {
        Some(body) => if title_of(body).len() == 0 {
            None
        } else {
            Some(
                HitView {
                    key: key_of(title_of(body)),
                    title: title_of(body),
                    file: swapped(file, '\\', '/'),
                    line: n as u32,
                },
            )
        },
        None => None,
    }
}

/// The markers on the first `n` lines.
pub open spec fn hits_on(lines: Seq<Seq<char>>, file: Seq<char>, n: nat) -> Seq<HitView>
    decreases n,
{
    if n == 0 {
        Seq::empty()
    } else {
        match hit_on(lines[n - 1], file, n) {
            Some(h) => hits_on(lines, file, (n - 1) as nat).push(h),
            None => hits_on(lines, file, (n - 1) as nat),
        }
    }
}

/// The markers of a file, in the order of their lines.
pub open spec fn hits_in(text: Seq<char>, file: Seq<char>) -> Seq<HitView> {
    hits_on(lines_of(text), file, lines_of(text).len())
}

/// Extracts markers from one file's contents.
pub fn scan_text(text: &str, file: &str) -> (r: Vec<Hit>)
    requires
        lines_of(text@).len() <= u32::MAX,
    ensures
        hit_views(r@) == hits_in(text@, file@),
{
    let all = lines(text);
    let ghost ls = lines_of(text@);
    let mut hits: Vec<Hit> = Vec::new();
    assert(hit_views(hits@) =~= hits_on(ls, file@, 0));
    let mut i: usize = 0;
    while i < all.len()
        invariant
            i <= all@.len(),
            ls == views(all@),
            ls.len() <= u32::MAX,
            hit_views(hits@) == hits_on(ls, file@, i as nat),
        decreases all@.len() - i,
    {
        let ghost before = hits@;
        assert(ls[i as int] == all@[i as int]@);
        if let Some(body) = find_marker(all[i].as_str()) {
            let title = clean(body.as_str());
            if !title.as_str().is_empty() {
                let line: u32 = (i + 1) as u32;
                let hit = Hit {
                    key: key_for(title.as_str()),
                    title,
                    file: swap_char(file, '\\', '/'),
                    line,
                };
                hits.push(hit);
                assert(hit_views(hits@) =~= hit_views(before).push(hit@));
            }
        }
        i += 1;
    }
    hits
}

/// A file of the working tree.
pub struct Source {
    /// Repo-relative path.
    pub rel: String,
    /// What it holds; nothing where it could not be read as text.
    pub text: Option<String>,
}

#[verifier::ext_equal]
pub struct SourceView {
    pub rel: Seq<char>,
    pub text: Option<Seq<char>>,
}

impl View for Source {
    type V = SourceView;

    open spec fn view(&self) -> SourceView {
        SourceView { rel: self.rel@, text: crate::text::opt_view(self.text) }
    }
}

pub open spec fn source_views(v: Seq<Source>) -> Seq<SourceView> {
    Seq::new(v.len(), |i: int| v[i]@)
}

/// Whether a file of the working tree is looked into at all.
pub fn worth_reading(is_file: bool, len: u64) -> (r: bool)
    ensures
        r == (is_file && len <= MAX_FILE_BYTES),
{
    is_file && len <= MAX_FILE_BYTES
}

/// The markers of one file. Text with a NUL in it is no text.
pub open spec fn source_hits(s: SourceView) -> Seq<HitView> {
    match s.text {
        Some(text) => if text.contains('\0') {
            Seq::empty()
        } else {
            hits_in(text, s.rel)
        },
        None => Seq::empty(),
    }
}

/// Whether the lines of a file can be numbered.
pub open spec fn countable(s: SourceView) -> bool {
    s.text is Some ==> lines_of(s.text->0).len() <= u32::MAX
}

fn has_nul(text: &str) -> (r: bool)
    ensures
        r == text@.contains('\0'),
{
    let v = chars_of(text);
    let mut i: usize = 0;
    while i < v.len()
        invariant
            i <= v@.len(),
            v@ == text@,
            forall|k: int| 0 <= k < i ==> v@[k] != '\0',
        decreases v@.len() - i,
    {
        if v[i] == '\0' {
            assert(text@[i as int] == '\0');
            return true;
        }
        i += 1;
    }
    false
}

pub fn scan_source(source: &Source) -> (r: Vec<Hit>)
    requires
        countable(source@),
    ensures
        hit_views(r@) == source_hits(source@),
{
    match &source.text {
        Some(text) => {
            if has_nul(text.as_str()) {
                let none: Vec<Hit> = Vec::new();
                assert(hit_views(none@) =~= Seq::empty());
                none
            } else {
                scan_text(text.as_str(), source.rel.as_str())
            }
        },
        None => {
            let none: Vec<Hit> = Vec::new();
            assert(hit_views(none@) =~= Seq::empty());
            none
        },
    }
}

/// The order of markers: by file, then by line.
pub open spec fn hit_le(a: HitView, b: HitView) -> bool {
    if a.file == b.file {
        a.line <= b.line
    } else {
        text_le(a.file, b.file)
    }
}

/// Markers in order, with one more put where it belongs: after those it does
/// not come before.
pub open spec fn hit_placed(s: Seq<HitView>, h: HitView) -> Seq<HitView>
    decreases s.len(),
{
    if s.len() == 0 || hit_le(s.last(), h) {
        s.push(h)
    } else {
        hit_placed(s.drop_last(), h).push(s.last())
    }
}

pub open spec fn hits_sorted(s: Seq<HitView>) -> Seq<HitView>
    decreases s.len(),
{
    if s.len() == 0 {
        Seq::empty()
    } else {
        hit_placed(hits_sorted(s.drop_last()), s.last())
    }
}

pub open spec fn has_key(s: Seq<HitView>, key: Seq<char>) -> bool {
    exists|i: int| 0 <= i < s.len() && (#[trigger] s[i]).key == key
}

/// Each marker only where its key occurs first.
pub open spec fn first_by_key(s: Seq<HitView>) -> Seq<HitView>
    decreases s.len(),
{
    if s.len() == 0 {
        Seq::empty()
    } else {
        let rest = first_by_key(s.drop_last());
        if has_key(rest, s.last().key) {
            rest
        } else {
            rest.push(s.last())
        }
    }
}

/// Markers in a fixed order, each identity once. Markers sharing a key are one
/// task by design; without this, each duplicate would report a spurious move.
pub open spec fn settled(s: Seq<HitView>) -> Seq<HitView> {
    first_by_key(hits_sorted(s))
}

proof fn lemma_hit_placed(s: Seq<HitView>, h: HitView, k: int)
    requires
        0 <= k <= s.len(),
        k == 0 || hit_le(s[k - 1], h),
        forall|j: int| k <= j < s.len() ==> !hit_le(#[trigger] s[j], h),
    ensures
        hit_placed(s, h) == s.insert(k, h),
    decreases s.len(),
{
    if k == s.len() {
        assert(s.insert(k, h) =~= s.push(h));
    } else {
        assert(!hit_le(s[s.len() - 1], h));
        let r = s.drop_last();
        assert forall|j: int| k <= j < r.len() implies !hit_le(#[trigger] r[j], h) by {
            assert(r[j] == s[j]);
        }
        lemma_hit_placed(r, h, k);
        assert(r.insert(k, h).push(s.last()) =~= s.insert(k, h));
    }
}

fn hit_sorts(a: &Hit, b: &Hit) -> (r: bool)
    ensures
        r == hit_le(a@, b@),
{
    if same(a.file.as_str(), b.file.as_str()) {
        a.line <= b.line
    } else {
        sorts_before_or_same(a.file.as_str(), b.file.as_str())
    }
}

/// Puts markers in order and drops repeated ones, so that a scan produces the
/// same ids run to run.
pub fn settle(hits: Vec<Hit>) -> (r: Vec<Hit>)
    ensures
        hit_views(r@) == settled(hit_views(hits@)),
{
    let ghost all = hit_views(hits@);
    let mut sorted: Vec<Hit> = Vec::new();
    assert(hit_views(sorted@) =~= hits_sorted(all.take(0)));
    let mut i: usize = 0;
    while i < hits.len()
        invariant
            i <= hits@.len(),
            all == hit_views(hits@),
            hit_views(sorted@) == hits_sorted(all.take(i as int)),
        decreases hits@.len() - i,
    {
        let ghost was = sorted@;
        let mut k: usize = sorted.len();
        while k > 0 && !hit_sorts(&sorted[k - 1], &hits[i])
            invariant
                k <= sorted@.len(),
                i < hits@.len(),
                sorted@ == was,
                forall|j: int|
                    k <= j < was.len() ==> !hit_le(#[trigger] hit_views(was)[j], hits@[i as int]@),
            decreases k,
        {
            k -= 1;
        }
        proof {
            if k > 0 {
                assert(hit_views(was)[k - 1] == was[k - 1]@);
            }
            lemma_hit_placed(hit_views(was), hits@[i as int]@, k as int);
            assert(all.take(i + 1).drop_last() =~= all.take(i as int));
            assert(all.take(i + 1).last() == hits@[i as int]@);
        }
        sorted.insert(k, hits[i].clone());
        assert(hit_views(sorted@) =~= hit_views(was).insert(k as int, hits@[i as int]@));
        i += 1;
    }
    assert(all.take(i as int) =~= all);
    let ghost ordered = hit_views(sorted@);
    let mut out: Vec<Hit> = Vec::new();
    assert(hit_views(out@) =~= first_by_key(ordered.take(0)));
    let mut j: usize = 0;
    while j < sorted.len()
        invariant
            j <= sorted@.len(),
            ordered == hit_views(sorted@),
            hit_views(out@) == first_by_key(ordered.take(j as int)),
        decreases sorted@.len() - j,
    {
        let ghost was = out@;
        let known = knows_key(&out, sorted[j].key.as_str());
        if !known {
            out.push(sorted[j].clone());
        }
        proof {
            assert(ordered.take(j + 1).drop_last() =~= ordered.take(j as int));
            assert(ordered.take(j + 1).last() == sorted@[j as int]@);
            if !known {
                assert(hit_views(out@) =~= hit_views(was).push(sorted@[j as int]@));
            }
        }
        j += 1;
    }
    assert(ordered.take(j as int) =~= ordered);
    out
}

/// Whether some marker has this key.
pub fn knows_key(hits: &Vec<Hit>, key: &str) -> (r: bool)
    ensures
        r == has_key(hit_views(hits@), key@),
{
    let mut i: usize = 0;
    while i < hits.len()
        invariant
            i <= hits@.len(),
            forall|k: int| 0 <= k < i ==> (#[trigger] hit_views(hits@)[k]).key != key@,
        decreases hits@.len() - i,
    {
        if same(hits[i].key.as_str(), key) {
            assert(hit_views(hits@)[i as int].key == key@);
            return true;
        }
        i += 1;
    }
    false
}

/// The markers of several files, file by file.
pub open spec fn all_hits(sources: Seq<SourceView>) -> Seq<HitView>
    decreases sources.len(),
{
    if sources.len() == 0 {
        Seq::empty()
    } else {
        all_hits(sources.drop_last()) + source_hits(sources.last())
    }
}

/// The markers of several files, file by file.
pub fn gather(sources: &Vec<Source>) -> (r: Vec<Hit>)
    requires
        forall|i: int| 0 <= i < sources@.len() ==> countable((#[trigger] sources@[i])@),
    ensures
        hit_views(r@) == all_hits(source_views(sources@)),
{
    let ghost all = source_views(sources@);
    let mut hits: Vec<Hit> = Vec::new();
    assert(hit_views(hits@) =~= all_hits(all.take(0)));
    let mut i: usize = 0;
    while i < sources.len()
        invariant
            i <= sources@.len(),
            all == source_views(sources@),
            forall|k: int| 0 <= k < sources@.len() ==> countable((#[trigger] sources@[k])@),
            hit_views(hits@) == all_hits(all.take(i as int)),
        decreases sources@.len() - i,
    {
        let ghost was = hits@;
        let mut more = scan_source(&sources[i]);
        let ghost found = more@;
        hits.append(&mut more);
        proof {
            assert(hit_views(hits@) =~= hit_views(was) + hit_views(found));
            assert(all.take(i + 1).drop_last() =~= all.take(i as int));
            assert(all.take(i + 1).last() == sources@[i as int]@);
        }
        i += 1;
    }
    assert(all.take(i as int) =~= all);
    hits
}

/// Scans the files of the working tree for markers.
pub fn scan(sources: &Vec<Source>) -> (r: Vec<Hit>)
    requires
        forall|i: int| 0 <= i < sources@.len() ==> countable((#[trigger] sources@[i])@),
    ensures
        hit_views(r@) == settled(all_hits(source_views(sources@))),
{
    settle(gather(sources))
}

/// The names in a NUL-separated listing of files.
pub open spec fn listed(out: Seq<char>) -> Seq<Seq<char>> {
    pieces_of(out, '\0').filter(|p: Seq<char>| p.len() > 0)
}

/// What comes of asking git for the files of the working tree.
pub open spec fn listing(run: GitRun) -> Result<Seq<Seq<char>>, ErrorView> {
    match run {
        GitRun::NotFound { reason } => Err(ErrorView::ListingFailed { reason: reason@ }),
        GitRun::Failed { reason } => Err(ErrorView::ListingFailed { reason: reason@ }),
        GitRun::Exited { success, stdout } => if success {
            Ok(listed(lossy_text(stdout@)))
        } else {
            Err(ErrorView::ListingRefused)
        },
    }
}

/// Every file git considers part of the working tree: tracked, plus untracked
/// files that aren't ignored.
pub fn list_files(run: &GitRun) -> (r: Result<Vec<String>, Error>)
    ensures
        match r {
            Ok(names) => listing(*run) == Ok::<Seq<Seq<char>>, ErrorView>(views(names@)),
            Err(e) => listing(*run) == Err::<Seq<Seq<char>>, ErrorView>(e@),
        },
{
    match run {
        GitRun::NotFound { reason } => Err(Error::ListingFailed { reason: reason.clone() }),
        GitRun::Failed { reason } => Err(Error::ListingFailed { reason: reason.clone() }),
        GitRun::Exited { success, stdout } => {
            if *success {
                let text = decode_lossy(stdout);
                Ok(read_listing(text.as_str()))
            } else {
                Err(Error::ListingRefused)
            }
        },
    }
}

/// The names in a listing. NUL-separated: filenames may contain newlines.
pub fn read_listing(out: &str) -> (r: Vec<String>)
    ensures
        views(r@) == listed(out@),
{
    let all = split(out, '\0');
    let ghost p = |x: Seq<char>| x.len() > 0;
    let mut names: Vec<String> = Vec::new();
    let mut i: usize = 0;
    proof {
        reveal(Seq::filter);
        assert(views(names@) =~= views(all@).take(0).filter(p));
    }
    while i < all.len()
        invariant
            i <= all@.len(),
            p == |x: Seq<char>| x.len() > 0,
            views(names@) == views(all@).take(i as int).filter(p),
        decreases all@.len() - i,
    {
        let ghost before = names@;
        let named = !all[i].as_str().is_empty();
        if named {
            names.push(all[i].clone());
        }
        proof {
            reveal(Seq::filter);
            assert(views(all@).take(i + 1).drop_last() =~= views(all@).take(i as int));
            assert(views(all@).take(i + 1).last() == all@[i as int]@);
            if named {
                assert(views(names@) =~= views(before).push(all@[i as int]@));
            }
        }
        i += 1;
    }
    assert(views(all@).take(i as int) =~= views(all@));
    names
}

// ---------------------------------------------------------------------------
// What is left out
// ---------------------------------------------------------------------------

/// Where a comment begins on a trimmed line of a `.cltignore`: at a `#` after
/// blank space, at or after `i`.
pub open spec fn comment_start(s: Seq<char>, i: int) -> int
    decreases s.len() - i,
{
    if i < 1 || i >= s.len() || (s[i] == '#' && crate::text::is_white(s[i - 1])) {
        i
    } else {
        comment_start(s, i + 1)
    }
}

/// The pattern on a line of a `.cltignore`, if the line holds one.
pub open spec fn pattern_on(line: Seq<char>) -> Option<Seq<char>> {
    let t = trimmed(line);
    if t.len() == 0 || t[0] == '#' {
        None
    } else {
        Some(swapped(trimmed_end(t.take(comment_start(t, 1))), '\\', '/'))
    }
}

pub open spec fn patterns_on(lines: Seq<Seq<char>>, n: nat) -> Seq<Seq<char>>
    decreases n,
{
    if n == 0 {
        Seq::empty()
    } else {
        match pattern_on(lines[n - 1]) {
            Some(p) => patterns_on(lines, (n - 1) as nat).push(p),
            None => patterns_on(lines, (n - 1) as nat),
        }
    }
}

/// Patterns from a repo-root `.cltignore`, listing paths the scanner skips, one
/// to a line. A `#` at the start of a line or after blank space begins a
/// comment.
pub fn load_ignores(raw: &str) -> (r: Vec<String>)
    ensures
        views(r@) == patterns_on(lines_of(raw@), lines_of(raw@).len()),
{
    let all = lines(raw);
    let ghost ls = lines_of(raw@);
    let mut out: Vec<String> = Vec::new();
    assert(views(out@) =~= patterns_on(ls, 0));
    let mut i: usize = 0;
    while i < all.len()
        invariant
            i <= all@.len(),
            ls == views(all@),
            views(out@) == patterns_on(ls, i as nat),
        decreases all@.len() - i,
    {
        let ghost before = out@;
        assert(ls[i as int] == all@[i as int]@);
        let t = trim(all[i].as_str());
        let v = chars_of(t.as_str());
        if v.len() > 0 && v[0] != '#' {
            let mut k: usize = 1;
            while k < v.len() && !(v[k] == '#' && crate::text::is_whitespace(v[k - 1]))
                invariant
                    1 <= k <= v@.len(),
                    comment_start(v@, 1) == comment_start(v@, k as int),
                decreases v@.len() - k,
            {
                k += 1;
            }
            let head = string_of(&v, 0, k);
            assert(head@ =~= t@.take(comment_start(t@, 1)));
            let pattern = trim_end(head.as_str());
            out.push(swap_char(pattern.as_str(), '\\', '/'));
            assert(views(out@) =~= views(before).push(pattern_on(ls[i as int])->0));
        }
        i += 1;
    }
    out
}

/// `s` without the slashes at its end.
pub open spec fn unslashed(s: Seq<char>) -> Seq<char> {
    s.take(crate::text::run_start(s, 0, s.len() as int, crate::text::exactly('/')))
}

/// Whether a pattern covers a path: exactly, as a directory above it, or by
/// what stands before a trailing `*`.
pub open spec fn pattern_covers(pattern: Seq<char>, path: Seq<char>) -> bool {
    if ends(pattern, "*"@) {
        begins(path, pattern.drop_last())
    } else {
        path == pattern || begins(path, unslashed(pattern) + "/"@)
    }
}

fn covers(pattern: &str, path: &str) -> (r: bool)
    ensures
        r == pattern_covers(pattern@, path@),
{
    let v = chars_of(pattern);
    if ends_with(pattern, "*") {
        proof {
            reveal_strlit("*");
        }
        let n: usize = v.len() - 1;
        let prefix = string_of(&v, 0, n);
        assert(prefix@ =~= pattern@.drop_last());
        starts_with(path, prefix.as_str())
    } else if same(path, pattern) {
        true
    } else {
        let mut k: usize = v.len();
        while k > 0 && v[k - 1] == '/'
            invariant
                k <= v@.len(),
                crate::text::run_start(v@, 0, v@.len() as int, crate::text::exactly('/'))
                    == crate::text::run_start(v@, 0, k as int, crate::text::exactly('/')),
            decreases k,
        {
            k -= 1;
        }
        let mut dir = string_of(&v, 0, k);
        assert(dir@ =~= unslashed(pattern@));
        dir.append("/");
        starts_with(path, dir.as_str())
    }
}

/// Matches a repo-relative path against the patterns of a `.cltignore`.
///
/// Deliberately simple: exact match, directory prefix (`vendor/`), and a
/// trailing `*` wildcard.
pub fn is_ignored(path: &str, patterns: &Vec<String>) -> (r: bool)
    ensures
        r == exists|i: int|
            0 <= i < patterns@.len() && pattern_covers((#[trigger] patterns@[i])@, path@),
{
    let mut i: usize = 0;
    while i < patterns.len()
        invariant
            i <= patterns@.len(),
            forall|k: int| 0 <= k < i ==> !pattern_covers((#[trigger] patterns@[k])@, path@),
        decreases patterns@.len() - i,
    {
        if covers(patterns[i].as_str(), path) {
            return true;
        }
        i += 1;
    }
    false
}

/// Whether `path` is clt's own metadata.
pub open spec fn own_storage(path: Seq<char>) -> bool {
    path == ".clt"@ || begins(path, ".clt/"@) || path == ".cltignore"@
}

/// True if `path` is clt's own metadata, which is never scanned.
///
/// `.clt/` holds task titles, which would otherwise harvest themselves, and
/// `.cltignore` documents the marker syntax.
pub fn is_own_storage(path: &str) -> (r: bool)
    ensures
        r == own_storage(path@),
{
    same(path, ".clt") || starts_with(path, ".clt/") || same(path, ".cltignore")
}

// ---------------------------------------------------------------------------
// What a marker's identity survives
// ---------------------------------------------------------------------------

proof fn lemma_same_but_file(lines: Seq<Seq<char>>, f: Seq<char>, g: Seq<char>, n: nat)
    ensures
        hits_on(lines, f, n).len() == hits_on(lines, g, n).len(),
        forall|i: int|
            0 <= i < hits_on(lines, f, n).len() ==> (#[trigger] hits_on(lines, g, n)[i]) == (
            HitView { file: swapped(g, '\\', '/'), ..hits_on(lines, f, n)[i] }),
    decreases n,
{
    if n > 0 {
        lemma_same_but_file(lines, f, g, (n - 1) as nat);
        let a = hits_on(lines, f, (n - 1) as nat);
        let b = hits_on(lines, g, (n - 1) as nat);
        assert forall|i: int| 0 <= i < hits_on(lines, f, n).len() implies (#[trigger] hits_on(
            lines,
            g,
            n,
        )[i]) == (HitView { file: swapped(g, '\\', '/'), ..hits_on(lines, f, n)[i] }) by {
            if i < a.len() {
                assert(hits_on(lines, f, n)[i] == a[i]);
                assert(hits_on(lines, g, n)[i] == b[i]);
            }
        }
    }
}

/// Moving text to another file changes where its markers are, and nothing else
/// about them: neither how many there are, nor their keys, titles and lines.
pub proof fn law_identity_survives_a_move(text: Seq<char>, f: Seq<char>, g: Seq<char>)
    ensures
        hits_in(text, f).len() == hits_in(text, g).len(),
        forall|i: int|
            0 <= i < hits_in(text, f).len() ==> (#[trigger] hits_in(text, g)[i]) == (HitView {
                file: swapped(g, '\\', '/'),
                ..hits_in(text, f)[i]
            }),
{
    lemma_same_but_file(lines_of(text), f, g, lines_of(text).len());
}

/// Whether `w` is a word: not empty, and without blank space.
spec fn is_word(w: Seq<char>) -> bool {
    w.len() > 0 && forall|i: int| 0 <= i < w.len() ==> !crate::text::is_white(#[trigger] w[i])
}

proof fn lemma_words_are_words(s: Seq<char>, i: int)
    requires
        0 <= i <= s.len(),
    ensures
        forall|k: int|
            0 <= k < crate::text::words_from(s, i).len() ==> is_word(
                #[trigger] crate::text::words_from(s, i)[k],
            ),
    decreases s.len() - i,
{
    let a = crate::text::run_end(s, i, crate::text::white());
    crate::text::lemma_run_end(s, i, crate::text::white());
    if a < s.len() {
        let b = crate::text::run_end(s, a, crate::text::black());
        crate::text::lemma_run_end(s, a, crate::text::black());
        crate::text::lemma_run_end(s, a + 1, crate::text::black());
        lemma_words_are_words(s, b);
        let w = s.subrange(a, b);
        assert(is_word(w)) by {
            assert forall|k: int| 0 <= k < w.len() implies !crate::text::is_white(#[trigger] w[k]) by {
                assert(crate::text::black()(s[a + k]));
            }
        }
        let all = crate::text::words_from(s, i);
        assert forall|k: int| 0 <= k < all.len() implies is_word(#[trigger] all[k]) by {
            if k > 0 {
                assert(all[k] == crate::text::words_from(s, b)[k - 1]);
            }
        }
    }
}

/// Words joined by blanks, split again, are the words.
proof fn lemma_words_of_joined(ws: Seq<Seq<char>>)
    requires
        forall|k: int| 0 <= k < ws.len() ==> is_word(#[trigger] ws[k]),
    ensures
        words_of(joined(ws, " "@)) == ws,
{
    let s = joined(ws, " "@);
    lemma_words_after(ws, 0);
    assert(prefix_len(ws, 0) == 0);
    assert(ws.skip(0) =~= ws);
    if ws.len() == 0 {
        assert(words_of(s) =~= ws);
    }
}

/// Where word `n` begins among the joined words.
spec fn prefix_len(ws: Seq<Seq<char>>, n: nat) -> nat {
    if n == 0 {
        0
    } else {
        joined(ws.take(n as int), " "@).len() + 1
    }
}

/// The joined words, up to and with word `n`.
proof fn lemma_joined_take(ws: Seq<Seq<char>>, n: nat)
    requires
        n < ws.len(),
    ensures
        joined(ws.take((n + 1) as int), " "@).len() == prefix_len(ws, n) + ws[n as int].len(),
        joined(ws.take((n + 1) as int), " "@).skip(prefix_len(ws, n) as int) == ws[n as int],
        n > 0 ==> joined(ws.take((n + 1) as int), " "@)[prefix_len(ws, n) - 1] == ' ',
{
    reveal_strlit(" ");
    let t = ws.take((n + 1) as int);
    assert(t.last() == ws[n as int]);
    if n > 0 {
        assert(t.drop_last() =~= ws.take(n as int));
        let j = joined(t, " "@);
        assert(j == joined(ws.take(n as int), " "@) + " "@ + ws[n as int]);
        assert(j.skip(prefix_len(ws, n) as int) =~= ws[n as int]);
    } else {
        assert(joined(t, " "@) =~= ws[0]);
        assert(ws[0].skip(0) =~= ws[0]);
    }
}

/// Joining fewer words gives a beginning of joining more.
proof fn lemma_joined_prefix(ws: Seq<Seq<char>>, n: nat, m: nat)
    requires
        n <= m <= ws.len(),
        0 < n,
    ensures
        joined(ws.take(n as int), " "@).len() <= joined(ws.take(m as int), " "@).len(),
        forall|i: int|
            0 <= i < joined(ws.take(n as int), " "@).len() ==> #[trigger] joined(
                ws.take(n as int),
                " "@,
            )[i] == joined(ws.take(m as int), " "@)[i],
        n < m ==> joined(ws.take(n as int), " "@).len() < joined(ws.take(m as int), " "@).len() && joined(
            ws.take(m as int),
            " "@,
        )[joined(ws.take(n as int), " "@).len() as int] == ' ',
    decreases m - n,
{
    reveal_strlit(" ");
    if n < m {
        lemma_joined_prefix(ws, n, (m - 1) as nat);
        let t = ws.take(m as int);
        assert(t.drop_last() =~= ws.take(m - 1));
        assert(joined(t, " "@) == joined(ws.take(m - 1), " "@) + " "@ + t.last());
    }
}

proof fn lemma_words_after(ws: Seq<Seq<char>>, n: nat)
    requires
        n <= ws.len(),
        forall|k: int| 0 <= k < ws.len() ==> is_word(#[trigger] ws[k]),
    ensures
        n < ws.len() ==> crate::text::words_from(
            joined(ws, " "@),
            prefix_len(ws, n) as int,
        ) == ws.skip(n as int),
        n < ws.len() ==> prefix_len(ws, n) <= joined(ws, " "@).len(),
        n == 0 && ws.len() == 0 ==> words_of(joined(ws, " "@)) == ws,
    decreases ws.len() - n,
{
    let s = joined(ws, " "@);
    let white = crate::text::white();
    let black = crate::text::black();
    assert(ws.take(ws.len() as int) =~= ws);
    if ws.len() == 0 {
        assert(words_of(s) =~= ws);
    } else if n < ws.len() {
        lemma_words_after(ws, n + 1);
        lemma_joined_take(ws, n);
        lemma_joined_prefix(ws, n + 1, ws.len());
        let a = prefix_len(ws, n) as int;
        let w = ws[n as int];
        let t = joined(ws.take((n + 1) as int), " "@);
        let b = a + w.len();
        assert(is_word(w));
        assert(t.len() == b);
        assert(s.subrange(a, b) =~= w) by {
            assert forall|i: int| 0 <= i < w.len() implies s[a + i] == w[i] by {
                assert(t[a + i] == t.skip(a)[i]);
                assert(t[a + i] == s[a + i]);
            }
        }
        assert(!crate::text::is_white(s[a])) by {
            assert(s.subrange(a, b)[0] == w[0]);
        }
        assert(crate::text::run_end(s, a, white) == a);
        assert forall|i: int| a <= i < b implies !crate::text::is_white(#[trigger] s[i]) by {
            assert(s.subrange(a, b)[i - a] == w[i - a]);
        }
        lemma_run_exactly(s, a, b);
        if n + 1 < ws.len() {
            assert(prefix_len(ws, n + 1) == b + 1);
            assert(s[b] == ' ');
            assert(crate::text::is_white(' '));
            assert(crate::text::run_end(s, b, white) == crate::text::run_end(s, b + 1, white));
            crate::text::lemma_run_end(s, b + 1, white);
            crate::text::lemma_words_skip(s, b);
            crate::text::lemma_words_skip(s, b + 1);
            assert(crate::text::words_from(s, b) == ws.skip((n + 1) as int));
        } else {
            assert(ws.take((n + 1) as int) =~= ws);
            assert(b == s.len());
            assert(crate::text::words_from(s, b) =~= Seq::empty());
            assert(ws.skip((n + 1) as int) =~= Seq::empty());
        }
        assert(ws.skip(n as int) =~= seq![w] + ws.skip((n + 1) as int));
    }
}

/// A run without blank space that ends at blank space or at the end.
proof fn lemma_run_exactly(s: Seq<char>, a: int, b: int)
    requires
        0 <= a <= b <= s.len(),
        forall|i: int| a <= i < b ==> !crate::text::is_white(#[trigger] s[i]),
        b < s.len() ==> crate::text::is_white(s[b]),
    ensures
        crate::text::run_end(s, a, crate::text::black()) == b,
    decreases b - a,
{
    if a < b {
        lemma_run_exactly(s, a + 1, b);
    }
}

/// Collapsing runs of blank space, or adding some, does not change a marker's
/// identity: it depends on the words alone.
pub proof fn law_identity_survives_respacing(lower: Seq<char>)
    ensures
        words_of(joined(words_of(lower), " "@)) == words_of(lower),
        key_of_lower(joined(words_of(lower), " "@)) == key_of_lower(lower),
{
    lemma_words_are_words(lower, 0);
    lemma_words_of_joined(words_of(lower));
}

/// A pattern without blank space at its start is found in indented text where
/// it was, shifted.
proof fn lemma_first_at_indented(indent: Seq<char>, s: Seq<char>, pat: Seq<char>, i: int)
    requires
        is_blank(indent),
        pat.len() > 0,
        !crate::text::is_white(pat[0]),
        0 <= i <= indent.len() + s.len(),
    ensures
        first_at(indent + s, pat, i) == (match first_at(s, pat, if i < indent.len() {
            0
        } else {
            i - indent.len()
        }) {
            Some(k) => Some(k + indent.len()),
            None => None,
        }),
    decreases indent.len() + s.len() - i,
{
    let t = indent + s;
    let n = indent.len();
    if i < n {
        assert(!crate::text::occurs_at(t, pat, i)) by {
            if crate::text::occurs_at(t, pat, i) {
                assert(t.subrange(i, i + pat.len())[0] == t[i]);
                assert(crate::text::is_white(indent[i]));
            }
        }
        lemma_first_at_indented(indent, s, pat, i + 1);
    } else {
        lemma_occurs_indented(indent, s, pat, i);
        if !crate::text::occurs_at(t, pat, i) && i < t.len() {
            lemma_first_at_indented(indent, s, pat, i + 1);
        }
    }
}

proof fn lemma_occurs_indented(indent: Seq<char>, s: Seq<char>, pat: Seq<char>, i: int)
    requires
        indent.len() <= i,
    ensures
        crate::text::occurs_at(indent + s, pat, i) == crate::text::occurs_at(
            s,
            pat,
            i - indent.len(),
        ),
{
    let t = indent + s;
    let n = indent.len();
    if i + pat.len() <= t.len() {
        assert(t.subrange(i, i + pat.len()) =~= s.subrange(i - n, i - n + pat.len()));
    }
}

/// A pattern without blank space at its start occurs in indented text exactly
/// where it occurs in the text.
proof fn lemma_has_indented(indent: Seq<char>, s: Seq<char>, pat: Seq<char>)
    requires
        is_blank(indent),
        pat.len() > 0,
        !crate::text::is_white(pat[0]),
    ensures
        has(indent + s, pat) == has(s, pat),
{
    let t = indent + s;
    let n = indent.len();
    if has(t, pat) {
        let i = choose|i: int| crate::text::occurs_at(t, pat, i);
        if i < n {
            assert(t.subrange(i, i + pat.len())[0] == t[i]);
            assert(crate::text::is_white(indent[i]));
        } else {
            lemma_occurs_indented(indent, s, pat, i);
            assert(crate::text::occurs_at(s, pat, i - n));
        }
    }
    if has(s, pat) {
        let i = choose|i: int| crate::text::occurs_at(s, pat, i);
        lemma_occurs_indented(indent, s, pat, i + n);
        assert(crate::text::occurs_at(t, pat, i + n));
    }
}

proof fn lemma_quotes_indented(indent: Seq<char>, s: Seq<char>, i: int)
    requires
        is_blank(indent),
        0 <= i,
    ensures
        quotes_from(indent + s, i) == quotes_from(s, if i < indent.len() {
            0
        } else {
            i - indent.len()
        }),
    decreases indent.len() + s.len() + 1 - i,
{
    let t = indent + s;
    let n = indent.len();
    if i < n {
        assert(t[i] == indent[i]);
        assert(crate::text::is_white(indent[i]));
        lemma_quotes_indented(indent, s, i + 1);
    } else if i < t.len() {
        assert(t[i] == s[i - n]);
        if t[i] == '\\' {
            if i + 2 <= t.len() {
                lemma_quotes_indented(indent, s, i + 2);
            } else {
                assert(quotes_from(t, i + 2) == 0 && quotes_from(s, i - n + 2) == 0);
            }
        } else {
            lemma_quotes_indented(indent, s, i + 1);
        }
    }
}

proof fn lemma_trimmed_end_indented(indent: Seq<char>, s: Seq<char>)
    requires
        is_blank(indent),
    ensures
        is_blank(trimmed_end(indent + s)) == is_blank(trimmed_end(s)),
        !is_blank(trimmed_end(s)) ==> trimmed_end(indent + s) == indent + trimmed_end(s),
{
    let white = crate::text::white();
    let t = indent + s;
    let n = indent.len();
    let a = crate::text::run_start(s, 0, s.len() as int, white);
    let b = crate::text::run_start(t, 0, t.len() as int, white);
    crate::text::lemma_run_start(s, 0, s.len() as int, white);
    crate::text::lemma_run_start(t, 0, t.len() as int, white);
    if a > 0 {
        assert(!white(s[a - 1]));
        assert(t[n + a - 1] == s[a - 1]);
        assert(b == n + a) by {
            if b < n + a {
                assert(white(t[n + a - 1]));
            }
            if b > n + a {
                assert(!white(t[b - 1]));
                assert(t[b - 1] == s[b - 1 - n]);
                assert(white(s[b - 1 - n]));
            }
        }
        assert(t.take(b) =~= indent + s.take(a));
        assert(trimmed_end(s)[a - 1] == s[a - 1]);
        assert(trimmed_end(t)[b - 1] == s[a - 1]);
        assert(!is_blank(trimmed_end(s)));
        assert(!is_blank(trimmed_end(t)));
    } else {
        assert(b == 0) by {
            if b > 0 {
                assert(!white(t[b - 1]));
                if b - 1 < n {
                    assert(crate::text::is_white(indent[b - 1]));
                } else {
                    assert(white(s[b - 1 - n]));
                }
            }
        }
    }
}

proof fn lemma_in_comment_indented(indent: Seq<char>, s: Seq<char>)
    requires
        is_blank(indent),
    ensures
        in_comment(indent + s) == in_comment(s),
{
    lemma_quotes_indented(indent, s, 0);
    if indent.len() == 0 {
        assert(indent + s =~= s);
    }
    lemma_trimmed_end_indented(indent, s);
    if !is_blank(trimmed_end(s)) {
        let e = trimmed_end(s);
        reveal_strlit("//");
        reveal_strlit("#");
        reveal_strlit("/*");
        reveal_strlit("*");
        reveal_strlit("<!--");
        reveal_strlit("--");
        reveal_strlit(";");
        reveal_strlit("%");
        reveal_strlit("\"\"\"");
        reveal_strlit("'''");
        lemma_has_indented(indent, e, "//"@);
        lemma_has_indented(indent, e, "#"@);
        lemma_has_indented(indent, e, "/*"@);
        lemma_has_indented(indent, e, "*"@);
        lemma_has_indented(indent, e, "<!--"@);
        lemma_has_indented(indent, e, "--"@);
        lemma_has_indented(indent, e, ";"@);
        lemma_has_indented(indent, e, "%"@);
        lemma_has_indented(indent, e, "\"\"\""@);
        lemma_has_indented(indent, e, "'''"@);
    }
}

proof fn lemma_after_marker_indented(indent: Seq<char>, line: Seq<char>, marker: Seq<char>)
    requires
        is_blank(indent),
        marker.len() > 0,
        !crate::text::is_white(marker[0]),
    ensures
        after_marker(indent + line, marker) == after_marker(line, marker),
{
    let t = indent + line;
    let n = indent.len();
    lemma_first_at_indented(indent, line, marker, 0);
    if n == 0 {
        assert(t =~= line);
    }
    if let Some(i) = first_at(line, marker, 0) {
        lemma_first_at_bound(line, marker, 0);
        assert(t.take(i + n) =~= indent + line.take(i));
        lemma_in_comment_indented(indent, line.take(i));
        assert(t.skip(i + n + marker.len()) =~= line.skip(i + marker.len()));
    }
}

proof fn lemma_first_at_bound(s: Seq<char>, pat: Seq<char>, i: int)
    requires
        0 <= i,
    ensures
        first_at(s, pat, i) matches Some(k) ==> i <= k && k + pat.len() <= s.len(),
    decreases s.len() - i + 1,
{
    if i <= s.len() && !crate::text::occurs_at(s, pat, i) {
        lemma_first_at_bound(s, pat, i + 1);
    }
}

/// Indenting a line differently does not change what its marker says, nor
/// whether it has one.
pub proof fn law_marker_survives_indenting(indent: Seq<char>, line: Seq<char>)
    requires
        is_blank(indent),
    ensures
        marker_text(indent + line) == marker_text(line),
{
    reveal_strlit("TODO(clt)");
    reveal_strlit("FIXME(clt)");
    lemma_after_marker_indented(indent, line, "TODO(clt)"@);
    lemma_after_marker_indented(indent, line, "FIXME(clt)"@);
}

/// Markers, `n` lines further down.
pub open spec fn moved_down(hits: Seq<HitView>, n: nat) -> Seq<HitView> {
    Seq::new(hits.len(), |i: int| HitView { line: (hits[i].line + n) as u32, ..hits[i] })
}

/// Scanning a text made of two is scanning the one and then the other, whose
/// lines are counted on from those of the first. The first has to end with a
/// line, as a line that is split in two is neither.
pub proof fn law_scanning_goes_line_by_line(a: Seq<char>, b: Seq<char>, file: Seq<char>)
    requires
        a.len() == 0 || a.last() == '\n',
        lines_of(a).len() + lines_of(b).len() <= u32::MAX,
    ensures
        hits_in(a + b, file) == hits_in(a, file) + moved_down(
            hits_in(b, file),
            lines_of(a).len(),
        ),
{
    let la = lines_of(a);
    let lb = lines_of(b);
    lemma_lines_of_two(a, b);
    lemma_hits_of_two(la, lb, file, lb.len());
    assert((la + lb).len() == la.len() + lb.len());
}

proof fn lemma_hits_of_first(la: Seq<Seq<char>>, lb: Seq<Seq<char>>, file: Seq<char>, n: nat)
    requires
        n <= la.len(),
    ensures
        hits_on(la + lb, file, n) == hits_on(la, file, n),
    decreases n,
{
    if n > 0 {
        lemma_hits_of_first(la, lb, file, (n - 1) as nat);
        assert((la + lb)[n - 1] == la[n - 1]);
    }
}

proof fn lemma_hits_of_two(la: Seq<Seq<char>>, lb: Seq<Seq<char>>, file: Seq<char>, n: nat)
    requires
        n <= lb.len(),
        la.len() + lb.len() <= u32::MAX,
    ensures
        hits_on(la + lb, file, la.len() + n) == hits_on(la, file, la.len()) + moved_down(
            hits_on(lb, file, n),
            la.len(),
        ),
    decreases n,
{
    let k = la.len();
    if n == 0 {
        lemma_hits_of_first(la, lb, file, k);
        assert(hits_on(la + lb, file, k) =~= hits_on(la, file, k) + moved_down(
            hits_on(lb, file, 0),
            k,
        ));
    } else {
        let m = (n - 1) as nat;
        lemma_hits_of_two(la, lb, file, m);
        assert((la + lb)[k + n - 1] == lb[n - 1]);
        if let Some(h) = hit_on(lb[n - 1], file, n) {
            let down = HitView { line: (h.line + k) as u32, ..h };
            assert(hit_on(lb[n - 1], file, k + n) == Some(down));
            assert(moved_down(hits_on(lb, file, n), k) =~= moved_down(
                hits_on(lb, file, m),
                k,
            ).push(down));
        }
        assert(hits_on(la + lb, file, k + n) =~= hits_on(la, file, k) + moved_down(
            hits_on(lb, file, n),
            k,
        ));
    }
}

/// Whether the only blank space in a text is single spaces, with none at either
/// end.
pub open spec fn single_spaced(t: Seq<char>) -> bool {
    forall|i: int|
        0 <= i < t.len() && is_white(#[trigger] t[i]) ==> t[i] == ' ' && 0 < i < t.len() - 1
            && !is_white(t[i + 1])
}

/// Markers come in the order of their lines, one to a line. Each says something,
/// in single-spaced words; its identity is that of its title; and its file is
/// spelled with forward slashes.
pub proof fn law_markers_are_in_order(text: Seq<char>, file: Seq<char>)
    requires
        lines_of(text).len() <= u32::MAX,
    ensures
        ({
            let hits = hits_in(text, file);
            &&& forall|i: int, j: int|
                0 <= i < j < hits.len() ==> (#[trigger] hits[i]).line < (#[trigger] hits[j]).line
            &&& forall|i: int|
                0 <= i < hits.len() ==> {
                    &&& 1 <= (#[trigger] hits[i]).line <= lines_of(text).len()
                    &&& hits[i].title.len() > 0
                    &&& single_spaced(hits[i].title)
                    &&& hits[i].key == key_of(hits[i].title)
                    &&& hits[i].file == swapped(file, '\\', '/')
                }
        }),
{
    lemma_markers_in_order(lines_of(text), file, lines_of(text).len());
}

proof fn lemma_markers_in_order(lines: Seq<Seq<char>>, file: Seq<char>, n: nat)
    requires
        n <= lines.len() <= u32::MAX,
    ensures
        ({
            let hits = hits_on(lines, file, n);
            &&& forall|i: int, j: int|
                0 <= i < j < hits.len() ==> (#[trigger] hits[i]).line < (#[trigger] hits[j]).line
            &&& forall|i: int|
                0 <= i < hits.len() ==> {
                    &&& 1 <= (#[trigger] hits[i]).line <= n
                    &&& hits[i].title.len() > 0
                    &&& single_spaced(hits[i].title)
                    &&& hits[i].key == key_of(hits[i].title)
                    &&& hits[i].file == swapped(file, '\\', '/')
                }
        }),
    decreases n,
{
    if n > 0 {
        let before = hits_on(lines, file, (n - 1) as nat);
        let hits = hits_on(lines, file, n);
        lemma_markers_in_order(lines, file, (n - 1) as nat);
        if let Some(body) = marker_text(lines[n - 1]) {
            let ws = words_of(without_tails(body));
            lemma_words_are_words(without_tails(body), 0);
            lemma_joined_single_spaced(ws);
        }
        assert forall|i: int| 0 <= i < hits.len() implies {
            &&& 1 <= (#[trigger] hits[i]).line <= n
            &&& hits[i].title.len() > 0
            &&& single_spaced(hits[i].title)
            &&& hits[i].key == key_of(hits[i].title)
            &&& hits[i].file == swapped(file, '\\', '/')
        } by {
            if i < before.len() {
                assert(hits[i] == before[i]);
            } else {
                assert(Some(hits[i]) == hit_on(lines[n - 1], file, n));
            }
        }
        assert forall|i: int, j: int| 0 <= i < j < hits.len() implies (#[trigger] hits[i]).line < (
        #[trigger] hits[j]).line by {
            assert(hits[i] == before[i]);
            if j < before.len() {
                assert(hits[j] == before[j]);
            }
        }
    }
}

proof fn lemma_joined_single_spaced(ws: Seq<Seq<char>>)
    requires
        forall|k: int| 0 <= k < ws.len() ==> is_word(#[trigger] ws[k]),
    ensures
        single_spaced(joined(ws, " "@)),
        ws.len() > 0 ==> joined(ws, " "@).len() > 0,
    decreases ws.len(),
{
    reveal_strlit(" ");
    let t = joined(ws, " "@);
    if ws.len() == 1 {
        assert(is_word(ws[0]));
    } else if ws.len() > 1 {
        let r = ws.drop_last();
        let w = ws.last();
        assert forall|k: int| 0 <= k < r.len() implies is_word(#[trigger] r[k]) by {
            assert(r[k] == ws[k]);
        }
        lemma_joined_single_spaced(r);
        let u = joined(r, " "@);
        assert(is_word(ws[ws.len() - 1]));
        assert(t == u + " "@ + w);
        assert forall|i: int| 0 <= i < t.len() && is_white(#[trigger] t[i]) implies t[i] == ' '
            && 0 < i < t.len() - 1 && !is_white(t[i + 1]) by {
            if i < u.len() {
                assert(t[i] == u[i]);
                assert(t[i + 1] == u[i + 1]);
            } else if i == u.len() {
                assert(t[i + 1] == w[0]);
            } else {
                assert(t[i] == w[i - u.len() - 1]);
            }
        }
    }
}

/// A settled list names each identity once, and exactly the identities that
/// were found.
pub proof fn law_settling_keeps_every_identity_once(s: Seq<HitView>)
    ensures
        forall|i: int, j: int|
            0 <= i < j < settled(s).len() ==> (#[trigger] settled(s)[i]).key != (
            #[trigger] settled(s)[j]).key,
        forall|key: Seq<char>| #[trigger] has_key(settled(s), key) <==> has_key(s, key),
{
    let t = hits_sorted(s);
    lemma_first_by_key(t);
    lemma_sorted_keys(s);
    assert forall|key: Seq<char>| #[trigger] has_key(settled(s), key) <==> has_key(s, key) by {
        assert(has_key(t, key) <==> has_key(s, key));
        assert(has_key(first_by_key(t), key) <==> has_key(t, key));
    }
}

/// Settling makes nothing up.
pub proof fn lemma_settled_are_found(s: Seq<HitView>)
    ensures
        forall|i: int| 0 <= i < settled(s).len() ==> s.contains(#[trigger] settled(s)[i]),
{
    let t = hits_sorted(s);
    lemma_first_are_found(t);
    lemma_sorted_are_found(s);
    assert forall|i: int| 0 <= i < settled(s).len() implies s.contains(#[trigger] settled(s)[i]) by {
        assert(t.contains(settled(s)[i]));
        let k = choose|k: int| 0 <= k < t.len() && t[k] == settled(s)[i];
        assert(s.contains(t[k]));
    }
}

proof fn lemma_first_are_found(s: Seq<HitView>)
    ensures
        forall|i: int| 0 <= i < first_by_key(s).len() ==> s.contains(#[trigger] first_by_key(s)[i]),
    decreases s.len(),
{
    if s.len() > 0 {
        let r = s.drop_last();
        lemma_first_are_found(r);
        assert(s[s.len() - 1] == s.last());
        assert forall|i: int| 0 <= i < first_by_key(s).len() implies s.contains(
            #[trigger] first_by_key(s)[i],
        ) by {
            if i < first_by_key(r).len() {
                assert(first_by_key(s)[i] == first_by_key(r)[i]);
                let k = choose|k: int| 0 <= k < r.len() && r[k] == first_by_key(r)[i];
                assert(s[k] == r[k]);
            }
        }
    }
}

proof fn lemma_placed_are_found(s: Seq<HitView>, h: HitView)
    ensures
        forall|i: int|
            0 <= i < hit_placed(s, h).len() ==> (#[trigger] hit_placed(s, h)[i]) == h || s.contains(
                hit_placed(s, h)[i],
            ),
    decreases s.len(),
{
    if s.len() > 0 && !hit_le(s.last(), h) {
        let r = s.drop_last();
        lemma_placed_are_found(r, h);
        assert(s[s.len() - 1] == s.last());
        assert forall|i: int| 0 <= i < hit_placed(s, h).len() implies (#[trigger] hit_placed(
            s,
            h,
        )[i]) == h || s.contains(hit_placed(s, h)[i]) by {
            if i < hit_placed(r, h).len() {
                let x = hit_placed(r, h)[i];
                assert(hit_placed(s, h)[i] == x);
                if x != h {
                    let k = choose|k: int| 0 <= k < r.len() && r[k] == x;
                    assert(s[k] == x);
                }
            }
        }
    } else {
        assert forall|i: int| 0 <= i < hit_placed(s, h).len() implies (#[trigger] hit_placed(
            s,
            h,
        )[i]) == h || s.contains(hit_placed(s, h)[i]) by {
            if i < s.len() {
                assert(s[i] == hit_placed(s, h)[i]);
            }
        }
    }
}

proof fn lemma_sorted_are_found(s: Seq<HitView>)
    ensures
        forall|i: int| 0 <= i < hits_sorted(s).len() ==> s.contains(#[trigger] hits_sorted(s)[i]),
    decreases s.len(),
{
    if s.len() > 0 {
        let r = s.drop_last();
        lemma_sorted_are_found(r);
        lemma_placed_are_found(hits_sorted(r), s.last());
        assert(s[s.len() - 1] == s.last());
        assert forall|i: int| 0 <= i < hits_sorted(s).len() implies s.contains(
            #[trigger] hits_sorted(s)[i],
        ) by {
            let x = hits_sorted(s)[i];
            if x != s.last() {
                assert(hits_sorted(r).contains(x));
                let j = choose|j: int| 0 <= j < hits_sorted(r).len() && hits_sorted(r)[j] == x;
                assert(r.contains(hits_sorted(r)[j]));
                let k = choose|k: int| 0 <= k < r.len() && r[k] == x;
                assert(s[k] == x);
            }
        }
    }
}

proof fn lemma_has_key_push(s: Seq<HitView>, h: HitView)
    ensures
        forall|key: Seq<char>| #[trigger]
            has_key(s.push(h), key) <==> has_key(s, key) || h.key == key,
{
    let t = s.push(h);
    assert forall|key: Seq<char>| #[trigger] has_key(t, key) <==> has_key(s, key) || h.key == key by {
        if has_key(s, key) {
            let i = choose|i: int| 0 <= i < s.len() && (#[trigger] s[i]).key == key;
            assert(t[i].key == key);
        }
        if h.key == key {
            assert(t[s.len() as int].key == key);
        }
        if has_key(t, key) && h.key != key {
            let i = choose|i: int| 0 <= i < t.len() && (#[trigger] t[i]).key == key;
            assert(s[i].key == key);
        }
    }
}

proof fn lemma_first_by_key(s: Seq<HitView>)
    ensures
        forall|i: int, j: int|
            0 <= i < j < first_by_key(s).len() ==> (#[trigger] first_by_key(s)[i]).key != (
            #[trigger] first_by_key(s)[j]).key,
        forall|key: Seq<char>| #[trigger] has_key(first_by_key(s), key) <==> has_key(s, key),
    decreases s.len(),
{
    if s.len() > 0 {
        let r = s.drop_last();
        lemma_first_by_key(r);
        lemma_has_key_push(r, s.last());
        assert(s =~= r.push(s.last()));
        let f = first_by_key(r);
        lemma_has_key_push(f, s.last());
        let q = first_by_key(s);
        assert forall|i: int, j: int| 0 <= i < j < q.len() implies (#[trigger] q[i]).key
            != (#[trigger] q[j]).key by {
            assert(q[i] == f[i]);
            if j < f.len() {
                assert(q[j] == f[j]);
            }
        }
        assert forall|key: Seq<char>| #[trigger] has_key(q, key) <==> has_key(s, key) by {
            assert(has_key(f, key) <==> has_key(r, key));
            assert(has_key(f.push(s.last()), key) <==> has_key(f, key) || s.last().key == key);
            assert(has_key(r.push(s.last()), key) <==> has_key(r, key) || s.last().key == key);
        }
    }
}

proof fn lemma_placed_keys(s: Seq<HitView>, h: HitView)
    ensures
        forall|key: Seq<char>| #[trigger]
            has_key(hit_placed(s, h), key) <==> has_key(s, key) || h.key == key,
    decreases s.len(),
{
    if s.len() == 0 || hit_le(s.last(), h) {
        lemma_has_key_push(s, h);
    } else {
        let r = s.drop_last();
        lemma_placed_keys(r, h);
        lemma_has_key_push(hit_placed(r, h), s.last());
        lemma_has_key_push(r, s.last());
        assert(s =~= r.push(s.last()));
        assert forall|key: Seq<char>| #[trigger] has_key(hit_placed(s, h), key) <==> has_key(s, key)
            || h.key == key by {
            assert(has_key(hit_placed(r, h), key) <==> has_key(r, key) || h.key == key);
            assert(has_key(r.push(s.last()), key) <==> has_key(r, key) || s.last().key == key);
        }
    }
}

proof fn lemma_sorted_keys(s: Seq<HitView>)
    ensures
        forall|key: Seq<char>| #[trigger] has_key(hits_sorted(s), key) <==> has_key(s, key),
    decreases s.len(),
{
    if s.len() > 0 {
        let r = s.drop_last();
        lemma_sorted_keys(r);
        lemma_placed_keys(hits_sorted(r), s.last());
        lemma_has_key_push(r, s.last());
        assert(s =~= r.push(s.last()));
        assert forall|key: Seq<char>| #[trigger] has_key(hits_sorted(s), key) <==> has_key(s, key) by {
            assert(has_key(hits_sorted(r), key) <==> has_key(r, key));
            assert(has_key(r.push(s.last()), key) <==> has_key(r, key) || s.last().key == key);
        }
    } else {
        assert(hits_sorted(s) =~= s);
    }
}

/// Quotes from somewhere on in the second of two texts are counted there.
proof fn lemma_quotes_of_second(s: Seq<char>, t: Seq<char>, j: int)
    requires
        0 <= j,
    ensures
        quotes_from(s + t, s.len() + j) == quotes_from(t, j),
    decreases t.len() + 1 - j,
{
    if j < t.len() {
        assert((s + t)[s.len() + j] == t[j]);
        lemma_quotes_of_second(s, t, j + 1);
        lemma_quotes_of_second(s, t, j + 2);
    }
}

/// Quotes of two texts, the first of which escapes nothing, add up.
proof fn lemma_quotes_of_two(s: Seq<char>, t: Seq<char>, i: int)
    requires
        0 <= i <= s.len(),
        !s.contains('\\'),
    ensures
        quotes_from(s + t, i) == quotes_from(s, i) + quotes_from(t, 0),
    decreases s.len() - i,
{
    if i < s.len() {
        assert((s + t)[i] == s[i]);
        assert(s.contains(s[i]));
        lemma_quotes_of_two(s, t, i + 1);
    } else {
        lemma_quotes_of_second(s, t, 0);
    }
}

/// A double quote opens a string literal, and the next one closes it; nothing
/// else does, and what stands after a backslash does not count.
pub proof fn law_quotes_open_and_close_literals(s: Seq<char>, c: char, t: Seq<char>)
    requires
        !s.contains('\\'),
    ensures
        !in_literal(Seq::empty()),
        in_literal(s.push('"')) == !in_literal(s),
        c != '"' && c != '\\' ==> in_literal(s.push(c)) == in_literal(s),
        in_literal(s + seq!['\\', c] + t) == in_literal(s + t),
{
    let q = seq!['"'];
    assert(s.push('"') =~= s + q);
    lemma_quotes_of_two(s, q, 0);
    assert(quotes_from(q, 0) == 1 + quotes_from(q, 1));
    let o = seq![c];
    assert(s.push(c) =~= s + o);
    lemma_quotes_of_two(s, o, 0);
    if c != '"' && c != '\\' {
        assert(quotes_from(o, 0) == quotes_from(o, 1));
    }
    let e = seq!['\\', c];
    assert(s + e + t =~= s + (e + t));
    lemma_quotes_of_two(s, e + t, 0);
    lemma_quotes_of_two(s, t, 0);
    assert((e + t)[0] == '\\');
    assert(quotes_from(e + t, 0) == quotes_from(e + t, 2));
    lemma_quotes_of_second(e, t, 0);
}

/// Whether one of the marks that open a comment stands somewhere in a text.
pub open spec fn opens_somewhere(s: Seq<char>) -> bool {
    ||| has(s, seq!['/', '/'])
    ||| has(s, seq!['#'])
    ||| has(s, seq!['/', '*'])
    ||| has(s, seq!['*'])
    ||| has(s, seq!['<', '!', '-', '-'])
    ||| has(s, seq!['-', '-'])
    ||| has(s, seq![';'])
    ||| has(s, seq!['%'])
    ||| has(s, seq!['"', '"', '"'])
    ||| has(s, seq!['\'', '\'', '\''])
}

/// Blank space at the end holds nothing that does not end in blank space.
proof fn lemma_has_trimmed(s: Seq<char>, pat: Seq<char>)
    requires
        pat.len() > 0,
        !is_white(pat.last()),
    ensures
        has(trimmed_end(s), pat) <==> has(s, pat),
{
    let b = crate::text::run_start(s, 0, s.len() as int, crate::text::white());
    crate::text::lemma_run_start(s, 0, s.len() as int, crate::text::white());
    let t = trimmed_end(s);
    assert(t == s.take(b));
    if has(t, pat) {
        let i = choose|i: int| occurs_at(t, pat, i);
        assert(s.subrange(i, i + pat.len()) =~= t.subrange(i, i + pat.len()));
        assert(occurs_at(s, pat, i));
    }
    if has(s, pat) {
        let i = choose|i: int| occurs_at(s, pat, i);
        let e = i + pat.len();
        assert(s[e - 1] == s.subrange(i, e)[pat.len() - 1]);
        if e > b {
            assert(crate::text::white()(s[e - 1]));
        }
        assert(t.subrange(i, e) =~= s.subrange(i, e));
        assert(occurs_at(t, pat, i));
    }
}

proof fn lemma_opens_somewhere(s: Seq<char>)
    ensures
        has_opener(trimmed_end(s)) == opens_somewhere(s),
{
    reveal_strlit("//");
    reveal_strlit("#");
    reveal_strlit("/*");
    reveal_strlit("*");
    reveal_strlit("<!--");
    reveal_strlit("--");
    reveal_strlit(";");
    reveal_strlit("%");
    reveal_strlit("\"\"\"");
    reveal_strlit("'''");
    assert("//"@ =~= seq!['/', '/']);
    assert("#"@ =~= seq!['#']);
    assert("/*"@ =~= seq!['/', '*']);
    assert("*"@ =~= seq!['*']);
    assert("<!--"@ =~= seq!['<', '!', '-', '-']);
    assert("--"@ =~= seq!['-', '-']);
    assert(";"@ =~= seq![';']);
    assert("%"@ =~= seq!['%']);
    assert("\"\"\""@ =~= seq!['"', '"', '"']);
    assert("'''"@ =~= seq!['\'', '\'', '\'']);
    lemma_has_trimmed(s, "//"@);
    lemma_has_trimmed(s, "#"@);
    lemma_has_trimmed(s, "/*"@);
    lemma_has_trimmed(s, "*"@);
    lemma_has_trimmed(s, "<!--"@);
    lemma_has_trimmed(s, "--"@);
    lemma_has_trimmed(s, ";"@);
    lemma_has_trimmed(s, "%"@);
    lemma_has_trimmed(s, "\"\"\""@);
    lemma_has_trimmed(s, "'''"@);
}

/// On a line with one bracket, `TODO(clt)` and `FIXME(clt)` can only be around
/// it.
proof fn lemma_one_marker(prefix: Seq<char>, tail: Seq<char>, todo: bool)
    requires
        !prefix.contains('('),
        !tail.contains('('),
    ensures
        ({
            let marker = if todo {
                "TODO(clt)"@
            } else {
                "FIXME(clt)"@
            };
            let other = if todo {
                "FIXME(clt)"@
            } else {
                "TODO(clt)"@
            };
            let line = prefix + marker + tail;
            &&& first_at(line, marker, 0) == Some(prefix.len() as int)
            &&& first_at(line, other, 0) is None
        }),
{
    reveal_strlit("TODO(clt)");
    reveal_strlit("FIXME(clt)");
    let marker = if todo {
        "TODO(clt)"@
    } else {
        "FIXME(clt)"@
    };
    let other = if todo {
        "FIXME(clt)"@
    } else {
        "TODO(clt)"@
    };
    let line = prefix + marker + tail;
    let n = prefix.len() as int;
    let at: int = if todo {
        4
    } else {
        5
    };
    let other_at: int = if todo {
        5
    } else {
        4
    };
    assert(line.subrange(n, n + marker.len()) =~= marker);
    assert forall|k: int| 0 <= k < line.len() && line[k] == '(' implies k == n + at by {
        if k < n {
            assert(prefix.contains(line[k]));
        } else if k >= n + marker.len() {
            assert(line[k] == tail[k - n - marker.len()]);
            assert(tail.contains(line[k]));
        } else {
            assert(line[k] == marker[k - n]);
        }
    }
    assert forall|j: int| 0 <= j < n implies !#[trigger] occurs_at(line, marker, j) by {
        if occurs_at(line, marker, j) {
            assert(line[j + at] == line.subrange(j, j + marker.len())[at]);
            assert(j + at == n + at);
        }
    }
    crate::text::lemma_first_at(line, marker, 0, n);
    assert forall|j: int| 0 <= j implies !#[trigger] occurs_at(line, other, j) by {
        if occurs_at(line, other, j) {
            let part = line.subrange(j, j + other.len());
            assert(line[j + other_at] == part[other_at]);
            assert(j + other_at == n + at);
            if todo {
                assert(line[j + 1] == part[1]);
                assert(line[n] == marker[0]);
            } else {
                assert(line[j] == part[0]);
                assert(line[n + 1] == marker[1]);
            }
        }
    }
    crate::text::lemma_never_at(line, other, 0);
}

/// What counts as a marker: `TODO(clt)` or `FIXME(clt)`, at the start of a line
/// or after the opening of a comment, outside of any string literal, and with
/// nothing right after it but a colon, blank space or the end of the line. What
/// comes after that is its text.
pub proof fn law_what_counts_as_a_marker(prefix: Seq<char>, tail: Seq<char>, todo: bool)
    requires
        !prefix.contains('('),
        !tail.contains('('),
    ensures
        ({
            let line = prefix + (if todo {
                "TODO(clt)"@
            } else {
                "FIXME(clt)"@
            }) + tail;
            let rest = if tail.len() > 0 && tail[0] == ':' {
                tail.skip(1)
            } else {
                tail
            };
            let separated = rest.len() == 0 || rest[0] == ' ' || rest[0] == '\t';
            let commented = (forall|i: int|
                0 <= i < prefix.len() ==> is_white(#[trigger] prefix[i])) || opens_somewhere(prefix);
            &&& separated && commented && !in_literal(prefix) ==> marker_text(line) == Some(rest)
            &&& !(separated && commented && !in_literal(prefix)) ==> marker_text(line) is None
        }),
{
    let marker = if todo {
        "TODO(clt)"@
    } else {
        "FIXME(clt)"@
    };
    let line = prefix + marker + tail;
    reveal_strlit(":");
    lemma_one_marker(prefix, tail, todo);
    lemma_opens_somewhere(prefix);
    assert(line.skip((prefix.len() + marker.len()) as int) =~= tail);
    assert(line.take(prefix.len() as int) =~= prefix);
    if tail.len() > 0 {
        assert(tail.subrange(0, 1) =~= seq![tail[0]]);
        assert(":"@ =~= seq![':']);
        assert(begins(tail, ":"@) <==> tail[0] == ':') by {
            if begins(tail, ":"@) {
                assert(tail.subrange(0, 1)[0] == ':');
            }
        }
    }
    let b = trimmed_end(prefix);
    let e = crate::text::run_start(prefix, 0, prefix.len() as int, crate::text::white());
    crate::text::lemma_run_start(prefix, 0, prefix.len() as int, crate::text::white());
    assert(b == prefix.take(e));
    assert(is_blank(b) <==> is_blank(prefix)) by {
        if is_blank(b) {
            assert forall|i: int| 0 <= i < prefix.len() implies is_white(#[trigger] prefix[i]) by {
                if i < e {
                    assert(b[i] == prefix[i]);
                    assert(is_white(b[i]));
                } else {
                    assert(crate::text::white()(prefix[i]));
                }
            }
        }
        if is_blank(prefix) {
            assert forall|i: int| 0 <= i < b.len() implies is_white(#[trigger] b[i]) by {
                assert(b[i] == prefix[i]);
            }
        }
    }
}

/// A line that holds neither `TODO(clt)` nor `FIXME(clt)` has no marker.
pub proof fn law_bare_markers_are_ignored(line: Seq<char>)
    requires
        !(has(line, "TODO(clt)"@)),
        !(has(line, "FIXME(clt)"@)),
    ensures
        marker_text(line) is None,
{
    crate::text::lemma_never_at(line, "TODO(clt)"@, 0);
    crate::text::lemma_never_at(line, "FIXME(clt)"@, 0);
}

/// Whether a text ends with something that closes a comment.
pub open spec fn ends_with_closer(s: Seq<char>) -> bool {
    ||| ends(s, seq!['*', '/'])
    ||| ends(s, seq!['-', '-', '>'])
    ||| ends(s, seq!['"', '"', '"'])
    ||| ends(s, seq!['\'', '\'', '\''])
    ||| ends(s, seq!['#', '}'])
    ||| ends(s, seq!['-', '-', '}', '}'])
}

proof fn lemma_closers()
    ensures
        "*/"@ == seq!['*', '/'],
        "-->"@ == seq!['-', '-', '>'],
        "\"\"\""@ == seq!['"', '"', '"'],
        "'''"@ == seq!['\'', '\'', '\''],
        "#}"@ == seq!['#', '}'],
        "--}}"@ == seq!['-', '-', '}', '}'],
{
    reveal_strlit("*/");
    reveal_strlit("-->");
    reveal_strlit("\"\"\"");
    reveal_strlit("'''");
    reveal_strlit("#}");
    reveal_strlit("--}}");
    assert("*/"@ =~= seq!['*', '/']);
    assert("-->"@ =~= seq!['-', '-', '>']);
    assert("\"\"\""@ =~= seq!['"', '"', '"']);
    assert("'''"@ =~= seq!['\'', '\'', '\'']);
    assert("#}"@ =~= seq!['#', '}']);
    assert("--}}"@ =~= seq!['-', '-', '}', '}']);
}

/// The words of a marker are its title, whatever the blank space between them.
pub proof fn law_titles_are_the_words(s: Seq<char>)
    requires
        !ends_with_closer(trimmed(s)),
    ensures
        title_of(s) == joined(words_of(s), " "@),
{
    lemma_closers();
    crate::text::law_trimming_keeps_the_words(s);
}

/// What closes the comment is no part of the title.
pub proof fn law_closers_are_no_part_of_the_title(s: Seq<char>, closer: Seq<char>)
    requires
        ({
            ||| closer == seq!['*', '/']
            ||| closer == seq!['-', '-', '>']
            ||| closer == seq!['"', '"', '"']
            ||| closer == seq!['\'', '\'', '\'']
            ||| closer == seq!['#', '}']
            ||| closer == seq!['-', '-', '}', '}']
        }),
        trimmed(s).len() > 0,
        !ends_with_closer(trimmed(s)),
    ensures
        title_of(s + closer) == joined(words_of(s), " "@),
{
    lemma_closers();
    let white = crate::text::white();
    let a = crate::text::run_end(s, 0, white);
    crate::text::lemma_run_end(s, 0, white);
    let b = crate::text::run_start(s, a, s.len() as int, white);
    crate::text::lemma_run_start(s, a, s.len() as int, white);
    let u = s.take(a);
    let m = s.subrange(a, b);
    let v = s.skip(b);
    assert(!white(s[a]));
    assert(!white(s[b - 1]));
    assert forall|i: int| 0 <= i < u.len() implies is_white(#[trigger] u[i]) by {
        assert(white(s[i]));
    }
    assert forall|i: int| 0 <= i < v.len() implies is_white(#[trigger] v[i]) by {
        assert(white(s[b + i]));
    }
    let core = m + v + closer;
    assert(s + closer =~= u + core + Seq::<char>::empty());
    assert(core[0] == s[a]);
    assert(core.last() == closer.last());
    crate::text::lemma_trimmed_is(u, core, Seq::empty());
    assert(trimmed(s + closer) == core);
    assert(core.take(core.len() - closer.len()) =~= m + v);
    assert(core.subrange(core.len() - closer.len(), core.len() as int) =~= closer);
    assert(ends(core, closer));
    assert(Seq::<char>::empty() + m + v =~= m + v);
    crate::text::lemma_trimmed_is(Seq::empty(), m, v);
    assert(trimmed_end(m + v) == m);
    assert(without_tail(core, closer) == m);
    assert(trimmed(s) == m);
    lemma_other_closers(core, closer);
    crate::text::law_trimming_keeps_the_words(s);
}

/// A text that ends with one closer ends with no other that is looked for
/// before.
proof fn lemma_other_closers(s: Seq<char>, closer: Seq<char>)
    requires
        ends(s, closer),
    ensures
        closer == seq!['-', '-', '>'] ==> !ends(s, seq!['*', '/']),
        closer == seq!['"', '"', '"'] ==> !ends(s, seq!['*', '/']) && !ends(
            s,
            seq!['-', '-', '>'],
        ),
        closer == seq!['\'', '\'', '\''] ==> !ends(s, seq!['*', '/']) && !ends(
            s,
            seq!['-', '-', '>'],
        ) && !ends(s, seq!['"', '"', '"']),
        closer == seq!['#', '}'] ==> !ends(s, seq!['*', '/']) && !ends(s, seq!['-', '-', '>'])
            && !ends(s, seq!['"', '"', '"']) && !ends(s, seq!['\'', '\'', '\'']),
        closer == seq!['-', '-', '}', '}'] ==> !ends(s, seq!['*', '/']) && !ends(
            s,
            seq!['-', '-', '>'],
        ) && !ends(s, seq!['"', '"', '"']) && !ends(s, seq!['\'', '\'', '\'']) && !ends(
            s,
            seq!['#', '}'],
        ),
{
    let n = s.len() as int;
    if closer.len() > 0 {
        assert(s.subrange(n - closer.len(), n)[closer.len() - 1] == s[n - 1]);
    }
    if closer == seq!['-', '-', '}', '}'] {
        assert(s.subrange(n - 4, n)[2] == s[n - 2]);
    }
    if ends(s, seq!['*', '/']) {
        assert(s.subrange(n - 2, n)[1] == s[n - 1]);
    }
    if ends(s, seq!['-', '-', '>']) {
        assert(s.subrange(n - 3, n)[2] == s[n - 1]);
    }
    if ends(s, seq!['"', '"', '"']) {
        assert(s.subrange(n - 3, n)[2] == s[n - 1]);
    }
    if ends(s, seq!['\'', '\'', '\'']) {
        assert(s.subrange(n - 3, n)[2] == s[n - 1]);
    }
    if ends(s, seq!['#', '}']) {
        assert(s.subrange(n - 2, n)[0] == s[n - 2]);
    }
}

/// The identity of a marker goes by its words in lower case and nothing else.
pub proof fn law_identity_goes_by_the_words(a: Seq<char>, b: Seq<char>)
    requires
        words_of(lowercase(a)) == words_of(lowercase(b)),
    ensures
        key_of(a) == key_of(b),
        key_of(a).len() == 16,
{
}

/// A file is scanned where it could be read as text and holds no NUL.
pub proof fn law_binary_files_are_not_scanned(rel: Seq<char>, text: Seq<char>)
    ensures
        source_hits(SourceView { rel, text: None }).len() == 0,
        text.contains('\0') ==> source_hits(SourceView { rel, text: Some(text) }).len() == 0,
        !text.contains('\0') ==> source_hits(SourceView { rel, text: Some(text) }) == hits_in(
            text,
            rel,
        ),
{
}

/// The markers of several files are those of each.
pub proof fn law_every_file_is_scanned(sources: Seq<SourceView>, h: HitView)
    ensures
        all_hits(sources).contains(h) <==> exists|i: int|
            0 <= i < sources.len() && source_hits(#[trigger] sources[i]).contains(h),
    decreases sources.len(),
{
    if sources.len() > 0 {
        let r = sources.drop_last();
        law_every_file_is_scanned(r, h);
        let a = all_hits(r);
        let b = source_hits(sources.last());
        let all = all_hits(sources);
        assert(all == a + b);
        if a.contains(h) {
            let k = choose|k: int| 0 <= k < a.len() && a[k] == h;
            assert(all[k] == h);
            let i = choose|i: int| 0 <= i < r.len() && source_hits(#[trigger] r[i]).contains(h);
            assert(sources[i] == r[i]);
        }
        if b.contains(h) {
            let k = choose|k: int| 0 <= k < b.len() && b[k] == h;
            assert(all[a.len() + k] == h);
            assert(sources[sources.len() - 1] == sources.last());
        }
        if all.contains(h) && !a.contains(h) {
            let k = choose|k: int| 0 <= k < all.len() && all[k] == h;
            if k < a.len() {
                assert(a[k] == h);
            }
            assert(b[k - a.len()] == h);
        }
        if exists|i: int| 0 <= i < sources.len() && source_hits(#[trigger] sources[i]).contains(h) {
            let i = choose|i: int|
                0 <= i < sources.len() && source_hits(#[trigger] sources[i]).contains(h);
            if i < r.len() {
                assert(r[i] == sources[i]);
            }
        }
    }
}

/// Of markers with the same identity, the first by file and line is kept, and
/// what is kept comes in that order.
pub proof fn law_the_first_of_equal_markers_is_kept(s: Seq<HitView>)
    ensures
        forall|i: int, j: int|
            0 <= i < j < settled(s).len() ==> ({
                let a = #[trigger] settled(s)[i];
                let b = #[trigger] settled(s)[j];
                if a.file == b.file {
                    a.line <= b.line
                } else {
                    text_le(a.file, b.file)
                }
            }),
        forall|i: int, j: int|
            0 <= i < settled(s).len() && 0 <= j < s.len() && (#[trigger] settled(s)[i]).key == (
            #[trigger] s[j]).key ==> (if settled(s)[i].file == s[j].file {
                settled(s)[i].line <= s[j].line
            } else {
                text_le(settled(s)[i].file, s[j].file)
            }),
{
    let t = hits_sorted(s);
    lemma_hits_sorted(s);
    lemma_first_is_least(t);
    assert forall|i: int, j: int|
        0 <= i < settled(s).len() && 0 <= j < s.len() && (#[trigger] settled(s)[i]).key == (
        #[trigger] s[j]).key implies hit_le(settled(s)[i], s[j]) by {
        lemma_sorted_has(s, j);
        let k = choose|k: int| 0 <= k < t.len() && t[k] == s[j];
        assert(t[k].key == first_by_key(t)[i].key);
    }
    assert forall|i: int, j: int| 0 <= i < j < settled(s).len() implies hit_le(
        #[trigger] settled(s)[i],
        #[trigger] settled(s)[j],
    ) by {}
}

proof fn lemma_text_le_reflexive(a: Seq<char>)
    ensures
        text_le(a, a),
    decreases a.len(),
{
    if a.len() > 0 {
        lemma_text_le_reflexive(a.drop_first());
    }
}

proof fn lemma_text_le_total(a: Seq<char>, b: Seq<char>)
    ensures
        text_le(a, b) || text_le(b, a),
        text_le(a, b) && text_le(b, a) ==> a == b,
    decreases a.len(),
{
    if a.len() > 0 && b.len() > 0 {
        lemma_text_le_total(a.drop_first(), b.drop_first());
        if text_le(a, b) && text_le(b, a) {
            assert(a =~= seq![a[0]] + a.drop_first());
            assert(b =~= seq![b[0]] + b.drop_first());
        }
    } else if text_le(a, b) && text_le(b, a) {
        assert(a =~= b);
    }
}

proof fn lemma_text_le_transitive(a: Seq<char>, b: Seq<char>, c: Seq<char>)
    requires
        text_le(a, b),
        text_le(b, c),
    ensures
        text_le(a, c),
    decreases a.len(),
{
    if a.len() > 0 && b.len() > 0 && c.len() > 0 && a[0] == b[0] && b[0] == c[0] {
        lemma_text_le_transitive(a.drop_first(), b.drop_first(), c.drop_first());
    }
}

proof fn lemma_hit_le(a: HitView, b: HitView, c: HitView)
    ensures
        hit_le(a, a),
        hit_le(a, b) || hit_le(b, a),
        hit_le(a, b) && hit_le(b, c) ==> hit_le(a, c),
{
    lemma_text_le_total(a.file, b.file);
    lemma_text_le_total(b.file, c.file);
    if text_le(a.file, b.file) && text_le(b.file, c.file) {
        lemma_text_le_transitive(a.file, b.file, c.file);
    }
}

proof fn lemma_placed_in_order(s: Seq<HitView>, h: HitView)
    requires
        forall|i: int, j: int|
            0 <= i < j < s.len() ==> hit_le(#[trigger] s[i], #[trigger] s[j]),
    ensures
        forall|i: int, j: int|
            0 <= i < j < hit_placed(s, h).len() ==> hit_le(
                #[trigger] hit_placed(s, h)[i],
                #[trigger] hit_placed(s, h)[j],
            ),
        hit_placed(s, h).contains(h),
        forall|x: HitView| #[trigger] s.contains(x) ==> hit_placed(s, h).contains(x),
    decreases s.len(),
{
    let p = hit_placed(s, h);
    lemma_placed_are_found(s, h);
    if s.len() == 0 || hit_le(s.last(), h) {
        assert(p == s.push(h));
        assert(p[s.len() as int] == h);
        assert forall|x: HitView| #[trigger] s.contains(x) implies p.contains(x) by {
            let k = choose|k: int| 0 <= k < s.len() && s[k] == x;
            assert(p[k] == x);
        }
        assert forall|i: int, j: int| 0 <= i < j < p.len() implies hit_le(
            #[trigger] p[i],
            #[trigger] p[j],
        ) by {
            assert(p[i] == s[i]);
            if j < s.len() {
                assert(p[j] == s[j]);
            } else if i < s.len() - 1 {
                assert(hit_le(s[i], s[s.len() - 1]));
                lemma_hit_le(s[i], s.last(), h);
            }
        }
    } else {
        let r = s.drop_last();
        assert forall|i: int, j: int| 0 <= i < j < r.len() implies hit_le(
            #[trigger] r[i],
            #[trigger] r[j],
        ) by {
            assert(hit_le(s[i], s[j]));
        }
        lemma_placed_in_order(r, h);
        lemma_placed_are_found(r, h);
        let q = hit_placed(r, h);
        assert(p == q.push(s.last()));
        let k = choose|k: int| 0 <= k < q.len() && q[k] == h;
        assert(p[k] == h);
        assert forall|x: HitView| #[trigger] s.contains(x) implies p.contains(x) by {
            let k = choose|k: int| 0 <= k < s.len() && s[k] == x;
            if k < r.len() {
                assert(r[k] == x);
                assert(r.contains(x));
                let l = choose|l: int| 0 <= l < q.len() && q[l] == x;
                assert(p[l] == x);
            } else {
                assert(p[q.len() as int] == x);
            }
        }
        assert forall|i: int, j: int| 0 <= i < j < p.len() implies hit_le(
            #[trigger] p[i],
            #[trigger] p[j],
        ) by {
            assert(p[i] == q[i]);
            if j < q.len() {
                assert(p[j] == q[j]);
            } else {
                lemma_hit_le(h, s.last(), h);
                if q[i] != h {
                    assert(r.contains(q[i]));
                    let k = choose|k: int| 0 <= k < r.len() && r[k] == q[i];
                    assert(hit_le(s[k], s[s.len() - 1]));
                }
            }
        }
    }
}

proof fn lemma_hits_sorted(s: Seq<HitView>)
    ensures
        forall|i: int, j: int|
            0 <= i < j < hits_sorted(s).len() ==> hit_le(
                #[trigger] hits_sorted(s)[i],
                #[trigger] hits_sorted(s)[j],
            ),
    decreases s.len(),
{
    if s.len() > 0 {
        lemma_hits_sorted(s.drop_last());
        lemma_placed_in_order(hits_sorted(s.drop_last()), s.last());
    }
}

proof fn lemma_sorted_has(s: Seq<HitView>, j: int)
    requires
        0 <= j < s.len(),
    ensures
        hits_sorted(s).contains(s[j]),
    decreases s.len(),
{
    let r = s.drop_last();
    lemma_hits_sorted(r);
    lemma_placed_in_order(hits_sorted(r), s.last());
    if j < r.len() {
        lemma_sorted_has(r, j);
        assert(r[j] == s[j]);
    }
}

/// In sorted markers, the first with a key is the least with it, and what is
/// kept stays sorted.
proof fn lemma_first_is_least(t: Seq<HitView>)
    requires
        forall|i: int, j: int|
            0 <= i < j < t.len() ==> hit_le(#[trigger] t[i], #[trigger] t[j]),
    ensures
        forall|i: int, j: int|
            0 <= i < j < first_by_key(t).len() ==> hit_le(
                #[trigger] first_by_key(t)[i],
                #[trigger] first_by_key(t)[j],
            ),
        forall|i: int, k: int|
            0 <= i < first_by_key(t).len() && 0 <= k < t.len() && (#[trigger] first_by_key(
                t,
            )[i]).key == (#[trigger] t[k]).key ==> hit_le(first_by_key(t)[i], t[k]),
    decreases t.len(),
{
    if t.len() > 0 {
        let r = t.drop_last();
        let last = t.last();
        assert forall|i: int, j: int| 0 <= i < j < r.len() implies hit_le(
            #[trigger] r[i],
            #[trigger] r[j],
        ) by {
            assert(hit_le(t[i], t[j]));
        }
        lemma_first_is_least(r);
        lemma_first_are_found(r);
        let p = first_by_key(r);
        let q = first_by_key(t);
        assert forall|i: int| 0 <= i < p.len() implies hit_le(#[trigger] p[i], last) by {
            assert(r.contains(p[i]));
            let k = choose|k: int| 0 <= k < r.len() && r[k] == p[i];
            assert(hit_le(t[k], t[t.len() - 1]));
        }
        lemma_hit_le(last, last, last);
        assert forall|i: int, j: int| 0 <= i < j < q.len() implies hit_le(
            #[trigger] q[i],
            #[trigger] q[j],
        ) by {
            assert(q[i] == p[i]);
            if j < p.len() {
                assert(q[j] == p[j]);
            }
        }
        assert forall|i: int, k: int|
            0 <= i < q.len() && 0 <= k < t.len() && (#[trigger] q[i]).key == (
            #[trigger] t[k]).key implies hit_le(q[i], t[k]) by {
            if i < p.len() {
                assert(q[i] == p[i]);
                if k < r.len() {
                    assert(r[k] == t[k]);
                }
            } else if k < r.len() {
                // the last has a key that none before it has
                assert(r[k] == t[k]);
                lemma_first_by_key(r);
                assert(has_key(r, t[k].key));
            }
        }
    }
}

/// A pattern leaves out what it names, and a directory leaves out everything in
/// it, with or without a slash at its end; its name is no prefix. A pattern that
/// ends in `*` leaves out whatever begins like it.
pub proof fn law_what_a_pattern_covers(dir: Seq<char>, path: Seq<char>)
    requires
        dir.len() > 0,
        dir.last() != '/',
        dir.last() != '*',
    ensures
        ({
            let inside = path.len() > dir.len() && path.take(dir.len() as int) == dir
                && path[dir.len() as int] == '/';
            &&& pattern_covers(dir, path) <==> path == dir || inside
            &&& pattern_covers(dir.push('/'), path) <==> inside
            &&& pattern_covers(dir.push('*'), path) <==> path.len() >= dir.len() && path.take(
                dir.len() as int,
            ) == dir
        }),
{
    reveal_strlit("*");
    reveal_strlit("/");
    let n = dir.len() as int;
    assert("*"@ =~= seq!['*']);
    assert("/"@ =~= seq!['/']);
    let slash = dir.push('/');
    let star = dir.push('*');
    assert(dir.subrange(n - 1, n) =~= seq![dir.last()]);
    assert(slash.subrange(n, n + 1) =~= seq!['/']);
    assert(star.subrange(n, n + 1) =~= seq!['*']);
    assert(!ends(dir, "*"@)) by {
        if ends(dir, "*"@) {
            assert(seq![dir.last()][0] == seq!['*'][0]);
        }
    }
    assert(!ends(slash, "*"@)) by {
        if ends(slash, "*"@) {
            assert(seq!['/'][0] == seq!['*'][0]);
        }
    }
    assert(ends(star, "*"@));
    assert(star.drop_last() =~= dir);
    let p = crate::text::exactly('/');
    crate::text::lemma_run_start(dir, 0, n, p);
    assert(crate::text::run_start(dir, 0, n, p) == n) by {
        if crate::text::run_start(dir, 0, n, p) < n {
            assert(p(dir[n - 1]));
        }
    }
    assert(unslashed(dir) =~= dir);
    crate::text::lemma_run_start(slash, 0, n + 1, p);
    assert(crate::text::run_start(slash, 0, n + 1, p) == n) by {
        let e = crate::text::run_start(slash, 0, n + 1, p);
        if e < n {
            assert(p(slash[n - 1]));
        }
        if e > n {
            assert(!p(slash[n]));
        }
    }
    assert(unslashed(slash) =~= dir);
    assert(dir + "/"@ =~= slash);
    if path.len() > n {
        assert(path.subrange(0, n + 1) =~= path.take(n).push(path[n]));
        assert(begins(path, slash) <==> path.take(n) == dir && path[n] == '/') by {
            if begins(path, slash) {
                assert(path.take(n) =~= slash.take(n));
                assert(slash.take(n) =~= dir);
                assert(path.subrange(0, n + 1)[n] == slash[n]);
            }
        }
    }
    if path.len() >= n {
        assert(path.subrange(0, n) =~= path.take(n));
    }
    assert(slash.len() == n + 1);
    if path == slash {
        assert(path.take(n) =~= dir);
    }
}

/// A line of the ignore file holds a pattern unless it is blank or a comment; a
/// comment after blank space is no part of the pattern.
pub proof fn law_what_a_line_leaves_out(
    before: Seq<char>,
    pattern: Seq<char>,
    gap: Seq<char>,
    comment: Seq<char>,
)
    requires
        is_blank(before),
        is_blank(gap),
        pattern.len() > 0,
        !pattern.contains('#'),
        !is_white(pattern[0]),
        !is_white(pattern.last()),
    ensures
        pattern_on(before) is None,
        pattern_on(before + seq!['#'] + comment) is None,
        pattern_on(before + pattern + gap) == Some(swapped(pattern, '\\', '/')),
        gap.len() > 0 ==> pattern_on(before + pattern + gap + seq!['#'] + comment) == Some(
            swapped(pattern, '\\', '/'),
        ),
{
    crate::text::lemma_blank_is_trimmed_away(before);
    let hash = before + seq!['#'] + comment;
    lemma_trimmed_starts(before, seq!['#'] + comment);
    assert(before + (seq!['#'] + comment) =~= hash);
    crate::text::lemma_trimmed_is(before, pattern, gap);
    let n = pattern.len() as int;
    lemma_no_comment(pattern, 1);
    assert(pattern.take(n) =~= pattern);
    assert(Seq::<char>::empty() + pattern + Seq::<char>::empty() =~= pattern);
    assert(pattern + Seq::<char>::empty() =~= pattern);
    crate::text::lemma_trimmed_is(Seq::empty(), pattern, Seq::empty());
    assert(trimmed_end(pattern) == pattern);
    if gap.len() > 0 {
        let line = before + pattern + gap + seq!['#'] + comment;
        let core = pattern + gap + seq!['#'] + comment;
        assert(line =~= before + core);
        lemma_trimmed_starts(before, core);
        let t = trimmed(line);
        let k = n + gap.len();
        lemma_trimmed_reaches(before, core, k);
        assert(t == core.take(t.len() as int));
        assert(t.take(k) =~= pattern + gap);
        assert(t[k] == core[k]);
        lemma_comment_at(t, pattern, gap, 1);
        assert(Seq::<char>::empty() + pattern + gap =~= pattern + gap);
        crate::text::lemma_trimmed_is(Seq::empty(), pattern, gap);
        assert(trimmed_end(pattern + gap) == pattern);
        assert(t[0] == pattern[0]);
        assert(pattern.contains(pattern[0]));
    }
    assert(pattern.contains(pattern[0]));
}

/// Trimming takes blank space before a text off, and keeps how the text begins.
proof fn lemma_trimmed_starts(u: Seq<char>, core: Seq<char>)
    requires
        is_blank(u),
        core.len() > 0,
        !is_white(core[0]),
    ensures
        trimmed(u + core).len() > 0,
        trimmed(u + core)[0] == core[0],
        trimmed(u + core) == core.take(trimmed(u + core).len() as int),
        trimmed(u + core).len() <= core.len(),
{
    let s = u + core;
    let white = crate::text::white();
    let a = crate::text::run_end(s, 0, white);
    crate::text::lemma_run_end(s, 0, white);
    let n = u.len() as int;
    assert(s[n] == core[0]);
    assert(a == n) by {
        if a < n {
            assert(s[a] == u[a]);
            assert(is_white(u[a]));
        }
        if n < a {
            assert(white(s[n]));
        }
    }
    let b = crate::text::run_start(s, a, s.len() as int, white);
    crate::text::lemma_run_start(s, a, s.len() as int, white);
    if b == a {
        assert(white(s[a]));
    }
    assert(s.subrange(a, b) =~= core.take(b - a));
}

/// Trimming reaches no further than to what is not blank.
proof fn lemma_trimmed_reaches(u: Seq<char>, core: Seq<char>, k: int)
    requires
        is_blank(u),
        core.len() > 0,
        !is_white(core[0]),
        0 <= k < core.len(),
        !is_white(core[k]),
    ensures
        trimmed(u + core).len() > k,
{
    let s = u + core;
    let white = crate::text::white();
    lemma_trimmed_starts(u, core);
    let a = crate::text::run_end(s, 0, white);
    crate::text::lemma_run_end(s, 0, white);
    let n = u.len() as int;
    assert(s[n] == core[0]);
    assert(a == n) by {
        if a < n {
            assert(s[a] == u[a]);
            assert(is_white(u[a]));
        }
        if n < a {
            assert(white(s[n]));
        }
    }
    let b = crate::text::run_start(s, a, s.len() as int, white);
    crate::text::lemma_run_start(s, a, s.len() as int, white);
    assert(s[n + k] == core[k]);
    if b <= n + k {
        assert(white(s[n + k]));
    }
}

proof fn lemma_no_comment(s: Seq<char>, i: int)
    requires
        1 <= i <= s.len(),
        !s.contains('#'),
    ensures
        comment_start(s, i) == s.len(),
    decreases s.len() - i,
{
    if i < s.len() {
        assert(s.contains(s[i]));
        lemma_no_comment(s, i + 1);
    }
}

proof fn lemma_comment_at(t: Seq<char>, pattern: Seq<char>, gap: Seq<char>, i: int)
    requires
        !pattern.contains('#'),
        is_blank(gap),
        gap.len() > 0,
        1 <= i <= pattern.len() + gap.len() < t.len(),
        t.take((pattern.len() + gap.len()) as int) == pattern + gap,
        t[(pattern.len() + gap.len()) as int] == '#',
    ensures
        comment_start(t, i) == pattern.len() + gap.len(),
    decreases pattern.len() + gap.len() - i,
{
    let k = (pattern.len() + gap.len()) as int;
    assert(t[k - 1] == t.take(k)[k - 1]);
    assert((pattern + gap)[k - 1] == gap[gap.len() - 1]);
    assert(is_white(gap[gap.len() - 1]));
    if i < k {
        assert(t[i] == t.take(k)[i]);
        if i < pattern.len() {
            assert(t[i] == pattern[i]);
            assert(pattern.contains(pattern[i]));
        } else {
            assert(t[i] == gap[i - pattern.len()]);
            assert(is_white(gap[i - pattern.len()]));
        }
        lemma_comment_at(t, pattern, gap, i + 1);
    }
}

/// The patterns are those of the lines, in their order.
pub proof fn law_every_line_is_read(lines: Seq<Seq<char>>, line: Seq<char>)
    ensures
        patterns_on(Seq::empty(), 0).len() == 0,
        patterns_on(lines.push(line), (lines.len() + 1) as nat) == (match pattern_on(line) {
            Some(p) => patterns_on(lines, lines.len()).push(p),
            None => patterns_on(lines, lines.len()),
        }),
{
    lemma_same_patterns(lines.push(line), lines, lines.len());
}

proof fn lemma_same_patterns(a: Seq<Seq<char>>, b: Seq<Seq<char>>, n: nat)
    requires
        n <= a.len(),
        n <= b.len(),
        forall|i: int| 0 <= i < n ==> a[i] == b[i],
    ensures
        patterns_on(a, n) == patterns_on(b, n),
    decreases n,
{
    if n > 0 {
        lemma_same_patterns(a, b, (n - 1) as nat);
    }
}

/// The files are the names that git printed, up to each NUL; nothing between two
/// of them is no name.
pub proof fn law_names_end_at_the_nul(name: Seq<char>, rest: Seq<char>)
    requires
        !name.contains('\0'),
    ensures
        name.len() > 0 ==> listed(name.push('\0') + rest) == seq![name] + listed(rest),
        listed(seq!['\0'] + rest) == listed(rest),
        listed(Seq::empty()).len() == 0,
        name.len() > 0 ==> listed(name) == seq![name],
{
    crate::text::law_pieces_end_at_the_separator(name, '\0', rest);
    let none = Seq::<char>::empty();
    crate::text::law_pieces_end_at_the_separator(none, '\0', rest);
    assert(none.push('\0') + rest =~= seq!['\0'] + rest);
    let p = |p: Seq<char>| p.len() > 0;
    lemma_filter_first(name, pieces_of(rest, '\0'), p);
    lemma_filter_first(none, pieces_of(rest, '\0'), p);
    lemma_filter_first(name, Seq::empty(), p);
    lemma_filter_first(none, Seq::empty(), p);
    assert(seq![name] + Seq::<Seq<char>>::empty() =~= seq![name]);
    assert(seq![none] + Seq::<Seq<char>>::empty() =~= seq![none]);
    reveal(Seq::filter);
    assert(Seq::<Seq<char>>::empty().filter(p) =~= Seq::empty());
}

proof fn lemma_filter_first(x: Seq<char>, s: Seq<Seq<char>>, p: spec_fn(Seq<char>) -> bool)
    ensures
        (seq![x] + s).filter(p) == (if p(x) {
            seq![x] + s.filter(p)
        } else {
            s.filter(p)
        }),
    decreases s.len(),
{
    reveal(Seq::filter);
    let all = seq![x] + s;
    if s.len() == 0 {
        assert(all.drop_last() =~= Seq::empty());
        assert(all.last() == x);
        assert(Seq::<Seq<char>>::empty().filter(p) =~= Seq::empty());
        assert(s =~= Seq::empty());
        assert(all.filter(p) =~= if p(x) {
            seq![x] + s.filter(p)
        } else {
            s.filter(p)
        });
    } else {
        lemma_filter_first(x, s.drop_last(), p);
        assert(all.drop_last() =~= seq![x] + s.drop_last());
        assert(all.last() == s.last());
        assert(all.filter(p) =~= if p(x) {
            seq![x] + s.filter(p)
        } else {
            s.filter(p)
        });
    }
}

/// A file of more than two megabytes is not source.
pub proof fn law_how_large_a_file_may_be()
    ensures
        MAX_FILE_BYTES == 2 * 1024 * 1024,
{
}

/// A line with a marker that says something is a hit, and any other is none:
/// with the marker's title and identity, in the file that was scanned.
pub proof fn law_every_marker_is_a_hit(line: Seq<char>, file: Seq<char>, body: Seq<char>)
    requires
        line.len() > 0,
        !line.contains('\n'),
    ensures
        marker_text(line) is None ==> hits_in(line, file).len() == 0,
        marker_text(line) == Some(body) && title_of(body).len() == 0 ==> hits_in(line, file).len()
            == 0,
        marker_text(line) == Some(body) && title_of(body).len() > 0 ==> hits_in(line, file) == seq![
            HitView {
                key: key_of(title_of(body)),
                title: title_of(body),
                file: swapped(file, '\\', '/'),
                line: 1,
            },
        ],
{
    crate::text::law_lines_end_at_the_line_feed(line, Seq::empty());
    let ls = lines_of(line);
    assert(ls == seq![line]);
    assert(hits_on(ls, file, 0) =~= Seq::empty());
    assert(hits_in(line, file) == hits_on(ls, file, 1));
    assert(ls[0] == line);
    if let Some(h) = hit_on(line, file, 1) {
        assert(hits_in(line, file) =~= seq![h]);
    }
}

} // verus!
