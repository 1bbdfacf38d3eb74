//! Closing tasks from commit messages.
//!
//! `closes clt#3, clt#4` in a commit message closes both. Mentioning a task is
//! not the same as finishing it, so a reference counts only after a closing
//! word, with nothing but other references in between.

use crate::forest::{task_views, unique_ids};
use crate::git::{commit_views, Commit, CommitView};
use crate::journal::{records, Entry, Record};
use crate::states::{entry, record_of};
use crate::store::{
    coherent, data_ok, law_changes_in_place_keep_branches_together, lemma_in_place,
    lemma_lookup, lemma_lookup_at, lemma_same_links, lookup, DataView, Store,
};
use crate::task::{State, Task, TaskView};
use crate::text::{
    as_opt, begins, cat, chars_of, decimal, decimal_value, is_alnum, is_alphanumeric,
    is_ascii_digit, is_digit, lemma_decimal_round_trip, lemma_run_end, lowercase, opt_str_view, opt_view, own_opt,
    parse_u32, run_end, run_start, same, string_of, strip_prefix, to_decimal, to_lower, views,
    words, words_of,
};
use crate::time::Moment;
use vstd::prelude::*;

verus! {

// ---------------------------------------------------------------------------
// Reading a message
// ---------------------------------------------------------------------------

/// What is cut off the ends of a word: anything but letters, numbers and `#`.
pub open spec fn trimming() -> spec_fn(char) -> bool {
    |c: char| !is_alnum(c) && c != '#'
}

/// A word of a message, in lower case and without the punctuation around it.
pub open spec fn bare(word: Seq<char>) -> Seq<char> {
    let s = lowercase(word);
    let a = run_end(s, 0, trimming());
    s.subrange(a, run_start(s, a, s.len() as int, trimming()))
}

fn bare_of(word: &str) -> (r: String)
    ensures
        r@ == bare(word@),
{
    let low = to_lower(word);
    let v = chars_of(low.as_str());
    let n: usize = v.len();
    let mut a: usize = 0;
    let ghost p = trimming();
    while a < n
        invariant_except_break
            a <= n,
            run_end(v@, 0, p) == run_end(v@, a as int, p),
        invariant
            n == v@.len(),
            p == trimming(),
        ensures
            a <= n,
            a == run_end(v@, 0, p),
        decreases n - a,
    {
        if is_alphanumeric(v[a]) || v[a] == '#' {
            break;
        }
        a += 1;
    }
    let mut b: usize = n;
    while b > a
        invariant_except_break
            a <= b <= n,
            run_start(v@, a as int, n as int, p) == run_start(v@, a as int, b as int, p),
        invariant
            n == v@.len(),
            p == trimming(),
        ensures
            a <= b <= n,
            b == run_start(v@, a as int, n as int, p),
        decreases b,
    {
        if is_alphanumeric(v[b - 1]) || v[b - 1] == '#' {
            break;
        }
        b -= 1;
    }
    string_of(&v, a, b)
}

/// Closing keywords recognised in commit messages.
pub open spec fn is_closing(word: Seq<char>) -> bool {
    ||| word == "close"@
    ||| word == "closes"@
    ||| word == "closed"@
    ||| word == "fix"@
    ||| word == "fixes"@
    ||| word == "fixed"@
    ||| word == "resolve"@
    ||| word == "resolves"@
    ||| word == "resolved"@
}

fn closes(word: &str) -> (r: bool)
    ensures
        r == is_closing(word@),
{
    same(word, "close") || same(word, "closes") || same(word, "closed") || same(word, "fix") || same(
        word,
        "fixes",
    ) || same(word, "fixed") || same(word, "resolve") || same(word, "resolves") || same(
        word,
        "resolved",
    )
}

pub open spec fn digits() -> spec_fn(char) -> bool {
    |c: char| is_digit(c)
}

/// Whether a word refers to a task.
pub open spec fn is_reference(word: Seq<char>) -> bool {
    begins(word, "clt#"@)
}

/// The id in a reference: the digits right after `clt#`, where there are any
/// and they make an id.
pub open spec fn referred(word: Seq<char>) -> Option<u32> {
    let rest = word.skip("clt#"@.len() as int);
    let number = rest.take(run_end(rest, 0, digits()));
    if number.len() == 0 || decimal_value(number) > u32::MAX {
        None
    } else {
        Some(decimal_value(number) as u32)
    }
}

fn reference(rest: &str) -> (r: Option<u32>)
    ensures
        ({
            let number = rest@.take(run_end(rest@, 0, digits()));
            r == (if number.len() == 0 || decimal_value(number) > u32::MAX {
                None
            } else {
                Some(decimal_value(number) as u32)
            })
        }),
{
    let v = chars_of(rest);
    let mut n: usize = 0;
    while n < v.len()
        invariant_except_break
            n <= v@.len(),
            run_end(v@, 0, digits()) == run_end(v@, n as int, digits()),
        ensures
            n <= v@.len(),
            n == run_end(v@, 0, digits()),
        decreases v@.len() - n,
    {
        if !is_ascii_digit(v[n]) {
            break;
        }
        n += 1;
    }
    let number = string_of(&v, 0, n);
    proof {
        lemma_run_end(v@, 0, digits());
        assert(number@ =~= rest@.take(n as int));
        assert forall|i: int| 0 <= i < number@.len() implies is_digit(#[trigger] number@[i]) by {
            assert(digits()(v@[i]));
        }
    }
    if n == 0 {
        return None;
    }
    parse_u32(number.as_str())
}

/// A message, read up to some word.
#[verifier::ext_equal]
pub struct Reading {
    /// The tasks to close.
    pub ids: Seq<u32>,
    /// Whether a reference would count here.
    pub armed: bool,
}

/// What the first `n` words say. A closing word arms, a reference counts while
/// armed and leaves it at that, and any other word breaks the association.
pub open spec fn reading(words: Seq<Seq<char>>, n: nat) -> Reading
    decreases n,
{
    if n == 0 {
        Reading { ids: Seq::empty(), armed: false }
    } else {
        let r = reading(words, (n - 1) as nat);
        let w = words[n - 1];
        if is_closing(w) {
            Reading { armed: true, ..r }
        } else if is_reference(w) {
            match referred(w) {
                Some(id) if r.armed => Reading { ids: r.ids.push(id), ..r },
                _ => r,
            }
        } else {
            Reading { armed: false, ..r }
        }
    }
}

/// The tasks that a message closes.
pub open spec fn closed_in(words: Seq<Seq<char>>) -> Seq<u32> {
    reading(words, words.len()).ids
}

/// Extracts ids from the bare words of a message.
pub fn refs_in(words: &Vec<String>) -> (r: Vec<u32>)
    ensures
        r@ == closed_in(views(words@)),
{
    let ghost ws = views(words@);
    let mut ids: Vec<u32> = Vec::new();
    let mut armed = false;
    let mut i: usize = 0;
    while i < words.len()
        invariant
            i <= words@.len(),
            ws == views(words@),
            reading(ws, i as nat) == (Reading { ids: ids@, armed }),
        decreases words@.len() - i,
    {
        let w = words[i].as_str();
        assert(ws[i as int] == w@);
        if closes(w) {
            armed = true;
        } else if let Some(rest) = strip_prefix(w, "clt#") {
            if let Some(id) = reference(rest.as_str()) {
                if armed {
                    ids.push(id);
                }
            }
        } else {
            armed = false;
        }
        i += 1;
    }
    ids
}

/// The bare words of a message.
pub open spec fn bare_words(message: Seq<char>) -> Seq<Seq<char>> {
    Seq::new(words_of(message).len(), |i: int| bare(words_of(message)[i]))
}

/// Extracts ids from `closes clt#3, clt#4` style references.
pub fn closing_refs(message: &str) -> (r: Vec<u32>)
    ensures
        r@ == closed_in(bare_words(message@)),
{
    let tokens = words(message);
    let ghost all = bare_words(message@);
    let mut out: Vec<String> = Vec::new();
    assert(views(out@) =~= all.take(0));
    let mut i: usize = 0;
    while i < tokens.len()
        invariant
            i <= tokens@.len(),
            views(tokens@) == words_of(message@),
            all == bare_words(message@),
            views(out@) == all.take(i as int),
        decreases tokens@.len() - i,
    {
        let ghost so_far = out@;
        assert(words_of(message@)[i as int] == tokens@[i as int]@);
        let b = bare_of(tokens[i].as_str());
        out.push(b);
        assert(views(out@) =~= views(so_far).push(b@));
        assert(views(out@) =~= all.take(i + 1));
        i += 1;
    }
    assert(all.take(i as int) =~= all);
    refs_in(&out)
}

// ---------------------------------------------------------------------------
// Closing what was referred to
// ---------------------------------------------------------------------------

/// A list of tasks, some way through the commits.
#[verifier::ext_equal]
pub struct Syncing {
    pub tasks: Seq<TaskView>,
    /// What was closed, as it is now.
    pub closed: Seq<TaskView>,
    /// The commit that closed each, shortened.
    pub by: Seq<Seq<char>>,
    pub records: Seq<Record>,
}

pub open spec fn sync_start(ts: Seq<TaskView>) -> Syncing {
    Syncing { tasks: ts, closed: Seq::empty(), by: Seq::empty(), records: Seq::empty() }
}

/// `t`, closed by a commit.
pub open spec fn closed_task(t: TaskView, sha: Seq<char>, now: Moment) -> TaskView {
    TaskView { state: State::Done, closed_by: Some(sha), updated: now, ..t }
}

/// One reference followed: a task that is done or no longer there is left
/// alone.
pub open spec fn close_one(
    s: Syncing,
    id: u32,
    commit: CommitView,
    actor: Option<Seq<char>>,
    now: Moment,
) -> Syncing {
    match lookup(s.tasks, id) {
        None => s,
        Some(i) => if s.tasks[i].state == State::Done {
            s
        } else {
            let t = closed_task(s.tasks[i], commit.sha, now);
            Syncing {
                tasks: s.tasks.update(i, t),
                closed: s.closed.push(t),
                by: s.by.push(commit.short()),
                records: s.records.push(
                    record_of("sync"@, actor, id, Some("closed by "@ + commit.short()), t.branch),
                ),
            }
        },
    }
}

/// The first `n` references of one commit followed.
pub open spec fn close_some(
    s: Syncing,
    ids: Seq<u32>,
    n: nat,
    commit: CommitView,
    actor: Option<Seq<char>>,
    now: Moment,
) -> Syncing
    decreases n,
{
    if n == 0 {
        s
    } else {
        close_one(
            close_some(s, ids, (n - 1) as nat, commit, actor, now),
            ids[n - 1],
            commit,
            actor,
            now,
        )
    }
}

/// The references of the first `n` commits followed.
pub open spec fn sync_some(
    ts: Seq<TaskView>,
    commits: Seq<CommitView>,
    n: nat,
    actor: Option<Seq<char>>,
    now: Moment,
) -> Syncing
    decreases n,
{
    if n == 0 {
        sync_start(ts)
    } else {
        let ids = closed_in(bare_words(commits[n - 1].message));
        close_some(
            sync_some(ts, commits, (n - 1) as nat, actor, now),
            ids,
            ids.len(),
            commits[n - 1],
            actor,
            now,
        )
    }
}

/// What was closed, and by which commits.
pub struct Synced {
    pub closed: Vec<Task>,
    /// The commit that closed each, shortened.
    pub by: Vec<String>,
    pub entries: Vec<Entry>,
}

impl Synced {
    pub fn nothing() -> (r: Synced)
        ensures
            r.at(Seq::empty()) == sync_start(Seq::empty()),
            r.paired(),
    {
        let r = Synced { closed: Vec::new(), by: Vec::new(), entries: Vec::new() };
        assert(r.at(Seq::empty()) =~= sync_start(Seq::empty()));
        r
    }

    /// Whether there is a commit for each task that was closed.
    pub open spec fn paired(self) -> bool {
        self.closed@.len() == self.by@.len()
    }

    /// This, with the list it belongs to.
    pub open spec fn at(self, ts: Seq<TaskView>) -> Syncing {
        Syncing {
            tasks: ts,
            closed: task_views(self.closed@),
            by: views(self.by@),
            records: records(self.entries@),
        }
    }
}

/// Closes the tasks that one commit refers to, adding to what was closed
/// before.
pub fn close_refs(
    store: &mut Store,
    out: &mut Synced,
    commit: &Commit,
    ids: &Vec<u32>,
    actor: Option<&str>,
    now: Moment,
)
    requires
        commit@.wf(),
    ensures
        ({
            let s = close_some(
                old(out).at(old(store)@.tasks),
                ids@,
                ids@.len(),
                commit@,
                opt_str_view(actor),
                now,
            );
            &&& final(out).at(final(store)@.tasks) == s
            &&& final(store)@ == (DataView { tasks: s.tasks, ..old(store)@ })
        }),
        old(out).paired() ==> final(out).paired(),
        final(store).kept(*old(store)),
        old(store).wf() ==> final(store).wf(),
{
    let ghost was = store@;
    let ghost start = out.at(store@.tasks);
    let ghost who = opt_str_view(actor);
    let mut k: usize = 0;
    while k < ids.len()
        invariant
            k <= ids@.len(),
            commit@.wf(),
            who == opt_str_view(actor),
            store.kept(*old(store)),
            data_ok(was) ==> store.wf(),
            old(out).paired() ==> out.paired(),
            ({
                let s = close_some(start, ids@, k as nat, commit@, who, now);
                &&& out.at(store@.tasks) == s
                &&& store@ == (DataView { tasks: s.tasks, ..was })
            }),
        decreases ids@.len() - k,
    {
        let id: u32 = ids[k];
        let ghost s = close_some(start, ids@, k as nat, commit@, who, now);
        let ghost before = store@;
        let ghost sofar = *out;
        let mut found: Option<Task> = None;
        if let Some(task) = store.get_mut(id) {
            if task.state != State::Done {
                task.state = State::Done;
                task.closed_by = Some(commit.sha.clone());
                task.updated = now;
                found = Some(task.clone());
            }
        }
        let ghost next = close_one(s, id, commit@, who, now);
        proof {
            assert(next == close_some(start, ids@, (k + 1) as nat, commit@, who, now));
            assert(s.tasks == before.tasks);
            lemma_lookup(before.tasks, id);
            assert(store@.tasks =~= next.tasks);
            lemma_close_one_links(s, id, commit@, who, now);
            lemma_same_links(before.tasks, store@.tasks);
            if data_ok(was) {
                lemma_in_place(before, store@);
            }
        }
        if let Some(t) = found {
            let short = commit.short();
            let detail = cat("closed by ", short);
            let e = entry("sync", actor, id, Some(detail.as_str()), as_opt(&t.branch));
            out.entries.push(e);
            out.by.push(short.to_owned());
            out.closed.push(t);
            proof {
                assert(task_views(out.closed@) =~= task_views(sofar.closed@).push(t@));
                assert(views(out.by@) =~= views(sofar.by@).push(commit@.short()));
                assert(records(out.entries@) =~= records(sofar.entries@).push(e@.record()));
            }
        }
        assert(out.at(store@.tasks) =~= next);
        k += 1;
    }
}

proof fn lemma_close_one_links(
    s: Syncing,
    id: u32,
    commit: CommitView,
    actor: Option<Seq<char>>,
    now: Moment,
)
    ensures
        ({
            let n = close_one(s, id, commit, actor, now);
            &&& n.tasks.len() == s.tasks.len()
            &&& forall|i: int|
                0 <= i < s.tasks.len() ==> (#[trigger] n.tasks[i]).id == s.tasks[i].id
                    && n.tasks[i].parent == s.tasks[i].parent
        }),
{
    lemma_lookup(s.tasks, id);
}

/// Where to read the log from: the last commit that was read, unless all of it
/// is to be read again.
pub fn since(store: &Store, rescan: bool) -> (r: Option<String>)
    ensures
        opt_view(r) == (if rescan {
            None
        } else {
            store@.last_commit
        }),
{
    if rescan {
        None
    } else {
        own_opt(store.last_commit())
    }
}

/// Closes the tasks that these commits refer to.
pub fn cmd_sync(store: &mut Store, actor: Option<&str>, now: Moment, commits: &Vec<Commit>) -> (r:
    Synced)
    requires
        forall|i: int| 0 <= i < commits@.len() ==> (#[trigger] commits@[i])@.wf(),
    ensures
        ({
            let s = sync_some(
                old(store)@.tasks,
                commit_views(commits@),
                commits@.len(),
                opt_str_view(actor),
                now,
            );
            &&& r.at(final(store)@.tasks) == s
            &&& final(store)@ == (DataView { tasks: s.tasks, ..old(store)@ })
        }),
        r.paired(),
        final(store).kept(*old(store)),
        old(store).wf() ==> final(store).wf(),
{
    let ghost was = store@;
    let ghost cs = commit_views(commits@);
    let ghost who = opt_str_view(actor);
    let mut out = Synced::nothing();
    assert(out.at(store@.tasks) =~= sync_start(was.tasks)) by {
        let e = out.at(Seq::empty());
        assert(e.closed == Seq::<TaskView>::empty());
    }
    let mut k: usize = 0;
    while k < commits.len()
        invariant
            k <= commits@.len(),
            forall|i: int| 0 <= i < commits@.len() ==> (#[trigger] commits@[i])@.wf(),
            cs == commit_views(commits@),
            who == opt_str_view(actor),
            store.kept(*old(store)),
            data_ok(was) ==> store.wf(),
            out.paired(),
            ({
                let s = sync_some(was.tasks, cs, k as nat, who, now);
                &&& out.at(store@.tasks) == s
                &&& store@ == (DataView { tasks: s.tasks, ..was })
            }),
        decreases commits@.len() - k,
    {
        let commit = &commits[k];
        assert(cs[k as int] == commit@);
        let ids = closing_refs(commit.message.as_str());
        close_refs(store, &mut out, commit, &ids, actor, now);
        k += 1;
    }
    out
}

/// Closes the tasks that these commits refer to, and remembers `head` as the
/// commit that was read last. That goes for a sync that closes nothing, too, so
/// that the next one does not walk the same history again.
pub fn sync_to(
    store: &mut Store,
    actor: Option<&str>,
    now: Moment,
    commits: &Vec<Commit>,
    head: Option<String>,
) -> (r: Synced)
    requires
        forall|i: int| 0 <= i < commits@.len() ==> (#[trigger] commits@[i])@.wf(),
    ensures
        ({
            let s = sync_some(
                old(store)@.tasks,
                commit_views(commits@),
                commits@.len(),
                opt_str_view(actor),
                now,
            );
            &&& r.at(final(store)@.tasks) == s
            &&& final(store)@ == (DataView {
                tasks: s.tasks,
                last_commit: opt_view(head),
                ..old(store)@
            })
        }),
        r.paired(),
        final(store).kept(*old(store)),
        old(store).wf() ==> final(store).wf(),
{
    let out = cmd_sync(store, actor, now, commits);
    store.set_last_commit(head);
    out
}

pub open spec fn sync_line(t: TaskView, short: Seq<char>) -> Seq<char> {
    "  ✓ #"@ + decimal(t.id as nat) + "  "@ + t.title + "  ("@ + short + ")"@
}

pub open spec fn dry_run_note(dry: bool) -> Seq<Seq<char>> {
    if dry {
        seq!["  (dry run — nothing written)"@]
    } else {
        Seq::empty()
    }
}

/// What is said after a sync that read `commits` commits.
pub open spec fn sync_lines(
    closed: Seq<TaskView>,
    by: Seq<Seq<char>>,
    commits: nat,
    dry: bool,
) -> Seq<Seq<char>> {
    if closed.len() == 0 {
        seq!["  Nothing to close in "@ + decimal(commits) + " commit(s)."@]
    } else {
        Seq::new(closed.len(), |i: int| sync_line(closed[i], by[i])) + dry_run_note(dry)
    }
}

/// What is said after a sync.
pub fn report_sync(out: &Synced, commits: usize, dry: bool) -> (r: Vec<String>)
    requires
        out.paired(),
    ensures
        views(r@) == sync_lines(task_views(out.closed@), views(out.by@), commits as nat, dry),
{
    let ghost ts = task_views(out.closed@);
    let ghost by = views(out.by@);
    let mut lines: Vec<String> = Vec::new();
    if out.closed.len() == 0 {
        let n = to_decimal(commits as u64);
        let mut line = cat("  Nothing to close in ", n.as_str());
        line.append(" commit(s).");
        lines.push(line);
        assert(views(lines@) =~= sync_lines(ts, by, commits as nat, dry));
        return lines;
    }
    let ghost all = Seq::new(ts.len(), |i: int| sync_line(ts[i], by[i]));
    assert(views(lines@) =~= all.take(0));
    let mut i: usize = 0;
    while i < out.closed.len()
        invariant
            i <= out.closed@.len(),
            out.closed@.len() == out.by@.len(),
            ts == task_views(out.closed@),
            by == views(out.by@),
            all == Seq::new(ts.len(), |i: int| sync_line(ts[i], by[i])),
            views(lines@) == all.take(i as int),
        decreases out.closed@.len() - i,
    {
        let ghost so_far = lines@;
        let t = &out.closed[i];
        let n = to_decimal(t.id as u64);
        let mut line = cat("  ✓ #", n.as_str());
        line.append("  ");
        line.append(t.title.as_str());
        line.append("  (");
        line.append(out.by[i].as_str());
        line.append(")");
        lines.push(line);
        assert(views(lines@) =~= views(so_far).push(sync_line(t@, by[i as int])));
        assert(views(lines@) =~= all.take(i + 1));
        i += 1;
    }
    assert(all.take(i as int) =~= all);
    if dry {
        let ghost so_far = lines@;
        lines.push("  (dry run — nothing written)".to_owned());
        assert(views(lines@) =~= views(so_far) + dry_run_note(dry));
    } else {
        assert(all + dry_run_note(dry) =~= all);
    }
    lines
}

// ---------------------------------------------------------------------------
// What holds of closing by commit
// ---------------------------------------------------------------------------

/// Mentioning a task is not finishing it: without a closing word, a message
/// closes nothing.
pub proof fn law_mentions_close_nothing(words: Seq<Seq<char>>)
    requires
        forall|i: int| 0 <= i < words.len() ==> !is_closing(#[trigger] words[i]),
    ensures
        closed_in(words).len() == 0,
{
    lemma_never_armed(words, words.len());
}

proof fn lemma_never_armed(words: Seq<Seq<char>>, n: nat)
    requires
        n <= words.len(),
        forall|i: int| 0 <= i < words.len() ==> !is_closing(#[trigger] words[i]),
    ensures
        reading(words, n) == (Reading { ids: Seq::empty(), armed: false }),
    decreases n,
{
    if n > 0 {
        lemma_never_armed(words, (n - 1) as nat);
        assert(!is_closing(words[n - 1]));
    }
}

/// A word that neither closes nor refers breaks the association: what comes
/// after it is read as if nothing had come before.
pub proof fn law_other_words_break_the_association(
    before: Seq<Seq<char>>,
    word: Seq<char>,
    after: Seq<Seq<char>>,
)
    requires
        !is_closing(word),
        !is_reference(word),
    ensures
        closed_in(before.push(word) + after) == closed_in(before) + closed_in(after),
{
    let all = before.push(word) + after;
    lemma_same_reading(before, all, before.len());
    assert(all[before.len() as int] == word);
    let r = reading(all, before.len() + 1);
    assert(r == (Reading { ids: closed_in(before), armed: false }));
    lemma_reading_resumes(before.push(word), after, after.len());
}

proof fn lemma_same_reading(a: Seq<Seq<char>>, b: Seq<Seq<char>>, n: nat)
    requires
        n <= a.len(),
        n <= b.len(),
        forall|i: int| 0 <= i < n ==> a[i] == b[i],
    ensures
        reading(a, n) == reading(b, n),
    decreases n,
{
    if n > 0 {
        lemma_same_reading(a, b, (n - 1) as nat);
    }
}

proof fn lemma_reading_resumes(a: Seq<Seq<char>>, b: Seq<Seq<char>>, n: nat)
    requires
        n <= b.len(),
        !reading(a + b, a.len()).armed,
    ensures
        ({
            let r = reading(a + b, a.len() + n);
            &&& r.armed == reading(b, n).armed
            &&& r.ids == reading(a + b, a.len()).ids + reading(b, n).ids
        }),
    decreases n,
{
    if n == 0 {
        assert(reading(a + b, a.len()).ids + Seq::<u32>::empty() =~= reading(a + b, a.len()).ids);
    } else {
        lemma_reading_resumes(a, b, (n - 1) as nat);
        assert((a + b)[a.len() + n - 1] == b[n - 1]);
        let base = reading(a + b, a.len()).ids;
        let p = reading(b, (n - 1) as nat).ids;
        if let Some(id) = referred(b[n - 1]) {
            assert((base + p).push(id) =~= base + p.push(id));
        }
    }
}

/// Whether some of the first `n` commits say to close a task.
pub open spec fn called(commits: Seq<CommitView>, n: nat, id: u32) -> bool {
    exists|k: int|
        0 <= k < n && closed_in(bare_words((#[trigger] commits[k]).message)).contains(id)
}

/// Following references touches only open tasks that a commit names, and does
/// nothing to those but close them.
pub proof fn law_syncing_closes_only_what_is_named(
    ts: Seq<TaskView>,
    commits: Seq<CommitView>,
    n: nat,
    actor: Option<Seq<char>>,
    now: Moment,
)
    requires
        n <= commits.len(),
    ensures
        ({
            let s = sync_some(ts, commits, n, actor, now);
            &&& s.tasks.len() == ts.len()
            &&& forall|i: int|
                0 <= i < ts.len() ==> {
                    ||| #[trigger] s.tasks[i] == ts[i]
                    ||| ts[i].state != State::Done && called(commits, n, ts[i].id) && exists|k: int|
                        0 <= k < n && s.tasks[i] == closed_task(
                            ts[i],
                            (#[trigger] commits[k]).sha,
                            now,
                        )
                }
        }),
    decreases n,
{
    if n > 0 {
        let m = (n - 1) as nat;
        law_syncing_closes_only_what_is_named(ts, commits, m, actor, now);
        let p = sync_some(ts, commits, m, actor, now);
        let ids = closed_in(bare_words(commits[m as int].message));
        let s = sync_some(ts, commits, n, actor, now);
        lemma_close_some(p, ids, ids.len(), commits[m as int], actor, now);
        assert forall|i: int| 0 <= i < ts.len() implies {
            ||| #[trigger] s.tasks[i] == ts[i]
            ||| ts[i].state != State::Done && called(commits, n, ts[i].id) && exists|k: int|
                0 <= k < n && s.tasks[i] == closed_task(ts[i], (#[trigger] commits[k]).sha, now)
        } by {
            assert(p.tasks[i] == p.tasks[i]);
            if p.tasks[i] != ts[i] {
                assert(p.tasks[i].state == State::Done);
                assert(s.tasks[i] == p.tasks[i]);
                let k = choose|k: int|
                    0 <= k < m && p.tasks[i] == closed_task(
                        ts[i],
                        (#[trigger] commits[k]).sha,
                        now,
                    );
                assert(commits[k].sha == commits[k].sha);
                let j = choose|j: int|
                    0 <= j < m && closed_in(
                        bare_words((#[trigger] commits[j]).message),
                    ).contains(ts[i].id);
                assert(called(commits, n, ts[i].id));
            } else if s.tasks[i] != p.tasks[i] {
                assert(closed_in(bare_words(commits[m as int].message)).contains(ts[i].id));
                assert(called(commits, n, ts[i].id));
                assert(s.tasks[i] == closed_task(ts[i], commits[m as int].sha, now));
            }
        }
    }
}

proof fn lemma_close_some(
    s: Syncing,
    ids: Seq<u32>,
    n: nat,
    commit: CommitView,
    actor: Option<Seq<char>>,
    now: Moment,
)
    requires
        n <= ids.len(),
    ensures
        ({
            let r = close_some(s, ids, n, commit, actor, now);
            &&& r.tasks.len() == s.tasks.len()
            &&& forall|i: int|
                0 <= i < s.tasks.len() ==> {
                    ||| #[trigger] r.tasks[i] == s.tasks[i]
                    ||| s.tasks[i].state != State::Done && ids.contains(s.tasks[i].id)
                        && r.tasks[i] == closed_task(s.tasks[i], commit.sha, now)
                }
            &&& forall|k: int|
                0 <= k < n ==> (lookup(r.tasks, #[trigger] ids[k]) matches Some(i) ==> r.tasks[i].state
                    == State::Done)
        }),
    decreases n,
{
    if n > 0 {
        let m = (n - 1) as nat;
        lemma_close_some(s, ids, m, commit, actor, now);
        let p = close_some(s, ids, m, commit, actor, now);
        let r = close_some(s, ids, n, commit, actor, now);
        let id = ids[m as int];
        lemma_lookup(p.tasks, id);
        lemma_close_one_links(p, id, commit, actor, now);
        assert(ids.contains(id));
        assert forall|i: int| 0 <= i < s.tasks.len() implies {
            ||| #[trigger] r.tasks[i] == s.tasks[i]
            ||| s.tasks[i].state != State::Done && ids.contains(s.tasks[i].id) && r.tasks[i]
                == closed_task(s.tasks[i], commit.sha, now)
        } by {
            assert(p.tasks[i] == p.tasks[i]);
        }
        assert forall|k: int| 0 <= k < n implies (lookup(r.tasks, #[trigger] ids[k]) matches Some(
            i,
        ) ==> r.tasks[i].state == State::Done) by {
            lemma_same_links(p.tasks, r.tasks);
            crate::store::lemma_same_lookup(p.tasks, r.tasks, ids[k], 0);
            lemma_lookup(p.tasks, ids[k]);
        }
    }
}

/// Whether a commit is the first that says to close a task.
pub open spec fn first_to_name(commits: Seq<CommitView>, k: int, id: u32) -> bool {
    closed_in(bare_words(commits[k].message)).contains(id) && !called(commits, k as nat, id)
}

/// A task is closed exactly where it is open and a commit names it, and it is
/// the first such commit that closed it.
pub proof fn law_the_first_commit_to_name_a_task_closes_it(
    ts: Seq<TaskView>,
    commits: Seq<CommitView>,
    n: nat,
    actor: Option<Seq<char>>,
    now: Moment,
)
    requires
        n <= commits.len(),
        unique_ids(ts),
    ensures
        ({
            let s = sync_some(ts, commits, n, actor, now);
            &&& s.tasks.len() == ts.len()
            &&& forall|i: int|
                0 <= i < ts.len() && (ts[i].state == State::Done || !called(
                    commits,
                    n,
                    ts[i].id,
                )) ==> #[trigger] s.tasks[i] == ts[i]
            &&& forall|i: int, k: int|
                0 <= i < ts.len() && 0 <= k < n && ts[i].state != State::Done
                    && #[trigger] first_to_name(commits, k, ts[i].id) ==> s.tasks[i] == closed_task(
                    ts[i],
                    commits[k].sha,
                    now,
                )
        }),
    decreases n,
{
    law_syncing_closes_only_what_is_named(ts, commits, n, actor, now);
    if n > 0 {
        let m = (n - 1) as nat;
        law_the_first_commit_to_name_a_task_closes_it(ts, commits, m, actor, now);
        law_syncing_closes_only_what_is_named(ts, commits, m, actor, now);
        let p = sync_some(ts, commits, m, actor, now);
        let s = sync_some(ts, commits, n, actor, now);
        let ids = closed_in(bare_words(commits[m as int].message));
        lemma_close_some(p, ids, ids.len(), commits[m as int], actor, now);
        assert forall|j: int| 0 <= j < ts.len() implies (#[trigger] s.tasks[j]).id == ts[j].id by {}
        assert forall|i: int, k: int|
            0 <= i < ts.len() && 0 <= k < n && ts[i].state != State::Done
                && #[trigger] first_to_name(commits, k, ts[i].id) implies s.tasks[i] == closed_task(
            ts[i],
            commits[k].sha,
            now,
        ) by {
            assert(s.tasks[i] == s.tasks[i]);
            if k < m {
                assert(p.tasks[i].state == State::Done);
            } else {
                assert(p.tasks[i] == ts[i]);
                let q = choose|q: int| 0 <= q < ids.len() && ids[q] == ts[i].id;
                lemma_lookup_at(ts, i);
                crate::store::lemma_same_lookup(ts, s.tasks, ts[i].id, 0);
                assert(lookup(s.tasks, ids[q]) == Some(i));
                assert(s.tasks[i].state == State::Done);
            }
        }
    }
}

/// Reading the same commits again closes nothing more.
pub proof fn law_syncing_twice_changes_nothing(
    ts: Seq<TaskView>,
    commits: Seq<CommitView>,
    actor: Option<Seq<char>>,
    now: Moment,
    later: Moment,
)
    ensures
        ({
            let s = sync_some(ts, commits, commits.len(), actor, now).tasks;
            sync_some(s, commits, commits.len(), actor, later) == sync_start(s)
        }),
{
    lemma_all_closed(ts, commits, commits.len(), actor, now);
    let s = sync_some(ts, commits, commits.len(), actor, now).tasks;
    lemma_nothing_left(s, commits, commits.len(), actor, later);
}

/// Whether every task that a commit refers to is done.
pub open spec fn all_closed(ts: Seq<TaskView>, commits: Seq<CommitView>, n: nat) -> bool {
    forall|k: int, j: int|
        #![trigger closed_in(bare_words(commits[k].message))[j]]
        0 <= k < n && 0 <= j < closed_in(bare_words(commits[k].message)).len() ==> (lookup(
            ts,
            closed_in(bare_words(commits[k].message))[j],
        ) matches Some(i) ==> ts[i].state == State::Done)
}

proof fn lemma_all_closed(
    ts: Seq<TaskView>,
    commits: Seq<CommitView>,
    n: nat,
    actor: Option<Seq<char>>,
    now: Moment,
)
    requires
        n <= commits.len(),
    ensures
        all_closed(sync_some(ts, commits, n, actor, now).tasks, commits, n),
    decreases n,
{
    if n > 0 {
        let m = (n - 1) as nat;
        lemma_all_closed(ts, commits, m, actor, now);
        let p = sync_some(ts, commits, m, actor, now);
        let ids = closed_in(bare_words(commits[m as int].message));
        let s = sync_some(ts, commits, n, actor, now);
        lemma_close_some(p, ids, ids.len(), commits[m as int], actor, now);
        assert forall|k: int, j: int|
            #![trigger closed_in(bare_words(commits[k].message))[j]]
            0 <= k < n && 0 <= j < closed_in(bare_words(commits[k].message)).len() implies (lookup(
            s.tasks,
            closed_in(bare_words(commits[k].message))[j],
        ) matches Some(i) ==> s.tasks[i].state == State::Done) by {
            let id = closed_in(bare_words(commits[k].message))[j];
            if k < m {
                assert forall|i: int| 0 <= i < p.tasks.len() implies (#[trigger] s.tasks[i]).id
                    == p.tasks[i].id && s.tasks[i].parent == p.tasks[i].parent by {}
                crate::store::lemma_same_lookup(p.tasks, s.tasks, id, 0);
                lemma_lookup(p.tasks, id);
                if let Some(i) = lookup(p.tasks, id) {
                    assert(s.tasks[i] == s.tasks[i]);
                }
            } else {
                assert(ids[j] == id);
            }
        }
    }
}

proof fn lemma_nothing_left(
    ts: Seq<TaskView>,
    commits: Seq<CommitView>,
    n: nat,
    actor: Option<Seq<char>>,
    now: Moment,
)
    requires
        n <= commits.len(),
        all_closed(ts, commits, commits.len()),
    ensures
        sync_some(ts, commits, n, actor, now) == sync_start(ts),
    decreases n,
{
    if n > 0 {
        let m = (n - 1) as nat;
        lemma_nothing_left(ts, commits, m, actor, now);
        let ids = closed_in(bare_words(commits[m as int].message));
        assert forall|j: int| 0 <= j < ids.len() implies (lookup(ts, #[trigger] ids[j]) matches Some(
            i,
        ) ==> ts[i].state == State::Done) by {
            assert(closed_in(bare_words(commits[m as int].message))[j] == ids[j]);
        }
        lemma_close_nothing(sync_start(ts), ids, ids.len(), commits[m as int], actor, now);
    }
}

proof fn lemma_close_nothing(
    s: Syncing,
    ids: Seq<u32>,
    n: nat,
    commit: CommitView,
    actor: Option<Seq<char>>,
    now: Moment,
)
    requires
        n <= ids.len(),
        forall|j: int|
            0 <= j < ids.len() ==> (lookup(s.tasks, #[trigger] ids[j]) matches Some(i)
                ==> s.tasks[i].state == State::Done),
    ensures
        close_some(s, ids, n, commit, actor, now) == s,
    decreases n,
{
    if n > 0 {
        lemma_close_nothing(s, ids, (n - 1) as nat, commit, actor, now);
        assert(ids[n - 1] == ids[n - 1]);
    }
}

/// Closing by commit splits no tree.
pub proof fn law_syncing_keeps_branches_together(
    ts: Seq<TaskView>,
    commits: Seq<CommitView>,
    n: nat,
    actor: Option<Seq<char>>,
    now: Moment,
)
    requires
        n <= commits.len(),
        coherent(ts),
    ensures
        coherent(sync_some(ts, commits, n, actor, now).tasks),
{
    law_syncing_closes_only_what_is_named(ts, commits, n, actor, now);
    law_changes_in_place_keep_branches_together(ts, sync_some(ts, commits, n, actor, now).tasks);
}

/// A reference: `clt#`, an id, and what else hangs on the word.
pub open spec fn reference_to(n: nat, tail: Seq<char>) -> Seq<char> {
    "clt#"@ + decimal(n) + tail
}

/// Whether something that hangs on a reference leaves its number as it is.
pub open spec fn hangs_on(tail: Seq<char>) -> bool {
    tail.len() == 0 || !('0' <= tail[0] <= '9')
}

proof fn lemma_reference_to(n: nat, tail: Seq<char>)
    requires
        hangs_on(tail),
    ensures
        is_reference(reference_to(n, tail)),
        !is_closing(reference_to(n, tail)),
        referred(reference_to(n, tail)) == (if n > u32::MAX {
            None
        } else {
            Some(n as u32)
        }),
{
    let w = reference_to(n, tail);
    lemma_decimal_round_trip(n);
    reveal_strlit("clt#");
    assert(w.take(4) =~= "clt#"@);
    lemma_clt_word(w);
    let rest = w.skip(4);
    assert(rest =~= decimal(n) + tail);
    let e = run_end(rest, 0, digits());
    lemma_run_end(rest, 0, digits());
    let k = decimal(n).len() as int;
    assert(e == k) by {
        if e < k {
            assert(rest[e] == decimal(n)[e]);
            assert(!digits()(rest[e]));
        }
        if k < e {
            assert(digits()(rest[k]));
            assert(rest[k] == tail[0]);
        }
    }
    assert(rest.take(k) =~= decimal(n));
}

/// A word that starts with `clt#` refers, and closes nothing by itself.
proof fn lemma_clt_word(w: Seq<char>)
    requires
        w.len() >= 4,
        w.take(4) =~= "clt#"@,
    ensures
        is_reference(w),
        !is_closing(w),
{
    reveal_strlit("clt#");
    assert(w.subrange(0, 4) =~= "clt#"@);
    assert(w[2] == w.take(4)[2]);
    assert(w[0] == w.take(4)[0]);
    reveal_strlit("close");
    reveal_strlit("closes");
    reveal_strlit("closed");
    reveal_strlit("fix");
    reveal_strlit("fixes");
    reveal_strlit("fixed");
    reveal_strlit("resolve");
    reveal_strlit("resolves");
    reveal_strlit("resolved");
}

/// Reading goes on in the same way from the same state.
proof fn lemma_goes_on(a: Seq<Seq<char>>, b: Seq<Seq<char>>, c: Seq<Seq<char>>)
    requires
        reading(a, a.len()) == reading(b, b.len()),
    ensures
        reading(a + c, (a + c).len()) == reading(b + c, (b + c).len()),
    decreases c.len(),
{
    if c.len() == 0 {
        assert(a + c =~= a);
        assert(b + c =~= b);
    } else {
        let r = c.drop_last();
        lemma_goes_on(a, b, r);
        lemma_same_reading(a + c, a + r, (a + r).len());
        lemma_same_reading(b + c, b + r, (b + r).len());
        assert((a + c)[(a + c).len() - 1] == c.last());
        assert((b + c)[(b + c).len() - 1] == c.last());
    }
}

proof fn lemma_one_word(a: Seq<Seq<char>>, w: Seq<char>)
    ensures
        reading(a.push(w), a.len()) == reading(a, a.len()),
        a.push(w)[a.len() as int] == w,
        a.push(w).len() == a.len() + 1,
{
    lemma_same_reading(a.push(w), a, a.len());
}

/// Once armed, every reference to an id counts.
proof fn lemma_armed(a: Seq<Seq<char>>, ids: Seq<u32>, tails: Seq<Seq<char>>, refs: Seq<Seq<char>>)
    requires
        reading(a, a.len()).armed,
        refs.len() == ids.len() == tails.len(),
        forall|i: int| 0 <= i < refs.len() ==> hangs_on(#[trigger] tails[i]),
        forall|i: int|
            0 <= i < refs.len() ==> #[trigger] refs[i] == reference_to(ids[i] as nat, tails[i]),
    ensures
        reading(a + refs, (a + refs).len()).armed,
        closed_in(a + refs) == closed_in(a) + ids,
    decreases refs.len(),
{
    if refs.len() == 0 {
        assert(a + refs =~= a);
        assert(closed_in(a) + ids =~= closed_in(a));
    } else {
        let r = refs.drop_last();
        let n = refs.len() - 1;
        assert forall|i: int| 0 <= i < r.len() implies #[trigger] r[i] == reference_to(
            ids.drop_last()[i] as nat,
            tails.drop_last()[i],
        ) by {
            assert(r[i] == refs[i]);
        }
        assert forall|i: int| 0 <= i < r.len() implies hangs_on(#[trigger] tails.drop_last()[i]) by {
            assert(tails.drop_last()[i] == tails[i]);
        }
        lemma_armed(a, ids.drop_last(), tails.drop_last(), r);
        assert((a + r).push(refs[n]) =~= a + refs);
        lemma_one_word(a + r, refs[n]);
        assert(hangs_on(tails[n]));
        lemma_reference_to(ids[n] as nat, tails[n]);
        assert((closed_in(a) + ids.drop_last()).push(ids[n]) =~= closed_in(a) + ids);
    }
}

/// After a closing word, every reference up to the next other word closes its
/// task, whatever came before the closing word.
pub proof fn law_references_after_a_closing_word_close(
    before: Seq<Seq<char>>,
    word: Seq<char>,
    ids: Seq<u32>,
    tails: Seq<Seq<char>>,
    refs: Seq<Seq<char>>,
)
    requires
        ({
            ||| word == "close"@ || word == "closes"@ || word == "closed"@
            ||| word == "fix"@ || word == "fixes"@ || word == "fixed"@
            ||| word == "resolve"@ || word == "resolves"@ || word == "resolved"@
        }),
        refs.len() == ids.len() == tails.len(),
        forall|i: int| 0 <= i < refs.len() ==> hangs_on(#[trigger] tails[i]),
        forall|i: int|
            0 <= i < refs.len() ==> #[trigger] refs[i] == reference_to(ids[i] as nat, tails[i]),
    ensures
        closed_in(before.push(word) + refs) == closed_in(before) + ids,
{
    lemma_one_word(before, word);
    assert(closed_in(before.push(word)) == closed_in(before));
    lemma_armed(before.push(word), ids, tails, refs);
}

/// After any word that is neither one of the closing words nor a reference, a
/// reference closes nothing.
pub proof fn law_only_closing_words_close(
    before: Seq<Seq<char>>,
    word: Seq<char>,
    id: u32,
    tail: Seq<char>,
)
    requires
        !(word == "close"@ || word == "closes"@ || word == "closed"@),
        !(word == "fix"@ || word == "fixes"@ || word == "fixed"@),
        !(word == "resolve"@ || word == "resolves"@ || word == "resolved"@),
        word.len() < 4 || word.take(4) != "clt#"@,
        hangs_on(tail),
    ensures
        closed_in(before.push(word).push(reference_to(id as nat, tail))) == closed_in(before),
{
    reveal_strlit("clt#");
    if word.len() >= 4 {
        assert(word.subrange(0, 4) =~= word.take(4));
    }
    assert(!is_reference(word));
    lemma_one_word(before, word);
    lemma_one_word(before.push(word), reference_to(id as nat, tail));
    lemma_reference_to(id as nat, tail);
}

/// A reference with no number, or with one that is no id, is passed over: what
/// comes after it is read as if it were not there.
pub proof fn law_references_to_nothing_are_passed_over(
    before: Seq<Seq<char>>,
    word: Seq<char>,
    n: nat,
    tail: Seq<char>,
    after: Seq<Seq<char>>,
)
    requires
        hangs_on(tail),
        word == "clt#"@ + tail || (n > u32::MAX && word == reference_to(n, tail)),
    ensures
        closed_in(before.push(word) + after) == closed_in(before + after),
{
    reveal_strlit("clt#");
    lemma_one_word(before, word);
    if n > u32::MAX && word == reference_to(n, tail) {
        lemma_reference_to(n, tail);
    } else {
        assert(word.take(4) =~= "clt#"@);
        lemma_clt_word(word);
        let rest = word.skip(4);
        assert(rest =~= tail);
        lemma_run_end(rest, 0, digits());
        if tail.len() > 0 {
            assert(!digits()(rest[0]));
        }
        assert(run_end(rest, 0, digits()) == 0);
        assert(rest.take(0).len() == 0);
    }
    lemma_goes_on(before.push(word), before, after);
}

/// A word is read without the punctuation around it: what is cut off is neither
/// a letter nor a number nor `#`, and what is left neither begins nor ends with
/// anything else.
pub proof fn law_punctuation_is_cut_off(word: Seq<char>)
    ensures
        exists|a: int, b: int|
            0 <= a <= b <= lowercase(word).len() && bare(word) == #[trigger] lowercase(
                word,
            ).subrange(a, b) && (forall|i: int|
                0 <= i < lowercase(word).len() && !(a <= i < b) ==> !is_alnum(
                    #[trigger] lowercase(word)[i],
                ) && lowercase(word)[i] != '#'),
        bare(word).len() > 0 ==> (is_alnum(bare(word)[0]) || bare(word)[0] == '#') && (is_alnum(
            bare(word).last(),
        ) || bare(word).last() == '#'),
{
    let s = lowercase(word);
    let p = trimming();
    let a = run_end(s, 0, p);
    lemma_run_end(s, 0, p);
    let b = run_start(s, a, s.len() as int, p);
    crate::text::lemma_run_start(s, a, s.len() as int, p);
    assert(bare(word) == s.subrange(a, b));
    assert forall|i: int| 0 <= i < s.len() && !(a <= i < b) implies !is_alnum(#[trigger] s[i])
        && s[i] != '#' by {
        assert(p(s[i]));
    }
    if a < b {
        assert(!p(s[a]));
        assert(!p(s[b - 1]));
    }
}

/// A message is read word by word: where two are put together with blank space
/// between them, so are their words.
pub proof fn law_messages_are_read_word_by_word(a: Seq<char>, c: char, b: Seq<char>)
    requires
        crate::text::is_white(c),
    ensures
        bare_words(a.push(c) + b) == bare_words(a) + bare_words(b),
{
    crate::text::law_blank_space_separates_words(a, c, b);
    assert(bare_words(a.push(c) + b) =~= bare_words(a) + bare_words(b));
}

/// Whether line `k` of a report tells of the task at `i`, which was open, and of
/// the commit at `c`, one of the first `n`, which names it.
pub open spec fn tells_of(
    ts: Seq<TaskView>,
    commits: Seq<CommitView>,
    n: nat,
    s: Syncing,
    k: int,
    i: int,
    c: int,
    actor: Option<Seq<char>>,
    now: Moment,
) -> bool {
    &&& 0 <= i < ts.len() && 0 <= c < n
    &&& closed_in(bare_words(commits[c].message)).contains(ts[i].id)
    &&& ts[i].state != State::Done
    &&& s.closed[k] == s.tasks[i]
    &&& s.tasks[i] == (TaskView {
        state: State::Done,
        closed_by: Some(commits[c].sha),
        updated: now,
        ..ts[i]
    })
    &&& s.by[k] == commits[c].short()
    &&& s.records[k] == (Record {
        actor,
        action: "sync"@,
        id: Some(ts[i].id),
        detail: Some("closed by "@ + commits[c].short()),
        branch: ts[i].branch,
    })
}

/// Whether line `k` of a report tells of some task and some commit.
pub open spec fn is_told(
    ts: Seq<TaskView>,
    commits: Seq<CommitView>,
    n: nat,
    s: Syncing,
    k: int,
    actor: Option<Seq<char>>,
    now: Moment,
) -> bool {
    exists|i: int, c: int| #[trigger] tells_of(ts, commits, n, s, k, i, c, actor, now)
}

/// Whether a report tells of everything that was closed, and of nothing else.
pub open spec fn tells_all(
    ts: Seq<TaskView>,
    commits: Seq<CommitView>,
    n: nat,
    s: Syncing,
    actor: Option<Seq<char>>,
    now: Moment,
) -> bool {
    &&& s.tasks.len() == ts.len()
    &&& s.closed.len() == s.by.len() == s.records.len()
    &&& forall|k: int|
        0 <= k < s.closed.len() ==> #[trigger] is_told(ts, commits, n, s, k, actor, now)
    &&& forall|i: int|
        0 <= i < ts.len() && #[trigger] s.tasks[i] != ts[i] ==> s.closed.contains(s.tasks[i])
}

/// What a sync reports is what it did: each task that it closed, with the hash
/// of a commit that names it, the short form of that hash and an entry that
/// says so; and every task that changed is reported.
pub proof fn law_syncing_reports_what_it_closed(
    ts: Seq<TaskView>,
    commits: Seq<CommitView>,
    n: nat,
    actor: Option<Seq<char>>,
    now: Moment,
)
    requires
        n <= commits.len(),
    ensures
        tells_all(ts, commits, n, sync_some(ts, commits, n, actor, now), actor, now),
    decreases n,
{
    if n > 0 {
        let m = (n - 1) as nat;
        let ids = closed_in(bare_words(commits[m as int].message));
        law_syncing_reports_what_it_closed(ts, commits, m, actor, now);
        let p = sync_some(ts, commits, m, actor, now);
        assert(tells_all(ts, commits, n, p, actor, now)) by {
            assert forall|k: int| 0 <= k < p.closed.len() implies #[trigger] is_told(
                ts,
                commits,
                n,
                p,
                k,
                actor,
                now,
            ) by {
                assert(is_told(ts, commits, m, p, k, actor, now));
                let (i, c) = choose|i: int, c: int| #[trigger]
                    tells_of(ts, commits, m, p, k, i, c, actor, now);
                assert(tells_of(ts, commits, n, p, k, i, c, actor, now));
            }
        }
        lemma_tells_some(ts, commits, n, p, ids.len(), actor, now);
    }
}

proof fn lemma_tells_some(
    ts: Seq<TaskView>,
    commits: Seq<CommitView>,
    n: nat,
    p: Syncing,
    k: nat,
    actor: Option<Seq<char>>,
    now: Moment,
)
    requires
        0 < n <= commits.len(),
        k <= closed_in(bare_words(commits[n - 1].message)).len(),
        tells_all(ts, commits, n, p, actor, now),
    ensures
        tells_all(
            ts,
            commits,
            n,
            close_some(
                p,
                closed_in(bare_words(commits[n - 1].message)),
                k,
                commits[n - 1],
                actor,
                now,
            ),
            actor,
            now,
        ),
    decreases k,
{
    if k > 0 {
        let ids = closed_in(bare_words(commits[n - 1].message));
        lemma_tells_some(ts, commits, n, p, (k - 1) as nat, actor, now);
        assert(ids.contains(ids[k - 1]));
        lemma_tells_one(
            ts,
            commits,
            n,
            close_some(p, ids, (k - 1) as nat, commits[n - 1], actor, now),
            ids[k - 1],
            actor,
            now,
        );
    }
}

proof fn lemma_tells_one(
    ts: Seq<TaskView>,
    commits: Seq<CommitView>,
    n: nat,
    s: Syncing,
    id: u32,
    actor: Option<Seq<char>>,
    now: Moment,
)
    requires
        0 < n <= commits.len(),
        closed_in(bare_words(commits[n - 1].message)).contains(id),
        tells_all(ts, commits, n, s, actor, now),
    ensures
        tells_all(ts, commits, n, close_one(s, id, commits[n - 1], actor, now), actor, now),
{
    let r = close_one(s, id, commits[n - 1], actor, now);
    lemma_lookup(s.tasks, id);
    if let Some(at) = lookup(s.tasks, id) {
        if s.tasks[at].state != State::Done {
            assert(s.tasks[at] == ts[at]) by {
                if s.tasks[at] != ts[at] {
                    let k = choose|k: int| 0 <= k < s.closed.len() && s.closed[k] == s.tasks[at];
                    assert(is_told(ts, commits, n, s, k, actor, now));
                    let (i, c) = choose|i: int, c: int| #[trigger]
                        tells_of(ts, commits, n, s, k, i, c, actor, now);
                }
            }
            let last = s.closed.len() as int;
            assert(tells_of(ts, commits, n, r, last, at, n - 1, actor, now));
            assert forall|k: int| 0 <= k < r.closed.len() implies #[trigger] is_told(
                ts,
                commits,
                n,
                r,
                k,
                actor,
                now,
            ) by {
                if k < last {
                    assert(is_told(ts, commits, n, s, k, actor, now));
                    let (i, c) = choose|i: int, c: int| #[trigger]
                        tells_of(ts, commits, n, s, k, i, c, actor, now);
                    assert(i != at);
                    assert(tells_of(ts, commits, n, r, k, i, c, actor, now));
                }
            }
            assert forall|i: int| 0 <= i < ts.len() && #[trigger] r.tasks[i] != ts[i] implies r.closed.contains(
                r.tasks[i],
            ) by {
                if i == at {
                    assert(r.closed[last] == r.tasks[i]);
                } else {
                    assert(s.tasks[i] == r.tasks[i]);
                    let k = choose|k: int| 0 <= k < s.closed.len() && s.closed[k] == s.tasks[i];
                    assert(r.closed[k] == r.tasks[i]);
                }
            }
        }
    }
}

/// A sync that closed nothing says how many commits it read; any other has a
/// line for each task that it closed, with the commit, and says where it wrote
/// nothing.
pub proof fn law_what_a_sync_says(
    closed: Seq<TaskView>,
    by: Seq<Seq<char>>,
    commits: nat,
    dry: bool,
)
    requires
        closed.len() == by.len(),
    ensures
        ({
            let lines = sync_lines(closed, by, commits, dry);
            &&& closed.len() == 0 ==> lines == seq![
                "  Nothing to close in "@ + decimal(commits) + " commit(s)."@,
            ]
            &&& closed.len() > 0 ==> lines.len() == closed.len() + (if dry {
                1int
            } else {
                0
            })
            &&& closed.len() > 0 && dry ==> lines.last() == "  (dry run — nothing written)"@
            &&& forall|i: int|
                0 <= i < closed.len() ==> lines[i] == "  ✓ #"@ + decimal(
                    (#[trigger] closed[i]).id as nat,
                ) + "  "@ + closed[i].title + "  ("@ + by[i] + ")"@
        }),
{
}

} // verus!
