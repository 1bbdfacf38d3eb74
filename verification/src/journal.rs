//! The audit log: who changed what, and when.
//!
//! It exists because something *other than you* writes to your task list. The
//! moment an agent can close tasks unsupervised, a record of it stops being a
//! nice-to-have.

use crate::text::{
    blank, copy_opt, is_blank, lemma_run_end, lines, lines_from, lines_of, opt_str_view, opt_view,
    other_than, own_opt, run_end, views,
};
use crate::time::{utc_now, Moment};
use vstd::prelude::*;

verus! {

pub const FILE: &'static str = "log.jsonl";

/// The single previous generation, kept so rotation trims the log without
/// throwing history away outright.
pub const ROTATED: &'static str = "log.jsonl.1";

/// Rotate once the live log passes this.
///
/// Roughly ten thousand entries. Two generations bound the directory at about
/// 2 MB, which is small enough not to care about and large enough that nobody
/// loses history they were actually going to read.
pub const MAX_BYTES: u64 = 1_048_576;

#[derive(Debug)]
pub struct Entry {
    pub ts: Moment,
    /// `None` means you, at a terminal.
    pub actor: Option<String>,
    /// What was done: `add`, `edit`, `move`, `scope`, `rm`, `scan`, `sync`, or
    /// the state a task was put in.
    pub action: String,
    pub id: Option<u32>,
    pub detail: Option<String>,
    pub branch: Option<String>,
}

#[verifier::ext_equal]
pub struct EntryView {
    pub ts: Moment,
    pub actor: Option<Seq<char>>,
    pub action: Seq<char>,
    pub id: Option<u32>,
    pub detail: Option<Seq<char>>,
    pub branch: Option<Seq<char>>,
}

impl View for Entry {
    type V = EntryView;

    open spec fn view(&self) -> EntryView {
        EntryView {
            ts: self.ts,
            actor: opt_view(self.actor),
            action: self.action@,
            id: self.id,
            detail: opt_view(self.detail),
            branch: opt_view(self.branch),
        }
    }
}

pub open spec fn entry_views(v: Seq<Entry>) -> Seq<EntryView> {
    Seq::new(v.len(), |i: int| v[i]@)
}

/// What an entry records, whenever it was written.
#[verifier::ext_equal]
pub struct Record {
    pub actor: Option<Seq<char>>,
    pub action: Seq<char>,
    pub id: Option<u32>,
    pub detail: Option<Seq<char>>,
    pub branch: Option<Seq<char>>,
}

impl EntryView {
    pub open spec fn record(self) -> Record {
        Record {
            actor: self.actor,
            action: self.action,
            id: self.id,
            detail: self.detail,
            branch: self.branch,
        }
    }
}

/// What a list of entries records.
pub open spec fn records(v: Seq<Entry>) -> Seq<Record> {
    Seq::new(v.len(), |i: int| v[i]@.record())
}

impl Clone for Entry {
    fn clone(&self) -> (r: Entry)
        ensures
            r == *self,
    {
        Entry {
            ts: self.ts,
            actor: copy_opt(&self.actor),
            action: self.action.clone(),
            id: self.id,
            detail: copy_opt(&self.detail),
            branch: copy_opt(&self.branch),
        }
    }
}

impl Entry {
    /// An entry written at a given moment.
    pub fn at(action: &str, ts: Moment) -> (r: Entry)
        ensures
            r@ == (EntryView {
                ts,
                actor: None,
                action: action@,
                id: None,
                detail: None,
                branch: None,
            }),
    {
        Entry { ts, actor: None, action: action.to_owned(), id: None, detail: None, branch: None }
    }

    /// An entry written now. Which moment that is, only the clock knows.
    pub fn new(action: &str) -> (r: Entry)
        ensures
            r@.record() == (Record {
                actor: None,
                action: action@,
                id: None,
                detail: None,
                branch: None,
            }),
    {
        Entry::at(action, utc_now())
    }

    pub fn actor(self, actor: Option<String>) -> (r: Entry)
        ensures
            r@ == (EntryView { actor: opt_view(actor), ..self@ }),
    {
        Entry { actor, ..self }
    }

    pub fn id(self, id: u32) -> (r: Entry)
        ensures
            r@ == (EntryView { id: Some(id), ..self@ }),
    {
        Entry { id: Some(id), ..self }
    }

    pub fn detail(self, detail: &str) -> (r: Entry)
        ensures
            r@ == (EntryView { detail: Some(detail@), ..self@ }),
    {
        Entry { detail: Some(detail.to_owned()), ..self }
    }

    pub fn branch(self, branch: Option<&str>) -> (r: Entry)
        ensures
            r@ == (EntryView { branch: opt_str_view(branch), ..self@ }),
    {
        Entry { branch: own_opt(branch), ..self }
    }
}

/// The lines one after the other, each ended by a line feed.
pub open spec fn ended_lines(parts: Seq<Seq<char>>) -> Seq<char>
    decreases parts.len(),
{
    if parts.len() == 0 {
        Seq::empty()
    } else {
        ended_lines(parts.drop_last()) + parts.last() + "\n"@
    }
}

/// The batch of encoded entries as one piece of text, so that it can be
/// appended by a single write.
pub fn batch(encoded: &Vec<String>) -> (r: String)
    ensures
        r@ == ended_lines(views(encoded@)),
{
    let mut out = String::new();
    let mut i: usize = 0;
    while i < encoded.len()
        invariant
            i <= encoded@.len(),
            out@ == ended_lines(views(encoded@).take(i as int)),
        decreases encoded@.len() - i,
    {
        out.append(encoded[i].as_str());
        out.append("\n");
        assert(views(encoded@).take(i + 1).drop_last() =~= views(encoded@).take(i as int));
        i += 1;
    }
    assert(views(encoded@).take(i as int) =~= views(encoded@));
    out
}

/// Whether a live log of this size is to be moved aside before the next write.
pub fn due_for_rotation(len: u64) -> (r: bool)
    ensures
        r == (len >= MAX_BYTES),
{
    len >= MAX_BYTES
}

/// The lines of a log that hold something.
pub open spec fn filled_lines(raw: Seq<char>) -> Seq<Seq<char>> {
    lines_of(raw).filter(|l: Seq<char>| !is_blank(l))
}

/// The lines of a log to be decoded. One that cannot be decoded is skipped: a
/// truncated final line from an interrupted write shouldn't cost the rest.
pub fn entry_lines(raw: &str) -> (r: Vec<String>)
    ensures
        views(r@) == filled_lines(raw@),
{
    let all = lines(raw);
    let ghost p = |l: Seq<char>| !is_blank(l);
    let mut out: Vec<String> = Vec::new();
    let mut i: usize = 0;
    proof {
        reveal(Seq::filter);
        assert(views(out@) =~= views(all@).take(0).filter(p));
    }
    while i < all.len()
        invariant
            i <= all@.len(),
            p == |l: Seq<char>| !is_blank(l),
            views(out@) == views(all@).take(i as int).filter(p),
        decreases all@.len() - i,
    {
        let ghost before = out@;
        let filled = !blank(all[i].as_str());
        if filled {
            out.push(all[i].clone());
        }
        proof {
            reveal(Seq::filter);
            assert(views(all@).take(i + 1).drop_last() =~= views(all@).take(i as int));
            assert(views(all@).take(i + 1).last() == all@[i as int]@);
            if filled {
                assert(views(out@) =~= views(before).push(all@[i as int]@));
            }
        }
        i += 1;
    }
    assert(views(all@).take(i as int) =~= views(all@));
    out
}

/// Whether the previous generation has to be looked at: only when the live log
/// cannot satisfy the request on its own.
pub fn needs_older(live: &Vec<Entry>, limit: usize) -> (r: bool)
    ensures
        r == (live@.len() < limit),
{
    live.len() < limit
}

/// The last `limit` of a sequence.
pub open spec fn last_of<T>(s: Seq<T>, limit: nat) -> Seq<T> {
    if s.len() <= limit {
        s
    } else {
        s.skip(s.len() - limit)
    }
}

/// The last `limit` entries, oldest first, across a rotation.
pub fn tail(live: Vec<Entry>, older: Vec<Entry>, limit: usize) -> (r: Vec<Entry>)
    ensures
        r@ == last_of(older@ + live@, limit as nat),
{
    let ghost all = older@ + live@;
    let mut live = live;
    if live.len() >= limit {
        let drop: usize = live.len() - limit;
        let r = live.split_off(drop);
        assert(r@ =~= last_of(all, limit as nat));
        return r;
    }
    let want: usize = limit - live.len();
    let mut older = older;
    let mut r = if older.len() > want {
        let drop: usize = older.len() - want;
        older.split_off(drop)
    } else {
        older
    };
    r.append(&mut live);
    assert(r@ =~= last_of(all, limit as nat));
    r
}

// ---------------------------------------------------------------------------
// What is appended is read back
// ---------------------------------------------------------------------------

/// Lines after a prefix are the lines of what follows the prefix.
proof fn lemma_lines_after(a: Seq<char>, b: Seq<char>, j: int)
    requires
        0 <= j,
        a.len() == 0 || a.last() == '\n',
    ensures
        lines_from(a + b, a.len() + j) == lines_from(b, j),
    decreases b.len() - j,
{
    let s = a + b;
    let p = other_than('\n');
    if j < b.len() {
        let n = run_end(b, j, p);
        let m = run_end(s, a.len() + j, p);
        lemma_run_end(b, j, p);
        lemma_run_end(s, a.len() + j, p);
        assert forall|k: int| 0 <= k < b.len() implies s[a.len() + k] == b[k] by {}
        assert(m == a.len() + n) by {
            if m < a.len() + n {
                assert(!p(s[m]));
                assert(p(b[m - a.len()]));
            }
            if m > a.len() + n {
                assert(p(s[a.len() + n]));
                assert(!p(b[n]));
            }
        }
        if n < b.len() {
            lemma_lines_after(a, b, n + 1);
            if n > j {
                assert(s[m - 1] == b[n - 1]);
            }
            let e = if n > j && b[n - 1] == '\r' {
                n - 1
            } else {
                n
            };
            assert(s.subrange(a.len() + j, a.len() + e) =~= b.subrange(j, e));
            assert(m + 1 == a.len() + (n + 1));
        } else {
            assert(s.subrange(a.len() + j, s.len() as int) =~= b.subrange(j, b.len() as int));
        }
    }
}

/// Appending to a text that ends in a line feed adds lines and changes none.
proof fn lemma_lines_appended(a: Seq<char>, b: Seq<char>, i: int)
    requires
        0 <= i <= a.len(),
        a.len() == 0 || a.last() == '\n',
    ensures
        lines_from(a + b, i) == lines_from(a, i) + lines_of(b),
    decreases a.len() - i,
{
    let s = a + b;
    let p = other_than('\n');
    if i < a.len() {
        let n = run_end(a, i, p);
        let m = run_end(s, i, p);
        lemma_run_end(a, i, p);
        lemma_run_end(s, i, p);
        assert(n < a.len()) by {
            if n == a.len() {
                assert(p(a[a.len() - 1]));
            }
        }
        assert(!p(a[n]));
        assert(m == n) by {
            if m < n {
                assert(!p(s[m]));
                assert(p(a[m]));
            }
            if m > n {
                assert(p(s[n]));
            }
        }
        lemma_lines_appended(a, b, n + 1);
        let e = if n > i && a[n - 1] == '\r' {
            n - 1
        } else {
            n
        };
        assert(s.subrange(i, e) =~= a.subrange(i, e));
        assert(lines_from(s, i) =~= lines_from(a, i) + lines_of(b));
    } else {
        lemma_lines_after(a, b, 0);
        assert(lines_from(a, i) =~= Seq::empty());
        assert(lines_from(a, i) + lines_of(b) =~= lines_of(b));
    }
}

/// Whether a text can be one line of a log: not blank, unbroken, and not ended
/// by a carriage return. An entry in JSON can.
pub open spec fn is_line(s: Seq<char>) -> bool {
    &&& !is_blank(s)
    &&& forall|i: int| 0 <= i < s.len() ==> s[i] != '\n'
    &&& s.last() != '\r'
}

proof fn lemma_one_line(l: Seq<char>)
    requires
        is_line(l),
    ensures
        lines_of(l + seq!['\n']) == seq![l],
{
    let s = l + seq!['\n'];
    let p = other_than('\n');
    let n = run_end(s, 0, p);
    lemma_run_end(s, 0, p);
    assert(l.len() > 0) by {
        if l.len() == 0 {
            assert(is_blank(l));
        }
    }
    assert(n == l.len()) by {
        if n < l.len() {
            assert(!p(s[n]));
            assert(s[n] == l[n]);
        }
        if n > l.len() {
            assert(p(s[l.len() as int]));
        }
    }
    assert(s[n - 1] == l.last());
    assert(s.subrange(0, n) =~= l);
    assert(lines_from(s, n + 1) =~= Seq::empty());
    assert(lines_of(s) =~= seq![l]);
}

/// What is appended to a log is read back, after everything that was there.
pub proof fn law_appended_entries_are_read_back(log: Seq<char>, parts: Seq<Seq<char>>)
    requires
        log.len() == 0 || log.last() == '\n',
        forall|i: int| 0 <= i < parts.len() ==> is_line(#[trigger] parts[i]),
    ensures
        filled_lines(log + ended_lines(parts)) == filled_lines(log) + parts,
    decreases parts.len(),
{
    reveal_strlit("\n");
    assert("\n"@ =~= seq!['\n']);
    if parts.len() == 0 {
        assert(log + ended_lines(parts) =~= log);
        assert(filled_lines(log) + parts =~= filled_lines(log));
    } else {
        let r = parts.drop_last();
        let l = parts.last();
        assert(parts[parts.len() - 1] == l);
        assert(is_line(l));
        assert forall|i: int| 0 <= i < r.len() implies is_line(#[trigger] r[i]) by {
            assert(is_line(parts[i]));
        }
        law_appended_entries_are_read_back(log, r);
        let a = log + ended_lines(r);
        lemma_ended(r);
        assert(a.len() == 0 || a.last() == '\n');
        let b = l + seq!['\n'];
        assert(log + ended_lines(parts) =~= a + b);
        lemma_lines_appended(a, b, 0);
        lemma_one_line(l);
        let p = |x: Seq<char>| !is_blank(x);
        assert(lines_of(a + b) == lines_of(a).push(l)) by {
            assert(lines_of(a) + seq![l] =~= lines_of(a).push(l));
        }
        assert(lines_of(a).push(l).filter(p) == lines_of(a).filter(p).push(l)) by {
            reveal(Seq::filter);
            assert(lines_of(a).push(l).drop_last() =~= lines_of(a));
        }
        assert((filled_lines(log) + r).push(l) =~= filled_lines(log) + parts);
    }
}

proof fn lemma_ended(parts: Seq<Seq<char>>)
    ensures
        ended_lines(parts).len() == 0 || ended_lines(parts).last() == '\n',
        parts.len() == 0 ==> ended_lines(parts).len() == 0,
{
    reveal_strlit("\n");
    if parts.len() > 0 {
        assert(ended_lines(parts).last() == "\n"@[0]);
    }
}

/// The tail of a log is its end: as much as was asked for, or all there is.
pub proof fn law_the_tail_is_the_end<T>(s: Seq<T>, limit: nat)
    ensures
        last_of(s, limit).len() == (if s.len() < limit {
            s.len()
        } else {
            limit
        }),
        forall|i: int|
            0 <= i < last_of(s, limit).len() ==> #[trigger] last_of(s, limit)[i] == s[s.len()
                - last_of(s, limit).len() + i],
{
}

/// The lines of a log that are read are those that are not blank.
pub proof fn law_blank_lines_are_no_entries(raw: Seq<char>, l: Seq<char>)
    ensures
        filled_lines(raw).contains(l) <==> lines_of(raw).contains(l) && exists|i: int|
            0 <= i < l.len() && !crate::text::is_white(#[trigger] l[i]),
{
    crate::text::lemma_filter_contains(lines_of(raw), |l: Seq<char>| !is_blank(l));
}

/// Entries are written one to a line.
pub proof fn law_entries_are_written_one_to_a_line(parts: Seq<Seq<char>>, part: Seq<char>)
    ensures
        ended_lines(Seq::empty()).len() == 0,
        ended_lines(parts.push(part)) == ended_lines(parts) + part + seq!['\n'],
{
    reveal_strlit("\n");
    assert(parts.push(part).drop_last() =~= parts);
    assert("\n"@ =~= seq!['\n']);
}

/// The log is moved aside at a megabyte.
pub proof fn law_how_large_the_log_may_be()
    ensures
        MAX_BYTES == 1024 * 1024,
{
}

} // verus!
