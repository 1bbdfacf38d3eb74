//! The task model.
//!
//! Everything here is what the task file holds. That file is a documented
//! format which people and agents write by hand, so nothing in the library may
//! take for granted that a task was built by the library.

use crate::text::{
    all_digits, chars_of, copy_opt, decimal, decimal_value, debug_quoted, is_digit, lemma_decimal_round_trip,
    lemma_run_end, lemma_run_start, lower_ascii, only_digits, opt_view, other_than, parse_u32,
    quoted, run_end, run_start, same, string_of, swap_char, swapped, to_ascii_lower, to_decimal,
    trim, trimmed, white,
};
use crate::time::Moment;
use vstd::prelude::*;

verus! {

/// Where a task sits in its lifecycle.
///
/// Deliberately three states. Every extra state is a decision to make on every
/// task, and "blocked" is better expressed as a subtask that isn't done yet.
#[derive(Debug, Clone, Copy, PartialEq, Eq, PartialOrd, Ord, Hash, Structural)]
pub enum State {
    Todo,
    Doing,
    Done,
}

impl Default for State {
    fn default() -> (r: State)
        ensures
            r == State::Todo,
    {
        State::Todo
    }
}

impl State {
    pub open spec fn glyph_of(self) -> Seq<char> {
        match self {
            State::Todo => "○"@,
            State::Doing => "●"@,
            State::Done => "✓"@,
        }
    }

    pub open spec fn rank_of(self) -> u8 {
        match self {
            State::Doing => 0,
            State::Todo => 1,
            State::Done => 2,
        }
    }

    pub open spec fn name_of(self) -> Seq<char> {
        match self {
            State::Todo => "todo"@,
            State::Doing => "doing"@,
            State::Done => "done"@,
        }
    }

    /// The glyph shown in list output.
    pub fn glyph(self) -> (r: &'static str)
        ensures
            r@ == self.glyph_of(),
    {
        match self {
            State::Todo => "○",
            State::Doing => "●",
            State::Done => "✓",
        }
    }

    /// Sort weight for the default view: in-progress work floats to the top,
    /// finished work sinks.
    pub fn rank(self) -> (r: u8)
        ensures
            r == self.rank_of(),
    {
        match self {
            State::Doing => 0,
            State::Todo => 1,
            State::Done => 2,
        }
    }

    pub fn as_str(self) -> (r: &'static str)
        ensures
            r@ == self.name_of(),
    {
        match self {
            State::Todo => "todo",
            State::Doing => "doing",
            State::Done => "done",
        }
    }

    /// The state a user means by `s`.
    ///
    /// Generous on input: these get typed by hand many times a day, and the
    /// longer names appear in old task files.
    pub fn parse(s: &str) -> (r: Result<State, String>)
        ensures
            match r {
                Ok(state) => state_named(lower_ascii(trimmed(s@))) == Some(state),
                Err(e) => state_named(lower_ascii(trimmed(s@))) is None && e@ == unknown_state(
                    lower_ascii(trimmed(s@)),
                ),
            },
    {
        let trimmed = trim(s);
        let name = to_ascii_lower(trimmed.as_str());
        let n = name.as_str();
        if same(n, "todo") || same(n, "t") || same(n, "open") || same(n, "notstarted") || same(
            n,
            "not-started",
        ) {
            Ok(State::Todo)
        } else if same(n, "doing") || same(n, "d") || same(n, "wip") || same(n, "started") || same(
            n,
            "inprogress",
        ) || same(n, "in-progress") {
            Ok(State::Doing)
        } else if same(n, "done") || same(n, "x") || same(n, "closed") || same(n, "finished")
            || same(n, "complete") {
            Ok(State::Done)
        } else {
            let mut e = "unknown state ".to_owned();
            let q = quoted(n);
            e.append(q.as_str());
            e.append(" (expected one of: todo, doing, done)");
            Err(e)
        }
    }
}

impl std::str::FromStr for State {
    type Err = String;

    fn from_str(s: &str) -> (r: Result<State, String>)
        ensures
            match r {
                Ok(state) => state_named(lower_ascii(trimmed(s@))) == Some(state),
                Err(e) => state_named(lower_ascii(trimmed(s@))) is None && e@ == unknown_state(
                    lower_ascii(trimmed(s@)),
                ),
            },
    {
        State::parse(s)
    }
}

/// The state that goes by a trimmed, lower-case name.
pub open spec fn state_named(n: Seq<char>) -> Option<State> {
    if n == "todo"@ || n == "t"@ || n == "open"@ || n == "notstarted"@ || n == "not-started"@ {
        Some(State::Todo)
    } else if n == "doing"@ || n == "d"@ || n == "wip"@ || n == "started"@ || n == "inprogress"@
        || n == "in-progress"@ {
        Some(State::Doing)
    } else if n == "done"@ || n == "x"@ || n == "closed"@ || n == "finished"@ || n == "complete"@ {
        Some(State::Done)
    } else {
        None
    }
}

pub open spec fn unknown_state(n: Seq<char>) -> Seq<char> {
    "unknown state "@ + debug_quoted(n) + " (expected one of: todo, doing, done)"@
}

/// A point in the source tree a task is about.
///
/// Stored structurally rather than as a `"file:line"` string so that consumers
/// don't have to parse it back apart, and so a Windows drive-letter path can
/// never be mistaken for a line number.
#[derive(Debug, PartialEq, Eq)]
pub struct Location {
    /// Repo-relative and slash-separated, so the file reads identically on
    /// every platform that shares the repo.
    pub file: String,
    pub line: Option<u32>,
}

#[verifier::ext_equal]
pub struct LocationView {
    pub file: Seq<char>,
    pub line: Option<u32>,
}

impl View for Location {
    type V = LocationView;

    open spec fn view(&self) -> LocationView {
        LocationView { file: self.file@, line: self.line }
    }
}

impl Clone for Location {
    fn clone(&self) -> (r: Location)
        ensures
            r == *self,
    {
        Location { file: self.file.clone(), line: self.line }
    }
}

impl LocationView {
    /// `file:line`, or the file alone.
    pub open spec fn text(self) -> Seq<char> {
        match self.line {
            Some(line) => self.file + ":"@ + decimal(line as nat),
            None => self.file,
        }
    }
}

/// Why a string is no location.
pub enum BadLocation {
    Empty,
    LineTooLarge,
}

/// What `s`, already trimmed, names: a file and a line where it ends in a colon
/// and digits after at least one other character, else a file. Only the last
/// colon counts, which keeps drive letters and colons in filenames intact.
pub open spec fn location_of_trimmed(s: Seq<char>) -> Result<LocationView, BadLocation> {
    let k = run_start(s, 0, s.len() as int, other_than(':'));
    if s.len() == 0 {
        Err(BadLocation::Empty)
    } else if 1 < k < s.len() && all_digits(s.skip(k)) {
        if decimal_value(s.skip(k)) <= u32::MAX {
            Ok(
                LocationView {
                    file: swapped(s.take(k - 1), '\\', '/'),
                    line: Some(decimal_value(s.skip(k)) as u32),
                },
            )
        } else {
            Err(BadLocation::LineTooLarge)
        }
    } else {
        Ok(LocationView { file: swapped(s, '\\', '/'), line: None })
    }
}

pub open spec fn location_of(s: Seq<char>) -> Result<LocationView, BadLocation> {
    location_of_trimmed(trimmed(s))
}

pub open spec fn location_error(s: Seq<char>, e: BadLocation) -> Seq<char> {
    match e {
        BadLocation::Empty => "empty location"@,
        BadLocation::LineTooLarge => "line number out of range in "@ + debug_quoted(trimmed(s)),
    }
}

impl Location {
    pub fn new(file: &str, line: Option<u32>) -> (r: Location)
        ensures
            r@ == (LocationView { file: swapped(file@, '\\', '/'), line }),
    {
        Location { file: swap_char(file, '\\', '/'), line }
    }

    /// `file:line`, or the file alone.
    pub fn to_string(&self) -> (r: String)
        ensures
            r@ == self@.text(),
    {
        let mut out = self.file.clone();
        match self.line {
            Some(line) => {
                let n = to_decimal(line as u64);
                out.append(":");
                out.append(n.as_str());
            },
            None => {},
        }
        out
    }

    /// Parses `src/auth.rs:88`, `src/auth.rs`, or `C:\src\auth.rs:88`.
    pub fn parse(s: &str) -> (r: Result<Location, String>)
        ensures
            match r {
                Ok(loc) => location_of(s@) == Ok::<LocationView, BadLocation>(loc@),
                Err(e) => location_of(s@) matches Err(bad) && e@ == location_error(s@, bad),
            },
    {
        let t = trim(s);
        let v = chars_of(t.as_str());
        if v.len() == 0 {
            return Err("empty location".to_owned());
        }
        let mut k: usize = v.len();
        while k > 0 && v[k - 1] != ':'
            invariant
                k <= v@.len(),
                run_start(v@, 0, v@.len() as int, other_than(':')) == run_start(
                    v@,
                    0,
                    k as int,
                    other_than(':'),
                ),
            decreases k,
        {
            k -= 1;
        }
        let n: usize = v.len();
        if k > 1 && k < n {
            let line = string_of(&v, k, n);
            assert(line@ =~= t@.skip(k as int));
            if only_digits(line.as_str()) {
                let file = string_of(&v, 0, k - 1);
                assert(file@ =~= t@.take(k - 1));
                match parse_u32(line.as_str()) {
                    Some(l) => {
                        return Ok(Location::new(file.as_str(), Some(l)));
                    },
                    None => {
                        let mut e = "line number out of range in ".to_owned();
                        let q = quoted(t.as_str());
                        e.append(q.as_str());
                        return Err(e);
                    },
                }
            }
        }
        Ok(Location::new(t.as_str(), None))
    }
}

impl std::str::FromStr for Location {
    type Err = String;

    fn from_str(s: &str) -> (r: Result<Location, String>)
        ensures
            match r {
                Ok(loc) => location_of(s@) == Ok::<LocationView, BadLocation>(loc@),
                Err(e) => location_of(s@) matches Err(bad) && e@ == location_error(s@, bad),
            },
    {
        Location::parse(s)
    }
}

/// How a task came to exist.
///
/// The distinction matters for scanning: scanned tasks are owned by the source
/// comment that produced them and get closed when it disappears, while manual
/// tasks are never touched by a scan.
#[derive(Debug, PartialEq, Eq)]
pub enum Origin {
    /// Created by a human or an agent.
    Manual,
    /// Harvested from a marker in the source.
    Scan {
        /// Identity of the marker, derived from its normalized text rather than
        /// its position, so a task survives the comment moving down the file.
        key: String,
    },
}

#[verifier::ext_equal]
pub enum OriginView {
    Manual,
    Scan { key: Seq<char> },
}

impl View for Origin {
    type V = OriginView;

    open spec fn view(&self) -> OriginView {
        match self {
            Origin::Manual => OriginView::Manual,
            Origin::Scan { key } => OriginView::Scan { key: key@ },
        }
    }
}

impl Clone for Origin {
    fn clone(&self) -> (r: Origin)
        ensures
            r == *self,
    {
        match self {
            Origin::Manual => Origin::Manual,
            Origin::Scan { key } => Origin::Scan { key: key.clone() },
        }
    }
}

impl Default for Origin {
    fn default() -> (r: Origin)
        ensures
            r == Origin::Manual,
    {
        Origin::Manual
    }
}

#[derive(Debug)]
pub struct Task {
    pub id: u32,
    pub title: String,
    pub note: Option<String>,
    pub state: State,
    /// Parent task, for arbitrary-depth nesting. `None` is a root task.
    ///
    /// A parent pointer rather than nested children, so that every task is
    /// addressable by a flat, stable id and a reparent is a one-field write.
    pub parent: Option<u32>,
    /// Branch the task belongs to. `None` means repo-wide: visible from every
    /// branch. Recorded as data rather than inferred from git so that deleting
    /// a branch orphans a task instead of vaporizing it.
    pub branch: Option<String>,
    pub location: Option<Location>,
    /// Who filed it. `None` is you.
    pub actor: Option<String>,
    pub origin: Origin,
    /// Commit that closed the task, when it was closed by commit linkage.
    pub closed_by: Option<String>,
    pub created: Moment,
    pub updated: Moment,
}

#[verifier::ext_equal]
pub struct TaskView {
    pub id: u32,
    pub title: Seq<char>,
    pub note: Option<Seq<char>>,
    pub state: State,
    pub parent: Option<u32>,
    pub branch: Option<Seq<char>>,
    pub location: Option<LocationView>,
    pub actor: Option<Seq<char>>,
    pub origin: OriginView,
    pub closed_by: Option<Seq<char>>,
    pub created: Moment,
    pub updated: Moment,
}

pub open spec fn opt_location(l: Option<Location>) -> Option<LocationView> {
    match l {
        Some(x) => Some(x@),
        None => None,
    }
}

impl View for Task {
    type V = TaskView;

    open spec fn view(&self) -> TaskView {
        TaskView {
            id: self.id,
            title: self.title@,
            note: opt_view(self.note),
            state: self.state,
            parent: self.parent,
            branch: opt_view(self.branch),
            location: opt_location(self.location),
            actor: opt_view(self.actor),
            origin: self.origin@,
            closed_by: opt_view(self.closed_by),
            created: self.created,
            updated: self.updated,
        }
    }
}

impl Clone for Task {
    fn clone(&self) -> (r: Task)
        ensures
            r == *self,
    {
        let location = match &self.location {
            Some(l) => Some(l.clone()),
            None => None,
        };
        Task {
            id: self.id,
            title: self.title.clone(),
            note: copy_opt(&self.note),
            state: self.state,
            parent: self.parent,
            branch: copy_opt(&self.branch),
            location,
            actor: copy_opt(&self.actor),
            origin: self.origin.clone(),
            closed_by: copy_opt(&self.closed_by),
            created: self.created,
            updated: self.updated,
        }
    }
}

impl TaskView {
    /// A task as it is when it has just been filed.
    pub open spec fn fresh(id: u32, title: Seq<char>, now: Moment) -> TaskView {
        TaskView {
            id,
            title,
            note: None,
            state: State::Todo,
            parent: None,
            branch: None,
            location: None,
            actor: None,
            origin: OriginView::Manual,
            closed_by: None,
            created: now,
            updated: now,
        }
    }

    pub open spec fn scan_key(self) -> Option<Seq<char>> {
        match self.origin {
            OriginView::Scan { key } => Some(key),
            OriginView::Manual => None,
        }
    }
}

impl Task {
    pub fn new(id: u32, title: &str, now: Moment) -> (r: Task)
        ensures
            r@ == TaskView::fresh(id, title@, now),
    {
        Task {
            id,
            title: title.to_owned(),
            note: None,
            state: State::Todo,
            parent: None,
            branch: None,
            location: None,
            actor: None,
            origin: Origin::Manual,
            closed_by: None,
            created: now,
            updated: now,
        }
    }

    pub fn is_done(&self) -> (r: bool)
        ensures
            r == (self@.state == State::Done),
    {
        self.state == State::Done
    }

    /// The scan marker key, if the task is owned by a source comment.
    pub fn scan_key(&self) -> (r: Option<&str>)
        ensures
            crate::text::opt_str_view(r) == self@.scan_key(),
    {
        match &self.origin {
            Origin::Scan { key } => Some(key.as_str()),
            Origin::Manual => None,
        }
    }
}

// ---------------------------------------------------------------------------
// What a location says of itself
// ---------------------------------------------------------------------------

/// A parsed location, written out and parsed again, is the same location.
pub proof fn law_location_round_trip(s: Seq<char>, loc: LocationView)
    requires
        location_of(s) == Ok::<LocationView, BadLocation>(loc),
    ensures
        location_of(loc.text()) == Ok::<LocationView, BadLocation>(loc),
{
    let t = trimmed(s);
    let p = other_than(':');
    let k = run_start(t, 0, t.len() as int, p);
    lemma_run_start(t, 0, t.len() as int, p);
    lemma_trimmed_ends(s);
    let w = loc.text();
    match loc.line {
        Some(line) => {
            lemma_decimal_round_trip(line as nat);
            reveal_strlit(":");
            let d = decimal(line as nat);
            let file = loc.file;
            assert(w =~= file + seq![':'] + d);
            assert(w.len() == file.len() + 1 + d.len());
            assert(w[0] == file[0]);
            assert(w.last() == d.last());
            assert(crate::text::is_digit(d[d.len() - 1]));
            lemma_tight_is_trimmed(w);
            let q = run_start(w, 0, w.len() as int, p);
            lemma_run_start(w, 0, w.len() as int, p);
            assert forall|i: int| file.len() + 1 <= i < w.len() implies w[i] != ':' by {
                assert(w[i] == d[i - file.len() - 1]);
                assert(crate::text::is_digit(d[i - file.len() - 1]));
            }
            assert(w[file.len() as int] == ':');
            assert(q == file.len() + 1) by {
                if q <= file.len() {
                    assert(p(w[file.len() as int]));
                }
                if q > file.len() + 1 {
                    assert(!p(w[q - 1]));
                }
            }
            assert(w.skip(q) =~= d);
            assert(w.take(q - 1) =~= file);
            assert(swapped(file, '\\', '/') =~= file);
        },
        None => {
            assert(w =~= swapped(t, '\\', '/'));
            assert(w.len() == t.len());
            assert(crate::text::is_white(w[0]) == crate::text::is_white(t[0]));
            assert(crate::text::is_white(w.last()) == crate::text::is_white(t.last()));
            lemma_tight_is_trimmed(w);
            let q = run_start(w, 0, w.len() as int, p);
            lemma_run_start(w, 0, w.len() as int, p);
            assert(forall|i: int| 0 <= i < t.len() ==> (w[i] == ':' <==> t[i] == ':'));
            assert(q == k) by {
                if q < k {
                    assert(p(w[k - 1]));
                    assert(!p(t[k - 1]));
                }
                if k < q {
                    assert(p(t[q - 1]));
                    assert(!p(w[q - 1]));
                }
            }
            assert(swapped(w, '\\', '/') =~= w);
            if 1 < q < w.len() {
                assert(all_digits(w.skip(q)) ==> all_digits(t.skip(k))) by {
                    if all_digits(w.skip(q)) {
                        assert forall|i: int| 0 <= i < t.skip(k).len() implies crate::text::is_digit(
                            #[trigger] t.skip(k)[i],
                        ) by {
                            assert(crate::text::is_digit(w.skip(q)[i]));
                        }
                    }
                }
            }
        },
    }
}

/// What is left after trimming begins and ends with something visible.
proof fn lemma_trimmed_ends(s: Seq<char>)
    ensures
        trimmed(s).len() > 0 ==> !crate::text::is_white(trimmed(s)[0]) && !crate::text::is_white(
            trimmed(s).last(),
        ),
{
    let a = run_end(s, 0, white());
    lemma_run_end(s, 0, white());
    lemma_run_start(s, a, s.len() as int, white());
    let b = run_start(s, a, s.len() as int, white());
    if a < b {
        assert(!white()(s[a]));
        assert(!white()(s[b - 1]));
    }
}

/// Text that begins and ends with something visible has nothing to trim.
proof fn lemma_tight_is_trimmed(s: Seq<char>)
    requires
        s.len() > 0,
        !crate::text::is_white(s[0]),
        !crate::text::is_white(s.last()),
    ensures
        trimmed(s) == s,
{
    assert(run_end(s, 0, white()) == 0);
    assert(run_start(s, 0, s.len() as int, white()) == s.len());
    assert(s.subrange(0, s.len() as int) =~= s);
}

/// Each state goes by its own name, and by the shorter and longer ones that get
/// typed for it; nothing else is a state.
pub proof fn law_states_go_by_their_names(s: State, n: Seq<char>)
    ensures
        state_named(s.name_of()) == Some(s),
        state_named(n) == Some(State::Todo) ==> n == "todo"@ || n == "t"@ || n == "open"@ || n
            == "notstarted"@ || n == "not-started"@,
        state_named(n) == Some(State::Doing) ==> n == "doing"@ || n == "d"@ || n == "wip"@ || n
            == "started"@ || n == "inprogress"@ || n == "in-progress"@,
        state_named(n) == Some(State::Done) ==> n == "done"@ || n == "x"@ || n == "closed"@ || n
            == "finished"@ || n == "complete"@,
        n == "open"@ || n == "notstarted"@ || n == "not-started"@ || n == "t"@ ==> state_named(n)
            == Some(State::Todo),
        n == "wip"@ || n == "started"@ || n == "inprogress"@ || n == "in-progress"@ || n == "d"@
            ==> state_named(n) == Some(State::Doing),
        n == "closed"@ || n == "finished"@ || n == "complete"@ || n == "x"@ ==> state_named(n)
            == Some(State::Done),
{
    reveal_strlit("todo");
    reveal_strlit("t");
    reveal_strlit("open");
    reveal_strlit("notstarted");
    reveal_strlit("not-started");
    reveal_strlit("doing");
    reveal_strlit("d");
    reveal_strlit("wip");
    reveal_strlit("started");
    reveal_strlit("inprogress");
    reveal_strlit("in-progress");
    reveal_strlit("done");
    reveal_strlit("x");
    reveal_strlit("closed");
    reveal_strlit("finished");
    reveal_strlit("complete");
    assert("todo"@[0] == 't' && "doing"@[1] == 'o' && "done"@[0] == 'd' && "done"@[3] == 'e');
    assert("doing"@.len() == 5 && "done"@.len() == 4 && "todo"@.len() == 4);
    assert("open"@[0] == 'o' && "wip"@.len() == 3 && "started"@.len() == 7);
    assert("closed"@.len() == 6 && "finished"@.len() == 8 && "complete"@.len() == 8);
    assert("notstarted"@.len() == 10 && "inprogress"@.len() == 10);
    assert("notstarted"@[0] == 'n' && "inprogress"@[0] == 'i');
    assert("not-started"@.len() == 11 && "in-progress"@.len() == 11);
    assert("not-started"@[0] == 'n' && "in-progress"@[0] == 'i');
    assert("t"@[0] == 't' && "d"@[0] == 'd' && "x"@[0] == 'x');
}

/// A file and a number after a colon are a place in the file, whatever blank
/// space is around them and whatever colons are in the file's name; a number too
/// large to be a line is an error.
pub proof fn law_a_number_after_the_last_colon_is_the_line(
    u: Seq<char>,
    file: Seq<char>,
    n: nat,
    v: Seq<char>,
)
    requires
        crate::text::is_blank(u),
        crate::text::is_blank(v),
        file.len() > 0,
        !crate::text::is_white(file[0]),
    ensures
        n <= u32::MAX ==> location_of(u + (file.push(':') + decimal(n)) + v) == Ok::<
            LocationView,
            BadLocation,
        >(LocationView { file: swapped(file, '\\', '/'), line: Some(n as u32) }),
        n > u32::MAX ==> location_of(u + (file.push(':') + decimal(n)) + v) == Err::<
            LocationView,
            BadLocation,
        >(BadLocation::LineTooLarge),
{
    let s = file.push(':') + decimal(n);
    lemma_decimal_round_trip(n);
    assert(s.last() == decimal(n).last());
    assert(is_digit(decimal(n)[decimal(n).len() - 1]));
    assert(!crate::text::is_white(s.last()));
    crate::text::lemma_trimmed_is(u, s, v);
    lemma_last_colon(file, decimal(n));
    let k = file.len() + 1;
    assert(s.skip(k as int) =~= decimal(n));
    assert(s.take(k - 1) =~= file);
}

/// Where the last colon of a text is.
proof fn lemma_last_colon(a: Seq<char>, t: Seq<char>)
    requires
        forall|i: int| 0 <= i < t.len() ==> t[i] != ':',
    ensures
        run_start(a.push(':') + t, 0, (a.len() + 1 + t.len()) as int, other_than(':')) == a.len()
            + 1,
{
    let s = a.push(':') + t;
    let p = other_than(':');
    let e = run_start(s, 0, s.len() as int, p);
    crate::text::lemma_run_start(s, 0, s.len() as int, p);
    let k = a.len() as int;
    assert(s[k] == ':');
    if e <= k {
        assert(p(s[k]));
    }
    if e > k + 1 {
        assert(s[e - 1] == t[e - 1 - k - 1]);
        assert(!p(s[e - 1]));
    }
}

/// A text with no colon, or with anything but a number after its last one, is
/// the name of a file as it stands; so is one with nothing before its only
/// colon. Nothing at all is no place.
pub proof fn law_anything_else_is_a_file(
    u: Seq<char>,
    name: Seq<char>,
    t: Seq<char>,
    v: Seq<char>,
)
    requires
        crate::text::is_blank(u),
        crate::text::is_blank(v),
    ensures
        location_of(u) == Err::<LocationView, BadLocation>(BadLocation::Empty),
        name.len() > 0 && !name.contains(':') && !crate::text::is_white(name[0])
            && !crate::text::is_white(name.last()) ==> location_of(u + name + v) == Ok::<
            LocationView,
            BadLocation,
        >(LocationView { file: swapped(name, '\\', '/'), line: None }),
        ({
            let s = name.push(':') + t;
            !t.contains(':') && !crate::text::is_white(s[0]) && !crate::text::is_white(s.last()) && (
            name.len() == 0 || t.len() == 0 || exists|i: int|
                0 <= i < t.len() && !('0' <= #[trigger] t[i] <= '9')) ==> location_of(u + s + v)
                == Ok::<LocationView, BadLocation>(
                LocationView { file: swapped(s, '\\', '/'), line: None },
            )
        }),
{
    crate::text::lemma_blank_is_trimmed_away(u);
    let p = other_than(':');
    if name.len() > 0 && !name.contains(':') && !crate::text::is_white(name[0])
        && !crate::text::is_white(name.last()) {
        crate::text::lemma_trimmed_is(u, name, v);
        let e = run_start(name, 0, name.len() as int, p);
        crate::text::lemma_run_start(name, 0, name.len() as int, p);
        if e > 0 {
            assert(!p(name[e - 1]));
            assert(name.contains(name[e - 1]));
        }
    }
    let s = name.push(':') + t;
    if !t.contains(':') && !crate::text::is_white(s[0]) && !crate::text::is_white(s.last()) && (
    name.len() == 0 || t.len() == 0 || exists|i: int|
        0 <= i < t.len() && !('0' <= #[trigger] t[i] <= '9')) {
        crate::text::lemma_trimmed_is(u, s, v);
        assert forall|i: int| 0 <= i < t.len() implies t[i] != ':' by {
            assert(t.contains(t[i]));
        }
        lemma_last_colon(name, t);
        let k = (name.len() + 1) as int;
        assert(s.skip(k) =~= t);
        if name.len() > 0 && t.len() > 0 {
            let i = choose|i: int| 0 <= i < t.len() && !('0' <= #[trigger] t[i] <= '9');
            assert(!is_digit(t[i]));
            assert(!all_digits(t));
        }
    }
}

/// The states have an order, a glyph and a name of their own.
pub proof fn law_states_are_told_apart(a: State, b: State)
    requires
        a != b,
    ensures
        a.rank_of() != b.rank_of(),
        a.glyph_of() != b.glyph_of(),
        a.name_of() != b.name_of(),
{
    law_states_go_by_their_names(a, a.name_of());
    law_states_go_by_their_names(b, b.name_of());
    reveal_strlit("○");
    reveal_strlit("●");
    reveal_strlit("✓");
    assert("○"@[0] == '○' && "●"@[0] == '●' && "✓"@[0] == '✓');
}

} // verus!
