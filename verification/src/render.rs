//! What is shown on a terminal, as lines of text.

use crate::store::{progress_of, Store};
use crate::task::{State, Task, TaskView};
use crate::text::{
    as_opt, cat, decimal, join, joined, opt_str_view, to_decimal, trim_end, trimmed_end, views,
};
use crate::time::{elapsed_secs, seconds_between, Moment};
use crate::tree::{row_views, Row, RowView};
use vstd::prelude::*;

verus! {

broadcast use vstd::std_specs::hash::group_hash_axioms;

// ---------------------------------------------------------------------------
// Colour
// ---------------------------------------------------------------------------

/// How a piece of text is set off.
#[derive(Debug, Clone, Copy, PartialEq, Eq, Structural)]
pub enum Ink {
    Plain,
    Dim,
    Bold,
    Yellow,
    Green,
    Cyan,
    Magenta,
}

/// The terminal code that switches to an ink.
pub open spec fn ink_code(ink: Ink) -> Seq<char> {
    match ink {
        Ink::Plain => ""@,
        Ink::Dim => "\u{1b}[2m"@,
        Ink::Bold => "\u{1b}[1m"@,
        Ink::Yellow => "\u{1b}[33m"@,
        Ink::Green => "\u{1b}[32m"@,
        Ink::Cyan => "\u{1b}[36m"@,
        Ink::Magenta => "\u{1b}[35m"@,
    }
}

/// The code that switches back, where there is something to switch back from.
pub open spec fn reset_code(ink: Ink) -> Seq<char> {
    if ink == Ink::Plain {
        ""@
    } else {
        "\u{1b}[0m"@
    }
}

/// `text` in `ink`, with the terminal as before at its end.
pub open spec fn painted(ink: Ink, text: Seq<char>) -> Seq<char> {
    ink_code(ink) + text + reset_code(ink)
}

/// Wraps `text` in the codes of `ink`, so that no caller has to remember the
/// reset.
///
/// Trusted: `anstyle`'s `Style::render` writes the escape code of the one effect
/// or foreground colour that the style has, and nothing for a style that has
/// none; `Style::render_reset` writes the reset code, and nothing for such a
/// style.
#[verifier::external_body]
pub(crate) fn paint(ink: Ink, text: &str) -> (r: String)
    ensures
        r@ == painted(ink, text@),
{
    let s = anstyle::Style::new();
    let style = match ink {
        Ink::Plain => s,
        Ink::Dim => s.dimmed(),
        Ink::Bold => s.bold(),
        Ink::Yellow => s.fg_color(Some(anstyle::AnsiColor::Yellow.into())),
        Ink::Green => s.fg_color(Some(anstyle::AnsiColor::Green.into())),
        Ink::Cyan => s.fg_color(Some(anstyle::AnsiColor::Cyan.into())),
        Ink::Magenta => s.fg_color(Some(anstyle::AnsiColor::Magenta.into())),
    };
    format!("{}{}{}", style.render(), text, style.render_reset())
}

pub open spec fn state_ink(state: State) -> Ink {
    match state {
        State::Todo => Ink::Plain,
        State::Doing => Ink::Yellow,
        State::Done => Ink::Green,
    }
}

fn ink_for(state: State) -> (r: Ink)
    ensures
        r == state_ink(state),
{
    match state {
        State::Todo => Ink::Plain,
        State::Doing => Ink::Yellow,
        State::Done => Ink::Green,
    }
}

/// Text that recedes.
pub fn dimmed(text: &str) -> (r: String)
    ensures
        r@ == painted(Ink::Dim, text@),
{
    paint(Ink::Dim, text)
}

/// A warning, as it is shown.
pub fn warn(msg: &str) -> (r: String)
    ensures
        r@ == painted(Ink::Yellow, "clt: "@ + msg@),
{
    let s = cat("clt: ", msg);
    paint(Ink::Yellow, s.as_str())
}

/// A remark, as it is shown.
pub fn note(msg: &str) -> (r: String)
    ensures
        r@ == painted(Ink::Dim, "clt: "@ + msg@),
{
    let s = cat("clt: ", msg);
    paint(Ink::Dim, s.as_str())
}

// ---------------------------------------------------------------------------
// Columns
// ---------------------------------------------------------------------------

/// A span of seconds in one short word: `now`, `5m`, `3h`, `2d`, `6w`, and no
/// more than `1y+`. A moment in the future counts as now.
pub open spec fn ago_text(secs: int) -> Seq<char> {
    if secs < 60 {
        "now"@
    } else if secs < 3_600 {
        decimal((secs / 60) as nat) + "m"@
    } else if secs < 86_400 {
        decimal((secs / 3_600) as nat) + "h"@
    } else if secs < 604_800 {
        decimal((secs / 86_400) as nat) + "d"@
    } else if secs < 31_536_000 {
        decimal((secs / 604_800) as nat) + "w"@
    } else {
        "1y+"@
    }
}

/// Compact relative time.
///
/// Two characters wide in the common case, because this column is glanced at,
/// not read.
pub fn ago(then: Moment, now: Moment) -> (r: String)
    ensures
        r@ == ago_text(elapsed_secs(then, now)),
{
    proof {
        use_type_invariant(then);
        use_type_invariant(now);
    }
    let secs: i64 = seconds_between(then, now);
    if secs < 60 {
        "now".to_owned()
    } else if secs < 3_600 {
        counted((secs / 60) as u64, "m")
    } else if secs < 86_400 {
        counted((secs / 3_600) as u64, "h")
    } else if secs < 604_800 {
        counted((secs / 86_400) as u64, "d")
    } else if secs < 31_536_000 {
        counted((secs / 604_800) as u64, "w")
    } else {
        "1y+".to_owned()
    }
}

fn counted(n: u64, unit: &str) -> (r: String)
    ensures
        r@ == decimal(n as nat) + unit@,
{
    let d = to_decimal(n);
    cat(d.as_str(), unit)
}

pub open spec fn spaces(n: nat) -> Seq<char> {
    Seq::new(n, |i: int| ' ')
}

/// How many terminal cells a string takes up.
pub uninterp spec fn cell_width(s: Seq<char>) -> nat;

/// Width in terminal cells.
///
/// Not a char count: CJK ideographs, kana, Hangul and fullwidth forms take two
/// cells, combining marks take none.
///
/// Trusted: what `unicode_width`'s `UnicodeWidthStr::width` gives depends on the
/// string's characters alone, and each blank added at the end makes it one cell
/// wider. How wide other characters are is not stated.
#[verifier::external_body]
pub(crate) fn cells(s: &str) -> (r: usize)
    ensures
        r == cell_width(s@),
        forall|n: nat| r + n <= usize::MAX ==> #[trigger] cell_width(s@ + spaces(n)) == r + n,
{
    unicode_width::UnicodeWidthStr::width(s)
}

/// Width in terminal cells.
pub fn width(s: &str) -> (r: usize)
    ensures
        r == cell_width(s@),
{
    cells(s)
}

fn blanks(n: usize) -> (r: String)
    ensures
        r@ == spaces(n as nat),
{
    let mut out = String::new();
    let mut i: usize = 0;
    while i < n
        invariant
            i <= n,
            out@ == spaces(i as nat),
        decreases n - i,
    {
        out.push(' ');
        assert(out@ =~= spaces((i + 1) as nat));
        i += 1;
    }
    assert(out@ =~= spaces(n as nat));
    out
}

/// `s`, which is `w` cells wide, with blanks up to `to` cells.
pub open spec fn padded_from(s: Seq<char>, w: nat, to: nat) -> Seq<char> {
    if w >= to {
        s
    } else {
        s + spaces((to - w) as nat)
    }
}

pub open spec fn padded(s: Seq<char>, to: nat) -> Seq<char> {
    padded_from(s, cell_width(s), to)
}

/// `s` with blanks up to `to` cells, given that it is `w` cells wide.
pub fn pad_from(s: &str, w: usize, to: usize) -> (r: String)
    ensures
        r@ == padded_from(s@, w as nat, to as nat),
{
    if w >= to {
        s.to_owned()
    } else {
        let b = blanks(to - w);
        cat(s, b.as_str())
    }
}

/// `s` with blanks up to `to` cells. It is never cut: what comes out begins with
/// `s`, and is as wide as asked for, or as wide as `s` is.
pub fn pad(s: &str, to: usize) -> (r: String)
    ensures
        r@ == padded(s@, to as nat),
        s@.is_prefix_of(r@),
        cell_width(r@) == (if cell_width(s@) >= to {
            cell_width(s@)
        } else {
            to as nat
        }),
{
    let w: usize = cells(s);
    let r = pad_from(s, w, to);
    proof {
        if w < to {
            assert(cell_width(s@ + spaces((to - w) as nat)) == to);
        }
    }
    r
}

// ---------------------------------------------------------------------------
// The task tree
// ---------------------------------------------------------------------------

pub struct ListOpts {
    pub now: Moment,
    /// Show which branch each task belongs to.
    pub show_branch: bool,
}

/// The texts of one row, before they are put in columns.
pub struct Cell {
    pub id: String,
    pub body: String,
    pub branch: String,
    pub location: String,
    pub actor: String,
    pub age: String,
    pub ink: Ink,
}

#[verifier::ext_equal]
pub struct CellView {
    pub id: Seq<char>,
    pub body: Seq<char>,
    pub branch: Seq<char>,
    pub location: Seq<char>,
    pub actor: Seq<char>,
    pub age: Seq<char>,
    pub ink: Ink,
}

impl View for Cell {
    type V = CellView;

    open spec fn view(&self) -> CellView {
        CellView {
            id: self.id@,
            body: self.body@,
            branch: self.branch@,
            location: self.location@,
            actor: self.actor@,
            age: self.age@,
            ink: self.ink,
        }
    }
}

pub open spec fn cell_views(v: Seq<Cell>) -> Seq<CellView> {
    Seq::new(v.len(), |i: int| v[i]@)
}

pub open spec fn progress_text(p: Option<(nat, nat)>) -> Seq<char> {
    match p {
        Some((done, total)) => "  "@ + decimal(done) + "/"@ + decimal(total),
        None => ""@,
    }
}

/// The texts of a row: its number, its glyph and title indented by its depth
/// with the progress of its subtasks, and the rest.
///
/// Rows that are only there for context recede, and so does finished work.
pub open spec fn cell_of(
    row: RowView,
    progress: Option<(nat, nat)>,
    now: Moment,
    show_branch: bool,
) -> CellView {
    let t = row.task;
    CellView {
        id: "#"@ + decimal(t.id as nat),
        body: spaces(2 * row.depth) + t.state.glyph_of() + " "@ + t.title + progress_text(progress),
        branch: if !show_branch {
            ""@
        } else {
            match t.branch {
                Some(b) => b,
                None => "(repo)"@,
            }
        },
        location: match t.location {
            Some(l) => l.text(),
            None => ""@,
        },
        actor: match t.actor {
            Some(a) => "["@ + a + "]"@,
            None => ""@,
        },
        age: ago_text(elapsed_secs(t.updated, now)),
        ink: if row.context || t.state == State::Done {
            Ink::Dim
        } else {
            state_ink(t.state)
        },
    }
}

fn cell(row: &Row<'_>, progress: Option<(usize, usize)>, opts: &ListOpts) -> (r: Cell)
    ensures
        r@ == cell_of(
            row@,
            crate::store::pair_view(progress),
            opts.now,
            opts.show_branch,
        ),
{
    let t = row.task;
    let n = to_decimal(t.id as u64);
    let id = cat("#", n.as_str());
    let half = blanks(row.depth);
    let mut body = cat(half.as_str(), half.as_str());
    assert(body@ =~= spaces(2 * row.depth as nat));
    body.append(t.state.glyph());
    body.append(" ");
    body.append(t.title.as_str());
    let ghost so_far = body@;
    match progress {
        Some((done, total)) => {
            let a = to_decimal(done as u64);
            let b = to_decimal(total as u64);
            let mut p = cat("  ", a.as_str());
            p.append("/");
            p.append(b.as_str());
            body.append(p.as_str());
        },
        None => {
            proof {
                reveal_strlit("");
                assert(so_far + ""@ =~= so_far);
            }
        },
    }
    let branch = if !opts.show_branch {
        "".to_owned()
    } else {
        match as_opt(&t.branch) {
            Some(b) => b.to_owned(),
            None => "(repo)".to_owned(),
        }
    };
    let location = match &t.location {
        Some(l) => l.to_string(),
        None => "".to_owned(),
    };
    let actor = match as_opt(&t.actor) {
        Some(a) => {
            let mut s = cat("[", a);
            s.append("]");
            s
        },
        None => "".to_owned(),
    };
    let ink = if row.context || t.is_done() {
        Ink::Dim
    } else {
        ink_for(t.state)
    };
    Cell { id, body, branch, location, actor, age: ago(t.updated, opts.now), ink }
}

/// The texts of all rows.
pub open spec fn cells_of(
    ts: Seq<TaskView>,
    rows: Seq<RowView>,
    now: Moment,
    show_branch: bool,
) -> Seq<CellView> {
    Seq::new(
        rows.len(),
        |i: int| cell_of(rows[i], progress_of(ts, rows[i].task.id), now, show_branch),
    )
}

/// The widest of some texts.
pub open spec fn widest(texts: Seq<Seq<char>>) -> nat
    decreases texts.len(),
{
    if texts.len() == 0 {
        0
    } else if cell_width(texts.last()) > widest(texts.drop_last()) {
        cell_width(texts.last())
    } else {
        widest(texts.drop_last())
    }
}

/// The widths of the columns.
#[verifier::ext_equal]
pub struct Columns {
    pub id: nat,
    pub body: nat,
    pub branch: nat,
    pub location: nat,
    pub actor: nat,
}

/// Every column as wide as its widest text.
pub open spec fn columns(cells: Seq<CellView>) -> Columns {
    Columns {
        id: widest(Seq::new(cells.len(), |i: int| cells[i].id)),
        body: widest(Seq::new(cells.len(), |i: int| cells[i].body)),
        branch: widest(Seq::new(cells.len(), |i: int| cells[i].branch)),
        location: widest(Seq::new(cells.len(), |i: int| cells[i].location)),
        actor: widest(Seq::new(cells.len(), |i: int| cells[i].actor)),
    }
}

/// A column that may be empty: nothing at all where it is.
pub open spec fn column(text: Seq<char>, width: nat, ink: Ink) -> Seq<char> {
    if width == 0 {
        Seq::empty()
    } else {
        "  "@ + painted(ink, padded(text, width))
    }
}

/// One line of the list.
pub open spec fn list_line(c: CellView, w: Columns) -> Seq<char> {
    trimmed_end(
        "  "@ + painted(Ink::Dim, padded(c.id, w.id)) + "  "@ + painted(c.ink, padded(c.body, w.body))
            + column(c.branch, w.branch, Ink::Dim) + column(c.location, w.location, Ink::Cyan)
            + column(c.actor, w.actor, Ink::Magenta) + "  "@ + painted(Ink::Dim, c.age),
    )
}

pub open spec fn list_lines(cells: Seq<CellView>) -> Seq<Seq<char>> {
    Seq::new(cells.len(), |i: int| list_line(cells[i], columns(cells)))
}

fn put_column(line: &mut String, text: &str, w: usize, ink: Ink)
    ensures
        final(line)@ == old(line)@ + column(text@, w as nat, ink),
{
    if w == 0 {
        assert(line@ + Seq::<char>::empty() =~= line@);
        return ;
    }
    let p = pad(text, w);
    let s = paint(ink, p.as_str());
    let c = cat("  ", s.as_str());
    line.append(c.as_str());
}

fn wider(a: usize, text: &str) -> (r: usize)
    ensures
        r == (if cell_width(text@) > a {
            cell_width(text@)
        } else {
            a as nat
        }),
{
    let w: usize = width(text);
    if w > a {
        w
    } else {
        a
    }
}

/// Puts the texts of the rows in columns.
pub fn lay_out(cells: &Vec<Cell>) -> (r: Vec<String>)
    ensures
        views(r@) == list_lines(cell_views(cells@)),
{
    let ghost cs = cell_views(cells@);
    let ghost ids = Seq::new(cs.len(), |i: int| cs[i].id);
    let ghost bodies = Seq::new(cs.len(), |i: int| cs[i].body);
    let ghost branches = Seq::new(cs.len(), |i: int| cs[i].branch);
    let ghost locations = Seq::new(cs.len(), |i: int| cs[i].location);
    let ghost actors = Seq::new(cs.len(), |i: int| cs[i].actor);
    let mut id_w: usize = 0;
    let mut body_w: usize = 0;
    let mut branch_w: usize = 0;
    let mut loc_w: usize = 0;
    let mut actor_w: usize = 0;
    let mut i: usize = 0;
    while i < cells.len()
        invariant
            i <= cells@.len(),
            cs == cell_views(cells@),
            ids == Seq::new(cs.len(), |k: int| cs[k].id),
            bodies == Seq::new(cs.len(), |k: int| cs[k].body),
            branches == Seq::new(cs.len(), |k: int| cs[k].branch),
            locations == Seq::new(cs.len(), |k: int| cs[k].location),
            actors == Seq::new(cs.len(), |k: int| cs[k].actor),
            id_w == widest(ids.take(i as int)),
            body_w == widest(bodies.take(i as int)),
            branch_w == widest(branches.take(i as int)),
            loc_w == widest(locations.take(i as int)),
            actor_w == widest(actors.take(i as int)),
        decreases cells@.len() - i,
    {
        let c = &cells[i];
        proof {
            assert(ids.take(i + 1).drop_last() =~= ids.take(i as int));
            assert(bodies.take(i + 1).drop_last() =~= bodies.take(i as int));
            assert(branches.take(i + 1).drop_last() =~= branches.take(i as int));
            assert(locations.take(i + 1).drop_last() =~= locations.take(i as int));
            assert(actors.take(i + 1).drop_last() =~= actors.take(i as int));
        }
        id_w = wider(id_w, c.id.as_str());
        body_w = wider(body_w, c.body.as_str());
        branch_w = wider(branch_w, c.branch.as_str());
        loc_w = wider(loc_w, c.location.as_str());
        actor_w = wider(actor_w, c.actor.as_str());
        i += 1;
    }
    proof {
        assert(ids.take(i as int) =~= ids);
        assert(bodies.take(i as int) =~= bodies);
        assert(branches.take(i as int) =~= branches);
        assert(locations.take(i as int) =~= locations);
        assert(actors.take(i as int) =~= actors);
    }
    let mut out: Vec<String> = Vec::new();
    let mut k: usize = 0;
    while k < cells.len()
        invariant
            k <= cells@.len(),
            cs == cell_views(cells@),
            columns(cs) == (Columns {
                id: id_w as nat,
                body: body_w as nat,
                branch: branch_w as nat,
                location: loc_w as nat,
                actor: actor_w as nat,
            }),
            views(out@) == list_lines(cs).take(k as int),
        decreases cells@.len() - k,
    {
        let c = &cells[k];
        let ghost before = out@;
        assert(cs[k as int] == c@);
        let id = pad(c.id.as_str(), id_w);
        let body = pad(c.body.as_str(), body_w);
        let id = paint(Ink::Dim, id.as_str());
        let body = paint(c.ink, body.as_str());
        let age = paint(Ink::Dim, c.age.as_str());
        let mut line = cat("  ", id.as_str());
        line.append("  ");
        line.append(body.as_str());
        put_column(&mut line, c.branch.as_str(), branch_w, Ink::Dim);
        put_column(&mut line, c.location.as_str(), loc_w, Ink::Cyan);
        put_column(&mut line, c.actor.as_str(), actor_w, Ink::Magenta);
        line.append("  ");
        line.append(age.as_str());
        out.push(trim_end(line.as_str()));
        assert(views(out@) =~= views(before).push(list_line(c@, columns(cs))));
        assert(views(out@) =~= list_lines(cs).take(k + 1));
        k += 1;
    }
    assert(list_lines(cs).take(k as int) =~= list_lines(cs));
    out
}

/// Renders the task tree, one line for each row.
pub fn tasks(store: &Store, rows: &Vec<Row<'_>>, opts: &ListOpts) -> (r: Vec<String>)
    requires
        store.wf(),
    ensures
        views(r@) == list_lines(
            cells_of(store@.tasks, row_views(rows@), opts.now, opts.show_branch),
        ),
{
    let ghost ts = store@.tasks;
    let ghost all = cells_of(ts, row_views(rows@), opts.now, opts.show_branch);
    let progress = store.progress_all();
    let mut cells: Vec<Cell> = Vec::new();
    let mut i: usize = 0;
    while i < rows.len()
        invariant
            i <= rows@.len(),
            ts == store@.tasks,
            all == cells_of(ts, row_views(rows@), opts.now, opts.show_branch),
            forall|id: u32| #[trigger] progress@.contains_key(id) <==> progress_of(ts, id) is Some,
            forall|id: u32|
                progress@.contains_key(id) ==> Some(
                    ((#[trigger] progress@[id]).0 as nat, progress@[id].1 as nat),
                ) == progress_of(ts, id),
            cell_views(cells@) == all.take(i as int),
        decreases rows@.len() - i,
    {
        let ghost before = cells@;
        let id: u32 = rows[i].task.id;
        let p = match progress.get(&id) {
            Some(pair) => Some(*pair),
            None => None,
        };
        proof {
            assert(progress@.contains_key(id) || !progress@.contains_key(id));
            assert(crate::store::pair_view(p) == progress_of(ts, id));
            assert(row_views(rows@)[i as int] == rows@[i as int]@);
        }
        let c = cell(&rows[i], p, opts);
        cells.push(c);
        assert(cell_views(cells@) =~= cell_views(before).push(c@));
        assert(cell_views(cells@) =~= all.take(i + 1));
        i += 1;
    }
    assert(all.take(i as int) =~= all);
    lay_out(&cells)
}

// ---------------------------------------------------------------------------
// Single lines
// ---------------------------------------------------------------------------

/// The line printed after a change.
pub open spec fn changed_line(t: TaskView) -> Seq<char> {
    "  "@ + painted(state_ink(t.state), t.state.glyph_of()) + " "@ + painted(
        Ink::Dim,
        "#"@ + decimal(t.id as nat),
    ) + " "@ + (if t.state == State::Done {
        painted(Ink::Dim, t.title)
    } else {
        t.title
    })
}

/// The line printed after a mutation, so you can see what you just did.
pub fn changed(task: &Task) -> (r: String)
    ensures
        r@ == changed_line(task@),
{
    let glyph = paint(ink_for(task.state), task.state.glyph());
    let n = to_decimal(task.id as u64);
    let id = cat("#", n.as_str());
    let id = paint(Ink::Dim, id.as_str());
    let title = if task.is_done() {
        paint(Ink::Dim, task.title.as_str())
    } else {
        task.title.clone()
    };
    let mut out = cat("  ", glyph.as_str());
    out.append(" ");
    out.append(id.as_str());
    out.append(" ");
    out.append(title.as_str());
    out
}

/// What is on screen and what isn't, in parts.
pub open spec fn summary_parts(open: nat, doing: nat, hidden_done: nat) -> Seq<Seq<char>> {
    let a: Seq<Seq<char>> = if doing > 0 {
        seq![decimal(doing) + " in progress"@]
    } else {
        Seq::empty()
    };
    let b = a.push(decimal(open) + " open"@);
    if hidden_done > 0 {
        b.push(decimal(hidden_done) + " done (clt ls --done)"@)
    } else {
        b
    }
}

/// Footer summarising what's on screen and what isn't.
pub fn summary(open: usize, doing: usize, hidden_done: usize) -> (r: String)
    ensures
        r@ == painted(
            Ink::Dim,
            "  "@ + joined(
                summary_parts(open as nat, doing as nat, hidden_done as nat),
                " · "@,
            ),
        ),
{
    let mut parts: Vec<String> = Vec::new();
    if doing > 0 {
        parts.push(counted(doing as u64, " in progress"));
    }
    parts.push(counted(open as u64, " open"));
    if hidden_done > 0 {
        parts.push(counted(hidden_done as u64, " done (clt ls --done)"));
    }
    assert(views(parts@) =~= summary_parts(open as nat, doing as nat, hidden_done as nat));
    let all = join(&parts, " · ");
    let s = cat("  ", all.as_str());
    paint(Ink::Dim, s.as_str())
}

/// What is shown for an empty list.
pub open spec fn empty_lines(branch: Option<Seq<char>>, filtered: bool) -> Seq<Seq<char>> {
    if filtered {
        seq![
            "  "@ + painted(Ink::Dim, "Nothing matches that filter."@),
            "  "@ + painted(Ink::Dim, "clt ls --all    every branch, every state"@),
        ]
    } else {
        seq![
            "  Nothing "@ + (match branch {
                Some(b) => "on "@ + painted(Ink::Bold, b),
                None => "here"@,
            }) + "."@,
            ""@,
            "  "@ + painted(Ink::Bold, "clt add \"the thing\""@) + "   "@ + painted(
                Ink::Dim,
                "file a task on this branch"@,
            ),
            "  "@ + painted(Ink::Bold, "clt ls --all"@) + "              "@ + painted(
                Ink::Dim,
                "see every branch"@,
            ),
        ]
    }
}

/// What to print when the list is empty, which is most people's first contact
/// with the tool.
pub fn empty(branch: Option<&str>, filtered: bool) -> (r: Vec<String>)
    ensures
        views(r@) == empty_lines(opt_str_view(branch), filtered),
{
    let mut out: Vec<String> = Vec::new();
    if filtered {
        let a = paint(Ink::Dim, "Nothing matches that filter.");
        let b = paint(Ink::Dim, "clt ls --all    every branch, every state");
        out.push(cat("  ", a.as_str()));
        out.push(cat("  ", b.as_str()));
        assert(views(out@) =~= empty_lines(opt_str_view(branch), filtered));
        return out;
    }
    let place = match branch {
        Some(b) => {
            let name = paint(Ink::Bold, b);
            cat("on ", name.as_str())
        },
        None => "here".to_owned(),
    };
    let mut first = cat("  Nothing ", place.as_str());
    first.append(".");
    out.push(first);
    out.push("".to_owned());
    let a = paint(Ink::Bold, "clt add \"the thing\"");
    let b = paint(Ink::Dim, "file a task on this branch");
    let mut line = cat("  ", a.as_str());
    line.append("   ");
    line.append(b.as_str());
    out.push(line);
    let a = paint(Ink::Bold, "clt ls --all");
    let b = paint(Ink::Dim, "see every branch");
    let mut line = cat("  ", a.as_str());
    line.append("              ");
    line.append(b.as_str());
    out.push(line);
    assert(views(out@) =~= empty_lines(opt_str_view(branch), filtered));
    out
}

/// An age is told in the largest unit of which at least one has passed, as many
/// as have passed: minutes, hours, days, weeks. Under a minute, and in the
/// future, it is now; and a year is as far as it goes.
pub proof fn law_ages_are_told_in_the_largest_unit(secs: int, n: nat)
    ensures
        secs < 60 ==> ago_text(secs) == "now"@,
        60 <= secs && 1 <= n < 60 && 60 * n <= secs < 60 * (n + 1) ==> ago_text(secs) == decimal(n)
            + "m"@,
        1 <= n < 24 && 3600 * n <= secs < 3600 * (n + 1) ==> ago_text(secs) == decimal(n) + "h"@,
        1 <= n < 7 && 86400 * n <= secs < 86400 * (n + 1) ==> ago_text(secs) == decimal(n) + "d"@,
        n >= 1 && 604800 * n <= secs < 604800 * (n + 1) && secs < 365 * 86400 ==> ago_text(secs)
            == decimal(n) + "w"@,
        secs >= 365 * 86400 ==> ago_text(secs) == "1y+"@,
{
    if 60 <= secs && 1 <= n < 60 && 60 * n <= secs < 60 * (n + 1) {
        assert(secs / 60 == n);
    }
    if 1 <= n < 24 && 3600 * n <= secs < 3600 * (n + 1) {
        assert(secs / 3600 == n);
    }
    if 1 <= n < 7 && 86400 * n <= secs < 86400 * (n + 1) {
        assert(secs / 86400 == n);
    }
    if n >= 1 && 604800 * n <= secs < 604800 * (n + 1) && secs < 365 * 86400 {
        assert(secs / 604800 == n);
    }
}

/// A column is as wide as its widest text, and no wider.
pub proof fn law_a_column_fits_its_widest_text(texts: Seq<Seq<char>>)
    ensures
        forall|i: int| 0 <= i < texts.len() ==> cell_width(#[trigger] texts[i]) <= widest(texts),
        texts.len() > 0 ==> exists|i: int|
            0 <= i < texts.len() && cell_width(#[trigger] texts[i]) == widest(texts),
        texts.len() == 0 ==> widest(texts) == 0,
    decreases texts.len(),
{
    if texts.len() > 0 {
        let r = texts.drop_last();
        law_a_column_fits_its_widest_text(r);
        assert forall|i: int| 0 <= i < texts.len() implies cell_width(#[trigger] texts[i]) <= widest(
            texts,
        ) by {
            if i < r.len() {
                assert(r[i] == texts[i]);
            }
        }
        if cell_width(texts.last()) > widest(r) || r.len() == 0 {
            assert(cell_width(texts[texts.len() - 1]) == widest(texts));
        } else {
            let i = choose|i: int| 0 <= i < r.len() && cell_width(#[trigger] r[i]) == widest(r);
            assert(texts[i] == r[i]);
        }
    }
}

/// Padding adds blanks up to the width that was asked for, and cuts nothing.
pub proof fn law_padding_adds_blanks(s: Seq<char>, w: nat, to: nat)
    ensures
        padded_from(s, w, to).take(s.len() as int) == s,
        padded_from(s, w, to).len() == s.len() + (if w < to {
            to - w
        } else {
            0
        }),
        forall|i: int|
            s.len() <= i < padded_from(s, w, to).len() ==> #[trigger] padded_from(s, w, to)[i]
                == ' ',
{
    assert(padded_from(s, w, to).take(s.len() as int) =~= s);
}

/// What a row tells of its task: its number; its glyph and title, two blanks
/// further in for each task above it, with how many of its subtasks are done
/// where it has any; where it is, who filed it, and on which branch it is where
/// that is asked for.
pub proof fn law_what_a_row_tells(
    row: RowView,
    progress: Option<(nat, nat)>,
    now: Moment,
    show_branch: bool,
)
    ensures
        ({
            let c = cell_of(row, progress, now, show_branch);
            let t = row.task;
            let start = Seq::new(2 * row.depth, |i: int| ' ') + t.state.glyph_of() + " "@ + t.title;
            &&& c.id == "#"@ + decimal(t.id as nat)
            &&& progress is None ==> c.body == start + ""@
            &&& progress matches Some(p) ==> c.body == start + ("  "@ + decimal(p.0) + "/"@
                + decimal(p.1))
            &&& !show_branch ==> c.branch == ""@
            &&& show_branch && t.branch is None ==> c.branch == "(repo)"@
            &&& show_branch && t.branch is Some ==> c.branch == t.branch->0
            &&& t.location is None ==> c.location == ""@
            &&& t.location matches Some(l) ==> c.location == l.text()
            &&& t.actor is None ==> c.actor == ""@
            &&& t.actor matches Some(a) ==> c.actor == "["@ + a + "]"@
            &&& c.age == ago_text(elapsed_secs(t.updated, now))
        }),
{
}

/// Rows that are there for context recede, and so does finished work; what is in
/// progress stands out.
pub proof fn law_what_stands_out(
    row: RowView,
    progress: Option<(nat, nat)>,
    now: Moment,
    show_branch: bool,
)
    ensures
        ({
            let ink = cell_of(row, progress, now, show_branch).ink;
            &&& row.context ==> ink == Ink::Dim
            &&& row.task.state == State::Done ==> ink == Ink::Dim
            &&& !row.context && row.task.state == State::Doing ==> ink == Ink::Yellow
            &&& !row.context && row.task.state == State::Todo ==> ink == Ink::Plain
        }),
{
}

/// There is a line for each row, in the order of the rows, and what each tells
/// is of its own task.
pub proof fn law_a_line_for_each_row(
    ts: Seq<TaskView>,
    rows: Seq<RowView>,
    now: Moment,
    show_branch: bool,
    i: int,
)
    requires
        0 <= i < rows.len(),
    ensures
        list_lines(cells_of(ts, rows, now, show_branch)).len() == rows.len(),
        cells_of(ts, rows, now, show_branch)[i] == cell_of(
            rows[i],
            progress_of(ts, rows[i].task.id),
            now,
            show_branch,
        ),
{
}

/// The summary tells how many tasks are open, how many are in progress where
/// there are any, and how many finished ones are not shown where there are any.
pub proof fn law_what_the_summary_tells(open: nat, doing: nat, hidden: nat)
    ensures
        ({
            let parts = summary_parts(open, doing, hidden);
            &&& parts.contains(decimal(open) + " open"@)
            &&& doing > 0 ==> parts[0] == decimal(doing) + " in progress"@
            &&& hidden > 0 ==> parts.last() == decimal(hidden) + " done (clt ls --done)"@
            &&& parts.len() == 1 + (if doing > 0 {
                1int
            } else {
                0
            }) + (if hidden > 0 {
                1int
            } else {
                0
            })
        }),
{
    let parts = summary_parts(open, doing, hidden);
    let k: int = if doing > 0 {
        1
    } else {
        0
    };
    assert(parts[k] == decimal(open) + " open"@);
}

} // verus!
