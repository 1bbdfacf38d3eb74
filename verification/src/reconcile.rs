//! Bringing the task list in line with the markers in the source.
//!
//! A marker that is new becomes a task, one that moved takes its task along,
//! and one that vanished closes its task.

use crate::forest::{has_id, task_views};
use crate::journal::{records, Entry, Record};
use crate::linkage::dry_run_note;
use crate::scan::{
    all_hits, countable, gather, has_key, hit_views, is_ignored, is_own_storage, knows_key,
    law_settling_keeps_every_identity_once, lemma_settled_are_found, own_storage, pattern_covers,
    settle, settled, source_views, Hit, HitView, Source,
};
use crate::states::{entry, record_of, Change};
use crate::store::{
    coherent, data_ok, law_changes_in_place_keep_branches_together, lemma_in_place,
    lemma_lookup_at, marked_from, DataView, Store,
};
use crate::task::{opt_location, Location, LocationView, Origin, OriginView, State, Task, TaskView};
use crate::text::{
    as_opt, cat, decimal, opt_str_view, opt_view, own_opt, same, same_opt, swapped, to_decimal,
    views,
};
use crate::time::Moment;
use vstd::prelude::*;

verus! {

// ---------------------------------------------------------------------------
// Which markers count
// ---------------------------------------------------------------------------

/// Whether a marker is one to keep: not in clt's own files, and not where it
/// was asked to look away.
pub open spec fn counts(h: HitView, ignores: Seq<Seq<char>>) -> bool {
    !own_storage(h.file) && !exists|i: int|
        0 <= i < ignores.len() && pattern_covers(#[trigger] ignores[i], h.file)
}

pub open spec fn counted_hits(hits: Seq<HitView>, ignores: Seq<Seq<char>>) -> Seq<HitView> {
    hits.filter(|h: HitView| counts(h, ignores))
}

/// Leaves out the markers that do not count.
pub fn wanted(hits: &Vec<Hit>, ignores: &Vec<String>) -> (r: Vec<Hit>)
    ensures
        hit_views(r@) == counted_hits(hit_views(hits@), views(ignores@)),
{
    let ghost all = hit_views(hits@);
    let ghost pats = views(ignores@);
    let mut out: Vec<Hit> = Vec::new();
    let mut i: usize = 0;
    proof {
        reveal(Seq::filter);
        assert(hit_views(out@) =~= counted_hits(all.take(0), pats));
    }
    while i < hits.len()
        invariant
            i <= hits@.len(),
            all == hit_views(hits@),
            pats == views(ignores@),
            hit_views(out@) == counted_hits(all.take(i as int), pats),
        decreases hits@.len() - i,
    {
        let ghost so_far = out@;
        let h = &hits[i];
        proof {
            reveal(Seq::filter);
            assert(all.take(i + 1).drop_last() =~= all.take(i as int));
            assert(all.take(i + 1).last() == h@);
        }
        let own = is_own_storage(h.file.as_str());
        let ignored = is_ignored(h.file.as_str(), ignores);
        proof {
            assert(ignored == exists|k: int|
                0 <= k < pats.len() && pattern_covers(#[trigger] pats[k], h@.file)) by {
                if ignored {
                    let k = choose|k: int|
                        0 <= k < ignores@.len() && pattern_covers(
                            (#[trigger] ignores@[k])@,
                            h.file@,
                        );
                    assert(pattern_covers(pats[k], h@.file));
                } else {
                    assert forall|k: int| 0 <= k < pats.len() implies !pattern_covers(
                        #[trigger] pats[k],
                        h@.file,
                    ) by {
                        assert(!pattern_covers((ignores@[k])@, h.file@));
                    }
                }
            }
        }
        if !own && !ignored {
            out.push(h.clone());
            assert(hit_views(out@) =~= hit_views(so_far).push(h@));
        }
        i += 1;
    }
    assert(all.take(i as int) =~= all);
    out
}

/// The markers of the working tree that a scan is to meet. What does not count
/// is left out before repeats are dropped, so that a marker in an ignored file
/// does not stand in for the same marker elsewhere.
pub fn scan_wanted(sources: &Vec<Source>, ignores: &Vec<String>) -> (r: Vec<Hit>)
    requires
        forall|i: int| 0 <= i < sources@.len() ==> countable((#[trigger] sources@[i])@),
    ensures
        hit_views(r@) == settled(
            counted_hits(all_hits(source_views(sources@)), views(ignores@)),
        ),
        ({
            let found = all_hits(source_views(sources@));
            let pats = views(ignores@);
            &&& forall|key: Seq<char>| #[trigger]
                has_key(hit_views(r@), key) <==> exists|i: int|
                    0 <= i < found.len() && counts(#[trigger] found[i], pats) && found[i].key == key
            &&& forall|x: int, y: int|
                0 <= x < y < r@.len() ==> (#[trigger] hit_views(r@)[x]).key != (
                #[trigger] hit_views(r@)[y]).key
        }),
{
    proof {
        law_ignored_files_hide_nothing(all_hits(source_views(sources@)), views(ignores@));
        law_each_marker_is_met_once(all_hits(source_views(sources@)), views(ignores@));
    }
    settle(wanted(&gather(sources), ignores))
}

// ---------------------------------------------------------------------------
// Meeting the markers
// ---------------------------------------------------------------------------

/// Where a marker stands.
pub open spec fn place(h: HitView) -> LocationView {
    LocationView { file: swapped(h.file, '\\', '/'), line: Some(h.line) }
}

/// The task that a new marker becomes.
pub open spec fn scanned_task(h: HitView, id: u32, branch: Option<Seq<char>>, now: Moment) -> TaskView {
    TaskView {
        location: Some(place(h)),
        branch,
        origin: OriginView::Scan { key: h.key },
        actor: Some("scan"@),
        ..TaskView::fresh(id, h.title, now)
    }
}

/// `t`, at another place.
pub open spec fn relocated(t: TaskView, h: HitView, now: Moment) -> TaskView {
    TaskView { location: Some(place(h)), updated: now, ..t }
}

/// A list of tasks, some way through the markers.
#[verifier::ext_equal]
pub struct Meeting {
    pub tasks: Seq<TaskView>,
    /// The next id.
    pub next: nat,
    pub added: Seq<TaskView>,
    pub moved: Seq<TaskView>,
    pub records: Seq<Record>,
}

pub open spec fn meeting_start(ts: Seq<TaskView>, next: nat) -> Meeting {
    Meeting {
        tasks: ts,
        next,
        added: Seq::empty(),
        moved: Seq::empty(),
        records: Seq::empty(),
    }
}

/// One marker met: its task follows it, or it becomes one.
pub open spec fn meet(
    m: Meeting,
    h: HitView,
    branch: Option<Seq<char>>,
    actor: Option<Seq<char>>,
    now: Moment,
) -> Meeting {
    match marked_from(m.tasks, h.key, 0) {
        Some(i) => if m.tasks[i].location == Some(place(h)) {
            m
        } else {
            let t = relocated(m.tasks[i], h, now);
            Meeting { tasks: m.tasks.update(i, t), moved: m.moved.push(t), ..m }
        },
        None => {
            let t = scanned_task(h, m.next as u32, branch, now);
            Meeting {
                tasks: m.tasks.push(t),
                next: m.next + 1,
                added: m.added.push(t),
                records: m.records.push(
                    record_of("scan"@, actor, t.id, Some("+ "@ + t.title), branch),
                ),
                ..m
            }
        },
    }
}

/// The first `n` markers met.
pub open spec fn meet_some(
    ts: Seq<TaskView>,
    next: nat,
    hits: Seq<HitView>,
    n: nat,
    branch: Option<Seq<char>>,
    actor: Option<Seq<char>>,
    now: Moment,
) -> Meeting
    decreases n,
{
    if n == 0 {
        meeting_start(ts, next)
    } else {
        meet(
            meet_some(ts, next, hits, (n - 1) as nat, branch, actor, now),
            hits[n - 1],
            branch,
            actor,
            now,
        )
    }
}

/// Whether a task's marker vanished.
///
/// Only tasks scanned from this very branch are eligible. A working tree holds
/// one branch's files, so a marker on another branch is simply absent, and no
/// absence there means that it was deleted. Repo-wide tasks are spared while on
/// a branch, too: closing a task that is still to do is invisible and
/// unrecoverable, while leaving one open corrects itself.
pub open spec fn is_stale(t: TaskView, hits: Seq<HitView>, branch: Option<Seq<char>>) -> bool {
    &&& t.state != State::Done
    &&& t.branch == branch
    &&& t.scan_key() matches Some(key) && !has_key(hits, key)
}

/// `t`, closed because its marker is gone.
pub open spec fn faded(t: TaskView, now: Moment) -> TaskView {
    TaskView { state: State::Done, updated: now, ..t }
}

/// The first `n` tasks looked at, and closed where their marker is gone.
pub open spec fn sweep_some(
    ts: Seq<TaskView>,
    n: nat,
    hits: Seq<HitView>,
    branch: Option<Seq<char>>,
    actor: Option<Seq<char>>,
    now: Moment,
) -> Change
    decreases n,
{
    if n == 0 {
        Change { tasks: ts, touched: Seq::empty(), records: Seq::empty() }
    } else {
        let c = sweep_some(ts, (n - 1) as nat, hits, branch, actor, now);
        let t = ts[n - 1];
        if is_stale(t, hits, branch) {
            Change {
                tasks: c.tasks.update(n - 1, faded(t, now)),
                touched: c.touched.push(faded(t, now)),
                records: c.records.push(
                    record_of(
                        "scan"@,
                        actor,
                        t.id,
                        Some("closed (marker gone) "@ + t.title),
                        t.branch,
                    ),
                ),
            }
        } else {
            c
        }
    }
}

/// What a scan did.
pub struct Scanned {
    pub added: Vec<Task>,
    pub closed: Vec<Task>,
    pub moved: Vec<Task>,
    pub entries: Vec<Entry>,
}

/// Everything there is to say of a scan.
#[verifier::ext_equal]
pub struct ScannedView {
    pub tasks: Seq<TaskView>,
    pub next: nat,
    pub added: Seq<TaskView>,
    pub closed: Seq<TaskView>,
    pub moved: Seq<TaskView>,
    pub records: Seq<Record>,
}

/// The list after the markers were met and the tasks of vanished ones closed.
pub open spec fn reconciled(
    d: DataView,
    hits: Seq<HitView>,
    branch: Option<Seq<char>>,
    actor: Option<Seq<char>>,
    now: Moment,
) -> ScannedView {
    let m = meet_some(d.tasks, d.next_id as nat, hits, hits.len(), branch, actor, now);
    let c = sweep_some(m.tasks, m.tasks.len(), hits, branch, actor, now);
    ScannedView {
        tasks: c.tasks,
        next: m.next,
        added: m.added,
        closed: c.touched,
        moved: m.moved,
        records: m.records + c.records,
    }
}

/// Ids are used up one by one, and by new markers only.
pub proof fn lemma_ids_used(
    ts: Seq<TaskView>,
    next: nat,
    hits: Seq<HitView>,
    k: nat,
    n: nat,
    branch: Option<Seq<char>>,
    actor: Option<Seq<char>>,
    now: Moment,
)
    requires
        k <= n <= hits.len(),
    ensures
        ({
            let a = meet_some(ts, next, hits, k, branch, actor, now);
            let b = meet_some(ts, next, hits, n, branch, actor, now);
            next <= a.next <= b.next <= next + n
        }),
    decreases n,
{
    if k < n {
        lemma_ids_used(ts, next, hits, k, (n - 1) as nat, branch, actor, now);
    } else if n > 0 {
        lemma_ids_used(ts, next, hits, (n - 1) as nat, (n - 1) as nat, branch, actor, now);
    }
}

proof fn lemma_marked(ts: Seq<TaskView>, key: Seq<char>, i: int)
    requires
        0 <= i <= ts.len(),
    ensures
        match marked_from(ts, key, i) {
            Some(k) => i <= k < ts.len() && ts[k].scan_key() == Some(key) && forall|j: int|
                i <= j < k ==> (#[trigger] ts[j]).scan_key() != Some(key),
            None => forall|j: int|
                i <= j < ts.len() ==> (#[trigger] ts[j]).scan_key() != Some(key),
        },
    decreases ts.len() - i,
{
    if i < ts.len() && ts[i].scan_key() != Some(key) {
        lemma_marked(ts, key, i + 1);
    }
}

/// What is found by its marker depends on the markers alone.
proof fn lemma_marked_same(a: Seq<TaskView>, b: Seq<TaskView>, key: Seq<char>)
    requires
        a.len() <= b.len(),
        forall|i: int| 0 <= i < a.len() ==> (#[trigger] b[i]).origin == a[i].origin,
        marked_from(a, key, 0) is Some,
    ensures
        marked_from(b, key, 0) == marked_from(a, key, 0),
{
    lemma_marked(a, key, 0);
    lemma_marked(b, key, 0);
    let i = marked_from(a, key, 0)->0;
    assert(b[i].origin == a[i].origin);
    assert(b[i].scan_key() == Some(key));
    let j = marked_from(b, key, 0)->0;
    if j < i {
        assert(b[j].origin == a[j].origin);
        assert(a[j].scan_key() == Some(key));
    }
}

fn same_place(a: &Option<Location>, b: &Location) -> (r: bool)
    ensures
        r == (opt_location(*a) == Some(b@)),
{
    match a {
        Some(l) => same(l.file.as_str(), b.file.as_str()) && l.line == b.line,
        None => false,
    }
}

/// Whether a task that is not done was harvested on a branch from a marker that
/// is none of these.
pub open spec fn gone_from(t: TaskView, hits: Seq<HitView>, branch: Option<Seq<char>>) -> bool {
    &&& t.state == State::Todo || t.state == State::Doing
    &&& t.branch == branch
    &&& t.origin matches OriginView::Scan { key } && forall|k: int|
        0 <= k < hits.len() ==> (#[trigger] hits[k]).key != key
}

/// A scan closes what is gone and nothing else.
proof fn lemma_scan_closes_what_is_gone(
    d: DataView,
    hits: Seq<HitView>,
    branch: Option<Seq<char>>,
    actor: Option<Seq<char>>,
    now: Moment,
)
    ensures
        ({
            let s = reconciled(d, hits, branch, actor, now);
            &&& s.tasks.len() >= d.tasks.len()
            &&& forall|i: int|
                0 <= i < d.tasks.len() ==> if gone_from(d.tasks[i], hits, branch) {
                    (#[trigger] s.tasks[i]).state == State::Done && s.tasks[i].updated == now
                        && s.closed.contains(s.tasks[i])
                } else {
                    s.tasks[i].state == d.tasks[i].state
                }
        }),
{
    let s = reconciled(d, hits, branch, actor, now);
    let m = meet_some(d.tasks, d.next_id as nat, hits, hits.len(), branch, actor, now);
    lemma_meet_some(d.tasks, d.next_id as nat, hits, hits.len(), branch, actor, now);
    lemma_sweep(m.tasks, m.tasks.len(), hits, branch, actor, now);
    assert forall|i: int| 0 <= i < d.tasks.len() implies if gone_from(d.tasks[i], hits, branch) {
        (#[trigger] s.tasks[i]).state == State::Done && s.tasks[i].updated == now
            && s.closed.contains(s.tasks[i])
    } else {
        s.tasks[i].state == d.tasks[i].state
    } by {
        let t = d.tasks[i];
        if gone_from(t, hits, branch) {
            let key = t.scan_key()->0;
            law_vanished_markers_close_their_task(d, hits, branch, actor, now, i, key);
        } else {
            if t.state != State::Done && t.branch == branch {
                if let OriginView::Scan { key } = t.origin {
                    let k = choose|k: int| 0 <= k < hits.len() && (#[trigger] hits[k]).key == key;
                    assert(t.origin == (OriginView::Scan { key: hits[k].key }));
                }
            }
            law_scans_close_nothing_else(d, hits, branch, actor, now, i);
        }
    }
}

/// How many of the first `n` markers stand for no task yet, each counted once.
pub open spec fn unmet(ts: Seq<TaskView>, hits: Seq<HitView>, n: nat) -> nat
    decreases n,
{
    if n == 0 {
        0
    } else {
        let key = hits[n - 1].key;
        let before = unmet(ts, hits, (n - 1) as nat);
        if marked_from(ts, key, 0) is Some || has_key(hits.take(n - 1), key) {
            before
        } else {
            before + 1
        }
    }
}

/// How many tasks these markers will become, and so how many ids they take.
pub fn new_markers(store: &Store, hits: &Vec<Hit>) -> (r: usize)
    ensures
        r == unmet(store@.tasks, hit_views(hits@), hits@.len()),
{
    let ghost ts = store@.tasks;
    let ghost hs = hit_views(hits@);
    let mut met: Vec<Hit> = Vec::new();
    let mut count: usize = 0;
    let mut k: usize = 0;
    assert(hit_views(met@) =~= hs.take(0));
    while k < hits.len()
        invariant
            k <= hits@.len(),
            ts == store@.tasks,
            hs == hit_views(hits@),
            hit_views(met@) == hs.take(k as int),
            count <= k,
            count == unmet(ts, hs, k as nat),
        decreases hits@.len() - k,
    {
        let h = &hits[k];
        let ghost before = met@;
        assert(hs[k as int] == h@);
        if store.find_by_scan_key(h.key.as_str()).is_none() && !knows_key(&met, h.key.as_str()) {
            count += 1;
        }
        met.push(h.clone());
        assert(hit_views(met@) =~= hit_views(before).push(h@));
        assert(hit_views(met@) =~= hs.take(k + 1));
        k += 1;
    }
    count
}

/// An id goes to each marker that stands for no task yet, and to no other.
pub proof fn law_only_new_markers_take_ids(
    d: DataView,
    hits: Seq<HitView>,
    branch: Option<Seq<char>>,
    actor: Option<Seq<char>>,
    now: Moment,
)
    ensures
        reconciled(d, hits, branch, actor, now).next == d.next_id + unmet(
            d.tasks,
            hits,
            hits.len(),
        ),
{
    lemma_unmet(d.tasks, d.next_id as nat, hits, hits.len(), branch, actor, now);
}

/// After the first `n` markers, those that stand for a task are those that did
/// before and those that were met.
proof fn lemma_unmet(
    ts: Seq<TaskView>,
    next: nat,
    hits: Seq<HitView>,
    n: nat,
    branch: Option<Seq<char>>,
    actor: Option<Seq<char>>,
    now: Moment,
)
    requires
        n <= hits.len(),
    ensures
        ({
            let m = meet_some(ts, next, hits, n, branch, actor, now);
            &&& m.next == next + unmet(ts, hits, n)
            &&& forall|key: Seq<char>|
                (#[trigger] marked_from(m.tasks, key, 0)) is Some <==> marked_from(ts, key, 0) is Some
                    || has_key(hits.take(n as int), key)
        }),
    decreases n,
{
    let m = meet_some(ts, next, hits, n, branch, actor, now);
    if n > 0 {
        let k = (n - 1) as nat;
        let p = meet_some(ts, next, hits, k, branch, actor, now);
        let h = hits[k as int];
        lemma_unmet(ts, next, hits, k, branch, actor, now);
        assert(m == meet(p, h, branch, actor, now));
        assert(marked_from(p.tasks, h.key, 0) is Some <==> marked_from(ts, h.key, 0) is Some
            || has_key(hits.take(k as int), h.key));
        assert forall|key: Seq<char>|
            (#[trigger] marked_from(m.tasks, key, 0)) is Some <==> marked_from(ts, key, 0) is Some
                || has_key(hits.take(n as int), key) by {
            lemma_met_marks(p, h, branch, actor, now, key);
            assert(has_key(hits.take(n as int), key) <==> has_key(hits.take(k as int), key) || h.key
                == key) by {
                lemma_has_key_take(hits, k as int, key);
            }
            assert(marked_from(p.tasks, key, 0) is Some <==> marked_from(ts, key, 0) is Some
                || has_key(hits.take(k as int), key));
        }
    }
}

proof fn lemma_has_key_take(hits: Seq<HitView>, k: int, key: Seq<char>)
    requires
        0 <= k < hits.len(),
    ensures
        has_key(hits.take(k + 1), key) <==> has_key(hits.take(k), key) || hits[k].key == key,
{
    let a = hits.take(k);
    let b = hits.take(k + 1);
    if has_key(a, key) {
        let i = choose|i: int| 0 <= i < a.len() && (#[trigger] a[i]).key == key;
        assert(b[i].key == key);
    }
    if hits[k].key == key {
        assert(b[k].key == key);
    }
    if has_key(b, key) && hits[k].key != key {
        let i = choose|i: int| 0 <= i < b.len() && (#[trigger] b[i]).key == key;
        assert(a[i].key == key);
    }
}

/// Once a marker is met it stands for a task, and the others stand for one as
/// they did.
proof fn lemma_met_marks(
    p: Meeting,
    h: HitView,
    branch: Option<Seq<char>>,
    actor: Option<Seq<char>>,
    now: Moment,
    key: Seq<char>,
)
    ensures
        marked_from(meet(p, h, branch, actor, now).tasks, key, 0) is Some <==> marked_from(
            p.tasks,
            key,
            0,
        ) is Some || h.key == key,
{
    let m = meet(p, h, branch, actor, now);
    lemma_marked(p.tasks, h.key, 0);
    lemma_marked(p.tasks, key, 0);
    lemma_marked(m.tasks, key, 0);
    assert forall|i: int| 0 <= i < p.tasks.len() implies (#[trigger] m.tasks[i]).origin
        == p.tasks[i].origin by {}
    if marked_from(p.tasks, key, 0) is Some {
        lemma_marked_same(p.tasks, m.tasks, key);
    } else {
        if h.key == key {
            assert(m.tasks[p.tasks.len() as int].scan_key() == Some(key));
        } else if let Some(i) = marked_from(m.tasks, key, 0) {
            if i < p.tasks.len() {
                assert(p.tasks[i].scan_key() == Some(key));
            }
        }
    }
}

/// Brings the list in line with the markers that were found.
pub fn cmd_scan(store: &mut Store, actor: Option<&str>, now: Moment, hits: &Vec<Hit>) -> (r:
    Scanned)
    requires
        old(store).wf(),
        old(store)@.next_id + unmet(old(store)@.tasks, hit_views(hits@), hits@.len()) <= u32::MAX,
    ensures
        ({
            let s = reconciled(
                old(store)@,
                hit_views(hits@),
                old(store).scope.branch_of(),
                opt_str_view(actor),
                now,
            );
            &&& final(store)@ == (DataView {
                tasks: s.tasks,
                next_id: s.next as u32,
                ..old(store)@
            })
            &&& task_views(r.added@) == s.added
            &&& task_views(r.closed@) == s.closed
            &&& task_views(r.moved@) == s.moved
            &&& records(r.entries@) == s.records
        }),
        final(store)@.tasks.len() >= old(store)@.tasks.len(),
        forall|i: int|
            0 <= i < old(store)@.tasks.len() ==> ({
                let before = old(store)@.tasks[i];
                let after = #[trigger] final(store)@.tasks[i];
                if gone_from(before, hit_views(hits@), old(store).scope.branch_of()) {
                    after.state == State::Done && after.updated == now && task_views(
                        r.closed@,
                    ).contains(after)
                } else {
                    after.state == before.state
                }
            }),
        final(store).kept(*old(store)),
        final(store).wf(),
{
    let ghost was = store@;
    let ghost hs = hit_views(hits@);
    let ghost who = opt_str_view(actor);
    let branch = own_opt(store.scope.branch());
    let ghost b = opt_view(branch);
    let ghost last = meet_some(was.tasks, was.next_id as nat, hs, hs.len(), b, who, now);
    let mut out = Scanned {
        added: Vec::new(),
        closed: Vec::new(),
        moved: Vec::new(),
        entries: Vec::new(),
    };
    proof {
        law_only_new_markers_take_ids(was, hs, b, who, now);
        lemma_scan_closes_what_is_gone(was, hs, b, who, now);
        assert(task_views(out.added@) =~= Seq::empty());
        assert(task_views(out.moved@) =~= Seq::empty());
        assert(task_views(out.closed@) =~= Seq::empty());
        assert(records(out.entries@) =~= Seq::empty());
    }
    let mut k: usize = 0;
    while k < hits.len()
        invariant
            k <= hits@.len(),
            hs == hit_views(hits@),
            who == opt_str_view(actor),
            b == opt_view(branch),
            last == meet_some(was.tasks, was.next_id as nat, hs, hs.len(), b, who, now),
            last.next <= u32::MAX,
            store.kept(*old(store)),
            store.wf(),
            ({
                let m = meet_some(was.tasks, was.next_id as nat, hs, k as nat, b, who, now);
                &&& m.next <= u32::MAX
                &&& store@ == (DataView { tasks: m.tasks, next_id: m.next as u32, ..was })
                &&& task_views(out.added@) == m.added
                &&& task_views(out.moved@) == m.moved
                &&& records(out.entries@) == m.records
            }),
            out.closed@.len() == 0,
        decreases hits@.len() - k,
    {
        let hit = &hits[k];
        let ghost h = hs[k as int];
        assert(h == hit@);
        let ghost m = meet_some(was.tasks, was.next_id as nat, hs, k as nat, b, who, now);
        let ghost m2 = meet_some(was.tasks, was.next_id as nat, hs, (k + 1) as nat, b, who, now);
        proof {
            assert(m2 == meet(m, h, b, who, now));
            lemma_ids_used(
                was.tasks,
                was.next_id as nat,
                hs,
                (k + 1) as nat,
                hs.len(),
                b,
                who,
                now,
            );
            lemma_marked(m.tasks, h.key, 0);
        }
        let location = Location::new(hit.file.as_str(), Some(hit.line));
        let known: Option<u32> = match store.find_by_scan_key(hit.key.as_str()) {
            Some(t) => Some(t.id),
            None => None,
        };
        match known {
            Some(id) => {
                let ghost at = marked_from(m.tasks, h.key, 0)->0;
                proof {
                    lemma_lookup_at(m.tasks, at);
                }
                let ghost before = store@;
                let ghost so_far = out.moved@;
                if let Some(task) = store.get_mut(id) {
                    if !same_place(&task.location, &location) {
                        task.location = Some(location);
                        task.updated = now;
                        let snapshot = task.clone();
                        out.moved.push(snapshot);
                        proof {
                            assert(task_views(out.moved@) =~= task_views(so_far).push(snapshot@));
                        }
                    }
                }
                proof {
                    assert(store@.tasks =~= m2.tasks);
                    lemma_in_place(before, store@);
                }
            },
            None => {
                let ghost so_far = out.added@;
                let ghost so_far2 = out.entries@;
                let id: u32 = store.reserve_id();
                let mut t = Task::new(id, hit.title.as_str(), now);
                t.location = Some(location);
                t.branch = own_opt(as_opt(&branch));
                t.origin = Origin::Scan { key: hit.key.clone() };
                t.actor = Some("scan".to_owned());
                proof {
                    assert(t@ =~= scanned_task(h, id, b, now));
                }
                store.insert(t.clone());
                let detail = cat("+ ", t.title.as_str());
                let e = entry("scan", actor, id, Some(detail.as_str()), as_opt(&t.branch));
                out.entries.push(e);
                out.added.push(t);
                proof {
                    assert(records(out.entries@) =~= records(so_far2).push(e@.record()));
                    assert(task_views(out.added@) =~= task_views(so_far).push(t@));
                    assert(store@.tasks =~= m2.tasks);
                }
            },
        }
        k += 1;
    }
    let ghost mid = store@;
    let ghost ts = mid.tasks;
    let ghost met = records(out.entries@);
    proof {
        assert(task_views(out.closed@) =~= Seq::empty());
        assert(met + Seq::<Record>::empty() =~= met);
    }
    let count: usize = store.tasks().len();
    let mut i: usize = 0;
    while i < count
        invariant
            i <= count,
            count == ts.len(),
            ts == mid.tasks,
            data_ok(mid),
            hs == hit_views(hits@),
            who == opt_str_view(actor),
            b == opt_view(branch),
            store.kept(*old(store)),
            store.wf(),
            ({
                let c = sweep_some(ts, i as nat, hs, b, who, now);
                &&& store@ == (DataView { tasks: c.tasks, ..mid })
                &&& task_views(out.closed@) == c.touched
                &&& records(out.entries@) == met + c.records
            }),
            task_views(out.added@) == last.added,
            task_views(out.moved@) == last.moved,
        decreases count - i,
    {
        let ghost c = sweep_some(ts, i as nat, hs, b, who, now);
        let ghost c2 = sweep_some(ts, (i + 1) as nat, hs, b, who, now);
        proof {
            lemma_sweep(ts, i as nat, hs, b, who, now);
        }
        let ghost before = store@;
        let task = &store.tasks()[i];
        let id: u32 = task.id;
        assert(task@ == c.tasks[i as int] && task@ == ts[i as int]);
        let gone = match task.scan_key() {
            Some(key) => !task.is_done() && same_opt(as_opt(&task.branch), as_opt(&branch)) && !knows_key(
                hits,
                key,
            ),
            None => false,
        };
        assert(gone == is_stale(ts[i as int], hs, b));
        if gone {
            proof {
                lemma_lookup_at(c.tasks, i as int);
            }
            let ghost so_far = out.closed@;
            let ghost so_far2 = out.entries@;
            if let Some(task) = store.get_mut(id) {
                task.state = State::Done;
                task.updated = now;
                let snapshot = task.clone();
                let detail = cat("closed (marker gone) ", snapshot.title.as_str());
                let e = entry("scan", actor, id, Some(detail.as_str()), as_opt(&snapshot.branch));
                out.entries.push(e);
                out.closed.push(snapshot);
                proof {
                    assert(records(out.entries@) =~= records(so_far2).push(e@.record()));
                    assert(records(out.entries@) =~= met + c2.records);
                    assert(task_views(out.closed@) =~= task_views(so_far).push(snapshot@));
                }
            }
            proof {
                assert(store@.tasks =~= c2.tasks);
                lemma_in_place(before, store@);
            }
        }
        i += 1;
    }
    out
}

/// What a sweep does to each task.
proof fn lemma_sweep(
    ts: Seq<TaskView>,
    n: nat,
    hits: Seq<HitView>,
    branch: Option<Seq<char>>,
    actor: Option<Seq<char>>,
    now: Moment,
)
    requires
        n <= ts.len(),
    ensures
        ({
            let c = sweep_some(ts, n, hits, branch, actor, now);
            &&& c.tasks.len() == ts.len()
            &&& forall|i: int|
                0 <= i < ts.len() ==> #[trigger] c.tasks[i] == (if i < n && is_stale(
                    ts[i],
                    hits,
                    branch,
                ) {
                    faded(ts[i], now)
                } else {
                    ts[i]
                })
        }),
    decreases n,
{
    if n > 0 {
        lemma_sweep(ts, (n - 1) as nat, hits, branch, actor, now);
    }
}

// ---------------------------------------------------------------------------
// Reporting
// ---------------------------------------------------------------------------

pub open spec fn location_text(l: Option<LocationView>) -> Seq<char> {
    match l {
        Some(l) => l.text(),
        None => ""@,
    }
}

pub open spec fn added_line(t: TaskView) -> Seq<char> {
    "  + #"@ + decimal(t.id as nat) + "  "@ + t.title + "  "@ + location_text(t.location)
}

pub open spec fn gone_line(t: TaskView) -> Seq<char> {
    "  ✓ #"@ + decimal(t.id as nat) + "  "@ + t.title + "  (marker gone)"@
}

pub open spec fn moved_line(t: TaskView) -> Seq<char> {
    "  → #"@ + decimal(t.id as nat) + "  "@ + t.title + "  now at "@ + location_text(t.location)
}

pub open spec fn scan_lines(
    added: Seq<TaskView>,
    closed: Seq<TaskView>,
    moved: Seq<TaskView>,
    dry: bool,
) -> Seq<Seq<char>> {
    if added.len() == 0 && closed.len() == 0 && moved.len() == 0 {
        seq!["  Markers and tasks already agree."@]
    } else {
        Seq::new(added.len(), |i: int| added_line(added[i])) + Seq::new(
            closed.len(),
            |i: int| gone_line(closed[i]),
        ) + Seq::new(moved.len(), |i: int| moved_line(moved[i])) + dry_run_note(dry)
    }
}

fn where_at(l: &Option<Location>) -> (r: String)
    ensures
        r@ == location_text(opt_location(*l)),
{
    match l {
        Some(l) => l.to_string(),
        None => "".to_owned(),
    }
}

fn head(mark: &str, t: &Task, then_say: &str) -> (r: String)
    ensures
        r@ == mark@ + decimal(t@.id as nat) + "  "@ + t@.title + then_say@,
{
    let n = to_decimal(t.id as u64);
    let mut out = cat(mark, n.as_str());
    out.append("  ");
    out.append(t.title.as_str());
    out.append(then_say);
    out
}

/// What is said after a scan.
pub fn report_scan(added: &Vec<Task>, closed: &Vec<Task>, moved: &Vec<Task>, dry: bool) -> (r: Vec<
    String,
>)
    ensures
        views(r@) == scan_lines(
            task_views(added@),
            task_views(closed@),
            task_views(moved@),
            dry,
        ),
{
    let mut out: Vec<String> = Vec::new();
    if added.len() == 0 && closed.len() == 0 && moved.len() == 0 {
        out.push("  Markers and tasks already agree.".to_owned());
        assert(views(out@) =~= seq!["  Markers and tasks already agree."@]);
        return out;
    }
    let ghost ta = task_views(added@);
    let ghost tc = task_views(closed@);
    let ghost tm = task_views(moved@);
    let ghost la = Seq::new(ta.len(), |i: int| added_line(ta[i]));
    let ghost lc = Seq::new(tc.len(), |i: int| gone_line(tc[i]));
    let ghost lm = Seq::new(tm.len(), |i: int| moved_line(tm[i]));
    assert(views(out@) =~= la.take(0));
    let mut i: usize = 0;
    while i < added.len()
        invariant
            i <= added@.len(),
            ta == task_views(added@),
            la == Seq::new(ta.len(), |i: int| added_line(ta[i])),
            views(out@) == la.take(i as int),
        decreases added@.len() - i,
    {
        let ghost so_far = out@;
        let mut line = head("  + #", &added[i], "  ");
        let place = where_at(&added[i].location);
        line.append(place.as_str());
        out.push(line);
        assert(views(out@) =~= views(so_far).push(added_line(ta[i as int])));
        assert(views(out@) =~= la.take(i + 1));
        i += 1;
    }
    assert(views(out@) =~= la + lc.take(0));
    let mut j: usize = 0;
    while j < closed.len()
        invariant
            j <= closed@.len(),
            tc == task_views(closed@),
            lc == Seq::new(tc.len(), |i: int| gone_line(tc[i])),
            views(out@) == la + lc.take(j as int),
        decreases closed@.len() - j,
    {
        let ghost so_far = out@;
        let line = head("  ✓ #", &closed[j], "  (marker gone)");
        out.push(line);
        assert(views(out@) =~= views(so_far).push(gone_line(tc[j as int])));
        assert(views(out@) =~= la + lc.take(j + 1));
        j += 1;
    }
    assert(views(out@) =~= la + lc + lm.take(0));
    let mut k: usize = 0;
    while k < moved.len()
        invariant
            k <= moved@.len(),
            tm == task_views(moved@),
            lm == Seq::new(tm.len(), |i: int| moved_line(tm[i])),
            views(out@) == la + lc + lm.take(k as int),
        decreases moved@.len() - k,
    {
        let ghost so_far = out@;
        let mut line = head("  → #", &moved[k], "  now at ");
        let place = where_at(&moved[k].location);
        line.append(place.as_str());
        out.push(line);
        assert(views(out@) =~= views(so_far).push(moved_line(tm[k as int])));
        assert(views(out@) =~= la + lc + lm.take(k + 1));
        k += 1;
    }
    assert(views(out@) =~= la + lc + lm);
    if dry {
        let ghost so_far = out@;
        out.push("  (dry run — nothing written)".to_owned());
        assert(views(out@) =~= views(so_far) + dry_run_note(dry));
    } else {
        assert(la + lc + lm + dry_run_note(dry) =~= la + lc + lm);
    }
    out
}

// ---------------------------------------------------------------------------
// What holds of a scan
// ---------------------------------------------------------------------------

/// Meeting markers leaves a task as it was but for its place, and only scanned
/// tasks have one to follow.
proof fn lemma_meet_some(
    ts: Seq<TaskView>,
    next: nat,
    hits: Seq<HitView>,
    n: nat,
    branch: Option<Seq<char>>,
    actor: Option<Seq<char>>,
    now: Moment,
)
    requires
        n <= hits.len(),
    ensures
        ({
            let m = meet_some(ts, next, hits, n, branch, actor, now);
            &&& m.tasks.len() >= ts.len()
            &&& forall|i: int|
                0 <= i < ts.len() ==> (#[trigger] m.tasks[i]) == (TaskView {
                    location: m.tasks[i].location,
                    updated: m.tasks[i].updated,
                    ..ts[i]
                })
            &&& forall|i: int|
                0 <= i < ts.len() && ts[i].scan_key() is None ==> (#[trigger] m.tasks[i]) == ts[i]
            &&& forall|i: int|
                ts.len() <= i < m.tasks.len() ==> ((#[trigger] m.tasks[i]).scan_key() matches Some(
                    key,
                ) && has_key(hits, key))
        }),
    decreases n,
{
    if n > 0 {
        let k = (n - 1) as nat;
        lemma_meet_some(ts, next, hits, k, branch, actor, now);
        let p = meet_some(ts, next, hits, k, branch, actor, now);
        let m = meet_some(ts, next, hits, n, branch, actor, now);
        let h = hits[k as int];
        lemma_marked(p.tasks, h.key, 0);
        assert(has_key(hits, h.key));
        assert forall|i: int| 0 <= i < ts.len() implies (#[trigger] m.tasks[i]) == (TaskView {
            location: m.tasks[i].location,
            updated: m.tasks[i].updated,
            ..ts[i]
        }) by {
            assert(p.tasks[i] == p.tasks[i]);
        }
        assert forall|i: int| ts.len() <= i < m.tasks.len() implies ((
        #[trigger] m.tasks[i]).scan_key() matches Some(key) && has_key(hits, key)) by {
            if i < p.tasks.len() {
                assert(p.tasks[i].scan_key() is Some);
            }
        }
        assert forall|i: int| 0 <= i < ts.len() && ts[i].scan_key() is None implies (
        #[trigger] m.tasks[i]) == ts[i] by {
            assert(p.tasks[i] == p.tasks[i]);
        }
    }
}

/// A scan leaves a task that no marker stands for exactly as it was.
pub proof fn law_scans_spare_manual_tasks(
    d: DataView,
    hits: Seq<HitView>,
    branch: Option<Seq<char>>,
    actor: Option<Seq<char>>,
    now: Moment,
    i: int,
)
    requires
        0 <= i < d.tasks.len(),
        d.tasks[i].scan_key() is None,
    ensures
        reconciled(d, hits, branch, actor, now).tasks[i] == d.tasks[i],
{
    let m = meet_some(d.tasks, d.next_id as nat, hits, hits.len(), branch, actor, now);
    lemma_meet_some(d.tasks, d.next_id as nat, hits, hits.len(), branch, actor, now);
    lemma_sweep(m.tasks, m.tasks.len(), hits, branch, actor, now);
    assert(m.tasks[i] == d.tasks[i]);
}

/// A scan closes a task exactly where it is open, was harvested on this very
/// branch, and its marker is gone; the state of every other task stays.
pub proof fn law_scans_close_only_this_branch(
    d: DataView,
    hits: Seq<HitView>,
    branch: Option<Seq<char>>,
    actor: Option<Seq<char>>,
    now: Moment,
    i: int,
)
    requires
        0 <= i < d.tasks.len(),
    ensures
        reconciled(d, hits, branch, actor, now).tasks[i].state == (if is_stale(
            d.tasks[i],
            hits,
            branch,
        ) {
            State::Done
        } else {
            d.tasks[i].state
        }),
        d.tasks[i].branch != branch ==> reconciled(d, hits, branch, actor, now).tasks[i].state
            == d.tasks[i].state,
{
    let m = meet_some(d.tasks, d.next_id as nat, hits, hits.len(), branch, actor, now);
    lemma_meet_some(d.tasks, d.next_id as nat, hits, hits.len(), branch, actor, now);
    lemma_sweep(m.tasks, m.tasks.len(), hits, branch, actor, now);
    assert(m.tasks[i].scan_key() == d.tasks[i].scan_key());
}

/// A marker that moves takes its task along: the same task, at the new place.
pub proof fn law_moved_markers_keep_their_task(
    d: DataView,
    hits: Seq<HitView>,
    branch: Option<Seq<char>>,
    actor: Option<Seq<char>>,
    now: Moment,
    k: int,
    i: int,
)
    requires
        0 <= k < hits.len(),
        forall|x: int, y: int|
            0 <= x < y < hits.len() ==> (#[trigger] hits[x]).key != (#[trigger] hits[y]).key,
        marked_from(d.tasks, hits[k].key, 0) == Some(i),
    ensures
        ({
            let t = reconciled(d, hits, branch, actor, now).tasks[i];
            &&& t.id == d.tasks[i].id
            &&& t.title == d.tasks[i].title
            &&& t.state == d.tasks[i].state
            &&& t.location == Some(place(hits[k]))
        }),
{
    let next = d.next_id as nat;
    let m = meet_some(d.tasks, next, hits, hits.len(), branch, actor, now);
    lemma_meet_some(d.tasks, next, hits, hits.len(), branch, actor, now);
    lemma_sweep(m.tasks, m.tasks.len(), hits, branch, actor, now);
    lemma_marked(d.tasks, hits[k].key, 0);
    lemma_all_placed(d.tasks, next, hits, hits.len(), branch, actor, now);
    assert forall|j: int| 0 <= j < d.tasks.len() implies (#[trigger] m.tasks[j]).origin
        == d.tasks[j].origin by {}
    lemma_marked_same(d.tasks, m.tasks, hits[k].key);
    assert(placed(m.tasks, hits[k]));
    assert(has_key(hits, hits[k].key));
}

/// Whether a marker has a task, and where it should be.
pub open spec fn placed(ts: Seq<TaskView>, h: HitView) -> bool {
    marked_from(ts, h.key, 0) matches Some(i) && ts[i].location == Some(place(h))
}

proof fn lemma_all_placed(
    ts: Seq<TaskView>,
    next: nat,
    hits: Seq<HitView>,
    n: nat,
    branch: Option<Seq<char>>,
    actor: Option<Seq<char>>,
    now: Moment,
)
    requires
        n <= hits.len(),
        forall|x: int, y: int|
            0 <= x < y < hits.len() ==> (#[trigger] hits[x]).key != (#[trigger] hits[y]).key,
    ensures
        forall|k: int|
            0 <= k < n ==> placed(
                meet_some(ts, next, hits, n, branch, actor, now).tasks,
                #[trigger] hits[k],
            ),
    decreases n,
{
    if n > 0 {
        let j = (n - 1) as nat;
        lemma_all_placed(ts, next, hits, j, branch, actor, now);
        let p = meet_some(ts, next, hits, j, branch, actor, now);
        let m = meet_some(ts, next, hits, n, branch, actor, now);
        let h = hits[j as int];
        lemma_marked(p.tasks, h.key, 0);
        assert forall|i: int| 0 <= i < p.tasks.len() implies (#[trigger] m.tasks[i]).origin
            == p.tasks[i].origin by {}
        assert forall|k: int| 0 <= k < n implies placed(m.tasks, #[trigger] hits[k]) by {
            if k < j {
                assert(placed(p.tasks, hits[k]));
                assert(hits[k].key != hits[j as int].key);
                lemma_marked(p.tasks, hits[k].key, 0);
                lemma_marked_same(p.tasks, m.tasks, hits[k].key);
            } else {
                if marked_from(p.tasks, h.key, 0) is Some {
                    lemma_marked_same(p.tasks, m.tasks, h.key);
                } else {
                    lemma_marked(m.tasks, h.key, 0);
                    let e = p.tasks.len() as int;
                    assert(m.tasks[e].scan_key() == Some(h.key));
                    let f = marked_from(m.tasks, h.key, 0)->0;
                    if f < e {
                        assert(m.tasks[f] == p.tasks[f]);
                    }
                }
            }
        }
    }
}

/// A scan that finds the same markers again changes nothing: markers and tasks
/// already agree.
pub proof fn law_rescanning_changes_nothing(
    d: DataView,
    hits: Seq<HitView>,
    branch: Option<Seq<char>>,
    actor: Option<Seq<char>>,
    now: Moment,
    later: Moment,
)
    requires
        forall|x: int, y: int|
            0 <= x < y < hits.len() ==> (#[trigger] hits[x]).key != (#[trigger] hits[y]).key,
        reconciled(d, hits, branch, actor, now).next <= u32::MAX,
    ensures
        ({
            let s = reconciled(d, hits, branch, actor, now);
            let e = DataView { tasks: s.tasks, next_id: s.next as u32, ..d };
            reconciled(e, hits, branch, actor, later) == (ScannedView {
                tasks: s.tasks,
                next: s.next,
                added: Seq::empty(),
                closed: Seq::empty(),
                moved: Seq::empty(),
                records: Seq::empty(),
            })
        }),
{
    let next = d.next_id as nat;
    let m = meet_some(d.tasks, next, hits, hits.len(), branch, actor, now);
    let s = reconciled(d, hits, branch, actor, now);
    lemma_all_placed(d.tasks, next, hits, hits.len(), branch, actor, now);
    lemma_sweep(m.tasks, m.tasks.len(), hits, branch, actor, now);
    assert forall|k: int| 0 <= k < hits.len() implies placed(s.tasks, #[trigger] hits[k]) by {
        assert(placed(m.tasks, hits[k]));
        lemma_marked(m.tasks, hits[k].key, 0);
        assert forall|i: int| 0 <= i < m.tasks.len() implies (#[trigger] s.tasks[i]).origin
            == m.tasks[i].origin by {}
        lemma_marked_same(m.tasks, s.tasks, hits[k].key);
    }
    lemma_met_already(s.tasks, s.next, hits, hits.len(), branch, actor, later);
    assert forall|i: int| 0 <= i < s.tasks.len() implies !is_stale(
        #[trigger] s.tasks[i],
        hits,
        branch,
    ) by {}
    lemma_swept_already(s.tasks, s.tasks.len(), hits, branch, actor, later);
    assert(Seq::<Record>::empty() + Seq::<Record>::empty() =~= Seq::<Record>::empty());
}

proof fn lemma_met_already(
    ts: Seq<TaskView>,
    next: nat,
    hits: Seq<HitView>,
    n: nat,
    branch: Option<Seq<char>>,
    actor: Option<Seq<char>>,
    now: Moment,
)
    requires
        n <= hits.len(),
        forall|k: int| 0 <= k < hits.len() ==> placed(ts, #[trigger] hits[k]),
    ensures
        meet_some(ts, next, hits, n, branch, actor, now) == meeting_start(ts, next),
    decreases n,
{
    if n > 0 {
        lemma_met_already(ts, next, hits, (n - 1) as nat, branch, actor, now);
        assert(placed(ts, hits[n - 1]));
    }
}

proof fn lemma_swept_already(
    ts: Seq<TaskView>,
    n: nat,
    hits: Seq<HitView>,
    branch: Option<Seq<char>>,
    actor: Option<Seq<char>>,
    now: Moment,
)
    requires
        n <= ts.len(),
        forall|i: int| 0 <= i < ts.len() ==> !is_stale(#[trigger] ts[i], hits, branch),
    ensures
        sweep_some(ts, n, hits, branch, actor, now) == (Change {
            tasks: ts,
            touched: Seq::empty(),
            records: Seq::empty(),
        }),
    decreases n,
{
    if n > 0 {
        lemma_swept_already(ts, (n - 1) as nat, hits, branch, actor, now);
        assert(!is_stale(ts[n - 1], hits, branch));
    }
}

/// The markers that count are those found that count.
proof fn lemma_counted_hits(found: Seq<HitView>, ignores: Seq<Seq<char>>)
    ensures
        forall|h: HitView| #[trigger]
            counted_hits(found, ignores).contains(h) <==> found.contains(h) && counts(h, ignores),
    decreases found.len(),
{
    reveal(Seq::filter);
    if found.len() > 0 {
        let r = found.drop_last();
        let last = found.last();
        let before = counted_hits(r, ignores);
        let kept = counted_hits(found, ignores);
        lemma_counted_hits(r, ignores);
        assert forall|h: HitView| #[trigger]
            kept.contains(h) <==> found.contains(h) && counts(h, ignores) by {
            assert(found.contains(h) <==> r.contains(h) || h == last) by {
                if r.contains(h) {
                    let k = choose|k: int| 0 <= k < r.len() && r[k] == h;
                    assert(found[k] == h);
                }
                assert(found[found.len() - 1] == last);
                if found.contains(h) && h != last {
                    let k = choose|k: int| 0 <= k < found.len() && found[k] == h;
                    assert(r[k] == h);
                }
            }
            if counts(last, ignores) {
                assert(kept == before.push(last));
                if before.contains(h) {
                    let k = choose|k: int| 0 <= k < before.len() && before[k] == h;
                    assert(kept[k] == h);
                }
                assert(kept[kept.len() - 1] == last);
                if kept.contains(h) && h != last {
                    let k = choose|k: int| 0 <= k < kept.len() && kept[k] == h;
                    assert(before[k] == h);
                }
            } else {
                assert(kept == before);
            }
        }
    }
}

/// However often a marker occurs in the source, a scan meets it once.
pub proof fn law_each_marker_is_met_once(found: Seq<HitView>, ignores: Seq<Seq<char>>)
    ensures
        ({
            let hits = settled(counted_hits(found, ignores));
            forall|x: int, y: int|
                0 <= x < y < hits.len() ==> (#[trigger] hits[x]).key != (#[trigger] hits[y]).key
        }),
{
    law_settling_keeps_every_identity_once(counted_hits(found, ignores));
}

/// A scan meets a marker exactly where a file that counts holds it, whatever the
/// ignored files hold, and it meets it in such a file.
pub proof fn law_ignored_files_hide_nothing(found: Seq<HitView>, ignores: Seq<Seq<char>>)
    ensures
        ({
            let hits = settled(counted_hits(found, ignores));
            &&& forall|key: Seq<char>| #[trigger]
                has_key(hits, key) <==> exists|i: int|
                    0 <= i < found.len() && counts(#[trigger] found[i], ignores) && found[i].key
                        == key
            &&& forall|x: int|
                0 <= x < hits.len() ==> found.contains(#[trigger] hits[x]) && counts(
                    hits[x],
                    ignores,
                )
        }),
{
    let kept = counted_hits(found, ignores);
    let hits = settled(kept);
    law_settling_keeps_every_identity_once(kept);
    lemma_settled_are_found(kept);
    lemma_counted_hits(found, ignores);
    assert forall|key: Seq<char>| #[trigger]
        has_key(hits, key) <==> exists|i: int|
            0 <= i < found.len() && counts(#[trigger] found[i], ignores) && found[i].key == key by {
        if has_key(kept, key) {
            let k = choose|k: int| 0 <= k < kept.len() && (#[trigger] kept[k]).key == key;
            assert(kept.contains(kept[k]));
            let i = choose|i: int| 0 <= i < found.len() && found[i] == kept[k];
            assert(counts(found[i], ignores) && found[i].key == key);
        }
        if exists|i: int|
            0 <= i < found.len() && counts(#[trigger] found[i], ignores) && found[i].key == key {
            let i = choose|i: int|
                0 <= i < found.len() && counts(#[trigger] found[i], ignores) && found[i].key == key;
            assert(found.contains(found[i]));
            assert(kept.contains(found[i]));
            let k = choose|k: int| 0 <= k < kept.len() && kept[k] == found[i];
            assert(kept[k].key == key);
        }
    }
    assert forall|x: int| 0 <= x < hits.len() implies found.contains(#[trigger] hits[x]) && counts(
        hits[x],
        ignores,
    ) by {
        assert(kept.contains(hits[x]));
    }
}

/// What meeting markers adds stands by itself, with an id that was not used.
proof fn lemma_met_newcomers(
    ts: Seq<TaskView>,
    next: nat,
    hits: Seq<HitView>,
    n: nat,
    branch: Option<Seq<char>>,
    actor: Option<Seq<char>>,
    now: Moment,
)
    requires
        n <= hits.len(),
        meet_some(ts, next, hits, n, branch, actor, now).next <= u32::MAX,
    ensures
        ({
            let m = meet_some(ts, next, hits, n, branch, actor, now);
            &&& m.tasks.len() - ts.len() == m.next - next
            &&& forall|i: int|
                ts.len() <= i < m.tasks.len() ==> (#[trigger] m.tasks[i]).parent is None
                    && m.tasks[i].id >= next
        }),
    decreases n,
{
    if n > 0 {
        let k = (n - 1) as nat;
        let p = meet_some(ts, next, hits, k, branch, actor, now);
        let m = meet_some(ts, next, hits, n, branch, actor, now);
        lemma_ids_used(ts, next, hits, k, n, branch, actor, now);
        lemma_met_newcomers(ts, next, hits, k, branch, actor, now);
        lemma_meet_some(ts, next, hits, k, branch, actor, now);
        lemma_marked(p.tasks, hits[k as int].key, 0);
        assert forall|i: int| ts.len() <= i < m.tasks.len() implies (
        #[trigger] m.tasks[i]).parent is None && m.tasks[i].id >= next by {
            if i < p.tasks.len() {
                assert(p.tasks[i].parent is None && p.tasks[i].id >= next);
            }
        }
    }
}

/// Scanning splits no tree.
pub proof fn law_scanning_keeps_branches_together(
    d: DataView,
    hits: Seq<HitView>,
    branch: Option<Seq<char>>,
    actor: Option<Seq<char>>,
    now: Moment,
)
    requires
        data_ok(d),
        coherent(d.tasks),
        reconciled(d, hits, branch, actor, now).next <= u32::MAX,
    ensures
        coherent(reconciled(d, hits, branch, actor, now).tasks),
{
    let ts = d.tasks;
    let next = d.next_id as nat;
    let m = meet_some(ts, next, hits, hits.len(), branch, actor, now);
    lemma_meet_some(ts, next, hits, hits.len(), branch, actor, now);
    lemma_met_newcomers(ts, next, hits, hits.len(), branch, actor, now);
    let b = m.tasks;
    assert forall|i: int, j: int|
        0 <= i < b.len() && 0 <= j < b.len() && (#[trigger] b[i]).parent == Some(
            (#[trigger] b[j]).id,
        ) implies b[i].branch == b[j].branch by {
        if i < ts.len() {
            assert(ts[i].parent == Some(b[j].id));
            if j >= ts.len() {
                assert(has_id(ts, b[j].id));
                let k = choose|k: int| 0 <= k < ts.len() && (#[trigger] ts[k]).id == b[j].id;
                assert(ts[k].id < d.next_id || d.next_id == u32::MAX);
            } else {
                assert(ts[i].parent == Some(ts[j].id));
            }
        } else {
            assert(b[i].parent is None);
        }
    }
    lemma_sweep(b, b.len(), hits, branch, actor, now);
    law_changes_in_place_keep_branches_together(
        b,
        reconciled(d, hits, branch, actor, now).tasks,
    );
}

/// A task that no marker stands for is passed over while markers are met.
proof fn lemma_unmet_stays(
    ts: Seq<TaskView>,
    next: nat,
    hits: Seq<HitView>,
    n: nat,
    branch: Option<Seq<char>>,
    actor: Option<Seq<char>>,
    now: Moment,
    i: int,
)
    requires
        n <= hits.len(),
        0 <= i < ts.len(),
        forall|k: int| 0 <= k < n ==> ts[i].scan_key() != Some((#[trigger] hits[k]).key),
    ensures
        meet_some(ts, next, hits, n, branch, actor, now).tasks.len() >= ts.len(),
        meet_some(ts, next, hits, n, branch, actor, now).tasks[i] == ts[i],
    decreases n,
{
    if n > 0 {
        let k = (n - 1) as nat;
        lemma_unmet_stays(ts, next, hits, k, branch, actor, now, i);
        let p = meet_some(ts, next, hits, k, branch, actor, now);
        lemma_marked(p.tasks, hits[k as int].key, 0);
        assert(ts[i].scan_key() != Some(hits[k as int].key));
    }
}

/// What a sweep reports: each task that it closes, and an entry that says so.
proof fn lemma_sweep_reports(
    ts: Seq<TaskView>,
    n: nat,
    hits: Seq<HitView>,
    branch: Option<Seq<char>>,
    actor: Option<Seq<char>>,
    now: Moment,
)
    requires
        n <= ts.len(),
    ensures
        ({
            let c = sweep_some(ts, n, hits, branch, actor, now);
            &&& c.records.len() == c.touched.len()
            &&& forall|i: int|
                0 <= i < n && is_stale(#[trigger] ts[i], hits, branch) ==> c.touched.contains(
                    faded(ts[i], now),
                )
            &&& forall|k: int|
                0 <= k < c.touched.len() ==> #[trigger] sweeps_up(ts, n, hits, branch, c, now, k)
            &&& forall|k: int|
                0 <= k < c.touched.len() ==> (#[trigger] c.records[k]) == (Record {
                    actor,
                    action: "scan"@,
                    id: Some(c.touched[k].id),
                    detail: Some("closed (marker gone) "@ + c.touched[k].title),
                    branch: c.touched[k].branch,
                })
        }),
    decreases n,
{
    if n > 0 {
        let m = (n - 1) as nat;
        lemma_sweep_reports(ts, m, hits, branch, actor, now);
        let p = sweep_some(ts, m, hits, branch, actor, now);
        let c = sweep_some(ts, n, hits, branch, actor, now);
        if is_stale(ts[m as int], hits, branch) {
            let last = p.touched.len() as int;
            assert(c.touched[last] == faded(ts[m as int], now));
        }
        assert forall|i: int| 0 <= i < n && is_stale(
            #[trigger] ts[i],
            hits,
            branch,
        ) implies c.touched.contains(faded(ts[i], now)) by {
            if i < m {
                let k = choose|k: int| 0 <= k < p.touched.len() && p.touched[k] == faded(ts[i], now);
                assert(c.touched[k] == p.touched[k]);
            }
        }
        assert forall|k: int| 0 <= k < c.touched.len() implies #[trigger] sweeps_up(
            ts,
            n,
            hits,
            branch,
            c,
            now,
            k,
        ) by {
            if k < p.touched.len() {
                assert(sweeps_up(ts, m, hits, branch, p, now, k));
                let i = choose|i: int|
                    0 <= i < m && is_stale(#[trigger] ts[i], hits, branch) && p.touched[k] == faded(
                        ts[i],
                        now,
                    );
                assert(is_stale(ts[i], hits, branch));
                assert(c.touched[k] == p.touched[k]);
            } else {
                assert(is_stale(ts[m as int], hits, branch));
            }
        }
        assert forall|k: int| 0 <= k < c.touched.len() implies (#[trigger] c.records[k]) == (Record {
            actor,
            action: "scan"@,
            id: Some(c.touched[k].id),
            detail: Some("closed (marker gone) "@ + c.touched[k].title),
            branch: c.touched[k].branch,
        }) by {
            if k < p.touched.len() {
                assert(c.records[k] == p.records[k]);
                assert(c.touched[k] == p.touched[k]);
            }
        }
    }
}

spec fn sweeps_up(
    ts: Seq<TaskView>,
    n: nat,
    hits: Seq<HitView>,
    branch: Option<Seq<char>>,
    c: Change,
    now: Moment,
    k: int,
) -> bool {
    exists|i: int|
        0 <= i < n && is_stale(#[trigger] ts[i], hits, branch) && c.touched[k] == faded(ts[i], now)
}

/// A task whose marker is gone is done after the scan, whether it was yet to do
/// or in progress, if it was harvested on the branch that was scanned. It is
/// reported as closed, and an entry says so.
pub proof fn law_vanished_markers_close_their_task(
    d: DataView,
    hits: Seq<HitView>,
    branch: Option<Seq<char>>,
    actor: Option<Seq<char>>,
    now: Moment,
    i: int,
    key: Seq<char>,
)
    requires
        0 <= i < d.tasks.len(),
        d.tasks[i].origin == (OriginView::Scan { key }),
        d.tasks[i].branch == branch,
        d.tasks[i].state == State::Todo || d.tasks[i].state == State::Doing,
        forall|k: int| 0 <= k < hits.len() ==> (#[trigger] hits[k]).key != key,
    ensures
        ({
            let s = reconciled(d, hits, branch, actor, now);
            let t = TaskView { state: State::Done, updated: now, ..d.tasks[i] };
            &&& s.tasks.len() >= d.tasks.len()
            &&& s.tasks[i] == t
            &&& s.closed.contains(t)
            &&& s.records.contains(
                Record {
                    actor,
                    action: "scan"@,
                    id: Some(t.id),
                    detail: Some("closed (marker gone) "@ + t.title),
                    branch,
                },
            )
        }),
{
    let next = d.next_id as nat;
    let m = meet_some(d.tasks, next, hits, hits.len(), branch, actor, now);
    let c = sweep_some(m.tasks, m.tasks.len(), hits, branch, actor, now);
    lemma_unmet_stays(d.tasks, next, hits, hits.len(), branch, actor, now, i);
    lemma_sweep(m.tasks, m.tasks.len(), hits, branch, actor, now);
    lemma_sweep_reports(m.tasks, m.tasks.len(), hits, branch, actor, now);
    assert(!has_key(hits, key));
    assert(m.tasks[i] == d.tasks[i]);
    assert(is_stale(m.tasks[i], hits, branch));
    let t = TaskView { state: State::Done, updated: now, ..d.tasks[i] };
    assert(c.tasks[i] == t);
    assert(faded(m.tasks[i], now) == t);
    let k = choose|k: int| 0 <= k < c.touched.len() && c.touched[k] == t;
    assert((m.records + c.records)[m.records.len() + k] == c.records[k]);
}

/// A scan closes nothing else: a task that is done stays as it is, and so does
/// the state of one from another branch, of one whose marker is there, and of
/// one that was filed by hand.
pub proof fn law_scans_close_nothing_else(
    d: DataView,
    hits: Seq<HitView>,
    branch: Option<Seq<char>>,
    actor: Option<Seq<char>>,
    now: Moment,
    i: int,
)
    requires
        0 <= i < d.tasks.len(),
        ({
            ||| d.tasks[i].state == State::Done
            ||| d.tasks[i].branch != branch
            ||| d.tasks[i].origin == OriginView::Manual
            ||| exists|k: int|
                0 <= k < hits.len() && d.tasks[i].origin == (OriginView::Scan {
                    key: (#[trigger] hits[k]).key,
                })
        }),
    ensures
        reconciled(d, hits, branch, actor, now).tasks[i].state == d.tasks[i].state,
{
    let next = d.next_id as nat;
    let m = meet_some(d.tasks, next, hits, hits.len(), branch, actor, now);
    lemma_meet_some(d.tasks, next, hits, hits.len(), branch, actor, now);
    lemma_sweep(m.tasks, m.tasks.len(), hits, branch, actor, now);
    assert(m.tasks[i].origin == d.tasks[i].origin);
}

/// Every task that a scan reports as closed was harvested on the branch that was
/// scanned, and no marker has its key.
pub proof fn law_what_a_scan_reports_closed(
    d: DataView,
    hits: Seq<HitView>,
    branch: Option<Seq<char>>,
    actor: Option<Seq<char>>,
    now: Moment,
    k: int,
)
    requires
        0 <= k < reconciled(d, hits, branch, actor, now).closed.len(),
    ensures
        ({
            let t = reconciled(d, hits, branch, actor, now).closed[k];
            &&& t.state == State::Done
            &&& t.updated == now
            &&& t.branch == branch
            &&& t.origin matches OriginView::Scan { key } && forall|j: int|
                0 <= j < hits.len() ==> (#[trigger] hits[j]).key != key
        }),
{
    let m = meet_some(d.tasks, d.next_id as nat, hits, hits.len(), branch, actor, now);
    let c = sweep_some(m.tasks, m.tasks.len(), hits, branch, actor, now);
    lemma_sweep_reports(m.tasks, m.tasks.len(), hits, branch, actor, now);
    assert(sweeps_up(m.tasks, m.tasks.len(), hits, branch, c, now, k));
    let i = choose|i: int|
        0 <= i < m.tasks.len() && is_stale(#[trigger] m.tasks[i], hits, branch) && c.touched[k]
            == faded(m.tasks[i], now);
    let t = c.touched[k];
    assert forall|j: int| 0 <= j < hits.len() implies t.scan_key() != Some((#[trigger] hits[j]).key) by {
        if t.scan_key() == Some(hits[j].key) {
            assert(has_key(hits, hits[j].key));
        }
    }
}

/// A marker that stands for no task yet becomes one: yet to do, at the place of
/// the marker, on the branch that was scanned, and with an id of its own.
pub proof fn law_new_markers_become_tasks(
    d: DataView,
    hits: Seq<HitView>,
    branch: Option<Seq<char>>,
    actor: Option<Seq<char>>,
    now: Moment,
    k: int,
)
    requires
        data_ok(d),
        0 <= k < hits.len(),
        reconciled(d, hits, branch, actor, now).next <= u32::MAX,
        forall|x: int, y: int|
            0 <= x < y < hits.len() ==> (#[trigger] hits[x]).key != (#[trigger] hits[y]).key,
        forall|i: int|
            0 <= i < d.tasks.len() ==> (#[trigger] d.tasks[i]).origin != (OriginView::Scan {
                key: hits[k].key,
            }),
    ensures
        ({
            let s = reconciled(d, hits, branch, actor, now);
            exists|i: int|
                {
                    let t = #[trigger] s.tasks[i];
                    &&& d.tasks.len() <= i < s.tasks.len()
                    &&& t == (TaskView {
                        id: t.id,
                        title: hits[k].title,
                        note: None,
                        state: State::Todo,
                        parent: None,
                        branch,
                        location: Some(
                            LocationView {
                                file: swapped(hits[k].file, '\\', '/'),
                                line: Some(hits[k].line),
                            },
                        ),
                        actor: Some("scan"@),
                        origin: OriginView::Scan { key: hits[k].key },
                        closed_by: None,
                        created: now,
                        updated: now,
                    })
                    &&& t.id >= d.next_id
                    &&& s.added.contains(t)
                    &&& s.records.contains(
                        Record {
                            actor,
                            action: "scan"@,
                            id: Some(t.id),
                            detail: Some("+ "@ + hits[k].title),
                            branch,
                        },
                    )
                }
        }),
{
    let next = d.next_id as nat;
    let m = meet_some(d.tasks, next, hits, hits.len(), branch, actor, now);
    let c = sweep_some(m.tasks, m.tasks.len(), hits, branch, actor, now);
    assert forall|i: int| 0 <= i < d.tasks.len() implies (#[trigger] d.tasks[i]).scan_key() != Some(
        hits[k].key,
    ) by {}
    lemma_marked(d.tasks, hits[k].key, 0);
    let i = lemma_becomes_task(d.tasks, next, hits, hits.len(), branch, actor, now, k);
    lemma_sweep(m.tasks, m.tasks.len(), hits, branch, actor, now);
    assert(has_key(hits, hits[k].key));
    let t = m.tasks[i];
    assert(t.scan_key() == Some(hits[k].key));
    assert(c.tasks[i] == t);
    let r = record_of("scan"@, actor, t.id, Some("+ "@ + t.title), branch);
    let j = choose|j: int| 0 <= j < m.records.len() && m.records[j] == r;
    assert((m.records + c.records)[j] == r);
    assert(reconciled(d, hits, branch, actor, now).tasks[i] == t);
}

proof fn lemma_becomes_task(
    ts: Seq<TaskView>,
    next: nat,
    hits: Seq<HitView>,
    n: nat,
    branch: Option<Seq<char>>,
    actor: Option<Seq<char>>,
    now: Moment,
    k: int,
) -> (i: int)
    requires
        0 <= k < n <= hits.len(),
        meet_some(ts, next, hits, n, branch, actor, now).next <= u32::MAX,
        forall|x: int, y: int|
            0 <= x < y < hits.len() ==> (#[trigger] hits[x]).key != (#[trigger] hits[y]).key,
        marked_from(ts, hits[k].key, 0) is None,
    ensures
        ({
            let m = meet_some(ts, next, hits, n, branch, actor, now);
            let t = m.tasks[i];
            &&& ts.len() <= i < m.tasks.len()
            &&& t == scanned_task(hits[k], t.id, branch, now)
            &&& t.id >= next
            &&& m.added.contains(t)
            &&& m.records.contains(
                record_of("scan"@, actor, t.id, Some("+ "@ + t.title), branch),
            )
        }),
    decreases n,
{
    let m = meet_some(ts, next, hits, n, branch, actor, now);
    let b = (n - 1) as nat;
    let p = meet_some(ts, next, hits, b, branch, actor, now);
    let h = hits[b as int];
    lemma_ids_used(ts, next, hits, b, n, branch, actor, now);
    lemma_meet_some(ts, next, hits, b, branch, actor, now);
    lemma_marked(p.tasks, h.key, 0);
    if k == b {
        lemma_unmet(ts, next, hits, b, branch, actor, now);
        assert(!has_key(hits.take(b as int), h.key)) by {
            if has_key(hits.take(b as int), h.key) {
                let x = choose|x: int|
                    0 <= x < b && (#[trigger] hits.take(b as int)[x]).key == h.key;
                assert(hits[x].key == hits[b as int].key);
            }
        }
        assert(marked_from(p.tasks, h.key, 0) is None);
        let i = p.tasks.len() as int;
        let t = m.tasks[i];
        assert(m.added[p.added.len() as int] == t);
        let r = record_of("scan"@, actor, t.id, Some("+ "@ + t.title), branch);
        assert(m.records[p.records.len() as int] == r);
        i
    } else {
        let i = lemma_becomes_task(ts, next, hits, b, branch, actor, now, k);
        let t = p.tasks[i];
        assert(hits[k].key != h.key);
        assert(t.scan_key() == Some(hits[k].key));
        assert(m.tasks[i] == t);
        let r = record_of("scan"@, actor, t.id, Some("+ "@ + t.title), branch);
        let x = choose|x: int| 0 <= x < p.added.len() && p.added[x] == t;
        assert(m.added[x] == t);
        let y = choose|y: int| 0 <= y < p.records.len() && p.records[y] == r;
        assert(m.records[y] == r);
        i
    }
}

/// A marker that is where its task says leaves the task as it is; one that is
/// elsewhere gives it its place and the time, and it is reported as moved. All
/// else of the task stays, the title among it, and so does its state.
pub proof fn law_tasks_follow_their_marker(
    d: DataView,
    hits: Seq<HitView>,
    branch: Option<Seq<char>>,
    actor: Option<Seq<char>>,
    now: Moment,
    k: int,
    i: int,
)
    requires
        0 <= k < hits.len(),
        forall|x: int, y: int|
            0 <= x < y < hits.len() ==> (#[trigger] hits[x]).key != (#[trigger] hits[y]).key,
        0 <= i < d.tasks.len(),
        d.tasks[i].origin == (OriginView::Scan { key: hits[k].key }),
        forall|j: int|
            0 <= j < i ==> (#[trigger] d.tasks[j]).origin != (OriginView::Scan { key: hits[k].key }),
    ensures
        ({
            let s = reconciled(d, hits, branch, actor, now);
            let at = Some(
                LocationView { file: swapped(hits[k].file, '\\', '/'), line: Some(hits[k].line) },
            );
            let t = TaskView { location: at, updated: now, ..d.tasks[i] };
            &&& d.tasks[i].location == at ==> s.tasks[i] == d.tasks[i]
            &&& d.tasks[i].location != at ==> s.tasks[i] == t && s.moved.contains(t)
        }),
{
    let next = d.next_id as nat;
    let m = meet_some(d.tasks, next, hits, hits.len(), branch, actor, now);
    assert forall|j: int| 0 <= j < i implies (#[trigger] d.tasks[j]).scan_key() != Some(
        hits[k].key,
    ) by {}
    lemma_marked(d.tasks, hits[k].key, 0);
    assert(marked_from(d.tasks, hits[k].key, 0) == Some(i));
    lemma_follows(d.tasks, next, hits, hits.len(), branch, actor, now, k, i);
    lemma_meet_some(d.tasks, next, hits, hits.len(), branch, actor, now);
    lemma_sweep(m.tasks, m.tasks.len(), hits, branch, actor, now);
    assert(has_key(hits, hits[k].key));
}

proof fn lemma_follows(
    ts: Seq<TaskView>,
    next: nat,
    hits: Seq<HitView>,
    n: nat,
    branch: Option<Seq<char>>,
    actor: Option<Seq<char>>,
    now: Moment,
    k: int,
    i: int,
)
    requires
        n <= hits.len(),
        0 <= k < hits.len(),
        forall|x: int, y: int|
            0 <= x < y < hits.len() ==> (#[trigger] hits[x]).key != (#[trigger] hits[y]).key,
        marked_from(ts, hits[k].key, 0) == Some(i),
    ensures
        ({
            let m = meet_some(ts, next, hits, n, branch, actor, now);
            let t = relocated(ts[i], hits[k], now);
            &&& 0 <= i < ts.len() <= m.tasks.len()
            &&& n <= k || ts[i].location == Some(place(hits[k])) ==> m.tasks[i] == ts[i]
            &&& n > k && ts[i].location != Some(place(hits[k])) ==> m.tasks[i] == t
                && m.moved.contains(t)
        }),
    decreases n,
{
    lemma_marked(ts, hits[k].key, 0);
    if n > 0 {
        let b = (n - 1) as nat;
        let p = meet_some(ts, next, hits, b, branch, actor, now);
        let m = meet_some(ts, next, hits, n, branch, actor, now);
        let h = hits[b as int];
        lemma_follows(ts, next, hits, b, branch, actor, now, k, i);
        lemma_meet_some(ts, next, hits, b, branch, actor, now);
        lemma_marked(p.tasks, h.key, 0);
        assert forall|j: int| 0 <= j < ts.len() implies (#[trigger] p.tasks[j]).origin
            == ts[j].origin by {}
        lemma_marked_same(ts, p.tasks, hits[k].key);
        if b == k {
            if ts[i].location != Some(place(h)) {
                assert(m.moved[p.moved.len() as int] == relocated(ts[i], h, now));
            }
        } else {
            if k < b {
                assert(hits[k].key != hits[b as int].key);
            } else {
                assert(hits[b as int].key != hits[k].key);
            }
            assert(p.tasks[i].scan_key() == Some(hits[k].key));
            assert(m.tasks[i] == p.tasks[i]);
            if n > k && ts[i].location != Some(place(hits[k])) {
                let t = relocated(ts[i], hits[k], now);
                let x = choose|x: int| 0 <= x < p.moved.len() && p.moved[x] == t;
                assert(m.moved[x] == t);
            }
        }
    }
}

/// What a scan counts: every marker but those in the list's own files and in
/// places it was asked to leave out.
pub proof fn law_what_a_scan_counts(h: HitView, ignores: Seq<Seq<char>>)
    ensures
        h.file == ".clt"@ || h.file == ".cltignore"@ ==> !counts(h, ignores),
        h.file.len() >= 5 && h.file.take(5) == ".clt/"@ ==> !counts(h, ignores),
        h.file != ".clt"@ && h.file != ".cltignore"@ && !(h.file.len() >= 5 && h.file.take(5)
            == ".clt/"@) ==> (counts(h, ignores) <==> forall|i: int|
            0 <= i < ignores.len() ==> !pattern_covers(#[trigger] ignores[i], h.file)),
{
    reveal_strlit(".clt/");
    if h.file.len() >= 5 {
        assert(h.file.take(5) =~= h.file.subrange(0, 5));
    }
}

/// A scan that did nothing says that markers and tasks agree; any other has a
/// line for each task that it added, closed or moved, and says where it wrote
/// nothing.
pub proof fn law_what_a_scan_says(
    added: Seq<TaskView>,
    closed: Seq<TaskView>,
    moved: Seq<TaskView>,
    dry: bool,
)
    ensures
        ({
            let lines = scan_lines(added, closed, moved, dry);
            let n = added.len() + closed.len() + moved.len();
            &&& n == 0 ==> lines == seq!["  Markers and tasks already agree."@]
            &&& n > 0 ==> lines.len() == n + (if dry {
                1int
            } else {
                0
            })
            &&& n > 0 && dry ==> lines.last() == "  (dry run — nothing written)"@
            &&& n > 0 ==> forall|i: int|
                0 <= i < added.len() ==> #[trigger] lines[i] == "  + #"@ + decimal(
                    added[i].id as nat,
                ) + "  "@ + added[i].title + "  "@ + (match added[i].location {
                    Some(l) => l.text(),
                    None => ""@,
                })
            &&& forall|i: int|
                0 <= i < closed.len() ==> lines[added.len() + i] == "  ✓ #"@ + decimal(
                    (#[trigger] closed[i]).id as nat,
                ) + "  "@ + closed[i].title + "  (marker gone)"@
            &&& forall|i: int|
                0 <= i < moved.len() ==> lines[added.len() + closed.len() + i] == "  → #"@
                    + decimal((#[trigger] moved[i]).id as nat) + "  "@ + moved[i].title
                    + "  now at "@ + (match moved[i].location {
                    Some(l) => l.text(),
                    None => ""@,
                })
        }),
{
}

} // verus!
