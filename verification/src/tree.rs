//! The list as it is displayed: depth-first, parents before children,
//! in-progress work first.

use crate::forest::{
    acyclic, ancestor, has_id, is_forest, lemma_ancestor_prefix, lemma_ancestor_steps,
    lemma_chain_fits, lemma_parent_at, parent_of, task_views, under, Parents,
};
use crate::task::{Task, TaskView};
use std::collections::{HashMap, HashSet};
use vstd::prelude::*;

verus! {

broadcast use vstd::std_specs::hash::group_hash_axioms;

/// A task plus where it sits in the rendered tree.
pub struct Row<'a> {
    pub task: &'a Task,
    pub depth: usize,
    /// True when this row is only present to give a matched descendant its
    /// context, and didn't match the filter itself.
    pub context: bool,
}

#[verifier::ext_equal]
pub struct RowView {
    pub task: TaskView,
    pub depth: nat,
    pub context: bool,
}

impl<'a> View for Row<'a> {
    type V = RowView;

    open spec fn view(&self) -> RowView {
        RowView { task: self.task@, depth: self.depth as nat, context: self.context }
    }
}

pub open spec fn row_views(rows: Seq<Row<'_>>) -> Seq<RowView> {
    Seq::new(rows.len(), |i: int| rows[i]@)
}

// ---------------------------------------------------------------------------
// What is shown, and in which order
// ---------------------------------------------------------------------------

/// The ids of the tasks that were asked for.
pub open spec fn is_match(ts: Seq<TaskView>, keep: Seq<bool>, id: u32) -> bool {
    exists|i: int| 0 <= i < ts.len() && keep[i] && (#[trigger] ts[i]).id == id
}

/// Whether `x` is `m` or one of its ancestors.
pub open spec fn at_or_above(ts: Seq<TaskView>, x: u32, m: u32) -> bool {
    x == m || under(ts, m, x)
}

/// What is shown: every match, and the ancestors of every match, so that a
/// matched subtask is never rendered floating with no context.
pub open spec fn is_shown(ts: Seq<TaskView>, keep: Seq<bool>, id: u32) -> bool {
    exists|i: int|
        0 <= i < ts.len() && keep[i] && at_or_above(ts, id, (#[trigger] ts[i]).id)
}

/// The order of siblings: by state, work in progress first and finished work
/// last, then by id.
pub open spec fn sorts_by(a: TaskView, b: TaskView) -> bool {
    a.state.rank_of() < b.state.rank_of() || (a.state.rank_of() == b.state.rank_of() && a.id
        <= b.id)
}

/// Positions in the order of their tasks, with one more put where it belongs.
pub open spec fn placed(ts: Seq<TaskView>, s: Seq<int>, i: int) -> Seq<int>
    decreases s.len(),
{
    if s.len() == 0 || sorts_by(ts[s.last()], ts[i]) {
        s.push(i)
    } else {
        placed(ts, s.drop_last(), i).push(s.last())
    }
}

/// Of the first `n` tasks, those shown with parent `p`, in order.
pub open spec fn siblings(
    ts: Seq<TaskView>,
    keep: Seq<bool>,
    p: Option<u32>,
    n: nat,
) -> Seq<int>
    decreases n,
{
    if n == 0 {
        Seq::empty()
    } else {
        let rest = siblings(ts, keep, p, (n - 1) as nat);
        if is_shown(ts, keep, ts[n - 1].id) && ts[n - 1].parent == p {
            placed(ts, rest, n - 1)
        } else {
            rest
        }
    }
}

pub open spec fn kids(ts: Seq<TaskView>, keep: Seq<bool>, i: int) -> Seq<int> {
    siblings(ts, keep, Some(ts[i].id), ts.len())
}

/// Each of `list` at this depth, followed by everything below it. No more than
/// `fuel` levels are shown; as many as there are tasks are always enough.
pub open spec fn laid_out(
    ts: Seq<TaskView>,
    keep: Seq<bool>,
    list: Seq<int>,
    depth: nat,
    fuel: nat,
) -> Seq<(int, nat)>
    decreases fuel, list.len(),
{
    if fuel == 0 || list.len() == 0 {
        Seq::empty()
    } else {
        seq![(list[0], depth)] + laid_out(
            ts,
            keep,
            kids(ts, keep, list[0]),
            depth + 1,
            (fuel - 1) as nat,
        ) + laid_out(ts, keep, list.drop_first(), depth, fuel)
    }
}

/// Position in the list and depth of each row.
pub open spec fn layout(ts: Seq<TaskView>, keep: Seq<bool>) -> Seq<(int, nat)> {
    laid_out(ts, keep, siblings(ts, keep, None, ts.len()), 0, ts.len())
}

/// The rows of the displayed tree. A row is context when its task was not
/// asked for itself.
pub open spec fn tree_rows(ts: Seq<TaskView>, keep: Seq<bool>) -> Seq<RowView> {
    Seq::new(
        layout(ts, keep).len(),
        |r: int|
            RowView {
                task: ts[layout(ts, keep)[r].0],
                depth: layout(ts, keep)[r].1,
                context: !is_match(ts, keep, ts[layout(ts, keep)[r].0].id),
            },
    )
}

// ---------------------------------------------------------------------------
// Building it
// ---------------------------------------------------------------------------

/// The ids of the matches.
fn match_set(tasks: &Vec<Task>, keep: &Vec<bool>) -> (r: HashSet<u32>)
    requires
        keep@.len() == tasks@.len(),
    ensures
        forall|id: u32| #[trigger] r@.contains(id) <==> is_match(task_views(tasks@), keep@, id),
{
    let ghost ts = task_views(tasks@);
    let mut out: HashSet<u32> = HashSet::new();
    let mut i: usize = 0;
    while i < tasks.len()
        invariant
            i <= tasks@.len() == keep@.len(),
            ts == task_views(tasks@),
            forall|id: u32| #[trigger]
                out@.contains(id) <==> exists|k: int|
                    0 <= k < i && keep@[k] && (#[trigger] ts[k]).id == id,
        decreases tasks@.len() - i,
    {
        let ghost before = out@;
        if keep[i] {
            out.insert(tasks[i].id);
        }
        assert forall|id: u32| #[trigger]
            out@.contains(id) <==> exists|k: int|
                0 <= k < i + 1 && keep@[k] && (#[trigger] ts[k]).id == id by {
            assert(before.contains(id) || !before.contains(id));
            if out@.contains(id) {
                if before.contains(id) {
                    let k = choose|k: int| 0 <= k < i && keep@[k] && (#[trigger] ts[k]).id == id;
                    assert(ts[k].id == id);
                } else {
                    assert(ts[i as int].id == id);
                }
            }
        }
        i += 1;
    }
    out
}

/// Whether a set of ids holds the parent of each of its members.
spec fn holds_parents(ts: Seq<TaskView>, s: Set<u32>) -> bool {
    forall|x: u32| #[trigger]
        s.contains(x) ==> match parent_of(ts, x) {
            Some(p) => s.contains(p),
            None => true,
        }
}

proof fn lemma_holds_ancestors(ts: Seq<TaskView>, s: Set<u32>, x: u32, k: nat)
    requires
        holds_parents(ts, s),
        s.contains(x),
        ancestor(ts, x, k) is Some,
    ensures
        s.contains(ancestor(ts, x, k)->0),
    decreases k,
{
    if k > 0 {
        lemma_ancestor_prefix(ts, x, (k - 1) as nat, k);
        lemma_holds_ancestors(ts, s, x, (k - 1) as nat);
    }
}

/// The ids of what is shown.
fn shown_set(tasks: &Vec<Task>, keep: &Vec<bool>) -> (r: HashSet<u32>)
    requires
        keep@.len() == tasks@.len(),
        is_forest(task_views(tasks@)),
    ensures
        forall|id: u32| #[trigger] r@.contains(id) <==> is_shown(task_views(tasks@), keep@, id),
{
    let ghost ts = task_views(tasks@);
    let parents = Parents::index(tasks);
    let mut out: HashSet<u32> = HashSet::new();
    let mut i: usize = 0;
    while i < tasks.len()
        invariant
            i <= tasks@.len() == keep@.len(),
            ts == task_views(tasks@),
            is_forest(ts),
            parents.of(ts),
            holds_parents(ts, out@),
            forall|id: u32| #[trigger]
                out@.contains(id) <==> exists|k: int|
                    0 <= k < i && keep@[k] && at_or_above(ts, id, (#[trigger] ts[k]).id),
        decreases tasks@.len() - i,
    {
        let ghost before = out@;
        let id: u32 = tasks[i].id;
        if keep[i] {
            mark_upwards(&parents, id, &mut out, Ghost(ts), Ghost(i as int));
        }
        assert forall|x: u32| #[trigger]
            out@.contains(x) <==> exists|k: int|
                0 <= k < i + 1 && keep@[k] && at_or_above(ts, x, (#[trigger] ts[k]).id) by {
            assert(before.contains(x) || !before.contains(x));
            if out@.contains(x) {
                if before.contains(x) {
                    let k = choose|k: int|
                        0 <= k < i && keep@[k] && at_or_above(ts, x, (#[trigger] ts[k]).id);
                    assert(at_or_above(ts, x, ts[k].id));
                } else {
                    assert(at_or_above(ts, x, ts[i as int].id));
                }
            }
        }
        i += 1;
    }
    out
}

/// Adds `id` and its ancestors. Reaching something already marked means the
/// rest of the chain is already accounted for.
fn mark_upwards(
    parents: &Parents,
    id: u32,
    out: &mut HashSet<u32>,
    Ghost(ts): Ghost<Seq<TaskView>>,
    Ghost(at): Ghost<int>,
)
    requires
        is_forest(ts),
        parents.of(ts),
        0 <= at < ts.len(),
        ts[at].id == id,
        holds_parents(ts, old(out)@),
    ensures
        holds_parents(ts, final(out)@),
        forall|x: u32| #[trigger]
            final(out)@.contains(x) <==> old(out)@.contains(x) || at_or_above(ts, x, id),
{
    let ghost before = out@;
    let ghost mut k: nat = 0;
    let mut cur: u32 = id;
    assert(has_id(ts, id));
    loop
        invariant_except_break
            is_forest(ts),
            parents.of(ts),
            has_id(ts, id),
            holds_parents(ts, before),
            ancestor(ts, id, k) == Some(cur),
            forall|x: u32| #[trigger]
                out@.contains(x) <==> before.contains(x) || exists|j: nat|
                    j < k && #[trigger] ancestor(ts, id, j) == Some(x),
        ensures
            holds_parents(ts, out@),
            forall|x: u32| #[trigger]
                out@.contains(x) <==> before.contains(x) || at_or_above(ts, x, id),
        decreases ts.len() - k,
    {
        proof {
            lemma_chain_fits(ts, id, k);
        }
        if out.contains(&cur) {
            proof {
                lemma_marked_above(ts, id, k, before, out@);
            }
            break;
        }
        let ghost prior = out@;
        out.insert(cur);
        proof {
            assert forall|x: u32| #[trigger]
                out@.contains(x) <==> before.contains(x) || exists|j: nat|
                    j < k + 1 && #[trigger] ancestor(ts, id, j) == Some(x) by {
                assert(prior.contains(x) || !prior.contains(x));
                if x == cur {
                    assert(ancestor(ts, id, k) == Some(x));
                }
                if prior.contains(x) && !before.contains(x) {
                    let j = choose|j: nat| j < k && #[trigger] ancestor(ts, id, j) == Some(x);
                    assert(j < k + 1 && ancestor(ts, id, j) == Some(x));
                }
            }
        }
        assert(ancestor(ts, id, k + 1) == parent_of(ts, cur));
        match parents.get(cur, Ghost(ts)) {
            Some(p) => {
                cur = p;
                proof {
                    k = k + 1;
                }
            },
            None => {
                proof {
                    lemma_marked_to_root(ts, id, k, before, out@);
                }
                break;
            },
        }
    }
}

proof fn lemma_marked_above(ts: Seq<TaskView>, id: u32, k: nat, before: Set<u32>, out: Set<u32>)
    requires
        is_forest(ts),
        has_id(ts, id),
        holds_parents(ts, before),
        ancestor(ts, id, k) is Some,
        out.contains(ancestor(ts, id, k)->0),
        forall|x: u32| #[trigger]
            out.contains(x) <==> before.contains(x) || exists|j: nat|
                j < k && #[trigger] ancestor(ts, id, j) == Some(x),
    ensures
        holds_parents(ts, out),
        forall|x: u32| #[trigger]
            out.contains(x) <==> before.contains(x) || at_or_above(ts, x, id),
{
    let cur = ancestor(ts, id, k)->0;
    assert(before.contains(cur)) by {
        if !before.contains(cur) {
            let j = choose|j: nat| j < k && #[trigger] ancestor(ts, id, j) == Some(cur);
            lemma_ancestor_steps(ts, id, j, (k - j) as nat);
            assert(ancestor(ts, cur, (k - j) as nat) == Some(cur));
            assert(crate::forest::cyclic(ts, cur));
        }
    }
    assert forall|x: u32| #[trigger] out.contains(x) <==> before.contains(x) || at_or_above(ts, x, id) by {
        if out.contains(x) && !before.contains(x) {
            let j = choose|j: nat| j < k && #[trigger] ancestor(ts, id, j) == Some(x);
            if j > 0 {
                assert(under(ts, id, x));
            }
        }
        if at_or_above(ts, x, id) {
            if x == id {
                assert(ancestor(ts, id, 0) == Some(x));
                if k == 0 {
                    assert(cur == id);
                }
            } else {
                let j = choose|j: nat| j > 0 && #[trigger] ancestor(ts, id, j) == Some(x);
                if j >= k {
                    lemma_ancestor_steps(ts, id, k, (j - k) as nat);
                    lemma_holds_ancestors(ts, before, cur, (j - k) as nat);
                }
            }
        }
    }
    lemma_union_holds_parents(ts, id, before, out);
}

proof fn lemma_marked_to_root(ts: Seq<TaskView>, id: u32, k: nat, before: Set<u32>, out: Set<u32>)
    requires
        holds_parents(ts, before),
        ancestor(ts, id, k) is Some,
        ancestor(ts, id, k + 1) is None,
        forall|x: u32| #[trigger]
            out.contains(x) <==> before.contains(x) || exists|j: nat|
                j < k + 1 && #[trigger] ancestor(ts, id, j) == Some(x),
    ensures
        holds_parents(ts, out),
        forall|x: u32| #[trigger]
            out.contains(x) <==> before.contains(x) || at_or_above(ts, x, id),
{
    assert forall|x: u32| #[trigger] out.contains(x) <==> before.contains(x) || at_or_above(ts, x, id) by {
        if out.contains(x) && !before.contains(x) {
            let j = choose|j: nat| j < k + 1 && #[trigger] ancestor(ts, id, j) == Some(x);
            if j > 0 {
                assert(under(ts, id, x));
            }
        }
        if at_or_above(ts, x, id) {
            if x == id {
                assert(ancestor(ts, id, 0) == Some(x));
            } else {
                let j = choose|j: nat| j > 0 && #[trigger] ancestor(ts, id, j) == Some(x);
                crate::forest::lemma_ancestor_end(ts, id, k, j);
            }
        }
    }
    lemma_union_holds_parents(ts, id, before, out);
}

proof fn lemma_union_holds_parents(ts: Seq<TaskView>, id: u32, before: Set<u32>, out: Set<u32>)
    requires
        holds_parents(ts, before),
        forall|x: u32| #[trigger]
            out.contains(x) <==> before.contains(x) || at_or_above(ts, x, id),
    ensures
        holds_parents(ts, out),
{
    assert forall|x: u32| #[trigger] out.contains(x) implies match parent_of(ts, x) {
        Some(p) => out.contains(p),
        None => true,
    } by {
        if let Some(p) = parent_of(ts, x) {
            if before.contains(x) {
                assert(before.contains(p));
            } else {
                assert(under(ts, id, p)) by {
                    if x == id {
                        assert(ancestor(ts, id, 0) == Some(id));
                        assert(ancestor(ts, id, 1) == Some(p)) by {
                            reveal_with_fuel(ancestor, 2);
                        }
                    } else {
                        let j = choose|j: nat| j > 0 && #[trigger] ancestor(ts, id, j) == Some(x);
                        assert(ancestor(ts, id, j + 1) == Some(p));
                    }
                }
            }
            assert(out.contains(p));
        }
    }
}

/// Positions as mathematical integers.
pub open spec fn places(v: Seq<usize>) -> Seq<int> {
    Seq::new(v.len(), |k: int| v[k] as int)
}

fn sorts(a: &Task, b: &Task) -> (r: bool)
    ensures
        r == sorts_by(a@, b@),
{
    a.state.rank() < b.state.rank() || (a.state.rank() == b.state.rank() && a.id <= b.id)
}

/// Putting a position in its place is inserting it after the last one that
/// sorts before it.
proof fn lemma_placed(ts: Seq<TaskView>, s: Seq<int>, i: int, k: int)
    requires
        0 <= k <= s.len(),
        k == 0 || sorts_by(ts[s[k - 1]], ts[i]),
        forall|j: int| k <= j < s.len() ==> !sorts_by(ts[#[trigger] s[j]], ts[i]),
    ensures
        placed(ts, s, i) == s.insert(k, i),
    decreases s.len(),
{
    if k == s.len() {
        assert(s.insert(k, i) =~= s.push(i));
    } else {
        assert(!sorts_by(ts[s[s.len() - 1]], ts[i]));
        let r = s.drop_last();
        assert forall|j: int| k <= j < r.len() implies !sorts_by(ts[#[trigger] r[j]], ts[i]) by {
            assert(r[j] == s[j]);
        }
        lemma_placed(ts, r, i, k);
        assert(r.insert(k, i).push(s.last()) =~= s.insert(k, i));
    }
}

fn place(tasks: &Vec<Task>, list: &mut Vec<usize>, i: usize)
    requires
        i < tasks@.len(),
        forall|k: int| 0 <= k < old(list)@.len() ==> (#[trigger] old(list)@[k]) < tasks@.len(),
    ensures
        places(final(list)@) == placed(task_views(tasks@), places(old(list)@), i as int),
        forall|k: int| 0 <= k < final(list)@.len() ==> (#[trigger] final(list)@[k]) < tasks@.len(),
{
    let ghost ts = task_views(tasks@);
    let ghost was = list@;
    let mut k: usize = list.len();
    while k > 0 && !sorts(&tasks[list[k - 1]], &tasks[i])
        invariant
            k <= list@.len(),
            list@ == was,
            i < tasks@.len(),
            ts == task_views(tasks@),
            forall|j: int| 0 <= j < was.len() ==> (#[trigger] was[j]) < tasks@.len(),
            forall|j: int|
                k <= j < was.len() ==> !sorts_by(ts[#[trigger] places(was)[j]], ts[i as int]),
        decreases k,
    {
        k -= 1;
    }
    proof {
        if k > 0 {
            assert(was[k - 1] < tasks@.len());
            assert(places(was)[k - 1] == was[k - 1]);
        }
        lemma_placed(ts, places(was), i as int, k as int);
    }
    list.insert(k, i);
    assert(places(list@) =~= places(was).insert(k as int, i as int));
    assert forall|j: int| 0 <= j < list@.len() implies (#[trigger] list@[j]) < tasks@.len() by {
        if j < k {
            assert(list@[j] == was[j]);
        } else if j > k {
            assert(list@[j] == was[j - 1]);
        }
    }
}

/// What is shown, grouped by parent.
struct Groups {
    roots: Vec<usize>,
    below: HashMap<u32, Vec<usize>>,
}

impl Groups {
    spec fn hold(self, ts: Seq<TaskView>, keep: Seq<bool>, n: nat) -> bool {
        &&& places(self.roots@) == siblings(ts, keep, None, n)
        &&& forall|k: int| 0 <= k < self.roots@.len() ==> (#[trigger] self.roots@[k]) < ts.len()
        &&& forall|p: u32|
            siblings(ts, keep, Some(p), n) == (if #[trigger] self.below@.contains_key(p) {
                places(self.below@[p]@)
            } else {
                Seq::<int>::empty()
            })
        &&& forall|p: u32, k: int|
            self.below@.contains_key(p) && 0 <= k < self.below@[p]@.len() ==> (
            #[trigger] self.below@[p]@[k]) < ts.len()
    }

    fn of(tasks: &Vec<Task>, keep: &Vec<bool>) -> (r: Groups)
        requires
            keep@.len() == tasks@.len(),
            is_forest(task_views(tasks@)),
        ensures
            r.hold(task_views(tasks@), keep@, tasks@.len()),
    {
        let ghost ts = task_views(tasks@);
        let shown = shown_set(tasks, keep);
        let mut groups = Groups { roots: Vec::new(), below: HashMap::new() };
        assert(places(groups.roots@) =~= siblings(ts, keep@, None, 0));
        let mut i: usize = 0;
        while i < tasks.len()
            invariant
                i <= tasks@.len(),
                ts == task_views(tasks@),
                forall|id: u32| #[trigger] shown@.contains(id) <==> is_shown(ts, keep@, id),
                groups.hold(ts, keep@, i as nat),
            decreases tasks@.len() - i,
        {
            let ghost was = groups.below@;
            let id: u32 = tasks[i].id;
            assert(ts[i as int].id == id);
            if shown.contains(&id) {
                match tasks[i].parent {
                    Some(p) => {
                        let mut list: Vec<usize> = match groups.below.remove(&p) {
                            Some(l) => l,
                            None => Vec::new(),
                        };
                        proof {
                            assert(was.contains_key(p) || !was.contains_key(p));
                            assert(places(list@) =~= siblings(ts, keep@, Some(p), i as nat));
                            assert forall|k: int| 0 <= k < list@.len() implies (#[trigger] list@[k])
                                < tasks@.len() by {
                                assert(list@[k] == was[p]@[k]);
                            }
                        }
                        place(tasks, &mut list, i);
                        groups.below.insert(p, list);
                        proof {
                            assert forall|q: u32|
                                siblings(ts, keep@, Some(q), (i + 1) as nat) == (if #[trigger] groups.below@.contains_key(
                                    q,
                                ) {
                                    places(groups.below@[q]@)
                                } else {
                                    Seq::<int>::empty()
                                }) by {
                                assert(was.contains_key(q) || !was.contains_key(q));
                            }
                            assert forall|q: u32, k: int|
                                groups.below@.contains_key(q) && 0 <= k < groups.below@[q]@.len() implies (
                            #[trigger] groups.below@[q]@[k]) < ts.len() by {
                                if q != p {
                                    assert(was.contains_key(q));
                                    assert(groups.below@[q]@[k] == was[q]@[k]);
                                }
                            }
                        }
                    },
                    None => {
                        place(tasks, &mut groups.roots, i);
                    },
                }
            }
            assert(groups.hold(ts, keep@, (i + 1) as nat));
            i += 1;
        }
        groups
    }
}

/// What a stack of rows still to be shown stands for, the top first.
spec fn pending(ts: Seq<TaskView>, keep: Seq<bool>, stack: Seq<(usize, usize)>) -> Seq<(int, nat)>
    decreases stack.len(),
{
    if stack.len() == 0 {
        Seq::empty()
    } else {
        let i = stack.last().0 as int;
        let d = stack.last().1 as nat;
        seq![(i, d)] + laid_out(
            ts,
            keep,
            kids(ts, keep, i),
            d + 1,
            (ts.len() - (d + 1)) as nat,
        ) + pending(ts, keep, stack.drop_last())
    }
}

/// Everything on the stack is a task, as deep as it says.
spec fn stack_ok(ts: Seq<TaskView>, stack: Seq<(usize, usize)>) -> bool {
    forall|k: int|
        0 <= k < stack.len() ==> (#[trigger] stack[k]).0 < ts.len() && stack[k].1 < ts.len()
            && ancestor(ts, ts[stack[k].0 as int].id, stack[k].1 as nat) is Some
}

/// The siblings of a list are among the tasks, and have the parent.
proof fn lemma_siblings(ts: Seq<TaskView>, keep: Seq<bool>, p: Option<u32>, n: nat)
    requires
        n <= ts.len(),
    ensures
        siblings(ts, keep, p, n).no_duplicates(),
        forall|i: int| #[trigger]
            siblings(ts, keep, p, n).contains(i) <==> 0 <= i < n && is_shown(ts, keep, ts[i].id)
                && ts[i].parent == p,
    decreases n,
{
    if n > 0 {
        lemma_siblings(ts, keep, p, (n - 1) as nat);
        let rest = siblings(ts, keep, p, (n - 1) as nat);
        assert(!rest.contains(n - 1));
        lemma_placed_members(ts, rest, n - 1);
    }
}

proof fn lemma_placed_members(ts: Seq<TaskView>, s: Seq<int>, i: int)
    requires
        s.no_duplicates(),
        !s.contains(i),
    ensures
        placed(ts, s, i).no_duplicates(),
        forall|x: int| #[trigger] placed(ts, s, i).contains(x) <==> s.contains(x) || x == i,
    decreases s.len(),
{
    let q = placed(ts, s, i);
    if s.len() == 0 || sorts_by(ts[s.last()], ts[i]) {
        lemma_push_members(s, i);
    } else {
        let r = s.drop_last();
        assert(!r.contains(i)) by {
            if r.contains(i) {
                let k = choose|k: int| 0 <= k < r.len() && r[k] == i;
                assert(s[k] == i);
            }
        }
        lemma_placed_members(ts, r, i);
        let z = s.last();
        assert(!r.contains(z)) by {
            if r.contains(z) {
                let k = choose|k: int| 0 <= k < r.len() && r[k] == z;
                assert(s[k] == z && s[s.len() - 1] == z);
            }
        }
        assert(s[s.len() - 1] == z);
        assert(s.contains(z));
        lemma_push_members(placed(ts, r, i), z);
        lemma_push_members(r, z);
        assert(r.push(z) =~= s);
    }
}

proof fn lemma_push_members(s: Seq<int>, z: int)
    ensures
        forall|x: int| #[trigger] s.push(z).contains(x) <==> s.contains(x) || x == z,
        s.no_duplicates() && !s.contains(z) ==> s.push(z).no_duplicates(),
{
    assert forall|x: int| #[trigger] s.push(z).contains(x) <==> s.contains(x) || x == z by {
        if s.contains(x) {
            let k = choose|k: int| 0 <= k < s.len() && s[k] == x;
            assert(s.push(z)[k] == x);
        }
        if x == z {
            assert(s.push(z)[s.len() as int] == x);
        }
        if s.push(z).contains(x) && x != z {
            let k = choose|k: int| 0 <= k < s.push(z).len() && s.push(z)[k] == x;
            assert(s[k] == x);
        }
    }
    if s.no_duplicates() && !s.contains(z) {
        assert forall|a: int, b: int| 0 <= a < b < s.push(z).len() implies s.push(z)[a] != s.push(z)[b] by {
            assert(s.contains(s[a]));
        }
    }
}

/// A list turned round and put on the stack is shown before what was there.
proof fn lemma_pending_pushed(
    ts: Seq<TaskView>,
    keep: Seq<bool>,
    stack: Seq<(usize, usize)>,
    list: Seq<usize>,
    d: usize,
)
    requires
        d < ts.len() || list.len() == 0,
    ensures
        pending(ts, keep, stack + turned(list, d)) == laid_out(
            ts,
            keep,
            places(list),
            d as nat,
            (ts.len() - d) as nat,
        ) + pending(ts, keep, stack),
    decreases list.len(),
{
    if list.len() == 0 {
        assert(stack + turned(list, d) =~= stack);
        assert(Seq::<(int, nat)>::empty() + pending(ts, keep, stack) =~= pending(ts, keep, stack));
    } else {
        let r = list.drop_first();
        let whole = stack + turned(list, d);
        assert(whole.drop_last() =~= stack + turned(r, d));
        assert(whole.last() == (list[0], d));
        lemma_pending_pushed(ts, keep, stack, r, d);
        assert(places(list).drop_first() =~= places(r));
        let head = seq![(list[0] as int, d as nat)];
        let deeper = laid_out(
            ts,
            keep,
            kids(ts, keep, list[0] as int),
            (d + 1) as nat,
            (ts.len() - (d + 1)) as nat,
        );
        let later = laid_out(ts, keep, places(r), d as nat, (ts.len() - d) as nat);
        assert(head + deeper + (later + pending(ts, keep, stack)) =~= (head + deeper + later)
            + pending(ts, keep, stack));
    }
}

/// A list of positions in reverse, each with a depth.
spec fn turned(list: Seq<usize>, d: usize) -> Seq<(usize, usize)> {
    Seq::new(list.len(), |k: int| (list[list.len() - 1 - k], d))
}

/// Puts a list on the stack so that it comes off in order.
fn push_turned(stack: &mut Vec<(usize, usize)>, list: &Vec<usize>, d: usize)
    ensures
        final(stack)@ == old(stack)@ + turned(list@, d),
{
    let ghost was = stack@;
    let mut k: usize = list.len();
    while k > 0
        invariant
            k <= list@.len(),
            stack@ == was + turned(list@, d).take(list@.len() - k),
        decreases k,
    {
        k -= 1;
        stack.push((list[k], d));
        assert(stack@ =~= was + turned(list@, d).take(list@.len() - k));
    }
    assert(turned(list@, d).take(list@.len() as int) =~= turned(list@, d));
}

/// The displayed rows, where `keep` says of each task whether it was asked for.
///
/// An explicit stack rather than recursion: the depth comes from a file that
/// anyone may write, and a task list must not exhaust the call stack.
pub fn rows<'a>(tasks: &'a Vec<Task>, keep: &Vec<bool>) -> (out: Vec<Row<'a>>)
    requires
        keep@.len() == tasks@.len(),
        is_forest(task_views(tasks@)),
    ensures
        row_views(out@) == tree_rows(task_views(tasks@), keep@),
{
    let ghost ts = task_views(tasks@);
    let ghost all = layout(ts, keep@);
    let count: usize = tasks.len();
    let matched = match_set(tasks, keep);
    let groups = Groups::of(tasks, keep);
    let mut out: Vec<Row<'a>> = Vec::new();
    let ghost mut done: Seq<(int, nat)> = Seq::empty();
    let mut stack: Vec<(usize, usize)> = Vec::new();
    push_turned(&mut stack, &groups.roots, 0);
    proof {
        let none = Seq::<(usize, usize)>::empty();
        if ts.len() == 0 {
            assert(groups.roots@.len() == 0) by {
                assert(places(groups.roots@).len() == 0);
            }
        }
        lemma_pending_pushed(ts, keep@, none, groups.roots@, 0);
        assert(none + turned(groups.roots@, 0) =~= stack@);
        assert(pending(ts, keep@, none) =~= Seq::empty());
        assert(done + pending(ts, keep@, stack@) =~= all);
        assert forall|k: int| 0 <= k < stack@.len() implies (#[trigger] stack@[k]).0 < ts.len()
            && stack@[k].1 < ts.len() && ancestor(
            ts,
            ts[stack@[k].0 as int].id,
            stack@[k].1 as nat,
        ) is Some by {
            assert(stack@[k].0 == groups.roots@[groups.roots@.len() - 1 - k]);
            assert(groups.roots@[groups.roots@.len() - 1 - k] < ts.len());
        }
    }
    while stack.len() > 0
        invariant
            ts == task_views(tasks@),
            all == layout(ts, keep@),
            is_forest(ts),
            ts.len() == count,
            groups.hold(ts, keep@, ts.len()),
            forall|id: u32| #[trigger] matched@.contains(id) <==> is_match(ts, keep@, id),
            stack_ok(ts, stack@),
            done + pending(ts, keep@, stack@) == all,
            out@.len() == done.len(),
            forall|r: int|
                0 <= r < out@.len() ==> (#[trigger] out@[r])@ == (RowView {
                    task: ts[done[r].0],
                    depth: done[r].1,
                    context: !is_match(ts, keep@, ts[done[r].0].id),
                }),
        decreases pending(ts, keep@, stack@).len(),
    {
        let ghost before = stack@;
        let top: (usize, usize) = match stack.pop() {
            Some(t) => t,
            None => {
                return out;
            },
        };
        let i: usize = top.0;
        let d: usize = top.1;
        assert(before.last() == top);
        assert(stack@ =~= before.drop_last());
        assert(stack_ok(ts, stack@)) by {
            assert forall|k: int| 0 <= k < stack@.len() implies (#[trigger] stack@[k]).0 < ts.len()
                && stack@[k].1 < ts.len() && ancestor(
                ts,
                ts[stack@[k].0 as int].id,
                stack@[k].1 as nat,
            ) is Some by {
                assert(stack@[k] == before[k]);
            }
        }
        assert(before[before.len() - 1] == top);
        let ghost rest = stack@;
        let id: u32 = tasks[i].id;
        assert(ts[i as int].id == id);
        out.push(Row { task: &tasks[i], depth: d, context: !matched.contains(&id) });
        proof {
            done = done.push((i as int, d as nat));
        }
        match groups.below.get(&id) {
            Some(list) => {
                assert(groups.below@.contains_key(id));
                assert(places(list@) == kids(ts, keep@, i as int));
                if list.len() > 0 {
                    proof {
                        assert forall|k: int| 0 <= k < list@.len() implies (#[trigger] list@[k])
                            < ts.len() && d + 1 < ts.len() && ancestor(
                            ts,
                            ts[list@[k] as int].id,
                            (d + 1) as nat,
                        ) is Some by {
                            assert(groups.below@[id]@[k] < ts.len());
                            lemma_kid_is_deeper(ts, keep@, i as int, list@[k] as int, d as nat, k);
                        }
                        assert(list@[0] < ts.len());
                    }
                    push_turned(&mut stack, list, d + 1);
                    proof {
                        lemma_pending_pushed(ts, keep@, rest, list@, (d + 1) as usize);
                        assert forall|k: int| 0 <= k < stack@.len() implies (#[trigger] stack@[k]).0
                            < ts.len() && stack@[k].1 < ts.len() && ancestor(
                            ts,
                            ts[stack@[k].0 as int].id,
                            stack@[k].1 as nat,
                        ) is Some by {
                            if k < rest.len() {
                                assert(stack@[k] == rest[k]);
                            } else {
                                let m = list@.len() - 1 - (k - rest.len());
                                assert(stack@[k] == (list@[m], (d + 1) as usize));
                                assert(list@[m] < ts.len());
                            }
                        }
                    }
                } else {
                    assert(kids(ts, keep@, i as int).len() == 0);
                }
            },
            None => {
                assert(!groups.below@.contains_key(id));
                assert(kids(ts, keep@, i as int).len() == 0);
            },
        }
        proof {
            let deeper = laid_out(
                ts,
                keep@,
                kids(ts, keep@, i as int),
                (d + 1) as nat,
                (ts.len() - (d + 1)) as nat,
            );
            if kids(ts, keep@, i as int).len() == 0 {
                assert(deeper + pending(ts, keep@, rest) =~= pending(ts, keep@, rest));
            }
            assert(pending(ts, keep@, stack@) == deeper + pending(ts, keep@, rest));
            let head = seq![(i as int, d as nat)];
            assert(pending(ts, keep@, before) =~= head + pending(ts, keep@, stack@));
            assert(done + pending(ts, keep@, stack@) =~= all);
        }
    }
    proof {
        assert(done + Seq::<(int, nat)>::empty() =~= done);
        assert(row_views(out@) =~= tree_rows(ts, keep@));
    }
    out
}

proof fn lemma_kid_is_deeper(
    ts: Seq<TaskView>,
    keep: Seq<bool>,
    i: int,
    j: int,
    d: nat,
    k: int,
)
    requires
        is_forest(ts),
        0 <= i < ts.len(),
        0 <= k < kids(ts, keep, i).len(),
        kids(ts, keep, i)[k] == j,
        ancestor(ts, ts[i].id, d) is Some,
    ensures
        0 <= j < ts.len(),
        d + 1 < ts.len(),
        ancestor(ts, ts[j].id, d + 1) == ancestor(ts, ts[i].id, d),
        ts[j].parent == Some(ts[i].id),
{
    lemma_siblings(ts, keep, Some(ts[i].id), ts.len());
    assert(kids(ts, keep, i).contains(j));
    lemma_parent_at(ts, j);
    let x = ts[j].id;
    assert(ancestor(ts, x, 0) == Some(x));
    assert(ancestor(ts, x, 1) == Some(ts[i].id)) by {
        reveal_with_fuel(ancestor, 2);
    }
    lemma_ancestor_steps(ts, x, 1, d);
    assert(has_id(ts, x));
    lemma_chain_fits(ts, x, d + 1);
}

// ---------------------------------------------------------------------------
// What the displayed tree guarantees
// ---------------------------------------------------------------------------

/// Every chain of parents ends at a root.
pub proof fn lemma_root_above(ts: Seq<TaskView>, x: u32, k: nat) -> (r: nat)
    requires
        is_forest(ts),
        has_id(ts, x),
        ancestor(ts, x, k) is Some,
    ensures
        ancestor(ts, x, r) is Some,
        ancestor(ts, x, r + 1) is None,
    decreases ts.len() - k,
{
    lemma_chain_fits(ts, x, k);
    if ancestor(ts, x, k + 1) is Some {
        lemma_root_above(ts, x, k + 1)
    } else {
        k
    }
}

/// What stands above something shown is shown.
proof fn lemma_shown_above(ts: Seq<TaskView>, keep: Seq<bool>, x: u32, k: nat)
    requires
        is_shown(ts, keep, x),
        ancestor(ts, x, k) is Some,
    ensures
        is_shown(ts, keep, ancestor(ts, x, k)->0),
{
    let a = ancestor(ts, x, k)->0;
    let i = choose|i: int| 0 <= i < ts.len() && keep[i] && at_or_above(ts, x, (#[trigger] ts[i]).id);
    let m = ts[i].id;
    if k > 0 {
        if x == m {
            assert(under(ts, m, a));
        } else {
            let j = choose|j: nat| j > 0 && #[trigger] ancestor(ts, m, j) == Some(x);
            lemma_ancestor_steps(ts, m, j, k);
            assert(ancestor(ts, m, j + k) == Some(a));
        }
    }
    assert(at_or_above(ts, a, ts[i].id));
}

/// Nothing lies below two siblings.
proof fn lemma_siblings_apart(ts: Seq<TaskView>, x: u32, a: nat, b: nat, l: int, m: int)
    requires
        is_forest(ts),
        0 <= l < ts.len(),
        0 <= m < ts.len(),
        l != m,
        ts[l].parent == ts[m].parent,
        ancestor(ts, x, a) == Some(ts[l].id),
    ensures
        ancestor(ts, x, b) != Some(ts[m].id),
{
    let p = ts[l].id;
    let q = ts[m].id;
    assert(p != q) by {
        if l < m {
            assert(ts[l].id != ts[m].id);
        } else {
            assert(ts[m].id != ts[l].id);
        }
    }
    lemma_parent_at(ts, l);
    lemma_parent_at(ts, m);
    if a < b {
        lemma_apart_when_deeper(ts, x, a, b, p, q);
    } else if ancestor(ts, x, b) == Some(q) {
        lemma_apart_when_deeper(ts, x, b, a, q, p);
    }
}

proof fn lemma_apart_when_deeper(ts: Seq<TaskView>, x: u32, a: nat, b: nat, p: u32, q: u32)
    requires
        acyclic(ts),
        p != q,
        a <= b,
        parent_of(ts, p) == parent_of(ts, q),
        ancestor(ts, x, a) == Some(p),
    ensures
        ancestor(ts, x, b) != Some(q),
{
    if a < b && ancestor(ts, x, b) == Some(q) {
        let k = (b - a) as nat;
        lemma_ancestor_steps(ts, x, a, k);
        assert(ancestor(ts, p, k) == Some(q));
        lemma_ancestor_prefix(ts, p, 1, k);
        assert(ancestor(ts, p, 0) == Some(p) && ancestor(ts, q, 0) == Some(q));
        assert(ancestor(ts, p, 1) == parent_of(ts, p)) by {
            reveal_with_fuel(ancestor, 2);
        }
        assert(ancestor(ts, q, 1) == parent_of(ts, q)) by {
            reveal_with_fuel(ancestor, 2);
        }
        lemma_ancestor_steps(ts, p, 1, (k - 1) as nat);
        lemma_ancestor_steps(ts, q, 1, (k - 1) as nat);
        assert(ancestor(ts, q, k) == Some(q));
        assert(crate::forest::cyclic(ts, q));
    }
}

/// Positions of tasks that are shown, all with the same parent.
spec fn are_siblings(ts: Seq<TaskView>, keep: Seq<bool>, list: Seq<int>, p: Option<u32>) -> bool {
    &&& list.no_duplicates()
    &&& forall|k: int|
        0 <= k < list.len() ==> 0 <= #[trigger] list[k] < ts.len() && ts[list[k]].parent == p
            && is_shown(ts, keep, ts[list[k]].id)
}

proof fn lemma_siblings_are(ts: Seq<TaskView>, keep: Seq<bool>, p: Option<u32>)
    ensures
        are_siblings(ts, keep, siblings(ts, keep, p, ts.len()), p),
{
    let s = siblings(ts, keep, p, ts.len());
    lemma_siblings(ts, keep, p, ts.len());
    assert forall|k: int| 0 <= k < s.len() implies 0 <= #[trigger] s[k] < ts.len() && ts[s[k]].parent
        == p && is_shown(ts, keep, ts[s[k]].id) by {
        assert(s.contains(s[k]));
    }
}

proof fn lemma_rest_are_siblings(ts: Seq<TaskView>, keep: Seq<bool>, list: Seq<int>, p: Option<u32>)
    requires
        are_siblings(ts, keep, list, p),
        list.len() > 0,
    ensures
        are_siblings(ts, keep, list.drop_first(), p),
{
    let r = list.drop_first();
    assert forall|k: int| 0 <= k < r.len() implies 0 <= #[trigger] r[k] < ts.len() && ts[r[k]].parent
        == p && is_shown(ts, keep, ts[r[k]].id) by {
        assert(r[k] == list[k + 1]);
    }
}

/// Each row of a layout stands at or below one of the list, as deep as it says.
proof fn lemma_laid_out_rows(
    ts: Seq<TaskView>,
    keep: Seq<bool>,
    list: Seq<int>,
    p: Option<u32>,
    d: nat,
    fuel: nat,
    r: int,
) -> (k: int)
    requires
        is_forest(ts),
        are_siblings(ts, keep, list, p),
        0 <= r < laid_out(ts, keep, list, d, fuel).len(),
    ensures
        ({
            let row = laid_out(ts, keep, list, d, fuel)[r];
            &&& 0 <= k < list.len()
            &&& 0 <= row.0 < ts.len()
            &&& d <= row.1
            &&& ancestor(ts, ts[row.0].id, (row.1 - d) as nat) == Some(ts[list[k]].id)
            &&& is_shown(ts, keep, ts[row.0].id)
        }),
    decreases fuel, list.len(),
{
    let all = laid_out(ts, keep, list, d, fuel);
    let i = list[0];
    let below = kids(ts, keep, i);
    let deeper = laid_out(ts, keep, below, d + 1, (fuel - 1) as nat);
    let later = laid_out(ts, keep, list.drop_first(), d, fuel);
    if r == 0 {
        assert(all[0] == (i, d));
        0
    } else if r < 1 + deeper.len() {
        lemma_siblings_are(ts, keep, Some(ts[i].id));
        let k = lemma_laid_out_rows(
            ts,
            keep,
            below,
            Some(ts[i].id),
            d + 1,
            (fuel - 1) as nat,
            r - 1,
        );
        let row = all[r];
        assert(row == deeper[r - 1]);
        lemma_parent_at(ts, below[k]);
        let x = ts[row.0].id;
        let n = (row.1 - (d + 1)) as nat;
        assert(ancestor(ts, x, n + 1) == parent_of(ts, ts[below[k]].id));
        0
    } else {
        lemma_rest_are_siblings(ts, keep, list, p);
        let k = lemma_laid_out_rows(
            ts,
            keep,
            list.drop_first(),
            p,
            d,
            fuel,
            r - 1 - deeper.len(),
        );
        assert(all[r] == later[r - 1 - deeper.len()]);
        assert(list.drop_first()[k] == list[k + 1]);
        k + 1
    }
}

/// No task has two rows.
proof fn lemma_laid_out_distinct(
    ts: Seq<TaskView>,
    keep: Seq<bool>,
    list: Seq<int>,
    p: Option<u32>,
    d: nat,
    fuel: nat,
    r: int,
    q: int,
)
    requires
        is_forest(ts),
        are_siblings(ts, keep, list, p),
        0 <= r < q < laid_out(ts, keep, list, d, fuel).len(),
    ensures
        laid_out(ts, keep, list, d, fuel)[r].0 != laid_out(ts, keep, list, d, fuel)[q].0,
    decreases fuel, list.len(),
{
    let all = laid_out(ts, keep, list, d, fuel);
    let i = list[0];
    let below = kids(ts, keep, i);
    let deeper = laid_out(ts, keep, below, d + 1, (fuel - 1) as nat);
    let rest = list.drop_first();
    let later = laid_out(ts, keep, rest, d, fuel);
    lemma_siblings_are(ts, keep, Some(ts[i].id));
    lemma_rest_are_siblings(ts, keep, list, p);
    let n = 1 + deeper.len();
    if all[r].0 == all[q].0 {
        let x = ts[all[r].0].id;
        if q < n {
            let k = lemma_laid_out_rows(
                ts,
                keep,
                below,
                Some(ts[i].id),
                d + 1,
                (fuel - 1) as nat,
                q - 1,
            );
            assert(all[q] == deeper[q - 1]);
            if r == 0 {
                // a task below itself
                lemma_parent_at(ts, below[k]);
                let m = (all[q].1 - (d + 1)) as nat;
                assert(ancestor(ts, x, m + 1) == Some(ts[i].id));
                assert(crate::forest::cyclic(ts, x));
            } else {
                assert(all[r] == deeper[r - 1]);
                lemma_laid_out_distinct(
                    ts,
                    keep,
                    below,
                    Some(ts[i].id),
                    d + 1,
                    (fuel - 1) as nat,
                    r - 1,
                    q - 1,
                );
            }
        } else {
            assert(all[q] == later[q - n]);
            let k = lemma_laid_out_rows(ts, keep, rest, p, d, fuel, q - n);
            assert(rest[k] == list[k + 1]);
            assert(rest[k] != i);
            let b = (all[q].1 - d) as nat;
            if r == 0 {
                assert(ancestor(ts, x, 0) == Some(ts[i].id));
                lemma_siblings_apart(ts, x, 0, b, i, rest[k]);
            } else if r < n {
                let k2 = lemma_laid_out_rows(
                    ts,
                    keep,
                    below,
                    Some(ts[i].id),
                    d + 1,
                    (fuel - 1) as nat,
                    r - 1,
                );
                assert(all[r] == deeper[r - 1]);
                lemma_parent_at(ts, below[k2]);
                let a = (all[r].1 - (d + 1)) as nat;
                assert(ancestor(ts, x, a + 1) == Some(ts[i].id));
                lemma_siblings_apart(ts, x, a + 1, b, i, rest[k]);
            } else {
                assert(all[r] == later[r - n]);
                lemma_laid_out_distinct(ts, keep, rest, p, d, fuel, r - n, q - n);
            }
        }
    }
}

/// Whatever is shown at or below one of the list has a row.
proof fn lemma_laid_out_complete(
    ts: Seq<TaskView>,
    keep: Seq<bool>,
    list: Seq<int>,
    p: Option<u32>,
    d: nat,
    fuel: nat,
    j: int,
    k: nat,
    m: int,
) -> (r: int)
    requires
        is_forest(ts),
        are_siblings(ts, keep, list, p),
        0 <= j < ts.len(),
        is_shown(ts, keep, ts[j].id),
        0 <= m < list.len(),
        ancestor(ts, ts[j].id, k) == Some(ts[list[m]].id),
        k < fuel,
    ensures
        0 <= r < laid_out(ts, keep, list, d, fuel).len(),
        laid_out(ts, keep, list, d, fuel)[r] == (j, d + k),
    decreases fuel, list.len(),
{
    let all = laid_out(ts, keep, list, d, fuel);
    let i = list[0];
    let below = kids(ts, keep, i);
    let deeper = laid_out(ts, keep, below, d + 1, (fuel - 1) as nat);
    let rest = list.drop_first();
    let later = laid_out(ts, keep, rest, d, fuel);
    let x = ts[j].id;
    if m > 0 {
        lemma_rest_are_siblings(ts, keep, list, p);
        assert(rest[m - 1] == list[m]);
        let r = lemma_laid_out_complete(ts, keep, rest, p, d, fuel, j, k, m - 1);
        assert(all[1 + deeper.len() + r] == later[r]);
        1 + deeper.len() + r
    } else if k == 0 {
        assert(i == j) by {
            if i < j {
                assert(ts[i].id != ts[j].id);
            }
            if j < i {
                assert(ts[j].id != ts[i].id);
            }
        }
        assert(all[0] == (j, d));
        0
    } else {
        // the child of `i` that `j` is at or below
        lemma_ancestor_prefix(ts, x, (k - 1) as nat, k);
        let a = ancestor(ts, x, (k - 1) as nat)->0;
        assert(has_id(ts, x));
        crate::forest::lemma_ancestor_has_id(ts, x, (k - 1) as nat);
        let c = choose|c: int| 0 <= c < ts.len() && (#[trigger] ts[c]).id == a;
        lemma_parent_at(ts, c);
        assert(ts[c].parent == Some(ts[i].id));
        lemma_shown_above(ts, keep, x, (k - 1) as nat);
        lemma_siblings(ts, keep, Some(ts[i].id), ts.len());
        assert(below.contains(c));
        let n = choose|n: int| 0 <= n < below.len() && below[n] == c;
        lemma_siblings_are(ts, keep, Some(ts[i].id));
        let r = lemma_laid_out_complete(
            ts,
            keep,
            below,
            Some(ts[i].id),
            d + 1,
            (fuel - 1) as nat,
            j,
            (k - 1) as nat,
            n,
        );
        assert(all[1 + r] == deeper[r]);
        1 + r
    }
}

/// The displayed tree of a forest has exactly one row for each task that was
/// asked for and for each ancestor of one, as deep as it has ancestors.
pub proof fn law_tree_shows_everything_once(ts: Seq<TaskView>, keep: Seq<bool>)
    requires
        is_forest(ts),
        keep.len() == ts.len(),
    ensures
        forall|r: int, q: int|
            0 <= r < q < layout(ts, keep).len() ==> (#[trigger] layout(ts, keep)[r]).0 != (
            #[trigger] layout(ts, keep)[q]).0,
        forall|r: int|
            0 <= r < layout(ts, keep).len() ==> 0 <= (#[trigger] layout(ts, keep)[r]).0 < ts.len()
                && is_shown(ts, keep, ts[layout(ts, keep)[r].0].id) && ancestor(
                ts,
                ts[layout(ts, keep)[r].0].id,
                layout(ts, keep)[r].1,
            ) is Some && ancestor(
                ts,
                ts[layout(ts, keep)[r].0].id,
                (layout(ts, keep)[r].1 + 1) as nat,
            ) is None,
        forall|j: int|
            0 <= j < ts.len() && is_shown(ts, keep, (#[trigger] ts[j]).id) ==> exists|r: int|
                0 <= r < layout(ts, keep).len() && (#[trigger] layout(ts, keep)[r]).0 == j,
{
    let list = siblings(ts, keep, None, ts.len());
    let all = layout(ts, keep);
    lemma_siblings_are(ts, keep, None);
    assert forall|r: int, q: int| 0 <= r < q < all.len() implies (#[trigger] all[r]).0 != (
    #[trigger] all[q]).0 by {
        lemma_laid_out_distinct(ts, keep, list, None, 0, ts.len(), r, q);
    }
    assert forall|r: int| 0 <= r < all.len() implies 0 <= (#[trigger] all[r]).0 < ts.len() && is_shown(
        ts,
        keep,
        ts[all[r].0].id,
    ) && ancestor(ts, ts[all[r].0].id, all[r].1) is Some && ancestor(
        ts,
        ts[all[r].0].id,
        (all[r].1 + 1) as nat,
    ) is None by {
        let k = lemma_laid_out_rows(ts, keep, list, None, 0, ts.len(), r);
        lemma_parent_at(ts, list[k]);
    }
    assert forall|j: int| 0 <= j < ts.len() && is_shown(ts, keep, (#[trigger] ts[j]).id) implies exists|
        r: int,
    |
        0 <= r < all.len() && (#[trigger] all[r]).0 == j by {
        let x = ts[j].id;
        assert(has_id(ts, x));
        assert(ancestor(ts, x, 0) is Some);
        let k = lemma_root_above(ts, x, 0);
        lemma_chain_fits(ts, x, k);
        let a = ancestor(ts, x, k)->0;
        crate::forest::lemma_ancestor_has_id(ts, x, k);
        let c = choose|c: int| 0 <= c < ts.len() && (#[trigger] ts[c]).id == a;
        lemma_parent_at(ts, c);
        lemma_shown_above(ts, keep, x, k);
        lemma_siblings(ts, keep, None, ts.len());
        assert(list.contains(c));
        let m = choose|m: int| 0 <= m < list.len() && list[m] == c;
        let r = lemma_laid_out_complete(ts, keep, list, None, 0, ts.len(), j, k, m);
        assert(all[r].0 == j);
    }
}

/// A chain on top of another.
proof fn lemma_over(ts: Seq<TaskView>, x: u32, y: u32, k: nat, z: u32)
    requires
        under(ts, x, y),
        ancestor(ts, y, k) == Some(z),
    ensures
        under(ts, x, z),
{
    let a = choose|a: nat| a > 0 && #[trigger] ancestor(ts, x, a) == Some(y);
    lemma_ancestor_steps(ts, x, a, k);
    assert(ancestor(ts, x, a + k) == Some(z));
}

/// Whether every row after `q`, up to and with `r`, is deeper than `q`.
pub open spec fn deeper_until(all: Seq<(int, nat)>, q: int, r: int) -> bool {
    forall|m: int| q < m <= r ==> all[q].1 < (#[trigger] all[m]).1
}

/// Nothing that comes with the siblings after `i` lies below `i`, nor is it
/// above it.
proof fn lemma_later_apart(
    ts: Seq<TaskView>,
    keep: Seq<bool>,
    list: Seq<int>,
    p: Option<u32>,
    d: nat,
    fuel: nat,
    r: int,
    x: u32,
    a: nat,
)
    requires
        is_forest(ts),
        are_siblings(ts, keep, list, p),
        list.len() > 0,
        0 <= r < laid_out(ts, keep, list.drop_first(), d, fuel).len(),
        ancestor(ts, x, a) == Some(ts[list[0]].id),
    ensures
        ({
            let y = ts[laid_out(ts, keep, list.drop_first(), d, fuel)[r].0].id;
            !under(ts, y, x) && !under(ts, x, y)
        }),
{
    let rest = list.drop_first();
    lemma_rest_are_siblings(ts, keep, list, p);
    let k = lemma_laid_out_rows(ts, keep, rest, p, d, fuel, r);
    let row = laid_out(ts, keep, rest, d, fuel)[r];
    let y = ts[row.0].id;
    let b = (row.1 - d) as nat;
    assert(rest[k] == list[k + 1]);
    assert(rest[k] != list[0]);
    if under(ts, y, x) {
        let c = choose|c: nat| c > 0 && #[trigger] ancestor(ts, y, c) == Some(x);
        lemma_ancestor_steps(ts, y, c, a);
        lemma_siblings_apart(ts, y, c + a, b, list[0], rest[k]);
    }
    if under(ts, x, y) {
        let c = choose|c: nat| c > 0 && #[trigger] ancestor(ts, x, c) == Some(y);
        lemma_ancestor_steps(ts, x, c, b);
        lemma_siblings_apart(ts, x, a, c + b, list[0], rest[k]);
    }
}

/// In a layout, what lies below a row follows it without a gap.
proof fn lemma_laid_out_nested(
    ts: Seq<TaskView>,
    keep: Seq<bool>,
    list: Seq<int>,
    p: Option<u32>,
    d: nat,
    fuel: nat,
    q: int,
    r: int,
)
    requires
        is_forest(ts),
        are_siblings(ts, keep, list, p),
        0 <= q < r < laid_out(ts, keep, list, d, fuel).len(),
    ensures
        ({
            let all = laid_out(ts, keep, list, d, fuel);
            &&& under(ts, ts[all[r].0].id, ts[all[q].0].id) <==> deeper_until(all, q, r)
            &&& !under(ts, ts[all[q].0].id, ts[all[r].0].id)
        }),
    decreases fuel, list.len(),
{
    let all = laid_out(ts, keep, list, d, fuel);
    let i = list[0];
    let below = kids(ts, keep, i);
    let deeper = laid_out(ts, keep, below, d + 1, (fuel - 1) as nat);
    let rest = list.drop_first();
    let later = laid_out(ts, keep, rest, d, fuel);
    let n = 1 + deeper.len();
    let up = ts[i].id;
    lemma_siblings_are(ts, keep, Some(up));
    lemma_rest_are_siblings(ts, keep, list, p);
    assert(all[0] == (i, d));
    assert forall|m: int| 1 <= m < n implies #[trigger] all[m] == deeper[m - 1] by {}
    assert forall|m: int| n <= m < all.len() implies #[trigger] all[m] == later[m - n] by {}
    if q >= n {
        lemma_laid_out_nested(ts, keep, rest, p, d, fuel, q - n, r - n);
        lemma_shifted(all, later, n as int, q, r);
    } else if r >= n {
        // the first of the later rows is no deeper than any before it
        assert(later.len() > 0);
        assert(later[0].1 == d);
        assert(all[n as int].1 == d);
        assert(all[q].1 >= d) by {
            if q > 0 {
                let k = lemma_laid_out_rows(
                    ts,
                    keep,
                    below,
                    Some(up),
                    d + 1,
                    (fuel - 1) as nat,
                    q - 1,
                );
            }
        }
        assert(!deeper_until(all, q, r));
        let x = ts[all[q].0].id;
        if q == 0 {
            assert(ancestor(ts, x, 0) == Some(up));
            lemma_later_apart(ts, keep, list, p, d, fuel, r - n, x, 0);
        } else {
            let a = lemma_deeper_is_under(ts, keep, i, d, fuel, q - 1);
            lemma_later_apart(ts, keep, list, p, d, fuel, r - n, x, a);
        }
    } else if q == 0 {
        let a = lemma_deeper_is_under(ts, keep, i, d, fuel, r - 1);
        let y = ts[all[r].0].id;
        assert(under(ts, y, up));
        assert(deeper_until(all, q, r)) by {
            assert forall|m: int| q < m <= r implies all[q].1 < (#[trigger] all[m]).1 by {
                let k = lemma_laid_out_rows(
                    ts,
                    keep,
                    below,
                    Some(up),
                    d + 1,
                    (fuel - 1) as nat,
                    m - 1,
                );
            }
        }
        if under(ts, up, y) {
            lemma_over(ts, up, y, a, up);
            assert(crate::forest::cyclic(ts, up));
        }
    } else {
        lemma_laid_out_nested(
            ts,
            keep,
            below,
            Some(up),
            d + 1,
            (fuel - 1) as nat,
            q - 1,
            r - 1,
        );
        lemma_shifted(all, deeper, 1, q, r);
    }
}

/// Being deeper goes by the rows alone, wherever they stand.
proof fn lemma_shifted(all: Seq<(int, nat)>, part: Seq<(int, nat)>, n: int, q: int, r: int)
    requires
        0 <= n <= q <= r < n + part.len() <= all.len(),
        forall|m: int| n <= m < n + part.len() ==> #[trigger] all[m] == part[m - n],
    ensures
        deeper_until(all, q, r) <==> deeper_until(part, q - n, r - n),
{
    if deeper_until(all, q, r) {
        assert forall|m: int| q - n < m <= r - n implies part[q - n].1 < (#[trigger] part[m]).1 by {
            assert(all[m + n] == part[m + n - n]);
            assert(all[q].1 < all[m + n].1);
        }
    }
    if deeper_until(part, q - n, r - n) {
        assert forall|m: int| q < m <= r implies all[q].1 < (#[trigger] all[m]).1 by {
            assert(part[q - n].1 < part[m - n].1);
        }
    }
}

/// How far below `i` a row of what is laid out below it is.
proof fn lemma_deeper_is_under(
    ts: Seq<TaskView>,
    keep: Seq<bool>,
    i: int,
    d: nat,
    fuel: nat,
    r: int,
) -> (a: nat)
    requires
        is_forest(ts),
        0 <= i < ts.len(),
        fuel > 0,
        0 <= r < laid_out(ts, keep, kids(ts, keep, i), d + 1, (fuel - 1) as nat).len(),
    ensures
        ({
            let row = laid_out(ts, keep, kids(ts, keep, i), d + 1, (fuel - 1) as nat)[r];
            &&& a > 0
            &&& ancestor(ts, ts[row.0].id, a) == Some(ts[i].id)
            &&& under(ts, ts[row.0].id, ts[i].id)
        }),
{
    let below = kids(ts, keep, i);
    lemma_siblings_are(ts, keep, Some(ts[i].id));
    let k = lemma_laid_out_rows(ts, keep, below, Some(ts[i].id), d + 1, (fuel - 1) as nat, r);
    let row = laid_out(ts, keep, below, d + 1, (fuel - 1) as nat)[r];
    lemma_parent_at(ts, below[k]);
    let n = (row.1 - (d + 1)) as nat;
    assert(ancestor(ts, ts[row.0].id, n + 1) == parent_of(ts, ts[below[k]].id));
    n + 1
}

/// Whether every row after `q`, up to and with `r`, is deeper than `q`.
pub open spec fn nested_until(rows: Seq<RowView>, q: int, r: int) -> bool {
    forall|m: int| q < m <= r ==> rows[q].depth < (#[trigger] rows[m]).depth
}

/// The displayed tree goes depth-first: what lies below a task follows its row
/// without a gap and deeper than it, and nothing above a task follows it.
pub proof fn law_tree_goes_depth_first(ts: Seq<TaskView>, keep: Seq<bool>, q: int, r: int)
    requires
        is_forest(ts),
        keep.len() == ts.len(),
        0 <= q < r < tree_rows(ts, keep).len(),
    ensures
        ({
            let rows = tree_rows(ts, keep);
            &&& under(ts, rows[r].task.id, rows[q].task.id) <==> nested_until(rows, q, r)
            &&& !under(ts, rows[q].task.id, rows[r].task.id)
        }),
{
    let all = layout(ts, keep);
    let rows = tree_rows(ts, keep);
    lemma_siblings_are(ts, keep, None);
    lemma_laid_out_nested(
        ts,
        keep,
        siblings(ts, keep, None, ts.len()),
        None,
        0,
        ts.len(),
        q,
        r,
    );
    assert(deeper_until(all, q, r) <==> nested_until(rows, q, r)) by {
        if deeper_until(all, q, r) {
            assert forall|m: int| q < m <= r implies rows[q].depth < (#[trigger] rows[m]).depth by {
                assert(all[q].1 < all[m].1);
            }
        }
        if nested_until(rows, q, r) {
            assert forall|m: int| q < m <= r implies all[q].1 < (#[trigger] all[m]).1 by {
                assert(rows[q].depth < rows[m].depth);
            }
        }
    }
}

/// A root is not indented. A subtask comes after its parent, one level deeper
/// than it, with nothing but other subtasks of the parent's tree in between.
pub proof fn law_subtasks_follow_their_parent(ts: Seq<TaskView>, keep: Seq<bool>, r: int)
    requires
        is_forest(ts),
        keep.len() == ts.len(),
        0 <= r < tree_rows(ts, keep).len(),
    ensures
        ({
            let rows = tree_rows(ts, keep);
            match rows[r].task.parent {
                None => rows[r].depth == 0,
                Some(p) => exists|q: int|
                    0 <= q < r && (#[trigger] rows[q]).task.id == p && rows[q].depth + 1
                        == rows[r].depth && nested_until(rows, q, r),
            }
        }),
{
    let all = layout(ts, keep);
    let rows = tree_rows(ts, keep);
    law_tree_shows_everything_once(ts, keep);
    let i = all[r].0;
    let x = ts[i].id;
    lemma_parent_at(ts, i);
    assert(rows[r].task == ts[i]);
    assert(ancestor(ts, x, 0) == Some(x));
    assert(ancestor(ts, x, 1) == ts[i].parent) by {
        reveal_with_fuel(ancestor, 2);
    }
    match ts[i].parent {
        None => {
            if rows[r].depth > 0 {
                lemma_ancestor_prefix(ts, x, 1, all[r].1);
            }
        },
        Some(p) => {
            assert(has_id(ts, x));
            lemma_shown_above(ts, keep, x, 1);
            crate::forest::lemma_ancestor_has_id(ts, x, 1);
            let j = choose|j: int| 0 <= j < ts.len() && (#[trigger] ts[j]).id == p;
            let q = choose|q: int| 0 <= q < all.len() && (#[trigger] all[q]).0 == j;
            assert(rows[q].task == ts[j]);
            assert(under(ts, x, p));
            // the parent has one ancestor less
            let e = all[q].1;
            lemma_ancestor_steps(ts, x, 1, e);
            lemma_ancestor_steps(ts, x, 1, e + 1);
            crate::forest::lemma_ancestor_end(ts, x, e + 1, all[r].1);
            crate::forest::lemma_ancestor_end(ts, x, all[r].1, e + 1);
            if r < q {
                law_tree_goes_depth_first(ts, keep, r, q);
            } else if q == r {
                assert(crate::forest::cyclic(ts, x));
            } else {
                law_tree_goes_depth_first(ts, keep, q, r);
            }
        },
    }
}

/// Asked for everything, the displayed tree of a forest shows every task: none
/// is left out of reach.
pub proof fn law_nothing_is_out_of_reach(ts: Seq<TaskView>, keep: Seq<bool>)
    requires
        is_forest(ts),
        keep.len() == ts.len(),
        forall|i: int| 0 <= i < keep.len() ==> keep[i],
    ensures
        tree_rows(ts, keep).len() == ts.len(),
        forall|j: int|
            0 <= j < ts.len() ==> exists|r: int|
                0 <= r < tree_rows(ts, keep).len() && (#[trigger] tree_rows(ts, keep)[r]).task
                    == #[trigger] ts[j] && !tree_rows(ts, keep)[r].context,
{
    let all = layout(ts, keep);
    law_tree_shows_everything_once(ts, keep);
    assert forall|j: int| 0 <= j < ts.len() implies exists|r: int|
        0 <= r < tree_rows(ts, keep).len() && (#[trigger] tree_rows(ts, keep)[r]).task
            == #[trigger] ts[j] && !tree_rows(ts, keep)[r].context by {
        lemma_all_shown(ts, keep, j);
        let r = choose|r: int| 0 <= r < all.len() && (#[trigger] all[r]).0 == j;
        assert(tree_rows(ts, keep)[r].task == ts[j]);
    }
    lemma_as_many_rows(ts, keep);
}

/// Whether the task at `j` is a match that a row holds.
pub open spec fn row_holds(row: RowView, ts: Seq<TaskView>, keep: Seq<bool>, j: int) -> bool {
    keep[j] && !row.context && row.task == ts[j]
}

/// Leaving out the rows that are there for context leaves the matches, each
/// once.
pub proof fn law_rows_hold_every_match_once(ts: Seq<TaskView>, keep: Seq<bool>)
    requires
        is_forest(ts),
        keep.len() == ts.len(),
    ensures
        forall|r: int, q: int|
            0 <= r < q < tree_rows(ts, keep).len() ==> (#[trigger] tree_rows(ts, keep)[r]).task.id
                != (#[trigger] tree_rows(ts, keep)[q]).task.id,
        forall|r: int|
            0 <= r < tree_rows(ts, keep).len() && !(#[trigger] tree_rows(ts, keep)[r]).context
                ==> exists|j: int|
                0 <= j < ts.len() && #[trigger] row_holds(tree_rows(ts, keep)[r], ts, keep, j),
        forall|j: int|
            0 <= j < ts.len() && #[trigger] keep[j] ==> exists|r: int|
                0 <= r < tree_rows(ts, keep).len() && row_holds(
                    #[trigger] tree_rows(ts, keep)[r],
                    ts,
                    keep,
                    j,
                ),
{
    let rows = tree_rows(ts, keep);
    assert forall|r: int, q: int| 0 <= r < q < rows.len() implies (#[trigger] rows[r]).task.id != (
    #[trigger] rows[q]).task.id by {
        lemma_rows_apart(ts, keep, r, q);
    }
    assert forall|r: int| 0 <= r < rows.len() && !(#[trigger] rows[r]).context implies exists|j: int|
        0 <= j < ts.len() && #[trigger] row_holds(rows[r], ts, keep, j) by {
        lemma_row_of_match(ts, keep, r);
    }
    assert forall|j: int| 0 <= j < ts.len() && #[trigger] keep[j] implies exists|r: int|
        0 <= r < rows.len() && row_holds(#[trigger] rows[r], ts, keep, j) by {
        lemma_match_has_row(ts, keep, j);
    }
}

proof fn lemma_rows_apart(ts: Seq<TaskView>, keep: Seq<bool>, r: int, q: int)
    requires
        is_forest(ts),
        keep.len() == ts.len(),
        0 <= r < q < tree_rows(ts, keep).len(),
    ensures
        tree_rows(ts, keep)[r].task.id != tree_rows(ts, keep)[q].task.id,
{
    law_tree_shows_everything_once(ts, keep);
    let i = layout(ts, keep)[r].0;
    let j = layout(ts, keep)[q].0;
    assert(i != j);
    if i < j {
        assert(ts[i].id != ts[j].id);
    } else {
        assert(ts[j].id != ts[i].id);
    }
}

proof fn lemma_row_of_match(ts: Seq<TaskView>, keep: Seq<bool>, r: int)
    requires
        is_forest(ts),
        keep.len() == ts.len(),
        0 <= r < tree_rows(ts, keep).len(),
        !tree_rows(ts, keep)[r].context,
    ensures
        exists|j: int|
            0 <= j < ts.len() && #[trigger] row_holds(tree_rows(ts, keep)[r], ts, keep, j),
{
    law_tree_shows_everything_once(ts, keep);
    let j = layout(ts, keep)[r].0;
    let k = choose|k: int| 0 <= k < ts.len() && keep[k] && (#[trigger] ts[k]).id == ts[j].id;
    if k < j {
        assert(ts[k].id != ts[j].id);
    } else if j < k {
        assert(ts[j].id != ts[k].id);
    }
    assert(row_holds(tree_rows(ts, keep)[r], ts, keep, k));
}

proof fn lemma_match_has_row(ts: Seq<TaskView>, keep: Seq<bool>, j: int)
    requires
        is_forest(ts),
        keep.len() == ts.len(),
        0 <= j < ts.len(),
        keep[j],
    ensures
        exists|r: int|
            0 <= r < tree_rows(ts, keep).len() && row_holds(
                #[trigger] tree_rows(ts, keep)[r],
                ts,
                keep,
                j,
            ),
{
    law_tree_shows_everything_once(ts, keep);
    lemma_all_shown(ts, keep, j);
    let r = choose|r: int|
        0 <= r < layout(ts, keep).len() && (#[trigger] layout(ts, keep)[r]).0 == j;
    assert(row_holds(tree_rows(ts, keep)[r], ts, keep, j));
}

proof fn lemma_all_shown(ts: Seq<TaskView>, keep: Seq<bool>, j: int)
    requires
        0 <= j < ts.len(),
        keep[j],
    ensures
        is_shown(ts, keep, ts[j].id),
        is_match(ts, keep, ts[j].id),
{
    assert(at_or_above(ts, ts[j].id, ts[j].id));
}

proof fn lemma_as_many_rows(ts: Seq<TaskView>, keep: Seq<bool>)
    requires
        is_forest(ts),
        keep.len() == ts.len(),
        forall|i: int| 0 <= i < keep.len() ==> keep[i],
    ensures
        layout(ts, keep).len() == ts.len(),
{
    let all = layout(ts, keep);
    law_tree_shows_everything_once(ts, keep);
    let rows = Seq::new(all.len(), |r: int| all[r].0);
    let every = Seq::new(ts.len(), |j: int| j);
    assert(rows.no_duplicates()) by {
        assert forall|r: int, q: int| 0 <= r < rows.len() && 0 <= q < rows.len() && r != q implies rows[r]
            != rows[q] by {
            if r < q {
                assert(all[r].0 != all[q].0);
            } else {
                assert(all[q].0 != all[r].0);
            }
        }
    }
    assert(every.no_duplicates());
    rows.unique_seq_to_set();
    every.unique_seq_to_set();
    assert forall|j: int| #[trigger] rows.contains(j) <==> every.contains(j) by {
        if rows.contains(j) {
            let r = choose|r: int| 0 <= r < rows.len() && rows[r] == j;
            assert(all[r].0 == j);
            assert(every[j] == j);
        }
        if every.contains(j) {
            lemma_all_shown(ts, keep, j);
            let r = choose|r: int| 0 <= r < all.len() && (#[trigger] all[r]).0 == j;
            assert(rows[r] == j);
        }
    }
    assert(rows.to_set() =~= every.to_set()) by {
        assert forall|j: int| rows.to_set().contains(j) <==> every.to_set().contains(j) by {
            assert(rows.contains(j) <==> every.contains(j));
        }
    }
}

/// Siblings come in order: work in progress first, finished work last, and
/// within a state by id.
pub proof fn law_siblings_are_sorted(ts: Seq<TaskView>, keep: Seq<bool>, p: Option<u32>, n: nat)
    requires
        n <= ts.len(),
    ensures
        forall|a: int, b: int|
            0 <= a < b < siblings(ts, keep, p, n).len() ==> sorts_by(
                ts[#[trigger] siblings(ts, keep, p, n)[a]],
                ts[#[trigger] siblings(ts, keep, p, n)[b]],
            ),
    decreases n,
{
    if n > 0 {
        law_siblings_are_sorted(ts, keep, p, (n - 1) as nat);
        lemma_placed_sorted(ts, siblings(ts, keep, p, (n - 1) as nat), n - 1);
    }
}

proof fn lemma_placed_sorted(ts: Seq<TaskView>, s: Seq<int>, i: int)
    requires
        forall|a: int, b: int|
            0 <= a < b < s.len() ==> sorts_by(ts[#[trigger] s[a]], ts[#[trigger] s[b]]),
    ensures
        forall|a: int, b: int|
            0 <= a < b < placed(ts, s, i).len() ==> sorts_by(
                ts[#[trigger] placed(ts, s, i)[a]],
                ts[#[trigger] placed(ts, s, i)[b]],
            ),
        forall|z: int|
            (forall|a: int| 0 <= a < s.len() ==> sorts_by(ts[#[trigger] s[a]], ts[z])) && sorts_by(
                ts[i],
                ts[z],
            ) ==> forall|a: int|
                0 <= a < placed(ts, s, i).len() ==> sorts_by(
                    ts[#[trigger] placed(ts, s, i)[a]],
                    #[trigger] ts[z],
                ),
    decreases s.len(),
{
    let q = placed(ts, s, i);
    if s.len() == 0 || sorts_by(ts[s.last()], ts[i]) {
        assert forall|a: int, b: int| 0 <= a < b < q.len() implies sorts_by(
            ts[#[trigger] q[a]],
            ts[#[trigger] q[b]],
        ) by {
            assert(q[a] == s[a]);
            if b == s.len() {
                assert(sorts_by(ts[s[a]], ts[s[s.len() - 1]]) || a == s.len() - 1);
            } else {
                assert(q[b] == s[b]);
            }
        }
        assert forall|z: int|
            (forall|a: int| 0 <= a < s.len() ==> sorts_by(ts[#[trigger] s[a]], ts[z])) && sorts_by(
                ts[i],
                ts[z],
            ) implies forall|a: int|
            0 <= a < q.len() ==> sorts_by(ts[#[trigger] q[a]], #[trigger] ts[z]) by {
            assert forall|a: int| 0 <= a < q.len() implies sorts_by(
                ts[#[trigger] q[a]],
                #[trigger] ts[z],
            ) by {
                if a < s.len() {
                    assert(q[a] == s[a]);
                }
            }
        }
    } else {
        let r = s.drop_last();
        let z = s.last();
        assert forall|a: int, b: int| 0 <= a < b < r.len() implies sorts_by(
            ts[#[trigger] r[a]],
            ts[#[trigger] r[b]],
        ) by {
            assert(r[a] == s[a] && r[b] == s[b]);
        }
        lemma_placed_sorted(ts, r, i);
        let w = placed(ts, r, i);
        assert forall|a: int| 0 <= a < r.len() implies sorts_by(ts[#[trigger] r[a]], ts[z]) by {
            assert(r[a] == s[a]);
            assert(s[s.len() - 1] == z);
        }
        assert(sorts_by(ts[i], ts[z]));
        assert forall|a: int| 0 <= a < w.len() implies sorts_by(ts[#[trigger] w[a]], ts[z]) by {}
        assert(q =~= w.push(z));
        assert forall|a: int, b: int| 0 <= a < b < q.len() implies sorts_by(
            ts[#[trigger] q[a]],
            ts[#[trigger] q[b]],
        ) by {
            assert(q[a] == w[a]);
            if b < w.len() {
                assert(q[b] == w[b]);
            }
        }
        assert forall|y: int|
            (forall|a: int| 0 <= a < s.len() ==> sorts_by(ts[#[trigger] s[a]], ts[y])) && sorts_by(
                ts[i],
                ts[y],
            ) implies forall|a: int|
            0 <= a < q.len() ==> sorts_by(ts[#[trigger] q[a]], #[trigger] ts[y]) by {
            assert forall|a: int| 0 <= a < r.len() implies sorts_by(ts[#[trigger] r[a]], ts[y]) by {
                assert(r[a] == s[a]);
            }
            assert forall|a: int| 0 <= a < q.len() implies sorts_by(
                ts[#[trigger] q[a]],
                #[trigger] ts[y],
            ) by {
                if a < w.len() {
                    assert(q[a] == w[a]);
                } else {
                    assert(s[s.len() - 1] == z);
                }
            }
        }
    }
}

/// Every row is a task that was asked for, or lies above one that was.
pub proof fn law_rows_are_matches_or_above_one(ts: Seq<TaskView>, keep: Seq<bool>, r: int) -> (j: int)
    requires
        is_forest(ts),
        keep.len() == ts.len(),
        0 <= r < tree_rows(ts, keep).len(),
    ensures
        ts.contains(tree_rows(ts, keep)[r].task),
        0 <= j < ts.len() && keep[j],
        tree_rows(ts, keep)[r].task.id == ts[j].id || under(
            ts,
            ts[j].id,
            tree_rows(ts, keep)[r].task.id,
        ),
{
    law_tree_shows_everything_once(ts, keep);
    let i = layout(ts, keep)[r].0;
    assert(tree_rows(ts, keep)[r].task == ts[i]);
    assert(is_shown(ts, keep, ts[i].id));
    choose|j: int| 0 <= j < ts.len() && keep[j] && at_or_above(ts, ts[i].id, (#[trigger] ts[j]).id)
}

/// Every task that was asked for has a row.
pub proof fn law_every_match_has_a_row(ts: Seq<TaskView>, keep: Seq<bool>, j: int) -> (r: int)
    requires
        is_forest(ts),
        keep.len() == ts.len(),
        0 <= j < ts.len(),
        keep[j],
    ensures
        0 <= r < tree_rows(ts, keep).len(),
        tree_rows(ts, keep)[r].task == ts[j],
        !tree_rows(ts, keep)[r].context,
{
    lemma_match_has_row(ts, keep, j);
    choose|r: int|
        0 <= r < tree_rows(ts, keep).len() && row_holds(
            #[trigger] tree_rows(ts, keep)[r],
            ts,
            keep,
            j,
        )
}

/// Siblings come in the order of their states, what is in progress first and
/// what is finished last, and by id among those in the same state.
pub proof fn law_work_in_progress_comes_first(ts: Seq<TaskView>, keep: Seq<bool>, q: int, r: int)
    requires
        is_forest(ts),
        keep.len() == ts.len(),
        0 <= q < r < tree_rows(ts, keep).len(),
        tree_rows(ts, keep)[q].task.parent == tree_rows(ts, keep)[r].task.parent,
    ensures
        ({
            let a = tree_rows(ts, keep)[q].task;
            let b = tree_rows(ts, keep)[r].task;
            &&& b.state == crate::task::State::Doing ==> a.state == crate::task::State::Doing
            &&& a.state == crate::task::State::Done ==> b.state == crate::task::State::Done
            &&& a.state == b.state ==> a.id < b.id
        }),
{
    let all = layout(ts, keep);
    let rows = tree_rows(ts, keep);
    law_tree_shows_everything_once(ts, keep);
    lemma_siblings_are(ts, keep, None);
    lemma_rows_apart(ts, keep, q, r);
    law_siblings_are_sorted(ts, keep, None, ts.len());
    assert(in_order(ts, siblings(ts, keep, None, ts.len())));
    lemma_laid_out_sorted(ts, keep, siblings(ts, keep, None, ts.len()), None, 0, ts.len(), q, r);
    assert(rows[q].task == ts[all[q].0]);
    assert(rows[r].task == ts[all[r].0]);
}

/// Whether a list of positions is in the order of its tasks.
spec fn in_order(ts: Seq<TaskView>, list: Seq<int>) -> bool {
    forall|a: int, b: int|
        0 <= a < b < list.len() ==> sorts_by(ts[#[trigger] list[a]], ts[#[trigger] list[b]])
}

/// In a layout of sorted siblings, any two rows with the same parent are sorted.
proof fn lemma_laid_out_sorted(
    ts: Seq<TaskView>,
    keep: Seq<bool>,
    list: Seq<int>,
    p: Option<u32>,
    d: nat,
    fuel: nat,
    q: int,
    r: int,
)
    requires
        is_forest(ts),
        are_siblings(ts, keep, list, p),
        in_order(ts, list),
        0 <= q < r < laid_out(ts, keep, list, d, fuel).len(),
        ts[laid_out(ts, keep, list, d, fuel)[q].0].parent == ts[laid_out(
            ts,
            keep,
            list,
            d,
            fuel,
        )[r].0].parent,
    ensures
        sorts_by(
            ts[laid_out(ts, keep, list, d, fuel)[q].0],
            ts[laid_out(ts, keep, list, d, fuel)[r].0],
        ),
    decreases fuel, list.len(),
{
    let all = laid_out(ts, keep, list, d, fuel);
    let i = list[0];
    let below = kids(ts, keep, i);
    let deeper = laid_out(ts, keep, below, d + 1, (fuel - 1) as nat);
    let rest = list.drop_first();
    let later = laid_out(ts, keep, rest, d, fuel);
    let n = 1 + deeper.len();
    let up = ts[i].id;
    lemma_siblings_are(ts, keep, Some(up));
    lemma_rest_are_siblings(ts, keep, list, p);
    assert(all[0] == (i, d));
    if q >= n {
        assert(all[q] == later[q - n]);
        assert(all[r] == later[r - n]);
        assert(in_order(ts, rest)) by {
            assert forall|a: int, b: int| 0 <= a < b < rest.len() implies sorts_by(
                ts[#[trigger] rest[a]],
                ts[#[trigger] rest[b]],
            ) by {
                assert(rest[a] == list[a + 1]);
                assert(rest[b] == list[b + 1]);
            }
        }
        lemma_laid_out_sorted(ts, keep, rest, p, d, fuel, q - n, r - n);
    } else if r < n && q > 0 {
        assert(all[q] == deeper[q - 1]);
        assert(all[r] == deeper[r - 1]);
        assert(in_order(ts, below)) by {
            law_siblings_are_sorted(ts, keep, Some(up), ts.len());
        }
        lemma_laid_out_sorted(
            ts,
            keep,
            below,
            Some(up),
            d + 1,
            (fuel - 1) as nat,
            q - 1,
            r - 1,
        );
    } else if r < n {
        // a row below the first has another parent than the first
        assert(all[r] == deeper[r - 1]);
        let a = lemma_deeper_is_under(ts, keep, i, d, fuel, r - 1);
        let j = all[r].0;
        let k = lemma_laid_out_rows(ts, keep, below, Some(up), d + 1, (fuel - 1) as nat, r - 1);
        lemma_not_sibling_of_above(ts, i, j);
    } else if q > 0 {
        // a row below the first, and one that comes with a later sibling
        assert(all[q] == deeper[q - 1]);
        assert(all[r] == later[r - n]);
        let a = lemma_deeper_is_under(ts, keep, i, d, fuel, q - 1);
        let x = ts[all[q].0].id;
        let y = ts[all[r].0].id;
        let k = lemma_laid_out_rows(ts, keep, below, Some(up), d + 1, (fuel - 1) as nat, q - 1);
        let m = lemma_laid_out_rows(ts, keep, rest, p, d, fuel, r - n);
        lemma_later_apart(ts, keep, list, p, d, fuel, r - n, x, a);
        // the parent of the one is at or below the first, so the other is below it too
        lemma_parent_at(ts, all[q].0);
        lemma_parent_at(ts, all[r].0);
        assert(ancestor(ts, x, 1) == ts[all[q].0].parent) by {
            reveal_with_fuel(ancestor, 2);
        }
        assert(ancestor(ts, y, 1) == ts[all[r].0].parent) by {
            reveal_with_fuel(ancestor, 2);
        }
        lemma_ancestor_steps(ts, x, 1, (a - 1) as nat);
        lemma_ancestor_steps(ts, y, 1, (a - 1) as nat);
        assert(ancestor(ts, y, a) == Some(up));
        let b = (all[r].1 - d) as nat;
        assert(rest[m] == list[m + 1]);
        assert(rest[m] != list[0]);
        lemma_siblings_apart(ts, y, a, b, i, rest[m]);
    } else {
        // the first, and one that comes with a later sibling
        assert(all[r] == later[r - n]);
        let m = lemma_laid_out_rows(ts, keep, rest, p, d, fuel, r - n);
        assert(rest[m] == list[m + 1]);
        let j = all[r].0;
        let b = (all[r].1 - d) as nat;
        if b == 0 {
            let k = rest[m];
            assert(ts[j].id == ts[k].id);
            if j < k {
                assert(ts[j].id != ts[k].id);
            } else if k < j {
                assert(ts[k].id != ts[j].id);
            }
            assert(sorts_by(ts[list[0]], ts[list[m + 1]]));
        } else {
            lemma_deeper_has_other_parent(ts, j, b, rest[m]);
        }
    }
}

/// What lies below a task has another parent than the task.
proof fn lemma_not_sibling_of_above(ts: Seq<TaskView>, i: int, j: int)
    requires
        is_forest(ts),
        0 <= i < ts.len(),
        0 <= j < ts.len(),
        under(ts, ts[j].id, ts[i].id),
    ensures
        ts[j].parent != ts[i].parent,
{
    let x = ts[j].id;
    let a = choose|a: nat| a > 0 && #[trigger] ancestor(ts, x, a) == Some(ts[i].id);
    lemma_parent_at(ts, i);
    lemma_parent_at(ts, j);
    assert(ancestor(ts, x, 1) == ts[j].parent) by {
        reveal_with_fuel(ancestor, 2);
    }
    lemma_ancestor_prefix(ts, x, 1, a);
    if ts[j].parent == ts[i].parent {
        let p = ts[j].parent->0;
        lemma_ancestor_steps(ts, x, 1, (a - 1) as nat);
        // the chain from the parent leads to the task, and on to the parent
        assert(ancestor(ts, p, (a - 1) as nat) == Some(ts[i].id));
        assert(ancestor(ts, p, a) == Some(p));
        assert(crate::forest::cyclic(ts, p));
    }
}

/// A task some way below another has another parent than that one.
proof fn lemma_deeper_has_other_parent(ts: Seq<TaskView>, j: int, b: nat, k: int)
    requires
        is_forest(ts),
        0 <= j < ts.len(),
        0 <= k < ts.len(),
        b > 0,
        ancestor(ts, ts[j].id, b) == Some(ts[k].id),
    ensures
        ts[j].parent != ts[k].parent,
{
    assert(under(ts, ts[j].id, ts[k].id));
    lemma_not_sibling_of_above(ts, k, j);
}

} // verus!
