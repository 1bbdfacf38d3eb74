//! Tasks as a forest.
//!
//! A task list is flat; each task names its parent by id. This module says what
//! parents, ancestors and subtrees are, for any list whatsoever, and walks them.

use crate::task::{Task, TaskView};
use std::collections::{HashMap, HashSet};
use vstd::prelude::*;

verus! {

broadcast use vstd::std_specs::hash::group_hash_axioms;

// ---------------------------------------------------------------------------
// The model
// ---------------------------------------------------------------------------

pub open spec fn task_views(v: Seq<Task>) -> Seq<TaskView> {
    Seq::new(v.len(), |i: int| v[i]@)
}

pub open spec fn ids_of(ts: Seq<TaskView>) -> Seq<u32> {
    Seq::new(ts.len(), |i: int| ts[i].id)
}

pub open spec fn has_id(ts: Seq<TaskView>, id: u32) -> bool {
    exists|i: int| 0 <= i < ts.len() && (#[trigger] ts[i]).id == id
}

pub open spec fn unique_ids(ts: Seq<TaskView>) -> bool {
    forall|i: int, j: int| 0 <= i < j < ts.len() ==> (#[trigger] ts[i]).id != (#[trigger] ts[j]).id
}

/// The parent of the task with this id; of the last one, should there be more.
pub open spec fn parent_of(ts: Seq<TaskView>, id: u32) -> Option<u32>
    decreases ts.len(),
{
    if ts.len() == 0 {
        None
    } else if ts.last().id == id {
        ts.last().parent
    } else {
        parent_of(ts.drop_last(), id)
    }
}

/// The ancestor `k` steps up from `id`; `id` itself is no steps up.
pub open spec fn ancestor(ts: Seq<TaskView>, id: u32, k: nat) -> Option<u32>
    decreases k,
{
    if k == 0 {
        Some(id)
    } else {
        match ancestor(ts, id, (k - 1) as nat) {
            Some(a) => parent_of(ts, a),
            None => None,
        }
    }
}

/// Whether `x` lies somewhere below `a`.
pub open spec fn under(ts: Seq<TaskView>, x: u32, a: u32) -> bool {
    exists|k: nat| k > 0 && #[trigger] ancestor(ts, x, k) == Some(a)
}

/// Whether `x` is its own ancestor.
pub open spec fn cyclic(ts: Seq<TaskView>, x: u32) -> bool {
    under(ts, x, x)
}

pub open spec fn acyclic(ts: Seq<TaskView>) -> bool {
    forall|x: u32| !#[trigger] cyclic(ts, x)
}

pub open spec fn parents_exist(ts: Seq<TaskView>) -> bool {
    forall|i: int| 0 <= i < ts.len() ==> match (#[trigger] ts[i]).parent {
        Some(p) => has_id(ts, p),
        None => true,
    }
}

/// A proper forest: every id stands for one task, every parent is there, and
/// every chain of parents ends at a root.
pub open spec fn is_forest(ts: Seq<TaskView>) -> bool {
    &&& unique_ids(ts)
    &&& parents_exist(ts)
    &&& acyclic(ts)
}

/// The ids of the tasks directly below `p`, in list order.
pub open spec fn children(ts: Seq<TaskView>, p: u32) -> Seq<u32>
    decreases ts.len(),
{
    if ts.len() == 0 {
        Seq::empty()
    } else if ts.last().parent == Some(p) {
        children(ts.drop_last(), p).push(ts.last().id)
    } else {
        children(ts.drop_last(), p)
    }
}

/// The children of each of `level` in turn.
pub open spec fn children_of_all(ts: Seq<TaskView>, level: Seq<u32>) -> Seq<u32>
    decreases level.len(),
{
    if level.len() == 0 {
        Seq::empty()
    } else {
        children_of_all(ts, level.drop_last()) + children(ts, level.last())
    }
}

/// `s` without what `seen` holds, and each id only where it occurs first.
pub open spec fn newcomers(s: Seq<u32>, seen: Set<u32>) -> Seq<u32>
    decreases s.len(),
{
    if s.len() == 0 {
        Seq::empty()
    } else {
        let rest = newcomers(s.drop_last(), seen);
        if seen.contains(s.last()) || rest.contains(s.last()) {
            rest
        } else {
            rest.push(s.last())
        }
    }
}

/// Everything below `level`, one level after the other, leaving out `seen`.
pub open spec fn levels_below(ts: Seq<TaskView>, level: Seq<u32>, seen: Set<u32>) -> Seq<u32>
    decreases ids_of(ts).to_set().difference(seen).len(),
    via levels_below_decreases
{
    let next = newcomers(children_of_all(ts, level), seen);
    if next.len() == 0 {
        Seq::empty()
    } else {
        next + levels_below(ts, next, seen.union(next.to_set()))
    }
}

#[via_fn]
proof fn levels_below_decreases(ts: Seq<TaskView>, level: Seq<u32>, seen: Set<u32>) {
    lemma_fewer_unseen(ts, level, seen);
}

/// Going down a level leaves fewer ids unseen.
pub proof fn lemma_fewer_unseen(ts: Seq<TaskView>, level: Seq<u32>, seen: Set<u32>)
    ensures
        newcomers(children_of_all(ts, level), seen).len() > 0 ==> ids_of(ts).to_set().difference(
            seen.union(newcomers(children_of_all(ts, level), seen).to_set()),
        ).len() < ids_of(ts).to_set().difference(seen).len(),
{
    let next = newcomers(children_of_all(ts, level), seen);
    if next.len() > 0 {
        lemma_newcomers(children_of_all(ts, level), seen);
        let all = ids_of(ts).to_set();
        let x = next[0];
        assert(next.contains(x));
        lemma_children_of_all(ts, level);
        assert(children_of_all(ts, level).contains(x));
        lemma_has_id_in_ids(ts, x);
        vstd::seq_lib::seq_to_set_is_finite(ids_of(ts));
        let a = all.difference(seen);
        let b = all.difference(seen.union(next.to_set()));
        assert(a.contains(x));
        assert(!b.contains(x));
        assert(b.subset_of(a.remove(x)));
        vstd::set_lib::lemma_len_subset(b, a.remove(x));
    }
}

/// Every task below `id`, breadth-first.
pub open spec fn below(ts: Seq<TaskView>, id: u32) -> Seq<u32> {
    levels_below(ts, seq![id], set![id])
}

/// `id` and everything below it.
pub open spec fn subtree(ts: Seq<TaskView>, id: u32) -> Set<u32> {
    below(ts, id).to_set().insert(id)
}

/// The chain of parents of `id`, nearest first, up to a root or to where it
/// would repeat itself.
pub open spec fn is_ancestry(ts: Seq<TaskView>, id: u32, out: Seq<u32>) -> bool {
    &&& forall|i: int|
        0 <= i < out.len() ==> ancestor(ts, id, (i + 1) as nat) == Some(#[trigger] out[i])
    &&& out.no_duplicates()
    &&& !out.contains(id)
    &&& match ancestor(ts, id, (out.len() + 1) as nat) {
        Some(p) => p == id || out.contains(p),
        None => true,
    }
}

// ---------------------------------------------------------------------------
// Facts about ids, parents and children
// ---------------------------------------------------------------------------

pub proof fn lemma_has_id_in_ids(ts: Seq<TaskView>, id: u32)
    ensures
        has_id(ts, id) <==> ids_of(ts).contains(id),
        has_id(ts, id) <==> ids_of(ts).to_set().contains(id),
{
    if has_id(ts, id) {
        let i = choose|i: int| 0 <= i < ts.len() && (#[trigger] ts[i]).id == id;
        assert(ids_of(ts)[i] == id);
    }
    if ids_of(ts).contains(id) {
        let i = choose|i: int| 0 <= i < ids_of(ts).len() && ids_of(ts)[i] == id;
        assert(ts[i].id == id);
    }
}

pub proof fn lemma_parent_of(ts: Seq<TaskView>, id: u32)
    ensures
        !has_id(ts, id) ==> parent_of(ts, id) is None,
        has_id(ts, id) ==> exists|i: int|
            0 <= i < ts.len() && (#[trigger] ts[i]).id == id && ts[i].parent == parent_of(ts, id),
    decreases ts.len(),
{
    if ts.len() > 0 {
        let rest = ts.drop_last();
        lemma_parent_of(rest, id);
        if ts.last().id == id {
            assert(ts[ts.len() - 1].id == id);
        } else {
            if has_id(ts, id) {
                let i = choose|i: int| 0 <= i < ts.len() && (#[trigger] ts[i]).id == id;
                assert(rest[i].id == id);
                let j = choose|j: int|
                    0 <= j < rest.len() && (#[trigger] rest[j]).id == id && rest[j].parent
                        == parent_of(rest, id);
                assert(ts[j].id == id && ts[j].parent == parent_of(ts, id));
            } else {
                assert forall|i: int| 0 <= i < rest.len() implies (#[trigger] rest[i]).id != id by {
                    assert(ts[i].id != id);
                }
            }
        }
    }
}

/// With unique ids, the parent of a task's id is the task's parent.
pub proof fn lemma_parent_at(ts: Seq<TaskView>, i: int)
    requires
        unique_ids(ts),
        0 <= i < ts.len(),
    ensures
        parent_of(ts, ts[i].id) == ts[i].parent,
{
    lemma_parent_of(ts, ts[i].id);
    assert(ts[i].id == ts[i].id);
    let j = choose|j: int|
        0 <= j < ts.len() && (#[trigger] ts[j]).id == ts[i].id && ts[j].parent == parent_of(
            ts,
            ts[i].id,
        );
    if i < j {
        assert(ts[i].id != ts[j].id);
    }
    if j < i {
        assert(ts[j].id != ts[i].id);
    }
}

pub proof fn lemma_children(ts: Seq<TaskView>, p: u32)
    ensures
        forall|c: u32| #[trigger]
            children(ts, p).contains(c) <==> exists|i: int|
                0 <= i < ts.len() && (#[trigger] ts[i]).id == c && ts[i].parent == Some(p),
    decreases ts.len(),
{
    if ts.len() > 0 {
        let rest = ts.drop_last();
        lemma_children(rest, p);
        let n = ts.len() - 1;
        assert forall|c: u32| #[trigger]
            children(ts, p).contains(c) <==> exists|i: int|
                0 <= i < ts.len() && (#[trigger] ts[i]).id == c && ts[i].parent == Some(p) by {
            if children(ts, p).contains(c) {
                if ts.last().parent == Some(p) && ts.last().id == c {
                    assert(ts[n].id == c && ts[n].parent == Some(p));
                } else {
                    let j = choose|j: int| 0 <= j < children(ts, p).len() && children(ts, p)[j] == c;
                    assert(children(rest, p)[j] == c);
                    assert(children(rest, p).contains(c));
                    let i = choose|i: int|
                        0 <= i < rest.len() && (#[trigger] rest[i]).id == c && rest[i].parent
                            == Some(p);
                    assert(ts[i].id == c && ts[i].parent == Some(p));
                }
            }
            if exists|i: int| 0 <= i < ts.len() && (#[trigger] ts[i]).id == c && ts[i].parent == Some(p) {
                let i = choose|i: int|
                    0 <= i < ts.len() && (#[trigger] ts[i]).id == c && ts[i].parent == Some(p);
                if i == n {
                    assert(children(ts, p).last() == c);
                } else {
                    assert(rest[i].id == c && rest[i].parent == Some(p));
                    assert(children(rest, p).contains(c));
                    let j = choose|j: int| 0 <= j < children(rest, p).len() && children(rest, p)[j] == c;
                    assert(children(ts, p)[j] == c);
                }
            }
        }
    }
}

pub proof fn lemma_children_of_all(ts: Seq<TaskView>, level: Seq<u32>)
    ensures
        forall|c: u32| #[trigger]
            children_of_all(ts, level).contains(c) <==> exists|j: int|
                0 <= j < level.len() && children(ts, #[trigger] level[j]).contains(c),
        forall|c: u32| #[trigger] children_of_all(ts, level).contains(c) ==> has_id(ts, c),
    decreases level.len(),
{
    if level.len() > 0 {
        let rest = level.drop_last();
        lemma_children_of_all(ts, rest);
        let n = level.len() - 1;
        assert forall|c: u32| #[trigger]
            children_of_all(ts, level).contains(c) <==> exists|j: int|
                0 <= j < level.len() && children(ts, #[trigger] level[j]).contains(c) by {
            let a = children_of_all(ts, rest);
            let b = children(ts, level.last());
            if (a + b).contains(c) {
                let k = choose|k: int| 0 <= k < (a + b).len() && (a + b)[k] == c;
                if k < a.len() {
                    assert(a[k] == c);
                    assert(a.contains(c));
                    let j = choose|j: int|
                        0 <= j < rest.len() && children(ts, #[trigger] rest[j]).contains(c);
                    assert(children(ts, level[j]).contains(c));
                } else {
                    assert(b[k - a.len()] == c);
                    assert(children(ts, level[n]).contains(c));
                }
            }
            if exists|j: int| 0 <= j < level.len() && children(ts, #[trigger] level[j]).contains(c) {
                let j = choose|j: int|
                    0 <= j < level.len() && children(ts, #[trigger] level[j]).contains(c);
                if j == n {
                    let k = choose|k: int| 0 <= k < b.len() && b[k] == c;
                    assert((a + b)[a.len() + k] == c);
                } else {
                    assert(children(ts, rest[j]).contains(c));
                    assert(a.contains(c));
                    let k = choose|k: int| 0 <= k < a.len() && a[k] == c;
                    assert((a + b)[k] == c);
                }
            }
        }
        assert forall|c: u32| #[trigger] children_of_all(ts, level).contains(c) implies has_id(ts, c) by {
            let j = choose|j: int|
                0 <= j < level.len() && children(ts, #[trigger] level[j]).contains(c);
            lemma_children(ts, level[j]);
        }
    }
}

pub proof fn lemma_newcomers(s: Seq<u32>, seen: Set<u32>)
    ensures
        newcomers(s, seen).no_duplicates(),
        forall|x: u32| #[trigger]
            newcomers(s, seen).contains(x) <==> s.contains(x) && !seen.contains(x),
    decreases s.len(),
{
    if s.len() > 0 {
        let rest = s.drop_last();
        lemma_newcomers(rest, seen);
        let r = newcomers(rest, seen);
        let n = newcomers(s, seen);
        assert forall|x: u32| #[trigger] n.contains(x) <==> s.contains(x) && !seen.contains(x) by {
            if n.contains(x) && !r.contains(x) {
                let k = choose|k: int| 0 <= k < n.len() && n[k] == x;
                if k < r.len() {
                    assert(r[k] == x);
                }
                assert(x == s.last());
                assert(s[s.len() - 1] == x);
            }
            if r.contains(x) {
                let k = choose|k: int| 0 <= k < r.len() && r[k] == x;
                assert(n[k] == x);
                assert(rest.contains(x));
                let m = choose|m: int| 0 <= m < rest.len() && rest[m] == x;
                assert(s[m] == x);
            }
            if s.contains(x) && !seen.contains(x) {
                let m = choose|m: int| 0 <= m < s.len() && s[m] == x;
                if m < rest.len() {
                    assert(rest[m] == x);
                    assert(r.contains(x));
                } else if !r.contains(x) {
                    assert(n.last() == x);
                }
            }
        }
    }
}

// ---------------------------------------------------------------------------
// Facts about ancestors
// ---------------------------------------------------------------------------

/// Climbing `a` steps and then `b` more is climbing `a + b` steps.
pub proof fn lemma_ancestor_steps(ts: Seq<TaskView>, id: u32, a: nat, b: nat)
    ensures
        ancestor(ts, id, a + b) == match ancestor(ts, id, a) {
            Some(x) => ancestor(ts, x, b),
            None => None,
        },
    decreases b,
{
    if b > 0 {
        lemma_ancestor_steps(ts, id, a, (b - 1) as nat);
    }
}

/// Below the end of a chain there is nothing missing.
pub proof fn lemma_ancestor_prefix(ts: Seq<TaskView>, id: u32, a: nat, b: nat)
    requires
        a <= b,
        ancestor(ts, id, b) is Some,
    ensures
        ancestor(ts, id, a) is Some,
{
    lemma_ancestor_steps(ts, id, a, (b - a) as nat);
}

/// Distinct elements of a sequence are no more than its length.
pub proof fn lemma_distinct_fit(a: Seq<u32>, b: Seq<u32>)
    requires
        a.no_duplicates(),
        forall|x: u32| #[trigger] a.contains(x) ==> b.contains(x),
    ensures
        a.len() <= b.len(),
{
    a.unique_seq_to_set();
    b.lemma_cardinality_of_set();
    vstd::seq_lib::seq_to_set_is_finite(a);
    vstd::seq_lib::seq_to_set_is_finite(b);
    assert(a.to_set().subset_of(b.to_set())) by {
        assert forall|x: u32| a.to_set().contains(x) implies b.to_set().contains(x) by {
            assert(a.contains(x));
        }
    }
    vstd::set_lib::lemma_len_subset(a.to_set(), b.to_set());
}

/// The chain of ids from `id` upwards, `n` of them.
pub open spec fn chain(ts: Seq<TaskView>, id: u32, n: nat) -> Seq<u32> {
    Seq::new(n, |k: int| ancestor(ts, id, k as nat)->0)
}

/// In a forest no chain of parents is longer than the list.
pub proof fn lemma_chain_fits(ts: Seq<TaskView>, id: u32, k: nat)
    requires
        acyclic(ts),
        has_id(ts, id),
        parents_exist(ts),
        ancestor(ts, id, k) is Some,
    ensures
        k < ts.len(),
{
    let c = chain(ts, id, k + 1);
    assert forall|i: int, j: int| 0 <= i < j < c.len() implies c[i] != c[j] by {
        lemma_ancestor_prefix(ts, id, i as nat, k);
        lemma_ancestor_prefix(ts, id, j as nat, k);
        lemma_ancestor_steps(ts, id, i as nat, (j - i) as nat);
        if c[i] == c[j] {
            assert(ancestor(ts, c[i], (j - i) as nat) == Some(c[i]));
            assert(cyclic(ts, c[i]));
        }
    }
    assert forall|x: u32| #[trigger] c.contains(x) implies ids_of(ts).contains(x) by {
        let i = choose|i: int| 0 <= i < c.len() && c[i] == x;
        lemma_ancestor_prefix(ts, id, i as nat, k);
        lemma_ancestor_has_id(ts, id, i as nat);
        lemma_has_id_in_ids(ts, x);
    }
    lemma_distinct_fit(c, ids_of(ts));
}

/// Where every parent is there, so is every ancestor.
pub proof fn lemma_ancestor_has_id(ts: Seq<TaskView>, id: u32, k: nat)
    requires
        has_id(ts, id),
        parents_exist(ts),
        ancestor(ts, id, k) is Some,
    ensures
        has_id(ts, ancestor(ts, id, k)->0),
    decreases k,
{
    if k > 0 {
        lemma_ancestor_prefix(ts, id, (k - 1) as nat, k);
        let a = ancestor(ts, id, (k - 1) as nat)->0;
        lemma_ancestor_has_id(ts, id, (k - 1) as nat);
        lemma_parent_of(ts, a);
    }
}

/// The end of a chain of parents is unique: two chains from one id to roots of
/// the same kind have the same length.
pub proof fn lemma_ancestor_end(ts: Seq<TaskView>, id: u32, a: nat, b: nat)
    requires
        ancestor(ts, id, a) is Some,
        ancestor(ts, id, a + 1) is None,
        ancestor(ts, id, b) is Some,
    ensures
        b <= a,
{
    if b > a {
        lemma_ancestor_prefix(ts, id, a + 1, b);
    }
}

// ---------------------------------------------------------------------------
// Facts about what lies below
// ---------------------------------------------------------------------------

pub proof fn lemma_levels_below(ts: Seq<TaskView>, level: Seq<u32>, seen: Set<u32>)
    requires
        forall|x: u32| #[trigger] level.contains(x) ==> seen.contains(x),
    ensures
        levels_below(ts, level, seen).no_duplicates(),
        forall|x: u32| #[trigger]
            levels_below(ts, level, seen).contains(x) ==> !seen.contains(x) && has_id(ts, x),
        // closed under children
        forall|x: u32, c: u32|
            (level.contains(x) || levels_below(ts, level, seen).contains(x)) && #[trigger] children(
                ts,
                x,
            ).contains(c) ==> seen.contains(c) || levels_below(ts, level, seen).contains(c),
        // every one a child of one that came before
        forall|c: u32| #[trigger]
            levels_below(ts, level, seen).contains(c) ==> exists|x: u32|
                (level.contains(x) || levels_below(ts, level, seen).contains(x)) && #[trigger] children(
                    ts,
                    x,
                ).contains(c),
    decreases ids_of(ts).to_set().difference(seen).len(),
{
    let kids = children_of_all(ts, level);
    let next = newcomers(kids, seen);
    let out = levels_below(ts, level, seen);
    lemma_newcomers(kids, seen);
    lemma_children_of_all(ts, level);
    if next.len() > 0 {
        lemma_fewer_unseen(ts, level, seen);
        let wider = seen.union(next.to_set());
        let deeper = levels_below(ts, next, wider);
        assert forall|x: u32| #[trigger] next.contains(x) implies wider.contains(x) by {
            assert(next.to_set().contains(x));
        }
        lemma_levels_below(ts, next, wider);
        lemma_contains_concat(next, deeper);
        assert forall|i: int, j: int| 0 <= i < j < out.len() implies out[i] != out[j] by {
            if i < next.len() && j >= next.len() {
                assert(deeper.contains(deeper[j - next.len()]));
                assert(next.contains(next[i]));
                assert(wider.contains(next[i]));
            }
        }
        assert forall|x: u32, c: u32|
            (level.contains(x) || out.contains(x)) && #[trigger] children(ts, x).contains(
                c,
            ) implies seen.contains(c) || out.contains(c) by {
            if level.contains(x) {
                let j = choose|j: int| 0 <= j < level.len() && level[j] == x;
                assert(children(ts, level[j]).contains(c));
                assert(kids.contains(c));
            } else {
                assert(next.contains(x) || deeper.contains(x));
                if wider.contains(c) && !seen.contains(c) {
                    assert(next.to_set().contains(c));
                    assert(next.contains(c));
                }
            }
        }
        assert forall|c: u32| #[trigger] out.contains(c) implies exists|x: u32|
            (level.contains(x) || out.contains(x)) && #[trigger] children(ts, x).contains(c) by {
            if next.contains(c) {
                assert(kids.contains(c));
                let j = choose|j: int|
                    0 <= j < level.len() && children(ts, #[trigger] level[j]).contains(c);
                assert(level.contains(level[j]));
            } else {
                assert(deeper.contains(c));
                let x = choose|x: u32|
                    (next.contains(x) || deeper.contains(x)) && #[trigger] children(
                        ts,
                        x,
                    ).contains(c);
                assert(out.contains(x));
            }
        }
    } else {
        assert forall|x: u32, c: u32|
            level.contains(x) && #[trigger] children(ts, x).contains(c) implies seen.contains(c) by {
            let j = choose|j: int| 0 <= j < level.len() && level[j] == x;
            assert(children(ts, level[j]).contains(c));
            assert(kids.contains(c));
            if !seen.contains(c) {
                assert(next.contains(c));
            }
        }
    }
}

pub proof fn lemma_contains_concat(a: Seq<u32>, b: Seq<u32>)
    ensures
        forall|x: u32| #[trigger] (a + b).contains(x) <==> a.contains(x) || b.contains(x),
{
    assert forall|x: u32| #[trigger] (a + b).contains(x) <==> a.contains(x) || b.contains(x) by {
        if a.contains(x) {
            let i = choose|i: int| 0 <= i < a.len() && a[i] == x;
            assert((a + b)[i] == x);
        }
        if b.contains(x) {
            let i = choose|i: int| 0 <= i < b.len() && b[i] == x;
            assert((a + b)[a.len() + i] == x);
        }
    }
}

/// Every subtask is a task.
pub proof fn lemma_below_held(ts: Seq<TaskView>, id: u32)
    ensures
        forall|x: u32| #[trigger] below(ts, id).contains(x) ==> has_id(ts, x),
        has_id(ts, id) ==> forall|x: u32| #[trigger]
            subtree(ts, id).contains(x) ==> has_id(ts, x),
{
    let level = seq![id];
    let seen = set![id];
    assert forall|x: u32| #[trigger] level.contains(x) implies seen.contains(x) by {
        assert(x == id);
    }
    lemma_levels_below(ts, level, seen);
    assert forall|x: u32| #[trigger] subtree(ts, id).contains(x) implies below(ts, id).contains(x)
        || x == id by {
        assert(below(ts, id).to_set().contains(x) <==> below(ts, id).contains(x));
    }
}

/// A breadth-first walk finds exactly what lies below, each task once.
pub proof fn lemma_below(ts: Seq<TaskView>, id: u32)
    requires
        unique_ids(ts),
    ensures
        below(ts, id).no_duplicates(),
        !below(ts, id).contains(id),
        forall|x: u32| #[trigger]
            below(ts, id).contains(x) <==> x != id && has_id(ts, x) && under(ts, x, id),
{
    let level = seq![id];
    let seen = set![id];
    let out = below(ts, id);
    assert forall|x: u32| #[trigger] level.contains(x) implies seen.contains(x) by {
        assert(x == id);
    }
    assert(level[0] == id);
    assert(level.contains(id));
    lemma_levels_below(ts, level, seen);
    assert(seen.contains(id));
    assert forall|x: u32| #[trigger] out.contains(x) implies under(ts, x, id) by {
        let i = choose|i: int| 0 <= i < out.len() && out[i] == x;
        lemma_found_is_under(ts, level, seen, id, i);
    }
    assert forall|x: u32| x != id && has_id(ts, x) && under(ts, x, id) implies #[trigger] out.contains(x) by {
        let k = choose|k: nat| k > 0 && #[trigger] ancestor(ts, x, k) == Some(id);
        lemma_under_is_found(ts, id, x, k);
    }
}

/// In a forest, one task is at most one distance below another.
proof fn lemma_one_distance(ts: Seq<TaskView>, x: u32, id: u32, a: nat, b: nat)
    requires
        acyclic(ts),
        ancestor(ts, x, a) == Some(id),
        ancestor(ts, x, b) == Some(id),
    ensures
        a == b,
{
    if a < b {
        lemma_ancestor_steps(ts, x, a, (b - a) as nat);
        assert(cyclic(ts, id));
    } else if b < a {
        lemma_ancestor_steps(ts, x, b, (a - b) as nat);
        assert(cyclic(ts, id));
    }
}

/// The distances at which a walk finds two tasks, where all of `level` is at one
/// distance.
proof fn lemma_found_at(
    ts: Seq<TaskView>,
    level: Seq<u32>,
    seen: Set<u32>,
    id: u32,
    d: nat,
    i: int,
    j: int,
) -> (r: (nat, nat))
    requires
        unique_ids(ts),
        0 <= i <= j < levels_below(ts, level, seen).len(),
        forall|x: u32| #[trigger] level.contains(x) ==> ancestor(ts, x, d) == Some(id),
    ensures
        d < r.0 <= r.1,
        ancestor(ts, levels_below(ts, level, seen)[i], r.0) == Some(id),
        ancestor(ts, levels_below(ts, level, seen)[j], r.1) == Some(id),
    decreases ids_of(ts).to_set().difference(seen).len(),
{
    let kids = children_of_all(ts, level);
    let next = newcomers(kids, seen);
    let out = levels_below(ts, level, seen);
    lemma_newcomers(kids, seen);
    lemma_children_of_all(ts, level);
    assert(next.len() > 0);
    lemma_fewer_unseen(ts, level, seen);
    assert forall|c: u32| #[trigger] next.contains(c) implies ancestor(ts, c, d + 1) == Some(id) by {
        assert(kids.contains(c));
        let k = choose|k: int| 0 <= k < level.len() && children(ts, #[trigger] level[k]).contains(c);
        let p = level[k];
        assert(level.contains(p));
        lemma_children(ts, p);
        let n = choose|n: int| 0 <= n < ts.len() && (#[trigger] ts[n]).id == c && ts[n].parent == Some(p);
        lemma_parent_at(ts, n);
        assert(ancestor(ts, c, 1) == Some(p)) by {
            reveal_with_fuel(ancestor, 2);
        }
        lemma_ancestor_steps(ts, c, 1, d);
    }
    let wider = seen.union(next.to_set());
    let deeper = levels_below(ts, next, wider);
    assert(out == next + deeper);
    let n = next.len() as int;
    if i < n {
        assert(next.contains(next[i]));
        assert(out[i] == next[i]);
        if j < n {
            assert(next.contains(next[j]));
            assert(out[j] == next[j]);
            (d + 1, d + 1)
        } else {
            let r = lemma_found_at(ts, next, wider, id, d + 1, j - n, j - n);
            assert(out[j] == deeper[j - n]);
            (d + 1, r.1)
        }
    } else {
        let r = lemma_found_at(ts, next, wider, id, d + 1, i - n, j - n);
        assert(out[i] == deeper[i - n]);
        assert(out[j] == deeper[j - n]);
        r
    }
}

/// Of the tasks below another, the nearer ones come first.
pub proof fn law_nearer_subtasks_come_first(ts: Seq<TaskView>, id: u32, i: int, j: int, a: nat, b: nat)
    requires
        is_forest(ts),
        0 <= i <= j < below(ts, id).len(),
        ancestor(ts, below(ts, id)[i], a) == Some(id),
        ancestor(ts, below(ts, id)[j], b) == Some(id),
    ensures
        a <= b,
{
    let level = seq![id];
    assert forall|x: u32| #[trigger] level.contains(x) implies ancestor(ts, x, 0) == Some(id) by {
        assert(x == id);
    }
    let r = lemma_found_at(ts, level, set![id], id, 0, i, j);
    lemma_one_distance(ts, below(ts, id)[i], id, a, r.0);
    lemma_one_distance(ts, below(ts, id)[j], id, b, r.1);
}

/// Whatever a walk from `level` finds lies below `id`, where `level` does.
proof fn lemma_found_is_under(ts: Seq<TaskView>, level: Seq<u32>, seen: Set<u32>, id: u32, i: int)
    requires
        unique_ids(ts),
        0 <= i < levels_below(ts, level, seen).len(),
        forall|x: u32| #[trigger] level.contains(x) ==> x == id || under(ts, x, id),
    ensures
        under(ts, levels_below(ts, level, seen)[i], id),
    decreases ids_of(ts).to_set().difference(seen).len(),
{
    let kids = children_of_all(ts, level);
    let next = newcomers(kids, seen);
    lemma_newcomers(kids, seen);
    lemma_children_of_all(ts, level);
    assert(next.len() > 0);
    lemma_fewer_unseen(ts, level, seen);
    assert forall|c: u32| #[trigger] next.contains(c) implies under(ts, c, id) by {
        assert(kids.contains(c));
        let j = choose|j: int| 0 <= j < level.len() && children(ts, #[trigger] level[j]).contains(c);
        let p = level[j];
        assert(level.contains(p));
        lemma_children(ts, p);
        let n = choose|n: int| 0 <= n < ts.len() && (#[trigger] ts[n]).id == c && ts[n].parent == Some(p);
        lemma_parent_at(ts, n);
        lemma_child_is_under(ts, c, p, id);
    }
    if i < next.len() {
        assert(next.contains(next[i]));
    } else {
        lemma_found_is_under(ts, next, seen.union(next.to_set()), id, i - next.len());
    }
}

pub proof fn lemma_child_is_under(ts: Seq<TaskView>, c: u32, p: u32, a: u32)
    requires
        parent_of(ts, c) == Some(p),
        p == a || under(ts, p, a),
    ensures
        under(ts, c, a),
{
    assert(ancestor(ts, c, 0) == Some(c));
    assert(ancestor(ts, c, 1) == Some(p)) by {
        reveal_with_fuel(ancestor, 2);
    }
    if p != a {
        let k = choose|k: nat| k > 0 && #[trigger] ancestor(ts, p, k) == Some(a);
        lemma_ancestor_steps(ts, c, 1, k);
        assert(ancestor(ts, c, 1 + k) == Some(a));
    }
}

proof fn lemma_under_is_found(ts: Seq<TaskView>, id: u32, x: u32, k: nat)
    requires
        unique_ids(ts),
        k > 0,
        x != id,
        has_id(ts, x),
        ancestor(ts, x, k) == Some(id),
    ensures
        below(ts, id).contains(x),
    decreases k,
{
    let level = seq![id];
    let seen = set![id];
    let out = below(ts, id);
    assert forall|y: u32| #[trigger] level.contains(y) implies seen.contains(y) by {
        assert(y == id);
    }
    assert(level[0] == id);
    assert(level.contains(id));
    lemma_levels_below(ts, level, seen);
    assert(ancestor(ts, x, 0) == Some(x));
    lemma_ancestor_prefix(ts, x, 1, k);
    assert(ancestor(ts, x, 1) == parent_of(ts, x)) by {
        reveal_with_fuel(ancestor, 2);
    }
    let p = parent_of(ts, x)->0;
    lemma_parent_of(ts, x);
    let n = choose|n: int| 0 <= n < ts.len() && (#[trigger] ts[n]).id == x && ts[n].parent == parent_of(ts, x);
    lemma_children(ts, p);
    assert(children(ts, p).contains(x));
    if p == id {
        assert(seen.contains(x) || out.contains(x));
    } else {
        lemma_ancestor_steps(ts, x, 1, (k - 1) as nat);
        assert(ancestor(ts, p, (k - 1) as nat) == Some(id));
        if k == 1 {
            assert(false);
        }
        lemma_ancestor_has_task(ts, p, (k - 1) as nat);
        lemma_under_is_found(ts, id, p, (k - 1) as nat);
        assert(seen.contains(x) || out.contains(x));
    }
}

/// Only a task that is there has a parent.
proof fn lemma_ancestor_has_task(ts: Seq<TaskView>, x: u32, k: nat)
    requires
        k > 0,
        ancestor(ts, x, k) is Some,
    ensures
        has_id(ts, x),
{
    lemma_ancestor_prefix(ts, x, 1, k);
    assert(ancestor(ts, x, 1) == parent_of(ts, x)) by {
        reveal_with_fuel(ancestor, 2);
    }
    lemma_parent_of(ts, x);
}

// ---------------------------------------------------------------------------
// Walking
// ---------------------------------------------------------------------------

/// Who the parent of each task is.
pub struct Parents {
    map: HashMap<u32, Option<u32>>,
}

impl Parents {
    pub closed spec fn of(self, ts: Seq<TaskView>) -> bool {
        forall|id: u32|
            parent_of(ts, id) == (if #[trigger] self.map@.contains_key(id) {
                self.map@[id]
            } else {
                None
            })
    }

    pub fn index(tasks: &Vec<Task>) -> (r: Parents)
        ensures
            r.of(task_views(tasks@)),
    {
        let ghost ts = task_views(tasks@);
        let mut map: HashMap<u32, Option<u32>> = HashMap::new();
        let mut i: usize = 0;
        while i < tasks.len()
            invariant
                i <= tasks@.len(),
                ts == task_views(tasks@),
                forall|id: u32|
                    parent_of(ts.take(i as int), id) == (if #[trigger] map@.contains_key(id) {
                        map@[id]
                    } else {
                        None
                    }),
            decreases tasks@.len() - i,
        {
            map.insert(tasks[i].id, tasks[i].parent);
            assert(ts.take(i + 1).drop_last() =~= ts.take(i as int));
            i += 1;
        }
        assert(ts.take(i as int) =~= ts);
        Parents { map }
    }

    pub fn get(&self, id: u32, Ghost(ts): Ghost<Seq<TaskView>>) -> (r: Option<u32>)
        requires
            self.of(ts),
        ensures
            r == parent_of(ts, id),
    {
        match self.map.get(&id) {
            Some(p) => *p,
            None => {
                assert(!self.map@.contains_key(id));
                None
            },
        }
    }

    /// The chain of parents of `id`, nearest first.
    pub fn climb(&self, id: u32, Ghost(ts): Ghost<Seq<TaskView>>) -> (out: Vec<u32>)
        requires
            self.of(ts),
        ensures
            is_ancestry(ts, id, out@),
    {
        let mut out: Vec<u32> = Vec::new();
        let mut seen: HashSet<u32> = HashSet::new();
        seen.insert(id);
        let mut cur: u32 = id;
        loop
            invariant
                self.of(ts),
                forall|i: int|
                    0 <= i < out@.len() ==> ancestor(ts, id, (i + 1) as nat) == Some(#[trigger] out@[i]),
                out@.no_duplicates(),
                !out@.contains(id),
                ancestor(ts, id, out@.len()) == Some(cur),
                forall|x: u32| #[trigger] seen@.contains(x) <==> x == id || out@.contains(x),
            decreases ts.len() + 1 - out@.len(),
        {
            assert(ancestor(ts, id, (out@.len() + 1) as nat) == parent_of(ts, cur));
            let p: u32 = match self.get(cur, Ghost(ts)) {
                Some(p) => p,
                None => {
                    return out;
                },
            };
            if seen.contains(&p) {
                return out;
            }
            proof {
                lemma_climb_ends(ts, id, out@);
            }
            let ghost before = out@;
            seen.insert(p);
            out.push(p);
            assert(before.push(p) =~= out@);
            assert forall|x: u32| #[trigger] out@.contains(x) <==> before.contains(x) || x == p by {
                lemma_contains_concat(before, seq![p]);
                assert(before + seq![p] =~= out@);
                if x == p {
                    assert(seq![p][0] == p);
                    assert(seq![p].contains(p));
                }
            }
            cur = p;
        }
    }
}

/// The steps of a climb are tasks, so there are no more of them than tasks.
proof fn lemma_climb_ends(ts: Seq<TaskView>, id: u32, out: Seq<u32>)
    requires
        forall|i: int|
            0 <= i < out.len() ==> ancestor(ts, id, (i + 1) as nat) == Some(#[trigger] out[i]),
        out.no_duplicates(),
        ancestor(ts, id, (out.len() + 1) as nat) is Some,
    ensures
        out.len() <= ts.len(),
{
    assert forall|x: u32| #[trigger] out.contains(x) implies ids_of(ts).contains(x) by {
        let i = choose|i: int| 0 <= i < out.len() && out[i] == x;
        lemma_ancestor_steps(ts, id, (i + 1) as nat, (out.len() - i) as nat);
        lemma_ancestor_has_task(ts, x, (out.len() - i) as nat);
        lemma_has_id_in_ids(ts, x);
    }
    lemma_distinct_fit(out, ids_of(ts));
}

/// Which tasks stand directly below each.
pub struct Kids {
    map: HashMap<u32, Vec<u32>>,
}

impl Kids {
    pub closed spec fn of(self, ts: Seq<TaskView>) -> bool {
        forall|p: u32|
            children(ts, p) == (if #[trigger] self.map@.contains_key(p) {
                self.map@[p]@
            } else {
                Seq::<u32>::empty()
            })
    }

    pub fn index(tasks: &Vec<Task>) -> (r: Kids)
        ensures
            r.of(task_views(tasks@)),
    {
        let ghost ts = task_views(tasks@);
        let mut map: HashMap<u32, Vec<u32>> = HashMap::new();
        let mut i: usize = 0;
        while i < tasks.len()
            invariant
                i <= tasks@.len(),
                ts == task_views(tasks@),
                forall|p: u32|
                    children(ts.take(i as int), p) == (if #[trigger] map@.contains_key(p) {
                        map@[p]@
                    } else {
                        Seq::<u32>::empty()
                    }),
            decreases tasks@.len() - i,
        {
            let ghost was = map@;
            assert(ts.take(i + 1).drop_last() =~= ts.take(i as int));
            if let Some(p) = tasks[i].parent {
                let mut kids: Vec<u32> = match map.remove(&p) {
                    Some(k) => k,
                    None => Vec::new(),
                };
                proof {
                    assert(was.contains_key(p) || !was.contains_key(p));
                    assert(kids@ =~= children(ts.take(i as int), p));
                }
                kids.push(tasks[i].id);
                map.insert(p, kids);
            }
            assert forall|p: u32|
                children(ts.take(i + 1), p) == (if #[trigger] map@.contains_key(p) {
                    map@[p]@
                } else {
                    Seq::<u32>::empty()
                }) by {
                assert(was.contains_key(p) || !was.contains_key(p));
            }
            i += 1;
        }
        assert(ts.take(i as int) =~= ts);
        Kids { map }
    }

    /// Everything below `id`, breadth-first, excluding `id` itself.
    ///
    /// Guarded against meeting a task twice: in a list that is no forest the
    /// walk would otherwise never end.
    pub fn descend(&self, id: u32, Ghost(ts): Ghost<Seq<TaskView>>) -> (out: Vec<u32>)
        requires
            self.of(ts),
        ensures
            out@ == below(ts, id),
    {
        let mut out: Vec<u32> = Vec::new();
        let mut seen: HashSet<u32> = HashSet::new();
        seen.insert(id);
        let mut level: Vec<u32> = Vec::new();
        level.push(id);
        assert(level@ =~= seq![id]);
        assert(seen@ =~= set![id]);
        assert(out@ + levels_below(ts, level@, seen@) =~= below(ts, id));
        loop
            invariant
                self.of(ts),
                out@ + levels_below(ts, level@, seen@) == below(ts, id),
            decreases ids_of(ts).to_set().difference(seen@).len(),
        {
            let ghost seen0 = seen@;
            let next = self.newcomers_below(&level, &mut seen, Ghost(ts));
            if next.len() == 0 {
                assert(out@ =~= below(ts, id));
                return out;
            }
            proof {
                lemma_fewer_unseen(ts, level@, seen0);
            }
            let ghost before = out@;
            let mut i: usize = 0;
            while i < next.len()
                invariant
                    i <= next@.len(),
                    out@ == before + next@.take(i as int),
                decreases next@.len() - i,
            {
                out.push(next[i]);
                assert(out@ =~= before + next@.take(i + 1));
                i += 1;
            }
            assert(next@.take(i as int) =~= next@);
            assert(before + (next@ + levels_below(ts, next@, seen@)) =~= out@ + levels_below(
                ts,
                next@,
                seen@,
            ));
            level = next;
        }
    }

    /// The children of `level` not met before; they count as met from now on.
    fn newcomers_below(
        &self,
        level: &Vec<u32>,
        seen: &mut HashSet<u32>,
        Ghost(ts): Ghost<Seq<TaskView>>,
    ) -> (next: Vec<u32>)
        requires
            self.of(ts),
        ensures
            next@ == newcomers(children_of_all(ts, level@), old(seen)@),
            final(seen)@ == old(seen)@.union(next@.to_set()),
    {
        let ghost seen0 = seen@;
        let mut next: Vec<u32> = Vec::new();
        assert(seen@ =~= seen0.union(next@.to_set()));
        let mut i: usize = 0;
        while i < level.len()
            invariant
                self.of(ts),
                i <= level@.len(),
                next@ == newcomers(children_of_all(ts, level@.take(i as int)), seen0),
                seen@ == seen0.union(next@.to_set()),
            decreases level@.len() - i,
        {
            let p: u32 = level[i];
            let ghost met = children_of_all(ts, level@.take(i as int));
            assert(level@.take(i + 1).drop_last() =~= level@.take(i as int));
            assert(children_of_all(ts, level@.take(i + 1)) =~= met + children(ts, p));
            match self.map.get(&p) {
                Some(kids) => {
                    assert(self.map@.contains_key(p));
                    assert(kids@ == children(ts, p));
                    let mut j: usize = 0;
                    assert(met + kids@.take(0) =~= met);
                    while j < kids.len()
                        invariant
                            j <= kids@.len(),
                            next@ == newcomers(met + kids@.take(j as int), seen0),
                            seen@ == seen0.union(next@.to_set()),
                        decreases kids@.len() - j,
                    {
                        let k: u32 = kids[j];
                        let ghost s = met + kids@.take(j + 1);
                        assert(s.drop_last() =~= met + kids@.take(j as int));
                        assert(s.last() == k);
                        let ghost before = next@;
                        assert(seen@.contains(k) <==> seen0.contains(k) || before.contains(k)) by {
                            assert(before.to_set().contains(k) <==> before.contains(k));
                        }
                        if !seen.contains(&k) {
                            seen.insert(k);
                            next.push(k);
                            assert(next@.to_set() =~= before.to_set().insert(k)) by {
                                lemma_contains_concat(before, seq![k]);
                                assert(before + seq![k] =~= next@);
                                assert(seq![k][0] == k);
                                assert forall|x: u32| next@.to_set().contains(x)
                                    <==> before.to_set().insert(k).contains(x) by {
                                    assert(next@.contains(x) <==> before.contains(x) || seq![k].contains(x));
                                }
                            }
                            assert(seen@ =~= seen0.union(next@.to_set()));
                        }
                        j += 1;
                    }
                    assert(kids@.take(j as int) =~= kids@);
                },
                None => {
                    assert(!self.map@.contains_key(p));
                    assert(met + children(ts, p) =~= met);
                },
            }
            i += 1;
        }
        assert(level@.take(i as int) =~= level@);
        next
    }
}

} // verus!
