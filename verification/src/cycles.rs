//! Loops among parents.
//!
//! A hand-edited list may say that 3 is below 5 and 5 below 3. What matters is
//! the distinction between a task that *is* on such a loop and one that merely
//! *points into* it: detaching the latter would leave the loop in place, and
//! everything on it out of reach from any root.

use crate::forest::{
    acyclic, ancestor, chain, cyclic, lemma_ancestor_prefix, lemma_ancestor_steps, parent_of,
    task_views, Parents,
};
use crate::task::{Task, TaskView};
use vstd::prelude::*;

verus! {

/// Whether the walk up from `x` stands on a loop after `k` steps.
pub open spec fn on_loop_after(ts: Seq<TaskView>, x: u32, k: nat) -> bool {
    match ancestor(ts, x, k) {
        Some(y) => cyclic(ts, y),
        None => false,
    }
}

#[verifier::opaque]
pub open spec fn steps_to_loop(ts: Seq<TaskView>, x: u32) -> nat {
    choose|k: nat| #[trigger]
        on_loop_after(ts, x, k) && forall|j: nat| j < k ==> !#[trigger] on_loop_after(ts, x, j)
}

/// The first id on a loop that the walk up from `x` comes to.
#[verifier::opaque]
pub open spec fn way_in(ts: Seq<TaskView>, x: u32) -> Option<u32> {
    if exists|k: nat| #[trigger] on_loop_after(ts, x, k) {
        ancestor(ts, x, steps_to_loop(ts, x))
    } else {
        None
    }
}

/// How many steps up from `e` lead back to `e` for the first time.
#[verifier::opaque]
pub open spec fn loop_len(ts: Seq<TaskView>, e: u32) -> nat {
    choose|k: nat|
        k > 0 && #[trigger] ancestor(ts, e, k) == Some(e) && forall|j: nat|
            0 < j < k ==> #[trigger] ancestor(ts, e, j) != Some(e)
}

/// The loop through `e`, each id followed by its parent.
pub open spec fn loop_from(ts: Seq<TaskView>, e: u32) -> Seq<u32> {
    chain(ts, e, loop_len(ts, e))
}

/// Whether `c` is a loop of parents.
pub open spec fn is_loop(ts: Seq<TaskView>, c: Seq<u32>) -> bool {
    exists|e: u32| #[trigger] cyclic(ts, e) && c == loop_from(ts, e)
}

pub open spec fn on_any(cycles: Seq<Seq<u32>>, e: u32) -> bool {
    exists|j: int| 0 <= j < cycles.len() && (#[trigger] cycles[j]).contains(e)
}

/// The loops that the first `n` tasks lead to, in the order in which they do,
/// each starting where it was entered first.
pub open spec fn loops_met(ts: Seq<TaskView>, n: nat) -> Seq<Seq<u32>>
    decreases n,
{
    if n == 0 {
        Seq::empty()
    } else {
        let before = loops_met(ts, (n - 1) as nat);
        match way_in(ts, ts[n - 1].id) {
            Some(e) => if on_any(before, e) {
                before
            } else {
                before.push(loop_from(ts, e))
            },
            None => before,
        }
    }
}

/// Every loop of parents in the list.
pub open spec fn all_loops(ts: Seq<TaskView>) -> Seq<Seq<u32>> {
    loops_met(ts, ts.len())
}

pub open spec fn id_lists(v: Seq<Vec<u32>>) -> Seq<Seq<u32>> {
    Seq::new(v.len(), |i: int| v[i]@)
}

// ---------------------------------------------------------------------------
// Facts
// ---------------------------------------------------------------------------

/// A walk that comes back to where it was never ends.
pub proof fn lemma_loop_never_ends(ts: Seq<TaskView>, y: u32, k: nat, t: nat)
    requires
        k > 0,
        ancestor(ts, y, k) == Some(y),
    ensures
        ancestor(ts, y, t) is Some,
    decreases t,
{
    if t <= k {
        lemma_ancestor_prefix(ts, y, t, k);
    } else {
        lemma_ancestor_steps(ts, y, k, (t - k) as nat);
        lemma_loop_never_ends(ts, y, k, (t - k) as nat);
    }
}

/// The least number with a property, where there is one.
proof fn lemma_least(p: spec_fn(nat) -> bool, k: nat) -> (m: nat)
    requires
        p(k),
    ensures
        m <= k,
        p(m),
        forall|j: nat| j < m ==> !#[trigger] p(j),
    decreases k,
{
    if exists|j: nat| j < k && #[trigger] p(j) {
        let j = choose|j: nat| j < k && #[trigger] p(j);
        lemma_least(p, j)
    } else {
        k
    }
}

pub proof fn lemma_way_in(ts: Seq<TaskView>, x: u32)
    ensures
        match way_in(ts, x) {
            Some(e) => ancestor(ts, x, steps_to_loop(ts, x)) == Some(e) && cyclic(ts, e) && (forall|
                j: nat,
            |
                j < steps_to_loop(ts, x) ==> !#[trigger] on_loop_after(ts, x, j)),
            None => forall|k: nat| !#[trigger] on_loop_after(ts, x, k),
        },
{
    reveal(way_in);
    reveal(steps_to_loop);
    if exists|k: nat| #[trigger] on_loop_after(ts, x, k) {
        let k = choose|k: nat| #[trigger] on_loop_after(ts, x, k);
        let p = |n: nat| on_loop_after(ts, x, n);
        let m = lemma_least(p, k);
        assert(on_loop_after(ts, x, m));
        assert forall|j: nat| j < m implies !#[trigger] on_loop_after(ts, x, j) by {
            assert(!p(j));
        }
    }
}

pub proof fn lemma_loop_len(ts: Seq<TaskView>, e: u32)
    requires
        cyclic(ts, e),
    ensures
        loop_len(ts, e) > 0,
        ancestor(ts, e, loop_len(ts, e)) == Some(e),
        forall|j: nat| 0 < j < loop_len(ts, e) ==> #[trigger] ancestor(ts, e, j) != Some(e),
{
    reveal(loop_len);
    let k = choose|k: nat| k > 0 && #[trigger] ancestor(ts, e, k) == Some(e);
    let p = |n: nat| n > 0 && ancestor(ts, e, n) == Some(e);
    let m = lemma_least(p, k);
    assert(m > 0 && ancestor(ts, e, m) == Some(e));
    assert forall|j: nat| 0 < j < m implies #[trigger] ancestor(ts, e, j) != Some(e) by {
        assert(!p(j));
    }
}

/// A loop is made of ids that are each followed by their parent, all distinct,
/// and all on a loop.
pub proof fn lemma_loop_from(ts: Seq<TaskView>, e: u32)
    requires
        cyclic(ts, e),
    ensures
        loop_from(ts, e).len() > 0,
        loop_from(ts, e)[0] == e,
        loop_from(ts, e).no_duplicates(),
        forall|i: int|
            0 <= i < loop_from(ts, e).len() ==> ancestor(ts, e, i as nat) == Some(
                #[trigger] loop_from(ts, e)[i],
            ),
        forall|i: int|
            0 <= i < loop_from(ts, e).len() ==> cyclic(ts, #[trigger] loop_from(ts, e)[i]),
        forall|i: int|
            0 <= i < loop_from(ts, e).len() ==> parent_of(ts, #[trigger] loop_from(ts, e)[i])
                == Some(
                loop_from(ts, e)[if i + 1 < loop_from(ts, e).len() {
                    i + 1
                } else {
                    0
                }],
            ),
{
    lemma_loop_len(ts, e);
    let n = loop_len(ts, e);
    let c = loop_from(ts, e);
    assert forall|i: int| 0 <= i < n implies ancestor(ts, e, i as nat) == Some(#[trigger] c[i]) by {
        lemma_ancestor_prefix(ts, e, i as nat, n);
    }
    assert(c[0] == e);
    assert forall|i: int, j: int| 0 <= i < j < c.len() implies c[i] != c[j] by {
        if c[i] == c[j] {
            // climbing the rest of the loop from either ends at `e`
            lemma_ancestor_steps(ts, e, j as nat, (n - j) as nat);
            lemma_ancestor_steps(ts, e, i as nat, (n - j) as nat);
            assert(ancestor(ts, e, (i + (n - j)) as nat) == Some(e));
        }
    }
    assert forall|i: int| 0 <= i < c.len() implies cyclic(ts, #[trigger] c[i]) by {
        lemma_ancestor_steps(ts, e, i as nat, n);
        lemma_ancestor_steps(ts, e, n, i as nat);
        assert(ancestor(ts, c[i], n) == Some(c[i]));
    }
    assert forall|i: int| 0 <= i < c.len() implies parent_of(ts, #[trigger] c[i]) == Some(
        c[if i + 1 < c.len() {
            i + 1
        } else {
            0
        }],
    ) by {
        assert(ancestor(ts, e, (i + 1) as nat) == parent_of(ts, c[i]));
        if i + 1 < c.len() {
            assert(ancestor(ts, e, (i + 1) as nat) == Some(c[i + 1]));
        }
    }
}

/// A walk up that stops for want of a parent meets no loop.
proof fn lemma_walk_to_root(ts: Seq<TaskView>, id: u32, m: nat)
    requires
        ancestor(ts, id, m) is None,
    ensures
        way_in(ts, id) is None,
{
    lemma_way_in(ts, id);
    if way_in(ts, id) is Some {
        let s = steps_to_loop(ts, id);
        let e = way_in(ts, id)->0;
        let k = choose|k: nat| k > 0 && #[trigger] ancestor(ts, e, k) == Some(e);
        lemma_loop_never_ends(ts, e, k, m);
        lemma_ancestor_steps(ts, id, s, m);
        lemma_ancestor_prefix(ts, id, m, s + m);
    }
}

/// Where a walk up from `id` comes back to its step `s` after `m` steps, it
/// never leaves the steps from `s` on.
proof fn lemma_walk_stays(ts: Seq<TaskView>, id: u32, s: nat, m: nat, n: nat)
    requires
        s < m,
        s <= n,
        ancestor(ts, id, s) is Some,
        ancestor(ts, id, m) == ancestor(ts, id, s),
    ensures
        exists|j: nat| s <= j < m && #[trigger] ancestor(ts, id, j) == ancestor(ts, id, n),
    decreases n,
{
    if n < m {
        assert(ancestor(ts, id, n) == ancestor(ts, id, n));
    } else {
        lemma_walk_stays(ts, id, s, m, (n - 1) as nat);
        let j = choose|j: nat|
            s <= j < m && #[trigger] ancestor(ts, id, j) == ancestor(ts, id, (n - 1) as nat);
        lemma_ancestor_prefix(ts, id, j, m);
        assert(ancestor(ts, id, j + 1) == ancestor(ts, id, n));
        if j + 1 == m {
            assert(ancestor(ts, id, s) == ancestor(ts, id, n));
        }
    }
}

/// A walk of `m` distinct steps that comes back to its step `s` has found a
/// loop: the steps from `s` on, and no earlier one is on a loop.
proof fn lemma_walk_in_loop(ts: Seq<TaskView>, id: u32, s: nat, m: nat)
    requires
        s < m,
        chain(ts, id, m).no_duplicates(),
        ancestor(ts, id, m) is Some,
        ancestor(ts, id, m) == ancestor(ts, id, s),
    ensures
        way_in(ts, id) == ancestor(ts, id, s),
        loop_from(ts, ancestor(ts, id, s)->0) == chain(ts, id, m).skip(s as int),
{
    let c = chain(ts, id, m);
    let e = ancestor(ts, id, s)->0;
    assert forall|i: nat| i <= m implies #[trigger] ancestor(ts, id, i) is Some by {
        lemma_ancestor_prefix(ts, id, i, m);
    }
    lemma_ancestor_steps(ts, id, s, (m - s) as nat);
    assert(ancestor(ts, e, (m - s) as nat) == Some(e));
    assert(cyclic(ts, e));
    assert(on_loop_after(ts, id, s));
    lemma_way_in(ts, id);
    assert(way_in(ts, id) is Some);
    let t = steps_to_loop(ts, id);
    assert(t == s) by {
        if t > s {
            assert(!on_loop_after(ts, id, s));
        }
        if t < s {
            let y = ancestor(ts, id, t)->0;
            let k = choose|k: nat| k > 0 && #[trigger] ancestor(ts, y, k) == Some(y);
            lemma_ancestor_steps(ts, id, t, k);
            assert(ancestor(ts, id, t + k) == Some(y));
            assert(c[t as int] == y);
            if t + k < m {
                assert(c[(t + k) as int] == y);
            } else {
                lemma_walk_stays(ts, id, s, m, t + k);
                let j = choose|j: nat|
                    s <= j < m && #[trigger] ancestor(ts, id, j) == ancestor(ts, id, t + k);
                assert(c[j as int] == y);
            }
        }
    }
    lemma_loop_len(ts, e);
    let n = loop_len(ts, e);
    assert(n == m - s) by {
        if n < m - s {
            lemma_ancestor_steps(ts, id, s, n);
            assert(c[(s + n) as int] == e);
            assert(c[s as int] == e);
        }
    }
    assert(loop_from(ts, e) =~= c.skip(s as int)) by {
        assert forall|i: int| 0 <= i < n implies loop_from(ts, e)[i] == c.skip(s as int)[i] by {
            lemma_ancestor_steps(ts, id, s, i as nat);
        }
    }
}

/// Every id on a loop that a task leads to is on a loop that was found.
pub proof fn lemma_loops_met(ts: Seq<TaskView>, n: nat)
    requires
        n <= ts.len(),
    ensures
        forall|i: int|
            0 <= i < n ==> match way_in(ts, (#[trigger] ts[i]).id) {
                Some(e) => on_any(loops_met(ts, n), e),
                None => true,
            },
        forall|j: int|
            0 <= j < loops_met(ts, n).len() ==> is_loop(ts, #[trigger] loops_met(ts, n)[j]),
    decreases n,
{
    if n > 0 {
        let before = loops_met(ts, (n - 1) as nat);
        let all = loops_met(ts, n);
        lemma_loops_met(ts, (n - 1) as nat);
        let x = ts[n - 1].id;
        lemma_way_in(ts, x);
        assert forall|e: u32| #[trigger] on_any(before, e) implies on_any(all, e) by {
            let j = choose|j: int| 0 <= j < before.len() && (#[trigger] before[j]).contains(e);
            assert(all[j] == before[j]);
        }
        if let Some(e) = way_in(ts, x) {
            if !on_any(before, e) {
                lemma_loop_from(ts, e);
                assert(all[all.len() - 1] == loop_from(ts, e));
                assert(loop_from(ts, e)[0] == e);
                assert(all[all.len() - 1].contains(e));
            }
            assert(on_any(all, e));
        }
        assert forall|j: int| 0 <= j < all.len() implies is_loop(ts, #[trigger] all[j]) by {
            if j < before.len() {
                assert(all[j] == before[j]);
            } else {
                assert(cyclic(ts, way_in(ts, x)->0));
            }
        }
    }
}

/// A list whose tasks lead to no loop has none to report.
pub proof fn lemma_no_loops(ts: Seq<TaskView>, n: nat)
    requires
        acyclic(ts),
    ensures
        loops_met(ts, n) == Seq::<Seq<u32>>::empty(),
    decreases n,
{
    if n > 0 {
        lemma_no_loops(ts, (n - 1) as nat);
        lemma_way_in(ts, ts[n - 1].id);
    }
}

// ---------------------------------------------------------------------------
// Finding them
// ---------------------------------------------------------------------------

fn is_on_any(cycles: &Vec<Vec<u32>>, e: u32) -> (r: bool)
    ensures
        r == on_any(id_lists(cycles@), e),
{
    let ghost cs = id_lists(cycles@);
    let mut j: usize = 0;
    while j < cycles.len()
        invariant
            j <= cycles@.len(),
            cs == id_lists(cycles@),
            forall|k: int| 0 <= k < j ==> !(#[trigger] cs[k]).contains(e),
        decreases cycles@.len() - j,
    {
        let c = &cycles[j];
        assert(c@ == cs[j as int]);
        let mut i: usize = 0;
        while i < c.len()
            invariant
                i <= c@.len(),
                j < cycles@.len(),
                cs == id_lists(cycles@),
                c@ == cs[j as int],
                forall|k: int| 0 <= k < i ==> c@[k] != e,
            decreases c@.len() - i,
        {
            if c[i] == e {
                assert(cs[j as int].contains(e));
                return true;
            }
            i += 1;
        }
        assert(!cs[j as int].contains(e));
        j += 1;
    }
    false
}

/// Every loop of parents in the list, each as the ids that form it.
///
/// Every task has at most one parent, so loops are disjoint and detaching a
/// single member breaks one outright.
pub fn find_cycles(tasks: &Vec<Task>) -> (cycles: Vec<Vec<u32>>)
    ensures
        id_lists(cycles@) == all_loops(task_views(tasks@)),
{
    let ghost ts = task_views(tasks@);
    let parents = Parents::index(tasks);
    let mut cycles: Vec<Vec<u32>> = Vec::new();
    assert(id_lists(cycles@) =~= loops_met(ts, 0));
    let mut i: usize = 0;
    while i < tasks.len()
        invariant
            i <= tasks@.len(),
            ts == task_views(tasks@),
            parents.of(ts),
            id_lists(cycles@) == loops_met(ts, i as nat),
        decreases tasks@.len() - i,
    {
        let id: u32 = tasks[i].id;
        let found = loop_above(&parents, id, Ghost(ts));
        if let Some(path) = found {
            proof {
                lemma_way_in(ts, id);
                lemma_loop_from(ts, way_in(ts, id)->0);
            }
            let e: u32 = path[0];
            if !is_on_any(&cycles, e) {
                let ghost before = cycles@;
                cycles.push(path);
                assert(id_lists(cycles@) =~= id_lists(before).push(path@));
            }
        }
        i += 1;
    }
    cycles
}

/// The loop that the walk up from `id` runs into, from where it is entered.
fn loop_above(parents: &Parents, id: u32, Ghost(ts): Ghost<Seq<TaskView>>) -> (r: Option<Vec<u32>>)
    requires
        parents.of(ts),
    ensures
        match r {
            Some(path) => way_in(ts, id) is Some && path@ == loop_from(ts, way_in(ts, id)->0),
            None => way_in(ts, id) is None,
        },
{
    let above = parents.climb(id, Ghost(ts));
    let ghost m = (above@.len() + 1) as nat;
    let ghost c = chain(ts, id, m);
    proof {
        assert(c =~= seq![id] + above@) by {
            assert forall|i: int| 0 <= i < m implies c[i] == (seq![id] + above@)[i] by {
                if i > 0 {
                    assert(ancestor(ts, id, ((i - 1) + 1) as nat) == Some(above@[i - 1]));
                }
            }
        }
        assert forall|i: int, j: int| 0 <= i < j < c.len() implies c[i] != c[j] by {
            if i == 0 {
                assert(above@.contains(above@[j - 1]));
            }
        }
    }
    let last: u32 = if above.len() == 0 {
        id
    } else {
        above[above.len() - 1]
    };
    proof {
        assert(ancestor(ts, id, (m - 1) as nat) == Some(last)) by {
            if above@.len() > 0 {
                assert(ancestor(ts, id, ((above@.len() - 1) + 1) as nat) == Some(
                    above@[above@.len() - 1],
                ));
            }
        }
        assert(ancestor(ts, id, m) == parent_of(ts, last));
    }
    match parents.get(last, Ghost(ts)) {
        None => {
            proof {
                lemma_walk_to_root(ts, id, m);
            }
            None
        },
        Some(p) => {
            let mut path: Vec<u32> = Vec::new();
            let mut on: bool = false;
            let ghost mut s: nat = 0;
            if id == p {
                on = true;
                path.push(id);
                assert(path@ =~= c.take(1));
            }
            let mut i: usize = 0;
            while i < above.len()
                invariant
                    i <= above@.len(),
                    m == above@.len() + 1,
                    c == seq![id] + above@,
                    on ==> s <= i && c[s as int] == p && path@ == c.subrange(s as int, i + 1),
                    !on ==> path@.len() == 0 && forall|k: int| 0 <= k <= i ==> c[k] != p,
                decreases above@.len() - i,
            {
                if !on && above[i] == p {
                    on = true;
                    proof {
                        s = (i + 1) as nat;
                    }
                }
                if on {
                    path.push(above[i]);
                    assert(c[i + 1] == above@[i as int]);
                    assert(path@ =~= c.subrange(s as int, i + 2));
                } else {
                    assert(c[i + 1] == above@[i as int]);
                }
                i += 1;
            }
            proof {
                if !on {
                    if p == id {
                        assert(c[0] == p);
                    } else {
                        let k = choose|k: int| 0 <= k < above@.len() && above@[k] == p;
                        assert(c[k + 1] == p);
                    }
                }
                assert(ancestor(ts, id, s) == Some(p)) by {
                    lemma_ancestor_prefix(ts, id, s, m);
                    assert(c[s as int] == chain(ts, id, m)[s as int]);
                }
                lemma_walk_in_loop(ts, id, s, m);
                assert(path@ =~= c.skip(s as int));
            }
            Some(path)
        },
    }
}

/// The loops that are found are those that there are: an id is on one of them
/// exactly where it is its own ancestor. Each is told from one id to its parent,
/// and so on, back to where it began.
pub proof fn law_every_loop_is_found(ts: Seq<TaskView>, i: int)
    requires
        0 <= i < ts.len(),
    ensures
        on_any(all_loops(ts), ts[i].id) <==> cyclic(ts, ts[i].id),
        forall|j: int, k: int|
            #![trigger all_loops(ts)[j][k]]
            0 <= j < all_loops(ts).len() && 0 <= k < all_loops(ts)[j].len() ==> parent_of(
                ts,
                all_loops(ts)[j][k],
            ) == Some(
                all_loops(ts)[j][if k + 1 < all_loops(ts)[j].len() {
                    k + 1
                } else {
                    0
                }],
            ),
        forall|j: int|
            0 <= j < all_loops(ts).len() ==> (#[trigger] all_loops(ts)[j]).len() > 0
                && all_loops(ts)[j].no_duplicates(),
{
    let cs = all_loops(ts);
    let x = ts[i].id;
    lemma_loops_met(ts, ts.len());
    if cyclic(ts, x) {
        lemma_way_in(ts, x);
        assert(ancestor(ts, x, 0) == Some(x));
        assert(on_loop_after(ts, x, 0));
        assert(way_in(ts, x) == Some(x));
    }
    if on_any(cs, x) {
        let j = choose|j: int| 0 <= j < cs.len() && (#[trigger] cs[j]).contains(x);
        assert(is_loop(ts, cs[j]));
        let e = choose|e: u32| #[trigger] cyclic(ts, e) && cs[j] == loop_from(ts, e);
        lemma_loop_from(ts, e);
        let k = choose|k: int| 0 <= k < cs[j].len() && cs[j][k] == x;
        assert(cyclic(ts, loop_from(ts, e)[k]));
    }
    assert forall|j: int, k: int|
        #![trigger cs[j][k]]
        0 <= j < cs.len() && 0 <= k < cs[j].len() implies parent_of(ts, cs[j][k]) == Some(
        cs[j][if k + 1 < cs[j].len() {
            k + 1
        } else {
            0
        }],
    ) by {
        assert(is_loop(ts, cs[j]));
        let e = choose|e: u32| #[trigger] cyclic(ts, e) && cs[j] == loop_from(ts, e);
        lemma_loop_from(ts, e);
        assert(parent_of(ts, loop_from(ts, e)[k]) is Some);
    }
    assert forall|j: int| 0 <= j < cs.len() implies (#[trigger] cs[j]).len() > 0
        && cs[j].no_duplicates() by {
        assert(is_loop(ts, cs[j]));
        let e = choose|e: u32| #[trigger] cyclic(ts, e) && cs[j] == loop_from(ts, e);
        lemma_loop_from(ts, e);
    }
}

} // verus!
