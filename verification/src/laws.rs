//! What follows from the effects of the operations, whatever state they are
//! applied to.

use crate::model::{ArenaView, NodeView};
use crate::partial::{given_back_to, lemma_entry_apart, lemma_take_step, taken_to};
use vstd::prelude::*;

verus! {

/// Pushing a new node to a list keeps the view consistent.
pub proof fn lemma_pushed_wf<T>(view: ArenaView<T>, l: int, n: int, value: T)
    requires
        view.wf(),
        view.has_list(l),
        !view.contains(n),
    ensures
        view.pushed(l, n, value).wf(),
{
    let after = view.pushed(l, n, value);
    let s = view.lists[l];
    let t = after.lists[l];
    assert forall|k: int| #[trigger] after.lists.contains_key(k) implies after.list_wf(k) by {}
    assert forall|m: int| #[trigger] after.nodes.contains_key(m) implies after.node_linked(m) by {
        if m == n {
            assert(t[0] == n);
        } else if view.nodes[m].list == Some(l) {
            let i = s.index_of(m);
            assert(t[i + 1] == m);
        }
    }
}

/// A snapshot yields the values in the reverse of the order in which they
/// were pushed: after any number of pushes to a list, with nothing removed in
/// between, the list holds the new nodes, the last pushed first, before what
/// it held, and a snapshot yields their values in that order.
pub proof fn lemma_push_order<T>(view: ArenaView<T>, l: int, ids: Seq<int>, values: Seq<T>)
    requires
        view.wf(),
        view.has_list(l),
        ids.len() == values.len(),
        ids.no_duplicates(),
        forall|i: int| 0 <= i < ids.len() ==> !view.contains(#[trigger] ids[i]),
    ensures
        view.pushed_all(l, ids, values).wf(),
        view.pushed_all(l, ids, values).lists.dom() == view.lists.dom(),
        forall|n: int| #[trigger]
            view.pushed_all(l, ids, values).contains(n) <==> (view.contains(n) || ids.contains(n)),
        view.pushed_all(l, ids, values).lists[l] == ids.reverse() + view.lists[l],
        view.pushed_all(l, ids, values).values(l) == values.reverse() + view.values(l),
    decreases ids.len(),
{
    let after = view.pushed_all(l, ids, values);
    if ids.len() > 0 {
        let front = ids.drop_last();
        let inner = view.pushed_all(l, front, values.drop_last());
        let n = ids.last();
        lemma_push_order(view, l, front, values.drop_last());
        lemma_pushed_wf(inner, l, n, values.last());
        assert forall|m: int| #[trigger]
            after.contains(m) <==> (view.contains(m) || ids.contains(m)) by {
            assert(inner.contains(m) <==> (view.contains(m) || front.contains(m)));
            if ids.contains(m) {
                let i = ids.index_of(m);
                if i < front.len() {
                    assert(front[i] == m);
                }
            }
        }
        assert forall|j: int| 0 <= j < after.lists[l].len() implies after.values(l)[j] == (
        values.reverse() + view.values(l))[j] by {
            if j > 0 {
                assert(inner.values(l)[j - 1] == inner.nodes[inner.lists[l][j - 1]].value);
            }
        }
    }
}

/// A push whose handle is given up at once changes nothing: the value is
/// destroyed and its entry leaves the list in the same step.
pub proof fn lemma_push_then_drop_is_noop<T>(view: ArenaView<T>, l: int, n: int, value: T)
    requires
        view.wf(),
        view.has_list(l),
        !view.contains(n),
    ensures
        view.pushed(l, n, value).dropped(n) == view,
{
    let s = view.lists[l];
    let t = seq![n] + s;
    let after = view.pushed(l, n, value).dropped(n);
    assert(t[0] == n);
    assert(t.index_of(n) == 0) by {
        let i = t.index_of(n);
        if i > 0 {
            assert(view.list_wf(l));
            assert(view.nodes.contains_key(s[i - 1]));
        }
    }
    assert(t.remove(0) =~= s);
    assert(after.nodes =~= view.nodes);
    assert(after.lists =~= view.lists);
}

/// Detaching a node keeps the view consistent, and no list holds the node
/// afterwards.
pub proof fn lemma_detached_wf<T>(view: ArenaView<T>, n: int)
    requires
        view.wf(),
        view.contains(n),
    ensures
        view.detached(n).wf(),
        view.detached(n).lists.dom() == view.lists.dom(),
        forall|l: int| view.detached(n).has_list(l) ==> !view.detached(n).lists[l].contains(n),
{
    let after = view.detached(n);
    match view.nodes[n].list {
        Some(l) => {
            let s = view.lists[l];
            let i = s.index_of(n);
            let t = s.remove(i);
            assert forall|k: int| #[trigger] after.lists.contains_key(k) implies after.list_wf(
                k,
            ) by {}
            assert forall|m: int| #[trigger] after.nodes.contains_key(m) implies after.node_linked(
                m,
            ) by {
                if m != n && view.nodes[m].list == Some(l) {
                    let j = s.index_of(m);
                    if j < i {
                        assert(t[j] == m);
                    } else {
                        assert(t[j - 1] == m);
                    }
                }
            }
        },
        None => {},
    }
}

/// Detaching a node twice is detaching it once: the node stays unlinked and
/// nothing else changes.
pub proof fn lemma_detach_idempotent<T>(view: ArenaView<T>, n: int)
    ensures
        view.detached(n).nodes[n].list is None,
        view.detached(n).detached(n) == view.detached(n),
{
}

/// Giving up a handle keeps the view consistent.
pub proof fn lemma_dropped_wf<T>(view: ArenaView<T>, n: int)
    requires
        view.wf(),
        view.contains(n),
    ensures
        view.dropped(n).wf(),
        view.dropped(n).lists.dom() == view.lists.dom(),
        view.nodes[n].strong_count == 1 ==> !view.dropped(n).contains(n) && forall|l: int|
            view.dropped(n).has_list(l) ==> !view.dropped(n).lists[l].contains(n),
{
    let after = view.dropped(n);
    if view.nodes[n].strong_count == 1 {
        lemma_detached_wf(view, n);
    }
    assert forall|k: int| #[trigger] after.lists.contains_key(k) implies after.list_wf(k) by {}
}

/// A value lives exactly as long as it has a handle. While fewer handles
/// were given up than the node has, the node is alive with its value and is
/// linked as before; when the last one is given up the node is gone, and no
/// list holds it any more.
pub proof fn lemma_last_drop_frees<T>(view: ArenaView<T>, n: int, k: nat)
    requires
        view.wf(),
        view.contains(n),
        k <= view.nodes[n].strong_count,
    ensures
        view.dropped_times(n, k).wf(),
        view.dropped_times(n, k).lists.dom() == view.lists.dom(),
        k < view.nodes[n].strong_count ==> view.dropped_times(n, k) == (ArenaView {
            nodes: view.nodes.insert(
                n,
                NodeView {
                    strong_count: (view.nodes[n].strong_count - k) as nat,
                    ..view.nodes[n]
                },
            ),
            lists: view.lists,
        }),
        k == view.nodes[n].strong_count ==> !view.dropped_times(n, k).contains(n) && forall|l: int|
            view.dropped_times(n, k).has_list(l) ==> !view.dropped_times(n, k).lists[l].contains(
                n,
            ),
    decreases k,
{
    if k == 0 {
        assert(view.nodes =~= view.nodes.insert(n, view.nodes[n]));
    } else {
        let before = view.dropped_times(n, (k - 1) as nat);
        lemma_last_drop_frees(view, n, (k - 1) as nat);
        lemma_dropped_wf(before, n);
        if k < view.nodes[n].strong_count {
            assert(before.dropped(n).nodes =~= view.nodes.insert(
                n,
                NodeView {
                    strong_count: (view.nodes[n].strong_count - k) as nat,
                    ..view.nodes[n]
                },
            ));
        }
    }
}

/// After `take_all` the list is empty, so a snapshot taken next yields
/// nothing and changes nothing, while every former entry is alive with the
/// value it had.
pub proof fn lemma_take_all_empties<T>(view: ArenaView<T>, l: int)
    requires
        view.wf(),
        view.has_list(l),
    ensures
        view.taken(l).wf(),
        view.taken(l).lists[l] == Seq::<int>::empty(),
        view.taken(l).upgraded(l) == view.taken(l),
        forall|i: int|
            0 <= i < view.lists[l].len() ==> view.taken(l).contains(#[trigger] view.lists[l][i])
                && view.taken(l).nodes[view.lists[l][i]].value
                == view.nodes[view.lists[l][i]].value,
{
    let after = view.taken(l);
    assert(after.upgraded(l).nodes =~= after.nodes);
    lemma_unlinked_wf(view, l, after);
}

/// A view stays consistent when the entries of list `l` are unlinked and the
/// list is left empty, whatever handles they gain.
proof fn lemma_unlinked_wf<T>(view: ArenaView<T>, l: int, after: ArenaView<T>)
    requires
        view.wf(),
        view.has_list(l),
        after.lists == view.lists.insert(l, Seq::<int>::empty()),
        after.nodes.dom() =~= view.nodes.dom(),
        forall|n: int| #[trigger]
            view.nodes.contains_key(n) ==> after.nodes[n].strong_count
                >= view.nodes[n].strong_count && after.nodes[n].list == (if view.lists[l].contains(
                n,
            ) {
                None
            } else {
                view.nodes[n].list
            }),
    ensures
        after.wf(),
{
    assert forall|k: int| #[trigger] after.lists.contains_key(k) implies after.list_wf(k) by {}
}

/// `clear` destroys no value: every node that was alive is alive afterwards,
/// with the value and the handles it had. Only the list is empty.
pub proof fn lemma_clear_keeps_nodes<T>(view: ArenaView<T>, l: int)
    requires
        view.wf(),
        view.has_list(l),
    ensures
        view.cleared(l).wf(),
        view.cleared(l).lists[l] == Seq::<int>::empty(),
        view.cleared(l).nodes.dom() == view.nodes.dom(),
        forall|n: int| #[trigger]
            view.contains(n) ==> view.cleared(l).nodes[n].value == view.nodes[n].value
                && view.cleared(l).nodes[n].strong_count == view.nodes[n].strong_count,
{
    let after = view.cleared(l);
    lemma_unlinked_wf(view, l, after);
}

/// A handle outlives the list it came from: when a list is given up, every
/// node that was alive is alive afterwards, with the value and the handles it
/// had, and no other list changes.
pub proof fn lemma_nodes_outlive_list<T>(view: ArenaView<T>, l: int)
    requires
        view.wf(),
        view.has_list(l),
    ensures
        view.without_list(l).wf(),
        !view.without_list(l).has_list(l),
        view.without_list(l).nodes.dom() == view.nodes.dom(),
        forall|n: int| #[trigger]
            view.contains(n) ==> view.without_list(l).nodes[n].value == view.nodes[n].value
                && view.without_list(l).nodes[n].strong_count == view.nodes[n].strong_count,
        forall|k: int|
            view.has_list(k) && k != l ==> view.without_list(l).has_list(k) && view.without_list(
                l,
            ).lists[k] == view.lists[k],
{
    lemma_clear_keeps_nodes(view, l);
}

/// `take_all` is `upgrade_all` followed by a `detach` of every handle that it
/// handed out, in their order.
pub proof fn lemma_take_all_is_upgrade_then_detach<T>(view: ArenaView<T>, l: int)
    requires
        view.wf(),
        view.has_list(l),
    ensures
        view.upgraded(l).detached_all(view.lists[l]) == view.taken(l),
{
    let s = view.lists[l];
    lemma_detached_prefix(view, l, s.len() as int);
    assert(s.take(s.len() as int) =~= s);
    assert(s.skip(s.len() as int) =~= Seq::<int>::empty());
    assert(taken_to(view, l, s.len() as int).nodes =~= view.taken(l).nodes);
}

/// After `upgrade_all`, detaching the first `k` entries of the list leaves
/// them unlinked and the others in the list.
proof fn lemma_detached_prefix<T>(view: ArenaView<T>, l: int, k: int)
    requires
        view.wf(),
        view.has_list(l),
        0 <= k <= view.lists[l].len(),
    ensures
        view.upgraded(l).detached_all(view.lists[l].take(k)) == taken_to(view, l, k),
    decreases k,
{
    let s = view.lists[l];
    if k == 0 {
        assert(s.skip(0) =~= s);
        assert(view.upgraded(l).nodes =~= taken_to(view, l, 0).nodes);
        assert(view.upgraded(l).lists =~= taken_to(view, l, 0).lists);
    } else {
        let j = k - 1;
        lemma_detached_prefix(view, l, j);
        assert(s.take(k).drop_last() =~= s.take(j));
        let before = taken_to(view, l, j);
        lemma_entry_apart(s, j);
        lemma_take_step(s, j);
        assert(before.detached(s[j]).nodes =~= taken_to(view, l, k).nodes);
        assert(before.detached(s[j]).lists =~= taken_to(view, l, k).lists);
    }
}

/// After `take_all`, giving up the handles to the first `k` former entries
/// destroys no value and leaves them with the handles they had.
proof fn lemma_dropped_prefix<T>(view: ArenaView<T>, l: int, k: int)
    requires
        view.wf(),
        view.has_list(l),
        0 <= k <= view.lists[l].len(),
    ensures
        view.taken(l).dropped_all(view.lists[l].take(k)) == given_back_to(view, l, k),
    decreases k,
{
    let s = view.lists[l];
    if k == 0 {
        assert(view.taken(l).nodes =~= given_back_to(view, l, 0).nodes);
    } else {
        let j = k - 1;
        lemma_dropped_prefix(view, l, j);
        assert(s.take(k).drop_last() =~= s.take(j));
        let before = given_back_to(view, l, j);
        lemma_entry_apart(s, j);
        lemma_take_step(s, j);
        assert(before.dropped(s[j]).nodes =~= given_back_to(view, l, k).nodes);
    }
}

/// `clear` is `take_all` with every handle that it handed out given up again:
/// none of them is the last handle to its value, so no value is destroyed.
pub proof fn lemma_clear_is_take_all_then_drop<T>(view: ArenaView<T>, l: int)
    requires
        view.wf(),
        view.has_list(l),
    ensures
        view.taken(l).dropped_all(view.lists[l]) == view.cleared(l),
{
    let s = view.lists[l];
    lemma_dropped_prefix(view, l, s.len() as int);
    assert(s.take(s.len() as int) =~= s);
    assert(given_back_to(view, l, s.len() as int).nodes =~= view.cleared(l).nodes);
}

} // verus!
