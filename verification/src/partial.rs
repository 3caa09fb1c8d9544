//! The states of an arena in the middle of a walk over a list, as the loops
//! and the inductions over the entries of a list speak of them.

use crate::model::{ArenaView, NodeView};
use vstd::prelude::*;

verus! {

/// One more handle to each of the first `k` entries of list `l`.
pub(crate) open spec fn upgraded_to<T>(view: ArenaView<T>, l: int, k: int) -> ArenaView<T> {
    ArenaView {
        nodes: Map::new(
            |n: int| view.nodes.contains_key(n),
            |n: int|
                if view.lists[l].take(k).contains(n) {
                    NodeView { strong_count: view.nodes[n].strong_count + 1, ..view.nodes[n] }
                } else {
                    view.nodes[n]
                },
        ),
        lists: view.lists,
    }
}

/// One more handle to every entry of list `l`, and its first `k` entries
/// detached.
pub(crate) open spec fn taken_to<T>(view: ArenaView<T>, l: int, k: int) -> ArenaView<T> {
    ArenaView {
        nodes: Map::new(
            |n: int| view.nodes.contains_key(n),
            |n: int|
                if view.lists[l].contains(n) {
                    NodeView {
                        value: view.nodes[n].value,
                        strong_count: view.nodes[n].strong_count + 1,
                        list: if view.lists[l].take(k).contains(n) {
                            None
                        } else {
                            Some(l)
                        },
                    }
                } else {
                    view.nodes[n]
                },
        ),
        lists: view.lists.insert(l, view.lists[l].skip(k)),
    }
}

/// The first `k` entries of list `l` detached.
pub(crate) open spec fn cleared_to<T>(view: ArenaView<T>, l: int, k: int) -> ArenaView<T> {
    ArenaView {
        nodes: Map::new(
            |n: int| view.nodes.contains_key(n),
            |n: int|
                if view.lists[l].take(k).contains(n) {
                    NodeView { list: None, ..view.nodes[n] }
                } else {
                    view.nodes[n]
                },
        ),
        lists: view.lists.insert(l, view.lists[l].skip(k)),
    }
}

/// After `take_all`, one handle to each of the first `k` former entries of
/// list `l` given up again.
pub(crate) open spec fn given_back_to<T>(view: ArenaView<T>, l: int, k: int) -> ArenaView<T> {
    ArenaView {
        nodes: Map::new(
            |n: int| view.nodes.contains_key(n),
            |n: int|
                if view.lists[l].contains(n) {
                    NodeView {
                        value: view.nodes[n].value,
                        strong_count: if view.lists[l].take(k).contains(n) {
                            view.nodes[n].strong_count
                        } else {
                            view.nodes[n].strong_count + 1
                        },
                        list: None,
                    }
                } else {
                    view.nodes[n]
                },
        ),
        lists: view.lists.insert(l, Seq::empty()),
    }
}

/// The first `k + 1` entries of a sequence are its first `k` and entry `k`.
pub(crate) proof fn lemma_take_step(s: Seq<int>, k: int)
    requires
        0 <= k < s.len(),
    ensures
        forall|m: int| s.take(k + 1).contains(m) <==> (s.take(k).contains(m) || m == s[k]),
{
    assert forall|m: int| s.take(k + 1).contains(m) <==> (s.take(k).contains(m) || m
        == s[k]) by {
        if m == s[k] {
            assert(s.take(k + 1)[k] == m);
        }
    }
}

/// In a sequence without repeats, entry `k` is none of the first `k`, and it
/// is the first of what follows them.
pub(crate) proof fn lemma_entry_apart(s: Seq<int>, k: int)
    requires
        0 <= k < s.len(),
        s.no_duplicates(),
    ensures
        !s.take(k).contains(s[k]),
        s.skip(k).index_of(s[k]) == 0,
        s.skip(k).remove(0) == s.skip(k + 1),
{
    assert(s.skip(k)[0] == s[k]);
}

} // verus!
