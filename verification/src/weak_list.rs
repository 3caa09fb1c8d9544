//! Lists of nodes that are alive and still linked.

use crate::arena::{chain_ok, entry_ok, node_ok, Arena, Head, Link, Node};
use crate::handle::{ids, Handle};
use crate::partial::{cleared_to, lemma_entry_apart, lemma_take_step, taken_to, upgraded_to};
use core::marker::PhantomData;
use vstd::prelude::*;

verus! {

/// A list of the values of an arena that are alive, most recently added
/// first. The list keeps no value alive: a value is an entry for as long as it
/// has a handle and was not detached.
pub struct WeakList<T> {
    pub(crate) head: usize,
    pub(crate) marker: PhantomData<T>,
}

impl<T> WeakList<T> {
    /// The identity of the list.
    pub open(crate) spec fn view(&self) -> int {
        self.head as int
    }

    /// Makes an empty list.
    pub fn new(arena: &mut Arena<T>) -> (list: Self)
        requires
            old(arena).wf(),
        ensures
            final(arena).wf(),
            !old(arena)@.has_list(list@),
            final(arena)@ == old(arena)@.with_list(list@),
    {
        let head = arena.heads.insert(Head { first: None });
        arena.chains = Ghost(arena.chains@.insert(head as int, Seq::empty()));
        proof {
            assert(arena@.lists =~= old(arena)@.with_list(head as int).lists);
        }
        WeakList { head, marker: PhantomData }
    }

    /// Puts `value` into the arena, links it as the first entry of the list
    /// and hands out the only handle to it.
    pub fn new_elem(&self, value: T, arena: &mut Arena<T>) -> (handle: Handle<T>)
        requires
            old(arena).wf(),
            old(arena)@.has_list(self@),
        ensures
            final(arena).wf(),
            !old(arena)@.contains(handle@),
            final(arena)@ == old(arena)@.pushed(self@, handle@, value),
    {
        let ghost l = self@;
        let ghost s = arena.chains@[l];
        proof {
            if s.len() > 0 {
                assert(entry_ok(arena.nodes@, l, s, 0));
            }
        }
        let old_first = arena.heads.get(self.head).first;
        let new_first = Node::new_before(old_first, value, arena);
        let node = arena.nodes.get_mut(new_first);
        node.prev_next = Some(Link::Head(self.head));
        node.list = Ghost(Some(l));
        arena.heads.get_mut(self.head).first = Some(new_first);
        arena.chains = Ghost(arena.chains@.insert(l, seq![new_first as int] + s));
        proof {
            let before = old(arena).nodes@;
            let after = arena.nodes@;
            let t = seq![new_first as int] + s;
            assert forall|i: int| 0 <= i < s.len() implies s[i] != new_first by {
                assert(entry_ok(before, l, s, i));
            }
            assert forall|i: int| 0 <= i < t.len() implies #[trigger] entry_ok(after, l, t, i) by {
                if i > 0 {
                    assert(entry_ok(before, l, s, i - 1));
                }
            }
            assert forall|k: int| #[trigger] arena.heads@.contains_key(k) implies chain_ok(
                after,
                arena.heads@[k],
                k,
                arena.chains@[k],
            ) by {
                if k != l {
                    let c = arena.chains@[k];
                    assert forall|j: int| 0 <= j < c.len() implies #[trigger] entry_ok(
                        after,
                        k,
                        c,
                        j,
                    ) by {
                        assert(entry_ok(before, k, c, j));
                    }
                }
            }
            assert forall|k: int| #[trigger] after.contains_key(k) implies node_ok(
                after[k],
                arena.heads@,
                arena.chains@,
                k,
            ) by {
                if k == new_first {
                    assert(t[0] == k);
                } else if after[k].list@ == Some(l) {
                    let j = s.index_of(k);
                    assert(t[j + 1] == k);
                }
            }
            assert(arena@.lists =~= old(arena)@.pushed(l, new_first as int, value).lists);
        }
        let handle = Handle::from_raw_node(new_first, arena);
        proof {
            assert(arena@.nodes =~= old(arena)@.pushed(l, new_first as int, value).nodes);
        }
        handle
    }

    /// Whether every entry of the list can have one more handle, so that
    /// `upgrade_all` and `take_all` can be called.
    pub fn can_upgrade_all(&self, arena: &Arena<T>) -> (possible: bool)
        requires
            arena.wf(),
            arena@.has_list(self@),
        ensures
            possible == arena@.can_upgrade(self@),
    {
        let ghost l = self@;
        let ghost s = arena.chains@[l];
        let ghost k: int = 0;
        let mut cur = arena.heads.get(self.head).first;
        while cur.is_some()
            invariant
                arena.wf(),
                arena@.has_list(l),
                l == self@,
                s == arena@.lists[l],
                0 <= k <= s.len(),
                cur == (if k < s.len() {
                    Some(s[k] as usize)
                } else {
                    None
                }),
                forall|i: int| 0 <= i < k ==> arena@.nodes[#[trigger] s[i]].strong_count < usize::MAX,
            decreases s.len() - k,
        {
            let n = cur.unwrap();
            proof {
                assert(entry_ok(arena.nodes@, l, s, k));
            }
            let node = arena.nodes.get(n);
            if node.strong_count == usize::MAX {
                return false;
            }
            cur = node.next;
            proof {
                k = k + 1;
            }
        }
        true
    }

    /// Hands out one new handle to every entry of the list, first entry
    /// first. The list stays as it is.
    pub fn upgrade_all(&self, arena: &mut Arena<T>) -> (handles: Vec<Handle<T>>)
        requires
            old(arena).wf(),
            old(arena)@.has_list(self@),
            old(arena)@.can_upgrade(self@),
        ensures
            final(arena).wf(),
            ids(handles@) == old(arena)@.lists[self@],
            final(arena)@ == old(arena)@.upgraded(self@),
    {
        let ghost l = self@;
        let ghost s = arena.chains@[l];
        let mut v: Vec<Handle<T>> = Vec::new();
        let mut cur = arena.heads.get(self.head).first;
        proof {
            assert(arena@.nodes =~= upgraded_to(old(arena)@, l, 0).nodes);
        }
        while cur.is_some()
            invariant
                old(arena).wf(),
                old(arena)@.has_list(l),
                s == old(arena)@.lists[l],
                old(arena)@.can_upgrade(l),
                arena.inv(),
                arena.heads == old(arena).heads,
                arena.chains == old(arena).chains,
                v.len() <= s.len(),
                cur == (if v.len() < s.len() {
                    Some(s[v.len() as int] as usize)
                } else {
                    None
                }),
                ids(v@) == s.take(v.len() as int),
                arena@ == upgraded_to(old(arena)@, l, v.len() as int),
            decreases s.len() - v.len(),
        {
            let n = cur.unwrap();
            let ghost k = v.len() as int;
            proof {
                assert(entry_ok(arena.nodes@, l, s, k));
                assert(arena@.nodes.contains_key(s[k]));
            }
            let handle = Handle::from_raw_node(n, arena);
            v.push(handle);
            proof {
                assert(entry_ok(arena.nodes@, l, s, k));
            }
            cur = arena.nodes.get(n).next;
            proof {
                lemma_take_step(s, k);
                assert(arena@.nodes =~= upgraded_to(old(arena)@, l, k + 1).nodes);
            }
        }
        proof {
            assert(s.take(s.len() as int) =~= s);
        }
        v
    }

    /// Hands out one new handle to every entry of the list, first entry
    /// first, and leaves the list empty. No value is destroyed: the handles
    /// keep the values alive.
    pub fn take_all(&self, arena: &mut Arena<T>) -> (handles: Vec<Handle<T>>)
        requires
            old(arena).wf(),
            old(arena)@.has_list(self@),
            old(arena)@.can_upgrade(self@),
        ensures
            final(arena).wf(),
            ids(handles@) == old(arena)@.lists[self@],
            final(arena)@ == old(arena)@.taken(self@),
    {
        let ghost l = self@;
        let ghost s = arena@.lists[l];
        proof {
            arena.lemma_view_wf();
        }
        let v = self.upgrade_all(arena);
        proof {
            assert(s.skip(0) =~= s);
            assert(arena@.nodes =~= taken_to(old(arena)@, l, 0).nodes);
            assert(arena@.lists =~= taken_to(old(arena)@, l, 0).lists);
        }
        let mut i: usize = 0;
        while i < v.len()
            invariant
                old(arena)@.has_list(l),
                old(arena)@.list_wf(l),
                s == old(arena)@.lists[l],
                ids(v@) == s,
                i <= v.len(),
                arena.wf(),
                arena@ == taken_to(old(arena)@, l, i as int),
            decreases v.len() - i,
        {
            let ghost k = i as int;
            proof {
                lemma_entry_apart(s, k);
                lemma_take_step(s, k);
            }
            Handle::detach(&v[i], arena);
            i = i + 1;
            proof {
                assert(arena@.nodes =~= taken_to(old(arena)@, l, k + 1).nodes);
                assert(arena@.lists =~= taken_to(old(arena)@, l, k + 1).lists);
            }
        }
        proof {
            assert(s.skip(s.len() as int) =~= Seq::<int>::empty());
            assert(arena@.nodes =~= old(arena)@.taken(l).nodes);
        }
        v
    }

    /// Leaves the list empty. No value is destroyed and no handle is touched:
    /// what `take_all` would hand out is given up again at once.
    pub fn clear(&self, arena: &mut Arena<T>)
        requires
            old(arena).wf(),
            old(arena)@.has_list(self@),
        ensures
            final(arena).wf(),
            final(arena)@ == old(arena)@.cleared(self@),
    {
        let ghost l = self@;
        let ghost s = arena@.lists[l];
        let ghost k: int = 0;
        proof {
            arena.lemma_view_wf();
            assert(s.skip(0) =~= s);
            assert(arena@.nodes =~= cleared_to(old(arena)@, l, 0).nodes);
            assert(arena@.lists =~= cleared_to(old(arena)@, l, 0).lists);
        }
        let mut cur = arena.heads.get(self.head).first;
        while cur.is_some()
            invariant
                old(arena).wf(),
                old(arena)@.has_list(l),
                old(arena)@.list_wf(l),
                s == old(arena)@.lists[l],
                l == self.head,
                0 <= k <= s.len(),
                arena.inv(),
                arena.heads@.contains_key(l),
                cur == arena.heads@[l].first,
                arena@ == cleared_to(old(arena)@, l, k),
            decreases s.len() - k,
        {
            let n = cur.unwrap();
            proof {
                assert(arena@.lists[l] == arena.chains@[l]);
                lemma_entry_apart(s, k);
                lemma_take_step(s, k);
                assert(arena@.nodes.contains_key(s[k]));
            }
            Node::unlink(n, arena);
            proof {
                assert(arena@.nodes =~= cleared_to(old(arena)@, l, k + 1).nodes);
                assert(arena@.lists =~= cleared_to(old(arena)@, l, k + 1).lists);
                assert(arena@.lists.contains_key(l));
                k = k + 1;
            }
            cur = arena.heads.get(self.head).first;
        }
        proof {
            assert(arena@.lists[l] == arena.chains@[l]);
            assert(s.skip(k) =~= Seq::<int>::empty());
        }
    }

    /// Gives the list up. Its entries are unlinked and stay alive: a handle
    /// outlives the list it came from.
    pub fn drop(this: Self, arena: &mut Arena<T>)
        requires
            old(arena).wf(),
            old(arena)@.has_list(this@),
        ensures
            final(arena).wf(),
            final(arena)@ == old(arena)@.without_list(this@),
    {
        let ghost l = this@;
        this.clear(arena);
        let ghost mid = arena@;
        proof {
            assert(mid.lists.contains_key(l));
        }
        let _ = arena.heads.remove(this.head);
        proof {
            let nodes = arena.nodes@;
            assert forall|n: int| #[trigger] nodes.contains_key(n) implies node_ok(
                nodes[n],
                arena.heads@,
                arena.chains@,
                n,
            ) by {
                assert(arena@.nodes.contains_key(n));
            }
            assert forall|k: int| #[trigger]
                arena@.lists.contains_key(k) implies old(arena)@.lists.contains_key(k) && k != l
                && arena@.lists[k] == old(arena)@.lists[k] by {
                assert(mid.lists[k] == arena.chains@[k]);
            }
            assert forall|k: int| old(arena)@.lists.contains_key(k) && k != l implies #[trigger]
                arena@.lists.contains_key(k) by {
                assert(mid.lists.contains_key(k));
            }
            assert(arena@.lists =~= old(arena)@.without_list(l).lists);
        }
    }
}

} // verus!
