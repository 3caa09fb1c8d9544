//! The arena, the links between its nodes, and the two operations that
//! change those links: placing a new node before another, and unlinking one.

use crate::handle::Handle;
use crate::model::{ArenaView, NodeView};
use crate::slab::Slab;
use crate::weak_list::WeakList;
use vstd::prelude::*;

verus! {

/// A reference to a storage cell that holds an optional reference to a node:
/// the head cell of a list, or the `next` field of a node.
#[derive(Clone, Copy)]
pub(crate) enum Link {
    Head(usize),
    Next(usize),
}

/// One stored value with its handle count and its place in a list.
///
/// `prev_next` refers to the cell that refers to this node, not to the node
/// before it, so the node can leave its list without a walk, whether it is the
/// first entry or not.
pub(crate) struct Node<T> {
    pub(crate) value: T,
    pub(crate) strong_count: usize,
    pub(crate) prev_next: Option<Link>,
    pub(crate) next: Option<usize>,
    pub(crate) list: Ghost<Option<int>>,
}

/// The head cell of a list.
pub(crate) struct Head {
    pub(crate) first: Option<usize>,
}

/// The memory that nodes and head cells live in.
///
/// Handles and lists are indices into an arena. Every operation on them takes
/// the arena they were made in. An arena that is dropped takes with it every
/// value that is still alive in it.
pub struct Arena<T> {
    pub(crate) nodes: Slab<Node<T>>,
    pub(crate) heads: Slab<Head>,
    pub(crate) chains: Ghost<Map<int, Seq<int>>>,
}

/// The cell that refers to entry `i` of the chain `s` of list `l`.
pub(crate) open spec fn cell_before(l: int, s: Seq<int>, i: int) -> Link {
    if i == 0 {
        Link::Head(l as usize)
    } else {
        Link::Next(s[i - 1] as usize)
    }
}

/// What follows entry `i` of the chain `s`.
pub(crate) open spec fn node_after(s: Seq<int>, i: int) -> Option<usize> {
    if i + 1 < s.len() {
        Some(s[i + 1] as usize)
    } else {
        None
    }
}

/// Entry `i` of the chain `s` of list `l` is a node that names `l` and whose
/// two links agree with its neighbours in the chain.
pub(crate) open spec fn entry_ok<T>(nodes: Map<int, Node<T>>, l: int, s: Seq<int>, i: int) -> bool {
    &&& nodes.contains_key(s[i])
    &&& nodes[s[i]].list@ == Some(l)
    &&& nodes[s[i]].prev_next == Some(cell_before(l, s, i))
    &&& nodes[s[i]].next == node_after(s, i)
}

/// The head cell of list `l` refers to the first entry of its chain `s`, and
/// every entry is in order.
pub(crate) open spec fn chain_ok<T>(nodes: Map<int, Node<T>>, head: Head, l: int, s: Seq<int>) -> bool {
    &&& s.no_duplicates()
    &&& head.first == (if s.len() == 0 {
        None
    } else {
        Some(s[0] as usize)
    })
    &&& forall|i: int| 0 <= i < s.len() ==> #[trigger] entry_ok(nodes, l, s, i)
}

/// A node that names a list is an entry of it; one that names none has no
/// links.
pub(crate) open spec fn node_ok<T>(
    node: Node<T>,
    heads: Map<int, Head>,
    chains: Map<int, Seq<int>>,
    n: int,
) -> bool {
    match node.list@ {
        Some(l) => heads.contains_key(l) && chains[l].contains(n),
        None => node.prev_next is None && node.next is None,
    }
}

/// The links of the nodes and the chains of the lists agree.
pub(crate) open spec fn links_ok<T>(
    nodes: Map<int, Node<T>>,
    heads: Map<int, Head>,
    chains: Map<int, Seq<int>>,
) -> bool {
    &&& forall|l: int| #[trigger] heads.contains_key(l) ==> chain_ok(nodes, heads[l], l, chains[l])
    &&& forall|n: int| #[trigger] nodes.contains_key(n) ==> node_ok(nodes[n], heads, chains, n)
}

/// Two nodes have the same links.
pub(crate) open spec fn same_links<T>(a: Node<T>, b: Node<T>) -> bool {
    &&& a.list@ == b.list@
    &&& a.prev_next == b.prev_next
    &&& a.next == b.next
}

/// The links stay in order while no node comes or goes and no link changes.
pub(crate) proof fn lemma_links_frame<T>(
    before: Map<int, Node<T>>,
    after: Map<int, Node<T>>,
    heads: Map<int, Head>,
    chains: Map<int, Seq<int>>,
)
    requires
        links_ok(before, heads, chains),
        after.dom() =~= before.dom(),
        forall|n: int| #[trigger] before.contains_key(n) ==> same_links(before[n], after[n]),
    ensures
        links_ok(after, heads, chains),
{
    assert forall|l: int| #[trigger] heads.contains_key(l) implies chain_ok(
        after,
        heads[l],
        l,
        chains[l],
    ) by {
        assert forall|i: int| 0 <= i < chains[l].len() implies #[trigger] entry_ok(
            after,
            l,
            chains[l],
            i,
        ) by {
            assert(entry_ok(before, l, chains[l], i));
        }
    }
}

/// The links stay in order when a node that is not linked goes.
pub(crate) proof fn lemma_links_without_node<T>(
    nodes: Map<int, Node<T>>,
    heads: Map<int, Head>,
    chains: Map<int, Seq<int>>,
    n: int,
)
    requires
        links_ok(nodes, heads, chains),
        nodes.contains_key(n),
        nodes[n].list@ is None,
    ensures
        links_ok(nodes.remove(n), heads, chains),
{
    let after = nodes.remove(n);
    assert forall|l: int| #[trigger] heads.contains_key(l) implies chain_ok(
        after,
        heads[l],
        l,
        chains[l],
    ) by {
        assert forall|i: int| 0 <= i < chains[l].len() implies #[trigger] entry_ok(
            after,
            l,
            chains[l],
            i,
        ) by {
            assert(entry_ok(nodes, l, chains[l], i));
        }
    }
}

impl<T> Arena<T> {
    /// The two stores are in order, and the links and the chains agree.
    pub(crate) open spec fn inv(&self) -> bool {
        &&& self.nodes.wf()
        &&& self.heads.wf()
        &&& links_ok(self.nodes@, self.heads@, self.chains@)
    }

    /// The arena is consistent, and every node in it has at least one handle.
    pub open(crate) spec fn wf(&self) -> bool {
        &&& self.inv()
        &&& forall|n: int| #[trigger]
            self@.nodes.contains_key(n) ==> self@.nodes[n].strong_count >= 1
    }

    /// The nodes that are alive and the entries of the lists.
    pub open(crate) spec fn view(&self) -> ArenaView<T> {
        ArenaView {
            nodes: Map::new(
                |n: int| self.nodes@.contains_key(n),
                |n: int|
                    NodeView {
                        value: self.nodes@[n].value,
                        strong_count: self.nodes@[n].strong_count as nat,
                        list: self.nodes@[n].list@,
                    },
            ),
            lists: Map::new(|l: int| self.heads@.contains_key(l), |l: int| self.chains@[l]),
        }
    }

    /// An arena with no node and no list.
    pub fn new() -> (arena: Self)
        ensures
            arena.wf(),
            arena@.nodes == Map::<int, NodeView<T>>::empty(),
            arena@.lists == Map::<int, Seq<int>>::empty(),
    {
        let arena = Arena { nodes: Slab::new(), heads: Slab::new(), chains: Ghost(Map::empty()) };
        arena
    }

    /// Whether the node that `handle` refers to is alive in this arena.
    pub fn contains(&self, handle: &Handle<T>) -> (alive: bool)
        ensures
            alive == self@.contains(handle@),
    {
        self.nodes.contains(handle.cur)
    }

    /// Whether `list` is a list of this arena.
    pub fn has_list(&self, list: &WeakList<T>) -> (present: bool)
        ensures
            present == self@.has_list(list@),
    {
        self.heads.contains(list.head)
    }

    /// The view of a consistent arena is consistent.
    pub proof fn lemma_view_wf(&self)
        requires
            self.wf(),
        ensures
            self@.wf(),
    {
        assert forall|l: int| #[trigger] self@.lists.contains_key(l) implies self@.list_wf(l) by {
            assert forall|i: int| 0 <= i < self@.lists[l].len() implies self@.nodes.contains_key(
                #[trigger] self@.lists[l][i],
            ) && self@.nodes[self@.lists[l][i]].list == Some(l) by {
                assert(entry_ok(self.nodes@, l, self.chains@[l], i));
            }
        }
    }
}

impl<T> Node<T> {
    /// The nodes after a node `n` that holds `value` was made to stand before
    /// `next`: `n` refers to `next`, and `next`, if there is one, refers back
    /// to the `next` field of `n`. What refers to `n` is left to the caller.
    pub(crate) open spec fn placed_before(
        nodes: Map<int, Node<T>>,
        n: usize,
        next: Option<usize>,
        value: T,
    ) -> Map<int, Node<T>> {
        let fresh = Node { value, strong_count: 0, prev_next: None, next, list: Ghost(None) };
        match next {
            Some(m) => nodes.insert(n as int, fresh).insert(
                m as int,
                Node { prev_next: Some(Link::Next(n)), ..nodes[m as int] },
            ),
            None => nodes.insert(n as int, fresh),
        }
    }

    /// Allocates a node that holds `value`, without a handle yet, and places
    /// it before `next`.
    pub(crate) fn new_before(next: Option<usize>, value: T, arena: &mut Arena<T>) -> (n: usize)
        requires
            old(arena).nodes.wf(),
            next matches Some(m) ==> old(arena).nodes@.contains_key(m as int),
        ensures
            final(arena).nodes.wf(),
            final(arena).heads == old(arena).heads,
            final(arena).chains == old(arena).chains,
            !old(arena).nodes@.contains_key(n as int),
            final(arena).nodes@ == Self::placed_before(old(arena).nodes@, n, next, value),
    {
        let n = arena.nodes.insert(
            Node { value, strong_count: 0, prev_next: None, next, list: Ghost(None) },
        );
        if let Some(m) = next {
            let after = arena.nodes.get_mut(m);
            after.prev_next = Some(Link::Next(n));
        }
        n
    }

    /// Releases the storage of node `n`, which is not linked, and hands out
    /// its value.
    pub(crate) fn free(n: usize, arena: &mut Arena<T>) -> (value: T)
        requires
            old(arena).inv(),
            old(arena).nodes@.contains_key(n as int),
            old(arena).nodes@[n as int].list@ is None,
        ensures
            final(arena).inv(),
            final(arena).nodes@ == old(arena).nodes@.remove(n as int),
            final(arena).heads == old(arena).heads,
            final(arena).chains == old(arena).chains,
            value == old(arena).nodes@[n as int].value,
    {
        proof {
            lemma_links_without_node(arena.nodes@, arena.heads@, arena.chains@, n as int);
        }
        let node = arena.nodes.remove(n);
        node.value
    }

    /// Takes node `n` out of the list it is linked in, in constant time: the
    /// cell that referred to `n` is made to refer to what followed `n`, and
    /// that node, if there is one, to refer back to that cell. A node that is
    /// not linked is left as it is.
    pub(crate) fn unlink(n: usize, arena: &mut Arena<T>)
        requires
            old(arena).inv(),
            old(arena).nodes@.contains_key(n as int),
        ensures
            final(arena).inv(),
            final(arena)@ == old(arena)@.detached(n as int),
    {
        let ghost before = arena.nodes@;
        let ghost l = match before[n as int].list@ {
            Some(l) => l,
            None => 0,
        };
        let ghost s = arena.chains@[l];
        let ghost i = s.index_of(n as int);
        proof {
            if before[n as int].list@ is Some {
                assert(entry_ok(before, l, s, i));
                if i > 0 {
                    assert(entry_ok(before, l, s, i - 1));
                }
                if i + 1 < s.len() {
                    assert(entry_ok(before, l, s, i + 1));
                }
            }
        }
        let node = arena.nodes.get_mut(n);
        if let Some(cell) = node.prev_next.take() {
            let next = node.next.take();
            node.list = Ghost(None);
            match cell {
                Link::Head(h) => {
                    arena.heads.get_mut(h).first = next;
                },
                Link::Next(p) => {
                    arena.nodes.get_mut(p).next = next;
                },
            }
            if let Some(m) = next {
                arena.nodes.get_mut(m).prev_next = Some(cell);
            }
            arena.chains = Ghost(arena.chains@.insert(l, s.remove(i)));
            proof {
                let t = s.remove(i);
                let after = arena.nodes@;
                assert forall|j: int| 0 <= j < t.len() implies #[trigger] entry_ok(after, l, t, j) by {
                    if j < i {
                        assert(entry_ok(before, l, s, j));
                    } else {
                        assert(entry_ok(before, l, s, j + 1));
                    }
                }
                assert forall|k: int| #[trigger] arena.heads@.contains_key(k) implies chain_ok(
                    after,
                    arena.heads@[k],
                    k,
                    arena.chains@[k],
                ) by {
                    if k != l {
                        let c = arena.chains@[k];
                        assert forall|j: int| 0 <= j < c.len() implies #[trigger] entry_ok(
                            after,
                            k,
                            c,
                            j,
                        ) by {
                            assert(entry_ok(before, k, c, j));
                        }
                    }
                }
                assert forall|k: int| #[trigger] after.contains_key(k) implies node_ok(
                    after[k],
                    arena.heads@,
                    arena.chains@,
                    k,
                ) by {
                    if k != n && after[k].list@ == Some(l) {
                        let j = s.index_of(k);
                        if j < i {
                            assert(t[j] == k);
                        } else {
                            assert(t[j - 1] == k);
                        }
                    }
                }
                assert(arena@.nodes =~= old(arena)@.detached(n as int).nodes);
                assert(arena@.lists =~= old(arena)@.detached(n as int).lists);
            }
        } else {
            proof {
                assert(arena.nodes@ =~= before);
            }
        }
    }
}

} // verus!
