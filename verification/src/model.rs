//! What an arena is to its callers: the nodes that are alive, the entries of
//! the lists, and what each operation does to them.

use vstd::prelude::*;

verus! {

/// One node as the contracts see it.
pub struct NodeView<T> {
    /// The payload.
    pub value: T,
    /// The number of handles that refer to the node.
    pub strong_count: nat,
    /// The list the node is linked in, or `None` once it is unlinked.
    pub list: Option<int>,
}

/// An arena as the contracts see it: the nodes that are alive, by identity,
/// and the entries of every list, first entry first.
///
/// A list owns no node. It names the nodes that are alive and still linked.
pub struct ArenaView<T> {
    pub nodes: Map<int, NodeView<T>>,
    pub lists: Map<int, Seq<int>>,
}

impl<T> ArenaView<T> {
    /// Node `n` is alive.
    pub open spec fn contains(self, n: int) -> bool {
        self.nodes.contains_key(n)
    }

    /// List `l` exists.
    pub open spec fn has_list(self, l: int) -> bool {
        self.lists.contains_key(l)
    }

    /// The values that a snapshot of list `l` yields, in its order.
    pub open spec fn values(self, l: int) -> Seq<T> {
        self.lists[l].map_values(|n: int| self.nodes[n].value)
    }

    /// Every entry of list `l` can have one more handle: none of the counts
    /// is at the largest number that the machine can hold.
    pub open spec fn can_upgrade(self, l: int) -> bool {
        forall|i: int|
            0 <= i < self.lists[l].len() ==> self.nodes[#[trigger] self.lists[l][i]].strong_count
                < usize::MAX
    }

    /// A node that names a list is an entry of that list.
    pub open spec fn node_linked(self, n: int) -> bool {
        match self.nodes[n].list {
            Some(l) => self.lists.contains_key(l) && self.lists[l].contains(n),
            None => true,
        }
    }

    /// The entries of a list are alive, name that list, and occur once each.
    pub open spec fn list_wf(self, l: int) -> bool {
        &&& self.lists[l].no_duplicates()
        &&& forall|i: int|
            0 <= i < self.lists[l].len() ==> self.nodes.contains_key(#[trigger] self.lists[l][i])
                && self.nodes[self.lists[l][i]].list == Some(l)
    }

    /// The chains of the lists and the link states of the nodes agree.
    pub open spec fn links_wf(self) -> bool {
        &&& forall|n: int| #[trigger] self.nodes.contains_key(n) ==> self.node_linked(n)
        &&& forall|l: int| #[trigger] self.lists.contains_key(l) ==> self.list_wf(l)
    }

    /// The links agree and every node that is alive has at least one handle.
    pub open spec fn wf(self) -> bool {
        &&& self.links_wf()
        &&& forall|n: int| #[trigger] self.nodes.contains_key(n) ==> self.nodes[n].strong_count >= 1
    }

    /// A new, empty list `l`.
    pub open spec fn with_list(self, l: int) -> Self {
        ArenaView { nodes: self.nodes, lists: self.lists.insert(l, Seq::empty()) }
    }

    /// A new node `n` that holds `value`, has one handle and is the first
    /// entry of list `l`.
    pub open spec fn pushed(self, l: int, n: int, value: T) -> Self {
        ArenaView {
            nodes: self.nodes.insert(n, NodeView { value, strong_count: 1, list: Some(l) }),
            lists: self.lists.insert(l, seq![n] + self.lists[l]),
        }
    }

    /// One more handle to node `n`.
    pub open spec fn cloned(self, n: int) -> Self {
        ArenaView {
            nodes: self.nodes.insert(
                n,
                NodeView { strong_count: self.nodes[n].strong_count + 1, ..self.nodes[n] },
            ),
            lists: self.lists,
        }
    }

    /// Node `n` leaves the list it is linked in, if any. Neither its value nor
    /// its handles are touched.
    pub open spec fn detached(self, n: int) -> Self {
        match self.nodes[n].list {
            Some(l) => ArenaView {
                nodes: self.nodes.insert(n, NodeView { list: None, ..self.nodes[n] }),
                lists: self.lists.insert(l, self.lists[l].remove(self.lists[l].index_of(n))),
            },
            None => self,
        }
    }

    /// One handle to node `n` fewer. With its last handle the node leaves its
    /// list and is gone.
    pub open spec fn dropped(self, n: int) -> Self {
        if self.nodes[n].strong_count > 1 {
            ArenaView {
                nodes: self.nodes.insert(
                    n,
                    NodeView {
                        strong_count: (self.nodes[n].strong_count - 1) as nat,
                        ..self.nodes[n]
                    },
                ),
                lists: self.lists,
            }
        } else {
            ArenaView { nodes: self.detached(n).nodes.remove(n), lists: self.detached(n).lists }
        }
    }

    /// One more handle to every entry of list `l`.
    pub open spec fn upgraded(self, l: int) -> Self {
        ArenaView {
            nodes: Map::new(
                |n: int| self.nodes.contains_key(n),
                |n: int|
                    if self.lists[l].contains(n) {
                        NodeView { strong_count: self.nodes[n].strong_count + 1, ..self.nodes[n] }
                    } else {
                        self.nodes[n]
                    },
            ),
            lists: self.lists,
        }
    }

    /// One more handle to every entry of list `l`, and the list left empty.
    pub open spec fn taken(self, l: int) -> Self {
        ArenaView {
            nodes: Map::new(
                |n: int| self.nodes.contains_key(n),
                |n: int|
                    if self.lists[l].contains(n) {
                        NodeView {
                            value: self.nodes[n].value,
                            strong_count: self.nodes[n].strong_count + 1,
                            list: None,
                        }
                    } else {
                        self.nodes[n]
                    },
            ),
            lists: self.lists.insert(l, Seq::empty()),
        }
    }

    /// List `l` left empty. Its former entries stay alive with the handles
    /// they had.
    pub open spec fn cleared(self, l: int) -> Self {
        ArenaView {
            nodes: Map::new(
                |n: int| self.nodes.contains_key(n),
                |n: int|
                    if self.lists[l].contains(n) {
                        NodeView { list: None, ..self.nodes[n] }
                    } else {
                        self.nodes[n]
                    },
            ),
            lists: self.lists.insert(l, Seq::empty()),
        }
    }

    /// List `l` is gone. Its former entries stay alive, unlinked.
    pub open spec fn without_list(self, l: int) -> Self {
        ArenaView { nodes: self.cleared(l).nodes, lists: self.lists.remove(l) }
    }

    /// New nodes `ids`, which hold `values`, pushed to list `l` one after
    /// another, the first of them first.
    pub open spec fn pushed_all(self, l: int, ids: Seq<int>, values: Seq<T>) -> Self
        decreases ids.len(),
    {
        if ids.len() == 0 {
            self
        } else {
            self.pushed_all(l, ids.drop_last(), values.drop_last()).pushed(
                l,
                ids.last(),
                values.last(),
            )
        }
    }

    /// `k` handles to node `n` fewer, given up one after another.
    pub open spec fn dropped_times(self, n: int, k: nat) -> Self
        decreases k,
    {
        if k == 0 {
            self
        } else {
            self.dropped_times(n, (k - 1) as nat).dropped(n)
        }
    }

    /// The nodes `ns` detached one after another, the first of them first.
    pub open spec fn detached_all(self, ns: Seq<int>) -> Self
        decreases ns.len(),
    {
        if ns.len() == 0 {
            self
        } else {
            self.detached_all(ns.drop_last()).detached(ns.last())
        }
    }

    /// One handle to each of the nodes `ns` fewer, given up one after
    /// another, the first of them first.
    pub open spec fn dropped_all(self, ns: Seq<int>) -> Self
        decreases ns.len(),
    {
        if ns.len() == 0 {
            self
        } else {
            self.dropped_all(ns.drop_last()).dropped(ns.last())
        }
    }
}

} // verus!
