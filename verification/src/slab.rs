//! Storage for items that come and go one by one.

use vstd::prelude::*;

verus! {

/// A growable store of slots addressed by index. A slot that was vacated is
/// handed out again before the store grows.
pub(crate) struct Slab<S> {
    pub(crate) slots: Vec<Option<S>>,
    pub(crate) free: Vec<usize>,
}

impl<S> Slab<S> {
    /// `free` lists the vacant slots, each exactly once.
    pub(crate) open spec fn wf(&self) -> bool {
        &&& forall|k: int|
            0 <= k < self.free@.len() ==> (#[trigger] self.free@[k]) < self.slots@.len()
                && self.slots@[self.free@[k] as int] is None
        &&& self.free@.no_duplicates()
        &&& forall|i: usize|
            i < self.slots@.len() && (#[trigger] self.slots@[i as int]) is None
                ==> self.free@.contains(i)
    }

    /// The occupied slots, by index.
    pub(crate) open spec fn view(&self) -> Map<int, S> {
        Map::new(
            |i: int| 0 <= i < self.slots.len() && self.slots@[i] is Some,
            |i: int| self.slots@[i].unwrap(),
        )
    }

    /// A store without slots.
    pub(crate) fn new() -> (slab: Self)
        ensures
            slab.wf(),
            slab@ == Map::<int, S>::empty(),
    {
        Slab { slots: Vec::new(), free: Vec::new() }
    }

    /// Whether slot `i` is occupied.
    pub(crate) fn contains(&self, i: usize) -> (b: bool)
        ensures
            b == self@.dom().contains(i as int),
    {
        i < self.slots.len() && self.slots[i].is_some()
    }

    /// Puts `item` into a vacant slot and tells which.
    pub(crate) fn insert(&mut self, item: S) -> (i: usize)
        requires
            old(self).wf(),
        ensures
            final(self).wf(),
            !old(self)@.dom().contains(i as int),
            final(self)@ == old(self)@.insert(i as int, item),
    {
        match self.free.pop() {
            Some(i) => {
                self.slots[i] = Some(item);
                proof {
                    let before = old(self).free@;
                    assert forall|j: usize|
                        j < self.slots@.len() && (#[trigger] self.slots@[j as int]) is None implies self.free@.contains(
                        j,
                    ) by {
                        let k = before.index_of(j);
                        assert(self.free@[k] == j);
                    }
                }
                i
            },
            None => {
                let i = self.slots.len();
                self.slots.push(Some(item));
                i
            },
        }
    }

    /// Vacates slot `i` and hands out what it held.
    pub(crate) fn remove(&mut self, i: usize) -> (item: S)
        requires
            old(self).wf(),
            old(self)@.dom().contains(i as int),
        ensures
            final(self).wf(),
            item == old(self)@[i as int],
            final(self)@ == old(self)@.remove(i as int),
    {
        let taken = self.slots[i].take();
        self.free.push(i);
        proof {
            let before = old(self).free@;
            assert forall|j: usize|
                j < self.slots@.len() && (#[trigger] self.slots@[j as int]) is None implies self.free@.contains(
                j,
            ) by {
                if j == i {
                    assert(self.free@[before.len() as int] == i);
                } else {
                    let k = before.index_of(j);
                    assert(self.free@[k] == j);
                }
            }
        }
        taken.unwrap()
    }

    /// What slot `i` holds.
    pub(crate) fn get(&self, i: usize) -> (item: &S)
        requires
            self@.dom().contains(i as int),
        ensures
            *item == self@[i as int],
    {
        self.slots[i].as_ref().unwrap()
    }

    /// What slot `i` holds, to be changed in place.
    pub(crate) fn get_mut(&mut self, i: usize) -> (item: &mut S)
        requires
            old(self).wf(),
            old(self)@.dom().contains(i as int),
        ensures
            *item == old(self)@[i as int],
            final(self).wf(),
            final(self)@ == old(self)@.insert(i as int, *final(item)),
    {
        self.slots[i].as_mut().unwrap()
    }
}

} // verus!
