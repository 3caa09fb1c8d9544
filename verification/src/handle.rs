//! Handles: shared, counted ownership of a node.

use crate::arena::{lemma_links_frame, Arena, Node};
use core::marker::PhantomData;
use vstd::prelude::*;

verus! {

/// An owning reference to a node of an arena. A node lives as long as there
/// is a handle to it, whether it is still linked in a list or not.
///
/// A handle is given up with [`Handle::drop`]. One that merely goes out of
/// scope keeps its node alive for good.
#[must_use]
pub struct Handle<T> {
    pub(crate) cur: usize,
    pub(crate) marker: PhantomData<T>,
}

/// The nodes that a sequence of handles refers to, in its order.
pub open spec fn ids<T>(handles: Seq<Handle<T>>) -> Seq<int> {
    handles.map_values(|h: Handle<T>| h@)
}

impl<T> Handle<T> {
    /// The identity of the node that the handle refers to.
    pub open(crate) spec fn view(&self) -> int {
        self.cur as int
    }

    /// Counts one more handle to `node` and makes that handle.
    pub(crate) fn from_raw_node(node: usize, arena: &mut Arena<T>) -> (handle: Self)
        requires
            old(arena).inv(),
            old(arena)@.contains(node as int),
            old(arena)@.nodes[node as int].strong_count < usize::MAX,
        ensures
            final(arena).inv(),
            final(arena).heads == old(arena).heads,
            final(arena).chains == old(arena).chains,
            final(arena)@ == old(arena)@.cloned(node as int),
            handle@ == node,
    {
        let entry = arena.nodes.get_mut(node);
        entry.strong_count = entry.strong_count + 1;
        proof {
            lemma_links_frame(old(arena).nodes@, arena.nodes@, arena.heads@, arena.chains@);
            assert(arena@.nodes =~= old(arena)@.cloned(node as int).nodes);
        }
        Handle { cur: node, marker: PhantomData }
    }

    /// Takes the node out of the list it is linked in, if it is in one. The
    /// value stays alive and the handles to it stay as they are.
    pub fn detach(this: &Self, arena: &mut Arena<T>)
        requires
            old(arena).wf(),
            old(arena)@.contains(this@),
        ensures
            final(arena).wf(),
            final(arena)@ == old(arena)@.detached(this@),
    {
        Node::unlink(this.cur, arena);
    }

    /// Hands out the value if `this` is the only handle to it, and `this`
    /// itself if it is not. The node is detached either way.
    pub fn try_unwrap(this: Self, arena: &mut Arena<T>) -> (result: Result<T, Self>)
        requires
            old(arena).wf(),
            old(arena)@.contains(this@),
        ensures
            final(arena).wf(),
            match result {
                Ok(value) => {
                    &&& old(arena)@.nodes[this@].strong_count == 1
                    &&& value == old(arena)@.nodes[this@].value
                    &&& final(arena)@ == old(arena)@.dropped(this@)
                    &&& !final(arena)@.contains(this@)
                },
                Err(handle) => {
                    &&& old(arena)@.nodes[this@].strong_count > 1
                    &&& handle == this
                    &&& final(arena)@ == old(arena)@.detached(this@)
                    &&& final(arena)@.contains(this@)
                    &&& final(arena)@.nodes[this@].list is None
                },
            },
    {
        Self::detach(&this, arena);
        assert(arena@.nodes.contains_key(this@));
        if arena.nodes.get(this.cur).strong_count == 1 {
            let value = Node::free(this.cur, arena);
            proof {
                assert(arena@.nodes =~= old(arena)@.dropped(this@).nodes);
            }
            Ok(value)
        } else {
            Err(this)
        }
    }

    /// Makes one more handle to the same node.
    pub fn clone(this: &Self, arena: &mut Arena<T>) -> (handle: Self)
        requires
            old(arena).wf(),
            old(arena)@.contains(this@),
            old(arena)@.nodes[this@].strong_count < usize::MAX,
        ensures
            final(arena).wf(),
            final(arena)@ == old(arena)@.cloned(this@),
            handle == *this,
    {
        Self::from_raw_node(this.cur, arena)
    }

    /// The value that the handle keeps alive.
    pub fn deref<'a>(this: &Self, arena: &'a Arena<T>) -> (value: &'a T)
        requires
            arena@.contains(this@),
        ensures
            *value == arena@.nodes[this@].value,
    {
        &arena.nodes.get(this.cur).value
    }

    /// The number of handles to the node, this one included.
    pub fn strong_count(this: &Self, arena: &Arena<T>) -> (count: usize)
        requires
            arena@.contains(this@),
        ensures
            count == arena@.nodes[this@].strong_count,
    {
        arena.nodes.get(this.cur).strong_count
    }

    /// Gives the handle up. With the last handle to a node, the node leaves
    /// the list it is linked in, its value is destroyed and its storage is
    /// released.
    pub fn drop(this: Self, arena: &mut Arena<T>)
        requires
            old(arena).wf(),
            old(arena)@.contains(this@),
        ensures
            final(arena).wf(),
            final(arena)@ == old(arena)@.dropped(this@),
            final(arena)@.contains(this@) <==> old(arena)@.nodes[this@].strong_count > 1,
    {
        let count = arena.nodes.get(this.cur).strong_count;
        if count == 1 {
            Self::detach(&this, arena);
            assert(arena@.nodes.contains_key(this@));
            let _ = Node::free(this.cur, arena);
            proof {
                assert(arena@.nodes =~= old(arena)@.dropped(this@).nodes);
            }
        } else {
            arena.nodes.get_mut(this.cur).strong_count = count - 1;
            proof {
                lemma_links_frame(old(arena).nodes@, arena.nodes@, arena.heads@, arena.chains@);
                assert(arena@.nodes =~= old(arena)@.dropped(this@).nodes);
            }
        }
    }
}

} // verus!
