//! A list of weak references that drops an entry the moment its value dies.
//!
//! A [`WeakList`] names values without keeping them alive. A value lives in
//! an [`Arena`] for as long as there is a [`Handle`] to it. When the last
//! handle is given up, the value is destroyed, its storage is released and
//! its entry leaves the list, all in one step and without a walk over the
//! list. At any time the list can hand out a handle to every value that is
//! alive and still linked, the most recently added first.
//!
//! Nodes and lists are addressed by index. A node holds, besides the index of
//! the node after it, a reference to the cell that refers to the node itself,
//! which is the head cell of its list or the `next` field of the node before
//! it. That is what lets a node leave its list in constant time.
//!
//! Every operation takes the arena explicitly and states its effect on the
//! arena's view, a [`model::ArenaView`]. The module [`laws`] proves what
//! follows from those effects.

pub mod arena;
pub mod handle;
pub mod laws;
pub mod model;
mod partial;
mod slab;
pub mod weak_list;

pub use arena::Arena;
pub use handle::Handle;
pub use weak_list::WeakList;
