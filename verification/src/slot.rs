//! The cells of the arena.

use vstd::prelude::*;

verus! {

/// What a slot holds: a stored value, or nothing.
pub(crate) enum Entry<T> {
    Occupied(T),
    Vacant,
}

/// One cell of the arena.
///
/// `prev` and `next` name the neighbouring slots of the chain the slot is
/// threaded into.  A slot that names itself as `prev` has no predecessor,
/// and one that names itself as `next` has no successor.
pub(crate) struct Node<T> {
    pub(crate) data: Entry<T>,
    pub(crate) prev: usize,
    pub(crate) next: usize,
}

impl<T> Node<T> {
    /// Two slots carry the same pair of links.
    pub(crate) open spec fn same_links(self, other: Node<T>) -> bool {
        self.prev == other.prev && self.next == other.next
    }
}

} // verus!
