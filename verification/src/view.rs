//! The abstract state of a list, and what each operation does to it.

use vstd::prelude::*;

verus! {

/// What a list is, seen from outside: the stored values with their
/// handles, front to back, and the vacant handles in the order in which
/// insertions will take them.
pub struct ListorView<T> {
    /// Handles of the stored values, front to back.
    pub handles: Seq<usize>,
    /// The stored values, front to back: `values[i]` is stored under `handles[i]`.
    pub values: Seq<T>,
    /// Handles of the vacant slots; the first is the next to be used.
    pub vacant: Seq<usize>,
    /// Whether the number of slots is fixed.
    pub bounded: bool,
}

impl<T> ListorView<T> {
    /// Number of stored values.
    pub open spec fn len(self) -> nat {
        self.handles.len()
    }

    /// Number of slots, occupied and vacant.
    pub open spec fn capacity(self) -> nat {
        self.handles.len() + self.vacant.len()
    }

    /// Every handle below the capacity is either occupied or vacant, once.
    pub open spec fn wf(self) -> bool {
        let all = self.handles + self.vacant;
        &&& self.values.len() == self.handles.len()
        &&& all.no_duplicates()
        &&& forall|i: int| 0 <= i < all.len() ==> #[trigger] all[i] < all.len()
        &&& all.len() <= usize::MAX
    }

    /// A list without values whose `capacity` slots are vacant and will be
    /// taken in index order.
    pub open spec fn fresh(capacity: nat, bounded: bool) -> Self {
        ListorView {
            handles: Seq::empty(),
            values: Seq::empty(),
            vacant: Seq::new(capacity, |i: int| i as usize),
            bounded,
        }
    }

    /// The handle the next insertion will use: the first vacant one, else a
    /// new slot at the end of the arena unless the list is bounded.
    pub open spec fn next_vacant(self) -> Option<usize> {
        if self.vacant.len() > 0 {
            Some(self.vacant[0])
        } else if self.bounded {
            None
        } else {
            Some(self.capacity() as usize)
        }
    }

    /// The vacant handles that remain once the next insertion took its slot.
    pub open spec fn vacant_after_insert(self) -> Seq<usize> {
        if self.vacant.len() > 0 {
            self.vacant.drop_first()
        } else {
            self.vacant
        }
    }

    /// Whether a value is stored under `handle`.
    pub open spec fn contains(self, handle: usize) -> bool {
        self.handles.contains(handle)
    }

    /// The value stored under `handle`, if there is one.
    pub open spec fn get(self, handle: usize) -> Option<T> {
        if self.handles.contains(handle) {
            Some(self.values[self.handles.index_of(handle)])
        } else {
            None
        }
    }

    /// The first value, if there is one.
    pub open spec fn front(self) -> Option<T> {
        if self.values.len() > 0 {
            Some(self.values.first())
        } else {
            None
        }
    }

    /// The last value, if there is one.
    pub open spec fn back(self) -> Option<T> {
        if self.values.len() > 0 {
            Some(self.values.last())
        } else {
            None
        }
    }

    /// The list after `item` was appended, or the same list if there is no room.
    pub open spec fn push_back(self, item: T) -> Self {
        match self.next_vacant() {
            Some(handle) => ListorView {
                handles: self.handles.push(handle),
                values: self.values.push(item),
                vacant: self.vacant_after_insert(),
                bounded: self.bounded,
            },
            None => self,
        }
    }

    /// The list after `item` was prepended, or the same list if there is no room.
    pub open spec fn push_front(self, item: T) -> Self {
        match self.next_vacant() {
            Some(handle) => ListorView {
                handles: seq![handle] + self.handles,
                values: seq![item] + self.values,
                vacant: self.vacant_after_insert(),
                bounded: self.bounded,
            },
            None => self,
        }
    }

    /// The list after the value under `handle` was taken out: the other
    /// values keep their order and their handles, and `handle` becomes the
    /// first vacant one.  The same list if nothing is stored under `handle`.
    pub open spec fn remove(self, handle: usize) -> Self {
        if self.handles.contains(handle) {
            let at = self.handles.index_of(handle);
            ListorView {
                handles: self.handles.remove(at),
                values: self.values.remove(at),
                vacant: seq![handle] + self.vacant,
                bounded: self.bounded,
            }
        } else {
            self
        }
    }

    /// The list after its first value was taken out.
    pub open spec fn pop_front(self) -> Self {
        if self.handles.len() > 0 {
            self.remove(self.handles.first())
        } else {
            self
        }
    }

    /// The list after its last value was taken out.
    pub open spec fn pop_back(self) -> Self {
        if self.handles.len() > 0 {
            self.remove(self.handles.last())
        } else {
            self
        }
    }

    /// The list with `value` stored under `handle` in place of what was there.
    pub open spec fn store(self, handle: usize, value: T) -> Self {
        if self.handles.contains(handle) {
            ListorView {
                handles: self.handles,
                values: self.values.update(self.handles.index_of(handle), value),
                vacant: self.vacant,
                bounded: self.bounded,
            }
        } else {
            self
        }
    }

    /// The list after all values were dropped: every slot is vacant, and
    /// they will be taken in index order.
    pub open spec fn clear(self) -> Self {
        Self::fresh(self.capacity(), self.bounded)
    }
}

} // verus!
