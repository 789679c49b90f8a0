//! The list itself: an arena of slots threaded into one chain.

use vstd::prelude::*;
use crate::chain::{
    lemma_covers, lemma_link_in, lemma_move_ahead, lemma_move_behind, lemma_remove_places,
    lemma_unlink, link_at, linked,
};
use crate::slot::{Entry, Node};
use crate::view::ListorView;

verus! {

/// A doubly linked list stored in one array.
///
/// Every value lives in a slot of the array and is known to callers by
/// the index of that slot, its handle.  A handle stays valid until its
/// value is removed; the slot is then reused by a later insertion.
pub struct Listor<T> {
    elements: Vec<Node<T>>,
    /// Number of occupied entries.
    count: usize,
    /// Index of first occupied entry.
    head: usize,
    /// Index of last occupied entry.
    tail: usize,
    /// False if the listor can grow.
    bounded: bool,
    /// The slots in the order in which the links thread them: first the
    /// occupied ones front to back, then the vacant ones.
    chain: Ghost<Seq<usize>>,
}

impl<T> View for Listor<T> {
    type V = ListorView<T>;

    closed spec fn view(&self) -> ListorView<T> {
        ListorView {
            handles: self.chain@.take(self.count as int),
            values: Seq::new(
                self.count as nat,
                |i: int| self.elements@[self.chain@[i] as int].data->Occupied_0,
            ),
            vacant: self.chain@.skip(self.count as int),
            bounded: self.bounded,
        }
    }
}

impl<T> Listor<T> {
    /// The chain runs through every slot of the arena.
    spec fn threaded(&self) -> bool {
        &&& linked(self.elements@, self.chain@)
        &&& self.chain@.len() == self.elements@.len()
    }

    /// Exactly the first `live` slots of the chain hold a value.
    spec fn occupied_prefix(&self, live: int) -> bool {
        forall|i: int|
            0 <= i < self.chain@.len() ==> ((#[trigger] self.elements@[self.chain@[i] as int]).data is Occupied
                <==> i < live)
    }

    /// `head` and `tail` are the ends of the occupied part of the chain; in
    /// an empty list both are its first slot, or 0 if there is no slot.
    spec fn ends_at(&self, live: int) -> bool {
        if self.chain@.len() == 0 {
            self.head == 0 && self.tail == 0
        } else {
            self.head == self.chain@[0] && self.tail == self.chain@[if live == 0 {
                0
            } else {
                live - 1
            }]
        }
    }

    /// The invariant of the list.
    pub closed spec fn wf(&self) -> bool {
        &&& self.threaded()
        &&& self.count <= self.elements@.len()
        &&& self.occupied_prefix(self.count as int)
        &&& self.ends_at(self.count as int)
    }

    /// The view of a well-formed list is well-formed.
    pub proof fn lemma_view_wf(&self)
        requires
            self.wf(),
        ensures
            self@.wf(),
    {
        let all = self@.handles + self@.vacant;
        assert(self.elements.len() == self.elements@.len());
        assert forall|i: int| 0 <= i < all.len() implies (#[trigger] all[i]) < all.len() by {
            assert(link_at(self.elements@, self.chain@, i));
        }
    }
}

impl<T> Listor<T> {
    /// Makes an empty list of `capacity` vacant slots, linked in index order.
    fn create(capacity: usize, bounded: bool) -> (r: Self)
        ensures
            r.wf(),
            r@ == ListorView::<T>::fresh(capacity as nat, bounded),
    {
        let mut elements: Vec<Node<T>> = Vec::with_capacity(capacity);
        let mut i: usize = 0;
        while i < capacity
            invariant
                i <= capacity,
                elements@.len() == i,
                forall|j: int|
                    0 <= j < i ==> Self::fresh_slot(#[trigger] elements@[j], j, capacity as int),
            decreases capacity - i,
        {
            elements.push(
                Node {
                    data: Entry::Vacant,
                    prev: i.saturating_sub(1),
                    next: i.saturating_add(1).min(capacity - 1),
                },
            );
            i += 1;
        }
        let r = Listor {
            elements,
            count: 0,
            head: 0,
            tail: 0,
            bounded,
            chain: Ghost(Seq::new(capacity as nat, |i: int| i as usize)),
        };
        proof {
            r.lemma_fresh();
        }
        r
    }

    /// Creates a new, unbounded, empty listor.
    pub fn new() -> (r: Self)
        ensures
            r.wf(),
            r@ == ListorView::<T>::fresh(0, false),
    {
        Self::create(0, false)
    }

    /// Creates a new, unbounded listor with `capacity` vacant entries.
    pub fn with_capacity(capacity: usize) -> (r: Self)
        ensures
            r.wf(),
            r@ == ListorView::<T>::fresh(capacity as nat, false),
    {
        Self::create(capacity, false)
    }

    /// Creates a new, bounded listor with `capacity` vacant entries.
    pub fn bounded(capacity: usize) -> (r: Self)
        ensures
            r.wf(),
            r@ == ListorView::<T>::fresh(capacity as nat, true),
    {
        Self::create(capacity, true)
    }

    /// Removes all elements from the Listor.
    ///
    /// The slots are kept; they will be taken again in index order.
    pub fn clear(&mut self)
        requires
            old(self).wf(),
        ensures
            final(self).wf(),
            final(self)@ == old(self)@.clear(),
    {
        let slots: usize = self.elements.len();
        let mut idx: usize = 0;
        while idx < slots
            invariant
                idx <= slots,
                self.elements@.len() == slots,
                self.bounded == old(self).bounded,
                forall|j: int|
                    0 <= j < idx ==> Self::fresh_slot(#[trigger] self.elements@[j], j, slots as int),
            decreases slots - idx,
        {
            self.elements[idx] = Node {
                data: Entry::Vacant,
                prev: idx.saturating_sub(1),
                next: idx.saturating_add(1).min(slots - 1),
            };
            idx += 1;
        }
        self.count = 0;
        self.head = 0;
        self.tail = 0;
        proof {
            self.chain@ = Seq::new(slots as nat, |i: int| i as usize);
            self.lemma_fresh();
        }
    }

    /// Returns the index where the next inserted item will be placed, or
    /// `None` if the list is bounded and full.
    pub fn next_vacant_index(&self) -> (r: Option<usize>)
        requires
            self.wf(),
        ensures
            r == self@.next_vacant(),
    {
        if let Some(idx) = self.next_free_idx() {
            Some(idx)
        } else if self.bounded {
            None
        } else {
            Some(self.elements.len())
        }
    }

    /// The first vacant slot of the chain, if there is one.
    fn next_free_idx(&self) -> (r: Option<usize>)
        requires
            self.wf(),
        ensures
            r == if self@.vacant.len() > 0 {
                Some(self@.vacant[0])
            } else {
                None
            },
    {
        proof {
            if self.elements@.len() > 0 {
                let at = if self.count == 0 { 0 } else { self.count - 1 };
                assert(link_at(self.elements@, self.chain@, at));
            }
        }
        if self.tail < self.elements.len() {
            let tail = &self.elements[self.tail];
            if let Entry::Vacant = tail.data {
                return Some(self.tail);
            } else if tail.next != self.tail {
                return Some(tail.next);
            }
        }
        None
    }

    /// Picks the slot for the next insertion and counts it as occupied.
    fn allocate(&mut self) -> (r: Option<usize>)
        requires
            old(self).wf(),
        ensures
            r == old(self)@.next_vacant(),
            r is None ==> *final(self) == *old(self),
            r matches Some(idx) ==> final(self).reserved(old(self)) && idx == final(self).chain@[old(
                self,
            ).count as int],
    {
        if let Some(idx) = self.next_free_idx() {
            assert(self@.vacant.len() == self.elements.len() - self.count);
            self.count += 1;
            Some(idx)
        } else if self.bounded {
            None
        } else {
            let idx: usize = self.elements.len();
            let ghost order = self.chain@;

            if self.tail < self.elements.len() {
                self.elements[self.tail].next = idx;
            }
            self.elements.push(Node { data: Entry::Vacant, prev: self.tail, next: idx });
            proof {
                self.chain@ = order.push(idx);
                Self::lemma_grown(old(self), self);
            }

            assert(self.count < self.elements.len());
            self.count += 1;
            Some(idx)
        }
    }

    /// Pushes an element to the back of the list and returns the index at which it can be accessed.
    ///
    /// Gives the element back if the list is bounded and full.
    pub fn push_back(&mut self, item: T) -> (r: Result<usize, T>)
        requires
            old(self).wf(),
        ensures
            final(self).wf(),
            r == match old(self)@.next_vacant() {
                Some(idx) => Ok::<usize, T>(idx),
                None => Err::<usize, T>(item),
            },
            final(self)@ == old(self)@.push_back(item),
    {
        match self.allocate() {
            Some(idx) => {
                let ghost reserved = *self;
                proof {
                    assert(link_at(self.elements@, self.chain@, old(self).count as int));
                }
                // The allocated element is guaranteed to be our tail.
                self.tail = idx;
                self.elements[idx].data = Entry::Occupied(item);
                proof {
                    Self::lemma_filled(old(self), &reserved, self, idx, item);
                    assert(self@.handles =~= old(self)@.handles.push(idx));
                    assert(self@.values =~= old(self)@.values.push(item));
                }

                Ok(idx)
            },
            None => Err(item),
        }
    }

    /// Pushes an element to the front of the list and returns the index at which it can be accessed.
    ///
    /// Gives the element back if the list is bounded and full.
    pub fn push_front(&mut self, item: T) -> (r: Result<usize, T>)
        requires
            old(self).wf(),
        ensures
            final(self).wf(),
            r == match old(self)@.next_vacant() {
                Some(idx) => Ok::<usize, T>(idx),
                None => Err::<usize, T>(item),
            },
            final(self)@ == old(self)@.push_front(item),
    {
        match self.allocate() {
            Some(idx) => {
                let ghost reserved = *self;
                let ghost live = old(self).count as int;
                proof {
                    assert(link_at(self.elements@, self.chain@, live));
                }
                self.elements[idx].data = Entry::Occupied(item);
                let ghost mid = *self;
                proof {
                    Self::lemma_filled(old(self), &reserved, self, idx, item);
                }

                if idx != self.head {
                    self.remove_node(idx);
                    proof {
                        lemma_remove_places(mid.chain@, live);
                    }
                    self.insert_before(idx, self.head);

                    self.head = idx;
                    proof {
                        Self::lemma_fronted(old(self), &mid, self, idx, item);
                    }
                } else {
                    proof {
                        assert(self@.handles =~= seq![idx] + old(self)@.handles);
                        assert(self@.values =~= seq![item] + old(self)@.values);
                    }
                }
                Ok(idx)
            },
            None => Err(item),
        }
    }

    /// Takes slot `idx` out of the chain it is in.  The slot keeps its own
    /// links; its neighbours are joined to each other.
    fn remove_node(&mut self, idx: usize)
        requires
            linked(old(self).elements@, old(self).chain@),
            old(self).chain@.contains(idx),
        ensures
            final(self).chain@ == old(self).chain@.remove(old(self).chain@.index_of(idx)),
            linked(final(self).elements@, final(self).chain@),
            final(self).only_links_differ(old(self)),
            final(self).others_kept(old(self), idx),
            final(self).elements@[idx as int] == old(self).elements@[idx as int],
    {
        let ghost before = self.elements@;
        let ghost order = self.chain@;
        let ghost p = order.index_of(idx);
        proof {
            assert(link_at(before, order, p));
            if p > 0 {
                assert(link_at(before, order, p - 1));
            }
            if p + 1 < order.len() {
                assert(link_at(before, order, p + 1));
            }
        }
        let node = &self.elements[idx];

        let prev: usize = node.prev;
        let next: usize = node.next;

        match (prev == idx, next == idx) {
            (true, true) => {},
            (false, true) => {
                // removing a tail
                self.elements[prev].next = prev;
            },
            (true, false) => {
                // removing a head
                self.elements[next].prev = next;
            },
            (false, false) => {
                self.elements[prev].next = next;
                self.elements[next].prev = prev;
            },
        }
        proof {
            lemma_unlink(before, self.elements@, order, p);
            self.chain@ = order.remove(p);
        }
    }

    /// Threads slot `idx`, which is in no chain, in immediately before `next`.
    fn insert_before(&mut self, idx: usize, next: usize)
        requires
            linked(old(self).elements@, old(self).chain@),
            idx < old(self).elements@.len(),
            !old(self).chain@.contains(idx),
            old(self).chain@.contains(next),
        ensures
            final(self).chain@ == old(self).chain@.insert(old(self).chain@.index_of(next), idx),
            linked(final(self).elements@, final(self).chain@),
            final(self).only_links_differ(old(self)),
            final(self).others_kept(old(self), idx),
    {
        let ghost before = self.elements@;
        let ghost order = self.chain@;
        let ghost q = order.index_of(next);
        proof {
            assert(link_at(before, order, q));
        }
        let node = &self.elements[next];

        let prev: usize = node.prev;

        if prev == next {
            // we want to insert before head
            self.elements[next].prev = idx;
            self.elements[idx].next = next;
            self.elements[idx].prev = idx;
            proof {
                lemma_link_in(before, self.elements@, order, q, idx);
                self.chain@ = order.insert(q, idx);
            }
        } else {
            self.insert_between(idx, prev, next);
        }
    }

    /// Threads slot `idx`, which is in no chain, in immediately after `prev`.
    fn insert_after(&mut self, idx: usize, prev: usize)
        requires
            linked(old(self).elements@, old(self).chain@),
            idx < old(self).elements@.len(),
            !old(self).chain@.contains(idx),
            old(self).chain@.contains(prev),
        ensures
            final(self).chain@ == old(self).chain@.insert(
                old(self).chain@.index_of(prev) + 1,
                idx,
            ),
            linked(final(self).elements@, final(self).chain@),
            final(self).only_links_differ(old(self)),
            final(self).others_kept(old(self), idx),
    {
        let ghost before = self.elements@;
        let ghost order = self.chain@;
        let ghost q = order.index_of(prev) + 1;
        proof {
            assert(link_at(before, order, q - 1));
        }
        let node = &self.elements[prev];

        let next: usize = node.next;

        if prev == next {
            // we want to insert after tail
            self.elements[prev].next = idx;
            self.elements[idx].prev = next;
            self.elements[idx].next = idx;
            proof {
                lemma_link_in(before, self.elements@, order, q, idx);
                self.chain@ = order.insert(q, idx);
            }
        } else {
            self.insert_between(idx, prev, next);
        }
    }

    /// Threads slot `idx`, which is in no chain, in between the adjacent
    /// slots `prev` and `next`.
    fn insert_between(&mut self, idx: usize, prev: usize, next: usize)
        requires
            linked(old(self).elements@, old(self).chain@),
            idx < old(self).elements@.len(),
            !old(self).chain@.contains(idx),
            old(self).chain@.contains(prev),
            old(self).chain@.contains(next),
            old(self).chain@.index_of(next) == old(self).chain@.index_of(prev) + 1,
        ensures
            final(self).chain@ == old(self).chain@.insert(old(self).chain@.index_of(next), idx),
            linked(final(self).elements@, final(self).chain@),
            final(self).only_links_differ(old(self)),
            final(self).others_kept(old(self), idx),
    {
        let ghost before = self.elements@;
        let ghost order = self.chain@;
        let ghost q = order.index_of(next);
        proof {
            assert(link_at(before, order, q));
            assert(link_at(before, order, q - 1));
        }
        self.elements[next].prev = idx;
        self.elements[idx].next = next;

        self.elements[idx].prev = prev;
        self.elements[prev].next = idx;
        proof {
            lemma_link_in(before, self.elements@, order, q, idx);
            self.chain@ = order.insert(q, idx);
        }
    }

    /// Pops an element off the back of the list.
    pub fn pop_back(&mut self) -> (r: Option<T>)
        requires
            old(self).wf(),
        ensures
            final(self).wf(),
            r == old(self)@.back(),
            final(self)@ == old(self)@.pop_back(),
    {
        proof {
            self.lemma_ends();
        }
        self.remove(self.tail)
    }

    /// Pops an element off the beginning of the list.
    pub fn pop_front(&mut self) -> (r: Option<T>)
        requires
            old(self).wf(),
        ensures
            final(self).wf(),
            r == old(self)@.front(),
            final(self)@ == old(self)@.pop_front(),
    {
        proof {
            self.lemma_ends();
        }
        self.remove(self.head)
    }

    /// Returns the number of occupied entries.
    pub fn len(&self) -> (r: usize)
        requires
            self.wf(),
        ensures
            r == self@.len(),
    {
        self.count
    }

    /// Removes an element from the list.
    ///
    /// Returns the value stored under `idx`, or `None` if there is none.
    /// The other values keep their order and their handles; `idx` is the
    /// handle that the next insertion will use.
    pub fn remove(&mut self, idx: usize) -> (r: Option<T>)
        requires
            old(self).wf(),
        ensures
            final(self).wf(),
            r == old(self)@.get(idx),
            final(self)@ == old(self)@.remove(idx),
    {
        proof {
            self.lemma_view_of_slot(idx);
        }
        if idx < self.elements.len() {
            let ghost order = self.chain@;
            let ghost p = order.index_of(idx);
            let ghost live = self.count as int;
            let mut data: Entry<T> = Entry::Vacant;
            core::mem::swap(&mut self.elements[idx].data, &mut data);
            match data {
                Entry::Vacant => {
                    assert(self.elements@ =~= old(self).elements@);
                    None
                },
                Entry::Occupied(item) => {
                    proof {
                        assert(link_at(old(self).elements@, order, p));
                        assert(linked(self.elements@, order)) by {
                            assert forall|i: int| 0 <= i < order.len() implies #[trigger] link_at(
                                self.elements@,
                                order,
                                i,
                            ) by {
                                assert(link_at(old(self).elements@, order, i));
                            }
                        }
                    }
                    if self.head != self.tail {
                        if idx == self.tail {
                            self.tail = self.elements[idx].prev;
                        } else {
                            if idx == self.head {
                                self.head = self.elements[idx].next;
                            }
                            self.remove_node(idx);
                            proof {
                                lemma_remove_places(order, p);
                            }
                            self.insert_after(idx, self.tail);
                        }
                    }
                    self.count -= 1;
                    proof {
                        Self::lemma_removed(old(self), self, idx);
                    }
                    Some(item)
                },
            }
        } else {
            None
        }
    }

    /// Returns a reference to the first value.
    pub fn peek_front(&self) -> (r: Option<&T>)
        requires
            self.wf(),
        ensures
            match r {
                Some(element) => self@.front() == Some(*element),
                None => self@.front() is None,
            },
    {
        proof {
            self.lemma_ends();
        }
        self.get(self.head)
    }

    /// Returns a reference to the last value.
    pub fn peek_back(&self) -> (r: Option<&T>)
        requires
            self.wf(),
        ensures
            match r {
                Some(element) => self@.back() == Some(*element),
                None => self@.back() is None,
            },
    {
        proof {
            self.lemma_ends();
        }
        self.get(self.tail)
    }

    /// Returns a reference to the indexed value.
    pub fn get(&self, idx: usize) -> (r: Option<&T>)
        requires
            self.wf(),
        ensures
            match r {
                Some(element) => self@.get(idx) == Some(*element),
                None => self@.get(idx) is None,
            },
    {
        proof {
            self.lemma_view_of_slot(idx);
        }
        if idx < self.elements.len() {
            match &self.elements[idx].data {
                Entry::Vacant => None,
                Entry::Occupied(element) => Some(element),
            }
        } else {
            None
        }
    }

    /// Returns a mutable reference to the indexed value.
    pub fn get_mut(&mut self, idx: usize) -> (r: Option<&mut T>)
        requires
            old(self).wf(),
        ensures
            final(self).wf(),
            match r {
                Some(element) => old(self)@.get(idx) == Some(*element) && final(self)@ == old(
                    self,
                )@.store(idx, *final(element)),
                None => old(self)@.get(idx) is None && final(self)@ == old(self)@,
            },
    {
        proof {
            self.lemma_view_of_slot(idx);
            assert forall|post: Self| post.same_as(old(self)) implies #[trigger] post.wf() by {}
            if self@.handles.contains(idx) {
                assert forall|post: Self| post.stores(old(self), idx) implies #[trigger] post.wf() by {
                    Self::lemma_stored(old(self), &post, idx, post.elements@[idx as int].data->Occupied_0);
                }
                assert forall|post: Self| post.stores(old(self), idx) implies #[trigger] post@ == old(
                    self,
                )@.store(idx, post.elements@[idx as int].data->Occupied_0) by {
                    Self::lemma_stored(old(self), &post, idx, post.elements@[idx as int].data->Occupied_0);
                }
            }
        }
        if idx < self.elements.len() {
            match &mut self.elements[idx].data {
                Entry::Vacant => None,
                Entry::Occupied(element) => Some(element),
            }
        } else {
            None
        }
    }

    /// Iterate over the elements, from front to back.
    pub fn iter(&self) -> (r: Iter<'_, T>)
        requires
            self.wf(),
        ensures
            r.wf(),
            r.remaining() == self@.values,
    {
        proof {
            if self.count > 0 {
                assert(link_at(self.elements@, self.chain@, 0));
            }
        }
        Iter { listor: self, current: self.head }
    }

    /// Returns a reference to the value stored under `index`, which the
    /// caller knows to be there.
    pub fn index(&self, index: usize) -> (r: &T)
        requires
            self.wf(),
            self@.contains(index),
        ensures
            self@.get(index) == Some(*r),
    {
        self.get(index).expect("Out of bounds access")
    }

    /// Returns a mutable reference to the value stored under `index`, which
    /// the caller knows to be there.
    pub fn index_mut(&mut self, index: usize) -> (r: &mut T)
        requires
            old(self).wf(),
            old(self)@.contains(index),
        ensures
            final(self).wf(),
            old(self)@.get(index) == Some(*r),
            final(self)@ == old(self)@.store(index, *final(r)),
    {
        self.get_mut(index).expect("Out of bounds access")
    }
}

impl<T> Default for Listor<T> {
    fn default() -> (r: Self)
        ensures
            r.wf(),
            r@ == ListorView::<T>::fresh(0, false),
    {
        Self::new()
    }
}

/// A walk over the values of a list, from front to back.
pub struct Iter<'a, T> {
    listor: &'a Listor<T>,
    current: usize,
}

impl<'a, T> Iter<'a, T> {
    /// The list that is walked is well-formed.
    pub closed spec fn wf(&self) -> bool {
        self.listor.wf()
    }

    /// The values that are still to come, in the order in which they come.
    pub closed spec fn remaining(&self) -> Seq<T> {
        let at = self.listor.chain@.index_of(self.current);
        if self.current < self.listor.elements@.len() && at < self.listor.count {
            self.listor@.values.skip(at)
        } else {
            Seq::empty()
        }
    }

    /// Returns the next value, or `None` once the last one was returned.
    pub fn next(&mut self) -> (r: Option<&'a T>)
        requires
            old(self).wf(),
        ensures
            final(self).wf(),
            match r {
                Some(element) => {
                    &&& old(self).remaining().len() > 0
                    &&& *element == old(self).remaining().first()
                    &&& final(self).remaining() == old(self).remaining().drop_first()
                },
                None => old(self).remaining().len() == 0 && final(self).remaining().len() == 0,
            },
    {
        let listor: &'a Listor<T> = self.listor;
        if self.current < listor.elements.len() {
            let ghost at = listor.chain@.index_of(self.current);
            proof {
                listor.lemma_view_of_slot(self.current);
                assert(link_at(listor.elements@, listor.chain@, at));
                if at + 1 < listor.chain@.len() {
                    assert(link_at(listor.elements@, listor.chain@, at + 1));
                }
            }
            let node = &listor.elements[self.current];
            self.current = if node.next == self.current {
                listor.elements.len()
            } else {
                node.next
            };

            match &node.data {
                Entry::Occupied(data) => Some(data),
                _ => None,
            }
        } else {
            None
        }
    }
}

// What holds between the steps of an operation.

impl<T> Listor<T> {
    /// Nothing but links differs from `before`.
    spec fn only_links_differ(&self, before: &Self) -> bool {
        &&& self.elements@.len() == before.elements@.len()
        &&& forall|j: int|
            0 <= j < self.elements@.len() ==> (#[trigger] self.elements@[j]).data
                == before.elements@[j].data
        &&& self.count == before.count
        &&& self.head == before.head
        &&& self.tail == before.tail
        &&& self.bounded == before.bounded
    }

    /// The slots that neither `before`'s chain nor `idx` names are as in `before`.
    spec fn others_kept(&self, before: &Self, idx: usize) -> bool {
        forall|j: int|
            0 <= j < self.elements@.len() && j != idx && !before.chain@.contains(j as usize)
                ==> #[trigger] self.elements@[j] == before.elements@[j]
    }

    /// The slot `j` of a fresh arena of `slots` slots: empty, and linked to
    /// its neighbours by index.
    spec fn fresh_slot(node: Node<T>, j: int, slots: int) -> bool {
        &&& node.data is Vacant
        &&& node.prev == if j == 0 { 0 } else { j - 1 }
        &&& node.next == if j + 1 < slots { j + 1 } else { j }
    }

    /// `self` is `before` with one more slot counted as occupied: the slot
    /// at the end of the values, taken from the vacant ones or newly added
    /// to the arena, and still empty.
    spec fn reserved(&self, before: &Self) -> bool {
        let live = before.count as int;
        let slots = before.elements@.len();
        &&& self.chain@ == if live < slots {
            before.chain@
        } else {
            before.chain@.push(slots as usize)
        }
        &&& self.threaded()
        &&& self.occupied_prefix(live)
        &&& self.ends_at(live)
        &&& forall|j: int|
            0 <= j < slots ==> (#[trigger] self.elements@[j]).data == before.elements@[j].data
        &&& self.count == live + 1
        &&& self.head == before.head
        &&& self.tail == before.tail
        &&& self.bounded == before.bounded
    }

    /// `self` is `before` with `item` stored under `idx`, the slot that
    /// follows the old values in the chain.
    spec fn filled(&self, before: &Self, idx: usize, item: T) -> bool {
        let live = before.count as int;
        &&& self.threaded()
        &&& self.count == live + 1
        &&& self.count <= self.elements@.len()
        &&& self.occupied_prefix(live + 1)
        &&& self.bounded == before.bounded
        &&& self.chain@[live] == idx
        &&& before@.next_vacant() == Some(idx)
        &&& self.elements@[idx as int].data == Entry::Occupied(item)
        &&& self.chain@.take(live) =~= before@.handles
        &&& self.chain@.skip(live + 1) =~= before@.vacant_after_insert()
        &&& forall|i: int|
            0 <= i < live ==> (#[trigger] self.elements@[self.chain@[i] as int]).data
                == Entry::Occupied(before@.values[i])
    }

    /// `self` has the slots, the chain and the registers of `before`.
    spec fn same_as(&self, before: &Self) -> bool {
        &&& self.elements@ =~= before.elements@
        &&& self.chain@ == before.chain@
        &&& self.count == before.count
        &&& self.head == before.head
        &&& self.tail == before.tail
        &&& self.bounded == before.bounded
    }

    /// `self` is `before` with another value in the occupied slot `idx`.
    spec fn stores(&self, before: &Self, idx: usize) -> bool {
        &&& self.elements@[idx as int].data is Occupied
        &&& self.elements@ == before.elements@.update(
            idx as int,
            Node {
                data: self.elements@[idx as int].data,
                prev: before.elements@[idx as int].prev,
                next: before.elements@[idx as int].next,
            },
        )
        &&& self.chain@ == before.chain@
        &&& self.count == before.count
        &&& self.head == before.head
        &&& self.tail == before.tail
        &&& self.bounded == before.bounded
    }
}

// Why the operations keep the invariant and do to the view what they state.

impl<T> Listor<T> {
    /// In a well-formed list a slot holds a value exactly if its handle is
    /// among the live ones, and the view lists that value at the slot's
    /// place in the chain.
    proof fn lemma_view_of_slot(&self, idx: usize)
        requires
            self.wf(),
        ensures
            self@.handles.contains(idx) <==> idx < self.elements@.len()
                && self.elements@[idx as int].data is Occupied,
            self@.handles.contains(idx) ==> {
                &&& self@.handles.index_of(idx) == self.chain@.index_of(idx)
                &&& 0 <= self.chain@.index_of(idx) < self.count
                &&& self@.get(idx) == Some(self.elements@[idx as int].data->Occupied_0)
            },
            idx < self.elements@.len() ==> {
                &&& self.chain@.contains(idx)
                &&& 0 <= self.chain@.index_of(idx) < self.chain@.len()
                &&& self.chain@[self.chain@.index_of(idx)] == idx
            },
    {
        let order = self.chain@;
        let handles = self@.handles;
        assert forall|i: int| 0 <= i < order.len() implies (#[trigger] order[i]) < order.len() by {
            assert(link_at(self.elements@, order, i));
        }
        if idx < self.elements@.len() {
            lemma_covers(order, idx);
            let p = order.index_of(idx);
            if p < self.count {
                assert(handles[p] == idx);
            }
        }
    }

    /// `head` and `tail` are the handles of the first and the last value;
    /// in an empty list nothing is stored under either.
    proof fn lemma_ends(&self)
        requires
            self.wf(),
        ensures
            self@.len() > 0 ==> {
                &&& self.head == self@.handles.first()
                &&& self.tail == self@.handles.last()
                &&& self@.get(self.head) == self@.front()
                &&& self@.get(self.tail) == self@.back()
            },
            self@.len() == 0 ==> {
                &&& !self@.handles.contains(self.head)
                &&& !self@.handles.contains(self.tail)
                &&& self@.front() is None
                &&& self@.back() is None
            },
            self@.len() == self@.values.len(),
    {
        self.lemma_view_of_slot(self.head);
        self.lemma_view_of_slot(self.tail);
    }

    /// An arena of fresh slots, with the registers at zero, is an empty
    /// list whose slots will be taken in index order.
    proof fn lemma_fresh(&self)
        requires
            forall|j: int|
                0 <= j < self.elements@.len() ==> Self::fresh_slot(
                    #[trigger] self.elements@[j],
                    j,
                    self.elements@.len() as int,
                ),
            self.chain@ == Seq::new(self.elements@.len(), |i: int| i as usize),
            self.count == 0,
            self.head == 0,
            self.tail == 0,
        ensures
            self.wf(),
            self@ == ListorView::<T>::fresh(self.elements@.len(), self.bounded),
    {
        assert(self.elements.len() == self.elements@.len());
        assert(self@.handles =~= Seq::<usize>::empty());
        assert(self@.values =~= Seq::<T>::empty());
        assert(self@.vacant =~= Seq::new(self.elements@.len(), |i: int| i as usize));
    }

    /// A new slot that was appended to a full arena, linked behind the
    /// old end of the chain, extends the chain by itself.
    proof fn lemma_grown(pre: &Self, post: &Self)
        requires
            pre.wf(),
            pre.count == pre.elements@.len(),
            post.chain@ == pre.chain@.push(pre.elements@.len() as usize),
            post.elements@.len() == pre.elements@.len() + 1,
            post.elements@.last() == (Node {
                data: Entry::<T>::Vacant,
                prev: pre.tail,
                next: pre.elements@.len() as usize,
            }),
            forall|j: int|
                0 <= j < pre.elements@.len() ==> {
                    &&& (#[trigger] post.elements@[j]).data == pre.elements@[j].data
                    &&& post.elements@[j].prev == pre.elements@[j].prev
                    &&& post.elements@[j].next == if j == pre.tail {
                        pre.elements@.len() as usize
                    } else {
                        pre.elements@[j].next
                    }
                },
            post.head == pre.head,
            post.tail == pre.tail,
        ensures
            post.threaded(),
            post.occupied_prefix(pre.count as int),
            post.ends_at(pre.count as int),
    {
        let order = pre.chain@;
        let grown = post.chain@;
        assert forall|i: int| 0 <= i < grown.len() implies #[trigger] link_at(
            post.elements@,
            grown,
            i,
        ) by {
            if i < order.len() {
                assert(link_at(pre.elements@, order, i));
            }
        }
        assert forall|i: int| 0 <= i < grown.len() implies ((
        #[trigger] post.elements@[grown[i] as int]).data is Occupied <==> i < pre.count) by {
            if i < order.len() {
                assert(link_at(pre.elements@, order, i));
            }
        }
    }

    /// Storing a value in the reserved slot fills it.
    proof fn lemma_filled(pre: &Self, reserved: &Self, post: &Self, idx: usize, item: T)
        requires
            pre.wf(),
            reserved.reserved(pre),
            idx == reserved.chain@[pre.count as int],
            pre@.next_vacant() == Some(idx),
            post.chain@ == reserved.chain@,
            post.count == reserved.count,
            post.bounded == reserved.bounded,
            post.elements@ == reserved.elements@.update(
                idx as int,
                Node {
                    data: Entry::Occupied(item),
                    prev: reserved.elements@[idx as int].prev,
                    next: reserved.elements@[idx as int].next,
                },
            ),
        ensures
            post.filled(pre, idx, item),
    {
        let order = post.chain@;
        let live = pre.count as int;
        assert(link_at(reserved.elements@, order, live));
        assert forall|i: int| 0 <= i < order.len() implies #[trigger] link_at(
            post.elements@,
            order,
            i,
        ) by {
            assert(link_at(reserved.elements@, order, i));
        }
        assert forall|i: int| 0 <= i < order.len() implies ((
        #[trigger] post.elements@[order[i] as int]).data is Occupied <==> i < live + 1) by {
            assert(link_at(reserved.elements@, order, i));
        }
        assert forall|i: int| 0 <= i < live implies (#[trigger] post.elements@[order[i] as int]).data
            == Entry::Occupied(pre@.values[i]) by {
            assert(link_at(reserved.elements@, order, i));
        }
    }

    /// A filled slot that was moved from behind the old values to the
    /// front of the chain makes its value the first of the list.
    proof fn lemma_fronted(pre: &Self, mid: &Self, post: &Self, idx: usize, item: T)
        requires
            pre.wf(),
            pre.count > 0,
            mid.filled(pre, idx, item),
            post.chain@ == mid.chain@.remove(pre.count as int).insert(0, idx),
            linked(post.elements@, post.chain@),
            post.elements@.len() == mid.elements@.len(),
            forall|j: int|
                0 <= j < mid.elements@.len() ==> (#[trigger] post.elements@[j]).data
                    == mid.elements@[j].data,
            post.count == mid.count,
            post.bounded == mid.bounded,
            post.head == idx,
            post.tail == pre.tail,
        ensures
            post.wf(),
            post@ == pre@.push_front(item),
    {
        let order = mid.chain@;
        let after = post.chain@;
        let live = pre.count as int;
        lemma_move_ahead(order, live);
        assert forall|i: int| 0 <= i < after.len() implies ((
        #[trigger] post.elements@[after[i] as int]).data is Occupied <==> i < live + 1) by {
            let oi = if i == 0 { live } else if i <= live { i - 1 } else { i };
            assert(link_at(mid.elements@, order, oi));
        }
        assert(post@.values =~= seq![item] + pre@.values) by {
            assert forall|i: int| 0 <= i < live + 1 implies post@.values[i] == (seq![item]
                + pre@.values)[i] by {
                assert(link_at(mid.elements@, order, if i == 0 { live } else { i - 1 }));
            }
        }
    }

    /// A list that was well-formed stays so, and shows the removal of
    /// `idx`, once that slot was emptied and moved right behind the values
    /// that remain.
    proof fn lemma_removed(pre: &Self, post: &Self, idx: usize)
        requires
            pre.wf(),
            pre@.handles.contains(idx),
            post.chain@ =~= pre.chain@.remove(pre.chain@.index_of(idx)).insert(
                pre.count - 1,
                idx,
            ),
            linked(post.elements@, post.chain@),
            post.elements@.len() == pre.elements@.len(),
            forall|j: int|
                0 <= j < pre.elements@.len() && j != idx ==> (#[trigger] post.elements@[j]).data
                    == pre.elements@[j].data,
            post.elements@[idx as int].data is Vacant,
            post.count == pre.count - 1,
            post.bounded == pre.bounded,
            post.head == post.chain@[0],
            post.tail == post.chain@[if post.count == 0 { 0 } else { post.count - 1 }],
        ensures
            post.wf(),
            post@ == pre@.remove(idx),
    {
        let order = pre.chain@;
        let after = post.chain@;
        let p = order.index_of(idx);
        let live = pre.count as int;
        lemma_move_behind(order, p, live);
        assert forall|i: int| 0 <= i < after.len() implies ((
        #[trigger] post.elements@[after[i] as int]).data is Occupied <==> i < live - 1) by {
            let oi = if i < p { i } else if i < live - 1 { i + 1 } else if i == live - 1 { p } else { i };
            assert(link_at(pre.elements@, order, oi));
        }
        assert(post@.values =~= pre@.values.remove(p)) by {
            assert forall|i: int| 0 <= i < live - 1 implies post@.values[i] == pre@.values.remove(p)[i] by {
                assert(link_at(pre.elements@, order, if i < p { i } else { i + 1 }));
            }
        }
    }

    /// Replacing the value in an occupied slot changes that value in the
    /// view and nothing else.
    proof fn lemma_stored(pre: &Self, post: &Self, idx: usize, value: T)
        requires
            pre.wf(),
            pre@.handles.contains(idx),
            post.stores(pre, idx),
            post.elements@[idx as int].data == Entry::Occupied(value),
        ensures
            post.wf(),
            post@ == pre@.store(idx, value),
    {
        pre.lemma_view_of_slot(idx);
        let order = pre.chain@;
        let p = order.index_of(idx);
        assert forall|i: int| 0 <= i < order.len() implies #[trigger] link_at(
            post.elements@,
            order,
            i,
        ) by {
            assert(link_at(pre.elements@, order, i));
        }
        assert forall|i: int| 0 <= i < order.len() implies ((
        #[trigger] post.elements@[order[i] as int]).data is Occupied <==> i < pre.count) by {
            assert(link_at(pre.elements@, order, i));
        }
        assert(post@.values =~= pre@.values.update(p, value)) by {
            assert forall|i: int| 0 <= i < pre.count implies post@.values[i] == pre@.values.update(
                p,
                value,
            )[i] by {
                assert(link_at(pre.elements@, order, i));
            }
        }
    }
}

} // verus!
