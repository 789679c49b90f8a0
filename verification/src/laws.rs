//! What holds of every list, stated over its abstract state.

use vstd::prelude::*;
use crate::view::ListorView;

verus! {

/// A call at one end of a list.
pub enum EndOp<T> {
    PushBack(T),
    PushFront(T),
    PopBack,
    PopFront,
}

impl<T> EndOp<T> {
    /// Whether the call inserts a value.
    pub open spec fn is_push(self) -> bool {
        self is PushBack || self is PushFront
    }

    /// The value that the call inserts, if it inserts one.
    pub open spec fn pushed(self) -> Option<T> {
        match self {
            EndOp::PushBack(item) | EndOp::PushFront(item) => Some(item),
            _ => None,
        }
    }
}

impl<T> ListorView<T> {
    /// The most values the list can hold, if there is such a limit.
    pub open spec fn limit(self) -> Option<nat> {
        if self.bounded {
            Some(self.capacity())
        } else {
            None
        }
    }

    /// The list after the call `op`.
    pub open spec fn step(self, op: EndOp<T>) -> Self {
        match op {
            EndOp::PushBack(item) => self.push_back(item),
            EndOp::PushFront(item) => self.push_front(item),
            EndOp::PopBack => self.pop_back(),
            EndOp::PopFront => self.pop_front(),
        }
    }

    /// The value that the call `op` hands to the caller: the value popped,
    /// or the value that a push could not place.
    pub open spec fn step_yield(self, op: EndOp<T>) -> Option<T> {
        match op {
            EndOp::PushBack(item) | EndOp::PushFront(item) => if self.next_vacant() is None {
                Some(item)
            } else {
                None
            },
            EndOp::PopBack => self.back(),
            EndOp::PopFront => self.front(),
        }
    }

    /// The list after the calls `ops`, made in order.
    pub open spec fn run(self, ops: Seq<EndOp<T>>) -> Self
        decreases ops.len(),
    {
        if ops.len() == 0 {
            self
        } else {
            self.run(ops.drop_last()).step(ops.last())
        }
    }

    /// An insertion does not take the size of the arena out of the
    /// machine's range of indices.
    pub open spec fn can_grow(self) -> bool {
        self.bounded || self.vacant.len() > 0 || self.capacity() < usize::MAX
    }
}

/// A double-ended queue of at most `limit` values after the call `op`.
pub open spec fn deque_step<T>(items: Seq<T>, limit: Option<nat>, op: EndOp<T>) -> Seq<T> {
    match op {
        EndOp::PushBack(item) => if limit == Some(items.len()) {
            items
        } else {
            items.push(item)
        },
        EndOp::PushFront(item) => if limit == Some(items.len()) {
            items
        } else {
            seq![item] + items
        },
        EndOp::PopBack => if items.len() > 0 {
            items.drop_last()
        } else {
            items
        },
        EndOp::PopFront => if items.len() > 0 {
            items.drop_first()
        } else {
            items
        },
    }
}

/// What the call `op` hands back from a double-ended queue of at most
/// `limit` values: the value at the end it pops, or the value that does
/// not fit.
pub open spec fn deque_yield<T>(items: Seq<T>, limit: Option<nat>, op: EndOp<T>) -> Option<T> {
    match op {
        EndOp::PushBack(item) | EndOp::PushFront(item) => if limit == Some(items.len()) {
            Some(item)
        } else {
            None
        },
        EndOp::PopBack => if items.len() > 0 {
            Some(items.last())
        } else {
            None
        },
        EndOp::PopFront => if items.len() > 0 {
            Some(items.first())
        } else {
            None
        },
    }
}

/// A double-ended queue of at most `limit` values after the calls `ops`.
pub open spec fn deque_run<T>(items: Seq<T>, limit: Option<nat>, ops: Seq<EndOp<T>>) -> Seq<T>
    decreases ops.len(),
{
    if ops.len() == 0 {
        items
    } else {
        deque_step(deque_run(items, limit, ops.drop_last()), limit, ops.last())
    }
}

/// The live handles of a well-formed list are distinct, below the
/// capacity, and none of them is vacant.
pub proof fn lemma_handles<T>(v: ListorView<T>)
    requires
        v.wf(),
    ensures
        v.handles.no_duplicates(),
        v.vacant.no_duplicates(),
        forall|i: int| 0 <= i < v.handles.len() ==> (#[trigger] v.handles[i]) < v.capacity(),
        forall|i: int| 0 <= i < v.vacant.len() ==> (#[trigger] v.vacant[i]) < v.capacity(),
        forall|i: int, j: int|
            0 <= i < v.handles.len() && 0 <= j < v.vacant.len() ==> v.handles[i] != v.vacant[j],
{
    let all = v.handles + v.vacant;
    assert forall|i: int, j: int| 0 <= i < v.handles.len() && 0 <= j < v.handles.len() && i
        != j implies v.handles[i] != v.handles[j] by {
        assert(all[i] == v.handles[i] && all[j] == v.handles[j]);
    }
    assert forall|i: int, j: int| 0 <= i < v.vacant.len() && 0 <= j < v.vacant.len() && i
        != j implies v.vacant[i] != v.vacant[j] by {
        assert(all[v.handles.len() + i] == v.vacant[i] && all[v.handles.len() + j] == v.vacant[j]);
    }
    assert forall|i: int| 0 <= i < v.handles.len() implies (#[trigger] v.handles[i]) < v.capacity() by {
        assert(all[i] == v.handles[i]);
    }
    assert forall|i: int| 0 <= i < v.vacant.len() implies (#[trigger] v.vacant[i]) < v.capacity() by {
        assert(all[v.handles.len() + i] == v.vacant[i]);
    }
    assert forall|i: int, j: int|
        0 <= i < v.handles.len() && 0 <= j < v.vacant.len() implies v.handles[i] != v.vacant[j] by {
        assert(all[i] == v.handles[i] && all[v.handles.len() + j] == v.vacant[j]);
    }
}

/// A fresh list is well-formed, holds nothing, and has the capacity it
/// was made with.
pub proof fn lemma_fresh<T>(capacity: nat, bounded: bool)
    requires
        capacity <= usize::MAX,
    ensures
        ListorView::<T>::fresh(capacity, bounded).wf(),
        ListorView::<T>::fresh(capacity, bounded).len() == 0,
        ListorView::<T>::fresh(capacity, bounded).capacity() == capacity,
{
}

/// An insertion into a well-formed list that has room leaves a
/// well-formed list with one value more under the handle that was next;
/// the capacity grows by one slot if no slot was vacant, and not
/// otherwise.  Without room the list stays as it is, and that happens
/// exactly if the list is bounded and full.
pub proof fn lemma_push<T>(v: ListorView<T>, item: T)
    requires
        v.wf(),
        v.can_grow(),
    ensures
        v.next_vacant() is None <==> v.bounded && v.len() == v.capacity(),
        v.next_vacant() is None ==> v.push_back(item) == v && v.push_front(item) == v,
        v.next_vacant() matches Some(handle) ==> {
            let back = v.push_back(item);
            let front = v.push_front(item);
            &&& !v.contains(handle)
            &&& back.wf() && front.wf()
            &&& back.len() == v.len() + 1 && front.len() == v.len() + 1
            &&& back.values == v.values.push(item) && front.values == seq![item] + v.values
            &&& back.get(handle) == Some(item) && front.get(handle) == Some(item)
            &&& back.capacity() == front.capacity()
            &&& back.capacity() == if v.vacant.len() > 0 {
                v.capacity()
            } else {
                v.capacity() + 1
            }
            &&& back.bounded == v.bounded && front.bounded == v.bounded
            &&& forall|other: usize|
                other != handle ==> #[trigger] back.get(other) == v.get(other)
            &&& forall|other: usize|
                other != handle ==> #[trigger] front.get(other) == v.get(other)
        },
{
    lemma_handles(v);
    if v.next_vacant() is Some {
        let handle = v.next_vacant()->Some_0;
        let back = v.push_back(item);
        let front = v.push_front(item);
        assert(back.handles.contains(handle) && back.handles.index_of(handle) == v.handles.len()) by {
            assert(back.handles[v.handles.len() as int] == handle);
        }
        assert(front.handles.contains(handle) && front.handles.index_of(handle) == 0) by {
            assert(front.handles[0] == handle);
        }
        assert forall|other: usize| other != handle implies #[trigger] back.get(other) == v.get(
            other,
        ) by {
            if v.handles.contains(other) {
                let i = v.handles.index_of(other);
                assert(back.handles[i] == other);
            } else if back.handles.contains(other) {
                let i = back.handles.index_of(other);
                assert(v.handles[i] == other);
            }
        }
        assert forall|other: usize| other != handle implies #[trigger] front.get(other) == v.get(
            other,
        ) by {
            if v.handles.contains(other) {
                let i = v.handles.index_of(other);
                assert(front.handles[i + 1] == other);
            } else if front.handles.contains(other) {
                let i = front.handles.index_of(other);
                assert(v.handles[i - 1] == other);
            }
        }
    }
}

/// Removing a stored value leaves a well-formed list of the same
/// capacity with one value fewer.  The values that remain keep their
/// handles and their order, and the freed handle is the next to be used.
/// Removing under a handle that stores nothing changes nothing.
pub proof fn lemma_remove<T>(v: ListorView<T>, handle: usize)
    requires
        v.wf(),
    ensures
        !v.contains(handle) ==> v.remove(handle) == v,
        v.contains(handle) ==> {
            let after = v.remove(handle);
            let at = v.handles.index_of(handle);
            &&& 0 <= at < v.len()
            &&& v.handles[at] == handle
            &&& after.wf()
            &&& after.len() == v.len() - 1
            &&& after.capacity() == v.capacity()
            &&& after.bounded == v.bounded
            &&& after.values == v.values.remove(at)
            &&& after.handles == v.handles.remove(at)
            &&& !after.contains(handle)
            &&& after.get(handle) is None
            &&& after.next_vacant() == Some(handle)
        },
        forall|other: usize| other != handle ==> #[trigger] v.remove(handle).get(other) == v.get(other),
{
    lemma_handles(v);
    if v.contains(handle) {
        let after = v.remove(handle);
        let at = v.handles.index_of(handle);
        assert forall|other: usize| other != handle implies #[trigger] after.get(other) == v.get(
            other,
        ) by {
            if v.handles.contains(other) {
                let i = v.handles.index_of(other);
                assert(after.handles[if i < at { i } else { i - 1 }] == other);
            }
        }
    }
}

/// Storing another value under a live handle changes that value and
/// nothing else.
pub proof fn lemma_store<T>(v: ListorView<T>, handle: usize, value: T)
    requires
        v.wf(),
        v.contains(handle),
    ensures
        v.store(handle, value).wf(),
        v.store(handle, value).handles == v.handles,
        v.store(handle, value).vacant == v.vacant,
        v.store(handle, value).bounded == v.bounded,
        v.store(handle, value).get(handle) == Some(value),
        forall|other: usize|
            other != handle ==> #[trigger] v.store(handle, value).get(other) == v.get(other),
{
}

/// A handle keeps its value through every call at an end of the list
/// but the one that pops that value.
pub proof fn lemma_handle_stable<T>(v: ListorView<T>, op: EndOp<T>, handle: usize)
    requires
        v.wf(),
        v.can_grow(),
        v.contains(handle),
        op is PopBack ==> handle != v.handles.last(),
        op is PopFront ==> handle != v.handles.first(),
    ensures
        v.step(op).get(handle) == v.get(handle),
{
    match op {
        EndOp::PushBack(item) => {
            lemma_push(v, item);
        },
        EndOp::PushFront(item) => {
            lemma_push(v, item);
        },
        EndOp::PopBack => {
            lemma_remove(v, v.handles.last());
        },
        EndOp::PopFront => {
            lemma_remove(v, v.handles.first());
        },
    }
}

/// Every call at an end of a well-formed list leaves a well-formed list
/// whose values are those of a double-ended queue after the same call,
/// and hands the caller what the queue would.
pub proof fn lemma_deque_step<T>(v: ListorView<T>, op: EndOp<T>)
    requires
        v.wf(),
        v.can_grow(),
    ensures
        v.step(op).wf(),
        v.step(op).values == deque_step(v.values, v.limit(), op),
        v.step_yield(op) == deque_yield(v.values, v.limit(), op),
        v.step(op).limit() == v.limit(),
        v.step(op).bounded == v.bounded,
        v.step(op).capacity() == if op.is_push() && v.vacant.len() == 0 && !v.bounded {
            v.capacity() + 1
        } else {
            v.capacity()
        },
{
    lemma_handles(v);
}

/// Whatever calls are made at the ends of a list, in whatever order, its
/// values are those of a double-ended queue after the same calls, and
/// each call hands the caller what the queue would.
pub proof fn lemma_deque<T>(v: ListorView<T>, ops: Seq<EndOp<T>>)
    requires
        v.wf(),
        v.bounded || v.capacity() + ops.len() <= usize::MAX,
    ensures
        v.run(ops).wf(),
        v.run(ops).bounded == v.bounded,
        v.run(ops).limit() == v.limit(),
        v.run(ops).capacity() <= v.capacity() + ops.len(),
        v.run(ops).values == deque_run(v.values, v.limit(), ops),
        forall|k: int|
            0 <= k < ops.len() ==> (#[trigger] v.run(ops.take(k))).step_yield(ops[k]) == deque_yield(
                deque_run(v.values, v.limit(), ops.take(k)),
                v.limit(),
                ops[k],
            ),
    decreases ops.len(),
{
    if ops.len() > 0 {
        let before = ops.drop_last();
        lemma_deque(v, before);
        lemma_deque_step(v.run(before), ops.last());
        assert forall|k: int| 0 <= k < ops.len() implies (#[trigger] v.run(ops.take(k))).step_yield(
            ops[k],
        ) == deque_yield(deque_run(v.values, v.limit(), ops.take(k)), v.limit(), ops[k]) by {
            if k < before.len() {
                assert(ops.take(k) =~= before.take(k));
            }
        }
    }
}

/// The number of stored values is the number of handles under which a
/// value is stored.
pub proof fn lemma_len_counts_handles<T>(v: ListorView<T>)
    requires
        v.wf(),
    ensures
        Set::new(|handle: usize| v.get(handle) is Some).finite(),
        Set::new(|handle: usize| v.get(handle) is Some).len() == v.len(),
{
    lemma_handles(v);
    v.handles.unique_seq_to_set();
    assert(Set::new(|handle: usize| v.get(handle) is Some) =~= v.handles.to_set());
}

/// Removing any stored value keeps the others in their relative order:
/// of two handles that remain, the one that came first still comes first.
pub proof fn lemma_remove_keeps_order<T>(v: ListorView<T>, handle: usize, first: usize, second: usize)
    requires
        v.wf(),
        v.contains(handle),
        v.contains(first),
        v.contains(second),
        first != handle,
        second != handle,
    ensures
        v.remove(handle).contains(first),
        v.remove(handle).contains(second),
        v.handles.index_of(first) < v.handles.index_of(second) <==> v.remove(handle).handles.index_of(
            first,
        ) < v.remove(handle).handles.index_of(second),
        v.remove(handle).values == v.values.remove(v.handles.index_of(handle)),
{
    lemma_handles(v);
    let after = v.remove(handle);
    let at = v.handles.index_of(handle);
    let i = v.handles.index_of(first);
    let j = v.handles.index_of(second);
    let i2 = if i < at { i } else { i - 1 };
    let j2 = if j < at { j } else { j - 1 };
    assert(after.handles[i2] == first);
    assert(after.handles[j2] == second);
}

/// Insertions that find a vacant slot each take the vacant slots in
/// order and leave the capacity as it is.
pub proof fn lemma_pushes_reuse<T>(v: ListorView<T>, ops: Seq<EndOp<T>>)
    requires
        v.wf(),
        forall|k: int| 0 <= k < ops.len() ==> (#[trigger] ops[k]).is_push(),
        ops.len() <= v.vacant.len(),
    ensures
        v.run(ops).wf(),
        v.run(ops).len() == v.len() + ops.len(),
        v.run(ops).capacity() == v.capacity(),
        v.run(ops).vacant == v.vacant.skip(ops.len() as int),
        v.run(ops).bounded == v.bounded,
        forall|k: int| 0 <= k < ops.len() ==> (#[trigger] v.run(ops.take(k))).next_vacant() == Some(
            v.vacant[k],
        ),
    decreases ops.len(),
{
    if ops.len() > 0 {
        let before = ops.drop_last();
        lemma_pushes_reuse(v, before);
        let mid = v.run(before);
        match ops.last() {
            EndOp::PushBack(item) => {
                lemma_push(mid, item);
            },
            EndOp::PushFront(item) => {
                lemma_push(mid, item);
            },
            _ => {},
        }
        assert forall|k: int| 0 <= k < ops.len() implies (#[trigger] v.run(ops.take(k))).next_vacant()
            == Some(v.vacant[k]) by {
            if k < before.len() {
                assert(ops.take(k) =~= before.take(k));
            }
        }
    }
}

/// A bounded list made with `capacity` slots takes exactly `capacity`
/// insertions: of any number of insertions the first `capacity` succeed
/// and every later one is refused.  Once it is full, removing a value
/// makes room for exactly one insertion.
pub proof fn lemma_bounded_capacity<T>(capacity: nat, ops: Seq<EndOp<T>>, handle: usize, item: T)
    requires
        capacity <= usize::MAX,
        forall|k: int| 0 <= k < ops.len() ==> (#[trigger] ops[k]).is_push(),
    ensures
        ({
            let made = ListorView::<T>::fresh(capacity, true);
            let after = made.run(ops);
            &&& after.wf()
            &&& after.capacity() == capacity
            &&& after.len() == if ops.len() <= capacity { ops.len() } else { capacity }
            &&& forall|k: int|
                0 <= k < ops.len() ==> ((#[trigger] made.run(ops.take(k))).next_vacant() is Some <==> k
                    < capacity)
            &&& forall|k: int|
                capacity <= k < ops.len() ==> {
                    &&& (#[trigger] made.run(ops.take(k))).step_yield(ops[k]) == ops[k].pushed()
                    &&& made.run(ops.take(k)).step(ops[k]) == made.run(ops.take(k))
                }
            &&& after.len() == capacity ==> after.next_vacant() is None
            &&& after.len() == capacity && after.contains(handle) ==> {
                &&& after.remove(handle).next_vacant() == Some(handle)
                &&& after.remove(handle).push_back(item).len() == capacity
                &&& after.remove(handle).push_back(item).next_vacant() is None
                &&& after.remove(handle).push_front(item).len() == capacity
                &&& after.remove(handle).push_front(item).next_vacant() is None
            }
        }),
    decreases ops.len(),
{
    let made = ListorView::<T>::fresh(capacity, true);
    lemma_deque(made, ops);
    if ops.len() > 0 {
        let before = ops.drop_last();
        lemma_bounded_capacity(capacity, before, handle, item);
        assert forall|k: int| 0 <= k < ops.len() implies ((#[trigger] made.run(
            ops.take(k),
        )).next_vacant() is Some <==> k < capacity) by {
            if k < before.len() {
                assert(ops.take(k) =~= before.take(k));
            }
        }
    }
}

/// A handle that was freed is the one the next insertion uses, so that
/// removing and inserting in turn never grows the arena.
pub proof fn lemma_freed_handle_reused<T>(v: ListorView<T>, handle: usize, item: T)
    requires
        v.wf(),
        v.contains(handle),
    ensures
        v.remove(handle).next_vacant() == Some(handle),
        v.remove(handle).push_back(item).get(handle) == Some(item),
        v.remove(handle).push_front(item).get(handle) == Some(item),
        v.remove(handle).push_back(item).capacity() == v.capacity(),
        v.remove(handle).push_front(item).capacity() == v.capacity(),
        v.remove(handle).push_back(item).len() == v.len(),
        v.remove(handle).push_front(item).len() == v.len(),
{
    lemma_remove(v, handle);
    lemma_push(v.remove(handle), item);
}

/// Clearing leaves a well-formed, empty list of the same capacity, and
/// the insertions that follow use that capacity, slot 0 first, before
/// the arena grows.
pub proof fn lemma_clear<T>(v: ListorView<T>, ops: Seq<EndOp<T>>)
    requires
        v.wf(),
        forall|k: int| 0 <= k < ops.len() ==> (#[trigger] ops[k]).is_push(),
        ops.len() <= v.capacity(),
    ensures
        v.clear().wf(),
        v.clear().len() == 0,
        v.clear().capacity() == v.capacity(),
        v.clear().bounded == v.bounded,
        v.clear().run(ops).len() == ops.len(),
        v.clear().run(ops).capacity() == v.capacity(),
        forall|k: int| 0 <= k < ops.len() ==> (#[trigger] v.clear().run(ops.take(k))).next_vacant()
            == Some(k as usize),
{
    lemma_pushes_reuse(v.clear(), ops);
}

} // verus!
