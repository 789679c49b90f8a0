//! Chains of slots: the meaning of the link fields, and what splicing does
//! to a chain.

use vstd::prelude::*;
use vstd::seq_lib::seq_to_set_is_finite;
use vstd::set_lib::{lemma_int_range, lemma_subset_equality, set_int_range};
use crate::slot::Node;

verus! {

/// The slot at position `i` of `order` names its neighbours in `order`:
/// the first slot names itself as predecessor, the last names itself as
/// successor.
pub(crate) open spec fn link_at<T>(slots: Seq<Node<T>>, order: Seq<usize>, i: int) -> bool {
    let node = slots[order[i] as int];
    &&& order[i] < slots.len()
    &&& node.prev == if i == 0 { order[i] } else { order[i - 1] }
    &&& node.next == if i + 1 == order.len() { order[i] } else { order[i + 1] }
}

/// `order` lists, without repetition, slots whose links thread them into
/// one doubly linked chain in exactly that order.
pub(crate) open spec fn linked<T>(slots: Seq<Node<T>>, order: Seq<usize>) -> bool {
    &&& order.no_duplicates()
    &&& forall|i: int| 0 <= i < order.len() ==> #[trigger] link_at(slots, order, i)
}

/// A sequence of `n` distinct indices below `n` names every index below `n`.
pub(crate) proof fn lemma_covers(order: Seq<usize>, x: usize)
    requires
        order.no_duplicates(),
        forall|i: int| 0 <= i < order.len() ==> (#[trigger] order[i]) < order.len(),
        x < order.len(),
    ensures
        order.contains(x),
{
    let ints = order.map_values(|v: usize| v as int);
    let named = ints.to_set();
    let all = set_int_range(0, order.len() as int);
    ints.unique_seq_to_set();
    seq_to_set_is_finite(ints);
    lemma_int_range(0, order.len() as int);
    lemma_subset_equality(named, all);
    assert(all.contains(x as int));
}

/// Bridging the neighbours of position `p` over it leaves the chain
/// without that slot.
pub(crate) proof fn lemma_unlink<T>(a: Seq<Node<T>>, b: Seq<Node<T>>, order: Seq<usize>, p: int)
    requires
        linked(a, order),
        0 <= p < order.len(),
        b.len() == a.len(),
        p > 0 ==> {
            &&& b[order[p - 1] as int].prev == a[order[p - 1] as int].prev
            &&& b[order[p - 1] as int].next == if p + 1 < order.len() {
                order[p + 1]
            } else {
                order[p - 1]
            }
        },
        p + 1 < order.len() ==> {
            &&& b[order[p + 1] as int].next == a[order[p + 1] as int].next
            &&& b[order[p + 1] as int].prev == if p > 0 {
                order[p - 1]
            } else {
                order[p + 1]
            }
        },
        forall|j: int|
            0 <= j < a.len() && (p > 0 ==> j != order[p - 1]) && (p + 1 < order.len() ==> j
                != order[p + 1]) ==> (#[trigger] b[j]).same_links(a[j]),
    ensures
        linked(b, order.remove(p)),
{
    let rest = order.remove(p);
    assert forall|i: int| 0 <= i < rest.len() implies #[trigger] link_at(b, rest, i) by {
        assert(link_at(a, order, if i < p { i } else { i + 1 }));
    }
}

/// Threading a slot from outside the chain in at position `q` gives the
/// chain with that slot inserted there.
pub(crate) proof fn lemma_link_in<T>(
    a: Seq<Node<T>>,
    b: Seq<Node<T>>,
    order: Seq<usize>,
    q: int,
    idx: usize,
)
    requires
        linked(a, order),
        0 <= q <= order.len(),
        b.len() == a.len(),
        idx < a.len(),
        !order.contains(idx),
        b[idx as int].prev == if q == 0 { idx } else { order[q - 1] },
        b[idx as int].next == if q == order.len() { idx } else { order[q] },
        q > 0 ==> {
            &&& b[order[q - 1] as int].prev == a[order[q - 1] as int].prev
            &&& b[order[q - 1] as int].next == idx
        },
        q < order.len() ==> {
            &&& b[order[q] as int].next == a[order[q] as int].next
            &&& b[order[q] as int].prev == idx
        },
        forall|j: int|
            0 <= j < a.len() && j != idx && (q > 0 ==> j != order[q - 1]) && (q < order.len() ==> j
                != order[q]) ==> (#[trigger] b[j]).same_links(a[j]),
    ensures
        linked(b, order.insert(q, idx)),
{
    let more = order.insert(q, idx);
    assert forall|i: int| 0 <= i < more.len() implies #[trigger] link_at(b, more, i) by {
        if i != q {
            assert(link_at(a, order, if i < q { i } else { i - 1 }));
        }
    }
}

/// Taking position `p` out of a sequence without repetition leaves one
/// that does not name the slot taken out and names the others where they
/// were, those behind it one place earlier.
pub(crate) proof fn lemma_remove_places(order: Seq<usize>, p: int)
    requires
        order.no_duplicates(),
        0 <= p < order.len(),
    ensures
        order.remove(p).no_duplicates(),
        !order.remove(p).contains(order[p]),
        forall|i: int|
            0 <= i < order.len() && i != p ==> order.remove(p).contains(#[trigger] order[i])
                && order.remove(p).index_of(order[i]) == if i < p {
                i
            } else {
                i - 1
            },
{
    let rest = order.remove(p);
    assert forall|i: int| 0 <= i < order.len() && i != p implies rest.contains(#[trigger] order[i])
        && rest.index_of(order[i]) == if i < p {
        i
    } else {
        i - 1
    } by {
        assert(rest[if i < p { i } else { i - 1 }] == order[i]);
    }
}

/// Moving the slot at position `p` of the first `live` to the end of them
/// keeps every other slot in order: the first `live - 1` are the old first
/// `live` without the moved one, and the moved one leads the rest.
pub(crate) proof fn lemma_move_behind(order: Seq<usize>, p: int, live: int)
    requires
        0 <= p < live <= order.len(),
    ensures
        ({
            let after = order.remove(p).insert(live - 1, order[p]);
            &&& after.len() == order.len()
            &&& after.take(live - 1) =~= order.take(live).remove(p)
            &&& after.skip(live - 1) =~= seq![order[p]] + order.skip(live)
            &&& forall|i: int| 0 <= i < p ==> after[i] == order[i]
            &&& forall|i: int| p <= i < live - 1 ==> after[i] == order[i + 1]
            &&& after[live - 1] == order[p]
            &&& forall|i: int| live <= i < order.len() ==> after[i] == order[i]
            &&& p == live - 1 ==> after =~= order
        }),
{
}

/// Moving the slot at position `live` to the front keeps every other slot
/// in order.
pub(crate) proof fn lemma_move_ahead(order: Seq<usize>, live: int)
    requires
        0 <= live < order.len(),
    ensures
        ({
            let after = order.remove(live).insert(0, order[live]);
            &&& after.len() == order.len()
            &&& after.take(live + 1) =~= seq![order[live]] + order.take(live)
            &&& after.skip(live + 1) =~= order.skip(live + 1)
            &&& after[0] == order[live]
            &&& forall|i: int| 1 <= i <= live ==> after[i] == order[i - 1]
            &&& forall|i: int| live < i < order.len() ==> after[i] == order[i]
        }),
{
}

} // verus!
