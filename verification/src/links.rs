//! How the links of the nodes in an arena relate to the order of a list,
//! and what the three rearrangements of a list do to that relation:
//! splicing a new node in, unlinking a node, and taking an unlinked node
//! out of the arena.

use vstd::prelude::*;
use crate::node::{values, Link, Node};

verus! {

/// The link that the node at position `k` holds to the node before it.
pub open spec fn link_before(order: Seq<usize>, k: int) -> Link {
    if 0 < k <= order.len() {
        Some(order[k - 1])
    } else {
        None
    }
}

/// The link that the node at position `k` holds to the node after it.
pub open spec fn link_after(order: Seq<usize>, k: int) -> Link {
    if -1 <= k < order.len() - 1 {
        Some(order[k + 1])
    } else {
        None
    }
}

/// The node at position `k` lives in the arena and is linked to its neighbours.
pub open spec fn linked_at<T>(nodes: Seq<Node<T>>, order: Seq<usize>, k: int) -> bool {
    &&& order[k] < nodes.len()
    &&& nodes[order[k] as int].prev == link_before(order, k)
    &&& nodes[order[k] as int].next == link_after(order, k)
}

/// The slots in `order` are distinct, the nodes in them are linked in that
/// order, and `head` and `tail` name the two ends.
pub open spec fn chained<T>(nodes: Seq<Node<T>>, order: Seq<usize>, head: Link, tail: Link) -> bool {
    &&& forall|k: int| 0 <= k < order.len() ==> #[trigger] linked_at(nodes, order, k)
    &&& order.no_duplicates()
    &&& head == link_after(order, -1)
    &&& tail == link_before(order, order.len() as int)
}

/// The nodes that live in the slots of `order`, in that order.
pub open spec fn in_order<T>(nodes: Seq<Node<T>>, order: Seq<usize>) -> Seq<Node<T>> {
    Seq::new(order.len(), |k: int| nodes[order[k] as int])
}

/// The arena after the node that `slot` names, if it names one, was given
/// `prev` as the link to its predecessor.
pub open spec fn with_prev<T>(nodes: Seq<Node<T>>, slot: Link, prev: Link) -> Seq<Node<T>> {
    match slot {
        Some(slot) => nodes.update(
            slot as int,
            Node { value: nodes[slot as int].value, prev, next: nodes[slot as int].next },
        ),
        None => nodes,
    }
}

/// The arena after the node that `slot` names, if it names one, was given
/// `next` as the link to its successor.
pub open spec fn with_next<T>(nodes: Seq<Node<T>>, slot: Link, next: Link) -> Seq<Node<T>> {
    match slot {
        Some(slot) => nodes.update(
            slot as int,
            Node { value: nodes[slot as int].value, prev: nodes[slot as int].prev, next },
        ),
        None => nodes,
    }
}

/// The arena after a node with `value` was put into the new slot `slot` and
/// linked in at position `at` of the list.
pub open spec fn spliced<T>(nodes: Seq<Node<T>>, order: Seq<usize>, at: int, slot: usize, value: T) -> Seq<
    Node<T>,
> {
    let prev = link_before(order, at);
    let next = link_after(order, at - 1);
    with_next(with_prev(nodes, next, Some(slot)), prev, Some(slot)).push(Node { value, prev, next })
}

/// The arena after the neighbours of the node at position `at` were linked
/// to each other.
pub open spec fn unlinked<T>(nodes: Seq<Node<T>>, order: Seq<usize>, at: int) -> Seq<Node<T>> {
    let prev = link_before(order, at);
    let next = link_after(order, at);
    with_prev(with_next(nodes, prev, next), next, prev)
}

/// The arena after the node in `slot` was taken out: the last node has moved
/// into `slot`, and its neighbours link to it there.
pub open spec fn released<T>(nodes: Seq<Node<T>>, slot: usize) -> Seq<Node<T>> {
    let moved = nodes.update(slot as int, nodes.last()).drop_last();
    if slot < moved.len() {
        with_next(
            with_prev(moved, moved[slot as int].next, Some(slot)),
            moved[slot as int].prev,
            Some(slot),
        )
    } else {
        moved
    }
}

/// The order of the list after the node in slot `from` has moved to slot `to`.
pub open spec fn renamed(order: Seq<usize>, from: usize, to: usize) -> Seq<usize> {
    Seq::new(order.len(), |k: int| if order[k] == from { to } else { order[k] })
}

/// Distinct slots below `bound` are at most `bound` many, and where they are
/// exactly that many, every slot below `bound` is among them.
proof fn lemma_slots_fill_arena(slots: Seq<usize>, bound: nat)
    requires
        slots.no_duplicates(),
        forall|k: int| 0 <= k < slots.len() ==> slots[k] < bound,
    ensures
        slots.len() <= bound,
        slots.len() == bound ==> forall|slot: usize| slot < bound ==> slots.contains(slot),
    decreases bound,
{
    if bound == 0 {
        if slots.len() > 0 {
            assert(slots[0] < bound);
        }
    } else {
        let top = (bound - 1) as usize;
        if slots.contains(top) {
            let at = choose|k: int| 0 <= k < slots.len() && slots[k] == top;
            let rest = slots.remove(at);
            lemma_slots_fill_arena(rest, (bound - 1) as nat);
            if slots.len() == bound {
                assert forall|slot: usize| slot < bound implies slots.contains(slot) by {
                    if slot < bound - 1 {
                        assert(rest.contains(slot));
                    }
                }
            }
        } else {
            lemma_slots_fill_arena(slots, (bound - 1) as nat);
        }
    }
}

/// Splicing a node into a new slot keeps the list chained, with the new
/// slot at position `at` of the order, and puts `value` at that position
/// among the values.
pub proof fn lemma_spliced<T>(
    nodes: Seq<Node<T>>,
    order: Seq<usize>,
    head: Link,
    tail: Link,
    at: int,
    slot: usize,
    value: T,
)
    requires
        chained(nodes, order, head, tail),
        0 <= at <= order.len(),
        slot == nodes.len(),
    ensures
        chained(
            spliced(nodes, order, at, slot, value),
            order.insert(at, slot),
            if at == 0 { Some(slot) } else { head },
            if at == order.len() { Some(slot) } else { tail },
        ),
        values(in_order(spliced(nodes, order, at, slot, value), order.insert(at, slot))) == values(
            in_order(nodes, order),
        ).insert(at, value),
{
    let after = spliced(nodes, order, at, slot, value);
    let placed = order.insert(at, slot);
    let from = |k: int| if k < at { k } else { k - 1 };
    assert forall|k: int| 0 <= k < placed.len() && k != at implies placed[k] == order[from(k)]
        && order[from(k)] < slot by {
        assert(linked_at(nodes, order, from(k)));
    }
    if at > 0 {
        assert(linked_at(nodes, order, at - 1));
    }
    if at < order.len() {
        assert(linked_at(nodes, order, at));
    }
    assert forall|k: int| 0 <= k < placed.len() implies #[trigger] linked_at(after, placed, k) by {
        if k != at {
            assert(linked_at(nodes, order, from(k)));
        }
    }
}

/// Unlinking the node at position `at` keeps the rest of the list chained,
/// in the order without that position, and takes the node's value out of
/// the values. The node stays in the arena, with its value.
pub proof fn lemma_unlinked<T>(nodes: Seq<Node<T>>, order: Seq<usize>, head: Link, tail: Link, at: int)
    requires
        chained(nodes, order, head, tail),
        0 <= at < order.len(),
    ensures
        chained(
            unlinked(nodes, order, at),
            order.remove(at),
            if at == 0 { link_after(order, at) } else { head },
            if at + 1 == order.len() { link_before(order, at) } else { tail },
        ),
        values(in_order(unlinked(nodes, order, at), order.remove(at))) == values(
            in_order(nodes, order),
        ).remove(at),
        !order.remove(at).contains(order[at]),
        unlinked(nodes, order, at).len() == nodes.len(),
        unlinked(nodes, order, at)[order[at] as int].value == nodes[order[at] as int].value,
{
    let after = unlinked(nodes, order, at);
    let kept = order.remove(at);
    let from = |k: int| if k < at { k } else { k + 1 };
    assert(linked_at(nodes, order, at));
    if at > 0 {
        assert(linked_at(nodes, order, at - 1));
    }
    if at + 1 < order.len() {
        assert(linked_at(nodes, order, at + 1));
    }
    assert forall|k: int| 0 <= k < kept.len() implies #[trigger] linked_at(after, kept, k) by {
        assert(linked_at(nodes, order, from(k)));
    }
    let listed = values(in_order(after, kept));
    let expected = values(in_order(nodes, order)).remove(at);
    assert forall|k: int| 0 <= k < listed.len() implies listed[k] == expected[k] by {
        assert(linked_at(nodes, order, from(k)));
    }
}

/// Taking an unlinked node out of the arena leaves an arena that holds
/// exactly the nodes of the list, chained in the same order under the new
/// slot of the node that moved, with the same values.
pub proof fn lemma_released<T>(
    nodes: Seq<Node<T>>,
    order: Seq<usize>,
    head: Link,
    tail: Link,
    slot: usize,
    last: usize,
)
    requires
        chained(nodes, order, head, tail),
        order.len() + 1 == nodes.len(),
        !order.contains(slot),
        slot < nodes.len(),
        last + 1 == nodes.len(),
    ensures
        ({
            let moves = slot < last;
            &&& chained(
                released(nodes, slot),
                renamed(order, last, slot),
                if moves && nodes.last().prev is None { Some(slot) } else { head },
                if moves && nodes.last().next is None { Some(slot) } else { tail },
            )
            &&& renamed(order, last, slot).len() == released(nodes, slot).len()
            &&& values(in_order(released(nodes, slot), renamed(order, last, slot))) == values(
                in_order(nodes, order),
            )
            &&& moves ==> {
                &&& nodes.last().prev matches Some(prev) ==> prev < last
                &&& nodes.last().next matches Some(next) ==> next < last
            }
        }),
{
    let after = released(nodes, slot);
    let named = renamed(order, last, slot);
    assert forall|k: int| 0 <= k < order.len() implies order[k] < nodes.len() && order[k] != slot by {
        assert(linked_at(nodes, order, k));
    }
    if slot < last {
        // The arena is full but for `slot`, so that its last slot is in use.
        let filled = order.push(slot);
        lemma_slots_fill_arena(filled, nodes.len());
        assert(filled.contains(last));
        let at = choose|k: int| 0 <= k < filled.len() && filled[k] == last;
        assert(linked_at(nodes, order, at));
    }
    assert forall|k: int| 0 <= k < named.len() implies #[trigger] linked_at(after, named, k) by {
        assert(linked_at(nodes, order, k));
    }
}

} // verus!
