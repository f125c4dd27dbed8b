//! The list itself: nodes in an arena, linked both ways by slot number.
//!
//! The arena is a `Vec` that holds every node of the list and nothing else.
//! A node's slot is its index in the arena; `prev` and `next` name slots.
//! A ghost sequence records which slot holds the node at each position of
//! the list, and the invariant ties the links to it.

use vstd::prelude::*;
use vstd::std_specs::cmp::PartialEqSpec;
use crate::links::{
    chained, in_order, lemma_released, lemma_spliced, lemma_unlinked, link_after, linked_at,
    released, renamed, spliced, unlinked,
};
use crate::model::{
    compared, first_match_value, has_match, inserted_at, lemma_first_match_found,
    lemma_scan_runs_through_without_match, lemma_scan_stops_at_first_match, pushed_back,
    pushed_front, runs_through, stops_at, without_first_match,
};
use crate::node::{values, Link, Node};

verus! {

/// A doubly linked list of values of type `T`.
pub struct DoubleLinkedList<T> {
    nodes: Vec<Node<T>>,
    head: Link,
    tail: Link,
    length: usize,
    order: Ghost<Seq<usize>>,
}

impl<T> DoubleLinkedList<T> {
    /// The nodes of the list, head first.
    pub closed spec fn node_seq(&self) -> Seq<Node<T>> {
        in_order(self.nodes@, self.order@)
    }
}

impl<T> View for DoubleLinkedList<T> {
    type V = Seq<T>;

    /// The values of the list, head first.
    open spec fn view(&self) -> Seq<T> {
        values(self.node_seq())
    }
}

impl<T> DoubleLinkedList<T> where T: PartialEq {
    /// The invariant of the list: the arena holds exactly the nodes of the
    /// list, linked in list order, and `length` counts them.
    pub closed spec fn well_formed(&self) -> bool {
        &&& chained(self.nodes@, self.order@, self.head, self.tail)
        &&& self.order@.len() == self.nodes@.len()
        &&& self.length == self.nodes@.len()
    }

    /// The link to the first node.
    pub closed spec fn head_link(&self) -> Link {
        self.head
    }

    /// The link to the last node.
    pub closed spec fn tail_link(&self) -> Link {
        self.tail
    }

    /// The node that lives in `slot` of the arena.
    pub closed spec fn node_in(&self, slot: usize) -> Node<T> {
        self.nodes@[slot as int]
    }

    /// The link at which a walk arrives that starts with the link to the
    /// head and follows `next` links `steps` times. A walk that has run out
    /// of nodes stays where it is, at no node.
    pub closed spec fn reached(&self, steps: nat) -> Link
        decreases steps,
    {
        if steps == 0 {
            self.head
        } else {
            match self.reached((steps - 1) as nat) {
                Some(slot) => if slot < self.nodes@.len() {
                    self.nodes@[slot as int].next
                } else {
                    None
                },
                None => None,
            }
        }
    }

    /// A walk of `steps` steps from the head arrives at the node at
    /// position `steps`, or at no node once it has gone past the tail.
    proof fn lemma_reached(&self, steps: nat)
        requires
            self.well_formed(),
            steps <= self.order@.len(),
        ensures
            self.reached(steps) == link_after(self.order@, steps - 1),
        decreases steps,
    {
        if steps > 0 {
            self.lemma_reached((steps - 1) as nat);
            assert(linked_at(self.nodes@, self.order@, steps - 1));
        }
    }

    /// The links of a well-formed list are consistent with the order of its
    /// nodes: the list is empty exactly when it has no head, and exactly when
    /// it has no tail; a walk that starts at the head and follows `next`
    /// links arrives after `k` steps at the node at position `k`, is at the
    /// tail after one step less than there are nodes, and runs out of nodes
    /// with the next step; the head has no predecessor and the tail no
    /// successor; and of two adjacent nodes the earlier links forward to the
    /// later, and the later back to the earlier; and the walk comes to no
    /// node twice.
    pub proof fn lemma_links_follow_order(&self)
        requires
            self.well_formed(),
        ensures
            self@.len() == 0 <==> self.head_link() is None,
            self@.len() == 0 <==> self.tail_link() is None,
            self.reached(0) == self.head_link(),
            forall|k: nat|
                k < self@.len() ==> #[trigger] self.reached(k) is Some && self.node_in(
                    self.reached(k).unwrap(),
                ) == self.node_seq()[k as int],
            self@.len() > 0 ==> self.reached((self@.len() - 1) as nat) == self.tail_link(),
            self.reached(self@.len()) is None,
            self@.len() > 0 ==> self.node_seq()[0].prev is None,
            self@.len() > 0 ==> self.node_seq()[self@.len() - 1].next is None,
            forall|k: nat|
                k + 1 < self@.len() ==> self.node_seq()[k as int].next == #[trigger] self.reached(
                    k + 1,
                ) && self.node_seq()[k as int + 1].prev == self.reached(k),
            forall|j: nat, k: nat|
                j < k < self@.len() ==> #[trigger] self.reached(j) != #[trigger] self.reached(k),
    {
        let len = self.order@.len();
        assert forall|k: nat| k <= len implies #[trigger] self.reached(k) == link_after(
            self.order@,
            k - 1,
        ) by {
            self.lemma_reached(k);
        }
        if len > 0 {
            assert(linked_at(self.nodes@, self.order@, 0));
            assert(linked_at(self.nodes@, self.order@, len - 1));
        }
        assert forall|k: nat| k + 1 < len implies {
            &&& self.node_seq()[k as int].next == #[trigger] self.reached(k + 1)
            &&& self.node_seq()[k as int + 1].prev == self.reached(k)
        } by {
            assert(linked_at(self.nodes@, self.order@, k as int + 1));
        }
    }

    /// The empty list.
    pub fn new() -> (list: Self)
        ensures
            list.well_formed(),
            list@ == Seq::<T>::empty(),
            list.head_link() is None,
            list.tail_link() is None,
    {
        DoubleLinkedList {
            nodes: Vec::new(),
            head: None,
            tail: None,
            length: 0,
            order: Ghost(Seq::empty()),
        }
    }

    /// Whether the list holds no value.
    pub fn is_empty(&self) -> (empty: bool)
        requires
            self.well_formed(),
        ensures
            empty <==> self@.len() == 0,
    {
        self.length == 0
    }

    /// The number of values in the list.
    pub fn length(&self) -> (length: usize)
        requires
            self.well_formed(),
        ensures
            length == self@.len(),
    {
        self.length
    }

    /// Puts `value` in front of the list.
    pub fn add(&mut self, value: T)
        requires
            old(self).well_formed(),
        ensures
            final(self).well_formed(),
            final(self)@ == pushed_front(old(self)@, value),
    {
        let slot = self.nodes.len();
        let mut head = Node::new(value);
        match self.head {
            Some(old_head) => {
                assert(linked_at(self.nodes@, self.order@, 0));
                self.nodes[old_head].prev = Some(slot);
                head.next = Some(old_head);
            },
            None => {
                self.tail = Some(slot);
            },
        }
        self.nodes.push(head);
        self.head = Some(slot);
        assert(self.length < self.nodes.len());
        self.length = self.length + 1;
        self.order = Ghost(self.order@.insert(0, slot));
        proof {
            let before = *old(self);
            lemma_spliced(before.nodes@, before.order@, before.head, before.tail, 0, slot, value);
            assert(self.nodes@ =~= spliced(before.nodes@, before.order@, 0, slot, value));
        }
    }

    /// Puts `value` behind the list.
    pub fn append(&mut self, value: T)
        requires
            old(self).well_formed(),
        ensures
            final(self).well_formed(),
            final(self)@ == pushed_back(old(self)@, value),
    {
        let slot = self.nodes.len();
        let mut tail = Node::new(value);
        match self.tail {
            Some(old_tail) => {
                assert(linked_at(self.nodes@, self.order@, self.order@.len() - 1));
                self.nodes[old_tail].next = Some(slot);
                tail.prev = Some(old_tail);
            },
            None => {
                self.head = Some(slot);
            },
        }
        self.nodes.push(tail);
        self.tail = Some(slot);
        assert(self.length < self.nodes.len());
        self.length = self.length + 1;
        self.order = Ghost(self.order@.insert(self.order@.len() as int, slot));
        proof {
            let before = *old(self);
            let end = before.order@.len() as int;
            lemma_spliced(before.nodes@, before.order@, before.head, before.tail, end, slot, value);
            assert(self.nodes@ =~= spliced(before.nodes@, before.order@, end, slot, value));
        }
    }

    /// Puts `value` at position `index`, before the node that stands there;
    /// at the front for index 0, and at the back for an index that is no
    /// position of the list.
    pub fn insert(&mut self, value: T, index: usize)
        requires
            old(self).well_formed(),
        ensures
            final(self).well_formed(),
            final(self)@ == inserted_at(old(self)@, value, index as nat),
    {
        if index == 0 {
            self.add(value)
        } else if index >= self.length {
            self.append(value)
        } else {
            let old_node = self.nth_slot(index);
            assert(linked_at(self.nodes@, self.order@, index as int));
            assert(linked_at(self.nodes@, self.order@, index - 1));

            let slot = self.nodes.len();
            let old_node_prev = self.nodes[old_node].prev;
            let mut node = Node::new(value);
            node.next = Some(old_node);
            node.prev = old_node_prev;
            self.nodes[old_node].prev = Some(slot);
            if let Some(old_node_prev) = old_node_prev {
                self.nodes[old_node_prev].next = Some(slot);
            }
            self.nodes.push(node);
            assert(self.length < self.nodes.len());
            self.length = self.length + 1;
            self.order = Ghost(self.order@.insert(index as int, slot));
            proof {
                let before = *old(self);
                let at = index as int;
                lemma_spliced(before.nodes@, before.order@, before.head, before.tail, at, slot, value);
                assert(self.nodes@ =~= spliced(before.nodes@, before.order@, at, slot, value));
            }
        }
    }

    /// The slot of the node at position `index`, found by a traversal that
    /// starts at the head and stops at every node.
    fn nth_slot(&self, index: usize) -> (slot: usize)
        requires
            self.well_formed(),
            index < self.order@.len(),
        ensures
            slot == self.order@[index as int],
    {
        let every = |_node: &Node<T>| -> (accepted: bool)
            ensures
                accepted,
            { true };
        let mut iter = self.traverse(every);
        let mut passed: usize = 0;
        while passed < index
            invariant
                iter.well_formed(),
                iter.list() == *self,
                iter.predicate() == every,
                iter.position() == passed,
                passed <= index < self@.len(),
                forall|node: &Node<T>, accepted: bool|
                    call_ensures(every, (node,), accepted) ==> accepted,
            decreases index - passed,
        {
            let ghost ahead = iter;
            let found = iter.next_slot();
            proof {
                let to = if found is Some { iter.position() - 1 } else { iter.position() };
                ahead.lemma_rejects_nothing(passed as int, to);
            }
            passed = passed + 1;
        }
        let ghost ahead = iter;
        let found = iter.next_slot();
        proof {
            let to = if found is Some { iter.position() - 1 } else { iter.position() };
            ahead.lemma_rejects_nothing(index as int, to);
        }
        found.unwrap()
    }

    /// Whether some value of the list compares equal to `value`.
    ///
    /// The values are compared with `value` from the head on, up to the
    /// first that compares equal.
    pub fn search(&self, value: T) -> (found: bool)
        requires
            self.well_formed(),
        ensures
            found ==> exists|i: int| stops_at(self@, value, i),
            !found ==> runs_through(self@, value),
            T::obeys_eq_spec() ==> found == has_match(self@, value),
    {
        let equal = |node: &Node<T>| -> (equal: bool)
            ensures
                compared(&node.value, &value, equal),
            { node.value == value };
        let mut iter = self.traverse(equal);
        let found = iter.next();
        proof {
            if found is Some {
                self.lemma_scan_stopped(equal, value, iter.position() - 1);
            } else {
                self.lemma_scan_ran_through(equal, value);
            }
        }
        found.is_some()
    }

    /// Takes the first value that compares equal to `value` out of the list
    /// and gives it back; gives nothing, and changes nothing, when there is none.
    ///
    /// The values are compared with `value` from the head on, up to the
    /// first that compares equal.
    pub fn remove(&mut self, value: T) -> (removed: Option<T>)
        requires
            old(self).well_formed(),
        ensures
            final(self).well_formed(),
            (match removed {
                Some(taken) => exists|i: int|
                    stops_at(old(self)@, value, i) && taken == old(self)@[i] && final(self)@ == old(
                        self,
                    )@.remove(i),
                None => runs_through(old(self)@, value) && final(self)@ == old(self)@,
            }),
            T::obeys_eq_spec() ==> removed == first_match_value(old(self)@, value),
            T::obeys_eq_spec() ==> final(self)@ == without_first_match(old(self)@, value),
    {
        let equal = |node: &Node<T>| -> (equal: bool)
            ensures
                compared(&node.value, &value, equal),
            { node.value == value };
        let mut iter = self.traverse(equal);
        let found = iter.next_slot();
        let ghost at = iter.position() - 1;
        proof {
            if found is Some {
                self.lemma_scan_stopped(equal, value, at);
            } else {
                self.lemma_scan_ran_through(equal, value);
            }
        }
        match found {
            Some(slot) => {
                self.unlink(slot, Ghost(at));
                self.length = self.length - 1;
                let node = self.release(slot);
                Some(node.value)
            },
            None => None,
        }
    }

    /// A traversal whose predicate compares with `value`, and which has
    /// stopped at position `at`, has scanned the values up to there.
    proof fn lemma_scan_stopped<F: Fn(&Node<T>) -> bool>(&self, equal: F, value: T, at: int)
        requires
            0 <= at < self@.len(),
            forall|node: &Node<T>, outcome: bool| #[trigger]
                call_ensures(equal, (node,), outcome) ==> compared(&node.value, &value, outcome),
            call_ensures(equal, (&self.node_seq()[at],), true),
            forall|j: int| 0 <= j < at ==> call_ensures(equal, (&#[trigger] self.node_seq()[j],), false),
        ensures
            stops_at(self@, value, at),
            T::obeys_eq_spec() ==> first_match_value(self@, value) == Some(self@[at]),
            T::obeys_eq_spec() ==> without_first_match(self@, value) == self@.remove(at),
            T::obeys_eq_spec() ==> has_match(self@, value),
    {
        if T::obeys_eq_spec() {
            lemma_scan_stops_at_first_match(self@, value, at);
            lemma_first_match_found(self@, value, at);
        }
    }

    /// A traversal whose predicate compares with `value`, and which has come
    /// to the end, has scanned all values.
    proof fn lemma_scan_ran_through<F: Fn(&Node<T>) -> bool>(&self, equal: F, value: T)
        requires
            forall|node: &Node<T>, outcome: bool| #[trigger]
                call_ensures(equal, (node,), outcome) ==> compared(&node.value, &value, outcome),
            forall|j: int|
                0 <= j < self@.len() ==> call_ensures(equal, (&#[trigger] self.node_seq()[j],), false),
        ensures
            runs_through(self@, value),
            T::obeys_eq_spec() ==> !has_match(self@, value),
    {
        if T::obeys_eq_spec() {
            lemma_scan_runs_through_without_match(self@, value);
        }
    }

    /// Links the neighbours of the node in `slot` to each other, so that the
    /// list passes it by. The node stays in the arena.
    fn unlink(&mut self, slot: usize, at: Ghost<int>)
        requires
            old(self).well_formed(),
            0 <= at@ < old(self).order@.len(),
            old(self).order@[at@] == slot,
        ensures
            chained(final(self).nodes@, final(self).order@, final(self).head, final(self).tail),
            final(self).nodes@.len() == old(self).nodes@.len(),
            final(self).order@.len() + 1 == final(self).nodes@.len(),
            !final(self).order@.contains(slot),
            slot < final(self).nodes@.len(),
            final(self).length == old(self).length,
            final(self)@ == old(self)@.remove(at@),
            final(self).nodes@[slot as int].value == old(self)@[at@],
    {
        assert(linked_at(self.nodes@, self.order@, at@));
        let prev = self.nodes[slot].prev;
        let next = self.nodes[slot].next;
        proof {
            if at@ > 0 {
                assert(linked_at(self.nodes@, self.order@, at@ - 1));
            }
            if at@ + 1 < self.order@.len() {
                assert(linked_at(self.nodes@, self.order@, at@ + 1));
            }
        }
        match prev {
            Some(prev) => {
                self.nodes[prev].next = next;
            },
            None => {
                self.head = next;
            },
        }
        match next {
            Some(next) => {
                self.nodes[next].prev = prev;
            },
            None => {
                self.tail = prev;
            },
        }
        self.order = Ghost(self.order@.remove(at@));
        proof {
            let before = *old(self);
            lemma_unlinked(before.nodes@, before.order@, before.head, before.tail, at@);
            assert(self.nodes@ =~= unlinked(before.nodes@, before.order@, at@));
        }
    }

    /// Takes the node in `slot`, which the list has passed by, out of the
    /// arena. The last node of the arena moves into the slot that falls
    /// vacant, and its neighbours are told where it now lives.
    fn release(&mut self, slot: usize) -> (node: Node<T>)
        requires
            chained(old(self).nodes@, old(self).order@, old(self).head, old(self).tail),
            old(self).order@.len() + 1 == old(self).nodes@.len(),
            old(self).length == old(self).order@.len(),
            !old(self).order@.contains(slot),
            slot < old(self).nodes@.len(),
        ensures
            final(self).well_formed(),
            final(self)@ == old(self)@,
            node.value == old(self).nodes@[slot as int].value,
    {
        let node = self.nodes.swap_remove(slot);
        let last = self.nodes.len();
        proof {
            let before = *old(self);
            lemma_released(before.nodes@, before.order@, before.head, before.tail, slot, last);
        }
        if slot < last {
            let prev = self.nodes[slot].prev;
            let next = self.nodes[slot].next;
            match prev {
                Some(prev) => {
                    self.nodes[prev].next = Some(slot);
                },
                None => {
                    self.head = Some(slot);
                },
            }
            match next {
                Some(next) => {
                    self.nodes[next].prev = Some(slot);
                },
                None => {
                    self.tail = Some(slot);
                },
            }
        }
        self.order = Ghost(renamed(self.order@, last, slot));
        assert(self.nodes@ =~= released(old(self).nodes@, slot));
        node
    }

    /// A traversal of the nodes that `f` accepts, from the head on.
    ///
    /// Nothing is examined until the traversal is asked for a node, and every
    /// call starts a traversal of its own at the head.
    pub fn traverse<F>(&self, f: F) -> (iter: NodeIter<'_, T, F>) where F: Fn(&Node<T>) -> bool
        requires
            self.well_formed(),
            forall|k: int|
                0 <= k < self@.len() ==> call_requires(f, (&#[trigger] self.node_seq()[k],)),
        ensures
            iter.well_formed(),
            iter.list() == *self,
            iter.predicate() == f,
            iter.position() == 0,
    {
        NodeIter { list: self, next: self.head, f, passed: Ghost(0) }
    }
}

/// A forward traversal of a list that stops at the nodes its predicate accepts.
pub struct NodeIter<'a, T, F> {
    list: &'a DoubleLinkedList<T>,
    next: Link,
    f: F,
    passed: Ghost<int>,
}

impl<'a, T, F> NodeIter<'a, T, F> where T: PartialEq, F: Fn(&Node<T>) -> bool {
    /// The list that is traversed.
    pub closed spec fn list(&self) -> DoubleLinkedList<T> {
        *self.list
    }

    /// The predicate that decides which nodes the traversal stops at.
    pub closed spec fn predicate(&self) -> F {
        self.f
    }

    /// The number of nodes that the traversal has left behind.
    pub closed spec fn position(&self) -> int {
        self.passed@
    }

    /// The invariant of the traversal: it stands at a position of a
    /// well-formed list, and its predicate may be asked about every node.
    pub closed spec fn well_formed(&self) -> bool {
        &&& self.list.well_formed()
        &&& 0 <= self.passed@ <= self.list.order@.len()
        &&& self.next == link_after(self.list.order@, self.passed@ - 1)
        &&& forall|k: int|
            0 <= k < self.list.order@.len() ==> call_requires(
                self.f,
                (&#[trigger] self.list.node_seq()[k],),
            )
    }

    /// The predicate rejects every node at the positions from `from` up to,
    /// but not including, `to`.
    pub open spec fn rejects(&self, from: int, to: int) -> bool {
        forall|j: int|
            from <= j < to ==> call_ensures(
                self.predicate(),
                (&#[trigger] self.list().node_seq()[j],),
                false,
            )
    }

    /// The predicate accepts the node at position `k`.
    pub open spec fn accepts(&self, k: int) -> bool {
        call_ensures(self.predicate(), (&self.list().node_seq()[k],), true)
    }

    /// A predicate that accepts whatever node it is asked about rejects no
    /// stretch of nodes but the empty one: a traversal with such a predicate
    /// stops at every node.
    pub proof fn lemma_rejects_nothing(&self, from: int, to: int)
        requires
            forall|node: &Node<T>, outcome: bool|
                call_ensures(self.predicate(), (node,), outcome) ==> outcome,
            0 <= from,
            to <= self.list()@.len(),
            self.rejects(from, to),
        ensures
            to <= from,
    {
        if from < to {
            let first = self.list().node_seq()[from];
            assert(call_ensures(self.predicate(), (&first,), false));
        }
    }

    /// Moves on to the next node that the predicate accepts and gives its slot.
    fn next_slot(&mut self) -> (found: Link)
        requires
            old(self).well_formed(),
        ensures
            final(self).well_formed(),
            final(self).list() == old(self).list(),
            final(self).predicate() == old(self).predicate(),
            old(self).position() <= final(self).position() <= old(self).list()@.len(),
            (match found {
                Some(slot) => {
                    &&& old(self).position() < final(self).position()
                    &&& slot == old(self).list().order@[final(self).position() - 1]
                    &&& old(self).accepts(final(self).position() - 1)
                    &&& old(self).rejects(old(self).position(), final(self).position() - 1)
                },
                None => {
                    &&& final(self).position() == old(self).list()@.len()
                    &&& old(self).rejects(old(self).position(), final(self).position())
                },
            }),
    {
        loop
            invariant
                self.well_formed(),
                self.list() == old(self).list(),
                self.predicate() == old(self).predicate(),
                old(self).position() <= self.position(),
                old(self).rejects(old(self).position(), self.position()),
            decreases self.list.order@.len() - self.passed@,
        {
            match self.next {
                None => {
                    return None;
                },
                Some(slot) => {
                    assert(linked_at(self.list.nodes@, self.list.order@, self.passed@));
                    let node = &self.list.nodes[slot];
                    self.next = node.next;
                    self.passed = Ghost(self.passed@ + 1);
                    assert(*node == self.list.node_seq()[self.passed@ - 1]);
                    if (self.f)(node) {
                        return Some(slot);
                    }
                },
            }
        }
    }

    /// Moves on to the next node that the predicate accepts and gives it;
    /// gives nothing once the predicate has rejected every node that was left.
    pub fn next(&mut self) -> (found: Option<&'a Node<T>>)
        requires
            old(self).well_formed(),
        ensures
            final(self).well_formed(),
            final(self).list() == old(self).list(),
            final(self).predicate() == old(self).predicate(),
            old(self).position() <= final(self).position() <= old(self).list()@.len(),
            (match found {
                Some(node) => {
                    &&& old(self).position() < final(self).position()
                    &&& *node == old(self).list().node_seq()[final(self).position() - 1]
                    &&& old(self).accepts(final(self).position() - 1)
                    &&& old(self).rejects(old(self).position(), final(self).position() - 1)
                },
                None => {
                    &&& final(self).position() == old(self).list()@.len()
                    &&& old(self).rejects(old(self).position(), final(self).position())
                },
            }),
    {
        match self.next_slot() {
            Some(slot) => {
                assert(linked_at(self.list.nodes@, self.list.order@, self.passed@ - 1));
                Some(&self.list.nodes[slot])
            },
            None => None,
        }
    }
}

} // verus!
