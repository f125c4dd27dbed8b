//! The nodes that a list is made of.

use vstd::prelude::*;

verus! {

/// A link to a neighbouring node: the arena slot it lives in, or nothing.
pub type Link = Option<usize>;

/// One element of a list: a value and the links to its two neighbours.
pub struct Node<T> {
    pub value: T,
    pub prev: Link,
    pub next: Link,
}

impl<T> Node<T> {
    /// A node that holds `value` and is linked to nothing.
    pub fn new(value: T) -> (node: Self)
        ensures
            node.value == value,
            node.prev is None,
            node.next is None,
    {
        Node { value, prev: None, next: None }
    }
}

/// The values that a sequence of nodes holds.
pub open spec fn values<T>(nodes: Seq<Node<T>>) -> Seq<T> {
    nodes.map_values(|node: Node<T>| node.value)
}

} // verus!
