//! A doubly linked list of values, with insertion at the head, at the tail
//! and at a position, a linear search, removal by value, and a lazy forward
//! traversal under a predicate.
//!
//! The nodes of a list live in an arena and link to each other by slot
//! number, in both directions. [`DoubleLinkedList`] is the list,
//! [`NodeIter`] a traversal of it, and [`Node`] what a traversal gives.
//!
//! A list is viewed as the sequence of its values, head first. The module
//! `model` says what each operation does to that sequence, and the module
//! `laws` proves how the operations relate to each other.

pub mod laws;
mod links;
pub mod list;
pub mod model;
pub mod node;

pub use list::{DoubleLinkedList, NodeIter};
pub use node::{Link, Node};
