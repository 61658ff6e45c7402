//! Arena nodes and the role a node plays under its parent.

use vstd::prelude::*;

verus! {

/// One slot of the arena: a value and the three links of a tree node, each an
/// index into the arena.
pub struct Node<T> {
    pub value: T,
    pub right: Option<usize>,
    pub left: Option<usize>,
    pub parent: Option<usize>,
}

impl<T> Node<T> {
    /// A node without links.
    pub fn new(value: T) -> (node: Self)
        ensures
            node == (Node { value, right: None, left: None, parent: None }),
    {
        Node { value, right: None, left: None, parent: None }
    }

    /// A childless node that hangs below `parent`.
    pub fn new_with_parent(value: T, parent: usize) -> (node: Self)
        ensures
            node == (Node { value, right: None, left: None, parent: Some(parent) }),
    {
        Node { value, right: None, left: None, parent: Some(parent) }
    }
}

/// The position of a node relative to its parent.
#[derive(Clone, Copy, Debug, PartialEq, Eq, Structural)]
pub enum ChildType {
    RightChild,
    LeftChild,
    Root,
}

} // verus!
