//! Reading and rewiring the links between arena nodes.
//!
//! Nothing here needs a well-formed tree: the contracts speak of the links
//! themselves, so that callers may pass through states in which the tree is
//! taken apart.

use vstd::prelude::*;
use crate::node::{ChildType, Node};
use crate::total_order::TotalOrder;
use crate::tree::Tree;

verus! {

/// The role of node `u`, by position: a node without parent is the root, a
/// node that its parent's right link names is a right child, any other node
/// a left child.
pub open spec fn child_type_of<T>(nodes: Seq<Node<T>>, u: int) -> ChildType {
    match nodes[u].parent {
        None => ChildType::Root,
        Some(p) => if nodes[p as int].right == Some(u as usize) {
            ChildType::RightChild
        } else {
            ChildType::LeftChild
        },
    }
}

/// `child` names `y` as its parent and `y` names `child` as its right child.
pub open spec fn right_child_of<T>(nodes: Seq<Node<T>>, child: int, y: int) -> bool {
    nodes[child].parent == Some(y as usize) && nodes[y].right == Some(child as usize)
}

/// `nodes` with the left link of node `i` replaced.
pub open spec fn with_left<T>(nodes: Seq<Node<T>>, i: int, link: Option<usize>) -> Seq<Node<T>> {
    nodes.update(i, Node { left: link, ..nodes[i] })
}

/// `nodes` with the right link of node `i` replaced.
pub open spec fn with_right<T>(nodes: Seq<Node<T>>, i: int, link: Option<usize>) -> Seq<Node<T>> {
    nodes.update(i, Node { right: link, ..nodes[i] })
}

/// `nodes` with the parent link of node `i` replaced.
pub open spec fn with_parent<T>(nodes: Seq<Node<T>>, i: int, link: Option<usize>) -> Seq<Node<T>> {
    nodes.update(i, Node { parent: link, ..nodes[i] })
}

/// The parent link of `u`, if there is one, stays inside the arena.
pub open spec fn parent_in_range<T>(nodes: Seq<Node<T>>, u: int) -> bool {
    match nodes[u].parent {
        None => true,
        Some(p) => p < nodes.len(),
    }
}

/// The nodes after `v` was put where `u` hangs.
pub open spec fn transplanted<T>(nodes: Seq<Node<T>>, u: int, v: int) -> Seq<Node<T>> {
    match child_type_of(nodes, u) {
        ChildType::Root => with_parent(nodes, v, None),
        ChildType::LeftChild => {
            let p = nodes[u].parent->0;
            with_parent(with_left(nodes, p as int, Some(v as usize)), v, Some(p))
        },
        ChildType::RightChild => {
            let p = nodes[u].parent->0;
            with_parent(with_right(nodes, p as int, Some(v as usize)), v, Some(p))
        },
    }
}

/// The nodes after the link that leads to `u` was cut.
pub open spec fn detached<T>(nodes: Seq<Node<T>>, u: int) -> Seq<Node<T>> {
    match child_type_of(nodes, u) {
        ChildType::Root => nodes,
        ChildType::LeftChild => with_left(nodes, nodes[u].parent->0 as int, None),
        ChildType::RightChild => with_right(nodes, nodes[u].parent->0 as int, None),
    }
}

/// The root link after the link that led to `u` was given the target `link`.
pub open spec fn rerooted<T>(nodes: Seq<Node<T>>, root: Option<usize>, u: int, link: Option<usize>) -> Option<
    usize,
> {
    if child_type_of(nodes, u) == ChildType::Root {
        link
    } else {
        root
    }
}

/// Classifies node `u` relative to its parent.
pub fn get_child_type<T>(nodes: &Vec<Node<T>>, u: usize) -> (role: ChildType)
    requires
        u < nodes@.len(),
        parent_in_range(nodes@, u as int),
    ensures
        role == child_type_of(nodes@, u as int),
{
    match nodes[u].parent {
        Some(p) => {
            if nodes[p].right == Some(u) {
                ChildType::RightChild
            } else {
                ChildType::LeftChild
            }
        },
        None => ChildType::Root,
    }
}

/// Tells whether `child` is the right child of `y`.
pub fn is_right_child<T>(nodes: &Vec<Node<T>>, child: usize, y: usize) -> (r: bool)
    requires
        child < nodes@.len(),
        y < nodes@.len(),
    ensures
        r == right_child_of(nodes@, child as int, y as int),
{
    nodes[child].parent == Some(y) && nodes[y].right == Some(child)
}

impl<T: TotalOrder> Tree<T> {
    /// Puts `v` where `u` hangs: the link that leads to `u` (the root link, or
    /// the left or right link of `u`'s parent) is set to `v`, and the parent
    /// link of `v` to the parent of `u`. The links of `u` itself stay.
    pub(crate) fn transplant(&mut self, u: usize, v: usize)
        requires
            u < old(self).nodes@.len(),
            v < old(self).nodes@.len(),
            parent_in_range(old(self).nodes@, u as int),
        ensures
            final(self).free == old(self).free,
            final(self).layout == old(self).layout,
            final(self).nodes@ == transplanted(old(self).nodes@, u as int, v as int),
            final(self).root == rerooted(old(self).nodes@, old(self).root, u as int, Some(v)),
    {
        match get_child_type(&self.nodes, u) {
            ChildType::Root => {
                self.root = Some(v);
                self.nodes[v].parent = None;
            },
            ChildType::LeftChild => {
                if let Some(p) = self.nodes[u].parent {
                    self.nodes[p].left = Some(v);
                    self.nodes[v].parent = Some(p);
                }
            },
            ChildType::RightChild => {
                if let Some(p) = self.nodes[u].parent {
                    self.nodes[p].right = Some(v);
                    self.nodes[v].parent = Some(p);
                }
            },
        }
    }

    /// Cuts the link that leads to `u`: the root link if `u` is the root, else
    /// the left or right link of its parent. The links of `u` itself stay.
    pub(crate) fn drop_parent_pointer(&mut self, u: usize)
        requires
            u < old(self).nodes@.len(),
            parent_in_range(old(self).nodes@, u as int),
        ensures
            final(self).free == old(self).free,
            final(self).layout == old(self).layout,
            final(self).nodes@ == detached(old(self).nodes@, u as int),
            final(self).root == rerooted(old(self).nodes@, old(self).root, u as int, None),
    {
        match get_child_type(&self.nodes, u) {
            ChildType::Root => {
                self.root = None;
            },
            ChildType::LeftChild => {
                if let Some(p) = self.nodes[u].parent {
                    self.nodes[p].left = None;
                }
            },
            ChildType::RightChild => {
                if let Some(p) = self.nodes[u].parent {
                    self.nodes[p].right = None;
                }
            },
        }
    }
}

} // verus!
