//! Deletion: one node leaves the tree and its neighbours are linked anew.

use vstd::prelude::*;
use crate::inorder::sorted;
use crate::laws::{lemma_inorder_sorted, lemma_parent_consistent};
use crate::links::is_right_child;
use crate::total_order::TotalOrder;
use crate::tree::Tree;

verus! {

impl<T: TotalOrder> Tree<T> {
    /// Takes node `z`, which has the two children `left_child` and
    /// `right_child`, out of the tree. Its in-order follower `y`, the leftmost
    /// node below `right_child`, takes its place: where `y` is not
    /// `right_child` itself, `y` is first replaced by its own right child and
    /// given `right_child` as right child; then `y` is put where `z` hangs and
    /// given `left_child` as left child.
    fn replace_by_follower(&mut self, z: usize, left_child: usize, right_child: usize)
        requires
            old(self).wf(),
            old(self).live(z as int),
            old(self).nodes@[z as int].left == Some(left_child),
            old(self).nodes@[z as int].right == Some(right_child),
            forall|k: int|
                0 <= k < old(self).layout@.pos[z as int] ==> #[trigger] old(self).key(k) != old(self).nodes@[z as int].value,
        ensures
            final(self).wf(),
            final(self)@ == old(self)@.remove(old(self).layout@.pos[z as int]),
            final(self).shape() == old(self).shape().without(old(self).nodes@[z as int].value),
    {
        let ghost before = *self;
        let ghost l = before.layout@;
        let ghost p = l.pos[z as int];
        proof {
            before.lemma_wf_around(z as int);
        }
        let y = self.get_minimum(right_child);
        proof {
            before.lemma_wf_around(y as int);
            before.lemma_wf_around(before.root->0 as int);
            assert(Self::replace_ready(before, z, y));
        }
        if !is_right_child(&self.nodes, y, z) {
            match self.nodes[y].right {
                Some(y_right_child) => {
                    self.transplant(y, y_right_child);
                },
                None => {
                    self.drop_parent_pointer(y);
                },
            }
            self.nodes[y].right = Some(right_child);
            self.nodes[right_child].parent = Some(y);
        }
        self.transplant(z, y);
        self.nodes[y].left = Some(left_child);
        self.nodes[left_child].parent = Some(y);
        self.free.push(z);
        proof {
            self.layout@ = l.handed_over(p, z as int, y as int);
            assert(self.nodes@ == Self::rewired(before.nodes@, z, y));
            Self::lemma_rewired(before, *self, z, y);
            Self::lemma_replace(before, *self, z, y);
            Self::lemma_replace_shape(before, *self, z, y);
        }
    }

    /// Takes the first occurrence of `value` in in-order out of the tree and
    /// tells whether there was one. A tree without `value` stays as it is.
    ///
    /// A node without children is cut off, a node with one child is replaced
    /// by that child, and a node with two children by its in-order follower,
    /// the leftmost node of its right subtree.
    pub fn delete(&mut self, value: T) -> (deleted: bool)
        requires
            old(self).wf(),
        ensures
            final(self).wf(),
            deleted == old(self)@.contains(value),
            final(self).shape() == old(self).shape().without(value),
            final(self)@ == old(self)@.remove_value(value),
            deleted ==> final(self)@.len() == old(self)@.len() - 1,
            !deleted ==> *final(self) == *old(self),
            final(self).parent_consistent(),
            sorted(final(self)@),
    {
        let ghost before = *self;
        let ghost l = before.layout@;
        proof {
            lemma_parent_consistent(before);
            lemma_inorder_sorted(before);
            before@.index_of_first_ensures(value);
        }
        match self.get_node(&value) {
            Some(z) => {
                let ghost p = l.pos[z as int];
                proof {
                    before.lemma_wf_around(z as int);
                    assert forall|k: int| 0 <= k < p implies #[trigger] before.key(k) != value by {
                        assert(before@[k] != value);
                    }
                }
                match self.nodes[z].left {
                    Some(left_child) => {
                        match self.nodes[z].right {
                            Some(right_child) => {
                                self.replace_by_follower(z, left_child, right_child);
                            },
                            None => {
                                self.transplant(z, left_child);
                                self.free.push(z);
                                proof {
                                    self.layout@ = l.closed(p);
                                    Self::lemma_splice(before, *self, z);
                                }
                            },
                        }
                    },
                    None => {
                        match self.nodes[z].right {
                            Some(right_child) => {
                                self.transplant(z, right_child);
                                self.free.push(z);
                                proof {
                                    self.layout@ = l.closed(p);
                                    Self::lemma_splice(before, *self, z);
                                }
                            },
                            None => {
                                self.drop_parent_pointer(z);
                                self.free.push(z);
                                proof {
                                    self.layout@ = l.closed(p);
                                    Self::lemma_splice(before, *self, z);
                                }
                            },
                        }
                    },
                }
                proof {
                    lemma_parent_consistent(*self);
                    lemma_inorder_sorted(*self);
                }
                true
            },
            None => {
                proof {
                    if before.root is Some {
                        assert(before.live(before.root->0 as int));
                        before.lemma_without_absent(before.root->0 as int, value);
                    }
                }
                false
            },
        }
    }
}

} // verus!
