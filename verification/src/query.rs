//! Read-only operations: search, minimum, maximum, successor, traversal.

use vstd::prelude::*;
use crate::inorder::{element_after, lemma_first_occurrence_is, lookup};
use crate::links::is_right_child;
use crate::total_order::{lemma_at_most_then_less, lemma_less_then_at_most, TotalOrder};
use crate::tree::Tree;

verus! {

impl<T: TotalOrder> Tree<T> {
    /// Tells whether the tree holds no value.
    pub fn is_empty(&self) -> (r: bool)
        requires
            self.wf(),
        ensures
            r == (self@.len() == 0),
    {
        self.root.is_none()
    }

    /// The slot of the first node on the search path whose value is `value`:
    /// the first occurrence of `value` in in-order.
    pub(crate) fn get_node(&self, value: &T) -> (found: Option<usize>)
        requires
            self.wf(),
        ensures
            match found {
                Some(i) => {
                    &&& self.live(i as int)
                    &&& self.nodes@[i as int].value == *value
                    &&& self@.index_of_first(*value) == Some(self.layout@.pos[i as int])
                },
                None => !self@.contains(*value),
            },
    {
        let ghost l = self.layout@;
        let mut cur: usize = match self.root {
            Some(r) => r,
            None => {
                return None;
            },
        };
        assert(self.live(cur as int));
        loop
            invariant
                self.wf(),
                l == self.layout@,
                self.live(cur as int),
                forall|k: int| 0 <= k < l.lo[cur as int] ==> (#[trigger] self.key(k)).precedes(*value),
                forall|k: int| l.hi[cur as int] <= k < l.order.len() ==> value.precedes(#[trigger] self.key(k)),
            decreases l.hi[cur as int] - l.lo[cur as int],
        {
            let ghost p = l.pos[cur as int];
            let here = self.nodes[cur].value;
            assert(here == self.key(p));
            if value.is_same(&here) {
                proof {
                    assert forall|k: int| 0 <= k < p implies #[trigger] self@[k] != *value by {
                        if k < l.lo[cur as int] {
                            assert(self.key(k).precedes(*value));
                        } else {
                            T::lemma_irreflexive(self.key(k));
                            assert(!self.key(p - 1).precedes(self.key(k)));
                            lemma_at_most_then_less(self.key(k), self.key(p - 1), here);
                        }
                        T::lemma_irreflexive(*value);
                    }
                    lemma_first_occurrence_is(self@, *value, p);
                }
                return Some(cur);
            }
            if value.is_less(&here) {
                proof {
                    assert forall|k: int| p <= k < l.order.len() implies value.precedes(
                        #[trigger] self.key(k),
                    ) by {
                        if k < l.hi[cur as int] {
                            T::lemma_irreflexive(here);
                            assert(!self.key(k).precedes(self.key(p)));
                            lemma_less_then_at_most(*value, here, self.key(k));
                        }
                    }
                }
                match self.nodes[cur].left {
                    Some(c) => {
                        assert(self.live(c as int));
                        cur = c;
                    },
                    None => {
                        proof {
                            self.lemma_absent(*value, p);
                        }
                        return None;
                    },
                }
            } else {
                proof {
                    T::lemma_connected(*value, here);
                    assert forall|k: int| 0 <= k <= p implies (#[trigger] self.key(k)).precedes(*value) by {
                        if l.lo[cur as int] <= k {
                            T::lemma_irreflexive(here);
                            assert(!self.key(p).precedes(self.key(k)));
                            lemma_at_most_then_less(self.key(k), here, *value);
                        }
                    }
                }
                match self.nodes[cur].right {
                    Some(c) => {
                        assert(self.live(c as int));
                        cur = c;
                    },
                    None => {
                        proof {
                            self.lemma_absent(*value, p + 1);
                        }
                        return None;
                    },
                }
            }
        }
    }

    /// A value that is larger than everything before place `k` and smaller
    /// than everything from `k` on does not occur.
    pub(crate) proof fn lemma_absent(self, value: T, k: int)
        requires
            forall|j: int| 0 <= j < k ==> (#[trigger] self.key(j)).precedes(value),
            forall|j: int| k <= j < self.layout@.order.len() ==> value.precedes(#[trigger] self.key(j)),
        ensures
            !self@.contains(value),
    {
        assert forall|j: int| 0 <= j < self@.len() implies self@[j] != value by {
            T::lemma_irreflexive(value);
            if j < k {
                assert(self.key(j).precedes(value));
            } else {
                assert(value.precedes(self.key(j)));
            }
        }
    }

    /// The slot of the leftmost node below `start`, `start` included.
    pub(crate) fn get_minimum(&self, start: usize) -> (m: usize)
        requires
            self.wf(),
            self.live(start as int),
        ensures
            self.live(m as int),
            self.nodes@[m as int].left is None,
            self.layout@.pos[m as int] == self.layout@.lo[start as int],
            self.layout@.hi[m as int] <= self.layout@.hi[start as int],
    {
        let ghost l = self.layout@;
        let mut cur = start;
        loop
            invariant
                self.wf(),
                l == self.layout@,
                self.live(cur as int),
                l.lo[cur as int] == l.lo[start as int],
                l.hi[cur as int] <= l.hi[start as int],
            decreases l.hi[cur as int] - l.lo[cur as int],
        {
            match self.nodes[cur].left {
                Some(c) => {
                    assert(self.live(c as int));
                    cur = c;
                },
                None => {
                    return cur;
                },
            }
        }
    }

    /// The smallest value of the tree.
    pub fn minimum(&self) -> (value: T)
        requires
            self.wf(),
            self@.len() > 0,
        ensures
            value == self@.first(),
            value == self.shape().least(),
    {
        let r = self.root.unwrap();
        assert(self.live(r as int));
        proof {
            self.lemma_shape_ends(r as int);
        }
        let m = self.get_minimum(r);
        self.nodes[m].value
    }

    /// The largest value of the tree.
    pub fn maximum(&self) -> (value: T)
        requires
            self.wf(),
            self@.len() > 0,
        ensures
            value == self@.last(),
            value == self.shape().greatest(),
    {
        let ghost l = self.layout@;
        let mut cur = self.root.unwrap();
        assert(self.live(cur as int));
        proof {
            self.lemma_shape_ends(cur as int);
        }
        loop
            invariant
                self.wf(),
                l == self.layout@,
                self.live(cur as int),
                l.hi[cur as int] == l.order.len(),
                self.shape().greatest() == self.key(l.order.len() - 1),
            decreases l.hi[cur as int] - l.lo[cur as int],
        {
            match self.nodes[cur].right {
                Some(c) => {
                    assert(self.live(c as int));
                    cur = c;
                },
                None => {
                    return self.nodes[cur].value;
                },
            }
        }
    }

    /// Looks `value` up: `Some(value)` if the tree holds it, else `None`.
    pub fn search(&self, value: T) -> (found: Option<T>)
        requires
            self.wf(),
        ensures
            found == lookup(self@, value),
    {
        match self.get_node(&value) {
            Some(i) => {
                proof {
                    self@.index_of_first_ensures(value);
                }
                Some(value)
            },
            None => None,
        }
    }

    /// The slot of the node that follows node `z` in in-order, if any: the
    /// leftmost node of the right subtree, or else the first ancestor that `z`
    /// lies to the left of.
    pub(crate) fn next_node(&self, z: usize) -> (next: Option<usize>)
        requires
            self.wf(),
            self.live(z as int),
        ensures
            match next {
                Some(n) => self.live(n as int) && self.layout@.pos[n as int] == self.layout@.pos[z as int] + 1,
                None => self.layout@.pos[z as int] + 1 == self.layout@.order.len(),
            },
    {
        let ghost l = self.layout@;
        match self.nodes[z].right {
            Some(right_child) => {
                assert(self.live(right_child as int));
                Some(self.get_minimum(right_child))
            },
            None => {
                match self.nodes[z].parent {
                    Some(node_parent) => {
                        let mut x = z;
                        let mut y = node_parent;
                        assert(self.live(y as int));
                        while is_right_child(&self.nodes, x, y)
                            invariant
                                self.wf(),
                                l == self.layout@,
                                self.live(x as int),
                                self.live(y as int),
                                self.nodes@[x as int].parent == Some(y),
                                l.hi[x as int] == l.pos[z as int] + 1,
                            decreases l.order.len() - (l.hi[y as int] - l.lo[y as int]),
                        {
                            x = y;
                            match self.nodes[y].parent {
                                Some(y_parent) => {
                                    assert(self.live(y_parent as int));
                                    y = y_parent;
                                },
                                None => {
                                    return None;
                                },
                            }
                        }
                        Some(y)
                    },
                    None => None,
                }
            },
        }
    }

    /// The value that follows the first occurrence of `value` in in-order.
    /// `None` if the tree does not hold `value`, or holds nothing behind it.
    pub fn succesor(&self, value: T) -> (next: Option<T>)
        requires
            self.wf(),
        ensures
            next == element_after(self@, value),
    {
        match self.get_node(&value) {
            Some(z) => {
                match self.next_node(z) {
                    Some(n) => Some(self.nodes[n].value),
                    None => None,
                }
            },
            None => {
                proof {
                    self@.index_of_first_ensures(value);
                }
                None
            },
        }
    }

    /// The values of the tree in in-order.
    pub fn inorder_tree_walk(&self) -> (values: Vec<T>)
        requires
            self.wf(),
        ensures
            values@ == self@,
    {
        let ghost l = self.layout@;
        let mut values: Vec<T> = Vec::new();
        let mut cur: usize = match self.root {
            Some(r) => {
                assert(self.live(r as int));
                self.get_minimum(r)
            },
            None => {
                assert(values@ =~= self@);
                return values;
            },
        };
        loop
            invariant
                self.wf(),
                l == self.layout@,
                self.live(cur as int),
                values@.len() == l.pos[cur as int],
                forall|k: int| 0 <= k < values@.len() ==> values@[k] == #[trigger] self.key(k),
            decreases l.order.len() - l.pos[cur as int],
        {
            values.push(self.nodes[cur].value);
            match self.next_node(cur) {
                Some(n) => {
                    cur = n;
                },
                None => {
                    assert(values@ =~= self@);
                    return values;
                },
            }
        }
    }
}

} // verus!
