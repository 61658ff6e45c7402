//! Insertion: a new leaf at the end of the search path.

use vstd::prelude::*;
use crate::inorder::{inserted, sorted};
use crate::laws::{lemma_inorder_sorted, lemma_parent_consistent};
use crate::node::Node;
use crate::total_order::{lemma_at_most_twice, lemma_less_then_at_most, TotalOrder};
use crate::tree::{Layout, Tree};

verus! {

impl<T: TotalOrder> Tree<T> {
    /// `other` has the root and the listing of `self`, and each node of
    /// `self` as it is in `self`.
    pub(crate) open spec fn carried_to(self, other: Self) -> bool {
        &&& other.root == self.root
        &&& other.layout@.order == self.layout@.order
        &&& forall|i: int|
            self.live(i) ==> {
                &&& #[trigger] other.live(i)
                &&& other.nodes@[i] == self.nodes@[i]
                &&& other.layout@.pos[i] == self.layout@.pos[i]
                &&& other.layout@.lo[i] == self.layout@.lo[i]
                &&& other.layout@.hi[i] == self.layout@.hi[i]
            }
    }

    /// Takes a slot for `node`: a free one if there is any, else a new one at
    /// the end of the arena. The tree itself is untouched.
    pub(crate) fn allocate(&mut self, node: Node<T>) -> (idx: usize)
        requires
            old(self).wf(),
        ensures
            final(self).wf(),
            final(self)@ == old(self)@,
            old(self).carried_to(*final(self)),
            idx < final(self).nodes@.len(),
            final(self).nodes@[idx as int] == node,
            !final(self).live(idx as int),
            !final(self).free@.contains(idx),
    {
        let ghost before = *self;
        let idx = match self.free.pop() {
            Some(i) => {
                assert(before.free@[before.free@.len() - 1] == i);
                self.nodes[i] = node;
                i
            },
            None => {
                self.nodes.push(node);
                proof {
                    let l = self.layout@;
                    self.layout@ = Layout { order: l.order, pos: l.pos.push(-1), lo: l.lo.push(0), hi: l.hi.push(0) };
                }
                self.nodes.len() - 1
            },
        };
        proof {
            assert forall|k: int| 0 <= k < self.layout@.order.len() implies #[trigger] self.key(k) == before.key(
                k,
            ) by {
                assert(before.layout@.order[k] < before.nodes@.len());
            }
            assert(self@ =~= before@);
            assert forall|i: int| #[trigger] self.live(i) implies self.wf_node(i) by {
                assert(before.live(i));
                assert(before.wf_node(i));
                if self.nodes@[i].left is Some {
                    let k = self.layout@.pos[i] - 1;
                    assert(self.key(k) == before.key(k));
                }
            }
            assert forall|i: int| before.live(i) implies #[trigger] self.live(i) by {}
            assert(self.wf_layout());
            assert(self.wf_root());
            assert(self.wf_sorted());
            assert(self.wf_free());
        }
        idx
    }

    /// Takes a slot for a childless node that holds `value` and names
    /// `parent` as its parent.
    pub(crate) fn new_with_parent(&mut self, value: T, parent: usize) -> (idx: usize)
        requires
            old(self).wf(),
        ensures
            final(self).wf(),
            final(self)@ == old(self)@,
            old(self).carried_to(*final(self)),
            idx < final(self).nodes@.len(),
            final(self).nodes@[idx as int] == (Node { value, right: None, left: None, parent: Some(parent) }),
            !final(self).live(idx as int),
            !final(self).free@.contains(idx),
    {
        self.allocate(Node::new_with_parent(value, parent))
    }

    /// Walks the search path of `value` to its end: the node that the new
    /// leaf hangs below, and whether it hangs to the left.
    pub(crate) fn find_parent(&self, value: &T, start: usize) -> (slot: (usize, bool))
        requires
            self.wf(),
            self.root == Some(start),
        ensures
            self.live(slot.0 as int),
            slot.1 ==> self.nodes@[slot.0 as int].left is None && self.splits_at(
                *value,
                self.layout@.pos[slot.0 as int],
            ),
            !slot.1 ==> self.nodes@[slot.0 as int].right is None && self.splits_at(
                *value,
                self.layout@.pos[slot.0 as int] + 1,
            ),
    {
        let ghost l = self.layout@;
        let mut cur = start;
        assert(self.live(cur as int));
        loop
            invariant
                self.wf(),
                l == self.layout@,
                self.live(cur as int),
                forall|k: int| 0 <= k < l.lo[cur as int] ==> !value.precedes(#[trigger] self.key(k)),
                forall|k: int| l.hi[cur as int] <= k < l.order.len() ==> value.precedes(#[trigger] self.key(k)),
            decreases l.hi[cur as int] - l.lo[cur as int],
        {
            let ghost p = l.pos[cur as int];
            let here = self.nodes[cur].value;
            assert(here == self.key(p));
            if value.is_less(&here) {
                proof {
                    assert forall|k: int| p <= k < l.order.len() implies value.precedes(
                        #[trigger] self.key(k),
                    ) by {
                        if k < l.hi[cur as int] {
                            T::lemma_irreflexive(here);
                            assert(!self.key(k).precedes(self.key(p)));
                            lemma_less_then_at_most(*value, here, self.key(k));
                        }
                    }
                }
                match self.nodes[cur].left {
                    Some(c) => {
                        assert(self.live(c as int));
                        cur = c;
                    },
                    None => {
                        return (cur, true);
                    },
                }
            } else {
                proof {
                    assert forall|k: int| 0 <= k <= p implies !value.precedes(#[trigger] self.key(k)) by {
                        if l.lo[cur as int] <= k {
                            T::lemma_irreflexive(here);
                            assert(!self.key(p).precedes(self.key(k)));
                            lemma_at_most_twice(self.key(k), here, *value);
                        }
                    }
                }
                match self.nodes[cur].right {
                    Some(c) => {
                        assert(self.live(c as int));
                        cur = c;
                    },
                    None => {
                        return (cur, false);
                    },
                }
            }
        }
    }

    /// Enters `new_value`: a new leaf at the end of its search path, left of
    /// values that are larger and right of all others.
    pub fn insert(&mut self, new_value: T)
        requires
            old(self).wf(),
        ensures
            final(self).wf(),
            final(self).shape() == old(self).shape().with(new_value),
            final(self)@ == inserted(old(self)@, new_value),
            final(self).parent_consistent(),
            sorted(final(self)@),
    {
        match self.root {
            Some(r) => {
                let ghost start = *self;
                let (cur, left) = self.find_parent(&new_value, r);
                let idx = self.new_with_parent(new_value, cur);
                let ghost before = *self;
                proof {
                    assert(before.live(cur as int));
                    assert forall|k: int| 0 <= k < before.layout@.order.len() implies #[trigger] before.key(k)
                        == start.key(k) by {
                        assert(before@[k] == start@[k]);
                    }
                }
                if left {
                    self.nodes[cur].left = Some(idx);
                    proof {
                        let p = before.layout@.pos[cur as int];
                        self.layout@ = before.layout@.opened(p, idx as int, p + 1);
                    }
                } else {
                    self.nodes[cur].right = Some(idx);
                    proof {
                        let p = before.layout@.pos[cur as int];
                        self.layout@ = before.layout@.opened(p + 1, idx as int, p + 1);
                    }
                }
                proof {
                    assert(before.wf_node(cur as int));
                    Self::lemma_attach(before, *self, cur, idx, new_value, left);
                    assert(before.live(r as int));
                    assert(before.wf_node(r as int));
                    Self::lemma_attach_shape_grown(before, *self, cur, idx, new_value, left, r as int);
                    start.lemma_shape_same(before, r as int);
                }
            },
            None => {
                let ghost before = *self;
                let idx = self.allocate(Node::new(new_value));
                self.root = Some(idx);
                proof {
                    let l = self.layout@;
                    self.layout@ = Layout {
                        order: seq![idx],
                        pos: l.pos.update(idx as int, 0),
                        lo: l.lo.update(idx as int, 0),
                        hi: l.hi.update(idx as int, 1),
                    };
                    assert(before@ =~= Seq::<T>::empty());
                    assert(self@ =~= inserted(before@, new_value));
                    assert(self.wf_free());
                    assert(self.live(idx as int));
                    self.lemma_shape_unfold(idx as int);
                }
            },
        }
        proof {
            lemma_parent_consistent(*self);
            lemma_inorder_sorted(*self);
        }
    }
}

} // verus!
