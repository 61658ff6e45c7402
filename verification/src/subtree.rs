//! The shape of the tree in the arena, and how it follows the links.

use vstd::prelude::*;
use crate::shape::Shape;
use crate::total_order::{lemma_at_most_then_less, TotalOrder};
use crate::tree::Tree;

verus! {

impl<T: TotalOrder> Tree<T> {
    /// The shape of what hangs below the link `link`.
    pub(crate) open spec fn shape_below(self, link: Option<usize>) -> Shape<T> {
        match link {
            None => Shape::Empty,
            Some(c) => self.shape_of(c as int),
        }
    }

    /// The shape of the subtree of node `i`.
    pub(crate) open spec fn shape_of(self, i: int) -> Shape<T>
        decreases self.layout@.hi[i] - self.layout@.lo[i],
        when self.wf_span(i) && self.wf_left(i) && self.wf_right(i)
    {
        let n = self.nodes@[i];
        Shape::Fork(
            Box::new(
                match n.left {
                    None => Shape::Empty,
                    Some(c) => self.shape_of(c as int),
                },
            ),
            n.value,
            Box::new(
                match n.right {
                    None => Shape::Empty,
                    Some(c) => self.shape_of(c as int),
                },
            ),
        )
    }

    /// The shape of the tree.
    pub open(crate) spec fn shape(self) -> Shape<T> {
        self.shape_below(self.root)
    }

    /// The shape of a subtree is a fork of the shapes below its root.
    pub(crate) proof fn lemma_shape_unfold(self, i: int)
        requires
            self.wf_around(i),
        ensures
            self.shape_of(i) == Shape::Fork(
                Box::new(self.shape_below(self.nodes@[i].left)),
                self.nodes@[i].value,
                Box::new(self.shape_below(self.nodes@[i].right)),
            ),
    {
        let n = self.nodes@[i];
        let left = self.shape_below(n.left);
        let right = self.shape_below(n.right);
        assert(self.shape_of(i) == Shape::Fork(Box::new(left), n.value, Box::new(right)));
    }

    /// A tree that has the nodes of the subtree of `i` in `self`, with the
    /// same values and children, has the same shape below `i`.
    pub(crate) proof fn lemma_shape_same(self, other: Self, i: int)
        requires
            self.wf(),
            other.wf(),
            self.live(i),
            forall|j: int|
                #[trigger] self.live(j) && self.layout@.lo[i] <= self.layout@.pos[j] < self.layout@.hi[i] ==> {
                    &&& other.live(j)
                    &&& other.nodes@[j].value == self.nodes@[j].value
                    &&& other.nodes@[j].left == self.nodes@[j].left
                    &&& other.nodes@[j].right == self.nodes@[j].right
                },
        ensures
            other.shape_of(i) == self.shape_of(i),
        decreases self.layout@.hi[i] - self.layout@.lo[i],
    {
        let n = self.nodes@[i];
        self.lemma_wf_around(i);
        assert(other.live(i));
        other.lemma_wf_around(i);
        self.lemma_shape_unfold(i);
        other.lemma_shape_unfold(i);
        if n.left is Some {
            self.lemma_shape_same(other, n.left->0 as int);
        }
        if n.right is Some {
            self.lemma_shape_same(other, n.right->0 as int);
        }
    }

    /// Spans nest: a node whose place lies in the span of `i` is `i` itself,
    /// or lies with its whole span to one side of `i` within that span.
    pub(crate) proof fn lemma_nested(self, i: int, j: int)
        requires
            self.wf(),
            self.live(i),
            self.live(j),
            self.layout@.lo[i] <= self.layout@.pos[j] < self.layout@.hi[i],
        ensures
            self.layout@.lo[i] <= self.layout@.lo[j],
            self.layout@.hi[j] <= self.layout@.hi[i],
            i == j || self.layout@.hi[j] <= self.layout@.pos[i] || self.layout@.pos[i] < self.layout@.lo[j],
        decreases self.layout@.hi[i] - self.layout@.lo[i],
    {
        let l = self.layout@;
        let n = self.nodes@[i];
        self.lemma_wf_around(i);
        assert(self.wf_node(j));
        if i != j {
            if l.pos[j] < l.pos[i] {
                self.lemma_nested(n.left->0 as int, j);
            } else {
                self.lemma_nested(n.right->0 as int, j);
            }
        }
    }

    /// Of two nodes whose spans share a place within the span of `t`, one
    /// has the place of the other in its span.
    pub(crate) proof fn lemma_chain(self, t: int, i: int, z: int, j: int)
        requires
            self.wf(),
            self.live(t),
            self.live(i),
            self.live(z),
            self.live(j),
            self.layout@.lo[t] <= self.layout@.pos[i] < self.layout@.hi[t],
            self.layout@.lo[t] <= self.layout@.pos[z] < self.layout@.hi[t],
            self.layout@.lo[i] <= self.layout@.pos[j] < self.layout@.hi[i],
            self.layout@.lo[z] <= self.layout@.pos[j] < self.layout@.hi[z],
        ensures
            self.layout@.lo[i] <= self.layout@.pos[z] < self.layout@.hi[i] || self.layout@.lo[z]
                <= self.layout@.pos[i] < self.layout@.hi[z],
        decreases self.layout@.hi[t] - self.layout@.lo[t],
    {
        let l = self.layout@;
        let n = self.nodes@[t];
        self.lemma_wf_around(t);
        self.lemma_nested(t, i);
        self.lemma_nested(t, z);
        self.lemma_nested(i, j);
        self.lemma_nested(z, j);
        assert(self.wf_node(i) && self.wf_node(z) && self.wf_node(j));
        if t != i && t != z {
            if l.pos[j] < l.pos[t] {
                self.lemma_chain(n.left->0 as int, i, z, j);
            } else {
                self.lemma_chain(n.right->0 as int, i, z, j);
            }
        }
    }

    /// Node `j` has in `other` the value and the children that it has in
    /// `self`.
    pub(crate) open spec fn intact(self, other: Self, j: int) -> bool {
        &&& other.live(j)
        &&& other.nodes@[j].value == self.nodes@[j].value
        &&& other.nodes@[j].left == self.nodes@[j].left
        &&& other.nodes@[j].right == self.nodes@[j].right
    }

    /// `other` is `self` with `sub` hung in place of the subtree of node `z`:
    /// every node outside that subtree is intact, but that the parent of `z`
    /// names `sub` where it named `z`.
    pub(crate) open spec fn hung(self, other: Self, z: int, sub: Option<usize>) -> bool {
        let l = self.layout@;
        &&& self.wf()
        &&& other.wf()
        &&& self.live(z)
        &&& other.root == if self.nodes@[z].parent is None {
            sub
        } else {
            self.root
        }
        &&& forall|j: int| #[trigger]
            self.live(j) && !(l.lo[z] <= l.pos[j] < l.hi[z]) ==> {
                let a = self.nodes@[j];
                let b = other.nodes@[j];
                &&& other.live(j)
                &&& b.value == a.value
                &&& b.left == if a.left == Some(z as usize) {
                    sub
                } else {
                    a.left
                }
                &&& b.right == if a.right == Some(z as usize) {
                    sub
                } else {
                    a.right
                }
            }
    }

    /// Where `sub` hangs in place of the subtree of `z`, a subtree that does
    /// not hold `z` has the shape it had.
    pub(crate) proof fn lemma_hung_beside(self, other: Self, z: int, sub: Option<usize>, i: int)
        requires
            self.hung(other, z, sub),
            self.live(i),
            !(self.layout@.lo[i] <= self.layout@.pos[z] < self.layout@.hi[i]),
            !(self.layout@.lo[z] <= self.layout@.pos[i] < self.layout@.hi[z]),
        ensures
            other.shape_of(i) == self.shape_of(i),
    {
        let l = self.layout@;
        assert forall|j: int| #[trigger] self.live(j) && l.lo[i] <= l.pos[j] < l.hi[i] implies self.intact(
            other,
            j,
        ) by {
            let r = self.root->0 as int;
            assert(self.live(r));
            assert(self.wf_node(i) && self.wf_node(z) && self.wf_node(j));
            self.lemma_nested(i, j);
            self.lemma_wf_around(j);
            self.lemma_wf_around(z);
            if l.lo[z] <= l.pos[j] < l.hi[z] {
                self.lemma_chain(r, i, z, j);
            }
        }
        self.lemma_shape_same(other, i);
    }

    /// Where `sub`, whose shape is that of the subtree of `z` without its
    /// root, hangs in place of that subtree, each subtree that holds `z`
    /// below its root has the shape it had without the value of `z`; `z`
    /// being the first node in in-order that holds its value.
    pub(crate) proof fn lemma_hung_above(self, other: Self, z: int, sub: Option<usize>, i: int)
        requires
            self.hung(other, z, sub),
            other.shape_below(sub) == self.shape_of(z).without_root(),
            forall|k: int| 0 <= k < self.layout@.pos[z] ==> #[trigger] self.key(k) != self.nodes@[z].value,
            self.live(i),
            i != z,
            self.layout@.lo[i] <= self.layout@.pos[z] < self.layout@.hi[i],
        ensures
            other.shape_of(i) == self.shape_of(i).without(self.nodes@[z].value),
        decreases self.layout@.hi[i] - self.layout@.lo[i],
    {
        let l = self.layout@;
        let n = self.nodes@[i];
        let m = other.nodes@[i];
        let v = self.nodes@[z].value;
        let p = l.pos[z];
        self.lemma_wf_around(i);
        self.lemma_wf_around(z);
        self.lemma_nested(i, z);
        assert(other.live(i));
        other.lemma_wf_around(i);
        self.lemma_shape_unfold(i);
        other.lemma_shape_unfold(i);
        self.lemma_shape_unfold(z);
        let a = self.shape_below(n.left);
        let b = self.shape_below(n.right);
        assert(n.value == self.key(l.pos[i]));
        assert(v == self.key(p));
        if p < l.pos[i] {
            // The value of `z` is at most what comes just before `i`, which
            // is smaller than the value of `i`.
            let c = n.left->0 as int;
            assert(!self.key(l.pos[i] - 1).precedes(self.key(p))) by {
                T::lemma_irreflexive(v);
            }
            lemma_at_most_then_less(v, self.key(l.pos[i] - 1), n.value);
            T::lemma_irreflexive(v);
            assert(v != n.value);
            if c == z {
                assert(other.shape_below(m.left) == a.without(v));
            } else {
                self.lemma_hung_above(other, z, sub, c);
            }
            if n.right is Some {
                self.lemma_hung_beside(other, z, sub, n.right->0 as int);
            }
            assert(other.shape_below(m.right) == b);
        } else {
            // The value of `i` comes before the first occurrence of the
            // value of `z`, so it is another value and does not exceed it.
            let c = n.right->0 as int;
            assert(self.key(l.pos[i]) != v);
            assert(!self.key(p).precedes(self.key(l.pos[i])));
            if c == z {
                assert(other.shape_below(m.right) == b.without(v));
            } else {
                self.lemma_hung_above(other, z, sub, c);
            }
            if n.left is Some {
                self.lemma_hung_beside(other, z, sub, n.left->0 as int);
            }
            assert(other.shape_below(m.left) == a);
        }
    }

    /// Where `sub`, whose shape is that of the subtree of `z` without its
    /// root, hangs in place of that subtree, the tree has the shape it had
    /// without the value of `z`; `z` being the first node in in-order that
    /// holds its value.
    pub(crate) proof fn lemma_hung(self, other: Self, z: int, sub: Option<usize>)
        requires
            self.hung(other, z, sub),
            other.shape_below(sub) == self.shape_of(z).without_root(),
            forall|k: int| 0 <= k < self.layout@.pos[z] ==> #[trigger] self.key(k) != self.nodes@[z].value,
        ensures
            other.shape() == self.shape().without(self.nodes@[z].value),
    {
        let r = self.root->0 as int;
        self.lemma_wf_around(z);
        self.lemma_shape_unfold(z);
        assert(self.live(r));
        if r != z {
            self.lemma_wf_around(r);
            self.lemma_hung_above(other, z, sub, r);
        }
    }

    /// Taking a value that the tree does not hold out of the shape of a
    /// subtree changes nothing.
    pub(crate) proof fn lemma_without_absent(self, i: int, value: T)
        requires
            self.wf(),
            self.live(i),
            !self@.contains(value),
        ensures
            self.shape_of(i).without(value) == self.shape_of(i),
        decreases self.layout@.hi[i] - self.layout@.lo[i],
    {
        let n = self.nodes@[i];
        self.lemma_wf_around(i);
        self.lemma_shape_unfold(i);
        assert(self@[self.layout@.pos[i]] == n.value);
        assert(self@.contains(n.value));
        assert(Shape::<T>::Empty.without(value) == Shape::<T>::Empty);
        if n.left is Some {
            self.lemma_without_absent(n.left->0 as int, value);
        }
        if n.right is Some {
            self.lemma_without_absent(n.right->0 as int, value);
        }
    }

    /// The leftmost value of a subtree is the first of its run of the
    /// listing, the rightmost value the last.
    pub(crate) proof fn lemma_shape_ends(self, i: int)
        requires
            self.wf(),
            self.live(i),
        ensures
            self.shape_of(i).least() == self.key(self.layout@.lo[i]),
            self.shape_of(i).greatest() == self.key(self.layout@.hi[i] - 1),
        decreases self.layout@.hi[i] - self.layout@.lo[i],
    {
        let n = self.nodes@[i];
        self.lemma_wf_around(i);
        self.lemma_shape_unfold(i);
        if n.left is Some {
            self.lemma_wf_around(n.left->0 as int);
            self.lemma_shape_unfold(n.left->0 as int);
            self.lemma_shape_ends(n.left->0 as int);
        }
        if n.right is Some {
            self.lemma_wf_around(n.right->0 as int);
            self.lemma_shape_unfold(n.right->0 as int);
            self.lemma_shape_ends(n.right->0 as int);
        }
    }

    /// The values of a subtree from left to right are its run of the listing.
    pub(crate) proof fn lemma_shape_inorder(self, i: int)
        requires
            self.wf(),
            self.live(i),
        ensures
            self.shape_of(i).inorder() == self@.subrange(self.layout@.lo[i], self.layout@.hi[i]),
        decreases self.layout@.hi[i] - self.layout@.lo[i],
    {
        let l = self.layout@;
        let n = self.nodes@[i];
        self.lemma_wf_around(i);
        let left = self.shape_below(n.left);
        let right = self.shape_below(n.right);
        self.lemma_shape_unfold(i);
        assert(left.inorder() == self@.subrange(l.lo[i], l.pos[i])) by {
            if n.left is Some {
                self.lemma_shape_inorder(n.left->0 as int);
            } else {
                assert(self@.subrange(l.lo[i], l.pos[i]) =~= Seq::<T>::empty());
            }
        }
        assert(right.inorder() == self@.subrange(l.pos[i] + 1, l.hi[i])) by {
            if n.right is Some {
                self.lemma_shape_inorder(n.right->0 as int);
            } else {
                assert(self@.subrange(l.pos[i] + 1, l.hi[i]) =~= Seq::<T>::empty());
            }
        }
        assert(self@[l.pos[i]] == n.value);
        assert(self@.subrange(l.lo[i], l.hi[i]) =~= self@.subrange(l.lo[i], l.pos[i]).push(n.value) + self@.subrange(
            l.pos[i] + 1,
            l.hi[i],
        ));
    }
}

} // verus!
