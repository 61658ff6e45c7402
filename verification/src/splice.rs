//! Taking out a node that has at most one child: the proof that the tree
//! stays well formed and loses exactly that node.

use vstd::prelude::*;
use crate::links::{detached, rerooted, transplanted};
use crate::node::Node;
use crate::total_order::{lemma_at_most_then_less, TotalOrder};
use crate::tree::{Layout, Tree};

verus! {

impl Layout {
    /// The layout after the node at place `p` left the listing. Later places
    /// and subtree bounds move down by one.
    pub(crate) open spec fn closed(self, p: int) -> Layout {
        Layout {
            order: self.order.remove(p),
            pos: Seq::new(
                self.pos.len(),
                |i: int|
                    if self.pos[i] == p {
                        -1
                    } else if self.pos[i] > p {
                        self.pos[i] - 1
                    } else {
                        self.pos[i]
                    },
            ),
            lo: Seq::new(
                self.lo.len(),
                |i: int|
                    if self.lo[i] > p {
                        self.lo[i] - 1
                    } else {
                        self.lo[i]
                    },
            ),
            hi: Seq::new(
                self.hi.len(),
                |i: int|
                    if self.hi[i] > p {
                        self.hi[i] - 1
                    } else {
                        self.hi[i]
                    },
            ),
        }
    }
}

impl<T: TotalOrder> Tree<T> {
    /// `after` is `before` without node `z`, which had at most one child: the
    /// child, if any, hangs where `z` hung, the slot of `z` is free, and the
    /// layout is closed at the place of `z`.
    pub(crate) open spec fn spliced(before: Self, after: Self, z: usize) -> bool {
        before.wf() && Self::splice_step(before, after, z)
    }

    /// The child of `z`, where it has one child at most.
    pub(crate) open spec fn only_child(before: Self, z: usize) -> Option<usize> {
        let n = before.nodes@[z as int];
        if n.left is Some {
            n.left
        } else {
            n.right
        }
    }

    /// The change of state that `spliced` speaks of.
    pub(crate) open spec fn splice_step(before: Self, after: Self, z: usize) -> bool {
        let n = before.nodes@[z as int];
        let only = Self::only_child(before, z);
        &&& before.live(z as int)
        &&& (n.left is None || n.right is None)
        &&& after.free@ == before.free@.push(z)
        &&& after.nodes@.len() == before.nodes@.len()
        &&& after.layout@ == before.layout@.closed(before.layout@.pos[z as int])
        &&& after.root == rerooted(before.nodes@, before.root, z as int, only)
        &&& after.nodes@ == match only {
            Some(c) => transplanted(before.nodes@, z as int, c as int),
            None => detached(before.nodes@, z as int),
        }
    }

    /// After a node left, the listing is the old one without its place.
    pub(crate) proof fn lemma_splice_keys(before: Self, after: Self, z: usize)
        requires
            Self::spliced(before, after, z),
        ensures
            after.layout@.order.len() == before.layout@.order.len() - 1,
            forall|k: int|
                0 <= k < after.layout@.order.len() ==> #[trigger] after.key(k) == before.key(
                    if k < before.layout@.pos[z as int] {
                        k
                    } else {
                        k + 1
                    },
                ),
            after@ == before@.remove(before.layout@.pos[z as int]),
            after.wf_sorted(),
    {
        let l = before.layout@;
        let m = after.layout@;
        let p = l.pos[z as int];
        assert forall|i: int| 0 <= i < before.nodes@.len() implies (#[trigger] after.nodes@[i]).value
            == before.nodes@[i].value by {}
        assert forall|k: int| 0 <= k < m.order.len() implies #[trigger] after.key(k) == before.key(
            if k < p {
                k
            } else {
                k + 1
            },
        ) by {
            let k0 = if k < p { k } else { k + 1 };
            assert(l.order[k0] < before.nodes@.len());
        }
        assert(after@ =~= before@.remove(p));
        assert forall|j: int, k: int| 0 <= j < k < m.order.len() implies !(#[trigger] after.key(k)).precedes(
            #[trigger] after.key(j),
        ) by {
            let j0 = if j < p { j } else { j + 1 };
            let k0 = if k < p { k } else { k + 1 };
            assert(!before.key(k0).precedes(before.key(j0)));
        }
    }

    /// After a node left, the nodes of the tree are the old ones without it.
    pub(crate) proof fn lemma_splice_live(before: Self, after: Self, z: usize)
        requires
            Self::spliced(before, after, z),
        ensures
            after.wf_layout(),
            after.wf_free(),
            !after.live(z as int),
            forall|i: int| before.live(i) && i != z ==> #[trigger] after.live(i),
            forall|i: int| #[trigger] after.live(i) ==> before.live(i) && i != z,
    {
        let l = before.layout@;
        let m = after.layout@;
        let p = l.pos[z as int];
        assert forall|k: int| 0 <= k < m.order.len() implies (#[trigger] m.order[k]) < after.nodes@.len()
            && m.pos[m.order[k] as int] == k by {
            let k0 = if k < p { k } else { k + 1 };
            assert(l.order[k0] < before.nodes@.len());
        }
        assert forall|i: int| before.live(i) && i != z implies #[trigger] after.live(i) by {}
        assert forall|i: int| #[trigger] after.live(i) implies before.live(i) && i != z by {
            let k = m.pos[i];
            let k0 = if k < p { k } else { k + 1 };
            assert(m.order[k] == l.order[k0]);
        }
        assert forall|k: int| 0 <= k < after.free@.len() implies (#[trigger] after.free@[k]) < after.nodes@.len()
            && !after.listed(after.free@[k] as int) by {
            let f = after.free@[k] as int;
            if k < before.free@.len() {
                assert(before.free@[k] == f);
                assert(!before.listed(f));
            }
            if after.live(f) {
                assert(before.live(f));
            }
        }
        assert forall|j: int, k: int| 0 <= j < k < after.free@.len() implies #[trigger] after.free@[j]
            != #[trigger] after.free@[k] by {
            if k == before.free@.len() {
                assert(before.free@[j] == after.free@[j]);
                assert(!before.listed(before.free@[j] as int));
            } else {
                assert(before.free@[j] != before.free@[k]);
            }
        }
    }

    /// What slot `x` holds after node `z` left: the child of `z` has the
    /// parent of `z`, the parent of `z` has the child of `z` in place of `z`,
    /// and every other slot is as it was.
    pub(crate) open spec fn splice_node(before: Self, z: usize, x: int) -> Node<T> {
        let n = before.nodes@[z as int];
        let only = Self::only_child(before, z);
        let a = before.nodes@[x];
        if only == Some(x as usize) {
            Node { parent: n.parent, ..a }
        } else if n.parent == Some(x as usize) {
            if a.right == Some(z) {
                Node { right: only, ..a }
            } else {
                Node { left: only, ..a }
            }
        } else {
            a
        }
    }

    /// After a node left, every slot holds what `splice_node` says.
    pub(crate) proof fn lemma_splice_slot(before: Self, after: Self, z: usize, x: int)
        requires
            Self::splice_step(before, after, z),
            before.wf_around(z as int),
            0 <= x < before.nodes@.len(),
        ensures
            after.nodes@.len() == before.nodes@.len(),
            after.nodes@[x] == Self::splice_node(before, z, x),
    {
        let n = before.nodes@[z as int];
        let only = Self::only_child(before, z);
        if only is Some && n.parent is Some {
            let e = only->0 as int;
            let c = n.parent->0 as int;
            assert(before.layout@.pos[e] != before.layout@.pos[c]);
        }
    }

    /// After a node left, the span of each remaining node is still in order.
    pub(crate) proof fn lemma_splice_span(before: Self, after: Self, z: usize, i: int)
        requires
            Self::splice_step(before, after, z),
            before.wf_lengths(),
            before.live(i),
            before.wf_span(i),
            i != z,
        ensures
            after.wf_span(i),
            after.listed(i),
    {
        let l = before.layout@;
        let m = after.layout@;
        let p = l.pos[z as int];
        assert(l.pos[i] != p);
        assert(m.order[m.pos[i]] == l.order[l.pos[i]]);
    }

    /// After a node left, the left link of each remaining node is still in
    /// order.
    pub(crate) proof fn lemma_splice_left(before: Self, after: Self, z: usize, i: int)
        requires
            Self::splice_step(before, after, z),
            before.wf_around(z as int),
            before.wf_around(i),
            i != z,
        ensures
            after.wf_left(i),
    {
        let n = before.nodes@[z as int];
        let a = before.nodes@[i];
        Self::lemma_splice_slot(before, after, z, i);
        let b = after.nodes@[i];
        if b.left is Some {
            let c = b.left->0 as int;
            assert(before.live(c) && c != z && before.wf_span(c));
            Self::lemma_splice_slot(before, after, z, c);
            Self::lemma_splice_span(before, after, z, c);
        }
    }

    /// After a node left, the right link of each remaining node is still in
    /// order.
    pub(crate) proof fn lemma_splice_right(before: Self, after: Self, z: usize, i: int)
        requires
            Self::splice_step(before, after, z),
            before.wf_around(z as int),
            before.wf_around(i),
            i != z,
        ensures
            after.wf_right(i),
    {
        let n = before.nodes@[z as int];
        let a = before.nodes@[i];
        Self::lemma_splice_slot(before, after, z, i);
        let b = after.nodes@[i];
        if b.right is Some {
            let c = b.right->0 as int;
            assert(before.live(c) && c != z && before.wf_span(c));
            Self::lemma_splice_slot(before, after, z, c);
            Self::lemma_splice_span(before, after, z, c);
        }
    }

    /// After a node left, the parent link of each remaining node is still in
    /// order.
    pub(crate) proof fn lemma_splice_up(before: Self, after: Self, z: usize, i: int)
        requires
            Self::splice_step(before, after, z),
            before.wf_around(z as int),
            before.wf_around(i),
            i != z,
        ensures
            after.wf_up(i),
    {
        let n = before.nodes@[z as int];
        let a = before.nodes@[i];
        Self::lemma_splice_slot(before, after, z, i);
        let b = after.nodes@[i];
        if b.parent is Some {
            let c = b.parent->0 as int;
            assert(before.live(c) && c != z && before.wf_span(c));
            Self::lemma_splice_slot(before, after, z, c);
            Self::lemma_splice_span(before, after, z, c);
        }
    }

    /// After a node left, the links of each remaining node are still in order.
    pub(crate) proof fn lemma_splice_links(before: Self, after: Self, z: usize, i: int)
        requires
            Self::splice_step(before, after, z),
            before.wf_around(z as int),
            before.wf_around(i),
            i != z,
        ensures
            after.wf_links(i),
    {
        Self::lemma_splice_span(before, after, z, i);
        Self::lemma_splice_left(before, after, z, i);
        Self::lemma_splice_right(before, after, z, i);
        Self::lemma_splice_up(before, after, z, i);
    }

    /// After a node left, what comes just before a remaining node in its left
    /// subtree is still strictly smaller.
    pub(crate) proof fn lemma_splice_strict(before: Self, after: Self, z: usize, i: int)
        requires
            Self::spliced(before, after, z),
            before.live(i),
            i != z,
            after.wf_links(i),
        ensures
            after.wf_strict(i),
    {
        let l = before.layout@;
        let m = after.layout@;
        let p = l.pos[z as int];
        Self::lemma_splice_keys(before, after, z);
        assert(before.wf_node(i));
        let a = before.nodes@[i];
        let b = after.nodes@[i];
        assert(b.value == a.value);
        if b.left is Some {
            let k = l.pos[i] - 1;
            let k1 = if k == p { k - 1 } else { k };
            assert(a.left is Some);
            assert(0 <= k1);
            assert(after.key(m.pos[i] - 1) == before.key(k1));
            assert(!before.key(k).precedes(before.key(k1))) by {
                if k1 == k {
                    T::lemma_irreflexive(before.key(k));
                }
            }
            assert(before.key(k).precedes(a.value));
            lemma_at_most_then_less(before.key(k1), before.key(k), a.value);
        }
    }

    /// Taking out a node with at most one child, and closing the layout at
    /// its place, gives a well-formed tree whose listing lost that place.
    pub(crate) proof fn lemma_splice_wf(before: Self, after: Self, z: usize)
        requires
            Self::spliced(before, after, z),
        ensures
            after.wf(),
            after@ == before@.remove(before.layout@.pos[z as int]),
    {
        Self::lemma_splice_keys(before, after, z);
        Self::lemma_splice_live(before, after, z);
        assert(after.wf_root()) by {
            before.lemma_wf_around(z as int);
            if before.root is Some {
                before.lemma_wf_around(before.root->0 as int);
            }
        }
        before.lemma_wf_around(z as int);
        assert forall|i: int| #[trigger] after.live(i) implies after.wf_node(i) by {
            before.lemma_wf_around(i);
            Self::lemma_splice_links(before, after, z, i);
            Self::lemma_splice_strict(before, after, z, i);
        }
    }

    /// Taking out a node with at most one child takes the first node that
    /// holds its value out of the shape, if the node is that first node.
    pub(crate) proof fn lemma_splice_shape(before: Self, after: Self, z: usize)
        requires
            Self::spliced(before, after, z),
            after.wf(),
            forall|k: int|
                0 <= k < before.layout@.pos[z as int] ==> #[trigger] before.key(k) != before.nodes@[z as int].value,
        ensures
            after.shape() == before.shape().without(before.nodes@[z as int].value),
    {
        let l = before.layout@;
        let n = before.nodes@[z as int];
        let only = Self::only_child(before, z);
        before.lemma_wf_around(z as int);
        Self::lemma_splice_live(before, after, z);
        assert forall|j: int| #[trigger]
            before.live(j) && !(l.lo[z as int] <= l.pos[j] < l.hi[z as int]) implies {
            let a = before.nodes@[j];
            let b = after.nodes@[j];
            &&& after.live(j)
            &&& b.value == a.value
            &&& b.left == if a.left == Some(z) {
                only
            } else {
                a.left
            }
            &&& b.right == if a.right == Some(z) {
                only
            } else {
                a.right
            }
        } by {
            before.lemma_wf_around(j);
            Self::lemma_splice_slot(before, after, z, j);
        }
        assert(before.hung(after, z as int, only));
        before.lemma_shape_unfold(z as int);
        if only is Some {
            let e = only->0 as int;
            assert forall|j: int| #[trigger] before.live(j) && l.lo[e] <= l.pos[j] < l.hi[e] implies before.intact(
                after,
                j,
            ) by {
                before.lemma_wf_around(j);
                Self::lemma_splice_slot(before, after, z, j);
            }
            before.lemma_shape_same(after, e);
        }
        before.lemma_hung(after, z as int, only);
    }

    /// Taking out a node with at most one child, which is the first node in
    /// in-order that holds its value, gives a well-formed tree that lost the
    /// place of the node in its listing and the value in its shape.
    pub(crate) proof fn lemma_splice(before: Self, after: Self, z: usize)
        requires
            before.wf(),
            before.live(z as int),
            before.nodes@[z as int].left is None || before.nodes@[z as int].right is None,
            forall|k: int|
                0 <= k < before.layout@.pos[z as int] ==> #[trigger] before.key(k) != before.nodes@[z as int].value,
            after.free@ == before.free@.push(z),
            after.layout@ == before.layout@.closed(before.layout@.pos[z as int]),
            after.root == rerooted(before.nodes@, before.root, z as int, Self::only_child(before, z)),
            after.nodes@ == match Self::only_child(before, z) {
                Some(c) => transplanted(before.nodes@, z as int, c as int),
                None => detached(before.nodes@, z as int),
            },
        ensures
            after.wf(),
            after@ == before@.remove(before.layout@.pos[z as int]),
            after.shape() == before.shape().without(before.nodes@[z as int].value),
    {
        before.lemma_wf_around(z as int);
        assert(after.nodes@.len() == before.nodes@.len());
        assert(Self::spliced(before, after, z));
        Self::lemma_splice_wf(before, after, z);
        Self::lemma_splice_shape(before, after, z);
    }
}

} // verus!
