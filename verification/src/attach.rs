//! Hanging a new leaf below a node: the proof that the tree stays well
//! formed and gains exactly that leaf.

use vstd::prelude::*;
use crate::inorder::{inserted, lemma_insertion_point_is};
use crate::links::{with_left, with_right};
use crate::node::Node;
use crate::shape::Shape;
use crate::total_order::TotalOrder;
use crate::tree::{Layout, Tree};

verus! {

impl Layout {
    /// The layout after slot `idx` entered the listing at place `q`. Places
    /// from `q` on move up by one, and so do the subtree bounds from `edge`
    /// on; the new node spans its own place only.
    pub(crate) open spec fn opened(self, q: int, idx: int, edge: int) -> Layout {
        Layout {
            order: self.order.insert(q, idx as usize),
            pos: Seq::new(
                self.pos.len(),
                |i: int|
                    if i == idx {
                        q
                    } else if self.pos[i] >= q {
                        self.pos[i] + 1
                    } else {
                        self.pos[i]
                    },
            ),
            lo: Seq::new(
                self.lo.len(),
                |i: int|
                    if i == idx {
                        q
                    } else if self.lo[i] >= edge {
                        self.lo[i] + 1
                    } else {
                        self.lo[i]
                    },
            ),
            hi: Seq::new(
                self.hi.len(),
                |i: int|
                    if i == idx {
                        q + 1
                    } else if self.hi[i] >= edge {
                        self.hi[i] + 1
                    } else {
                        self.hi[i]
                    },
            ),
        }
    }
}

impl<T: TotalOrder> Tree<T> {
    /// `value` is not smaller than anything before place `q` and smaller than
    /// everything from `q` on.
    pub(crate) open spec fn splits_at(self, value: T, q: int) -> bool {
        &&& forall|k: int| 0 <= k < q ==> !value.precedes(#[trigger] self.key(k))
        &&& forall|k: int| q <= k < self.layout@.order.len() ==> value.precedes(#[trigger] self.key(k))
    }

    /// `after` is `before` with the fresh leaf `leaf`, which holds `value`,
    /// hung below `at` at the end of the search path of `value`, and with the
    /// layout opened at the leaf's place.
    pub(crate) open spec fn attached(before: Self, after: Self, at: usize, leaf: usize, value: T, left: bool) -> bool {
        &&& before.wf()
        &&& !before.free@.contains(leaf)
        &&& before.splits_at(value, Self::leaf_place(before, at, left))
        &&& Self::attach_step(before, after, at, leaf, value, left)
    }

    /// The change of state that `attached` speaks of.
    pub(crate) open spec fn attach_step(
        before: Self,
        after: Self,
        at: usize,
        leaf: usize,
        value: T,
        left: bool,
    ) -> bool {
        let p = before.layout@.pos[at as int];
        &&& before.wf_lengths()
        &&& before.live(at as int)
        &&& before.wf_node(at as int)
        &&& leaf < before.nodes@.len()
        &&& !before.live(leaf as int)
        &&& before.nodes@[leaf as int] == (Node { value, right: None, left: None, parent: Some(at) })
        &&& after.root == before.root
        &&& after.free == before.free
        &&& after.nodes@.len() == before.nodes@.len()
        &&& if left {
            &&& before.nodes@[at as int].left is None
            &&& after.nodes@ == with_left(before.nodes@, at as int, Some(leaf))
            &&& after.layout@ == before.layout@.opened(p, leaf as int, p + 1)
        } else {
            &&& before.nodes@[at as int].right is None
            &&& after.nodes@ == with_right(before.nodes@, at as int, Some(leaf))
            &&& after.layout@ == before.layout@.opened(p + 1, leaf as int, p + 1)
        }
    }

    /// The place of the leaf that `attached` speaks of.
    pub(crate) open spec fn leaf_place(before: Self, at: usize, left: bool) -> int {
        if left {
            before.layout@.pos[at as int]
        } else {
            before.layout@.pos[at as int] + 1
        }
    }

    /// After attaching, the listing is the old one with `value` at the leaf's
    /// place.
    pub(crate) proof fn lemma_attach_keys(before: Self, after: Self, at: usize, leaf: usize, value: T, left: bool)
        requires
            Self::attached(before, after, at, leaf, value, left),
        ensures
            after.layout@.order.len() == before.layout@.order.len() + 1,
            0 <= Self::leaf_place(before, at, left) <= before.layout@.order.len(),
            forall|k: int|
                0 <= k < after.layout@.order.len() ==> #[trigger] after.key(k) == (if k < Self::leaf_place(
                    before,
                    at,
                    left,
                ) {
                    before.key(k)
                } else if k == Self::leaf_place(before, at, left) {
                    value
                } else {
                    before.key(k - 1)
                }),
            after@ == inserted(before@, value),
            after.wf_sorted(),
    {
        let l = before.layout@;
        let m = after.layout@;
        let q = Self::leaf_place(before, at, left);
        assert forall|k: int| 0 <= k < m.order.len() implies #[trigger] after.key(k) == (if k < q {
            before.key(k)
        } else if k == q {
            value
        } else {
            before.key(k - 1)
        }) by {
            if k < q {
                assert(l.order[k] < before.nodes@.len());
            } else if k > q {
                assert(l.order[k - 1] < before.nodes@.len());
            }
        }
        assert(after@ =~= before@.insert(q, value));
        lemma_insertion_point_is(before@, value, q);
        assert forall|j: int, k: int| 0 <= j < k < m.order.len() implies !(#[trigger] after.key(k)).precedes(
            #[trigger] after.key(j),
        ) by {
            if k == q {
                assert(!value.precedes(before.key(j)));
            } else if j == q {
                assert(value.precedes(before.key(k - 1)));
                if before.key(k - 1).precedes(value) {
                    T::lemma_transitive(value, before.key(k - 1), value);
                    T::lemma_irreflexive(value);
                }
            } else {
                let j0 = if j < q { j } else { j - 1 };
                let k0 = if k < q { k } else { k - 1 };
                assert(!before.key(k0).precedes(before.key(j0)));
            }
        }
    }

    /// After attaching, the nodes of the tree are the old ones and the leaf.
    pub(crate) proof fn lemma_attach_live(before: Self, after: Self, at: usize, leaf: usize, value: T, left: bool)
        requires
            Self::attached(before, after, at, leaf, value, left),
        ensures
            after.wf_layout(),
            after.wf_root(),
            after.wf_free(),
            after.live(leaf as int),
            forall|i: int| before.live(i) ==> #[trigger] after.live(i),
            forall|i: int| #[trigger] after.live(i) && i != leaf ==> before.live(i),
    {
        let l = before.layout@;
        let m = after.layout@;
        let q = Self::leaf_place(before, at, left);
        assert forall|k: int| 0 <= k < m.order.len() implies (#[trigger] m.order[k]) < after.nodes@.len()
            && m.pos[m.order[k] as int] == k by {
            if k < q {
                assert(l.order[k] < before.nodes@.len());
            } else if k > q {
                assert(l.order[k - 1] < before.nodes@.len());
            }
        }
        assert forall|i: int| before.live(i) implies #[trigger] after.live(i) by {}
        assert forall|i: int| #[trigger] after.live(i) && i != leaf implies before.live(i) by {
            let p = m.pos[i];
            if l.pos[i] >= q {
                assert(m.order[p] == l.order[p - 1]);
            } else {
                assert(m.order[p] == l.order[p]);
            }
        }
        assert(after.wf_root()) by {
            let r = before.root->0 as int;
            assert(before.live(r));
            assert(before.wf_node(r));
        }
        assert forall|k: int| 0 <= k < after.free@.len() implies (#[trigger] after.free@[k]) < after.nodes@.len()
            && !after.listed(after.free@[k] as int) by {
            let f = before.free@[k] as int;
            assert(!before.listed(f));
            assert(f != leaf);
            if after.live(f) {
                assert(before.live(f));
            }
        }
    }

    /// After attaching, the span of each old node is still in order.
    pub(crate) proof fn lemma_attach_span(
        before: Self,
        after: Self,
        at: usize,
        leaf: usize,
        value: T,
        left: bool,
        i: int,
    )
        requires
            Self::attach_step(before, after, at, leaf, value, left),
            before.live(i),
            before.wf_span(i),
        ensures
            after.wf_span(i),
            after.listed(i),
            after.nodes@[i].value == before.nodes@[i].value,
            after.nodes@[i].parent == before.nodes@[i].parent,
            i != at ==> after.nodes@[i] == before.nodes@[i],
    {
        let l = before.layout@;
        let m = after.layout@;
        assert(m.order[m.pos[i]] == l.order[l.pos[i]]);
    }

    /// After attaching, the links of each old node are still in order.
    pub(crate) proof fn lemma_attach_links(
        before: Self,
        after: Self,
        at: usize,
        leaf: usize,
        value: T,
        left: bool,
        i: int,
    )
        requires
            Self::attach_step(before, after, at, leaf, value, left),
            before.wf_around(i),
        ensures
            after.wf_links(i),
    {
        let a = before.nodes@[i];
        Self::lemma_attach_span(before, after, at, leaf, value, left, i);
        assert(after.wf_left(i)) by {
            if a.left is Some {
                Self::lemma_attach_span(before, after, at, leaf, value, left, a.left->0 as int);
            }
        }
        assert(after.wf_right(i)) by {
            if a.right is Some {
                Self::lemma_attach_span(before, after, at, leaf, value, left, a.right->0 as int);
            }
        }
        assert(after.wf_up(i)) by {
            if a.parent is Some {
                Self::lemma_attach_span(before, after, at, leaf, value, left, a.parent->0 as int);
            }
        }
    }

    /// After attaching, the links of the leaf are in order.
    pub(crate) proof fn lemma_attach_leaf(before: Self, after: Self, at: usize, leaf: usize, value: T, left: bool)
        requires
            Self::attach_step(before, after, at, leaf, value, left),
        ensures
            after.wf_node(leaf as int),
    {
        Self::lemma_attach_span(before, after, at, leaf, value, left, at as int);
    }

    /// Hanging a fresh leaf at the end of the search path of its value, and
    /// opening the layout at its place, gives a well-formed tree whose
    /// listing gained the value.
    pub(crate) proof fn lemma_attach(before: Self, after: Self, at: usize, leaf: usize, value: T, left: bool)
        requires
            Self::attached(before, after, at, leaf, value, left),
        ensures
            after.wf(),
            after@ == inserted(before@, value),
    {
        let l = before.layout@;
        let m = after.layout@;
        let q = Self::leaf_place(before, at, left);
        Self::lemma_attach_keys(before, after, at, leaf, value, left);
        Self::lemma_attach_live(before, after, at, leaf, value, left);
        Self::lemma_attach_leaf(before, after, at, leaf, value, left);
        assert forall|i: int| #[trigger] after.live(i) implies after.wf_node(i) by {
            if i != leaf {
                before.lemma_wf_around(i);
                Self::lemma_attach_links(before, after, at, leaf, value, left, i);
                let n = before.nodes@[i];
                assert(n.value == before.key(l.pos[i]));
                if after.nodes@[i].left is Some {
                    let k = m.pos[i] - 1;
                    if k == q {
                        assert(after.key(k) == value);
                        assert(value.precedes(before.key(l.pos[i])));
                    } else {
                        assert(after.key(k) == before.key(l.pos[i] - 1));
                    }
                }
            }
        }
    }

    /// After attaching, a subtree that does not hold the node `at` has the
    /// shape it had.
    pub(crate) proof fn lemma_attach_shape_kept(
        before: Self,
        after: Self,
        at: usize,
        leaf: usize,
        value: T,
        left: bool,
        i: int,
    )
        requires
            Self::attached(before, after, at, leaf, value, left),
            after.wf(),
            before.live(i),
            !(before.layout@.lo[i] <= before.layout@.pos[at as int] < before.layout@.hi[i]),
        ensures
            after.shape_of(i) == before.shape_of(i),
    {
        assert forall|j: int| #[trigger]
            before.live(j) && before.layout@.lo[i] <= before.layout@.pos[j] < before.layout@.hi[i] implies {
            &&& after.live(j)
            &&& after.nodes@[j].value == before.nodes@[j].value
            &&& after.nodes@[j].left == before.nodes@[j].left
            &&& after.nodes@[j].right == before.nodes@[j].right
        } by {
            assert(before.wf_node(j));
            Self::lemma_attach_span(before, after, at, leaf, value, left, j);
        }
        before.lemma_shape_same(after, i);
    }

    /// After attaching, a subtree that holds the node `at` has the shape it
    /// had, with the value added.
    pub(crate) proof fn lemma_attach_shape_grown(
        before: Self,
        after: Self,
        at: usize,
        leaf: usize,
        value: T,
        left: bool,
        i: int,
    )
        requires
            Self::attached(before, after, at, leaf, value, left),
            after.wf(),
            before.live(i),
            before.layout@.lo[i] <= before.layout@.pos[at as int] < before.layout@.hi[i],
        ensures
            after.shape_of(i) == before.shape_of(i).with(value),
        decreases before.layout@.hi[i] - before.layout@.lo[i],
    {
        let l = before.layout@;
        let n = before.nodes@[i];
        let q = Self::leaf_place(before, at, left);
        before.lemma_wf_around(i);
        Self::lemma_attach_span(before, after, at, leaf, value, left, i);
        assert(after.live(i));
        after.lemma_wf_around(i);
        assert(n.value == before.key(l.pos[i]));
        before.lemma_shape_unfold(i);
        after.lemma_shape_unfold(i);
        let a = before.shape_below(n.left);
        let b = before.shape_below(n.right);
        assert(before.shape_of(i) == Shape::Fork(Box::new(a), n.value, Box::new(b)));
        let m = after.nodes@[i];
        if i == at {
            Self::lemma_attach_live(before, after, at, leaf, value, left);
            after.lemma_wf_around(leaf as int);
            after.lemma_shape_unfold(leaf as int);
            assert(after.shape_of(leaf as int) == Shape::leaf(value));
            if left {
                assert(value.precedes(n.value));
                assert(m.right == n.right);
                if n.right is Some {
                    Self::lemma_attach_shape_kept(before, after, at, leaf, value, left, n.right->0 as int);
                }
                assert(after.shape_below(m.right) == b);
                assert(a == Shape::<T>::Empty);
                assert(a.with(value) == Shape::leaf(value));
                assert(after.shape_below(m.left) == a.with(value));
            } else {
                assert(!value.precedes(n.value));
                assert(m.left == n.left);
                if n.left is Some {
                    Self::lemma_attach_shape_kept(before, after, at, leaf, value, left, n.left->0 as int);
                }
                assert(after.shape_below(m.left) == a);
                assert(b == Shape::<T>::Empty);
                assert(b.with(value) == Shape::leaf(value));
                assert(after.shape_below(m.right) == b.with(value));
            }
        } else if l.pos[at as int] < l.pos[i] {
            assert(m == n);
            assert(value.precedes(n.value));
            Self::lemma_attach_shape_grown(before, after, at, leaf, value, left, n.left->0 as int);
            if n.right is Some {
                Self::lemma_attach_shape_kept(before, after, at, leaf, value, left, n.right->0 as int);
            }
            assert(after.shape_below(m.left) == a.with(value));
            assert(after.shape_below(m.right) == b);
        } else {
            assert(m == n);
            assert(!value.precedes(n.value));
            Self::lemma_attach_shape_grown(before, after, at, leaf, value, left, n.right->0 as int);
            if n.left is Some {
                Self::lemma_attach_shape_kept(before, after, at, leaf, value, left, n.left->0 as int);
            }
            assert(after.shape_below(m.left) == a);
            assert(after.shape_below(m.right) == b.with(value));
        }
    }
}

} // verus!
