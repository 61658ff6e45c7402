//! Taking out a node that has two children: the proof that the tree stays
//! well formed and loses exactly that node, when its in-order follower takes
//! its place.

use vstd::prelude::*;
use crate::links::{detached, rerooted, right_child_of, transplanted, with_left, with_parent, with_right};
use crate::node::Node;
use crate::total_order::{lemma_at_most_then_less, lemma_less_then_at_most, TotalOrder};
use crate::tree::{Layout, Tree};

verus! {

impl Layout {
    /// The layout after the node at place `p`, in slot `z`, left the listing
    /// and the node behind it, in slot `y`, took over its span. The former
    /// place of `y` is closed.
    pub(crate) open spec fn handed_over(self, p: int, z: int, y: int) -> Layout {
        Layout {
            order: self.order.remove(p),
            pos: self.closed(p).pos,
            lo: Seq::new(
                self.lo.len(),
                |i: int|
                    if i == y {
                        self.lo[z]
                    } else {
                        self.closed(p + 1).lo[i]
                    },
            ),
            hi: Seq::new(
                self.hi.len(),
                |i: int|
                    if i == y {
                        self.hi[z] - 1
                    } else {
                        self.closed(p + 1).hi[i]
                    },
            ),
        }
    }
}

impl<T: TotalOrder> Tree<T> {
    /// What slot `x` holds after node `z`, which had two children, left and
    /// its in-order follower `y` took its place: `y` has the parent and the
    /// children of `z`, these name `y` in place of `z`, and where `y` was not
    /// the right child of `z`, the right child of `y` hangs where `y` hung.
    pub(crate) open spec fn replace_node(before: Self, z: usize, y: usize, x: int) -> Node<T> {
        let n = before.nodes@[z as int];
        let ny = before.nodes@[y as int];
        let a = before.nodes@[x];
        let direct = n.right == Some(y);
        let link = Some(x as usize);
        let a1 = if n.left == link || (!direct && n.right == link) {
            Node { parent: Some(y), ..a }
        } else if !direct && ny.right == link {
            Node { parent: ny.parent, ..a }
        } else {
            a
        };
        let a2 = if !direct && ny.parent == link {
            Node { left: ny.right, ..a1 }
        } else {
            a1
        };
        if x == y {
            Node {
                value: a.value,
                left: n.left,
                right: if direct {
                    a.right
                } else {
                    n.right
                },
                parent: n.parent,
            }
        } else if n.parent == link {
            if a.right == Some(z) {
                Node { right: Some(y), ..a2 }
            } else {
                Node { left: Some(y), ..a2 }
            }
        } else {
            a2
        }
    }

    /// The change of state when node `z`, which has two children, leaves and
    /// its in-order follower `y` takes its place.
    pub(crate) open spec fn replace_step(before: Self, after: Self, z: usize, y: usize) -> bool {
        let l = before.layout@;
        &&& Self::replace_ready(before, z, y)
        &&& after.free@ == before.free@.push(z)
        &&& after.nodes@.len() == before.nodes@.len()
        &&& after.layout@ == l.handed_over(l.pos[z as int], z as int, y as int)
        &&& after.root == rerooted(before.nodes@, before.root, z as int, Some(y))
        &&& forall|x: int|
            0 <= x < before.nodes@.len() && x != z ==> #[trigger] after.nodes@[x] == Self::replace_node(
                before,
                z,
                y,
                x,
            )
    }

    /// `replace_step` on a well-formed tree.
    pub(crate) open spec fn replaced(before: Self, after: Self, z: usize, y: usize) -> bool {
        before.wf() && Self::replace_step(before, after, z, y)
    }

    /// After the replacement, the listing is the old one without the place
    /// of `z`.
    pub(crate) proof fn lemma_replace_keys(before: Self, after: Self, z: usize, y: usize)
        requires
            Self::replaced(before, after, z, y),
        ensures
            after.layout@.order.len() == before.layout@.order.len() - 1,
            forall|k: int|
                0 <= k < after.layout@.order.len() ==> #[trigger] after.key(k) == before.key(
                    if k < before.layout@.pos[z as int] {
                        k
                    } else {
                        k + 1
                    },
                ),
            after@ == before@.remove(before.layout@.pos[z as int]),
            after.wf_sorted(),
    {
        let l = before.layout@;
        let m = after.layout@;
        let p = l.pos[z as int];
        assert forall|k: int| 0 <= k < m.order.len() implies #[trigger] after.key(k) == before.key(
            if k < p {
                k
            } else {
                k + 1
            },
        ) by {
            let k0 = if k < p { k } else { k + 1 };
            let x = l.order[k0] as int;
            assert(x < before.nodes@.len());
            assert(l.pos[x] == k0);
            assert(after.nodes@[x] == Self::replace_node(before, z, y, x));
        }
        assert(after@ =~= before@.remove(p));
        assert forall|j: int, k: int| 0 <= j < k < m.order.len() implies !(#[trigger] after.key(k)).precedes(
            #[trigger] after.key(j),
        ) by {
            let j0 = if j < p { j } else { j + 1 };
            let k0 = if k < p { k } else { k + 1 };
            assert(!before.key(k0).precedes(before.key(j0)));
        }
    }

    /// After the replacement, the nodes of the tree are the old ones without
    /// `z`.
    pub(crate) proof fn lemma_replace_live(before: Self, after: Self, z: usize, y: usize)
        requires
            Self::replaced(before, after, z, y),
        ensures
            after.wf_layout(),
            after.wf_free(),
            !after.live(z as int),
            forall|i: int| before.live(i) && i != z ==> #[trigger] after.live(i),
            forall|i: int| #[trigger] after.live(i) ==> before.live(i) && i != z,
    {
        let l = before.layout@;
        let m = after.layout@;
        let p = l.pos[z as int];
        assert forall|k: int| 0 <= k < m.order.len() implies (#[trigger] m.order[k]) < after.nodes@.len()
            && m.pos[m.order[k] as int] == k by {
            let k0 = if k < p { k } else { k + 1 };
            assert(l.order[k0] < before.nodes@.len());
        }
        assert forall|i: int| before.live(i) && i != z implies #[trigger] after.live(i) by {}
        assert forall|i: int| #[trigger] after.live(i) implies before.live(i) && i != z by {
            let k = m.pos[i];
            let k0 = if k < p { k } else { k + 1 };
            assert(m.order[k] == l.order[k0]);
        }
        assert forall|k: int| 0 <= k < after.free@.len() implies (#[trigger] after.free@[k]) < after.nodes@.len()
            && !after.listed(after.free@[k] as int) by {
            let f = after.free@[k] as int;
            if k < before.free@.len() {
                assert(before.free@[k] == f);
                assert(!before.listed(f));
            }
            if after.live(f) {
                assert(before.live(f));
            }
        }
        assert forall|j: int, k: int| 0 <= j < k < after.free@.len() implies #[trigger] after.free@[j]
            != #[trigger] after.free@[k] by {
            if k == before.free@.len() {
                assert(before.free@[j] == after.free@[j]);
                assert(!before.listed(before.free@[j] as int));
            } else {
                assert(before.free@[j] != before.free@[k]);
            }
        }
    }

    /// After the replacement, the span of each remaining node is in order.
    pub(crate) proof fn lemma_replace_span(before: Self, after: Self, z: usize, y: usize, i: int)
        requires
            Self::replace_step(before, after, z, y),
            before.live(i),
            before.wf_span(i),
            i != z,
        ensures
            after.wf_span(i),
            after.listed(i),
            after.nodes@[i] == Self::replace_node(before, z, y, i),
    {
        let l = before.layout@;
        let m = after.layout@;
        let p = l.pos[z as int];
        assert(l.pos[i] != p);
        assert(m.order[m.pos[i]] == l.order[l.pos[i]]);
    }

    /// Where the nodes around `z` and `y` stand before the replacement.
    pub(crate) open spec fn replace_cast(before: Self, z: usize, y: usize) -> bool {
        let l = before.layout@;
        let n = before.nodes@[z as int];
        let ny = before.nodes@[y as int];
        let p = l.pos[z as int];
        let zl = n.left->0 as int;
        let zr = n.right->0 as int;
        &&& l.pos[zl] < p
        &&& l.hi[zl] == p
        &&& l.lo[zl] == l.lo[z as int]
        &&& l.lo[zr] == p + 1
        &&& l.hi[zr] == l.hi[z as int]
        &&& l.lo[y as int] == p + 1
        &&& l.hi[y as int] <= l.hi[z as int]
        &&& p + 1 < l.hi[z as int]
        &&& match n.parent {
            None => true,
            Some(c) => l.pos[c as int] < l.lo[z as int] || l.hi[z as int] <= l.pos[c as int],
        }
        &&& match ny.right {
            None => l.hi[y as int] == p + 2,
            Some(e) => p + 1 < l.lo[e as int] == p + 2 <= l.pos[e as int] < l.hi[e as int] == l.hi[y as int],
        }
        &&& ny.parent is Some
        &&& if n.right == Some(y) {
            ny.parent == Some(z)
        } else {
            let yp = ny.parent->0 as int;
            &&& before.nodes@[yp].left == Some(y)
            &&& l.pos[yp] == l.hi[y as int]
            &&& l.lo[yp] == p + 1
            &&& p + 1 < l.pos[zr]
            &&& yp != z
        }
    }

    /// What `replace_cast` is derived from.
    pub(crate) open spec fn replace_ready(before: Self, z: usize, y: usize) -> bool {
        let n = before.nodes@[z as int];
        let l = before.layout@;
        &&& before.wf_around(z as int)
        &&& before.wf_around(y as int)
        &&& n.left is Some
        &&& n.right is Some
        &&& before.nodes@[y as int].left is None
        &&& before.nodes@[y as int].parent is Some
        &&& l.pos[y as int] == l.pos[z as int] + 1
        &&& l.hi[y as int] <= l.hi[z as int]
    }

    /// The nodes around `z` and `y` stand as `replace_cast` says.
    pub(crate) proof fn lemma_replace_cast(before: Self, z: usize, y: usize)
        requires
            Self::replace_ready(before, z, y),
        ensures
            Self::replace_cast(before, z, y),
    {
        let l = before.layout@;
        let n = before.nodes@[z as int];
        let ny = before.nodes@[y as int];
        let zr = n.right->0 as int;
        assert(before.wf_links(z as int));
        assert(before.wf_links(y as int));
        assert(before.wf_links(zr));
        let yp = ny.parent->0 as int;
        assert(before.wf_links(yp));
        if n.right == Some(y) {
        } else {
            assert(l.pos[zr] != l.pos[y as int]);
            if before.nodes@[yp].right == Some(y) {
                assert(l.pos[yp] == l.pos[z as int]);
            }
        }
    }

    /// After the replacement, the left link of each remaining node is in
    /// order.
    pub(crate) proof fn lemma_replace_left(before: Self, after: Self, z: usize, y: usize, i: int)
        requires
            Self::replace_step(before, after, z, y),
            before.wf_around(i),
            i != z,
        ensures
            after.wf_left(i),
    {
        Self::lemma_replace_cast(before, z, y);
        Self::lemma_replace_span(before, after, z, y, i);
        let a = before.nodes@[i];
        let b = after.nodes@[i];
        let n = before.nodes@[z as int];
        let ny = before.nodes@[y as int];
        if b.left is Some {
            let c = b.left->0 as int;
            if i == y {
                assert(c == n.left->0);
            } else if n.parent == Some(i as usize) && a.right != Some(z) {
                assert(c == y);
            } else if n.right != Some(y) && ny.parent == Some(i as usize) {
                assert(Some(c as usize) == ny.right);
            } else {
                assert(a.left == b.left);
                assert(c != z);
            }
            assert(before.live(c) && c != z && before.wf_span(c));
            Self::lemma_replace_span(before, after, z, y, c);
        }
    }

    /// After the replacement, the right link of each remaining node is in
    /// order.
    pub(crate) proof fn lemma_replace_right(before: Self, after: Self, z: usize, y: usize, i: int)
        requires
            Self::replace_step(before, after, z, y),
            before.wf_around(i),
            i != z,
        ensures
            after.wf_right(i),
    {
        Self::lemma_replace_cast(before, z, y);
        Self::lemma_replace_span(before, after, z, y, i);
        let a = before.nodes@[i];
        let b = after.nodes@[i];
        let n = before.nodes@[z as int];
        if b.right is Some {
            let c = b.right->0 as int;
            if i == y {
                if n.right == Some(y) {
                    assert(b.right == a.right);
                } else {
                    assert(b.right == n.right);
                }
            } else if n.parent == Some(i as usize) && a.right == Some(z) {
                assert(c == y);
            } else {
                assert(a.right == b.right);
                assert(c != z);
            }
            assert(before.live(c) && c != z && before.wf_span(c));
            Self::lemma_replace_span(before, after, z, y, c);
        }
    }

    /// After the replacement, the parent link of each remaining node is in
    /// order.
    pub(crate) proof fn lemma_replace_up(before: Self, after: Self, z: usize, y: usize, i: int)
        requires
            Self::replace_step(before, after, z, y),
            before.wf_around(i),
            i != z,
        ensures
            after.wf_up(i),
    {
        Self::lemma_replace_cast(before, z, y);
        Self::lemma_replace_span(before, after, z, y, i);
        let a = before.nodes@[i];
        let b = after.nodes@[i];
        let n = before.nodes@[z as int];
        let ny = before.nodes@[y as int];
        let link = Some(i as usize);
        if b.parent is Some {
            let c = b.parent->0 as int;
            if i == y {
                assert(b.parent == n.parent);
            } else if n.left == link || (n.right != Some(y) && n.right == link) {
                assert(c == y);
            } else if n.right != Some(y) && ny.right == link {
                assert(b.parent == ny.parent);
            } else {
                assert(b.parent == a.parent);
                assert(c != z);
            }
            assert(before.live(c) && c != z && before.wf_span(c));
            Self::lemma_replace_span(before, after, z, y, c);
        }
    }

    /// After the replacement, what comes just before a remaining node in its
    /// left subtree is still strictly smaller.
    pub(crate) proof fn lemma_replace_strict(before: Self, after: Self, z: usize, y: usize, i: int)
        requires
            Self::replaced(before, after, z, y),
            before.live(i),
            i != z,
            after.wf_left(i),
        ensures
            after.wf_strict(i),
    {
        let l = before.layout@;
        let m = after.layout@;
        let p = l.pos[z as int];
        Self::lemma_replace_keys(before, after, z, y);
        assert(before.wf_node(i));
        assert(before.wf_node(z as int));
        assert(after.nodes@[i] == Self::replace_node(before, z, y, i));
        let a = before.nodes@[i];
        let b = after.nodes@[i];
        assert(b.value == a.value);
        if b.left is Some {
            let k1 = m.pos[i] - 1;
            let k0 = if k1 < p { k1 } else { k1 + 1 };
            assert(after.key(k1) == before.key(k0));
            if i == y {
                // What came before `z` is smaller than `z`, which does not
                // exceed `y`.
                assert(k0 == p - 1);
                assert(before.key(p) == before.nodes@[z as int].value);
                assert(before.key(p + 1) == a.value);
                assert(!before.key(p + 1).precedes(before.key(p)));
                lemma_less_then_at_most(before.key(p - 1), before.key(p), a.value);
            } else {
                let k = l.pos[i] - 1;
                assert(a.left is Some);
                assert(k0 <= k);
                assert(!before.key(k).precedes(before.key(k0))) by {
                    if k0 == k {
                        T::lemma_irreflexive(before.key(k));
                    }
                }
                assert(before.key(k).precedes(a.value));
                lemma_at_most_then_less(before.key(k0), before.key(k), a.value);
            }
        }
    }

    /// Taking out a node with two children, and letting its in-order
    /// follower take its place, gives a well-formed tree whose listing lost
    /// the place of the node.
    pub(crate) proof fn lemma_replace(before: Self, after: Self, z: usize, y: usize)
        requires
            Self::replaced(before, after, z, y),
        ensures
            after.wf(),
            after@ == before@.remove(before.layout@.pos[z as int]),
    {
        Self::lemma_replace_keys(before, after, z, y);
        Self::lemma_replace_live(before, after, z, y);
        assert(after.wf_root()) by {
            let r = before.root->0 as int;
            before.lemma_wf_around(r);
            if r != z {
                Self::lemma_replace_span(before, after, z, y, r);
            } else {
                Self::lemma_replace_span(before, after, z, y, y as int);
            }
        }
        assert forall|i: int| #[trigger] after.live(i) implies after.wf_node(i) by {
            before.lemma_wf_around(i);
            Self::lemma_replace_span(before, after, z, y, i);
            Self::lemma_replace_left(before, after, z, y, i);
            Self::lemma_replace_right(before, after, z, y, i);
            Self::lemma_replace_up(before, after, z, y, i);
            Self::lemma_replace_strict(before, after, z, y, i);
        }
    }

    /// After the replacement, a subtree that holds neither `z` nor `y` has
    /// the shape it had.
    pub(crate) proof fn lemma_replace_shape_kept(before: Self, after: Self, z: usize, y: usize, i: int)
        requires
            Self::replaced(before, after, z, y),
            after.wf(),
            before.live(i),
            !(before.layout@.lo[i] <= before.layout@.pos[z as int] < before.layout@.hi[i]),
            !(before.layout@.lo[i] <= before.layout@.pos[y as int] < before.layout@.hi[i]),
        ensures
            after.shape_of(i) == before.shape_of(i),
    {
        let l = before.layout@;
        Self::lemma_replace_cast(before, z, y);
        assert forall|j: int| #[trigger] before.live(j) && l.lo[i] <= l.pos[j] < l.hi[i] implies before.intact(
            after,
            j,
        ) by {
            before.lemma_wf_around(j);
            before.lemma_nested(i, j);
            Self::lemma_replace_span(before, after, z, y, j);
        }
        before.lemma_shape_same(after, i);
    }

    /// After the replacement, where `y` was not the right child of `z`, each
    /// subtree that had `y` as its leftmost node has the shape it had without
    /// its leftmost node.
    pub(crate) proof fn lemma_replace_spine(before: Self, after: Self, z: usize, y: usize, i: int)
        requires
            Self::replaced(before, after, z, y),
            after.wf(),
            before.nodes@[z as int].right != Some(y),
            before.live(i),
            i != y,
            before.layout@.lo[i] == before.layout@.pos[y as int],
        ensures
            after.shape_of(i) == before.shape_of(i).without_least(),
            before.shape_of(i).least() == before.nodes@[y as int].value,
        decreases before.layout@.hi[i] - before.layout@.lo[i],
    {
        let l = before.layout@;
        let n = before.nodes@[i];
        let ny = before.nodes@[y as int];
        Self::lemma_replace_cast(before, z, y);
        before.lemma_wf_around(i);
        before.lemma_wf_around(y as int);
        Self::lemma_replace_span(before, after, z, y, i);
        assert(after.live(i));
        after.lemma_wf_around(i);
        before.lemma_shape_unfold(i);
        after.lemma_shape_unfold(i);
        let m = after.nodes@[i];
        assert(l.pos[i] != l.pos[y as int]);
        let c = n.left->0 as int;
        before.lemma_wf_around(c);
        before.lemma_shape_unfold(c);
        let a = before.shape_of(c);
        let b = before.shape_below(n.right);
        assert(m.right == n.right);
        if n.right is Some {
            Self::lemma_replace_shape_kept(before, after, z, y, n.right->0 as int);
        }
        assert(after.shape_below(m.right) == b);
        if c == y {
            assert(m.left == ny.right);
            if ny.right is Some {
                Self::lemma_replace_shape_kept(before, after, z, y, ny.right->0 as int);
            }
            assert(a.without_least() == before.shape_below(ny.right));
            assert(a.least() == ny.value);
            assert(after.shape_below(m.left) == a.without_least());
        } else {
            assert(m.left == n.left);
            Self::lemma_replace_spine(before, after, z, y, c);
        }
        assert(before.shape_of(i).least() == a.least());
    }

    /// Taking out a node with two children takes the first node that holds
    /// its value out of the shape, if the node is that first node.
    pub(crate) proof fn lemma_replace_shape(before: Self, after: Self, z: usize, y: usize)
        requires
            Self::replaced(before, after, z, y),
            after.wf(),
            forall|k: int|
                0 <= k < before.layout@.pos[z as int] ==> #[trigger] before.key(k) != before.nodes@[z as int].value,
        ensures
            after.shape() == before.shape().without(before.nodes@[z as int].value),
    {
        let l = before.layout@;
        let n = before.nodes@[z as int];
        let ny = before.nodes@[y as int];
        let zl = n.left->0 as int;
        let zr = n.right->0 as int;
        Self::lemma_replace_cast(before, z, y);
        Self::lemma_replace_live(before, after, z, y);
        before.lemma_wf_around(z as int);
        before.lemma_wf_around(y as int);
        let r = before.root->0 as int;
        assert(before.live(r));
        assert(before.wf_node(r));
        if n.right != Some(y) {
            before.lemma_chain(r, ny.parent->0 as int, z as int, y as int);
        }
        assert forall|j: int| #[trigger]
            before.live(j) && !(l.lo[z as int] <= l.pos[j] < l.hi[z as int]) implies {
            let a = before.nodes@[j];
            let b = after.nodes@[j];
            &&& after.live(j)
            &&& b.value == a.value
            &&& b.left == if a.left == Some(z) {
                Some(y)
            } else {
                a.left
            }
            &&& b.right == if a.right == Some(z) {
                Some(y)
            } else {
                a.right
            }
        } by {
            before.lemma_wf_around(j);
            Self::lemma_replace_span(before, after, z, y, j);
        }
        assert(before.hung(after, z as int, Some(y)));

        Self::lemma_replace_span(before, after, z, y, y as int);
        assert(after.live(y as int));
        after.lemma_wf_around(y as int);
        after.lemma_shape_unfold(y as int);
        before.lemma_shape_unfold(z as int);
        before.lemma_wf_around(zl);
        before.lemma_shape_unfold(zl);
        before.lemma_wf_around(zr);
        before.lemma_shape_unfold(zr);
        before.lemma_shape_unfold(y as int);
        Self::lemma_replace_shape_kept(before, after, z, y, zl);
        let m = after.nodes@[y as int];
        assert(m.left == n.left);
        if n.right == Some(y) {
            assert(m.right == ny.right);
            if ny.right is Some {
                Self::lemma_replace_shape_kept(before, after, z, y, ny.right->0 as int);
            }
        } else {
            assert(m.right == n.right);
            Self::lemma_replace_spine(before, after, z, y, zr);
        }
        assert(after.shape_of(y as int) == before.shape_of(z as int).without_root());
        before.lemma_hung(after, z as int, Some(y));
    }

    /// The nodes after the rewiring that lets `y` take the place of `z`,
    /// link by link: where `y` is not the right child of `z`, `y` is taken
    /// out and given the right subtree of `z`; then `y` is put where `z`
    /// hangs and given the left subtree of `z`.
    pub(crate) open spec fn rewired(nodes: Seq<Node<T>>, z: usize, y: usize) -> Seq<Node<T>> {
        let zl = nodes[z as int].left->0;
        let zr = nodes[z as int].right->0;
        let lifted = if right_child_of(nodes, y as int, z as int) {
            nodes
        } else {
            let cut = match nodes[y as int].right {
                Some(yr) => transplanted(nodes, y as int, yr as int),
                None => detached(nodes, y as int),
            };
            with_parent(with_right(cut, y as int, Some(zr)), zr as int, Some(y))
        };
        with_parent(with_left(transplanted(lifted, z as int, y as int), y as int, Some(zl)), zl as int, Some(y))
    }

    /// The rewiring leaves in every slot but that of `z` what `replace_node`
    /// says.
    pub(crate) proof fn lemma_rewired_slot(before: Self, after: Self, z: usize, y: usize, x: int)
        requires
            before.wf_around(z as int),
            before.wf_around(y as int),
            Self::replace_cast(before, z, y),
            before.nodes@[z as int].left is Some,
            before.nodes@[z as int].right is Some,
            before.nodes@[y as int].left is None,
            before.layout@.pos[y as int] == before.layout@.pos[z as int] + 1,
            0 <= x < before.nodes@.len(),
            x != z,
        ensures
            Self::rewired(before.nodes@, z, y).len() == before.nodes@.len(),
            Self::rewired(before.nodes@, z, y)[x] == Self::replace_node(before, z, y, x),
    {
    }

    /// The rewiring, with the layout handed over from `z` to `y`, is the
    /// replacement of `z` by `y`.
    pub(crate) proof fn lemma_rewired(before: Self, after: Self, z: usize, y: usize)
        requires
            before.wf(),
            Self::replace_ready(before, z, y),
            after.free@ == before.free@.push(z),
            after.layout@ == before.layout@.handed_over(before.layout@.pos[z as int], z as int, y as int),
            after.root == rerooted(before.nodes@, before.root, z as int, Some(y)),
            after.nodes@ == Self::rewired(before.nodes@, z, y),
        ensures
            Self::replaced(before, after, z, y),
    {
        Self::lemma_replace_cast(before, z, y);
        assert forall|x: int| 0 <= x < before.nodes@.len() && x != z implies #[trigger] after.nodes@[x]
            == Self::replace_node(before, z, y, x) by {
            Self::lemma_rewired_slot(before, after, z, y, x);
        }
        Self::lemma_rewired_slot(before, after, z, y, y as int);
    }
}

} // verus!
