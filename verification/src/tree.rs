//! The tree, its abstract view and its well-formedness.

use vstd::prelude::*;
use crate::node::Node;
use crate::shape::Shape;
use crate::total_order::TotalOrder;

verus! {

/// Where each arena slot stands in the in-order listing of the tree.
///
/// `order` lists the slots of the tree's nodes in in-order. For a node in slot
/// `i`, `pos[i]` is its place in `order`, and its subtree is exactly the run
/// `order[lo[i] .. hi[i]]`.
pub(crate) struct Layout {
    pub(crate) order: Seq<usize>,
    pub(crate) pos: Seq<int>,
    pub(crate) lo: Seq<int>,
    pub(crate) hi: Seq<int>,
}

/// A binary search tree over an arena of nodes.
///
/// Links are arena indices. Slots that left the tree are kept in `free` and
/// are used again by later insertions.
pub struct Tree<T: TotalOrder> {
    pub(crate) nodes: Vec<Node<T>>,
    pub(crate) root: Option<usize>,
    pub(crate) free: Vec<usize>,
    pub(crate) layout: Ghost<Layout>,
}

impl<T: TotalOrder> View for Tree<T> {
    type V = Seq<T>;

    /// The values of the tree in in-order.
    open(crate) spec fn view(&self) -> Seq<T> {
        Seq::new(self.layout@.order.len(), |k: int| self.key(k))
    }
}

impl<T: TotalOrder> Tree<T> {
    /// The value at place `k` of the in-order listing.
    pub(crate) open spec fn key(self, k: int) -> T {
        self.nodes@[self.layout@.order[k] as int].value
    }

    /// Slot `i` holds a node of the tree.
    pub(crate) open spec fn live(self, i: int) -> bool {
        self.listed(i)
    }

    /// Same as `live`, unfolded wherever it is used.
    #[verifier::inline]
    pub(crate) open spec fn listed(self, i: int) -> bool {
        &&& 0 <= i < self.nodes@.len()
        &&& 0 <= self.layout@.pos[i] < self.layout@.order.len()
        &&& self.layout@.order[self.layout@.pos[i]] == i
    }

    /// The ghost sequences cover the arena.
    pub(crate) open spec fn wf_lengths(self) -> bool {
        let l = self.layout@;
        &&& self.nodes@.len() <= usize::MAX
        &&& l.pos.len() == self.nodes@.len()
        &&& l.lo.len() == self.nodes@.len()
        &&& l.hi.len() == self.nodes@.len()
    }

    /// The ghost sequences cover the arena, and `pos` inverts `order`.
    pub(crate) open spec fn wf_layout(self) -> bool {
        let l = self.layout@;
        &&& self.wf_lengths()
        &&& forall|k: int|
            0 <= k < l.order.len() ==> (#[trigger] l.order[k]) < self.nodes@.len() && l.pos[l.order[k] as int] == k
    }

    /// The root spans the whole listing and has no parent.
    pub(crate) open spec fn wf_root(self) -> bool {
        let l = self.layout@;
        match self.root {
            None => l.order.len() == 0,
            Some(r) => {
                &&& self.listed(r as int)
                &&& l.lo[r as int] == 0
                &&& l.hi[r as int] == l.order.len()
                &&& self.nodes@[r as int].parent is None
            },
        }
    }

    /// The subtree of node `i` is a run of the listing that holds its place.
    pub(crate) open spec fn wf_span(self, i: int) -> bool {
        let l = self.layout@;
        0 <= l.lo[i] <= l.pos[i] < l.hi[i] <= l.order.len()
    }

    /// The left child of node `i`, if any, names `i` as parent and spans what
    /// lies before `i` in the subtree of `i`.
    pub(crate) open spec fn wf_left(self, i: int) -> bool {
        let l = self.layout@;
        match self.nodes@[i].left {
            None => l.lo[i] == l.pos[i],
            Some(c) => {
                &&& self.listed(c as int)
                &&& self.nodes@[c as int].parent == Some(i as usize)
                &&& l.lo[c as int] == l.lo[i]
                &&& l.hi[c as int] == l.pos[i]
                &&& l.lo[i] < l.pos[i]
            },
        }
    }

    /// The right child of node `i`, if any, names `i` as parent and spans
    /// what lies behind `i` in the subtree of `i`.
    pub(crate) open spec fn wf_right(self, i: int) -> bool {
        let l = self.layout@;
        match self.nodes@[i].right {
            None => l.hi[i] == l.pos[i] + 1,
            Some(c) => {
                &&& self.listed(c as int)
                &&& self.nodes@[c as int].parent == Some(i as usize)
                &&& l.lo[c as int] == l.pos[i] + 1
                &&& l.hi[c as int] == l.hi[i]
                &&& l.pos[i] + 1 < l.hi[i]
            },
        }
    }

    /// The parent of node `i` names `i` as a child; a node without parent is
    /// the root.
    pub(crate) open spec fn wf_up(self, i: int) -> bool {
        match self.nodes@[i].parent {
            None => self.root == Some(i as usize),
            Some(p) => {
                &&& self.listed(p as int)
                &&& (self.nodes@[p as int].left == Some(i as usize) || self.nodes@[p as int].right == Some(
                    i as usize,
                ))
            },
        }
    }

    /// The links of node `i` agree with the layout, and with the links of its
    /// neighbours.
    pub(crate) open spec fn wf_links(self, i: int) -> bool {
        &&& self.wf_span(i)
        &&& self.wf_left(i)
        &&& self.wf_right(i)
        &&& self.wf_up(i)
    }

    /// Equal values went right: what comes just before node `i` in its left
    /// subtree is strictly smaller.
    pub(crate) open spec fn wf_strict(self, i: int) -> bool {
        self.nodes@[i].left is Some ==> self.key(self.layout@.pos[i] - 1).precedes(self.nodes@[i].value)
    }

    /// Node `i` is in order: in its links and in its value.
    pub(crate) open spec fn wf_node(self, i: int) -> bool {
        self.wf_links(i) && self.wf_strict(i)
    }

    /// The in-order listing never descends.
    pub(crate) open spec fn wf_sorted(self) -> bool {
        forall|j: int, k: int|
            0 <= j < k < self.layout@.order.len() ==> !(#[trigger] self.key(k)).precedes(#[trigger] self.key(j))
    }

    /// The free slots are slots of the arena outside the tree, each listed once.
    pub(crate) open spec fn wf_free(self) -> bool {
        &&& forall|k: int|
            0 <= k < self.free@.len() ==> (#[trigger] self.free@[k]) < self.nodes@.len() && !self.listed(
                self.free@[k] as int,
            )
        &&& forall|j: int, k: int|
            0 <= j < k < self.free@.len() ==> #[trigger] self.free@[j] != #[trigger] self.free@[k]
    }

    /// The tree is well formed: a binary search tree whose parent links mirror
    /// its child links.
    pub open(crate) spec fn wf(self) -> bool {
        &&& self.wf_layout()
        &&& self.wf_root()
        &&& self.wf_sorted()
        &&& self.wf_free()
        &&& forall|i: int| #[trigger] self.live(i) ==> self.wf_node(i)
    }

    /// The links of `i` are in order in `self`, and so are those of the nodes
    /// that `i` names.
    pub(crate) open spec fn wf_around(self, i: int) -> bool {
        let n = self.nodes@[i];
        &&& self.wf_lengths()
        &&& self.live(i)
        &&& self.wf_node(i)
        &&& n.left is Some ==> self.live(n.left->0 as int) && self.wf_node(n.left->0 as int)
        &&& n.right is Some ==> self.live(n.right->0 as int) && self.wf_node(n.right->0 as int)
        &&& n.parent is Some ==> self.live(n.parent->0 as int) && self.wf_node(n.parent->0 as int)
    }

    /// In a well-formed tree the neighbours of a node are nodes in order.
    pub(crate) proof fn lemma_wf_around(self, i: int)
        requires
            self.wf(),
            self.live(i),
        ensures
            self.wf_around(i),
    {
        let n = self.nodes@[i];
        assert(self.wf_node(i));
        if n.left is Some {
            assert(self.live(n.left->0 as int));
        }
        if n.right is Some {
            assert(self.live(n.right->0 as int));
        }
        if n.parent is Some {
            assert(self.live(n.parent->0 as int));
        }
    }

    /// Slot `i` holds a node of the tree.
    pub open(crate) spec fn is_node(self, i: usize) -> bool {
        self.live(i as int)
    }

    /// The slot of the root, if the tree is not empty.
    pub open(crate) spec fn root_of(self) -> Option<usize> {
        self.root
    }

    /// The value that the node in slot `i` holds.
    pub open(crate) spec fn value_of(self, i: usize) -> T {
        self.nodes@[i as int].value
    }

    /// The slot of the left child of the node in slot `i`.
    pub open(crate) spec fn left_of(self, i: usize) -> Option<usize> {
        self.nodes@[i as int].left
    }

    /// The slot of the right child of the node in slot `i`.
    pub open(crate) spec fn right_of(self, i: usize) -> Option<usize> {
        self.nodes@[i as int].right
    }

    /// The slot of the parent of the node in slot `i`.
    pub open(crate) spec fn parent_of(self, i: usize) -> Option<usize> {
        self.nodes@[i as int].parent
    }

    /// Parent links mirror child links: a child of a node is a node that
    /// names it as parent, the parent of a node is a node that names it as a
    /// child, and the one node without parent is the root.
    pub open spec fn parent_consistent(self) -> bool {
        &&& forall|n: usize|
            #[trigger] self.is_node(n) ==> match self.left_of(n) {
                Some(c) => self.is_node(c) && self.parent_of(c) == Some(n),
                None => true,
            }
        &&& forall|n: usize|
            #[trigger] self.is_node(n) ==> match self.right_of(n) {
                Some(c) => self.is_node(c) && self.parent_of(c) == Some(n),
                None => true,
            }
        &&& forall|c: usize|
            #[trigger] self.is_node(c) ==> match self.parent_of(c) {
                Some(p) => self.is_node(p) && (self.left_of(p) == Some(c) || self.right_of(p) == Some(c)),
                None => self.root_of() == Some(c),
            }
        &&& match self.root_of() {
            Some(r) => self.is_node(r) && self.parent_of(r) is None,
            None => forall|c: usize| !self.is_node(c),
        }
    }

    /// A tree with one node.
    pub fn new(value: T) -> (tree: Self)
        ensures
            tree.wf(),
            tree.shape() == Shape::leaf(value),
            tree@ == seq![value],
            tree.parent_consistent(),
    {
        let mut nodes: Vec<Node<T>> = Vec::new();
        nodes.push(Node::new(value));
        let tree = Tree {
            nodes,
            root: Some(0),
            free: Vec::new(),
            layout: Ghost(Layout { order: seq![0usize], pos: seq![0int], lo: seq![0int], hi: seq![1int] }),
        };
        assert(tree@ =~= seq![value]);
        assert(tree.parent_consistent()) by {
            assert(tree.live(0));
        }
        proof {
            assert(tree.live(0));
            tree.lemma_shape_unfold(0);
        }
        tree
    }
}

} // verus!
