//! What holds of every well-formed tree and of every insertion and deletion.

use vstd::prelude::*;
use crate::inorder::{inserted, insertion_point, lemma_insertion_point_bounds, lookup, sorted};
use crate::total_order::{lemma_at_most_twice, TotalOrder};
use crate::tree::Tree;

verus! {

/// The in-order listing of a well-formed tree never descends.
pub proof fn lemma_inorder_sorted<T: TotalOrder>(tree: Tree<T>)
    requires
        tree.wf(),
    ensures
        sorted(tree@),
{
    assert forall|j: int, k: int| 0 <= j < k < tree@.len() implies !tree@[k].precedes(tree@[j]) by {
        assert(!tree.key(k).precedes(tree.key(j)));
    }
}

/// The in-order listing of a well-formed tree is its shape read from left to
/// right.
pub proof fn lemma_view_is_inorder<T: TotalOrder>(tree: Tree<T>)
    requires
        tree.wf(),
    ensures
        tree@ == tree.shape().inorder(),
{
    if tree.root is Some {
        let r = tree.root->0 as int;
        assert(tree.live(r));
        tree.lemma_shape_inorder(r);
        assert(tree@.subrange(0, tree@.len() as int) =~= tree@);
    } else {
        assert(tree@ =~= Seq::<T>::empty());
    }
}

/// In a well-formed tree every child names its parent and every parent names
/// its child.
pub proof fn lemma_parent_consistent<T: TotalOrder>(tree: Tree<T>)
    requires
        tree.wf(),
    ensures
        tree.parent_consistent(),
{
    assert forall|n: usize| #[trigger] tree.is_node(n) implies match tree.left_of(n) {
        Some(c) => tree.is_node(c) && tree.parent_of(c) == Some(n),
        None => true,
    } by {
        assert(tree.live(n as int));
        assert(tree.wf_node(n as int));
    }
    assert forall|n: usize| #[trigger] tree.is_node(n) implies match tree.right_of(n) {
        Some(c) => tree.is_node(c) && tree.parent_of(c) == Some(n),
        None => true,
    } by {
        assert(tree.live(n as int));
        assert(tree.wf_node(n as int));
    }
    assert forall|c: usize| #[trigger] tree.is_node(c) implies match tree.parent_of(c) {
        Some(p) => tree.is_node(p) && (tree.left_of(p) == Some(c) || tree.right_of(p) == Some(c)),
        None => tree.root_of() == Some(c),
    } by {
        assert(tree.live(c as int));
        assert(tree.wf_node(c as int));
    }
    if tree.root_of() is None {
        assert forall|c: usize| !tree.is_node(c) by {}
    }
}

/// The listing of a well-formed tree holds the value of each of its nodes.
pub proof fn lemma_nodes_listed<T: TotalOrder>(tree: Tree<T>, i: usize)
    requires
        tree.wf(),
        tree.is_node(i),
    ensures
        tree@.contains(tree.value_of(i)),
{
    let k = tree.layout@.pos[i as int];
    assert(tree@[k] == tree.value_of(i));
}

/// Entering a value into a sorted sequence at its insertion point leaves the
/// sequence sorted.
pub proof fn lemma_inserted_sorted<T: TotalOrder>(s: Seq<T>, v: T)
    requires
        sorted(s),
    ensures
        sorted(inserted(s, v)),
{
    let q = insertion_point(s, v);
    lemma_insertion_point_bounds(s, v);
    lemma_insertion_point_splits(s, v);
    let t = inserted(s, v);
    assert forall|j: int, k: int| 0 <= j < k < t.len() implies !t[k].precedes(t[j]) by {
        if k == q {
            assert(t[j] == s[j]);
        } else if j == q {
            assert(t[k] == s[k - 1]);
            if s[k - 1].precedes(v) {
                T::lemma_transitive(v, s[k - 1], v);
                T::lemma_irreflexive(v);
            }
        } else {
            let j0 = if j < q { j } else { j - 1 };
            let k0 = if k < q { k } else { k - 1 };
            assert(t[j] == s[j0] && t[k] == s[k0]);
        }
    }
}

/// In a sorted sequence the insertion point of `v` has behind it only
/// elements that `v` precedes, and before it only elements that `v` does not
/// precede.
pub proof fn lemma_insertion_point_splits<T: TotalOrder>(s: Seq<T>, v: T)
    requires
        sorted(s),
    ensures
        forall|j: int| 0 <= j < insertion_point(s, v) ==> !v.precedes(#[trigger] s[j]),
        forall|j: int| insertion_point(s, v) <= j < s.len() ==> v.precedes(#[trigger] s[j]),
    decreases s.len(),
{
    if s.len() > 0 {
        let t = s.drop_last();
        lemma_insertion_point_bounds(t, v);
        if v.precedes(s.last()) {
            assert(sorted(t)) by {
                assert forall|j: int, k: int| 0 <= j < k < t.len() implies !t[k].precedes(t[j]) by {
                    assert(t[j] == s[j]);
                    assert(t[k] == s[k]);
                }
            }
            lemma_insertion_point_splits(t, v);
            assert forall|j: int| 0 <= j < insertion_point(s, v) implies !v.precedes(#[trigger] s[j]) by {
                assert(s[j] == t[j]);
            }
            assert forall|j: int| insertion_point(s, v) <= j < s.len() implies v.precedes(#[trigger] s[j]) by {
                if j < t.len() {
                    assert(s[j] == t[j]);
                }
            }
        } else {
            assert forall|j: int| 0 <= j < s.len() implies !v.precedes(#[trigger] s[j]) by {
                if j < s.len() - 1 {
                    assert(!s.last().precedes(s[j]));
                    lemma_at_most_twice(s[j], s.last(), v);
                }
            }
        }
    }
}

/// A search for a value right after its insertion finds it.
pub proof fn lemma_search_after_insert<T: TotalOrder>(before: Tree<T>, after: Tree<T>, value: T)
    requires
        after@ == inserted(before@, value),
    ensures
        lookup(after@, value) == Some(value),
{
    lemma_insertion_point_bounds(before@, value);
    assert(after@[insertion_point(before@, value)] == value);
}

/// An insertion lengthens the listing by one, whatever the value.
pub proof fn lemma_insert_grows<T: TotalOrder>(before: Tree<T>, after: Tree<T>, value: T)
    requires
        after@ == inserted(before@, value),
    ensures
        after@.len() == before@.len() + 1,
        after@.to_multiset() == before@.to_multiset().insert(value),
{
    lemma_insertion_point_bounds(before@, value);
    vstd::seq_lib::to_multiset_insert(before@, insertion_point(before@, value), value);
}

/// A deletion shortens the listing by one if it holds the value, and leaves
/// it as it is otherwise.
pub proof fn lemma_delete_shrinks<T: TotalOrder>(before: Tree<T>, after: Tree<T>, value: T)
    requires
        after@ == before@.remove_value(value),
    ensures
        before@.contains(value) ==> after@.len() == before@.len() - 1,
        !before@.contains(value) ==> after@ == before@,
{
    before@.index_of_first_ensures(value);
}

} // verus!
