//! Sorted sequences: the vocabulary in which the tree's contracts speak.

use vstd::prelude::*;
use crate::total_order::TotalOrder;

verus! {

/// No element of `s` precedes an earlier one.
pub open spec fn sorted<T: TotalOrder>(s: Seq<T>) -> bool {
    forall|j: int, k: int| 0 <= j < k < s.len() ==> !s[k].precedes(s[j])
}

/// The place at which `v` enters `s`: just behind the last element that `v`
/// does not precede. In a sorted sequence that is behind every element that
/// is smaller than or equal to `v`.
pub open spec fn insertion_point<T: TotalOrder>(s: Seq<T>, v: T) -> int
    decreases s.len(),
{
    if s.len() == 0 {
        0
    } else if v.precedes(s.last()) {
        insertion_point(s.drop_last(), v)
    } else {
        s.len() as int
    }
}

/// `s` with `v` entered at its insertion point.
pub open spec fn inserted<T: TotalOrder>(s: Seq<T>, v: T) -> Seq<T> {
    s.insert(insertion_point(s, v), v)
}

/// The element behind the first occurrence of `v` in `s`, if `v` occurs and
/// is not the last element.
pub open spec fn element_after<T: TotalOrder>(s: Seq<T>, v: T) -> Option<T> {
    match s.index_of_first(v) {
        Some(k) => if k + 1 < s.len() {
            Some(s[k + 1])
        } else {
            None
        },
        None => None,
    }
}

/// What a search for `v` in `s` answers: `v` itself if it occurs.
pub open spec fn lookup<T: TotalOrder>(s: Seq<T>, v: T) -> Option<T> {
    if s.contains(v) {
        Some(v)
    } else {
        None
    }
}

/// The insertion point lies within the sequence or at its end.
pub proof fn lemma_insertion_point_bounds<T: TotalOrder>(s: Seq<T>, v: T)
    ensures
        0 <= insertion_point(s, v) <= s.len(),
    decreases s.len(),
{
    if s.len() > 0 && v.precedes(s.last()) {
        lemma_insertion_point_bounds(s.drop_last(), v);
    }
}

/// A place that splits `s` into elements that `v` does not precede and
/// elements that `v` precedes is the insertion point of `v`.
pub proof fn lemma_insertion_point_is<T: TotalOrder>(s: Seq<T>, v: T, k: int)
    requires
        0 <= k <= s.len(),
        forall|j: int| 0 <= j < k ==> !v.precedes(#[trigger] s[j]),
        forall|j: int| k <= j < s.len() ==> v.precedes(#[trigger] s[j]),
    ensures
        insertion_point(s, v) == k,
    decreases s.len(),
{
    if s.len() > 0 {
        if v.precedes(s.last()) {
            assert(k < s.len());
            let t = s.drop_last();
            assert forall|j: int| 0 <= j < k implies !v.precedes(#[trigger] t[j]) by {
                assert(t[j] == s[j]);
            }
            assert forall|j: int| k <= j < t.len() implies v.precedes(#[trigger] t[j]) by {
                assert(t[j] == s[j]);
            }
            lemma_insertion_point_is(t, v, k);
        } else {
            assert(k == s.len());
        }
    }
}

/// An occurrence of `v` that no other occurrence comes before is the first.
pub proof fn lemma_first_occurrence_is<T: TotalOrder>(s: Seq<T>, v: T, k: int)
    requires
        0 <= k < s.len(),
        s[k] == v,
        forall|j: int| 0 <= j < k ==> #[trigger] s[j] != v,
    ensures
        s.index_of_first(v) == Some(k),
{
    s.index_of_first_ensures(v);
    assert(s.contains(v));
}

} // verus!
