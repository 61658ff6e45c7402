//! The strict total order that tree values carry.

use vstd::prelude::*;

verus! {

/// A copyable value with a strict total order.
///
/// `precedes` is the order used in contracts; `is_less` and `is_same` are the
/// executable tests that decide it. Equality is structural equality.
pub trait TotalOrder: Copy + Sized {
    /// `self` is strictly smaller than `other`.
    spec fn precedes(self, other: Self) -> bool;

    /// No value precedes itself.
    proof fn lemma_irreflexive(a: Self)
        ensures
            !a.precedes(a),
    ;

    /// The order is transitive.
    proof fn lemma_transitive(a: Self, b: Self, c: Self)
        requires
            a.precedes(b),
            b.precedes(c),
        ensures
            a.precedes(c),
    ;

    /// Any two distinct values are ordered one way or the other.
    proof fn lemma_connected(a: Self, b: Self)
        ensures
            a.precedes(b) || b.precedes(a) || a == b,
    ;

    /// Decides `precedes`.
    fn is_less(&self, other: &Self) -> (r: bool)
        ensures
            r == self.precedes(*other),
    ;

    /// Decides equality.
    fn is_same(&self, other: &Self) -> (r: bool)
        ensures
            r == (*self == *other),
    ;
}

/// From `a < b` and `b <= c` follows `a < c`.
pub proof fn lemma_less_then_at_most<T: TotalOrder>(a: T, b: T, c: T)
    requires
        a.precedes(b),
        !c.precedes(b),
    ensures
        a.precedes(c),
{
    T::lemma_connected(b, c);
    if b.precedes(c) {
        T::lemma_transitive(a, b, c);
    }
}

/// From `a <= b` and `b < c` follows `a < c`.
pub proof fn lemma_at_most_then_less<T: TotalOrder>(a: T, b: T, c: T)
    requires
        !b.precedes(a),
        b.precedes(c),
    ensures
        a.precedes(c),
{
    T::lemma_connected(a, b);
    if a.precedes(b) {
        T::lemma_transitive(a, b, c);
    }
}

/// From `a <= b` and `b <= c` follows `a <= c`.
pub proof fn lemma_at_most_twice<T: TotalOrder>(a: T, b: T, c: T)
    requires
        !b.precedes(a),
        !c.precedes(b),
    ensures
        !c.precedes(a),
{
    if c.precedes(a) {
        lemma_less_then_at_most(c, a, b);
    }
}

impl TotalOrder for u8 {
    open spec fn precedes(self, other: Self) -> bool {
        self < other
    }

    proof fn lemma_irreflexive(a: Self) {
    }

    proof fn lemma_transitive(a: Self, b: Self, c: Self) {
    }

    proof fn lemma_connected(a: Self, b: Self) {
    }

    fn is_less(&self, other: &Self) -> (r: bool) {
        *self < *other
    }

    fn is_same(&self, other: &Self) -> (r: bool) {
        *self == *other
    }
}

impl TotalOrder for u16 {
    open spec fn precedes(self, other: Self) -> bool {
        self < other
    }

    proof fn lemma_irreflexive(a: Self) {
    }

    proof fn lemma_transitive(a: Self, b: Self, c: Self) {
    }

    proof fn lemma_connected(a: Self, b: Self) {
    }

    fn is_less(&self, other: &Self) -> (r: bool) {
        *self < *other
    }

    fn is_same(&self, other: &Self) -> (r: bool) {
        *self == *other
    }
}

impl TotalOrder for u32 {
    open spec fn precedes(self, other: Self) -> bool {
        self < other
    }

    proof fn lemma_irreflexive(a: Self) {
    }

    proof fn lemma_transitive(a: Self, b: Self, c: Self) {
    }

    proof fn lemma_connected(a: Self, b: Self) {
    }

    fn is_less(&self, other: &Self) -> (r: bool) {
        *self < *other
    }

    fn is_same(&self, other: &Self) -> (r: bool) {
        *self == *other
    }
}

impl TotalOrder for u64 {
    open spec fn precedes(self, other: Self) -> bool {
        self < other
    }

    proof fn lemma_irreflexive(a: Self) {
    }

    proof fn lemma_transitive(a: Self, b: Self, c: Self) {
    }

    proof fn lemma_connected(a: Self, b: Self) {
    }

    fn is_less(&self, other: &Self) -> (r: bool) {
        *self < *other
    }

    fn is_same(&self, other: &Self) -> (r: bool) {
        *self == *other
    }
}

impl TotalOrder for u128 {
    open spec fn precedes(self, other: Self) -> bool {
        self < other
    }

    proof fn lemma_irreflexive(a: Self) {
    }

    proof fn lemma_transitive(a: Self, b: Self, c: Self) {
    }

    proof fn lemma_connected(a: Self, b: Self) {
    }

    fn is_less(&self, other: &Self) -> (r: bool) {
        *self < *other
    }

    fn is_same(&self, other: &Self) -> (r: bool) {
        *self == *other
    }
}

impl TotalOrder for usize {
    open spec fn precedes(self, other: Self) -> bool {
        self < other
    }

    proof fn lemma_irreflexive(a: Self) {
    }

    proof fn lemma_transitive(a: Self, b: Self, c: Self) {
    }

    proof fn lemma_connected(a: Self, b: Self) {
    }

    fn is_less(&self, other: &Self) -> (r: bool) {
        *self < *other
    }

    fn is_same(&self, other: &Self) -> (r: bool) {
        *self == *other
    }
}

impl TotalOrder for i8 {
    open spec fn precedes(self, other: Self) -> bool {
        self < other
    }

    proof fn lemma_irreflexive(a: Self) {
    }

    proof fn lemma_transitive(a: Self, b: Self, c: Self) {
    }

    proof fn lemma_connected(a: Self, b: Self) {
    }

    fn is_less(&self, other: &Self) -> (r: bool) {
        *self < *other
    }

    fn is_same(&self, other: &Self) -> (r: bool) {
        *self == *other
    }
}

impl TotalOrder for i16 {
    open spec fn precedes(self, other: Self) -> bool {
        self < other
    }

    proof fn lemma_irreflexive(a: Self) {
    }

    proof fn lemma_transitive(a: Self, b: Self, c: Self) {
    }

    proof fn lemma_connected(a: Self, b: Self) {
    }

    fn is_less(&self, other: &Self) -> (r: bool) {
        *self < *other
    }

    fn is_same(&self, other: &Self) -> (r: bool) {
        *self == *other
    }
}

impl TotalOrder for i32 {
    open spec fn precedes(self, other: Self) -> bool {
        self < other
    }

    proof fn lemma_irreflexive(a: Self) {
    }

    proof fn lemma_transitive(a: Self, b: Self, c: Self) {
    }

    proof fn lemma_connected(a: Self, b: Self) {
    }

    fn is_less(&self, other: &Self) -> (r: bool) {
        *self < *other
    }

    fn is_same(&self, other: &Self) -> (r: bool) {
        *self == *other
    }
}

impl TotalOrder for i64 {
    open spec fn precedes(self, other: Self) -> bool {
        self < other
    }

    proof fn lemma_irreflexive(a: Self) {
    }

    proof fn lemma_transitive(a: Self, b: Self, c: Self) {
    }

    proof fn lemma_connected(a: Self, b: Self) {
    }

    fn is_less(&self, other: &Self) -> (r: bool) {
        *self < *other
    }

    fn is_same(&self, other: &Self) -> (r: bool) {
        *self == *other
    }
}

impl TotalOrder for i128 {
    open spec fn precedes(self, other: Self) -> bool {
        self < other
    }

    proof fn lemma_irreflexive(a: Self) {
    }

    proof fn lemma_transitive(a: Self, b: Self, c: Self) {
    }

    proof fn lemma_connected(a: Self, b: Self) {
    }

    fn is_less(&self, other: &Self) -> (r: bool) {
        *self < *other
    }

    fn is_same(&self, other: &Self) -> (r: bool) {
        *self == *other
    }
}

impl TotalOrder for isize {
    open spec fn precedes(self, other: Self) -> bool {
        self < other
    }

    proof fn lemma_irreflexive(a: Self) {
    }

    proof fn lemma_transitive(a: Self, b: Self, c: Self) {
    }

    proof fn lemma_connected(a: Self, b: Self) {
    }

    fn is_less(&self, other: &Self) -> (r: bool) {
        *self < *other
    }

    fn is_same(&self, other: &Self) -> (r: bool) {
        *self == *other
    }
}

} // verus!
