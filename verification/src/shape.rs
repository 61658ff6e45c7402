//! The tree as a value: what hangs where, without slots and links.
//!
//! Insertion and deletion are given here as functions on shapes. The
//! operations of [`Tree`] are proved to have exactly these effects.

use vstd::prelude::*;
use crate::total_order::TotalOrder;

verus! {

/// A binary tree of values.
pub enum Shape<T> {
    Empty,
    Fork(Box<Shape<T>>, T, Box<Shape<T>>),
}

impl<T: TotalOrder> Shape<T> {
    /// A single node.
    pub open spec fn leaf(value: T) -> Shape<T> {
        Shape::Fork(Box::new(Shape::Empty), value, Box::new(Shape::Empty))
    }

    /// The values from left to right.
    pub open spec fn inorder(self) -> Seq<T>
        decreases self,
    {
        match self {
            Shape::Empty => Seq::empty(),
            Shape::Fork(left, value, right) => left.inorder().push(value) + right.inorder(),
        }
    }

    /// The shape after `new_value` was hung at the end of its search path:
    /// left of values that it precedes, right of all others.
    pub open spec fn with(self, new_value: T) -> Shape<T>
        decreases self,
    {
        match self {
            Shape::Empty => Shape::leaf(new_value),
            Shape::Fork(left, value, right) => if new_value.precedes(value) {
                Shape::Fork(Box::new(left.with(new_value)), value, right)
            } else {
                Shape::Fork(left, value, Box::new(right.with(new_value)))
            },
        }
    }

    /// The leftmost value.
    pub open spec fn least(self) -> T
        decreases self,
    {
        match self {
            Shape::Empty => arbitrary(),
            Shape::Fork(left, value, right) => if *left is Empty {
                value
            } else {
                left.least()
            },
        }
    }

    /// The rightmost value.
    pub open spec fn greatest(self) -> T
        decreases self,
    {
        match self {
            Shape::Empty => arbitrary(),
            Shape::Fork(left, value, right) => if *right is Empty {
                value
            } else {
                right.greatest()
            },
        }
    }

    /// The shape after the leftmost node left and its right subtree took its
    /// place.
    pub open spec fn without_least(self) -> Shape<T>
        decreases self,
    {
        match self {
            Shape::Empty => Shape::Empty,
            Shape::Fork(left, value, right) => if *left is Empty {
                *right
            } else {
                Shape::Fork(Box::new(left.without_least()), value, right)
            },
        }
    }

    /// The shape after the root left: an only child takes its place; of two
    /// children, the leftmost node of the right one does.
    pub open spec fn without_root(self) -> Shape<T> {
        match self {
            Shape::Empty => Shape::Empty,
            Shape::Fork(left, value, right) => if *left is Empty {
                *right
            } else if *right is Empty {
                *left
            } else {
                Shape::Fork(left, right.least(), Box::new(right.without_least()))
            },
        }
    }

    /// The shape after the first node on the search path of `value` that holds
    /// `value` left. A shape without such a node stays as it is.
    pub open spec fn without(self, value: T) -> Shape<T>
        decreases self,
    {
        match self {
            Shape::Empty => Shape::Empty,
            Shape::Fork(left, here, right) => if value == here {
                self.without_root()
            } else if value.precedes(here) {
                Shape::Fork(Box::new(left.without(value)), here, right)
            } else {
                Shape::Fork(left, here, Box::new(right.without(value)))
            },
        }
    }
}

} // verus!
