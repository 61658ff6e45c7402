//! An unbalanced binary search tree with parent links, kept in an index arena.
//!
//! Values are ordered by [`TotalOrder`]; equal values are allowed and are routed
//! to the right. A [`Tree`] is seen in contracts in two ways: as the sequence
//! of its values in in-order (its view), and as a [`Shape`], the tree of values
//! without slots and links. Insertion and deletion are proved to change the
//! shape exactly as the functions of [`Shape`] say, and to keep the tree well
//! formed: sorted, and with parent links that mirror the child links.

pub mod attach;
pub mod delete;
pub mod inorder;
pub mod insert;
pub mod laws;
pub mod links;
pub mod node;
pub mod query;
pub mod replace;
pub mod shape;
pub mod splice;
pub mod subtree;
pub mod total_order;
pub mod tree;

pub use shape::Shape;
pub use total_order::TotalOrder;
pub use tree::Tree;
