//! An unbalanced binary search tree over totally ordered values.
//!
//! [`Tree`] holds its values in nodes, each with a left and a right sub-tree.
//! Values are put in, looked for and taken out by descent from the root, and a
//! whole tree can be hung into another one.
//!
//! The contracts speak of a tree through its [`Shape`], and of a well-ordered
//! tree also through its values read from left to right:
//!
//! - `order`: the order on the values, and when it is total;
//! - `sorted`: strictly increasing sequences, and the rank of a value in one;
//! - `shape`: the shape of a tree, and what each operation makes of it;
//! - `traversal`: what each operation does to the values from left to right;
//! - `laws`: what holds of the operations taken together;
//! - `tree`: the tree itself.

pub mod laws;
pub mod order;
pub mod shape;
pub mod sorted;
pub mod traversal;
pub mod tree;

pub use shape::Shape;
pub use tree::{Tree, TreeOpError};
