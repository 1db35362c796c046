//! `ksq` is a K2 tree (k²-tree): a sparse bit vector stored as a hierarchy of
//! 16-bit cells without child pointers. A set bit in a cell of one level
//! says that a child cell exists on the next level; where that child sits
//! within its level follows from counting the set bits before it.
//!
//! The tree is kept as a flat one-dimensional bit vector. [`Matrix`] lays a
//! square of rows and columns over it.
//!
//! Each cell is a `u16`, so every level multiplies the capacity by 16.

pub mod cell;
pub mod encoding;
pub mod laws;
pub mod layer;
pub mod matrix;
pub mod model;
pub mod power;
pub mod tree;
pub mod tree_iterator;

pub use cell::{Cell, CellRepr};
pub use layer::Layer;
pub use matrix::Matrix;
pub use tree::{Error, Tree};
