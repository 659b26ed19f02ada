//! A balanced multiway tree that indexes caller-defined regions.
//!
//! Every stored pair has a region as its key. Leaves hold the pairs; an
//! internal node holds, for each subtree, a summary region that encloses all
//! regions stored in it, so that a window search can skip a subtree whose
//! summary does not overlap the query.
//!
//! - `region`: what a key type must offer.
//! - `node`: the node layout and its model as a sequence of pairs.
//! - `lookup`: finding the path to a stored region.
//! - `insert`, `remove`: the two mutations on subtrees.
//! - `cursor`: the full traversal and the window search.
//! - `tree`: the tree and its operations.

pub mod region;
pub mod node;
pub mod lookup;
pub mod insert;
pub mod remove;
pub mod cursor;
pub mod tree;

pub use cursor::{Iter, Search};
pub use region::Region;
pub use tree::Tree;
