//! An ordered key container backed by a red-black tree, with the ordering
//! that keys must provide and a small deterministic generator of test input.
pub mod key;
pub mod laws;
pub mod rng;
pub mod tree;

pub use key::TreeKey;
pub use rng::Rand;
pub use tree::{Color, Node, RBtree};
