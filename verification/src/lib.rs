//! An ordered set and map stored as a two-level tree: a sorted index of leaf
//! nodes, each leaf a bounded sorted run of elements. Every mutation reports
//! the change events that let a replica follow the structure.

pub mod change;
pub mod element;
pub mod iter;
pub mod laws;
pub mod layout;
pub mod map;
pub mod node;
pub mod pair;
pub mod set;
pub mod span;
