//! Read-only reader and query engine for forest-of-random-projection-trees
//! nearest-neighbour indices stored in a flat binary node format.
//!
//! Floating-point values stored in an index are carried through this library
//! as their raw IEEE-754 bit patterns (`u32`); arithmetic on them is left to
//! the caller, which hands the library the bit patterns of its results.
mod candidates;
pub mod float_bits;
pub mod index;
pub mod laws;
pub mod node;
pub mod priority_queue;
pub mod search;
pub mod storage;

pub use index::{AnnoyIndex, LoadError};
pub use node::{IndexType, Node, NodeHeader, NodeHeaderAngular, NodeHeaderDot, NodeHeaderMinkowski};
pub use priority_queue::PriorityQueue;
pub use search::SearchResult;
pub use storage::Storage;
