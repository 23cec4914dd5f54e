//! A buddy allocator over a power-of-two region, with its block tree
//! packed two bits per node.
pub mod bitv;
pub mod geometry;
pub mod tree;
pub mod buddy;
pub mod laws;

pub use bitv::{Bitv, Node};
pub use buddy::{Allocator, BuddyAlloc};
