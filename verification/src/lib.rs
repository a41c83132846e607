//! A free-list allocator for a single fixed memory region.
//!
//! The engine tracks the free bytes of a caller-provided region
//! `[base, base + size)` as an address-ordered list of free nodes, serves
//! requests first-fit with splitting, and merges released blocks with their
//! physical neighbours. Addresses are plain machine words; the caller owns
//! the bytes themselves.

pub mod heap;
pub mod laws;
pub mod model;
pub mod sums;

pub use heap::Heap;
pub use model::FreeNode;
pub use model::MIN_NODE_SIZE;
pub use model::NODE_ALIGN;
