//! A buddy allocator over a fixed region, driven by one status byte per node
//! of a complete binary index tree.
//!
//! The crate states the allocation and release protocols as functions on the
//! sequence of status bytes and proves that every operation keeps the tree
//! consistent: claimed nodes never nest, and every claimed node is announced
//! on the way to the root.

pub mod allocator;
pub mod consistency;
pub mod index;
pub mod laws;
pub mod model;
pub mod region;
pub mod state;
pub mod tags;
pub mod top;

pub use allocator::NBBuddyAllocator;
pub use state::State;
pub use tags::AllocTags;
