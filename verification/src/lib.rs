//! A lock-free buddy-system page allocator.
//!
//! The allocator manages `2^order` pages. A full binary tree over the region
//! is packed, four levels at a time, into *containers* of up to fifteen
//! logical nodes, each container owning a single atomic state word. Every
//! observable transition of a container is one compare-and-swap on that word,
//! so threads working on disjoint sub-trees never serialize; an in-flight
//! free announces itself through per-side "coalescing" bits that make a
//! concurrent allocation of an ancestor yield instead of racing it.

pub mod buddy_alloc;
pub mod cpuid;
pub mod math;
pub mod state;
pub mod tree;
