//! Bootstrap memory-management utilities for a freestanding kernel.
//!
//! The crate provides an intrusive linked-list toolkit whose elements live in
//! a caller-owned pool (`list`), alignment arithmetic (`ops`), and a
//! slot-based physical-range allocator built from a static descriptor pool
//! (`cheap_alloc`), together with a small text-console model (`vga`).

pub mod cheap_alloc;
pub mod list;
pub mod ops;
pub mod vga;
