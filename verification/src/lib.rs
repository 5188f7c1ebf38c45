//! Physical page allocation and Sv39 address translation for a single-hart
//! RISC-V supervisor kernel.
//!
//! The arena of physical pages is an explicit value, [`memory_alloc::PageAllocator`],
//! that owns its page descriptors and the memory of its data pages. Page tables
//! live in pages of that arena and refer to each other by physical page number.

pub mod memory_alloc;
pub mod mmu;
