//! A verified model of a small x86_64 kernel's memory management: the
//! bootloader memory map, the physical page allocator (bitmap and free
//! list), the four-level page tables, and the slab heap.
use vstd::prelude::*;

pub mod framebuffer;
pub mod mm;
