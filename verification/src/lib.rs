//! Memory management and process bookkeeping of a small RISC-V (Sv39) teaching kernel.
//!
//! Physical memory is modelled as a byte array (`PhysMem`), page tables are walked over
//! it, and address spaces (`MemorySet`) are built from page tables and map areas.
use vstd::prelude::*;

pub mod config;
pub mod address;
pub mod phys_mem;
pub mod frame_allocator;
pub mod page_table;
pub mod elf;
pub mod memory_set;
pub mod mm;
pub mod id;
pub mod task;
pub mod syscall;
pub mod fs;
pub mod loader;
pub mod trap;

verus! {
} // verus!
