//! Constants of the kernel's memory layout.
use vstd::prelude::*;

verus! {

/// Size of a page in bytes.
pub const PAGE_SIZE: u64 = 4096;
/// Number of bits of the offset inside a page.
pub const PAGE_SIZE_BITS: u64 = 12;
/// Size of a user stack.
pub const USER_STACK_SIZE: u64 = 8192;
/// Size of a kernel stack.
pub const KERNEL_STACK_SIZE: u64 = 8192;
/// End of physical memory.
pub const MEMORY_END: u64 = 0x8800_0000;
/// Virtual address of the trampoline page (the highest page).
pub const TRAMPOLINE: u64 = 0xffff_ffff_ffff_f000;
/// Virtual address of the trap context of a user space (just below the trampoline).
pub const TRAP_CONTEXT_BASE: u64 = 0xffff_ffff_ffff_e000;
/// Number of syscall identifiers that a task counts.
pub const MAX_SYSCALL_NUM: u64 = 500;

} // verus!
