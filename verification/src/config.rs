//! Configuration constants of the memory layout.

use vstd::prelude::*;

verus! {

/// log2 of the page size.
pub const PAGE_SIZE_BITS: u64 = 12;

/// Size of one page in bytes.
pub const PAGE_SIZE: u64 = 0x1000;

/// Number of 64-bit words in one page, which is also the number of entries
/// of one page-table node.
pub const PAGE_WORDS: usize = 512;

/// Width of a virtual address.
pub const VA_WIDTH: u64 = 39;

/// Width of a virtual page number.
pub const VPN_WIDTH: u64 = 27;

/// Width of a physical page number.
pub const PPN_WIDTH: u64 = 44;

/// Number of virtual pages; every valid virtual page number is below it.
pub const VPN_LIMIT: u64 = 0x800_0000;

/// Every valid physical page number is below it.
pub const PPN_LIMIT: u64 = 0x1000_0000_0000;

/// Every valid physical address is below it.
pub const PA_LIMIT: u64 = 0x100_0000_0000_0000;

/// Every valid virtual address is below it.
pub const VA_LIMIT: u64 = 0x80_0000_0000;

/// Virtual address of the trampoline page: the top page of the address space.
pub const TRAMPOLINE: u64 = u64::MAX - PAGE_SIZE + 1;

/// Virtual address of the trap-context page, one page below the trampoline.
pub const TRAP_CONTEXT: u64 = TRAMPOLINE - PAGE_SIZE;

/// Size of the user stack in bytes.
pub const USER_STACK_SIZE: u64 = 0x2000;

/// Size of the user heap in bytes.
pub const USER_HEAP_SIZE: u64 = 0x8000;

/// End of usable physical memory.
pub const MEMORY_END: u64 = 0x8080_0000;

/// Memory-mapped I/O windows as (base, length) pairs.
pub const MMIO: [(u64, u64); 1] = [(0x1000_1000, 0x1000)];

} // verus!
