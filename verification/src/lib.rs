//! Virtual-memory core of a small RISC-V (Sv39) kernel: address spaces,
//! memory regions, page tables and copy-on-write forking over an explicit
//! model of physical memory.

pub mod address;
pub mod config;
pub mod elf;
pub mod frame;
pub mod map_area;
pub mod memory_set;
pub mod page_table;
pub mod pte;
pub mod syscall;
pub mod theorems;

