//! Virtual-memory management for a small paged kernel: a frame allocator, a
//! page table, regions of virtual pages, and the address spaces built from
//! them for the kernel and for user programs loaded from ELF images.

pub mod config;
pub mod elf;
pub mod frame_allocator;
pub mod kernel_space;
pub mod map_area;
pub mod memory_set;
pub mod page_table;
pub mod syscall;
pub mod task;
pub mod user_space;
