//! Ferrum kernel core: the physical page allocator, page tables, virtual
//! memory areas, file descriptors, the RAM file system and the scheduler's
//! process table, each function with its contract and proof.

pub mod allocator;
pub mod page_owner;
pub mod paging;
pub mod vma;
pub mod fs;
pub mod text;
pub mod pipe;
pub mod fd;
pub mod process;
pub mod initramfs;

pub mod heap;
pub mod elf;
pub mod boot;
pub mod syscall;
pub mod userland;
pub mod apic;
pub mod exec;
pub mod sys;
