//! A per-process virtual memory space manager: gaps and mappings over a page-granular
//! address range, with transactional mutation, copy-on-write fork and demand paging,
//! together with a few small kernel helpers.

pub mod errno;
pub mod memory;
pub mod residence;
pub mod layout;
pub mod state;
pub mod model;
pub mod ops;
pub mod unmap;
pub mod mem_space;
pub mod laws;
pub mod phys;
pub mod vmem;
pub mod util;
pub mod bytes;
pub mod madt;
pub mod mbr;
pub mod syscall;
pub mod memmap;
pub mod ps2;
