use vstd::prelude::*;

verus! {

/// The size of a memory page in bytes.
pub const PAGE_SIZE: usize = 4096;
/// The first address that can be handed out to a process.
pub const ALLOC_BEGIN: usize = 0x1000;
/// The end of the process-reachable address range (exclusive).
pub const PROCESS_END: usize = 0xC000_0000;
/// The first page of the process-reachable range.
pub const FIRST_PAGE: usize = 1;
/// The end of the process-reachable range, in pages (exclusive).
pub const END_PAGE: usize = 0xC0000;

/// Flag telling that a memory mapping can be written to.
pub const MAPPING_FLAG_WRITE: u8 = 0b00001;
/// Flag telling that a memory mapping can contain executable instructions.
pub const MAPPING_FLAG_EXEC: u8 = 0b00010;
/// Flag telling that a memory mapping is accessible from userspace.
pub const MAPPING_FLAG_USER: u8 = 0b00100;
/// Flag telling that a memory mapping must allocate its physical memory right away.
pub const MAPPING_FLAG_NOLAZY: u8 = 0b01000;
/// Flag telling that a memory mapping has its physical memory shared with other mappings.
pub const MAPPING_FLAG_SHARED: u8 = 0b10000;

/// Page-fault code bit: the fault was a protection violation on a present page.
pub const PAGE_FAULT_PRESENT: u32 = 0b001;
/// Page-fault code bit: the fault was caused by a write.
pub const PAGE_FAULT_WRITE: u32 = 0b010;
/// Page-fault code bit: the fault was caused from user mode.
pub const PAGE_FAULT_USER: u32 = 0b100;

} // verus!
