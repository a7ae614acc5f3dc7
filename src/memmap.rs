//! Physical memory information gathered from the boot information, for the memory allocators.
use vstd::prelude::*;
use crate::memory::PAGE_SIZE;

verus! {

/// Physical memory map information.
#[derive(Debug)]
pub struct PhysMapInfo {
    /// Size of the Multiboot2 memory map.
    pub memory_maps_size: usize,
    /// Size of an entry in the Multiboot2 memory map.
    pub memory_maps_entry_size: usize,
    /// Address of the Multiboot2 memory map.
    pub memory_maps: usize,
    /// Physical address of the beginning of the main block of allocatable memory, page aligned.
    pub phys_main_begin: usize,
    /// The size of the main block of physical allocatable memory, in pages.
    pub phys_main_pages: usize,
}

impl Default for PhysMapInfo {
    fn default() -> (r: Self)
        ensures
            r.memory_maps_size == 0 && r.memory_maps_entry_size == 0 && r.memory_maps == 0,
            r.phys_main_begin == 0 && r.phys_main_pages == 0,
    {
        PhysMapInfo { memory_maps_size: 0, memory_maps_entry_size: 0, memory_maps: 0, phys_main_begin: 0, phys_main_pages: 0 }
    }
}

/// The largest of `init` and the values present in `s`.
pub open spec fn max_present(s: Seq<Option<usize>>, init: usize) -> usize
    decreases s.len(),
{
    if s.len() == 0 {
        init
    } else {
        let m = max_present(s.drop_last(), init);
        match s.last() {
            Some(v) => if v > m { v } else { m },
            None => m,
        }
    }
}

/// The physical end of the kernel's ELF sections' content: the largest of the end of the
/// sections list and the physical ends of the sections that have one.
pub fn sections_end(section_ends: &[Option<usize>], list_end: usize) -> (r: usize)
    ensures
        r == max_present(section_ends@, list_end),
{
    let mut m = list_end;
    let mut i: usize = 0;
    while i < section_ends.len()
        invariant
            i <= section_ends@.len(),
            m == max_present(section_ends@.subrange(0, i as int), list_end),
        decreases section_ends@.len() - i,
    {
        if let Some(v) = section_ends[i] {
            if v > m {
                m = v;
            }
        }
        assert(section_ends@.subrange(0, i + 1).drop_last() =~= section_ends@.subrange(0, i as int));
        i += 1;
    }
    assert(section_ends@.subrange(0, section_ends@.len() as int) =~= section_ends@);
    m
}

/// The number of KiB of memory the kernel uses at most.
pub const MEMORY_SIZE_LIMIT: u32 = 4194304;

/// The size of the physical memory in pages, from the amount of upper memory in KiB.
pub open spec fn memory_pages(mem_upper: u32) -> int {
    let n = (1000 + mem_upper as int) / 4;
    if n < 1024 * 1024 { n } else { 1024 * 1024 as int }
}

/// The beginning of the main allocatable physical memory and its size in pages: it begins after
/// the boot tags, the kernel's sections and the initramfs, and ends with physical memory.
pub fn get_phys_main(tags_end: usize, sections_end: usize, initramfs_end: usize, mem_upper: u32) -> (r: (usize, usize))
    requires
        (if tags_end >= sections_end && tags_end >= initramfs_end { tags_end as int }
            else if sections_end >= initramfs_end { sections_end as int } else { initramfs_end as int })
            + PAGE_SIZE <= usize::MAX,
        ({
            let b = if tags_end >= sections_end && tags_end >= initramfs_end { tags_end as int }
                else if sections_end >= initramfs_end { sections_end as int } else { initramfs_end as int };
            (b + PAGE_SIZE - 1) / PAGE_SIZE as int <= memory_pages(mem_upper)
        }),
    ensures
        r.0 >= tags_end && r.0 >= sections_end && r.0 >= initramfs_end,
        r.0 == tags_end || r.0 == sections_end || r.0 == initramfs_end,
        r.1 == memory_pages(mem_upper) - (r.0 + PAGE_SIZE - 1) / PAGE_SIZE as int,
{
    let mut begin = tags_end;
    if sections_end > begin {
        begin = sections_end;
    }
    if initramfs_end > begin {
        begin = initramfs_end;
    }
    let n = (1000 + mem_upper as u64) / 4;
    let memory_size: usize = if n < 1024 * 1024 { n as usize } else { 1024 * 1024 };
    let pages = memory_size - (begin + (PAGE_SIZE - 1)) / PAGE_SIZE;
    (begin, pages)
}

/// The memory statistics set at boot: total and free memory in KiB.
pub fn boot_mem_stats(mem_upper: u32, phys_main_pages: usize) -> (r: (u32, usize))
    requires
        phys_main_pages * 4 <= usize::MAX,
    ensures
        r.0 == if mem_upper < MEMORY_SIZE_LIMIT { mem_upper } else { MEMORY_SIZE_LIMIT },
        r.1 == phys_main_pages * 4,
{
    let total = if mem_upper < MEMORY_SIZE_LIMIT { mem_upper } else { MEMORY_SIZE_LIMIT };
    (total, phys_main_pages * 4)
}

} // verus!
