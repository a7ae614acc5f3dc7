use maestro::errno::Errno;
use maestro::mem_space::{MapConstraint, MemSpace};
use maestro::memory::{
    MAPPING_FLAG_NOLAZY, MAPPING_FLAG_SHARED, MAPPING_FLAG_USER, MAPPING_FLAG_WRITE, PAGE_FAULT_USER,
    PAGE_FAULT_WRITE, PROCESS_END,
};
use maestro::phys::PhysMem;
use maestro::residence::{FileLocation, MapResidence};

const WU: u8 = MAPPING_FLAG_WRITE | MAPPING_FLAG_USER;
const TOTAL_PAGES: usize = (0xC000_0000 - 0x1000) / 4096;

fn phys() -> PhysMem {
    PhysMem::new(0x100, 1000)
}

/// The memory space after mapping two anonymous pages anywhere.
fn first_map(phys: &mut PhysMem) -> MemSpace {
    let mut s = MemSpace::new();
    let addr = s.map(MapConstraint::Any, 2, WU, MapResidence::Normal, phys).unwrap();
    assert_eq!(addr, 0x1000);
    s
}

#[test]
fn new_space_has_one_gap() {
    let s = MemSpace::new();
    assert_eq!(s.gap_list(), vec![(0x1000, TOTAL_PAGES)]);
    assert_eq!(s.mapping_list(), vec![]);
    assert_eq!(s.get_vmem_usage(), 0);
}

#[test]
fn first_map_at_alloc_begin() {
    let mut p = phys();
    let s = first_map(&mut p);
    assert_eq!(s.gap_list(), vec![(0x3000, (0xC000_0000 - 0x3000) / 4096)]);
    assert_eq!(s.mapping_list(), vec![(0x1000, 2, WU)]);
    assert_eq!(s.get_vmem_usage(), 2);
}

#[test]
fn fixed_map_splits_overlapped_mapping() {
    let mut p = phys();
    let mut s = first_map(&mut p);
    let addr = s.map(MapConstraint::Fixed(0x2000), 1, WU, MapResidence::Normal, &mut p).unwrap();
    assert_eq!(addr, 0x2000);
    assert_eq!(s.mapping_list(), vec![(0x1000, 1, WU), (0x2000, 1, WU)]);
    assert_eq!(s.gap_list(), vec![(0x3000, (0xC000_0000 - 0x3000) / 4096)]);
    assert_eq!(s.get_vmem_usage(), 2);
}

#[test]
fn unmap_middle_merges_gaps() {
    let mut p = phys();
    let mut s = first_map(&mut p);
    s.unmap(0x2000, 1, false, &mut p).unwrap();
    assert_eq!(s.mapping_list(), vec![(0x1000, 1, WU)]);
    assert_eq!(s.gap_list(), vec![(0x2000, (0xC000_0000 - 0x2000) / 4096)]);
    assert_eq!(s.get_vmem_usage(), 1);
}

#[test]
fn cow_fork_shares_then_copies() {
    let mut p = phys();
    let mut s = first_map(&mut p);
    assert_eq!(s.handle_page_fault(0x1000, PAGE_FAULT_WRITE | PAGE_FAULT_USER, &mut p), Ok(true));
    let frame_a = s.pte(0x1000).unwrap().frame;
    assert_eq!(p.ref_count(frame_a), 1);
    let child = s.fork(&mut p).unwrap();
    assert_eq!(p.ref_count(frame_a), 2);
    let pe = s.pte(0x1000).unwrap();
    let ce = child.pte(0x1000).unwrap();
    assert_eq!(pe.frame, frame_a);
    assert_eq!(ce.frame, frame_a);
    assert!(!pe.write);
    assert!(!ce.write);
    assert_eq!(child.mapping_list(), s.mapping_list());
    assert_eq!(child.gap_list(), s.gap_list());
    assert_eq!(s.handle_page_fault(0x1000, PAGE_FAULT_WRITE | PAGE_FAULT_USER, &mut p), Ok(true));
    let pe = s.pte(0x1000).unwrap();
    let frame_b = pe.frame;
    assert_ne!(frame_b, frame_a);
    assert!(pe.write);
    assert_eq!(p.ref_count(frame_b), 1);
    assert_eq!(p.ref_count(frame_a), 1);
    assert_eq!(child.pte(0x1000).unwrap().frame, frame_a);
}

#[test]
fn brk_grow_then_shrink() {
    let mut p = phys();
    let mut s = MemSpace::new();
    s.set_brk_init(0x4000_0000);
    s.set_brk_ptr(0x4000_3000, &mut p).unwrap();
    assert_eq!(s.mapping_list(), vec![(0x4000_0000, 3, WU)]);
    assert_eq!(s.get_vmem_usage(), 3);
    s.set_brk_ptr(0x4000_1000, &mut p).unwrap();
    assert_eq!(s.get_brk_ptr(), 0x4000_1000);
    assert_eq!(s.mapping_list(), vec![(0x4000_0000, 1, WU)]);
    assert_eq!(s.get_vmem_usage(), 1);
    // the two pages given back by the heap are not gaps
    assert_eq!(
        s.gap_list(),
        vec![(0x1000, (0x4000_0000 - 0x1000) / 4096), (0x4000_3000, (0xC000_0000 - 0x4000_3000) / 4096)]
    );
}

#[test]
fn brk_rejects_out_of_range() {
    let mut p = phys();
    let mut s = MemSpace::new();
    s.set_brk_init(0x4000_0000);
    assert_eq!(s.set_brk_ptr(PROCESS_END + 1, &mut p), Err(Errno::ENOMEM));
    s.set_brk_ptr(0x4000_2000, &mut p).unwrap();
    assert_eq!(s.set_brk_ptr(0x3fff_f000, &mut p), Err(Errno::ENOMEM));
    assert_eq!(s.get_brk_ptr(), 0x4000_2000);
}

#[test]
fn allocation_failure_rolls_back() {
    let mut p = phys();
    let mut s = first_map(&mut p);
    let gaps = s.gap_list();
    let by_size = s.gaps_by_size_list();
    let maps = s.mapping_list();
    let usage = s.get_vmem_usage();
    // one allocation left: the second index insertion of the new gap fails
    s.set_alloc_limit(Some(1));
    assert_eq!(s.map(MapConstraint::Any, 1, WU, MapResidence::Normal, &mut p), Err(Errno::ENOMEM));
    assert_eq!(s.gap_list(), gaps);
    assert_eq!(s.gaps_by_size_list(), by_size);
    assert_eq!(s.mapping_list(), maps);
    assert_eq!(s.get_vmem_usage(), usage);
    s.set_alloc_limit(None);
    assert_eq!(s.map(MapConstraint::Any, 1, WU, MapResidence::Normal, &mut p), Ok(0x3000));
}

#[test]
fn unmap_failure_rolls_back() {
    let mut p = phys();
    let mut s = first_map(&mut p);
    let gaps = s.gap_list();
    let maps = s.mapping_list();
    s.set_alloc_limit(Some(0));
    assert_eq!(s.unmap(0x1000, 1, false, &mut p), Err(Errno::ENOMEM));
    assert_eq!(s.gap_list(), gaps);
    assert_eq!(s.mapping_list(), maps);
}

#[test]
fn map_then_unmap_restores() {
    let mut p = phys();
    let mut s = first_map(&mut p);
    let gaps = s.gap_list();
    let by_size = s.gaps_by_size_list();
    let maps = s.mapping_list();
    let addr = s.map(MapConstraint::Hint(0x10_0000), 4, MAPPING_FLAG_USER, MapResidence::Normal, &mut p).unwrap();
    assert_eq!(addr, 0x10_0000);
    assert_eq!(s.gap_list().len(), 2);
    s.unmap(addr, 4, false, &mut p).unwrap();
    assert_eq!(s.gap_list(), gaps);
    assert_eq!(s.gaps_by_size_list(), by_size);
    assert_eq!(s.mapping_list(), maps);
    assert_eq!(s.get_vmem_usage(), 2);
}

#[test]
fn unmap_of_free_range_is_noop() {
    let mut p = phys();
    let mut s = first_map(&mut p);
    s.unmap(0x8000, 4, false, &mut p).unwrap();
    let gaps = s.gap_list();
    let maps = s.mapping_list();
    s.unmap(0x8000, 4, false, &mut p).unwrap();
    s.unmap(0x10_0000, 16, false, &mut p).unwrap();
    assert_eq!(s.gap_list(), gaps);
    assert_eq!(s.mapping_list(), maps);
    assert_eq!(s.get_vmem_usage(), 2);
}

#[test]
fn gaps_by_size_mirrors_gaps() {
    let mut p = phys();
    let mut s = MemSpace::new();
    let a = s.map(MapConstraint::Any, 3, WU, MapResidence::Normal, &mut p).unwrap();
    s.map(MapConstraint::Any, 1, WU, MapResidence::Normal, &mut p).unwrap();
    s.unmap(a + 0x1000, 1, false, &mut p).unwrap();
    let mut from_gaps: Vec<(usize, usize)> = s.gap_list().iter().map(|(b, n)| (*n, *b)).collect();
    from_gaps.sort();
    assert_eq!(s.gaps_by_size_list(), from_gaps);
    assert_eq!(s.gaps_by_size_list()[0], (1, 0x2000));
}

#[test]
fn adjacent_unmaps_leave_one_gap() {
    let mut p = phys();
    let mut s = MemSpace::new();
    s.map(MapConstraint::Any, 1, WU, MapResidence::Normal, &mut p).unwrap();
    s.map(MapConstraint::Any, 1, WU, MapResidence::Normal, &mut p).unwrap();
    s.map(MapConstraint::Any, 1, WU, MapResidence::Normal, &mut p).unwrap();
    assert_eq!(s.mapping_list().len(), 3);
    s.unmap(0x1000, 3, false, &mut p).unwrap();
    assert_eq!(s.gap_list(), vec![(0x1000, TOTAL_PAGES)]);
    assert_eq!(s.get_vmem_usage(), 0);
}

#[test]
fn best_fit_picks_smallest_gap() {
    let mut p = phys();
    let mut s = MemSpace::new();
    s.map(MapConstraint::Any, 10, WU, MapResidence::Normal, &mut p).unwrap();
    s.unmap(0x2000, 3, false, &mut p).unwrap(); // gap of 3 pages at 0x2000
    s.unmap(0x7000, 2, false, &mut p).unwrap(); // gap of 2 pages at 0x7000
    assert_eq!(s.map(MapConstraint::Any, 2, WU, MapResidence::Normal, &mut p), Ok(0x7000));
    assert_eq!(s.map(MapConstraint::Any, 2, WU, MapResidence::Normal, &mut p), Ok(0x2000));
}

#[test]
fn usage_counts_mapped_pages() {
    let mut p = phys();
    let mut s = MemSpace::new();
    s.map(MapConstraint::Any, 5, WU, MapResidence::Normal, &mut p).unwrap();
    s.map(MapConstraint::Hint(0x20_0000), 7, WU, MapResidence::Normal, &mut p).unwrap();
    s.unmap(0x2000, 2, false, &mut p).unwrap();
    let total: usize = s.mapping_list().iter().map(|m| m.1).sum();
    assert_eq!(s.get_vmem_usage(), total);
    assert_eq!(total, 10);
}

#[test]
fn readonly_mapping_pages_stay_readonly() {
    let mut p = phys();
    let mut s = MemSpace::new();
    let a = s.map(MapConstraint::Any, 1, MAPPING_FLAG_USER, MapResidence::Normal, &mut p).unwrap();
    assert_eq!(s.handle_page_fault(a, PAGE_FAULT_WRITE, &mut p), Ok(false));
    assert!(s.pte(a).is_none());
    assert_eq!(s.handle_page_fault(a, PAGE_FAULT_USER, &mut p), Ok(true));
    assert!(!s.pte(a).unwrap().write);
}

#[test]
fn fault_outside_mappings_fails() {
    let mut p = phys();
    let mut s = first_map(&mut p);
    assert_eq!(s.handle_page_fault(0x5000, 0, &mut p), Ok(false));
    let k = s.map(MapConstraint::Any, 1, MAPPING_FLAG_WRITE, MapResidence::Normal, &mut p).unwrap();
    assert_eq!(s.handle_page_fault(k, PAGE_FAULT_USER, &mut p), Ok(false));
}

#[test]
fn nolazy_materializes_pages() {
    let mut p = phys();
    let mut s = MemSpace::new();
    let a = s.map(MapConstraint::Any, 2, WU | MAPPING_FLAG_NOLAZY, MapResidence::Normal, &mut p).unwrap();
    let e0 = s.pte(a).unwrap();
    let e1 = s.pte(a + 0x1000).unwrap();
    assert!(e0.write && e0.user);
    assert_ne!(e0.frame, e1.frame);
    assert_eq!(p.ref_count(e0.frame), 1);
    s.unmap(a, 2, false, &mut p).unwrap();
    assert!(s.pte(a).is_none());
    assert_eq!(p.ref_count(e0.frame), 0);
}

#[test]
fn shared_mapping_fork_keeps_write() {
    let mut p = phys();
    let mut s = MemSpace::new();
    let a = s.map(MapConstraint::Any, 1, WU | MAPPING_FLAG_SHARED | MAPPING_FLAG_NOLAZY, MapResidence::Normal, &mut p).unwrap();
    let child = s.fork(&mut p).unwrap();
    let f = s.pte(a).unwrap().frame;
    assert!(s.pte(a).unwrap().write);
    assert!(child.pte(a).unwrap().write);
    assert_eq!(p.ref_count(f), 2);
}

#[test]
fn static_residence_frames() {
    let mut p = phys();
    let mut s = MemSpace::new();
    let res = MapResidence::Static { pages: vec![0x9000, 0x9001] };
    let a = s.map(MapConstraint::Any, 3, WU | MAPPING_FLAG_NOLAZY, res, &mut p).unwrap();
    assert_eq!(s.pte(a).unwrap().frame, 0x9000);
    assert_eq!(s.pte(a + 0x1000).unwrap().frame, 0x9001);
    assert!(!s.pte(a).unwrap().write);
    assert_eq!(p.ref_count(0x9000), 0);
    let third = s.pte(a + 0x2000).unwrap().frame;
    assert_eq!(p.ref_count(third), 1);
    // writing a static page gives it a private copy
    assert_eq!(s.handle_page_fault(a, PAGE_FAULT_WRITE, &mut p), Ok(true));
    assert_ne!(s.pte(a).unwrap().frame, 0x9000);
}

#[test]
fn map_argument_errors() {
    let mut p = phys();
    let mut s = MemSpace::new();
    assert_eq!(s.map(MapConstraint::Any, 0, WU, MapResidence::Normal, &mut p), Err(Errno::EINVAL));
    assert_eq!(s.map(MapConstraint::Hint(0x1234), 1, WU, MapResidence::Normal, &mut p), Err(Errno::EINVAL));
    assert_eq!(s.map(MapConstraint::Fixed(0x1001), 1, WU, MapResidence::Normal, &mut p), Err(Errno::EINVAL));
    assert_eq!(s.map(MapConstraint::Fixed(0), 1, WU, MapResidence::Normal, &mut p), Err(Errno::EINVAL));
    assert_eq!(s.map(MapConstraint::Fixed(0xBFFF_F000), 2, WU, MapResidence::Normal, &mut p), Err(Errno::EINVAL));
    assert_eq!(s.map(MapConstraint::Any, TOTAL_PAGES + 1, WU, MapResidence::Normal, &mut p), Err(Errno::ENOMEM));
    assert_eq!(s.unmap(0x1001, 1, false, &mut p), Err(Errno::EINVAL));
    assert_eq!(s.unmap(0x1000, 0, false, &mut p), Err(Errno::EINVAL));
    assert_eq!(s.mapping_list(), vec![]);
}

#[test]
fn hint_falls_back_when_taken() {
    let mut p = phys();
    let mut s = first_map(&mut p);
    assert_eq!(s.map(MapConstraint::Hint(0x1000), 1, WU, MapResidence::Normal, &mut p), Ok(0x3000));
    assert_eq!(s.map(MapConstraint::Hint(0x8000), 1, WU, MapResidence::Normal, &mut p), Ok(0x8000));
}

#[test]
fn fixed_map_over_gap_and_mapping() {
    let mut p = phys();
    let mut s = first_map(&mut p);
    s.map(MapConstraint::Fixed(0x2000), 4, MAPPING_FLAG_USER, MapResidence::Normal, &mut p).unwrap();
    assert_eq!(s.mapping_list(), vec![(0x1000, 1, WU), (0x2000, 4, MAPPING_FLAG_USER)]);
    assert_eq!(s.gap_list(), vec![(0x6000, (0xC000_0000 - 0x6000) / 4096)]);
    assert_eq!(s.get_vmem_usage(), 5);
}

#[test]
fn can_access_checks_flags() {
    let mut p = phys();
    let mut s = first_map(&mut p);
    s.map(MapConstraint::Fixed(0x3000), 1, MAPPING_FLAG_USER, MapResidence::Normal, &mut p).unwrap();
    assert!(s.can_access(0x1000, 0x2000, true, true));
    assert!(s.can_access(0x1800, 0x2000, true, false));
    assert!(!s.can_access(0x1800, 0x2000, true, true));
    assert!(!s.can_access(0x3800, 0x1000, false, false));
    assert!(s.can_access(0x9000, 0, true, true));
}

#[test]
fn file_residence_offsets_follow_split() {
    let mut p = phys();
    let mut s = MemSpace::new();
    let loc = FileLocation { mountpoint_id: 1, inode: 7 };
    let a = s.map(MapConstraint::Any, 4, WU, MapResidence::File { location: loc, off: 0 }, &mut p).unwrap();
    s.unmap(a + 0x1000, 1, false, &mut p).unwrap();
    assert_eq!(s.mapping_list(), vec![(a, 1, WU), (a + 0x2000, 2, WU)]);
    let too_far = MapResidence::File { location: loc, off: u64::MAX - 4096 };
    assert_eq!(s.map(MapConstraint::Any, 2, WU, too_far, &mut p), Err(Errno::EINVAL));
}

#[test]
fn set_prot_splits_and_restricts() {
    let mut p = phys();
    let mut s = MemSpace::new();
    let a = s.map(MapConstraint::Any, 4, WU | MAPPING_FLAG_NOLAZY, MapResidence::Normal, &mut p).unwrap();
    s.set_prot(a + 0x1000, 0x2000, MAPPING_FLAG_USER, &vec![]).unwrap();
    assert_eq!(
        s.mapping_list(),
        vec![(a, 1, WU | MAPPING_FLAG_NOLAZY), (a + 0x1000, 2, MAPPING_FLAG_USER), (a + 0x3000, 1, WU | MAPPING_FLAG_NOLAZY)]
    );
    assert!(s.pte(a).unwrap().write);
    assert!(!s.pte(a + 0x1000).unwrap().write);
    assert!(!s.pte(a + 0x2000).unwrap().write);
    assert!(s.pte(a + 0x3000).unwrap().write);
    assert_eq!(s.get_vmem_usage(), 4);
    assert_eq!(s.handle_page_fault(a + 0x1000, PAGE_FAULT_WRITE, &mut p), Ok(false));
    assert_eq!(s.set_prot(a + 1, 0x1000, WU, &vec![]), Err(Errno::EINVAL));
}

#[test]
fn set_prot_checks_file_permissions() {
    let mut p = phys();
    let mut s = MemSpace::new();
    let loc = FileLocation { mountpoint_id: 2, inode: 9 };
    let a = s.map(MapConstraint::Any, 2, MAPPING_FLAG_USER | MAPPING_FLAG_SHARED, MapResidence::File { location: loc, off: 0 }, &mut p).unwrap();
    let before = s.mapping_list();
    assert_eq!(s.set_prot(a, 0x2000, WU | MAPPING_FLAG_SHARED, &vec![]), Err(Errno::EACCES));
    assert_eq!(s.mapping_list(), before);
    assert_eq!(s.set_prot(a, 0x2000, WU | MAPPING_FLAG_SHARED, &vec![loc]), Ok(()));
    assert_eq!(s.mapping_list(), vec![(a, 2, WU | MAPPING_FLAG_SHARED)]);
}

#[test]
fn stack_map_returns_end() {
    let mut p = phys();
    let mut s = MemSpace::new();
    let end = s.map_stack(4, WU, &mut p).unwrap();
    assert_eq!(end, 0x5000);
    assert_eq!(s.mapping_list(), vec![(0x1000, 4, WU)]);
    s.unmap_stack(end, 4, &mut p).unwrap();
    assert_eq!(s.mapping_list(), vec![]);
    assert_eq!(s.gap_list(), vec![(0x1000, TOTAL_PAGES)]);
    assert_eq!(s.map_stack(0, WU, &mut p), Err(Errno::EINVAL));
}

#[test]
fn alloc_pages_gives_frames() {
    let mut p = phys();
    let mut s = first_map(&mut p);
    s.alloc_pages(0x1800, 0x1000, &mut p).unwrap();
    assert!(s.pte(0x1000).is_some());
    assert!(s.pte(0x2000).is_some());
    assert!(s.pte(0x3000).is_none());
    let mut empty = PhysMem::new(0, 0);
    let mut t = MemSpace::new();
    t.map(MapConstraint::Any, 1, WU, MapResidence::Normal, &mut empty).unwrap();
    assert_eq!(t.alloc_pages(0x1000, 1, &mut empty), Err(Errno::ENOMEM));
}

#[test]
fn fault_without_frames_is_out_of_memory() {
    let mut p = PhysMem::new(0x100, 0);
    let mut s = MemSpace::new();
    let a = s.map(MapConstraint::Any, 1, WU, MapResidence::Normal, &mut p).unwrap();
    assert_eq!(s.handle_page_fault(a, PAGE_FAULT_WRITE, &mut p), Err(Errno::ENOMEM));
    assert!(s.pte(a).is_none());
    assert_eq!(s.map(MapConstraint::Any, 1, WU | MAPPING_FLAG_NOLAZY, MapResidence::Normal, &mut p), Err(Errno::ENOMEM));
}

#[test]
fn freed_frames_are_reused() {
    let mut p = PhysMem::new(0x100, 1);
    let mut s = MemSpace::new();
    let a = s.map(MapConstraint::Any, 1, WU | MAPPING_FLAG_NOLAZY, MapResidence::Normal, &mut p).unwrap();
    let f = s.pte(a).unwrap().frame;
    assert_eq!(p.available_frames(), 0);
    s.unmap(a, 1, false, &mut p).unwrap();
    assert_eq!(p.available_frames(), 1);
    let b = s.map(MapConstraint::Any, 1, WU | MAPPING_FLAG_NOLAZY, MapResidence::Normal, &mut p).unwrap();
    assert_eq!(s.pte(b).unwrap().frame, f);
}

#[test]
fn exhausted_limit_fails_map_and_unmap() {
    let mut p = phys();
    let mut s = first_map(&mut p);
    s.set_alloc_limit(Some(0));
    assert_eq!(s.map(MapConstraint::Fixed(0x8000), 1, WU, MapResidence::Normal, &mut p), Err(Errno::ENOMEM));
    assert_eq!(s.unmap(0x1000, 2, false, &mut p), Err(Errno::ENOMEM));
    // nothing to allocate on a free range
    assert_eq!(s.unmap(0x8000, 2, false, &mut p), Ok(()));
    // the heap gives pages back without allocating
    assert_eq!(s.unmap(0x1000, 2, true, &mut p), Ok(()));
}

#[test]
fn string_chunks_follow_pages() {
    let mut p = phys();
    let s = first_map(&mut p);
    assert_eq!(s.string_chunk(0x1ff0, true, false), Some(0x10));
    assert_eq!(s.string_chunk(0x2000, true, true), Some(0x1000));
    assert_eq!(s.string_chunk(0x3000, false, false), None);
}

#[test]
fn fixed_map_on_free_range_round_trip() {
    let mut p = phys();
    let mut s = first_map(&mut p);
    let gaps = s.gap_list();
    let maps = s.mapping_list();
    assert_eq!(s.map(MapConstraint::Fixed(0x9000), 2, WU, MapResidence::Normal, &mut p), Ok(0x9000));
    s.unmap(0x9000, 2, false, &mut p).unwrap();
    assert_eq!(s.gap_list(), gaps);
    assert_eq!(s.mapping_list(), maps);
}

#[test]
fn fork_counts_shared_frames() {
    let mut p = phys();
    let mut s = MemSpace::new();
    let a = s.map(MapConstraint::Any, 2, WU | MAPPING_FLAG_NOLAZY, MapResidence::Normal, &mut p).unwrap();
    let f0 = s.pte(a).unwrap().frame;
    let f1 = s.pte(a + 0x1000).unwrap().frame;
    let child = s.fork(&mut p).unwrap();
    assert_eq!(p.ref_count(f0), 2);
    assert_eq!(p.ref_count(f1), 2);
    assert_eq!(child.pte(a + 0x1000).unwrap().frame, f1);
}
