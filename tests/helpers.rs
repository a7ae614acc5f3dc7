use maestro::errno::Errno;
use maestro::madt::{EntryHeader, Madt};
use maestro::mbr::{MbrTable, Partition};
use maestro::memmap::{get_phys_main, sections_end, boot_mem_stats, PhysMapInfo};
use maestro::phys::PhysMem;
use maestro::ps2::{command_outcome, command_step, config_enable_keyboard, config_for_tests, keyboard_enable_sequence, CommandStep, KEYBOARD_ACK};
use maestro::residence::{FileLocation, MapResidence};
use maestro::syscall::{_llseek, rt_sigaction, statx, FileStatus, SigAction, SEEK_CUR, SEEK_END, SEEK_SET};
use maestro::util::{bit_size_of, down_align, nbr_len, nul_index, slice_copy, DisplayableStr};

#[test]
fn down_align_clears_low_bits() {
    assert_eq!(down_align(0x1234, 0x1000), 0x1000);
    assert_eq!(down_align(0x2000, 0x1000), 0x2000);
    assert_eq!(down_align(7, 1), 7);
}

#[test]
fn bit_size_of_types() {
    assert_eq!(bit_size_of::<u32>(), 32);
    assert_eq!(bit_size_of::<u8>(), 8);
}

#[test]
fn nbr_len_counts_digits() {
    assert_eq!(nbr_len(b"123abc"), 3);
    assert_eq!(nbr_len(b"42"), 2);
    assert_eq!(nbr_len(b"x1"), 0);
    assert_eq!(nbr_len(b""), 0);
}

#[test]
fn slice_copy_shortest() {
    let mut dst = [0u8; 4];
    slice_copy(b"ab", &mut dst);
    assert_eq!(dst, [b'a', b'b', 0, 0]);
    let mut small = [9u8; 2];
    slice_copy(b"xyz", &mut small);
    assert_eq!(small, [b'x', b'y']);
}

#[test]
fn displayable_str_chars() {
    assert_eq!(DisplayableStr(b"hi").chars(), vec!['h', 'i']);
}

#[test]
fn residence_offsets() {
    let loc = FileLocation { mountpoint_id: 0, inode: 3 };
    let mut r = MapResidence::File { location: loc, off: 4096 };
    r.offset_add(2);
    match r {
        MapResidence::File { off, .. } => assert_eq!(off, 3 * 4096),
        _ => panic!("residence kind changed"),
    }
    let mut s = MapResidence::Swap { swap_file: 1, slot_id: 2, page_off: 5 };
    s.offset_add(3);
    match s {
        MapResidence::Swap { page_off, .. } => assert_eq!(page_off, 8),
        _ => panic!("residence kind changed"),
    }
    let mut st = MapResidence::Static { pages: vec![10, 11, 12] };
    st.offset_add(1);
    match st {
        MapResidence::Static { pages } => assert_eq!(pages, vec![11, 12]),
        _ => panic!("residence kind changed"),
    }
    assert!(MapResidence::Normal.is_normal());
    assert!(!MapResidence::Static { pages: vec![] }.is_normal());
}

#[test]
fn residence_pages_and_counts() {
    let mut p = PhysMem::new(0x10, 2);
    let r = MapResidence::Normal;
    let f = r.alloc_page(0, &mut p).unwrap();
    assert_eq!(f, 0x10);
    assert_eq!(p.ref_count(f), 1);
    r.free_page(0, f, &mut p);
    assert_eq!(p.ref_count(f), 0);
    let st = MapResidence::Static { pages: vec![0x500] };
    assert_eq!(st.alloc_page(0, &mut p), Ok(0x500));
    assert_eq!(p.ref_count(0x500), 0);
    // the freed frame is handed out again
    let g = st.alloc_page(1, &mut p).unwrap();
    assert_eq!(g, 0x10);
    assert_eq!(p.ref_count(g), 1);
    assert_eq!(r.alloc_page(0, &mut p), Ok(0x11));
    assert_eq!(r.alloc_page(0, &mut p), Err(Errno::ENOMEM));
}

fn madt_bytes() -> Vec<u8> {
    let mut b = vec![0u8; 44];
    b[0..4].copy_from_slice(b"APIC");
    b[4..8].copy_from_slice(&100u32.to_le_bytes());
    b[36..40].copy_from_slice(&0xfee0_0000u32.to_le_bytes());
    b
}

#[test]
fn madt_decodes_header() {
    let m = Madt::from_bytes(&madt_bytes()).unwrap();
    assert_eq!(m.get_signature(), b"APIC");
    assert_eq!(m.get_length(), 100);
    assert_eq!(&Madt::get_expected_signature(), b"MADT");
    m.foreach_entry(|_e: &EntryHeader| panic!("no entry is decoded"));
    assert!(Madt::from_bytes(&[0u8; 43]).is_none());
}

#[test]
fn madt_entry_header() {
    let h = EntryHeader::from_bytes(&[1, 8]).unwrap();
    assert_eq!(h.get_type(), 1);
    assert_eq!(h.get_length(), 8);
    assert!(EntryHeader::from_bytes(&[1]).is_none());
}

fn mbr_sector() -> Vec<u8> {
    let mut b = vec![0u8; 512];
    // entry 0: type 0x83, starts at 2048, 1000 sectors
    b[446 + 4] = 0x83;
    b[446 + 8..446 + 12].copy_from_slice(&2048u32.to_le_bytes());
    b[446 + 12..446 + 16].copy_from_slice(&1000u32.to_le_bytes());
    // entry 2: type 0x07, starts at 5000, 20 sectors
    b[446 + 32 + 4] = 0x07;
    b[446 + 32 + 8..446 + 32 + 12].copy_from_slice(&5000u32.to_le_bytes());
    b[446 + 32 + 12..446 + 32 + 16].copy_from_slice(&20u32.to_le_bytes());
    b[510] = 0x55;
    b[511] = 0xaa;
    b
}

#[test]
fn mbr_reads_used_partitions() {
    let t = MbrTable::read(&mbr_sector()).unwrap();
    assert_eq!(t.get_type(), "MBR");
    assert_eq!(
        t.get_partitions(),
        vec![Partition { offset: 2048, size: 1000 }, Partition { offset: 5000, size: 20 }]
    );
}

#[test]
fn mbr_rejects_bad_signature_or_short_sector() {
    let mut b = mbr_sector();
    b[511] = 0;
    assert!(MbrTable::read(&b).is_none());
    assert!(MbrTable::read(&mbr_sector()[..511]).is_none());
}

#[test]
fn llseek_offsets() {
    assert_eq!(_llseek(0, 10, SEEK_SET, 5, 100), Ok(10));
    assert_eq!(_llseek(0, 10, SEEK_CUR, 5, 100), Ok(15));
    assert_eq!(_llseek(0, 10, SEEK_END, 5, 100), Ok(110));
    assert_eq!(_llseek(1, 0, SEEK_SET, 0, 0), Ok(1 << 32));
    assert_eq!(_llseek(0, 0, 3, 0, 0), Err(Errno::EINVAL));
    assert_eq!(_llseek(u32::MAX, u32::MAX, SEEK_CUR, 1, 0), Err(Errno::EOVERFLOW));
}

#[test]
fn rt_sigaction_swaps_actions() {
    let none = SigAction { sa_handler: 0, sa_flags: 0, sa_mask: 0 };
    let act = SigAction { sa_handler: 0x4000, sa_flags: 1, sa_mask: 2 };
    let mut table = vec![none; 4];
    assert_eq!(rt_sigaction(2, Some(act), &mut table), Ok(none));
    assert_eq!(rt_sigaction(2, None, &mut table), Ok(act));
    assert_eq!(table[2], act);
    assert_eq!(rt_sigaction(4, Some(act), &mut table), Err(Errno::EINVAL));
    assert_eq!(rt_sigaction(-1, None, &mut table), Err(Errno::EINVAL));
}

#[test]
fn statx_fills_fields() {
    let f = FileStatus {
        hard_links: 2, uid: 1000, gid: 100, mode: 0o100644, inode: 42, size: 1234, blocks: 3,
        atime: 10, ctime: 20, mtime: 30, rdev: Some((8, 1)), dev: None,
    };
    let s = statx(&f);
    assert_eq!(s.stx_nlink, 2);
    assert_eq!(s.stx_uid, 1000);
    assert_eq!(s.stx_mode, 0o100644);
    assert_eq!(s.stx_ino, 42);
    assert_eq!(s.stx_size, 1234);
    assert_eq!(s.stx_mtime.tv_sec, 30);
    assert_eq!((s.stx_rdev_major, s.stx_rdev_minor), (8, 1));
    assert_eq!((s.stx_dev_major, s.stx_dev_minor), (0, 0));
    assert_eq!(s.stx_blksize, 512);
}

#[test]
fn memmap_computations() {
    assert_eq!(sections_end(&[Some(0x20_0000), None, Some(0x18_0000)], 0x10_0000), 0x20_0000);
    assert_eq!(sections_end(&[], 0x10_0000), 0x10_0000);
    // 130000 KiB of upper memory: (1000 + 130000) / 4 = 32750 pages
    assert_eq!(get_phys_main(0x1000, 0x20_0001, 0x10_0000, 130000), (0x20_0001, 32750 - 0x201));
    assert_eq!(boot_mem_stats(5_000_000, 10), (4194304, 40));
    let i = PhysMapInfo::default();
    assert_eq!(i.phys_main_pages, 0);
}

#[test]
fn ps2_command_decisions() {
    assert_eq!(command_step(0, KEYBOARD_ACK, KEYBOARD_ACK), CommandStep::Done);
    assert_eq!(command_step(0, 0xfe, KEYBOARD_ACK), CommandStep::Retry);
    assert_eq!(command_step(2, 0xfe, KEYBOARD_ACK), CommandStep::Fail);
    assert_eq!(command_outcome(&[0xfe, 0x55], 0x55), Ok(()));
    assert_eq!(command_outcome(&[0xfe, 0xfe, 0xfe, 0x55], 0x55), Err(()));
    assert_eq!(config_for_tests(0xff), 0b1011_1100);
    assert_eq!(config_enable_keyboard(0b1000_0000), 0b1000_0001);
    assert_eq!(keyboard_enable_sequence(), vec![0xf0, 1, 0xf3, 0, 0xf4]);
}

#[test]
fn nul_index_finds_first_zero() {
    assert_eq!(nul_index(b"ab\0c\0"), Some(2));
    assert_eq!(nul_index(b"abc"), None);
    assert_eq!(nul_index(b""), None);
}
