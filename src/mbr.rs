//! The Master Boot Record (MBR) partition table, stored on the first sector of a disk.
use vstd::prelude::*;
use crate::bytes::{le16, le32, read_u16, read_u32};

verus! {

/// The signature of the MBR partition table.
pub const MBR_SIGNATURE: u16 = 0xaa55;
/// The size of the table's sector in bytes.
pub const MBR_SIZE: usize = 512;
/// The offset of the partition entries in the sector.
pub const PARTITIONS_OFFSET: usize = 446;

/// A partition of a disk, in sectors.
#[derive(Clone, Copy, Debug, PartialEq, Eq, Structural)]
pub struct Partition {
    /// The first sector of the partition.
    pub offset: u64,
    /// The number of sectors in the partition.
    pub size: u64,
}

/// An MBR partition entry.
#[derive(Clone, Copy, Debug)]
struct MbrPartition {
    /// Partition attributes.
    attrs: u8,
    /// The type of the partition (zero for an unused entry).
    partition_type: u8,
    /// LBA address of partition start.
    lba_start: u32,
    /// The number of sectors in the partition.
    sectors_count: u32,
}

/// An MBR partition table.
pub struct MbrTable {
    /// The disk signature.
    disk_signature: u32,
    /// The four partition entries.
    partitions: [MbrPartition; 4],
    /// The partition table signature.
    signature: u16,
}

/// The partition described by entry `i` of the sector `b`, as `(type, first sector, sector count)`.
pub open spec fn entry_of(b: Seq<u8>, i: int) -> (u8, u32, u32) {
    let o = PARTITIONS_OFFSET + 16 * i;
    (b[o + 4], le32(b, o + 8) as u32, le32(b, o + 12) as u32)
}

/// The partitions of the entries `e` that are in use, in order.
pub open spec fn used_partitions(e: Seq<(u8, u32, u32)>) -> Seq<Partition>
    decreases e.len(),
{
    if e.len() == 0 {
        Seq::empty()
    } else {
        let last = e.last();
        let rest = used_partitions(e.drop_last());
        if last.0 != 0 {
            rest.push(Partition { offset: last.1 as u64, size: last.2 as u64 })
        } else {
            rest
        }
    }
}

impl MbrTable {
    /// The entries, as `(type, first sector, sector count)`.
    pub closed spec fn entries(&self) -> Seq<(u8, u32, u32)> {
        Seq::new(4, |i: int| (self.partitions[i].partition_type, self.partitions[i].lba_start,
            self.partitions[i].sectors_count))
    }

    fn read_entry(b: &[u8], i: usize) -> (r: MbrPartition)
        requires
            b@.len() >= MBR_SIZE,
            i < 4,
        ensures
            (r.partition_type, r.lba_start, r.sectors_count) == entry_of(b@, i as int),
    {
        let o = PARTITIONS_OFFSET + 16 * i;
        MbrPartition {
            attrs: b[o],
            partition_type: b[o + 4],
            lba_start: read_u32(b, o + 8),
            sectors_count: read_u32(b, o + 12),
        }
    }

    /// Reads the table from the first sector of a disk. There is none when the sector is short
    /// or does not end with the MBR signature.
    pub fn read(b: &[u8]) -> (r: Option<MbrTable>)
        ensures
            r is Some <==> b@.len() >= MBR_SIZE && le16(b@, 510) == MBR_SIGNATURE,
            r matches Some(t) ==> t.entries() == Seq::new(4, |i: int| entry_of(b@, i)),
    {
        if b.len() < MBR_SIZE {
            return None;
        }
        let signature = read_u16(b, 510);
        if signature != MBR_SIGNATURE {
            return None;
        }
        let partitions = [Self::read_entry(b, 0), Self::read_entry(b, 1), Self::read_entry(b, 2), Self::read_entry(b, 3)];
        let t = MbrTable { disk_signature: read_u32(b, 440), partitions, signature };
        assert(t.entries() =~= Seq::new(4, |i: int| entry_of(b@, i)));
        Some(t)
    }

    /// Returns the name of the table's type.
    pub fn get_type(&self) -> (r: &'static str)
        ensures
            r@ == "MBR"@,
    {
        "MBR"
    }

    /// Returns the partitions whose entries are in use, in order.
    pub fn get_partitions(&self) -> (r: Vec<Partition>)
        ensures
            r@ == used_partitions(self.entries()),
    {
        let mut r: Vec<Partition> = Vec::new();
        let mut i: usize = 0;
        while i < 4
            invariant
                i <= 4,
                r@ == used_partitions(self.entries().subrange(0, i as int)),
            decreases 4 - i,
        {
            let p = self.partitions[i];
            if p.partition_type != 0 {
                r.push(Partition { offset: p.lba_start as u64, size: p.sectors_count as u64 });
            }
            assert(self.entries().subrange(0, i + 1).drop_last() =~= self.entries().subrange(0, i as int));
            i += 1;
        }
        assert(self.entries().subrange(0, 4) =~= self.entries());
        r
    }
}

} // verus!
