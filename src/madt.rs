//! ACPI's Multiple APIC Description Table (MADT).
use vstd::prelude::*;
use crate::bytes::{le32, read_u32};

verus! {

/// The size of the MADT's fixed part in bytes.
pub const MADT_HEADER_SIZE: usize = 44;

/// The Multiple APIC Description Table.
pub struct Madt {
    /// The signature of the structure.
    signature: [u8; 4],
    /// The length of the structure.
    length: u32,
    /// The revision number of the structure.
    revision: u8,
    /// The checksum to check against all the structure's bytes.
    checksum: u8,
    /// An OEM-supplied string that identifies the OEM.
    oemid: [u8; 6],
    /// The OEM's identifier of the table.
    oem_table_id: [u8; 8],
    /// The OEM's revision of the table.
    oemrevision: u32,
    /// The identifier of the table's creator.
    creator_id: u32,
    /// The creator's revision.
    creator_revision: u32,
    /// The physical address of the local APIC.
    local_apic_addr: u32,
    /// The table's flags.
    flags: u32,
}

impl Madt {
    /// The signature the table must carry.
    pub open spec fn spec_expected_signature() -> Seq<u8> {
        seq![77u8, 65u8, 68u8, 84u8]
    }

    /// The table's signature bytes.
    pub closed spec fn signature_bytes(&self) -> Seq<u8> {
        self.signature@
    }

    /// The table's length.
    pub closed spec fn length_value(&self) -> u32 {
        self.length
    }

    /// The local APIC address.
    pub closed spec fn apic_addr(&self) -> u32 {
        self.local_apic_addr
    }

    /// Decodes the fixed part of the table from its first 44 bytes, laid out as in memory.
    pub fn from_bytes(b: &[u8]) -> (r: Option<Madt>)
        ensures
            b@.len() < MADT_HEADER_SIZE <==> r is None,
            r matches Some(m) ==> m.signature_bytes() == b@.subrange(0, 4) && m.length_value() == le32(b@, 4)
                && m.apic_addr() == le32(b@, 36),
    {
        if b.len() < MADT_HEADER_SIZE {
            return None;
        }
        let signature = [b[0], b[1], b[2], b[3]];
        assert(signature@ =~= b@.subrange(0, 4));
        let oemid = [b[10], b[11], b[12], b[13], b[14], b[15]];
        let oem_table_id = [b[16], b[17], b[18], b[19], b[20], b[21], b[22], b[23]];
        Some(Madt {
            signature,
            length: read_u32(b, 4),
            revision: b[8],
            checksum: b[9],
            oemid,
            oem_table_id,
            oemrevision: read_u32(b, 24),
            creator_id: read_u32(b, 28),
            creator_revision: read_u32(b, 32),
            local_apic_addr: read_u32(b, 36),
            flags: read_u32(b, 40),
        })
    }

    /// Executes the given closure for each entry in the MADT. Entries are not decoded yet, so
    /// the closure is never called.
    pub fn foreach_entry<F: Fn(&EntryHeader)>(&self, _f: F) {
    }

    /// Returns the signature the table must carry.
    pub fn get_expected_signature() -> (r: [u8; 4])
        ensures
            r@ == Self::spec_expected_signature(),
    {
        let r = [77u8, 65u8, 68u8, 84u8];
        assert(r@ =~= Self::spec_expected_signature());
        r
    }

    /// Returns the table's signature.
    pub fn get_signature(&self) -> (r: &[u8; 4])
        ensures
            r@ == self.signature_bytes(),
    {
        &self.signature
    }

    /// Returns the table's length.
    pub fn get_length(&self) -> (r: usize)
        ensures
            r == self.length_value(),
    {
        self.length as usize
    }
}

/// An MADT entry header.
pub struct EntryHeader {
    /// The entry type.
    entry_type: u8,
    /// The entry length.
    length: u8,
}

impl EntryHeader {
    pub closed spec fn entry_type(&self) -> u8 {
        self.entry_type
    }

    pub closed spec fn entry_length(&self) -> u8 {
        self.length
    }

    /// Decodes an entry header from its two bytes.
    pub fn from_bytes(b: &[u8]) -> (r: Option<EntryHeader>)
        ensures
            b@.len() < 2 <==> r is None,
            r matches Some(h) ==> h.entry_type() == b@[0] && h.entry_length() == b@[1],
    {
        if b.len() < 2 {
            return None;
        }
        Some(EntryHeader { entry_type: b[0], length: b[1] })
    }

    /// Returns the type of the entry.
    pub fn get_type(&self) -> (r: u8)
        ensures
            r == self.entry_type(),
    {
        self.entry_type
    }

    /// Returns the length of the entry.
    pub fn get_length(&self) -> (r: u8)
        ensures
            r == self.entry_length(),
    {
        self.length
    }
}

} // verus!
