//! The boot loader's flat global descriptor table: a null descriptor, then
//! 4 GiB code and data segments at base 0, ring 0, 32-bit, page granular.
use vstd::prelude::*;

verus! {

/// Descriptors in the table.
pub const GDT_ENTRIES: usize = 3;
/// Size of one descriptor, in bytes.
pub const GDT_ENTRY_SIZE: usize = 8;
/// Access byte of the code segment: present, ring 0, code, readable.
pub const CODE_ACCESS: u64 = 0x9A;
/// Access byte of the data segment: present, ring 0, data, writable.
pub const DATA_ACCESS: u64 = 0x92;
/// Flags nibble: 4 KiB granularity, 32-bit.
pub const SEGMENT_FLAGS: u64 = 0xC;

/// A segment descriptor with base 0, limit 0xFFFFF, access byte `access`
/// and flags nibble `flags`, in the processor's bit layout.
pub open spec fn flat_segment(access: u64, flags: u64) -> int {
    0xFFFF + access * 0x100_0000_0000 + 0xF * 0x1_0000_0000_0000 + flags * 0x10_0000_0000_0000
}

/// One descriptor.
#[derive(Clone, Copy)]
pub struct GdtEntry {
    pub entry: u64,
}

/// The size-and-address record that the processor loads the table from.
#[derive(Clone, Copy)]
pub struct GdtDescriptor {
    pub size: u16,
    pub offset: u32,
}

/// Null, code and data descriptors.
pub struct GlobalDescriptorTable {
    pub entries: [GdtEntry; GDT_ENTRIES],
}

impl GlobalDescriptorTable {
    /// The flat table.
    pub fn new() -> (r: GlobalDescriptorTable)
        ensures
            r.entries@[0].entry == 0,
            r.entries@[1].entry == flat_segment(CODE_ACCESS, SEGMENT_FLAGS),
            r.entries@[2].entry == flat_segment(DATA_ACCESS, SEGMENT_FLAGS),
    {
        let limit: u64 = 0xFFFF | (0xF << 48u64);
        let access: u64 = (1u64 << 47u64) | (1u64 << 44u64) | (1u64 << 41u64);
        let flags: u64 = (1u64 << 55u64) | (1u64 << 54u64);
        let executable: u64 = 1u64 << 43u64;
        let code = limit | access | flags | executable;
        let data = limit | access | flags;
        assert(code == 0x00CF_9A00_0000_FFFF) by (bit_vector)
            requires
                code == (0xFFFFu64 | (0xFu64 << 48u64)) | ((1u64 << 47u64) | (1u64 << 44u64) | (1u64 << 41u64)) | (
                (1u64 << 55u64) | (1u64 << 54u64)) | (1u64 << 43u64),
        ;
        assert(data == 0x00CF_9200_0000_FFFF) by (bit_vector)
            requires
                data == (0xFFFFu64 | (0xFu64 << 48u64)) | ((1u64 << 47u64) | (1u64 << 44u64) | (1u64 << 41u64)) | (
                (1u64 << 55u64) | (1u64 << 54u64)),
        ;
        GlobalDescriptorTable {
            entries: [GdtEntry { entry: 0 }, GdtEntry { entry: code }, GdtEntry { entry: data }],
        }
    }

    /// The record to load the table from, when it lies at `address`.
    pub fn load(&self, address: u32) -> (r: GdtDescriptor)
        ensures
            r.size == GDT_ENTRIES * GDT_ENTRY_SIZE - 1,
            r.offset == address,
    {
        GdtDescriptor { size: (GDT_ENTRIES * GDT_ENTRY_SIZE - 1) as u16, offset: address }
    }
}

} // verus!
