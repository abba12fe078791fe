//! Sector loading of the two boot stages. The firmware call that reads one
//! sector is made by the caller; these types decide which sectors go where.
use vstd::prelude::*;

verus! {

/// Bytes in a sector.
pub const SECTOR_BYTES: u16 = 512;

/// One sector read: `lba` into memory at `target`.
#[derive(Clone, Copy, PartialEq, Eq, Structural, Debug)]
pub struct SectorLoad {
    pub lba: u64,
    pub target: u32,
}

/// First-stage reader: each sector goes straight to the next 512 bytes of a
/// low-memory destination.
pub struct DiskReader {
    pub lba: u64,
    pub target: u16,
}

impl DiskReader {
    pub fn new(lba: u64, target: u16) -> (r: DiskReader)
        ensures
            r.lba == lba,
            r.target == target,
    {
        DiskReader { lba, target }
    }

    /// The reads of `sectors` consecutive sectors: sector `k` from
    /// `lba + k` to `target + 512 * k`. The reader moves past them.
    pub fn read_sectors(&mut self, sectors: u16) -> (r: Vec<SectorLoad>)
        requires
            old(self).target + SECTOR_BYTES * sectors <= u16::MAX,
            old(self).lba + sectors <= u64::MAX,
        ensures
            r@.len() == sectors,
            forall|k: int|
                0 <= k < sectors ==> #[trigger] r@[k] == (SectorLoad {
                    lba: (old(self).lba + k) as u64,
                    target: (old(self).target + SECTOR_BYTES * k) as u32,
                }),
            final(self).lba == old(self).lba + sectors,
            final(self).target == old(self).target + SECTOR_BYTES * sectors,
    {
        let mut r: Vec<SectorLoad> = Vec::new();
        let mut left = sectors;
        while left > 0
            invariant
                left <= sectors,
                r@.len() == sectors - left,
                self.lba == old(self).lba + (sectors - left),
                self.target == old(self).target + SECTOR_BYTES * (sectors - left),
                old(self).target + SECTOR_BYTES * sectors <= u16::MAX,
                old(self).lba + sectors <= u64::MAX,
                forall|k: int|
                    0 <= k < sectors - left ==> #[trigger] r@[k] == (SectorLoad {
                        lba: (old(self).lba + k) as u64,
                        target: (old(self).target + SECTOR_BYTES * k) as u32,
                    }),
            decreases left,
        {
            r.push(SectorLoad { lba: self.lba, target: self.target as u32 });
            self.target = self.target + SECTOR_BYTES;
            self.lba = self.lba + 1;
            left = left - 1;
        }
        r
    }
}

/// One sector copied through a bounce buffer: read `lba` into `buffer`,
/// then copy its 512 bytes to `target`.
#[derive(Clone, Copy, PartialEq, Eq, Structural, Debug)]
pub struct SectorCopy {
    pub lba: u64,
    pub buffer: u16,
    pub target: u32,
}

/// Second-stage reader: sectors land in a low-memory buffer and are copied
/// from there to any 32-bit destination.
pub struct Disk {
    pub lba: u64,
    pub buffer: u16,
}

impl Disk {
    pub fn new() -> (r: Disk)
        ensures
            r.lba == 0 && r.buffer == 0,
    {
        Disk { lba: 0, buffer: 0 }
    }

    /// Starts at sector `lba`, bouncing through `buffer`.
    pub fn init(&mut self, lba: u64, buffer: u16)
        ensures
            final(self).lba == lba,
            final(self).buffer == buffer,
    {
        self.lba = lba;
        self.buffer = buffer;
    }

    /// The copies that load `sectors` consecutive sectors to `target`:
    /// sector `k` from `lba + k` to `target + 512 * k`. The disk moves past
    /// them.
    pub fn read_sectors(&mut self, sectors: u16, target: u32) -> (r: Vec<SectorCopy>)
        requires
            target + SECTOR_BYTES * sectors <= u32::MAX,
            old(self).lba + sectors <= u64::MAX,
        ensures
            r@.len() == sectors,
            forall|k: int|
                0 <= k < sectors ==> #[trigger] r@[k] == (SectorCopy {
                    lba: (old(self).lba + k) as u64,
                    buffer: old(self).buffer,
                    target: (target + SECTOR_BYTES * k) as u32,
                }),
            final(self).lba == old(self).lba + sectors,
            final(self).buffer == old(self).buffer,
    {
        let mut r: Vec<SectorCopy> = Vec::new();
        let mut left = sectors;
        let mut current = target;
        while left > 0
            invariant
                left <= sectors,
                r@.len() == sectors - left,
                self.lba == old(self).lba + (sectors - left),
                self.buffer == old(self).buffer,
                current == target + SECTOR_BYTES * (sectors - left),
                target + SECTOR_BYTES * sectors <= u32::MAX,
                old(self).lba + sectors <= u64::MAX,
                forall|k: int|
                    0 <= k < sectors - left ==> #[trigger] r@[k] == (SectorCopy {
                        lba: (old(self).lba + k) as u64,
                        buffer: old(self).buffer,
                        target: (target + SECTOR_BYTES * k) as u32,
                    }),
            decreases left,
        {
            r.push(SectorCopy { lba: self.lba, buffer: self.buffer, target: current });
            current = current + SECTOR_BYTES as u32;
            self.lba = self.lba + 1;
            left = left - 1;
        }
        r
    }
}

} // verus!
