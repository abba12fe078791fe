//! FAT16 read path: boot-sector header, allocation table and root
//! directory parsed from raw sector bytes; 8.3 name lookup; cluster-chain
//! traversal that yields the sector reads a file needs.
use vstd::prelude::*;

verus! {

/// Number of root directory slots held.
pub const ENTRY_COUNT: usize = 512;
/// First sector of the volume.
pub const FAT_START: u64 = 36864;
/// Number of allocation-table entries held (one sector of them).
pub const FAT_SIZE: usize = 256;
/// Bytes in a sector.
pub const SECTOR_SIZE: usize = 512;
/// Bytes in a directory entry.
pub const ENTRY_SIZE: usize = 32;
/// Sectors that the 512-slot root directory takes.
pub const ROOT_DIR_SECTORS: u64 = 32;
/// Allocation-table value that ends a cluster chain.
pub const END_OF_CHAIN: u16 = 0xFFFF;
/// Length of an 8.3 name.
pub const NAME_LEN: usize = 11;

/// Little-endian 16-bit value at byte `o`.
pub open spec fn le16(b: Seq<u8>, o: int) -> int {
    b[o] as int + b[o + 1] as int * 0x100
}

/// Little-endian 32-bit value at byte `o`.
pub open spec fn le32(b: Seq<u8>, o: int) -> int {
    le16(b, o) + le16(b, o + 2) * 0x10000
}

fn read16(b: &[u8], o: usize) -> (r: u16)
    requires
        o + 2 <= b@.len(),
    ensures
        r == le16(b@, o as int),
{
    b[o] as u16 + b[o + 1] as u16 * 0x100
}

fn read32(b: &[u8], o: usize) -> (r: u32)
    requires
        o + 4 <= b@.len(),
    ensures
        r == le32(b@, o as int),
{
    let _len = b.len();
    read16(b, o) as u32 + read16(b, o + 2) as u32 * 0x10000
}

/// The BIOS parameter block of the volume's boot sector.
#[derive(Clone, Copy)]
pub struct Header {
    pub bytes_per_sector: u16,
    pub sectors_per_cluster: u8,
    pub reserved_sectors: u16,
    pub fat_count: u8,
    pub dir_entries_count: u16,
    pub total_sectors: u16,
    pub media_descriptor_type: u8,
    pub sectors_per_fat: u16,
    pub sectors_per_track: u16,
    pub heads: u16,
    pub hidden_sectors: u32,
    pub large_sector_count: u32,
    pub drive_number: u8,
    pub signature: u8,
    pub volume_id: u32,
}

impl Header {
    /// `h` is the header stored in boot sector `b`.
    pub open spec fn parsed(h: Header, b: Seq<u8>) -> bool {
        &&& h.bytes_per_sector == le16(b, 11)
        &&& h.sectors_per_cluster == b[13]
        &&& h.reserved_sectors == le16(b, 14)
        &&& h.fat_count == b[16]
        &&& h.dir_entries_count == le16(b, 17)
        &&& h.total_sectors == le16(b, 19)
        &&& h.media_descriptor_type == b[21]
        &&& h.sectors_per_fat == le16(b, 22)
        &&& h.sectors_per_track == le16(b, 24)
        &&& h.heads == le16(b, 26)
        &&& h.hidden_sectors == le32(b, 28)
        &&& h.large_sector_count == le32(b, 32)
        &&& h.drive_number == b[36]
        &&& h.signature == b[38]
        &&& h.volume_id == le32(b, 39)
    }

    /// An all-zero header.
    pub fn null() -> (r: Header)
        ensures
            r.bytes_per_sector == 0 && r.sectors_per_cluster == 0 && r.reserved_sectors == 0,
            r.fat_count == 0 && r.sectors_per_fat == 0 && r.dir_entries_count == 0,
    {
        Header {
            bytes_per_sector: 0,
            sectors_per_cluster: 0,
            reserved_sectors: 0,
            fat_count: 0,
            dir_entries_count: 0,
            total_sectors: 0,
            media_descriptor_type: 0,
            sectors_per_fat: 0,
            sectors_per_track: 0,
            heads: 0,
            hidden_sectors: 0,
            large_sector_count: 0,
            drive_number: 0,
            signature: 0,
            volume_id: 0,
        }
    }

    /// Reads the header out of boot sector `b`.
    pub fn parse(b: &[u8]) -> (r: Header)
        requires
            b@.len() >= SECTOR_SIZE,
        ensures
            Header::parsed(r, b@),
    {
        Header {
            bytes_per_sector: read16(b, 11),
            sectors_per_cluster: b[13],
            reserved_sectors: read16(b, 14),
            fat_count: b[16],
            dir_entries_count: read16(b, 17),
            total_sectors: read16(b, 19),
            media_descriptor_type: b[21],
            sectors_per_fat: read16(b, 22),
            sectors_per_track: read16(b, 24),
            heads: read16(b, 26),
            hidden_sectors: read32(b, 28),
            large_sector_count: read32(b, 32),
            drive_number: b[36],
            signature: b[38],
            volume_id: read32(b, 39),
        }
    }
}

/// A root directory entry.
#[derive(Clone, Copy)]
pub struct Entry {
    pub name: [u8; NAME_LEN],
    pub attributes: u8,
    pub reserved: u8,
    pub created_time_tenths: u8,
    pub created_time: u16,
    pub created_date: u16,
    pub accessed_date: u16,
    pub first_cluster_high: u16,
    pub modified_time: u16,
    pub modified_date: u16,
    pub first_cluster_low: u16,
    pub size: u32,
}

impl Entry {
    /// The all-zero entry, which also stands for "no such file".
    pub open spec fn is_null(self) -> bool {
        &&& self.name@ == Seq::new(NAME_LEN as nat, |i: int| 0u8)
        &&& self.attributes == 0 && self.reserved == 0 && self.created_time_tenths == 0
        &&& self.created_time == 0 && self.created_date == 0 && self.accessed_date == 0
        &&& self.first_cluster_high == 0 && self.modified_time == 0 && self.modified_date == 0
        &&& self.first_cluster_low == 0 && self.size == 0
    }

    /// `e` is the entry stored at byte `o` of `b`.
    pub open spec fn parsed(e: Entry, b: Seq<u8>, o: int) -> bool {
        &&& e.name@ == b.subrange(o, o + 11)
        &&& e.attributes == b[o + 11]
        &&& e.reserved == b[o + 12]
        &&& e.created_time_tenths == b[o + 13]
        &&& e.created_time == le16(b, o + 14)
        &&& e.created_date == le16(b, o + 16)
        &&& e.accessed_date == le16(b, o + 18)
        &&& e.first_cluster_high == le16(b, o + 20)
        &&& e.modified_time == le16(b, o + 22)
        &&& e.modified_date == le16(b, o + 24)
        &&& e.first_cluster_low == le16(b, o + 26)
        &&& e.size == le32(b, o + 28)
    }

    /// The all-zero entry.
    pub fn null() -> (r: Entry)
        ensures
            r.is_null(),
    {
        let r = Entry {
            name: [0u8; NAME_LEN],
            attributes: 0,
            reserved: 0,
            created_time_tenths: 0,
            created_time: 0,
            created_date: 0,
            accessed_date: 0,
            first_cluster_high: 0,
            modified_time: 0,
            modified_date: 0,
            first_cluster_low: 0,
            size: 0,
        };
        assert(r.name@ =~= Seq::new(NAME_LEN as nat, |i: int| 0u8));
        r
    }

    /// Whether the entry names a file: a free slot or a failed lookup has a
    /// zero first name byte.
    pub fn is_present(&self) -> (r: bool)
        ensures
            r == (self.name@[0] != 0),
    {
        self.name[0] != 0
    }

    /// Reads the entry stored at byte `o` of `b`.
    pub fn parse(b: &[u8], o: usize) -> (r: Entry)
        requires
            o + ENTRY_SIZE <= b@.len(),
        ensures
            Entry::parsed(r, b@, o as int),
    {
        let len = b.len();
        let mut name = [0u8; NAME_LEN];
        let mut i: usize = 0;
        while i < NAME_LEN
            invariant
                0 <= i <= NAME_LEN,
                o + ENTRY_SIZE <= b@.len(),
                len == b@.len(),
                forall|j: int| 0 <= j < i ==> name@[j] == b@[o + j],
            decreases NAME_LEN - i,
        {
            name[i] = b[o + i];
            i = i + 1;
        }
        assert(name@ =~= b@.subrange(o as int, o + 11));
        Entry {
            name,
            attributes: b[o + 11],
            reserved: b[o + 12],
            created_time_tenths: b[o + 13],
            created_time: read16(b, o + 14),
            created_date: read16(b, o + 16),
            accessed_date: read16(b, o + 18),
            first_cluster_high: read16(b, o + 20),
            modified_time: read16(b, o + 22),
            modified_date: read16(b, o + 24),
            first_cluster_low: read16(b, o + 26),
            size: read32(b, o + 28),
        }
    }
}

/// A contiguous read of `sectors` sectors from `lba`.
#[derive(Clone, Copy, PartialEq, Eq, Structural, Debug)]
pub struct SectorRead {
    pub lba: u64,
    pub sectors: u32,
}

/// One cluster of a file: which cluster, where it lies on disk, and at which
/// byte offset of the destination it belongs.
#[derive(Clone, Copy, PartialEq, Eq, Structural, Debug)]
pub struct ClusterRead {
    pub cluster: u16,
    pub lba: u64,
    pub sectors: u32,
    pub offset: u64,
}

/// The `k`-th cluster of the chain that starts at `start`, or -1 once the
/// chain has left the table.
pub open spec fn chain_link(table: Seq<u16>, start: int, k: nat) -> int
    decreases k,
{
    if k == 0 {
        start
    } else {
        let p = chain_link(table, start, (k - 1) as nat);
        if 0 <= p < table.len() {
            table[p] as int
        } else {
            -1
        }
    }
}

/// The chain from `start` has exactly `n` clusters: each is a data cluster
/// (2 or above) inside the table, and the table entry of the last one, and
/// of no earlier one, ends the chain.
pub open spec fn is_chain(table: Seq<u16>, start: int, n: nat) -> bool {
    &&& n >= 1
    &&& forall|k: nat| k < n ==> 2 <= #[trigger] chain_link(table, start, k) < table.len()
    &&& forall|k: nat| k + 1 < n ==> table[chain_link(table, start, k)] != END_OF_CHAIN
    &&& table[chain_link(table, start, (n - 1) as nat)] == END_OF_CHAIN
}

/// Driver state: the volume header, the root directory slots and the first
/// sector of the allocation table.
pub struct FatDriver {
    pub header: Header,
    pub entries: Vec<Entry>,
    pub table: Vec<u16>,
}

impl FatDriver {
    pub open spec fn wf(&self) -> bool {
        self.entries@.len() == ENTRY_COUNT && self.table@.len() == FAT_SIZE
    }

    /// First sector of the data region.
    pub open spec fn data_start(&self) -> int {
        FAT_START + self.header.reserved_sectors + self.header.sectors_per_fat * self.header.fat_count
            + ROOT_DIR_SECTORS
    }

    /// First sector of data cluster `c`.
    pub open spec fn cluster_start(&self, c: int) -> int {
        self.data_start() + (c - 2) * self.header.sectors_per_cluster
    }

    /// Bytes in a cluster.
    pub open spec fn cluster_bytes(&self) -> int {
        self.header.sectors_per_cluster * self.header.bytes_per_sector
    }

    /// A driver with a zero header, free directory slots and a zero table.
    pub fn new() -> (r: FatDriver)
        ensures
            r.wf(),
            forall|i: int| 0 <= i < ENTRY_COUNT ==> (#[trigger] r.entries@[i]).is_null(),
            forall|i: int| 0 <= i < FAT_SIZE ==> #[trigger] r.table@[i] == 0,
    {
        let mut entries: Vec<Entry> = Vec::new();
        let mut i: usize = 0;
        while i < ENTRY_COUNT
            invariant
                0 <= i <= ENTRY_COUNT,
                entries@.len() == i,
                forall|j: int| 0 <= j < i ==> (#[trigger] entries@[j]).is_null(),
            decreases ENTRY_COUNT - i,
        {
            entries.push(Entry::null());
            i = i + 1;
        }
        let mut table: Vec<u16> = Vec::new();
        let mut i: usize = 0;
        while i < FAT_SIZE
            invariant
                0 <= i <= FAT_SIZE,
                table@.len() == i,
                forall|j: int| 0 <= j < i ==> #[trigger] table@[j] == 0,
            decreases FAT_SIZE - i,
        {
            table.push(0);
            i = i + 1;
        }
        FatDriver { header: Header::null(), entries, table }
    }

    /// The sector that holds the volume header.
    pub fn header_read(&self) -> (r: SectorRead)
        ensures
            r.lba == FAT_START,
            r.sectors == 1,
    {
        SectorRead { lba: FAT_START, sectors: 1 }
    }

    /// Takes the header from the boot sector `sector`.
    pub fn load_header(&mut self, sector: &[u8])
        requires
            sector@.len() >= SECTOR_SIZE,
        ensures
            Header::parsed(final(self).header, sector@),
            final(self).entries == old(self).entries,
            final(self).table == old(self).table,
    {
        self.header = Header::parse(sector);
    }

    /// The allocation-table sector, right after the reserved sectors.
    pub fn table_read(&self) -> (r: SectorRead)
        ensures
            r.lba == FAT_START + self.header.reserved_sectors,
            r.sectors == 1,
    {
        SectorRead { lba: FAT_START + self.header.reserved_sectors as u64, sectors: 1 }
    }

    /// Takes the allocation table from `sector`, one little-endian 16-bit
    /// entry per two bytes.
    pub fn load_table(&mut self, sector: &[u8])
        requires
            old(self).wf(),
            sector@.len() >= SECTOR_SIZE,
        ensures
            final(self).wf(),
            forall|i: int| 0 <= i < FAT_SIZE ==> #[trigger] final(self).table@[i] == le16(sector@, 2 * i),
            final(self).header == old(self).header,
            final(self).entries == old(self).entries,
    {
        let mut i: usize = 0;
        while i < FAT_SIZE
            invariant
                0 <= i <= FAT_SIZE,
                sector@.len() >= SECTOR_SIZE,
                self.wf(),
                forall|j: int| 0 <= j < i ==> #[trigger] self.table@[j] == le16(sector@, 2 * j),
                self.header == old(self).header,
                self.entries == old(self).entries,
            decreases FAT_SIZE - i,
        {
            self.table.set(i, read16(sector, 2 * i));
            i = i + 1;
        }
    }

    /// The root directory region: after the reserved sectors and every copy
    /// of the allocation table; as many sectors as the directory slots take.
    pub fn entries_read(&self) -> (r: SectorRead)
        requires
            self.header.bytes_per_sector > 0,
        ensures
            r.lba == FAT_START + self.header.reserved_sectors + self.header.sectors_per_fat * self.header.fat_count,
            r.sectors == (ENTRY_SIZE * self.header.dir_entries_count) / (self.header.bytes_per_sector as int),
    {
        let spf = self.header.sectors_per_fat as u64;
        let fats = self.header.fat_count as u64;
        assert(spf * fats <= 0xFFFF * 0xFF) by (nonlinear_arith)
            requires
                spf <= 0xFFFF,
                fats <= 0xFF,
        ;
        let lba = FAT_START + self.header.reserved_sectors as u64 + spf * fats;
        let size = ENTRY_SIZE as u32 * self.header.dir_entries_count as u32;
        let bps = self.header.bytes_per_sector as u32;
        let sectors = size / bps;
        SectorRead { lba, sectors }
    }

    /// Takes directory slots from the root directory bytes `bytes`: slot `i`
    /// from bytes `32 * i ..`, for as many whole slots as `bytes` holds (at
    /// most 512); the other slots are kept.
    pub fn load_entries(&mut self, bytes: &[u8])
        requires
            old(self).wf(),
        ensures
            final(self).wf(),
            forall|i: int|
                0 <= i < ENTRY_COUNT && (i + 1) * ENTRY_SIZE <= bytes@.len() ==> Entry::parsed(
                    #[trigger] final(self).entries@[i],
                    bytes@,
                    i * ENTRY_SIZE,
                ),
            forall|i: int|
                0 <= i < ENTRY_COUNT && (i + 1) * ENTRY_SIZE > bytes@.len() ==> #[trigger] final(self).entries@[i]
                    == old(self).entries@[i],
            final(self).header == old(self).header,
            final(self).table == old(self).table,
    {
        let len = bytes.len();
        let mut i: usize = 0;
        while i < ENTRY_COUNT && (i + 1) * ENTRY_SIZE <= len
            invariant
                0 <= i <= ENTRY_COUNT,
                len == bytes@.len(),
                i * ENTRY_SIZE <= len,
                self.wf(),
                forall|j: int| 0 <= j < i ==> Entry::parsed(#[trigger] self.entries@[j], bytes@, j * ENTRY_SIZE),
                forall|j: int| i <= j < ENTRY_COUNT ==> #[trigger] self.entries@[j] == old(self).entries@[j],
                self.header == old(self).header,
                self.table == old(self).table,
            decreases ENTRY_COUNT - i,
        {
            let e = Entry::parse(bytes, i * ENTRY_SIZE);
            self.entries.set(i, e);
            i = i + 1;
        }
        assert forall|j: int|
            0 <= j < ENTRY_COUNT && (j + 1) * ENTRY_SIZE <= bytes@.len() implies Entry::parsed(
            #[trigger] self.entries@[j],
            bytes@,
            j * ENTRY_SIZE,
        ) by {
            if j >= i {
                assert((i + 1) * ENTRY_SIZE <= (j + 1) * ENTRY_SIZE) by (nonlinear_arith)
                    requires
                        i <= j,
                ;
            }
        }
        assert forall|j: int|
            0 <= j < ENTRY_COUNT && (j + 1) * ENTRY_SIZE > bytes@.len() implies #[trigger] self.entries@[j]
            == old(self).entries@[j] by {
            if j < i {
                assert((j + 1) * ENTRY_SIZE <= i * ENTRY_SIZE) by (nonlinear_arith)
                    requires
                        j < i,
                ;
            }
        }
    }

    /// The sectors of data cluster `cluster`.
    pub fn cluster_read(&self, cluster: u16) -> (r: SectorRead)
        requires
            cluster >= 2,
        ensures
            r.lba == self.cluster_start(cluster as int),
            r.sectors == self.header.sectors_per_cluster,
    {
        let spf = self.header.sectors_per_fat as u64;
        let fats = self.header.fat_count as u64;
        let spc = self.header.sectors_per_cluster as u64;
        let index = (cluster - 2) as u64;
        assert(spf * fats <= 0xFFFF * 0xFF) by (nonlinear_arith)
            requires
                spf <= 0xFFFF,
                fats <= 0xFF,
        ;
        assert(index * spc <= 0xFFFF * 0xFF) by (nonlinear_arith)
            requires
                index <= 0xFFFF,
                spc <= 0xFF,
        ;
        let data = FAT_START + self.header.reserved_sectors as u64 + spf * fats + ROOT_DIR_SECTORS;
        SectorRead { lba: data + index * spc, sectors: self.header.sectors_per_cluster as u32 }
    }

    /// The read of a file's first cluster, enough for a short text file; none
    /// for an entry whose first cluster is not a data cluster.
    pub fn read_file_to_buffer(&self, entry: &Entry) -> (r: Option<SectorRead>)
        ensures
            entry.first_cluster_low < 2 ==> r.is_none(),
            entry.first_cluster_low >= 2 ==> r == Some(
                SectorRead {
                    lba: self.cluster_start(entry.first_cluster_low as int) as u64,
                    sectors: self.header.sectors_per_cluster as u32,
                },
            ),
    {
        if entry.first_cluster_low < 2 {
            None
        } else {
            Some(self.cluster_read(entry.first_cluster_low))
        }
    }

    /// The reads that load the whole file of `entry`: its cluster chain is
    /// followed through the allocation table until the end-of-chain value,
    /// and the `k`-th cluster goes `k` cluster sizes into the destination.
    /// None when the chain does not end within the table: it leaves the table
    /// or the data clusters, or it runs longer than the table (it loops).
    pub fn read_file_to_target(&self, entry: &Entry) -> (r: Option<Vec<ClusterRead>>)
        requires
            self.wf(),
        ensures
            r.is_some() <==> exists|n: nat| n <= FAT_SIZE && is_chain(self.table@, entry.first_cluster_low as int, n),
            r.is_some() ==> {
                let v = r.unwrap()@;
                &&& is_chain(self.table@, entry.first_cluster_low as int, v.len())
                &&& forall|k: int|
                    0 <= k < v.len() ==> {
                        let c = chain_link(self.table@, entry.first_cluster_low as int, k as nat);
                        &&& (#[trigger] v[k]).cluster == c
                        &&& v[k].lba == self.cluster_start(c)
                        &&& v[k].sectors == self.header.sectors_per_cluster
                        &&& v[k].offset == k * self.cluster_bytes()
                    }
            },
    {
        let ghost start = entry.first_cluster_low as int;
        let ghost t = self.table@;
        let spc = self.header.sectors_per_cluster as u64;
        let bps = self.header.bytes_per_sector as u64;
        assert(spc * bps <= 0xFF * 0xFFFF) by (nonlinear_arith)
            requires
                spc <= 0xFF,
                bps <= 0xFFFF,
        ;
        let cluster_size: u64 = spc * bps;
        let mut reads: Vec<ClusterRead> = Vec::new();
        let mut cluster: u16 = entry.first_cluster_low;
        let mut k: usize = 0;
        while k < FAT_SIZE
            invariant
                self.wf(),
                t == self.table@,
                start == entry.first_cluster_low,
                0 <= k <= FAT_SIZE,
                reads@.len() == k,
                cluster as int == chain_link(t, start, k as nat),
                cluster_size == self.cluster_bytes(),
                cluster_size <= 0xFF * 0xFFFF,
                forall|j: nat| j < k ==> 2 <= #[trigger] chain_link(t, start, j) < t.len(),
                forall|j: nat| j < k ==> t[chain_link(t, start, j)] != END_OF_CHAIN,
                forall|j: int|
                    0 <= j < k ==> {
                        let c = chain_link(t, start, j as nat);
                        &&& (#[trigger] reads@[j]).cluster == c
                        &&& reads@[j].lba == self.cluster_start(c)
                        &&& reads@[j].sectors == self.header.sectors_per_cluster
                        &&& reads@[j].offset == j * self.cluster_bytes()
                    },
            decreases FAT_SIZE - k,
        {
            if cluster < 2 || cluster as usize >= self.table.len() {
                proof {
                    lemma_no_chain_from(t, start, k as nat);
                }
                return None;
            }
            let read = self.cluster_read(cluster);
            assert(k * cluster_size <= 0x100 * (0xFF * 0xFFFF)) by (nonlinear_arith)
                requires
                    k <= 0x100,
                    cluster_size <= 0xFF * 0xFFFF,
            ;
            reads.push(ClusterRead { cluster, lba: read.lba, sectors: read.sectors, offset: k as u64 * cluster_size });
            let next = self.table[cluster as usize];
            if next == END_OF_CHAIN {
                proof {
                    assert(is_chain(t, start, (k + 1) as nat));
                }
                return Some(reads);
            }
            cluster = next;
            k = k + 1;
        }
        proof {
            assert forall|n: nat| n <= FAT_SIZE implies !is_chain(t, start, n) by {
                if n >= 1 {
                    assert(t[chain_link(t, start, (n - 1) as nat)] != END_OF_CHAIN);
                }
            }
        }
        None
    }
}

/// A chain whose `k`-th link is not a data cluster inside the table, with no
/// end before it, has no length at all.
proof fn lemma_no_chain_from(t: Seq<u16>, start: int, k: nat)
    requires
        !(2 <= chain_link(t, start, k) < t.len()),
        forall|j: nat| j < k ==> t[#[trigger] chain_link(t, start, j)] != END_OF_CHAIN,
    ensures
        forall|n: nat| !is_chain(t, start, n),
{
    assert forall|n: nat| !is_chain(t, start, n) by {
        if is_chain(t, start, n) {
            if n > k {
                assert(2 <= chain_link(t, start, k) < t.len());
            } else {
                assert(t[chain_link(t, start, (n - 1) as nat)] != END_OF_CHAIN);
            }
        }
    }
}

/// Character code with ASCII lower case letters taken to upper case.
pub open spec fn upper(c: char) -> u32 {
    if 97 <= c as u32 <= 122 {
        (c as u32 - 32) as u32
    } else {
        c as u32
    }
}

/// The query's text ends at `e`: at its first NUL, or at its length.
pub open spec fn is_end(q: Seq<char>, e: int) -> bool {
    &&& 0 <= e <= q.len()
    &&& (e == q.len() || q[e] as u32 == 0)
    &&& forall|j: int| 0 <= j < e ==> #[trigger] q[j] as u32 != 0
}

/// The query's base name ends at `d`: at the first dot before `e`, or at `e`.
pub open spec fn is_dot(q: Seq<char>, e: int, d: int) -> bool {
    &&& 0 <= d <= e
    &&& (d == e || q[d] as u32 == 0x2E)
    &&& forall|j: int| 0 <= j < d ==> #[trigger] q[j] as u32 != 0x2E
}

/// Base name of at most 8 and extension of at most 3 characters.
pub open spec fn fits(e: int, d: int) -> bool {
    d <= 8 && (d == e || e - d - 1 <= 3)
}

/// Character `i` of the 11-character, space-padded, upper case 8.3 form of
/// the query with text end `e` and base end `d`.
pub open spec fn key_char(q: Seq<char>, e: int, d: int, i: int) -> u32 {
    if i < 8 {
        if i < d {
            upper(q[i])
        } else {
            0x20
        }
    } else {
        if d + 1 + (i - 8) < e {
            upper(q[d + 1 + (i - 8)])
        } else {
            0x20
        }
    }
}

/// Directory name `name` is the 8.3 form of query `q` ("readme.txt" and
/// "README.TXT" both name "README  TXT"); text after a NUL is ignored.
pub open spec fn matches(name: Seq<u8>, q: Seq<char>) -> bool {
    exists|e: int, d: int|
        is_end(q, e) && is_dot(q, e, d) && fits(e, d) && forall|i: int|
            0 <= i < NAME_LEN ==> name[i] as u32 == #[trigger] key_char(q, e, d, i)
}

/// What a lookup of `q` among `entries` returns: the first entry whose name
/// matches, or the null entry when none does.
pub open spec fn search_result(entries: Seq<Entry>, q: Seq<char>, r: Entry) -> bool {
    if exists|i: int| 0 <= i < entries.len() && matches(#[trigger] entries[i].name@, q) {
        exists|i: int|
            0 <= i < entries.len() && matches(#[trigger] entries[i].name@, q) && (forall|j: int|
                0 <= j < i ==> !matches(#[trigger] entries[j].name@, q)) && r == entries[i]
    } else {
        r.is_null()
    }
}

/// Two queries that differ only in the case of ASCII letters.
pub open spec fn same_but_case(q1: Seq<char>, q2: Seq<char>) -> bool {
    q1.len() == q2.len() && forall|i: int| 0 <= i < q1.len() ==> upper(#[trigger] q1[i]) == upper(q2[i])
}

proof fn lemma_bounds_unique(q: Seq<char>, e1: int, d1: int, e2: int, d2: int)
    requires
        is_end(q, e1),
        is_dot(q, e1, d1),
        is_end(q, e2),
        is_dot(q, e2, d2),
    ensures
        e1 == e2,
        d1 == d2,
{
    if e1 < e2 {
        assert(q[e1] as u32 != 0);
    } else if e2 < e1 {
        assert(q[e2] as u32 != 0);
    }
    if d1 < d2 {
        assert(q[d1] as u32 != 0x2E);
    } else if d2 < d1 {
        assert(q[d2] as u32 != 0x2E);
    }
}

/// The text end and base end of a query.
fn name_bounds(q: &[char]) -> (r: (usize, usize))
    ensures
        is_end(q@, r.0 as int),
        is_dot(q@, r.0 as int, r.1 as int),
{
    let len = q.len();
    let mut e: usize = 0;
    while e < len && q[e] as u32 != 0
        invariant
            0 <= e <= len,
            len == q@.len(),
            forall|j: int| 0 <= j < e ==> #[trigger] q@[j] as u32 != 0,
        decreases len - e,
    {
        e = e + 1;
    }
    let mut d: usize = 0;
    while d < e && q[d] as u32 != 0x2E
        invariant
            0 <= d <= e <= len,
            len == q@.len(),
            forall|j: int| 0 <= j < d ==> #[trigger] q@[j] as u32 != 0x2E,
        decreases e - d,
    {
        d = d + 1;
    }
    (e, d)
}

/// ASCII upper case of a character's code.
fn upper_code(c: char) -> (r: u32)
    ensures
        r == upper(c),
{
    let code = c as u32;
    if 97 <= code && code <= 122 {
        code - 32
    } else {
        code
    }
}

impl FatDriver {
    /// Looks `name` up in the root directory: case-insensitively, in 8.3
    /// form (base name and extension padded with spaces to 8 and 3
    /// characters), ignoring anything after a NUL. Returns the first entry in
    /// slot order that matches, or the null entry (first name byte zero).
    pub fn search_file(&self, name: &[char]) -> (r: Entry)
        requires
            self.wf(),
        ensures
            search_result(self.entries@, name@, r),
    {
        let ghost q = name@;
        let (e, d) = name_bounds(name);
        let fit = d <= 8 && (d == e || e - d - 1 <= 3);
        if !fit {
            proof {
                assert forall|i: int| 0 <= i < self.entries@.len() implies !matches(#[trigger] self.entries@[i].name@, q) by {
                    if matches(self.entries@[i].name@, q) {
                        let (e2, d2) = choose|e2: int, d2: int|
                            is_end(q, e2) && is_dot(q, e2, d2) && fits(e2, d2) && forall|j: int|
                                0 <= j < NAME_LEN ==> self.entries@[i].name@[j] as u32 == #[trigger] key_char(q, e2, d2, j);
                        lemma_bounds_unique(q, e as int, d as int, e2, d2);
                    }
                }
            }
            return Entry::null();
        }
        let mut key: Vec<u32> = Vec::new();
        let mut k: usize = 0;
        while k < NAME_LEN
            invariant
                0 <= k <= NAME_LEN,
                key@.len() == k,
                is_end(q, e as int),
                is_dot(q, e as int, d as int),
                fits(e as int, d as int),
                q == name@,
                forall|j: int| 0 <= j < k ==> key@[j] == #[trigger] key_char(q, e as int, d as int, j),
            decreases NAME_LEN - k,
        {
            let c: u32 = if k < 8 {
                if k < d {
                    upper_code(name[k])
                } else {
                    0x20
                }
            } else {
                if d + 1 + (k - 8) < e {
                    upper_code(name[d + 1 + (k - 8)])
                } else {
                    0x20
                }
            };
            key.push(c);
            k = k + 1;
        }
        let mut i: usize = 0;
        while i < self.entries.len()
            invariant
                self.wf(),
                0 <= i <= ENTRY_COUNT,
                key@.len() == NAME_LEN,
                is_end(q, e as int),
                is_dot(q, e as int, d as int),
                fits(e as int, d as int),
                q == name@,
                forall|j: int| 0 <= j < NAME_LEN ==> key@[j] == #[trigger] key_char(q, e as int, d as int, j),
                forall|j: int| 0 <= j < i ==> !matches(#[trigger] self.entries@[j].name@, q),
            decreases ENTRY_COUNT - i,
        {
            let entry = self.entries[i];
            let mut j: usize = 0;
            let mut same = true;
            while j < NAME_LEN
                invariant
                    0 <= j <= NAME_LEN,
                    key@.len() == NAME_LEN,
                    same == forall|l: int| 0 <= l < j ==> entry.name@[l] as u32 == key@[l],
                decreases NAME_LEN - j,
            {
                if entry.name[j] as u32 != key[j] {
                    same = false;
                }
                j = j + 1;
            }
            if same {
                proof {
                    assert(matches(entry.name@, q));
                    assert(self.entries@[i as int] == entry);
                }
                return entry;
            }
            proof {
                if matches(entry.name@, q) {
                    let (e2, d2) = choose|e2: int, d2: int|
                        is_end(q, e2) && is_dot(q, e2, d2) && fits(e2, d2) && forall|l: int|
                            0 <= l < NAME_LEN ==> entry.name@[l] as u32 == #[trigger] key_char(q, e2, d2, l);
                    lemma_bounds_unique(q, e as int, d as int, e2, d2);
                    assert forall|l: int| 0 <= l < NAME_LEN implies entry.name@[l] as u32 == key@[l] by {
                        assert(entry.name@[l] as u32 == key_char(q, e2, d2, l));
                    }
                }
            }
            i = i + 1;
        }
        Entry::null()
    }
}

/// Lookup is case-insensitive: two queries that differ only in the case of
/// ASCII letters find the same entry.
pub proof fn lemma_search_ignores_case(entries: Seq<Entry>, q1: Seq<char>, q2: Seq<char>, r1: Entry, r2: Entry)
    requires
        same_but_case(q1, q2),
        search_result(entries, q1, r1),
        search_result(entries, q2, r2),
    ensures
        r1 == r2,
{
    assert forall|name: Seq<u8>| matches(name, q1) == matches(name, q2) by {
        lemma_match_ignores_case(name, q1, q2);
        lemma_match_ignores_case(name, q2, q1);
    }
    if exists|i: int| 0 <= i < entries.len() && matches(#[trigger] entries[i].name@, q1) {
        let i1 = choose|i: int|
            0 <= i < entries.len() && matches(#[trigger] entries[i].name@, q1) && (forall|j: int|
                0 <= j < i ==> !matches(#[trigger] entries[j].name@, q1)) && r1 == entries[i];
        assert(matches(entries[i1].name@, q2));
        let i2 = choose|i: int|
            0 <= i < entries.len() && matches(#[trigger] entries[i].name@, q2) && (forall|j: int|
                0 <= j < i ==> !matches(#[trigger] entries[j].name@, q2)) && r2 == entries[i];
        if i1 < i2 {
            assert(!matches(entries[i1].name@, q2));
        } else if i2 < i1 {
            assert(!matches(entries[i2].name@, q1));
        }
    } else {
        assert(!exists|i: int| 0 <= i < entries.len() && matches(#[trigger] entries[i].name@, q2)) by {
            if exists|i: int| 0 <= i < entries.len() && matches(#[trigger] entries[i].name@, q2) {
                let i = choose|i: int| 0 <= i < entries.len() && matches(#[trigger] entries[i].name@, q2);
                assert(matches(entries[i].name@, q1));
            }
        }
        assert(r1.name@ =~= r2.name@);
        assert(r1.name == r2.name);
    }
}

proof fn lemma_match_ignores_case(name: Seq<u8>, q1: Seq<char>, q2: Seq<char>)
    requires
        same_but_case(q1, q2),
    ensures
        matches(name, q1) ==> matches(name, q2),
{
    if matches(name, q1) {
        let (e, d) = choose|e: int, d: int|
            is_end(q1, e) && is_dot(q1, e, d) && fits(e, d) && forall|i: int|
                0 <= i < NAME_LEN ==> name[i] as u32 == #[trigger] key_char(q1, e, d, i);
        assert forall|j: int| 0 <= j < q1.len() implies (q1[j] as u32 == 0) == (q2[j] as u32 == 0) && (q1[j] as u32
            == 0x2E) == (q2[j] as u32 == 0x2E) by {
            assert(upper(q1[j]) == upper(q2[j]));
        }
        assert(is_end(q2, e));
        assert(is_dot(q2, e, d));
        assert forall|i: int| 0 <= i < NAME_LEN implies name[i] as u32 == #[trigger] key_char(q2, e, d, i) by {
            assert(name[i] as u32 == key_char(q1, e, d, i));
            if i < 8 && i < d {
                assert(upper(q1[i]) == upper(q2[i]));
            } else if i >= 8 && d + 1 + (i - 8) < e {
                assert(upper(q1[d + 1 + (i - 8)]) == upper(q2[d + 1 + (i - 8)]));
            }
        }
    }
}

} // verus!
