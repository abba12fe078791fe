//! Page directory and page tables: a fixed identity map of the low memory
//! and one table that is pointed, before each dispatch, at the running
//! task's execution window.
use vstd::prelude::*;

verus! {

/// Entries in a page directory or page table.
pub const PAGE_ENTRIES: usize = 1024;
/// Bytes in a page.
pub const PAGE_SIZE: u32 = 0x1000;
/// Bytes that one page table maps.
pub const TABLE_SPAN: u32 = 0x0040_0000;
/// Page tables kept.
pub const TABLE_COUNT: usize = 16;
/// Page tables that the identity map uses (the first 32 MiB).
pub const IDENTITY_TABLES: usize = 8;
/// Directory slot of the table that maps the execution window.
pub const WINDOW_TABLE: usize = 8;
/// Present and writable.
pub const PRESENT_WRITABLE: u32 = 0b011;
/// Writable but not present: an unused directory slot.
pub const NOT_PRESENT: u32 = 0x0000_0002;

/// Entry `i` of a table that maps the 4 MiB from `from`.
pub open spec fn table_entry(from: u32, i: int) -> u32 {
    ((i * PAGE_SIZE + from) as u32) | PRESENT_WRITABLE
}

/// A page table: 1024 page entries.
#[derive(Clone, Copy)]
pub struct PageTable {
    pub entries: [u32; PAGE_ENTRIES],
}

impl PageTable {
    /// A table with no page present.
    pub fn new() -> (r: PageTable)
        ensures
            forall|i: int| 0 <= i < PAGE_ENTRIES ==> r.entries@[i] == 0,
    {
        PageTable { entries: [0u32; PAGE_ENTRIES] }
    }

    /// `self` maps the 4 MiB that start at `from`, page by page.
    pub open spec fn maps(&self, from: u32) -> bool {
        forall|i: int| 0 <= i < PAGE_ENTRIES ==> #[trigger] self.entries@[i] == table_entry(from, i)
    }

    /// Maps the 4 MiB that start at `from`, present and writable; the range
    /// must lie below 4 GiB.
    pub fn set(&mut self, from: u32)
        requires
            from as int + (PAGE_ENTRIES - 1) * PAGE_SIZE <= u32::MAX,
        ensures
            final(self).maps(from),
    {
        let mut i: usize = 0;
        while i < PAGE_ENTRIES
            invariant
                0 <= i <= PAGE_ENTRIES,
                from as int + (PAGE_ENTRIES - 1) * PAGE_SIZE <= u32::MAX,
                forall|j: int| 0 <= j < i ==> #[trigger] self.entries@[j] == table_entry(from, j),
            decreases PAGE_ENTRIES - i,
        {
            self.entries[i] = ((i as u32) * PAGE_SIZE + from) | PRESENT_WRITABLE;
            i = i + 1;
        }
    }
}

/// The page directory.
pub struct PageDirectory {
    pub entries: [u32; PAGE_ENTRIES],
}

impl PageDirectory {
    /// A directory with no table present.
    pub fn new() -> (r: PageDirectory)
        ensures
            forall|i: int| 0 <= i < PAGE_ENTRIES ==> r.entries@[i] == NOT_PRESENT,
    {
        PageDirectory { entries: [NOT_PRESENT; PAGE_ENTRIES] }
    }

    /// Registers the page table at address `table` in slot `index`, present
    /// and writable; other slots are kept.
    pub fn set_table(&mut self, index: usize, table: u32)
        requires
            index < PAGE_ENTRIES,
        ensures
            final(self).entries@ == old(self).entries@.update(index as int, table | PRESENT_WRITABLE),
    {
        self.entries[index] = table | PRESENT_WRITABLE;
    }

    /// Identity-maps the first 32 MiB: table `i` (at address `addresses[i]`)
    /// maps the 4 MiB from `i * 4 MiB` and is registered in slot `i`.
    pub fn identity(&mut self, tables: &mut Vec<PageTable>, addresses: &[u32])
        requires
            old(tables)@.len() >= IDENTITY_TABLES,
            addresses@.len() >= IDENTITY_TABLES,
        ensures
            final(tables)@.len() == old(tables)@.len(),
            forall|i: int| 0 <= i < IDENTITY_TABLES ==> (#[trigger] final(tables)@[i]).maps((i * TABLE_SPAN) as u32),
            forall|i: int| IDENTITY_TABLES <= i < old(tables)@.len() ==> #[trigger] final(tables)@[i] == old(tables)@[i],
            forall|i: int|
                0 <= i < PAGE_ENTRIES ==> #[trigger] final(self).entries@[i] == if i < IDENTITY_TABLES {
                    addresses@[i] | PRESENT_WRITABLE
                } else {
                    old(self).entries@[i]
                },
    {
        let mut i: usize = 0;
        while i < IDENTITY_TABLES
            invariant
                0 <= i <= IDENTITY_TABLES,
                tables@.len() == old(tables)@.len(),
                old(tables)@.len() >= IDENTITY_TABLES,
                addresses@.len() >= IDENTITY_TABLES,
                forall|j: int| 0 <= j < i ==> (#[trigger] tables@[j]).maps((j * TABLE_SPAN) as u32),
                forall|j: int| i <= j < tables@.len() ==> #[trigger] tables@[j] == old(tables)@[j],
                forall|j: int|
                    0 <= j < PAGE_ENTRIES ==> #[trigger] self.entries@[j] == if j < i {
                        addresses@[j] | PRESENT_WRITABLE
                    } else {
                        old(self).entries@[j]
                    },
            decreases IDENTITY_TABLES - i,
        {
            let mut t = tables[i];
            t.set(i as u32 * TABLE_SPAN);
            tables.set(i, t);
            self.set_table(i, addresses[i]);
            i = i + 1;
        }
    }
}

} // verus!
