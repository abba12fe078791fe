//! Interrupt descriptor table and the exception catalogue.
use vstd::prelude::*;

verus! {

/// Number of entries in the table.
pub const IDT_ENTRIES: usize = 256;

/// Size of one entry, in bytes.
pub const IDT_ENTRY_SIZE: usize = 8;

/// Segment selector of every entry: kernel code segment, ring 0.
pub const ENTRY_SELECTOR: u16 = 0x08;

/// Flags of every entry: present, ring 0, 32-bit interrupt type.
pub const ENTRY_FLAGS: u8 = 0x8E;

/// Number of CPU exceptions with a handler of their own.
pub const EXCEPTION_COUNT: usize = 21;

/// Code that the generic handler reports.
pub const GENERIC_CODE: u32 = 0xFF;

/// One entry: the handler address split in two halves, and fixed attributes.
#[derive(Clone, Copy)]
pub struct IdtEntry {
    pub offset_low: u16,
    pub segment_selector: u16,
    pub reserved: u8,
    pub flags: u8,
    pub offset_high: u16,
}

impl IdtEntry {
    /// The handler address that the entry holds.
    pub open spec fn handler(self) -> int {
        self.offset_low as int + self.offset_high as int * 0x10000
    }

    /// The entry's fixed attributes are those of the template.
    pub open spec fn has_fixed_attributes(self) -> bool {
        self.segment_selector == ENTRY_SELECTOR && self.reserved == 0 && self.flags == ENTRY_FLAGS
    }

    /// The template entry: no handler yet, kernel code segment, present
    /// 32-bit interrupt type.
    pub fn template() -> (r: IdtEntry)
        ensures
            r.has_fixed_attributes(),
            r.handler() == 0,
    {
        IdtEntry {
            offset_low: 0,
            segment_selector: ENTRY_SELECTOR,
            reserved: 0,
            flags: ENTRY_FLAGS,
            offset_high: 0,
        }
    }

    /// Points the entry at `offset`, keeping its other fields.
    pub fn set(&mut self, offset: u32)
        ensures
            final(self).handler() == offset,
            final(self).offset_low == offset % 0x10000,
            final(self).offset_high == offset / 0x10000,
            final(self).segment_selector == old(self).segment_selector,
            final(self).reserved == old(self).reserved,
            final(self).flags == old(self).flags,
    {
        let low = (offset & 0xFFFF) as u16;
        let high = (offset >> 16) as u16;
        assert(offset & 0xFFFF == offset % 0x10000) by (bit_vector);
        assert(offset >> 16 == offset / 0x10000) by (bit_vector);
        self.offset_low = low;
        self.offset_high = high;
    }

    /// The handler address that the entry holds.
    pub fn get_handler(&self) -> (r: u32)
        ensures
            r == self.handler(),
    {
        let low = self.offset_low as u32;
        let high = self.offset_high as u32;
        assert((high << 16) | low == low + high * 0x10000) by (bit_vector)
            requires
                low < 0x10000,
                high < 0x10000,
        ;
        (high << 16) | low
    }
}

/// The size-and-address record that the processor loads the table from.
#[derive(Clone, Copy)]
pub struct IdtDescriptor {
    pub size: u16,
    pub offset: u32,
}

/// The vector of the `k`-th CPU exception with a handler of its own: 0x00 to
/// 0x0E, then 0x10 to 0x15 (0x0F is reserved).
pub open spec fn exception_vector(k: int) -> int {
    if k < 15 {
        k
    } else {
        k + 1
    }
}

/// The 256 entries.
pub struct InterruptDescriptorTable {
    pub entries: [IdtEntry; IDT_ENTRIES],
}

impl InterruptDescriptorTable {
    /// Every entry has the template's attributes.
    pub open spec fn wf(&self) -> bool {
        forall|i: int| 0 <= i < IDT_ENTRIES ==> (#[trigger] self.entries@[i]).has_fixed_attributes()
    }

    /// The handler address of entry `vector`.
    pub open spec fn handler(&self, vector: int) -> int {
        self.entries@[vector].handler()
    }

    /// A table of template entries.
    pub fn new() -> (r: InterruptDescriptorTable)
        ensures
            r.wf(),
            forall|i: int| 0 <= i < IDT_ENTRIES ==> r.handler(i) == 0,
    {
        let t = IdtEntry::template();
        InterruptDescriptorTable { entries: [t; IDT_ENTRIES] }
    }

    /// Routes every vector to the generic handler at `generic_handler`.
    pub fn init(&mut self, generic_handler: u32)
        requires
            old(self).wf(),
        ensures
            final(self).wf(),
            forall|i: int| 0 <= i < IDT_ENTRIES ==> final(self).handler(i) == generic_handler,
    {
        let mut i: usize = 0;
        while i < IDT_ENTRIES
            invariant
                0 <= i <= IDT_ENTRIES,
                self.wf(),
                forall|j: int| 0 <= j < i ==> self.handler(j) == generic_handler,
            decreases IDT_ENTRIES - i,
        {
            let ghost before = *self;
            self.add(i, generic_handler);
            assert forall|j: int| 0 <= j < i + 1 implies self.handler(j) == generic_handler by {
                if j < i {
                    assert(before.handler(j) == generic_handler);
                    assert(self.entries@[j] == before.entries@[j]);
                }
            }
            i = i + 1;
        }
    }

    /// Routes `vector` to the handler at `handler`.
    pub fn add(&mut self, vector: usize, handler: u32)
        requires
            old(self).wf(),
            vector < IDT_ENTRIES,
        ensures
            final(self).wf(),
            final(self).handler(vector as int) == handler,
            forall|i: int| 0 <= i < IDT_ENTRIES && i != vector ==> final(self).entries@[i] == old(self).entries@[i],
    {
        let mut e = self.entries[vector];
        e.set(handler);
        self.entries[vector] = e;
    }

    /// The handler address of entry `vector`.
    pub fn get_handler(&self, vector: usize) -> (r: u32)
        requires
            vector < IDT_ENTRIES,
        ensures
            r == self.handler(vector as int),
    {
        self.entries[vector].get_handler()
    }

    /// The record to load the table from, when the table lies at `address`:
    /// its size in bytes minus one, and its address.
    pub fn load(&self, address: u32) -> (r: IdtDescriptor)
        ensures
            r.size == IDT_ENTRIES * IDT_ENTRY_SIZE - 1,
            r.offset == address,
    {
        IdtDescriptor { size: (IDT_ENTRIES * IDT_ENTRY_SIZE - 1) as u16, offset: address }
    }

    /// Routes the 21 CPU exceptions to their own handlers: `handlers[k]` serves
    /// vector `exception_vector(k)`. Other vectors keep their handler.
    pub fn add_exceptions(&mut self, handlers: &[u32])
        requires
            old(self).wf(),
            handlers@.len() == EXCEPTION_COUNT,
        ensures
            final(self).wf(),
            forall|k: int| 0 <= k < EXCEPTION_COUNT ==> final(self).handler(#[trigger] exception_vector(k)) == handlers@[k],
            forall|i: int|
                0 <= i < IDT_ENTRIES && i != 0x0F && i > 0x15 ==> final(self).entries@[i] == old(self).entries@[i],
            final(self).entries@[0x0F] == old(self).entries@[0x0F],
    {
        let mut k: usize = 0;
        while k < EXCEPTION_COUNT
            invariant
                0 <= k <= EXCEPTION_COUNT,
                handlers@.len() == EXCEPTION_COUNT,
                self.wf(),
                forall|j: int| 0 <= j < k ==> self.handler(#[trigger] exception_vector(j)) == handlers@[j],
                forall|i: int|
                    0 <= i < IDT_ENTRIES && i >= exception_vector(k as int) && i != 0x0F
                        ==> self.entries@[i] == old(self).entries@[i],
                self.entries@[0x0F] == old(self).entries@[0x0F],
            decreases EXCEPTION_COUNT - k,
        {
            let vector: usize = if k < 15 {
                k
            } else {
                k + 1
            };
            let ghost before = *self;
            self.add(vector, handlers[k]);
            assert forall|j: int| 0 <= j < k + 1 implies self.handler(#[trigger] exception_vector(j)) == handlers@[j] by {
                if j < k {
                    assert(self.entries@[exception_vector(j)] == before.entries@[exception_vector(j)]);
                }
            }
            k = k + 1;
        }
    }
}

/// The description that the fault screen shows for exception code `code`.
pub open spec fn exception_name(code: u32) -> &'static str {
    if code == 0x00 {
        "DIVISION ERROR!"
    } else if code == 0x01 {
        "DEBUG EXCEPTION!"
    } else if code == 0x02 {
        "NMI INTERRUPT!"
    } else if code == 0x03 {
        "BREAKPOINT!"
    } else if code == 0x04 {
        "OVERFLOW!"
    } else if code == 0x05 {
        "BOUND RANGE EXCEEDED!"
    } else if code == 0x06 {
        "INVALID OPCODE (UNDEFINED OPCODE)!"
    } else if code == 0x07 {
        "DEVICE NOT AVAILABLE (NO MATH COPROCESSOR)!"
    } else if code == 0x08 {
        "DOUBLE FAULT!"
    } else if code == 0x09 {
        "COPROCESSOR SEGMENT OVERRUN!"
    } else if code == 0x0A {
        "INVALID TSS!"
    } else if code == 0x0B {
        "SEGMENT NOT PRESENT!"
    } else if code == 0x0C {
        "STACK-SEGMENT FAULT!"
    } else if code == 0x0D {
        "GENERAL PROTECTION!"
    } else if code == 0x0E {
        "PAGE FAULT!"
    } else if code == 0x10 {
        "x87 FPU FLOATING-POINT ERROR (MATH ERROR)!"
    } else if code == 0x11 {
        "ALIGNMENT CHECK!"
    } else if code == 0x12 {
        "MACHINE CHECK!"
    } else if code == 0x13 {
        "SIMD FLOATING-POINT EXCEPTION!"
    } else if code == 0x14 {
        "VIRTUALIZATION EXCEPTION!"
    } else if code == 0x15 {
        "CONTROL PROTECTION EXCEPTION!"
    } else {
        "EXCEPTION!"
    }
}

/// The description that the fault screen shows for exception code `code`;
/// codes without a name of their own (the generic handler's among them) read
/// "EXCEPTION!".
pub fn exception_description(code: u32) -> (r: &'static str)
    ensures
        r == exception_name(code),
{
    if code == 0x00 {
        "DIVISION ERROR!"
    } else if code == 0x01 {
        "DEBUG EXCEPTION!"
    } else if code == 0x02 {
        "NMI INTERRUPT!"
    } else if code == 0x03 {
        "BREAKPOINT!"
    } else if code == 0x04 {
        "OVERFLOW!"
    } else if code == 0x05 {
        "BOUND RANGE EXCEEDED!"
    } else if code == 0x06 {
        "INVALID OPCODE (UNDEFINED OPCODE)!"
    } else if code == 0x07 {
        "DEVICE NOT AVAILABLE (NO MATH COPROCESSOR)!"
    } else if code == 0x08 {
        "DOUBLE FAULT!"
    } else if code == 0x09 {
        "COPROCESSOR SEGMENT OVERRUN!"
    } else if code == 0x0A {
        "INVALID TSS!"
    } else if code == 0x0B {
        "SEGMENT NOT PRESENT!"
    } else if code == 0x0C {
        "STACK-SEGMENT FAULT!"
    } else if code == 0x0D {
        "GENERAL PROTECTION!"
    } else if code == 0x0E {
        "PAGE FAULT!"
    } else if code == 0x10 {
        "x87 FPU FLOATING-POINT ERROR (MATH ERROR)!"
    } else if code == 0x11 {
        "ALIGNMENT CHECK!"
    } else if code == 0x12 {
        "MACHINE CHECK!"
    } else if code == 0x13 {
        "SIMD FLOATING-POINT EXCEPTION!"
    } else if code == 0x14 {
        "VIRTUALIZATION EXCEPTION!"
    } else if code == 0x15 {
        "CONTROL PROTECTION EXCEPTION!"
    } else {
        "EXCEPTION!"
    }
}

} // verus!
