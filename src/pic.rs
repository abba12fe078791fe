//! The two cascaded programmable interrupt controllers.
//!
//! Port traffic is described as a list of writes, which the caller performs.
use vstd::prelude::*;

verus! {

pub const MASTER_PIC_COMMAND_PORT: u16 = 0x20;
pub const MASTER_PIC_DATA_PORT: u16 = 0x21;
pub const SLAVE_PIC_COMMAND_PORT: u16 = 0xA0;
pub const SLAVE_PIC_DATA_PORT: u16 = 0xA1;
/// Initialisation command (ICW1: edge triggered, cascade, ICW4 follows).
pub const COMMAND_INIT: u8 = 0x11;
/// End-of-interrupt command.
pub const COMMAND_EOI: u8 = 0x20;
/// 8086 mode (ICW4).
pub const MODE: u8 = 0x01;
/// First vector of the master controller after remapping.
pub const OFFSET: u8 = 32;
/// Lines per controller.
pub const IRQ_COUNT: u8 = 8;
/// Unused port whose write gives the controllers time between commands.
pub const WAIT_PORT: u16 = 0x80;

/// One byte written to one I/O port.
#[derive(Clone, Copy, PartialEq, Eq, Structural, Debug)]
pub struct PortWrite {
    pub port: u16,
    pub value: u8,
}

/// One controller: its first vector and its two ports.
#[derive(Clone, Copy)]
pub struct Pic {
    pub offset: u8,
    pub command_port: u16,
    pub data_port: u16,
}

impl Pic {
    /// Whether `interrupt` is one of the controller's eight vectors.
    pub open spec fn owns(self, interrupt: int) -> bool {
        self.offset <= interrupt < self.offset + IRQ_COUNT
    }

    /// Whether `interrupt` is one of the controller's eight vectors.
    pub fn handles_interrupt(&self, interrupt: u8) -> (r: bool)
        ensures
            r == self.owns(interrupt as int),
    {
        self.offset <= interrupt && (interrupt as u16) < self.offset as u16 + IRQ_COUNT as u16
    }
}

/// The master and slave controllers.
#[derive(Clone, Copy)]
pub struct Pics {
    pub master: Pic,
    pub slave: Pic,
}

/// A write of `value` to `port`.
pub open spec fn write(port: u16, value: u8) -> PortWrite {
    PortWrite { port, value }
}

/// A pause between two commands.
pub open spec fn pause() -> PortWrite {
    PortWrite { port: WAIT_PORT, value: 0 }
}

impl Pics {
    /// Master at vectors 32..40, slave at 40..48, on the standard ports.
    pub fn new() -> (r: Pics)
        ensures
            r.master == (Pic { offset: OFFSET, command_port: MASTER_PIC_COMMAND_PORT, data_port: MASTER_PIC_DATA_PORT }),
            r.slave == (Pic { offset: (OFFSET + IRQ_COUNT) as u8, command_port: SLAVE_PIC_COMMAND_PORT, data_port: SLAVE_PIC_DATA_PORT }),
    {
        Pics {
            master: Pic {
                offset: OFFSET,
                command_port: MASTER_PIC_COMMAND_PORT,
                data_port: MASTER_PIC_DATA_PORT,
            },
            slave: Pic {
                offset: OFFSET + IRQ_COUNT,
                command_port: SLAVE_PIC_COMMAND_PORT,
                data_port: SLAVE_PIC_DATA_PORT,
            },
        }
    }

    /// The remap sequence (ICW1 to ICW4, each followed by a pause) that moves
    /// both controllers to their offsets, then restores the interrupt masks
    /// `mask1` and `mask2` that were read from the data ports beforehand.
    pub open spec fn init_sequence(self, mask1: u8, mask2: u8) -> Seq<PortWrite> {
        seq![
            write(self.master.command_port, COMMAND_INIT), pause(),
            write(self.slave.command_port, COMMAND_INIT), pause(),
            write(self.master.data_port, self.master.offset), pause(),
            write(self.slave.data_port, self.slave.offset), pause(),
            write(self.master.data_port, 4), pause(),
            write(self.slave.data_port, 2), pause(),
            write(self.master.data_port, MODE), pause(),
            write(self.slave.data_port, MODE), pause(),
            write(self.master.data_port, mask1),
            write(self.slave.data_port, mask2),
        ]
    }

    /// The port writes that remap both controllers, keeping the masks
    /// `mask1` (master) and `mask2` (slave).
    pub fn init(&self, mask1: u8, mask2: u8) -> (r: Vec<PortWrite>)
        ensures
            r@ == self.init_sequence(mask1, mask2),
    {
        let mut r: Vec<PortWrite> = Vec::new();
        r.push(PortWrite { port: self.master.command_port, value: COMMAND_INIT });
        r.push(PortWrite { port: WAIT_PORT, value: 0 });
        r.push(PortWrite { port: self.slave.command_port, value: COMMAND_INIT });
        r.push(PortWrite { port: WAIT_PORT, value: 0 });
        r.push(PortWrite { port: self.master.data_port, value: self.master.offset });
        r.push(PortWrite { port: WAIT_PORT, value: 0 });
        r.push(PortWrite { port: self.slave.data_port, value: self.slave.offset });
        r.push(PortWrite { port: WAIT_PORT, value: 0 });
        r.push(PortWrite { port: self.master.data_port, value: 4 });
        r.push(PortWrite { port: WAIT_PORT, value: 0 });
        r.push(PortWrite { port: self.slave.data_port, value: 2 });
        r.push(PortWrite { port: WAIT_PORT, value: 0 });
        r.push(PortWrite { port: self.master.data_port, value: MODE });
        r.push(PortWrite { port: WAIT_PORT, value: 0 });
        r.push(PortWrite { port: self.slave.data_port, value: MODE });
        r.push(PortWrite { port: WAIT_PORT, value: 0 });
        r.push(PortWrite { port: self.master.data_port, value: mask1 });
        r.push(PortWrite { port: self.slave.data_port, value: mask2 });
        assert(r@ =~= self.init_sequence(mask1, mask2));
        r
    }

    /// Whether either controller owns `interrupt`.
    pub fn handles_interrupt(&self, interrupt: u8) -> (r: bool)
        ensures
            r == (self.master.owns(interrupt as int) || self.slave.owns(interrupt as int)),
    {
        self.master.handles_interrupt(interrupt) || self.slave.handles_interrupt(interrupt)
    }

    /// The end-of-interrupt writes for `interrupt`: none for a vector that no
    /// controller owns; the slave then the master for a slave vector; the
    /// master alone otherwise.
    pub fn end_interrupt(&self, interrupt: u8) -> (r: Vec<PortWrite>)
        ensures
            !self.master.owns(interrupt as int) && !self.slave.owns(interrupt as int) ==> r@ == Seq::<PortWrite>::empty(),
            self.slave.owns(interrupt as int) ==> r@ == seq![
                write(self.slave.command_port, COMMAND_EOI),
                write(self.master.command_port, COMMAND_EOI),
            ],
            self.master.owns(interrupt as int) && !self.slave.owns(interrupt as int) ==> r@ == seq![
                write(self.master.command_port, COMMAND_EOI),
            ],
    {
        let mut r: Vec<PortWrite> = Vec::new();
        if self.handles_interrupt(interrupt) {
            if self.slave.handles_interrupt(interrupt) {
                r.push(PortWrite { port: self.slave.command_port, value: COMMAND_EOI });
            }
            r.push(PortWrite { port: self.master.command_port, value: COMMAND_EOI });
        }
        proof {
            if self.slave.owns(interrupt as int) {
                assert(r@ =~= seq![
                    write(self.slave.command_port, COMMAND_EOI),
                    write(self.master.command_port, COMMAND_EOI),
                ]);
            } else if self.master.owns(interrupt as int) {
                assert(r@ =~= seq![write(self.master.command_port, COMMAND_EOI)]);
            } else {
                assert(r@ =~= Seq::<PortWrite>::empty());
            }
        }
        r
    }
}

} // verus!
