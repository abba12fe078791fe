use minmus::idt::{exception_description, IdtEntry, InterruptDescriptorTable, GENERIC_CODE, ENTRY_FLAGS, ENTRY_SELECTOR};
use minmus::pic::{PortWrite, Pics};

const GENERIC: u32 = 0x0010_2000;

fn handlers() -> Vec<u32> {
    (0..21u32).map(|k| 0x0010_3000 + 0x10 * k).collect()
}

#[test]
fn entry_set_splits_address() {
    let mut e = IdtEntry::template();
    e.set(0x1234_5678);
    assert_eq!(e.offset_low, 0x5678);
    assert_eq!(e.offset_high, 0x1234);
    assert_eq!(e.segment_selector, ENTRY_SELECTOR);
    assert_eq!(e.flags, ENTRY_FLAGS);
    assert_eq!(e.get_handler(), 0x1234_5678);
}

#[test]
fn init_routes_everything_to_generic() {
    let mut idt = InterruptDescriptorTable::new();
    idt.init(GENERIC);
    for v in 0..256 {
        assert_eq!(idt.get_handler(v), GENERIC);
    }
}

#[test]
fn invalid_opcode_goes_generic_until_exceptions_added() {
    let mut idt = InterruptDescriptorTable::new();
    idt.init(GENERIC);
    assert_eq!(idt.get_handler(0x06), GENERIC);
    assert_eq!(exception_description(GENERIC_CODE), "EXCEPTION!");
    let h = handlers();
    idt.add_exceptions(&h);
    assert_eq!(idt.get_handler(0x06), h[6]);
    assert_eq!(exception_description(0x06), "INVALID OPCODE (UNDEFINED OPCODE)!");
}

#[test]
fn add_exceptions_skips_reserved_vector() {
    let mut idt = InterruptDescriptorTable::new();
    idt.init(GENERIC);
    let h = handlers();
    idt.add_exceptions(&h);
    assert_eq!(idt.get_handler(0x0E), h[14]);
    assert_eq!(idt.get_handler(0x0F), GENERIC);
    assert_eq!(idt.get_handler(0x10), h[15]);
    assert_eq!(idt.get_handler(0x15), h[20]);
    assert_eq!(idt.get_handler(0x16), GENERIC);
    assert_eq!(idt.get_handler(0x80), GENERIC);
}

#[test]
fn descriptor_size_and_address() {
    let idt = InterruptDescriptorTable::new();
    let d = idt.load(0x0020_0000);
    assert_eq!(d.size, 2047);
    assert_eq!(d.offset, 0x0020_0000);
}

#[test]
fn exception_names() {
    assert_eq!(exception_description(0x00), "DIVISION ERROR!");
    assert_eq!(exception_description(0x0E), "PAGE FAULT!");
    assert_eq!(exception_description(0x0F), "EXCEPTION!");
    assert_eq!(exception_description(0x15), "CONTROL PROTECTION EXCEPTION!");
}

#[test]
fn pic_ownership() {
    let pics = Pics::new();
    assert!(!pics.master.handles_interrupt(31));
    assert!(pics.master.handles_interrupt(32));
    assert!(pics.master.handles_interrupt(39));
    assert!(!pics.master.handles_interrupt(40));
    assert!(pics.slave.handles_interrupt(40));
    assert!(pics.slave.handles_interrupt(47));
    assert!(!pics.handles_interrupt(48));
    assert!(!pics.handles_interrupt(0x80));
}

#[test]
fn end_of_interrupt_targets_owner() {
    let pics = Pics::new();
    assert_eq!(pics.end_interrupt(32), vec![PortWrite { port: 0x20, value: 0x20 }]);
    assert_eq!(
        pics.end_interrupt(44),
        vec![PortWrite { port: 0xA0, value: 0x20 }, PortWrite { port: 0x20, value: 0x20 }]
    );
    assert_eq!(pics.end_interrupt(0x80), vec![]);
}

#[test]
fn remap_sequence_keeps_masks() {
    let pics = Pics::new();
    let w = pics.init(0xB8, 0x8E);
    assert_eq!(w.len(), 18);
    assert_eq!(w[0], PortWrite { port: 0x20, value: 0x11 });
    assert_eq!(w[1], PortWrite { port: 0x80, value: 0 });
    assert_eq!(w[4], PortWrite { port: 0x21, value: 32 });
    assert_eq!(w[6], PortWrite { port: 0xA1, value: 40 });
    assert_eq!(w[8], PortWrite { port: 0x21, value: 4 });
    assert_eq!(w[10], PortWrite { port: 0xA1, value: 2 });
    assert_eq!(w[16], PortWrite { port: 0x21, value: 0xB8 });
    assert_eq!(w[17], PortWrite { port: 0xA1, value: 0x8E });
}
