//! Core logic of a small 32-bit x86 kernel: the round-robin task table,
//! the interrupt descriptor table and interrupt controllers, the FAT16 read
//! path, the real-time clock arithmetic and the support library.
pub mod task;
pub mod idt;
pub mod pic;
pub mod fat;
pub mod shell;
pub mod time;
pub mod mutex;
pub mod math;
pub mod rand;
pub mod string;
pub mod paging;
pub mod kernel;
pub mod keyboard;
pub mod disk;
pub mod allocator;
pub mod printer;
pub mod hanoi;
pub mod sort;
pub mod gdt;
