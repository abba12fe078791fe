//! What the timer and system-call interrupts decide. The entry stubs save
//! and restore registers; these functions choose what happens in between.
use vstd::prelude::*;
use crate::paging::{PageDirectory, PageTable, PRESENT_WRITABLE, WINDOW_TABLE};
use crate::shell::{app_target, APP_SIZE, APP_TARGET};
use crate::task::{TaskManager, MAX_TASKS};

verus! {

/// Vector of the timer interrupt.
pub const TIMER_INT: u8 = 32;
/// Vector of the keyboard interrupt.
pub const KEYBOARD_INT: u8 = 33;
/// Vector of the system-call interrupt.
pub const SYSCALL_INT: u8 = 0x80;

/// Timer tick: schedules the next task (handing in the frame location `esp`
/// of the interrupted one), points the window table (which lies at
/// `window_address`) at the selected task's execution window, registers it
/// in the directory, and returns the frame location to resume from.
pub fn timer_handler(
    tasks: &mut TaskManager,
    window: &mut PageTable,
    directory: &mut PageDirectory,
    window_address: u32,
    esp: u32,
) -> (r: u32)
    requires
        old(tasks)@.wf(),
        old(tasks)@.count > 0 || old(tasks)@.current >= 0,
    ensures
        final(tasks)@.wf(),
        old(tasks)@.scheduled(final(tasks)@, esp, r),
        0 <= final(tasks)@.current < MAX_TASKS,
        final(window).maps((APP_TARGET + final(tasks)@.current * APP_SIZE) as u32),
        final(directory).entries@ == old(directory).entries@.update(
            WINDOW_TABLE as int,
            window_address | PRESENT_WRITABLE,
        ),
{
    let r = tasks.schedule(esp);
    let slot = tasks.get_current_slot();
    let target = app_target(slot as u8);
    window.set(target);
    directory.set_table(WINDOW_TABLE, window_address);
    r
}

/// What a system call asked for.
#[derive(Clone, Copy, PartialEq, Eq, Structural, Debug)]
pub enum SyscallAction {
    /// Print the bytes that the caller pointed at.
    Print,
    /// The calling task ended and was removed.
    Exit,
    /// Unknown selector; nothing done.
    Ignore,
}

/// System call with selector `eax`: 0 prints, 1 ends the calling (current)
/// task, anything else is ignored.
pub fn syscall_handler(tasks: &mut TaskManager, eax: u32) -> (r: SyscallAction)
    requires
        old(tasks)@.wf(),
        eax == 1 ==> old(tasks)@.current >= 0 && old(tasks)@.count > i8::MIN,
    ensures
        final(tasks)@.wf(),
        eax == 0 ==> r == SyscallAction::Print && final(tasks)@ == old(tasks)@,
        eax == 1 ==> r == SyscallAction::Exit && old(tasks)@.removed(final(tasks)@, old(tasks)@.current),
        eax > 1 ==> r == SyscallAction::Ignore && final(tasks)@ == old(tasks)@,
{
    if eax == 0 {
        SyscallAction::Print
    } else if eax == 1 {
        tasks.remove_current_task();
        SyscallAction::Exit
    } else {
        SyscallAction::Ignore
    }
}

} // verus!
