use minmus::shell::{kill, start_app, app_target, signature_of, KillOutcome, RunOutcome, APP_SIGNATURE};
use minmus::task::{TaskManager, Task, FRAME_INDEX, FRAME_OFFSET, STACK_WORDS, KERNEL_CODE_SELECTOR, INITIAL_EFLAGS};

const IDLE: u32 = 0x0010_0000;

fn booted() -> TaskManager {
    let mut tm = TaskManager::new();
    tm.init(IDLE);
    tm
}

fn running_count(tm: &TaskManager) -> i8 {
    let mut n: i8 = 0;
    for i in 0..32 {
        if tm.is_running(i) {
            n += 1;
        }
    }
    n
}

fn line(text: &str) -> Vec<char> {
    let mut b: Vec<char> = text.chars().collect();
    b.resize(256, '\0');
    b
}

#[test]
fn init_puts_idle_in_slot_zero() {
    let tm = booted();
    assert!(tm.is_running(0));
    assert_eq!(tm.get_task_count(), 1);
    assert_eq!(tm.get_current_slot(), -1);
    assert_eq!(tm.get_state_ptr(0), FRAME_OFFSET);
    assert_eq!(tm.list_tasks(), vec![0]);
}

#[test]
fn task_init_carves_frame() {
    let mut t = Task::null();
    t.stack[STACK_WORDS - 1] = 7;
    t.init(0xDEAD_BEEF);
    assert!(t.running);
    assert_eq!(t.cpu_state_ptr, FRAME_OFFSET);
    let f = t.frame(FRAME_INDEX);
    assert_eq!(f.eax, 0);
    assert_eq!(f.ebp, 0);
    assert_eq!(f.eip, 0xDEAD_BEEF);
    assert_eq!(f.cs, KERNEL_CODE_SELECTOR);
    assert_eq!(f.eflags, INITIAL_EFLAGS);
    assert_eq!(f.ss, 7);
}

#[test]
fn add_task_takes_lowest_free_slot() {
    let mut tm = booted();
    tm.add_task(0x1000);
    tm.add_task(0x2000);
    tm.add_task(0x3000);
    assert_eq!(tm.list_tasks(), vec![0, 1, 2, 3]);
    tm.remove_task(2);
    assert_eq!(tm.get_free_slot(), 2);
    tm.add_task(0x4000);
    assert_eq!(tm.list_tasks(), vec![0, 1, 2, 3]);
    assert_eq!(tm.get_task_count(), 4);
}

#[test]
fn add_task_with_full_table_changes_nothing() {
    let mut tm = booted();
    for k in 1..32 {
        tm.add_task(0x1000 * k);
    }
    assert_eq!(tm.get_task_count(), 32);
    assert_eq!(tm.get_free_slot(), -1);
    tm.add_task(0x9999);
    assert_eq!(tm.get_task_count(), 32);
    assert_eq!(running_count(&tm), 32);
}

#[test]
fn slot_zero_is_never_removed() {
    let mut tm = booted();
    tm.remove_task(0);
    assert!(tm.is_running(0));
    assert_eq!(tm.get_task_count(), 1);
}

#[test]
fn counter_tracks_running_slots() {
    let mut tm = booted();
    let ops: [(bool, usize); 9] = [(true, 0), (true, 0), (true, 0), (false, 2), (true, 0), (false, 1), (false, 3), (true, 0), (false, 0)];
    for (add, id) in ops {
        if add {
            tm.add_task(0x5000);
        } else {
            tm.remove_task(id);
        }
        assert_eq!(tm.get_task_count(), running_count(&tm));
        assert!(tm.is_running(0));
    }
}

#[test]
fn removing_a_free_slot_counts_down_again() {
    let mut tm = booted();
    tm.add_task(0x1000);
    tm.remove_task(1);
    tm.remove_task(1);
    assert_eq!(tm.get_task_count(), 0);
    assert_eq!(running_count(&tm), 1);
}

#[test]
fn round_robin_visits_every_running_slot_once() {
    let mut tm = booted();
    for k in 1..6 {
        tm.add_task(0x1000 * k);
    }
    tm.remove_task(2);
    tm.remove_task(4);
    let count = tm.get_task_count() as usize;
    assert_eq!(count, 4);
    let mut seen = Vec::new();
    for _ in 0..count {
        let next = tm.schedule(0x42);
        let slot = tm.get_current_slot();
        assert!(tm.is_running(slot as usize));
        assert_eq!(next, tm.get_state_ptr(slot as usize));
        seen.push(slot);
    }
    assert_eq!(seen, vec![0, 1, 3, 5]);
    assert_eq!(tm.schedule(0x77), 0x42);
    assert_eq!(tm.get_current_slot(), 0);
    assert_eq!(tm.get_state_ptr(5), 0x77);
}

#[test]
fn next_task_wraps_after_last_slot() {
    let mut tm = booted();
    for k in 1..32 {
        tm.add_task(0x1000 * k);
    }
    for _ in 0..32 {
        tm.schedule(0);
    }
    assert_eq!(tm.get_current_slot(), 31);
    assert_eq!(tm.get_next_task(), 0);
}

#[test]
fn schedule_with_no_tasks_hands_frame_back() {
    let mut tm = TaskManager::new();
    assert_eq!(tm.schedule(0x1234), 0x1234);
    assert_eq!(tm.get_current_slot(), -1);
    assert_eq!(tm.get_next_task(), -1);
}

#[test]
fn remove_current_task_frees_its_slot() {
    let mut tm = booted();
    tm.add_task(0x1000);
    tm.schedule(0);
    tm.schedule(0);
    assert_eq!(tm.get_current_slot(), 1);
    tm.remove_current_task();
    assert!(!tm.is_running(1));
    assert_eq!(tm.get_task_count(), 1);
}

#[test]
fn kill_free_slot_reports_not_found() {
    let mut tm = booted();
    tm.add_task(0x1000);
    let before = tm.get_task_count();
    let r = kill(&mut tm, &line("kill 7"));
    assert_eq!(r, KillOutcome::NotFound(7));
    assert_eq!(r.message(), "not found");
    assert_eq!(tm.get_task_count(), before);
}

#[test]
fn kill_running_slot_removes_it() {
    let mut tm = booted();
    tm.add_task(0x1000);
    tm.add_task(0x2000);
    let r = kill(&mut tm, &line("kill   2"));
    assert_eq!(r, KillOutcome::Removed(2));
    assert!(!tm.is_running(2));
    assert_eq!(tm.get_task_count(), 2);
}

#[test]
fn kill_rejects_bad_pids() {
    let mut tm = booted();
    assert_eq!(kill(&mut tm, &line("kill 0")), KillOutcome::InvalidPid);
    assert_eq!(kill(&mut tm, &line("kill 32")), KillOutcome::InvalidPid);
    assert_eq!(kill(&mut tm, &line("kill 1x")), KillOutcome::InvalidPid);
    assert_eq!(kill(&mut tm, &line("kill 99999999999999999999999")), KillOutcome::InvalidPid);
    assert_eq!(kill(&mut tm, &line("kill")), KillOutcome::Usage);
    assert_eq!(kill(&mut tm, &line("kill    ")), KillOutcome::Usage);
    assert_eq!(tm.get_task_count(), 1);
}

#[test]
fn run_rejects_image_without_signature() {
    let mut tm = booted();
    let image: [u8; 8] = [0xEF, 0xBE, 0xAD, 0xDE, 0, 0, 0, 0];
    let target = app_target(tm.get_free_slot() as u8);
    let r = start_app(&mut tm, target, signature_of(&image));
    assert_eq!(r, RunOutcome::NotExecutable);
    assert_eq!(r.message(), "This file is not a valid executable!");
    assert_eq!(tm.get_task_count(), 1);
}

#[test]
fn run_starts_signed_image_after_signature() {
    let mut tm = booted();
    let image: [u8; 8] = [0xB5, 0x00, 0x6B, 0xB1, 0x90, 0x90, 0x90, 0x90];
    assert_eq!(signature_of(&image), APP_SIGNATURE);
    let target = app_target(tm.get_free_slot() as u8);
    assert_eq!(target, 0x00A1_0000);
    let r = start_app(&mut tm, target, signature_of(&image));
    assert_eq!(r, RunOutcome::Started);
    assert_eq!(tm.get_task_count(), 2);
    assert!(tm.is_running(1));
}
