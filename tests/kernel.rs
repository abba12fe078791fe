use minmus::allocator::{Allocator, Block};
use minmus::disk::{Disk, DiskReader, SectorCopy, SectorLoad};
use minmus::hanoi::{move_disks, transfer_disk, HanoiTowers, STACK_SIZE};
use minmus::kernel::{syscall_handler, timer_handler, SyscallAction};
use minmus::keyboard::{KeyAction, Keyboard};
use minmus::paging::{PageDirectory, PageTable, NOT_PRESENT, WINDOW_TABLE};
use minmus::printer::{Printer, ScreenOp, COLOR_BLACK, COLOR_LIGHT_RED, COLOR_WHITE};
use minmus::shell::{cal, echo, Command, Shell};
use minmus::sort::{
    bubble_sort, bucket_sort, counting_sort, heap_sort, insertion_sort, merge_sort, quick_sort, radix_sort, selection_sort,
    shell_sort,
};
use minmus::task::TaskManager;

fn shell_with(text: &str) -> Shell {
    let mut sh = Shell::new();
    for c in text.chars() {
        sh.add(c);
    }
    sh
}

#[test]
fn command_dispatch() {
    assert_eq!(shell_with("ls").interpret(), Command::Ls);
    assert_eq!(shell_with("KILL 3").interpret(), Command::Kill);
    assert_eq!(shell_with("timestamp").interpret(), Command::Timestamp);
    assert_eq!(shell_with("cats").interpret(), Command::Unknown);
    assert_eq!(shell_with("").interpret(), Command::Empty);
    assert_eq!(shell_with("\n").interpret(), Command::Empty);
    assert!(shell_with("Run hanoi").is_command("run"));
}

#[test]
fn shell_line_editing() {
    let mut sh = shell_with("ab");
    assert!(sh.backspace());
    assert_eq!(sh.cursor, 1);
    assert_eq!(sh.buffer[1], '\0');
    sh.init();
    assert!(!sh.backspace());
    let line: Vec<char> = "run   hanoi  ".chars().collect();
    assert!(sh.set_arg(&line, 6, 11));
    assert_eq!(&sh.arg[..6], &['h', 'a', 'n', 'o', 'i', '\0']);
}

#[test]
fn echo_squeezes_spaces() {
    let line: Vec<char> = "echo   hello    world \0junk".chars().collect();
    assert_eq!(echo(&line).into_iter().collect::<String>(), "hello world ");
    let bare: Vec<char> = "echo".chars().collect();
    assert!(echo(&bare).is_empty());
}

#[test]
fn calendar_sheets() {
    let c = cal(2024, 2);
    assert_eq!(c.title, "February");
    assert_eq!(c.days, 29);
    assert_eq!(c.first_weekday, 3);
    let c = cal(2023, 10);
    assert_eq!(c.title, "October");
    assert_eq!(c.days, 31);
    assert_eq!(c.first_weekday, 6);
    assert_eq!(cal(2023, 13).title, "Invalid Month");
}

#[test]
fn keyboard_translation() {
    let mut kb = Keyboard::new();
    assert_eq!(kb.keyboard_handler(false, 0x1E), KeyAction::Type('a'));
    assert_eq!(kb.keyboard_handler(false, 0x2A), KeyAction::Nothing);
    assert_eq!(kb.keyboard_handler(false, 0x1E), KeyAction::Type('A'));
    assert_eq!(kb.keyboard_handler(false, 0x02), KeyAction::Type('!'));
    assert_eq!(kb.keyboard_handler(false, 0xAA), KeyAction::Nothing);
    assert_eq!(kb.keyboard_handler(false, 0x3A), KeyAction::Nothing);
    assert!(kb.caps_lock);
    assert_eq!(kb.keyboard_handler(false, 0x1E), KeyAction::Type('A'));
    assert_eq!(kb.keyboard_handler(false, 0x02), KeyAction::Type('1'));
    assert_eq!(kb.keyboard_handler(false, 0x0E), KeyAction::Backspace);
    assert_eq!(kb.keyboard_handler(false, 0x1C), KeyAction::Enter);
    assert_eq!(kb.keyboard_handler(true, 0x1D), KeyAction::Nothing);
    assert!(kb.right_ctrl && !kb.left_ctrl);
    assert_eq!(kb.keyboard_handler(false, 0x01), KeyAction::Nothing);
}

#[test]
fn printer_wraps_and_scrolls() {
    let mut p = Printer::new();
    let ops = p.prints(79, "ab");
    assert_eq!(
        ops,
        vec![
            ScreenOp::Put { cell: 79, byte: b'a', attribute: 0x07 },
            ScreenOp::Put { cell: 80, byte: b'b', attribute: 0x07 },
        ]
    );
    assert_eq!((p.x, p.y), (1, 1));
    p.set_colors(COLOR_LIGHT_RED, COLOR_BLACK);
    assert_eq!(p.attribute(), 0x0C);
    p.reset_colors();
    assert_eq!((p.fg_color, p.bg_color), (COLOR_WHITE, COLOR_BLACK));
    let ops = p.prints(24 * 80 + 79, "x\n");
    assert_eq!(ops.len(), 3);
    assert_eq!(ops[1], ScreenOp::Scroll);
    assert_eq!(ops[2], ScreenOp::Scroll);
    assert_eq!((p.x, p.y), (0, 24));
    assert_eq!(p.delete(), Some(23 * 80 + 79));
    p.clear();
    assert_eq!(p.delete(), None);
}

#[test]
fn timer_tick_retargets_window() {
    let mut tm = TaskManager::new();
    tm.init(0x100000);
    tm.add_task(0xA10004);
    let mut window = PageTable::new();
    let mut dir = PageDirectory::new();
    timer_handler(&mut tm, &mut window, &mut dir, 0x0030_8000, 0);
    assert_eq!(tm.get_current_slot(), 0);
    assert_eq!(window.entries[0], 0x00A0_0003);
    let esp = timer_handler(&mut tm, &mut window, &mut dir, 0x0030_8000, 0x1111);
    assert_eq!(tm.get_current_slot(), 1);
    assert_eq!(esp, tm.get_state_ptr(1));
    assert_eq!(window.entries[0], 0x00A1_0003);
    assert_eq!(window.entries[1], 0x00A1_1003);
    assert_eq!(dir.entries[WINDOW_TABLE], 0x0030_8003);
    assert_eq!(dir.entries[0], NOT_PRESENT);
}

#[test]
fn syscalls() {
    let mut tm = TaskManager::new();
    tm.init(0x100000);
    tm.add_task(0x2000);
    tm.schedule(0);
    tm.schedule(0);
    assert_eq!(syscall_handler(&mut tm, 0), SyscallAction::Print);
    assert_eq!(syscall_handler(&mut tm, 7), SyscallAction::Ignore);
    assert_eq!(tm.get_task_count(), 2);
    assert_eq!(syscall_handler(&mut tm, 1), SyscallAction::Exit);
    assert!(!tm.is_running(1));
    assert_eq!(tm.get_task_count(), 1);
}

#[test]
fn identity_map() {
    let mut tables = vec![PageTable::new(); 16];
    let addresses: Vec<u32> = (0..16u32).map(|i| 0x0020_0000 + 0x1000 * i).collect();
    let mut dir = PageDirectory::new();
    dir.identity(&mut tables, &addresses);
    assert_eq!(tables[0].entries[0], 0x3);
    assert_eq!(tables[1].entries[2], 0x0040_2003);
    assert_eq!(tables[7].entries[1023], 0x01FF_F003);
    assert_eq!(tables[8].entries[0], 0);
    assert_eq!(dir.entries[3], 0x0020_3003);
    assert_eq!(dir.entries[8], NOT_PRESENT);
}

#[test]
fn free_list_first_fit() {
    let mut a = Allocator::new();
    assert_eq!(a.allocate(8, 8), None);
    a.init(0x1000, 64);
    a.dealloc(0x2000, 16);
    a.dealloc(0x3000, 8);
    assert_eq!(a.allocate(12, 4), Some(0x2000));
    assert_eq!(a.free_blocks(), vec![Block { start: 0x1000, size: 64 }]);
    assert_eq!(a.allocate(128, 8), None);
    assert_eq!(a.allocate(4, 32), Some(0x1000));
    assert!(a.free_blocks().is_empty());
}

#[test]
fn boot_sector_plans() {
    let mut r = DiskReader::new(2048, 0x7E00);
    let loads = r.read_sectors(2);
    assert_eq!(loads, vec![SectorLoad { lba: 2048, target: 0x7E00 }, SectorLoad { lba: 2049, target: 0x8000 }]);
    assert_eq!((r.lba, r.target), (2050, 0x8200));
    let mut d = Disk::new();
    d.init(4096, 0x1000);
    let copies = d.read_sectors(2, 0x0010_0000);
    assert_eq!(copies[1], SectorCopy { lba: 4097, buffer: 0x1000, target: 0x0010_0200 });
    assert_eq!(d.lba, 4098);
}

#[test]
fn hanoi_solution() {
    let mut towers = HanoiTowers::new();
    let mut moves = Vec::new();
    move_disks(STACK_SIZE as i32, 'A', 'C', 'B', &mut towers, &mut moves);
    assert_eq!(moves.len(), 1023);
    assert_eq!(towers.count, 1023);
    assert_eq!(towers.c_top, 0);
    assert_eq!(towers.c, [1, 2, 3, 4, 5, 6, 7, 8, 9, 10]);
    assert_eq!(towers.a_top, STACK_SIZE);
    let mut t = HanoiTowers::new();
    transfer_disk('A', 'A', &mut t);
    assert_eq!(t.a_top, 0);
    transfer_disk('A', 'B', &mut t);
    assert_eq!((t.a_top, t.b_top, t.b[9]), (1, 9, 1));
}

fn sorted_copy(v: &[i32]) -> Vec<i32> {
    let mut s = v.to_vec();
    s.sort();
    s
}

#[test]
fn sorts_agree() {
    let samples: Vec<Vec<i32>> = vec![
        vec![],
        vec![5],
        vec![3, -1, 2, -1, 0, 7, 7, -20],
        vec![9, 8, 7, 6, 5, 4, 3, 2, 1, 0],
        vec![i32::MAX, i32::MIN, 0, -5, 5],
    ];
    for v in &samples {
        let want = sorted_copy(v);
        let mut a = v.clone();
        bubble_sort(&mut a);
        assert_eq!(a, want);
        let mut a = v.clone();
        selection_sort(&mut a);
        assert_eq!(a, want);
        let mut a = v.clone();
        insertion_sort(&mut a);
        assert_eq!(a, want);
        let mut a = v.clone();
        shell_sort(&mut a);
        assert_eq!(a, want);
        let mut a = v.clone();
        quick_sort(&mut a);
        assert_eq!(a, want);
        let mut a = v.clone();
        merge_sort(&mut a);
        assert_eq!(a, want);
        let mut a = v.clone();
        heap_sort(&mut a);
        assert_eq!(a, want);
    }
}

#[test]
fn counting_sort_small_range() {
    let mut a = vec![5, -3, 7, 5, 0, -3, 250, -5];
    counting_sort(&mut a);
    assert_eq!(a, vec![-5, -3, -3, 0, 5, 5, 7, 250]);
    let mut b: Vec<i32> = Vec::new();
    counting_sort(&mut b);
    assert!(b.is_empty());
    let mut c = vec![i32::MAX, i32::MAX - 3, i32::MAX - 1];
    counting_sort(&mut c);
    assert_eq!(c, vec![i32::MAX - 3, i32::MAX - 1, i32::MAX]);
}

#[test]
fn radix_sort_non_negative() {
    let mut a = vec![170, 45, 75, 90, 802, 24, 2, 66, 999_999_999, 0, 45];
    radix_sort(&mut a);
    assert_eq!(a, vec![0, 2, 24, 45, 45, 66, 75, 90, 170, 802, 999_999_999]);
    let mut one = vec![7];
    radix_sort(&mut one);
    assert_eq!(one, vec![7]);
    let mut zeros = vec![0, 0, 0];
    radix_sort(&mut zeros);
    assert_eq!(zeros, vec![0, 0, 0]);
}

#[test]
fn bucket_sort_small_range() {
    let mut a = vec![9, -2, 9, 4, 100, -2, 0];
    bucket_sort(&mut a);
    assert_eq!(a, vec![-2, -2, 0, 4, 9, 9, 100]);
    let mut many: Vec<i32> = (0..400).map(|k| (k * 7) % 13).collect();
    let want = {
        let mut w = many.clone();
        w.sort();
        w
    };
    bucket_sort(&mut many);
    assert_eq!(many, want);
}
