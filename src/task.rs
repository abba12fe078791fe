//! Task table and round-robin scheduler.
//!
//! Each of the `MAX_TASKS` slots owns a stack arena and the location of the
//! most recently saved register frame inside it. Slot 0 holds the idle task.
use vstd::prelude::*;

verus! {

/// Number of task slots.
pub const MAX_TASKS: i8 = 32;

/// Size of a task's stack, in bytes.
pub const STACK_SIZE: usize = 4096;

/// Size of a task's stack, in 32-bit words.
pub const STACK_WORDS: usize = 1024;

/// Number of 32-bit registers in a saved frame.
pub const FRAME_WORDS: usize = 12;

/// Byte offset, within a task's stack, of the frame that `Task::init` carves.
pub const FRAME_OFFSET: u32 = 4048;

/// Word index, within a task's stack, of the frame that `Task::init` carves.
pub const FRAME_INDEX: usize = 1012;

/// Kernel code segment selector.
pub const KERNEL_CODE_SELECTOR: u32 = 0x8;

/// Flags register of a fresh task: interrupts enabled.
pub const INITIAL_EFLAGS: u32 = 0x202;

/// The register frame that the interrupt entry pushes, in stack order.
#[derive(Clone, Copy)]
pub struct CPUState {
    pub eax: u32,
    pub ebx: u32,
    pub ecx: u32,
    pub edx: u32,
    pub esi: u32,
    pub edi: u32,
    pub ebp: u32,
    pub eip: u32,
    pub cs: u32,
    pub eflags: u32,
    pub esp: u32,
    pub ss: u32,
}

impl CPUState {
    /// The frame as the sequence of words it occupies on a stack.
    pub open spec fn words(self) -> Seq<u32> {
        seq![
            self.eax, self.ebx, self.ecx, self.edx, self.esi, self.edi, self.ebp,
            self.eip, self.cs, self.eflags, self.esp, self.ss,
        ]
    }
}

/// A task control block: a stack arena, the byte offset of the most recently
/// saved frame in it, and whether the slot holds a live task.
#[derive(Clone, Copy)]
pub struct Task {
    pub stack: [u32; STACK_WORDS],
    pub cpu_state_ptr: u32,
    pub running: bool,
}

impl Task {
    /// A free slot: zeroed stack, no saved frame.
    pub open spec fn is_null(self) -> bool {
        &&& self.stack@ == Seq::new(STACK_WORDS as nat, |i: int| 0u32)
        &&& self.cpu_state_ptr == 0
        &&& !self.running
    }

    /// `new` is `old` after `init(entry)`: running, with a fresh frame at the
    /// top of the stack whose general registers are zero, whose instruction
    /// pointer is `entry`, in the kernel code segment with interrupts enabled.
    /// The rest of the stack (and the frame's `esp`/`ss` words) is kept.
    pub open spec fn started(old: Task, new: Task, entry: u32) -> bool {
        &&& new.running
        &&& new.cpu_state_ptr == FRAME_OFFSET
        &&& new.stack@.len() == STACK_WORDS
        &&& forall|i: int|
            0 <= i < STACK_WORDS && !(FRAME_INDEX <= i < FRAME_INDEX + 10) ==> #[trigger] new.stack@[i]
                == old.stack@[i]
        &&& new.stack@.subrange(FRAME_INDEX as int, FRAME_INDEX + 10) == seq![
            0u32, 0u32, 0u32, 0u32, 0u32, 0u32, 0u32, entry, KERNEL_CODE_SELECTOR, INITIAL_EFLAGS,
        ]
    }

    /// A free slot.
    pub fn null() -> (r: Task)
        ensures
            r.is_null(),
    {
        let r = Task { stack: [0u32; STACK_WORDS], cpu_state_ptr: 0, running: false };
        assert(r.stack@ =~= Seq::new(STACK_WORDS as nat, |i: int| 0u32));
        r
    }

    /// Marks the slot running and carves a fresh register frame at the top of
    /// its stack, whose execution starts at `entry_point`.
    pub fn init(&mut self, entry_point: u32)
        ensures
            Task::started(*old(self), *final(self), entry_point),
    {
        self.running = true;
        self.cpu_state_ptr = FRAME_OFFSET;
        let mut k: usize = 0;
        while k < 7
            invariant
                0 <= k <= 7,
                self.stack@.len() == STACK_WORDS,
                forall|i: int|
                    0 <= i < STACK_WORDS && !(FRAME_INDEX <= i < FRAME_INDEX + k) ==> #[trigger] self.stack@[i]
                        == old(self).stack@[i],
                forall|i: int| FRAME_INDEX <= i < FRAME_INDEX + k ==> #[trigger] self.stack@[i] == 0,
                self.running,
                self.cpu_state_ptr == FRAME_OFFSET,
            decreases 7 - k,
        {
            self.stack[FRAME_INDEX + k] = 0;
            k = k + 1;
        }
        self.stack[FRAME_INDEX + 7] = entry_point;
        self.stack[FRAME_INDEX + 8] = KERNEL_CODE_SELECTOR;
        self.stack[FRAME_INDEX + 9] = INITIAL_EFLAGS;
        assert(self.stack@.subrange(FRAME_INDEX as int, FRAME_INDEX + 10) =~= seq![
            0u32, 0u32, 0u32, 0u32, 0u32, 0u32, 0u32, entry_point, KERNEL_CODE_SELECTOR, INITIAL_EFLAGS,
        ]);
    }

    /// The register frame that starts at word `index` of the stack.
    pub fn frame(&self, index: usize) -> (r: CPUState)
        requires
            index + FRAME_WORDS <= STACK_WORDS,
        ensures
            r.words() == self.stack@.subrange(index as int, index + FRAME_WORDS),
    {
        let r = CPUState {
            eax: self.stack[index],
            ebx: self.stack[index + 1],
            ecx: self.stack[index + 2],
            edx: self.stack[index + 3],
            esi: self.stack[index + 4],
            edi: self.stack[index + 5],
            ebp: self.stack[index + 6],
            eip: self.stack[index + 7],
            cs: self.stack[index + 8],
            eflags: self.stack[index + 9],
            esp: self.stack[index + 10],
            ss: self.stack[index + 11],
        };
        assert(r.words() =~= self.stack@.subrange(index as int, index + FRAME_WORDS));
        r
    }
}


/// Number of running slots among `tasks`.
pub open spec fn count_running(tasks: Seq<Task>) -> nat
    decreases tasks.len(),
{
    if tasks.len() == 0 {
        0
    } else {
        count_running(tasks.drop_last()) + if tasks.last().running {
            1nat
        } else {
            0nat
        }
    }
}

/// Number of steps from slot `cur` to slot `r` going forward round the table:
/// 1 for the slot right after `cur`, `MAX_TASKS` for `cur` itself.
pub open spec fn gap(cur: int, r: int) -> int {
    (r - cur - 1) % (MAX_TASKS as int) + 1
}

/// The slot `k` steps after `cur` round the table.
pub open spec fn slot_after(cur: int, k: int) -> int {
    (cur + k) % (MAX_TASKS as int)
}

/// What the task table holds: its slots, the live-task counter and the
/// current slot (-1 before the first schedule).
pub struct TaskTable {
    pub tasks: Seq<Task>,
    pub count: int,
    pub current: int,
}

impl TaskTable {
    pub open spec fn running(self, i: int) -> bool {
        self.tasks[i].running
    }

    /// Shape of every reachable table: 32 slots, a current slot in range, and
    /// a counter that never exceeds the number of running slots.
    pub open spec fn wf(self) -> bool {
        &&& self.tasks.len() == MAX_TASKS
        &&& -1 <= self.current < MAX_TASKS
        &&& self.count <= count_running(self.tasks)
    }

    /// The counter equals the number of running slots and slot 0 is running.
    pub open spec fn consistent(self) -> bool {
        &&& self.tasks.len() == MAX_TASKS
        &&& self.count == count_running(self.tasks)
        &&& self.running(0)
    }

    /// `i` is the lowest free slot.
    pub open spec fn is_first_free(self, i: int) -> bool {
        &&& 0 <= i < MAX_TASKS
        &&& !self.running(i)
        &&& forall|j: int| 0 <= j < i ==> #[trigger] self.running(j)
    }

    /// The lowest free slot, or -1 when every slot is running.
    pub open spec fn free_slot(self) -> int {
        if exists|i: int| self.is_first_free(i) {
            choose|i: int| self.is_first_free(i)
        } else {
            -1
        }
    }

    /// `r` is the first running slot found going forward round the table
    /// from the slot after `cur`.
    pub open spec fn is_next(self, cur: int, r: int) -> bool {
        &&& 0 <= r < MAX_TASKS
        &&& self.running(r)
        &&& forall|k: int| 1 <= k < gap(cur, r) ==> !self.running(#[trigger] slot_after(cur, k))
    }

    /// The slot that round-robin selection picks after `cur`, or -1 when no
    /// slot is running.
    pub open spec fn next_after(self, cur: int) -> int {
        if exists|r: int| self.is_next(cur, r) {
            choose|r: int| self.is_next(cur, r)
        } else {
            -1
        }
    }

    /// `next` is this table after `add_task(entry)`: the lowest free slot is
    /// started at `entry` and counted; with no free slot nothing changes.
    pub open spec fn added(self, next: TaskTable, entry: u32) -> bool {
        let s = self.free_slot();
        if s == -1 {
            next == self
        } else {
            &&& next.tasks.len() == self.tasks.len()
            &&& forall|i: int| 0 <= i < self.tasks.len() && i != s ==> next.tasks[i] == self.tasks[i]
            &&& Task::started(self.tasks[s], next.tasks[s], entry)
            &&& next.count == self.count + 1
            &&& next.current == self.current
        }
    }

    /// `next` is this table after `schedule(saved)` returned `r`: with no
    /// live task nothing changes and `saved` comes back; otherwise `saved` is
    /// stored in the current slot (if any), the next slot is selected
    /// round-robin and `r` is its saved frame location.
    pub open spec fn scheduled(self, next: TaskTable, saved: u32, r: u32) -> bool {
        if self.count <= 0 {
            r == saved && next == self
        } else {
            let cur = self.current;
            &&& next.count == self.count
            &&& next.current == self.next_after(cur)
            &&& self.is_next(cur, next.current)
            &&& next.tasks.len() == MAX_TASKS
            &&& forall|i: int| 0 <= i < MAX_TASKS && i != cur ==> next.tasks[i] == self.tasks[i]
            &&& cur >= 0 ==> next.tasks[cur] == (Task { cpu_state_ptr: saved, ..self.tasks[cur] })
            &&& r == next.tasks[next.current].cpu_state_ptr
        }
    }

    /// `next` is this table after `remove_task(id)`: slot 0 is kept; any other
    /// slot is cleared and the counter goes down by one, whether or not the
    /// slot was running.
    pub open spec fn removed(self, next: TaskTable, id: int) -> bool {
        if id == 0 {
            next == self
        } else {
            &&& next.tasks.len() == self.tasks.len()
            &&& forall|i: int| 0 <= i < self.tasks.len() && i != id ==> next.tasks[i] == self.tasks[i]
            &&& next.tasks[id].is_null()
            &&& next.count == self.count - 1
            &&& next.current == self.current
        }
    }
}

/// Owner of the task slots.
pub struct TaskManager {
    tasks: [Task; 32],
    task_count: i8,
    current_task: i8,
}

impl View for TaskManager {
    type V = TaskTable;

    closed spec fn view(&self) -> TaskTable {
        TaskTable {
            tasks: self.tasks@,
            count: self.task_count as int,
            current: self.current_task as int,
        }
    }
}

impl TaskManager {
    /// An empty table: no slot running, nothing scheduled yet.
    pub fn new() -> (r: TaskManager)
        ensures
            r@.wf(),
            r@.count == 0,
            r@.current == -1,
            forall|i: int| 0 <= i < MAX_TASKS ==> (#[trigger] r@.tasks[i]).is_null(),
    {
        let null = Task::null();
        let r = TaskManager { tasks: [null; 32], task_count: 0, current_task: -1 };
        proof {
            lemma_count_none_running(r.tasks@);
        }
        r
    }

    /// Whether the slot holds a live task.
    pub fn is_running(&self, id: usize) -> (r: bool)
        requires
            self@.wf(),
            id < MAX_TASKS,
        ensures
            r == self@.running(id as int),
    {
        self.tasks[id].running
    }

    /// The lowest free slot, or -1 when every slot is running.
    pub fn get_free_slot(&self) -> (r: i8)
        requires
            self@.wf(),
        ensures
            r == self@.free_slot(),
            r == -1 ==> forall|i: int| 0 <= i < MAX_TASKS ==> #[trigger] self@.running(i),
            r != -1 ==> self@.is_first_free(r as int),
    {
        let mut i: i8 = 0;
        while i < MAX_TASKS
            invariant
                0 <= i <= MAX_TASKS,
                self@.wf(),
                forall|j: int| 0 <= j < i ==> #[trigger] self@.running(j),
            decreases MAX_TASKS - i,
        {
            if !self.tasks[i as usize].running {
                proof {
                    assert(self@.is_first_free(i as int));
                    lemma_first_free_unique(self@, i as int);
                }
                return i;
            }
            i = i + 1;
        }
        proof {
            if exists|j: int| self@.is_first_free(j) {
                let j = choose|j: int| self@.is_first_free(j);
                assert(self@.running(j));
            }
        }
        -1
    }

    /// The current slot, or -1 before the first schedule.
    pub fn get_current_slot(&self) -> (r: i8)
        ensures
            r == self@.current,
    {
        self.current_task
    }

    /// The live-task counter.
    pub fn get_task_count(&self) -> (r: i8)
        ensures
            r == self@.count,
    {
        self.task_count
    }

    /// The slot's saved-frame location.
    pub fn get_state_ptr(&self, id: usize) -> (r: u32)
        requires
            self@.wf(),
            id < MAX_TASKS,
        ensures
            r == self@.tasks[id as int].cpu_state_ptr,
    {
        self.tasks[id].cpu_state_ptr
    }

    /// Starts a task at `entry_point` in the lowest free slot and counts it.
    /// With every slot running nothing happens.
    pub fn add_task(&mut self, entry_point: u32)
        requires
            old(self)@.wf(),
        ensures
            final(self)@.wf(),
            old(self)@.added(final(self)@, entry_point),
    {
        let slot = self.get_free_slot();
        if slot >= 0 {
            let s = slot as usize;
            let mut t = self.tasks[s];
            t.init(entry_point);
            proof {
                lemma_count_update(self.tasks@, s as int, t);
                lemma_count_bound(self.tasks@);
            }
            self.tasks[s] = t;
            self.task_count = self.task_count + 1;
        }
    }

    /// Registers the idle task, which runs at `idle_entry`; on an empty table
    /// it lands in slot 0 and the counter becomes 1.
    pub fn init(&mut self, idle_entry: u32)
        requires
            old(self)@.wf(),
        ensures
            final(self)@.wf(),
            old(self)@.added(final(self)@, idle_entry),
            old(self)@.count == 0 && (forall|i: int| 0 <= i < MAX_TASKS ==> !#[trigger] old(self)@.running(i))
                ==> final(self)@.consistent() && final(self)@.running(0),
    {
        self.add_task(idle_entry);
        proof {
            let t0 = old(self)@;
            if t0.count == 0 && (forall|i: int| 0 <= i < MAX_TASKS ==> !#[trigger] t0.running(i)) {
                assert(t0.is_first_free(0));
                lemma_first_free_unique(t0, 0);
                assert forall|i: int| 0 <= i < t0.tasks.len() implies !(#[trigger] t0.tasks[i]).running by {
                    assert(!t0.running(i));
                }
                lemma_count_none_running(t0.tasks);
                lemma_count_update(t0.tasks, 0, self@.tasks[0]);
                assert(self@.tasks =~= t0.tasks.update(0, self@.tasks[0]));
            }
        }
    }

    /// Clears slot `id` and counts one task fewer. Slot 0 is never cleared.
    /// The counter goes down even when the slot was already free.
    pub fn remove_task(&mut self, id: usize)
        requires
            old(self)@.wf(),
            id < MAX_TASKS,
            old(self)@.count > i8::MIN,
        ensures
            old(self)@.removed(final(self)@, id as int),
            final(self)@.wf(),
    {
        if id != 0 {
            let null = Task::null();
            proof {
                lemma_count_update(self.tasks@, id as int, null);
            }
            self.tasks[id] = null;
            self.task_count = self.task_count - 1;
        }
    }

    /// Removes the task in the current slot.
    pub fn remove_current_task(&mut self)
        requires
            old(self)@.wf(),
            old(self)@.current >= 0,
            old(self)@.count > i8::MIN,
        ensures
            final(self)@.wf(),
            old(self)@.removed(final(self)@, old(self)@.current),
    {
        self.remove_task(self.current_task as usize);
    }

    /// Round-robin selection: the first running slot going forward round the
    /// table from the slot after the current one; -1 when none is running.
    pub fn get_next_task(&self) -> (r: i8)
        requires
            self@.wf(),
        ensures
            r == self@.next_after(self@.current),
            r == -1 <==> forall|i: int| 0 <= i < MAX_TASKS ==> !#[trigger] self@.running(i),
            r != -1 ==> self@.is_next(self@.current, r as int),
    {
        let cur: i32 = self.current_task as i32;
        let mut k: i32 = 1;
        while k <= 32
            invariant
                1 <= k <= 33,
                cur == self@.current,
                self@.wf(),
                forall|j: int| 1 <= j < k ==> !self@.running(#[trigger] slot_after(cur as int, j)),
            decreases 33 - k,
        {
            let i: i32 = (cur + k) % 32;
            proof {
                lemma_slot_gap(cur as int, k as int);
            }
            if self.tasks[i as usize].running {
                proof {
                    assert(self@.is_next(cur as int, i as int));
                    lemma_next_unique(self@, cur as int, i as int);
                }
                return i as i8;
            }
            k = k + 1;
        }
        proof {
            assert forall|i: int| 0 <= i < MAX_TASKS implies !#[trigger] self@.running(i) by {
                lemma_gap_slot(cur as int, i);
            }
            if exists|r: int| self@.is_next(cur as int, r) {
                let r = choose|r: int| self@.is_next(cur as int, r);
                assert(self@.running(r));
            }
        }
        -1
    }

    /// Timer-interrupt entry: with no live task the saved frame location is
    /// handed back unchanged. Otherwise it is stored in the current slot (if
    /// one has been scheduled), the next slot is selected round-robin, and its
    /// saved frame location is returned.
    pub fn schedule(&mut self, cpu_state: u32) -> (r: u32)
        requires
            old(self)@.wf(),
        ensures
            final(self)@.wf(),
            old(self)@.scheduled(final(self)@, cpu_state, r),
    {
        if self.task_count <= 0 {
            return cpu_state;
        }
        let ghost before = self@;
        if self.current_task >= 0 {
            let c = self.current_task as usize;
            let mut t = self.tasks[c];
            t.cpu_state_ptr = cpu_state;
            proof {
                lemma_count_update(self.tasks@, c as int, t);
            }
            self.tasks[c] = t;
        }
        proof {
            lemma_count_positive_running(self@.tasks);
            lemma_same_running_same_next(before, self@);
            let w = choose|w: int| 0 <= w < self@.tasks.len() && (#[trigger] self@.tasks[w]).running;
            assert(self@.running(w));
        }
        let next = self.get_next_task();
        self.current_task = next;
        self.tasks[next as usize].cpu_state_ptr
    }

    /// The running slots, in ascending order.
    pub fn list_tasks(&self) -> (r: Vec<i8>)
        requires
            self@.wf(),
        ensures
            forall|k: int| 0 <= k < r.len() ==> 0 <= #[trigger] r@[k] < MAX_TASKS && self@.running(r@[k] as int),
            forall|k: int, l: int| 0 <= k < l < r.len() ==> r@[k] < r@[l],
            forall|i: int| 0 <= i < MAX_TASKS && #[trigger] self@.running(i) ==> r@.contains(i as i8),
    {
        let mut r: Vec<i8> = Vec::new();
        let mut i: i8 = 0;
        while i < MAX_TASKS
            invariant
                0 <= i <= MAX_TASKS,
                self@.wf(),
                forall|k: int| 0 <= k < r.len() ==> 0 <= #[trigger] r@[k] < i && self@.running(r@[k] as int),
                forall|k: int, l: int| 0 <= k < l < r.len() ==> r@[k] < r@[l],
                forall|j: int| 0 <= j < i && #[trigger] self@.running(j) ==> r@.contains(j as i8),
            decreases MAX_TASKS - i,
        {
            if self.tasks[i as usize].running {
                let ghost old_r = r@;
                r.push(i);
                proof {
                    assert forall|j: int| 0 <= j < i + 1 && #[trigger] self@.running(j) implies r@.contains(j as i8) by {
                        if j < i {
                            let w = choose|w: int| 0 <= w < old_r.len() && old_r[w] == j as i8;
                            assert(r@[w] == j as i8);
                        } else {
                            assert(r@[r.len() - 1] == i);
                        }
                    }
                }
            }
            i = i + 1;
        }
        r
    }
}

proof fn lemma_first_free_unique(t: TaskTable, i: int)
    requires
        t.is_first_free(i),
    ensures
        t.free_slot() == i,
{
    let c = choose|c: int| t.is_first_free(c);
    if c < i {
        assert(t.running(c));
    } else if c > i {
        assert(t.running(i));
    }
}

proof fn lemma_count_none_running(tasks: Seq<Task>)
    requires
        forall|i: int| 0 <= i < tasks.len() ==> !(#[trigger] tasks[i]).running,
    ensures
        count_running(tasks) == 0,
    decreases tasks.len(),
{
    if tasks.len() > 0 {
        lemma_count_none_running(tasks.drop_last());
    }
}

proof fn lemma_count_update(tasks: Seq<Task>, i: int, t: Task)
    requires
        0 <= i < tasks.len(),
    ensures
        count_running(tasks.update(i, t)) + (if tasks[i].running {
            1int
        } else {
            0int
        }) == count_running(tasks) + (if t.running {
            1int
        } else {
            0int
        }),
    decreases tasks.len(),
{
    let u = tasks.update(i, t);
    if i == tasks.len() - 1 {
        assert(u.drop_last() =~= tasks.drop_last());
    } else {
        assert(u.drop_last() =~= tasks.drop_last().update(i, t));
        lemma_count_update(tasks.drop_last(), i, t);
    }
}

proof fn lemma_count_bound(tasks: Seq<Task>)
    ensures
        count_running(tasks) <= tasks.len(),
    decreases tasks.len(),
{
    if tasks.len() > 0 {
        lemma_count_bound(tasks.drop_last());
    }
}

proof fn lemma_slot_gap(cur: int, k: int)
    requires
        -1 <= cur < MAX_TASKS,
        1 <= k <= MAX_TASKS,
    ensures
        0 <= slot_after(cur, k) < MAX_TASKS,
        slot_after(cur, k) == if cur + k >= MAX_TASKS { cur + k - MAX_TASKS } else { cur + k },
        gap(cur, slot_after(cur, k)) == k,
{
    let s = slot_after(cur, k);
    if cur + k >= MAX_TASKS {
        assert(s == cur + k - 32);
        assert(gap(cur, s) == (k - 33) % 32 + 1);
    } else {
        assert(s == cur + k);
    }
}

proof fn lemma_gap_slot(cur: int, i: int)
    requires
        -1 <= cur < MAX_TASKS,
        0 <= i < MAX_TASKS,
    ensures
        1 <= gap(cur, i) <= MAX_TASKS,
        slot_after(cur, gap(cur, i)) == i,
        gap(cur, i) == if i > cur { i - cur } else { i - cur + MAX_TASKS },
{
    if i > cur {
        assert(gap(cur, i) == i - cur);
    } else {
        assert((i - cur - 1) % 32 == i - cur + 31);
        assert(gap(cur, i) == i - cur + 32);
    }
}

proof fn lemma_next_unique(t: TaskTable, cur: int, r: int)
    requires
        t.tasks.len() == MAX_TASKS,
        -1 <= cur < MAX_TASKS,
        t.is_next(cur, r),
    ensures
        t.next_after(cur) == r,
{
    let c = choose|c: int| t.is_next(cur, c);
    lemma_gap_slot(cur, c);
    lemma_gap_slot(cur, r);
    if gap(cur, c) < gap(cur, r) {
        assert(!t.running(slot_after(cur, gap(cur, c))));
    } else if gap(cur, c) > gap(cur, r) {
        assert(!t.running(slot_after(cur, gap(cur, r))));
    }
}

proof fn lemma_count_positive_running(tasks: Seq<Task>)
    requires
        count_running(tasks) > 0,
    ensures
        exists|i: int| 0 <= i < tasks.len() && (#[trigger] tasks[i]).running,
    decreases tasks.len(),
{
    if !tasks.last().running {
        lemma_count_positive_running(tasks.drop_last());
        let i = choose|i: int| 0 <= i < tasks.drop_last().len() && (#[trigger] tasks.drop_last()[i]).running;
        assert(tasks[i].running);
    } else {
        assert(tasks[tasks.len() - 1].running);
    }
}

proof fn lemma_same_running_same_next(a: TaskTable, b: TaskTable)
    requires
        a.tasks.len() == b.tasks.len(),
        a.tasks.len() == MAX_TASKS,
        forall|i: int| 0 <= i < a.tasks.len() ==> a.running(i) == b.running(i),
    ensures
        forall|cur: int, r: int| a.is_next(cur, r) == b.is_next(cur, r),
        forall|cur: int| -1 <= cur < MAX_TASKS ==> a.next_after(cur) == b.next_after(cur),
{
    assert forall|cur: int, r: int| a.is_next(cur, r) == b.is_next(cur, r) by {
        if a.is_next(cur, r) {
            assert forall|k: int| 1 <= k < gap(cur, r) implies !b.running(#[trigger] slot_after(cur, k)) by {
                assert(0 <= slot_after(cur, k) < 32);
                assert(!a.running(slot_after(cur, k)));
            }
        }
        if b.is_next(cur, r) {
            assert forall|k: int| 1 <= k < gap(cur, r) implies !a.running(#[trigger] slot_after(cur, k)) by {
                assert(0 <= slot_after(cur, k) < 32);
                assert(!b.running(slot_after(cur, k)));
            }
        }
    }
    assert forall|cur: int| -1 <= cur < MAX_TASKS implies a.next_after(cur) == b.next_after(cur) by {
        if exists|r: int| a.is_next(cur, r) {
            let r = choose|r: int| a.is_next(cur, r);
            assert(b.is_next(cur, r));
            lemma_next_unique(a, cur, r);
            lemma_next_unique(b, cur, r);
        } else {
            assert(!exists|r: int| b.is_next(cur, r));
        }
    }
}

/// One call on the task table.
pub enum TaskOp {
    Add(u32),
    Remove(usize),
}

impl TaskTable {
    /// `next` is this table after `op`.
    pub open spec fn step(self, next: TaskTable, op: TaskOp) -> bool {
        match op {
            TaskOp::Add(entry) => self.added(next, entry),
            TaskOp::Remove(id) => self.removed(next, id as int),
        }
    }

    /// `op` removes only slot 0 or a running slot.
    pub open spec fn removes_live(self, op: TaskOp) -> bool {
        match op {
            TaskOp::Add(_) => true,
            TaskOp::Remove(id) => id == 0 || (id < MAX_TASKS && self.running(id as int)),
        }
    }
}

/// Over any run of `add_task` and `remove_task` calls that starts from a
/// consistent table, the counter equals the number of running slots and slot
/// 0 stays running in every state, as long as no call removes a slot that is
/// already free (which would count it down a second time).
pub proof fn lemma_count_matches_running(states: Seq<TaskTable>, ops: Seq<TaskOp>)
    requires
        states.len() == ops.len() + 1,
        states[0].consistent(),
        forall|k: int| 0 <= k < ops.len() ==> #[trigger] states[k].step(states[k + 1], ops[k]),
        forall|k: int| 0 <= k < ops.len() ==> #[trigger] states[k].removes_live(ops[k]),
    ensures
        forall|k: int| 0 <= k < states.len() ==> #[trigger] states[k].consistent(),
    decreases ops.len(),
{
    if ops.len() > 0 {
        let n = ops.len() - 1;
        lemma_count_matches_running(states.drop_last(), ops.drop_last());
        assert(states.drop_last()[n].consistent());
        assert(states[n].step(states[n + 1], ops[n]));
        assert(states[n].removes_live(ops[n]));
        lemma_step_consistent(states[n], states[n + 1], ops[n]);
        assert forall|k: int| 0 <= k < states.len() implies #[trigger] states[k].consistent() by {
            if k < n + 1 {
                assert(states.drop_last()[k] == states[k]);
            }
        }
    }
}

proof fn lemma_step_consistent(t: TaskTable, next: TaskTable, op: TaskOp)
    requires
        t.consistent(),
        t.step(next, op),
        t.removes_live(op),
    ensures
        next.consistent(),
{
    match op {
        TaskOp::Add(entry) => {
            let s = t.free_slot();
            if s != -1 {
                let c = choose|i: int| t.is_first_free(i);
                assert(t.is_first_free(c));
                lemma_count_update(t.tasks, s, next.tasks[s]);
                assert(next.tasks =~= t.tasks.update(s, next.tasks[s]));
            }
        },
        TaskOp::Remove(id) => {
            if id != 0 {
                lemma_count_update(t.tasks, id as int, next.tasks[id as int]);
                assert(next.tasks =~= t.tasks.update(id as int, next.tasks[id as int]));
            }
        },
    }
}

impl TaskTable {
    /// The slot picked by the `k`-th of `k` consecutive round-robin
    /// selections that start from current slot `cur` (`cur` itself for 0).
    pub open spec fn pick(self, cur: int, k: nat) -> int
        decreases k,
    {
        if k == 0 {
            cur
        } else {
            self.next_after(self.pick(cur, (k - 1) as nat))
        }
    }
}

/// Round-robin fairness: starting from any current slot, the next `count`
/// selections (with the table left unchanged meanwhile) pick running slots
/// only, never the same slot twice, and every running slot once.
pub proof fn lemma_round_robin(t: TaskTable, cur: int)
    requires
        t.tasks.len() == MAX_TASKS,
        -1 <= cur < MAX_TASKS,
        t.count == count_running(t.tasks),
    ensures
        forall|k: nat| 1 <= k <= t.count ==> 0 <= #[trigger] t.pick(cur, k) < MAX_TASKS && t.running(t.pick(cur, k)),
        forall|k: nat, l: nat| 1 <= k < l <= t.count ==> #[trigger] t.pick(cur, k) != #[trigger] t.pick(cur, l),
        forall|i: int|
            0 <= i < MAX_TASKS && #[trigger] t.running(i) ==> exists|k: nat| 1 <= k <= t.count && t.pick(cur, k) == i,
{
    let n = count_running(t.tasks);
    if n == 0 {
        assert forall|i: int| 0 <= i < MAX_TASKS && #[trigger] t.running(i) implies exists|k: nat|
            1 <= k <= t.count && t.pick(cur, k) == i by {
            assert(t.tasks[i].running);
            lemma_set_le_count(t.tasks, set![i]);
        }
        return;
    }
    lemma_rr_prefix(t, cur, n);
    assert forall|k: nat, l: nat| 1 <= k < l <= t.count implies #[trigger] t.pick(cur, k) != #[trigger] t.pick(
        cur,
        l,
    ) by {
        assert(gap(cur, t.pick(cur, k)) < gap(cur, t.pick(cur, l)));
    }
    assert forall|i: int| 0 <= i < MAX_TASKS && #[trigger] t.running(i) implies exists|k: nat|
        1 <= k <= t.count && t.pick(cur, k) == i by {
        if gap(cur, i) > gap(cur, t.pick(cur, n)) {
            let vs = Seq::new(n, |j: int| t.pick(cur, (j + 1) as nat));
            assert forall|a: int, b: int| 0 <= a < vs.len() && 0 <= b < vs.len() && a != b implies vs[a] != vs[b] by {
                if a < b {
                    assert(t.pick(cur, (a + 1) as nat) != t.pick(cur, (b + 1) as nat));
                } else {
                    assert(t.pick(cur, (b + 1) as nat) != t.pick(cur, (a + 1) as nat));
                }
            }
            vs.unique_seq_to_set();
            assert(!vs.to_set().contains(i)) by {
                if vs.to_set().contains(i) {
                    let j = choose|j: int| 0 <= j < vs.len() && vs[j] == i;
                    assert(gap(cur, t.pick(cur, (j + 1) as nat)) <= gap(cur, t.pick(cur, n)));
                }
            }
            let big = vs.to_set().insert(i);
            assert forall|x: int| big.contains(x) implies 0 <= x < t.tasks.len() && t.tasks[x].running by {
                if x != i {
                    let j = choose|j: int| 0 <= j < vs.len() && vs[j] == x;
                    assert(t.running(t.pick(cur, (j + 1) as nat)));
                }
            }
            lemma_set_le_count(t.tasks, big);
        }
    }
}

/// The first `k` selections from `cur` pick running slots further and further
/// round the table from `cur`, skipping no running slot.
proof fn lemma_rr_prefix(t: TaskTable, cur: int, k: nat)
    requires
        t.tasks.len() == MAX_TASKS,
        -1 <= cur < MAX_TASKS,
        1 <= k <= count_running(t.tasks),
    ensures
        forall|j: nat| 1 <= j <= k ==> 0 <= #[trigger] t.pick(cur, j) < MAX_TASKS && t.running(t.pick(cur, j)),
        forall|i: nat, j: nat| 1 <= i < j <= k ==> gap(cur, #[trigger] t.pick(cur, i)) < gap(cur, #[trigger] t.pick(cur, j)),
        forall|x: int|
            0 <= x < MAX_TASKS && #[trigger] t.running(x) && gap(cur, x) <= gap(cur, t.pick(cur, k)) ==> exists|j: nat|
                1 <= j <= k && t.pick(cur, j) == x,
    decreases k,
{
    if k == 1 {
        lemma_count_positive_running(t.tasks);
        let w = choose|w: int| 0 <= w < t.tasks.len() && (#[trigger] t.tasks[w]).running;
        assert(t.running(w));
        lemma_next_exists(t, cur, w);
        let r = t.pick(cur, 1);
        assert(t.pick(cur, 0) == cur);
        assert(r == t.next_after(cur));
        assert forall|x: int|
            0 <= x < MAX_TASKS && #[trigger] t.running(x) && gap(cur, x) <= gap(cur, r) implies exists|j: nat|
            1 <= j <= 1 && t.pick(cur, j) == x by {
            lemma_gap_slot(cur, x);
            lemma_gap_slot(cur, r);
            if gap(cur, x) < gap(cur, r) {
                assert(!t.running(slot_after(cur, gap(cur, x))));
            }
            assert(t.pick(cur, 1) == x);
        }
    } else {
        lemma_rr_prefix(t, cur, (k - 1) as nat);
        let m = t.pick(cur, (k - 1) as nat);
        assert(0 <= m < MAX_TASKS && t.running(m));
        // Some running slot lies beyond `m`; otherwise the earlier picks would
        // already cover every running slot.
        let vs = Seq::new((k - 1) as nat, |j: int| t.pick(cur, (j + 1) as nat));
        let x = if exists|x: int| 0 <= x < MAX_TASKS && t.running(x) && gap(cur, x) > gap(cur, m) {
            choose|x: int| 0 <= x < MAX_TASKS && t.running(x) && gap(cur, x) > gap(cur, m)
        } else {
            -1
        };
        if x == -1 {
            assert forall|i: int| 0 <= i < t.tasks.len() && t.tasks[i].running implies vs.to_set().contains(i) by {
                assert(t.running(i));
                let j = choose|j: nat| 1 <= j <= k - 1 && t.pick(cur, j) == i;
                assert(vs[j - 1] == i);
            }
            vs.lemma_cardinality_of_set();
            lemma_count_le_set(t.tasks, vs.to_set());
            assert(false);
        }
        lemma_gap_slot(cur, m);
        lemma_gap_slot(cur, x);
        lemma_next_exists(t, m, x);
        let y = t.next_after(m);
        assert(t.pick(cur, k) == y);
        lemma_gap_diff(cur, m, x);
        lemma_gap_slot(m, y);
        lemma_gap_shift(cur, m, gap(m, y));
        assert(gap(cur, y) == gap(cur, m) + gap(m, y));
        assert forall|j: nat| 1 <= j <= k implies 0 <= #[trigger] t.pick(cur, j) < MAX_TASKS && t.running(
            t.pick(cur, j),
        ) by {
            if j < k {
                assert(0 <= t.pick(cur, j) < MAX_TASKS);
            }
        }
        assert forall|i: nat, j: nat| 1 <= i < j <= k implies gap(cur, #[trigger] t.pick(cur, i)) < gap(
            cur,
            #[trigger] t.pick(cur, j),
        ) by {
            if j < k {
                assert(gap(cur, t.pick(cur, i)) < gap(cur, t.pick(cur, j)));
            } else if i < k - 1 {
                assert(gap(cur, t.pick(cur, i)) < gap(cur, t.pick(cur, (k - 1) as nat)));
            }
        }
        assert forall|z: int|
            0 <= z < MAX_TASKS && #[trigger] t.running(z) && gap(cur, z) <= gap(cur, t.pick(cur, k)) implies exists|j: nat|
            1 <= j <= k && t.pick(cur, j) == z by {
            if gap(cur, z) <= gap(cur, m) {
                let j = choose|j: nat| 1 <= j <= k - 1 && t.pick(cur, j) == z;
                assert(1 <= j <= k && t.pick(cur, j) == z);
            } else {
                lemma_gap_slot(cur, z);
                lemma_gap_diff(cur, m, z);
                lemma_gap_slot(m, z);
                if gap(m, z) < gap(m, y) {
                    assert(!t.running(slot_after(m, gap(m, z))));
                }
                assert(z == slot_after(m, gap(m, y)));
                assert(t.pick(cur, k) == z);
            }
        }
    }
}

/// Going `j` further from slot `a` moves `j` further from `cur`, as long as
/// it does not wrap past `cur`.
proof fn lemma_gap_shift(cur: int, a: int, j: int)
    requires
        -1 <= cur < MAX_TASKS,
        0 <= a < MAX_TASKS,
        1 <= j,
        gap(cur, a) + j <= MAX_TASKS,
    ensures
        gap(cur, slot_after(a, j)) == gap(cur, a) + j,
{
    lemma_gap_slot(cur, a);
    lemma_slot_gap(a, j);
    lemma_gap_slot(cur, slot_after(a, j));
}

/// From `a` to `b` is the difference of their distances from `cur`, when `b`
/// lies further from `cur`.
proof fn lemma_gap_diff(cur: int, a: int, b: int)
    requires
        -1 <= cur < MAX_TASKS,
        0 <= a < MAX_TASKS,
        0 <= b < MAX_TASKS,
        gap(cur, a) < gap(cur, b),
    ensures
        gap(a, b) == gap(cur, b) - gap(cur, a),
{
    lemma_gap_slot(cur, a);
    lemma_gap_slot(cur, b);
    lemma_gap_slot(a, b);
}

/// With slot `x` running, the selection after `a` exists and is no further
/// than `x`.
proof fn lemma_next_exists(t: TaskTable, a: int, x: int)
    requires
        t.tasks.len() == MAX_TASKS,
        -1 <= a < MAX_TASKS,
        0 <= x < MAX_TASKS,
        t.running(x),
    ensures
        t.is_next(a, t.next_after(a)),
        gap(a, t.next_after(a)) <= gap(a, x),
{
    lemma_gap_slot(a, x);
    lemma_first_running(t, a, 1, x);
    let r = choose|r: int| t.is_next(a, r) && gap(a, r) <= gap(a, x);
    lemma_next_unique(t, a, r);
}

proof fn lemma_first_running(t: TaskTable, a: int, j: int, x: int)
    requires
        t.tasks.len() == MAX_TASKS,
        -1 <= a < MAX_TASKS,
        0 <= x < MAX_TASKS,
        t.running(x),
        1 <= j <= gap(a, x),
        gap(a, x) <= MAX_TASKS,
        slot_after(a, gap(a, x)) == x,
        forall|l: int| 1 <= l < j ==> !t.running(#[trigger] slot_after(a, l)),
    ensures
        exists|r: int| t.is_next(a, r) && gap(a, r) <= gap(a, x),
    decreases gap(a, x) - j,
{
    lemma_slot_gap(a, j);
    let s = slot_after(a, j);
    if t.running(s) {
        assert(t.is_next(a, s));
    } else {
        lemma_first_running(t, a, j + 1, x);
    }
}

/// A finite set holding every running slot has at least as many elements as
/// there are running slots.
proof fn lemma_count_le_set(tasks: Seq<Task>, s: Set<int>)
    requires
        s.finite(),
        forall|i: int| 0 <= i < tasks.len() && tasks[i].running ==> s.contains(i),
    ensures
        count_running(tasks) <= s.len(),
    decreases tasks.len(),
{
    if tasks.len() > 0 {
        let last = tasks.len() - 1;
        if tasks.last().running {
            assert(tasks[last].running);
            lemma_count_le_set(tasks.drop_last(), s.remove(last));
        } else {
            assert forall|i: int| 0 <= i < tasks.drop_last().len() && tasks.drop_last()[i].running implies s.contains(i) by {
                assert(tasks[i] == tasks.drop_last()[i]);
            }
            lemma_count_le_set(tasks.drop_last(), s);
        }
    }
}

/// A set of running slots has at most as many elements as there are running
/// slots.
proof fn lemma_set_le_count(tasks: Seq<Task>, s: Set<int>)
    requires
        s.finite(),
        forall|i: int| s.contains(i) ==> 0 <= i < tasks.len() && tasks[i].running,
    ensures
        s.len() <= count_running(tasks),
    decreases tasks.len(),
{
    if tasks.len() == 0 {
        if s.len() > 0 {
            let e = s.choose();
            assert(s.contains(e));
        }
    } else {
        let last = tasks.len() - 1;
        let rest = s.remove(last);
        assert forall|i: int| rest.contains(i) implies 0 <= i < tasks.drop_last().len() && tasks.drop_last()[i].running by {
            assert(tasks[i] == tasks.drop_last()[i]);
        }
        lemma_set_le_count(tasks.drop_last(), rest);
        if s.contains(last) {
            assert(tasks[last].running);
        } else {
            assert(rest =~= s);
        }
    }
}

} // verus!
