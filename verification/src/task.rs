//! Tasks and the preemptive round-robin scheduler.
//!
//! Task 0 is the idle task (S-mode, kernel page table); tasks 1 and 2 are user tasks, each
//! with its own Sv39 address space.
use crate::arch::{SSTATUS_SPIE, SSTATUS_SPP};
use crate::mm::frame::{alloc_frame, FrameAllocator};
use crate::mm::pagetable::{
    in_frame, l0_set, l1_set, last_hit, lemma_frames_taken, lemma_fresh_table, lemma_last_hit_run,
    lemma_leaf_result,
    lemma_range_translation_run, lemma_run_translation_inside, outside_tables, page_index, level0_result, make_satp, map_range, range_l0s,
    range_l1s, range_pages, range_start, run_translation, satp_word, table_wf, translation,
    zero_table,
};
use crate::mm::phys::{byte_at, word_base, MemoryView, PhysMemory};
use crate::mm::pte::{encode, PTE_A, PTE_D, PTE_R, PTE_U, PTE_V, PTE_W, PTE_X};
use crate::mm::copy::{user_byte, user_read_pa, user_write_pa};
use crate::mm::space::{
    image_byte, lemma_run_frames_mono, lemma_word_in_frame, map_user_pages, page_frame, run_frames,
};
use crate::mm::{
    align_up, dram_pages, kernel_map_tables, page_ceil, KernelSpace, KERNEL_PTE_FLAGS,
    MEMORY_END, MEMORY_START, PAGE_SIZE, USER_BASE, USER_STACK_PAGES, USER_STACK_TOP,
};
use crate::trap::{zero_frame, TrapFrame};
use vstd::prelude::*;

verus! {

pub const NUM_USER_TASKS: usize = 2;

pub const NUM_TASKS: usize = 3;

/// The size of each task's kernel stack.
pub const KSTACK_SIZE: usize = 16384;

/// The life cycle of a task.
#[derive(Clone, Copy, PartialEq, Eq, Structural, Debug)]
pub enum TaskState {
    Ready,
    Running,
    /// Asleep until the given tick.
    Sleeping(u64),
    /// Finished, with its exit code.
    Exited(i32),
}

/// A task: its state, the registers it resumes with, the address of its kernel stack and
/// its address space.
#[derive(Clone, Copy, PartialEq, Eq, Structural, Debug)]
pub struct Task {
    pub id: usize,
    pub is_user: bool,
    pub state: TaskState,
    pub trapframe: TrapFrame,
    /// The lowest address of the task's kernel stack of `KSTACK_SIZE` bytes.
    pub kstack_base: usize,
    /// Physical address of the root page table.
    pub root_pa: usize,
    /// The satp value that selects the task's page table.
    pub satp: usize,
}

impl Task {
    /// A ready task with zeroed registers and no address space yet; its kernel stack starts
    /// at the 16-byte-aligned address `kstack_base`.
    pub fn new(id: usize, is_user: bool, kstack_base: usize) -> (t: Self)
        requires
            kstack_base % 16 == 0,
        ensures
            t == (Task {
                id,
                is_user,
                state: TaskState::Ready,
                trapframe: zero_frame(),
                kstack_base,
                root_pa: 0,
                satp: 0,
            }),
    {
        Task {
            id,
            is_user,
            state: TaskState::Ready,
            trapframe: TrapFrame::zero(),
            kstack_base,
            root_pa: 0,
            satp: 0,
        }
    }

    /// The initial stack pointer of the task's kernel stack (its end), 16-byte aligned.
    pub fn kstack_top(&self) -> (r: usize)
        requires
            self.kstack_base % 16 == 0,
            self.kstack_base + KSTACK_SIZE <= usize::MAX,
        ensures
            r == self.kstack_base + KSTACK_SIZE,
            r % 16 == 0,
    {
        self.kstack_base + KSTACK_SIZE
    }
}

/// The task table and the task that currently runs.
pub struct Scheduler {
    pub tasks: Vec<Task>,
    pub current: usize,
}

/// Where the kernel goes after a scheduling decision.
#[derive(Clone, Copy, PartialEq, Eq, Structural, Debug)]
pub enum Switch {
    /// Every user task has exited: the machine shuts down.
    Shutdown,
    /// Resume task `id` in the address space selected by `satp`.
    Resume { id: usize, satp: usize },
}

impl Scheduler {
    /// There are `NUM_TASKS` tasks, numbered by their position, and no task other than the
    /// current one is running.
    pub open spec fn wf(&self) -> bool {
        &&& self.tasks.len() == NUM_TASKS
        &&& self.current < NUM_TASKS
        &&& forall|i: int| 0 <= i < NUM_TASKS ==> #[trigger] self.tasks@[i].id == i
        &&& forall|i: int|
            0 <= i < NUM_TASKS && i != self.current ==> !(#[trigger] self.tasks@[i].state
                is Running)
    }

    /// The state of task `i`.
    pub open spec fn state(&self, i: int) -> TaskState {
        self.tasks@[i].state
    }

    /// The task table before start-up: the idle task 0 and the user tasks 1 and 2, all
    /// ready, with task 0 current; `kstacks[i]` is the 16-byte-aligned base of task `i`'s
    /// kernel stack.
    pub fn new(kstacks: [usize; 3]) -> (s: Self)
        requires
            kstacks[0] % 16 == 0,
            kstacks[1] % 16 == 0,
            kstacks[2] % 16 == 0,
        ensures
            s.wf(),
            s.current == 0,
            s.tasks@ == seq![
                Task::new_spec(0, false, kstacks[0]),
                Task::new_spec(1, true, kstacks[1]),
                Task::new_spec(2, true, kstacks[2]),
            ],
    {
        let mut tasks: Vec<Task> = Vec::new();
        tasks.push(Task::new(0, false, kstacks[0]));
        tasks.push(Task::new(1, true, kstacks[1]));
        tasks.push(Task::new(2, true, kstacks[2]));
        Scheduler { tasks, current: 0 }
    }
}

impl Task {
    /// The task that `Task::new` builds.
    pub open spec fn new_spec(id: usize, is_user: bool, kstack_base: usize) -> Task {
        Task {
            id,
            is_user,
            state: TaskState::Ready,
            trapframe: zero_frame(),
            kstack_base,
            root_pa: 0,
            satp: 0,
        }
    }
}

/// The id of the current task.
pub fn current_id(sched: &Scheduler) -> (r: usize)
    ensures
        r == sched.current,
{
    sched.current
}

/// The root page table of the current task.
pub fn current_root_pa(sched: &Scheduler) -> (r: usize)
    requires
        sched.wf(),
    ensures
        r == sched.tasks@[sched.current as int].root_pa,
{
    sched.tasks[sched.current].root_pa
}

/// `tasks` with the state of task `i` replaced by `st`.
pub open spec fn with_state(tasks: Seq<Task>, i: int, st: TaskState) -> Seq<Task> {
    tasks.update(i, Task { state: st, ..tasks[i] })
}

fn set_state(sched: &mut Scheduler, i: usize, st: TaskState)
    requires
        i < old(sched).tasks.len(),
    ensures
        final(sched).tasks@ == with_state(old(sched).tasks@, i as int, st),
        final(sched).current == old(sched).current,
{
    let mut t = sched.tasks[i];
    t.state = st;
    sched.tasks.set(i, t);
}

/// The state that a timer tick at `now` leaves a task in: a sleeper whose wake-up tick has
/// come is ready again.
pub open spec fn woken(st: TaskState, now: u64) -> TaskState {
    match st {
        TaskState::Sleeping(deadline) => if now >= deadline {
            TaskState::Ready
        } else {
            st
        },
        _ => st,
    }
}

/// A timer tick at `now` wakes exactly the sleepers whose wake-up tick is `now` or earlier:
/// they become ready, and every other state stays as it was.
pub proof fn lemma_woken(st: TaskState, now: u64)
    ensures
        st matches TaskState::Sleeping(d) ==> (now >= d ==> woken(st, now) == TaskState::Ready),
        st matches TaskState::Sleeping(d) ==> (now < d ==> woken(st, now) == st),
        !(st is Sleeping) ==> woken(st, now) == st,
{
}

/// Wakes every task that sleeps until `now` or earlier.
pub fn on_timer_tick(sched: &mut Scheduler, now: u64)
    requires
        old(sched).wf(),
    ensures
        final(sched).wf(),
        final(sched).current == old(sched).current,
        final(sched).tasks@.len() == old(sched).tasks@.len(),
        forall|i: int|
            0 <= i < NUM_TASKS ==> (#[trigger] old(sched).tasks@[i].state matches TaskState::Sleeping(d)
                ==> (now >= d ==> final(sched).tasks@[i].state == TaskState::Ready)),
        forall|i: int|
            0 <= i < NUM_TASKS ==> (#[trigger] old(sched).tasks@[i].state matches TaskState::Sleeping(d)
                ==> (now < d ==> final(sched).tasks@[i].state == old(sched).tasks@[i].state)),
        forall|i: int|
            0 <= i < NUM_TASKS && !(#[trigger] old(sched).tasks@[i].state is Sleeping)
                ==> final(sched).tasks@[i].state == old(sched).tasks@[i].state,
        forall|i: int|
            0 <= i < NUM_TASKS ==> #[trigger] final(sched).tasks@[i] == (Task {
                state: woken(old(sched).tasks@[i].state, now),
                ..old(sched).tasks@[i]
            }),
{
    let mut i: usize = 0;
    while i < sched.tasks.len()
        invariant
            i <= NUM_TASKS,
            sched.tasks.len() == NUM_TASKS,
            sched.current == old(sched).current,
            forall|j: int|
                0 <= j < i ==> #[trigger] sched.tasks@[j] == (Task {
                    state: woken(old(sched).tasks@[j].state, now),
                    ..old(sched).tasks@[j]
                }),
            forall|j: int| i <= j < NUM_TASKS ==> #[trigger] sched.tasks@[j] == old(sched).tasks@[j],
        decreases NUM_TASKS - i,
    {
        if let TaskState::Sleeping(deadline) = sched.tasks[i].state {
            if now >= deadline {
                set_state(sched, i, TaskState::Ready);
            }
        }
        i = i + 1;
    }
}

/// A running current task becomes ready again.
pub fn yield_current(sched: &mut Scheduler)
    requires
        old(sched).wf(),
    ensures
        final(sched).wf(),
        final(sched).current == old(sched).current,
        final(sched).tasks@ == if old(sched).state(old(sched).current as int) is Running {
            with_state(old(sched).tasks@, old(sched).current as int, TaskState::Ready)
        } else {
            old(sched).tasks@
        },
{
    let id = current_id(sched);
    if let TaskState::Running = sched.tasks[id].state {
        set_state(sched, id, TaskState::Ready);
    }
}

/// The current task goes to sleep until tick `wakeup_tick`.
pub fn sleep_current(sched: &mut Scheduler, wakeup_tick: u64)
    requires
        old(sched).wf(),
    ensures
        final(sched).wf(),
        final(sched).current == old(sched).current,
        final(sched).tasks@ == with_state(
            old(sched).tasks@,
            old(sched).current as int,
            TaskState::Sleeping(wakeup_tick),
        ),
{
    let id = current_id(sched);
    set_state(sched, id, TaskState::Sleeping(wakeup_tick));
}

/// The current task exits with `code`.
pub fn exit_current(sched: &mut Scheduler, code: i32)
    requires
        old(sched).wf(),
    ensures
        final(sched).wf(),
        final(sched).current == old(sched).current,
        final(sched).tasks@ == with_state(
            old(sched).tasks@,
            old(sched).current as int,
            TaskState::Exited(code),
        ),
{
    let id = current_id(sched);
    set_state(sched, id, TaskState::Exited(code));
}

/// Every user task has exited.
pub open spec fn users_exited(tasks: Seq<Task>) -> bool {
    forall|i: int| 0 <= i < tasks.len() && #[trigger] tasks[i].is_user ==> tasks[i].state is Exited
}

/// Whether every user task has exited.
fn all_user_exited(sched: &Scheduler) -> (r: bool)
    ensures
        r == users_exited(sched.tasks@),
{
    let mut i: usize = 0;
    while i < sched.tasks.len()
        invariant
            i <= sched.tasks.len(),
            forall|j: int|
                0 <= j < i && #[trigger] sched.tasks@[j].is_user ==> sched.tasks@[j].state is Exited,
        decreases sched.tasks.len() - i,
    {
        let t = sched.tasks[i];
        if t.is_user && !matches!(t.state, TaskState::Exited(_)) {
            return false;
        }
        i = i + 1;
    }
    true
}

/// The first ready task among `(from + step) % NUM_TASKS` for `step` going from `step` up
/// to `NUM_TASKS`.
pub open spec fn first_ready(tasks: Seq<Task>, from: int, step: int) -> Option<usize>
    decreases NUM_TASKS + 1 - step,
{
    if step > NUM_TASKS || step < 1 {
        None
    } else if tasks[(from + step) % (NUM_TASKS as int)].state is Ready {
        Some(((from + step) % (NUM_TASKS as int)) as usize)
    } else {
        first_ready(tasks, from, step + 1)
    }
}

proof fn lemma_first_ready(tasks: Seq<Task>, from: int, step: int)
    requires
        from >= 0,
    ensures
        first_ready(tasks, from, step) matches Some(n) ==> n < NUM_TASKS && tasks[n as int].state
            is Ready,
    decreases NUM_TASKS + 1 - step,
{
    if 1 <= step <= NUM_TASKS {
        lemma_first_ready(tasks, from, step + 1);
    }
}

/// The next ready task after `from` in round-robin order (`from` itself comes last).
pub open spec fn next_ready(tasks: Seq<Task>, from: int) -> Option<usize> {
    first_ready(tasks, from, 1)
}

/// The task `step` places after task `from` in round-robin order.
pub open spec fn rr_slot(from: int, step: int) -> int {
    (from + step) % (NUM_TASKS as int)
}

proof fn lemma_first_ready_steps(tasks: Seq<Task>, from: int, step: int)
    requires
        0 <= from < NUM_TASKS,
        1 <= step <= NUM_TASKS + 1,
    ensures
        first_ready(tasks, from, step) matches Some(n) ==> exists|st: int|
            step <= st <= NUM_TASKS && n == #[trigger] rr_slot(from, st) && tasks[n as int].state
                is Ready && forall|s: int|
                step <= s < st ==> !(#[trigger] tasks[rr_slot(from, s)].state is Ready),
        first_ready(tasks, from, step) is None <==> forall|s: int|
            step <= s <= NUM_TASKS ==> !(#[trigger] tasks[rr_slot(from, s)].state is Ready),
    decreases NUM_TASKS + 1 - step,
{
    if step <= NUM_TASKS {
        lemma_first_ready_steps(tasks, from, step + 1);
        if !(tasks[rr_slot(from, step)].state is Ready) {
            if first_ready(tasks, from, step + 1) is Some {
                let n = first_ready(tasks, from, step + 1)->Some_0;
                let st = choose|st: int|
                    step + 1 <= st <= NUM_TASKS && n == #[trigger] rr_slot(from, st)
                        && tasks[n as int].state is Ready && forall|s: int|
                        step + 1 <= s < st ==> !(#[trigger] tasks[rr_slot(from, s)].state
                            is Ready);
                assert(forall|s: int|
                    step <= s < st ==> !(#[trigger] tasks[rr_slot(from, s)].state is Ready));
            }
        } else {
            let n = first_ready(tasks, from, step)->Some_0;
            assert(n == rr_slot(from, step));
            assert(forall|s: int|
                step <= s < step ==> !(#[trigger] tasks[rr_slot(from, s)].state is Ready));
        }
    }
}

/// Round robin: the next ready task after `from` is a ready task, and the first one met
/// going through `from + 1`, `from + 2`, ... (mod `NUM_TASKS`) up to `from` itself; there
/// is none exactly when no task at all is ready.
pub proof fn lemma_next_ready_round_robin(tasks: Seq<Task>, from: int)
    requires
        0 <= from < NUM_TASKS,
        tasks.len() == NUM_TASKS,
    ensures
        next_ready(tasks, from) matches Some(n) ==> n < NUM_TASKS && tasks[n as int].state is Ready
            && exists|st: int|
            1 <= st <= NUM_TASKS && n == #[trigger] rr_slot(from, st) && forall|s: int|
                1 <= s < st ==> !(#[trigger] tasks[rr_slot(from, s)].state is Ready),
        next_ready(tasks, from) is None <==> forall|i: int|
            0 <= i < NUM_TASKS ==> !(#[trigger] tasks[i].state is Ready),
{
    lemma_first_ready_steps(tasks, from, 1);
    lemma_first_ready(tasks, from, 1);
    if forall|s: int|
        1 <= s <= NUM_TASKS ==> !(#[trigger] tasks[rr_slot(from, s)].state is Ready) {
        assert forall|i: int| 0 <= i < NUM_TASKS implies !(#[trigger] tasks[i].state is Ready) by {
            let s = if i > from {
                i - from
            } else {
                i - from + (NUM_TASKS as int)
            };
            assert(rr_slot(from, s) == i);
        }
    }
}

/// The task that scheduling picks after `cur`: when some task is ready once `cur` no
/// longer runs, a ready task, the first met in round-robin order after `cur` (with `cur`
/// itself last); otherwise the idle task 0.
pub proof fn lemma_next_task_round_robin(tasks: Seq<Task>, cur: int)
    requires
        0 <= cur < NUM_TASKS,
        tasks.len() == NUM_TASKS,
    ensures
        ({
            let t1 = unrun(tasks, cur);
            let n = next_task(tasks, cur);
            &&& (exists|i: int| 0 <= i < NUM_TASKS && #[trigger] t1[i].state is Ready) ==> {
                &&& t1[n as int].state is Ready
                &&& exists|st: int|
                    1 <= st <= NUM_TASKS && n == #[trigger] rr_slot(cur, st) && forall|s: int|
                        1 <= s < st ==> !(#[trigger] t1[rr_slot(cur, s)].state is Ready)
            }
            &&& (forall|i: int| 0 <= i < NUM_TASKS ==> !(#[trigger] t1[i].state is Ready)) ==> n == 0
        }),
{
    lemma_next_ready_round_robin(unrun(tasks, cur), cur);
}

/// The next ready task after task `from`, in round-robin order, `from` itself last.
fn pick_next_runnable(sched: &Scheduler, from: usize) -> (r: Option<usize>)
    requires
        sched.wf(),
        from + NUM_TASKS <= usize::MAX,
    ensures
        r == next_ready(sched.tasks@, from as int),
{
    let mut step: usize = 1;
    while step <= NUM_TASKS
        invariant
            1 <= step <= NUM_TASKS + 1,
            from + NUM_TASKS <= usize::MAX,
            sched.wf(),
            first_ready(sched.tasks@, from as int, step as int) == next_ready(
                sched.tasks@,
                from as int,
            ),
        decreases NUM_TASKS + 1 - step,
    {
        let id = (from + step) % NUM_TASKS;
        if matches!(sched.tasks[id].state, TaskState::Ready) {
            return Some(id);
        }
        step = step + 1;
    }
    None
}

/// `tasks` after the task `next` has been made the running one.
pub open spec fn resumed(tasks: Seq<Task>, next: int) -> Seq<Task> {
    with_state(tasks, next, TaskState::Running)
}

/// `tasks` with a running task `cur` made ready again.
pub open spec fn unrun(tasks: Seq<Task>, cur: int) -> Seq<Task> {
    if tasks[cur].state is Running {
        with_state(tasks, cur, TaskState::Ready)
    } else {
        tasks
    }
}

/// The task that runs after `cur`: the next ready one in round-robin order once `cur` no
/// longer runs, or the idle task 0 when none is ready.
pub open spec fn next_task(tasks: Seq<Task>, cur: int) -> usize {
    match next_ready(unrun(tasks, cur), cur) {
        Some(n) => n,
        None => 0usize,
    }
}

/// The tasks, the current task and the switch after a scheduling decision taken with
/// `tasks` and current task `cur`.
pub open spec fn after_schedule(tasks: Seq<Task>, cur: usize) -> (Seq<Task>, usize, Switch) {
    if users_exited(tasks) {
        (tasks, cur, Switch::Shutdown)
    } else {
        let next = next_task(tasks, cur as int);
        let t1 = unrun(tasks, cur as int);
        (resumed(t1, next as int), next, Switch::Resume { id: next, satp: t1[next as int].satp })
    }
}

/// Picks the task to run after the current one: shuts down when every user task has
/// exited; otherwise a running current task becomes ready, the next ready task in
/// round-robin order (or the idle task 0 when none is ready) becomes the running current
/// task, and its address space is selected.
pub fn schedule(sched: &mut Scheduler) -> (r: Switch)
    requires
        old(sched).wf(),
    ensures
        final(sched).wf(),
        (final(sched).tasks@, final(sched).current, r) == after_schedule(
            old(sched).tasks@,
            old(sched).current,
        ),
{
    let cur = sched.current;
    if all_user_exited(sched) {
        return Switch::Shutdown;
    }
    if matches!(sched.tasks[cur].state, TaskState::Running) {
        set_state(sched, cur, TaskState::Ready);
    }
    proof {
        lemma_first_ready(sched.tasks@, cur as int, 1);
    }
    let next = match pick_next_runnable(sched, cur) {
        Some(n) => n,
        None => 0,
    };
    sched.current = next;
    set_state(sched, next, TaskState::Running);
    Switch::Resume { id: next, satp: sched.tasks[next].satp }
}

/// Picks the first task to run at start-up: the first ready task after task 0 in
/// round-robin order (or task 0 when none is ready) becomes the running current task.
pub fn run_first(sched: &mut Scheduler) -> (r: Switch)
    requires
        old(sched).wf(),
    ensures
        ({
            let first = match next_ready(old(sched).tasks@, 0) {
                Some(n) => n,
                None => 0usize,
            };
            &&& final(sched).current == first
            &&& final(sched).tasks@ == resumed(old(sched).tasks@, first as int)
            &&& r == Switch::Resume { id: first, satp: old(sched).tasks@[first as int].satp }
        }),
        (forall|i: int| 0 <= i < NUM_TASKS ==> !(#[trigger] old(sched).tasks@[i].state is Running))
            ==> final(sched).wf(),
{
    proof {
        lemma_first_ready(sched.tasks@, 0, 1);
    }
    let first = match pick_next_runnable(sched, 0) {
        Some(n) => n,
        None => 0,
    };
    sched.current = first;
    set_state(sched, first, TaskState::Running);
    Switch::Resume { id: first, satp: sched.tasks[first].satp }
}


/// The flags of the pages of a user program: valid, readable, executable, user, accessed.
pub const USER_PROG_FLAGS: u64 = PTE_V | PTE_R | PTE_X | PTE_U | PTE_A;

/// The flags of the pages of a user stack: valid, readable, writable, user, accessed, dirty.
pub const USER_STACK_FLAGS: u64 = PTE_V | PTE_R | PTE_W | PTE_U | PTE_A | PTE_D;

/// The lowest address of the user stack.
pub const USER_STACK_BOTTOM: usize = 0x0007_c000;

/// The root entries that the kernel's identity mapping of DRAM makes valid in an empty table.
pub open spec fn kernel_l1s() -> Set<usize> {
    range_l1s(Set::empty(), MEMORY_START as int, dram_pages())
}

/// The level-1 entries that the kernel's identity mapping of DRAM makes valid in an empty
/// table.
pub open spec fn kernel_l0s() -> Set<(usize, usize)> {
    range_l0s(Set::empty(), MEMORY_START as int, dram_pages())
}

/// The number of pages that a user image of `len` bytes takes.
pub open spec fn prog_pages(len: nat) -> nat {
    (page_ceil(len as int) / 4096) as nat
}

/// The frames that the program pages of an image of `len` bytes take.
pub open spec fn prog_frames(len: nat) -> nat {
    run_frames(kernel_l1s(), kernel_l0s(), USER_BASE as int, prog_pages(len))
}

/// The frames that the user stack takes after the program pages.
pub open spec fn stack_frames(len: nat) -> nat {
    run_frames(
        range_l1s(kernel_l1s(), USER_BASE as int, prog_pages(len)),
        range_l0s(kernel_l0s(), USER_BASE as int, prog_pages(len)),
        USER_STACK_BOTTOM as int,
        USER_STACK_PAGES as nat,
    )
}

/// The frames that building the address space of a user image of `len` bytes takes: its
/// root table, the tables of the kernel mapping, and the program and stack pages with
/// their tables.
pub open spec fn user_frames(len: nat) -> nat {
    1 + kernel_map_tables() + prog_frames(len) + stack_frames(len)
}

/// The data frame of program page `j` when the allocator starts at `next0`.
pub open spec fn prog_frame(next0: int, len: nat, j: nat) -> int {
    page_frame(
        next0 + 4096 * (1 + kernel_map_tables()),
        kernel_l1s(),
        kernel_l0s(),
        USER_BASE as int,
        j,
    )
}

/// The data frame of stack page `j` when the allocator starts at `next0`.
pub open spec fn stack_frame(next0: int, len: nat, j: nat) -> int {
    page_frame(
        next0 + 4096 * (1 + kernel_map_tables() + prog_frames(len)),
        range_l1s(kernel_l1s(), USER_BASE as int, prog_pages(len)),
        range_l0s(kernel_l0s(), USER_BASE as int, prog_pages(len)),
        USER_STACK_BOTTOM as int,
        j,
    )
}

/// The translation of `vb` in the address space of a user image of `len` bytes built with
/// the allocator starting at `next0`: the stack pages, then the program pages, then the
/// kernel's identity mapping of DRAM.
pub open spec fn user_translation(next0: int, len: nat, vb: usize) -> Option<(usize, u64)> {
    match last_hit(USER_STACK_BOTTOM as int, USER_STACK_PAGES as nat, vb) {
        Some(j) => level0_result(encode(stack_frame(next0, len, j) as usize, USER_STACK_FLAGS), vb),
        None => match last_hit(USER_BASE as int, prog_pages(len), vb) {
            Some(j) => level0_result(encode(prog_frame(next0, len, j) as usize, USER_PROG_FLAGS), vb),
            None => run_translation(MEMORY_START, MEMORY_START, dram_pages(), KERNEL_PTE_FLAGS, vb),
        },
    }
}

/// The task `t` made a user task with the root table `root`: ready to enter U-mode at
/// `USER_BASE` with its stack pointer at `USER_STACK_TOP`, interrupts enabled after `sret`,
/// and its kernel stack for traps.
pub open spec fn user_task(t: Task, root: usize, gp: usize) -> Task {
    Task {
        is_user: true,
        state: TaskState::Ready,
        root_pa: root,
        satp: satp_word(root) as usize,
        trapframe: TrapFrame {
            sepc: USER_BASE,
            sp: USER_STACK_TOP,
            gp,
            tp: t.id,
            sstatus: SSTATUS_SPIE,
            kernel_sp: (t.kstack_base + KSTACK_SIZE) as usize,
            ..zero_frame()
        },
        ..t
    }
}

/// Builds the address space of a user task from its image `img` and makes the task ready
/// to enter U-mode at `USER_BASE` with its stack pointer at `USER_STACK_TOP`.
///
/// The new root table is the next frame of the allocator. It identity-maps DRAM as
/// supervisor-only memory, maps the image's pages from `USER_BASE` on (each in a fresh frame
/// holding its bytes, readable, executable, user) and the `USER_STACK_PAGES` pages below
/// `USER_STACK_TOP` (fresh zeroed frames, readable, writable, user).
#[verifier::spinoff_prover]
#[verifier::rlimit(50)]
pub fn init_user<M: PhysMemory>(
    task: &mut Task,
    img: &[u8],
    gp: usize,
    mem: &mut M,
    frames: &mut FrameAllocator,
)
    requires
        old(frames).wf(),
        old(frames).end as int <= 0x100_0000_0000_0000,
        old(frames).end + 4096 <= usize::MAX,
        old(frames).next + 4096 * user_frames(img@.len()) <= old(frames).end,
        USER_BASE + page_ceil(img@.len() as int) <= usize::MAX,
        old(task).kstack_base % 16 == 0,
        old(task).kstack_base + KSTACK_SIZE <= usize::MAX,
    ensures
        ({
            let next0 = old(frames).next as int;
            let len = img@.len();
            let root = old(frames).next;
            &&& *final(task) == user_task(*old(task), root, gp)
            &&& final(frames).start == old(frames).start
            &&& final(frames).end == old(frames).end
            &&& final(frames).next == next0 + 4096 * user_frames(len)
            &&& table_wf(*final(mem), root, *final(frames))
            &&& forall|vb: usize| #[trigger]
                translation(*final(mem), root, vb) == user_translation(next0, len, vb)
            &&& forall|j: int, o: int|
                0 <= j < prog_pages(len) && 0 <= o < 4096 ==> #[trigger] byte_at(
                    *final(mem),
                    (prog_frame(next0, len, j as nat) + o) as usize,
                ) == image_byte(img@, 4096 * j + o)
            &&& forall|j: int, o: int|
                0 <= j < USER_STACK_PAGES && 0 <= o < 4096 ==> #[trigger] byte_at(
                    *final(mem),
                    (stack_frame(next0, len, j as nat) + o) as usize,
                ) == 0
            &&& forall|a: usize|
                !(next0 <= a < final(frames).next) ==> #[trigger] final(mem).word(a) == old(mem).word(a)
            &&& len <= USER_STACK_BOTTOM - USER_BASE ==> user_space(*final(mem), root, img@)
        }),
{
    let ghost next0 = frames.next as int;
    let ghost len = img@.len();
    let root_pa = match alloc_frame(frames, mem) {
        Some(p) => p,
        None => {
            proof {
                assert(false);
            }
            0
        },
    };
    zero_table(mem, root_pa);
    let ghost m1 = *mem;
    proof {
        lemma_fresh_table(*mem, root_pa, *frames);
        assert(l1_set(*mem, root_pa) =~= Set::empty());
        assert(l0_set(*mem, root_pa) =~= Set::empty());
        assert(range_start(MEMORY_START) == MEMORY_START);
        assert(range_pages(MEMORY_START, (MEMORY_END - MEMORY_START) as usize) == dram_pages());
    }
    map_range(
        mem,
        frames,
        root_pa,
        MEMORY_START,
        MEMORY_START,
        MEMORY_END - MEMORY_START,
        PTE_V | PTE_R | PTE_W | PTE_X | PTE_A | PTE_D,
    );
    let ghost m2 = *mem;
    proof {
        assert(KERNEL_PTE_FLAGS == 0xcf) by (bit_vector);
        assert(0xcfu64 & PTE_V != 0 && 0xcfu64 & 0xe != 0) by (bit_vector);
        assert forall|vb: usize| #[trigger]
            translation(m2, root_pa, vb) == run_translation(
                MEMORY_START,
                MEMORY_START,
                dram_pages(),
                KERNEL_PTE_FLAGS,
                vb,
            ) by {
            lemma_range_translation_run(
                m1,
                root_pa,
                MEMORY_START,
                MEMORY_START,
                dram_pages(),
                KERNEL_PTE_FLAGS,
                vb,
            );
        }
    }
    let prog_pages_n = align_up(img.len(), PAGE_SIZE) / PAGE_SIZE;
    map_user_pages(
        mem,
        frames,
        root_pa,
        USER_BASE,
        prog_pages_n,
        PTE_V | PTE_R | PTE_X | PTE_U | PTE_A,
        img,
    );
    let ghost m3 = *mem;
    let ghost next3 = frames.next;
    let stack_bottom = USER_STACK_TOP - USER_STACK_PAGES * PAGE_SIZE;
    let no_image: [u8; 0] = [];
    map_user_pages(
        mem,
        frames,
        root_pa,
        stack_bottom,
        USER_STACK_PAGES,
        PTE_V | PTE_R | PTE_W | PTE_U | PTE_A | PTE_D,
        &no_image,
    );
    proof {
        let m4 = *mem;
        assert forall|a: usize| !(next0 <= a < frames.next) implies #[trigger] m4.word(a) == old(mem).word(a) by {
            assert(outside_tables(m1, root_pa, a));
            assert(outside_tables(m2, root_pa, a));
            assert(outside_tables(m3, root_pa, a));
        }
        assert(prog_pages_n == prog_pages(len));
        assert forall|j: int, o: int|
            0 <= j < prog_pages(len) && 0 <= o < 4096 implies #[trigger] byte_at(
            m4,
            (prog_frame(next0, len, j as nat) + o) as usize,
        ) == image_byte(img@, 4096 * j + o) by {
            let fi = prog_frame(next0, len, j as nat);
            assert(fi % 4096 == 0);
            assert(byte_at(m3, (fi + o) as usize) == image_byte(img@, 4096 * j + o));
            assert(fi + 4096 <= next3);
            lemma_word_in_frame(fi as usize, o as usize);
            let w = word_base((fi + o) as usize);
            assert(in_frame(w, fi as usize));
            assert(outside_tables(m3, root_pa, w));
            assert(m4.word(w) == m3.word(w));
        }
    }
    proof {
        if len <= USER_STACK_BOTTOM - USER_BASE {
            lemma_user_space(*mem, root_pa, next0, img@);
        }
    }
    let satp = make_satp(root_pa);
    task.root_pa = root_pa;
    task.satp = satp;
    task.is_user = true;
    task.state = TaskState::Ready;
    let mut tf = TrapFrame::zero();
    tf.sepc = USER_BASE;
    tf.sp = USER_STACK_TOP;
    tf.gp = gp;
    tf.tp = task.id;
    tf.sstatus = SSTATUS_SPIE;
    tf.kernel_sp = task.kstack_top();
    task.trapframe = tf;
}


/// The translation `t` leads, with the flags `fl`, to a byte that holds `b`.
pub open spec fn maps_byte<M: MemoryView>(m: M, t: Option<(usize, u64)>, fl: u64, b: u8) -> bool {
    match t {
        Some((pa, f)) => f == fl && byte_at(m, pa) == b,
        None => false,
    }
}

/// A user address space as `init_user` leaves it: byte `i` of the image is at `USER_BASE + i`
/// in a page mapped readable, executable and user; the user stack pages below
/// `USER_STACK_TOP` are zero and mapped readable, writable and user; and DRAM is mapped
/// to itself for the supervisor only.
pub open spec fn user_space<M: MemoryView>(m: M, root: usize, img: Seq<u8>) -> bool {
    &&& forall|i: int|
        0 <= i < img.len() ==> maps_byte(
            m,
            #[trigger] translation(m, root, (USER_BASE + i) as usize),
            USER_PROG_FLAGS,
            img[i],
        )
    &&& forall|i: int|
        0 <= i < USER_STACK_PAGES * PAGE_SIZE ==> maps_byte(
            m,
            #[trigger] translation(m, root, (USER_STACK_BOTTOM + i) as usize),
            USER_STACK_FLAGS,
            0,
        )
    &&& forall|vb: usize|
        MEMORY_START <= vb < MEMORY_END ==> #[trigger] translation(m, root, vb) == Some(
            (vb, KERNEL_PTE_FLAGS),
        )
}

proof fn lemma_frame_aligned(base: int, k: nat)
    requires
        base % 4096 == 0,
    ensures
        (base + 4096 * k) % 4096 == 0,
{
    assert((base + 4096 * k) % 4096 == 0) by (nonlinear_arith)
        requires
            base % 4096 == 0,
    ;
}

proof fn lemma_user_flags()
    ensures
        USER_PROG_FLAGS == 0x5b,
        USER_STACK_FLAGS == 0xd7,
        USER_PROG_FLAGS & PTE_V != 0 && USER_PROG_FLAGS & 0xe != 0,
        USER_STACK_FLAGS & PTE_V != 0 && USER_STACK_FLAGS & 0xe != 0,
{
    assert(USER_PROG_FLAGS == 0x5b && USER_STACK_FLAGS == 0xd7) by (bit_vector);
    assert(0x5bu64 & PTE_V != 0 && 0x5bu64 & 0xe != 0 && 0xd7u64 & PTE_V != 0 && 0xd7u64 & 0xe
        != 0) by (bit_vector);
}

proof fn lemma_user_prog_byte<M: MemoryView>(m: M, root: usize, next0: int, img: Seq<u8>, i: int)
    requires
        img.len() <= USER_STACK_BOTTOM - USER_BASE,
        0 <= i < img.len(),
        next0 % 4096 == 0,
        next0 >= 0,
        next0 + 4096 * user_frames(img.len()) <= 0x100_0000_0000_0000,
        next0 + 4096 * user_frames(img.len()) <= usize::MAX,
        translation(m, root, (USER_BASE + i) as usize) == user_translation(
            next0,
            img.len(),
            (USER_BASE + i) as usize,
        ),
        byte_at(m, (prog_frame(next0, img.len(), (i / 4096) as nat) + i % 4096) as usize)
            == image_byte(img, 4096 * (i / 4096) + i % 4096),
    ensures
        maps_byte(m, translation(m, root, (USER_BASE + i) as usize), USER_PROG_FLAGS, img[i]),
{
    let len = img.len();
    let p = prog_pages(len);
    let k = kernel_map_tables();
    lemma_user_flags();
    let vb = (USER_BASE + i) as usize;
    let j = i / 4096;
    assert(page_index(USER_BASE) == 16);
    assert(page_index(USER_STACK_BOTTOM) == 124);
    assert(page_index(vb) == 16 + j);
    assert(j < p);
    lemma_last_hit_run(USER_STACK_BOTTOM, USER_STACK_PAGES as nat, vb);
    lemma_last_hit_run(USER_BASE, p, vb);
    lemma_run_frames_mono(kernel_l1s(), kernel_l0s(), USER_BASE as int, (j + 1) as nat, p);
    let f = prog_frame(next0, len, j as nat);
    lemma_frame_aligned(
        next0 + 4096 * (1 + k),
        run_frames(kernel_l1s(), kernel_l0s(), USER_BASE as int, j as nat),
    );
    assert(f + 4096 <= next0 + 4096 * user_frames(len));
    lemma_leaf_result(f as usize, USER_PROG_FLAGS, vb);
    assert(vb % 4096 == i % 4096);
    assert(4096 * j + i % 4096 == i);
}

proof fn lemma_user_stack_byte<M: MemoryView>(m: M, root: usize, next0: int, len: nat, i: int)
    requires
        len <= USER_STACK_BOTTOM - USER_BASE,
        0 <= i < USER_STACK_PAGES * PAGE_SIZE,
        next0 % 4096 == 0,
        next0 >= 0,
        next0 + 4096 * user_frames(len) <= 0x100_0000_0000_0000,
        next0 + 4096 * user_frames(len) <= usize::MAX,
        translation(m, root, (USER_STACK_BOTTOM + i) as usize) == user_translation(
            next0,
            len,
            (USER_STACK_BOTTOM + i) as usize,
        ),
        byte_at(m, (stack_frame(next0, len, (i / 4096) as nat) + i % 4096) as usize) == 0,
    ensures
        maps_byte(m, translation(m, root, (USER_STACK_BOTTOM + i) as usize), USER_STACK_FLAGS, 0),
{
    let p = prog_pages(len);
    let k = kernel_map_tables();
    lemma_user_flags();
    let vb = (USER_STACK_BOTTOM + i) as usize;
    let j = i / 4096;
    assert(page_index(USER_STACK_BOTTOM) == 124);
    assert(page_index(vb) == 124 + j);
    lemma_last_hit_run(USER_STACK_BOTTOM, USER_STACK_PAGES as nat, vb);
    let s1 = range_l1s(kernel_l1s(), USER_BASE as int, p);
    let s0 = range_l0s(kernel_l0s(), USER_BASE as int, p);
    lemma_run_frames_mono(s1, s0, USER_STACK_BOTTOM as int, (j + 1) as nat, USER_STACK_PAGES as nat);
    let f = stack_frame(next0, len, j as nat);
    lemma_frame_aligned(
        next0 + 4096 * (1 + k + prog_frames(len)),
        run_frames(s1, s0, USER_STACK_BOTTOM as int, j as nat),
    );
    assert(f + 4096 <= next0 + 4096 * user_frames(len));
    lemma_leaf_result(f as usize, USER_STACK_FLAGS, vb);
    assert(vb % 4096 == i % 4096);
}

proof fn lemma_last_hit_bound(va0: int, n: nat, vb: usize)
    ensures
        last_hit(va0, n, vb) matches Some(j) ==> j < n,
    decreases n,
{
    if n > 0 {
        lemma_last_hit_bound(va0, (n - 1) as nat, vb);
    }
}

/// A user-accessible page of the address space built with the allocator starting at
/// `next0` lies in one of the frames that building it took.
proof fn lemma_user_frame(next0: int, len: nat, vb: usize)
    requires
        next0 % 4096 == 0,
        next0 >= 0,
        next0 + 4096 * user_frames(len) <= 0x100_0000_0000_0000,
        next0 + 4096 * user_frames(len) <= usize::MAX,
    ensures
        user_translation(next0, len, vb) matches Some((pa, fl)) ==> (fl & PTE_U != 0 ==> next0
            <= pa < next0 + 4096 * user_frames(len)),
{
    lemma_user_flags();
    lemma_last_hit_bound(USER_STACK_BOTTOM as int, USER_STACK_PAGES as nat, vb);
    lemma_last_hit_bound(USER_BASE as int, prog_pages(len), vb);
    match last_hit(USER_STACK_BOTTOM as int, USER_STACK_PAGES as nat, vb) {
        Some(j) => {
            lemma_stack_frame_bound(next0, len, j);
            let f = stack_frame(next0, len, j);
            lemma_leaf_result(f as usize, USER_STACK_FLAGS, vb);
        },
        None => match last_hit(USER_BASE as int, prog_pages(len), vb) {
            Some(j) => {
                lemma_prog_frame_bound(next0, len, j);
                let f = prog_frame(next0, len, j);
                lemma_leaf_result(f as usize, USER_PROG_FLAGS, vb);
            },
            None => {
                assert(KERNEL_PTE_FLAGS & PTE_U == 0) by (bit_vector);
            },
        },
    }
}

proof fn lemma_user_kernel_map(next0: int, len: nat, vb: usize)
    requires
        len <= USER_STACK_BOTTOM - USER_BASE,
        MEMORY_START <= vb < MEMORY_END,
    ensures
        user_translation(next0, len, vb) == Some((vb, KERNEL_PTE_FLAGS)),
{
    let p = prog_pages(len);
    assert(page_index(USER_BASE) == 16);
    assert(page_index(USER_STACK_BOTTOM) == 124);
    assert(page_index(vb) >= 0x80000);
    lemma_last_hit_run(USER_STACK_BOTTOM, USER_STACK_PAGES as nat, vb);
    lemma_last_hit_run(USER_BASE, p, vb);
    assert(page_index(MEMORY_START) == 0x80000);
    lemma_run_translation_inside(MEMORY_START, MEMORY_START, dram_pages(), KERNEL_PTE_FLAGS, vb);
}

/// The address space that `init_user` builds from an image that ends below the user stack
/// is a `user_space` of that image.
pub proof fn lemma_user_space<M: MemoryView>(m: M, root: usize, next0: int, img: Seq<u8>)
    requires
        img.len() <= USER_STACK_BOTTOM - USER_BASE,
        next0 % 4096 == 0,
        next0 >= 0,
        next0 + 4096 * user_frames(img.len()) <= 0x100_0000_0000_0000,
        next0 + 4096 * user_frames(img.len()) <= usize::MAX,
        forall|vb: usize| #[trigger]
            translation(m, root, vb) == user_translation(next0, img.len(), vb),
        forall|j: int, o: int|
            0 <= j < prog_pages(img.len()) && 0 <= o < 4096 ==> #[trigger] byte_at(
                m,
                (prog_frame(next0, img.len(), j as nat) + o) as usize,
            ) == image_byte(img, 4096 * j + o),
        forall|j: int, o: int|
            0 <= j < USER_STACK_PAGES && 0 <= o < 4096 ==> #[trigger] byte_at(
                m,
                (stack_frame(next0, img.len(), j as nat) + o) as usize,
            ) == 0,
    ensures
        user_space(m, root, img),
{
    let len = img.len();
    assert forall|i: int| 0 <= i < len implies maps_byte(
        m,
        #[trigger] translation(m, root, (USER_BASE + i) as usize),
        USER_PROG_FLAGS,
        img[i],
    ) by {
        assert(i / 4096 < prog_pages(len));
        assert(byte_at(m, (prog_frame(next0, len, (i / 4096) as nat) + i % 4096) as usize)
            == image_byte(img, 4096 * (i / 4096) + i % 4096));
        lemma_user_prog_byte(m, root, next0, img, i);
    }
    assert forall|i: int| 0 <= i < USER_STACK_PAGES * PAGE_SIZE implies maps_byte(
        m,
        #[trigger] translation(m, root, (USER_STACK_BOTTOM + i) as usize),
        USER_STACK_FLAGS,
        0,
    ) by {
        assert(byte_at(m, (stack_frame(next0, len, (i / 4096) as nat) + i % 4096) as usize) == 0);
        lemma_user_stack_byte(m, root, next0, len, i);
    }
    assert forall|vb: usize| MEMORY_START <= vb < MEMORY_END implies #[trigger] translation(
        m,
        root,
        vb,
    ) == Some((vb, KERNEL_PTE_FLAGS)) by {
        lemma_user_kernel_map(next0, len, vb);
    }
}


/// Makes `task` the idle task: it runs in S-mode from `entry` on its kernel stack, in the
/// kernel's address space.
pub fn init_idle(task: &mut Task, entry: usize, gp: usize, kernel: &KernelSpace)
    requires
        old(task).kstack_base % 16 == 0,
        old(task).kstack_base + KSTACK_SIZE <= usize::MAX,
    ensures
        *final(task) == (Task {
            is_user: false,
            state: TaskState::Ready,
            root_pa: kernel.root_pa,
            satp: kernel.satp,
            trapframe: TrapFrame {
                sepc: entry,
                sp: (old(task).kstack_base + KSTACK_SIZE) as usize,
                gp,
                tp: old(task).id,
                sstatus: SSTATUS_SPP | SSTATUS_SPIE,
                kernel_sp: 0,
                ..zero_frame()
            },
            ..*old(task)
        }),
{
    let mut tf = TrapFrame::zero();
    tf.sepc = entry;
    tf.sp = task.kstack_top();
    tf.gp = gp;
    tf.tp = task.id;
    tf.sstatus = SSTATUS_SPP | SSTATUS_SPIE;
    tf.kernel_sp = 0;
    task.trapframe = tf;
    task.is_user = false;
    task.state = TaskState::Ready;
    task.root_pa = kernel.kernel_root_pa();
    task.satp = kernel.kernel_satp();
}

/// Sets up the three tasks: task 0 idles at `idle_entry` in the kernel's address space, and
/// tasks 1 and 2 run the user images `user_a` and `user_b`, each in an address space of its
/// own built with frames from the kernel's allocator, task 1's first.
pub fn init<M: PhysMemory>(
    sched: &mut Scheduler,
    kernel: &mut KernelSpace,
    mem: &mut M,
    gp: usize,
    idle_entry: usize,
    user_a: &[u8],
    user_b: &[u8],
)
    requires
        old(sched).wf(),
        forall|i: int|
            0 <= i < NUM_TASKS ==> #[trigger] old(sched).tasks@[i].kstack_base % 16 == 0
                && old(sched).tasks@[i].kstack_base + KSTACK_SIZE <= usize::MAX,
        old(kernel).frames.wf(),
        old(kernel).frames.not_free(old(kernel).root_pa),
        old(kernel).frames.end as int <= 0x100_0000_0000_0000,
        old(kernel).frames.end + 4096 <= usize::MAX,
        old(kernel).frames.next + 4096 * (user_frames(user_a@.len()) + user_frames(user_b@.len()))
            <= old(kernel).frames.end,
        USER_BASE + page_ceil(user_a@.len() as int) <= usize::MAX,
        USER_BASE + page_ceil(user_b@.len() as int) <= usize::MAX,
    ensures
        ({
            let next0 = old(kernel).frames.next as int;
            let ra = old(kernel).frames.next;
            let rb = (next0 + 4096 * user_frames(user_a@.len())) as usize;
            let t = final(sched).tasks@;
            &&& final(sched).wf()
            &&& final(sched).current == old(sched).current
            &&& final(kernel).root_pa == old(kernel).root_pa
            &&& final(kernel).satp == old(kernel).satp
            &&& final(kernel).frames.start == old(kernel).frames.start
            &&& final(kernel).frames.end == old(kernel).frames.end
            &&& final(kernel).frames.next == next0 + 4096 * (user_frames(user_a@.len())
                + user_frames(user_b@.len()))
            &&& t[0] == (Task {
                is_user: false,
                state: TaskState::Ready,
                root_pa: old(kernel).root_pa,
                satp: old(kernel).satp,
                trapframe: TrapFrame {
                    sepc: idle_entry,
                    sp: (old(sched).tasks@[0].kstack_base + KSTACK_SIZE) as usize,
                    gp,
                    tp: 0,
                    sstatus: SSTATUS_SPP | SSTATUS_SPIE,
                    kernel_sp: 0,
                    ..zero_frame()
                },
                ..old(sched).tasks@[0]
            })
            &&& t[1] == user_task(old(sched).tasks@[1], ra, gp)
            &&& t[2] == user_task(old(sched).tasks@[2], rb, gp)
            &&& ra != rb && old(kernel).root_pa != ra && old(kernel).root_pa != rb
            &&& forall|vb: usize| #[trigger]
                translation(*final(mem), ra, vb) == user_translation(next0, user_a@.len(), vb)
            &&& forall|vb: usize| #[trigger]
                translation(*final(mem), rb, vb) == user_translation(
                    next0 + 4096 * user_frames(user_a@.len()),
                    user_b@.len(),
                    vb,
                )
            &&& forall|va: usize, vb: usize|
                #[trigger] translation(*final(mem), ra, va) matches Some((pa, fa)) ==> (
                #[trigger] translation(*final(mem), rb, vb) matches Some((pb, fb)) ==> (fa & PTE_U
                != 0 && fb & PTE_U != 0 ==> pa / 4096 != pb / 4096))
            &&& user_a@.len() <= USER_STACK_BOTTOM - USER_BASE ==> user_space(*final(mem), ra, user_a@)
            &&& user_b@.len() <= USER_STACK_BOTTOM - USER_BASE ==> user_space(*final(mem), rb, user_b@)
            &&& forall|a: usize|
                !(next0 <= a < final(kernel).frames.next) ==> #[trigger] final(mem).word(a) == old(mem).word(a)
        }),
{
    let ghost next0 = kernel.frames.next as int;
    let mut t0 = sched.tasks[0];
    init_idle(&mut t0, idle_entry, gp, kernel);
    sched.tasks.set(0, t0);
    let mut t1 = sched.tasks[1];
    init_user(&mut t1, user_a, gp, mem, &mut kernel.frames);
    sched.tasks.set(1, t1);
    let ghost m1 = *mem;
    let ghost f1 = kernel.frames;
    let mut t2 = sched.tasks[2];
    init_user(&mut t2, user_b, gp, mem, &mut kernel.frames);
    sched.tasks.set(2, t2);
    proof {
        let ra = next0 as usize;
        lemma_frames_taken(m1, *mem, ra, f1, kernel.frames);
        if user_a@.len() <= USER_STACK_BOTTOM - USER_BASE {
            lemma_user_space_kept(m1, *mem, ra, next0, user_a@);
        }
        let la = user_a@.len();
        let lb = user_b@.len();
        let nb = next0 + 4096 * user_frames(la);
        let rb = nb as usize;
        assert forall|va: usize, vb: usize|
            #[trigger] translation(*mem, ra, va) matches Some((pa, fa)) ==> (
            #[trigger] translation(*mem, rb, vb) matches Some((pb, fb)) ==> (fa & PTE_U != 0
            && fb & PTE_U != 0 ==> pa / 4096 != pb / 4096)) by {
            lemma_user_frame(next0, la, va);
            lemma_user_frame(nb, lb, vb);
            let ta = translation(*mem, ra, va);
            let tb = translation(*mem, rb, vb);
            if ta is Some && tb is Some {
                let pa = ta.unwrap().0;
                let fa = ta.unwrap().1;
                let pb = tb.unwrap().0;
                let fb = tb.unwrap().1;
                if fa & PTE_U != 0 && fb & PTE_U != 0 {
                    lemma_frames_apart(pa as int, pb as int, nb);
                }
            }
        }
    }
}


/// Addresses on either side of a page boundary `b` lie in different pages.
proof fn lemma_frames_apart(pa: int, pb: int, b: int)
    requires
        0 <= pa < b <= pb,
        b % 4096 == 0,
    ensures
        pa / 4096 != pb / 4096,
{
    assert(pa / 4096 < b / 4096) by (nonlinear_arith)
        requires
            0 <= pa < b,
            b % 4096 == 0,
    ;
    assert(b / 4096 <= pb / 4096) by (nonlinear_arith)
        requires
            b <= pb,
            0 <= b,
    ;
}

proof fn lemma_prog_frame_bound(next0: int, len: nat, j: nat)
    requires
        next0 % 4096 == 0,
        j < prog_pages(len),
    ensures
        prog_frame(next0, len, j) % 4096 == 0,
        prog_frame(next0, len, j) + 4096 <= next0 + 4096 * user_frames(len),
{
    let k = kernel_map_tables();
    lemma_run_frames_mono(kernel_l1s(), kernel_l0s(), USER_BASE as int, j + 1, prog_pages(len));
    lemma_frame_aligned(
        next0 + 4096 * (1 + k),
        run_frames(kernel_l1s(), kernel_l0s(), USER_BASE as int, j),
    );
}

proof fn lemma_stack_frame_bound(next0: int, len: nat, j: nat)
    requires
        next0 % 4096 == 0,
        j < USER_STACK_PAGES,
    ensures
        stack_frame(next0, len, j) % 4096 == 0,
        stack_frame(next0, len, j) + 4096 <= next0 + 4096 * user_frames(len),
{
    let p = prog_pages(len);
    let s1 = range_l1s(kernel_l1s(), USER_BASE as int, p);
    let s0 = range_l0s(kernel_l0s(), USER_BASE as int, p);
    lemma_run_frames_mono(s1, s0, USER_STACK_BOTTOM as int, j + 1, USER_STACK_PAGES as nat);
    lemma_frame_aligned(
        next0 + 4096 * (1 + kernel_map_tables() + prog_frames(len)),
        run_frames(s1, s0, USER_STACK_BOTTOM as int, j),
    );
}

/// A byte of an aligned frame that lies below `bound` keeps its value when no word below
/// `bound` changes.
proof fn lemma_frame_byte_kept<M: MemoryView>(m1: M, m2: M, f: int, o: int, bound: int)
    requires
        f % 4096 == 0,
        0 <= f,
        f + 4096 <= bound,
        bound <= usize::MAX,
        0 <= o < 4096,
        forall|a: usize| a < bound ==> #[trigger] m2.word(a) == m1.word(a),
    ensures
        byte_at(m2, (f + o) as usize) == byte_at(m1, (f + o) as usize),
{
    lemma_word_in_frame(f as usize, o as usize);
    let w = word_base((f + o) as usize);
    assert(m2.word(w) == m1.word(w));
}

/// The address space that `init_user` built stays a `user_space` while nothing below the
/// frames it took changes and its translations stay the same.
proof fn lemma_user_space_kept<M: MemoryView>(m1: M, m2: M, root: usize, next0: int, img: Seq<u8>)
    requires
        img.len() <= USER_STACK_BOTTOM - USER_BASE,
        next0 % 4096 == 0,
        next0 >= 0,
        next0 + 4096 * user_frames(img.len()) <= 0x100_0000_0000_0000,
        next0 + 4096 * user_frames(img.len()) <= usize::MAX,
        forall|vb: usize| #[trigger]
            translation(m2, root, vb) == user_translation(next0, img.len(), vb),
        forall|j: int, o: int|
            0 <= j < prog_pages(img.len()) && 0 <= o < 4096 ==> #[trigger] byte_at(
                m1,
                (prog_frame(next0, img.len(), j as nat) + o) as usize,
            ) == image_byte(img, 4096 * j + o),
        forall|j: int, o: int|
            0 <= j < USER_STACK_PAGES && 0 <= o < 4096 ==> #[trigger] byte_at(
                m1,
                (stack_frame(next0, img.len(), j as nat) + o) as usize,
            ) == 0,
        forall|a: usize| a < next0 + 4096 * user_frames(img.len()) ==> #[trigger] m2.word(a) == m1.word(a),
    ensures
        user_space(m2, root, img),
{
    let len = img.len();
    let bound = next0 + 4096 * user_frames(len);
    assert forall|j: int, o: int|
        0 <= j < prog_pages(len) && 0 <= o < 4096 implies #[trigger] byte_at(
        m2,
        (prog_frame(next0, len, j as nat) + o) as usize,
    ) == image_byte(img, 4096 * j + o) by {
        lemma_prog_frame_bound(next0, len, j as nat);
        lemma_frame_byte_kept(m1, m2, prog_frame(next0, len, j as nat), o, bound);
    }
    assert forall|j: int, o: int|
        0 <= j < USER_STACK_PAGES && 0 <= o < 4096 implies #[trigger] byte_at(
        m2,
        (stack_frame(next0, len, j as nat) + o) as usize,
    ) == 0 by {
        lemma_stack_frame_bound(next0, len, j as nat);
        lemma_frame_byte_kept(m1, m2, stack_frame(next0, len, j as nat), o, bound);
    }
    lemma_user_space(m2, root, next0, img);
}


/// A task that has exited, other than the idle task 0, never runs again: a scheduling
/// decision leaves it exited.
pub proof fn lemma_exited_stays_exited(tasks: Seq<Task>, cur: usize, i: int)
    requires
        tasks.len() == NUM_TASKS,
        cur < NUM_TASKS,
        0 < i < NUM_TASKS,
        tasks[i].state is Exited,
    ensures
        after_schedule(tasks, cur).0[i] == tasks[i],
{
    lemma_first_ready(unrun(tasks, cur as int), cur as int, 1);
}

/// A scheduling decision that resumes a task resumes a ready one (after the current task
/// has stopped running), or the idle task 0 when none is ready, and leaves exactly that task
/// running.
pub proof fn lemma_resumes_ready(tasks: Seq<Task>, cur: usize)
    requires
        tasks.len() == NUM_TASKS,
        cur < NUM_TASKS,
        !users_exited(tasks),
        forall|j: int| 0 <= j < NUM_TASKS && j != cur ==> !(#[trigger] tasks[j].state is Running),
    ensures
        ({
            let (t1, next, sw) = after_schedule(tasks, cur);
            &&& sw == Switch::Resume { id: next, satp: tasks[next as int].satp }
            &&& (unrun(tasks, cur as int)[next as int].state is Ready || (next == 0
                && next_ready(unrun(tasks, cur as int), cur as int) is None))
            &&& t1[next as int].state is Running
            &&& forall|j: int| 0 <= j < NUM_TASKS && j != next ==> !(#[trigger] t1[j].state is Running)
        }),
{
    lemma_first_ready(unrun(tasks, cur as int), cur as int, 1);
}


proof fn lemma_flag_bits()
    ensures
        KERNEL_PTE_FLAGS & PTE_U == 0,
        USER_PROG_FLAGS & PTE_U != 0 && USER_PROG_FLAGS & PTE_R != 0 && USER_PROG_FLAGS & PTE_W
            == 0,
        USER_STACK_FLAGS & PTE_U != 0 && USER_STACK_FLAGS & PTE_R != 0 && USER_STACK_FLAGS & PTE_W
            != 0,
{
    assert(KERNEL_PTE_FLAGS == 0xcf && USER_PROG_FLAGS == 0x5b && USER_STACK_FLAGS == 0xd7)
        by (bit_vector);
    assert(0xcfu64 & PTE_U == 0 && 0x5bu64 & PTE_U != 0 && 0x5bu64 & PTE_R != 0 && 0x5bu64 & PTE_W
        == 0 && 0xd7u64 & PTE_U != 0 && 0xd7u64 & PTE_R != 0 && 0xd7u64 & PTE_W != 0) by (bit_vector);
}

/// In a user address space, U-mode can neither read nor write any byte of DRAM: the
/// kernel's memory is mapped for the supervisor only.
pub proof fn lemma_kernel_memory_private<M: MemoryView>(m: M, root: usize, img: Seq<u8>, vb: usize)
    requires
        user_space(m, root, img),
        MEMORY_START <= vb < MEMORY_END,
    ensures
        user_read_pa(m, root, vb) is None,
        user_write_pa(m, root, vb) is None,
{
    lemma_flag_bits();
    assert(translation(m, root, vb) == Some((vb, KERNEL_PTE_FLAGS)));
}

/// In a user address space, U-mode reads byte `i` of the image at `USER_BASE + i`, but cannot
/// write it.
pub proof fn lemma_user_reads_image<M: MemoryView>(m: M, root: usize, img: Seq<u8>, i: int)
    requires
        user_space(m, root, img),
        0 <= i < img.len(),
    ensures
        user_read_pa(m, root, (USER_BASE + i) as usize) is Some,
        user_byte(m, root, (USER_BASE + i) as usize) == img[i],
        user_write_pa(m, root, (USER_BASE + i) as usize) is None,
{
    lemma_flag_bits();
    assert(maps_byte(m, translation(m, root, (USER_BASE + i) as usize), USER_PROG_FLAGS, img[i]));
}

/// In a user address space, U-mode can read and write every byte of its stack, which starts
/// out zero.
pub proof fn lemma_user_stack<M: MemoryView>(m: M, root: usize, img: Seq<u8>, i: int)
    requires
        user_space(m, root, img),
        0 <= i < USER_STACK_PAGES * PAGE_SIZE,
    ensures
        user_read_pa(m, root, (USER_STACK_BOTTOM + i) as usize) is Some,
        user_write_pa(m, root, (USER_STACK_BOTTOM + i) as usize) is Some,
        user_byte(m, root, (USER_STACK_BOTTOM + i) as usize) == 0,
{
    lemma_flag_bits();
    assert(maps_byte(m, translation(m, root, (USER_STACK_BOTTOM + i) as usize), USER_STACK_FLAGS, 0));
}

} // verus!
