use lib::arch::{SSTATUS_SPIE, SSTATUS_SPP};
use lib::mm::copy::{copy_from_user, copy_to_user};
use lib::mm::pagetable::{make_satp, translate};
use lib::mm::phys::{read_byte, PhysMem};
use lib::mm::pte::{PTE_A, PTE_D, PTE_R, PTE_U, PTE_V, PTE_W, PTE_X};
use lib::mm::{init as mm_init, KernelSpace, MEMORY_START, USER_BASE, USER_STACK_TOP};
use lib::sbi::{console_putchar, set_timer, shutdown, SbiCall};
use lib::syscall::{
    handle_syscall, write_user_bytes, SyscallOutcome, SYS_EXIT, SYS_GET_TICKS, SYS_SLEEP,
    SYS_WRITE, SYS_YIELD,
};
use lib::task::{
    current_id, current_root_pa, exit_current, init as task_init, on_timer_tick, run_first,
    schedule, sleep_current, yield_current, Scheduler, Switch, Task, TaskState, KSTACK_SIZE,
    USER_PROG_FLAGS, USER_STACK_BOTTOM, USER_STACK_FLAGS,
};
use lib::timer::{init as timer_init, on_timer_interrupt, ticks, Timer, TICK_INTERVAL};
use lib::trap::{page_fault_kind, scause_code, scause_is_interrupt, trap_handler, TrapFrame, TrapOutcome};

const KSTACKS: [usize; 3] = [0x9000_0000, 0x9001_0000, 0x9002_0000];

/// The kernel after start-up: DRAM identity-mapped, the idle task and two user tasks.
fn boot(user_a: &[u8], user_b: &[u8]) -> (PhysMem, KernelSpace, Scheduler) {
    let mut mem = PhysMem::new();
    let mut k = mm_init(&mut mem, 0x8020_0000);
    let mut sched = Scheduler::new(KSTACKS);
    task_init(&mut sched, &mut k, &mut mem, 0x8000_1800, 0x8020_0abc, user_a, user_b);
    (mem, k, sched)
}

fn states(s: &Scheduler) -> Vec<TaskState> {
    s.tasks.iter().map(|t| t.state).collect()
}

#[test]
fn sbi_calls() {
    assert_eq!(console_putchar(b'A'), SbiCall { which: 1, arg0: 65, arg1: 0, arg2: 0 });
    assert_eq!(set_timer(12345), SbiCall { which: 0, arg0: 12345, arg1: 0, arg2: 0 });
    assert_eq!(shutdown(), SbiCall { which: 8, arg0: 0, arg1: 0, arg2: 0 });
}

#[test]
fn timer_counts_and_rearms() {
    let mut t = Timer::new();
    assert_eq!(ticks(&t), 0);
    assert_eq!(timer_init(500), set_timer(500 + TICK_INTERVAL));
    assert_eq!(on_timer_interrupt(&mut t, 1000), set_timer(101_000));
    assert_eq!(ticks(&t), 1);
    t.ticks = usize::MAX;
    on_timer_interrupt(&mut t, 0);
    assert_eq!(ticks(&t), 0);
}

#[test]
fn trap_frame_basics() {
    let mut tf = TrapFrame::zero();
    assert_eq!(tf.sepc, 0);
    assert_eq!(tf.kernel_sp, 0);
    assert!(tf.from_user());
    tf.sstatus = SSTATUS_SPP;
    assert!(!tf.from_user());
    tf.sstatus = SSTATUS_SPIE;
    assert!(tf.from_user());
}

#[test]
fn task_new_and_kernel_stack() {
    let t = Task::new(2, true, 0x9002_0000);
    assert_eq!(t.id, 2);
    assert!(t.is_user);
    assert_eq!(t.state, TaskState::Ready);
    assert_eq!(t.trapframe, TrapFrame::zero());
    assert_eq!(t.root_pa, 0);
    assert_eq!(t.satp, 0);
    assert_eq!(t.kstack_top(), 0x9002_0000 + KSTACK_SIZE);
}

#[test]
fn page_fault_kinds() {
    assert_eq!(page_fault_kind(12), Some("instruction page fault"));
    assert_eq!(page_fault_kind(13), Some("load page fault"));
    assert_eq!(page_fault_kind(15), Some("store/amo page fault"));
    assert_eq!(page_fault_kind(14), None);
    assert_eq!(page_fault_kind(8), None);
}

#[test]
fn round_robin_from_start_up() {
    let mut s = Scheduler::new(KSTACKS);
    assert_eq!(current_id(&s), 0);
    assert_eq!(run_first(&mut s), Switch::Resume { id: 1, satp: 0 });
    assert_eq!(states(&s), vec![TaskState::Ready, TaskState::Running, TaskState::Ready]);
    assert_eq!(schedule(&mut s), Switch::Resume { id: 2, satp: 0 });
    assert_eq!(schedule(&mut s), Switch::Resume { id: 0, satp: 0 });
    assert_eq!(schedule(&mut s), Switch::Resume { id: 1, satp: 0 });
    assert_eq!(states(&s), vec![TaskState::Ready, TaskState::Running, TaskState::Ready]);
}

#[test]
fn sleeping_and_exited_tasks_are_skipped() {
    let mut s = Scheduler::new(KSTACKS);
    run_first(&mut s);
    sleep_current(&mut s, 10);
    assert_eq!(schedule(&mut s), Switch::Resume { id: 2, satp: 0 });
    exit_current(&mut s, 3);
    assert_eq!(schedule(&mut s), Switch::Resume { id: 0, satp: 0 });
    assert_eq!(schedule(&mut s), Switch::Resume { id: 0, satp: 0 });
    on_timer_tick(&mut s, 9);
    assert_eq!(s.tasks[1].state, TaskState::Sleeping(10));
    on_timer_tick(&mut s, 10);
    assert_eq!(s.tasks[1].state, TaskState::Ready);
    assert_eq!(schedule(&mut s), Switch::Resume { id: 1, satp: 0 });
    assert_eq!(s.tasks[2].state, TaskState::Exited(3));
}

#[test]
fn yield_makes_the_running_task_ready() {
    let mut s = Scheduler::new(KSTACKS);
    run_first(&mut s);
    yield_current(&mut s);
    assert_eq!(s.tasks[1].state, TaskState::Ready);
    yield_current(&mut s);
    assert_eq!(s.tasks[1].state, TaskState::Ready);
    // With the others exited, the yielding task is picked again.
    s.tasks[2].state = TaskState::Exited(0);
    s.tasks[0].state = TaskState::Exited(0);
    assert_eq!(schedule(&mut s), Switch::Resume { id: 1, satp: 0 });
}

#[test]
fn shutdown_when_all_user_tasks_exited() {
    let mut s = Scheduler::new(KSTACKS);
    run_first(&mut s);
    exit_current(&mut s, 0);
    assert_eq!(schedule(&mut s), Switch::Resume { id: 2, satp: 0 });
    exit_current(&mut s, 1);
    let before = states(&s);
    assert_eq!(schedule(&mut s), Switch::Shutdown);
    assert_eq!(states(&s), before);
    assert_eq!(current_id(&s), 2);
}

#[test]
fn start_up_builds_the_tasks() {
    let img_a: Vec<u8> = (0..5000u32).map(|i| (i % 256) as u8).collect();
    let img_b = b"user b".to_vec();
    let (mem, k, s) = boot(&img_a, &img_b);
    let t0 = s.tasks[0];
    assert!(!t0.is_user);
    assert_eq!(t0.root_pa, k.kernel_root_pa());
    assert_eq!(t0.satp, k.kernel_satp());
    assert_eq!(t0.trapframe.sepc, 0x8020_0abc);
    assert_eq!(t0.trapframe.sp, KSTACKS[0] + KSTACK_SIZE);
    assert_eq!(t0.trapframe.sstatus, SSTATUS_SPP | SSTATUS_SPIE);
    let t1 = s.tasks[1];
    assert!(t1.is_user);
    assert_eq!(t1.satp, make_satp(t1.root_pa));
    assert_eq!(t1.trapframe.sepc, USER_BASE);
    assert_eq!(t1.trapframe.sp, USER_STACK_TOP);
    assert_eq!(t1.trapframe.gp, 0x8000_1800);
    assert_eq!(t1.trapframe.tp, 1);
    assert_eq!(t1.trapframe.sstatus, SSTATUS_SPIE);
    assert_eq!(t1.trapframe.kernel_sp, KSTACKS[1] + KSTACK_SIZE);
    let t2 = s.tasks[2];
    assert_ne!(t1.root_pa, t2.root_pa);
    assert!(t2.root_pa > t1.root_pa);
    assert_eq!(current_root_pa(&s), k.kernel_root_pa());
    // Task 1's image is at USER_BASE, readable and executable by the user.
    let (pa, fl) = translate(&mem, t1.root_pa, USER_BASE + 4097).unwrap();
    assert_eq!(fl, USER_PROG_FLAGS);
    assert_eq!(fl, PTE_V | PTE_R | PTE_X | PTE_U | PTE_A);
    assert_eq!(read_byte(&mem, pa), img_a[4097]);
    let mut back = vec![0u8; img_a.len()];
    assert_eq!(copy_from_user(&mem, t1.root_pa, &mut back, USER_BASE), Ok(()));
    assert_eq!(back, img_a);
    let mut back_b = vec![0u8; img_b.len()];
    assert_eq!(copy_from_user(&mem, t2.root_pa, &mut back_b, USER_BASE), Ok(()));
    assert_eq!(back_b, img_b);
    // The stack is writable and zero.
    let (_, sfl) = translate(&mem, t1.root_pa, USER_STACK_BOTTOM).unwrap();
    assert_eq!(sfl, USER_STACK_FLAGS);
    assert_eq!(sfl, PTE_V | PTE_R | PTE_W | PTE_U | PTE_A | PTE_D);
    let mut zeros = vec![1u8; 64];
    assert_eq!(copy_from_user(&mem, t1.root_pa, &mut zeros, USER_STACK_TOP - 64), Ok(()));
    assert_eq!(zeros, vec![0u8; 64]);
    // Nothing is mapped at the top of the stack.
    assert_eq!(translate(&mem, t1.root_pa, USER_STACK_TOP), None);
}

#[test]
fn user_cannot_reach_kernel_memory() {
    let (mut mem, _k, s) = boot(b"aaaa", b"bbbb");
    let root = s.tasks[1].root_pa;
    let kflags = PTE_V | PTE_R | PTE_W | PTE_X | PTE_A | PTE_D;
    assert_eq!(translate(&mem, root, 0x8020_0000), Some((0x8020_0000, kflags)));
    let mut buf = [0u8; 4];
    assert_eq!(copy_from_user(&mem, root, &mut buf, 0x8020_0000), Err(()));
    assert_eq!(copy_to_user(&mut mem, root, MEMORY_START, b"evil"), Err(()));
    assert_eq!(copy_to_user(&mut mem, root, USER_BASE, b"code"), Err(()));
    assert_eq!(copy_to_user(&mut mem, root, USER_STACK_TOP - 4, b"ok!!"), Ok(()));
    let mut back = [0u8; 4];
    assert_eq!(copy_from_user(&mem, root, &mut back, USER_STACK_TOP - 4), Ok(()));
    assert_eq!(&back, b"ok!!");
}

#[test]
fn write_user_bytes_sends_the_buffer() {
    let (mem, _k, s) = boot(b"hello, world", b"");
    let root = s.tasks[1].root_pa;
    let mut out = Vec::new();
    assert_eq!(write_user_bytes(&mem, root, USER_BASE, 5, &mut out), Ok(5));
    assert_eq!(out, b"hello".to_vec());
    let mut out2 = b">".to_vec();
    assert_eq!(write_user_bytes(&mem, root, USER_STACK_BOTTOM - 2, 4, &mut out2), Err(()));
    assert_eq!(out2, b">".to_vec());
    let mut out3 = Vec::new();
    assert_eq!(write_user_bytes(&mem, root, USER_BASE + 7, 0, &mut out3), Ok(0));
    assert!(out3.is_empty());
}

/// The kernel after start-up with task 1 running.
fn running() -> (PhysMem, Scheduler, Timer) {
    let (mem, _k, mut s) = boot(b"hi there", b"bbbb");
    run_first(&mut s);
    (mem, s, Timer::new())
}

fn ecall(num: usize, a0: usize, a1: usize, a2: usize) -> TrapFrame {
    let mut tf = TrapFrame::zero();
    tf.a7 = num;
    tf.a0 = a0;
    tf.a1 = a1;
    tf.a2 = a2;
    tf.sepc = 0x1_0040;
    tf.scause = 8;
    tf
}

#[test]
fn syscall_write() {
    let (mem, mut s, t) = running();
    let mut tf = ecall(SYS_WRITE, 1, USER_BASE + 3, 5);
    let mut out = Vec::new();
    assert_eq!(handle_syscall(&mut tf, &mem, &mut s, &t, &mut out), SyscallOutcome::Return);
    assert_eq!(out, b"there".to_vec());
    assert_eq!(tf.a0, 5);
    assert_eq!(tf.sepc, 0x1_0044);
    assert_eq!(current_id(&s), 1);
    assert_eq!(s.tasks[1].state, TaskState::Running);
}

#[test]
fn syscall_write_of_a_kernel_buffer_kills_the_caller() {
    let (mem, mut s, t) = running();
    let mut tf = ecall(SYS_WRITE, 1, 0x8020_0000, 16);
    let mut out = Vec::new();
    let r = handle_syscall(&mut tf, &mem, &mut s, &t, &mut out);
    let satp2 = s.tasks[2].satp;
    assert_eq!(
        r,
        SyscallOutcome::KilledBadBuffer {
            id: 1,
            buf: 0x8020_0000,
            len: 16,
            switch: Switch::Resume { id: 2, satp: satp2 },
        }
    );
    assert!(out.is_empty());
    assert_eq!(s.tasks[1].state, TaskState::Exited(-1));
    assert_eq!(tf.a0, 1);
    assert_eq!(tf.sepc, 0x1_0044);
    // A buffer that runs off the end of the image page onto unmapped memory prints its
    // readable part first.
    let mut tf2 = ecall(SYS_WRITE, 1, USER_BASE + 4094, 4);
    let mut out2 = Vec::new();
    let r2 = handle_syscall(&mut tf2, &mem, &mut s, &t, &mut out2);
    assert!(matches!(r2, SyscallOutcome::KilledBadBuffer { id: 2, .. }));
    assert_eq!(out2, vec![0u8, 0u8]);
}

#[test]
fn syscall_get_ticks_yield_sleep_exit_and_unknown() {
    let (mem, mut s, mut t) = running();
    on_timer_interrupt(&mut t, 0);
    on_timer_interrupt(&mut t, 0);
    let mut out = Vec::new();
    let mut tf = ecall(SYS_GET_TICKS, 0, 0, 0);
    assert_eq!(handle_syscall(&mut tf, &mem, &mut s, &t, &mut out), SyscallOutcome::Return);
    assert_eq!(tf.a0, 2);
    let satp2 = s.tasks[2].satp;
    let mut tf = ecall(SYS_YIELD, 0, 0, 0);
    assert_eq!(
        handle_syscall(&mut tf, &mem, &mut s, &t, &mut out),
        SyscallOutcome::Rescheduled(Switch::Resume { id: 2, satp: satp2 })
    );
    assert_eq!(s.tasks[1].state, TaskState::Ready);
    let mut tf = ecall(SYS_SLEEP, 3, 0, 0);
    let satp0 = s.tasks[0].satp;
    assert_eq!(
        handle_syscall(&mut tf, &mem, &mut s, &t, &mut out),
        SyscallOutcome::Rescheduled(Switch::Resume { id: 0, satp: satp0 })
    );
    assert_eq!(s.tasks[2].state, TaskState::Sleeping(5));
    let mut tf = ecall(SYS_SLEEP, usize::MAX, 0, 0);
    s.current = 0;
    handle_syscall(&mut tf, &mem, &mut s, &t, &mut out);
    assert_eq!(s.tasks[0].state, TaskState::Sleeping(u64::MAX));
    let mut tf = ecall(SYS_EXIT, 7, 0, 0);
    s.current = 1;
    s.tasks[1].state = TaskState::Running;
    handle_syscall(&mut tf, &mem, &mut s, &t, &mut out);
    assert_eq!(s.tasks[1].state, TaskState::Exited(7));
    let mut tf = ecall(99, 1, 2, 3);
    let cur = current_id(&s);
    assert_eq!(
        handle_syscall(&mut tf, &mem, &mut s, &t, &mut out),
        SyscallOutcome::Unknown { num: 99, id: cur }
    );
    assert_eq!(tf.a0, usize::MAX);
    assert_eq!(tf.sepc, 0x1_0044);
    assert!(out.is_empty());
}

#[test]
fn trap_timer_interrupt_ticks_wakes_and_schedules() {
    let (mem, mut s, mut t) = running();
    sleep_current(&mut s, 1);
    let mut tf = TrapFrame::zero();
    tf.scause = (1usize << (usize::BITS - 1)) | 5;
    let mut out = Vec::new();
    let r = trap_handler(&mut tf, &mem, &mut s, &mut t, 7000, &mut out);
    let satp2 = s.tasks[2].satp;
    assert_eq!(
        r,
        TrapOutcome::Timer {
            rearm: set_timer(7000 + TICK_INTERVAL),
            switch: Switch::Resume { id: 2, satp: satp2 },
        }
    );
    assert_eq!(ticks(&t), 1);
    assert_eq!(s.tasks[1].state, TaskState::Ready);
}

#[test]
fn trap_software_and_unhandled_interrupts() {
    let (mem, mut s, mut t) = running();
    let mut out = Vec::new();
    let mut tf = TrapFrame::zero();
    tf.scause = (1usize << (usize::BITS - 1)) | 1;
    let satp2 = s.tasks[2].satp;
    assert_eq!(
        trap_handler(&mut tf, &mem, &mut s, &mut t, 0, &mut out),
        TrapOutcome::Software { switch: Switch::Resume { id: 2, satp: satp2 } }
    );
    let mut tf = TrapFrame::zero();
    tf.scause = (1usize << (usize::BITS - 1)) | 9;
    tf.sepc = 0x42;
    assert_eq!(
        trap_handler(&mut tf, &mem, &mut s, &mut t, 0, &mut out),
        TrapOutcome::UnhandledInterrupt { scause: tf.scause, sepc: 0x42 }
    );
    assert_eq!(ticks(&t), 0);
}

#[test]
fn trap_ecall_runs_the_syscall() {
    let (mem, mut s, mut t) = running();
    let mut out = Vec::new();
    let mut tf = ecall(SYS_WRITE, 1, USER_BASE, 2);
    assert_eq!(
        trap_handler(&mut tf, &mem, &mut s, &mut t, 0, &mut out),
        TrapOutcome::Syscall(SyscallOutcome::Return)
    );
    assert_eq!(out, b"hi".to_vec());
    assert_eq!(tf.a0, 2);
}

#[test]
fn trap_user_page_fault_kills_only_that_task() {
    let (mem, mut s, mut t) = running();
    let mut out = Vec::new();
    let mut tf = TrapFrame::zero();
    tf.scause = 13;
    tf.stval = 0x8020_0000;
    tf.sepc = 0x1_0010;
    tf.sstatus = SSTATUS_SPIE;
    let satp2 = s.tasks[2].satp;
    assert_eq!(
        trap_handler(&mut tf, &mem, &mut s, &mut t, 0, &mut out),
        TrapOutcome::UserFault {
            id: 1,
            kind: Some("load page fault"),
            scause: 13,
            stval: 0x8020_0000,
            sepc: 0x1_0010,
            switch: Switch::Resume { id: 2, satp: satp2 },
        }
    );
    assert_eq!(s.tasks[1].state, TaskState::Exited(-1));
    assert_eq!(s.tasks[2].state, TaskState::Running);
    // Another exception from U-mode kills without a page-fault name.
    let mut tf = TrapFrame::zero();
    tf.scause = 2;
    let r = trap_handler(&mut tf, &mem, &mut s, &mut t, 0, &mut out);
    assert!(matches!(r, TrapOutcome::UserFault { id: 2, kind: None, scause: 2, .. }));
    // Both user tasks have exited: the next decision is to shut down.
    assert_eq!(schedule(&mut s), Switch::Shutdown);
}

#[test]
fn trap_kernel_exception_is_unhandled() {
    let (mem, mut s, mut t) = running();
    let mut out = Vec::new();
    let mut tf = TrapFrame::zero();
    tf.scause = 15;
    tf.stval = 0x10;
    tf.sepc = 0x8020_1000;
    tf.sstatus = SSTATUS_SPP;
    assert_eq!(
        trap_handler(&mut tf, &mem, &mut s, &mut t, 0, &mut out),
        TrapOutcome::KernelFault { scause: 15, stval: 0x10, sepc: 0x8020_1000 }
    );
    assert_eq!(s.tasks[1].state, TaskState::Running);
}

#[test]
fn user_address_spaces_use_different_frames() {
    let (mem, k, sched) = boot(&[1, 2, 3, 4], &[5, 6, 7, 8]);
    let ra = sched.tasks[1].root_pa;
    let rb = sched.tasks[2].root_pa;
    assert_ne!(ra, rb);
    assert_ne!(k.root_pa, ra);
    assert_ne!(k.root_pa, rb);
    let (pa, fa) = translate(&mem, ra, USER_BASE).unwrap();
    let (pb, fb) = translate(&mem, rb, USER_BASE).unwrap();
    assert!(fa & PTE_U != 0 && fb & PTE_U != 0);
    assert_ne!(pa / 4096, pb / 4096);
    assert_eq!(read_byte(&mem, pa), 1);
    assert_eq!(read_byte(&mem, pb), 5);
    let (sa, _) = translate(&mem, ra, USER_STACK_BOTTOM).unwrap();
    let (sb, _) = translate(&mem, rb, USER_STACK_BOTTOM).unwrap();
    assert_ne!(sa / 4096, sb / 4096);
    // Task 1's frames all come before task 2's root table.
    assert!(pa < rb && sa < rb && pb > rb && sb > rb);
}

#[test]
fn kernel_stack_top_is_16_byte_aligned() {
    let t = Task::new(1, true, 0x9001_0010);
    assert_eq!(t.kstack_top(), 0x9001_0010 + KSTACK_SIZE);
    assert_eq!(t.kstack_top() % 16, 0);
}

#[test]
fn scause_splits_into_interrupt_bit_and_code() {
    assert!(scause_is_interrupt(0x8000_0000_0000_0005));
    assert_eq!(scause_code(0x8000_0000_0000_0005), 5);
    assert!(!scause_is_interrupt(13));
    assert_eq!(scause_code(13), 13);
    assert_eq!(scause_code(usize::MAX), usize::MAX >> 1);
}

#[test]
fn syscall_changes_only_sepc_and_a0() {
    let (mem, mut sched, timer) = running();
    let mut tf = ecall(SYS_GET_TICKS, 7, 8, 9);
    tf.s3 = 0x33;
    let before = tf;
    let mut out = Vec::new();
    handle_syscall(&mut tf, &mem, &mut sched, &timer, &mut out);
    assert_eq!(tf.sepc, before.sepc + 4);
    assert_eq!(TrapFrame { sepc: before.sepc, a0: before.a0, ..tf }, before);
}
