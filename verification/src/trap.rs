//! Trap frames and the decisions taken on a trap.
use crate::arch::SSTATUS_SPP;
use crate::mm::phys::PhysMemory;
use crate::sbi::SbiCall;
use crate::syscall::{handle_syscall, syscall_effect, SyscallOutcome, SYS_WRITE};
use crate::task::{
    Task, after_schedule, current_id, exit_current, on_timer_tick, schedule, with_state, woken,
    Scheduler, Switch, TaskState,
};
use crate::timer::{on_timer_interrupt, set_timer_call, ticks, Timer, TICK_INTERVAL};
use vstd::prelude::*;

verus! {

/// The registers saved on a trap: x1..x31, the trap CSRs, and the kernel stack pointer
/// used when the trap comes from U-mode.
#[derive(Clone, Copy, PartialEq, Eq, Structural, Debug)]
pub struct TrapFrame {
    pub ra: usize,
    pub sp: usize,
    pub gp: usize,
    pub tp: usize,
    pub t0: usize,
    pub t1: usize,
    pub t2: usize,
    pub s0: usize,
    pub s1: usize,
    pub a0: usize,
    pub a1: usize,
    pub a2: usize,
    pub a3: usize,
    pub a4: usize,
    pub a5: usize,
    pub a6: usize,
    pub a7: usize,
    pub s2: usize,
    pub s3: usize,
    pub s4: usize,
    pub s5: usize,
    pub s6: usize,
    pub s7: usize,
    pub s8: usize,
    pub s9: usize,
    pub s10: usize,
    pub s11: usize,
    pub t3: usize,
    pub t4: usize,
    pub t5: usize,
    pub t6: usize,
    pub sepc: usize,
    pub sstatus: usize,
    pub scause: usize,
    pub stval: usize,
    pub kernel_sp: usize,
}

/// The trap frame with every register zero.
pub open spec fn zero_frame() -> TrapFrame {
    TrapFrame {
        ra: 0, sp: 0, gp: 0, tp: 0, t0: 0, t1: 0, t2: 0, s0: 0, s1: 0, a0: 0, a1: 0, a2: 0, a3: 0, a4: 0, a5: 0, a6: 0, a7: 0, s2: 0, s3: 0, s4: 0, s5: 0, s6: 0, s7: 0, s8: 0, s9: 0, s10: 0, s11: 0, t3: 0, t4: 0, t5: 0, t6: 0,
        sepc: 0,
        sstatus: 0,
        scause: 0,
        stval: 0,
        kernel_sp: 0,
    }
}

impl TrapFrame {
    /// A trap frame with every register zero.
    pub fn zero() -> (tf: Self)
        ensures
            tf == zero_frame(),
    {
        TrapFrame {
            ra: 0, sp: 0, gp: 0, tp: 0, t0: 0, t1: 0, t2: 0, s0: 0, s1: 0, a0: 0, a1: 0, a2: 0, a3: 0, a4: 0, a5: 0, a6: 0, a7: 0, s2: 0, s3: 0, s4: 0, s5: 0, s6: 0, s7: 0, s8: 0, s9: 0, s10: 0, s11: 0, t3: 0, t4: 0, t5: 0, t6: 0,
            sepc: 0,
            sstatus: 0,
            scause: 0,
            stval: 0,
            kernel_sp: 0,
        }
    }

    /// The trap came from U-mode (sstatus.SPP is clear).
    pub fn from_user(&self) -> (r: bool)
        ensures
            r == (self.sstatus & SSTATUS_SPP == 0),
    {
        (self.sstatus & SSTATUS_SPP) == 0
    }
}


/// The interrupt bit of `scause` (its top bit).
pub open spec fn is_interrupt(scause: usize) -> bool {
    scause >> ((usize::BITS - 1) as usize) != 0
}

/// `scause` without its interrupt bit.
pub open spec fn cause_code(scause: usize) -> usize {
    scause & !(1usize << ((usize::BITS - 1) as usize))
}

/// `scause` is its code with the interrupt bit on top: the code lies below the top bit,
/// and putting the interrupt bit back on the code gives `scause` again.
pub proof fn lemma_scause_split(scause: usize)
    ensures
        cause_code(scause) < 1usize << ((usize::BITS - 1) as usize),
        scause == cause_code(scause) | (if is_interrupt(scause) {
            1usize << ((usize::BITS - 1) as usize)
        } else {
            0usize
        }),
{
    assert(scause & !(1usize << ((usize::BITS - 1) as usize)) < 1usize << ((usize::BITS - 1) as usize))
        by (bit_vector);
    assert(scause == (scause & !(1usize << ((usize::BITS - 1) as usize))) | (if scause >> ((
    usize::BITS - 1) as usize) != 0 {
        1usize << ((usize::BITS - 1) as usize)
    } else {
        0usize
    })) by (bit_vector);
}

/// Whether the trap is an interrupt.
pub fn scause_is_interrupt(scause: usize) -> (r: bool)
    ensures
        r == is_interrupt(scause),
{
    (scause >> (usize::BITS - 1)) != 0
}

/// The exception or interrupt code of the trap.
pub fn scause_code(scause: usize) -> (r: usize)
    ensures
        r == cause_code(scause),
{
    scause & (!(1usize << (usize::BITS - 1)))
}

/// The name of a page-fault exception code, if it is one.
pub open spec fn fault_name(code: usize) -> Option<&'static str> {
    if code == 12 {
        Some("instruction page fault")
    } else if code == 13 {
        Some("load page fault")
    } else if code == 15 {
        Some("store/amo page fault")
    } else {
        None
    }
}

/// The kind of page fault that exception `code` is: 12, 13 and 15 are the instruction,
/// load and store/AMO page faults.
pub fn page_fault_kind(code: usize) -> (r: Option<&'static str>)
    ensures
        r == fault_name(code),
{
    match code {
        12 => Some("instruction page fault"),
        13 => Some("load page fault"),
        15 => Some("store/amo page fault"),
        _ => None,
    }
}

/// What the kernel does after a trap.
#[derive(Clone, Copy, PartialEq, Eq, Debug)]
pub enum TrapOutcome {
    /// Supervisor timer interrupt: one tick counted, sleepers woken, the timer re-armed with
    /// `rearm`, and the scheduler decided.
    Timer { rearm: SbiCall, switch: Switch },
    /// Supervisor software interrupt: the pending bit is to be cleared, and the scheduler
    /// decided.
    Software { switch: Switch },
    /// Any other interrupt: the kernel panics.
    UnhandledInterrupt { scause: usize, sepc: usize },
    /// `ecall` from U-mode.
    Syscall(SyscallOutcome),
    /// Any other exception from U-mode: task `id` was killed (exit code -1), then the
    /// scheduler decided. `kind` names the page fault, when it is one.
    UserFault {
        id: usize,
        kind: Option<&'static str>,
        scause: usize,
        stval: usize,
        sepc: usize,
        switch: Switch,
    },
    /// Any other exception from S-mode: the kernel panics.
    KernelFault { scause: usize, stval: usize, sepc: usize },
}

/// The tasks after a timer tick at `now`.
pub open spec fn ticked(tasks: Seq<Task>, now: u64) -> Seq<Task> {
    Seq::new(tasks.len(), |i: int| Task { state: woken(tasks[i].state, now), ..tasks[i] })
}

/// Handles a trap taken with the registers `tf`; `now` is the current time.
///
/// - timer interrupt (code 5): count a tick, re-arm the timer at now + `TICK_INTERVAL`,
///   wake the sleepers whose tick has come, schedule;
/// - software interrupt (code 1): schedule;
/// - other interrupts: unhandled;
/// - `ecall` from U-mode (code 8): the system call;
/// - any other exception: from U-mode the current task is killed and the scheduler decides;
///   from S-mode it is unhandled.
pub fn trap_handler<M: PhysMemory>(
    tf: &mut TrapFrame,
    mem: &M,
    sched: &mut Scheduler,
    timer: &mut Timer,
    now: u64,
    out: &mut Vec<u8>,
) -> (r: TrapOutcome)
    requires
        old(sched).wf(),
        !is_interrupt(old(tf).scause) && cause_code(old(tf).scause) == 8 && old(tf).a7 == SYS_WRITE
            ==> old(sched).tasks@[old(sched).current as int].root_pa % 8 == 0,
        is_interrupt(old(tf).scause) && cause_code(old(tf).scause) == 5 ==> now + TICK_INTERVAL
            <= u64::MAX,
    ensures
        final(sched).wf(),
        ({
            let scause = old(tf).scause;
            let code = cause_code(scause);
            let cur = old(sched).current;
            let tasks = old(sched).tasks@;
            if is_interrupt(scause) {
                &&& *final(tf) == *old(tf)
                &&& final(out)@ == old(out)@
                &&& if code == 5 {
                    let t = final(timer).ticks;
                    let s = after_schedule(ticked(tasks, t as u64), cur);
                    &&& t == old(timer).ticks.wrapping_add(1)
                    &&& final(sched).tasks@ == s.0 && final(sched).current == s.1
                    &&& r == TrapOutcome::Timer {
                        rearm: set_timer_call((now + TICK_INTERVAL) as u64),
                        switch: s.2,
                    }
                } else {
                    &&& final(timer).ticks == old(timer).ticks
                    &&& if code == 1 {
                        let s = after_schedule(tasks, cur);
                        &&& final(sched).tasks@ == s.0 && final(sched).current == s.1
                        &&& r == TrapOutcome::Software { switch: s.2 }
                    } else {
                        &&& final(sched).tasks@ == tasks && final(sched).current == cur
                        &&& r == TrapOutcome::UnhandledInterrupt { scause, sepc: old(tf).sepc }
                    }
                }
            } else {
                &&& final(timer).ticks == old(timer).ticks
                &&& if code == 8 {
                    r matches TrapOutcome::Syscall(o) && syscall_effect(
                        *mem,
                        old(timer).ticks,
                        *old(tf),
                        *final(tf),
                        tasks,
                        cur,
                        final(sched).tasks@,
                        final(sched).current,
                        old(out)@,
                        final(out)@,
                        o,
                    )
                } else {
                    &&& *final(tf) == *old(tf)
                    &&& final(out)@ == old(out)@
                    &&& if old(tf).sstatus & SSTATUS_SPP == 0 {
                        let s = after_schedule(with_state(tasks, cur as int, TaskState::Exited(-1i32)), cur);
                        &&& final(sched).tasks@ == s.0 && final(sched).current == s.1
                        &&& r == TrapOutcome::UserFault {
                            id: cur,
                            kind: fault_name(code),
                            scause,
                            stval: old(tf).stval,
                            sepc: old(tf).sepc,
                            switch: s.2,
                        }
                    } else {
                        &&& final(sched).tasks@ == tasks && final(sched).current == cur
                        &&& r == TrapOutcome::KernelFault {
                            scause,
                            stval: old(tf).stval,
                            sepc: old(tf).sepc,
                        }
                    }
                }
            }
        }),
{
    let scause = tf.scause;
    if scause_is_interrupt(scause) {
        let code = scause_code(scause);
        if code == 5 {
            let rearm = on_timer_interrupt(timer, now);
            on_timer_tick(sched, ticks(timer) as u64);
            proof {
                assert(sched.tasks@ =~= ticked(old(sched).tasks@, timer.ticks as u64));
            }
            let switch = schedule(sched);
            TrapOutcome::Timer { rearm, switch }
        } else if code == 1 {
            TrapOutcome::Software { switch: schedule(sched) }
        } else {
            TrapOutcome::UnhandledInterrupt { scause: tf.scause, sepc: tf.sepc }
        }
    } else {
        let code = scause_code(scause);
        if code == 8 {
            TrapOutcome::Syscall(handle_syscall(tf, mem, sched, timer, out))
        } else if tf.from_user() {
            let kind = page_fault_kind(code);
            let id = current_id(sched);
            exit_current(sched, -1);
            let switch = schedule(sched);
            TrapOutcome::UserFault { id, kind, scause: tf.scause, stval: tf.stval, sepc: tf.sepc, switch }
        } else {
            TrapOutcome::KernelFault { scause: tf.scause, stval: tf.stval, sepc: tf.sepc }
        }
    }
}

} // verus!
