//! System calls made with `ecall` from U-mode.
//!
//! ABI: a7 holds the call number, a0..a2 the arguments, and a0 the result.
use crate::mm::copy::{user_byte, user_read_pa, wrap_add};
use crate::mm::pagetable::{translate, translation};
use crate::mm::phys::{byte_at, read_byte, MemoryView, PhysMemory};
use crate::mm::pte::{PTE_R, PTE_U};
use crate::task::{
    after_schedule, current_id, current_root_pa, exit_current, schedule, sleep_current, unrun,
    with_state, yield_current, Scheduler, Switch, Task, TaskState,
};
use crate::timer::{ticks, Timer};
use crate::trap::TrapFrame;
use vstd::prelude::*;

verus! {

pub const SYS_WRITE: usize = 1;

pub const SYS_YIELD: usize = 2;

pub const SYS_EXIT: usize = 3;

pub const SYS_GET_TICKS: usize = 4;

pub const SYS_SLEEP: usize = 5;

/// The `n` user bytes from `va` on, read through the page table rooted at `root`.
pub open spec fn user_bytes<M: MemoryView>(m: M, root: usize, va: usize, n: int) -> Seq<u8> {
    Seq::new(n as nat, |i: int| user_byte(m, root, wrap_add(va, i)))
}

/// Byte `i` of the user buffer at `va` lies in a page mapped with U and R.
pub open spec fn readable<M: MemoryView>(m: M, root: usize, va: usize, i: int) -> bool {
    user_read_pa(m, root, wrap_add(va, i)) is Some
}

/// Byte `i` of a user buffer is readable exactly when its address translates through a
/// leaf with U and R set, and its value is then the byte at the physical address that the
/// translation of that very address gives (each byte goes through its own page).
pub proof fn lemma_user_bytes_translated<M: MemoryView>(m: M, root: usize, va: usize, n: int)
    requires
        0 <= n,
    ensures
        user_bytes(m, root, va, n).len() == n,
        forall|i: int|
            0 <= i < n ==> (#[trigger] readable(m, root, va, i) <==> (translation(
                m,
                root,
                wrap_add(va, i),
            ) matches Some((pa, fl)) && fl & PTE_U != 0 && fl & PTE_R != 0)),
        forall|i: int|
            0 <= i < n ==> (#[trigger] translation(m, root, wrap_add(va, i)) matches Some((pa, fl))
                ==> (fl & PTE_U != 0 && fl & PTE_R != 0 ==> user_bytes(m, root, va, n)[i]
                == byte_at(m, pa))),
{
}

/// Reads the `len` user bytes from `user_ptr` on and sends them to the console (appends
/// them to `out`), one at a time.
///
/// Succeeds with `len` exactly when every byte lies in a page mapped with U and R;
/// otherwise the bytes before the first one that does not have been sent.
pub fn write_user_bytes<M: PhysMemory>(
    mem: &M,
    root_pa: usize,
    user_ptr: usize,
    len: usize,
    out: &mut Vec<u8>,
) -> (r: Result<usize, ()>)
    requires
        root_pa % 8 == 0,
    ensures
        r is Ok <==> forall|i: int| 0 <= i < len ==> #[trigger] readable(*mem, root_pa, user_ptr, i),
        r is Ok ==> r == Ok::<usize, ()>(len) && final(out)@ == old(out)@ + user_bytes(
            *mem,
            root_pa,
            user_ptr,
            len as int,
        ),
        r is Ok ==> final(out)@.len() == old(out)@.len() + len && forall|i: int|
            0 <= i < len ==> (#[trigger] translation(*mem, root_pa, wrap_add(user_ptr, i)) matches Some(
                (pa, fl),
            ) ==> final(out)@[old(out)@.len() + i] == byte_at(*mem, pa)),
        r is Err ==> exists|k: int|
            0 <= k < len && !readable(*mem, root_pa, user_ptr, k) && (forall|i: int|
                0 <= i < k ==> #[trigger] readable(*mem, root_pa, user_ptr, i)) && final(out)@
                == old(out)@ + user_bytes(*mem, root_pa, user_ptr, k),
{
    let mut i: usize = 0;
    while i < len
        invariant
            root_pa % 8 == 0,
            i <= len,
            forall|j: int| 0 <= j < i ==> #[trigger] readable(*mem, root_pa, user_ptr, j),
            out@ == old(out)@ + user_bytes(*mem, root_pa, user_ptr, i as int),
        decreases len - i,
    {
        let va = user_ptr.wrapping_add(i);
        let (pa, flags) = match translate(mem, root_pa, va) {
            Some(t) => t,
            None => {
                assert(!readable(*mem, root_pa, user_ptr, i as int));
                return Err(());
            },
        };
        if (flags & PTE_U) == 0 || (flags & PTE_R) == 0 {
            assert(!readable(*mem, root_pa, user_ptr, i as int));
            return Err(());
        }
        let ch = read_byte(mem, pa);
        out.push(ch);
        i = i + 1;
        assert(out@ =~= old(out)@ + user_bytes(*mem, root_pa, user_ptr, i as int));
    }
    proof {
        lemma_user_bytes_translated(*mem, root_pa, user_ptr, len as int);
        assert forall|i: int| 0 <= i < len implies (#[trigger] translation(
            *mem,
            root_pa,
            wrap_add(user_ptr, i),
        ) matches Some((pa, fl)) ==> out@[old(out)@.len() + i] == byte_at(*mem, pa)) by {
            assert(readable(*mem, root_pa, user_ptr, i));
            assert(out@[old(out)@.len() + i] == user_bytes(*mem, root_pa, user_ptr, len as int)[i]);
        }
    }
    Ok(len)
}

/// What the kernel does after a system call.
#[derive(Clone, Copy, PartialEq, Eq, Structural, Debug)]
pub enum SyscallOutcome {
    /// Return to the calling task.
    Return,
    /// The caller asked to write a buffer it cannot read: it was killed (exit code -1),
    /// then the scheduler decided.
    KilledBadBuffer { id: usize, buf: usize, len: usize, switch: Switch },
    /// The caller yielded, slept or exited, then the scheduler decided.
    Rescheduled(Switch),
    /// The call number is unknown; the caller gets `usize::MAX`.
    Unknown { num: usize, id: usize },
}

/// The effect of the system call in `tf0`, made by task `cur0` of `tasks0` with the tick
/// count `ticks`: the registers `tf1`, the console output `out1` (after `out0`), the tasks
/// `tasks1` with current task `cur1`, and the outcome `r`.
pub open spec fn syscall_effect<M: MemoryView>(
    m: M,
    ticks: usize,
    tf0: TrapFrame,
    tf1: TrapFrame,
    tasks0: Seq<Task>,
    cur0: usize,
    tasks1: Seq<Task>,
    cur1: usize,
    out0: Seq<u8>,
    out1: Seq<u8>,
    r: SyscallOutcome,
) -> bool {
    let num = tf0.a7;
    let a0 = tf0.a0;
    let buf = tf0.a1;
    let len = tf0.a2;
    let sepc = tf0.sepc.wrapping_add(4);
    let cur = cur0;
    let tasks = tasks0;
    let root = tasks[cur as int].root_pa;
    if num == SYS_WRITE {
        if forall|i: int| 0 <= i < len ==> #[trigger] readable(m, root, buf, i) {
            &&& tf1 == TrapFrame { sepc, a0: len, ..tf0 }
            &&& out1 == out0 + user_bytes(m, root, buf, len as int)
            &&& tasks1 == tasks && cur1 == cur
            &&& r == SyscallOutcome::Return
        } else {
            let s = after_schedule(with_state(tasks, cur as int, TaskState::Exited(-1i32)), cur);
            &&& tf1 == TrapFrame { sepc, ..tf0 }
            &&& exists|k: int|
                0 <= k < len && !readable(m, root, buf, k) && (forall|i: int|
                    0 <= i < k ==> #[trigger] readable(m, root, buf, i)) && out1
                    == out0 + user_bytes(m, root, buf, k)
            &&& tasks1 == s.0 && cur1 == s.1
            &&& r == SyscallOutcome::KilledBadBuffer { id: cur, buf, len, switch: s.2 }
        }
    } else {
        &&& out1 == out0
        &&& if num == SYS_GET_TICKS {
            &&& tf1 == TrapFrame { sepc, a0: ticks, ..tf0 }
            &&& tasks1 == tasks && cur1 == cur
            &&& r == SyscallOutcome::Return
        } else if num == SYS_YIELD || num == SYS_SLEEP || num == SYS_EXIT {
            let t1 = if num == SYS_YIELD {
                unrun(tasks, cur as int)
            } else if num == SYS_SLEEP {
                with_state(
                    tasks,
                    cur as int,
                    TaskState::Sleeping((ticks as u64).saturating_add(a0 as u64)),
                )
            } else {
                with_state(tasks, cur as int, TaskState::Exited(a0 as i32))
            };
            let s = after_schedule(t1, cur);
            &&& tf1 == TrapFrame { sepc, ..tf0 }
            &&& tasks1 == s.0 && cur1 == s.1
            &&& r == SyscallOutcome::Rescheduled(s.2)
        } else {
            &&& tf1 == TrapFrame { sepc, a0: usize::MAX, ..tf0 }
            &&& tasks1 == tasks && cur1 == cur
            &&& r == SyscallOutcome::Unknown { num, id: cur }
        }
    }
}

/// A system call changes no register but `sepc`, which moves past the `ecall`, and `a0`,
/// whatever the call number.
pub proof fn lemma_syscall_registers<M: MemoryView>(
    m: M,
    ticks: usize,
    tf0: TrapFrame,
    tf1: TrapFrame,
    tasks0: Seq<Task>,
    cur0: usize,
    tasks1: Seq<Task>,
    cur1: usize,
    out0: Seq<u8>,
    out1: Seq<u8>,
    r: SyscallOutcome,
)
    requires
        syscall_effect(m, ticks, tf0, tf1, tasks0, cur0, tasks1, cur1, out0, out1, r),
    ensures
        tf1 == (TrapFrame { sepc: tf0.sepc.wrapping_add(4), a0: tf1.a0, ..tf0 }),
{
}

/// Handles the system call in `tf` for the current task. `sepc` moves past the `ecall`.
///
/// - write(fd, buf, len): the bytes go to `out`; a0 = len, or the caller is killed when a
///   byte of the buffer is not in a page mapped with U and R.
/// - get_ticks: a0 = the tick count.
/// - yield, sleep(ticks) (until now + ticks, saturating), exit(code): the task's state
///   changes and the scheduler decides.
/// - anything else: a0 = `usize::MAX`.
pub fn handle_syscall<M: PhysMemory>(
    tf: &mut TrapFrame,
    mem: &M,
    sched: &mut Scheduler,
    timer: &Timer,
    out: &mut Vec<u8>,
) -> (r: SyscallOutcome)
    requires
        old(sched).wf(),
        old(tf).a7 == SYS_WRITE ==> old(sched).tasks@[old(sched).current as int].root_pa % 8 == 0,
    ensures
        final(sched).wf(),
        syscall_effect(
            *mem,
            timer.ticks,
            *old(tf),
            *final(tf),
            old(sched).tasks@,
            old(sched).current,
            final(sched).tasks@,
            final(sched).current,
            old(out)@,
            final(out)@,
            r,
        ),
{
    let num = tf.a7;
    let a0 = tf.a0;
    let a1 = tf.a1;
    let a2 = tf.a2;
    tf.sepc = tf.sepc.wrapping_add(4);
    if num == SYS_WRITE {
        let root = current_root_pa(sched);
        match write_user_bytes(mem, root, a1, a2, out) {
            Ok(n) => {
                tf.a0 = n;
                SyscallOutcome::Return
            },
            Err(_) => {
                let id = current_id(sched);
                exit_current(sched, -1);
                let switch = schedule(sched);
                SyscallOutcome::KilledBadBuffer { id, buf: a1, len: a2, switch }
            },
        }
    } else if num == SYS_GET_TICKS {
        tf.a0 = ticks(timer);
        SyscallOutcome::Return
    } else if num == SYS_YIELD {
        yield_current(sched);
        SyscallOutcome::Rescheduled(schedule(sched))
    } else if num == SYS_SLEEP {
        let dur = a0 as u64;
        let now = ticks(timer) as u64;
        sleep_current(sched, now.saturating_add(dur));
        SyscallOutcome::Rescheduled(schedule(sched))
    } else if num == SYS_EXIT {
        let code = a0 as i32;
        exit_current(sched, code);
        SyscallOutcome::Rescheduled(schedule(sched))
    } else {
        let id = current_id(sched);
        tf.a0 = usize::MAX;
        SyscallOutcome::Unknown { num, id }
    }
}

} // verus!
