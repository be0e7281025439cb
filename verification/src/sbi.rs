//! Legacy SBI calls (as served by OpenSBI on QEMU `virt`).
//!
//! A call is described here by the registers it is made with; the `ecall` itself is made
//! by the platform layer.
use vstd::prelude::*;

verus! {

/// Legacy extension number of `set_timer`.
pub const SBI_SET_TIMER: usize = 0;

/// Legacy extension number of `console_putchar`.
pub const SBI_CONSOLE_PUTCHAR: usize = 1;

/// Legacy extension number of `shutdown`.
pub const SBI_SHUTDOWN: usize = 8;

/// An SBI call: `which` goes in a7, the arguments in a0..a2.
#[derive(Clone, Copy, PartialEq, Eq, Structural, Debug)]
pub struct SbiCall {
    pub which: usize,
    pub arg0: usize,
    pub arg1: usize,
    pub arg2: usize,
}

fn sbi_call(which: usize, arg0: usize, arg1: usize, arg2: usize) -> (c: SbiCall)
    ensures
        c == (SbiCall { which, arg0, arg1, arg2 }),
{
    SbiCall { which, arg0, arg1, arg2 }
}

/// `console_putchar(ch)`: a7 = 1, a0 = ch.
pub fn console_putchar(ch: u8) -> (c: SbiCall)
    ensures
        c == (SbiCall { which: SBI_CONSOLE_PUTCHAR, arg0: ch as usize, arg1: 0, arg2: 0 }),
{
    sbi_call(SBI_CONSOLE_PUTCHAR, ch as usize, 0, 0)
}

/// `set_timer(stime_value)`: a7 = 0, a0 = the time (cut to the register's width).
pub fn set_timer(stime_value: u64) -> (c: SbiCall)
    ensures
        c == (SbiCall { which: SBI_SET_TIMER, arg0: stime_value as usize, arg1: 0, arg2: 0 }),
{
    sbi_call(SBI_SET_TIMER, stime_value as usize, 0, 0)
}

/// `shutdown()`: a7 = 8.
pub fn shutdown() -> (c: SbiCall)
    ensures
        c == (SbiCall { which: SBI_SHUTDOWN, arg0: 0, arg1: 0, arg2: 0 }),
{
    sbi_call(SBI_SHUTDOWN, 0, 0, 0)
}

} // verus!
