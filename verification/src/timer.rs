//! The timer tick: a tick counter and the re-arming of the supervisor timer.
use crate::sbi::{set_timer, SbiCall};
use vstd::prelude::*;

verus! {

/// Timer ticks between two timer interrupts (about 10 ms at a 10 MHz timebase).
pub const TICK_INTERVAL: u64 = 100_000;

/// The number of timer interrupts taken so far.
pub struct Timer {
    pub ticks: usize,
}

impl Timer {
    /// A counter at zero.
    pub fn new() -> (t: Timer)
        ensures
            t.ticks == 0,
    {
        Timer { ticks: 0 }
    }
}

/// The number of ticks so far.
pub fn ticks(timer: &Timer) -> (r: usize)
    ensures
        r == timer.ticks,
{
    timer.ticks
}

/// The call that asks for the next timer interrupt one interval after `now`.
fn set_next_trigger(now: u64) -> (c: SbiCall)
    requires
        now + TICK_INTERVAL <= u64::MAX,
    ensures
        c == set_timer_call((now + TICK_INTERVAL) as u64),
{
    set_timer(now + TICK_INTERVAL)
}

/// The `set_timer` call for the time `t`.
pub open spec fn set_timer_call(t: u64) -> SbiCall {
    SbiCall { which: crate::sbi::SBI_SET_TIMER, arg0: t as usize, arg1: 0, arg2: 0 }
}

/// Arms the first timer interrupt, one interval after `now` (the platform then enables
/// the supervisor timer interrupt).
pub fn init(now: u64) -> (c: SbiCall)
    requires
        now + TICK_INTERVAL <= u64::MAX,
    ensures
        c == set_timer_call((now + TICK_INTERVAL) as u64),
{
    set_next_trigger(now)
}

/// Counts one tick (the counter wraps) and re-arms the timer one interval after `now`.
pub fn on_timer_interrupt(timer: &mut Timer, now: u64) -> (c: SbiCall)
    requires
        now + TICK_INTERVAL <= u64::MAX,
    ensures
        final(timer).ticks == old(timer).ticks.wrapping_add(1),
        c == set_timer_call((now + TICK_INTERVAL) as u64),
{
    timer.ticks = timer.ticks.wrapping_add(1);
    set_next_trigger(now)
}

} // verus!
