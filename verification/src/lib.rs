//! A verified model of the TinyOS-RV64 kernel core: Sv39 page tables, a bump
//! frame allocator, user-memory copies, the round-robin scheduler and the
//! trap / system-call dispatch decisions.
use vstd::prelude::*;

pub mod arch;
pub mod mm;
pub mod sbi;
pub mod syscall;
pub mod task;
pub mod timer;
pub mod trap;
