//! RISC-V supervisor CSR bit masks.
use vstd::prelude::*;

verus! {

/// sie: supervisor software interrupt enable.
pub const SIE_SSIE: usize = 0x2;

/// sie: supervisor timer interrupt enable.
pub const SIE_STIE: usize = 0x20;

/// sip: supervisor software interrupt pending.
pub const SIP_SSIP: usize = 0x2;

/// sstatus: supervisor interrupt enable.
pub const SSTATUS_SIE: usize = 0x2;

/// sstatus: interrupts enabled before the trap.
pub const SSTATUS_SPIE: usize = 0x20;

/// sstatus: the privilege before the trap (1 = supervisor, 0 = user).
pub const SSTATUS_SPP: usize = 0x100;

} // verus!
