//! Sizes and addresses that the kernel is built around.
use vstd::prelude::*;

verus! {

/// Number of bytes of one page.
pub const PAGE_SIZE: usize = 0x1000;

/// Number of bytes of the user stack of a thread.
pub const USER_STACK_SIZE: usize = 0x2000;

/// Number of bytes of the kernel stack of a thread.
pub const KERNEL_STACK_SIZE: usize = 0x2000;

/// The address of the trampoline page, the highest page of every address
/// space.
pub const TRAMPOLINE: usize = usize::MAX - PAGE_SIZE + 1;

/// The address of the trap context of thread 0, the page below the
/// trampoline.
pub const TRAP_CONTEXT_BASE: usize = TRAMPOLINE - PAGE_SIZE;

/// Number of timer ticks per second.
pub const CLOCK_FREQ: usize = 12500000;

/// Number of timer interrupts per second.
pub const TICKS_PER_SEC: usize = 100;

/// Number of milliseconds per second.
pub const MSEC_PER_SEC: usize = 1000;

} // verus!
