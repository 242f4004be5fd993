//! The registers that a context switch saves and restores.
use vstd::prelude::*;

verus! {

/// The saved registers of a thread that is not running: return address,
/// stack pointer and the twelve callee-saved registers.
#[derive(Copy, Clone, Debug)]
pub struct TaskContext {
    pub ra: usize,
    pub sp: usize,
    pub s: [usize; 12],
}

impl TaskContext {
    /// A context of zeros.
    pub fn zero_init() -> (cx: Self)
        ensures
            cx.ra == 0,
            cx.sp == 0,
            forall|i: int| 0 <= i < 12 ==> cx.s[i] == 0,
    {
        Self { ra: 0, sp: 0, s: [0usize; 12] }
    }

    /// The context of a thread that, when it is switched to, returns to user
    /// mode: it resumes at `trap_return`, the address of the return path
    /// from a trap, on the kernel stack that ends at `kstack_ptr`.
    pub fn goto_trap_return(kstack_ptr: usize, trap_return: usize) -> (cx: Self)
        ensures
            cx.ra == trap_return,
            cx.sp == kstack_ptr,
            forall|i: int| 0 <= i < 12 ==> cx.s[i] == 0,
    {
        Self { ra: trap_return, sp: kstack_ptr, s: [0usize; 12] }
    }
}

} // verus!
