//! The thread control block.
use crate::task::context::TaskContext;
use crate::task::id::{KernelStack, TaskUserRes};
use vstd::prelude::*;

verus! {

/// What a thread is doing: waiting in the ready queue, running on the
/// processor, or waiting for something other than the processor.
#[derive(Copy, Clone, PartialEq, Eq, Structural, Debug)]
pub enum TaskStatus {
    Ready,
    Running,
    Blocking,
}

/// The name of a thread: the id of its process and its number there.
#[derive(Copy, Clone, PartialEq, Eq, Structural, Debug)]
pub struct TaskRef {
    pub pid: usize,
    pub tid: usize,
}

/// One thread of a process.
pub struct TaskControlBlock {
    /// The id of the process of the thread.
    pub process: usize,
    /// The kernel stack of the thread.
    pub kstack: KernelStack,
    /// What the thread owns in the address space, until it exits.
    pub res: Option<TaskUserRes>,
    /// The physical page of the trap context of the thread.
    pub trap_cx_ppn: usize,
    /// The saved registers of the thread while it does not run.
    pub task_cx: TaskContext,
    pub task_status: TaskStatus,
    /// The exit code of the thread, once it has exited.
    pub exit_code: Option<i32>,
}

impl TaskControlBlock {
    /// A new thread of process `process` that owns `res`, with its trap
    /// context in page `trap_cx_ppn` and with kernel stack `kstack`, which
    /// ends at `kstack_top`. The thread is ready and, when switched to,
    /// resumes at `trap_return`.
    pub fn new(
        process: usize,
        res: TaskUserRes,
        trap_cx_ppn: usize,
        kstack: KernelStack,
        kstack_top: usize,
        trap_return: usize,
    ) -> (task: Self)
        ensures
            task.process == process,
            task.kstack == kstack,
            task.res == Some(res),
            task.trap_cx_ppn == trap_cx_ppn,
            task.task_cx.ra == trap_return,
            task.task_cx.sp == kstack_top,
            forall|i: int| 0 <= i < 12 ==> task.task_cx.s[i] == 0,
            task.task_status == TaskStatus::Ready,
            task.exit_code is None,
    {
        Self {
            process,
            kstack,
            res: Some(res),
            trap_cx_ppn,
            task_cx: TaskContext::goto_trap_return(kstack_top, trap_return),
            task_status: TaskStatus::Ready,
            exit_code: None,
        }
    }

    /// The physical page of the trap context of the thread.
    pub fn get_trap_cx(&self) -> (ppn: usize)
        ensures
            ppn == self.trap_cx_ppn,
    {
        self.trap_cx_ppn
    }
}

} // verus!
