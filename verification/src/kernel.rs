//! The kernel record: the table of processes, the ready queue, the
//! processor, the sleeping threads, and the open files and pipes.
//!
//! Nothing here switches contexts or touches an address space. A function
//! that ends in a switch returns the switch to make; the caller makes it.
use crate::fs::OSInode;
use crate::pipe::{Pipe, PipeRingBuffer};
use crate::task::context::TaskContext;
use crate::task::id::{KernelStack, PidHandle, RecycleAllocator};
use crate::task::manager::TaskManager;
use crate::task::process::ProcessControlBlock;
use crate::task::signal::{SignalFlags, SignalState, TrapContext};
use crate::task::task::{TaskControlBlock, TaskRef, TaskStatus};
use crate::timer::{spec_due, TimerCondVar, Timers};
use vstd::prelude::*;

verus! {

/// What a file descriptor can name.
#[derive(Copy, Clone, PartialEq, Eq, Structural, Debug)]
pub enum File {
    /// The console, for reading.
    Stdin,
    /// The console, for writing.
    Stdout,
    /// A file of the file system.
    Inode(OSInode),
    /// One end of a pipe.
    Pipe(Pipe),
}

/// An open file, and the number of file descriptors that name it.
#[derive(Copy, Clone, PartialEq, Eq, Structural, Debug)]
pub struct OpenFile {
    pub file: File,
    pub handles: usize,
}

/// A saved context: that of the idle loop of the processor, or that of a
/// thread.
#[derive(Copy, Clone, PartialEq, Eq, Structural, Debug)]
pub enum ContextRef {
    Idle,
    Task(TaskRef),
    /// A place to save registers that are never loaded again.
    Scratch,
}

/// A context switch to make: save the registers in `from`, load them from
/// `to`.
#[derive(Copy, Clone, PartialEq, Eq, Structural, Debug)]
pub struct Switch {
    pub from: ContextRef,
    pub to: ContextRef,
}

/// The processor: the thread that runs on it, and the context of its idle
/// loop.
pub struct Processor {
    pub current: Option<TaskRef>,
    pub idle_task_cx: TaskContext,
}

impl Processor {
    /// A processor that runs no thread. The context of its idle loop is
    /// all zeros until the first switch away from the loop saves it.
    pub fn new() -> (processor: Self)
        ensures
            processor.current is None,
            processor.idle_task_cx.ra == 0,
            processor.idle_task_cx.sp == 0,
            forall|i: int| 0 <= i < 12 ==> processor.idle_task_cx.s[i] == 0,
    {
        Self { current: None, idle_task_cx: TaskContext::zero_init() }
    }

    /// Takes the running thread off the processor.
    pub fn take_current(&mut self) -> (task: Option<TaskRef>)
        ensures
            task == old(self).current,
            final(self).current is None,
            final(self).idle_task_cx == old(self).idle_task_cx,
    {
        self.current.take()
    }

    /// The running thread.
    pub fn current(&self) -> (task: Option<TaskRef>)
        ensures
            task == self.current,
    {
        self.current
    }

    /// The context of the idle loop.
    pub fn get_idle_task_cx_ptr(&self) -> (cx: ContextRef)
        ensures
            cx == ContextRef::Idle,
    {
        ContextRef::Idle
    }
}

/// The place of the console for reading in the table of open files.
pub const STDIN_FILE: usize = 0;

/// The place of the console for writing in the table of open files.
pub const STDOUT_FILE: usize = 1;

/// The state of the kernel.
pub struct Kernel {
    /// The processes by id. A process stays here until its parent has
    /// waited for it.
    pub processes: Vec<Option<ProcessControlBlock>>,
    pub pid_allocator: RecycleAllocator,
    pub kstack_allocator: RecycleAllocator,
    pub task_manager: TaskManager,
    pub processor: Processor,
    pub timers: Timers,
    pub files: Vec<OpenFile>,
    pub pipes: Vec<PipeRingBuffer>,
    /// The id of the first process, which adopts orphans.
    pub initproc: Option<usize>,
}

impl Kernel {
    /// Is there a process with id `pid`?
    pub open spec fn spec_live(&self, pid: int) -> bool {
        0 <= pid < self.processes@.len() && self.processes@[pid] is Some
    }

    /// The process with id `pid`.
    pub open spec fn spec_process(&self, pid: int) -> ProcessControlBlock {
        self.processes@[pid]->0
    }

    /// Is there a thread `task`?
    pub open spec fn spec_task_exists(&self, task: TaskRef) -> bool {
        &&& self.spec_live(task.pid as int)
        &&& task.tid < self.spec_process(task.pid as int).tasks@.len()
        &&& self.spec_process(task.pid as int).tasks@[task.tid as int] is Some
    }

    /// The thread `task`.
    pub open spec fn spec_task(&self, task: TaskRef) -> TaskControlBlock {
        self.spec_process(task.pid as int).tasks@[task.tid as int]->0
    }

    /// Is process `pid` registered, that is: can signals be sent to it? A
    /// process is registered from its creation until its main thread
    /// exits.
    pub open spec fn spec_registered(&self, pid: int) -> bool {
        self.spec_live(pid) && !self.spec_process(pid).is_zombie
    }

    /// Does a thread run, and does it exist?
    pub open spec fn spec_running(&self) -> bool {
        self.processor.current is Some && self.spec_task_exists(self.processor.current->0)
    }

    /// The invariant of the tree of processes: the children of a process
    /// exist, know their parent, are listed once, and are not the process
    /// itself.
    pub open spec fn spec_tree_wf(&self) -> bool {
        forall|p: int|
            self.spec_live(p) ==> {
                &&& (#[trigger] self.spec_process(p)).children@.no_duplicates()
                &&& forall|i: int|
                    0 <= i < self.spec_process(p).children@.len() ==> {
                        &&& self.spec_live((#[trigger] self.spec_process(p).children@[i]) as int)
                        &&& self.spec_process(
                            self.spec_process(p).children@[i] as int,
                        ).parent == Some(p as usize)
                        &&& self.spec_process(p).children@[i] != p
                    }
            }
    }

    /// The invariant of the kernel.
    pub open spec fn wf(&self) -> bool {
        &&& self.pid_allocator.wf()
        &&& self.kstack_allocator.wf()
        &&& self.timers.wf()
        &&& self.processes@.len() <= self.pid_allocator.spec_current()
        &&& forall|pid: usize|
            pid < self.processes@.len() && (#[trigger] self.processes@[pid as int]) is Some
                ==> self.pid_allocator.spec_allocated(pid)
        &&& forall|pid: int|
            self.spec_live(pid) ==> (#[trigger] self.spec_process(pid)).wf() && self.spec_process(
                pid,
            ).pid.0 == pid
        &&& self.spec_tree_wf()
        &&& self.processor.current is Some ==> self.spec_task_exists(self.processor.current->0)
        &&& self.initproc is Some ==> self.spec_live(self.initproc->0 as int) && self.spec_process(
            self.initproc->0 as int,
        ).parent is None
    }

    /// A kernel without processes.
    pub fn new() -> (kernel: Self)
        ensures
            kernel.wf(),
            kernel.processes@.len() == 0,
            kernel.task_manager@.len() == 0,
            kernel.processor.current is None,
            kernel.timers@.len() == 0,
            kernel.files@.len() == 2,
            kernel.files@[0].file is Stdin,
            kernel.files@[1].file is Stdout,
            kernel.pipes@.len() == 0,
            kernel.initproc is None,
    {
        let mut files: Vec<OpenFile> = Vec::new();
        files.push(OpenFile { file: File::Stdin, handles: 0 });
        files.push(OpenFile { file: File::Stdout, handles: 0 });
        Kernel {
            processes: Vec::new(),
            pid_allocator: RecycleAllocator::new(),
            kstack_allocator: RecycleAllocator::new(),
            task_manager: TaskManager::new(),
            processor: Processor::new(),
            timers: Timers::new(),
            files,
            pipes: Vec::new(),
            initproc: None,
        }
    }

    /// Hands out a process id: the one that was given back last, or else
    /// the lowest that was never handed out.
    pub fn pid_alloc(&mut self) -> (pid: PidHandle)
        requires
            old(self).pid_allocator.wf(),
            old(self).pid_allocator.spec_recycled().len() == 0 ==> old(self).pid_allocator.spec_current() < usize::MAX,
        ensures
            *final(self) == (Kernel { pid_allocator: final(self).pid_allocator, ..*old(self) }),
            final(self).pid_allocator.wf(),
            !old(self).pid_allocator.spec_allocated(pid.0),
            final(self).pid_allocator.spec_allocated(pid.0),
            forall|other: usize|
                other != pid.0 ==> final(self).pid_allocator.spec_allocated(other) == old(self).pid_allocator.spec_allocated(other),
            old(self).pid_allocator.spec_recycled().len() > 0 ==> pid.0 == old(self).pid_allocator.spec_recycled().last()
                && final(self).pid_allocator.spec_recycled() == old(self).pid_allocator.spec_recycled().drop_last()
                && final(self).pid_allocator.spec_current() == old(self).pid_allocator.spec_current(),
            old(self).pid_allocator.spec_recycled().len() == 0 ==> pid.0 == old(self).pid_allocator.spec_current()
                && final(self).pid_allocator.spec_current() == pid.0 + 1
                && final(self).pid_allocator.spec_recycled() == old(self).pid_allocator.spec_recycled(),
    {
        PidHandle(self.pid_allocator.allocate())
    }

    /// Hands out a kernel stack: the one that was given back last, or else
    /// the lowest that was never handed out. Its place in the address space
    /// of the kernel is `kernel_stack_position` of its number.
    pub fn kstack_alloc(&mut self) -> (kstack: KernelStack)
        requires
            old(self).kstack_allocator.wf(),
            old(self).kstack_allocator.spec_recycled().len() == 0 ==> old(self).kstack_allocator.spec_current() < usize::MAX,
        ensures
            *final(self) == (Kernel { kstack_allocator: final(self).kstack_allocator, ..*old(self) }),
            final(self).kstack_allocator.wf(),
            !old(self).kstack_allocator.spec_allocated(kstack.0),
            final(self).kstack_allocator.spec_allocated(kstack.0),
            forall|other: usize|
                other != kstack.0 ==> final(self).kstack_allocator.spec_allocated(other) == old(self).kstack_allocator.spec_allocated(other),
            old(self).kstack_allocator.spec_recycled().len() > 0 ==> kstack.0 == old(self).kstack_allocator.spec_recycled().last()
                && final(self).kstack_allocator.spec_recycled() == old(self).kstack_allocator.spec_recycled().drop_last()
                && final(self).kstack_allocator.spec_current() == old(self).kstack_allocator.spec_current(),
            old(self).kstack_allocator.spec_recycled().len() == 0 ==> kstack.0 == old(self).kstack_allocator.spec_current()
                && final(self).kstack_allocator.spec_current() == kstack.0 + 1
                && final(self).kstack_allocator.spec_recycled() == old(self).kstack_allocator.spec_recycled(),
    {
        KernelStack(self.kstack_allocator.allocate())
    }

    /// Puts `task` at the end of the ready queue.
    pub fn add_task(&mut self, task: TaskRef)
        ensures
            final(self).task_manager@ == old(self).task_manager@.push(task),
            *final(self) == (Kernel { task_manager: final(self).task_manager, ..*old(self) }),
            old(self).wf() ==> final(self).wf(),
    {
        self.task_manager.add(task);
        proof {
            if old(self).wf() {
                self.lemma_wf_frame(*old(self));
            }
        }
    }

    /// Takes the thread at the front of the ready queue, if there is one.
    pub fn fetch_task(&mut self) -> (task: Option<TaskRef>)
        ensures
            old(self).task_manager@.len() == 0 ==> task is None && final(self).task_manager@ == old(self).task_manager@,
            old(self).task_manager@.len() > 0 ==> task == Some(old(self).task_manager@[0])
                && final(self).task_manager@ == old(self).task_manager@.drop_first(),
            *final(self) == (Kernel { task_manager: final(self).task_manager, ..*old(self) }),
            old(self).wf() ==> final(self).wf(),
    {
        let task = self.task_manager.fetch();
        proof {
            if old(self).wf() {
                self.lemma_wf_frame(*old(self));
            }
        }
        task
    }

    /// Takes the first occurrence of `task` out of the ready queue.
    pub fn remove_task(&mut self, task: TaskRef)
        ensures
            final(self).task_manager@ == (if crate::task::manager::spec_position(
                old(self).task_manager@,
                task,
            ) < old(self).task_manager@.len() {
                old(self).task_manager@.remove(
                    crate::task::manager::spec_position(old(self).task_manager@, task),
                )
            } else {
                old(self).task_manager@
            }),
            *final(self) == (Kernel { task_manager: final(self).task_manager, ..*old(self) }),
            old(self).wf() ==> final(self).wf(),
    {
        self.task_manager.remove(task);
        proof {
            if old(self).wf() {
                self.lemma_wf_frame(*old(self));
            }
        }
    }

    /// Is there a registered process with id `pid`?
    pub fn get_pcb_by_pid(&self, pid: usize) -> (found: bool)
        ensures
            found == self.spec_registered(pid as int),
    {
        if pid >= self.processes.len() {
            return false;
        }
        match &self.processes[pid] {
            Some(process) => !process.is_zombie,
            None => false,
        }
    }

    /// Takes the running thread off the processor.
    pub fn take_current_task(&mut self) -> (task: Option<TaskRef>)
        ensures
            task == old(self).processor.current,
            final(self).processor.current is None,
            final(self).processor.idle_task_cx == old(self).processor.idle_task_cx,
            *final(self) == (Kernel { processor: final(self).processor, ..*old(self) }),
            old(self).wf() ==> final(self).wf(),
    {
        let task = self.processor.take_current();
        proof {
            if old(self).wf() {
                self.lemma_wf_frame(*old(self));
            }
        }
        task
    }

    /// The running thread.
    pub fn current_task(&self) -> (task: Option<TaskRef>)
        ensures
            task == self.processor.current,
    {
        self.processor.current()
    }

    /// The id of the process of the running thread.
    pub fn current_process(&self) -> (pid: usize)
        requires
            self.processor.current is Some,
        ensures
            pid == self.processor.current->0.pid,
    {
        match self.processor.current {
            Some(task) => task.pid,
            None => 0,
        }
    }

    /// The token of the address space of the running thread.
    pub fn current_user_token(&self) -> (token: usize)
        requires
            self.spec_running(),
        ensures
            token == self.spec_process(self.processor.current->0.pid as int).memory_set,
    {
        let pid: usize = self.current_process();
        match &self.processes[pid] {
            Some(process) => process.get_user_token(),
            None => 0,
        }
    }

    /// The physical page of the trap context of the running thread.
    pub fn current_trap_cx(&self) -> (ppn: usize)
        requires
            self.spec_running(),
        ensures
            ppn == self.spec_task(self.processor.current->0).trap_cx_ppn,
    {
        let task: TaskRef = match self.processor.current {
            Some(task) => task,
            None => TaskRef { pid: 0, tid: 0 },
        };
        match &self.processes[task.pid] {
            Some(process) => process.get_task(task.tid).get_trap_cx(),
            None => 0,
        }
    }

    /// Sets the status of thread `task`, which must exist.
    pub fn set_status(&mut self, task: TaskRef, status: TaskStatus)
        requires
            old(self).spec_task_exists(task),
        ensures
            final(self).spec_task_exists(task),
            final(self).spec_task(task) == (TaskControlBlock {
                task_status: status,
                ..old(self).spec_task(task)
            }),
            *final(self) == (Kernel { processes: final(self).processes, ..*old(self) }),
            final(self).processes@.len() == old(self).processes@.len(),
            forall|pid: int|
                0 <= pid < old(self).processes@.len() && pid != task.pid ==> final(self).processes@[pid] == old(self).processes@[pid],
            final(self).spec_process(task.pid as int) == (ProcessControlBlock {
                tasks: final(self).spec_process(task.pid as int).tasks,
                ..old(self).spec_process(task.pid as int)
            }),
            final(self).spec_process(task.pid as int).tasks@ == old(self).spec_process(
                task.pid as int,
            ).tasks@.update(
                task.tid as int,
                Some(TaskControlBlock { task_status: status, ..old(self).spec_task(task) }),
            ),
            old(self).wf() ==> final(self).wf(),
    {
        let mut process: ProcessControlBlock = match self.processes[task.pid].take() {
            Some(process) => process,
            None => vstd::pervasive::unreached(),
        };
        let mut thread: TaskControlBlock = match process.tasks[task.tid].take() {
            Some(thread) => thread,
            None => vstd::pervasive::unreached(),
        };
        thread.task_status = status;
        process.tasks[task.tid] = Some(thread);
        self.processes[task.pid] = Some(process);
        proof {
            let after = self.spec_process(task.pid as int);
            let before = old(self).spec_process(task.pid as int);
            assert(after.tasks@ =~= before.tasks@.update(
                task.tid as int,
                Some(TaskControlBlock { task_status: status, ..old(self).spec_task(task) }),
            ));
            if old(self).wf() {
                assert forall|pid: usize|
                    pid < self.processes@.len() && (#[trigger] self.processes@[pid as int])
                        is Some implies self.pid_allocator.spec_allocated(pid) by {
                    assert(old(self).processes@[pid as int] is Some);
                }
                assert forall|pid: int| self.spec_live(pid) implies (#[trigger] self.spec_process(
                    pid,
                )).wf() && self.spec_process(pid).pid.0 == pid by {
                    assert(old(self).spec_live(pid));
                    assert(old(self).spec_process(pid).wf());
                    if pid == task.pid {
                        assert forall|tid: int|
                            0 <= tid < after.tasks@.len() && (#[trigger] after.tasks@[tid])
                                is Some implies after.tasks@[tid]->0.process == after.pid.0 by {
                            if tid != task.tid {
                                assert(before.tasks@[tid] is Some);
                            } else {
                                assert(before.tasks@[tid] is Some);
                            }
                        }
                    }
                }
                assert(self.spec_tree_wf()) by {
                    assert forall|p: int| self.spec_live(p) implies {
                        &&& (#[trigger] self.spec_process(p)).children@.no_duplicates()
                        &&& forall|i: int|
                            0 <= i < self.spec_process(p).children@.len() ==> {
                                &&& self.spec_live(
                                    (#[trigger] self.spec_process(p).children@[i]) as int,
                                )
                                &&& self.spec_process(
                                    self.spec_process(p).children@[i] as int,
                                ).parent == Some(p as usize)
                                &&& self.spec_process(p).children@[i] != p
                            }
                    } by {
                        assert(old(self).spec_live(p));
                        let before_p = old(self).spec_process(p);
                        assert(self.spec_process(p).children@ == before_p.children@);
                        assert forall|i: int|
                            0 <= i < self.spec_process(p).children@.len() implies {
                            &&& self.spec_live(
                                (#[trigger] self.spec_process(p).children@[i]) as int,
                            )
                            &&& self.spec_process(self.spec_process(p).children@[i] as int).parent
                                == Some(p as usize)
                            &&& self.spec_process(p).children@[i] != p
                        } by {
                            let c = before_p.children@[i] as int;
                            assert(old(self).spec_live(c));
                            assert(old(self).spec_process(c).parent == Some(p as usize));
                        }
                    }
                }
            }
        }
    }

    /// Lets the running thread, which goes on being ready, give up the
    /// processor: it goes to the end of the ready queue, and the processor
    /// goes back to its idle loop.
    pub fn suspend_current_and_run_next(&mut self) -> (switch: Switch)
        requires
            old(self).wf(),
            old(self).spec_running(),
        ensures
            final(self).wf(),
            switch == (Switch {
                from: ContextRef::Task(old(self).processor.current->0),
                to: ContextRef::Idle,
            }),
            final(self).processor.current is None,
            final(self).task_manager@ == old(self).task_manager@.push(
                old(self).processor.current->0,
            ),
            final(self).spec_task_exists(old(self).processor.current->0),
            final(self).spec_task(old(self).processor.current->0) == (TaskControlBlock {
                task_status: TaskStatus::Ready,
                ..old(self).spec_task(old(self).processor.current->0)
            }),
            final(self).spec_process(old(self).processor.current->0.pid as int)
                == (ProcessControlBlock {
                tasks: final(self).spec_process(old(self).processor.current->0.pid as int).tasks,
                ..old(self).spec_process(old(self).processor.current->0.pid as int)
            }),
            final(self).processes@.len() == old(self).processes@.len(),
            forall|pid: int|
                0 <= pid < old(self).processes@.len() && pid != old(self).processor.current->0.pid
                    ==> final(self).processes@[pid] == old(self).processes@[pid],
            final(self).pid_allocator == old(self).pid_allocator,
            final(self).kstack_allocator == old(self).kstack_allocator,
            final(self).timers == old(self).timers,
            final(self).files == old(self).files,
            final(self).pipes == old(self).pipes,
            final(self).initproc == old(self).initproc,
    {
        let task: TaskRef = match self.take_current_task() {
            Some(task) => task,
            None => vstd::pervasive::unreached(),
        };
        self.set_status(task, TaskStatus::Ready);
        self.add_task(task);
        self.schedule(ContextRef::Task(task))
    }

    /// Lets the running thread wait for something other than the
    /// processor: it is marked as blocking and does not go to the ready
    /// queue, and the processor goes back to its idle loop.
    pub fn block_current_and_run_next(&mut self) -> (switch: Switch)
        requires
            old(self).wf(),
            old(self).spec_running(),
        ensures
            final(self).wf(),
            switch == (Switch {
                from: ContextRef::Task(old(self).processor.current->0),
                to: ContextRef::Idle,
            }),
            final(self).processor == old(self).processor,
            final(self).task_manager == old(self).task_manager,
            final(self).spec_task_exists(old(self).processor.current->0),
            final(self).spec_task(old(self).processor.current->0) == (TaskControlBlock {
                task_status: TaskStatus::Blocking,
                ..old(self).spec_task(old(self).processor.current->0)
            }),
            final(self).spec_process(old(self).processor.current->0.pid as int)
                == (ProcessControlBlock {
                tasks: final(self).spec_process(old(self).processor.current->0.pid as int).tasks,
                ..old(self).spec_process(old(self).processor.current->0.pid as int)
            }),
            final(self).processes@.len() == old(self).processes@.len(),
            forall|pid: int|
                0 <= pid < old(self).processes@.len() && pid != old(self).processor.current->0.pid
                    ==> final(self).processes@[pid] == old(self).processes@[pid],
    {
        let task: TaskRef = match self.current_task() {
            Some(task) => task,
            None => vstd::pervasive::unreached(),
        };
        self.set_status(task, TaskStatus::Blocking);
        self.schedule(ContextRef::Task(task))
    }

    /// The switch from the context `current` back to the idle loop of the
    /// processor.
    pub fn schedule(&self, current: ContextRef) -> (switch: Switch)
        ensures
            switch == (Switch { from: current, to: ContextRef::Idle }),
    {
        Switch { from: current, to: self.processor.get_idle_task_cx_ptr() }
    }

    /// One turn of the idle loop: takes threads from the front of the
    /// ready queue until it finds one that exists, marks it as running,
    /// puts it on the processor and returns the switch to it. Returns
    /// `None` when the ready queue has run empty.
    pub fn run_tasks(&mut self) -> (switch: Option<Switch>)
        requires
            old(self).wf(),
        ensures
            final(self).wf(),
            match switch {
                Some(switch) => {
                    &&& switch.from == ContextRef::Idle
                    &&& final(self).processor.current is Some
                    &&& switch.to == ContextRef::Task(final(self).processor.current->0)
                    &&& exists|k: int|
                        0 <= k < old(self).task_manager@.len() && old(self).task_manager@[k]
                            == final(self).processor.current->0 && final(self).task_manager@ == old(self).task_manager@.subrange(k + 1, old(self).task_manager@.len() as int)
                            && old(self).spec_task_exists(old(self).task_manager@[k]) && forall|
                            j: int,
                        |
                            0 <= j < k ==> !old(self).spec_task_exists(old(self).task_manager@[j])
                    &&& final(self).spec_task_exists(final(self).processor.current->0)
                    &&& final(self).spec_task(final(self).processor.current->0)
                        == (TaskControlBlock {
                        task_status: TaskStatus::Running,
                        ..old(self).spec_task(final(self).processor.current->0)
                    })
                },
                None => {
                    &&& final(self).task_manager@.len() == 0
                    &&& final(self).processes == old(self).processes
                    &&& final(self).processor == old(self).processor
                    &&& forall|j: int|
                        0 <= j < old(self).task_manager@.len() ==> !old(self).spec_task_exists(
                            old(self).task_manager@[j],
                        )
                },
            },
    {
        let ghost queue = self.task_manager@;
        let ghost mut k: int = 0;
        assert(queue.subrange(0, queue.len() as int) =~= queue);
        loop
            invariant
                self.wf(),
                queue == old(self).task_manager@,
                0 <= k <= queue.len(),
                self.task_manager@ == queue.subrange(k, queue.len() as int),
                self.processes == old(self).processes,
                self.processor == old(self).processor,
                forall|j: int| 0 <= j < k ==> !old(self).spec_task_exists(queue[j]),
            decreases queue.len() - k,
        {
            match self.fetch_task() {
                Some(next_task) => {
                    proof {
                        assert(next_task == queue[k]);
                        assert(self.task_manager@ =~= queue.subrange(k + 1, queue.len() as int));
                    }
                    if self.task_exists(next_task) {
                        self.set_status(next_task, TaskStatus::Running);
                        let ghost mid = *self;
                        self.processor.current = Some(next_task);
                        proof {
                            self.lemma_wf_frame(mid);
                        }
                        return Some(
                            Switch { from: ContextRef::Idle, to: ContextRef::Task(next_task) },
                        );
                    }
                    proof {
                        k = k + 1;
                    }
                },
                None => {
                    return None;
                },
            }
        }
    }

    /// Is there a thread `task`?
    pub fn task_exists(&self, task: TaskRef) -> (exists_: bool)
        ensures
            exists_ == self.spec_task_exists(task),
    {
        if task.pid >= self.processes.len() {
            return false;
        }
        match &self.processes[task.pid] {
            Some(process) => {
                if task.tid >= process.tasks.len() {
                    false
                } else {
                    process.tasks[task.tid].is_some()
                }
            },
            None => false,
        }
    }

    /// Sends the signals of `flag` to the process of the running thread:
    /// they are pending from now on. Nothing else changes.
    pub fn current_add_signal(&mut self, flag: SignalFlags)
        requires
            old(self).wf(),
            old(self).spec_running(),
        ensures
            final(self).wf(),
            ({
                let pid = old(self).processor.current->0.pid as int;
                let before = old(self).spec_process(pid);
                &&& final(self).spec_live(pid)
                &&& final(self).spec_process(pid) == (ProcessControlBlock {
                    signals: SignalState {
                        signals: SignalFlags { bits: before.signals.signals.bits | flag.bits },
                        ..before.signals
                    },
                    ..before
                })
                &&& final(self).processes@ == old(self).processes@.update(
                    pid,
                    final(self).processes@[pid],
                )
            }),
            *final(self) == (Kernel { processes: final(self).processes, ..*old(self) }),
    {
        let pid: usize = self.current_process();
        let ghost before = *self;
        let mut process: ProcessControlBlock = self.take_process(pid);
        process.signals.signals.insert(flag);
        self.put_process(process, Ghost(before));
    }

    /// A kernel with the processes and the allocators of a well-formed one
    /// is well-formed, if its sleeping threads are in order and the thread
    /// that runs on it exists.
    pub proof fn lemma_wf_frame(&self, before: Kernel)
        requires
            before.wf(),
            self.processes == before.processes,
            self.pid_allocator == before.pid_allocator,
            self.kstack_allocator == before.kstack_allocator,
            self.timers.wf(),
            self.initproc == before.initproc,
            self.processor.current is Some ==> self.spec_task_exists(self.processor.current->0),
        ensures
            self.wf(),
    {
        assert forall|other: usize|
            other < self.processes@.len() && (#[trigger] self.processes@[other as int])
                is Some implies self.pid_allocator.spec_allocated(other) by {
            assert(before.processes@[other as int] is Some);
        }
        assert forall|other: int| self.spec_live(other) implies (#[trigger] self.spec_process(
            other,
        )).wf() && self.spec_process(other).pid.0 == other by {
            assert(before.spec_live(other));
            assert(before.spec_process(other).wf());
        }
        assert(self.spec_tree_wf()) by {
            assert forall|p: int| self.spec_live(p) implies {
                &&& (#[trigger] self.spec_process(p)).children@.no_duplicates()
                &&& forall|i: int|
                    0 <= i < self.spec_process(p).children@.len() ==> {
                        &&& self.spec_live((#[trigger] self.spec_process(p).children@[i]) as int)
                        &&& self.spec_process(
                            self.spec_process(p).children@[i] as int,
                        ).parent == Some(p as usize)
                        &&& self.spec_process(p).children@[i] != p
                    }
            } by {
                assert(before.spec_live(p));
                let before_p = before.spec_process(p);
                assert forall|i: int| 0 <= i < self.spec_process(p).children@.len() implies {
                    &&& self.spec_live((#[trigger] self.spec_process(p).children@[i]) as int)
                    &&& self.spec_process(self.spec_process(p).children@[i] as int).parent == Some(
                        p as usize,
                    )
                    &&& self.spec_process(p).children@[i] != p
                } by {
                    let c = before_p.children@[i] as int;
                    assert(before.spec_live(c));
                    assert(before.spec_process(c).parent == Some(p as usize));
                }
            }
        }
    }

    /// Replacing a process by one with the same id, children, parent and
    /// places of threads, and with a well-formed state, keeps the kernel
    /// well-formed.
    pub proof fn lemma_process_changed(&self, before: Kernel, pid: int)
        requires
            before.wf(),
            before.spec_live(pid),
            self.spec_live(pid),
            self.processes@.len() == before.processes@.len(),
            forall|other: int|
                0 <= other < before.processes@.len() && other != pid ==> self.processes@[other]
                    == before.processes@[other],
            self.spec_process(pid).wf(),
            self.spec_process(pid).pid == before.spec_process(pid).pid,
            self.spec_process(pid).children@ == before.spec_process(pid).children@,
            self.spec_process(pid).parent == before.spec_process(pid).parent,
            self.spec_process(pid).tasks@.len() == before.spec_process(pid).tasks@.len(),
            forall|tid: int|
                0 <= tid < before.spec_process(pid).tasks@.len() ==> (self.spec_process(
                    pid,
                ).tasks@[tid] is Some) == (before.spec_process(pid).tasks@[tid] is Some),
            self.pid_allocator == before.pid_allocator,
            self.kstack_allocator == before.kstack_allocator,
            self.timers == before.timers,
            self.processor.current == before.processor.current,
            self.initproc == before.initproc,
        ensures
            self.wf(),
    {
        assert forall|other: usize|
            other < self.processes@.len() && (#[trigger] self.processes@[other as int])
                is Some implies self.pid_allocator.spec_allocated(other) by {
            assert(before.processes@[other as int] is Some);
        }
        assert forall|other: int| self.spec_live(other) implies (#[trigger] self.spec_process(
            other,
        )).wf() && self.spec_process(other).pid.0 == other by {
            assert(before.spec_live(other));
            assert(before.spec_process(other).wf());
        }
        assert(self.spec_tree_wf()) by {
            assert forall|p: int| self.spec_live(p) implies {
                &&& (#[trigger] self.spec_process(p)).children@.no_duplicates()
                &&& forall|i: int|
                    0 <= i < self.spec_process(p).children@.len() ==> {
                        &&& self.spec_live((#[trigger] self.spec_process(p).children@[i]) as int)
                        &&& self.spec_process(
                            self.spec_process(p).children@[i] as int,
                        ).parent == Some(p as usize)
                        &&& self.spec_process(p).children@[i] != p
                    }
            } by {
                assert(before.spec_live(p));
                let before_p = before.spec_process(p);
                assert(self.spec_process(p).children@ == before_p.children@);
                assert forall|i: int| 0 <= i < self.spec_process(p).children@.len() implies {
                    &&& self.spec_live((#[trigger] self.spec_process(p).children@[i]) as int)
                    &&& self.spec_process(self.spec_process(p).children@[i] as int).parent == Some(
                        p as usize,
                    )
                    &&& self.spec_process(p).children@[i] != p
                } by {
                    let c = before_p.children@[i] as int;
                    assert(before.spec_live(c));
                    assert(before.spec_process(c).parent == Some(p as usize));
                }
            }
        }
        if self.processor.current is Some {
            let t = self.processor.current->0;
            assert(before.spec_task_exists(t));
        }
    }

    /// Counts one more file descriptor for open file `file`, if there is
    /// such a file and the count has room.
    pub fn retain_file(&mut self, file: usize)
        requires
            old(self).wf(),
        ensures
            final(self).wf(),
            *final(self) == (Kernel { files: final(self).files, ..*old(self) }),
            final(self).files@ == (if file < old(self).files@.len() && old(self).files@[file as int].handles < usize::MAX {
                old(self).files@.update(
                    file as int,
                    OpenFile {
                        handles: (old(self).files@[file as int].handles + 1) as usize,
                        ..old(self).files@[file as int]
                    },
                )
            } else {
                old(self).files@
            }),
    {
        if file < self.files.len() {
            let open: OpenFile = self.files[file];
            if open.handles < usize::MAX {
                self.files[file] = OpenFile { handles: open.handles + 1, ..open };
            } else {
                assert(self.files@ =~= old(self).files@);
            }
        }
        proof {
            self.lemma_wf_frame(*old(self));
        }
    }

    /// Counts one file descriptor less for open file `file`, if there is
    /// such a file and it has descriptors.
    pub fn release_file(&mut self, file: usize)
        requires
            old(self).wf(),
        ensures
            final(self).wf(),
            *final(self) == (Kernel { files: final(self).files, ..*old(self) }),
            final(self).files@ == (if file < old(self).files@.len() && old(self).files@[file as int].handles > 0 {
                old(self).files@.update(
                    file as int,
                    OpenFile {
                        handles: (old(self).files@[file as int].handles - 1) as usize,
                        ..old(self).files@[file as int]
                    },
                )
            } else {
                old(self).files@
            }),
    {
        if file < self.files.len() {
            let open: OpenFile = self.files[file];
            if open.handles > 0 {
                self.files[file] = OpenFile { handles: open.handles - 1, ..open };
            } else {
                assert(self.files@ =~= old(self).files@);
            }
        }
        proof {
            self.lemma_wf_frame(*old(self));
        }
    }

    /// Takes process `pid` out of the table, to change it and to put it
    /// back.
    pub(crate) fn take_process(&mut self, pid: usize) -> (process: ProcessControlBlock)
        requires
            old(self).spec_live(pid as int),
        ensures
            process == old(self).spec_process(pid as int),
            final(self).processes@ == old(self).processes@.update(pid as int, None),
            *final(self) == (Kernel { processes: final(self).processes, ..*old(self) }),
    {
        match self.processes[pid].take() {
            Some(process) => process,
            None => vstd::pervasive::unreached(),
        }
    }

    /// Puts `process` back into the table from which `take_process` took
    /// it when the table was `before`. The process must have the id, the
    /// parent, the children and the places of threads that it had.
    pub(crate) fn put_process(&mut self, process: ProcessControlBlock, Ghost(before): Ghost<Kernel>)
        requires
            before.wf(),
            before.spec_live(process.pid.0 as int),
            old(self).processes@ == before.processes@.update(process.pid.0 as int, None),
            *old(self) == (Kernel { processes: old(self).processes, ..before }),
            process.wf(),
            process.children@ == before.spec_process(process.pid.0 as int).children@,
            process.parent == before.spec_process(process.pid.0 as int).parent,
            process.tasks@.len() == before.spec_process(process.pid.0 as int).tasks@.len(),
            forall|tid: int|
                0 <= tid < process.tasks@.len() ==> (process.tasks@[tid] is Some) == (
                before.spec_process(process.pid.0 as int).tasks@[tid] is Some),
        ensures
            final(self).wf(),
            final(self).processes@ == before.processes@.update(
                process.pid.0 as int,
                Some(process),
            ),
            *final(self) == (Kernel { processes: final(self).processes, ..before }),
            final(self).spec_live(process.pid.0 as int),
            final(self).spec_process(process.pid.0 as int) == process,
    {
        let pid: usize = process.pid.0;
        self.processes[pid] = Some(process);
        proof {
            assert(self.processes@ =~= before.processes@.update(pid as int, Some(process)));
            assert(before.spec_process(pid as int).wf());
            self.lemma_process_changed(before, pid as int);
        }
    }

    /// Delivers signals to the process of the running thread on its way
    /// back to user mode, as `SignalState::handle_signals` does. A thread
    /// that has to wait gives up the processor, and is to come again with
    /// `resumed` set when it runs next.
    pub fn handle_signals(&mut self, trap_ctx: &mut TrapContext, resumed: bool) -> (switch: Option<
        Switch,
    >)
        requires
            old(self).wf(),
            old(self).spec_running(),
        ensures
            final(self).wf(),
            ({
                let task = old(self).processor.current->0;
                let before = old(self).spec_process(task.pid as int);
                let after = final(self).spec_process(task.pid as int);
                &&& final(self).spec_live(task.pid as int)
                &&& before.signals.spec_delivered(
                    *old(trap_ctx),
                    resumed,
                    after.signals,
                    *final(trap_ctx),
                    switch is Some,
                )
                &&& after == (ProcessControlBlock {
                    signals: after.signals,
                    tasks: after.tasks,
                    ..before
                })
                &&& final(self).spec_task_exists(task)
                &&& switch is None ==> after.tasks == before.tasks && final(self).processor == old(self).processor
                    && final(self).task_manager == old(self).task_manager
                &&& switch is Some ==> {
                    &&& switch == Some(Switch { from: ContextRef::Task(task), to: ContextRef::Idle })
                    &&& final(self).processor.current is None
                    &&& final(self).task_manager@ == old(self).task_manager@.push(task)
                    &&& final(self).spec_task(task) == (TaskControlBlock {
                        task_status: TaskStatus::Ready,
                        ..old(self).spec_task(task)
                    })
                }
            }),
            final(self).processes@.len() == old(self).processes@.len(),
            forall|pid: int|
                0 <= pid < old(self).processes@.len() && pid != old(self).processor.current->0.pid
                    ==> final(self).processes@[pid] == old(self).processes@[pid],
            final(self).pid_allocator == old(self).pid_allocator,
            final(self).kstack_allocator == old(self).kstack_allocator,
            final(self).timers == old(self).timers,
            final(self).files == old(self).files,
            final(self).pipes == old(self).pipes,
            final(self).initproc == old(self).initproc,
    {
        let pid: usize = self.current_process();
        let ghost before = *self;
        let mut process: ProcessControlBlock = self.take_process(pid);
        let suspend: bool = process.signals.handle_signals(trap_ctx, resumed);
        self.put_process(process, Ghost(before));
        if suspend {
            Some(self.suspend_current_and_run_next())
        } else {
            None
        }
    }

    /// Lets thread `task` sleep until `expire_ms`: its timer goes behind
    /// those that are due at `expire_ms` and before the later ones.
    pub fn add_timer(&mut self, expire_ms: usize, task: TaskRef)
        requires
            old(self).wf(),
        ensures
            final(self).wf(),
            final(self).timers@ == old(self).timers@.insert(
                spec_due(old(self).timers@, expire_ms),
                TimerCondVar { expire_ms, task },
            ),
            *final(self) == (Kernel { timers: final(self).timers, ..*old(self) }),
    {
        self.timers.add_timer(expire_ms, task);
        proof {
            self.lemma_wf_frame(*old(self));
        }
    }

    /// Takes all timers of thread `task` away.
    pub fn remove_timer(&mut self, task: TaskRef)
        requires
            old(self).wf(),
        ensures
            final(self).wf(),
            final(self).timers@ == crate::timer::spec_without(old(self).timers@, task),
            *final(self) == (Kernel { timers: final(self).timers, ..*old(self) }),
    {
        self.timers.remove_timer(task);
        proof {
            self.lemma_wf_frame(*old(self));
        }
    }

    /// Wakes the threads whose timers are due at `current_ms`: the timers
    /// are taken away, and the threads go to the end of the ready queue in
    /// the order of their times.
    pub fn check_timer(&mut self, current_ms: usize)
        requires
            old(self).wf(),
        ensures
            final(self).wf(),
            ({
                let sleeping = old(self).timers@;
                let due = spec_due(sleeping, current_ms);
                &&& 0 <= due <= sleeping.len()
                &&& final(self).timers@ == sleeping.subrange(due, sleeping.len() as int)
                &&& final(self).task_manager@ == old(self).task_manager@ + Seq::new(
                    due as nat,
                    |i: int| sleeping[i].task,
                )
            }),
            *final(self) == (Kernel {
                timers: final(self).timers,
                task_manager: final(self).task_manager,
                ..*old(self)
            }),
    {
        let ghost sleeping = self.timers@;
        let woken: Vec<TaskRef> = self.timers.check_timer(current_ms);
        let ghost mid = *self;
        let n: usize = woken.len();
        let mut i: usize = 0;
        assert(self.task_manager@ =~= old(self).task_manager@ + woken@.subrange(0, 0));
        while i < n
            invariant
                i <= n,
                n == woken@.len(),
                *self == (Kernel { task_manager: self.task_manager, ..mid }),
                self.task_manager@ == old(self).task_manager@ + woken@.subrange(0, i as int),
            decreases n - i,
        {
            self.task_manager.add(woken[i]);
            i += 1;
            assert(self.task_manager@ =~= old(self).task_manager@ + woken@.subrange(0, i as int));
        }
        proof {
            crate::timer::lemma_due(sleeping, current_ms);
            assert(woken@.subrange(0, n as int) =~= Seq::new(n as nat, |i: int| sleeping[i].task));
            self.lemma_wf_frame(*old(self));
        }
    }

    /// The exit code and the message for the first error signal that is
    /// pending for the process of the running thread.
    pub fn check_signals_error_of_current(&self) -> (r: Option<(i32, &'static str)>)
        requires
            self.spec_running(),
        ensures
            match r {
                Some((code, message)) => self.spec_process(
                    self.processor.current->0.pid as int,
                ).signals.signals.spec_check_error() == Some(code) && message@
                    == crate::task::signal::spec_error_message(code),
                None => self.spec_process(
                    self.processor.current->0.pid as int,
                ).signals.signals.spec_check_error() is None,
            },
    {
        let pid: usize = self.current_process();
        match &self.processes[pid] {
            Some(process) => process.signals.signals.check_error(),
            None => None,
        }
    }
}

} // verus!
