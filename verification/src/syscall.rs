//! The system calls, as functions on the kernel record.
//!
//! Addresses of user programs do not come here: a buffer comes as the list
//! of its pieces, a string as a string, and what a call writes to user
//! memory is returned for the caller to write it. A call that ends in a
//! context switch returns the switch to make.
use crate::block_dev::BlockDevice;
use crate::efs::EasyFileSystem;
use crate::fs::{try_open_file, OSInode, OpenFlags};
use crate::kernel::{ContextRef, File, Kernel, OpenFile, Switch};
use crate::lifecycle::{ExitActions, WaitOutcome};
use crate::mm::UserBuffer;
use crate::pipe::{Pipe, PipeIo, PipeRingBuffer};
use crate::sync::{LockOutcome, Mutex, MutexBlocking, MutexSpin};
use crate::task::action::SignalAction;
use crate::task::process::{spec_free_fd, ExecLayout, MutexKind, ProcessControlBlock};
use crate::task::signal::{SignalState, TrapContext};
use crate::task::task::{TaskControlBlock, TaskRef, TaskStatus};
use crate::timer::get_time_ms;
use vstd::prelude::*;
use vstd::string::StringSliceAdditionalSpecFns;

verus! {

/// The id of the process of the running thread.
pub fn sys_getpid(kernel: &Kernel) -> (pid: isize)
    requires
        kernel.spec_running(),
        kernel.processor.current->0.pid <= isize::MAX,
    ensures
        pid == kernel.processor.current->0.pid,
{
    kernel.current_process() as isize
}

/// The number of the running thread in its process.
pub fn sys_gettid(kernel: &Kernel) -> (tid: isize)
    requires
        kernel.spec_running(),
        kernel.processor.current->0.tid <= isize::MAX,
    ensures
        tid == kernel.processor.current->0.tid,
{
    match kernel.current_task() {
        Some(task) => task.tid as isize,
        None => -1,
    }
}

/// Gives up the processor: the running thread goes to the end of the ready
/// queue. Returns 0 and the switch to make.
pub fn sys_yield(kernel: &mut Kernel) -> (r: (isize, Switch))
    requires
        old(kernel).wf(),
        old(kernel).spec_running(),
    ensures
        final(kernel).wf(),
        r.0 == 0,
        r.1 == (Switch {
            from: ContextRef::Task(old(kernel).processor.current->0),
            to: ContextRef::Idle,
        }),
        final(kernel).processor.current is None,
        final(kernel).task_manager@ == old(kernel).task_manager@.push(
            old(kernel).processor.current->0,
        ),
        final(kernel).spec_task_exists(old(kernel).processor.current->0),
        final(kernel).spec_task(old(kernel).processor.current->0).task_status == TaskStatus::Ready,
{
    let switch = kernel.suspend_current_and_run_next();
    (0, switch)
}

/// The time in milliseconds when the clock is at `ticks`.
pub fn sys_get_time(ticks: usize) -> (ms: isize)
    ensures
        ms == ticks / 12500,
{
    get_time_ms(ticks) as isize
}

/// Sends signal `signum` to process `pid`. Returns 0, or -1 if there is no
/// such process any more, if `signum` is not the number of a signal, or if
/// the signal is pending already.
pub fn sys_kill(kernel: &mut Kernel, pid: usize, signum: i32) -> (r: isize)
    requires
        old(kernel).wf(),
    ensures
        final(kernel).wf(),
        r == 0 || r == -1,
        r == 0 <==> old(kernel).spec_registered(pid as int) && 0 <= signum <= 31 && !old(kernel).spec_process(pid as int).signals.signals.spec_has(signum as int),
        r == -1 ==> *final(kernel) == *old(kernel),
        r == 0 ==> {
            &&& final(kernel).spec_live(pid as int)
            &&& final(kernel).spec_process(pid as int) == (ProcessControlBlock {
                signals: final(kernel).spec_process(pid as int).signals,
                ..old(kernel).spec_process(pid as int)
            })
            &&& final(kernel).spec_process(pid as int).signals == (SignalState {
                signals: final(kernel).spec_process(pid as int).signals.signals,
                ..old(kernel).spec_process(pid as int).signals
            })
            &&& forall|j: int|
                final(kernel).spec_process(pid as int).signals.signals.spec_has(j) == (j == signum
                    || old(kernel).spec_process(pid as int).signals.signals.spec_has(j))
            &&& final(kernel).processes@ == old(kernel).processes@.update(
                pid as int,
                final(kernel).processes@[pid as int],
            )
            &&& *final(kernel) == (Kernel { processes: final(kernel).processes, ..*old(kernel) })
        },
{
    if !kernel.get_pcb_by_pid(pid) {
        return -1;
    }
    if signum < 0 || signum > 31 {
        return -1;
    }
    let pending: bool = match &kernel.processes[pid] {
        Some(process) => process.signals.signals.has(signum as usize),
        None => true,
    };
    if pending {
        return -1;
    }
    let ghost before = *kernel;
    let mut process = kernel.take_process(pid);
    let sent: bool = process.signals.kill(signum);
    kernel.put_process(process, Ghost(before));
    0
}

/// Installs `action` as the handler of signal `signum` for the process of
/// the running thread. Returns 0 and the handler that was replaced, which
/// goes to the user program; or -1 for SIGKILL, SIGSTOP and numbers that
/// are not those of signals.
pub fn sys_sigaction(kernel: &mut Kernel, signum: i32, action: SignalAction) -> (r: (
    isize,
    Option<SignalAction>,
))
    requires
        old(kernel).wf(),
        old(kernel).spec_running(),
    ensures
        final(kernel).wf(),
        (signum < 0 || signum > 31 || signum == 9 || signum == 19) ==> r.0 == -1 && r.1 is None
            && *final(kernel) == *old(kernel),
        !(signum < 0 || signum > 31 || signum == 9 || signum == 19) ==> {
            let pid = old(kernel).processor.current->0.pid as int;
            &&& r.0 == 0
            &&& r.1 == Some(old(kernel).spec_process(pid).signals.signal_actions.table[signum as int])
            &&& final(kernel).spec_live(pid)
            &&& final(kernel).spec_process(pid) == (ProcessControlBlock {
                signals: final(kernel).spec_process(pid).signals,
                ..old(kernel).spec_process(pid)
            })
            &&& final(kernel).spec_process(pid).signals == (SignalState {
                signal_actions: final(kernel).spec_process(pid).signals.signal_actions,
                ..old(kernel).spec_process(pid).signals
            })
            &&& forall|i: int|
                0 <= i < 32 ==> final(kernel).spec_process(pid).signals.signal_actions.table[i]
                    == (if i == signum {
                    action
                } else {
                    old(kernel).spec_process(pid).signals.signal_actions.table[i]
                })
            &&& *final(kernel) == (Kernel { processes: final(kernel).processes, ..*old(kernel) })
            &&& final(kernel).processes@ == old(kernel).processes@.update(
                pid,
                final(kernel).processes@[pid],
            )
        },
{
    if signum < 0 || signum > 31 || signum == 9 || signum == 19 {
        return (-1, None);
    }
    let pid: usize = kernel.current_process();
    let ghost before = *kernel;
    let mut process = kernel.take_process(pid);
    let old_action = process.signals.sigaction(signum, action);
    kernel.put_process(process, Ghost(before));
    match old_action {
        Some(old_action) => (0, Some(old_action)),
        None => (-1, None),
    }
}

/// Makes `mask` the set of masked signals of the process of the running
/// thread, and returns the set that it replaces.
pub fn sys_sigprocmask(kernel: &mut Kernel, mask: u32) -> (old_mask: isize)
    requires
        old(kernel).wf(),
        old(kernel).spec_running(),
    ensures
        final(kernel).wf(),
        old(kernel).spec_process(
            old(kernel).processor.current->0.pid as int,
        ).signals.signal_mask.bits <= isize::MAX ==> old_mask == old(kernel).spec_process(
            old(kernel).processor.current->0.pid as int,
        ).signals.signal_mask.bits,
        final(kernel).spec_live(old(kernel).processor.current->0.pid as int),
        final(kernel).spec_process(old(kernel).processor.current->0.pid as int)
            == (ProcessControlBlock {
            signals: SignalState {
                signal_mask: crate::task::signal::SignalFlags { bits: mask },
                ..old(kernel).spec_process(old(kernel).processor.current->0.pid as int).signals
            },
            ..old(kernel).spec_process(old(kernel).processor.current->0.pid as int)
        }),
        *final(kernel) == (Kernel { processes: final(kernel).processes, ..*old(kernel) }),
        final(kernel).processes@ == old(kernel).processes@.update(
            old(kernel).processor.current->0.pid as int,
            final(kernel).processes@[old(kernel).processor.current->0.pid as int],
        ),
{
    let pid: usize = kernel.current_process();
    let ghost before = *kernel;
    let mut process = kernel.take_process(pid);
    let old_mask: u32 = process.signals.sigprocmask(mask);
    kernel.put_process(process, Ghost(before));
    #[verifier::truncate]
    (old_mask as isize)
}

/// Ends the signal handler that runs in the process of the running thread.
/// Returns 0 and the trap context to resume with, the one that was saved
/// when the handler was entered; or -1 if no handler runs.
pub fn sys_sigreturn(kernel: &mut Kernel) -> (r: (isize, Option<TrapContext>))
    requires
        old(kernel).wf(),
        old(kernel).spec_running(),
    ensures
        final(kernel).wf(),
        r.1 == old(kernel).spec_process(
            old(kernel).processor.current->0.pid as int,
        ).signals.trap_ctx_backup,
        r.0 == (if r.1 is Some {
            0isize
        } else {
            -1isize
        }),
        r.1 is None ==> *final(kernel) == *old(kernel),
        r.1 is Some ==> {
            let pid = old(kernel).processor.current->0.pid as int;
            &&& final(kernel).spec_live(pid)
            &&& final(kernel).spec_process(pid) == (ProcessControlBlock {
                signals: SignalState {
                    handling_sig: -1isize,
                    trap_ctx_backup: None,
                    ..old(kernel).spec_process(pid).signals
                },
                ..old(kernel).spec_process(pid)
            })
            &&& *final(kernel) == (Kernel { processes: final(kernel).processes, ..*old(kernel) })
            &&& final(kernel).processes@ == old(kernel).processes@.update(
                pid,
                final(kernel).processes@[pid],
            )
        },
{
    let pid: usize = kernel.current_process();
    let saved: bool = match &kernel.processes[pid] {
        Some(process) => process.signals.trap_ctx_backup.is_some(),
        None => false,
    };
    if !saved {
        return (-1, None);
    }
    let ghost before = *kernel;
    let mut process = kernel.take_process(pid);
    let restored = process.signals.sigreturn();
    kernel.put_process(process, Ghost(before));
    match restored {
        Some(cx) => (0, Some(cx)),
        None => (-1, None),
    }
}

/// Waits for a child of the process of the running thread: for any child
/// if `pid` is -1, else for the child with id `pid`. Returns -1 if there
/// is no such child and -2 if the children in question still run. If one
/// has exited, the first of them leaves the system; its id is returned,
/// and its exit code, which goes to the user program.
pub fn sys_waitpid(kernel: &mut Kernel, pid: isize) -> (r: (isize, Option<i32>))
    requires
        old(kernel).wf(),
        old(kernel).spec_running(),
    ensures
        final(kernel).wf(),
        ({
            let parent = old(kernel).processor.current->0.pid;
            let children = old(kernel).spec_process(parent as int).children@;
            let any = crate::lifecycle::spec_first_child(*old(kernel), children, pid, false, 0);
            let zombie = crate::lifecycle::spec_first_child(*old(kernel), children, pid, true, 0);
            &&& any == children.len() ==> r == (-1isize, None::<i32>)
            &&& any < children.len() && zombie == children.len() ==> r == (-2isize, None::<i32>)
            &&& zombie == children.len() ==> final(kernel).processes == old(kernel).processes
            &&& zombie < children.len() ==> {
                &&& 0 <= zombie
                &&& r.0 == children[zombie] as isize
                &&& r.1 == Some(old(kernel).spec_process(children[zombie] as int).exit_code)
                &&& !final(kernel).spec_live(children[zombie] as int)
                &&& final(kernel).spec_live(parent as int)
                &&& final(kernel).spec_process(parent as int).children@ == children.remove(zombie)
            }
        }),
{
    match kernel.waitpid(pid) {
        WaitOutcome::NoChild => (-1, None),
        WaitOutcome::Running => (-2, None),
        WaitOutcome::Exited(child, exit_code) => (child as isize, Some(exit_code)),
    }
}

/// Ends the running thread with `exit_code`, and with it its process if
/// it is the main thread.
pub fn sys_exit(kernel: &mut Kernel, exit_code: i32) -> (actions: ExitActions)
    requires
        old(kernel).wf(),
        old(kernel).spec_running(),
        old(kernel).spec_task(old(kernel).processor.current->0).res is Some,
        old(kernel).processor.current->0.tid == 0 ==> old(kernel).initproc is Some && old(kernel).initproc->0 != old(kernel).processor.current->0.pid,
    ensures
        final(kernel).wf(),
        actions.pid == old(kernel).processor.current->0.pid,
        actions.switch == (Switch { from: ContextRef::Scratch, to: ContextRef::Idle }),
        actions.recycle_data_pages == (old(kernel).processor.current->0.tid == 0),
        final(kernel).spec_live(actions.pid as int),
        final(kernel).spec_process(actions.pid as int).tasks@[old(kernel).processor.current->0.tid as int] == Some(
            TaskControlBlock {
                exit_code: Some(exit_code),
                res: None,
                ..old(kernel).spec_task(old(kernel).processor.current->0)
            },
        ),
        old(kernel).processor.current->0.tid == 0 ==> final(kernel).spec_process(
            actions.pid as int,
        ).is_zombie && final(kernel).spec_process(actions.pid as int).exit_code == exit_code,
{
    kernel.exit_current_and_run_next(exit_code)
}

/// Looks whether thread `tid` of the process of the running thread has
/// exited: its exit code if it has, -2 if it still runs, -1 if it is the
/// running thread or no thread.
pub fn sys_waittid(kernel: &mut Kernel, tid: usize) -> (code: isize)
    requires
        old(kernel).wf(),
        old(kernel).spec_running(),
    ensures
        final(kernel).wf(),
        ({
            let current = old(kernel).processor.current->0;
            let before = old(kernel).spec_process(current.pid as int);
            let waited = before.tasks@[tid as int];
            &&& (tid == current.tid || tid >= before.tasks@.len() || waited is None) ==> code == -1
                && *final(kernel) == *old(kernel)
            &&& tid != current.tid && tid < before.tasks@.len() && waited is Some
                && waited->0.exit_code is None ==> code == -2 && *final(kernel) == *old(kernel)
            &&& tid != current.tid && tid < before.tasks@.len() && waited is Some
                && waited->0.exit_code is Some ==> code == waited->0.exit_code->0 && final(kernel).spec_process(current.pid as int).tasks@ == before.tasks@.update(tid as int, None)
        }),
{
    kernel.waittid(tid)
}

/// How a read or a write through a file descriptor ended.
#[derive(Copy, Clone, PartialEq, Eq, Structural, Debug)]
pub enum SysIo {
    /// The call is over and returns this value: the number of bytes moved,
    /// or -1.
    Done(isize),
    /// The pipe was empty, or full: so many bytes were moved so far. Make
    /// the switch, and call again with this count when the thread runs
    /// again.
    Suspend(usize, Switch),
    /// The descriptor names the console: the caller reads from it or
    /// writes to it.
    Console,
}

/// How a lock of a mutex ended.
#[derive(Copy, Clone, PartialEq, Eq, Structural, Debug)]
pub enum MutexLock {
    /// The running thread holds the mutex.
    Acquired,
    /// The mutex is held: make the switch, and lock again when the thread
    /// runs again.
    Retry(Switch),
    /// The mutex is held and the thread waits for it: make the switch.
    /// When the thread runs again, it holds the mutex.
    Blocked(Switch),
}

impl MutexKind {
    /// Is the mutex held?
    pub open spec fn spec_locked(&self) -> bool {
        match self {
            MutexKind::Spin(mutex) => mutex.spec_locked(),
            MutexKind::Blocking(mutex) => mutex.spec_locked(),
        }
    }

    /// The threads that wait for the mutex, the one that has waited longest
    /// first.
    pub open spec fn spec_waiters(&self) -> Seq<TaskRef> {
        match self {
            MutexKind::Spin(mutex) => mutex.spec_waiters(),
            MutexKind::Blocking(mutex) => mutex.spec_waiters(),
        }
    }
}

/// The lowest place from `from` on that holds no mutex in `list`, or the
/// length of `list` if there is none.
pub open spec fn spec_free_mutex(list: Seq<Option<MutexKind>>, from: int) -> int
    decreases list.len() - from,
{
    if from >= list.len() {
        list.len() as int
    } else if list[from] is None {
        from
    } else {
        spec_free_mutex(list, from + 1)
    }
}

/// What `spec_free_mutex` finds.
pub proof fn lemma_free_mutex(list: Seq<Option<MutexKind>>, from: int, at: int)
    requires
        0 <= from <= at <= list.len(),
        forall|i: int| from <= i < at ==> list[i] is Some,
        at < list.len() ==> list[at] is None,
    ensures
        spec_free_mutex(list, from) == at,
    decreases at - from,
{
    if from < at {
        lemma_free_mutex(list, from + 1, at);
    }
}

/// Makes a mutex for the process of the running thread, a blocking one or
/// a spinning one, and returns its number: the lowest one that is free.
pub fn sys_mutex_create(kernel: &mut Kernel, blocking: bool) -> (id: isize)
    requires
        old(kernel).wf(),
        old(kernel).spec_running(),
        old(kernel).spec_process(old(kernel).processor.current->0.pid as int).mutex_list@.len()
            < isize::MAX,
    ensures
        final(kernel).wf(),
        ({
            let pid = old(kernel).processor.current->0.pid as int;
            let before = old(kernel).spec_process(pid);
            let after = final(kernel).spec_process(pid);
            &&& id == spec_free_mutex(before.mutex_list@, 0)
            &&& final(kernel).spec_live(pid)
            &&& after == (ProcessControlBlock { mutex_list: after.mutex_list, ..before })
            &&& after.mutex_list@.len() == (if id < before.mutex_list@.len() {
                before.mutex_list@.len() as int
            } else {
                before.mutex_list@.len() as int + 1
            })
            &&& forall|i: int|
                0 <= i < before.mutex_list@.len() && i != id ==> after.mutex_list@[i]
                    == before.mutex_list@[i]
            &&& after.mutex_list@[id as int] is Some
            &&& !after.mutex_list@[id as int]->0.spec_locked()
            &&& after.mutex_list@[id as int]->0.spec_waiters() == Seq::<TaskRef>::empty()
            &&& (after.mutex_list@[id as int]->0 is Blocking) == blocking
            &&& *final(kernel) == (Kernel { processes: final(kernel).processes, ..*old(kernel) })
            &&& final(kernel).processes@ == old(kernel).processes@.update(
                pid,
                final(kernel).processes@[pid],
            )
        }),
{
    let pid: usize = kernel.current_process();
    let ghost before = *kernel;
    let mut process = kernel.take_process(pid);
    let mutex: MutexKind = if blocking {
        MutexKind::Blocking(MutexBlocking::new())
    } else {
        MutexKind::Spin(MutexSpin::new())
    };
    let n: usize = process.mutex_list.len();
    let mut id: usize = 0;
    while id < n && process.mutex_list[id].is_some()
        invariant
            id <= n,
            n == process.mutex_list@.len(),
            forall|i: int| 0 <= i < id ==> process.mutex_list@[i] is Some,
        decreases n - id,
    {
        id += 1;
    }
    proof {
        lemma_free_mutex(process.mutex_list@, 0, id as int);
    }
    if id < n {
        process.mutex_list[id] = Some(mutex);
    } else {
        process.mutex_list.push(Some(mutex));
    }
    kernel.put_process(process, Ghost(before));
    id as isize
}

/// Locks mutex `mutex_id` of the process of the running thread for the
/// running thread. If the mutex is held, the thread gives up the
/// processor: with a spinning mutex it stays ready and has to lock again;
/// with a blocking mutex it joins the waiters and blocks.
pub fn sys_mutex_lock(kernel: &mut Kernel, mutex_id: usize) -> (r: MutexLock)
    requires
        old(kernel).wf(),
        old(kernel).spec_running(),
        mutex_id < old(kernel).spec_process(
            old(kernel).processor.current->0.pid as int,
        ).mutex_list@.len(),
        old(kernel).spec_process(
            old(kernel).processor.current->0.pid as int,
        ).mutex_list@[mutex_id as int] is Some,
    ensures
        final(kernel).wf(),
        ({
            let task = old(kernel).processor.current->0;
            let before = old(kernel).spec_process(task.pid as int).mutex_list@[mutex_id as int]->0;
            let after = final(kernel).spec_process(task.pid as int).mutex_list@[mutex_id as int];
            &&& final(kernel).spec_live(task.pid as int)
            &&& after is Some
            &&& after->0.spec_locked()
            &&& !before.spec_locked() ==> r == MutexLock::Acquired && after->0.spec_waiters()
                == before.spec_waiters() && final(kernel).processor == old(kernel).processor
                && final(kernel).task_manager == old(kernel).task_manager
            &&& before.spec_locked() && before is Spin ==> r == MutexLock::Retry(
                Switch { from: ContextRef::Task(task), to: ContextRef::Idle },
            ) && final(kernel).task_manager@ == old(kernel).task_manager@.push(task) && final(kernel).spec_task(task).task_status == TaskStatus::Ready
            &&& before.spec_locked() && before is Blocking ==> r == MutexLock::Blocked(
                Switch { from: ContextRef::Task(task), to: ContextRef::Idle },
            ) && after->0.spec_waiters() == before.spec_waiters().push(task) && final(kernel).task_manager == old(kernel).task_manager && final(kernel).spec_task(
                task,
            ).task_status == TaskStatus::Blocking
        }),
{
    let task: TaskRef = match kernel.current_task() {
        Some(task) => task,
        None => vstd::pervasive::unreached(),
    };
    let ghost before = *kernel;
    let mut process = kernel.take_process(task.pid);
    let mut mutex: MutexKind = match process.mutex_list[mutex_id].take() {
        Some(mutex) => mutex,
        None => vstd::pervasive::unreached(),
    };
    let outcome: LockOutcome = match &mut mutex {
        MutexKind::Spin(spin) => spin.lock(task),
        MutexKind::Blocking(blocking) => blocking.lock(task),
    };
    process.mutex_list[mutex_id] = Some(mutex);
    kernel.put_process(process, Ghost(before));
    match outcome {
        LockOutcome::Acquired => MutexLock::Acquired,
        LockOutcome::Retry => MutexLock::Retry(kernel.suspend_current_and_run_next()),
        LockOutcome::Blocked => MutexLock::Blocked(kernel.block_current_and_run_next()),
    }
}

/// Unlocks mutex `mutex_id` of the process of the running thread. With a
/// blocking mutex the thread that has waited longest, if there is one,
/// gets the mutex and becomes ready. Returns 0, or -1 if the mutex is not
/// held.
pub fn sys_mutex_unlock(kernel: &mut Kernel, mutex_id: usize) -> (r: isize)
    requires
        old(kernel).wf(),
        old(kernel).spec_running(),
        mutex_id < old(kernel).spec_process(
            old(kernel).processor.current->0.pid as int,
        ).mutex_list@.len(),
        old(kernel).spec_process(
            old(kernel).processor.current->0.pid as int,
        ).mutex_list@[mutex_id as int] is Some,
    ensures
        final(kernel).wf(),
        final(kernel).processor == old(kernel).processor,
        ({
            let task = old(kernel).processor.current->0;
            let before = old(kernel).spec_process(task.pid as int).mutex_list@[mutex_id as int]->0;
            let after = final(kernel).spec_process(task.pid as int).mutex_list@[mutex_id as int];
            let waiters = before.spec_waiters();
            &&& final(kernel).spec_live(task.pid as int)
            &&& after is Some
            &&& !before.spec_locked() ==> r == -1 && after->0.spec_locked() == false
                && after->0.spec_waiters() == waiters && final(kernel).task_manager == old(kernel).task_manager
            &&& before.spec_locked() ==> r == 0
            &&& before.spec_locked() && waiters.len() == 0 ==> !after->0.spec_locked()
                && after->0.spec_waiters() == waiters && final(kernel).task_manager == old(kernel).task_manager
            &&& before.spec_locked() && waiters.len() > 0 ==> after->0.spec_locked()
                && after->0.spec_waiters() == waiters.drop_first() && final(kernel).task_manager@
                == old(kernel).task_manager@.push(waiters[0])
        }),
{
    let task: TaskRef = match kernel.current_task() {
        Some(task) => task,
        None => vstd::pervasive::unreached(),
    };
    let ghost before = *kernel;
    let mut process = kernel.take_process(task.pid);
    let mut mutex: MutexKind = match process.mutex_list[mutex_id].take() {
        Some(mutex) => mutex,
        None => vstd::pervasive::unreached(),
    };
    let locked: bool = match &mutex {
        MutexKind::Spin(spin) => spin.is_locked(),
        MutexKind::Blocking(blocking) => blocking.is_locked(),
    };
    let woken: Option<TaskRef> = if locked {
        match &mut mutex {
            MutexKind::Spin(spin) => spin.unlock(),
            MutexKind::Blocking(blocking) => blocking.unlock(),
        }
    } else {
        None
    };
    process.mutex_list[mutex_id] = Some(mutex);
    kernel.put_process(process, Ghost(before));
    match woken {
        Some(waiter) => {
            kernel.add_task(waiter);
        },
        None => {},
    }
    if locked {
        0
    } else {
        -1
    }
}

/// Makes a child of the process of the running thread, as `Kernel::fork`
/// does. Returns the id of the child, which is what the parent gets, and
/// the top of the kernel stack of the thread of the child. The child gets
/// 0: the caller puts it into register 10 of its trap context.
pub fn sys_fork(
    kernel: &mut Kernel,
    memory_set: usize,
    trap_cx_ppn: usize,
    trap_return: usize,
) -> (r: (isize, usize))
    requires
        old(kernel).wf(),
        old(kernel).spec_running(),
        old(kernel).spec_room(),
        old(kernel).pid_allocator.spec_current() < isize::MAX,
        old(kernel).spec_process(old(kernel).processor.current->0.pid as int).tasks@.len() == 1,
        old(kernel).spec_process(old(kernel).processor.current->0.pid as int).tasks@[0] is Some,
        old(kernel).spec_process(old(kernel).processor.current->0.pid as int).tasks@[0]->0.res
            is Some,
    ensures
        final(kernel).wf(),
        r.0 >= 0,
        !old(kernel).spec_live(r.0 as int),
        final(kernel).spec_live(r.0 as int),
        final(kernel).spec_process(r.0 as int).parent == Some(
            old(kernel).processor.current->0.pid,
        ),
        final(kernel).spec_process(r.0 as int).memory_set == memory_set,
        final(kernel).spec_process(r.0 as int).fd_table@ == old(kernel).spec_process(
            old(kernel).processor.current->0.pid as int,
        ).fd_table@,
        final(kernel).spec_process(r.0 as int).tasks@.len() == 1,
        final(kernel).spec_live(old(kernel).processor.current->0.pid as int),
        final(kernel).spec_process(old(kernel).processor.current->0.pid as int).children@ == old(kernel).spec_process(old(kernel).processor.current->0.pid as int).children@.push(r.0 as usize),
        final(kernel).task_manager@ == old(kernel).task_manager@.push(
            TaskRef { pid: r.0 as usize, tid: 0 },
        ),
        final(kernel).processor == old(kernel).processor,
        final(kernel).files@ == crate::lifecycle::spec_retain_all(
            old(kernel).files@,
            old(kernel).spec_process(old(kernel).processor.current->0.pid as int).fd_table@,
            old(kernel).spec_process(
                old(kernel).processor.current->0.pid as int,
            ).fd_table@.len() as int,
        ),
{
    let (child, kstack_top) = kernel.fork(memory_set, trap_cx_ppn, trap_return);
    proof {
        assert(child < final(kernel).processes@.len());
        assert(old(kernel).processes@.len() <= old(kernel).pid_allocator.spec_current());
        assert(!old(kernel).pid_allocator.spec_allocated(child) || true);
    }
    (child as isize, kstack_top)
}

/// Adds a thread to the process of the running thread, as
/// `Kernel::thread_create` does. Returns the id of the thread and the top
/// of its kernel stack.
pub fn sys_thread_create(kernel: &mut Kernel, trap_cx_ppn: usize, trap_return: usize) -> (r: (
    isize,
    usize,
))
    requires
        old(kernel).wf(),
        old(kernel).spec_running(),
        old(kernel).spec_room(),
        old(kernel).spec_thread_room(),
    ensures
        final(kernel).wf(),
        0 <= r.0,
        final(kernel).processor == old(kernel).processor,
        final(kernel).task_manager@ == old(kernel).task_manager@.push(
            TaskRef { pid: old(kernel).processor.current->0.pid, tid: r.0 as usize },
        ),
        final(kernel).spec_task_exists(
            TaskRef { pid: old(kernel).processor.current->0.pid, tid: r.0 as usize },
        ),
        !old(kernel).spec_process(
            old(kernel).processor.current->0.pid as int,
        ).task_res_allocator.spec_allocated(r.0 as usize),
        final(kernel).spec_task(
            TaskRef { pid: old(kernel).processor.current->0.pid, tid: r.0 as usize },
        ).task_status == TaskStatus::Ready,
        final(kernel).spec_task(
            TaskRef { pid: old(kernel).processor.current->0.pid, tid: r.0 as usize },
        ).trap_cx_ppn == trap_cx_ppn,
{
    let (tid, kstack_top) = kernel.thread_create(trap_cx_ppn, trap_return);
    (tid as isize, kstack_top)
}

/// Reads the program called `path` from the file system, for `exec`.
/// `None` if there is no such file.
pub fn load_program<D: BlockDevice>(fs: &mut EasyFileSystem<D>, path: &str) -> (data: Option<
    Vec<u8>,
>)
    requires
        old(fs).inv(),
    ensures
        final(fs).inv(),
        final(fs)@ == old(fs)@,
        crate::vfs::spec_same_mount(final(fs), old(fs)),
        match data {
            Some(bytes) => crate::efs::spec_find(old(fs)@, path.spec_bytes()) is Some && bytes@
                == crate::efs::spec_file(
                old(fs).spec_geometry(),
                old(fs)@,
                crate::efs::spec_find(old(fs)@, path.spec_bytes())->0,
            ),
            None => crate::efs::spec_find(old(fs)@, path.spec_bytes()) is None,
        },
{
    let ghost g = fs.spec_geometry();
    let ghost disk = fs@;
    proof {
        assert(0u32 & 512u32 != 512u32) by (bit_vector);
        assert(0u32 & 1024u32 != 1024u32) by (bit_vector);
    }
    match crate::fs::open_file(fs, path, OpenFlags { bits: 0 }) {
        Some(mut file) => {
            proof {
                let x = file.inode.spec_ino(g);
                assert(crate::efs::spec_inode_ok(g, fs@, x));
            }
            let bytes = file.read_all(fs);
            proof {
                let content = crate::efs::spec_file(g, disk, file.inode.spec_ino(g));
                assert(bytes@ =~= content);
            }
            Some(bytes)
        },
        None => None,
    }
}

/// Replaces the program of the process of the running thread, which must
/// have one thread only: sets up the process for the program as
/// `ProcessControlBlock::exec` does. Returns the number of arguments, what
/// goes on the user stack and where, and the trap context of the thread.
pub fn sys_exec(
    kernel: &mut Kernel,
    memory_set: usize,
    ustack_base: usize,
    entry_point: usize,
    trap_cx_ppn: usize,
    args: &Vec<String>,
    kernel_satp: usize,
    trap_handler: usize,
    sstatus: usize,
) -> (r: (isize, ExecLayout, TrapContext))
    requires
        old(kernel).wf(),
        old(kernel).spec_running(),
        args@.len() < isize::MAX,
        ({
            let process = old(kernel).spec_process(old(kernel).processor.current->0.pid as int);
            &&& process.tasks@.len() == 1
            &&& process.tasks@[0] is Some
            &&& process.tasks@[0]->0.res is Some
            &&& crate::task::id::spec_kernel_stack_position(
                process.tasks@[0]->0.kstack.0 as int,
            ).0 >= 0
            &&& ustack_base + crate::config::USER_STACK_SIZE <= usize::MAX
            &&& (args@.len() + 1) * 8 <= ustack_base + crate::config::USER_STACK_SIZE
            &&& crate::task::process::spec_arg_address(
                ustack_base + crate::config::USER_STACK_SIZE - (args@.len() + 1) * 8,
                args@,
                args@.len() - 1,
            ) >= 0
        }),
    ensures
        final(kernel).wf(),
        r.0 == args@.len(),
        ({
            let pid = old(kernel).processor.current->0.pid as int;
            let before = old(kernel).spec_process(pid);
            let after = final(kernel).spec_process(pid);
            &&& final(kernel).spec_live(pid)
            &&& after == (ProcessControlBlock { memory_set, tasks: after.tasks, ..before })
            &&& after.tasks@.len() == 1
            &&& after.tasks@[0] == Some(
                TaskControlBlock {
                    res: Some(
                        crate::task::id::TaskUserRes { ustack_base, ..before.tasks@[0]->0.res->0 },
                    ),
                    trap_cx_ppn,
                    ..before.tasks@[0]->0
                },
            )
            &&& r.1.argv_base == ustack_base + crate::config::USER_STACK_SIZE - (args@.len() + 1)
                * 8
            &&& r.1.argv@.len() == args@.len() + 1
            &&& r.1.argv@[args@.len() as int] == 0
            &&& forall|i: int|
                0 <= i < args@.len() ==> r.1.argv@[i] == crate::task::process::spec_arg_address(
                    r.1.argv_base as int,
                    args@,
                    i,
                )
            &&& r.1.user_sp == crate::task::process::spec_arg_address(
                r.1.argv_base as int,
                args@,
                args@.len() - 1,
            ) - crate::task::process::spec_arg_address(
                r.1.argv_base as int,
                args@,
                args@.len() - 1,
            ) % 8
            &&& r.2.sepc == entry_point
            &&& r.2.kernel_satp == kernel_satp
            &&& r.2.kernel_sp == crate::task::id::spec_kernel_stack_position(
                before.tasks@[0]->0.kstack.0 as int,
            ).1
            &&& r.2.trap_handler == trap_handler
            &&& r.2.sstatus == sstatus
            &&& forall|i: int|
                0 <= i < 32 ==> r.2.x[i] == (if i == 2 {
                    r.1.user_sp
                } else if i == 10 {
                    args@.len() as usize
                } else if i == 11 {
                    r.1.argv_base
                } else {
                    0usize
                })
            &&& *final(kernel) == (Kernel { processes: final(kernel).processes, ..*old(kernel) })
        }),
{
    let pid: usize = kernel.current_process();
    let ghost before = *kernel;
    let mut process = kernel.take_process(pid);
    proof {
        assert(process.wf());
        assert(process.tasks@[0]->0.res->0.tid == 0);
    }
    let kernel_sp: usize = process.get_task(0).kstack.get_top();
    let (layout, trap_cx) = process.exec(
        memory_set,
        ustack_base,
        entry_point,
        trap_cx_ppn,
        args,
        kernel_satp,
        kernel_sp,
        trap_handler,
        sstatus,
    );
    proof {
        let old_process = before.spec_process(pid as int);
        assert forall|k: int|
            0 <= k < process.tasks@.len() && (#[trigger] process.tasks@[k]) is Some implies {
            &&& process.tasks@[k]->0.process == process.pid.0
            &&& process.tasks@[k]->0.res is Some ==> {
                &&& process.tasks@[k]->0.res->0.wf()
                &&& process.tasks@[k]->0.res->0.tid == k
                &&& process.tasks@[k]->0.res->0.process == process.pid.0
                &&& process.task_res_allocator.spec_allocated(k as usize)
            }
        } by {
            assert(old_process.tasks@[0] is Some);
        }
    }
    kernel.put_process(process, Ghost(before));
    (args.len() as isize, layout, trap_cx)
}

/// The open file that file descriptor `fd` of process `pid` names.
pub open spec fn spec_fd_file(kernel: Kernel, pid: int, fd: int) -> Option<usize> {
    if 0 <= fd < kernel.spec_process(pid).fd_table@.len() {
        kernel.spec_process(pid).fd_table@[fd]
    } else {
        None
    }
}

/// Gives descriptor `fd` of process `pid` to the open file `file`, if
/// there is such a descriptor.
fn set_fd(kernel: &mut Kernel, pid: usize, fd: usize, file: Option<usize>)
    requires
        old(kernel).wf(),
        old(kernel).spec_live(pid as int),
        fd < old(kernel).spec_process(pid as int).fd_table@.len(),
    ensures
        final(kernel).wf(),
        final(kernel).spec_live(pid as int),
        final(kernel).spec_process(pid as int) == (ProcessControlBlock {
            fd_table: final(kernel).spec_process(pid as int).fd_table,
            ..old(kernel).spec_process(pid as int)
        }),
        final(kernel).spec_process(pid as int).fd_table@ == old(kernel).spec_process(
            pid as int,
        ).fd_table@.update(fd as int, file),
        *final(kernel) == (Kernel { processes: final(kernel).processes, ..*old(kernel) }),
        final(kernel).processes@ == old(kernel).processes@.update(
            pid as int,
            final(kernel).processes@[pid as int],
        ),
{
    let ghost before = *kernel;
    let mut process = kernel.take_process(pid);
    process.fd_table[fd] = file;
    kernel.put_process(process, Ghost(before));
}

/// Finds the lowest free descriptor of process `pid`, as
/// `ProcessControlBlock::alloc_fd` does.
fn alloc_fd(kernel: &mut Kernel, pid: usize) -> (fd: usize)
    requires
        old(kernel).wf(),
        old(kernel).spec_live(pid as int),
    ensures
        final(kernel).wf(),
        final(kernel).spec_live(pid as int),
        fd == spec_free_fd(old(kernel).spec_process(pid as int).fd_table@, 0),
        fd < final(kernel).spec_process(pid as int).fd_table@.len(),
        final(kernel).spec_process(pid as int) == (ProcessControlBlock {
            fd_table: final(kernel).spec_process(pid as int).fd_table,
            ..old(kernel).spec_process(pid as int)
        }),
        final(kernel).spec_process(pid as int).fd_table@ == (if fd < old(kernel).spec_process(
            pid as int,
        ).fd_table@.len() {
            old(kernel).spec_process(pid as int).fd_table@
        } else {
            old(kernel).spec_process(pid as int).fd_table@.push(None)
        }),
        *final(kernel) == (Kernel { processes: final(kernel).processes, ..*old(kernel) }),
        final(kernel).processes@ == old(kernel).processes@.update(
            pid as int,
            final(kernel).processes@[pid as int],
        ),
{
    let ghost before = *kernel;
    let mut process = kernel.take_process(pid);
    let fd: usize = process.alloc_fd();
    kernel.put_process(process, Ghost(before));
    fd
}

/// Opens the file called `path` for the process of the running thread, as
/// `try_open_file` does, and returns the file descriptor: the lowest one
/// that is free. Returns -1 if `flags` has unknown bits or if the file
/// cannot be opened.
pub fn sys_open<D: BlockDevice>(
    kernel: &mut Kernel,
    fs: &mut EasyFileSystem<D>,
    path: &str,
    flags: u32,
) -> (fd: isize)
    requires
        old(kernel).wf(),
        old(kernel).spec_running(),
        old(fs).inv(),
        old(kernel).spec_process(old(kernel).processor.current->0.pid as int).fd_table@.len()
            < isize::MAX,
    ensures
        final(kernel).wf(),
        final(fs).inv(),
        final(kernel).processor == old(kernel).processor,
        final(kernel).task_manager == old(kernel).task_manager,
        final(kernel).pipes == old(kernel).pipes,
        fd == -1 <==> flags & !crate::fs::OPEN_FLAGS_ALL != 0 || (crate::efs::spec_find(
            old(fs)@,
            path.spec_bytes(),
        ) is None && !(flags & crate::fs::CREATE == crate::fs::CREATE
            && crate::fs::spec_can_create(old(fs), path.spec_bytes()))),
        fd == -1 ==> final(fs)@ == old(fs)@ && final(kernel).processes == old(kernel).processes
            && final(kernel).files == old(kernel).files,
        fd != -1 ==> {
            let pid = old(kernel).processor.current->0.pid as int;
            &&& fd == spec_free_fd(old(kernel).spec_process(pid).fd_table@, 0)
            &&& final(kernel).files@.len() == old(kernel).files@.len() + 1
            &&& final(kernel).files@.subrange(0, old(kernel).files@.len() as int) == old(kernel).files@
            &&& final(kernel).files@.last().handles == 1
            &&& final(kernel).files@.last().file is Inode
            &&& final(kernel).files@.last().file->Inode_0.offset == 0
            &&& final(kernel).files@.last().file->Inode_0.inode.spec_live(final(fs))
            &&& spec_fd_file(*final(kernel), pid, fd as int) == Some(
                old(kernel).files@.len() as usize,
            )
            &&& forall|other: int|
                0 <= other < old(kernel).spec_process(pid).fd_table@.len() && other != fd
                    ==> spec_fd_file(*final(kernel), pid, other) == spec_fd_file(
                    *old(kernel),
                    pid,
                    other,
                )
        },
{
    let open_flags: OpenFlags = match OpenFlags::from_bits(flags) {
        Some(open_flags) => open_flags,
        None => {
            return -1;
        },
    };
    let opened: OSInode = match try_open_file(fs, path, open_flags) {
        Some(opened) => opened,
        None => {
            return -1;
        },
    };
    let pid: usize = kernel.current_process();
    let file: usize = kernel.files.len();
    let ghost before = *kernel;
    kernel.files.push(OpenFile { file: File::Inode(opened), handles: 1 });
    proof {
        kernel.lemma_wf_frame(before);
        assert(kernel.files@.subrange(0, before.files@.len() as int) =~= before.files@);
    }
    let fd: usize = alloc_fd(kernel, pid);
    set_fd(kernel, pid, fd, Some(file));
    fd as isize
}

/// Closes file descriptor `fd` of the process of the running thread.
/// Returns 0, or -1 if the descriptor names no open file.
pub fn sys_close(kernel: &mut Kernel, fd: usize) -> (r: isize)
    requires
        old(kernel).wf(),
        old(kernel).spec_running(),
    ensures
        final(kernel).wf(),
        final(kernel).processor == old(kernel).processor,
        final(kernel).task_manager == old(kernel).task_manager,
        final(kernel).pipes == old(kernel).pipes,
        ({
            let pid = old(kernel).processor.current->0.pid as int;
            let file = spec_fd_file(*old(kernel), pid, fd as int);
            &&& file is None ==> r == -1 && *final(kernel) == *old(kernel)
            &&& file is Some ==> {
                &&& r == 0
                &&& final(kernel).spec_live(pid)
                &&& final(kernel).spec_process(pid).fd_table@ == old(kernel).spec_process(
                    pid,
                ).fd_table@.update(fd as int, None)
                &&& final(kernel).files@ == (if file->0 < old(kernel).files@.len() && old(kernel).files@[file->0 as int].handles > 0 {
                    old(kernel).files@.update(
                        file->0 as int,
                        OpenFile {
                            handles: (old(kernel).files@[file->0 as int].handles - 1) as usize,
                            ..old(kernel).files@[file->0 as int]
                        },
                    )
                } else {
                    old(kernel).files@
                })
            }
        }),
{
    let pid: usize = kernel.current_process();
    let file: Option<usize> = match &kernel.processes[pid] {
        Some(process) => if fd < process.fd_table.len() {
            process.fd_table[fd]
        } else {
            None
        },
        None => None,
    };
    match file {
        Some(file) => {
            set_fd(kernel, pid, fd, None);
            kernel.release_file(file);
            0
        },
        None => -1,
    }
}

/// Gives the open file of descriptor `fd` of the process of the running
/// thread one more descriptor, the lowest one that is free, and returns
/// it. Returns -1 if `fd` names no open file.
pub fn sys_dup(kernel: &mut Kernel, fd: usize) -> (r: isize)
    requires
        old(kernel).wf(),
        old(kernel).spec_running(),
        old(kernel).spec_process(old(kernel).processor.current->0.pid as int).fd_table@.len()
            < isize::MAX,
    ensures
        final(kernel).wf(),
        final(kernel).processor == old(kernel).processor,
        final(kernel).task_manager == old(kernel).task_manager,
        final(kernel).pipes == old(kernel).pipes,
        ({
            let pid = old(kernel).processor.current->0.pid as int;
            let file = spec_fd_file(*old(kernel), pid, fd as int);
            &&& file is None ==> r == -1 && *final(kernel) == *old(kernel)
            &&& file is Some ==> {
                &&& r == spec_free_fd(old(kernel).spec_process(pid).fd_table@, 0)
                &&& final(kernel).spec_live(pid)
                &&& spec_fd_file(*final(kernel), pid, r as int) == file
                &&& forall|other: int|
                    0 <= other < old(kernel).spec_process(pid).fd_table@.len() && other != r
                        ==> spec_fd_file(*final(kernel), pid, other) == spec_fd_file(
                        *old(kernel),
                        pid,
                        other,
                    )
                &&& final(kernel).files@ == (if file->0 < old(kernel).files@.len() && old(kernel).files@[file->0 as int].handles < usize::MAX {
                    old(kernel).files@.update(
                        file->0 as int,
                        OpenFile {
                            handles: (old(kernel).files@[file->0 as int].handles + 1) as usize,
                            ..old(kernel).files@[file->0 as int]
                        },
                    )
                } else {
                    old(kernel).files@
                })
            }
        }),
{
    let pid: usize = kernel.current_process();
    let file: Option<usize> = match &kernel.processes[pid] {
        Some(process) => if fd < process.fd_table.len() {
            process.fd_table[fd]
        } else {
            None
        },
        None => None,
    };
    match file {
        Some(file) => {
            let new_fd: usize = alloc_fd(kernel, pid);
            set_fd(kernel, pid, new_fd, Some(file));
            kernel.retain_file(file);
            new_fd as isize
        },
        None => -1,
    }
}

/// Makes a pipe: an empty buffer, and a read end and a write end as open
/// files, each with one descriptor counted. Returns the places of the two
/// ends in the table of open files.
pub fn make_pipe(kernel: &mut Kernel) -> (ends: (usize, usize))
    requires
        old(kernel).wf(),
        old(kernel).files@.len() + 2 <= usize::MAX,
    ensures
        final(kernel).wf(),
        *final(kernel) == (Kernel {
            files: final(kernel).files,
            pipes: final(kernel).pipes,
            ..*old(kernel)
        }),
        ends.0 == old(kernel).files@.len(),
        ends.1 == old(kernel).files@.len() + 1,
        final(kernel).files@ == old(kernel).files@.push(
            OpenFile {
                file: File::Pipe(final(kernel).files@[ends.0 as int].file->Pipe_0),
                handles: 1,
            },
        ).push(
            OpenFile {
                file: File::Pipe(final(kernel).files@[ends.1 as int].file->Pipe_0),
                handles: 1,
            },
        ),
        final(kernel).files@[ends.0 as int].file is Pipe,
        final(kernel).files@[ends.1 as int].file is Pipe,
        final(kernel).files@[ends.0 as int].file->Pipe_0.spec_readable(),
        !final(kernel).files@[ends.0 as int].file->Pipe_0.spec_writable(),
        final(kernel).files@[ends.1 as int].file->Pipe_0.spec_writable(),
        !final(kernel).files@[ends.1 as int].file->Pipe_0.spec_readable(),
        final(kernel).files@[ends.0 as int].file->Pipe_0.spec_buffer() == old(kernel).pipes@.len(),
        final(kernel).files@[ends.1 as int].file->Pipe_0.spec_buffer() == old(kernel).pipes@.len(),
        final(kernel).pipes@.len() == old(kernel).pipes@.len() + 1,
        final(kernel).pipes@.subrange(0, old(kernel).pipes@.len() as int) == old(kernel).pipes@,
        final(kernel).pipes@.last().wf(),
        final(kernel).pipes@.last()@ == Seq::<u8>::empty(),
        final(kernel).pipes@.last().spec_write_end() == Some(ends.1),
{
    let ghost before = *kernel;
    let buffer: usize = kernel.pipes.len();
    let read_file: usize = kernel.files.len();
    let write_file: usize = read_file + 1;
    let mut ring = PipeRingBuffer::new();
    ring.set_write_end(write_file);
    kernel.pipes.push(ring);
    kernel.files.push(OpenFile { file: File::Pipe(Pipe::read_end_with_buffer(buffer)), handles: 1 });
    kernel.files.push(
        OpenFile { file: File::Pipe(Pipe::write_end_with_buffer(buffer)), handles: 1 },
    );
    proof {
        kernel.lemma_wf_frame(before);
        assert(kernel.pipes@.subrange(0, before.pipes@.len() as int) =~= before.pipes@);
    }
    (read_file, write_file)
}

/// Makes a pipe for the process of the running thread. Returns 0 and the
/// two file descriptors, that of the read end and that of the write end,
/// which go to the user program: the two lowest ones that are free.
pub fn sys_pipe(kernel: &mut Kernel) -> (r: (isize, usize, usize))
    requires
        old(kernel).wf(),
        old(kernel).spec_running(),
        old(kernel).files@.len() + 2 <= usize::MAX,
    ensures
        final(kernel).wf(),
        final(kernel).processor == old(kernel).processor,
        final(kernel).task_manager == old(kernel).task_manager,
        r.0 == 0,
        ({
            let pid = old(kernel).processor.current->0.pid as int;
            let read_file = old(kernel).files@.len();
            &&& r.1 == spec_free_fd(old(kernel).spec_process(pid).fd_table@, 0)
            &&& r.1 != r.2
            &&& final(kernel).spec_live(pid)
            &&& spec_fd_file(*final(kernel), pid, r.1 as int) == Some(read_file as usize)
            &&& spec_fd_file(*final(kernel), pid, r.2 as int) == Some((read_file + 1) as usize)
            &&& forall|other: int|
                0 <= other < old(kernel).spec_process(pid).fd_table@.len() && other != r.1 && other
                    != r.2 ==> spec_fd_file(*final(kernel), pid, other) == spec_fd_file(
                    *old(kernel),
                    pid,
                    other,
                )
            &&& final(kernel).files@.len() == read_file + 2
            &&& final(kernel).files@[read_file as int].file is Pipe
            &&& final(kernel).files@[read_file as int].file->Pipe_0.spec_readable()
            &&& final(kernel).files@[read_file as int + 1].file is Pipe
            &&& final(kernel).files@[read_file as int + 1].file->Pipe_0.spec_writable()
            &&& final(kernel).pipes@.len() == old(kernel).pipes@.len() + 1
            &&& final(kernel).pipes@.last()@ == Seq::<u8>::empty()
        }),
{
    let pid: usize = kernel.current_process();
    let (read_file, write_file) = make_pipe(kernel);
    let read_fd: usize = alloc_fd(kernel, pid);
    set_fd(kernel, pid, read_fd, Some(read_file));
    let ghost mid = *kernel;
    let write_fd: usize = alloc_fd(kernel, pid);
    proof {
        assert(write_fd != read_fd) by {
            crate::task::process::lemma_free_fd_is_free(mid.spec_process(pid as int).fd_table@, 0);
        }
    }
    set_fd(kernel, pid, write_fd, Some(write_file));
    (0, read_fd, write_fd)
}

/// Is `file` the root directory of `fs`?
fn is_root<D: BlockDevice>(fs: &EasyFileSystem<D>, file: &OSInode) -> (root: bool)
    requires
        fs.wf(),
        file.inode.wf(fs.spec_geometry()),
    ensures
        root == (file.inode.spec_ino(fs.spec_geometry()) == 0),
{
    file.inode.block_id == fs.inode_area_start_block as usize && file.inode.block_offset == 0
}

/// Writes the pieces of `buf` to the write end `pipe` of a pipe, from
/// byte `progress` of `buf` on, as `Pipe::write` does. If the buffer of
/// the pipe gets full before all is written, the running thread gives up
/// the processor. Returns -1 if the end is not for writing, has no buffer,
/// or if `progress` is more than `buf` has.
pub fn pipe_write(kernel: &mut Kernel, pipe: Pipe, buf: &UserBuffer, progress: usize) -> (io: SysIo)
    requires
        old(kernel).wf(),
        old(kernel).spec_running(),
    ensures
        final(kernel).wf(),
        final(kernel).files == old(kernel).files,
        final(kernel).pipes@.len() == old(kernel).pipes@.len(),
        forall|other: int|
            0 <= other < old(kernel).pipes@.len() && other != pipe.spec_buffer() ==> final(kernel).pipes@[other] == old(kernel).pipes@[other],
        ({
            let ring = pipe.spec_buffer() as int;
            let flat = crate::mm::spec_flat(buf.buffers@, 0);
            let ok = pipe.spec_writable() && ring < old(kernel).pipes@.len() && old(kernel).pipes@[ring].wf() && progress <= flat.len() && flat.len() <= isize::MAX;
            &&& !ok ==> io == SysIo::Done(-1isize) && *final(kernel) == *old(kernel)
            &&& ok ==> {
                let room = 32 - old(kernel).pipes@[ring]@.len();
                let left = flat.len() - progress;
                let n = if left <= room {
                    left
                } else {
                    room
                };
                &&& final(kernel).pipes@[ring].wf()
                &&& final(kernel).pipes@[ring].spec_write_end() == old(kernel).pipes@[ring].spec_write_end()
                &&& final(kernel).pipes@[ring]@ == old(kernel).pipes@[ring]@ + flat.subrange(
                    progress as int,
                    progress + n,
                )
                &&& left < room ==> io == SysIo::Done((progress + n) as isize) && final(kernel).processes == old(kernel).processes && final(kernel).processor == old(kernel).processor && final(kernel).task_manager == old(kernel).task_manager
                &&& left >= room ==> io == SysIo::Suspend(
                    (progress + n) as usize,
                    Switch {
                        from: ContextRef::Task(old(kernel).processor.current->0),
                        to: ContextRef::Idle,
                    },
                ) && final(kernel).processor.current is None && final(kernel).task_manager@ == old(kernel).task_manager@.push(old(kernel).processor.current->0)
            }
        }),
{
    let ring: usize = pipe.buffer();
    if !pipe.writable() || ring >= kernel.pipes.len() {
        return SysIo::Done(-1);
    }
    if !kernel.pipes[ring].check() {
        return SysIo::Done(-1);
    }
    let flat: Vec<u8> = buf.to_vec();
    if progress > flat.len() || flat.len() > isize::MAX as usize {
        return SysIo::Done(-1);
    }
    let ghost before = *kernel;
    let io: PipeIo = pipe.write(&mut kernel.pipes[ring], flat.as_slice(), progress);
    proof {
        kernel.lemma_wf_frame(before);
    }
    match io {
        PipeIo::Done(n) => SysIo::Done(n as isize),
        PipeIo::Suspend(n) => SysIo::Suspend(n, kernel.suspend_current_and_run_next()),
    }
}

/// Reads from the read end `pipe` of a pipe into the pieces of `buf`,
/// from byte `progress` of `buf` on, as `Pipe::read` does. If the buffer
/// of the pipe runs empty before `buf` is full while the write end is
/// open, the running thread gives up the processor. Returns -1 if the end
/// is not for reading, has no buffer or no write end, or if `progress` is
/// more than `buf` has.
pub fn pipe_read(kernel: &mut Kernel, pipe: Pipe, buf: &mut UserBuffer, progress: usize) -> (io:
    SysIo)
    requires
        old(kernel).wf(),
        old(kernel).spec_running(),
    ensures
        final(kernel).wf(),
        final(kernel).files == old(kernel).files,
        final(kernel).pipes@.len() == old(kernel).pipes@.len(),
        final(buf).buffers@.len() == old(buf).buffers@.len(),
        forall|i: int|
            0 <= i < old(buf).buffers@.len() ==> final(buf).buffers@[i]@.len() == old(buf).buffers@[i]@.len(),
        forall|other: int|
            0 <= other < old(kernel).pipes@.len() && other != pipe.spec_buffer() ==> final(kernel).pipes@[other] == old(kernel).pipes@[other],
        ({
            let ring = pipe.spec_buffer() as int;
            let flat = crate::mm::spec_flat(old(buf).buffers@, 0);
            let ok = pipe.spec_readable() && ring < old(kernel).pipes@.len() && old(kernel).pipes@[ring].wf() && old(kernel).pipes@[ring].spec_write_end() is Some
                && progress <= flat.len() && flat.len() <= isize::MAX;
            &&& !ok ==> io == SysIo::Done(-1isize) && *final(kernel) == *old(kernel) && final(buf).buffers@ == old(buf).buffers@
            &&& ok ==> {
                let held = old(kernel).pipes@[ring]@;
                let room = flat.len() - progress;
                let n = if held.len() <= room {
                    held.len() as int
                } else {
                    room
                };
                let writer = old(kernel).pipes@[ring].spec_write_end()->0;
                let closed = writer >= old(kernel).files@.len() || old(kernel).files@[writer as int].handles == 0;
                &&& final(kernel).pipes@[ring].wf()
                &&& final(kernel).pipes@[ring].spec_write_end() == old(kernel).pipes@[ring].spec_write_end()
                &&& final(kernel).pipes@[ring]@ == held.subrange(n, held.len() as int)
                &&& crate::mm::spec_flat(final(buf).buffers@, 0) == crate::codec::spec_splice(
                    flat,
                    progress as int,
                    held.subrange(0, n),
                )
                &&& (held.len() > room || closed) ==> io == SysIo::Done((progress + n) as isize)
                    && final(kernel).processes == old(kernel).processes && final(kernel).processor
                    == old(kernel).processor && final(kernel).task_manager == old(kernel).task_manager
                &&& !(held.len() > room || closed) ==> io == SysIo::Suspend(
                    (progress + n) as usize,
                    Switch {
                        from: ContextRef::Task(old(kernel).processor.current->0),
                        to: ContextRef::Idle,
                    },
                ) && final(kernel).processor.current is None && final(kernel).task_manager@ == old(kernel).task_manager@.push(old(kernel).processor.current->0)
            }
        }),
{
    let ring: usize = pipe.buffer();
    if !pipe.readable() || ring >= kernel.pipes.len() {
        return SysIo::Done(-1);
    }
    if !kernel.pipes[ring].check() {
        return SysIo::Done(-1);
    }
    let writer: usize = match kernel.pipes[ring].write_end() {
        Some(writer) => writer,
        None => {
            return SysIo::Done(-1);
        },
    };
    let mut flat: Vec<u8> = buf.to_vec();
    if progress > flat.len() || flat.len() > isize::MAX as usize {
        return SysIo::Done(-1);
    }
    let write_handles: usize = if writer < kernel.files.len() {
        kernel.files[writer].handles
    } else {
        0
    };
    let ghost before = *kernel;
    proof {
        crate::mm::lemma_flat_len(buf.buffers@, 0);
    }
    let io: PipeIo = pipe.read(
        &mut kernel.pipes[ring],
        flat.as_mut_slice(),
        progress,
        write_handles,
    );
    buf.fill_from(flat.as_slice());
    proof {
        kernel.lemma_wf_frame(before);
    }
    match io {
        PipeIo::Done(n) => SysIo::Done(n as isize),
        PipeIo::Suspend(n) => SysIo::Suspend(n, kernel.suspend_current_and_run_next()),
    }
}

/// Writes the pieces of `buf` through file descriptor `fd` of the process
/// of the running thread.
///
/// To a file of the file system the pieces are written at the cursor of
/// the open file, as `OSInode::try_write` does; to a pipe from byte
/// `progress` of `buf` on, as `pipe_write` does. For the console the
/// answer is `Console`: the caller writes. The answer is -1 if `fd` names
/// no open file, if the file is not for writing, or if the write cannot
/// be done.
pub fn sys_write<D: BlockDevice>(
    kernel: &mut Kernel,
    fs: &mut EasyFileSystem<D>,
    fd: usize,
    buf: &UserBuffer,
    progress: usize,
) -> (io: SysIo)
    requires
        old(kernel).wf(),
        old(kernel).spec_running(),
        old(fs).inv(),
    ensures
        final(kernel).wf(),
        final(fs).inv(),
        final(kernel).files@.len() == old(kernel).files@.len(),
        final(kernel).pipes@.len() == old(kernel).pipes@.len(),
        ({
            let pid = old(kernel).processor.current->0.pid as int;
            let file = spec_fd_file(*old(kernel), pid, fd as int);
            let total = spec_total_len_of(buf);
            &&& (file is None || file->0 >= old(kernel).files@.len()) ==> io == SysIo::Done(-1isize)
                && *final(kernel) == *old(kernel) && final(fs)@ == old(fs)@
            &&& file is Some && file->0 < old(kernel).files@.len() ==> match old(kernel).files@[file->0 as int].file {
                File::Stdin => io == SysIo::Done(-1isize) && *final(kernel) == *old(kernel) && final(fs)@ == old(fs)@,
                File::Stdout => io == SysIo::Console && *final(kernel) == *old(kernel) && final(fs)@ == old(fs)@,
                File::Inode(opened) => {
                    let g = old(fs).spec_geometry();
                    let x = opened.inode.spec_ino(g);
                    let ok = opened.writable && opened.inode.spec_live(old(fs)) && x != 0
                        && crate::fs::spec_can_write(old(fs), x, opened.offset as int, total);
                    &&& final(kernel).pipes == old(kernel).pipes
                    &&& final(kernel).processes == old(kernel).processes
                    &&& !ok ==> io == SysIo::Done(-1isize) && final(fs)@ == old(fs)@ && final(kernel).files == old(kernel).files
                    &&& ok ==> {
                        &&& io == SysIo::Done(total as isize)
                        &&& final(kernel).files@ == old(kernel).files@.update(
                            file->0 as int,
                            OpenFile {
                                file: File::Inode(
                                    OSInode { offset: (opened.offset + total) as usize, ..opened },
                                ),
                                ..old(kernel).files@[file->0 as int]
                            },
                        )
                        &&& crate::efs::spec_file(g, final(fs)@, x) == crate::fs::spec_gather(
                            crate::efs::spec_file(g, old(fs)@, x),
                            opened.offset as int,
                            buf.buffers@,
                            0,
                        )
                        &&& crate::efs::spec_others_same(g, old(fs)@, final(fs)@, x)
                        &&& crate::efs::spec_ls(final(fs)@) == crate::efs::spec_ls(old(fs)@)
                    }
                },
                File::Pipe(pipe) => {
                    let ring = pipe.spec_buffer() as int;
                    let flat = crate::mm::spec_flat(buf.buffers@, 0);
                    let ok = pipe.spec_writable() && ring < old(kernel).pipes@.len() && old(kernel).pipes@[ring].wf() && progress <= flat.len() && flat.len() <= isize::MAX;
                    &&& final(fs)@ == old(fs)@
                    &&& final(kernel).files == old(kernel).files
                    &&& !ok ==> io == SysIo::Done(-1isize) && *final(kernel) == *old(kernel)
                    &&& ok ==> {
                        let room = 32 - old(kernel).pipes@[ring]@.len();
                        let left = flat.len() - progress;
                        let n = if left <= room {
                            left
                        } else {
                            room
                        };
                        &&& final(kernel).pipes@[ring]@ == old(kernel).pipes@[ring]@
                            + flat.subrange(progress as int, progress + n)
                        &&& left < room ==> io == SysIo::Done((progress + n) as isize)
                        &&& left >= room ==> io == SysIo::Suspend(
                            (progress + n) as usize,
                            Switch {
                                from: ContextRef::Task(old(kernel).processor.current->0),
                                to: ContextRef::Idle,
                            },
                        ) && final(kernel).task_manager@ == old(kernel).task_manager@.push(
                            old(kernel).processor.current->0,
                        )
                    }
                },
            }
        }),
{
    let pid: usize = kernel.current_process();
    let file: usize = match &kernel.processes[pid] {
        Some(process) => if fd < process.fd_table.len() {
            match process.fd_table[fd] {
                Some(file) => file,
                None => {
                    return SysIo::Done(-1);
                },
            }
        } else {
            return SysIo::Done(-1);
        },
        None => {
            return SysIo::Done(-1);
        },
    };
    if file >= kernel.files.len() {
        return SysIo::Done(-1);
    }
    let open: OpenFile = kernel.files[file];
    match open.file {
        File::Stdin => SysIo::Done(-1),
        File::Stdout => SysIo::Console,
        File::Inode(opened) => {
            let mut opened: OSInode = opened;
            if !opened.writable() {
                return SysIo::Done(-1);
            }
            if !opened.inode.is_live(fs) {
                return SysIo::Done(-1);
            }
            if is_root(fs, &opened) {
                return SysIo::Done(-1);
            }
            match opened.try_write(fs, buf) {
                Some(n) => {
                    let ghost before = *kernel;
                    kernel.files[file] = OpenFile { file: File::Inode(opened), ..open };
                    proof {
                        kernel.lemma_wf_frame(before);
                    }
                    SysIo::Done(n as isize)
                },
                None => SysIo::Done(-1),
            }
        },
        File::Pipe(pipe) => pipe_write(kernel, pipe, buf, progress),
    }
}

/// Number of bytes of `buf`.
pub open spec fn spec_total_len_of(buf: &UserBuffer) -> int {
    crate::mm::spec_total_len(buf.buffers@, 0)
}

/// Reads through file descriptor `fd` of the process of the running
/// thread into the pieces of `buf`.
///
/// From a file of the file system the pieces are filled from the cursor
/// of the open file on, as `OSInode::read` does; from a pipe from byte
/// `progress` of `buf` on, as `pipe_read` does. For the console the answer
/// is `Console`: the caller reads. The answer is -1 if `fd` names no open
/// file, if the file is not for reading, or if the read cannot be done.
pub fn sys_read<D: BlockDevice>(
    kernel: &mut Kernel,
    fs: &mut EasyFileSystem<D>,
    fd: usize,
    buf: &mut UserBuffer,
    progress: usize,
) -> (io: SysIo)
    requires
        old(kernel).wf(),
        old(kernel).spec_running(),
        old(fs).inv(),
    ensures
        final(kernel).wf(),
        final(fs).inv(),
        final(fs)@ == old(fs)@,
        final(kernel).files@.len() == old(kernel).files@.len(),
        final(kernel).pipes@.len() == old(kernel).pipes@.len(),
        final(buf).buffers@.len() == old(buf).buffers@.len(),
        ({
            let pid = old(kernel).processor.current->0.pid as int;
            let file = spec_fd_file(*old(kernel), pid, fd as int);
            &&& (file is None || file->0 >= old(kernel).files@.len()) ==> io == SysIo::Done(-1isize)
                && *final(kernel) == *old(kernel) && final(buf).buffers@ == old(buf).buffers@
            &&& file is Some && file->0 < old(kernel).files@.len() ==> match old(kernel).files@[file->0 as int].file {
                File::Stdin => io == SysIo::Console && *final(kernel) == *old(kernel) && final(buf).buffers@ == old(buf).buffers@,
                File::Stdout => io == SysIo::Done(-1isize) && *final(kernel) == *old(kernel) && final(buf).buffers@ == old(buf).buffers@,
                File::Inode(opened) => {
                    let g = old(fs).spec_geometry();
                    let x = opened.inode.spec_ino(g);
                    let ok = opened.readable && opened.inode.spec_live(old(fs))
                        && crate::mm::spec_total_len(old(buf).buffers@, 0) <= isize::MAX
                        && opened.offset <= isize::MAX;
                    let got = crate::fs::spec_scatter(
                        crate::efs::spec_file(g, old(fs)@, x),
                        opened.offset as int,
                        crate::fs::spec_pieces(old(buf).buffers@),
                        0,
                    );
                    &&& final(kernel).pipes == old(kernel).pipes
                    &&& final(kernel).processes == old(kernel).processes
                    &&& !ok ==> io == SysIo::Done(-1isize) && final(kernel).files == old(kernel).files
                        && final(buf).buffers@ == old(buf).buffers@
                    &&& ok ==> {
                        &&& io == SysIo::Done(got.1 as isize)
                        &&& crate::fs::spec_pieces(final(buf).buffers@) == got.0
                        &&& final(kernel).files@ == old(kernel).files@.update(
                            file->0 as int,
                            OpenFile {
                                file: File::Inode(
                                    OSInode { offset: (opened.offset + got.1) as usize, ..opened },
                                ),
                                ..old(kernel).files@[file->0 as int]
                            },
                        )
                    }
                },
                File::Pipe(pipe) => {
                    let ring = pipe.spec_buffer() as int;
                    let flat = crate::mm::spec_flat(old(buf).buffers@, 0);
                    let ok = pipe.spec_readable() && ring < old(kernel).pipes@.len() && old(kernel).pipes@[ring].wf() && old(kernel).pipes@[ring].spec_write_end() is Some
                        && progress <= flat.len() && flat.len() <= isize::MAX;
                    &&& final(kernel).files == old(kernel).files
                    &&& !ok ==> io == SysIo::Done(-1isize) && *final(kernel) == *old(kernel) && final(buf).buffers@ == old(buf).buffers@
                    &&& ok ==> {
                        let held = old(kernel).pipes@[ring]@;
                        let room = flat.len() - progress;
                        let n = if held.len() <= room {
                            held.len() as int
                        } else {
                            room
                        };
                        let writer = old(kernel).pipes@[ring].spec_write_end()->0;
                        let closed = writer >= old(kernel).files@.len() || old(kernel).files@[writer as int].handles == 0;
                        &&& final(kernel).pipes@[ring]@ == held.subrange(n, held.len() as int)
                        &&& crate::mm::spec_flat(final(buf).buffers@, 0)
                            == crate::codec::spec_splice(
                            flat,
                            progress as int,
                            held.subrange(0, n),
                        )
                        &&& (held.len() > room || closed) ==> io == SysIo::Done(
                            (progress + n) as isize,
                        )
                        &&& !(held.len() > room || closed) ==> io == SysIo::Suspend(
                            (progress + n) as usize,
                            Switch {
                                from: ContextRef::Task(old(kernel).processor.current->0),
                                to: ContextRef::Idle,
                            },
                        ) && final(kernel).task_manager@ == old(kernel).task_manager@.push(
                            old(kernel).processor.current->0,
                        )
                    }
                },
            }
        }),
{
    let pid: usize = kernel.current_process();
    let file: usize = match &kernel.processes[pid] {
        Some(process) => if fd < process.fd_table.len() {
            match process.fd_table[fd] {
                Some(file) => file,
                None => {
                    return SysIo::Done(-1);
                },
            }
        } else {
            return SysIo::Done(-1);
        },
        None => {
            return SysIo::Done(-1);
        },
    };
    if file >= kernel.files.len() {
        return SysIo::Done(-1);
    }
    let open: OpenFile = kernel.files[file];
    match open.file {
        File::Stdin => SysIo::Console,
        File::Stdout => SysIo::Done(-1),
        File::Inode(opened) => {
            let mut opened: OSInode = opened;
            if !opened.readable() {
                return SysIo::Done(-1);
            }
            if !opened.inode.is_live(fs) {
                return SysIo::Done(-1);
            }
            if buf.checked_len(isize::MAX as usize).is_none() || opened.offset
                > isize::MAX as usize {
                return SysIo::Done(-1);
            }
            let n: usize = opened.read(fs, buf);
            let ghost before = *kernel;
            kernel.files[file] = OpenFile { file: File::Inode(opened), ..open };
            proof {
                kernel.lemma_wf_frame(before);
            }
            SysIo::Done(n as isize)
        },
        File::Pipe(pipe) => pipe_read(kernel, pipe, buf, progress),
    }
}

} // verus!
