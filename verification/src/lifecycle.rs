//! How processes and threads come and go: creation, `fork`, exit, and the
//! wait of a parent for a child.
use crate::config::{KERNEL_STACK_SIZE, PAGE_SIZE, TRAMPOLINE, USER_STACK_SIZE};
use crate::kernel::{ContextRef, Kernel, OpenFile, Switch, STDIN_FILE, STDOUT_FILE};
use crate::task::id::{
    spec_kernel_stack_position, spec_trap_cx_bottom, spec_ustack_bottom, KernelStack, PidHandle,
    TaskUserRes,
};
use crate::task::process::{spec_release_all, ProcessControlBlock};
use crate::task::task::{TaskControlBlock, TaskRef, TaskStatus};
use vstd::prelude::*;

verus! {

/// What is to be done outside the kernel record when a thread has exited.
pub struct ExitActions {
    /// The process of the thread.
    pub pid: usize,
    /// For each thread that gave up its resources, the start of its user
    /// stack and the start of its trap context, to be unmapped from the
    /// address space of the process.
    pub unmap: Vec<(usize, usize)>,
    /// Is the address space of the process to be emptied, because the main
    /// thread has exited?
    pub recycle_data_pages: bool,
    /// The switch away from the thread.
    pub switch: Switch,
}

/// What `waitpid` found.
#[derive(Copy, Clone, PartialEq, Eq, Structural, Debug)]
pub enum WaitOutcome {
    /// The caller has no child of that id: -1.
    NoChild,
    /// The children in question still run: -2.
    Running,
    /// The child of this id has exited with this code and is gone: its id.
    Exited(usize, i32),
}

impl WaitOutcome {
}

/// Does child `child` match what a caller of `waitpid` asked for with
/// `pid`: any child, with -1, or the child of that id?
pub open spec fn spec_wanted(pid: isize, child: usize) -> bool {
    pid == -1 || (pid >= 0 && pid as usize == child)
}

/// The place, from `from` on, of the first child in `children` that is
/// wanted and, if `zombie` is set, has exited; or the length of `children`.
pub open spec fn spec_first_child(
    kernel: Kernel,
    children: Seq<usize>,
    pid: isize,
    zombie: bool,
    from: int,
) -> int
    decreases children.len() - from,
{
    if from >= children.len() {
        children.len() as int
    } else if spec_wanted(pid, children[from]) && (!zombie || kernel.spec_process(
        children[from] as int,
    ).is_zombie) {
        from
    } else {
        spec_first_child(kernel, children, pid, zombie, from + 1)
    }
}

/// What `spec_first_child` finds.
pub proof fn lemma_first_child(
    kernel: Kernel,
    children: Seq<usize>,
    pid: isize,
    zombie: bool,
    from: int,
    at: int,
)
    requires
        0 <= from <= at <= children.len(),
        forall|i: int|
            from <= i < at ==> !(spec_wanted(pid, children[i]) && (!zombie || kernel.spec_process(
                children[i] as int,
            ).is_zombie)),
        at < children.len() ==> spec_wanted(pid, children[at]) && (!zombie || kernel.spec_process(
            children[at] as int,
        ).is_zombie),
    ensures
        spec_first_child(kernel, children, pid, zombie, from) == at,
    decreases at - from,
{
    if from < at {
        lemma_first_child(kernel, children, pid, zombie, from + 1, at);
    }
}

/// A child is waited for once: when `waitpid` has taken the child at
/// place `z` out of the list of children, the caller has no child of that
/// id any more, so that the next `waitpid` for it answers `NoChild`.
pub proof fn lemma_waited_once(kernel: Kernel, children: Seq<usize>, z: int)
    requires
        children.no_duplicates(),
        0 <= z < children.len(),
        children[z] <= isize::MAX,
    ensures
        spec_first_child(kernel, children.remove(z), children[z] as isize, false, 0)
            == children.len() - 1,
        spec_first_child(kernel, children.remove(z), children[z] as isize, true, 0)
            == children.len() - 1,
{
    let left = children.remove(z);
    let pid = children[z] as isize;
    assert forall|i: int| 0 <= i < left.len() implies !spec_wanted(pid, left[i]) by {
        let j = if i < z {
            i
        } else {
            i + 1
        };
        assert(left[i] == children[j]);
        assert(children[j] != children[z]);
    }
    lemma_first_child(kernel, left, pid, false, 0, left.len() as int);
    lemma_first_child(kernel, left, pid, true, 0, left.len() as int);
}

/// The open files `files` after one more file descriptor was counted for
/// each of the first `n` entries of `fd_table` that names a file, where
/// the count has room.
pub open spec fn spec_retain_all(files: Seq<OpenFile>, fd_table: Seq<Option<usize>>, n: int) -> Seq<
    OpenFile,
>
    decreases n,
{
    if n <= 0 {
        files
    } else {
        let before = spec_retain_all(files, fd_table, n - 1);
        match fd_table[n - 1] {
            Some(file) => if file < before.len() && before[file as int].handles < usize::MAX {
                before.update(
                    file as int,
                    OpenFile {
                        handles: (before[file as int].handles + 1) as usize,
                        ..before[file as int]
                    },
                )
            } else {
                before
            },
            None => before,
        }
    }
}

/// The open files `files` after one file descriptor less was counted for
/// each of the first `n` entries of `fd_table` that names a file with
/// descriptors.
pub open spec fn spec_release_files(
    files: Seq<OpenFile>,
    fd_table: Seq<Option<usize>>,
    n: int,
) -> Seq<OpenFile>
    decreases n,
{
    if n <= 0 {
        files
    } else {
        let before = spec_release_files(files, fd_table, n - 1);
        match fd_table[n - 1] {
            Some(file) => if file < before.len() && before[file as int].handles > 0 {
                before.update(
                    file as int,
                    OpenFile {
                        handles: (before[file as int].handles - 1) as usize,
                        ..before[file as int]
                    },
                )
            } else {
                before
            },
            None => before,
        }
    }
}

impl Kernel {
    /// Counts one more file descriptor for each open file that `fd_table`
    /// names.
    pub fn retain_files(&mut self, fd_table: &Vec<Option<usize>>)
        requires
            old(self).wf(),
        ensures
            final(self).wf(),
            *final(self) == (Kernel { files: final(self).files, ..*old(self) }),
            final(self).files@ == spec_retain_all(
                old(self).files@,
                fd_table@,
                fd_table@.len() as int,
            ),
    {
        let n: usize = fd_table.len();
        let mut fd: usize = 0;
        while fd < n
            invariant
                fd <= n,
                n == fd_table@.len(),
                self.wf(),
                *self == (Kernel { files: self.files, ..*old(self) }),
                self.files@ == spec_retain_all(old(self).files@, fd_table@, fd as int),
            decreases n - fd,
        {
            match fd_table[fd] {
                Some(file) => {
                    self.retain_file(file);
                },
                None => {},
            }
            fd += 1;
        }
    }

    /// Counts one file descriptor less for each open file that `fd_table`
    /// names.
    pub fn release_files(&mut self, fd_table: &Vec<Option<usize>>)
        requires
            old(self).wf(),
        ensures
            final(self).wf(),
            *final(self) == (Kernel { files: final(self).files, ..*old(self) }),
            final(self).files@ == spec_release_files(
                old(self).files@,
                fd_table@,
                fd_table@.len() as int,
            ),
    {
        let n: usize = fd_table.len();
        let mut fd: usize = 0;
        while fd < n
            invariant
                fd <= n,
                n == fd_table@.len(),
                self.wf(),
                *self == (Kernel { files: self.files, ..*old(self) }),
                self.files@ == spec_release_files(old(self).files@, fd_table@, fd as int),
            decreases n - fd,
        {
            match fd_table[fd] {
                Some(file) => {
                    self.release_file(file);
                },
                None => {},
            }
            fd += 1;
        }
    }

    /// Is there room for one more process and one more kernel stack?
    pub open spec fn spec_room(&self) -> bool {
        &&& self.pid_allocator.spec_current() < usize::MAX
        &&& (self.kstack_allocator.spec_current() + 1) * (KERNEL_STACK_SIZE + PAGE_SIZE)
            + KERNEL_STACK_SIZE <= TRAMPOLINE
        &&& forall|k: usize|
            #![trigger self.kstack_allocator.spec_allocated(k)]
            k < self.kstack_allocator.spec_current() ==> spec_kernel_stack_position(k as int).0
                >= 0
    }

    /// Is there room for one more process and one more kernel stack?
    pub fn has_room(&self) -> (room: bool)
        ensures
            room == self.spec_room(),
    {
        let stride: usize = KERNEL_STACK_SIZE + PAGE_SIZE;
        let stacks: usize = self.kstack_allocator.current();
        let most: usize = (TRAMPOLINE - KERNEL_STACK_SIZE) / stride;
        self.pid_allocator.current() < usize::MAX && stacks < most
    }

    /// Is there room for one more thread in the process of the running
    /// thread: is the number of its thread ids below 4096, and do the user
    /// stacks up to the next one lie in the address space?
    pub open spec fn spec_thread_room(&self) -> bool {
        let process = self.spec_process(self.processor.current->0.pid as int);
        let base = self.spec_task(self.processor.current->0).res->0.ustack_base;
        &&& self.spec_task(self.processor.current->0).res is Some
        &&& process.task_res_allocator.spec_current() < 0x1000
        &&& forall|tid: int|
            0 <= tid <= process.task_res_allocator.spec_current() ==> spec_ustack_bottom(
                base as int,
                tid,
            ) + USER_STACK_SIZE <= usize::MAX
    }

    /// Is there room for one more thread in the process of the running
    /// thread?
    pub fn has_thread_room(&self) -> (room: bool)
        requires
            self.wf(),
            self.spec_running(),
        ensures
            room == self.spec_thread_room(),
    {
        let task: TaskRef = match self.current_task() {
            Some(task) => task,
            None => vstd::pervasive::unreached(),
        };
        match &self.processes[task.pid] {
            Some(process) => {
                let ids: usize = process.task_res_allocator.current();
                match &process.tasks[task.tid] {
                    Some(thread) => match thread.res {
                        Some(res) => {
                            let stride: usize = USER_STACK_SIZE + PAGE_SIZE;
                            if ids >= 0x1000 {
                                return false;
                            }
                            let room: bool = res.ustack_base <= usize::MAX - USER_STACK_SIZE - ids
                                * stride;
                            proof {
                                if room {
                                    assert forall|tid: int| 0 <= tid <= ids implies spec_ustack_bottom(
                                        res.ustack_base as int,
                                        tid,
                                    ) + USER_STACK_SIZE <= usize::MAX by {
                                        assert(tid * 0x3000 <= ids * 0x3000);
                                    }
                                } else {
                                    assert(spec_ustack_bottom(res.ustack_base as int, ids as int)
                                        + USER_STACK_SIZE > usize::MAX);
                                }
                            }
                            room
                        },
                        None => false,
                    },
                    None => false,
                }
            },
            None => false,
        }
    }

    /// Puts `process`, whose id is handed out and names no process yet,
    /// into the table of processes.
    pub fn install_process(&mut self, process: ProcessControlBlock)
        requires
            old(self).wf(),
            process.wf(),
            old(self).pid_allocator.spec_allocated(process.pid.0),
            !old(self).spec_live(process.pid.0 as int),
            process.children@.len() == 0,
        ensures
            final(self).wf(),
            final(self).spec_live(process.pid.0 as int),
            final(self).spec_process(process.pid.0 as int) == process,
            forall|other: int|
                other != process.pid.0 ==> final(self).spec_live(other) == old(self).spec_live(
                    other,
                ) && (old(self).spec_live(other) ==> final(self).spec_process(other) == old(self).spec_process(other)),
            *final(self) == (Kernel { processes: final(self).processes, ..*old(self) }),
    {
        let pid: usize = process.pid.0;
        while self.processes.len() <= pid
            invariant
                *self == (Kernel { processes: self.processes, ..*old(self) }),
                self.processes@.len() <= pid + 1 || self.processes@.len() == old(self).processes@.len(),
                old(self).processes@.len() <= self.processes@.len(),
                pid < old(self).pid_allocator.spec_current(),
                forall|other: int|
                    0 <= other < old(self).processes@.len() ==> self.processes@[other] == old(self).processes@[other],
                forall|other: int|
                    old(self).processes@.len() <= other < self.processes@.len()
                        ==> self.processes@[other] is None,
            decreases pid + 1 - self.processes@.len(),
        {
            self.processes.push(None);
        }
        self.processes[pid] = Some(process);
        proof {
            assert forall|other: int| other != pid implies self.spec_live(other) == old(self).spec_live(other) && (old(self).spec_live(other) ==> self.spec_process(other) == old(self).spec_process(other)) by {}
            assert forall|other: usize|
                other < self.processes@.len() && (#[trigger] self.processes@[other as int])
                    is Some implies self.pid_allocator.spec_allocated(other) by {
                if other != pid {
                    assert(old(self).processes@[other as int] is Some);
                }
            }
            assert forall|other: int| self.spec_live(other) implies (#[trigger] self.spec_process(
                other,
            )).wf() && self.spec_process(other).pid.0 == other by {
                if other != pid {
                    assert(old(self).spec_live(other));
                    assert(old(self).spec_process(other).wf());
                }
            }
            assert(self.spec_tree_wf()) by {
                assert forall|p: int| self.spec_live(p) implies {
                    &&& (#[trigger] self.spec_process(p)).children@.no_duplicates()
                    &&& forall|i: int|
                        0 <= i < self.spec_process(p).children@.len() ==> {
                            &&& self.spec_live(
                                (#[trigger] self.spec_process(p).children@[i]) as int,
                            )
                            &&& self.spec_process(
                                self.spec_process(p).children@[i] as int,
                            ).parent == Some(p as usize)
                            &&& self.spec_process(p).children@[i] != p
                        }
                } by {
                    if p != pid {
                        assert(old(self).spec_live(p));
                        let before_p = old(self).spec_process(p);
                        assert forall|i: int|
                            0 <= i < self.spec_process(p).children@.len() implies {
                            &&& self.spec_live(
                                (#[trigger] self.spec_process(p).children@[i]) as int,
                            )
                            &&& self.spec_process(self.spec_process(p).children@[i] as int).parent
                                == Some(p as usize)
                            &&& self.spec_process(p).children@[i] != p
                        } by {
                            let c = before_p.children@[i] as int;
                            assert(old(self).spec_live(c));
                            assert(old(self).spec_process(c).parent == Some(p as usize));
                        }
                    }
                }
            }
            if self.processor.current is Some {
                let t = self.processor.current->0;
                assert(old(self).spec_task_exists(t));
            }
        }
    }

    /// Creates a process with address space `memory_set` and with one
    /// thread, which is ready: it has its user stack above `ustack_base`
    /// and its trap context in page `trap_cx_ppn`, and it resumes at
    /// `trap_return`. Returns the id of the process and the top of the
    /// kernel stack of its thread.
    ///
    /// The process has no parent. Its files 0, 1 and 2 are the console.
    pub fn new_process(
        &mut self,
        memory_set: usize,
        ustack_base: usize,
        trap_cx_ppn: usize,
        trap_return: usize,
    ) -> (r: (usize, usize))
        requires
            old(self).wf(),
            old(self).spec_room(),
            ustack_base + USER_STACK_SIZE <= usize::MAX,
        ensures
            final(self).wf(),
            !old(self).spec_live(r.0 as int),
            final(self).spec_live(r.0 as int),
            !old(self).pid_allocator.spec_allocated(r.0),
            forall|other: int|
                other != r.0 ==> final(self).spec_live(other) == old(self).spec_live(other) && (old(self).spec_live(other) ==> final(self).spec_process(other) == old(self).spec_process(
                    other,
                )),
            ({
                let process = final(self).spec_process(r.0 as int);
                &&& process.pid.0 == r.0
                &&& !process.is_zombie
                &&& process.memory_set == memory_set
                &&& process.parent is None
                &&& process.children@ == Seq::<usize>::empty()
                &&& process.exit_code == 0
                &&& process.fd_table@ == seq![Some(STDIN_FILE), Some(STDOUT_FILE), Some(STDOUT_FILE)]
                &&& process.tasks@.len() == 1
                &&& process.tasks@[0] is Some
                &&& process.tasks@[0]->0.process == r.0
                &&& process.tasks@[0]->0.res == Some(
                    TaskUserRes { tid: 0, ustack_base, process: r.0 },
                )
                &&& process.tasks@[0]->0.trap_cx_ppn == trap_cx_ppn
                &&& process.tasks@[0]->0.task_cx.ra == trap_return
                &&& process.tasks@[0]->0.task_cx.sp == r.1
                &&& process.tasks@[0]->0.task_status == TaskStatus::Ready
                &&& process.tasks@[0]->0.exit_code is None
                &&& !old(self).kstack_allocator.spec_allocated(process.tasks@[0]->0.kstack.0)
                &&& final(self).kstack_allocator.spec_allocated(process.tasks@[0]->0.kstack.0)
                &&& r.1 == spec_kernel_stack_position(process.tasks@[0]->0.kstack.0 as int).1
            }),
            final(self).task_manager@ == old(self).task_manager@.push(TaskRef { pid: r.0, tid: 0 }),
            final(self).processor == old(self).processor,
            final(self).timers == old(self).timers,
            final(self).files@ == spec_retain_all(
                old(self).files@,
                seq![Some(STDIN_FILE), Some(STDOUT_FILE), Some(STDOUT_FILE)],
                3,
            ),
            final(self).pipes == old(self).pipes,
            final(self).initproc == old(self).initproc,
    {
        let pid: usize = self.pid_alloc().0;
        assert(old(self).kstack_allocator.spec_current() < usize::MAX) by {
            assert((old(self).kstack_allocator.spec_current() + 1) * 0x3000 <= usize::MAX);
        }
        let kstack_id: usize = self.kstack_alloc().0;
        proof {
            assert(kstack_id <= old(self).kstack_allocator.spec_current());
            if kstack_id < old(self).kstack_allocator.spec_current() {
                assert(spec_kernel_stack_position(kstack_id as int).0 >= 0);
            }
            let mid = *self;
            assert(mid.wf()) by {
                assert forall|other: usize|
                    other < mid.processes@.len() && (#[trigger] mid.processes@[other as int])
                        is Some implies mid.pid_allocator.spec_allocated(other) by {
                    assert(old(self).pid_allocator.spec_allocated(other));
                }
                mid.lemma_wf_parts(*old(self));
            }
            assert(!old(self).spec_live(pid as int)) by {
                if old(self).spec_live(pid as int) {
                    assert(old(self).processes@[pid as int] is Some);
                }
            }
        }
        let kstack = KernelStack(kstack_id);
        let kstack_top: usize = kstack.get_top();
        let mut process = ProcessControlBlock::new(
            PidHandle(pid),
            memory_set,
            STDIN_FILE,
            STDOUT_FILE,
        );
        let tid: usize = process.alloc_tid();
        let res = TaskUserRes::new(pid, tid, ustack_base);
        let task = TaskControlBlock::new(pid, res, trap_cx_ppn, kstack, kstack_top, trap_return);
        process.tasks.push(Some(task));
        proof {
            assert(tid == 0);
            assert(process.tasks@ =~= seq![Some(task)]);
            assert(process.wf());
        }
        let ghost mid = *self;
        let mut console: Vec<Option<usize>> = Vec::new();
        console.push(Some(STDIN_FILE));
        console.push(Some(STDOUT_FILE));
        console.push(Some(STDOUT_FILE));
        assert(console@ =~= seq![Some(STDIN_FILE), Some(STDOUT_FILE), Some(STDOUT_FILE)]);
        self.install_process(process);
        self.add_task(TaskRef { pid, tid: 0 });
        self.retain_files(&console);
        proof {
            assert forall|other: int| other != pid implies self.spec_live(other) == old(self).spec_live(other) && (old(self).spec_live(other) ==> self.spec_process(other) == old(self).spec_process(other)) by {
                assert(mid.spec_live(other) == old(self).spec_live(other));
            }
        }
        (pid, kstack_top)
    }

    /// A kernel whose processes are those of a well-formed one, and whose
    /// allocators hand out at least what those of the other do, is
    /// well-formed but, maybe, for the ids that are handed out.
    pub proof fn lemma_wf_parts(&self, before: Kernel)
        requires
            before.wf(),
            self.processes == before.processes,
            self.pid_allocator.wf(),
            self.kstack_allocator.wf(),
            self.timers.wf(),
            self.processes@.len() <= self.pid_allocator.spec_current(),
            forall|other: usize|
                other < self.processes@.len() && (#[trigger] self.processes@[other as int]) is Some
                    ==> self.pid_allocator.spec_allocated(other),
            self.initproc is Some ==> self.spec_live(self.initproc->0 as int) && self.spec_process(
                self.initproc->0 as int,
            ).parent is None,
            self.processor.current is Some ==> self.spec_task_exists(self.processor.current->0),
        ensures
            self.wf(),
    {
        assert forall|other: int| self.spec_live(other) implies (#[trigger] self.spec_process(
            other,
        )).wf() && self.spec_process(other).pid.0 == other by {
            assert(before.spec_live(other));
            assert(before.spec_process(other).wf());
        }
        assert(self.spec_tree_wf()) by {
            assert forall|p: int| self.spec_live(p) implies {
                &&& (#[trigger] self.spec_process(p)).children@.no_duplicates()
                &&& forall|i: int|
                    0 <= i < self.spec_process(p).children@.len() ==> {
                        &&& self.spec_live((#[trigger] self.spec_process(p).children@[i]) as int)
                        &&& self.spec_process(
                            self.spec_process(p).children@[i] as int,
                        ).parent == Some(p as usize)
                        &&& self.spec_process(p).children@[i] != p
                    }
            } by {
                assert(before.spec_live(p));
                let before_p = before.spec_process(p);
                assert forall|i: int| 0 <= i < self.spec_process(p).children@.len() implies {
                    &&& self.spec_live((#[trigger] self.spec_process(p).children@[i]) as int)
                    &&& self.spec_process(self.spec_process(p).children@[i] as int).parent == Some(
                        p as usize,
                    )
                    &&& self.spec_process(p).children@[i] != p
                } by {
                    let c = before_p.children@[i] as int;
                    assert(before.spec_live(c));
                    assert(before.spec_process(c).parent == Some(p as usize));
                }
            }
        }
    }

    /// Creates the first process, which adopts the orphans.
    pub fn add_initproc(
        &mut self,
        memory_set: usize,
        ustack_base: usize,
        trap_cx_ppn: usize,
        trap_return: usize,
    ) -> (r: (usize, usize))
        requires
            old(self).wf(),
            old(self).spec_room(),
            old(self).initproc is None,
            ustack_base + USER_STACK_SIZE <= usize::MAX,
        ensures
            final(self).wf(),
            final(self).initproc == Some(r.0),
            !old(self).spec_live(r.0 as int),
            final(self).spec_live(r.0 as int),
            final(self).spec_process(r.0 as int).parent is None,
            final(self).spec_process(r.0 as int).memory_set == memory_set,
            final(self).task_manager@ == old(self).task_manager@.push(TaskRef { pid: r.0, tid: 0 }),
            forall|other: int|
                other != r.0 ==> final(self).spec_live(other) == old(self).spec_live(other) && (old(self).spec_live(other) ==> final(self).spec_process(other) == old(self).spec_process(
                    other,
                )),
    {
        let r = self.new_process(memory_set, ustack_base, trap_cx_ppn, trap_return);
        let ghost mid = *self;
        self.initproc = Some(r.0);
        proof {
            let after = *self;
            assert(after.wf()) by {
                assert forall|other: usize|
                    other < after.processes@.len() && (#[trigger] after.processes@[other as int])
                        is Some implies after.pid_allocator.spec_allocated(other) by {
                    assert(mid.processes@[other as int] is Some);
                }
                if after.processor.current is Some {
                    assert(mid.spec_task_exists(after.processor.current->0));
                }
                after.lemma_wf_parts(mid);
            }
        }
        r
    }

    /// A kernel in which one process has other children than in a
    /// well-formed one, all else being the same, is well-formed if these
    /// children exist, have this process as parent, are listed once and are
    /// not the process itself.
    pub proof fn lemma_children_changed(&self, before: Kernel, p: int)
        requires
            before.wf(),
            before.spec_live(p),
            self.spec_live(p),
            self.processes@.len() == before.processes@.len(),
            forall|other: int|
                0 <= other < before.processes@.len() && other != p ==> self.processes@[other]
                    == before.processes@[other],
            self.spec_process(p) == (ProcessControlBlock {
                children: self.spec_process(p).children,
                ..before.spec_process(p)
            }),
            self.spec_process(p).children@.no_duplicates(),
            forall|i: int|
                0 <= i < self.spec_process(p).children@.len() ==> {
                    &&& self.spec_live((#[trigger] self.spec_process(p).children@[i]) as int)
                    &&& self.spec_process(self.spec_process(p).children@[i] as int).parent == Some(
                        p as usize,
                    )
                    &&& self.spec_process(p).children@[i] != p
                },
            self.pid_allocator == before.pid_allocator,
            self.kstack_allocator == before.kstack_allocator,
            self.timers == before.timers,
            self.processor.current == before.processor.current,
            self.initproc == before.initproc,
        ensures
            self.wf(),
    {
        assert forall|other: usize|
            other < self.processes@.len() && (#[trigger] self.processes@[other as int])
                is Some implies self.pid_allocator.spec_allocated(other) by {
            assert(before.processes@[other as int] is Some);
        }
        assert forall|other: int| self.spec_live(other) implies (#[trigger] self.spec_process(
            other,
        )).wf() && self.spec_process(other).pid.0 == other by {
            assert(before.spec_live(other));
            assert(before.spec_process(other).wf());
        }
        assert(self.spec_tree_wf()) by {
            assert forall|q: int| self.spec_live(q) implies {
                &&& (#[trigger] self.spec_process(q)).children@.no_duplicates()
                &&& forall|i: int|
                    0 <= i < self.spec_process(q).children@.len() ==> {
                        &&& self.spec_live((#[trigger] self.spec_process(q).children@[i]) as int)
                        &&& self.spec_process(
                            self.spec_process(q).children@[i] as int,
                        ).parent == Some(q as usize)
                        &&& self.spec_process(q).children@[i] != q
                    }
            } by {
                if q != p {
                    assert(before.spec_live(q));
                    let before_q = before.spec_process(q);
                    assert forall|i: int| 0 <= i < self.spec_process(q).children@.len() implies {
                        &&& self.spec_live((#[trigger] self.spec_process(q).children@[i]) as int)
                        &&& self.spec_process(self.spec_process(q).children@[i] as int).parent
                            == Some(q as usize)
                        &&& self.spec_process(q).children@[i] != q
                    } by {
                        let c = before_q.children@[i] as int;
                        assert(before.spec_live(c));
                        assert(before.spec_process(c).parent == Some(q as usize));
                    }
                }
            }
        }
        if self.processor.current is Some {
            let t = self.processor.current->0;
            assert(before.spec_task_exists(t));
        }
    }

    /// Makes a child of the process of the running thread, which must have
    /// no other thread: a process with address space `memory_set`, a copy
    /// of that of the parent, with the open files of the parent, and with
    /// one thread, which is ready. The thread has its user stack where the
    /// thread of the parent has it and its trap context in page
    /// `trap_cx_ppn`, and it resumes at `trap_return`. Returns the id of
    /// the child and the top of the kernel stack of its thread.
    pub fn fork(&mut self, memory_set: usize, trap_cx_ppn: usize, trap_return: usize) -> (r: (
        usize,
        usize,
    ))
        requires
            old(self).wf(),
            old(self).spec_running(),
            old(self).spec_room(),
            old(self).spec_process(old(self).processor.current->0.pid as int).tasks@.len() == 1,
            old(self).spec_process(old(self).processor.current->0.pid as int).tasks@[0] is Some,
            old(self).spec_process(old(self).processor.current->0.pid as int).tasks@[0]->0.res
                is Some,
        ensures
            final(self).wf(),
            !old(self).spec_live(r.0 as int),
            final(self).spec_live(r.0 as int),
            r.0 <= old(self).pid_allocator.spec_current(),
            forall|other: int|
                other != r.0 && other != old(self).processor.current->0.pid ==> final(self).spec_live(other) == old(self).spec_live(other) && (old(self).spec_live(other)
                    ==> final(self).spec_process(other) == old(self).spec_process(other)),
            final(self).spec_live(old(self).processor.current->0.pid as int),
            final(self).spec_process(old(self).processor.current->0.pid as int)
                == (ProcessControlBlock {
                children: final(self).spec_process(
                    old(self).processor.current->0.pid as int,
                ).children,
                ..old(self).spec_process(old(self).processor.current->0.pid as int)
            }),
            final(self).spec_process(old(self).processor.current->0.pid as int).children@ == old(self).spec_process(old(self).processor.current->0.pid as int).children@.push(r.0),
            ({
                let parent = old(self).spec_process(old(self).processor.current->0.pid as int);
                let child = final(self).spec_process(r.0 as int);
                &&& child.pid.0 == r.0
                &&& !child.is_zombie
                &&& child.memory_set == memory_set
                &&& child.parent == Some(old(self).processor.current->0.pid)
                &&& child.children@ == Seq::<usize>::empty()
                &&& child.exit_code == 0
                &&& child.fd_table@ == parent.fd_table@
                &&& child.signals.signals.bits == 0
                &&& child.tasks@.len() == 1
                &&& child.tasks@[0] is Some
                &&& child.tasks@[0]->0.process == r.0
                &&& child.tasks@[0]->0.res == Some(
                    TaskUserRes {
                        tid: 0,
                        ustack_base: parent.tasks@[0]->0.res->0.ustack_base,
                        process: r.0,
                    },
                )
                &&& child.tasks@[0]->0.trap_cx_ppn == trap_cx_ppn
                &&& child.tasks@[0]->0.task_cx.ra == trap_return
                &&& child.tasks@[0]->0.task_cx.sp == r.1
                &&& child.tasks@[0]->0.task_status == TaskStatus::Ready
                &&& child.tasks@[0]->0.exit_code is None
                &&& r.1 == spec_kernel_stack_position(child.tasks@[0]->0.kstack.0 as int).1
                &&& !old(self).kstack_allocator.spec_allocated(child.tasks@[0]->0.kstack.0)
            }),
            final(self).task_manager@ == old(self).task_manager@.push(TaskRef { pid: r.0, tid: 0 }),
            final(self).processor == old(self).processor,
            final(self).timers == old(self).timers,
            final(self).files@ == spec_retain_all(
                old(self).files@,
                old(self).spec_process(old(self).processor.current->0.pid as int).fd_table@,
                old(self).spec_process(
                    old(self).processor.current->0.pid as int,
                ).fd_table@.len() as int,
            ),
            final(self).pipes == old(self).pipes,
            final(self).initproc == old(self).initproc,
    {
        let parent_pid: usize = self.current_process();
        let ghost parent0 = self.spec_process(parent_pid as int);
        proof {
            assert(parent0.wf());
            assert(parent0.tasks@[0] is Some);
        }
        // a new pid and a new kernel stack
        let pid: usize = self.pid_alloc().0;
        proof {
            if old(self).pid_allocator.spec_recycled().len() > 0 {
                let recycled = old(self).pid_allocator.spec_recycled();
                assert(recycled[recycled.len() - 1] < old(self).pid_allocator.spec_current());
            }
        }
        assert(old(self).kstack_allocator.spec_current() < usize::MAX) by {
            assert((old(self).kstack_allocator.spec_current() + 1) * 0x3000 <= usize::MAX);
        }
        let kstack_id: usize = self.kstack_alloc().0;
        proof {
            assert(kstack_id <= old(self).kstack_allocator.spec_current());
            if kstack_id < old(self).kstack_allocator.spec_current() {
                assert(spec_kernel_stack_position(kstack_id as int).0 >= 0);
            }
            let mid = *self;
            assert(mid.wf()) by {
                assert forall|other: usize|
                    other < mid.processes@.len() && (#[trigger] mid.processes@[other as int])
                        is Some implies mid.pid_allocator.spec_allocated(other) by {
                    assert(old(self).pid_allocator.spec_allocated(other));
                }
                if mid.processor.current is Some {
                    assert(old(self).spec_task_exists(mid.processor.current->0));
                }
                mid.lemma_wf_parts(*old(self));
            }
            assert(!old(self).spec_live(pid as int)) by {
                if old(self).spec_live(pid as int) {
                    assert(old(self).processes@[pid as int] is Some);
                }
            }
        }
        let kstack = KernelStack(kstack_id);
        let kstack_top: usize = kstack.get_top();
        // the child, with the files of the parent
        let (mut child, ustack_base) = match &self.processes[parent_pid] {
            Some(parent) => {
                let ustack_base: usize = match parent.get_task(0).res {
                    Some(res) => res.ustack_base,
                    None => 0,
                };
                (parent.fork(PidHandle(pid), memory_set), ustack_base)
            },
            None => vstd::pervasive::unreached(),
        };
        // the main thread of the child, on the user stack of that of the
        // parent
        let tid: usize = child.alloc_tid();
        let res = TaskUserRes::new(pid, tid, ustack_base);
        let task = TaskControlBlock::new(pid, res, trap_cx_ppn, kstack, kstack_top, trap_return);
        child.tasks.push(Some(task));
        proof {
            assert(tid == 0);
            assert(child.tasks@ =~= seq![Some(task)]);
            assert(parent0.tasks@[0]->0.res->0.wf());
            assert(child.wf());
        }
        let ghost mid = *self;
        let mut shared: Vec<Option<usize>> = Vec::new();
        let fds: usize = child.fd_table.len();
        let mut fd: usize = 0;
        while fd < fds
            invariant
                fd <= fds,
                fds == child.fd_table@.len(),
                shared@ == child.fd_table@.subrange(0, fd as int),
            decreases fds - fd,
        {
            shared.push(child.fd_table[fd]);
            fd += 1;
            assert(shared@ =~= child.fd_table@.subrange(0, fd as int));
        }
        assert(child.fd_table@.subrange(0, fds as int) =~= child.fd_table@);
        self.install_process(child);
        // the child joins the children of the parent
        let ghost installed = *self;
        let mut parent: ProcessControlBlock = match self.processes[parent_pid].take() {
            Some(parent) => parent,
            None => vstd::pervasive::unreached(),
        };
        parent.children.push(pid);
        self.processes[parent_pid] = Some(parent);
        proof {
            let now = *self;
            assert(now.spec_process(parent_pid as int).children@ =~= parent0.children@.push(pid));
            assert(installed.spec_process(parent_pid as int) == parent0);
            assert(!parent0.children@.contains(pid)) by {
                if parent0.children@.contains(pid) {
                    let i = choose|i: int| 0 <= i < parent0.children@.len() && parent0.children@[i] == pid;
                    assert(old(self).spec_live(parent0.children@[i] as int));
                }
            }
            assert forall|i: int|
                0 <= i < now.spec_process(parent_pid as int).children@.len() implies {
                &&& now.spec_live((#[trigger] now.spec_process(parent_pid as int).children@[i]) as int)
                &&& now.spec_process(
                    now.spec_process(parent_pid as int).children@[i] as int,
                ).parent == Some(parent_pid)
                &&& now.spec_process(parent_pid as int).children@[i] != parent_pid
            } by {
                if i < parent0.children@.len() {
                    let c = parent0.children@[i] as int;
                    assert(old(self).spec_live(c));
                    assert(old(self).spec_process(c).parent == Some(parent_pid));
                    assert(c != pid);
                }
            }
            assert(now.spec_process(parent_pid as int).children@.no_duplicates()) by {
                let l = now.spec_process(parent_pid as int).children@;
                assert forall|i: int, j: int| 0 <= i < l.len() && 0 <= j < l.len() && i != j implies l[i]
                    != l[j] by {
                    if i < parent0.children@.len() && j < parent0.children@.len() {
                        assert(parent0.children@[i] != parent0.children@[j]);
                    } else if i < parent0.children@.len() {
                        assert(parent0.children@.contains(parent0.children@[i]));
                    } else if j < parent0.children@.len() {
                        assert(parent0.children@.contains(parent0.children@[j]));
                    }
                }
            }
            now.lemma_children_changed(installed, parent_pid as int);
        }
        self.add_task(TaskRef { pid, tid: 0 });
        self.retain_files(&shared);
        proof {
            assert forall|other: int| other != pid && other != parent_pid implies self.spec_live(
                other,
            ) == old(self).spec_live(other) && (old(self).spec_live(other) ==> self.spec_process(
                other,
            ) == old(self).spec_process(other)) by {
                assert(installed.spec_live(other) == mid.spec_live(other));
            }
        }
        (pid, kstack_top)
    }

    /// Hands kernel stack `id` back if it is handed out.
    pub fn release_kstack(&mut self, id: usize)
        requires
            old(self).wf(),
        ensures
            final(self).wf(),
            *final(self) == (Kernel {
                kstack_allocator: final(self).kstack_allocator,
                ..*old(self)
            }),
            !final(self).kstack_allocator.spec_allocated(id),
            forall|other: usize|
                other != id ==> final(self).kstack_allocator.spec_allocated(other) == old(self).kstack_allocator.spec_allocated(other),
    {
        if self.kstack_allocator.is_allocated(id) {
            self.kstack_allocator.dealloc(id);
        }
        proof {
            assert forall|other: usize|
                other < self.processes@.len() && (#[trigger] self.processes@[other as int])
                    is Some implies self.pid_allocator.spec_allocated(other) by {
                assert(old(self).processes@[other as int] is Some);
            }
            if self.processor.current is Some {
                assert(old(self).spec_task_exists(self.processor.current->0));
            }
            self.lemma_wf_parts(*old(self));
        }
    }

    /// Adds a thread to the process of the running thread. The new thread
    /// is ready: it has a thread id and a kernel stack of its own, its user
    /// stack above the base of that of the running thread, and its trap
    /// context in page `trap_cx_ppn`, and it resumes at `trap_return`.
    /// Returns the id of the thread and the top of its kernel stack.
    pub fn thread_create(&mut self, trap_cx_ppn: usize, trap_return: usize) -> (r: (usize, usize))
        requires
            old(self).wf(),
            old(self).spec_running(),
            old(self).spec_room(),
            old(self).spec_thread_room(),
        ensures
            final(self).wf(),
            final(self).processor == old(self).processor,
            final(self).task_manager@ == old(self).task_manager@.push(
                TaskRef { pid: old(self).processor.current->0.pid, tid: r.0 },
            ),
            final(self).processes@.len() == old(self).processes@.len(),
            forall|other: int|
                0 <= other < old(self).processes@.len() && other != old(self).processor.current->0.pid ==> final(self).processes@[other] == old(self).processes@[other],
            ({
                let pid = old(self).processor.current->0.pid;
                let before = old(self).spec_process(pid as int);
                let after = final(self).spec_process(pid as int);
                &&& final(self).spec_live(pid as int)
                &&& !before.task_res_allocator.spec_allocated(r.0)
                &&& after.task_res_allocator.spec_allocated(r.0)
                &&& after == (ProcessControlBlock {
                    tasks: after.tasks,
                    task_res_allocator: after.task_res_allocator,
                    ..before
                })
                &&& r.0 < after.tasks@.len()
                &&& after.tasks@.len() == (if r.0 < before.tasks@.len() {
                    before.tasks@.len() as int
                } else {
                    r.0 + 1
                })
                &&& forall|tid: int|
                    0 <= tid < after.tasks@.len() && tid != r.0 ==> after.tasks@[tid] == (if tid
                        < before.tasks@.len() {
                        before.tasks@[tid]
                    } else {
                        None
                    })
                &&& after.tasks@[r.0 as int] is Some
                &&& after.tasks@[r.0 as int]->0.process == pid
                &&& after.tasks@[r.0 as int]->0.res == Some(
                    TaskUserRes {
                        tid: r.0,
                        ustack_base: old(self).spec_task(
                            old(self).processor.current->0,
                        ).res->0.ustack_base,
                        process: pid,
                    },
                )
                &&& after.tasks@[r.0 as int]->0.trap_cx_ppn == trap_cx_ppn
                &&& after.tasks@[r.0 as int]->0.task_cx.ra == trap_return
                &&& after.tasks@[r.0 as int]->0.task_cx.sp == r.1
                &&& after.tasks@[r.0 as int]->0.task_status == TaskStatus::Ready
                &&& after.tasks@[r.0 as int]->0.exit_code is None
                &&& r.1 == spec_kernel_stack_position(after.tasks@[r.0 as int]->0.kstack.0 as int).1
            }),
    {
        let current: TaskRef = match self.current_task() {
            Some(task) => task,
            None => vstd::pervasive::unreached(),
        };
        let pid: usize = current.pid;
        let ghost before = self.spec_process(pid as int);
        proof {
            assert(before.wf());
        }
        assert(old(self).kstack_allocator.spec_current() < usize::MAX) by {
            assert((old(self).kstack_allocator.spec_current() + 1) * 0x3000 <= usize::MAX);
        }
        let kstack_id: usize = self.kstack_alloc().0;
        proof {
            assert(kstack_id <= old(self).kstack_allocator.spec_current());
            if kstack_id < old(self).kstack_allocator.spec_current() {
                assert(spec_kernel_stack_position(kstack_id as int).0 >= 0);
            }
        }
        let kstack = KernelStack(kstack_id);
        let kstack_top: usize = kstack.get_top();
        let mut process: ProcessControlBlock = match self.processes[pid].take() {
            Some(process) => process,
            None => vstd::pervasive::unreached(),
        };
        let ustack_base: usize = match process.get_task(current.tid).res {
            Some(res) => res.ustack_base,
            None => 0,
        };
        let tid: usize = process.alloc_tid();
        let res = TaskUserRes::new(pid, tid, ustack_base);
        let new_task = TaskControlBlock::new(
            pid,
            res,
            trap_cx_ppn,
            kstack,
            kstack_top,
            trap_return,
        );
        while process.tasks.len() <= tid
            invariant
                process == (ProcessControlBlock { tasks: process.tasks, ..process }),
                process.pid == before.pid,
                process.children == before.children,
                process.parent == before.parent,
                process.signals == before.signals,
                process.is_zombie == before.is_zombie,
                process.memory_set == before.memory_set,
                process.exit_code == before.exit_code,
                process.fd_table == before.fd_table,
                process.mutex_list == before.mutex_list,
                process.task_res_allocator.wf(),
                process.task_res_allocator.spec_allocated(tid),
                !before.task_res_allocator.spec_allocated(tid),
                forall|other: usize|
                    other != tid ==> process.task_res_allocator.spec_allocated(other)
                        == before.task_res_allocator.spec_allocated(other),
                before.tasks@.len() <= process.tasks@.len(),
                process.tasks@.len() <= tid + 1 || process.tasks@.len() == before.tasks@.len(),
                forall|k: int| 0 <= k < before.tasks@.len() ==> process.tasks@[k] == before.tasks@[k],
                forall|k: int|
                    before.tasks@.len() <= k < process.tasks@.len() ==> process.tasks@[k] is None,
            decreases tid + 1 - process.tasks@.len(),
        {
            process.tasks.push(None);
        }
        let ghost padded = process.tasks@;
        process.tasks[tid] = Some(new_task);
        proof {
            assert(res.wf()) by {
                assert(tid <= before.task_res_allocator.spec_current());
                assert(spec_ustack_bottom(ustack_base as int, tid as int) + USER_STACK_SIZE
                    <= usize::MAX);
                assert(spec_trap_cx_bottom(tid as int) >= 0) by {
                    assert(tid < 0x1000);
                }
            }
            assert forall|k: int|
                0 <= k < process.tasks@.len() && (#[trigger] process.tasks@[k]) is Some implies {
                &&& process.tasks@[k]->0.process == process.pid.0
                &&& process.tasks@[k]->0.res is Some ==> {
                    &&& process.tasks@[k]->0.res->0.wf()
                    &&& process.tasks@[k]->0.res->0.tid == k
                    &&& process.tasks@[k]->0.res->0.process == process.pid.0
                    &&& process.task_res_allocator.spec_allocated(k as usize)
                }
            } by {
                if k != tid {
                    assert(process.tasks@[k] == padded[k]);
                    assert(before.tasks@[k] is Some);
                }
            }
            assert(process.wf());
        }
        self.processes[pid] = Some(process);
        proof {
            let now = *self;
            assert(now.spec_task_exists(current)) by {
                assert(before.tasks@[current.tid as int] is Some);
                assert(before.task_res_allocator.spec_allocated(current.tid));
                assert(current.tid != tid);
            }
            assert forall|other: usize|
                other < now.processes@.len() && (#[trigger] now.processes@[other as int])
                    is Some implies now.pid_allocator.spec_allocated(other) by {
                assert(old(self).processes@[other as int] is Some);
            }
            assert forall|other: int| now.spec_live(other) implies (#[trigger] now.spec_process(
                other,
            )).wf() && now.spec_process(other).pid.0 == other by {
                if other != pid {
                    assert(old(self).spec_live(other));
                    assert(old(self).spec_process(other).wf());
                }
            }
            assert(now.spec_tree_wf()) by {
                assert forall|q: int| now.spec_live(q) implies {
                    &&& (#[trigger] now.spec_process(q)).children@.no_duplicates()
                    &&& forall|i: int|
                        0 <= i < now.spec_process(q).children@.len() ==> {
                            &&& now.spec_live((#[trigger] now.spec_process(q).children@[i]) as int)
                            &&& now.spec_process(
                                now.spec_process(q).children@[i] as int,
                            ).parent == Some(q as usize)
                            &&& now.spec_process(q).children@[i] != q
                        }
                } by {
                    assert(old(self).spec_live(q));
                    let before_q = old(self).spec_process(q);
                    assert(now.spec_process(q).children@ == before_q.children@);
                    assert forall|i: int| 0 <= i < now.spec_process(q).children@.len() implies {
                        &&& now.spec_live((#[trigger] now.spec_process(q).children@[i]) as int)
                        &&& now.spec_process(now.spec_process(q).children@[i] as int).parent
                            == Some(q as usize)
                        &&& now.spec_process(q).children@[i] != q
                    } by {
                        let c = before_q.children@[i] as int;
                        assert(old(self).spec_live(c));
                        assert(old(self).spec_process(c).parent == Some(q as usize));
                    }
                }
            }
        }
        self.add_task(TaskRef { pid, tid });
        (tid, kstack_top)
    }

    /// Makes process `init` the parent of process `child`, which no
    /// process lists as its child.
    pub fn adopt(&mut self, child: usize, init: usize)
        requires
            old(self).wf(),
            old(self).spec_live(child as int),
            old(self).spec_live(init as int),
            child != init,
            old(self).spec_process(child as int).parent is Some,
            old(self).spec_process(child as int).parent != Some(init),
            forall|q: int, i: int|
                old(self).spec_live(q) && 0 <= i < old(self).spec_process(q).children@.len()
                    ==> (#[trigger] old(self).spec_process(q).children@[i]) != child,
        ensures
            final(self).wf(),
            *final(self) == (Kernel { processes: final(self).processes, ..*old(self) }),
            final(self).processes@.len() == old(self).processes@.len(),
            forall|other: int|
                0 <= other < old(self).processes@.len() && other != child && other != init
                    ==> final(self).processes@[other] == old(self).processes@[other],
            final(self).spec_live(child as int),
            final(self).spec_live(init as int),
            final(self).spec_process(child as int) == (ProcessControlBlock {
                parent: Some(init),
                ..old(self).spec_process(child as int)
            }),
            final(self).spec_process(init as int) == (ProcessControlBlock {
                children: final(self).spec_process(init as int).children,
                ..old(self).spec_process(init as int)
            }),
            final(self).spec_process(init as int).children@ == old(self).spec_process(
                init as int,
            ).children@.push(child),
    {
        let mut orphan: ProcessControlBlock = match self.processes[child].take() {
            Some(process) => process,
            None => vstd::pervasive::unreached(),
        };
        orphan.parent = Some(init);
        self.processes[child] = Some(orphan);
        let mut parent: ProcessControlBlock = match self.processes[init].take() {
            Some(process) => process,
            None => vstd::pervasive::unreached(),
        };
        parent.children.push(child);
        self.processes[init] = Some(parent);
        proof {
            let now = *self;
            let init0 = old(self).spec_process(init as int);
            assert(now.spec_process(init as int).children@ =~= init0.children@.push(child));
            assert forall|other: usize|
                other < now.processes@.len() && (#[trigger] now.processes@[other as int])
                    is Some implies now.pid_allocator.spec_allocated(other) by {
                assert(old(self).processes@[other as int] is Some);
            }
            assert forall|other: int| now.spec_live(other) implies (#[trigger] now.spec_process(
                other,
            )).wf() && now.spec_process(other).pid.0 == other by {
                assert(old(self).spec_live(other));
                assert(old(self).spec_process(other).wf());
            }
            assert(now.spec_tree_wf()) by {
                assert forall|q: int| now.spec_live(q) implies {
                    &&& (#[trigger] now.spec_process(q)).children@.no_duplicates()
                    &&& forall|i: int|
                        0 <= i < now.spec_process(q).children@.len() ==> {
                            &&& now.spec_live((#[trigger] now.spec_process(q).children@[i]) as int)
                            &&& now.spec_process(
                                now.spec_process(q).children@[i] as int,
                            ).parent == Some(q as usize)
                            &&& now.spec_process(q).children@[i] != q
                        }
                } by {
                    assert(old(self).spec_live(q));
                    let before_q = old(self).spec_process(q);
                    let l = now.spec_process(q).children@;
                    if q == init {
                        assert forall|i: int, j: int|
                            0 <= i < l.len() && 0 <= j < l.len() && i != j implies l[i] != l[j] by {
                            if i < init0.children@.len() && j < init0.children@.len() {
                                assert(init0.children@[i] != init0.children@[j]);
                            } else if i < init0.children@.len() {
                                assert(init0.children@[i] != child);
                            } else if j < init0.children@.len() {
                                assert(init0.children@[j] != child);
                            }
                        }
                    } else {
                        assert(l == before_q.children@);
                    }
                    assert forall|i: int| 0 <= i < l.len() implies {
                        &&& now.spec_live((#[trigger] l[i]) as int)
                        &&& now.spec_process(l[i] as int).parent == Some(q as usize)
                        &&& l[i] != q
                    } by {
                        if i < before_q.children@.len() {
                            let c = before_q.children@[i] as int;
                            assert(l[i] == before_q.children@[i]);
                            assert(old(self).spec_live(c));
                            assert(old(self).spec_process(c).parent == Some(q as usize));
                            assert(before_q.children@[i] != child);
                        }
                    }
                }
            }
            if now.processor.current is Some {
                let t = now.processor.current->0;
                assert(old(self).spec_task_exists(t));
            }
            if now.initproc is Some {
                let ip = now.initproc->0 as int;
                assert(old(self).spec_live(ip));
                assert(old(self).spec_process(ip).parent is None);
                assert(ip != child);
            }
        }
    }

    /// Ends the running thread, which has its resources, with `exit_code`.
    ///
    /// The thread keeps its place in its process and its exit code, for
    /// `waittid`, and gives up its thread id and its resources. If it is
    /// the main thread, thread 0, the process ends with it: the process
    /// becomes a zombie with this exit code, its children become children
    /// of the first process, and all its threads give up their resources.
    /// The first process itself must not end. The processor goes back to
    /// its idle loop; the registers of the thread are not kept.
    pub fn exit_current_and_run_next(&mut self, exit_code: i32) -> (actions: ExitActions)
        requires
            old(self).wf(),
            old(self).spec_running(),
            old(self).spec_task(old(self).processor.current->0).res is Some,
            old(self).processor.current->0.tid == 0 ==> old(self).initproc is Some && old(self).initproc->0 != old(self).processor.current->0.pid,
        ensures
            final(self).wf(),
            actions.pid == old(self).processor.current->0.pid,
            actions.switch == (Switch { from: ContextRef::Scratch, to: ContextRef::Idle }),
            actions.recycle_data_pages == (old(self).processor.current->0.tid == 0),
            final(self).processor == old(self).processor,
            final(self).task_manager == old(self).task_manager,
            final(self).pid_allocator == old(self).pid_allocator,
            final(self).kstack_allocator == old(self).kstack_allocator,
            final(self).timers == old(self).timers,
            final(self).files == old(self).files,
            final(self).pipes == old(self).pipes,
            final(self).initproc == old(self).initproc,
            final(self).processes@.len() == old(self).processes@.len(),
            ({
                let task = old(self).processor.current->0;
                let before = old(self).spec_process(task.pid as int);
                let after = final(self).spec_process(task.pid as int);
                let exited = Some(
                    TaskControlBlock {
                        exit_code: Some(exit_code),
                        res: None,
                        ..old(self).spec_task(task)
                    },
                );
                &&& final(self).spec_live(task.pid as int)
                &&& after.tasks@.len() == before.tasks@.len()
                &&& after.tasks@[task.tid as int] == exited
                &&& after.pid == before.pid
                &&& after.parent == before.parent
                &&& after.memory_set == before.memory_set
                &&& after.fd_table == before.fd_table
                &&& after.signals == before.signals
                &&& after.mutex_list == before.mutex_list
                &&& task.tid != 0 ==> {
                    &&& after.is_zombie == before.is_zombie
                    &&& after.exit_code == before.exit_code
                    &&& after.children == before.children
                    &&& after.tasks@ == before.tasks@.update(task.tid as int, exited)
                    &&& actions.unmap@ == seq![
                        (
                            spec_ustack_bottom(
                                old(self).spec_task(task).res->0.ustack_base as int,
                                task.tid as int,
                            ) as usize,
                            spec_trap_cx_bottom(task.tid as int) as usize,
                        ),
                    ]
                    &&& forall|other: int|
                        0 <= other < old(self).processes@.len() && other != task.pid ==> final(self).processes@[other] == old(self).processes@[other]
                }
                &&& task.tid == 0 ==> {
                    let init = old(self).initproc->0;
                    &&& after.is_zombie
                    &&& after.exit_code == exit_code
                    &&& after.children@ == Seq::<usize>::empty()
                    &&& forall|tid: int|
                        0 < tid < before.tasks@.len() ==> after.tasks@[tid] == (
                        match before.tasks@[tid] {
                            Some(thread) => Some(TaskControlBlock { res: None, ..thread }),
                            None => None,
                        })
                    &&& actions.unmap@ == seq![
                        (
                            spec_ustack_bottom(
                                old(self).spec_task(task).res->0.ustack_base as int,
                                0,
                            ) as usize,
                            spec_trap_cx_bottom(0) as usize,
                        ),
                    ] + spec_release_all(
                        before.tasks@.update(0, exited),
                        before.tasks@.len() as int,
                    )
                    &&& final(self).spec_live(init as int)
                    &&& final(self).spec_process(init as int).children@ == old(self).spec_process(
                        init as int,
                    ).children@ + before.children@
                    &&& final(self).spec_process(init as int) == (ProcessControlBlock {
                        children: final(self).spec_process(init as int).children,
                        ..old(self).spec_process(init as int)
                    })
                    &&& forall|i: int|
                        0 <= i < before.children@.len() ==> final(self).spec_process(
                            (#[trigger] before.children@[i]) as int,
                        ) == (ProcessControlBlock {
                            parent: Some(init),
                            ..old(self).spec_process(before.children@[i] as int)
                        })
                    &&& forall|other: int|
                        0 <= other < old(self).processes@.len() && other != task.pid && other
                            != init && !before.children@.contains(other as usize) ==> final(self).processes@[other] == old(self).processes@[other]
                }
            }),
    {
        let task: TaskRef = match self.current_task() {
            Some(task) => task,
            None => vstd::pervasive::unreached(),
        };
        let pid: usize = task.pid;
        let ghost before = self.spec_process(pid as int);
        let ghost exited = Some(
            TaskControlBlock { exit_code: Some(exit_code), res: None, ..self.spec_task(task) },
        );
        proof {
            assert(before.wf());
        }
        let mut process: ProcessControlBlock = match self.processes[pid].take() {
            Some(process) => process,
            None => vstd::pervasive::unreached(),
        };
        let mut unmap: Vec<(usize, usize)> = Vec::new();
        proof {
            assert(process.tasks@[task.tid as int]->0.res->0.tid == task.tid);
        }
        unmap.push(process.exit_thread(task.tid, exit_code));
        let mut orphans: Vec<usize> = Vec::new();
        if task.tid == 0 {
            process.is_zombie = true;
            process.exit_code = exit_code;
            let ghost first = unmap@;
            let mut more = process.release_threads();
            unmap.append(&mut more);
            proof {
                assert(unmap@ =~= first + spec_release_all(
                    before.tasks@.update(0, exited),
                    before.tasks@.len() as int,
                ));
            }
            // the children leave
            let n: usize = process.children.len();
            let mut i: usize = 0;
            while i < n
                invariant
                    i <= n,
                    n == process.children@.len(),
                    orphans@ == process.children@.subrange(0, i as int),
                decreases n - i,
            {
                orphans.push(process.children[i]);
                i += 1;
                assert(orphans@ =~= process.children@.subrange(0, i as int));
            }
            assert(process.children@.subrange(0, n as int) =~= process.children@);
            process.children.clear();
        }
        self.processes[pid] = Some(process);
        let ghost mid = *self;
        proof {
            assert(mid.spec_task_exists(task));
            assert forall|other: usize|
                other < mid.processes@.len() && (#[trigger] mid.processes@[other as int])
                    is Some implies mid.pid_allocator.spec_allocated(other) by {
                assert(old(self).processes@[other as int] is Some);
            }
            assert forall|other: int| mid.spec_live(other) implies (#[trigger] mid.spec_process(
                other,
            )).wf() && mid.spec_process(other).pid.0 == other by {
                if other != pid {
                    assert(old(self).spec_live(other));
                    assert(old(self).spec_process(other).wf());
                }
            }
            assert(mid.spec_tree_wf()) by {
                assert forall|q: int| mid.spec_live(q) implies {
                    &&& (#[trigger] mid.spec_process(q)).children@.no_duplicates()
                    &&& forall|i: int|
                        0 <= i < mid.spec_process(q).children@.len() ==> {
                            &&& mid.spec_live((#[trigger] mid.spec_process(q).children@[i]) as int)
                            &&& mid.spec_process(
                                mid.spec_process(q).children@[i] as int,
                            ).parent == Some(q as usize)
                            &&& mid.spec_process(q).children@[i] != q
                        }
                } by {
                    assert(old(self).spec_live(q));
                    let before_q = old(self).spec_process(q);
                    let l = mid.spec_process(q).children@;
                    assert forall|i: int| 0 <= i < l.len() implies {
                        &&& mid.spec_live((#[trigger] l[i]) as int)
                        &&& mid.spec_process(l[i] as int).parent == Some(q as usize)
                        &&& l[i] != q
                    } by {
                        assert(l == before_q.children@);
                        let c = before_q.children@[i] as int;
                        assert(old(self).spec_live(c));
                        assert(old(self).spec_process(c).parent == Some(q as usize));
                    }
                }
            }
            assert(mid.wf());
        }
        if task.tid == 0 {
            let init: usize = match self.initproc {
                Some(init) => init,
                None => vstd::pervasive::unreached(),
            };
            let ghost init0 = old(self).spec_process(init as int);
            let n: usize = orphans.len();
            let mut i: usize = 0;
            proof {
                assert(init0.children@ + before.children@.subrange(0, 0) =~= init0.children@);
            }
            while i < n
                invariant
                    i <= n,
                    n == orphans@.len(),
                    orphans@ == before.children@,
                    self.wf(),
                    before == old(self).spec_process(pid as int),
                    init0 == old(self).spec_process(init as int),
                    old(self).wf(),
                    old(self).spec_live(pid as int),
                    old(self).spec_live(init as int),
                    init != pid,
                    self.initproc == Some(init),
                    *self == (Kernel { processes: self.processes, ..mid }),
                    self.processes@.len() == mid.processes@.len(),
                    self.spec_live(pid as int),
                    self.spec_process(pid as int) == mid.spec_process(pid as int),
                    mid.spec_process(pid as int).children@ == Seq::<usize>::empty(),
                    self.spec_live(init as int),
                    self.spec_process(init as int) == (ProcessControlBlock {
                        children: self.spec_process(init as int).children,
                        ..init0
                    }),
                    self.spec_process(init as int).children@ == init0.children@
                        + before.children@.subrange(0, i as int),
                    forall|k: int|
                        0 <= k < i ==> self.spec_live((#[trigger] before.children@[k]) as int)
                            && self.spec_process(before.children@[k] as int)
                            == (ProcessControlBlock {
                            parent: Some(init),
                            ..old(self).spec_process(before.children@[k] as int)
                        }),
                    forall|k: int|
                        i <= k < n ==> self.spec_live((#[trigger] before.children@[k]) as int)
                            && self.spec_process(before.children@[k] as int) == old(self).spec_process(before.children@[k] as int),
                    forall|other: int|
                        0 <= other < mid.processes@.len() && other != pid && other != init
                            && !before.children@.contains(other as usize)
                            ==> self.processes@[other] == old(self).processes@[other],
                decreases n - i,
            {
                let child: usize = orphans[i];
                proof {
                    let c = before.children@[i as int];
                    assert(child == c);
                    assert(old(self).spec_live(c as int));
                    assert(old(self).spec_process(c as int).parent == Some(pid));
                    assert(c != pid);
                    assert(c != init) by {
                        assert(old(self).spec_process(init as int).parent is None);
                    }
                    assert forall|q: int, j: int|
                        self.spec_live(q) && 0 <= j < self.spec_process(
                            q,
                        ).children@.len() implies (#[trigger] self.spec_process(q).children@[j])
                        != child by {
                        if self.spec_process(q).children@[j] == child {
                            assert(self.spec_live(self.spec_process(q).children@[j] as int));
                            assert(self.spec_process(child as int).parent == Some(q as usize));
                            assert(q == pid);
                        }
                    }
                }
                let ghost step = *self;
                self.adopt(child, init);
                proof {
                    assert(self.spec_process(init as int).children@ =~= init0.children@
                        + before.children@.subrange(0, i + 1));
                    assert forall|k: int| 0 <= k < i + 1 implies self.spec_live(
                        (#[trigger] before.children@[k]) as int,
                    ) && self.spec_process(before.children@[k] as int) == (ProcessControlBlock {
                        parent: Some(init),
                        ..old(self).spec_process(before.children@[k] as int)
                    }) by {
                        if k < i {
                            assert(before.children@[k] != before.children@[i as int]);
                            assert(step.spec_live(before.children@[k] as int));
                            let ck = before.children@[k] as int;
                            assert(old(self).spec_live(ck));
                            assert(ck != init) by {
                                assert(old(self).spec_process(ck).parent == Some(pid));
                            }
                        }
                    }
                    assert forall|k: int| i + 1 <= k < n implies self.spec_live(
                        (#[trigger] before.children@[k]) as int,
                    ) && self.spec_process(before.children@[k] as int) == old(self).spec_process(
                        before.children@[k] as int,
                    ) by {
                        assert(before.children@[k] != before.children@[i as int]);
                        let ck = before.children@[k] as int;
                        assert(step.spec_live(ck));
                        assert(old(self).spec_live(ck));
                        assert(ck != init) by {
                            assert(old(self).spec_process(ck).parent == Some(pid));
                        }
                    }
                    assert forall|other: int|
                        0 <= other < mid.processes@.len() && other != pid && other != init
                            && !before.children@.contains(
                            other as usize,
                        ) implies self.processes@[other] == old(self).processes@[other] by {
                        assert(before.children@.contains(before.children@[i as int]));
                    }
                }
                i += 1;
            }
            proof {
                assert(before.children@.subrange(0, n as int) =~= before.children@);
            }
        }
        ExitActions {
            pid,
            unmap,
            recycle_data_pages: task.tid == 0,
            switch: self.schedule(ContextRef::Scratch),
        }
    }

    /// Is `id` the kernel stack of one of the threads `tasks`?
    pub open spec fn spec_stack_of(tasks: Seq<Option<TaskControlBlock>>, id: usize) -> bool {
        exists|tid: int|
            0 <= tid < tasks.len() && (#[trigger] tasks[tid]) is Some && tasks[tid]->0.kstack.0 == id
    }

    /// A kernel stack is one of the first `tid + 1` threads if it is one of
    /// the first `tid` or that of thread `tid`.
    pub proof fn lemma_stack_of_step(tasks: Seq<Option<TaskControlBlock>>, tid: int, k: usize)
        requires
            0 <= tid < tasks.len(),
        ensures
            Self::spec_stack_of(tasks.subrange(0, tid + 1), k) == (Self::spec_stack_of(
                tasks.subrange(0, tid),
                k,
            ) || (tasks[tid] is Some && tasks[tid]->0.kstack.0 == k)),
    {
        let done = tasks.subrange(0, tid);
        let next = tasks.subrange(0, tid + 1);
        if Self::spec_stack_of(done, k) {
            let t = choose|t: int|
                0 <= t < done.len() && (#[trigger] done[t]) is Some && done[t]->0.kstack.0 == k;
            assert(next[t] is Some && next[t]->0.kstack.0 == k);
        }
        if Self::spec_stack_of(next, k) {
            let t = choose|t: int|
                0 <= t < next.len() && (#[trigger] next[t]) is Some && next[t]->0.kstack.0 == k;
            if t < tid {
                assert(done[t] is Some && done[t]->0.kstack.0 == k);
            }
        }
        if tasks[tid] is Some && tasks[tid]->0.kstack.0 == k {
            assert(next[tid] is Some && next[tid]->0.kstack.0 == k);
        }
    }

    /// Looks for a child of the process of the running thread that has
    /// exited: for any child if `pid` is -1, else for the child with id
    /// `pid`.
    ///
    /// Without a child in question the answer is `NoChild`. If a child in
    /// question has exited, the first such child in the list of children
    /// is taken out of the list and out of the table of processes, its id
    /// and the kernel stacks of its threads are handed back, and the
    /// answer is its id and its exit code. Else the answer is `Running`.
    pub fn waitpid(&mut self, pid: isize) -> (outcome: WaitOutcome)
        requires
            old(self).wf(),
            old(self).spec_running(),
        ensures
            final(self).wf(),
            final(self).processor == old(self).processor,
            final(self).task_manager == old(self).task_manager,
            final(self).timers == old(self).timers,
            final(self).pipes == old(self).pipes,
            final(self).initproc == old(self).initproc,
            ({
                let parent = old(self).processor.current->0.pid;
                let children = old(self).spec_process(parent as int).children@;
                let any = spec_first_child(*old(self), children, pid, false, 0);
                let zombie = spec_first_child(*old(self), children, pid, true, 0);
                &&& any == children.len() ==> outcome == WaitOutcome::NoChild
                &&& any < children.len() && zombie == children.len() ==> outcome
                    == WaitOutcome::Running
                &&& zombie == children.len() ==> final(self).files == old(self).files
                &&& zombie < children.len() ==> final(self).files@ == spec_release_files(
                    old(self).files@,
                    old(self).spec_process(children[zombie] as int).fd_table@,
                    old(self).spec_process(children[zombie] as int).fd_table@.len() as int,
                )
                &&& zombie == children.len() ==> final(self).processes == old(self).processes
                    && final(self).pid_allocator == old(self).pid_allocator && final(self).kstack_allocator == old(self).kstack_allocator
                &&& zombie < children.len() ==> {
                    let child = children[zombie];
                    &&& 0 <= zombie
                    &&& outcome == WaitOutcome::Exited(
                        child,
                        old(self).spec_process(child as int).exit_code,
                    )
                    &&& !final(self).spec_live(child as int)
                    &&& !final(self).pid_allocator.spec_allocated(child)
                    &&& forall|other: usize|
                        other != child ==> final(self).pid_allocator.spec_allocated(other) == old(self).pid_allocator.spec_allocated(other)
                    &&& final(self).processes@.len() == old(self).processes@.len()
                    &&& final(self).spec_live(parent as int)
                    &&& final(self).spec_process(parent as int) == (ProcessControlBlock {
                        children: final(self).spec_process(parent as int).children,
                        ..old(self).spec_process(parent as int)
                    })
                    &&& final(self).spec_process(parent as int).children@ == children.remove(zombie)
                    &&& forall|other: int|
                        0 <= other < old(self).processes@.len() && other != parent && other
                            != child ==> final(self).processes@[other] == old(self).processes@[other]
                    &&& forall|k: usize|
                        final(self).kstack_allocator.spec_allocated(k) == (old(self).kstack_allocator.spec_allocated(k) && !Self::spec_stack_of(
                            old(self).spec_process(child as int).tasks@,
                            k,
                        ))
                }
            }),
    {
        let parent: usize = self.current_process();
        let ghost children = self.spec_process(parent as int).children@;
        let ghost before = *self;
        proof {
            assert(self.spec_process(parent as int).wf());
        }
        let n: usize = match &self.processes[parent] {
            Some(process) => process.children.len(),
            None => 0,
        };
        // is there a child in question at all?
        let mut any: usize = 0;
        let mut found: bool = false;
        while any < n && !found
            invariant
                any <= n,
                n == children.len(),
                *self == before,
                before == *old(self),
                self.wf(),
                self.spec_live(parent as int),
                children == self.spec_process(parent as int).children@,
                forall|i: int| 0 <= i < any ==> !spec_wanted(pid, children[i]),
                found ==> any < n && spec_wanted(pid, children[any as int]),
            decreases n - any + (if found {
                0int
            } else {
                1int
            }),
        {
            let child: usize = match &self.processes[parent] {
                Some(process) => process.children[any],
                None => 0,
            };
            if pid == -1 || (pid >= 0 && pid as usize == child) {
                found = true;
            } else {
                any += 1;
            }
        }
        proof {
            lemma_first_child(before, children, pid, false, 0, any as int);
        }
        if any == n {
            proof {
                lemma_first_child(before, children, pid, true, 0, n as int);
            }
            return WaitOutcome::NoChild;
        }
        // has one of them exited?
        let mut idx: usize = 0;
        let mut found: bool = false;
        while idx < n && !found
            invariant
                idx <= n,
                n == children.len(),
                *self == before,
                before == *old(self),
                self.wf(),
                self.spec_live(parent as int),
                children == self.spec_process(parent as int).children@,
                forall|i: int|
                    0 <= i < idx ==> !(spec_wanted(pid, children[i]) && before.spec_process(
                        children[i] as int,
                    ).is_zombie),
                found ==> idx < n && spec_wanted(pid, children[idx as int]) && before.spec_process(
                    children[idx as int] as int,
                ).is_zombie,
            decreases n - idx + (if found {
                0int
            } else {
                1int
            }),
        {
            let child: usize = match &self.processes[parent] {
                Some(process) => process.children[idx],
                None => 0,
            };
            proof {
                assert(self.spec_live(children[idx as int] as int));
            }
            let is_zombie: bool = match &self.processes[child] {
                Some(process) => process.is_zombie,
                None => false,
            };
            if is_zombie && (pid == -1 || (pid >= 0 && pid as usize == child)) {
                found = true;
            } else {
                idx += 1;
            }
        }
        proof {
            lemma_first_child(before, children, pid, true, 0, idx as int);
        }
        if idx == n {
            return WaitOutcome::Running;
        }
        // the child leaves the list of children and the table of processes
        let mut process: ProcessControlBlock = match self.processes[parent].take() {
            Some(process) => process,
            None => vstd::pervasive::unreached(),
        };
        let child_pid: usize = process.children.remove(idx);
        self.processes[parent] = Some(process);
        proof {
            assert(child_pid == children[idx as int]);
            assert(before.spec_live(child_pid as int));
            assert(before.spec_process(child_pid as int).parent == Some(parent));
            assert(child_pid != parent);
        }
        let child: ProcessControlBlock = match self.processes[child_pid].take() {
            Some(child) => child,
            None => vstd::pervasive::unreached(),
        };
        let exit_code: i32 = child.exit_code;
        proof {
            assert(before.pid_allocator.spec_allocated(child_pid)) by {
                assert(before.processes@[child_pid as int] is Some);
            }
        }
        self.pid_allocator.dealloc(child_pid);
        proof {
            let now = *self;
            let left = now.spec_process(parent as int).children@;
            assert(left =~= children.remove(idx as int));
            assert forall|other: usize|
                other < now.processes@.len() && (#[trigger] now.processes@[other as int])
                    is Some implies now.pid_allocator.spec_allocated(other) by {
                assert(before.processes@[other as int] is Some);
            }
            assert forall|other: int| now.spec_live(other) implies (#[trigger] now.spec_process(
                other,
            )).wf() && now.spec_process(other).pid.0 == other by {
                assert(before.spec_live(other));
                assert(before.spec_process(other).wf());
            }
            assert(now.spec_tree_wf()) by {
                assert forall|q: int| now.spec_live(q) implies {
                    &&& (#[trigger] now.spec_process(q)).children@.no_duplicates()
                    &&& forall|i: int|
                        0 <= i < now.spec_process(q).children@.len() ==> {
                            &&& now.spec_live((#[trigger] now.spec_process(q).children@[i]) as int)
                            &&& now.spec_process(
                                now.spec_process(q).children@[i] as int,
                            ).parent == Some(q as usize)
                            &&& now.spec_process(q).children@[i] != q
                        }
                } by {
                    assert(before.spec_live(q));
                    let before_q = before.spec_process(q);
                    let l = now.spec_process(q).children@;
                    if q == parent {
                        assert forall|i: int, j: int|
                            0 <= i < l.len() && 0 <= j < l.len() && i != j implies l[i] != l[j] by {
                            let a = if i < idx {
                                i
                            } else {
                                i + 1
                            };
                            let b = if j < idx {
                                j
                            } else {
                                j + 1
                            };
                            assert(children[a] != children[b]);
                        }
                    }
                    assert forall|i: int| 0 <= i < l.len() implies {
                        &&& now.spec_live((#[trigger] l[i]) as int)
                        &&& now.spec_process(l[i] as int).parent == Some(q as usize)
                        &&& l[i] != q
                    } by {
                        let a = if q == parent && i >= idx {
                            i + 1
                        } else {
                            i
                        };
                        assert(l[i] == before_q.children@[a]);
                        let c = before_q.children@[a] as int;
                        assert(before.spec_live(c));
                        assert(before.spec_process(c).parent == Some(q as usize));
                        if c == child_pid {
                            assert(q == parent);
                            assert(children[a] != children[idx as int]);
                        }
                    }
                }
            }
            if now.processor.current is Some {
                let t = now.processor.current->0;
                assert(before.spec_task_exists(t));
                assert(t.pid == parent);
            }
            if now.initproc is Some {
                let ip = now.initproc->0 as int;
                assert(before.spec_live(ip));
                assert(before.spec_process(ip).parent is None);
            }
            assert(now.wf());
        }
        // the kernel stacks of its threads
        let threads: usize = child.tasks.len();
        let mut tid: usize = 0;
        let ghost reaped = *self;
        proof {
            assert forall|k: usize|
                (#[trigger] self.kstack_allocator.spec_allocated(k))
                    == (before.kstack_allocator.spec_allocated(k) && !Self::spec_stack_of(
                    child.tasks@.subrange(0, 0),
                    k,
                )) by {}
        }
        while tid < threads
            invariant
                tid <= threads,
                threads == child.tasks@.len(),
                child.tasks@ == before.spec_process(child_pid as int).tasks@,
                self.wf(),
                *self == (Kernel { kstack_allocator: self.kstack_allocator, ..reaped }),
                forall|k: usize|
                    (#[trigger] self.kstack_allocator.spec_allocated(k))
                        == (before.kstack_allocator.spec_allocated(k) && !Self::spec_stack_of(
                        child.tasks@.subrange(0, tid as int),
                        k,
                    )),
                reaped.processes@.len() == before.processes@.len(),
                !reaped.spec_live(child_pid as int),
                reaped.spec_live(parent as int),
                reaped.spec_process(parent as int) == (ProcessControlBlock {
                    children: reaped.spec_process(parent as int).children,
                    ..before.spec_process(parent as int)
                }),
                reaped.spec_process(parent as int).children@ == children.remove(idx as int),
                forall|other: int|
                    0 <= other < before.processes@.len() && other != parent && other != child_pid
                        ==> reaped.processes@[other] == before.processes@[other],
                !reaped.pid_allocator.spec_allocated(child_pid),
                forall|other: usize|
                    other != child_pid ==> reaped.pid_allocator.spec_allocated(other)
                        == before.pid_allocator.spec_allocated(other),
                reaped.processor == before.processor,
                reaped.task_manager == before.task_manager,
                reaped.timers == before.timers,
                reaped.files == before.files,
                reaped.pipes == before.pipes,
                reaped.initproc == before.initproc,
                before == *old(self),
                exit_code == before.spec_process(child_pid as int).exit_code,
                child_pid == children[idx as int],
                idx == spec_first_child(before, children, pid, true, 0),
                idx < children.len(),
                children == before.spec_process(parent as int).children@,
                parent == before.processor.current->0.pid,
                spec_first_child(before, children, pid, false, 0) < children.len(),
            decreases threads - tid,
        {
            let ghost done = child.tasks@.subrange(0, tid as int);
            let ghost prev = self.kstack_allocator;
            match &child.tasks[tid] {
                Some(task) => {
                    self.release_kstack(task.kstack.0);
                },
                None => {},
            }
            proof {
                assert forall|k: usize|
                    (#[trigger] self.kstack_allocator.spec_allocated(k))
                        == (before.kstack_allocator.spec_allocated(k) && !Self::spec_stack_of(
                        child.tasks@.subrange(0, tid + 1),
                        k,
                    )) by {
                    Self::lemma_stack_of_step(child.tasks@, tid as int, k);
                    assert(prev.spec_allocated(k) == (before.kstack_allocator.spec_allocated(k)
                        && !Self::spec_stack_of(done, k)));
                }
            }
            tid += 1;
        }
        proof {
            assert(child.tasks@.subrange(0, threads as int) =~= child.tasks@);
        }
        // its files
        self.release_files(&child.fd_table);
        WaitOutcome::Exited(child_pid, exit_code)
    }

    /// Looks whether thread `tid` of the process of the running thread has
    /// exited, and returns its exit code if it has; the thread gives up
    /// its place then, and its kernel stack. Returns -1 if `tid` is the
    /// running thread or no thread, and -2 if the thread still runs.
    pub fn waittid(&mut self, tid: usize) -> (code: isize)
        requires
            old(self).wf(),
            old(self).spec_running(),
        ensures
            final(self).wf(),
            final(self).processor == old(self).processor,
            final(self).task_manager == old(self).task_manager,
            final(self).processes@.len() == old(self).processes@.len(),
            forall|other: int|
                0 <= other < old(self).processes@.len() && other != old(self).processor.current->0.pid ==> final(self).processes@[other] == old(self).processes@[other],
            ({
                let current = old(self).processor.current->0;
                let before = old(self).spec_process(current.pid as int);
                let after = final(self).spec_process(current.pid as int);
                let waited = before.tasks@[tid as int];
                &&& final(self).spec_live(current.pid as int)
                &&& (tid == current.tid || tid >= before.tasks@.len() || waited is None) ==> code
                    == -1 && *final(self) == *old(self)
                &&& tid != current.tid && tid < before.tasks@.len() && waited is Some
                    && waited->0.exit_code is None ==> code == -2 && *final(self) == *old(self)
                &&& tid != current.tid && tid < before.tasks@.len() && waited is Some
                    && waited->0.exit_code is Some ==> {
                    &&& code == waited->0.exit_code->0
                    &&& after == (ProcessControlBlock { tasks: after.tasks, ..before })
                    &&& after.tasks@ == before.tasks@.update(tid as int, None)
                    &&& !final(self).kstack_allocator.spec_allocated(waited->0.kstack.0)
                }
            }),
    {
        let current: TaskRef = match self.current_task() {
            Some(task) => task,
            None => vstd::pervasive::unreached(),
        };
        if current.tid == tid {
            return -1;
        }
        let pid: usize = current.pid;
        let exit_code: Option<i32> = match &self.processes[pid] {
            Some(process) => {
                if tid >= process.tasks.len() {
                    return -1;
                }
                match &process.tasks[tid] {
                    Some(task) => task.exit_code,
                    None => {
                        return -1;
                    },
                }
            },
            None => None,
        };
        match exit_code {
            Some(exit_code) => {
                let ghost before = self.spec_process(pid as int);
                let mut process: ProcessControlBlock = match self.processes[pid].take() {
                    Some(process) => process,
                    None => vstd::pervasive::unreached(),
                };
                let waited: Option<TaskControlBlock> = process.tasks[tid].take();
                self.processes[pid] = Some(process);
                proof {
                    let now = *self;
                    assert(now.spec_process(pid as int).tasks@ =~= before.tasks@.update(
                        tid as int,
                        None,
                    ));
                    assert(before.wf());
                    assert(now.spec_task_exists(current));
                    assert forall|other: usize|
                        other < now.processes@.len() && (#[trigger] now.processes@[other as int])
                            is Some implies now.pid_allocator.spec_allocated(other) by {
                        assert(old(self).processes@[other as int] is Some);
                    }
                    assert forall|other: int| now.spec_live(other) implies (
                    #[trigger] now.spec_process(other)).wf() && now.spec_process(other).pid.0
                        == other by {
                        assert(old(self).spec_live(other));
                        assert(old(self).spec_process(other).wf());
                        if other == pid {
                            let after = now.spec_process(pid as int);
                            assert forall|k: int|
                                0 <= k < after.tasks@.len() && (#[trigger] after.tasks@[k])
                                    is Some implies {
                                &&& after.tasks@[k]->0.process == after.pid.0
                                &&& after.tasks@[k]->0.res is Some ==> {
                                    &&& after.tasks@[k]->0.res->0.wf()
                                    &&& after.tasks@[k]->0.res->0.tid == k
                                    &&& after.tasks@[k]->0.res->0.process == after.pid.0
                                    &&& after.task_res_allocator.spec_allocated(k as usize)
                                }
                            } by {
                                assert(before.tasks@[k] is Some);
                            }
                        }
                    }
                    assert(now.spec_tree_wf()) by {
                        assert forall|q: int| now.spec_live(q) implies {
                            &&& (#[trigger] now.spec_process(q)).children@.no_duplicates()
                            &&& forall|i: int|
                                0 <= i < now.spec_process(q).children@.len() ==> {
                                    &&& now.spec_live(
                                        (#[trigger] now.spec_process(q).children@[i]) as int,
                                    )
                                    &&& now.spec_process(
                                        now.spec_process(q).children@[i] as int,
                                    ).parent == Some(q as usize)
                                    &&& now.spec_process(q).children@[i] != q
                                }
                        } by {
                            assert(old(self).spec_live(q));
                            let before_q = old(self).spec_process(q);
                            let l = now.spec_process(q).children@;
                            assert(l == before_q.children@);
                            assert forall|i: int| 0 <= i < l.len() implies {
                                &&& now.spec_live((#[trigger] l[i]) as int)
                                &&& now.spec_process(l[i] as int).parent == Some(q as usize)
                                &&& l[i] != q
                            } by {
                                let c = before_q.children@[i] as int;
                                assert(old(self).spec_live(c));
                                assert(old(self).spec_process(c).parent == Some(q as usize));
                            }
                        }
                    }
                }
                match waited {
                    Some(task) => {
                        self.release_kstack(task.kstack.0);
                    },
                    None => {},
                }
                exit_code as isize
            },
            None => -2,
        }
    }
}

} // verus!
