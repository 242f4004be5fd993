//! The process control block, and what `fork` and `exec` make of it.
use crate::config::USER_STACK_SIZE;
use crate::sync::{MutexBlocking, MutexSpin};
use crate::task::id::{spec_ustack_bottom, PidHandle, RecycleAllocator, TaskUserRes};
use crate::task::signal::{SignalState, TrapContext};
use crate::task::task::TaskControlBlock;
use vstd::prelude::*;
use vstd::string::StringSliceAdditionalSpecFns;
use vstd::utf8::encode_utf8;

verus! {

/// A mutex of a process, of one kind or the other.
pub enum MutexKind {
    Spin(MutexSpin),
    Blocking(MutexBlocking),
}

/// A process: its address space, its place in the tree of processes, its
/// open files, its threads and its mutexes.
pub struct ProcessControlBlock {
    pub pid: PidHandle,
    /// Has the main thread exited?
    pub is_zombie: bool,
    /// The token of the address space of the process.
    pub memory_set: usize,
    pub parent: Option<usize>,
    pub children: Vec<usize>,
    pub exit_code: i32,
    /// For each file descriptor the open file that it names, if any.
    pub fd_table: Vec<Option<usize>>,
    pub signals: SignalState,
    pub tasks: Vec<Option<TaskControlBlock>>,
    pub task_res_allocator: RecycleAllocator,
    pub mutex_list: Vec<Option<MutexKind>>,
}

/// The lowest number from `from` on that names no open file in `fd_table`,
/// or the length of `fd_table` if there is none.
pub open spec fn spec_free_fd(fd_table: Seq<Option<usize>>, from: int) -> int
    decreases fd_table.len() - from,
{
    if from >= fd_table.len() {
        fd_table.len() as int
    } else if fd_table[from] is None {
        from
    } else {
        spec_free_fd(fd_table, from + 1)
    }
}

/// What `spec_free_fd` finds.
pub proof fn lemma_free_fd(fd_table: Seq<Option<usize>>, from: int, at: int)
    requires
        0 <= from <= at <= fd_table.len(),
        forall|i: int| from <= i < at ==> fd_table[i] is Some,
        at < fd_table.len() ==> fd_table[at] is None,
    ensures
        spec_free_fd(fd_table, from) == at,
    decreases at - from,
{
    if from < at {
        lemma_free_fd(fd_table, from + 1, at);
    }
}

/// The descriptor that `spec_free_fd` finds names no open file.
pub proof fn lemma_free_fd_is_free(fd_table: Seq<Option<usize>>, from: int)
    requires
        0 <= from <= fd_table.len(),
    ensures
        from <= spec_free_fd(fd_table, from) <= fd_table.len(),
        spec_free_fd(fd_table, from) < fd_table.len() ==> fd_table[spec_free_fd(fd_table, from)]
            is None,
    decreases fd_table.len() - from,
{
    if from < fd_table.len() && fd_table[from] is Some {
        lemma_free_fd_is_free(fd_table, from + 1);
    }
}

/// The address at which argument `i` of `args` lies on a user stack whose
/// array of argument pointers starts at `argv_base`: the arguments lie
/// below the array, the first one highest, each followed by a zero byte.
pub open spec fn spec_arg_address(argv_base: int, args: Seq<String>, i: int) -> int
    decreases i + 1,
{
    if i < 0 {
        argv_base
    } else {
        spec_arg_address(argv_base, args, i - 1) - (encode_utf8(args[i]@).len() + 1)
    }
}

/// What `exec` puts on the user stack and where.
pub struct ExecLayout {
    /// The address of the array of argument pointers, which ends with a
    /// null pointer.
    pub argv_base: usize,
    /// The argument pointers: where each argument is to be copied to,
    /// followed by a zero byte.
    pub argv: Vec<usize>,
    /// The stack pointer of the program at its start.
    pub user_sp: usize,
}

/// Lays the arguments `args` out on the user stack that ends at
/// `ustack_top`: highest the array of pointers to the arguments, closed by
/// a null pointer; below it the arguments, the first one highest, each
/// closed by a zero byte; the stack pointer below them, at a multiple of 8.
pub fn exec_stack_layout(ustack_top: usize, args: &Vec<String>) -> (layout: ExecLayout)
    requires
        spec_arg_address(ustack_top - (args@.len() + 1) * 8, args@, args@.len() - 1) >= 0,
        (args@.len() + 1) * 8 <= ustack_top,
    ensures
        layout.argv_base == ustack_top - (args@.len() + 1) * 8,
        layout.argv@.len() == args@.len() + 1,
        layout.argv@[args@.len() as int] == 0,
        forall|i: int|
            0 <= i < args@.len() ==> layout.argv@[i] == spec_arg_address(
                layout.argv_base as int,
                args@,
                i,
            ),
        layout.user_sp == spec_arg_address(layout.argv_base as int, args@, args@.len() - 1)
            - spec_arg_address(layout.argv_base as int, args@, args@.len() - 1) % 8,
{
    let argc: usize = args.len();
    let argv_base: usize = ustack_top - (argc + 1) * 8;
    let mut user_sp: usize = argv_base;
    let mut argv: Vec<usize> = Vec::new();
    let mut i: usize = 0;
    proof {
        lemma_arg_address_decreases(argv_base as int, args@, argc - 1);
    }
    while i < argc
        invariant
            i <= argc,
            argc == args@.len(),
            argv@.len() == i,
            user_sp == spec_arg_address(argv_base as int, args@, i - 1),
            spec_arg_address(argv_base as int, args@, argc - 1) >= 0,
            forall|k: int|
                0 <= k < i ==> argv@[k] == spec_arg_address(argv_base as int, args@, k),
        decreases argc - i,
    {
        proof {
            lemma_arg_address_monotone(argv_base as int, args@, i as int, argc - 1);
        }
        let len: usize = args[i].as_str().len();
        user_sp -= len + 1;
        argv.push(user_sp);
        i += 1;
    }
    argv.push(0);
    // make the stack pointer a multiple of 8
    user_sp -= user_sp % 8;
    ExecLayout { argv_base, argv, user_sp }
}

/// Is there room for the arguments `args` on the user stack that ends at
/// `ustack_top`, as `exec_stack_layout` lays them out?
pub fn args_fit(ustack_top: usize, args: &Vec<String>) -> (fit: bool)
    ensures
        fit == ((args@.len() + 1) * 8 <= ustack_top && spec_arg_address(
            ustack_top - (args@.len() + 1) * 8,
            args@,
            args@.len() - 1,
        ) >= 0),
{
    let argc: usize = args.len();
    if argc >= ustack_top / 8 {
        return false;
    }
    let argv_base: usize = ustack_top - (argc + 1) * 8;
    let mut user_sp: usize = argv_base;
    let mut i: usize = 0;
    while i < argc
        invariant
            i <= argc,
            argc == args@.len(),
            (argc + 1) * 8 <= ustack_top,
            argv_base == ustack_top - (argc + 1) * 8,
            user_sp == spec_arg_address(argv_base as int, args@, i - 1),
        decreases argc - i,
    {
        proof {
            lemma_arg_address_monotone(argv_base as int, args@, i as int, argc - 1);
        }
        let len: usize = args[i].as_str().as_bytes().len();
        if len >= user_sp {
            return false;
        }
        user_sp -= len + 1;
        i += 1;
    }
    true
}

/// The arguments lie below the array of their pointers.
pub proof fn lemma_arg_address_decreases(argv_base: int, args: Seq<String>, i: int)
    requires
        -1 <= i,
    ensures
        spec_arg_address(argv_base, args, i) <= argv_base,
    decreases i + 1,
{
    if i >= 0 {
        lemma_arg_address_decreases(argv_base, args, i - 1);
    }
}

/// Later arguments lie below earlier ones.
pub proof fn lemma_arg_address_monotone(argv_base: int, args: Seq<String>, i: int, j: int)
    requires
        -1 <= i <= j,
    ensures
        spec_arg_address(argv_base, args, j) <= spec_arg_address(argv_base, args, i),
    decreases j - i,
{
    if i < j {
        lemma_arg_address_monotone(argv_base, args, i, j - 1);
    }
}

/// For each of the first `n` threads of `tasks` that has its resources, in
/// the order of their ids: the start of its user stack and the start of its
/// trap context.
pub open spec fn spec_release_all(tasks: Seq<Option<TaskControlBlock>>, n: int) -> Seq<
    (usize, usize),
>
    decreases n,
{
    if n <= 0 {
        Seq::empty()
    } else if tasks[n - 1] is Some && tasks[n - 1]->0.res is Some {
        spec_release_all(tasks, n - 1).push(
            (
                spec_ustack_bottom(tasks[n - 1]->0.res->0.ustack_base as int, n - 1) as usize,
                crate::task::id::spec_trap_cx_bottom(n - 1) as usize,
            ),
        )
    } else {
        spec_release_all(tasks, n - 1)
    }
}

impl ProcessControlBlock {
    /// The invariant of one process: its allocator of thread ids and its
    /// signal state are in order, its threads know their process, and a
    /// thread that has not exited holds the thread id of its place.
    pub open spec fn wf(&self) -> bool {
        &&& self.task_res_allocator.wf()
        &&& self.signals.wf()
        &&& forall|tid: int|
            0 <= tid < self.tasks@.len() && (#[trigger] self.tasks@[tid]) is Some ==> {
                &&& self.tasks@[tid]->0.process == self.pid.0
                &&& self.tasks@[tid]->0.res is Some ==> {
                    &&& self.tasks@[tid]->0.res->0.wf()
                    &&& self.tasks@[tid]->0.res->0.tid == tid
                    &&& self.tasks@[tid]->0.res->0.process == self.pid.0
                    &&& self.task_res_allocator.spec_allocated(tid as usize)
                }
            }
    }

    /// The token of the address space of the process.
    pub fn get_user_token(&self) -> (token: usize)
        ensures
            token == self.memory_set,
    {
        self.memory_set
    }

    /// The lowest file descriptor that names no open file. The table grows
    /// by one place if all its places are taken.
    pub fn alloc_fd(&mut self) -> (fd: usize)
        ensures
            fd == spec_free_fd(old(self).fd_table@, 0),
            final(self).fd_table@ == (if fd < old(self).fd_table@.len() {
                old(self).fd_table@
            } else {
                old(self).fd_table@.push(None)
            }),
            fd < final(self).fd_table@.len(),
            final(self).fd_table@[fd as int] is None,
            *final(self) == (ProcessControlBlock { fd_table: final(self).fd_table, ..*old(self) }),
    {
        let n: usize = self.fd_table.len();
        let mut fd: usize = 0;
        while fd < n
            invariant
                fd <= n,
                n == self.fd_table@.len(),
                *self == *old(self),
                forall|i: int| 0 <= i < fd ==> self.fd_table@[i] is Some,
            decreases n - fd,
        {
            if self.fd_table[fd].is_none() {
                proof {
                    lemma_free_fd(self.fd_table@, 0, fd as int);
                }
                return fd;
            }
            fd += 1;
        }
        proof {
            lemma_free_fd(self.fd_table@, 0, n as int);
        }
        self.fd_table.push(None);
        self.fd_table.len() - 1
    }

    /// Hands out a thread id.
    pub fn alloc_tid(&mut self) -> (tid: usize)
        requires
            old(self).task_res_allocator.wf(),
            old(self).task_res_allocator.spec_recycled().len() == 0 ==> old(self).task_res_allocator.spec_current() < usize::MAX,
        ensures
            final(self).task_res_allocator.wf(),
            !old(self).task_res_allocator.spec_allocated(tid),
            final(self).task_res_allocator.spec_allocated(tid),
            forall|other: usize|
                other != tid ==> final(self).task_res_allocator.spec_allocated(other) == old(self).task_res_allocator.spec_allocated(other),
            old(self).task_res_allocator.spec_recycled().len() > 0 ==> tid == old(self).task_res_allocator.spec_recycled().last(),
            old(self).task_res_allocator.spec_recycled().len() == 0 ==> tid == old(self).task_res_allocator.spec_current(),
            *final(self) == (ProcessControlBlock {
                task_res_allocator: final(self).task_res_allocator,
                ..*old(self)
            }),
    {
        self.task_res_allocator.allocate()
    }

    /// Takes the thread id `tid` back.
    pub fn dealloc_tid(&mut self, tid: usize)
        requires
            old(self).task_res_allocator.wf(),
            old(self).task_res_allocator.spec_allocated(tid),
        ensures
            final(self).task_res_allocator.wf(),
            !final(self).task_res_allocator.spec_allocated(tid),
            forall|other: usize|
                other != tid ==> final(self).task_res_allocator.spec_allocated(other) == old(self).task_res_allocator.spec_allocated(other),
            *final(self) == (ProcessControlBlock {
                task_res_allocator: final(self).task_res_allocator,
                ..*old(self)
            }),
    {
        self.task_res_allocator.dealloc(tid)
    }

    /// Thread `tid` of the process, which must exist.
    pub fn get_task(&self, tid: usize) -> (task: &TaskControlBlock)
        requires
            tid < self.tasks@.len(),
            self.tasks@[tid as int] is Some,
        ensures
            *task == self.tasks@[tid as int]->0,
    {
        match &self.tasks[tid] {
            Some(task) => task,
            None => vstd::pervasive::unreached(),
        }
    }

    /// Number of places in the table of threads of the process.
    pub fn thread_count(&self) -> (n: usize)
        ensures
            n == self.tasks@.len(),
    {
        self.tasks.len()
    }

    /// The id of the process.
    pub fn getpid(&self) -> (pid: usize)
        ensures
            pid == self.pid.0,
    {
        self.pid.0
    }

    /// A process with id `pid` and address space `memory_set`, without
    /// parent or children, with the console as files 0, 1 and 2, which are
    /// the open files `stdin`, `stdout` and `stdout` again, and without
    /// threads yet.
    pub fn new(pid: PidHandle, memory_set: usize, stdin: usize, stdout: usize) -> (process: Self)
        ensures
            process.wf(),
            process.pid == pid,
            !process.is_zombie,
            process.memory_set == memory_set,
            process.parent is None,
            process.children@ == Seq::<usize>::empty(),
            process.exit_code == 0,
            process.fd_table@ == seq![Some(stdin), Some(stdout), Some(stdout)],
            process.signals.signals.bits == 0,
            process.tasks@ == Seq::<Option<TaskControlBlock>>::empty(),
            process.task_res_allocator.spec_current() == 0,
            process.task_res_allocator.spec_recycled() == Seq::<usize>::empty(),
            process.mutex_list@ == Seq::<Option<MutexKind>>::empty(),
    {
        let mut fd_table: Vec<Option<usize>> = Vec::new();
        fd_table.push(Some(stdin));
        fd_table.push(Some(stdout));
        fd_table.push(Some(stdout));
        assert(fd_table@ =~= seq![Some(stdin), Some(stdout), Some(stdout)]);
        Self {
            pid,
            is_zombie: false,
            memory_set,
            parent: None,
            children: Vec::new(),
            exit_code: 0,
            fd_table,
            signals: SignalState::new(),
            tasks: Vec::new(),
            task_res_allocator: RecycleAllocator::new(),
            mutex_list: Vec::new(),
        }
    }

    /// The child that `fork` makes of this process: a process with id
    /// `pid` and address space `memory_set`, a copy of that of this
    /// process, with this process as parent, with the same open files under
    /// the same descriptors, and without children, signals, threads or
    /// mutexes of its own yet.
    pub fn fork(&self, pid: PidHandle, memory_set: usize) -> (child: Self)
        ensures
            child.wf(),
            child.pid == pid,
            !child.is_zombie,
            child.memory_set == memory_set,
            child.parent == Some(self.pid.0),
            child.children@ == Seq::<usize>::empty(),
            child.exit_code == 0,
            child.fd_table@ == self.fd_table@,
            child.signals.signals.bits == 0,
            child.tasks@ == Seq::<Option<TaskControlBlock>>::empty(),
            child.task_res_allocator.spec_current() == 0,
            child.task_res_allocator.spec_recycled() == Seq::<usize>::empty(),
            child.mutex_list@ == Seq::<Option<MutexKind>>::empty(),
    {
        let mut new_fd_table: Vec<Option<usize>> = Vec::new();
        let n: usize = self.fd_table.len();
        let mut fd: usize = 0;
        while fd < n
            invariant
                fd <= n,
                n == self.fd_table@.len(),
                new_fd_table@ == self.fd_table@.subrange(0, fd as int),
            decreases n - fd,
        {
            match self.fd_table[fd] {
                Some(file) => new_fd_table.push(Some(file)),
                None => new_fd_table.push(None),
            }
            fd += 1;
            assert(new_fd_table@ =~= self.fd_table@.subrange(0, fd as int));
        }
        assert(self.fd_table@.subrange(0, n as int) =~= self.fd_table@);
        Self {
            pid,
            is_zombie: false,
            memory_set,
            parent: Some(self.pid.0),
            children: Vec::new(),
            exit_code: 0,
            fd_table: new_fd_table,
            signals: SignalState::new(),
            tasks: Vec::new(),
            task_res_allocator: RecycleAllocator::new(),
            mutex_list: Vec::new(),
        }
    }

    /// Replaces the program of the process, which must have one thread
    /// only: the address space becomes `memory_set`, the user stacks start
    /// at `ustack_base`, and the trap context of the thread, in page
    /// `trap_cx_ppn`, becomes the returned one: the program starts at
    /// `entry_point` with the arguments `args` on its stack, their number
    /// in register 10 and the address of the array of their pointers in
    /// register 11.
    pub fn exec(
        &mut self,
        memory_set: usize,
        ustack_base: usize,
        entry_point: usize,
        trap_cx_ppn: usize,
        args: &Vec<String>,
        kernel_satp: usize,
        kernel_sp: usize,
        trap_handler: usize,
        sstatus: usize,
    ) -> (r: (ExecLayout, TrapContext))
        requires
            old(self).tasks@.len() == 1,
            old(self).tasks@[0] is Some,
            old(self).tasks@[0]->0.res is Some,
            spec_ustack_bottom(ustack_base as int, old(self).tasks@[0]->0.res->0.tid as int)
                + USER_STACK_SIZE <= usize::MAX,
            (args@.len() + 1) * 8 <= spec_ustack_bottom(
                ustack_base as int,
                old(self).tasks@[0]->0.res->0.tid as int,
            ) + USER_STACK_SIZE,
            spec_arg_address(
                spec_ustack_bottom(ustack_base as int, old(self).tasks@[0]->0.res->0.tid as int)
                    + USER_STACK_SIZE - (args@.len() + 1) * 8,
                args@,
                args@.len() - 1,
            ) >= 0,
        ensures
            *final(self) == (ProcessControlBlock {
                memory_set,
                tasks: final(self).tasks,
                ..*old(self)
            }),
            final(self).tasks@.len() == 1,
            final(self).tasks@[0] == Some(
                TaskControlBlock {
                    res: Some(TaskUserRes { ustack_base, ..old(self).tasks@[0]->0.res->0 }),
                    trap_cx_ppn,
                    ..old(self).tasks@[0]->0
                },
            ),
            r.0.argv_base == spec_ustack_bottom(
                ustack_base as int,
                old(self).tasks@[0]->0.res->0.tid as int,
            ) + USER_STACK_SIZE - (args@.len() + 1) * 8,
            r.0.argv@.len() == args@.len() + 1,
            r.0.argv@[args@.len() as int] == 0,
            forall|i: int|
                0 <= i < args@.len() ==> r.0.argv@[i] == spec_arg_address(
                    r.0.argv_base as int,
                    args@,
                    i,
                ),
            r.0.user_sp == spec_arg_address(r.0.argv_base as int, args@, args@.len() - 1)
                - spec_arg_address(r.0.argv_base as int, args@, args@.len() - 1) % 8,
            r.1.sepc == entry_point,
            r.1.sstatus == sstatus,
            r.1.kernel_satp == kernel_satp,
            r.1.kernel_sp == kernel_sp,
            r.1.trap_handler == trap_handler,
            forall|i: int|
                0 <= i < 32 ==> r.1.x[i] == (if i == 2 {
                    r.0.user_sp
                } else if i == 10 {
                    args@.len() as usize
                } else if i == 11 {
                    r.0.argv_base
                } else {
                    0usize
                }),
    {
        self.memory_set = memory_set;
        let task: TaskControlBlock = match self.tasks.pop() {
            Some(Some(task)) => task,
            _ => vstd::pervasive::unreached(),
        };
        let res: TaskUserRes = match task.res {
            Some(res) => res,
            None => vstd::pervasive::unreached(),
        };
        let new_res = TaskUserRes { ustack_base, ..res };
        let ustack_top: usize = new_res.ustack_top();
        let layout = exec_stack_layout(ustack_top, args);
        let mut trap_cx = TrapContext::app_init_context(
            entry_point,
            layout.user_sp,
            kernel_satp,
            kernel_sp,
            trap_handler,
            sstatus,
        );
        trap_cx.x[10] = args.len();
        trap_cx.x[11] = layout.argv_base;
        self.tasks.push(Some(TaskControlBlock { res: Some(new_res), trap_cx_ppn, ..task }));
        proof {
            assert(self.tasks@ =~= seq![
                Some(
                    TaskControlBlock {
                        res: Some(TaskUserRes { ustack_base, ..old(self).tasks@[0]->0.res->0 }),
                        trap_cx_ppn,
                        ..old(self).tasks@[0]->0
                    },
                ),
            ]);
        }
        (layout, trap_cx)
    }

    /// Lets thread `tid`, which has its resources, exit with `exit_code`:
    /// the thread keeps its place and its exit code, gives its thread id
    /// back and gives up its resources. Returns the start of its user
    /// stack and the start of its trap context, to be unmapped.
    pub fn exit_thread(&mut self, tid: usize, exit_code: i32) -> (areas: (usize, usize))
        requires
            old(self).wf(),
            tid < old(self).tasks@.len(),
            old(self).tasks@[tid as int] is Some,
            old(self).tasks@[tid as int]->0.res is Some,
        ensures
            final(self).wf(),
            *final(self) == (ProcessControlBlock {
                tasks: final(self).tasks,
                task_res_allocator: final(self).task_res_allocator,
                ..*old(self)
            }),
            final(self).tasks@ == old(self).tasks@.update(
                tid as int,
                Some(
                    TaskControlBlock {
                        exit_code: Some(exit_code),
                        res: None,
                        ..old(self).tasks@[tid as int]->0
                    },
                ),
            ),
            !final(self).task_res_allocator.spec_allocated(tid),
            forall|other: usize|
                other != tid ==> final(self).task_res_allocator.spec_allocated(other) == old(self).task_res_allocator.spec_allocated(other),
            areas.0 == spec_ustack_bottom(
                old(self).tasks@[tid as int]->0.res->0.ustack_base as int,
                tid as int,
            ),
            areas.1 == crate::task::id::spec_trap_cx_bottom(tid as int),
    {
        let mut thread: TaskControlBlock = match self.tasks[tid].take() {
            Some(thread) => thread,
            None => vstd::pervasive::unreached(),
        };
        let res: TaskUserRes = match thread.res {
            Some(res) => res,
            None => vstd::pervasive::unreached(),
        };
        thread.exit_code = Some(exit_code);
        thread.res = None;
        self.task_res_allocator.dealloc(res.tid);
        let areas = res.dealloc_user_res();
        self.tasks[tid] = Some(thread);
        proof {
            assert(self.tasks@ =~= old(self).tasks@.update(
                tid as int,
                Some(
                    TaskControlBlock {
                        exit_code: Some(exit_code),
                        res: None,
                        ..old(self).tasks@[tid as int]->0
                    },
                ),
            ));
            assert forall|k: int|
                0 <= k < self.tasks@.len() && (#[trigger] self.tasks@[k]) is Some implies {
                &&& self.tasks@[k]->0.process == self.pid.0
                &&& self.tasks@[k]->0.res is Some ==> {
                    &&& self.tasks@[k]->0.res->0.wf()
                    &&& self.tasks@[k]->0.res->0.tid == k
                    &&& self.tasks@[k]->0.res->0.process == self.pid.0
                    &&& self.task_res_allocator.spec_allocated(k as usize)
                }
            } by {
                assert(old(self).tasks@[k] is Some);
            }
        }
        areas
    }

    /// Lets all threads that still have their resources give them up, and
    /// returns, for each of them in the order of their ids, the start of
    /// its user stack and the start of its trap context, to be unmapped.
    pub fn release_threads(&mut self) -> (unmap: Vec<(usize, usize)>)
        requires
            old(self).wf(),
        ensures
            final(self).wf(),
            *final(self) == (ProcessControlBlock {
                tasks: final(self).tasks,
                task_res_allocator: final(self).task_res_allocator,
                ..*old(self)
            }),
            final(self).tasks@.len() == old(self).tasks@.len(),
            forall|tid: int|
                0 <= tid < old(self).tasks@.len() ==> final(self).tasks@[tid] == (match old(self).tasks@[tid] {
                    Some(task) => Some(TaskControlBlock { res: None, ..task }),
                    None => None,
                }),
            unmap@ == spec_release_all(old(self).tasks@, old(self).tasks@.len() as int),
    {
        let mut unmap: Vec<(usize, usize)> = Vec::new();
        let n: usize = self.tasks.len();
        let mut tid: usize = 0;
        while tid < n
            invariant
                tid <= n,
                n == self.tasks@.len(),
                n == old(self).tasks@.len(),
                self.wf(),
                *self == (ProcessControlBlock {
                    tasks: self.tasks,
                    task_res_allocator: self.task_res_allocator,
                    ..*old(self)
                }),
                forall|k: int|
                    0 <= k < tid ==> self.tasks@[k] == (match old(self).tasks@[k] {
                        Some(task) => Some(TaskControlBlock { res: None, ..task }),
                        None => None,
                    }),
                forall|k: int| tid <= k < n ==> self.tasks@[k] == old(self).tasks@[k],
                unmap@ == spec_release_all(old(self).tasks@, tid as int),
            decreases n - tid,
        {
            let has_res: bool = match &self.tasks[tid] {
                Some(task) => task.res.is_some(),
                None => false,
            };
            if has_res {
                let ghost before = self.tasks@;
                let mut thread: TaskControlBlock = match self.tasks[tid].take() {
                    Some(thread) => thread,
                    None => vstd::pervasive::unreached(),
                };
                let res: TaskUserRes = match thread.res {
                    Some(res) => res,
                    None => vstd::pervasive::unreached(),
                };
                thread.res = None;
                self.task_res_allocator.dealloc(res.tid);
                unmap.push(res.dealloc_user_res());
                self.tasks[tid] = Some(thread);
                proof {
                    assert forall|k: int|
                        0 <= k < self.tasks@.len() && (#[trigger] self.tasks@[k]) is Some implies {
                        &&& self.tasks@[k]->0.process == self.pid.0
                        &&& self.tasks@[k]->0.res is Some ==> {
                            &&& self.tasks@[k]->0.res->0.wf()
                            &&& self.tasks@[k]->0.res->0.tid == k
                            &&& self.tasks@[k]->0.res->0.process == self.pid.0
                            &&& self.task_res_allocator.spec_allocated(k as usize)
                        }
                    } by {
                        assert(before[k] is Some);
                    }
                }
            } else {
                proof {
                    let task = old(self).tasks@[tid as int];
                    if task is Some {
                        assert(Some(TaskControlBlock { res: None, ..task->0 }) == task);
                    }
                }
            }
            tid += 1;
        }
        unmap
    }
}

} // verus!
