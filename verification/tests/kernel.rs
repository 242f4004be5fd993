use rcore_os::block_dev::RamDisk;
use rcore_os::config::{KERNEL_STACK_SIZE, PAGE_SIZE, TRAMPOLINE, USER_STACK_SIZE};
use rcore_os::efs::EasyFileSystem;
use rcore_os::fs::{open_file, try_open_file, OpenFlags, CREATE, READ_WRITE, TRUNCATE, WRITE_ONLY};
use rcore_os::kernel::{ContextRef, File, Kernel, Switch};
use rcore_os::lifecycle::WaitOutcome;
use rcore_os::mm::UserBuffer;
use rcore_os::syscall::{
    load_program, sys_close, sys_dup, sys_exec, sys_exit, sys_fork, sys_get_time, sys_getpid,
    sys_gettid, sys_kill, sys_mutex_create, sys_mutex_lock, sys_mutex_unlock, sys_open, sys_pipe,
    sys_read, sys_sigaction, sys_sigprocmask, sys_sigreturn, sys_thread_create, sys_waitpid,
    sys_waittid, sys_write, sys_yield, MutexLock, SysIo,
};
use rcore_os::task::action::SignalAction;
use rcore_os::task::id::{
    kernel_stack_fits, kernel_stack_position, KernelStack, RecycleAllocator, TaskUserRes,
};
use rcore_os::task::process::{args_fit, exec_stack_layout};
use rcore_os::task::signal::SignalFlags;
use rcore_os::task::task::{TaskRef, TaskStatus};

const TRAP_RETURN: usize = 0x8020_0000;

fn task(pid: usize, tid: usize) -> TaskRef {
    TaskRef { pid, tid }
}

/// A kernel whose first process runs.
fn booted() -> Kernel {
    let mut kernel = Kernel::new();
    let (pid, _) = kernel.add_initproc(0x1000, 0x10000, 77, TRAP_RETURN);
    assert_eq!(pid, 0);
    assert_eq!(
        kernel.run_tasks(),
        Some(Switch { from: ContextRef::Idle, to: ContextRef::Task(task(0, 0)) })
    );
    kernel
}

/// Lets the running thread yield and runs the next one.
fn switch_to_next(kernel: &mut Kernel) -> TaskRef {
    sys_yield(kernel);
    kernel.run_tasks().unwrap();
    kernel.current_task().unwrap()
}

fn one_piece(bytes: &[u8]) -> UserBuffer {
    UserBuffer::new(vec![bytes.to_vec()])
}

#[test]
fn recycle_allocator_prefers_what_was_given_back() {
    let mut allocator = RecycleAllocator::new();
    assert_eq!(allocator.allocate(), 0);
    assert_eq!(allocator.allocate(), 1);
    assert_eq!(allocator.allocate(), 2);
    assert!(allocator.is_allocated(1));
    allocator.dealloc(1);
    assert!(!allocator.is_allocated(1));
    assert!(!allocator.is_allocated(3));
    allocator.dealloc(0);
    assert_eq!(allocator.allocate(), 0);
    assert_eq!(allocator.allocate(), 1);
    assert_eq!(allocator.allocate(), 3);
}

#[test]
fn stacks_lie_where_they_should() {
    let (bottom, top) = kernel_stack_position(0);
    assert_eq!(top, TRAMPOLINE);
    assert_eq!(bottom, TRAMPOLINE - KERNEL_STACK_SIZE);
    let (bottom, top) = kernel_stack_position(2);
    assert_eq!(top, TRAMPOLINE - 2 * (KERNEL_STACK_SIZE + PAGE_SIZE));
    assert_eq!(top - bottom, KERNEL_STACK_SIZE);
    assert_eq!(KernelStack(1).get_top(), TRAMPOLINE - KERNEL_STACK_SIZE - PAGE_SIZE);
    assert_eq!(KernelStack(1).push_on_top(16), TRAMPOLINE - KERNEL_STACK_SIZE - PAGE_SIZE - 16);
    let res = TaskUserRes::new(5, 2, 0x10000);
    assert_eq!(res.ustack_top(), 0x10000 + 2 * (USER_STACK_SIZE + PAGE_SIZE) + USER_STACK_SIZE);
    assert_eq!(res.trap_cx_va(), TRAMPOLINE - PAGE_SIZE - 2 * PAGE_SIZE);
    let (stack, trap_cx) = res.alloc_user_res();
    assert_eq!(stack.end - stack.start, USER_STACK_SIZE);
    assert_eq!(trap_cx.end - trap_cx.start, PAGE_SIZE);
    assert_eq!(res.dealloc_user_res(), (stack.start, trap_cx.start));
}

#[test]
fn time_is_in_milliseconds() {
    assert_eq!(sys_get_time(0), 0);
    assert_eq!(sys_get_time(12499), 0);
    assert_eq!(sys_get_time(12500), 1);
    assert_eq!(sys_get_time(12_500_000), 1000);
    assert_eq!(rcore_os::timer::next_trigger(1000), 126_000);
}

#[test]
fn the_first_process_runs_with_the_console_open() {
    let kernel = booted();
    assert_eq!(sys_getpid(&kernel), 0);
    assert_eq!(sys_gettid(&kernel), 0);
    assert_eq!(kernel.initproc, Some(0));
    assert_eq!(kernel.current_user_token(), 0x1000);
    assert_eq!(kernel.current_trap_cx(), 77);
    let process = kernel.processes[0].as_ref().unwrap();
    assert_eq!(process.fd_table, vec![Some(0), Some(1), Some(1)]);
    assert!(process.parent.is_none());
    let thread = process.tasks[0].as_ref().unwrap();
    assert_eq!(thread.task_status, TaskStatus::Running);
    assert_eq!(thread.task_cx.ra, TRAP_RETURN);
    assert_eq!(thread.task_cx.sp, TRAMPOLINE);
    assert_eq!(kernel.files[0].handles, 1);
    assert_eq!(kernel.files[1].handles, 2);
    assert_eq!(kernel.files[0].file, File::Stdin);
    assert_eq!(kernel.files[1].file, File::Stdout);
}

#[test]
fn a_thread_that_yields_runs_again_after_all_that_were_ready() {
    let mut kernel = booted();
    let (a, _) = sys_thread_create(&mut kernel, 1, TRAP_RETURN);
    let (b, _) = sys_thread_create(&mut kernel, 2, TRAP_RETURN);
    assert_eq!((a, b), (1, 2));
    // thread 0 yields: 1 and 2 were ready before it, so they run first
    let (code, switch) = sys_yield(&mut kernel);
    assert_eq!(code, 0);
    assert_eq!(switch, Switch { from: ContextRef::Task(task(0, 0)), to: ContextRef::Idle });
    assert!(kernel.current_task().is_none());
    kernel.run_tasks().unwrap();
    assert_eq!(kernel.current_task(), Some(task(0, 1)));
    assert_eq!(switch_to_next(&mut kernel), task(0, 2));
    assert_eq!(switch_to_next(&mut kernel), task(0, 0));
    assert_eq!(switch_to_next(&mut kernel), task(0, 1));
}

#[test]
fn the_idle_loop_finds_nothing_in_an_empty_queue() {
    let mut kernel = Kernel::new();
    assert_eq!(kernel.run_tasks(), None);
    // a thread that is gone is passed over
    kernel.add_task(task(9, 9));
    assert_eq!(kernel.run_tasks(), None);
    assert_eq!(kernel.task_manager.len(), 0);
    kernel.add_task(task(1, 0));
    kernel.add_task(task(2, 0));
    kernel.add_task(task(1, 0));
    kernel.remove_task(task(1, 0));
    assert_eq!(kernel.fetch_task(), Some(task(2, 0)));
    assert_eq!(kernel.fetch_task(), Some(task(1, 0)));
    assert_eq!(kernel.fetch_task(), None);
}

#[test]
fn fork_makes_a_child_with_the_files_of_the_parent() {
    let mut kernel = booted();
    let (child, kstack_top) = sys_fork(&mut kernel, 0x2000, 78, TRAP_RETURN);
    assert_eq!(child, 1);
    assert_eq!(kstack_top, TRAMPOLINE - (KERNEL_STACK_SIZE + PAGE_SIZE));
    let parent = kernel.processes[0].as_ref().unwrap();
    assert_eq!(parent.children, vec![1]);
    let process = kernel.processes[1].as_ref().unwrap();
    assert_eq!(process.parent, Some(0));
    assert_eq!(process.memory_set, 0x2000);
    assert_eq!(process.fd_table, vec![Some(0), Some(1), Some(1)]);
    assert!(!process.is_zombie);
    let thread = process.tasks[0].as_ref().unwrap();
    assert_eq!(thread.res, Some(TaskUserRes { tid: 0, ustack_base: 0x10000, process: 1 }));
    assert_eq!(thread.task_status, TaskStatus::Ready);
    assert_eq!(thread.trap_cx_ppn, 78);
    // the console has three more descriptors
    assert_eq!(kernel.files[0].handles, 2);
    assert_eq!(kernel.files[1].handles, 4);
    // the parent goes on running; the child is next
    assert_eq!(sys_getpid(&kernel), 0);
    assert_eq!(switch_to_next(&mut kernel), task(1, 0));
    assert_eq!(sys_getpid(&kernel), 1);
}

#[test]
fn waitpid_says_no_child_then_running_then_the_exit_code_once() {
    let mut kernel = booted();
    assert_eq!(sys_waitpid(&mut kernel, -1), (-1, None));
    assert_eq!(sys_waitpid(&mut kernel, 1), (-1, None));
    let (child, _) = sys_fork(&mut kernel, 0x2000, 78, TRAP_RETURN);
    assert_eq!(sys_waitpid(&mut kernel, 7), (-1, None));
    assert_eq!(sys_waitpid(&mut kernel, child), (-2, None));
    assert_eq!(sys_waitpid(&mut kernel, -1), (-2, None));
    // the child runs and exits
    assert_eq!(switch_to_next(&mut kernel), task(1, 0));
    let actions = sys_exit(&mut kernel, 42);
    assert_eq!(actions.pid, 1);
    assert!(actions.recycle_data_pages);
    assert_eq!(actions.switch, Switch { from: ContextRef::Scratch, to: ContextRef::Idle });
    assert_eq!(actions.unmap, vec![(0x10000, TRAMPOLINE - PAGE_SIZE)]);
    assert!(kernel.processes[1].as_ref().unwrap().is_zombie);
    // signals do not reach a zombie
    assert_eq!(sys_kill(&mut kernel, 1, 10), -1);
    // the parent runs again and collects the child, once
    kernel.run_tasks().unwrap();
    assert_eq!(sys_getpid(&kernel), 0);
    assert_eq!(sys_waitpid(&mut kernel, child), (1, Some(42)));
    assert!(kernel.processes[1].is_none());
    assert!(kernel.processes[0].as_ref().unwrap().children.is_empty());
    assert_eq!(sys_waitpid(&mut kernel, child), (-1, None));
    assert_eq!(kernel.files[1].handles, 2);
    // the id of the child is free again
    let (again, _) = sys_fork(&mut kernel, 0x3000, 79, TRAP_RETURN);
    assert_eq!(again, 1);
}

#[test]
fn waitpid_takes_the_first_zombie_among_the_children() {
    let mut kernel = booted();
    let (first, _) = sys_fork(&mut kernel, 0x2000, 78, TRAP_RETURN);
    let (second, _) = sys_fork(&mut kernel, 0x3000, 79, TRAP_RETURN);
    assert_eq!((first, second), (1, 2));
    assert_eq!(switch_to_next(&mut kernel), task(1, 0));
    assert_eq!(switch_to_next(&mut kernel), task(2, 0));
    sys_exit(&mut kernel, -9);
    kernel.run_tasks().unwrap();
    assert_eq!(sys_getpid(&kernel), 0);
    assert_eq!(kernel.waitpid(1), WaitOutcome::Running);
    assert_eq!(kernel.waitpid(-1), WaitOutcome::Exited(2, -9));
    assert_eq!(kernel.waitpid(-1), WaitOutcome::Running);
}

#[test]
fn orphans_go_to_the_first_process() {
    let mut kernel = booted();
    sys_fork(&mut kernel, 0x2000, 78, TRAP_RETURN);
    assert_eq!(switch_to_next(&mut kernel), task(1, 0));
    let (grandchild, _) = sys_fork(&mut kernel, 0x3000, 79, TRAP_RETURN);
    assert_eq!(grandchild, 2);
    sys_exit(&mut kernel, 0);
    assert_eq!(kernel.processes[0].as_ref().unwrap().children, vec![1, 2]);
    assert_eq!(kernel.processes[2].as_ref().unwrap().parent, Some(0));
    assert!(kernel.processes[1].as_ref().unwrap().children.is_empty());
}

#[test]
fn threads_exit_and_are_waited_for() {
    let mut kernel = booted();
    let (tid, _) = sys_thread_create(&mut kernel, 5, TRAP_RETURN);
    assert_eq!(tid, 1);
    assert_eq!(sys_waittid(&mut kernel, 0), -1);
    assert_eq!(sys_waittid(&mut kernel, 9), -1);
    assert_eq!(sys_waittid(&mut kernel, 1), -2);
    assert_eq!(switch_to_next(&mut kernel), task(0, 1));
    assert_eq!(sys_gettid(&kernel), 1);
    let actions = sys_exit(&mut kernel, 5);
    assert!(!actions.recycle_data_pages);
    assert_eq!(actions.unmap.len(), 1);
    assert!(!kernel.processes[0].as_ref().unwrap().is_zombie);
    kernel.run_tasks().unwrap();
    assert_eq!(kernel.current_task(), Some(task(0, 0)));
    assert_eq!(sys_waittid(&mut kernel, 1), 5);
    assert_eq!(sys_waittid(&mut kernel, 1), -1);
    // the thread id is handed out again
    assert_eq!(sys_thread_create(&mut kernel, 6, TRAP_RETURN).0, 1);
}

#[test]
fn exec_lays_the_arguments_out_on_the_stack() {
    let args = vec![String::from("ab"), String::from("cd")];
    let layout = exec_stack_layout(0x20000, &args);
    assert_eq!(layout.argv_base, 0x20000 - 3 * 8);
    assert_eq!(layout.argv, vec![0x20000 - 24 - 3, 0x20000 - 24 - 6, 0]);
    assert_eq!(layout.user_sp, (0x20000 - 24 - 6) / 8 * 8);
    let none = exec_stack_layout(0x20000, &Vec::new());
    assert_eq!(none.argv_base, 0x20000 - 8);
    assert_eq!(none.argv, vec![0]);
    assert_eq!(none.user_sp, 0x20000 - 8);

    let mut kernel = booted();
    let (argc, layout, trap_cx) =
        sys_exec(&mut kernel, 0x7000, 0x30000, 0x1040, 99, &args, 0x8000, 0x9000, 3);
    assert_eq!(argc, 2);
    let top = 0x30000 + USER_STACK_SIZE;
    assert_eq!(layout.argv_base, top - 24);
    assert_eq!(trap_cx.sepc, 0x1040);
    assert_eq!(trap_cx.x[2], layout.user_sp);
    assert_eq!(trap_cx.x[10], 2);
    assert_eq!(trap_cx.x[11], layout.argv_base);
    assert_eq!(trap_cx.kernel_sp, TRAMPOLINE);
    assert_eq!(trap_cx.kernel_satp, 0x8000);
    assert_eq!(trap_cx.trap_handler, 0x9000);
    assert_eq!(trap_cx.sstatus, 3);
    let process = kernel.processes[0].as_ref().unwrap();
    assert_eq!(process.memory_set, 0x7000);
    let thread = process.tasks[0].as_ref().unwrap();
    assert_eq!(thread.res.unwrap().ustack_base, 0x30000);
    assert_eq!(thread.trap_cx_ppn, 99);
}

#[test]
fn blocking_mutex_wakes_the_oldest_waiter() {
    let mut kernel = booted();
    sys_thread_create(&mut kernel, 1, TRAP_RETURN);
    sys_thread_create(&mut kernel, 2, TRAP_RETURN);
    assert_eq!(sys_mutex_create(&mut kernel, true), 0);
    assert_eq!(sys_mutex_lock(&mut kernel, 0), MutexLock::Acquired);
    // threads 1 and 2 find it held and block, in this order
    assert_eq!(switch_to_next(&mut kernel), task(0, 1));
    assert_eq!(
        sys_mutex_lock(&mut kernel, 0),
        MutexLock::Blocked(Switch { from: ContextRef::Task(task(0, 1)), to: ContextRef::Idle })
    );
    kernel.run_tasks().unwrap();
    assert_eq!(kernel.current_task(), Some(task(0, 2)));
    assert!(matches!(sys_mutex_lock(&mut kernel, 0), MutexLock::Blocked(_)));
    kernel.run_tasks().unwrap();
    assert_eq!(kernel.current_task(), Some(task(0, 0)));
    assert_eq!(kernel.task_manager.len(), 0);
    let status = |kernel: &Kernel, tid: usize| {
        kernel.processes[0].as_ref().unwrap().tasks[tid].as_ref().unwrap().task_status
    };
    assert_eq!(status(&kernel, 1), TaskStatus::Blocking);
    // unlock hands the mutex to thread 1, the next unlock to thread 2
    assert_eq!(sys_mutex_unlock(&mut kernel, 0), 0);
    assert_eq!(kernel.fetch_task(), Some(task(0, 1)));
    assert_eq!(sys_mutex_unlock(&mut kernel, 0), 0);
    assert_eq!(kernel.fetch_task(), Some(task(0, 2)));
    // nobody waits: the mutex is free, and unlocking it again is refused
    assert_eq!(sys_mutex_unlock(&mut kernel, 0), 0);
    assert_eq!(sys_mutex_unlock(&mut kernel, 0), -1);
    assert_eq!(sys_mutex_lock(&mut kernel, 0), MutexLock::Acquired);
}

#[test]
fn spinning_mutex_asks_to_try_again() {
    let mut kernel = booted();
    assert_eq!(sys_mutex_create(&mut kernel, false), 0);
    assert_eq!(sys_mutex_create(&mut kernel, true), 1);
    assert_eq!(sys_mutex_lock(&mut kernel, 0), MutexLock::Acquired);
    assert_eq!(
        sys_mutex_lock(&mut kernel, 0),
        MutexLock::Retry(Switch { from: ContextRef::Task(task(0, 0)), to: ContextRef::Idle })
    );
    // the thread stays ready
    kernel.run_tasks().unwrap();
    assert_eq!(kernel.current_task(), Some(task(0, 0)));
    assert_eq!(sys_mutex_unlock(&mut kernel, 0), 0);
    assert_eq!(sys_mutex_lock(&mut kernel, 0), MutexLock::Acquired);
}

#[test]
fn signals_are_sent_once_and_only_to_live_processes() {
    let mut kernel = booted();
    assert_eq!(sys_kill(&mut kernel, 0, 10), 0);
    assert_eq!(sys_kill(&mut kernel, 0, 10), -1);
    assert_eq!(sys_kill(&mut kernel, 0, 32), -1);
    assert_eq!(sys_kill(&mut kernel, 0, -1), -1);
    assert_eq!(sys_kill(&mut kernel, 3, 10), -1);
    assert_eq!(kernel.processes[0].as_ref().unwrap().signals.signals.bits, 1 << 10);
    assert_eq!(kernel.check_signals_error_of_current(), None);
    assert_eq!(sys_kill(&mut kernel, 0, 9), 0);
    assert_eq!(kernel.check_signals_error_of_current(), Some((-9, "Killed, SIGKILL=9")));
    kernel.current_add_signal(SignalFlags { bits: 1 << 2 });
    assert_eq!(kernel.check_signals_error_of_current(), Some((-2, "Killed, SIGINT=2")));
}

#[test]
fn handlers_are_installed_and_the_mask_is_set() {
    let mut kernel = booted();
    let action = SignalAction { handler: 0x4000, mask: SignalFlags { bits: 1 << 12 } };
    assert_eq!(sys_sigaction(&mut kernel, 9, action), (-1, None));
    assert_eq!(sys_sigaction(&mut kernel, 19, action), (-1, None));
    assert_eq!(sys_sigaction(&mut kernel, 32, action), (-1, None));
    assert_eq!(sys_sigaction(&mut kernel, -1, action), (-1, None));
    let (code, old) = sys_sigaction(&mut kernel, 10, action);
    assert_eq!(code, 0);
    assert_eq!(old, Some(SignalAction { handler: 0, mask: SignalFlags { bits: 40 } }));
    assert_eq!(sys_sigaction(&mut kernel, 10, SignalAction::default()), (0, Some(action)));
    assert_eq!(sys_sigprocmask(&mut kernel, 1 << 10), 0);
    assert_eq!(sys_sigprocmask(&mut kernel, 0), 1 << 10);
    assert_eq!(sys_sigreturn(&mut kernel).0, -1);
}

#[test]
fn open_read_write_through_descriptors() {
    let mut fs = EasyFileSystem::create(RamDisk::new(4096), 4096, 1);
    let mut kernel = booted();
    assert_eq!(sys_open(&mut kernel, &mut fs, "missing", 0), -1);
    assert_eq!(sys_open(&mut kernel, &mut fs, "f", 4), -1);
    let fd = sys_open(&mut kernel, &mut fs, "f", CREATE | WRITE_ONLY);
    assert_eq!(fd, 3);
    let buf = UserBuffer::new(vec![b"Hello, ".to_vec(), b"world!".to_vec()]);
    assert_eq!(sys_write(&mut kernel, &mut fs, 3, &buf, 0), SysIo::Done(13));
    // not open for reading
    let mut back = one_piece(&[0u8; 20]);
    assert_eq!(sys_read(&mut kernel, &mut fs, 3, &mut back, 0), SysIo::Done(-1));
    assert_eq!(sys_close(&mut kernel, 3), 0);
    assert_eq!(sys_close(&mut kernel, 3), -1);
    assert_eq!(sys_write(&mut kernel, &mut fs, 3, &buf, 0), SysIo::Done(-1));
    // read it back in two pieces, the cursor moves on
    assert_eq!(sys_open(&mut kernel, &mut fs, "f", 0), 3);
    let mut back = UserBuffer::new(vec![vec![0u8; 5], vec![0u8; 4]]);
    assert_eq!(sys_read(&mut kernel, &mut fs, 3, &mut back, 0), SysIo::Done(9));
    assert_eq!(back.buffers, vec![b"Hello".to_vec(), b", wo".to_vec()]);
    assert_eq!(sys_read(&mut kernel, &mut fs, 3, &mut back, 0), SysIo::Done(4));
    assert_eq!(back.buffers, vec![b"rld!o".to_vec(), b", wo".to_vec()]);
    assert_eq!(sys_read(&mut kernel, &mut fs, 3, &mut back, 0), SysIo::Done(0));
    // not open for writing
    assert_eq!(sys_write(&mut kernel, &mut fs, 3, &buf, 0), SysIo::Done(-1));
    // the console is left to the caller
    assert_eq!(sys_read(&mut kernel, &mut fs, 0, &mut back, 0), SysIo::Console);
    assert_eq!(sys_write(&mut kernel, &mut fs, 1, &buf, 0), SysIo::Console);
    assert_eq!(sys_write(&mut kernel, &mut fs, 0, &buf, 0), SysIo::Done(-1));
    assert_eq!(sys_read(&mut kernel, &mut fs, 2, &mut back, 0), SysIo::Done(-1));
    assert_eq!(sys_read(&mut kernel, &mut fs, 17, &mut back, 0), SysIo::Done(-1));
}

#[test]
fn dup_takes_the_lowest_free_descriptor_and_shares_the_cursor() {
    let mut fs = EasyFileSystem::create(RamDisk::new(4096), 4096, 1);
    let mut kernel = booted();
    assert_eq!(sys_open(&mut kernel, &mut fs, "f", CREATE | READ_WRITE), 3);
    sys_write(&mut kernel, &mut fs, 3, &one_piece(b"0123456789"), 0);
    assert_eq!(sys_close(&mut kernel, 0), 0);
    assert_eq!(sys_dup(&mut kernel, 3), 0);
    assert_eq!(sys_dup(&mut kernel, 9), -1);
    assert_eq!(sys_dup(&mut kernel, 3), 4);
    let file = kernel.processes[0].as_ref().unwrap().fd_table[3].unwrap();
    assert_eq!(kernel.files[file].handles, 3);
    // open the same file again to read: a cursor of its own
    assert_eq!(sys_open(&mut kernel, &mut fs, "f", 0), 5);
    let mut back = one_piece(&[0u8; 4]);
    assert_eq!(sys_read(&mut kernel, &mut fs, 5, &mut back, 0), SysIo::Done(4));
    assert_eq!(back.buffers[0], b"0123".to_vec());
    // the shared cursor is at the end
    assert_eq!(sys_read(&mut kernel, &mut fs, 0, &mut back, 0), SysIo::Done(0));
}

#[test]
fn open_flags_decide_what_may_be_done() {
    assert_eq!(OpenFlags::from_bits(0).unwrap().read_write(), (true, false));
    assert_eq!(OpenFlags::from_bits(WRITE_ONLY).unwrap().read_write(), (false, true));
    assert_eq!(OpenFlags::from_bits(READ_WRITE).unwrap().read_write(), (true, true));
    assert_eq!(OpenFlags::from_bits(CREATE).unwrap().read_write(), (true, true));
    assert_eq!(OpenFlags::from_bits(CREATE | WRITE_ONLY).unwrap().read_write(), (false, true));
    assert_eq!(OpenFlags::from_bits(WRITE_ONLY | READ_WRITE).unwrap().read_write(), (false, true));
    assert!(OpenFlags::from_bits(4).is_none());
    assert!(OpenFlags::from_bits(1 << 11).is_none());
    assert_eq!(OpenFlags::from_bits(1539).unwrap().bits(), 1539);
    assert!(OpenFlags::from_bits(0).unwrap().is_empty());
    assert!(OpenFlags { bits: CREATE | TRUNCATE }.contains(OpenFlags { bits: TRUNCATE }));
    assert!(!OpenFlags { bits: CREATE }.contains(OpenFlags { bits: TRUNCATE }));
}

#[test]
fn open_file_creates_empties_or_leaves() {
    let mut fs = EasyFileSystem::create(RamDisk::new(4096), 4096, 1);
    assert!(open_file(&mut fs, "f", OpenFlags { bits: 0 }).is_none());
    assert!(open_file(&mut fs, "f", OpenFlags { bits: TRUNCATE }).is_none());
    let mut file = open_file(&mut fs, "f", OpenFlags { bits: CREATE | WRITE_ONLY }).unwrap();
    assert!(file.writable() && !file.readable());
    assert_eq!(file.write(&mut fs, &one_piece(b"content")), 7);
    assert_eq!(file.offset, 7);
    // a plain open leaves the content
    let mut reader = open_file(&mut fs, "f", OpenFlags { bits: 0 }).unwrap();
    assert!(reader.readable() && !reader.writable());
    assert_eq!(reader.read_all(&mut fs), b"content".to_vec());
    assert_eq!(reader.read_all(&mut fs), Vec::<u8>::new());
    // create on a file that exists empties it
    let mut again = open_file(&mut fs, "f", OpenFlags { bits: CREATE }).unwrap();
    assert_eq!(again.read_all(&mut fs), Vec::<u8>::new());
    again.write(&mut fs, &one_piece(b"new"));
    // and so does truncate
    let mut cut = open_file(&mut fs, "f", OpenFlags { bits: TRUNCATE | READ_WRITE }).unwrap();
    assert_eq!(cut.read_all(&mut fs), Vec::<u8>::new());
    assert_eq!(fs.root_inode().ls(&mut fs), vec![String::from("f")]);
    assert_eq!(load_program(&mut fs, "f"), Some(Vec::new()));
    assert_eq!(load_program(&mut fs, "g"), None);
}

#[test]
fn a_file_that_cannot_be_created_is_not_opened() {
    let mut fs = EasyFileSystem::create(RamDisk::new(4096), 4096, 1);
    let long = "abcdefghijklmnopqrstuvwxyz01";
    assert_eq!(long.len(), 28);
    assert!(try_open_file(&mut fs, long, OpenFlags { bits: CREATE }).is_none());
    assert!(fs.root_inode().ls(&mut fs).is_empty());
    assert!(try_open_file(&mut fs, &long[..27], OpenFlags { bits: CREATE }).is_some());
}

#[test]
fn a_write_that_does_not_fit_is_refused() {
    // 1 super block, 1 inode bitmap, 1024 inode blocks, 1 data bitmap and
    // 5 data blocks, of which the root directory takes one
    let mut fs = EasyFileSystem::create(RamDisk::new(1032), 1032, 1);
    let mut kernel = booted();
    assert_eq!(sys_open(&mut kernel, &mut fs, "f", CREATE | READ_WRITE), 3);
    assert_eq!(fs.free_data_blocks(), 4);
    let too_much = UserBuffer::new(vec![vec![1u8; 4 * 512], vec![2u8; 1]]);
    assert_eq!(sys_write(&mut kernel, &mut fs, 3, &too_much, 0), SysIo::Done(-1));
    assert_eq!(fs.free_data_blocks(), 4);
    let fits = UserBuffer::new(vec![vec![1u8; 4 * 512]]);
    assert_eq!(sys_write(&mut kernel, &mut fs, 3, &fits, 0), SysIo::Done(2048));
    assert_eq!(fs.free_data_blocks(), 0);
    assert_eq!(sys_write(&mut kernel, &mut fs, 3, &one_piece(b"x"), 0), SysIo::Done(-1));
    // no inode is lost either
    assert_eq!(sys_open(&mut kernel, &mut fs, "g", CREATE), 4);
}

#[test]
fn bytes_go_through_a_pipe_in_order() {
    let mut fs = EasyFileSystem::create(RamDisk::new(2048), 2048, 1);
    let mut kernel = booted();
    let (code, read_fd, write_fd) = sys_pipe(&mut kernel);
    assert_eq!((code, read_fd, write_fd), (0, 3, 4));
    // the ends go one way only
    let mut back = one_piece(&[0u8; 8]);
    assert_eq!(sys_read(&mut kernel, &mut fs, 4, &mut back, 0), SysIo::Done(-1));
    assert_eq!(sys_write(&mut kernel, &mut fs, 3, &one_piece(b"x"), 0), SysIo::Done(-1));
    assert_eq!(sys_write(&mut kernel, &mut fs, 4, &one_piece(b"abcde"), 0), SysIo::Done(5));
    assert_eq!(sys_write(&mut kernel, &mut fs, 4, &one_piece(b"fgh"), 0), SysIo::Done(3));
    // a reader with less room than the pipe holds is served at once
    let mut back = UserBuffer::new(vec![vec![0u8; 2], vec![0u8; 4]]);
    assert_eq!(sys_read(&mut kernel, &mut fs, 3, &mut back, 0), SysIo::Done(6));
    assert_eq!(back.buffers, vec![b"ab".to_vec(), b"cdef".to_vec()]);
    // a reader with more room gets what there is and is asked to wait
    let mut back = one_piece(&[0u8; 8]);
    let waiting = Switch { from: ContextRef::Task(task(0, 0)), to: ContextRef::Idle };
    assert_eq!(sys_read(&mut kernel, &mut fs, 3, &mut back, 0), SysIo::Suspend(2, waiting));
    assert_eq!(&back.buffers[0][..2], b"gh");
    kernel.run_tasks().unwrap();
    assert_eq!(sys_write(&mut kernel, &mut fs, 4, &one_piece(b"ij"), 0), SysIo::Done(2));
    assert_eq!(sys_read(&mut kernel, &mut fs, 3, &mut back, 2), SysIo::Suspend(4, waiting));
    assert_eq!(&back.buffers[0][..4], b"ghij");
    kernel.run_tasks().unwrap();
    // when the write end is closed, the reader gets what it has and then 0
    assert_eq!(sys_close(&mut kernel, 4), 0);
    assert_eq!(sys_read(&mut kernel, &mut fs, 3, &mut back, 4), SysIo::Done(4));
    let mut back = one_piece(&[0u8; 8]);
    assert_eq!(sys_read(&mut kernel, &mut fs, 3, &mut back, 0), SysIo::Done(0));
}

#[test]
fn a_writer_waits_when_the_pipe_is_full() {
    let mut fs = EasyFileSystem::create(RamDisk::new(2048), 2048, 1);
    let mut kernel = booted();
    sys_pipe(&mut kernel);
    let data: Vec<u8> = (0..40u8).collect();
    let buf = one_piece(&data);
    let waiting = Switch { from: ContextRef::Task(task(0, 0)), to: ContextRef::Idle };
    assert_eq!(sys_write(&mut kernel, &mut fs, 4, &buf, 0), SysIo::Suspend(32, waiting));
    kernel.run_tasks().unwrap();
    // still full
    assert_eq!(sys_write(&mut kernel, &mut fs, 4, &buf, 32), SysIo::Suspend(32, waiting));
    kernel.run_tasks().unwrap();
    let mut back = one_piece(&[0u8; 10]);
    assert_eq!(sys_read(&mut kernel, &mut fs, 3, &mut back, 0), SysIo::Done(10));
    assert_eq!(back.buffers[0], (0..10u8).collect::<Vec<u8>>());
    assert_eq!(sys_write(&mut kernel, &mut fs, 4, &buf, 32), SysIo::Done(40));
    // a reader that empties the pipe looks once more before it returns
    let mut back = one_piece(&[0u8; 30]);
    assert_eq!(sys_read(&mut kernel, &mut fs, 3, &mut back, 0), SysIo::Suspend(30, waiting));
    assert_eq!(back.buffers[0], (10..40u8).collect::<Vec<u8>>());
    kernel.run_tasks().unwrap();
    assert_eq!(sys_close(&mut kernel, 4), 0);
    assert_eq!(sys_read(&mut kernel, &mut fs, 3, &mut back, 30), SysIo::Done(30));
}

#[test]
fn a_pipe_outlives_fork_until_every_write_end_is_closed() {
    let mut fs = EasyFileSystem::create(RamDisk::new(2048), 2048, 1);
    let mut kernel = booted();
    sys_pipe(&mut kernel);
    sys_fork(&mut kernel, 0x2000, 78, TRAP_RETURN);
    // the parent closes its write end; the child still has one
    assert_eq!(sys_close(&mut kernel, 4), 0);
    let mut back = one_piece(&[0u8; 4]);
    assert!(matches!(sys_read(&mut kernel, &mut fs, 3, &mut back, 0), SysIo::Suspend(0, _)));
    kernel.run_tasks().unwrap();
    assert_eq!(sys_getpid(&kernel), 1);
    assert_eq!(sys_write(&mut kernel, &mut fs, 4, &one_piece(b"hi"), 0), SysIo::Done(2));
    assert_eq!(sys_close(&mut kernel, 4), 0);
    assert_eq!(switch_to_next(&mut kernel), task(0, 0));
    assert_eq!(sys_read(&mut kernel, &mut fs, 3, &mut back, 0), SysIo::Done(2));
    assert_eq!(&back.buffers[0][..2], b"hi");
    assert_eq!(sys_read(&mut kernel, &mut fs, 3, &mut back, 0), SysIo::Done(0));
}

#[test]
fn cat_into_wc_counts_every_byte_of_the_file() {
    let size: usize = 1000;
    let content: Vec<u8> = (0..size).map(|i| (i % 251) as u8).collect();
    let mut fs = EasyFileSystem::create(RamDisk::new(4096), 4096, 1);
    let mut kernel = booted();
    // the shell: a file, a pipe, two children, and no pipe end of its own
    assert_eq!(sys_open(&mut kernel, &mut fs, "filea", CREATE | WRITE_ONLY), 3);
    assert_eq!(
        sys_write(&mut kernel, &mut fs, 3, &one_piece(&content), 0),
        SysIo::Done(size as isize)
    );
    assert_eq!(sys_close(&mut kernel, 3), 0);
    assert_eq!(sys_pipe(&mut kernel), (0, 3, 4));
    let (cat, _) = sys_fork(&mut kernel, 0x2000, 78, TRAP_RETURN);
    let (wc, _) = sys_fork(&mut kernel, 0x3000, 79, TRAP_RETURN);
    assert_eq!((cat, wc), (1, 2));
    assert_eq!(sys_close(&mut kernel, 3), 0);
    assert_eq!(sys_close(&mut kernel, 4), 0);
    sys_yield(&mut kernel);

    let mut cat_started = false;
    let mut cat_chunk: Option<(UserBuffer, usize)> = None;
    let mut wc_started = false;
    let mut wc_progress: usize = 0;
    let mut wc_seen: Vec<u8> = Vec::new();
    let mut reaped: Vec<(isize, Option<i32>)> = Vec::new();
    let mut turns = 0;
    while reaped.len() < 2 {
        turns += 1;
        assert!(turns < 10_000);
        kernel.run_tasks().unwrap();
        match sys_getpid(&kernel) {
            0 => {
                let r = sys_waitpid(&mut kernel, -1);
                assert_ne!(r.0, -1);
                if r.0 >= 0 {
                    reaped.push(r);
                }
                sys_yield(&mut kernel);
            }
            1 => {
                if !cat_started {
                    cat_started = true;
                    let args = vec![String::from("cat"), String::from("filea")];
                    let r = sys_exec(&mut kernel, 0x4000, 0x10000, 0x10, 80, &args, 1, 2, 3);
                    assert_eq!(r.0, 2);
                    assert_eq!(sys_close(&mut kernel, 3), 0);
                    assert_eq!(sys_open(&mut kernel, &mut fs, "filea", 0), 3);
                }
                loop {
                    if cat_chunk.is_none() {
                        let mut buf = UserBuffer::new(vec![vec![0u8; 30], vec![0u8; 40]]);
                        let n = match sys_read(&mut kernel, &mut fs, 3, &mut buf, 0) {
                            SysIo::Done(n) => n as usize,
                            other => panic!("{:?}", other),
                        };
                        if n == 0 {
                            sys_exit(&mut kernel, 0);
                            break;
                        }
                        cat_chunk = Some((one_piece(&buf.to_vec()[..n]), 0));
                    }
                    let (chunk, progress) = cat_chunk.take().unwrap();
                    match sys_write(&mut kernel, &mut fs, 4, &chunk, progress) {
                        SysIo::Done(n) => assert_eq!(n as usize, chunk.len()),
                        SysIo::Suspend(progress, _) => {
                            cat_chunk = Some((chunk, progress));
                            break;
                        }
                        SysIo::Console => panic!(),
                    }
                }
            }
            _ => {
                if !wc_started {
                    wc_started = true;
                    let args = vec![String::from("wc")];
                    sys_exec(&mut kernel, 0x5000, 0x10000, 0x10, 81, &args, 1, 2, 3);
                    assert_eq!(sys_close(&mut kernel, 4), 0);
                }
                loop {
                    let mut buf = one_piece(&[0u8; 16]);
                    // what an earlier turn has read is in the buffer of the
                    // program; here it is kept beside it
                    match sys_read(&mut kernel, &mut fs, 3, &mut buf, wc_progress) {
                        SysIo::Done(n) => {
                            let n = n as usize;
                            wc_seen.extend_from_slice(&buf.buffers[0][wc_progress..n]);
                            wc_progress = 0;
                            if n == 0 {
                                sys_exit(&mut kernel, wc_seen.len() as i32);
                                break;
                            }
                        }
                        SysIo::Suspend(progress, _) => {
                            wc_seen.extend_from_slice(&buf.buffers[0][wc_progress..progress]);
                            wc_progress = progress;
                            break;
                        }
                        SysIo::Console => panic!(),
                    }
                }
            }
        }
    }
    assert_eq!(wc_seen, content);
    reaped.sort();
    assert_eq!(reaped, vec![(1, Some(0)), (2, Some(size as i32))]);
    assert_eq!(sys_waitpid(&mut kernel, -1), (-1, None));
    // every descriptor of the pipe is closed
    let open: usize = kernel.files.iter().skip(2).map(|f| f.handles).sum();
    assert_eq!(open, 0);
}

#[test]
fn room_for_stacks_and_arguments_is_told_in_advance() {
    let kernel = booted();
    assert!(kernel.has_room());
    assert!(kernel.has_thread_room());
    assert_eq!(kernel.pid_allocator.current(), 1);
    assert_eq!(kernel.kstack_allocator.current(), 1);
    assert!(kernel_stack_fits(0));
    assert!(kernel_stack_fits(1000));
    let most = (TRAMPOLINE - KERNEL_STACK_SIZE) / (KERNEL_STACK_SIZE + PAGE_SIZE);
    assert!(kernel_stack_fits(most));
    assert!(!kernel_stack_fits(most + 1));
    assert!(!kernel_stack_fits(usize::MAX));
    // two arguments of two bytes: three pointers, and three bytes for each
    let args = vec![String::from("ab"), String::from("cd")];
    assert!(args_fit(0x20000, &args));
    assert!(args_fit(30, &args));
    assert!(!args_fit(29, &args));
    assert!(!args_fit(24, &args));
    assert!(!args_fit(0, &args));
    assert!(args_fit(8, &Vec::new()));
    assert!(!args_fit(7, &Vec::new()));
    // a process whose user stacks start too high has no room for a thread
    let mut kernel = Kernel::new();
    kernel.add_initproc(0x1000, usize::MAX - USER_STACK_SIZE - 0x2fff, 77, TRAP_RETURN);
    kernel.run_tasks().unwrap();
    assert!(!kernel.has_thread_room());
}
