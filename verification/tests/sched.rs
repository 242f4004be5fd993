use rcore_os::mm::UserBuffer;
use rcore_os::sync::{LockOutcome, Mutex, MutexBlocking, MutexSpin};
use rcore_os::task::context::TaskContext;
use rcore_os::task::id::PidHandle;
use rcore_os::task::manager::TaskManager;
use rcore_os::task::process::ProcessControlBlock;
use rcore_os::task::task::{TaskRef, TaskStatus};
use rcore_os::timer::{get_time_ms, next_trigger, TimerCondVar, Timers};
use rcore_os::kernel::Kernel;

fn task(pid: usize, tid: usize) -> TaskRef {
    TaskRef { pid, tid }
}

#[test]
fn the_ready_queue_is_first_in_first_out() {
    let mut manager = TaskManager::new();
    assert_eq!(manager.fetch(), None);
    for tid in 0..5 {
        manager.add(task(1, tid));
    }
    assert_eq!(manager.len(), 5);
    // the thread that yields comes back after the four that were ready
    let first = manager.fetch().unwrap();
    manager.add(first);
    for tid in 1..5 {
        assert_eq!(manager.fetch(), Some(task(1, tid)));
    }
    assert_eq!(manager.fetch(), Some(first));
    assert_eq!(manager.fetch(), None);
}

#[test]
fn remove_takes_the_first_entry_of_a_thread() {
    let mut manager = TaskManager::new();
    manager.add(task(1, 0));
    manager.add(task(2, 0));
    manager.add(task(1, 0));
    manager.add(task(1, 1));
    manager.remove(task(1, 0));
    assert_eq!(manager.len(), 3);
    manager.remove(task(7, 7));
    assert_eq!(manager.fetch(), Some(task(2, 0)));
    assert_eq!(manager.fetch(), Some(task(1, 0)));
    assert_eq!(manager.fetch(), Some(task(1, 1)));
    assert_eq!(manager.fetch(), None);
}

#[test]
fn a_blocking_mutex_hands_over_in_the_order_of_arrival() {
    let mut mutex = MutexBlocking::new();
    assert!(!mutex.is_locked());
    assert_eq!(mutex.lock(task(0, 0)), LockOutcome::Acquired);
    assert!(mutex.is_locked());
    assert_eq!(mutex.lock(task(0, 3)), LockOutcome::Blocked);
    assert_eq!(mutex.lock(task(0, 1)), LockOutcome::Blocked);
    assert_eq!(mutex.lock(task(0, 2)), LockOutcome::Blocked);
    assert_eq!(mutex.unlock(), Some(task(0, 3)));
    assert!(mutex.is_locked());
    assert_eq!(mutex.lock(task(0, 0)), LockOutcome::Blocked);
    assert_eq!(mutex.unlock(), Some(task(0, 1)));
    assert_eq!(mutex.unlock(), Some(task(0, 2)));
    assert_eq!(mutex.unlock(), Some(task(0, 0)));
    assert!(mutex.is_locked());
    assert_eq!(mutex.unlock(), None);
    assert!(!mutex.is_locked());
    assert_eq!(mutex.lock(task(0, 5)), LockOutcome::Acquired);
}

#[test]
fn a_spinning_mutex_keeps_no_queue() {
    let mut mutex = MutexSpin::new();
    assert_eq!(mutex.lock(task(0, 0)), LockOutcome::Acquired);
    assert_eq!(mutex.lock(task(0, 1)), LockOutcome::Retry);
    assert_eq!(mutex.lock(task(0, 1)), LockOutcome::Retry);
    assert!(mutex.is_locked());
    assert_eq!(mutex.unlock(), None);
    assert!(!mutex.is_locked());
    assert_eq!(mutex.lock(task(0, 1)), LockOutcome::Acquired);
}

#[test]
fn timers_wake_in_the_order_of_their_times() {
    let mut timers = Timers::new();
    timers.add_timer(300, task(1, 0));
    timers.add_timer(100, task(2, 0));
    timers.add_timer(200, task(3, 0));
    timers.add_timer(100, task(4, 0));
    timers.add_timer(400, task(2, 0));
    assert_eq!(timers.check_timer(99), Vec::<TaskRef>::new());
    assert_eq!(timers.check_timer(100), vec![task(2, 0), task(4, 0)]);
    assert_eq!(timers.check_timer(100), Vec::<TaskRef>::new());
    timers.remove_timer(task(3, 0));
    assert_eq!(timers.check_timer(350), vec![task(1, 0)]);
    timers.remove_timer(task(9, 9));
    assert_eq!(timers.check_timer(usize::MAX), vec![task(2, 0)]);
    assert_eq!(timers.check_timer(usize::MAX), Vec::<TaskRef>::new());
    let timer = TimerCondVar { expire_ms: 5, task: task(1, 1) };
    assert_eq!(timer, TimerCondVar { expire_ms: 5, task: task(1, 1) });
}

#[test]
fn the_kernel_makes_woken_threads_ready() {
    let mut kernel = Kernel::new();
    kernel.add_task(task(0, 0));
    kernel.add_timer(30, task(0, 3));
    kernel.add_timer(10, task(0, 1));
    kernel.add_timer(20, task(0, 2));
    kernel.add_timer(25, task(0, 4));
    kernel.remove_timer(task(0, 4));
    kernel.check_timer(5);
    assert_eq!(kernel.task_manager.len(), 1);
    kernel.check_timer(20);
    assert_eq!(kernel.fetch_task(), Some(task(0, 0)));
    assert_eq!(kernel.fetch_task(), Some(task(0, 1)));
    assert_eq!(kernel.fetch_task(), Some(task(0, 2)));
    assert_eq!(kernel.fetch_task(), None);
    kernel.check_timer(30);
    assert_eq!(kernel.fetch_task(), Some(task(0, 3)));
    kernel.check_timer(1000);
    assert_eq!(kernel.fetch_task(), None);
}

#[test]
fn ticks_become_milliseconds() {
    assert_eq!(get_time_ms(0), 0);
    assert_eq!(get_time_ms(12_500), 1);
    assert_eq!(get_time_ms(24_999), 1);
    assert_eq!(get_time_ms(125_000_000), 10_000);
    assert_eq!(next_trigger(0), 125_000);
    assert_eq!(next_trigger(7), 125_007);
}

#[test]
fn a_task_context_starts_in_the_return_from_a_trap() {
    let zero = TaskContext::zero_init();
    assert_eq!((zero.ra, zero.sp, zero.s), (0, 0, [0usize; 12]));
    let cx = TaskContext::goto_trap_return(0x9000, 0x8020_0000);
    assert_eq!((cx.ra, cx.sp, cx.s), (0x8020_0000, 0x9000, [0usize; 12]));
}

#[test]
fn a_user_buffer_is_its_pieces_in_a_row() {
    let mut buf = UserBuffer::new(vec![vec![1, 2, 3], Vec::new(), vec![4], vec![5, 6]]);
    assert_eq!(buf.len(), 6);
    assert_eq!(buf.to_vec(), vec![1, 2, 3, 4, 5, 6]);
    assert_eq!(buf.checked_len(6), Some(6));
    assert_eq!(buf.checked_len(5), None);
    buf.fill_from(&[9, 8, 7, 6, 5, 4]);
    assert_eq!(buf.buffers, vec![vec![9, 8, 7], Vec::new(), vec![6], vec![5, 4]]);
    let empty = UserBuffer::new(Vec::new());
    assert_eq!(empty.len(), 0);
    assert_eq!(empty.to_vec(), Vec::<u8>::new());
}

#[test]
fn descriptors_and_thread_ids_are_the_lowest_free_ones() {
    let mut process = ProcessControlBlock::new(PidHandle(3), 0x1000, 0, 1);
    assert_eq!(process.getpid(), 3);
    assert_eq!(process.get_user_token(), 0x1000);
    assert_eq!(process.fd_table, vec![Some(0), Some(1), Some(1)]);
    assert_eq!(process.alloc_fd(), 3);
    assert_eq!(process.alloc_fd(), 3);
    process.fd_table[3] = Some(8);
    process.fd_table[1] = None;
    assert_eq!(process.alloc_fd(), 1);
    process.fd_table[1] = Some(1);
    assert_eq!(process.alloc_fd(), 4);
    assert_eq!(process.fd_table.len(), 5);
    assert_eq!(process.alloc_tid(), 0);
    assert_eq!(process.alloc_tid(), 1);
    assert_eq!(process.alloc_tid(), 2);
    process.dealloc_tid(1);
    assert_eq!(process.alloc_tid(), 1);
    assert_eq!(process.thread_count(), 0);
    assert_eq!(TaskStatus::Ready, TaskStatus::Ready);
}
