use rcore_os::kernel::{ContextRef, Kernel, Switch};
use rcore_os::syscall::{
    sys_exit, sys_fork, sys_getpid, sys_kill, sys_sigaction, sys_sigprocmask, sys_sigreturn,
    sys_waitpid, sys_yield,
};
use rcore_os::task::action::{SignalAction, SignalActions};
use rcore_os::task::signal::{
    SignalFlags, SignalState, TrapContext, SIGCONT, SIGINT, SIGKILL, SIGSTOP, SIGUSR1, SIGUSR2,
};
use rcore_os::task::task::TaskRef;

const TRAP_RETURN: usize = 0x8020_0000;

fn user_context() -> TrapContext {
    let mut cx = TrapContext::app_init_context(0x1000, 0x7000, 1, 2, 3, 4);
    cx.x[10] = 55;
    cx
}

fn flags(sigs: &[usize]) -> SignalFlags {
    let mut set = SignalFlags::empty();
    for sig in sigs {
        set.set(*sig);
    }
    set
}

/// A kernel in which the first process has one child, and the child runs.
fn child_runs() -> Kernel {
    let mut kernel = Kernel::new();
    kernel.add_initproc(0x1000, 0x10000, 77, TRAP_RETURN);
    kernel.run_tasks().unwrap();
    assert_eq!(sys_fork(&mut kernel, 0x2000, 78, TRAP_RETURN).0, 1);
    sys_yield(&mut kernel);
    kernel.run_tasks().unwrap();
    assert_eq!(sys_getpid(&kernel), 1);
    kernel
}

fn back_to_parent(kernel: &mut Kernel) {
    kernel.run_tasks().unwrap();
    assert_eq!(sys_getpid(kernel), 0);
}

#[test]
fn bit_i_stands_for_signal_i() {
    for sig in 0..32usize {
        let one = SignalFlags::single(sig);
        assert_eq!(one.bits(), 1u32 << sig);
        assert!(one.has(sig));
        assert!(!one.has((sig + 1) % 32));
        assert!(!one.is_empty());
    }
    let mut set = SignalFlags::empty();
    assert!(set.is_empty());
    set.set(SIGUSR1);
    set.set(SIGINT);
    set.set(SIGUSR1);
    assert_eq!(set.bits(), (1 << 10) | (1 << 2));
    assert!(set.contains(flags(&[SIGINT])));
    assert!(set.contains(flags(&[SIGINT, SIGUSR1])));
    assert!(!set.contains(flags(&[SIGINT, SIGKILL])));
    set.clear(SIGINT);
    assert_eq!(set.bits(), 1 << 10);
    set.insert(flags(&[SIGKILL, SIGSTOP]));
    assert_eq!(set.bits(), (1 << 10) | (1 << 9) | (1 << 19));
    assert_eq!(SignalFlags::from_bits(0xffff_ffff), Some(SignalFlags { bits: 0xffff_ffff }));
}

#[test]
fn the_first_error_signal_is_reported() {
    assert_eq!(SignalFlags::empty().check_error(), None);
    assert_eq!(flags(&[2]).check_error(), Some((-2, "Killed, SIGINT=2")));
    assert_eq!(flags(&[4]).check_error(), Some((-4, "Illegal Instruction, SIGILL=4")));
    assert_eq!(flags(&[6]).check_error(), Some((-6, "Aborted, SIGABRT=6")));
    assert_eq!(
        flags(&[8]).check_error(),
        Some((-8, "Erroneous Arithmetic Operation, SIGFPE=8"))
    );
    assert_eq!(flags(&[9]).check_error(), Some((-9, "Killed, SIGKILL=9")));
    assert_eq!(flags(&[11]).check_error(), Some((-11, "Segmentation Fault, SIGSEGV=11")));
    assert_eq!(flags(&[11, 9, 4]).check_error(), Some((-4, "Illegal Instruction, SIGILL=4")));
    assert_eq!(flags(&[0, 1, 3, 5, 7, 10, 12, 18, 19, 31]).check_error(), None);
}

#[test]
fn no_handler_and_two_signals_masked_to_begin_with() {
    let action = SignalAction::default();
    assert_eq!(action.handler, 0);
    assert_eq!(action.mask.bits(), 40);
    let actions = SignalActions::default();
    assert!(actions.table.iter().all(|a| *a == action));
    let state = SignalState::new();
    assert!(state.signals.is_empty() && state.signal_mask.is_empty());
    assert_eq!(state.handling_sig, -1);
    assert!(!state.killed && !state.frozen);
    assert!(state.trap_ctx_backup.is_none());
}

#[test]
fn a_masked_signal_stays_pending_until_it_is_unmasked() {
    let mut state = SignalState::new();
    let mut cx = user_context();
    state.sigaction(SIGUSR1 as i32, SignalAction { handler: 0x4000, mask: SignalFlags::empty() });
    state.sigprocmask(1 << SIGUSR1);
    assert!(state.kill(SIGUSR1 as i32));
    for _ in 0..3 {
        state.check_pending_signals(&mut cx);
        assert!(state.signals.has(SIGUSR1));
        assert_eq!(state.handling_sig, -1);
        assert_eq!(cx.sepc, 0x1000);
    }
    assert_eq!(state.sigprocmask(0), 1 << SIGUSR1);
    state.check_pending_signals(&mut cx);
    assert!(!state.signals.has(SIGUSR1));
    assert_eq!(state.handling_sig, SIGUSR1 as isize);
    assert_eq!(cx.sepc, 0x4000);
}

#[test]
fn a_masked_kill_is_not_delivered_either() {
    let mut state = SignalState::new();
    let mut cx = user_context();
    state.sigprocmask(1 << SIGKILL);
    assert!(state.kill(SIGKILL as i32));
    state.check_pending_signals(&mut cx);
    assert!(!state.killed);
    assert!(state.signals.has(SIGKILL));
    state.sigprocmask(0);
    state.check_pending_signals(&mut cx);
    assert!(state.killed);
    // it stays pending, to be reported
    assert!(state.signals.has(SIGKILL));
}

#[test]
fn the_handler_is_entered_with_the_number_of_the_signal() {
    let mut state = SignalState::new();
    let mut cx = user_context();
    let action = SignalAction { handler: 0x4000, mask: flags(&[SIGUSR2]) };
    assert_eq!(state.sigaction(SIGUSR1 as i32, action), Some(SignalAction::default()));
    assert!(state.kill(SIGUSR1 as i32));
    assert!(!state.kill(SIGUSR1 as i32));
    assert!(!state.handle_signals(&mut cx, false));
    assert_eq!(cx.sepc, 0x4000);
    assert_eq!(cx.x[10], SIGUSR1);
    assert_eq!(cx.x[2], 0x7000);
    assert_eq!(state.handling_sig, 10);
    assert_eq!(state.signal_mask, flags(&[SIGUSR2]));
    assert!(state.signals.is_empty());
    let saved = state.trap_ctx_backup.unwrap();
    assert_eq!((saved.sepc, saved.x[10], saved.x[2]), (0x1000, 55, 0x7000));
    // it runs once: nothing is pending any more
    let mut in_handler = cx;
    in_handler.sepc = 0x4010;
    assert!(!state.handle_signals(&mut in_handler, false));
    assert_eq!(in_handler.sepc, 0x4010);
    // the end of the handler resumes where the signal arrived
    let restored = state.sigreturn().unwrap();
    assert_eq!((restored.sepc, restored.x[10], restored.x[2]), (0x1000, 55, 0x7000));
    assert_eq!(state.handling_sig, -1);
    assert!(state.trap_ctx_backup.is_none());
    assert!(state.sigreturn().is_none());
}

#[test]
fn a_signal_without_a_handler_is_left_alone() {
    let mut state = SignalState::new();
    let mut cx = user_context();
    assert!(state.kill(SIGUSR2 as i32));
    assert!(state.kill(SIGKILL as i32));
    state.check_pending_signals(&mut cx);
    // the kernel handles its own signal; the other one has no handler
    assert!(state.killed);
    assert!(state.signals.has(SIGUSR2));
    assert_eq!(state.handling_sig, -1);
    assert_eq!(cx.sepc, 0x1000);
    assert!(state.trap_ctx_backup.is_none());
}

#[test]
fn the_walk_stops_at_the_first_signal_of_the_process() {
    let mut state = SignalState::new();
    let mut cx = user_context();
    state.kill(SIGUSR1 as i32);
    state.kill(SIGSTOP as i32);
    state.check_pending_signals(&mut cx);
    // SIGSTOP comes after SIGUSR1 and is not reached
    assert!(!state.frozen);
    assert!(state.signals.has(SIGSTOP));
    let mut state = SignalState::new();
    state.kill(SIGKILL as i32);
    state.kill(SIGUSR1 as i32);
    state.check_pending_signals(&mut cx);
    assert!(state.killed);
}

#[test]
fn the_handler_that_runs_masks_the_signals_of_its_mask() {
    let mut state = SignalState::new();
    let mut cx = user_context();
    state.sigaction(10, SignalAction { handler: 0x4000, mask: flags(&[SIGUSR2, SIGKILL]) });
    state.sigaction(12, SignalAction { handler: 0x5000, mask: SignalFlags::empty() });
    state.sigaction(14, SignalAction { handler: 0x6000, mask: SignalFlags::empty() });
    state.kill(10);
    state.check_pending_signals(&mut cx);
    assert_eq!(cx.sepc, 0x4000);
    // the mask of the handler has taken the place of the mask of the
    // process: masked by both
    state.kill(12);
    state.kill(9);
    state.check_pending_signals(&mut cx);
    assert_eq!(cx.sepc, 0x4000);
    assert!(state.signals.has(12) && state.signals.has(9) && !state.killed);
    // masked only by the handler that runs
    state.sigprocmask(0);
    state.check_pending_signals(&mut cx);
    assert_eq!(cx.sepc, 0x4000);
    assert!(state.signals.has(12) && state.signals.has(9) && !state.killed);
    // a signal that it does not mask gets through
    state.kill(14);
    state.check_pending_signals(&mut cx);
    assert_eq!(cx.sepc, 0x6000);
    assert_eq!(cx.x[10], 14);
    assert_eq!(state.handling_sig, 14);
}

#[test]
fn a_stopped_thread_waits_until_it_may_continue() {
    let mut state = SignalState::new();
    let mut cx = user_context();
    state.kill(SIGSTOP as i32);
    assert!(state.handle_signals(&mut cx, false));
    assert!(state.frozen);
    assert!(!state.signals.has(SIGSTOP));
    assert!(state.handle_signals(&mut cx, true));
    assert!(state.handle_signals(&mut cx, true));
    // the signal to continue is seen by the walk of the round before
    state.kill(SIGCONT as i32);
    assert!(state.handle_signals(&mut cx, true));
    assert!(!state.frozen);
    assert!(!state.signals.has(SIGCONT));
    assert!(!state.handle_signals(&mut cx, true));
    // a stopped thread that is killed goes on, to its end
    state.kill(SIGSTOP as i32);
    assert!(state.handle_signals(&mut cx, false));
    state.kill(SIGKILL as i32);
    assert!(state.handle_signals(&mut cx, true));
    assert!(state.killed && state.frozen);
    assert!(!state.handle_signals(&mut cx, true));
}

#[test]
fn stop_and_continue_in_one_walk() {
    let mut state = SignalState::new();
    let mut cx = user_context();
    state.kill(SIGCONT as i32);
    state.kill(SIGSTOP as i32);
    state.check_pending_signals(&mut cx);
    assert!(state.frozen);
    assert!(state.signals.is_empty());
}

#[test]
fn a_killed_child_is_reaped_with_the_code_of_the_signal() {
    let mut kernel = child_runs();
    sys_yield(&mut kernel);
    back_to_parent(&mut kernel);
    assert_eq!(sys_kill(&mut kernel, 1, SIGKILL as i32), 0);
    assert_eq!(sys_waitpid(&mut kernel, 1), (-2, None));
    sys_yield(&mut kernel);
    kernel.run_tasks().unwrap();
    assert_eq!(sys_getpid(&kernel), 1);
    // on its way back to user mode the child finds the signal
    let mut cx = user_context();
    assert_eq!(kernel.handle_signals(&mut cx, false), None);
    assert!(kernel.processes[1].as_ref().unwrap().signals.killed);
    let (code, message) = kernel.check_signals_error_of_current().unwrap();
    assert_eq!((code, message), (-9, "Killed, SIGKILL=9"));
    sys_exit(&mut kernel, code);
    back_to_parent(&mut kernel);
    assert_eq!(sys_waitpid(&mut kernel, 1), (1, Some(-9)));
    assert_eq!(sys_waitpid(&mut kernel, 1), (-1, None));
}

#[test]
fn a_child_handles_a_signal_of_its_parent_once() {
    let mut kernel = child_runs();
    let action = SignalAction { handler: 0x4000, mask: SignalFlags::empty() };
    assert_eq!(sys_sigaction(&mut kernel, SIGUSR1 as i32, action).0, 0);
    sys_yield(&mut kernel);
    back_to_parent(&mut kernel);
    assert_eq!(sys_kill(&mut kernel, 1, SIGUSR1 as i32), 0);
    let mut parent_cx = user_context();
    assert_eq!(kernel.handle_signals(&mut parent_cx, false), None);
    assert_eq!(parent_cx.sepc, 0x1000);
    sys_yield(&mut kernel);
    kernel.run_tasks().unwrap();
    assert_eq!(sys_getpid(&kernel), 1);
    let mut cx = user_context();
    cx.sepc = 0x1234;
    assert_eq!(kernel.handle_signals(&mut cx, false), None);
    assert_eq!((cx.sepc, cx.x[10]), (0x4000, SIGUSR1));
    // in the handler: no second entry
    let mut in_handler = cx;
    assert_eq!(kernel.handle_signals(&mut in_handler, false), None);
    assert_eq!(in_handler.sepc, 0x4000);
    assert!(kernel.processes[1].as_ref().unwrap().signals.signals.is_empty());
    let (code, restored) = sys_sigreturn(&mut kernel);
    assert_eq!(code, 0);
    let restored = restored.unwrap();
    assert_eq!((restored.sepc, restored.x[10]), (0x1234, 55));
    assert_eq!(sys_sigreturn(&mut kernel).0, -1);
    assert_eq!(kernel.handle_signals(&mut cx, false), None);
}

#[test]
fn a_stopped_process_gives_up_the_processor() {
    let mut kernel = child_runs();
    assert_eq!(sys_kill(&mut kernel, 1, SIGSTOP as i32), 0);
    let mut cx = user_context();
    let me = TaskRef { pid: 1, tid: 0 };
    let waiting = Switch { from: ContextRef::Task(me), to: ContextRef::Idle };
    assert_eq!(kernel.handle_signals(&mut cx, false), Some(waiting));
    back_to_parent(&mut kernel);
    sys_yield(&mut kernel);
    kernel.run_tasks().unwrap();
    assert_eq!(kernel.handle_signals(&mut cx, true), Some(waiting));
    back_to_parent(&mut kernel);
    assert_eq!(sys_kill(&mut kernel, 1, SIGCONT as i32), 0);
    sys_yield(&mut kernel);
    kernel.run_tasks().unwrap();
    assert_eq!(kernel.handle_signals(&mut cx, true), Some(waiting));
    back_to_parent(&mut kernel);
    sys_yield(&mut kernel);
    kernel.run_tasks().unwrap();
    assert_eq!(sys_getpid(&kernel), 1);
    assert_eq!(kernel.handle_signals(&mut cx, true), None);
    assert_eq!(sys_sigprocmask(&mut kernel, 7), 0);
}
