//! Signals: 32 of them, kept as one bit each.
//!
//! A signal is pending from the moment it is sent until it is delivered. On
//! the way back to user mode the pending signals are gone through in the
//! order of their numbers. A signal that is masked is passed over and stays
//! pending. SIGDEF, SIGKILL, SIGCONT and SIGSTOP are handled by the kernel;
//! for the first other signal that can be delivered, the handler that the
//! process installed is entered, and the walk ends there.
use crate::task::action::{SignalAction, SignalActions};
use vstd::prelude::*;

verus! {

/// The highest signal number.
pub const MAX_SIG: usize = 31;

pub const SIGDEF: usize = 0;

pub const SIGHUP: usize = 1;

pub const SIGINT: usize = 2;

pub const SIGQUIT: usize = 3;

pub const SIGILL: usize = 4;

pub const SIGTRAP: usize = 5;

pub const SIGABRT: usize = 6;

pub const SIGBUS: usize = 7;

pub const SIGFPE: usize = 8;

pub const SIGKILL: usize = 9;

pub const SIGUSR1: usize = 10;

pub const SIGSEGV: usize = 11;

pub const SIGUSR2: usize = 12;

pub const SIGPIPE: usize = 13;

pub const SIGALRM: usize = 14;

pub const SIGTERM: usize = 15;

pub const SIGSTKFLT: usize = 16;

pub const SIGCHLD: usize = 17;

pub const SIGCONT: usize = 18;

pub const SIGSTOP: usize = 19;

pub const SIGTSTP: usize = 20;

pub const SIGTTIN: usize = 21;

pub const SIGTTOU: usize = 22;

pub const SIGURG: usize = 23;

pub const SIGXCPU: usize = 24;

pub const SIGXFSZ: usize = 25;

pub const SIGVTALRM: usize = 26;

pub const SIGPROF: usize = 27;

pub const SIGWINCH: usize = 28;

pub const SIGIO: usize = 29;

pub const SIGPWR: usize = 30;

pub const SIGSYS: usize = 31;

/// A set of signals: bit `i` stands for signal `i`.
#[derive(Copy, Clone, PartialEq, Eq, Structural, Debug)]
pub struct SignalFlags {
    pub bits: u32,
}

/// Is bit `i` of `bits` set?
pub open spec fn spec_bit32(bits: u32, i: u32) -> bool {
    (bits >> i) & 1u32 == 1u32
}

/// The bits of `bits | (1 << i)`.
pub proof fn lemma_or_bit(bits: u32, i: u32, j: u32)
    requires
        i < 32,
        j < 32,
    ensures
        spec_bit32(bits | (1u32 << i), j) == (j == i || spec_bit32(bits, j)),
{
    assert((((bits | (1u32 << i)) >> j) & 1u32 == 1u32) == (j == i || ((bits >> j) & 1u32 == 1u32)))
        by (bit_vector)
        requires
            i < 32,
            j < 32,
    ;
}

/// The bits of `bits ^ (1 << i)`.
pub proof fn lemma_xor_bit(bits: u32, i: u32, j: u32)
    requires
        i < 32,
        j < 32,
    ensures
        spec_bit32(bits ^ (1u32 << i), j) == (if j == i {
            !spec_bit32(bits, j)
        } else {
            spec_bit32(bits, j)
        }),
{
    assert((((bits ^ (1u32 << i)) >> j) & 1u32 == 1u32) == (if j == i {
        !((bits >> j) & 1u32 == 1u32)
    } else {
        (bits >> j) & 1u32 == 1u32
    })) by (bit_vector)
        requires
            i < 32,
            j < 32,
    ;
}

/// A set holds signal `i` exactly if it contains the set of `i` alone.
pub proof fn lemma_contains_bit(bits: u32, i: u32)
    requires
        i < 32,
    ensures
        ((bits & (1u32 << i)) == (1u32 << i)) == spec_bit32(bits, i),
        spec_bit32(0, i) == false,
{
    assert(((bits & (1u32 << i)) == (1u32 << i)) == ((bits >> i) & 1u32 == 1u32)) by (bit_vector)
        requires
            i < 32,
    ;
    assert(((0u32 >> i) & 1u32 == 1u32) == false) by (bit_vector)
        requires
            i < 32,
    ;
}

impl SignalFlags {
    /// Is signal `sig` in the set?
    pub open spec fn spec_has(&self, sig: int) -> bool {
        0 <= sig < 32 && spec_bit32(self.bits, sig as u32)
    }

    /// The set with the given bits. Every bit stands for a signal, so there
    /// is always such a set.
    pub fn from_bits(bits: u32) -> (flags: Option<Self>)
        ensures
            flags == Some(SignalFlags { bits }),
    {
        Some(SignalFlags { bits })
    }

    /// The set of signal `sig` alone.
    pub fn single(sig: usize) -> (flags: Self)
        requires
            sig < 32,
        ensures
            flags.bits == 1u32 << (sig as u32),
            forall|j: int| flags.spec_has(j) == (j == sig),
    {
        let flags = SignalFlags { bits: 1u32 << (sig as u32) };
        proof {
            assert forall|j: int| flags.spec_has(j) == (j == sig) by {
                if 0 <= j < 32 {
                    lemma_or_bit(0, sig as u32, j as u32);
                    lemma_contains_bit(0, j as u32);
                    assert(0u32 | (1u32 << (sig as u32)) == 1u32 << (sig as u32)) by (bit_vector);
                }
            }
        }
        flags
    }

    /// The bits of the set.
    pub fn bits(&self) -> (bits: u32)
        ensures
            bits == self.bits,
    {
        self.bits
    }

    /// The empty set.
    pub fn empty() -> (flags: Self)
        ensures
            flags.bits == 0,
            forall|j: int| !flags.spec_has(j),
    {
        proof {
            assert forall|j: int| !(#[trigger] (SignalFlags { bits: 0 }).spec_has(j)) by {
                if 0 <= j < 32 {
                    lemma_contains_bit(0, j as u32);
                }
            }
        }
        SignalFlags { bits: 0 }
    }

    /// Is the set empty?
    pub fn is_empty(&self) -> (r: bool)
        ensures
            r == (self.bits == 0),
    {
        self.bits == 0
    }

    /// Is every signal of `other` in the set?
    pub fn contains(&self, other: SignalFlags) -> (r: bool)
        ensures
            r == ((self.bits & other.bits) == other.bits),
    {
        (self.bits & other.bits) == other.bits
    }

    /// Is signal `sig` in the set?
    pub fn has(&self, sig: usize) -> (r: bool)
        requires
            sig < 32,
        ensures
            r == self.spec_has(sig as int),
    {
        proof {
            lemma_contains_bit(self.bits, sig as u32);
        }
        (self.bits & (1u32 << (sig as u32))) == (1u32 << (sig as u32))
    }

    /// Puts the signals of `other` into the set.
    pub fn insert(&mut self, other: SignalFlags)
        ensures
            final(self).bits == old(self).bits | other.bits,
    {
        self.bits = self.bits | other.bits;
    }

    /// Puts signal `sig` into the set.
    pub fn set(&mut self, sig: usize)
        requires
            sig < 32,
        ensures
            final(self).bits == old(self).bits | (1u32 << (sig as u32)),
            forall|j: int| final(self).spec_has(j) == (j == sig || old(self).spec_has(j)),
    {
        self.bits = self.bits | (1u32 << (sig as u32));
        proof {
            assert forall|j: int| self.spec_has(j) == (j == sig || old(self).spec_has(j)) by {
                if 0 <= j < 32 {
                    lemma_or_bit(old(self).bits, sig as u32, j as u32);
                }
            }
        }
    }

    /// Takes signal `sig`, which must be in the set, out of it.
    pub fn clear(&mut self, sig: usize)
        requires
            sig < 32,
            old(self).spec_has(sig as int),
        ensures
            final(self).bits == old(self).bits ^ (1u32 << (sig as u32)),
            forall|j: int| final(self).spec_has(j) == (j != sig && old(self).spec_has(j)),
    {
        self.bits = self.bits ^ (1u32 << (sig as u32));
        proof {
            assert forall|j: int| self.spec_has(j) == (j != sig && old(self).spec_has(j)) by {
                if 0 <= j < 32 {
                    lemma_xor_bit(old(self).bits, sig as u32, j as u32);
                }
            }
        }
    }

    /// The exit code and the message for the first of the signals SIGINT,
    /// SIGILL, SIGABRT, SIGFPE, SIGKILL and SIGSEGV, in this order, that is
    /// in the set: the negated number of the signal.
    pub open spec fn spec_check_error(&self) -> Option<i32> {
        if self.spec_has(2) {
            Some(-2i32)
        } else if self.spec_has(4) {
            Some(-4i32)
        } else if self.spec_has(6) {
            Some(-6i32)
        } else if self.spec_has(8) {
            Some(-8i32)
        } else if self.spec_has(9) {
            Some(-9i32)
        } else if self.spec_has(11) {
            Some(-11i32)
        } else {
            None
        }
    }

    /// The exit code and the message for the first error signal in the set.
    pub fn check_error(&self) -> (r: Option<(i32, &'static str)>)
        ensures
            match r {
                Some((code, message)) => self.spec_check_error() == Some(code) && message@
                    == spec_error_message(code),
                None => self.spec_check_error() is None,
            },
    {
        if self.has(SIGINT) {
            Some((-2, "Killed, SIGINT=2"))
        } else if self.has(SIGILL) {
            Some((-4, "Illegal Instruction, SIGILL=4"))
        } else if self.has(SIGABRT) {
            Some((-6, "Aborted, SIGABRT=6"))
        } else if self.has(SIGFPE) {
            Some((-8, "Erroneous Arithmetic Operation, SIGFPE=8"))
        } else if self.has(SIGKILL) {
            Some((-9, "Killed, SIGKILL=9"))
        } else if self.has(SIGSEGV) {
            Some((-11, "Segmentation Fault, SIGSEGV=11"))
        } else {
            None
        }
    }
}

/// The message that goes with the exit code of an error signal.
pub open spec fn spec_error_message(code: i32) -> Seq<char> {
    if code == -2 {
        "Killed, SIGINT=2"@
    } else if code == -4 {
        "Illegal Instruction, SIGILL=4"@
    } else if code == -6 {
        "Aborted, SIGABRT=6"@
    } else if code == -8 {
        "Erroneous Arithmetic Operation, SIGFPE=8"@
    } else if code == -9 {
        "Killed, SIGKILL=9"@
    } else {
        "Segmentation Fault, SIGSEGV=11"@
    }
}

/// The registers of a thread that a trap saves: the 32 general registers,
/// the status register, the address to resume at, and what the trap entry
/// needs to get into the kernel.
#[derive(Copy, Clone, Debug)]
pub struct TrapContext {
    pub x: [usize; 32],
    pub sstatus: usize,
    pub sepc: usize,
    pub kernel_satp: usize,
    pub kernel_sp: usize,
    pub trap_handler: usize,
}

impl TrapContext {
    /// The context of a thread that starts at `entry` with its stack
    /// pointer, register 2, at `sp`. The other registers are 0.
    pub fn app_init_context(
        entry: usize,
        sp: usize,
        kernel_satp: usize,
        kernel_sp: usize,
        trap_handler: usize,
        sstatus: usize,
    ) -> (cx: Self)
        ensures
            cx.sepc == entry,
            cx.sstatus == sstatus,
            cx.kernel_satp == kernel_satp,
            cx.kernel_sp == kernel_sp,
            cx.trap_handler == trap_handler,
            forall|i: int|
                0 <= i < 32 ==> cx.x[i] == (if i == 2 {
                    sp
                } else {
                    0usize
                }),
    {
        let mut x: [usize; 32] = [0usize; 32];
        x[2] = sp;
        Self { x, sstatus, sepc: entry, kernel_satp, kernel_sp, trap_handler }
    }
}

/// Is `sig` one of the signals that the kernel handles itself: SIGDEF,
/// SIGKILL, SIGCONT, SIGSTOP?
pub open spec fn spec_is_kernel_signal(sig: int) -> bool {
    sig == 0 || sig == 9 || sig == 18 || sig == 19
}

/// What a thread keeps about signals.
pub struct SignalState {
    /// The signals that are pending.
    pub signals: SignalFlags,
    /// The signals that are masked.
    pub signal_mask: SignalFlags,
    /// The signal whose handler runs, or -1.
    pub handling_sig: isize,
    pub signal_actions: SignalActions,
    /// Has SIGKILL or SIGDEF arrived?
    pub killed: bool,
    /// Has SIGSTOP arrived, and no SIGCONT since?
    pub frozen: bool,
    /// The trap context as it was when the handler that runs was entered.
    pub trap_ctx_backup: Option<TrapContext>,
}

impl SignalState {
    /// The invariant: the signal being handled is a signal.
    pub open spec fn wf(&self) -> bool {
        -1 <= self.handling_sig < 32
    }

    /// Can signal `sig` be delivered: is it pending, not masked, and not
    /// masked by the handler that runs?
    pub open spec fn spec_deliverable(&self, sig: int) -> bool {
        &&& self.signals.spec_has(sig)
        &&& !self.signal_mask.spec_has(sig)
        &&& (self.handling_sig == -1 || !self.signal_actions.table[self.handling_sig as int].mask.spec_has(
            sig,
        ))
    }

    /// The lowest signal from `from` on that can be delivered and is not
    /// handled by the kernel, or 32 if there is none.
    pub open spec fn spec_first_user(&self, from: int) -> int
        decreases 32 - from,
    {
        if from >= 32 {
            32
        } else if self.spec_deliverable(from) && !spec_is_kernel_signal(from) {
            from
        } else {
            self.spec_first_user(from + 1)
        }
    }

    /// Is the kernel signal `sig` delivered by the next walk through the
    /// pending signals: can it be delivered, and does the walk get to it?
    pub open spec fn spec_handled(&self, sig: int) -> bool {
        self.spec_deliverable(sig) && sig < self.spec_first_user(0)
    }

    /// Does the next walk enter a handler of the process: is there a signal
    /// to deliver to the process, and has it a handler?
    pub open spec fn spec_enters(&self) -> bool {
        self.spec_first_user(0) < 32 && self.signal_actions.table[self.spec_first_user(
            0,
        )].handler != 0
    }

    /// What `spec_first_user` finds.
    pub proof fn lemma_first_user(&self, from: int)
        requires
            0 <= from <= 32,
        ensures
            from <= self.spec_first_user(from) <= 32,
            self.spec_first_user(from) < 32 ==> self.spec_deliverable(self.spec_first_user(from))
                && !spec_is_kernel_signal(self.spec_first_user(from)),
            forall|j: int|
                from <= j < self.spec_first_user(from) ==> !(self.spec_deliverable(j)
                    && !spec_is_kernel_signal(j)),
        decreases 32 - from,
    {
        if from < 32 && !(self.spec_deliverable(from) && !spec_is_kernel_signal(from)) {
            self.lemma_first_user(from + 1);
        }
    }

    /// The first signal for the process is `at` if it can be delivered and
    /// none before it can.
    pub proof fn lemma_first_user_is(&self, at: int)
        requires
            0 <= at <= 32,
            at < 32 ==> self.spec_deliverable(at) && !spec_is_kernel_signal(at),
            forall|j: int| 0 <= j < at ==> !(self.spec_deliverable(j) && !spec_is_kernel_signal(j)),
        ensures
            self.spec_first_user(0) == at,
    {
        self.lemma_first_user(0);
        let found = self.spec_first_user(0);
        if found < at {
            assert(!(self.spec_deliverable(found) && !spec_is_kernel_signal(found)));
        }
    }

    /// A process without signals, handlers or mask.
    pub fn new() -> (state: Self)
        ensures
            state.wf(),
            state.signals.bits == 0,
            state.signal_mask.bits == 0,
            state.handling_sig == -1,
            !state.killed,
            !state.frozen,
            state.trap_ctx_backup is None,
            forall|i: int|
                0 <= i < 32 ==> state.signal_actions.table[i].handler == 0
                    && state.signal_actions.table[i].mask.bits == 40,
    {
        Self {
            signals: SignalFlags::empty(),
            signal_mask: SignalFlags::empty(),
            handling_sig: -1,
            signal_actions: SignalActions::default(),
            killed: false,
            frozen: false,
            trap_ctx_backup: None,
        }
    }

    /// Delivers the kernel signal `sig`, which is pending: SIGSTOP freezes
    /// the thread and SIGCONT thaws it, and either is no longer pending
    /// then; SIGKILL and SIGDEF mark the thread as killed and stay pending.
    pub fn call_kernel_signal_handler(&mut self, sig: usize)
        requires
            sig < 32,
            old(self).signals.spec_has(sig as int),
        ensures
            *final(self) == (SignalState {
                signals: final(self).signals,
                killed: final(self).killed,
                frozen: final(self).frozen,
                ..*old(self)
            }),
            forall|j: int|
                final(self).signals.spec_has(j) == (old(self).signals.spec_has(j) && !(j == sig && (
                sig == SIGSTOP || sig == SIGCONT))),
            final(self).frozen == (if sig == SIGSTOP {
                true
            } else if sig == SIGCONT {
                false
            } else {
                old(self).frozen
            }),
            final(self).killed == (old(self).killed || (sig != SIGSTOP && sig != SIGCONT)),
    {
        if sig == SIGSTOP {
            if self.signals.has(SIGSTOP) {
                self.frozen = true;
                self.signals.clear(SIGSTOP);
            }
        } else if sig == SIGCONT {
            if self.signals.has(SIGCONT) {
                self.frozen = false;
                self.signals.clear(SIGCONT);
            }
        } else {
            self.killed = true;
        }
    }

    /// Enters the handler that the process installed for signal `sig`,
    /// which is pending, and says whether there is one.
    ///
    /// With a handler: the mask of the handler becomes the mask, the signal
    /// is the one being handled and no longer pending, the trap context is
    /// saved, and the thread resumes in the handler with the number of the
    /// signal in register 10. Without a handler nothing changes.
    pub fn call_user_signal_handler(&mut self, sig: usize, trap_ctx: &mut TrapContext) -> (entered:
        bool)
        requires
            sig < 32,
            old(self).signals.spec_has(sig as int),
        ensures
            entered == (old(self).signal_actions.table[sig as int].handler != 0),
            !entered ==> *final(self) == *old(self) && *final(trap_ctx) == *old(trap_ctx),
            entered ==> {
                &&& *final(self) == (SignalState {
                    signals: final(self).signals,
                    signal_mask: old(self).signal_actions.table[sig as int].mask,
                    handling_sig: sig as isize,
                    trap_ctx_backup: Some(*old(trap_ctx)),
                    ..*old(self)
                })
                &&& forall|j: int|
                    final(self).signals.spec_has(j) == (j != sig && old(self).signals.spec_has(j))
                &&& *final(trap_ctx) == (TrapContext {
                    x: final(trap_ctx).x,
                    sepc: old(self).signal_actions.table[sig as int].handler,
                    ..*old(trap_ctx)
                })
                &&& forall|i: int|
                    0 <= i < 32 ==> final(trap_ctx).x[i] == (if i == 10 {
                        sig
                    } else {
                        old(trap_ctx).x[i]
                    })
            },
    {
        let handler: usize = self.signal_actions.table[sig].handler;
        if handler == 0 {
            return false;
        }
        self.signal_mask = self.signal_actions.table[sig].mask;
        self.handling_sig = sig as isize;
        self.signals.clear(sig);
        self.trap_ctx_backup = Some(*trap_ctx);
        trap_ctx.sepc = handler;
        trap_ctx.x[10] = sig;
        true
    }

    /// Is `(after, after_trap)` what a walk through the pending signals
    /// makes of `(self, trap)`?
    ///
    /// The walk goes through the signals in the order of their numbers and
    /// delivers those that can be delivered, up to and including the first
    /// that is not handled by the kernel. SIGKILL and SIGDEF mark the thread
    /// as killed, SIGSTOP freezes it and SIGCONT thaws it. For the first
    /// other signal the handler of the process is entered, if there is one:
    /// the trap context is saved, and the thread resumes in the handler
    /// with the number of the signal in register 10.
    pub open spec fn spec_checked(
        &self,
        trap: TrapContext,
        after: SignalState,
        after_trap: TrapContext,
    ) -> bool {
        &&& after.signal_actions == self.signal_actions
        &&& after.killed == (self.killed || self.spec_handled(0) || self.spec_handled(9))
        &&& after.frozen == (if self.spec_handled(19) {
            true
        } else if self.spec_handled(18) {
            false
        } else {
            self.frozen
        })
        &&& forall|j: int|
            after.signals.spec_has(j) == (self.signals.spec_has(j) && !(j == 18
                && self.spec_handled(18)) && !(j == 19 && self.spec_handled(19)) && !(j
                == self.spec_first_user(0) && self.spec_enters()))
        &&& after.signal_mask == (if self.spec_enters() {
            self.signal_actions.table[self.spec_first_user(0)].mask
        } else {
            self.signal_mask
        })
        &&& after.handling_sig == (if self.spec_enters() {
            self.spec_first_user(0) as isize
        } else {
            self.handling_sig
        })
        &&& after.trap_ctx_backup == (if self.spec_enters() {
            Some(trap)
        } else {
            self.trap_ctx_backup
        })
        &&& !self.spec_enters() ==> after_trap == trap
        &&& self.spec_enters() ==> {
            &&& after_trap == (TrapContext {
                x: after_trap.x,
                sepc: self.signal_actions.table[self.spec_first_user(0)].handler,
                ..trap
            })
            &&& forall|i: int|
                0 <= i < 32 ==> after_trap.x[i] == (if i == 10 {
                    self.spec_first_user(0) as usize
                } else {
                    trap.x[i]
                })
        }
    }

    /// Is `(after, after_trap)`, with the answer `suspend`, what the
    /// delivery of signals on the way back to user mode makes of
    /// `(self, trap)`?
    ///
    /// A thread that comes for the first time walks through its pending
    /// signals. If the thread is then frozen and not killed, it walks
    /// through them once more and has to wait; else it goes on as it is.
    pub open spec fn spec_delivered(
        &self,
        trap: TrapContext,
        resumed: bool,
        after: SignalState,
        after_trap: TrapContext,
        suspend: bool,
    ) -> bool {
        if resumed {
            &&& suspend == (self.frozen && !self.killed)
            &&& !suspend ==> after == *self && after_trap == trap
            &&& suspend ==> self.spec_checked(trap, after, after_trap)
        } else {
            exists|first: SignalState, first_trap: TrapContext|
                {
                    &&& first.wf()
                    &&& #[trigger] self.spec_checked(trap, first, first_trap)
                    &&& suspend == (first.frozen && !first.killed)
                    &&& !suspend ==> after == first && after_trap == first_trap
                    &&& suspend ==> first.spec_checked(first_trap, after, after_trap)
                }
        }
    }

    /// Goes through the pending signals in the order of their numbers and
    /// delivers those that can be delivered, up to and including the first
    /// that is not handled by the kernel.
    pub fn check_pending_signals(&mut self, trap_ctx: &mut TrapContext)
        requires
            old(self).wf(),
        ensures
            final(self).wf(),
            old(self).spec_checked(*old(trap_ctx), *final(self), *final(trap_ctx)),
            // a masked signal stays pending
            forall|j: int|
                old(self).signals.spec_has(j) && old(self).signal_mask.spec_has(j) ==> final(self).signals.spec_has(j),
    {
        let ghost state0 = *self;
        let mut sig: usize = 0;
        while sig < MAX_SIG + 1
            invariant
                sig <= 32,
                state0 == *old(self),
                state0.wf(),
                *trap_ctx == *old(trap_ctx),
                self.signal_actions == state0.signal_actions,
                self.signal_mask == state0.signal_mask,
                self.handling_sig == state0.handling_sig,
                self.trap_ctx_backup == state0.trap_ctx_backup,
                forall|j: int|
                    0 <= j < sig ==> !(state0.spec_deliverable(j) && !spec_is_kernel_signal(j)),
                self.killed == (state0.killed || (state0.spec_deliverable(0) && 0 < sig) || (
                state0.spec_deliverable(9) && 9 < sig)),
                self.frozen == (if state0.spec_deliverable(19) && 19 < sig {
                    true
                } else if state0.spec_deliverable(18) && 18 < sig {
                    false
                } else {
                    state0.frozen
                }),
                forall|j: int|
                    self.signals.spec_has(j) == (state0.signals.spec_has(j) && !(j == 18
                        && state0.spec_deliverable(18) && 18 < sig) && !(j == 19
                        && state0.spec_deliverable(19) && 19 < sig)),
            decreases 32 - sig,
        {
            let pending: bool = self.signals.has(sig);
            let masked: bool = self.signal_mask.has(sig);
            if pending && !masked {
                let free: bool = if self.handling_sig == -1 {
                    true
                } else {
                    !self.signal_actions.table[self.handling_sig as usize].mask.has(sig)
                };
                assert(free == state0.spec_deliverable(sig as int));
                if free {
                    if sig == SIGKILL || sig == SIGSTOP || sig == SIGCONT || sig == SIGDEF {
                        self.call_kernel_signal_handler(sig);
                    } else {
                        proof {
                            state0.lemma_first_user_is(sig as int);
                            state0.lemma_first_user(0);
                        }
                        let entered: bool = self.call_user_signal_handler(sig, trap_ctx);
                        return ;
                    }
                }
            }
            sig += 1;
        }
        proof {
            state0.lemma_first_user_is(32);
        }
    }

    /// Delivers signals on the way back to user mode, and says whether the
    /// thread has to wait: a thread that is frozen and not killed gives up
    /// the processor and calls again, with `resumed` set, to see whether
    /// SIGCONT has come.
    pub fn handle_signals(&mut self, trap_ctx: &mut TrapContext, resumed: bool) -> (suspend: bool)
        requires
            old(self).wf(),
        ensures
            final(self).wf(),
            final(self).signal_actions == old(self).signal_actions,
            old(self).spec_delivered(
                *old(trap_ctx),
                resumed,
                *final(self),
                *final(trap_ctx),
                suspend,
            ),
    {
        if !resumed {
            self.check_pending_signals(trap_ctx);
        }
        if !self.frozen || self.killed {
            return false;
        }
        self.check_pending_signals(trap_ctx);
        true
    }

    /// Installs `action` as the handler of signal `signum` and returns the
    /// handler it replaces. SIGKILL, SIGSTOP and numbers that are not those
    /// of signals are refused with `None`.
    pub fn sigaction(&mut self, signum: i32, action: SignalAction) -> (old_action: Option<
        SignalAction,
    >)
        ensures
            (signum < 0 || signum > 31 || signum == 9 || signum == 19) ==> old_action is None
                && *final(self) == *old(self),
            !(signum < 0 || signum > 31 || signum == 9 || signum == 19) ==> {
                &&& old_action == Some(old(self).signal_actions.table[signum as int])
                &&& *final(self) == (SignalState {
                    signal_actions: final(self).signal_actions,
                    ..*old(self)
                })
                &&& forall|i: int|
                    0 <= i < 32 ==> final(self).signal_actions.table[i] == (if i == signum {
                        action
                    } else {
                        old(self).signal_actions.table[i]
                    })
            },
    {
        if signum < 0 || signum > MAX_SIG as i32 {
            return None;
        }
        let sig: usize = signum as usize;
        if sig == SIGKILL || sig == SIGSTOP {
            return None;
        }
        let old_action: SignalAction = self.signal_actions.table[sig];
        self.signal_actions.table[sig] = action;
        Some(old_action)
    }

    /// Makes `mask` the set of masked signals and returns the set it
    /// replaces.
    pub fn sigprocmask(&mut self, mask: u32) -> (old_mask: u32)
        ensures
            old_mask == old(self).signal_mask.bits,
            *final(self) == (SignalState { signal_mask: SignalFlags { bits: mask }, ..*old(self) }),
    {
        let old_mask: u32 = self.signal_mask.bits();
        match SignalFlags::from_bits(mask) {
            Some(flags) => {
                self.signal_mask = flags;
            },
            None => {},
        }
        old_mask
    }

    /// Ends the handler that runs: gives back the trap context that was
    /// saved when it was entered, to resume where the signal arrived, and
    /// no signal is being handled any more. `None` if no context is saved.
    pub fn sigreturn(&mut self) -> (restored: Option<TrapContext>)
        ensures
            restored == old(self).trap_ctx_backup,
            old(self).trap_ctx_backup is None ==> *final(self) == *old(self),
            old(self).trap_ctx_backup is Some ==> *final(self) == (SignalState {
                handling_sig: -1isize,
                trap_ctx_backup: None,
                ..*old(self)
            }),
    {
        match self.trap_ctx_backup {
            Some(backup) => {
                self.handling_sig = -1;
                self.trap_ctx_backup = None;
                Some(backup)
            },
            None => None,
        }
    }

    /// Sends signal `signum`: makes it pending. Refused, with `false`, if
    /// `signum` is not the number of a signal or if the signal is pending
    /// already.
    pub fn kill(&mut self, signum: i32) -> (sent: bool)
        ensures
            sent == (0 <= signum <= 31 && !old(self).signals.spec_has(signum as int)),
            !sent ==> *final(self) == *old(self),
            sent ==> *final(self) == (SignalState { signals: final(self).signals, ..*old(self) })
                && forall|j: int|
                final(self).signals.spec_has(j) == (j == signum || old(self).signals.spec_has(j)),
    {
        if signum < 0 || signum > MAX_SIG as i32 {
            return false;
        }
        let sig: usize = signum as usize;
        if self.signals.has(sig) {
            return false;
        }
        self.signals.set(sig);
        true
    }
}

/// A masked signal stays pending until it is unmasked: no walk through the
/// pending signals delivers it.
pub proof fn lemma_masked_stays_pending(state: SignalState, sig: int)
    requires
        state.wf(),
        state.signals.spec_has(sig),
        state.signal_mask.spec_has(sig),
    ensures
        !state.spec_deliverable(sig),
        !state.spec_handled(sig),
        state.spec_first_user(0) != sig,
{
    state.lemma_first_user(0);
}

} // verus!
