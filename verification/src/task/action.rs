//! What a process asks to be done when a signal arrives.
use crate::task::signal::{SignalFlags, MAX_SIG};
use vstd::prelude::*;

verus! {

/// The handler of one signal: the address to enter, and the signals that
/// are masked while the handler runs.
#[derive(Copy, Clone, PartialEq, Eq, Structural, Debug)]
pub struct SignalAction {
    pub handler: usize,
    pub mask: SignalFlags,
}

impl Default for SignalAction {
    /// No handler; SIGTRAP and SIGQUIT masked, that is bits 3 and 5, the
    /// mask 40.
    fn default() -> (action: Self)
        ensures
            action.handler == 0,
            action.mask.bits == 40,
    {
        Self { handler: 0, mask: SignalFlags { bits: 40 } }
    }
}

/// The handlers of a process, one for each signal.
#[derive(Clone, Copy)]
pub struct SignalActions {
    pub table: [SignalAction; 32],
}

impl Default for SignalActions {
    /// The default action for every signal.
    fn default() -> (actions: Self)
        ensures
            forall|i: int|
                0 <= i <= MAX_SIG ==> actions.table[i].handler == 0 && actions.table[i].mask.bits
                    == 40,
    {
        let action = SignalAction::default();
        Self { table: [action; 32] }
    }
}

} // verus!
