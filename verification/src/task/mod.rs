//! Processes and threads: identifiers, contexts, the ready queue, signals.
pub mod action;
pub mod context;
pub mod id;
pub mod manager;
pub mod process;
pub mod task;
pub mod signal;
