//! The core of a small teaching kernel: an indexed block file system with a
//! shared block cache, and the process, thread, pipe, mutex, signal and timer
//! logic that sits on top of it.
pub mod bitmap;
pub mod block_cache;
pub mod block_dev;
pub mod codec;
pub mod config;
pub mod disk_inode;
pub mod efs;
pub mod fs;
pub mod kernel;
pub mod layout;
pub mod lifecycle;
pub mod mm;
pub mod page_table;
pub mod pipe;
pub mod shell;
pub mod sync;
pub mod syscall;
pub mod task;
pub mod timer;
pub mod vfs;
