//! Mutexes: a spinning one and a blocking one with a queue of waiters.
//!
//! Neither of them waits here. `lock` says whether the caller has the mutex
//! or what it has to do to get it; the caller does the waiting.
use crate::task::task::TaskRef;
use std::collections::VecDeque;
use vstd::prelude::*;

verus! {

/// How an attempt to lock a mutex ended.
#[derive(Copy, Clone, PartialEq, Eq, Structural, Debug)]
pub enum LockOutcome {
    /// The caller holds the mutex.
    Acquired,
    /// The mutex is held by another thread: yield the processor and try
    /// again.
    Retry,
    /// The mutex is held by another thread and the caller is in its queue
    /// of waiters: block until `unlock` hands the mutex over.
    Blocked,
}

/// A lock that one thread at a time holds.
pub trait Mutex {
    /// Is the mutex held?
    spec fn spec_locked(&self) -> bool;

    /// The threads that wait for the mutex, the one that has waited longest
    /// first.
    spec fn spec_waiters(&self) -> Seq<TaskRef>;

    /// Tries to take the mutex for thread `task`.
    fn lock(&mut self, task: TaskRef) -> (outcome: LockOutcome)
        ensures
            !old(self).spec_locked() ==> outcome == LockOutcome::Acquired && final(self).spec_locked() && final(self).spec_waiters() == old(self).spec_waiters(),
            old(self).spec_locked() ==> outcome != LockOutcome::Acquired && final(self).spec_locked(),
    ;

    /// Gives the mutex up, and returns the thread to wake, if there is one:
    /// the waiter that has waited longest, which holds the mutex from now
    /// on.
    fn unlock(&mut self) -> (woken: Option<TaskRef>)
        requires
            old(self).spec_locked(),
        ensures
            old(self).spec_waiters().len() == 0 ==> woken is None && !final(self).spec_locked()
                && final(self).spec_waiters() == old(self).spec_waiters(),
            old(self).spec_waiters().len() > 0 ==> woken == Some(old(self).spec_waiters()[0])
                && final(self).spec_locked() && final(self).spec_waiters() == old(self).spec_waiters().drop_first(),
    ;
}

/// A mutex that is taken by trying again and again.
pub struct MutexSpin {
    locked: bool,
}

impl MutexSpin {
    /// A mutex that nobody holds.
    pub fn new() -> (mutex: Self)
        ensures
            !mutex.spec_locked(),
            mutex.spec_waiters() == Seq::<TaskRef>::empty(),
    {
        Self { locked: false }
    }

    /// Is the mutex held?
    pub fn is_locked(&self) -> (locked: bool)
        ensures
            locked == self.spec_locked(),
    {
        self.locked
    }
}

impl Mutex for MutexSpin {
    closed spec fn spec_locked(&self) -> bool {
        self.locked
    }

    open spec fn spec_waiters(&self) -> Seq<TaskRef> {
        Seq::empty()
    }

    /// Takes the mutex if nobody holds it; else asks the caller to yield
    /// and to try again.
    fn lock(&mut self, task: TaskRef) -> (outcome: LockOutcome)
        ensures
            old(self).spec_locked() ==> outcome == LockOutcome::Retry,
    {
        if self.locked {
            LockOutcome::Retry
        } else {
            self.locked = true;
            LockOutcome::Acquired
        }
    }

    fn unlock(&mut self) -> (woken: Option<TaskRef>) {
        self.locked = false;
        None
    }
}

/// A mutex with a queue: a thread that finds it held waits there, and
/// `unlock` hands the mutex to the thread that has waited longest.
pub struct MutexBlocking {
    locked: bool,
    wait_queue: VecDeque<TaskRef>,
}

impl MutexBlocking {
    /// A mutex that nobody holds or waits for.
    pub fn new() -> (mutex: Self)
        ensures
            !mutex.spec_locked(),
            mutex.spec_waiters() == Seq::<TaskRef>::empty(),
    {
        Self { locked: false, wait_queue: VecDeque::new() }
    }

    /// Is the mutex held?
    pub fn is_locked(&self) -> (locked: bool)
        ensures
            locked == self.spec_locked(),
    {
        self.locked
    }
}

impl Mutex for MutexBlocking {
    closed spec fn spec_locked(&self) -> bool {
        self.locked
    }

    closed spec fn spec_waiters(&self) -> Seq<TaskRef> {
        self.wait_queue@
    }

    /// Takes the mutex if nobody holds it; else puts `task` at the end of
    /// the queue of waiters and asks the caller to block.
    fn lock(&mut self, task: TaskRef) -> (outcome: LockOutcome)
        ensures
            old(self).spec_locked() ==> outcome == LockOutcome::Blocked && final(self).spec_waiters() == old(self).spec_waiters().push(task),
    {
        if self.locked {
            self.wait_queue.push_back(task);
            LockOutcome::Blocked
        } else {
            self.locked = true;
            LockOutcome::Acquired
        }
    }

    fn unlock(&mut self) -> (woken: Option<TaskRef>) {
        let ghost before = self.wait_queue@;
        let task = self.wait_queue.pop_front();
        match task {
            Some(task) => {
                assert(self.wait_queue@ =~= before.drop_first());
                Some(task)
            },
            None => {
                self.locked = false;
                None
            },
        }
    }
}

/// The blocking mutex serves its waiters in the order in which they came:
/// of two threads in the queue, the one that came first is woken first.
pub proof fn lemma_blocking_mutex_is_fifo(waiters: Seq<TaskRef>, first: int, second: int)
    requires
        0 <= first < second < waiters.len(),
    ensures
        spec_woken_at(waiters, first) == Some(waiters[first]),
        spec_woken_at(waiters, second) == Some(waiters[second]),
        spec_woken_at(waiters.push(waiters[0]), waiters.len() as int) == Some(waiters[0]),
{
    lemma_woken_at(waiters, first);
    lemma_woken_at(waiters, second);
    lemma_woken_at(waiters.push(waiters[0]), waiters.len() as int);
}

/// The thread that the `k`-th unlock from now wakes, counting from 0, if
/// the queue of waiters is `waiters` and no thread joins it.
pub open spec fn spec_woken_at(waiters: Seq<TaskRef>, k: int) -> Option<TaskRef>
    decreases k,
{
    if waiters.len() == 0 || k < 0 {
        None
    } else if k == 0 {
        Some(waiters[0])
    } else {
        spec_woken_at(waiters.drop_first(), k - 1)
    }
}

/// The `k`-th unlock wakes the `k`-th waiter.
pub proof fn lemma_woken_at(waiters: Seq<TaskRef>, k: int)
    requires
        0 <= k < waiters.len(),
    ensures
        spec_woken_at(waiters, k) == Some(waiters[k]),
    decreases k,
{
    if k > 0 {
        lemma_woken_at(waiters.drop_first(), k - 1);
    }
}

} // verus!
