//! The ready queue: threads that wait for the processor, first come first
//! served.
use crate::task::task::TaskRef;
use std::collections::VecDeque;
use vstd::prelude::*;

verus! {

/// The queue of the threads that are ready to run.
pub struct TaskManager {
    ready_queue: VecDeque<TaskRef>,
}

impl View for TaskManager {
    type V = Seq<TaskRef>;

    /// The threads in the queue, the one to run next first.
    closed spec fn view(&self) -> Seq<TaskRef> {
        self.ready_queue@
    }
}

/// The place of the first occurrence of `task` in `queue`, or the length of
/// `queue` if it does not occur.
pub open spec fn spec_position(queue: Seq<TaskRef>, task: TaskRef) -> int
    decreases queue.len(),
{
    if queue.len() == 0 {
        0
    } else if queue[0] == task {
        0
    } else {
        1 + spec_position(queue.drop_first(), task)
    }
}

/// The first occurrence of a thread lies in the queue if the thread occurs,
/// and the thread does not occur before it.
pub proof fn lemma_position(queue: Seq<TaskRef>, task: TaskRef)
    ensures
        0 <= spec_position(queue, task) <= queue.len(),
        forall|i: int| 0 <= i < spec_position(queue, task) ==> queue[i] != task,
        spec_position(queue, task) < queue.len() ==> queue[spec_position(queue, task)] == task,
    decreases queue.len(),
{
    if queue.len() > 0 && queue[0] != task {
        lemma_position(queue.drop_first(), task);
        let p = spec_position(queue.drop_first(), task);
        assert forall|i: int| 0 <= i < 1 + p implies queue[i] != task by {
            if i > 0 {
                assert(queue.drop_first()[i - 1] != task);
            }
        }
    }
}

/// A thread that yields is scheduled again after every thread that was
/// ready when it yielded: when `task` joins the queue `ready`, each of the
/// next `ready.len()` fetches gives a thread that was in `ready`, in the
/// order of `ready`, and only the fetch after them gives `task`.
pub proof fn lemma_yield_is_fair(ready: Seq<TaskRef>, task: TaskRef, k: int)
    requires
        0 <= k <= ready.len(),
    ensures
        spec_after_fetches(ready.push(task), k).len() == ready.len() + 1 - k,
        k < ready.len() ==> spec_after_fetches(ready.push(task), k)[0] == ready[k],
        k == ready.len() ==> spec_after_fetches(ready.push(task), k) == seq![task],
    decreases k,
{
    lemma_after_fetches(ready.push(task), k);
    if k == ready.len() {
        assert(ready.push(task).subrange(k, ready.len() as int + 1) =~= seq![task]);
    }
}

/// The queue after `k` threads were fetched from it.
pub open spec fn spec_after_fetches(queue: Seq<TaskRef>, k: int) -> Seq<TaskRef>
    decreases k,
{
    if k <= 0 || queue.len() == 0 {
        queue
    } else {
        spec_after_fetches(queue.drop_first(), k - 1)
    }
}

/// Fetching takes from the front.
pub proof fn lemma_after_fetches(queue: Seq<TaskRef>, k: int)
    requires
        0 <= k <= queue.len(),
    ensures
        spec_after_fetches(queue, k) == queue.subrange(k, queue.len() as int),
    decreases k,
{
    if k <= 0 || queue.len() == 0 {
        assert(queue.subrange(k, queue.len() as int) =~= queue);
    } else {
        lemma_after_fetches(queue.drop_first(), k - 1);
        assert(queue.drop_first().subrange(k - 1, queue.len() - 1) =~= queue.subrange(
            k,
            queue.len() as int,
        ));
    }
}

impl TaskManager {
    /// An empty queue.
    pub fn new() -> (manager: Self)
        ensures
            manager@ == Seq::<TaskRef>::empty(),
    {
        Self { ready_queue: VecDeque::new() }
    }

    /// Puts `task` at the end of the queue.
    pub fn add(&mut self, task: TaskRef)
        ensures
            final(self)@ == old(self)@.push(task),
    {
        self.ready_queue.push_back(task)
    }

    /// Takes the thread at the front of the queue, if there is one.
    pub fn fetch(&mut self) -> (task: Option<TaskRef>)
        ensures
            old(self)@.len() == 0 ==> task is None && final(self)@ == old(self)@,
            old(self)@.len() > 0 ==> task == Some(old(self)@[0]) && final(self)@ == old(self)@.drop_first(),
            final(self)@ == spec_after_fetches(old(self)@, 1),
    {
        let ghost before = self.ready_queue@;
        let task = self.ready_queue.pop_front();
        proof {
            if before.len() > 0 {
                assert(self.ready_queue@ =~= before.drop_first());
                assert(spec_after_fetches(before.drop_first(), 0) == before.drop_first());
            }
        }
        task
    }

    /// Takes the first occurrence of `task` out of the queue, if it occurs.
    pub fn remove(&mut self, task: TaskRef)
        ensures
            final(self)@ == (if spec_position(old(self)@, task) < old(self)@.len() {
                old(self)@.remove(spec_position(old(self)@, task))
            } else {
                old(self)@
            }),
    {
        let ghost before = self.ready_queue@;
        let n: usize = self.ready_queue.len();
        let mut id: usize = 0;
        while id < n
            invariant
                id <= n,
                n == before.len(),
                self.ready_queue@ == before,
                before == old(self)@,
                forall|i: int| 0 <= i < id ==> before[i] != task,
            decreases n - id,
        {
            if self.ready_queue[id] == task {
                proof {
                    lemma_position(before, task);
                    let p = spec_position(before, task);
                    assert(p == id) by {
                        if p < id {
                            assert(before[p] != task);
                        }
                    }
                }
                self.ready_queue.remove(id);
                return ;
            }
            id += 1;
        }
        proof {
            lemma_position(before, task);
        }
    }

    /// Number of threads in the queue.
    pub fn len(&self) -> (n: usize)
        ensures
            n == self@.len(),
    {
        self.ready_queue.len()
    }
}

} // verus!
