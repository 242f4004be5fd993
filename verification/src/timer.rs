//! Time, and the threads that sleep until a time comes.
use crate::config::{CLOCK_FREQ, MSEC_PER_SEC, TICKS_PER_SEC};
use crate::task::task::TaskRef;
use vstd::prelude::*;

verus! {

/// The time in milliseconds at `ticks` ticks of the clock.
pub fn get_time_ms(ticks: usize) -> (ms: usize)
    ensures
        ms == ticks / 12500,
{
    ticks / (CLOCK_FREQ / MSEC_PER_SEC)
}

/// The tick at which the next timer interrupt is due when the clock is at
/// `ticks`: a hundredth of a second later.
pub fn next_trigger(ticks: usize) -> (next: usize)
    requires
        ticks + 125000 <= usize::MAX,
    ensures
        next == ticks + 125000,
{
    ticks + CLOCK_FREQ / TICKS_PER_SEC
}

/// A thread that sleeps, and the time in milliseconds at which it is to be
/// woken.
#[derive(Copy, Clone, PartialEq, Eq, Structural, Debug)]
pub struct TimerCondVar {
    pub expire_ms: usize,
    pub task: TaskRef,
}

/// The sleeping threads, the one to wake first at the front.
pub struct Timers {
    list: Vec<TimerCondVar>,
}

/// Is `list` in the order of the times, earliest first?
pub open spec fn spec_sorted(list: Seq<TimerCondVar>) -> bool {
    forall|i: int, j: int| 0 <= i <= j < list.len() ==> list[i].expire_ms <= list[j].expire_ms
}

/// Number of timers at the front of `list` that are due at `now`.
pub open spec fn spec_due(list: Seq<TimerCondVar>, now: usize) -> int
    decreases list.len(),
{
    if list.len() == 0 || list[0].expire_ms > now {
        0
    } else {
        1 + spec_due(list.drop_first(), now)
    }
}

/// `list` without the timers of `task`.
pub open spec fn spec_without(list: Seq<TimerCondVar>, task: TaskRef) -> Seq<TimerCondVar>
    decreases list.len(),
{
    if list.len() == 0 {
        list
    } else if list.last().task == task {
        spec_without(list.drop_last(), task)
    } else {
        spec_without(list.drop_last(), task).push(list.last())
    }
}

/// The timers that are due are the first `spec_due` ones; in a sorted list
/// no other timer is due.
pub proof fn lemma_due(list: Seq<TimerCondVar>, now: usize)
    ensures
        0 <= spec_due(list, now) <= list.len(),
        forall|i: int| 0 <= i < spec_due(list, now) ==> list[i].expire_ms <= now,
        spec_due(list, now) < list.len() ==> list[spec_due(list, now)].expire_ms > now,
        spec_sorted(list) ==> forall|i: int|
            spec_due(list, now) <= i < list.len() ==> list[i].expire_ms > now,
    decreases list.len(),
{
    if list.len() > 0 && list[0].expire_ms <= now {
        let rest = list.drop_first();
        lemma_due(rest, now);
        let d = spec_due(rest, now);
        assert forall|i: int| 0 <= i < 1 + d implies list[i].expire_ms <= now by {
            if i > 0 {
                assert(rest[i - 1].expire_ms <= now);
            }
        }
        if d < rest.len() {
            assert(rest[d] == list[d + 1]);
        }
    }
    let k = spec_due(list, now);
    if spec_sorted(list) && k < list.len() {
        assert forall|i: int| k <= i < list.len() implies list[i].expire_ms > now by {
            assert(list[k].expire_ms <= list[i].expire_ms);
        }
    }
}

/// The timers that are due are `k` if the first `k` are due and the next
/// one is not.
pub proof fn lemma_due_is(list: Seq<TimerCondVar>, now: usize, k: int)
    requires
        0 <= k <= list.len(),
        forall|i: int| 0 <= i < k ==> list[i].expire_ms <= now,
        k < list.len() ==> list[k].expire_ms > now,
    ensures
        spec_due(list, now) == k,
    decreases k,
{
    if k > 0 {
        let rest = list.drop_first();
        assert forall|i: int| 0 <= i < k - 1 implies rest[i].expire_ms <= now by {
            assert(rest[i] == list[i + 1]);
        }
        if k - 1 < rest.len() {
            assert(rest[k - 1] == list[k]);
        }
        lemma_due_is(rest, now, k - 1);
    }
}

impl View for Timers {
    type V = Seq<TimerCondVar>;

    closed spec fn view(&self) -> Seq<TimerCondVar> {
        self.list@
    }
}

impl Timers {
    /// The invariant: the timers are in the order of their times.
    pub open spec fn wf(&self) -> bool {
        spec_sorted(self@)
    }

    /// No sleeping thread.
    pub fn new() -> (timers: Self)
        ensures
            timers.wf(),
            timers@ == Seq::<TimerCondVar>::empty(),
    {
        Self { list: Vec::new() }
    }

    /// Lets `task` sleep until `expire_ms`. The timer goes behind those
    /// that are due at `expire_ms` and before the later ones.
    pub fn add_timer(&mut self, expire_ms: usize, task: TaskRef)
        requires
            old(self).wf(),
        ensures
            final(self).wf(),
            final(self)@ == old(self)@.insert(
                spec_due(old(self)@, expire_ms),
                TimerCondVar { expire_ms, task },
            ),
    {
        let ghost before = self.list@;
        let n: usize = self.list.len();
        let mut pos: usize = 0;
        while pos < n && self.list[pos].expire_ms <= expire_ms
            invariant
                pos <= n,
                n == before.len(),
                self.list@ == before,
                forall|i: int| 0 <= i < pos ==> before[i].expire_ms <= expire_ms,
            decreases n - pos,
        {
            pos += 1;
        }
        proof {
            lemma_due_is(before, expire_ms, pos as int);
        }
        self.list.insert(pos, TimerCondVar { expire_ms, task });
        proof {
            let after = self.list@;
            assert forall|i: int, j: int| 0 <= i <= j < after.len() implies after[i].expire_ms
                <= after[j].expire_ms by {
                lemma_due(before, expire_ms);
                if i < pos && j > pos {
                    assert(before[i].expire_ms <= before[j - 1].expire_ms);
                } else if i < pos && j < pos {
                    assert(before[i].expire_ms <= before[j].expire_ms);
                } else if i > pos && j > pos {
                    assert(before[i - 1].expire_ms <= before[j - 1].expire_ms);
                } else if i == pos && j > pos {
                    assert(before[j - 1].expire_ms > expire_ms);
                }
            }
        }
    }

    /// Takes all timers of `task` away.
    pub fn remove_timer(&mut self, task: TaskRef)
        requires
            old(self).wf(),
        ensures
            final(self).wf(),
            final(self)@ == spec_without(old(self)@, task),
            forall|i: int| 0 <= i < final(self)@.len() ==> final(self)@[i].task != task,
    {
        let ghost before = self.list@;
        let mut temp: Vec<TimerCondVar> = Vec::new();
        let n: usize = self.list.len();
        let mut i: usize = 0;
        assert(before.subrange(0, 0) =~= Seq::<TimerCondVar>::empty());
        while i < n
            invariant
                i <= n,
                n == before.len(),
                self.list@ == before,
                spec_sorted(before),
                temp@ == spec_without(before.subrange(0, i as int), task),
                spec_sorted(temp@),
                forall|k: int| 0 <= k < temp@.len() ==> temp@[k].task != task,
                temp@.len() > 0 && i < n ==> temp@.last().expire_ms <= before[i as int].expire_ms,
                temp@.len() > 0 ==> exists|k: int| 0 <= k < i && before[k] == temp@.last(),
            decreases n - i,
        {
            let timer: TimerCondVar = self.list[i];
            let ghost old_temp = temp@;
            proof {
                assert(before.subrange(0, i + 1).drop_last() =~= before.subrange(0, i as int));
                assert(before.subrange(0, i + 1).last() == before[i as int]);
            }
            if !(timer.task == task) {
                temp.push(timer);
                proof {
                    assert forall|a: int, b: int| 0 <= a <= b < temp@.len() implies temp@[a].expire_ms
                        <= temp@[b].expire_ms by {
                        if b == temp@.len() - 1 && a < b {
                            assert(old_temp[a].expire_ms <= old_temp.last().expire_ms);
                        } else if b < temp@.len() - 1 {
                            assert(old_temp[a].expire_ms <= old_temp[b].expire_ms);
                        }
                    }
                    assert(before[i as int] == temp@.last());
                }
            } else {
                proof {
                    if temp@.len() > 0 {
                        let k = choose|k: int| 0 <= k < i && before[k] == temp@.last();
                        assert(0 <= k < i + 1 && before[k] == temp@.last());
                    }
                }
            }
            i += 1;
            proof {
                if temp@.len() > 0 && i < n {
                    let k = choose|k: int| 0 <= k < i && before[k] == temp@.last();
                    assert(before[k].expire_ms <= before[i as int].expire_ms);
                }
            }
        }
        assert(before.subrange(0, n as int) =~= before);
        self.list = temp;
    }

    /// Takes the timers that are due at `current_ms` away and returns
    /// their threads, to be made ready, in the order of their times.
    pub fn check_timer(&mut self, current_ms: usize) -> (woken: Vec<TaskRef>)
        requires
            old(self).wf(),
        ensures
            final(self).wf(),
            woken@.len() == spec_due(old(self)@, current_ms),
            forall|i: int| 0 <= i < woken@.len() ==> woken@[i] == old(self)@[i].task,
            final(self)@ == old(self)@.subrange(woken@.len() as int, old(self)@.len() as int),
            forall|i: int| 0 <= i < final(self)@.len() ==> final(self)@[i].expire_ms > current_ms,
    {
        let ghost before = self.list@;
        let mut woken: Vec<TaskRef> = Vec::new();
        assert(self.list@ =~= before.subrange(0, before.len() as int));
        while self.list.len() > 0 && self.list[0].expire_ms <= current_ms
            invariant
                before == old(self)@,
                spec_sorted(before),
                woken@.len() <= before.len(),
                self.list@ == before.subrange(woken@.len() as int, before.len() as int),
                forall|i: int| 0 <= i < woken@.len() ==> woken@[i] == before[i].task,
                forall|i: int| 0 <= i < woken@.len() ==> before[i].expire_ms <= current_ms,
            decreases self.list@.len(),
        {
            let ghost k = woken@.len();
            assert(self.list@[0] == before[k as int]);
            let timer: TimerCondVar = self.list.remove(0);
            woken.push(timer.task);
            assert(self.list@ =~= before.subrange(woken@.len() as int, before.len() as int));
        }
        proof {
            let k = woken@.len() as int;
            if k < before.len() {
                assert(self.list@[0] == before[k]);
            }
            lemma_due_is(before, current_ms, k);
            lemma_due(before, current_ms);
            assert forall|i: int, j: int| 0 <= i <= j < self.list@.len() implies self.list@[i].expire_ms
                <= self.list@[j].expire_ms by {
                assert(before[i + k].expire_ms <= before[j + k].expire_ms);
            }
        }
        woken
    }
}

} // verus!
