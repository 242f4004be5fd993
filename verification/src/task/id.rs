//! Identifiers that are handed out and taken back: process ids, thread ids
//! and kernel stacks; and where the stacks and trap contexts of a thread
//! lie.
use crate::config::{KERNEL_STACK_SIZE, PAGE_SIZE, TRAMPOLINE, TRAP_CONTEXT_BASE, USER_STACK_SIZE};
use vstd::prelude::*;

verus! {

/// Hands out numbers from 0 up and prefers those that were given back.
pub struct RecycleAllocator {
    current: usize,
    recycled: Vec<usize>,
}

impl RecycleAllocator {
    /// The numbers below this one were handed out at least once.
    pub closed spec fn spec_current(&self) -> int {
        self.current as int
    }

    /// The numbers that were given back and not handed out again, the one
    /// given back last at the end.
    pub closed spec fn spec_recycled(&self) -> Seq<usize> {
        self.recycled@
    }

    /// Is `id` handed out at present?
    pub open spec fn spec_allocated(&self, id: usize) -> bool {
        id < self.spec_current() && !self.spec_recycled().contains(id)
    }

    /// The invariant: every number given back was handed out before, and
    /// none is there twice.
    pub open spec fn wf(&self) -> bool {
        &&& forall|i: int|
            0 <= i < self.spec_recycled().len() ==> (#[trigger] self.spec_recycled()[i])
                < self.spec_current()
        &&& self.spec_recycled().no_duplicates()
    }

    /// The numbers below this one were handed out at least once.
    pub fn current(&self) -> (current: usize)
        ensures
            current == self.spec_current(),
    {
        self.current
    }

    /// An allocator that has handed out nothing.
    pub fn new() -> (allocator: Self)
        ensures
            allocator.wf(),
            allocator.spec_current() == 0,
            allocator.spec_recycled() == Seq::<usize>::empty(),
    {
        RecycleAllocator { current: 0, recycled: Vec::new() }
    }

    /// Hands out a number: the one that was given back last, or else the
    /// lowest that was never handed out.
    pub fn allocate(&mut self) -> (id: usize)
        requires
            old(self).wf(),
            old(self).spec_recycled().len() == 0 ==> old(self).spec_current() < usize::MAX,
        ensures
            final(self).wf(),
            !old(self).spec_allocated(id),
            final(self).spec_allocated(id),
            forall|other: usize|
                other != id ==> final(self).spec_allocated(other) == old(self).spec_allocated(other),
            old(self).spec_recycled().len() > 0 ==> id == old(self).spec_recycled().last()
                && final(self).spec_recycled() == old(self).spec_recycled().drop_last()
                && final(self).spec_current() == old(self).spec_current(),
            old(self).spec_recycled().len() == 0 ==> id == old(self).spec_current() && final(self).spec_current() == id + 1 && final(self).spec_recycled() == old(self).spec_recycled(),
    {
        let ghost before = self.recycled@;
        if let Some(id) = self.recycled.pop() {
            proof {
                let after = self.recycled@;
                assert(after =~= before.drop_last());
                assert(before.contains(id)) by {
                    assert(before[before.len() - 1] == id);
                }
                assert(!after.contains(id)) by {
                    if after.contains(id) {
                        let i = choose|i: int| 0 <= i < after.len() && after[i] == id;
                        assert(before[i] == before[before.len() - 1]);
                    }
                }
                assert forall|other: usize| other != id implies self.spec_allocated(other) == old(self).spec_allocated(other) by {
                    if before.contains(other) {
                        let i = choose|i: int| 0 <= i < before.len() && before[i] == other;
                        assert(after[i] == other);
                    }
                    if after.contains(other) {
                        let i = choose|i: int| 0 <= i < after.len() && after[i] == other;
                        assert(before[i] == other);
                    }
                }
                assert(after.no_duplicates());
            }
            id
        } else {
            self.current += 1;
            proof {
                assert(!before.contains((self.current - 1) as usize)) by {
                    if before.contains((self.current - 1) as usize) {
                        let i = choose|i: int|
                            0 <= i < before.len() && before[i] == (self.current - 1) as usize;
                        assert(before[i] < old(self).current);
                    }
                }
            }
            self.current - 1
        }
    }

    /// Is `id` handed out at present?
    pub fn is_allocated(&self, id: usize) -> (r: bool)
        ensures
            r == self.spec_allocated(id),
    {
        if id >= self.current {
            return false;
        }
        let n: usize = self.recycled.len();
        let mut i: usize = 0;
        while i < n
            invariant
                i <= n,
                n == self.recycled@.len(),
                forall|k: int| 0 <= k < i ==> self.recycled@[k] != id,
            decreases n - i,
        {
            if self.recycled[i] == id {
                return false;
            }
            i += 1;
        }
        true
    }

    /// Takes back `id`, which must be handed out at present.
    pub fn dealloc(&mut self, id: usize)
        requires
            old(self).wf(),
            old(self).spec_allocated(id),
        ensures
            final(self).wf(),
            !final(self).spec_allocated(id),
            forall|other: usize|
                other != id ==> final(self).spec_allocated(other) == old(self).spec_allocated(other),
            final(self).spec_recycled() == old(self).spec_recycled().push(id),
            final(self).spec_current() == old(self).spec_current(),
    {
        let ghost before = self.recycled@;
        self.recycled.push(id);
        proof {
            let after = self.recycled@;
            assert(after[after.len() - 1] == id);
            assert forall|other: usize| other != id implies self.spec_allocated(other) == old(self).spec_allocated(other) by {
                if before.contains(other) {
                    let i = choose|i: int| 0 <= i < before.len() && before[i] == other;
                    assert(after[i] == other);
                }
                if after.contains(other) {
                    let i = choose|i: int| 0 <= i < after.len() && after[i] == other;
                    assert(before[i] == other);
                }
            }
            assert forall|i: int, j: int|
                0 <= i < after.len() && 0 <= j < after.len() && i != j implies after[i]
                != after[j] by {
                if i < before.len() && j < before.len() {
                    assert(before[i] != before[j]);
                } else if i < before.len() {
                    assert(before.contains(before[i]));
                } else if j < before.len() {
                    assert(before.contains(before[j]));
                }
            }
        }
    }
}

/// A process id that is handed out.
#[derive(Copy, Clone, PartialEq, Eq, Structural, Debug)]
pub struct PidHandle(pub usize);

/// A kernel stack, named by its number.
#[derive(Copy, Clone, PartialEq, Eq, Structural, Debug)]
pub struct KernelStack(pub usize);

/// The lowest and the highest address of kernel stack `kstack_id`: the
/// stacks lie below the trampoline, each with a guard page above the next.
pub open spec fn spec_kernel_stack_position(kstack_id: int) -> (int, int) {
    let top = TRAMPOLINE - kstack_id * (KERNEL_STACK_SIZE + PAGE_SIZE);
    (top - KERNEL_STACK_SIZE, top)
}

/// Does kernel stack `kstack_id` lie in the address space?
pub fn kernel_stack_fits(kstack_id: usize) -> (fits: bool)
    ensures
        fits == (spec_kernel_stack_position(kstack_id as int).0 >= 0),
{
    let stride: usize = KERNEL_STACK_SIZE + PAGE_SIZE;
    let room: usize = TRAMPOLINE - KERNEL_STACK_SIZE;
    kstack_id <= room / stride
}

/// The lowest and the highest address of kernel stack `kstack_id`.
pub fn kernel_stack_position(kstack_id: usize) -> (r: (usize, usize))
    requires
        spec_kernel_stack_position(kstack_id as int).0 >= 0,
    ensures
        r.0 == spec_kernel_stack_position(kstack_id as int).0,
        r.1 == spec_kernel_stack_position(kstack_id as int).1,
{
    let top: usize = TRAMPOLINE - kstack_id * (KERNEL_STACK_SIZE + PAGE_SIZE);
    let bottom: usize = top - KERNEL_STACK_SIZE;
    (bottom, top)
}

impl KernelStack {
    /// The address where a value of `size` bytes pushed on the empty stack
    /// lies.
    pub fn push_on_top(&self, size: usize) -> (address: usize)
        requires
            spec_kernel_stack_position(self.0 as int).0 >= 0,
            size <= KERNEL_STACK_SIZE,
        ensures
            address == spec_kernel_stack_position(self.0 as int).1 - size,
    {
        let top: usize = self.get_top();
        top - size
    }

    /// The highest address of the stack.
    pub fn get_top(&self) -> (top: usize)
        requires
            spec_kernel_stack_position(self.0 as int).0 >= 0,
        ensures
            top == spec_kernel_stack_position(self.0 as int).1,
    {
        let (_, top) = kernel_stack_position(self.0);
        top
    }
}

/// The lowest address of the user stack of thread `tid`: the stacks lie
/// above `ustack_base`, each with a guard page below the next.
pub open spec fn spec_ustack_bottom(ustack_base: int, tid: int) -> int {
    ustack_base + tid * (USER_STACK_SIZE + PAGE_SIZE)
}

/// The lowest address of the trap context of thread `tid`: the contexts lie
/// below the trampoline, one page each.
pub open spec fn spec_trap_cx_bottom(tid: int) -> int {
    TRAP_CONTEXT_BASE - tid * PAGE_SIZE
}

/// The lowest address of the user stack of thread `tid`.
pub fn ustack_bottom_from_tid(ustack_base: usize, tid: usize) -> (bottom: usize)
    requires
        spec_ustack_bottom(ustack_base as int, tid as int) <= usize::MAX,
    ensures
        bottom == spec_ustack_bottom(ustack_base as int, tid as int),
{
    ustack_base + tid * (USER_STACK_SIZE + PAGE_SIZE)
}

/// The lowest address of the trap context of thread `tid`.
pub fn trap_cx_bottom_from_tid(tid: usize) -> (bottom: usize)
    requires
        spec_trap_cx_bottom(tid as int) >= 0,
    ensures
        bottom == spec_trap_cx_bottom(tid as int),
{
    TRAP_CONTEXT_BASE - tid * PAGE_SIZE
}

/// What a thread owns in its address space: its number, and through it its
/// user stack and its trap context.
#[derive(Copy, Clone, PartialEq, Eq, Structural, Debug)]
pub struct TaskUserRes {
    pub tid: usize,
    pub ustack_base: usize,
    pub process: usize,
}

/// A range of addresses to map or unmap in the address space of a process.
#[derive(Copy, Clone, PartialEq, Eq, Structural, Debug)]
pub struct Area {
    pub start: usize,
    pub end: usize,
}

impl TaskUserRes {
    /// Do the user stack and the trap context of the thread lie in the
    /// address space?
    pub open spec fn wf(&self) -> bool {
        &&& spec_ustack_bottom(self.ustack_base as int, self.tid as int) + USER_STACK_SIZE
            <= usize::MAX
        &&& spec_trap_cx_bottom(self.tid as int) >= 0
    }

    /// The resources of thread `tid` of process `process`.
    pub fn new(process: usize, tid: usize, ustack_base: usize) -> (res: Self)
        ensures
            res.tid == tid,
            res.ustack_base == ustack_base,
            res.process == process,
    {
        TaskUserRes { tid, ustack_base, process }
    }

    /// The two areas to map for the thread: its user stack and the page of
    /// its trap context.
    pub fn alloc_user_res(&self) -> (areas: (Area, Area))
        requires
            self.wf(),
        ensures
            areas.0.start == spec_ustack_bottom(self.ustack_base as int, self.tid as int),
            areas.0.end == areas.0.start + USER_STACK_SIZE,
            areas.1.start == spec_trap_cx_bottom(self.tid as int),
            areas.1.end == areas.1.start + PAGE_SIZE,
    {
        let ustack_bottom: usize = ustack_bottom_from_tid(self.ustack_base, self.tid);
        let ustack_top: usize = ustack_bottom + USER_STACK_SIZE;
        let trap_cx_bottom: usize = trap_cx_bottom_from_tid(self.tid);
        let trap_cx_top: usize = trap_cx_bottom + PAGE_SIZE;
        (
            Area { start: ustack_bottom, end: ustack_top },
            Area { start: trap_cx_bottom, end: trap_cx_top },
        )
    }

    /// The start addresses of the two areas to unmap when the thread gives
    /// up its resources: of its user stack and of its trap context.
    pub fn dealloc_user_res(&self) -> (starts: (usize, usize))
        requires
            self.wf(),
        ensures
            starts.0 == spec_ustack_bottom(self.ustack_base as int, self.tid as int),
            starts.1 == spec_trap_cx_bottom(self.tid as int),
    {
        (ustack_bottom_from_tid(self.ustack_base, self.tid), trap_cx_bottom_from_tid(self.tid))
    }

    /// The highest address of the user stack of the thread.
    pub fn ustack_top(&self) -> (top: usize)
        requires
            self.wf(),
        ensures
            top == spec_ustack_bottom(self.ustack_base as int, self.tid as int) + USER_STACK_SIZE,
    {
        ustack_bottom_from_tid(self.ustack_base, self.tid) + USER_STACK_SIZE
    }

    /// The address of the trap context of the thread in its address space.
    pub fn trap_cx_va(&self) -> (va: usize)
        requires
            self.wf(),
        ensures
            va == spec_trap_cx_bottom(self.tid as int),
    {
        trap_cx_bottom_from_tid(self.tid)
    }
}

} // verus!
