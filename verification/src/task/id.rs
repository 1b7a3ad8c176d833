//! Process ids and kernel stacks.
use vstd::prelude::*;
use crate::config::{PID_LIMIT, TRAMPOLINE};

verus! {

/// Hands out process ids: the lowest id never used, or the id given back
/// last.
pub struct PidAllocator {
    current: usize,
    recycled: Vec<usize>,
}

impl PidAllocator {
    /// The lowest id that was never handed out.
    pub closed spec fn next(&self) -> int {
        self.current as int
    }

    /// Whether `pid` is handed out.
    pub closed spec fn is_allocated(&self, pid: int) -> bool {
        0 <= pid < self.current && !self.recycled@.contains(pid as usize)
    }

    /// Whether an id can still be handed out.
    pub closed spec fn can_allocate(&self) -> bool {
        self.recycled@.len() > 0 || self.current < PID_LIMIT
    }

    /// The id that the next call of [`PidAllocator::allocate`] hands out.
    pub closed spec fn upcoming(&self) -> int {
        if self.recycled@.len() > 0 {
            self.recycled@[self.recycled@.len() - 1] as int
        } else {
            self.current as int
        }
    }

    /// The allocator's invariant.
    pub closed spec fn wf(&self) -> bool {
        &&& self.current <= PID_LIMIT
        &&& self.recycled@.no_duplicates()
        &&& forall|i: int| 0 <= i < self.recycled@.len() ==> #[trigger] self.recycled@[i] < self.current
    }

    /// The id that comes next is not handed out, and is at most the lowest
    /// unused one.
    pub proof fn lemma_upcoming(&self)
        requires
            self.wf(),
        ensures
            !self.is_allocated(self.upcoming()),
            0 <= self.upcoming() <= self.next(),
            self.can_allocate() ==> self.upcoming() < PID_LIMIT,
    {
        if self.recycled@.len() > 0 {
            let last = self.recycled@.len() - 1;
            assert(self.recycled@.contains(self.recycled@[last]));
        }
    }

    /// When no id was ever handed out, the id 0 comes next.
    pub proof fn lemma_first(&self)
        requires
            self.wf(),
            self.next() == 0,
        ensures
            self.upcoming() == 0,
            self.can_allocate(),
    {
        if self.recycled@.len() > 0 {
            assert(self.recycled@[0] < self.current);
        }
    }

    /// An allocator that has handed out nothing.
    pub fn new() -> (a: PidAllocator)
        ensures
            a.wf(),
            a.next() == 0,
            forall|p: int| !a.is_allocated(p),
            a.can_allocate(),
    {
        PidAllocator { current: 0, recycled: Vec::new() }
    }

    /// Hands out an id, or `None` when none is left.
    pub fn allocate(&mut self) -> (r: Option<usize>)
        requires
            old(self).wf(),
        ensures
            final(self).wf(),
            r is None <==> !old(self).can_allocate(),
            r is None ==> *final(self) == *old(self),
            r matches Some(p) ==> {
                &&& p == old(self).upcoming()
                &&& !old(self).is_allocated(p as int)
                &&& final(self).is_allocated(p as int)
                &&& forall|q: int|
                    q != p ==> #[trigger] final(self).is_allocated(q) == old(self).is_allocated(q)
                &&& final(self).next() == (if p == old(self).next() {
                    old(self).next() + 1
                } else {
                    old(self).next()
                })
            },
    {
        if self.recycled.len() > 0 {
            let ghost before = self.recycled@;
            let p = self.recycled.pop().unwrap();
            proof {
                assert(before == self.recycled@.push(p));
                assert(before[before.len() - 1] == p);
                assert(!self.recycled@.contains(p)) by {
                    if self.recycled@.contains(p) {
                        let i = choose|i: int| 0 <= i < self.recycled@.len() && self.recycled@[i] == p;
                        assert(before[i] == p);
                    }
                }
                assert forall|q: int| q != p implies #[trigger] self.is_allocated(q) == old(
                    self,
                ).is_allocated(q) by {
                    if before.contains(q as usize) && 0 <= q < self.current {
                        let i = choose|i: int| 0 <= i < before.len() && before[i] == q as usize;
                        assert(self.recycled@[i] == q as usize);
                    }
                }
                assert forall|i: int| 0 <= i < self.recycled@.len() implies #[trigger] self.recycled@[i]
                    < self.current by {
                    assert(self.recycled@[i] == before[i]);
                }
                assert(self.recycled@.no_duplicates()) by {
                    assert forall|i: int, j: int|
                        0 <= i < self.recycled@.len() && 0 <= j < self.recycled@.len() && i
                            != j implies self.recycled@[i] != self.recycled@[j] by {
                        assert(before[i] == self.recycled@[i] && before[j] == self.recycled@[j]);
                    }
                }
            }
            Some(p)
        } else if self.current < PID_LIMIT {
            let p = self.current;
            self.current = self.current + 1;
            Some(p)
        } else {
            None
        }
    }

    /// Takes the id `pid` back.
    pub fn free(&mut self, pid: usize)
        requires
            old(self).wf(),
            old(self).is_allocated(pid as int),
        ensures
            final(self).wf(),
            !final(self).is_allocated(pid as int),
            forall|q: int|
                q != pid ==> #[trigger] final(self).is_allocated(q) == old(self).is_allocated(q),
            final(self).next() == old(self).next(),
    {
        let ghost before = self.recycled@;
        proof {
            vstd::seq_lib::lemma_seq_contains_after_push(before, pid, pid);
        }
        self.recycled.push(pid);
        proof {
            assert forall|q: int| q != pid implies #[trigger] self.is_allocated(q) == old(
                self,
            ).is_allocated(q) by {
                vstd::seq_lib::lemma_seq_contains_after_push(before, pid, q as usize);
            }
            assert(self.recycled@.no_duplicates()) by {
                assert forall|i: int, j: int|
                    0 <= i < self.recycled@.len() && 0 <= j < self.recycled@.len() && i
                        != j implies self.recycled@[i] != self.recycled@[j] by {
                    if i < before.len() {
                        assert(before.contains(before[i]));
                    }
                    if j < before.len() {
                        assert(before.contains(before[j]));
                    }
                }
            }
        }
    }
}

/// Where the kernel stack of the task `pid` lies: its lowest address and
/// the address just past it. Stacks of two pages hang below the highest
/// page, one guard page apart.
pub open spec fn stack_position(pid: int) -> (int, int) {
    let top = TRAMPOLINE - pid * 12288;
    (top - 8192, top)
}

/// Where the kernel stack of the task `pid` lies.
pub fn kernel_stack_position(pid: usize) -> (r: (u64, u64))
    requires
        pid < PID_LIMIT,
    ensures
        r.0 == stack_position(pid as int).0,
        r.1 == stack_position(pid as int).1,
{
    let top = TRAMPOLINE - (pid as u64) * 12288;
    (top - 8192, top)
}

/// The kernel stack of one task.
#[derive(Clone, Copy, Debug)]
pub struct KernelStack {
    pub pid: usize,
}

impl KernelStack {
    /// The address just past the stack, where the stack pointer starts.
    pub fn get_top(&self) -> (top: u64)
        requires
            self.pid < PID_LIMIT,
        ensures
            top == stack_position(self.pid as int).1,
    {
        kernel_stack_position(self.pid).1
    }
}

} // verus!
