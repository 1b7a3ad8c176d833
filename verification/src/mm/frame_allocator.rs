//! The pool of physical frames that address spaces draw from.
use vstd::prelude::*;
use crate::mm::phys_mem::{PhysMem, zero_frame};
use crate::config::PPN_LIMIT;

verus! {

/// Physical memory together with the record of which frames are handed out.
///
/// Frames below `start` are reserved for the kernel and never handed out.
/// Of the others, those below `current` that are not in `recycled` are in
/// use; a frame is handed out zeroed.
pub struct FrameAllocator {
    mem: PhysMem,
    start: u64,
    current: u64,
    end: u64,
    recycled: Vec<u64>,
}

impl FrameAllocator {
    /// The contents of every frame.
    pub closed spec fn memory(&self) -> PhysMem {
        self.mem
    }

    /// First frame of the pool; the frames below it belong to the kernel.
    pub closed spec fn pool_start(&self) -> int {
        self.start as int
    }

    /// Whether frame `ppn` is handed out.
    pub closed spec fn is_allocated(&self, ppn: int) -> bool {
        self.start <= ppn < self.current && !self.recycled@.contains(ppn as u64)
    }

    /// Number of frames that can still be handed out.
    pub closed spec fn free_count(&self) -> nat {
        (self.end - self.current + self.recycled@.len()) as nat
    }

    /// The allocator's invariant.
    pub closed spec fn wf(&self) -> bool {
        &&& self.mem.wf()
        &&& self.start <= self.current <= self.end
        &&& self.end == self.mem.num_frames()
        &&& self.end <= PPN_LIMIT
        &&& self.recycled@.no_duplicates()
        &&& forall|i: int|
            0 <= i < self.recycled@.len() ==> self.start <= #[trigger] self.recycled@[i]
                < self.current
    }

    /// `other` gives out the same frames as `self`, except possibly `ppn`.
    pub open spec fn same_allocation_except(&self, other: &FrameAllocator, ppn: int) -> bool {
        &&& other.pool_start() == self.pool_start()
        &&& forall|q: int| q != ppn ==> #[trigger] other.is_allocated(q) == self.is_allocated(q)
    }

    /// `other` differs from `self` only on frames of `region`: every frame
    /// outside it has the same bytes and is handed out in both or in neither.
    pub open spec fn unchanged_outside(&self, other: &FrameAllocator, region: Set<int>) -> bool {
        &&& other.pool_start() == self.pool_start()
        &&& other.memory().num_frames() == self.memory().num_frames()
        &&& forall|q: int|
            !region.contains(q) ==> #[trigger] other.is_allocated(q) == self.is_allocated(q)
        &&& forall|q: int|
            0 <= q < self.memory().num_frames() && !region.contains(q)
                ==> #[trigger] other.memory().frame(q) == self.memory().frame(q)
    }

    /// Changes confined to a region are confined to any larger region.
    pub proof fn lemma_unchanged_wider(&self, other: &FrameAllocator, r1: Set<int>, r2: Set<int>)
        requires
            self.unchanged_outside(other, r1),
            r1.subset_of(r2),
        ensures
            self.unchanged_outside(other, r2),
    {
    }

    /// Changes confined to a region, followed by changes confined to a
    /// larger one, are confined to the larger one.
    pub proof fn lemma_unchanged_trans(
        &self,
        mid: &FrameAllocator,
        last: &FrameAllocator,
        r1: Set<int>,
        r2: Set<int>,
    )
        requires
            self.unchanged_outside(mid, r1),
            mid.unchanged_outside(last, r2),
            r1.subset_of(r2),
        ensures
            self.unchanged_outside(last, r2),
    {
        assert forall|q: int| !r2.contains(q) implies #[trigger] last.is_allocated(q)
            == self.is_allocated(q) by {
            assert(mid.is_allocated(q) == self.is_allocated(q));
        }
        assert forall|q: int|
            0 <= q < self.memory().num_frames() && !r2.contains(q) implies #[trigger] last.memory().frame(
            q,
        ) == self.memory().frame(q) by {
            assert(mid.memory().frame(q) == self.memory().frame(q));
        }
    }

    /// A frame that is handed out lies in the pool and in memory.
    pub proof fn lemma_allocated_in_range(&self, ppn: int)
        requires
            self.wf(),
            self.is_allocated(ppn),
        ensures
            self.pool_start() <= ppn < self.memory().num_frames(),
            ppn < PPN_LIMIT,
    {
    }

    /// The memory of a sound pool is sound.
    pub proof fn lemma_memory_wf(&self)
        requires
            self.wf(),
        ensures
            self.memory().wf(),
    {
    }

    /// The pool starts inside memory.
    pub proof fn lemma_pool_start(&self)
        requires
            self.wf(),
        ensures
            0 <= self.pool_start() <= self.memory().num_frames() <= PPN_LIMIT,
    {
    }

    /// `other` gives out exactly the frames that `self` gives out.
    pub open spec fn same_allocation(&self, other: &FrameAllocator) -> bool {
        &&& other.pool_start() == self.pool_start()
        &&& other.free_count() == self.free_count()
        &&& forall|q: int| #[trigger] other.is_allocated(q) == self.is_allocated(q)
    }

    /// A zeroed memory of `num_frames` frames, the first `reserved` of which
    /// belong to the kernel.
    pub fn new(num_frames: usize, reserved: usize) -> (fa: FrameAllocator)
        requires
            reserved <= num_frames <= PPN_LIMIT,
        ensures
            fa.wf(),
            fa.memory().num_frames() == num_frames,
            fa.pool_start() == reserved,
            fa.free_count() == num_frames - reserved,
            forall|p: int| !fa.is_allocated(p),
            forall|p: int| 0 <= p < num_frames ==> #[trigger] fa.memory().frame(p) == zero_frame(),
    {
        FrameAllocator {
            mem: PhysMem::new(num_frames),
            start: reserved as u64,
            current: reserved as u64,
            end: num_frames as u64,
            recycled: Vec::new(),
        }
    }

    /// Number of frames that can still be handed out.
    pub fn available(&self) -> (n: u64)
        requires
            self.wf(),
        ensures
            n == self.free_count(),
    {
        proof {
            self.recycled@.unique_seq_to_set();
            vstd::set_lib::lemma_int_range(self.start as int, self.current as int);
            let s = self.recycled@.to_set();
            let r = Set::new(|x: int| self.start as int <= x < self.current as int);
            let m = s.map(|x: u64| x as int);
            assert(forall |x: u64| s.contains(x) ==> self.recycled@.contains(x));
            assert forall|x: int| m.contains(x) implies r.contains(x) by {
                let y = choose|y: u64| s.contains(y) && y as int == x;
                assert(self.recycled@.contains(y));
            }
            assert(r =~= vstd::set_lib::set_int_range(self.start as int, self.current as int));
            vstd::set_lib::lemma_len_subset(m, r);
            vstd::set_lib::lemma_map_size(s, m, |x: u64| x as int);
        }
        self.end - self.current + self.recycled.len() as u64
    }

    /// First frame of the pool.
    pub fn first_frame(&self) -> (p: u64)
        ensures
            p == self.pool_start(),
    {
        self.start
    }

    /// Reads the byte at offset `off` of frame `ppn`.
    pub fn read_byte(&self, ppn: u64, off: u64) -> (b: u8)
        requires
            self.wf(),
            ppn < self.memory().num_frames(),
            off < 4096,
        ensures
            b == self.memory().frame(ppn as int)[off as int],
    {
        self.mem.read_byte(ppn, off)
    }

    /// Writes `b` at offset `off` of frame `ppn`.
    pub fn write_byte(&mut self, ppn: u64, off: u64, b: u8)
        requires
            old(self).wf(),
            ppn < old(self).memory().num_frames(),
            off < 4096,
        ensures
            final(self).wf(),
            old(self).same_allocation(final(self)),
            old(self).memory().same_except(&final(self).memory(), ppn as int),
            final(self).memory().frame(ppn as int) == old(self).memory().frame(ppn as int).update(
                off as int,
                b,
            ),
    {
        self.mem.write_byte(ppn, off, b);
    }

    /// Reads word `idx` of frame `ppn`.
    pub fn read_word(&self, ppn: u64, idx: u64) -> (w: u64)
        requires
            self.wf(),
            ppn < self.memory().num_frames(),
            idx < 512,
        ensures
            w == self.memory().word(ppn as int, idx as int),
    {
        self.mem.read_word(ppn, idx)
    }

    /// Writes `w` as word `idx` of frame `ppn`; the frame's other words stay.
    pub fn write_word(&mut self, ppn: u64, idx: u64, w: u64)
        requires
            old(self).wf(),
            ppn < old(self).memory().num_frames(),
            idx < 512,
        ensures
            final(self).wf(),
            old(self).same_allocation(final(self)),
            old(self).memory().same_except(&final(self).memory(), ppn as int),
            final(self).memory().word(ppn as int, idx as int) == w,
            forall|j: int|
                0 <= j < 512 && j != idx ==> #[trigger] final(self).memory().word(ppn as int, j)
                    == old(self).memory().word(ppn as int, j),
    {
        self.mem.write_word(ppn, idx, w);
    }

    /// Copies the bytes of frame `src` over frame `dst`.
    pub fn copy_frame(&mut self, src: u64, dst: u64)
        requires
            old(self).wf(),
            src < old(self).memory().num_frames(),
            dst < old(self).memory().num_frames(),
        ensures
            final(self).wf(),
            old(self).same_allocation(final(self)),
            old(self).memory().same_except(&final(self).memory(), dst as int),
            final(self).memory().frame(dst as int) == old(self).memory().frame(src as int),
    {
        self.mem.copy_frame(src, dst);
    }

    /// Hands out one zeroed frame, or `None` when none is left.
    pub fn allocate(&mut self) -> (r: Option<u64>)
        requires
            old(self).wf(),
        ensures
            final(self).wf(),
            r is None <==> old(self).free_count() == 0,
            r is None ==> *final(self) == *old(self),
            r matches Some(p) ==> {
                &&& !old(self).is_allocated(p as int)
                &&& final(self).is_allocated(p as int)
                &&& old(self).same_allocation_except(final(self), p as int)
                &&& final(self).free_count() == old(self).free_count() - 1
                &&& old(self).memory().same_except(&final(self).memory(), p as int)
                &&& final(self).memory().frame(p as int) == zero_frame()
            },
    {
        let got: Option<u64> = if self.recycled.len() > 0 {
            let ghost before = self.recycled@;
            let p = self.recycled.pop().unwrap();
            proof {
                assert(before == self.recycled@.push(p));
                assert(!self.recycled@.contains(p)) by {
                    if self.recycled@.contains(p) {
                        let i = choose|i: int| 0 <= i < self.recycled@.len() && self.recycled@[i] == p;
                        assert(before[i] == p && before[before.len() - 1] == p);
                    }
                }
                assert(before.contains(p)) by {
                    assert(before[before.len() - 1] == p);
                }
                assert forall|q: int| q != p implies self.is_allocated(q) == old(self).is_allocated(q) by {
                    if before.contains(q as u64) && self.start <= q < self.current {
                        let i = choose|i: int| 0 <= i < before.len() && before[i] == q as u64;
                        assert(self.recycled@[i] == q as u64);
                    }
                }
                assert forall|i: int| 0 <= i < self.recycled@.len() implies self.start
                    <= #[trigger] self.recycled@[i] < self.current by {
                    assert(self.recycled@[i] == before[i]);
                }
                assert(self.recycled@.no_duplicates()) by {
                    assert forall|i: int, j: int|
                        0 <= i < self.recycled@.len() && 0 <= j < self.recycled@.len() && i
                            != j implies self.recycled@[i] != self.recycled@[j] by {
                        assert(before[i] == self.recycled@[i] && before[j] == self.recycled@[j]);
                    }
                }
            }
            Some(p)
        } else if self.current < self.end {
            let p = self.current;
            self.current = self.current + 1;
            Some(p)
        } else {
            None
        };
        match got {
            Some(p) => {
                self.mem.clear_frame(p);
                Some(p)
            },
            None => None,
        }
    }

    /// Takes frame `ppn` back into the pool.
    pub fn free(&mut self, ppn: u64)
        requires
            old(self).wf(),
            old(self).is_allocated(ppn as int),
        ensures
            final(self).wf(),
            !final(self).is_allocated(ppn as int),
            old(self).same_allocation_except(final(self), ppn as int),
            final(self).free_count() == old(self).free_count() + 1,
            final(self).memory() == old(self).memory(),
    {
        let ghost before = self.recycled@;
        proof {
            vstd::seq_lib::lemma_seq_contains_after_push(before, ppn, ppn);
        }
        self.recycled.push(ppn);
        proof {
            assert forall|q: int| q != ppn implies self.is_allocated(q) == old(self).is_allocated(
                q,
            ) by {
                vstd::seq_lib::lemma_seq_contains_after_push(before, ppn, q as u64);
            }
            assert(self.recycled@.no_duplicates()) by {
                assert forall|i: int, j: int|
                    0 <= i < self.recycled@.len() && 0 <= j < self.recycled@.len() && i
                        != j implies self.recycled@[i] != self.recycled@[j] by {
                    if i < before.len() {
                        assert(before.contains(before[i]));
                    }
                    if j < before.len() {
                        assert(before.contains(before[j]));
                    }
                }
            }
        }
    }
}

} // verus!
