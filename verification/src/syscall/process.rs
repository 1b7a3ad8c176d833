//! The system calls that deal with processes and their memory.
use vstd::prelude::*;
use vstd::bytes::{spec_u32_to_le_bytes, spec_u64_to_le_bytes, u32_to_le_bytes, u64_to_le_bytes};
use crate::config::{IDLE_PID, VA_LIMIT, VPN_LIMIT};
use crate::kernel::{child_apart, clock_inv, fork_links, lemma_children, lemma_clock_same,
    lemma_fork_tree, lemma_mem_insert, lemma_mem_remove, lemma_mem_same, lemma_mem_step,
    lemma_other_kept, lemma_parent, lemma_pid_same, lemma_reap_tree, lemma_sched_same,
    lemma_tree_same, live_in, pid_inv, reap_links, same_pids, sched_inv, Kernel};
use crate::mm::address::{VirtAddr, VirtPageNum};
use crate::mm::duplicate::duplicate_cost;
use crate::mm::image::raw_image;
use crate::mm::loader::image_cost;
use crate::mm::memory_set::{range_cost, MapPermission, MapType, MemorySet};
use crate::mm::page_table::{leaf_entry, MapError, PageTable, PTE_R, PTE_U, PTE_V, PTE_W, PTE_X};
use crate::task::{area_perm, exit_current_and_run_next, insert_framed_area,
    suspend_current_and_run_next, un_map};
use crate::task::task::{TaskControlBlock, TaskInfo, TaskStatus};

verus! {

/// A time as seconds and microseconds.
#[derive(Clone, Copy, PartialEq, Eq, Structural, Debug)]
pub struct TimeVal {
    pub sec: usize,
    pub usec: usize,
}

impl TimeVal {
    /// The sixteen bytes that hold the time in user memory: the seconds,
    /// then the microseconds, each as a 64-bit little-endian number.
    pub open spec fn encoding(self) -> Seq<u8> {
        spec_u64_to_le_bytes(self.sec as u64).add(spec_u64_to_le_bytes(self.usec as u64))
    }

    /// The bytes that hold the time in user memory.
    pub fn to_bytes(&self) -> (bytes: Vec<u8>)
        ensures
            bytes@ == self.encoding(),
            bytes@.len() == 16,
    {
        let mut bytes = u64_to_le_bytes(self.sec as u64);
        let mut rest = u64_to_le_bytes(self.usec as u64);
        bytes.append(&mut rest);
        bytes
    }
}

/// The byte that stands for a status in user memory.
pub open spec fn status_byte(s: TaskStatus) -> u8 {
    match s {
        TaskStatus::UnInit => 0,
        TaskStatus::Ready => 1,
        TaskStatus::Running => 2,
        TaskStatus::Zombie => 3,
    }
}

/// Bytes that a task's record takes in user memory.
pub const TASK_INFO_SIZE: usize = 2016;

/// Byte `i` of a task's record in user memory: the status in byte 0; from
/// byte 4 on the 500 counters, each a 32-bit little-endian number; from byte
/// 2008 on the running time, a 64-bit little-endian number; zero elsewhere.
pub open spec fn task_info_byte(status: TaskStatus, counts: Seq<u32>, time: usize, i: int) -> u8 {
    if i == 0 {
        status_byte(status)
    } else if i < 4 {
        0
    } else if i < 2004 {
        spec_u32_to_le_bytes(counts[(i - 4) / 4])[(i - 4) % 4]
    } else if i < 2008 {
        0
    } else {
        spec_u64_to_le_bytes(time as u64)[i - 2008]
    }
}

/// The bytes that hold a task's record in user memory.
pub open spec fn task_info_encoding(status: TaskStatus, counts: Seq<u32>, time: usize) -> Seq<u8> {
    Seq::new(2016, |i: int| task_info_byte(status, counts, time, i))
}

/// The bytes that hold the record `info` in user memory, with `status`
/// for the status.
pub fn task_info_bytes(info: &TaskInfo, status: TaskStatus) -> (bytes: Vec<u8>)
    ensures
        bytes@ == task_info_encoding(status, info.syscall_times@, info.time),
        bytes@.len() == 2016,
{
    let ghost want = task_info_encoding(status, info.syscall_times@, info.time);
    let mut bytes: Vec<u8> = Vec::new();
    let sb: u8 = match status {
        TaskStatus::UnInit => 0,
        TaskStatus::Ready => 1,
        TaskStatus::Running => 2,
        TaskStatus::Zombie => 3,
    };
    bytes.push(sb);
    bytes.push(0);
    bytes.push(0);
    bytes.push(0);
    let mut k: usize = 0;
    while k < 500
        invariant
            k <= 500,
            bytes@.len() == 4 + 4 * k,
            want == task_info_encoding(status, info.syscall_times@, info.time),
            forall|i: int| 0 <= i < bytes@.len() ==> bytes@[i] == want[i],
        decreases 500 - k,
    {
        let w = u32_to_le_bytes(info.syscall_times[k]);
        let ghost before = bytes@;
        bytes.push(w[0]);
        bytes.push(w[1]);
        bytes.push(w[2]);
        bytes.push(w[3]);
        proof {
            assert forall|i: int| 0 <= i < bytes@.len() implies bytes@[i] == want[i] by {
                if i < before.len() {
                    assert(bytes@[i] == before[i]);
                } else {
                    assert((i - 4) / 4 == k as int);
                }
            }
        }
        k += 1;
    }
    bytes.push(0);
    bytes.push(0);
    bytes.push(0);
    bytes.push(0);
    let t = u64_to_le_bytes(info.time as u64);
    let mut j: usize = 0;
    while j < 8
        invariant
            j <= 8,
            t@ == spec_u64_to_le_bytes(info.time as u64),
            t@.len() == 8,
            bytes@.len() == 2008 + j,
            want == task_info_encoding(status, info.syscall_times@, info.time),
            forall|i: int| 0 <= i < bytes@.len() ==> bytes@[i] == want[i],
        decreases 8 - j,
    {
        bytes.push(t[j]);
        j += 1;
    }
    proof {
        assert(bytes@ =~= want);
    }
    bytes
}

/// The four bytes that hold an exit code in user memory: a 32-bit
/// little-endian number in two's complement.
pub open spec fn exit_code_encoding(code: i32) -> Seq<u8> {
    spec_u32_to_le_bytes(code as u32)
}

/// The bytes that hold an exit code in user memory.
pub fn exit_code_bytes(code: i32) -> (bytes: Vec<u8>)
    ensures
        bytes@ == exit_code_encoding(code),
        bytes@.len() == 4,
{
    u32_to_le_bytes(#[verifier::truncate] (code as u32))
}

/// Yields the processor: the task that runs goes to the tail of the ready
/// queue and the task at its head runs. Returns 0.
pub fn sys_yield(kernel: &mut Kernel) -> (r: isize)
    requires
        old(kernel).wf(),
        old(kernel).processor.current is Some,
    ensures
        r == 0,
        final(kernel).wf(),
        old(kernel).suspended(final(kernel)),
{
    suspend_current_and_run_next(kernel);
    0
}

/// The pid of the task that runs.
pub fn sys_getpid(kernel: &Kernel) -> (r: isize)
    requires
        kernel.wf(),
        kernel.processor.current is Some,
    ensures
        r == kernel.processor.current->0,
        r == kernel.task(kernel.processor.current->0 as int).pid,
{
    proof {
        kernel.lemma_current();
    }
    kernel.processor.current.unwrap() as isize
}

/// Starting a program in a new process is not offered: returns -1.
pub fn sys_spawn(_path: usize) -> (r: isize)
    ensures
        r == -1,
{
    -1
}

/// Priorities are not offered: returns -1.
pub fn sys_set_priority(_prio: isize) -> (r: isize)
    ensures
        r == -1,
{
    -1
}

/// The physical address behind the virtual address `va` in the address
/// space of the task that runs: the frame of its page, then the offset in
/// the page.
pub fn get_pa_from_va(kernel: &Kernel, va: usize) -> (pa: usize)
    requires
        kernel.wf(),
        kernel.processor.current is Some,
        va < VA_LIMIT,
        leaf_entry(
            kernel.frames.memory(),
            kernel.space(kernel.processor.current->0 as int).root(),
            va as int / 4096,
        ) is Some,
    ensures
        pa == leaf_entry(
            kernel.frames.memory(),
            kernel.space(kernel.processor.current->0 as int).root(),
            va as int / 4096,
        )->0.target() * 4096 + va % 4096,
{
    let c = kernel.processor.current.unwrap();
    proof {
        kernel.lemma_current();
        kernel.space(c as int).lemma_structure(&kernel.frames);
    }
    match &kernel.tasks[c] {
        Some(t) => {
            let token = t.memory_set.token(&kernel.frames);
            let page_table = PageTable::from_token(token);
            let vpn = VirtAddr(va as u64).floor();
            let offset = VirtAddr(va as u64).page_offset();
            let ppn = page_table.translate(&kernel.frames, vpn.0).unwrap().ppn();
            (ppn * 4096 + offset) as usize
        },
        None => 0,
    }
}

impl Kernel {
    /// Whether every page that `[va, va + len)` touches is mapped in the
    /// address space of the task that runs.
    pub open spec fn user_range_mapped(&self, va: int, len: int) -> bool {
        self.processor.current is Some && va + len <= VA_LIMIT && self.space(
            self.processor.current->0 as int,
        ).range_mapped(&self.frames, va, len)
    }

    /// Tests whether every page that `[va, va + len)` touches is mapped in
    /// the address space of the task that runs.
    pub fn is_user_range_mapped(&self, va: usize, len: usize) -> (r: bool)
        requires
            self.wf(),
        ensures
            r == self.user_range_mapped(va as int, len as int),
    {
        match self.processor.current {
            None => false,
            Some(c) => {
                proof {
                    self.lemma_current();
                }
                if va as u64 > VA_LIMIT || len as u64 > VA_LIMIT - va as u64 {
                    return false;
                }
                match &self.tasks[c] {
                    Some(t) => t.memory_set.is_range_mapped(
                        &self.frames,
                        VirtAddr(va as u64),
                        len as u64,
                    ),
                    None => false,
                }
            },
        }
    }

    /// What writing the bytes `data` at the address `va` of the task that
    /// runs leaves behind: the bytes stand there, every other byte of the
    /// task's memory is as it was, and nothing but memory changes.
    pub open spec fn user_written(&self, next: &Kernel, va: int, data: Seq<u8>) -> bool {
        let c = self.processor.current->0 as int;
        &&& next.wf()
        &&& next.tasks@ == self.tasks@
        &&& next.pids == self.pids
        &&& next.loader == self.loader
        &&& next.time_us == self.time_us
        &&& next.manager == self.manager
        &&& next.processor == self.processor
        &&& self.space(c).wrote_bytes(&self.frames, &next.frames, va, data, 0, data.len() as int)
    }

    /// Writes the bytes `data` at the address `va` of the task that runs.
    pub fn write_user(&mut self, va: usize, data: &Vec<u8>)
        requires
            old(self).wf(),
            old(self).user_range_mapped(va as int, data@.len() as int),
        ensures
            old(self).user_written(final(self), va as int, data@),
    {
        let c = self.processor.current.unwrap();
        proof {
            old(self).lemma_current();
        }
        let n = data.len();
        match &self.tasks[c] {
            Some(t) => {
                let ok = t.memory_set.write_bytes(&mut self.frames, VirtAddr(va as u64), data, 0, n);
            },
            None => {},
        }
        proof {
            let ms = old(self).space(c as int);
            let region = ms.data_frames().union(MemorySet::kernel_frames(&old(self).frames));
            assert forall|x: int| #[trigger] region.contains(x) implies ms.frames().contains(x)
                || !old(self).frames.is_allocated(x) by {
                if old(self).frames.is_allocated(x) {
                    old(self).frames.lemma_allocated_in_range(x);
                }
            }
            lemma_mem_step(
                old(self).tasks@,
                self.tasks@,
                old(self).frames,
                self.frames,
                c as int,
                region,
            );
        }
    }
}

/// Writes the time, as seconds and microseconds, to the `TimeVal` at the
/// address `ts` of the task that runs. Returns 0.
pub fn sys_get_time(kernel: &mut Kernel, ts: usize, _tz: usize) -> (r: isize)
    requires
        old(kernel).wf(),
        old(kernel).user_range_mapped(ts as int, 16),
    ensures
        r == 0,
        old(kernel).user_written(
            final(kernel),
            ts as int,
            (TimeVal {
                sec: (old(kernel).time_us / 1000000) as usize,
                usec: (old(kernel).time_us % 1000000) as usize,
            }).encoding(),
        ),
{
    let us = kernel.get_time_us();
    let tv = TimeVal { sec: us / 1000000, usec: us % 1000000 };
    let bytes = tv.to_bytes();
    kernel.write_user(ts, &bytes);
    0
}

/// Writes the record of the task that runs to the address `ti`: its
/// status, how often it made each system call, and its running time.
/// Returns 0, or -1 when no task runs.
pub fn sys_task_info(kernel: &mut Kernel, ti: usize) -> (r: isize)
    requires
        old(kernel).wf(),
        old(kernel).processor.current is Some ==> old(kernel).user_range_mapped(ti as int, 2016),
    ensures
        match old(kernel).processor.current {
            None => r == -1 && old(kernel).same_as(final(kernel)),
            Some(c) => r == 0 && old(kernel).user_written(
                final(kernel),
                ti as int,
                task_info_encoding(
                    TaskStatus::Running,
                    old(kernel).task(c as int).task_info.syscall_times@,
                    old(kernel).task(c as int).task_info.time,
                ),
            ),
        },
{
    let c = match kernel.processor.current {
        None => {
            return -1;
        },
        Some(c) => c,
    };
    proof {
        old(kernel).lemma_current();
    }
    let bytes = match &kernel.tasks[c] {
        Some(t) => task_info_bytes(&t.task_info, t.task_status),
        None => Vec::new(),
    };
    kernel.write_user(ti, &bytes);
    0
}

/// The permission bits that [`sys_mmap`] asks for a region with the
/// port `port`: read, write and execute from the port's low three bits, one
/// place up, then user access and valid.
pub open spec fn mmap_prot(port: usize) -> usize {
    ((port << 1) & 0xf) | 0x10 | 0x1
}

impl Kernel {
    /// What [`sys_mmap`] leaves behind, and what it returns.
    ///
    /// It returns -1 and changes nothing when `len` is 0, when `port` has
    /// none of its low three bits set or any other bit, when `start` is not
    /// the first address of a page, or when the range ends outside the
    /// address space. Else it does what [`insert_framed_area`] does for the
    /// range, with the permissions of the port.
    pub open spec fn mmapped(&self, next: &Kernel, start: usize, len: usize, port: usize, r: isize) -> bool {
        if len == 0 || port & 0x7 == 0 || port & !0x7usize != 0 || start % 4096 != 0 || start + len
            > VA_LIMIT {
            r == -1 && self.same_as(next)
        } else {
            self.area_inserted(
                next,
                VirtAddr(start as u64),
                VirtAddr((start + len) as u64),
                mmap_prot(port),
                r,
            )
        }
    }

    /// The state while [`sys_munmap`] goes through the pages `[s, e)` and
    /// has reached page `at`: the pages before `at` are unmapped, every
    /// other page is as it was, and `ok` tells whether all the pages before
    /// `at` were mapped.
    pub open spec fn munmapping(&self, cur: &Kernel, s: int, at: int, ok: bool) -> bool {
        let c = self.processor.current->0 as int;
        &&& cur.wf()
        &&& self.only_space_changed(cur, c)
        &&& cur.space(c).root() == self.space(c).root()
        &&& cur.frames.pool_start() == self.frames.pool_start()
        &&& cur.space(c).frames().subset_of(self.space(c).frames())
        &&& self.frames.unchanged_outside(&cur.frames, self.space(c).frames())
        &&& forall|v: int|
            s <= v < at ==> (#[trigger] leaf_entry(cur.frames.memory(), cur.space(c).root(), v))
                is None
        &&& forall|v: int|
            0 <= v < VPN_LIMIT && !(s <= v < at) ==> #[trigger] leaf_entry(
                cur.frames.memory(),
                cur.space(c).root(),
                v,
            ) == leaf_entry(self.frames.memory(), self.space(c).root(), v)
        &&& ok == (forall|v: int|
            s <= v < at ==> (#[trigger] leaf_entry(self.frames.memory(), self.space(c).root(), v))
                is Some)
        &&& forall|v: int| s <= v < at ==> #[trigger] self.page_frame_freed(cur, v)
    }

    /// The frame that page `v` of the task that runs had for its own in
    /// `self`, if it had one, is back in the pool in `cur`.
    pub open spec fn page_frame_freed(&self, cur: &Kernel, v: int) -> bool {
        let c = self.processor.current->0 as int;
        match leaf_entry(self.frames.memory(), self.space(c).root(), v) {
            Some(e) => e.target() >= self.frames.pool_start() ==> !cur.frames.is_allocated(
                e.target() as int,
            ),
            None => true,
        }
    }

    /// What [`sys_munmap`] leaves behind, and what it returns.
    ///
    /// It returns -1 and changes nothing when `start` is not the first
    /// address of a page. An empty range touches no page: it returns 0 and
    /// changes nothing. A range that is not empty and ends outside the
    /// address space, or that is asked for while no task runs, has pages
    /// that no region maps: it returns -1 and changes nothing. Else every
    /// page that the range touches is unmapped in the address space of the
    /// task that runs, the frames that the pages had for their own are back
    /// in the pool, and nothing else changes; it returns 0 when each of the
    /// pages was mapped, and -1 when one of them was not.
    pub open spec fn munmapped(&self, next: &Kernel, start: usize, len: usize, r: isize) -> bool {
        let s = start as int / 4096;
        let e = (start + len + 4095) / 4096;
        if start % 4096 != 0 {
            r == -1 && self.same_as(next)
        } else if len == 0 {
            r == 0 && self.same_as(next)
        } else if start + len > VA_LIMIT {
            r == -1 && self.same_as(next)
        } else {
            match self.processor.current {
                None => r == -1 && self.same_as(next),
                Some(c) => exists|ok: bool|
                    #[trigger] self.munmapping(next, s, e, ok) && r == (if ok {
                        0isize
                    } else {
                        -1isize
                    }),
            }
        }
    }

    /// One more page of the range handled by [`un_map`].
    proof fn lemma_munmap_step(&self, cur: &Kernel, next: &Kernel, s: int, at: int, ok: bool, r: isize)
        requires
            self.wf(),
            self.processor.current is Some,
            0 <= s <= at < VPN_LIMIT,
            self.munmapping(cur, s, at, ok),
            cur.page_unmapped(next, VirtPageNum(at as u64), r),
        ensures
            self.munmapping(next, s, at + 1, ok && r == 0),
            r == 0 || r == -1,
    {
        let c = self.processor.current->0 as int;
        self.lemma_current();
        assert(cur.processor.current == Some(c as usize));
        if r == 0 {
            assert(leaf_entry(self.frames.memory(), self.space(c).root(), at) is Some);
            let ms = cur.space(c);
            let a = choose|a: int|
                0 <= a < ms.areas().len() && (#[trigger] ms.areas()[a].frame_at(at)) is Some
                    && ms.unmapped_page(&next.space(c), &cur.frames, &next.frames, a, at);
            assert forall|q: int| self.live(q) && q != c implies #[trigger] next.tasks@[q]
                == self.tasks@[q] by {
                assert(cur.tasks@[q] == self.tasks@[q]);
            }
            assert forall|v: int|
                0 <= v < VPN_LIMIT && !(s <= v < at + 1) implies #[trigger] leaf_entry(
                next.frames.memory(),
                next.space(c).root(),
                v,
            ) == leaf_entry(self.frames.memory(), self.space(c).root(), v) by {
                assert(leaf_entry(cur.frames.memory(), cur.space(c).root(), v) == leaf_entry(
                    self.frames.memory(),
                    self.space(c).root(),
                    v,
                ));
            }
        } else {
            assert(leaf_entry(cur.frames.memory(), cur.space(c).root(), at) is None);
            assert(leaf_entry(self.frames.memory(), self.space(c).root(), at) is None);
        }
        assert forall|v: int| s <= v < at + 1 implies #[trigger] self.page_frame_freed(next, v) by {
            self.lemma_page_freed(cur, next, s, at, ok, r, v);
        }
        self.lemma_munmap_region(cur, next, s, at, ok, r);
    }

    /// A step of the unmapping changes memory and pool only inside the
    /// frames that the task had at the start.
    #[verifier::rlimit(40)]
    proof fn lemma_munmap_region(
        &self,
        cur: &Kernel,
        next: &Kernel,
        s: int,
        at: int,
        ok: bool,
        r: isize,
    )
        requires
            self.wf(),
            self.processor.current is Some,
            0 <= s <= at < VPN_LIMIT,
            self.munmapping(cur, s, at, ok),
            cur.page_unmapped(next, VirtPageNum(at as u64), r),
        ensures
            next.space(self.processor.current->0 as int).frames().subset_of(
                self.space(self.processor.current->0 as int).frames(),
            ),
            self.frames.unchanged_outside(
                &next.frames,
                self.space(self.processor.current->0 as int).frames(),
            ),
    {
        let c = self.processor.current->0 as int;
        self.lemma_current();
        cur.lemma_task(c);
        let ms = cur.space(c);
        let all = self.space(c).frames();
        if r == 0 {
            let a = choose|a: int|
                0 <= a < ms.areas().len() && (#[trigger] ms.areas()[a].frame_at(at)) is Some
                    && ms.unmapped_page(&next.space(c), &cur.frames, &next.frames, a, at);
            ms.lemma_slot_entry(&cur.frames, a, at);
            let slot = ms.areas()[a].frame_at(at)->0 as int;
            let region = if ms.areas()[a].framed() {
                ms.table_frames().insert(slot)
            } else {
                ms.table_frames()
            };
            assert(region.subset_of(all)) by {
                assert forall|x: int| region.contains(x) implies all.contains(x) by {
                    assert(ms.frames().contains(x));
                }
            }
            cur.frames.lemma_unchanged_wider(&next.frames, region, all);
            self.frames.lemma_unchanged_trans(&cur.frames, &next.frames, all, all);
            assert forall|x: int| next.space(c).frames().contains(x) implies all.contains(x) by {
                assert(ms.frames().contains(x));
            }
        }
    }

    /// The frame of a page of the range is free after the step that
    /// handled the page, and stays so.
    #[verifier::rlimit(40)]
    proof fn lemma_page_freed(
        &self,
        cur: &Kernel,
        next: &Kernel,
        s: int,
        at: int,
        ok: bool,
        r: isize,
        v: int,
    )
        requires
            self.wf(),
            self.processor.current is Some,
            0 <= s <= at < VPN_LIMIT,
            s <= v <= at,
            self.munmapping(cur, s, at, ok),
            cur.page_unmapped(next, VirtPageNum(at as u64), r),
        ensures
            self.page_frame_freed(next, v),
    {
        let c = self.processor.current->0 as int;
        self.lemma_current();
        cur.lemma_task(c);
        let ms = cur.space(c);
        let old_e = leaf_entry(self.frames.memory(), self.space(c).root(), v);
        if r == 0 {
            let a = choose|a: int|
                0 <= a < ms.areas().len() && (#[trigger] ms.areas()[a].frame_at(at)) is Some
                    && ms.unmapped_page(&next.space(c), &cur.frames, &next.frames, a, at);
            ms.lemma_slot_entry(&cur.frames, a, at);
            let slot = ms.areas()[a].frame_at(at)->0 as int;
            if !ms.areas()[a].framed() {
                ms.lemma_identical_slot(&cur.frames, a, at);
            } else {
                ms.lemma_frame_allocated(&cur.frames, slot);
            }
            if v < at {
                assert(self.page_frame_freed(cur, v));
                if old_e is Some && old_e->0.target() >= self.frames.pool_start() {
                    let p = old_e->0.target() as int;
                    if ms.table_frames().contains(p) {
                        ms.lemma_frame_allocated(&cur.frames, p);
                    }
                    assert(next.frames.is_allocated(p) == cur.frames.is_allocated(p));
                }
            } else {
                assert(leaf_entry(cur.frames.memory(), ms.root(), at) == old_e);
            }
        } else {
            if v < at {
                assert(self.page_frame_freed(cur, v));
            } else {
                assert(leaf_entry(cur.frames.memory(), ms.root(), at) == old_e);
            }
        }
    }
}

/// Maps the range `[start, start + len)` in the address space of the task
/// that runs, readable, writable and executable as the low three bits of
/// `port` say, each page on a zeroed frame of its own.
pub fn sys_mmap(kernel: &mut Kernel, start: usize, len: usize, port: usize) -> (r: isize)
    requires
        old(kernel).wf(),
    ensures
        old(kernel).mmapped(final(kernel), start, len, port, r),
{
    if len == 0 {
        return -1;
    }
    if port & 0x7 == 0 {
        return -1;
    }
    if port & !0x7 != 0 {
        return -1;
    }
    assert((start & 0xfff) == start % 4096) by (bit_vector);
    if start & 0xfff != 0 {
        return -1;
    }
    if start as u64 > VA_LIMIT || len as u64 > VA_LIMIT - start as u64 {
        return -1;
    }
    let mut prot = port << 1;
    prot &= 0xf;
    prot |= 0x10;
    prot |= 0x1;
    assert(area_perm(((port << 1) & 0xf) | 0x10 | 0x1) & 0xe0 == 0) by (bit_vector)
        requires
            port & !0x7usize == 0,
    ;
    insert_framed_area(kernel, VirtAddr(start as u64), VirtAddr(start as u64 + len as u64), prot)
}

/// Unmaps every page that the range `[start, start + len)` touches in the
/// address space of the task that runs.
pub fn sys_munmap(kernel: &mut Kernel, start: usize, len: usize) -> (r: isize)
    requires
        old(kernel).wf(),
    ensures
        old(kernel).munmapped(final(kernel), start, len, r),
{
    assert((start & 0xfff) == start % 4096) by (bit_vector);
    if start & 0xfff != 0 {
        return -1;
    }
    if len == 0 {
        return 0;
    }
    if start as u64 > VA_LIMIT || len as u64 > VA_LIMIT - start as u64 {
        return -1;
    }
    let start_vpn = VirtAddr(start as u64).floor().0;
    let end_vpn = VirtAddr(start as u64 + len as u64).ceil().0;
    let mut result: isize = 0;
    let mut vpn = start_vpn;
    if kernel.processor.current.is_none() {
        return -1;
    }
    proof {
        old(kernel).lemma_current();
        let c = old(kernel).processor.current->0 as int;
        assert(old(kernel).task(c) == (TaskControlBlock {
            memory_set: old(kernel).space(c),
            ..old(kernel).task(c)
        }));
    }
    let ghost ok = true;
    while vpn < end_vpn
        invariant
            start_vpn <= vpn <= end_vpn <= VPN_LIMIT,
            old(kernel).wf(),
            old(kernel).processor.current is Some,
            old(kernel).munmapping(kernel, start_vpn as int, vpn as int, ok),
            result == (if ok {
                0isize
            } else {
                -1isize
            }),
        decreases end_vpn - vpn,
    {
        let ghost cur = *kernel;
        let r = un_map(kernel, VirtPageNum(vpn));
        proof {
            old(kernel).lemma_munmap_step(&cur, kernel, start_vpn as int, vpn as int, ok, r);
            ok = ok && r == 0;
        }
        if r != 0 {
            result = -1;
        }
        vpn += 1;
    }
    result
}

/// After a successful [`sys_mmap`], every page of the range is mapped in
/// the address space of the task that ran it: valid, for user mode, and
/// readable, writable and executable exactly as the port's low three bits
/// say; and every byte of the range reads as zero.
pub proof fn lemma_mmap_maps(k0: Kernel, k1: Kernel, start: usize, len: usize, port: usize)
    requires
        k0.wf(),
        k0.mmapped(&k1, start, len, port, 0),
    ensures
        k0.processor.current is Some,
        k1.processor.current == k0.processor.current,
        forall|v: int|
            start as int / 4096 <= v < (start + len + 4095) / 4096 ==> {
                let e = #[trigger] leaf_entry(
                    k1.frames.memory(),
                    k1.space(k0.processor.current->0 as int).root(),
                    v,
                );
                &&& e is Some
                &&& e->0.valid()
                &&& e->0.flag_bits() & PTE_U != 0
                &&& (e->0.flag_bits() & PTE_R != 0) == (port & 1 != 0)
                &&& (e->0.flag_bits() & PTE_W != 0) == (port & 2 != 0)
                &&& (e->0.flag_bits() & PTE_X != 0) == (port & 4 != 0)
            },
        forall|x: int|
            start <= x < start + len ==> #[trigger] k1.space(
                k0.processor.current->0 as int,
            ).user_byte(&k1.frames, x) == Some(0u8),
{
    let c = k0.processor.current->0 as int;
    k0.lemma_current();
    let ms0 = k0.space(c);
    let ms1 = k1.space(c);
    let s = start as int / 4096;
    let e = (start + len + 4095) / 4096;
    let a = ms0.areas().len() as int;
    let perm = MapPermission { bits: area_perm(mmap_prot(port)) };
    let before = ms0.areas().push(MemorySet::blank_area(s, e, MapType::Framed, perm));
    k1.lemma_task(c);
    ms0.lemma_mapped_range_bytes(before, &ms1, &k0.frames, &k1.frames, a, s, e);
    let bits = perm.bits | PTE_V;
    assert(bits % 2 == 1 && bits & 16u8 != 0 && ((bits & 2u8 != 0) == (port & 1 != 0)) && ((bits
        & 4u8 != 0) == (port & 2 != 0)) && ((bits & 8u8 != 0) == (port & 4 != 0))) by (bit_vector)
        requires
            bits == (((((((port << 1) & 0xf) | 0x10 | 0x1) & 0xff) as u8) | 0x11) | 1u8),
    ;
    assert forall|v: int| s <= v < e implies {
        let en = #[trigger] leaf_entry(k1.frames.memory(), ms1.root(), v);
        &&& en is Some
        &&& en->0.valid()
        &&& en->0.flag_bits() & PTE_U != 0
        &&& (en->0.flag_bits() & PTE_R != 0) == (port & 1 != 0)
        &&& (en->0.flag_bits() & PTE_W != 0) == (port & 2 != 0)
        &&& (en->0.flag_bits() & PTE_X != 0) == (port & 4 != 0)
    } by {
        assert(ms1.areas()[a].frame_at(v) is Some);
        ms1.lemma_slot_entry(&k1.frames, a, v);
        let en = leaf_entry(k1.frames.memory(), ms1.root(), v)->0;
        assert(en.bits % 2 == 1) by {
            assert(en.flag_bits() == bits);
        }
    }
}

/// [`sys_mmap`] succeeds whenever the range is page-aligned, not empty
/// and inside the address space, the port is a combination of its low three
/// bits, no page of the range is mapped, and the pool holds the frames that
/// the range costs.
pub proof fn lemma_mmap_succeeds(
    k0: Kernel,
    k1: Kernel,
    start: usize,
    len: usize,
    port: usize,
    r: isize,
)
    requires
        k0.wf(),
        k0.processor.current is Some,
        len != 0,
        start % 4096 == 0,
        start + len <= VA_LIMIT,
        port & 0x7 != 0,
        port & !0x7usize == 0,
        k0.space(k0.processor.current->0 as int).range_free(
            &k0.frames,
            start as int / 4096,
            (start + len + 4095) / 4096,
        ),
        k0.frames.free_count() >= range_cost(
            k0.space(k0.processor.current->0 as int).nodes(&k0.frames),
            start as int / 4096,
            (start + len + 4095) / 4096,
            true,
        ),
        k0.mmapped(&k1, start, len, port, r),
    ensures
        r == 0,
        k1.wf(),
{
}

/// [`sys_munmap`] right after a successful [`sys_mmap`] of the same range
/// returns 0 and leaves no page of the range mapped.
pub proof fn lemma_munmap_after_mmap(
    k0: Kernel,
    k1: Kernel,
    k2: Kernel,
    start: usize,
    len: usize,
    port: usize,
    r: isize,
)
    requires
        k0.wf(),
        k0.mmapped(&k1, start, len, port, 0),
        k1.munmapped(&k2, start, len, r),
    ensures
        r == 0,
        k2.wf(),
        forall|v: int|
            start as int / 4096 <= v < (start + len + 4095) / 4096 ==> (#[trigger] leaf_entry(
                k2.frames.memory(),
                k2.space(k0.processor.current->0 as int).root(),
                v,
            )) is None,
{
    lemma_mmap_maps(k0, k1, start, len, port);
    let c = k0.processor.current->0 as int;
    let s = start as int / 4096;
    let e = (start + len + 4095) / 4096;
    let ok = choose|ok: bool| #[trigger] k1.munmapping(&k2, s, e, ok) && r == (if ok {
        0isize
    } else {
        -1isize
    });
    assert(ok) by {
        assert forall|v: int| s <= v < e implies (#[trigger] leaf_entry(
            k1.frames.memory(),
            k1.space(c).root(),
            v,
        )) is Some by {}
    }
}

/// Ends the task that runs with the exit code `exit_code` and runs the
/// next one. The task never runs again.
pub fn sys_exit(kernel: &mut Kernel, exit_code: i32)
    requires
        old(kernel).wf(),
        old(kernel).processor.current is Some,
        old(kernel).processor.current->0 != IDLE_PID,
    ensures
        final(kernel).wf(),
        exists|mid: Kernel|
            old(kernel).exit_marked(&mid, exit_code) && mid.wf() && #[trigger] mid.dispatched(
                final(kernel),
            ),
{
    exit_current_and_run_next(kernel, exit_code);
}

/// Whether a wait for `pid` is a wait for the child `child`: -1 stands
/// for any child.
pub open spec fn wait_matches(pid: isize, child: usize) -> bool {
    pid == -1 || pid == child as int
}

impl Kernel {
    /// The index of the first of the children `kids`, from index `k` on,
    /// that a wait for `pid` is for and that is a zombie; the number of
    /// children when there is none.
    pub open spec fn first_zombie(&self, kids: Seq<usize>, pid: isize, k: int) -> int
        decreases kids.len() - k,
    {
        if k < 0 || k >= kids.len() {
            kids.len() as int
        } else if wait_matches(pid, kids[k]) && self.task(kids[k] as int).task_status
            == TaskStatus::Zombie {
            k
        } else {
            self.first_zombie(kids, pid, k + 1)
        }
    }

    /// What a wait for `pid` by the task that runs returns: -1 when it has
    /// no child that the wait is for; -2 when it has one but none of them is
    /// a zombie; else the pid of the first of them that is.
    pub open spec fn wait_outcome(&self, pid: isize) -> isize {
        let kids = self.task(self.processor.current->0 as int).children@;
        if !(exists|i: int| 0 <= i < kids.len() && wait_matches(pid, #[trigger] kids[i])) {
            -1isize
        } else {
            let z = self.first_zombie(kids, pid, 0);
            if z >= kids.len() {
                -2isize
            } else {
                kids[z] as isize
            }
        }
    }

    /// What reaping the zombie `d`, child `idx` of the task that runs,
    /// leaves behind: the zombie is gone from the table and from the
    /// children of the task that runs, its pid is free, and the frames of its
    /// page table are back in the pool. Nothing else changes.
    pub open spec fn reaped(&self, next: &Kernel, d: int, idx: int) -> bool {
        let c = self.processor.current->0 as int;
        &&& reap_links(self.tasks@, next.tasks@, c, d, idx)
        &&& next.task(c) == (TaskControlBlock { children: next.task(c).children, ..self.task(c) })
        &&& next.manager == self.manager
        &&& next.processor == self.processor
        &&& next.loader == self.loader
        &&& next.time_us == self.time_us
        &&& next.halted == self.halted
        &&& !next.pids.is_allocated(d)
        &&& forall|q: int| q != d ==> #[trigger] next.pids.is_allocated(q) == self.pids.is_allocated(q)
        &&& self.frames.unchanged_outside(&next.frames, self.space(d).frames())
        &&& forall|q: int|
            self.space(d).table_frames().contains(q) ==> !#[trigger] next.frames.is_allocated(q)
    }

    /// What [`sys_waitpid`] leaves behind, and what it returns.
    ///
    /// It returns what [`Kernel::wait_outcome`] says. When that is -1 or
    /// -2, nothing changes. Else the zombie of that pid is reaped, and then
    /// its exit code is written to the address `ptr` of the task that runs.
    pub open spec fn waited(&self, next: &Kernel, pid: isize, ptr: usize, r: isize) -> bool {
        let c = self.processor.current->0 as int;
        let kids = self.task(c).children@;
        &&& r == self.wait_outcome(pid)
        &&& r < 0 ==> self.same_as(next)
        &&& r >= 0 ==> exists|mid: Kernel|
            self.reaped(&mid, r as int, self.first_zombie(kids, pid, 0)) && mid.wf()
                && #[trigger] mid.user_written(
                next,
                ptr as int,
                exit_code_encoding(self.task(r as int).exit_code),
            )
    }

    /// What [`Kernel::first_zombie`] gives lies at or after `k`, and is a
    /// zombie that the wait is for when it is an index at all.
    pub proof fn lemma_first_zombie(&self, kids: Seq<usize>, pid: isize, k: int)
        requires
            0 <= k <= kids.len(),
        ensures
            k <= self.first_zombie(kids, pid, k) <= kids.len(),
            self.first_zombie(kids, pid, k) < kids.len() ==> wait_matches(
                pid,
                kids[self.first_zombie(kids, pid, k)],
            ) && self.task(kids[self.first_zombie(kids, pid, k)] as int).task_status
                == TaskStatus::Zombie,
        decreases kids.len() - k,
    {
        if k < kids.len() && !(wait_matches(pid, kids[k]) && self.task(kids[k] as int).task_status
            == TaskStatus::Zombie) {
            self.lemma_first_zombie(kids, pid, k + 1);
        }
    }

    /// The invariant holds after a zombie was reaped, and the task that
    /// runs has its memory as before.
    #[verifier::rlimit(40)]
    proof fn lemma_reap_wf(&self, next: &Kernel, d: int, idx: int)
        requires
            self.wf(),
            self.processor.current is Some,
            self.live(d),
            self.task(d).task_status == TaskStatus::Zombie,
            self.reaped(next, d, idx),
            next.frames.wf(),
            next.pids.wf(),
            next.pids.next() == self.pids.next(),
        ensures
            next.wf(),
            forall|v: int|
                0 <= v < VPN_LIMIT ==> #[trigger] leaf_entry(
                    next.frames.memory(),
                    self.space(self.processor.current->0 as int).root(),
                    v,
                ) == leaf_entry(
                    self.frames.memory(),
                    self.space(self.processor.current->0 as int).root(),
                    v,
                ),
    {
        let c = self.processor.current->0 as int;
        let t0 = self.tasks@;
        let t1 = next.tasks@;
        self.lemma_current();
        lemma_reap_tree(t0, t1, c, d, idx);
        lemma_mem_remove(t0, t1, self.frames, next.frames, d);
        lemma_other_kept(t0, self.frames, next.frames, d, c, self.space(d).frames());
        assert(pid_inv(t1, next.pids)) by {
            reveal(pid_inv);
            assert forall|p: int| live_in(t1, p) implies (#[trigger] t1[p])->0.pid == p by {
                assert(t0[p] is Some);
                assert(t0[p]->0.pid == p);
            }
        }
        assert(clock_inv(t1, next.now_ms())) by {
            reveal(clock_inv);
            assert forall|p: int| live_in(t1, p) implies #[trigger] crate::kernel::times_ok(
                t1[p]->0,
                next.now_ms(),
            ) by {
                assert(t0[p] is Some);
                assert(crate::kernel::times_ok(t0[p]->0, self.now_ms()));
            }
        }
        assert(sched_inv(t1, next.manager@, next.processor.current)) by {
            reveal(sched_inv);
            let q = self.manager@;
            assert forall|i: int| 0 <= i < q.len() implies live_in(t1, #[trigger] q[i] as int)
                && t1[q[i] as int]->0.task_status == TaskStatus::Ready by {
                let x = q[i] as int;
                assert(live_in(t0, x));
                assert(x != d);
                assert(t1[x] is Some);
            }
            assert forall|p: int| live_in(t1, p) implies {
                let s = (#[trigger] t1[p])->0.task_status;
                &&& s == TaskStatus::Running ==> next.processor.current == Some(p as usize)
                &&& s == TaskStatus::Ready ==> q.contains(p as usize)
                &&& s != TaskStatus::UnInit
            } by {
                assert(t0[p] is Some);
            }
        }
    }
}

/// What a wait for `pid` by the task that runs would return now, with the
/// index of the child that it would reap, without any change: what
/// [`Kernel::wait_outcome`] says.
#[verifier::rlimit(40)]
pub fn wait_poll(kernel: &Kernel, pid: isize) -> (r: (isize, usize))
    requires
        kernel.wf(),
        kernel.processor.current is Some,
    ensures
        r.0 == kernel.wait_outcome(pid),
        r.0 >= 0 ==> r.1 == kernel.first_zombie(
            kernel.task(kernel.processor.current->0 as int).children@,
            pid,
            0,
        ) && r.1 < kernel.task(kernel.processor.current->0 as int).children@.len(),
{
    let c = kernel.processor.current.unwrap();
    proof {
        kernel.lemma_current();
        lemma_children(kernel.tasks@, c as int);
    }
    let ghost kids = kernel.task(c as int).children@;
    let mut found: Option<usize> = None;
    let mut any = false;
    match &kernel.tasks[c] {
        Some(t) => {
            let n = t.children.len();
            let mut i: usize = 0;
            while i < n
                invariant
                    i <= n,
                    n == kids.len(),
                    kids == t.children@,
                    kernel.tasks@.len() <= crate::config::PID_LIMIT,
                    forall|j: int| 0 <= j < n ==> #[trigger] child_apart(kernel.tasks@, c as int, j),
                    kernel.tasks@[c as int] == Some(*t),
                    any == (exists|j: int| 0 <= j < i && wait_matches(pid, #[trigger] kids[j])),
                    found is None ==> kernel.first_zombie(kids, pid, 0) == kernel.first_zombie(
                        kids,
                        pid,
                        i as int,
                    ),
                    found matches Some(z) ==> z < n && kernel.first_zombie(kids, pid, 0) == z,
                decreases n - i,
            {
                let d = t.children[i];
                assert(child_apart(kernel.tasks@, c as int, i as int));
                let hit = pid == -1 || (pid >= 0 && pid as usize == d);
                assert(hit == wait_matches(pid, d));
                if hit {
                    any = true;
                    if found.is_none() {
                        let zombie = match &kernel.tasks[d] {
                            Some(td) => match td.task_status {
                                TaskStatus::Zombie => true,
                                _ => false,
                            },
                            None => false,
                        };
                        if zombie {
                            found = Some(i);
                        }
                    }
                }
                i += 1;
            }
        },
        None => {},
    }
    if !any {
        return (-1, 0);
    }
    match found {
        None => {
            proof {
                kernel.lemma_first_zombie(kids, pid, kids.len() as int);
            }
            (-2, 0)
        },
        Some(idx) => {
            proof {
                kernel.lemma_first_zombie(kids, pid, 0);
                assert(child_apart(kernel.tasks@, c as int, idx as int));
            }
            match &kernel.tasks[c] {
                Some(t) => (t.children[idx] as isize, idx),
                None => (-1, 0),
            }
        },
    }
}

/// Waits for a child of the task that runs to have exited, without
/// blocking: `pid` names the child, -1 any child.
///
/// Returns -1 when the task has no such child, -2 when it has one but none
/// that has exited. Else the first such child that has exited is removed for
/// good, its exit code is written to `exit_code_ptr`, and its pid is returned.
#[verifier::rlimit(40)]
pub fn sys_waitpid(kernel: &mut Kernel, pid: isize, exit_code_ptr: usize) -> (r: isize)
    requires
        old(kernel).wf(),
        old(kernel).processor.current is Some,
        old(kernel).wait_outcome(pid) >= 0 ==> old(kernel).user_range_mapped(
            exit_code_ptr as int,
            4,
        ),
    ensures
        old(kernel).waited(final(kernel), pid, exit_code_ptr, r),
{
    let c = kernel.processor.current.unwrap();
    proof {
        old(kernel).lemma_current();
        lemma_children(old(kernel).tasks@, c as int);
    }
    let ghost kids = old(kernel).task(c as int).children@;
    let (outcome, idx) = wait_poll(kernel, pid);
    if outcome < 0 {
        return outcome;
    }
    proof {
        kernel.lemma_first_zombie(kids, pid, 0);
        assert(child_apart(kernel.tasks@, c as int, idx as int));
        lemma_parent(kernel.tasks@, kids[idx as int] as int);
        old(kernel).lemma_task(kids[idx as int] as int);
    }
    let mut d: usize = 0;
    match &mut kernel.tasks[c] {
        Some(t) => {
            d = t.children.remove(idx);
        },
        None => {},
    }
    let mut slot: Option<TaskControlBlock> = None;
    core::mem::swap(&mut slot, &mut kernel.tasks[d]);
    let child = slot.unwrap();
    let exit_code = child.exit_code;
    let found_pid = child.pid;
    let TaskControlBlock { memory_set, .. } = child;
    memory_set.release(&mut kernel.frames);
    kernel.pids.free(d);
    proof {
        let t0 = old(kernel).tasks@;
        let t1 = kernel.tasks@;
        assert(reap_links(t0, t1, c as int, d as int, idx as int));
        assert(old(kernel).reaped(kernel, d as int, idx as int));
        old(kernel).lemma_reap_wf(kernel, d as int, idx as int);
        assert(kernel.user_range_mapped(exit_code_ptr as int, 4));
    }
    let ghost mid = *kernel;
    let bytes = exit_code_bytes(exit_code);
    kernel.write_user(exit_code_ptr, &bytes);
    proof {
        assert(mid.user_written(kernel, exit_code_ptr as int, exit_code_encoding(exit_code)));
    }
    found_pid as isize
}

/// A task without children waits in vain: the wait returns -1.
pub proof fn lemma_wait_no_children(k: Kernel, pid: isize)
    requires
        k.task(k.processor.current->0 as int).children@.len() == 0,
    ensures
        k.wait_outcome(pid) == -1,
{
}

/// A wait for any child, by a task that has children none of which is a
/// zombie, returns -2.
pub proof fn lemma_wait_none_exited(k: Kernel)
    requires
        k.task(k.processor.current->0 as int).children@.len() > 0,
        forall|i: int|
            0 <= i < k.task(k.processor.current->0 as int).children@.len() ==> k.task(
                #[trigger] k.task(k.processor.current->0 as int).children@[i] as int,
            ).task_status != TaskStatus::Zombie,
    ensures
        k.wait_outcome(-1isize) == -2,
{
    let kids = k.task(k.processor.current->0 as int).children@;
    assert(wait_matches(-1isize, kids[0]));
    lemma_no_zombie(k, kids, 0);
}

/// Where no child is a zombie, the search for one finds none.
proof fn lemma_no_zombie(k: Kernel, kids: Seq<usize>, from: int)
    requires
        0 <= from <= kids.len(),
        forall|i: int|
            0 <= i < kids.len() ==> k.task(#[trigger] kids[i] as int).task_status
                != TaskStatus::Zombie,
    ensures
        k.first_zombie(kids, -1isize, from) == kids.len(),
    decreases kids.len() - from,
{
    if from < kids.len() {
        lemma_no_zombie(k, kids, from + 1);
    }
}

/// A second wait for a pid that was just reaped returns -1: the task has
/// no such child any more.
pub proof fn lemma_wait_twice(k0: Kernel, k1: Kernel, pid: isize, ptr: usize, r: isize)
    requires
        k0.wf(),
        k0.processor.current is Some,
        k0.waited(&k1, pid, ptr, r),
        r >= 0,
    ensures
        k1.wait_outcome(r) == -1,
{
    let c = k0.processor.current->0 as int;
    let kids = k0.task(c).children@;
    let idx = k0.first_zombie(kids, pid, 0);
    let mid = choose|mid: Kernel|
        k0.reaped(&mid, r as int, idx) && mid.wf() && #[trigger] mid.user_written(
            &k1,
            ptr as int,
            exit_code_encoding(k0.task(r as int).exit_code),
        );
    k0.lemma_current();
    lemma_children(k0.tasks@, c);
    let left = k1.task(c).children@;
    assert(left == kids.remove(idx));
    assert forall|i: int| 0 <= i < left.len() implies !wait_matches(r, #[trigger] left[i]) by {
        let i0 = if i >= idx { i + 1 } else { i };
        assert(left[i] == kids[i0]);
        assert(kids[i0] != kids[idx]);
    }
}

impl Kernel {
    /// What [`sys_sbrk`] leaves behind, and what it returns.
    ///
    /// It returns -1 and changes nothing when the heap boundary cannot move
    /// by `size`. The kernel halts when the move needs more frames than the
    /// pool holds. Else the boundary of the task that runs has moved, its
    /// heap with it, nothing else has changed, and the old boundary is
    /// returned.
    pub open spec fn sbrk_done(&self, next: &Kernel, size: i32, r: isize) -> bool {
        let c = self.processor.current->0 as int;
        match self.task(c).brk_outcome(&self.frames, size) {
            Ok(None) => r == -1 && self.same_as(next),
            Err(_) => r == -1 && next.halted,
            Ok(Some(b)) => {
                &&& r == b
                &&& next.wf()
                &&& self.only_heap_changed(next, c)
                &&& self.task(c).brk_moved(&next.task(c), &self.frames, &next.frames, size)
            },
        }
    }
}

/// Moves the heap boundary of the task that runs by `size` bytes, growing
/// or shrinking the heap. Returns the old boundary, or -1 when the boundary
/// cannot move so.
pub fn sys_sbrk(kernel: &mut Kernel, size: i32) -> (r: isize)
    requires
        old(kernel).wf(),
        old(kernel).processor.current is Some,
    ensures
        old(kernel).sbrk_done(final(kernel), size, r),
{
    let c = kernel.processor.current.unwrap();
    proof {
        old(kernel).lemma_current();
    }
    let mut res: Result<Option<u64>, MapError> = Ok(None);
    match &mut kernel.tasks[c] {
        Some(t) => {
            res = t.change_program_brk(&mut kernel.frames, size);
        },
        None => {},
    }
    match res {
        Ok(None) => {
            assert(kernel.tasks@ =~= old(kernel).tasks@);
            -1
        },
        Err(e) => {
            kernel.halted = true;
            -1
        },
        Ok(Some(b)) => {
            proof {
                let t0 = old(kernel).task(c as int);
                let t1 = kernel.task(c as int);
                let ms0 = t0.memory_set;
                let ms1 = t1.memory_set;
                let region = ms0.frames().union(ms1.frames());
                assert(kernel.tasks@ =~= old(kernel).tasks@.update(c as int, Some(t1)));
                assert(old(kernel).frames.unchanged_outside(&kernel.frames, region)) by {
                    let a = ms0.area_starting_at(t0.heap_bottom as int / 4096)->0;
                    let oa = ms0.areas()[a];
                    let to = (t0.program_brk + size + 4095) / 4096;
                    if size < 0 && to < oa.end {
                        old(kernel).frames.lemma_unchanged_wider(
                            &kernel.frames,
                            ms0.table_frames().union(
                                ms0.data_frames().difference(ms1.data_frames()),
                            ),
                            region,
                        );
                    } else if size >= 0 && to > oa.end {
                        old(kernel).frames.lemma_unchanged_wider(
                            &kernel.frames,
                            ms1.table_frames().union(
                                ms1.data_frames().difference(ms0.data_frames()),
                            ),
                            region,
                        );
                    }
                }
                assert forall|x: int| #[trigger] ms1.frames().contains(x) implies ms0.frames().contains(
                    x,
                ) || !old(kernel).frames.is_allocated(x) by {}
                old(kernel).lemma_heap_changed(kernel, c as int, region);
            }
            b as isize
        },
    }
}

/// The heap of the task that runs has its region: the first region that
/// starts at the page of the heap's bottom is framed and ends at the first
/// page at or after the boundary.
pub proof fn lemma_heap_region(k: Kernel)
    requires
        k.wf(),
        k.processor.current is Some,
    ensures
        k.task(k.processor.current->0 as int).heap_ok(),
        k.task(k.processor.current->0 as int).heap_bottom <= k.task(
            k.processor.current->0 as int,
        ).program_brk <= VA_LIMIT,
{
    k.lemma_current();
}

/// A move of the heap boundary succeeds wherever it can be made: when the
/// new boundary lies at or above the heap's bottom and inside the address
/// space and, for growth, the pages that join the heap are not mapped and
/// the pool holds what they cost. It returns the old boundary, and the
/// boundary has moved by `size`.
#[verifier::rlimit(40)]
pub proof fn lemma_sbrk_moves(k0: Kernel, k1: Kernel, size: i32, r: isize)
    requires
        k0.wf(),
        k0.processor.current is Some,
        k0.sbrk_done(&k1, size, r),
        k0.task(k0.processor.current->0 as int).heap_bottom <= k0.task(
            k0.processor.current->0 as int,
        ).program_brk + size <= VA_LIMIT,
        size > 0 ==> {
            let t = k0.task(k0.processor.current->0 as int);
            let from = (t.program_brk + 4095) / 4096;
            let to = (t.program_brk + size + 4095) / 4096;
            &&& t.memory_set.range_free(&k0.frames, from, to)
            &&& k0.frames.free_count() >= range_cost(t.memory_set.nodes(&k0.frames), from, to, true)
        },
    ensures
        r == k0.task(k0.processor.current->0 as int).program_brk,
        k1.wf(),
        k1.processor.current == k0.processor.current,
        k1.task(k0.processor.current->0 as int).program_brk == k0.task(
            k0.processor.current->0 as int,
        ).program_brk + size,
        k1.task(k0.processor.current->0 as int).heap_bottom == k0.task(
            k0.processor.current->0 as int,
        ).heap_bottom,
{
    lemma_heap_region(k0);
    let t = k0.task(k0.processor.current->0 as int);
    t.memory_set.lemma_area_starting_at(t.heap_bottom as int / 4096);
    let a = t.memory_set.area_starting_at(t.heap_bottom as int / 4096)->0;
    let from = (t.program_brk + 4095) / 4096;
    let to = (t.program_brk + size + 4095) / 4096;
    if size > 0 && to > from {
        assert(range_cost(t.memory_set.nodes(&k0.frames), from, to, true) >= 0);
    }
}

/// A move of the heap boundary by nothing returns the boundary and
/// changes nothing.
pub proof fn lemma_sbrk_zero(k0: Kernel, k1: Kernel, r: isize)
    requires
        k0.wf(),
        k0.processor.current is Some,
        k0.sbrk_done(&k1, 0, r),
    ensures
        r == k0.task(k0.processor.current->0 as int).program_brk,
        k0.same_as(&k1),
{
    lemma_heap_region(k0);
    lemma_sbrk_moves(k0, k1, 0, r);
    let c = k0.processor.current->0 as int;
    k0.lemma_current();
    assert(k1.task(c) == k0.task(c));
    assert(k1.tasks@ =~= k0.tasks@);
}

/// A move of the heap boundary and the move back restore the boundary,
/// and each returns the boundary as it was just before it: when
/// [`sys_sbrk`] of `d` has succeeded, [`sys_sbrk`] of `-d` right after it
/// returns the boundary moved by `d` and puts the boundary back where it was
/// at the start. The move back of a growth always succeeds; the move back of
/// a shrinking is a growth, and is taken here to have succeeded.
pub proof fn lemma_sbrk_round_trip(k0: Kernel, k1: Kernel, k2: Kernel, d: i32, r1: isize, r2: isize)
    requires
        k0.wf(),
        k0.processor.current is Some,
        d > i32::MIN,
        k0.sbrk_done(&k1, d, r1),
        r1 != -1,
        k1.sbrk_done(&k2, (-d) as i32, r2),
        d < 0 ==> r2 != -1,
    ensures
        r1 == k0.task(k0.processor.current->0 as int).program_brk,
        r2 == k0.task(k0.processor.current->0 as int).program_brk + d,
        r2 == k1.task(k0.processor.current->0 as int).program_brk,
        k2.task(k0.processor.current->0 as int).program_brk == k0.task(
            k0.processor.current->0 as int,
        ).program_brk,
{
    lemma_heap_region(k0);
    if d >= 0 {
        lemma_heap_region(k1);
        lemma_sbrk_moves(k1, k2, (-d) as i32, r2);
    }
}

/// What a child is right after [`sys_fork`]: as
/// [`TaskControlBlock::child_of`] says, but for register `x[10]`, which
/// holds 0, the result of the fork in the child.
pub open spec fn fork_child(parent: TaskControlBlock, child: TaskControlBlock, pid: usize) -> bool {
    &&& child.pid == pid
    &&& child.kernel_stack.pid == pid
    &&& child.base_size == parent.base_size
    &&& child.task_cx.ra == crate::task::context::TRAP_RETURN
    &&& child.task_cx.sp == crate::task::id::stack_position(pid as int).1
    &&& child.task_status == TaskStatus::Ready
    &&& child.trap_cx.x@ == parent.trap_cx.x@.update(10, 0u64)
    &&& child.trap_cx.sepc == parent.trap_cx.sepc
    &&& child.trap_cx.sstatus == parent.trap_cx.sstatus
    &&& child.trap_cx.kernel_satp == parent.trap_cx.kernel_satp
    &&& child.trap_cx.trap_handler == parent.trap_cx.trap_handler
    &&& child.trap_cx.kernel_sp == crate::task::id::stack_position(pid as int).1
    &&& child.parent == Some(parent.pid)
    &&& child.children@.len() == 0
    &&& child.exit_code == 0
    &&& child.heap_bottom == parent.heap_bottom
    &&& child.program_brk == parent.program_brk
    &&& child.fd_table@ == parent.fd_table@
    &&& child.task_info.time == 0
    &&& forall|i: int| 0 <= i < 500 ==> child.task_info.syscall_times@[i] == 0
    &&& child.start_time == 0
    &&& child.end_time == 0
}

impl Kernel {
    /// What [`sys_fork`] leaves behind, and what it returns.
    ///
    /// The kernel halts when no pid is left or when the pool holds fewer
    /// frames than a copy of the address space costs. Else the pid that came
    /// next is returned; the task of that pid is the child, as
    /// [`fork_child`] says, with an address space of frames of its own that
    /// mirrors the parent's; it is the last child of the task that runs and
    /// the last in the ready queue; and nothing else has changed.
    pub open spec fn forked(&self, next: &Kernel, r: isize) -> bool {
        let c = self.processor.current->0 as int;
        let parent = self.task(c);
        if !self.pids.can_allocate() || self.frames.free_count() < duplicate_cost(
            parent.memory_set.areas(),
        ) {
            r == -1 && next.halted
        } else {
            let d = self.pids.upcoming();
            &&& r == d
            &&& next.wf()
            &&& fork_links(self.tasks@, next.tasks@, c, d)
            &&& next.task(c) == (TaskControlBlock { children: next.task(c).children, ..parent })
            &&& fork_child(parent, next.task(d), d as usize)
            &&& parent.memory_set.mirrored(
                &next.space(d),
                &self.frames,
                &next.frames,
                parent.memory_set.areas().len() as int,
            )
            &&& next.manager@ == self.manager@.push(d as usize)
            &&& next.processor == self.processor
            &&& next.loader == self.loader
            &&& next.time_us == self.time_us
            &&& next.pids.is_allocated(d)
            &&& forall|q: int| q != d ==> #[trigger] next.pids.is_allocated(q) == self.pids.is_allocated(q)
        }
    }

    /// The invariant holds after a fork.
    #[verifier::rlimit(40)]
    proof fn lemma_fork_wf(&self, next: &Kernel, d: int)
        requires
            self.wf(),
            self.processor.current is Some,
            fork_links(self.tasks@, next.tasks@, self.processor.current->0 as int, d),
            next.task(self.processor.current->0 as int) == (TaskControlBlock {
                children: next.task(self.processor.current->0 as int).children,
                ..self.task(self.processor.current->0 as int)
            }),
            next.task(d).wf(&next.frames),
            next.task(d).pid == d,
            next.task(d).start_time == 0,
            next.task(d).end_time == 0,
            next.task(d).task_info.time == 0,
            next.frames.wf(),
            forall|q: int| #[trigger] next.space(d).frames().contains(q) ==> !self.frames.is_allocated(q),
            self.frames.unchanged_outside(&next.frames, next.space(d).frames()),
            next.manager@ == self.manager@.push(d as usize),
            next.processor == self.processor,
            next.loader == self.loader,
            next.time_us == self.time_us,
            !next.halted,
            next.pids.wf(),
            !self.pids.is_allocated(d),
            next.pids.is_allocated(d),
            forall|q: int| q != d ==> #[trigger] next.pids.is_allocated(q) == self.pids.is_allocated(q),
            next.pids.next() == (if d == self.pids.next() {
                self.pids.next() + 1
            } else {
                self.pids.next()
            }),
        ensures
            next.wf(),
    {
        let c = self.processor.current->0 as int;
        let t0 = self.tasks@;
        let t1 = next.tasks@;
        self.lemma_current();
        self.lemma_task(c);
        lemma_fork_tree(t0, t1, c, d);
        let ta = t1.update(c, t0[c]);
        lemma_mem_insert(t0, ta, self.frames, next.frames, d, next.space(d).frames());
        assert(same_pids(ta, t1));
        lemma_mem_same(ta, t1, next.frames);
        assert(pid_inv(t1, next.pids)) by {
            reveal(pid_inv);
            assert forall|p: int| 0 <= p < t1.len() implies (#[trigger] t1[p] is Some
                <==> next.pids.is_allocated(p)) by {
                if p != d {
                    assert(p < t0.len());
                    assert(t0[p] is Some <==> self.pids.is_allocated(p));
                }
            }
            assert forall|p: int| live_in(t1, p) implies (#[trigger] t1[p])->0.pid == p by {
                if p != d {
                    assert(t0[p] is Some);
                    assert(t0[p]->0.pid == p);
                }
            }
        }
        assert(clock_inv(t1, next.now_ms())) by {
            reveal(clock_inv);
            assert forall|p: int| live_in(t1, p) implies #[trigger] crate::kernel::times_ok(
                t1[p]->0,
                next.now_ms(),
            ) by {
                if p != d {
                    assert(t0[p] is Some);
                    assert(crate::kernel::times_ok(t0[p]->0, self.now_ms()));
                }
            }
        }
        assert(sched_inv(t1, next.manager@, next.processor.current)) by {
            reveal(sched_inv);
            let q0 = self.manager@;
            let q1 = next.manager@;
            assert forall|i: int| 0 <= i < q1.len() implies live_in(t1, #[trigger] q1[i] as int)
                && t1[q1[i] as int]->0.task_status == TaskStatus::Ready by {
                if i < q0.len() {
                    let x = q0[i] as int;
                    assert(live_in(t0, x));
                    assert(t1[x] is Some);
                }
            }
            assert(q1.no_duplicates()) by {
                assert forall|i: int, j: int|
                    0 <= i < q1.len() && 0 <= j < q1.len() && i != j implies q1[i] != q1[j] by {
                    if i < q0.len() {
                        assert(live_in(t0, q0[i] as int));
                    }
                    if j < q0.len() {
                        assert(live_in(t0, q0[j] as int));
                    }
                }
            }
            assert forall|p: int| live_in(t1, p) implies {
                let s = (#[trigger] t1[p])->0.task_status;
                &&& s == TaskStatus::Running ==> next.processor.current == Some(p as usize)
                &&& s == TaskStatus::Ready ==> q1.contains(p as usize)
                &&& s != TaskStatus::UnInit
            } by {
                if p == d {
                    assert(q1[q0.len() as int] == d as usize);
                } else {
                    assert(t0[p] is Some);
                    if t0[p]->0.task_status == TaskStatus::Ready {
                        let i = choose|i: int| 0 <= i < q0.len() && q0[i] == p as usize;
                        assert(q1[i] == p as usize);
                    }
                }
            }
        }
    }
}

/// Makes a child of the task that runs: a copy of it in an address space
/// of its own, ready and last in the queue. Returns the child's pid; in the
/// child, the same call returns 0.
#[verifier::rlimit(40)]
pub fn sys_fork(kernel: &mut Kernel) -> (r: isize)
    requires
        old(kernel).wf(),
        old(kernel).processor.current is Some,
    ensures
        old(kernel).forked(final(kernel), r),
{
    let c = kernel.processor.current.unwrap();
    proof {
        old(kernel).lemma_current();
        old(kernel).lemma_task(c as int);
        old(kernel).pids.lemma_upcoming();
        lemma_parent(old(kernel).tasks@, c as int);
    }
    let ghost up = old(kernel).pids.upcoming();
    proof {
        reveal(pid_inv);
        if up < old(kernel).tasks@.len() {
            assert(old(kernel).tasks@[up] is Some <==> old(kernel).pids.is_allocated(up));
        }
    }
    let pid = match kernel.pids.allocate() {
        None => {
            kernel.halted = true;
            return -1;
        },
        Some(pid) => pid,
    };
    let mut made: Option<TaskControlBlock> = None;
    match &kernel.tasks[c] {
        Some(t) => {
            match t.fork(&mut kernel.frames, pid) {
                Err(e) => {},
                Ok(child) => {
                    made = Some(child);
                },
            }
        },
        None => {},
    }
    let mut new_task = match made {
        None => {
            kernel.halted = true;
            return -1;
        },
        Some(child) => child,
    };
    new_task.trap_cx.x[10] = 0;
    let ghost child = new_task;
    match &mut kernel.tasks[c] {
        Some(t) => {
            t.children.push(pid);
        },
        None => {},
    }
    if pid == kernel.tasks.len() {
        kernel.tasks.push(Some(new_task));
    } else {
        kernel.tasks[pid] = Some(new_task);
    }
    kernel.manager.add(pid);
    proof {
        let t0 = old(kernel).tasks@;
        let t1 = kernel.tasks@;
        assert(t1[pid as int] == Some(child));
        assert(t1[c as int]->0.children@ == t0[c as int]->0.children@.push(pid));
        assert(fork_links(t0, t1, c as int, pid as int)) by {
            assert forall|x: int| live_in(t0, x) && x != c implies #[trigger] t1[x] == t0[x] by {}
        }
        old(kernel).lemma_fork_wf(kernel, pid as int);
    }
    pid as isize
}

impl Kernel {
    /// What [`sys_exec`] leaves behind, and what it returns.
    ///
    /// It returns -1 and changes nothing when no program has the name that
    /// stands at `path`. The kernel halts when the pool holds fewer frames
    /// than the program costs. Else it returns 0, the task that runs is as
    /// [`TaskControlBlock::exec_into`] says, and nothing else has changed.
    pub open spec fn exec_done(&self, next: &Kernel, path: usize, r: isize) -> bool {
        let c = self.processor.current->0 as int;
        let name = self.space(c).user_cstr(&self.frames, path as int)->0;
        match self.loader.lookup(name) {
            None => r == -1 && self.same_as(next),
            Some(image) => if self.frames.free_count() < image_cost(
                raw_image(image).segments,
                self.frames.pool_start(),
            ) {
                r == -1 && next.halted
            } else {
                &&& r == 0
                &&& next.wf()
                &&& next.pids == self.pids
                &&& next.loader == self.loader
                &&& next.time_us == self.time_us
                &&& next.manager == self.manager
                &&& next.processor == self.processor
                &&& same_pids(self.tasks@, next.tasks@)
                &&& forall|q: int| self.live(q) && q != c ==> #[trigger] next.tasks@[q] == self.tasks@[q]
                &&& self.task(c).exec_into(&next.task(c), &self.frames, &next.frames, image)
            },
        }
    }
}

/// Replaces the program of the task that runs by the program whose name
/// stands, NUL-terminated, at the address `path`. Returns 0, or -1 when
/// there is no program of that name.
pub fn sys_exec(kernel: &mut Kernel, path: usize) -> (r: isize)
    requires
        old(kernel).wf(),
        old(kernel).processor.current is Some,
        old(kernel).space(old(kernel).processor.current->0 as int).user_cstr(
            &old(kernel).frames,
            path as int,
        ) is Some,
    ensures
        old(kernel).exec_done(final(kernel), path, r),
{
    let c = kernel.processor.current.unwrap();
    proof {
        old(kernel).lemma_current();
        old(kernel).lemma_task(c as int);
    }
    let name = match &kernel.tasks[c] {
        Some(t) => match t.memory_set.read_cstr(&kernel.frames, VirtAddr(path as u64)) {
            Some(name) => name,
            None => Vec::new(),
        },
        None => Vec::new(),
    };
    let image = match kernel.loader.get_app_data_by_name(&name) {
        None => {
            return -1;
        },
        Some(image) => image,
    };
    let mut res: Result<(), MapError> = Ok(());
    match &mut kernel.tasks[c] {
        Some(t) => {
            res = t.exec(&mut kernel.frames, image);
        },
        None => {},
    }
    match res {
        Err(e) => {
            kernel.halted = true;
            -1
        },
        Ok(()) => {
            proof {
                let t0 = old(kernel).tasks@;
                let t1 = kernel.tasks@;
                let ms0 = old(kernel).space(c as int);
                let ms1 = kernel.space(c as int);
                let region = ms0.frames().union(ms1.frames()).union(
                    MemorySet::kernel_frames(&old(kernel).frames),
                );
                assert forall|x: int| #[trigger] region.contains(x) implies ms0.frames().contains(x)
                    || !old(kernel).frames.is_allocated(x) by {
                    if old(kernel).frames.is_allocated(x) {
                        old(kernel).frames.lemma_allocated_in_range(x);
                    }
                }
                lemma_mem_step(t0, t1, old(kernel).frames, kernel.frames, c as int, region);
                lemma_pid_same(t0, t1, kernel.pids);
                lemma_sched_same(t0, t1, kernel.manager@, kernel.processor.current);
                lemma_tree_same(t0, t1);
                lemma_clock_same(t0, t1, kernel.now_ms(), kernel.now_ms());
            }
            0
        },
    }
}

} // verus!
