//! Laws that relate several operations of the kernel, proved from the
//! operations' own contracts.
use vstd::prelude::*;
use crate::config::{VA_LIMIT, VPN_LIMIT};
use crate::kernel::{lemma_children, lemma_other_kept, live_in, mem_inv, sched_inv, times_ok, Kernel};
use crate::mm::address::{VirtAddr, VirtPageNum};
use crate::mm::frame_allocator::FrameAllocator;
use crate::mm::memory_set::MemorySet;
use crate::mm::page_table::leaf_entry;
use crate::task::task::TaskStatus;

verus! {

/// Address spaces are apart: when bytes are written through one address
/// space, a byte of another address space is as it was, wherever the other
/// maps a frame of its own.
pub proof fn lemma_spaces_apart(
    a: MemorySet,
    b: MemorySet,
    fa0: FrameAllocator,
    fa1: FrameAllocator,
    va: int,
    data: Seq<u8>,
    x: int,
)
    requires
        fa0.wf(),
        a.wf(&fa0),
        b.wf(&fa0),
        a.frames().disjoint(b.frames()),
        a.wrote_bytes(&fa0, &fa1, va, data, 0, data.len() as int),
        0 <= x < VA_LIMIT,
        leaf_entry(fa0.memory(), b.root(), x / 4096) matches Some(e) && fa0.pool_start()
            <= e.target(),
    ensures
        b.wf(&fa1),
        b.user_byte(&fa1, x) == b.user_byte(&fa0, x),
{
    let region = a.data_frames().union(MemorySet::kernel_frames(&fa0));
    assert(b.frames().disjoint(region)) by {
        assert forall|q: int| b.frames().contains(q) implies !region.contains(q) by {
            b.lemma_frame_allocated(&fa0, q);
            fa0.lemma_allocated_in_range(q);
            if a.data_frames().contains(q) {
                assert(a.frames().contains(q));
            }
        }
    }
    b.lemma_unchanged_outside(&fa0, &fa1, region);
    b.lemma_wf(&fa0);
    let e = leaf_entry(fa0.memory(), b.root(), x / 4096)->0;
    let p = e.target() as int;
    assert(b.data_frames().contains(p));
    assert(b.frames().contains(p));
    assert(!region.contains(p));
}

/// Tasks are apart: when the task that runs writes to its memory, a byte
/// of any other task is as it was, wherever the other maps a frame of its
/// own. So it is between a parent and the child it forked, both ways.
pub proof fn lemma_tasks_apart(k0: Kernel, k1: Kernel, va: int, data: Seq<u8>, q: int, x: int)
    requires
        k0.wf(),
        k0.processor.current is Some,
        k0.user_written(&k1, va, data),
        k0.live(q),
        q != k0.processor.current->0,
        0 <= x < VA_LIMIT,
        leaf_entry(k0.frames.memory(), k0.space(q).root(), x / 4096) matches Some(e)
            && k0.frames.pool_start() <= e.target(),
    ensures
        k1.space(q) == k0.space(q),
        k1.space(q).user_byte(&k1.frames, x) == k0.space(q).user_byte(&k0.frames, x),
{
    let c = k0.processor.current->0 as int;
    k0.lemma_current();
    k0.lemma_task(q);
    reveal(mem_inv);
    assert(k0.tasks@[c]->0.memory_set.frames().disjoint(k0.tasks@[q]->0.memory_set.frames()));
    lemma_spaces_apart(k0.space(c), k0.space(q), k0.frames, k1.frames, va, data, x);
}

/// A fork copies: right after a successful fork, every address holds in
/// the child's address space what it held in the parent's, and the parent's
/// memory is as it was.
#[verifier::rlimit(40)]
pub proof fn lemma_fork_copies(k0: Kernel, k1: Kernel, r: isize, x: int)
    requires
        k0.wf(),
        k0.processor.current is Some,
        k0.forked(&k1, r),
        !k1.halted,
        0 <= x < VA_LIMIT,
    ensures
        k1.live(r as int),
        k1.space(r as int).user_byte(&k1.frames, x) == k0.space(
            k0.processor.current->0 as int,
        ).user_byte(&k0.frames, x),
        k1.space(k0.processor.current->0 as int).user_byte(&k1.frames, x) == k0.space(
            k0.processor.current->0 as int,
        ).user_byte(&k0.frames, x),
{
    let c = k0.processor.current->0 as int;
    let d = r as int;
    let parent = k0.space(c);
    let child = k1.space(d);
    let fa0 = k0.frames;
    let fa1 = k1.frames;
    let v = x / 4096;
    k0.lemma_current();
    k1.lemma_task(d);
    assert(k1.space(c) == parent);
    parent.lemma_wf(&fa0);
    child.lemma_wf(&fa1);
    // the parent is untouched
    assert(parent.frames().disjoint(child.frames())) by {
        assert forall|q: int| parent.frames().contains(q) implies !child.frames().contains(q) by {
            parent.lemma_frame_allocated(&fa0, q);
        }
    }
    parent.lemma_unchanged_outside(&fa0, &fa1, child.frames());
    match leaf_entry(fa0.memory(), parent.root(), v) {
        Some(pe) => {
            let b = choose|b: int|
                0 <= b < parent.areas().len() && (#[trigger] parent.areas()[b].frame_at(v)) is Some;
            assert(parent.area_mirrored(&child, &fa0, &fa1, b, VPN_LIMIT as int));
            parent.lemma_slot_entry(&fa0, b, v);
            assert(child.areas()[b].frame_at(v) is Some);
            child.lemma_slot_entry(&fa1, b, v);
            let pp = parent.areas()[b].frame_at(v)->0 as int;
            let cp = child.areas()[b].frame_at(v)->0 as int;
            if parent.areas()[b].framed() {
                assert(parent.frames().contains(pp));
                assert(!child.frames().contains(pp));
            } else {
                parent.lemma_identical_slot(&fa0, b, v);
                child.lemma_identical_slot(&fa1, b, v);
                assert(!child.frames().contains(pp)) by {
                    if child.frames().contains(pp) {
                        child.lemma_frame_allocated(&fa1, pp);
                        fa1.lemma_allocated_in_range(pp);
                    }
                }
            }
        },
        None => {
            if leaf_entry(fa1.memory(), child.root(), v) is Some {
                let b = choose|b: int|
                    0 <= b < child.areas().len() && (#[trigger] child.areas()[b].frame_at(v))
                        is Some;
                assert(parent.area_mirrored(&child, &fa0, &fa1, b, VPN_LIMIT as int));
                parent.lemma_slot_entry(&fa0, b, v);
            }
        },
    }
}

/// An exit hands the children on: after the task that runs has exited,
/// it has no children, and each of its former children has the init
/// process for its parent.
pub proof fn lemma_exit_reparents(k0: Kernel, k1: Kernel, code: i32, i: int)
    requires
        k0.wf(),
        k0.processor.current is Some,
        k0.processor.current->0 != 0,
        exists|mid: Kernel|
            k0.exit_marked(&mid, code) && mid.wf() && #[trigger] mid.dispatched(&k1),
        0 <= i < k0.task(k0.processor.current->0 as int).children@.len(),
    ensures
        k1.task(k0.processor.current->0 as int).task_status == TaskStatus::Zombie,
        k1.task(k0.processor.current->0 as int).exit_code == code,
        k1.task(k0.processor.current->0 as int).children@.len() == 0,
        k1.live(k0.task(k0.processor.current->0 as int).children@[i] as int),
        k1.task(k0.task(k0.processor.current->0 as int).children@[i] as int).parent == Some(0usize),
{
    let c = k0.processor.current->0 as int;
    let mid = choose|mid: Kernel|
        k0.exit_marked(&mid, code) && mid.wf() && #[trigger] mid.dispatched(&k1);
    let kids = k0.task(c).children@;
    let d = kids[i] as int;
    k0.lemma_current();
    lemma_children(k0.tasks@, c);
    assert(crate::kernel::child_apart(k0.tasks@, c, i));
    assert(kids.contains(kids[i]));
    assert(mid.tasks@[d] is Some);
    assert(mid.task(d).parent == Some(0usize));
    if mid.manager@.len() > 0 {
        let head = mid.manager@[0] as int;
        mid.lemma_queue_head();
    }
}

/// Counting counts: when the system call `id` is counted `n` times in a
/// row for the task that runs, its counter is `n` higher than before.
pub proof fn lemma_record_counts(states: Seq<Kernel>, id: int)
    requires
        states.len() >= 1,
        0 <= id < 500,
        forall|j: int|
            0 <= j < states.len() - 1 ==> {
                &&& (#[trigger] states[j]).processor.current is Some
                &&& states[j].live(states[j].processor.current->0 as int)
                &&& states[j].task(
                    states[j].processor.current->0 as int,
                ).task_info.syscall_times@[id] < u32::MAX
                &&& states[j].recorded(&states[j + 1], id)
            },
        states[0].processor.current is Some,
    ensures
        states[states.len() - 1].processor.current == states[0].processor.current,
        states[states.len() - 1].task(
            states[0].processor.current->0 as int,
        ).task_info.syscall_times@[id] == states[0].task(
            states[0].processor.current->0 as int,
        ).task_info.syscall_times@[id] + states.len() - 1,
    decreases states.len(),
{
    if states.len() > 1 {
        let n = states.len() - 1;
        let head = states.take(n);
        assert forall|j: int| 0 <= j < head.len() - 1 implies {
            &&& (#[trigger] head[j]).processor.current is Some
            &&& head[j].live(head[j].processor.current->0 as int)
            &&& head[j].task(head[j].processor.current->0 as int).task_info.syscall_times@[id]
                < u32::MAX
            &&& head[j].recorded(&head[j + 1], id)
        } by {
            assert(head[j] == states[j]);
            assert(head[j + 1] == states[j + 1]);
        }
        lemma_record_counts(head, id);
        assert(head[n - 1] == states[n - 1]);
        assert(head[0] == states[0]);
        let prev = states[n - 1];
        assert(prev.recorded(&states[n], id));
    }
}

/// Running time does not go back: between two countings for the task
/// that runs, with the clock going forward in between, the recorded running
/// time does not decrease.
pub proof fn lemma_record_time_monotone(
    k0: Kernel,
    k1: Kernel,
    k2: Kernel,
    k3: Kernel,
    id1: int,
    id2: int,
)
    requires
        k0.wf(),
        k0.processor.current is Some,
        k0.recorded(&k1, id1),
        k1.wf(),
        k2.tasks@ == k1.tasks@,
        k2.processor == k1.processor,
        k2.time_us >= k1.time_us,
        k2.recorded(&k3, id2),
    ensures
        k3.task(k0.processor.current->0 as int).task_info.time >= k1.task(
            k0.processor.current->0 as int,
        ).task_info.time,
{
    let c = k0.processor.current->0 as int;
    k0.lemma_current();
    k0.lemma_task(c);
    k1.lemma_task(c);
}

/// A frame of the pool is mapped once: two different pages, of one task
/// or of two, are never mapped to the same frame, unless it is a frame that
/// the kernel keeps for itself.
pub proof fn lemma_frame_mapped_once(k: Kernel, p: int, v: int, q: int, w: int)
    requires
        k.wf(),
        k.live(p),
        k.live(q),
        0 <= v < VPN_LIMIT,
        0 <= w < VPN_LIMIT,
        p != q || v != w,
        leaf_entry(k.frames.memory(), k.space(p).root(), v) matches Some(e)
            && k.frames.pool_start() <= e.target(),
        leaf_entry(k.frames.memory(), k.space(q).root(), w) is Some,
    ensures
        leaf_entry(k.frames.memory(), k.space(p).root(), v)->0.target() != leaf_entry(
            k.frames.memory(),
            k.space(q).root(),
            w,
        )->0.target(),
{
    k.lemma_task(p);
    k.lemma_task(q);
    k.space(p).lemma_wf(&k.frames);
    k.space(q).lemma_wf(&k.frames);
    if p != q {
        reveal(mem_inv);
        assert(k.tasks@[p]->0.memory_set.frames().disjoint(k.tasks@[q]->0.memory_set.frames()));
        let a = leaf_entry(k.frames.memory(), k.space(p).root(), v)->0.target() as int;
        let b = leaf_entry(k.frames.memory(), k.space(q).root(), w)->0.target() as int;
        assert(k.space(p).frames().contains(a));
        if a == b {
            assert(k.space(q).frames().contains(b));
        }
    }
}

/// One task runs at most: a task whose status is running is the task on
/// the processor; a task that is ready waits in the queue; and a zombie
/// neither runs nor waits.
pub proof fn lemma_one_running(k: Kernel, p: int)
    requires
        k.wf(),
        k.live(p),
    ensures
        k.task(p).task_status == TaskStatus::Running <==> k.processor.current == Some(p as usize),
        k.task(p).task_status == TaskStatus::Ready <==> k.manager@.contains(p as usize),
        k.task(p).task_status == TaskStatus::Zombie ==> k.processor.current != Some(p as usize)
            && !k.manager@.contains(p as usize),
{
    reveal(sched_inv);
    k.lemma_task(p);
    assert(k.tasks@[p] is Some);
    if k.manager@.contains(p as usize) {
        let i = choose|i: int| 0 <= i < k.manager@.len() && k.manager@[i] == p as usize;
        assert(live_in(k.tasks@, k.manager@[i] as int));
    }
}

impl Kernel {
    /// The clock has gone on from `self` to `next`, and nothing else has
    /// changed: what [`Kernel::tick`] does.
    pub open spec fn ticked(&self, next: &Kernel) -> bool {
        &&& next.time_us >= self.time_us
        &&& next.tasks@ == self.tasks@
        &&& next.frames == self.frames
        &&& next.pids == self.pids
        &&& next.loader == self.loader
        &&& next.manager == self.manager
        &&& next.processor == self.processor
        &&& next.halted == self.halted
    }

    /// A program has become known from `self` to `next`, and nothing else
    /// has changed: what [`Kernel::add_program`] does.
    pub open spec fn program_added(&self, next: &Kernel) -> bool {
        &&& next.time_us == self.time_us
        &&& next.tasks@ == self.tasks@
        &&& next.frames == self.frames
        &&& next.pids == self.pids
        &&& next.manager == self.manager
        &&& next.processor == self.processor
        &&& next.halted == self.halted
    }

    /// The system call `id` was counted for the task that runs, from
    /// `self` to `next`: what [`crate::task::set_current_task_info`] does
    /// where it may be called.
    pub open spec fn counted(&self, next: &Kernel, id: int) -> bool {
        &&& self.processor.current is Some
        &&& 0 <= id < 500
        &&& self.task(self.processor.current->0 as int).task_info.syscall_times@[id] < u32::MAX
        &&& self.recorded(next, id)
    }

    /// One operation of the kernel leads from `self` to `next`: a tick of
    /// the clock, a new program, the making of the init process, a round of
    /// the scheduling loop, or any of the operations that the task that runs
    /// can ask for.
    #[verifier::opaque]
    pub open spec fn steps_to(&self, next: &Kernel) -> bool {
        ||| self.same_as(next)
        ||| self.ticked(next)
        ||| self.program_added(next)
        ||| self.tasks@.len() == 0 && self.initproc_added(next)
        ||| self.processor.current is None && self.dispatched(next)
        ||| self.processor.current is Some && self.suspended(next)
        ||| self.processor.current is Some && exists|code: i32| #[trigger] self.exit_marked(next, code)
        ||| exists|id: int| #[trigger] self.counted(next, id)
        ||| exists|s: VirtAddr, e: VirtAddr, prot: usize, r: isize| #[trigger]
            self.area_inserted(next, s, e, prot, r)
        ||| exists|vpn: VirtPageNum, r: isize| #[trigger] self.page_unmapped(next, vpn, r)
        ||| exists|start: usize, len: usize, r: isize| #[trigger] self.munmapped(next, start, len, r)
        ||| self.processor.current is Some && exists|size: i32, r: isize| #[trigger]
            self.sbrk_done(next, size, r)
        ||| self.processor.current is Some && exists|r: isize| #[trigger] self.forked(next, r)
        ||| self.processor.current is Some && exists|path: usize, r: isize| #[trigger]
            self.exec_done(next, path, r)
        ||| self.processor.current is Some && exists|pid: isize, ptr: usize, r: isize| #[trigger]
            self.waited(next, pid, ptr, r)
        ||| self.processor.current is Some && exists|va: int, data: Seq<u8>| #[trigger]
            self.user_written(next, va, data)
    }

    /// The task `p` has in `next` the record and the times that it has in
    /// `self`.
    pub open spec fn record_kept(&self, next: &Kernel, p: int) -> bool {
        &&& next.task(p).task_info == self.task(p).task_info
        &&& next.task(p).start_time == self.task(p).start_time
        &&& next.task(p).end_time == self.task(p).end_time
    }
}

/// A round of the scheduling loop keeps every record.
proof fn lemma_record_dispatch(k0: Kernel, k1: Kernel, p: int)
    requires
        k0.wf(),
        k0.dispatched(&k1),
        k0.live(p),
    ensures
        k0.record_kept(&k1, p),
{
    if k0.manager@.len() > 0 {
        k0.lemma_queue_head();
    }
}

/// A task that gives way keeps every record.
proof fn lemma_record_suspend(k0: Kernel, k1: Kernel, p: int)
    requires
        k0.wf(),
        k0.processor.current is Some,
        k0.suspended(&k1),
        k0.live(p),
    ensures
        k0.record_kept(&k1, p),
{
    let c = k0.processor.current->0;
    k0.lemma_current();
    let head = crate::task::manager::yield_step(c, k0.manager@).0;
    if k0.manager@.len() > 0 {
        k0.lemma_queue_head();
        assert(k0.manager@.push(c)[0] == k0.manager@[0]);
    } else {
        assert(k0.manager@.push(c)[0] == c);
    }
}

/// An exit keeps every record.
proof fn lemma_record_exit(k0: Kernel, k1: Kernel, p: int, code: i32)
    requires
        k0.processor.current is Some,
        k0.exit_marked(&k1, code),
        k0.live(p),
    ensures
        k0.record_kept(&k1, p),
{
    let c = k0.processor.current->0 as int;
    if p != c {
        assert(k1.tasks@[p] == Some(
            crate::task::task::TaskControlBlock {
                parent: k1.task(p).parent,
                children: k1.task(p).children,
                ..k0.task(p)
            },
        ));
    }
}

/// A counting keeps the records of the tasks that do not run.
proof fn lemma_record_counted(k0: Kernel, k1: Kernel, p: int, id: int)
    requires
        k0.counted(&k1, id),
        k0.live(p),
    ensures
        k0.record_kept(&k1, p) || k0.processor.current == Some(p as usize),
{
    let c = k0.processor.current->0 as int;
    if p != c {
        assert(k1.tasks@[p] == k0.tasks@[p]);
    }
}

/// A move of the heap boundary keeps every record.
proof fn lemma_record_sbrk(k0: Kernel, k1: Kernel, p: int, size: i32, r: isize)
    requires
        k0.processor.current is Some,
        k0.sbrk_done(&k1, size, r),
        !k1.halted,
        k0.live(p),
    ensures
        k0.record_kept(&k1, p),
{
    let c = k0.processor.current->0 as int;
    if !k0.same_as(&k1) && p != c {
        assert(k1.tasks@[p] == k0.tasks@[p]);
    }
}

/// A fork keeps the record of every task that was there.
proof fn lemma_record_fork(k0: Kernel, k1: Kernel, p: int, r: isize)
    requires
        k0.processor.current is Some,
        k0.forked(&k1, r),
        !k1.halted,
        k0.live(p),
    ensures
        k0.record_kept(&k1, p),
{
    let c = k0.processor.current->0 as int;
    if p != c {
        assert(k1.tasks@[p] == k0.tasks@[p]);
    }
}

/// A change of program keeps every record.
proof fn lemma_record_exec(k0: Kernel, k1: Kernel, p: int, path: usize, r: isize)
    requires
        k0.processor.current is Some,
        k0.exec_done(&k1, path, r),
        !k1.halted,
        k0.live(p),
    ensures
        k0.record_kept(&k1, p),
{
    let c = k0.processor.current->0 as int;
    if !k0.same_as(&k1) && p != c {
        assert(k1.tasks@[p] == k0.tasks@[p]);
    }
}

/// A wait keeps the record of every task that is still there.
proof fn lemma_record_wait(k0: Kernel, k1: Kernel, p: int, pid: isize, ptr: usize, r: isize)
    requires
        k0.processor.current is Some,
        k0.waited(&k1, pid, ptr, r),
        k0.live(p),
        k1.live(p),
    ensures
        k0.record_kept(&k1, p),
{
    let c = k0.processor.current->0 as int;
    if r >= 0 {
        let kids = k0.task(c).children@;
        let mid = choose|mid: Kernel|
            k0.reaped(&mid, r as int, k0.first_zombie(kids, pid, 0)) && mid.wf()
                && #[trigger] mid.user_written(
                &k1,
                ptr as int,
                crate::syscall::process::exit_code_encoding(k0.task(r as int).exit_code),
            );
        assert(k1.tasks@[p] == mid.tasks@[p]);
        if p != c {
            assert(mid.tasks@[p] == k0.tasks@[p]);
        }
    }
}

/// Only counting changes a record: an operation of the kernel leaves the
/// record and the times of a task as they were, unless it is the counting of
/// a system call for that task.
#[verifier::rlimit(40)]
pub proof fn lemma_step_record(k0: Kernel, k1: Kernel, p: int)
    requires
        k0.wf(),
        k1.wf(),
        k0.steps_to(&k1),
        k0.live(p),
        k1.live(p),
    ensures
        k0.record_kept(&k1, p) || (k0.processor.current == Some(p as usize) && exists|id: int| #[trigger]
            k0.counted(&k1, id)),
{
    reveal(Kernel::steps_to);
    if k0.same_as(&k1) || k0.ticked(&k1) || k0.program_added(&k1) {
        assert(k0.record_kept(&k1, p));
    } else if k0.tasks@.len() == 0 && k0.initproc_added(&k1) {
        assert(k0.record_kept(&k1, p));
    } else if k0.processor.current is None && k0.dispatched(&k1) {
        lemma_record_dispatch(k0, k1, p);
    } else if k0.processor.current is Some && k0.suspended(&k1) {
        lemma_record_suspend(k0, k1, p);
    } else if k0.processor.current is Some && exists|code: i32| #[trigger]
        k0.exit_marked(&k1, code) {
        let code = choose|code: i32| #[trigger] k0.exit_marked(&k1, code);
        lemma_record_exit(k0, k1, p, code);
    } else if exists|id: int| #[trigger] k0.counted(&k1, id) {
        let id = choose|id: int| #[trigger] k0.counted(&k1, id);
        lemma_record_counted(k0, k1, p, id);
        assert(k0.record_kept(&k1, p) || k0.processor.current == Some(p as usize));
    } else if exists|s: VirtAddr, e: VirtAddr, prot: usize, r: isize| #[trigger]
        k0.area_inserted(&k1, s, e, prot, r) {
        let (s, e, prot, r) = choose|s: VirtAddr, e: VirtAddr, prot: usize, r: isize| #[trigger]
            k0.area_inserted(&k1, s, e, prot, r);
        lemma_space_step_record(k0, k1, p);
    } else if exists|vpn: VirtPageNum, r: isize| #[trigger] k0.page_unmapped(&k1, vpn, r) {
        let (vpn, r) = choose|vpn: VirtPageNum, r: isize| #[trigger] k0.page_unmapped(&k1, vpn, r);
        lemma_space_step_record(k0, k1, p);
    } else if exists|start: usize, len: usize, r: isize| #[trigger]
        k0.munmapped(&k1, start, len, r) {
        let (start, len, r) = choose|start: usize, len: usize, r: isize| #[trigger]
            k0.munmapped(&k1, start, len, r);
        if !k0.same_as(&k1) {
            let ok = choose|ok: bool| #[trigger]
                k0.munmapping(&k1, start as int / 4096, (start + len + 4095) / 4096, ok);
        }
        lemma_space_step_record(k0, k1, p);
    } else if k0.processor.current is Some && exists|size: i32, r: isize| #[trigger]
        k0.sbrk_done(&k1, size, r) {
        let (size, r) = choose|size: i32, r: isize| #[trigger] k0.sbrk_done(&k1, size, r);
        lemma_record_sbrk(k0, k1, p, size, r);
    } else if k0.processor.current is Some && exists|r: isize| #[trigger] k0.forked(&k1, r) {
        let r = choose|r: isize| #[trigger] k0.forked(&k1, r);
        lemma_record_fork(k0, k1, p, r);
    } else if k0.processor.current is Some && exists|path: usize, r: isize| #[trigger]
        k0.exec_done(&k1, path, r) {
        let (path, r) = choose|path: usize, r: isize| #[trigger] k0.exec_done(&k1, path, r);
        lemma_record_exec(k0, k1, p, path, r);
    } else if k0.processor.current is Some && exists|pid: isize, ptr: usize, r: isize| #[trigger]
        k0.waited(&k1, pid, ptr, r) {
        let (pid, ptr, r) = choose|pid: isize, ptr: usize, r: isize| #[trigger]
            k0.waited(&k1, pid, ptr, r);
        lemma_record_wait(k0, k1, p, pid, ptr, r);
    } else {
        let (va, data) = choose|va: int, data: Seq<u8>| #[trigger] k0.user_written(&k1, va, data);
        assert(k0.user_written(&k1, va, data));
        assert(k0.record_kept(&k1, p));
    }
}

/// An operation that changes at most the frames and the address space of
/// the task that runs keeps every record.
proof fn lemma_space_step_record(k0: Kernel, k1: Kernel, p: int)
    requires
        k0.live(p),
        k0.same_as(&k1) || (k0.processor.current is Some && k0.only_space_changed(
            &k1,
            k0.processor.current->0 as int,
        )),
    ensures
        k0.record_kept(&k1, p),
{
    if !k0.same_as(&k1) {
        let c = k0.processor.current->0 as int;
        if p != c {
            assert(k1.tasks@[p] == k0.tasks@[p]);
        }
    }
}

/// How often the system call `id` was counted for the task `p` along the
/// run of states `run`.
pub open spec fn countings(run: Seq<Kernel>, p: int, id: int) -> nat
    decreases run.len(),
{
    if run.len() <= 1 {
        0
    } else {
        let n = run.len() - 1;
        let last: nat = if run[n - 1].processor.current == Some(p as usize) && run[n - 1].counted(
            &run[n],
            id,
        ) {
            1
        } else {
            0
        };
        countings(run.take(n), p, id) + last
    }
}

/// A run of the kernel in which the task `p` lives throughout: every
/// state is sound, and one operation leads from each state to the next.
pub open spec fn is_run(run: Seq<Kernel>, p: int) -> bool {
    &&& run.len() >= 1
    &&& forall|i: int| 0 <= i < run.len() ==> (#[trigger] run[i]).wf() && run[i].live(p)
    &&& forall|i: int| 0 <= i < run.len() - 1 ==> (#[trigger] run[i]).steps_to(&run[i + 1])
}

/// One operation changes the counter of the system call `id` in the
/// record of the task `p` by one when it counts that call for that task, and
/// not at all otherwise.
#[verifier::rlimit(40)]
pub proof fn lemma_step_count(k0: Kernel, k1: Kernel, p: int, id: int)
    requires
        k0.wf(),
        k1.wf(),
        k0.steps_to(&k1),
        k0.live(p),
        k1.live(p),
        0 <= id < 500,
    ensures
        k1.task(p).task_info.syscall_times@[id] == k0.task(p).task_info.syscall_times@[id] + (
        if k0.processor.current == Some(p as usize) && k0.counted(&k1, id) {
            1int
        } else {
            0int
        }),
{
    lemma_step_record(k0, k1, p);
    k0.lemma_task(p);
    let c0 = k0.task(p).task_info.syscall_times@;
    let c1 = k1.task(p).task_info.syscall_times@;
    assert(c0.len() == 500);
    if k0.processor.current == Some(p as usize) && exists|i: int| #[trigger] k0.counted(&k1, i) {
        let i = choose|i: int| #[trigger] k0.counted(&k1, i);
        assert(c1 == c0.update(i, (c0[i] + 1) as u32));
        if k0.counted(&k1, id) {
            assert(c1 == c0.update(id, (c0[id] + 1) as u32));
        }
    } else {
        assert(k0.record_kept(&k1, p));
        if k0.processor.current == Some(p as usize) && k0.counted(&k1, id) {
            assert(c1 == c0.update(id, (c0[id] + 1) as u32));
        }
    }
}

/// Counters count: along any run of the kernel, whatever the operations
/// in between, the counter of a system call in the record of a task has
/// grown by exactly the number of times that the call was counted for the
/// task. So a task that has made a system call `k` times since it was made
/// has `k` in that counter, and 0 in the counter of a call it never made.
pub proof fn lemma_run_counts(run: Seq<Kernel>, p: int, id: int)
    requires
        is_run(run, p),
        0 <= id < 500,
    ensures
        run[run.len() - 1].task(p).task_info.syscall_times@[id] == run[0].task(
            p,
        ).task_info.syscall_times@[id] + countings(run, p, id),
    decreases run.len(),
{
    if run.len() > 1 {
        let n = run.len() - 1;
        let head = run.take(n);
        lemma_run_head(run, p);
        lemma_run_counts(head, p, id);
        assert(head[0] == run[0]);
        assert(head[n - 1] == run[n - 1]);
        assert(run[n - 1].steps_to(&run[n]));
        lemma_step_count(run[n - 1], run[n], p, id);
    }
}

/// A run without its last state is a run.
proof fn lemma_run_head(run: Seq<Kernel>, p: int)
    requires
        is_run(run, p),
        run.len() > 1,
    ensures
        is_run(run.take(run.len() - 1), p),
{
    let n = run.len() - 1;
    let head = run.take(n);
    assert forall|i: int| 0 <= i < head.len() implies (#[trigger] head[i]).wf() && head[i].live(p) by {
        assert(head[i] == run[i]);
    }
    assert forall|i: int| 0 <= i < head.len() - 1 implies (#[trigger] head[i]).steps_to(
        &head[i + 1],
    ) by {
        assert(head[i] == run[i]);
        assert(head[i + 1] == run[i + 1]);
        assert(run[i].steps_to(&run[i + 1]));
    }
}

/// One operation does not take the running time in a record back.
pub proof fn lemma_step_time(k0: Kernel, k1: Kernel, p: int)
    requires
        k0.wf(),
        k1.wf(),
        k0.steps_to(&k1),
        k0.live(p),
        k1.live(p),
    ensures
        k1.task(p).task_info.time >= k0.task(p).task_info.time,
{
    lemma_step_record(k0, k1, p);
    k0.lemma_task(p);
    assert(times_ok(k0.task(p), k0.now_ms()));
    if k0.processor.current == Some(p as usize) && exists|i: int| #[trigger] k0.counted(&k1, i) {
        let i = choose|i: int| #[trigger] k0.counted(&k1, i);
    }
}

/// Running time does not go back: along any run of the kernel, whatever
/// the operations in between, the running time in the record of a task is
/// never less than it was.
pub proof fn lemma_run_time_monotone(run: Seq<Kernel>, p: int)
    requires
        is_run(run, p),
    ensures
        run[run.len() - 1].task(p).task_info.time >= run[0].task(p).task_info.time,
    decreases run.len(),
{
    if run.len() > 1 {
        let n = run.len() - 1;
        let head = run.take(n);
        lemma_run_head(run, p);
        lemma_run_time_monotone(head, p);
        assert(head[0] == run[0]);
        assert(head[n - 1] == run[n - 1]);
        assert(run[n - 1].steps_to(&run[n]));
        lemma_step_time(run[n - 1], run[n], p);
    }
}

impl Kernel {
    /// The task `q` has in `next` the memory that it has in `self`: the
    /// same address space, the same entries in its page table, and the same
    /// bytes in every frame that it owns.
    pub open spec fn memory_kept(&self, next: &Kernel, q: int) -> bool {
        &&& next.space(q) == self.space(q)
        &&& next.frames.pool_start() == self.frames.pool_start()
        &&& forall|v: int|
            0 <= v < VPN_LIMIT ==> #[trigger] leaf_entry(
                next.frames.memory(),
                self.space(q).root(),
                v,
            ) == leaf_entry(self.frames.memory(), self.space(q).root(), v)
        &&& forall|f: int|
            0 <= f < self.frames.memory().num_frames() && self.space(q).frames().contains(f)
                ==> #[trigger] next.frames.memory().frame(f) == self.frames.memory().frame(f)
    }

    /// The task `q` keeps its memory when memory and pool change only in
    /// frames of another task `c` and in frames that were free.
    proof fn lemma_kept_by_region(&self, next: &Kernel, c: int, q: int, region: Set<int>)
        requires
            self.wf(),
            self.live(q),
            q != c,
            next.space(q) == self.space(q),
            self.frames.unchanged_outside(&next.frames, region),
            forall|x: int|
                #[trigger] region.contains(x) ==> (self.live(c) && self.space(c).frames().contains(
                    x,
                )) || !self.frames.is_allocated(x),
        ensures
            self.memory_kept(next, q),
    {
        lemma_other_kept(self.tasks@, self.frames, next.frames, c, q, region);
    }

    /// The task `q` keeps its memory when nothing changes in memory.
    proof fn lemma_kept_same(&self, next: &Kernel, q: int)
        requires
            next.space(q) == self.space(q),
            next.frames == self.frames,
        ensures
            self.memory_kept(next, q),
    {
    }

    proof fn lemma_memory_exit(&self, next: &Kernel, q: int, code: i32)
        requires
            self.wf(),
            self.processor.current is Some,
            self.processor.current != Some(q as usize),
            self.exit_marked(next, code),
            self.live(q),
        ensures
            self.memory_kept(next, q),
    {
        let c = self.processor.current->0 as int;
        self.lemma_task(q);
        self.lemma_current();
        assert(next.tasks@[q] == Some(
            crate::task::task::TaskControlBlock {
                parent: next.task(q).parent,
                children: next.task(q).children,
                ..self.task(q)
            },
        ));
        self.lemma_kept_by_region(next, c, q, self.space(c).frames());
    }

    #[verifier::rlimit(40)]
    proof fn lemma_memory_insert(
        &self,
        next: &Kernel,
        q: int,
        s: VirtAddr,
        e: VirtAddr,
        prot: usize,
        r: isize,
    )
        requires
            self.wf(),
            next.wf(),
            self.processor.current != Some(q as usize),
            self.area_inserted(next, s, e, prot, r),
            self.live(q),
        ensures
            self.memory_kept(next, q),
    {
        self.lemma_task(q);
        if self.same_as(next) {
            self.lemma_kept_same(next, q);
        } else {
            let c = self.processor.current->0 as int;
            self.lemma_current();
            let ms0 = self.space(c);
            let ms1 = next.space(c);
            let region = ms1.table_frames().union(ms1.data_frames().difference(ms0.data_frames()));
            assert forall|x: int| #[trigger] region.contains(x) implies (self.live(c)
                && ms0.frames().contains(x)) || !self.frames.is_allocated(x) by {
                if !ms0.frames().contains(x) {
                    assert(ms1.frames().contains(x));
                }
            }
            assert(next.tasks@[q] == self.tasks@[q]);
            self.lemma_kept_by_region(next, c, q, region);
        }
    }

    proof fn lemma_memory_unmap(&self, next: &Kernel, q: int, vpn: VirtPageNum, r: isize)
        requires
            self.wf(),
            self.processor.current != Some(q as usize),
            self.page_unmapped(next, vpn, r),
            self.live(q),
        ensures
            self.memory_kept(next, q),
    {
        self.lemma_task(q);
        if self.same_as(next) {
            self.lemma_kept_same(next, q);
        } else {
            let c = self.processor.current->0 as int;
            self.lemma_current();
            let ms0 = self.space(c);
            let a = choose|a: int|
                0 <= a < ms0.areas().len() && (#[trigger] ms0.areas()[a].frame_at(vpn.0 as int))
                    is Some && ms0.unmapped_page(
                    &next.space(c),
                    &self.frames,
                    &next.frames,
                    a,
                    vpn.0 as int,
                );
            ms0.lemma_slot_entry(&self.frames, a, vpn.0 as int);
            let slot = ms0.areas()[a].frame_at(vpn.0 as int)->0 as int;
            let region = if ms0.areas()[a].framed() {
                ms0.table_frames().insert(slot)
            } else {
                ms0.table_frames()
            };
            assert forall|x: int| #[trigger] region.contains(x) implies (self.live(c)
                && ms0.frames().contains(x)) || !self.frames.is_allocated(x) by {}
            assert(next.tasks@[q] == self.tasks@[q]);
            self.lemma_kept_by_region(next, c, q, region);
        }
    }

    proof fn lemma_memory_munmap(&self, next: &Kernel, q: int, start: usize, len: usize, r: isize)
        requires
            self.wf(),
            self.processor.current != Some(q as usize),
            self.munmapped(next, start, len, r),
            self.live(q),
        ensures
            self.memory_kept(next, q),
    {
        self.lemma_task(q);
        if self.same_as(next) {
            self.lemma_kept_same(next, q);
        } else {
            let c = self.processor.current->0 as int;
            self.lemma_current();
            let ok = choose|ok: bool| #[trigger]
                self.munmapping(next, start as int / 4096, (start + len + 4095) / 4096, ok);
            assert(next.tasks@[q] == self.tasks@[q]);
            self.lemma_kept_by_region(next, c, q, self.space(c).frames());
        }
    }

    #[verifier::rlimit(40)]
    proof fn lemma_memory_sbrk(&self, next: &Kernel, q: int, size: i32, r: isize)
        requires
            self.wf(),
            next.wf(),
            self.processor.current is Some,
            self.processor.current != Some(q as usize),
            self.sbrk_done(next, size, r),
            self.live(q),
        ensures
            self.memory_kept(next, q),
    {
        self.lemma_task(q);
        if self.same_as(next) {
            self.lemma_kept_same(next, q);
        } else {
            let c = self.processor.current->0 as int;
            self.lemma_current();
            let t0 = self.task(c);
            let ms0 = self.space(c);
            let ms1 = next.space(c);
            let region = ms0.frames().union(ms1.frames());
            let a = ms0.area_starting_at(t0.heap_bottom as int / 4096)->0;
            let oa = ms0.areas()[a];
            let to = (t0.program_brk + size + 4095) / 4096;
            assert(self.frames.unchanged_outside(&next.frames, region)) by {
                if size < 0 && to < oa.end {
                    self.frames.lemma_unchanged_wider(
                        &next.frames,
                        ms0.table_frames().union(ms0.data_frames().difference(ms1.data_frames())),
                        region,
                    );
                } else if size >= 0 && to > oa.end {
                    self.frames.lemma_unchanged_wider(
                        &next.frames,
                        ms1.table_frames().union(ms1.data_frames().difference(ms0.data_frames())),
                        region,
                    );
                }
            }
            assert forall|x: int| #[trigger] region.contains(x) implies (self.live(c)
                && ms0.frames().contains(x)) || !self.frames.is_allocated(x) by {
                if !ms0.frames().contains(x) {
                    assert(ms1.frames().contains(x));
                }
            }
            assert(next.tasks@[q] == self.tasks@[q]);
            self.lemma_kept_by_region(next, c, q, region);
        }
    }

    proof fn lemma_memory_fork(&self, next: &Kernel, q: int, r: isize)
        requires
            self.wf(),
            next.wf(),
            self.processor.current is Some,
            self.forked(next, r),
            self.live(q),
        ensures
            self.memory_kept(next, q),
    {
        self.lemma_task(q);
        let c = self.processor.current->0 as int;
        self.lemma_current();
        let d = r as int;
        let child = next.space(d);
        if q != c {
            assert(next.tasks@[q] == self.tasks@[q]);
        }
        assert forall|x: int| #[trigger] child.frames().contains(x) implies (self.live(d)
            && self.space(d).frames().contains(x)) || !self.frames.is_allocated(x) by {}
        self.lemma_kept_by_region(next, d, q, child.frames());
    }

    #[verifier::rlimit(40)]
    proof fn lemma_memory_exec(&self, next: &Kernel, q: int, path: usize, r: isize)
        requires
            self.wf(),
            next.wf(),
            self.processor.current is Some,
            self.processor.current != Some(q as usize),
            self.exec_done(next, path, r),
            self.live(q),
        ensures
            self.memory_kept(next, q),
    {
        self.lemma_task(q);
        if self.same_as(next) {
            self.lemma_kept_same(next, q);
        } else {
            let c = self.processor.current->0 as int;
            self.lemma_current();
            let ms0 = self.space(c);
            let ms1 = next.space(c);
            let region = ms0.frames().union(ms1.frames()).union(
                MemorySet::kernel_frames(&self.frames),
            );
            assert forall|x: int| #[trigger] region.contains(x) implies (self.live(c)
                && ms0.frames().contains(x)) || !self.frames.is_allocated(x) by {
                if self.frames.is_allocated(x) {
                    self.frames.lemma_allocated_in_range(x);
                }
            }
            assert(next.tasks@[q] == self.tasks@[q]);
            self.lemma_kept_by_region(next, c, q, region);
        }
    }

    proof fn lemma_memory_write(&self, next: &Kernel, q: int, va: int, data: Seq<u8>)
        requires
            self.wf(),
            self.processor.current is Some,
            self.processor.current != Some(q as usize),
            self.user_written(next, va, data),
            self.live(q),
        ensures
            self.memory_kept(next, q),
    {
        self.lemma_task(q);
        let c = self.processor.current->0 as int;
        self.lemma_current();
        let ms0 = self.space(c);
        let region = ms0.data_frames().union(MemorySet::kernel_frames(&self.frames));
        assert forall|x: int| #[trigger] region.contains(x) implies (self.live(c)
            && ms0.frames().contains(x)) || !self.frames.is_allocated(x) by {
            if self.frames.is_allocated(x) {
                self.frames.lemma_allocated_in_range(x);
            }
        }
        self.lemma_kept_by_region(next, c, q, region);
    }

    #[verifier::rlimit(40)]
    proof fn lemma_memory_wait(&self, next: &Kernel, q: int, pid: isize, ptr: usize, r: isize)
        requires
            self.wf(),
            self.processor.current is Some,
            self.processor.current != Some(q as usize),
            self.waited(next, pid, ptr, r),
            self.live(q),
            next.live(q),
        ensures
            self.memory_kept(next, q),
    {
        self.lemma_task(q);
        let c = self.processor.current->0 as int;
        self.lemma_current();
        if r < 0 {
            self.lemma_kept_same(next, q);
        } else {
            let kids = self.task(c).children@;
            let d = r as int;
            let mid = choose|mid: Kernel|
                self.reaped(&mid, d, self.first_zombie(kids, pid, 0)) && mid.wf()
                    && #[trigger] mid.user_written(
                    next,
                    ptr as int,
                    crate::syscall::process::exit_code_encoding(self.task(d).exit_code),
                );
            assert(next.tasks@[q] == mid.tasks@[q]);
            assert(mid.tasks@[q] == self.tasks@[q]);
            let region = self.space(d).frames();
            let z = self.first_zombie(kids, pid, 0);
            self.lemma_first_zombie(kids, pid, 0);
            lemma_children(self.tasks@, c);
            assert(crate::kernel::child_apart(self.tasks@, c, z));
            assert(self.live(kids[z] as int));
            self.lemma_task(kids[z] as int);
            assert(d == kids[z] as int);
            assert forall|x: int| #[trigger] region.contains(x) implies (self.live(d)
                && self.space(d).frames().contains(x)) || !self.frames.is_allocated(x) by {}
            self.lemma_kept_by_region(&mid, d, q, region);
            mid.lemma_memory_write(
                next,
                q,
                ptr as int,
                crate::syscall::process::exit_code_encoding(self.task(d).exit_code),
            );
        }
    }
}

/// Tasks keep to themselves: an operation of the kernel that the task
/// `q` does not ask for, because another task runs or none, leaves the
/// memory of `q` as it was.
#[verifier::rlimit(40)]
pub proof fn lemma_step_memory(k0: Kernel, k1: Kernel, q: int)
    requires
        k0.wf(),
        k1.wf(),
        k0.steps_to(&k1),
        k0.live(q),
        k1.live(q),
        k0.processor.current != Some(q as usize),
    ensures
        k0.memory_kept(&k1, q),
{
    reveal(Kernel::steps_to);
    k0.lemma_task(q);
    if k0.same_as(&k1) || k0.ticked(&k1) || k0.program_added(&k1) {
        k0.lemma_kept_same(&k1, q);
    } else if k0.tasks@.len() == 0 && k0.initproc_added(&k1) {
    } else if k0.processor.current is None && k0.dispatched(&k1) {
        lemma_record_dispatch(k0, k1, q);
        if k0.manager@.len() > 0 {
            k0.lemma_queue_head();
        }
        k0.lemma_kept_same(&k1, q);
    } else if k0.processor.current is Some && k0.suspended(&k1) {
        let c = k0.processor.current->0;
        k0.lemma_current();
        if k0.manager@.len() > 0 {
            k0.lemma_queue_head();
            assert(k0.manager@.push(c)[0] == k0.manager@[0]);
        } else {
            assert(k0.manager@.push(c)[0] == c);
        }
        k0.lemma_kept_same(&k1, q);
    } else if k0.processor.current is Some && exists|code: i32| #[trigger]
        k0.exit_marked(&k1, code) {
        let code = choose|code: i32| #[trigger] k0.exit_marked(&k1, code);
        k0.lemma_memory_exit(&k1, q, code);
    } else if exists|id: int| #[trigger] k0.counted(&k1, id) {
        let id = choose|id: int| #[trigger] k0.counted(&k1, id);
        assert(k1.tasks@[q] == k0.tasks@[q]);
        k0.lemma_kept_same(&k1, q);
    } else if exists|s: VirtAddr, e: VirtAddr, prot: usize, r: isize| #[trigger]
        k0.area_inserted(&k1, s, e, prot, r) {
        let (s, e, prot, r) = choose|s: VirtAddr, e: VirtAddr, prot: usize, r: isize| #[trigger]
            k0.area_inserted(&k1, s, e, prot, r);
        k0.lemma_memory_insert(&k1, q, s, e, prot, r);
    } else if exists|vpn: VirtPageNum, r: isize| #[trigger] k0.page_unmapped(&k1, vpn, r) {
        let (vpn, r) = choose|vpn: VirtPageNum, r: isize| #[trigger] k0.page_unmapped(&k1, vpn, r);
        k0.lemma_memory_unmap(&k1, q, vpn, r);
    } else if exists|start: usize, len: usize, r: isize| #[trigger]
        k0.munmapped(&k1, start, len, r) {
        let (start, len, r) = choose|start: usize, len: usize, r: isize| #[trigger]
            k0.munmapped(&k1, start, len, r);
        k0.lemma_memory_munmap(&k1, q, start, len, r);
    } else if k0.processor.current is Some && exists|size: i32, r: isize| #[trigger]
        k0.sbrk_done(&k1, size, r) {
        let (size, r) = choose|size: i32, r: isize| #[trigger] k0.sbrk_done(&k1, size, r);
        k0.lemma_memory_sbrk(&k1, q, size, r);
    } else if k0.processor.current is Some && exists|r: isize| #[trigger] k0.forked(&k1, r) {
        let r = choose|r: isize| #[trigger] k0.forked(&k1, r);
        k0.lemma_memory_fork(&k1, q, r);
    } else if k0.processor.current is Some && exists|path: usize, r: isize| #[trigger]
        k0.exec_done(&k1, path, r) {
        let (path, r) = choose|path: usize, r: isize| #[trigger] k0.exec_done(&k1, path, r);
        k0.lemma_memory_exec(&k1, q, path, r);
    } else if k0.processor.current is Some && exists|pid: isize, ptr: usize, r: isize| #[trigger]
        k0.waited(&k1, pid, ptr, r) {
        let (pid, ptr, r) = choose|pid: isize, ptr: usize, r: isize| #[trigger]
            k0.waited(&k1, pid, ptr, r);
        k0.lemma_memory_wait(&k1, q, pid, ptr, r);
    } else {
        let (va, data) = choose|va: int, data: Seq<u8>| #[trigger] k0.user_written(&k1, va, data);
        k0.lemma_memory_write(&k1, q, va, data);
    }
}

/// A run of the kernel in which the task `q` lives throughout and never
/// is the task that runs when an operation is done.
pub open spec fn is_run_of_others(run: Seq<Kernel>, q: int) -> bool {
    &&& is_run(run, q)
    &&& forall|i: int|
        0 <= i < run.len() - 1 ==> (#[trigger] run[i]).processor.current != Some(q as usize)
}

/// What others do leaves a task's bytes alone: along any run of the kernel
/// in which the task `q` does not run, whatever the other tasks do, every
/// address that `q` maps to a frame of its own holds at the end the byte
/// that it held at the start. So a parent keeps its bytes while the child it
/// forked writes, and the child keeps its bytes while the parent writes.
#[verifier::rlimit(40)]
pub proof fn lemma_run_bytes(run: Seq<Kernel>, q: int, x: int)
    requires
        is_run_of_others(run, q),
        0 <= x < VA_LIMIT,
        leaf_entry(run[0].frames.memory(), run[0].space(q).root(), x / 4096) matches Some(e)
            && run[0].frames.pool_start() <= e.target(),
    ensures
        run[run.len() - 1].space(q) == run[0].space(q),
        run[run.len() - 1].space(q).user_byte(&run[run.len() - 1].frames, x) == run[0].space(
            q,
        ).user_byte(&run[0].frames, x),
        leaf_entry(
            run[run.len() - 1].frames.memory(),
            run[run.len() - 1].space(q).root(),
            x / 4096,
        ) == leaf_entry(run[0].frames.memory(), run[0].space(q).root(), x / 4096),
        run[run.len() - 1].frames.pool_start() == run[0].frames.pool_start(),
    decreases run.len(),
{
    if run.len() > 1 {
        let n = run.len() - 1;
        let head = run.take(n);
        lemma_run_head(run, q);
        assert forall|i: int| 0 <= i < head.len() - 1 implies (
        #[trigger] head[i]).processor.current != Some(q as usize) by {
            assert(head[i] == run[i]);
        }
        assert(head[0] == run[0]);
        lemma_run_bytes(head, q, x);
        assert(head[n - 1] == run[n - 1]);
        let k0 = run[n - 1];
        let k1 = run[n];
        assert(k0.steps_to(&k1));
        lemma_step_memory(k0, k1, q);
        lemma_kept_bytes(run[0], k0, k1, q, x);
    }
}

/// A byte that was kept up to one state is kept when the next state
/// keeps the task's memory.
proof fn lemma_kept_bytes(ka: Kernel, k0: Kernel, k1: Kernel, q: int, x: int)
    requires
        ka.wf(),
        ka.live(q),
        k0.wf(),
        k0.live(q),
        0 <= x < VA_LIMIT,
        leaf_entry(ka.frames.memory(), ka.space(q).root(), x / 4096) matches Some(e)
            && ka.frames.pool_start() <= e.target(),
        k0.space(q) == ka.space(q),
        k0.space(q).user_byte(&k0.frames, x) == ka.space(q).user_byte(&ka.frames, x),
        leaf_entry(k0.frames.memory(), k0.space(q).root(), x / 4096) == leaf_entry(
            ka.frames.memory(),
            ka.space(q).root(),
            x / 4096,
        ),
        k0.frames.pool_start() == ka.frames.pool_start(),
        k0.memory_kept(&k1, q),
    ensures
        k1.space(q).user_byte(&k1.frames, x) == ka.space(q).user_byte(&ka.frames, x),
        leaf_entry(k1.frames.memory(), k1.space(q).root(), x / 4096) == leaf_entry(
            ka.frames.memory(),
            ka.space(q).root(),
            x / 4096,
        ),
        k1.frames.pool_start() == ka.frames.pool_start(),
{
    k0.lemma_task(q);
    let ms = k0.space(q);
    ms.lemma_wf(&k0.frames);
    let e = leaf_entry(k0.frames.memory(), ms.root(), x / 4096)->0;
    let p = e.target() as int;
    assert(ms.data_frames().contains(p));
    assert(ms.frames().contains(p));
}

} // verus!
