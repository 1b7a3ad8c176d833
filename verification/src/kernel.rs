//! The kernel state: physical memory, the process table, the ready queue,
//! the processor, the program table and the clock, with the invariant that
//! holds them together.
use vstd::prelude::*;
use crate::config::{PID_LIMIT, PPN_LIMIT, USER_BASE};
use crate::loader::ProgramTable;
use crate::mm::frame_allocator::FrameAllocator;
use crate::mm::memory_set::MemorySet;
use crate::task::id::PidAllocator;
use crate::task::manager::TaskManager;
use crate::task::processor::Processor;
use crate::task::task::{TaskControlBlock, TaskStatus};

verus! {

/// The process table: the task of each pid, `None` where the pid is free.
pub type TaskTable = Seq<Option<TaskControlBlock>>;

/// Everything the kernel knows.
///
/// A task is named by its pid, which is its index in `tasks`. The ready
/// queue, the processor, a task's parent and its children all hold pids.
pub struct Kernel {
    /// Physical memory and the pool of frames.
    pub frames: FrameAllocator,
    /// The pids that are in use.
    pub pids: PidAllocator,
    /// The process table.
    pub tasks: Vec<Option<TaskControlBlock>>,
    /// The ready queue.
    pub manager: TaskManager,
    /// The processor.
    pub processor: Processor,
    /// The programs that can be started.
    pub loader: ProgramTable,
    /// The time, in microseconds, as the timer last reported it.
    pub time_us: usize,
    /// Set when the kernel ran out of frames or of pids: it has halted, and
    /// nothing more may be asked of it.
    pub halted: bool,
}

/// Whether the pid `p` is in use in the table `t`.
pub open spec fn live_in(t: TaskTable, p: int) -> bool {
    0 <= p < t.len() && t[p] is Some
}

/// Two tables name the same pids.
pub open spec fn same_pids(t0: TaskTable, t1: TaskTable) -> bool {
    &&& t1.len() == t0.len()
    &&& forall|p: int| 0 <= p < t0.len() ==> (#[trigger] t1[p] is Some <==> t0[p] is Some)
}

/// Memory: the pool is sound and keeps at most the pages below the first
/// user page for the kernel; every task is sound in it; and no frame
/// belongs to two tasks.
#[verifier::opaque]
pub open spec fn mem_inv(t: TaskTable, fa: FrameAllocator) -> bool {
    &&& fa.wf()
    &&& fa.pool_start() <= USER_BASE / 4096
    &&& forall|p: int| live_in(t, p) ==> (#[trigger] t[p])->0.wf(&fa)
    &&& forall|p: int, q: int|
        live_in(t, p) && live_in(t, q) && p != q ==> (#[trigger] t[p])->0.memory_set.frames().disjoint(
            (#[trigger] t[q])->0.memory_set.frames(),
        )
}

/// Pids: a pid is in use exactly when the table holds a task for it, and
/// the task knows its pid.
#[verifier::opaque]
pub open spec fn pid_inv(t: TaskTable, pids: PidAllocator) -> bool {
    &&& pids.wf()
    &&& t.len() == pids.next()
    &&& forall|p: int| 0 <= p < t.len() ==> (#[trigger] t[p] is Some <==> pids.is_allocated(p))
    &&& forall|p: int| live_in(t, p) ==> (#[trigger] t[p])->0.pid == p
}

/// Scheduling: the ready queue holds each ready task once and nothing
/// else; the task on the processor is the one that is running, and no other
/// is; no task is without a status.
#[verifier::opaque]
pub open spec fn sched_inv(t: TaskTable, queue: Seq<usize>, current: Option<usize>) -> bool {
    &&& queue.no_duplicates()
    &&& forall|i: int|
        0 <= i < queue.len() ==> live_in(t, #[trigger] queue[i] as int) && t[queue[i] as int]->0.task_status
            == TaskStatus::Ready
    &&& current matches Some(c) ==> live_in(t, c as int) && t[c as int]->0.task_status
        == TaskStatus::Running
    &&& forall|p: int|
        live_in(t, p) ==> {
            let s = (#[trigger] t[p])->0.task_status;
            &&& s == TaskStatus::Running ==> current == Some(p as usize)
            &&& s == TaskStatus::Ready ==> queue.contains(p as usize)
            &&& s != TaskStatus::UnInit
        }
}

/// Child `i` of the task `p` is a task that names `p` as its parent.
pub open spec fn child_ok(t: TaskTable, p: int, i: int) -> bool {
    let c = t[p]->0.children@[i] as int;
    live_in(t, c) && t[c]->0.parent == Some(p as usize)
}

/// The task `c` has no child twice; its parent, if it has one, is another
/// task that has it among its children; it is the init process, pid 0,
/// exactly when it has no parent; and it has no children when it is a zombie,
/// which the init process never is.
pub open spec fn links_ok(t: TaskTable, c: int) -> bool {
    let tc = t[c]->0;
    &&& tc.children@.no_duplicates()
    &&& tc.parent matches Some(p) ==> live_in(t, p as int) && p != c && t[p as int]->0.children@.contains(
        c as usize,
    )
    &&& tc.parent is None <==> c == 0
    &&& tc.task_status == TaskStatus::Zombie ==> tc.children@.len() == 0 && c != 0
}

/// The family tree: every child and every parent is in order.
#[verifier::opaque]
pub open spec fn tree_inv(t: TaskTable) -> bool {
    &&& t.len() <= PID_LIMIT
    &&& t.len() > 0 ==> live_in(t, 0)
    &&& forall|p: int, i: int|
        live_in(t, p) && 0 <= i < t[p]->0.children@.len() ==> #[trigger] child_ok(t, p, i)
    &&& forall|c: int| live_in(t, c) ==> #[trigger] links_ok(t, c)
}

/// The times of the task `t` are in order at the time `now_ms`: its
/// first system call was not after its latest, and neither lies in the
/// future; no system call was recorded yet when the time of the first is 0;
/// and its running time is the time between the two.
pub open spec fn times_ok(t: TaskControlBlock, now_ms: int) -> bool {
    &&& t.start_time <= t.end_time <= now_ms
    &&& t.start_time == 0 ==> t.end_time == 0
    &&& t.task_info.time == t.end_time - t.start_time
}

/// The clock: the times of every task are in order.
#[verifier::opaque]
pub open spec fn clock_inv(t: TaskTable, now_ms: int) -> bool {
    forall|p: int| live_in(t, p) ==> #[trigger] times_ok(t[p]->0, now_ms)
}

/// Two tasks with the same address space, heap and identity, both
/// zombies or neither.
pub open spec fn mem_same(a: TaskControlBlock, b: TaskControlBlock) -> bool {
    &&& a.memory_set == b.memory_set
    &&& (a.task_status == TaskStatus::Zombie) == (b.task_status == TaskStatus::Zombie)
    &&& a.pid == b.pid
    &&& a.kernel_stack == b.kernel_stack
    &&& a.heap_bottom == b.heap_bottom
    &&& a.program_brk == b.program_brk
}

/// Two tasks with the same place in the family tree, both zombies or
/// neither.
pub open spec fn tree_same(a: TaskControlBlock, b: TaskControlBlock) -> bool {
    &&& a.parent == b.parent
    &&& a.children@ == b.children@
    &&& (a.task_status == TaskStatus::Zombie) == (b.task_status == TaskStatus::Zombie)
}

/// Two tasks with the same times.
pub open spec fn clock_same(a: TaskControlBlock, b: TaskControlBlock) -> bool {
    &&& a.start_time == b.start_time
    &&& a.end_time == b.end_time
    &&& a.task_info.time == b.task_info.time
}

/// Memory stays sound when no task's address space changes.
pub proof fn lemma_mem_same(t0: TaskTable, t1: TaskTable, fa: FrameAllocator)
    requires
        mem_inv(t0, fa),
        same_pids(t0, t1),
        forall|p: int| live_in(t0, p) ==> mem_same(t0[p]->0, (#[trigger] t1[p])->0),
    ensures
        mem_inv(t1, fa),
{
    reveal(mem_inv);
    assert forall|p: int| live_in(t1, p) implies (#[trigger] t1[p])->0.wf(&fa) by {
        assert(t0[p]->0.wf(&fa));
    }
    assert forall|p: int, q: int| live_in(t1, p) && live_in(t1, q) && p != q implies (
    #[trigger] t1[p])->0.memory_set.frames().disjoint((#[trigger] t1[q])->0.memory_set.frames()) by {
        assert(t0[p]->0.memory_set.frames().disjoint(t0[q]->0.memory_set.frames()));
    }
}

/// The pids stay in order when no task comes or goes.
pub proof fn lemma_pid_same(t0: TaskTable, t1: TaskTable, pids: PidAllocator)
    requires
        pid_inv(t0, pids),
        same_pids(t0, t1),
        forall|p: int| live_in(t0, p) ==> t0[p]->0.pid == (#[trigger] t1[p])->0.pid,
    ensures
        pid_inv(t1, pids),
{
    reveal(pid_inv);
    assert forall|p: int| live_in(t1, p) implies (#[trigger] t1[p])->0.pid == p by {
        assert(t0[p]->0.pid == p);
    }
}

/// Scheduling stays in order when no task's status changes.
pub proof fn lemma_sched_same(
    t0: TaskTable,
    t1: TaskTable,
    queue: Seq<usize>,
    current: Option<usize>,
)
    requires
        sched_inv(t0, queue, current),
        same_pids(t0, t1),
        forall|p: int| live_in(t0, p) ==> t0[p]->0.task_status == (#[trigger] t1[p])->0.task_status,
    ensures
        sched_inv(t1, queue, current),
{
    reveal(sched_inv);
    assert forall|i: int| 0 <= i < queue.len() implies live_in(t1, #[trigger] queue[i] as int)
        && t1[queue[i] as int]->0.task_status == TaskStatus::Ready by {
        assert(live_in(t0, queue[i] as int));
        assert(t1[queue[i] as int] is Some);
    }
    if let Some(c) = current {
        assert(t1[c as int] is Some);
    }
    assert forall|p: int| live_in(t1, p) implies {
        let s = (#[trigger] t1[p])->0.task_status;
        &&& s == TaskStatus::Running ==> current == Some(p as usize)
        &&& s == TaskStatus::Ready ==> queue.contains(p as usize)
        &&& s != TaskStatus::UnInit
    } by {
        assert(t0[p] is Some);
    }
}

/// The family tree stays in order when no task's links or status change.
pub proof fn lemma_tree_same(t0: TaskTable, t1: TaskTable)
    requires
        tree_inv(t0),
        same_pids(t0, t1),
        forall|p: int| live_in(t0, p) ==> tree_same(t0[p]->0, (#[trigger] t1[p])->0),
    ensures
        tree_inv(t1),
{
    reveal(tree_inv);
    assert forall|p: int, i: int|
        live_in(t1, p) && 0 <= i < t1[p]->0.children@.len() implies #[trigger] child_ok(
        t1,
        p,
        i,
    ) by {
        assert(t0[p] is Some);
        assert(child_ok(t0, p, i));
        let c = t0[p]->0.children@[i] as int;
        assert(t1[c] is Some);
    }
    assert forall|c: int| live_in(t1, c) implies #[trigger] links_ok(t1, c) by {
        assert(t0[c] is Some);
        assert(links_ok(t0, c));
        if let Some(p) = t0[c]->0.parent {
            assert(t1[p as int] is Some);
        }
    }
}

/// The clock stays in order when time goes on and no task's times change.
pub proof fn lemma_clock_same(t0: TaskTable, t1: TaskTable, now0: int, now1: int)
    requires
        clock_inv(t0, now0),
        now0 <= now1,
        same_pids(t0, t1),
        forall|p: int| live_in(t0, p) ==> clock_same(t0[p]->0, (#[trigger] t1[p])->0),
    ensures
        clock_inv(t1, now1),
{
    reveal(clock_inv);
    assert forall|p: int| live_in(t1, p) implies #[trigger] times_ok(t1[p]->0, now1) by {
        assert(t0[p] is Some);
        assert(times_ok(t0[p]->0, now0));
    }
}

/// Memory stays sound when one task's address space changes inside its
/// own frames, frames that were free, and the kernel's frames.
#[verifier::rlimit(40)]
pub proof fn lemma_mem_step(
    t0: TaskTable,
    t1: TaskTable,
    fa0: FrameAllocator,
    fa1: FrameAllocator,
    p: int,
    region: Set<int>,
)
    requires
        mem_inv(t0, fa0),
        fa1.wf(),
        live_in(t0, p),
        same_pids(t0, t1),
        forall|q: int| live_in(t0, q) && q != p ==> #[trigger] t1[q] == t0[q],
        t1[p]->0.wf(&fa1),
        fa0.unchanged_outside(&fa1, region),
        forall|x: int|
            #[trigger] region.contains(x) ==> t0[p]->0.memory_set.frames().contains(x)
                || !fa0.is_allocated(x),
        forall|x: int|
            #[trigger] t1[p]->0.memory_set.frames().contains(x)
                ==> t0[p]->0.memory_set.frames().contains(x) || !fa0.is_allocated(x),
    ensures
        mem_inv(t1, fa1),
{
    reveal(mem_inv);
    assert(t0[p]->0.wf(&fa0));
    assert forall|q: int| live_in(t1, q) implies (#[trigger] t1[q])->0.wf(&fa1) by {
        if q != p {
            assert(t1[q] == t0[q]);
            lemma_other_kept(t0, fa0, fa1, p, q, region);
        }
    }
    assert forall|a: int, b: int| live_in(t1, a) && live_in(t1, b) && a != b implies (
    #[trigger] t1[a])->0.memory_set.frames().disjoint((#[trigger] t1[b])->0.memory_set.frames()) by {
        let fa_ = t1[a]->0.memory_set.frames();
        let fb_ = t1[b]->0.memory_set.frames();
        assert(t0[a] is Some && t0[b] is Some);
        if a != p && b != p {
            assert(t1[a] == t0[a] && t1[b] == t0[b]);
            assert(t0[a]->0.memory_set.frames().disjoint(t0[b]->0.memory_set.frames()));
        } else {
            let o = if a == p { b } else { a };
            assert(t1[o] == t0[o]);
            assert(t0[p]->0.memory_set.frames().disjoint(t0[o]->0.memory_set.frames()));
            assert(t0[o]->0.memory_set.frames().disjoint(t0[p]->0.memory_set.frames()));
            assert forall|x: int| !(t1[p]->0.memory_set.frames().contains(x)
                && t0[o]->0.memory_set.frames().contains(x)) by {
                if t0[o]->0.memory_set.frames().contains(x) {
                    assert(t0[o]->0.wf(&fa0));
                    t0[o]->0.memory_set.lemma_frame_allocated(&fa0, x);
                }
            }
        }
    }
}

/// A task other than the one whose memory changes stays sound.
pub proof fn lemma_other_kept(
    t0: TaskTable,
    fa0: FrameAllocator,
    fa1: FrameAllocator,
    p: int,
    q: int,
    region: Set<int>,
)
    requires
        mem_inv(t0, fa0),
        live_in(t0, q),
        q != p,
        fa0.unchanged_outside(&fa1, region),
        forall|x: int|
            #[trigger] region.contains(x) ==> (live_in(t0, p)
                && t0[p]->0.memory_set.frames().contains(x)) || !fa0.is_allocated(x),
    ensures
        t0[q]->0.wf(&fa1),
        forall|v: int|
            0 <= v < crate::config::VPN_LIMIT ==> #[trigger] crate::mm::page_table::leaf_entry(
                fa1.memory(),
                t0[q]->0.memory_set.root(),
                v,
            ) == crate::mm::page_table::leaf_entry(fa0.memory(), t0[q]->0.memory_set.root(), v),
        forall|x: int|
            0 <= x < fa0.memory().num_frames() && t0[q]->0.memory_set.frames().contains(x)
                ==> #[trigger] fa1.memory().frame(x) == fa0.memory().frame(x),
{
    reveal(mem_inv);
    let ms = t0[q]->0.memory_set;
    assert(t0[q]->0.wf(&fa0));
    assert(ms.frames().disjoint(region)) by {
        assert forall|x: int| ms.frames().contains(x) implies !region.contains(x) by {
            ms.lemma_frame_allocated(&fa0, x);
            if live_in(t0, p) {
                assert(t0[p]->0.memory_set.frames().disjoint(ms.frames()));
            }
        }
    }
    ms.lemma_unchanged_outside(&fa0, &fa1, region);
}

/// Memory stays sound when a task of fresh frames takes a free place in
/// the table.
pub proof fn lemma_mem_insert(
    t0: TaskTable,
    t1: TaskTable,
    fa0: FrameAllocator,
    fa1: FrameAllocator,
    p: int,
    region: Set<int>,
)
    requires
        mem_inv(t0, fa0),
        fa1.wf(),
        0 <= p,
        !live_in(t0, p),
        live_in(t1, p),
        t1.len() >= t0.len(),
        forall|q: int| 0 <= q < t1.len() && q != p ==> (#[trigger] live_in(t1, q) <==> live_in(t0, q)),
        forall|q: int| live_in(t0, q) ==> #[trigger] t1[q] == t0[q],
        t1[p]->0.wf(&fa1),
        fa0.unchanged_outside(&fa1, region),
        forall|x: int| #[trigger] region.contains(x) ==> !fa0.is_allocated(x),
        forall|x: int| #[trigger] t1[p]->0.memory_set.frames().contains(x) ==> !fa0.is_allocated(x),
    ensures
        mem_inv(t1, fa1),
{
    reveal(mem_inv);
    assert forall|q: int| live_in(t1, q) implies (#[trigger] t1[q])->0.wf(&fa1) by {
        if q != p {
            assert(live_in(t0, q));
            assert(t1[q] == t0[q]);
            lemma_other_kept(t0, fa0, fa1, p, q, region);
        }
    }
    assert forall|a: int, b: int| live_in(t1, a) && live_in(t1, b) && a != b implies (
    #[trigger] t1[a])->0.memory_set.frames().disjoint((#[trigger] t1[b])->0.memory_set.frames()) by {
        if a != p && b != p {
            assert(live_in(t0, a) && live_in(t0, b));
            assert(t1[a] == t0[a] && t1[b] == t0[b]);
            assert(t0[a]->0.memory_set.frames().disjoint(t0[b]->0.memory_set.frames()));
        } else {
            let o = if a == p { b } else { a };
            assert(live_in(t0, o));
            assert(t1[o] == t0[o]);
            assert forall|x: int| !(t1[p]->0.memory_set.frames().contains(x)
                && t0[o]->0.memory_set.frames().contains(x)) by {
                if t0[o]->0.memory_set.frames().contains(x) {
                    assert(t0[o]->0.wf(&fa0));
                    t0[o]->0.memory_set.lemma_frame_allocated(&fa0, x);
                }
            }
        }
    }
}

/// What the table is after the task `c` has exited: `c` is a zombie
/// without children, its former children have the init process for their
/// parent and stand at the end of the init process's children, and nothing
/// else in the family tree has changed.
pub open spec fn exit_links(t0: TaskTable, t1: TaskTable, c: int) -> bool {
    let kids = t0[c]->0.children@;
    &&& same_pids(t0, t1)
    &&& t1[c]->0.parent == t0[c]->0.parent
    &&& t1[c]->0.children@.len() == 0
    &&& t1[c]->0.task_status == TaskStatus::Zombie
    &&& t1[0]->0.parent == t0[0]->0.parent
    &&& t1[0]->0.children@ == t0[0]->0.children@.add(kids)
    &&& t1[0]->0.task_status == t0[0]->0.task_status
    &&& forall|x: int|
        live_in(t0, x) && x != c && x != 0 ==> {
            &&& (#[trigger] t1[x])->0.children@ == t0[x]->0.children@
            &&& t1[x]->0.task_status == t0[x]->0.task_status
            &&& t1[x]->0.parent == (if kids.contains(x as usize) {
                Some(0usize)
            } else {
                t0[x]->0.parent
            })
        }
}

/// Child `i` of the task `p` is a task that names `p` as its parent, and
/// is neither `p` itself nor the init process.
pub open spec fn child_apart(t: TaskTable, p: int, i: int) -> bool {
    let c = t[p]->0.children@[i] as int;
    child_ok(t, p, i) && c != p && c != 0
}

/// What the family tree says of the children of a task.
pub proof fn lemma_children(t0: TaskTable, c: int)
    requires
        tree_inv(t0),
        live_in(t0, c),
    ensures
        t0.len() <= PID_LIMIT,
        t0[c]->0.children@.no_duplicates(),
        forall|i: int| 0 <= i < t0[c]->0.children@.len() ==> #[trigger] child_apart(t0, c, i),
{
    reveal(tree_inv);
    assert(links_ok(t0, c));
    assert forall|i: int| 0 <= i < t0[c]->0.children@.len() implies #[trigger] child_apart(
        t0,
        c,
        i,
    ) by {
        let x = t0[c]->0.children@[i] as int;
        assert(child_ok(t0, c, i));
        assert(links_ok(t0, x));
    }
}

/// What the family tree says of the parent of a task.
pub proof fn lemma_parent(t0: TaskTable, x: int)
    requires
        tree_inv(t0),
        live_in(t0, x),
    ensures
        links_ok(t0, x),
        x < PID_LIMIT,
        live_in(t0, 0),
{
    reveal(tree_inv);
}

/// After an exit, every child is a task that names its parent.
proof fn lemma_exit_child(t0: TaskTable, t1: TaskTable, c: int, p: int, i: int)
    requires
        tree_inv(t0),
        live_in(t0, c),
        live_in(t0, 0),
        c != 0,
        exit_links(t0, t1, c),
        live_in(t1, p),
        0 <= i < t1[p]->0.children@.len(),
    ensures
        child_ok(t1, p, i),
{
    let kids = t0[c]->0.children@;
    let old0 = t0[0]->0.children@;
    lemma_children(t0, c);
    assert(t0[p] is Some);
    lemma_children(t0, p);
    let x = t1[p]->0.children@[i] as int;
    if p == 0 && i >= old0.len() {
        let k = i - old0.len();
        assert(child_apart(t0, c, k));
        assert(kids.contains(kids[k]));
        assert(t1[x] is Some);
    } else {
        assert(child_apart(t0, p, i));
        assert(t1[x] is Some);
        if kids.contains(x as usize) {
            let k = choose|k: int| 0 <= k < kids.len() && kids[k] == x as usize;
            assert(child_apart(t0, c, k));
        }
    }
}

/// After an exit, every task's links are in order.
#[verifier::rlimit(40)]
proof fn lemma_exit_links(t0: TaskTable, t1: TaskTable, c: int, x: int)
    requires
        tree_inv(t0),
        live_in(t0, c),
        live_in(t0, 0),
        c != 0,
        exit_links(t0, t1, c),
        live_in(t1, x),
    ensures
        links_ok(t1, x),
{
    let kids = t0[c]->0.children@;
    let old0 = t0[0]->0.children@;
    lemma_children(t0, c);
    lemma_children(t0, 0);
    assert(t0[x] is Some);
    lemma_parent(t0, x);
    lemma_children(t0, x);
    lemma_parent(t0, 0);
    if x == 0 {
        let all = old0.add(kids);
        assert forall|i: int, j: int|
            0 <= i < all.len() && 0 <= j < all.len() && i != j implies all[i] != all[j] by {
            if i < old0.len() {
                assert(child_apart(t0, 0, i));
            } else {
                assert(child_apart(t0, c, i - old0.len()));
            }
            if j < old0.len() {
                assert(child_apart(t0, 0, j));
            } else {
                assert(child_apart(t0, c, j - old0.len()));
            }
        }
    } else if x == c {
        let p = t0[c]->0.parent->0;
        assert(t1[p as int] is Some);
        let i = choose|i: int|
            0 <= i < t0[p as int]->0.children@.len() && t0[p as int]->0.children@[i] == c as usize;
        if p == 0 {
            assert(t1[0]->0.children@[i] == c as usize);
        } else {
            assert(t1[p as int]->0.children@[i] == c as usize);
        }
    } else if kids.contains(x as usize) {
        let k = choose|k: int| 0 <= k < kids.len() && kids[k] == x as usize;
        assert(t1[0]->0.children@[old0.len() + k] == x as usize);
        assert(t1[0] is Some);
    } else {
        let p = t0[x]->0.parent->0;
        assert(t1[p as int] is Some);
        let i = choose|i: int|
            0 <= i < t0[p as int]->0.children@.len() && t0[p as int]->0.children@[i] == x as usize;
        if p == 0 {
            assert(t1[0]->0.children@[i] == x as usize);
        } else {
            assert(p != c as usize);
            assert(t1[p as int]->0.children@[i] == x as usize);
        }
    }
}

/// The family tree is in order after a task has exited.
pub proof fn lemma_exit_tree(t0: TaskTable, t1: TaskTable, c: int)
    requires
        tree_inv(t0),
        live_in(t0, c),
        live_in(t0, 0),
        c != 0,
        exit_links(t0, t1, c),
    ensures
        tree_inv(t1),
{
    lemma_children(t0, c);
    assert forall|p: int, i: int|
        live_in(t1, p) && 0 <= i < t1[p]->0.children@.len() implies #[trigger] child_ok(
        t1,
        p,
        i,
    ) by {
        lemma_exit_child(t0, t1, c, p, i);
    }
    assert forall|x: int| live_in(t1, x) implies #[trigger] links_ok(t1, x) by {
        lemma_exit_links(t0, t1, c, x);
    }
    reveal(tree_inv);
}

/// What the table is after the zombie `d`, child `idx` of the task `c`,
/// was reaped: `d` is gone, `c` has one child less, and nothing else in the
/// family tree has changed.
pub open spec fn reap_links(t0: TaskTable, t1: TaskTable, c: int, d: int, idx: int) -> bool {
    &&& t1.len() == t0.len()
    &&& t1[d] is None
    &&& forall|x: int| 0 <= x < t0.len() && x != d ==> (#[trigger] t1[x] is Some <==> t0[x] is Some)
    &&& 0 <= idx < t0[c]->0.children@.len()
    &&& t0[c]->0.children@[idx] == d
    &&& t1[c]->0.children@ == t0[c]->0.children@.remove(idx)
    &&& t1[c]->0.parent == t0[c]->0.parent
    &&& t1[c]->0.task_status == t0[c]->0.task_status
    &&& forall|x: int| live_in(t0, x) && x != c && x != d ==> #[trigger] t1[x] == t0[x]
}

/// After a reaping, every child is a task that names its parent.
proof fn lemma_reap_child(t0: TaskTable, t1: TaskTable, c: int, d: int, idx: int, p: int, i: int)
    requires
        tree_inv(t0),
        live_in(t0, c),
        live_in(t0, d),
        t0[d]->0.task_status == TaskStatus::Zombie,
        reap_links(t0, t1, c, d, idx),
        live_in(t1, p),
        0 <= i < t1[p]->0.children@.len(),
    ensures
        child_ok(t1, p, i),
{
    lemma_children(t0, c);
    lemma_parent(t0, d);
    assert(child_apart(t0, c, idx));
    assert(t0[p] is Some);
    lemma_children(t0, p);
    let j = if p == c && i >= idx { i + 1 } else { i };
    assert(child_apart(t0, p, j));
    let x = t0[p]->0.children@[j] as int;
    assert(t1[p]->0.children@[i] == t0[p]->0.children@[j]);
    assert(x != d) by {
        if x == d {
            assert(p == c);
            assert(t0[c]->0.children@[j] == t0[c]->0.children@[idx]);
        }
    }
    assert(t1[x] is Some);
}

/// After a reaping, every task's links are in order.
proof fn lemma_reap_links(t0: TaskTable, t1: TaskTable, c: int, d: int, idx: int, x: int)
    requires
        tree_inv(t0),
        live_in(t0, c),
        live_in(t0, d),
        t0[d]->0.task_status == TaskStatus::Zombie,
        reap_links(t0, t1, c, d, idx),
        live_in(t1, x),
    ensures
        links_ok(t1, x),
{
    lemma_children(t0, c);
    lemma_parent(t0, d);
    assert(child_apart(t0, c, idx));
    assert(t0[x] is Some);
    lemma_parent(t0, x);
    lemma_children(t0, x);
    let kids = t0[c]->0.children@;
    if x == c {
        let r = kids.remove(idx);
        assert forall|i: int, j: int|
            0 <= i < r.len() && 0 <= j < r.len() && i != j implies r[i] != r[j] by {
            let i0 = if i >= idx { i + 1 } else { i };
            let j0 = if j >= idx { j + 1 } else { j };
            assert(r[i] == kids[i0] && r[j] == kids[j0]);
        }
    }
    if let Some(p) = t1[x]->0.parent {
        assert(t0[x]->0.parent == Some(p));
        assert(p != d as usize) by {
            if p == d as usize {
                assert(t0[d]->0.children@.contains(x as usize));
            }
        }
        assert(t1[p as int] is Some);
        let i = choose|i: int|
            0 <= i < t0[p as int]->0.children@.len() && t0[p as int]->0.children@[i] == x as usize;
        if p == c as usize {
            assert(i != idx);
            let i1 = if i > idx { i - 1 } else { i };
            assert(t1[c]->0.children@[i1] == x as usize);
        } else {
            assert(t1[p as int]->0.children@[i] == x as usize);
        }
    }
}

/// The family tree is in order after a zombie was reaped.
pub proof fn lemma_reap_tree(t0: TaskTable, t1: TaskTable, c: int, d: int, idx: int)
    requires
        tree_inv(t0),
        live_in(t0, c),
        live_in(t0, d),
        t0[d]->0.task_status == TaskStatus::Zombie,
        reap_links(t0, t1, c, d, idx),
    ensures
        tree_inv(t1),
        d != 0,
        d != c,
{
    lemma_children(t0, c);
    lemma_parent(t0, d);
    assert(child_apart(t0, c, idx));
    assert forall|p: int, i: int|
        live_in(t1, p) && 0 <= i < t1[p]->0.children@.len() implies #[trigger] child_ok(
        t1,
        p,
        i,
    ) by {
        lemma_reap_child(t0, t1, c, d, idx, p, i);
    }
    assert forall|x: int| live_in(t1, x) implies #[trigger] links_ok(t1, x) by {
        lemma_reap_links(t0, t1, c, d, idx, x);
    }
    reveal(tree_inv);
}

/// Memory stays sound when a task leaves the table and its frames go
/// back to the pool.
pub proof fn lemma_mem_remove(
    t0: TaskTable,
    t1: TaskTable,
    fa0: FrameAllocator,
    fa1: FrameAllocator,
    d: int,
)
    requires
        mem_inv(t0, fa0),
        fa1.wf(),
        live_in(t0, d),
        t1.len() == t0.len(),
        t1[d] is None,
        forall|x: int| 0 <= x < t0.len() && x != d ==> (#[trigger] t1[x] is Some <==> t0[x] is Some),
        forall|x: int| live_in(t0, x) && x != d ==> mem_same(t0[x]->0, (#[trigger] t1[x])->0),
        fa0.unchanged_outside(&fa1, t0[d]->0.memory_set.frames()),
    ensures
        mem_inv(t1, fa1),
{
    let region = t0[d]->0.memory_set.frames();
    assert forall|q: int| live_in(t1, q) implies (#[trigger] t1[q])->0.wf(&fa1) by {
        assert(t0[q] is Some);
        lemma_other_kept(t0, fa0, fa1, d, q, region);
    }
    reveal(mem_inv);
    assert forall|a: int, b: int| live_in(t1, a) && live_in(t1, b) && a != b implies (
    #[trigger] t1[a])->0.memory_set.frames().disjoint((#[trigger] t1[b])->0.memory_set.frames()) by {
        assert(t0[a] is Some && t0[b] is Some);
        assert(t0[a]->0.memory_set.frames().disjoint(t0[b]->0.memory_set.frames()));
    }
}

/// What the table is after the task `c` has forked the child `d`: the
/// child is new in the table, it has `c` for its parent and no children, it
/// is the last of the children of `c`, and nothing else in the family tree
/// has changed.
pub open spec fn fork_links(t0: TaskTable, t1: TaskTable, c: int, d: int) -> bool {
    &&& !live_in(t0, d)
    &&& live_in(t1, d)
    &&& d != 0
    &&& d < PID_LIMIT
    &&& t1.len() == (if d < t0.len() {
        t0.len() as int
    } else {
        d + 1
    })
    &&& d <= t0.len()
    &&& forall|x: int| 0 <= x < t0.len() && x != d ==> (#[trigger] t1[x] is Some <==> t0[x] is Some)
    &&& t1[d]->0.parent == Some(c as usize)
    &&& t1[d]->0.children@.len() == 0
    &&& t1[d]->0.task_status == TaskStatus::Ready
    &&& t1[c]->0.children@ == t0[c]->0.children@.push(d as usize)
    &&& t1[c]->0.parent == t0[c]->0.parent
    &&& t1[c]->0.task_status == t0[c]->0.task_status
    &&& t0[c]->0.task_status != TaskStatus::Zombie
    &&& forall|x: int| live_in(t0, x) && x != c ==> #[trigger] t1[x] == t0[x]
}

/// After a fork, every task's links are in order.
proof fn lemma_fork_links(t0: TaskTable, t1: TaskTable, c: int, d: int, x: int)
    requires
        tree_inv(t0),
        live_in(t0, c),
        fork_links(t0, t1, c, d),
        live_in(t1, x),
    ensures
        links_ok(t1, x),
{
    lemma_children(t0, c);
    let kids = t0[c]->0.children@;
    if x == d {
        assert(t1[c] is Some);
        assert(t1[c]->0.children@[kids.len() as int] == d as usize);
    } else {
        assert(t0[x] is Some);
        lemma_parent(t0, x);
        lemma_children(t0, x);
        if x == c {
            let all = kids.push(d as usize);
            assert forall|i: int, j: int|
                0 <= i < all.len() && 0 <= j < all.len() && i != j implies all[i] != all[j] by {
                if i < kids.len() {
                    assert(child_apart(t0, c, i));
                }
                if j < kids.len() {
                    assert(child_apart(t0, c, j));
                }
            }
        }
        if let Some(p) = t1[x]->0.parent {
            assert(t0[x]->0.parent == Some(p));
            assert(t1[p as int] is Some);
            let i = choose|i: int|
                0 <= i < t0[p as int]->0.children@.len() && t0[p as int]->0.children@[i]
                    == x as usize;
            assert(t1[p as int]->0.children@[i] == x as usize);
        }
    }
}

/// The family tree is in order after a fork.
pub proof fn lemma_fork_tree(t0: TaskTable, t1: TaskTable, c: int, d: int)
    requires
        tree_inv(t0),
        live_in(t0, c),
        fork_links(t0, t1, c, d),
    ensures
        tree_inv(t1),
{
    lemma_children(t0, c);
    lemma_parent(t0, c);
    let kids = t0[c]->0.children@;
    assert forall|p: int, i: int|
        live_in(t1, p) && 0 <= i < t1[p]->0.children@.len() implies #[trigger] child_ok(
        t1,
        p,
        i,
    ) by {
        assert(p != d);
        assert(t0[p] is Some);
        if p == c && i == kids.len() {
        } else {
            lemma_children(t0, p);
            assert(child_apart(t0, p, i));
            let x = t0[p]->0.children@[i] as int;
            assert(t1[x] is Some);
        }
    }
    assert forall|x: int| live_in(t1, x) implies #[trigger] links_ok(t1, x) by {
        lemma_fork_links(t0, t1, c, d, x);
    }
    reveal(tree_inv);
}

impl Kernel {
    /// Whether the pid `p` is in use.
    pub open spec fn live(&self, p: int) -> bool {
        live_in(self.tasks@, p)
    }

    /// The task of the pid `p`.
    pub open spec fn task(&self, p: int) -> TaskControlBlock {
        self.tasks@[p]->0
    }

    /// The address space of the task `p`.
    pub open spec fn space(&self, p: int) -> MemorySet {
        self.tasks@[p]->0.memory_set
    }

    /// The time in milliseconds.
    pub open spec fn now_ms(&self) -> int {
        self.time_us as int / 1000
    }

    /// The invariant of a kernel that is up: memory, pids, scheduling, the
    /// family tree, the clock and the program table are each in order, on a
    /// machine whose words have 64 bits.
    pub open spec fn wf(&self) -> bool {
        &&& usize::BITS == 64
        &&& !self.halted
        &&& self.loader.wf()
        &&& mem_inv(self.tasks@, self.frames)
        &&& pid_inv(self.tasks@, self.pids)
        &&& sched_inv(self.tasks@, self.manager@, self.processor.current)
        &&& tree_inv(self.tasks@)
        &&& clock_inv(self.tasks@, self.now_ms())
    }

    /// What the invariant says of the task that runs.
    pub proof fn lemma_current(&self)
        requires
            self.wf(),
            self.processor.current is Some,
        ensures
            self.live(self.processor.current->0 as int),
            self.task(self.processor.current->0 as int).pid == self.processor.current->0,
            self.task(self.processor.current->0 as int).task_status == TaskStatus::Running,
            self.task(self.processor.current->0 as int).wf(&self.frames),
            self.frames.wf(),
            !self.manager@.contains(self.processor.current->0),
            self.processor.current->0 < PID_LIMIT,
    {
        reveal(sched_inv);
        reveal(mem_inv);
        reveal(pid_inv);
        let c = self.processor.current->0;
        assert(self.tasks@[c as int]->0.wf(&self.frames));
        if self.manager@.contains(c) {
            let i = choose|i: int| 0 <= i < self.manager@.len() && self.manager@[i] == c;
            assert(self.tasks@[self.manager@[i] as int]->0.task_status == TaskStatus::Ready);
        }
    }

    /// The task at the head of the ready queue is a task that is ready.
    pub proof fn lemma_queue_head(&self)
        requires
            self.wf(),
            self.manager@.len() > 0,
        ensures
            self.live(self.manager@[0] as int),
            self.task(self.manager@[0] as int).task_status == TaskStatus::Ready,
    {
        reveal(sched_inv);
        assert(live_in(self.tasks@, self.manager@[0] as int));
    }

    /// What the invariant says of any task.
    pub proof fn lemma_task(&self, p: int)
        requires
            self.wf(),
            self.live(p),
        ensures
            self.task(p).pid == p,
            self.task(p).wf(&self.frames),
            self.frames.wf(),
            self.frames.pool_start() <= USER_BASE / 4096,
            p < PID_LIMIT,
            times_ok(self.task(p), self.now_ms()),
            self.pids.wf(),
            self.pids.is_allocated(p),
            self.tasks@.len() == self.pids.next(),
    {
        reveal(mem_inv);
        reveal(pid_inv);
        reveal(clock_inv);
        assert(self.tasks@[p]->0.wf(&self.frames));
        assert(self.tasks@[p]->0.pid == p);
        assert(times_ok(self.tasks@[p]->0, self.now_ms()));
    }

    /// `next` is in the state of `self`.
    pub open spec fn same_as(&self, next: &Kernel) -> bool {
        &&& next.tasks@ == self.tasks@
        &&& next.frames == self.frames
        &&& next.pids == self.pids
        &&& next.loader == self.loader
        &&& next.time_us == self.time_us
        &&& next.manager == self.manager
        &&& next.processor == self.processor
        &&& next.halted == self.halted
    }

    /// `next` differs from `self` at most in the frames and in the address
    /// space of the task `c`.
    pub open spec fn only_space_changed(&self, next: &Kernel, c: int) -> bool {
        &&& next.pids == self.pids
        &&& next.loader == self.loader
        &&& next.time_us == self.time_us
        &&& next.manager == self.manager
        &&& next.processor == self.processor
        &&& next.halted == self.halted
        &&& same_pids(self.tasks@, next.tasks@)
        &&& forall|q: int| self.live(q) && q != c ==> #[trigger] next.tasks@[q] == self.tasks@[q]
        &&& next.task(c) == (TaskControlBlock { memory_set: next.space(c), ..self.task(c) })
    }

    /// `next` differs from `self` at most in the frames and in the address
    /// space and the heap boundary of the task `c`.
    pub open spec fn only_heap_changed(&self, next: &Kernel, c: int) -> bool {
        &&& next.pids == self.pids
        &&& next.loader == self.loader
        &&& next.time_us == self.time_us
        &&& next.manager == self.manager
        &&& next.processor == self.processor
        &&& next.halted == self.halted
        &&& same_pids(self.tasks@, next.tasks@)
        &&& forall|q: int| self.live(q) && q != c ==> #[trigger] next.tasks@[q] == self.tasks@[q]
        &&& next.task(c) == (TaskControlBlock {
            memory_set: next.space(c),
            program_brk: next.task(c).program_brk,
            ..self.task(c)
        })
    }

    /// The invariant holds on when the address space and the heap boundary
    /// of one task change, the address space inside its own frames, frames
    /// that were free, and the kernel's frames.
    pub proof fn lemma_heap_changed(&self, next: &Kernel, c: int, region: Set<int>)
        requires
            self.wf(),
            self.live(c),
            self.only_heap_changed(next, c),
            next.frames.wf(),
            next.task(c).wf(&next.frames),
            self.frames.unchanged_outside(&next.frames, region),
            forall|x: int|
                #[trigger] region.contains(x) ==> self.space(c).frames().contains(x)
                    || !self.frames.is_allocated(x),
            forall|x: int|
                #[trigger] next.space(c).frames().contains(x) ==> self.space(c).frames().contains(
                    x,
                ) || !self.frames.is_allocated(x),
        ensures
            next.wf(),
            forall|q: int|
                self.live(q) && q != c ==> forall|v: int|
                    0 <= v < crate::config::VPN_LIMIT
                        ==> #[trigger] crate::mm::page_table::leaf_entry(
                        next.frames.memory(),
                        self.space(q).root(),
                        v,
                    ) == crate::mm::page_table::leaf_entry(
                        self.frames.memory(),
                        self.space(q).root(),
                        v,
                    ),
    {
        let t0 = self.tasks@;
        let t1 = next.tasks@;
        self.lemma_task(c);
        lemma_mem_step(t0, t1, self.frames, next.frames, c, region);
        lemma_pid_same(t0, t1, self.pids);
        lemma_sched_same(t0, t1, self.manager@, self.processor.current);
        lemma_tree_same(t0, t1);
        lemma_clock_same(t0, t1, self.now_ms(), self.now_ms());
        assert forall|q: int| self.live(q) && q != c implies forall|v: int|
            0 <= v < crate::config::VPN_LIMIT ==> #[trigger] crate::mm::page_table::leaf_entry(
                next.frames.memory(),
                self.space(q).root(),
                v,
            ) == crate::mm::page_table::leaf_entry(
                self.frames.memory(),
                self.space(q).root(),
                v,
            ) by {
            lemma_other_kept(t0, self.frames, next.frames, c, q, region);
        }
    }

    /// The invariant holds on when the address space of one task changes
    /// inside its own frames, frames that were free, and the kernel's frames.
    pub proof fn lemma_space_changed(&self, next: &Kernel, c: int, region: Set<int>)
        requires
            self.wf(),
            self.live(c),
            self.only_space_changed(next, c),
            next.frames.wf(),
            next.task(c).wf(&next.frames),
            self.frames.unchanged_outside(&next.frames, region),
            forall|x: int|
                #[trigger] region.contains(x) ==> self.space(c).frames().contains(x)
                    || !self.frames.is_allocated(x),
            forall|x: int|
                #[trigger] next.space(c).frames().contains(x) ==> self.space(c).frames().contains(
                    x,
                ) || !self.frames.is_allocated(x),
        ensures
            next.wf(),
            forall|q: int|
                self.live(q) && q != c ==> forall|v: int|
                    0 <= v < crate::config::VPN_LIMIT
                        ==> #[trigger] crate::mm::page_table::leaf_entry(
                        next.frames.memory(),
                        self.space(q).root(),
                        v,
                    ) == crate::mm::page_table::leaf_entry(
                        self.frames.memory(),
                        self.space(q).root(),
                        v,
                    ),
    {
        self.lemma_task(c);
        self.lemma_heap_changed(next, c, region);
    }

    /// A kernel with `num_frames` frames of memory, the first `reserved` of
    /// them kept for the kernel itself; no task, no program, the clock at 0.
    pub fn new(num_frames: usize, reserved: usize) -> (k: Kernel)
        requires
            usize::BITS == 64,
            reserved <= num_frames <= PPN_LIMIT,
            reserved <= USER_BASE / 4096,
        ensures
            k.wf(),
            k.tasks@.len() == 0,
            k.manager@.len() == 0,
            k.processor.current is None,
            k.time_us == 0,
            k.frames.free_count() == num_frames - reserved,
            k.frames.pool_start() == reserved,
            forall|name: Seq<u8>| k.loader.lookup(name) is None,
    {
        let k = Kernel {
            frames: FrameAllocator::new(num_frames, reserved),
            pids: PidAllocator::new(),
            tasks: Vec::new(),
            manager: TaskManager::new(),
            processor: Processor::new(),
            loader: ProgramTable::new(),
            time_us: 0,
            halted: false,
        };
        proof {
            reveal(mem_inv);
            reveal(pid_inv);
            reveal(sched_inv);
            reveal(tree_inv);
            reveal(clock_inv);
        }
        k
    }

    /// Takes note of the time `now_us` that the timer reports. The clock
    /// never goes back: an earlier time is ignored.
    pub fn tick(&mut self, now_us: usize)
        requires
            old(self).wf(),
        ensures
            final(self).wf(),
            final(self).time_us == (if now_us > old(self).time_us {
                now_us
            } else {
                old(self).time_us
            }),
            final(self).tasks == old(self).tasks,
            final(self).frames == old(self).frames,
            final(self).manager == old(self).manager,
            final(self).processor == old(self).processor,
            final(self).loader == old(self).loader,
            final(self).pids == old(self).pids,
    {
        if now_us > self.time_us {
            self.time_us = now_us;
        }
        proof {
            lemma_clock_same(old(self).tasks@, self.tasks@, old(self).now_ms(), self.now_ms());
        }
    }

    /// Makes the program `image` known under the name `name`. Returns
    /// `false`, and changes nothing, exactly when the image cannot be loaded.
    pub fn add_program(&mut self, name: Vec<u8>, image: Vec<u8>) -> (r: bool)
        requires
            old(self).wf(),
        ensures
            final(self).wf(),
            r == crate::mm::image::image_ok(image@),
            !r ==> *final(self) == *old(self),
            r ==> final(self).loader.names() == old(self).loader.names().push(name@)
                && final(self).loader.images() == old(self).loader.images().push(image@),
            final(self).tasks == old(self).tasks,
            final(self).frames == old(self).frames,
            final(self).manager == old(self).manager,
            final(self).processor == old(self).processor,
            final(self).pids == old(self).pids,
            final(self).time_us == old(self).time_us,
    {
        self.loader.add(name, image)
    }

    /// The time in microseconds.
    pub fn get_time_us(&self) -> (t: usize)
        ensures
            t == self.time_us,
    {
        self.time_us
    }

    /// The time in milliseconds.
    pub fn get_time_ms(&self) -> (t: usize)
        ensures
            t == self.now_ms(),
    {
        self.time_us / 1000
    }
}

} // verus!
