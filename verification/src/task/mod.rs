//! Tasks: their descriptors, the ready queue, the processor, and the
//! operations that move a task through its life.
use vstd::prelude::*;
use crate::config::{IDLE_PID, MAX_SYSCALL_NUM, USER_BASE, VA_LIMIT, VPN_LIMIT};
use crate::mm::address::{VirtAddr, VirtPageNum};
use crate::mm::memory_set::{range_cost, MapPermission, MapType, MemorySet};
use crate::mm::page_table::{leaf_entry, MapError};
use crate::kernel::{child_apart, clock_inv, exit_links, lemma_children, lemma_clock_same,
    lemma_exit_tree, lemma_mem_same, lemma_mem_step, lemma_parent, lemma_pid_same, lemma_sched_same,
    lemma_tree_same, live_in, mem_inv, pid_inv, same_pids, sched_inv, tree_inv, Kernel, TaskTable};
use crate::loader::{initproc_name, initproc_name_bytes};
use crate::mm::image::raw_image;
use crate::mm::loader::{image_cost, image_layout};
use crate::task::context::TaskContext;
use crate::task::manager::yield_step;
use crate::task::task::{TaskControlBlock, TaskInfo, TaskStatus};

pub mod context;
pub mod id;
pub mod manager;
pub mod processor;
pub mod task;

verus! {

/// The task `t` with the status `s`.
pub open spec fn with_status(t: TaskControlBlock, s: TaskStatus) -> TaskControlBlock {
    TaskControlBlock { task_status: s, ..t }
}

impl Kernel {
    /// What [`run_tasks`] leaves behind: the head of the queue, if there is
    /// one, runs; nothing else changes.
    pub open spec fn dispatched(&self, next: &Kernel) -> bool {
        &&& next.frames == self.frames
        &&& next.pids == self.pids
        &&& next.loader == self.loader
        &&& next.time_us == self.time_us
        &&& next.halted == self.halted
        &&& next.processor.idle_task_cx == self.processor.idle_task_cx
        &&& if self.manager@.len() == 0 {
            next.tasks@ == self.tasks@ && next.manager@ == self.manager@ && next.processor.current
                is None
        } else {
            let head = self.manager@[0];
            &&& next.manager@ == self.manager@.drop_first()
            &&& next.processor.current == Some(head)
            &&& next.tasks@ == self.tasks@.update(
                head as int,
                Some(with_status(self.task(head as int), TaskStatus::Running)),
            )
        }
    }

    /// What [`suspend_current_and_run_next`] leaves behind: the task that
    /// ran is ready and stands at the tail of the queue, and the task that
    /// stood at its head runs. Nothing else changes.
    pub open spec fn suspended(&self, next: &Kernel) -> bool {
        let c = self.processor.current->0;
        let step = yield_step(c, self.manager@);
        &&& next.frames == self.frames
        &&& next.pids == self.pids
        &&& next.loader == self.loader
        &&& next.time_us == self.time_us
        &&& next.halted == self.halted
        &&& next.processor.idle_task_cx == self.processor.idle_task_cx
        &&& next.processor.current == Some(step.0)
        &&& next.manager@ == step.1
        &&& next.tasks@ == self.tasks@.update(
            c as int,
            Some(with_status(self.task(c as int), TaskStatus::Ready)),
        ).update(
            step.0 as int,
            Some(with_status(self.task(step.0 as int), TaskStatus::Running)),
        )
    }
}

/// One round of the scheduling loop: when no task runs, the task at the
/// head of the ready queue is taken off it and runs. Returns the task to
/// switch to; `None` when the queue is empty and the processor stays idle.
pub fn run_tasks(kernel: &mut Kernel) -> (r: Option<usize>)
    requires
        old(kernel).wf(),
        old(kernel).processor.current is None,
    ensures
        final(kernel).wf(),
        old(kernel).dispatched(final(kernel)),
        r == final(kernel).processor.current,
{
    proof {
        reveal(sched_inv);
    }
    match kernel.manager.fetch() {
        None => None,
        Some(p) => {
            proof {
                assert(old(kernel).manager@.contains(p)) by {
                    assert(old(kernel).manager@[0] == p);
                }
                assert(live_in(old(kernel).tasks@, old(kernel).manager@[0] as int));
            }
            match &mut kernel.tasks[p] {
                Some(t) => {
                    t.task_status = TaskStatus::Running;
                },
                None => {},
            }
            kernel.processor.current = Some(p);
            proof {
                let t0 = old(kernel).tasks@;
                let t1 = kernel.tasks@;
                let q0 = old(kernel).manager@;
                let q1 = kernel.manager@;
                assert(t1 =~= t0.update(
                    p as int,
                    Some(with_status(old(kernel).task(p as int), TaskStatus::Running)),
                ));
                lemma_mem_same(t0, t1, kernel.frames);
                lemma_pid_same(t0, t1, kernel.pids);
                lemma_tree_same(t0, t1);
                lemma_clock_same(t0, t1, kernel.now_ms(), kernel.now_ms());
                assert(sched_inv(t1, q1, Some(p))) by {
                    assert forall|i: int| 0 <= i < q1.len() implies live_in(
                        t1,
                        #[trigger] q1[i] as int,
                    ) && t1[q1[i] as int]->0.task_status == TaskStatus::Ready by {
                        assert(q1[i] == q0[i + 1]);
                        assert(live_in(t0, q0[i + 1] as int));
                    }
                    assert forall|x: int| live_in(t1, x) implies {
                        let s = (#[trigger] t1[x])->0.task_status;
                        &&& s == TaskStatus::Running ==> Some(p) == Some(x as usize)
                        &&& s == TaskStatus::Ready ==> q1.contains(x as usize)
                        &&& s != TaskStatus::UnInit
                    } by {
                        assert(t0[x] is Some);
                        reveal(pid_inv);
                        assert(t0[x]->0.pid == x);
                        if x != p && t0[x]->0.task_status == TaskStatus::Ready {
                            let i = choose|i: int| 0 <= i < q0.len() && q0[i] == x as usize;
                            assert(i != 0);
                            assert(q1[i - 1] == q0[i]);
                        }
                    }
                }
            }
            Some(p)
        },
    }
}

/// Suspends the task that runs and runs the next one: the task goes to
/// the tail of the ready queue, and the task at the head of the queue runs.
pub fn suspend_current_and_run_next(kernel: &mut Kernel)
    requires
        old(kernel).wf(),
        old(kernel).processor.current is Some,
    ensures
        final(kernel).wf(),
        old(kernel).suspended(final(kernel)),
{
    proof {
        old(kernel).lemma_current();
    }
    let c = kernel.processor.take_current().unwrap();
    match &mut kernel.tasks[c] {
        Some(t) => {
            t.task_status = TaskStatus::Ready;
        },
        None => {},
    }
    kernel.manager.add(c);
    proof {
        let t0 = old(kernel).tasks@;
        let t1 = kernel.tasks@;
        let q0 = old(kernel).manager@;
        let q1 = kernel.manager@;
        reveal(sched_inv);
        assert(t1 =~= t0.update(
            c as int,
            Some(with_status(old(kernel).task(c as int), TaskStatus::Ready)),
        ));
        lemma_mem_same(t0, t1, kernel.frames);
        lemma_pid_same(t0, t1, kernel.pids);
        lemma_tree_same(t0, t1);
        lemma_clock_same(t0, t1, kernel.now_ms(), kernel.now_ms());
        assert(sched_inv(t1, q1, None)) by {
            assert forall|i: int| 0 <= i < q1.len() implies live_in(t1, #[trigger] q1[i] as int)
                && t1[q1[i] as int]->0.task_status == TaskStatus::Ready by {
                if i < q0.len() {
                    assert(live_in(t0, q0[i] as int));
                }
            }
            assert forall|x: int| live_in(t1, x) implies {
                let s = (#[trigger] t1[x])->0.task_status;
                &&& s == TaskStatus::Running ==> None::<usize> == Some(x as usize)
                &&& s == TaskStatus::Ready ==> q1.contains(x as usize)
                &&& s != TaskStatus::UnInit
            } by {
                assert(t0[x] is Some);
                reveal(pid_inv);
                assert(t0[x]->0.pid == x);
                if x == c {
                    assert(q1[q0.len() as int] == c);
                } else if t0[x]->0.task_status == TaskStatus::Ready {
                    let i = choose|i: int| 0 <= i < q0.len() && q0[i] == x as usize;
                    assert(q1[i] == x as usize);
                }
            }
            assert(q1.no_duplicates()) by {
                assert forall|i: int, j: int|
                    0 <= i < q1.len() && 0 <= j < q1.len() && i != j implies q1[i] != q1[j] by {
                    if i < q0.len() {
                        assert(q0.contains(q0[i]));
                    }
                    if j < q0.len() {
                        assert(q0.contains(q0[j]));
                    }
                }
            }
        }
    }
    let ghost mid = *kernel;
    let r = run_tasks(kernel);
    proof {
        let head = mid.manager@[0];
        assert(kernel.tasks@ =~= old(kernel).tasks@.update(
            c as int,
            Some(with_status(old(kernel).task(c as int), TaskStatus::Ready)),
        ).update(
            head as int,
            Some(with_status(old(kernel).task(head as int), TaskStatus::Running)),
        ));
    }
}

/// The record of what the task that runs has done; `None` when no task runs.
pub fn get_current_task_info(kernel: &Kernel) -> (r: Option<TaskInfo>)
    requires
        kernel.wf(),
    ensures
        match kernel.processor.current {
            None => r is None,
            Some(c) => r == Some(kernel.task(c as int).task_info),
        },
{
    match kernel.processor.current {
        None => None,
        Some(c) => {
            proof {
                kernel.lemma_current();
            }
            match &kernel.tasks[c] {
                Some(t) => Some(t.task_info),
                None => None,
            }
        },
    }
}

/// The status of the task that runs; `None` when no task runs.
pub fn get_current_task_status(kernel: &Kernel) -> (r: Option<TaskStatus>)
    requires
        kernel.wf(),
    ensures
        match kernel.processor.current {
            None => r is None,
            Some(c) => r == Some(TaskStatus::Running) && r == Some(
                kernel.task(c as int).task_status,
            ),
        },
{
    match kernel.processor.current {
        None => None,
        Some(c) => {
            proof {
                kernel.lemma_current();
            }
            match &kernel.tasks[c] {
                Some(t) => Some(t.task_status),
                None => None,
            }
        },
    }
}

/// The saved kernel registers of the task that runs; `None` when no task runs.
pub fn get_current_task_ctx(kernel: &Kernel) -> (r: Option<TaskContext>)
    requires
        kernel.wf(),
    ensures
        match kernel.processor.current {
            None => r is None,
            Some(c) => r == Some(kernel.task(c as int).task_cx),
        },
{
    match kernel.processor.current {
        None => None,
        Some(c) => {
            proof {
                kernel.lemma_current();
            }
            match &kernel.tasks[c] {
                Some(t) => Some(t.task_cx),
                None => None,
            }
        },
    }
}

/// The pid of the task that runs.
pub fn get_current_task_id(kernel: &Kernel) -> (pid: usize)
    requires
        kernel.wf(),
        kernel.processor.current is Some,
    ensures
        pid == kernel.processor.current->0,
        pid == kernel.task(pid as int).pid,
{
    proof {
        kernel.lemma_current();
    }
    kernel.processor.current.unwrap()
}

impl Kernel {
    /// What [`add_initproc`] leaves behind: the init process is the one
    /// task, it is as the program made it, and it waits in the queue.
    pub open spec fn initproc_added(&self, next: &Kernel) -> bool {
        let image = self.loader.lookup(initproc_name())->0;
        let regions = image_layout(raw_image(image).segments, self.frames.pool_start());
        &&& next.loader == self.loader
        &&& next.time_us == self.time_us
        &&& next.processor == self.processor
        &&& next.tasks@.len() == 1
        &&& next.live(0)
        &&& next.task(0).fresh(0, image)
        &&& next.space(0).building(&self.frames, &next.frames, regions, image, regions.len() as int)
        &&& next.task(0).trap_cx_ppn == TaskControlBlock::trap_frame(&next.space(0), &next.frames)
        &&& next.manager@ == seq![0usize]
    }

    /// What [`set_current_task_info`] leaves behind for the system call
    /// `id`: its counter is one higher, the task's running time is the time
    /// since its first system call, and the recorded status is the task's.
    pub open spec fn recorded(&self, next: &Kernel, id: int) -> bool {
        match self.processor.current {
            None => self.same_as(next),
            Some(c) => {
                let t0 = self.task(c as int);
                let t1 = next.task(c as int);
                let now = self.now_ms() as usize;
                &&& next.frames == self.frames
                &&& next.pids == self.pids
                &&& next.loader == self.loader
                &&& next.time_us == self.time_us
                &&& next.manager == self.manager
                &&& next.processor == self.processor
                &&& next.halted == self.halted
                &&& crate::kernel::same_pids(self.tasks@, next.tasks@)
                &&& forall|q: int| self.live(q) && q != c ==> #[trigger] next.tasks@[q] == self.tasks@[q]
                &&& t1.start_time == (if t0.start_time == 0 {
                    now
                } else {
                    t0.start_time
                })
                &&& t1.end_time == now
                &&& t1.task_info.time == t1.end_time - t1.start_time
                &&& t1.task_info.status == t0.task_status
                &&& t1.task_info.syscall_times@ == t0.task_info.syscall_times@.update(
                    id,
                    (t0.task_info.syscall_times@[id] + 1) as u32,
                )
                &&& t1 == (TaskControlBlock {
                    start_time: t1.start_time,
                    end_time: t1.end_time,
                    task_info: t1.task_info,
                    ..t0
                })
            },
        }
    }
}

impl Kernel {
    /// A kernel without tasks has handed out no pid, runs no task and has
    /// none waiting.
    pub proof fn lemma_no_tasks(&self)
        requires
            self.wf(),
            self.tasks@.len() == 0,
        ensures
            self.pids.next() == 0,
            self.processor.current is None,
            self.manager@.len() == 0,
            self.frames.wf(),
            self.pids.wf(),
            self.frames.pool_start() <= USER_BASE / 4096,
    {
        reveal(pid_inv);
        reveal(mem_inv);
        reveal(sched_inv);
        if self.manager@.len() > 0 {
            assert(live_in(self.tasks@, self.manager@[0] as int));
        }
    }

    /// The invariant holds once the first task is in the table.
    #[verifier::rlimit(40)]
    proof fn lemma_initproc_wf(&self, next: &Kernel)
        requires
            self.wf(),
            self.tasks@.len() == 0,
            next.tasks@.len() == 1,
            next.tasks@[0] is Some,
            next.task(0).wf(&next.frames),
            next.task(0).pid == 0,
            next.task(0).task_status == TaskStatus::Ready,
            next.task(0).parent is None,
            next.task(0).children@.len() == 0,
            next.task(0).start_time == 0,
            next.task(0).end_time == 0,
            next.task(0).task_info.time == 0,
            next.frames.wf(),
            self.frames.unchanged_outside(
                &next.frames,
                next.space(0).frames().union(
                    crate::mm::memory_set::MemorySet::kernel_frames(&self.frames),
                ),
            ),
            forall|q: int| #[trigger] next.space(0).frames().contains(q) ==> !self.frames.is_allocated(q),
            next.pids.wf(),
            next.pids.next() == 1,
            next.pids.is_allocated(0),
            next.manager@ == seq![0usize],
            next.processor == self.processor,
            next.loader == self.loader,
            next.time_us == self.time_us,
            !next.halted,
        ensures
            next.wf(),
    {
        self.lemma_no_tasks();
        let t0 = self.tasks@;
        let t1 = next.tasks@;
        let region = next.space(0).frames().union(
            crate::mm::memory_set::MemorySet::kernel_frames(&self.frames),
        );
        assert forall|x: int| #[trigger] region.contains(x) implies !self.frames.is_allocated(x) by {
            if self.frames.is_allocated(x) {
                self.frames.lemma_allocated_in_range(x);
            }
        }
        crate::kernel::lemma_mem_insert(t0, t1, self.frames, next.frames, 0, region);
        assert(pid_inv(t1, next.pids)) by {
            reveal(pid_inv);
        }
        assert(sched_inv(t1, next.manager@, next.processor.current)) by {
            reveal(sched_inv);
            assert(next.manager@[0] == 0);
            assert forall|p: int| live_in(t1, p) implies {
                let s = (#[trigger] t1[p])->0.task_status;
                &&& s == TaskStatus::Running ==> next.processor.current == Some(p as usize)
                &&& s == TaskStatus::Ready ==> next.manager@.contains(p as usize)
                &&& s != TaskStatus::UnInit
            } by {
                assert(p == 0);
            }
        }
        assert(tree_inv(t1)) by {
            reveal(tree_inv);
        }
        assert(clock_inv(t1, next.now_ms())) by {
            reveal(clock_inv);
            assert forall|p: int| live_in(t1, p) implies #[trigger] crate::kernel::times_ok(
                t1[p]->0,
                next.now_ms(),
            ) by {
                assert(p == 0);
            }
        }
    }
}

/// Makes the init process from the program of its name and puts it into
/// the ready queue. The kernel halts exactly when the pool holds fewer
/// frames than the program costs.
pub fn add_initproc(kernel: &mut Kernel)
    requires
        old(kernel).wf(),
        old(kernel).tasks@.len() == 0,
        old(kernel).loader.lookup(initproc_name()) is Some,
    ensures
        final(kernel).halted <==> old(kernel).frames.free_count() < image_cost(
            raw_image(old(kernel).loader.lookup(initproc_name())->0).segments,
            old(kernel).frames.pool_start(),
        ),
        !final(kernel).halted ==> final(kernel).wf() && old(kernel).initproc_added(final(kernel)),
{
    let name = initproc_name_bytes();
    proof {
        old(kernel).lemma_no_tasks();
        old(kernel).pids.lemma_first();
        old(kernel).pids.lemma_upcoming();
    }
    let image = match kernel.loader.get_app_data_by_name(&name) {
        None => {
            return ;
        },
        Some(image) => image,
    };
    let pid = match kernel.pids.allocate() {
        None => {
            return ;
        },
        Some(pid) => pid,
    };
    let tcb = match TaskControlBlock::new(&mut kernel.frames, pid, image) {
        Err(e) => {
            kernel.halted = true;
            return ;
        },
        Ok(tcb) => tcb,
    };
    kernel.tasks.push(Some(tcb));
    kernel.manager.add(pid);
    proof {
        assert(kernel.manager@ =~= seq![0usize]);
        assert(kernel.tasks@ =~= seq![kernel.tasks@[0]]);
        old(kernel).lemma_initproc_wf(kernel);
    }
}

/// Counts the system call `syscall_id` for the task that runs, and brings
/// its record up to date: the time of its first and of its latest system
/// call, the time between them, and its status. Does nothing when no task
/// runs.
pub fn set_current_task_info(kernel: &mut Kernel, syscall_id: usize)
    requires
        old(kernel).wf(),
        old(kernel).processor.current matches Some(c) ==> syscall_id < MAX_SYSCALL_NUM && old(
            kernel,
        ).task(c as int).task_info.syscall_times@[syscall_id as int] < u32::MAX,
    ensures
        final(kernel).wf(),
        old(kernel).recorded(final(kernel), syscall_id as int),
{
    let now = kernel.get_time_ms();
    match kernel.processor.current {
        None => {},
        Some(c) => {
            proof {
                old(kernel).lemma_current();
                old(kernel).lemma_task(c as int);
            }
            match &mut kernel.tasks[c] {
                Some(t) => {
                    if t.start_time == 0 {
                        t.start_time = now;
                    }
                    t.end_time = now;
                    let time = t.end_time - t.start_time;
                    let count = t.task_info.syscall_times[syscall_id];
                    t.task_info.syscall_times[syscall_id] = count + 1;
                    t.task_info.time = time;
                    t.task_info.status = t.task_status;
                },
                None => {},
            }
            proof {
                let t0 = old(kernel).tasks@;
                let t1 = kernel.tasks@;
                lemma_mem_same(t0, t1, kernel.frames);
                lemma_pid_same(t0, t1, kernel.pids);
                lemma_sched_same(t0, t1, kernel.manager@, kernel.processor.current);
                lemma_tree_same(t0, t1);
                reveal(clock_inv);
                assert(clock_inv(t1, kernel.now_ms())) by {
                    assert forall|p: int| live_in(t1, p) implies #[trigger] crate::kernel::times_ok(
                        t1[p]->0,
                        kernel.now_ms(),
                    ) by {
                        assert(t0[p] is Some);
                        assert(crate::kernel::times_ok(t0[p]->0, kernel.now_ms()));
                    }
                }
            }
        },
    }
}

/// The permission bits that [`insert_framed_area`] gives a region asked
/// for with the bits `prot`: those bits, user access, and valid.
pub open spec fn area_perm(prot: usize) -> u8 {
    ((prot & 0xff) as u8) | 0x11
}

impl Kernel {
    /// What [`insert_framed_area`] leaves behind, and what it returns.
    ///
    /// It returns -1 and changes nothing when no task runs, when the range
    /// is not one of the address space, or when one of its pages is mapped
    /// already. The kernel halts when the pool holds fewer frames than the
    /// region costs. Else it returns 0, and the address space of the task
    /// that runs has the new region, every page of it mapped to a zeroed
    /// frame of its own; nothing else changes.
    pub open spec fn area_inserted(
        &self,
        next: &Kernel,
        start_va: VirtAddr,
        end_va: VirtAddr,
        prot: usize,
        r: isize,
    ) -> bool {
        match self.processor.current {
            None => r == -1 && self.same_as(next),
            Some(c) => {
                let ms = self.space(c as int);
                let s = start_va.floor_of();
                let e = end_va.ceil_of();
                if start_va.0 > end_va.0 || end_va.0 > VA_LIMIT {
                    r == -1 && self.same_as(next)
                } else if !ms.range_free(&self.frames, s, e) {
                    r == -1 && self.same_as(next)
                } else if self.frames.free_count() < range_cost(ms.nodes(&self.frames), s, e, true) {
                    r == -1 && next.halted
                } else {
                    &&& r == 0
                    &&& next.wf()
                    &&& self.only_space_changed(next, c as int)
                    &&& ms.mapped_range(
                        ms.areas().push(
                            MemorySet::blank_area(
                                s,
                                e,
                                MapType::Framed,
                                MapPermission { bits: area_perm(prot) },
                            ),
                        ),
                        &next.space(c as int),
                        &self.frames,
                        &next.frames,
                        ms.areas().len() as int,
                        s,
                        e,
                    )
                }
            },
        }
    }

    /// What [`un_map`] leaves behind, and what it returns.
    ///
    /// It returns -1 and changes nothing when no task runs or when the page
    /// is not mapped in the address space of the task that runs. Else it
    /// returns 0, the page is unmapped, and its frame, if it had one of its
    /// own, is back in the pool; nothing else changes.
    pub open spec fn page_unmapped(&self, next: &Kernel, vpn: VirtPageNum, r: isize) -> bool {
        match self.processor.current {
            None => r == -1 && self.same_as(next),
            Some(c) => {
                let ms = self.space(c as int);
                if vpn.0 >= VPN_LIMIT || leaf_entry(self.frames.memory(), ms.root(), vpn.0 as int)
                    is None {
                    r == -1 && self.same_as(next)
                } else {
                    &&& r == 0
                    &&& next.wf()
                    &&& self.only_space_changed(next, c as int)
                    &&& exists|a: int|
                        0 <= a < ms.areas().len() && (#[trigger] ms.areas()[a].frame_at(
                            vpn.0 as int,
                        )) is Some && ms.unmapped_page(
                            &next.space(c as int),
                            &self.frames,
                            &next.frames,
                            a,
                            vpn.0 as int,
                        )
                }
            },
        }
    }
}

/// Adds a framed region over `[start_va, end_va)` to the address space of
/// the task that runs, with the permission bits `prot`, user access and
/// valid.
pub fn insert_framed_area(kernel: &mut Kernel, start_va: VirtAddr, end_va: VirtAddr, prot: usize) -> (r:
    isize)
    requires
        old(kernel).wf(),
        old(kernel).processor.current is Some ==> area_perm(prot) & 0xe0 == 0,
    ensures
        old(kernel).area_inserted(final(kernel), start_va, end_va, prot, r),
{
    let c = match kernel.processor.current {
        None => {
            return -1;
        },
        Some(c) => c,
    };
    if start_va.0 > end_va.0 || end_va.0 > VA_LIMIT {
        return -1;
    }
    proof {
        old(kernel).lemma_current();
    }
    assert(prot & 0xff < 256) by (bit_vector);
    let bits: u8 = ((prot & 0xff) as u8) | 0x11;
    let perm = MapPermission::from_bits(bits).unwrap();
    let mut res: Result<(), MapError> = Ok(());
    match &mut kernel.tasks[c] {
        Some(t) => {
            res = t.memory_set.insert_framed_area(&mut kernel.frames, start_va, end_va, perm);
        },
        None => {},
    }
    match res {
        Ok(()) => {
            proof {
                let ms0 = old(kernel).space(c as int);
                let ms1 = kernel.space(c as int);
                let region = ms1.table_frames().union(
                    ms1.data_frames().difference(ms0.data_frames()),
                );
                assert(kernel.tasks@ =~= old(kernel).tasks@.update(
                    c as int,
                    Some(TaskControlBlock { memory_set: ms1, ..old(kernel).task(c as int) }),
                ));
                assert forall|x: int| #[trigger] region.contains(x) implies ms0.frames().contains(x)
                    || !old(kernel).frames.is_allocated(x) by {
                    if !ms0.frames().contains(x) {
                        assert(ms1.frames().contains(x));
                    }
                }
                let t0 = old(kernel).task(c as int);
                old(kernel).lemma_task(c as int);
                let before = ms0.areas().push(
                    MemorySet::blank_area(
                        start_va.floor_of(),
                        end_va.ceil_of(),
                        MapType::Framed,
                        perm,
                    ),
                );
                assert forall|b: int| 0 <= b < ms0.areas().len() implies (
                #[trigger] ms1.areas()[b]).start == ms0.areas()[b].start && ms1.areas()[b].end
                    == ms0.areas()[b].end && ms1.areas()[b].map_type == ms0.areas()[b].map_type by {
                    assert(ms1.areas()[b] == before[b]);
                }
                ms0.lemma_heap_area_kept(
                    &ms1,
                    t0.heap_bottom as int / 4096,
                    (t0.program_brk + 4095) / 4096,
                );
                old(kernel).lemma_space_changed(kernel, c as int, region);
            }
            0
        },
        Err(MapError::AlreadyMapped) => {
            assert(kernel.tasks@ =~= old(kernel).tasks@);
            -1
        },
        Err(MapError::OutOfFrames) => {
            kernel.halted = true;
            -1
        },
    }
}

/// Unmaps the page `vpn` in the address space of the task that runs.
pub fn un_map(kernel: &mut Kernel, vpn: VirtPageNum) -> (r: isize)
    requires
        old(kernel).wf(),
    ensures
        old(kernel).page_unmapped(final(kernel), vpn, r),
{
    let c = match kernel.processor.current {
        None => {
            return -1;
        },
        Some(c) => c,
    };
    if vpn.0 >= VPN_LIMIT {
        return -1;
    }
    proof {
        old(kernel).lemma_current();
    }
    let mut done = false;
    match &mut kernel.tasks[c] {
        Some(t) => {
            done = t.memory_set.unmap_page(&mut kernel.frames, vpn);
        },
        None => {},
    }
    if done {
        proof {
            let ms0 = old(kernel).space(c as int);
            let ms1 = kernel.space(c as int);
            let a = choose|a: int|
                0 <= a < ms0.areas().len() && (#[trigger] ms0.areas()[a].frame_at(vpn.0 as int))
                    is Some && ms0.unmapped_page(
                    &ms1,
                    &old(kernel).frames,
                    &kernel.frames,
                    a,
                    vpn.0 as int,
                );
            let p = ms0.areas()[a].frame_at(vpn.0 as int)->0 as int;
            let region = if ms0.areas()[a].framed() {
                ms0.table_frames().insert(p)
            } else {
                ms0.table_frames()
            };
            assert(kernel.tasks@ =~= old(kernel).tasks@.update(
                c as int,
                Some(TaskControlBlock { memory_set: ms1, ..old(kernel).task(c as int) }),
            ));
            if ms0.areas()[a].framed() {
                ms0.lemma_slot_entry(&old(kernel).frames, a, vpn.0 as int);
            }
            assert forall|x: int| #[trigger] ms1.frames().contains(x) implies ms0.frames().contains(
                x,
            ) by {}
            let t0 = old(kernel).task(c as int);
            old(kernel).lemma_task(c as int);
            ms0.lemma_shape(&old(kernel).frames, a);
            assert forall|b: int| 0 <= b < ms0.areas().len() implies (
            #[trigger] ms1.areas()[b]).start == ms0.areas()[b].start && ms1.areas()[b].end
                == ms0.areas()[b].end && ms1.areas()[b].map_type == ms0.areas()[b].map_type by {}
            ms0.lemma_heap_area_kept(
                &ms1,
                t0.heap_bottom as int / 4096,
                (t0.program_brk + 4095) / 4096,
            );
            old(kernel).lemma_space_changed(kernel, c as int, region);
        }
        0
    } else {
        assert(kernel.tasks@ =~= old(kernel).tasks@);
        -1
    }
}

impl Kernel {
    /// What [`exit_current`] leaves behind: the task that ran is a zombie
    /// with the exit code `code`, without children, open files or mapped
    /// pages; its former children are children of the init process; and no
    /// task runs. What it was otherwise, and every other task but for its
    /// links, is as before.
    pub open spec fn exit_marked(&self, next: &Kernel, code: i32) -> bool {
        let c = self.processor.current->0 as int;
        &&& next.processor.current is None
        &&& next.processor.idle_task_cx == self.processor.idle_task_cx
        &&& next.manager == self.manager
        &&& next.pids == self.pids
        &&& next.loader == self.loader
        &&& next.time_us == self.time_us
        &&& next.halted == self.halted
        &&& exit_links(self.tasks@, next.tasks@, c)
        &&& self.space(c).recycled(&next.space(c), &self.frames, &next.frames)
        &&& next.task(c).exit_code == code
        &&& next.task(c).fd_table@.len() == 0
        &&& next.task(c) == (TaskControlBlock {
            task_status: TaskStatus::Zombie,
            exit_code: code,
            children: next.task(c).children,
            memory_set: next.space(c),
            fd_table: next.task(c).fd_table,
            ..self.task(c)
        })
        &&& forall|x: int|
            self.live(x) && x != c ==> #[trigger] next.tasks@[x] == Some(
                TaskControlBlock {
                    parent: next.task(x).parent,
                    children: next.task(x).children,
                    ..self.task(x)
                },
            )
    }

    /// The state while the children `kids` of the task `c` are handed to the
    /// init process and the first `i` of them are done, from the table `tm`.
    pub open spec fn reparenting(tm: TaskTable, t: TaskTable, c: int, kids: Seq<usize>, i: int) -> bool {
        &&& same_pids(tm, t)
        &&& t[c] == tm[c]
        &&& t[0]->0.children@ == tm[0]->0.children@.add(kids.take(i))
        &&& t[0] == Some(TaskControlBlock { children: t[0]->0.children, ..tm[0]->0 })
        &&& forall|x: int|
            live_in(tm, x) && x != c && x != 0 ==> #[trigger] t[x] == (if kids.take(i).contains(
                x as usize,
            ) {
                Some(TaskControlBlock { parent: Some(0usize), ..tm[x]->0 })
            } else {
                tm[x]
            })
    }

    /// The invariant holds after an exit.
    #[verifier::rlimit(40)]
    proof fn lemma_exit_wf(&self, mid: &Kernel, next: &Kernel, code: i32)
        requires
            self.wf(),
            self.processor.current is Some,
            self.processor.current->0 != 0,
            // `mid`: the task is marked and its memory recycled
            same_pids(self.tasks@, mid.tasks@),
            forall|q: int|
                self.live(q) && q != self.processor.current->0 ==> #[trigger] mid.tasks@[q]
                    == self.tasks@[q],
            mid.task(self.processor.current->0 as int) == (TaskControlBlock {
                task_status: TaskStatus::Zombie,
                exit_code: code,
                children: mid.task(self.processor.current->0 as int).children,
                memory_set: mid.space(self.processor.current->0 as int),
                fd_table: mid.task(self.processor.current->0 as int).fd_table,
                ..self.task(self.processor.current->0 as int)
            }),
            mid.task(self.processor.current->0 as int).children@.len() == 0,
            mid.task(self.processor.current->0 as int).fd_table@.len() == 0,
            self.space(self.processor.current->0 as int).recycled(
                &mid.space(self.processor.current->0 as int),
                &self.frames,
                &mid.frames,
            ),
            mid.frames.wf(),
            // `next`: the children are handed over
            next.frames == mid.frames,
            Self::reparenting(
                mid.tasks@,
                next.tasks@,
                self.processor.current->0 as int,
                self.task(self.processor.current->0 as int).children@,
                self.task(self.processor.current->0 as int).children@.len() as int,
            ),
            next.processor.current is None,
            next.processor.idle_task_cx == self.processor.idle_task_cx,
            next.manager == self.manager,
            next.pids == self.pids,
            next.loader == self.loader,
            next.time_us == self.time_us,
            next.halted == self.halted,
        ensures
            next.wf(),
            self.exit_marked(next, code),
    {
        let c = self.processor.current->0 as int;
        let t0 = self.tasks@;
        let tm = mid.tasks@;
        let t1 = next.tasks@;
        let kids = t0[c]->0.children@;
        self.lemma_current();
        self.lemma_task(c);
        lemma_parent(t0, c);
        lemma_children(t0, c);
        assert(kids.take(kids.len() as int) =~= kids);
        assert(tm[0] == t0[0]);
        assert forall|x: int| live_in(t0, x) && x != c && x != 0 implies {
            &&& (#[trigger] t1[x])->0.children@ == t0[x]->0.children@
            &&& t1[x]->0.task_status == t0[x]->0.task_status
            &&& t1[x]->0.parent == (if kids.contains(x as usize) {
                Some(0usize)
            } else {
                t0[x]->0.parent
            })
        } by {
            assert(tm[x] == t0[x]);
        }
        assert(exit_links(t0, t1, c));
        lemma_exit_tree(t0, t1, c);
        // memory
        let region = self.space(c).frames();
        assert(tm[c]->0.wf(&mid.frames));
        lemma_mem_step(t0, tm, self.frames, mid.frames, c, region);
        assert forall|p: int| live_in(tm, p) implies crate::kernel::mem_same(
            tm[p]->0,
            (#[trigger] t1[p])->0,
        ) by {
            if p != c && p != 0 {
                assert(tm[p] == t0[p]);
            }
        }
        lemma_mem_same(tm, t1, mid.frames);
        assert forall|p: int| live_in(t0, p) implies t0[p]->0.pid == (#[trigger] t1[p])->0.pid by {
            if p != c && p != 0 {
                assert(tm[p] == t0[p]);
            }
        }
        lemma_pid_same(t0, t1, self.pids);
        assert forall|p: int| live_in(t0, p) implies crate::kernel::clock_same(
            t0[p]->0,
            (#[trigger] t1[p])->0,
        ) by {
            if p != c && p != 0 {
                assert(tm[p] == t0[p]);
            }
        }
        lemma_clock_same(t0, t1, self.now_ms(), self.now_ms());
        assert(sched_inv(t1, next.manager@, None)) by {
            reveal(sched_inv);
            let q = self.manager@;
            assert forall|i: int| 0 <= i < q.len() implies live_in(t1, #[trigger] q[i] as int)
                && t1[q[i] as int]->0.task_status == TaskStatus::Ready by {
                let x = q[i] as int;
                assert(live_in(t0, x));
                assert(t1[x] is Some);
                if x != c && x != 0 {
                    assert(tm[x] == t0[x]);
                }
            }
            assert forall|p: int| live_in(t1, p) implies {
                let s = (#[trigger] t1[p])->0.task_status;
                &&& s == TaskStatus::Running ==> None::<usize> == Some(p as usize)
                &&& s == TaskStatus::Ready ==> q.contains(p as usize)
                &&& s != TaskStatus::UnInit
            } by {
                assert(t0[p] is Some);
                if p != c && p != 0 {
                    assert(tm[p] == t0[p]);
                }
                if p != c && t0[p]->0.task_status == TaskStatus::Running {
                    assert(self.processor.current == Some(p as usize));
                    self.lemma_task(p);
                }
            }
        }
        assert forall|x: int| self.live(x) && x != c implies #[trigger] next.tasks@[x] == Some(
            TaskControlBlock {
                parent: next.task(x).parent,
                children: next.task(x).children,
                ..self.task(x)
            },
        ) by {
            assert(tm[x] == t0[x]);
        }
    }
}

/// Ends the task that runs, with the exit code `exit_code`: it becomes a
/// zombie, its children go to the init process, its pages are unmapped and
/// their frames given back, and its files are closed. No task runs
/// afterwards. The init process cannot exit.
#[verifier::rlimit(40)]
pub fn exit_current(kernel: &mut Kernel, exit_code: i32)
    requires
        old(kernel).wf(),
        old(kernel).processor.current is Some,
        old(kernel).processor.current->0 != IDLE_PID,
    ensures
        final(kernel).wf(),
        old(kernel).exit_marked(final(kernel), exit_code),
{
    proof {
        old(kernel).lemma_current();
        lemma_parent(old(kernel).tasks@, old(kernel).processor.current->0 as int);
        lemma_children(old(kernel).tasks@, old(kernel).processor.current->0 as int);
    }
    let c = kernel.processor.take_current().unwrap();
    let mut kids: Vec<usize> = Vec::new();
    match &mut kernel.tasks[c] {
        Some(t) => {
            t.task_status = TaskStatus::Zombie;
            t.exit_code = exit_code;
            core::mem::swap(&mut kids, &mut t.children);
            t.memory_set.recycle_data_pages(&mut kernel.frames);
            t.fd_table.clear();
        },
        None => {},
    }
    let ghost mid = *kernel;
    let ghost tm = kernel.tasks@;
    let n = kids.len();
    let mut i: usize = 0;
    proof {
        assert(kids@.take(0) =~= Seq::<usize>::empty());
        assert(tm[0]->0.children@.add(kids@.take(0)) =~= tm[0]->0.children@);
        assert(kids@ == old(kernel).task(c as int).children@);
        assert forall|j: int| 0 <= j < n implies live_in(tm, #[trigger] kids@[j] as int)
            && kids@[j] != c && kids@[j] != 0 by {
            assert(child_apart(old(kernel).tasks@, c as int, j));
            assert(tm[kids@[j] as int] is Some);
        }
    }
    while i < n
        invariant
            i <= n,
            n == kids@.len(),
            kids@.no_duplicates(),
            tm.len() <= crate::config::PID_LIMIT,
            c != 0,
            kernel.frames == mid.frames,
            kernel.processor == mid.processor,
            kernel.manager == mid.manager,
            kernel.pids == mid.pids,
            kernel.loader == mid.loader,
            kernel.time_us == mid.time_us,
            kernel.halted == mid.halted,
            live_in(tm, c as int),
            live_in(tm, 0),
            forall|j: int|
                0 <= j < n ==> live_in(tm, #[trigger] kids@[j] as int) && kids@[j] != c && kids@[j]
                    != 0,
            Kernel::reparenting(tm, kernel.tasks@, c as int, kids@, i as int),
        decreases n - i,
    {
        let d = kids[i];
        let ghost tc = kernel.tasks@;
        assert(live_in(tm, kids@[i as int] as int));
        match &mut kernel.tasks[d] {
            Some(td) => {
                td.parent = Some(IDLE_PID);
            },
            None => {},
        }
        match &mut kernel.tasks[IDLE_PID] {
            Some(t0) => {
                t0.children.push(d);
            },
            None => {},
        }
        proof {
            let t = kernel.tasks@;
            assert(kids@.take(i as int + 1) =~= kids@.take(i as int).push(d));
            assert(t[0]->0.children@ =~= tm[0]->0.children@.add(kids@.take(i as int + 1)));
            assert forall|x: int| live_in(tm, x) && x != c && x != 0 implies #[trigger] t[x] == (
            if kids@.take(i as int + 1).contains(x as usize) {
                Some(TaskControlBlock { parent: Some(0usize), ..tm[x]->0 })
            } else {
                tm[x]
            }) by {
                if x == d {
                    assert(kids@.take(i as int + 1)[i as int] == d);
                    if kids@.take(i as int).contains(d) {
                        let s0 = kids@.take(i as int);
                        let j = choose|j: int| 0 <= j < s0.len() && s0[j] == d;
                        assert(kids@[j] == kids@[i as int]);
                    }
                    assert(tc[x] == tm[x]);
                } else {
                    assert(t[x] == tc[x]);
                    if kids@.take(i as int + 1).contains(x as usize) {
                        let s1 = kids@.take(i as int + 1);
                        let j = choose|j: int| 0 <= j < s1.len() && s1[j] == x as usize;
                        assert(s1[i as int] == d);
                        assert(j != i);
                        assert(kids@.take(i as int)[j] == x as usize);
                    }
                    if kids@.take(i as int).contains(x as usize) {
                        let s0 = kids@.take(i as int);
                        let j = choose|j: int| 0 <= j < s0.len() && s0[j] == x as usize;
                        assert(kids@.take(i as int + 1)[j] == x as usize);
                    }
                }
            }
        }
        i += 1;
    }
    proof {
        old(kernel).lemma_exit_wf(&mid, kernel, exit_code);
    }
}

/// Ends the task that runs and runs the next one: what [`exit_current`]
/// does, then what [`run_tasks`] does.
pub fn exit_current_and_run_next(kernel: &mut Kernel, exit_code: i32)
    requires
        old(kernel).wf(),
        old(kernel).processor.current is Some,
        old(kernel).processor.current->0 != IDLE_PID,
    ensures
        final(kernel).wf(),
        exists|mid: Kernel|
            old(kernel).exit_marked(&mid, exit_code) && mid.wf() && #[trigger] mid.dispatched(
                final(kernel),
            ),
{
    exit_current(kernel, exit_code);
    let ghost mid = *kernel;
    let r = run_tasks(kernel);
    proof {
        assert(old(kernel).exit_marked(&mid, exit_code) && mid.wf() && mid.dispatched(kernel));
    }
}

} // verus!
