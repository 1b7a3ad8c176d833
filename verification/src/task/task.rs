//! The task control block.
use vstd::prelude::*;
use crate::config::{PID_LIMIT, TRAP_CONTEXT_BASE, USER_BASE, VA_LIMIT};
use crate::mm::address::{VirtAddr, VirtPageNum};
use crate::mm::duplicate::duplicate_cost;
use crate::mm::frame_allocator::FrameAllocator;
use crate::mm::image::{image_ok, raw_image, stack_top_vpn};
use crate::mm::loader::{image_cost, image_layout, lemma_layout_heap};
use crate::mm::memory_set::{range_cost, MemorySet};
use crate::mm::page_table::{leaf_entry, MapError};
use crate::task::context::{TaskContext, TrapContext};
use crate::task::id::{stack_position, KernelStack};

verus! {

/// Token of the kernel's own address space, given to every trap context.
pub const KERNEL_SATP: u64 = 0;

/// Address of the kernel's trap handler, given to every trap context.
pub const TRAP_HANDLER: u64 = 0x8020_0000;

/// Where a task stands in its life.
#[derive(Clone, Copy, PartialEq, Eq, Structural, Debug)]
pub enum TaskStatus {
    UnInit,
    Ready,
    Running,
    Zombie,
}

/// What a task has done so far: how often it made each system call, and
/// for how many milliseconds it has been running.
#[derive(Clone, Copy, Debug)]
pub struct TaskInfo {
    /// The task's status when the record was last brought up to date.
    pub status: TaskStatus,
    /// How often the task made the system call of each number.
    pub syscall_times: [u32; 500],
    /// Milliseconds between the task's first system call and its latest.
    pub time: usize,
}

impl TaskInfo {
    /// The record of a task that has made no system call.
    pub fn new() -> (info: TaskInfo)
        ensures
            info.status == TaskStatus::UnInit,
            info.time == 0,
            forall|i: int| 0 <= i < 500 ==> info.syscall_times@[i] == 0,
    {
        TaskInfo { status: TaskStatus::UnInit, syscall_times: [0;500], time: 0 }
    }
}

/// The descriptor of one process.
pub struct TaskControlBlock {
    pub pid: usize,
    pub kernel_stack: KernelStack,
    /// The frame behind the page of the trap context.
    pub trap_cx_ppn: u64,
    /// The address just past the program as it was loaded.
    pub base_size: u64,
    pub task_cx: TaskContext,
    pub task_status: TaskStatus,
    pub memory_set: MemorySet,
    pub trap_cx: TrapContext,
    /// The parent, by pid; a back-reference that keeps nothing alive.
    pub parent: Option<usize>,
    /// The children, by pid, in the order in which they were taken on.
    pub children: Vec<usize>,
    pub exit_code: i32,
    pub heap_bottom: u64,
    pub program_brk: u64,
    /// The open files, by descriptor.
    pub fd_table: Vec<Option<usize>>,
    pub task_info: TaskInfo,
    /// The time of the first system call, in milliseconds; 0 before it.
    pub start_time: usize,
    /// The time of the latest system call, in milliseconds.
    pub end_time: usize,
}

impl TaskControlBlock {
    /// The invariant of one task, but for its place among the others: its
    /// address space is sound, its heap lies in the address space, and its
    /// kernel stack is the one of its pid.
    pub open spec fn wf(&self, fa: &FrameAllocator) -> bool {
        &&& self.memory_set.wf(fa)
        &&& self.pid < PID_LIMIT
        &&& self.kernel_stack.pid == self.pid
        &&& self.heap_bottom <= self.program_brk <= VA_LIMIT
        &&& self.task_status != TaskStatus::Zombie ==> self.heap_ok()
    }

    /// The heap has its region: the first region that starts at the page
    /// of the heap's bottom is framed and ends at the first page at or after
    /// the heap's boundary.
    pub open spec fn heap_ok(&self) -> bool {
        self.memory_set.heap_area(
            self.heap_bottom as int / 4096,
            (self.program_brk + 4095) / 4096,
        )
    }

    /// What a task is when it was just made from the program `file`: ready,
    /// with no parent and no child yet, the three standard files open, its
    /// heap empty above the stack, and nothing counted.
    pub open spec fn fresh(&self, pid: usize, file: Seq<u8>) -> bool {
        let segs = raw_image(file).segments;
        let sp = (stack_top_vpn(segs) * 4096) as u64;
        &&& self.pid == pid
        &&& self.kernel_stack.pid == pid
        &&& self.base_size == sp
        &&& self.task_cx.ra == crate::task::context::TRAP_RETURN
        &&& self.task_cx.sp == stack_position(pid as int).1
        &&& self.task_status == TaskStatus::Ready
        &&& self.trap_cx.sepc == raw_image(file).entry
        &&& self.trap_cx.kernel_sp == stack_position(pid as int).1
        &&& forall|i: int|
            0 <= i < 32 ==> self.trap_cx.x@[i] == (if i == 2 {
                sp
            } else {
                0
            })
        &&& self.parent is None
        &&& self.children@.len() == 0
        &&& self.exit_code == 0
        &&& self.heap_bottom == sp
        &&& self.program_brk == sp
        &&& self.fd_table@ == seq![Some(0usize), Some(1usize), Some(2usize)]
        &&& self.task_info.time == 0
        &&& forall|i: int| 0 <= i < 500 ==> self.task_info.syscall_times@[i] == 0
        &&& self.start_time == 0
        &&& self.end_time == 0
    }

    /// The frame behind the page of the trap context, 0 when the page is
    /// not mapped.
    pub open spec fn trap_frame(ms: &MemorySet, fa: &FrameAllocator) -> u64 {
        match leaf_entry(fa.memory(), ms.root(), TRAP_CONTEXT_BASE as int / 4096) {
            Some(e) => e.target(),
            None => 0,
        }
    }

    fn find_trap_frame(ms: &MemorySet, fa: &FrameAllocator) -> (p: u64)
        requires
            fa.wf(),
            ms.wf(fa),
        ensures
            p == Self::trap_frame(ms, fa),
    {
        match ms.translate(fa, VirtPageNum(TRAP_CONTEXT_BASE / 4096)) {
            Some(e) => e.ppn(),
            None => 0,
        }
    }

    /// The address space of a program has its heap, empty, right above
    /// the stack.
    proof fn lemma_loaded_heap(
        ms: &MemorySet,
        fa0: &FrameAllocator,
        fa1: &FrameAllocator,
        file: Seq<u8>,
    )
        requires
            fa0.wf(),
            image_ok(file),
            fa0.pool_start() <= USER_BASE / 4096,
            ms.loaded(
                fa1,
                image_layout(raw_image(file).segments, fa0.pool_start()),
                file,
            ) || ms.building(
                fa0,
                fa1,
                image_layout(raw_image(file).segments, fa0.pool_start()),
                file,
                image_layout(raw_image(file).segments, fa0.pool_start()).len() as int,
            ),
        ensures
            ms.heap_area(
                stack_top_vpn(raw_image(file).segments),
                stack_top_vpn(raw_image(file).segments),
            ),
    {
        let segs = raw_image(file).segments;
        let regions = image_layout(segs, fa0.pool_start());
        let h = segs.len() as int + 2;
        let top = stack_top_vpn(segs);
        fa0.lemma_pool_start();
        lemma_layout_heap(segs, file.len() as int, fa0.pool_start());
        crate::mm::image::lemma_stack_top(segs, file.len() as int);
        assert forall|j: int| 0 <= j < h implies (#[trigger] ms.areas()[j]).start != top by {
            assert(regions[j].start < top);
        }
        assert(ms.areas()[h].start == top);
        ms.lemma_is_area_starting_at(top, h);
    }

    /// Makes the task `pid` from the program in `file`.
    ///
    /// Runs out of frames exactly when the pool holds fewer than the
    /// program costs.
    pub fn new(fa: &mut FrameAllocator, pid: usize, file: &Vec<u8>) -> (r: Result<
        TaskControlBlock,
        MapError,
    >)
        requires
            old(fa).wf(),
            image_ok(file@),
            old(fa).pool_start() <= USER_BASE / 4096,
            pid < PID_LIMIT,
        ensures
            final(fa).wf(),
            r is Err <==> old(fa).free_count() < image_cost(
                raw_image(file@).segments,
                old(fa).pool_start(),
            ),
            r matches Ok(tcb) ==> {
                let regions = image_layout(raw_image(file@).segments, old(fa).pool_start());
                &&& tcb.wf(final(fa))
                &&& tcb.fresh(pid, file@)
                &&& tcb.memory_set.building(
                    old(fa),
                    final(fa),
                    regions,
                    file@,
                    regions.len() as int,
                )
                &&& tcb.trap_cx_ppn == Self::trap_frame(&tcb.memory_set, final(fa))
            },
    {
        let (memory_set, user_sp, entry) = match MemorySet::from_elf(fa, file) {
            Err(e) => {
                return Err(MapError::OutOfFrames);
            },
            Ok(t) => t,
        };
        proof {
            Self::lemma_loaded_heap(&memory_set, old(fa), fa, file@);
        }
        let trap_cx_ppn = Self::find_trap_frame(&memory_set, fa);
        let kernel_stack = KernelStack { pid };
        let kstack_top = kernel_stack.get_top();
        let mut fd_table: Vec<Option<usize>> = Vec::new();
        fd_table.push(Some(0));
        fd_table.push(Some(1));
        fd_table.push(Some(2));
        proof {
            assert(fd_table@ =~= seq![Some(0usize), Some(1usize), Some(2usize)]);
            crate::mm::image::lemma_stack_top(raw_image(file@).segments, file@.len() as int);
        }
        Ok(
            TaskControlBlock {
                pid,
                kernel_stack,
                trap_cx_ppn,
                base_size: user_sp,
                task_cx: TaskContext::goto_trap_return(kstack_top),
                task_status: TaskStatus::Ready,
                memory_set,
                trap_cx: TrapContext::app_init_context(
                    entry,
                    user_sp,
                    KERNEL_SATP,
                    kstack_top,
                    TRAP_HANDLER,
                ),
                parent: None,
                children: Vec::new(),
                exit_code: 0,
                heap_bottom: user_sp,
                program_brk: user_sp,
                fd_table,
                task_info: TaskInfo::new(),
                start_time: 0,
                end_time: 0,
            },
        )
    }

    /// What a change of the heap boundary by `size` bytes comes to, from
    /// the task as it is: `Ok(None)` when the new boundary would lie below
    /// the heap's bottom or outside the address space, when no region starts
    /// at the heap's bottom, and, for growth, when that region is not framed
    /// or a page that would join it is mapped already; `Err` when growth
    /// needs more frames than the pool holds; else the old boundary.
    pub open spec fn brk_outcome(&self, fa: &FrameAllocator, size: i32) -> Result<
        Option<u64>,
        MapError,
    > {
        let new_brk = self.program_brk + size;
        let to = (new_brk + 4095) / 4096;
        if new_brk < self.heap_bottom || new_brk > VA_LIMIT {
            Ok(None)
        } else {
            match self.memory_set.area_starting_at(self.heap_bottom as int / 4096) {
                None => Ok(None),
                Some(a) => {
                    let oa = self.memory_set.areas()[a];
                    if size < 0 {
                        Ok(Some(self.program_brk))
                    } else if !oa.framed() {
                        Ok(None)
                    } else if to <= oa.end {
                        Ok(Some(self.program_brk))
                    } else if !self.memory_set.range_free(fa, oa.end, to) {
                        Ok(None)
                    } else if fa.free_count() < range_cost(
                        self.memory_set.nodes(fa),
                        oa.end,
                        to,
                        true,
                    ) {
                        Err(MapError::OutOfFrames)
                    } else {
                        Ok(Some(self.program_brk))
                    }
                },
            }
        }
    }

    /// What [`TaskControlBlock::change_program_brk`] leaves behind when it
    /// succeeds: the boundary has moved by `size`; the heap's region ends at
    /// the first page at or after the boundary, unless it ended later or
    /// earlier already in the direction of the move; pages that left it are
    /// unmapped, pages that joined it are mapped to zeroed frames.
    pub open spec fn brk_moved(
        &self,
        next: &TaskControlBlock,
        fa0: &FrameAllocator,
        fa1: &FrameAllocator,
        size: i32,
    ) -> bool {
        let new_brk = self.program_brk + size;
        let to = (new_brk + 4095) / 4096;
        let a = self.memory_set.area_starting_at(self.heap_bottom as int / 4096)->0;
        let oa = self.memory_set.areas()[a];
        &&& next.program_brk == new_brk
        &&& *next == (TaskControlBlock {
            memory_set: next.memory_set,
            program_brk: next.program_brk,
            ..*self
        })
        &&& next.wf(fa1)
        &&& if size < 0 {
            if to >= oa.end {
                next.memory_set == self.memory_set && *fa1 == *fa0
            } else {
                self.memory_set.shrunk(&next.memory_set, fa0, fa1, a, to)
            }
        } else {
            if to <= oa.end {
                next.memory_set == self.memory_set && *fa1 == *fa0
            } else {
                self.memory_set.mapped_range(
                    self.memory_set.areas().update(a, oa.resized(to)),
                    &next.memory_set,
                    fa0,
                    fa1,
                    a,
                    oa.end,
                    to,
                )
            }
        }
    }

    /// When the heap boundary has moved, the heap's region ends at the
    /// first page at or after the new boundary.
    #[verifier::rlimit(40)]
    proof fn lemma_heap_moved(
        &self,
        next: &TaskControlBlock,
        fa0: &FrameAllocator,
        fa1: &FrameAllocator,
        size: i32,
    )
        requires
            self.heap_ok(),
            self.heap_bottom <= self.program_brk + size <= VA_LIMIT,
            next.heap_bottom == self.heap_bottom,
            next.program_brk == self.program_brk + size,
            ({
                let to = (self.program_brk + size + 4095) / 4096;
                let a = self.memory_set.area_starting_at(self.heap_bottom as int / 4096)->0;
                let oa = self.memory_set.areas()[a];
                if size < 0 {
                    if to >= oa.end {
                        next.memory_set == self.memory_set
                    } else {
                        self.memory_set.shrunk(&next.memory_set, fa0, fa1, a, to)
                    }
                } else {
                    if to <= oa.end {
                        next.memory_set == self.memory_set
                    } else {
                        self.memory_set.mapped_range(
                            self.memory_set.areas().update(a, oa.resized(to)),
                            &next.memory_set,
                            fa0,
                            fa1,
                            a,
                            oa.end,
                            to,
                        )
                    }
                }
            }),
        ensures
            next.heap_ok(),
    {
        let bottom = self.heap_bottom as int / 4096;
        let to = (self.program_brk + size + 4095) / 4096;
        self.memory_set.lemma_area_starting_at(bottom);
        let a = self.memory_set.area_starting_at(bottom)->0;
        let oa = self.memory_set.areas()[a];
        let before = self.memory_set.areas().update(a, oa.resized(to));
        if next.memory_set != self.memory_set {
            assert forall|j: int| 0 <= j < a implies (#[trigger] next.memory_set.areas()[j]).start
                != bottom by {
                assert(self.memory_set.areas()[j].start != bottom);
                if size >= 0 {
                    assert(next.memory_set.areas()[j] == before[j]);
                }
            }
            assert(next.memory_set.areas()[a].start == bottom);
            next.memory_set.lemma_is_area_starting_at(bottom, a);
        }
    }

    /// Moves the heap boundary by `size` bytes and returns the old
    /// boundary; `Ok(None)`, with nothing changed, when that cannot be.
    #[verifier::rlimit(40)]
    pub fn change_program_brk(&mut self, fa: &mut FrameAllocator, size: i32) -> (r: Result<
        Option<u64>,
        MapError,
    >)
        requires
            old(fa).wf(),
            old(self).wf(old(fa)),
        ensures
            final(fa).wf(),
            r == old(self).brk_outcome(old(fa), size),
            r == Ok::<Option<u64>, MapError>(None) ==> *final(self) == *old(self) && *final(fa)
                == *old(fa),
            r matches Ok(Some(b)) ==> old(self).brk_moved(final(self), old(fa), final(fa), size),
    {
        let old_brk = self.program_brk;
        let new_brk: i64 = self.program_brk as i64 + size as i64;
        if new_brk < self.heap_bottom as i64 || new_brk > VA_LIMIT as i64 {
            return Ok(None);
        }
        let new_brk = new_brk as u64;
        let done = if size < 0 {
            self.memory_set.shrink_to(fa, VirtAddr(self.heap_bottom), VirtAddr(new_brk))
        } else {
            match self.memory_set.append_to(fa, VirtAddr(self.heap_bottom), VirtAddr(new_brk)) {
                Err(e) => {
                    return Err(MapError::OutOfFrames);
                },
                Ok(done) => done,
            }
        };
        if done {
            self.program_brk = new_brk;
            proof {
                if self.task_status != TaskStatus::Zombie {
                    old(self).lemma_heap_moved(self, old(fa), fa, size);
                }
            }
            Ok(Some(old_brk))
        } else {
            Ok(None)
        }
    }

    /// What a task is when it was just forked from `self` under the pid
    /// `pid`: ready, with `self` for its parent and no child yet; with the
    /// parent's registers, but for the kernel stack, which is its own; with
    /// the parent's heap bounds and open files; and with nothing counted.
    pub open spec fn child_of(&self, child: &TaskControlBlock, pid: usize) -> bool {
        &&& child.pid == pid
        &&& child.kernel_stack.pid == pid
        &&& child.base_size == self.base_size
        &&& child.task_cx.ra == crate::task::context::TRAP_RETURN
        &&& child.task_cx.sp == stack_position(pid as int).1
        &&& child.task_status == TaskStatus::Ready
        &&& child.trap_cx == (TrapContext {
            kernel_sp: stack_position(pid as int).1 as u64,
            ..self.trap_cx
        })
        &&& child.parent == Some(self.pid)
        &&& child.children@.len() == 0
        &&& child.exit_code == 0
        &&& child.heap_bottom == self.heap_bottom
        &&& child.program_brk == self.program_brk
        &&& child.fd_table@ == self.fd_table@
        &&& child.task_info.time == 0
        &&& forall|i: int| 0 <= i < 500 ==> child.task_info.syscall_times@[i] == 0
        &&& child.start_time == 0
        &&& child.end_time == 0
    }

    /// Makes a copy of the task under the pid `pid`: a child with an
    /// address space of its own that holds what the parent's holds.
    ///
    /// Runs out of frames exactly when the pool holds fewer than the copy
    /// of the address space costs.
    #[verifier::rlimit(40)]
    pub fn fork(&self, fa: &mut FrameAllocator, pid: usize) -> (r: Result<TaskControlBlock, MapError>)
        requires
            old(fa).wf(),
            self.wf(old(fa)),
            self.task_status != TaskStatus::Zombie,
            pid < PID_LIMIT,
        ensures
            final(fa).wf(),
            r is Err <==> old(fa).free_count() < duplicate_cost(self.memory_set.areas()),
            r matches Ok(child) ==> {
                &&& child.wf(final(fa))
                &&& self.child_of(&child, pid)
                &&& self.memory_set.mirrored(
                    &child.memory_set,
                    old(fa),
                    final(fa),
                    self.memory_set.areas().len() as int,
                )
                &&& child.trap_cx_ppn == Self::trap_frame(&child.memory_set, final(fa))
            },
    {
        let memory_set = match MemorySet::from_existed_user(fa, &self.memory_set) {
            Err(e) => {
                return Err(MapError::OutOfFrames);
            },
            Ok(ms) => ms,
        };
        proof {
            assert forall|b: int| 0 <= b < self.memory_set.areas().len() implies (
            #[trigger] memory_set.areas()[b]).start == self.memory_set.areas()[b].start
                && memory_set.areas()[b].end == self.memory_set.areas()[b].end
                && memory_set.areas()[b].map_type == self.memory_set.areas()[b].map_type by {
                assert(self.memory_set.area_mirrored(
                    &memory_set,
                    old(fa),
                    fa,
                    b,
                    crate::config::VPN_LIMIT as int,
                ));
            }
            self.memory_set.lemma_heap_area_kept(
                &memory_set,
                self.heap_bottom as int / 4096,
                (self.program_brk + 4095) / 4096,
            );
        }
        let trap_cx_ppn = Self::find_trap_frame(&memory_set, fa);
        let kernel_stack = KernelStack { pid };
        let kstack_top = kernel_stack.get_top();
        let mut fd_table: Vec<Option<usize>> = Vec::new();
        let n = self.fd_table.len();
        let mut i: usize = 0;
        while i < n
            invariant
                i <= n,
                n == self.fd_table@.len(),
                fd_table@ == self.fd_table@.take(i as int),
            decreases n - i,
        {
            fd_table.push(self.fd_table[i]);
            proof {
                assert(fd_table@ =~= self.fd_table@.take(i as int + 1));
            }
            i += 1;
        }
        proof {
            assert(self.fd_table@.take(n as int) =~= self.fd_table@);
        }
        let mut trap_cx = self.trap_cx;
        trap_cx.kernel_sp = kstack_top;
        Ok(
            TaskControlBlock {
                pid,
                kernel_stack,
                trap_cx_ppn,
                base_size: self.base_size,
                task_cx: TaskContext::goto_trap_return(kstack_top),
                task_status: TaskStatus::Ready,
                memory_set,
                trap_cx,
                parent: Some(self.pid),
                children: Vec::new(),
                exit_code: 0,
                heap_bottom: self.heap_bottom,
                program_brk: self.program_brk,
                fd_table,
                task_info: TaskInfo::new(),
                start_time: 0,
                end_time: 0,
            },
        )
    }

    /// What [`TaskControlBlock::exec`] leaves behind: the task as it was,
    /// but with the address space of the program in `file`, made of frames
    /// that were free; with the registers of a program that starts; and with
    /// an empty heap above the new stack. The frames of the old page table
    /// are back in the pool.
    pub open spec fn exec_into(
        &self,
        next: &TaskControlBlock,
        fa0: &FrameAllocator,
        fa1: &FrameAllocator,
        file: Seq<u8>,
    ) -> bool {
        let segs = raw_image(file).segments;
        let regions = image_layout(segs, fa0.pool_start());
        let sp = (stack_top_vpn(segs) * 4096) as u64;
        &&& next.wf(fa1)
        &&& *next == (TaskControlBlock {
            memory_set: next.memory_set,
            trap_cx_ppn: next.trap_cx_ppn,
            base_size: next.base_size,
            trap_cx: next.trap_cx,
            heap_bottom: next.heap_bottom,
            program_brk: next.program_brk,
            ..*self
        })
        &&& next.memory_set.loaded(fa1, regions, file)
        &&& next.trap_cx_ppn == Self::trap_frame(&next.memory_set, fa1)
        &&& next.base_size == sp
        &&& next.heap_bottom == sp
        &&& next.program_brk == sp
        &&& next.trap_cx.sepc == raw_image(file).entry
        &&& next.trap_cx.kernel_sp == stack_position(self.pid as int).1
        &&& forall|i: int|
            0 <= i < 32 ==> next.trap_cx.x@[i] == (if i == 2 {
                sp
            } else {
                0
            })
        &&& forall|q: int| #[trigger] next.memory_set.frames().contains(q) ==> !fa0.is_allocated(q)
        &&& fa0.unchanged_outside(
            fa1,
            self.memory_set.frames().union(next.memory_set.frames()).union(
                MemorySet::kernel_frames(fa0),
            ),
        )
        &&& forall|q: int|
            self.memory_set.table_frames().contains(q) ==> !#[trigger] fa1.is_allocated(q)
        &&& forall|a: int, v: int|
            0 <= a < self.memory_set.areas().len() && self.memory_set.areas()[a].framed() ==> ((
            #[trigger] self.memory_set.areas()[a].frame_at(v)) matches Some(p) ==> !fa1.is_allocated(
                p as int,
            ))
    }

    /// Replaces the program of the task by the program in `file`: a new
    /// address space, new registers, an empty heap; the pid, the family, the
    /// open files and what was counted stay. The old address space is given
    /// up.
    ///
    /// Runs out of frames exactly when the pool, with the old address
    /// space still in place, holds fewer than the program costs.
    #[verifier::rlimit(40)]
    pub fn exec(&mut self, fa: &mut FrameAllocator, file: &Vec<u8>) -> (r: Result<(), MapError>)
        requires
            old(fa).wf(),
            old(self).wf(old(fa)),
            image_ok(file@),
            old(fa).pool_start() <= USER_BASE / 4096,
        ensures
            final(fa).wf(),
            r is Err <==> old(fa).free_count() < image_cost(
                raw_image(file@).segments,
                old(fa).pool_start(),
            ),
            r is Ok ==> old(self).exec_into(final(self), old(fa), final(fa), file@),
    {
        let ghost fa0 = *fa;
        let ghost regions = image_layout(raw_image(file@).segments, fa0.pool_start());
        let (mut memory_set, user_sp, entry) = match MemorySet::from_elf(fa, file) {
            Err(e) => {
                return Err(MapError::OutOfFrames);
            },
            Ok(t) => t,
        };
        let ghost fam = *fa;
        let ghost new_ms = memory_set;
        let ghost old_ms = self.memory_set;
        proof {
            let kf = MemorySet::kernel_frames(&fa0);
            let built = new_ms.frames().union(kf);
            assert(old_ms.frames().disjoint(built)) by {
                assert forall|q: int| old_ms.frames().contains(q) implies !built.contains(q) by {
                    old_ms.lemma_frame_allocated(&fa0, q);
                    fa0.lemma_allocated_in_range(q);
                }
            }
            old_ms.lemma_unchanged_outside(&fa0, &fam, built);
        }
        core::mem::swap(&mut memory_set, &mut self.memory_set);
        memory_set.release(fa);
        proof {
            assert(new_ms.frames().disjoint(old_ms.frames())) by {
                assert forall|q: int| new_ms.frames().contains(q) implies !old_ms.frames().contains(
                    q,
                ) by {
                    if old_ms.frames().contains(q) {
                        old_ms.lemma_frame_allocated(&fa0, q);
                    }
                }
            }
            assert forall|q: int| #[trigger] old_ms.frames().contains(q) implies fam.pool_start()
                <= q by {
                old_ms.lemma_frame_allocated(&fa0, q);
                fa0.lemma_allocated_in_range(q);
            }
            new_ms.lemma_loaded_kept(&fa0, &fam, fa, regions, file@, old_ms.frames());
            let all = old_ms.frames().union(new_ms.frames()).union(MemorySet::kernel_frames(&fa0));
            fa0.lemma_unchanged_wider(
                &fam,
                new_ms.frames().union(MemorySet::kernel_frames(&fa0)),
                all,
            );
            fam.lemma_unchanged_wider(fa, old_ms.frames(), all);
            fa0.lemma_unchanged_trans(&fam, fa, all, all);
            crate::mm::image::lemma_stack_top(raw_image(file@).segments, file@.len() as int);
            Self::lemma_loaded_heap(&new_ms, &fa0, fa, file@);
        }
        self.trap_cx_ppn = Self::find_trap_frame(&self.memory_set, fa);
        self.base_size = user_sp;
        let kstack_top = self.kernel_stack.get_top();
        self.trap_cx = TrapContext::app_init_context(
            entry,
            user_sp,
            KERNEL_SATP,
            kstack_top,
            TRAP_HANDLER,
        );
        self.heap_bottom = user_sp;
        self.program_brk = user_sp;
        Ok(())
    }
}

} // verus!
