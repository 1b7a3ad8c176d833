//! The processor: which task runs, and the scheduler's own context.
use vstd::prelude::*;
use crate::task::context::TaskContext;

verus! {

/// The state of the one processor.
pub struct Processor {
    /// The task that runs, if one does.
    pub current: Option<usize>,
    /// The context of the scheduling loop, to which a task switches when it
    /// gives way.
    pub idle_task_cx: TaskContext,
}

impl Processor {
    /// A processor that runs no task, with every register of the
    /// scheduling loop's context zero.
    pub fn new() -> (p: Processor)
        ensures
            p.current is None,
            p.idle_task_cx.ra == 0,
            p.idle_task_cx.sp == 0,
            forall|i: int| 0 <= i < 12 ==> p.idle_task_cx.s@[i] == 0,
    {
        Processor { current: None, idle_task_cx: TaskContext::zero_init() }
    }

    /// Takes the running task off the processor.
    pub fn take_current(&mut self) -> (r: Option<usize>)
        ensures
            r == old(self).current,
            final(self).current is None,
            final(self).idle_task_cx == old(self).idle_task_cx,
    {
        self.current.take()
    }

    /// The task that runs.
    pub fn current(&self) -> (r: Option<usize>)
        ensures
            r == self.current,
    {
        self.current
    }
}

} // verus!
