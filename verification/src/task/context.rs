//! Saved register state: what the scheduler keeps of a task's kernel
//! execution, and what a trap keeps of its user execution.
use vstd::prelude::*;

verus! {

/// Address of the code that returns from a trap to user mode; a task
/// that never ran resumes there.
pub const TRAP_RETURN: u64 = 0x7f_ffff_f000;

/// Status bit that selects user mode as the mode to return to.
pub const SSTATUS_USER: u64 = 0;

/// The kernel-mode registers that the context switch saves and restores.
#[derive(Clone, Copy, Debug)]
pub struct TaskContext {
    pub ra: u64,
    pub sp: u64,
    pub s: [u64; 12],
}

impl TaskContext {
    /// The context with every register zero.
    pub fn zero_init() -> (cx: TaskContext)
        ensures
            cx.ra == 0,
            cx.sp == 0,
            forall|i: int| 0 <= i < 12 ==> cx.s@[i] == 0,
    {
        TaskContext { ra: 0, sp: 0, s: [0;12] }
    }

    /// The context of a task that has not run yet: it resumes in the
    /// return from a trap, on the kernel stack that ends at `kstack_top`.
    pub fn goto_trap_return(kstack_top: u64) -> (cx: TaskContext)
        ensures
            cx.ra == TRAP_RETURN,
            cx.sp == kstack_top,
            forall|i: int| 0 <= i < 12 ==> cx.s@[i] == 0,
    {
        TaskContext { ra: TRAP_RETURN, sp: kstack_top, s: [0;12] }
    }
}

/// The user-mode registers that a trap saves, with what the trap entry
/// needs to get into the kernel.
#[derive(Clone, Copy, Debug)]
pub struct TrapContext {
    /// The general registers; `x[2]` is the stack pointer, `x[10]` holds a
    /// system call's first argument and its result.
    pub x: [u64; 32],
    pub sstatus: u64,
    /// The address at which user execution resumes.
    pub sepc: u64,
    pub kernel_satp: u64,
    pub kernel_sp: u64,
    pub trap_handler: u64,
}

impl TrapContext {
    /// The registers of a program that starts at `entry` with the stack
    /// pointer `sp`.
    pub fn app_init_context(
        entry: u64,
        sp: u64,
        kernel_satp: u64,
        kernel_sp: u64,
        trap_handler: u64,
    ) -> (cx: TrapContext)
        ensures
            cx.sepc == entry,
            cx.sstatus == SSTATUS_USER,
            cx.kernel_satp == kernel_satp,
            cx.kernel_sp == kernel_sp,
            cx.trap_handler == trap_handler,
            forall|i: int| 0 <= i < 32 ==> cx.x@[i] == (if i == 2 { sp } else { 0 }),
    {
        let mut cx = TrapContext {
            x: [0;32],
            sstatus: SSTATUS_USER,
            sepc: entry,
            kernel_satp,
            kernel_sp,
            trap_handler,
        };
        cx.x[2] = sp;
        cx
    }
}

} // verus!
