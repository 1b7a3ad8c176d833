//! Constants of the machine model and of the kernel's layout.
use vstd::prelude::*;

verus! {

/// Number of address bits inside one page.
pub const PAGE_SIZE_BITS: u64 = 12;

/// Bytes in one page (and in one physical frame).
pub const PAGE_SIZE: u64 = 4096;

/// Entries in one page-table node.
pub const ENTRIES_PER_TABLE: u64 = 512;

/// Number of virtual page numbers: three levels of nine bits each.
pub const VPN_LIMIT: u64 = 0x800_0000;

/// First byte address past the virtual address space.
pub const VA_LIMIT: u64 = 0x80_0000_0000;

/// Largest physical page number a page-table entry can hold, plus one.
pub const PPN_LIMIT: u64 = 0x1000_0000_0000;

/// Virtual address of the highest page, reserved for the trap entry code.
pub const TRAMPOLINE: u64 = 0x7f_ffff_f000;

/// Virtual address of the page that holds a task's trap context.
pub const TRAP_CONTEXT_BASE: u64 = 0x7f_ffff_e000;

/// Lowest address at which a program image may place a segment.
pub const USER_BASE: u64 = 0x1_0000;

/// Bytes of user stack given to every program.
pub const USER_STACK_SIZE: u64 = 8192;

/// Bytes of kernel stack given to every task.
pub const KERNEL_STACK_SIZE: u64 = 8192;

/// Number of per-task system-call counters.
pub const MAX_SYSCALL_NUM: usize = 500;

/// Number of process ids; a pid is below it.
pub const PID_LIMIT: usize = 0x100_0000;

/// Pid of the init process, which may never exit.
pub const IDLE_PID: usize = 0;

} // verus!
