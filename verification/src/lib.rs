//! Core of a small cooperative operating-system kernel: physical frames,
//! page tables, address spaces, processes, the ready queue and the
//! process-control system calls, all over an explicit kernel state.
use vstd::prelude::*;

pub mod config;
pub mod kernel;
pub mod laws;
pub mod loader;
pub mod mm;
pub mod syscall;
pub mod task;

verus! {

} // verus!
