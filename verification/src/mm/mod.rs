//! Memory management: physical frames, page tables and address spaces.
use vstd::prelude::*;

pub mod phys_mem;
pub mod frame_allocator;
pub mod page_table;
pub mod address;
pub mod memory_set;
pub mod image;
pub mod loader;
pub mod duplicate;

verus! {

} // verus!
