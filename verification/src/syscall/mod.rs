//! The system calls.
use vstd::prelude::*;

pub mod process;

verus! {

} // verus!
