//! Memory-management core of a small RISC-V (Sv39) supervisor-mode kernel:
//! address types, a buddy allocator for page frames, the per-frame descriptor
//! table, the three-level page table, virtual memory areas and the address
//! space that holds them.
use vstd::prelude::*;

pub mod consts;
pub mod mm;
pub mod trap;
pub mod utils;

