//! Layout of the virtual address space and sizes of the paging scheme.
use vstd::prelude::*;

verus! {

/// First address of user space (256 GiB).
pub const USER_SPACE_START: u64 = 0x0;

/// One past the last address of user space.
pub const USER_SPACE_END: u64 = 0x4000000000;

/// First address of the window that holds the page descriptor array (4 GiB).
pub const VMEMMAP_START: u64 = 0xffffffc700000000;

/// One past the last address of the descriptor window.
pub const VMEMMAP_END: u64 = 0xffffffc800000000;

/// First address of the direct map of physical memory (124 GiB).
pub const DIRECT_MAP_START: u64 = 0xffffffd800000000;

/// One past the last address of the direct map.
pub const DIRECT_MAP_END: u64 = 0xfffffff700000000;

/// Offset between a physical address and its address in the direct map.
pub const PHY_MEM_OFF: u64 = 0xffffffd800000000;

/// Bytes in a page.
pub const PAGE_SIZE: usize = 4096;

/// Bits of an address that select a byte inside a page.
pub const PAGE_OFFSET: usize = 12;

/// Number of harts.
pub const CPUS: usize = 2;

/// Number of orders the frame allocator keeps: runs have `1 << order` pages
/// for `order < MAX_ORDER`.
pub const MAX_ORDER: usize = 11;

/// Pages in the largest run.
pub const MAX_ORDER_NR_PAGES: usize = 1024;

} // verus!
