//! The Sv39 page table: three levels of 512-entry tables.
//!
//! The root table and every intermediate table stands in a frame of its own,
//! taken from the allocator.  An intermediate table exists only while it
//! holds an entry: it is made when the first mapping needs it and its frame
//! goes back to the allocator when its last entry is cleared.
use vstd::prelude::*;
use vstd::arithmetic::div_mod::{lemma_fundamental_div_mod, lemma_fundamental_div_mod_converse};
use crate::mm::addr::{Addr, PFN};
use crate::consts::MAX_ORDER;
use crate::mm::buddy::{lemma_run_pages_pos, lemma_run_pages_mono, lemma_run_pages_values, lemma_shift_run_pages, run_pages};
use crate::mm::{
    alloc_head, alloc_ok, alloc_one_page, alloc_view, kept, lemma_alloc_keeps,
    lemma_alloc_release_view, lemma_alloc_view_wf, mem_wf, release_view, view_releasable, MemView,
    MmError, PhysMemory, _insert_area_for_page_drop,
};
use crate::utils::{addr_get_ppn0, addr_get_ppn1, addr_get_ppn2};

verus! {

/// Entries in a table.
pub const TABLE_SLOTS: usize = 512;

/// Valid bit of an entry.
pub const PTE_V: u8 = 1;

/// Read permission.
pub const PTE_R: u8 = 2;

/// Write permission.
pub const PTE_W: u8 = 4;

/// Execute permission.
pub const PTE_X: u8 = 8;

/// The page is open to user mode.
pub const PTE_U: u8 = 16;

/// Global mapping.
pub const PTE_G: u8 = 32;

/// Accessed.
pub const PTE_A: u8 = 64;

/// Dirty.
pub const PTE_D: u8 = 128;

/// A leaf entry: the frame that a page maps to, and the entry's flag bits.
#[derive(Copy, Clone, Debug, PartialEq, Eq, Structural)]
pub struct Pte {
    /// The frame number.
    pub pfn: usize,
    /// The flag bits, `PTE_V` among them.
    pub flags: u8,
}

/// The entry that the hardware reads for a leaf to frame `pfn` with the
/// flag bits `flags`: the frame number from bit 10 on, the flags in the low
/// eight bits.
pub open spec fn leaf_bits(pfn: u64, flags: u8) -> u64 {
    (pfn << 10) | (flags as u64)
}

/// An entry of the hardware's format gives back the frame number, where it
/// has at most 44 bits, and the flags that it was made of.
pub proof fn lemma_leaf_bits(pfn: u64, flags: u8)
    by (bit_vector)
    requires
        pfn < 0x100000000000,
    ensures
        (leaf_bits(pfn, flags) >> 10) & 0xfffffffffff == pfn,
        (leaf_bits(pfn, flags) & 0xff) as u8 == flags,
        leaf_bits(pfn, flags) >> 54 == 0,
{
}

impl Pte {
    /// The leaf as the hardware reads it.
    pub fn encode(&self) -> (r: u64)
        requires
            self.pfn < 0x100000000000,
        ensures
            r == leaf_bits(self.pfn as u64, self.flags),
    {
        ((self.pfn as u64) << 10) | (self.flags as u64)
    }

    /// The frame number and the flags of an entry of the hardware's format.
    pub fn decode(bits: u64) -> (r: (u64, u8))
        ensures
            r.0 == (bits >> 10) & 0xfffffffffff,
            r.1 == (bits & 0xff) as u8,
    {
        ((bits >> 10) & 0xfffffffffff, (bits & 0xff) as u8)
    }
}

/// The number of the virtual page that `vaddr` lies in: bits 12 to 38 of
/// the address.
pub open spec fn vpn_of(vaddr: int) -> int {
    (vaddr / 4096) % 0x8000000
}

/// The flags name at least one of read, write and execute.
pub open spec fn flags_permit(flags: u8) -> bool {
    flags & 14 != 0
}

/// The flags have the valid bit.
pub open spec fn flags_valid(flags: u8) -> bool {
    flags & 1 == 1
}

/// The page table as contracts see it.
pub struct PtView {
    /// Frame of the root table.
    pub root: int,
    /// First frame number of the memory that leaves may point into.
    pub ram_start: int,
    /// One past the last such frame number.
    pub ram_end: int,
    /// The leaf entries, by virtual page number.
    pub leaves: Map<int, Pte>,
    /// The frame of each level-1 table, by its index in the root table.
    pub mids: Map<int, int>,
    /// The frame of each level-0 table, by virtual page number divided by 512.
    pub lows: Map<int, int>,
}

/// A leaf that may stand in the table: valid, with a permission, to a frame
/// of managed memory other than frame 0.
pub open spec fn pte_ok(v: PtView, p: Pte) -> bool {
    &&& flags_valid(p.flags)
    &&& flags_permit(p.flags)
    &&& p.pfn != 0
    &&& v.ram_start <= p.pfn < v.ram_end
}

/// Some leaf stands in the level-0 table `t`.
pub open spec fn low_used(leaves: Map<int, Pte>, t: int) -> bool {
    exists|vpn: int| #[trigger] leaves.dom().contains(vpn) && vpn / 512 == t
}

/// Some level-0 table stands in the level-1 table `a`.
pub open spec fn mid_used(lows: Map<int, int>, a: int) -> bool {
    exists|t: int| #[trigger] lows.dom().contains(t) && t / 512 == a
}

/// What holds of a page table between calls: every leaf is one that may
/// stand in the table, and a table exists exactly while it holds an entry.
pub open spec fn pt_wf(v: PtView) -> bool {
    &&& forall|vpn: int| #[trigger]
        v.leaves.dom().contains(vpn) ==> 0 <= vpn < 0x8000000 && pte_ok(v, v.leaves[vpn])
    &&& forall|t: int| #[trigger] v.lows.dom().contains(t) <==> low_used(v.leaves, t)
    &&& forall|a: int| #[trigger] v.mids.dom().contains(a) <==> mid_used(v.lows, a)
}

/// The three table indices of an address are the digits of its virtual page
/// number to the base 512.
pub proof fn lemma_indices(v: usize)
    by (bit_vector)
    ensures
        ((v / 4096) % 0x8000000) / 0x40000 == (v / 0x40000000) % 512,
        (((v / 4096) % 0x8000000) / 512) % 512 == (v / 0x200000) % 512,
        ((v / 4096) % 0x8000000) % 512 == (v / 4096) % 512,
        ((v / 4096) % 0x8000000) / 512 < 0x40000,
{
}

/// The memory after the level-1 table for page `vpn` was made, where it was
/// missing.
pub open spec fn mem_after_mid(pt: PtView, mem: MemView, vpn: int) -> MemView {
    if pt.mids.dom().contains(vpn / 0x40000) {
        mem
    } else {
        alloc_view(mem, 0)
    }
}

/// The memory after the tables for page `vpn` were made, where they were
/// missing: first the level-1 table, then the level-0 table.
pub open spec fn map_one_mem(pt: PtView, mem: MemView, vpn: int) -> MemView {
    let m1 = mem_after_mid(pt, mem, vpn);
    if pt.lows.dom().contains(vpn / 512) {
        m1
    } else {
        alloc_view(m1, 0)
    }
}

/// The page table after page `vpn` was mapped by `pte`, the tables that were
/// missing standing in the frames that the allocator handed out.
pub open spec fn map_one_pt(pt: PtView, mem: MemView, vpn: int, pte: Pte) -> PtView {
    PtView {
        leaves: pt.leaves.insert(vpn, pte),
        mids: if pt.mids.dom().contains(vpn / 0x40000) {
            pt.mids
        } else {
            pt.mids.insert(vpn / 0x40000, alloc_head(mem, 0))
        },
        lows: if pt.lows.dom().contains(vpn / 512) {
            pt.lows
        } else {
            pt.lows.insert(vpn / 512, alloc_head(mem_after_mid(pt, mem, vpn), 0))
        },
        ..pt
    }
}

/// Why the page of `vaddr` cannot be mapped to the frame of `paddr` with
/// `flags`, if it cannot: the first that holds of a misaligned address, flags
/// without a permission, a frame that is frame 0 or outside the managed
/// memory, a page that is mapped already, and no frame for a table that is
/// missing.
pub open spec fn map_one_err(pt: PtView, mem: MemView, vaddr: int, paddr: int, flags: u8) -> Option<
    MmError,
> {
    let vpn = vpn_of(vaddr);
    if vaddr % 4096 != 0 || paddr % 4096 != 0 {
        Some(MmError::Misaligned)
    } else if !flags_permit(flags) {
        Some(MmError::InvalidFlags)
    } else if paddr / 4096 == 0 || !(pt.ram_start <= paddr / 4096 < pt.ram_end) {
        Some(MmError::OutOfRange)
    } else if pt.leaves.dom().contains(vpn) {
        Some(MmError::AlreadyMapped)
    } else if (!pt.mids.dom().contains(vpn / 0x40000) && !alloc_ok(mem, 0)) || (
    !pt.lows.dom().contains(vpn / 512) && !alloc_ok(mem_after_mid(pt, mem, vpn), 0)) {
        Some(MmError::OutOfMemory)
    } else {
        None
    }
}

/// The memory after the run of order `k` at `h` went back to the allocator,
/// where it can be released; else the memory as it is.
pub open spec fn release_if(v: MemView, h: int, k: int) -> MemView {
    if view_releasable(v, h, k) {
        release_view(v, h, k)
    } else {
        v
    }
}

/// The page table after page `vpn` was unmapped: the leaf is gone, and with
/// it each table on the way that held nothing else.
pub open spec fn unmap_one_pt(pt: PtView, vpn: int) -> PtView {
    let leaves = pt.leaves.remove(vpn);
    let lows = if low_used(leaves, vpn / 512) {
        pt.lows
    } else {
        pt.lows.remove(vpn / 512)
    };
    let mids = if mid_used(lows, vpn / 0x40000) {
        pt.mids
    } else {
        pt.mids.remove(vpn / 0x40000)
    };
    PtView { leaves, lows, mids, ..pt }
}

/// The memory after page `vpn` was unmapped: the frame of each table that
/// went has gone back to the allocator, the level-0 table first.
pub open spec fn unmap_one_mem(pt: PtView, mem: MemView, vpn: int) -> MemView {
    let after = unmap_one_pt(pt, vpn);
    let m1 = if after.lows.dom().contains(vpn / 512) {
        mem
    } else {
        release_if(mem, pt.lows[vpn / 512], 0)
    };
    if after.mids.dom().contains(vpn / 0x40000) {
        m1
    } else {
        release_if(m1, pt.mids[vpn / 0x40000], 0)
    }
}

/// A page table together with the memory that its tables stand in.
pub struct PtMem {
    /// The page table.
    pub pt: PtView,
    /// The memory.
    pub mem: MemView,
}

/// Both parts are well formed.
pub open spec fn state_wf(s: PtMem) -> bool {
    pt_wf(s.pt) && mem_wf(s.mem)
}

/// The state after page `vpn` was mapped by `pte`.
pub open spec fn map_one_state(s: PtMem, vpn: int, pte: Pte) -> PtMem {
    PtMem { pt: map_one_pt(s.pt, s.mem, vpn, pte), mem: map_one_mem(s.pt, s.mem, vpn) }
}

/// The state after page `vpn` was unmapped.
pub open spec fn unmap_one_state(s: PtMem, vpn: int) -> PtMem {
    PtMem { pt: unmap_one_pt(s.pt, vpn), mem: unmap_one_mem(s.pt, s.mem, vpn) }
}

/// The memory has a frame for each table that a mapping of page `vpn`
/// lacks.
pub open spec fn map_one_fits(s: PtMem, vpn: int) -> bool {
    &&& s.pt.mids.dom().contains(vpn / 0x40000) || alloc_ok(s.mem, 0)
    &&& s.pt.lows.dom().contains(vpn / 512) || alloc_ok(mem_after_mid(s.pt, s.mem, vpn), 0)
}

/// The virtual page number of the page `i` pages after page `base`.
#[verifier::opaque]
pub open spec fn page_vpn(base: int, i: int) -> int {
    (base + i) % 0x8000000
}

/// Page numbers lie below `2^27`, and pages of one range that is not longer
/// than the address space differ.
pub proof fn lemma_page_vpn(base: int, i: int, j: int)
    requires
        0 <= base,
        0 <= i,
        0 <= j < 0x8000000,
    ensures
        0 <= page_vpn(base, i) < 0x8000000,
        i < j ==> page_vpn(base, i) != page_vpn(base, j),
{
    reveal(page_vpn);
}

/// The leaf for the page `i` pages into a range that maps to frame `pfn0`
/// on.
pub open spec fn page_pte(pfn0: int, flags: u8, i: int) -> Pte {
    Pte { pfn: (pfn0 + i) as usize, flags: flags | 1 }
}

/// The state after the first `n` pages from page `base` were mapped, one by
/// one from the lowest, to the frames from `pfn0` on.
pub open spec fn map_pages(s: PtMem, base: int, pfn0: int, flags: u8, n: nat) -> PtMem
    decreases n,
{
    if n == 0 {
        s
    } else {
        map_one_state(
            map_pages(s, base, pfn0, flags, (n - 1) as nat),
            page_vpn(base, n - 1),
            page_pte(pfn0, flags, n - 1),
        )
    }
}

/// The memory has a frame for each table that the mapping of the first `n`
/// pages lacks, at the step where it lacks it.
pub open spec fn map_pages_fit(s: PtMem, base: int, pfn0: int, flags: u8, n: nat) -> bool
    decreases n,
{
    n == 0 || (map_pages_fit(s, base, pfn0, flags, (n - 1) as nat) && map_one_fits(
        map_pages(s, base, pfn0, flags, (n - 1) as nat),
        page_vpn(base, n - 1),
    ))
}

/// The state after the first `n` pages from page `base` were unmapped, one
/// by one from the highest.
pub open spec fn unmap_pages(s: PtMem, base: int, n: nat) -> PtMem
    decreases n,
{
    if n == 0 {
        s
    } else {
        unmap_pages(unmap_one_state(s, page_vpn(base, n - 1)), base, (n - 1) as nat)
    }
}

/// Mapping a page that is not mapped keeps the state well formed.
pub proof fn lemma_map_one_wf(s: PtMem, vpn: int, pte: Pte)
    requires
        state_wf(s),
        0 <= vpn < 0x8000000,
        !s.pt.leaves.dom().contains(vpn),
        map_one_fits(s, vpn),
        pte_ok(s.pt, pte),
    ensures
        state_wf(map_one_state(s, vpn, pte)),
        map_one_state(s, vpn, pte).pt.root == s.pt.root,
        map_one_state(s, vpn, pte).pt.ram_start == s.pt.ram_start,
        map_one_state(s, vpn, pte).pt.ram_end == s.pt.ram_end,
        map_one_state(s, vpn, pte).mem.start == s.mem.start,
        map_one_state(s, vpn, pte).mem.end == s.mem.end,
{
    let a = vpn / 0x40000;
    let t = vpn / 512;
    assert(t / 512 == a);
    let r = map_one_state(s, vpn, pte);
    let m1 = mem_after_mid(s.pt, s.mem, vpn);
    if !s.pt.mids.dom().contains(a) {
        lemma_alloc_view_wf(s.mem, 0);
    }
    if !s.pt.lows.dom().contains(t) {
        lemma_alloc_view_wf(m1, 0);
    }
    assert(r.pt.leaves.dom().contains(vpn));
    assert forall|t2: int| #[trigger] r.pt.lows.dom().contains(t2) <==> low_used(
        r.pt.leaves,
        t2,
    ) by {
        if r.pt.lows.dom().contains(t2) {
            if t2 != t || s.pt.lows.dom().contains(t) {
                assert(low_used(s.pt.leaves, t2));
                let w = choose|w: int| #[trigger] s.pt.leaves.dom().contains(w) && w / 512 == t2;
                assert(r.pt.leaves.dom().contains(w));
            }
        }
        if low_used(r.pt.leaves, t2) {
            let w = choose|w: int| #[trigger] r.pt.leaves.dom().contains(w) && w / 512 == t2;
            if w != vpn {
                assert(s.pt.leaves.dom().contains(w));
                assert(low_used(s.pt.leaves, t2));
            }
        }
    }
    assert(r.pt.lows.dom().contains(t));
    assert forall|a2: int| #[trigger] r.pt.mids.dom().contains(a2) <==> mid_used(r.pt.lows, a2) by {
        if r.pt.mids.dom().contains(a2) {
            if a2 != a || s.pt.mids.dom().contains(a) {
                assert(mid_used(s.pt.lows, a2));
                let w = choose|w: int| #[trigger] s.pt.lows.dom().contains(w) && w / 512 == a2;
                assert(r.pt.lows.dom().contains(w));
            }
        }
        if mid_used(r.pt.lows, a2) {
            let w = choose|w: int| #[trigger] r.pt.lows.dom().contains(w) && w / 512 == a2;
            if w != t {
                assert(s.pt.lows.dom().contains(w));
                assert(mid_used(s.pt.lows, a2));
            }
        }
    }
    assert forall|v2: int| #[trigger] r.pt.leaves.dom().contains(v2) implies 0 <= v2 < 0x8000000
        && pte_ok(r.pt, r.pt.leaves[v2]) by {
        if v2 != vpn {
            assert(s.pt.leaves.dom().contains(v2));
        }
    }
}

/// Unmapping a page that is mapped keeps the page table well formed.
pub proof fn lemma_unmap_one_wf(pt: PtView, vpn: int)
    requires
        pt_wf(pt),
        pt.leaves.dom().contains(vpn),
    ensures
        pt_wf(unmap_one_pt(pt, vpn)),
        pt.lows.dom().contains(vpn / 512),
        pt.mids.dom().contains(vpn / 0x40000),
{
    let a = vpn / 0x40000;
    let t = vpn / 512;
    assert(t / 512 == a);
    let r = unmap_one_pt(pt, vpn);
    assert(low_used(pt.leaves, t));
    assert(pt.lows.dom().contains(t));
    assert(mid_used(pt.lows, a));
    assert forall|t2: int| #[trigger] r.lows.dom().contains(t2) <==> low_used(r.leaves, t2) by {
        if r.lows.dom().contains(t2) {
            if t2 != t {
                assert(low_used(pt.leaves, t2));
                let w = choose|w: int| #[trigger] pt.leaves.dom().contains(w) && w / 512 == t2;
                assert(r.leaves.dom().contains(w));
            }
        }
        if low_used(r.leaves, t2) {
            let w = choose|w: int| #[trigger] r.leaves.dom().contains(w) && w / 512 == t2;
            assert(pt.leaves.dom().contains(w));
            assert(low_used(pt.leaves, t2));
        }
    }
    assert forall|a2: int| #[trigger] r.mids.dom().contains(a2) <==> mid_used(r.lows, a2) by {
        if r.mids.dom().contains(a2) {
            if a2 != a {
                assert(mid_used(pt.lows, a2));
                let w = choose|w: int| #[trigger] pt.lows.dom().contains(w) && w / 512 == a2;
                assert(r.lows.dom().contains(w));
            }
        }
        if mid_used(r.lows, a2) {
            let w = choose|w: int| #[trigger] r.lows.dom().contains(w) && w / 512 == a2;
            assert(pt.lows.dom().contains(w));
            assert(mid_used(pt.lows, a2));
        }
    }
    assert forall|v2: int| #[trigger] r.leaves.dom().contains(v2) implies 0 <= v2 < 0x8000000
        && pte_ok(r, r.leaves[v2]) by {
        assert(pt.leaves.dom().contains(v2));
    }
}

/// Unmapping a page right after it was mapped leaves the state as it was:
/// the same leaves, the same tables, the same memory.
pub proof fn lemma_map_unmap_one(s: PtMem, vpn: int, pte: Pte)
    requires
        state_wf(s),
        0 <= vpn < 0x8000000,
        !s.pt.leaves.dom().contains(vpn),
        map_one_fits(s, vpn),
    ensures
        unmap_one_state(map_one_state(s, vpn, pte), vpn) == s,
{
    let a = vpn / 0x40000;
    let t = vpn / 512;
    assert(t / 512 == a);
    let r = map_one_state(s, vpn, pte);
    let u = unmap_one_state(r, vpn);
    let m1 = mem_after_mid(s.pt, s.mem, vpn);
    assert(r.pt.leaves.remove(vpn) =~= s.pt.leaves);
    assert(s.pt.lows.dom().contains(t) <==> low_used(s.pt.leaves, t));
    assert(u.pt.lows =~= s.pt.lows);
    assert(s.pt.mids.dom().contains(a) <==> mid_used(s.pt.lows, a));
    assert(u.pt.mids =~= s.pt.mids);
    assert(u.pt == s.pt);
    if s.pt.lows.dom().contains(t) {
        assert(s.pt.mids.dom().contains(a)) by {
            assert(mid_used(s.pt.lows, a));
        }
    }
    if !s.pt.mids.dom().contains(a) {
        lemma_alloc_view_wf(s.mem, 0);
        lemma_alloc_release_view(s.mem, 0);
    }
    if !s.pt.lows.dom().contains(t) {
        lemma_alloc_view_wf(m1, 0);
        lemma_alloc_release_view(m1, 0);
    }
}

/// What a range of `n` pages from page `base`, to the frames from `pfn0`
/// on, needs before it can be mapped into a well-formed state: flags with a
/// permission, frames of managed memory other than frame 0, and none of the
/// pages mapped.
pub open spec fn range_ok(s: PtMem, base: int, pfn0: int, flags: u8, n: nat) -> bool {
    &&& state_wf(s)
    &&& 0 <= base
    &&& n <= 0x8000000
    &&& flags_permit(flags)
    &&& 0 < pfn0
    &&& s.pt.ram_start <= pfn0
    &&& pfn0 + n <= s.pt.ram_end
    &&& s.pt.ram_end <= usize::MAX
    &&& forall|i: int| 0 <= i < n ==> !s.pt.leaves.dom().contains(#[trigger] page_vpn(base, i))
}

/// Where the first `n` pages fit, the first `k` of them do.
pub proof fn lemma_map_pages_fit_prefix(s: PtMem, base: int, pfn0: int, flags: u8, n: nat, k: nat)
    requires
        k <= n,
        map_pages_fit(s, base, pfn0, flags, n),
    ensures
        map_pages_fit(s, base, pfn0, flags, k),
    decreases n,
{
    if k < n {
        lemma_map_pages_fit_prefix(s, base, pfn0, flags, (n - 1) as nat, k);
    }
}

/// The flags of a leaf that is made from flags with a permission.
pub proof fn lemma_leaf_flags(flags: u8)
    by (bit_vector)
    requires
        flags & 14 != 0,
    ensures
        (flags | 1) & 1 == 1,
        (flags | 1) & 14 != 0,
        (flags | 1) & 14 == flags & 14,
        (flags | 1) & 16 == flags & 16,
{
}

/// Mapping the first `k` pages of a range that can be mapped keeps the
/// state well formed and adds exactly those pages.
#[verifier::rlimit(50)]
pub proof fn lemma_map_pages(s: PtMem, base: int, pfn0: int, flags: u8, n: nat, k: nat)
    requires
        range_ok(s, base, pfn0, flags, n),
        k <= n,
        map_pages_fit(s, base, pfn0, flags, k),
    ensures
        state_wf(map_pages(s, base, pfn0, flags, k)),
        map_pages(s, base, pfn0, flags, k).pt.root == s.pt.root,
        map_pages(s, base, pfn0, flags, k).pt.ram_start == s.pt.ram_start,
        map_pages(s, base, pfn0, flags, k).pt.ram_end == s.pt.ram_end,
        map_pages(s, base, pfn0, flags, k).mem.start == s.mem.start,
        map_pages(s, base, pfn0, flags, k).mem.end == s.mem.end,
        forall|v: int|
            map_pages(s, base, pfn0, flags, k).pt.leaves.dom().contains(v) <==> (
            s.pt.leaves.dom().contains(v) || exists|i: int|
                0 <= i < k && v == #[trigger] page_vpn(base, i)),
        forall|i: int|
            0 <= i < k ==> map_pages(s, base, pfn0, flags, k).pt.leaves[#[trigger] page_vpn(
                base,
                i,
            )] == page_pte(pfn0, flags, i),
        forall|v: int|
            s.pt.leaves.dom().contains(v) ==> #[trigger] map_pages(
                s,
                base,
                pfn0,
                flags,
                k,
            ).pt.leaves[v] == s.pt.leaves[v],
    decreases k,
{
    if k > 0 {
        let k1 = (k - 1) as nat;
        let p = map_pages(s, base, pfn0, flags, k1);
        let r = map_pages(s, base, pfn0, flags, k);
        lemma_map_pages(s, base, pfn0, flags, n, k1);
        let vpn = page_vpn(base, k - 1);
        let pte = page_pte(pfn0, flags, k - 1);
        lemma_leaf_flags(flags);
        assert(!s.pt.leaves.dom().contains(vpn));
        lemma_page_vpn(base, k - 1, k - 1);
        assert(!p.pt.leaves.dom().contains(vpn)) by {
            if p.pt.leaves.dom().contains(vpn) {
                let i = choose|i: int| 0 <= i < k1 && vpn == #[trigger] page_vpn(base, i);
                lemma_page_vpn(base, i, k - 1);
            }
        }
        lemma_map_one_wf(p, vpn, pte);
        assert forall|v: int|
            r.pt.leaves.dom().contains(v) <==> (s.pt.leaves.dom().contains(v) || exists|i: int|
                0 <= i < k && v == #[trigger] page_vpn(base, i)) by {
            if r.pt.leaves.dom().contains(v) {
                if v != vpn {
                    assert(p.pt.leaves.dom().contains(v));
                    if !s.pt.leaves.dom().contains(v) {
                        let i = choose|i: int| 0 <= i < k1 && v == #[trigger] page_vpn(base, i);
                        assert(0 <= i < k && v == page_vpn(base, i));
                    }
                } else {
                    assert(0 <= k - 1 < k && v == page_vpn(base, k - 1));
                }
            }
            if exists|i: int| 0 <= i < k && v == #[trigger] page_vpn(base, i) {
                let i = choose|i: int| 0 <= i < k && v == #[trigger] page_vpn(base, i);
                if i < k1 {
                    assert(p.pt.leaves.dom().contains(v));
                }
            }
        }
        assert forall|i: int| 0 <= i < k implies r.pt.leaves[#[trigger] page_vpn(base, i)]
            == page_pte(pfn0, flags, i) by {
            if i < k1 {
                lemma_page_vpn(base, i, k - 1);
                assert(p.pt.leaves[page_vpn(base, i)] == page_pte(pfn0, flags, i));
            }
        }
        assert forall|v: int| s.pt.leaves.dom().contains(v) implies #[trigger] r.pt.leaves[v]
            == s.pt.leaves[v] by {
            assert(p.pt.leaves[v] == s.pt.leaves[v]);
        }
    }
}

/// The `n` pages from page `base` are mapped to the frames from `pfn0` on,
/// with `flags` and the valid bit.
pub open spec fn mapped(pt: PtView, base: int, pfn0: int, flags: u8, n: int) -> bool {
    forall|i: int|
        0 <= i < n ==> pt.leaves.dom().contains(#[trigger] page_vpn(base, i))
            && pt.leaves[page_vpn(base, i)] == page_pte(pfn0, flags, i)
}

/// Every page that `pt0` maps is mapped by `pt1` in the same way.
pub open spec fn leaves_kept(pt0: PtView, pt1: PtView) -> bool {
    forall|v: int| #[trigger]
        pt0.leaves.dom().contains(v) ==> pt1.leaves.dom().contains(v) && pt1.leaves[v]
            == pt0.leaves[v]
}

/// Mapping a page leaves the bytes of the frames that are allocated as they
/// are.
pub proof fn lemma_map_one_keeps(s: PtMem, vpn: int, pte: Pte)
    requires
        state_wf(s),
        map_one_fits(s, vpn),
    ensures
        kept(s.mem, map_one_state(s, vpn, pte).mem),
{
    let m1 = mem_after_mid(s.pt, s.mem, vpn);
    if !s.pt.mids.dom().contains(vpn / 0x40000) {
        lemma_alloc_view_wf(s.mem, 0);
        lemma_alloc_keeps(s.mem, 0);
    }
    if !s.pt.lows.dom().contains(vpn / 512) {
        lemma_alloc_keeps(m1, 0);
    }
    let r = map_one_state(s, vpn, pte).mem;
    assert forall|x: int| #[trigger] s.mem.bytes.dom().contains(x) implies r.bytes.dom().contains(
        x,
    ) && r.bytes[x] == s.mem.bytes[x] by {
        assert(m1.bytes.dom().contains(x) && m1.bytes[x] == s.mem.bytes[x]);
    }
}

/// Mapping a range leaves the bytes of the frames that are allocated as
/// they are.
pub proof fn lemma_map_pages_keeps(s: PtMem, base: int, pfn0: int, flags: u8, n: nat, k: nat)
    requires
        range_ok(s, base, pfn0, flags, n),
        k <= n,
        map_pages_fit(s, base, pfn0, flags, k),
    ensures
        kept(s.mem, map_pages(s, base, pfn0, flags, k).mem),
    decreases k,
{
    if k > 0 {
        let k1 = (k - 1) as nat;
        let p = map_pages(s, base, pfn0, flags, k1);
        lemma_map_pages_keeps(s, base, pfn0, flags, n, k1);
        lemma_map_pages(s, base, pfn0, flags, n, k1);
        lemma_map_one_keeps(p, page_vpn(base, k - 1), page_pte(pfn0, flags, k - 1));
        let r = map_pages(s, base, pfn0, flags, k).mem;
        assert forall|x: int| #[trigger] s.mem.bytes.dom().contains(x) implies r.bytes.dom().contains(
            x,
        ) && r.bytes[x] == s.mem.bytes[x] by {
            assert(p.mem.bytes.dom().contains(x) && p.mem.bytes[x] == s.mem.bytes[x]);
        }
    }
}

/// Unmapping a range right after it was mapped leaves the state as it was:
/// the page table with its tables, and the memory.
pub proof fn lemma_map_unmap_pages(s: PtMem, base: int, pfn0: int, flags: u8, n: nat)
    requires
        range_ok(s, base, pfn0, flags, n),
        map_pages_fit(s, base, pfn0, flags, n),
    ensures
        unmap_pages(map_pages(s, base, pfn0, flags, n), base, n) == s,
    decreases n,
{
    if n > 0 {
        let n1 = (n - 1) as nat;
        let p = map_pages(s, base, pfn0, flags, n1);
        let vpn = page_vpn(base, n - 1);
        let pte = page_pte(pfn0, flags, n - 1);
        lemma_map_pages(s, base, pfn0, flags, n, n1);
        lemma_page_vpn(base, n - 1, n - 1);
        assert(!p.pt.leaves.dom().contains(vpn)) by {
            if p.pt.leaves.dom().contains(vpn) {
                assert(!s.pt.leaves.dom().contains(vpn));
                let i = choose|i: int| 0 <= i < n1 && vpn == #[trigger] page_vpn(base, i);
                lemma_page_vpn(base, i, n - 1);
            }
        }
        lemma_map_unmap_one(p, vpn, pte);
        assert(range_ok(s, base, pfn0, flags, n1));
        lemma_map_unmap_pages(s, base, pfn0, flags, n1);
    }
}

/// Why the `1 << order` pages from `vaddr` cannot be mapped to the frames
/// from `paddr` on, if they cannot: the first that holds of an order that
/// is none, an address that is not aligned to the size of the range, flags
/// without a permission, a range that leaves the address space or the
/// managed memory or starts at frame 0, a page that is mapped already, and
/// no frame for a table that is missing.
pub open spec fn map_range_err(
    pt: PtView,
    mem: MemView,
    vaddr: int,
    paddr: int,
    order: int,
    flags: u8,
) -> Option<MmError> {
    let n = run_pages(order as nat) as int;
    if order >= MAX_ORDER || order < 0 {
        Some(MmError::OutOfRange)
    } else if vaddr % (4096 * n) != 0 || paddr % (4096 * n) != 0 {
        Some(MmError::Misaligned)
    } else if !flags_permit(flags) {
        Some(MmError::InvalidFlags)
    } else if vaddr + 4096 * n > usize::MAX || paddr + 4096 * n > usize::MAX || paddr / 4096 == 0
        || !(pt.ram_start <= paddr / 4096 && paddr / 4096 + n <= pt.ram_end) {
        Some(MmError::OutOfRange)
    } else if exists|i: int| 0 <= i < n && pt.leaves.dom().contains(#[trigger] page_vpn(vaddr / 4096, i)) {
        Some(MmError::AlreadyMapped)
    } else if !map_pages_fit(PtMem { pt, mem }, vaddr / 4096, paddr / 4096, flags, n as nat) {
        Some(MmError::OutOfMemory)
    } else {
        None
    }
}

/// Why the `1 << order` pages from `vaddr` cannot be unmapped, if they
/// cannot: the first that holds of an order that is none, an address that is
/// not aligned to the size of the range, a range that leaves the address
/// space, and a page of the range that is not mapped.
pub open spec fn unmap_range_err(pt: PtView, vaddr: int, order: int) -> Option<MmError> {
    let n = run_pages(order as nat) as int;
    if order >= MAX_ORDER || order < 0 {
        Some(MmError::OutOfRange)
    } else if vaddr % (4096 * n) != 0 {
        Some(MmError::Misaligned)
    } else if vaddr + 4096 * n > usize::MAX {
        Some(MmError::OutOfRange)
    } else if exists|i: int| 0 <= i < n && !pt.leaves.dom().contains(#[trigger] page_vpn(vaddr / 4096, i)) {
        Some(MmError::NotMapped)
    } else {
        None
    }
}

/// The state after those of the first `n` pages from page `base` that are
/// mapped were unmapped, one by one from the highest.
pub open spec fn unmap_mapped_pages(s: PtMem, base: int, n: nat) -> PtMem
    decreases n,
{
    if n == 0 {
        s
    } else {
        let v = page_vpn(base, n - 1);
        let s1 = if s.pt.leaves.dom().contains(v) {
            unmap_one_state(s, v)
        } else {
            s
        };
        unmap_mapped_pages(s1, base, (n - 1) as nat)
    }
}

/// An address aligned to `n` pages is page aligned, and so is each page
/// after it.
pub proof fn lemma_page_of(x: int, n: int, i: int)
    requires
        n >= 1,
        0 <= x,
        x % (4096 * n) == 0,
        0 <= i,
    ensures
        x % 4096 == 0,
        (x + 4096 * i) % 4096 == 0,
        (x + 4096 * i) / 4096 == x / 4096 + i,
        vpn_of(x + 4096 * i) == page_vpn(x / 4096, i),
{
    reveal(page_vpn);
    let q = x / (4096 * n);
    lemma_fundamental_div_mod(x, 4096 * n);
    assert(x == (n * q) * 4096 + 0) by (nonlinear_arith)
        requires
            x == (4096 * n) * q + 0,
    ;
    lemma_fundamental_div_mod_converse(x, 4096, n * q, 0);
}

/// A level-0 table: 512 leaf slots.
pub struct LeafTable {
    pfn: usize,
    slots: Vec<Option<Pte>>,
}

/// A level-1 table: 512 slots for level-0 tables.
pub struct MidTable {
    pfn: usize,
    slots: Vec<Option<LeafTable>>,
}

/// The page table.
pub struct PageTable {
    root: usize,
    ram_start: usize,
    ram_end: usize,
    slots: Vec<Option<MidTable>>,
}

impl LeafTable {
    spec fn wf(&self) -> bool {
        self.slots@.len() == TABLE_SLOTS
    }

    spec fn used(&self) -> bool {
        exists|c: int| 0 <= c < TABLE_SLOTS && (#[trigger] self.slots@[c]) is Some
    }
}

impl MidTable {
    spec fn wf(&self) -> bool {
        &&& self.slots@.len() == TABLE_SLOTS
        &&& forall|b: int|
            0 <= b < TABLE_SLOTS && (#[trigger] self.slots@[b]) is Some ==> self.slots@[b]->0.wf()
                && self.slots@[b]->0.used()
    }

    spec fn used(&self) -> bool {
        exists|b: int| 0 <= b < TABLE_SLOTS && (#[trigger] self.slots@[b]) is Some
    }
}

/// The two slots hold the same level-0 table, or none.
spec fn same_leaf(x: Option<LeafTable>, y: Option<LeafTable>) -> bool {
    match (x, y) {
        (None, None) => true,
        (Some(l), Some(m)) => l.pfn == m.pfn && l.slots@ == m.slots@,
        _ => false,
    }
}

/// The two slots hold the same level-1 table, or none.
spec fn same_mid(x: Option<MidTable>, y: Option<MidTable>) -> bool {
    match (x, y) {
        (None, None) => true,
        (Some(l), Some(m)) => l.pfn == m.pfn && l.slots@.len() == m.slots@.len() && forall|b: int|
            0 <= b < l.slots@.len() ==> same_leaf(#[trigger] l.slots@[b], m.slots@[b]),
        _ => false,
    }
}

/// Whether a level-0 table holds no leaf.
fn leaf_is_empty(leaf: &LeafTable) -> (r: bool)
    requires
        leaf.wf(),
    ensures
        r == !leaf.used(),
{
    let mut i: usize = 0;
    while i < TABLE_SLOTS
        invariant
            i <= TABLE_SLOTS,
            leaf.slots@.len() == TABLE_SLOTS,
            forall|k: int| 0 <= k < i ==> (#[trigger] leaf.slots@[k]) is None,
        decreases TABLE_SLOTS - i,
    {
        if leaf.slots[i].is_some() {
            return false;
        }
        i += 1;
    }
    true
}

/// Whether a level-1 table holds no table.
fn mid_is_empty(mid: &MidTable) -> (r: bool)
    requires
        mid.slots@.len() == TABLE_SLOTS,
    ensures
        r == !mid.used(),
{
    let mut i: usize = 0;
    while i < TABLE_SLOTS
        invariant
            i <= TABLE_SLOTS,
            mid.slots@.len() == TABLE_SLOTS,
            forall|k: int| 0 <= k < i ==> (#[trigger] mid.slots@[k]) is None,
        decreases TABLE_SLOTS - i,
    {
        if mid.slots[i].is_some() {
            return false;
        }
        i += 1;
    }
    true
}

/// `n` empty slots.
fn empty_slots<T>(n: usize) -> (r: Vec<Option<T>>)
    ensures
        r@.len() == n,
        forall|i: int| 0 <= i < n ==> (#[trigger] r@[i]) is None,
{
    let mut v: Vec<Option<T>> = Vec::new();
    let mut i: usize = 0;
    while i < n
        invariant
            i <= n,
            v@.len() == i,
            forall|k: int| 0 <= k < i ==> (#[trigger] v@[k]) is None,
        decreases n - i,
    {
        v.push(None);
        i += 1;
    }
    v
}

impl View for PageTable {
    type V = PtView;

    closed spec fn view(&self) -> PtView {
        PtView {
            root: self.root as int,
            ram_start: self.ram_start as int,
            ram_end: self.ram_end as int,
            leaves: Map::new(
                |vpn: int| 0 <= vpn < 0x8000000 && self.slot(vpn) is Some,
                |vpn: int| self.slot(vpn)->0,
            ),
            mids: Map::new(
                |a: int| 0 <= a < TABLE_SLOTS && self.slots@[a] is Some,
                |a: int| self.slots@[a]->0.pfn as int,
            ),
            lows: Map::new(
                |t: int| 0 <= t < 0x40000 && self.low(t) is Some,
                |t: int| self.low(t)->0.pfn as int,
            ),
        }
    }
}

impl PageTable {
    /// The level-0 table `t`, if it exists.
    spec fn low(&self, t: int) -> Option<LeafTable> {
        match self.slots@[t / 512] {
            None => None,
            Some(mid) => mid.slots@[t % 512],
        }
    }

    /// The leaf slot of virtual page `vpn`.
    spec fn slot(&self, vpn: int) -> Option<Pte> {
        match self.low(vpn / 512) {
            None => None,
            Some(leaf) => leaf.slots@[vpn % 512],
        }
    }

    /// The tables have 512 slots each, and each intermediate table holds an
    /// entry.
    pub closed spec fn tree_wf(&self) -> bool {
        &&& self.slots@.len() == TABLE_SLOTS
        &&& forall|a: int|
            0 <= a < TABLE_SLOTS && (#[trigger] self.slots@[a]) is Some ==> self.slots@[a]->0.wf()
                && self.slots@[a]->0.used()
    }

    /// The page table's invariant.
    pub open spec fn wf(&self) -> bool {
        &&& self.tree_wf()
        &&& pt_wf(self@)
    }

    /// The view of a tree that is well formed has its tables where its
    /// entries are.
    proof fn lemma_tables(&self)
        requires
            self.tree_wf(),
        ensures
            forall|t: int| #[trigger] self@.lows.dom().contains(t) <==> low_used(self@.leaves, t),
            forall|a: int| #[trigger] self@.mids.dom().contains(a) <==> mid_used(self@.lows, a),
            forall|vpn: int| #[trigger] self@.leaves.dom().contains(vpn) ==> 0 <= vpn < 0x8000000,
    {
        assert forall|t: int| #[trigger] self@.lows.dom().contains(t) <==> low_used(
            self@.leaves,
            t,
        ) by {
            if self@.lows.dom().contains(t) {
                let mid = self.slots@[t / 512]->0;
                assert(self.slots@[t / 512] is Some);
                let leaf = mid.slots@[t % 512]->0;
                assert(mid.slots@[t % 512] is Some);
                assert(leaf.used());
                let c = choose|c: int| 0 <= c < TABLE_SLOTS && (#[trigger] leaf.slots@[c]) is Some;
                let vpn = t * 512 + c;
                assert(vpn / 512 == t && vpn % 512 == c);
                assert(self@.leaves.dom().contains(vpn));
            }
            if low_used(self@.leaves, t) {
                let vpn = choose|vpn: int| #[trigger]
                    self@.leaves.dom().contains(vpn) && vpn / 512 == t;
                assert(self.slot(vpn) is Some);
            }
        }
        assert forall|a: int| #[trigger] self@.mids.dom().contains(a) <==> mid_used(
            self@.lows,
            a,
        ) by {
            if self@.mids.dom().contains(a) {
                let mid = self.slots@[a]->0;
                assert(self.slots@[a] is Some);
                assert(mid.used());
                let b = choose|b: int| 0 <= b < TABLE_SLOTS && (#[trigger] mid.slots@[b]) is Some;
                let t = a * 512 + b;
                assert(t / 512 == a && t % 512 == b);
                assert(self@.lows.dom().contains(t));
            }
            if mid_used(self@.lows, a) {
                let t = choose|t: int| #[trigger] self@.lows.dom().contains(t) && t / 512 == a;
                assert(self.low(t) is Some);
            }
        }
    }

    /// A page table without a mapping, its root table in a fresh frame.
    /// `None`, with the memory unchanged, when no frame is free.
    pub fn new(mem: &mut PhysMemory) -> (r: Option<PageTable>)
        requires
            old(mem).wf(),
        ensures
            final(mem).wf(),
            match r {
                Some(pt) => {
                    &&& alloc_ok(old(mem)@, 0)
                    &&& final(mem)@ == alloc_view(old(mem)@, 0)
                    &&& pt.wf()
                    &&& pt@ == (PtView {
                        root: alloc_head(old(mem)@, 0),
                        ram_start: old(mem)@.start,
                        ram_end: old(mem)@.end,
                        leaves: Map::empty(),
                        mids: Map::empty(),
                        lows: Map::empty(),
                    })
                },
                None => !alloc_ok(old(mem)@, 0) && *final(mem) == *old(mem),
            },
    {
        let start = mem.start_pfn().0;
        let end = mem.end_pfn().0;
        match alloc_one_page(mem) {
            None => None,
            Some(pg) => {
                let pt = PageTable {
                    root: pg.get_pfn().0,
                    ram_start: start,
                    ram_end: end,
                    slots: empty_slots(TABLE_SLOTS),
                };
                proof {
                    pt.lemma_tables();
                    assert(pt@.leaves =~= Map::empty());
                    assert(pt@.mids =~= Map::empty());
                    assert(pt@.lows =~= Map::empty());
                }
                Some(pt)
            },
        }
    }

    /// The two trees hold the same tables in the same frames with the same
    /// entries.
    spec fn same_tree(&self, before: PageTable) -> bool {
        &&& self.root == before.root
        &&& self.ram_start == before.ram_start
        &&& self.ram_end == before.ram_end
        &&& self.slots@.len() == before.slots@.len()
        &&& forall|a: int|
            0 <= a < self.slots@.len() ==> same_mid(#[trigger] self.slots@[a], before.slots@[a])
    }

    /// Trees that hold the same have the same view, and are well formed
    /// together.
    proof fn lemma_same_tree(&self, before: PageTable)
        requires
            self.same_tree(before),
            before.tree_wf(),
        ensures
            self@ == before@,
            self.tree_wf(),
    {
        assert forall|t: int| 0 <= t < 0x40000 implies same_leaf(self.low(t), before.low(t)) by {
            assert(same_mid(self.slots@[t / 512], before.slots@[t / 512]));
        }
        assert forall|v: int| 0 <= v < 0x8000000 implies self.slot(v) == before.slot(v) by {
            assert(same_leaf(self.low(v / 512), before.low(v / 512)));
        }
        assert(self@.leaves =~= before@.leaves);
        assert(self@.mids =~= before@.mids) by {
            assert forall|a: int| 0 <= a < TABLE_SLOTS implies (self.slots@[a] is Some
                <==> before.slots@[a] is Some) && (self.slots@[a] is Some ==> self.slots@[a]->0.pfn
                == before.slots@[a]->0.pfn) by {
                assert(same_mid(self.slots@[a], before.slots@[a]));
            }
        }
        assert(self@.lows =~= before@.lows);
        assert forall|a: int|
            0 <= a < TABLE_SLOTS && (#[trigger] self.slots@[a]) is Some implies self.slots@[a]->0.wf()
                && self.slots@[a]->0.used() by {
            assert(same_mid(self.slots@[a], before.slots@[a]));
            let m = self.slots@[a]->0;
            let m0 = before.slots@[a]->0;
            assert(m0.wf() && m0.used());
            let w = choose|w: int| 0 <= w < TABLE_SLOTS && (#[trigger] m0.slots@[w]) is Some;
            assert(same_leaf(m.slots@[w], m0.slots@[w]));
            assert(m.slots@[w] is Some);
            assert forall|b: int|
                0 <= b < TABLE_SLOTS && (#[trigger] m.slots@[b]) is Some implies m.slots@[b]->0.wf()
                    && m.slots@[b]->0.used() by {
                assert(same_leaf(m.slots@[b], m0.slots@[b]));
                let l = m.slots@[b]->0;
                let l0 = m0.slots@[b]->0;
                assert(m0.slots@[b] is Some);
                assert(l0.wf() && l0.used());
                let z = choose|z: int| 0 <= z < TABLE_SLOTS && (#[trigger] l0.slots@[z]) is Some;
                assert(l.slots@[z] is Some);
            }
        }
    }

    /// The tree `self` is `before` with the leaf slot `(a, b, c)` set to `x`,
    /// the tables on the way standing in `mid` and `leaf`.
    spec fn is_update_of(&self, before: PageTable, a: int, b: int, c: int, x: Option<Pte>) -> bool {
        &&& self.root == before.root
        &&& self.ram_start == before.ram_start
        &&& self.ram_end == before.ram_end
        &&& self.slots@.len() == TABLE_SLOTS
        &&& forall|i: int| 0 <= i < TABLE_SLOTS && i != a ==> self.slots@[i] == before.slots@[i]
        &&& self.slots@[a] is Some
        &&& self.slots@[a]->0.slots@.len() == TABLE_SLOTS
        &&& forall|i: int|
            0 <= i < TABLE_SLOTS && i != b ==> #[trigger] self.slots@[a]->0.slots@[i] == (
            match before.slots@[a] {
                Some(m) => m.slots@[i],
                None => None,
            })
        &&& self.slots@[a]->0.slots@[b] is Some
        &&& self.slots@[a]->0.slots@[b]->0.slots@.len() == TABLE_SLOTS
        &&& forall|i: int|
            0 <= i < TABLE_SLOTS && i != c ==> #[trigger] self.slots@[a]->0.slots@[b]->0.slots@[i]
                == (match before.low(a * 512 + b) {
                Some(l) => l.slots@[i],
                None => None,
            })
        &&& self.slots@[a]->0.slots@[b]->0.slots@[c] == x
    }

    /// Setting one leaf slot to an entry changes the view at that page only,
    /// and adds the tables on the way where they were missing.
    proof fn lemma_update_set(&self, before: PageTable, vpn: int, pte: Pte)
        requires
            before.tree_wf(),
            0 <= vpn < 0x8000000,
            self.is_update_of(before, vpn / 0x40000, (vpn / 512) % 512, vpn % 512, Some(pte)),
            before.slots@[vpn / 0x40000] is Some ==> self.slots@[vpn / 0x40000]->0.pfn
                == before.slots@[vpn / 0x40000]->0.pfn,
            before.low(vpn / 512) is Some ==> self.low(vpn / 512)->0.pfn == before.low(
                vpn / 512,
            )->0.pfn,
        ensures
            self.tree_wf(),
            self@.leaves == before@.leaves.insert(vpn, pte),
            self@.mids == before@.mids.insert(vpn / 0x40000, self.slots@[vpn / 0x40000]->0.pfn as int),
            self@.lows == before@.lows.insert(vpn / 512, self.low(vpn / 512)->0.pfn as int),
            self@.root == before@.root,
            self@.ram_start == before@.ram_start,
            self@.ram_end == before@.ram_end,
    {
        let a = vpn / 0x40000;
        let t = vpn / 512;
        let b = t % 512;
        let c = vpn % 512;
        assert(t / 512 == a);
        assert(a * 512 + b == t);
        let mid = self.slots@[a]->0;
        let leaf = mid.slots@[b]->0;
        assert(self.low(t) == Some(leaf));
        assert forall|t2: int| 0 <= t2 < 0x40000 && t2 != t implies self.low(t2) == before.low(
            t2,
        ) by {
            if t2 / 512 == a {
                assert(t2 % 512 != b);
                assert(self.slots@[a]->0.slots@[t2 % 512] == (match before.slots@[a] {
                    Some(m) => m.slots@[t2 % 512],
                    None => None,
                }));
            } else {
                assert(self.slots@[t2 / 512] == before.slots@[t2 / 512]);
            }
        }
        assert forall|v2: int| 0 <= v2 < 0x8000000 && v2 != vpn implies self.slot(v2)
            == before.slot(v2) by {
            if v2 / 512 == t {
                assert(v2 % 512 != c);
                assert(leaf.slots@[v2 % 512] == (match before.low(t) {
                    Some(l) => l.slots@[v2 % 512],
                    None => None,
                }));
            } else {
                assert(self.low(v2 / 512) == before.low(v2 / 512));
            }
        }
        assert(self.slot(vpn) == Some(pte));
        assert(self@.leaves =~= before@.leaves.insert(vpn, pte));
        assert(self@.mids =~= before@.mids.insert(a, mid.pfn as int));
        assert(self@.lows =~= before@.lows.insert(t, leaf.pfn as int));
        assert(leaf.used()) by {
            assert(leaf.slots@[c] is Some);
        }
        assert(mid.wf()) by {
            assert forall|i: int|
                0 <= i < TABLE_SLOTS && (#[trigger] mid.slots@[i]) is Some implies mid.slots@[i]->0.wf()
                    && mid.slots@[i]->0.used() by {
                if i != b {
                    assert(before.slots@[a] is Some);
                    assert(before.slots@[a]->0.slots@[i] == mid.slots@[i]);
                }
            }
        }
        assert(mid.used()) by {
            assert(mid.slots@[b] is Some);
        }
        assert forall|i: int|
            0 <= i < TABLE_SLOTS && (#[trigger] self.slots@[i]) is Some implies self.slots@[i]->0.wf()
                && self.slots@[i]->0.used() by {
            if i != a {
                assert(self.slots@[i] == before.slots@[i]);
            }
        }
    }

    /// Maps the page of `vaddr` to the frame of `paddr` with `flags` and the
    /// valid bit, making the tables on the way where they are missing.
    ///
    /// Fails, with the page table and the memory as they were, for the
    /// reason that `map_one_err` names.
    pub fn map_one(&mut self, mem: &mut PhysMemory, vaddr: Addr, paddr: Addr, flags: u8) -> (r:
        Result<(), MmError>)
        requires
            old(self).wf(),
            old(mem).wf(),
        ensures
            final(self).wf(),
            final(mem).wf(),
            final(self)@.root == old(self)@.root,
            final(self)@.ram_start == old(self)@.ram_start,
            final(self)@.ram_end == old(self)@.ram_end,
            match r {
                Ok(_) => {
                    let vpn = vpn_of(vaddr.0 as int);
                    let pte = Pte { pfn: paddr.0 / 4096, flags: flags | 1 };
                    &&& map_one_err(old(self)@, old(mem)@, vaddr.0 as int, paddr.0 as int, flags)
                        is None
                    &&& final(self)@ == map_one_pt(old(self)@, old(mem)@, vpn, pte)
                    &&& final(mem)@ == map_one_mem(old(self)@, old(mem)@, vpn)
                },
                Err(e) => {
                    &&& map_one_err(old(self)@, old(mem)@, vaddr.0 as int, paddr.0 as int, flags)
                        == Some(e)
                    &&& final(self)@ == old(self)@
                    &&& final(mem)@ == old(mem)@
                },
            },
    {
        if vaddr.0 % 4096 != 0 || paddr.0 % 4096 != 0 {
            return Err(MmError::Misaligned);
        }
        if flags & 14 == 0 {
            return Err(MmError::InvalidFlags);
        }
        let pfn: usize = paddr.0 / 4096;
        if pfn == 0 || pfn < self.ram_start || pfn >= self.ram_end {
            return Err(MmError::OutOfRange);
        }
        if self.walk(vaddr).is_some() {
            return Err(MmError::AlreadyMapped);
        }
        let a = addr_get_ppn2(vaddr.0);
        let b = addr_get_ppn1(vaddr.0);
        let c = addr_get_ppn0(vaddr.0);
        let ghost vpn = vpn_of(vaddr.0 as int);
        let ghost t = vpn / 512;
        proof {
            lemma_indices(vaddr.0);
            assert(t / 512 == vpn / 0x40000);
            assert(t / 512 == a && t % 512 == b && vpn % 512 == c);
            assert(a * 512 + b == t);
            old(self).lemma_tables();
            assert(flags | 1 == flags | 1 && (flags | 1) & 1 == 1 && ((flags & 14 != 0) ==> (flags
                | 1) & 14 != 0)) by (bit_vector);
        }
        let pte = Pte { pfn, flags: flags | 1 };
        let had_mid = self.slots[a].is_some();
        let ghost had_low = old(self).low(t) is Some;
        proof {
            assert(had_mid == old(self)@.mids.dom().contains(a as int));
            assert(had_low == old(self)@.lows.dom().contains(t));
            if !had_mid && had_low {
                assert(false);
            }
        }
        let mut mid = match self.slots[a].take() {
            Some(m) => m,
            None => match alloc_one_page(mem) {
                None => {
                    proof {
                        self.lemma_same_tree(*old(self));
                    }
                    return Err(MmError::OutOfMemory);
                },
                Some(pg) => MidTable { pfn: pg.get_pfn().0, slots: empty_slots(TABLE_SLOTS) },
            },
        };
        let ghost mid0 = mid;
        let mut leaf = match mid.slots[b].take() {
            Some(l) => l,
            None => match alloc_one_page(mem) {
                None => {
                    if had_mid {
                        self.slots[a] = Some(mid);
                        proof {
                            assert(same_mid(self.slots@[a as int], old(self).slots@[a as int])) by {
                                let m0 = old(self).slots@[a as int]->0;
                                assert forall|i: int| 0 <= i < mid.slots@.len() implies same_leaf(
                                    #[trigger] mid.slots@[i],
                                    m0.slots@[i],
                                ) by {}
                            }
                            self.lemma_same_tree(*old(self));
                        }
                    } else {
                        proof {
                            old(mem).lemma_alloc_then_release(0);
                            old(mem).lemma_view_releasable(0, 0);
                            mem.lemma_view_releasable(mid.pfn as int, 0);
                        }
                        let res = _insert_area_for_page_drop(mem, PFN(mid.pfn), 0);
                        proof {
                            assert(res is Ok);
                            self.lemma_same_tree(*old(self));
                        }
                    }
                    return Err(MmError::OutOfMemory);
                },
                Some(pg) => LeafTable { pfn: pg.get_pfn().0, slots: empty_slots(TABLE_SLOTS) },
            },
        };
        let ghost leaf0 = leaf;
        leaf.slots[c] = Some(pte);
        mid.slots[b] = Some(leaf);
        self.slots[a] = Some(mid);
        proof {
            assert(self.is_update_of(*old(self), a as int, b as int, c as int, Some(pte))) by {
                assert(self.slots@[a as int] == Some(mid));
                assert(mid.slots@[b as int] == Some(leaf));
                assert forall|i: int| 0 <= i < TABLE_SLOTS && i != b implies #[trigger] mid.slots@[i]
                    == (match old(self).slots@[a as int] {
                    Some(m) => m.slots@[i],
                    None => None,
                }) by {
                    assert(mid.slots@[i] == mid0.slots@[i]);
                }
                assert forall|i: int|
                    0 <= i < TABLE_SLOTS && i != c implies #[trigger] leaf.slots@[i] == (
                match old(self).low(a * 512 + b) {
                    Some(l) => l.slots@[i],
                    None => None,
                }) by {
                    assert(leaf.slots@[i] == leaf0.slots@[i]);
                }
            }
            self.lemma_update_set(*old(self), vpn, pte);
            self.lemma_tables();
            let want = map_one_pt(old(self)@, old(mem)@, vpn, pte);
            assert(self@.mids =~= want.mids);
            assert(self@.lows =~= want.lows);
            assert(self@ == want);
            assert forall|v2: int| #[trigger] self@.leaves.dom().contains(v2) implies 0 <= v2
                < 0x8000000 && pte_ok(self@, self@.leaves[v2]) by {
                if v2 != vpn {
                    assert(old(self)@.leaves.dom().contains(v2));
                }
            }
        }
        Ok(())
    }

    /// The tree `self` is `before` with the leaf slot `(a, b, c)` cleared and
    /// each table on the way dropped that held nothing else.
    spec fn is_clear_of(&self, before: PageTable, a: int, b: int, c: int) -> bool {
        let m0 = before.slots@[a]->0;
        let l0 = m0.slots@[b]->0;
        &&& self.root == before.root
        &&& self.ram_start == before.ram_start
        &&& self.ram_end == before.ram_end
        &&& self.slots@.len() == TABLE_SLOTS
        &&& forall|i: int| 0 <= i < TABLE_SLOTS && i != a ==> self.slots@[i] == before.slots@[i]
        &&& match self.slots@[a] {
            None => {
                &&& forall|i: int| 0 <= i < TABLE_SLOTS && i != b ==> (#[trigger] m0.slots@[i]) is None
                &&& forall|i: int| 0 <= i < TABLE_SLOTS && i != c ==> (#[trigger] l0.slots@[i]) is None
            },
            Some(m) => {
                &&& m.pfn == m0.pfn
                &&& m.slots@.len() == TABLE_SLOTS
                &&& m.used()
                &&& forall|i: int|
                    0 <= i < TABLE_SLOTS && i != b ==> #[trigger] m.slots@[i] == m0.slots@[i]
                &&& match m.slots@[b] {
                    None => forall|i: int|
                        0 <= i < TABLE_SLOTS && i != c ==> (#[trigger] l0.slots@[i]) is None,
                    Some(l) => {
                        &&& l.pfn == l0.pfn
                        &&& l.slots@.len() == TABLE_SLOTS
                        &&& l.used()
                        &&& l.slots@[c] is None
                        &&& forall|i: int|
                            0 <= i < TABLE_SLOTS && i != c ==> #[trigger] l.slots@[i]
                                == l0.slots@[i]
                    },
                }
            },
        }
    }

    /// Clearing one leaf slot takes that page out of the view, and with it
    /// the tables that were dropped.
    proof fn lemma_update_clear(&self, before: PageTable, vpn: int)
        requires
            before.tree_wf(),
            0 <= vpn < 0x8000000,
            before.slot(vpn) is Some,
            self.is_clear_of(before, vpn / 0x40000, (vpn / 512) % 512, vpn % 512),
        ensures
            self.tree_wf(),
            self@ == unmap_one_pt(before@, vpn),
            self@.lows.dom().contains(vpn / 512) == (self.low(vpn / 512) is Some),
            self@.mids.dom().contains(vpn / 0x40000) == (self.slots@[vpn / 0x40000] is Some),
    {
        let a = vpn / 0x40000;
        let t = vpn / 512;
        let b = t % 512;
        let c = vpn % 512;
        assert(t / 512 == a);
        assert(a * 512 + b == t);
        let m0 = before.slots@[a]->0;
        let l0 = m0.slots@[b]->0;
        assert(before.low(t) == Some(l0));
        assert(m0.wf());
        assert(m0.slots@[b] is Some);
        assert(l0.wf());
        assert forall|t2: int| 0 <= t2 < 0x40000 && t2 != t implies #[trigger] self.low(t2)
            == before.low(t2) by {
            if t2 / 512 == a {
                assert(t2 % 512 != b);
                match self.slots@[a] {
                    None => {
                        assert(m0.slots@[t2 % 512] is None);
                    },
                    Some(m) => {
                        assert(m.slots@[t2 % 512] == m0.slots@[t2 % 512]);
                    },
                }
            } else {
                assert(self.slots@[t2 / 512] == before.slots@[t2 / 512]);
            }
        }
        assert forall|v2: int| 0 <= v2 < 0x8000000 && v2 != vpn implies self.slot(v2)
            == before.slot(v2) by {
            if v2 / 512 == t {
                assert(v2 % 512 != c);
                match self.low(t) {
                    None => {
                        assert(l0.slots@[v2 % 512] is None);
                    },
                    Some(l) => {
                        assert(l.slots@[v2 % 512] == l0.slots@[v2 % 512]);
                    },
                }
            } else {
                let t2 = v2 / 512;
                assert(self.low(t2) == before.low(t2));
            }
        }
        assert(self.slot(vpn) is None);
        assert(self@.leaves =~= before@.leaves.remove(vpn));
        assert forall|i: int|
            0 <= i < TABLE_SLOTS && (#[trigger] self.slots@[i]) is Some implies self.slots@[i]->0.wf()
                && self.slots@[i]->0.used() by {
            if i != a {
                assert(self.slots@[i] == before.slots@[i]);
            } else {
                let m = self.slots@[a]->0;
                assert forall|j: int|
                    0 <= j < TABLE_SLOTS && (#[trigger] m.slots@[j]) is Some implies m.slots@[j]->0.wf()
                        && m.slots@[j]->0.used() by {
                    if j != b {
                        assert(m.slots@[j] == m0.slots@[j]);
                    }
                }
            }
        }
        self.lemma_tables();
        let want = unmap_one_pt(before@, vpn);
        assert(self@.lows =~= want.lows) by {
            assert(self@.lows.dom().contains(t) <==> low_used(self@.leaves, t));
        }
        assert(self@.mids =~= want.mids) by {
            assert(self@.mids.dom().contains(a) <==> mid_used(self@.lows, a));
        }
    }

    /// Unmaps the page of `vaddr` and returns the leaf that stood there.
    /// Each table on the way that holds nothing else goes too, and its
    /// frame goes back to the allocator.
    ///
    /// Fails, with nothing changed, with `Misaligned` for an address that is
    /// not page aligned and else with `NotMapped` for a page that is not
    /// mapped.
    pub fn unmap_one(&mut self, mem: &mut PhysMemory, vaddr: Addr) -> (r: Result<Pte, MmError>)
        requires
            old(self).wf(),
            old(mem).wf(),
        ensures
            final(self).wf(),
            final(mem).wf(),
            final(self)@.root == old(self)@.root,
            final(self)@.ram_start == old(self)@.ram_start,
            final(self)@.ram_end == old(self)@.ram_end,
            final(mem)@.start == old(mem)@.start,
            final(mem)@.end == old(mem)@.end,
            match r {
                Ok(pte) => {
                    let vpn = vpn_of(vaddr.0 as int);
                    &&& vaddr.0 % 4096 == 0
                    &&& old(self)@.leaves.dom().contains(vpn)
                    &&& pte == old(self)@.leaves[vpn]
                    &&& final(self)@ == unmap_one_pt(old(self)@, vpn)
                    &&& final(mem)@ == unmap_one_mem(old(self)@, old(mem)@, vpn)
                },
                Err(e) => {
                    &&& e == (if vaddr.0 % 4096 != 0 {
                        MmError::Misaligned
                    } else {
                        MmError::NotMapped
                    })
                    &&& vaddr.0 % 4096 != 0 || !old(self)@.leaves.dom().contains(
                        vpn_of(vaddr.0 as int),
                    )
                    &&& final(self)@ == old(self)@
                    &&& final(mem)@ == old(mem)@
                },
            },
    {
        if vaddr.0 % 4096 != 0 {
            return Err(MmError::Misaligned);
        }
        let found = self.walk(vaddr);
        if found.is_none() {
            return Err(MmError::NotMapped);
        }
        let a = addr_get_ppn2(vaddr.0);
        let b = addr_get_ppn1(vaddr.0);
        let c = addr_get_ppn0(vaddr.0);
        let ghost vpn = vpn_of(vaddr.0 as int);
        let ghost t = vpn / 512;
        proof {
            lemma_indices(vaddr.0);
            assert(t / 512 == vpn / 0x40000);
            assert(t / 512 == a && t % 512 == b && vpn % 512 == c);
            assert(a * 512 + b == t);
            assert(old(self).slot(vpn) is Some);
            assert(old(self).low(t) is Some);
            assert(old(self).slots@[a as int] is Some);
            assert(old(self)@.lows[t] == old(self).low(t)->0.pfn);
            assert(old(self)@.mids[a as int] == old(self).slots@[a as int]->0.pfn);
        }
        let (pfn, flags) = found.unwrap();
        let pte = Pte { pfn: pfn.0, flags };
        let mut mid = self.slots[a].take().unwrap();
        let ghost m0 = mid;
        let mut leaf = mid.slots[b].take().unwrap();
        let ghost l0 = leaf;
        leaf.slots[c] = None;
        if leaf_is_empty(&leaf) {
            let _ = _insert_area_for_page_drop(mem, PFN(leaf.pfn), 0);
        } else {
            mid.slots[b] = Some(leaf);
        }
        let ghost mem1 = *mem;
        if mid_is_empty(&mid) {
            let _ = _insert_area_for_page_drop(mem, PFN(mid.pfn), 0);
        } else {
            self.slots[a] = Some(mid);
        }
        proof {
            assert(self.is_clear_of(*old(self), a as int, b as int, c as int)) by {
                assert(old(self).slots@[a as int]->0 == m0);
                assert(m0.slots@[b as int]->0 == l0);
                assert(l0.wf());
                match self.slots@[a as int] {
                    None => {
                        assert(!mid.used());
                        assert forall|i: int| 0 <= i < TABLE_SLOTS && i != b implies (
                        #[trigger] m0.slots@[i]) is None by {
                            assert(mid.slots@[i] == m0.slots@[i]);
                        }
                        assert(mid.slots@[b as int] is None);
                        assert(!leaf.used());
                        assert forall|i: int| 0 <= i < TABLE_SLOTS && i != c implies (
                        #[trigger] l0.slots@[i]) is None by {
                            assert(leaf.slots@[i] == l0.slots@[i]);
                        }
                    },
                    Some(m) => {
                        assert(m == mid);
                        assert forall|i: int|
                            0 <= i < TABLE_SLOTS && i != b implies #[trigger] mid.slots@[i]
                            == m0.slots@[i] by {}
                        match mid.slots@[b as int] {
                            None => {
                                assert(!leaf.used());
                                assert forall|i: int| 0 <= i < TABLE_SLOTS && i != c implies (
                                #[trigger] l0.slots@[i]) is None by {
                                    assert(leaf.slots@[i] == l0.slots@[i]);
                                }
                            },
                            Some(l) => {
                                assert(l == leaf);
                                assert forall|i: int|
                                    0 <= i < TABLE_SLOTS && i != c implies #[trigger] leaf.slots@[i]
                                    == l0.slots@[i] by {}
                            },
                        }
                    },
                }
            }
            self.lemma_update_clear(*old(self), vpn);
            self.lemma_tables();
            old(mem).lemma_view_releasable(leaf.pfn as int, 0);
            mem1.lemma_view_releasable(mid.pfn as int, 0);
            assert forall|v2: int| #[trigger] self@.leaves.dom().contains(v2) implies 0 <= v2
                < 0x8000000 && pte_ok(self@, self@.leaves[v2]) by {
                assert(old(self)@.leaves.dom().contains(v2));
            }
        }
        Ok(pte)
    }

    /// Maps the `1 << order` pages from `vaddr` to the frames from `paddr`
    /// on, all of them or none.
    ///
    /// Fails, with the page table and the memory as they were, for the
    /// reason that `map_range_err` names.
    #[verifier::rlimit(50)]
    #[verifier::loop_isolation(false)]
    pub fn map_range(
        &mut self,
        mem: &mut PhysMemory,
        vaddr: Addr,
        paddr: Addr,
        order: usize,
        flags: u8,
    ) -> (r: Result<(), MmError>)
        requires
            old(self).wf(),
            old(mem).wf(),
        ensures
            final(self).wf(),
            final(mem).wf(),
            final(self)@.root == old(self)@.root,
            final(self)@.ram_start == old(self)@.ram_start,
            final(self)@.ram_end == old(self)@.ram_end,
            kept(old(mem)@, final(mem)@),
            leaves_kept(old(self)@, final(self)@),
            r is Ok ==> mapped(
                final(self)@,
                vaddr.0 as int / 4096,
                paddr.0 as int / 4096,
                flags,
                run_pages(order as nat) as int,
            ),
            match r {
                Ok(_) => {
                    &&& map_range_err(
                        old(self)@,
                        old(mem)@,
                        vaddr.0 as int,
                        paddr.0 as int,
                        order as int,
                        flags,
                    ) is None
                    &&& (PtMem { pt: final(self)@, mem: final(mem)@ }) == map_pages(
                        PtMem { pt: old(self)@, mem: old(mem)@ },
                        vaddr.0 as int / 4096,
                        paddr.0 as int / 4096,
                        flags,
                        run_pages(order as nat),
                    )
                },
                Err(e) => {
                    &&& map_range_err(
                        old(self)@,
                        old(mem)@,
                        vaddr.0 as int,
                        paddr.0 as int,
                        order as int,
                        flags,
                    ) == Some(e)
                    &&& final(self)@ == old(self)@
                    &&& final(mem)@ == old(mem)@
                },
            },
    {
        if order >= MAX_ORDER {
            return Err(MmError::OutOfRange);
        }
        proof {
            lemma_shift_run_pages(order);
            lemma_run_pages_values();
            lemma_run_pages_mono(order as nat, 10);
            lemma_run_pages_pos(order as nat);
        }
        let n: usize = 1usize << order;
        let bytes: usize = 4096 * n;
        if vaddr.0 % bytes != 0 || paddr.0 % bytes != 0 {
            return Err(MmError::Misaligned);
        }
        if flags & 14 == 0 {
            return Err(MmError::InvalidFlags);
        }
        let pfn0: usize = paddr.0 / 4096;
        if vaddr.0 > usize::MAX - bytes || paddr.0 > usize::MAX - bytes || pfn0 == 0 || pfn0
            < self.ram_start || pfn0 > self.ram_end || self.ram_end - pfn0 < n {
            return Err(MmError::OutOfRange);
        }
        let ghost base = vaddr.0 as int / 4096;
        let ghost s0 = PtMem { pt: old(self)@, mem: old(mem)@ };
        let mut i: usize = 0;
        while i < n
            invariant
                i <= n,
                n >= 1,
                bytes == 4096 * n,
                vaddr.0 + bytes <= usize::MAX,
                vaddr.0 % bytes == 0,
                base == vaddr.0 as int / 4096,
                self.wf(),
                *self == *old(self),
                mem.wf(),
                *mem == *old(mem),
                forall|j: int| 0 <= j < i ==> !self@.leaves.dom().contains(#[trigger] page_vpn(base, j)),
            decreases n - i,
        {
            proof {
                lemma_page_of(vaddr.0 as int, n as int, i as int);
            }
            if self.walk(Addr(vaddr.0 + i * 4096)).is_some() {
                return Err(MmError::AlreadyMapped);
            }
            i += 1;
        }
        proof {
            old(mem).lemma_view_wf();
            assert(range_ok(s0, base, pfn0 as int, flags, n as nat));
        }
        i = 0;
        while i < n
            invariant
                i <= n,
                1 <= n <= 1024,
                n == run_pages(order as nat),
                bytes == 4096 * n,
                vaddr.0 + bytes <= usize::MAX,
                paddr.0 + bytes <= usize::MAX,
                vaddr.0 % bytes == 0,
                paddr.0 % bytes == 0,
                base == vaddr.0 as int / 4096,
                pfn0 == paddr.0 / 4096,
                s0 == (PtMem { pt: old(self)@, mem: old(mem)@ }),
                self@.root == old(self)@.root,
                self@.ram_start == old(self)@.ram_start,
                self@.ram_end == old(self)@.ram_end,
                range_ok(s0, base, pfn0 as int, flags, n as nat),
                self.wf(),
                mem.wf(),
                (PtMem { pt: self@, mem: mem@ }) == map_pages(
                    s0,
                    base,
                    pfn0 as int,
                    flags,
                    i as nat,
                ),
                map_pages_fit(s0, base, pfn0 as int, flags, i as nat),
            decreases n - i,
        {
            let ghost cur = PtMem { pt: self@, mem: mem@ };
            proof {
                lemma_page_of(vaddr.0 as int, n as int, i as int);
                lemma_page_of(paddr.0 as int, n as int, i as int);
                lemma_map_pages(s0, base, pfn0 as int, flags, n as nat, i as nat);
                assert(!cur.pt.leaves.dom().contains(page_vpn(base, i as int))) by {
                    if cur.pt.leaves.dom().contains(page_vpn(base, i as int)) {
                        let j = choose|j: int|
                            0 <= j < i && page_vpn(base, i as int) == #[trigger] page_vpn(base, j);
                        lemma_page_vpn(base, j, i as int);
                    }
                }
            }
            let res = self.map_one(mem, Addr(vaddr.0 + i * 4096), Addr(paddr.0 + i * 4096), flags);
            match res {
                Ok(_) => {
                    proof {
                        assert(map_one_fits(cur, page_vpn(base, i as int)));
                    }
                    i += 1;
                },
                Err(e) => {
                    proof {
                        assert(e == MmError::OutOfMemory);
                        assert(!map_one_fits(cur, page_vpn(base, i as int)));
                        if map_pages_fit(s0, base, pfn0 as int, flags, n as nat) {
                            lemma_map_pages_fit_prefix(
                                s0,
                                base,
                                pfn0 as int,
                                flags,
                                n as nat,
                                (i + 1) as nat,
                            );
                        }
                    }
                    let mut j: usize = i;
                    while j > 0
                        invariant
                            j <= i < n,
                            1 <= n <= 1024,
                            bytes == 4096 * n,
                            vaddr.0 + bytes <= usize::MAX,
                            vaddr.0 % bytes == 0,
                            base == vaddr.0 as int / 4096,
                            self@.root == old(self)@.root,
                            self@.ram_start == old(self)@.ram_start,
                            self@.ram_end == old(self)@.ram_end,
                            range_ok(s0, base, pfn0 as int, flags, n as nat),
                            map_pages_fit(s0, base, pfn0 as int, flags, i as nat),
                            self.wf(),
                            mem.wf(),
                            (PtMem { pt: self@, mem: mem@ }) == map_pages(
                                s0,
                                base,
                                pfn0 as int,
                                flags,
                                j as nat,
                            ),
                        decreases j,
                    {
                        j -= 1;
                        proof {
                            lemma_page_of(vaddr.0 as int, n as int, j as int);
                            lemma_map_pages_fit_prefix(
                                s0,
                                base,
                                pfn0 as int,
                                flags,
                                i as nat,
                                (j + 1) as nat,
                            );
                            lemma_map_pages_fit_prefix(
                                s0,
                                base,
                                pfn0 as int,
                                flags,
                                i as nat,
                                j as nat,
                            );
                            lemma_map_pages(s0, base, pfn0 as int, flags, n as nat, (j + 1) as nat);
                            lemma_map_pages(s0, base, pfn0 as int, flags, n as nat, j as nat);
                            let p = map_pages(s0, base, pfn0 as int, flags, j as nat);
                            let vpn = page_vpn(base, j as int);
                            assert(!p.pt.leaves.dom().contains(vpn)) by {
                                if p.pt.leaves.dom().contains(vpn) {
                                    let z = choose|z: int|
                                        0 <= z < j && vpn == #[trigger] page_vpn(base, z);
                                    lemma_page_vpn(base, z, j as int);
                                }
                            }
                            lemma_map_unmap_one(p, vpn, page_pte(pfn0 as int, flags, j as int));
                        }
                        let u = self.unmap_one(mem, Addr(vaddr.0 + j * 4096));
                        proof {
                            assert(u is Ok);
                        }
                    }
                    return Err(MmError::OutOfMemory);
                },
            }
        }
        proof {
            lemma_map_pages_keeps(s0, base, pfn0 as int, flags, n as nat, n as nat);
            lemma_map_pages(s0, base, pfn0 as int, flags, n as nat, n as nat);
        }
        Ok(())
    }

    /// Unmaps the `1 << order` pages from `vaddr`, from the highest down,
    /// and frees each table that is left without an entry.
    ///
    /// Fails, with nothing changed, for the reason that `unmap_range_err`
    /// names.
    #[verifier::loop_isolation(false)]
    pub fn unmap_range(&mut self, mem: &mut PhysMemory, vaddr: Addr, order: usize) -> (r: Result<
        (),
        MmError,
    >)
        requires
            old(self).wf(),
            old(mem).wf(),
        ensures
            final(self).wf(),
            final(mem).wf(),
            final(self)@.root == old(self)@.root,
            final(self)@.ram_start == old(self)@.ram_start,
            final(self)@.ram_end == old(self)@.ram_end,
            match r {
                Ok(_) => {
                    &&& unmap_range_err(old(self)@, vaddr.0 as int, order as int) is None
                    &&& (PtMem { pt: final(self)@, mem: final(mem)@ }) == unmap_pages(
                        PtMem { pt: old(self)@, mem: old(mem)@ },
                        vaddr.0 as int / 4096,
                        run_pages(order as nat),
                    )
                },
                Err(e) => {
                    &&& unmap_range_err(old(self)@, vaddr.0 as int, order as int) == Some(e)
                    &&& final(self)@ == old(self)@
                    &&& final(mem)@ == old(mem)@
                },
            },
    {
        if order >= MAX_ORDER {
            return Err(MmError::OutOfRange);
        }
        proof {
            lemma_shift_run_pages(order);
            lemma_run_pages_values();
            lemma_run_pages_mono(order as nat, 10);
            lemma_run_pages_pos(order as nat);
        }
        let n: usize = 1usize << order;
        let bytes: usize = 4096 * n;
        if vaddr.0 % bytes != 0 {
            return Err(MmError::Misaligned);
        }
        if vaddr.0 > usize::MAX - bytes {
            return Err(MmError::OutOfRange);
        }
        let ghost base = vaddr.0 as int / 4096;
        let ghost s0 = PtMem { pt: old(self)@, mem: old(mem)@ };
        let mut i: usize = 0;
        while i < n
            invariant
                i <= n,
                n >= 1,
                bytes == 4096 * n,
                vaddr.0 + bytes <= usize::MAX,
                vaddr.0 % bytes == 0,
                base == vaddr.0 as int / 4096,
                self.wf(),
                *self == *old(self),
                mem.wf(),
                *mem == *old(mem),
                forall|j: int| 0 <= j < i ==> self@.leaves.dom().contains(#[trigger] page_vpn(base, j)),
            decreases n - i,
        {
            proof {
                lemma_page_of(vaddr.0 as int, n as int, i as int);
            }
            if self.walk(Addr(vaddr.0 + i * 4096)).is_none() {
                return Err(MmError::NotMapped);
            }
            i += 1;
        }
        let mut j: usize = n;
        while j > 0
            invariant
                j <= n,
                1 <= n <= 1024,
                bytes == 4096 * n,
                vaddr.0 + bytes <= usize::MAX,
                vaddr.0 % bytes == 0,
                base == vaddr.0 as int / 4096,
                self@.root == old(self)@.root,
                self@.ram_start == old(self)@.ram_start,
                self@.ram_end == old(self)@.ram_end,
                self.wf(),
                mem.wf(),
                forall|z: int| 0 <= z < j ==> self@.leaves.dom().contains(#[trigger] page_vpn(base, z)),
                unmap_pages(s0, base, n as nat) == unmap_pages(
                    PtMem { pt: self@, mem: mem@ },
                    base,
                    j as nat,
                ),
            decreases j,
        {
            j -= 1;
            proof {
                lemma_page_of(vaddr.0 as int, n as int, j as int);
                assert(self@.leaves.dom().contains(page_vpn(base, j as int)));
            }
            let ghost before = self@;
            let u = self.unmap_one(mem, Addr(vaddr.0 + j * 4096));
            proof {
                assert(u is Ok);
                assert forall|z: int| 0 <= z < j implies self@.leaves.dom().contains(
                    #[trigger] page_vpn(base, z),
                ) by {
                    assert(before.leaves.dom().contains(page_vpn(base, z)));
                    lemma_page_vpn(base, z, j as int);
                }
            }
        }
        Ok(())
    }

    /// Unmaps those of the `1 << order` pages from `vaddr` that are mapped,
    /// from the highest down, and frees each table that is left without an
    /// entry.  This is `unmap_range` for the caller who accepts a range with
    /// holes.
    ///
    /// Fails, with nothing changed, with `OutOfRange` for an order that is
    /// none and for a range that leaves the address space, and with
    /// `Misaligned` for an address that is not aligned to the size of the
    /// range.
    #[verifier::loop_isolation(false)]
    pub fn unmap_range_mapped(&mut self, mem: &mut PhysMemory, vaddr: Addr, order: usize) -> (r:
        Result<(), MmError>)
        requires
            old(self).wf(),
            old(mem).wf(),
        ensures
            final(self).wf(),
            final(mem).wf(),
            final(self)@.root == old(self)@.root,
            final(self)@.ram_start == old(self)@.ram_start,
            final(self)@.ram_end == old(self)@.ram_end,
            match r {
                Ok(_) => {
                    &&& order < MAX_ORDER
                    &&& vaddr.0 as int % (4096 * (run_pages(order as nat) as int)) == 0
                    &&& vaddr.0 + 4096 * run_pages(order as nat) <= usize::MAX
                    &&& (PtMem { pt: final(self)@, mem: final(mem)@ }) == unmap_mapped_pages(
                        PtMem { pt: old(self)@, mem: old(mem)@ },
                        vaddr.0 as int / 4096,
                        run_pages(order as nat),
                    )
                },
                Err(e) => {
                    &&& e == (if order >= MAX_ORDER {
                        MmError::OutOfRange
                    } else if vaddr.0 as int % (4096 * (run_pages(order as nat) as int)) != 0 {
                        MmError::Misaligned
                    } else {
                        MmError::OutOfRange
                    })
                    &&& order >= MAX_ORDER || vaddr.0 as int % (4096 * (run_pages(order as nat) as int)) != 0
                        || vaddr.0 + 4096 * run_pages(order as nat) > usize::MAX
                    &&& final(self)@ == old(self)@
                    &&& final(mem)@ == old(mem)@
                },
            },
    {
        if order >= MAX_ORDER {
            return Err(MmError::OutOfRange);
        }
        proof {
            lemma_shift_run_pages(order);
            lemma_run_pages_values();
            lemma_run_pages_mono(order as nat, 10);
            lemma_run_pages_pos(order as nat);
        }
        let n: usize = 1usize << order;
        let bytes: usize = 4096 * n;
        if vaddr.0 % bytes != 0 {
            return Err(MmError::Misaligned);
        }
        if vaddr.0 > usize::MAX - bytes {
            return Err(MmError::OutOfRange);
        }
        let ghost base = vaddr.0 as int / 4096;
        let ghost s0 = PtMem { pt: old(self)@, mem: old(mem)@ };
        let mut j: usize = n;
        while j > 0
            invariant
                j <= n,
                self.wf(),
                mem.wf(),
                self@.root == old(self)@.root,
                self@.ram_start == old(self)@.ram_start,
                self@.ram_end == old(self)@.ram_end,
                unmap_mapped_pages(s0, base, n as nat) == unmap_mapped_pages(
                    PtMem { pt: self@, mem: mem@ },
                    base,
                    j as nat,
                ),
            decreases j,
        {
            j -= 1;
            proof {
                lemma_page_of(vaddr.0 as int, n as int, j as int);
            }
            let _ = self.unmap_one(mem, Addr(vaddr.0 + j * 4096));
        }
        Ok(())
    }

    /// The value of the `satp` register that makes this page table the
    /// active one: mode Sv39, address space 0, and the frame of the root
    /// table.
    pub fn satp(&self) -> (r: u64)
        requires
            self@.root < 0x100000000000,
        ensures
            r == 0x8000000000000000 + self@.root,
    {
        0x8000000000000000u64 + self.root as u64
    }

    /// The frame of the level-1 table that stands in slot `a` of the root
    /// table, if one does.
    pub fn mid_frame(&self, a: usize) -> (r: Option<PFN>)
        requires
            self.wf(),
        ensures
            match r {
                Some(p) => self@.mids.dom().contains(a as int) && self@.mids[a as int] == p.0,
                None => !self@.mids.dom().contains(a as int),
            },
    {
        if a >= TABLE_SLOTS {
            return None;
        }
        match &self.slots[a] {
            None => None,
            Some(mid) => Some(PFN(mid.pfn)),
        }
    }

    /// The frame of the level-0 table for the page of `vaddr`, if there is
    /// one.
    pub fn low_frame(&self, vaddr: Addr) -> (r: Option<PFN>)
        requires
            self.wf(),
        ensures
            match r {
                Some(p) => self@.lows.dom().contains(vpn_of(vaddr.0 as int) / 512)
                    && self@.lows[vpn_of(vaddr.0 as int) / 512] == p.0,
                None => !self@.lows.dom().contains(vpn_of(vaddr.0 as int) / 512),
            },
    {
        let a = addr_get_ppn2(vaddr.0);
        let b = addr_get_ppn1(vaddr.0);
        proof {
            lemma_indices(vaddr.0);
            let vpn = vpn_of(vaddr.0 as int);
            let t = vpn / 512;
            assert(t / 512 == vpn / 0x40000);
            assert(t / 512 == a && t % 512 == b);
        }
        match &self.slots[a] {
            None => None,
            Some(mid) => match &mid.slots[b] {
                None => None,
                Some(leaf) => Some(PFN(leaf.pfn)),
            },
        }
    }

    /// Frame of the root table.
    pub fn root_pfn(&self) -> (r: PFN)
        ensures
            r.0 == self@.root,
    {
        PFN(self.root)
    }

    /// The frame and flags that the page of `vaddr` maps to, if it is mapped.
    pub fn walk(&self, vaddr: Addr) -> (r: Option<(PFN, u8)>)
        requires
            self.wf(),
        ensures
            match r {
                Some((pfn, flags)) => self@.leaves.dom().contains(vpn_of(vaddr.0 as int))
                    && self@.leaves[vpn_of(vaddr.0 as int)] == (Pte { pfn: pfn.0, flags }),
                None => !self@.leaves.dom().contains(vpn_of(vaddr.0 as int)),
            },
    {
        let a = addr_get_ppn2(vaddr.0);
        let b = addr_get_ppn1(vaddr.0);
        let c = addr_get_ppn0(vaddr.0);
        proof {
            lemma_indices(vaddr.0);
            let vpn = vpn_of(vaddr.0 as int);
            let t = vpn / 512;
            assert(t / 512 == vpn / 0x40000);
            assert(t / 512 == a && t % 512 == b && vpn % 512 == c);
        }
        match &self.slots[a] {
            None => None,
            Some(mid) => match &mid.slots[b] {
                None => None,
                Some(leaf) => match leaf.slots[c] {
                    None => None,
                    Some(pte) => Some((PFN(pte.pfn), pte.flags)),
                },
            },
        }
    }
}

} // verus!
