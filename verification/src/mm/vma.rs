//! Virtual memory areas: a range of user addresses with its permissions, its
//! backing and the blocks that are resident in it.
use vstd::prelude::*;
use vstd::arithmetic::div_mod::{lemma_fundamental_div_mod, lemma_fundamental_div_mod_converse};
use std::collections::BTreeMap;
use crate::consts::{MAX_ORDER, PAGE_SIZE};
use crate::mm::addr::{Addr, PFN};
use crate::mm::buddy::{
    lemma_run_pages_mono, lemma_run_pages_pos, lemma_run_pages_values, lemma_shift_run_pages,
    run_pages,
};
use crate::mm::page::Page;
use crate::mm::pagetable::{
    leaves_kept, lemma_page_of, map_one_err, map_one_state, map_pages, map_range_err, mapped,
    unmap_pages, unmap_range_err, vpn_of, PageTable, PtMem, PtView, Pte,
};
use crate::mm::{
    alloc_head, alloc_ok, alloc_one_page, alloc_view, copied, copy_block, copy_block_view, drop_if,
    drop_page, kept, lemma_alloc_keeps, lemma_alloc_release_view, lemma_alloc_view_wf,
    lemma_copy_frames, write_view, MemView, MmError, PhysMemory,
};

verus! {

/// No flag.
pub const VM_NONE: usize = 0;

/// The area can be read.
pub const VM_READ: usize = 1;

/// The area can be written.
pub const VM_WRITE: usize = 2;

/// The area can be executed.
pub const VM_EXEC: usize = 4;

/// The area belongs to user space.
pub const VM_USER: usize = 8;

/// The area is shared.
pub const VM_SHARD: usize = 16;

/// The area is anonymous: no file backs it.
pub const VM_ANON: usize = 32;

/// A writeable page of the area has been faulted in.
pub const VM_DIRTY: usize = 64;

/// Flags of an area, as bits.
#[derive(Copy, Clone, Debug, PartialEq, Eq, Structural)]
pub struct VmFlags {
    /// The bits.
    pub bits: usize,
}

impl VmFlags {
    /// Every bit of `flag` is set.
    pub open spec fn has(self, flag: usize) -> bool {
        self.bits & flag == flag
    }

    /// Whether every bit of `flag` is set.
    pub fn contains(&self, flag: usize) -> (r: bool)
        ensures
            r == self.has(flag),
    {
        self.bits & flag == flag
    }

    /// Sets or clears the bits of `flag`.
    pub fn set(&mut self, flag: usize, on: bool)
        ensures
            final(self).bits == (if on {
                old(self).bits | flag
            } else {
                old(self).bits & !flag
            }),
    {
        if on {
            self.bits = self.bits | flag;
        } else {
            self.bits = self.bits & !flag;
        }
    }
}

/// The mapping is of a file.
pub const MAP_FILE: usize = 0;

/// Changes are shared.
pub const MAP_SHARED: usize = 0x01;

/// Changes are private.
pub const MAP_PRIVATE: usize = 0x02;

/// The address is to be taken as given.
pub const MAP_FIXED: usize = 0x10;

/// The mapping is anonymous.
pub const MAP_ANONYMOUS: usize = 0x20;

/// Flags of an `mmap` request, as bits.
#[derive(Copy, Clone, Debug, PartialEq, Eq, Structural)]
pub struct MmapFlags {
    /// The bits.
    pub bits: usize,
}

/// Pages may be read.
pub const PROT_READ: usize = 0x1;

/// Pages may be written.
pub const PROT_WRITE: usize = 0x2;

/// Pages may be executed.
pub const PROT_EXEC: usize = 0x4;

/// Pages may be used for atomic operations.
pub const PROT_SEM: usize = 0x8;

/// Pages may not be accessed.
pub const PROT_NONE: usize = 0x0;

/// The protection reaches down to the start of a mapping that grows down.
pub const PROT_GROWSDOWN: usize = 0x01000000;

/// The protection reaches up to the end of a mapping that grows up.
pub const PROT_GROWSUP: usize = 0x02000000;

/// Protection of an `mmap` request, as bits.
#[derive(Copy, Clone, Debug, PartialEq, Eq, Structural)]
pub struct MmapProt {
    /// The bits.
    pub bits: usize,
}

/// The flags of the leaf for a page of an area with the given flag bits:
/// valid, the area's read, write and execute permissions, and open to user
/// mode for a user area.
pub open spec fn pte_flags_of(bits: usize) -> u8 {
    ((((bits & 7) << 1) | 1) | (if bits & 8 == 8 {
        16usize
    } else {
        0usize
    })) as u8
}

/// What `pte_flags_of` gives, bit by bit.
pub proof fn lemma_pte_flags(bits: usize)
    by (bit_vector)
    ensures
        pte_flags_of(bits) & 1 == 1,
        (pte_flags_of(bits) & 2 == 2) == (bits & 1 == 1),
        (pte_flags_of(bits) & 4 == 4) == (bits & 2 == 2),
        (pte_flags_of(bits) & 8 == 8) == (bits & 4 == 4),
        (pte_flags_of(bits) & 16 == 16) == (bits & 8 == 8),
        pte_flags_of(bits) & 0xe0 == 0,
        (pte_flags_of(bits) & 14 != 0) == (bits & 7 != 0),
        pte_flags_of(bits) | 1 == pte_flags_of(bits),
{
}

/// The flags of the leaf for a page of an area with flags `f`.
pub fn _vma_flags_2_pte_flags(f: VmFlags) -> (r: u8)
    ensures
        r == pte_flags_of(f.bits),
{
    let bits = f.bits;
    let low: usize = ((bits & 7) << 1) | 1;
    let user: usize = if bits & 8 == 8 {
        16
    } else {
        0
    };
    proof {
        assert((((bits & 7) << 1) | 1) | 16 < 256 && (((bits & 7) << 1) | 1) | 0 < 256)
            by (bit_vector);
    }
    (low | user) as u8
}

/// The file that backs an area, by its number.
#[derive(Copy, Clone, Debug, PartialEq, Eq, Structural)]
pub struct Inode {
    /// The inode number.
    pub ino: usize,
}

/// Bytes in a run of the given order.
pub open spec fn span_bytes(order: int) -> int {
    4096 * (run_pages(order as nat) as int)
}

/// The multiple of `m` at or below `v` is the one multiple of `m` that is
/// at most `v` and more than `v - m`.
pub proof fn lemma_floor_unique(v: int, key: int, m: int)
    requires
        m > 0,
        key % m == 0,
        key <= v < key + m,
    ensures
        v - v % m == key,
{
    lemma_fundamental_div_mod(key, m);
    let q = key / m;
    assert(v == q * m + (v - key)) by (nonlinear_arith)
        requires
            key == m * q + 0,
    ;
    lemma_fundamental_div_mod_converse(v, m, q, v - key);
}

/// The multiple of `m` at or below `v`.
pub proof fn lemma_floor_aligned(v: int, m: int)
    requires
        m > 0,
        0 <= v,
    ensures
        (v - v % m) % m == 0,
        0 <= v - v % m <= v < v - v % m + m,
{
    lemma_fundamental_div_mod(v, m);
    let q = v / m;
    assert(v - v % m == q * m + 0) by (nonlinear_arith)
        requires
            v == m * q + v % m,
    ;
    lemma_fundamental_div_mod_converse(v - v % m, m, q, 0);
}

/// Bytes in a run of an order that is one: `4096 << order`, at most 4 MiB.
fn span_of(order: usize) -> (r: usize)
    requires
        order < MAX_ORDER,
    ensures
        r == span_bytes(order as int),
        4096 <= r <= 0x400000,
        r % 4096 == 0,
{
    proof {
        lemma_shift_run_pages(order);
        lemma_run_pages_values();
        lemma_run_pages_mono(order as nat, 10);
        lemma_run_pages_pos(order as nat);
    }
    PAGE_SIZE * (1usize << order)
}

/// A virtual memory area.
#[derive(Debug)]
pub struct VMA {
    start_vaddr: Addr,
    end_vaddr: Addr,
    /// The area's flags.
    pub vm_flags: VmFlags,
    pages_tree: BTreeMap<usize, Page>,
    /// The page table that the area's pages are mapped in, by the frame of
    /// its root table.
    pub pagetable: PFN,
    /// The file that backs the area, if one does.
    pub file: Option<Inode>,
    /// Offset in the file of the area's first byte.
    pub file_off: usize,
}

impl VMA {
    /// First address of the area.
    pub closed spec fn spec_start(&self) -> int {
        self.start_vaddr.0 as int
    }

    /// One past the last address of the area.
    pub closed spec fn spec_end(&self) -> int {
        self.end_vaddr.0 as int
    }

    /// The resident blocks, by the address of their first page.
    pub closed spec fn resident(&self) -> Map<usize, Page> {
        self.pages_tree@
    }

    /// The area's flags.
    pub closed spec fn flags(&self) -> VmFlags {
        self.vm_flags
    }

    /// The file that backs the area, if one does.
    pub closed spec fn backing(&self) -> Option<Inode> {
        self.file
    }

    /// Offset in the file of the area's first byte.
    pub closed spec fn backing_off(&self) -> int {
        self.file_off as int
    }

    /// Frame of the root table of the area's page table.
    pub closed spec fn table_root(&self) -> int {
        self.pagetable.0 as int
    }

    /// The block `pg` at `va` is aligned to its size and lies inside the
    /// area.
    pub open spec fn block_fits(&self, va: usize, pg: Page) -> bool {
        let k = pg.spec_order();
        &&& 0 <= k < MAX_ORDER
        &&& (va as int) % span_bytes(k) == 0
        &&& self.spec_start() <= va
        &&& va + span_bytes(k) <= self.spec_end()
    }

    /// Address `v` lies in the resident block at `va`.
    pub open spec fn covers(&self, va: usize, v: int) -> bool {
        self.resident().contains_key(va) && va <= v < va + span_bytes(
            self.resident()[va].spec_order(),
        )
    }

    /// The area's invariant: page-aligned bounds; every resident block
    /// aligned to its size and inside the area; no two resident blocks
    /// overlapping; a file behind every area that is not anonymous; and the
    /// dirty flag only on an area that can be written.
    pub open spec fn wf(&self) -> bool {
        &&& self.spec_start() % 4096 == 0
        &&& self.spec_end() % 4096 == 0
        &&& self.spec_start() <= self.spec_end()
        &&& forall|va: usize| #[trigger]
            self.resident().contains_key(va) ==> self.block_fits(va, self.resident()[va])
        &&& forall|a: usize, b: usize|
            #[trigger] self.resident().contains_key(a) && #[trigger] self.resident().contains_key(b)
                && a != b ==> a + span_bytes(self.resident()[a].spec_order()) <= b || b
                + span_bytes(self.resident()[b].spec_order()) <= a
        &&& !self.flags().has(VM_ANON) ==> self.backing() is Some
        &&& self.flags().has(VM_DIRTY) ==> self.flags().has(VM_WRITE)
    }

    /// An area from `start_vaddr` to `end_vaddr` with the given flags and
    /// backing, mapped in the page table with root frame `pagetable`, and
    /// with no page resident.
    pub fn new(
        start_vaddr: Addr,
        end_vaddr: Addr,
        vm_flags: VmFlags,
        pagetable: PFN,
        file: Option<Inode>,
        file_off: usize,
    ) -> (r: Self)
        requires
            start_vaddr.0 % 4096 == 0,
            end_vaddr.0 % 4096 == 0,
            start_vaddr.0 <= end_vaddr.0,
            !vm_flags.has(VM_ANON) ==> file is Some,
            vm_flags.has(VM_DIRTY) ==> vm_flags.has(VM_WRITE),
        ensures
            r.wf(),
            r.spec_start() == start_vaddr.0,
            r.spec_end() == end_vaddr.0,
            r.flags() == vm_flags,
            r.table_root() == pagetable.0,
            r.backing() == file,
            r.backing_off() == file_off,
            r.resident() == Map::<usize, Page>::empty(),
    {
        VMA {
            start_vaddr,
            end_vaddr,
            vm_flags,
            pages_tree: BTreeMap::new(),
            pagetable,
            file,
            file_off,
        }
    }

    /// An anonymous area without a permission and without a resident page.
    pub fn empty(start_addr: Addr, end_vaddr: Addr, pagetable: PFN) -> (r: Self)
        requires
            start_addr.0 % 4096 == 0,
            end_vaddr.0 % 4096 == 0,
            start_addr.0 <= end_vaddr.0,
        ensures
            r.wf(),
            r.spec_start() == start_addr.0,
            r.spec_end() == end_vaddr.0,
            r.flags().bits == VM_ANON,
            r.table_root() == pagetable.0,
            r.backing() is None,
            r.backing_off() == 0,
            r.resident() == Map::<usize, Page>::empty(),
    {
        proof {
            assert(32usize & 32usize == 32usize && 32usize & 64usize != 64usize) by (bit_vector);
        }
        VMA::new(start_addr, end_vaddr, VmFlags { bits: VM_ANON }, pagetable, None, 0)
    }

    /// An anonymous area: `vm_flags` with the anonymous flag added.
    pub fn new_anon(start_vaddr: Addr, end_vaddr: Addr, vm_flags: VmFlags, pagetable: PFN) -> (r:
        Self)
        requires
            start_vaddr.0 % 4096 == 0,
            end_vaddr.0 % 4096 == 0,
            start_vaddr.0 <= end_vaddr.0,
            vm_flags.has(VM_DIRTY) ==> vm_flags.has(VM_WRITE),
        ensures
            r.wf(),
            r.spec_start() == start_vaddr.0,
            r.spec_end() == end_vaddr.0,
            r.flags().bits == vm_flags.bits | VM_ANON,
            r.table_root() == pagetable.0,
            r.backing() is None,
            r.backing_off() == 0,
            r.resident() == Map::<usize, Page>::empty(),
    {
        let bits = vm_flags.bits;
        proof {
            assert((bits | 32usize) & 32usize == 32usize && (bits | 32usize) & 64usize == bits
                & 64usize && (bits | 32usize) & 2usize == bits & 2usize) by (bit_vector);
        }
        VMA::new(start_vaddr, end_vaddr, VmFlags { bits: bits | VM_ANON }, pagetable, None, 0)
    }

    /// An area backed by the file `file` from offset `file_off` on:
    /// `vm_flags` without the anonymous flag.
    pub fn new_file(
        start_vaddr: Addr,
        end_vaddr: Addr,
        vm_flags: VmFlags,
        pagetable: PFN,
        file: Inode,
        file_off: usize,
    ) -> (r: Self)
        requires
            start_vaddr.0 % 4096 == 0,
            end_vaddr.0 % 4096 == 0,
            start_vaddr.0 <= end_vaddr.0,
            vm_flags.has(VM_DIRTY) ==> vm_flags.has(VM_WRITE),
        ensures
            r.wf(),
            r.spec_start() == start_vaddr.0,
            r.spec_end() == end_vaddr.0,
            r.flags().bits == vm_flags.bits & !VM_ANON,
            r.table_root() == pagetable.0,
            r.backing() == Some(file),
            r.backing_off() == file_off,
            r.resident() == Map::<usize, Page>::empty(),
    {
        let bits = vm_flags.bits;
        proof {
            assert((bits & !32usize) & 64usize == bits & 64usize && (bits & !32usize) & 2usize
                == bits & 2usize) by (bit_vector);
        }
        VMA::new(
            start_vaddr,
            end_vaddr,
            VmFlags { bits: bits & !VM_ANON },
            pagetable,
            Some(file),
            file_off,
        )
    }

    /// Whether no file backs the area.
    pub fn is_anon(&self) -> (r: bool)
        ensures
            r == self.flags().has(VM_ANON),
    {
        self.vm_flags.contains(VM_ANON)
    }

    /// Whether a file backs the area.
    pub fn is_file(&self) -> (r: bool)
        ensures
            r == !self.flags().has(VM_ANON),
    {
        !self.is_anon()
    }

    /// Whether the area can be read.
    pub fn readable(&self) -> (r: bool)
        ensures
            r == self.flags().has(VM_READ),
    {
        self.vm_flags.contains(VM_READ)
    }

    /// Whether the area can be written.
    pub fn writeable(&self) -> (r: bool)
        ensures
            r == self.flags().has(VM_WRITE),
    {
        self.vm_flags.contains(VM_WRITE)
    }

    /// Whether the area can be executed.
    pub fn execable(&self) -> (r: bool)
        ensures
            r == self.flags().has(VM_EXEC),
    {
        self.vm_flags.contains(VM_EXEC)
    }

    /// Whether a writeable page of the area has been faulted in.
    pub fn is_dirty(&self) -> (r: bool)
        ensures
            r == self.flags().has(VM_DIRTY),
    {
        self.vm_flags.contains(VM_DIRTY)
    }

    /// First address of the area.
    pub fn get_start_vaddr(&self) -> (r: Addr)
        ensures
            r.0 == self.spec_start(),
    {
        self.start_vaddr
    }

    /// One past the last address of the area.
    pub fn get_end_vaddr(&self) -> (r: Addr)
        ensures
            r.0 == self.spec_end(),
    {
        self.end_vaddr
    }

    /// Whether `vaddr` lies in the area.
    pub fn in_vma(&self, vaddr: Addr) -> (r: bool)
        ensures
            r == (self.spec_start() <= vaddr.0 < self.spec_end()),
    {
        vaddr.0 >= self.start_vaddr.0 && vaddr.0 < self.end_vaddr.0
    }

    /// The page table that the area's pages are mapped in, by the frame of
    /// its root table.
    pub fn get_pagetable(&self) -> (r: PFN)
        ensures
            r.0 == self.table_root(),
    {
        self.pagetable
    }

    /// The area's flags.
    pub fn get_flags(&self) -> (r: VmFlags)
        ensures
            r == self.flags(),
    {
        self.vm_flags
    }

    /// The file that backs the area, if one does.
    pub fn get_file_inode(&self) -> (r: Option<Inode>)
        ensures
            r == self.backing(),
    {
        self.file
    }

    /// The number of resident blocks.
    pub fn resident_count(&self) -> (r: usize)
        ensures
            r == self.resident().dom().len(),
    {
        self.pages_tree.len()
    }

    /// Offset in the file of the area's first byte.
    pub fn get_file_off(&self) -> (r: usize)
        ensures
            r == self.backing_off(),
    {
        self.file_off
    }

    /// Whether a resident block starts at `vaddr`.
    pub fn _vaddr_have_map(&self, vaddr: Addr) -> (r: bool)
        ensures
            r == self.resident().contains_key(vaddr.0),
    {
        self.pages_tree.contains_key(&vaddr.0)
    }

    /// The resident block that starts at `vaddr`, if one does.
    pub fn _find_page(&self, vaddr: Addr) -> (r: Option<&Page>)
        ensures
            match r {
                Some(pg) => self.resident().contains_key(vaddr.0) && *pg == self.resident()[vaddr.0],
                None => !self.resident().contains_key(vaddr.0),
            },
    {
        self.pages_tree.get(&vaddr.0)
    }

    /// The start of the resident block that `vaddr` lies in, if it lies in
    /// one.
    pub fn find_block(&self, vaddr: Addr) -> (r: Option<usize>)
        requires
            self.wf(),
        ensures
            match r {
                Some(va) => self.covers(va, vaddr.0 as int),
                None => forall|va: usize| !self.covers(va, vaddr.0 as int),
            },
    {
        let v = vaddr.0;
        let mut o: usize = 0;
        while o < MAX_ORDER
            invariant
                o <= MAX_ORDER,
                self.wf(),
                v == vaddr.0,
                forall|va: usize|
                    self.covers(va, v as int) ==> self.resident()[va].spec_order() >= o,
            decreases MAX_ORDER - o,
        {
            let span = span_of(o);
            proof {
                lemma_floor_aligned(v as int, span as int);
            }
            let key = v - v % span;
            match self.pages_tree.get(&key) {
                Some(pg) => {
                    assert(self.resident().contains_key(key));
                    assert(self.resident()[key] == *pg);
                    assert(self.block_fits(key, *pg));
                    let sp = span_of(pg.get_order());
                    if v - key < sp {
                        return Some(key);
                    }
                },
                None => {},
            }
            proof {
                assert forall|va: usize| self.covers(va, v as int) implies self.resident()[va].spec_order()
                    >= o + 1 by {
                    if self.resident()[va].spec_order() == o {
                        assert(self.block_fits(va, self.resident()[va]));
                        lemma_floor_unique(v as int, va as int, span as int);
                        assert(va == key);
                    }
                }
            }
            o += 1;
        }
        proof {
            assert forall|va: usize| !self.covers(va, v as int) by {
                if self.covers(va, v as int) {
                    assert(self.block_fits(va, self.resident()[va]));
                }
            }
        }
        None
    }
}

/// An area as contracts see it.
pub struct VmaView {
    /// First address.
    pub start: int,
    /// One past the last address.
    pub end: int,
    /// The flags.
    pub flags: VmFlags,
    /// Frame of the root table of the area's page table.
    pub root: int,
    /// The file that backs the area, if one does.
    pub file: Option<Inode>,
    /// Offset in the file of the area's first byte.
    pub file_off: int,
    /// The resident blocks, by the address of their first page.
    pub resident: Map<usize, Page>,
}

impl View for VMA {
    type V = VmaView;

    open spec fn view(&self) -> VmaView {
        VmaView {
            start: self.spec_start(),
            end: self.spec_end(),
            flags: self.flags(),
            root: self.table_root(),
            file: self.backing(),
            file_off: self.backing_off(),
            resident: self.resident(),
        }
    }
}

/// What is left to do after a fault was taken in.
#[derive(Debug, PartialEq, Eq)]
pub enum PopulateStep {
    /// Nothing: the page is resident.
    Done,
    /// The frame in `page` waits for the bytes of the file `inode` from
    /// offset `off` on: the caller reads a page of them, and hands frame and
    /// bytes to `populate_finish`.
    Read { page: Page, inode: Inode, off: usize },
}

impl VMA {
    /// Address `v` lies in a resident block.
    pub open spec fn covered(&self, v: int) -> bool {
        exists|va: usize| self.covers(va, v)
    }

    /// The flags after a page was made resident: dirty, if the area can be
    /// written.
    pub open spec fn flags_after_fault(&self) -> VmFlags {
        if self.flags().has(VM_WRITE) {
            VmFlags { bits: self.flags().bits | VM_DIRTY }
        } else {
            self.flags()
        }
    }

    /// Why the frame `pfn` cannot be installed for the page at `v`, if it
    /// cannot.
    pub open spec fn install_err(&self, pt: PtView, mem: MemView, v: int, pfn: int) -> Option<
        MmError,
    > {
        if pfn * 4096 > usize::MAX {
            Some(MmError::OutOfRange)
        } else {
            map_one_err(pt, mem, v, pfn * 4096, pte_flags_of(self.flags().bits))
        }
    }

    /// The page table and the memory after the frame `pfn` was installed
    /// for the page at `v`.
    pub open spec fn install_state(&self, pt: PtView, mem: MemView, v: int, pfn: int) -> PtMem {
        map_one_state(
            PtMem { pt, mem },
            vpn_of(v),
            Pte { pfn: pfn as usize, flags: pte_flags_of(self.flags().bits) },
        )
    }

    /// Why a fault at `v` cannot be taken in, if it cannot: an address that
    /// is not page aligned or outside the area; else, for a page that is not
    /// resident, no free frame; else what keeps the frame from being
    /// installed (anonymous area) or an offset in the file that does not fit
    /// a word (file area).
    pub open spec fn fault_err(&self, pt: PtView, mem: MemView, v: int) -> Option<MmError> {
        if v % 4096 != 0 || !(self.spec_start() <= v < self.spec_end()) {
            Some(MmError::OutOfRange)
        } else if self.covered(v) {
            None
        } else if !alloc_ok(mem, 0) {
            Some(MmError::OutOfMemory)
        } else if self.flags().has(VM_ANON) {
            self.install_err(pt, alloc_view(mem, 0), v, alloc_head(mem, 0))
        } else if self.backing_off() + (v - self.spec_start()) > usize::MAX {
            Some(MmError::OutOfRange)
        } else {
            None
        }
    }

    /// `self` is `before` with the block `pg` made resident at `v`.
    pub open spec fn is_fault_of(&self, before: VMA, v: usize, pg: Page) -> bool {
        &&& self.spec_start() == before.spec_start()
        &&& self.spec_end() == before.spec_end()
        &&& self.table_root() == before.table_root()
        &&& self.backing() == before.backing()
        &&& self.backing_off() == before.backing_off()
        &&& self.flags() == before.flags_after_fault()
        &&& self.resident() == before.resident().insert(v, pg)
    }

    /// Adding the dirty flag changes no other flag.
    proof fn lemma_dirty_keeps(bits: usize)
        by (bit_vector)
        ensures
            (bits | 64) & 32 == bits & 32,
            (bits | 64) & 7 == bits & 7,
            (bits | 64) & 8 == bits & 8,
            (bits | 64) & 1 == bits & 1,
            (bits | 64) & 2 == bits & 2,
            (bits | 64) & 4 == bits & 4,
            (bits | 64) & 64 == 64,
            (bits & !64usize) & 32 == bits & 32,
            (bits & !64usize) & 7 == bits & 7,
            (bits & !64usize) & 8 == bits & 8,
            (bits & !64usize) & 1 == bits & 1,
            (bits & !64usize) & 2 == bits & 2,
            (bits & !64usize) & 4 == bits & 4,
            (bits & !64usize) & 64 == 0,
    {
    }

    /// Installs the frame of `page` for the page at `vaddr`, which no
    /// resident block covers: maps it, records the block and marks the area
    /// dirty if it can be written.  On failure the handle is given up and
    /// nothing else changes.
    fn install(&mut self, pt: &mut PageTable, mem: &mut PhysMemory, vaddr: Addr, page: Page) -> (r:
        Result<(), MmError>)
        requires
            old(self).wf(),
            old(pt).wf(),
            old(mem).wf(),
            vaddr.0 % 4096 == 0,
            old(self).spec_start() <= vaddr.0 < old(self).spec_end(),
            !old(self).covered(vaddr.0 as int),
            page.spec_order() == 0,
            0 <= page.spec_pfn(),
        ensures
            final(self).wf(),
            final(pt).wf(),
            final(mem).wf(),
            final(pt)@.root == old(pt)@.root,
            final(pt)@.ram_start == old(pt)@.ram_start,
            final(pt)@.ram_end == old(pt)@.ram_end,
            match r {
                Ok(_) => {
                    &&& old(self).install_err(old(pt)@, old(mem)@, vaddr.0 as int, page.spec_pfn())
                        is None
                    &&& final(self).is_fault_of(*old(self), vaddr.0, page)
                    &&& (PtMem { pt: final(pt)@, mem: final(mem)@ }) == old(self).install_state(
                        old(pt)@,
                        old(mem)@,
                        vaddr.0 as int,
                        page.spec_pfn(),
                    )
                },
                Err(e) => {
                    &&& old(self).install_err(old(pt)@, old(mem)@, vaddr.0 as int, page.spec_pfn())
                        == Some(e)
                    &&& *final(self) == *old(self)
                    &&& final(pt)@ == old(pt)@
                    &&& final(mem)@ == drop_if(old(mem)@, page.spec_pfn(), 0)
                },
            },
    {
        let pfn = page.get_pfn().0;
        if pfn > usize::MAX / 4096 {
            drop_page(mem, page);
            return Err(MmError::OutOfRange);
        }
        let flags = _vma_flags_2_pte_flags(self.vm_flags);
        proof {
            lemma_pte_flags(self.vm_flags.bits);
        }
        match pt.map_one(mem, vaddr, Addr(pfn * 4096), flags) {
            Err(e) => {
                drop_page(mem, page);
                Err(e)
            },
            Ok(_) => {
                let ghost before = *self;
                self.pages_tree.insert(vaddr.0, page);
                if self.vm_flags.contains(VM_WRITE) {
                    self.vm_flags.set(VM_DIRTY, true);
                }
                proof {
                    Self::lemma_dirty_keeps(before.vm_flags.bits);
                    reveal_with_fuel(run_pages, 2);
                    assert(span_bytes(0) == 4096);
                    assert forall|va: usize| #[trigger]
                        self.resident().contains_key(va) implies self.block_fits(
                        va,
                        self.resident()[va],
                    ) by {
                        if va != vaddr.0 {
                            assert(before.resident().contains_key(va));
                            assert(before.block_fits(va, before.resident()[va]));
                        }
                    }
                    assert forall|a: usize, b: usize|
                        #[trigger] self.resident().contains_key(a)
                            && #[trigger] self.resident().contains_key(b) && a != b implies a
                        + span_bytes(self.resident()[a].spec_order()) <= b || b + span_bytes(
                        self.resident()[b].spec_order(),
                    ) <= a by {
                        if a == vaddr.0 {
                            Self::lemma_apart(&before, b, vaddr.0);
                        } else if b == vaddr.0 {
                            Self::lemma_apart(&before, a, vaddr.0);
                        } else {
                            assert(before.resident().contains_key(a));
                            assert(before.resident().contains_key(b));
                        }
                    }
                }
                Ok(())
            },
        }
    }

    /// A resident block that does not cover a page-aligned address lies
    /// apart from the page there.
    proof fn lemma_apart(before: &VMA, b: usize, v: usize)
        requires
            before.wf(),
            before.resident().contains_key(b),
            !before.covered(v as int),
            v % 4096 == 0,
        ensures
            b + span_bytes(before.resident()[b].spec_order()) <= v || v + 4096 <= b,
    {
        let k = before.resident()[b].spec_order();
        assert(before.block_fits(b, before.resident()[b]));
        assert(!before.covers(b, v as int));
        lemma_run_pages_pos(k as nat);
        lemma_page_of(b as int, run_pages(k as nat) as int, 0);
    }

    /// What a fault at `v` does: `before`, `pt0` and `mem0` are the area,
    /// the page table and the memory as they were, `after`, `pt1` and `mem1`
    /// as they are, and `r` is what `populate` returned.
    pub open spec fn fault_post(
        before: VMA,
        after: VMA,
        pt0: PtView,
        mem0: MemView,
        pt1: PtView,
        mem1: MemView,
        v: usize,
        r: Result<PopulateStep, MmError>,
    ) -> bool {
        match r {
            Err(e) => {
                &&& before.fault_err(pt0, mem0, v as int) == Some(e)
                &&& after@ == before@
                &&& pt1 == pt0
                &&& mem1 == mem0
            },
            Ok(PopulateStep::Done) => {
                &&& before.fault_err(pt0, mem0, v as int) is None
                &&& if before.covered(v as int) {
                    &&& after@ == before@
                    &&& pt1 == pt0
                    &&& mem1 == mem0
                } else {
                    &&& before.flags().has(VM_ANON)
                    &&& after.resident().contains_key(v)
                    &&& after.resident()[v].spec_pfn() == alloc_head(mem0, 0)
                    &&& after.resident()[v].spec_order() == 0
                    &&& after.is_fault_of(
                        before,
                        v,
                        after.resident()[v],
                    )
                    &&& (PtMem { pt: pt1, mem: mem1 }) == before.install_state(
                        pt0,
                        alloc_view(mem0, 0),
                        v as int,
                        alloc_head(mem0, 0),
                    )
                }
            },
            Ok(PopulateStep::Read { page, inode, off }) => {
                &&& before.fault_err(pt0, mem0, v as int) is None
                &&& !before.covered(v as int)
                &&& !before.flags().has(VM_ANON)
                &&& page.spec_pfn() == alloc_head(mem0, 0)
                &&& page.spec_order() == 0
                &&& Some(inode) == before.backing()
                &&& off == before.backing_off() + (v - before.spec_start())
                &&& after@ == before@
                &&& pt1 == pt0
                &&& mem1 == alloc_view(mem0, 0)
            },
        }
    }

    /// Takes in a fault at `vaddr`.
    ///
    /// Nothing happens where a resident block covers the address.  Else a
    /// zeroed frame is allocated.  In an anonymous area it is installed at
    /// once: mapped with the area's permissions and recorded as resident,
    /// and the area becomes dirty if it can be written.  In a file area the
    /// frame is handed back in `PopulateStep::Read` with the file and the
    /// offset to read from, and `populate_finish` installs it.
    ///
    /// Fails for the reason that `fault_err` names, with the area, the page
    /// table and the memory as they were.
    pub fn populate(&mut self, pt: &mut PageTable, mem: &mut PhysMemory, vaddr: Addr) -> (r:
        Result<PopulateStep, MmError>)
        requires
            old(self).wf(),
            old(pt).wf(),
            old(mem).wf(),
        ensures
            final(self).wf(),
            final(pt).wf(),
            final(mem).wf(),
            final(pt)@.root == old(pt)@.root,
            final(pt)@.ram_start == old(pt)@.ram_start,
            final(pt)@.ram_end == old(pt)@.ram_end,
            Self::fault_post(
                *old(self),
                *final(self),
                old(pt)@,
                old(mem)@,
                final(pt)@,
                final(mem)@,
                vaddr.0,
                r,
            ),
    {
        if vaddr.0 % 4096 != 0 || !self.in_vma(vaddr) {
            return Err(MmError::OutOfRange);
        }
        if self.find_block(vaddr).is_some() {
            return Ok(PopulateStep::Done);
        }
        proof {
            assert(!self.covered(vaddr.0 as int));
            mem.lemma_view_wf();
        }
        let page = match alloc_one_page(mem) {
            None => {
                return Err(MmError::OutOfMemory);
            },
            Some(pg) => pg,
        };
        proof {
            lemma_alloc_view_wf(old(mem)@, 0);
            lemma_alloc_release_view(old(mem)@, 0);
        }
        if self.is_anon() {
            match self.install(pt, mem, vaddr, page) {
                Ok(_) => Ok(PopulateStep::Done),
                Err(e) => Err(e),
            }
        } else {
            let delta = vaddr.0 - self.start_vaddr.0;
            if self.file_off > usize::MAX - delta {
                drop_page(mem, page);
                return Err(MmError::OutOfRange);
            }
            Ok(PopulateStep::Read { page, inode: self.file.unwrap(), off: self.file_off + delta })
        }
    }
}

/// The state after the `1 << order` pages from `vaddr` were unmapped, where
/// they can be; else the state as it is.
pub open spec fn unmap_range_state(s: PtMem, vaddr: int, order: int) -> PtMem {
    if unmap_range_err(s.pt, vaddr, order) is None {
        unmap_pages(s, vaddr / 4096, run_pages(order as nat))
    } else {
        s
    }
}

/// A page of bytes that is to be written to a file.
#[derive(Debug, PartialEq, Eq)]
pub struct WriteBack {
    /// The file.
    pub inode: Inode,
    /// Offset in the file of the first byte.
    pub off: usize,
    /// The bytes.
    pub data: Vec<u8>,
}

/// A write-back as contracts see it.
pub struct WbView {
    /// The file.
    pub inode: Inode,
    /// Offset in the file of the first byte.
    pub off: int,
    /// The bytes.
    pub data: Seq<u8>,
}

impl View for WriteBack {
    type V = WbView;

    open spec fn view(&self) -> WbView {
        WbView { inode: self.inode, off: self.off as int, data: self.data@ }
    }
}

/// The views of a list of write-backs.
pub open spec fn wb_views(v: Seq<WriteBack>) -> Seq<WbView> {
    Seq::new(v.len(), |i: int| v[i]@)
}

/// What of an area decides the write-back of its pages.
pub struct WbInfo {
    /// The file, for an area with a file that can be written.
    pub file: Option<Inode>,
    /// First address of the area.
    pub start: int,
    /// Offset in the file of the area's first byte.
    pub file_off: int,
}

/// What is to be written back of the block `pg` at `va`: the bytes of its
/// first frame, to the offset in the file that the address stands for; and
/// nothing for an area without a file that can be written, for a frame that
/// is not allocated, or for an offset that does not fit a word.
pub open spec fn wb_entry(info: WbInfo, mem: MemView, va: usize, pg: Page) -> Option<WbView> {
    if info.file is Some && mem.bytes.dom().contains(pg.spec_pfn()) && info.start <= va
        && info.file_off + (va - info.start) <= usize::MAX {
        Some(
            WbView {
                inode: info.file->0,
                off: info.file_off + (va - info.start),
                data: mem.bytes[pg.spec_pfn()],
            },
        )
    } else {
        None
    }
}

/// `k` is the lowest key of `m`.
pub open spec fn is_min_key(m: Map<usize, Page>, k: usize) -> bool {
    m.contains_key(k) && forall|k2: usize| m.contains_key(k2) ==> k <= k2
}

/// The state after the block `pg` at `va` was released: its pages unmapped,
/// where they can be, and its handle given up.
pub open spec fn release_step(s: PtMem, va: usize, pg: Page) -> PtMem {
    let u = unmap_range_state(s, va as int, pg.spec_order());
    PtMem { pt: u.pt, mem: drop_if(u.mem, pg.spec_pfn(), pg.spec_order()) }
}

/// What releasing every block of `m` comes to.
pub struct Released {
    /// The page table and the memory afterwards.
    pub state: PtMem,
    /// The write-backs, in the order of the blocks' addresses.
    pub wbs: Seq<WbView>,
}

/// Releasing the blocks of `m` one by one, from the lowest address up: each
/// block is written back where `wb_entry` says so, with the bytes that its
/// frame holds then, and released.
pub open spec fn release_map(info: WbInfo, s: PtMem, m: Map<usize, Page>, wbs: Seq<WbView>) -> Released
    decreases m.dom().len(),
    when m.dom().finite()
{
    let k = choose|k: usize| is_min_key(m, k);
    if m.dom().len() == 0 || !m.contains_key(k) {
        Released { state: s, wbs }
    } else {
        let wbs2 = match wb_entry(info, s.mem, k, m[k]) {
            Some(w) => wbs.push(w),
            None => wbs,
        };
        release_map(info, release_step(s, k, m[k]), m.remove(k), wbs2)
    }
}

/// One step of `release_map`, at the lowest key.
pub proof fn lemma_release_map_step(info: WbInfo, s: PtMem, m: Map<usize, Page>, wbs: Seq<WbView>, k: usize)
    requires
        m.dom().finite(),
        is_min_key(m, k),
    ensures
        release_map(info, s, m, wbs) == release_map(
            info,
            release_step(s, k, m[k]),
            m.remove(k),
            match wb_entry(info, s.mem, k, m[k]) {
                Some(w) => wbs.push(w),
                None => wbs,
            },
        ),
{
    let k2 = choose|k2: usize| is_min_key(m, k2);
    assert(is_min_key(m, k2));
    assert(k2 == k);
    assert(m.dom().contains(k));
    assert(m.dom().len() != 0) by {
        if m.dom().len() == 0 {
            m.dom().lemma_len0_is_empty();
        }
    }
}

/// Splits the map at `key` and returns what lies at or after it.
///
/// Trusted: this is `BTreeMap::split_off`, of which the documentation says
/// that it returns everything at and after the key and leaves the rest.
#[verifier::external_body]
fn split_off_at(m: &mut BTreeMap<usize, Page>, key: usize) -> (r: BTreeMap<usize, Page>)
    ensures
        final(m)@ == old(m)@.restrict(Set::new(|k: usize| k < key)),
        r@ == old(m)@.restrict(Set::new(|k: usize| k >= key)),
{
    m.split_off(&key)
}

/// Takes the entry with the lowest key out of the map.
///
/// Trusted: this is `BTreeMap::pop_first`, of which the documentation says
/// that it removes and returns the first element, whose key is the minimum
/// key of the map, and returns `None` for an empty map.
#[verifier::external_body]
fn pop_lowest(m: &mut BTreeMap<usize, Page>) -> (r: Option<(usize, Page)>)
    ensures
        match r {
            Some((k, v)) => is_min_key(old(m)@, k) && old(m)@[k] == v && final(m)@ == old(m)@.remove(
                k,
            ),
            None => old(m)@.dom().len() == 0 && final(m)@ == old(m)@,
        },
{
    m.pop_first()
}

impl VMA {
    /// What of the area decides the write-back of its pages.
    pub open spec fn wb_info(&self) -> WbInfo {
        WbInfo {
            file: if !self.flags().has(VM_ANON) && self.flags().has(VM_WRITE) {
                self.backing()
            } else {
                None
            },
            start: self.spec_start(),
            file_off: self.backing_off(),
        }
    }

    /// `self` is `before` but for the resident blocks and the dirty flag.
    pub open spec fn same_area(&self, before: VMA) -> bool {
        &&& self.spec_start() == before.spec_start()
        &&& self.spec_end() == before.spec_end()
        &&& self.table_root() == before.table_root()
        &&& self.backing() == before.backing()
        &&& self.backing_off() == before.backing_off()
    }

    /// Why the frame in `page`, with the bytes `data` read into it, cannot
    /// be installed for the page at `v`, if it cannot.
    pub open spec fn finish_err(&self, pt: PtView, mem: MemView, v: int, page: Page, data: Seq<u8>) -> Option<
        MmError,
    > {
        if v % 4096 != 0 || !(self.spec_start() <= v < self.spec_end()) || data.len() > 4096
            || page.spec_order() != 0 {
            Some(MmError::OutOfRange)
        } else if self.covered(v) {
            None
        } else {
            self.install_err(pt, write_view(mem, page.spec_pfn(), 0, data), v, page.spec_pfn())
        }
    }

    /// What `populate_finish` does at `v` with the frame in `page` and the
    /// bytes `data`: `before`, `pt0` and `mem0` are the area, the page table
    /// and the memory as they were, `after`, `pt1` and `mem1` as they are,
    /// and `r` is what it returned.
    pub open spec fn finish_post(
        before: VMA,
        after: VMA,
        pt0: PtView,
        mem0: MemView,
        pt1: PtView,
        mem1: MemView,
        v: usize,
        page: Page,
        data: Seq<u8>,
        r: Result<(), MmError>,
    ) -> bool {
        match r {
            Err(e) => {
                &&& before.finish_err(pt0, mem0, v as int, page, data)
                    == Some(e)
                &&& after@ == before@
                &&& pt1 == pt0
                &&& mem1 == (if e == MmError::OutOfRange && (v % 4096 != 0 || !(
                before.spec_start() <= v < before.spec_end()) || data.len() > 4096
                    || page.spec_order() != 0) {
                    drop_if(mem0, page.spec_pfn(), page.spec_order())
                } else {
                    drop_if(
                        write_view(mem0, page.spec_pfn(), 0, data),
                        page.spec_pfn(),
                        0,
                    )
                })
            },
            Ok(_) => {
                &&& before.finish_err(pt0, mem0, v as int, page, data)
                    is None
                &&& if before.covered(v as int) {
                    &&& after@ == before@
                    &&& pt1 == pt0
                    &&& mem1 == drop_if(mem0, page.spec_pfn(), 0)
                } else {
                    &&& after.is_fault_of(before, v, page)
                    &&& (PtMem { pt: pt1, mem: mem1 }) == before.install_state(
                        pt0,
                        write_view(mem0, page.spec_pfn(), 0, data),
                        v as int,
                        page.spec_pfn(),
                    )
                }
            },
        }
    }

    /// Installs the frame that `populate` handed out for the page at
    /// `vaddr`, with the bytes that were read from the file: `data` goes to
    /// the start of the frame, the rest of the frame stays as it is (zero,
    /// in a fresh frame).
    ///
    /// Where a resident block covers the address by now, another fault has
    /// installed the page: the frame is given up and the call succeeds.
    /// Fails for the reason that `finish_err` names; the frame is given up
    /// then too, and nothing else changes.
    pub fn populate_finish(
        &mut self,
        pt: &mut PageTable,
        mem: &mut PhysMemory,
        vaddr: Addr,
        page: Page,
        data: &[u8],
    ) -> (r: Result<(), MmError>)
        requires
            old(self).wf(),
            old(pt).wf(),
            old(mem).wf(),
        ensures
            final(self).wf(),
            final(pt).wf(),
            final(mem).wf(),
            final(pt)@.root == old(pt)@.root,
            final(pt)@.ram_start == old(pt)@.ram_start,
            final(pt)@.ram_end == old(pt)@.ram_end,
            Self::finish_post(
                *old(self),
                *final(self),
                old(pt)@,
                old(mem)@,
                final(pt)@,
                final(mem)@,
                vaddr.0,
                page,
                data@,
                r,
            ),
    {
        if vaddr.0 % 4096 != 0 || !self.in_vma(vaddr) || data.len() > PAGE_SIZE || page.get_order()
            != 0 {
            drop_page(mem, page);
            return Err(MmError::OutOfRange);
        }
        if self.find_block(vaddr).is_some() {
            drop_page(mem, page);
            return Ok(());
        }
        let _ = mem.write_frame(page.get_pfn(), 0, data);
        self.install(pt, mem, vaddr, page)
    }

    /// Takes the resident block at `vaddr` out of the area and unmaps its
    /// pages, where they are all mapped.  The block is the caller's to write
    /// back and to give up.  `None`, with nothing changed, where no resident
    /// block starts at `vaddr`.
    pub fn unmap_one(&mut self, pt: &mut PageTable, mem: &mut PhysMemory, vaddr: Addr) -> (r:
        Option<Page>)
        requires
            old(self).wf(),
            old(pt).wf(),
            old(mem).wf(),
        ensures
            final(self).wf(),
            final(pt).wf(),
            final(mem).wf(),
            final(pt)@.root == old(pt)@.root,
            final(pt)@.ram_start == old(pt)@.ram_start,
            final(pt)@.ram_end == old(pt)@.ram_end,
            final(self).same_area(*old(self)),
            final(self).flags() == old(self).flags(),
            match r {
                None => {
                    &&& !old(self).resident().contains_key(vaddr.0)
                    &&& final(self).resident() == old(self).resident()
                    &&& final(pt)@ == old(pt)@
                    &&& final(mem)@ == old(mem)@
                },
                Some(pg) => {
                    &&& old(self).resident().contains_key(vaddr.0)
                    &&& pg == old(self).resident()[vaddr.0]
                    &&& final(self).resident() == old(self).resident().remove(vaddr.0)
                    &&& (PtMem { pt: final(pt)@, mem: final(mem)@ }) == unmap_range_state(
                        PtMem { pt: old(pt)@, mem: old(mem)@ },
                        vaddr.0 as int,
                        pg.spec_order(),
                    )
                },
            },
    {
        match self.pages_tree.remove(&vaddr.0) {
            None => {
                proof {
                    assert(self.resident() =~= old(self).resident());
                }
                None
            },
            Some(pg) => {
                proof {
                    assert(old(self).resident().contains_key(vaddr.0));
                    assert(old(self).resident()[vaddr.0] == pg);
                    assert(old(self).block_fits(vaddr.0, pg));
                    assert forall|va: usize| #[trigger]
                        self.resident().contains_key(va) implies self.block_fits(
                        va,
                        self.resident()[va],
                    ) by {
                        assert(old(self).resident().contains_key(va));
                        assert(old(self).block_fits(va, old(self).resident()[va]));
                    }
                    assert forall|a: usize, b: usize|
                        #[trigger] self.resident().contains_key(a)
                            && #[trigger] self.resident().contains_key(b) && a != b implies a
                        + span_bytes(self.resident()[a].spec_order()) <= b || b + span_bytes(
                        self.resident()[b].spec_order(),
                    ) <= a by {
                        assert(old(self).resident().contains_key(a));
                        assert(old(self).resident().contains_key(b));
                    }
                }
                let _ = pt.unmap_range(mem, vaddr, pg.get_order());
                Some(pg)
            },
        }
    }

    /// What is to be written back of the block `pg` at `va`.
    fn wb_for(&self, mem: &PhysMemory, va: usize, pg: &Page) -> (r: Option<WriteBack>)
        requires
            mem.wf(),
        ensures
            match r {
                Some(w) => wb_entry(self.wb_info(), mem@, va, *pg) == Some(w@),
                None => wb_entry(self.wb_info(), mem@, va, *pg) is None,
            },
    {
        if self.is_anon() || !self.writeable() || va < self.start_vaddr.0 {
            return None;
        }
        let inode = match self.file {
            None => {
                return None;
            },
            Some(i) => i,
        };
        let delta = va - self.start_vaddr.0;
        if self.file_off > usize::MAX - delta {
            return None;
        }
        match mem.read_allocated(pg.get_pfn()) {
            None => None,
            Some(data) => Some(WriteBack { inode, off: self.file_off + delta, data }),
        }
    }

    /// What is to be written to the file of the page at `vaddr`: the bytes
    /// of the resident block's first frame, and the offset in the file that
    /// the address stands for.  `None` where no resident block starts at
    /// `vaddr`, and where `wb_entry` gives nothing.
    pub fn writeback_one(&self, mem: &PhysMemory, vaddr: Addr) -> (r: Option<WriteBack>)
        requires
            self.wf(),
            mem.wf(),
        ensures
            match r {
                Some(w) => self.resident().contains_key(vaddr.0) && wb_entry(
                    self.wb_info(),
                    mem@,
                    vaddr.0,
                    self.resident()[vaddr.0],
                ) == Some(w@),
                None => !self.resident().contains_key(vaddr.0) || wb_entry(
                    self.wb_info(),
                    mem@,
                    vaddr.0,
                    self.resident()[vaddr.0],
                ) is None,
            },
    {
        match self.pages_tree.get(&vaddr.0) {
            None => None,
            Some(pg) => self.wb_for(mem, vaddr.0, pg),
        }
    }

    /// Releases every resident block, from the lowest address up: what is
    /// to be written back of it is collected, its pages are unmapped and
    /// its handle is given up.  The area is left without a resident block
    /// and without the dirty flag.
    pub fn release_all(&mut self, pt: &mut PageTable, mem: &mut PhysMemory) -> (r: Vec<WriteBack>)
        requires
            old(self).wf(),
            old(pt).wf(),
            old(mem).wf(),
        ensures
            final(self).wf(),
            final(pt).wf(),
            final(mem).wf(),
            final(pt)@.root == old(pt)@.root,
            final(pt)@.ram_start == old(pt)@.ram_start,
            final(pt)@.ram_end == old(pt)@.ram_end,
            final(self).same_area(*old(self)),
            final(self).flags().bits == old(self).flags().bits & !VM_DIRTY,
            final(self).resident() == Map::<usize, Page>::empty(),
            (Released { state: PtMem { pt: final(pt)@, mem: final(mem)@ }, wbs: wb_views(r@) })
                == release_map(
                old(self).wb_info(),
                PtMem { pt: old(pt)@, mem: old(mem)@ },
                old(self).resident(),
                Seq::empty(),
            ),
    {
        let mut out: Vec<WriteBack> = Vec::new();
        proof {
            assert(wb_views(out@) =~= Seq::empty());
        }
        self.release_into(pt, mem, &mut out);
        out
    }

    /// Releases every resident block as `release_all` does, and adds what is
    /// to be written back to `out`.
    pub fn release_into(
        &mut self,
        pt: &mut PageTable,
        mem: &mut PhysMemory,
        out: &mut Vec<WriteBack>,
    )
        requires
            old(self).wf(),
            old(pt).wf(),
            old(mem).wf(),
        ensures
            final(self).wf(),
            final(pt).wf(),
            final(mem).wf(),
            final(pt)@.root == old(pt)@.root,
            final(pt)@.ram_start == old(pt)@.ram_start,
            final(pt)@.ram_end == old(pt)@.ram_end,
            final(self).same_area(*old(self)),
            final(self).flags().bits == old(self).flags().bits & !VM_DIRTY,
            final(self).resident() == Map::<usize, Page>::empty(),
            (Released {
                state: PtMem { pt: final(pt)@, mem: final(mem)@ },
                wbs: wb_views(final(out)@),
            }) == release_map(
                old(self).wb_info(),
                PtMem { pt: old(pt)@, mem: old(mem)@ },
                old(self).resident(),
                wb_views(old(out)@),
            ),
    {
        let ghost info = self.wb_info();
        loop
            invariant
                pt.wf(),
                mem.wf(),
                self.same_area(*old(self)),
                self.flags() == old(self).flags(),
                self.wb_info() == info,
                info == old(self).wb_info(),
                self.resident().dom().finite(),
                pt@.root == old(pt)@.root,
                pt@.ram_start == old(pt)@.ram_start,
                pt@.ram_end == old(pt)@.ram_end,
                release_map(
                    info,
                    PtMem { pt: old(pt)@, mem: old(mem)@ },
                    old(self).resident(),
                    wb_views(old(out)@),
                ) == release_map(
                    info,
                    PtMem { pt: pt@, mem: mem@ },
                    self.resident(),
                    wb_views(out@),
                ),
            ensures
                pt.wf(),
                mem.wf(),
                self.same_area(*old(self)),
                self.flags() == old(self).flags(),
                self.resident().dom().len() == 0,
                self.resident().dom().finite(),
                pt@.root == old(pt)@.root,
                pt@.ram_start == old(pt)@.ram_start,
                pt@.ram_end == old(pt)@.ram_end,
                release_map(
                    info,
                    PtMem { pt: old(pt)@, mem: old(mem)@ },
                    old(self).resident(),
                    wb_views(old(out)@),
                ) == (Released { state: PtMem { pt: pt@, mem: mem@ }, wbs: wb_views(out@) }),
            decreases self.resident().dom().len(),
        {
            let ghost m = self.resident();
            let ghost s = PtMem { pt: pt@, mem: mem@ };
            let ghost wbs = wb_views(out@);
            match pop_lowest(&mut self.pages_tree) {
                None => {
                    break ;
                },
                Some((va, pg)) => {
                    proof {
                        assert(is_min_key(m, va));
                        assert(m.dom().len() > 0) by {
                            if m.dom().len() == 0 {
                                assert(m.dom() =~= Set::<usize>::empty());
                            }
                        }
                        let k = choose|k: usize| is_min_key(m, k);
                        assert(k == va);
                    }
                    let w = self.wb_for(mem, va, &pg);
                    let ghost out0 = out@;
                    match w {
                        Some(wb) => {
                            out.push(wb);
                            proof {
                                assert(wb_views(out@) =~= wb_views(out0).push(wb@));
                            }
                        },
                        None => {},
                    }
                    let ghost wbs2 = wb_views(out@);
                    let _ = pt.unmap_range(mem, Addr(va), pg.get_order());
                    drop_page(mem, pg);
                    proof {
                        let s2 = PtMem { pt: pt@, mem: mem@ };
                        assert(s2 == release_step(s, va, pg));
                        assert(self.resident() == m.remove(va));
                        assert(exists|k: usize| is_min_key(m, k));
                        let k = choose|k: usize| is_min_key(m, k);
                        assert(k == va);
                        assert(m[va] == pg);
                        assert(m.dom().finite());
                        assert(m.dom().len() != 0);
                        assert(wbs2 == (match wb_entry(info, s.mem, va, m[va]) {
                            Some(w) => wbs.push(w),
                            None => wbs,
                        }));
                        lemma_release_map_step(info, s, m, wbs, va);
                    }
                },
            }
        }
        self.vm_flags.set(VM_DIRTY, false);
        proof {
            Self::lemma_dirty_keeps(old(self).vm_flags.bits);
            assert(self.resident() =~= Map::<usize, Page>::empty());
        }
    }

    /// The area can be split at `v`: a page boundary strictly inside it
    /// that no resident block reaches across, and, for a file area, with an
    /// offset in the file that fits a word.
    pub open spec fn can_split(&self, v: int) -> bool {
        &&& self.spec_start() < v < self.spec_end()
        &&& v % 4096 == 0
        &&& forall|va: usize| self.covers(va, v) ==> va == v
        &&& !self.flags().has(VM_ANON) ==> self.backing_off() + (v - self.spec_start())
            <= usize::MAX
    }

    /// `self` and `right` are the two parts of `before`, split at `v`: the
    /// same flags, page table and file; the resident blocks below `v` in
    /// `self`, the others in `right`; and the offset in the file, for a file
    /// area, moved on by the length of `self`.
    pub open spec fn is_split_of(&self, right: VMA, before: VMA, v: usize) -> bool {
        &&& self.spec_start() == before.spec_start()
        &&& self.spec_end() == v
        &&& right.spec_start() == v
        &&& right.spec_end() == before.spec_end()
        &&& self.flags() == before.flags()
        &&& right.flags() == before.flags()
        &&& self.table_root() == before.table_root()
        &&& right.table_root() == before.table_root()
        &&& self.backing() == before.backing()
        &&& right.backing() == before.backing()
        &&& self.backing_off() == before.backing_off()
        &&& right.backing_off() == (if before.flags().has(VM_ANON) {
            0
        } else {
            before.backing_off() + (v - before.spec_start())
        })
        &&& self.resident() == before.resident().restrict(Set::new(|k: usize| k < v))
        &&& right.resident() == before.resident().restrict(Set::new(|k: usize| k >= v))
    }

    /// Splits the area at `vaddr`: the area keeps what lies below, and what
    /// lies at and above comes back as an area of its own.  `None`, with
    /// nothing changed, where the area cannot be split there.
    pub fn split(&mut self, vaddr: Addr) -> (r: Option<Self>)
        requires
            old(self).wf(),
        ensures
            final(self).wf(),
            match r {
                Some(right) => {
                    &&& old(self).can_split(vaddr.0 as int)
                    &&& right.wf()
                    &&& final(self).is_split_of(right, *old(self), vaddr.0)
                },
                None => !old(self).can_split(vaddr.0 as int) && *final(self) == *old(self),
            },
    {
        let v = vaddr.0;
        if !(self.start_vaddr.0 < v && v < self.end_vaddr.0) || v % 4096 != 0 {
            return None;
        }
        match self.find_block(vaddr) {
            Some(key) => {
                if key != v {
                    return None;
                }
                proof {
                    assert forall|va: usize| self.covers(va, v as int) implies va == v by {
                        if va != key {
                            assert(self.block_fits(va, self.resident()[va]));
                            assert(self.block_fits(key, self.resident()[key]));
                        }
                    }
                }
            },
            None => {},
        }
        let new_off: usize = if self.is_anon() {
            0
        } else {
            let delta = v - self.start_vaddr.0;
            if self.file_off > usize::MAX - delta {
                return None;
            }
            self.file_off + delta
        };
        let right_tree = split_off_at(&mut self.pages_tree, v);
        let old_end = self.end_vaddr;
        self.end_vaddr = vaddr;
        let right = VMA {
            start_vaddr: vaddr,
            end_vaddr: old_end,
            vm_flags: self.vm_flags,
            pages_tree: right_tree,
            pagetable: self.pagetable,
            file: self.file,
            file_off: new_off,
        };
        proof {
            assert forall|va: usize| #[trigger]
                self.resident().contains_key(va) implies self.block_fits(
                va,
                self.resident()[va],
            ) by {
                assert(old(self).resident().contains_key(va));
                assert(old(self).block_fits(va, old(self).resident()[va]));
                assert(!old(self).covers(va, v as int));
            }
            assert forall|a: usize, b: usize|
                #[trigger] self.resident().contains_key(a) && #[trigger] self.resident().contains_key(
                    b,
                ) && a != b implies a + span_bytes(self.resident()[a].spec_order()) <= b || b
                + span_bytes(self.resident()[b].spec_order()) <= a by {
                assert(old(self).resident().contains_key(a));
                assert(old(self).resident().contains_key(b));
            }
            assert forall|va: usize| #[trigger]
                right.resident().contains_key(va) implies right.block_fits(
                va,
                right.resident()[va],
            ) by {
                assert(old(self).resident().contains_key(va));
                assert(old(self).block_fits(va, old(self).resident()[va]));
            }
            assert forall|a: usize, b: usize|
                #[trigger] right.resident().contains_key(a)
                    && #[trigger] right.resident().contains_key(b) && a != b implies a + span_bytes(
                right.resident()[a].spec_order(),
            ) <= b || b + span_bytes(right.resident()[b].spec_order()) <= a by {
                assert(old(self).resident().contains_key(a));
                assert(old(self).resident().contains_key(b));
            }
        }
        Some(right)
    }

    /// The two parts of a split area are, to every address, what the area
    /// was: an address lies in the area exactly when it lies in one of the
    /// parts, the block that covers it there is the block that covered it,
    /// and, in a file area, it stands for the same offset in the file.
    pub proof fn lemma_split_equivalent(&self, right: VMA, before: VMA, v: usize, x: usize)
        requires
            before.wf(),
            before.can_split(v as int),
            self.is_split_of(right, before, v),
        ensures
            (before.spec_start() <= x < before.spec_end()) <==> ((self.spec_start() <= x
                < self.spec_end()) || (right.spec_start() <= x < right.spec_end())),
            !((self.spec_start() <= x < self.spec_end()) && (right.spec_start() <= x
                < right.spec_end())),
            forall|va: usize| before.covers(va, x as int) <==> (self.covers(va, x as int) || right.covers(va, x as int)),
            forall|va: usize|
                self.covers(va, x as int) ==> self.resident()[va] == before.resident()[va],
            forall|va: usize|
                right.covers(va, x as int) ==> right.resident()[va] == before.resident()[va],
            !before.flags().has(VM_ANON) && self.spec_start() <= x < self.spec_end()
                ==> self.backing_off() + (x - self.spec_start()) == before.backing_off() + (x
                - before.spec_start()),
            !before.flags().has(VM_ANON) && right.spec_start() <= x < right.spec_end()
                ==> right.backing_off() + (x - right.spec_start()) == before.backing_off() + (x
                - before.spec_start()),
    {
    }

    /// Why the block `pg` cannot be mapped at `v`, if it cannot: the first
    /// that holds of an area with a file, an order that is none, an address
    /// that is not page aligned or outside the area, a block that reaches
    /// past the end of the area or whose address does not fit a word; a page
    /// of the range that a resident block covers; and what keeps the page
    /// table from mapping the range.
    pub open spec fn map_block_err(&self, pt: PtView, mem: MemView, v: int, pg: Page) -> Option<
        MmError,
    > {
        self.map_block_err_at(pt, mem, v, pg.spec_pfn(), pg.spec_order())
    }

    /// `map_block_err` for the block of order `k` at frame `pfn`.
    pub open spec fn map_block_err_at(&self, pt: PtView, mem: MemView, v: int, pfn: int, k: int) -> Option<
        MmError,
    > {
        let n = run_pages(k as nat) as int;
        if !self.flags().has(VM_ANON) || k < 0 || k >= MAX_ORDER || v % 4096 != 0 || !(
        self.spec_start() <= v < self.spec_end()) || self.spec_end() - v < 4096 * n || pfn * 4096
            > usize::MAX {
            Some(MmError::OutOfRange)
        } else if exists|i: int| 0 <= i < n && #[trigger] self.covered(v + 4096 * i) {
            Some(MmError::AlreadyMapped)
        } else {
            map_range_err(pt, mem, v, pfn * 4096, k, pte_flags_of(self.flags().bits))
        }
    }

    /// Maps the block `pages` at `vaddr` in an anonymous area and records it
    /// as resident.  Fails for the reason that `map_block_err` names; the
    /// handle is given up then, and nothing else changes.
    #[verifier::loop_isolation(false)]
    pub fn _anon_map_pages(
        &mut self,
        pt: &mut PageTable,
        mem: &mut PhysMemory,
        pages: Page,
        vaddr: Addr,
    ) -> (r: Result<(), MmError>)
        requires
            old(self).wf(),
            old(pt).wf(),
            old(mem).wf(),
        ensures
            final(self).wf(),
            final(pt).wf(),
            final(mem).wf(),
            final(pt)@.root == old(pt)@.root,
            final(pt)@.ram_start == old(pt)@.ram_start,
            final(pt)@.ram_end == old(pt)@.ram_end,
            r is Ok ==> crate::mm::kept(old(mem)@, final(mem)@),
            leaves_kept(old(pt)@, final(pt)@),
            r is Ok ==> mapped(
                final(pt)@,
                vaddr.0 as int / 4096,
                pages.spec_pfn(),
                pte_flags_of(old(self).flags().bits),
                run_pages(pages.spec_order() as nat) as int,
            ),
            match r {
                Ok(_) => {
                    &&& old(self).map_block_err(old(pt)@, old(mem)@, vaddr.0 as int, pages) is None
                    &&& final(self).same_area(*old(self))
                    &&& final(self).flags() == old(self).flags()
                    &&& final(self).resident() == old(self).resident().insert(vaddr.0, pages)
                    &&& (PtMem { pt: final(pt)@, mem: final(mem)@ }) == map_pages(
                        PtMem { pt: old(pt)@, mem: old(mem)@ },
                        vaddr.0 as int / 4096,
                        pages.spec_pfn(),
                        pte_flags_of(old(self).flags().bits),
                        run_pages(pages.spec_order() as nat),
                    )
                },
                Err(e) => {
                    &&& old(self).map_block_err(old(pt)@, old(mem)@, vaddr.0 as int, pages) == Some(
                        e,
                    )
                    &&& *final(self) == *old(self)
                    &&& final(pt)@ == old(pt)@
                    &&& final(mem)@ == drop_if(old(mem)@, pages.spec_pfn(), pages.spec_order())
                },
            },
    {
        let v = vaddr.0;
        let order = pages.get_order();
        let pfn = pages.get_pfn().0;
        if !self.is_anon() || order >= MAX_ORDER || v % 4096 != 0 || !self.in_vma(vaddr) || pfn
            > usize::MAX / 4096 {
            drop_page(mem, pages);
            return Err(MmError::OutOfRange);
        }
        let span = span_of(order);
        if self.end_vaddr.0 - v < span {
            drop_page(mem, pages);
            return Err(MmError::OutOfRange);
        }
        let ghost n = run_pages(order as nat) as int;
        proof {
            lemma_shift_run_pages(order);
            lemma_run_pages_pos(order as nat);
        }
        let count: usize = 1usize << order;
        let mut i: usize = 0;
        while i < count
            invariant
                i <= count,
                *mem == *old(mem),
                *self == *old(self),
                *pt == *old(pt),
                forall|j: int| 0 <= j < i ==> !#[trigger] self.covered(v + 4096 * j),
            decreases count - i,
        {
            let probe = Addr(v + i * 4096);
            let found = self.find_block(probe);
            if found.is_some() {
                proof {
                    assert(self.covers(found->0, probe.0 as int));
                    assert(self.covered(v + 4096 * i));
                }
                drop_page(mem, pages);
                return Err(MmError::AlreadyMapped);
            }
            proof {
                assert(forall|va: usize| !self.covers(va, probe.0 as int));
                assert(probe.0 as int == v + 4096 * i);
                assert(!self.covered(probe.0 as int));
            }
            i += 1;
        }
        let flags = _vma_flags_2_pte_flags(self.vm_flags);
        match pt.map_range(mem, vaddr, Addr(pfn * 4096), order, flags) {
            Err(e) => {
                drop_page(mem, pages);
                Err(e)
            },
            Ok(_) => {
                let ghost before = *self;
                self.pages_tree.insert(v, pages);
                proof {
                    assert forall|va: usize| #[trigger]
                        self.resident().contains_key(va) implies self.block_fits(
                        va,
                        self.resident()[va],
                    ) by {
                        if va != v {
                            assert(before.resident().contains_key(va));
                            assert(before.block_fits(va, before.resident()[va]));
                        }
                    }
                    assert forall|a: usize, b: usize|
                        #[trigger] self.resident().contains_key(a)
                            && #[trigger] self.resident().contains_key(b) && a != b implies a
                        + span_bytes(self.resident()[a].spec_order()) <= b || b + span_bytes(
                        self.resident()[b].spec_order(),
                    ) <= a by {
                        if a == v {
                            Self::lemma_apart_range(&before, b, v, n);
                        } else if b == v {
                            Self::lemma_apart_range(&before, a, v, n);
                        } else {
                            assert(before.resident().contains_key(a));
                            assert(before.resident().contains_key(b));
                        }
                    }
                }
                Ok(())
            },
        }
    }

    /// A resident block that covers none of the `n` pages from a
    /// page-aligned address lies apart from them.
    proof fn lemma_apart_range(before: &VMA, b: usize, v: usize, n: int)
        requires
            before.wf(),
            before.resident().contains_key(b),
            v % 4096 == 0,
            n >= 1,
            forall|j: int| 0 <= j < n ==> !#[trigger] before.covered(v + 4096 * j),
        ensures
            b + span_bytes(before.resident()[b].spec_order()) <= v || v + 4096 * n <= b,
    {
        let k = before.resident()[b].spec_order();
        assert(before.block_fits(b, before.resident()[b]));
        lemma_run_pages_pos(k as nat);
        lemma_page_of(b as int, run_pages(k as nat) as int, 0);
        if !(b + span_bytes(k) <= v || v + 4096 * n <= b) {
            if b <= v {
                assert(before.covers(b, v + 4096 * 0));
                assert(before.covered(v + 4096 * 0));
            } else {
                let j = (b - v) / 4096;
                assert(b == v + 4096 * j);
                assert(before.covers(b, v + 4096 * j));
                assert(before.covered(v + 4096 * j));
            }
        }
    }

    /// An area holds finitely many resident blocks.
    pub proof fn lemma_resident_finite(&self)
        ensures
            self.resident().dom().finite(),
    {
    }

    /// The bounds of an area are addresses.
    pub proof fn lemma_bounds(&self)
        ensures
            0 <= self.spec_start() <= usize::MAX,
            0 <= self.spec_end() <= usize::MAX,
    {
    }

    /// `child` holds a copy of every resident block of `self`: a block of
    /// the same order at the same address, whose frames hold what the
    /// frames of the block of `self` held in `v0`.
    pub open spec fn is_copy(&self, child: VMA, v0: MemView, v1: MemView) -> bool {
        &&& forall|va: usize| #[trigger]
            child.resident().contains_key(va) <==> self.resident().contains_key(va)
        &&& forall|va: usize| #[trigger]
            self.resident().contains_key(va) ==> child.resident()[va].spec_order()
                == self.resident()[va].spec_order() && copied(
                v0,
                v1,
                self.resident()[va].spec_pfn(),
                child.resident()[va].spec_pfn(),
                run_pages(self.resident()[va].spec_order() as nat) as int,
            )
    }

    /// Every resident block of the area is mapped in `pt` at its address,
    /// with the flags of the area.
    pub open spec fn is_mapped(&self, pt: PtView) -> bool {
        forall|va: usize| #[trigger]
            self.resident().contains_key(va) ==> mapped(
                pt,
                va as int / 4096,
                self.resident()[va].spec_pfn(),
                pte_flags_of(self.flags().bits),
                run_pages(self.resident()[va].spec_order() as nat) as int,
            )
    }

    /// What copying the block `src` to the address `va` of a child does: `c0`
    /// and `s0` are the child and the state as they were, `c1` and `s1` as
    /// they are, and `r` is the result.  Without a run of the order of `src`
    /// the copy fails, and nothing changes.  Else the run that the allocator
    /// hands out is filled with the bytes of `src`; where `map_block_err`
    /// names a reason it is given up again; else its pages are mapped and it
    /// is resident in the child.
    pub open spec fn block_copy_post(
        src: Page,
        c0: VMA,
        c1: VMA,
        s0: PtMem,
        s1: PtMem,
        va: usize,
        r: Result<(), MmError>,
    ) -> bool {
        let k = src.spec_order();
        let h = alloc_head(s0.mem, k);
        let m1 = copy_block_view(s0.mem, src.spec_pfn(), k);
        if !alloc_ok(s0.mem, k) {
            &&& r == Err::<(), MmError>(MmError::OutOfMemory)
            &&& c1@ == c0@
            &&& s1 == s0
        } else {
            match c0.map_block_err_at(s0.pt, m1, va as int, h, k) {
                Some(e) => {
                    &&& r == Err::<(), MmError>(e)
                    &&& c1@ == c0@
                    &&& s1 == (PtMem { pt: s0.pt, mem: drop_if(m1, h, k) })
                },
                None => {
                    &&& r is Ok
                    &&& c1.same_area(c0)
                    &&& c1.flags() == c0.flags()
                    &&& c1.resident().contains_key(va)
                    &&& c1.resident() == c0.resident().insert(va, c1.resident()[va])
                    &&& c1.resident()[va].spec_pfn() == h
                    &&& c1.resident()[va].spec_order() == k
                    &&& s1 == map_pages(
                        PtMem { pt: s0.pt, mem: m1 },
                        va as int / 4096,
                        h,
                        pte_flags_of(c0.flags().bits),
                        run_pages(k as nat),
                    )
                },
            }
        }
    }

    /// Copies the block `src` into `child` at `va`: a block of the same order
    /// is allocated, filled with the bytes of `src`, and mapped.
    fn copy_block_into(
        src: &Page,
        mem: &mut PhysMemory,
        child: &mut VMA,
        child_pt: &mut PageTable,
        va: usize,
    ) -> (r: Result<(), MmError>)
        requires
            old(mem).wf(),
            old(child).wf(),
            old(child_pt).wf(),
            0 <= src.spec_order() < MAX_ORDER,
        ensures
            final(mem).wf(),
            final(child).wf(),
            final(child_pt).wf(),
            final(child_pt)@.root == old(child_pt)@.root,
            final(child_pt)@.ram_start == old(child_pt)@.ram_start,
            final(child_pt)@.ram_end == old(child_pt)@.ram_end,
            final(child).same_area(*old(child)),
            final(child).flags() == old(child).flags(),
            leaves_kept(old(child_pt)@, final(child_pt)@),
            Self::block_copy_post(
                *src,
                *old(child),
                *final(child),
                PtMem { pt: old(child_pt)@, mem: old(mem)@ },
                PtMem { pt: final(child_pt)@, mem: final(mem)@ },
                va,
                r,
            ),
            r is Ok ==> {
                &&& kept(old(mem)@, final(mem)@)
                &&& final(child).resident().contains_key(va)
                &&& mapped(
                    final(child_pt)@,
                    va as int / 4096,
                    final(child).resident()[va].spec_pfn(),
                    pte_flags_of(old(child).flags().bits),
                    run_pages(src.spec_order() as nat) as int,
                )
                &&& final(child).resident() == old(child).resident().insert(
                    va,
                    final(child).resident()[va],
                )
                &&& final(child).resident()[va].spec_order() == src.spec_order()
                &&& copied(
                    old(mem)@,
                    final(mem)@,
                    src.spec_pfn(),
                    final(child).resident()[va].spec_pfn(),
                    run_pages(src.spec_order() as nat) as int,
                )
            },
    {
        let ghost mem0 = mem@;
        let ghost k = src.spec_order();
        proof {
            mem.lemma_view_wf();
        }
        let dst = match copy_block(mem, src) {
            None => {
                return Err(MmError::OutOfMemory);
            },
            Some(pg) => pg,
        };
        let ghost mem1 = mem@;
        let ghost d = dst.spec_pfn();
        proof {
            let a = alloc_view(mem0, k);
            let n = run_pages(k as nat) as int;
            lemma_alloc_view_wf(mem0, k);
            lemma_alloc_keeps(mem0, k);
            crate::mm::lemma_alloc_head(mem0, k);
            crate::mm::buddy::lemma_split_frames(
                mem0.runs,
                mem0.start,
                mem0.end,
                k,
                crate::mm::buddy::first_fit(mem0.runs, k),
                d,
            );
            assert forall|y: int| d <= y < d + n implies #[trigger] a.bytes.dom().contains(y) by {}
            assert forall|y: int| d <= y < d + n implies !#[trigger] mem0.bytes.dom().contains(
                y,
            ) by {
                assert(crate::mm::buddy::frame_free(mem0.runs, y));
                assert(mem0.descs[y].state == crate::mm::page::PageState::Free);
            }
            lemma_copy_frames(mem0, a, src.spec_pfn(), d, n, n as nat);
        }
        match child._anon_map_pages(child_pt, mem, dst, Addr(va)) {
            Err(e) => Err(e),
            Ok(_) => {
                proof {
                    let mem2 = mem@;
                    let n = run_pages(k as nat) as int;
                    assert forall|x: int| #[trigger] mem0.bytes.dom().contains(
                        x,
                    ) implies mem2.bytes.dom().contains(x) && mem2.bytes[x] == mem0.bytes[x] by {
                        assert(mem1.bytes.dom().contains(x));
                    }
                    assert forall|x: int|
                        src.spec_pfn() <= x < src.spec_pfn() + n && #[trigger] mem0.bytes.dom().contains(
                            x,
                        ) implies mem2.bytes.dom().contains(x - src.spec_pfn() + d)
                        && mem2.bytes[x - src.spec_pfn() + d] == mem0.bytes[x] by {
                        assert(mem1.bytes.dom().contains(x - src.spec_pfn() + d));
                    }
                    assert(child.resident() =~= old(child).resident().insert(
                        va,
                        child.resident()[va],
                    ));
                }
                Ok(())
            },
        }
    }

    /// What is kept twice is kept.
    proof fn lemma_leaves_kept_trans(a: PtView, b: PtView, c: PtView)
        requires
            leaves_kept(a, b),
            leaves_kept(b, c),
        ensures
            leaves_kept(a, c),
    {
        assert forall|v: int| #[trigger] a.leaves.dom().contains(v) implies c.leaves.dom().contains(
            v,
        ) && c.leaves[v] == a.leaves[v] by {
            assert(b.leaves.dom().contains(v));
        }
    }

    /// Pages that are mapped stay mapped where the leaves are kept.
    proof fn lemma_mapped_kept(a: PtView, b: PtView, base: int, pfn0: int, flags: u8, n: int)
        requires
            leaves_kept(a, b),
            mapped(a, base, pfn0, flags, n),
        ensures
            mapped(b, base, pfn0, flags, n),
    {
        assert forall|i: int| 0 <= i < n implies b.leaves.dom().contains(
            #[trigger] crate::mm::pagetable::page_vpn(base, i),
        ) && b.leaves[crate::mm::pagetable::page_vpn(base, i)]
            == crate::mm::pagetable::page_pte(pfn0, flags, i) by {
            assert(a.leaves.dom().contains(crate::mm::pagetable::page_vpn(base, i)));
        }
    }

    /// The child `c` and the state `s` are what the child `c0` and the state
    /// `s0` become when the resident blocks of `self` that start below `va`
    /// are copied, one by one from the lowest address.
    pub open spec fn copy_reach(&self, c0: VMA, s0: PtMem, va: int, c: VMA, s: PtMem) -> bool
        decreases va - self.spec_start(),
    {
        if va < self.spec_start() + 4096 {
            c@ == c0@ && s == s0
        } else if !self.resident().contains_key((va - 4096) as usize) {
            self.copy_reach(c0, s0, va - 4096, c, s)
        } else {
            exists|cp: VMA, sp: PtMem|
                self.copy_reach(c0, s0, va - 4096, cp, sp) && #[trigger] Self::block_copy_post(
                    self.resident()[(va - 4096) as usize],
                    cp,
                    c,
                    sp,
                    s,
                    (va - 4096) as usize,
                    Ok::<(), MmError>(()),
                )
        }
    }

    /// One more block copied.
    proof fn lemma_copy_reach_step(
        &self,
        c0: VMA,
        s0: PtMem,
        va: usize,
        cp: VMA,
        sp: PtMem,
        c: VMA,
        s: PtMem,
    )
        requires
            self.spec_start() <= va,
            self.copy_reach(c0, s0, va as int, cp, sp),
            self.resident().contains_key(va),
            Self::block_copy_post(self.resident()[va], cp, c, sp, s, va, Ok::<(), MmError>(())),
        ensures
            self.copy_reach(c0, s0, va + 4096, c, s),
    {
        let v2 = va + 4096;
        assert((v2 - 4096) as usize == va);
        assert(self.copy_reach(c0, s0, v2 - 4096, cp, sp));
        assert(Self::block_copy_post(
            self.resident()[(v2 - 4096) as usize],
            cp,
            c,
            sp,
            s,
            (v2 - 4096) as usize,
            Ok::<(), MmError>(()),
        ));
    }

    /// What `copy_resident` does: `c0` and `s0` are the child and the state
    /// as they were, `c1` and `s1` as they are, and `r` is the result.  The
    /// blocks are copied one by one from the lowest address, up to the end
    /// of the area or to the first block whose copy fails.
    pub open spec fn copy_post(
        &self,
        c0: VMA,
        s0: PtMem,
        c1: VMA,
        s1: PtMem,
        r: Result<(), MmError>,
    ) -> bool {
        match r {
            Ok(_) => self.copy_reach(c0, s0, self.spec_end(), c1, s1),
            Err(e) => exists|va: usize, cp: VMA, sp: PtMem|
                {
                    &&& #[trigger] self.copy_reach(c0, s0, va as int, cp, sp)
                    &&& self.resident().contains_key(va)
                    &&& Self::block_copy_post(
                        self.resident()[va],
                        cp,
                        c1,
                        sp,
                        s1,
                        va,
                        Err::<(), MmError>(e),
                    )
                },
        }
    }

    /// Copies every resident block of `self` into `child`, an anonymous
    /// area over the same range without a resident block: for each block a
    /// block of the same order is allocated, filled with the bytes of the
    /// block, and mapped at the same address in `child_pt`.
    ///
    /// Stops at the first block that cannot be copied, for want of memory or
    /// because the page table refuses the mapping; `child` holds the blocks
    /// copied so far then.
    pub fn copy_resident(
        &self,
        mem: &mut PhysMemory,
        child: &mut VMA,
        child_pt: &mut PageTable,
    ) -> (r: Result<(), MmError>)
        requires
            self.wf(),
            old(mem).wf(),
            old(child).wf(),
            old(child_pt).wf(),
            old(child).resident() == Map::<usize, Page>::empty(),
            old(child).spec_start() == self.spec_start(),
            old(child).spec_end() == self.spec_end(),
        ensures
            final(mem).wf(),
            final(child).wf(),
            final(child_pt).wf(),
            final(child_pt)@.root == old(child_pt)@.root,
            final(child_pt)@.ram_start == old(child_pt)@.ram_start,
            final(child_pt)@.ram_end == old(child_pt)@.ram_end,
            final(child).same_area(*old(child)),
            final(child).flags() == old(child).flags(),
            leaves_kept(old(child_pt)@, final(child_pt)@),
            r is Ok ==> kept(old(mem)@, final(mem)@) && self.is_copy(
                *final(child),
                old(mem)@,
                final(mem)@,
            ) && final(child).is_mapped(final(child_pt)@),
            self.resident() == Map::<usize, Page>::empty() ==> r is Ok && final(mem)@ == old(mem)@
                && final(child_pt)@ == old(child_pt)@,
            self.copy_post(
                *old(child),
                PtMem { pt: old(child_pt)@, mem: old(mem)@ },
                *final(child),
                PtMem { pt: final(child_pt)@, mem: final(mem)@ },
                r,
            ),
    {
        let mut va: usize = self.start_vaddr.0;
        while va < self.end_vaddr.0
            invariant
                self.wf(),
                mem.wf(),
                child.wf(),
                child_pt.wf(),
                child_pt@.root == old(child_pt)@.root,
                child_pt@.ram_start == old(child_pt)@.ram_start,
                child_pt@.ram_end == old(child_pt)@.ram_end,
                child.same_area(*old(child)),
                child.flags() == old(child).flags(),
                old(child).spec_start() == self.spec_start(),
                old(child).spec_end() == self.spec_end(),
                self.spec_start() <= va <= self.spec_end(),
                va % 4096 == 0,
                kept(old(mem)@, mem@),
                leaves_kept(old(child_pt)@, child_pt@),
                child.is_mapped(child_pt@),
                self.resident() == Map::<usize, Page>::empty() ==> mem@ == old(mem)@ && child_pt@
                    == old(child_pt)@,
                self.copy_reach(
                    *old(child),
                    PtMem { pt: old(child_pt)@, mem: old(mem)@ },
                    va as int,
                    *child,
                    PtMem { pt: child_pt@, mem: mem@ },
                ),
                forall|key: usize| #[trigger]
                    child.resident().contains_key(key) <==> (self.resident().contains_key(key)
                        && key < va),
                forall|key: usize| #[trigger]
                    child.resident().contains_key(key) ==> child.resident()[key].spec_order()
                        == self.resident()[key].spec_order() && copied(
                        old(mem)@,
                        mem@,
                        self.resident()[key].spec_pfn(),
                        child.resident()[key].spec_pfn(),
                        run_pages(self.resident()[key].spec_order() as nat) as int,
                    ),
            decreases self.spec_end() - va,
        {
            match self.pages_tree.get(&va) {
                None => {},
                Some(src) => {
                    let ghost mem0 = mem@;
                    let ghost child0 = *child;
                    let ghost pt0 = child_pt@;
                    proof {
                        assert(self.resident().contains_key(va));
                        assert(self.block_fits(va, *src));
                    }
                    let ghost c_old = *old(child);
                    let ghost s_old = PtMem { pt: old(child_pt)@, mem: old(mem)@ };
                    let ghost sp = PtMem { pt: pt0, mem: mem0 };
                    match Self::copy_block_into(src, mem, child, child_pt, va) {
                        Err(e) => {
                            proof {
                                Self::lemma_leaves_kept_trans(old(child_pt)@, pt0, child_pt@);
                                assert(self.copy_reach(c_old, s_old, va as int, child0, sp));
                            }
                            return Err(e);
                        },
                        Ok(_) => {},
                    }
                    proof {
                        self.lemma_copy_reach_step(
                            c_old,
                            s_old,
                            va,
                            child0,
                            sp,
                            *child,
                            PtMem { pt: child_pt@, mem: mem@ },
                        );
                        Self::lemma_leaves_kept_trans(old(child_pt)@, pt0, child_pt@);
                        assert forall|key: usize| #[trigger]
                            child.resident().contains_key(key) implies mapped(
                            child_pt@,
                            key as int / 4096,
                            child.resident()[key].spec_pfn(),
                            pte_flags_of(child.flags().bits),
                            run_pages(child.resident()[key].spec_order() as nat) as int,
                        ) by {
                            if key != va {
                                assert(child0.resident().contains_key(key));
                                Self::lemma_mapped_kept(
                                    pt0,
                                    child_pt@,
                                    key as int / 4096,
                                    child0.resident()[key].spec_pfn(),
                                    pte_flags_of(child.flags().bits),
                                    run_pages(child0.resident()[key].spec_order() as nat) as int,
                                );
                            }
                        }
                        let mem2 = mem@;
                        assert forall|x: int| #[trigger] old(mem)@.bytes.dom().contains(
                            x,
                        ) implies mem2.bytes.dom().contains(x) && mem2.bytes[x] == old(
                            mem,
                        )@.bytes[x] by {
                            assert(mem0.bytes.dom().contains(x));
                        }
                        assert forall|key: usize| #[trigger]
                            child.resident().contains_key(key) implies child.resident()[key].spec_order()
                            == self.resident()[key].spec_order() && copied(
                            old(mem)@,
                            mem2,
                            self.resident()[key].spec_pfn(),
                            child.resident()[key].spec_pfn(),
                            run_pages(self.resident()[key].spec_order() as nat) as int,
                        ) by {
                            let s_pfn = self.resident()[key].spec_pfn();
                            let d_pfn = child.resident()[key].spec_pfn();
                            let m = run_pages(self.resident()[key].spec_order() as nat) as int;
                            if key == va {
                                assert forall|x: int|
                                    s_pfn <= x < s_pfn + m && #[trigger] old(
                                        mem,
                                    )@.bytes.dom().contains(x) implies mem2.bytes.dom().contains(
                                    x - s_pfn + d_pfn,
                                ) && mem2.bytes[x - s_pfn + d_pfn] == old(mem)@.bytes[x] by {
                                    assert(mem0.bytes.dom().contains(x));
                                }
                            } else {
                                assert(child0.resident().contains_key(key));
                                assert forall|x: int|
                                    s_pfn <= x < s_pfn + m && #[trigger] old(
                                        mem,
                                    )@.bytes.dom().contains(x) implies mem2.bytes.dom().contains(
                                    x - s_pfn + d_pfn,
                                ) && mem2.bytes[x - s_pfn + d_pfn] == old(mem)@.bytes[x] by {
                                    assert(mem0.bytes.dom().contains(x - s_pfn + d_pfn));
                                }
                            }
                        }
                    }
                },
            }
            proof {
                assert forall|key: usize| #[trigger]
                    child.resident().contains_key(key) <==> (self.resident().contains_key(key)
                        && key < va + 4096) by {
                    if self.resident().contains_key(key) {
                        let o = self.resident()[key].spec_order();
                        assert(self.block_fits(key, self.resident()[key]));
                        lemma_run_pages_pos(o as nat);
                        lemma_page_of(key as int, run_pages(o as nat) as int, 0);
                    }
                }
            }
            va += 4096;
        }
        proof {
            assert forall|key: usize| #[trigger]
                child.resident().contains_key(key) <==> self.resident().contains_key(key) by {
                if self.resident().contains_key(key) {
                    assert(self.block_fits(key, self.resident()[key]));
                    lemma_run_pages_pos(self.resident()[key].spec_order() as nat);
                }
            }
            assert forall|key: usize| #[trigger]
                self.resident().contains_key(key) implies child.resident()[key].spec_order()
                == self.resident()[key].spec_order() && copied(
                old(mem)@,
                mem@,
                self.resident()[key].spec_pfn(),
                child.resident()[key].spec_pfn(),
                run_pages(self.resident()[key].spec_order() as nat) as int,
            ) by {
                assert(child.resident().contains_key(key));
            }
        }
        Ok(())
    }

    /// The span of a single frame is a page.
    proof fn lemma_span_one()
        ensures
            span_bytes(0) == 4096,
    {
        reveal_with_fuel(run_pages, 2);
    }

    /// Taking in a fault is idempotent: once a fault at `v` has left the
    /// page resident, every further fault at `v` succeeds and changes
    /// nothing, neither the area nor the page table nor the memory.
    ///
    /// `before`, `pt0` and `mem0` are the state at the first fault, `after`,
    /// `pt1` and `mem1` the state that it left, and `again`, `pt2`, `mem2`
    /// and `r2` what the next fault makes of that.
    pub proof fn lemma_fault_idempotent(
        before: VMA,
        after: VMA,
        again: VMA,
        pt0: PtView,
        mem0: MemView,
        pt1: PtView,
        mem1: MemView,
        pt2: PtView,
        mem2: MemView,
        v: usize,
        r2: Result<PopulateStep, MmError>,
    )
        requires
            Self::fault_post(
                before,
                after,
                pt0,
                mem0,
                pt1,
                mem1,
                v,
                Ok::<PopulateStep, MmError>(PopulateStep::Done),
            ),
            Self::fault_post(after, again, pt1, mem1, pt2, mem2, v, r2),
        ensures
            after.covered(v as int),
            r2 == Ok::<PopulateStep, MmError>(PopulateStep::Done),
            again@ == after@,
            pt2 == pt1,
            mem2 == mem1,
    {
        Self::lemma_span_one();
        if before.covered(v as int) {
            let va = choose|va: usize| before.covers(va, v as int);
            assert(after.covers(va, v as int));
        } else {
            assert(after.covers(v, v as int));
        }
    }

    /// Once a fault at `v` in a file area has been finished, every further
    /// fault at `v` succeeds and changes nothing.
    pub proof fn lemma_finish_idempotent(
        before: VMA,
        after: VMA,
        again: VMA,
        pt0: PtView,
        mem0: MemView,
        pt1: PtView,
        mem1: MemView,
        pt2: PtView,
        mem2: MemView,
        v: usize,
        page: Page,
        data: Seq<u8>,
        r2: Result<PopulateStep, MmError>,
    )
        requires
            Self::finish_post(
                before,
                after,
                pt0,
                mem0,
                pt1,
                mem1,
                v,
                page,
                data,
                Ok::<(), MmError>(()),
            ),
            Self::fault_post(after, again, pt1, mem1, pt2, mem2, v, r2),
        ensures
            after.covered(v as int),
            r2 == Ok::<PopulateStep, MmError>(PopulateStep::Done),
            again@ == after@,
            pt2 == pt1,
            mem2 == mem1,
    {
        Self::lemma_span_one();
        if before.covered(v as int) {
            let va = choose|va: usize| before.covers(va, v as int);
            assert(after.covers(va, v as int));
        } else {
            assert(after.covers(v, v as int));
        }
    }
}

} // verus!
