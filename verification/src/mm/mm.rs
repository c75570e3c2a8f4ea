//! The address space of a task: its areas, in the order of their addresses
//! and apart from each other, and the page table that they share.
use vstd::prelude::*;
use crate::mm::addr::{page_floor, Addr};
use crate::mm::page::Page;
use crate::mm::pagetable::{leaves_kept, mapped, page_pte, page_vpn, PageTable, PtMem, PtView};
use crate::mm::vma::{
    release_map, wb_views, PopulateStep, Released, VmFlags, WbView, WriteBack, VMA, VM_ANON,
    VM_DIRTY, VM_EXEC, VM_READ, VM_WRITE,
};
use crate::mm::{alloc_head, alloc_ok, alloc_view, copied, kept, MemView, MmError, PhysMemory};

verus! {

/// The kind of access that faulted.
#[derive(Copy, Clone, Debug, PartialEq, Eq, Structural)]
pub enum FaultKind {
    /// A load.
    Read,
    /// A store.
    Write,
    /// An instruction fetch.
    Exec,
}

/// The flags permit an access of the given kind.
pub open spec fn permits(flags: VmFlags, kind: FaultKind) -> bool {
    match kind {
        FaultKind::Read => flags.has(VM_READ),
        FaultKind::Write => flags.has(VM_WRITE),
        FaultKind::Exec => flags.has(VM_EXEC),
    }
}

/// Address `v` lies in area `a`.
pub open spec fn holds(a: VMA, v: int) -> bool {
    a.spec_start() <= v < a.spec_end()
}

/// The areas `a` and `b` overlap: neither ends at or before the start of
/// the other.
pub open spec fn overlap(a: VMA, b: VMA) -> bool {
    !(a.spec_end() <= b.spec_start() || b.spec_end() <= a.spec_start())
}

/// Where an area `vma` goes among the areas `a`: after every area that ends
/// at or before its start, and before the rest.
pub open spec fn is_insert_pos(a: Seq<VMA>, vma: VMA, idx: int) -> bool {
    &&& 0 <= idx <= a.len()
    &&& forall|i: int| 0 <= i < idx ==> (#[trigger] a[i]).spec_end() <= vma.spec_start()
    &&& idx < a.len() ==> !(a[idx].spec_end() <= vma.spec_start())
}

/// An address space.
pub struct MmStruct {
    vmas: Vec<VMA>,
    pagetable: PageTable,
}

impl MmStruct {
    /// The areas, in the order of their addresses.
    pub closed spec fn areas(&self) -> Seq<VMA> {
        self.vmas@
    }

    /// The page table.
    pub closed spec fn table(&self) -> PageTable {
        self.pagetable
    }

    /// The address space's invariant: a well-formed page table; areas that
    /// are well formed and know that page table; and each area ending at or
    /// before the start of the next, so that no two areas share an address.
    pub open spec fn wf(&self) -> bool {
        &&& self.table().wf()
        &&& forall|i: int|
            0 <= i < self.areas().len() ==> (#[trigger] self.areas()[i]).wf()
                && self.areas()[i].table_root() == self.table()@.root
        &&& forall|i: int, j: int|
            0 <= i < j < self.areas().len() ==> (#[trigger] self.areas()[i]).spec_end() <= (
            #[trigger] self.areas()[j]).spec_start()
    }

    /// No address lies in two areas.
    pub proof fn lemma_disjoint(&self, i: int, j: int, v: int)
        requires
            self.wf(),
            0 <= i < self.areas().len(),
            0 <= j < self.areas().len(),
            i != j,
        ensures
            !(holds(self.areas()[i], v) && holds(self.areas()[j], v)),
    {
        if i < j {
            assert(self.areas()[i].spec_end() <= self.areas()[j].spec_start());
        } else {
            assert(self.areas()[j].spec_end() <= self.areas()[i].spec_start());
        }
    }

    /// An address space without an area, its page table in a fresh frame.
    /// `None`, with the memory unchanged, when no frame is free.
    pub fn new(mem: &mut PhysMemory) -> (r: Option<Self>)
        requires
            old(mem).wf(),
        ensures
            final(mem).wf(),
            match r {
                Some(mm) => {
                    &&& alloc_ok(old(mem)@, 0)
                    &&& final(mem)@ == alloc_view(old(mem)@, 0)
                    &&& mm.wf()
                    &&& mm.areas().len() == 0
                    &&& mm.table()@ == (PtView {
                        root: alloc_head(old(mem)@, 0),
                        ram_start: old(mem)@.start,
                        ram_end: old(mem)@.end,
                        leaves: Map::empty(),
                        mids: Map::empty(),
                        lows: Map::empty(),
                    })
                },
                None => !alloc_ok(old(mem)@, 0) && *final(mem) == *old(mem),
            },
    {
        match PageTable::new(mem) {
            None => None,
            Some(pt) => Some(MmStruct { vmas: Vec::new(), pagetable: pt }),
        }
    }

    /// The page table.
    pub fn get_pagetable(&self) -> (r: &PageTable)
        ensures
            *r == self.table(),
    {
        &self.pagetable
    }

    /// The number of areas.
    pub fn len(&self) -> (r: usize)
        ensures
            r == self.areas().len(),
    {
        self.vmas.len()
    }

    /// The area with the given index.
    pub fn get(&self, idx: usize) -> (r: Option<&VMA>)
        ensures
            match r {
                Some(a) => idx < self.areas().len() && *a == self.areas()[idx as int],
                None => idx >= self.areas().len(),
            },
    {
        if idx < self.vmas.len() {
            Some(&self.vmas[idx])
        } else {
            None
        }
    }

    /// The area `vma` can join the address space: it knows the page table
    /// and overlaps no area.
    pub open spec fn insert_ok(&self, vma: VMA) -> bool {
        &&& vma.table_root() == self.table()@.root
        &&& forall|i: int| 0 <= i < self.areas().len() ==> !overlap(vma, #[trigger] self.areas()[i])
    }

    /// Adds an area.  The area comes back, and nothing changes, where it
    /// overlaps an area of the address space or knows another page table.
    pub fn insert(&mut self, vma: VMA) -> (r: Result<(), VMA>)
        requires
            old(self).wf(),
            vma.wf(),
        ensures
            final(self).wf(),
            final(self).table() == old(self).table(),
            match r {
                Ok(_) => {
                    &&& old(self).insert_ok(vma)
                    &&& exists|idx: int|
                        is_insert_pos(old(self).areas(), vma, idx) && final(self).areas() == old(
                            self,
                        ).areas().insert(idx, vma)
                },
                Err(v) => !old(self).insert_ok(vma) && v == vma && final(self).areas() == old(
                    self,
                ).areas(),
            },
    {
        if vma.get_pagetable().0 != self.pagetable.root_pfn().0 {
            return Err(vma);
        }
        let start = vma.get_start_vaddr().0;
        let end = vma.get_end_vaddr().0;
        let mut idx: usize = 0;
        while idx < self.vmas.len() && self.vmas[idx].get_end_vaddr().0 <= start
            invariant
                idx <= self.vmas@.len(),
                *self == *old(self),
                start == vma.spec_start(),
                forall|i: int| 0 <= i < idx ==> (#[trigger] self.areas()[i]).spec_end() <= start,
            decreases self.vmas@.len() - idx,
        {
            idx += 1;
        }
        if idx < self.vmas.len() && end > self.vmas[idx].get_start_vaddr().0 {
            proof {
                assert(overlap(vma, self.areas()[idx as int]));
            }
            return Err(vma);
        }
        proof {
            assert(is_insert_pos(self.areas(), vma, idx as int));
            assert forall|i: int| 0 <= i < self.areas().len() implies !overlap(
                vma,
                #[trigger] self.areas()[i],
            ) by {
                if i > idx {
                    assert(self.areas()[idx as int].spec_end() <= self.areas()[i].spec_start());
                    assert(self.areas()[idx as int].wf());
                }
            }
        }
        self.vmas.insert(idx, vma);
        proof {
            let a0 = old(self).areas();
            let a1 = self.areas();
            assert(a1 == a0.insert(idx as int, vma));
            assert forall|i: int| 0 <= i < a1.len() implies (#[trigger] a1[i]).wf()
                && a1[i].table_root() == self.table()@.root by {
                if i < idx {
                    assert(a1[i] == a0[i]);
                } else if i > idx {
                    assert(a1[i] == a0[i - 1]);
                }
            }
            assert forall|i: int, j: int| 0 <= i < j < a1.len() implies (#[trigger] a1[i]).spec_end()
                <= (#[trigger] a1[j]).spec_start() by {
                let i0 = if i < idx {
                    i
                } else {
                    i - 1
                };
                let j0 = if j < idx {
                    j
                } else {
                    j - 1
                };
                if i == idx {
                    assert(a1[j] == a0[j0]);
                    assert(!overlap(vma, a0[j0]));
                    if j0 > idx {
                        assert(a0[idx as int].spec_end() <= a0[j0].spec_start());
                    }
                    assert(a0[idx as int].wf());
                } else if j == idx {
                    assert(a1[i] == a0[i0]);
                } else {
                    assert(a1[i] == a0[i0]);
                    assert(a1[j] == a0[j0]);
                }
            }
        }
        Ok(())
    }

    /// The index of the area that holds `vaddr`, if one does.
    pub fn find_index(&self, vaddr: Addr) -> (r: Option<usize>)
        ensures
            match r {
                Some(i) => i < self.areas().len() && holds(self.areas()[i as int], vaddr.0 as int),
                None => forall|i: int|
                    0 <= i < self.areas().len() ==> !holds(#[trigger] self.areas()[i], vaddr.0 as int),
            },
    {
        let mut i: usize = 0;
        while i < self.vmas.len()
            invariant
                i <= self.vmas@.len(),
                forall|k: int| 0 <= k < i ==> !holds(#[trigger] self.areas()[k], vaddr.0 as int),
            decreases self.vmas@.len() - i,
        {
            if self.vmas[i].in_vma(vaddr) {
                return Some(i);
            }
            i += 1;
        }
        None
    }

    /// The area that holds `vaddr`, if one does.
    pub fn find(&self, vaddr: Addr) -> (r: Option<&VMA>)
        ensures
            match r {
                Some(a) => holds(*a, vaddr.0 as int) && exists|i: int|
                    0 <= i < self.areas().len() && #[trigger] self.areas()[i] == *a,
                None => forall|i: int|
                    0 <= i < self.areas().len() ==> !holds(#[trigger] self.areas()[i], vaddr.0 as int),
            },
    {
        match self.find_index(vaddr) {
            None => None,
            Some(i) => {
                proof {
                    assert(self.areas()[i as int] == self.vmas@[i as int]);
                }
                Some(&self.vmas[i])
            },
        }
    }

    /// `self` is `before` but for the area with index `idx`, and the page
    /// table may differ.
    pub open spec fn same_but(&self, before: MmStruct, idx: int) -> bool {
        &&& self.areas().len() == before.areas().len()
        &&& forall|i: int|
            0 <= i < self.areas().len() && i != idx ==> #[trigger] self.areas()[i]
                == before.areas()[i]
    }

    /// What a fault at `v` of kind `kind` does: `before` and `mem0` are the
    /// address space and the memory as they were, `self` and `mem1` as they
    /// are, and `r` is what `handle_fault` returned.  Without an area that
    /// holds `v` the fault is a `SegFault`; in an area that does not permit
    /// the access it is a `ProtFault`; both leave everything as it was.
    /// Else the area takes in a fault at the page of `v`.
    pub open spec fn fault_post(
        &self,
        before: MmStruct,
        mem0: MemView,
        mem1: MemView,
        v: usize,
        kind: FaultKind,
        r: Result<PopulateStep, MmError>,
    ) -> bool {
        if forall|i: int| 0 <= i < before.areas().len() ==> !holds(#[trigger] before.areas()[i], v as int) {
            &&& r == Err::<PopulateStep, MmError>(MmError::SegFault)
            &&& self.areas() == before.areas()
            &&& self.table()@ == before.table()@
            &&& mem1 == mem0
        } else {
            exists|idx: int|
                {
                    &&& 0 <= idx < before.areas().len()
                    &&& holds(#[trigger] before.areas()[idx], v as int)
                    &&& if !permits(before.areas()[idx].flags(), kind) {
                        &&& r == Err::<PopulateStep, MmError>(MmError::ProtFault)
                        &&& self.areas() == before.areas()
                        &&& self.table()@ == before.table()@
                        &&& mem1 == mem0
                    } else {
                        &&& self.same_but(before, idx)
                        &&& VMA::fault_post(
                            before.areas()[idx],
                            self.areas()[idx],
                            before.table()@,
                            mem0,
                            self.table()@,
                            mem1,
                            page_floor(v as int) as usize,
                            r,
                        )
                    }
                }
        }
    }

    /// Handles a page fault at `vaddr` for an access of kind `kind`.
    pub fn handle_fault(&mut self, mem: &mut PhysMemory, vaddr: Addr, kind: FaultKind) -> (r:
        Result<PopulateStep, MmError>)
        requires
            old(self).wf(),
            old(mem).wf(),
        ensures
            final(self).wf(),
            final(mem).wf(),
            final(self).fault_post(*old(self), old(mem)@, final(mem)@, vaddr.0, kind, r),
    {
        let idx = match self.find_index(vaddr) {
            None => {
                return Err(MmError::SegFault);
            },
            Some(i) => i,
        };
        let allowed = match kind {
            FaultKind::Read => self.vmas[idx].readable(),
            FaultKind::Write => self.vmas[idx].writeable(),
            FaultKind::Exec => self.vmas[idx].execable(),
        };
        if !allowed {
            return Err(MmError::ProtFault);
        }
        let page = vaddr.floor();
        let ghost a0 = old(self).areas();
        proof {
            assert(a0[idx as int].wf());
        }
        let r = self.vmas[idx].populate(&mut self.pagetable, mem, page);
        proof {
            let a1 = self.areas();
            assert(self.same_but(*old(self), idx as int));
            assert(a1[idx as int].spec_start() == a0[idx as int].spec_start());
            assert(a1[idx as int].spec_end() == a0[idx as int].spec_end());
            assert(a1[idx as int].table_root() == a0[idx as int].table_root());
            assert(self.table()@.root == old(self).table()@.root);
            assert forall|i: int| 0 <= i < a1.len() implies (#[trigger] a1[i]).wf()
                && a1[i].table_root() == self.table()@.root by {
                if i != idx {
                    assert(a1[i] == a0[i]);
                    assert(a0[i].wf());
                }
            }
            assert forall|i: int, j: int| 0 <= i < j < a1.len() implies (#[trigger] a1[i]).spec_end()
                <= (#[trigger] a1[j]).spec_start() by {
                assert(a0[i].spec_end() <= a0[j].spec_start());
                if i != idx {
                    assert(a1[i] == a0[i]);
                }
                if j != idx {
                    assert(a1[j] == a0[j]);
                }
            }
            assert(holds(old(self).areas()[idx as int], vaddr.0 as int));
        }
        r
    }

    /// What `handle_fault_finish` does at `v`: without an area that holds
    /// `v` the frame is given up and the result is a `SegFault`; else the
    /// area finishes the fault at the page of `v`.
    pub open spec fn finish_post(
        &self,
        before: MmStruct,
        mem0: MemView,
        mem1: MemView,
        v: usize,
        page: Page,
        data: Seq<u8>,
        r: Result<(), MmError>,
    ) -> bool {
        if forall|i: int| 0 <= i < before.areas().len() ==> !holds(#[trigger] before.areas()[i], v as int) {
            &&& r == Err::<(), MmError>(MmError::SegFault)
            &&& self.areas() == before.areas()
            &&& self.table()@ == before.table()@
            &&& mem1 == crate::mm::drop_if(mem0, page.spec_pfn(), page.spec_order())
        } else {
            exists|idx: int|
                {
                    &&& 0 <= idx < before.areas().len()
                    &&& holds(#[trigger] before.areas()[idx], v as int)
                    &&& self.same_but(before, idx)
                    &&& VMA::finish_post(
                        before.areas()[idx],
                        self.areas()[idx],
                        before.table()@,
                        mem0,
                        self.table()@,
                        mem1,
                        page_floor(v as int) as usize,
                        page,
                        data,
                        r,
                    )
                }
        }
    }

    /// Finishes a fault at `vaddr` in a file area: `page` is the frame that
    /// `handle_fault` handed out and `data` holds the bytes that were read
    /// from the file.
    pub fn handle_fault_finish(
        &mut self,
        mem: &mut PhysMemory,
        vaddr: Addr,
        page: Page,
        data: &[u8],
    ) -> (r: Result<(), MmError>)
        requires
            old(self).wf(),
            old(mem).wf(),
        ensures
            final(self).wf(),
            final(mem).wf(),
            final(self).finish_post(*old(self), old(mem)@, final(mem)@, vaddr.0, page, data@, r),
    {
        let idx = match self.find_index(vaddr) {
            None => {
                crate::mm::drop_page(mem, page);
                return Err(MmError::SegFault);
            },
            Some(i) => i,
        };
        let va = vaddr.floor();
        let ghost a0 = old(self).areas();
        proof {
            assert(a0[idx as int].wf());
        }
        let r = self.vmas[idx].populate_finish(&mut self.pagetable, mem, va, page, data);
        proof {
            let a1 = self.areas();
            assert(self.same_but(*old(self), idx as int));
            assert(a1[idx as int].spec_start() == a0[idx as int].spec_start());
            assert(a1[idx as int].spec_end() == a0[idx as int].spec_end());
            assert(a1[idx as int].table_root() == a0[idx as int].table_root());
            assert(self.table()@.root == old(self).table()@.root);
            assert forall|i: int| 0 <= i < a1.len() implies (#[trigger] a1[i]).wf()
                && a1[i].table_root() == self.table()@.root by {
                if i != idx {
                    assert(a1[i] == a0[i]);
                    assert(a0[i].wf());
                }
            }
            assert forall|i: int, j: int| 0 <= i < j < a1.len() implies (#[trigger] a1[i]).spec_end()
                <= (#[trigger] a1[j]).spec_start() by {
                assert(a0[i].spec_end() <= a0[j].spec_start());
                if i != idx {
                    assert(a1[i] == a0[i]);
                }
                if j != idx {
                    assert(a1[j] == a0[j]);
                }
            }
            assert(holds(old(self).areas()[idx as int], vaddr.0 as int));
        }
        r
    }
}

/// Area `a` lies inside the range from `lo` to `hi`.
pub open spec fn inside(a: VMA, lo: int, hi: int) -> bool {
    lo <= a.spec_start() && a.spec_end() <= hi
}

/// The areas of `a` that do not lie inside the range from `lo` to `hi`, in
/// their order.
pub open spec fn keep_outside(a: Seq<VMA>, lo: int, hi: int) -> Seq<VMA>
    decreases a.len(),
{
    if a.len() == 0 {
        a
    } else if inside(a.last(), lo, hi) {
        keep_outside(a.drop_last(), lo, hi)
    } else {
        keep_outside(a.drop_last(), lo, hi).push(a.last())
    }
}

/// Releasing, in their order, all blocks of the areas of `a` that lie inside
/// the range from `lo` to `hi`.
pub open spec fn release_areas(s: PtMem, a: Seq<VMA>, lo: int, hi: int, wbs: Seq<WbView>) -> Released
    decreases a.len(),
{
    if a.len() == 0 {
        Released { state: s, wbs }
    } else {
        let r = if inside(a[0], lo, hi) {
            release_map(a[0].wb_info(), s, a[0].resident(), wbs)
        } else {
            Released { state: s, wbs }
        };
        release_areas(r.state, a.subrange(1, a.len() as int), lo, hi, r.wbs)
    }
}

impl MmStruct {
    /// What splitting at `v` does to the areas: where an area can be split
    /// at `v`, its two parts stand in its place; else nothing changes.
    pub open spec fn split_post(&self, before: MmStruct, v: usize) -> bool {
        &&& self.table() == before.table()
        &&& if exists|i: int|
            0 <= i < before.areas().len() && (#[trigger] before.areas()[i]).can_split(v as int) {
            exists|i: int|
                {
                    &&& 0 <= i < before.areas().len()
                    &&& (#[trigger] before.areas()[i]).can_split(v as int)
                    &&& self.areas().len() == before.areas().len() + 1
                    &&& self.areas()[i].is_split_of(self.areas()[i + 1], before.areas()[i], v)
                    &&& forall|j: int| 0 <= j < i ==> #[trigger] self.areas()[j] == before.areas()[j]
                    &&& forall|j: int|
                        i < j < before.areas().len() ==> self.areas()[j + 1]
                            == #[trigger] before.areas()[j]
                }
        } else {
            self.areas() == before.areas()
        }
    }

    /// Splits the area that holds `vaddr` there, where it can be split.
    pub fn split_at(&mut self, vaddr: Addr)
        requires
            old(self).wf(),
        ensures
            final(self).wf(),
            final(self).split_post(*old(self), vaddr.0),
    {
        let idx = match self.find_index(vaddr) {
            None => {
                proof {
                    assert forall|i: int| 0 <= i < self.areas().len() implies !(
                    #[trigger] self.areas()[i]).can_split(vaddr.0 as int) by {
                        assert(!holds(self.areas()[i], vaddr.0 as int));
                    }
                }
                return ;
            },
            Some(i) => i,
        };
        let ghost a0 = old(self).areas();
        proof {
            assert(a0[idx as int].wf());
            assert forall|i: int| 0 <= i < a0.len() && i != idx implies !(#[trigger] a0[i]).can_split(
                vaddr.0 as int,
            ) by {
                self.lemma_disjoint(i, idx as int, vaddr.0 as int);
            }
        }
        match self.vmas[idx].split(vaddr) {
            None => {
                proof {
                    assert(self.areas() =~= a0);
                }
            },
            Some(right) => {
                let ghost left = self.areas()[idx as int];
                let len = self.vmas.len();
                assert(idx < len);
                self.vmas.insert(idx + 1, right);
                proof {
                    let a1 = self.areas();
                    assert(a1[idx as int] == left);
                    assert(a1[idx + 1] == right);
                    assert forall|j: int| 0 <= j < idx implies #[trigger] a1[j] == a0[j] by {}
                    assert forall|j: int| idx < j < a0.len() implies a1[j + 1] == #[trigger] a0[j] by {}
                    assert forall|i: int| 0 <= i < a1.len() implies (#[trigger] a1[i]).wf()
                        && a1[i].table_root() == self.table()@.root by {
                        if i < idx {
                            assert(a1[i] == a0[i]);
                        } else if i > idx + 1 {
                            assert(a1[i] == a0[i - 1]);
                        }
                    }
                    assert forall|i: int, j: int| 0 <= i < j < a1.len() implies (
                    #[trigger] a1[i]).spec_end() <= (#[trigger] a1[j]).spec_start() by {
                        let i0 = if i <= idx {
                            i
                        } else {
                            i - 1
                        };
                        let j0 = if j <= idx {
                            j
                        } else {
                            j - 1
                        };
                        if i0 < j0 {
                            assert(a0[i0].spec_end() <= a0[j0].spec_start());
                        }
                        assert(a0[i0].wf() && a0[j0].wf());
                        if i < idx {
                            assert(a1[i] == a0[i0]);
                        }
                        if i > idx + 1 {
                            assert(a1[i] == a0[i0]);
                        }
                        if j < idx {
                            assert(a1[j] == a0[j0]);
                        }
                        if j > idx + 1 {
                            assert(a1[j] == a0[j0]);
                        }
                    }
                }
            },
        }
    }

    /// Releases every block of the areas that lie inside the range from
    /// `lo` to `hi`, drops those areas, and returns what is to be written
    /// back to files.
    pub fn release_inside(&mut self, mem: &mut PhysMemory, lo: Addr, hi: Addr) -> (r: Vec<
        WriteBack,
    >)
        requires
            old(self).wf(),
            old(mem).wf(),
        ensures
            final(self).wf(),
            final(mem).wf(),
            final(self).table()@.root == old(self).table()@.root,
            final(self).areas() == keep_outside(old(self).areas(), lo.0 as int, hi.0 as int),
            (Released {
                state: PtMem { pt: final(self).table()@, mem: final(mem)@ },
                wbs: wb_views(r@),
            }) == release_areas(
                PtMem { pt: old(self).table()@, mem: old(mem)@ },
                old(self).areas(),
                lo.0 as int,
                hi.0 as int,
                Seq::empty(),
            ),
    {
        let mut out: Vec<WriteBack> = Vec::new();
        let ghost a0 = old(self).areas();
        let ghost s0 = PtMem { pt: old(self).table()@, mem: old(mem)@ };
        let mut i: usize = 0;
        let ghost mut j: int = 0;
        proof {
            assert(wb_views(out@) =~= Seq::empty());
            assert(a0.take(0) =~= Seq::<VMA>::empty());
            assert(self.areas() =~= keep_outside(a0.take(0), lo.0 as int, hi.0 as int) + a0.skip(0));
        }
        while i < self.vmas.len()
            invariant
                self.wf(),
                mem.wf(),
                self.table()@.root == old(self).table()@.root,
                0 <= j <= a0.len(),
                i <= self.areas().len(),
                i == keep_outside(a0.take(j), lo.0 as int, hi.0 as int).len(),
                self.areas() == keep_outside(a0.take(j), lo.0 as int, hi.0 as int) + a0.skip(j),
                release_areas(s0, a0, lo.0 as int, hi.0 as int, Seq::empty()) == release_areas(
                    PtMem { pt: self.table()@, mem: mem@ },
                    a0.skip(j),
                    lo.0 as int,
                    hi.0 as int,
                    wb_views(out@),
                ),
            decreases a0.len() - j,
        {
            let ghost cur = self.areas();
            let ghost kept = keep_outside(a0.take(j), lo.0 as int, hi.0 as int);
            proof {
                assert(cur[i as int] == a0.skip(j)[0]);
                assert(a0.skip(j)[0] == a0[j]);
                assert(a0.take(j + 1).drop_last() =~= a0.take(j));
                assert(a0.take(j + 1).last() == a0[j]);
                assert(a0.skip(j).subrange(1, a0.skip(j).len() as int) =~= a0.skip(j + 1));
                assert(cur[i as int].wf());
            }
            let start = self.vmas[i].get_start_vaddr().0;
            let end = self.vmas[i].get_end_vaddr().0;
            if lo.0 <= start && end <= hi.0 {
                let mut area = self.vmas.remove(i);
                area.release_into(&mut self.pagetable, mem, &mut out);
                proof {
                    let a1 = self.areas();
                    assert(a1 =~= kept + a0.skip(j + 1));
                    assert forall|x: int| 0 <= x < a1.len() implies (#[trigger] a1[x]).wf()
                        && a1[x].table_root() == self.table()@.root by {
                        if x < i {
                            assert(a1[x] == cur[x]);
                        } else {
                            assert(a1[x] == cur[x + 1]);
                        }
                    }
                    assert forall|x: int, y: int| 0 <= x < y < a1.len() implies (
                    #[trigger] a1[x]).spec_end() <= (#[trigger] a1[y]).spec_start() by {
                        let x0 = if x < i {
                            x
                        } else {
                            x + 1
                        };
                        let y0 = if y < i {
                            y
                        } else {
                            y + 1
                        };
                        assert(a1[x] == cur[x0]);
                        assert(a1[y] == cur[y0]);
                        assert(cur[x0].spec_end() <= cur[y0].spec_start());
                    }
                    j = j + 1;
                }
            } else {
                proof {
                    assert(keep_outside(a0.take(j + 1), lo.0 as int, hi.0 as int) =~= kept.push(
                        a0[j],
                    ));
                    assert(self.areas() =~= kept.push(a0[j]) + a0.skip(j + 1));
                    j = j + 1;
                }
                i += 1;
            }
        }
        proof {
            assert(a0.skip(j).len() == 0);
            assert(j == a0.len());
            assert(a0.take(j) =~= a0);
            assert(self.areas() =~= keep_outside(a0, lo.0 as int, hi.0 as int));
        }
        out
    }

    /// What removing the range from `lo` to `hi` does: the areas are split
    /// at `lo` and at `hi`, where they can be, and what then lies inside the
    /// range is released and dropped.
    pub open spec fn remove_post(
        &self,
        before: MmStruct,
        mem0: MemView,
        mem1: MemView,
        lo: usize,
        hi: usize,
        wbs: Seq<WbView>,
    ) -> bool {
        exists|m1: MmStruct, m2: MmStruct|
            {
                &&& #[trigger] m1.split_post(before, lo)
                &&& #[trigger] m2.split_post(m1, hi)
                &&& self.areas() == keep_outside(m2.areas(), lo as int, hi as int)
                &&& (Released { state: PtMem { pt: self.table()@, mem: mem1 }, wbs })
                    == release_areas(
                    PtMem { pt: m2.table()@, mem: mem0 },
                    m2.areas(),
                    lo as int,
                    hi as int,
                    Seq::empty(),
                )
            }
    }

    /// Removes the range from `lo` to `hi` from the address space, as
    /// `munmap` asks: the areas that reach across `lo` or `hi` are split
    /// there, where they can be; every area that then lies inside the range
    /// is released and dropped.  Returns what is to be written back to
    /// files.
    pub fn remove_range(&mut self, mem: &mut PhysMemory, lo: Addr, hi: Addr) -> (r: Vec<WriteBack>)
        requires
            old(self).wf(),
            old(mem).wf(),
        ensures
            final(self).wf(),
            final(mem).wf(),
            final(self).remove_post(*old(self), old(mem)@, final(mem)@, lo.0, hi.0, wb_views(r@)),
    {
        self.split_at(lo);
        let ghost m1 = *self;
        self.split_at(hi);
        let ghost m2 = *self;
        let r = self.release_inside(mem, lo, hi);
        proof {
            assert(m1.split_post(*old(self), lo.0));
            assert(m2.split_post(m1, hi.0));
        }
        r
    }
}

/// `child` is what a fork makes of the area `parent` in an address space
/// with the page table `pt`: an area over the same range with the same
/// backing; where `parent` is anonymous, with the same flags and with a copy
/// of every resident block, mapped in `pt`; else without the dirty flag and
/// without a resident block.
pub open spec fn is_twin(
    parent: VMA,
    child: VMA,
    pt: PtView,
    v0: MemView,
    v1: MemView,
) -> bool {
    &&& child.spec_start() == parent.spec_start()
    &&& child.spec_end() == parent.spec_end()
    &&& child.backing() == parent.backing()
    &&& child.backing_off() == parent.backing_off()
    &&& child.table_root() == pt.root
    &&& if parent.flags().has(VM_ANON) {
        &&& child.flags() == parent.flags()
        &&& parent.is_copy(child, v0, v1)
        &&& child.is_mapped(pt)
    } else {
        &&& child.flags().bits == parent.flags().bits & !VM_DIRTY
        &&& child.resident() == Map::<usize, Page>::empty()
    }
}

/// `c` is the child that a fork starts from for the area `parent`: an area
/// over the same range with the same backing, for the page table with the
/// root frame `root`, without a resident block; with the flags of `parent`,
/// but for the dirty flag of a file area.
pub open spec fn is_fresh_child(parent: VMA, root: int, c: VMA) -> bool {
    &&& c.spec_start() == parent.spec_start()
    &&& c.spec_end() == parent.spec_end()
    &&& c.backing() == parent.backing()
    &&& c.backing_off() == parent.backing_off()
    &&& c.table_root() == root
    &&& c.flags().bits == (if parent.flags().has(VM_ANON) {
        parent.flags().bits
    } else {
        parent.flags().bits & !VM_DIRTY
    })
    &&& c.resident() == Map::<usize, Page>::empty()
}

/// What the fork makes of one area: `s0` is the state before, `child` and
/// `s1` are the child and the state after, and `r` says whether every block
/// was copied.  The child of a file area is the fresh child; the child of
/// an anonymous area is the fresh child with the blocks of `parent` copied
/// into it, as far as they could be.
pub open spec fn area_fork_post(
    parent: VMA,
    root: int,
    child: VMA,
    s0: PtMem,
    s1: PtMem,
    r: Result<(), MmError>,
) -> bool {
    exists|c0: VMA| #[trigger]
        is_fresh_child(parent, root, c0) && (if parent.flags().has(VM_ANON) {
            parent.copy_post(c0, s0, child, s1, r)
        } else {
            child@ == c0@ && s1 == s0 && r is Ok
        })
}

/// The children `d` and the state `s` are what the fork has made of the
/// first `i` areas of `parents`, one by one, from the state `s0`.
pub open spec fn fork_reach(
    parents: Seq<VMA>,
    root: int,
    s0: PtMem,
    i: int,
    d: Seq<VMA>,
    s: PtMem,
) -> bool
    decreases i,
{
    if i <= 0 {
        d.len() == 0 && s == s0
    } else {
        d.len() == i && exists|sp: PtMem|
            fork_reach(parents, root, s0, i - 1, d.drop_last(), sp) && #[trigger] area_fork_post(
                parents[i - 1],
                root,
                d.last(),
                sp,
                s,
                Ok::<(), MmError>(()),
            )
    }
}

/// One more area forked.
proof fn lemma_fork_reach_step(
    parents: Seq<VMA>,
    root: int,
    s0: PtMem,
    i: int,
    d: Seq<VMA>,
    sp: PtMem,
    child: VMA,
    s: PtMem,
)
    requires
        0 <= i < parents.len(),
        fork_reach(parents, root, s0, i, d, sp),
        area_fork_post(parents[i], root, child, sp, s, Ok::<(), MmError>(())),
        d.len() == i,
    ensures
        fork_reach(parents, root, s0, i + 1, d.push(child), s),
{
    let d1 = d.push(child);
    assert(d1.drop_last() =~= d);
    assert(d1.last() == child);
    assert(fork_reach(parents, root, s0, (i + 1) - 1, d1.drop_last(), sp));
    assert(area_fork_post(parents[(i + 1) - 1], root, d1.last(), sp, s, Ok::<(), MmError>(())));
}

/// Nothing is kept of areas that all lie inside the range.
proof fn lemma_keep_none(a: Seq<VMA>, lo: int, hi: int)
    requires
        forall|i: int| 0 <= i < a.len() ==> inside(#[trigger] a[i], lo, hi),
    ensures
        keep_outside(a, lo, hi).len() == 0,
    decreases a.len(),
{
    if a.len() > 0 {
        assert(inside(a[a.len() - 1], lo, hi));
        assert forall|i: int| 0 <= i < a.drop_last().len() implies inside(
            #[trigger] a.drop_last()[i],
            lo,
            hi,
        ) by {
            assert(a.drop_last()[i] == a[i]);
        }
        lemma_keep_none(a.drop_last(), lo, hi);
    }
}

/// Clearing the dirty flag changes no other flag.
proof fn lemma_clean_keeps(bits: usize)
    by (bit_vector)
    ensures
        (bits & !64usize) & 32 == bits & 32,
        (bits & !64usize) & 64 != 64,
{
}

impl MmStruct {
    /// What `fork_into` does: `pt0` and `mem0` are the page table of the
    /// destination and the memory as they were, `dest` and `mem1` the
    /// destination and the memory as they are, and `r` is the result.  The
    /// areas are forked one by one.  Where the fork of an area fails, that
    /// child and the children before it are released again, in this order.
    pub open spec fn fork_post(
        &self,
        pt0: PtView,
        mem0: MemView,
        dest: MmStruct,
        mem1: MemView,
        r: Result<(), MmError>,
    ) -> bool {
        let s0 = PtMem { pt: pt0, mem: mem0 };
        let s1 = PtMem { pt: dest.table()@, mem: mem1 };
        match r {
            Ok(_) => fork_reach(
                self.areas(),
                pt0.root,
                s0,
                self.areas().len() as int,
                dest.areas(),
                s1,
            ),
            Err(e) => dest.areas().len() == 0 && exists|
                i: int,
                d: Seq<VMA>,
                sp: PtMem,
                child: VMA,
                sc: PtMem,
            |
                {
                    &&& 0 <= i < self.areas().len()
                    &&& #[trigger] fork_reach(self.areas(), pt0.root, s0, i, d, sp)
                    &&& #[trigger] area_fork_post(
                        self.areas()[i],
                        pt0.root,
                        child,
                        sp,
                        sc,
                        Err::<(), MmError>(e),
                    )
                    &&& s1 == release_areas(
                        release_map(child.wb_info(), sc, child.resident(), Seq::empty()).state,
                        d,
                        0,
                        usize::MAX as int,
                        Seq::empty(),
                    ).state
                },
        }
    }

    /// Copies the areas of `self` into `dest`, an address space without an
    /// area and with a page table of its own.  An anonymous area is copied
    /// with its resident blocks: each block into a fresh block with the same
    /// bytes, mapped at the same address in the page table of `dest`.  A
    /// file area is copied without resident blocks and without the dirty
    /// flag; it shares the file.
    ///
    /// Where a block cannot be copied, for want of memory or because the
    /// page table refuses a mapping, everything that was copied is released
    /// again and `dest` is left without an area.
    pub fn fork_into(&self, mem: &mut PhysMemory, dest: &mut MmStruct) -> (r: Result<(), MmError>)
        requires
            self.wf(),
            old(mem).wf(),
            old(dest).wf(),
            old(dest).areas().len() == 0,
        ensures
            final(mem).wf(),
            final(dest).wf(),
            final(dest).table()@.root == old(dest).table()@.root,
            match r {
                Ok(_) => {
                    &&& final(dest).areas().len() == self.areas().len()
                    &&& kept(old(mem)@, final(mem)@)
                    &&& leaves_kept(old(dest).table()@, final(dest).table()@)
                    &&& forall|i: int|
                        0 <= i < self.areas().len() ==> is_twin(
                            #[trigger] self.areas()[i],
                            final(dest).areas()[i],
                            final(dest).table()@,
                            old(mem)@,
                            final(mem)@,
                        )
                },
                Err(_) => final(dest).areas().len() == 0,
            },
            (forall|i: int|
                0 <= i < self.areas().len() ==> (#[trigger] self.areas()[i]).resident()
                    == Map::<usize, Page>::empty()) ==> r is Ok && final(mem)@ == old(mem)@
                && final(dest).table()@ == old(dest).table()@,
            self.fork_post(old(dest).table()@, old(mem)@, *final(dest), final(mem)@, r),
    {
        let root = dest.pagetable.root_pfn();
        let ghost s_old = PtMem { pt: old(dest).table()@, mem: old(mem)@ };
        proof {
            assert(dest.areas().len() == 0);
        }
        let mut i: usize = 0;
        while i < self.vmas.len()
            invariant
                self.wf(),
                mem.wf(),
                dest.wf(),
                i <= self.areas().len(),
                dest.areas().len() == i,
                root.0 == old(dest).table()@.root,
                dest.table()@.root == old(dest).table()@.root,
                kept(old(mem)@, mem@),
                leaves_kept(old(dest).table()@, dest.table()@),
                s_old == (PtMem { pt: old(dest).table()@, mem: old(mem)@ }),
                fork_reach(
                    self.areas(),
                    s_old.pt.root,
                    s_old,
                    i as int,
                    dest.areas(),
                    PtMem { pt: dest.table()@, mem: mem@ },
                ),
                (forall|x: int|
                    0 <= x < self.areas().len() ==> (#[trigger] self.areas()[x]).resident()
                        == Map::<usize, Page>::empty()) ==> mem@ == old(mem)@ && dest.table()@
                    == old(dest).table()@,
                forall|j: int|
                    0 <= j < i ==> is_twin(
                        #[trigger] self.areas()[j],
                        dest.areas()[j],
                        dest.table()@,
                        old(mem)@,
                        mem@,
                    ),
            decreases self.areas().len() - i,
        {
            let a = &self.vmas[i];
            let ghost mem0 = mem@;
            let ghost d0 = dest.areas();
            let ghost pt0 = dest.table()@;
            proof {
                assert(self.areas()[i as int].wf());
                lemma_clean_keeps(a.flags().bits);
            }
            let anon = a.is_anon();
            let flags = if anon {
                a.get_flags()
            } else {
                VmFlags { bits: a.get_flags().bits & !VM_DIRTY }
            };
            let mut child = VMA::new(
                a.get_start_vaddr(),
                a.get_end_vaddr(),
                flags,
                root,
                a.get_file_inode(),
                a.get_file_off(),
            );
            let ghost c0 = child;
            let ghost sp = PtMem { pt: pt0, mem: mem0 };
            proof {
                assert(is_fresh_child(self.areas()[i as int], s_old.pt.root, c0));
            }
            if anon {
                match a.copy_resident(mem, &mut child, &mut dest.pagetable) {
                    Ok(_) => {},
                    Err(e) => {
                        let ghost failed = child;
                        let ghost sc = PtMem { pt: dest.table()@, mem: mem@ };
                        proof {
                            assert(area_fork_post(
                                self.areas()[i as int],
                                s_old.pt.root,
                                failed,
                                sp,
                                sc,
                                Err::<(), MmError>(e),
                            ));
                        }
                        let mut junk: Vec<WriteBack> = Vec::new();
                        proof {
                            assert(wb_views(junk@) =~= Seq::<WbView>::empty());
                        }
                        child.release_into(&mut dest.pagetable, mem, &mut junk);
                        let _ = dest.release_inside(mem, Addr(0), Addr(usize::MAX));
                        proof {
                            assert forall|x: int| 0 <= x < d0.len() implies inside(
                                #[trigger] d0[x],
                                0,
                                usize::MAX as int,
                            ) by {
                                d0[x].lemma_bounds();
                            }
                            lemma_keep_none(d0, 0, usize::MAX as int);
                        }
                        return Err(e);
                    },
                }
            }
            proof {
                assert(area_fork_post(
                    self.areas()[i as int],
                    s_old.pt.root,
                    child,
                    sp,
                    PtMem { pt: dest.table()@, mem: mem@ },
                    Ok::<(), MmError>(()),
                ));
                lemma_fork_reach_step(
                    self.areas(),
                    s_old.pt.root,
                    s_old,
                    i as int,
                    d0,
                    sp,
                    child,
                    PtMem { pt: dest.table()@, mem: mem@ },
                );
            }
            dest.vmas.push(child);
            proof {
                let d1 = dest.areas();
                let mem1 = mem@;
                let pt1 = dest.table()@;
                assert(d1 == d0.push(child));
                assert(leaves_kept(pt0, pt1));
                assert forall|v: int| #[trigger] old(dest).table()@.leaves.dom().contains(
                    v,
                ) implies pt1.leaves.dom().contains(v) && pt1.leaves[v] == old(
                    dest,
                ).table()@.leaves[v] by {
                    assert(pt0.leaves.dom().contains(v));
                }
                assert forall|x: int| #[trigger] old(mem)@.bytes.dom().contains(
                    x,
                ) implies mem1.bytes.dom().contains(x) && mem1.bytes[x] == old(mem)@.bytes[x] by {
                    assert(mem0.bytes.dom().contains(x));
                }
                assert forall|j: int| 0 <= j < i + 1 implies is_twin(
                    #[trigger] self.areas()[j],
                    d1[j],
                    pt1,
                    old(mem)@,
                    mem1,
                ) by {
                    let p = self.areas()[j];
                    if j < i {
                        assert(d1[j] == d0[j]);
                        assert(is_twin(p, d0[j], pt0, old(mem)@, mem0));
                        if p.flags().has(VM_ANON) {
                            assert forall|va: usize| #[trigger]
                                d0[j].resident().contains_key(va) implies mapped(
                                pt1,
                                va as int / 4096,
                                d0[j].resident()[va].spec_pfn(),
                                crate::mm::vma::pte_flags_of(d0[j].flags().bits),
                                crate::mm::buddy::run_pages(
                                    d0[j].resident()[va].spec_order() as nat,
                                ) as int,
                            ) by {
                                let b = va as int / 4096;
                                let f = crate::mm::vma::pte_flags_of(d0[j].flags().bits);
                                let q = d0[j].resident()[va].spec_pfn();
                                let n = crate::mm::buddy::run_pages(
                                    d0[j].resident()[va].spec_order() as nat,
                                ) as int;
                                assert(mapped(pt0, b, q, f, n));
                                assert forall|z: int| 0 <= z < n implies pt1.leaves.dom().contains(
                                    #[trigger] page_vpn(b, z),
                                ) && pt1.leaves[page_vpn(b, z)] == page_pte(q, f, z) by {
                                    assert(pt0.leaves.dom().contains(page_vpn(b, z)));
                                }
                            }
                            assert forall|va: usize| #[trigger]
                                p.resident().contains_key(va) implies d0[j].resident()[va].spec_order()
                                == p.resident()[va].spec_order() && copied(
                                old(mem)@,
                                mem1,
                                p.resident()[va].spec_pfn(),
                                d0[j].resident()[va].spec_pfn(),
                                crate::mm::buddy::run_pages(
                                    p.resident()[va].spec_order() as nat,
                                ) as int,
                            ) by {
                                let s_pfn = p.resident()[va].spec_pfn();
                                let d_pfn = d0[j].resident()[va].spec_pfn();
                                let m = crate::mm::buddy::run_pages(
                                    p.resident()[va].spec_order() as nat,
                                ) as int;
                                assert(copied(old(mem)@, mem0, s_pfn, d_pfn, m));
                                assert forall|x: int|
                                    s_pfn <= x < s_pfn + m && #[trigger] old(
                                        mem,
                                    )@.bytes.dom().contains(x) implies mem1.bytes.dom().contains(
                                    x - s_pfn + d_pfn,
                                ) && mem1.bytes[x - s_pfn + d_pfn] == old(mem)@.bytes[x] by {
                                    assert(mem0.bytes.dom().contains(x - s_pfn + d_pfn));
                                }
                            }
                        }
                    } else {
                        assert(d1[j] == child);
                        if p.flags().has(VM_ANON) {
                            assert forall|va: usize| #[trigger]
                                p.resident().contains_key(va) implies child.resident()[va].spec_order()
                                == p.resident()[va].spec_order() && copied(
                                old(mem)@,
                                mem1,
                                p.resident()[va].spec_pfn(),
                                child.resident()[va].spec_pfn(),
                                crate::mm::buddy::run_pages(
                                    p.resident()[va].spec_order() as nat,
                                ) as int,
                            ) by {
                                let s_pfn = p.resident()[va].spec_pfn();
                                let d_pfn = child.resident()[va].spec_pfn();
                                let m = crate::mm::buddy::run_pages(
                                    p.resident()[va].spec_order() as nat,
                                ) as int;
                                assert(copied(mem0, mem1, s_pfn, d_pfn, m));
                                assert forall|x: int|
                                    s_pfn <= x < s_pfn + m && #[trigger] old(
                                        mem,
                                    )@.bytes.dom().contains(x) implies mem1.bytes.dom().contains(
                                    x - s_pfn + d_pfn,
                                ) && mem1.bytes[x - s_pfn + d_pfn] == old(mem)@.bytes[x] by {
                                    assert(mem0.bytes.dom().contains(x));
                                }
                            }
                        }
                    }
                }
                assert forall|x: int| 0 <= x < d1.len() implies (#[trigger] d1[x]).wf()
                    && d1[x].table_root() == dest.table()@.root by {
                    if x < i {
                        assert(d1[x] == d0[x]);
                    }
                }
                assert forall|x: int, y: int| 0 <= x < y < d1.len() implies (
                #[trigger] d1[x]).spec_end() <= (#[trigger] d1[y]).spec_start() by {
                    assert(is_twin(self.areas()[x], d1[x], pt1, old(mem)@, mem1));
                    assert(is_twin(self.areas()[y], d1[y], pt1, old(mem)@, mem1));
                    assert(self.areas()[x].spec_end() <= self.areas()[y].spec_start());
                }
            }
            i += 1;
        }
        Ok(())
    }
}

} // verus!
