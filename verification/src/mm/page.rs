//! The page descriptor table: one descriptor per managed frame, and the
//! handle by which a caller holds an allocated run.
use vstd::prelude::*;
use crate::consts::{MAX_ORDER, PAGE_SIZE, PHY_MEM_OFF};
use crate::mm::addr::{Addr, PFN};
use crate::mm::buddy::{lemma_run_pages_pos, lemma_shift_run_pages, run_pages};

verus! {

/// Allocation state of a frame.
#[derive(Copy, Clone, Debug, PartialEq, Eq, Structural)]
pub enum PageState {
    /// The frame lies in a free run of the allocator.
    Free,
    /// The frame lies in an allocated run of the given order.
    Allocated(usize),
    /// The frame is kept from the allocator.
    Reserved,
}

/// What the table records of one frame.
#[derive(Copy, Clone, Debug, PartialEq, Eq, Structural)]
pub struct PageDescriptor {
    /// Allocation state.
    pub state: PageState,
    /// Order of the run the frame belongs to, while it is allocated.
    pub order: usize,
    /// Number of handles to the run, kept on the head frame.
    pub refcount: usize,
}

/// The descriptor of a frame that nobody holds.
pub open spec fn free_descriptor() -> PageDescriptor {
    PageDescriptor { state: PageState::Free, order: 0, refcount: 0 }
}

/// A handle to an allocated run of `1 << order` frames, named by its head
/// frame.
#[derive(Debug, PartialEq, Eq)]
pub struct Page {
    pfn: PFN,
    order: usize,
}

impl Page {
    /// Head frame of the run.
    pub closed spec fn spec_pfn(&self) -> int {
        self.pfn.0 as int
    }

    /// Order of the run.
    pub closed spec fn spec_order(&self) -> int {
        self.order as int
    }

    /// A handle to the run of order `order` at `pfn`.
    pub(crate) fn new(pfn: PFN, order: usize) -> (r: Page)
        ensures
            r.spec_pfn() == pfn.0,
            r.spec_order() == order,
    {
        Page { pfn, order }
    }

    /// Head frame of the run.
    pub fn get_pfn(&self) -> (r: PFN)
        ensures
            r.0 == self.spec_pfn(),
    {
        self.pfn
    }

    /// Order of the run.
    pub fn get_order(&self) -> (r: usize)
        ensures
            r == self.spec_order(),
    {
        self.order
    }

    /// Physical address of the first byte of the run, where it fits a word.
    pub fn get_paddr(&self) -> (r: Option<Addr>)
        ensures
            match r {
                Some(a) => a.0 == self.spec_pfn() * 4096,
                None => self.spec_pfn() * 4096 > usize::MAX,
            },
    {
        if self.pfn.0 <= usize::MAX / PAGE_SIZE {
            Some(Addr(self.pfn.0 * PAGE_SIZE))
        } else {
            None
        }
    }

    /// Address of the first byte of the run in the direct map, where it fits
    /// a word.
    pub fn get_vaddr(&self) -> (r: Option<Addr>)
        ensures
            match r {
                Some(a) => a.0 == self.spec_pfn() * 4096 + PHY_MEM_OFF,
                None => self.spec_pfn() * 4096 + PHY_MEM_OFF > usize::MAX,
            },
    {
        if self.pfn.0 <= usize::MAX / PAGE_SIZE {
            let pa: u64 = (self.pfn.0 * PAGE_SIZE) as u64;
            if pa <= u64::MAX - PHY_MEM_OFF && pa + PHY_MEM_OFF <= usize::MAX as u64 {
                return Some(Addr((pa + PHY_MEM_OFF) as usize));
            }
        }
        None
    }
}

/// The dense table of descriptors for the frames `start .. start + len`.
pub struct PagesManager {
    start: usize,
    descs: Vec<PageDescriptor>,
}

impl Default for PagesManager {
    /// A table that covers no frame.
    fn default() -> (r: Self)
        ensures
            r.wf(),
            r.spec_start() == 0,
            r.spec_end() == 0,
    {
        PagesManager::new()
    }
}

impl PagesManager {
    /// First frame number that the table covers.
    pub closed spec fn spec_start(&self) -> int {
        self.start as int
    }

    /// One past the last frame number that the table covers.
    pub closed spec fn spec_end(&self) -> int {
        self.start + self.descs@.len()
    }

    /// The descriptor of frame `pfn`, for a frame that the table covers.
    pub closed spec fn spec_desc(&self, pfn: int) -> PageDescriptor {
        self.descs@[pfn - self.start]
    }

    /// The table's invariant: its range fits the frame numbers.
    pub closed spec fn wf(&self) -> bool {
        self.start + self.descs@.len() <= usize::MAX
    }

    /// First frame number that the table covers.
    pub fn start_pfn(&self) -> (r: PFN)
        ensures
            r.0 == self.spec_start(),
    {
        PFN(self.start)
    }

    /// A table that covers no frame.
    pub fn new() -> (r: Self)
        ensures
            r.wf(),
            r.spec_start() == 0,
            r.spec_end() == 0,
    {
        PagesManager { start: 0, descs: Vec::new() }
    }

    /// Covers the frames of the page-aligned range from `start_addr` to
    /// `end_addr`, each of them free.
    pub fn init(&mut self, start_addr: Addr, end_addr: Addr)
        requires
            start_addr.0 % 4096 == 0,
            end_addr.0 % 4096 == 0,
            start_addr.0 <= end_addr.0,
        ensures
            final(self).wf(),
            final(self).spec_start() == start_addr.0 / 4096,
            final(self).spec_end() == end_addr.0 / 4096,
            forall|x: int|
                final(self).spec_start() <= x < final(self).spec_end() ==> final(self).spec_desc(x)
                    == free_descriptor(),
    {
        let s: usize = start_addr.0 / PAGE_SIZE;
        let e: usize = end_addr.0 / PAGE_SIZE;
        let mut descs: Vec<PageDescriptor> = Vec::new();
        let mut n: usize = s;
        while n < e
            invariant
                s <= n <= e,
                descs@.len() == n - s,
                forall|i: int| 0 <= i < descs@.len() ==> descs@[i] == free_descriptor(),
            decreases e - n,
        {
            descs.push(PageDescriptor { state: PageState::Free, order: 0, refcount: 0 });
            n += 1;
        }
        self.start = s;
        self.descs = descs;
    }

    /// The descriptor of frame `pfn`; `None` for a frame outside the table.
    pub fn get(&self, pfn: PFN) -> (r: Option<PageDescriptor>)
        requires
            self.wf(),
        ensures
            match r {
                Some(d) => self.spec_start() <= pfn.0 < self.spec_end() && d == self.spec_desc(
                    pfn.0 as int,
                ),
                None => !(self.spec_start() <= pfn.0 < self.spec_end()),
            },
    {
        if pfn.0 >= self.start && pfn.0 - self.start < self.descs.len() {
            Some(self.descs[pfn.0 - self.start])
        } else {
            None
        }
    }

    /// Writes `d` to the descriptors of the `count` frames from `pfn`.
    fn fill(&mut self, pfn: usize, count: usize, d: PageDescriptor)
        requires
            old(self).wf(),
            old(self).spec_start() <= pfn,
            pfn + count <= old(self).spec_end(),
        ensures
            final(self).wf(),
            final(self).spec_start() == old(self).spec_start(),
            final(self).spec_end() == old(self).spec_end(),
            forall|x: int|
                final(self).spec_start() <= x < final(self).spec_end() ==> final(self).spec_desc(x)
                    == (if pfn <= x < pfn + count {
                    d
                } else {
                    old(self).spec_desc(x)
                }),
    {
        let mut n: usize = 0;
        while n < count
            invariant
                n <= count,
                self.start == old(self).start,
                self.descs@.len() == old(self).descs@.len(),
                self.start <= pfn,
                pfn + count <= self.start + self.descs@.len(),
                self.start + self.descs@.len() <= usize::MAX,
                forall|i: int|
                    0 <= i < self.descs@.len() ==> self.descs@[i] == (if pfn - self.start <= i < pfn
                        - self.start + n {
                        d
                    } else {
                        old(self).descs@[i]
                    }),
            decreases count - n,
        {
            self.descs.set(pfn - self.start + n, d);
            n += 1;
        }
    }

    /// Records the run of order `order` at `pfn` as allocated and handed out
    /// once, and returns the handle to it.
    pub fn new_pages_block_in_memory(&mut self, pfn: PFN, order: usize) -> (r: Page)
        requires
            old(self).wf(),
            order < MAX_ORDER,
            old(self).spec_start() <= pfn.0,
            pfn.0 + run_pages(order as nat) <= old(self).spec_end(),
        ensures
            final(self).wf(),
            final(self).spec_start() == old(self).spec_start(),
            final(self).spec_end() == old(self).spec_end(),
            r.spec_pfn() == pfn.0,
            r.spec_order() == order,
            forall|x: int|
                final(self).spec_start() <= x < final(self).spec_end() ==> final(self).spec_desc(x)
                    == (if pfn.0 <= x < pfn.0 + run_pages(order as nat) {
                    PageDescriptor {
                        state: PageState::Allocated(order),
                        order,
                        refcount: if x == pfn.0 { 1usize } else { 0usize },
                    }
                } else {
                    old(self).spec_desc(x)
                }),
    {
        proof {
            lemma_shift_run_pages(order);
            lemma_run_pages_pos(order as nat);
        }
        let count: usize = 1usize << order;
        self.fill(
            pfn.0,
            count,
            PageDescriptor { state: PageState::Allocated(order), order, refcount: 0 },
        );
        let ghost mid = *self;
        self.descs.set(
            pfn.0 - self.start,
            PageDescriptor { state: PageState::Allocated(order), order, refcount: 1 },
        );
        proof {
            assert forall|x: int| self.spec_start() <= x < self.spec_end() implies self.spec_desc(x)
                == (if x == pfn.0 {
                PageDescriptor { state: PageState::Allocated(order), order, refcount: 1 }
            } else {
                mid.spec_desc(x)
            }) by {}
        }
        Page::new(pfn, order)
    }

    /// Records the run of order `order` at `pfn` as free again.
    pub fn release_block(&mut self, pfn: PFN, order: usize)
        requires
            old(self).wf(),
            order < MAX_ORDER,
            old(self).spec_start() <= pfn.0,
            pfn.0 + run_pages(order as nat) <= old(self).spec_end(),
        ensures
            final(self).wf(),
            final(self).spec_start() == old(self).spec_start(),
            final(self).spec_end() == old(self).spec_end(),
            forall|x: int|
                final(self).spec_start() <= x < final(self).spec_end() ==> final(self).spec_desc(x)
                    == (if pfn.0 <= x < pfn.0 + run_pages(order as nat) {
                    free_descriptor()
                } else {
                    old(self).spec_desc(x)
                }),
    {
        proof {
            lemma_shift_run_pages(order);
            lemma_run_pages_pos(order as nat);
        }
        let count: usize = 1usize << order;
        self.fill(pfn.0, count, PageDescriptor { state: PageState::Free, order: 0, refcount: 0 });
    }

    /// Sets the number of handles recorded on frame `pfn`.
    pub fn set_refcount(&mut self, pfn: PFN, refcount: usize)
        requires
            old(self).wf(),
            old(self).spec_start() <= pfn.0 < old(self).spec_end(),
        ensures
            final(self).wf(),
            final(self).spec_start() == old(self).spec_start(),
            final(self).spec_end() == old(self).spec_end(),
            forall|x: int|
                final(self).spec_start() <= x < final(self).spec_end() ==> final(self).spec_desc(x)
                    == (if x == pfn.0 {
                    PageDescriptor { refcount, ..old(self).spec_desc(x) }
                } else {
                    old(self).spec_desc(x)
                }),
    {
        let d = self.descs[pfn.0 - self.start];
        self.descs.set(
            pfn.0 - self.start,
            PageDescriptor { state: d.state, order: d.order, refcount },
        );
    }
}

} // verus!
