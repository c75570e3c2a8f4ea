//! Physical frames, page tables and address spaces.
//!
//! `PhysMemory` is the state that the rest of the module works on: the buddy
//! allocator, the descriptor table and the bytes of every managed frame.
use vstd::prelude::*;

pub mod addr;
pub mod aux;
pub mod buddy;
pub mod page;
pub mod pagetable;
pub mod vma;
pub mod mm;
pub mod writeback;

use crate::consts::{MAX_ORDER, PAGE_SIZE};
use crate::mm::addr::{Addr, PFN};
use crate::mm::buddy::{
    coalesce, first_fit, frame_free, head_of, is_lowest, lemma_head_of, lemma_run_pages_pos,
    lemma_shift_run_pages, run_pages, run_unlisted, runs_wf, split_runs, BuddyAllocator, FreeRuns,
};
use crate::mm::page::{free_descriptor, Page, PageDescriptor, PageState, PagesManager};

verus! {

/// Why an operation of the memory core failed.
#[derive(Copy, Clone, Debug, PartialEq, Eq, Structural)]
pub enum MmError {
    /// No free run at or above the requested order.
    OutOfMemory,
    /// A page to map is mapped already.
    AlreadyMapped,
    /// A page to unmap is not mapped.
    NotMapped,
    /// An address lies outside the area, or a size does not fit it.
    OutOfRange,
    /// An address is not aligned as the operation asks.
    Misaligned,
    /// The flags of a leaf name none of read, write and execute.
    InvalidFlags,
    /// No area holds the address of a fault.
    SegFault,
    /// The area of a fault does not permit the access.
    ProtFault,
}

/// Pages that the boot heap takes after the kernel image.
pub const HEAP_PAGES: usize = 40;

/// Size of physical memory in MiB, counted from the start of the kernel image.
pub const MEM_MB: usize = 6;

/// The managed memory as contracts see it.
pub struct MemView {
    /// First managed frame number.
    pub start: int,
    /// One past the last managed frame number.
    pub end: int,
    /// The free runs of the allocator, by order.
    pub runs: FreeRuns,
    /// The descriptor of each managed frame.
    pub descs: Map<int, PageDescriptor>,
    /// The bytes of each frame that is allocated.  What a free frame holds is
    /// nobody's business.
    pub bytes: Map<int, Seq<u8>>,
}

/// A page of zero bytes.
pub open spec fn zero_bytes() -> Seq<u8> {
    Seq::new(PAGE_SIZE as nat, |i: int| 0u8)
}

/// Frame `x` lies in the run of order `k` at `h`.
pub open spec fn in_run(x: int, h: int, k: int) -> bool {
    h <= x < h + run_pages(k as nat)
}

/// A run of order `order` can be allocated.
pub open spec fn alloc_ok(v: MemView, order: int) -> bool {
    0 <= order < MAX_ORDER && first_fit(v.runs, order) < MAX_ORDER
}

/// The head of the run that an allocation of order `order` hands out: the
/// lowest head of the first order at or above `order` that has a free run.
pub open spec fn alloc_head(v: MemView, order: int) -> int {
    choose|p: int| is_lowest(v.runs[first_fit(v.runs, order)], p)
}

/// What the descriptor table records of frame `x` of a fresh run at `h`.
pub open spec fn fresh_descriptor(x: int, h: int, order: int) -> PageDescriptor {
    PageDescriptor {
        state: PageState::Allocated(order as usize),
        order: order as usize,
        refcount: if x == h {
            1usize
        } else {
            0usize
        },
    }
}

/// The memory after a run of order `order` was allocated: the run leaves
/// the free runs, its frames are recorded as allocated with one handle, and
/// they hold zero bytes.
pub open spec fn alloc_view(v: MemView, order: int) -> MemView {
    let h = alloc_head(v, order);
    MemView {
        runs: split_runs(v.runs, order, first_fit(v.runs, order), h),
        descs: Map::new(
            |x: int| v.descs.dom().contains(x),
            |x: int|
                if in_run(x, h, order) {
                    fresh_descriptor(x, h, order)
                } else {
                    v.descs[x]
                },
        ),
        bytes: Map::new(
            |x: int| v.bytes.dom().contains(x) || in_run(x, h, order),
            |x: int|
                if in_run(x, h, order) {
                    zero_bytes()
                } else {
                    v.bytes[x]
                },
        ),
        ..v
    }
}

/// The run of order `k` at `h` can be released: the head descriptor records
/// an allocation of exactly this order at an aligned, managed frame.
pub open spec fn view_releasable(v: MemView, h: int, k: int) -> bool {
    &&& 0 <= k < MAX_ORDER
    &&& v.start <= h < v.end
    &&& h % (run_pages(k as nat) as int) == 0
    &&& v.descs[h].state == PageState::Allocated(k as usize)
}

/// The memory after the run of order `k` at `h` went back to the allocator.
pub open spec fn release_view(v: MemView, h: int, k: int) -> MemView {
    MemView {
        runs: coalesce(v.runs, h, k),
        descs: Map::new(
            |x: int| v.descs.dom().contains(x),
            |x: int|
                if in_run(x, h, k) {
                    free_descriptor()
                } else {
                    v.descs[x]
                },
        ),
        bytes: Map::new(
            |x: int| v.bytes.dom().contains(x) && !in_run(x, h, k),
            |x: int| v.bytes[x],
        ),
        ..v
    }
}

/// The memory after the count of handles on frame `h` was set to `n`.
pub open spec fn refcount_view(v: MemView, h: int, n: int) -> MemView {
    MemView { descs: v.descs.insert(h, PageDescriptor { refcount: n as usize, ..v.descs[h] }), ..v }
}

/// The memory after one handle to the run of order `k` at `h` was given up.
pub open spec fn drop_view(v: MemView, h: int, k: int) -> MemView {
    if v.descs[h].refcount > 1 {
        refcount_view(v, h, v.descs[h].refcount - 1)
    } else {
        release_view(v, h, k)
    }
}

/// The memory after one handle to the run of order `k` at `h` was given up,
/// where the run can be released; else the memory as it is.
pub open spec fn drop_if(v: MemView, h: int, k: int) -> MemView {
    if view_releasable(v, h, k) {
        drop_view(v, h, k)
    } else {
        v
    }
}

/// A page with `src` laid over `page` from byte `off` on.
pub open spec fn overlay(page: Seq<u8>, off: int, src: Seq<u8>) -> Seq<u8> {
    Seq::new(
        page.len(),
        |i: int|
            if off <= i < off + src.len() {
                src[i - off]
            } else {
                page[i]
            },
    )
}

/// The memory after `src` was written into frame `x` from byte `off` on.
pub open spec fn write_view(v: MemView, x: int, off: int, src: Seq<u8>) -> MemView {
    if v.bytes.dom().contains(x) {
        MemView { bytes: v.bytes.insert(x, overlay(v.bytes[x], off, src)), ..v }
    } else {
        v
    }
}

/// Every frame that holds bytes in `v0` holds the same bytes in `v1`.
pub open spec fn kept(v0: MemView, v1: MemView) -> bool {
    forall|x: int| #[trigger]
        v0.bytes.dom().contains(x) ==> v1.bytes.dom().contains(x) && v1.bytes[x] == v0.bytes[x]
}

/// The memory after the bytes of frame `a`, where it holds bytes, were
/// copied to frame `b`.
pub open spec fn copy_step(v: MemView, a: int, b: int) -> MemView {
    if v.bytes.dom().contains(a) {
        write_view(v, b, 0, v.bytes[a])
    } else {
        v
    }
}

/// The memory after the first `n` frames from `s` were copied, one by one
/// from the lowest, to the frames from `d` on.
pub open spec fn copy_frames(v: MemView, s: int, d: int, n: nat) -> MemView
    decreases n,
{
    if n == 0 {
        v
    } else {
        copy_step(copy_frames(v, s, d, (n - 1) as nat), s + n - 1, d + n - 1)
    }
}

/// The memory after a run of order `k` was allocated and the run at `s` was
/// copied into it.
pub open spec fn copy_block_view(v: MemView, s: int, k: int) -> MemView {
    copy_frames(alloc_view(v, k), s, alloc_head(v, k), run_pages(k as nat))
}

/// The `n` frames from `d` hold what the frames from `s` held in `v0`,
/// frame by frame, as far as those held bytes.
pub open spec fn copied(v0: MemView, v1: MemView, s: int, d: int, n: int) -> bool {
    forall|x: int|
        s <= x < s + n && #[trigger] v0.bytes.dom().contains(x) ==> v1.bytes.dom().contains(
            x - s + d,
        ) && v1.bytes[x - s + d] == v0.bytes[x]
}

/// Every frame that holds bytes holds a page of them.
pub open spec fn whole_pages(v: MemView) -> bool {
    forall|x: int| #[trigger] v.bytes.dom().contains(x) ==> v.bytes[x].len() == PAGE_SIZE
}

/// The byte at the physical address `a`, where a frame that is allocated
/// holds it.
pub open spec fn mem_byte(v: MemView, a: int) -> Option<u8> {
    if 0 <= a && v.bytes.dom().contains(a / 4096) {
        Some(v.bytes[a / 4096][a % 4096])
    } else {
        None
    }
}

/// Every frame of the run of order `k` at `h` is recorded as allocated at
/// that order.
pub open spec fn view_run_allocated(v: MemView, h: int, k: int) -> bool {
    forall|y: int|
        h <= y < h + run_pages(k as nat) ==> (#[trigger] v.descs[y]).state == PageState::Allocated(
            k as usize,
        )
}

/// A live allocation, as the view shows it.
pub open spec fn view_allocated_run(v: MemView, h: int, k: int) -> bool {
    &&& 0 <= k < MAX_ORDER
    &&& h % (run_pages(k as nat) as int) == 0
    &&& v.start <= h
    &&& h + run_pages(k as nat) <= v.end
    &&& view_run_allocated(v, h, k)
    &&& v.descs[h].refcount >= 1
}

/// What holds of the view of memory that is well formed.
pub open spec fn mem_wf(v: MemView) -> bool {
    &&& runs_wf(v.runs, v.start, v.end)
    &&& forall|x: int| v.descs.dom().contains(x) <==> v.start <= x < v.end
    &&& forall|x: int|
        v.start <= x < v.end ==> ((#[trigger] v.descs[x]).state == PageState::Free <==> frame_free(
            v.runs,
            x,
        ))
    &&& forall|x: int|
        v.start <= x < v.end && (#[trigger] v.descs[x]).state != PageState::Free ==> (
        v.descs[x].state matches PageState::Allocated(k) && k < MAX_ORDER && view_allocated_run(
            v,
            head_of(x, k as nat),
            k as int,
        ))
    &&& forall|x: int|
        v.start <= x < v.end && (#[trigger] v.descs[x]).state == PageState::Free ==> v.descs[x]
            == free_descriptor()
    &&& forall|x: int|
        v.bytes.dom().contains(x) <==> v.start <= x < v.end && v.descs[x].state is Allocated
    &&& forall|x: int| v.bytes.dom().contains(x) ==> (#[trigger] v.bytes[x]).len() == PAGE_SIZE
}

/// A set of heads of free runs that is not empty has a lowest head.
proof fn lemma_lowest_exists(f: FreeRuns, start: int, end: int, j: int)
    requires
        runs_wf(f, start, end),
        0 <= j < MAX_ORDER,
        exists|p: int| f[j].contains(p),
    ensures
        exists|p: int| is_lowest(f[j], p),
{
    let p0 = choose|p: int| f[j].contains(p);
    assert(crate::mm::buddy::listed(f, j, p0));
    lemma_lowest_below(f, start, end, j, p0, p0 - start);
}

proof fn lemma_lowest_below(f: FreeRuns, start: int, end: int, j: int, p: int, d: int)
    requires
        runs_wf(f, start, end),
        0 <= j < MAX_ORDER,
        f[j].contains(p),
        d == p - start,
    ensures
        exists|q: int| is_lowest(f[j], q),
    decreases d,
{
    assert(crate::mm::buddy::listed(f, j, p));
    if forall|q: int| f[j].contains(q) ==> p <= q {
        assert(is_lowest(f[j], p));
    } else {
        let q = choose|q: int| f[j].contains(q) && q < p;
        assert(crate::mm::buddy::listed(f, j, q));
        lemma_lowest_below(f, start, end, j, q, q - start);
    }
}

/// A set of heads of free runs that is not empty has a lowest head, so the
/// head that an allocation hands out is that one.
pub proof fn lemma_alloc_head(v: MemView, order: int)
    requires
        mem_wf(v),
        alloc_ok(v, order),
    ensures
        is_lowest(v.runs[first_fit(v.runs, order)], alloc_head(v, order)),
        crate::mm::buddy::listed(v.runs, first_fit(v.runs, order), alloc_head(v, order)),
        order <= first_fit(v.runs, order) < MAX_ORDER,
{
    let j = first_fit(v.runs, order);
    crate::mm::buddy::lemma_first_fit(v.runs, order);
    assert(exists|p: int| v.runs[j].contains(p)) by {
        if forall|p: int| !v.runs[j].contains(p) {
            assert(v.runs[j] =~= Set::<int>::empty());
        }
    }
    lemma_lowest_exists(v.runs, v.start, v.end, j);
}

/// Allocation keeps the view well formed, and the fresh run is one that can
/// be released.
pub proof fn lemma_alloc_view_wf(v: MemView, order: int)
    requires
        mem_wf(v),
        alloc_ok(v, order),
    ensures
        mem_wf(alloc_view(v, order)),
        view_releasable(alloc_view(v, order), alloc_head(v, order), order),
        v.start <= alloc_head(v, order) < v.end,
        alloc_view(v, order).start == v.start,
        alloc_view(v, order).end == v.end,
{
    let j = first_fit(v.runs, order);
    let h = alloc_head(v, order);
    let a = alloc_view(v, order);
    lemma_alloc_head(v, order);
    crate::mm::buddy::lemma_first_fit(v.runs, order);
    crate::mm::buddy::lemma_split(v.runs, v.start, v.end, order, j, h);
    lemma_run_pages_pos(order as nat);
    assert forall|x: int| in_run(x, h, order) implies (#[trigger] v.descs[x]).state
        == PageState::Free by {
        assert(frame_free(v.runs, x));
    }
    assert forall|x: int|
        a.start <= x < a.end && (#[trigger] a.descs[x]).state != PageState::Free implies (
    a.descs[x].state matches PageState::Allocated(k) && k < MAX_ORDER && view_allocated_run(
        a,
        head_of(x, k as nat),
        k as int,
    )) by {
        if in_run(x, h, order) {
            lemma_head_of(x, h, order as nat);
            assert(view_run_allocated(a, h, order));
        } else {
            assert(v.descs[x].state != PageState::Free);
            let k2 = v.descs[x].state->Allocated_0;
            let h2 = head_of(x, k2 as nat);
            assert(view_allocated_run(v, h2, k2 as int));
            lemma_run_pages_pos(k2 as nat);
            assert forall|y: int| h2 <= y < h2 + run_pages(k2 as nat) implies (
            #[trigger] a.descs[y]).state == PageState::Allocated(k2) by {
                assert(v.descs[y].state == PageState::Allocated(k2));
                if in_run(y, h, order) {
                    assert(v.descs[y].state == PageState::Free);
                }
            }
            assert(v.descs[h2].state == PageState::Allocated(k2));
            if in_run(h2, h, order) {
                assert(v.descs[h2].state == PageState::Free);
            }
        }
    }
    assert forall|x: int|
        a.start <= x < a.end implies ((#[trigger] a.descs[x]).state == PageState::Free
        <==> frame_free(a.runs, x)) by {
        if !in_run(x, h, order) {
            assert(a.descs[x] == v.descs[x]);
        }
    }
    assert forall|x: int|
        a.start <= x < a.end && (#[trigger] a.descs[x]).state == PageState::Free implies a.descs[x]
        == free_descriptor() by {
        assert(a.descs[x] == v.descs[x]);
    }
    assert forall|x: int| a.bytes.dom().contains(x) implies (#[trigger] a.bytes[x]).len()
        == PAGE_SIZE by {
        if !in_run(x, h, order) {
            assert(a.bytes[x] == v.bytes[x]);
        }
    }
    assert forall|x: int|
        a.bytes.dom().contains(x) <==> a.start <= x < a.end && a.descs[x].state is Allocated by {
        if in_run(x, h, order) {
        } else if v.start <= x < v.end {
            assert(a.descs[x] == v.descs[x]);
        }
    }
    assert(in_run(h, h, order));
}

/// Allocating a run and releasing it at once leaves the view as it was.
pub proof fn lemma_alloc_release_view(v: MemView, order: int)
    requires
        mem_wf(v),
        alloc_ok(v, order),
    ensures
        release_view(alloc_view(v, order), alloc_head(v, order), order) == v,
{
    let j = first_fit(v.runs, order);
    let h = alloc_head(v, order);
    lemma_alloc_head(v, order);
    crate::mm::buddy::lemma_alloc_then_free(v.runs, v.start, v.end, order, h);
    crate::mm::buddy::lemma_split_frames(v.runs, v.start, v.end, order, j, h);
    lemma_run_pages_pos(order as nat);
    let a = alloc_view(v, order);
    let r = release_view(a, h, order);
    assert forall|x: int| in_run(x, h, order) implies v.start <= x < v.end && v.descs[x]
        == free_descriptor() by {
        assert(frame_free(v.runs, x));
    }
    assert(r.descs =~= v.descs);
    assert(r.bytes =~= v.bytes);
}

/// Allocation leaves the bytes of the frames that are allocated as they are.
pub proof fn lemma_alloc_keeps(v: MemView, order: int)
    requires
        mem_wf(v),
        alloc_ok(v, order),
    ensures
        kept(v, alloc_view(v, order)),
{
    let h = alloc_head(v, order);
    lemma_alloc_head(v, order);
    crate::mm::buddy::lemma_split_frames(
        v.runs,
        v.start,
        v.end,
        order,
        first_fit(v.runs, order),
        h,
    );
    assert forall|x: int| #[trigger] v.bytes.dom().contains(x) implies !in_run(x, h, order) by {
        if in_run(x, h, order) {
            assert(frame_free(v.runs, x));
            assert(v.descs[x].state == PageState::Free);
        }
    }
}

/// Copying frames into a run that is fresh since `v0` leaves every frame
/// of `v0` as it is, and the fresh run holds the copy.
pub proof fn lemma_copy_frames(v0: MemView, v: MemView, s: int, d: int, m: int, n: nat)
    requires
        whole_pages(v),
        kept(v0, v),
        n <= m,
        forall|y: int| d <= y < d + m ==> #[trigger] v.bytes.dom().contains(y),
        forall|y: int| d <= y < d + m ==> !#[trigger] v0.bytes.dom().contains(y),
    ensures
        kept(v0, copy_frames(v, s, d, n)),
        whole_pages(copy_frames(v, s, d, n)),
        copy_frames(v, s, d, n).bytes.dom() == v.bytes.dom(),
        copy_frames(v, s, d, n).descs == v.descs,
        copy_frames(v, s, d, n).runs == v.runs,
        copy_frames(v, s, d, n).start == v.start,
        copy_frames(v, s, d, n).end == v.end,
        copied(v0, copy_frames(v, s, d, n), s, d, n as int),
    decreases n,
{
    if n > 0 {
        let n1 = (n - 1) as nat;
        let w = copy_frames(v, s, d, n1);
        let r = copy_frames(v, s, d, n);
        lemma_copy_frames(v0, v, s, d, m, n1);
        let a = s + n - 1;
        let b = d + n - 1;
        assert(v.bytes.dom().contains(b));
        assert(!v0.bytes.dom().contains(b));
        assert(w.bytes.dom().contains(b));
        if w.bytes.dom().contains(a) {
            assert(overlay(w.bytes[b], 0, w.bytes[a]) =~= w.bytes[a]);
            assert(r.bytes =~= w.bytes.insert(b, w.bytes[a]));
            assert(r.bytes.dom() =~= v.bytes.dom());
        }
        assert forall|x: int|
            s <= x < s + n && #[trigger] v0.bytes.dom().contains(x) implies r.bytes.dom().contains(
            x - s + d,
        ) && r.bytes[x - s + d] == v0.bytes[x] by {
            if x < s + n - 1 {
                assert(w.bytes.dom().contains(x - s + d) && w.bytes[x - s + d] == v0.bytes[x]);
            } else {
                assert(w.bytes.dom().contains(a) && w.bytes[a] == v0.bytes[a]);
            }
        }
    }
}

/// The managed physical memory: which frames are free, what is recorded of
/// each frame, and what each frame holds.
pub struct PhysMemory {
    buddy: BuddyAllocator,
    pages: PagesManager,
    data: Vec<Vec<u8>>,
}

impl Default for PhysMemory {
    /// Memory that manages no frame.
    fn default() -> (r: Self)
        ensures
            r.wf(),
            r.spec_start() == 0,
            r.spec_end() == 0,
    {
        PhysMemory::new()
    }
}

impl View for PhysMemory {
    type V = MemView;

    open spec fn view(&self) -> MemView {
        MemView {
            start: self.spec_start(),
            end: self.spec_end(),
            runs: self.free_runs(),
            descs: Map::new(|x: int| self.managed(x), |x: int| self.desc(x)),
            bytes: Map::new(
                |x: int| self.managed(x) && self.desc(x).state is Allocated,
                |x: int| self.bytes(x),
            ),
        }
    }
}

impl PhysMemory {
    /// The free runs of the allocator, by order.
    pub closed spec fn free_runs(&self) -> FreeRuns {
        self.buddy@
    }

    /// First managed frame number.
    pub closed spec fn spec_start(&self) -> int {
        self.buddy.spec_start()
    }

    /// One past the last managed frame number.
    pub closed spec fn spec_end(&self) -> int {
        self.buddy.spec_end()
    }

    /// The descriptor of a managed frame.
    pub closed spec fn desc(&self, x: int) -> PageDescriptor {
        self.pages.spec_desc(x)
    }

    /// The bytes of a managed frame.
    pub closed spec fn bytes(&self, x: int) -> Seq<u8> {
        self.data@[x - self.pages.spec_start()]@
    }

    /// First frame number that the descriptor table covers.
    pub closed spec fn table_start(&self) -> int {
        self.pages.spec_start()
    }

    /// One past the last frame number that the descriptor table covers.
    pub closed spec fn table_end(&self) -> int {
        self.pages.spec_end()
    }

    /// The table and the frames' bytes cover the same frames.
    pub closed spec fn table_wf(&self) -> bool {
        &&& self.pages.wf()
        &&& self.data@.len() == self.pages.spec_end() - self.pages.spec_start()
    }

    /// The allocator's lists hold no head twice.
    pub closed spec fn lists_wf(&self) -> bool {
        self.buddy.lists_wf()
    }

    /// Frame `x` is managed.
    pub open spec fn managed(&self, x: int) -> bool {
        self.spec_start() <= x < self.spec_end()
    }

    /// Every frame of the run of order `k` at `h` is recorded as allocated
    /// at that order.
    pub open spec fn run_allocated(&self, h: int, k: int) -> bool {
        forall|y: int|
            h <= y < h + run_pages(k as nat) ==> (#[trigger] self.desc(y)).state
                == PageState::Allocated(k as usize)
    }

    /// A live allocation: an aligned run inside the managed range, every
    /// frame of it allocated at order `k`, with at least one handle.
    pub open spec fn is_allocated_run(&self, h: int, k: int) -> bool {
        &&& 0 <= k < MAX_ORDER
        &&& h % (run_pages(k as nat) as int) == 0
        &&& self.spec_start() <= h
        &&& h + run_pages(k as nat) <= self.spec_end()
        &&& self.run_allocated(h, k)
        &&& self.desc(h).refcount >= 1
    }

    /// The three parts cover the same frames.
    pub open spec fn parts_wf(&self) -> bool {
        &&& self.lists_wf()
        &&& self.table_wf()
        &&& self.table_start() == self.spec_start()
        &&& self.table_end() == self.spec_end()
    }

    /// The invariant of the managed memory: the free runs are well formed; a
    /// frame is recorded free exactly when it lies in a free run; every other
    /// frame lies in a live allocation; every frame holds a page of bytes.
    pub open spec fn wf(&self) -> bool {
        &&& self.parts_wf()
        &&& runs_wf(self.free_runs(), self.spec_start(), self.spec_end())
        &&& forall|x: int|
            self.managed(x) ==> ((#[trigger] self.desc(x)).state == PageState::Free <==> frame_free(
                self.free_runs(),
                x,
            ))
        &&& forall|x: int|
            self.managed(x) && (#[trigger] self.desc(x)).state != PageState::Free ==> (
            self.desc(x).state matches PageState::Allocated(k) && self.is_allocated_run(
                head_of(x, k as nat),
                k as int,
            ))
        &&& forall|x: int| self.managed(x) ==> (#[trigger] self.bytes(x)).len() == PAGE_SIZE
        &&& forall|x: int|
            self.managed(x) && (#[trigger] self.desc(x)).state == PageState::Free ==> self.desc(x)
                == free_descriptor()
    }

    /// Memory that manages no frame.
    pub fn new() -> (r: Self)
        ensures
            r.wf(),
            r.spec_start() == 0,
            r.spec_end() == 0,
    {
        PhysMemory { buddy: BuddyAllocator::new(), pages: PagesManager::new(), data: Vec::new() }
    }

    /// First managed frame number.
    pub fn start_pfn(&self) -> (r: PFN)
        ensures
            r.0 == self.spec_start(),
    {
        self.buddy.start_pfn()
    }

    /// One past the last managed frame number.
    pub fn end_pfn(&self) -> (r: PFN)
        ensures
            r.0 == self.spec_end(),
    {
        self.buddy.end_pfn()
    }

    /// The managed range is a range of frame numbers.
    pub proof fn lemma_range_bounded(&self)
        ensures
            0 <= self@.start <= usize::MAX,
            0 <= self@.end <= usize::MAX,
    {
        self.buddy.lemma_range_bounded();
    }

    /// The descriptor of a managed frame; `None` for a frame that is not
    /// managed.
    pub fn descriptor(&self, pfn: PFN) -> (r: Option<PageDescriptor>)
        requires
            self.wf(),
        ensures
            match r {
                Some(d) => self.managed(pfn.0 as int) && d == self.desc(pfn.0 as int),
                None => !self.managed(pfn.0 as int),
            },
    {
        self.pages.get(pfn)
    }

    /// The heads of the free runs of order `order`, in the order the
    /// allocator's list holds them.
    pub fn free_heads(&self, order: usize) -> (r: Vec<usize>)
        requires
            self.wf(),
            order < MAX_ORDER,
        ensures
            crate::mm::buddy::list_set(r@) == self.free_runs()[order as int],
            r@.no_duplicates(),
    {
        self.buddy.free_heads(order)
    }

    /// The view of well-formed memory is well formed.
    pub proof fn lemma_view_wf(&self)
        requires
            self.wf(),
        ensures
            mem_wf(self@),
    {
        let v = self@;
        assert forall|x: int|
            v.start <= x < v.end && (#[trigger] v.descs[x]).state != PageState::Free implies (
        v.descs[x].state matches PageState::Allocated(k) && k < MAX_ORDER && view_allocated_run(
            v,
            head_of(x, k as nat),
            k as int,
        )) by {
            assert(self.desc(x).state != PageState::Free);
            let k = self.desc(x).state->Allocated_0;
            let h = head_of(x, k as nat);
            assert(self.is_allocated_run(h, k as int));
            lemma_run_pages_pos(k as nat);
            assert forall|y: int| h <= y < h + run_pages(k as nat) implies (#[trigger] v.descs[y]).state
                == PageState::Allocated(k) by {
                assert(self.desc(y).state == PageState::Allocated(k));
            }
        }
        assert forall|x: int| v.bytes.dom().contains(x) implies (#[trigger] v.bytes[x]).len()
            == PAGE_SIZE by {
            assert(self.bytes(x).len() == PAGE_SIZE);
        }
    }

    /// The run of order `k` at `h` is one that can be released: `k` is an
    /// order, `h` is a managed frame aligned to the run, and the descriptor of
    /// `h` records an allocation of that order.
    pub open spec fn releasable(&self, h: int, k: int) -> bool {
        &&& 0 <= k < MAX_ORDER
        &&& self.managed(h)
        &&& h % (run_pages(k as nat) as int) == 0
        &&& self.desc(h).state == PageState::Allocated(k as usize)
    }

    /// A run that can be released is a live allocation.
    pub proof fn lemma_releasable(&self, h: int, k: int)
        requires
            self.wf(),
            self.releasable(h, k),
        ensures
            self.is_allocated_run(h, k),
            run_unlisted(self.free_runs(), h, k),
    {
        lemma_run_pages_pos(k as nat);
        lemma_head_of(h, h, k as nat);
        assert(self.desc(h).state != PageState::Free);
        assert(self.is_allocated_run(head_of(h, k as nat), k));
        assert forall|x: int| h <= x < h + run_pages(k as nat) implies !frame_free(
            self.free_runs(),
            x,
        ) by {
            assert(self.desc(x).state == PageState::Allocated(k as usize));
        }
    }

    /// Whether the run of order `order` at `pfn` can be released.
    pub fn check_releasable(&self, pfn: PFN, order: usize) -> (r: bool)
        requires
            self.wf(),
        ensures
            r == self.releasable(pfn.0 as int, order as int),
    {
        if order >= MAX_ORDER {
            return false;
        }
        proof {
            lemma_shift_run_pages(order);
            lemma_run_pages_pos(order as nat);
        }
        match self.pages.get(pfn) {
            None => false,
            Some(d) => {
                pfn.0 % (1usize << order) == 0 && match d.state {
                    PageState::Allocated(k) => k == order,
                    _ => false,
                }
            },
        }
    }

    /// What the view of well-formed memory says of releasing is what the
    /// memory says.
    pub proof fn lemma_view_releasable(&self, h: int, k: int)
        requires
            self.wf(),
        ensures
            view_releasable(self@, h, k) == self.releasable(h, k),
    {
    }

    /// Allocating a run and releasing it at once leaves the memory as it
    /// was: the same free runs, the same descriptors, the same bytes in the
    /// frames that are allocated.
    pub proof fn lemma_alloc_then_release(&self, order: int)
        requires
            self.wf(),
            alloc_ok(self@, order),
        ensures
            view_releasable(alloc_view(self@, order), alloc_head(self@, order), order),
            release_view(alloc_view(self@, order), alloc_head(self@, order), order) == self@,
    {
        let v = self@;
        let j = first_fit(v.runs, order);
        crate::mm::buddy::lemma_first_fit(v.runs, order);
        assert(v.runs[j] != Set::<int>::empty());
        assert(exists|p: int| v.runs[j].contains(p)) by {
            if forall|p: int| !v.runs[j].contains(p) {
                assert(v.runs[j] =~= Set::<int>::empty());
            }
        }
        lemma_lowest_exists(v.runs, self.spec_start(), self.spec_end(), j);
        let h = alloc_head(v, order);
        assert(is_lowest(v.runs[j], h));
        crate::mm::buddy::lemma_alloc_then_free(
            v.runs,
            self.spec_start(),
            self.spec_end(),
            order,
            h,
        );
        crate::mm::buddy::lemma_split_frames(
            v.runs,
            self.spec_start(),
            self.spec_end(),
            order,
            j,
            h,
        );
        lemma_run_pages_pos(order as nat);
        let a = alloc_view(v, order);
        let r = release_view(a, h, order);
        assert forall|x: int| in_run(x, h, order) implies self.managed(x) && self.desc(x)
            == free_descriptor() by {
            assert(frame_free(v.runs, x));
        }
        assert(r.descs =~= v.descs);
        assert(r.bytes =~= v.bytes);
    }

    /// Frame `x` lies in a live allocation.
    pub open spec fn frame_allocated(&self, x: int) -> bool {
        exists|h: int, k: int| #[trigger] self.is_allocated_run(h, k) && in_run(x, h, k)
    }

    /// The free runs and the live allocations cover the managed range, and
    /// nothing else, and no frame lies in both.
    pub proof fn lemma_coverage(&self)
        requires
            self.wf(),
        ensures
            forall|x: int|
                self.managed(x) <==> (frame_free(self.free_runs(), x) || self.frame_allocated(x)),
            forall|x: int| !(frame_free(self.free_runs(), x) && self.frame_allocated(x)),
    {
        assert forall|x: int|
            self.managed(x) <==> (frame_free(self.free_runs(), x) || self.frame_allocated(x)) by {
            if self.managed(x) {
                if self.desc(x).state != PageState::Free {
                    let k = self.desc(x).state->Allocated_0;
                    crate::mm::buddy::lemma_head_aligned(x, k as nat);
                    assert(self.is_allocated_run(head_of(x, k as nat), k as int));
                    assert(in_run(x, head_of(x, k as nat), k as int));
                }
            }
            if frame_free(self.free_runs(), x) {
                let (k, p) = choose|k: int, p: int| #[trigger]
                    crate::mm::buddy::listed(self.free_runs(), k, p) && p <= x < p + run_pages(
                        k as nat,
                    );
            }
        }
        assert forall|x: int| !(frame_free(self.free_runs(), x) && self.frame_allocated(x)) by {
            if self.frame_allocated(x) {
                let (h, k) = choose|h: int, k: int| #[trigger]
                    self.is_allocated_run(h, k) && in_run(x, h, k);
                assert(self.desc(x).state == PageState::Allocated(k as usize));
            }
        }
    }

    /// Changing the count of handles on frames, to values that are not zero,
    /// keeps the invariant.
    proof fn lemma_refcount_change(&self, before: PhysMemory)
        requires
            before.wf(),
            self.buddy == before.buddy,
            self.data == before.data,
            self.pages.wf(),
            self.pages.spec_start() == before.pages.spec_start(),
            self.pages.spec_end() == before.pages.spec_end(),
            forall|x: int|
                before.managed(x) ==> (#[trigger] self.desc(x)).state == before.desc(x).state,
            forall|x: int|
                before.managed(x) && before.desc(x).refcount >= 1 ==> (#[trigger] self.desc(
                    x,
                )).refcount >= 1,
            forall|x: int|
                before.managed(x) && before.desc(x).state == PageState::Free ==> #[trigger] self.desc(
                    x,
                ) == before.desc(x),
        ensures
            self.wf(),
            forall|x: int| before.managed(x) ==> #[trigger] self.bytes(x) == before.bytes(x),
    {
        assert forall|x: int| self.managed(x) implies ((#[trigger] self.desc(x)).state
            == PageState::Free <==> frame_free(self.free_runs(), x)) by {
            assert(self.desc(x).state == before.desc(x).state);
        }
        assert forall|x: int| self.managed(x) implies (#[trigger] self.bytes(x)).len()
            == PAGE_SIZE by {
            assert(self.bytes(x) == before.bytes(x));
        }
        assert forall|x: int|
            self.managed(x) && (#[trigger] self.desc(x)).state
                == PageState::Free implies self.desc(x) == free_descriptor() by {
            assert(self.desc(x).state == before.desc(x).state);
        }
        assert forall|x: int|
            self.managed(x) && (#[trigger] self.desc(x)).state != PageState::Free implies (
        self.desc(x).state matches PageState::Allocated(k2) && self.is_allocated_run(
            head_of(x, k2 as nat),
            k2 as int,
        )) by {
            assert(self.desc(x).state == before.desc(x).state);
            let k2 = before.desc(x).state->Allocated_0;
            let h2 = head_of(x, k2 as nat);
            assert(before.is_allocated_run(h2, k2 as int));
            lemma_run_pages_pos(k2 as nat);
            assert forall|y: int| h2 <= y < h2 + run_pages(k2 as nat) implies (
            #[trigger] self.desc(y)).state == PageState::Allocated(k2) by {
                assert(before.desc(y).state == PageState::Allocated(k2));
            }
        }
    }
}

/// A page of zero bytes.
pub fn zero_page() -> (r: Vec<u8>)
    ensures
        r@ == zero_bytes(),
{
    let mut v: Vec<u8> = Vec::new();
    let mut n: usize = 0;
    while n < PAGE_SIZE
        invariant
            n <= PAGE_SIZE,
            v@.len() == n,
            forall|i: int| 0 <= i < n ==> v@[i] == 0u8,
        decreases PAGE_SIZE - n,
    {
        v.push(0u8);
        n += 1;
    }
    proof {
        assert(v@ =~= zero_bytes());
    }
    v
}

/// Covers the frames of the page-aligned range from `start_addr` to
/// `end_addr` with descriptors, each frame recorded free and holding zero
/// bytes.  The allocator is left as it is.
pub fn page_init(mem: &mut PhysMemory, start_addr: Addr, end_addr: Addr)
    requires
        start_addr.0 % 4096 == 0,
        end_addr.0 % 4096 == 0,
        start_addr.0 <= end_addr.0,
    ensures
        final(mem).table_wf(),
        final(mem).table_start() == start_addr.0 / 4096,
        final(mem).table_end() == end_addr.0 / 4096,
        forall|x: int|
            final(mem).table_start() <= x < final(mem).table_end() ==> #[trigger] final(mem).desc(x)
                == free_descriptor(),
        forall|x: int|
            final(mem).table_start() <= x < final(mem).table_end() ==> #[trigger] final(mem).bytes(
                x,
            ) == zero_bytes(),
        final(mem).free_runs() == old(mem).free_runs(),
        final(mem).spec_start() == old(mem).spec_start(),
        final(mem).spec_end() == old(mem).spec_end(),
        final(mem).lists_wf() == old(mem).lists_wf(),
{
    mem.pages.init(start_addr, end_addr);
    let s: usize = start_addr.0 / PAGE_SIZE;
    let e: usize = end_addr.0 / PAGE_SIZE;
    let mut data: Vec<Vec<u8>> = Vec::new();
    let mut n: usize = s;
    while n < e
        invariant
            s <= n <= e,
            data@.len() == n - s,
            forall|i: int| 0 <= i < data@.len() ==> (#[trigger] data@[i])@ == zero_bytes(),
        decreases e - n,
    {
        data.push(zero_page());
        n += 1;
    }
    mem.data = data;
}

/// Hands the frames of the page-aligned range from `start_addr` to
/// `end_addr` to the allocator, all of them free.  The descriptor table is
/// left as it is.
pub fn buddy_init(mem: &mut PhysMemory, start_addr: Addr, end_addr: Addr)
    requires
        start_addr.0 % 4096 == 0,
        end_addr.0 % 4096 == 0,
        start_addr.0 <= end_addr.0,
    ensures
        final(mem).lists_wf(),
        runs_wf(final(mem).free_runs(), final(mem).spec_start(), final(mem).spec_end()),
        final(mem).spec_start() == start_addr.0 / 4096,
        final(mem).spec_end() == end_addr.0 / 4096,
        final(mem).free_runs() == crate::mm::buddy::greedy_runs(
            crate::mm::buddy::empty_runs(),
            start_addr.0 as int / 4096,
            end_addr.0 as int / 4096,
        ),
        forall|x: int|
            frame_free(final(mem).free_runs(), x) <==> start_addr.0 / 4096 <= x < end_addr.0 / 4096,
        final(mem).table_wf() == old(mem).table_wf(),
        final(mem).table_start() == old(mem).table_start(),
        final(mem).table_end() == old(mem).table_end(),
        forall|x: int| final(mem).desc(x) == old(mem).desc(x),
        forall|x: int| final(mem).bytes(x) == old(mem).bytes(x),
{
    mem.buddy.init(start_addr, end_addr);
}

/// The first address after the boot heap that follows a kernel image ending
/// at `ek`.
pub open spec fn heap_end(ek: int) -> int {
    ek + PAGE_SIZE * HEAP_PAGES
}

/// The end of physical memory for a kernel image that starts at `sk`.
pub open spec fn mem_end(sk: int) -> int {
    sk + MEM_MB * 1024 * 1024
}

/// Sets up the managed memory for a kernel image that lies from `sk` to
/// `ek`: the frames from the first page boundary after the boot heap to the
/// last page boundary of physical memory, all free and zeroed.
///
/// Returns `false`, and changes nothing, when an address of the layout does
/// not fit a word or no frame is left between the two boundaries' order.
pub fn mm_init(mem: &mut PhysMemory, sk: usize, ek: usize) -> (r: bool)
    ensures
        r == (mem_end(sk as int) <= usize::MAX && crate::mm::addr::page_ceil(heap_end(ek as int))
            <= crate::mm::addr::page_floor(mem_end(sk as int))),
        r ==> {
            &&& final(mem).wf()
            &&& final(mem).spec_start() == crate::mm::addr::page_ceil(heap_end(ek as int)) / 4096
            &&& final(mem).spec_end() == crate::mm::addr::page_floor(mem_end(sk as int)) / 4096
            &&& forall|x: int|
                final(mem).managed(x) ==> #[trigger] final(mem).desc(x) == free_descriptor()
            &&& forall|x: int|
                final(mem).managed(x) ==> #[trigger] final(mem).bytes(x) == zero_bytes()
            &&& forall|x: int| frame_free(final(mem).free_runs(), x) <==> final(mem).managed(x)
        },
        !r ==> *final(mem) == *old(mem),
{
    if ek > usize::MAX - PAGE_SIZE * HEAP_PAGES || sk > usize::MAX - MEM_MB * 1024 * 1024 {
        return false;
    }
    let new_ek: usize = ek + PAGE_SIZE * HEAP_PAGES;
    let emem: usize = MEM_MB * 1024 * 1024 + sk;
    let e_addr = Addr(emem).floor();
    if new_ek > e_addr.0 {
        return false;
    }
    let s_addr = Addr(new_ek).ceil();
    buddy_init(mem, s_addr, e_addr);
    page_init(mem, s_addr, e_addr);
    true
}

impl PhysMemory {
    /// Fills the frames of the run of order `order` at `pfn` with zero bytes.
    fn clear_run(&mut self, pfn: usize, order: usize)
        requires
            old(self).table_wf(),
            order < MAX_ORDER,
            old(self).table_start() <= pfn,
            pfn + run_pages(order as nat) <= old(self).table_end(),
        ensures
            final(self).pages == old(self).pages,
            final(self).buddy == old(self).buddy,
            final(self).table_wf(),
            forall|x: int|
                final(self).table_start() <= x < final(self).table_end() ==> #[trigger] final(self).bytes(x) == (if in_run(x, pfn as int, order as int) {
                    zero_bytes()
                } else {
                    old(self).bytes(x)
                }),
    {
        proof {
            lemma_shift_run_pages(order);
        }
        let count: usize = 1usize << order;
        let base: usize = pfn - self.pages.start_pfn().0;
        let len: usize = self.data.len();
        let mut n: usize = 0;
        while n < count
            invariant
                n <= count,
                count == run_pages(order as nat),
                self.pages == old(self).pages,
                self.buddy == old(self).buddy,
                self.data@.len() == old(self).data@.len(),
                base == pfn - self.pages.spec_start(),
                base + count <= self.data@.len(),
                self.data@.len() == len,
                forall|i: int|
                    0 <= i < self.data@.len() ==> (#[trigger] self.data@[i])@ == (if base <= i
                        < base + n {
                        zero_bytes()
                    } else {
                        old(self).data@[i]@
                    }),
            decreases count - n,
        {
            self.data.set(base + n, zero_page());
            n += 1;
        }
    }

    /// The bytes of a managed frame; `None` for a frame that is not managed.
    pub fn read_frame(&self, pfn: PFN) -> (r: Option<Vec<u8>>)
        requires
            self.wf(),
        ensures
            match r {
                Some(b) => self.managed(pfn.0 as int) && b@ == self.bytes(pfn.0 as int),
                None => !self.managed(pfn.0 as int),
            },
    {
        let s = self.pages.start_pfn().0;
        if pfn.0 >= s && pfn.0 - s < self.data.len() {
            Some(self.data[pfn.0 - s].clone())
        } else {
            None
        }
    }

    /// Writes `src` into a managed frame from byte `off` on.  Returns `false`,
    /// and changes nothing, when the frame is not managed or the bytes would
    /// run past its end.
    pub fn write_frame(&mut self, pfn: PFN, off: usize, src: &[u8]) -> (r: bool)
        requires
            old(self).wf(),
        ensures
            final(self).wf(),
            r == (old(self).managed(pfn.0 as int) && off + src@.len() <= PAGE_SIZE),
            final(self).free_runs() == old(self).free_runs(),
            final(self).spec_start() == old(self).spec_start(),
            final(self).spec_end() == old(self).spec_end(),
            forall|x: int| final(self).desc(x) == old(self).desc(x),
            forall|x: int|
                old(self).managed(x) && !(r && x == pfn.0) ==> #[trigger] final(self).bytes(x)
                    == old(self).bytes(x),
            r ==> final(self).bytes(pfn.0 as int) == overlay(
                old(self).bytes(pfn.0 as int),
                off as int,
                src@,
            ),
            r ==> final(self)@ == write_view(old(self)@, pfn.0 as int, off as int, src@),
            !r ==> final(self)@ == old(self)@,
    {
        let s = self.pages.start_pfn().0;
        if !(pfn.0 >= s && pfn.0 - s < self.data.len()) {
            return false;
        }
        if off > PAGE_SIZE || src.len() > PAGE_SIZE - off {
            return false;
        }
        let idx: usize = pfn.0 - s;
        let mut frame: Vec<u8> = self.data[idx].clone();
        proof {
            assert(frame@ == old(self).bytes(pfn.0 as int));
        }
        let mut n: usize = 0;
        while n < src.len()
            invariant
                n <= src@.len(),
                off + src@.len() <= PAGE_SIZE,
                frame@.len() == PAGE_SIZE,
                forall|i: int|
                    0 <= i < PAGE_SIZE ==> frame@[i] == (if off <= i < off + n {
                        src@[i - off]
                    } else {
                        old(self).bytes(pfn.0 as int)[i]
                    }),
            decreases src@.len() - n,
        {
            frame.set(off + n, src[n]);
            n += 1;
        }
        self.data.set(idx, frame);
        proof {
            assert forall|x: int| #[trigger] self.desc(x) == old(self).desc(x) by {}
            assert(self.bytes(pfn.0 as int) =~= overlay(
                old(self).bytes(pfn.0 as int),
                off as int,
                src@,
            ));
            let w = write_view(old(self)@, pfn.0 as int, off as int, src@);
            assert(self@.descs =~= w.descs);
            assert(self@.bytes =~= w.bytes) by {
                assert forall|x: int| self@.bytes.dom().contains(x) implies #[trigger] self@.bytes[x]
                    == w.bytes[x] by {
                    if x != pfn.0 {
                        assert(self.bytes(x) == old(self).bytes(x));
                    }
                }
            }
            assert forall|x: int| self.managed(x) implies (#[trigger] self.bytes(x)).len()
                == PAGE_SIZE by {
                if x != pfn.0 {
                    assert(self.bytes(x) == old(self).bytes(x));
                }
            }
        }
        true
    }

    /// The bytes of a frame that is allocated; `None` for any other frame.
    pub fn read_allocated(&self, pfn: PFN) -> (r: Option<Vec<u8>>)
        requires
            self.wf(),
        ensures
            match r {
                Some(b) => self@.bytes.dom().contains(pfn.0 as int) && b@ == self@.bytes[pfn.0 as int]
                    && b@.len() == PAGE_SIZE,
                None => !self@.bytes.dom().contains(pfn.0 as int),
            },
    {
        match self.pages.get(pfn) {
            None => None,
            Some(d) => match d.state {
                PageState::Allocated(_) => {
                    let idx = pfn.0 - self.pages.start_pfn().0;
                    assert(self.bytes(pfn.0 as int).len() == PAGE_SIZE);
                    Some(self.data[idx].clone())
                },
                _ => None,
            },
        }
    }

    /// The byte at the physical address `paddr`, where a frame that is
    /// allocated holds it.
    pub fn byte_at(&self, paddr: usize) -> (r: Option<u8>)
        requires
            self.wf(),
        ensures
            r == mem_byte(self@, paddr as int),
    {
        let pfn = PFN(paddr / PAGE_SIZE);
        match self.pages.get(pfn) {
            None => None,
            Some(d) => match d.state {
                PageState::Allocated(_) => {
                    let idx = pfn.0 - self.pages.start_pfn().0;
                    assert(self.bytes(pfn.0 as int).len() == PAGE_SIZE);
                    Some(self.data[idx][paddr % PAGE_SIZE])
                },
                _ => None,
            },
        }
    }
}

/// Allocates a run of `1 << order` frames, zeroed, and returns the one
/// handle to it.
///
/// The run is the one that the allocator hands out: carved from the
/// lowest-addressed free run of the lowest order at or above `order` that
/// has one.  `None` exactly when there is no such run or `order` is not
/// below `MAX_ORDER`; nothing changes then.
pub fn alloc_pages(mem: &mut PhysMemory, order: usize) -> (r: Option<Page>)
    requires
        old(mem).wf(),
    ensures
        final(mem).wf(),
        final(mem).spec_start() == old(mem).spec_start(),
        final(mem).spec_end() == old(mem).spec_end(),
        match r {
            Some(pg) => {
                let j = first_fit(old(mem).free_runs(), order as int);
                let h = pg.spec_pfn();
                &&& order < MAX_ORDER
                &&& j < MAX_ORDER
                &&& pg.spec_order() == order
                &&& is_lowest(old(mem).free_runs()[j], h)
                &&& final(mem).free_runs() == split_runs(old(mem).free_runs(), order as int, j, h)
                &&& final(mem).is_allocated_run(h, order as int)
                &&& final(mem).desc(h).refcount == 1
                &&& forall|x: int|
                    in_run(x, h, order as int) ==> (#[trigger] old(mem).desc(x)).state
                        == PageState::Free
                &&& forall|x: int|
                    in_run(x, h, order as int) ==> #[trigger] final(mem).bytes(x) == zero_bytes()
                &&& forall|x: int|
                    old(mem).managed(x) && !in_run(x, h, order as int) ==> #[trigger] final(mem).desc(x) == old(mem).desc(x)
                &&& forall|x: int|
                    old(mem).managed(x) && !in_run(x, h, order as int) ==> #[trigger] final(mem).bytes(x) == old(mem).bytes(x)
                &&& alloc_ok(old(mem)@, order as int)
                &&& h == alloc_head(old(mem)@, order as int)
                &&& final(mem)@ == alloc_view(old(mem)@, order as int)
            },
            None => !alloc_ok(old(mem)@, order as int) && *final(mem) == *old(mem),
        },
{
    let res = mem.buddy.alloc_area(order);
    match res {
        Err(_) => None,
        Ok(pfn) => {
            let pg = mem.pages.new_pages_block_in_memory(pfn, order);
            mem.clear_run(pfn.0, order);
            proof {
                let h = pfn.0 as int;
                let k = order as int;
                lemma_run_pages_pos(order as nat);
                assert forall|x: int| in_run(x, h, k) implies (#[trigger] old(mem).desc(x)).state
                    == PageState::Free by {
                    assert(frame_free(old(mem).free_runs(), x));
                }
                assert(mem.run_allocated(h, k));
                assert forall|x: int| mem.managed(x) implies ((#[trigger] mem.desc(x)).state
                    == PageState::Free <==> frame_free(mem.free_runs(), x)) by {
                    if !in_run(x, h, k) {
                        assert(mem.desc(x) == old(mem).desc(x));
                    }
                }
                assert forall|x: int| mem.managed(x) implies (#[trigger] mem.bytes(x)).len()
                    == PAGE_SIZE by {
                    if !in_run(x, h, k) {
                        assert(mem.bytes(x) == old(mem).bytes(x));
                    }
                }
                assert forall|x: int|
                    mem.managed(x) && (#[trigger] mem.desc(x)).state
                        == PageState::Free implies mem.desc(x) == free_descriptor() by {
                    assert(mem.desc(x) == old(mem).desc(x));
                }
                assert forall|x: int|
                    mem.managed(x) && (#[trigger] mem.desc(x)).state != PageState::Free implies (
                mem.desc(x).state matches PageState::Allocated(k2) && mem.is_allocated_run(
                    head_of(x, k2 as nat),
                    k2 as int,
                )) by {
                    if in_run(x, h, k) {
                        lemma_head_of(x, h, order as nat);
                    } else {
                        assert(old(mem).desc(x).state != PageState::Free);
                        let k2 = old(mem).desc(x).state->Allocated_0;
                        let h2 = head_of(x, k2 as nat);
                        assert(old(mem).is_allocated_run(h2, k2 as int));
                        lemma_run_pages_pos(k2 as nat);
                        assert forall|y: int| h2 <= y < h2 + run_pages(k2 as nat) implies (
                        #[trigger] mem.desc(y)).state == PageState::Allocated(k2) by {
                            assert(old(mem).desc(y).state == PageState::Allocated(k2));
                            if in_run(y, h, k) {
                                assert(old(mem).desc(y).state == PageState::Free);
                            }
                        }
                        assert(old(mem).desc(h2).state == PageState::Allocated(k2));
                        if in_run(h2, h, k) {
                            assert(old(mem).desc(h2).state == PageState::Free);
                        }
                    }
                }
                let a = alloc_view(old(mem)@, k);
                assert(h == alloc_head(old(mem)@, k));
                assert(mem@.descs =~= a.descs);
                assert(mem@.bytes =~= a.bytes) by {
                    assert forall|x: int| mem@.bytes.dom().contains(x) <==> a.bytes.dom().contains(
                        x,
                    ) by {
                        if !in_run(x, h, k) && mem.managed(x) {
                            assert(mem.desc(x) == old(mem).desc(x));
                        }
                    }
                    assert forall|x: int| mem@.bytes.dom().contains(x) implies #[trigger] mem@.bytes[x]
                        == a.bytes[x] by {
                        if !in_run(x, h, k) {
                            assert(mem.bytes(x) == old(mem).bytes(x));
                        }
                    }
                }
            }
            Some(pg)
        },
    }
}

/// Allocates one zeroed frame.
pub fn alloc_one_page(mem: &mut PhysMemory) -> (r: Option<Page>)
    requires
        old(mem).wf(),
    ensures
        final(mem).wf(),
        final(mem).spec_start() == old(mem).spec_start(),
        final(mem).spec_end() == old(mem).spec_end(),
        match r {
            Some(pg) => {
                let j = first_fit(old(mem).free_runs(), 0);
                let h = pg.spec_pfn();
                &&& j < MAX_ORDER
                &&& pg.spec_order() == 0
                &&& is_lowest(old(mem).free_runs()[j], h)
                &&& final(mem).free_runs() == split_runs(old(mem).free_runs(), 0, j, h)
                &&& final(mem).is_allocated_run(h, 0)
                &&& final(mem).desc(h).refcount == 1
                &&& old(mem).managed(h)
                &&& old(mem).desc(h).state == PageState::Free
                &&& final(mem).bytes(h) == zero_bytes()
                &&& forall|x: int|
                    old(mem).managed(x) && x != h ==> #[trigger] final(mem).desc(x) == old(mem).desc(x)
                &&& forall|x: int|
                    old(mem).managed(x) && x != h ==> #[trigger] final(mem).bytes(x) == old(mem).bytes(x)
            },
            None => !alloc_ok(old(mem)@, 0) && *final(mem) == *old(mem),
        },
        r is Some ==> alloc_ok(old(mem)@, 0) && r->0.spec_pfn() == alloc_head(old(mem)@, 0)
            && final(mem)@ == alloc_view(old(mem)@, 0),
{
    proof {
        reveal_with_fuel(run_pages, 2);
    }
    let r = alloc_pages(mem, 0);
    proof {
        if r.is_some() {
            assert(in_run(r->0.spec_pfn(), r->0.spec_pfn(), 0));
        }
    }
    r
}

/// Returns the run of order `order` at `pfn` to the allocator, whatever the
/// number of handles to it.
///
/// The run is rejected with `Err(-1)`, and nothing changes, unless it can be
/// released: the head descriptor must record an allocation of exactly this
/// order.  On success every frame of the run is recorded free and the run is
/// merged with its free buddies.  The frames keep their bytes.
#[verifier::rlimit(50)]
pub fn _insert_area_for_page_drop(mem: &mut PhysMemory, pfn: PFN, order: usize) -> (r: Result<
    (),
    isize,
>)
    requires
        old(mem).wf(),
    ensures
        final(mem).wf(),
        final(mem).spec_start() == old(mem).spec_start(),
        final(mem).spec_end() == old(mem).spec_end(),
        r is Ok <==> old(mem).releasable(pfn.0 as int, order as int),
        match r {
            Ok(_) => {
                &&& final(mem).free_runs() == coalesce(
                    old(mem).free_runs(),
                    pfn.0 as int,
                    order as int,
                )
                &&& forall|x: int|
                    old(mem).managed(x) ==> #[trigger] final(mem).desc(x) == (if in_run(
                        x,
                        pfn.0 as int,
                        order as int,
                    ) {
                        free_descriptor()
                    } else {
                        old(mem).desc(x)
                    })
                &&& forall|x: int|
                    old(mem).managed(x) ==> #[trigger] final(mem).bytes(x) == old(mem).bytes(x)
                &&& final(mem)@ == release_view(old(mem)@, pfn.0 as int, order as int)
            },
            Err(e) => e == -1 && *final(mem) == *old(mem),
        },
{
    if !mem.check_releasable(pfn, order) {
        return Err(-1);
    }
    proof {
        mem.lemma_releasable(pfn.0 as int, order as int);
    }
    mem.buddy.free_area(pfn, order);
    mem.pages.release_block(pfn, order);
    proof {
        let h = pfn.0 as int;
        let k = order as int;
        assert forall|x: int| mem.managed(x) implies (#[trigger] mem.desc(x)).state
            == PageState::Free <==> frame_free(mem.free_runs(), x) by {
            if !in_run(x, h, k) {
                assert(mem.desc(x) == old(mem).desc(x));
            }
        }
        assert forall|x: int| mem.managed(x) implies (#[trigger] mem.bytes(x)).len()
            == PAGE_SIZE by {
            assert(mem.bytes(x) == old(mem).bytes(x));
        }
        assert forall|x: int|
            mem.managed(x) && (#[trigger] mem.desc(x)).state == PageState::Free implies mem.desc(x)
                == free_descriptor() by {
            if !in_run(x, h, k) {
                assert(mem.desc(x) == old(mem).desc(x));
            }
        }
        assert forall|x: int|
            mem.managed(x) && (#[trigger] mem.desc(x)).state != PageState::Free implies (mem.desc(
            x,
        ).state matches PageState::Allocated(k2) && mem.is_allocated_run(
            head_of(x, k2 as nat),
            k2 as int,
        )) by {
            assert(!in_run(x, h, k));
            assert(mem.desc(x) == old(mem).desc(x));
            let k2 = old(mem).desc(x).state->Allocated_0;
            let h2 = head_of(x, k2 as nat);
            assert(old(mem).is_allocated_run(h2, k2 as int));
            lemma_run_pages_pos(k2 as nat);
            crate::mm::buddy::lemma_head_aligned(x, k2 as nat);
            assert forall|y: int| h2 <= y < h2 + run_pages(k2 as nat) implies (#[trigger] mem.desc(
                y,
            )).state == PageState::Allocated(k2) by {
                assert(old(mem).desc(y).state == PageState::Allocated(k2));
                if in_run(y, h, k) {
                    assert(old(mem).desc(y).state == PageState::Allocated(order));
                    lemma_head_of(y, h, order as nat);
                    lemma_head_of(y, h2, k2 as nat);
                    assert(in_run(x, h, k));
                }
            }
            assert(old(mem).desc(h2).state == PageState::Allocated(k2));
            if in_run(h2, h, k) {
                assert(old(mem).desc(h2).state == PageState::Allocated(order));
                lemma_head_of(h2, h, order as nat);
                lemma_head_of(h2, h2, k2 as nat);
            }
        }
        let a = release_view(old(mem)@, h, k);
        assert(mem@.descs =~= a.descs);
        assert(mem@.bytes =~= a.bytes) by {
            assert forall|x: int| mem@.bytes.dom().contains(x) <==> a.bytes.dom().contains(x) by {
                if mem.managed(x) {
                    if !in_run(x, h, k) {
                        assert(mem.desc(x) == old(mem).desc(x));
                    } else {
                        assert(mem.desc(x) == free_descriptor());
                    }
                }
            }
            assert forall|x: int| mem@.bytes.dom().contains(x) implies #[trigger] mem@.bytes[x]
                == a.bytes[x] by {
                assert(mem.bytes(x) == old(mem).bytes(x));
            }
        }
    }
    Ok(())
}

/// Gives up one handle to a run.  The run goes back to the allocator when
/// the last handle is given up.
///
/// `Err(-1)`, with nothing changed, when the handle names no run that can be
/// released.
pub fn free_pages(mem: &mut PhysMemory, page: Page) -> (r: Result<(), isize>)
    requires
        old(mem).wf(),
    ensures
        final(mem).wf(),
        final(mem).spec_start() == old(mem).spec_start(),
        final(mem).spec_end() == old(mem).spec_end(),
        r is Ok <==> old(mem).releasable(page.spec_pfn(), page.spec_order()),
        match r {
            Ok(_) => {
                let h = page.spec_pfn();
                let k = page.spec_order();
                if old(mem).desc(h).refcount > 1 {
                    &&& final(mem).free_runs() == old(mem).free_runs()
                    &&& forall|x: int|
                        old(mem).managed(x) ==> #[trigger] final(mem).desc(x) == (if x == h {
                            PageDescriptor {
                                refcount: (old(mem).desc(h).refcount - 1) as usize,
                                ..old(mem).desc(h)
                            }
                        } else {
                            old(mem).desc(x)
                        })
                    &&& forall|x: int|
                        old(mem).managed(x) ==> #[trigger] final(mem).bytes(x) == old(mem).bytes(x)
                } else {
                    &&& final(mem).free_runs() == coalesce(old(mem).free_runs(), h, k)
                    &&& forall|x: int|
                        old(mem).managed(x) ==> #[trigger] final(mem).desc(x) == (if in_run(
                            x,
                            h,
                            k,
                        ) {
                            free_descriptor()
                        } else {
                            old(mem).desc(x)
                        })
                    &&& forall|x: int|
                        old(mem).managed(x) ==> #[trigger] final(mem).bytes(x) == old(mem).bytes(x)
                }
            },
            Err(e) => e == -1 && *final(mem) == *old(mem),
        },
        r is Ok ==> final(mem)@ == drop_view(old(mem)@, page.spec_pfn(), page.spec_order()),
{
    let pfn = page.get_pfn();
    let order = page.get_order();
    if !mem.check_releasable(pfn, order) {
        return Err(-1);
    }
    proof {
        mem.lemma_releasable(pfn.0 as int, order as int);
    }
    let d = mem.pages.get(pfn).unwrap();
    if d.refcount > 1 {
        mem.pages.set_refcount(pfn, d.refcount - 1);
        proof {
            mem.lemma_refcount_change(*old(mem));
            let a = refcount_view(old(mem)@, pfn.0 as int, d.refcount - 1);
            assert(mem@.descs =~= a.descs);
            assert(mem@.bytes =~= a.bytes);
        }
        Ok(())
    } else {
        _insert_area_for_page_drop(mem, pfn, order)
    }
}

/// Gives up one handle to a run, as `free_pages` does, and says nothing
/// where the handle names no run that can be released.
pub fn drop_page(mem: &mut PhysMemory, page: Page)
    requires
        old(mem).wf(),
    ensures
        final(mem).wf(),
        final(mem)@ == drop_if(old(mem)@, page.spec_pfn(), page.spec_order()),
{
    proof {
        mem.lemma_view_releasable(page.spec_pfn(), page.spec_order());
    }
    let _ = free_pages(mem, page);
}

/// Makes one more handle to the run that `page` names.
///
/// `None`, with nothing changed, when `page` names no run that can be
/// released or the count of handles is at its limit.
pub fn share_page(mem: &mut PhysMemory, page: &Page) -> (r: Option<Page>)
    requires
        old(mem).wf(),
    ensures
        final(mem).wf(),
        final(mem).spec_start() == old(mem).spec_start(),
        final(mem).spec_end() == old(mem).spec_end(),
        final(mem).free_runs() == old(mem).free_runs(),
        r is Some <==> (old(mem).releasable(page.spec_pfn(), page.spec_order()) && old(mem).desc(
            page.spec_pfn(),
        ).refcount < usize::MAX),
        forall|x: int| old(mem).managed(x) ==> #[trigger] final(mem).bytes(x) == old(mem).bytes(x),
        match r {
            Some(pg) => {
                let h = page.spec_pfn();
                &&& pg.spec_pfn() == h
                &&& pg.spec_order() == page.spec_order()
                &&& forall|x: int|
                    old(mem).managed(x) ==> #[trigger] final(mem).desc(x) == (if x == h {
                        PageDescriptor {
                            refcount: (old(mem).desc(h).refcount + 1) as usize,
                            ..old(mem).desc(h)
                        }
                    } else {
                        old(mem).desc(x)
                    })
            },
            None => *final(mem) == *old(mem),
        },
        r is Some ==> final(mem)@ == refcount_view(
            old(mem)@,
            page.spec_pfn(),
            old(mem)@.descs[page.spec_pfn()].refcount + 1,
        ),
{
    let pfn = page.get_pfn();
    let order = page.get_order();
    if !mem.check_releasable(pfn, order) {
        return None;
    }
    let d = mem.pages.get(pfn).unwrap();
    if d.refcount == usize::MAX {
        return None;
    }
    proof {
        mem.lemma_releasable(pfn.0 as int, order as int);
    }
    mem.pages.set_refcount(pfn, d.refcount + 1);
    proof {
        mem.lemma_refcount_change(*old(mem));
        let a = refcount_view(old(mem)@, pfn.0 as int, d.refcount + 1);
        assert(mem@.descs =~= a.descs);
        assert(mem@.bytes =~= a.bytes);
    }
    Some(Page::new(pfn, order))
}

/// Copies the bytes of frame `s + f`, where it holds bytes, to frame
/// `d + f`, which does.
fn copy_frame(mem: &mut PhysMemory, s: usize, d: usize, f: usize)
    requires
        old(mem).wf(),
        d + f <= usize::MAX,
        old(mem)@.bytes.dom().contains(d + f),
    ensures
        final(mem).wf(),
        final(mem)@ == copy_step(old(mem)@, s + f, d + f),
        final(mem)@.start == old(mem)@.start,
        final(mem)@.end == old(mem)@.end,
        final(mem)@.bytes.dom() == old(mem)@.bytes.dom(),
{
    proof {
        mem.lemma_range_bounded();
    }
    if s <= usize::MAX - f {
        match mem.read_allocated(PFN(s + f)) {
            None => {},
            Some(data) => {
                let ok = mem.write_frame(PFN(d + f), 0, data.as_slice());
                proof {
                    assert(ok);
                    assert(mem@.bytes.dom() =~= old(mem)@.bytes.dom());
                }
            },
        }
    }
}

/// Allocates a run of the order of `src` and copies the bytes of `src`
/// into it, frame by frame.  `None`, with nothing changed, where no run of
/// that order can be allocated.
#[verifier::rlimit(50)]
#[verifier::spinoff_prover]
pub fn copy_block(mem: &mut PhysMemory, src: &Page) -> (r: Option<Page>)
    requires
        old(mem).wf(),
    ensures
        final(mem).wf(),
        final(mem)@.start == old(mem)@.start,
        final(mem)@.end == old(mem)@.end,
        match r {
            Some(dst) => {
                &&& alloc_ok(old(mem)@, src.spec_order())
                &&& dst.spec_pfn() == alloc_head(old(mem)@, src.spec_order())
                &&& dst.spec_order() == src.spec_order()
                &&& final(mem)@ == copy_block_view(old(mem)@, src.spec_pfn(), src.spec_order())
            },
            None => !alloc_ok(old(mem)@, src.spec_order()) && final(mem)@ == old(mem)@,
        },
{
    let order = src.get_order();
    let dst = match alloc_pages(mem, order) {
        None => {
            return None;
        },
        Some(pg) => pg,
    };
    let s = src.get_pfn().0;
    let d = dst.get_pfn().0;
    proof {
        mem.lemma_range_bounded();
    }
    proof {
        lemma_shift_run_pages(order);
        lemma_run_pages_pos(order as nat);
    }
    let count: usize = 1usize << order;
    let ghost v1 = mem@;
    proof {
        assert forall|y: int| d <= y < d + count implies #[trigger] mem@.bytes.dom().contains(
            y,
        ) by {
            assert(mem.desc(y).state == PageState::Allocated(order));
        }
    }
    let mut f: usize = 0;
    while f < count
        invariant
            f <= count,
            mem.wf(),
            mem@.start == v1.start,
            mem@.end == v1.end,
            d + count <= usize::MAX,
            mem@.bytes.dom() == v1.bytes.dom(),
            forall|y: int| d <= y < d + count ==> #[trigger] v1.bytes.dom().contains(y),
            mem@ == copy_frames(v1, s as int, d as int, f as nat),
        decreases count - f,
    {
        proof {
            assert(v1.bytes.dom().contains(d + f));
            assert(copy_frames(v1, s as int, d as int, (f + 1) as nat) == copy_step(
                copy_frames(v1, s as int, d as int, f as nat),
                s + f,
                d + f,
            ));
        }
        copy_frame(mem, s, d, f);
        f += 1;
    }
    Some(dst)
}

} // verus!
