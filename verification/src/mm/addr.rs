//! Addresses and page frame numbers.
use vstd::prelude::*;
use vstd::std_specs::convert::FromSpecImpl;
use vstd::std_specs::ops::{AddSpecImpl, SubSpecImpl};
use crate::consts::{PAGE_OFFSET, PAGE_SIZE, PHY_MEM_OFF};

verus! {

/// A machine address, physical or virtual.
#[derive(Copy, Clone, Debug, PartialEq, Eq, Structural, PartialOrd, Ord, Hash)]
pub struct Addr(pub usize);

/// A page frame number: a physical address divided by the page size.
#[derive(Copy, Clone, Debug, PartialEq, Eq, Structural, PartialOrd, Ord, Hash)]
pub struct PFN(pub usize);

/// The largest multiple of the page size that is not above `a`.
pub open spec fn page_floor(a: int) -> int {
    (a / 4096) * 4096
}

/// The smallest multiple of the page size that is not below `a`.
pub open spec fn page_ceil(a: int) -> int {
    if a % 4096 == 0 {
        a
    } else {
        (a / 4096) * 4096 + 4096
    }
}

/// Rounding to page boundaries brackets an address within less than a page,
/// and leaves a page-aligned address where it is.
pub proof fn lemma_floor_ceil(a: int)
    requires
        0 <= a,
    ensures
        page_floor(a) <= a <= page_ceil(a),
        page_floor(a) % 4096 == 0,
        page_ceil(a) % 4096 == 0,
        page_ceil(a) - page_floor(a) <= 4096,
        a - page_floor(a) < 4096,
        page_ceil(a) - a < 4096,
        a % 4096 == 0 ==> page_floor(a) == a && page_ceil(a) == a,
{
}

impl Default for Addr {
    fn default() -> (r: Self)
        ensures
            r.0 == 0,
    {
        Addr(0)
    }
}

impl core::ops::Add for Addr {
    type Output = Addr;

    fn add(self, rhs: Self) -> (r: Addr) {
        Addr(self.0 + rhs.0)
    }
}

impl AddSpecImpl for Addr {
    open spec fn obeys_add_spec() -> bool {
        true
    }

    open spec fn add_req(self, rhs: Self) -> bool {
        self.0 + rhs.0 <= usize::MAX
    }

    open spec fn add_spec(self, rhs: Self) -> Addr {
        Addr((self.0 + rhs.0) as usize)
    }
}

impl core::ops::Sub for Addr {
    type Output = Addr;

    fn sub(self, rhs: Self) -> (r: Addr) {
        Addr(self.0 - rhs.0)
    }
}

impl SubSpecImpl for Addr {
    open spec fn obeys_sub_spec() -> bool {
        true
    }

    open spec fn sub_req(self, rhs: Self) -> bool {
        rhs.0 <= self.0
    }

    open spec fn sub_spec(self, rhs: Self) -> Addr {
        Addr((self.0 - rhs.0) as usize)
    }
}

impl core::ops::Add for PFN {
    type Output = PFN;

    fn add(self, rhs: Self) -> (r: PFN) {
        PFN(self.0 + rhs.0)
    }
}

impl AddSpecImpl for PFN {
    open spec fn obeys_add_spec() -> bool {
        true
    }

    open spec fn add_req(self, rhs: Self) -> bool {
        self.0 + rhs.0 <= usize::MAX
    }

    open spec fn add_spec(self, rhs: Self) -> PFN {
        PFN((self.0 + rhs.0) as usize)
    }
}

impl core::ops::Sub for PFN {
    type Output = PFN;

    fn sub(self, rhs: Self) -> (r: PFN) {
        PFN(self.0 - rhs.0)
    }
}

impl SubSpecImpl for PFN {
    open spec fn obeys_sub_spec() -> bool {
        true
    }

    open spec fn sub_req(self, rhs: Self) -> bool {
        rhs.0 <= self.0
    }

    open spec fn sub_spec(self, rhs: Self) -> PFN {
        PFN((self.0 - rhs.0) as usize)
    }
}

impl From<usize> for Addr {
    fn from(v: usize) -> (r: Self) {
        Addr(v)
    }
}

impl FromSpecImpl<usize> for Addr {
    open spec fn obeys_from_spec() -> bool {
        true
    }

    open spec fn from_spec(v: usize) -> Addr {
        Addr(v)
    }
}

impl From<PFN> for Addr {
    fn from(pfn: PFN) -> (r: Self) {
        Addr(pfn.get_addr_usize())
    }
}

impl FromSpecImpl<PFN> for Addr {
    open spec fn obeys_from_spec() -> bool {
        true
    }

    open spec fn from_spec(pfn: PFN) -> Addr {
        Addr(frame_addr(pfn.0))
    }
}

impl From<usize> for PFN {
    fn from(v: usize) -> (r: Self) {
        proof {
            lemma_page_shift(v);
        }
        PFN(v >> PAGE_OFFSET)
    }
}

impl FromSpecImpl<usize> for PFN {
    open spec fn obeys_from_spec() -> bool {
        true
    }

    open spec fn from_spec(v: usize) -> PFN {
        PFN(v / 4096)
    }
}

impl From<Addr> for PFN {
    fn from(v: Addr) -> (r: Self) {
        proof {
            lemma_page_shift(v.0);
        }
        PFN(v.0 >> PAGE_OFFSET)
    }
}

impl FromSpecImpl<Addr> for PFN {
    open spec fn obeys_from_spec() -> bool {
        true
    }

    open spec fn from_spec(v: Addr) -> PFN {
        PFN(v.0 / 4096)
    }
}

/// Shifting right by the page offset is dividing by the page size.
pub proof fn lemma_page_shift(v: usize)
    by (bit_vector)
    ensures
        v >> 12 == v / 4096,
{
}

/// The physical address of the first byte of frame `pfn`, cut to a word.
pub open spec fn frame_addr(pfn: usize) -> usize {
    ((pfn as nat * 4096) % (usize::MAX as nat + 1)) as usize
}

/// Frame numbers and page-aligned physical addresses stand for each other:
/// the address of a frame is page aligned and gives the frame number back,
/// and the frame number of a page-aligned address gives the address back.
pub proof fn lemma_pfn_addr(pfn: usize, addr: usize)
    ensures
        pfn * 4096 <= usize::MAX ==> frame_addr(pfn) == pfn * 4096 && frame_addr(pfn) / 4096
            == pfn && frame_addr(pfn) % 4096 == 0,
        addr % 4096 == 0 ==> frame_addr((addr / 4096) as usize) == addr,
{
    if pfn * 4096 <= usize::MAX {
        vstd::arithmetic::div_mod::lemma_small_mod((pfn * 4096) as nat, (usize::MAX + 1) as nat);
    }
    if addr % 4096 == 0 {
        vstd::arithmetic::div_mod::lemma_small_mod(addr as nat, (usize::MAX + 1) as nat);
    }
}

impl Addr {
    /// The address rounded down to a page boundary.
    pub fn floor(&self) -> (r: Addr)
        ensures
            r.0 == page_floor(self.0 as int),
            r.0 % 4096 == 0,
            r.0 <= self.0 < r.0 + 4096,
    {
        Addr((self.0 / PAGE_SIZE) * PAGE_SIZE)
    }

    /// The address rounded up to a page boundary.
    pub fn ceil(&self) -> (r: Addr)
        requires
            page_ceil(self.0 as int) <= usize::MAX,
        ensures
            r.0 == page_ceil(self.0 as int),
            r.0 % 4096 == 0,
            self.0 <= r.0 < self.0 + 4096,
    {
        if self.0 % PAGE_SIZE == 0 {
            Addr(self.floor().0)
        } else {
            Addr(self.floor().0 + PAGE_SIZE)
        }
    }

    /// The number of whole pages below the address.
    pub fn get_pg_cnt(&self) -> (r: usize)
        ensures
            r == self.0 / 4096,
    {
        self.0 / PAGE_SIZE
    }

    /// The physical address behind this address of the direct map.
    pub fn get_paddr(&self) -> (r: usize)
        requires
            self.0 >= PHY_MEM_OFF,
        ensures
            r == self.0 - PHY_MEM_OFF,
    {
        ((self.0 as u64) - PHY_MEM_OFF) as usize
    }

    /// The address in the direct map of this physical address.
    pub fn get_vaddr(&self) -> (r: usize)
        requires
            self.0 + PHY_MEM_OFF <= usize::MAX,
        ensures
            r == self.0 + PHY_MEM_OFF,
    {
        ((self.0 as u64) + PHY_MEM_OFF) as usize
    }

    /// The number of bytes from `start` to `end`; `None` where `end` lies
    /// before `start`.
    pub fn steps_between(start: &Self, end: &Self) -> (r: Option<usize>)
        ensures
            r == (if start.0 <= end.0 {
                Some((end.0 - start.0) as usize)
            } else {
                None
            }),
    {
        if start.0 <= end.0 {
            Some(end.0 - start.0)
        } else {
            None
        }
    }

    /// The address `count` bytes after `start`; `None` where it does not fit
    /// a word.
    pub fn forward_checked(start: Self, count: usize) -> (r: Option<Self>)
        ensures
            r == (if start.0 + count <= usize::MAX {
                Some(Addr((start.0 + count) as usize))
            } else {
                None
            }),
    {
        match start.0.checked_add(count) {
            None => None,
            Some(v) => Some(Addr(v)),
        }
    }

    /// The address `count` bytes before `start`; `None` where it would lie
    /// below zero.
    pub fn backward_checked(start: Self, count: usize) -> (r: Option<Self>)
        ensures
            r == (if count <= start.0 {
                Some(Addr((start.0 - count) as usize))
            } else {
                None
            }),
    {
        match start.0.checked_sub(count) {
            None => None,
            Some(v) => Some(Addr(v)),
        }
    }
}

impl PFN {
    /// Moves the frame number on by `n` and returns the new number.
    pub fn step_n(&mut self, n: usize) -> (r: Self)
        requires
            old(self).0 + n <= usize::MAX,
        ensures
            final(self).0 == old(self).0 + n,
            r == *final(self),
    {
        self.0 += n;
        *self
    }

    /// Moves the frame number on by one and returns the new number.
    pub fn step_one(&mut self) -> (r: Self)
        requires
            old(self).0 < usize::MAX,
        ensures
            final(self).0 == old(self).0 + 1,
            r == *final(self),
    {
        self.0 += 1;
        *self
    }

    /// The physical address of the frame's first byte: the frame number
    /// times the page size, cut to a word.
    pub fn get_addr_usize(&self) -> (r: usize)
        ensures
            r == frame_addr(self.0),
            self.0 * 4096 <= usize::MAX ==> r == self.0 * 4096,
    {
        proof {
            if self.0 * 4096 <= usize::MAX {
                vstd::arithmetic::div_mod::lemma_small_mod(
                    (self.0 * 4096) as nat,
                    (usize::MAX + 1) as nat,
                );
            }
        }
        self.0.wrapping_mul(PAGE_SIZE)
    }
}

} // verus!
