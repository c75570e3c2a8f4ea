//! Small helpers on raw addresses, orders, strings and dates.
use vstd::prelude::*;
use crate::consts::{DIRECT_MAP_END, DIRECT_MAP_START, MAX_ORDER, PAGE_SIZE, PHY_MEM_OFF};
use crate::mm::addr::{page_ceil, page_floor, Addr};
use crate::mm::{mem_byte, MemView, PhysMemory};
use crate::mm::buddy::{lemma_shift_run_pages, run_pages};

verus! {

/// The address rounded up to a page boundary.
pub fn addr_page_align_upper(addr: usize) -> (r: usize)
    requires
        page_ceil(addr as int) <= usize::MAX,
    ensures
        r == page_ceil(addr as int),
        r % 4096 == 0,
        addr <= r < addr + 4096,
{
    let low = addr_page_align_lower(addr);
    if low == addr {
        low
    } else {
        low + PAGE_SIZE
    }
}

/// The address rounded down to a page boundary.
pub fn addr_page_align_lower(addr: usize) -> (r: usize)
    ensures
        r == page_floor(addr as int),
        r % 4096 == 0,
        r <= addr < r + 4096,
{
    proof {
        assert(addr & 4095 == addr % 4096) by (bit_vector);
    }
    addr - (addr & (PAGE_SIZE - 1))
}

/// The physical address behind an address of the direct map.
pub fn vaddr2paddr(addr: usize) -> (r: usize)
    requires
        DIRECT_MAP_START <= addr < DIRECT_MAP_END,
    ensures
        r == addr - DIRECT_MAP_START,
{
    ((addr as u64) - DIRECT_MAP_START) as usize
}

/// The address in the direct map of a physical address.
pub fn paddr2vaddr(addr: usize) -> (r: usize)
    requires
        addr < DIRECT_MAP_END - DIRECT_MAP_START,
        addr + DIRECT_MAP_START <= usize::MAX,
    ensures
        r == addr + DIRECT_MAP_START,
{
    ((addr as u64) + DIRECT_MAP_START) as usize
}

/// Index into the level-0 table: bits 12 to 20 of the address.
pub fn addr_get_ppn0(vaddr: usize) -> (r: usize)
    ensures
        r == (vaddr / 4096) % 512,
{
    proof {
        assert((vaddr >> 12) & 0x1FF == (vaddr / 4096) % 512) by (bit_vector);
    }
    (vaddr >> 12) & 0x1FF
}

/// Index into the level-1 table: bits 21 to 29 of the address.
pub fn addr_get_ppn1(vaddr: usize) -> (r: usize)
    ensures
        r == (vaddr / 0x200000) % 512,
{
    proof {
        assert((vaddr >> 21) & 0x1FF == (vaddr / 0x200000) % 512) by (bit_vector);
    }
    (vaddr >> 21) & 0x1FF
}

/// Index into the root table: bits 30 to 38 of the address.
pub fn addr_get_ppn2(vaddr: usize) -> (r: usize)
    ensures
        r == (vaddr / 0x40000000) % 512,
{
    proof {
        assert((vaddr >> 30) & 0x1FF == (vaddr / 0x40000000) % 512) by (bit_vector);
    }
    (vaddr >> 30) & 0x1FF
}

/// Pages in a run of the given order; 0 for an order that is not below
/// `MAX_ORDER`.
pub fn order2pages(order: usize) -> (r: usize)
    ensures
        order < MAX_ORDER ==> r == run_pages(order as nat),
        order >= MAX_ORDER ==> r == 0,
{
    if order < MAX_ORDER {
        proof {
            lemma_shift_run_pages(order);
        }
        1 << order
    } else {
        0
    }
}

/// The lowest order whose runs hold at least `pages` pages, or `MAX_ORDER`
/// when no order does.
pub fn pages2order(pages: usize) -> (r: usize)
    ensures
        r <= MAX_ORDER,
        r < MAX_ORDER ==> run_pages(r as nat) >= pages,
        forall|i: nat| i < r ==> #[trigger] run_pages(i) < pages,
{
    let mut i: usize = 0;
    while i < MAX_ORDER
        invariant
            i <= MAX_ORDER,
            forall|k: nat| k < i ==> #[trigger] run_pages(k) < pages,
        decreases MAX_ORDER - i,
    {
        if order2pages(i) >= pages {
            return i;
        }
        i += 1;
    }
    MAX_ORDER
}

/// Appends a character to a string.
///
/// Trusted: this is `String::push`, of which the documentation says that it
/// appends the given character to the end of the string.
#[verifier::external_body]
fn push_char(s: &mut String, c: char)
    ensures
        final(s)@ == old(s)@.push(c),
{
    s.push(c);
}

/// The number of bytes of `bytes` before the first zero byte, or the number
/// of all bytes where none is zero.
pub open spec fn cstr_len(bytes: Seq<u8>) -> int
    decreases bytes.len(),
{
    if bytes.len() == 0 || bytes[0] == 0 {
        0
    } else {
        1 + cstr_len(bytes.subrange(1, bytes.len() as int))
    }
}

/// The string that the bytes before the first zero byte spell, each byte
/// taken as the character with that code.
pub open spec fn cstr_of(bytes: Seq<u8>) -> Seq<char> {
    Seq::new(cstr_len(bytes) as nat, |i: int| bytes[i] as char)
}

/// The length of a C string, by where its end is.
pub proof fn lemma_cstr_len(bytes: Seq<u8>, n: int)
    requires
        0 <= n <= bytes.len(),
        forall|i: int| 0 <= i < n ==> bytes[i] != 0,
        n == bytes.len() || bytes[n] == 0,
    ensures
        cstr_len(bytes) == n,
    decreases n,
{
    if n > 0 {
        let rest = bytes.subrange(1, bytes.len() as int);
        assert forall|i: int| 0 <= i < n - 1 implies rest[i] != 0 by {
            assert(rest[i] == bytes[i + 1]);
        }
        lemma_cstr_len(rest, n - 1);
    }
}

/// Converts the C string at the start of `bytes` to a string: the bytes up
/// to the first zero byte, or all of them where none is zero.
pub fn convert_cstr_from_bytes(bytes: &[u8]) -> (r: String)
    ensures
        r@ == cstr_of(bytes@),
{
    let mut s = String::new();
    let mut i: usize = 0;
    while i < bytes.len() && bytes[i] != 0
        invariant
            i <= bytes@.len(),
            forall|k: int| 0 <= k < i ==> bytes@[k] != 0,
            s@ == Seq::new(i as nat, |k: int| bytes@[k] as char),
        decreases bytes@.len() - i,
    {
        let c = bytes[i];
        push_char(&mut s, c as char);
        proof {
            assert(s@ =~= Seq::new((i + 1) as nat, |k: int| bytes@[k] as char));
        }
        i += 1;
    }
    proof {
        lemma_cstr_len(bytes@, i as int);
    }
    s
}

/// A calendar date.
#[derive(Copy, Clone, Debug, PartialEq, Eq, Structural)]
pub struct Date {
    /// The year, 1970 or later.
    pub year: u16,
    /// The month, from 1.
    pub month: u16,
    /// The day of the month, from 1.
    pub day: u16,
}

/// A time of day.
#[derive(Copy, Clone, Debug, PartialEq, Eq, Structural)]
pub struct Time {
    /// Hours after midnight.
    pub hour: u16,
    /// Minutes after the hour.
    pub min: u16,
    /// Seconds after the minute.
    pub sec: u16,
    /// Milliseconds after the second.
    pub millis: u16,
}

/// A date and a time of day.
#[derive(Copy, Clone, Debug, PartialEq, Eq, Structural)]
pub struct DateTime {
    /// The date.
    pub date: Date,
    /// The time of day.
    pub time: Time,
}

/// Seconds in a day.
pub const D_SECOND: u64 = 86400;

/// Seconds in a month, taken as 30 days.
pub const M_SECOND: u64 = 2592000;

/// Seconds in a year, taken as 365 days.
pub const Y_SECOND: u64 = 31536000;

/// The seconds from the start of 1970 to the start of the date, with every
/// year taken as 365 days and every month as 30.
pub open spec fn date_seconds(d: Date) -> int {
    (d.year - 1970) * 31536000 + (d.month - 1) * 2592000 + (d.day - 1) * 86400
}

/// The seconds from the start of 1970 to the start of the date.
pub fn date2second(d: Date) -> (r: u64)
    requires
        d.year >= 1970,
        d.month >= 1,
        d.day >= 1,
    ensures
        r == date_seconds(d),
{
    let y = d.year - 1970;
    let m = d.month - 1;
    let d = d.day - 1;
    y as u64 * Y_SECOND + m as u64 * M_SECOND + d as u64 * D_SECOND
}

/// The seconds from the start of 1970 to the date and time.
pub fn datetime2second(d: DateTime) -> (r: u64)
    requires
        d.date.year >= 1970,
        d.date.month >= 1,
        d.date.day >= 1,
    ensures
        r == date_seconds(d.date) + d.time.hour * 3600 + d.time.min * 60 + d.time.sec,
{
    let datesecond = date2second(d.date);
    let timesecond = d.time.hour as u64 * 3600 + d.time.min as u64 * 60 + d.time.sec as u64;
    datesecond + timesecond
}

/// The C string at the physical address `a`: the characters of the bytes
/// from `a` up to the first zero byte; nothing where the string leaves the
/// frames that are allocated, or reaches the last address, before it ends.
#[verifier::opaque]
pub open spec fn cstr_at(v: MemView, a: int) -> Option<Seq<char>>
    decreases usize::MAX - a,
{
    if a < 0 || a >= usize::MAX {
        None
    } else {
        match mem_byte(v, a) {
            None => None,
            Some(c) => if c == 0 {
                Some(Seq::empty())
            } else {
                match cstr_at(v, a + 1) {
                    None => None,
                    Some(rest) => Some(seq![c as char] + rest),
                }
            },
        }
    }
}

/// The C string at an address, by its first byte.
pub proof fn lemma_cstr_at(v: MemView, a: int)
    ensures
        cstr_at(v, a) == (if a < 0 || a >= usize::MAX {
            None::<Seq<char>>
        } else {
            match mem_byte(v, a) {
                None => None,
                Some(c) => if c == 0 {
                    Some(Seq::empty())
                } else {
                    match cstr_at(v, a + 1) {
                        None => None,
                        Some(rest) => Some(seq![c as char] + rest),
                    }
                },
            }
        }),
{
    reveal_with_fuel(cstr_at, 2);
}

/// Converts the C string at the address `vaddr` of the direct map to a
/// string.  `None` where the address lies below the direct map, and where
/// the string leaves the frames that are allocated before it ends.
pub fn convert_cstr_from_vaddr(mem: &PhysMemory, vaddr: Addr) -> (r: Option<String>)
    requires
        mem.wf(),
    ensures
        match r {
            Some(s) => vaddr.0 >= PHY_MEM_OFF && cstr_at(mem@, vaddr.0 - PHY_MEM_OFF) == Some(s@),
            None => vaddr.0 < PHY_MEM_OFF || cstr_at(mem@, vaddr.0 - PHY_MEM_OFF) is None,
        },
{
    if (vaddr.0 as u64) < PHY_MEM_OFF {
        return None;
    }
    let start: usize = ((vaddr.0 as u64) - PHY_MEM_OFF) as usize;
    let mut s = String::new();
    let mut a: usize = start;
    loop
        invariant
            mem.wf(),
            start <= a,
            vaddr.0 >= PHY_MEM_OFF,
            start == vaddr.0 - PHY_MEM_OFF,
            cstr_at(mem@, start as int) == (match cstr_at(mem@, a as int) {
                None => None::<Seq<char>>,
                Some(rest) => Some(s@ + rest),
            }),
        decreases usize::MAX - a,
    {
        proof {
            lemma_cstr_at(mem@, a as int);
        }
        if a == usize::MAX {
            return None;
        }
        let c = match mem.byte_at(a) {
            None => {
                return None;
            },
            Some(c) => c,
        };
        if c == 0 {
            proof {
                assert(s@ + Seq::<char>::empty() =~= s@);
            }
            return Some(s);
        }
        let ghost before = s@;
        push_char(&mut s, c as char);
        proof {
            match cstr_at(mem@, a + 1) {
                None => {},
                Some(rest) => {
                    assert(before + (seq![c as char] + rest) =~= s@ + rest);
                },
            }
        }
        a += 1;
    }
}

} // verus!
