//! Binary buddy allocator for page frames.
//!
//! The allocator keeps, for each order below `MAX_ORDER`, the head frame
//! numbers of the free runs of `1 << order` frames.  Its view is that family
//! of sets; `runs_wf` is what holds of it between calls.
use vstd::prelude::*;
use vstd::arithmetic::div_mod::{lemma_fundamental_div_mod, lemma_fundamental_div_mod_converse};
use crate::consts::MAX_ORDER;
use crate::consts::PAGE_SIZE;
use crate::mm::addr::{Addr, PFN};

verus! {

/// Number of frames in a run of the given order: two to the power `order`.
pub open spec fn run_pages(order: nat) -> nat
    decreases order,
{
    if order == 0 {
        1
    } else {
        2 * run_pages((order - 1) as nat)
    }
}

/// The free runs by order: `f[k]` holds the head frame of each free run of
/// order `k`.
pub type FreeRuns = Seq<Set<int>>;

/// A run of order `k` that starts at frame `p` is listed as free.
pub open spec fn listed(f: FreeRuns, k: int, p: int) -> bool {
    0 <= k < f.len() && f[k].contains(p)
}

/// The head of the run that pairs with the run of order `k` at `p` to form a
/// run of order `k + 1`.  For an aligned `p` this is `p` with bit `k` flipped.
pub open spec fn buddy_of(p: int, k: nat) -> int {
    if (p / (run_pages(k) as int)) % 2 == 0 {
        p + run_pages(k)
    } else {
        p - run_pages(k)
    }
}

/// Frame `x` lies in some free run.
pub open spec fn frame_free(f: FreeRuns, x: int) -> bool {
    exists|k: int, p: int| #[trigger] listed(f, k, p) && p <= x < p + run_pages(k as nat)
}

/// What holds of the free runs of an allocator that manages the frames
/// `start..end`: every run is aligned to its length and lies inside the
/// range, no two runs overlap, and no run below the top order is listed
/// together with its buddy.
pub open spec fn runs_wf(f: FreeRuns, start: int, end: int) -> bool {
    &&& f.len() == MAX_ORDER
    &&& 0 <= start <= end
    &&& forall|k: int, p: int| #[trigger]
        listed(f, k, p) ==> p % (run_pages(k as nat) as int) == 0 && start <= p && p + run_pages(
            k as nat,
        ) <= end
    &&& forall|k1: int, p1: int, k2: int, p2: int|
        #[trigger] listed(f, k1, p1) && #[trigger] listed(f, k2, p2) && !(k1 == k2 && p1 == p2)
            ==> p1 + run_pages(k1 as nat) <= p2 || p2 + run_pages(k2 as nat) <= p1
    &&& forall|k: int, p: int| #[trigger]
        listed(f, k, p) && k + 1 < MAX_ORDER ==> !listed(f, k, buddy_of(p, k as nat))
}

/// The lowest order at or above `order` that has a free run, or `MAX_ORDER`
/// when there is none.
pub open spec fn first_fit(f: FreeRuns, order: int) -> int
    decreases MAX_ORDER - order,
{
    if order >= MAX_ORDER || order < 0 {
        MAX_ORDER as int
    } else if f[order] != Set::<int>::empty() {
        order
    } else {
        first_fit(f, order + 1)
    }
}

/// `p` is the lowest head in `s`.
pub open spec fn is_lowest(s: Set<int>, p: int) -> bool {
    s.contains(p) && forall|q: int| s.contains(q) ==> p <= q
}

/// The free runs after a run of order `order` was carved from the run of
/// order `j` at `p`: that run leaves its list, and the upper half of each
/// split joins the list of its order.
pub open spec fn split_runs(f: FreeRuns, order: int, j: int, p: int) -> FreeRuns {
    Seq::new(
        f.len(),
        |i: int|
            if i == j {
                f[i].remove(p)
            } else if order <= i < j {
                f[i].insert(p + run_pages(i as nat))
            } else {
                f[i]
            },
    )
}

/// The free runs after the run of order `k` at `p` was returned: while the
/// buddy is listed and `k` is below the top order, the two merge and the
/// merged run is returned at the next order; else the run joins list `k`.
pub open spec fn coalesce(f: FreeRuns, p: int, k: int) -> FreeRuns
    decreases MAX_ORDER - k,
{
    if 0 <= k && k + 1 < MAX_ORDER && listed(f, k, buddy_of(p, k as nat)) {
        let b = buddy_of(p, k as nat);
        coalesce(f.update(k, f[k].remove(b)), if p < b { p } else { b }, k + 1)
    } else if 0 <= k < f.len() {
        f.update(k, f[k].insert(p))
    } else {
        f
    }
}

/// Why a request to the allocator failed.
#[derive(Copy, Clone, Debug, PartialEq, Eq, Structural)]
pub enum BuddyError {
    /// No free run at or above the requested order, or the order is not
    /// below `MAX_ORDER`.
    OutOfMemory,
}

/// A run is at least one frame long, and `run_pages(k + 1)` is twice `run_pages(k)`.
pub proof fn lemma_run_pages_pos(k: nat)
    ensures
        run_pages(k) >= 1,
        run_pages(k + 1) == 2 * run_pages(k),
    decreases k,
{
    if k > 0 {
        lemma_run_pages_pos((k - 1) as nat);
    }
}

/// Longer runs belong to higher orders.
pub proof fn lemma_run_pages_mono(i: nat, j: nat)
    requires
        i <= j,
    ensures
        run_pages(i) <= run_pages(j),
        i < j ==> 2 * run_pages(i) <= run_pages(j),
    decreases j,
{
    lemma_run_pages_pos(i);
    if i < j {
        lemma_run_pages_mono(i, (j - 1) as nat);
        lemma_run_pages_pos((j - 1) as nat);
    }
}

/// The values of `run_pages` for the orders in use.
pub proof fn lemma_run_pages_values()
    ensures
        run_pages(0) == 1,
        run_pages(1) == 2,
        run_pages(2) == 4,
        run_pages(3) == 8,
        run_pages(4) == 16,
        run_pages(5) == 32,
        run_pages(6) == 64,
        run_pages(7) == 128,
        run_pages(8) == 256,
        run_pages(9) == 512,
        run_pages(10) == 1024,
{
    reveal_with_fuel(run_pages, 12);
}

proof fn lemma_half(p: int, m: int)
    requires
        m > 0,
        p % (2 * m) == 0,
    ensures
        p % m == 0,
        (p / m) % 2 == 0,
        (p + m) % m == 0,
        ((p + m) / m) % 2 == 1,
        (p + m) / m == p / m + 1,
{
    let q = p / (2 * m);
    lemma_fundamental_div_mod(p, 2 * m);
    assert(p == (2 * q) * m) by (nonlinear_arith)
        requires
            p == (2 * m) * q + 0,
    ;
    lemma_fundamental_div_mod_converse(p, m, 2 * q, 0);
    assert(p + m == (2 * q + 1) * m + 0) by (nonlinear_arith)
        requires
            p == (2 * q) * m,
    ;
    lemma_fundamental_div_mod_converse(p + m, m, 2 * q + 1, 0);
}

proof fn lemma_double(p: int, m: int)
    requires
        m > 0,
        p % m == 0,
    ensures
        (p / m) % 2 == 0 ==> p % (2 * m) == 0,
        (p / m) % 2 != 0 ==> (p - m) % (2 * m) == 0,
{
    let q = p / m;
    lemma_fundamental_div_mod(p, m);
    if q % 2 == 0 {
        let t = q / 2;
        assert(p == t * (2 * m) + 0) by (nonlinear_arith)
            requires
                p == m * q + 0,
                q == 2 * t,
        ;
        lemma_fundamental_div_mod_converse(p, 2 * m, t, 0);
    } else {
        let t = q / 2;
        assert(p - m == t * (2 * m) + 0) by (nonlinear_arith)
            requires
                p == m * q + 0,
                q == 2 * t + 1,
        ;
        lemma_fundamental_div_mod_converse(p - m, 2 * m, t, 0);
    }
}

/// A frame aligned to a run of order `j` is aligned to the runs of every
/// lower order.
pub proof fn lemma_aligned_lower(p: int, i: nat, j: nat)
    requires
        i <= j,
        p % (run_pages(j) as int) == 0,
    ensures
        p % (run_pages(i) as int) == 0,
    decreases j - i,
{
    if i < j {
        lemma_run_pages_pos((j - 1) as nat);
        lemma_half(p, run_pages((j - 1) as nat) as int);
        lemma_aligned_lower(p, i, (j - 1) as nat);
    }
}

/// The head of the aligned run of order `k` that holds frame `x`.
pub open spec fn head_of(x: int, k: nat) -> int {
    x - x % (run_pages(k) as int)
}

/// A frame inside an aligned run has that run's head as its head.
pub proof fn lemma_head_of(x: int, p: int, k: nat)
    requires
        p % (run_pages(k) as int) == 0,
        p <= x < p + run_pages(k),
    ensures
        head_of(x, k) == p,
{
    let m = run_pages(k) as int;
    lemma_run_pages_pos(k);
    lemma_fundamental_div_mod(p, m);
    let q = p / m;
    assert(x == q * m + (x - p)) by (nonlinear_arith)
        requires
            p == m * q + 0,
    ;
    lemma_fundamental_div_mod_converse(x, m, q, x - p);
}

/// The head of a frame is aligned, and the frame lies in the run at it.
pub proof fn lemma_head_aligned(x: int, k: nat)
    ensures
        head_of(x, k) % (run_pages(k) as int) == 0,
        head_of(x, k) <= x < head_of(x, k) + run_pages(k),
{
    let m = run_pages(k) as int;
    lemma_run_pages_pos(k);
    lemma_fundamental_div_mod(x, m);
    let q = x / m;
    assert(x - x % m == q * m + 0) by (nonlinear_arith)
        requires
            x == m * q + x % m,
    ;
    lemma_fundamental_div_mod_converse(x - x % m, m, q, 0);
}

/// The buddy of an aligned run: aligned to the same order, the buddy of the
/// buddy is the run itself, and the lower of the two is aligned to the next
/// order.
pub proof fn lemma_buddy(p: int, k: nat)
    requires
        p % (run_pages(k) as int) == 0,
    ensures
        buddy_of(p, k) % (run_pages(k) as int) == 0,
        buddy_of(buddy_of(p, k), k) == p,
        buddy_of(p, k) == p + run_pages(k) || buddy_of(p, k) == p - run_pages(k),
        buddy_of(p, k) == p + run_pages(k) <==> p % (run_pages(k + 1) as int) == 0,
        buddy_of(p, k) == p - run_pages(k) <==> buddy_of(p, k) % (run_pages(k + 1) as int) == 0,
{
    let m = run_pages(k) as int;
    lemma_run_pages_pos(k);
    lemma_double(p, m);
    if (p / m) % 2 == 0 {
        lemma_half(p, m);
        let b = p + m;
        assert(b % m == 0);
        assert((b / m) % 2 == 1);
        if b % (2 * m) == 0 {
            lemma_half(b, m);
        }
    } else {
        let b = p - m;
        lemma_half(b, m);
        assert(b % m == 0);
        assert((b / m) % 2 == 0);
        if p % (2 * m) == 0 {
            lemma_half(p, m);
        }
    }
}

/// While no order from `order` up to `j` has a free run, the first fit from
/// `order` is the first fit from `j`.
proof fn lemma_first_fit_skip(f: FreeRuns, order: int, j: int)
    requires
        0 <= order <= j <= MAX_ORDER,
        forall|i: int| order <= i < j ==> f[i] == Set::<int>::empty(),
    ensures
        first_fit(f, order) == first_fit(f, j),
    decreases j - order,
{
    if order < j {
        lemma_first_fit_skip(f, order + 1, j);
    }
}

/// The first fit is an order with a free run, and no order between the
/// request and it has one.
pub proof fn lemma_first_fit(f: FreeRuns, order: int)
    requires
        0 <= order,
    ensures
        order <= first_fit(f, order) <= MAX_ORDER || (order > MAX_ORDER && first_fit(f, order)
            == MAX_ORDER),
        first_fit(f, order) < MAX_ORDER ==> f[first_fit(f, order)] != Set::<int>::empty(),
        forall|i: int| order <= i < first_fit(f, order) ==> f[i] == Set::<int>::empty(),
    decreases MAX_ORDER - order,
{
    if order < MAX_ORDER && f[order] == Set::<int>::empty() {
        lemma_first_fit(f, order + 1);
    }
}

/// An offset inside a run of order `j`, at or past a run of order `order`,
/// falls in the upper half of exactly one split.
proof fn lemma_find_half(d: int, order: nat, j: nat) -> (i: nat)
    requires
        order <= j,
        run_pages(order) <= d < run_pages(j),
    ensures
        order <= i < j,
        run_pages(i) <= d < 2 * run_pages(i),
    decreases j - order,
{
    lemma_run_pages_pos(order);
    if d < 2 * run_pages(order) {
        order
    } else {
        lemma_find_half(d, order + 1, j)
    }
}

/// The frames of a run that is carved from a free run were free.
pub proof fn lemma_split_frames(f: FreeRuns, start: int, end: int, order: int, j: int, p: int)
    requires
        runs_wf(f, start, end),
        0 <= order <= j < MAX_ORDER,
        listed(f, j, p),
    ensures
        forall|x: int| p <= x < p + run_pages(order as nat) ==> frame_free(f, x),
        start <= p,
        p + run_pages(order as nat) <= end,
        p % (run_pages(order as nat) as int) == 0,
{
    lemma_run_pages_mono(order as nat, j as nat);
    lemma_aligned_lower(p, order as nat, j as nat);
    assert forall|x: int| p <= x < p + run_pages(order as nat) implies frame_free(f, x) by {
        assert(listed(f, j, p));
    }
}

/// Carving a run of order `order` from the free run of order `j` at `p`
/// keeps the free runs well formed and takes exactly the frames
/// `p .. p + run_pages(order)` out of the free frames.
pub proof fn lemma_split(f: FreeRuns, start: int, end: int, order: int, j: int, p: int)
    requires
        runs_wf(f, start, end),
        0 <= order <= j < MAX_ORDER,
        listed(f, j, p),
        forall|i: int| order <= i < j ==> f[i] == Set::<int>::empty(),
    ensures
        runs_wf(split_runs(f, order, j, p), start, end),
        p % (run_pages(order as nat) as int) == 0,
        start <= p,
        p + run_pages(order as nat) <= end,
        forall|x: int|
            frame_free(split_runs(f, order, j, p), x) <==> frame_free(f, x) && !(p <= x < p
                + run_pages(order as nat)),
        forall|x: int| p <= x < p + run_pages(order as nat) ==> frame_free(f, x),
{
    let g = split_runs(f, order, j, p);
    lemma_aligned_lower(p, order as nat, j as nat);
    lemma_run_pages_mono(order as nat, j as nat);
    // what a listed run of g is
    assert forall|k: int, x: int| #[trigger] listed(g, k, x) implies (if order <= k < j {
        x == p + run_pages(k as nat)
    } else {
        listed(f, k, x) && !(k == j && x == p)
    }) by {}
    assert forall|k: int, x: int| #[trigger] listed(g, k, x) implies x % (run_pages(k as nat) as int)
        == 0 && start <= x && x + run_pages(k as nat) <= end && (order <= k < j ==> p <= x && x
        + run_pages(k as nat) <= p + run_pages(j as nat)) by {
        if order <= k < j {
            lemma_aligned_lower(p, (k + 1) as nat, j as nat);
            lemma_run_pages_pos(k as nat);
            lemma_half(p, run_pages(k as nat) as int);
            lemma_run_pages_mono(k as nat, j as nat);
        } else {
            assert(listed(f, k, x));
        }
    }
    assert forall|k1: int, p1: int, k2: int, p2: int|
        #[trigger] listed(g, k1, p1) && #[trigger] listed(g, k2, p2) && !(k1 == k2 && p1 == p2)
        implies p1 + run_pages(k1 as nat) <= p2 || p2 + run_pages(k2 as nat) <= p1 by {
        let n1 = order <= k1 < j;
        let n2 = order <= k2 < j;
        if n1 {
            lemma_run_pages_mono(k1 as nat, j as nat);
            lemma_run_pages_pos(k1 as nat);
        }
        if n2 {
            lemma_run_pages_mono(k2 as nat, j as nat);
            lemma_run_pages_pos(k2 as nat);
        }
        if n1 && n2 {
            if k1 < k2 {
                lemma_run_pages_mono(k1 as nat, k2 as nat);
            } else {
                lemma_run_pages_mono(k2 as nat, k1 as nat);
            }
        } else if n1 {
            assert(listed(f, k2, p2) && listed(f, j, p));
        } else if n2 {
            assert(listed(f, k1, p1) && listed(f, j, p));
        } else {
            assert(listed(f, k1, p1) && listed(f, k2, p2));
        }
    }
    assert forall|k: int, x: int| #[trigger] listed(g, k, x) && k + 1 < MAX_ORDER implies !listed(
        g,
        k,
        buddy_of(x, k as nat),
    ) by {
        let b = buddy_of(x, k as nat);
        lemma_run_pages_pos(k as nat);
        if order <= k < j {
            if listed(g, k, b) {
                assert(b == p + run_pages(k as nat));
            }
        } else {
            assert(listed(f, k, x));
            assert(!listed(f, k, b));
        }
    }
    assert(runs_wf(g, start, end)) by {
        assert forall|k: int, x: int| #[trigger] listed(g, k, x) implies x % (run_pages(
            k as nat,
        ) as int) == 0 && start <= x && x + run_pages(k as nat) <= end by {}
    }
    assert forall|x: int| p <= x < p + run_pages(order as nat) implies frame_free(f, x) by {
        assert(listed(f, j, p));
    }
    assert forall|x: int|
        frame_free(g, x) <==> frame_free(f, x) && !(p <= x < p + run_pages(order as nat)) by {
        if frame_free(g, x) {
            let (k, h) = choose|k: int, h: int| #[trigger]
                listed(g, k, h) && h <= x < h + run_pages(k as nat);
            if order <= k < j {
                lemma_run_pages_mono(order as nat, k as nat);
                lemma_run_pages_mono(k as nat, j as nat);
                assert(listed(f, j, p));
            } else {
                assert(listed(f, k, h) && listed(f, j, p));
            }
        }
        if frame_free(f, x) && !(p <= x < p + run_pages(order as nat)) {
            let (k, h) = choose|k: int, h: int| #[trigger]
                listed(f, k, h) && h <= x < h + run_pages(k as nat);
            if k == j && h == p {
                let i = lemma_find_half(x - p, order as nat, j as nat);
                assert(listed(g, i as int, p + run_pages(i)));
            } else {
                assert(listed(g, k, h));
            }
        }
    }
}

/// No frame of the run of order `k` at `p` lies in a free run.
pub open spec fn run_unlisted(f: FreeRuns, p: int, k: int) -> bool {
    forall|x: int| p <= x < p + run_pages(k as nat) ==> !frame_free(f, x)
}

/// The run of order `k` at `p` could join the free runs: it is aligned, lies
/// inside the range and overlaps no listed run.
pub open spec fn run_fits(f: FreeRuns, start: int, end: int, p: int, k: int) -> bool {
    &&& 0 <= k < MAX_ORDER
    &&& p % (run_pages(k as nat) as int) == 0
    &&& start <= p
    &&& p + run_pages(k as nat) <= end
    &&& forall|k2: int, x: int| #[trigger]
        listed(f, k2, x) ==> x + run_pages(k2 as nat) <= p || p + run_pages(k as nat) <= x
}

/// A run none of whose frames is free overlaps no listed run.
pub proof fn lemma_unlisted_fits(f: FreeRuns, start: int, end: int, p: int, k: int)
    requires
        0 <= k < MAX_ORDER,
        p % (run_pages(k as nat) as int) == 0,
        start <= p,
        p + run_pages(k as nat) <= end,
        run_unlisted(f, p, k),
    ensures
        run_fits(f, start, end, p, k),
{
    lemma_run_pages_pos(k as nat);
    assert forall|k2: int, x: int| #[trigger] listed(f, k2, x) implies x + run_pages(k2 as nat)
        <= p || p + run_pages(k as nat) <= x by {
        lemma_run_pages_pos(k2 as nat);
        if !(x + run_pages(k2 as nat) <= p || p + run_pages(k as nat) <= x) {
            if x >= p {
                assert(frame_free(f, x));
            } else {
                assert(frame_free(f, p));
            }
        }
    }
}

/// One merge: the listed buddy of a run that fits leaves its list, and the
/// two together fit at the next order.
proof fn lemma_merge_step(f: FreeRuns, start: int, end: int, p: int, k: int)
    requires
        runs_wf(f, start, end),
        run_fits(f, start, end, p, k),
        k + 1 < MAX_ORDER,
        listed(f, k, buddy_of(p, k as nat)),
    ensures
        ({
            let b = buddy_of(p, k as nat);
            let g = f.update(k, f[k].remove(b));
            let q = if p < b { p } else { b };
            &&& runs_wf(g, start, end)
            &&& run_fits(g, start, end, q, k + 1)
            &&& forall|x: int|
                (frame_free(g, x) || q <= x < q + run_pages((k + 1) as nat)) <==> (frame_free(f, x)
                    || p <= x < p + run_pages(k as nat))
        }),
{
    let b = buddy_of(p, k as nat);
    let g = f.update(k, f[k].remove(b));
    let q = if p < b { p } else { b };
    lemma_buddy(p, k as nat);
    lemma_run_pages_pos(k as nat);
    assert forall|k2: int, x: int| #[trigger] listed(g, k2, x) implies listed(f, k2, x) && !(k2 == k
        && x == b) by {}
    assert forall|k1: int, p1: int, k2: int, p2: int|
        #[trigger] listed(g, k1, p1) && #[trigger] listed(g, k2, p2) && !(k1 == k2 && p1 == p2)
        implies p1 + run_pages(k1 as nat) <= p2 || p2 + run_pages(k2 as nat) <= p1 by {
        assert(listed(f, k1, p1) && listed(f, k2, p2));
    }
    assert forall|k2: int, x: int| #[trigger] listed(g, k2, x) && k2 + 1 < MAX_ORDER implies !listed(
        g,
        k2,
        buddy_of(x, k2 as nat),
    ) by {
        assert(listed(f, k2, x));
        assert(!listed(f, k2, buddy_of(x, k2 as nat)));
    }
    assert(runs_wf(g, start, end)) by {
        assert forall|k2: int, x: int| #[trigger] listed(g, k2, x) implies x % (run_pages(
            k2 as nat,
        ) as int) == 0 && start <= x && x + run_pages(k2 as nat) <= end by {
            assert(listed(f, k2, x));
        }
    }
    assert(listed(f, k, b));
    assert forall|k2: int, x: int| #[trigger] listed(g, k2, x) implies x + run_pages(k2 as nat)
        <= q || q + run_pages((k + 1) as nat) <= x by {
        lemma_run_pages_pos(k2 as nat);
        assert(listed(f, k2, x) && listed(f, k, b));
    }
    assert forall|x: int|
        (frame_free(g, x) || q <= x < q + run_pages((k + 1) as nat)) <==> (frame_free(f, x) || p
            <= x < p + run_pages(k as nat)) by {
        if frame_free(g, x) {
            let (k2, h) = choose|k2: int, h: int| #[trigger]
                listed(g, k2, h) && h <= x < h + run_pages(k2 as nat);
            assert(listed(f, k2, h));
        }
        if q <= x < q + run_pages((k + 1) as nat) && !(p <= x < p + run_pages(k as nat)) {
            assert(listed(f, k, b) && b <= x < b + run_pages(k as nat));
        }
        if frame_free(f, x) {
            let (k2, h) = choose|k2: int, h: int| #[trigger]
                listed(f, k2, h) && h <= x < h + run_pages(k2 as nat);
            if k2 == k && h == b {
            } else {
                assert(listed(g, k2, h));
            }
        }
    }
}

/// The last step of a release: a run that fits, whose buddy is not listed
/// (or that is of the top order), joins the list of its order.
proof fn lemma_insert_run(f: FreeRuns, start: int, end: int, p: int, k: int)
    requires
        runs_wf(f, start, end),
        run_fits(f, start, end, p, k),
        k + 1 < MAX_ORDER ==> !listed(f, k, buddy_of(p, k as nat)),
    ensures
        ({
            let g = f.update(k, f[k].insert(p));
            &&& runs_wf(g, start, end)
            &&& !listed(f, k, p)
            &&& forall|x: int|
                frame_free(g, x) <==> (frame_free(f, x) || p <= x < p + run_pages(k as nat))
        }),
{
    let g = f.update(k, f[k].insert(p));
    lemma_run_pages_pos(k as nat);
    if listed(f, k, p) {
        assert(false);
    }
    assert forall|k2: int, x: int| #[trigger] listed(g, k2, x) implies listed(f, k2, x) || (k2 == k
        && x == p) by {}
    assert forall|k1: int, p1: int, k2: int, p2: int|
        #[trigger] listed(g, k1, p1) && #[trigger] listed(g, k2, p2) && !(k1 == k2 && p1 == p2)
        implies p1 + run_pages(k1 as nat) <= p2 || p2 + run_pages(k2 as nat) <= p1 by {
        if k1 == k && p1 == p {
            assert(listed(f, k2, p2));
        } else if k2 == k && p2 == p {
            assert(listed(f, k1, p1));
        } else {
            assert(listed(f, k1, p1) && listed(f, k2, p2));
        }
    }
    assert forall|k2: int, x: int| #[trigger] listed(g, k2, x) && k2 + 1 < MAX_ORDER implies !listed(
        g,
        k2,
        buddy_of(x, k2 as nat),
    ) by {
        let b = buddy_of(x, k2 as nat);
        lemma_run_pages_pos(k2 as nat);
        if k2 == k && x == p {
            assert(!listed(f, k, b));
            assert(b != p);
        } else {
            assert(listed(f, k2, x));
            assert(!listed(f, k2, b));
            if k2 == k && b == p {
                lemma_buddy(x, k as nat);
            }
        }
    }
    assert(runs_wf(g, start, end)) by {
        assert forall|k2: int, x: int| #[trigger] listed(g, k2, x) implies x % (run_pages(
            k2 as nat,
        ) as int) == 0 && start <= x && x + run_pages(k2 as nat) <= end by {
            if !(k2 == k && x == p) {
                assert(listed(f, k2, x));
            }
        }
    }
    assert forall|x: int|
        frame_free(g, x) <==> (frame_free(f, x) || p <= x < p + run_pages(k as nat)) by {
        if frame_free(g, x) {
            let (k2, h) = choose|k2: int, h: int| #[trigger]
                listed(g, k2, h) && h <= x < h + run_pages(k2 as nat);
            if !(k2 == k && h == p) {
                assert(listed(f, k2, h));
            }
        }
        if frame_free(f, x) {
            let (k2, h) = choose|k2: int, h: int| #[trigger]
                listed(f, k2, h) && h <= x < h + run_pages(k2 as nat);
            assert(listed(g, k2, h));
        }
        if p <= x < p + run_pages(k as nat) {
            assert(listed(g, k, p));
        }
    }
}

/// For an aligned head, flipping bit `k` gives the buddy.
proof fn lemma_xor_buddy(p: usize, k: usize)
    by (bit_vector)
    requires
        k < 11,
        p % (1usize << k) == 0,
    ensures
        (p / (1usize << k)) % 2 == 0 ==> p ^ (1usize << k) == p + (1usize << k),
        (p / (1usize << k)) % 2 == 1 ==> p ^ (1usize << k) == p - (1usize << k),
{
}

/// `1 << k` is `run_pages(k)` for the orders in use.
pub proof fn lemma_shift_run_pages(k: usize)
    requires
        k < MAX_ORDER,
    ensures
        (1usize << k) == run_pages(k as nat),
{
    lemma_run_pages_values();
    assert(1usize << 0 == 1 && 1usize << 1 == 2 && 1usize << 2 == 4 && 1usize << 3 == 8 && 1usize
        << 4 == 16 && 1usize << 5 == 32 && 1usize << 6 == 64 && 1usize << 7 == 128 && 1usize << 8
        == 256 && 1usize << 9 == 512 && 1usize << 10 == 1024) by (bit_vector);
}

/// Where a list holds `b`, if it does.
fn find_head(l: &Vec<usize>, b: usize) -> (r: Option<usize>)
    ensures
        match r {
            Some(i) => i < l@.len() && l@[i as int] == b,
            None => !l@.contains(b),
        },
{
    let mut n: usize = 0;
    while n < l.len()
        invariant
            n <= l@.len(),
            forall|m: int| 0 <= m < n ==> l@[m] != b,
        decreases l@.len() - n,
    {
        if l[n] == b {
            return Some(n);
        }
        n += 1;
    }
    None
}

/// A run of order `k` at `p` is aligned and ends at or before `end`.
pub open spec fn fits_at(p: int, end: int, k: int) -> bool {
    p % (run_pages(k as nat) as int) == 0 && p + run_pages(k as nat) <= end
}

/// The highest order not above `k` at which a run at `p` is aligned and ends
/// at or before `end`; order 0 when none does.
pub open spec fn fit_order(p: int, end: int, k: int) -> int
    decreases k,
{
    if k <= 0 {
        0
    } else if fits_at(p, end, k) {
        k
    } else {
        fit_order(p, end, k - 1)
    }
}

/// The free runs that cover `p..end` greedily: at each frame the largest
/// aligned run that fits, added to `f`.
pub open spec fn greedy_runs(f: FreeRuns, p: int, end: int) -> FreeRuns
    decreases end - p,
    via greedy_runs_decreases
{
    if p >= end || f.len() != MAX_ORDER {
        f
    } else {
        let k = fit_order(p, end, MAX_ORDER - 1);
        greedy_runs(f.update(k, f[k].insert(p)), p + run_pages(k as nat), end)
    }
}

#[via_fn]
proof fn greedy_runs_decreases(f: FreeRuns, p: int, end: int) {
    lemma_run_pages_pos(fit_order(p, end, MAX_ORDER - 1) as nat);
    if p < end {
        lemma_fit_order(p, end, MAX_ORDER - 1);
    }
}

/// No free run at any order.
pub open spec fn empty_runs() -> FreeRuns {
    Seq::new(MAX_ORDER as nat, |k: int| Set::<int>::empty())
}

proof fn lemma_fit_order(p: int, end: int, k: int)
    requires
        0 <= k,
        p < end,
    ensures
        0 <= fit_order(p, end, k) <= k,
        p % (run_pages(fit_order(p, end, k) as nat) as int) == 0,
        p + run_pages(fit_order(p, end, k) as nat) <= end,
        forall|h: int| fit_order(p, end, k) < h <= k ==> !#[trigger] fits_at(p, end, h),
    decreases k,
{
    reveal_with_fuel(run_pages, 2);
    if k > 0 && !fits_at(p, end, k) {
        lemma_fit_order(p, end, k - 1);
    }
}

/// What holds of the free runs while the greedy cover has reached `p`.
spec fn cover_inv(f: FreeRuns, start: int, p: int, end: int) -> bool {
    &&& f.len() == MAX_ORDER
    &&& 0 <= start <= p <= end
    &&& forall|k: int, x: int| #[trigger]
        listed(f, k, x) ==> x % (run_pages(k as nat) as int) == 0 && start <= x && x + run_pages(
            k as nat,
        ) <= p
    &&& forall|k1: int, p1: int, k2: int, p2: int|
        #[trigger] listed(f, k1, p1) && #[trigger] listed(f, k2, p2) && !(k1 == k2 && p1 == p2)
            ==> p1 + run_pages(k1 as nat) <= p2 || p2 + run_pages(k2 as nat) <= p1
    &&& forall|k: int, x: int| #[trigger]
        listed(f, k, x) && k + 1 < MAX_ORDER && x % (run_pages((k + 1) as nat) as int) == 0 ==> x
            + run_pages((k + 1) as nat) > end
    &&& forall|x: int| frame_free(f, x) <==> start <= x < p
}

proof fn lemma_cover_step(f: FreeRuns, start: int, p: int, end: int)
    requires
        cover_inv(f, start, p, end),
        p < end,
    ensures
        ({
            let k = fit_order(p, end, MAX_ORDER - 1);
            &&& 0 <= k < MAX_ORDER
            &&& !listed(f, k, p)
            &&& cover_inv(f.update(k, f[k].insert(p)), start, p + run_pages(k as nat), end)
        }),
{
    let k = fit_order(p, end, MAX_ORDER - 1);
    let g = f.update(k, f[k].insert(p));
    let p2 = p + run_pages(k as nat);
    lemma_fit_order(p, end, MAX_ORDER - 1);
    lemma_run_pages_pos(k as nat);
    if listed(f, k, p) {
        assert(false);
    }
    assert forall|k2: int, x: int| #[trigger] listed(g, k2, x) implies listed(f, k2, x) || (k2 == k
        && x == p) by {}
    assert forall|k2: int, x: int| #[trigger] listed(g, k2, x) implies x % (run_pages(
        k2 as nat,
    ) as int) == 0 && start <= x && x + run_pages(k2 as nat) <= p2 by {
        if !(k2 == k && x == p) {
            assert(listed(f, k2, x));
        }
    }
    assert forall|k1: int, p1: int, k2: int, q2: int|
        #[trigger] listed(g, k1, p1) && #[trigger] listed(g, k2, q2) && !(k1 == k2 && p1 == q2)
        implies p1 + run_pages(k1 as nat) <= q2 || q2 + run_pages(k2 as nat) <= p1 by {
        if k1 == k && p1 == p {
            assert(listed(f, k2, q2));
        } else if k2 == k && q2 == p {
            assert(listed(f, k1, p1));
        } else {
            assert(listed(f, k1, p1) && listed(f, k2, q2));
        }
    }
    assert forall|k2: int, x: int| #[trigger]
        listed(g, k2, x) && k2 + 1 < MAX_ORDER && x % (run_pages((k2 + 1) as nat) as int)
            == 0 implies x + run_pages((k2 + 1) as nat) > end by {
        if !(k2 == k && x == p) {
            assert(listed(f, k2, x));
        } else {
            assert(!fits_at(p, end, k + 1));
        }
    }
    assert forall|x: int| frame_free(g, x) <==> start <= x < p2 by {
        if frame_free(g, x) {
            let (k2, h) = choose|k2: int, h: int| #[trigger]
                listed(g, k2, h) && h <= x < h + run_pages(k2 as nat);
            if !(k2 == k && h == p) {
                assert(listed(f, k2, h));
                assert(frame_free(f, x));
            }
        }
        if start <= x < p {
            assert(frame_free(f, x));
            let (k2, h) = choose|k2: int, h: int| #[trigger]
                listed(f, k2, h) && h <= x < h + run_pages(k2 as nat);
            assert(listed(g, k2, h));
        }
        if p <= x < p2 {
            assert(listed(g, k, p));
        }
    }
}

proof fn lemma_cover_done(f: FreeRuns, start: int, end: int)
    requires
        cover_inv(f, start, end, end),
    ensures
        runs_wf(f, start, end),
{
    assert forall|k: int, x: int| #[trigger] listed(f, k, x) && k + 1 < MAX_ORDER implies !listed(
        f,
        k,
        buddy_of(x, k as nat),
    ) by {
        let b = buddy_of(x, k as nat);
        lemma_buddy(x, k as nat);
        lemma_run_pages_pos(k as nat);
        if listed(f, k, b) {
            if b == x + run_pages(k as nat) {
            } else {
            }
        }
    }
}

proof fn lemma_roundtrip_from(f: FreeRuns, start: int, end: int, i: int, j: int, p: int)
    requires
        runs_wf(f, start, end),
        0 <= i <= j < MAX_ORDER,
        listed(f, j, p),
        forall|n: int| i <= n < j ==> f[n] == Set::<int>::empty(),
    ensures
        coalesce(split_runs(f, i, j, p), p, i) == f,
    decreases j - i,
{
    let g = split_runs(f, i, j, p);
    if i < j {
        lemma_aligned_lower(p, (i + 1) as nat, j as nat);
        lemma_aligned_lower(p, i as nat, j as nat);
        lemma_buddy(p, i as nat);
        lemma_run_pages_pos(i as nat);
        let b = buddy_of(p, i as nat);
        assert(b == p + run_pages(i as nat));
        assert(listed(g, i, b));
        let g2 = g.update(i, g[i].remove(b));
        assert(g2 =~= split_runs(f, i + 1, j, p)) by {
            assert(g2[i] =~= f[i]);
        }
        lemma_roundtrip_from(f, start, end, i + 1, j, p);
    } else {
        let b = buddy_of(p, j as nat);
        if j + 1 < MAX_ORDER {
            assert(!listed(f, j, b));
            assert(!listed(g, j, b));
        }
        assert(g.update(j, g[j].insert(p)) =~= f) by {
            assert(g[j].insert(p) =~= f[j]);
        }
    }
}

/// Taking a run of order `order` and returning it at once leaves the free
/// runs as they were: `p` is the head that `alloc_area` hands out.
pub proof fn lemma_alloc_then_free(f: FreeRuns, start: int, end: int, order: int, p: int)
    requires
        runs_wf(f, start, end),
        0 <= order,
        first_fit(f, order) < MAX_ORDER,
        is_lowest(f[first_fit(f, order)], p),
    ensures
        coalesce(split_runs(f, order, first_fit(f, order), p), p, order) == f,
{
    lemma_first_fit(f, order);
    lemma_roundtrip_from(f, start, end, order, first_fit(f, order), p);
}

/// The heads that a list holds, as a set.
pub open spec fn list_set(l: Seq<usize>) -> Set<int> {
    Set::new(|p: int| 0 <= p <= usize::MAX && l.contains(p as usize))
}

proof fn lemma_list_set_push(l: Seq<usize>, x: usize)
    ensures
        list_set(l.push(x)) == list_set(l).insert(x as int),
{
    let a = list_set(l.push(x));
    let b = list_set(l).insert(x as int);
    assert forall|p: int| a.contains(p) <==> b.contains(p) by {
        if a.contains(p) {
            let i = choose|i: int| 0 <= i < l.push(x).len() && l.push(x)[i] == p as usize;
            if i < l.len() {
                assert(l[i] == p as usize);
            }
        }
        if b.contains(p) {
            if p == x as int {
                assert(l.push(x)[l.len() as int] == x);
            } else {
                let i = choose|i: int| 0 <= i < l.len() && l[i] == p as usize;
                assert(l.push(x)[i] == p as usize);
            }
        }
    }
    assert(a =~= b);
}

proof fn lemma_list_set_remove(l: Seq<usize>, i: int)
    requires
        0 <= i < l.len(),
        l.no_duplicates(),
    ensures
        list_set(l.remove(i)) == list_set(l).remove(l[i] as int),
        l.remove(i).no_duplicates(),
{
    let r = l.remove(i);
    let a = list_set(r);
    let b = list_set(l).remove(l[i] as int);
    assert forall|p: int| a.contains(p) <==> b.contains(p) by {
        if a.contains(p) {
            let n = choose|n: int| 0 <= n < r.len() && r[n] == p as usize;
            if n < i {
                assert(l[n] == p as usize);
            } else {
                assert(l[n + 1] == p as usize);
            }
        }
        if b.contains(p) {
            let n = choose|n: int| 0 <= n < l.len() && l[n] == p as usize;
            if n < i {
                assert(r[n] == p as usize);
            } else {
                assert(r[n - 1] == p as usize);
            }
        }
    }
    assert(a =~= b);
    assert forall|m: int, n: int| 0 <= m < r.len() && 0 <= n < r.len() && m != n implies r[m]
        != r[n] by {
        let m2 = if m < i { m } else { m + 1 };
        let n2 = if n < i { n } else { n + 1 };
        assert(l[m2] != l[n2]);
    }
}

proof fn lemma_list_set_empty(l: Seq<usize>)
    ensures
        l.len() == 0 <==> list_set(l) == Set::<int>::empty(),
{
    if l.len() == 0 {
        assert(list_set(l) =~= Set::<int>::empty());
    } else {
        assert(l.contains(l[0]));
        assert(list_set(l).contains(l[0] as int));
    }
}

/// Index of the lowest head of a list that is not empty.
fn lowest_index(l: &Vec<usize>) -> (idx: usize)
    requires
        l@.len() > 0,
    ensures
        idx < l@.len(),
        is_lowest(list_set(l@), l@[idx as int] as int),
{
    let mut idx: usize = 0;
    let mut n: usize = 1;
    while n < l.len()
        invariant
            1 <= n <= l@.len(),
            idx < n,
            forall|m: int| 0 <= m < n ==> l@[idx as int] <= l@[m],
        decreases l@.len() - n,
    {
        if l[n] < l[idx] {
            idx = n;
        }
        n += 1;
    }
    proof {
        assert(l@.contains(l@[idx as int]));
    }
    idx
}

/// The frame allocator: the managed range of frame numbers and, for each
/// order, the heads of the free runs of that order.
pub struct BuddyAllocator {
    start: usize,
    end: usize,
    free_lists: Vec<Vec<usize>>,
}

impl View for BuddyAllocator {
    type V = FreeRuns;

    closed spec fn view(&self) -> FreeRuns {
        Seq::new(self.free_lists@.len(), |k: int| list_set(self.free_lists@[k]@))
    }
}

impl Default for BuddyAllocator {
    /// An allocator that manages no frame.
    fn default() -> (r: Self)
        ensures
            r.wf(),
            r.spec_start() == 0,
            r.spec_end() == 0,
            forall|k: int| 0 <= k < MAX_ORDER ==> r@[k] == Set::<int>::empty(),
    {
        BuddyAllocator::new()
    }
}

impl BuddyAllocator {
    /// First frame number of the managed range.
    pub closed spec fn spec_start(&self) -> int {
        self.start as int
    }

    /// One past the last frame number of the managed range.
    pub closed spec fn spec_end(&self) -> int {
        self.end as int
    }

    /// The lists hold no head twice.
    pub closed spec fn lists_wf(&self) -> bool {
        &&& self.free_lists@.len() == MAX_ORDER
        &&& forall|k: int|
            0 <= k < self.free_lists@.len() ==> (#[trigger] self.free_lists@[k])@.no_duplicates()
    }

    /// The allocator's invariant.
    pub open spec fn wf(&self) -> bool {
        &&& self.lists_wf()
        &&& runs_wf(self@, self.spec_start(), self.spec_end())
    }

    /// The managed range is a range of frame numbers.
    pub proof fn lemma_range_bounded(&self)
        ensures
            0 <= self.spec_start() <= usize::MAX,
            0 <= self.spec_end() <= usize::MAX,
    {
    }

    /// First frame number of the managed range.
    pub fn start_pfn(&self) -> (r: PFN)
        ensures
            r.0 == self.spec_start(),
    {
        PFN(self.start)
    }

    /// One past the last frame number of the managed range.
    pub fn end_pfn(&self) -> (r: PFN)
        ensures
            r.0 == self.spec_end(),
    {
        PFN(self.end)
    }

    /// An allocator that manages no frame.
    pub fn new() -> (r: Self)
        ensures
            r.wf(),
            r.spec_start() == 0,
            r.spec_end() == 0,
            forall|k: int| 0 <= k < MAX_ORDER ==> r@[k] == Set::<int>::empty(),
    {
        let mut lists: Vec<Vec<usize>> = Vec::new();
        let mut k: usize = 0;
        while k < MAX_ORDER
            invariant
                k <= MAX_ORDER,
                lists@.len() == k,
                forall|i: int| 0 <= i < k ==> (#[trigger] lists@[i])@.len() == 0,
            decreases MAX_ORDER - k,
        {
            lists.push(Vec::new());
            k += 1;
        }
        let r = BuddyAllocator { start: 0, end: 0, free_lists: lists };
        proof {
            assert forall|k: int| 0 <= k < MAX_ORDER implies r@[k] == Set::<int>::empty() by {
                lemma_list_set_empty(r.free_lists@[k]@);
            }
        }
        r
    }

    /// Starts managing the frames of the page-aligned range from `start_addr`
    /// to `end_addr`: every frame becomes free, in the largest aligned runs
    /// that cover the range from its low end.  What was listed before is
    /// forgotten.
    pub fn init(&mut self, start_addr: Addr, end_addr: Addr)
        requires
            start_addr.0 % 4096 == 0,
            end_addr.0 % 4096 == 0,
            start_addr.0 <= end_addr.0,
        ensures
            final(self).wf(),
            final(self).spec_start() == start_addr.0 / 4096,
            final(self).spec_end() == end_addr.0 / 4096,
            final(self)@ == greedy_runs(
                empty_runs(),
                start_addr.0 as int / 4096,
                end_addr.0 as int / 4096,
            ),
            forall|x: int|
                frame_free(final(self)@, x) <==> start_addr.0 / 4096 <= x < end_addr.0 / 4096,
    {
        let fresh = BuddyAllocator::new();
        *self = fresh;
        let s: usize = start_addr.0 / PAGE_SIZE;
        let e: usize = end_addr.0 / PAGE_SIZE;
        self.start = s;
        self.end = e;
        let mut p: usize = s;
        proof {
            assert(self@ =~= empty_runs());
            assert forall|x: int| !frame_free(self@, x) by {
                if frame_free(self@, x) {
                    let (k2, h) = choose|k2: int, h: int| #[trigger]
                        listed(self@, k2, h) && h <= x < h + run_pages(k2 as nat);
                }
            }
        }
        while p < e
            invariant
                self.lists_wf(),
                self.start == s,
                self.end == e,
                e <= usize::MAX / 4096,
                cover_inv(self@, s as int, p as int, e as int),
                greedy_runs(empty_runs(), s as int, e as int) == greedy_runs(
                    self@,
                    p as int,
                    e as int,
                ),
            decreases e - p,
        {
            let mut k: usize = MAX_ORDER - 1;
            proof {
                lemma_shift_run_pages(k);
                lemma_run_pages_values();
            }
            while k > 0 && !(p % (1usize << k) == 0 && p + (1usize << k) <= e)
                invariant
                    k < MAX_ORDER,
                    p < e,
                    e <= usize::MAX / 4096,
                    (1usize << k) == run_pages(k as nat),
                    1 <= run_pages(k as nat) <= 1024,
                    fit_order(p as int, e as int, MAX_ORDER - 1) == fit_order(
                        p as int,
                        e as int,
                        k as int,
                    ),
                decreases k,
            {
                k -= 1;
                proof {
                    lemma_shift_run_pages(k);
                    lemma_run_pages_values();
                    lemma_run_pages_mono(k as nat, 10);
                }
            }
            let ghost f = self@;
            let ghost before = self.free_lists@;
            proof {
                reveal_with_fuel(run_pages, 2);
                assert(k == fit_order(p as int, e as int, k as int));
                lemma_cover_step(f, s as int, p as int, e as int);
                lemma_list_set_push(before[k as int]@, p);
            }
            self.free_lists[k].push(p);
            proof {
                assert(self@ =~= f.update(k as int, f[k as int].insert(p as int)));
                assert forall|n: int| 0 <= n < MAX_ORDER implies (#[trigger] self.free_lists@[n])@.no_duplicates() by {
                    if n == k {
                        assert(!before[k as int]@.contains(p));
                        let l = before[k as int]@;
                        assert forall|a: int, c: int|
                            0 <= a < l.push(p).len() && 0 <= c < l.push(p).len() && a
                                != c implies l.push(p)[a] != l.push(p)[c] by {
                            if a < l.len() && c < l.len() {
                            } else if a < l.len() {
                                assert(l.contains(l[a]));
                            } else {
                                assert(l.contains(l[c]));
                            }
                        }
                    }
                }
            }
            p = p + (1usize << k);
        }
        proof {
            lemma_cover_done(self@, s as int, e as int);
        }
    }

    /// Takes a free run of `1 << order` frames and returns its head.
    ///
    /// The run comes from the lowest order at or above `order` that has a
    /// free run, and from the lowest-addressed run of that order; the upper
    /// half of each split goes back to the list of its order.  Fails exactly
    /// when `order` is not below `MAX_ORDER` or no such run exists, and then
    /// changes nothing.
    #[verifier::rlimit(50)]
    #[verifier::spinoff_prover]
    pub fn alloc_area(&mut self, order: usize) -> (r: Result<PFN, BuddyError>)
        requires
            old(self).wf(),
        ensures
            final(self).wf(),
            final(self).spec_start() == old(self).spec_start(),
            final(self).spec_end() == old(self).spec_end(),
            match r {
                Ok(pfn) => {
                    let j = first_fit(old(self)@, order as int);
                    &&& order < MAX_ORDER
                    &&& j < MAX_ORDER
                    &&& is_lowest(old(self)@[j], pfn.0 as int)
                    &&& final(self)@ == split_runs(old(self)@, order as int, j, pfn.0 as int)
                    &&& (pfn.0 as int) % (run_pages(order as nat) as int) == 0
                    &&& old(self).spec_start() <= pfn.0
                    &&& pfn.0 + run_pages(order as nat) <= old(self).spec_end()
                    &&& forall|x: int|
                        frame_free(final(self)@, x) <==> frame_free(old(self)@, x) && !(pfn.0 <= x
                            < pfn.0 + run_pages(order as nat))
                    &&& forall|x: int|
                        pfn.0 <= x < pfn.0 + run_pages(order as nat) ==> frame_free(old(self)@, x)
                },
                Err(e) => {
                    &&& first_fit(old(self)@, order as int) == MAX_ORDER
                    &&& *final(self) == *old(self)
                },
            },
    {
        if order >= MAX_ORDER {
            return Err(BuddyError::OutOfMemory);
        }
        let mut j: usize = order;
        while j < MAX_ORDER && self.free_lists[j].len() == 0
            invariant
                order <= j <= MAX_ORDER,
                *self == *old(self),
                self.free_lists@.len() == MAX_ORDER,
                forall|i: int| order <= i < j ==> (#[trigger] self.free_lists@[i])@.len() == 0,
            decreases MAX_ORDER - j,
        {
            j += 1;
        }
        proof {
            assert forall|i: int| order <= i < j implies self@[i] == Set::<int>::empty() by {
                lemma_list_set_empty(self.free_lists@[i]@);
            }
            lemma_first_fit_skip(self@, order as int, j as int);
            if j < MAX_ORDER {
                lemma_list_set_empty(self.free_lists@[j as int]@);
            }
        }
        if j == MAX_ORDER {
            return Err(BuddyError::OutOfMemory);
        }
        let idx = lowest_index(&self.free_lists[j]);
        let ghost before = self.free_lists@;
        let ghost f = self@;
        proof {
            assert(f[j as int] == list_set(before[j as int]@));
            assert(is_lowest(f[j as int], before[j as int]@[idx as int] as int));
            assert(first_fit(f, order as int) == j);
        }
        let p = self.free_lists[j].remove(idx);
        proof {
            assert(before[j as int]@.contains(p));
            assert(listed(f, j as int, p as int));
            lemma_list_set_remove(before[j as int]@, idx as int);
            lemma_split(f, self.start as int, self.end as int, order as int, j as int, p as int);
            lemma_run_pages_values();
        }
        let mut i: usize = j;
        while i > order
            invariant
                order <= i <= j < MAX_ORDER,
                self.free_lists@.len() == MAX_ORDER,
                before.len() == MAX_ORDER,
                self.start == old(self).start,
                self.end == old(self).end,
                p + run_pages(j as nat) <= usize::MAX,
                forall|k: int|
                    0 <= k < MAX_ORDER ==> (#[trigger] self.free_lists@[k])@ == (if k == j {
                        before[k]@.remove(idx as int)
                    } else if i <= k < j {
                        before[k]@.push((p + run_pages(k as nat)) as usize)
                    } else {
                        before[k]@
                    }),
            decreases i,
        {
            i -= 1;
            proof {
                lemma_run_pages_values();
                lemma_run_pages_mono(i as nat, j as nat);
                assert(1usize << 0 == 1 && 1usize << 1 == 2 && 1usize << 2 == 4 && 1usize << 3 == 8
                    && 1usize << 4 == 16 && 1usize << 5 == 32 && 1usize << 6 == 64 && 1usize << 7
                    == 128 && 1usize << 8 == 256 && 1usize << 9 == 512 && 1usize << 10 == 1024)
                    by (bit_vector);
            }
            let half: usize = 1usize << i;
            self.free_lists[i].push(p + half);
        }
        proof {
            let g = split_runs(f, order as int, j as int, p as int);
            lemma_split(f, self.start as int, self.end as int, order as int, j as int, p as int);
            assert forall|k: int| 0 <= k < MAX_ORDER implies self@[k] == g[k] by {
                if k == j {
                } else if order <= k < j {
                    lemma_run_pages_mono(k as nat, j as nat);
                    lemma_list_set_push(before[k]@, (p + run_pages(k as nat)) as usize);
                } else {
                }
            }
            assert(self@ =~= g);
            assert forall|k: int| 0 <= k < MAX_ORDER implies (#[trigger] self.free_lists@[k])@.no_duplicates() by {
                if order <= k < j && k != j {
                    assert(f[k] == Set::<int>::empty());
                    lemma_list_set_empty(before[k]@);
                }
            }
            assert(self.lists_wf());
            assert(runs_wf(self@, self.spec_start(), self.spec_end()));
            assert(f == old(self)@);
            assert(is_lowest(old(self)@[j as int], p as int));
            assert(self@ == split_runs(old(self)@, order as int, j as int, p as int));
            assert((p as int) % (run_pages(order as nat) as int) == 0);
            assert(old(self).spec_start() <= p);
            assert(p + run_pages(order as nat) <= old(self).spec_end());
            assert(forall|x: int|
                frame_free(g, x) <==> frame_free(f, x) && !(p <= x < p + run_pages(order as nat)));
            assert(forall|x: int| p <= x < p + run_pages(order as nat) ==> frame_free(f, x));
        }
        Ok(PFN(p))
    }

    /// Returns the run of `1 << order` frames at `pfn` to the free runs.
    ///
    /// While the buddy of the run is free at the same order, and the order is
    /// below the top one, the two merge and the merged run is returned at the
    /// next order.  The caller gives back a run that it holds: aligned, inside
    /// the managed range, with no frame free.
    pub fn free_area(&mut self, pfn: PFN, order: usize)
        requires
            old(self).wf(),
            order < MAX_ORDER,
            (pfn.0 as int) % (run_pages(order as nat) as int) == 0,
            old(self).spec_start() <= pfn.0,
            pfn.0 + run_pages(order as nat) <= old(self).spec_end(),
            run_unlisted(old(self)@, pfn.0 as int, order as int),
        ensures
            final(self).wf(),
            final(self).spec_start() == old(self).spec_start(),
            final(self).spec_end() == old(self).spec_end(),
            final(self)@ == coalesce(old(self)@, pfn.0 as int, order as int),
            forall|x: int|
                frame_free(final(self)@, x) <==> (frame_free(old(self)@, x) || pfn.0 <= x < pfn.0
                    + run_pages(order as nat)),
    {
        let mut p: usize = pfn.0;
        let mut k: usize = order;
        proof {
            lemma_unlisted_fits(
                self@,
                self.start as int,
                self.end as int,
                pfn.0 as int,
                order as int,
            );
        }
        while k + 1 < MAX_ORDER
            invariant
                order <= k < MAX_ORDER,
                self.lists_wf(),
                self.start == old(self).start,
                self.end == old(self).end,
                runs_wf(self@, self.start as int, self.end as int),
                run_fits(self@, self.start as int, self.end as int, p as int, k as int),
                coalesce(old(self)@, pfn.0 as int, order as int) == coalesce(
                    self@,
                    p as int,
                    k as int,
                ),
                forall|x: int|
                    (frame_free(self@, x) || p <= x < p + run_pages(k as nat)) <==> (frame_free(
                        old(self)@,
                        x,
                    ) || pfn.0 <= x < pfn.0 + run_pages(order as nat)),
            ensures
                order <= k < MAX_ORDER,
                self.lists_wf(),
                self.start == old(self).start,
                self.end == old(self).end,
                runs_wf(self@, self.start as int, self.end as int),
                run_fits(self@, self.start as int, self.end as int, p as int, k as int),
                coalesce(old(self)@, pfn.0 as int, order as int) == coalesce(
                    self@,
                    p as int,
                    k as int,
                ),
                forall|x: int|
                    (frame_free(self@, x) || p <= x < p + run_pages(k as nat)) <==> (frame_free(
                        old(self)@,
                        x,
                    ) || pfn.0 <= x < pfn.0 + run_pages(order as nat)),
                k + 1 < MAX_ORDER ==> !listed(self@, k as int, buddy_of(p as int, k as nat)),
            decreases MAX_ORDER - k,
        {
            proof {
                lemma_shift_run_pages(k);
                lemma_xor_buddy(p, k);
                lemma_buddy(p as int, k as nat);
            }
            let b: usize = p ^ (1usize << k);
            let found = find_head(&self.free_lists[k], b);
            proof {
                if buddy_of(p as int, k as nat) == p - run_pages(k as nat) {
                    assert(b == buddy_of(p as int, k as nat)) by {
                        if (p as int / (run_pages(k as nat) as int)) % 2 == 0 {
                        }
                    }
                }
            }
            match found {
                None => {
                    proof {
                        if listed(self@, k as int, buddy_of(p as int, k as nat)) {
                            assert(b == buddy_of(p as int, k as nat));
                            assert(self.free_lists@[k as int]@.contains(b));
                        }
                    }
                    break ;
                },
                Some(i) => {
                    let ghost f = self@;
                    let ghost before = self.free_lists@;
                    proof {
                        assert(before[k as int]@.contains(b));
                        assert(listed(f, k as int, b as int));
                        assert(b == buddy_of(p as int, k as nat));
                        lemma_merge_step(f, self.start as int, self.end as int, p as int, k as int);
                        lemma_list_set_remove(before[k as int]@, i as int);
                    }
                    self.free_lists[k].remove(i);
                    proof {
                        assert(self@ =~= f.update(k as int, f[k as int].remove(b as int)));
                    }
                    if b < p {
                        p = b;
                    }
                    k += 1;
                },
            }
        }
        let ghost f = self@;
        let ghost before = self.free_lists@;
        proof {
            lemma_insert_run(f, self.start as int, self.end as int, p as int, k as int);
            lemma_list_set_push(before[k as int]@, p);
        }
        self.free_lists[k].push(p);
        proof {
            assert(self@ =~= f.update(k as int, f[k as int].insert(p as int)));
            assert forall|n: int| 0 <= n < MAX_ORDER implies (#[trigger] self.free_lists@[n])@.no_duplicates() by {
                if n == k {
                    assert(!before[k as int]@.contains(p));
                    let l = before[k as int]@;
                    assert forall|a: int, c: int|
                        0 <= a < l.push(p).len() && 0 <= c < l.push(p).len() && a != c implies l.push(
                        p,
                    )[a] != l.push(p)[c] by {
                        if a < l.len() && c < l.len() {
                        } else if a < l.len() {
                            assert(l.contains(l[a]));
                        } else {
                            assert(l.contains(l[c]));
                        }
                    }
                }
            }
        }
    }

    /// The heads of order `order`, in the order the list holds them.
    pub fn free_heads(&self, order: usize) -> (r: Vec<usize>)
        requires
            self.wf(),
            order < MAX_ORDER,
        ensures
            list_set(r@) == self@[order as int],
            r@.no_duplicates(),
    {
        self.free_lists[order].clone()
    }
}

} // verus!
