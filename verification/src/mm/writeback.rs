//! What the write-backs of an area do to its file.
//!
//! A file is taken as the bytes that it holds, by offset.  The law of this
//! module says that releasing a file area carries to the file what the
//! frames of its resident pages hold.
use vstd::prelude::*;
use crate::mm::page::Page;
use crate::mm::pagetable::{
    lemma_unmap_one_wf, page_vpn, pt_wf, unmap_one_state, unmap_pages, unmap_range_err, PtMem,
    PtView,
};
use crate::mm::vma::{
    is_min_key, lemma_release_map_step, release_map, release_step, unmap_range_state, wb_entry,
    WbInfo, WbView, VMA, VM_ANON, VM_WRITE,
};

verus! {

/// The file after the bytes of `w` were written at its offset.
pub open spec fn apply_wb(file: Map<int, u8>, w: WbView) -> Map<int, u8> {
    Map::new(
        |i: int| file.dom().contains(i) || w.off <= i < w.off + w.data.len(),
        |i: int|
            if w.off <= i < w.off + w.data.len() {
                w.data[i - w.off]
            } else {
                file[i]
            },
    )
}

/// The file after the write-backs `wbs` were written, in their order.
pub open spec fn apply_wbs(file: Map<int, u8>, wbs: Seq<WbView>) -> Map<int, u8>
    decreases wbs.len(),
{
    if wbs.len() == 0 {
        file
    } else {
        apply_wb(apply_wbs(file, wbs.drop_last()), wbs.last())
    }
}

/// Frame `x` holds a table of the page table.
pub open spec fn is_table(pt: PtView, x: int) -> bool {
    ||| exists|a: int| #[trigger] pt.mids.dom().contains(a) && pt.mids[a] == x
    ||| exists|t: int| #[trigger] pt.lows.dom().contains(t) && pt.lows[t] == x
}

/// The blocks of `m` are the area's own: each is a single frame that holds
/// a page of bytes and no table of the page table, and no two blocks share
/// a frame.
pub open spec fn owned(m: Map<usize, Page>, s: PtMem) -> bool {
    &&& forall|va: usize| #[trigger]
        m.contains_key(va) ==> {
            &&& m[va].spec_order() == 0
            &&& s.mem.bytes.dom().contains(m[va].spec_pfn())
            &&& s.mem.bytes[m[va].spec_pfn()].len() == 4096
            &&& !is_table(s.pt, m[va].spec_pfn())
        }
    &&& forall|va: usize, vb: usize|
        #[trigger] m.contains_key(va) && #[trigger] m.contains_key(vb) && va != vb
            ==> m[va].spec_pfn() != m[vb].spec_pfn()
    &&& pt_wf(s.pt)
}

/// The keys of `m` are addresses of pages for which `info` names an offset
/// in the file.
pub open spec fn placed(m: Map<usize, Page>, info: WbInfo) -> bool {
    forall|va: usize| #[trigger]
        m.contains_key(va) ==> va % 4096 == 0 && info.start <= va && info.file_off + (va
            - info.start) <= usize::MAX
}

/// Releasing a block of one frame leaves the bytes of every frame but that
/// one and the tables of the page table as they are, and adds no table.
proof fn lemma_release_step_keeps(s: PtMem, va: usize, pg: Page, x: int)
    requires
        pt_wf(s.pt),
        pg.spec_order() == 0,
        s.mem.bytes.dom().contains(x),
        x != pg.spec_pfn(),
        !is_table(s.pt, x),
    ensures
        release_step(s, va, pg).mem.bytes.dom().contains(x),
        release_step(s, va, pg).mem.bytes[x] == s.mem.bytes[x],
        !is_table(release_step(s, va, pg).pt, x),
        pt_wf(release_step(s, va, pg).pt),
{
    reveal_with_fuel(crate::mm::buddy::run_pages, 2);
    reveal_with_fuel(unmap_pages, 2);
    let u = unmap_range_state(s, va as int, 0);
    let vpn = page_vpn(va as int / 4096, 0);
    let t = vpn / 512;
    let a = vpn / 0x40000;
    assert(u == s || u == unmap_one_state(s, vpn));
    if unmap_range_err(s.pt, va as int, 0) is None {
        assert(s.pt.leaves.dom().contains(page_vpn(va as int / 4096, 0)));
        lemma_unmap_one_wf(s.pt, vpn);
        assert(u == unmap_one_state(s, vpn));
        if s.pt.lows.dom().contains(t) {
            assert(s.pt.lows[t] != x);
        }
        if s.pt.mids.dom().contains(a) {
            assert(s.pt.mids[a] != x);
        }
        assert(u.mem.bytes.dom().contains(x) && u.mem.bytes[x] == s.mem.bytes[x]);
        if is_table(u.pt, x) {
            if exists|a2: int| #[trigger] u.pt.mids.dom().contains(a2) && u.pt.mids[a2] == x {
                let a2 = choose|a2: int| #[trigger] u.pt.mids.dom().contains(a2) && u.pt.mids[a2] == x;
                assert(s.pt.mids.dom().contains(a2) && s.pt.mids[a2] == x);
            } else {
                let t2 = choose|t2: int| #[trigger] u.pt.lows.dom().contains(t2) && u.pt.lows[t2] == x;
                assert(s.pt.lows.dom().contains(t2) && s.pt.lows[t2] == x);
            }
        }
    }
}

/// Releasing a block of one frame keeps the page table well formed.
proof fn lemma_release_step_wf(s: PtMem, va: usize, pg: Page)
    requires
        pt_wf(s.pt),
        pg.spec_order() == 0,
    ensures
        pt_wf(release_step(s, va, pg).pt),
{
    reveal_with_fuel(crate::mm::buddy::run_pages, 2);
    reveal_with_fuel(unmap_pages, 2);
    let vpn = page_vpn(va as int / 4096, 0);
    if unmap_range_err(s.pt, va as int, 0) is None {
        assert(s.pt.leaves.dom().contains(page_vpn(va as int / 4096, 0)));
        lemma_unmap_one_wf(s.pt, vpn);
    }
}

/// What the write-backs of a release do to one byte of the file: the byte
/// at offset `p` is, where a block of `m` stands for it, the byte that the
/// frame of that block held before the release; else it is as the
/// write-backs `wbs` before the release left it, where they left one.
#[verifier::rlimit(60)]
#[verifier::spinoff_prover]
pub proof fn lemma_release_writes(
    info: WbInfo,
    s: PtMem,
    m: Map<usize, Page>,
    wbs: Seq<WbView>,
    file: Map<int, u8>,
    p: int,
)
    requires
        m.dom().finite(),
        info.file is Some,
        owned(m, s),
        placed(m, info),
    ensures
        forall|va: usize|
            #[trigger] m.contains_key(va) && info.file_off + (va - info.start) <= p < info.file_off
                + (va - info.start) + 4096 ==> apply_wbs(
                file,
                release_map(info, s, m, wbs).wbs,
            ).dom().contains(p) && apply_wbs(file, release_map(info, s, m, wbs).wbs)[p]
                == s.mem.bytes[m[va].spec_pfn()][p - (info.file_off + (va - info.start))],
        (forall|va: usize| #[trigger]
            m.contains_key(va) ==> !(info.file_off + (va - info.start) <= p < info.file_off + (va
                - info.start) + 4096)) ==> apply_wbs(
            file,
            release_map(info, s, m, wbs).wbs,
        ).dom().contains(p) == apply_wbs(file, wbs).dom().contains(p) && (apply_wbs(
            file,
            wbs,
        ).dom().contains(p) ==> apply_wbs(file, release_map(info, s, m, wbs).wbs)[p]
            == apply_wbs(file, wbs)[p]),
    decreases m.dom().len(),
{
    if m.dom().len() == 0 {
        assert forall|va: usize| !m.contains_key(va) by {
            if m.contains_key(va) {
                m.dom().lemma_len0_is_empty();
            }
        }
        assert(release_map(info, s, m, wbs) == (crate::mm::vma::Released { state: s, wbs }));
    } else {
        lemma_min_exists(m);
        let k = choose|k: usize| is_min_key(m, k);
        lemma_release_map_step(info, s, m, wbs, k);
        let pg = m[k];
        let s2 = release_step(s, k, pg);
        let m2 = m.remove(k);
        let off = info.file_off + (k - info.start);
        let w = WbView { inode: info.file->0, off, data: s.mem.bytes[pg.spec_pfn()] };
        assert(wb_entry(info, s.mem, k, pg) == Some(w));
        let wbs2 = wbs.push(w);
        assert forall|va: usize| #[trigger] m2.contains_key(va) implies {
            &&& m2[va].spec_order() == 0
            &&& s2.mem.bytes.dom().contains(m2[va].spec_pfn())
            &&& s2.mem.bytes[m2[va].spec_pfn()].len() == 4096
            &&& !is_table(s2.pt, m2[va].spec_pfn())
            &&& s2.mem.bytes[m2[va].spec_pfn()] == s.mem.bytes[m[va].spec_pfn()]
        } by {
            assert(m.contains_key(va) && m.contains_key(k));
            lemma_release_step_keeps(s, k, pg, m[va].spec_pfn());
        }
        lemma_release_step_wf(s, k, pg);
        assert(w.data.len() == 4096);
        assert(owned(m2, s2)) by {
            assert forall|va: usize, vb: usize|
                #[trigger] m2.contains_key(va) && #[trigger] m2.contains_key(vb) && va
                    != vb implies m2[va].spec_pfn() != m2[vb].spec_pfn() by {
                assert(m.contains_key(va) && m.contains_key(vb));
            }
        }
        assert(placed(m2, info)) by {
            assert forall|va: usize| #[trigger] m2.contains_key(va) implies va % 4096 == 0
                && info.start <= va && info.file_off + (va - info.start) <= usize::MAX by {
                assert(m.contains_key(va));
            }
        }
        lemma_release_writes(info, s2, m2, wbs2, file, p);
        let out = apply_wbs(file, release_map(info, s, m, wbs).wbs);
        assert(wbs2.drop_last() =~= wbs);
        assert(apply_wbs(file, wbs2) == apply_wb(apply_wbs(file, wbs), w));
        assert forall|va: usize|
            #[trigger] m.contains_key(va) && info.file_off + (va - info.start) <= p < info.file_off
                + (va - info.start) + 4096 implies out.dom().contains(p) && out[p]
            == s.mem.bytes[m[va].spec_pfn()][p - (info.file_off + (va - info.start))] by {
            if va != k {
                assert(m2.contains_key(va));
            } else {
                assert forall|vb: usize| #[trigger] m2.contains_key(vb) implies !(info.file_off + (
                vb - info.start) <= p < info.file_off + (vb - info.start) + 4096) by {
                    assert(m.contains_key(vb) && m.contains_key(k));
                }
            }
        }
        if forall|va: usize| #[trigger]
            m.contains_key(va) ==> !(info.file_off + (va - info.start) <= p < info.file_off + (va
                - info.start) + 4096) {
            assert(m.contains_key(k));
            assert forall|vb: usize| #[trigger] m2.contains_key(vb) implies !(info.file_off + (vb
                - info.start) <= p < info.file_off + (vb - info.start) + 4096) by {
                assert(m.contains_key(vb));
            }
            let base = apply_wbs(file, wbs);
            assert(out.dom().contains(p) == apply_wbs(file, wbs2).dom().contains(p));
            assert(!(w.off <= p < w.off + w.data.len()));
            assert(apply_wb(base, w).dom().contains(p) == base.dom().contains(p));
            if base.dom().contains(p) {
                assert(out[p] == apply_wbs(file, wbs2)[p]);
                assert(apply_wb(base, w)[p] == base[p]);
            }
        }
    }
}

/// A finite map that holds a key has a lowest key.
proof fn lemma_min_exists(m: Map<usize, Page>)
    requires
        m.dom().finite(),
        m.dom().len() > 0,
    ensures
        exists|k: usize| is_min_key(m, k),
{
    let k0 = m.dom().choose();
    lemma_min_below(m, k0);
}

proof fn lemma_min_below(m: Map<usize, Page>, k: usize)
    requires
        m.contains_key(k),
    ensures
        exists|k2: usize| is_min_key(m, k2),
    decreases k,
{
    if forall|k2: usize| m.contains_key(k2) ==> k <= k2 {
        assert(is_min_key(m, k));
    } else {
        let k2 = choose|k2: usize| m.contains_key(k2) && k2 < k;
        lemma_min_below(m, k2);
    }
}

/// What is written through the mapping of a file area reaches the file.
///
/// `area` is a file area that can be written, every page of which is
/// resident in a frame of its own, and `s` is the page table and the memory
/// at the time of the release.  After the write-backs of `release_all` were
/// written to the file, the byte of the file that the address `x` of the
/// area stands for is the byte that the frame of the page of `x` held.
pub proof fn lemma_file_round_trip(area: VMA, s: PtMem, file: Map<int, u8>, x: usize)
    requires
        area.wf(),
        !area.flags().has(VM_ANON),
        area.flags().has(VM_WRITE),
        area.backing_off() + (area.spec_end() - area.spec_start()) <= usize::MAX,
        owned(area.resident(), s),
        area.spec_start() <= x < area.spec_end(),
        area.resident().contains_key((x - x % 4096) as usize),
    ensures
        ({
            let va = (x - x % 4096) as usize;
            let r = release_map(area.wb_info(), s, area.resident(), Seq::empty());
            let after = apply_wbs(file, r.wbs);
            let off = area.backing_off() + (x - area.spec_start());
            &&& after.dom().contains(off)
            &&& after[off] == s.mem.bytes[area.resident()[va].spec_pfn()][x - va]
        }),
{
    let info = area.wb_info();
    let m = area.resident();
    let va = (x - x % 4096) as usize;
    area.lemma_resident_finite();
    assert(placed(m, info)) by {
        assert forall|k: usize| #[trigger] m.contains_key(k) implies k % 4096 == 0 && info.start
            <= k && info.file_off + (k - info.start) <= usize::MAX by {
            assert(area.block_fits(k, m[k]));
            reveal_with_fuel(crate::mm::buddy::run_pages, 2);
        }
    }
    lemma_release_writes(
        info,
        s,
        m,
        Seq::empty(),
        file,
        area.backing_off() + (x - area.spec_start()),
    );
    assert(m.contains_key(va));
}

} // verus!
