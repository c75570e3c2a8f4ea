use kernel::mm::addr::{Addr, PFN};
use kernel::mm::pagetable::{PageTable, Pte, PTE_R, PTE_U, PTE_V, PTE_W, PTE_X};
use kernel::mm::{alloc_one_page, alloc_pages, buddy_init, page_init, MmError, PhysMemory};

fn memory(first: usize, pages: usize) -> PhysMemory {
    let mut mem = PhysMemory::new();
    buddy_init(&mut mem, Addr(first * 4096), Addr((first + pages) * 4096));
    page_init(&mut mem, Addr(first * 4096), Addr((first + pages) * 4096));
    mem
}

fn heads(mem: &PhysMemory) -> Vec<Vec<usize>> {
    (0..11)
        .map(|k| {
            let mut h = mem.free_heads(k);
            h.sort();
            h
        })
        .collect()
}

fn free_frames(mem: &PhysMemory) -> usize {
    (0..11).map(|k| mem.free_heads(k).len() << k).sum()
}

#[test]
fn a_new_table_maps_nothing() {
    let mut mem = memory(256, 64);
    let pt = PageTable::new(&mut mem).unwrap();
    assert_eq!(pt.root_pfn(), PFN(256));
    assert_eq!(free_frames(&mem), 63);
    assert_eq!(pt.walk(Addr(0)), None);
    assert_eq!(pt.walk(Addr(0x4000_0000)), None);
    assert_eq!(pt.mid_frame(0), None);
    assert_eq!(pt.mid_frame(511), None);
    assert_eq!(pt.mid_frame(512), None);
    assert_eq!(pt.satp(), 0x8000_0000_0000_0100);
}

#[test]
fn a_new_table_needs_a_frame() {
    let mut mem = memory(256, 1);
    let _pt = PageTable::new(&mut mem).unwrap();
    assert!(PageTable::new(&mut mem).is_none());
}

#[test]
fn map_one_installs_a_valid_leaf() {
    let mut mem = memory(256, 64);
    let mut pt = PageTable::new(&mut mem).unwrap();
    let frame = alloc_one_page(&mut mem).unwrap();
    let pa = frame.get_paddr().unwrap();
    assert_eq!(pt.map_one(&mut mem, Addr(0x2000), pa, PTE_R | PTE_W | PTE_U), Ok(()));
    assert_eq!(pt.walk(Addr(0x2000)), Some((frame.get_pfn(), 23)));
    assert_eq!(pt.walk(Addr(0x2fff)), Some((frame.get_pfn(), PTE_V | PTE_R | PTE_W | PTE_U)));
    assert_eq!(pt.walk(Addr(0x3000)), None);
    assert_eq!(pt.walk(Addr(0x1000)), None);
    // two tables were made on the way
    assert_eq!(free_frames(&mem), 64 - 1 - 1 - 2);
    assert!(pt.mid_frame(0).is_some());
    assert!(pt.low_frame(Addr(0x2000)).is_some());
    assert_eq!(pt.low_frame(Addr(0x20_0000)), None);
}

#[test]
fn map_one_refuses_what_it_cannot_map() {
    let mut mem = memory(256, 64);
    let mut pt = PageTable::new(&mut mem).unwrap();
    let frame = alloc_one_page(&mut mem).unwrap();
    let pa = frame.get_paddr().unwrap();
    let before = heads(&mem);
    assert_eq!(pt.map_one(&mut mem, Addr(0x2001), pa, PTE_R), Err(MmError::Misaligned));
    assert_eq!(pt.map_one(&mut mem, Addr(0x2000), Addr(pa.0 + 8), PTE_R), Err(MmError::Misaligned));
    assert_eq!(pt.map_one(&mut mem, Addr(0x2000), pa, PTE_U), Err(MmError::InvalidFlags));
    assert_eq!(pt.map_one(&mut mem, Addr(0x2000), pa, 0), Err(MmError::InvalidFlags));
    assert_eq!(pt.map_one(&mut mem, Addr(0x2000), Addr(0), PTE_R), Err(MmError::OutOfRange));
    assert_eq!(pt.map_one(&mut mem, Addr(0x2000), Addr(255 * 4096), PTE_R), Err(MmError::OutOfRange));
    assert_eq!(pt.map_one(&mut mem, Addr(0x2000), Addr(320 * 4096), PTE_R), Err(MmError::OutOfRange));
    assert_eq!(heads(&mem), before);
    assert_eq!(pt.walk(Addr(0x2000)), None);
    assert_eq!(pt.mid_frame(0), None);
    assert_eq!(pt.map_one(&mut mem, Addr(0x2000), pa, PTE_X), Ok(()));
    let before = heads(&mem);
    assert_eq!(pt.map_one(&mut mem, Addr(0x2000), pa, PTE_R), Err(MmError::AlreadyMapped));
    assert_eq!(pt.walk(Addr(0x2000)), Some((frame.get_pfn(), PTE_V | PTE_X)));
    assert_eq!(heads(&mem), before);
}

#[test]
fn map_one_undoes_a_table_when_memory_runs_out() {
    let mut mem = memory(256, 3);
    let mut pt = PageTable::new(&mut mem).unwrap();
    let frame = alloc_one_page(&mut mem).unwrap();
    let before = heads(&mem);
    // one frame is left: the level-1 table gets it, the level-0 table gets none
    assert_eq!(
        pt.map_one(&mut mem, Addr(0x2000), frame.get_paddr().unwrap(), PTE_R),
        Err(MmError::OutOfMemory)
    );
    assert_eq!(heads(&mem), before);
    assert_eq!(pt.mid_frame(0), None);
    assert_eq!(pt.walk(Addr(0x2000)), None);
}

#[test]
fn unmap_reclaims_intermediate_tables() {
    let mut mem = memory(256, 64);
    let mut pt = PageTable::new(&mut mem).unwrap();
    let frame = alloc_one_page(&mut mem).unwrap();
    let before = heads(&mem);
    assert_eq!(
        pt.map_one(&mut mem, Addr(0x4000_0000), frame.get_paddr().unwrap(), PTE_R | PTE_W),
        Ok(())
    );
    let mid = pt.mid_frame(1).unwrap();
    let low = pt.low_frame(Addr(0x4000_0000)).unwrap();
    assert!(mem.check_releasable(mid, 0));
    assert!(mem.check_releasable(low, 0));
    assert_eq!(free_frames(&mem), 60);
    assert_eq!(
        pt.unmap_one(&mut mem, Addr(0x4000_0000)),
        Ok(Pte { pfn: frame.get_pfn().0, flags: PTE_V | PTE_R | PTE_W })
    );
    assert_eq!(pt.mid_frame(1), None);
    assert_eq!(pt.low_frame(Addr(0x4000_0000)), None);
    assert!(!mem.check_releasable(mid, 0));
    assert!(!mem.check_releasable(low, 0));
    assert_eq!(pt.walk(Addr(0x4000_0000)), None);
    assert_eq!(heads(&mem), before);
}

#[test]
fn unmap_keeps_tables_that_hold_other_entries() {
    let mut mem = memory(256, 64);
    let mut pt = PageTable::new(&mut mem).unwrap();
    let f1 = alloc_one_page(&mut mem).unwrap();
    let f2 = alloc_one_page(&mut mem).unwrap();
    let f3 = alloc_one_page(&mut mem).unwrap();
    pt.map_one(&mut mem, Addr(0x1000), f1.get_paddr().unwrap(), PTE_R).unwrap();
    pt.map_one(&mut mem, Addr(0x5000), f2.get_paddr().unwrap(), PTE_R).unwrap();
    pt.map_one(&mut mem, Addr(0x20_0000), f3.get_paddr().unwrap(), PTE_R).unwrap();
    let mid = pt.mid_frame(0).unwrap();
    let low = pt.low_frame(Addr(0x1000)).unwrap();
    let low2 = pt.low_frame(Addr(0x20_0000)).unwrap();
    assert_ne!(low, low2);
    assert!(pt.unmap_one(&mut mem, Addr(0x1000)).is_ok());
    assert_eq!(pt.low_frame(Addr(0x5000)), Some(low));
    assert_eq!(pt.mid_frame(0), Some(mid));
    assert!(pt.unmap_one(&mut mem, Addr(0x5000)).is_ok());
    assert_eq!(pt.low_frame(Addr(0x5000)), None);
    assert_eq!(pt.mid_frame(0), Some(mid));
    assert_eq!(pt.walk(Addr(0x20_0000)), Some((f3.get_pfn(), PTE_V | PTE_R)));
    assert!(pt.unmap_one(&mut mem, Addr(0x20_0000)).is_ok());
    assert_eq!(pt.mid_frame(0), None);
}

#[test]
fn unmap_one_refuses_what_is_not_mapped() {
    let mut mem = memory(256, 64);
    let mut pt = PageTable::new(&mut mem).unwrap();
    let f1 = alloc_one_page(&mut mem).unwrap();
    pt.map_one(&mut mem, Addr(0x1000), f1.get_paddr().unwrap(), PTE_R).unwrap();
    let before = heads(&mem);
    assert_eq!(pt.unmap_one(&mut mem, Addr(0x2000)), Err(MmError::NotMapped));
    assert_eq!(pt.unmap_one(&mut mem, Addr(0x4000_0000)), Err(MmError::NotMapped));
    assert_eq!(pt.unmap_one(&mut mem, Addr(0x1008)), Err(MmError::Misaligned));
    assert_eq!(heads(&mem), before);
    assert!(pt.walk(Addr(0x1000)).is_some());
}

#[test]
fn the_address_is_taken_by_its_39_low_bits() {
    let mut mem = memory(256, 64);
    let mut pt = PageTable::new(&mut mem).unwrap();
    let f1 = alloc_one_page(&mut mem).unwrap();
    pt.map_one(&mut mem, Addr(0x7f_ffff_f000), f1.get_paddr().unwrap(), PTE_R).unwrap();
    assert!(pt.mid_frame(511).is_some());
    assert_eq!(pt.walk(Addr(0xffff_ffff_ffff_f000)), Some((f1.get_pfn(), PTE_V | PTE_R)));
}

#[test]
fn map_range_maps_consecutive_pages() {
    let mut mem = memory(256, 64);
    let mut pt = PageTable::new(&mut mem).unwrap();
    let block = alloc_pages(&mut mem, 2).unwrap();
    let pa = block.get_paddr().unwrap();
    assert_eq!(pt.map_range(&mut mem, Addr(0x8000), pa, 2, PTE_R | PTE_X), Ok(()));
    for i in 0..4 {
        assert_eq!(
            pt.walk(Addr(0x8000 + i * 4096)),
            Some((PFN(block.get_pfn().0 + i), PTE_V | PTE_R | PTE_X))
        );
    }
    assert_eq!(pt.walk(Addr(0x7000)), None);
    assert_eq!(pt.walk(Addr(0xc000)), None);
}

#[test]
fn map_range_is_all_or_nothing() {
    let mut mem = memory(256, 64);
    let mut pt = PageTable::new(&mut mem).unwrap();
    let single = alloc_one_page(&mut mem).unwrap();
    let block = alloc_pages(&mut mem, 2).unwrap();
    let pa = block.get_paddr().unwrap();
    pt.map_one(&mut mem, Addr(0xa000), single.get_paddr().unwrap(), PTE_R).unwrap();
    let before = heads(&mem);
    assert_eq!(pt.map_range(&mut mem, Addr(0x8000), pa, 2, PTE_R), Err(MmError::AlreadyMapped));
    assert_eq!(pt.walk(Addr(0x8000)), None);
    assert_eq!(pt.walk(Addr(0x9000)), None);
    assert_eq!(pt.walk(Addr(0xb000)), None);
    assert_eq!(pt.walk(Addr(0xa000)), Some((single.get_pfn(), PTE_V | PTE_R)));
    assert_eq!(heads(&mem), before);
    assert_eq!(pt.map_range(&mut mem, Addr(0x9000), pa, 2, PTE_R), Err(MmError::Misaligned));
    assert_eq!(pt.map_range(&mut mem, Addr(0x10000), Addr(pa.0 + 4096), 2, PTE_R), Err(MmError::Misaligned));
    assert_eq!(pt.map_range(&mut mem, Addr(0x10000), pa, 11, PTE_R), Err(MmError::OutOfRange));
    assert_eq!(pt.map_range(&mut mem, Addr(0x10000), pa, 2, PTE_U), Err(MmError::InvalidFlags));
    assert_eq!(pt.map_range(&mut mem, Addr(0x10000), Addr(316 * 4096), 2, PTE_R), Ok(()));
    assert_eq!(pt.map_range(&mut mem, Addr(0x20000), Addr(320 * 4096), 2, PTE_R), Err(MmError::OutOfRange));
    assert_eq!(pt.map_range(&mut mem, Addr(0x20000), Addr(0), 2, PTE_R), Err(MmError::OutOfRange));
}

#[test]
fn map_range_undoes_its_pages_when_memory_runs_out() {
    // root, block of 4, and two frames for tables: the range reaches across
    // two level-0 tables and finds no frame for the second
    let mut mem = memory(256, 8);
    let block = alloc_pages(&mut mem, 2).unwrap();
    let mut pt = PageTable::new(&mut mem).unwrap();
    let spare = alloc_one_page(&mut mem).unwrap();
    assert_eq!(free_frames(&mem), 2);
    let before = heads(&mem);
    // pages 0x1fe000, 0x1ff000 lie in one level-0 table, 0x200000, 0x201000 in the next
    assert_eq!(
        pt.map_range(&mut mem, Addr(0x1fc000), block.get_paddr().unwrap(), 2, PTE_R),
        Ok(())
    );
    pt.unmap_range(&mut mem, Addr(0x1fc000), 2).unwrap();
    assert_eq!(heads(&mem), before);
    let more = alloc_pages(&mut mem, 1).unwrap();
    assert_eq!(more.get_order(), 1);
    kernel::mm::drop_page(&mut mem, spare);
    // one frame is free now
    assert_eq!(free_frames(&mem), 1);
    let before = heads(&mem);
    assert_eq!(
        pt.map_range(&mut mem, Addr(0x1fc000), block.get_paddr().unwrap(), 2, PTE_R),
        Err(MmError::OutOfMemory)
    );
    assert_eq!(heads(&mem), before);
    for i in 0..4 {
        assert_eq!(pt.walk(Addr(0x1fc000 + i * 4096)), None);
    }
    assert_eq!(pt.mid_frame(0), None);
}

#[test]
fn map_range_then_unmap_range_restores_the_table_and_the_memory() {
    let mut mem = memory(256, 64);
    let mut pt = PageTable::new(&mut mem).unwrap();
    let keep = alloc_one_page(&mut mem).unwrap();
    pt.map_one(&mut mem, Addr(0x4000_1000), keep.get_paddr().unwrap(), PTE_R).unwrap();
    let block = alloc_pages(&mut mem, 3).unwrap();
    let before = heads(&mem);
    let mid = pt.mid_frame(1);
    let low = pt.low_frame(Addr(0x4000_1000));
    for va in [0x4000_8000usize, 0x8000_0000, 0x4020_0000] {
        assert_eq!(pt.map_range(&mut mem, Addr(va), block.get_paddr().unwrap(), 3, PTE_W | PTE_R), Ok(()));
        assert_eq!(pt.unmap_range(&mut mem, Addr(va), 3), Ok(()));
        assert_eq!(heads(&mem), before);
        assert_eq!(pt.mid_frame(1), mid);
        assert_eq!(pt.mid_frame(2), None);
        assert_eq!(pt.low_frame(Addr(0x4000_1000)), low);
        assert_eq!(pt.low_frame(Addr(0x4020_0000)), None);
        for i in 0..8 {
            assert_eq!(pt.walk(Addr(va + i * 4096)), None);
        }
        assert_eq!(pt.walk(Addr(0x4000_1000)), Some((keep.get_pfn(), PTE_V | PTE_R)));
    }
}

#[test]
fn unmap_range_refuses_a_range_with_a_hole() {
    let mut mem = memory(256, 64);
    let mut pt = PageTable::new(&mut mem).unwrap();
    let block = alloc_pages(&mut mem, 1).unwrap();
    pt.map_range(&mut mem, Addr(0x2000), block.get_paddr().unwrap(), 1, PTE_R).unwrap();
    let before = heads(&mem);
    assert_eq!(pt.unmap_range(&mut mem, Addr(0x0), 2), Err(MmError::NotMapped));
    assert_eq!(pt.unmap_range(&mut mem, Addr(0x3000), 1), Err(MmError::Misaligned));
    assert_eq!(pt.unmap_range(&mut mem, Addr(0x2000), 11), Err(MmError::OutOfRange));
    assert!(pt.walk(Addr(0x2000)).is_some());
    assert!(pt.walk(Addr(0x3000)).is_some());
    assert_eq!(heads(&mem), before);
    assert_eq!(pt.unmap_range(&mut mem, Addr(0x2000), 1), Ok(()));
    assert_eq!(pt.unmap_range(&mut mem, Addr(0x2000), 1), Err(MmError::NotMapped));
}

#[test]
fn every_leaf_is_valid_and_points_into_managed_memory() {
    let mut mem = memory(256, 64);
    let mut pt = PageTable::new(&mut mem).unwrap();
    let mut mapped = Vec::new();
    for (i, flags) in [PTE_R, PTE_W, PTE_X, PTE_R | PTE_W | PTE_U, 0xe0 | PTE_R].iter().enumerate() {
        let f = alloc_one_page(&mut mem).unwrap();
        let va = 0x10_0000 * (i + 1);
        pt.map_one(&mut mem, Addr(va), f.get_paddr().unwrap(), *flags).unwrap();
        mapped.push(va);
    }
    for va in mapped {
        let (pfn, flags) = pt.walk(Addr(va)).unwrap();
        assert!(pfn.0 >= 256 && pfn.0 < 320);
        assert_eq!(flags & PTE_V, PTE_V);
        assert_ne!(flags & (PTE_R | PTE_W | PTE_X), 0);
    }
}

#[test]
fn a_leaf_in_the_format_of_the_hardware() {
    let leaf = Pte { pfn: 0x80200, flags: PTE_V | PTE_R | PTE_W | PTE_U };
    assert_eq!(leaf.encode(), (0x80200 << 10) | 0x17);
    assert_eq!(Pte::decode(leaf.encode()), (0x80200, 0x17));
    assert_eq!(Pte { pfn: 0, flags: 0 }.encode(), 0);
    let top = Pte { pfn: 0xfff_ffff_ffff, flags: 0xff };
    assert_eq!(top.encode(), 0x003f_ffff_ffff_fcff);
    assert_eq!(Pte::decode(top.encode()), (0xfff_ffff_ffff, 0xff));
    assert_eq!(Pte::decode(u64::MAX), (0xfff_ffff_ffff, 0xff));
}

#[test]
fn a_range_with_holes_is_unmapped_on_request() {
    let mut mem = memory(256, 64);
    let mut pt = PageTable::new(&mut mem).unwrap();
    let block = alloc_pages(&mut mem, 1).unwrap();
    let before = heads(&mem);
    pt.map_range(&mut mem, Addr(0x2000), block.get_paddr().unwrap(), 1, PTE_R).unwrap();
    assert_eq!(pt.unmap_range(&mut mem, Addr(0x0), 2), Err(MmError::NotMapped));
    assert_eq!(pt.unmap_range_mapped(&mut mem, Addr(0x1000), 2), Err(MmError::Misaligned));
    assert_eq!(pt.unmap_range_mapped(&mut mem, Addr(0x0), 11), Err(MmError::OutOfRange));
    assert!(pt.walk(Addr(0x2000)).is_some());
    assert_eq!(pt.unmap_range_mapped(&mut mem, Addr(0x0), 2), Ok(()));
    for va in [0x0usize, 0x1000, 0x2000, 0x3000] {
        assert_eq!(pt.walk(Addr(va)), None);
    }
    assert_eq!(pt.mid_frame(0), None);
    assert_eq!(heads(&mem), before);
    assert_eq!(pt.unmap_range_mapped(&mut mem, Addr(0x0), 2), Ok(()));
    assert_eq!(heads(&mem), before);
}
