use kernel::mm::addr::{Addr, PFN};
use kernel::mm::page::{PageDescriptor, PageState};
use kernel::utils::convert_cstr_from_vaddr;
use kernel::mm::{
    _insert_area_for_page_drop, alloc_one_page, alloc_pages, buddy_init, copy_block, drop_page,
    free_pages,
    mm_init, page_init, share_page, zero_page, PhysMemory,
};

fn memory(first: usize, pages: usize) -> PhysMemory {
    let mut mem = PhysMemory::new();
    buddy_init(&mut mem, Addr(first * 4096), Addr((first + pages) * 4096));
    page_init(&mut mem, Addr(first * 4096), Addr((first + pages) * 4096));
    mem
}

fn heads(mem: &PhysMemory) -> Vec<Vec<usize>> {
    (0..11)
        .map(|k| {
            let mut h = mem.free_heads(k);
            h.sort();
            h
        })
        .collect()
}

fn free_frames(mem: &PhysMemory) -> usize {
    (0..11).map(|k| mem.free_heads(k).len() << k).sum()
}

const FREE: PageDescriptor = PageDescriptor { state: PageState::Free, order: 0, refcount: 0 };

#[test]
fn zero_page_is_a_page_of_zeros() {
    let z = zero_page();
    assert_eq!(z.len(), 4096);
    assert!(z.iter().all(|b| *b == 0));
}

#[test]
fn init_marks_every_frame_free() {
    let mem = memory(16, 32);
    assert_eq!(mem.start_pfn(), PFN(16));
    assert_eq!(mem.end_pfn(), PFN(48));
    for f in 16..48 {
        assert_eq!(mem.descriptor(PFN(f)), Some(FREE));
        assert_eq!(mem.read_frame(PFN(f)), Some(vec![0u8; 4096]));
        assert_eq!(mem.read_allocated(PFN(f)), None);
    }
    assert_eq!(mem.descriptor(PFN(15)), None);
    assert_eq!(mem.descriptor(PFN(48)), None);
    assert_eq!(mem.read_frame(PFN(48)), None);
    assert_eq!(free_frames(&mem), 32);
}

#[test]
fn mm_init_lays_out_the_memory_after_the_boot_heap() {
    let mut mem = PhysMemory::new();
    // image from 0x80200000 to 0x80234567: the heap ends at 0x8025c567
    assert!(mm_init(&mut mem, 0x8020_0000, 0x8023_4567));
    assert_eq!(mem.start_pfn(), PFN(0x8025d));
    assert_eq!(mem.end_pfn(), PFN(0x80800));
    assert_eq!(free_frames(&mem), 0x80800 - 0x8025d);
    assert_eq!(mem.descriptor(PFN(0x8025d)), Some(FREE));
}

#[test]
fn mm_init_refuses_an_image_that_leaves_no_memory() {
    let mut mem = memory(16, 8);
    assert!(!mm_init(&mut mem, 0x1000, 0x1000 + 6 * 1024 * 1024));
    assert!(!mm_init(&mut mem, usize::MAX - 10, 0x2000));
    assert!(!mm_init(&mut mem, 0x1000, usize::MAX - 10));
    assert_eq!(mem.start_pfn(), PFN(16));
    assert_eq!(free_frames(&mem), 8);
}

#[test]
fn alloc_pages_records_the_run_and_zeroes_it() {
    let mut mem = memory(16, 32);
    assert!(mem.write_frame(PFN(18), 5, &[7, 8, 9]));
    let pg = alloc_pages(&mut mem, 2).unwrap();
    assert_eq!(pg.get_pfn(), PFN(16));
    assert_eq!(pg.get_order(), 2);
    assert_eq!(pg.get_paddr(), Some(Addr(0x10000)));
    for f in 16..20 {
        let want = PageDescriptor {
            state: PageState::Allocated(2),
            order: 2,
            refcount: if f == 16 { 1 } else { 0 },
        };
        assert_eq!(mem.descriptor(PFN(f)), Some(want));
        assert_eq!(mem.read_allocated(PFN(f)), Some(vec![0u8; 4096]));
    }
    assert_eq!(mem.descriptor(PFN(20)), Some(FREE));
    assert_eq!(free_frames(&mem), 28);
}

#[test]
fn alloc_pages_fails_without_a_run() {
    let mut mem = memory(16, 4);
    assert!(alloc_pages(&mut mem, 3).is_none());
    assert!(alloc_pages(&mut mem, 11).is_none());
    assert_eq!(free_frames(&mem), 4);
    assert!(alloc_pages(&mut mem, 2).is_some());
    assert!(alloc_one_page(&mut mem).is_none());
}

#[test]
fn every_frame_is_free_or_allocated_and_never_both() {
    let mut mem = memory(7, 100);
    let mut held = Vec::new();
    for order in [0usize, 2, 1, 3, 0, 0, 4] {
        held.push(alloc_pages(&mut mem, order).unwrap());
    }
    drop_page(&mut mem, held.remove(2));
    drop_page(&mut mem, held.remove(0));
    let mut free = vec![false; 107];
    for k in 0..11 {
        for h in mem.free_heads(k) {
            for f in h..h + (1 << k) {
                free[f] = true;
            }
        }
    }
    for f in 7..107 {
        let d = mem.descriptor(PFN(f)).unwrap();
        match d.state {
            PageState::Free => assert!(free[f]),
            PageState::Allocated(k) => {
                assert!(!free[f]);
                let head = f - f % (1 << k);
                assert!(held.iter().any(|p| p.get_pfn() == PFN(head) && p.get_order() == k));
            }
            PageState::Reserved => panic!("no frame is reserved"),
        }
    }
}

#[test]
fn free_pages_returns_the_run() {
    let mut mem = memory(16, 32);
    let before = heads(&mem);
    let pg = alloc_pages(&mut mem, 3).unwrap();
    assert_eq!(free_pages(&mut mem, pg), Ok(()));
    assert_eq!(heads(&mem), before);
    for f in 16..48 {
        assert_eq!(mem.descriptor(PFN(f)), Some(FREE));
    }
}

#[test]
fn a_run_cannot_be_released_twice() {
    let mut mem = memory(16, 32);
    let pg = alloc_pages(&mut mem, 1).unwrap();
    let pfn = pg.get_pfn();
    assert_eq!(_insert_area_for_page_drop(&mut mem, pfn, 1), Ok(()));
    let before = heads(&mem);
    assert_eq!(_insert_area_for_page_drop(&mut mem, pfn, 1), Err(-1));
    assert_eq!(free_pages(&mut mem, pg), Err(-1));
    assert_eq!(heads(&mem), before);
}

#[test]
fn a_release_must_name_the_order_of_the_allocation() {
    let mut mem = memory(16, 32);
    let pg = alloc_pages(&mut mem, 2).unwrap();
    let before = heads(&mem);
    assert!(!mem.check_releasable(pg.get_pfn(), 1));
    assert_eq!(_insert_area_for_page_drop(&mut mem, pg.get_pfn(), 1), Err(-1));
    assert_eq!(_insert_area_for_page_drop(&mut mem, pg.get_pfn(), 3), Err(-1));
    assert_eq!(_insert_area_for_page_drop(&mut mem, PFN(17), 0), Err(-1));
    assert_eq!(_insert_area_for_page_drop(&mut mem, PFN(17), 2), Err(-1));
    assert_eq!(_insert_area_for_page_drop(&mut mem, PFN(1000), 0), Err(-1));
    assert_eq!(_insert_area_for_page_drop(&mut mem, pg.get_pfn(), 11), Err(-1));
    assert_eq!(heads(&mem), before);
    assert!(mem.check_releasable(pg.get_pfn(), 2));
    assert_eq!(_insert_area_for_page_drop(&mut mem, pg.get_pfn(), 2), Ok(()));
}

#[test]
fn a_shared_run_goes_back_with_its_last_handle() {
    let mut mem = memory(16, 32);
    let before = heads(&mem);
    let pg = alloc_one_page(&mut mem).unwrap();
    let pfn = pg.get_pfn();
    let second = share_page(&mut mem, &pg).unwrap();
    assert_eq!(second.get_pfn(), pfn);
    assert_eq!(mem.descriptor(pfn).unwrap().refcount, 2);
    assert_eq!(free_pages(&mut mem, pg), Ok(()));
    assert_eq!(mem.descriptor(pfn).unwrap().refcount, 1);
    assert_eq!(mem.descriptor(pfn).unwrap().state, PageState::Allocated(0));
    assert_eq!(free_pages(&mut mem, second), Ok(()));
    assert_eq!(mem.descriptor(pfn), Some(FREE));
    assert_eq!(heads(&mem), before);
}

#[test]
fn share_page_refuses_a_stale_handle() {
    let mut mem = memory(16, 32);
    let pg = alloc_one_page(&mut mem).unwrap();
    let stale = share_page(&mut mem, &pg).unwrap();
    assert_eq!(_insert_area_for_page_drop(&mut mem, pg.get_pfn(), 0), Ok(()));
    assert!(share_page(&mut mem, &stale).is_none());
}

#[test]
fn write_frame_lays_bytes_over_the_frame() {
    let mut mem = memory(16, 8);
    let pg = alloc_one_page(&mut mem).unwrap();
    assert!(mem.write_frame(pg.get_pfn(), 4090, &[1, 2, 3, 4, 5, 6]));
    assert!(mem.write_frame(pg.get_pfn(), 0, &[9]));
    let mut want = vec![0u8; 4096];
    want[0] = 9;
    want[4090..].copy_from_slice(&[1, 2, 3, 4, 5, 6]);
    assert_eq!(mem.read_allocated(pg.get_pfn()), Some(want.clone()));
    assert!(!mem.write_frame(pg.get_pfn(), 4091, &[1, 2, 3, 4, 5, 6]));
    assert!(!mem.write_frame(pg.get_pfn(), 5000, &[]));
    assert!(!mem.write_frame(PFN(3), 0, &[1]));
    assert_eq!(mem.read_allocated(pg.get_pfn()), Some(want));
}

#[test]
fn page_addresses() {
    let mut mem = memory(0x80000, 8);
    let pg = alloc_one_page(&mut mem).unwrap();
    assert_eq!(pg.get_paddr(), Some(Addr(0x8000_0000)));
    assert_eq!(pg.get_vaddr(), Some(Addr(0xffff_ffd8_8000_0000)));
}

#[test]
fn copy_block_copies_frame_by_frame() {
    let mut mem = memory(16, 32);
    let src = alloc_pages(&mut mem, 1).unwrap();
    assert!(mem.write_frame(src.get_pfn(), 0, &[1, 2, 3]));
    assert!(mem.write_frame(PFN(src.get_pfn().0 + 1), 4093, &[4, 5, 6]));
    let dst = copy_block(&mut mem, &src).unwrap();
    assert_eq!(dst.get_order(), 1);
    assert_eq!(dst.get_pfn(), PFN(18));
    for f in 0..2 {
        assert_eq!(
            mem.read_allocated(PFN(dst.get_pfn().0 + f)),
            mem.read_allocated(PFN(src.get_pfn().0 + f))
        );
    }
    assert_eq!(&mem.read_allocated(PFN(18)).unwrap()[..4], &[1, 2, 3, 0]);
    assert_eq!(&mem.read_allocated(PFN(19)).unwrap()[4092..], &[0, 4, 5, 6]);
    assert_eq!(mem.descriptor(PFN(18)).unwrap().refcount, 1);
}

#[test]
fn copy_block_fails_without_a_run() {
    let mut mem = memory(16, 4);
    let src = alloc_pages(&mut mem, 1).unwrap();
    let other = alloc_pages(&mut mem, 0).unwrap();
    let before = heads(&mem);
    assert!(copy_block(&mut mem, &src).is_none());
    assert_eq!(heads(&mem), before);
    drop_page(&mut mem, other);
    assert!(copy_block(&mut mem, &src).is_some());
}

#[test]
fn bytes_are_read_from_allocated_frames_only() {
    let mut mem = memory(16, 8);
    let pg = alloc_one_page(&mut mem).unwrap();
    assert!(mem.write_frame(pg.get_pfn(), 100, &[0xab]));
    assert_eq!(mem.byte_at(16 * 4096 + 100), Some(0xab));
    assert_eq!(mem.byte_at(16 * 4096 + 101), Some(0));
    assert_eq!(mem.byte_at(17 * 4096), None);
    assert_eq!(mem.byte_at(0), None);
    assert_eq!(mem.byte_at(usize::MAX), None);
}

#[test]
fn a_c_string_is_read_through_the_direct_map() {
    let off = 0xffff_ffd8_0000_0000usize;
    let mut mem = memory(16, 8);
    let block = alloc_pages(&mut mem, 1).unwrap();
    let pa = block.get_paddr().unwrap().0;
    assert!(mem.write_frame(block.get_pfn(), 5, b"init\0sh"));
    assert!(mem.write_frame(block.get_pfn(), 4093, b"abc"));
    assert!(mem.write_frame(PFN(block.get_pfn().0 + 1), 0, b"def\0"));
    assert!(mem.write_frame(PFN(block.get_pfn().0 + 1), 4094, &[0xe9, 0x41]));
    assert_eq!(convert_cstr_from_vaddr(&mem, Addr(off + pa + 5)), Some(String::from("init")));
    assert_eq!(convert_cstr_from_vaddr(&mem, Addr(off + pa + 7)), Some(String::from("it")));
    assert_eq!(convert_cstr_from_vaddr(&mem, Addr(off + pa + 9)), Some(String::new()));
    // across the boundary of two frames
    assert_eq!(convert_cstr_from_vaddr(&mem, Addr(off + pa + 4093)), Some(String::from("abcdef")));
    // the string runs into a frame that is not allocated
    assert_eq!(convert_cstr_from_vaddr(&mem, Addr(off + pa + 2 * 4096 - 2)), None);
    assert_eq!(convert_cstr_from_vaddr(&mem, Addr(off + pa + 2 * 4096)), None);
    assert_eq!(convert_cstr_from_vaddr(&mem, Addr(off)), None);
    // below the direct map
    assert_eq!(convert_cstr_from_vaddr(&mem, Addr(pa + 5)), None);
}

#[test]
fn default_memory_manages_nothing() {
    let mut mem = PhysMemory::default();
    assert_eq!(mem.start_pfn(), PFN(0));
    assert_eq!(mem.end_pfn(), PFN(0));
    assert!(alloc_one_page(&mut mem).is_none());
    assert_eq!(kernel::mm::buddy::BuddyAllocator::default().end_pfn(), PFN(0));
    assert_eq!(kernel::mm::page::PagesManager::default().get(PFN(0)), None);
}
