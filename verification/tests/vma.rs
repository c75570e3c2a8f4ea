use kernel::mm::addr::{Addr, PFN};
use kernel::mm::pagetable::PageTable;
use kernel::mm::vma::{
    Inode, PopulateStep, VmFlags, WriteBack, _vma_flags_2_pte_flags, VMA, VM_ANON, VM_DIRTY,
    VM_EXEC, VM_READ, VM_SHARD, VM_USER, VM_WRITE,
};
use kernel::mm::{alloc_one_page, alloc_pages, buddy_init, page_init, MmError, PhysMemory};

fn memory(first: usize, pages: usize) -> PhysMemory {
    let mut mem = PhysMemory::new();
    buddy_init(&mut mem, Addr(first * 4096), Addr((first + pages) * 4096));
    page_init(&mut mem, Addr(first * 4096), Addr((first + pages) * 4096));
    mem
}

fn heads(mem: &PhysMemory) -> Vec<Vec<usize>> {
    (0..11)
        .map(|k| {
            let mut h = mem.free_heads(k);
            h.sort();
            h
        })
        .collect()
}

fn free_frames(mem: &PhysMemory) -> usize {
    (0..11).map(|k| mem.free_heads(k).len() << k).sum()
}

fn flags(bits: usize) -> VmFlags {
    VmFlags { bits }
}

/// Reads a page of the file at `off`, as an inode would: short at the end.
fn read_at(file: &[u8], off: usize) -> Vec<u8> {
    if off >= file.len() {
        return Vec::new();
    }
    let end = usize::min(file.len(), off + 4096);
    file[off..end].to_vec()
}

/// Writes a page back to the file, as an inode would: the file grows.
fn write_at(file: &mut Vec<u8>, wb: &WriteBack) {
    if file.len() < wb.off + wb.data.len() {
        file.resize(wb.off + wb.data.len(), 0);
    }
    file[wb.off..wb.off + wb.data.len()].copy_from_slice(&wb.data);
}

/// Takes in a fault and, in a file area, reads the page from `file`.
fn fault(vma: &mut VMA, pt: &mut PageTable, mem: &mut PhysMemory, va: usize, file: &[u8]) -> Result<(), MmError> {
    match vma.populate(pt, mem, Addr(va))? {
        PopulateStep::Done => Ok(()),
        PopulateStep::Read { page, inode: _, off } => {
            let data = read_at(file, off);
            vma.populate_finish(pt, mem, Addr(va), page, &data)
        }
    }
}

#[test]
fn flags_of_a_leaf() {
    assert_eq!(_vma_flags_2_pte_flags(flags(0)), 1);
    assert_eq!(_vma_flags_2_pte_flags(flags(VM_READ)), 3);
    assert_eq!(_vma_flags_2_pte_flags(flags(VM_WRITE)), 5);
    assert_eq!(_vma_flags_2_pte_flags(flags(VM_EXEC)), 9);
    assert_eq!(_vma_flags_2_pte_flags(flags(VM_USER)), 17);
    assert_eq!(_vma_flags_2_pte_flags(flags(VM_READ | VM_WRITE | VM_USER | VM_ANON)), 23);
    assert_eq!(_vma_flags_2_pte_flags(flags(VM_SHARD | VM_ANON | VM_DIRTY)), 1);
    assert_eq!(_vma_flags_2_pte_flags(flags(usize::MAX)), 31);
}

#[test]
fn flags_set_and_contains() {
    let mut f = flags(VM_READ | VM_ANON);
    assert!(f.contains(VM_READ));
    assert!(f.contains(VM_READ | VM_ANON));
    assert!(!f.contains(VM_READ | VM_WRITE));
    assert!(f.contains(0));
    f.set(VM_DIRTY, true);
    assert_eq!(f.bits, VM_READ | VM_ANON | VM_DIRTY);
    f.set(VM_READ | VM_DIRTY, false);
    assert_eq!(f.bits, VM_ANON);
}

#[test]
fn constructors() {
    let a = VMA::new_anon(Addr(0x1000), Addr(0x4000), flags(VM_READ), PFN(7));
    assert!(a.is_anon());
    assert!(!a.is_file());
    assert_eq!(a.get_flags().bits, VM_READ | VM_ANON);
    assert_eq!(a.get_start_vaddr(), Addr(0x1000));
    assert_eq!(a.get_end_vaddr(), Addr(0x4000));
    assert_eq!(a.get_pagetable(), PFN(7));
    assert_eq!(a.get_file_inode(), None);
    assert_eq!(a.file_off, 0);
    assert_eq!(a.resident_count(), 0);
    assert!(a.readable() && !a.writeable() && !a.execable() && !a.is_dirty());

    let f = VMA::new_file(Addr(0x1000), Addr(0x4000), flags(VM_WRITE | VM_ANON), PFN(7), Inode { ino: 3 }, 0x2000);
    assert!(f.is_file());
    assert_eq!(f.get_flags().bits, VM_WRITE);
    assert_eq!(f.get_file_inode(), Some(Inode { ino: 3 }));
    assert_eq!(f.file_off, 0x2000);

    let e = VMA::empty(Addr(0x5000), Addr(0x5000), PFN(9));
    assert_eq!(e.get_flags().bits, VM_ANON);
    assert!(!e.in_vma(Addr(0x5000)));

    let n = VMA::new(Addr(0), Addr(0x1000), flags(VM_EXEC), PFN(1), Some(Inode { ino: 1 }), 4096);
    assert!(n.is_file() && n.execable());
    assert_eq!(n.file_off, 4096);
}

#[test]
fn in_vma_takes_the_range_half_open() {
    let a = VMA::new_anon(Addr(0x1000), Addr(0x4000), flags(VM_READ), PFN(7));
    assert!(!a.in_vma(Addr(0xfff)));
    assert!(a.in_vma(Addr(0x1000)));
    assert!(a.in_vma(Addr(0x3fff)));
    assert!(!a.in_vma(Addr(0x4000)));
}

#[test]
fn anonymous_fault() {
    let mut mem = memory(256, 64);
    let mut pt = PageTable::new(&mut mem).unwrap();
    let mut vma = VMA::new_anon(Addr(0x1000), Addr(0x4000), flags(VM_READ | VM_WRITE | VM_USER | VM_ANON), pt.root_pfn());
    let free = free_frames(&mem);
    assert_eq!(vma.populate(&mut pt, &mut mem, Addr(0x2000)), Ok(PopulateStep::Done));
    // one page, and the two tables on the way
    assert_eq!(free_frames(&mem), free - 3);
    let (pfn, leaf) = pt.walk(Addr(0x2000)).unwrap();
    assert_eq!(leaf, 1 | 2 | 4 | 16);
    assert!(vma.is_dirty());
    assert_eq!(vma.resident_count(), 1);
    assert!(vma._vaddr_have_map(Addr(0x2000)));
    assert!(!vma._vaddr_have_map(Addr(0x1000)));
    let pg = vma._find_page(Addr(0x2000)).unwrap();
    assert_eq!(pg.get_pfn(), pfn);
    assert_eq!(pg.get_order(), 0);
    assert_eq!(mem.read_allocated(pfn), Some(vec![0u8; 4096]));
    assert_eq!(mem.descriptor(pfn).unwrap().refcount, 1);
}

#[test]
fn a_fault_in_a_read_only_area_leaves_it_clean() {
    let mut mem = memory(256, 64);
    let mut pt = PageTable::new(&mut mem).unwrap();
    let mut vma = VMA::new_anon(Addr(0x1000), Addr(0x4000), flags(VM_READ), pt.root_pfn());
    assert_eq!(vma.populate(&mut pt, &mut mem, Addr(0x1000)), Ok(PopulateStep::Done));
    assert!(!vma.is_dirty());
    assert_eq!(pt.walk(Addr(0x1000)).unwrap().1, 3);
}

#[test]
fn populate_is_idempotent() {
    let mut mem = memory(256, 64);
    let mut pt = PageTable::new(&mut mem).unwrap();
    let mut vma = VMA::new_anon(Addr(0x1000), Addr(0x4000), flags(VM_READ | VM_WRITE), pt.root_pfn());
    assert_eq!(vma.populate(&mut pt, &mut mem, Addr(0x3000)), Ok(PopulateStep::Done));
    let leaf = pt.walk(Addr(0x3000));
    assert!(mem.write_frame(leaf.unwrap().0, 0, &[1, 2, 3]));
    let before = heads(&mem);
    for _ in 0..3 {
        assert_eq!(vma.populate(&mut pt, &mut mem, Addr(0x3000)), Ok(PopulateStep::Done));
        assert_eq!(pt.walk(Addr(0x3000)), leaf);
        assert_eq!(heads(&mem), before);
        assert_eq!(vma.resident_count(), 1);
        assert_eq!(&mem.read_allocated(leaf.unwrap().0).unwrap()[..3], &[1, 2, 3]);
    }
}

#[test]
fn populate_refuses_an_address_outside_or_unaligned() {
    let mut mem = memory(256, 64);
    let mut pt = PageTable::new(&mut mem).unwrap();
    let mut vma = VMA::new_anon(Addr(0x1000), Addr(0x4000), flags(VM_READ), pt.root_pfn());
    let before = heads(&mem);
    assert_eq!(vma.populate(&mut pt, &mut mem, Addr(0x4000)), Err(MmError::OutOfRange));
    assert_eq!(vma.populate(&mut pt, &mut mem, Addr(0x0)), Err(MmError::OutOfRange));
    assert_eq!(vma.populate(&mut pt, &mut mem, Addr(0x2008)), Err(MmError::OutOfRange));
    assert_eq!(heads(&mem), before);
    assert_eq!(vma.resident_count(), 0);
}

#[test]
fn populate_gives_the_frame_back_when_it_cannot_map() {
    let mut mem = memory(256, 64);
    let mut pt = PageTable::new(&mut mem).unwrap();
    // no permission: the page table refuses the leaf
    let mut vma = VMA::new_anon(Addr(0x1000), Addr(0x4000), flags(VM_USER), pt.root_pfn());
    let before = heads(&mem);
    assert_eq!(vma.populate(&mut pt, &mut mem, Addr(0x1000)), Err(MmError::InvalidFlags));
    assert_eq!(heads(&mem), before);
    assert_eq!(vma.resident_count(), 0);
    // a page that something else has mapped
    let other = alloc_one_page(&mut mem).unwrap();
    pt.map_one(&mut mem, Addr(0x2000), other.get_paddr().unwrap(), 2).unwrap();
    let mut vma = VMA::new_anon(Addr(0x1000), Addr(0x4000), flags(VM_READ), pt.root_pfn());
    let before = heads(&mem);
    assert_eq!(vma.populate(&mut pt, &mut mem, Addr(0x2000)), Err(MmError::AlreadyMapped));
    assert_eq!(heads(&mem), before);
}

#[test]
fn populate_fails_without_memory() {
    let mut mem = memory(256, 3);
    let mut pt = PageTable::new(&mut mem).unwrap();
    let mut vma = VMA::new_anon(Addr(0x1000), Addr(0x4000), flags(VM_READ), pt.root_pfn());
    let before = heads(&mem);
    // a frame for the page, a frame for one table, none for the other
    assert_eq!(vma.populate(&mut pt, &mut mem, Addr(0x1000)), Err(MmError::OutOfMemory));
    assert_eq!(heads(&mem), before);
    alloc_pages(&mut mem, 1).unwrap();
    assert_eq!(vma.populate(&mut pt, &mut mem, Addr(0x1000)), Err(MmError::OutOfMemory));
    assert_eq!(vma.resident_count(), 0);
}

#[test]
fn file_fault_pads_a_short_read_with_zeros() {
    let file = b"HELLOWORLD".to_vec();
    let mut mem = memory(256, 64);
    let mut pt = PageTable::new(&mut mem).unwrap();
    let mut vma = VMA::new_file(Addr(0x10000), Addr(0x11000), flags(VM_READ), pt.root_pfn(), Inode { ino: 5 }, 0);
    let step = vma.populate(&mut pt, &mut mem, Addr(0x10000)).unwrap();
    let (page, off) = match step {
        PopulateStep::Read { page, inode, off } => {
            assert_eq!(inode, Inode { ino: 5 });
            (page, off)
        }
        PopulateStep::Done => panic!("a file area asks for its bytes"),
    };
    assert_eq!(off, 0);
    // nothing is installed before the bytes are there
    assert_eq!(pt.walk(Addr(0x10000)), None);
    assert_eq!(vma.resident_count(), 0);
    let data = read_at(&file, off);
    assert_eq!(data.len(), 10);
    assert_eq!(vma.populate_finish(&mut pt, &mut mem, Addr(0x10000), page, &data), Ok(()));
    let (pfn, leaf) = pt.walk(Addr(0x10000)).unwrap();
    assert_eq!(leaf, 3);
    let bytes = mem.read_allocated(pfn).unwrap();
    assert_eq!(&bytes[..10], b"HELLOWORLD");
    assert!(bytes[10..].iter().all(|b| *b == 0));
    assert_eq!(bytes.len(), 4096);
    assert!(!vma.is_dirty());
    assert!(vma._vaddr_have_map(Addr(0x10000)));
}

#[test]
fn file_fault_reads_at_the_offset_of_the_page() {
    let file: Vec<u8> = (0..3 * 4096 + 100).map(|i| (i % 251) as u8).collect();
    let mut mem = memory(256, 64);
    let mut pt = PageTable::new(&mut mem).unwrap();
    let mut vma = VMA::new_file(Addr(0x10000), Addr(0x13000), flags(VM_READ), pt.root_pfn(), Inode { ino: 5 }, 4096);
    match vma.populate(&mut pt, &mut mem, Addr(0x12000)).unwrap() {
        PopulateStep::Read { page, inode: _, off } => {
            assert_eq!(off, 4096 + 0x2000);
            let data = read_at(&file, off);
            assert_eq!(data.len(), 100);
            vma.populate_finish(&mut pt, &mut mem, Addr(0x12000), page, &data).unwrap();
        }
        PopulateStep::Done => panic!("a file area asks for its bytes"),
    }
    let pfn = pt.walk(Addr(0x12000)).unwrap().0;
    let bytes = mem.read_allocated(pfn).unwrap();
    assert_eq!(&bytes[..100], &file[3 * 4096..]);
    assert!(bytes[100..].iter().all(|b| *b == 0));
}

#[test]
fn concurrent_faults_on_one_address_install_one_frame() {
    let file = vec![7u8; 4096];
    let mut mem = memory(256, 64);
    let mut pt = PageTable::new(&mut mem).unwrap();
    let mut vma = VMA::new_file(Addr(0x10000), Addr(0x11000), flags(VM_READ | VM_WRITE), pt.root_pfn(), Inode { ino: 5 }, 0);
    let free = free_frames(&mem);
    let first = match vma.populate(&mut pt, &mut mem, Addr(0x10000)).unwrap() {
        PopulateStep::Read { page, .. } => page,
        PopulateStep::Done => panic!("a file area asks for its bytes"),
    };
    let second = match vma.populate(&mut pt, &mut mem, Addr(0x10000)).unwrap() {
        PopulateStep::Read { page, .. } => page,
        PopulateStep::Done => panic!("a file area asks for its bytes"),
    };
    assert_ne!(first.get_pfn(), second.get_pfn());
    let winner = second.get_pfn();
    let loser = first.get_pfn();
    assert_eq!(vma.populate_finish(&mut pt, &mut mem, Addr(0x10000), second, &file), Ok(()));
    assert_eq!(vma.populate_finish(&mut pt, &mut mem, Addr(0x10000), first, &file), Ok(()));
    assert_eq!(pt.walk(Addr(0x10000)).unwrap().0, winner);
    assert_eq!(vma.resident_count(), 1);
    assert!(mem.check_releasable(winner, 0));
    assert!(!mem.check_releasable(loser, 0));
    // the page and two tables
    assert_eq!(free_frames(&mem), free - 3);
    assert_eq!(vma.populate(&mut pt, &mut mem, Addr(0x10000)), Ok(PopulateStep::Done));
    assert_eq!(pt.walk(Addr(0x10000)).unwrap().0, winner);
}

#[test]
fn populate_finish_gives_the_frame_up_on_failure() {
    let mut mem = memory(256, 64);
    let mut pt = PageTable::new(&mut mem).unwrap();
    let mut vma = VMA::new_file(Addr(0x10000), Addr(0x11000), flags(VM_READ), pt.root_pfn(), Inode { ino: 5 }, 0);
    let before = heads(&mem);
    let page = match vma.populate(&mut pt, &mut mem, Addr(0x10000)).unwrap() {
        PopulateStep::Read { page, .. } => page,
        PopulateStep::Done => panic!("a file area asks for its bytes"),
    };
    assert_eq!(
        vma.populate_finish(&mut pt, &mut mem, Addr(0x10000), page, &vec![0u8; 4097]),
        Err(MmError::OutOfRange)
    );
    assert_eq!(heads(&mem), before);
    let page = match vma.populate(&mut pt, &mut mem, Addr(0x10000)).unwrap() {
        PopulateStep::Read { page, .. } => page,
        PopulateStep::Done => panic!("a file area asks for its bytes"),
    };
    assert_eq!(
        vma.populate_finish(&mut pt, &mut mem, Addr(0x11000), page, &[1]),
        Err(MmError::OutOfRange)
    );
    assert_eq!(heads(&mem), before);
    assert_eq!(vma.resident_count(), 0);
}

#[test]
fn split_parts_the_resident_pages() {
    let mut mem = memory(256, 64);
    let mut pt = PageTable::new(&mut mem).unwrap();
    let mut vma = VMA::new_anon(Addr(0x2000), Addr(0x8000), flags(VM_READ | VM_WRITE), pt.root_pfn());
    vma.populate(&mut pt, &mut mem, Addr(0x3000)).unwrap();
    vma.populate(&mut pt, &mut mem, Addr(0x6000)).unwrap();
    let low = pt.walk(Addr(0x3000));
    let high = pt.walk(Addr(0x6000));
    let before = heads(&mem);
    let right = vma.split(Addr(0x5000)).unwrap();
    assert_eq!(vma.get_start_vaddr(), Addr(0x2000));
    assert_eq!(vma.get_end_vaddr(), Addr(0x5000));
    assert_eq!(right.get_start_vaddr(), Addr(0x5000));
    assert_eq!(right.get_end_vaddr(), Addr(0x8000));
    assert_eq!(vma.resident_count(), 1);
    assert_eq!(right.resident_count(), 1);
    assert!(vma._vaddr_have_map(Addr(0x3000)));
    assert!(!vma._vaddr_have_map(Addr(0x6000)));
    assert!(right._vaddr_have_map(Addr(0x6000)));
    assert!(!right._vaddr_have_map(Addr(0x3000)));
    assert_eq!(right.get_flags(), vma.get_flags());
    assert_eq!(right.get_pagetable(), vma.get_pagetable());
    assert_eq!(right._find_page(Addr(0x6000)).unwrap().get_pfn(), high.unwrap().0);
    // the page table is as it was
    assert_eq!(pt.walk(Addr(0x3000)), low);
    assert_eq!(pt.walk(Addr(0x6000)), high);
    assert_eq!(pt.walk(Addr(0x5000)), None);
    assert_eq!(heads(&mem), before);
}

#[test]
fn split_keeps_a_page_at_the_boundary_on_the_right() {
    let mut mem = memory(256, 64);
    let mut pt = PageTable::new(&mut mem).unwrap();
    let mut vma = VMA::new_anon(Addr(0x2000), Addr(0x8000), flags(VM_READ), pt.root_pfn());
    vma.populate(&mut pt, &mut mem, Addr(0x5000)).unwrap();
    vma.populate(&mut pt, &mut mem, Addr(0x4000)).unwrap();
    let right = vma.split(Addr(0x5000)).unwrap();
    assert!(right._vaddr_have_map(Addr(0x5000)));
    assert!(vma._vaddr_have_map(Addr(0x4000)));
    assert_eq!(vma.resident_count(), 1);
    assert_eq!(right.resident_count(), 1);
}

#[test]
fn split_moves_the_file_offset_on() {
    let mut vma = VMA::new_file(Addr(0x10000), Addr(0x20000), flags(VM_READ), PFN(1), Inode { ino: 2 }, 0x3000);
    let right = vma.split(Addr(0x14000)).unwrap();
    assert_eq!(vma.file_off, 0x3000);
    assert_eq!(right.file_off, 0x7000);
    assert_eq!(right.get_file_inode(), Some(Inode { ino: 2 }));
    assert!(right.is_file());
}

#[test]
fn split_refuses_what_it_cannot_split() {
    let mut mem = memory(256, 64);
    let mut pt = PageTable::new(&mut mem).unwrap();
    let mut vma = VMA::new_anon(Addr(0x2000), Addr(0x8000), flags(VM_READ), pt.root_pfn());
    assert!(vma.split(Addr(0x2000)).is_none());
    assert!(vma.split(Addr(0x8000)).is_none());
    assert!(vma.split(Addr(0x1000)).is_none());
    assert!(vma.split(Addr(0x9000)).is_none());
    assert!(vma.split(Addr(0x5800)).is_none());
    // a block of two pages at 0x4000 reaches across 0x5000
    let block = alloc_pages(&mut mem, 1).unwrap();
    assert_eq!(vma._anon_map_pages(&mut pt, &mut mem, block, Addr(0x4000)), Ok(()));
    assert!(vma.split(Addr(0x5000)).is_none());
    assert_eq!(vma.get_end_vaddr(), Addr(0x8000));
    assert_eq!(vma.resident_count(), 1);
    let right = vma.split(Addr(0x4000)).unwrap();
    assert_eq!(right.resident_count(), 1);
    assert_eq!(vma.resident_count(), 0);
    let mut f = VMA::new_file(Addr(0x10000), Addr(0x20000), flags(VM_READ), PFN(1), Inode { ino: 2 }, usize::MAX - 0x1000);
    assert!(f.split(Addr(0x14000)).is_none());
    assert!(f.split(Addr(0x11000)).is_some());
}

#[test]
fn a_block_of_pages_is_mapped_as_one() {
    let mut mem = memory(256, 64);
    let mut pt = PageTable::new(&mut mem).unwrap();
    let mut vma = VMA::new_anon(Addr(0x10000), Addr(0x20000), flags(VM_READ | VM_WRITE), pt.root_pfn());
    let block = alloc_pages(&mut mem, 2).unwrap();
    let head = block.get_pfn();
    assert_eq!(vma._anon_map_pages(&mut pt, &mut mem, block, Addr(0x14000)), Ok(()));
    for i in 0..4 {
        assert_eq!(pt.walk(Addr(0x14000 + i * 4096)), Some((PFN(head.0 + i), 7)));
        assert_eq!(vma.find_block(Addr(0x14000 + i * 4096 + 17)), Some(0x14000));
    }
    assert_eq!(vma.find_block(Addr(0x13fff)), None);
    assert_eq!(vma.find_block(Addr(0x18000)), None);
    assert!(!vma.is_dirty());
    // a fault inside the block finds the page resident
    let before = heads(&mem);
    assert_eq!(vma.populate(&mut pt, &mut mem, Addr(0x16000)), Ok(PopulateStep::Done));
    assert_eq!(heads(&mem), before);
    assert_eq!(vma.resident_count(), 1);
    // the block goes as one
    let pg = vma.unmap_one(&mut pt, &mut mem, Addr(0x14000)).unwrap();
    assert_eq!(pg.get_pfn(), head);
    assert_eq!(pg.get_order(), 2);
    for i in 0..4 {
        assert_eq!(pt.walk(Addr(0x14000 + i * 4096)), None);
    }
    assert!(mem.check_releasable(head, 2));
}

#[test]
fn a_block_is_refused_where_it_does_not_fit() {
    let mut mem = memory(256, 64);
    let mut pt = PageTable::new(&mut mem).unwrap();
    let mut vma = VMA::new_anon(Addr(0x10000), Addr(0x20000), flags(VM_READ), pt.root_pfn());
    vma.populate(&mut pt, &mut mem, Addr(0x15000)).unwrap();
    let before = heads(&mem);
    let cases: [(usize, usize, MmError); 6] = [
        (2, 0x1e000, MmError::OutOfRange),
        (2, 0x20000, MmError::OutOfRange),
        (2, 0xc000, MmError::OutOfRange),
        (2, 0x14800, MmError::OutOfRange),
        (2, 0x14000, MmError::AlreadyMapped),
        (2, 0x1a000, MmError::Misaligned),
    ];
    for (order, va, want) in cases {
        let block = alloc_pages(&mut mem, order).unwrap();
        assert_eq!(vma._anon_map_pages(&mut pt, &mut mem, block, Addr(va)), Err(want));
        assert_eq!(heads(&mem), before);
        assert_eq!(vma.resident_count(), 1);
    }
    let mut file = VMA::new_file(Addr(0x30000), Addr(0x40000), flags(VM_READ), pt.root_pfn(), Inode { ino: 1 }, 0);
    let block = alloc_pages(&mut mem, 0).unwrap();
    assert_eq!(file._anon_map_pages(&mut pt, &mut mem, block, Addr(0x30000)), Err(MmError::OutOfRange));
    assert_eq!(heads(&mem), before);
}

#[test]
fn unmap_one_hands_the_block_out() {
    let mut mem = memory(256, 64);
    let mut pt = PageTable::new(&mut mem).unwrap();
    let mut vma = VMA::new_anon(Addr(0x1000), Addr(0x4000), flags(VM_READ), pt.root_pfn());
    vma.populate(&mut pt, &mut mem, Addr(0x2000)).unwrap();
    let pfn = pt.walk(Addr(0x2000)).unwrap().0;
    assert!(vma.unmap_one(&mut pt, &mut mem, Addr(0x3000)).is_none());
    assert!(pt.walk(Addr(0x2000)).is_some());
    let pg = vma.unmap_one(&mut pt, &mut mem, Addr(0x2000)).unwrap();
    assert_eq!(pg.get_pfn(), pfn);
    assert_eq!(pt.walk(Addr(0x2000)), None);
    assert_eq!(pt.mid_frame(0), None);
    assert_eq!(vma.resident_count(), 0);
    // the block is still the caller's
    assert!(mem.check_releasable(pfn, 0));
    assert!(vma.unmap_one(&mut pt, &mut mem, Addr(0x2000)).is_none());
}

#[test]
fn writeback_names_the_bytes_and_the_offset() {
    let file: Vec<u8> = (0..2 * 4096).map(|i| (i % 7) as u8).collect();
    let mut mem = memory(256, 64);
    let mut pt = PageTable::new(&mut mem).unwrap();
    let mut vma = VMA::new_file(Addr(0x10000), Addr(0x12000), flags(VM_READ | VM_WRITE), pt.root_pfn(), Inode { ino: 5 }, 0x4000);
    fault(&mut vma, &mut pt, &mut mem, 0x11000, &file).unwrap();
    assert!(vma.is_dirty());
    let pfn = pt.walk(Addr(0x11000)).unwrap().0;
    assert!(mem.write_frame(pfn, 3, &[0xaa, 0xbb]));
    let wb = vma.writeback_one(&mem, Addr(0x11000)).unwrap();
    assert_eq!(wb.inode, Inode { ino: 5 });
    assert_eq!(wb.off, 0x5000);
    assert_eq!(wb.data.len(), 4096);
    assert_eq!(wb.data, mem.read_allocated(pfn).unwrap());
    assert_eq!(&wb.data[3..5], &[0xaa, 0xbb]);
    assert_eq!(vma.writeback_one(&mem, Addr(0x10000)), None);
}

#[test]
fn nothing_is_written_back_of_an_anonymous_or_read_only_area() {
    let mut mem = memory(256, 64);
    let mut pt = PageTable::new(&mut mem).unwrap();
    let mut anon = VMA::new_anon(Addr(0x1000), Addr(0x4000), flags(VM_READ | VM_WRITE), pt.root_pfn());
    anon.populate(&mut pt, &mut mem, Addr(0x2000)).unwrap();
    assert_eq!(anon.writeback_one(&mem, Addr(0x2000)), None);
    assert_eq!(anon.release_all(&mut pt, &mut mem), Vec::<WriteBack>::new());
    let mut ro = VMA::new_file(Addr(0x10000), Addr(0x12000), flags(VM_READ), pt.root_pfn(), Inode { ino: 5 }, 0);
    fault(&mut ro, &mut pt, &mut mem, 0x10000, &[1, 2, 3]).unwrap();
    assert_eq!(ro.writeback_one(&mem, Addr(0x10000)), None);
    assert_eq!(ro.release_all(&mut pt, &mut mem), Vec::<WriteBack>::new());
}

#[test]
fn release_all_frees_every_block() {
    let mut mem = memory(256, 64);
    let mut pt = PageTable::new(&mut mem).unwrap();
    let before = heads(&mem);
    let mut vma = VMA::new_anon(Addr(0x1000), Addr(0x40_0000), flags(VM_READ | VM_WRITE), pt.root_pfn());
    for va in [0x3000usize, 0x1000, 0x20_0000, 0x5000] {
        vma.populate(&mut pt, &mut mem, Addr(va)).unwrap();
    }
    let block = alloc_pages(&mut mem, 1).unwrap();
    vma._anon_map_pages(&mut pt, &mut mem, block, Addr(0x8000)).unwrap();
    assert!(vma.is_dirty());
    assert_eq!(vma.resident_count(), 5);
    let wbs = vma.release_all(&mut pt, &mut mem);
    assert!(wbs.is_empty());
    assert_eq!(vma.resident_count(), 0);
    assert!(!vma.is_dirty());
    assert_eq!(vma.get_flags().bits, VM_READ | VM_WRITE | VM_ANON);
    for va in [0x3000usize, 0x1000, 0x20_0000, 0x5000, 0x8000, 0x9000] {
        assert_eq!(pt.walk(Addr(va)), None);
    }
    assert_eq!(pt.mid_frame(0), None);
    assert_eq!(heads(&mem), before);
}

#[test]
fn what_is_written_through_the_mapping_reaches_the_file() {
    let mut file: Vec<u8> = vec![0x11; 3 * 4096];
    let mut mem = memory(256, 64);
    let mut pt = PageTable::new(&mut mem).unwrap();
    let mut vma = VMA::new_file(Addr(0x10000), Addr(0x13000), flags(VM_READ | VM_WRITE), pt.root_pfn(), Inode { ino: 5 }, 0);
    let buffer: Vec<u8> = (0..3 * 4096).map(|i| (i * 7 % 256) as u8).collect();
    // the user writes the buffer through the mapping, page by page
    for page in 0..3 {
        let va = 0x10000 + page * 4096;
        fault(&mut vma, &mut pt, &mut mem, va, &file).unwrap();
        let pfn = pt.walk(Addr(va)).unwrap().0;
        assert_eq!(mem.read_allocated(pfn).unwrap(), vec![0x11; 4096]);
        assert!(mem.write_frame(pfn, 0, &buffer[page * 4096..(page + 1) * 4096]));
    }
    let wbs = vma.release_all(&mut pt, &mut mem);
    assert_eq!(wbs.len(), 3);
    assert_eq!(wbs.iter().map(|w| w.off).collect::<Vec<_>>(), vec![0, 4096, 8192]);
    for wb in wbs.iter() {
        assert_eq!(wb.inode, Inode { ino: 5 });
        write_at(&mut file, wb);
    }
    assert_eq!(&file[..0x3000], &buffer[..]);
    assert_eq!(vma.resident_count(), 0);
}

#[test]
fn resident_blocks_lie_inside_their_area() {
    let mut mem = memory(256, 64);
    let mut pt = PageTable::new(&mut mem).unwrap();
    let mut vma = VMA::new_anon(Addr(0x10000), Addr(0x20000), flags(VM_READ | VM_WRITE), pt.root_pfn());
    for va in [0x10000usize, 0x1f000, 0x17000] {
        vma.populate(&mut pt, &mut mem, Addr(va)).unwrap();
    }
    let block = alloc_pages(&mut mem, 2).unwrap();
    vma._anon_map_pages(&mut pt, &mut mem, block, Addr(0x18000)).unwrap();
    let right = vma.split(Addr(0x18000)).unwrap();
    for area in [&vma, &right] {
        let (start, end) = (area.get_start_vaddr().0, area.get_end_vaddr().0);
        let mut seen = 0;
        let mut va = 0x10000;
        while va < 0x20000 {
            if let Some(pg) = area._find_page(Addr(va)) {
                seen += 1;
                assert!(start <= va);
                assert!(va + (4096 << pg.get_order()) <= end);
                assert_eq!(va % (4096 << pg.get_order()), 0);
            }
            va += 4096;
        }
        assert_eq!(seen, area.resident_count());
    }
    assert_eq!(vma.resident_count(), 2);
    assert_eq!(right.resident_count(), 2);
}
