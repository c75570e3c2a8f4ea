use kernel::mm::addr::{Addr, PFN};
use kernel::mm::mm::{FaultKind, MmStruct};
use kernel::mm::vma::{Inode, PopulateStep, VmFlags, VMA, VM_EXEC, VM_READ, VM_WRITE};
use kernel::mm::{alloc_pages, buddy_init, page_init, MmError, PhysMemory};

fn memory(first: usize, pages: usize) -> PhysMemory {
    let mut mem = PhysMemory::new();
    buddy_init(&mut mem, Addr(first * 4096), Addr((first + pages) * 4096));
    page_init(&mut mem, Addr(first * 4096), Addr((first + pages) * 4096));
    mem
}

fn heads(mem: &PhysMemory) -> Vec<Vec<usize>> {
    (0..11)
        .map(|k| {
            let mut h = mem.free_heads(k);
            h.sort();
            h
        })
        .collect()
}

fn anon(mm: &MmStruct, start: usize, end: usize, bits: usize) -> VMA {
    VMA::new_anon(Addr(start), Addr(end), VmFlags { bits }, mm.get_pagetable().root_pfn())
}

fn ranges(mm: &MmStruct) -> Vec<(usize, usize)> {
    (0..mm.len())
        .map(|i| {
            let a = mm.get(i).unwrap();
            (a.get_start_vaddr().0, a.get_end_vaddr().0)
        })
        .collect()
}

#[test]
fn a_new_address_space_is_empty() {
    let mut mem = memory(256, 64);
    let mm = MmStruct::new(&mut mem).unwrap();
    assert_eq!(mm.len(), 0);
    assert!(mm.get(0).is_none());
    assert!(mm.find(Addr(0x1000)).is_none());
    assert_eq!(mm.get_pagetable().root_pfn(), PFN(256));
    let mut none = memory(256, 0);
    assert!(MmStruct::new(&mut none).is_none());
}

#[test]
fn insert_keeps_the_areas_in_order() {
    let mut mem = memory(256, 64);
    let mut mm = MmStruct::new(&mut mem).unwrap();
    for (s, e) in [(0x5000usize, 0x8000usize), (0x1000, 0x2000), (0x9000, 0xa000), (0x2000, 0x5000)] {
        let vma = anon(&mm, s, e, VM_READ);
        assert!(mm.insert(vma).is_ok());
    }
    assert_eq!(ranges(&mm), vec![(0x1000, 0x2000), (0x2000, 0x5000), (0x5000, 0x8000), (0x9000, 0xa000)]);
}

#[test]
fn insert_refuses_an_area_that_overlaps() {
    let mut mem = memory(256, 64);
    let mut mm = MmStruct::new(&mut mem).unwrap();
    assert!(mm.insert(anon(&mm, 0x2000, 0x5000, VM_READ)).is_ok());
    assert!(mm.insert(anon(&mm, 0x8000, 0xa000, VM_READ)).is_ok());
    for (s, e) in [
        (0x1000usize, 0x3000usize),
        (0x2000, 0x5000),
        (0x3000, 0x4000),
        (0x4000, 0x6000),
        (0x1000, 0xb000),
        (0x4000, 0x9000),
        (0x9000, 0x9000),
    ] {
        let vma = anon(&mm, s, e, VM_READ);
        let back = mm.insert(vma).unwrap_err();
        assert_eq!(back.get_start_vaddr(), Addr(s));
        assert_eq!(back.get_end_vaddr(), Addr(e));
        assert_eq!(ranges(&mm), vec![(0x2000, 0x5000), (0x8000, 0xa000)]);
    }
    assert!(mm.insert(anon(&mm, 0x5000, 0x8000, VM_READ)).is_ok());
    assert_eq!(mm.len(), 3);
}

#[test]
fn insert_refuses_an_area_of_another_page_table() {
    let mut mem = memory(256, 64);
    let mut mm = MmStruct::new(&mut mem).unwrap();
    let stranger = VMA::new_anon(Addr(0x1000), Addr(0x2000), VmFlags { bits: VM_READ }, PFN(999));
    assert!(mm.insert(stranger).is_err());
    assert_eq!(mm.len(), 0);
}

#[test]
fn find_returns_the_area_that_holds_the_address() {
    let mut mem = memory(256, 64);
    let mut mm = MmStruct::new(&mut mem).unwrap();
    mm.insert(anon(&mm, 0x2000, 0x5000, VM_READ)).unwrap();
    mm.insert(anon(&mm, 0x5000, 0x6000, VM_WRITE)).unwrap();
    assert!(mm.find(Addr(0x1fff)).is_none());
    assert_eq!(mm.find(Addr(0x2000)).unwrap().get_end_vaddr(), Addr(0x5000));
    assert_eq!(mm.find(Addr(0x4fff)).unwrap().get_start_vaddr(), Addr(0x2000));
    assert_eq!(mm.find(Addr(0x5000)).unwrap().get_start_vaddr(), Addr(0x5000));
    assert!(mm.find(Addr(0x6000)).is_none());
    assert_eq!(mm.find_index(Addr(0x5123)), Some(1));
    assert_eq!(mm.find_index(Addr(0x7000)), None);
}

#[test]
fn areas_never_share_an_address() {
    let mut mem = memory(256, 64);
    let mut mm = MmStruct::new(&mut mem).unwrap();
    for (s, e) in [(0x5000usize, 0x8000usize), (0x1000, 0x2000), (0x7000, 0xa000), (0x2000, 0x5000), (0x0, 0x1000), (0x4000, 0x6000)] {
        let _ = mm.insert(anon(&mm, s, e, VM_READ));
        mm.split_at(Addr(0x3000));
        let r = ranges(&mm);
        for i in 0..r.len() {
            for j in i + 1..r.len() {
                assert!(r[i].1 <= r[j].0);
            }
        }
    }
}

#[test]
fn a_fault_outside_every_area_is_a_segfault() {
    let mut mem = memory(256, 64);
    let mut mm = MmStruct::new(&mut mem).unwrap();
    mm.insert(anon(&mm, 0x2000, 0x5000, VM_READ)).unwrap();
    let before = heads(&mem);
    assert_eq!(mm.handle_fault(&mut mem, Addr(0x1000), FaultKind::Read), Err(MmError::SegFault));
    assert_eq!(mm.handle_fault(&mut mem, Addr(0x5000), FaultKind::Read), Err(MmError::SegFault));
    assert_eq!(heads(&mem), before);
}

#[test]
fn a_fault_that_the_flags_forbid_is_a_protfault() {
    let mut mem = memory(256, 64);
    let mut mm = MmStruct::new(&mut mem).unwrap();
    mm.insert(anon(&mm, 0x2000, 0x5000, VM_READ)).unwrap();
    mm.insert(anon(&mm, 0x5000, 0x6000, VM_WRITE | VM_EXEC)).unwrap();
    let before = heads(&mem);
    assert_eq!(mm.handle_fault(&mut mem, Addr(0x2000), FaultKind::Write), Err(MmError::ProtFault));
    assert_eq!(mm.handle_fault(&mut mem, Addr(0x2000), FaultKind::Exec), Err(MmError::ProtFault));
    assert_eq!(mm.handle_fault(&mut mem, Addr(0x5000), FaultKind::Read), Err(MmError::ProtFault));
    assert_eq!(heads(&mem), before);
    assert_eq!(mm.get_pagetable().walk(Addr(0x2000)), None);
}

#[test]
fn a_fault_is_taken_in_at_the_page_of_the_address() {
    let mut mem = memory(256, 64);
    let mut mm = MmStruct::new(&mut mem).unwrap();
    mm.insert(anon(&mm, 0x2000, 0x5000, VM_READ | VM_WRITE)).unwrap();
    assert_eq!(mm.handle_fault(&mut mem, Addr(0x3abc), FaultKind::Write), Ok(PopulateStep::Done));
    let leaf = mm.get_pagetable().walk(Addr(0x3000)).unwrap();
    assert_eq!(leaf.1, 7);
    assert!(mm.find(Addr(0x3000)).unwrap()._vaddr_have_map(Addr(0x3000)));
    assert!(mm.find(Addr(0x3000)).unwrap().is_dirty());
    assert_eq!(mm.handle_fault(&mut mem, Addr(0x3008), FaultKind::Read), Ok(PopulateStep::Done));
    assert_eq!(mm.get_pagetable().walk(Addr(0x3000)), Some(leaf));
}

#[test]
fn a_fault_without_memory_is_out_of_memory() {
    let mut mem = memory(256, 2);
    let mut mm = MmStruct::new(&mut mem).unwrap();
    mm.insert(anon(&mm, 0x2000, 0x5000, VM_READ)).unwrap();
    assert_eq!(mm.handle_fault(&mut mem, Addr(0x2000), FaultKind::Read), Err(MmError::OutOfMemory));
}

#[test]
fn a_fault_in_a_file_area_is_finished_with_the_bytes() {
    let mut mem = memory(256, 64);
    let mut mm = MmStruct::new(&mut mem).unwrap();
    let root = mm.get_pagetable().root_pfn();
    let area = VMA::new_file(Addr(0x10000), Addr(0x12000), VmFlags { bits: VM_READ }, root, Inode { ino: 4 }, 0x1000);
    mm.insert(area).unwrap();
    let step = mm.handle_fault(&mut mem, Addr(0x11234), FaultKind::Read).unwrap();
    match step {
        PopulateStep::Read { page, inode, off } => {
            assert_eq!(inode, Inode { ino: 4 });
            assert_eq!(off, 0x2000);
            assert_eq!(mm.handle_fault_finish(&mut mem, Addr(0x11234), page, b"abc"), Ok(()));
        }
        PopulateStep::Done => panic!("a file area asks for its bytes"),
    }
    let pfn = mm.get_pagetable().walk(Addr(0x11000)).unwrap().0;
    assert_eq!(&mem.read_allocated(pfn).unwrap()[..4], b"abc\0");
    // a frame for an address in no area is given up
    let before = heads(&mem);
    let spare = alloc_pages(&mut mem, 0).unwrap();
    assert_eq!(mm.handle_fault_finish(&mut mem, Addr(0x20000), spare, b"abc"), Err(MmError::SegFault));
    assert_eq!(heads(&mem), before);
}

#[test]
fn split_at_parts_the_area_that_holds_the_address() {
    let mut mem = memory(256, 64);
    let mut mm = MmStruct::new(&mut mem).unwrap();
    mm.insert(anon(&mm, 0x2000, 0x8000, VM_READ)).unwrap();
    mm.insert(anon(&mm, 0x9000, 0xa000, VM_READ)).unwrap();
    mm.split_at(Addr(0x5000));
    assert_eq!(ranges(&mm), vec![(0x2000, 0x5000), (0x5000, 0x8000), (0x9000, 0xa000)]);
    for v in [0x5000usize, 0x2000, 0x8000, 0x8800, 0x9800, 0x100000] {
        mm.split_at(Addr(v));
        assert_eq!(ranges(&mm), vec![(0x2000, 0x5000), (0x5000, 0x8000), (0x9000, 0xa000)]);
    }
}

#[test]
fn remove_range_takes_out_what_lies_inside() {
    let mut mem = memory(256, 64);
    let mut mm = MmStruct::new(&mut mem).unwrap();
    let before = heads(&mem);
    mm.insert(anon(&mm, 0x2000, 0x8000, VM_READ | VM_WRITE)).unwrap();
    mm.insert(anon(&mm, 0x9000, 0xa000, VM_READ)).unwrap();
    mm.insert(anon(&mm, 0xa000, 0xe000, VM_READ)).unwrap();
    for va in [0x2000usize, 0x4000, 0x6000, 0x7000, 0x9000, 0xb000, 0xd000] {
        assert_eq!(mm.handle_fault(&mut mem, Addr(va), FaultKind::Read), Ok(PopulateStep::Done));
    }
    let wbs = mm.remove_range(&mut mem, Addr(0x5000), Addr(0xc000));
    assert!(wbs.is_empty());
    assert_eq!(ranges(&mm), vec![(0x2000, 0x5000), (0xc000, 0xe000)]);
    let pt = mm.get_pagetable();
    for va in [0x2000usize, 0x4000, 0xd000] {
        assert!(pt.walk(Addr(va)).is_some());
    }
    for va in [0x6000usize, 0x7000, 0x9000, 0xb000] {
        assert!(pt.walk(Addr(va)).is_none());
    }
    assert_eq!(mm.find(Addr(0x4000)).unwrap().resident_count(), 2);
    assert_eq!(mm.find(Addr(0xd000)).unwrap().resident_count(), 1);
    let rest = mm.remove_range(&mut mem, Addr(0), Addr(0x10000));
    assert!(rest.is_empty());
    assert_eq!(mm.len(), 0);
    assert_eq!(heads(&mem), before);
}

#[test]
fn remove_range_returns_what_is_to_be_written_back() {
    let mut mem = memory(256, 64);
    let mut mm = MmStruct::new(&mut mem).unwrap();
    let root = mm.get_pagetable().root_pfn();
    let area = VMA::new_file(Addr(0x10000), Addr(0x14000), VmFlags { bits: VM_READ | VM_WRITE }, root, Inode { ino: 4 }, 0);
    mm.insert(area).unwrap();
    for (va, byte) in [(0x10000usize, 1u8), (0x12000, 2), (0x13000, 3)] {
        match mm.handle_fault(&mut mem, Addr(va), FaultKind::Write).unwrap() {
            PopulateStep::Read { page, .. } => {
                mm.handle_fault_finish(&mut mem, Addr(va), page, &[byte; 8]).unwrap();
            }
            PopulateStep::Done => panic!("a file area asks for its bytes"),
        }
    }
    let wbs = mm.remove_range(&mut mem, Addr(0x12000), Addr(0x14000));
    assert_eq!(wbs.len(), 2);
    assert_eq!(wbs[0].off, 0x2000);
    assert_eq!(&wbs[0].data[..9], &[2, 2, 2, 2, 2, 2, 2, 2, 0]);
    assert_eq!(wbs[1].off, 0x3000);
    assert_eq!(wbs[1].data[0], 3);
    assert_eq!(ranges(&mm), vec![(0x10000, 0x12000)]);
    assert_eq!(mm.find(Addr(0x10000)).unwrap().resident_count(), 1);
}

#[test]
fn remove_range_keeps_an_area_that_it_cannot_split() {
    let mut mem = memory(256, 64);
    let mut mm = MmStruct::new(&mut mem).unwrap();
    mm.insert(anon(&mm, 0x2000, 0x8000, VM_READ)).unwrap();
    mm.handle_fault(&mut mem, Addr(0x3000), FaultKind::Read).unwrap();
    // the bounds are not page aligned: nothing lies inside
    let wbs = mm.remove_range(&mut mem, Addr(0x2800), Addr(0x7800));
    assert!(wbs.is_empty());
    assert_eq!(ranges(&mm), vec![(0x2000, 0x8000)]);
    assert!(mm.get_pagetable().walk(Addr(0x3000)).is_some());
}

#[test]
fn fork_copies_anonymous_pages_and_shares_files() {
    let mut mem = memory(256, 128);
    let mut parent = MmStruct::new(&mut mem).unwrap();
    let mut child = MmStruct::new(&mut mem).unwrap();
    let root = parent.get_pagetable().root_pfn();
    parent.insert(anon(&parent, 0x2000, 0x8000, VM_READ | VM_WRITE)).unwrap();
    parent.insert(anon(&parent, 0x9000, 0xa000, VM_READ)).unwrap();
    let file = VMA::new_file(Addr(0x10000), Addr(0x14000), VmFlags { bits: VM_READ | VM_WRITE }, root, Inode { ino: 4 }, 0x1000);
    parent.insert(file).unwrap();
    for (va, byte) in [(0x3000usize, 0x33u8), (0x6000, 0x66), (0x9000, 0x99)] {
        parent.handle_fault(&mut mem, Addr(va), FaultKind::Read).unwrap();
        let pfn = parent.get_pagetable().walk(Addr(va)).unwrap().0;
        assert!(mem.write_frame(pfn, 7, &[byte; 3]));
    }
    match parent.handle_fault(&mut mem, Addr(0x11000), FaultKind::Write).unwrap() {
        PopulateStep::Read { page, .. } => {
            parent.handle_fault_finish(&mut mem, Addr(0x11000), page, &[1, 2, 3]).unwrap();
        }
        PopulateStep::Done => panic!("a file area asks for its bytes"),
    }
    assert_eq!(parent.fork_into(&mut mem, &mut child), Ok(()));
    assert_eq!(ranges(&child), ranges(&parent));
    for i in 0..3 {
        let (p, c) = (parent.get(i).unwrap(), child.get(i).unwrap());
        assert_eq!(c.get_pagetable(), child.get_pagetable().root_pfn());
        assert_ne!(c.get_pagetable(), p.get_pagetable());
        assert_eq!(c.get_file_inode(), p.get_file_inode());
        assert_eq!(c.get_file_off(), p.get_file_off());
    }
    assert_eq!(child.get(0).unwrap().get_flags(), parent.get(0).unwrap().get_flags());
    assert!(parent.get(2).unwrap().is_dirty());
    assert!(!child.get(2).unwrap().is_dirty());
    assert_eq!(child.get(2).unwrap().get_flags().bits, VM_READ | VM_WRITE);
    assert_eq!(child.get(2).unwrap().resident_count(), 0);
    assert_eq!(child.get_pagetable().walk(Addr(0x11000)), None);
    for (va, byte) in [(0x3000usize, 0x33u8), (0x6000, 0x66), (0x9000, 0x99)] {
        let (ppfn, pflags) = parent.get_pagetable().walk(Addr(va)).unwrap();
        let (cpfn, cflags) = child.get_pagetable().walk(Addr(va)).unwrap();
        assert_ne!(ppfn, cpfn);
        assert_eq!(pflags, cflags);
        let bytes = mem.read_allocated(cpfn).unwrap();
        assert_eq!(bytes, mem.read_allocated(ppfn).unwrap());
        assert_eq!(&bytes[6..11], &[0, byte, byte, byte, 0]);
        assert_eq!(child.find(Addr(va)).unwrap()._find_page(Addr(va)).unwrap().get_pfn(), cpfn);
        // the copy is the child's own
        assert!(mem.write_frame(cpfn, 0, &[0xee]));
        assert_eq!(mem.read_allocated(ppfn).unwrap()[0], 0);
    }
    assert_eq!(child.get_pagetable().walk(Addr(0x4000)), None);
}

#[test]
fn fork_without_memory_leaves_the_destination_empty() {
    let mut mem = memory(256, 12);
    let mut parent = MmStruct::new(&mut mem).unwrap();
    let mut child = MmStruct::new(&mut mem).unwrap();
    parent.insert(anon(&parent, 0x2000, 0x8000, VM_READ | VM_WRITE)).unwrap();
    parent.insert(anon(&parent, 0x9000, 0xa000, VM_READ)).unwrap();
    for va in [0x3000usize, 0x4000, 0x5000, 0x6000, 0x9000] {
        parent.handle_fault(&mut mem, Addr(va), FaultKind::Read).unwrap();
    }
    // 12 frames: two roots, two tables, five pages; three are free, and the
    // copy needs two tables and five pages
    let before = heads(&mem);
    assert_eq!(parent.fork_into(&mut mem, &mut child), Err(MmError::OutOfMemory));
    assert_eq!(child.len(), 0);
    assert_eq!(child.get_pagetable().walk(Addr(0x3000)), None);
    assert_eq!(child.get_pagetable().mid_frame(0), None);
    assert_eq!(heads(&mem), before);
    assert_eq!(parent.len(), 2);
    assert!(parent.get_pagetable().walk(Addr(0x9000)).is_some());
}
