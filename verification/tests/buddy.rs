use kernel::mm::addr::{Addr, PFN};
use kernel::mm::buddy::{BuddyAllocator, BuddyError};

fn arena(first: usize, pages: usize) -> BuddyAllocator {
    let mut b = BuddyAllocator::new();
    b.init(Addr(first * 4096), Addr((first + pages) * 4096));
    b
}

fn heads(b: &BuddyAllocator) -> Vec<Vec<usize>> {
    (0..11)
        .map(|k| {
            let mut h = b.free_heads(k);
            h.sort();
            h
        })
        .collect()
}

fn free_frames(b: &BuddyAllocator) -> usize {
    (0..11).map(|k| b.free_heads(k).len() << k).sum()
}

#[test]
fn new_allocator_manages_nothing() {
    let mut b = BuddyAllocator::new();
    assert_eq!(b.start_pfn(), PFN(0));
    assert_eq!(b.end_pfn(), PFN(0));
    assert_eq!(free_frames(&b), 0);
    assert_eq!(b.alloc_area(0), Err(BuddyError::OutOfMemory));
}

#[test]
fn init_covers_arena_with_one_run() {
    let b = arena(0, 16);
    for k in 0..11 {
        let h = b.free_heads(k);
        if k == 4 {
            assert_eq!(h, vec![0]);
        } else {
            assert!(h.is_empty());
        }
    }
}

#[test]
fn init_takes_the_largest_aligned_runs() {
    // frames 3..21: 3 | 4..8 | 8..16 | 16..20 | 20
    let b = arena(3, 18);
    assert_eq!(b.start_pfn(), PFN(3));
    assert_eq!(b.end_pfn(), PFN(21));
    let h = heads(&b);
    assert_eq!(h[0], vec![3, 20]);
    assert_eq!(h[1], Vec::<usize>::new());
    assert_eq!(h[2], vec![4, 16]);
    assert_eq!(h[3], vec![8]);
    assert_eq!(free_frames(&b), 18);
}

#[test]
fn init_caps_runs_at_the_top_order() {
    let b = arena(0, 4096);
    let h = heads(&b);
    assert_eq!(h[10], vec![0, 1024, 2048, 3072]);
    for k in 0..10 {
        assert!(h[k].is_empty());
    }
}

#[test]
fn split_then_merge() {
    let mut b = arena(0, 16);
    assert_eq!(b.alloc_area(0), Ok(PFN(0)));
    assert_eq!(b.free_heads(0), vec![1]);
    assert_eq!(b.free_heads(1), vec![2]);
    assert_eq!(b.free_heads(2), vec![4]);
    assert_eq!(b.free_heads(3), vec![8]);
    assert!(b.free_heads(4).is_empty());
    assert_eq!(b.alloc_area(0), Ok(PFN(1)));
    assert!(b.free_heads(0).is_empty());
    b.free_area(PFN(0), 0);
    assert_eq!(b.free_heads(0), vec![0]);
    b.free_area(PFN(1), 0);
    // the two frames merge, and the merged run goes on merging with its
    // free buddies up to the run that the arena started as
    assert!(b.free_heads(0).is_empty());
    assert!(b.free_heads(1).is_empty());
    assert!(b.free_heads(2).is_empty());
    assert!(b.free_heads(3).is_empty());
    assert_eq!(b.free_heads(4), vec![0]);
}

#[test]
fn merge_stops_at_a_buddy_in_use() {
    let mut b = arena(0, 16);
    assert_eq!(b.alloc_area(0), Ok(PFN(0)));
    assert_eq!(b.alloc_area(0), Ok(PFN(1)));
    assert_eq!(b.alloc_area(0), Ok(PFN(2)));
    b.free_area(PFN(0), 0);
    b.free_area(PFN(1), 0);
    // 0 and 1 merge to a run of order 1; its buddy at 2 is in use
    let h = heads(&b);
    assert_eq!(h[0], vec![3]);
    assert_eq!(h[1], vec![0]);
    assert_eq!(h[2], vec![4]);
    assert_eq!(h[3], vec![8]);
}

#[test]
fn alloc_takes_the_lowest_run_of_the_first_order_that_has_one() {
    let mut b = arena(0, 16);
    for _ in 0..16 {
        b.alloc_area(0).unwrap();
    }
    b.free_area(PFN(9), 0);
    b.free_area(PFN(5), 0);
    b.free_area(PFN(12), 0);
    b.free_area(PFN(13), 0);
    // order 0 holds 9 and 5, order 1 holds 12
    assert_eq!(b.alloc_area(0), Ok(PFN(5)));
    assert_eq!(b.alloc_area(0), Ok(PFN(9)));
    assert_eq!(b.alloc_area(0), Ok(PFN(12)));
    assert_eq!(b.alloc_area(0), Ok(PFN(13)));
    assert_eq!(b.alloc_area(0), Err(BuddyError::OutOfMemory));
}

#[test]
fn alloc_of_an_order_returns_an_aligned_run() {
    let mut b = arena(3, 61);
    for order in [3usize, 0, 2, 1, 4, 2] {
        let p = b.alloc_area(order).unwrap();
        assert_eq!(p.0 % (1 << order), 0);
        assert!(p.0 >= 3 && p.0 + (1 << order) <= 64);
    }
}

#[test]
fn alloc_fails_for_an_order_that_is_none() {
    let mut b = arena(0, 4096);
    let before = heads(&b);
    assert_eq!(b.alloc_area(11), Err(BuddyError::OutOfMemory));
    assert_eq!(b.alloc_area(usize::MAX), Err(BuddyError::OutOfMemory));
    assert_eq!(heads(&b), before);
}

#[test]
fn alloc_fails_when_no_run_is_large_enough() {
    let mut b = arena(0, 16);
    let before = heads(&b);
    assert_eq!(b.alloc_area(5), Err(BuddyError::OutOfMemory));
    assert_eq!(heads(&b), before);
    assert_eq!(b.alloc_area(4), Ok(PFN(0)));
    assert_eq!(b.alloc_area(0), Err(BuddyError::OutOfMemory));
}

#[test]
fn free_lists_hold_aligned_runs_that_do_not_overlap() {
    let mut b = arena(5, 200);
    let mut held: Vec<(usize, usize)> = Vec::new();
    for (n, order) in [0usize, 3, 1, 0, 2, 4, 0, 1, 5, 0, 2].iter().enumerate() {
        if let Ok(p) = b.alloc_area(*order) {
            held.push((p.0, *order));
        }
        if n % 3 == 2 {
            let (p, k) = held.remove(0);
            b.free_area(PFN(p), k);
        }
        let mut seen = vec![false; 205];
        for k in 0..11 {
            for h in b.free_heads(k) {
                assert_eq!(h % (1 << k), 0);
                for f in h..h + (1 << k) {
                    assert!(f >= 5 && f < 205);
                    assert!(!seen[f]);
                    seen[f] = true;
                }
            }
        }
        for (p, k) in held.iter() {
            for f in *p..*p + (1 << *k) {
                assert!(!seen[f]);
                seen[f] = true;
            }
        }
        assert!(seen[5..].iter().all(|s| *s));
    }
}

#[test]
fn alloc_then_free_restores_the_free_runs() {
    let mut b = arena(3, 61);
    let a = b.alloc_area(2).unwrap();
    let c = b.alloc_area(0).unwrap();
    b.alloc_area(1).unwrap();
    b.free_area(a, 2);
    b.free_area(c, 0);
    for order in 0..7 {
        let before = heads(&b);
        match b.alloc_area(order) {
            Ok(p) => {
                b.free_area(p, order);
                assert_eq!(heads(&b), before);
            }
            Err(_) => assert_eq!(heads(&b), before),
        }
    }
}

#[test]
fn init_again_forgets_what_was_listed() {
    let mut b = arena(0, 16);
    b.alloc_area(0).unwrap();
    b.init(Addr(0x8000), Addr(0xa000));
    assert_eq!(b.start_pfn(), PFN(8));
    assert_eq!(b.end_pfn(), PFN(10));
    let h = heads(&b);
    assert_eq!(h[1], vec![8]);
    assert_eq!(free_frames(&b), 2);
}
