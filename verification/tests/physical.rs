use lib::mm::physical::{init, init_check, PhysMemAllocator};
use lib::mm::{LimineMemMapEntry, PhyAddr};

const HHDM: u64 = 0xFFFF_8000_0000_0000;

fn small_map() -> Vec<LimineMemMapEntry> {
    vec![
        LimineMemMapEntry { base: 0, length: 0x1000, etype: 1 },
        LimineMemMapEntry { base: 0x1000, length: 0x10000, etype: 0 },
    ]
}

fn booted() -> PhysMemAllocator {
    assert!(init_check(0x11000, &small_map(), HHDM));
    init(0x11000, &small_map(), HHDM)
}

#[test]
fn new_allocator_is_empty() {
    let mut a = PhysMemAllocator::new();
    assert_eq!(a.total_pages(), 0);
    assert_eq!(a.free_pages(), 0);
    assert_eq!(a.used_pages(), 0);
    assert_eq!(a.alloc_page(), None);
    assert_eq!(a.free_list_pages(), None);
}

#[test]
fn init_counts_pages() {
    let a = booted();
    assert_eq!(a.total_pages(), 17);
    assert_eq!(a.free_pages(), 15);
    assert_eq!(a.used_pages(), 2);
    assert_eq!(a.page_is_used(0), Some(true));
    assert_eq!(a.page_is_used(1), Some(true));
    assert_eq!(a.page_is_used(2), Some(false));
    assert_eq!(a.page_is_used(17), Some(true));
    assert_eq!(a.page_is_used(24), None);
    let expected: Vec<u64> = (2u64..=16).map(|i| i * 0x1000).collect();
    assert_eq!(a.free_list_pages(), Some(expected));
    assert_eq!(a.bitmap_addr(), Some(HHDM + 0x1000));
}

#[test]
fn init_without_free_page_fails() {
    let map = vec![
        LimineMemMapEntry { base: 0, length: 0x1000, etype: 1 },
        LimineMemMapEntry { base: 0x1000, length: 0x1000, etype: 0 },
    ];
    assert!(!init_check(0x11000, &map, HHDM));
}

#[test]
fn init_without_room_for_the_bitmap_fails() {
    let map = vec![LimineMemMapEntry { base: 0, length: 0x11000, etype: 1 }];
    assert!(!init_check(0x11000, &map, HHDM));
}

#[test]
fn alloc_takes_pages_in_order() {
    let mut a = booted();
    assert_eq!(a.alloc_page(), Some(PhyAddr(0x2000)));
    assert_eq!(a.alloc_page(), Some(PhyAddr(0x3000)));
    assert_eq!(a.free_pages(), 13);
    assert_eq!(a.used_pages(), 4);
    assert_eq!(a.page_is_used(2), Some(true));
    assert_eq!(a.page_is_used(3), Some(true));
}

#[test]
fn freed_page_is_allocated_again() {
    let mut a = booted();
    let p1 = a.alloc_page().unwrap();
    let p2 = a.alloc_page().unwrap();
    a.free_page(p2);
    assert_eq!(a.page_is_used(3), Some(false));
    assert_eq!(a.alloc_page(), Some(p2));
    a.free_page(p2);
    a.free_page(p1);
    // the self test of boot leaves the allocator as it found it
    let fresh = booted();
    assert_eq!(a.free_pages(), fresh.free_pages());
    assert_eq!(a.used_pages(), fresh.used_pages());
    assert_eq!(a.free_list_pages(), fresh.free_list_pages());
}

#[test]
fn free_undoes_alloc() {
    let mut a = booted();
    let before = (a.free_pages(), a.used_pages(), a.free_list_pages());
    let p = a.alloc_page().unwrap();
    a.free_page(p);
    assert_eq!((a.free_pages(), a.used_pages(), a.free_list_pages()), before);
}

#[test]
fn alloc_until_exhausted() {
    let mut a = booted();
    let mut got = Vec::new();
    for _ in 0..15 {
        got.push(a.alloc_page().unwrap().0);
    }
    let expected: Vec<u64> = (2u64..=16).map(|i| i * 0x1000).collect();
    assert_eq!(got, expected);
    assert_eq!(a.free_pages(), 0);
    assert_eq!(a.alloc_page(), None);
    assert_eq!(a.used_pages(), 17);
}

#[test]
fn freeing_a_reserved_page_makes_it_allocatable() {
    let mut a = booted();
    a.free_page(PhyAddr(0));
    assert_eq!(a.free_pages(), 16);
    assert_eq!(a.alloc_page(), Some(PhyAddr(0)));
}

#[test]
fn next_page_is_what_alloc_page_hands_out() {
    let mut a = booted();
    for _ in 0..20 {
        let next = a.next_page();
        let addr = a.bitmap_addr();
        assert_eq!(a.alloc_page(), next);
        assert_eq!(a.bitmap_addr(), addr);
    }
    assert_eq!(a.next_page(), None);
}

fn counts_match(a: &PhysMemAllocator) {
    let total = a.total_pages() as usize;
    let free: Vec<u64> = (0..total).filter(|&i| a.page_is_used(i) == Some(false)).map(|i| i as u64 * 0x1000).collect();
    assert_eq!(a.free_pages() as usize, free.len());
    assert_eq!(a.free_pages() + a.used_pages(), a.total_pages());
    if let Some(mut list) = a.free_list_pages() {
        list.sort();
        assert_eq!(list, free);
    }
}

#[test]
fn allocation_keeps_counts_and_list_exact() {
    let mut a = booted();
    counts_match(&a);
    let p = a.alloc_page().unwrap();
    counts_match(&a);
    let q = a.alloc_page().unwrap();
    counts_match(&a);
    a.free_page(p);
    counts_match(&a);
    a.free_page(q);
    counts_match(&a);
}
