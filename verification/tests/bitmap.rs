use lib::mm::bitmap::{bitmap_region, Bitmap};
use lib::mm::free_list::FreeList;
use lib::mm::{LimineMemMapEntry, PhyAddr};

const HHDM: u64 = 0xFFFF_8000_0000_0000;

fn small_map() -> Vec<LimineMemMapEntry> {
    vec![
        LimineMemMapEntry { base: 0, length: 0x1000, etype: 1 },
        LimineMemMapEntry { base: 0x1000, length: 0x10000, etype: 0 },
    ]
}

#[test]
fn bitmap_set_clear_and_test() {
    let mut b = Bitmap { data: vec![0u8; 2], addr: 0 };
    b.set(3);
    assert_eq!(b.data, vec![8u8, 0]);
    assert!(b.is_used(3));
    assert!(!b.is_used(2));
    b.set(9);
    assert_eq!(b.data, vec![8u8, 2]);
    b.clear(3);
    assert_eq!(b.data, vec![0u8, 2]);
    assert!(!b.is_used(3));
    assert!(b.is_used(9));
}

#[test]
fn bitmap_clear_keeps_other_bits() {
    let mut b = Bitmap { data: vec![0xFFu8], addr: 0 };
    b.clear(7);
    assert_eq!(b.data, vec![0x7Fu8]);
    b.set(7);
    assert_eq!(b.data, vec![0xFFu8]);
}

#[test]
fn page_index_and_address() {
    assert_eq!(Bitmap::addr_to_index(0x5123), 5);
    assert_eq!(Bitmap::addr_to_index(0xFFF), 0);
    assert_eq!(Bitmap::index_to_addr(7), 0x7000);
    assert_eq!(Bitmap::index_to_addr(0), 0);
}

#[test]
fn page_index_address_round_trip() {
    for i in [0usize, 1, 7, 0x12345] {
        assert_eq!(Bitmap::addr_to_index(Bitmap::index_to_addr(i)), i);
    }
    for a in [0u64, 0xFFF, 0x1000, 0x5123, 0xDEAD_BEEF] {
        let start = Bitmap::index_to_addr(Bitmap::addr_to_index(a));
        assert!(start <= a && a < start + 0x1000);
    }
}

#[test]
fn search_finds_lowest_run() {
    // pages 0 and 2 used
    let b = Bitmap { data: vec![0b0000_0101u8], addr: 0 };
    assert_eq!(b.search_free_ranges(1, 8), Some(1));
    assert_eq!(b.search_free_ranges(2, 8), Some(3));
    assert_eq!(b.search_free_ranges(5, 8), Some(3));
    assert_eq!(b.search_free_ranges(6, 8), None);
    assert_eq!(b.search_free_ranges(2, 4), None);
    assert_eq!(b.search_free_ranges(1, 0), None);
}

#[test]
fn search_for_no_pages_stops_at_first_page() {
    let used_first = Bitmap { data: vec![0b0000_0001u8], addr: 0 };
    assert_eq!(used_first.search_free_ranges(0, 8), Some(1));
    let free_first = Bitmap { data: vec![0b0000_0010u8], addr: 0 };
    assert_eq!(free_first.search_free_ranges(0, 8), Some(0));
    assert_eq!(free_first.search_free_ranges(0, 0), None);
}

#[test]
fn bitmap_from_memory_map() {
    let b = Bitmap::from_memory_map(&small_map(), HHDM, 17);
    // page 0 reserved, page 1 holds the bitmap, pages 2..=16 free, 17.. beyond usable memory
    assert_eq!(b.data, vec![0b0000_0011u8, 0x00, 0xFE]);
    // the bytes live at the start of the usable region, in the direct map
    assert_eq!(b.addr, HHDM + 0x1000);
}

#[test]
fn bitmap_needs_a_large_enough_usable_region() {
    let map = vec![
        LimineMemMapEntry { base: 0, length: 0x1000, etype: 1 },
        LimineMemMapEntry { base: 0x1000, length: 2, etype: 0 },
    ];
    assert_eq!(bitmap_region(&map, 17), None);
    assert_eq!(bitmap_region(&small_map(), 17), Some(1));
}

#[test]
fn bitmap_reserved_region_marks_up_to_total() {
    let map = vec![
        LimineMemMapEntry { base: 0x1000, length: 0x4000, etype: 0 },
        LimineMemMapEntry { base: 0x3000, length: 0x1000, etype: 2 },
    ];
    // 5 pages, one byte; page 1 holds the bitmap, page 3 is reserved
    let b = Bitmap::from_memory_map(&map, HHDM, 5);
    assert_eq!(b.data, vec![0b1110_1011u8]);
}

#[test]
fn free_list_from_bitmap_is_ascending() {
    let b = Bitmap::from_memory_map(&small_map(), HHDM, 17);
    let l = FreeList::from_bitmap(&b, 17);
    let expected: Vec<u64> = (2u64..=16).map(|i| i * 0x1000).collect();
    assert_eq!(l.pages(), expected);
}

#[test]
fn free_list_includes_the_page_at_total() {
    // pages 2 and 4 free; page 4 is the page at the total
    let b = Bitmap { data: vec![0b1110_1011u8], addr: 0 };
    let l = FreeList::from_bitmap(&b, 4);
    assert_eq!(l.pages(), vec![0x2000u64, 0x4000]);
}

#[test]
fn free_list_get_and_put() {
    let mut l = FreeList::new();
    assert_eq!(l.get(), None);
    l.put(PhyAddr(0x5000));
    l.put(PhyAddr(0x9000));
    assert_eq!(l.get(), Some(PhyAddr(0x9000)));
    assert_eq!(l.get(), Some(PhyAddr(0x5000)));
    assert_eq!(l.get(), None);
}
