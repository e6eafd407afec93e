use lib::mm::paging::PhysMemory;
use lib::mm::physical::{self, PhysMemAllocator};
use lib::mm::slab::ffi::{Heap, ReallocStep};
use lib::mm::slab::{size_to_class_index, SlabClass, SlabHeader, HEADER_MAGIC};
use lib::mm::{LimineMemMapEntry, VirtAddr};

const HHDM: u64 = 0xFFFF_8000_0000_0000;

fn allocator() -> PhysMemAllocator {
    let map = vec![
        LimineMemMapEntry { base: 0, length: 0x1000, etype: 1 },
        LimineMemMapEntry { base: 0x1000, length: 0x10000, etype: 0 },
    ];
    physical::init(0x11000, &map, HHDM)
}

#[test]
fn class_index_for_sizes() {
    assert_eq!(size_to_class_index(0), Some(0));
    assert_eq!(size_to_class_index(1), Some(0));
    assert_eq!(size_to_class_index(8), Some(0));
    assert_eq!(size_to_class_index(9), Some(1));
    assert_eq!(size_to_class_index(16), Some(1));
    assert_eq!(size_to_class_index(17), Some(2));
    assert_eq!(size_to_class_index(100), Some(4));
    assert_eq!(size_to_class_index(1025), Some(8));
    assert_eq!(size_to_class_index(2048), Some(8));
    assert_eq!(size_to_class_index(2049), None);
    assert_eq!(size_to_class_index(usize::MAX), None);
}

#[test]
fn class_sizes_and_slots() {
    let c0 = SlabClass::new(0);
    assert_eq!((c0.class_size(), c0.total_slot()), (8, 506));
    let c4 = SlabClass::new(4);
    assert_eq!((c4.class_size(), c4.total_slot()), (128, 31));
    let c8 = SlabClass::new(8);
    assert_eq!((c8.class_size(), c8.total_slot()), (2048, 1));
    assert_eq!((c8.partial_len(), c8.full_len()), (0, 0));
}

#[test]
fn slab_page_layout_from_the_top() {
    let mut h = SlabHeader::from_page(VirtAddr(0x10000), 512, 7);
    assert_eq!(h.page(), 0x10000);
    assert_eq!(h.used_slots(), 0);
    assert_eq!(h.slab_class(), 512);
    assert_eq!(h.header_magic(), HEADER_MAGIC);
    let mut got = Vec::new();
    while let Some(s) = h.pop_slot() {
        got.push(s);
    }
    assert_eq!(got, vec![0x10E00, 0x10C00, 0x10A00, 0x10800, 0x10600, 0x10400, 0x10200]);
    assert_eq!(h.used_slots(), 7);
    h.push_slot(0x10600);
    assert_eq!(h.used_slots(), 6);
    assert_eq!(h.pop_slot(), Some(0x10600));
}

#[test]
fn class_alloc_and_free_pages() {
    let mut a = allocator();
    let mut c = SlabClass::new(8);
    let p = c.alloc_slot(&mut a, HHDM).unwrap();
    assert_eq!(p, HHDM + 0x2000 + 0x1000 - 2048);
    assert_eq!((c.partial_len(), c.full_len()), (0, 1));
    assert_eq!(a.free_pages(), 14);
    c.free(p, &mut a, HHDM);
    assert_eq!((c.partial_len(), c.full_len()), (0, 0));
    assert_eq!(a.free_pages(), 15);
}

#[test]
fn kmalloc_small_slots() {
    let mut a = allocator();
    let mut heap = Heap::new();
    assert_eq!(heap.kmalloc(0, &mut a, HHDM), Some(0));
    let p1 = heap.kmalloc(10, &mut a, HHDM).unwrap();
    let p2 = heap.kmalloc(16, &mut a, HHDM).unwrap();
    assert_eq!(p1, HHDM + 0x2FF0);
    assert_eq!(p2, HHDM + 0x2FE0);
    assert_eq!(heap.slab_counts(1), (1, 0));
    assert_eq!(heap.class_size(1), 16);
    heap.kfree(p2, &mut a, HHDM);
    assert_eq!(a.free_pages(), 14);
    heap.kfree(p1, &mut a, HHDM);
    assert_eq!(heap.slab_counts(1), (0, 0));
    assert_eq!(a.free_pages(), 15);
    heap.kfree(0, &mut a, HHDM);
    assert_eq!(a.free_pages(), 15);
}

#[test]
fn kfree_undoes_kmalloc() {
    let mut a = allocator();
    let mut heap = Heap::new();
    let keep = heap.kmalloc(40, &mut a, HHDM).unwrap();
    let p = heap.kmalloc(40, &mut a, HHDM).unwrap();
    heap.kfree(p, &mut a, HHDM);
    assert_eq!(heap.kmalloc(40, &mut a, HHDM), Some(p));
    assert_ne!(keep, p);
}

#[test]
fn kfree_undoes_kmalloc_on_a_new_slab() {
    let mut a = allocator();
    let list_before = a.free_list_pages();
    let free_before = a.free_pages();
    let mut heap = Heap::new();
    let p = heap.kmalloc(100, &mut a, HHDM).unwrap();
    assert_eq!(heap.slab_counts(4), (1, 0));
    heap.kfree(p, &mut a, HHDM);
    assert_eq!(heap.slab_counts(4), (0, 0));
    assert_eq!(a.free_pages(), free_before);
    assert_eq!(a.free_list_pages(), list_before);
    assert_eq!(a.page_is_used(2), Some(false));
}

#[test]
fn kfree_undoes_large_kmalloc() {
    let mut a = allocator();
    let list_before = a.free_list_pages();
    let mut heap = Heap::new();
    let p = heap.kmalloc(4000, &mut a, HHDM).unwrap();
    heap.kfree(p, &mut a, HHDM);
    assert_eq!(heap.large_count(), 0);
    assert_eq!(a.free_list_pages(), list_before);
}

#[test]
fn kmalloc_large_block() {
    let mut a = allocator();
    let mut heap = Heap::new();
    let p = heap.kmalloc(3000, &mut a, HHDM).unwrap();
    assert_eq!(p, HHDM + 0x2000 + 32);
    assert_eq!(heap.large_count(), 1);
    assert_eq!(a.free_pages(), 14);
    heap.kfree(p, &mut a, HHDM);
    assert_eq!(heap.large_count(), 0);
    assert_eq!(a.free_pages(), 15);
    assert_eq!(a.alloc_page().unwrap().0, 0x2000);
}

#[test]
fn kmalloc_full_class_moves_slab() {
    let mut a = allocator();
    let mut heap = Heap::new();
    let p = heap.kmalloc(2000, &mut a, HHDM).unwrap();
    assert_eq!(heap.slab_counts(8), (0, 1));
    let q = heap.kmalloc(2048, &mut a, HHDM).unwrap();
    assert_eq!(heap.slab_counts(8), (0, 2));
    assert_eq!(q, HHDM + 0x3800);
    heap.kfree(p, &mut a, HHDM);
    assert_eq!(heap.slab_counts(8), (0, 1));
}

#[test]
fn krealloc_steps() {
    let mut a = allocator();
    let mut heap = Heap::new();
    let p = match heap.krealloc(0, 20, &mut a, HHDM) {
        Some(ReallocStep::Allocated(p)) => p,
        _ => panic!("expected an allocation"),
    };
    assert!(matches!(heap.krealloc(p, 32, &mut a, HHDM), Some(ReallocStep::Kept)));
    match heap.krealloc(p, 100, &mut a, HHDM) {
        Some(ReallocStep::Moved { new_ptr, copy_len }) => {
            assert_eq!(copy_len, 32);
            assert_eq!(new_ptr, HHDM + 0x3000 + 0x1000 - 128);
            heap.kfree(p, &mut a, HHDM);
            assert!(matches!(heap.krealloc(new_ptr, 0, &mut a, HHDM), Some(ReallocStep::Freed)));
        },
        _ => panic!("expected a move"),
    }
    assert_eq!(a.free_pages(), 15);
}

#[test]
fn krealloc_large_block_keeps_requested_size() {
    let mut a = allocator();
    let mut heap = Heap::new();
    let p = heap.kmalloc(3000, &mut a, HHDM).unwrap();
    assert!(matches!(heap.krealloc(p, 3000, &mut a, HHDM), Some(ReallocStep::Kept)));
    match heap.krealloc(p, 3001, &mut a, HHDM) {
        Some(ReallocStep::Moved { copy_len, .. }) => assert_eq!(copy_len, 3000),
        _ => panic!("expected a move"),
    }
}

#[test]
fn global_allocator_paths() {
    let mut a = allocator();
    let mut heap = Heap::new();
    let p = heap.kernel_alloc(24, 8, &mut a, HHDM).unwrap();
    assert_eq!(p, HHDM + 0x2000 + 0x1000 - 32);
    assert_eq!(heap.slab_counts(2), (1, 0));
    let q = heap.kernel_alloc(8, 4096, &mut a, HHDM).unwrap();
    assert_eq!(q, HHDM + 0x3000);
    assert_eq!(a.free_pages(), 13);
    heap.kernel_dealloc(q, 8, 4096, &mut a, HHDM);
    heap.kernel_dealloc(p, 24, 8, &mut a, HHDM);
    assert_eq!(heap.slab_counts(2), (0, 0));
    assert_eq!(a.free_pages(), 15);
}

#[test]
fn two_kmallocs_hand_out_different_blocks() {
    for (s1, s2) in [(10usize, 10usize), (2048, 2048), (3000, 3000), (100, 3000), (3000, 100), (16, 17)] {
        let mut a = allocator();
        let mut heap = Heap::new();
        let p = heap.kmalloc(s1, &mut a, HHDM).unwrap();
        let q = heap.kmalloc(s2, &mut a, HHDM).unwrap();
        assert_ne!(p, q);
    }
}

#[test]
fn slot_freed_from_full_slab_comes_back() {
    let mut a = allocator();
    let mut heap = Heap::new();
    // 1024-byte slots: three per page
    let p1 = heap.kmalloc(1000, &mut a, HHDM).unwrap();
    let p2 = heap.kmalloc(1000, &mut a, HHDM).unwrap();
    let p3 = heap.kmalloc(1000, &mut a, HHDM).unwrap();
    assert_eq!(heap.slab_counts(7), (0, 1));
    heap.kfree(p2, &mut a, HHDM);
    assert_eq!(heap.slab_counts(7), (1, 0));
    assert_eq!(heap.kmalloc(1000, &mut a, HHDM), Some(p2));
    assert_ne!(p1, p3);
}

#[test]
fn krealloc_move_copies_and_frees() {
    let mut a = allocator();
    let mut heap = Heap::new();
    let mut mem = PhysMemory::new(17 * 512, HHDM);
    let p = heap.kmalloc(20, &mut a, HHDM).unwrap();
    for i in 0..32u64 {
        mem.write_byte(p + i, i as u8 + 1);
    }
    match heap.krealloc(p, 100, &mut a, HHDM) {
        Some(ReallocStep::Moved { new_ptr, copy_len }) => {
            assert_eq!(copy_len, 32);
            heap.krealloc_finish(p, new_ptr, copy_len, &mut mem, &mut a);
            for i in 0..32u64 {
                assert_eq!(mem.read_byte(new_ptr + i), i as u8 + 1);
            }
            assert!(!heap.is_block(p));
            assert_eq!(heap.slab_counts(2), (0, 0));
        },
        _ => panic!("expected a move"),
    }
}

#[test]
fn kmalloc_blocks_are_aligned_and_in_one_page() {
    let mut a = allocator();
    let mut heap = Heap::new();
    for size in [1usize, 15, 16, 17, 100, 1000, 2048, 2049, 4064] {
        let p = heap.kmalloc(size, &mut a, HHDM).unwrap();
        assert_eq!(p % 16, 0);
        assert!((p & !0xFFF) + 0x1000 >= p + size as u64);
    }
}

#[test]
fn kernel_alloc_honours_alignment() {
    let mut a = allocator();
    let mut heap = Heap::new();
    for (size, align) in [(24usize, 8usize), (8, 64), (100, 256), (3000, 4096), (8, 4096)] {
        let p = heap.kernel_alloc(size, align, &mut a, HHDM).unwrap();
        assert_eq!(p % align as u64, 0);
        assert!((p & !0xFFF) + 0x1000 >= p + size as u64);
    }
}

#[test]
fn kernel_dealloc_undoes_kernel_alloc() {
    let mut a = allocator();
    let mut heap = Heap::new();
    let keep = heap.kernel_alloc(24, 8, &mut a, HHDM).unwrap();
    let free_before = a.free_pages();
    let counts_before = heap.slab_counts(2);
    let p = heap.kernel_alloc(24, 8, &mut a, HHDM).unwrap();
    heap.kernel_dealloc(p, 24, 8, &mut a, HHDM);
    assert_eq!(a.free_pages(), free_before);
    assert_eq!(heap.slab_counts(2), counts_before);
    assert_eq!(heap.kernel_alloc(24, 8, &mut a, HHDM), Some(p));
    assert_ne!(keep, p);
    let big = heap.kernel_alloc(3000, 8, &mut a, HHDM).unwrap();
    heap.kernel_dealloc(big, 3000, 8, &mut a, HHDM);
    assert_eq!(a.free_pages(), free_before);
}

#[test]
fn kernel_alloc_blocks_do_not_overlap() {
    let mut a = allocator();
    let mut heap = Heap::new();
    let mut blocks: Vec<(u64, u64)> = Vec::new();
    for (size, align) in [(24usize, 8usize), (24, 8), (8, 64), (100, 16), (100, 256), (3000, 8), (2048, 8), (8, 4096)] {
        let p = heap.kernel_alloc(size, align, &mut a, HHDM).unwrap();
        for &(q, len) in &blocks {
            assert!(p + size as u64 <= q || q + len <= p);
        }
        blocks.push((p, size as u64));
    }
}

#[test]
fn free_checks_accept_live_blocks_only() {
    let mut a = allocator();
    let mut heap = Heap::new();
    assert!(heap.kfree_check(0, &a, HHDM));
    let p = heap.kmalloc(40, &mut a, HHDM).unwrap();
    let big = heap.kmalloc(3000, &mut a, HHDM).unwrap();
    assert!(heap.kfree_check(p, &a, HHDM));
    assert!(heap.kfree_check(big, &a, HHDM));
    assert!(!heap.kfree_check(HHDM + 0x9000, &a, HHDM));
    heap.kfree(big, &mut a, HHDM);
    assert!(!heap.kfree_check(big, &a, HHDM));
    let q = heap.kernel_alloc(24, 8, &mut a, HHDM).unwrap();
    assert!(heap.kernel_dealloc_check(q, 24, 8, &a, HHDM));
    assert!(!heap.kernel_dealloc_check(q, 100, 8, &a, HHDM));
    assert!(!heap.kernel_dealloc_check(HHDM + 0x9000, 3000, 8, &a, HHDM));
}

#[test]
fn slab_page_check_follows_the_next_page() {
    let a = allocator();
    assert!(lib::mm::slab::next_slab_page_fits_check(&a, HHDM));
    assert!(!lib::mm::slab::next_slab_page_fits_check(&a, HHDM + 8));
    assert!(!lib::mm::slab::next_slab_page_fits_check(&a, u64::MAX - 0x1000));
}
