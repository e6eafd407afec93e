use lib::mm::bitmap::memory_map_fits_check;
use lib::mm::paging::{init_fits_check, PhysMemory};
use lib::mm::physical;
use lib::mm::slab::ffi::Heap;
use lib::mm::{LimineExecutableAddr, LimineMemMapEntry};

const HHDM: u64 = 0xFFFF_8000_0000_0000;
const KERNEL_VIRT: u64 = 0xFFFF_FFFF_8000_0000;

fn small_map() -> Vec<LimineMemMapEntry> {
    vec![
        LimineMemMapEntry { base: 0, length: 0x1000, etype: 1 },
        LimineMemMapEntry { base: 0x1000, length: 0x10000, etype: 0 },
    ]
}

#[test]
fn memory_map_fits_bitmap() {
    assert!(memory_map_fits_check(&small_map(), 17));
    // usable memory reaches page 16, past a 16-page bitmap
    assert!(!memory_map_fits_check(&small_map(), 16));
}

#[test]
fn reserved_region_counts_up_to_total_page() {
    let map = vec![
        LimineMemMapEntry { base: 0x1000, length: 0xF000, etype: 0 },
        LimineMemMapEntry { base: 0x10000, length: 0x1000, etype: 1 },
        LimineMemMapEntry { base: 0x1000_0000, length: 0x1000, etype: 1 },
    ];
    assert!(!memory_map_fits_check(&map, 16));
    assert!(memory_map_fits_check(&map, 17));
}

#[test]
fn memory_map_overflow_does_not_fit() {
    let map = vec![
        LimineMemMapEntry { base: 0x1000, length: 0x10000, etype: 0 },
        LimineMemMapEntry { base: u64::MAX - 0x10, length: 0x100, etype: 1 },
    ];
    assert!(!memory_map_fits_check(&map, 17));
    assert!(!memory_map_fits_check(&small_map(), u32::MAX));
}

#[test]
fn kernel_tables_inputs_fit() {
    let exec = LimineExecutableAddr { revision: 0, physical_base: 0x20000, virtual_base: KERNEL_VIRT };
    let map = small_map();
    assert!(init_fits_check(&map, HHDM, exec, KERNEL_VIRT, KERNEL_VIRT + 0x1800, KERNEL_VIRT + 0x3000));
    assert!(!init_fits_check(&map, HHDM, exec, KERNEL_VIRT + 0x2000, KERNEL_VIRT + 0x1800, KERNEL_VIRT + 0x3000));
    let high = LimineExecutableAddr { revision: 0, physical_base: 0x20000, virtual_base: u64::MAX - 0x5000 };
    assert!(!init_fits_check(&map, HHDM, high, KERNEL_VIRT, KERNEL_VIRT + 0x1800, KERNEL_VIRT + 0x3000));
    assert!(!init_fits_check(&map, u64::MAX - 0x10, exec, KERNEL_VIRT, KERNEL_VIRT + 0x1800, KERNEL_VIRT + 0x3000));
}

#[test]
fn bytes_read_write_copy() {
    let mut mem = PhysMemory::new(16, 0x100);
    mem.write_byte(0x103, 0xAB);
    mem.write_byte(0x104, 0xCD);
    assert_eq!(mem.read_byte(0x103), 0xAB);
    assert_eq!(mem.read_byte(0x102), 0);
    assert_eq!(mem.read_word(0), 0xCDAB_0000_00);
    mem.copy_bytes(0x100, 0x140, 8);
    assert_eq!(mem.read_byte(0x143), 0xAB);
    assert_eq!(mem.read_byte(0x144), 0xCD);
    assert_eq!(mem.read_word(8), 0xCDAB_0000_00);
    mem.copy_bytes(0x103, 0x171, 2);
    assert_eq!(mem.read_byte(0x171), 0xAB);
    assert_eq!(mem.read_byte(0x172), 0xCD);
    assert_eq!(mem.read_byte(0x173), 0);
    assert_eq!(mem.hhdm(), 0x100);
}

#[test]
fn heap_blocks() {
    let mut a = physical::init(0x11000, &small_map(), HHDM);
    let mut heap = Heap::new();
    let small = heap.kmalloc(50, &mut a, HHDM).unwrap();
    let large = heap.kmalloc(4000, &mut a, HHDM).unwrap();
    assert!(heap.is_block(small));
    assert!(heap.is_block(small & !0xFFF));
    assert!(heap.is_block(large));
    assert!(!heap.is_block(HHDM + 0x9000));
    heap.kfree(large, &mut a, HHDM);
    assert!(!heap.is_block(large));
}
