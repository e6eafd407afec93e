use lib::mm::paging::{
    alloc_pages, init, map_mmio, map_pages, PageEntry, PhysMemory, PAGE_DISABLE_CACHE, PAGE_GLOBAL,
    PAGE_NO_EXECUTE, PAGE_PRESENT, PAGE_USER, PAGE_WRITABLE, PAGE_WRITE_THROUGH_CACHE,
};
use lib::mm::physical::{self, PhysMemAllocator};
use lib::mm::{LimineExecutableAddr, LimineMemMapEntry, PhyAddr, VirtAddr};

const HHDM: u64 = 0xFFFF_8000_0000_0000;
const KERNEL_VIRT: u64 = 0xFFFF_FFFF_8000_0000;

fn map() -> Vec<LimineMemMapEntry> {
    vec![
        LimineMemMapEntry { base: 0, length: 0x1000, etype: 1 },
        LimineMemMapEntry { base: 0x1000, length: 0x40000, etype: 0 },
    ]
}

fn machine() -> (PhysMemory, PhysMemAllocator) {
    let alloc = physical::init(0x41000, &map(), HHDM);
    (PhysMemory::new(72 * 512, HHDM), alloc)
}

fn exec() -> LimineExecutableAddr {
    LimineExecutableAddr { revision: 0, physical_base: 0x20000, virtual_base: KERNEL_VIRT }
}

fn booted() -> (PhysMemory, PhysMemAllocator, u64) {
    let (mut mem, mut alloc) = machine();
    let (pml4, top) = init(&map(), exec(), KERNEL_VIRT, KERNEL_VIRT + 0x1800, KERNEL_VIRT + 0x3000, &mut mem, &mut alloc).unwrap();
    assert_eq!(top, VirtAddr(KERNEL_VIRT + 12 * 0x1000));
    (mem, alloc, pml4.0)
}

#[test]
fn flags_to_attribute_bits() {
    assert_eq!(PageEntry::flags_to_attr(PAGE_PRESENT | PAGE_WRITABLE), 3);
    assert_eq!(PageEntry::flags_to_attr(PAGE_USER | PAGE_WRITE_THROUGH_CACHE | PAGE_DISABLE_CACHE), 0x1C);
    assert_eq!(PageEntry::flags_to_attr(PAGE_GLOBAL), 0x100);
    assert_eq!(PageEntry::flags_to_attr(PAGE_NO_EXECUTE), 0x8000_0000_0000_0000);
    assert_eq!(PageEntry::flags_to_attr(0x7F), 0x8000_0000_0000_011F);
    assert_eq!(PageEntry::flags_to_attr(0x80), 0);
}

#[test]
fn entry_set_get_and_zero() {
    let mut mem = PhysMemory::new(1024, 0x100);
    let mut t = PageEntry::from(VirtAddr(0x1100));
    t.set(5, 0x7123, PAGE_PRESENT | PAGE_WRITABLE, &mut mem);
    assert_eq!(t.get(5, &mem), 0x7003);
    assert!(t.is_present(5, &mem));
    assert!(!t.is_present(6, &mem));
    assert_eq!(mem.read_word(512 + 5), 0x7003);
    t.set(6, 0xFFFF_FFFF_FFFF_FFFF, PAGE_WRITABLE, &mut mem);
    assert_eq!(t.get(6, &mem), 0x000F_FFFF_FFFF_F002);
    let z = PageEntry::from_zeroed(VirtAddr(0x1100), &mut mem);
    assert_eq!(z.get(5, &mem), 0);
    assert_eq!(z.get(6, &mem), 0);
}

#[test]
fn boot_tables_map_direct_map_and_kernel() {
    let (mut mem, mut alloc, pml4) = booted();
    assert_eq!(pml4, 0x2000);
    let top = VirtAddr(pml4 + HHDM);
    assert!(PageEntry::is_mapped(top, VirtAddr(HHDM + 0x1000), &mut mem, &mut alloc));
    assert!(PageEntry::is_mapped(top, VirtAddr(HHDM + 0x40000), &mut mem, &mut alloc));
    assert!(!PageEntry::is_mapped(top, VirtAddr(HHDM + 0x41000), &mut mem, &mut alloc));
    assert!(!PageEntry::is_mapped(top, VirtAddr(HHDM), &mut mem, &mut alloc));
    for page in 0..12u64 {
        assert!(PageEntry::is_mapped(top, VirtAddr(KERNEL_VIRT + page * 0x1000), &mut mem, &mut alloc));
    }
    assert!(!PageEntry::is_mapped(top, VirtAddr(KERNEL_VIRT + 12 * 0x1000), &mut mem, &mut alloc));
    // top-level table, three tables per path, eight stack pages
    assert_eq!(alloc.free_pages(), 63 - 15);
}

#[test]
fn boot_table_entries() {
    let (mem, _alloc, pml4) = booted();
    // the direct map's path: top-level entry 256 -> 0x3000 -> 0x4000 -> 0x5000
    assert_eq!(mem.read_word((pml4 / 8 + 256) as usize), 0x3007);
    assert_eq!(mem.read_word((0x3000 / 8) as usize), 0x4007);
    assert_eq!(mem.read_word((0x4000 / 8) as usize), 0x5007);
    assert_eq!(mem.read_word((0x5000 / 8 + 5) as usize), 0x5003);
    // kernel: read-only pages global and present, writable pages writable too
    assert_eq!(mem.read_word((pml4 / 8 + 511) as usize), 0x6007);
    assert_eq!(mem.read_word((0x6000 / 8 + 510) as usize), 0x7007);
    assert_eq!(mem.read_word((0x7000 / 8) as usize), 0x8007);
    assert_eq!(mem.read_word((0x8000 / 8) as usize), 0x20101);
    assert_eq!(mem.read_word((0x8000 / 8 + 1) as usize), 0x21101);
    assert_eq!(mem.read_word((0x8000 / 8 + 2) as usize), 0x22103);
    assert_eq!(mem.read_word((0x8000 / 8 + 3) as usize), 0x23103);
    // the stack: newly allocated pages
    assert_eq!(mem.read_word((0x8000 / 8 + 4) as usize), 0x9103);
    assert_eq!(mem.read_word((0x8000 / 8 + 11) as usize), 0x10103);
}

#[test]
fn mmio_goes_to_the_direct_map() {
    let (mut mem, mut alloc, pml4) = booted();
    let v = map_mmio(PhyAddr(0x100000), 2, pml4, &mut mem, &mut alloc).unwrap();
    assert_eq!(v, VirtAddr(HHDM + 0x100000));
    let top = VirtAddr(pml4 + HHDM);
    assert!(PageEntry::is_mapped(top, v, &mut mem, &mut alloc));
    assert!(PageEntry::is_mapped(top, VirtAddr(v.0 + 0x1000), &mut mem, &mut alloc));
    assert!(!PageEntry::is_mapped(top, VirtAddr(v.0 + 0x2000), &mut mem, &mut alloc));
    assert_eq!(mem.read_word((0x5000 / 8 + 256) as usize), 0x8000_0000_0010_0013);
}

#[test]
fn map_without_present_flag_is_not_mapped() {
    let (mut mem, mut alloc, pml4) = booted();
    let top = VirtAddr(pml4 + HHDM);
    assert!(map_pages(top, VirtAddr(0x4000_0000), PhyAddr(0x30000), 1, PAGE_WRITABLE, &mut mem, &mut alloc));
    assert!(!PageEntry::is_mapped(top, VirtAddr(0x4000_0000), &mut mem, &mut alloc));
    assert!(map_pages(top, VirtAddr(0x4000_0000), PhyAddr(0x30000), 1, PAGE_PRESENT, &mut mem, &mut alloc));
    assert!(PageEntry::is_mapped(top, VirtAddr(0x4000_0000), &mut mem, &mut alloc));
}

#[test]
fn map_pages_remaps() {
    let (mut mem, mut alloc, pml4) = booted();
    let top = VirtAddr(pml4 + HHDM);
    let free_before = alloc.free_pages();
    assert!(map_pages(top, VirtAddr(HHDM + 0x1000), PhyAddr(0x33000), 2, PAGE_PRESENT, &mut mem, &mut alloc));
    assert_eq!(alloc.free_pages(), free_before);
    assert_eq!(mem.read_word((0x5000 / 8 + 1) as usize), 0x33001);
    assert_eq!(mem.read_word((0x5000 / 8 + 2) as usize), 0x34001);
    assert_eq!(mem.read_word((0x5000 / 8 + 3) as usize), 0x3003);
}

#[test]
fn alloc_pages_skips_mapped_pages() {
    let (mut mem, mut alloc, pml4) = booted();
    let top = VirtAddr(pml4 + HHDM);
    let free_before = alloc.free_pages();
    assert!(alloc_pages(top, VirtAddr(KERNEL_VIRT), 12, PAGE_PRESENT | PAGE_WRITABLE, &mut mem, &mut alloc));
    assert_eq!(alloc.free_pages(), free_before);
    assert!(alloc_pages(top, VirtAddr(KERNEL_VIRT + 11 * 0x1000), 3, PAGE_PRESENT | PAGE_WRITABLE, &mut mem, &mut alloc));
    assert_eq!(alloc.free_pages(), free_before - 2);
    assert!(PageEntry::is_mapped(top, VirtAddr(KERNEL_VIRT + 13 * 0x1000), &mut mem, &mut alloc));
}

#[test]
fn map_pages_runs_out_of_tables() {
    let (mut mem, mut alloc) = machine();
    let pml4 = alloc.alloc_page().unwrap();
    while alloc.free_pages() > 1 {
        alloc.alloc_page().unwrap();
    }
    let top = VirtAddr(pml4.0 + HHDM);
    assert!(!map_pages(top, VirtAddr(0x1000), PhyAddr(0x1000), 1, PAGE_PRESENT, &mut mem, &mut alloc));
    assert!(!PageEntry::is_mapped(top, VirtAddr(0x1000), &mut mem, &mut alloc));
    assert_eq!(alloc.free_pages(), 0);
}

#[test]
fn alloc_pages_runs_out_of_memory() {
    let (mut mem, mut alloc) = machine();
    let pml4 = alloc.alloc_page().unwrap();
    while alloc.free_pages() > 3 {
        alloc.alloc_page().unwrap();
    }
    let top = VirtAddr(pml4.0 + HHDM);
    // one frame and three tables are needed, only three pages are left
    assert!(!alloc_pages(top, VirtAddr(0x1000), 1, PAGE_PRESENT, &mut mem, &mut alloc));
    assert_eq!(alloc.free_pages(), 0);
    assert!(!PageEntry::is_mapped(top, VirtAddr(0x1000), &mut mem, &mut alloc));
}

#[test]
fn alloc_pages_twice_changes_nothing() {
    let (mut mem, mut alloc, pml4) = booted();
    let top = VirtAddr(pml4 + HHDM);
    assert!(alloc_pages(top, VirtAddr(0x4000_0000), 3, PAGE_PRESENT | PAGE_WRITABLE, &mut mem, &mut alloc));
    for page in 0..3u64 {
        assert!(PageEntry::is_mapped(top, VirtAddr(0x4000_0000 + page * 0x1000), &mut mem, &mut alloc));
    }
    let free_before = alloc.free_pages();
    let words_before: Vec<u64> = (0..72 * 512).map(|j| mem.read_word(j)).collect();
    assert!(alloc_pages(top, VirtAddr(0x4000_0000), 3, PAGE_PRESENT | PAGE_WRITABLE, &mut mem, &mut alloc));
    assert_eq!(alloc.free_pages(), free_before);
    let words_after: Vec<u64> = (0..72 * 512).map(|j| mem.read_word(j)).collect();
    assert_eq!(words_before, words_after);
}

#[test]
fn map_pages_links_new_tables() {
    let (mut mem, mut alloc, pml4) = booted();
    let top = VirtAddr(pml4 + HHDM);
    let free_before = alloc.free_pages();
    assert!(map_pages(top, VirtAddr(0x4000_0000), PhyAddr(0x30000), 1, PAGE_PRESENT | PAGE_WRITABLE, &mut mem, &mut alloc));
    assert_eq!(alloc.free_pages(), free_before - 3);
    // top-level entry 0 -> index 1 -> index 0 -> index 0
    let l3 = mem.read_word((pml4 / 8) as usize);
    assert_eq!(l3 & 0xFFF, 7);
    let l2 = mem.read_word(((l3 & !0xFFF) / 8 + 1) as usize);
    assert_eq!(l2 & 0xFFF, 7);
    let l1 = mem.read_word(((l2 & !0xFFF) / 8) as usize);
    assert_eq!(l1 & 0xFFF, 7);
    assert_eq!(mem.read_word(((l1 & !0xFFF) / 8) as usize), 0x30003);
    // the rest of each new table is empty
    for (table, used) in [(l3 & !0xFFF, 1u64), (l2 & !0xFFF, 0), (l1 & !0xFFF, 0)] {
        for j in 0..512u64 {
            if j != used {
                assert_eq!(mem.read_word((table / 8 + j) as usize), 0);
            }
        }
    }
}

#[test]
fn alloc_pages_takes_pages_for_frames_and_tables_only() {
    let (mut mem, mut alloc, pml4) = booted();
    let top = VirtAddr(pml4 + HHDM);
    let used_before: Vec<Option<bool>> = (0..0x41usize).map(|i| alloc.page_is_used(i)).collect();
    assert!(alloc_pages(top, VirtAddr(0x4000_0000), 2, PAGE_PRESENT | PAGE_WRITABLE, &mut mem, &mut alloc));
    let l3 = mem.read_word((pml4 / 8) as usize) & !0xFFF;
    let l2 = mem.read_word((l3 / 8 + 1) as usize) & !0xFFF;
    let l1 = mem.read_word((l2 / 8) as usize) & !0xFFF;
    let f0 = mem.read_word((l1 / 8) as usize) & 0x000F_FFFF_FFFF_F000;
    let f1 = mem.read_word((l1 / 8 + 1) as usize) & 0x000F_FFFF_FFFF_F000;
    assert_ne!(f0, f1);
    let mut taken: Vec<u64> = Vec::new();
    for i in 0..0x41usize {
        if used_before[i] == Some(false) && alloc.page_is_used(i) == Some(true) {
            taken.push(i as u64 * 0x1000);
        }
    }
    taken.sort();
    let mut expected = vec![l3, l2, l1, f0, f1];
    expected.sort();
    assert_eq!(taken, expected);
}

#[test]
fn boot_takes_root_tables_and_stack_frames_only() {
    let (mut mem, mut alloc) = machine();
    let used_before: Vec<Option<bool>> = (0..0x41usize).map(|i| alloc.page_is_used(i)).collect();
    let (pml4, _top) = init(&map(), exec(), KERNEL_VIRT, KERNEL_VIRT + 0x1800, KERNEL_VIRT + 0x3000, &mut mem, &mut alloc).unwrap();
    assert_eq!(pml4.0, 0x2000);
    let taken: Vec<usize> = (0..0x41usize)
        .filter(|&i| used_before[i] == Some(false) && alloc.page_is_used(i) == Some(true))
        .collect();
    // the root, six tables on the direct map's and the kernel's paths, eight stack frames
    assert_eq!(taken, (2..=16).collect::<Vec<usize>>());
    for (table, index) in [(0x2000u64, 256u64), (0x3000, 0), (0x4000, 0), (0x2000, 511), (0x6000, 510), (0x7000, 0)] {
        assert_eq!(mem.read_word((table / 8 + index) as usize) & 0xFFF, 7);
    }
}

#[test]
fn map_pages_needs_tables_per_block_only() {
    let (mut mem, mut alloc, pml4) = booted();
    let top = VirtAddr(pml4 + HHDM);
    while alloc.free_pages() > 3 {
        alloc.alloc_page().unwrap();
    }
    // one 2 MiB block: three new tables are all it takes
    assert!(map_pages(top, VirtAddr(0x4000_0000), PhyAddr(0x100000), 512, PAGE_PRESENT, &mut mem, &mut alloc));
    assert_eq!(alloc.free_pages(), 0);
    for page in [0u64, 1, 255, 511] {
        assert!(PageEntry::is_mapped(top, VirtAddr(0x4000_0000 + page * 0x1000), &mut mem, &mut alloc));
    }
    // the next block needs a table that is not there
    assert!(!map_pages(top, VirtAddr(0x4020_0000), PhyAddr(0x100000), 1, PAGE_PRESENT, &mut mem, &mut alloc));
}
