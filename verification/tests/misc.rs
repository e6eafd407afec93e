use lib::framebuffer::{gradient_pixel, pixel_offset};
use lib::mm::{memory_size, LimineMemMapEntry};

#[test]
fn memory_size_is_highest_ram_end() {
    let map = vec![
        LimineMemMapEntry { base: 0x1000, length: 0x9E000, etype: 0 },
        LimineMemMapEntry { base: 0xF0000, length: 0x10000, etype: 1 },
        LimineMemMapEntry { base: 0x100000, length: 0x7EE0000, etype: 0 },
        LimineMemMapEntry { base: 0x7FE0000, length: 0x10000, etype: 5 },
        LimineMemMapEntry { base: 0xFD00_0000, length: 0x30_0000, etype: 7 },
    ];
    assert_eq!(memory_size(&map), Some(0x7FF0000));
}

#[test]
fn memory_size_counts_kernel_regions() {
    let map = vec![
        LimineMemMapEntry { base: 0x1000, length: 0x1000, etype: 0 },
        LimineMemMapEntry { base: 0x200000, length: 0x3000, etype: 6 },
    ];
    assert_eq!(memory_size(&map), Some(0x203000));
}

#[test]
fn memory_size_without_ram() {
    let map = vec![LimineMemMapEntry { base: 0, length: 0x1000, etype: 1 }];
    assert_eq!(memory_size(&map), None);
    assert_eq!(memory_size(&Vec::new()), None);
}

#[test]
fn gradient_values() {
    assert_eq!(gradient_pixel(0, 0, 640, 480), 0);
    assert_eq!(gradient_pixel(639, 479, 640, 480), 0xFEFE);
    assert_eq!(gradient_pixel(320, 240, 640, 480), 0x7F7F);
    assert_eq!(gradient_pixel(639, 0, 640, 480), 0x00FE);
    assert_eq!(gradient_pixel(0, 0, 1, 1), 0);
}

#[test]
fn pixel_offsets() {
    assert_eq!(pixel_offset(3, 2, 2560), 1283);
    assert_eq!(pixel_offset(0, 0, 2560), 0);
    assert_eq!(pixel_offset(5, 1, 10), 7);
}
