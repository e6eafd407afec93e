//! The test pattern drawn on the framebuffer: a gradient, blue growing to
//! the right and green growing downwards.
use vstd::prelude::*;

verus! {

/// The pattern's color at column `x`, row `y` of a `width` by `height`
/// screen: blue byte `x * 255 / width`, green byte `y * 255 / height`.
pub open spec fn gradient(x: int, y: int, width: int, height: int) -> int {
    (y * 255 / height) * 256 + x * 255 / width
}

/// The color of the pixel at column `x`, row `y`.
pub fn gradient_pixel(x: usize, y: usize, width: usize, height: usize) -> (pixel: u32)
    requires
        x < width,
        y < height,
        x * 255 <= usize::MAX,
        y * 255 <= usize::MAX,
    ensures
        pixel == gradient(x as int, y as int, width as int, height as int),
{
    let nx: usize = x * 255 / width;
    let ny: usize = y * 255 / height;
    proof {
        assert(x * 255 < width * 255) by (nonlinear_arith)
            requires x < width;
        assert((x * 255) as int / (width as int) < 255) by (nonlinear_arith)
            requires x * 255 < width * 255, width > 0;
        assert(y * 255 < height * 255) by (nonlinear_arith)
            requires y < height;
        assert((y * 255) as int / (height as int) < 255) by (nonlinear_arith)
            requires y * 255 < height * 255, height > 0;
    }
    let ny32: u32 = ny as u32;
    let nx32: u32 = nx as u32;
    let pixel: u32 = (ny32 << 8u32) | nx32;
    assert(pixel == ny32 * 256 + nx32) by (bit_vector)
        requires
            pixel == (ny32 << 8u32) | nx32,
            ny32 < 255,
            nx32 < 255;
    pixel
}

/// Where the pixel at column `x`, row `y` lies, counted in 32-bit pixels,
/// with rows `pitch` bytes apart.
pub fn pixel_offset(x: usize, y: usize, pitch: usize) -> (offset: usize)
    requires
        y * (pitch / 4) + x <= usize::MAX,
    ensures
        offset == y * (pitch / 4) + x,
{
    let row: usize = pitch / 4;
    proof {
        assert(y * row <= y * row + x) by (nonlinear_arith)
            requires x >= 0;
    }
    y * row + x
}

} // verus!
