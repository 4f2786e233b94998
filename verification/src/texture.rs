//! Pixel addressing for image textures.
//!
//! An image texture samples its decoded byte buffer by nearest-pixel
//! lookup: the caller turns the surface's `(u, v)` coordinates into raw
//! pixel coordinates (flipping `v`, since row 0 of the image is the top),
//! and the address computation clamps them to the bitmap and finds the
//! byte offset of the pixel's RGB triple.  The offset is verified to stay
//! inside a buffer of three bytes per pixel.

use vstd::prelude::*;

verus! {

/// Clamps a raw coordinate to `0 .. n`.
pub open spec fn clamp_index(i: int, n: int) -> int {
    if i < 0 {
        0
    } else if i >= n {
        n - 1
    } else {
        i
    }
}

/// Byte offset of the first channel of the pixel nearest to the raw
/// coordinates `(i, j)` in a `width` by `height` RGB image stored
/// row-major, three bytes per pixel.  Out-of-range coordinates are clamped
/// to the edge pixels; the offset always leaves room for all three
/// channels.
pub fn image_pixel_base(i: i32, j: i32, width: usize, height: usize) -> (base: usize)
    requires
        1 <= width,
        1 <= height,
        3 * width * height <= usize::MAX,
    ensures
        base == 3 * (clamp_index(i as int, width as int) + width * clamp_index(
            j as int,
            height as int,
        )),
        base + 3 <= 3 * width * height,
{
    let ci: usize = if i < 0 {
        0
    } else {
        let iu = i as usize;
        if iu > width - 1 {
            width - 1
        } else {
            iu
        }
    };
    let cj: usize = if j < 0 {
        0
    } else {
        let ju = j as usize;
        if ju > height - 1 {
            height - 1
        } else {
            ju
        }
    };
    proof {
        assert(0 <= width * cj && ci + width * cj + 1 <= width * height && 3 * (ci + width * cj)
            + 3 <= 3 * width * height) by (nonlinear_arith)
            requires
                ci < width,
                cj < height,
        ;
    }
    3 * (ci + width * cj)
}

} // verus!
