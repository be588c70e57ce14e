//! The pixel-to-world coordinate transform.
//!
//! Pixel coordinates have their origin at the top-left corner of the image
//! with y growing downward; world coordinates are centered on the image with
//! y growing up: `world = (pixel - (W/2, H/2)) * (1, -1)`, with `W/2` and
//! `H/2` rounded down. Because the y axis flips, the transform swaps which
//! corner of a rectangle is numerically smallest: a world-space rectangle
//! must re-derive its corners rather than carry the pixel-space labels over.

use vstd::prelude::*;

verus! {

/// The world x coordinate of pixel column `x`.
pub open spec fn spec_world_x(x: int, width: int) -> int {
    x - width / 2
}

/// The world y coordinate of pixel row `y` (the flip makes lower rows more
/// negative).
pub open spec fn spec_world_y(y: int, height: int) -> int {
    height / 2 - y
}

/// Converts a pixel column to world x.
pub fn world_x(x: u32, width: u32) -> (wx: i64)
    ensures
        wx == spec_world_x(x as int, width as int),
{
    x as i64 - (width / 2) as i64
}

/// Converts a pixel row to world y.
pub fn world_y(y: u32, height: u32) -> (wy: i64)
    ensures
        wy == spec_world_y(y as int, height as int),
{
    (height / 2) as i64 - y as i64
}

/// The exact center pixel `(W/2, H/2)` of an image maps to the world origin.
pub proof fn lemma_center_maps_to_origin(width: int, height: int)
    requires
        width >= 1,
        height >= 1,
    ensures
        spec_world_x(width / 2, width) == 0,
        spec_world_y(height / 2, height) == 0,
{
}

/// The transform preserves order along x and reverses it along y.
pub proof fn lemma_world_monotone(a: int, b: int, side: int)
    requires
        a <= b,
    ensures
        spec_world_x(a, side) <= spec_world_x(b, side),
        spec_world_y(b, side) <= spec_world_y(a, side),
{
}

} // verus!
