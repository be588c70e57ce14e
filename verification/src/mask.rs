//! The raster mask image.
//!
//! A mask is a grid of RGBA pixels stored row-major with the origin at the
//! top-left corner and y growing downward. The mathematical view of a mask is
//! its dimensions together with the flat pixel sequence; all extraction
//! contracts are stated over that view.

use crate::color::{spec_opaque, Rgba};
use vstd::prelude::*;

verus! {

/// The mathematical view of a mask: positive dimensions and one pixel for
/// every cell of the grid, row-major.
pub struct MaskView {
    pub width: int,
    pub height: int,
    pub pixels: Seq<Rgba>,
}

impl MaskView {
    /// A well-formed mask is non-empty and carries exactly one pixel per cell.
    pub open spec fn wf(self) -> bool {
        &&& self.width >= 1
        &&& self.height >= 1
        &&& self.pixels.len() == self.width * self.height
    }

    /// `(x, y)` lies on the image.
    pub open spec fn in_bounds(self, x: int, y: int) -> bool {
        0 <= x < self.width && 0 <= y < self.height
    }

    /// The pixel at column `x` of row `y`.
    pub open spec fn pixel(self, x: int, y: int) -> Rgba {
        self.pixels[y * self.width + x]
    }

    /// The pixel at `(x, y)` exists and is fully opaque.
    pub open spec fn opaque_at(self, x: int, y: int) -> bool {
        self.in_bounds(x, y) && spec_opaque(self.pixel(x, y))
    }
}

/// A row-major index stays strictly below the pixel count of the grid.
pub proof fn lemma_row_major_index(x: int, y: int, width: int, height: int)
    requires
        0 <= x < width,
        0 <= y < height,
    ensures
        0 <= y * width,
        y * width + x < height * width,
{
    assert(y * width + x < height * width) by (nonlinear_arith)
        requires
            0 <= x < width,
            0 <= y < height,
    ;
    assert(y * width >= 0) by (nonlinear_arith)
        requires
            0 <= y,
            0 < width,
    ;
}

/// A raster mask image. Values built through [`Mask::new`] are well formed:
/// the pixel vector holds exactly `width * height` entries.
pub struct Mask {
    pub width: u32,
    pub height: u32,
    pub pixels: Vec<Rgba>,
}

impl View for Mask {
    type V = MaskView;

    open spec fn view(&self) -> MaskView {
        MaskView {
            width: self.width as int,
            height: self.height as int,
            pixels: self.pixels@,
        }
    }
}

impl Mask {
    /// Builds a mask from its dimensions and row-major pixels. Returns `None`
    /// exactly when the dimensions are zero or the pixel count does not match
    /// the grid.
    pub fn new(width: u32, height: u32, pixels: Vec<Rgba>) -> (m: Option<Mask>)
        ensures
            m is Some <==> width >= 1 && height >= 1 && pixels@.len() == width * height,
            m is Some ==> {
                let v = m->Some_0@;
                &&& v.wf()
                &&& v.width == width
                &&& v.height == height
                &&& v.pixels == pixels@
            },
    {
        proof {
            assert((width as int) * (height as int) <= 0xffff_ffffu64 * 0xffff_ffffu64)
                by (nonlinear_arith)
                requires
                    width <= 0xffff_ffffu64,
                    height <= 0xffff_ffffu64,
            ;
        }
        if width >= 1 && height >= 1 && pixels.len() as u64 == (width as u64) * (height as u64) {
            Some(Mask { width, height, pixels })
        } else {
            None
        }
    }

    /// The width of the image in pixels.
    pub fn width(&self) -> (w: u32)
        ensures
            w == self@.width,
    {
        self.width
    }

    /// The height of the image in pixels.
    pub fn height(&self) -> (h: u32)
        ensures
            h == self@.height,
    {
        self.height
    }

    /// Reads the pixel at `(x, y)`. Returns `None` exactly when the
    /// coordinate falls outside the image.
    pub fn get(&self, x: u32, y: u32) -> (p: Option<Rgba>)
        requires
            self@.wf(),
        ensures
            p is Some <==> self@.in_bounds(x as int, y as int),
            p is Some ==> p->Some_0 == self@.pixel(x as int, y as int),
    {
        if x < self.width && y < self.height {
            let n: usize = self.pixels.len();
            proof {
                lemma_row_major_index(x as int, y as int, self@.width, self@.height);
                assert(self@.height * self@.width == self@.width * self@.height)
                    by (nonlinear_arith);
            }
            let idx: u64 = (y as u64) * (self.width as u64) + (x as u64);
            assert(idx < n as u64);
            Some(self.pixels[idx as usize])
        } else {
            None
        }
    }
}

} // verus!
