//! Image geometry: row stride and the byte unit that predictors step by.

use vstd::prelude::*;

verus! {

/// Why a raster or a filtered stream was refused.
#[derive(Clone, Copy, Debug, PartialEq, Eq, Structural)]
pub enum FilterError {
    /// Width, height or bits per pixel is zero.
    InvalidGeometry,
    /// The byte count does not match the geometry.
    LengthMismatch,
    /// A row of a filtered stream leads with a byte that names no filter.
    InvalidFilterTag,
}

/// Width and height in pixels, and the bits that one pixel takes.
#[derive(Clone, Copy, Debug, PartialEq, Eq, Structural)]
pub struct ImageGeometry {
    pub width: usize,
    pub height: usize,
    pub bits_per_pixel: u32,
}

impl ImageGeometry {
    pub open spec fn is_valid(self) -> bool {
        self.width > 0 && self.height > 0 && self.bits_per_pixel > 0
    }

    /// Bytes per row: `ceil(width * bits_per_pixel / 8)`.
    pub open spec fn stride_spec(self) -> int {
        (self.width * self.bits_per_pixel + 7) / 8
    }

    /// The step to "the pixel to the left": whole bytes per pixel, and one byte
    /// for pixels narrower than a byte.
    pub open spec fn unit_spec(self) -> int {
        if self.bits_per_pixel < 8 {
            1
        } else {
            self.bits_per_pixel as int / 8
        }
    }

    pub fn new(width: usize, height: usize, bits_per_pixel: u32) -> (r: ImageGeometry)
        ensures
            r.width == width,
            r.height == height,
            r.bits_per_pixel == bits_per_pixel,
    {
        ImageGeometry { width, height, bits_per_pixel }
    }

    /// Bytes per row, or `None` where that count does not fit in `usize`.
    pub fn row_stride(&self) -> (r: Option<usize>)
        ensures
            r == (if self.stride_spec() <= usize::MAX {
                Some(self.stride_spec() as usize)
            } else {
                None::<usize>
            }),
    {
        let w = self.width as u128;
        let b = self.bits_per_pixel as u128;
        proof {
            assert(w * b <= 0xffff_ffff_ffff_ffff * 0xffff_ffffu128) by (nonlinear_arith)
                requires
                    w <= 0xffff_ffff_ffff_ffff,
                    b <= 0xffff_ffff,
            ;
        }
        let s = (w * b + 7) / 8;
        if s <= usize::MAX as u128 {
            Some(s as usize)
        } else {
            None
        }
    }

    /// The byte unit that Sub, Average and Paeth step by.
    pub fn bytes_per_pixel_unit(&self) -> (r: usize)
        ensures
            r == self.unit_spec(),
            r >= 1,
    {
        if self.bits_per_pixel < 8 {
            1
        } else {
            (self.bits_per_pixel / 8) as usize
        }
    }
}

} // verus!
