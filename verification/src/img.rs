//! The in-memory raster image: interleaved 8-bit RGBA samples in row-major
//! order. Filters read an immutable source image and build a fresh
//! destination buffer of the same dimensions.

use vstd::prelude::*;

verus! {

/// An 8-bit RGBA raster. `data` holds `width * height` pixels of 4 samples
/// each, row-major, channels interleaved in R, G, B, A order.
pub struct RasterImage {
    pub width: usize,
    pub height: usize,
    pub data: Vec<u8>,
}

impl RasterImage {
    /// Structural invariant: at least one pixel, and the buffer covers
    /// exactly `width * height` four-sample pixels.
    pub open spec fn wf(self) -> bool {
        &&& 1 <= self.width
        &&& 1 <= self.height
        &&& self.width <= 0xFFFF_FFFF
        &&& self.height <= 0xFFFF_FFFF
        &&& self.data@.len() == self.width * self.height * 4
    }

    /// Buffer offset of channel `c` of the pixel at `(x, y)`.
    pub open spec fn off(self, x: int, y: int, c: int) -> int {
        (y * self.width + x) * 4 + c
    }

    /// Channel `c` of the pixel at `(x, y)`.
    pub open spec fn chan(self, x: int, y: int, c: int) -> u8 {
        self.data@[self.off(x, y, c)]
    }

    /// Reads channel `c` of the pixel at `(x, y)`.
    pub fn chan_at(&self, x: usize, y: usize, c: usize) -> (v: u8)
        requires
            self.wf(),
            x < self.width,
            y < self.height,
            c < 4,
        ensures
            v == self.chan(x as int, y as int, c as int),
    {
        proof {
            lemma_row_major_in_range(x as int, y as int, self.width as int, self.height as int);
        }
        let n = self.data.len();
        self.data[(y * self.width + x) * 4 + c]
    }
}

/// A row-major pixel offset lies inside the buffer.
pub proof fn lemma_row_major_in_range(x: int, y: int, w: int, h: int)
    requires
        0 <= x < w,
        0 <= y < h,
    ensures
        0 <= (y * w + x) * 4,
        (y * w + x) * 4 + 4 <= w * h * 4,
        y * w + x < w * h,
    decreases 0int,
{
    assert((y * w + x) * 4 + 4 <= w * h * 4) by (nonlinear_arith)
        requires
            0 <= x < w,
            0 <= y < h,
    ;
    assert(0 <= (y * w + x) * 4) by (nonlinear_arith)
        requires
            0 <= x < w,
            0 <= y,
    ;
    assert(y * w + x < w * h) by (nonlinear_arith)
        requires
            0 <= x < w,
            0 <= y < h,
    ;
}

/// Two images agree on everything a filter can observe: dimensions and the
/// sample buffer.
pub open spec fn same_view(a: RasterImage, b: RasterImage) -> bool {
    a.width == b.width && a.height == b.height && a.data@ == b.data@
}

/// The canonical image value of given dimensions and buffer contents.
pub open spec fn canon_img(w: int, h: int, d: Seq<u8>) -> RasterImage {
    choose|i: RasterImage| i.width == w && i.height == h && i.data@ == d
}

/// Row-major flattening is undone by division and remainder.
pub proof fn lemma_flat_index(x: int, y: int, w: int)
    requires
        0 <= x < w,
        0 <= y,
    ensures
        (y * w + x) % w == x,
        (y * w + x) / w == y,
{
    vstd::arithmetic::div_mod::lemma_fundamental_div_mod_converse_div(y * w + x, w, y, x);
    vstd::arithmetic::div_mod::lemma_fundamental_div_mod_converse_mod(y * w + x, w, y, x);
}

} // verus!
