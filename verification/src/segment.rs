//! Posterized block segmentation ("picasso"): the image is cut into square
//! blocks, each block is flooded with the fixed fill color nearest to the
//! block's mean RGB, and interior pixels whose Sobel edge magnitude reaches
//! an adaptive threshold are overdrawn with the outline color. The output is
//! fully opaque.
//!
//! Luminance is ITU-R 601-style in thousandths, so an edge magnitude of
//! 60000 here is 60.0 in 8-bit luma units, and comparisons against the
//! adaptive threshold `max(0.35 * strongest, 60.0)` are done on squared
//! magnitudes: `mag >= 0.35 * strongest` exactly when
//! `400 * mag^2 >= 49 * strongest^2`.

use vstd::prelude::*;
use crate::img::RasterImage;
use crate::img::lemma_flat_index;
use crate::img::lemma_row_major_in_range;
use crate::mathx::luma601_of;
use crate::mathx::luma601;

verus! {

/// Number of fill colors; entry `PAL_OUTLINE` is the outline color.
pub const PAL_FILLS: usize = 9;

/// Index of the outline color.
pub const PAL_OUTLINE: usize = 9;

/// The fixed palette: nine fill colors and one near-black outline color.
pub open spec fn palette_rgb(i: int) -> (u8, u8, u8) {
    if i == 0 {
        (230, 57, 70)  // red
    } else if i == 1 {
        (239, 71, 111)  // pink-red
    } else if i == 2 {
        (244, 162, 97)  // orange
    } else if i == 3 {
        (255, 209, 102)  // yellow
    } else if i == 4 {
        (42, 157, 143)  // teal-green
    } else if i == 5 {
        (69, 123, 157)  // teal-blue
    } else if i == 6 {
        (29, 53, 87)  // navy
    } else if i == 7 {
        (109, 104, 117)  // slate
    } else if i == 8 {
        (241, 250, 238)  // near-white
    } else {
        (16, 16, 20)  // near-black outline
    }
}

/// The palette entry at `i`.
pub fn palette(i: usize) -> (rgb: (u8, u8, u8))
    requires
        i <= PAL_OUTLINE,
    ensures
        rgb == palette_rgb(i as int),
{
    if i == 0 {
        (230, 57, 70)
    } else if i == 1 {
        (239, 71, 111)
    } else if i == 2 {
        (244, 162, 97)
    } else if i == 3 {
        (255, 209, 102)
    } else if i == 4 {
        (42, 157, 143)
    } else if i == 5 {
        (69, 123, 157)
    } else if i == 6 {
        (29, 53, 87)
    } else if i == 7 {
        (109, 104, 117)
    } else if i == 8 {
        (241, 250, 238)
    } else {
        (16, 16, 20)
    }
}

/// Squared RGB distance from a mean color to palette entry `i`.
pub open spec fn pal_dist_sq(mr: int, mg: int, mb: int, i: int) -> int {
    let (pr, pg, pb) = palette_rgb(i);
    (mr - pr) * (mr - pr) + (mg - pg) * (mg - pg) + (mb - pb) * (mb - pb)
}

/// First-wins nearest fill color among entries `0 .. n`.
pub open spec fn nearest_fill_upto(mr: int, mg: int, mb: int, n: int) -> int
    decreases n,
{
    if n <= 1 {
        0
    } else {
        let b = nearest_fill_upto(mr, mg, mb, n - 1);
        if pal_dist_sq(mr, mg, mb, n - 1) < pal_dist_sq(mr, mg, mb, b) {
            n - 1
        } else {
            b
        }
    }
}

/// Nearest of the nine fill colors, earliest palette entry on ties.
pub open spec fn nearest_fill_of(mr: int, mg: int, mb: int) -> int {
    nearest_fill_upto(mr, mg, mb, PAL_FILLS as int)
}

proof fn lemma_nearest_fill_range(mr: int, mg: int, mb: int, n: int)
    requires
        n >= 1,
    ensures
        0 <= nearest_fill_upto(mr, mg, mb, n) < n,
    decreases n,
{
    if n > 1 {
        lemma_nearest_fill_range(mr, mg, mb, n - 1);
    }
}

/// Nearest fill color by squared RGB distance, first match winning ties.
pub fn nearest_fill(mr: u8, mg: u8, mb: u8) -> (best: usize)
    ensures
        best == nearest_fill_of(mr as int, mg as int, mb as int),
        best < PAL_FILLS,
{
    let mut best: usize = 0;
    let mut i: usize = 1;
    while i < PAL_FILLS
        invariant
            1 <= i <= PAL_FILLS,
            0 <= best < i,
            best == nearest_fill_upto(mr as int, mg as int, mb as int, i as int),
        decreases PAL_FILLS - i,
    {
        let (pr, pg, pb) = palette(i);
        let (br, bg, bb) = palette(best);
        let di = dist_sq_u8(mr, mg, mb, pr, pg, pb);
        let db = dist_sq_u8(mr, mg, mb, br, bg, bb);
        if di < db {
            best = i;
        }
        i = i + 1;
    }
    best
}

/// Squared distance between two RGB triples.
fn dist_sq_u8(ar: u8, ag: u8, ab: u8, br: u8, bg: u8, bb: u8) -> (d: u32)
    ensures
        d == (ar - br) * (ar - br) + (ag - bg) * (ag - bg) + (ab - bb) * (ab - bb),
{
    let dr = ar as i32 - br as i32;
    let dg = ag as i32 - bg as i32;
    let db = ab as i32 - bb as i32;
    proof {
        assert(dr * dr <= 65025 && dg * dg <= 65025 && db * db <= 65025
            && dr * dr >= 0 && dg * dg >= 0 && db * db >= 0) by (nonlinear_arith)
            requires
                -255 <= dr <= 255,
                -255 <= dg <= 255,
                -255 <= db <= 255,
        ;
    }
    (dr * dr + dg * dg + db * db) as u32
}

/// 601-style luminance of the pixel at `(x, y)`, in thousandths.
pub open spec fn seg_luma(img: RasterImage, x: int, y: int) -> int {
    luma601_of(img.chan(x, y, 0), img.chan(x, y, 1), img.chan(x, y, 2))
}

/// A pixel with a full 3x3 neighborhood.
pub open spec fn is_interior(img: RasterImage, x: int, y: int) -> bool {
    1 <= x < img.width - 1 && 1 <= y < img.height - 1
}

/// Horizontal Sobel response of the luminance field.
pub open spec fn seg_gx(img: RasterImage, x: int, y: int) -> int {
    (seg_luma(img, x + 1, y - 1) + 2 * seg_luma(img, x + 1, y) + seg_luma(img, x + 1, y + 1))
        - (seg_luma(img, x - 1, y - 1) + 2 * seg_luma(img, x - 1, y) + seg_luma(
        img, x - 1, y + 1))
}

/// Vertical Sobel response of the luminance field.
pub open spec fn seg_gy(img: RasterImage, x: int, y: int) -> int {
    (seg_luma(img, x - 1, y + 1) + 2 * seg_luma(img, x, y + 1) + seg_luma(img, x + 1, y + 1))
        - (seg_luma(img, x - 1, y - 1) + 2 * seg_luma(img, x, y - 1) + seg_luma(
        img, x + 1, y - 1))
}

/// Squared Sobel magnitude; border pixels stay at zero.
pub open spec fn seg_magsq(img: RasterImage, x: int, y: int) -> int {
    if is_interior(img, x, y) {
        seg_gx(img, x, y) * seg_gx(img, x, y) + seg_gy(img, x, y) * seg_gy(img, x, y)
    } else {
        0
    }
}

/// Largest squared magnitude among the first `k` pixels in row-major order.
pub open spec fn seg_maxsq_upto(img: RasterImage, k: int) -> int
    decreases k,
{
    if k <= 0 {
        0
    } else {
        let m = seg_magsq(img, (k - 1) % img.width as int, (k - 1) / img.width as int);
        let rest = seg_maxsq_upto(img, k - 1);
        if m > rest {
            m
        } else {
            rest
        }
    }
}

/// Largest squared Sobel magnitude of the image.
pub open spec fn seg_maxsq(img: RasterImage) -> int {
    seg_maxsq_upto(img, img.width * img.height)
}

/// The squared-magnitude form of `mag >= max(0.35 * strongest, 60.0)`.
pub open spec fn is_outline_at(msq: int, maxsq: int) -> bool {
    400 * msq >= 49 * maxsq && msq >= 3_600_000_000
}

/// Side of the square blocks: at least 10, a fortieth of the short side.
pub open spec fn seg_block_size(img: RasterImage) -> int {
    let m = if img.width <= img.height {
        img.width as int
    } else {
        img.height as int
    };
    if m / 40 >= 10 {
        m / 40
    } else {
        10
    }
}

/// Sum of channel `c` over row `y`, columns `x0 .. x1`.
pub open spec fn row_sum(img: RasterImage, y: int, x0: int, x1: int, c: int) -> int
    decreases x1 - x0,
{
    if x1 <= x0 {
        0
    } else {
        row_sum(img, y, x0, x1 - 1, c) + img.chan(x1 - 1, y, c)
    }
}

/// Sum of channel `c` over the rectangle `[x0, x1) x [y0, y1)`.
pub open spec fn rect_sum(img: RasterImage, x0: int, x1: int, y0: int, y1: int, c: int) -> int
    decreases y1 - y0,
{
    if y1 <= y0 {
        0
    } else {
        rect_sum(img, x0, x1, y0, y1 - 1, c) + row_sum(img, y1 - 1, x0, x1, c)
    }
}

/// The block holding column `x` spans `[bx*bs, min(bx*bs + bs, w))`.
pub open spec fn block_lo(i: int, bs: int) -> int {
    (i / bs) * bs
}

/// Exclusive upper bound of the block holding coordinate `i`.
pub open spec fn block_hi(i: int, bs: int, limit: int) -> int {
    if block_lo(i, bs) + bs <= limit {
        block_lo(i, bs) + bs
    } else {
        limit
    }
}

/// Truncated mean of channel `c` over the block containing `(x, y)`.
pub open spec fn block_mean(img: RasterImage, x: int, y: int, c: int) -> int {
    let bs = seg_block_size(img);
    let x0 = block_lo(x, bs);
    let x1 = block_hi(x, bs, img.width as int);
    let y0 = block_lo(y, bs);
    let y1 = block_hi(y, bs, img.height as int);
    rect_sum(img, x0, x1, y0, y1, c) / ((x1 - x0) * (y1 - y0))
}

/// Palette index chosen for the block containing `(x, y)`.
pub open spec fn block_choice(img: RasterImage, x: int, y: int) -> int {
    nearest_fill_of(
        block_mean(img, x, y, 0),
        block_mean(img, x, y, 1),
        block_mean(img, x, y, 2),
    )
}

/// RGB of the output pixel at `(x, y)`.
pub open spec fn seg_pixel_rgb(img: RasterImage, x: int, y: int) -> (u8, u8, u8) {
    if is_outline_at(seg_magsq(img, x, y), seg_maxsq(img)) {
        palette_rgb(PAL_OUTLINE as int)
    } else {
        palette_rgb(block_choice(img, x, y))
    }
}

/// Channel `c` of the output pixel at `(x, y)`: palette RGB, opaque alpha.
pub open spec fn seg_chan(img: RasterImage, x: int, y: int, c: int) -> u8 {
    let (r, g, b) = seg_pixel_rgb(img, x, y);
    if c == 0 {
        r
    } else if c == 1 {
        g
    } else if c == 2 {
        b
    } else {
        255
    }
}

/// The whole output buffer of the segment filter.
pub open spec fn seg_data(img: RasterImage) -> Seq<u8> {
    Seq::new(
        (img.width * img.height * 4) as nat,
        |k: int| seg_chan(img, (k / 4) % img.width as int, (k / 4) / img.width as int, k % 4),
    )
}

/// A row sum is at most 255 per pixel.
pub proof fn lemma_row_sum_bound(img: RasterImage, y: int, x0: int, x1: int, c: int)
    requires
        x0 <= x1,
    ensures
        0 <= row_sum(img, y, x0, x1, c) <= 255 * (x1 - x0),
    decreases x1 - x0,
{
    if x1 <= x0 {
    } else {
        lemma_row_sum_bound(img, y, x0, x1 - 1, c);
        assert(255 * (x1 - 1 - x0) + 255 == 255 * (x1 - x0)) by (nonlinear_arith);
    }
}

/// A rectangle sum is at most 255 per pixel.
pub proof fn lemma_rect_sum_bound(img: RasterImage, x0: int, x1: int, y0: int, y1: int, c: int)
    requires
        x0 <= x1,
        y0 <= y1,
    ensures
        0 <= rect_sum(img, x0, x1, y0, y1, c) <= 255 * ((x1 - x0) * (y1 - y0)),
    decreases y1 - y0,
{
    if y1 <= y0 {
    } else {
        lemma_rect_sum_bound(img, x0, x1, y0, y1 - 1, c);
        lemma_row_sum_bound(img, y1 - 1, x0, x1, c);
        assert(255 * ((x1 - x0) * (y1 - 1 - y0)) + 255 * (x1 - x0) == 255 * ((x1 - x0) * (y1
            - y0))) by (nonlinear_arith);
    }
}

/// Luminance of every pixel, flattened row-major.
fn luma_map(img: &RasterImage) -> (lum: Vec<u32>)
    requires
        img.wf(),
    ensures
        lum@.len() == img.width * img.height,
        forall|p: int|
            0 <= p < lum@.len() ==> #[trigger] lum@[p] == seg_luma(
                *img, p % img.width as int, p / img.width as int),
        forall|p: int| 0 <= p < lum@.len() ==> #[trigger] lum@[p] <= 255000,
{
    let w = img.width;
    let h = img.height;
    let mut lum: Vec<u32> = Vec::new();
    let mut y: usize = 0;
    while y < h
        invariant
            img.wf(),
            w == img.width,
            h == img.height,
            0 <= y <= h,
            lum@.len() == y * w,
            forall|p: int|
                0 <= p < lum@.len() ==> #[trigger] lum@[p] == seg_luma(
                    *img, p % w as int, p / w as int),
            forall|p: int| 0 <= p < lum@.len() ==> #[trigger] lum@[p] <= 255000,
        decreases h - y,
    {
        let mut x: usize = 0;
        while x < w
            invariant
                img.wf(),
                w == img.width,
                h == img.height,
                0 <= x <= w,
                y < h,
                lum@.len() == y * w + x,
                forall|p: int|
                    0 <= p < lum@.len() ==> #[trigger] lum@[p] == seg_luma(
                        *img, p % w as int, p / w as int),
                forall|p: int| 0 <= p < lum@.len() ==> #[trigger] lum@[p] <= 255000,
            decreases w - x,
        {
            let r = img.chan_at(x, y, 0);
            let g = img.chan_at(x, y, 1);
            let b = img.chan_at(x, y, 2);
            let l = luma601(r, g, b);
            lum.push(l);
            proof {
                lemma_flat_index(x as int, y as int, w as int);
            }
            x = x + 1;
        }
        proof {
            assert(y * w + w == (y + 1) * w) by (nonlinear_arith);
        }
        y = y + 1;
    }
    proof {
        assert(h * w == w * h) by (nonlinear_arith);
    }
    lum
}

/// Reads the stored luminance of `(x, y)`.
fn lum_at(lum: &Vec<u32>, img: &RasterImage, x: usize, y: usize) -> (v: u32)
    requires
        img.wf(),
        lum@.len() == img.width * img.height,
        forall|p: int|
            0 <= p < lum@.len() ==> #[trigger] lum@[p] == seg_luma(
                *img, p % img.width as int, p / img.width as int),
        forall|p: int| 0 <= p < lum@.len() ==> #[trigger] lum@[p] <= 255000,
        x < img.width,
        y < img.height,
    ensures
        v == seg_luma(*img, x as int, y as int),
        v <= 255000,
{
    let w = img.width;
    let n = lum.len();
    proof {
        lemma_row_major_in_range(x as int, y as int, w as int, img.height as int);
        lemma_flat_index(x as int, y as int, w as int);
    }
    lum[y * w + x]
}

/// Squared Sobel magnitudes of every pixel (zero at the border), and the
/// image-wide maximum.
fn magsq_map(img: &RasterImage, lum: &Vec<u32>) -> (r: (Vec<u64>, u64))
    requires
        img.wf(),
        lum@.len() == img.width * img.height,
        forall|p: int|
            0 <= p < lum@.len() ==> #[trigger] lum@[p] == seg_luma(
                *img, p % img.width as int, p / img.width as int),
        forall|p: int| 0 <= p < lum@.len() ==> #[trigger] lum@[p] <= 255000,
    ensures
        r.0@.len() == img.width * img.height,
        forall|p: int|
            0 <= p < r.0@.len() ==> #[trigger] r.0@[p] == seg_magsq(
                *img, p % img.width as int, p / img.width as int),
        forall|p: int| 0 <= p < r.0@.len() ==> #[trigger] r.0@[p] <= 2_080_800_000_000,
        r.1 == seg_maxsq(*img),
        r.1 <= 2_080_800_000_000,
{
    let w = img.width;
    let h = img.height;
    let mut msq: Vec<u64> = Vec::new();
    let mut maxv: u64 = 0;
    let mut y: usize = 0;
    while y < h
        invariant
            img.wf(),
            w == img.width,
            h == img.height,
            lum@.len() == w * h,
            forall|p: int|
                0 <= p < lum@.len() ==> #[trigger] lum@[p] == seg_luma(
                    *img, p % w as int, p / w as int),
            forall|p: int| 0 <= p < lum@.len() ==> #[trigger] lum@[p] <= 255000,
            0 <= y <= h,
            msq@.len() == y * w,
            forall|p: int|
                0 <= p < msq@.len() ==> #[trigger] msq@[p] == seg_magsq(
                    *img, p % w as int, p / w as int),
            forall|p: int| 0 <= p < msq@.len() ==> #[trigger] msq@[p] <= 2_080_800_000_000,
            maxv == seg_maxsq_upto(*img, y * w as int),
            maxv <= 2_080_800_000_000,
        decreases h - y,
    {
        let mut x: usize = 0;
        while x < w
            invariant
                img.wf(),
                w == img.width,
                h == img.height,
                lum@.len() == w * h,
                forall|p: int|
                    0 <= p < lum@.len() ==> #[trigger] lum@[p] == seg_luma(
                        *img, p % w as int, p / w as int),
                forall|p: int| 0 <= p < lum@.len() ==> #[trigger] lum@[p] <= 255000,
                0 <= x <= w,
                y < h,
                msq@.len() == y * w + x,
                forall|p: int|
                    0 <= p < msq@.len() ==> #[trigger] msq@[p] == seg_magsq(
                        *img, p % w as int, p / w as int),
                forall|p: int| 0 <= p < msq@.len() ==> #[trigger] msq@[p] <= 2_080_800_000_000,
                maxv == seg_maxsq_upto(*img, y * w + x),
                maxv <= 2_080_800_000_000,
            decreases w - x,
        {
            let m: u64;
            if x >= 1 && x + 1 < w && y >= 1 && y + 1 < h {
                let a = lum_at(lum, img, x + 1, y - 1) as i64;
                let b = lum_at(lum, img, x + 1, y) as i64;
                let c = lum_at(lum, img, x + 1, y + 1) as i64;
                let d = lum_at(lum, img, x - 1, y - 1) as i64;
                let e = lum_at(lum, img, x - 1, y) as i64;
                let f = lum_at(lum, img, x - 1, y + 1) as i64;
                let g2 = lum_at(lum, img, x, y + 1) as i64;
                let g8 = lum_at(lum, img, x, y - 1) as i64;
                let gx = (a + 2 * b + c) - (d + 2 * e + f);
                let gy = (f + 2 * g2 + c) - (d + 2 * g8 + a);
                proof {
                    assert(gx * gx <= 1020000 * 1020000 && gy * gy <= 1020000 * 1020000
                        && gx * gx >= 0 && gy * gy >= 0) by (nonlinear_arith)
                        requires
                            -1020000 <= gx <= 1020000,
                            -1020000 <= gy <= 1020000,
                    ;
                }
                m = (gx * gx + gy * gy) as u64;
                proof {
                    assert(is_interior(*img, x as int, y as int));
                    assert(gx == seg_gx(*img, x as int, y as int));
                    assert(gy == seg_gy(*img, x as int, y as int));
                }
            } else {
                m = 0;
                proof {
                    assert(!is_interior(*img, x as int, y as int));
                }
            }
            msq.push(m);
            if m > maxv {
                maxv = m;
            }
            proof {
                lemma_flat_index(x as int, y as int, w as int);
                assert(m == seg_magsq(*img, x as int, y as int));
                assert(seg_maxsq_upto(*img, y * w + x + 1) == if m > seg_maxsq_upto(
                    *img, y * w + x) {
                    m as int
                } else {
                    seg_maxsq_upto(*img, y * w + x)
                });
            }
            x = x + 1;
        }
        proof {
            assert(y * w + w == (y + 1) * w) by (nonlinear_arith);
        }
        y = y + 1;
    }
    proof {
        assert(h * w == w * h) by (nonlinear_arith);
    }
    (msq, maxv)
}

/// Truncated mean RGB over the rectangle `[x0, x1) x [y0, y1)`.
fn rect_mean(img: &RasterImage, x0: usize, x1: usize, y0: usize, y1: usize) -> (m: (u8, u8, u8))
    requires
        img.wf(),
        x0 < x1 <= img.width,
        y0 < y1 <= img.height,
    ensures
        m.0 == rect_sum(*img, x0 as int, x1 as int, y0 as int, y1 as int, 0) / ((x1 - x0) * (y1
            - y0)),
        m.1 == rect_sum(*img, x0 as int, x1 as int, y0 as int, y1 as int, 1) / ((x1 - x0) * (y1
            - y0)),
        m.2 == rect_sum(*img, x0 as int, x1 as int, y0 as int, y1 as int, 2) / ((x1 - x0) * (y1
            - y0)),
{
    let dl = img.data.len();
    let mut sr: u128 = 0;
    let mut sg: u128 = 0;
    let mut sb: u128 = 0;
    let ghost mut cnt: int = 0;
    proof {
        assert(img.width * img.height <= img.width * img.height * 4) by (nonlinear_arith)
            requires
                img.width >= 1,
                img.height >= 1,
        ;
    }
    let mut y: usize = y0;
    while y < y1
        invariant
            img.wf(),
            x0 < x1 <= img.width,
            y0 <= y <= y1 <= img.height,
            dl == img.data@.len(),
            cnt == (y - y0) * (x1 - x0),
            0 <= cnt <= img.width * img.height,
            sr == rect_sum(*img, x0 as int, x1 as int, y0 as int, y as int, 0),
            sg == rect_sum(*img, x0 as int, x1 as int, y0 as int, y as int, 1),
            sb == rect_sum(*img, x0 as int, x1 as int, y0 as int, y as int, 2),
            sr <= 255 * cnt,
            sg <= 255 * cnt,
            sb <= 255 * cnt,
        decreases y1 - y,
    {
        let mut x: usize = x0;
        while x < x1
            invariant
                img.wf(),
                x0 <= x <= x1 <= img.width,
                y0 <= y < y1 <= img.height,
                dl == img.data@.len(),
                cnt == (y - y0) * (x1 - x0) + (x - x0),
                0 <= cnt <= img.width * img.height,
                sr == rect_sum(*img, x0 as int, x1 as int, y0 as int, y as int, 0) + row_sum(
                    *img, y as int, x0 as int, x as int, 0),
                sg == rect_sum(*img, x0 as int, x1 as int, y0 as int, y as int, 1) + row_sum(
                    *img, y as int, x0 as int, x as int, 1),
                sb == rect_sum(*img, x0 as int, x1 as int, y0 as int, y as int, 2) + row_sum(
                    *img, y as int, x0 as int, x as int, 2),
                sr <= 255 * cnt,
                sg <= 255 * cnt,
                sb <= 255 * cnt,
            decreases x1 - x,
        {
            let r = img.chan_at(x, y, 0);
            let g = img.chan_at(x, y, 1);
            let b = img.chan_at(x, y, 2);
            proof {
                lemma_cnt_fits(y - y0, x - x0, x1 - x0, img.width as int, img.height as int,
                    dl as int);
            }
            sr = sr + r as u128;
            sg = sg + g as u128;
            sb = sb + b as u128;
            proof {
                cnt = cnt + 1;
            }
            x = x + 1;
        }
        proof {
            assert((y - y0) * (x1 - x0) + (x1 - x0) == (y + 1 - y0) * (x1 - x0))
                by (nonlinear_arith);
        }
        y = y + 1;
    }
    let dx = x1 - x0;
    let dy = y1 - y0;
    proof {
        lemma_rect_sum_bound(*img, x0 as int, x1 as int, y0 as int, y1 as int, 0);
        lemma_rect_sum_bound(*img, x0 as int, x1 as int, y0 as int, y1 as int, 1);
        lemma_rect_sum_bound(*img, x0 as int, x1 as int, y0 as int, y1 as int, 2);
        lemma_cnt_fits(y1 - y0 - 1, x1 - x0 - 1, x1 - x0, img.width as int,
            img.height as int, dl as int);
        vstd::arithmetic::mul::lemma_mul_upper_bound(
            (x1 - x0) as int, img.width as int, (y1 - y0) as int, img.height as int);
        assert((y1 - y0 - 1) * (x1 - x0) + (x1 - x0 - 1) + 1 == (x1 - x0) * (y1 - y0))
            by (nonlinear_arith);
        let count = (x1 - x0) as int * (y1 - y0) as int;
        vstd::arithmetic::div_mod::lemma_div_is_ordered(
            rect_sum(*img, x0 as int, x1 as int, y0 as int, y1 as int, 0), 255 * count, count);
        vstd::arithmetic::div_mod::lemma_div_is_ordered(
            rect_sum(*img, x0 as int, x1 as int, y0 as int, y1 as int, 1), 255 * count, count);
        vstd::arithmetic::div_mod::lemma_div_is_ordered(
            rect_sum(*img, x0 as int, x1 as int, y0 as int, y1 as int, 2), 255 * count, count);
        vstd::arithmetic::div_mod::lemma_div_by_multiple(255, count);
        assert(255 * count == count * 255) by (nonlinear_arith);
        vstd::arithmetic::div_mod::lemma_div_pos_is_pos(
            rect_sum(*img, x0 as int, x1 as int, y0 as int, y1 as int, 0), count);
        vstd::arithmetic::div_mod::lemma_div_pos_is_pos(
            rect_sum(*img, x0 as int, x1 as int, y0 as int, y1 as int, 1), count);
        vstd::arithmetic::div_mod::lemma_div_pos_is_pos(
            rect_sum(*img, x0 as int, x1 as int, y0 as int, y1 as int, 2), count);
    }
    let count: u64 = (dx as u64) * (dy as u64);
    let c128 = count as u128;
    ((sr / c128) as u8, (sg / c128) as u8, (sb / c128) as u8)
}

/// Facts about the rounded-up block-grid extent `n = ceil(limit / bs)`.
proof fn lemma_ceil_div(limit: int, bs: int, n: int)
    requires
        1 <= limit,
        10 <= bs,
        n == limit / bs + if limit % bs == 0 {
            0int
        } else {
            1int
        },
    ensures
        n * bs >= limit,
        1 <= n <= limit,
        forall|i: int| 0 <= i < limit ==> #[trigger] (i / bs) < n,
{
    vstd::arithmetic::div_mod::lemma_fundamental_div_mod(limit, bs);
    vstd::arithmetic::div_mod::lemma_div_pos_is_pos(limit, bs);
    assert(0 <= limit % bs < bs) by {
        vstd::arithmetic::div_mod::lemma_mod_bound(limit, bs);
    }
    if limit % bs == 0 {
        assert(n * bs == bs * (limit / bs)) by (nonlinear_arith)
            requires
                n == limit / bs,
        ;
        assert(limit / bs >= 1) by (nonlinear_arith)
            requires
                limit == bs * (limit / bs),
                limit >= 1,
                bs >= 10,
                limit / bs >= 0,
        ;
        vstd::arithmetic::div_mod::lemma_div_is_ordered_by_denominator(limit, 1, bs);
        assert(limit / 1 == limit);
    } else {
        assert(n * bs == bs * (limit / bs) + bs) by (nonlinear_arith)
            requires
                n == limit / bs + 1,
        ;
        assert(limit / bs + 1 <= limit) by (nonlinear_arith)
            requires
                limit == bs * (limit / bs) + limit % bs,
                bs >= 10,
                limit / bs >= 0,
                1 <= limit % bs < bs,
                limit >= 1,
        ;
    }
    assert forall|i: int| 0 <= i < limit implies #[trigger] (i / bs) < n by {
        assert(bs * n == n * bs) by (nonlinear_arith);
        vstd::arithmetic::div_mod::lemma_multiply_divide_lt(i, bs, n);
    }
}

/// A partial pixel count of a rectangle stays below the buffer length.
proof fn lemma_cnt_fits(rows: int, extra: int, rowlen: int, w: int, h: int, dl: int)
    requires
        0 <= rows,
        0 <= extra < rowlen,
        rowlen <= w,
        rows + 1 <= h,
        1 <= w,
        1 <= h,
        dl == w * h * 4,
        dl <= usize::MAX,
    ensures
        rows * rowlen + extra + 1 <= w * h,
        w * h * 4 == 4 * (w * h),
        w * h <= dl,
{
    assert(rows * rowlen + extra + 1 <= w * h) by (nonlinear_arith)
        requires
            0 <= rows,
            0 <= extra < rowlen,
            rowlen <= w,
            rows + 1 <= h,
            1 <= w,
    ;
    assert(w * h * 4 == 4 * (w * h)) by (nonlinear_arith);
}

/// Applies the posterized block segmentation. The output has the source
/// dimensions, every pixel carries a palette color with full opacity, and
/// each channel is the exact value of `seg_data`.
#[verifier::rlimit(100)]
pub fn segment_filter(img: &RasterImage) -> (out: RasterImage)
    requires
        img.wf(),
    ensures
        out.wf(),
        out.width == img.width,
        out.height == img.height,
        out.data@ == seg_data(*img),
{
    let w = img.width;
    let h = img.height;
    let dl = img.data.len();
    proof {
        assert(w * h <= w * h * 4 && 4 * (w * h) == w * h * 4 && w * h >= 1
            && 4 * w <= w * h * 4 && 4 * h <= w * h * 4) by (nonlinear_arith)
            requires
                w >= 1,
                h >= 1,
        ;
    }
    let lum = luma_map(img);
    let pair = magsq_map(img, &lum);
    let msq = pair.0;
    let maxv = pair.1;

    let mside = if w <= h { w } else { h };
    proof {
        vstd::arithmetic::div_mod::lemma_div_is_ordered_by_denominator(mside as int, 1, 40);
        assert(mside as int / 1 == mside as int);
    }
    let q = mside / 40;
    let bs = if q >= 10 { q } else { 10 };
    proof {
        assert(bs == seg_block_size(*img));
        assert(bs <= w + 10 && bs <= h + 10);
    }
    proof {
        assert(w * 4 <= w * h * 4 && h * 4 <= w * h * 4) by (nonlinear_arith)
            requires
                w >= 1,
                h >= 1,
        ;
        vstd::arithmetic::div_mod::lemma_div_is_ordered_by_denominator(w as int, 1, bs as int);
        vstd::arithmetic::div_mod::lemma_div_is_ordered_by_denominator(h as int, 1, bs as int);
        assert(w as int / 1 == w as int && h as int / 1 == h as int);
    }
    let nbx = w / bs + (if w % bs == 0 { 0 } else { 1 });
    let nby = h / bs + (if h % bs == 0 { 0 } else { 1 });
    proof {
        lemma_ceil_div(w as int, bs as int, nbx as int);
        lemma_ceil_div(h as int, bs as int, nby as int);
        lemma_grid_start_in_range(w as int, bs as int, nbx as int);
        lemma_grid_start_in_range(h as int, bs as int, nby as int);
        vstd::arithmetic::mul::lemma_mul_upper_bound(
            nbx as int, w as int, nby as int, h as int);
    }
    let mut choices: Vec<u8> = Vec::new();
    let mut by: usize = 0;
    while by < nby
        invariant
            img.wf(),
            w == img.width,
            h == img.height,
            dl == img.data@.len(),
            10 <= bs,
            bs == seg_block_size(*img),
            nbx * bs >= w,
            nby * bs >= h,
            (nbx - 1) * bs < w,
            (nby - 1) * bs < h,
            1 <= nbx <= w,
            1 <= nby <= h,
            4 * w <= dl,
            4 * h <= dl,
            bs <= w + 10,
            bs <= h + 10,
            0 <= by <= nby,
            choices@.len() == by * nbx,
            forall|bb: int|
                0 <= bb < choices@.len() ==> #[trigger] choices@[bb] == block_choice(
                    *img, (bb % nbx as int) * bs as int, (bb / nbx as int) * bs as int)
                    && choices@[bb] < 9,
        decreases nby - by,
    {
        let mut bx: usize = 0;
        while bx < nbx
            invariant
                img.wf(),
                w == img.width,
                h == img.height,
                dl == img.data@.len(),
                10 <= bs,
                bs == seg_block_size(*img),
                nbx * bs >= w,
                nby * bs >= h,
                (nbx - 1) * bs < w,
                (nby - 1) * bs < h,
                1 <= nbx <= w,
                1 <= nby <= h,
                4 * w <= dl,
                4 * h <= dl,
                bs <= w + 10,
                bs <= h + 10,
                by < nby,
                0 <= bx <= nbx,
                choices@.len() == by * nbx + bx,
                forall|bb: int|
                    0 <= bb < choices@.len() ==> #[trigger] choices@[bb] == block_choice(
                        *img, (bb % nbx as int) * bs as int, (bb / nbx as int) * bs as int)
                        && choices@[bb] < 9,
            decreases nbx - bx,
        {
            proof {
                assert(bx * bs + bs <= nbx * bs && by * bs + bs <= nby * bs
                    && bx * bs >= 0 && by * bs >= 0) by (nonlinear_arith)
                    requires
                        0 <= bx < nbx,
                        0 <= by < nby,
                        bs >= 10,
                ;
                assert(bx * bs <= (nbx - 1) * bs && by * bs <= (nby - 1) * bs)
                    by (nonlinear_arith)
                    requires
                        bx <= nbx - 1,
                        by <= nby - 1,
                        bs >= 10,
                ;
            }
            let x0 = bx * bs;
            let y0 = by * bs;
            let x1 = if x0 + bs <= w { x0 + bs } else { w };
            let y1 = if y0 + bs <= h { y0 + bs } else { h };
            let mean = rect_mean(img, x0, x1, y0, y1);
            let pick = nearest_fill(mean.0, mean.1, mean.2);
            choices.push(pick as u8);
            proof {
                vstd::arithmetic::div_mod::lemma_div_by_multiple(bx as int, bs as int);
                vstd::arithmetic::div_mod::lemma_div_by_multiple(by as int, bs as int);
                assert(block_lo(x0 as int, bs as int) == x0);
                assert(block_lo(y0 as int, bs as int) == y0);
                assert(block_hi(x0 as int, bs as int, w as int) == x1);
                assert(block_hi(y0 as int, bs as int, h as int) == y1);
                assert(pick == block_choice(*img, x0 as int, y0 as int));
                let bb = by * nbx + bx;
                lemma_flat_index(bx as int, by as int, nbx as int);
                assert(choices@[bb as int] == block_choice(
                    *img, (bb as int % nbx as int) * bs as int,
                    (bb as int / nbx as int) * bs as int));
            }
            bx = bx + 1;
        }
        proof {
            assert(by * nbx + nbx == (by + 1) * nbx) by (nonlinear_arith);
        }
        by = by + 1;
    }
    proof {
        assert(nby * nbx == nbx * nby) by (nonlinear_arith);
    }
    let cl = choices.len();

    let mut data: Vec<u8> = Vec::new();
    let mut y: usize = 0;
    while y < h
        invariant
            img.wf(),
            w == img.width,
            h == img.height,
            dl == img.data@.len(),
            10 <= bs,
            bs == seg_block_size(*img),
            nbx * bs >= w,
            nby * bs >= h,
            1 <= nbx <= w,
            1 <= nby <= h,
            forall|i: int| 0 <= i < w ==> #[trigger] (i / bs as int) < nbx,
            forall|i: int| 0 <= i < h ==> #[trigger] (i / bs as int) < nby,
            cl == choices@.len(),
            choices@.len() == nby * nbx,
            nby * nbx == nbx * nby,
            forall|bb: int|
                0 <= bb < choices@.len() ==> #[trigger] choices@[bb] == block_choice(
                    *img, (bb % nbx as int) * bs as int, (bb / nbx as int) * bs as int)
                    && choices@[bb] < 9,
            msq@.len() == w * h,
            forall|p: int|
                0 <= p < msq@.len() ==> #[trigger] msq@[p] == seg_magsq(
                    *img, p % w as int, p / w as int),
            forall|p: int| 0 <= p < msq@.len() ==> #[trigger] msq@[p] <= 2_080_800_000_000,
            maxv == seg_maxsq(*img),
            maxv <= 2_080_800_000_000,
            0 <= y <= h,
            data@.len() == 4 * (y * w),
            forall|k: int| 0 <= k < data@.len() ==> #[trigger] data@[k] == seg_data(*img)[k],
        decreases h - y,
    {
        let mut x: usize = 0;
        while x < w
            invariant
                img.wf(),
                w == img.width,
                h == img.height,
                dl == img.data@.len(),
                10 <= bs,
                bs == seg_block_size(*img),
                nbx * bs >= w,
                nby * bs >= h,
                1 <= nbx <= w,
                1 <= nby <= h,
                forall|i: int| 0 <= i < w ==> #[trigger] (i / bs as int) < nbx,
                forall|i: int| 0 <= i < h ==> #[trigger] (i / bs as int) < nby,
                cl == choices@.len(),
                choices@.len() == nby * nbx,
                nby * nbx == nbx * nby,
                forall|bb: int|
                    0 <= bb < choices@.len() ==> #[trigger] choices@[bb] == block_choice(
                        *img, (bb % nbx as int) * bs as int, (bb / nbx as int) * bs as int)
                        && choices@[bb] < 9,
                msq@.len() == w * h,
                forall|p: int|
                    0 <= p < msq@.len() ==> #[trigger] msq@[p] == seg_magsq(
                        *img, p % w as int, p / w as int),
                forall|p: int| 0 <= p < msq@.len() ==> #[trigger] msq@[p] <= 2_080_800_000_000,
                maxv == seg_maxsq(*img),
                maxv <= 2_080_800_000_000,
                y < h,
                0 <= x <= w,
                data@.len() == 4 * (y * w + x),
                forall|k: int| 0 <= k < data@.len() ==> #[trigger] data@[k] == seg_data(*img)[k],
            decreases w - x,
        {
            proof {
                lemma_row_major_in_range(x as int, y as int, w as int, h as int);
                lemma_flat_index(x as int, y as int, w as int);
            }
            let p = y * w + x;
            let m = msq[p];
            let rgb: (u8, u8, u8);
            if 400 * m >= 49 * maxv && m >= 3_600_000_000 {
                rgb = palette(PAL_OUTLINE);
                proof {
                    assert(is_outline_at(seg_magsq(*img, x as int, y as int), seg_maxsq(*img)));
                }
            } else {
                let bxx = x / bs;
                let byy = y / bs;
                proof {
                    lemma_row_major_in_range(bxx as int, byy as int, nbx as int, nby as int);
                    lemma_flat_index(bxx as int, byy as int, nbx as int);
                }
                let bb = byy * nbx + bxx;
                let pick = choices[bb];
                rgb = palette(pick as usize);
                proof {
                    assert(!is_outline_at(seg_magsq(*img, x as int, y as int), seg_maxsq(*img)));
                    lemma_block_choice_same(*img, x as int, y as int, bs as int);
                    assert(pick == block_choice(*img, bxx as int * bs as int,
                        byy as int * bs as int));
                    assert(rgb == palette_rgb(block_choice(*img, x as int, y as int)));
                }
            }
            let ghost pre = data@;
            data.push(rgb.0);
            data.push(rgb.1);
            data.push(rgb.2);
            data.push(255);
            proof {
                assert(rgb == seg_pixel_rgb(*img, x as int, y as int));
                let p4 = 4 * (y * w + x) as int;
                assert(4 * (y * w + x) + 4 <= w * h * 4);
                lemma_pixel_entries(*img, pre, data@, x as int, y as int, rgb.0, rgb.1, rgb.2);
            }
            x = x + 1;
        }
        proof {
            assert(4 * (y * w + w) == 4 * ((y + 1) * w)) by (nonlinear_arith);
        }
        y = y + 1;
    }
    proof {
        assert(4 * (h * w) == w * h * 4) by (nonlinear_arith);
        assert(data@ =~= seg_data(*img));
    }
    RasterImage { width: w, height: h, data }
}

/// The grid's last block starts inside the image.
proof fn lemma_grid_start_in_range(limit: int, bs: int, n: int)
    requires
        1 <= limit,
        10 <= bs,
        n * bs >= limit,
        1 <= n <= limit,
        n == limit / bs + if limit % bs == 0 {
            0int
        } else {
            1int
        },
    ensures
        (n - 1) * bs < limit,
{
    vstd::arithmetic::div_mod::lemma_fundamental_div_mod(limit, bs);
    vstd::arithmetic::div_mod::lemma_mod_bound(limit, bs);
    if limit % bs == 0 {
        assert((n - 1) * bs == bs * (limit / bs) - bs) by (nonlinear_arith)
            requires
                n == limit / bs,
        ;
    } else {
        assert((n - 1) * bs == bs * (limit / bs)) by (nonlinear_arith)
            requires
                n == limit / bs + 1,
        ;
    }
}

/// The block choice is the same for every pixel of the block.
proof fn lemma_block_choice_same(img: RasterImage, x: int, y: int, bs: int)
    requires
        bs == seg_block_size(img),
        bs >= 10,
        0 <= x,
        0 <= y,
    ensures
        block_choice(img, x, y) == block_choice(img, (x / bs) * bs, (y / bs) * bs),
{
    vstd::arithmetic::div_mod::lemma_div_by_multiple(x / bs, bs);
    vstd::arithmetic::div_mod::lemma_div_pos_is_pos(x, bs);
    vstd::arithmetic::div_mod::lemma_div_pos_is_pos(y, bs);
    assert(block_lo((x / bs) * bs, bs) == (x / bs) * bs);
    vstd::arithmetic::div_mod::lemma_div_by_multiple(y / bs, bs);
    assert(block_lo((y / bs) * bs, bs) == (y / bs) * bs);
}

proof fn lemma_maxsq_upto_cong(a: RasterImage, b: RasterImage, k: int)
    requires
        crate::img::same_view(a, b),
    ensures
        seg_maxsq_upto(a, k) == seg_maxsq_upto(b, k),
    decreases k,
{
    if k > 0 {
        lemma_maxsq_upto_cong(a, b, k - 1);
        let x = (k - 1) % a.width as int;
        let y = (k - 1) / a.width as int;
        assert(seg_magsq(a, x, y) == seg_magsq(b, x, y));
    }
}

proof fn lemma_row_sum_cong(a: RasterImage, b: RasterImage, y: int, x0: int, x1: int, c: int)
    requires
        crate::img::same_view(a, b),
    ensures
        row_sum(a, y, x0, x1, c) == row_sum(b, y, x0, x1, c),
    decreases x1 - x0,
{
    if x1 > x0 {
        lemma_row_sum_cong(a, b, y, x0, x1 - 1, c);
    }
}

proof fn lemma_rect_sum_cong(
    a: RasterImage,
    b: RasterImage,
    x0: int,
    x1: int,
    y0: int,
    y1: int,
    c: int,
)
    requires
        crate::img::same_view(a, b),
    ensures
        rect_sum(a, x0, x1, y0, y1, c) == rect_sum(b, x0, x1, y0, y1, c),
    decreases y1 - y0,
{
    if y1 > y0 {
        lemma_rect_sum_cong(a, b, x0, x1, y0, y1 - 1, c);
        lemma_row_sum_cong(a, b, y1 - 1, x0, x1, c);
    }
}

/// The segment filter observes an image only through its dimensions and
/// samples: images with the same view stylize identically.
pub proof fn lemma_seg_data_cong(a: RasterImage, b: RasterImage)
    requires
        crate::img::same_view(a, b),
    ensures
        seg_data(a) == seg_data(b),
{
    lemma_maxsq_upto_cong(a, b, a.width * a.height);
    assert forall|k: int| 0 <= k < a.width * a.height * 4 implies seg_data(a)[k] == seg_data(
        b)[k] by {
        let x = (k / 4) % a.width as int;
        let y = (k / 4) / a.width as int;
        let c = k % 4;
        assert(seg_magsq(a, x, y) == seg_magsq(b, x, y));
        lemma_rect_sum_cong(
            a, b, block_lo(x, seg_block_size(a)), block_hi(x, seg_block_size(a),
            a.width as int), block_lo(y, seg_block_size(a)), block_hi(y, seg_block_size(a),
            a.height as int), 0);
        lemma_rect_sum_cong(
            a, b, block_lo(x, seg_block_size(a)), block_hi(x, seg_block_size(a),
            a.width as int), block_lo(y, seg_block_size(a)), block_hi(y, seg_block_size(a),
            a.height as int), 1);
        lemma_rect_sum_cong(
            a, b, block_lo(x, seg_block_size(a)), block_hi(x, seg_block_size(a),
            a.width as int), block_lo(y, seg_block_size(a)), block_hi(y, seg_block_size(a),
            a.height as int), 2);
        assert(block_mean(a, x, y, 0) == block_mean(b, x, y, 0));
        assert(block_mean(a, x, y, 1) == block_mean(b, x, y, 1));
        assert(block_mean(a, x, y, 2) == block_mean(b, x, y, 2));
        assert(seg_chan(a, x, y, c) == seg_chan(b, x, y, c));
    }
    assert(seg_data(a) =~= seg_data(b));
}

/// Every pixel carries the same RGB triple.
pub open spec fn is_uniform(img: RasterImage, r: u8, g: u8, b: u8) -> bool {
    forall|x: int, y: int|
        0 <= x < img.width && 0 <= y < img.height ==> #[trigger] img.chan(x, y, 0) == r
            && img.chan(x, y, 1) == g && img.chan(x, y, 2) == b
}

/// Law: an image too narrow for a full 3x3 neighborhood has no interior, so
/// every edge magnitude is zero and no pixel ever reaches the outline
/// threshold.
pub proof fn lemma_degenerate_no_edges(img: RasterImage, x: int, y: int)
    requires
        img.wf(),
        img.width <= 2 || img.height <= 2,
    ensures
        seg_magsq(img, x, y) == 0,
        !is_outline_at(seg_magsq(img, x, y), seg_maxsq(img)),
{
}

/// Law: every output pixel of the segment filter carries one of the ten
/// fixed palette colors, outline included.
pub proof fn lemma_segment_palette(img: RasterImage, x: int, y: int)
    requires
        img.wf(),
        0 <= x < img.width,
        0 <= y < img.height,
    ensures
        exists|i: int|
            0 <= i < 10 && seg_pixel_rgb(img, x, y) == #[trigger] palette_rgb(i),
{
    if is_outline_at(seg_magsq(img, x, y), seg_maxsq(img)) {
        assert(seg_pixel_rgb(img, x, y) == palette_rgb(9));
    } else {
        lemma_nearest_fill_range(
            block_mean(img, x, y, 0), block_mean(img, x, y, 1), block_mean(img, x, y, 2), 9);
        let i = block_choice(img, x, y);
        assert(0 <= i < 10 && seg_pixel_rgb(img, x, y) == palette_rgb(i));
    }
}

proof fn lemma_row_sum_uniform(img: RasterImage, y: int, x0: int, x1: int, c: int, v: u8)
    requires
        x0 <= x1,
        forall|x: int| x0 <= x < x1 ==> #[trigger] img.chan(x, y, c) == v,
    ensures
        row_sum(img, y, x0, x1, c) == (x1 - x0) * v,
    decreases x1 - x0,
{
    if x1 <= x0 {
        assert((x1 - x0) * v == 0) by (nonlinear_arith)
            requires
                x1 - x0 == 0,
        ;
    } else {
        lemma_row_sum_uniform(img, y, x0, x1 - 1, c, v);
        assert(img.chan(x1 - 1, y, c) == v);
        assert((x1 - 1 - x0) * v + v == (x1 - x0) * v) by (nonlinear_arith);
    }
}

proof fn lemma_rect_sum_uniform(
    img: RasterImage,
    x0: int,
    x1: int,
    y0: int,
    y1: int,
    c: int,
    v: u8,
)
    requires
        x0 <= x1,
        y0 <= y1,
        forall|x: int, y: int|
            x0 <= x < x1 && y0 <= y < y1 ==> #[trigger] img.chan(x, y, c) == v,
    ensures
        rect_sum(img, x0, x1, y0, y1, c) == (x1 - x0) * (y1 - y0) * v,
    decreases y1 - y0,
{
    if y1 <= y0 {
        assert((x1 - x0) * 0 * v == 0) by (nonlinear_arith);
    } else {
        lemma_rect_sum_uniform(img, x0, x1, y0, y1 - 1, c, v);
        lemma_row_sum_uniform(img, y1 - 1, x0, x1, c, v);
        assert((x1 - x0) * (y1 - 1 - y0) * v + (x1 - x0) * v == (x1 - x0) * (y1 - y0) * v)
            by (nonlinear_arith);
    }
}

/// Law: on a uniform image no pixel reaches the outline threshold and every
/// output pixel is the fill color nearest to the one input color.
pub proof fn lemma_segment_uniform(img: RasterImage, r: u8, g: u8, b: u8, x: int, y: int)
    requires
        img.wf(),
        is_uniform(img, r, g, b),
        0 <= x < img.width,
        0 <= y < img.height,
    ensures
        seg_magsq(img, x, y) == 0,
        !is_outline_at(seg_magsq(img, x, y), seg_maxsq(img)),
        seg_pixel_rgb(img, x, y) == palette_rgb(nearest_fill_of(r as int, g as int, b as int)),
{
    let w = img.width as int;
    let h = img.height as int;
    if is_interior(img, x, y) {
        assert(seg_gx(img, x, y) == 0 && seg_gy(img, x, y) == 0);
    }
    assert(seg_magsq(img, x, y) == 0);
    assert(!is_outline_at(seg_magsq(img, x, y), seg_maxsq(img)));

    let bs = seg_block_size(img);
    assert(bs >= 10);
    let x0 = block_lo(x, bs);
    let x1 = block_hi(x, bs, w);
    let y0 = block_lo(y, bs);
    let y1 = block_hi(y, bs, h);
    vstd::arithmetic::div_mod::lemma_remainder_lower(x, bs);
    vstd::arithmetic::div_mod::lemma_remainder_lower(y, bs);
    vstd::arithmetic::div_mod::lemma_fundamental_div_mod(x, bs);
    vstd::arithmetic::div_mod::lemma_fundamental_div_mod(y, bs);
    vstd::arithmetic::div_mod::lemma_mod_bound(x, bs);
    vstd::arithmetic::div_mod::lemma_mod_bound(y, bs);
    assert(bs * (x / bs) == (x / bs) * bs) by (nonlinear_arith);
    assert(bs * (y / bs) == (y / bs) * bs) by (nonlinear_arith);
    assert(x0 <= x < x1 <= w);
    assert(y0 <= y < y1 <= h);
    assert forall|xx: int, yy: int| x0 <= xx < x1 && y0 <= yy < y1 implies
        img.chan(xx, yy, 0) == r && img.chan(xx, yy, 1) == g && img.chan(xx, yy, 2) == b by {
        assert(img.chan(xx, yy, 0) == r);
    }
    lemma_rect_sum_uniform(img, x0, x1, y0, y1, 0, r);
    lemma_rect_sum_uniform(img, x0, x1, y0, y1, 1, g);
    lemma_rect_sum_uniform(img, x0, x1, y0, y1, 2, b);
    let count = (x1 - x0) * (y1 - y0);
    assert((x1 - x0) * (y1 - y0) >= 1) by (nonlinear_arith)
        requires
            x1 - x0 >= 1,
            y1 - y0 >= 1,
    ;
    assert((x1 - x0) * (y1 - y0) * (r as int) == (r as int) * ((x1 - x0) * (y1 - y0)))
        by (nonlinear_arith);
    assert((x1 - x0) * (y1 - y0) * (g as int) == (g as int) * ((x1 - x0) * (y1 - y0)))
        by (nonlinear_arith);
    assert((x1 - x0) * (y1 - y0) * (b as int) == (b as int) * ((x1 - x0) * (y1 - y0)))
        by (nonlinear_arith);
    vstd::arithmetic::div_mod::lemma_div_by_multiple(r as int, count);
    vstd::arithmetic::div_mod::lemma_div_by_multiple(g as int, count);
    vstd::arithmetic::div_mod::lemma_div_by_multiple(b as int, count);
    assert(block_mean(img, x, y, 0) == r as int);
    assert(block_mean(img, x, y, 1) == g as int);
    assert(block_mean(img, x, y, 2) == b as int);
}

/// Pushing the four channels of one pixel extends the prefix of `seg_data`.
proof fn lemma_pixel_entries(
    img: RasterImage,
    pre: Seq<u8>,
    cur: Seq<u8>,
    x: int,
    y: int,
    r: u8,
    g: u8,
    b: u8,
)
    requires
        img.wf(),
        0 <= x < img.width,
        0 <= y < img.height,
        pre.len() == 4 * (y * img.width + x),
        cur == pre.push(r).push(g).push(b).push(255u8),
        (r, g, b) == seg_pixel_rgb(img, x, y),
        forall|k: int| 0 <= k < pre.len() ==> #[trigger] pre[k] == seg_data(img)[k],
    ensures
        cur.len() == 4 * (y * img.width + x) + 4,
        forall|k: int| 0 <= k < cur.len() ==> #[trigger] cur[k] == seg_data(img)[k],
{
    let w = img.width as int;
    let p = y * w + x;
    lemma_row_major_in_range(x, y, w, img.height as int);
    lemma_flat_index(x, y, w);
    assert forall|k: int| 0 <= k < cur.len() implies #[trigger] cur[k] == seg_data(img)[k] by {
        if k < pre.len() {
            assert(cur[k] == pre[k]);
        } else {
            let c = k - 4 * p;
            assert(0 <= c < 4);
            assert(k == p * 4 + c);
            vstd::arithmetic::div_mod::lemma_fundamental_div_mod_converse_div(k, 4, p, c);
            vstd::arithmetic::div_mod::lemma_fundamental_div_mod_converse_mod(k, 4, p, c);
            assert(k / 4 == p && k % 4 == c);
            assert(0 <= k < img.width * img.height * 4) by (nonlinear_arith)
                requires
                    k == p * 4 + c,
                    0 <= c < 4,
                    0 <= p < img.width * img.height,
            ;
            assert(seg_data(img)[k] == seg_chan(img, x, y, c));
        }
    }
}

} // verus!
