//! Painterly strokes ("vangogh"): for every output pixel a line integral of
//! bilinear source samples is taken along the local isophote direction (the
//! perpendicular of the luminance gradient), bent by a center-weighted swirl,
//! with a Gaussian falloff along the stroke. The normalized color is then
//! saturation-boosted, tilted toward yellow/blue, dithered with one byte of
//! the shared generator, and quantized by truncation. Output alpha is always
//! fully opaque.
//!
//! All arithmetic is fixed-point: `FP` (4096) is 1.0, a channel value of
//! `255 * FP` is full intensity, and every division truncates.

use vstd::prelude::*;
use crate::img::RasterImage;
use crate::img::lemma_flat_index;
use crate::img::lemma_row_major_in_range;
use crate::mathx::FP;
use crate::mathx::clamp_of;
use crate::mathx::clamp_i64;
use crate::mathx::div_tz;
use crate::mathx::quot_tz;
use crate::mathx::exp_neg_of;
use crate::mathx::exp_neg;
use crate::mathx::sqrt_floor;
use crate::mathx::isqrt;
use crate::mathx::luma601_of;
use crate::mathx::luma601;
use crate::rng::DitherGen;
use crate::rng::state_after;
use crate::rng::byte_of_state;

verus! {

/// Luminance at edge-replicated coordinates, in thousandths.
pub open spec fn st_luma(img: RasterImage, x: int, y: int) -> int {
    let cx = clamp_of(x, 0, img.width - 1);
    let cy = clamp_of(y, 0, img.height - 1);
    luma601_of(img.chan(cx, cy, 0), img.chan(cx, cy, 1), img.chan(cx, cy, 2))
}

/// Central-difference luminance gradient, horizontal part.
pub open spec fn st_gx(img: RasterImage, x: int, y: int) -> int {
    st_luma(img, x + 1, y) - st_luma(img, x - 1, y)
}

/// Central-difference luminance gradient, vertical part.
pub open spec fn st_gy(img: RasterImage, x: int, y: int) -> int {
    st_luma(img, x, y + 1) - st_luma(img, x, y - 1)
}

/// Unit isophote direction in fixed point: the gradient rotated a quarter
/// turn and normalized; straight up where the gradient vanishes.
pub open spec fn st_dir(img: RasterImage, x: int, y: int) -> (int, int) {
    let gx = st_gx(img, x, y);
    let gy = st_gy(img, x, y);
    if gx == 0 && gy == 0 {
        (0, FP as int)
    } else {
        let nr = sqrt_floor((gx * gx + gy * gy) as nat) as int;
        (div_tz(-gy * FP, nr), div_tz(gx * FP, nr))
    }
}

/// Swirl angle in fixed point: a quarter radian scaled by a Gaussian of the
/// distance from the image center, with swirl radius 0.45 of the short side.
pub open spec fn st_alpha(img: RasterImage, x: int, y: int) -> int {
    let dx2 = 2 * x - (img.width - 1);
    let dy2 = 2 * y - (img.height - 1);
    let dd = dx2 * dx2 + dy2 * dy2;
    let mn = if img.width <= img.height {
        img.width as int
    } else {
        img.height as int
    };
    let z = FP * dd * 50 / (81 * mn * mn);
    let zc = if z >= 16 * FP {
        16 * FP as int
    } else {
        z
    };
    exp_neg_of(zc) / 4
}

/// The stroke direction: the isophote direction rotated by the swirl angle,
/// using the small-angle series for sine and cosine.
pub open spec fn st_rot(img: RasterImage, x: int, y: int) -> (int, int) {
    let (ux, uy) = st_dir(img, x, y);
    let al = st_alpha(img, x, y);
    let ca = FP - al * al / (2 * FP);
    let sa = al - al * al * al / (6 * FP * FP);
    (div_tz(ux * ca - uy * sa, FP as int), div_tz(ux * sa + uy * ca, FP as int))
}

/// Stroke half-length: clamp(0.015 * long side, 6, 18).
pub open spec fn st_len(img: RasterImage) -> int {
    let mx = if img.width <= img.height {
        img.height as int
    } else {
        img.width as int
    };
    clamp_of(15 * mx / 1000, 6, 18)
}

/// Gaussian stroke weight at offset `t`: e^(-t^2 / (2 sigma^2)), sigma L/2.
pub open spec fn st_weight(len: int, t: int) -> int {
    exp_neg_of(2 * t * t * FP / (len * len))
}

/// Bilinear source sample of channel `c` at fixed-point coordinates,
/// edge-replicated, in channel scale `255 * FP`.
pub open spec fn st_sample(img: RasterImage, sxf: int, syf: int, c: int) -> int {
    let cx = clamp_of(sxf, 0, (img.width - 1) * FP);
    let cy = clamp_of(syf, 0, (img.height - 1) * FP);
    let x0 = cx / FP as int;
    let y0 = cy / FP as int;
    let x1 = if x0 + 1 <= img.width - 1 {
        x0 + 1
    } else {
        img.width - 1
    };
    let y1 = if y0 + 1 <= img.height - 1 {
        y0 + 1
    } else {
        img.height - 1
    };
    let fx = cx - x0 * FP;
    let fy = cy - y0 * FP;
    ((FP - fx) * (FP - fy) * img.chan(x0, y0, c) + fx * (FP - fy) * img.chan(x1, y0, c) + (FP
        - fx) * fy * img.chan(x0, y1, c) + fx * fy * img.chan(x1, y1, c)) / FP as int
}

/// Weight total of the first `n` of the `2L + 1` stroke samples.
pub open spec fn st_wsum(len: int, n: int) -> int
    decreases n,
{
    if n <= 0 {
        0
    } else {
        st_wsum(len, n - 1) + st_weight(len, n - 1 - len)
    }
}

/// Weighted channel total of the first `n` stroke samples.
pub open spec fn st_csum(
    img: RasterImage,
    x: int,
    y: int,
    rx: int,
    ry: int,
    len: int,
    c: int,
    n: int,
) -> int
    decreases n,
{
    if n <= 0 {
        0
    } else {
        let t = n - 1 - len;
        st_csum(img, x, y, rx, ry, len, c, n - 1) + st_weight(len, t) * st_sample(
            img, x * FP + t * rx, y * FP + t * ry, c)
    }
}

/// Normalized line-integral color of channel `c`, in channel scale.
pub open spec fn st_base(img: RasterImage, x: int, y: int, c: int) -> int {
    let (rx, ry) = st_rot(img, x, y);
    let len = st_len(img);
    st_csum(img, x, y, rx, ry, len, c, 2 * len + 1) / st_wsum(len, 2 * len + 1)
}

/// Saturation boost around the RGB mean with per-channel gains
/// 1.25, 1.225, 1.275, clamped to channel range.
pub open spec fn st_sat(img: RasterImage, x: int, y: int, c: int) -> int {
    let r = st_base(img, x, y, 0);
    let g = st_base(img, x, y, 1);
    let b = st_base(img, x, y, 2);
    let avg = (r + g + b) / 3;
    let v = if c == 0 {
        r
    } else if c == 1 {
        g
    } else {
        b
    };
    let gain = if c == 0 {
        50int
    } else if c == 1 {
        49int
    } else {
        51int
    };
    clamp_of(avg + div_tz((v - avg) * gain, 40), 0, 255 * FP as int)
}

/// Yellow/blue bias: R*1.05 + 0.03, G*1.05 + 0.02, B*1.08, clamped.
pub open spec fn st_bias(img: RasterImage, x: int, y: int, c: int) -> int {
    let v = st_sat(img, x, y, c);
    let w = if c == 0 {
        (105 * v + 765 * FP) / 100
    } else if c == 1 {
        (105 * v + 510 * FP) / 100
    } else {
        108 * v / 100
    };
    clamp_of(w, 0, 255 * FP as int)
}

/// The dither offset of one generator byte: +-0.5% of full scale.
pub open spec fn st_dither(d: u8) -> int {
    div_tz((2 * d - 255) * FP, 200)
}

/// Final 8-bit value of channel `c` at `(x, y)` under dither byte `d`.
pub open spec fn st_chan(img: RasterImage, x: int, y: int, d: u8, c: int) -> u8 {
    (clamp_of(st_bias(img, x, y, c) + st_dither(d), 0, 255 * FP as int) / FP as int) as u8
}

/// The byte the generator hands out on its `p`-th draw after `seed`.
pub open spec fn dither_byte(seed: u64, p: int) -> u8 {
    byte_of_state(state_after(seed, (p + 1) as nat))
}

/// The whole output buffer of the stroke filter under a generator seed.
pub open spec fn stroke_data(img: RasterImage, seed: u64) -> Seq<u8> {
    Seq::new(
        (img.width * img.height * 4) as nat,
        |k: int|
            if k % 4 == 3 {
                255u8
            } else {
                st_chan(
                    img, (k / 4) % img.width as int, (k / 4) / img.width as int,
                    dither_byte(seed, k / 4), k % 4)
            },
    )
}

proof fn lemma_st_csum_cong(
    a: RasterImage,
    b: RasterImage,
    x: int,
    y: int,
    rx: int,
    ry: int,
    len: int,
    c: int,
    n: int,
)
    requires
        crate::img::same_view(a, b),
    ensures
        st_csum(a, x, y, rx, ry, len, c, n) == st_csum(b, x, y, rx, ry, len, c, n),
    decreases n,
{
    if n > 0 {
        lemma_st_csum_cong(a, b, x, y, rx, ry, len, c, n - 1);
        let t = n - 1 - len;
        assert(st_sample(a, x * FP + t * rx, y * FP + t * ry, c) == st_sample(
            b, x * FP + t * rx, y * FP + t * ry, c));
    }
}

/// The stroke filter observes an image only through its dimensions and
/// samples: images with the same view stylize identically.
pub proof fn lemma_stroke_data_cong(a: RasterImage, b: RasterImage, seed: u64)
    requires
        crate::img::same_view(a, b),
    ensures
        stroke_data(a, seed) == stroke_data(b, seed),
{
    assert forall|k: int| 0 <= k < a.width * a.height * 4 implies stroke_data(a, seed)[k]
        == stroke_data(b, seed)[k] by {
        let x = (k / 4) % a.width as int;
        let y = (k / 4) / a.width as int;
        let c = k % 4;
        if c != 3 {
            assert(st_rot(a, x, y) == st_rot(b, x, y));
            let (rx, ry) = st_rot(a, x, y);
            let len = st_len(a);
            lemma_st_csum_cong(a, b, x, y, rx, ry, len, 0, 2 * len + 1);
            lemma_st_csum_cong(a, b, x, y, rx, ry, len, 1, 2 * len + 1);
            lemma_st_csum_cong(a, b, x, y, rx, ry, len, 2, 2 * len + 1);
            assert(st_base(a, x, y, 0) == st_base(b, x, y, 0));
            assert(st_base(a, x, y, 1) == st_base(b, x, y, 1));
            assert(st_base(a, x, y, 2) == st_base(b, x, y, 2));
            assert(st_chan(a, x, y, dither_byte(seed, k / 4), c) == st_chan(
                b, x, y, dither_byte(seed, k / 4), c));
        }
    }
    assert(stroke_data(a, seed) =~= stroke_data(b, seed));
}

/// Luminance with edge-replicated coordinates.
fn st_luma_at(img: &RasterImage, x: i64, y: i64) -> (v: u32)
    requires
        img.wf(),
        -2 <= x <= 0x1_0000_0001,
        -2 <= y <= 0x1_0000_0001,
    ensures
        v == st_luma(*img, x as int, y as int),
        v <= 255000,
{
    let w = img.width;
    let h = img.height;
    let cx: usize = if x < 0 {
        0
    } else if x > (w - 1) as i64 {
        w - 1
    } else {
        x as usize
    };
    let cy: usize = if y < 0 {
        0
    } else if y > (h - 1) as i64 {
        h - 1
    } else {
        y as usize
    };
    let r = img.chan_at(cx, cy, 0);
    let g = img.chan_at(cx, cy, 1);
    let b = img.chan_at(cx, cy, 2);
    luma601(r, g, b)
}

/// The stroke direction of a pixel: normalized isophote direction, swirled.
#[verifier::rlimit(100)]
fn st_rot_at(img: &RasterImage, x: usize, y: usize) -> (d: (i64, i64))
    requires
        img.wf(),
        x < img.width,
        y < img.height,
    ensures
        (d.0 as int, d.1 as int) == st_rot(*img, x as int, y as int),
        -2 * FP <= d.0 <= 2 * FP,
        -2 * FP <= d.1 <= 2 * FP,
{
    let xi = x as i64;
    let yi = y as i64;
    let gx = st_luma_at(img, xi + 1, yi) as i64 - st_luma_at(img, xi - 1, yi) as i64;
    let gy = st_luma_at(img, xi, yi + 1) as i64 - st_luma_at(img, xi, yi - 1) as i64;
    let ux: i64;
    let uy: i64;
    if gx == 0 && gy == 0 {
        ux = 0;
        uy = FP;
    } else {
        proof {
            assert(gx * gx + gy * gy >= 1 && gx * gx <= 255000 * 255000
                && gy * gy <= 255000 * 255000 && gx * gx >= 0 && gy * gy >= 0)
                by (nonlinear_arith)
                requires
                    -255000 <= gx <= 255000,
                    -255000 <= gy <= 255000,
                    !(gx == 0 && gy == 0),
            ;
        }
        let nsq = (gx * gx + gy * gy) as u64;
        let nr = isqrt(nsq) as i64;
        proof {
            let n = nsq as int;
            let r = nr as int;
            assert(r >= 1) by (nonlinear_arith)
                requires
                    r * r <= n,
                    n < (r + 1) * (r + 1),
                    n >= 1,
                    r >= 0,
            ;
            assert(-r <= gx <= r && -r <= gy <= r) by (nonlinear_arith)
                requires
                    gx * gx <= n,
                    gy * gy <= n,
                    n < (r + 1) * (r + 1),
                    r >= 0,
            ;
            assert(-(FP as int) * r <= -gy * FP <= (FP as int) * r) by (nonlinear_arith)
                requires
                    -r <= gy <= r,
                    r >= 1,
            ;
            assert(-(FP as int) * r <= gx * FP <= (FP as int) * r) by (nonlinear_arith)
                requires
                    -r <= gx <= r,
                    r >= 1,
            ;
            assert((FP as int) * r == FP * r) by (nonlinear_arith);
            crate::mathx::lemma_div_tz_bound(-gy as int * FP, r, FP as int);
            crate::mathx::lemma_div_tz_bound(gx as int * FP, r, FP as int);
        }
        ux = quot_tz(-gy * FP, nr);
        uy = quot_tz(gx * FP, nr);
    }
    let al = st_alpha_at(img, x, y);
    proof {
        assert(0 <= al * al <= 1048576 && 0 <= al * al * al <= 1073741824
            && 0 <= al * al / (2 * FP) <= 128 && 0 <= al * al * al / (6 * FP * FP) <= al)
            by (nonlinear_arith)
            requires
                0 <= al <= 1024,
                FP == 4096,
        ;
    }
    let ca = FP - al * al / (2 * FP);
    let sa = al - al * al * al / (6 * FP * FP);
    proof {
        assert(-(2 * FP as int) * FP <= ux * ca - uy * sa <= (2 * FP as int) * FP
            && -(2 * FP as int) * FP <= ux * sa + uy * ca <= (2 * FP as int) * FP
            && -16777216 <= ux * ca <= 16777216
            && -16777216 <= uy * sa <= 16777216
            && -16777216 <= ux * sa <= 16777216
            && -16777216 <= uy * ca <= 16777216)
            by (nonlinear_arith)
            requires
                -FP <= ux <= FP,
                -FP <= uy <= FP,
                0 <= ca <= FP,
                0 <= sa <= 1024,
                FP == 4096,
        ;
        crate::mathx::lemma_div_tz_bound(
            ux as int * ca as int - uy as int * sa as int, FP as int, 2 * FP as int);
        crate::mathx::lemma_div_tz_bound(
            ux as int * sa as int + uy as int * ca as int, FP as int, 2 * FP as int);
        assert((2 * FP as int) * FP == 2 * FP * FP) by (nonlinear_arith);
    }
    let rx = quot_tz(ux * ca - uy * sa, FP);
    let ry = quot_tz(ux * sa + uy * ca, FP);
    (rx, ry)
}

/// The swirl angle of a pixel, in fixed point.
fn st_alpha_at(img: &RasterImage, x: usize, y: usize) -> (a: i64)
    requires
        img.wf(),
        x < img.width,
        y < img.height,
    ensures
        a == st_alpha(*img, x as int, y as int),
        0 <= a <= 1024,
{
    let w = img.width;
    let h = img.height;
    let dx2: i128 = 2 * (x as i128) - (w as i128 - 1);
    let dy2: i128 = 2 * (y as i128) - (h as i128 - 1);
    proof {
        assert(dx2 * dx2 >= 0 && dx2 * dx2 <= 0x4_0000_0000_0000_0000
            && dy2 * dy2 >= 0 && dy2 * dy2 <= 0x4_0000_0000_0000_0000) by (nonlinear_arith)
            requires
                -0x1_0000_0000 <= dx2 <= 0x1_0000_0000,
                -0x1_0000_0000 <= dy2 <= 0x1_0000_0000,
        ;
    }
    let dd: i128 = dx2 * dx2 + dy2 * dy2;
    let mn: i128 = if w <= h {
        w as i128
    } else {
        h as i128
    };
    proof {
        assert(mn * mn >= 1 && mn * mn <= 0x1_0000_0000_0000_0000 && 81 * (mn * mn) == 81 * mn
            * mn) by (nonlinear_arith)
            requires
                1 <= mn <= 0x1_0000_0000,
        ;
        assert((FP as i128) * dd >= 0 && (FP as i128) * dd <= 0x1_0000_0000_0000_0000_0000
            && FP as int * (dd as int) * 50 == FP * dd * 50) by (nonlinear_arith)
            requires
                0 <= dd <= 0x8_0000_0000_0000_0000,
                FP == 4096,
        ;
        assert((FP as i128) * dd * 50 <= 0x32_0000_0000_0000_0000_0000) by (nonlinear_arith)
            requires
                0 <= (FP as i128) * dd <= 0x1_0000_0000_0000_0000_0000,
        ;
    }
    let z: i128 = (FP as i128) * dd * 50 / (81 * mn * mn);
    proof {
        vstd::arithmetic::div_mod::lemma_div_pos_is_pos(
            (FP as i128 * dd * 50) as int, (81 * mn * mn) as int);
    }
    let zc: i64 = if z >= 16 * (FP as i128) {
        16 * FP
    } else {
        z as i64
    };
    let e = exp_neg(zc);
    e / 4
}

/// Bilinear, edge-replicated source sample of channel `c`, channel scale.
fn st_sample_at(img: &RasterImage, sxf: i64, syf: i64, c: usize) -> (v: i64)
    requires
        img.wf(),
        c < 4,
        -0x1_0000_0000_0000 <= sxf <= 0x1_0000_0000_0000,
        -0x1_0000_0000_0000 <= syf <= 0x1_0000_0000_0000,
    ensures
        v == st_sample(*img, sxf as int, syf as int, c as int),
        0 <= v <= 255 * FP,
{
    let w = img.width;
    let h = img.height;
    let cx = clamp_i64(sxf, 0, (w as i64 - 1) * FP);
    let cy = clamp_i64(syf, 0, (h as i64 - 1) * FP);
    proof {
        vstd::arithmetic::div_mod::lemma_div_pos_is_pos(cx as int, FP as int);
        vstd::arithmetic::div_mod::lemma_div_pos_is_pos(cy as int, FP as int);
        vstd::arithmetic::div_mod::lemma_div_is_ordered(
            cx as int, (w as int - 1) * FP, FP as int);
        vstd::arithmetic::div_mod::lemma_div_is_ordered(
            cy as int, (h as int - 1) * FP, FP as int);
        vstd::arithmetic::div_mod::lemma_div_by_multiple(w as int - 1, FP as int);
        vstd::arithmetic::div_mod::lemma_div_by_multiple(h as int - 1, FP as int);
        vstd::arithmetic::div_mod::lemma_fundamental_div_mod(cx as int, FP as int);
        vstd::arithmetic::div_mod::lemma_fundamental_div_mod(cy as int, FP as int);
        vstd::arithmetic::div_mod::lemma_mod_bound(cx as int, FP as int);
        vstd::arithmetic::div_mod::lemma_mod_bound(cy as int, FP as int);
    }
    let x0 = (cx / FP) as usize;
    let y0 = (cy / FP) as usize;
    let x1 = if x0 + 1 <= w - 1 {
        x0 + 1
    } else {
        w - 1
    };
    let y1 = if y0 + 1 <= h - 1 {
        y0 + 1
    } else {
        h - 1
    };
    let fx = cx % FP;
    let fy = cy % FP;
    proof {
        assert(fx == cx - (cx as int / FP as int) * FP && fy == cy - (cy as int / FP as int)
            * FP) by (nonlinear_arith)
            requires
                cx == FP * (cx as int / FP as int) + cx as int % FP as int,
                cy == FP * (cy as int / FP as int) + cy as int % FP as int,
                fx == cx as int % FP as int,
                fy == cy as int % FP as int,
                FP == 4096,
        ;
    }
    let c00 = img.chan_at(x0, y0, c) as i64;
    let c10 = img.chan_at(x1, y0, c) as i64;
    let c01 = img.chan_at(x0, y1, c) as i64;
    let c11 = img.chan_at(x1, y1, c) as i64;
    proof {
        assert((FP - fx) * (FP - fy) * c00 + fx * (FP - fy) * c10 + (FP - fx) * fy * c01 + fx
            * fy * c11 >= 0 && (FP - fx) * (FP - fy) * c00 + fx * (FP - fy) * c10 + (FP - fx)
            * fy * c01 + fx * fy * c11 <= 255 * (FP as int) * FP
            && 0 <= (FP - fx) * (FP - fy) <= 16777216
            && 0 <= fx * (FP - fy) <= 16777216
            && 0 <= (FP - fx) * fy <= 16777216
            && 0 <= fx * fy <= 16777216
            && 0 <= (FP - fx) * (FP - fy) * c00 <= 4278190080
            && 0 <= fx * (FP - fy) * c10 <= 4278190080
            && 0 <= (FP - fx) * fy * c01 <= 4278190080
            && 0 <= fx * fy * c11 <= 4278190080) by (nonlinear_arith)
            requires
                0 <= fx < FP,
                0 <= fy < FP,
                0 <= c00 <= 255,
                0 <= c10 <= 255,
                0 <= c01 <= 255,
                0 <= c11 <= 255,
                FP == 4096,
        ;
        vstd::arithmetic::div_mod::lemma_div_is_ordered(
            ((FP - fx) * (FP - fy) * c00 + fx * (FP - fy) * c10 + (FP - fx) * fy * c01 + fx
                * fy * c11) as int, 255 * (FP as int) * FP, FP as int);
        assert(255 * (FP as int) * FP == (255 * FP as int) * FP) by (nonlinear_arith);
        vstd::arithmetic::div_mod::lemma_div_by_multiple(255 * FP as int, FP as int);
        vstd::arithmetic::div_mod::lemma_div_pos_is_pos(
            ((FP - fx) * (FP - fy) * c00 + fx * (FP - fy) * c10 + (FP - fx) * fy * c01 + fx
                * fy * c11) as int, FP as int);
    }
    ((FP - fx) * (FP - fy) * c00 + fx * (FP - fy) * c10 + (FP - fx) * fy * c01 + fx * fy
        * c11) / FP
}

/// Full stroke transform of one pixel under one dither byte.
#[verifier::rlimit(100)]
fn stroke_pixel(img: &RasterImage, x: usize, y: usize, d: u8) -> (rgb: (u8, u8, u8))
    requires
        img.wf(),
        x < img.width,
        y < img.height,
    ensures
        rgb.0 == st_chan(*img, x as int, y as int, d, 0),
        rgb.1 == st_chan(*img, x as int, y as int, d, 1),
        rgb.2 == st_chan(*img, x as int, y as int, d, 2),
{
    let rot = st_rot_at(img, x, y);
    let rx = rot.0;
    let ry = rot.1;
    let mx = if img.width <= img.height {
        img.height
    } else {
        img.width
    };
    let q = 15 * (mx as u64) / 1000;
    let len: i64 = if q < 6 {
        6
    } else if q > 18 {
        18
    } else {
        q as i64
    };
    proof {
        assert(len == st_len(*img));
    }
    let mut ws: i64 = 0;
    let mut sr: i64 = 0;
    let mut sg: i64 = 0;
    let mut sb: i64 = 0;
    let mut i: i64 = 0;
    while i < 2 * len + 1
        invariant
            img.wf(),
            x < img.width,
            y < img.height,
            6 <= len <= 18,
            (rx as int, ry as int) == st_rot(*img, x as int, y as int),
            -2 * FP <= rx <= 2 * FP,
            -2 * FP <= ry <= 2 * FP,
            0 <= i <= 2 * len + 1,
            ws == st_wsum(len as int, i as int),
            sr == st_csum(*img, x as int, y as int, rx as int, ry as int, len as int, 0,
                i as int),
            sg == st_csum(*img, x as int, y as int, rx as int, ry as int, len as int, 1,
                i as int),
            sb == st_csum(*img, x as int, y as int, rx as int, ry as int, len as int, 2,
                i as int),
            0 <= ws <= i * FP,
            i > len ==> ws >= FP,
            0 <= sr <= ws * (255 * FP as int),
            0 <= sg <= ws * (255 * FP as int),
            0 <= sb <= ws * (255 * FP as int),
        decreases 2 * len + 1 - i,
    {
        let t = i - len;
        proof {
            assert(0 <= 2 * t * t * FP <= 2654208 && 36 <= len * len <= 324)
                by (nonlinear_arith)
                requires
                    -18 <= t <= 18,
                    6 <= len <= 18,
                    FP == 4096,
            ;
            vstd::arithmetic::div_mod::lemma_div_pos_is_pos(
                2 * (t as int) * t * FP, (len as int) * len);
        }
        let wt = exp_neg(2 * t * t * FP / (len * len));
        proof {
            assert(wt == st_weight(len as int, t as int));
            if t == 0 {
                assert(2 * t * t * FP / (len * len) == 0) by (nonlinear_arith)
                    requires
                        t == 0,
                        len * len >= 36,
                ;
            }
            assert(-147456 <= t * rx <= 147456 && -147456 <= t * ry <= 147456)
                by (nonlinear_arith)
                requires
                    -18 <= t <= 18,
                    -2 * FP <= rx <= 2 * FP,
                    -2 * FP <= ry <= 2 * FP,
                    FP == 4096,
            ;
        }
        let sxf = (x as i64) * FP + t * rx;
        let syf = (y as i64) * FP + t * ry;
        let vr = st_sample_at(img, sxf, syf, 0);
        let vg = st_sample_at(img, sxf, syf, 1);
        let vb = st_sample_at(img, sxf, syf, 2);
        proof {
            assert(0 <= wt * vr <= wt * (255 * FP as int) && 0 <= wt * vg <= wt * (255
                * FP as int) && 0 <= wt * vb <= wt * (255 * FP as int) && wt * (255
                * FP as int) <= FP * (255 * FP as int)) by (nonlinear_arith)
                requires
                    0 <= wt <= FP,
                    0 <= vr <= 255 * FP,
                    0 <= vg <= 255 * FP,
                    0 <= vb <= 255 * FP,
                    FP == 4096,
            ;
            assert(ws * (255 * FP as int) + wt * (255 * FP as int) == (ws + wt) * (255
                * FP as int)) by (nonlinear_arith);
            assert((ws + wt) * (255 * FP as int) <= (i + 1) * FP * (255 * FP as int)
                && (i + 1) * FP * (255 * FP as int) <= 39 * 4096 * 1044480)
                by (nonlinear_arith)
                requires
                    0 <= ws <= i * FP,
                    0 <= wt <= FP,
                    0 <= i <= 37,
                    FP == 4096,
            ;
            assert(ws + wt <= (i + 1) * FP) by (nonlinear_arith)
                requires
                    ws <= i * FP,
                    wt <= FP,
            ;
        }
        ws = ws + wt;
        sr = sr + wt * vr;
        sg = sg + wt * vg;
        sb = sb + wt * vb;
        i = i + 1;
    }
    proof {
        assert(ws >= FP);
        vstd::arithmetic::div_mod::lemma_div_is_ordered(sr as int, ws * (255 * FP as int),
            ws as int);
        vstd::arithmetic::div_mod::lemma_div_is_ordered(sg as int, ws * (255 * FP as int),
            ws as int);
        vstd::arithmetic::div_mod::lemma_div_is_ordered(sb as int, ws * (255 * FP as int),
            ws as int);
        assert(ws * (255 * FP as int) == (255 * FP as int) * ws) by (nonlinear_arith);
        vstd::arithmetic::div_mod::lemma_div_by_multiple(255 * FP as int, ws as int);
        vstd::arithmetic::div_mod::lemma_div_pos_is_pos(sr as int, ws as int);
        vstd::arithmetic::div_mod::lemma_div_pos_is_pos(sg as int, ws as int);
        vstd::arithmetic::div_mod::lemma_div_pos_is_pos(sb as int, ws as int);
    }
    let br = sr / ws;
    let bg = sg / ws;
    let bb = sb / ws;
    proof {
        assert(br == st_base(*img, x as int, y as int, 0));
        assert(bg == st_base(*img, x as int, y as int, 1));
        assert(bb == st_base(*img, x as int, y as int, 2));
    }
    let avg = (br + bg + bb) / 3;
    let sat_r = sat_channel(br, avg, 50);
    let sat_g = sat_channel(bg, avg, 49);
    let sat_b = sat_channel(bb, avg, 51);
    let bias_r = clamp_i64((105 * sat_r + 765 * FP) / 100, 0, 255 * FP);
    let bias_g = clamp_i64((105 * sat_g + 510 * FP) / 100, 0, 255 * FP);
    let bias_b = clamp_i64(108 * sat_b / 100, 0, 255 * FP);
    let off = quot_tz((2 * (d as i64) - 255) * FP, 200);
    let out_r = (clamp_i64(bias_r + off, 0, 255 * FP) / FP) as u8;
    let out_g = (clamp_i64(bias_g + off, 0, 255 * FP) / FP) as u8;
    let out_b = (clamp_i64(bias_b + off, 0, 255 * FP) / FP) as u8;
    (out_r, out_g, out_b)
}

/// Saturation step of one channel: mean plus boosted deviation, clamped.
fn sat_channel(v: i64, avg: i64, gain: i64) -> (r: i64)
    requires
        0 <= v <= 255 * FP,
        0 <= avg <= 255 * FP,
        49 <= gain <= 51,
    ensures
        r == clamp_of(avg + div_tz((v - avg) * gain, 40), 0, 255 * FP as int),
        0 <= r <= 255 * FP,
{
    proof {
        assert(-(255 * FP as int) * 51 <= (v - avg) * gain <= (255 * FP as int) * 51)
            by (nonlinear_arith)
            requires
                -(255 * FP as int) <= v - avg <= 255 * FP,
                49 <= gain <= 51,
        ;
        crate::mathx::lemma_div_tz_bound((v as int - avg) * gain, 40,
            (255 * FP as int) * 51);
        assert(((255 * FP as int) * 51) * 40 == 255 * FP as int * 2040) by (nonlinear_arith);
    }
    clamp_i64(avg + quot_tz((v - avg) * gain, 40), 0, 255 * FP)
}

/// Applies the painterly stroke filter, drawing one dither byte per pixel
/// in row-major order. The output has the source dimensions, is fully
/// opaque, and is the exact value of `stroke_data` at the starting state of
/// the generator.
#[verifier::rlimit(100)]
pub fn stroke_filter(img: &RasterImage, gen: &mut DitherGen) -> (out: RasterImage)
    requires
        img.wf(),
    ensures
        out.wf(),
        out.width == img.width,
        out.height == img.height,
        out.data@ == stroke_data(*img, old(gen).state),
        final(gen).state == state_after(old(gen).state, (img.width * img.height) as nat),
{
    let w = img.width;
    let h = img.height;
    let ghost seed = gen.state;
    proof {
        assert(w * h <= w * h * 4 && 4 * (w * h) == w * h * 4 && w * h >= 1)
            by (nonlinear_arith)
            requires
                w >= 1,
                h >= 1,
        ;
    }
    let mut data: Vec<u8> = Vec::new();
    let mut y: usize = 0;
    while y < h
        invariant
            img.wf(),
            w == img.width,
            h == img.height,
            0 <= y <= h,
            data@.len() == 4 * (y * w),
            gen.state == state_after(seed, (y * w) as nat),
            forall|k: int|
                0 <= k < data@.len() ==> #[trigger] data@[k] == stroke_data(*img, seed)[k],
        decreases h - y,
    {
        let mut x: usize = 0;
        while x < w
            invariant
                img.wf(),
                w == img.width,
                h == img.height,
                y < h,
                0 <= x <= w,
                data@.len() == 4 * (y * w + x),
                gen.state == state_after(seed, (y * w + x) as nat),
                forall|k: int|
                    0 <= k < data@.len() ==> #[trigger] data@[k] == stroke_data(*img, seed)[k],
            decreases w - x,
        {
            proof {
                lemma_row_major_in_range(x as int, y as int, w as int, h as int);
                lemma_flat_index(x as int, y as int, w as int);
                crate::rng::lemma_state_after_snoc(seed, (y * w + x) as nat);
            }
            let d = gen.next_byte();
            proof {
                assert(d == dither_byte(seed, (y * w + x) as int));
            }
            let rgb = stroke_pixel(img, x, y, d);
            let ghost pre = data@;
            data.push(rgb.0);
            data.push(rgb.1);
            data.push(rgb.2);
            data.push(255);
            proof {
                lemma_stroke_entries(*img, seed, pre, data@, x as int, y as int, rgb.0,
                    rgb.1, rgb.2, d);
            }
            x = x + 1;
        }
        proof {
            assert(4 * (y * w + w) == 4 * ((y + 1) * w) && y * w + w == (y + 1) * w)
                by (nonlinear_arith);
        }
        y = y + 1;
    }
    proof {
        assert(4 * (h * w) == w * h * 4 && h * w == w * h) by (nonlinear_arith);
        assert(data@ =~= stroke_data(*img, seed));
    }
    RasterImage { width: w, height: h, data }
}

/// Law: the stroke filter's output is fully opaque, whatever the source
/// alpha held.
pub proof fn lemma_stroke_opaque(img: RasterImage, seed: u64, x: int, y: int)
    requires
        img.wf(),
        0 <= x < img.width,
        0 <= y < img.height,
    ensures
        stroke_data(img, seed)[(y * img.width + x) * 4 + 3] == 255,
{
    let w = img.width as int;
    let p = y * w + x;
    lemma_row_major_in_range(x, y, w, img.height as int);
    let k = p * 4 + 3;
    vstd::arithmetic::div_mod::lemma_fundamental_div_mod_converse_div(k, 4, p, 3);
    vstd::arithmetic::div_mod::lemma_fundamental_div_mod_converse_mod(k, 4, p, 3);
    assert(0 <= k < img.width * img.height * 4) by (nonlinear_arith)
        requires
            k == p * 4 + 3,
            0 <= p < img.width * img.height,
    ;
    assert((y * w + x) * 4 + 3 == k);
}

/// Pushing one stroked pixel extends the prefix of `stroke_data`.
proof fn lemma_stroke_entries(
    img: RasterImage,
    seed: u64,
    pre: Seq<u8>,
    cur: Seq<u8>,
    x: int,
    y: int,
    r: u8,
    g: u8,
    b: u8,
    d: u8,
)
    requires
        img.wf(),
        0 <= x < img.width,
        0 <= y < img.height,
        pre.len() == 4 * (y * img.width + x),
        cur == pre.push(r).push(g).push(b).push(255u8),
        d == dither_byte(seed, y * img.width + x),
        r == st_chan(img, x, y, d, 0),
        g == st_chan(img, x, y, d, 1),
        b == st_chan(img, x, y, d, 2),
        forall|k: int| 0 <= k < pre.len() ==> #[trigger] pre[k] == stroke_data(img, seed)[k],
    ensures
        cur.len() == 4 * (y * img.width + x) + 4,
        forall|k: int| 0 <= k < cur.len() ==> #[trigger] cur[k] == stroke_data(img, seed)[k],
{
    let w = img.width as int;
    let p = y * w + x;
    lemma_row_major_in_range(x, y, w, img.height as int);
    lemma_flat_index(x, y, w);
    assert forall|k: int| 0 <= k < cur.len() implies #[trigger] cur[k] == stroke_data(
        img, seed)[k] by {
        if k < pre.len() {
            assert(cur[k] == pre[k]);
        } else {
            let c = k - 4 * p;
            assert(0 <= c < 4);
            assert(k == p * 4 + c);
            vstd::arithmetic::div_mod::lemma_fundamental_div_mod_converse_div(k, 4, p, c);
            vstd::arithmetic::div_mod::lemma_fundamental_div_mod_converse_mod(k, 4, p, c);
            assert(0 <= k < img.width * img.height * 4) by (nonlinear_arith)
                requires
                    k == p * 4 + c,
                    0 <= c < 4,
                    0 <= p < img.width * img.height,
            ;
        }
    }
}

} // verus!
