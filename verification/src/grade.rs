//! Neon color grade ("cyberpunk"): a tonal regrade toward teal/magenta, a
//! uniform saturation boost, a 5x5 bloom around bright pixels, an edge glow
//! from central luminance differences, and a light chromatic offset at
//! edges. Alpha passes through unchanged, the only filter that keeps it.
//!
//! Rec. 709 luminance is kept in ten-thousandths (`GM` = 2550000 is full
//! white), channels in fixed point (`255 * FP` is full intensity), and every
//! division truncates.

use vstd::prelude::*;
use crate::img::RasterImage;
use crate::img::lemma_flat_index;
use crate::img::lemma_row_major_in_range;
use crate::mathx::FP;
use crate::mathx::clamp_of;
use crate::mathx::clamp_i64;
use crate::mathx::div_tz;
use crate::mathx::quot_tz;
use crate::mathx::sqrt_floor;
use crate::mathx::isqrt;
use crate::mathx::luma709_of;
use crate::mathx::luma709;

verus! {

/// Full-white Rec. 709 luminance in this module's scale.
pub const GM: i64 = 2550000;

/// Luminance at edge-replicated coordinates, in ten-thousandths.
pub open spec fn gr_luma(img: RasterImage, x: int, y: int) -> int {
    let cx = clamp_of(x, 0, img.width - 1);
    let cy = clamp_of(y, 0, img.height - 1);
    luma709_of(img.chan(cx, cy, 0), img.chan(cx, cy, 1), img.chan(cx, cy, 2))
}

/// A pixel bright enough for bloom: luminance above 0.70.
pub open spec fn gr_bright(img: RasterImage, x: int, y: int) -> bool {
    10 * gr_luma(img, x, y) > 7 * GM
}

/// Shadow weight: (1 - l)^2, in luminance scale.
pub open spec fn gr_shadow(l: int) -> int {
    (GM - l) * (GM - l) / GM as int
}

/// Highlight weight: l^2, in luminance scale.
pub open spec fn gr_highlight(l: int) -> int {
    l * l / GM as int
}

/// Midtone weight: what shadow and highlight leave, never negative.
pub open spec fn gr_mids(l: int) -> int {
    let m = GM - gr_shadow(l) - gr_highlight(l);
    if m >= 0 {
        m
    } else {
        0
    }
}

/// Tonal regrade of one channel, clamped to channel range.
pub open spec fn gr_graded(img: RasterImage, x: int, y: int, c: int) -> int {
    let l = gr_luma(img, x, y);
    let sh = gr_shadow(l);
    let hi = gr_highlight(l);
    let mi = gr_mids(l);
    let v = img.chan(x, y, c) * FP;
    let w = if c == 0 {
        105 * v / 100 + mi * FP / 100000 + hi * FP / 125000
    } else if c == 1 {
        85 * v / 100 - mi * FP / 200000
    } else {
        125 * v / 100 + sh * FP / 50000 + 3 * mi * FP / 500000
    };
    clamp_of(w, 0, 255 * FP as int)
}

/// Uniform saturation boost by 1.35 around the RGB mean, clamped.
pub open spec fn gr_sat(img: RasterImage, x: int, y: int, c: int) -> int {
    let r = gr_graded(img, x, y, 0);
    let g = gr_graded(img, x, y, 1);
    let b = gr_graded(img, x, y, 2);
    let avg = (r + g + b) / 3;
    let v = if c == 0 {
        r
    } else if c == 1 {
        g
    } else {
        b
    };
    clamp_of(avg + div_tz((v - avg) * 27, 20), 0, 255 * FP as int)
}

/// Bloom weight total over the first `n` of the 25 neighborhood cells;
/// only bright neighbors count, nearer ones more: 90 / (1 + dx^2 + dy^2).
pub open spec fn gr_bwsum(img: RasterImage, x: int, y: int, n: int) -> int
    decreases n,
{
    if n <= 0 {
        0
    } else {
        let dx = (n - 1) % 5 - 2;
        let dy = (n - 1) / 5 - 2;
        gr_bwsum(img, x, y, n - 1) + if gr_bright(img, x + dx, y + dy) {
            90int / (1 + dx * dx + dy * dy)
        } else {
            0
        }
    }
}

/// Weighted bloom channel total over the first `n` neighborhood cells, in
/// channel scale; coordinates are edge-replicated.
pub open spec fn gr_bcsum(img: RasterImage, x: int, y: int, c: int, n: int) -> int
    decreases n,
{
    if n <= 0 {
        0
    } else {
        let dx = (n - 1) % 5 - 2;
        let dy = (n - 1) / 5 - 2;
        let cx = clamp_of(x + dx, 0, img.width - 1);
        let cy = clamp_of(y + dy, 0, img.height - 1);
        gr_bcsum(img, x, y, c, n - 1) + if gr_bright(img, x + dx, y + dy) {
            (90int / (1 + dx * dx + dy * dy)) * (img.chan(cx, cy, c) * FP)
        } else {
            0
        }
    }
}

/// Channel value after bloom: bright pixels receive a remapped fraction of
/// the normalized bright-neighbor average; others pass through.
pub open spec fn gr_bloomed(img: RasterImage, x: int, y: int, c: int) -> int {
    let v = gr_sat(img, x, y, c);
    if gr_bright(img, x, y) {
        let bw = gr_bwsum(img, x, y, 25);
        let bv = gr_bcsum(img, x, y, c, 25) / bw;
        let add = if c == 0 {
            7 * (9 * bv / 10 + 255 * FP / 10) / 20
        } else if c == 1 {
            (4 * bv / 10 + 255 * FP / 20) / 5
        } else {
            9 * (11 * bv / 10 + 255 * FP / 5) / 20
        };
        clamp_of(v + add, 0, 255 * FP as int)
    } else {
        v
    }
}

/// Edge factor from halved central luminance differences, in fixed point:
/// clamp((grad - 0.08) / 0.5, 0, 1).
pub open spec fn gr_edge(img: RasterImage, x: int, y: int) -> int {
    let gx = div_tz(gr_luma(img, x + 1, y) - gr_luma(img, x - 1, y), 2);
    let gy = div_tz(gr_luma(img, x, y + 1) - gr_luma(img, x, y - 1), 2);
    let mag = sqrt_floor((gx * gx + gy * gy) as nat) as int;
    clamp_of(div_tz((mag - 204000) * 2 * FP, GM as int), 0, FP as int)
}

/// Channel value after the edge glow on red and blue.
pub open spec fn gr_glowed(img: RasterImage, x: int, y: int, c: int) -> int {
    let v = gr_bloomed(img, x, y, c);
    let e = gr_edge(img, x, y);
    if c == 0 {
        clamp_of(v + 765 * e / 20, 0, 255 * FP as int)
    } else if c == 2 {
        clamp_of(v + 255 * e / 4, 0, 255 * FP as int)
    } else {
        v
    }
}

/// Final 8-bit channel value: at edges, red and blue are blended with the
/// source neighbor one pixel to the right and left respectively (a 50/50
/// average divided by 1.5, one truncating division by 3).
pub open spec fn gr_chan(img: RasterImage, x: int, y: int, c: int) -> u8 {
    let v = gr_glowed(img, x, y, c);
    let e = gr_edge(img, x, y);
    let v2 = if e > 0 && c == 0 {
        let nx = clamp_of(x + 1, 0, img.width - 1);
        (v + img.chan(nx, y, 0) * FP) / 3
    } else if e > 0 && c == 2 {
        let nx = clamp_of(x - 1, 0, img.width - 1);
        (v + img.chan(nx, y, 2) * FP) / 3
    } else {
        v
    };
    (v2 / FP as int) as u8
}

/// The whole output buffer of the grade filter: graded RGB, source alpha.
pub open spec fn grade_data(img: RasterImage) -> Seq<u8> {
    Seq::new(
        (img.width * img.height * 4) as nat,
        |k: int|
            if k % 4 == 3 {
                img.chan((k / 4) % img.width as int, (k / 4) / img.width as int, 3)
            } else {
                gr_chan(img, (k / 4) % img.width as int, (k / 4) / img.width as int, k % 4)
            },
    )
}

proof fn lemma_gr_bwsum_cong(a: RasterImage, b: RasterImage, x: int, y: int, n: int)
    requires
        crate::img::same_view(a, b),
    ensures
        gr_bwsum(a, x, y, n) == gr_bwsum(b, x, y, n),
    decreases n,
{
    if n > 0 {
        lemma_gr_bwsum_cong(a, b, x, y, n - 1);
        let dx = (n - 1) % 5 - 2;
        let dy = (n - 1) / 5 - 2;
        assert(gr_bright(a, x + dx, y + dy) == gr_bright(b, x + dx, y + dy));
    }
}

proof fn lemma_gr_bcsum_cong(a: RasterImage, b: RasterImage, x: int, y: int, c: int, n: int)
    requires
        crate::img::same_view(a, b),
    ensures
        gr_bcsum(a, x, y, c, n) == gr_bcsum(b, x, y, c, n),
    decreases n,
{
    if n > 0 {
        lemma_gr_bcsum_cong(a, b, x, y, c, n - 1);
        let dx = (n - 1) % 5 - 2;
        let dy = (n - 1) / 5 - 2;
        assert(gr_bright(a, x + dx, y + dy) == gr_bright(b, x + dx, y + dy));
    }
}

/// The grade filter observes an image only through its dimensions and
/// samples: images with the same view stylize identically.
pub proof fn lemma_grade_data_cong(a: RasterImage, b: RasterImage)
    requires
        crate::img::same_view(a, b),
    ensures
        grade_data(a) == grade_data(b),
{
    assert forall|k: int| 0 <= k < a.width * a.height * 4 implies grade_data(a)[k]
        == grade_data(b)[k] by {
        let x = (k / 4) % a.width as int;
        let y = (k / 4) / a.width as int;
        let c = k % 4;
        if c != 3 {
            lemma_gr_bwsum_cong(a, b, x, y, 25);
            lemma_gr_bcsum_cong(a, b, x, y, c, 25);
            assert(gr_sat(a, x, y, c) == gr_sat(b, x, y, c));
            assert(gr_bloomed(a, x, y, c) == gr_bloomed(b, x, y, c));
            assert(gr_edge(a, x, y) == gr_edge(b, x, y));
            assert(gr_chan(a, x, y, c) == gr_chan(b, x, y, c));
        }
    }
    assert(grade_data(a) =~= grade_data(b));
}

/// Channel read with edge-replicated coordinates.
fn chan_clamped(img: &RasterImage, x: i64, y: i64, c: usize) -> (v: u8)
    requires
        img.wf(),
        c < 4,
        -3 <= x <= 0x1_0000_0002,
        -3 <= y <= 0x1_0000_0002,
    ensures
        v == img.chan(
            clamp_of(x as int, 0, img.width - 1), clamp_of(y as int, 0, img.height - 1),
            c as int),
{
    let w = img.width;
    let h = img.height;
    let cx: usize = if x < 0 {
        0
    } else if x > (w - 1) as i64 {
        w - 1
    } else {
        x as usize
    };
    let cy: usize = if y < 0 {
        0
    } else if y > (h - 1) as i64 {
        h - 1
    } else {
        y as usize
    };
    img.chan_at(cx, cy, c)
}

/// Rec. 709 luminance with edge-replicated coordinates.
fn gr_luma_at(img: &RasterImage, x: i64, y: i64) -> (v: u32)
    requires
        img.wf(),
        -3 <= x <= 0x1_0000_0002,
        -3 <= y <= 0x1_0000_0002,
    ensures
        v == gr_luma(*img, x as int, y as int),
        v <= 2550000,
{
    let r = chan_clamped(img, x, y, 0);
    let g = chan_clamped(img, x, y, 1);
    let b = chan_clamped(img, x, y, 2);
    luma709(r, g, b)
}

/// Saturation step of one channel: mean plus 1.35 of the deviation.
fn gr_sat_channel(v: i64, avg: i64) -> (r: i64)
    requires
        0 <= v <= 255 * FP,
        0 <= avg <= 255 * FP,
    ensures
        r == clamp_of(avg + div_tz((v - avg) * 27, 20), 0, 255 * FP as int),
        0 <= r <= 255 * FP,
{
    proof {
        assert(-(255 * FP as int) * 27 <= (v - avg) * 27 <= (255 * FP as int) * 27)
            by (nonlinear_arith)
            requires
                -(255 * FP as int) <= v - avg <= 255 * FP,
        ;
        crate::mathx::lemma_div_tz_bound((v as int - avg) * 27, 20, (255 * FP as int) * 27);
        assert(((255 * FP as int) * 27) * 20 == 255 * FP as int * 540) by (nonlinear_arith);
    }
    clamp_i64(avg + quot_tz((v - avg) * 27, 20), 0, 255 * FP)
}

/// Normalized bright-neighbor bloom color of a bright pixel.
#[verifier::rlimit(100)]
fn bloom_avg(img: &RasterImage, x: usize, y: usize) -> (nrgb: (i64, i64, i64))
    requires
        img.wf(),
        x < img.width,
        y < img.height,
        gr_bright(*img, x as int, y as int),
    ensures
        nrgb.0 == gr_bcsum(*img, x as int, y as int, 0, 25) / gr_bwsum(
            *img, x as int, y as int, 25),
        nrgb.1 == gr_bcsum(*img, x as int, y as int, 1, 25) / gr_bwsum(
            *img, x as int, y as int, 25),
        nrgb.2 == gr_bcsum(*img, x as int, y as int, 2, 25) / gr_bwsum(
            *img, x as int, y as int, 25),
        0 <= nrgb.0 <= 255 * FP,
        0 <= nrgb.1 <= 255 * FP,
        0 <= nrgb.2 <= 255 * FP,
{
    let xi = x as i64;
    let yi = y as i64;
    let mut bw: i64 = 0;
    let mut br: i64 = 0;
    let mut bg: i64 = 0;
    let mut bb: i64 = 0;
    let mut j: usize = 0;
    while j < 25
        invariant
            img.wf(),
            x < img.width,
            y < img.height,
            xi == x as i64,
            yi == y as i64,
            gr_bright(*img, x as int, y as int),
            0 <= j <= 25,
            bw == gr_bwsum(*img, x as int, y as int, j as int),
            br == gr_bcsum(*img, x as int, y as int, 0, j as int),
            bg == gr_bcsum(*img, x as int, y as int, 1, j as int),
            bb == gr_bcsum(*img, x as int, y as int, 2, j as int),
            0 <= bw <= 90 * j,
            j > 12 ==> bw >= 90,
            0 <= br <= bw * (255 * FP as int),
            0 <= bg <= bw * (255 * FP as int),
            0 <= bb <= bw * (255 * FP as int),
        decreases 25 - j,
    {
        let dx = (j % 5) as i64 - 2;
        let dy = (j / 5) as i64 - 2;
        proof {
            vstd::arithmetic::div_mod::lemma_mod_bound(j as int, 5);
            vstd::arithmetic::div_mod::lemma_div_pos_is_pos(j as int, 5);
            vstd::arithmetic::div_mod::lemma_div_is_ordered(j as int, 24, 5);
            assert(-2 <= dx <= 2 && -2 <= dy <= 2);
            assert(1 <= 1 + dx * dx + dy * dy <= 9 && 0 <= dx * dx <= 4 && 0 <= dy * dy <= 4)
                by (nonlinear_arith)
                requires
                    -2 <= dx <= 2,
                    -2 <= dy <= 2,
            ;
        }
        let ln = gr_luma_at(img, xi + dx, yi + dy) as i64;
        proof {
            if j == 12 {
                assert(dx == 0 && dy == 0);
                assert(ln == gr_luma(*img, x as int, y as int));
                assert(10 * ln > 7 * GM);
            }
        }
        if 10 * ln > 7 * GM {
            let wq = 90 / (1 + dx * dx + dy * dy);
            proof {
                if j == 12 {
                    assert(dx == 0 && dy == 0);
                    assert(1 + dx * dx + dy * dy == 1);
                    assert(wq == 90);
                }
            }
            let cr = chan_clamped(img, xi + dx, yi + dy, 0) as i64 * FP;
            let cg = chan_clamped(img, xi + dx, yi + dy, 1) as i64 * FP;
            let cb = chan_clamped(img, xi + dx, yi + dy, 2) as i64 * FP;
            proof {
                assert(0 <= wq * cr <= wq * (255 * FP as int) && 0 <= wq * cg <= wq
                    * (255 * FP as int) && 0 <= wq * cb <= wq * (255 * FP as int)
                    && wq * (255 * FP as int) <= 90 * (255 * FP as int))
                    by (nonlinear_arith)
                    requires
                        0 <= wq <= 90,
                        0 <= cr <= 255 * FP,
                        0 <= cg <= 255 * FP,
                        0 <= cb <= 255 * FP,
                        FP == 4096,
                ;
                assert(bw * (255 * FP as int) + wq * (255 * FP as int) == (bw + wq)
                    * (255 * FP as int)) by (nonlinear_arith);
                assert((bw + wq) * (255 * FP as int) <= 2250 * 1044480)
                    by (nonlinear_arith)
                    requires
                        0 <= bw + wq <= 2250,
                        FP == 4096,
                ;
            }
            bw = bw + wq;
            br = br + wq * cr;
            bg = bg + wq * cg;
            bb = bb + wq * cb;
        }
        j = j + 1;
    }
    proof {
        assert(bw >= 90);
        vstd::arithmetic::div_mod::lemma_div_is_ordered(
            br as int, bw * (255 * FP as int), bw as int);
        vstd::arithmetic::div_mod::lemma_div_is_ordered(
            bg as int, bw * (255 * FP as int), bw as int);
        vstd::arithmetic::div_mod::lemma_div_is_ordered(
            bb as int, bw * (255 * FP as int), bw as int);
        assert(bw * (255 * FP as int) == (255 * FP as int) * bw) by (nonlinear_arith);
        vstd::arithmetic::div_mod::lemma_div_by_multiple(255 * FP as int, bw as int);
        vstd::arithmetic::div_mod::lemma_div_pos_is_pos(br as int, bw as int);
        vstd::arithmetic::div_mod::lemma_div_pos_is_pos(bg as int, bw as int);
        vstd::arithmetic::div_mod::lemma_div_pos_is_pos(bb as int, bw as int);
    }
    (br / bw, bg / bw, bb / bw)
}

/// Edge factor of a pixel, in fixed point.
fn edge_at(img: &RasterImage, x: usize, y: usize) -> (e: i64)
    requires
        img.wf(),
        x < img.width,
        y < img.height,
    ensures
        e == gr_edge(*img, x as int, y as int),
        0 <= e <= FP,
{
    let xi = x as i64;
    let yi = y as i64;
    let gxd = gr_luma_at(img, xi + 1, yi) as i64 - gr_luma_at(img, xi - 1, yi) as i64;
    let gyd = gr_luma_at(img, xi, yi + 1) as i64 - gr_luma_at(img, xi, yi - 1) as i64;
    let gx = quot_tz(gxd, 2);
    let gy = quot_tz(gyd, 2);
    proof {
        assert(gx * gx + gy * gy >= 0 && gx * gx + gy * gy <= 4000000000000
            && gx * gx >= 0 && gy * gy >= 0) by (nonlinear_arith)
            requires
                -1275000 <= gx <= 1275000,
                -1275000 <= gy <= 1275000,
        ;
    }
    let mag = isqrt((gx * gx + gy * gy) as u64) as i64;
    proof {
        assert(mag <= 2000001) by (nonlinear_arith)
            requires
                mag * mag <= 4000000000000,
                mag >= 0,
        ;
        assert(-((3000000 * FP as int) * GM) <= (mag - 204000) * 2 * FP
            <= (3000000 * FP as int) * GM) by (nonlinear_arith)
            requires
                0 <= mag <= 2000001,
                FP == 4096,
                GM == 2550000,
        ;
        crate::mathx::lemma_div_tz_bound(
            (mag as int - 204000) * 2 * FP, GM as int, 3000000 * FP as int);
    }
    clamp_i64(quot_tz((mag - 204000) * 2 * FP, GM), 0, FP)
}

/// Tonal regrade of one pixel's RGB, in channel scale.
fn graded_rgb(img: &RasterImage, x: usize, y: usize) -> (t: (i64, i64, i64))
    requires
        img.wf(),
        x < img.width,
        y < img.height,
    ensures
        t.0 == gr_graded(*img, x as int, y as int, 0),
        t.1 == gr_graded(*img, x as int, y as int, 1),
        t.2 == gr_graded(*img, x as int, y as int, 2),
        0 <= t.0 <= 255 * FP,
        0 <= t.1 <= 255 * FP,
        0 <= t.2 <= 255 * FP,
{
    let xi = x as i64;
    let yi = y as i64;
    let l = gr_luma_at(img, xi, yi) as i64;
    proof {
        assert((GM - l) * (GM - l) >= 0 && (GM - l) * (GM - l) <= 6502500000000
            && l * l >= 0 && l * l <= 6502500000000) by (nonlinear_arith)
            requires
                0 <= l <= GM,
                GM == 2550000,
        ;
        vstd::arithmetic::div_mod::lemma_div_is_ordered(
            ((GM - l) * (GM as int - l)) as int, 6502500000000, GM as int);
        vstd::arithmetic::div_mod::lemma_div_is_ordered(
            (l as int * l) as int, 6502500000000, GM as int);
        vstd::arithmetic::div_mod::lemma_div_pos_is_pos(
            ((GM - l) * (GM as int - l)) as int, GM as int);
        vstd::arithmetic::div_mod::lemma_div_pos_is_pos((l as int * l) as int, GM as int);
    }
    let sh = (GM - l) * (GM - l) / GM;
    let hi = l * l / GM;
    let mi0 = GM - sh - hi;
    let mi = if mi0 >= 0 {
        mi0
    } else {
        0
    };
    let r0 = img.chan_at(x, y, 0) as i64 * FP;
    let g0 = img.chan_at(x, y, 1) as i64 * FP;
    let b0 = img.chan_at(x, y, 2) as i64 * FP;
    let gr_r = clamp_i64(105 * r0 / 100 + mi * FP / 100000 + hi * FP / 125000, 0, 255 * FP);
    let gr_g = clamp_i64(85 * g0 / 100 - mi * FP / 200000, 0, 255 * FP);
    let gr_b = clamp_i64(125 * b0 / 100 + sh * FP / 50000 + 3 * mi * FP / 500000, 0, 255 * FP);
    (gr_r, gr_g, gr_b)
}

/// Full grade transform of one pixel's RGB.
#[verifier::rlimit(100)]
fn grade_pixel(img: &RasterImage, x: usize, y: usize) -> (rgb: (u8, u8, u8))
    requires
        img.wf(),
        x < img.width,
        y < img.height,
    ensures
        rgb.0 == gr_chan(*img, x as int, y as int, 0),
        rgb.1 == gr_chan(*img, x as int, y as int, 1),
        rgb.2 == gr_chan(*img, x as int, y as int, 2),
{
    let xi = x as i64;
    let yi = y as i64;
    let l = gr_luma_at(img, xi, yi) as i64;
    let t3 = graded_rgb(img, x, y);
    let gr_r = t3.0;
    let gr_g = t3.1;
    let gr_b = t3.2;
    let avg = (gr_r + gr_g + gr_b) / 3;
    let mut vr = gr_sat_channel(gr_r, avg);
    let mut vg = gr_sat_channel(gr_g, avg);
    let mut vb = gr_sat_channel(gr_b, avg);
    if 10 * l > 7 * GM {
        let nb3 = bloom_avg(img, x, y);
        vr = clamp_i64(vr + 7 * (9 * nb3.0 / 10 + 255 * FP / 10) / 20, 0, 255 * FP);
        vg = clamp_i64(vg + (4 * nb3.1 / 10 + 255 * FP / 20) / 5, 0, 255 * FP);
        vb = clamp_i64(vb + 9 * (11 * nb3.2 / 10 + 255 * FP / 5) / 20, 0, 255 * FP);
    }
    let e = edge_at(img, x, y);
    vr = clamp_i64(vr + 765 * e / 20, 0, 255 * FP);
    vb = clamp_i64(vb + 255 * e / 4, 0, 255 * FP);
    if e > 0 {
        let rn = chan_clamped(img, xi + 1, yi, 0) as i64 * FP;
        let bn = chan_clamped(img, xi - 1, yi, 2) as i64 * FP;
        vr = (vr + rn) / 3;
        vb = (vb + bn) / 3;
        proof {
            vstd::arithmetic::div_mod::lemma_div_is_ordered(
                vr as int, 2 * (255 * FP as int), 3);
            vstd::arithmetic::div_mod::lemma_div_is_ordered(
                vb as int, 2 * (255 * FP as int), 3);
            vstd::arithmetic::div_mod::lemma_div_pos_is_pos(vr as int, 3);
            vstd::arithmetic::div_mod::lemma_div_pos_is_pos(vb as int, 3);
        }
    }
    proof {
        vstd::arithmetic::div_mod::lemma_div_is_ordered(vr as int, 255 * FP as int, FP as int);
        vstd::arithmetic::div_mod::lemma_div_is_ordered(vg as int, 255 * FP as int, FP as int);
        vstd::arithmetic::div_mod::lemma_div_is_ordered(vb as int, 255 * FP as int, FP as int);
        assert(255 * FP as int == (255int) * FP) by (nonlinear_arith);
        vstd::arithmetic::div_mod::lemma_div_by_multiple(255, FP as int);
        vstd::arithmetic::div_mod::lemma_div_pos_is_pos(vr as int, FP as int);
        vstd::arithmetic::div_mod::lemma_div_pos_is_pos(vg as int, FP as int);
        vstd::arithmetic::div_mod::lemma_div_pos_is_pos(vb as int, FP as int);
    }
    ((vr / FP) as u8, (vg / FP) as u8, (vb / FP) as u8)
}

/// Applies the neon grade. The output has the source dimensions, alpha is
/// copied from the source pixel for pixel, and every channel is the exact
/// value of `grade_data`.
#[verifier::rlimit(100)]
pub fn grade_filter(img: &RasterImage) -> (out: RasterImage)
    requires
        img.wf(),
    ensures
        out.wf(),
        out.width == img.width,
        out.height == img.height,
        out.data@ == grade_data(*img),
{
    let w = img.width;
    let h = img.height;
    proof {
        assert(w * h <= w * h * 4 && 4 * (w * h) == w * h * 4 && w * h >= 1)
            by (nonlinear_arith)
            requires
                w >= 1,
                h >= 1,
        ;
    }
    let mut data: Vec<u8> = Vec::new();
    let mut y: usize = 0;
    while y < h
        invariant
            img.wf(),
            w == img.width,
            h == img.height,
            0 <= y <= h,
            data@.len() == 4 * (y * w),
            forall|k: int|
                0 <= k < data@.len() ==> #[trigger] data@[k] == grade_data(*img)[k],
        decreases h - y,
    {
        let mut x: usize = 0;
        while x < w
            invariant
                img.wf(),
                w == img.width,
                h == img.height,
                y < h,
                0 <= x <= w,
                data@.len() == 4 * (y * w + x),
                forall|k: int|
                    0 <= k < data@.len() ==> #[trigger] data@[k] == grade_data(*img)[k],
            decreases w - x,
        {
            proof {
                lemma_row_major_in_range(x as int, y as int, w as int, h as int);
                lemma_flat_index(x as int, y as int, w as int);
            }
            let rgb = grade_pixel(img, x, y);
            let av = img.chan_at(x, y, 3);
            let ghost pre = data@;
            data.push(rgb.0);
            data.push(rgb.1);
            data.push(rgb.2);
            data.push(av);
            proof {
                lemma_grade_entries(*img, pre, data@, x as int, y as int, rgb.0, rgb.1,
                    rgb.2, av);
            }
            x = x + 1;
        }
        proof {
            assert(4 * (y * w + w) == 4 * ((y + 1) * w) && y * w + w == (y + 1) * w)
                by (nonlinear_arith);
        }
        y = y + 1;
    }
    proof {
        assert(4 * (h * w) == w * h * 4 && h * w == w * h) by (nonlinear_arith);
        assert(data@ =~= grade_data(*img));
    }
    RasterImage { width: w, height: h, data }
}

/// Law: the grade filter passes alpha through unchanged, pixel for pixel.
pub proof fn lemma_grade_alpha(img: RasterImage, x: int, y: int)
    requires
        img.wf(),
        0 <= x < img.width,
        0 <= y < img.height,
    ensures
        grade_data(img)[(y * img.width + x) * 4 + 3] == img.chan(x, y, 3),
{
    let w = img.width as int;
    let p = y * w + x;
    lemma_row_major_in_range(x, y, w, img.height as int);
    lemma_flat_index(x, y, w);
    let k = p * 4 + 3;
    vstd::arithmetic::div_mod::lemma_fundamental_div_mod_converse_div(k, 4, p, 3);
    vstd::arithmetic::div_mod::lemma_fundamental_div_mod_converse_mod(k, 4, p, 3);
    assert(0 <= k < img.width * img.height * 4) by (nonlinear_arith)
        requires
            k == p * 4 + 3,
            0 <= p < img.width * img.height,
    ;
    assert((y * w + x) * 4 + 3 == k);
}

/// Pushing one graded pixel extends the prefix of `grade_data`.
proof fn lemma_grade_entries(
    img: RasterImage,
    pre: Seq<u8>,
    cur: Seq<u8>,
    x: int,
    y: int,
    r: u8,
    g: u8,
    b: u8,
    a: u8,
)
    requires
        img.wf(),
        0 <= x < img.width,
        0 <= y < img.height,
        pre.len() == 4 * (y * img.width + x),
        cur == pre.push(r).push(g).push(b).push(a),
        r == gr_chan(img, x, y, 0),
        g == gr_chan(img, x, y, 1),
        b == gr_chan(img, x, y, 2),
        a == img.chan(x, y, 3),
        forall|k: int| 0 <= k < pre.len() ==> #[trigger] pre[k] == grade_data(img)[k],
    ensures
        cur.len() == 4 * (y * img.width + x) + 4,
        forall|k: int| 0 <= k < cur.len() ==> #[trigger] cur[k] == grade_data(img)[k],
{
    let w = img.width as int;
    let p = y * w + x;
    lemma_row_major_in_range(x, y, w, img.height as int);
    lemma_flat_index(x, y, w);
    assert forall|k: int| 0 <= k < cur.len() implies #[trigger] cur[k] == grade_data(
        img)[k] by {
        if k < pre.len() {
            assert(cur[k] == pre[k]);
        } else {
            let c = k - 4 * p;
            assert(0 <= c < 4);
            assert(k == p * 4 + c);
            vstd::arithmetic::div_mod::lemma_fundamental_div_mod_converse_div(k, 4, p, c);
            vstd::arithmetic::div_mod::lemma_fundamental_div_mod_converse_mod(k, 4, p, c);
            assert(0 <= k < img.width * img.height * 4) by (nonlinear_arith)
                requires
                    k == p * 4 + c,
                    0 <= c < 4,
                    0 <= p < img.width * img.height,
            ;
        }
    }
}

} // verus!
