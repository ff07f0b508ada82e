//! Lossless raster container: the farbfeld layout. A header of the 8-byte
//! magic `farbfeld` and two big-endian 32-bit dimensions is followed by
//! `width * height` pixels of four big-endian 16-bit RGBA samples. Decoding
//! keeps the high byte of each sample; encoding widens each 8-bit sample by
//! duplicating it, so a decode of an encode gives the image back exactly.

use vstd::prelude::*;
use crate::img::RasterImage;

verus! {

/// The container magic, `farbfeld` in ASCII.
pub open spec fn magic_seq() -> Seq<u8> {
    seq![0x66u8, 0x61u8, 0x72u8, 0x62u8, 0x66u8, 0x65u8, 0x6Cu8, 0x64u8]
}

/// Big-endian 32-bit value at offset `i`.
pub open spec fn be32_at(b: Seq<u8>, i: int) -> int {
    b[i] * 0x1000000 + b[i + 1] * 0x10000 + b[i + 2] * 0x100 + b[i + 3]
}

/// The four big-endian bytes of a 32-bit value.
pub open spec fn be32_bytes(v: int) -> Seq<u8> {
    seq![
        (v / 0x1000000 % 256) as u8,
        (v / 0x10000 % 256) as u8,
        (v / 0x100 % 256) as u8,
        (v % 256) as u8,
    ]
}

/// The header is present and starts with the magic.
pub open spec fn magic_ok(b: Seq<u8>) -> bool {
    b.len() >= 16 && b.subrange(0, 8) == magic_seq()
}

/// Width named by the header.
pub open spec fn header_w(b: Seq<u8>) -> int {
    be32_at(b, 8)
}

/// Height named by the header.
pub open spec fn header_h(b: Seq<u8>) -> int {
    be32_at(b, 12)
}

/// The bytes decode: magic present, both dimensions positive, and the body
/// holds exactly eight bytes per pixel.
pub open spec fn decode_ok(b: Seq<u8>) -> bool {
    &&& magic_ok(b)
    &&& header_w(b) >= 1
    &&& header_h(b) >= 1
    &&& b.len() == 16 + header_w(b) * header_h(b) * 8
}

/// The decoded 8-bit RGBA buffer: the high byte of each 16-bit sample.
pub open spec fn decoded_data(b: Seq<u8>) -> Seq<u8> {
    Seq::new(
        (header_w(b) * header_h(b) * 4) as nat,
        |j: int| b[16 + 8 * (j / 4) + 2 * (j % 4)],
    )
}

/// The encoded container bytes of an 8-bit RGBA buffer.
pub open spec fn encoded(w: int, h: int, d: Seq<u8>) -> Seq<u8> {
    magic_seq() + be32_bytes(w) + be32_bytes(h) + Seq::new(
        (w * h * 8) as nat,
        |k: int| d[4 * (k / 8) + (k % 8) / 2],
    )
}

/// Splitting a 32-bit value into big-endian bytes loses nothing.
proof fn lemma_be32_roundtrip(v: u32)
    ensures
        be32_at(be32_bytes(v as int), 0) == v,
        0 <= (v as int) / 0x1000000 % 256 < 256,
        0 <= (v as int) / 0x10000 % 256 < 256,
        0 <= (v as int) / 0x100 % 256 < 256,
        0 <= (v as int) % 256 < 256,
{
    assert(v / 0x1000000 % 256 * 0x1000000 + v / 0x10000 % 256 * 0x10000 + v / 0x100 % 256
        * 0x100 + v % 256 == v) by (bit_vector);
}

/// Reads the big-endian 32-bit value at offset `i`.
fn read_be32(bytes: &[u8], i: usize) -> (v: u32)
    requires
        i + 4 <= bytes@.len(),
    ensures
        v == be32_at(bytes@, i as int),
{
    (bytes[i] as u32) * 0x1000000 + (bytes[i + 1] as u32) * 0x10000 + (bytes[i + 2] as u32)
        * 0x100 + (bytes[i + 3] as u32)
}

/// Decodes container bytes; `None` exactly on malformed input.
pub fn decode(bytes: &[u8]) -> (r: Option<RasterImage>)
    ensures
        r is Some <==> decode_ok(bytes@),
        r matches Some(img) ==> {
            &&& img.wf()
            &&& img.width == header_w(bytes@)
            &&& img.height == header_h(bytes@)
            &&& img.data@ == decoded_data(bytes@)
        },
{
    if bytes.len() < 16 {
        return None;
    }
    if !(bytes[0] == 0x66 && bytes[1] == 0x61 && bytes[2] == 0x72 && bytes[3] == 0x62
        && bytes[4] == 0x66 && bytes[5] == 0x65 && bytes[6] == 0x6C && bytes[7] == 0x64) {
        proof {
            assert(bytes@.subrange(0, 8) == magic_seq() ==> {
                &&& bytes@.subrange(0, 8)[0] == 0x66
                &&& bytes@.subrange(0, 8)[1] == 0x61
                &&& bytes@.subrange(0, 8)[2] == 0x72
                &&& bytes@.subrange(0, 8)[3] == 0x62
                &&& bytes@.subrange(0, 8)[4] == 0x66
                &&& bytes@.subrange(0, 8)[5] == 0x65
                &&& bytes@.subrange(0, 8)[6] == 0x6C
                &&& bytes@.subrange(0, 8)[7] == 0x64
            });
        }
        return None;
    }
    proof {
        assert(bytes@.subrange(0, 8) =~= magic_seq());
    }
    let w32 = read_be32(bytes, 8);
    let h32 = read_be32(bytes, 12);
    if w32 == 0 || h32 == 0 {
        return None;
    }
    proof {
        vstd::arithmetic::mul::lemma_mul_upper_bound(
            w32 as int, 0xFFFF_FFFF, h32 as int, 0xFFFF_FFFF);
    }
    let need: u128 = 16 + (w32 as u128) * (h32 as u128) * 8;
    if (bytes.len() as u128) != need {
        return None;
    }
    let blen = bytes.len();
    let w = w32 as usize;
    let h = h32 as usize;
    proof {
        assert((w32 as int) * (h32 as int) * 8 + 16 == bytes@.len());
        assert(w * h <= w * h * 8 && 8 * (w * h) == w * h * 8 && 4 * (w * h) == w * h * 4
            && 0 <= w * h * 4 <= w * h * 8) by (nonlinear_arith)
            requires
                w >= 1,
                h >= 1,
        ;
    }
    let total: usize = w * h;
    let mut data: Vec<u8> = Vec::new();
    let mut p: usize = 0;
    while p < total
        invariant
            total == w * h,
            w == header_w(bytes@),
            h == header_h(bytes@),
            1 <= w <= 0xFFFF_FFFF,
            1 <= h <= 0xFFFF_FFFF,
            bytes@.len() == 16 + w * h * 8,
            blen == bytes@.len(),
            8 * total == w * h * 8,
            0 <= p <= total,
            data@.len() == 4 * p,
            forall|j: int|
                0 <= j < 4 * p ==> data@[j] == bytes@[16 + 8 * (j / 4) + 2 * (j % 4)],
        decreases total - p,
    {
        proof {
            assert(8 * p + 8 <= 8 * total);
        }
        let base = 16 + 8 * p;
        let mut c: usize = 0;
        while c < 4
            invariant
                0 <= c <= 4,
                base == 16 + 8 * p,
                base + 8 <= bytes@.len(),
                data@.len() == 4 * p + c,
                forall|j: int|
                    0 <= j < 4 * p + c ==> data@[j] == bytes@[16 + 8 * (j / 4) + 2 * (j % 4)],
            decreases 4 - c,
        {
            let v = bytes[base + 2 * c];
            data.push(v);
            proof {
                let j = 4 * p + c;
                vstd::arithmetic::div_mod::lemma_fundamental_div_mod_converse_div(
                    j as int, 4, p as int, c as int);
                vstd::arithmetic::div_mod::lemma_fundamental_div_mod_converse_mod(
                    j as int, 4, p as int, c as int);
            }
            c = c + 1;
        }
        p = p + 1;
    }
    proof {
        assert(data@ =~= decoded_data(bytes@));
        assert(4 * (w * h) == w * h * 4) by (nonlinear_arith);
    }
    Some(RasterImage { width: w, height: h, data })
}

/// Encodes an image into container bytes; total, and exact.
#[verifier::rlimit(100)]
pub fn encode(img: &RasterImage) -> (out: Vec<u8>)
    requires
        img.wf(),
        img.width * img.height * 8 + 16 <= usize::MAX,
    ensures
        out@ == encoded(img.width as int, img.height as int, img.data@),
{
    let w = img.width;
    let h = img.height;
    let mut out: Vec<u8> = Vec::new();
    out.push(0x66);
    out.push(0x61);
    out.push(0x72);
    out.push(0x62);
    out.push(0x66);
    out.push(0x65);
    out.push(0x6C);
    out.push(0x64);
    let w32 = w as u32;
    let h32 = h as u32;
    out.push((w32 / 0x1000000 % 256) as u8);
    out.push((w32 / 0x10000 % 256) as u8);
    out.push((w32 / 0x100 % 256) as u8);
    out.push((w32 % 256) as u8);
    out.push((h32 / 0x1000000 % 256) as u8);
    out.push((h32 / 0x10000 % 256) as u8);
    out.push((h32 / 0x100 % 256) as u8);
    out.push((h32 % 256) as u8);
    proof {
        assert(out@ =~= magic_seq() + be32_bytes(w as int) + be32_bytes(h as int));
        assert(0 <= w * h * 4 <= w * h * 8 && 8 * (w * h) == w * h * 8) by (nonlinear_arith)
            requires
                w >= 1,
                h >= 1,
        ;
    }
    let total: usize = w * h * 8;
    let mut k: usize = 0;
    while k < total
        invariant
            img.wf(),
            w == img.width,
            h == img.height,
            total == w * h * 8,
            img.data@.len() == w * h * 4,
            0 <= k <= total,
            out@.len() == 16 + k,
            out@.subrange(0, 16) =~= magic_seq() + be32_bytes(w as int) + be32_bytes(h as int),
            forall|i: int|
                0 <= i < k ==> #[trigger] out@[16 + i] == img.data@[4 * (i / 8) + (i % 8) / 2],
        decreases total - k,
    {
        proof {
            vstd::arithmetic::div_mod::lemma_div_pos_is_pos(k as int, 8);
            vstd::arithmetic::div_mod::lemma_div_is_ordered(k as int, total - 1, 8);
            assert((total - 1) as int / 8 == w * h - 1) by (nonlinear_arith)
                requires
                    total == w * h * 8,
                    w >= 1,
                    h >= 1,
            ;
            assert(4 * (k as int / 8) + (k as int % 8) / 2 < w * h * 4) by (nonlinear_arith)
                requires
                    k as int / 8 <= w * h - 1,
                    0 <= k as int % 8 < 8,
                    0 <= k as int / 8,
            ;
        }
        let v = img.data[4 * (k / 8) + (k % 8) / 2];
        out.push(v);
        k = k + 1;
    }
    proof {
        let e = encoded(img.width as int, img.height as int, img.data@);
        assert(e.len() == 16 + w * h * 8);
        assert(out@.len() == e.len());
        assert forall|i: int| 0 <= i < out@.len() implies out@[i] == e[i] by {
            if i < 16 {
                assert(out@[i] == out@.subrange(0, 16)[i]);
            } else {
                let t = i - 16;
                assert(out@[16 + t] == img.data@[4 * (t / 8) + (t % 8) / 2]);
            }
        }
        assert(out@ =~= e);
    }
    out
}

/// Decoding an encoded image gives back the very image: the dimensions and
/// every 8-bit sample survive the round trip.
pub proof fn lemma_encode_decode(w: int, h: int, d: Seq<u8>)
    requires
        1 <= w <= 0xFFFF_FFFF,
        1 <= h <= 0xFFFF_FFFF,
        d.len() == w * h * 4,
    ensures
        decode_ok(encoded(w, h, d)),
        header_w(encoded(w, h, d)) == w,
        header_h(encoded(w, h, d)) == h,
        decoded_data(encoded(w, h, d)) == d,
{
    let e = encoded(w, h, d);
    assert(w * h * 8 >= 0) by (nonlinear_arith)
        requires
            w >= 1,
            h >= 1,
    ;
    assert(e.len() == 16 + w * h * 8);
    assert(e.subrange(0, 8) =~= magic_seq());
    lemma_be32_roundtrip(w as u32);
    lemma_be32_roundtrip(h as u32);
    assert(header_w(e) == w);
    assert(header_h(e) == h);
    assert(w * h * 4 >= 0) by (nonlinear_arith)
        requires
            w >= 1,
            h >= 1,
    ;
    assert forall|j: int| 0 <= j < w * h * 4 implies decoded_data(e)[j] == d[j] by {
        vstd::arithmetic::div_mod::lemma_div_pos_is_pos(j, 4);
        vstd::arithmetic::div_mod::lemma_div_is_ordered(j, w * h * 4 - 1, 4);
        assert((w * h * 4 - 1) / 4 == w * h - 1) by (nonlinear_arith);
        assert(0 <= j % 4 < 4);
        let k = 8 * (j / 4) + 2 * (j % 4);
        assert(0 <= k < w * h * 8) by (nonlinear_arith)
            requires
                k == 8 * (j / 4) + 2 * (j % 4),
                0 <= j / 4 <= w * h - 1,
                0 <= j % 4 < 4,
        ;
        assert(decoded_data(e)[j] == e[16 + k]);
        assert(e[16 + k] == d[4 * (k / 8) + (k % 8) / 2]);
        vstd::arithmetic::div_mod::lemma_fundamental_div_mod_converse_div(
            k, 8, j / 4, 2 * (j % 4));
        vstd::arithmetic::div_mod::lemma_fundamental_div_mod_converse_mod(
            k, 8, j / 4, 2 * (j % 4));
        assert(k / 8 == j / 4);
        assert(k % 8 == 2 * (j % 4));
        assert((2 * (j % 4)) / 2 == j % 4) by (nonlinear_arith);
        vstd::arithmetic::div_mod::lemma_fundamental_div_mod(j, 4);
        assert(4 * (k / 8) + (k % 8) / 2 == j);
    }
    assert(decoded_data(e) =~= d);
}

} // verus!
