//! Deterministic artistic stylization filters over 8-bit RGBA raster images.
//!
//! The crate decodes a simple lossless raster container, applies one of three
//! hand-authored filters ("vangogh" painterly strokes, "picasso" posterized
//! block segmentation, "cyberpunk" neon color grade), re-encodes the result,
//! and wraps it in a text-safe envelope. All pixel arithmetic is fixed-point
//! integer arithmetic, so every transform is an exact mathematical function
//! of its inputs.

pub mod codec;
pub mod grade;
pub mod img;
pub mod mathx;
pub mod rng;
pub mod segment;
pub mod stroke;
pub mod textenc;

use vstd::prelude::*;
use vstd::string::StrSliceExecFns;
use crate::codec::decode_ok;
use crate::codec::decoded_data;
use crate::codec::encoded;
use crate::codec::header_h;
use crate::codec::header_w;
use crate::grade::grade_data;
use crate::grade::grade_filter;
use crate::img::RasterImage;
use crate::img::canon_img;
use crate::img::same_view;
use crate::rng::DITHER_SEED;
use crate::rng::DitherGen;
use crate::segment::seg_data;
use crate::segment::segment_filter;
use crate::stroke::stroke_data;
use crate::stroke::stroke_filter;
use crate::textenc::b64_chars;
use crate::textenc::base64_string;
use crate::textenc::lemma_b64_props;

verus! {

/// Outcome envelope of a stylization request: on failure the payload is
/// always absent and the message says what went wrong.
pub struct StyleTransferResult {
    pub success: bool,
    pub message: String,
    pub processed_image_data: Option<String>,
}

/// The style identifiers the dispatcher accepts.
pub open spec fn recognized(style: Seq<char>) -> bool {
    style == "vangogh"@ || style == "picasso"@ || style == "cyberpunk"@
}

/// The stylized pixel buffer a style produces from an image; the stroke
/// filter draws its dithering bytes from a generator at the fixed seed.
pub open spec fn styled_data(style: Seq<char>, img: RasterImage) -> Seq<u8> {
    if style == "vangogh"@ {
        stroke_data(img, DITHER_SEED)
    } else if style == "picasso"@ {
        seg_data(img)
    } else {
        grade_data(img)
    }
}

/// The text payload of a successful request, as a function of the raw bytes
/// and the style alone.
pub open spec fn payload_chars(bytes: Seq<u8>, style: Seq<char>) -> Seq<char> {
    let w = header_w(bytes);
    let h = header_h(bytes);
    let img = canon_img(w, h, decoded_data(bytes));
    b64_chars(encoded(w, h, styled_data(style, img)))
}

/// The message of a rejected style names the style.
pub open spec fn msg_unknown(style: Seq<char>) -> Seq<char> {
    "Style '"@ + style + "' is not supported."@
}

/// The view of an optional payload string.
pub open spec fn payload_view(p: Option<String>) -> Option<Seq<char>> {
    match p {
        Some(s) => Some(s@),
        None => None,
    }
}

/// The full dispatcher contract: what `process_image_style` returns for
/// every input, stated over the raw bytes and the style text alone.
pub open spec fn result_obeys(
    bytes: Seq<u8>,
    style: Seq<char>,
    success: bool,
    message: Seq<char>,
    payload: Option<Seq<char>>,
) -> bool {
    if !recognized(style) {
        !success && payload is None && message == msg_unknown(style)
    } else if !decode_ok(bytes) {
        !success && payload is None && message == "Could not decode the provided image bytes."@
    } else {
        success && message == "Styled image ready."@ && payload == Some(
            payload_chars(bytes, style))
    }
}

/// Greeting used by the host shell around the library.
pub fn greet(name: &str) -> (r: String)
    ensures
        r@ == "Hello, "@ + name@ + "! Welcome to Image Style Transfer"@,
{
    let mut s = String::from_str("Hello, ");
    s.append(name);
    s.append("! Welcome to Image Style Transfer");
    s
}

/// Character-wise string comparison.
fn eq_str(a: &str, b: &str) -> (r: bool)
    ensures
        r == (a@ == b@),
{
    let n = a.unicode_len();
    let m = b.unicode_len();
    if n != m {
        return false;
    }
    let mut i: usize = 0;
    while i < n
        invariant
            n == a@.len(),
            n == b@.len(),
            0 <= i <= n,
            forall|j: int| 0 <= j < i ==> a@[j] == b@[j],
        decreases n - i,
    {
        if a.get_char(i) != b.get_char(i) {
            return false;
        }
        i = i + 1;
    }
    proof {
        assert(a@ =~= b@);
    }
    true
}

/// Applies the named style to container bytes and wraps the result. An
/// unrecognized style or undecodable bytes give a failure with no payload;
/// otherwise the payload is the base64 text of the re-encoded stylized
/// image, an exact function of the inputs.
pub fn process_image_style(image_data: &[u8], style: &str) -> (r: StyleTransferResult)
    ensures
        result_obeys(image_data@, style@, r.success, r.message@, payload_view(
            r.processed_image_data)),
        r.success <==> recognized(style@) && decode_ok(image_data@),
{
    let is_v = eq_str(style, "vangogh");
    let is_p = eq_str(style, "picasso");
    let is_c = eq_str(style, "cyberpunk");
    if !(is_v || is_p || is_c) {
        let mut m = String::from_str("Style '");
        m.append(style);
        m.append("' is not supported.");
        return StyleTransferResult { success: false, message: m, processed_image_data: None };
    }
    let blen = image_data.len();
    match codec::decode(image_data) {
        None => StyleTransferResult {
            success: false,
            message: String::from_str("Could not decode the provided image bytes."),
            processed_image_data: None,
        },
        Some(img) => {
            let out = if is_v {
                let mut gen = DitherGen::new();
                stroke_filter(&img, &mut gen)
            } else if is_p {
                segment_filter(&img)
            } else {
                grade_filter(&img)
            };
            proof {
                assert(out.width * out.height * 8 + 16 <= usize::MAX);
            }
            let enc = codec::encode(&out);
            let payload = base64_string(&enc);
            proof {
                let w = header_w(image_data@);
                let h = header_h(image_data@);
                let cimg = canon_img(w, h, decoded_data(image_data@));
                assert(exists|i: RasterImage|
                    i.width == w && i.height == h && i.data@ == decoded_data(image_data@)) by {
                    assert(img.width == w && img.height == h && img.data@ == decoded_data(
                        image_data@));
                }
                assert(cimg.width == w && cimg.height == h && cimg.data@ == decoded_data(
                    image_data@));
                assert(same_view(img, cimg));
                if is_v {
                    crate::stroke::lemma_stroke_data_cong(img, cimg, DITHER_SEED);
                } else if is_p {
                    crate::segment::lemma_seg_data_cong(img, cimg);
                } else {
                    crate::grade::lemma_grade_data_cong(img, cimg);
                }
                assert(out.data@ == styled_data(style@, cimg));
                assert(payload@ == payload_chars(image_data@, style@));
            }
            StyleTransferResult {
                success: true,
                message: String::from_str("Styled image ready."),
                processed_image_data: Some(payload),
            }
        },
    }
}

/// Law: the result is a function of the bytes and the style alone, so two
/// runs on identical inputs, each from the fixed generator seed, agree in
/// every field, payload byte for byte included.
pub proof fn lemma_deterministic(
    bytes: Seq<u8>,
    style: Seq<char>,
    s1: bool,
    m1: Seq<char>,
    p1: Option<Seq<char>>,
    s2: bool,
    m2: Seq<char>,
    p2: Option<Seq<char>>,
)
    requires
        result_obeys(bytes, style, s1, m1, p1),
        result_obeys(bytes, style, s2, m2, p2),
    ensures
        s1 == s2,
        m1 == m2,
        p1 == p2,
{
}

/// Law: malformed bytes fail for every style choice, with no payload.
pub proof fn lemma_malformed_fails(
    bytes: Seq<u8>,
    style: Seq<char>,
    success: bool,
    message: Seq<char>,
    payload: Option<Seq<char>>,
)
    requires
        !decode_ok(bytes),
        result_obeys(bytes, style, success, message, payload),
    ensures
        !success,
        payload is None,
{
}

/// Law: an unrecognized style fails with no payload, and the message quotes
/// the style name between the 8th character and the closing quote.
pub proof fn lemma_unknown_style_message(
    bytes: Seq<u8>,
    style: Seq<char>,
    success: bool,
    message: Seq<char>,
    payload: Option<Seq<char>>,
)
    requires
        !recognized(style),
        result_obeys(bytes, style, success, message, payload),
    ensures
        !success,
        payload is None,
        message.subrange(7, 7 + style.len() as int) == style,
{
    reveal_strlit("Style '");
    assert(("Style '"@).len() == 7);
    assert(message.subrange(7, 7 + style.len() as int) =~= style);
}

/// Law: every recognized style on decodable bytes succeeds: the payload is
/// present and non-empty, and the bytes it carries decode to an image of
/// exactly the source dimensions. `img` is the image the bytes decode to,
/// which every caller of `decode` holds.
pub proof fn lemma_supported_style_succeeds(
    bytes: Seq<u8>,
    style: Seq<char>,
    img: RasterImage,
    success: bool,
    message: Seq<char>,
    payload: Option<Seq<char>>,
)
    requires
        recognized(style),
        decode_ok(bytes),
        img.width == header_w(bytes),
        img.height == header_h(bytes),
        img.data@ == decoded_data(bytes),
        result_obeys(bytes, style, success, message, payload),
    ensures
        success,
        payload matches Some(p) && p.len() > 0,
        decode_ok(
            encoded(header_w(bytes), header_h(bytes), styled_data(
                style, canon_img(header_w(bytes), header_h(bytes), decoded_data(bytes))))),
        header_w(
            encoded(header_w(bytes), header_h(bytes), styled_data(
                style, canon_img(header_w(bytes), header_h(bytes), decoded_data(bytes)))))
            == header_w(bytes),
        header_h(
            encoded(header_w(bytes), header_h(bytes), styled_data(
                style, canon_img(header_w(bytes), header_h(bytes), decoded_data(bytes)))))
            == header_h(bytes),
{
    let w = header_w(bytes);
    let h = header_h(bytes);
    let cimg = canon_img(w, h, decoded_data(bytes));
    lemma_dims_in_range(bytes);
    assert(exists|i: RasterImage| i.width == w && i.height == h && i.data@ == decoded_data(
        bytes)) by {
        assert(img.width == w && img.height == h && img.data@ == decoded_data(bytes));
    }
    assert(cimg.width == w && cimg.height == h && cimg.data@ == decoded_data(bytes));
    let d = styled_data(style, cimg);
    assert(d.len() == w * h * 4) by {
        assert(cimg.width * cimg.height * 4 == w * h * 4);
    }
    crate::codec::lemma_encode_decode(w, h, d);
    let e = encoded(w, h, d);
    lemma_b64_props(e);
    assert(e.len() >= 16);
    vstd::arithmetic::div_mod::lemma_div_is_ordered(18, e.len() as int + 2, 3);
    assert(payload_chars(bytes, style).len() == (e.len() + 2) / 3 * 4);
    assert((e.len() + 2) / 3 * 4 >= 6 * 4) by (nonlinear_arith)
        requires
            (e.len() + 2) / 3 >= 6,
    ;
}

/// The header fields of decodable bytes are 32-bit values.
proof fn lemma_dims_in_range(bytes: Seq<u8>)
    requires
        decode_ok(bytes),
    ensures
        1 <= header_w(bytes) <= 0xFFFF_FFFF,
        1 <= header_h(bytes) <= 0xFFFF_FFFF,
{
}

} // verus!
