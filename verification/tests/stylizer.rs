use stylizer::codec::{decode, encode};
use stylizer::img::RasterImage;
use stylizer::mathx::{exp_neg, isqrt, luma601, luma709};
use stylizer::rng::DitherGen;
use stylizer::segment::{nearest_fill, palette, segment_filter};
use stylizer::textenc::base64_string;
use stylizer::{greet, process_image_style, StyleTransferResult};

/// Container bytes of a width x height image whose pixels are given as
/// (r, g, b, a) in row-major order.
fn container_bytes(width: u32, height: u32, pixels: &[(u8, u8, u8, u8)]) -> Vec<u8> {
    assert_eq!(pixels.len(), (width * height) as usize);
    let mut out: Vec<u8> = Vec::new();
    out.extend_from_slice(b"farbfeld");
    out.extend_from_slice(&width.to_be_bytes());
    out.extend_from_slice(&height.to_be_bytes());
    for &(r, g, b, a) in pixels {
        for c in [r, g, b, a] {
            out.push(c);
            out.push(c);
        }
    }
    out
}

fn solid_bytes(width: u32, height: u32, rgba: (u8, u8, u8, u8)) -> Vec<u8> {
    let pixels = vec![rgba; (width * height) as usize];
    container_bytes(width, height, &pixels)
}

fn b64_value(c: u8) -> u8 {
    match c {
        b'A'..=b'Z' => c - b'A',
        b'a'..=b'z' => c - b'a' + 26,
        b'0'..=b'9' => c - b'0' + 52,
        b'+' => 62,
        b'/' => 63,
        _ => panic!("bad base64 digit"),
    }
}

fn b64_decode(s: &str) -> Vec<u8> {
    let raw: Vec<u8> = s.bytes().filter(|&c| c != b'=').collect();
    let mut out = Vec::new();
    for chunk in raw.chunks(4) {
        let mut acc: u32 = 0;
        for &c in chunk {
            acc = acc << 6 | b64_value(c) as u32;
        }
        acc <<= 6 * (4 - chunk.len()) as u32;
        let take = match chunk.len() {
            4 => 3,
            3 => 2,
            2 => 1,
            _ => panic!("bad base64 length"),
        };
        let bytes = acc.to_be_bytes();
        out.extend_from_slice(&bytes[1..1 + take]);
    }
    out
}

fn styled_image(bytes: &[u8], style: &str) -> RasterImage {
    let r = process_image_style(bytes, style);
    assert!(r.success, "style {} failed: {}", style, r.message);
    let payload = r.processed_image_data.expect("payload missing");
    assert!(!payload.is_empty());
    decode(&b64_decode(&payload)).expect("payload bytes must decode")
}

#[test]
fn test_greet() {
    let result = greet("World");
    assert_eq!(result, "Hello, World! Welcome to Image Style Transfer");
}

#[test]
fn test_style_transfer_result_creation() {
    let result = StyleTransferResult {
        success: true,
        message: "Test message".to_string(),
        processed_image_data: Some("test_data".to_string()),
    };

    assert_eq!(result.success, true);
    assert_eq!(result.message, "Test message");
    assert_eq!(result.processed_image_data, Some("test_data".to_string()));
}

#[test]
fn supported_styles_succeed_and_keep_dimensions() {
    let bytes = container_bytes(
        5,
        4,
        &(0..20)
            .map(|i| (i as u8 * 12, 255 - i as u8 * 9, i as u8 * 5, 200))
            .collect::<Vec<_>>(),
    );
    for style in ["vangogh", "picasso", "cyberpunk"] {
        let img = styled_image(&bytes, style);
        assert_eq!(img.width, 5);
        assert_eq!(img.height, 4);
        assert_eq!(img.data.len(), 5 * 4 * 4);
    }
}

#[test]
fn unknown_style_is_rejected_with_named_style() {
    let bytes = solid_bytes(4, 4, (10, 20, 30, 255));
    let r = process_image_style(&bytes, "nonexistent");
    assert!(!r.success);
    assert!(r.processed_image_data.is_none());
    assert!(r.message.contains("nonexistent"));
}

#[test]
fn malformed_bytes_fail_for_every_style() {
    let garbage: Vec<u8> = vec![1, 2, 3, 4, 5, 6, 7];
    let truncated = {
        let mut b = solid_bytes(4, 4, (0, 0, 0, 255));
        b.pop();
        b
    };
    let bad_magic = {
        let mut b = solid_bytes(4, 4, (0, 0, 0, 255));
        b[0] = b'x';
        b
    };
    for style in ["vangogh", "picasso", "cyberpunk"] {
        for bad in [&garbage, &truncated, &bad_magic] {
            let r = process_image_style(bad, style);
            assert!(!r.success);
            assert!(r.processed_image_data.is_none());
        }
    }
}

#[test]
fn zero_dimension_headers_are_rejected() {
    let mut b: Vec<u8> = Vec::new();
    b.extend_from_slice(b"farbfeld");
    b.extend_from_slice(&0u32.to_be_bytes());
    b.extend_from_slice(&4u32.to_be_bytes());
    assert!(decode(&b).is_none());
    let r = process_image_style(&b, "picasso");
    assert!(!r.success);
}

#[test]
fn segment_output_uses_only_palette_colors() {
    let bytes = container_bytes(
        6,
        6,
        &(0..36)
            .map(|i| ((i * 7 % 256) as u8, (i * 13 % 256) as u8, (255 - i * 6 % 256) as u8, 255))
            .collect::<Vec<_>>(),
    );
    let img = styled_image(&bytes, "picasso");
    let palette_rgb: Vec<(u8, u8, u8)> = (0..10).map(palette).collect();
    for p in img.data.chunks(4) {
        assert!(palette_rgb.contains(&(p[0], p[1], p[2])), "off-palette pixel {:?}", p);
        assert_eq!(p[3], 255);
    }
}

#[test]
fn segment_uniform_red_maps_to_red_fill_without_outline() {
    let bytes = solid_bytes(4, 4, (255, 0, 0, 255));
    let img = styled_image(&bytes, "picasso");
    for p in img.data.chunks(4) {
        assert_eq!((p[0], p[1], p[2], p[3]), (230, 57, 70, 255));
    }
}

#[test]
fn nearest_fill_prefers_red_for_pure_red() {
    assert_eq!(nearest_fill(255, 0, 0), 0);
    assert_eq!(palette(0), (230, 57, 70));
    assert_eq!(palette(1), (239, 71, 111));
    let d = |(r, g, b): (u8, u8, u8)| {
        let dr = 255 - r as i64;
        dr * dr + (g as i64) * (g as i64) + (b as i64) * (b as i64)
    };
    assert_eq!(d(palette(0)), 8774);
    assert_eq!(d(palette(1)), 17618);
    for i in 2..9 {
        assert!(d(palette(i)) > 17618);
    }
}

#[test]
fn stroke_output_is_fully_opaque() {
    let pixels: Vec<(u8, u8, u8, u8)> = (0..25)
        .map(|i| (i as u8 * 10, 100, 255 - i as u8 * 10, (i * 37 % 256) as u8))
        .collect();
    let bytes = container_bytes(5, 5, &pixels);
    let img = styled_image(&bytes, "vangogh");
    for p in img.data.chunks(4) {
        assert_eq!(p[3], 255);
    }
}

#[test]
fn grade_preserves_alpha_exactly() {
    let pixels: Vec<(u8, u8, u8, u8)> = (0..25)
        .map(|i| (i as u8 * 10, 200, 55 + i as u8 * 8, (i * 31 % 256) as u8))
        .collect();
    let bytes = container_bytes(5, 5, &pixels);
    let img = styled_image(&bytes, "cyberpunk");
    for (i, p) in img.data.chunks(4).enumerate() {
        assert_eq!(p[3], (i * 31 % 256) as u8, "alpha changed at pixel {}", i);
    }
}

#[test]
fn degenerate_sizes_run_in_every_style() {
    for (w, h) in [(1u32, 1u32), (2, 2), (1, 3), (3, 1)] {
        let bytes = solid_bytes(w, h, (120, 30, 210, 77));
        for style in ["vangogh", "picasso", "cyberpunk"] {
            let img = styled_image(&bytes, style);
            assert_eq!(img.width, w as usize);
            assert_eq!(img.height, h as usize);
        }
    }
}

#[test]
fn identical_runs_give_identical_bytes() {
    let pixels: Vec<(u8, u8, u8, u8)> = (0..16)
        .map(|i| ((i * 17 % 256) as u8, (i * 3 % 256) as u8, (i * 29 % 256) as u8, 255))
        .collect();
    let bytes = container_bytes(4, 4, &pixels);
    for style in ["vangogh", "picasso", "cyberpunk"] {
        let a = process_image_style(&bytes, style);
        let b = process_image_style(&bytes, style);
        assert_eq!(a.success, b.success);
        assert_eq!(a.message, b.message);
        assert_eq!(a.processed_image_data, b.processed_image_data);
    }
}

#[test]
fn codec_round_trip_is_exact() {
    let img = RasterImage {
        width: 3,
        height: 2,
        data: (0..24).map(|i| (i * 11 % 256) as u8).collect(),
    };
    let bytes = encode(&img);
    let back = decode(&bytes).expect("encoded image must decode");
    assert_eq!(back.width, 3);
    assert_eq!(back.height, 2);
    assert_eq!(back.data, img.data);
}

#[test]
fn base64_matches_known_vectors() {
    assert_eq!(base64_string(&b"Man".to_vec()), "TWFu");
    assert_eq!(base64_string(&b"Ma".to_vec()), "TWE=");
    assert_eq!(base64_string(&b"M".to_vec()), "TQ==");
    assert_eq!(base64_string(&Vec::new()), "");
    assert_eq!(base64_string(&vec![0xFF, 0xFF, 0xFF]), "////");
    assert_eq!(base64_string(&vec![0xFB, 0xEF, 0xBE]), "++++");
}

#[test]
fn luminance_weightings_are_exact() {
    assert_eq!(luma601(255, 0, 0), 299 * 255);
    assert_eq!(luma601(0, 255, 0), 587 * 255);
    assert_eq!(luma709(0, 0, 255), 722 * 255);
    assert_eq!(luma709(255, 255, 255), 2550000);
}

#[test]
fn integer_square_root_is_floor() {
    assert_eq!(isqrt(0), 0);
    assert_eq!(isqrt(15), 3);
    assert_eq!(isqrt(16), 4);
    assert_eq!(isqrt(u64::MAX), 0xFFFF_FFFF);
}

#[test]
fn exponential_starts_at_one_and_decays() {
    assert_eq!(exp_neg(0), 4096);
    let e1 = exp_neg(4096);
    assert!(1400 < e1 && e1 < 1600, "e^-1 was {}", e1);
    assert_eq!(exp_neg(16 * 4096), 0);
}

#[test]
fn dither_generator_repeats_from_the_seed() {
    let mut a = DitherGen::new();
    let mut b = DitherGen::new();
    let first: Vec<u8> = (0..32).map(|_| a.next_byte()).collect();
    let second: Vec<u8> = (0..32).map(|_| b.next_byte()).collect();
    assert_eq!(first, second);
    assert!(first.iter().any(|&x| x != first[0]), "stream should vary");
}

#[test]
fn segment_filter_direct_call_matches_dispatcher() {
    let bytes = solid_bytes(4, 4, (255, 0, 0, 9));
    let src = decode(&bytes).unwrap();
    let out = segment_filter(&src);
    let via = styled_image(&bytes, "picasso");
    assert_eq!(out.data, via.data);
}
