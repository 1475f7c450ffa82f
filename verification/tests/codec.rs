use thumbhash::rgba_to_thumb_hash;
use thumbhash::thumb_hash_to_rgba;
use thumbhash::thumb_hash_to_average_rgba;
use thumbhash::thumb_hash_to_approximate_aspect_ratio;

fn uniform(w: usize, h: usize, px: [u8; 4]) -> Vec<u8> {
    let mut v = Vec::with_capacity(w * h * 4);
    for _ in 0..w * h {
        v.extend_from_slice(&px);
    }
    v
}

#[test]
fn smallest_hash_is_exactly_24_bytes() {
    // 1x1 opaque image: 7x7 luminance grid (27 AC), two 3x3 chroma grids
    // (5 AC each), no alpha: 37 nibbles -> 19 bytes after the 5-byte header.
    let hash = rgba_to_thumb_hash(1, 1, &[10, 20, 30, 255]);
    assert_eq!(hash.len(), 24);
}

#[test]
fn uniform_opaque_hash_length() {
    let img = uniform(10, 10, [200, 100, 50, 255]);
    let hash = rgba_to_thumb_hash(10, 10, &img);
    assert_eq!(hash.len(), 24);
    // no alpha byte: the alpha flag bit (top of byte 2) is clear
    assert!(hash[2] < 128);
}

#[test]
fn average_color_of_uniform_image_within_two() {
    let img = uniform(10, 10, [200, 100, 50, 255]);
    let hash = rgba_to_thumb_hash(10, 10, &img);
    let avg = thumb_hash_to_average_rgba(&hash).unwrap();
    // numerators over 378 (rgb) and 15 (alpha), requantized to 8 bits
    let r = (avg.r as u32 * 255 + 189) / 378;
    let g = (avg.g as u32 * 255 + 189) / 378;
    let b = (avg.b as u32 * 255 + 189) / 378;
    let a = (avg.a as u32 * 255 + 7) / 15;
    assert!((r as i32 - 200).abs() <= 2, "r={}", r);
    assert!((g as i32 - 100).abs() <= 2, "g={}", g);
    assert!((b as i32 - 50).abs() <= 2, "b={}", b);
    assert_eq!(a, 255);
}

#[test]
fn landscape_image_sets_orientation_and_decodes_wide() {
    let img = uniform(100, 50, [255, 0, 0, 255]);
    let hash = rgba_to_thumb_hash(100, 50, &img);
    // orientation flag: top bit of byte 4
    assert!(hash[4] >= 128);
    let asp = thumb_hash_to_approximate_aspect_ratio(&hash).unwrap();
    assert_eq!(asp.lx, 7);
    assert_eq!(asp.ly, 4);
    let (w, h, pix) = thumb_hash_to_rgba(&hash).unwrap();
    assert_eq!(w, 32);
    assert_eq!(h, 18);
    assert!(w > h);
    assert_eq!(pix.len(), 4 * w * h);
    // solid red comes back red
    assert!(pix[0] > 200, "r={}", pix[0]);
    assert!(pix[1] < 40, "g={}", pix[1]);
    assert!(pix[2] < 40, "b={}", pix[2]);
    assert_eq!(pix[3], 255);
}

#[test]
fn portrait_image_aspect_is_inverted() {
    let img = uniform(50, 100, [0, 0, 255, 255]);
    let hash = rgba_to_thumb_hash(50, 100, &img);
    assert!(hash[4] < 128);
    let asp = thumb_hash_to_approximate_aspect_ratio(&hash).unwrap();
    assert_eq!(asp.lx, 4);
    assert_eq!(asp.ly, 7);
    let (w, h, _pix) = thumb_hash_to_rgba(&hash).unwrap();
    assert_eq!(h, 32);
    assert!(w < h);
}

#[test]
fn alpha_image_sets_flag_and_extends_header() {
    let img = uniform(4, 4, [100, 150, 200, 128]);
    let hash = rgba_to_thumb_hash(4, 4, &img);
    // alpha flag: top bit of byte 2; header gains a sixth byte
    assert!(hash[2] >= 128);
    // 5x5 luminance grid (14 AC), 5+5 chroma, 14 alpha: 38 nibbles -> 19 bytes
    assert_eq!(hash.len(), 6 + 19);
    let (w, h, pix) = thumb_hash_to_rgba(&hash).unwrap();
    assert_eq!((w, h), (32, 32));
    let a = pix[3] as i32;
    assert!((a - 128).abs() <= 16, "a={}", a);
    let avg = thumb_hash_to_average_rgba(&hash).unwrap();
    assert!(avg.a < 15);
}

#[test]
fn fully_opaque_image_clears_alpha_flag() {
    let img = uniform(4, 4, [100, 150, 200, 255]);
    let hash = rgba_to_thumb_hash(4, 4, &img);
    assert!(hash[2] < 128);
    let avg = thumb_hash_to_average_rgba(&hash).unwrap();
    assert_eq!(avg.a, 15);
}

#[test]
fn encoding_is_deterministic() {
    let mut img = Vec::new();
    for i in 0..30 * 20 {
        img.extend_from_slice(&[(i % 256) as u8, (i * 7 % 256) as u8, (i * 13 % 256) as u8, 255]);
    }
    let h1 = rgba_to_thumb_hash(30, 20, &img);
    let h2 = rgba_to_thumb_hash(30, 20, &img);
    assert_eq!(h1, h2);
    let d1 = thumb_hash_to_rgba(&h1).unwrap();
    let d2 = thumb_hash_to_rgba(&h1).unwrap();
    assert_eq!(d1, d2);
}

#[test]
fn too_short_inputs_fail() {
    for len in 0..5 {
        let bytes = vec![0u8; len];
        assert!(thumb_hash_to_rgba(&bytes).is_err());
        assert!(thumb_hash_to_average_rgba(&bytes).is_err());
        assert!(thumb_hash_to_approximate_aspect_ratio(&bytes).is_err());
    }
}

#[test]
fn five_bytes_with_alpha_flag_fail() {
    // byte 2 has its top bit set: the alpha flag demands a sixth byte
    let bytes = [0u8, 0, 0x80, 0, 0];
    assert!(thumb_hash_to_rgba(&bytes).is_err());
    assert!(thumb_hash_to_average_rgba(&bytes).is_err());
    // the aspect-ratio probe needs only the first five bytes
    let asp = thumb_hash_to_approximate_aspect_ratio(&bytes).unwrap();
    assert_eq!(asp.lx, 0);
    assert_eq!(asp.ly, 5);
}

#[test]
fn five_byte_header_without_ac_bytes_fails() {
    // a plain 5-byte header still lacks all its AC bytes
    let bytes = [0u8; 5];
    assert!(thumb_hash_to_rgba(&bytes).is_err());
    // but the header-only probes succeed
    assert!(thumb_hash_to_average_rgba(&bytes).is_ok());
    assert!(thumb_hash_to_approximate_aspect_ratio(&bytes).is_ok());
}

#[test]
fn truncated_hash_fails_decode() {
    let img = uniform(10, 10, [200, 100, 50, 255]);
    let hash = rgba_to_thumb_hash(10, 10, &img);
    for len in 5..hash.len() {
        assert!(thumb_hash_to_rgba(&hash[..len]).is_err(), "len={}", len);
    }
    assert!(thumb_hash_to_rgba(&hash).is_ok());
}

#[test]
fn aspect_ratio_matches_encoder_grid() {
    // header round-trip: the probe returns the grid the encoder chose
    for (w, h, lx, ly) in [(100usize, 50usize, 7u8, 4u8), (64, 64, 7, 7), (20, 100, 1, 7)] {
        let img = uniform(w, h, [10, 220, 40, 255]);
        let hash = rgba_to_thumb_hash(w, h, &img);
        let asp = thumb_hash_to_approximate_aspect_ratio(&hash).unwrap();
        assert_eq!((asp.lx, asp.ly), (lx, ly), "{}x{}", w, h);
    }
}

#[test]
fn decoded_long_side_is_32() {
    for (w, h) in [(100usize, 50usize), (50, 100), (33, 32), (1, 1), (7, 100)] {
        let img = uniform(w, h, [90, 90, 90, 255]);
        let hash = rgba_to_thumb_hash(w, h, &img);
        let (dw, dh, _) = thumb_hash_to_rgba(&hash).unwrap();
        assert_eq!(dw.max(dh), 32, "{}x{}", w, h);
    }
}

#[test]
fn gradient_round_trip_is_plausible() {
    // a vertical black-to-white gradient keeps its direction after decode
    let mut img = Vec::new();
    let (w, h) = (16usize, 64usize);
    for y in 0..h {
        let v = (y * 255 / (h - 1)) as u8;
        for _ in 0..w {
            img.extend_from_slice(&[v, v, v, 255]);
        }
    }
    let hash = rgba_to_thumb_hash(w, h, &img);
    let (dw, dh, pix) = thumb_hash_to_rgba(&hash).unwrap();
    assert_eq!(dh, 32);
    let top = pix[(0 * dw) * 4] as i32;
    let bottom = pix[((dh - 1) * dw) * 4] as i32;
    assert!(bottom - top > 100, "top={} bottom={}", top, bottom);
}
