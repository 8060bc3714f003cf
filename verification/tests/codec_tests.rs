use qoi_codec::CodecError;
use qoi_codec::Image;
use qoi_codec::Pixel;
use qoi_codec::color_hash;
use qoi_codec::decode;
use qoi_codec::encode;
use qoi_codec::images_equal;
use qoi_codec::pack_rgba;

fn px(r: u8, g: u8, b: u8, a: u8) -> Pixel {
    Pixel { r, g, b, a }
}

fn image_of(width: u32, height: u32, pixels: Vec<Pixel>) -> Image {
    Image::new(width, height, pixels).unwrap()
}

fn header(w: u32, h: u32) -> Vec<u8> {
    let mut v = vec![113u8, 111, 105, 102];
    v.extend_from_slice(&w.to_be_bytes());
    v.extend_from_slice(&h.to_be_bytes());
    v.push(4);
    v.push(0);
    v
}

fn stream(w: u32, h: u32, body: &[u8]) -> Vec<u8> {
    let mut v = header(w, h);
    v.extend_from_slice(body);
    v.extend_from_slice(&[1, 0, 0, 0]);
    v
}

#[test]
fn hash_matches_formula() {
    assert_eq!(color_hash(10, 20, 30, 255), (10 * 3 + 20 * 5 + 30 * 7 + 255 * 11) % 64);
    assert_eq!(color_hash(10, 20, 30, 255), 9);
    assert_eq!(color_hash(0, 0, 0, 0), 0);
    assert_eq!(color_hash(255, 255, 255, 255), (255u32 * 26 % 64) as usize);
}

#[test]
fn pack_is_big_endian_rgba() {
    assert_eq!(pack_rgba(1, 2, 3, 4), 0x01020304);
    assert_eq!(pack_rgba(255, 0, 0, 0), 0xFF000000);
    assert_eq!(pack_rgba(0, 0, 0, 255), 0x000000FF);
}

#[test]
fn two_identical_pixels() {
    // The first pixel differs from the initial previous pixel, so it takes
    // an RGB literal; the second joins a run of one.
    let img = image_of(2, 1, vec![px(10, 20, 30, 255), px(10, 20, 30, 255)]);
    let bytes = encode(&img);
    assert_eq!(bytes, stream(2, 1, &[254, 10, 20, 30, 192]));
    let back = decode(&bytes).unwrap();
    assert!(images_equal(&img, &back));
    assert_eq!(back.pixels, vec![px(10, 20, 30, 255), px(10, 20, 30, 255)]);
}

#[test]
fn run_of_62_sentinel_pixels_is_one_run_token() {
    let img = image_of(62, 1, vec![px(0, 0, 0, 255); 62]);
    let bytes = encode(&img);
    assert_eq!(bytes, stream(62, 1, &[192 + 61]));
    assert!(images_equal(&img, &decode(&bytes).unwrap()));
}

#[test]
fn run_of_63_sentinel_pixels_is_two_run_tokens() {
    let img = image_of(63, 1, vec![px(0, 0, 0, 255); 63]);
    let bytes = encode(&img);
    assert_eq!(bytes, stream(63, 1, &[192 + 61, 192]));
    assert!(images_equal(&img, &decode(&bytes).unwrap()));
}

#[test]
fn run_of_63_other_pixels_has_one_literal_and_one_run_token() {
    // A color other than the initial previous pixel spends its first pixel
    // on a literal, so 63 pixels hold only one run token.
    let img = image_of(63, 1, vec![px(255, 0, 0, 255); 63]);
    let bytes = encode(&img);
    assert_eq!(bytes, stream(63, 1, &[254, 255, 0, 0, 192 + 61]));
    assert!(images_equal(&img, &decode(&bytes).unwrap()));
}

#[test]
fn small_diff_boundary_minus_two() {
    let img = image_of(2, 1, vec![px(100, 100, 100, 255), px(98, 98, 98, 255)]);
    let bytes = encode(&img);
    // biased fields (0,0,0) on top of the small-diff tag
    assert_eq!(bytes, stream(2, 1, &[254, 100, 100, 100, 64]));
    assert!(images_equal(&img, &decode(&bytes).unwrap()));
}

#[test]
fn minus_three_falls_through_to_luma() {
    let img = image_of(2, 1, vec![px(100, 100, 100, 255), px(97, 100, 100, 255)]);
    let bytes = encode(&img);
    // green delta 0 biased to 32; red-relative -3 and blue-relative 0
    // biased to 5 and 8
    assert_eq!(bytes, stream(2, 1, &[254, 100, 100, 100, 160, 88]));
    assert!(images_equal(&img, &decode(&bytes).unwrap()));
}

#[test]
fn repeated_color_hits_the_cache() {
    let a = px(10, 20, 30, 255);
    let b = px(200, 50, 50, 255);
    let img = image_of(3, 1, vec![a, b, a]);
    let bytes = encode(&img);
    // the third pixel is found in cache slot 9
    assert_eq!(bytes, stream(3, 1, &[254, 10, 20, 30, 254, 200, 50, 50, 9]));
    assert!(images_equal(&img, &decode(&bytes).unwrap()));
}

#[test]
fn alpha_change_forces_full_literal() {
    let img = image_of(2, 1, vec![px(10, 20, 30, 255), px(10, 20, 30, 128)]);
    let bytes = encode(&img);
    assert_eq!(bytes, stream(2, 1, &[254, 10, 20, 30, 255, 10, 20, 30, 128]));
    assert!(images_equal(&img, &decode(&bytes).unwrap()));
}

#[test]
fn round_trip_mixed_image() {
    let mut pixels = Vec::new();
    for i in 0..12u32 {
        let v = (i * 21) as u8;
        pixels.push(px(v, v.wrapping_add(3), v.wrapping_mul(7), if i % 5 == 0 { 200 } else { 255 }));
    }
    let img = image_of(4, 3, pixels);
    let back = decode(&encode(&img)).unwrap();
    assert!(images_equal(&img, &back));
}

#[test]
fn round_trip_no_adjacent_repeats() {
    let mut pixels = Vec::new();
    for i in 0..64u32 {
        pixels.push(px((i * 37 % 256) as u8, (i * 11 % 256) as u8, (255 - i) as u8, 255));
    }
    let img = image_of(8, 8, pixels);
    let back = decode(&encode(&img)).unwrap();
    assert!(images_equal(&img, &back));
}

#[test]
fn round_trip_all_identical() {
    let img = image_of(16, 16, vec![px(7, 7, 7, 7); 256]);
    let back = decode(&encode(&img)).unwrap();
    assert!(images_equal(&img, &back));
}

#[test]
fn round_trip_empty_image() {
    let img = image_of(0, 0, vec![]);
    let bytes = encode(&img);
    assert_eq!(bytes.len(), 18);
    let back = decode(&bytes).unwrap();
    assert!(images_equal(&img, &back));
}

#[test]
fn truncating_one_byte_is_rejected() {
    let img = image_of(3, 2, vec![px(9, 8, 7, 255); 6]);
    let mut bytes = encode(&img);
    bytes.pop();
    assert_eq!(decode(&bytes).unwrap_err(), CodecError::TruncatedBody);
}

#[test]
fn short_buffer_is_malformed_header() {
    assert_eq!(decode(&vec![113, 111, 105, 102]).unwrap_err(), CodecError::MalformedHeader);
    assert_eq!(decode(&vec![]).unwrap_err(), CodecError::MalformedHeader);
}

#[test]
fn wrong_magic_is_malformed_header() {
    let mut bytes = stream(1, 1, &[254, 1, 2, 3]);
    bytes[0] = 112;
    assert_eq!(decode(&bytes).unwrap_err(), CodecError::MalformedHeader);
}

#[test]
fn missing_end_marker_is_truncated_body() {
    let mut bytes = header(1, 1);
    bytes.extend_from_slice(&[254, 1, 2, 3, 9, 9, 9, 9]);
    assert_eq!(decode(&bytes).unwrap_err(), CodecError::TruncatedBody);
}

#[test]
fn literal_cut_by_body_end_is_truncated_body() {
    // an RGBA literal tag with no payload before the end marker
    let bytes = stream(1, 1, &[255]);
    assert_eq!(decode(&bytes).unwrap_err(), CodecError::TruncatedBody);
    // a luma tag missing its second byte
    let bytes = stream(1, 1, &[160]);
    assert_eq!(decode(&bytes).unwrap_err(), CodecError::TruncatedBody);
}

#[test]
fn small_diff_wraps_below_zero() {
    // fields (0,0,0) mean deltas (-2,-2,-2) from the initial previous
    // pixel (0,0,0,255), wrapping to 254
    let bytes = stream(1, 1, &[64]);
    let img = decode(&bytes).unwrap();
    assert_eq!(img.pixels, vec![px(254, 254, 254, 255)]);
}

#[test]
fn short_body_fills_with_last_pixel() {
    let bytes = stream(4, 1, &[254, 10, 20, 30]);
    let img = decode(&bytes).unwrap();
    assert_eq!(img.pixels, vec![px(10, 20, 30, 255); 4]);
}

#[test]
fn empty_body_fills_with_initial_pixel() {
    let bytes = stream(2, 1, &[]);
    let img = decode(&bytes).unwrap();
    assert_eq!(img.pixels, vec![px(0, 0, 0, 255); 2]);
}

#[test]
fn extra_pixels_beyond_dimensions_are_dropped() {
    let bytes = stream(1, 1, &[254, 10, 20, 30, 254, 1, 2, 3]);
    let img = decode(&bytes).unwrap();
    assert_eq!(img.width, 1);
    assert_eq!(img.height, 1);
    assert_eq!(img.pixels, vec![px(10, 20, 30, 255)]);
}

#[test]
fn first_pixel_transparent_black_hits_initial_cache() {
    // slot 0 of the fresh cache holds transparent black, so the very first
    // pixel can be a cache hit
    let img = image_of(1, 1, vec![px(0, 0, 0, 0)]);
    let bytes = encode(&img);
    assert_eq!(bytes, stream(1, 1, &[0]));
    assert!(images_equal(&img, &decode(&bytes).unwrap()));
}

#[test]
fn image_new_checks_pixel_count() {
    assert!(Image::new(2, 2, vec![px(0, 0, 0, 0); 3]).is_none());
    assert!(Image::new(2, 2, vec![px(0, 0, 0, 0); 4]).is_some());
}

#[test]
fn get_pixel_reads_row_major() {
    let img = image_of(2, 2, vec![px(1, 0, 0, 255), px(2, 0, 0, 255), px(3, 0, 0, 255), px(4, 0, 0, 255)]);
    assert_eq!(img.get_pixel(0, 0), px(1, 0, 0, 255));
    assert_eq!(img.get_pixel(1, 0), px(2, 0, 0, 255));
    assert_eq!(img.get_pixel(0, 1), px(3, 0, 0, 255));
    assert_eq!(img.get_pixel(1, 1), px(4, 0, 0, 255));
}

#[test]
fn images_equal_compares_dimensions_and_pixels() {
    let a = image_of(2, 1, vec![px(1, 2, 3, 4), px(5, 6, 7, 8)]);
    let b = image_of(2, 1, vec![px(1, 2, 3, 4), px(5, 6, 7, 8)]);
    let c = image_of(2, 1, vec![px(1, 2, 3, 4), px(5, 6, 7, 9)]);
    let d = image_of(1, 2, vec![px(1, 2, 3, 4), px(5, 6, 7, 8)]);
    assert!(images_equal(&a, &b));
    assert!(!images_equal(&a, &c));
    assert!(!images_equal(&a, &d));
}

#[test]
fn header_carries_dimensions_big_endian() {
    let img = image_of(300, 2, vec![px(0, 0, 0, 255); 600]);
    let bytes = encode(&img);
    assert_eq!(bytes[0..4].to_vec(), vec![113, 111, 105, 102]);
    assert_eq!(bytes[4..8].to_vec(), vec![0, 0, 1, 44]);
    assert_eq!(bytes[8..12].to_vec(), vec![0, 0, 0, 2]);
    assert_eq!(bytes[12], 4);
    assert_eq!(bytes[13], 0);
    let back = decode(&bytes).unwrap();
    assert_eq!(back.width, 300);
    assert_eq!(back.height, 2);
}

#[test]
fn run_cap_respected_across_rows() {
    // 130 identical pixels of a non-initial color: literal, run of 62,
    // run of 62, run of 5
    let img = image_of(13, 10, vec![px(40, 40, 40, 255); 130]);
    let bytes = encode(&img);
    assert_eq!(bytes, stream(13, 10, &[254, 40, 40, 40, 192 + 61, 192 + 61, 192 + 4]));
    assert!(images_equal(&img, &decode(&bytes).unwrap()));
}

#[test]
fn run_flush_commits_previous_pixel_to_cache() {
    // After a leading run of the initial previous pixel, that pixel sits in
    // its cache slot on both sides, so its next appearance is a cache hit.
    let s = px(0, 0, 0, 255);
    let img = image_of(4, 1, vec![s, s, px(9, 9, 9, 255), s]);
    let bytes = encode(&img);
    // run of 2, luma diff (+9,+9,+9), cache hit at slot 53
    assert_eq!(bytes, stream(4, 1, &[193, 169, 136, 53]));
    assert!(images_equal(&img, &decode(&bytes).unwrap()));
}
