use soustraire::process::{normalize, subtract};
use soustraire::{GrayImage, ImageError};

fn gray(width: u32, height: u32, pixels: Vec<u8>) -> GrayImage {
    GrayImage::new(width, height, pixels).unwrap()
}

#[test]
fn test_determinism() {
    let a = gray(3, 3, vec![10, 20, 30, 40, 50, 60, 70, 80, 90]);
    let b = gray(3, 3, vec![90, 80, 70, 60, 50, 40, 30, 20, 10]);
    let first = subtract(&a, &b).unwrap();
    let second = subtract(&a, &b).unwrap();
    assert_eq!(first.pixels, second.pixels);
    assert_eq!(first.width, 3);
    assert_eq!(first.height, 3);
}

#[test]
fn test_degenerate_identical_frames() {
    let a = gray(4, 4, vec![128; 16]);
    let b = gray(4, 4, vec![128; 16]);
    let norm = normalize(&a, &b).unwrap();
    assert_eq!(norm.pixels, vec![0u8; 16]);
    let smoothed = subtract(&a, &b).unwrap();
    assert_eq!(smoothed.pixels, vec![0u8; 16]);
}

#[test]
fn test_degenerate_constant_offset() {
    // A constant offset between the frames also has zero deviation.
    let a = gray(2, 2, vec![200, 200, 200, 200]);
    let b = gray(2, 2, vec![150, 150, 150, 150]);
    let norm = normalize(&a, &b).unwrap();
    assert_eq!(norm.pixels, vec![0u8; 4]);
}

#[test]
fn test_dimension_mismatch() {
    let a = gray(2, 2, vec![0; 4]);
    let b = gray(3, 3, vec![0; 9]);
    assert_eq!(normalize(&a, &b), Err(ImageError::DimensionMismatch));
    assert_eq!(subtract(&a, &b), Err(ImageError::DimensionMismatch));
}

#[test]
fn test_decode_failure_is_distinct() {
    assert_ne!(ImageError::DecodeFailure, ImageError::DimensionMismatch);
}

#[test]
fn test_normalize_small_pair_exact_rounding() {
    // 3x1 frames with deltas 0, 1 and 2: n = 3, s = 3, q = 5, so the
    // scaled variance is 6 and the rescale divides by the real sqrt(6).
    // The three slots map to 112, 128 (an exact half, rounded up) and 143.
    let a = gray(3, 1, vec![10, 11, 12]);
    let b = gray(3, 1, vec![10, 10, 10]);
    let norm = normalize(&a, &b).unwrap();
    assert_eq!(norm.pixels, vec![112, 128, 143]);
}

#[test]
fn test_normalize_exact_values() {
    // 10x10 frames differing by +50 in the 3x3 corner block: with n = 100,
    // s = -450, q = 22500, the scaled variance is 2047500, and the lookup
    // maps delta 0 to 132 and delta -50 to 87.
    let a = vec![100u8; 100];
    let mut b = vec![100u8; 100];
    for y in 0..3 {
        for x in 0..3 {
            b[y * 10 + x] = 150;
        }
    }
    let na = gray(10, 10, a);
    let nb = gray(10, 10, b);
    let norm = normalize(&na, &nb).unwrap();
    for y in 0..10 {
        for x in 0..10 {
            let expect = if x < 3 && y < 3 { 87 } else { 132 };
            assert_eq!(norm.pixels[y * 10 + x], expect, "pixel ({x},{y})");
        }
    }
}

#[test]
fn test_median_smoothing_changes_output() {
    // An isolated strong delta survives normalization but not the 5x5
    // median filter, so the smoothed difference differs from the
    // normalized one.
    let a = gray(5, 5, vec![100; 25]);
    let mut pixels = vec![100u8; 25];
    pixels[12] = 200;
    let b = gray(5, 5, pixels);
    let norm = normalize(&a, &b).unwrap();
    let smooth = subtract(&a, &b).unwrap();
    // n = 25, s = -100, q = 10000, scaled variance 240000:
    // delta 0 maps to 130 and delta -100 to 65.
    let mut expected_norm = vec![130u8; 25];
    expected_norm[12] = 65;
    assert_eq!(norm.pixels, expected_norm);
    assert_eq!(smooth.pixels, vec![130u8; 25]);
    assert_ne!(norm.pixels, smooth.pixels);
}

#[test]
fn test_empty_frames() {
    let a = gray(0, 0, vec![]);
    let b = gray(0, 0, vec![]);
    let r = subtract(&a, &b).unwrap();
    assert_eq!(r.pixels.len(), 0);
}
