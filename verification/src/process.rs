//! Frame-to-frame difference normalization.
//!
//! Two grayscale frames of equal dimensions are subtracted pixel by pixel;
//! the signed deltas are rescaled so that the window of plus or minus ten
//! standard deviations of the pair's own delta distribution maps onto the
//! byte range, and the result is smoothed with a 5x5 median filter.
//!
//! All statistics are computed in exact integer arithmetic: with `n` pixels,
//! delta sum `s` and delta square sum `q`, the variance of the deltas is
//! `t / n^2` for `t = n*q - s*s`, so their standard deviation is
//! `sqrt(t) / n`, and the lookup value for a delta `d` is the nearest
//! integer to `255 * ((n*d - s) + 10*sqrt(t)) / (20*sqrt(t))`, clamped to
//! the byte range.  No square root is ever taken: every comparison against
//! a multiple of `sqrt(t)` is decided exactly by comparing squares.
use crate::{GrayImage, ImageError};
use vstd::prelude::*;

verus! {

/// Sum of the signed deltas `a[k] - b[k]` over `k < i`.
pub open spec fn delta_sum(a: Seq<u8>, b: Seq<u8>, i: int) -> int
    decreases i,
{
    if i <= 0 {
        0
    } else {
        delta_sum(a, b, i - 1) + (a[i - 1] - b[i - 1])
    }
}

/// Sum of the squared deltas over `k < i`.
pub open spec fn delta_sqsum(a: Seq<u8>, b: Seq<u8>, i: int) -> int
    decreases i,
{
    if i <= 0 {
        0
    } else {
        delta_sqsum(a, b, i - 1) + (a[i - 1] - b[i - 1]) * (a[i - 1] - b[i - 1])
    }
}

/// The variance of the delta distribution scaled by the squared pixel
/// count: `n*q - s*s`.  The real standard deviation of the deltas is the
/// square root of this, divided by `n`.
pub open spec fn scaled_var(a: Seq<u8>, b: Seq<u8>) -> int {
    let n = a.len() as int;
    let s = delta_sum(a, b, n);
    let q = delta_sqsum(a, b, n);
    n * q - s * s
}

/// Whether `c * sqrt(t) <= a` for a nonnegative `t`, decided exactly by
/// comparing squares, so that no real number is needed.
pub open spec fn le_mul_sqrt(c: int, t: int, a: int) -> bool {
    if c <= 0 {
        a >= 0 || a * a <= c * c * t
    } else {
        a >= 0 && c * c * t <= a * a
    }
}

/// The nearest integer (ties rounding up) to
/// `x = (a + 2550*sqrt(t)) / (20*sqrt(t))`, clamped to `[0, m]`: the
/// largest `k <= m` with `k <= x + 1/2`, which unfolds to
/// `(20*k - 2560) * sqrt(t) <= a`.
pub open spec fn nearest_rescaled(a: int, t: int, m: int) -> int
    decreases m,
{
    if m <= 0 {
        0
    } else if le_mul_sqrt(20 * m - 2560, t, a) {
        m
    } else {
        nearest_rescaled(a, t, m - 1)
    }
}

/// Lookup value for table slot `v` (delta `d = v - 255`), given pixel count
/// `n`, delta sum `s` and scaled variance `t`: the nearest integer to
/// `255 * ((n*d - s) + 10*sqrt(t)) / (20*sqrt(t))` clamped to the byte
/// range, which rescales the mean-centred delta so that plus or minus ten
/// standard deviations of the pair's own delta distribution span the bytes.
/// A degenerate pair with zero deviation maps everything to zero.
pub open spec fn lut_val(n: int, s: int, t: int, v: int) -> int {
    if t <= 0 {
        0
    } else {
        nearest_rescaled(255 * (n * (v - 255) - s), t, 255)
    }
}

/// The normalized difference of two equally long sample rows, before
/// smoothing.
pub open spec fn norm_pixels(a: Seq<u8>, b: Seq<u8>) -> Seq<u8> {
    let n = a.len() as int;
    let s = delta_sum(a, b, n);
    let t = scaled_var(a, b);
    Seq::new(a.len(), |i: int| lut_val(n, s, t, a[i] - b[i] + 255) as u8)
}

/// What the 5x5 median smoothing filter returns for an image of the given
/// dimensions: a pure function of the samples alone.
pub uninterp spec fn median_filtered(width: int, height: int, pixels: Seq<u8>) -> Seq<u8>;

/// The samples of the full difference image: normalized, then smoothed.
pub open spec fn spec_subtract(a: GrayImage, b: GrayImage) -> Seq<u8> {
    median_filtered(a.width as int, a.height as int, norm_pixels(a.pixels@, b.pixels@))
}

/// Relies on imageproc's median_filter with radius 2 on both axes: each
/// output sample is the median of a 5x5 window around its pixel, borders
/// padded by continuity; the output has the dimensions of the input.
#[verifier::external_body]
fn median_filter_5x5(im: &GrayImage) -> (r: GrayImage)
    requires
        im.wf(),
    ensures
        r.width == im.width,
        r.height == im.height,
        r.pixels@.len() == im.pixels@.len(),
        r.pixels@ == median_filtered(im.width as int, im.height as int, im.pixels@),
{
    let buf = image::ImageBuffer::<image::Luma<u8>, Vec<u8>>::from_raw(
        im.width,
        im.height,
        im.pixels.clone(),
    ).unwrap();
    let out = imageproc::filter::median_filter(&buf, 2, 2);
    GrayImage { width: im.width, height: im.height, pixels: out.into_raw() }
}

/// Decides `c * sqrt(t) <= a` by comparing squares.
fn le_mul_sqrt_i128(c: i64, t: i128, a: i64) -> (r: bool)
    requires
        -0x1000 <= c <= 0x1000,
        0 <= t <= 0x1_0000_0000_0000_0000_0000_0000i128,
        -0x4_0000_0000_0000i64 <= a <= 0x4_0000_0000_0000i64,
    ensures
        r == le_mul_sqrt(c as int, t as int, a as int),
{
    proof {
        assert((0 <= (c as int) * (c as int) <= 0x100_0000) && (0 <= (a as int) * (a as int)
            <= 0x10_0000_0000_0000_0000_0000_0000int)) by (nonlinear_arith)
            requires
                -0x1000 <= c as int <= 0x1000,
                -0x4_0000_0000_0000 <= a as int <= 0x4_0000_0000_0000,
        ;
        assert(0 <= (0x100_0000int) * (t as int) <= 0x100_0000_0000_0000_0000_0000_0000_0000int)
            by (nonlinear_arith)
            requires
                0 <= t as int <= 0x1_0000_0000_0000_0000_0000_0000int,
        ;
        assert((c as int) * (c as int) * (t as int) <= 0x100_0000 * (t as int)) by (nonlinear_arith)
            requires
                0 <= (c as int) * (c as int) <= 0x100_0000,
                t as int >= 0,
        ;
        assert((c as int) * (c as int) * (t as int) >= 0) by (nonlinear_arith)
            requires
                t as int >= 0,
        ;
    }
    let c2: i128 = (c as i128) * (c as i128);
    let a2: i128 = (a as i128) * (a as i128);
    if c <= 0 {
        a >= 0 || a2 <= c2 * t
    } else {
        a >= 0 && c2 * t <= a2
    }
}

/// Finds the lookup value for one table slot: the largest byte at or below
/// the rescaled position, scanning the byte values downward.
fn nearest_rescaled_255(a: i64, t: i128) -> (r: u8)
    requires
        0 <= t <= 0x1_0000_0000_0000_0000_0000_0000i128,
        -0x4_0000_0000_0000i64 <= a <= 0x4_0000_0000_0000i64,
    ensures
        r as int == nearest_rescaled(a as int, t as int, 255),
{
    let mut m: i64 = 255;
    while m > 0
        invariant
            0 <= m <= 255,
            0 <= t <= 0x1_0000_0000_0000_0000_0000_0000i128,
            -0x4_0000_0000_0000i64 <= a <= 0x4_0000_0000_0000i64,
            nearest_rescaled(a as int, t as int, 255) == nearest_rescaled(a as int, t as int, m as int),
        decreases m,
    {
        if le_mul_sqrt_i128(20 * m - 2560, t, a) {
            return m as u8;
        }
        m = m - 1;
    }
    0
}

/// Computes the normalized (but not yet smoothed) difference image of two
/// frames.  Fails exactly when the dimensions differ.
pub fn normalize(a: &GrayImage, b: &GrayImage) -> (r: Result<GrayImage, ImageError>)
    requires
        a.wf(),
        b.wf(),
    ensures
        r.is_ok() <==> (a.width == b.width && a.height == b.height),
        match r {
            Ok(im) => {
                &&& im.wf()
                &&& im.width == a.width
                &&& im.height == a.height
                &&& im.pixels@ == norm_pixels(a.pixels@, b.pixels@)
            },
            Err(e) => e == ImageError::DimensionMismatch,
        },
{
    if a.width != b.width || a.height != b.height {
        return Err(ImageError::DimensionMismatch);
    }
    let n: usize = a.pixels.len();
    proof {
        assert(b.pixels@.len() == n);
    }
    let ghost av = a.pixels@;
    let ghost bv = b.pixels@;

    // First pass: delta sum and delta square sum.
    let mut s: i64 = 0;
    let mut q: i64 = 0;
    let mut i: usize = 0;
    while i < n
        invariant
            0 <= i <= n,
            n <= 0xFFFF_FFFFu64,
            a.pixels@ == av,
            b.pixels@ == bv,
            av.len() == n,
            bv.len() == n,
            s == delta_sum(av, bv, i as int),
            q == delta_sqsum(av, bv, i as int),
            -255 * (i as int) <= s <= 255 * (i as int),
            0 <= q <= 65025 * (i as int),
        decreases n - i,
    {
        let d: i32 = a.pixels[i] as i32 - b.pixels[i] as i32;
        proof {
            assert(0 <= (d as int) * (d as int) <= 65025) by (nonlinear_arith)
                requires
                    -255 <= d as int <= 255,
            ;
        }
        s = s + d as i64;
        q = q + (d * d) as i64;
        i = i + 1;
    }

    // The scaled variance t = n*q - s*s.
    let ghost ni = n as int;
    proof {
        assert((0 <= ni * (q as int) <= 65025 * ni * ni) && (0 <= (s as int) * (s as int) <= 65025
            * ni * ni)) by (nonlinear_arith)
            requires
                0 <= ni <= 0xFFFF_FFFF,
                0 <= q as int <= 65025 * ni,
                -255 * ni <= s as int <= 255 * ni,
        ;
        assert(65025 * ni * ni <= 65025 * 0xFFFF_FFFFint * 0xFFFF_FFFFint) by (nonlinear_arith)
            requires
                0 <= ni <= 0xFFFF_FFFF,
        ;
    }
    let t: i128 = (n as i128) * (q as i128) - (s as i128) * (s as i128);
    proof {
        assert(t as int == scaled_var(av, bv));
        assert(t <= 0x1_0000_0000_0000_0000_0000_0000i128);
    }

    // The lookup table over all 511 possible delta slots.
    let mut lut: Vec<u8> = Vec::new();
    let mut v: usize = 0;
    while v < 511
        invariant
            0 <= v <= 511,
            n <= 0xFFFF_FFFFu64,
            t <= 0x1_0000_0000_0000_0000_0000_0000i128,
            t as int == scaled_var(av, bv),
            s as int == delta_sum(av, bv, n as int),
            -255 * (n as int) <= s as int <= 255 * (n as int),
            lut@.len() == v,
            forall|k: int|
                0 <= k < v ==> lut@[k] == lut_val(n as int, s as int, t as int, k) as u8,
        decreases 511 - v,
    {
        let val: u8 = if t <= 0 {
            0u8
        } else {
            let dv: i64 = v as i64 - 255;
            proof {
                assert(-255 * (n as int) <= (n as int) * (dv as int) <= 255 * (n as int))
                    by (nonlinear_arith)
                    requires
                        0 <= n as int <= 0xFFFF_FFFF,
                        -255 <= dv as int <= 255,
                ;
            }
            let a255: i64 = 255 * ((n as i64) * dv - s);
            nearest_rescaled_255(a255, t)
        };
        lut.push(val);
        v = v + 1;
    }

    // Second pass: map every delta through the table.
    let mut out: Vec<u8> = Vec::new();
    let mut j: usize = 0;
    while j < n
        invariant
            0 <= j <= n,
            a.pixels@ == av,
            b.pixels@ == bv,
            av.len() == n,
            bv.len() == n,
            lut@.len() == 511,
            forall|k: int|
                0 <= k < 511 ==> lut@[k] == lut_val(
                    n as int,
                    delta_sum(av, bv, n as int),
                    scaled_var(av, bv),
                    k,
                ) as u8,
            out@.len() == j,
            forall|k: int| 0 <= k < j ==> out@[k] == norm_pixels(av, bv)[k],
        decreases n - j,
    {
        let idx: usize = (a.pixels[j] as i32 - b.pixels[j] as i32 + 255) as usize;
        out.push(lut[idx]);
        j = j + 1;
    }
    proof {
        assert(out@ =~= norm_pixels(av, bv));
    }
    Ok(GrayImage { width: a.width, height: a.height, pixels: out })
}

/// Computes the normalized and median-smoothed difference image of two
/// frames: the full difference stage.  Fails exactly when the dimensions
/// differ.
pub fn subtract(a: &GrayImage, b: &GrayImage) -> (r: Result<GrayImage, ImageError>)
    requires
        a.wf(),
        b.wf(),
    ensures
        r.is_ok() <==> (a.width == b.width && a.height == b.height),
        match r {
            Ok(im) => {
                &&& im.wf()
                &&& im.width == a.width
                &&& im.height == a.height
                &&& im.pixels@ == spec_subtract(*a, *b)
            },
            Err(e) => e == ImageError::DimensionMismatch,
        },
{
    match normalize(a, b) {
        Ok(nm) => Ok(median_filter_5x5(&nm)),
        Err(e) => Err(e),
    }
}

/// The difference image is a pure function of the two input frames: repeated
/// calls on the same frames, under any scheduling, yield byte-identical
/// output.
pub proof fn lemma_subtract_deterministic(a1: GrayImage, b1: GrayImage, a2: GrayImage, b2: GrayImage)
    requires
        a1 == a2,
        b1 == b2,
    ensures
        spec_subtract(a1, b1) == spec_subtract(a2, b2),
{
}

proof fn lemma_zero_delta_sums(a: Seq<u8>, b: Seq<u8>, i: int)
    requires
        a == b,
        i <= a.len(),
    ensures
        delta_sum(a, b, i) == 0,
        delta_sqsum(a, b, i) == 0,
    decreases i,
{
    if i > 0 {
        lemma_zero_delta_sums(a, b, i - 1);
    }
}

/// Pixel-identical frames have zero deviation, so the whole lookup table
/// degenerates and the normalized difference image is uniformly zero before
/// smoothing.
pub proof fn lemma_identical_frames_zero(a: Seq<u8>, b: Seq<u8>)
    requires
        a == b,
    ensures
        scaled_var(a, b) == 0,
        norm_pixels(a, b) =~= Seq::new(a.len(), |i: int| 0u8),
{
    let n = a.len() as int;
    lemma_zero_delta_sums(a, b, n);
    assert(scaled_var(a, b) == 0);
}

} // verus!
