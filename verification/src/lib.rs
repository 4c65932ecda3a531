//! Frame-difference measurement library.
//!
//! An ordered stack of grayscale frames is compared pairwise: each pair is
//! turned into a statistically normalized difference image, which is then
//! binarized against an adjustable threshold and measured over a grid of
//! rectangular regions of interest.  A batch pipeline drives the same
//! computation over a whole range of frame pairs and orders the resulting
//! rows by pair ordinal.
use vstd::prelude::*;

pub mod batch;
pub mod imagestack;
pub mod preview;
pub mod process;
pub mod roi;

verus! {

/// Error from the frame-difference stage.
#[derive(Debug, Clone, Copy, PartialEq, Eq)]
pub enum ImageError {
    /// A frame could not be decoded into a grayscale buffer.
    DecodeFailure,
    /// The two frames of a pair do not have the same dimensions.
    DimensionMismatch,
}

/// Error from frame discovery.
#[derive(Debug, Clone, Copy, PartialEq, Eq)]
pub enum DiscoveryError {
    /// No filename pattern matched any file.
    NoFramesFound,
    /// The directory could not be listed.
    Unreadable,
}

/// An 8-bit grayscale image: `pixels` holds the samples row by row,
/// `pixels[y * width + x]` being the sample at `(x, y)`.
#[derive(Debug, Clone, PartialEq, Eq)]
pub struct GrayImage {
    pub width: u32,
    pub height: u32,
    pub pixels: Vec<u8>,
}

impl GrayImage {
    /// The buffer holds exactly one sample per pixel, the pixel count fits
    /// in `u32`, and each dimension leaves room for a filter margin.
    pub open spec fn wf(&self) -> bool {
        &&& self.pixels@.len() == (self.width as int) * (self.height as int)
        &&& (self.width as int) * (self.height as int) <= u32::MAX as int
        &&& self.width <= 0x7FFF_FFFDu32
        &&& self.height <= 0x7FFF_FFFDu32
    }

    /// Number of pixels.
    pub open spec fn npix(&self) -> int {
        (self.width as int) * (self.height as int)
    }

    /// Builds an image from its dimensions and raw samples; `None` when the
    /// buffer does not hold exactly `width * height` samples or the shape is
    /// out of range.
    pub fn new(width: u32, height: u32, pixels: Vec<u8>) -> (r: Option<GrayImage>)
        ensures
            match r {
                Some(im) => {
                    &&& im.width == width
                    &&& im.height == height
                    &&& im.pixels == pixels
                    &&& im.wf()
                },
                None => !(GrayImage { width, height, pixels }).wf(),
            },
    {
        proof {
            assert((width as int) * (height as int) < 0x1_0000_0000_0000_0000) by (nonlinear_arith)
                requires
                    width <= 0xFFFF_FFFFu32,
                    height <= 0xFFFF_FFFFu32,
            ;
        }
        let n: u64 = (width as u64) * (height as u64);
        if n <= u32::MAX as u64 && pixels.len() == n as usize && width <= 0x7FFF_FFFDu32
            && height <= 0x7FFF_FFFDu32 {
            Some(GrayImage { width, height, pixels })
        } else {
            None
        }
    }

    /// Width and height.
    pub fn dimensions(&self) -> (r: (u32, u32))
        ensures
            r.0 == self.width,
            r.1 == self.height,
    {
        (self.width, self.height)
    }
}

} // verus!
