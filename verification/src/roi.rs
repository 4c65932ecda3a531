//! Regions of interest: a rotated rectangular grid of regions, the binary
//! measurement of a difference image over each region, and the persisted
//! form of the grid's layout parameters.
use crate::GrayImage;
use vstd::prelude::*;

verus! {

/// One rectangular region of interest.  The rectangle is half open and may
/// extend past the bounds of a measured image; it is clipped at measurement
/// time.
#[derive(Debug, Clone, Copy, PartialEq, Eq)]
pub struct Roi {
    pub x: u32,
    pub y: u32,
    pub width: u32,
    pub height: u32,
    pub index: usize,
}

/// Number of foreground samples (odd bytes) in row `y` of a sample buffer
/// of row width `w`, over the column range `[x0, x1)`.
pub open spec fn row_fg(pix: Seq<u8>, w: int, y: int, x0: int, x1: int) -> int
    decreases x1 - x0,
{
    if x1 <= x0 {
        0
    } else {
        row_fg(pix, w, y, x0, x1 - 1) + if pix[y * w + (x1 - 1)] % 2 == 1 {
            1int
        } else {
            0int
        }
    }
}

/// Number of foreground samples in the rectangle `[x0, x1) x [y0, y1)`.
pub open spec fn rect_fg(pix: Seq<u8>, w: int, y0: int, y1: int, x0: int, x1: int) -> int
    decreases y1 - y0,
{
    if y1 <= y0 {
        0
    } else {
        rect_fg(pix, w, y0, y1 - 1, x0, x1) + row_fg(pix, w, y1 - 1, x0, x1)
    }
}

/// What a region measures on an image given by its samples and dimensions:
/// the number of foreground samples in the region's rectangle clipped to the
/// image bounds.
pub open spec fn spec_measure(roi: Roi, pix: Seq<u8>, w: int, h: int) -> int {
    let x1 = if roi.x + roi.width <= w {
        roi.x + roi.width
    } else {
        w
    };
    let y1 = if roi.y + roi.height <= h {
        roi.y + roi.height
    } else {
        h
    };
    rect_fg(pix, w, roi.y as int, y1, roi.x as int, x1)
}

proof fn lemma_row_fg_le(pix: Seq<u8>, w: int, y: int, x0: int, x1: int)
    ensures
        0 <= row_fg(pix, w, y, x0, x1),
        x0 <= x1 ==> row_fg(pix, w, y, x0, x1) <= x1 - x0,
        x1 <= x0 ==> row_fg(pix, w, y, x0, x1) == 0,
    decreases x1 - x0,
{
    if x1 > x0 {
        lemma_row_fg_le(pix, w, y, x0, x1 - 1);
    }
}

proof fn lemma_rect_fg_le(pix: Seq<u8>, w: int, y0: int, y1: int, x0: int, x1: int)
    ensures
        0 <= rect_fg(pix, w, y0, y1, x0, x1),
        y0 <= y1 && x0 <= x1 ==> rect_fg(pix, w, y0, y1, x0, x1) <= (y1 - y0) * (x1 - x0),
    decreases y1 - y0,
{
    if y1 > y0 {
        lemma_rect_fg_le(pix, w, y0, y1 - 1, x0, x1);
        lemma_row_fg_le(pix, w, y1 - 1, x0, x1);
        if x0 <= x1 {
            assert((y1 - 1 - y0) * (x1 - x0) + (x1 - x0) == (y1 - y0) * (x1 - x0))
                by (nonlinear_arith);
        }
    }
}

proof fn lemma_rect_fg_empty_cols(pix: Seq<u8>, w: int, y0: int, y1: int, x0: int, x1: int)
    requires
        x1 <= x0,
    ensures
        rect_fg(pix, w, y0, y1, x0, x1) == 0,
    decreases y1 - y0,
{
    if y1 > y0 {
        lemma_rect_fg_empty_cols(pix, w, y0, y1 - 1, x0, x1);
    }
}

/// A region lying entirely outside the image bounds measures zero.
pub proof fn lemma_measure_out_of_bounds(roi: Roi, pix: Seq<u8>, w: int, h: int)
    requires
        roi.x >= w || roi.y >= h,
    ensures
        spec_measure(roi, pix, w, h) == 0,
{
    let x1 = if roi.x + roi.width <= w {
        roi.x + roi.width
    } else {
        w
    };
    let y1 = if roi.y + roi.height <= h {
        roi.y + roi.height
    } else {
        h
    };
    if roi.x >= w {
        lemma_rect_fg_empty_cols(pix, w, roi.y as int, y1, roi.x as int, x1);
    }
}

impl Roi {
    /// A region at `(x, y)` of the given size, with index 0.
    pub fn new(x: u32, y: u32, width: u32, height: u32) -> (r: Roi)
        ensures
            r == (Roi { x, y, width, height, index: 0 }),
    {
        Roi { x, y, width, height, index: 0 }
    }

    /// The same region under a new ordinal index.
    pub fn set_index(self, idx: usize) -> (r: Roi)
        ensures
            r == (Roi { index: idx, ..self }),
    {
        Roi { index: idx, ..self }
    }

    /// Counts the foreground samples (odd bytes) of `im` inside this
    /// region's rectangle clipped to the image bounds.
    pub fn measure(&self, im: &GrayImage) -> (count: u32)
        requires
            im.wf(),
        ensures
            count == spec_measure(*self, im.pixels@, im.width as int, im.height as int),
    {
        let w: u32 = im.width;
        let h: u32 = im.height;
        let xe: u64 = self.x as u64 + self.width as u64;
        let ye: u64 = self.y as u64 + self.height as u64;
        let x1: u32 = if xe <= w as u64 {
            xe as u32
        } else {
            w
        };
        let y1: u32 = if ye <= h as u64 {
            ye as u32
        } else {
            h
        };
        let x0: u32 = self.x;
        let y0: u32 = self.y;
        let ghost pix = im.pixels@;
        let ghost wi = im.width as int;
        if x1 <= x0 || y1 <= y0 {
            proof {
                if x1 <= x0 {
                    lemma_rect_fg_empty_cols(pix, wi, y0 as int, y1 as int, x0 as int, x1 as int);
                } else {
                    assert(rect_fg(pix, wi, y0 as int, y1 as int, x0 as int, x1 as int) == 0);
                }
            }
            return 0;
        }
        let mut count: u32 = 0;
        let mut y: u32 = y0;
        while y < y1
            invariant
                im.wf(),
                w == im.width,
                pix == im.pixels@,
                wi == im.width as int,
                x0 < x1 <= im.width,
                y0 <= y <= y1 <= im.height,
                count == rect_fg(pix, wi, y0 as int, y as int, x0 as int, x1 as int),
        decreases y1 - y,
        {
            let mut x: u32 = x0;
            proof {
                lemma_rect_fg_le(pix, wi, y0 as int, y as int, x0 as int, x1 as int);
                assert((y - y0) * (x1 - x0) <= (im.height as int) * (im.width as int))
                    by (nonlinear_arith)
                    requires
                        0 <= y - y0 <= im.height as int,
                        0 <= x1 - x0 <= im.width as int,
                ;
                assert((im.height as int) * (im.width as int) == im.npix()) by (nonlinear_arith);
            }
            while x < x1
                invariant
                    im.wf(),
                    w == im.width,
                    pix == im.pixels@,
                    wi == im.width as int,
                    x0 <= x <= x1 <= im.width,
                    y0 <= y < y1 <= im.height,
                    count == rect_fg(pix, wi, y0 as int, y as int, x0 as int, x1 as int) + row_fg(
                        pix,
                        wi,
                        y as int,
                        x0 as int,
                        x as int,
                    ),
                    count <= im.npix(),
                decreases x1 - x,
            {
                proof {
                    assert((y as int) * (im.width as int) + (x as int) < (im.height as int) * (
                    im.width as int)) by (nonlinear_arith)
                        requires
                            0 <= (y as int) <= (im.height as int) - 1,
                            0 <= (x as int) && (x as int) < (im.width as int),
                    ;
                    assert((im.height as int) * (im.width as int) == im.npix())
                        by (nonlinear_arith);
                    assert((y as int) * (w as int) + (x as int) < u32::MAX as int);
                    assert(u32::MAX as int <= usize::MAX as int);
                }
                let idx: usize = (y as usize) * (w as usize) + (x as usize);
                let p: u8 = im.pixels[idx];
                if p % 2 == 1 {
                    proof {
                        lemma_rect_fg_le(pix, wi, y0 as int, y as int, x0 as int, x1 as int);
                        lemma_row_fg_le(pix, wi, y as int, x0 as int, x as int);
                        assert((y - y0) * (x1 - x0) + (x1 - x0) == ((y + 1) - y0) * (x1 - x0))
                            by (nonlinear_arith);
                        assert(((y + 1) - y0) * (x1 - x0) <= (im.height as int) * (im.width as int))
                            by (nonlinear_arith)
                            requires
                                0 <= (y as int) + 1 - (y0 as int) <= (im.height as int),
                                0 <= (x1 as int) - (x0 as int) <= (im.width as int),
                        ;
                        assert((im.height as int) * (im.width as int) == im.npix())
                            by (nonlinear_arith);
                    }
                    count = count + 1;
                }
                x = x + 1;
            }
            y = y + 1;
        }
        count
    }
}

/// One unit in the Q30 fixed-point scale used for the rotation's cosine and
/// sine.
pub const ONE_Q30: i64 = 0x4000_0000;

/// `v / 2^30` rounded to the nearest integer, ties away from zero.
pub open spec fn round_q30(v: int) -> int {
    if v >= 0 {
        (v + 0x2000_0000) / 0x4000_0000
    } else {
        -((-v + 0x2000_0000) / 0x4000_0000)
    }
}

/// Clamps to the `u32` range.
pub open spec fn clamp_u32(v: int) -> int {
    if v < 0 {
        0
    } else if v > u32::MAX {
        u32::MAX as int
    } else {
        v
    }
}

/// A grid of regions of interest: layout parameters plus, once the grid has
/// been generated, the regions themselves in row-major order.  Any change to
/// the layout parameters obliges the caller to regenerate before the next
/// measurement.
#[derive(Debug, Clone, PartialEq, Eq)]
pub struct RoiCollection {
    pub nrow: u32,
    pub ncol: u32,
    pub x: u32,
    pub y: u32,
    pub xinterval: u32,
    pub yinterval: u32,
    pub width: u32,
    pub height: u32,
    /// Rotation of the grid, in tenths of a degree.
    pub rotate_tenths: i32,
    pub rois: Option<Vec<Roi>>,
}

/// The persisted form of a grid: the layout parameters alone.  The generated
/// regions are never persisted; they are rebuilt after loading.
#[derive(Debug, Clone, Copy, PartialEq, Eq)]
pub struct RoiRecord {
    pub nrow: u32,
    pub ncol: u32,
    pub x: u32,
    pub y: u32,
    pub xinterval: u32,
    pub yinterval: u32,
    pub width: u32,
    pub height: u32,
    pub rotate_tenths: i32,
}

/// The region that grid cell `(i, j)` generates: the unrotated offset
/// `(x + j*xinterval, y + i*yinterval)` rotated about the origin by the
/// angle whose cosine and sine are given in Q30 fixed point, each rotated
/// coordinate rounded to the nearest integer and clamped to the `u32`
/// range; the index is the row-major ordinal.
pub open spec fn spec_grid_roi(c: RoiCollection, cos: int, sin: int, i: int, j: int) -> Roi {
    let fx = c.x + j * c.xinterval;
    let fy = c.y + i * c.yinterval;
    let rx = clamp_u32(round_q30(fx * cos - fy * sin));
    let ry = clamp_u32(round_q30(fx * sin + fy * cos));
    Roi {
        x: rx as u32,
        y: ry as u32,
        width: c.width,
        height: c.height,
        index: (i * c.ncol + j) as usize,
    }
}

/// The record holding a grid's layout parameters.
pub open spec fn spec_to_record(c: RoiCollection) -> RoiRecord {
    RoiRecord {
        nrow: c.nrow,
        ncol: c.ncol,
        x: c.x,
        y: c.y,
        xinterval: c.xinterval,
        yinterval: c.yinterval,
        width: c.width,
        height: c.height,
        rotate_tenths: c.rotate_tenths,
    }
}

/// The grid a record describes: same parameters, no generated regions.
pub open spec fn spec_from_record(rec: RoiRecord) -> RoiCollection {
    RoiCollection {
        nrow: rec.nrow,
        ncol: rec.ncol,
        x: rec.x,
        y: rec.y,
        xinterval: rec.xinterval,
        yinterval: rec.yinterval,
        width: rec.width,
        height: rec.height,
        rotate_tenths: rec.rotate_tenths,
        rois: None,
    }
}

/// Persisting a grid and loading the record back restores every layout
/// parameter exactly and leaves the loaded grid ungenerated.
pub proof fn lemma_record_round_trip(c: RoiCollection)
    ensures
        spec_from_record(spec_to_record(c)) == (RoiCollection { rois: None, ..c }),
{
}

/// The binarization cutoff byte for a sensitivity `threshold` given in
/// tenths: `127 - threshold * 12.8`, clamped to the byte range and rounded
/// to the nearest integer.
pub open spec fn spec_thresh_byte(t10: int) -> int {
    let num = 12700 - 128 * t10;
    if num <= 0 {
        0
    } else if num >= 25500 {
        255
    } else {
        (num + 50) / 100
    }
}

/// Computes the binarization cutoff byte from the sensitivity knob in
/// tenths.
pub fn thresh_byte(threshold_tenths: i32) -> (t: u8)
    ensures
        t as int == spec_thresh_byte(threshold_tenths as int),
{
    let num: i64 = 12700 - 128 * (threshold_tenths as i64);
    if num <= 0 {
        0
    } else if num >= 25500 {
        255
    } else {
        let q: u64 = ((num as u64) + 50) / 100;
        proof {
            vstd::arithmetic::div_mod::lemma_multiply_divide_lt((num as int) + 50, 100, 256);
            vstd::arithmetic::div_mod::lemma_div_pos_is_pos((num as int) + 50, 100);
        }
        q as u8
    }
}

/// The inverted binary image: samples strictly below the cutoff are the
/// foreground of interest and map to 255 (odd), the rest to 0 (even).
pub open spec fn binarize_inv(p: Seq<u8>, t: int) -> Seq<u8> {
    Seq::new(p.len(), |i: int| if p[i] < t { 255u8 } else { 0u8 })
}

/// The samples of a difference image binarized and inverted under a
/// sensitivity given in tenths.
pub open spec fn spec_binarized(pix: Seq<u8>, t10: int) -> Seq<u8> {
    binarize_inv(pix, spec_thresh_byte(t10))
}

impl RoiCollection {
    /// The generated regions; meaningful only once `rois` is present.
    pub open spec fn generated(&self) -> Seq<Roi> {
        self.rois.unwrap()@
    }

    /// Regenerates the grid: `nrow * ncol` regions in row-major order, each
    /// placed by `spec_grid_roi` under the supplied rotation.  The rotation
    /// is passed as its cosine and sine in Q30 fixed point, since computing
    /// them from the angle is the caller's (floating-point) business.
    pub fn update_rois(&mut self, rot_cos: i64, rot_sin: i64)
        requires
            -0x4000_0000 <= rot_cos <= 0x4000_0000,
            -0x4000_0000 <= rot_sin <= 0x4000_0000,
            (old(self).nrow as int) * (old(self).ncol as int) <= usize::MAX as int,
        ensures
            *final(self) == (RoiCollection { rois: final(self).rois, ..*old(self) }),
            final(self).rois.is_some(),
            final(self).generated().len() == (old(self).nrow as int) * (old(self).ncol as int),
            forall|i: int, j: int|
                0 <= i < old(self).nrow && 0 <= j < old(self).ncol
                    ==> final(self).generated()[i * (old(self).ncol as int) + j] == spec_grid_roi(
                    *old(self),
                    rot_cos as int,
                    rot_sin as int,
                    i,
                    j,
                ),
    {
        let nrow = self.nrow;
        let ncol = self.ncol;
        let ghost c = *self;
        let mut rois: Vec<Roi> = Vec::new();
        let mut i: u32 = 0;
        while i < nrow
            invariant
                0 <= i <= nrow,
                nrow == c.nrow,
                ncol == c.ncol,
                *self == c,
                (nrow as int) * (ncol as int) <= usize::MAX as int,
                -0x4000_0000 <= rot_cos <= 0x4000_0000,
                -0x4000_0000 <= rot_sin <= 0x4000_0000,
                rois@.len() == (i as int) * (ncol as int),
                forall|a: int, b: int|
                    0 <= a < i && 0 <= b < ncol ==> rois@[a * (ncol as int) + b] == spec_grid_roi(
                        c,
                        rot_cos as int,
                        rot_sin as int,
                        a,
                        b,
                    ),
            decreases nrow - i,
        {
            let mut j: u32 = 0;
            proof {
                assert((i as int) * (ncol as int) + (ncol as int) == ((i as int) + 1) * (
                ncol as int)) by (nonlinear_arith);
                assert(((i as int) + 1) * (ncol as int) <= (nrow as int) * (ncol as int))
                    by (nonlinear_arith)
                    requires
                        0 <= (i as int) + 1 <= (nrow as int),
                        0 <= (ncol as int),
                ;
            }
            while j < ncol
                invariant
                    0 <= j <= ncol,
                    0 <= i < nrow,
                    nrow == c.nrow,
                    ncol == c.ncol,
                    *self == c,
                    (nrow as int) * (ncol as int) <= usize::MAX as int,
                    (i as int) * (ncol as int) + (ncol as int) <= (nrow as int) * (ncol as int),
                    -0x4000_0000 <= rot_cos <= 0x4000_0000,
                    -0x4000_0000 <= rot_sin <= 0x4000_0000,
                    rois@.len() == (i as int) * (ncol as int) + (j as int),
                    forall|a: int, b: int|
                        0 <= a < i && 0 <= b < ncol ==> rois@[a * (ncol as int) + b]
                            == spec_grid_roi(c, rot_cos as int, rot_sin as int, a, b),
                    forall|b: int|
                        0 <= b < j ==> rois@[(i as int) * (ncol as int) + b] == spec_grid_roi(
                            c,
                            rot_cos as int,
                            rot_sin as int,
                            i as int,
                            b,
                        ),
                decreases ncol - j,
            {
                proof {
                    assert(0 <= (j as int) * (self.xinterval as int) <= 0xFFFF_FFFFint
                        * 0xFFFF_FFFFint) by (nonlinear_arith)
                        requires
                            0 <= (j as int) <= 0xFFFF_FFFFint,
                            0 <= (self.xinterval as int) <= 0xFFFF_FFFFint,
                    ;
                    assert(0 <= (i as int) * (self.yinterval as int) <= 0xFFFF_FFFFint
                        * 0xFFFF_FFFFint) by (nonlinear_arith)
                        requires
                            0 <= (i as int) <= 0xFFFF_FFFFint,
                            0 <= (self.yinterval as int) <= 0xFFFF_FFFFint,
                    ;
                }
                let fx: i128 = self.x as i128 + (j as i128) * (self.xinterval as i128);
                let fy: i128 = self.y as i128 + (i as i128) * (self.yinterval as i128);
                proof {
                    let bound: int = 0x2_0000_0000_0000_0000int;  // 2^65
                    let sc: int = 0x4000_0000int;
                    assert((-(bound * sc) <= (fx as int) * (rot_cos as int) <= bound * sc) && (-(
                    bound * sc) <= (fy as int) * (rot_sin as int) <= bound * sc) && (-(bound * sc)
                        <= (fx as int) * (rot_sin as int) <= bound * sc) && (-(bound * sc) <= (
                    fy as int) * (rot_cos as int) <= bound * sc)) by (nonlinear_arith)
                        requires
                            0 <= (fx as int) <= bound,
                            0 <= (fy as int) <= bound,
                            -sc <= (rot_cos as int) <= sc,
                            -sc <= (rot_sin as int) <= sc,
                    ;
                }
                let vx: i128 = fx * (rot_cos as i128) - fy * (rot_sin as i128);
                let vy: i128 = fx * (rot_sin as i128) + fy * (rot_cos as i128);
                let rx: u32 = round_clamp_q30(vx);
                let ry: u32 = round_clamp_q30(vy);
                let idx: usize = rois.len();
                rois.push(Roi { x: rx, y: ry, width: self.width, height: self.height, index: idx });
                proof {
                    assert(rois@[(i as int) * (ncol as int) + (j as int)] == spec_grid_roi(
                        c,
                        rot_cos as int,
                        rot_sin as int,
                        i as int,
                        j as int,
                    ));
                    assert forall|a: int, b: int| 0 <= a < i && 0 <= b < ncol implies rois@[a * (
                    ncol as int) + b] == spec_grid_roi(c, rot_cos as int, rot_sin as int, a, b) by {
                        assert(0 <= a * (ncol as int) + b && a * (ncol as int) + b < (i as int) * (
                        ncol as int)) by (nonlinear_arith)
                            requires
                                0 <= a,
                                a < i as int,
                                0 <= b < ncol as int,
                        ;
                    }
                }
                j = j + 1;
            }
            proof {
                assert forall|a: int, b: int| 0 <= a < (i as int) + 1 && 0 <= b < ncol implies rois@[a
                    * (ncol as int) + b] == spec_grid_roi(
                    c,
                    rot_cos as int,
                    rot_sin as int,
                    a,
                    b,
                ) by {
                    assert(0 <= a * (ncol as int) + b && a * (ncol as int) + b < ((i as int) + 1) * (
                    ncol as int)) by (nonlinear_arith)
                        requires
                            0 <= a,
                            0 <= b < ncol as int,
                            a < (i as int) + 1,
                    ;
                    assert(((i as int) + 1) * (ncol as int) == (i as int) * (ncol as int) + (
                    ncol as int)) by (nonlinear_arith);
                    if a == i as int {
                        assert(rois@[(i as int) * (ncol as int) + b] == spec_grid_roi(
                            c,
                            rot_cos as int,
                            rot_sin as int,
                            i as int,
                            b,
                        ));
                    }
                }
            }
            i = i + 1;
        }
        proof {
            assert((nrow as int) * (ncol as int) == rois@.len());
        }
        self.rois = Some(rois);
    }

    /// Measures every generated region against a difference image binarized
    /// at the given sensitivity (in tenths): one count per region, in index
    /// order.  Returns `None` when the grid was never generated.
    pub fn measure_all(&self, subimg: &GrayImage, threshold_tenths: i32) -> (r: Option<Vec<u32>>)
        requires
            subimg.wf(),
        ensures
            r.is_some() <==> self.rois.is_some(),
            match r {
                Some(counts) => {
                    &&& counts@.len() == self.generated().len()
                    &&& forall|k: int|
                        0 <= k < counts@.len() ==> counts@[k] as int == spec_measure(
                            self.generated()[k],
                            spec_binarized(subimg.pixels@, threshold_tenths as int),
                            subimg.width as int,
                            subimg.height as int,
                        )
                },
                None => self.rois.is_none(),
            },
    {
        let t: u8 = thresh_byte(threshold_tenths);
        let n: usize = subimg.pixels.len();
        let mut bin_pixels: Vec<u8> = Vec::new();
        let mut i: usize = 0;
        while i < n
            invariant
                0 <= i <= n,
                subimg.pixels@.len() == n,
                t as int == spec_thresh_byte(threshold_tenths as int),
                bin_pixels@.len() == i,
                forall|k: int|
                    0 <= k < i ==> bin_pixels@[k] == binarize_inv(
                        subimg.pixels@,
                        spec_thresh_byte(threshold_tenths as int),
                    )[k],
            decreases n - i,
        {
            let p: u8 = subimg.pixels[i];
            bin_pixels.push(if p < t { 255u8 } else { 0u8 });
            i = i + 1;
        }
        let bin = GrayImage { width: subimg.width, height: subimg.height, pixels: bin_pixels };
        proof {
            assert(bin.pixels@ =~= spec_binarized(subimg.pixels@, threshold_tenths as int));
        }
        match &self.rois {
            None => None,
            Some(rs) => {
                let m: usize = rs.len();
                let mut counts: Vec<u32> = Vec::new();
                let mut k: usize = 0;
                while k < m
                    invariant
                        0 <= k <= m,
                        self.rois.is_some(),
                        rs@ == self.generated(),
                        rs@.len() == m,
                        bin.wf(),
                        bin.width == subimg.width,
                        bin.height == subimg.height,
                        bin.pixels@ == spec_binarized(subimg.pixels@, threshold_tenths as int),
                        counts@.len() == k,
                        forall|a: int|
                            0 <= a < k ==> counts@[a] as int == spec_measure(
                                self.generated()[a],
                                spec_binarized(subimg.pixels@, threshold_tenths as int),
                                subimg.width as int,
                                subimg.height as int,
                            ),
                    decreases m - k,
                {
                    let c: u32 = rs[k].measure(&bin);
                    counts.push(c);
                    k = k + 1;
                }
                Some(counts)
            },
        }
    }

    /// Number of generated regions; zero when the grid was never generated.
    pub fn len(&self) -> (r: usize)
        ensures
            r == if self.rois.is_some() {
                self.generated().len()
            } else {
                0
            },
    {
        match &self.rois {
            Some(rs) => rs.len(),
            None => 0,
        }
    }

    /// The persisted form: the layout parameters without the generated
    /// regions.
    pub fn to_record(&self) -> (r: RoiRecord)
        ensures
            r == spec_to_record(*self),
    {
        RoiRecord {
            nrow: self.nrow,
            ncol: self.ncol,
            x: self.x,
            y: self.y,
            xinterval: self.xinterval,
            yinterval: self.yinterval,
            width: self.width,
            height: self.height,
            rotate_tenths: self.rotate_tenths,
        }
    }

    /// The grid a persisted record describes, not yet generated.
    pub fn from_record(rec: RoiRecord) -> (r: RoiCollection)
        ensures
            r == spec_from_record(rec),
    {
        RoiCollection {
            nrow: rec.nrow,
            ncol: rec.ncol,
            x: rec.x,
            y: rec.y,
            xinterval: rec.xinterval,
            yinterval: rec.yinterval,
            width: rec.width,
            height: rec.height,
            rotate_tenths: rec.rotate_tenths,
            rois: None,
        }
    }
}

/// Rounds a Q30-scaled value to the nearest integer (ties away from zero)
/// and clamps it to the `u32` range.
fn round_clamp_q30(v: i128) -> (r: u32)
    requires
        -0x8_0000_0000_0000_0000_0000_0000i128 <= v <= 0x8_0000_0000_0000_0000_0000_0000i128,
    ensures
        r as int == clamp_u32(round_q30(v as int)),
{
    let rounded: i128 = if v >= 0 {
        (v + 0x2000_0000) / 0x4000_0000
    } else {
        -((-v + 0x2000_0000) / 0x4000_0000)
    };
    if rounded < 0 {
        0
    } else if rounded > u32::MAX as i128 {
        u32::MAX
    } else {
        rounded as u32
    }
}

impl Default for RoiCollection {
    /// The default grid layout: a 6 by 8 unrotated grid of 78 by 78 regions.
    fn default() -> (r: RoiCollection)
        ensures
            r == (RoiCollection {
                nrow: 6,
                ncol: 8,
                x: 18,
                y: 20,
                xinterval: 128,
                yinterval: 125,
                width: 78,
                height: 78,
                rotate_tenths: 0,
                rois: None,
            }),
    {
        RoiCollection {
            nrow: 6,
            ncol: 8,
            x: 18,
            y: 20,
            xinterval: 128,
            yinterval: 125,
            width: 78,
            height: 78,
            rotate_tenths: 0,
            rois: None,
        }
    }
}

/// With no rotation (cosine one, sine zero in Q30), each generated region
/// sits exactly at its unrotated offset: no drift is introduced by the
/// rounding.
pub proof fn lemma_unrotated_grid(c: RoiCollection, i: int, j: int)
    requires
        0 <= i < c.nrow,
        0 <= j < c.ncol,
        (c.nrow as int) * (c.ncol as int) <= usize::MAX as int,
        c.x + j * c.xinterval <= u32::MAX,
        c.y + i * c.yinterval <= u32::MAX,
    ensures
        spec_grid_roi(c, ONE_Q30 as int, 0, i, j).x == c.x + j * c.xinterval,
        spec_grid_roi(c, ONE_Q30 as int, 0, i, j).y == c.y + i * c.yinterval,
        spec_grid_roi(c, ONE_Q30 as int, 0, i, j).width == c.width,
        spec_grid_roi(c, ONE_Q30 as int, 0, i, j).height == c.height,
        spec_grid_roi(c, ONE_Q30 as int, 0, i, j).index == i * c.ncol + j,
{
    let fx = c.x + j * c.xinterval;
    let fy = c.y + i * c.yinterval;
    assert(j * (c.xinterval as int) >= 0) by (nonlinear_arith)
        requires
            j >= 0,
            c.xinterval as int >= 0,
    ;
    assert(i * (c.yinterval as int) >= 0) by (nonlinear_arith)
        requires
            i >= 0,
            c.yinterval as int >= 0,
    ;
    assert(fx * (ONE_Q30 as int) - fy * 0 == fx * 0x4000_0000) by (nonlinear_arith);
    assert(fx * 0 + fy * (ONE_Q30 as int) == fy * 0x4000_0000) by (nonlinear_arith);
    vstd::arithmetic::div_mod::lemma_fundamental_div_mod_converse_div(
        fx * 0x4000_0000 + 0x2000_0000,
        0x4000_0000,
        fx,
        0x2000_0000,
    );
    vstd::arithmetic::div_mod::lemma_fundamental_div_mod_converse_div(
        fy * 0x4000_0000 + 0x2000_0000,
        0x4000_0000,
        fy,
        0x2000_0000,
    );
    assert(round_q30(fx * 0x4000_0000) == fx) by {
        assert(fx * 0x4000_0000 >= 0) by (nonlinear_arith)
            requires
                fx >= 0,
        ;
    }
    assert(round_q30(fy * 0x4000_0000) == fy) by {
        assert(fy * 0x4000_0000 >= 0) by (nonlinear_arith)
            requires
                fy >= 0,
        ;
    }
    assert(0 <= i * (c.ncol as int) + j && i * (c.ncol as int) + j < (c.nrow as int) * (
    c.ncol as int)) by (nonlinear_arith)
        requires
            0 <= i,
            0 <= j < c.ncol as int,
            i < c.nrow as int,
    ;
}

} // verus!
