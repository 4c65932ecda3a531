use soustraire::roi::{thresh_byte, Roi, RoiCollection, ONE_Q30};
use soustraire::GrayImage;

fn gray(width: u32, height: u32, pixels: Vec<u8>) -> GrayImage {
    GrayImage::new(width, height, pixels).unwrap()
}

#[test]
fn test_new_roi() {
    let mut roicol = RoiCollection::default();
    roicol.update_rois(ONE_Q30, 0);
    let record = roicol.to_record();
    assert_eq!(record.nrow, 6);
    assert_eq!(record.ncol, 8);
    assert_eq!(roicol.len(), 48);
}

#[test]
fn test_grid_cardinality() {
    let mut c = RoiCollection::default();
    assert_eq!(c.len(), 0);
    c.nrow = 2;
    c.ncol = 3;
    c.update_rois(ONE_Q30, 0);
    assert_eq!(c.len(), 6);
    c.nrow = 0;
    c.update_rois(ONE_Q30, 0);
    assert_eq!(c.len(), 0);
    c.nrow = 5;
    c.ncol = 0;
    c.update_rois(ONE_Q30, 0);
    assert_eq!(c.len(), 0);
}

#[test]
fn test_rotation_identity() {
    let mut c = RoiCollection::default();
    c.update_rois(ONE_Q30, 0);
    let rois = c.rois.as_ref().unwrap();
    for i in 0..6u32 {
        for j in 0..8u32 {
            let roi = &rois[(i * 8 + j) as usize];
            assert_eq!(roi.x, 18 + j * 128);
            assert_eq!(roi.y, 20 + i * 125);
            assert_eq!(roi.width, 78);
            assert_eq!(roi.height, 78);
            assert_eq!(roi.index, (i * 8 + j) as usize);
        }
    }
}

#[test]
fn test_rotation_quarter_turn() {
    // cos 90 = 0, sin 90 = 1: (fx, fy) maps to (-fy, fx); negative
    // coordinates clamp to zero.
    let mut c = RoiCollection {
        nrow: 1,
        ncol: 2,
        x: 18,
        y: 20,
        xinterval: 128,
        yinterval: 125,
        width: 78,
        height: 78,
        rotate_tenths: 900,
        rois: None,
    };
    c.update_rois(0, ONE_Q30);
    let rois = c.rois.as_ref().unwrap();
    assert_eq!(rois[0].x, 0); // round(-20) clamped
    assert_eq!(rois[0].y, 18);
    assert_eq!(rois[1].x, 0); // round(-20) clamped
    assert_eq!(rois[1].y, 146);
}

#[test]
fn test_thresh_byte_formula() {
    assert_eq!(thresh_byte(0), 127);
    assert_eq!(thresh_byte(20), 101); // 127 - 2.0 * 12.8 = 101.4
    assert_eq!(thresh_byte(-10), 140); // 127 + 12.8 = 139.8
    assert_eq!(thresh_byte(100), 0); // clamped below
    assert_eq!(thresh_byte(-100), 255); // clamped above
}

#[test]
fn test_measure_counts_odd_bytes() {
    // 4x4 image whose bytes alternate 255 and 0: only odd bytes count.
    let mut pixels = vec![0u8; 16];
    for i in 0..16 {
        if i % 2 == 0 {
            pixels[i] = 255;
        }
    }
    let im = gray(4, 4, pixels);
    let roi = Roi::new(0, 0, 4, 4);
    assert_eq!(roi.measure(&im), 8);
}

#[test]
fn test_measure_clipping() {
    // All-odd 4x4 image: a measurement counts exactly the clipped area.
    let im = gray(4, 4, vec![255; 16]);
    assert_eq!(Roi::new(0, 0, 4, 4).measure(&im), 16);
    // Extends past the right and bottom bounds: only 2x2 remains in view.
    assert_eq!(Roi::new(2, 2, 5, 7).measure(&im), 4);
    // Entirely out of bounds measures zero.
    assert_eq!(Roi::new(4, 0, 3, 3).measure(&im), 0);
    assert_eq!(Roi::new(0, 9, 2, 2).measure(&im), 0);
    assert_eq!(Roi::new(100, 100, 10, 10).measure(&im), 0);
}

#[test]
fn test_measure_all_requires_generated_grid() {
    let c = RoiCollection::default();
    let im = gray(4, 4, vec![0; 16]);
    assert!(c.measure_all(&im, 0).is_none());
}

#[test]
fn test_measure_all_foreground_is_below_threshold() {
    // Threshold byte at sensitivity 0 is 127: bytes below 127 are
    // foreground after inversion, bytes at or above are background.
    let mut c = RoiCollection::default();
    c.nrow = 1;
    c.ncol = 1;
    c.x = 0;
    c.y = 0;
    c.width = 2;
    c.height = 2;
    c.update_rois(ONE_Q30, 0);
    let im = gray(2, 2, vec![0, 126, 127, 255]);
    let counts = c.measure_all(&im, 0).unwrap();
    assert_eq!(counts, vec![2]);
}

#[test]
fn test_set_index() {
    let roi = Roi::new(1, 2, 3, 4).set_index(7);
    assert_eq!(roi.index, 7);
    assert_eq!((roi.x, roi.y, roi.width, roi.height), (1, 2, 3, 4));
}

#[test]
fn test_record_round_trip() {
    let mut original = RoiCollection {
        nrow: 2,
        ncol: 3,
        x: 5,
        y: 6,
        xinterval: 40,
        yinterval: 41,
        width: 30,
        height: 31,
        rotate_tenths: -123,
        rois: None,
    };
    original.update_rois(ONE_Q30, 0);
    assert_eq!(original.len(), 6);
    let record = original.to_record();
    let reloaded = RoiCollection::from_record(record);
    assert_eq!(reloaded.nrow, 2);
    assert_eq!(reloaded.ncol, 3);
    assert_eq!(reloaded.x, 5);
    assert_eq!(reloaded.y, 6);
    assert_eq!(reloaded.xinterval, 40);
    assert_eq!(reloaded.yinterval, 41);
    assert_eq!(reloaded.width, 30);
    assert_eq!(reloaded.height, 31);
    assert_eq!(reloaded.rotate_tenths, -123);
    // The generated regions are not part of the persisted form: the
    // reloaded grid is empty until it is regenerated.
    assert_eq!(reloaded.len(), 0);
    let mut reloaded = reloaded;
    reloaded.update_rois(ONE_Q30, 0);
    assert_eq!(reloaded.len(), 6);
    assert_eq!(reloaded.rois, original.rois);
}
