use rayon::iter::IntoParallelRefIterator;
use rayon::prelude::ParallelIterator;
use soustraire::batch::{collect_rows, plan_tasks, run_pair};
use soustraire::roi::{RoiCollection, ONE_Q30};
use soustraire::GrayImage;

fn gray(width: u32, height: u32, pixels: Vec<u8>) -> GrayImage {
    GrayImage::new(width, height, pixels).unwrap()
}

/// Runs the whole pipeline sequentially: plan the tasks, compute each row,
/// order the rows by ordinal.
fn run_batch(
    frames: &[GrayImage],
    grid: &RoiCollection,
    threshold_tenths: i32,
    start: usize,
    end: usize,
    step: usize,
) -> Vec<Vec<u32>> {
    let plan = plan_tasks(frames.len(), start, end, step);
    let mut tagged: Vec<(usize, Vec<u32>)> = plan
        .iter()
        .map(|&(k, idx)| {
            let row = run_pair(&frames[idx], &frames[idx + step], grid, threshold_tenths)
                .expect("frame pair should subtract");
            (k, row)
        })
        .collect();
    collect_rows(&mut tagged);
    tagged.into_iter().map(|(_, row)| row).collect()
}

#[test]
fn test_plan_normalizes_range() {
    // The lower bound is pulled back one step so the preceding frame is the
    // first "previous" frame, and a reversed range is put back in order.
    assert_eq!(plan_tasks(10, 3, 7, 1), plan_tasks(10, 7, 3, 1));
    let plan = plan_tasks(10, 3, 7, 1);
    assert_eq!(plan, vec![(0, 2), (1, 3), (2, 4), (3, 5), (4, 6)]);
}

#[test]
fn test_plan_index_exclusion() {
    // A task whose pair would reach outside the stack produces no entry.
    let plan = plan_tasks(3, 0, 4, 2);
    assert_eq!(plan, vec![(0, 0)]);
    // A step wider than the whole stack leaves nothing to do.
    assert_eq!(plan_tasks(1, 0, 4, 5), vec![]);
    assert_eq!(plan_tasks(0, 0, 4, 1), vec![]);
}

#[test]
fn test_collect_rows_orders_by_ordinal() {
    let mut rows: Vec<(usize, Vec<u32>)> = vec![
        (2, vec![20]),
        (0, vec![0]),
        (3, vec![30]),
        (1, vec![10]),
    ];
    collect_rows(&mut rows);
    assert_eq!(rows, vec![(0, vec![0]), (1, vec![10]), (2, vec![20]), (3, vec![30])]);
}

#[test]
fn test_identical_gray_stack() {
    // A stack of five identical 4x4 all-gray frames, one region covering
    // the whole image, sensitivity 0, step 1, over every adjacent pair:
    // four rows come out.  The degenerate pairs give an all-zero (black)
    // difference image, which lies entirely below the threshold byte 127,
    // so the whole region counts as foreground.
    let frames: Vec<GrayImage> = (0..5).map(|_| gray(4, 4, vec![128; 16])).collect();
    let mut grid = RoiCollection::default();
    grid.nrow = 1;
    grid.ncol = 1;
    grid.x = 0;
    grid.y = 0;
    grid.width = 4;
    grid.height = 4;
    grid.update_rois(ONE_Q30, 0);
    let rows = run_batch(&frames, &grid, 0, 0, 4, 1);
    assert_eq!(rows, vec![vec![16], vec![16], vec![16], vec![16]]);
}

#[test]
fn test_localized_change_pair() {
    // Two 10x10 frames differing by +50 in the 3x3 corner block, one
    // region exactly covering the block and one elsewhere.  The lookup
    // maps the block deltas to 87 and the rest to 132; the median filter
    // erodes the block to the 6 pixels whose 5x5 window still holds 13
    // block samples; the threshold byte at sensitivity 2.0 is 101, so only
    // those 6 pixels count as foreground.
    let a = vec![100u8; 100];
    let mut b = vec![100u8; 100];
    for y in 0..3 {
        for x in 0..3 {
            b[y * 10 + x] = 150;
        }
    }
    let frames = vec![gray(10, 10, a), gray(10, 10, b)];
    let mut grid = RoiCollection {
        nrow: 1,
        ncol: 2,
        x: 0,
        y: 0,
        xinterval: 5,
        yinterval: 0,
        width: 3,
        height: 3,
        rotate_tenths: 0,
        rois: None,
    };
    grid.update_rois(ONE_Q30, 0);
    let rows = run_batch(&frames, &grid, 20, 0, 1, 1);
    assert_eq!(rows, vec![vec![6, 0]]);
}

#[test]
fn test_ordering_under_concurrency() {
    // The same batch, run with worker pools of size 1, 2 and 8, produces
    // byte-identical output tables.
    let frames: Vec<GrayImage> = (0..7)
        .map(|f| {
            let pixels: Vec<u8> = (0..64).map(|i| ((i * 7 + f * 31) % 251) as u8).collect();
            gray(8, 8, pixels)
        })
        .collect();
    let mut grid = RoiCollection {
        nrow: 2,
        ncol: 2,
        x: 0,
        y: 0,
        xinterval: 4,
        yinterval: 4,
        width: 4,
        height: 4,
        rotate_tenths: 0,
        rois: None,
    };
    grid.update_rois(ONE_Q30, 0);
    let sequential = run_batch(&frames, &grid, 15, 0, 6, 1);
    assert_eq!(sequential.len(), 6);

    for n_threads in [1usize, 2, 8] {
        let pool = rayon::ThreadPoolBuilder::new()
            .num_threads(n_threads)
            .build()
            .unwrap();
        let plan = plan_tasks(frames.len(), 0, 6, 1);
        let mut tagged: Vec<(usize, Vec<u32>)> = pool.install(|| {
            plan.par_iter()
                .map(|&(k, idx)| {
                    let row = run_pair(&frames[idx], &frames[idx + 1], &grid, 15).unwrap();
                    (k, row)
                })
                .collect()
        });
        collect_rows(&mut tagged);
        let rows: Vec<Vec<u32>> = tagged.into_iter().map(|(_, row)| row).collect();
        assert_eq!(rows, sequential, "pool size {n_threads}");
    }
}

#[test]
fn test_run_pair_dimension_mismatch_aborts() {
    let a = gray(2, 2, vec![0; 4]);
    let b = gray(3, 3, vec![0; 9]);
    let mut grid = RoiCollection::default();
    grid.update_rois(ONE_Q30, 0);
    assert!(run_pair(&a, &b, &grid, 0).is_err());
}
