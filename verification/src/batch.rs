//! The batch pipeline's decision core.
//!
//! A batch run normalizes the requested frame range, partitions it into
//! independent frame-pair tasks, computes one measurement row per task, and
//! orders the collected rows by task ordinal before they are written out.
//! The parallel workers may finish in any order; the ordering of the output
//! is fixed here, and is proved unique for any completion order.
use crate::process::{spec_subtract, subtract};
use crate::roi::{spec_binarized, spec_measure, RoiCollection};
use crate::{GrayImage, ImageError};
use rayon::slice::ParallelSliceMut;
use vstd::prelude::*;

verus! {

/// The effective lower bound of a batch over `[start, end]` with the given
/// step: the smaller endpoint, pulled back one step (saturating at zero) so
/// the frame just before the range serves as the first previous frame.
pub open spec fn eff_lo(start: int, end: int, step: int) -> int {
    let lo = if start <= end {
        start
    } else {
        end
    };
    if lo >= step {
        lo - step
    } else {
        0
    }
}

/// The effective upper bound: the larger endpoint.
pub open spec fn eff_hi(start: int, end: int) -> int {
    if start <= end {
        end
    } else {
        start
    }
}

/// Whether task `k` of a plan over a stack of `len` frames produces a row:
/// its pair of frame indices must both lie inside the stack.
pub open spec fn task_included(len: int, start: int, end: int, step: int, k: int) -> bool {
    let idx = eff_lo(start, end, step) + k * step;
    idx < eff_hi(start, end) && idx + step < len
}

/// Partitions the normalized range into frame-pair tasks: entry `k` holds
/// the ordinal `k` and the absolute index of the pair's first frame; pairs
/// reaching outside the stack are excluded.  Exclusion only happens at the
/// tail of the range, so the plan holds exactly the tasks `0 .. r.len()`.
pub fn plan_tasks(len: usize, start: usize, end: usize, step: usize) -> (r: Vec<(usize, usize)>)
    requires
        step >= 1,
    ensures
        forall|i: int|
            0 <= i < r@.len() ==> {
                &&& (#[trigger] r@[i]).0 == i
                &&& r@[i].1 == eff_lo(start as int, end as int, step as int) + i * (step as int)
                &&& r@[i].1 < eff_hi(start as int, end as int)
                &&& r@[i].1 + step < len
            },
        forall|i: int|
            0 <= i < r@.len() ==> task_included(len as int, start as int, end as int, step as int, i),
        forall|k: int|
            0 <= k && task_included(len as int, start as int, end as int, step as int, k)
                ==> k < r@.len(),
{
    let lo: usize = if start <= end {
        start
    } else {
        end
    };
    let s0: usize = if lo >= step {
        lo - step
    } else {
        0
    };
    let e: usize = if start <= end {
        end
    } else {
        start
    };
    let mut r: Vec<(usize, usize)> = Vec::new();
    let mut k: usize = 0;
    let mut idx: usize = s0;
    while idx < e && step < len && idx < len - step
        invariant
            step >= 1,
            s0 == eff_lo(start as int, end as int, step as int),
            e == eff_hi(start as int, end as int),
            idx == s0 + (k as int) * (step as int),
            k <= idx,
            r@.len() == k,
            forall|i: int|
                0 <= i < k ==> {
                    &&& (#[trigger] r@[i]).0 == i
                    &&& r@[i].1 == s0 + i * (step as int)
                    &&& r@[i].1 < e
                    &&& r@[i].1 + step < len
                },
        decreases e - k,
    {
        r.push((k, idx));
        proof {
            assert(s0 + ((k as int) + 1) * (step as int) == idx + step) by (nonlinear_arith)
                requires
                    idx == s0 + (k as int) * (step as int),
            ;
        }
        k = k + 1;
        idx = idx + step;
    }
    proof {
        assert forall|i: int|
            0 <= i < r@.len() implies task_included(
            len as int,
            start as int,
            end as int,
            step as int,
            i,
        ) by {
            assert(r@[i].1 == s0 + i * (step as int));
        }
        assert forall|q: int|
            0 <= q && task_included(len as int, start as int, end as int, step as int, q) implies q
            < r@.len() by {
            if q >= k {
                assert((s0 as int) + q * (step as int) >= (s0 as int) + (k as int) * (step as int))
                    by (nonlinear_arith)
                    requires
                        q >= k as int,
                        step as int >= 1,
                ;
            }
        }
    }
    r
}

/// The spec view of a collection of tagged rows: each entry is the task
/// ordinal and the row of counts it produced.
pub open spec fn row_views(v: Seq<(usize, Vec<u32>)>) -> Seq<(usize, Seq<u32>)> {
    v.map_values(|p: (usize, Vec<u32>)| (p.0, p.1@))
}

/// Ascending by task ordinal.
pub open spec fn sorted_by_ordinal(v: Seq<(usize, Seq<u32>)>) -> bool {
    forall|i: int, j: int| 0 <= i < j < v.len() ==> (#[trigger] v[i]).0 <= (#[trigger] v[j]).0
}

/// No two entries share a task ordinal.
pub open spec fn distinct_ordinals(v: Seq<(usize, Seq<u32>)>) -> bool {
    forall|i: int, j: int| 0 <= i < j < v.len() ==> (#[trigger] v[i]).0 != (#[trigger] v[j]).0
}

/// Relies on rayon's par_sort_unstable_by with a comparator on the task
/// ordinal: the sorted vector is a permutation of the input, ascending by
/// ordinal.
#[verifier::external_body]
fn sort_rows(v: &mut Vec<(usize, Vec<u32>)>)
    ensures
        final(v)@.len() == old(v)@.len(),
        row_views(final(v)@).to_multiset() == row_views(old(v)@).to_multiset(),
        sorted_by_ordinal(row_views(final(v)@)),
{
    v.par_sort_unstable_by(|a, b| a.0.cmp(&b.0));
}

/// Orders a collection of tagged rows by task ordinal, in place.  The
/// workers hand their rows over in arbitrary completion order; afterwards
/// the entries ascend by ordinal and are the same rows.  When the ordinals
/// are distinct, `lemma_ordered_rows_unique` pins this result down to a
/// single possible sequence.
pub fn collect_rows(rows: &mut Vec<(usize, Vec<u32>)>)
    ensures
        final(rows)@.len() == old(rows)@.len(),
        row_views(final(rows)@).to_multiset() == row_views(old(rows)@).to_multiset(),
        sorted_by_ordinal(row_views(final(rows)@)),
{
    sort_rows(rows);
}

/// A permutation of tagged rows with distinct ordinals has distinct
/// ordinals as well.
pub proof fn lemma_distinct_ordinals_permute(x: Seq<(usize, Seq<u32>)>, y: Seq<(usize, Seq<u32>)>)
    requires
        x.to_multiset() == y.to_multiset(),
        distinct_ordinals(x),
    ensures
        distinct_ordinals(y),
    decreases y.len(),
{
    broadcast use vstd::seq_lib::group_to_multiset_ensures;
    broadcast use vstd::multiset::group_multiset_axioms;

    x.to_multiset_ensures();
    y.to_multiset_ensures();
    if y.len() == 0 {
    } else {
        let e = y[0];
        assert(y.to_multiset().contains(e));
        assert(x.contains(e));
        let i = choose|i: int| 0 <= i < x.len() && x[i] == e;
        let xr = x.remove(i);
        assert(xr.to_multiset() =~= x.to_multiset().remove(e));
        assert(y.drop_first() =~= y.remove(0));
        assert(y.remove(0).to_multiset() =~= y.to_multiset().remove(e));
        assert(distinct_ordinals(xr)) by {
            assert forall|a: int, b: int| 0 <= a < b < xr.len() implies (#[trigger] xr[a]).0 != (
            #[trigger] xr[b]).0 by {
                let a0 = if a < i {
                    a
                } else {
                    a + 1
                };
                let b0 = if b < i {
                    b
                } else {
                    b + 1
                };
                assert(xr[a] == x[a0] && xr[b] == x[b0]);
            }
        }
        lemma_distinct_ordinals_permute(xr, y.drop_first());
        assert forall|a: int, b: int| 0 <= a < b < y.len() implies (#[trigger] y[a]).0 != (
        #[trigger] y[b]).0 by {
            if a == 0 {
                // y[b] occurs in the rest of y, hence somewhere in x besides i;
                // its ordinal cannot also be e's, which x holds at i.
                let yr = y.drop_first();
                assert(yr[b - 1] == y[b]);
                assert(yr.to_multiset().contains(y[b]));
                assert(xr.to_multiset().contains(y[b]));
                assert(xr.contains(y[b]));
                let m = choose|m: int| 0 <= m < xr.len() && xr[m] == y[b];
                let m0 = if m < i {
                    m
                } else {
                    m + 1
                };
                assert(xr[m] == x[m0]);
                assert(x[i] == e);
                if y[b].0 == e.0 {
                    if m0 < i {
                        assert(x[m0].0 != x[i].0);
                    } else {
                        assert(x[i].0 != x[m0].0);
                    }
                }
            } else {
                let yr = y.drop_first();
                assert(yr[a - 1] == y[a] && yr[b - 1] == y[b]);
            }
        }
    }
}

/// Two orderings of the same tagged rows agree everywhere: sequences that
/// are sorted by ordinal, hold the same rows, and tag each row with a
/// distinct ordinal are equal.  This is why the batch output does not
/// depend on the order in which the parallel workers finish.
pub proof fn lemma_ordered_rows_unique(x: Seq<(usize, Seq<u32>)>, y: Seq<(usize, Seq<u32>)>)
    requires
        sorted_by_ordinal(x),
        sorted_by_ordinal(y),
        distinct_ordinals(x),
        x.to_multiset() == y.to_multiset(),
    ensures
        x == y,
    decreases x.len(),
{
    broadcast use vstd::seq_lib::group_to_multiset_ensures;
    broadcast use vstd::multiset::group_multiset_axioms;

    x.to_multiset_ensures();
    y.to_multiset_ensures();
    if x.len() == 0 {
        assert(y.len() == 0);
        assert(x =~= y);
    } else {
        assert(y.len() == x.len());
        assert(x.to_multiset().contains(x[0]));
        assert(y.contains(x[0]));
        let jy = choose|j: int| 0 <= j < y.len() && y[j] == x[0];
        assert(y.to_multiset().contains(y[0]));
        assert(x.contains(y[0]));
        let jx = choose|j: int| 0 <= j < x.len() && x[j] == y[0];
        assert(x[0].0 <= x[jx].0 == y[0].0);
        assert(y[0].0 <= y[jy].0 == x[0].0);
        assert(x[jx].0 == x[0].0);
        if jx != 0 {
            assert(x[0].0 != x[jx].0);
        }
        assert(x[0] == y[0]);
        let xr = x.drop_first();
        let yr = y.drop_first();
        assert(xr =~= x.remove(0));
        assert(yr =~= y.remove(0));
        assert(xr.to_multiset() =~= x.to_multiset().remove(x[0]));
        assert(yr.to_multiset() =~= y.to_multiset().remove(y[0]));
        assert(distinct_ordinals(xr)) by {
            assert forall|a: int, b: int| 0 <= a < b < xr.len() implies (#[trigger] xr[a]).0 != (
            #[trigger] xr[b]).0 by {
                assert(xr[a] == x[a + 1] && xr[b] == x[b + 1]);
            }
        }
        assert(sorted_by_ordinal(xr)) by {
            assert forall|a: int, b: int| 0 <= a < b < xr.len() implies (#[trigger] xr[a]).0 <= (
            #[trigger] xr[b]).0 by {
                assert(xr[a] == x[a + 1] && xr[b] == x[b + 1]);
            }
        }
        assert(sorted_by_ordinal(yr)) by {
            assert forall|a: int, b: int| 0 <= a < b < yr.len() implies (#[trigger] yr[a]).0 <= (
            #[trigger] yr[b]).0 by {
                assert(yr[a] == y[a + 1] && yr[b] == y[b + 1]);
            }
        }
        lemma_ordered_rows_unique(xr, yr);
        assert(x =~= y) by {
            assert(forall|m: int|
                1 <= m < x.len() ==> x[m] == xr[m - 1] && y[m] == yr[m - 1] && xr[m - 1] == yr[m
                    - 1]);
        }
    }
}

/// Computes one task's measurement row: the difference image of the frame
/// pair, measured over every region of the grid at the given sensitivity.
/// Fails exactly when the two frames differ in dimensions.
pub fn run_pair(a: &GrayImage, b: &GrayImage, grid: &RoiCollection, threshold_tenths: i32) -> (r:
    Result<Vec<u32>, ImageError>)
    requires
        a.wf(),
        b.wf(),
        grid.rois.is_some(),
    ensures
        r.is_ok() <==> (a.width == b.width && a.height == b.height),
        match r {
            Ok(counts) => {
                &&& counts@.len() == grid.generated().len()
                &&& forall|j: int|
                    0 <= j < counts@.len() ==> counts@[j] as int == spec_measure(
                        grid.generated()[j],
                        spec_binarized(spec_subtract(*a, *b), threshold_tenths as int),
                        a.width as int,
                        a.height as int,
                    )
            },
            Err(e) => e == ImageError::DimensionMismatch,
        },
{
    match subtract(a, b) {
        Err(e) => Err(e),
        Ok(diff) => {
            match grid.measure_all(&diff, threshold_tenths) {
                Some(counts) => Ok(counts),
                None => {
                    proof {
                        assert(false);
                    }
                    Err(ImageError::DimensionMismatch)
                },
            }
        },
    }
}

} // verus!
