//! Splitting a closed integer range `[0, max_value]` across workers.
//! Worker `w` of `worker_total` covers `[lo(w), lo(w+1) - 1]` where
//! `lo(w) = w * (max_value + 1) / worker_total`. The slices tile the
//! range: together they cover it exactly, and no two overlap.

use vstd::arithmetic::div_mod::{
    lemma_div_is_ordered,
    lemma_div_multiples_vanish,
    lemma_div_pos_is_pos,
};
use vstd::arithmetic::mul::lemma_mul_inequality;
use vstd::prelude::*;

verus! {

/// First value of worker `w`'s slice (also one past the last value of
/// worker `w - 1`'s slice).
pub open spec fn slice_lo(max_value: int, worker_total: int, w: int) -> int {
    (w * (max_value + 1)) / worker_total
}

/// Number of values in worker `w`'s slice.
pub open spec fn slice_len(max_value: int, worker_total: int, w: int) -> int {
    slice_lo(max_value, worker_total, w + 1) - slice_lo(max_value, worker_total, w)
}

/// Slice starts never decrease as the worker index grows.
pub proof fn lemma_slice_lo_monotone(max_value: int, worker_total: int, w1: int, w2: int)
    requires
        max_value >= 0,
        worker_total >= 1,
        0 <= w1 <= w2,
    ensures
        slice_lo(max_value, worker_total, w1) <= slice_lo(max_value, worker_total, w2),
{
    lemma_mul_inequality(w1, w2, max_value + 1);
    lemma_div_is_ordered(w1 * (max_value + 1), w2 * (max_value + 1), worker_total);
}

/// The first slice starts at 0 and the last ends at `max_value`.
pub proof fn lemma_slice_lo_ends(max_value: int, worker_total: int)
    requires
        max_value >= 0,
        worker_total >= 1,
    ensures
        slice_lo(max_value, worker_total, 0) == 0,
        slice_lo(max_value, worker_total, worker_total) == max_value + 1,
{
    assert(0 * (max_value + 1) == 0);
    assert(0int / worker_total == 0) by (nonlinear_arith)
        requires
            worker_total >= 1,
    ;
    lemma_div_multiples_vanish(max_value + 1, worker_total);
    assert(worker_total * (max_value + 1) == (max_value + 1) * worker_total);
}

/// Each slice stays inside `[0, max_value + 1]`.
pub proof fn lemma_slice_lo_in_range(max_value: int, worker_total: int, w: int)
    requires
        max_value >= 0,
        worker_total >= 1,
        0 <= w <= worker_total,
    ensures
        0 <= slice_lo(max_value, worker_total, w) <= max_value + 1,
{
    lemma_slice_lo_ends(max_value, worker_total);
    lemma_slice_lo_monotone(max_value, worker_total, 0, w);
    lemma_slice_lo_monotone(max_value, worker_total, w, worker_total);
}

/// Every value of the range falls in some worker's slice: coverage.
pub proof fn lemma_slice_covering(max_value: int, worker_total: int, x: int) -> (w: int)
    requires
        worker_total >= 1,
        0 <= x <= max_value,
    ensures
        0 <= w < worker_total,
        slice_lo(max_value, worker_total, w) <= x < slice_lo(max_value, worker_total, w + 1),
{
    lemma_slice_lo_ends(max_value, worker_total);
    lemma_slice_climb(max_value, worker_total, x, 0)
}

/// Helper for coverage: from a slice starting at or before `x`, climb
/// until the next slice starts past `x`.
proof fn lemma_slice_climb(max_value: int, worker_total: int, x: int, w0: int) -> (w: int)
    requires
        worker_total >= 1,
        0 <= x <= max_value,
        0 <= w0 < worker_total,
        slice_lo(max_value, worker_total, w0) <= x,
    ensures
        w0 <= w < worker_total,
        slice_lo(max_value, worker_total, w) <= x < slice_lo(max_value, worker_total, w + 1),
    decreases worker_total - w0,
{
    if x < slice_lo(max_value, worker_total, w0 + 1) {
        w0
    } else {
        lemma_slice_lo_ends(max_value, worker_total);
        assert(w0 + 1 < worker_total) by {
            if w0 + 1 == worker_total {
                assert(slice_lo(max_value, worker_total, w0 + 1) == max_value + 1);
            }
        }
        lemma_slice_climb(max_value, worker_total, x, w0 + 1)
    }
}

/// No value falls in two slices: distinct workers' slices are disjoint.
pub proof fn lemma_slice_disjoint(max_value: int, worker_total: int, w1: int, w2: int, x: int)
    requires
        max_value >= 0,
        worker_total >= 1,
        0 <= w1 < w2 < worker_total,
        slice_lo(max_value, worker_total, w1) <= x < slice_lo(max_value, worker_total, w1 + 1),
    ensures
        !(slice_lo(max_value, worker_total, w2) <= x < slice_lo(max_value, worker_total, w2 + 1)),
{
    lemma_slice_lo_monotone(max_value, worker_total, w1 + 1, w2);
}

/// Sum of the slice lengths for workers `w..worker_total`.
pub open spec fn slice_len_sum_from(max_value: int, worker_total: int, w: int) -> int
    decreases worker_total - w when w <= worker_total
{
    if w >= worker_total {
        0
    } else {
        slice_len(max_value, worker_total, w) + slice_len_sum_from(max_value, worker_total, w + 1)
    }
}

/// The slice lengths add up to the whole range: nothing is counted
/// twice and nothing is dropped.
pub proof fn lemma_slice_len_sum(max_value: int, worker_total: int)
    requires
        max_value >= 0,
        worker_total >= 1,
    ensures
        slice_len_sum_from(max_value, worker_total, 0) == max_value + 1,
{
    lemma_slice_lo_ends(max_value, worker_total);
    lemma_slice_len_sum_tail(max_value, worker_total, 0);
}

/// The tail sum telescopes: from `w` on, the lengths add up to what is
/// left above `lo(w)`.
proof fn lemma_slice_len_sum_tail(max_value: int, worker_total: int, w: int)
    requires
        max_value >= 0,
        worker_total >= 1,
        0 <= w <= worker_total,
    ensures
        slice_len_sum_from(max_value, worker_total, w) == slice_lo(
            max_value,
            worker_total,
            worker_total,
        ) - slice_lo(max_value, worker_total, w),
    decreases worker_total - w,
{
    if w < worker_total {
        lemma_slice_len_sum_tail(max_value, worker_total, w + 1);
    }
}

/// The range `[0, max_value]` split for worker `worker_id` out of
/// `worker_total`, as an inclusive pair `(first, last)`.
pub fn get_worker_slice(max_value: u64, worker_id: u32, worker_total: u32) -> (r: (u64, u64))
    requires
        worker_id < worker_total,
        (worker_total as int) * (max_value + 1) <= u64::MAX,
        slice_lo(max_value as int, worker_total as int, worker_id + 1) >= 1,
    ensures
        r.0 == slice_lo(max_value as int, worker_total as int, worker_id as int),
        r.1 == slice_lo(max_value as int, worker_total as int, worker_id + 1) - 1,
{
    proof {
        lemma_mul_inequality(1, worker_total as int, max_value + 1);
        lemma_mul_inequality(worker_id as int, worker_total as int, max_value + 1);
        lemma_mul_inequality(worker_id + 1, worker_total as int, max_value + 1);
        lemma_div_pos_is_pos((worker_id as int) * (max_value + 1), worker_total as int);
        lemma_div_pos_is_pos((worker_id + 1) * (max_value + 1), worker_total as int);
    }
    let span: u64 = max_value + 1;
    let lo: u64 = (worker_id as u64 * span) / (worker_total as u64);
    let hi_next: u64 = ((worker_id as u64 + 1) * span) / (worker_total as u64);
    (lo, hi_next - 1)
}

} // verus!
