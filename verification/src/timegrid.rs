//! Calendar arithmetic on the UTC millisecond timeline: hour and day
//! grids for the rollup tables and the day-partitioned result store.

use vstd::prelude::*;

verus! {

pub const HOUR_MS: u64 = 3600000;

pub const DAY_MS: u64 = 86400000;

/// Timestamps the grid functions accept, far below any overflow.
pub const TIME_LIMIT_MS: u64 = 0x4000_0000_0000_0000;

/// The UTC day number a timestamp falls on.
pub fn day_of_millis(ts_ms: u64) -> (r: u64)
    ensures
        r == ts_ms as int / DAY_MS as int,
{
    ts_ms / DAY_MS
}

/// Whether a timestamp lies exactly on an hour boundary.
pub open spec fn spec_hour_aligned(ts_ms: int) -> bool {
    ts_ms % (HOUR_MS as int) == 0
}

/// Whether a timestamp lies exactly on a day boundary.
pub open spec fn spec_day_aligned(ts_ms: int) -> bool {
    ts_ms % (DAY_MS as int) == 0
}

/// Every aligned instant of a grid with step `step_ms` in `[from, to)`,
/// ascending.
pub open spec fn grid_points(from_ms: int, to_ms: int, step_ms: int) -> Seq<u64> {
    Seq::new(
        if from_ms < to_ms {
            (((to_ms - from_ms) + (step_ms - 1)) / step_ms) as nat
        } else {
            0
        },
        |i: int| (from_ms + i * step_ms) as u64,
    )
}

/// Generates all instants of the `step_ms` grid in `[from, to)`,
/// starting at `from` (callers align `from` and `to` first).
pub fn points_in_range(from_ms: u64, to_ms: u64, step_ms: u64) -> (r: Vec<u64>)
    requires
        0 < step_ms <= TIME_LIMIT_MS,
        from_ms <= TIME_LIMIT_MS,
        to_ms <= TIME_LIMIT_MS,
    ensures
        r@ == grid_points(from_ms as int, to_ms as int, step_ms as int),
{
    let mut v: Vec<u64> = Vec::new();
    let mut cur = from_ms;
    proof {
        vstd::arithmetic::div_mod::lemma_small_mod(0, step_ms as nat);
        vstd::arithmetic::div_mod::lemma_basic_div(0, step_ms as int);
    }
    while cur < to_ms
        invariant
            0 < step_ms <= TIME_LIMIT_MS,
            from_ms <= TIME_LIMIT_MS,
            to_ms <= TIME_LIMIT_MS,
            from_ms <= cur,
            cur <= TIME_LIMIT_MS + step_ms,
            (cur - from_ms) % (step_ms as int) == 0,
            v@.len() == (cur - from_ms) / (step_ms as int),
            cur < to_ms || v@.len() == grid_points(from_ms as int, to_ms as int, step_ms as int).len(),
            forall|k: int|
                0 <= k < v@.len() ==> #[trigger] v@[k] == from_ms + k * step_ms,
        decreases to_ms + step_ms - cur,
    {
        proof {
            let done = (cur - from_ms) / (step_ms as int);
            vstd::arithmetic::div_mod::lemma_fundamental_div_mod(cur - from_ms, step_ms as int);
            assert(cur == from_ms + (step_ms as int) * done);
            assert(done * step_ms == (step_ms as int) * done) by (nonlinear_arith);
            assert(cur == from_ms + done * step_ms);
            assert((cur + step_ms - from_ms) == (done + 1) * step_ms) by (nonlinear_arith)
                requires
                    cur - from_ms == done * step_ms,
            ;
            vstd::arithmetic::div_mod::lemma_fundamental_div_mod_converse(
                cur + step_ms - from_ms,
                step_ms as int,
                done + 1,
                0,
            );
            if cur + step_ms >= to_ms {
                // The grid ends here: the point count matches the ceiling.
                vstd::arithmetic::div_mod::lemma_fundamental_div_mod_converse(
                    (to_ms - from_ms) + (step_ms - 1),
                    step_ms as int,
                    done + 1,
                    to_ms - cur - 1,
                );
            }
        }
        v.push(cur);
        assert(cur as int + step_ms as int <= u64::MAX as int);
        cur = cur + step_ms;
    }
    proof {
        if from_ms >= to_ms {
            assert(v@.len() == 0);
            assert(v@ =~= grid_points(from_ms as int, to_ms as int, step_ms as int));
        } else {
            assert(v@ =~= grid_points(from_ms as int, to_ms as int, step_ms as int));
        }
    }
    v
}

/// Whether a timestamp is aligned to the rollup granularity: zero
/// sub-hour part for hourly buckets, and additionally on a midnight for
/// daily ones.
pub fn is_hour_aligned(ts_ms: u64) -> (r: bool)
    ensures
        r == spec_hour_aligned(ts_ms as int),
{
    ts_ms % HOUR_MS == 0
}

/// See [`is_hour_aligned`].
pub fn is_day_aligned(ts_ms: u64) -> (r: bool)
    ensures
        r == spec_day_aligned(ts_ms as int),
{
    ts_ms % DAY_MS == 0
}

/// The days whose result partitions intersect `[from, to)`: every day
/// from `from`'s to `to`'s, including `to`'s own day only when `to` cuts
/// into it.
pub open spec fn spec_dates_in_range(from_ms: int, to_ms: int) -> Seq<u64> {
    let first = from_ms / (DAY_MS as int);
    let last = to_ms / (DAY_MS as int);
    Seq::new((last - first) as nat, |i: int| (first + i) as u64) + if to_ms % (DAY_MS as int)
        != 0 {
        seq![last as u64]
    } else {
        Seq::<u64>::empty()
    }
}

/// The day numbers whose partitions a range query must read.
pub fn get_dates_in_range(from_ms: u64, to_ms: u64) -> (r: Vec<u64>)
    requires
        from_ms <= to_ms,
        to_ms <= TIME_LIMIT_MS,
    ensures
        r@ == spec_dates_in_range(from_ms as int, to_ms as int),
{
    let first = day_of_millis(from_ms);
    let last = day_of_millis(to_ms);
    proof {
        vstd::arithmetic::div_mod::lemma_div_is_ordered(from_ms as int, to_ms as int, DAY_MS as int);
    }
    let mut v: Vec<u64> = Vec::new();
    let mut d = first;
    while d < last
        invariant
            first <= d <= last,
            v@.len() == d - first,
            forall|k: int| 0 <= k < v@.len() ==> #[trigger] v@[k] == first + k,
        decreases last - d,
    {
        v.push(d);
        d += 1;
    }
    if to_ms % DAY_MS != 0 {
        v.push(last);
    }
    proof {
        assert(v@ =~= spec_dates_in_range(from_ms as int, to_ms as int));
    }
    v
}

} // verus!
