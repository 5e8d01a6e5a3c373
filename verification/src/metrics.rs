//! Aggregation of raw probe results into time-weighted uptime and
//! response-time statistics.

use vstd::prelude::*;

use crate::regions::Region;

verus! {

/// One raw probe result, as read back from the day-partitioned store.
#[derive(Debug, Clone, Copy, PartialEq, Eq, Structural)]
pub struct CheckResultRow {
    pub check_started_at_ms: i64,
    pub response_time_micros: i64,
    pub matches_expected: bool,
    pub region: Region,
}

/// Rows the calculator accepts: non-negative times, bounded so every
/// aggregate fits its machine word.
pub open spec fn row_ok(r: CheckResultRow) -> bool {
    &&& 0 <= r.check_started_at_ms < 0x4000_0000_0000_0000
    &&& r.response_time_micros >= 0
}

pub open spec fn rows_ok(s: Seq<CheckResultRow>) -> bool {
    forall|i: int| 0 <= i < s.len() ==> row_ok(#[trigger] s[i])
}

/// Ascending by start time.
pub open spec fn rows_sorted(s: Seq<CheckResultRow>) -> bool {
    forall|i: int, j: int|
        0 <= i < j < s.len() ==> (#[trigger] s[i]).check_started_at_ms <= (#[trigger] s[j]).check_started_at_ms
}

/// The uptime milliseconds accumulated over the first `n` rows: each
/// successful probe counts the interval up to the next probe.
pub open spec fn uptime_upto(s: Seq<CheckResultRow>, n: int) -> int
    decreases n,
{
    if n <= 1 {
        0
    } else {
        uptime_upto(s, n - 1) + if s[n - 2].matches_expected {
            s[n - 1].check_started_at_ms - s[n - 2].check_started_at_ms
        } else {
            0
        }
    }
}

/// The uptime milliseconds of a whole result sequence.
pub open spec fn uptime_ms(s: Seq<CheckResultRow>) -> int {
    uptime_upto(s, s.len() as int)
}

/// The number of successful probes among the first `n` rows.
pub open spec fn success_upto(s: Seq<CheckResultRow>, n: int) -> int
    decreases n,
{
    if n <= 0 {
        0
    } else {
        success_upto(s, n - 1) + if s[n - 1].matches_expected {
            1int
        } else {
            0int
        }
    }
}

/// The time covered by a result sequence: from its first probe to its
/// last.
pub open spec fn total_duration_ms(s: Seq<CheckResultRow>) -> int {
    s.last().check_started_at_ms - s.first().check_started_at_ms
}

/// Time-weighted uptime, in hundredths of a percent, rounded to nearest.
///
/// No probes means no uptime; a single probe is all-or-nothing; probes
/// that all share one instant fall back to the plain success ratio.
pub open spec fn spec_uptime_hundredths(s: Seq<CheckResultRow>) -> int {
    if s.len() == 0 {
        0
    } else if s.len() == 1 {
        if s[0].matches_expected {
            10000
        } else {
            0
        }
    } else if total_duration_ms(s) == 0 {
        (success_upto(s, s.len() as int) * 10000 + s.len() / 2) / s.len() as int
    } else {
        (uptime_ms(s) * 10000 + total_duration_ms(s) / 2) / total_duration_ms(s)
    }
}

/// Per-window uptime stays within the elapsed time, and neither is
/// negative.
proof fn lemma_uptime_bounds(s: Seq<CheckResultRow>, n: int)
    requires
        rows_sorted(s),
        1 <= n <= s.len(),
    ensures
        0 <= uptime_upto(s, n) <= s[n - 1].check_started_at_ms - s[0].check_started_at_ms,
    decreases n,
{
    if n > 1 {
        lemma_uptime_bounds(s, n - 1);
    }
}

/// The success count never exceeds the row count.
proof fn lemma_success_bounds(s: Seq<CheckResultRow>, n: int)
    requires
        0 <= n <= s.len(),
    ensures
        0 <= success_upto(s, n) <= n,
    decreases n,
{
    if n > 0 {
        lemma_success_bounds(s, n - 1);
    }
}

/// A ratio of the form `(a * 10000 + b / 2) / b` with `0 <= a <= b` stays
/// within `[0, 10000]`.
proof fn lemma_ratio_bounds(a: int, b: int)
    requires
        0 < b,
        0 <= a <= b,
    ensures
        0 <= (a * 10000 + b / 2) / b <= 10000,
{
    assert(a * 10000 <= b * 10000) by (nonlinear_arith)
        requires
            0 <= a <= b,
    ;
    assert(b / 2 <= b);
    vstd::arithmetic::div_mod::lemma_div_is_ordered(0, a * 10000 + b / 2, b);
    assert((a * 10000 + b / 2) / b <= (b * 10000 + b / 2) / b) by {
        vstd::arithmetic::div_mod::lemma_div_is_ordered(a * 10000 + b / 2, b * 10000 + b / 2, b);
    }
    assert((b * 10000 + b / 2) / b == 10000 + (b / 2) / b) by {
        vstd::arithmetic::div_mod::lemma_hoist_over_denominator(b / 2, 10000, b as nat);
    }
    assert((b / 2) / b == 0) by {
        vstd::arithmetic::div_mod::lemma_basic_div(b / 2, b);
    }
}

/// Computes the time-weighted uptime of a sorted result list, in
/// hundredths of a percent.
pub fn calculate_uptime_hundredths(sorted: &Vec<CheckResultRow>) -> (r: u32)
    requires
        rows_sorted(sorted@),
        rows_ok(sorted@),
    ensures
        r == spec_uptime_hundredths(sorted@),
        r <= 10000,
{
    let n = sorted.len();
    if n == 0 {
        return 0;
    }
    if n == 1 {
        return if sorted[0].matches_expected {
            10000
        } else {
            0
        };
    }

    let first_ms = sorted[0].check_started_at_ms;
    let last_ms = sorted[n - 1].check_started_at_ms;
    let total = last_ms - first_ms;

    if total == 0 {
        // All probes at one instant: plain success ratio.
        let mut successful: u64 = 0;
        let mut i: usize = 0;
        while i < n
            invariant
                n == sorted@.len(),
                i <= n,
                successful == success_upto(sorted@, i as int),
                successful <= i,
            decreases n - i,
        {
            proof {
                lemma_success_bounds(sorted@, i + 1);
            }
            if sorted[i].matches_expected {
                successful += 1;
            }
            i += 1;
        }
        proof {
            lemma_success_bounds(sorted@, n as int);
            lemma_ratio_bounds(successful as int, n as int);
        }
        let scaled = (successful as u128 * 10000 + (n as u128) / 2) / (n as u128);
        return scaled as u32;
    }

    // Weight each successful probe by the interval up to the next one.
    let mut up: i64 = 0;
    let mut i: usize = 1;
    while i < n
        invariant
            n == sorted@.len(),
            2 <= n,
            1 <= i <= n,
            rows_sorted(sorted@),
            rows_ok(sorted@),
            up == uptime_upto(sorted@, i as int),
            0 <= up <= sorted@[i - 1].check_started_at_ms - sorted@[0].check_started_at_ms,
        decreases n - i,
    {
        proof {
            lemma_uptime_bounds(sorted@, i + 1);
        }
        if sorted[i - 1].matches_expected {
            up = up + (sorted[i].check_started_at_ms - sorted[i - 1].check_started_at_ms);
        } else {
            proof {
                assert(sorted@[i - 1].check_started_at_ms <= sorted@[i as int].check_started_at_ms);
            }
        }
        i += 1;
    }
    proof {
        lemma_uptime_bounds(sorted@, n as int);
        lemma_ratio_bounds(up as int, total as int);
    }
    let scaled = ((up as u128) * 10000 + (total as u128) / 2) / (total as u128);
    scaled as u32
}

/// The uptime milliseconds and the covered duration both split exactly at
/// any shared row: aggregating the whole range gives the same totals as
/// aggregating two subranges that meet at one probe. Duration-weighting
/// per-part uptime fractions therefore reconstructs the whole-range
/// fraction. (Splitting *between* two probes loses the straddling
/// interval from both parts, so parts must share their boundary row.)
pub proof fn lemma_uptime_splits_at_row(s: Seq<CheckResultRow>, m: int)
    requires
        rows_sorted(s),
        0 <= m < s.len(),
    ensures
        uptime_ms(s) == uptime_ms(s.subrange(0, m + 1)) + uptime_ms(s.subrange(m, s.len() as int)),
        s.len() >= 1 ==> total_duration_ms(s) == total_duration_ms(s.subrange(0, m + 1))
            + total_duration_ms(s.subrange(m, s.len() as int)),
    decreases s.len(),
{
    let n = s.len() as int;
    let pre = s.subrange(0, m + 1);
    let suf = s.subrange(m, n);
    lemma_uptime_prefix_agree(s, pre, m + 1);
    lemma_uptime_shift(s, m, n);
}

/// The uptime of a prefix only reads the prefix.
proof fn lemma_uptime_prefix_agree(s: Seq<CheckResultRow>, pre: Seq<CheckResultRow>, n: int)
    requires
        0 <= n <= s.len(),
        pre.len() == n,
        forall|k: int| 0 <= k < n ==> #[trigger] pre[k] == s[k],
    ensures
        uptime_upto(s, n) == uptime_ms(pre),
    decreases n,
{
    if n > 1 {
        lemma_uptime_prefix_agree(s, pre.take(n - 1), n - 1);
        assert(uptime_ms(pre) == uptime_upto(pre, n));
        lemma_uptime_prefix_agree(pre, pre.take(n - 1), n - 1);
    }
}

/// Counting windows from the `m`-th row onward equals the uptime of the
/// suffix that starts there.
proof fn lemma_uptime_shift(s: Seq<CheckResultRow>, m: int, n: int)
    requires
        0 <= m < n <= s.len(),
    ensures
        uptime_upto(s, n) == uptime_upto(s, m + 1) + uptime_ms(s.subrange(m, n)),
    decreases n - m,
{
    let suf = s.subrange(m, n);
    if n == m + 1 {
        assert(suf.len() == 1);
    } else {
        lemma_uptime_shift(s, m, n - 1);
        let suf1 = s.subrange(m, n - 1);
        assert(suf1 =~= suf.take(suf.len() - 1));
        lemma_uptime_prefix_agree(suf, suf1, suf.len() - 1);
        assert(uptime_ms(suf) == uptime_upto(suf, suf.len() as int));
        assert(suf[suf.len() - 2] == s[n - 2]);
        assert(suf[suf.len() - 1] == s[n - 1]);
    }
}

} // verus!

verus! {

/// Numeric order on response times, for the specification-level sort.
pub open spec fn i64_leq() -> spec_fn(i64, i64) -> bool {
    |x: i64, y: i64| x <= y
}

/// The response times of a result list.
pub open spec fn times_of(s: Seq<CheckResultRow>) -> Seq<i64> {
    s.map_values(|r: CheckResultRow| r.response_time_micros)
}

/// The response times in ascending order.
pub open spec fn sorted_times(s: Seq<CheckResultRow>) -> Seq<i64> {
    times_of(s).sort_by(i64_leq())
}

/// Two sorted sequences with the same entries are the same sequence.
pub proof fn lemma_sorted_perm_unique(s1: Seq<i64>, s2: Seq<i64>)
    requires
        crate::sorting::sorted_i64(s1),
        crate::sorting::sorted_i64(s2),
        s1.to_multiset() == s2.to_multiset(),
    ensures
        s1 == s2,
    decreases s1.len(),
{
    s1.to_multiset_ensures();
    s2.to_multiset_ensures();
    if s1.len() == 0 {
        assert(s1 =~= s2);
    } else {
        // The heads agree: each is a least element of the same multiset.
        assert(s1.contains(s1[0]));
        assert(s2.to_multiset().count(s1[0]) > 0);
        assert(s2.contains(s1[0]));
        let j2 = choose|j: int| 0 <= j < s2.len() && s2[j] == s1[0];
        assert(s2[0] <= s2[j2]);
        assert(s2.contains(s2[0]));
        assert(s1.to_multiset().count(s2[0]) > 0);
        assert(s1.contains(s2[0]));
        let j1 = choose|j: int| 0 <= j < s1.len() && s1[j] == s2[0];
        assert(s1[0] <= s1[j1]);
        assert(s1[0] == s2[0]);

        let r1 = s1.drop_first();
        let r2 = s2.drop_first();
        assert(r1 =~= s1.remove(0));
        assert(r2 =~= s2.remove(0));
        assert(r1.to_multiset() == s1.to_multiset().remove(s1[0]));
        assert(r2.to_multiset() == s2.to_multiset().remove(s2[0]));
        assert(crate::sorting::sorted_i64(r1)) by {
            assert(forall|k: int| 0 <= k < r1.len() ==> #[trigger] r1[k] == s1[k + 1]);
        }
        assert(crate::sorting::sorted_i64(r2)) by {
            assert(forall|k: int| 0 <= k < r2.len() ==> #[trigger] r2[k] == s2[k + 1]);
        }
        lemma_sorted_perm_unique(r1, r2);
        assert forall|k: int| 0 <= k < s1.len() implies s1[k] == s2[k] by {
            if k > 0 {
                assert(r1[k - 1] == s1[k]);
                assert(r2[k - 1] == s2[k]);
            }
        }
        assert(s1 =~= s2);
    }
}

/// The `p`-th percentile of an ascending sequence, by linear
/// interpolation between the two nearest ranks, truncated to integer
/// microseconds.
pub open spec fn percentile_spec(st: Seq<i64>, p: int) -> int {
    if st.len() == 0 {
        0
    } else {
        let pos = p * (st.len() - 1);
        let idx = pos / 100;
        let rem = pos % 100;
        if rem == 0 || idx + 1 >= st.len() {
            st[idx] as int
        } else {
            st[idx] + (st[idx + 1] - st[idx]) * rem / 100
        }
    }
}

/// Computes a percentile of the ascending response-time list.
pub fn percentile(st: &Vec<i64>, p: u64) -> (r: i64)
    requires
        crate::sorting::sorted_i64(st@),
        forall|k: int| 0 <= k < st@.len() ==> 0 <= #[trigger] st@[k],
        st@.len() > 0,
        p <= 100,
    ensures
        r == percentile_spec(st@, p as int),
{
    let n = st.len();
    proof {
        assert((p as u128) * ((n - 1) as u128) <= 100 * (usize::MAX as u128)) by (nonlinear_arith)
            requires
                p <= 100,
                n >= 1,
                n - 1 <= usize::MAX,
        ;
    }
    let pos: u128 = (p as u128) * ((n - 1) as u128);
    let idx128 = pos / 100;
    let rem = (pos % 100) as u64;
    proof {
        assert(pos <= 100 * (n - 1)) by (nonlinear_arith)
            requires
                p <= 100,
                pos == p * (n - 1),
                n >= 1,
        ;
        vstd::arithmetic::div_mod::lemma_div_is_ordered(pos as int, 100 * (n - 1), 100);
        vstd::arithmetic::div_mod::lemma_div_by_multiple(n as int - 1, 100);
        assert(idx128 <= n - 1);
    }
    let idx = idx128 as usize;
    if rem == 0 || idx + 1 >= n {
        st[idx]
    } else {
        let lo = st[idx];
        let hi = st[idx + 1];
        assert(lo <= hi);
        proof {
            assert(((hi - lo) as i128) * (rem as i128) <= (i64::MAX as i128) * 100)
                by (nonlinear_arith)
                requires
                    0 <= hi - lo <= i64::MAX,
                    0 <= rem < 100,
            ;
        }
        let interp = (((hi - lo) as i128) * (rem as i128)) / 100;
        proof {
            assert(0 <= (hi - lo) as i128 * (rem as i128) <= (hi - lo) as i128 * 100)
                by (nonlinear_arith)
                requires
                    0 <= hi - lo,
                    0 <= rem < 100,
            ;
            vstd::arithmetic::div_mod::lemma_div_is_ordered(
                0,
                (hi - lo) as int * rem as int,
                100,
            );
            vstd::arithmetic::div_mod::lemma_div_is_ordered(
                (hi - lo) as int * rem as int,
                (hi - lo) as int * 100,
                100,
            );
            vstd::arithmetic::div_mod::lemma_div_by_multiple((hi - lo) as int, 100);
        }
        lo + (interp as i64)
    }
}

/// The total of the response times of the first `n` rows.
pub open spec fn sum_micros_upto(s: Seq<CheckResultRow>, n: int) -> int
    decreases n,
{
    if n <= 0 {
        0
    } else {
        sum_micros_upto(s, n - 1) + s[n - 1].response_time_micros
    }
}

/// The mean response time, truncated to integer microseconds.
pub open spec fn avg_micros(s: Seq<CheckResultRow>) -> int {
    if s.len() == 0 {
        0
    } else {
        sum_micros_upto(s, s.len() as int) / s.len() as int
    }
}

/// The sum of `n` non-negative response times lies between zero and `n`
/// times the largest representable one.
proof fn lemma_sum_micros_bounds(s: Seq<CheckResultRow>, n: int)
    requires
        rows_ok(s),
        0 <= n <= s.len(),
    ensures
        0 <= sum_micros_upto(s, n) <= n * (i64::MAX as int),
    decreases n,
{
    if n > 0 {
        lemma_sum_micros_bounds(s, n - 1);
        assert((n - 1) * (i64::MAX as int) + i64::MAX <= n * (i64::MAX as int))
            by (nonlinear_arith);
    }
}

/// Aggregated statistics over a set of probe results.
#[derive(Debug, Clone, Copy, PartialEq, Eq, Structural)]
pub struct MetricsSummary {
    /// Time-weighted uptime in hundredths of a percent (`0..=10000`).
    pub uptime_hundredths: u32,
    pub total_checks: u32,
    pub successful_checks: u32,
    pub failed_checks: u32,
    pub avg_response_time_micros: i64,
    pub min_response_time_micros: i64,
    pub max_response_time_micros: i64,
    pub p50_response_time_micros: i64,
    pub p95_response_time_micros: i64,
    pub p99_response_time_micros: i64,
}

impl MetricsSummary {
    /// The all-zero summary reported for an empty result set.
    pub open spec fn spec_empty() -> MetricsSummary {
        MetricsSummary {
            uptime_hundredths: 0,
            total_checks: 0,
            successful_checks: 0,
            failed_checks: 0,
            avg_response_time_micros: 0,
            min_response_time_micros: 0,
            max_response_time_micros: 0,
            p50_response_time_micros: 0,
            p95_response_time_micros: 0,
            p99_response_time_micros: 0,
        }
    }
}

/// The statistics of a sorted result list.
pub open spec fn summary_spec(s: Seq<CheckResultRow>) -> MetricsSummary {
    if s.len() == 0 {
        MetricsSummary::spec_empty()
    } else {
        let st = sorted_times(s);
        MetricsSummary {
            uptime_hundredths: spec_uptime_hundredths(s) as u32,
            total_checks: s.len() as u32,
            successful_checks: success_upto(s, s.len() as int) as u32,
            failed_checks: (s.len() - success_upto(s, s.len() as int)) as u32,
            avg_response_time_micros: avg_micros(s) as i64,
            min_response_time_micros: st[0],
            max_response_time_micros: st[st.len() - 1],
            p50_response_time_micros: percentile_spec(st, 50) as i64,
            p95_response_time_micros: percentile_spec(st, 95) as i64,
            p99_response_time_micros: percentile_spec(st, 99) as i64,
        }
    }
}

/// Calculates uptime and response-time statistics from a result list
/// sorted by start time.
pub fn calculate_metrics(sorted: &Vec<CheckResultRow>) -> (r: MetricsSummary)
    requires
        rows_sorted(sorted@),
        rows_ok(sorted@),
        sorted@.len() <= u32::MAX,
    ensures
        r == summary_spec(sorted@),
{
    let n = sorted.len();
    if n == 0 {
        return MetricsSummary {
            uptime_hundredths: 0,
            total_checks: 0,
            successful_checks: 0,
            failed_checks: 0,
            avg_response_time_micros: 0,
            min_response_time_micros: 0,
            max_response_time_micros: 0,
            p50_response_time_micros: 0,
            p95_response_time_micros: 0,
            p99_response_time_micros: 0,
        };
    }

    let uptime = calculate_uptime_hundredths(sorted);

    let mut successful: u32 = 0;
    let mut sum: i128 = 0;
    let mut times: Vec<i64> = Vec::new();
    let mut i: usize = 0;
    while i < n
        invariant
            n == sorted@.len(),
            n <= u32::MAX,
            i <= n,
            rows_ok(sorted@),
            successful == success_upto(sorted@, i as int),
            successful <= i,
            sum == sum_micros_upto(sorted@, i as int),
            0 <= sum <= (i as int) * (i64::MAX as int),
            times@ == times_of(sorted@.take(i as int)),
            forall|k: int| 0 <= k < times@.len() ==> 0 <= #[trigger] times@[k],
        decreases n - i,
    {
        proof {
            lemma_success_bounds(sorted@, i + 1);
            lemma_sum_micros_bounds(sorted@, i + 1);
            assert(times_of(sorted@.take(i + 1)) =~= times_of(sorted@.take(i as int)).push(
                sorted@[i as int].response_time_micros,
            ));
        }
        if sorted[i].matches_expected {
            successful += 1;
        }
        sum = sum + (sorted[i].response_time_micros as i128);
        times.push(sorted[i].response_time_micros);
        i += 1;
    }
    proof {
        assert(sorted@.take(n as int) =~= sorted@);
        assert(times_of(sorted@).len() == n);
    }

    let avg128 = sum / (n as i128);
    proof {
        lemma_sum_micros_bounds(sorted@, n as int);
        vstd::arithmetic::div_mod::lemma_div_is_ordered(0, sum as int, n as int);
        vstd::arithmetic::div_mod::lemma_div_is_ordered(
            sum as int,
            (n as int) * (i64::MAX as int),
            n as int,
        );
        vstd::arithmetic::div_mod::lemma_div_by_multiple(i64::MAX as int, n as int);
        assert((n as int) * (i64::MAX as int) == (i64::MAX as int) * (n as int))
            by (nonlinear_arith);
    }
    let avg = avg128 as i64;

    let ghost raw_times = times@;
    crate::sorting::sort_i64(&mut times);
    proof {
        raw_times.lemma_sort_by_ensures(i64_leq());
        assert(vstd::relations::total_ordering(i64_leq()));
        let st_spec = raw_times.sort_by(i64_leq());
        assert(crate::sorting::sorted_i64(st_spec)) by {
            assert(vstd::relations::sorted_by(st_spec, i64_leq()));
            assert forall|a: int, b: int| 0 <= a < b < st_spec.len() implies st_spec[a]
                <= st_spec[b] by {
                assert(i64_leq()(st_spec[a], st_spec[b]));
            }
        }
        lemma_sorted_perm_unique(times@, st_spec);
        assert(times@ == sorted_times(sorted@));
        times@.to_multiset_ensures();
        raw_times.to_multiset_ensures();
        assert(times@.len() == raw_times.len());
        assert forall|k: int| 0 <= k < times@.len() implies 0 <= #[trigger] times@[k] by {
            assert(times@.contains(times@[k]));
            assert(raw_times.to_multiset().count(times@[k]) > 0);
            assert(raw_times.contains(times@[k]));
        }
    }

    let p50 = percentile(&times, 50);
    let p95 = percentile(&times, 95);
    let p99 = percentile(&times, 99);
    let min = times[0];
    let max = times[times.len() - 1];

    MetricsSummary {
        uptime_hundredths: uptime,
        total_checks: n as u32,
        successful_checks: successful,
        failed_checks: (n as u32) - successful,
        avg_response_time_micros: avg,
        min_response_time_micros: min,
        max_response_time_micros: max,
        p50_response_time_micros: p50,
        p95_response_time_micros: p95,
        p99_response_time_micros: p99,
    }
}

/// Calculates the overall statistics across all results.
pub fn calculate_overall_metrics(sorted: &Vec<CheckResultRow>) -> (r: MetricsSummary)
    requires
        rows_sorted(sorted@),
        rows_ok(sorted@),
        sorted@.len() <= u32::MAX,
    ensures
        r == summary_spec(sorted@),
{
    calculate_metrics(sorted)
}

/// The per-region statistics: one entry per region that has results, in
/// the fixed region order, each computed over that region's rows alone.
pub open spec fn by_region_spec(s: Seq<CheckResultRow>) -> Seq<(Region, MetricsSummary)> {
    Region::all_spec().filter(|rg: Region| s.filter(|row: CheckResultRow| row.region == rg).len() > 0)
        .map_values(|rg: Region| (rg, summary_spec(s.filter(|row: CheckResultRow| row.region == rg))))
}

/// Calculates per-region statistics from a result list sorted by start
/// time; regions without results are omitted.
pub fn calculate_by_region_metrics(sorted: &Vec<CheckResultRow>) -> (r: Vec<(
    Region,
    MetricsSummary,
)>)
    requires
        rows_sorted(sorted@),
        rows_ok(sorted@),
        sorted@.len() <= u32::MAX,
    ensures
        r@ == by_region_spec(sorted@),
{
    let regions = Region::all();
    let ghost keep = |rg: Region| sorted@.filter(|row: CheckResultRow| row.region == rg).len() > 0;
    let ghost mk = |rg: Region| (rg, summary_spec(sorted@.filter(|row: CheckResultRow| row.region == rg)));
    let mut out: Vec<(Region, MetricsSummary)> = Vec::new();
    let mut g: usize = 0;
    while g < 3
        invariant
            regions@ == Region::all_spec(),
            g <= 3,
            rows_sorted(sorted@),
            rows_ok(sorted@),
            sorted@.len() <= u32::MAX,
            keep == (|rg: Region| sorted@.filter(|row: CheckResultRow| row.region == rg).len() > 0),
            mk == (|rg: Region| (rg, summary_spec(sorted@.filter(|row: CheckResultRow| row.region == rg)))),
            out@ == Region::all_spec().take(g as int).filter(keep).map_values(mk),
        decreases 3 - g,
    {
        let rg = regions[g];
        proof {
            reveal(Seq::filter);
            assert(Region::all_spec().take(g + 1).drop_last() =~= Region::all_spec().take(g as int));
            assert(Region::all_spec().take(g + 1).last() == Region::all_spec()[g as int]);
        }
        let rows = filter_rows_by_region(sorted, rg);
        let ghost out_pre = out@;
        if rows.len() > 0 {
            let summary = calculate_metrics(&rows);
            out.push((rg, summary));
            proof {
                assert(out@ =~= out_pre.push(mk(Region::all_spec()[g as int])));
                assert(Region::all_spec().take(g + 1).filter(keep).map_values(mk)
                    =~= Region::all_spec().take(g as int).filter(keep).map_values(mk).push(
                    mk(Region::all_spec()[g as int]),
                ));
            }
        } else {
            proof {
                assert(Region::all_spec().take(g + 1).filter(keep) =~= Region::all_spec().take(
                    g as int,
                ).filter(keep));
            }
        }
        g += 1;
    }
    proof {
        assert(Region::all_spec().take(3) =~= Region::all_spec());
    }
    out
}

/// The rows of one region, keeping their order.
pub fn filter_rows_by_region(rows: &Vec<CheckResultRow>, region: Region) -> (r: Vec<
    CheckResultRow,
>)
    requires
        rows_sorted(rows@),
        rows_ok(rows@),
    ensures
        r@ == rows@.filter(|row: CheckResultRow| row.region == region),
        rows_sorted(r@),
        rows_ok(r@),
        r@.len() <= rows@.len(),
{
    let ghost pred = |row: CheckResultRow| row.region == region;
    let mut out: Vec<CheckResultRow> = Vec::new();
    let ghost mut picked: Seq<int> = Seq::empty();
    let n = rows.len();
    let mut i: usize = 0;
    while i < n
        invariant
            n == rows@.len(),
            i <= n,
            rows_sorted(rows@),
            rows_ok(rows@),
            pred == (|row: CheckResultRow| row.region == region),
            out@ == rows@.take(i as int).filter(pred),
            picked.len() == out@.len(),
            forall|k: int| 0 <= k < picked.len() ==> 0 <= #[trigger] picked[k] < i,
            forall|k: int| 0 <= k < picked.len() ==> out@[k] == rows@[#[trigger] picked[k]],
            forall|a: int, b: int| 0 <= a < b < picked.len() ==> picked[a] < picked[b],
        decreases n - i,
    {
        proof {
            reveal(Seq::filter);
            assert(rows@.take(i + 1).drop_last() =~= rows@.take(i as int));
            assert(rows@.take(i + 1).last() == rows@[i as int]);
        }
        let row = rows[i];
        if row.region == region {
            out.push(row);
            proof {
                picked = picked.push(i as int);
            }
        }
        i += 1;
    }
    proof {
        assert(rows@.take(n as int) =~= rows@);
        rows@.lemma_filter_len(pred);
        assert forall|a: int, b: int| 0 <= a < b < out@.len() implies (#[trigger] out@[a]).check_started_at_ms
            <= (#[trigger] out@[b]).check_started_at_ms by {
            assert(out@[a] == rows@[picked[a]]);
            assert(out@[b] == rows@[picked[b]]);
        }
        assert forall|k: int| 0 <= k < out@.len() implies row_ok(#[trigger] out@[k]) by {
            assert(out@[k] == rows@[picked[k]]);
        }
    }
    out
}

} // verus!
