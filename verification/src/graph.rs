//! The metrics read path: validation of requested windows, the bucket
//! grid of a graph query, which buckets the rollup cache misses, and the
//! assembly of the response.

use vstd::prelude::*;

use crate::metrics::{
    by_region_spec, calculate_by_region_metrics, calculate_metrics, summary_spec, CheckResultRow,
    MetricsSummary, rows_ok, rows_sorted,
};
use crate::regions::Region;
use crate::sorting::lemma_seq_insert_multiset;
use crate::timegrid::{DAY_MS, HOUR_MS, TIME_LIMIT_MS};

verus! {

/// The bucket width of a graph query.
#[derive(Debug, Clone, Copy, PartialEq, Eq, Structural)]
pub enum GraphGranularity {
    Hourly,
    Daily,
}

impl GraphGranularity {
    /// The bucket width in milliseconds.
    pub open spec fn spec_step_ms(self) -> int {
        match self {
            GraphGranularity::Hourly => HOUR_MS as int,
            GraphGranularity::Daily => DAY_MS as int,
        }
    }

    pub fn step_ms(self) -> (r: u64)
        ensures
            r == self.spec_step_ms(),
    {
        match self {
            GraphGranularity::Hourly => HOUR_MS,
            GraphGranularity::Daily => DAY_MS,
        }
    }
}

/// Whether a timestamp lies on a bucket boundary of the granularity.
pub open spec fn spec_rounded_to_granularity(ts_ms: int, g: GraphGranularity) -> bool {
    ts_ms % g.spec_step_ms() == 0
}

/// Check if a timestamp is rounded to the granularity: to the hour, or
/// to midnight for daily buckets.
pub fn is_rounded_to_granularity(ts_ms: u64, granularity: GraphGranularity) -> (r: bool)
    ensures
        r == spec_rounded_to_granularity(ts_ms as int, granularity),
{
    match granularity {
        GraphGranularity::Hourly => crate::timegrid::is_hour_aligned(ts_ms),
        GraphGranularity::Daily => crate::timegrid::is_day_aligned(ts_ms),
    }
}

/// Why a metrics query is refused.
#[derive(Debug, Clone, Copy, PartialEq, Eq, Structural)]
pub enum MetricsQueryError {
    /// `from` must lie strictly before `to`.
    EmptyWindow,
    /// The window exceeds the configured maximum number of days.
    WindowTooLong,
    /// A graph bound is not on a bucket boundary.
    NotRounded,
}

/// A window longer than this many days is refused, to bound query cost.
pub const CHECK_RESULTS_MAX_DAYS: u64 = 90;

/// Validates a metrics window: `from` strictly before `to`, spanning at
/// most the configured maximum of days.
pub fn validate_metrics_window(from_ms: u64, to_ms: u64) -> (r: Result<(), MetricsQueryError>)
    ensures
        r == if from_ms >= to_ms {
            Result::<(), MetricsQueryError>::Err(MetricsQueryError::EmptyWindow)
        } else if to_ms - from_ms > CHECK_RESULTS_MAX_DAYS * DAY_MS {
            Result::<(), MetricsQueryError>::Err(MetricsQueryError::WindowTooLong)
        } else {
            Result::<(), MetricsQueryError>::Ok(())
        },
{
    if from_ms >= to_ms {
        Err(MetricsQueryError::EmptyWindow)
    } else if to_ms - from_ms > CHECK_RESULTS_MAX_DAYS * DAY_MS {
        Err(MetricsQueryError::WindowTooLong)
    } else {
        Ok(())
    }
}

/// Validates a graph window: a valid metrics window whose two bounds lie
/// on bucket boundaries.
pub fn validate_graph_window(from_ms: u64, to_ms: u64, granularity: GraphGranularity) -> (r:
    Result<(), MetricsQueryError>)
    ensures
        r == if from_ms >= to_ms {
            Result::<(), MetricsQueryError>::Err(MetricsQueryError::EmptyWindow)
        } else if !spec_rounded_to_granularity(from_ms as int, granularity)
            || !spec_rounded_to_granularity(to_ms as int, granularity) {
            Result::<(), MetricsQueryError>::Err(MetricsQueryError::NotRounded)
        } else if to_ms - from_ms > CHECK_RESULTS_MAX_DAYS * DAY_MS {
            Result::<(), MetricsQueryError>::Err(MetricsQueryError::WindowTooLong)
        } else {
            Result::<(), MetricsQueryError>::Ok(())
        },
{
    if from_ms >= to_ms {
        Err(MetricsQueryError::EmptyWindow)
    } else if !is_rounded_to_granularity(from_ms, granularity) || !is_rounded_to_granularity(
        to_ms,
        granularity,
    ) {
        Err(MetricsQueryError::NotRounded)
    } else if to_ms - from_ms > CHECK_RESULTS_MAX_DAYS * DAY_MS {
        Err(MetricsQueryError::WindowTooLong)
    } else {
        Ok(())
    }
}

/// The bucket starts a graph query must report: the granularity grid
/// over `[from, to)`.
pub fn expected_bucket_starts(from_ms: u64, to_ms: u64, granularity: GraphGranularity) -> (r: Vec<
    u64,
>)
    requires
        from_ms <= TIME_LIMIT_MS,
        to_ms <= TIME_LIMIT_MS,
    ensures
        r@ == crate::timegrid::grid_points(from_ms as int, to_ms as int, granularity.spec_step_ms()),
{
    crate::timegrid::points_in_range(from_ms, to_ms, granularity.step_ms())
}

/// One cached or computed rollup: the statistics of one region in one
/// bucket.
#[derive(Debug, Clone, Copy, PartialEq, Eq, Structural)]
pub struct MetricsSummaryRegionDate {
    pub metrics_summary: MetricsSummary,
    pub date_ms: u64,
    pub region: Region,
}

/// Whether any cached entry covers this bucket start.
pub open spec fn cache_has_date(cached: Seq<MetricsSummaryRegionDate>, date_ms: u64) -> bool {
    exists|j: int| 0 <= j < cached.len() && (#[trigger] cached[j]).date_ms == date_ms
}

/// The buckets the rollup cache does not cover, in grid order: these are
/// computed from raw results instead.
pub fn missing_bucket_starts(expected: &Vec<u64>, cached: &Vec<MetricsSummaryRegionDate>) -> (r:
    Vec<u64>)
    ensures
        r@ == expected@.filter(|d: u64| !cache_has_date(cached@, d)),
{
    let ghost pred = |d: u64| !cache_has_date(cached@, d);
    let mut out: Vec<u64> = Vec::new();
    let n = expected.len();
    let n_cached = cached.len();
    let mut i: usize = 0;
    while i < n
        invariant
            n == expected@.len(),
            n_cached == cached@.len(),
            i <= n,
            pred == (|d: u64| !cache_has_date(cached@, d)),
            out@ == expected@.take(i as int).filter(pred),
        decreases n - i,
    {
        proof {
            reveal(Seq::filter);
            assert(expected@.take(i + 1).drop_last() =~= expected@.take(i as int));
            assert(expected@.take(i + 1).last() == expected@[i as int]);
        }
        let d = expected[i];
        let mut found = false;
        let mut j: usize = 0;
        while j < n_cached
            invariant
                n_cached == cached@.len(),
                j <= n_cached,
                found ==> cache_has_date(cached@, d),
                !found ==> forall|k: int| 0 <= k < j ==> (#[trigger] cached@[k]).date_ms != d,
            decreases n_cached - j,
        {
            if cached[j].date_ms == d {
                found = true;
            }
            j += 1;
        }
        if !found {
            out.push(d);
        }
        i += 1;
    }
    proof {
        assert(expected@.take(n as int) =~= expected@);
    }
    out
}

/// Whether a bucket that was computed on demand may be written back to
/// the rollup cache: only when the bucket lies entirely in the past; a
/// bucket still in progress is never cached.
pub fn should_cache_bucket(bucket_start_ms: u64, granularity: GraphGranularity, now_ms: u64) -> (r:
    bool)
    requires
        bucket_start_ms <= TIME_LIMIT_MS,
    ensures
        r == (bucket_start_ms + granularity.spec_step_ms() <= now_ms),
{
    bucket_start_ms + granularity.step_ms() <= now_ms
}

/// Aggregated metrics for a whole window: the overall summary and the
/// per-region ones.
#[derive(Debug)]
pub struct MetricsResponse {
    pub overall: MetricsSummary,
    pub by_region: Vec<(Region, MetricsSummary)>,
}

/// Sorts probe results ascending by start time.
pub fn sort_results_by_time(v: &mut Vec<CheckResultRow>)
    ensures
        rows_sorted(final(v)@),
        final(v)@.to_multiset() == old(v)@.to_multiset(),
        final(v)@.len() == old(v)@.len(),
{
    let n = v.len();
    proof {
        old(v)@.to_multiset_ensures();
    }
    if n <= 1 {
        return ;
    }
    let mut i: usize = 1;
    while i < n
        invariant
            n == v@.len(),
            1 <= i <= n,
            rows_sorted(v@.take(i as int)),
            v@.to_multiset() == old(v)@.to_multiset(),
        decreases n - i,
    {
        let x = v[i];
        let ghost before = v@;
        let mut j: usize = 0;
        while j < i && v[j].check_started_at_ms <= x.check_started_at_ms
            invariant
                j <= i < n,
                n == v@.len(),
                v@ == before,
                forall|k: int|
                    0 <= k < j ==> (#[trigger] v@[k]).check_started_at_ms
                        <= x.check_started_at_ms,
            decreases i - j,
        {
            j += 1;
        }
        assert(j < i ==> v@[j as int].check_started_at_ms > x.check_started_at_ms);
        let removed = v.remove(i);
        proof {
            before.to_multiset_ensures();
        }
        v.insert(j, removed);
        proof {
            let rem = before.remove(i as int);
            lemma_seq_insert_multiset(rem, x, j as int);
            assert(v@.to_multiset() == before.to_multiset());
            assert(forall|k: int| 0 <= k < i ==> #[trigger] rem[k] == before[k]);
            assert(v@ =~= rem.insert(j as int, x));
            assert(forall|k: int| 0 <= k < j ==> #[trigger] v@[k] == before[k]);
            assert(v@[j as int] == x);
            assert(forall|k: int| j < k <= i ==> #[trigger] v@[k] == before[k - 1]);
            assert forall|k1: int, k2: int| 0 <= k1 < k2 < i implies before[k1].check_started_at_ms
                <= before[k2].check_started_at_ms by {
                assert(before.take(i as int)[k1] == before[k1]);
                assert(before.take(i as int)[k2] == before[k2]);
            }
            assert forall|a: int, b: int| 0 <= a < b < i + 1 implies (#[trigger] v@[a]).check_started_at_ms
                <= (#[trigger] v@[b]).check_started_at_ms by {
                if a < j {
                    assert(v@[a] == before[a]);
                }
                if a == j {
                    assert(v@[a] == x);
                }
                if a > j {
                    assert(v@[a] == before[a - 1]);
                }
                if b > j {
                    assert(v@[b] == before[b - 1]);
                    assert(j <= b - 1 < i);
                    assert(before[j as int].check_started_at_ms > x.check_started_at_ms);
                    if j < b - 1 {
                        assert(before[j as int].check_started_at_ms
                            <= before[b - 1].check_started_at_ms);
                    }
                }
            }
        }
        i += 1;
    }
    proof {
        assert(v@.take(n as int) =~= v@);
    }
}

/// Aggregates raw probe results into the window's response: the results
/// are put in start-time order (results sharing an instant keep no
/// particular order, as nothing about them depends on it), then the
/// overall and the per-region statistics are computed over that order.
pub fn get_check_metrics(raw: Vec<CheckResultRow>) -> (r: MetricsResponse)
    requires
        rows_ok(raw@),
        raw@.len() <= u32::MAX,
    ensures
        exists|s: Seq<CheckResultRow>|
            {
                &&& #[trigger] rows_sorted(s)
                &&& s.to_multiset() == raw@.to_multiset()
                &&& r.overall == summary_spec(s)
                &&& r.by_region@ == by_region_spec(s)
            },
{
    let mut rows = raw;
    let ghost orig = rows@;
    sort_results_by_time(&mut rows);
    proof {
        orig.to_multiset_ensures();
        rows@.to_multiset_ensures();
        assert forall|k: int| 0 <= k < rows@.len() implies crate::metrics::row_ok(
            #[trigger] rows@[k],
        ) by {
            assert(rows@.contains(rows@[k]));
            assert(orig.to_multiset().count(rows@[k]) > 0);
            assert(orig.contains(rows@[k]));
        }
    }
    let overall = calculate_metrics(&rows);
    let by_region = calculate_by_region_metrics(&rows);
    let r = MetricsResponse { overall, by_region };
    proof {
        assert(rows_sorted(rows@) && rows@.to_multiset() == orig.to_multiset() && r.overall
            == summary_spec(rows@) && r.by_region@ == by_region_spec(rows@));
    }
    r
}

} // verus!

verus! {

/// Numeric order on bucket starts, for the specification-level sort.
pub open spec fn u64_leq() -> spec_fn(u64, u64) -> bool {
    |x: u64, y: u64| x <= y
}

/// Two sorted sequences with the same entries are the same sequence.
proof fn lemma_sorted_perm_unique_u64(s1: Seq<u64>, s2: Seq<u64>)
    requires
        crate::sorting::sorted_u64(s1),
        crate::sorting::sorted_u64(s2),
        s1.to_multiset() == s2.to_multiset(),
    ensures
        s1 == s2,
    decreases s1.len(),
{
    s1.to_multiset_ensures();
    s2.to_multiset_ensures();
    if s1.len() == 0 {
        assert(s1 =~= s2);
    } else {
        assert(s1.contains(s1[0]));
        assert(s2.to_multiset().count(s1[0]) > 0);
        assert(s2.contains(s1[0]));
        let j2 = choose|j: int| 0 <= j < s2.len() && s2[j] == s1[0];
        assert(s2[0] <= s2[j2]);
        assert(s2.contains(s2[0]));
        assert(s1.to_multiset().count(s2[0]) > 0);
        assert(s1.contains(s2[0]));
        let j1 = choose|j: int| 0 <= j < s1.len() && s1[j] == s2[0];
        assert(s1[0] <= s1[j1]);
        assert(s1[0] == s2[0]);

        let r1 = s1.drop_first();
        let r2 = s2.drop_first();
        assert(r1 =~= s1.remove(0));
        assert(r2 =~= s2.remove(0));
        assert(r1.to_multiset() == s1.to_multiset().remove(s1[0]));
        assert(r2.to_multiset() == s2.to_multiset().remove(s2[0]));
        assert(crate::sorting::sorted_u64(r1)) by {
            assert(forall|k: int| 0 <= k < r1.len() ==> #[trigger] r1[k] == s1[k + 1]);
        }
        assert(crate::sorting::sorted_u64(r2)) by {
            assert(forall|k: int| 0 <= k < r2.len() ==> #[trigger] r2[k] == s2[k + 1]);
        }
        lemma_sorted_perm_unique_u64(r1, r2);
        assert forall|k: int| 0 <= k < s1.len() implies s1[k] == s2[k] by {
            if k > 0 {
                assert(r1[k - 1] == s1[k]);
                assert(r2[k - 1] == s2[k]);
            }
        }
        assert(s1 =~= s2);
    }
}

/// An ascending sequence with every repetition of its predecessor
/// removed.
pub open spec fn dedup_sorted(s: Seq<u64>) -> Seq<u64>
    decreases s.len(),
{
    if s.len() == 0 {
        Seq::empty()
    } else if s.len() >= 2 && s.last() == s[s.len() - 2] {
        dedup_sorted(s.drop_last())
    } else {
        dedup_sorted(s.drop_last()).push(s.last())
    }
}

/// The bucket starts that occur among the entries, ascending, each once.
pub open spec fn dates_of(s: Seq<MetricsSummaryRegionDate>) -> Seq<u64> {
    dedup_sorted(s.map_values(|e: MetricsSummaryRegionDate| e.date_ms).sort_by(u64_leq()))
}

/// The graph response: one group per distinct bucket start, ascending,
/// holding that bucket's per-region summaries in entry order.
pub open spec fn grouped_spec(s: Seq<MetricsSummaryRegionDate>) -> Seq<
    (u64, Seq<(Region, MetricsSummary)>),
> {
    dates_of(s).map_values(
        |d: u64|
            (
                d,
                s.filter(|e: MetricsSummaryRegionDate| e.date_ms == d).map_values(
                    |e: MetricsSummaryRegionDate| (e.region, e.metrics_summary),
                ),
            ),
    )
}

/// Groups the cached and freshly computed rollups of a graph query by
/// bucket start, ascending, for the response.
pub fn group_results_by_date(entries: Vec<MetricsSummaryRegionDate>) -> (r: Vec<
    (u64, Vec<(Region, MetricsSummary)>),
>)
    ensures
        r@.map_values(
            |g: (u64, Vec<(Region, MetricsSummary)>)| (g.0, g.1@),
        ) == grouped_spec(entries@),
{
    let n = entries.len();

    // The distinct bucket starts, ascending.
    let mut dates: Vec<u64> = Vec::new();
    let mut i: usize = 0;
    while i < n
        invariant
            n == entries@.len(),
            i <= n,
            dates@ == entries@.take(i as int).map_values(
                |e: MetricsSummaryRegionDate| e.date_ms,
            ),
        decreases n - i,
    {
        dates.push(entries[i].date_ms);
        proof {
            assert(dates@ =~= entries@.take(i + 1).map_values(
                |e: MetricsSummaryRegionDate| e.date_ms,
            ));
        }
        i += 1;
    }
    proof {
        assert(entries@.take(n as int) =~= entries@);
    }
    let ghost raw_dates = dates@;
    crate::sorting::sort_u64(&mut dates);
    proof {
        raw_dates.lemma_sort_by_ensures(u64_leq());
        let st_spec = raw_dates.sort_by(u64_leq());
        assert(crate::sorting::sorted_u64(st_spec)) by {
            assert(vstd::relations::sorted_by(st_spec, u64_leq()));
            assert forall|a: int, b: int| 0 <= a < b < st_spec.len() implies st_spec[a]
                <= st_spec[b] by {
                assert(u64_leq()(st_spec[a], st_spec[b]));
            }
        }
        lemma_sorted_perm_unique_u64(dates@, st_spec);
        assert(dates@ == raw_dates.sort_by(u64_leq()));
    }

    let mut distinct: Vec<u64> = Vec::new();
    let mut i: usize = 0;
    while i < n
        invariant
            n == dates@.len(),
            i <= n,
            distinct@ == dedup_sorted(dates@.take(i as int)),
        decreases n - i,
    {
        proof {
            assert(dates@.take(i + 1).drop_last() =~= dates@.take(i as int));
            assert(dates@.take(i + 1).last() == dates@[i as int]);
        }
        if i == 0 || dates[i - 1] != dates[i] {
            distinct.push(dates[i]);
        }
        i += 1;
    }
    proof {
        assert(dates@.take(n as int) =~= dates@);
        assert(distinct@ == dates_of(entries@));
    }

    // One group per distinct date, in ascending date order.
    let ghost gview = |g: (u64, Vec<(Region, MetricsSummary)>)| (g.0, g.1@);
    let ghost mk = |d: u64|
        (
            d,
            entries@.filter(|e: MetricsSummaryRegionDate| e.date_ms == d).map_values(
                |e: MetricsSummaryRegionDate| (e.region, e.metrics_summary),
            ),
        );
    let mut out: Vec<(u64, Vec<(Region, MetricsSummary)>)> = Vec::new();
    let n_dates = distinct.len();
    let mut j: usize = 0;
    while j < n_dates
        invariant
            n_dates == distinct@.len(),
            n == entries@.len(),
            j <= n_dates,
            gview == (|g: (u64, Vec<(Region, MetricsSummary)>)| (g.0, g.1@)),
            mk == (|d: u64|
                (
                    d,
                    entries@.filter(|e: MetricsSummaryRegionDate| e.date_ms == d).map_values(
                        |e: MetricsSummaryRegionDate| (e.region, e.metrics_summary),
                    ),
                )),
            out@.map_values(gview) == distinct@.take(j as int).map_values(mk),
        decreases n_dates - j,
    {
        let d = distinct[j];
        let ghost pred = |e: MetricsSummaryRegionDate| e.date_ms == d;
        let mut group: Vec<(Region, MetricsSummary)> = Vec::new();
        let mut i: usize = 0;
        while i < n
            invariant
                n == entries@.len(),
                i <= n,
                pred == (|e: MetricsSummaryRegionDate| e.date_ms == d),
                group@ == entries@.take(i as int).filter(pred).map_values(
                    |e: MetricsSummaryRegionDate| (e.region, e.metrics_summary),
                ),
            decreases n - i,
        {
            proof {
                reveal(Seq::filter);
                assert(entries@.take(i + 1).drop_last() =~= entries@.take(i as int));
                assert(entries@.take(i + 1).last() == entries@[i as int]);
            }
            let ghost group_pre = group@;
            let entry = entries[i];
            if entry.date_ms == d {
                group.push((entry.region, entry.metrics_summary));
                proof {
                    assert(group@ =~= group_pre.push(
                        (entries@[i as int].region, entries@[i as int].metrics_summary),
                    ));
                    assert(entries@.take(i + 1).filter(pred).map_values(
                        |e: MetricsSummaryRegionDate| (e.region, e.metrics_summary),
                    ) =~= entries@.take(i as int).filter(pred).map_values(
                        |e: MetricsSummaryRegionDate| (e.region, e.metrics_summary),
                    ).push((entries@[i as int].region, entries@[i as int].metrics_summary)));
                }
            } else {
                proof {
                    assert(entries@.take(i + 1).filter(pred) =~= entries@.take(i as int).filter(
                        pred,
                    ));
                }
            }
            i += 1;
        }
        proof {
            assert(entries@.take(n as int) =~= entries@);
        }
        let ghost out_pre = out@.map_values(gview);
        out.push((d, group));
        proof {
            assert(out@.map_values(gview) =~= out_pre.push(mk(distinct@[j as int])));
            assert(distinct@.take(j + 1).map_values(mk) =~= distinct@.take(j as int).map_values(
                mk,
            ).push(mk(distinct@[j as int])));
        }
        j += 1;
    }
    proof {
        assert(distinct@.take(n_dates as int) =~= distinct@);
    }
    out
}

} // verus!
