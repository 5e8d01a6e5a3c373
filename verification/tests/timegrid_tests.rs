use ringmon::graph::{
    expected_bucket_starts, is_rounded_to_granularity, missing_bucket_starts, should_cache_bucket,
    validate_graph_window, validate_metrics_window, GraphGranularity, MetricsQueryError,
    MetricsSummaryRegionDate,
};
use ringmon::metrics::MetricsSummary;
use ringmon::regions::Region;
use ringmon::timegrid::{day_of_millis, get_dates_in_range};

fn ms_of(text: &str) -> u64 {
    chrono::DateTime::parse_from_rfc3339(text)
        .unwrap()
        .timestamp_millis() as u64
}

#[test]
fn test_is_rounded_to_gran() {
    // Rounded to hour
    let dt = ms_of("2025-11-29T10:00:00Z");
    assert!(is_rounded_to_granularity(dt, GraphGranularity::Hourly));

    // Not rounded - has minutes
    let dt = ms_of("2025-11-29T10:30:00Z");
    assert!(!is_rounded_to_granularity(dt, GraphGranularity::Hourly));

    // Not rounded - has seconds
    let dt = ms_of("2025-11-29T10:00:30Z");
    assert!(!is_rounded_to_granularity(dt, GraphGranularity::Hourly));

    // Not rounded - has milliseconds
    let dt = ms_of("2025-11-29T10:00:00.001Z");
    assert!(!is_rounded_to_granularity(dt, GraphGranularity::Hourly));

    // Midnight is rounded to hour
    let dt = ms_of("2025-11-29T00:00:00Z");
    assert!(is_rounded_to_granularity(dt, GraphGranularity::Hourly));

    // Rounded to day (midnight)
    let dt = ms_of("2025-11-29T00:00:00Z");
    assert!(is_rounded_to_granularity(dt, GraphGranularity::Daily));

    // Not rounded to day - has hours
    let dt = ms_of("2025-11-29T10:00:00Z");
    assert!(!is_rounded_to_granularity(dt, GraphGranularity::Daily));
}

#[test]
fn test_get_dates_in_range() {
    let day = |text: &str| day_of_millis(ms_of(text));

    // Single day
    let dates = get_dates_in_range(ms_of("2025-11-29T10:00:00Z"), ms_of("2025-11-29T14:00:00Z"));
    assert_eq!(dates.len(), 1);
    assert_eq!(dates[0], day("2025-11-29T00:00:00Z"));

    // Multiple days
    let dates = get_dates_in_range(ms_of("2025-11-29T10:00:00Z"), ms_of("2025-12-02T14:00:00Z"));
    assert_eq!(dates.len(), 4);
    assert_eq!(dates[0], day("2025-11-29T00:00:00Z"));
    assert_eq!(dates[3], day("2025-12-02T00:00:00Z"));

    // Edge: to at midnight (start of day)
    let dates = get_dates_in_range(ms_of("2025-11-29T10:00:00Z"), ms_of("2025-11-30T00:00:00Z"));
    assert_eq!(dates.len(), 1);

    // Edge
    let dates = get_dates_in_range(
        ms_of("2025-11-29T10:00:00Z"),
        ms_of("2025-11-30T00:00:00.001Z"),
    );
    assert_eq!(dates.len(), 2);

    // Edge: same datetime
    let from = ms_of("2025-11-29T10:00:00Z");
    let dates = get_dates_in_range(from, from);
    assert_eq!(dates.len(), 1);
}

#[test]
fn test_validate_windows() {
    let from = ms_of("2025-11-29T10:00:00Z");
    let to = ms_of("2025-11-29T14:00:00Z");

    assert_eq!(validate_metrics_window(from, to), Ok(()));
    assert_eq!(
        validate_metrics_window(to, from),
        Err(MetricsQueryError::EmptyWindow)
    );
    assert_eq!(
        validate_metrics_window(from, from),
        Err(MetricsQueryError::EmptyWindow)
    );
    assert_eq!(
        validate_metrics_window(from, from + 91 * 86_400_000),
        Err(MetricsQueryError::WindowTooLong)
    );

    assert_eq!(
        validate_graph_window(from, to, GraphGranularity::Hourly),
        Ok(())
    );
    assert_eq!(
        validate_graph_window(from + 1, to, GraphGranularity::Hourly),
        Err(MetricsQueryError::NotRounded)
    );
    assert_eq!(
        validate_graph_window(from, to, GraphGranularity::Daily),
        Err(MetricsQueryError::NotRounded)
    );
}

#[test]
fn test_bucket_grid_and_cache_misses() {
    let from = ms_of("2025-11-29T10:00:00Z");
    let to = ms_of("2025-11-29T13:00:00Z");

    let expected = expected_bucket_starts(from, to, GraphGranularity::Hourly);
    assert_eq!(
        expected,
        vec![from, from + 3_600_000, from + 7_200_000]
    );

    // The cache covers the middle bucket only.
    let cached = vec![MetricsSummaryRegionDate {
        metrics_summary: MetricsSummary {
            uptime_hundredths: 10000,
            total_checks: 1,
            successful_checks: 1,
            failed_checks: 0,
            avg_response_time_micros: 1,
            min_response_time_micros: 1,
            max_response_time_micros: 1,
            p50_response_time_micros: 1,
            p95_response_time_micros: 1,
            p99_response_time_micros: 1,
        },
        date_ms: from + 3_600_000,
        region: Region::Fsn1,
    }];
    let missing = missing_bucket_starts(&expected, &cached);
    assert_eq!(missing, vec![from, from + 7_200_000]);

    // Only buckets that lie entirely in the past are written back.
    let now = from + 2 * 3_600_000;
    assert!(should_cache_bucket(from, GraphGranularity::Hourly, now));
    assert!(!should_cache_bucket(
        from + 2 * 3_600_000,
        GraphGranularity::Hourly,
        now
    ));
}

#[test]
fn test_daily_grid() {
    let from = ms_of("2025-11-27T00:00:00Z");
    let to = ms_of("2025-11-30T00:00:00Z");
    let expected = expected_bucket_starts(from, to, GraphGranularity::Daily);
    assert_eq!(expected, vec![from, from + 86_400_000, from + 2 * 86_400_000]);
}

#[test]
fn test_get_check_metrics_response() {
    let start = ms_of("2025-11-29T10:00:00Z") as i64;
    let rows: Vec<ringmon::metrics::CheckResultRow> = (0..4)
        .map(|i| ringmon::metrics::CheckResultRow {
            check_started_at_ms: start + i * 3_600_000,
            response_time_micros: 100_000,
            matches_expected: i < 2,
            region: Region::Fsn1,
        })
        .collect();

    let response = ringmon::graph::get_check_metrics(rows);
    assert_eq!(response.overall.uptime_hundredths, 6667);
    assert_eq!(response.overall.total_checks, 4);
    assert_eq!(response.overall.successful_checks, 2);
    assert_eq!(response.by_region.len(), 1);
    assert_eq!(response.by_region[0].0, Region::Fsn1);
    assert_eq!(response.by_region[0].1.uptime_hundredths, 6667);
}

#[test]
fn test_group_results_by_date() {
    let summary = MetricsSummary {
        uptime_hundredths: 10000,
        total_checks: 1,
        successful_checks: 1,
        failed_checks: 0,
        avg_response_time_micros: 1,
        min_response_time_micros: 1,
        max_response_time_micros: 1,
        p50_response_time_micros: 1,
        p95_response_time_micros: 1,
        p99_response_time_micros: 1,
    };
    let entry = |date_ms: u64, region| ringmon::graph::MetricsSummaryRegionDate {
        metrics_summary: summary,
        date_ms,
        region,
    };

    let grouped = ringmon::graph::group_results_by_date(vec![
        entry(2000, Region::Hel1),
        entry(1000, Region::Fsn1),
        entry(2000, Region::Fsn1),
    ]);
    assert_eq!(grouped.len(), 2);
    assert_eq!(grouped[0].0, 1000);
    assert_eq!(grouped[0].1.len(), 1);
    assert_eq!(grouped[0].1[0].0, Region::Fsn1);
    assert_eq!(grouped[1].0, 2000);
    // Entries of one bucket keep their arrival order.
    assert_eq!(grouped[1].1[0].0, Region::Hel1);
    assert_eq!(grouped[1].1[1].0, Region::Fsn1);
}
