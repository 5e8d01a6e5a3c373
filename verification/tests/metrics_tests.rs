use ringmon::metrics::{
    calculate_by_region_metrics, calculate_overall_metrics, calculate_uptime_hundredths,
    CheckResultRow,
};
use ringmon::regions::Region;

fn rows_hourly(
    response_times: Vec<(i64, bool)>,
    region: Region,
    start_ms: i64,
) -> Vec<CheckResultRow> {
    response_times
        .into_iter()
        .enumerate()
        .map(|(i, (rt, success))| CheckResultRow {
            check_started_at_ms: start_ms + (i as i64) * 3_600_000,
            response_time_micros: rt,
            matches_expected: success,
            region,
        })
        .collect()
}

#[test]
fn test_calculate_overall_all_successful() {
    let start = chrono::DateTime::parse_from_rfc3339("2025-11-29T10:00:00Z")
        .unwrap()
        .timestamp_millis();
    let results = rows_hourly(
        vec![(100000, true), (150000, true), (200000, true)],
        Region::Fsn1,
        start,
    );
    let metrics = calculate_overall_metrics(&results);

    assert_eq!(metrics.uptime_hundredths, 10000);
    assert_eq!(metrics.avg_response_time_micros, 150000); // (100+150+200)/3 = 150
    assert!(metrics.p95_response_time_micros > 0);
    assert!(metrics.p99_response_time_micros >= metrics.p95_response_time_micros);
}

#[test]
fn test_calculate_overall_mixed() {
    let start = chrono::DateTime::parse_from_rfc3339("2025-11-29T10:00:00Z")
        .unwrap()
        .timestamp_millis();
    let results = rows_hourly(
        vec![
            (100000, true),
            (150000, true),
            (500000, false),
            (600000, false),
        ],
        Region::Fsn1,
        start,
    );
    let metrics = calculate_overall_metrics(&results);

    // Time-weighted: 4 checks 1h apart, first 2 succeed
    // c0->c1: 1h up, c1->c2: 1h up, c2->c3: 1h down = 2h/3h = 66.67%
    assert_eq!(metrics.uptime_hundredths, 6667);
    assert!(metrics.avg_response_time_micros > 0);
}

#[test]
fn test_calculate_overall_empty() {
    let metrics = calculate_overall_metrics(&Vec::new());

    assert_eq!(metrics.uptime_hundredths, 0);
    assert_eq!(metrics.avg_response_time_micros, 0);
}

#[test]
fn test_calculate_by_region() {
    let start = chrono::DateTime::parse_from_rfc3339("2025-11-29T10:00:00Z")
        .unwrap()
        .timestamp_millis();
    let mut results = rows_hourly(vec![(100000, true), (150000, true)], Region::Fsn1, start);
    results.extend(rows_hourly(
        vec![(110000, true), (130000, true)],
        Region::Hel1,
        start,
    ));
    results.sort_by_key(|r| r.check_started_at_ms);

    let by_region = calculate_by_region_metrics(&results);

    assert_eq!(by_region.len(), 2);

    // Check Fsn1 metrics
    let fsn1_metrics = by_region
        .iter()
        .find(|(r, _)| *r == Region::Fsn1)
        .map(|(_, m)| *m)
        .unwrap();
    assert_eq!(fsn1_metrics.uptime_hundredths, 10000);
    assert_eq!(fsn1_metrics.avg_response_time_micros, 125000); // (100+150)/2

    // Check Hel1 metrics
    let hel1_metrics = by_region
        .iter()
        .find(|(r, _)| *r == Region::Hel1)
        .map(|(_, m)| *m)
        .unwrap();
    assert_eq!(hel1_metrics.uptime_hundredths, 10000);
    assert_eq!(hel1_metrics.avg_response_time_micros, 120000); // (110+130)/2
}

#[test]
fn test_calculate_by_region_mixed_success() {
    let start = chrono::DateTime::parse_from_rfc3339("2025-11-29T10:00:00Z")
        .unwrap()
        .timestamp_millis();
    let results = rows_hourly(
        vec![
            (100000, true),
            (150000, true),
            (200000, false),
            (300000, false),
        ],
        Region::Fsn1,
        start,
    );

    let by_region = calculate_by_region_metrics(&results);

    assert_eq!(by_region.len(), 1);
    let (region, fsn1_metrics) = by_region[0];
    assert_eq!(region, Region::Fsn1);
    // Time-weighted: 4 checks 1h apart, first 2 succeed = 2h/3h = 66.67%
    assert_eq!(fsn1_metrics.uptime_hundredths, 6667);
    assert!(fsn1_metrics.avg_response_time_micros > 0);
}

#[test]
fn test_percentile_calculation() {
    let start = chrono::DateTime::parse_from_rfc3339("2025-11-29T10:00:00Z")
        .unwrap()
        .timestamp_millis();
    let results = rows_hourly(
        vec![
            (100000, true),
            (200000, true),
            (300000, true),
            (400000, true),
            (500000, true),
        ],
        Region::Fsn1,
        start,
    );

    let metrics = calculate_overall_metrics(&results);

    // With sorted [100, 200, 300, 400, 500] microseconds
    assert_eq!(metrics.avg_response_time_micros, 300000);
    assert!(metrics.p95_response_time_micros >= metrics.avg_response_time_micros);
    assert!(metrics.p99_response_time_micros >= metrics.p95_response_time_micros);
}

#[test]
fn test_time_weighted_uptime_rebucketed() {
    // Four probes one hour apart at 10:00..13:00 UTC, succeeding,
    // succeeding, failing, failing: two of the three covered hours are up.
    let start = chrono::DateTime::parse_from_rfc3339("2025-11-29T10:00:00Z")
        .unwrap()
        .timestamp_millis();
    let rows = rows_hourly(
        vec![(1000, true), (1000, true), (1000, false), (1000, false)],
        Region::Fsn1,
        start,
    );

    assert_eq!(calculate_uptime_hundredths(&rows), 6667);

    // Rebucketed hourly, each bucket holds a single probe: all-or-nothing.
    let per_hour: Vec<u32> = (0..3)
        .map(|h| {
            let lo = start + h * 3_600_000;
            let hi = lo + 3_600_000;
            let bucket: Vec<CheckResultRow> = rows
                .iter()
                .copied()
                .filter(|r| r.check_started_at_ms >= lo && r.check_started_at_ms < hi)
                .collect();
            calculate_uptime_hundredths(&bucket)
        })
        .collect();
    assert_eq!(per_hour, vec![10000, 10000, 0]);
}

#[test]
fn test_uptime_single_and_same_instant() {
    let one_up = vec![CheckResultRow {
        check_started_at_ms: 50,
        response_time_micros: 10,
        matches_expected: true,
        region: Region::Fsn1,
    }];
    assert_eq!(calculate_uptime_hundredths(&one_up), 10000);

    let one_down = vec![CheckResultRow {
        matches_expected: false,
        ..one_up[0]
    }];
    assert_eq!(calculate_uptime_hundredths(&one_down), 0);

    // Probes sharing one instant fall back to the success ratio.
    let same_instant = vec![
        one_up[0],
        one_down[0],
        CheckResultRow {
            matches_expected: false,
            ..one_up[0]
        },
    ];
    assert_eq!(calculate_uptime_hundredths(&same_instant), 3333);
}
