use ringmon::membership::{
    alive_cache_fresh, collapse_alive_rows, freshness_cutoff, get_time_bucket_minutes,
    heartbeat_window_buckets, parse_heartbeat_row, AliveNodes, Heartbeat, HeartbeatRow,
};
use ringmon::regions::Region;

#[test]
fn test_get_time_bucket() {
    let timestamp1 = chrono::DateTime::parse_from_rfc3339("2024-01-15T12:30:45Z")
        .unwrap()
        .timestamp_millis() as u64;
    let timestamp2 = chrono::DateTime::parse_from_rfc3339("2024-01-15T12:30:01Z")
        .unwrap()
        .timestamp_millis() as u64;
    let timestamp3 = chrono::DateTime::parse_from_rfc3339("2024-01-15T12:31:45Z")
        .unwrap()
        .timestamp_millis() as u64;

    let bucket1 = get_time_bucket_minutes(timestamp1);
    let bucket2 = get_time_bucket_minutes(timestamp2);
    let bucket3 = get_time_bucket_minutes(timestamp3);

    assert_eq!(bucket1, bucket2);
    assert_ne!(bucket1, bucket3);
}

#[test]
fn test_print_time_bucket() {
    let bucket = get_time_bucket_minutes(chrono::Utc::now().timestamp_millis() as u64);

    println!("get_time_bucket_minutes: {bucket}");
}

#[test]
fn test_parse_heartbeat_row_rejects_malformed() {
    let good = HeartbeatRow {
        process_id: 7,
        position: 42,
        timestamp_ms: 1000,
        socket_address: Some("10.0.0.1:8080".to_string()),
        region: "fsn1".to_string(),
    };
    let parsed = parse_heartbeat_row(good).unwrap();
    assert_eq!(parsed.node_id, 7);
    assert_eq!(parsed.position, 42);
    assert_eq!(parsed.region, Region::Fsn1);

    let negative = HeartbeatRow {
        process_id: 7,
        position: -1,
        timestamp_ms: 1000,
        socket_address: None,
        region: "fsn1".to_string(),
    };
    assert!(parse_heartbeat_row(negative).is_err());

    let unknown_region = HeartbeatRow {
        process_id: 7,
        position: 1,
        timestamp_ms: 1000,
        socket_address: None,
        region: "atlantis".to_string(),
    };
    assert!(parse_heartbeat_row(unknown_region).is_err());
}

#[test]
fn test_collapse_keeps_latest_per_process() {
    let rows = vec![
        HeartbeatRow {
            process_id: 1,
            position: 5,
            timestamp_ms: 1000,
            socket_address: None,
            region: "fsn1".to_string(),
        },
        // A newer row for the same process replaces the older one.
        HeartbeatRow {
            process_id: 1,
            position: 6,
            timestamp_ms: 2000,
            socket_address: None,
            region: "fsn1".to_string(),
        },
        // An older duplicate is ignored.
        HeartbeatRow {
            process_id: 1,
            position: 7,
            timestamp_ms: 500,
            socket_address: None,
            region: "fsn1".to_string(),
        },
        // Malformed rows are skipped.
        HeartbeatRow {
            process_id: 2,
            position: -3,
            timestamp_ms: 3000,
            socket_address: None,
            region: "fsn1".to_string(),
        },
        HeartbeatRow {
            process_id: 3,
            position: 1,
            timestamp_ms: 3000,
            socket_address: None,
            region: "hel1".to_string(),
        },
    ];

    let alive = collapse_alive_rows(rows);
    assert_eq!(alive.len(), 2);
    // Sorted by (position, node_id): process 3 at 1, then process 1 at 6.
    assert_eq!(alive.get(0).node_id, 3);
    assert_eq!(alive.get(0).region, Region::Hel1);
    assert_eq!(alive.get(1).node_id, 1);
    assert_eq!(alive.get(1).position, 6);
}

#[test]
fn test_insert_is_sorted_and_deduplicated() {
    let mut alive = AliveNodes::new();
    alive.insert(Heartbeat {
        node_id: 2,
        position: 10,
        socket_address: None,
        region: Region::Fsn1,
    });
    alive.insert(Heartbeat {
        node_id: 1,
        position: 10,
        socket_address: None,
        region: Region::Fsn1,
    });
    alive.insert(Heartbeat {
        node_id: 9,
        position: 3,
        socket_address: None,
        region: Region::Fsn1,
    });
    // Same (position, node_id) key: kept as-is, like an ordered set.
    alive.insert(Heartbeat {
        node_id: 1,
        position: 10,
        socket_address: Some("ignored".to_string()),
        region: Region::Hel1,
    });

    assert_eq!(alive.len(), 3);
    assert_eq!(alive.get(0).node_id, 9);
    assert_eq!(alive.get(1).node_id, 1);
    assert_eq!(alive.get(2).node_id, 2);
    assert!(alive.get(1).socket_address.is_none());
}

#[test]
fn test_filter_region_keeps_order() {
    let mut alive = AliveNodes::new();
    alive.insert(Heartbeat {
        node_id: 1,
        position: 1,
        socket_address: None,
        region: Region::Fsn1,
    });
    alive.insert(Heartbeat {
        node_id: 2,
        position: 2,
        socket_address: None,
        region: Region::Hel1,
    });
    alive.insert(Heartbeat {
        node_id: 3,
        position: 3,
        socket_address: None,
        region: Region::Fsn1,
    });

    let fsn = alive.filter_region(Region::Fsn1);
    assert_eq!(fsn.len(), 2);
    assert_eq!(fsn.get(0).node_id, 1);
    assert_eq!(fsn.get(1).node_id, 3);
}

#[test]
fn test_heartbeat_window_buckets() {
    // A 2-minute window ending at minute 10 covers buckets 8, 9 and 10.
    let now_ms = 10 * 60000;
    let buckets = heartbeat_window_buckets(now_ms, 2 * 60000);
    assert_eq!(buckets, vec![8, 9, 10]);

    let single = heartbeat_window_buckets(90_000, 0);
    assert_eq!(single, vec![1]);
}

#[test]
fn test_freshness_window() {
    assert_eq!(freshness_cutoff(100_000, 10_000), 80_000);
    assert_eq!(freshness_cutoff(5_000, 10_000), 0);

    assert!(alive_cache_fresh(95_000, 100_000, 10_000));
    assert!(!alive_cache_fresh(80_000, 100_000, 10_000));
}
