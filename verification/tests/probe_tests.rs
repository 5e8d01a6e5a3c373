use ringmon::probe::{
    build_check_result, first_acceptable_address, is_acceptable_address, is_safe_ip,
    select_safe_address, IpAddress, ProbeOutcome,
};
use ringmon::scheduler::ServiceCheck;

fn v4(a: u8, b: u8, c: u8, d: u8) -> IpAddress {
    IpAddress::V4 {
        octets: [a, b, c, d],
    }
}

fn v6(s0: u16, s7: u16) -> IpAddress {
    IpAddress::V6 {
        segments: [s0, 0, 0, 0, 0, 0, 0, s7],
    }
}

#[test]
fn test_is_safe_ip() {
    // Public IPs should be safe
    assert!(is_safe_ip(&v4(8, 8, 8, 8), false));
    assert!(is_safe_ip(&v4(1, 1, 1, 1), false));

    // Private IPs should not be safe
    assert!(!is_safe_ip(&v4(127, 0, 0, 1), false));
    assert!(!is_safe_ip(&v4(192, 168, 1, 1), false));
    assert!(!is_safe_ip(&v4(10, 0, 0, 1), false));
    assert!(!is_safe_ip(&v4(172, 16, 0, 1), false));
    assert!(!is_safe_ip(&v4(0, 0, 0, 0), false));

    // IPv6 localhost should not be safe
    assert!(!is_safe_ip(&v6(0, 1), false));
    // IPv6 link-local should not be safe
    assert!(!is_safe_ip(&v6(0xfe80, 1), false));

    // All IPs should be safe when accept_local is true
    assert!(is_safe_ip(&v4(127, 0, 0, 1), true));
    assert!(is_safe_ip(&v4(192, 168, 1, 1), true));
    assert!(is_safe_ip(&v4(10, 0, 0, 1), true));
}

#[test]
fn test_ssrf_guard() {
    // Loopback is skipped outside of development; a public resolver is
    // probed; link-local and unique-local targets are blocked.
    assert!(!is_safe_ip(&v4(127, 0, 0, 1), false));
    assert!(is_safe_ip(&v4(8, 8, 8, 8), false));
    assert!(!is_safe_ip(&v6(0xfe80, 1), false));
    assert!(!is_safe_ip(&v6(0xfd00, 1), false));

    // A resolution yielding only private addresses leaves nothing to probe.
    let all_private = vec![v4(127, 0, 0, 1), v4(10, 1, 2, 3), v6(0xfd00, 1)];
    assert_eq!(select_safe_address(&all_private, false), None);
    assert_eq!(select_safe_address(&all_private, true), Some(0));

    // The first safe address of the resolution wins.
    let mixed = vec![v4(192, 168, 0, 1), v4(8, 8, 8, 8), v4(1, 1, 1, 1)];
    assert_eq!(select_safe_address(&mixed, false), Some(1));
}

#[test]
fn test_acceptable_addresses() {
    let fd12_ip = IpAddress::V6 {
        segments: [0xfd12, 0xcd60, 0x9071, 0x1, 0x1000, 0x2d, 0x8558, 0x2c5f],
    };
    let fe80_ip = IpAddress::V6 {
        segments: [0xfe80, 0, 0, 0, 0xa0aa, 0x85ff, 0xfe58, 0x2c5f],
    };

    assert!(
        is_acceptable_address(&fd12_ip),
        "fd12... (ULA) should be acceptable"
    );
    assert!(
        !is_acceptable_address(&fe80_ip),
        "fe80... (link-local) should not be acceptable"
    );

    // Discovery takes the first acceptable address of the sorted list.
    let addrs = vec![fe80_ip, fd12_ip, v4(192, 168, 1, 4)];
    assert_eq!(first_acceptable_address(&addrs), Some(1));
    assert_eq!(first_acceptable_address(&vec![v4(8, 8, 8, 8)]), None);
}

#[test]
fn test_build_check_result() {
    let mut check = ServiceCheck::example();
    check.check_id = 42;
    check.expected_status_code = 200;

    let ok = build_check_result(&check, 7, 1000, 2500, ProbeOutcome::Responded {
        status_code: 200,
    })
    .unwrap();
    assert_eq!(ok.service_check_id, 42);
    assert_eq!(ok.result_id, 7);
    assert_eq!(ok.check_started_at_ms, 1000);
    assert_eq!(ok.response_time_micros, 2500);
    assert_eq!(ok.status_code, Some(200));
    assert!(ok.matches_expected);

    let wrong = build_check_result(&check, 8, 1000, 2500, ProbeOutcome::Responded {
        status_code: 500,
    })
    .unwrap();
    assert_eq!(wrong.status_code, Some(500));
    assert!(!wrong.matches_expected);

    // A down target records no status and never matches.
    let down = build_check_result(&check, 9, 1000, 2500, ProbeOutcome::TargetDown).unwrap();
    assert_eq!(down.status_code, None);
    assert!(!down.matches_expected);

    // The prober's own faults write no row at all.
    assert!(build_check_result(&check, 10, 1000, 2500, ProbeOutcome::LocalFault).is_err());
}
