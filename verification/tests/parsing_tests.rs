use ringmon::checks::{assemble_check, parse_check_url, parse_service_check_rows, validate_check_regions, RawCheckRow};
use ringmon::regions::{parse_regions, Region};
use ringmon::text::parse_database_urls;

#[test]
fn test_url_deserialization() {
    assert!(parse_check_url("http://example.com").is_ok());
    assert!(parse_check_url("https://api.example.com/v1/health").is_ok());
    assert!(parse_check_url("http://localhost:8080/status").is_ok());
    assert!(parse_check_url("https://example.com/search?q=test&limit=10").is_ok());
    assert!(parse_check_url("https://docs.example.com/page#section").is_ok());

    assert!(parse_check_url("ftp://example.com").is_err());
    assert!(parse_check_url("ws://example.com").is_err());
    assert!(parse_check_url("file:///etc/passwd").is_err());
    assert!(parse_check_url("javascript:alert(1)").is_err());

    assert!(parse_check_url("not a url").is_err());
    assert!(parse_check_url("").is_err());
}

#[test]
fn test_region_identifiers() {
    assert_eq!(Region::Fsn1.to_identifier(), "fsn1");
    assert_eq!(Region::from_identifier("hel1"), Ok(Region::Hel1));
    assert!(Region::from_identifier("mars").is_err());
    assert_eq!(Region::get_all_region_identifiers(), vec!["fsn1", "hel1", "nbg1"]);
    for region in Region::all() {
        assert_eq!(Region::from_identifier(region.to_identifier()), Ok(region));
    }
}

#[test]
fn test_parse_database_urls() {
    let urls = parse_database_urls("db1:9042, db2:9042 ,,  db3:9042  ");
    assert_eq!(urls, vec!["db1:9042", "db2:9042", "db3:9042"]);

    assert_eq!(parse_database_urls(""), Vec::<&str>::new());
    assert_eq!(parse_database_urls("solo"), vec!["solo"]);
}

#[test]
fn test_parse_regions() {
    let all = parse_regions(None).unwrap();
    assert_eq!(all, vec![Region::Fsn1, Region::Hel1, Region::Nbg1]);

    let some = parse_regions(Some("hel1, fsn1")).unwrap();
    assert_eq!(some, vec![Region::Hel1, Region::Fsn1]);

    assert!(parse_regions(Some("hel1, atlantis")).is_err());
    assert!(parse_regions(Some("")).is_err());
}

fn raw_row(region: &str, method: &str, url: &str, freq: i32) -> RawCheckRow {
    RawCheckRow {
        check_id: 1,
        check_name: "check".to_string(),
        url: url.to_string(),
        http_method: method.to_string(),
        check_frequency_seconds: freq,
        timeout_seconds: 30,
        expected_status_code: 200,
        request_headers: Vec::new(),
        request_body: None,
        is_enabled: true,
        created_at_ms: 0,
        region: region.to_string(),
    }
}

#[test]
fn test_parse_service_check_rows_skips_malformed() {
    let rows = vec![
        raw_row("fsn1", "GET", "https://example.com/a", 60),
        raw_row("nowhere", "GET", "https://example.com/b", 60),
        raw_row("fsn1", "FETCH", "https://example.com/c", 60),
        raw_row("fsn1", "GET", "", 60),
        raw_row("fsn1", "GET", "https://example.com/d", -1),
        raw_row("hel1", "POST", "https://example.com/e", 120),
    ];

    let checks = parse_service_check_rows(rows);
    assert_eq!(checks.len(), 2);
    assert_eq!(checks[0].url, "https://example.com/a");
    assert_eq!(checks[0].region, Region::Fsn1);
    assert_eq!(checks[1].url, "https://example.com/e");
    assert_eq!(checks[1].region, Region::Hel1);
}

#[test]
fn test_assemble_check() {
    // No rows: the check does not exist.
    assert!(matches!(assemble_check(9, Vec::new()), Ok(None)));

    // Two region rows, one with an unknown region identifier.
    let rows = vec![
        raw_row("fsn1", "GET", "https://example.com", 60),
        raw_row("unknown", "GET", "https://example.com", 60),
        raw_row("hel1", "GET", "https://example.com", 60),
    ];
    let check = assemble_check(9, rows).unwrap().unwrap();
    assert_eq!(check.check_id, 9);
    assert_eq!(check.regions, vec![Region::Fsn1, Region::Hel1]);
    assert_eq!(check.data.check_name, "check");
    assert_eq!(check.data.check_frequency_seconds, 60);

    // A first row with an unknown method fails the lookup.
    let bad = vec![raw_row("fsn1", "FETCH", "https://example.com", 60)];
    assert!(assemble_check(9, bad).is_err());

    // A check must name at least one region.
    assert!(validate_check_regions(&Vec::new()).is_err());
    assert!(validate_check_regions(&vec![Region::Nbg1]).is_ok());
}
