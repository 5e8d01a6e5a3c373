use ringmon::ring::{get_bucket_for_check, RingRange};

#[test]
fn test_into_iter() {
    const RING_SIZE: u32 = 10;

    let range = RingRange { start: 0, end: 1 };
    let mut it = range.iter(RING_SIZE);
    let mut result: Vec<u32> = Vec::new();
    while let Some(b) = it.next() {
        result.push(b);
    }
    assert_eq!(result, vec![0]);

    let range = RingRange { start: 0, end: 5 };
    let result: Vec<u32> = range.buckets(RING_SIZE);
    assert_eq!(result, vec![0, 1, 2, 3, 4]);

    let range = RingRange { start: 9, end: 1 };
    let result: Vec<u32> = range.buckets(RING_SIZE);
    assert_eq!(result, vec![9, 0]);

    let range = RingRange { start: 0, end: 0 };
    let result: Vec<u32> = range.buckets(RING_SIZE);
    assert_eq!(result, vec![0, 1, 2, 3, 4, 5, 6, 7, 8, 9]);
}

#[test]
fn test_contains_wraps() {
    let range = RingRange { start: 9, end: 1 };
    assert!(range.contains(9));
    assert!(range.contains(0));
    assert!(!range.contains(1));
    assert!(!range.contains(5));

    let full = RingRange { start: 4, end: 4 };
    for p in 0..10u32 {
        assert!(full.contains(p));
    }
}

#[test]
fn test_bucket_for_check() {
    let (version, bucket) = get_bucket_for_check(12345, 1, 1000);
    assert_eq!(version, 1);
    assert_eq!(bucket, 345);

    let (_, bucket) = get_bucket_for_check(7, 0, 10);
    assert_eq!(bucket, 7);
}
