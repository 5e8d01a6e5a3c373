use ringmon::membership::{AliveNodes, Heartbeat};
use ringmon::placement::{calculate_node_range, choose_new_node_position, PlacementError};
use ringmon::regions::Region;
use ringmon::ring::RingRange;
use uuid::Uuid;

#[test]
fn assignment_test_no_nodes_present() {
    let state = AliveNodes::new();

    let node = Uuid::parse_str("00000000-0000-0000-0000-000000000001")
        .unwrap()
        .as_u128();
    assert_eq!(calculate_node_range(node, 1, &state), None);
}

#[test]
fn assignment_test_single_node_covers_entire_ring() {
    let mut state = AliveNodes::new();
    let node = Uuid::parse_str("00000000-0000-0000-0000-000000000001")
        .unwrap()
        .as_u128();
    state.insert(Heartbeat {
        node_id: node,
        position: 100,
        socket_address: None,
        region: Region::Fsn1,
    });

    assert_eq!(
        calculate_node_range(node, 1, &state),
        Some(RingRange {
            start: 100,
            end: 100
        })
    );
}

#[test]
fn assignment_test_poll_returns_none_when_node_not_present() {
    let mut state = AliveNodes::new();
    let node1 = Uuid::parse_str("00000000-0000-0000-0000-000000000001")
        .unwrap()
        .as_u128();
    let node2 = Uuid::parse_str("00000000-0000-0000-0000-000000000002")
        .unwrap()
        .as_u128();
    state.insert(Heartbeat {
        node_id: node1,
        position: 100,
        socket_address: None,
        region: Region::Fsn1,
    });

    assert_eq!(calculate_node_range(node2, 1, &state), None);
}

#[test]
fn assignment_test_wrapping_range() {
    let mut state = AliveNodes::new();
    let node1 = Uuid::parse_str("00000000-0000-0000-0000-000000000001")
        .unwrap()
        .as_u128();
    let node2 = Uuid::parse_str("00000000-0000-0000-0000-000000000002")
        .unwrap()
        .as_u128();
    state.insert(Heartbeat {
        node_id: node1,
        position: 100,
        socket_address: None,
        region: Region::Fsn1,
    });
    state.insert(Heartbeat {
        node_id: node2,
        position: 200,
        socket_address: None,
        region: Region::Fsn1,
    });

    // node2 wraps around to node1
    assert_eq!(
        calculate_node_range(node2, 1, &state),
        Some(RingRange {
            start: 200,
            end: 100
        })
    );
}

#[test]
fn assignment_test_poll_replication_factor() {
    let mut state = AliveNodes::new();
    let node1 = Uuid::parse_str("00000000-0000-0000-0000-000000000001")
        .unwrap()
        .as_u128();
    let node2 = Uuid::parse_str("00000000-0000-0000-0000-000000000002")
        .unwrap()
        .as_u128();
    let node3 = Uuid::parse_str("00000000-0000-0000-0000-000000000003")
        .unwrap()
        .as_u128();
    state.insert(Heartbeat {
        node_id: node1,
        position: 100,
        socket_address: None,
        region: Region::Fsn1,
    });
    state.insert(Heartbeat {
        node_id: node2,
        position: 200,
        socket_address: None,
        region: Region::Fsn1,
    });
    state.insert(Heartbeat {
        node_id: node3,
        position: 300,
        socket_address: None,
        region: Region::Fsn1,
    });

    assert_eq!(
        calculate_node_range(node1, 1, &state),
        Some(RingRange {
            start: 100,
            end: 200
        })
    );

    assert_eq!(
        calculate_node_range(node1, 2, &state),
        Some(RingRange {
            start: 100,
            end: 300
        })
    );

    // Since replication_factor > N it should gracefully degrade to the whole range
    assert_eq!(
        calculate_node_range(node1, 3, &state),
        Some(RingRange {
            start: 100,
            end: 100
        })
    );

    assert_eq!(
        calculate_node_range(node1, 30, &state),
        Some(RingRange {
            start: 100,
            end: 100
        })
    );
}

#[test]
fn test_two_nodes_1000_iterations() {
    const TEST_RING_SIZE: u32 = 10;

    let mut state = AliveNodes::new();
    let node1 = Uuid::parse_str("00000000-0000-0000-0000-000000000001")
        .unwrap()
        .as_u128();
    let node2 = Uuid::parse_str("00000000-0000-0000-0000-000000000002")
        .unwrap()
        .as_u128();
    state.insert(Heartbeat {
        node_id: node1,
        position: 3,
        socket_address: None,
        region: Region::Fsn1,
    });
    state.insert(Heartbeat {
        node_id: node2,
        position: 6,
        socket_address: None,
        region: Region::Fsn1,
    });

    for _ in 0..1000 {
        let position = choose_new_node_position(&state, TEST_RING_SIZE).unwrap();
        assert!(
            position < TEST_RING_SIZE,
            "Position {} should be less than {}",
            position,
            TEST_RING_SIZE
        );
    }
}

#[test]
fn test_empty_state_takes_position_zero() {
    let state = AliveNodes::new();
    assert_eq!(choose_new_node_position(&state, 1000), Ok(0));
}

#[test]
fn test_invalid_node_position_rejected() {
    let mut state = AliveNodes::new();
    state.insert(Heartbeat {
        node_id: 1,
        position: 1000,
        socket_address: None,
        region: Region::Fsn1,
    });
    assert_eq!(
        choose_new_node_position(&state, 1000),
        Err(PlacementError::InvalidNodePosition)
    );
}

#[test]
fn test_gap_preference() {
    // Two nodes at 0 and 100 on a ring of 10000: the large gap carries
    // nearly all the squared-gap weight, so nearly every sample lands in
    // it.
    let mut state = AliveNodes::new();
    state.insert(Heartbeat {
        node_id: 1,
        position: 0,
        socket_address: None,
        region: Region::Fsn1,
    });
    state.insert(Heartbeat {
        node_id: 2,
        position: 100,
        socket_address: None,
        region: Region::Fsn1,
    });

    let mut in_large_gap = 0u32;
    for _ in 0..10000 {
        let p = choose_new_node_position(&state, 10000).unwrap();
        assert!(p < 10000);
        if p >= 100 {
            in_large_gap += 1;
        }
    }
    assert!(
        in_large_gap > 9500,
        "only {} of 10000 samples fell in the large gap",
        in_large_gap
    );
}

#[test]
fn test_wrap_ownership() {
    // ring_size 10, replication 1: A at position 0, B at position 5.
    let mut state = AliveNodes::new();
    state.insert(Heartbeat {
        node_id: 0xa,
        position: 0,
        socket_address: None,
        region: Region::Fsn1,
    });
    state.insert(Heartbeat {
        node_id: 0xb,
        position: 5,
        socket_address: None,
        region: Region::Fsn1,
    });

    let range_a = calculate_node_range(0xa, 1, &state).unwrap();
    let range_b = calculate_node_range(0xb, 1, &state).unwrap();
    assert_eq!(range_b, RingRange { start: 5, end: 0 });
    assert_eq!(range_a, RingRange { start: 0, end: 5 });

    // Bucket 7 belongs to B, bucket 0 to A, and B's range walks 5..=9.
    assert!(range_b.contains(7) && !range_a.contains(7));
    assert!(range_a.contains(0) && !range_b.contains(0));
    assert_eq!(range_b.buckets(10), vec![5, 6, 7, 8, 9]);
}
