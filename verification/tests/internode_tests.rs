use ringmon::internode::{
    authorize_bearer, collect_mutation_check_ids, plan_broadcast, InterNodeMessage,
    MessageWithFilters,
};
use ringmon::membership::{AliveNodes, Heartbeat};
use ringmon::regions::Region;

#[test]
fn test_mutation_fanout_filter() {
    // Two alive peers in one region of size 1000 with replication 1:
    // P1 owns [0, 500), P2 owns [500, 0).
    let mut alive = AliveNodes::new();
    alive.insert(Heartbeat {
        node_id: 1,
        position: 0,
        socket_address: Some("10.0.0.1:8080".to_string()),
        region: Region::Fsn1,
    });
    alive.insert(Heartbeat {
        node_id: 2,
        position: 500,
        socket_address: Some("10.0.0.2:8080".to_string()),
        region: Region::Fsn1,
    });

    // A mutation for bucket 300 reaches only the peer that owns it; the
    // other peer's list is empty and the send is short-circuited.
    let messages = vec![MessageWithFilters {
        message: InterNodeMessage::ServiceCheckMutation { check_id: 77 },
        filter_bucket: Some(300),
    }];
    let plan = plan_broadcast(&alive, &messages, 1);
    assert_eq!(plan.len(), 1);
    assert_eq!(plan[0].0, "10.0.0.1:8080");
    assert_eq!(
        plan[0].1,
        vec![InterNodeMessage::ServiceCheckMutation { check_id: 77 }]
    );
}

#[test]
fn test_shutdown_broadcast_plan() {
    // A shutdown notice carries no bucket filter: every addressable peer
    // receives it.
    let mut alive = AliveNodes::new();
    alive.insert(Heartbeat {
        node_id: 0xb,
        position: 10,
        socket_address: Some("10.0.0.2:9000".to_string()),
        region: Region::Fsn1,
    });
    alive.insert(Heartbeat {
        node_id: 0xc,
        position: 20,
        socket_address: Some("10.0.0.3:9000".to_string()),
        region: Region::Hel1,
    });
    // A peer without an address cannot be contacted.
    alive.insert(Heartbeat {
        node_id: 0xd,
        position: 30,
        socket_address: None,
        region: Region::Fsn1,
    });

    let messages = vec![MessageWithFilters {
        message: InterNodeMessage::ShuttingDown { process_id: 0xa },
        filter_bucket: None,
    }];
    let plan = plan_broadcast(&alive, &messages, 1);
    let addrs: Vec<&str> = plan.iter().map(|(a, _)| a.as_str()).collect();
    assert_eq!(addrs, vec!["10.0.0.2:9000", "10.0.0.3:9000"]);
    for (_, msgs) in &plan {
        assert_eq!(
            msgs,
            &vec![InterNodeMessage::ShuttingDown { process_id: 0xa }]
        );
    }
}

#[test]
fn test_collect_mutation_check_ids() {
    let messages = vec![
        InterNodeMessage::ServiceCheckMutation { check_id: 5 },
        InterNodeMessage::ShuttingDown { process_id: 9 },
        InterNodeMessage::ServiceCheckMutation { check_id: 6 },
    ];
    assert_eq!(collect_mutation_check_ids(&messages), vec![5u128, 6u128]);
}

#[test]
fn test_authorize_bearer() {
    assert!(authorize_bearer(Some("Bearer sesame"), "sesame"));
    assert!(!authorize_bearer(Some("Bearer wrong"), "sesame"));
    assert!(!authorize_bearer(Some("sesame"), "sesame"));
    assert!(!authorize_bearer(None, "sesame"));
}
