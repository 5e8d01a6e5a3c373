use ringmon::ring::RingRange;
use ringmon::scheduler::{
    dispatch_wait_millis, filter_check_ids_by_range, get_tasks_to_execute_and_reschedule,
    merge_new_checks, update_tasks, Method, ServiceCheck, Task,
};

#[test]
fn test_method_serialization() {
    assert_eq!(Method::Get.to_identifier(), "GET");
    assert_eq!(Method::from_identifier("GET"), Some(Method::Get));
    assert_eq!(Method::from_identifier("POST"), Some(Method::Post));
    assert_eq!(Method::from_identifier("get"), None);
}

#[test]
fn test_get_next_execution() {
    let now: u64 = 1_000_000_000;
    let mut check = ServiceCheck::example();
    check.check_frequency_seconds = 60;

    // Never ran: due immediately.
    let fresh = Task {
        last_execution_start: None,
        details: check.clone_check(),
    };
    assert_eq!(fresh.get_next_execution(now), now);

    // Ran 30 s ago: due in 30 s.
    let recent = Task {
        last_execution_start: Some(now - 30_000),
        details: check.clone_check(),
    };
    assert_eq!(recent.get_next_execution(now), now + 30_000);

    // Slightly late, within tolerance: keeps the theoretical slot.
    let slight = Task {
        last_execution_start: Some(now - 60_050),
        details: check.clone_check(),
    };
    assert_eq!(slight.get_next_execution(now), now - 50);

    // Badly behind: catches up to now.
    let behind = Task {
        last_execution_start: Some(now - 120_000),
        details: check,
    };
    assert_eq!(behind.get_next_execution(now), now);
}

#[test]
fn test_get_tasks_to_execute_and_reschedule_simple() {
    let now: u64 = 1_000_000_000;
    let mut queue: Vec<Task> = Vec::new();

    let mut check1 = ServiceCheck::example();
    check1.check_id = 1;
    let mut check2 = ServiceCheck::example();
    check2.check_id = 2;
    let mut check3 = ServiceCheck::example();
    check3.check_id = 3;
    let mut check4 = ServiceCheck::example();
    check4.check_id = 4;

    queue.push(Task {
        last_execution_start: Some(now - 60_000),
        details: check1,
    });
    queue.push(Task {
        last_execution_start: Some(now - 65_000),
        details: check2,
    });
    queue.push(Task {
        last_execution_start: Some(now - 10_000),
        details: check3,
    });
    queue.push(Task {
        last_execution_start: Some(now - 20_000),
        details: check4,
    });

    let (mut tasks, next_time) = get_tasks_to_execute_and_reschedule(&mut queue, now);

    tasks.sort_by_key(|t| t.check_id);

    assert_eq!(tasks.len(), 2);
    assert_eq!(tasks[0].check_id, 1);
    assert_eq!(tasks[1].check_id, 2);
    assert_eq!(next_time, Some(now + 40_000));

    // The due tasks were rescheduled back into the queue.
    assert_eq!(queue.len(), 4);
}

#[test]
fn test_get_tasks_to_execute_and_reschedule_two_tasks() {
    let now: u64 = 1_000_000_000;
    let mut queue: Vec<Task> = Vec::new();

    let mut check1 = ServiceCheck::example();
    check1.check_frequency_seconds = 100;
    let mut check2 = ServiceCheck::example();
    check2.check_id = 2;
    check2.check_frequency_seconds = 200;
    let mut check3 = ServiceCheck::example();
    check3.check_id = 3;
    check3.check_frequency_seconds = 300;

    queue.push(Task {
        last_execution_start: Some(now - 101_000),
        details: check1,
    });
    queue.push(Task {
        last_execution_start: Some(now - 200_000),
        details: check2,
    });
    queue.push(Task {
        last_execution_start: Some(now - 100_000),
        details: check3,
    });

    let (tasks, next_time) = get_tasks_to_execute_and_reschedule(&mut queue, now);

    assert_eq!(tasks.len(), 2);
    // The next execution is of one of the tasks just executed given its frequency
    assert_eq!(next_time, Some(now + 100_000));
}

#[test]
fn test_update_tasks() {
    let now: u64 = 1_000_000_000;
    let mut queue: Vec<Task> = Vec::new();

    let mut check1 = ServiceCheck::example();
    check1.check_id = 1;
    let check1_last = Some(now - 10_000);
    let mut check2 = ServiceCheck::example();
    check2.check_id = 2;
    let mut check3 = ServiceCheck::example();
    check3.check_id = 3;

    queue.push(Task {
        last_execution_start: check1_last,
        details: check1,
    });
    queue.push(Task {
        last_execution_start: Some(now - 20_000),
        details: check2,
    });
    queue.push(Task {
        last_execution_start: None,
        details: check3,
    });

    // Update check1 (preserve time), delete check2 (not in fetched),
    // keep check3 (not in update list).
    let update_list = vec![1u128, 2u128];
    let mut updated_check1 = ServiceCheck::example();
    updated_check1.check_id = 1;
    updated_check1.check_frequency_seconds = 999;

    update_tasks(&mut queue, &update_list, vec![updated_check1]);

    assert_eq!(queue.len(), 2);
    let task1 = queue.iter().find(|t| t.details.check_id == 1).unwrap();
    let task3 = queue.iter().find(|t| t.details.check_id == 3).unwrap();

    assert_eq!(task1.last_execution_start, check1_last);
    assert_eq!(task1.details.check_frequency_seconds, 999);
    assert_eq!(task3.last_execution_start, None);
}

#[test]
fn test_merge_new_checks() {
    let now: u64 = 1_000_000_000;
    let mut queue: Vec<Task> = Vec::new();

    let mut check1 = ServiceCheck::example();
    check1.check_id = 1;
    let mut check2 = ServiceCheck::example();
    check2.check_id = 2;

    queue.push(Task {
        last_execution_start: Some(now - 5_000),
        details: check1,
    });
    queue.push(Task {
        last_execution_start: Some(now - 6_000),
        details: check2,
    });

    // The new range still holds check 1, drops check 2, adds check 5.
    let mut fetched1 = ServiceCheck::example();
    fetched1.check_id = 1;
    let mut fetched5 = ServiceCheck::example();
    fetched5.check_id = 5;

    merge_new_checks(vec![fetched1, fetched5], &mut queue);

    assert_eq!(queue.len(), 2);
    let task1 = queue.iter().find(|t| t.details.check_id == 1).unwrap();
    let task5 = queue.iter().find(|t| t.details.check_id == 5).unwrap();
    // The surviving task keeps its schedule; the new one runs immediately.
    assert_eq!(task1.last_execution_start, Some(now - 5_000));
    assert_eq!(task5.last_execution_start, None);
}

#[test]
fn test_filter_check_ids_by_range() {
    let check_ids = vec![1u128, 2u128, 3u128];
    let ring_size = 10;

    let range1 = RingRange { start: 0, end: 2 };
    let filtered = filter_check_ids_by_range(check_ids.clone(), Some(range1), ring_size);
    assert_eq!(filtered, vec![1u128]);

    let range2 = RingRange { start: 0, end: 5 };
    let filtered = filter_check_ids_by_range(check_ids.clone(), Some(range2), ring_size);
    assert_eq!(filtered, vec![1u128, 2u128, 3u128]);

    let range3 = RingRange { start: 2, end: 4 };
    let filtered = filter_check_ids_by_range(check_ids.clone(), Some(range3), ring_size);
    assert_eq!(filtered, vec![2u128, 3u128]);

    // Test with None range
    let filtered = filter_check_ids_by_range(check_ids.clone(), None, ring_size);
    assert!(filtered.is_empty());
}

#[test]
fn test_dispatch_wait() {
    let now: u64 = 1_000_000;
    assert_eq!(dispatch_wait_millis(Some(now + 500), now, false), 500);
    assert_eq!(dispatch_wait_millis(Some(now - 500), now, false), 0);
    assert_eq!(dispatch_wait_millis(None, now, false), 1000);
    assert_eq!(dispatch_wait_millis(None, now, true), 100000000);
}

#[test]
fn test_next_execution_is_a_fixed_point() {
    // Querying again at the moment a task is due returns that same
    // moment, so recording the slot as the start does not shift the
    // schedule.
    let now: u64 = 1_000_000_000;
    let mut check = ServiceCheck::example();
    check.check_frequency_seconds = 60;

    for last in [None, Some(now - 30_000), Some(now - 60_050), Some(now - 120_000)] {
        let task = Task {
            last_execution_start: last,
            details: check.clone_check(),
        };
        let slot = task.get_next_execution(now);
        assert_eq!(task.get_next_execution(slot), slot);
    }
}

#[test]
fn test_no_double_dispatch_within_interval() {
    // Once dispatched, a task is not due again until one full frequency
    // interval after its recorded slot, whatever passes in between.
    let now: u64 = 1_000_000_000;
    let mut check = ServiceCheck::example();
    check.check_frequency_seconds = 60;
    let mut queue = vec![Task {
        last_execution_start: None,
        details: check,
    }];

    let (due, _) = get_tasks_to_execute_and_reschedule(&mut queue, now);
    assert_eq!(due.len(), 1);

    // One second later: nothing to do.
    let (due, next) = get_tasks_to_execute_and_reschedule(&mut queue, now + 1_000);
    assert!(due.is_empty());
    assert_eq!(next, Some(now + 60_000));

    // One full interval later the task runs again.
    let (due, _) = get_tasks_to_execute_and_reschedule(&mut queue, now + 60_000);
    assert_eq!(due.len(), 1);
}
