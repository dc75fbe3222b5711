use spur::array::{
    aggregate_array_state, parse_array_spec, parse_array_spec_checked, ArrayError, MAX_ARRAY_SIZE,
};
use spur::job::JobState;

fn invalid_message(spec: &str) -> String {
    match parse_array_spec(spec) {
        Err(ArrayError::InvalidSpec(m)) => m,
        other => panic!("expected an invalid spec, got {:?}", other),
    }
}

#[test]
fn test_simple_range() {
    let spec = parse_array_spec("0-9").unwrap();
    assert_eq!(spec.task_ids, (0..=9).collect::<Vec<_>>());
    assert_eq!(spec.max_concurrent, 0);
}

#[test]
fn test_range_with_limit() {
    let spec = parse_array_spec("0-99%10").unwrap();
    assert_eq!(spec.task_ids.len(), 100);
    assert_eq!(spec.max_concurrent, 10);
}

#[test]
fn test_specific_ids() {
    let spec = parse_array_spec("1,3,5,7").unwrap();
    assert_eq!(spec.task_ids, vec![1, 3, 5, 7]);
}

#[test]
fn test_step() {
    let spec = parse_array_spec("0-10:2").unwrap();
    assert_eq!(spec.task_ids, vec![0, 2, 4, 6, 8, 10]);
}

#[test]
fn test_mixed() {
    let spec = parse_array_spec("1-5,10-15").unwrap();
    assert_eq!(spec.task_ids, vec![1, 2, 3, 4, 5, 10, 11, 12, 13, 14, 15]);
}

#[test]
fn test_single() {
    let spec = parse_array_spec("42").unwrap();
    assert_eq!(spec.task_ids, vec![42]);
}

#[test]
fn test_empty_fails() {
    assert!(parse_array_spec("").is_err());
}

#[test]
fn test_reversed_range_fails() {
    assert!(parse_array_spec("10-5").is_err());
}

#[test]
fn test_zero_step_fails() {
    assert!(parse_array_spec("0-10:0").is_err());
}

#[test]
fn error_messages_name_the_bad_text() {
    assert_eq!(invalid_message("   "), "empty spec");
    assert_eq!(invalid_message("0-9%x"), "invalid limit: x");
    assert_eq!(invalid_message("0-9%"), "invalid limit: ");
    assert_eq!(invalid_message("0-9:a"), "invalid step: a");
    assert_eq!(invalid_message("0-9:0"), "step cannot be 0");
    assert_eq!(invalid_message("a-9"), "invalid start: a");
    assert_eq!(invalid_message("-9"), "invalid start: ");
    assert_eq!(invalid_message("1-b"), "invalid end: b");
    assert_eq!(invalid_message("10-5"), "10 > 5");
    assert_eq!(invalid_message("4294967295-0"), "4294967295 > 0");
    assert_eq!(invalid_message("1,x"), "invalid id: x");
    assert_eq!(invalid_message("4294967296"), "invalid id: 4294967296");
    assert_eq!(invalid_message("1 -5"), "invalid start: 1 ");
    assert_eq!(invalid_message("1- 5"), "invalid end:  5");
}

#[test]
fn the_first_bad_part_decides() {
    assert_eq!(invalid_message("x,y"), "invalid id: x");
    assert_eq!(invalid_message("1-3,5-2,z"), "5 > 2");
}

#[test]
fn blanks_and_signs_and_limits() {
    let spec = parse_array_spec("  3, ,+1 ,, 2%+4 ").unwrap();
    assert_eq!(spec.task_ids, vec![1, 2, 3]);
    assert_eq!(spec.max_concurrent, 4);
    let spec = parse_array_spec("%7").unwrap();
    assert!(spec.task_ids.is_empty());
    assert_eq!(spec.max_concurrent, 7);
    assert_eq!(invalid_message("1%2%3"), "invalid id: 1%2");
    assert_eq!(invalid_message("1% 3"), "invalid limit:  3");
}

#[test]
fn ids_are_sorted_and_distinct() {
    let spec = parse_array_spec("9,3-6,5,0-10:5,3").unwrap();
    assert_eq!(spec.task_ids, vec![0, 3, 4, 5, 6, 9, 10]);
    let spec = parse_array_spec("7-9:5").unwrap();
    assert_eq!(spec.task_ids, vec![7]);
}

#[test]
fn too_large_counts_ids_before_dedup() {
    match parse_array_spec("0-99999") {
        Ok(spec) => assert_eq!(spec.task_ids.len(), MAX_ARRAY_SIZE),
        Err(e) => panic!("{:?}", e),
    }
    match parse_array_spec("0-99999,5") {
        Err(ArrayError::TooLarge { count, max }) => {
            assert_eq!(count, 100_001);
            assert_eq!(max, 100_000);
        }
        other => panic!("{:?}", other),
    }
    match parse_array_spec("0-4000000000") {
        Err(ArrayError::TooLarge { count, max }) => {
            assert_eq!(count, 4_000_000_001);
            assert_eq!(max, 100_000);
        }
        other => panic!("{:?}", other),
    }
}

#[test]
fn ranges_reach_u32_max() {
    let spec = parse_array_spec("4294967294-4294967295").unwrap();
    assert_eq!(spec.task_ids, vec![4294967294, 4294967295]);
    assert_eq!(spec.max_concurrent, 0);
    let spec = parse_array_spec("4294967290-4294967295").unwrap();
    assert_eq!(spec.task_ids, (4294967290..=4294967295).collect::<Vec<u32>>());
    let spec = parse_array_spec("0-4294967295:1000000000").unwrap();
    assert_eq!(spec.task_ids, vec![0, 1000000000, 2000000000, 3000000000, 4000000000]);
    let spec = parse_array_spec("1,4294967295-4294967295").unwrap();
    assert_eq!(spec.task_ids, vec![1, 4294967295]);
    let spec = parse_array_spec_checked("4294967290-4294967294:5").unwrap().unwrap();
    assert_eq!(spec.task_ids, vec![4294967290]);
    match parse_array_spec("0-4294967295") {
        Err(ArrayError::TooLarge { count, max }) => {
            assert_eq!(count, 4_294_967_296);
            assert_eq!(max, 100_000);
        }
        other => panic!("{:?}", other),
    }
}

#[test]
fn test_aggregate_empty_is_none() {
    assert_eq!(aggregate_array_state(&[]), None);
}

#[test]
fn test_aggregate_unfinished_is_none() {
    assert_eq!(
        aggregate_array_state(&[JobState::Completed, JobState::Running]),
        None
    );
    assert_eq!(
        aggregate_array_state(&[JobState::Pending, JobState::Completed]),
        None
    );
}

#[test]
fn test_aggregate_all_completed() {
    assert_eq!(
        aggregate_array_state(&[
            JobState::Completed,
            JobState::Completed,
            JobState::Completed
        ]),
        Some(JobState::Completed)
    );
}

#[test]
fn test_aggregate_mixed_failure_wins() {
    assert_eq!(
        aggregate_array_state(&[JobState::Completed, JobState::Failed]),
        Some(JobState::Failed)
    );
}

#[test]
fn test_aggregate_precedence_failed_over_others() {
    assert_eq!(
        aggregate_array_state(&[
            JobState::Cancelled,
            JobState::Timeout,
            JobState::NodeFail,
            JobState::Failed,
        ]),
        Some(JobState::Failed)
    );
    assert_eq!(
        aggregate_array_state(&[JobState::Cancelled, JobState::Timeout, JobState::NodeFail]),
        Some(JobState::NodeFail)
    );
    assert_eq!(
        aggregate_array_state(&[JobState::Cancelled, JobState::Timeout]),
        Some(JobState::Timeout)
    );
    assert_eq!(
        aggregate_array_state(&[JobState::Cancelled, JobState::Cancelled]),
        Some(JobState::Cancelled)
    );
}

#[test]
fn test_aggregate_deadline_outranks_cancellation() {
    assert_eq!(
        aggregate_array_state(&[JobState::Cancelled, JobState::Deadline]),
        Some(JobState::Deadline)
    );
    assert_eq!(
        aggregate_array_state(&[JobState::Completed, JobState::Deadline]),
        Some(JobState::Deadline)
    );
    assert_eq!(
        aggregate_array_state(&[JobState::Deadline, JobState::Failed]),
        Some(JobState::Failed)
    );
}

#[test]
fn aggregate_ignores_order_and_repetition() {
    let a = [JobState::Timeout, JobState::Completed, JobState::Cancelled];
    let b = [JobState::Cancelled, JobState::Timeout, JobState::Timeout, JobState::Completed];
    assert_eq!(aggregate_array_state(&a), Some(JobState::Timeout));
    assert_eq!(aggregate_array_state(&a), aggregate_array_state(&b));
}

#[test]
fn aggregate_waits_for_every_unfinished_state() {
    for s in [
        JobState::Pending,
        JobState::Running,
        JobState::Completing,
        JobState::Suspended,
        JobState::Preempted,
    ] {
        assert_eq!(aggregate_array_state(&[JobState::Failed, s]), None);
    }
}

#[test]
fn a_failure_is_never_masked() {
    assert_eq!(
        aggregate_array_state(&[JobState::Completed, JobState::Cancelled, JobState::Completed]),
        Some(JobState::Cancelled)
    );
}

#[test]
fn single_ids_parse_as_u32_does() {
    for text in [
        "0", "7", "+7", "007", "+", "++1", "1_0", "4294967295", "4294967296",
        "99999999999999999999", "1e3", "0x10",
    ] {
        let expected = text.parse::<u32>().ok();
        match parse_array_spec(text) {
            Ok(spec) => assert_eq!(Some(spec.task_ids), expected.map(|n| vec![n]), "{}", text),
            Err(ArrayError::InvalidSpec(m)) => {
                assert_eq!(expected, None, "{}", text);
                assert_eq!(m, format!("invalid id: {}", text));
            }
            Err(e) => panic!("{:?}", e),
        }
    }
}
