use spur::burst_buffer::{free_capacity_gb, parse_capacity_gb, BbStageState};

#[test]
fn capacity_parses_plain_gb() {
    assert_eq!(parse_capacity_gb("capacity=100"), 100);
}

#[test]
fn capacity_tolerates_unit_suffix() {
    assert_eq!(parse_capacity_gb("capacity=250GB"), 250);
}

#[test]
fn capacity_ignores_stage_directives() {
    assert_eq!(parse_capacity_gb("stage_in:cp a b;stage_out:cp c d"), 0);
}

#[test]
fn capacity_combines_with_stage_directives() {
    assert_eq!(parse_capacity_gb("capacity=64;stage_in:cp /data /tmp"), 64);
}

#[test]
fn capacity_sums_multiple_directives() {
    assert_eq!(parse_capacity_gb("capacity=10;capacity=5"), 15);
}

#[test]
fn capacity_empty_and_garbage_is_zero() {
    assert_eq!(parse_capacity_gb(""), 0);
    assert_eq!(parse_capacity_gb("capacity=abc"), 0);
    assert_eq!(parse_capacity_gb("nonsense"), 0);
}

#[test]
fn free_capacity_saturates() {
    assert_eq!(free_capacity_gb(100, 30), 70);
    assert_eq!(free_capacity_gb(20, 50), 0);
}

#[test]
fn stage_state_default_is_none() {
    assert_eq!(BbStageState::default(), BbStageState::Unreserved);
}

#[test]
fn capacity_trims_directive_and_value() {
    assert_eq!(parse_capacity_gb("  capacity= 12 GB ; capacity=3"), 15);
    assert_eq!(parse_capacity_gb("\u{a0}capacity=7\u{3000}"), 7);
    assert_eq!(parse_capacity_gb("Capacity=7"), 0);
    assert_eq!(parse_capacity_gb("capacity =7"), 0);
    assert_eq!(parse_capacity_gb("capacity=+7"), 0);
    assert_eq!(parse_capacity_gb("capacity=007x"), 7);
}

#[test]
fn capacity_saturates() {
    assert_eq!(parse_capacity_gb("capacity=18446744073709551615"), u64::MAX);
    assert_eq!(parse_capacity_gb("capacity=18446744073709551616"), 0);
    assert_eq!(
        parse_capacity_gb("capacity=18446744073709551615;capacity=1"),
        u64::MAX
    );
}

#[test]
fn joined_directives_add_up() {
    let a = "capacity=40;stage_in:x";
    let b = "capacity=2";
    let joined = format!("{};{}", a, b);
    assert_eq!(
        parse_capacity_gb(&joined),
        parse_capacity_gb(a).saturating_add(parse_capacity_gb(b))
    );
    assert_eq!(parse_capacity_gb(&joined), 42);
}

#[test]
fn stage_only_strings_reserve_nothing() {
    assert_eq!(parse_capacity_gb("stage_in:cp capacity a;stage_out:x=1"), 0);
    assert_eq!(parse_capacity_gb("stage_in:echo capacity=5;stage_out:cp capacity=9 b"), 0);
}
