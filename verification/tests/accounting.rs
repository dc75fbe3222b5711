use spur::accounting::{fairshare_halflife_days, fairshare_lookback_days, job_start_columns};

#[test]
fn halflife_defaults_and_clamps() {
    assert_eq!(fairshare_halflife_days(0), 14);
    assert_eq!(fairshare_halflife_days(1), 1);
    assert_eq!(fairshare_halflife_days(30), 30);
    assert_eq!(fairshare_halflife_days(365), 365);
    assert_eq!(fairshare_halflife_days(366), 365);
    assert_eq!(fairshare_halflife_days(u32::MAX), 365);
}

#[test]
fn lookback_is_four_halflives() {
    assert_eq!(fairshare_lookback_days(14), 56);
    assert_eq!(fairshare_lookback_days(u32::MAX), 4 * u32::MAX as i64);
}

#[test]
fn job_start_columns_convert_like_as() {
    let c = job_start_columns(7, 2, 3_000_000_000, 4, u64::MAX, None);
    assert_eq!(c.job_id, 7);
    assert_eq!(c.num_nodes, 2);
    assert_eq!(c.num_tasks, 3_000_000_000u32 as i32);
    assert_eq!(c.cpus_per_task, 4);
    assert_eq!(c.memory_mb, -1);
    assert_eq!(c.reservation, "");
    let c = job_start_columns(1, 1, 1, 1, 1, Some("maint".to_string()));
    assert_eq!(c.reservation, "maint");
}
