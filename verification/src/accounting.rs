//! Accounting: the integer logic of fair-share factors and of job records.
//!
//! Fair-share factors are computed from the usage recorded over a window of
//! time that depends on the configured half-life; job start records are written
//! to the accounting database with its signed column types.
use vstd::prelude::*;

use crate::job::JobId;

verus! {

/// The half-life (in days) used for fair-share factors when none is set.
pub const DEFAULT_HALFLIFE_DAYS: u32 = 14;

/// The longest half-life (in days) used for fair-share factors.
pub const MAX_HALFLIFE_DAYS: u32 = 365;

/// The half-life in effect for a configured `halflife_days`: 0 means the
/// default of 14 days; any other value is clamped to `1..=365`.
pub open spec fn effective_halflife(halflife_days: u32) -> u32 {
    if halflife_days == 0 {
        DEFAULT_HALFLIFE_DAYS
    } else if halflife_days > MAX_HALFLIFE_DAYS {
        MAX_HALFLIFE_DAYS
    } else {
        halflife_days
    }
}

/// The half-life (in days) in effect for a configured `halflife_days`.
pub fn fairshare_halflife_days(halflife_days: u32) -> (days: u32)
    ensures
        days == effective_halflife(halflife_days),
        1 <= days <= MAX_HALFLIFE_DAYS,
        1 <= halflife_days <= 365 ==> days == halflife_days,
{
    if halflife_days == 0 {
        DEFAULT_HALFLIFE_DAYS
    } else if halflife_days > MAX_HALFLIFE_DAYS {
        MAX_HALFLIFE_DAYS
    } else {
        halflife_days
    }
}

/// How many days of usage the fair-share factors look back over: four
/// half-lives.
pub fn fairshare_lookback_days(halflife_days: u32) -> (days: i64)
    ensures
        days == 4 * halflife_days,
{
    halflife_days as i64 * 4
}

/// The integer columns of a job start record, in the accounting database's
/// signed column types.
pub struct JobStartColumns {
    pub job_id: i32,
    pub num_nodes: i32,
    pub num_tasks: i32,
    pub cpus_per_task: i32,
    pub memory_mb: i64,
    /// The reservation the job ran in, or the empty string.
    pub reservation: String,
}

/// The columns written for a started job: each count converted with `as` to
/// the signed column type (values past the signed range wrap, as `as` does),
/// and no reservation written as the empty string.
pub fn job_start_columns(
    job_id: JobId,
    num_nodes: u32,
    num_tasks: u32,
    cpus_per_task: u32,
    memory_mb: u64,
    reservation: Option<String>,
) -> (c: JobStartColumns)
    ensures
        c.job_id == job_id as i32,
        c.num_nodes == num_nodes as i32,
        c.num_tasks == num_tasks as i32,
        c.cpus_per_task == cpus_per_task as i32,
        c.memory_mb == memory_mb as i64,
        c.reservation@ == match reservation {
            Some(r) => r@,
            None => Seq::<char>::empty(),
        },
{
    JobStartColumns {
        job_id: job_id as i32,
        num_nodes: num_nodes as i32,
        num_tasks: num_tasks as i32,
        cpus_per_task: cpus_per_task as i32,
        memory_mb: memory_mb as i64,
        reservation: reservation.unwrap_or_default(),
    }
}

/// The half-life in effect: 0 means 14 days, a configured half-life within
/// `1..=365` is used as it is, and a longer one is cut to 365 days.
pub proof fn lemma_effective_halflife(halflife_days: u32)
    ensures
        halflife_days == 0 ==> effective_halflife(halflife_days) == 14,
        1 <= halflife_days <= 365 ==> effective_halflife(halflife_days) == halflife_days,
        halflife_days > 365 ==> effective_halflife(halflife_days) == 365,
{
}

} // verus!
