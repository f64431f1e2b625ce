//! The calls into chrono and cron that the scheduler relies on.

use vstd::prelude::*;

verus! {

/// The latest instant, in milliseconds since the Unix epoch, from which the
/// recurrence rule is ever queried: around the year 255,000, well before
/// chrono's largest representable instant.
pub const LATEST_INSTANT: i64 = 8_000_000_000_000_000;

#[verifier::external_type_specification]
#[verifier::external_body]
pub struct ExSchedule(cron::Schedule);

/// The first occurrence of a cron rule strictly after an instant, as cron
/// computes it.
pub uninterp spec fn next_occurrence(rule: cron::Schedule, t: i64) -> Option<i64>;

/// A duration of a number of milliseconds, as std builds it.
pub uninterp spec fn duration_of_millis(ms: u64) -> std::time::Duration;

/// Relies on cron's `Schedule::after(t).next()`: the first occurrence of the
/// rule strictly after the instant `t`, or none when the rule has no later
/// occurrence or `t` lies outside chrono's range. cron searches from `t` plus
/// one second, truncated to whole seconds, so an occurrence is always later
/// than `t`; that addition overflows only within a second of chrono's
/// largest instant, which the bound on `t` keeps away.
#[verifier::external_body]
pub(crate) fn next_after(schedule: &cron::Schedule, t: i64) -> (r: Option<i64>)
    requires
        t <= LATEST_INSTANT,
    ensures
        r == next_occurrence(*schedule, t),
        r matches Some(x) ==> x > t,
{
    let from = chrono::DateTime::<chrono::Utc>::from_timestamp_millis(t)?;
    schedule.after(&from).next().map(|d| d.timestamp_millis())
}

/// Relies on std's `SystemTime::now` and chrono's conversion of it into a
/// `DateTime<Utc>`: the wall clock in milliseconds since the Unix epoch,
/// negative for a clock set before the epoch.
#[verifier::external_body]
pub(crate) fn now_millis() -> (r: i64) {
    chrono::DateTime::<chrono::Utc>::from(std::time::SystemTime::now()).timestamp_millis()
}

/// Relies on std's `Duration::from_millis`: a duration of `ms` milliseconds.
#[verifier::external_body]
pub(crate) fn duration_from_millis(ms: u64) -> (r: std::time::Duration)
    ensures
        r == duration_of_millis(ms),
{
    std::time::Duration::from_millis(ms)
}

} // verus!
