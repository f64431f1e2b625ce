use std::cell::{Cell, RefCell};
use std::str::FromStr;
use std::time::Duration;

use cron::Schedule;
use job_scheduler::catch_up::{due_occurrences, is_due};
use job_scheduler::job::{clock_reading, Job};
use job_scheduler::scheduler::JobScheduler;
use job_scheduler::wait::{wait_millis, IDLE_POLL_MILLIS};

const SECOND: i64 = 1_000;
const MINUTE: i64 = 60 * SECOND;
/// 2024-01-01T10:00:00Z in milliseconds since the Unix epoch.
const TEN_O_CLOCK: i64 = 1_704_103_200_000;

fn every_minute() -> Schedule {
    Schedule::from_str("0 * * * * *").unwrap()
}

fn boxed<'a>(f: impl FnMut() + 'a) -> Box<dyn FnMut() + 'a> {
    Box::new(f)
}

#[test]
fn fresh_job_first_tick_only_records_the_instant() {
    let count = Cell::new(0);
    let mut job = Job::new(every_minute(), || count.set(count.get() + 1));
    assert_eq!(job.last_tick(), None);
    assert_eq!(job.missed_run_limit(), 1);
    let runs = job.tick_at(TEN_O_CLOCK + 3 * MINUTE + 30 * SECOND);
    assert!(runs.is_empty());
    assert_eq!(count.get(), 0);
    assert_eq!(job.last_tick(), Some(TEN_O_CLOCK + 3 * MINUTE + 30 * SECOND));
}

#[test]
fn limit_one_replays_only_the_first_missed_occurrence() {
    let count = Cell::new(0);
    let mut job = Job::new(every_minute(), || count.set(count.get() + 1));
    assert!(job.tick_at(TEN_O_CLOCK).is_empty());
    assert_eq!(job.last_tick(), Some(TEN_O_CLOCK));
    assert_eq!(count.get(), 0);

    let second = TEN_O_CLOCK + 3 * MINUTE + 30 * SECOND;
    let runs = job.tick_at(second);
    assert_eq!(runs, vec![TEN_O_CLOCK + MINUTE]);
    assert_eq!(count.get(), 1);
    assert_eq!(job.last_tick(), Some(second));

    let third = second + SECOND;
    assert!(job.tick_at(third).is_empty());
    assert_eq!(count.get(), 1);
    assert_eq!(job.last_tick(), Some(third));
}

#[test]
fn unbounded_limit_replays_every_missed_occurrence_in_order() {
    let seen = RefCell::new(Vec::new());
    let mut job = Job::new(every_minute(), || seen.borrow_mut().push(())).with_missed_run_limit(0);
    assert_eq!(job.missed_run_limit(), 0);
    job.tick_at(TEN_O_CLOCK);
    let runs = job.tick_at(TEN_O_CLOCK + 3 * MINUTE + 30 * SECOND);
    assert_eq!(
        runs,
        vec![TEN_O_CLOCK + MINUTE, TEN_O_CLOCK + 2 * MINUTE, TEN_O_CLOCK + 3 * MINUTE]
    );
    assert_eq!(seen.borrow().len(), 3);
}

#[test]
fn positive_limit_caps_the_replayed_occurrences() {
    let count = Cell::new(0);
    let mut job = Job::new(every_minute(), || count.set(count.get() + 1)).with_missed_run_limit(2);
    job.tick_at(TEN_O_CLOCK);
    let runs = job.tick_at(TEN_O_CLOCK + 5 * MINUTE);
    assert_eq!(runs, vec![TEN_O_CLOCK + MINUTE, TEN_O_CLOCK + 2 * MINUTE]);
    assert_eq!(count.get(), 2);
    // The occurrences beyond the cap are dropped, not carried over.
    assert!(job.tick_at(TEN_O_CLOCK + 5 * MINUTE + SECOND).is_empty());
    assert_eq!(count.get(), 2);
}

#[test]
fn occurrence_exactly_at_now_is_run() {
    let count = Cell::new(0);
    let mut job = Job::new(every_minute(), || count.set(count.get() + 1));
    job.tick_at(TEN_O_CLOCK + 30 * SECOND);
    assert_eq!(job.tick_at(TEN_O_CLOCK + MINUTE), vec![TEN_O_CLOCK + MINUTE]);
    assert_eq!(count.get(), 1);
}

#[test]
fn clock_going_back_runs_nothing_and_records_the_earlier_instant() {
    let count = Cell::new(0);
    let mut job = Job::new(every_minute(), || count.set(count.get() + 1)).with_missed_run_limit(0);
    job.tick_at(TEN_O_CLOCK + 10 * MINUTE);
    assert!(job.tick_at(TEN_O_CLOCK).is_empty());
    assert_eq!(count.get(), 0);
    assert_eq!(job.last_tick(), Some(TEN_O_CLOCK));
}

#[test]
fn tick_on_the_wall_clock_records_a_recent_instant() {
    let mut job = Job::new(every_minute(), || {});
    assert!(job.tick().is_empty());
    let recorded = job.last_tick().unwrap();
    let since_epoch = std::time::SystemTime::now()
        .duration_since(std::time::UNIX_EPOCH)
        .unwrap()
        .as_millis() as i64;
    assert!(recorded <= since_epoch && since_epoch - recorded < 60_000);
}

#[test]
fn due_occurrences_takes_the_leading_due_ones() {
    let occ = vec![1, 2, 3, 10];
    assert_eq!(due_occurrences(&occ, 2, 5), vec![1, 2]);
    assert_eq!(due_occurrences(&occ, 0, 5), vec![1, 2, 3]);
    assert_eq!(due_occurrences(&occ, 1, 5), vec![1]);
    assert_eq!(due_occurrences(&occ, 9, 100), vec![1, 2, 3, 10]);
    assert_eq!(due_occurrences(&occ, 0, 0), Vec::<i64>::new());
    assert_eq!(due_occurrences(&Vec::new(), 0, 5), Vec::<i64>::new());
    assert_eq!(due_occurrences(&occ, 0, 3), vec![1, 2, 3]);
}

#[test]
fn run_count_is_capped_count_of_due_occurrences() {
    let occ = vec![10, 20, 30, 40, 50];
    for limit in 0..7usize {
        let due = due_occurrences(&occ, limit, 35).len();
        let expected = if limit == 0 { 3 } else { limit.min(3) };
        assert_eq!(due, expected);
    }
}

#[test]
fn is_due_only_for_an_occurrence_not_after_now() {
    assert!(is_due(Some(5), 5));
    assert!(is_due(Some(4), 5));
    assert!(!is_due(Some(6), 5));
    assert!(!is_due(None, 5));
}

#[test]
fn wait_millis_takes_the_shortest_gap() {
    assert_eq!(wait_millis(&Vec::new(), 0), IDLE_POLL_MILLIS);
    assert_eq!(IDLE_POLL_MILLIS, 500);
    assert_eq!(wait_millis(&vec![None], 100), 0);
    assert_eq!(wait_millis(&vec![Some(110), None, Some(103)], 100), 3);
    assert_eq!(wait_millis(&vec![Some(90), Some(103)], 100), 0);
    assert_eq!(wait_millis(&vec![Some(i64::MAX)], i64::MIN), u64::MAX);
}

#[test]
fn empty_scheduler_waits_the_idle_interval() {
    let scheduler: JobScheduler<fn()> = JobScheduler::new();
    assert_eq!(scheduler.len(), 0);
    assert_eq!(scheduler.millis_till_next_job_at(TEN_O_CLOCK), 500);
    assert_eq!(scheduler.time_till_next_job(), Duration::from_millis(500));
    let by_default: JobScheduler<fn()> = JobScheduler::default();
    assert_eq!(by_default.len(), 0);
}

#[test]
fn scheduler_waits_for_the_sooner_of_two_jobs() {
    let mut scheduler: JobScheduler<fn()> = JobScheduler::new();
    let now = TEN_O_CLOCK + 50 * SECOND;
    scheduler.add(Job::new(every_minute(), || {}));
    assert_eq!(scheduler.millis_till_next_job_at(now), 10_000);
    scheduler.add(Job::new(Schedule::from_str("52 * * * * *").unwrap(), || {}));
    assert_eq!(scheduler.len(), 2);
    assert_eq!(scheduler.millis_till_next_job_at(now), 2_000);
}

#[test]
fn scheduler_wait_on_the_wall_clock_is_at_most_a_minute() {
    let mut scheduler: JobScheduler<fn()> = JobScheduler::new();
    scheduler.add(Job::new(every_minute(), || {}));
    let wait = scheduler.time_till_next_job();
    assert!(wait > Duration::ZERO && wait <= Duration::from_secs(60));
}

#[test]
fn scheduler_ticks_jobs_in_insertion_order() {
    let log = RefCell::new(Vec::new());
    let mut scheduler: JobScheduler<Box<dyn FnMut() + '_>> = JobScheduler::new();
    scheduler.add(Job::new(every_minute(), boxed(|| log.borrow_mut().push("first"))));
    scheduler.add(
        Job::new(every_minute(), boxed(|| log.borrow_mut().push("second"))).with_missed_run_limit(0),
    );
    let first = scheduler.tick_at(TEN_O_CLOCK);
    assert_eq!(first, vec![Vec::<i64>::new(), Vec::new()]);
    let runs = scheduler.tick_at(TEN_O_CLOCK + 2 * MINUTE);
    assert_eq!(
        runs,
        vec![vec![TEN_O_CLOCK + MINUTE], vec![TEN_O_CLOCK + MINUTE, TEN_O_CLOCK + 2 * MINUTE]]
    );
    assert_eq!(*log.borrow(), vec!["first", "second", "second"]);
}

#[test]
fn scheduler_due_at_leaves_the_callback_and_the_record_to_the_driver() {
    let count = Cell::new(0);
    let mut scheduler = JobScheduler::new();
    scheduler.add(Job::new(every_minute(), || count.set(count.get() + 1)).with_missed_run_limit(0));
    assert!(scheduler.due_at(0, TEN_O_CLOCK).is_empty());
    scheduler.record_tick(0, TEN_O_CLOCK);
    let due = scheduler.due_at(0, TEN_O_CLOCK + 2 * MINUTE);
    assert_eq!(due, vec![TEN_O_CLOCK + MINUTE, TEN_O_CLOCK + 2 * MINUTE]);
    // Deciding alone records nothing: asking again gives the same runs.
    assert_eq!(scheduler.due_at(0, TEN_O_CLOCK + 2 * MINUTE), due);
    assert_eq!(count.get(), 0);
    for _ in &due {
        (scheduler.callback(0))();
    }
    scheduler.record_tick(0, TEN_O_CLOCK + 2 * MINUTE);
    assert_eq!(count.get(), 2);
    assert!(scheduler.due_at(0, TEN_O_CLOCK + 2 * MINUTE + SECOND).is_empty());
}

#[test]
fn job_take_due_decides_and_records_without_running() {
    let count = Cell::new(0);
    let mut job = Job::new(every_minute(), || count.set(count.get() + 1)).with_missed_run_limit(3);
    assert!(job.take_due(TEN_O_CLOCK).is_empty());
    let due = job.take_due(TEN_O_CLOCK + 10 * MINUTE);
    assert_eq!(due, vec![TEN_O_CLOCK + MINUTE, TEN_O_CLOCK + 2 * MINUTE, TEN_O_CLOCK + 3 * MINUTE]);
    assert_eq!(job.last_tick(), Some(TEN_O_CLOCK + 10 * MINUTE));
    assert_eq!(count.get(), 0);
}

#[test]
fn scheduler_tick_on_the_wall_clock_starts_every_job() {
    let count = Cell::new(0);
    let mut scheduler = JobScheduler::new();
    scheduler.add(Job::new(every_minute(), || count.set(count.get() + 1)));
    assert_eq!(scheduler.tick(), vec![Vec::<i64>::new()]);
    assert_eq!(count.get(), 0);
    assert!(scheduler.due_at(0, i64::MIN).is_empty());
}

#[test]
fn clock_reading_is_the_current_instant() {
    let since_epoch = std::time::SystemTime::now()
        .duration_since(std::time::UNIX_EPOCH)
        .unwrap()
        .as_millis() as i64;
    let read = clock_reading();
    assert!(read >= since_epoch && read - since_epoch < 60_000);
}
