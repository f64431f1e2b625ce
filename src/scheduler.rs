//! An append-only collection of jobs, ticked in the order they were added.

use vstd::prelude::*;
use crate::bindings::{
    duration_from_millis, duration_of_millis, next_after, next_occurrence,
    LATEST_INSTANT,
};
use crate::catch_up::{all_after, strictly_ascending};
use crate::job::{always_callable, clock_reading, Job};
use crate::wait::{lemma_sooner_job_shortens_wait, wait_millis, wait_of, IDLE_POLL_MILLIS};

verus! {

/// Each job's next occurrence after `now`, in the order of the jobs; none
/// for an instant beyond the range the rules can be queried from.
pub open spec fn next_occurrences_of<F>(jobs: Seq<Job<F>>, now: i64) -> Seq<Option<i64>> {
    Seq::new(
        jobs.len(),
        |i: int|
            if now <= LATEST_INSTANT {
                next_occurrence(jobs[i].spec_schedule(), now)
            } else {
                None
            },
    )
}

/// The wait, in milliseconds, before the next tick of `jobs` as seen from
/// `now`.
pub open spec fn wait_for_jobs<F>(jobs: Seq<Job<F>>, now: i64) -> int {
    wait_of(next_occurrences_of(jobs, now), now)
}

/// Adding a job whose next occurrence after `now` is sooner than that of
/// every job already held strictly shortens the wait, to exactly the gap to
/// that occurrence, as long as some job already held has a next occurrence.
pub proof fn lemma_sooner_job_shortens_scheduler_wait<F>(jobs: Seq<Job<F>>, job: Job<F>, now: i64, t: i64)
    requires
        now <= LATEST_INSTANT,
        exists|i: int| 0 <= i < jobs.len() && #[trigger] next_occurrence(jobs[i].spec_schedule(), now) is Some,
        forall|i: int| 0 <= i < jobs.len() && next_occurrence(jobs[i].spec_schedule(), now) is Some
            ==> now < #[trigger] next_occurrence(jobs[i].spec_schedule(), now)->Some_0,
        forall|i: int| 0 <= i < jobs.len() && next_occurrence(jobs[i].spec_schedule(), now) is Some
            ==> t < #[trigger] next_occurrence(jobs[i].spec_schedule(), now)->Some_0,
        next_occurrence(job.spec_schedule(), now) == Some(t),
        now < t,
    ensures
        wait_for_jobs(jobs.push(job), now) == t - now,
        wait_for_jobs(jobs.push(job), now) < wait_for_jobs(jobs, now),
{
    let nexts = next_occurrences_of(jobs, now);
    assert(next_occurrences_of(jobs.push(job), now) =~= nexts.push(Some(t)));
    let i = choose|i: int| 0 <= i < jobs.len() && #[trigger] next_occurrence(jobs[i].spec_schedule(), now) is Some;
    assert(nexts[i] is Some);
    assert forall|k: int| 0 <= k < nexts.len() && nexts[k] is Some implies now < #[trigger] nexts[k]->Some_0
        && t < nexts[k]->Some_0 by {
        assert(nexts[k] == next_occurrence(jobs[k].spec_schedule(), now));
    }
    lemma_sooner_job_shortens_wait(nexts, now, t);
}

/// Jobs in the order they were added; none is ever removed.
pub struct JobScheduler<F> {
    jobs: Vec<Job<F>>,
}

impl<F> JobScheduler<F> {
    /// The jobs held, in the order they were added.
    pub closed spec fn spec_jobs(&self) -> Seq<Job<F>> {
        self.jobs@
    }

    /// Every job held is well formed.
    pub open spec fn well_formed(&self) -> bool {
        forall|i: int| 0 <= i < self.spec_jobs().len() ==> #[trigger] self.spec_jobs()[i].well_formed()
    }

    /// A scheduler that holds no job.
    pub fn new() -> (r: JobScheduler<F>)
        ensures
            r.spec_jobs().len() == 0,
            r.well_formed(),
    {
        JobScheduler { jobs: Vec::new() }
    }

    /// Appends `job` after the jobs already held.
    pub fn add(&mut self, job: Job<F>)
        requires
            old(self).well_formed(),
            job.well_formed(),
        ensures
            final(self).spec_jobs() == old(self).spec_jobs().push(job),
            final(self).well_formed(),
    {
        self.jobs.push(job);
        proof {
            assert forall|i: int| 0 <= i < self.spec_jobs().len() implies
                #[trigger] self.spec_jobs()[i].well_formed() by {
                if i < old(self).spec_jobs().len() {
                    assert(self.spec_jobs()[i] == old(self).spec_jobs()[i]);
                }
            }
        }
    }

    /// How many jobs are held.
    pub fn len(&self) -> (r: usize)
        ensures
            r == self.spec_jobs().len(),
    {
        self.jobs.len()
    }

    /// The callback of the job at `index`.
    pub fn callback(&self, index: usize) -> (r: &F)
        requires
            index < self.spec_jobs().len(),
        ensures
            *r == self.spec_jobs()[index as int].spec_callback(),
    {
        self.jobs[index].callback()
    }

    /// The occurrences the job at `index` runs when ticked at `now`,
    /// computed without running its callback or recording the tick; a driver
    /// that awaits callbacks runs the callback once per returned occurrence
    /// and then calls [`JobScheduler::record_tick`].
    pub fn due_at(&self, index: usize, now: i64) -> (r: Vec<i64>)
        requires
            self.well_formed(),
            index < self.spec_jobs().len(),
            now <= LATEST_INSTANT,
        ensures
            self.spec_jobs()[index as int].tick_runs(now, r@),
            strictly_ascending(r@),
            self.spec_jobs()[index as int].spec_last_tick() matches Some(last) ==> all_after(r@, last),
    {
        self.jobs[index].due_at(now)
    }

    /// Records `now` as the instant of the latest tick of the job at `index`.
    pub fn record_tick(&mut self, index: usize, now: i64)
        requires
            old(self).well_formed(),
            index < old(self).spec_jobs().len(),
            now <= LATEST_INSTANT,
        ensures
            final(self).well_formed(),
            final(self).spec_jobs().len() == old(self).spec_jobs().len(),
            forall|j: int| 0 <= j < final(self).spec_jobs().len() && j != index ==>
                #[trigger] final(self).spec_jobs()[j] == old(self).spec_jobs()[j],
            final(self).spec_jobs()[index as int].spec_last_tick() == Some(now),
            old(self).spec_jobs()[index as int].same_rule(&final(self).spec_jobs()[index as int]),
            final(self).spec_jobs()[index as int].spec_callback() == old(self).spec_jobs()[index as int].spec_callback(),
    {
        self.jobs[index].record_tick(now);
        proof {
            assert forall|i: int| 0 <= i < self.spec_jobs().len() implies
                #[trigger] self.spec_jobs()[i].well_formed() by {
                if i != index {
                    assert(self.spec_jobs()[i] == old(self).spec_jobs()[i]);
                }
            }
        }
    }

    /// Each job's next occurrence after `now`, in the order of the jobs.
    fn next_occurrences(&self, now: i64) -> (r: Vec<Option<i64>>)
        ensures
            r@ == next_occurrences_of(self.spec_jobs(), now),
            forall|i: int| 0 <= i < r@.len() && r@[i] is Some ==> now < #[trigger] r@[i]->Some_0,
    {
        let ghost target = next_occurrences_of(self.spec_jobs(), now);
        let mut r: Vec<Option<i64>> = Vec::new();
        let mut i: usize = 0;
        while i < self.jobs.len()
            invariant
                target == next_occurrences_of(self.spec_jobs(), now),
                i <= self.spec_jobs().len(),
                r@ == target.take(i as int),
                forall|j: int| 0 <= j < r@.len() && r@[j] is Some ==> now < #[trigger] r@[j]->Some_0,
            decreases self.spec_jobs().len() - i,
        {
            let next = if now <= LATEST_INSTANT {
                next_after(self.jobs[i].schedule(), now)
            } else {
                None
            };
            r.push(next);
            i = i + 1;
            proof {
                assert(r@ =~= target.take(i as int));
            }
        }
        proof {
            assert(target.take(i as int) =~= target);
        }
        r
    }

    /// The wait, in milliseconds, before the next tick as seen from `now`:
    /// the idle poll interval when no job is held, else the shortest gap
    /// from `now` to a job's next occurrence, or zero when no job has one.
    pub fn millis_till_next_job_at(&self, now: i64) -> (r: u64)
        ensures
            r == wait_for_jobs(self.spec_jobs(), now),
            self.spec_jobs().len() == 0 ==> r == IDLE_POLL_MILLIS,
    {
        let nexts = self.next_occurrences(now);
        wait_millis(&nexts, now)
    }

    /// The wait before the next tick, as seen from the wall clock's current
    /// instant; a reading beyond the range the rules can be queried from
    /// counts as the latest instant of that range.
    pub fn time_till_next_job(&self) -> (r: std::time::Duration)
        ensures
            self.spec_jobs().len() == 0 ==> r == duration_of_millis(IDLE_POLL_MILLIS),
            exists|now: i64|
                now <= LATEST_INSTANT
                && r == duration_of_millis(#[trigger] wait_for_jobs(self.spec_jobs(), now) as u64),
    {
        let now = clock_reading();
        duration_from_millis(self.millis_till_next_job_at(now))
    }
}

impl<F: FnMut()> JobScheduler<F> {
    /// Ticks every job at `now`, in the order they were added, each one
    /// running all its due callbacks before the next begins. Returns, for
    /// each job, the occurrences it ran.
    pub fn tick_at(&mut self, now: i64) -> (r: Vec<Vec<i64>>)
        requires
            always_callable::<F>(),
            old(self).well_formed(),
            now <= LATEST_INSTANT,
        ensures
            final(self).well_formed(),
            final(self).spec_jobs().len() == old(self).spec_jobs().len(),
            r@.len() == old(self).spec_jobs().len(),
            forall|i: int|
                0 <= i < r@.len() ==> {
                    let before = #[trigger] old(self).spec_jobs()[i];
                    let after = final(self).spec_jobs()[i];
                    &&& before.tick_runs(now, r@[i]@)
                    &&& strictly_ascending(r@[i]@)
                    &&& after.spec_last_tick() == Some(now)
                    &&& before.same_rule(&after)
                },
    {
        let mut r: Vec<Vec<i64>> = Vec::new();
        let mut i: usize = 0;
        while i < self.jobs.len()
            invariant
                always_callable::<F>(),
                now <= LATEST_INSTANT,
                self.well_formed(),
                self.spec_jobs().len() == old(self).spec_jobs().len(),
                i <= self.spec_jobs().len(),
                r@.len() == i,
                forall|j: int| i <= j < self.spec_jobs().len() ==> self.spec_jobs()[j] == old(self).spec_jobs()[j],
                forall|j: int|
                    0 <= j < i ==> {
                        let before = #[trigger] old(self).spec_jobs()[j];
                        let after = self.spec_jobs()[j];
                        &&& before.tick_runs(now, r@[j]@)
                        &&& strictly_ascending(r@[j]@)
                        &&& after.spec_last_tick() == Some(now)
                        &&& before.same_rule(&after)
                    },
            decreases self.spec_jobs().len() - i,
        {
            let runs = self.jobs[i].tick_at(now);
            r.push(runs);
            i = i + 1;
        }
        r
    }

    /// Ticks every job in the order they were added, each at the wall
    /// clock's instant read when its own tick starts, and returns, for each
    /// job, the occurrences it ran. A reading beyond the range the rules can
    /// be queried from counts as the latest instant of that range.
    pub fn tick(&mut self) -> (r: Vec<Vec<i64>>)
        requires
            always_callable::<F>(),
            old(self).well_formed(),
        ensures
            final(self).well_formed(),
            final(self).spec_jobs().len() == old(self).spec_jobs().len(),
            r@.len() == old(self).spec_jobs().len(),
            forall|i: int| 0 <= i < r@.len() ==>
                #[trigger] old(self).spec_jobs()[i].ticked_to(&final(self).spec_jobs()[i], r@[i]@),
    {
        let mut r: Vec<Vec<i64>> = Vec::new();
        let mut i: usize = 0;
        while i < self.jobs.len()
            invariant
                always_callable::<F>(),
                self.well_formed(),
                self.spec_jobs().len() == old(self).spec_jobs().len(),
                i <= self.spec_jobs().len(),
                r@.len() == i,
                forall|j: int| i <= j < self.spec_jobs().len() ==> self.spec_jobs()[j] == old(self).spec_jobs()[j],
                forall|j: int| 0 <= j < i ==>
                    #[trigger] old(self).spec_jobs()[j].ticked_to(&self.spec_jobs()[j], r@[j]@),
            decreases self.spec_jobs().len() - i,
        {
            let ghost r_before = r@;
            let ghost jobs_before = self.spec_jobs();
            let runs = self.jobs[i].tick();
            r.push(runs);
            proof {
                assert forall|j: int| 0 <= j < i + 1 implies
                    #[trigger] old(self).spec_jobs()[j].ticked_to(&self.spec_jobs()[j], r@[j]@) by {
                    if j < i {
                        assert(r@[j] == r_before[j]);
                        assert(self.spec_jobs()[j] == jobs_before[j]);
                    }
                }
            }
            i = i + 1;
        }
        r
    }
}

impl<F> Default for JobScheduler<F> {
    fn default() -> (r: Self)
        ensures
            r.spec_jobs().len() == 0,
            r.well_formed(),
    {
        Self::new()
    }
}

} // verus!
