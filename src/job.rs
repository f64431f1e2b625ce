//! A recurring job: a cron rule, a callback, and the instant it last ticked.

use vstd::prelude::*;
use crate::bindings::{next_after, next_occurrence, now_millis, LATEST_INSTANT};
use crate::catch_up::{
    all_after, count_due, due_of, due_occurrences, lemma_leading_due_bound,
    lemma_leading_due_prefix, lemma_leading_due_stop, lemma_run_count,
    lemma_runs_ordered_and_due, leading_due, none_later_than, strictly_ascending,
};

verus! {

/// The instant the walk over a rule's occurrences moves on from before it
/// reaches the `i`th run: the previous tick for the first, else the run
/// before it.
pub open spec fn walk_from(last: i64, runs: Seq<i64>, i: int) -> i64 {
    if i == 0 {
        last
    } else {
        runs[i - 1]
    }
}

/// `runs` are exactly the occurrences that a tick at `now` runs for `rule`
/// when the previous tick was at `last`: each is the rule's next occurrence
/// after the one before it (after `last` for the first), none is later than
/// `now`, and the walk stops either at the limit, when it is positive, or
/// because the rule's next occurrence is absent or later than `now`.
pub open spec fn runs_of(rule: cron::Schedule, last: i64, limit: nat, now: i64, runs: Seq<i64>) -> bool {
    &&& forall|i: int| 0 <= i < runs.len() ==> next_occurrence(rule, walk_from(last, runs, i)) == Some(#[trigger] runs[i])
    &&& none_later_than(runs, now)
    &&& (limit > 0 ==> runs.len() <= limit)
    &&& ((limit > 0 && runs.len() == limit) || !(next_occurrence(rule, walk_from(last, runs, runs.len() as int)) matches Some(x) && x <= now))
}

/// The runs of a tick are those that the catch-up rule selects from the
/// rule's ascending occurrences after the previous tick: given those
/// occurrences one after another from `last`, up to the first later than
/// `now` or to the rule's end, the runs are `due_of` them. Their number is
/// then the number of occurrences in `(last, now]`, capped by a positive
/// limit.
pub proof fn lemma_runs_are_due_occurrences(
    rule: cron::Schedule,
    last: i64,
    limit: nat,
    now: i64,
    runs: Seq<i64>,
    occ: Seq<i64>,
)
    requires
        forall|i: int| 0 <= i < occ.len() ==> next_occurrence(rule, walk_from(last, occ, i)) == Some(#[trigger] occ[i]),
        strictly_ascending(occ),
        all_after(occ, last),
        (occ.len() > 0 && occ.last() > now) || next_occurrence(rule, walk_from(last, occ, occ.len() as int)) is None,
        runs_of(rule, last, limit, now, runs),
    ensures
        runs == due_of(occ, limit, now),
        limit > 0 ==> runs.len() == vstd::math::min(limit as int, count_due(occ, now) as int),
        limit == 0 ==> runs.len() == count_due(occ, now),
{
    let n = runs.len() as int;
    assert forall|i: int| 0 <= i < n && i <= occ.len() implies walk_from(last, runs, i) == walk_from(last, occ, i)
        && (i < occ.len() ==> #[trigger] runs[i] == occ[i]) by {
        lemma_prefix_agrees(rule, last, runs, occ, i);
    }
    if n > occ.len() {
        let m = occ.len() as int;
        lemma_prefix_agrees(rule, last, runs, occ, m);
        assert(next_occurrence(rule, walk_from(last, runs, m)) == Some(runs[m]));
        if m > 0 {
            assert(runs[m - 1] == occ[m - 1]);
            assert(runs[m - 1] <= now);
        }
    }
    assert(n <= occ.len());
    lemma_prefix_agrees(rule, last, runs, occ, n);
    assert(runs =~= occ.take(n)) by {
        assert forall|i: int| 0 <= i < n implies runs[i] == occ[i] by {
            lemma_prefix_agrees(rule, last, runs, occ, i + 1);
        }
    }
    lemma_leading_due_bound(occ, now);
    lemma_leading_due_prefix(occ, now, n);
    if n < occ.len() {
        lemma_leading_due_prefix(occ, now, n + 1);
        assert(occ.take(n + 1)[n] == occ[n]);
    }
    lemma_run_count(occ, limit, now);
}

/// The runs of a tick are fixed by the rule, the previous tick, the limit
/// and `now`: two jobs alike in these run the same occurrences, whether their
/// callbacks are called or awaited.
pub proof fn lemma_runs_determined(
    rule: cron::Schedule,
    last: i64,
    limit: nat,
    now: i64,
    a: Seq<i64>,
    b: Seq<i64>,
)
    requires
        runs_of(rule, last, limit, now, a),
        runs_of(rule, last, limit, now, b),
    ensures
        a == b,
{
    lemma_stops_no_earlier(rule, last, limit, now, a, b);
    lemma_stops_no_earlier(rule, last, limit, now, b, a);
    lemma_prefix_agrees(rule, last, a, b, a.len() as int);
    assert(a =~= b);
}

/// A walk that stops is no shorter than any other walk of the same rule.
proof fn lemma_stops_no_earlier(rule: cron::Schedule, last: i64, limit: nat, now: i64, a: Seq<i64>, b: Seq<i64>)
    requires
        runs_of(rule, last, limit, now, a),
        runs_of(rule, last, limit, now, b),
    ensures
        b.len() <= a.len(),
{
    if a.len() < b.len() {
        let n = a.len() as int;
        lemma_prefix_agrees(rule, last, a, b, n);
        assert(next_occurrence(rule, walk_from(last, b, n)) == Some(b[n]));
        assert(b[n] <= now);
    }
}

/// Where `runs` meets the walk of `rule` from `last` as `occ` does, the two
/// agree on their first `k` elements.
proof fn lemma_prefix_agrees(rule: cron::Schedule, last: i64, runs: Seq<i64>, occ: Seq<i64>, k: int)
    requires
        0 <= k <= runs.len(),
        k <= occ.len(),
        forall|i: int| 0 <= i < occ.len() ==> next_occurrence(rule, walk_from(last, occ, i)) == Some(#[trigger] occ[i]),
        forall|i: int| 0 <= i < runs.len() ==> next_occurrence(rule, walk_from(last, runs, i)) == Some(#[trigger] runs[i]),
    ensures
        walk_from(last, runs, k) == walk_from(last, occ, k),
        forall|i: int| 0 <= i < k ==> #[trigger] runs[i] == occ[i],
    decreases k,
{
    if k > 0 {
        lemma_prefix_agrees(rule, last, runs, occ, k - 1);
        assert(runs[k - 1] == occ[k - 1]);
    }
}

/// A callback that runs on each due occurrence of a cron rule.
///
/// A fresh job has never ticked: its first tick only records the instant.
/// Each later tick runs the callback once for each occurrence of the rule in
/// `(last tick, now]` that the missed-run limit admits, in ascending order,
/// and then records `now`.
pub struct Job<F> {
    schedule: cron::Schedule,
    run: F,
    last_tick: Option<i64>,
    limit_missed_runs: usize,
}

impl<F> Job<F> {
    /// The cron rule of the job.
    pub closed spec fn spec_schedule(&self) -> cron::Schedule {
        self.schedule
    }

    /// The callback the job runs.
    pub closed spec fn spec_callback(&self) -> F {
        self.run
    }

    /// The instant of the previous tick; none before the first.
    pub closed spec fn spec_last_tick(&self) -> Option<i64> {
        self.last_tick
    }

    /// How many occurrences one tick considers; zero for all of them.
    pub closed spec fn spec_limit(&self) -> usize {
        self.limit_missed_runs
    }

    /// The recorded instant lies in the range the rule can be queried from.
    pub open spec fn well_formed(&self) -> bool {
        self.spec_last_tick() matches Some(t) ==> t <= LATEST_INSTANT
    }

    /// `other` has the same rule and missed-run limit as this job.
    pub open spec fn same_rule(&self, other: &Job<F>) -> bool {
        &&& other.spec_schedule() == self.spec_schedule()
        &&& other.spec_limit() == self.spec_limit()
    }

    /// `runs` are the occurrences a tick of this job at `now` runs: none on
    /// the first tick, else those that [`runs_of`] describes.
    pub open spec fn tick_runs(&self, now: i64, runs: Seq<i64>) -> bool {
        match self.spec_last_tick() {
            None => runs.len() == 0,
            Some(last) => runs_of(self.spec_schedule(), last, self.spec_limit() as nat, now, runs),
        }
    }

    /// `after` is this job after one tick at some instant in the range the
    /// rule can be queried from, a tick that ran `runs`.
    pub open spec fn ticked_to(&self, after: &Job<F>, runs: Seq<i64>) -> bool {
        &&& exists|now: i64|
            now <= LATEST_INSTANT
            && after.spec_last_tick() == Some(now)
            && #[trigger] self.tick_runs(now, runs)
        &&& strictly_ascending(runs)
        &&& self.same_rule(after)
    }

    /// A job that has never ticked and replays at most one missed
    /// occurrence per tick.
    pub fn new(schedule: cron::Schedule, run: F) -> (r: Job<F>)
        ensures
            r.spec_schedule() == schedule,
            r.spec_callback() == run,
            r.spec_last_tick() is None,
            r.spec_limit() == 1,
            r.well_formed(),
    {
        Job { schedule, run, last_tick: None, limit_missed_runs: 1 }
    }

    /// The same job with another missed-run limit; zero replays every
    /// missed occurrence.
    pub fn with_missed_run_limit(self, limit: usize) -> (r: Job<F>)
        ensures
            r.spec_schedule() == self.spec_schedule(),
            r.spec_callback() == self.spec_callback(),
            r.spec_last_tick() == self.spec_last_tick(),
            r.spec_limit() == limit,
            self.well_formed() ==> r.well_formed(),
    {
        Job { limit_missed_runs: limit, ..self }
    }

    /// The callback the job runs.
    pub fn callback(&self) -> (r: &F)
        ensures
            *r == self.spec_callback(),
    {
        &self.run
    }

    /// The cron rule of the job.
    pub fn schedule(&self) -> (r: &cron::Schedule)
        ensures
            *r == self.spec_schedule(),
    {
        &self.schedule
    }

    /// The instant of the previous tick; none before the first.
    pub fn last_tick(&self) -> (r: Option<i64>)
        ensures
            r == self.spec_last_tick(),
    {
        self.last_tick
    }

    /// How many occurrences one tick considers; zero for all of them.
    pub fn missed_run_limit(&self) -> (r: usize)
        ensures
            r == self.spec_limit(),
    {
        self.limit_missed_runs
    }

    /// The occurrences after `last` that a tick at `now` considers, fetched
    /// one at a time: at most the limit of them when it is positive, and
    /// none past the first that is later than `now`.
    fn considered_occurrences(&self, last: i64, now: i64) -> (r: Vec<i64>)
        requires
            last <= LATEST_INSTANT,
            now <= LATEST_INSTANT,
        ensures
            strictly_ascending(r@),
            all_after(r@, last),
            forall|i: int| 0 <= i < r@.len() ==>
                next_occurrence(self.spec_schedule(), walk_from(last, r@, i)) == Some(#[trigger] r@[i]),
            r@.len() > 0 ==> none_later_than(r@.drop_last(), now),
            self.spec_limit() > 0 ==> r@.len() <= self.spec_limit(),
            (self.spec_limit() > 0 && r@.len() == self.spec_limit())
                || (r@.len() > 0 && r@.last() > now)
                || next_occurrence(self.spec_schedule(), walk_from(last, r@, r@.len() as int)) is None,
    {
        let mut r: Vec<i64> = Vec::new();
        if last > now {
            let next = next_after(&self.schedule, last);
            if let Some(t) = next {
                r.push(t);
                proof {
                    assert(walk_from(last, r@, 0) == last);
                    assert(r@[0] == t);
                }
            } else {
                assert(walk_from(last, r@, r@.len() as int) == last);
            }
            return r;
        }
        let mut cursor: i64 = last;
        while self.limit_missed_runs == 0 || r.len() < self.limit_missed_runs
            invariant
                last <= cursor <= now <= LATEST_INSTANT,
                strictly_ascending(r@),
                all_after(r@, last),
                none_later_than(r@, now),
                cursor == walk_from(last, r@, r@.len() as int),
                forall|i: int| 0 <= i < r@.len() ==>
                    next_occurrence(self.spec_schedule(), walk_from(last, r@, i)) == Some(#[trigger] r@[i]),
                self.spec_limit() > 0 ==> r@.len() <= self.spec_limit(),
            ensures
                (self.spec_limit() > 0 && r@.len() == self.spec_limit())
                    || next_occurrence(self.spec_schedule(), cursor) is None,
                last <= cursor <= now,
                strictly_ascending(r@),
                all_after(r@, last),
                none_later_than(r@, now),
                cursor == walk_from(last, r@, r@.len() as int),
                forall|i: int| 0 <= i < r@.len() ==>
                    next_occurrence(self.spec_schedule(), walk_from(last, r@, i)) == Some(#[trigger] r@[i]),
                self.spec_limit() > 0 ==> r@.len() <= self.spec_limit(),
            decreases now - cursor,
        {
            match next_after(&self.schedule, cursor) {
                Some(t) => {
                    let ghost before = r@;
                    r.push(t);
                    proof {
                        assert(r@.drop_last() =~= before);
                        assert forall|i: int| 0 <= i < r@.len() implies
                            next_occurrence(self.spec_schedule(), walk_from(last, r@, i)) == Some(#[trigger] r@[i]) by {
                            if i < before.len() {
                                assert(r@[i] == before[i]);
                                if i > 0 {
                                    assert(r@[i - 1] == before[i - 1]);
                                }
                            }
                        }
                    }
                    if t > now {
                        return r;
                    }
                    cursor = t;
                },
                None => {
                    break;
                },
            }
        }
        proof {
            if r@.len() > 0 {
                assert forall|i: int| 0 <= i < r@.drop_last().len() implies
                    #[trigger] r@.drop_last()[i] <= now by {
                    assert(r@.drop_last()[i] == r@[i]);
                }
            }
        }
        r
    }

    /// The occurrences a tick at `now` runs, computed without running the
    /// callback or recording the tick.
    pub fn due_at(&self, now: i64) -> (r: Vec<i64>)
        requires
            self.well_formed(),
            now <= LATEST_INSTANT,
        ensures
            self.tick_runs(now, r@),
            strictly_ascending(r@),
            self.spec_last_tick() matches Some(last) ==> all_after(r@, last),
    {
        match self.last_tick {
            None => Vec::new(),
            Some(last) => {
                let occ = self.considered_occurrences(last, now);
                let limit = self.limit_missed_runs;
                let due = due_occurrences(&occ, limit, now);
                proof {
                    let rule = self.spec_schedule();
                    lemma_runs_ordered_and_due(occ@, limit as nat, now);
                    lemma_leading_due_stop(occ@, now);
                    let k = due@.len() as int;
                    assert forall|i: int| 0 <= i < k implies #[trigger] due@[i] == occ@[i] by {}
                    assert forall|i: int| 0 <= i < k implies #[trigger] due@[i] > last by {
                        assert(due@[i] == occ@[i]);
                    }
                    assert forall|i: int| 0 <= i < k implies
                        next_occurrence(rule, walk_from(last, due@, i)) == Some(#[trigger] due@[i]) by {
                        assert(due@[i] == occ@[i]);
                        if i > 0 {
                            assert(due@[i - 1] == occ@[i - 1]);
                        }
                        assert(walk_from(last, due@, i) == walk_from(last, occ@, i));
                    }
                    if k > 0 {
                        assert(due@[k - 1] == occ@[k - 1]);
                    }
                    assert(walk_from(last, due@, k) == walk_from(last, occ@, k));
                    let n = leading_due(occ@, now) as int;
                    if !(limit > 0 && k == limit) {
                        assert(k == n);
                        if n == occ@.len() {
                            assert(occ@.take(n) =~= occ@);
                            if occ@.len() > 0 {
                                assert(occ@.last() == occ@.take(n)[n - 1]);
                            }
                        } else {
                            assert(next_occurrence(rule, walk_from(last, occ@, n)) == Some(occ@[n]));
                        }
                    }
                }
                due
            },
        }
    }

    /// Records `now` as the instant of the job's latest tick, once its due
    /// callbacks have run.
    pub fn record_tick(&mut self, now: i64)
        requires
            now <= LATEST_INSTANT,
        ensures
            final(self).spec_last_tick() == Some(now),
            old(self).same_rule(final(self)),
            final(self).spec_callback() == old(self).spec_callback(),
            final(self).well_formed(),
    {
        self.last_tick = Some(now);
    }

    /// Decides which occurrences a tick at `now` runs, and records `now` as
    /// the instant of the tick, without running the callback; a driver that
    /// awaits the callback runs it once per returned occurrence.
    ///
    /// The first tick of a job runs nothing. A later one runs the rule's
    /// occurrences after the previous tick, one after another, up to the
    /// first later than `now`, at most the limit of them when it is positive.
    pub fn take_due(&mut self, now: i64) -> (r: Vec<i64>)
        requires
            old(self).well_formed(),
            now <= LATEST_INSTANT,
        ensures
            old(self).tick_runs(now, r@),
            strictly_ascending(r@),
            old(self).spec_last_tick() matches Some(last) ==> all_after(r@, last),
            final(self).spec_last_tick() == Some(now),
            old(self).same_rule(final(self)),
            final(self).spec_callback() == old(self).spec_callback(),
            final(self).well_formed(),
    {
        let r = self.due_at(now);
        self.last_tick = Some(now);
        r
    }
}

/// The callback can be called in every state it may reach.
pub open spec fn always_callable<F: FnMut()>() -> bool {
    forall|f: F| #[trigger] f.requires(())
}

impl<F: FnMut()> Job<F> {
    /// Ticks the job at `now`: runs the callback once for each occurrence
    /// that is due, in order, then records `now`, and returns those
    /// occurrences.
    pub fn tick_at(&mut self, now: i64) -> (r: Vec<i64>)
        requires
            always_callable::<F>(),
            old(self).well_formed(),
            now <= LATEST_INSTANT,
        ensures
            old(self).tick_runs(now, r@),
            strictly_ascending(r@),
            old(self).spec_last_tick() matches Some(last) ==> all_after(r@, last),
            final(self).spec_last_tick() == Some(now),
            old(self).same_rule(final(self)),
            final(self).well_formed(),
    {
        let due = self.due_at(now);
        let mut i: usize = 0;
        while i < due.len()
            invariant
                always_callable::<F>(),
                self.spec_last_tick() == old(self).spec_last_tick(),
                old(self).same_rule(self),
            decreases due.len() - i,
        {
            (self.run)();
            i = i + 1;
        }
        self.last_tick = Some(now);
        due
    }

    /// Ticks the job at the wall clock's current instant, read once on
    /// entry, and returns the occurrences it ran. A reading beyond the range
    /// the rule can be queried from counts as the latest instant of that
    /// range.
    pub fn tick(&mut self) -> (r: Vec<i64>)
        requires
            always_callable::<F>(),
            old(self).well_formed(),
        ensures
            old(self).ticked_to(final(self), r@),
            final(self).well_formed(),
    {
        let now = clock_reading();
        self.tick_at(now)
    }
}

/// The wall clock's current instant, held to the range the rules can be
/// queried from: a later reading counts as the latest instant of it.
pub fn clock_reading() -> (r: i64)
    ensures
        r <= LATEST_INSTANT,
{
    let t = now_millis();
    if t > LATEST_INSTANT {
        LATEST_INSTANT
    } else {
        t
    }
}

} // verus!
