//! How long a driver should wait before it ticks the scheduler again.

use vstd::prelude::*;

verus! {

/// The wait, in milliseconds, of a scheduler that holds no job.
pub const IDLE_POLL_MILLIS: u64 = 500;

/// The gap from `now` to the occurrence `next`, never below zero.
pub open spec fn gap(next: i64, now: i64) -> int {
    if next > now {
        next - now
    } else {
        0
    }
}

/// The shortest gap from `now` to the next occurrences, over the jobs that
/// have one; none when no job has one.
pub open spec fn earliest_gap(nexts: Seq<Option<i64>>, now: i64) -> Option<int>
    decreases nexts.len(),
{
    if nexts.len() == 0 {
        None
    } else {
        let rest = earliest_gap(nexts.drop_last(), now);
        match nexts.last() {
            None => rest,
            Some(t) => match rest {
                None => Some(gap(t, now)),
                Some(g) => Some(vstd::math::min(g, gap(t, now))),
            },
        }
    }
}

/// The wait before the next tick, given each job's next occurrence: the
/// idle poll interval with no job, the shortest gap when some job has a next
/// occurrence, and zero when none has.
pub open spec fn wait_of(nexts: Seq<Option<i64>>, now: i64) -> int {
    if nexts.len() == 0 {
        IDLE_POLL_MILLIS as int
    } else {
        match earliest_gap(nexts, now) {
            None => 0,
            Some(g) => g,
        }
    }
}

proof fn lemma_earliest_gap_bounds(nexts: Seq<Option<i64>>, now: i64, i: int)
    requires
        0 <= i < nexts.len(),
        nexts[i] is Some,
    ensures
        earliest_gap(nexts, now) matches Some(g) && g <= gap(nexts[i]->Some_0, now),
    decreases nexts.len(),
{
    if i < nexts.len() - 1 {
        lemma_earliest_gap_bounds(nexts.drop_last(), now, i);
    }
}

/// Adding a job whose next occurrence is sooner than that of every job
/// already held strictly shortens the wait, as long as some job already held
/// has a next occurrence and the new one lies after `now`.
pub proof fn lemma_sooner_job_shortens_wait(nexts: Seq<Option<i64>>, now: i64, t: i64)
    requires
        exists|i: int| 0 <= i < nexts.len() && #[trigger] nexts[i] is Some,
        forall|i: int| 0 <= i < nexts.len() && nexts[i] is Some ==> now < #[trigger] nexts[i]->Some_0,
        forall|i: int| 0 <= i < nexts.len() && nexts[i] is Some ==> t < #[trigger] nexts[i]->Some_0,
        now < t,
    ensures
        wait_of(nexts.push(Some(t)), now) == t - now,
        wait_of(nexts.push(Some(t)), now) < wait_of(nexts, now),
{
    let i = choose|i: int| 0 <= i < nexts.len() && #[trigger] nexts[i] is Some;
    lemma_earliest_gap_bounds(nexts, now, i);
    assert(nexts.push(Some(t)).drop_last() =~= nexts);
    lemma_earliest_gap_attained(nexts, now);
}

/// The shortest gap is the gap of some job's next occurrence.
proof fn lemma_earliest_gap_attained(nexts: Seq<Option<i64>>, now: i64)
    ensures
        earliest_gap(nexts, now) matches Some(g) ==> exists|i: int|
            0 <= i < nexts.len() && #[trigger] nexts[i] is Some && g == gap(nexts[i]->Some_0, now),
    decreases nexts.len(),
{
    if nexts.len() > 0 {
        let rest = nexts.drop_last();
        lemma_earliest_gap_attained(rest, now);
        if let Some(g) = earliest_gap(rest, now) {
            let i = choose|i: int|
                0 <= i < rest.len() && #[trigger] rest[i] is Some && g == gap(rest[i]->Some_0, now);
            assert(nexts[i] == rest[i]);
        }
    }
}

/// The wait before the next tick, in milliseconds, given each job's next
/// occurrence after `now`.
pub fn wait_millis(next_occurrences: &Vec<Option<i64>>, now: i64) -> (r: u64)
    ensures
        r as int == wait_of(next_occurrences@, now),
{
    if next_occurrences.len() == 0 {
        return IDLE_POLL_MILLIS;
    }
    let ghost nexts = next_occurrences@;
    let mut best: Option<u64> = None;
    let mut i: usize = 0;
    while i < next_occurrences.len()
        invariant
            nexts == next_occurrences@,
            i <= nexts.len(),
            match best {
                None => earliest_gap(nexts.take(i as int), now) is None,
                Some(b) => earliest_gap(nexts.take(i as int), now) == Some(b as int),
            },
        decreases nexts.len() - i,
    {
        proof {
            assert(nexts.take(i + 1).drop_last() =~= nexts.take(i as int));
        }
        match next_occurrences[i] {
            Some(t) => {
                let g: u64 = if t > now {
                    (t as i128 - now as i128) as u64
                } else {
                    0
                };
                best = match best {
                    None => Some(g),
                    Some(b) => Some(
                        if g < b {
                            g
                        } else {
                            b
                        },
                    ),
                };
            },
            None => {},
        }
        i = i + 1;
    }
    proof {
        assert(nexts.take(i as int) =~= nexts);
    }
    match best {
        None => 0,
        Some(b) => b,
    }
}

} // verus!
