//! Which occurrences of a rule a job replays when it is ticked.
//!
//! A job ticked at `now` considers the ascending occurrences of its rule after
//! its previous tick. With a limit `L > 0` only the first `L` of them are
//! considered; with `L == 0` all are. Walking them in order, it runs each one
//! that is not later than `now` and stops at the first that is.

use vstd::prelude::*;

verus! {

/// Each occurrence is strictly later than the one before it.
pub open spec fn strictly_ascending(occ: Seq<i64>) -> bool {
    forall|i: int, j: int| 0 <= i < j < occ.len() ==> occ[i] < occ[j]
}

/// Every occurrence lies strictly after `t`.
pub open spec fn all_after(occ: Seq<i64>, t: i64) -> bool {
    forall|i: int| 0 <= i < occ.len() ==> occ[i] > t
}

/// Every occurrence is at or before `now`.
pub open spec fn none_later_than(occ: Seq<i64>, now: i64) -> bool {
    forall|i: int| 0 <= i < occ.len() ==> occ[i] <= now
}

/// How many occurrences at the front of `occ` are at or before `now`.
pub open spec fn leading_due(occ: Seq<i64>, now: i64) -> nat
    decreases occ.len(),
{
    if occ.len() == 0 || occ[0] > now {
        0
    } else {
        1 + leading_due(occ.drop_first(), now)
    }
}

/// How many occurrences of `occ` are at or before `now`, wherever they stand.
pub open spec fn count_due(occ: Seq<i64>, now: i64) -> nat
    decreases occ.len(),
{
    if occ.len() == 0 {
        0
    } else {
        (if occ[0] <= now { 1nat } else { 0nat }) + count_due(occ.drop_first(), now)
    }
}

/// How many occurrences one tick runs: those at the front that are due,
/// capped by the limit when the limit is positive.
pub open spec fn due_len(occ: Seq<i64>, limit: nat, now: i64) -> nat {
    let n = leading_due(occ, now);
    if limit > 0 && limit < n {
        limit
    } else {
        n
    }
}

/// The occurrences one tick runs, in the order it runs them.
pub open spec fn due_of(occ: Seq<i64>, limit: nat, now: i64) -> Seq<i64> {
    occ.take(due_len(occ, limit, now) as int)
}

pub proof fn lemma_leading_due_bound(occ: Seq<i64>, now: i64)
    ensures
        leading_due(occ, now) <= occ.len(),
    decreases occ.len(),
{
    if occ.len() > 0 && occ[0] <= now {
        lemma_leading_due_bound(occ.drop_first(), now);
    }
}

/// The first `k` occurrences are due exactly when at least `k` lead.
pub proof fn lemma_leading_due_prefix(occ: Seq<i64>, now: i64, k: int)
    requires
        0 <= k <= occ.len(),
    ensures
        leading_due(occ, now) >= k <==> none_later_than(occ.take(k), now),
    decreases k,
{
    if k > 0 {
        lemma_leading_due_prefix(occ.drop_first(), now, k - 1);
        assert(occ.take(k).drop_first() =~= occ.drop_first().take(k - 1));
        if none_later_than(occ.take(k), now) {
            assert(occ.take(k)[0] == occ[0]);
            assert forall|i: int| 0 <= i < k - 1 implies #[trigger] occ.drop_first().take(k - 1)[i]
                <= now by {
                assert(occ.drop_first().take(k - 1)[i] == occ.take(k)[i + 1]);
            }
        }
        if leading_due(occ, now) >= k {
            assert forall|i: int| 0 <= i < k implies #[trigger] occ.take(k)[i] <= now by {
                if i > 0 {
                    assert(occ.take(k)[i] == occ.drop_first().take(k - 1)[i - 1]);
                }
            }
        }
    }
}

/// Where the occurrence after the first `k` is later than `now`, exactly `k`
/// lead.
proof fn lemma_leading_due_stops(occ: Seq<i64>, now: i64, k: int)
    requires
        0 <= k < occ.len(),
        none_later_than(occ.take(k), now),
        occ[k] > now,
    ensures
        leading_due(occ, now) == k,
    decreases k,
{
    if k > 0 {
        assert(occ.take(k)[0] == occ[0]);
        assert forall|i: int| 0 <= i < k - 1 implies #[trigger] occ.drop_first().take(k - 1)[i]
            <= now by {
            assert(occ.drop_first().take(k - 1)[i] == occ.take(k)[i + 1]);
        }
        lemma_leading_due_stops(occ.drop_first(), now, k - 1);
    }
}

/// The leading due occurrences end at the first one later than `now`.
pub proof fn lemma_leading_due_stop(occ: Seq<i64>, now: i64)
    ensures
        leading_due(occ, now) <= occ.len(),
        none_later_than(occ.take(leading_due(occ, now) as int), now),
        leading_due(occ, now) < occ.len() ==> occ[leading_due(occ, now) as int] > now,
    decreases occ.len(),
{
    lemma_leading_due_bound(occ, now);
    lemma_leading_due_prefix(occ, now, leading_due(occ, now) as int);
    if occ.len() > 0 && occ[0] <= now {
        lemma_leading_due_stop(occ.drop_first(), now);
        let k = leading_due(occ, now) as int;
        if k < occ.len() {
            assert(occ[k] == occ.drop_first()[k - 1]);
        }
    }
}

/// In an ascending sequence the due occurrences are exactly those at the
/// front, so counting the leading ones counts them all.
pub proof fn lemma_leading_due_counts_all(occ: Seq<i64>, now: i64)
    requires
        strictly_ascending(occ),
    ensures
        leading_due(occ, now) == count_due(occ, now),
    decreases occ.len(),
{
    if occ.len() > 0 {
        let rest = occ.drop_first();
        assert(strictly_ascending(rest)) by {
            assert forall|i: int, j: int| 0 <= i < j < rest.len() implies rest[i] < rest[j] by {
                assert(rest[i] == occ[i + 1] && rest[j] == occ[j + 1]);
            }
        }
        if occ[0] > now {
            lemma_none_due(rest, now, occ[0]);
        } else {
            lemma_leading_due_counts_all(rest, now);
        }
    }
}

/// When every occurrence is after something later than `now`, none is due.
proof fn lemma_none_due(occ: Seq<i64>, now: i64, floor: i64)
    requires
        floor > now,
        all_after(occ, floor),
    ensures
        count_due(occ, now) == 0,
    decreases occ.len(),
{
    if occ.len() > 0 {
        lemma_none_due(occ.drop_first(), now, floor);
    }
}

/// The number of runs in one tick is the number of due occurrences,
/// capped by the limit when it is positive: given ascending occurrences
/// (those of a rule after the previous tick, so that the due ones are those
/// in `(last tick, now]`), a positive limit `L` gives `min(L, count)` runs,
/// and a zero limit gives the full count.
pub proof fn lemma_run_count(occ: Seq<i64>, limit: nat, now: i64)
    requires
        strictly_ascending(occ),
    ensures
        limit > 0 ==> due_of(occ, limit, now).len() == vstd::math::min(
            limit as int,
            count_due(occ, now) as int,
        ),
        limit == 0 ==> due_of(occ, limit, now).len() == count_due(occ, now),
{
    lemma_leading_due_counts_all(occ, now);
    lemma_leading_due_bound(occ, now);
}

/// The runs of one tick come in strictly ascending order of their
/// occurrences, are the first occurrences considered, and none of them is
/// later than `now`.
pub proof fn lemma_runs_ordered_and_due(occ: Seq<i64>, limit: nat, now: i64)
    requires
        strictly_ascending(occ),
    ensures
        strictly_ascending(due_of(occ, limit, now)),
        none_later_than(due_of(occ, limit, now), now),
        due_of(occ, limit, now).len() <= occ.len(),
        occ.take(due_of(occ, limit, now).len() as int) == due_of(occ, limit, now),
        limit > 0 ==> due_of(occ, limit, now).len() <= limit,
{
    lemma_leading_due_bound(occ, now);
    let n = due_len(occ, limit, now) as int;
    lemma_leading_due_prefix(occ, now, leading_due(occ, now) as int);
    assert forall|i: int| 0 <= i < n implies #[trigger] due_of(occ, limit, now)[i] <= now by {
        assert(due_of(occ, limit, now)[i] == occ.take(leading_due(occ, now) as int)[i]);
    }
}

/// Whether the occurrence the rule gave next is run: only an occurrence that
/// exists and is not later than `now` is.
pub fn is_due(next: Option<i64>, now: i64) -> (r: bool)
    ensures
        r == (next matches Some(t) && t <= now),
{
    match next {
        Some(t) => t <= now,
        None => false,
    }
}

/// The occurrences one tick runs, out of the ascending occurrences after the
/// previous tick: the leading ones not later than `now`, at most `limit` of
/// them when `limit` is positive.
pub fn due_occurrences(occurrences: &Vec<i64>, limit: usize, now: i64) -> (r: Vec<i64>)
    ensures
        r@ == due_of(occurrences@, limit as nat, now),
{
    let ghost occ = occurrences@;
    let mut r: Vec<i64> = Vec::new();
    let mut i: usize = 0;
    while i < occurrences.len() && (limit == 0 || i < limit)
        invariant
            occ == occurrences@,
            i <= occ.len(),
            r@ == occ.take(i as int),
            none_later_than(occ.take(i as int), now),
            limit > 0 ==> i <= limit,
        decreases occ.len() - i,
    {
        if !is_due(Some(occurrences[i]), now) {
            proof {
                lemma_leading_due_stops(occ, now, i as int);
            }
            return r;
        }
        r.push(occurrences[i]);
        i = i + 1;
        proof {
            assert(r@ =~= occ.take(i as int));
        }
    }
    proof {
        lemma_leading_due_prefix(occ, now, i as int);
        lemma_leading_due_bound(occ, now);
        if limit > 0 && i >= limit {
        } else {
            assert(occ.take(i as int) =~= occ);
            assert(leading_due(occ, now) == i);
        }
    }
    r
}

} // verus!
