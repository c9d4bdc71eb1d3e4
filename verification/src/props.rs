//! Laws of the run loop, stated and proved over the model `run_model`.
//!
//! Because `Scheduler::run` is proved to return exactly
//! `run_model(ready_set, time_quantum)`, every law here transfers
//! verbatim to the event sequence a real run produces.

use vstd::prelude::*;

use crate::scheduler::{
    after_slice, best_index, lemma_best_index_props, lemma_total_burst_nonneg,
    lemma_total_burst_push, lemma_total_burst_remove, run_model, total_burst, Event,
};
use crate::task::{precedes, Task};

verus! {

/// Total work units credited to task `id` in an event sequence.
pub open spec fn units_for(evs: Seq<Event>, id: usize) -> int
    decreases evs.len(),
{
    if evs.len() == 0 {
        0
    } else {
        (if evs[0].id == id {
            evs[0].units as int
        } else {
            0
        }) + units_for(evs.drop_first(), id)
    }
}

/// Total remaining work of the tasks carrying `id` in a task sequence.
/// With unique ids this is just that task's `burst_time`.
pub open spec fn burst_for(ts: Seq<Task>, id: usize) -> int
    decreases ts.len(),
{
    if ts.len() == 0 {
        0
    } else {
        (if ts[0].id == id {
            ts[0].burst_time as int
        } else {
            0
        }) + burst_for(ts.drop_first(), id)
    }
}

pub proof fn lemma_units_for_nonneg(evs: Seq<Event>, id: usize)
    ensures
        units_for(evs, id) >= 0,
    decreases evs.len(),
{
    if evs.len() > 0 {
        lemma_units_for_nonneg(evs.drop_first(), id);
    }
}

pub proof fn lemma_units_for_concat(a: Seq<Event>, b: Seq<Event>, id: usize)
    ensures
        units_for(a + b, id) == units_for(a, id) + units_for(b, id),
    decreases a.len(),
{
    if a.len() == 0 {
        assert(a + b =~= b);
    } else {
        assert((a + b)[0] == a[0]);
        assert((a + b).drop_first() =~= a.drop_first() + b);
        lemma_units_for_concat(a.drop_first(), b, id);
    }
}

proof fn lemma_burst_for_push(ts: Seq<Task>, t: Task, id: usize)
    ensures
        burst_for(ts.push(t), id) == burst_for(ts, id) + (if t.id == id {
            t.burst_time as int
        } else {
            0
        }),
    decreases ts.len(),
{
    if ts.len() == 0 {
        assert(ts.push(t).drop_first() =~= Seq::<Task>::empty());
        assert(ts.push(t)[0] == t);
        assert(burst_for(Seq::<Task>::empty(), id) == 0);
    } else {
        assert(ts.push(t)[0] == ts[0]);
        assert(ts.push(t).drop_first() =~= ts.drop_first().push(t));
        lemma_burst_for_push(ts.drop_first(), t, id);
    }
}

proof fn lemma_burst_for_remove(ts: Seq<Task>, i: int, id: usize)
    requires
        0 <= i < ts.len(),
    ensures
        burst_for(ts.remove(i), id) == burst_for(ts, id) - (if ts[i].id == id {
            ts[i].burst_time as int
        } else {
            0
        }),
    decreases ts.len(),
{
    if i == 0 {
        assert(ts.remove(0) =~= ts.drop_first());
    } else {
        assert(ts.remove(i)[0] == ts[0]);
        assert(ts.remove(i).drop_first() =~= ts.drop_first().remove(i - 1));
        lemma_burst_for_remove(ts.drop_first(), i - 1, id);
    }
}

/// Peels one event off the front of a trace.
proof fn lemma_units_for_cons(e: Event, rest: Seq<Event>, id: usize)
    ensures
        units_for(seq![e] + rest, id) == (if e.id == id {
            e.units as int
        } else {
            0
        }) + units_for(rest, id),
{
    assert((seq![e] + rest)[0] == e);
    assert((seq![e] + rest).drop_first() =~= rest);
}

/// Conservation of work: the run loop emits, for each task id, exactly
/// the work that the ready set held for that id — no unit is lost,
/// duplicated, or invented.
pub proof fn lemma_conservation(ts: Seq<Task>, q: usize, id: usize)
    requires
        q >= 1,
    ensures
        units_for(run_model(ts, q), id) == burst_for(ts, id),
    decreases total_burst(ts) + ts.len(),
{
    if ts.len() > 0 {
        lemma_best_index_props(ts);
        let b = best_index(ts);
        let t = ts[b];
        let rest = ts.remove(b);
        lemma_total_burst_remove(ts, b);
        lemma_total_burst_nonneg(rest);
        lemma_burst_for_remove(ts, b, id);
        if t.burst_time == 0 {
            lemma_conservation(rest, q, id);
        } else if t.burst_time <= q {
            lemma_conservation(rest, q, id);
            lemma_units_for_cons(Event { id: t.id, units: t.burst_time }, run_model(rest, q), id);
        } else {
            let t2 = after_slice(t, q);
            lemma_total_burst_push(rest, t2);
            lemma_burst_for_push(rest, t2, id);
            lemma_conservation(rest.push(t2), q, id);
            lemma_units_for_cons(Event { id: t.id, units: q }, run_model(rest.push(t2), q), id);
        }
    }
}

/// Every emitted event reports between 1 and `q` work units: a slice is
/// clamped to the quantum and a zero-work event is never emitted.
pub proof fn lemma_units_in_range(ts: Seq<Task>, q: usize)
    requires
        q >= 1,
    ensures
        forall|k: int|
            0 <= k < run_model(ts, q).len() ==> 1 <= (#[trigger] run_model(ts, q)[k]).units <= q,
    decreases total_burst(ts) + ts.len(),
{
    if ts.len() > 0 {
        lemma_best_index_props(ts);
        let b = best_index(ts);
        let t = ts[b];
        let rest = ts.remove(b);
        lemma_total_burst_remove(ts, b);
        lemma_total_burst_nonneg(rest);
        if t.burst_time == 0 {
            lemma_units_in_range(rest, q);
        } else if t.burst_time <= q {
            lemma_units_in_range(rest, q);
            let e = Event { id: t.id, units: t.burst_time };
            let tr = run_model(ts, q);
            assert(tr == seq![e] + run_model(rest, q));
            assert forall|k: int| 0 <= k < tr.len() implies 1 <= (#[trigger] tr[k]).units <= q by {
                if k >= 1 {
                    assert(tr[k] == run_model(rest, q)[k - 1]);
                }
            }
        } else {
            let t2 = after_slice(t, q);
            lemma_total_burst_push(rest, t2);
            lemma_units_in_range(rest.push(t2), q);
            let e = Event { id: t.id, units: q };
            let tr = run_model(ts, q);
            assert(tr == seq![e] + run_model(rest.push(t2), q));
            assert forall|k: int| 0 <= k < tr.len() implies 1 <= (#[trigger] tr[k]).units <= q by {
                if k >= 1 {
                    assert(tr[k] == run_model(rest.push(t2), q)[k - 1]);
                }
            }
        }
    }
}

/// An id held by no task in the ready set never appears in the trace.
pub proof fn lemma_absent_id_silent(ts: Seq<Task>, q: usize, id: usize)
    requires
        q >= 1,
        forall|j: int| 0 <= j < ts.len() ==> (#[trigger] ts[j]).id != id,
    ensures
        forall|k: int| 0 <= k < run_model(ts, q).len() ==> (#[trigger] run_model(ts, q)[k]).id != id,
    decreases total_burst(ts) + ts.len(),
{
    if ts.len() > 0 {
        lemma_best_index_props(ts);
        let b = best_index(ts);
        let t = ts[b];
        let rest = ts.remove(b);
        lemma_total_burst_remove(ts, b);
        lemma_total_burst_nonneg(rest);
        assert forall|j: int| 0 <= j < rest.len() implies (#[trigger] rest[j]).id != id by {
            if j < b {
                assert(rest[j] == ts[j]);
            } else {
                assert(rest[j] == ts[j + 1]);
            }
        }
        if t.burst_time == 0 {
            lemma_absent_id_silent(rest, q, id);
        } else if t.burst_time <= q {
            lemma_absent_id_silent(rest, q, id);
            let e = Event { id: t.id, units: t.burst_time };
            let tr = run_model(ts, q);
            assert(tr == seq![e] + run_model(rest, q));
            assert forall|k: int| 0 <= k < tr.len() implies (#[trigger] tr[k]).id != id by {
                if k >= 1 {
                    assert(tr[k] == run_model(rest, q)[k - 1]);
                }
            }
        } else {
            let t2 = after_slice(t, q);
            lemma_total_burst_push(rest, t2);
            let next = rest.push(t2);
            assert forall|j: int| 0 <= j < next.len() implies (#[trigger] next[j]).id != id by {
                if j < rest.len() {
                    assert(next[j] == rest[j]);
                } else {
                    assert(next[j] == t2);
                }
            }
            lemma_absent_id_silent(next, q, id);
            let e = Event { id: t.id, units: q };
            let tr = run_model(ts, q);
            assert(tr == seq![e] + run_model(next, q));
            assert forall|k: int| 0 <= k < tr.len() implies (#[trigger] tr[k]).id != id by {
                if k >= 1 {
                    assert(tr[k] == run_model(next, q)[k - 1]);
                }
            }
        }
    }
}

/// A trace with no event for `id` credits it no work.
proof fn lemma_units_for_silent(evs: Seq<Event>, id: usize)
    requires
        forall|k: int| 0 <= k < evs.len() ==> (#[trigger] evs[k]).id != id,
    ensures
        units_for(evs, id) == 0,
    decreases evs.len(),
{
    if evs.len() > 0 {
        assert forall|k: int|
            0 <= k < evs.drop_first().len() implies (#[trigger] evs.drop_first()[k]).id != id by {
            assert(evs.drop_first()[k] == evs[k + 1]);
        }
        lemma_units_for_silent(evs.drop_first(), id);
    }
}

/// Every task admitted with positive work executes at least once: some
/// event in the trace carries its id.  Together with the termination of
/// `Scheduler::run` (its loop strictly decreases the remaining work) and
/// its postcondition that the ready set drains, this is the guarantee
/// that every task is driven to completion.
pub proof fn lemma_every_task_runs(ts: Seq<Task>, q: usize, id: usize)
    requires
        q >= 1,
        burst_for(ts, id) > 0,
    ensures
        exists|k: int| 0 <= k < run_model(ts, q).len() && (#[trigger] run_model(ts, q)[k]).id == id,
{
    lemma_conservation(ts, q, id);
    if forall|k: int| 0 <= k < run_model(ts, q).len() ==> (#[trigger] run_model(ts, q)[k]).id != id {
        lemma_units_for_silent(run_model(ts, q), id);
    }
}

/// Non-reentry: a completed task never reappears.  Wherever an event for
/// `id` stands in the trace, the work credited to `id` strictly before it
/// has not yet exhausted the task's original burst — once the burst is
/// spent, no further event for that id can exist.
pub proof fn lemma_non_reentry(ts: Seq<Task>, q: usize, id: usize, j: int)
    requires
        q >= 1,
        0 <= j < run_model(ts, q).len(),
        run_model(ts, q)[j].id == id,
    ensures
        units_for(run_model(ts, q).take(j), id) < burst_for(ts, id),
{
    let tr = run_model(ts, q);
    lemma_conservation(ts, q, id);
    lemma_units_in_range(ts, q);
    assert(tr =~= tr.take(j) + tr.skip(j));
    lemma_units_for_concat(tr.take(j), tr.skip(j), id);
    assert(tr.skip(j)[0] == tr[j]);
    assert(tr.skip(j).drop_first() =~= tr.skip(j + 1));
    lemma_units_for_nonneg(tr.skip(j).drop_first(), id);
    assert(units_for(tr.skip(j), id) == tr[j].units + units_for(tr.skip(j).drop_first(), id));
}

/// No two tasks share an id.
pub open spec fn distinct_ids(ts: Seq<Task>) -> bool {
    forall|j: int, k: int|
        0 <= j < k < ts.len() ==> (#[trigger] ts[j]).id != (#[trigger] ts[k]).id
}

/// Removing a task keeps the remaining ids distinct, and none of them is
/// the removed task's id.
proof fn lemma_distinct_remove(ts: Seq<Task>, i: int)
    requires
        distinct_ids(ts),
        0 <= i < ts.len(),
    ensures
        distinct_ids(ts.remove(i)),
        forall|j: int| 0 <= j < ts.remove(i).len() ==> (#[trigger] ts.remove(i)[j]).id != ts[i].id,
{
    let rest = ts.remove(i);
    assert forall|j: int, k: int|
        0 <= j < k < rest.len() implies (#[trigger] rest[j]).id != (#[trigger] rest[k]).id by {
        if j < i {
            assert(rest[j] == ts[j]);
        } else {
            assert(rest[j] == ts[j + 1]);
        }
        if k < i {
            assert(rest[k] == ts[k]);
        } else {
            assert(rest[k] == ts[k + 1]);
        }
    }
    assert forall|j: int| 0 <= j < rest.len() implies (#[trigger] rest[j]).id != ts[i].id by {
        if j < i {
            assert(rest[j] == ts[j]);
        } else {
            assert(rest[j] == ts[j + 1]);
        }
    }
}

/// Re-admitting a task with a fresh id keeps the ids distinct.
proof fn lemma_distinct_push(ts: Seq<Task>, t: Task)
    requires
        distinct_ids(ts),
        forall|j: int| 0 <= j < ts.len() ==> (#[trigger] ts[j]).id != t.id,
    ensures
        distinct_ids(ts.push(t)),
{
    let ext = ts.push(t);
    assert forall|j: int, k: int|
        0 <= j < k < ext.len() implies (#[trigger] ext[j]).id != (#[trigger] ext[k]).id by {
        assert(ext[j] == ts[j]);
        if k < ts.len() {
            assert(ext[k] == ts[k]);
        } else {
            assert(ext[k] == t);
        }
    }
}

/// Priority precedence: while the ready set holds a task with id `aid`
/// whose priority is at most `cap`, and every task with id `bid` sits in
/// a strictly less urgent class (priority above `cap`), no event for
/// `bid` ever precedes an event for `aid` — the urgent task fully drains
/// before the other is touched.
pub proof fn lemma_priority_precedence(ts: Seq<Task>, q: usize, aid: usize, bid: usize, cap: usize)
    requires
        q >= 1,
        aid != bid,
        distinct_ids(ts),
        exists|j: int| 0 <= j < ts.len() && (#[trigger] ts[j]).id == aid && ts[j].priority <= cap,
        forall|k: int| 0 <= k < ts.len() && (#[trigger] ts[k]).id == bid ==> ts[k].priority > cap,
    ensures
        forall|i: int, j: int|
            0 <= i < j < run_model(ts, q).len() && (#[trigger] run_model(ts, q)[i]).id == bid
                ==> (#[trigger] run_model(ts, q)[j]).id != aid,
    decreases total_burst(ts) + ts.len(),
{
    let tr = run_model(ts, q);
    lemma_best_index_props(ts);
    let b = best_index(ts);
    let t = ts[b];
    let rest = ts.remove(b);
    lemma_total_burst_remove(ts, b);
    lemma_total_burst_nonneg(rest);
    lemma_distinct_remove(ts, b);
    let ja = choose|j: int| 0 <= j < ts.len() && (#[trigger] ts[j]).id == aid && ts[j].priority
        <= cap;
    assert forall|j: int| 0 <= j < b implies #[trigger] rest[j] == ts[j] by {}
    assert forall|j: int| b <= j < rest.len() implies #[trigger] rest[j] == ts[j + 1] by {}
    assert forall|k: int|
        0 <= k < rest.len() && (#[trigger] rest[k]).id == bid implies rest[k].priority > cap by {
        if k < b {
            assert(rest[k] == ts[k]);
        } else {
            assert(rest[k] == ts[k + 1]);
        }
    }
    if t.id == bid {
        // Impossible: the best-ranked task cannot sit in a worse class
        // than a task that is still present.
        assert(ts[b].priority > cap);
        assert(precedes(ts[ja], ts[b]));
        assert(false);
    } else if t.id == aid {
        // The urgent task itself runs; after it completes, no event can
        // carry its id at all.
        if t.burst_time == 0 {
            lemma_absent_id_silent(rest, q, aid);
            assert(tr == run_model(rest, q));
        } else if t.burst_time <= q {
            lemma_absent_id_silent(rest, q, aid);
            let e = Event { id: t.id, units: t.burst_time };
            assert(tr == seq![e] + run_model(rest, q));
            assert forall|i: int, j: int|
                0 <= i < j < tr.len() && (#[trigger] tr[i]).id == bid implies
                (#[trigger] tr[j]).id != aid by {
                assert(tr[j] == run_model(rest, q)[j - 1]);
            }
        } else {
            let t2 = after_slice(t, q);
            lemma_total_burst_push(rest, t2);
            lemma_distinct_push(rest, t2);
            let next = rest.push(t2);
            assert(next[rest.len() as int] == t2);
            assert forall|k: int|
                0 <= k < next.len() && (#[trigger] next[k]).id == bid implies next[k].priority
                > cap by {
                assert(next[k] == rest[k]);
            }
            lemma_priority_precedence(next, q, aid, bid, cap);
            let e = Event { id: t.id, units: q };
            assert(tr == seq![e] + run_model(next, q));
            assert forall|i: int, j: int|
                0 <= i < j < tr.len() && (#[trigger] tr[i]).id == bid implies
                (#[trigger] tr[j]).id != aid by {
                assert(tr[i] == run_model(next, q)[i - 1]);
                assert(tr[j] == run_model(next, q)[j - 1]);
            }
        }
    } else {
        // Some unrelated task runs; both hypotheses carry over to the
        // rest of the drain.
        let ja2: int = if ja < b {
            ja
        } else {
            ja - 1
        };
        assert(rest[ja2] == ts[ja]);
        if t.burst_time == 0 {
            lemma_priority_precedence(rest, q, aid, bid, cap);
            assert(tr == run_model(rest, q));
        } else if t.burst_time <= q {
            lemma_priority_precedence(rest, q, aid, bid, cap);
            let e = Event { id: t.id, units: t.burst_time };
            assert(tr == seq![e] + run_model(rest, q));
            assert forall|i: int, j: int|
                0 <= i < j < tr.len() && (#[trigger] tr[i]).id == bid implies
                (#[trigger] tr[j]).id != aid by {
                assert(tr[i] == run_model(rest, q)[i - 1]);
                assert(tr[j] == run_model(rest, q)[j - 1]);
            }
        } else {
            let t2 = after_slice(t, q);
            lemma_total_burst_push(rest, t2);
            lemma_distinct_push(rest, t2);
            let next = rest.push(t2);
            assert(next[ja2] == rest[ja2]);
            assert forall|k: int|
                0 <= k < next.len() && (#[trigger] next[k]).id == bid implies next[k].priority
                > cap by {
                if k < rest.len() {
                    assert(next[k] == rest[k]);
                } else {
                    assert(next[k] == t2);
                }
            }
            lemma_priority_precedence(next, q, aid, bid, cap);
            let e = Event { id: t.id, units: q };
            assert(tr == seq![e] + run_model(next, q));
            assert forall|i: int, j: int|
                0 <= i < j < tr.len() && (#[trigger] tr[i]).id == bid implies
                (#[trigger] tr[j]).id != aid by {
                assert(tr[i] == run_model(next, q)[i - 1]);
                assert(tr[j] == run_model(next, q)[j - 1]);
            }
        }
    }
}

} // verus!
