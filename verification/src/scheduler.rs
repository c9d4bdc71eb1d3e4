//! The scheduler: a ready set drained by a priority round-robin run loop.
//!
//! The observable behaviour of the run loop is captured by the spec
//! function [`run_model`]: from a sequence of tasks and a positive quantum
//! it yields the exact ordered sequence of execution events.  The
//! executable [`Scheduler::run`] is proved to return precisely that
//! sequence.

use vstd::prelude::*;

use crate::task::{precedes, Task, TaskState};

verus! {

/// One scheduling decision: task `id` ran for `units` work units.
#[derive(Clone, Copy, Debug, PartialEq, Eq, Structural)]
pub struct Event {
    pub id: usize,
    pub units: usize,
}

/// Sum of the remaining work over a sequence of tasks.
pub open spec fn total_burst(ts: Seq<Task>) -> int
    decreases ts.len(),
{
    if ts.len() == 0 {
        0
    } else {
        ts[0].burst_time + total_burst(ts.drop_first())
    }
}

pub proof fn lemma_total_burst_nonneg(ts: Seq<Task>)
    ensures
        total_burst(ts) >= 0,
    decreases ts.len(),
{
    if ts.len() > 0 {
        lemma_total_burst_nonneg(ts.drop_first());
    }
}

pub proof fn lemma_total_burst_push(ts: Seq<Task>, t: Task)
    ensures
        total_burst(ts.push(t)) == total_burst(ts) + t.burst_time,
    decreases ts.len(),
{
    if ts.len() == 0 {
        assert(ts.push(t).drop_first() =~= Seq::<Task>::empty());
        assert(ts.push(t)[0] == t);
        assert(total_burst(Seq::<Task>::empty()) == 0);
    } else {
        assert(ts.push(t)[0] == ts[0]);
        assert(ts.push(t).drop_first() =~= ts.drop_first().push(t));
        lemma_total_burst_push(ts.drop_first(), t);
    }
}

pub proof fn lemma_total_burst_remove(ts: Seq<Task>, i: int)
    requires
        0 <= i < ts.len(),
    ensures
        total_burst(ts.remove(i)) == total_burst(ts) - ts[i].burst_time,
    decreases ts.len(),
{
    if i == 0 {
        assert(ts.remove(0) =~= ts.drop_first());
    } else {
        assert(ts.remove(i).drop_first() =~= ts.drop_first().remove(i - 1));
        lemma_total_burst_remove(ts.drop_first(), i - 1);
    }
}

/// The index the run loop selects next: the first position holding a task
/// that no other task in the sequence strictly precedes.
pub open spec fn best_index(ts: Seq<Task>) -> int
    decreases ts.len(),
{
    if ts.len() <= 1 {
        0
    } else {
        let rest = best_index(ts.drop_first()) + 1;
        if precedes(ts[rest], ts[0]) {
            rest
        } else {
            0
        }
    }
}

/// `best_index` lands in range, on a task that nothing strictly precedes,
/// and every earlier task is strictly worse-ranked (so it is the first
/// such position).
pub proof fn lemma_best_index_props(ts: Seq<Task>)
    requires
        ts.len() > 0,
    ensures
        0 <= best_index(ts) < ts.len(),
        forall|j: int| 0 <= j < ts.len() ==> !precedes(#[trigger] ts[j], ts[best_index(ts)]),
        forall|j: int| 0 <= j < best_index(ts) ==> precedes(ts[best_index(ts)], #[trigger] ts[j]),
    decreases ts.len(),
{
    if ts.len() > 1 {
        let d = ts.drop_first();
        lemma_best_index_props(d);
        let bd = best_index(d);
        let b = best_index(ts);
        assert(forall|j: int| 1 <= j < ts.len() ==> #[trigger] ts[j] == d[j - 1]);
        if precedes(ts[bd + 1], ts[0]) {
            assert(b == bd + 1);
            assert forall|j: int| 0 <= j < ts.len() implies !precedes(#[trigger] ts[j], ts[b]) by {
                if j >= 1 {
                    assert(!precedes(d[j - 1], d[bd]));
                }
            }
            assert forall|j: int| 0 <= j < b implies precedes(ts[b], #[trigger] ts[j]) by {
                if j >= 1 {
                    assert(precedes(d[bd], d[j - 1]));
                }
            }
        } else {
            assert(b == 0);
            assert forall|j: int| 0 <= j < ts.len() implies !precedes(#[trigger] ts[j], ts[b]) by {
                if j >= 1 {
                    assert(!precedes(d[j - 1], d[bd]));
                    assert(!precedes(ts[bd + 1], ts[0]));
                }
            }
        }
    }
}

/// The task re-admitted after an unfinished slice: same identity and
/// priority, burst reduced by the quantum, marked `Waiting`.
pub open spec fn after_slice(t: Task, q: usize) -> Task
    recommends
        t.burst_time > q,
{
    Task {
        id: t.id,
        burst_time: (t.burst_time - q) as usize,
        priority: t.priority,
        state: TaskState::Waiting,
    }
}

/// The exact event sequence the run loop emits on a ready set `ts` with
/// quantum `q`: repeatedly take the best-ranked task; discard it silently
/// if it carries no work; complete it in one event if its burst fits in
/// the quantum; otherwise run it for a full quantum and re-admit it.
pub open spec fn run_model(ts: Seq<Task>, q: usize) -> Seq<Event>
    decreases total_burst(ts) + ts.len()
        when q >= 1
        via run_model_decreases
{
    if ts.len() == 0 {
        Seq::empty()
    } else {
        let t = ts[best_index(ts)];
        let rest = ts.remove(best_index(ts));
        if t.burst_time == 0 {
            run_model(rest, q)
        } else if t.burst_time <= q {
            seq![Event { id: t.id, units: t.burst_time }] + run_model(rest, q)
        } else {
            seq![Event { id: t.id, units: q }] + run_model(rest.push(after_slice(t, q)), q)
        }
    }
}

#[via_fn]
proof fn run_model_decreases(ts: Seq<Task>, q: usize) {
    if ts.len() > 0 {
        lemma_best_index_props(ts);
        let b = best_index(ts);
        let rest = ts.remove(b);
        lemma_total_burst_remove(ts, b);
        lemma_total_burst_nonneg(rest);
        if ts[b].burst_time > q {
            lemma_total_burst_push(rest, after_slice(ts[b], q));
        }
    }
}

/// A priority round-robin scheduler: a ready set of admitted tasks and a
/// fixed positive time quantum.
pub struct Scheduler {
    pub ready_set: Vec<Task>,
    pub time_quantum: usize,
}

impl Scheduler {
    /// Well-formedness: the quantum grants at least one work unit per
    /// slice, so every execution step makes progress.
    pub open spec fn wf(self) -> bool {
        self.time_quantum >= 1
    }

    /// Constructs a scheduler with an empty ready set.  A quantum of zero
    /// would make no forward progress, so it is ruled out here.
    pub fn new(time_quantum: usize) -> (s: Scheduler)
        requires
            time_quantum >= 1,
        ensures
            s.wf(),
            s.time_quantum == time_quantum,
            s.ready_set@ == Seq::<Task>::empty(),
    {
        Scheduler { ready_set: Vec::new(), time_quantum }
    }

    /// Admits a task to the ready set.  A task whose `burst_time` is
    /// already zero is accepted and will be discarded silently by `run`,
    /// without an execution event.
    pub fn add_task(&mut self, task: Task)
        ensures
            final(self).ready_set@ == old(self).ready_set@.push(task),
            final(self).time_quantum == old(self).time_quantum,
    {
        self.ready_set.push(task);
    }

    /// The position of the task the run loop must pick next: the first
    /// element of the ready set that no other element strictly precedes.
    fn best_slot(&self) -> (b: usize)
        requires
            self.ready_set.len() > 0,
        ensures
            b as int == best_index(self.ready_set@),
    {
        let ghost ts = self.ready_set@;
        let mut best: usize = 0;
        let mut k: usize = 1;
        while k < self.ready_set.len()
            invariant
                self.ready_set@ == ts,
                ts.len() > 0,
                best < k,
                k <= ts.len(),
                forall|j: int| 0 <= j < k ==> !precedes(#[trigger] ts[j], ts[best as int]),
                forall|j: int| 0 <= j < best ==> precedes(ts[best as int], #[trigger] ts[j]),
            decreases ts.len() - k,
        {
            if self.ready_set[k].precedes(&self.ready_set[best]) {
                proof {
                    assert forall|j: int| 0 <= j < k as int implies precedes(
                        ts[k as int],
                        #[trigger] ts[j],
                    ) by {
                        assert(!precedes(ts[j], ts[best as int]));
                    }
                }
                best = k;
            }
            k = k + 1;
        }
        proof {
            lemma_best_index_props(ts);
            let bi = best_index(ts);
            if (best as int) < bi {
                assert(precedes(ts[bi], ts[best as int]));
            } else if bi < best as int {
                assert(precedes(ts[best as int], ts[bi]));
            }
        }
        best
    }

    /// Drains the ready set to completion and returns the full ordered
    /// event sequence, exactly as `run_model` describes it.
    pub fn run(&mut self) -> (events: Vec<Event>)
        requires
            old(self).wf(),
        ensures
            final(self).wf(),
            final(self).time_quantum == old(self).time_quantum,
            final(self).ready_set@.len() == 0,
            events@ == run_model(old(self).ready_set@, old(self).time_quantum),
    {
        let ghost q = self.time_quantum;
        let ghost init = self.ready_set@;
        let mut events: Vec<Event> = Vec::new();
        while self.ready_set.len() > 0
            invariant
                self.time_quantum == q,
                q >= 1,
                events@ + run_model(self.ready_set@, q) == run_model(init, q),
            decreases total_burst(self.ready_set@) + self.ready_set@.len(),
        {
            let ghost pre = self.ready_set@;
            proof {
                lemma_best_index_props(pre);
                lemma_total_burst_remove(pre, best_index(pre));
                lemma_total_burst_nonneg(pre.remove(best_index(pre)));
            }
            let b = self.best_slot();
            let mut task = self.ready_set.remove(b);
            task.state = TaskState::Running;
            if task.burst_time == 0 {
                // Admitted with no work left: discard without an event.
            } else if task.burst_time <= self.time_quantum {
                let units = task.burst_time;
                task.burst_time = 0;
                task.state = TaskState::Completed;
                let ghost evs0 = events@;
                events.push(Event { id: task.id, units });
                proof {
                    let ev = Event { id: pre[best_index(pre)].id, units: pre[best_index(pre)].burst_time };
                    assert(run_model(pre, q) == seq![ev] + run_model(self.ready_set@, q));
                    assert(evs0 + (seq![ev] + run_model(self.ready_set@, q)) =~= (evs0 + seq![ev])
                        + run_model(self.ready_set@, q));
                }
            } else {
                let units = self.time_quantum;
                task.burst_time = task.burst_time - units;
                task.state = TaskState::Waiting;
                let ghost evs0 = events@;
                events.push(Event { id: task.id, units });
                self.ready_set.push(task);
                proof {
                    let t = pre[best_index(pre)];
                    let ev = Event { id: t.id, units: q };
                    assert(task == after_slice(t, q));
                    assert(self.ready_set@ == pre.remove(best_index(pre)).push(after_slice(t, q)));
                    assert(run_model(pre, q) == seq![ev] + run_model(self.ready_set@, q));
                    assert(evs0 + (seq![ev] + run_model(self.ready_set@, q)) =~= (evs0 + seq![ev])
                        + run_model(self.ready_set@, q));
                    lemma_total_burst_push(pre.remove(best_index(pre)), after_slice(t, q));
                }
            }
        }
        proof {
            assert(run_model(self.ready_set@, q) =~= Seq::<Event>::empty());
            assert(events@ + Seq::<Event>::empty() =~= events@);
        }
        events
    }
}

} // verus!
