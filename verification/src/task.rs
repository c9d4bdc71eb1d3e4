//! The unit of work handed to the scheduler.

use vstd::prelude::*;

verus! {

/// Observational lifecycle marker.  The run loop never branches on it:
/// scheduling decisions are made from `burst_time` alone.
#[derive(Clone, Copy, Debug, PartialEq, Eq, Structural)]
pub enum TaskState {
    Ready,
    Running,
    Waiting,
    Completed,
}

/// A task: immutable identity (`id`) and priority, mutable remaining work
/// (`burst_time`), and an observational `state`.
///
/// A numerically smaller `priority` is more urgent.  Two tasks are equal
/// exactly when their ids match, independent of every other field.
#[derive(Clone, Copy, Debug)]
pub struct Task {
    pub id: usize,
    pub burst_time: usize,
    pub priority: usize,
    pub state: TaskState,
}

/// The strict scheduling order: `a` must run before `b` when `a` belongs to
/// a more urgent priority class, or to the same class with strictly less
/// remaining work.  Ties on both keys leave neither ranked before the other.
pub open spec fn precedes(a: Task, b: Task) -> bool {
    a.priority < b.priority || (a.priority == b.priority && a.burst_time < b.burst_time)
}

impl Task {
    /// Constructs a task in the `Ready` state.
    pub fn new(id: usize, burst_time: usize, priority: usize) -> (t: Task)
        ensures
            t.id == id,
            t.burst_time == burst_time,
            t.priority == priority,
            t.state == TaskState::Ready,
    {
        Task { id, burst_time, priority, state: TaskState::Ready }
    }

    /// True exactly when `self` ranks strictly before `other` in the
    /// scheduling order.
    pub fn precedes(&self, other: &Task) -> (r: bool)
        ensures
            r == precedes(*self, *other),
    {
        self.priority < other.priority
            || (self.priority == other.priority && self.burst_time < other.burst_time)
    }
}

impl PartialEq for Task {
    fn eq(&self, other: &Task) -> (r: bool) {
        self.id == other.id
    }
}

impl vstd::std_specs::cmp::PartialEqSpecImpl for Task {
    open spec fn obeys_eq_spec() -> bool {
        true
    }

    open spec fn eq_spec(&self, other: &Task) -> bool {
        self.id == other.id
    }
}

} // verus!
