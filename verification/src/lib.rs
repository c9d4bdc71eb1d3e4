//! A priority-based round-robin CPU scheduler.
//!
//! Tasks carry a fixed identity and priority and a remaining-burst counter.
//! The scheduler repeatedly picks the best-ranked task (lowest priority
//! value first, shortest remaining burst on ties), runs it for up to one
//! time quantum, and re-admits it if work remains.  The observable output
//! is the ordered sequence of `(id, run_units)` execution events, which
//! `Scheduler::run` returns and which is pinned down exactly by a
//! mathematical model of the run loop.

pub mod props;
pub mod scheduler;
pub mod task;
