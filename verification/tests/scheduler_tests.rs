use rr_scheduler::scheduler::{Event, Scheduler};
use rr_scheduler::task::{Task, TaskState};

fn run_workload(quantum: usize, tasks: &[(usize, usize, usize)]) -> Vec<Event> {
    let mut scheduler = Scheduler::new(quantum);
    for &(id, burst, priority) in tasks {
        scheduler.add_task(Task::new(id, burst, priority));
    }
    scheduler.run()
}

#[test]
fn task_new_sets_fields_and_ready_state() {
    let t = Task::new(4, 11, 2);
    assert_eq!(t.id, 4);
    assert_eq!(t.burst_time, 11);
    assert_eq!(t.priority, 2);
    assert!(t.state == TaskState::Ready);
}

#[test]
fn task_equality_is_by_id_alone() {
    assert_eq!(Task::new(1, 5, 2), Task::new(1, 9, 9));
    assert_ne!(Task::new(1, 5, 2), Task::new(2, 5, 2));
}

#[test]
fn precedes_orders_by_priority_then_burst() {
    let urgent = Task::new(0, 9, 1);
    let lazy = Task::new(1, 2, 3);
    assert!(urgent.precedes(&lazy));
    assert!(!lazy.precedes(&urgent));

    let short = Task::new(2, 3, 2);
    let long = Task::new(3, 7, 2);
    assert!(short.precedes(&long));
    assert!(!long.precedes(&short));

    let twin = Task::new(4, 3, 2);
    assert!(!short.precedes(&twin));
    assert!(!twin.precedes(&short));
}

#[test]
fn empty_scheduler_emits_nothing() {
    let mut scheduler = Scheduler::new(5);
    let events = scheduler.run();
    assert!(events.is_empty());
}

#[test]
fn zero_burst_task_is_discarded_silently() {
    let events = run_workload(5, &[(0, 0, 1), (1, 4, 2)]);
    assert_eq!(events, vec![Event { id: 1, units: 4 }]);
}

#[test]
fn burst_equal_to_quantum_completes_in_one_event() {
    let events = run_workload(5, &[(0, 5, 1)]);
    assert_eq!(events, vec![Event { id: 0, units: 5 }]);
}

#[test]
fn quantum_clamps_a_long_burst() {
    // burst 7 with quantum 5: exactly (id, 5) then (id, 2)
    let events = run_workload(5, &[(9, 7, 1)]);
    assert_eq!(events, vec![Event { id: 9, units: 5 }, Event { id: 9, units: 2 }]);
}

#[test]
fn equal_priority_ties_go_to_the_shorter_burst() {
    // bursts 3 and 7 at one priority, quantum 5: the short task finishes
    // in one step before the long task's second step begins
    let events = run_workload(5, &[(0, 3, 1), (1, 7, 1)]);
    assert_eq!(
        events,
        vec![
            Event { id: 0, units: 3 },
            Event { id: 1, units: 5 },
            Event { id: 1, units: 2 },
        ]
    );
}

#[test]
fn urgent_class_drains_before_a_worse_class_starts() {
    let events = run_workload(5, &[(0, 12, 1), (1, 4, 2)]);
    assert_eq!(
        events,
        vec![
            Event { id: 0, units: 5 },
            Event { id: 0, units: 5 },
            Event { id: 0, units: 2 },
            Event { id: 1, units: 4 },
        ]
    );
    let last_urgent = events.iter().rposition(|e| e.id == 0).unwrap();
    let first_lazy = events.iter().position(|e| e.id == 1).unwrap();
    assert!(last_urgent < first_lazy);
}

#[test]
fn emitted_units_conserve_each_burst() {
    let workload = [(0, 7, 2), (1, 3, 1), (2, 9, 3), (3, 5, 2)];
    let events = run_workload(5, &workload);
    for &(id, burst, _) in &workload {
        let total: usize = events.iter().filter(|e| e.id == id).map(|e| e.units).sum();
        assert_eq!(total, burst);
    }
}

#[test]
fn completed_tasks_never_reappear() {
    let workload = [(0, 7, 2), (1, 3, 1), (2, 9, 3), (3, 5, 2)];
    let events = run_workload(5, &workload);
    for &(id, burst, _) in &workload {
        let mut done_at = None;
        let mut spent = 0;
        for (k, e) in events.iter().enumerate() {
            if e.id == id {
                assert!(done_at.is_none());
                spent += e.units;
                if spent == burst {
                    done_at = Some(k);
                }
            }
        }
        assert!(done_at.is_some());
    }
}

#[test]
fn every_event_stays_within_the_quantum() {
    let events = run_workload(4, &[(0, 13, 1), (1, 1, 2), (2, 8, 1)]);
    for e in &events {
        assert!(e.units >= 1 && e.units <= 4);
    }
}

#[test]
fn reference_workload_trace() {
    // quantum 5; tasks (id, burst, priority): the priority-1 task drains
    // first; in the priority-2 class the burst-5 task precedes the
    // burst-7 task (shorter job first); the priority-3 task runs last.
    let events = run_workload(5, &[(0, 7, 2), (1, 3, 1), (2, 9, 3), (3, 5, 2)]);
    assert_eq!(
        events,
        vec![
            Event { id: 1, units: 3 },
            Event { id: 3, units: 5 },
            Event { id: 0, units: 5 },
            Event { id: 0, units: 2 },
            Event { id: 2, units: 5 },
            Event { id: 2, units: 4 },
        ]
    );
}

#[test]
fn run_leaves_the_scheduler_empty() {
    let mut scheduler = Scheduler::new(3);
    scheduler.add_task(Task::new(0, 6, 1));
    scheduler.add_task(Task::new(1, 2, 2));
    let first = scheduler.run();
    assert_eq!(first.len(), 3);
    let second = scheduler.run();
    assert!(second.is_empty());
}
