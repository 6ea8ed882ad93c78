use zyvor_janus::events::{Event, EventKind, EventQueue};

#[test]
fn events_pop_in_time_order() {
    let mut q = EventQueue::new();
    q.push(Event { time: 10, kind: EventKind::JobComplete, job_id: "a".into(), run_generation: 1 });
    q.push(Event { time: 5, kind: EventKind::JobArrival, job_id: "b".into(), run_generation: 0 });
    assert_eq!(q.pop().unwrap().time, 5);
    assert_eq!(q.pop().unwrap().time, 10);
}

#[test]
fn equal_times_pop_larger_job_id_first() {
    let mut q = EventQueue::new();
    q.push(Event { time: 7, kind: EventKind::JobArrival, job_id: "a".into(), run_generation: 0 });
    q.push(Event { time: 7, kind: EventKind::JobArrival, job_id: "c".into(), run_generation: 0 });
    q.push(Event { time: 7, kind: EventKind::JobArrival, job_id: "b".into(), run_generation: 0 });
    assert_eq!(q.next_time(), Some(7));
    assert_eq!(q.pop().unwrap().job_id, "c");
    assert_eq!(q.pop().unwrap().job_id, "b");
    assert_eq!(q.pop().unwrap().job_id, "a");
    assert!(q.pop().is_none());
    assert!(q.is_empty());
    assert_eq!(q.len(), 0);
}
