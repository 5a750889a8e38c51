use nomarch::pipeline::{Pipeline, Service};
use nomarch::processor::{report_event_status, Event, EventBatch, Outcome, Processor};

const A: u128 = 0xA;
const B: u128 = 0xB;
const C: u128 = 0xC;

fn service(name: &str, required: bool) -> Service {
    Service { name: name.to_string(), children: vec![], required }
}

/// Two required services (bits 1 and 2) and one optional one (bit 4).
fn pipeline(ttl: i64) -> Pipeline {
    Pipeline {
        name: "orders".to_string(),
        max_seconds_to_reach_end: ttl,
        seconds_from_startup_to_ignore_event_evaluation: 0,
        services: vec![service("api", true), service("billing", true), service("mail", false)],
    }
}

fn batch(mask: u32, ids: &[u128]) -> EventBatch {
    EventBatch { service_mask: mask, events: ids.to_vec() }
}

fn ledger(p: &Processor) -> Vec<(u128, u32, u32)> {
    p.events().iter().map(|e| (e.id, e.timestamp, e.services)).collect()
}

#[test]
fn required_services_complete_an_event() {
    // started at 0 with a budget of 10: the warm-up window ends at 10
    let mut p = Processor::new(pipeline(10), 0);
    p.merge(&batch(0b001, &[A]));
    p.merge(&batch(0b010, &[A]));
    assert_eq!(p.sweep(20), vec![]);
    assert_eq!(ledger(&p), vec![(A, 20, 0b011)]);
    let out = p.sweep(21);
    assert_eq!(out, vec![Outcome { id: A, complete: true, services: 0b011 }]);
    assert!(p.events().is_empty());
}

#[test]
fn partial_event_expires_incomplete() {
    let mut p = Processor::new(pipeline(10), 0);
    p.merge(&batch(0b001, &[B]));
    assert_eq!(p.sweep(0), vec![]);
    assert_eq!(p.sweep(10), vec![]);
    assert_eq!(ledger(&p), vec![(B, 0, 0b001)]);
    let out = p.sweep(11);
    assert_eq!(out, vec![Outcome { id: B, complete: false, services: 0b001 }]);
    assert!(p.events().is_empty());
}

#[test]
fn three_productive_sweeps_end_the_warm_up() {
    let mut p = Processor::new(pipeline(100), 0);
    p.merge(&batch(0b011, &[A]));
    p.sweep(1);
    assert!(p.grace_period().within_grace_period(5));
    // each of the next three sweeps resolves one event; the first is held back
    p.merge(&batch(0b011, &[B]));
    assert_eq!(p.sweep(2), vec![]);
    assert!(p.grace_period().within_grace_period(5));
    p.merge(&batch(0b011, &[C]));
    assert_eq!(p.sweep(3), vec![]);
    assert!(p.grace_period().within_grace_period(5));
    assert_eq!(p.sweep(4), vec![]);
    assert!(!p.grace_period().within_grace_period(5));
    assert!(p.events().is_empty());
    p.merge(&batch(0b111, &[0xD]));
    p.sweep(5);
    assert_eq!(p.sweep(6), vec![Outcome { id: 0xD, complete: true, services: 0b111 }]);
}

#[test]
fn batch_order_does_not_change_the_mask() {
    let mut p = Processor::new(pipeline(10), 0);
    p.merge(&batch(0b100, &[A, B]));
    p.merge(&batch(0b001, &[B, A, A]));
    p.sweep(1);
    let mut q = Processor::new(pipeline(10), 0);
    q.merge(&batch(0b001, &[A, B]));
    q.merge(&batch(0b100, &[B, A]));
    q.merge(&batch(0b100, &[A]));
    q.sweep(1);
    let mut l = ledger(&p);
    let mut m = ledger(&q);
    l.sort();
    m.sort();
    assert_eq!(l, vec![(A, 1, 0b101), (B, 1, 0b101)]);
    assert_eq!(l, m);
}

#[test]
fn updates_are_or_ed_into_ledger_entries() {
    let mut p = Processor::new(pipeline(10), 0);
    p.merge(&batch(0b001, &[A]));
    p.sweep(1);
    p.merge(&batch(0b100, &[A]));
    p.merge(&batch(0b100, &[A]));
    p.sweep(2);
    assert_eq!(ledger(&p), vec![(A, 1, 0b101)]);
}

#[test]
fn ledger_stays_sorted_by_first_sighting() {
    let mut p = Processor::new(pipeline(10), 0);
    p.merge(&batch(0b001, &[A]));
    p.sweep(1);
    p.merge(&batch(0b001, &[B, A]));
    p.sweep(3);
    p.merge(&batch(0b100, &[C, A]));
    p.sweep(4);
    assert_eq!(ledger(&p), vec![(A, 1, 0b101), (B, 3, 0b001), (C, 4, 0b100)]);
    let stamps: Vec<u32> = p.events().iter().map(|e| e.timestamp).collect();
    assert!(stamps.windows(2).all(|w| w[0] <= w[1]));
}

#[test]
fn expiry_takes_only_the_overdue_prefix() {
    let mut p = Processor::new(pipeline(5), 0);
    p.merge(&batch(0b001, &[A]));
    p.sweep(1);
    p.merge(&batch(0b001, &[B]));
    p.sweep(4);
    // A is due after 6, B after 9
    assert_eq!(p.sweep(6), vec![]);
    assert_eq!(p.sweep(7), vec![Outcome { id: A, complete: false, services: 0b001 }]);
    assert_eq!(p.sweep(9), vec![]);
    assert_eq!(p.sweep(10), vec![Outcome { id: B, complete: false, services: 0b001 }]);
    assert!(p.events().is_empty());
}

#[test]
fn expiry_is_reported_during_warm_up() {
    let mut p = Processor::new(pipeline(1000), 0);
    p.merge(&batch(0b001, &[A]));
    p.sweep(0);
    assert!(p.grace_period().within_grace_period(0));
    assert_eq!(p.sweep(1001), vec![Outcome { id: A, complete: false, services: 0b001 }]);
}

#[test]
fn completion_is_held_back_during_warm_up_but_resolved() {
    let mut p = Processor::new(pipeline(10), 0);
    p.merge(&batch(0b011, &[A]));
    p.sweep(1);
    assert_eq!(p.sweep(2), vec![]);
    assert!(p.events().is_empty());
    assert_eq!(p.sweep(30), vec![]);
}

#[test]
fn empty_pipeline_completes_on_the_next_sweep() {
    let empty = Pipeline {
        name: "none".to_string(),
        max_seconds_to_reach_end: 10,
        seconds_from_startup_to_ignore_event_evaluation: 0,
        services: vec![],
    };
    let mut p = Processor::new(empty, 0);
    p.merge(&batch(0, &[A]));
    assert_eq!(p.sweep(20), vec![]);
    assert_eq!(p.sweep(21), vec![Outcome { id: A, complete: true, services: 0 }]);
}

#[test]
fn report_is_dropped_within_grace() {
    let ev = Event { id: A, timestamp: 3, services: 0b101 };
    assert_eq!(report_event_status(&ev, true, true), None);
    assert_eq!(
        report_event_status(&ev, false, false),
        Some(Outcome { id: A, complete: false, services: 0b101 })
    );
}

#[test]
fn new_processor_starts_empty() {
    let p = Processor::new(pipeline(10), 7);
    assert!(p.events().is_empty());
    assert_eq!(p.latest_sweep(), 7);
    assert_eq!(p.pipeline_spec().name, "orders");
    assert!(p.grace_period().within_grace_period(17));
    assert!(!p.grace_period().within_grace_period(18));
}
