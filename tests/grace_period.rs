use nomarch::grace_period::Detector;

#[test]
fn fresh_detector_suppresses_up_to_deadline() {
    let d = Detector::new(100);
    assert!(d.within_grace_period(0));
    assert!(d.within_grace_period(100));
    assert!(!d.within_grace_period(101));
}

#[test]
fn three_successful_ticks_close_the_window() {
    let mut d = Detector::new(100);
    d.register_successful_event();
    d.register_successful_event();
    assert!(d.within_grace_period(50));
    d.register_successful_event();
    assert!(!d.within_grace_period(50));
    assert!(!d.within_grace_period(0));
}

#[test]
fn closed_window_never_reopens() {
    let mut d = Detector::new(100);
    for _ in 0..3 {
        d.register_successful_event();
    }
    d.register_unsuccessful_event();
    d.register_unsuccessful_event();
    assert!(!d.within_grace_period(10));
    d.register_successful_event();
    assert!(!d.within_grace_period(10));
}

#[test]
fn unsuccessful_tick_restarts_the_count_before_the_latch() {
    let mut d = Detector::new(100);
    d.register_successful_event();
    d.register_successful_event();
    d.register_unsuccessful_event();
    d.register_successful_event();
    d.register_successful_event();
    assert!(d.within_grace_period(10));
    d.register_successful_event();
    assert!(!d.within_grace_period(10));
}

#[test]
fn negative_deadline_suppresses_nothing() {
    let d = Detector::new(-1);
    assert!(!d.within_grace_period(0));
}
