use renet::timer::Timer;

#[test]
fn timer_finishes_after_duration() {
    let mut timer = Timer::new(100, 50);
    assert!(!timer.is_finished(100));
    assert!(!timer.is_finished(149));
    assert!(timer.is_finished(150));
    timer.reset(200);
    assert!(!timer.is_finished(220));
    assert!(timer.is_finished(250));
    timer.finish();
    assert!(timer.is_finished(200));
}
