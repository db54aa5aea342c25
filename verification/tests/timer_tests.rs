use diskann::timer::Timer;

#[test]
fn test_new() {
    let timer = Timer::new();
    assert!(timer.check_point.elapsed().as_secs() < 1);
    assert!(timer.pid.is_none());
    assert!(timer.cycles.is_none());
}

#[test]
fn step_report_names_the_step() {
    let timer = Timer::new();
    let line = timer.elapsed_seconds_for_step("build");
    assert!(line.starts_with("Time for build: "));
    assert!(line.ends_with(" seconds, 0.000B cycles"));
}

#[test]
fn reset_clears_cycles() {
    let mut timer = Timer::new();
    timer.reset();
    assert!(timer.cycles.is_none());
}
