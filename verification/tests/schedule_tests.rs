use subnet_monitor::schedule::{Directive, Scheduler, DEFAULT_POLL_DELAY_MS};

#[test]
fn default_poll_delay_is_two_seconds() {
    assert_eq!(DEFAULT_POLL_DELAY_MS, 2000);
}

#[test]
fn single_shot_runs_one_cycle_then_sleeps_then_stops() {
    let mut scheduler = Scheduler::new(false, 2000);
    assert!(!scheduler.is_stopped());
    assert_eq!(scheduler.next(), Directive::RunCycle);
    assert_eq!(scheduler.next(), Directive::Sleep(2000));
    assert!(!scheduler.is_stopped());
    assert_eq!(scheduler.next(), Directive::Stop);
    assert!(scheduler.is_stopped());
    assert_eq!(scheduler.next(), Directive::Stop);
    assert_eq!(scheduler.next(), Directive::Stop);
}

#[test]
fn repeating_alternates_cycle_and_sleep_without_end() {
    let mut scheduler = Scheduler::new(true, 50);
    for _ in 0..100 {
        assert_eq!(scheduler.next(), Directive::RunCycle);
        assert_eq!(scheduler.next(), Directive::Sleep(50));
        assert!(!scheduler.is_stopped());
    }
}
