use firmware::clock::CurrentTime;
use firmware::health::LinkHealth;
use firmware::timer::PeriodicTimer;

#[test]
fn clock_starts_unset() {
    let c = CurrentTime::new();
    assert!(!c.is_set());
    assert_eq!(c.as_millis(), None);
    assert_eq!(c.as_millis_raw(), 0);
}

#[test]
fn default_clock_matches_new() {
    let c = CurrentTime::default();
    assert!(!c.is_set());
    assert_eq!(c.as_millis(), None);
}

#[test]
fn updated_clock_reports_its_time() {
    let mut c = CurrentTime::new();
    c.update_time(1_700_000_000_000);
    assert!(c.is_set());
    assert_eq!(c.as_millis(), Some(1_700_000_000_000));
    assert_eq!(c.as_millis_raw(), 1_700_000_000_000);
    c.update_time(1_700_000_000_123);
    assert_eq!(c.as_millis(), Some(1_700_000_000_123));
}

#[test]
fn fresh_timer_is_due_at_once() {
    let t = PeriodicTimer::new(2000);
    assert!(t.is_due(0));
    assert!(t.is_due(u64::MAX));
}

#[test]
fn fired_timer_waits_strictly_more_than_its_interval() {
    let mut t = PeriodicTimer::new(2000);
    t.fire(1000);
    assert!(!t.is_due(1000));
    assert!(!t.is_due(3000)); // exactly the interval: not yet
    assert!(t.is_due(3001));
}

#[test]
fn timer_deadline_past_the_clock_range_never_fires_again() {
    let mut t = PeriodicTimer::new(u64::MAX);
    t.fire(10);
    assert!(!t.is_due(u64::MAX));
}

#[test]
fn rescan_fires_once_when_failures_cross_the_threshold() {
    let mut h = LinkHealth::new(10);
    for _ in 0..9 {
        assert!(!h.record(false));
    }
    assert!(h.record(false)); // tenth consecutive failure
    assert!(!h.record(false)); // further failures do not re-signal
}

#[test]
fn a_success_resets_the_failure_run() {
    let mut h = LinkHealth::new(3);
    assert!(!h.record(false));
    assert!(!h.record(false));
    assert!(!h.record(true));
    assert!(!h.record(false));
    assert!(!h.record(false));
    assert!(h.record(false)); // a fresh run of three
}
