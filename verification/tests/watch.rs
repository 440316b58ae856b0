use manager_core::local::LocalFs;
use manager_core::watch::Coalescer;

const SETTLE: u64 = 200_000_000;
const MAX_WAIT: u64 = 1_000_000_000;

fn coalescer() -> Coalescer {
    Coalescer::new(SETTLE, MAX_WAIT)
}

fn ms(n: u64) -> u64 {
    n * 1_000_000
}

#[test]
fn a_folder_that_never_changed_is_never_due() {
    let mut c = coalescer();
    let t0 = 5_000_000_000;
    assert!(!c.is_pending());
    assert!(!c.due(t0));
    assert!(!c.due(t0 + MAX_WAIT * 10));
}

#[test]
fn one_change_is_reported_once_the_folder_goes_quiet() {
    let mut c = coalescer();
    let t0 = 5_000_000_000;
    c.touch(t0);
    assert!(c.is_pending());
    assert!(!c.due(t0 + ms(100)), "still inside the quiet period");
    assert!(c.due(t0 + SETTLE));
}

#[test]
fn reporting_a_change_ends_the_burst() {
    let mut c = coalescer();
    let t0 = 5_000_000_000;
    c.touch(t0);
    assert!(c.due(t0 + SETTLE));
    assert!(!c.is_pending());
    assert!(!c.due(t0 + SETTLE + MAX_WAIT * 10));
}

#[test]
fn another_change_restarts_the_quiet_period() {
    let mut c = coalescer();
    let t0 = 5_000_000_000;
    c.touch(t0);
    c.touch(t0 + ms(150));
    assert!(!c.due(t0 + ms(250)), "only 100ms since the last change");
    assert!(c.due(t0 + ms(350)));
}

#[test]
fn a_steady_stream_of_changes_still_refreshes_every_max_wait() {
    let mut c = coalescer();
    let t0 = 5_000_000_000;
    let mut fired_at = None;
    for step in 0..40 {
        let now = t0 + ms(step * 50);
        c.touch(now);
        if c.due(now) {
            fired_at = Some(now);
            break;
        }
    }
    assert_eq!(fired_at, Some(t0 + MAX_WAIT), "should give up waiting for quiet after max_wait");
}

#[test]
fn the_max_wait_is_measured_from_the_start_of_the_burst() {
    let mut c = coalescer();
    let t0 = 5_000_000_000;
    c.touch(t0);
    assert!(c.due(t0 + SETTLE));
    c.touch(t0 + ms(500));
    assert!(!c.due(t0 + ms(600)));
    assert!(c.due(t0 + ms(500) + MAX_WAIT));
}

#[test]
fn local_files_can_be_watched() {
    assert!(LocalFs.capabilities().can_watch);
}

// ---- More cases ----

#[test]
fn a_clock_that_jumps_backwards_only_delays() {
    let mut c = coalescer();
    c.touch(ms(1000));
    assert!(!c.due(ms(10)));
    assert!(c.is_pending());
    assert!(c.due(ms(1000) + SETTLE));
}

#[test]
fn the_default_periods() {
    let mut c = Coalescer::default();
    c.touch(0);
    assert!(!c.due(ms(199)));
    assert!(c.due(ms(200)));
}
