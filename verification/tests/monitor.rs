use panic_monitor::PanicMonitor;
use panic_monitor::ThreadRecord;
use panic_monitor::remaining_after;

fn idents(records: &[ThreadRecord]) -> Vec<u64> {
    records.iter().map(|t| t.ident).collect()
}

/// A bounded wait against a monitor whose state never changes, driven the
/// way the blocking shell drives it: poll, then sleep off some of the
/// budget, until a match arrives or the budget is exhausted.
fn wait_timeout_simulated(
    monitor: &PanicMonitor,
    watch_list: &[u64],
    mut budget: u64,
    sleep_step: u64,
    reports_timed_out: bool,
) -> Vec<ThreadRecord> {
    loop {
        let r = monitor.check(watch_list);
        if !r.is_empty() {
            return r;
        }
        match remaining_after(budget, sleep_step, reports_timed_out) {
            None => return Vec::new(),
            Some(rest) => budget = rest,
        }
    }
}

#[test]
fn scenario_one_bad_thread() {
    // One watched thread exits normally (never recorded), another panics.
    let good: u64 = 1;
    let bad: u64 = 2;
    let mut monitor = PanicMonitor::new();
    monitor.record(bad, None);

    let t = monitor.check(&[good, bad]);
    assert_eq!(idents(&t), vec![bad]);

    // A second query must again report exactly the panicked thread.
    let t = monitor.check(&[good, bad]);
    assert_eq!(idents(&t), vec![bad]);
}

#[test]
fn check_exact_membership() {
    let mut monitor = PanicMonitor::new();
    monitor.record(10, None);
    monitor.record(30, None);

    assert_eq!(idents(&monitor.check(&[10])), vec![10]);
    assert_eq!(idents(&monitor.check(&[20])), Vec::<u64>::new());
    assert_eq!(idents(&monitor.check(&[10, 20, 30])), vec![10, 30]);
    // The result follows the order of the watch list.
    assert_eq!(idents(&monitor.check(&[30, 20, 10])), vec![30, 10]);
}

#[test]
fn check_idempotent() {
    let mut monitor = PanicMonitor::new();
    monitor.record(5, Some(String::from("worker")));

    let first = monitor.check(&[5, 6]);
    let second = monitor.check(&[5, 6]);
    assert_eq!(idents(&first), idents(&second));
    assert_eq!(first.len(), 1);
    assert_eq!(first[0].name.as_deref(), Some("worker"));
    assert_eq!(second[0].name.as_deref(), Some("worker"));
}

#[test]
fn two_observers_same_result() {
    // Two independent observers of the same monitor, watching the same
    // thread, both see the match.
    let mut monitor = PanicMonitor::new();
    monitor.record(9, None);

    let seen_by_first = monitor.check(&[9]);
    let seen_by_second = monitor.check(&[9]);
    assert_eq!(idents(&seen_by_first), vec![9]);
    assert_eq!(idents(&seen_by_second), vec![9]);
}

#[test]
fn level_triggered_immediate() {
    // The panic happened before the query: the very first poll matches, so
    // a waiter returns without blocking.
    let mut monitor = PanicMonitor::new();
    monitor.record(7, None);
    let r = monitor.check(&[7]);
    assert!(!r.is_empty());
}

#[test]
fn monotonic_results() {
    let mut monitor = PanicMonitor::new();
    monitor.record(1, None);
    assert_eq!(idents(&monitor.check(&[1, 2])), vec![1]);

    monitor.record(2, None);
    let r = idents(&monitor.check(&[1, 2]));
    assert!(r.contains(&1));
    assert_eq!(r, vec![1, 2]);
}

#[test]
fn record_is_idempotent() {
    let mut monitor = PanicMonitor::new();
    monitor.record(4, Some(String::from("first")));
    monitor.record(4, Some(String::from("second")));

    let r = monitor.check(&[4]);
    assert_eq!(r.len(), 1);
    assert_eq!(r[0].name.as_deref(), Some("first"));
}

#[test]
fn dedup_watch_list() {
    let mut monitor = PanicMonitor::new();
    monitor.record(2, None);
    let r = monitor.check(&[2, 2, 2]);
    assert_eq!(idents(&r), vec![2]);
}

#[test]
fn empty_watch_list() {
    let mut monitor = PanicMonitor::new();
    monitor.record(1, None);
    assert!(monitor.check(&[]).is_empty());
}

#[test]
fn unwatched_thread_not_reported() {
    let monitor = PanicMonitor::new();
    assert!(monitor.check(&[99]).is_empty());
}

#[test]
fn name_is_kept() {
    let mut monitor = PanicMonitor::new();
    monitor.record(3, Some(String::from("worker-3")));
    monitor.record(8, None);

    let r = monitor.check(&[3, 8]);
    assert_eq!(r.len(), 2);
    assert_eq!(r[0].ident, 3);
    assert_eq!(r[0].name.as_deref(), Some("worker-3"));
    assert_eq!(r[1].ident, 8);
    assert_eq!(r[1].name, None);
}

#[test]
fn remaining_after_values() {
    assert_eq!(remaining_after(100, 30, false), Some(70));
    assert_eq!(remaining_after(100, 100, false), None);
    assert_eq!(remaining_after(100, 101, false), None);
    assert_eq!(remaining_after(100, 30, true), None);
    assert_eq!(remaining_after(50, 0, false), Some(50));
    assert_eq!(remaining_after(0, 0, false), None);
}

#[test]
fn timeout_expires_empty() {
    // No watched thread ever panics: the bounded wait burns its whole
    // budget and comes back empty.
    let monitor = PanicMonitor::new();
    let r = wait_timeout_simulated(&monitor, &[42], 50, 10, false);
    assert!(r.is_empty());
}

#[test]
fn timeout_wakeup_reported_expired() {
    // A wake-up that reports expiry ends the bounded wait at once.
    let monitor = PanicMonitor::new();
    let r = wait_timeout_simulated(&monitor, &[42], 50, 10, true);
    assert!(r.is_empty());
}

#[test]
fn timeout_immediate_match() {
    // A match that is already recorded consumes none of the budget.
    let mut monitor = PanicMonitor::new();
    monitor.record(42, None);
    let r = wait_timeout_simulated(&monitor, &[42], 50, 10, false);
    assert_eq!(idents(&r), vec![42]);
}
