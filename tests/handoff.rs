use task_manager::pipeline::{poll_cycle, refresh_held, Mailbox, Next};
use task_manager::process::{SnapshotError, SysStats};

fn stats(cpu: u64) -> SysStats {
    let mut s = SysStats::empty();
    s.cpu = cpu;
    s
}

#[test]
fn mailbox_keeps_only_newest() {
    let mut m = Mailbox::new();
    assert!(m.offer(stats(1)));
    assert!(m.offer(stats(2)));
    let got = m.take_latest().unwrap();
    assert_eq!(got.cpu, 2);
    assert!(m.take_latest().is_none());
}

#[test]
fn closed_mailbox_refuses() {
    let mut m = Mailbox::new();
    m.offer(stats(1));
    m.close();
    assert!(m.take_latest().is_none());
    assert!(!m.offer(stats(2)));
    assert!(m.latest.is_none());
}

#[test]
fn cycle_publishes_and_continues() {
    let mut m = Mailbox::new();
    assert_eq!(poll_cycle(&mut m, Ok(stats(7))), Next::SleepThenPoll);
    assert_eq!(m.latest.as_ref().map(|s| s.cpu), Some(7));
}

#[test]
fn failed_poll_is_skipped() {
    let mut m = Mailbox::new();
    m.offer(stats(3));
    assert_eq!(
        poll_cycle(&mut m, Err(SnapshotError::AcquisitionFailed)),
        Next::SleepThenPoll
    );
    assert_eq!(m.latest.as_ref().map(|s| s.cpu), Some(3));
}

#[test]
fn cycle_stops_when_consumer_gone() {
    let mut m = Mailbox::new();
    m.close();
    assert_eq!(poll_cycle(&mut m, Ok(stats(1))), Next::Stop);
    assert_eq!(poll_cycle(&mut m, Err(SnapshotError::AcquisitionFailed)), Next::Stop);
}

#[test]
fn held_snapshot_replaced_or_kept() {
    let mut held = stats(1);
    refresh_held(&mut held, None);
    assert_eq!(held.cpu, 1);
    refresh_held(&mut held, Some(stats(2)));
    assert_eq!(held.cpu, 2);
}

#[test]
fn consumer_sees_snapshots_in_order_with_drops() {
    let mut m = Mailbox::new();
    let mut held = SysStats::empty();
    let mut seen = Vec::new();
    for i in 1..=10u64 {
        poll_cycle(&mut m, Ok(stats(i)));
        if i % 3 == 0 {
            refresh_held(&mut held, m.take_latest());
            seen.push(held.cpu);
        }
    }
    refresh_held(&mut held, m.take_latest());
    seen.push(held.cpu);
    refresh_held(&mut held, m.take_latest());
    seen.push(held.cpu);
    assert_eq!(seen, vec![3, 6, 9, 10, 10]);
}
