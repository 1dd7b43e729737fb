use std::collections::VecDeque;

use declimiter::adapter::{count_reinjected, defer_or_pass, event_timeout_ms, flush_delayed, schedule, settle_verdict, DelayedPacket, ReinjectedInfo};
use declimiter::limiter::{PacketAction, Verdict};
use declimiter::traffic::{ProcessTraffic, TrafficTable};

const SECOND: u64 = 1_000_000_000;

fn snapshot(t: &TrafficTable) -> Vec<(u32, String, u64, u64, u64, u64)> {
    t.get_snapshot().into_iter().map(|p| (p.pid, p.name, p.download_bytes, p.upload_bytes, p.download_speed, p.upload_speed)).collect()
}

#[test]
fn counts_totals_and_processes() {
    let mut t = TrafficTable::new();
    t.count_traffic_named(Some(10), false, 1000, 0, Some("a.exe".to_string()));
    t.count_traffic_named(Some(10), true, 200, 0, Some("ignored".to_string()));
    t.count_traffic_named(None, false, 50, 0, None);
    t.count_traffic_named(Some(0), true, 7, 0, Some("system".to_string()));
    t.count_traffic_named(Some(11), false, 5, 0, None);
    let totals = t.get_totals();
    assert_eq!(totals.pid, 0);
    assert_eq!(totals.name, "System");
    assert_eq!((totals.download_bytes, totals.upload_bytes), (1055, 207));
    assert!(t.contains(10));
    assert!(!t.contains(0));
    let mut snap = snapshot(&t);
    snap.sort();
    assert_eq!(snap, vec![(10, "a.exe".to_string(), 1000, 200, 0, 0), (11, "PID 11".to_string(), 5, 0, 0, 0)]);
}

#[test]
fn speeds_are_bytes_since_last_update() {
    let mut t = TrafficTable::new();
    t.count_traffic_named(Some(10), false, 1000, 0, Some("a".to_string()));
    t.update_speeds(SECOND);
    t.count_traffic_named(Some(10), false, 300, SECOND, None);
    t.count_traffic_named(Some(10), true, 40, SECOND, None);
    t.update_speeds(2 * SECOND);
    assert_eq!(snapshot(&t), vec![(10, "a".to_string(), 1300, 40, 300, 40)]);
    let totals = t.get_totals();
    assert_eq!((totals.download_speed, totals.upload_speed), (300, 40));
    t.update_speeds(3 * SECOND);
    assert_eq!(snapshot(&t), vec![(10, "a".to_string(), 1300, 40, 0, 0)]);
}

#[test]
fn stale_processes_leave() {
    let mut t = TrafficTable::new();
    t.count_traffic_named(Some(10), false, 1, 0, Some("a".to_string()));
    t.count_traffic_named(Some(11), false, 1, 20 * SECOND, Some("b".to_string()));
    t.update_speeds(30 * SECOND);
    let snap = snapshot(&t);
    assert_eq!(snap.len(), 1);
    assert_eq!(snap[0].0, 11);
}

#[test]
fn blocked_packets_keep_process_visible() {
    let mut t = TrafficTable::new();
    t.count_traffic_named(Some(10), false, 1, 0, Some("a".to_string()));
    t.touch(Some(10), 25 * SECOND);
    t.touch(Some(12), 25 * SECOND);
    t.update_speeds(30 * SECOND);
    let snap = snapshot(&t);
    assert_eq!(snap.len(), 1);
    assert_eq!(snap[0].2, 1);
}

#[test]
fn snapshot_sorted_by_download_speed() {
    let mut t = TrafficTable::new();
    t.count_traffic_named(Some(1), false, 10, 0, Some("x".to_string()));
    t.count_traffic_named(Some(2), false, 30, 0, Some("y".to_string()));
    t.count_traffic_named(Some(3), false, 20, 0, Some("z".to_string()));
    t.count_traffic_named(Some(4), false, 30, 0, Some("w".to_string()));
    t.update_speeds(SECOND);
    let pids: Vec<u32> = t.get_snapshot().iter().map(|p: &ProcessTraffic| p.pid).collect();
    // The two processes of equal speed come first, in either order.
    assert!(pids == vec![2, 4, 3, 1] || pids == vec![4, 2, 3, 1]);
}

#[test]
fn counters_saturate() {
    let mut t = TrafficTable::new();
    t.count_traffic_named(Some(1), false, usize::MAX, 0, Some("x".to_string()));
    t.count_traffic_named(Some(1), false, usize::MAX, 0, None);
    assert_eq!(t.get_totals().download_bytes, u64::MAX);
}

#[test]
fn count_traffic_looks_up_names() {
    let mut t = TrafficTable::new();
    // No process runs under this PID, so the name falls back to the PID.
    t.count_traffic(Some(4_000_000_123), true, 10, 0);
    let snap = t.get_snapshot();
    assert_eq!(snap.len(), 1);
    assert_eq!(snap[0].upload_bytes, 10);
    assert_eq!(snap[0].name, "PID 4000000123");
}

fn packet(tag: u32, release_at: u64) -> DelayedPacket<u32, u8> {
    DelayedPacket { buffer: tag, adapter_handle: 0, is_outbound: tag % 2 == 0, release_at, frame_len: 100 + tag as usize, pid: Some(tag) }
}

#[test]
fn flush_takes_due_packets_in_order() {
    let mut q: VecDeque<DelayedPacket<u32, u8>> = VecDeque::new();
    assert_eq!(event_timeout_ms(&q), u32::MAX);
    q.push_back(packet(1, 10));
    q.push_back(packet(2, 5));
    q.push_back(packet(3, 30));
    q.push_back(packet(4, 20));
    assert_eq!(event_timeout_ms(&q), 1);
    assert!(flush_delayed(&mut q, 9).is_empty());
    let ready: Vec<u32> = flush_delayed(&mut q, 20).iter().map(|p| p.buffer).collect();
    // The packet due at 30 holds back the one due at 20 behind it.
    assert_eq!(ready, vec![1, 2]);
    assert_eq!(q.len(), 2);
    let ready: Vec<u32> = flush_delayed(&mut q, 30).iter().map(|p| p.buffer).collect();
    assert_eq!(ready, vec![3, 4]);
    assert!(q.is_empty());
}

#[test]
fn schedule_sets_release_time() {
    let mut q: VecDeque<DelayedPacket<&str, u8>> = VecDeque::new();
    schedule(&mut q, "a", 1, true, 60, Some(5), 1_000, 500);
    schedule(&mut q, "b", 2, false, 70, None, u64::MAX - 10, 500);
    assert_eq!(q[0].release_at, 1_500);
    assert_eq!(q[0].info(), ReinjectedInfo { is_outbound: true, frame_len: 60, pid: Some(5) });
    assert_eq!(q[1].release_at, u64::MAX);
}

#[test]
fn settle_each_verdict() {
    let mut traffic = TrafficTable::new();
    traffic.count_traffic_named(Some(7), false, 1, 0, Some("p".to_string()));
    let mut q: VecDeque<DelayedPacket<&str, u8>> = VecDeque::new();
    let back = settle_verdict(Verdict { pid: Some(7), action: PacketAction::Drop }, "drop", 0, false, 100, 5, &mut traffic, &mut q);
    assert!(back.is_none());
    assert!(q.is_empty());
    assert_eq!(traffic.get_totals().download_bytes, 1);
    let back = settle_verdict(Verdict { pid: Some(7), action: PacketAction::Delay(50) }, "late", 3, false, 100, 5, &mut traffic, &mut q);
    assert!(back.is_none());
    assert_eq!(q.len(), 1);
    assert_eq!(q[0].release_at, 55);
    assert_eq!(traffic.get_totals().download_bytes, 1);
    let back = settle_verdict(Verdict { pid: Some(7), action: PacketAction::Reinject }, "now", 4, false, 100, 5, &mut traffic, &mut q);
    assert_eq!(back, Some(("now", 4)));
    assert_eq!(traffic.get_totals().download_bytes, 101);
    // The delayed packet is counted when it is delivered.
    let ready = flush_delayed(&mut q, 55);
    let infos: Vec<ReinjectedInfo> = ready.iter().map(|p| p.info()).collect();
    count_reinjected(&mut traffic, &infos, 55);
    assert_eq!(traffic.get_totals().download_bytes, 201);
}

#[test]
fn defer_or_pass_by_delay() {
    let mut q: VecDeque<DelayedPacket<&str, u8>> = VecDeque::new();
    assert_eq!(defer_or_pass(0, 9, "x", 1, true, 10, 100, &mut q), Some(("x", 1)));
    assert!(q.is_empty());
    assert_eq!(defer_or_pass(25, 9, "y", 1, true, 10, 100, &mut q), None);
    assert_eq!(q[0].release_at, 125);
    assert_eq!(q[0].pid, Some(9));
}
