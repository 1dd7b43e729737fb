use std::collections::HashMap;

use declimiter::limiter::{frame_targets, limit_delay, monitor_verdict, speed_tick, LimitConfig, PacketAction, ThrottleState, ThrottleTable, Verdict};
use declimiter::network::{FlowAddress, FlowTable, IpAddress};
use declimiter::packets::TokenBucket;
use declimiter::traffic::TrafficTable;

const SECOND: u64 = 1_000_000_000;

fn frame(ip_packet: &[u8]) -> Vec<u8> {
    let mut f = vec![0u8; 14];
    f[12] = 0x08;
    f.extend_from_slice(ip_packet);
    f
}

/// An Ethernet frame with an IPv4/TCP packet from 192.168.1.10:49152 to
/// 93.184.216.34:443, padded with `payload` bytes.
fn tcp_frame(payload: usize) -> Vec<u8> {
    let total = 40 + payload;
    let mut p = vec![
        0x45, 0x00, (total >> 8) as u8, total as u8, 0x00, 0x00, 0x40, 0x00, 64, 6, 0x00, 0x00, 192, 168, 1, 10, 93, 184, 216, 34, 0xC0,
        0x00, 0x01, 0xBB, 0, 0, 0, 0, 0, 0, 0, 0, 0x50, 0x10, 0xFF, 0xFF, 0, 0, 0, 0,
    ];
    p.extend(std::iter::repeat(0u8).take(payload));
    frame(&p)
}

fn local_flow() -> FlowAddress {
    FlowAddress::new(IpAddress::V4(0xC0A8010A), 49152)
}

fn remote_flow() -> FlowAddress {
    FlowAddress::new(IpAddress::V4(0x5DB8D822), 443)
}

#[test]
fn bucket_passes_within_capacity_then_delays() {
    // 1000 bytes/s: the capacity is the 1500-byte minimum.
    let mut b = TokenBucket::new_at(1000, 0);
    assert_eq!(b.rate(), 1000);
    assert_eq!(b.consume_at(1500, 0), 0);
    // 500 bytes short at 1000 bytes/s: half a second.
    assert_eq!(b.consume_at(500, 0), 500_000_000);
    // A second later, 1000 bytes came back: 500 above zero.
    assert_eq!(b.consume_at(500, SECOND), 0);
    assert_eq!(b.consume_at(1, SECOND), 1_000_000);
}

#[test]
fn bucket_rounds_delay_up() {
    let mut b = TokenBucket::new_at(3, 0);
    assert_eq!(b.consume_at(1501, 0), 333_333_334);
}

#[test]
fn bucket_refill_stops_at_capacity() {
    // 100000 bytes/s: 50 ms of burst is 5000 bytes.
    let mut b = TokenBucket::new_at(100_000, 0);
    assert_eq!(b.consume_at(5000, 0), 0);
    // After ten idle seconds the bucket holds its capacity again, not more.
    assert_eq!(b.consume_at(5000, 10 * SECOND), 0);
    assert_eq!(b.consume_at(1, 10 * SECOND), 10_000);
}

#[test]
fn bucket_deficit_has_no_floor() {
    // 1 MB/s: 50000 bytes of burst. Two huge frames leave a deficit of twice
    // their size, less the burst, and the delay covers all of it.
    let mut b = TokenBucket::new_at(1_000_000, 0);
    let huge: usize = 10_000_000_000_000_000_000;
    assert_eq!(b.consume_at(huge, 0), 10_000_000_000_000_000_000_000 - 50_000_000);
    assert_eq!(b.consume_at(huge, 0), 20_000_000_000_000_000_000_000 - 50_000_000);
}

#[test]
fn bucket_set_rate_clamps_tokens() {
    let mut b = TokenBucket::new_at(1_000_000, 0);
    // 50000 bytes of burst at 1 MB/s; lowering the rate cuts it to 1500.
    b.set_rate(1000);
    assert_eq!(b.rate(), 1000);
    assert_eq!(b.consume_at(1500, 0), 0);
    assert_eq!(b.consume_at(1, 0), 1_000_000);
}

#[test]
fn throttle_state_updates_rate() {
    let mut st = ThrottleState::new();
    assert_eq!(st.throttle(false, 1000, 1500, 0), 0);
    assert_eq!(st.throttle(false, 1000, 100, 0), 100_000_000);
    // The download bucket keeps its deficit under a new rate, paid faster.
    assert_eq!(st.throttle(false, 2000, 100, 0), 100_000_000);
    // The upload bucket is separate and starts full.
    assert_eq!(st.throttle(true, 1000, 1500, 0), 0);
}

#[test]
fn throttle_table_apply() {
    let mut t = ThrottleTable::new();
    assert_eq!(t.apply(5, None, false, 1000, 0), (false, 0));
    assert_eq!(t.apply(5, Some(0), false, 1000, 0), (true, 0));
    assert_eq!(t.apply(5, Some(1000), false, 2000, 0), (false, 500_000_000));
    assert_eq!(t.apply(6, Some(1000), false, 1500, 0), (false, 0));
}

fn flows_for(pid: u32) -> FlowTable {
    let mut flows = FlowTable::new();
    flows.record_at(local_flow(), pid, 0);
    flows
}

#[test]
fn monitor_drops_blocked_direction() {
    let flows = flows_for(42);
    let mut limits = HashMap::new();
    limits.insert(42u32, LimitConfig { download_byterate: Some(0), upload_byterate: None });
    let mut throttles = ThrottleTable::new();
    // Inbound traffic reaches the local flow as its destination.
    let mut inbound = tcp_frame(0);
    // Swap addresses and ports so that the local side is the destination.
    for k in 0..4 {
        inbound.swap(14 + 12 + k, 14 + 16 + k);
    }
    inbound.swap(14 + 20, 14 + 22);
    inbound.swap(14 + 21, 14 + 23);
    let v = monitor_verdict(&inbound, false, &flows, &limits, &mut throttles, 0);
    assert_eq!(v, Verdict { pid: Some(42), action: PacketAction::Drop });
    // Outbound traffic of the process has no limit.
    let v = monitor_verdict(&tcp_frame(0), true, &flows, &limits, &mut throttles, 0);
    assert_eq!(v, Verdict { pid: Some(42), action: PacketAction::Reinject });
}

#[test]
fn monitor_delays_over_rate() {
    let flows = flows_for(42);
    let mut limits = HashMap::new();
    limits.insert(42u32, LimitConfig { download_byterate: None, upload_byterate: Some(1000) });
    let mut throttles = ThrottleTable::new();
    // A 1514-byte frame is 14 bytes over a fresh 1500-byte bucket.
    let f = tcp_frame(1460);
    assert_eq!(f.len(), 1514);
    let v = monitor_verdict(&f, true, &flows, &limits, &mut throttles, 0);
    assert_eq!(v, Verdict { pid: Some(42), action: PacketAction::Delay(14_000_000) });
}

#[test]
fn monitor_system_limit_applies_to_all() {
    let flows = FlowTable::new();
    let mut limits = HashMap::new();
    limits.insert(0u32, LimitConfig { download_byterate: None, upload_byterate: Some(0) });
    let mut throttles = ThrottleTable::new();
    let v = monitor_verdict(&tcp_frame(0), true, &flows, &limits, &mut throttles, 0);
    assert_eq!(v, Verdict { pid: None, action: PacketAction::Drop });
    // Short frames pass untouched.
    let v = monitor_verdict(&[0u8; 14], true, &flows, &limits, &mut throttles, 0);
    assert_eq!(v, Verdict { pid: None, action: PacketAction::Reinject });
}

#[test]
fn monitor_takes_longer_delay() {
    let flows = flows_for(42);
    let mut limits = HashMap::new();
    limits.insert(0u32, LimitConfig { download_byterate: None, upload_byterate: Some(2000) });
    limits.insert(42u32, LimitConfig { download_byterate: None, upload_byterate: Some(1000) });
    let mut throttles = ThrottleTable::new();
    let f = tcp_frame(2960); // 3014 bytes
    // System bucket: 1514 short at 2000 B/s; process bucket: 1514 short at 1000 B/s.
    let v = monitor_verdict(&f, true, &flows, &limits, &mut throttles, 0);
    assert_eq!(v, Verdict { pid: Some(42), action: PacketAction::Delay(1_514_000_000) });
}

#[test]
fn single_process_limiter_delay() {
    let flows = flows_for(42);
    let f = tcp_frame(1460);
    assert!(frame_targets(&f, true, &flows, 42));
    assert!(!frame_targets(&f, true, &flows, 43));
    let mut dl = Some(TokenBucket::new_at(1000, 0));
    let mut ul = Some(TokenBucket::new_at(1000, 0));
    assert_eq!(limit_delay(&f, true, &flows, 42, &mut dl, &mut ul, 0), 14_000_000);
    // Another process's frames pass at once.
    assert_eq!(limit_delay(&f, true, &flows, 43, &mut dl, &mut ul, 0), 0);
    // No bucket for a direction: no delay.
    let mut none_ul: Option<TokenBucket> = None;
    assert_eq!(limit_delay(&f, true, &flows, 42, &mut dl, &mut none_ul, 0), 0);
}

#[test]
fn speed_tick_drops_stale_flows() {
    let mut flows = FlowTable::new();
    flows.record_at(local_flow(), 1, 0);
    flows.record_at(remote_flow(), 2, 120 * SECOND);
    let mut traffic = TrafficTable::new();
    speed_tick(&mut traffic, &mut flows, 120 * SECOND);
    // Exactly 120 s old is stale; younger stays.
    assert_eq!(flows.get(&local_flow()), None);
    assert!(flows.get(&remote_flow()).is_some());
}
