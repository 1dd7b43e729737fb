use declimiter::clock::MonotonicClock;
use declimiter::network::{ipv4_from_raw, parse_flow_dest, parse_flow_source, port_from_raw, FlowAddress, FlowEntry, FlowTable, IpAddress};

fn ipv4_tcp_packet() -> Vec<u8> {
    vec![
        0x45, 0x00, 0x00, 0x28, 0x00, 0x00, 0x40, 0x00, 64, 6, 0x00, 0x00, // IPv4, 40 bytes, TCP
        192, 168, 1, 10, // source
        93, 184, 216, 34, // destination
        0xC0, 0x00, 0x01, 0xBB, // ports 49152 -> 443
        0, 0, 0, 0, 0, 0, 0, 0, 0x50, 0x10, 0xFF, 0xFF, 0, 0, 0, 0,
    ]
}

fn ipv4_udp_packet() -> Vec<u8> {
    vec![
        0x45, 0x00, 0x00, 0x1C, 0x00, 0x00, 0x40, 0x00, 64, 17, 0x00, 0x00, // IPv4, 28 bytes, UDP
        10, 0, 0, 2, // source
        10, 0, 0, 1, // destination
        0x00, 0x35, 0xD4, 0x31, // ports 53 -> 54321
        0x00, 0x08, 0x00, 0x00,
    ]
}

fn ipv6_udp_packet() -> Vec<u8> {
    let mut p = vec![0x60, 0, 0, 0, 0x00, 0x08, 17, 64];
    let mut src = [0u8; 16];
    src[15] = 1; // ::1
    let mut dst = [0u8; 16];
    dst[0] = 0xfe;
    dst[1] = 0x80;
    dst[15] = 2; // fe80::2
    p.extend_from_slice(&src);
    p.extend_from_slice(&dst);
    p.extend_from_slice(&[0x13, 0x88, 0x17, 0x70, 0x00, 0x08, 0x00, 0x00]); // 5000 -> 6000
    p
}

#[test]
fn parse_flow_of_ipv4_tcp() {
    let p = ipv4_tcp_packet();
    assert_eq!(parse_flow_source(&p), Some(FlowAddress::new(IpAddress::V4(0xC0A8010A), 49152)));
    assert_eq!(parse_flow_dest(&p), Some(FlowAddress::new(IpAddress::V4(0x5DB8D822), 443)));
}

#[test]
fn parse_flow_of_ipv4_udp() {
    let p = ipv4_udp_packet();
    assert_eq!(parse_flow_source(&p), Some(FlowAddress::new(IpAddress::V4(0x0A000002), 53)));
    assert_eq!(parse_flow_dest(&p), Some(FlowAddress::new(IpAddress::V4(0x0A000001), 54321)));
}

#[test]
fn parse_flow_of_ipv6_udp() {
    let p = ipv6_udp_packet();
    assert_eq!(parse_flow_source(&p), Some(FlowAddress::new(IpAddress::V6(1), 5000)));
    assert_eq!(parse_flow_dest(&p), Some(FlowAddress::new(IpAddress::V6(0xfe80_0000_0000_0000_0000_0000_0000_0002), 6000)));
}

#[test]
fn parse_flow_of_garbage_is_none() {
    assert_eq!(parse_flow_source(&[]), None);
    assert_eq!(parse_flow_dest(&[0x45, 0x00]), None);
    // An ICMP packet has no ports.
    let mut p = ipv4_tcp_packet();
    p[9] = 1;
    assert_eq!(parse_flow_dest(&p), None);
}

#[test]
fn raw_addresses_and_ports() {
    // 192.168.1.10 as the connection table stores it.
    let raw = u32::from_le_bytes([192, 168, 1, 10]);
    assert_eq!(ipv4_from_raw(raw), IpAddress::V4(0xC0A8010A));
    assert_eq!(ipv4_from_raw(0), IpAddress::V4(0));
    // Port 443 as the table stores it.
    let raw_port = u32::from_le_bytes([0x01, 0xBB, 0x00, 0x00]);
    assert_eq!(port_from_raw(raw_port), 443);
    assert_eq!(port_from_raw(0xFFFF_0000 | 0x3412), 0x1234);
}

#[test]
fn flow_entry_timestamps() {
    let e = FlowEntry::new_at(7, 100);
    assert_eq!(e, FlowEntry { pid: 7, last_seen: 100 });
    let mut e2 = e;
    e2.update_last_seen_at(250);
    assert_eq!(e2, FlowEntry { pid: 7, last_seen: 250 });
    let mut clock = MonotonicClock::start();
    let mut e3 = FlowEntry::new(9, &mut clock);
    assert_eq!(e3.pid, 9);
    let first = e3.last_seen;
    e3.update_last_seen(&mut clock);
    assert_eq!(e3.pid, 9);
    assert!(e3.last_seen >= first);
}

#[test]
fn clock_readings_never_go_back() {
    let mut clock = MonotonicClock::start();
    let mut copy = clock;
    let mut last = 0;
    for _ in 0..1000 {
        let t = clock.now();
        assert!(t >= last);
        last = t;
    }
    // A copy reads on the same time line.
    assert!(copy.now() >= last);
}

#[test]
fn flow_table_records_and_resolves() {
    let mut t = FlowTable::new();
    let a = FlowAddress::new(IpAddress::V4(0x0A000001), 80);
    assert_eq!(t.resolve_pid(&a), None);
    t.record_at(a, 10, 5);
    assert_eq!(t.get(&a), Some(FlowEntry { pid: 10, last_seen: 5 }));
    t.record_at(a, 11, 6);
    assert_eq!(t.get(&a), Some(FlowEntry { pid: 11, last_seen: 6 }));
    assert!(t.pid_matches(&a, 11));
    assert!(!t.pid_matches(&a, 10));
}

#[test]
fn flow_table_wildcard_fallback() {
    let mut t = FlowTable::new();
    t.record_at(FlowAddress::new(IpAddress::V4(0), 5353), 77, 1);
    t.record_at(FlowAddress::new(IpAddress::V6(0), 5353), 88, 1);
    assert_eq!(t.resolve_pid(&FlowAddress::new(IpAddress::V4(0x0A000001), 5353)), Some(77));
    assert_eq!(t.resolve_pid(&FlowAddress::new(IpAddress::V6(5), 5353)), Some(88));
    assert_eq!(t.resolve_pid(&FlowAddress::new(IpAddress::V4(0x0A000001), 5354)), None);
    // An exact entry wins over the wildcard.
    t.record_at(FlowAddress::new(IpAddress::V4(0x0A000001), 5353), 99, 1);
    assert_eq!(t.resolve_pid(&FlowAddress::new(IpAddress::V4(0x0A000001), 5353)), Some(99));
}

#[test]
fn flow_table_mappings_and_retention() {
    let mut t = FlowTable::new();
    let ip = IpAddress::V4(0x7F000001);
    t.record_mappings(&vec![(ip, 1000, 1), (ip, 2000, 2), (ip, 1000, 3)], 1_000);
    assert_eq!(t.resolve_pid(&FlowAddress::new(ip, 1000)), Some(3));
    assert_eq!(t.resolve_pid(&FlowAddress::new(ip, 2000)), Some(2));
    t.record_mappings(&vec![(ip, 2000, 2)], 5_000);
    // At 6000, the 1000 entry is 5000 old and the 2000 entry 1000 old.
    t.retain_within(6_000, 1_000);
    assert_eq!(t.get(&FlowAddress::new(ip, 1000)), None);
    assert_eq!(t.get(&FlowAddress::new(ip, 2000)), Some(FlowEntry { pid: 2, last_seen: 5_000 }));
    // An entry exactly at the age limit stays.
    t.retain_within(7_000, 2_000);
    assert!(t.get(&FlowAddress::new(ip, 2000)).is_some());
}
