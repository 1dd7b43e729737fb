//! Flows, the table that maps them to processes, and the packet and
//! connection-table decoding that feeds it.

use vstd::prelude::*;

use crate::clock::{elapsed, spec_elapsed, MonotonicClock};
use crate::table::{
    distinct_keys, has_key, keyed_map, lemma_distinct_take, lemma_keyed_map_absent, lemma_keyed_map_at,
    lemma_keyed_map_empty, lemma_keyed_map_push, lemma_keyed_map_update,
};

verus! {

/// An IP address: an IPv4 address as the number its four octets write in
/// network order, or an IPv6 address as the number its sixteen octets write.
#[derive(Debug, Clone, Copy, PartialEq, Eq, Hash, Structural)]
pub enum IpAddress {
    V4(u32),
    V6(u128),
}

/// The endpoint of a packet (an IP address and a port). Used to match
/// connections to PIDs.
#[derive(Debug, Clone, Copy, PartialEq, Eq, Hash, Structural)]
pub struct FlowAddress {
    pub ip: IpAddress,
    pub port: u16,
}

impl FlowAddress {
    pub fn new(ip: IpAddress, port: u16) -> (f: FlowAddress)
        ensures
            f == (FlowAddress { ip, port }),
    {
        FlowAddress { ip, port }
    }
}

/// The process that owns a flow, and when the flow was last seen (in
/// nanoseconds on the limiter's clock).
#[derive(Debug, Clone, Copy, PartialEq, Eq, Hash, Structural)]
pub struct FlowEntry {
    pub pid: u32,
    pub last_seen: u64,
}

impl FlowEntry {
    /// An entry for `pid`, seen now: at a fresh reading of `clock`.
    pub fn new(pid: u32, clock: &mut MonotonicClock) -> (e: FlowEntry)
        ensures
            final(clock)@ >= old(clock)@,
            e == (FlowEntry { pid, last_seen: final(clock)@ }),
    {
        let now = clock.now();
        Self::new_at(pid, now)
    }

    /// An entry for `pid`, seen at time `now`.
    pub fn new_at(pid: u32, now: u64) -> (e: FlowEntry)
        ensures
            e == (FlowEntry { pid, last_seen: now }),
    {
        FlowEntry { pid, last_seen: now }
    }

    /// Marks the entry as seen now: at a fresh reading of `clock`.
    pub fn update_last_seen(&mut self, clock: &mut MonotonicClock)
        ensures
            final(clock)@ >= old(clock)@,
            *final(self) == (FlowEntry { pid: old(self).pid, last_seen: final(clock)@ }),
    {
        let now = clock.now();
        self.update_last_seen_at(now);
    }

    /// Marks the entry as seen at time `now`.
    pub fn update_last_seen_at(&mut self, now: u64)
        ensures
            *final(self) == (FlowEntry { pid: old(self).pid, last_seen: now }),
    {
        self.last_seen = now;
    }
}

// ---------------------------------------------------------------------------
// Packet parsing
// ---------------------------------------------------------------------------

/// The source and destination addresses that etherparse reads from the IP
/// header of the raw IP packet `packet`, or `None` where it finds no IPv4 or
/// IPv6 header.
pub uninterp spec fn ip_header_addresses(packet: Seq<u8>) -> Option<(IpAddress, IpAddress)>;

/// The source and destination ports that etherparse reads from the TCP or
/// UDP header of the raw IP packet `packet`, or `None` where it finds no TCP
/// or UDP header.
pub uninterp spec fn transport_header_ports(packet: Seq<u8>) -> Option<(u16, u16)>;

/// Slices `packet` with `etherparse::SlicedPacket::from_ip` and reads the
/// source and destination address of its IPv4 or IPv6 header. The contract
/// only names the result: it is a function of the packet's bytes.
#[verifier::external_body]
fn packet_ip_addresses(packet: &[u8]) -> (r: Option<(IpAddress, IpAddress)>)
    ensures
        r == ip_header_addresses(packet@),
{
    match etherparse::SlicedPacket::from_ip(packet).ok()?.net? {
        etherparse::NetSlice::Ipv4(h) => Some((IpAddress::V4(h.header().source_addr().into()), IpAddress::V4(h.header().destination_addr().into()))),
        etherparse::NetSlice::Ipv6(h) => Some((IpAddress::V6(h.header().source_addr().into()), IpAddress::V6(h.header().destination_addr().into()))),
    }
}

/// Slices `packet` with `etherparse::SlicedPacket::from_ip` and reads the
/// source and destination port of its TCP or UDP header. The contract only
/// names the result: it is a function of the packet's bytes.
#[verifier::external_body]
fn packet_ports(packet: &[u8]) -> (r: Option<(u16, u16)>)
    ensures
        r == transport_header_ports(packet@),
{
    match etherparse::SlicedPacket::from_ip(packet).ok()?.transport? {
        etherparse::TransportSlice::Tcp(t) => Some((t.source_port(), t.destination_port())),
        etherparse::TransportSlice::Udp(u) => Some((u.source_port(), u.destination_port())),
        _ => None,
    }
}

/// The flow of a raw IP packet: its source or its destination address and
/// port.
pub open spec fn spec_parse_flow(packet: Seq<u8>, use_source: bool) -> Option<FlowAddress> {
    match (ip_header_addresses(packet), transport_header_ports(packet)) {
        (Some((src, dst)), Some((sport, dport))) => Some(
            if use_source {
                FlowAddress { ip: src, port: sport }
            } else {
                FlowAddress { ip: dst, port: dport }
            },
        ),
        _ => None,
    }
}

/// Parse a FlowAddress from a raw IP packet using either source or
/// destination fields.
fn parse_flow(packet: &[u8], use_source: bool) -> (f: Option<FlowAddress>)
    ensures
        f == spec_parse_flow(packet@, use_source),
{
    let ips = packet_ip_addresses(packet);
    let ports = packet_ports(packet);
    match (ips, ports) {
        (Some((src, dst)), Some((sport, dport))) => {
            if use_source {
                Some(FlowAddress::new(src, sport))
            } else {
                Some(FlowAddress::new(dst, dport))
            }
        },
        _ => None,
    }
}

/// Parse the flow address (destination IP and port) from a raw IP packet.
pub fn parse_flow_dest(packet: &[u8]) -> (f: Option<FlowAddress>)
    ensures
        f == spec_parse_flow(packet@, false),
{
    parse_flow(packet, false)
}

/// Parse the flow address (source IP and port) from a raw IP packet.
/// Used for matching outbound packets to their originating process.
pub fn parse_flow_source(packet: &[u8]) -> (f: Option<FlowAddress>)
    ensures
        f == spec_parse_flow(packet@, true),
{
    parse_flow(packet, true)
}

// ---------------------------------------------------------------------------
// Connection table rows
// ---------------------------------------------------------------------------

/// The IPv4 address held in a connection table row: the four octets of the
/// address lie in memory in network order, and the table reads them as one
/// little-endian word.
pub open spec fn spec_ipv4_from_raw(raw: u32) -> u32 {
    ((raw & 0xff) << 24) | (((raw >> 8) & 0xff) << 16) | (((raw >> 16) & 0xff) << 8) | ((raw
        >> 24) & 0xff)
}

/// The port held in a connection table row: its two octets lie in memory in
/// network order at the start of a little-endian word.
pub open spec fn spec_port_from_raw(raw: u32) -> u16 {
    ((((raw & 0xff) << 8) | ((raw >> 8) & 0xff)) & 0xffff) as u16
}

/// Convert a raw network-byte-order u32 address to an IP address.
pub fn ipv4_from_raw(raw: u32) -> (ip: IpAddress)
    ensures
        ip == IpAddress::V4(spec_ipv4_from_raw(raw)),
{
    IpAddress::V4(
        ((raw & 0xff) << 24) | (((raw >> 8) & 0xff) << 16) | (((raw >> 16) & 0xff) << 8) | ((raw
            >> 24) & 0xff),
    )
}

/// Convert a raw network-byte-order port (stored in a u32) to a host-order
/// u16.
pub fn port_from_raw(raw: u32) -> (port: u16)
    ensures
        port == spec_port_from_raw(raw),
{
    ((((raw & 0xff) << 8) | ((raw >> 8) & 0xff)) & 0xffff) as u16
}

// ---------------------------------------------------------------------------
// The flow table
// ---------------------------------------------------------------------------

/// The address of the same family that matches any address: `0.0.0.0` or
/// `::`.
pub open spec fn unspecified_like(ip: IpAddress) -> IpAddress {
    match ip {
        IpAddress::V4(_) => IpAddress::V4(0),
        IpAddress::V6(_) => IpAddress::V6(0),
    }
}

/// The flow that a socket bound to every address of `flow`'s family holds.
pub open spec fn wildcard_flow(flow: FlowAddress) -> FlowAddress {
    FlowAddress { ip: unspecified_like(flow.ip), port: flow.port }
}

/// The process of `flow` in the flow map `m`: the process of its own entry,
/// or else, for sockets bound to every address (`0.0.0.0` or `::`), the
/// process of the entry for that address and the same port.
pub open spec fn spec_resolve_pid(m: Map<FlowAddress, FlowEntry>, flow: FlowAddress) -> Option<u32> {
    if m.contains_key(flow) {
        Some(m[flow].pid)
    } else if m.contains_key(wildcard_flow(flow)) {
        Some(m[wildcard_flow(flow)].pid)
    } else {
        None
    }
}

/// The map of flows to the processes that own them.
pub struct FlowTable {
    entries: Vec<(FlowAddress, FlowEntry)>,
}

impl View for FlowTable {
    type V = Map<FlowAddress, FlowEntry>;

    closed spec fn view(&self) -> Map<FlowAddress, FlowEntry> {
        keyed_map(self.entries@)
    }
}

impl FlowTable {
    #[verifier::type_invariant]
    closed spec fn keys_distinct(&self) -> bool {
        distinct_keys(self.entries@)
    }

    /// An empty table.
    pub fn new() -> (t: FlowTable)
        ensures
            t@ == Map::<FlowAddress, FlowEntry>::empty(),
    {
        proof {
            lemma_keyed_map_empty::<FlowAddress, FlowEntry>();
        }
        FlowTable { entries: Vec::new() }
    }

    /// Where `flow` lies in the table.
    fn position(&self, flow: &FlowAddress) -> (r: Option<usize>)
        ensures
            match r {
                Some(i) => i < self.entries@.len() && self.entries@[i as int].0 == *flow,
                None => forall|i: int| 0 <= i < self.entries@.len() ==> self.entries@[i].0 != *flow,
            },
    {
        let mut i: usize = 0;
        while i < self.entries.len()
            invariant
                i <= self.entries@.len(),
                forall|j: int| 0 <= j < i ==> self.entries@[j].0 != *flow,
            decreases self.entries@.len() - i,
        {
            if self.entries[i].0 == *flow {
                return Some(i);
            }
            i = i + 1;
        }
        None
    }

    /// The entry of `flow`, if the table holds one.
    pub fn get(&self, flow: &FlowAddress) -> (r: Option<FlowEntry>)
        ensures
            r == (if self@.contains_key(*flow) {
                Some(self@[*flow])
            } else {
                None
            }),
    {
        proof {
            use_type_invariant(self);
        }
        match self.position(flow) {
            Some(i) => {
                proof {
                    lemma_keyed_map_at(self.entries@, i as int);
                }
                Some(self.entries[i].1)
            },
            None => {
                proof {
                    lemma_keyed_map_absent(self.entries@, *flow);
                }
                None
            },
        }
    }

    /// Records that `pid` owns `flow`, seen at time `now`: the entry is
    /// replaced, or made where the table held none.
    pub fn record_at(&mut self, flow: FlowAddress, pid: u32, now: u64)
        ensures
            final(self)@ == old(self)@.insert(flow, FlowEntry { pid, last_seen: now }),
    {
        proof {
            use_type_invariant(&*self);
        }
        let entry = FlowEntry::new_at(pid, now);
        match self.position(&flow) {
            Some(i) => {
                proof {
                    lemma_keyed_map_update(self.entries@, i as int, entry);
                }
                let mut entries: Vec<(FlowAddress, FlowEntry)> = Vec::new();
                std::mem::swap(&mut entries, &mut self.entries);
                entries.set(i, (flow, entry));
                self.entries = entries;
            },
            None => {
                proof {
                    lemma_keyed_map_push(self.entries@, flow, entry);
                }
                let mut entries: Vec<(FlowAddress, FlowEntry)> = Vec::new();
                std::mem::swap(&mut entries, &mut self.entries);
                entries.push((flow, entry));
                self.entries = entries;
            },
        }
    }

    /// Records every `(ip, port, pid)` mapping of a connection table read at
    /// time `now`, in order: each flow ends up with the process of its last
    /// mapping.
    pub fn record_mappings(&mut self, mappings: &Vec<(IpAddress, u16, u32)>, now: u64)
        ensures
            final(self)@ == recorded_mappings(old(self)@, mappings@, now),
    {
        let mut i: usize = 0;
        while i < mappings.len()
            invariant
                i <= mappings@.len(),
                self@ == recorded_mappings(old(self)@, mappings@.take(i as int), now),
            decreases mappings@.len() - i,
        {
            let (ip, port, pid) = mappings[i];
            self.record_at(FlowAddress::new(ip, port), pid, now);
            proof {
                assert(mappings@.take(i + 1).drop_last() =~= mappings@.take(i as int));
            }
            i = i + 1;
        }
        proof {
            assert(mappings@.take(mappings@.len() as int) =~= mappings@);
        }
    }

    /// Drops every flow that was last seen more than `max_age` nanoseconds
    /// before `now`.
    pub fn retain_within(&mut self, now: u64, max_age: u64)
        ensures
            final(self)@ == old(self)@.restrict(
                old(self)@.dom().filter(
                    |f: FlowAddress| spec_elapsed(now, old(self)@[f].last_seen) <= max_age,
                ),
            ),
    {
        proof {
            use_type_invariant(&*self);
        }
        let ghost s = self.entries@;
        let mut kept: Vec<(FlowAddress, FlowEntry)> = Vec::new();
        let mut i: usize = 0;
        proof {
            lemma_keyed_map_empty::<FlowAddress, FlowEntry>();
        }
        while i < self.entries.len()
            invariant
                s == self.entries@,
                distinct_keys(s),
                i <= s.len(),
                distinct_keys(kept@),
                forall|j: int| 0 <= j < kept@.len() ==> has_key(s.take(i as int), #[trigger] kept@[j].0),
                keyed_map(kept@) == keyed_map(s.take(i as int)).restrict(
                    keyed_map(s.take(i as int)).dom().filter(
                        |f: FlowAddress| spec_elapsed(now, keyed_map(s.take(i as int))[f].last_seen) <= max_age,
                    ),
                ),
            decreases s.len() - i,
        {
            let (flow, entry) = self.entries[i];
            proof {
                lemma_distinct_take(s, i as int);
                lemma_distinct_take(s, i + 1);
                assert(s.take(i + 1) =~= s.take(i as int).push(s[i as int]));
                assert(!has_key(s.take(i as int), flow)) by {
                    if has_key(s.take(i as int), flow) {
                        let j = choose|j: int| 0 <= j < i && s.take(i as int)[j].0 == flow;
                        assert(s[j].0 == s[i as int].0);
                    }
                }
                lemma_keyed_map_push(s.take(i as int), flow, entry);
            }
            if elapsed(now, entry.last_seen) <= max_age {
                proof {
                    assert(!has_key(kept@, flow)) by {
                        if has_key(kept@, flow) {
                            let j = choose|j: int| 0 <= j < kept@.len() && kept@[j].0 == flow;
                            assert(has_key(s.take(i as int), kept@[j].0));
                        }
                    }
                    lemma_keyed_map_push(kept@, flow, entry);
                }
                kept.push((flow, entry));
            }
            proof {
                let m0 = keyed_map(s.take(i as int));
                let m1 = keyed_map(s.take(i + 1));
                let p = |f: FlowAddress| spec_elapsed(now, m0[f].last_seen) <= max_age;
                let q = |f: FlowAddress| spec_elapsed(now, m1[f].last_seen) <= max_age;
                assert(m1 == m0.insert(flow, entry));
                assert forall|j: int| 0 <= j < kept@.len() implies has_key(
                    s.take(i + 1),
                    #[trigger] kept@[j].0,
                ) by {
                    if has_key(s.take(i as int), kept@[j].0) {
                        let a = choose|a: int| 0 <= a < i && s.take(i as int)[a].0 == kept@[j].0;
                        assert(s.take(i + 1)[a].0 == kept@[j].0);
                    } else {
                        assert(s.take(i + 1)[i as int].0 == kept@[j].0);
                    }
                }
                assert(keyed_map(kept@) =~= m1.restrict(m1.dom().filter(q)));
            }
            i = i + 1;
        }
        proof {
            assert(s.take(s.len() as int) =~= s);
        }
        self.entries = kept;
    }

    /// The process of `flow`: that of its own entry, or else, for sockets
    /// bound to every address, that of the entry for the same port on
    /// `0.0.0.0` or `::`.
    pub fn resolve_pid(&self, flow: &FlowAddress) -> (r: Option<u32>)
        ensures
            r == spec_resolve_pid(self@, *flow),
    {
        match self.get(flow) {
            Some(entry) => Some(entry.pid),
            None => {
                let unspec = match flow.ip {
                    IpAddress::V4(_) => IpAddress::V4(0),
                    IpAddress::V6(_) => IpAddress::V6(0),
                };
                let wildcard = FlowAddress::new(unspec, flow.port);
                match self.get(&wildcard) {
                    Some(entry) => Some(entry.pid),
                    None => None,
                }
            },
        }
    }

    /// Check if the given PID owns the given flow address, directly or through
    /// a socket bound to every address.
    pub fn pid_matches(&self, flow: &FlowAddress, pid: u32) -> (b: bool)
        ensures
            b == (spec_resolve_pid(self@, *flow) == Some(pid)),
    {
        match self.resolve_pid(flow) {
            Some(p) => p == pid,
            None => false,
        }
    }
}

/// The flow map after recording the mappings `ms`, read at time `now`, one
/// after the other.
pub open spec fn recorded_mappings(
    m: Map<FlowAddress, FlowEntry>,
    ms: Seq<(IpAddress, u16, u32)>,
    now: u64,
) -> Map<FlowAddress, FlowEntry>
    decreases ms.len(),
{
    if ms.len() == 0 {
        m
    } else {
        let last = ms.last();
        recorded_mappings(m, ms.drop_last(), now).insert(
            FlowAddress { ip: last.0, port: last.1 },
            FlowEntry { pid: last.2, last_seen: now },
        )
    }
}

/// A flow recorded for a process resolves to that process.
pub proof fn lemma_recorded_flow_resolves(m: Map<FlowAddress, FlowEntry>, flow: FlowAddress, pid: u32, now: u64)
    ensures
        spec_resolve_pid(m.insert(flow, FlowEntry { pid, last_seen: now }), flow) == Some(pid),
{
}

/// A socket bound to every address (`0.0.0.0` or `::`) owns the traffic of
/// every address of its family on its port, where no flow of that address
/// and port is recorded.
pub proof fn lemma_wildcard_owns_port(m: Map<FlowAddress, FlowEntry>, flow: FlowAddress, pid: u32, now: u64)
    requires
        !m.contains_key(flow),
        flow != wildcard_flow(flow),
    ensures
        spec_resolve_pid(m.insert(wildcard_flow(flow), FlowEntry { pid, last_seen: now }), flow) == Some(pid),
{
}

/// After a connection table is recorded, every flow in it belongs to the
/// process of its last mapping, seen at the time of the reading.
pub proof fn lemma_last_mapping_wins(
    m: Map<FlowAddress, FlowEntry>,
    ms: Seq<(IpAddress, u16, u32)>,
    now: u64,
    i: int,
)
    requires
        0 <= i < ms.len(),
        forall|j: int| i < j < ms.len() ==> (#[trigger] ms[j]).0 != ms[i].0 || ms[j].1 != ms[i].1,
    ensures
        recorded_mappings(m, ms, now).contains_key(FlowAddress { ip: ms[i].0, port: ms[i].1 }),
        recorded_mappings(m, ms, now)[FlowAddress { ip: ms[i].0, port: ms[i].1 }] == (FlowEntry {
            pid: ms[i].2,
            last_seen: now,
        }),
    decreases ms.len(),
{
    if i < ms.len() - 1 {
        let t = ms.drop_last();
        assert forall|j: int| i < j < t.len() implies (#[trigger] t[j]).0 != t[i].0 || t[j].1 != t[i].1 by {
            assert(t[j] == ms[j]);
        }
        lemma_last_mapping_wins(m, t, now, i);
        assert(ms.last() == ms[ms.len() - 1]);
    }
}

} // verus!
