//! The limits on each process, the pacing state kept per process, and the
//! verdict that the limiter and the monitor give each intercepted packet.

use std::collections::HashMap;

use vstd::prelude::*;

use crate::clock::spec_elapsed;
use crate::network::{parse_flow_dest, parse_flow_source, spec_parse_flow, spec_resolve_pid, FlowAddress, FlowTable};
use crate::traffic::{traffic_ticked, TrafficTable};
use crate::packets::{
    after_taking, capacity_for, refill_delay, refilled, BucketState, TokenBucket, TOKENS_PER_BYTE,
};

verus! {

/// A process as `(pid, name)`.
pub type ProcessPair = (u32, String);

/// The length of an Ethernet II header, ahead of the IP packet in a frame.
pub const ETHERNET_HEADER_LEN: usize = 14;

/// How often the speed calculator runs, in nanoseconds.
pub const SPEED_UPDATE_INTERVAL: u64 = 1_000_000_000;

/// How long a process stays in the traffic table without traffic, in
/// nanoseconds.
pub const STALE_ENTRY_TIMEOUT: u64 = 30_000_000_000;

/// How long a flow stays in the flow table without being seen, in
/// nanoseconds.
pub const STALE_FLOW_TIMEOUT: u64 = 120_000_000_000;

/// The key of the limit that applies to all traffic of the machine.
pub const SYSTEM_PID: u32 = 0;

/// Per-process speed limit configuration, in bytes per second. A rate of
/// zero blocks the direction.
#[derive(Debug, Clone, Copy, PartialEq, Eq, Structural)]
pub struct LimitConfig {
    pub download_byterate: Option<u64>,
    pub upload_byterate: Option<u64>,
}

/// The rate that a limit sets for one direction of traffic.
pub open spec fn direction_rate(c: LimitConfig, is_outbound: bool) -> Option<u64> {
    if is_outbound {
        c.upload_byterate
    } else {
        c.download_byterate
    }
}

// ---------------------------------------------------------------------------
// Pacing state
// ---------------------------------------------------------------------------

/// The buckets kept for one process: one per direction, made on first use.
pub ghost struct ThrottleView {
    pub dl: Option<BucketState>,
    pub ul: Option<BucketState>,
}

/// The bucket that paces traffic at `rate` bytes per second at time `now`:
/// a full new one where there was none, and the old one with its rate
/// updated where the rate changed.
pub open spec fn bucket_for_rate(old: Option<BucketState>, rate: u64, now: u64) -> BucketState {
    match old {
        None => BucketState {
            tokens: capacity_for(rate as nat),
            capacity: capacity_for(rate as nat),
            rate: rate as nat,
            last_refill: now as nat,
        },
        Some(b) => if b.rate == rate {
            b
        } else {
            BucketState {
                tokens: if b.tokens < capacity_for(rate as nat) {
                    b.tokens
                } else {
                    capacity_for(rate as nat)
                },
                capacity: capacity_for(rate as nat),
                rate: rate as nat,
                last_refill: b.last_refill,
            }
        },
    }
}

/// Bucket `b` after it paced `bytes` bytes at time `now`.
pub open spec fn consumed(b: BucketState, bytes: nat, now: u64) -> BucketState {
    BucketState {
        tokens: after_taking(refilled(b, now), bytes),
        capacity: b.capacity,
        rate: b.rate,
        last_refill: now as nat,
    }
}

/// The buckets of a process after they paced `bytes` bytes in one direction
/// at `rate` bytes per second at time `now`, and the delay the packet gets.
pub open spec fn throttle_step(st: ThrottleView, is_outbound: bool, rate: u64, bytes: nat, now: u64) -> (
    ThrottleView,
    nat,
) {
    let old = if is_outbound {
        st.ul
    } else {
        st.dl
    };
    let b = consumed(bucket_for_rate(old, rate, now), bytes, now);
    (
        if is_outbound {
            ThrottleView { dl: st.dl, ul: Some(b) }
        } else {
            ThrottleView { dl: Some(b), ul: st.ul }
        },
        refill_delay(b.tokens, b.rate),
    )
}

/// Per-PID throttle state kept locally in the packet processing thread.
/// Uses token buckets to calculate reinjection delays without blocking.
pub struct ThrottleState {
    dl_bucket: Option<TokenBucket>,
    ul_bucket: Option<TokenBucket>,
}

/// The state of an optional bucket.
pub open spec fn bucket_view(b: Option<TokenBucket>) -> Option<BucketState> {
    match b {
        Some(b) => Some(b@),
        None => None,
    }
}

impl View for ThrottleState {
    type V = ThrottleView;

    closed spec fn view(&self) -> ThrottleView {
        ThrottleView { dl: bucket_view(self.dl_bucket), ul: bucket_view(self.ul_bucket) }
    }
}

impl ThrottleState {
    pub fn new() -> (s: ThrottleState)
        ensures
            s@ == (ThrottleView { dl: None, ul: None }),
    {
        ThrottleState { dl_bucket: None, ul_bucket: None }
    }

    /// Paces `bytes` bytes of one direction at `rate` bytes per second at time
    /// `now`: gets or creates the bucket of that direction, updating its rate
    /// if it changed, and returns the delay (in nanoseconds) that the packet
    /// gets.
    pub fn throttle(&mut self, is_outbound: bool, rate: u64, bytes: usize, now: u64) -> (delay: u128)
        requires
            rate > 0,
        ensures
            (final(self)@, delay as nat) == throttle_step(old(self)@, is_outbound, rate, bytes as nat, now),
    {
        let slot = if is_outbound {
            self.ul_bucket.take()
        } else {
            self.dl_bucket.take()
        };
        let mut bucket = match slot {
            Some(b) => b,
            None => TokenBucket::new_at(rate, now),
        };
        if bucket.rate() != rate {
            bucket.set_rate(rate);
        }
        let delay = bucket.consume_at(bytes, now);
        if is_outbound {
            self.ul_bucket = Some(bucket);
        } else {
            self.dl_bucket = Some(bucket);
        }
        delay
    }
}

/// The pacing state of every process that a limit applies to.
pub struct ThrottleTable {
    states: HashMap<u32, ThrottleState>,
}

impl View for ThrottleTable {
    type V = Map<u32, ThrottleView>;

    closed spec fn view(&self) -> Map<u32, ThrottleView> {
        Map::new(|k: u32| self.states@.contains_key(k), |k: u32| self.states@[k]@)
    }
}

/// The pacing state of `key`, or that of a process seen for the first time.
pub open spec fn throttle_of(m: Map<u32, ThrottleView>, key: u32) -> ThrottleView {
    if m.contains_key(key) {
        m[key]
    } else {
        ThrottleView { dl: None, ul: None }
    }
}

/// The outcome of applying the rate `rate` of the limit kept under `key` to
/// a packet of `bytes` bytes: the pacing state after it, whether the packet
/// is dropped, and the delay it gets.
pub open spec fn apply_limit(
    m: Map<u32, ThrottleView>,
    key: u32,
    rate: Option<u64>,
    is_outbound: bool,
    bytes: nat,
    now: u64,
) -> (Map<u32, ThrottleView>, bool, nat) {
    match rate {
        None => (m, false, 0),
        Some(r) => if r == 0 {
            (m, true, 0)
        } else {
            let (st, d) = throttle_step(throttle_of(m, key), is_outbound, r, bytes, now);
            (m.insert(key, st), false, d)
        },
    }
}

impl ThrottleTable {
    pub fn new() -> (t: ThrottleTable)
        ensures
            t@ == Map::<u32, ThrottleView>::empty(),
    {
        let t = ThrottleTable { states: HashMap::new() };
        assert(t@ =~= Map::<u32, ThrottleView>::empty());
        t
    }

    /// Applies the rate `rate` of the limit kept under `key` to a packet of
    /// `bytes` bytes: a rate of zero drops the packet, another rate paces it
    /// with the buckets of `key`. Returns whether the packet is dropped and
    /// the delay it gets.
    pub fn apply(&mut self, key: u32, rate: Option<u64>, is_outbound: bool, bytes: usize, now: u64) -> (r: (bool, u128))
        ensures
            (final(self)@, r.0, r.1 as nat) == apply_limit(old(self)@, key, rate, is_outbound, bytes as nat, now),
    {
        match rate {
            None => (false, 0),
            Some(r) => {
                if r == 0 {
                    (true, 0)
                } else {
                    let mut state = match self.states.remove(&key) {
                        Some(s) => s,
                        None => ThrottleState::new(),
                    };
                    let delay = state.throttle(is_outbound, r, bytes, now);
                    self.states.insert(key, state);
                    proof {
                        assert(self@ =~= old(self)@.insert(key, state@));
                    }
                    (false, delay)
                }
            },
        }
    }
}

// ---------------------------------------------------------------------------
// Packet verdicts
// ---------------------------------------------------------------------------

/// What becomes of an intercepted packet.
#[derive(Debug, Clone, Copy, PartialEq, Eq, Structural)]
pub enum PacketAction {
    /// The packet is blocked and not reinjected.
    Drop,
    /// The packet is reinjected after the given number of nanoseconds.
    Delay(u128),
    /// The packet is reinjected at once.
    Reinject,
}

/// The verdict on an intercepted packet: the process it belongs to, where
/// that is known, and what becomes of it.
#[derive(Debug, Clone, Copy, PartialEq, Eq, Structural)]
pub struct Verdict {
    pub pid: Option<u32>,
    pub action: PacketAction,
}

/// The action on a packet that is dropped or delayed by `delay`
/// nanoseconds.
pub open spec fn action_of(drop: bool, delay: nat) -> PacketAction {
    if drop {
        PacketAction::Drop
    } else if delay > 0 {
        PacketAction::Delay(delay as u128)
    } else {
        PacketAction::Reinject
    }
}

/// The flow of the IP packet in an Ethernet frame: its source for outbound
/// traffic and its destination for inbound traffic. Frames no longer than an
/// Ethernet header have none.
pub open spec fn frame_flow(frame: Seq<u8>, is_outbound: bool) -> Option<crate::network::FlowAddress> {
    if frame.len() > ETHERNET_HEADER_LEN {
        spec_parse_flow(frame.skip(ETHERNET_HEADER_LEN as int), is_outbound)
    } else {
        None
    }
}

/// The process of the flow of a frame, in the flow map `flows`.
pub open spec fn frame_pid(
    flows: Map<crate::network::FlowAddress, crate::network::FlowEntry>,
    frame: Seq<u8>,
    is_outbound: bool,
) -> Option<u32> {
    match frame_flow(frame, is_outbound) {
        Some(f) => spec_resolve_pid(flows, f),
        None => None,
    }
}

/// The verdict of the monitor on a frame, and its pacing state after it.
///
/// Frames no longer than an Ethernet header pass untouched. For the others,
/// the system-wide limit (kept under PID 0) applies first, and then, unless
/// the packet is already dropped, the limit of the packet's process. A rate
/// of zero drops the packet; the packet's delay is the longer of the two
/// delays.
pub open spec fn monitor_outcome(
    frame: Seq<u8>,
    is_outbound: bool,
    flows: Map<crate::network::FlowAddress, crate::network::FlowEntry>,
    limits: Map<u32, LimitConfig>,
    throttles: Map<u32, ThrottleView>,
    now: u64,
) -> (Verdict, Map<u32, ThrottleView>) {
    if frame.len() <= ETHERNET_HEADER_LEN {
        (Verdict { pid: None, action: PacketAction::Reinject }, throttles)
    } else {
        let pid = frame_pid(flows, frame, is_outbound);
        let bytes = frame.len();
        let (t1, drop1, d1) = if limits.contains_key(SYSTEM_PID) {
            apply_limit(
                throttles,
                SYSTEM_PID,
                direction_rate(limits[SYSTEM_PID], is_outbound),
                is_outbound,
                bytes,
                now,
            )
        } else {
            (throttles, false, 0)
        };
        let (t2, drop2, d2) = if !drop1 && pid is Some && limits.contains_key(pid->0) {
            apply_limit(t1, pid->0, direction_rate(limits[pid->0], is_outbound), is_outbound, bytes, now)
        } else {
            (t1, false, 0)
        };
        let delay = if d1 >= d2 {
            d1
        } else {
            d2
        };
        (Verdict { pid, action: action_of(drop1 || drop2, delay) }, t2)
    }
}

/// The flow of the IP packet in an Ethernet frame.
pub fn frame_flow_of(frame: &[u8], is_outbound: bool) -> (f: Option<crate::network::FlowAddress>)
    ensures
        f == frame_flow(frame@, is_outbound),
{
    if frame.len() > ETHERNET_HEADER_LEN {
        let (_, ip_data) = frame.split_at(ETHERNET_HEADER_LEN);
        assert(ip_data@ == frame@.skip(ETHERNET_HEADER_LEN as int));
        if is_outbound {
            parse_flow_source(ip_data)
        } else {
            parse_flow_dest(ip_data)
        }
    } else {
        None
    }
}

/// The verdict of the packet monitor on an intercepted Ethernet frame, which
/// counts every process and applies the limits in `limits`: system-wide
/// limits (kept under PID 0) and per-process limits, where a byterate of 0
/// blocks (drops) the packet.
///
/// Throttled packets get a delay, after which they are reinjected, so that
/// traffic that no limit applies to is never held back.
pub fn monitor_verdict(
    frame: &[u8],
    is_outbound: bool,
    flows: &FlowTable,
    limits: &HashMap<u32, LimitConfig>,
    throttles: &mut ThrottleTable,
    now: u64,
) -> (v: Verdict)
    ensures
        (v, final(throttles)@) == monitor_outcome(frame@, is_outbound, flows@, limits@, old(throttles)@, now),
{
    if frame.len() <= ETHERNET_HEADER_LEN {
        return Verdict { pid: None, action: PacketAction::Reinject };
    }
    let frame_len = frame.len();
    let pid = match frame_flow_of(frame, is_outbound) {
        Some(f) => flows.resolve_pid(&f),
        None => None,
    };
    let (drop1, d1) = match limits.get(&SYSTEM_PID) {
        Some(config) => {
            let rate = if is_outbound {
                config.upload_byterate
            } else {
                config.download_byterate
            };
            throttles.apply(SYSTEM_PID, rate, is_outbound, frame_len, now)
        },
        None => (false, 0),
    };
    let (drop2, d2) = if drop1 {
        (false, 0)
    } else {
        match pid {
            Some(p) => match limits.get(&p) {
                Some(config) => {
                    let rate = if is_outbound {
                        config.upload_byterate
                    } else {
                        config.download_byterate
                    };
                    throttles.apply(p, rate, is_outbound, frame_len, now)
                },
                None => (false, 0),
            },
            None => (false, 0),
        }
    };
    let delay = if d1 >= d2 {
        d1
    } else {
        d2
    };
    let action = if drop1 || drop2 {
        PacketAction::Drop
    } else if delay > 0 {
        PacketAction::Delay(delay)
    } else {
        PacketAction::Reinject
    };
    Verdict { pid, action }
}

// ---------------------------------------------------------------------------
// The single-process limiter
// ---------------------------------------------------------------------------

/// The frame belongs to process `pid`, so the single-process limiter paces
/// it.
pub open spec fn targets(
    flows: Map<crate::network::FlowAddress, crate::network::FlowEntry>,
    frame: Seq<u8>,
    is_outbound: bool,
    pid: u32,
) -> bool {
    frame_pid(flows, frame, is_outbound) == Some(pid)
}

/// The frame belongs to process `pid`.
pub fn frame_targets(frame: &[u8], is_outbound: bool, flows: &FlowTable, pid: u32) -> (b: bool)
    ensures
        b == targets(flows@, frame@, is_outbound, pid),
{
    match frame_flow_of(frame, is_outbound) {
        Some(f) => flows.pid_matches(&f, pid),
        None => false,
    }
}

/// The bucket that paces one direction of traffic for the single-process
/// limiter.
pub open spec fn direction_bucket(
    dl: Option<BucketState>,
    ul: Option<BucketState>,
    is_outbound: bool,
) -> Option<BucketState> {
    if is_outbound {
        ul
    } else {
        dl
    }
}

/// The single-process limiter's delay for one frame, in nanoseconds: frames
/// of process `pid` take tokens from the bucket of their direction, where the
/// limiter has one; other frames pass at once.
///
/// A bucket whose rate is zero never refills, so a frame that it cannot pay
/// for could never be released: such a frame is outside the contract.
pub fn limit_delay(
    frame: &[u8],
    is_outbound: bool,
    flows: &FlowTable,
    pid: u32,
    dl_bucket: &mut Option<TokenBucket>,
    ul_bucket: &mut Option<TokenBucket>,
    now: u64,
) -> (delay: u128)
    requires
        targets(flows@, frame@, is_outbound, pid) ==> match direction_bucket(
            bucket_view(*old(dl_bucket)),
            bucket_view(*old(ul_bucket)),
            is_outbound,
        ) {
            Some(b) => b.rate > 0 || b.tokens - frame@.len() * TOKENS_PER_BYTE >= 0,
            None => true,
        },
    ensures
        ({
            let old_b = direction_bucket(
                bucket_view(*old(dl_bucket)),
                bucket_view(*old(ul_bucket)),
                is_outbound,
            );
            if targets(flows@, frame@, is_outbound, pid) && old_b is Some {
                let b = consumed(old_b->0, frame@.len(), now);
                &&& delay == refill_delay(b.tokens, b.rate)
                &&& bucket_view(*final(dl_bucket)) == (if is_outbound {
                    bucket_view(*old(dl_bucket))
                } else {
                    Some(b)
                })
                &&& bucket_view(*final(ul_bucket)) == (if is_outbound {
                    Some(b)
                } else {
                    bucket_view(*old(ul_bucket))
                })
            } else {
                &&& delay == 0
                &&& bucket_view(*final(dl_bucket)) == bucket_view(*old(dl_bucket))
                &&& bucket_view(*final(ul_bucket)) == bucket_view(*old(ul_bucket))
            }
        }),
{
    if !frame_targets(frame, is_outbound, flows, pid) {
        return 0;
    }
    let frame_len = frame.len();
    let slot = if is_outbound {
        ul_bucket
    } else {
        dl_bucket
    };
    match slot.take() {
        Some(mut bucket) => {
            let delay = bucket.consume_at(frame_len, now);
            *slot = Some(bucket);
            delay
        },
        None => 0,
    }
}

/// Traffic that no limit applies to is never held back: with no
/// system-wide limit, and no limit on the frame's process, the monitor
/// reinjects the frame at once and leaves the pacing state as it was.
pub proof fn lemma_unlimited_traffic_passes(
    frame: Seq<u8>,
    is_outbound: bool,
    flows: Map<FlowAddress, crate::network::FlowEntry>,
    limits: Map<u32, LimitConfig>,
    throttles: Map<u32, ThrottleView>,
    now: u64,
)
    requires
        !limits.contains_key(SYSTEM_PID),
        match frame_pid(flows, frame, is_outbound) {
            Some(p) => !limits.contains_key(p),
            None => true,
        },
    ensures
        monitor_outcome(frame, is_outbound, flows, limits, throttles, now).0.action == PacketAction::Reinject,
        monitor_outcome(frame, is_outbound, flows, limits, throttles, now).1 == throttles,
{
}

/// A rate of zero blocks: where the frame's process has a rate of zero in
/// the frame's direction, the monitor drops the frame, whatever the
/// system-wide limit.
pub proof fn lemma_zero_rate_blocks(
    frame: Seq<u8>,
    is_outbound: bool,
    flows: Map<FlowAddress, crate::network::FlowEntry>,
    limits: Map<u32, LimitConfig>,
    throttles: Map<u32, ThrottleView>,
    now: u64,
)
    requires
        frame.len() > ETHERNET_HEADER_LEN,
        frame_pid(flows, frame, is_outbound) is Some,
        limits.contains_key(frame_pid(flows, frame, is_outbound)->0),
        direction_rate(limits[frame_pid(flows, frame, is_outbound)->0], is_outbound) == Some(0u64),
    ensures
        monitor_outcome(frame, is_outbound, flows, limits, throttles, now).0.action == PacketAction::Drop,
        monitor_outcome(frame, is_outbound, flows, limits, throttles, now).0.pid == frame_pid(
            flows,
            frame,
            is_outbound,
        ),
{
}

/// The delay an action holds a packet for: none where it is reinjected at
/// once.
pub open spec fn held_for(a: PacketAction) -> nat {
    match a {
        PacketAction::Delay(d) => d as nat,
        _ => 0,
    }
}

/// The delay that the buckets kept under `key` give a frame of `bytes`
/// bytes in one direction at `rate` bytes per second at time `now`: the
/// bucket of that direction (made full where there was none, with its rate
/// set), after it pays for the frame, and the time it needs to climb back to
/// zero.
pub open spec fn bucket_delay(
    throttles: Map<u32, ThrottleView>,
    key: u32,
    is_outbound: bool,
    rate: u64,
    bytes: nat,
    now: u64,
) -> nat {
    let st = throttle_of(throttles, key);
    let old_b = if is_outbound {
        st.ul
    } else {
        st.dl
    };
    let b0 = bucket_for_rate(old_b, rate, now);
    let t = after_taking(refilled(b0, now), bytes);
    refill_delay(t, rate as nat)
}

/// The system-wide limit (kept under PID 0) holds for every packet, whether
/// or not its process has a limit of its own: a rate of zero drops the
/// frame, and another rate holds it at least as long as the system bucket
/// needs to pay for it, unless the frame is dropped; the system bucket pays
/// for the frame.
pub proof fn lemma_system_limit_applies(
    frame: Seq<u8>,
    is_outbound: bool,
    flows: Map<FlowAddress, crate::network::FlowEntry>,
    limits: Map<u32, LimitConfig>,
    throttles: Map<u32, ThrottleView>,
    now: u64,
)
    requires
        frame.len() > ETHERNET_HEADER_LEN,
        limits.contains_key(SYSTEM_PID),
        direction_rate(limits[SYSTEM_PID], is_outbound) is Some,
    ensures
        ({
            let v = monitor_outcome(frame, is_outbound, flows, limits, throttles, now).0;
            let r = direction_rate(limits[SYSTEM_PID], is_outbound)->0;
            &&& r == 0 ==> v.action == PacketAction::Drop
            &&& r > 0 ==> v.action == PacketAction::Drop || held_for(v.action) >= bucket_delay(
                throttles,
                SYSTEM_PID,
                is_outbound,
                r,
                frame.len(),
                now,
            )
            &&& r > 0 && frame_pid(flows, frame, is_outbound) != Some(SYSTEM_PID) ==> {
                let t = monitor_outcome(frame, is_outbound, flows, limits, throttles, now).1;
                let st = throttle_of(throttles, SYSTEM_PID);
                let paid = consumed(
                    bucket_for_rate(
                        if is_outbound {
                            st.ul
                        } else {
                            st.dl
                        },
                        r,
                        now,
                    ),
                    frame.len(),
                    now,
                );
                &&& t.contains_key(SYSTEM_PID)
                &&& (if is_outbound {
                    t[SYSTEM_PID].ul
                } else {
                    t[SYSTEM_PID].dl
                }) == Some(paid)
            }
        }),
{
}

/// The limit of the packet's own process holds too: where the system-wide
/// limit does not drop the frame and the process (other than PID 0) has a
/// rate above zero in the frame's direction, the frame is dropped or held
/// at least as long as the process bucket needs to pay for it.
pub proof fn lemma_process_limit_applies(
    frame: Seq<u8>,
    is_outbound: bool,
    flows: Map<FlowAddress, crate::network::FlowEntry>,
    limits: Map<u32, LimitConfig>,
    throttles: Map<u32, ThrottleView>,
    now: u64,
)
    requires
        frame.len() > ETHERNET_HEADER_LEN,
        frame_pid(flows, frame, is_outbound) is Some,
        frame_pid(flows, frame, is_outbound)->0 != SYSTEM_PID,
        limits.contains_key(frame_pid(flows, frame, is_outbound)->0),
        direction_rate(limits[frame_pid(flows, frame, is_outbound)->0], is_outbound) is Some,
        direction_rate(limits[frame_pid(flows, frame, is_outbound)->0], is_outbound)->0 > 0,
    ensures
        ({
            let p = frame_pid(flows, frame, is_outbound)->0;
            let v = monitor_outcome(frame, is_outbound, flows, limits, throttles, now).0;
            let r = direction_rate(limits[p], is_outbound)->0;
            v.action == PacketAction::Drop || held_for(v.action) >= bucket_delay(
                throttles,
                p,
                is_outbound,
                r,
                frame.len(),
                now,
            )
        }),
{
    let p = frame_pid(flows, frame, is_outbound)->0;
    if limits.contains_key(SYSTEM_PID) && direction_rate(limits[SYSTEM_PID], is_outbound) is Some
        && direction_rate(limits[SYSTEM_PID], is_outbound)->0 > 0 {
        let r0 = direction_rate(limits[SYSTEM_PID], is_outbound)->0;
        let (st, d) = throttle_step(throttle_of(throttles, SYSTEM_PID), is_outbound, r0, frame.len(), now);
        assert(throttle_of(throttles.insert(SYSTEM_PID, st), p) == throttle_of(throttles, p));
    }
}

// ---------------------------------------------------------------------------
// The speed calculator
// ---------------------------------------------------------------------------

/// One run of the speed calculator at `now`: every traffic counter takes the
/// speed of the last interval, processes not seen for `STALE_ENTRY_TIMEOUT`
/// leave the traffic table, and flows not seen for `STALE_FLOW_TIMEOUT`
/// leave the flow table.
pub fn speed_tick(traffic: &mut TrafficTable, flows: &mut FlowTable, now: u64)
    ensures
        final(traffic)@ == traffic_ticked(old(traffic)@, now),
        final(flows)@ == old(flows)@.restrict(
            old(flows)@.dom().filter(|f: FlowAddress| spec_elapsed(now, old(flows)@[f].last_seen) < STALE_FLOW_TIMEOUT),
        ),
{
    traffic.update_speeds(now);
    flows.retain_within(now, STALE_FLOW_TIMEOUT - 1);
    proof {
        let m = old(flows)@;
        assert(m.dom().filter(|f: FlowAddress| spec_elapsed(now, m[f].last_seen) <= (STALE_FLOW_TIMEOUT - 1) as u64)
            =~= m.dom().filter(|f: FlowAddress| spec_elapsed(now, m[f].last_seen) < STALE_FLOW_TIMEOUT));
    }
}

} // verus!
