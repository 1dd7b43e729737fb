//! The delay queue of the packet loops: packets whose reinjection waits for
//! their release time, and what the loops do with a packet once its verdict
//! is known.

use std::collections::VecDeque;

use vstd::prelude::*;

use crate::limiter::{PacketAction, Verdict};
use crate::traffic::{traffic_counted, traffic_touched, TrafficTable, TrafficView};

verus! {

/// A packet whose reinjection has been deferred to enforce a rate limit.
pub struct DelayedPacket<B, H> {
    /// The packet itself, as the driver handed it out.
    pub buffer: B,
    /// The adapter the packet was read from, and goes back to.
    pub adapter_handle: H,
    pub is_outbound: bool,
    /// When the packet may leave the queue, in nanoseconds since the epoch.
    pub release_at: u64,
    /// Full Ethernet frame length, stored so traffic can be counted at
    /// reinjection time rather than interception time.
    pub frame_len: usize,
    /// PID that owns this packet (if resolved), for per-process traffic counting.
    pub pid: Option<u32>,
}

/// Metadata for a packet that was just reinjected from the delay queue,
/// so the caller can update traffic counters at delivery time.
#[derive(Debug, Clone, Copy, PartialEq, Eq, Structural)]
pub struct ReinjectedInfo {
    pub is_outbound: bool,
    pub frame_len: usize,
    pub pid: Option<u32>,
}

/// The metadata of a delayed packet.
pub open spec fn info_of<B, H>(p: DelayedPacket<B, H>) -> ReinjectedInfo {
    ReinjectedInfo { is_outbound: p.is_outbound, frame_len: p.frame_len, pid: p.pid }
}

impl<B, H> DelayedPacket<B, H> {
    /// The metadata that traffic counting needs once the packet is delivered.
    pub fn info(&self) -> (i: ReinjectedInfo)
        ensures
            i == info_of(*self),
    {
        ReinjectedInfo { is_outbound: self.is_outbound, frame_len: self.frame_len, pid: self.pid }
    }
}

/// The time `delay` nanoseconds after `now`, held at the end of the clock.
pub open spec fn release_time(now: u64, delay: nat) -> u64 {
    if now + delay > u64::MAX {
        u64::MAX
    } else {
        (now + delay) as u64
    }
}

/// The packet that `delay` nanoseconds of pacing turn a frame into.
pub open spec fn delayed<B, H>(
    buffer: B,
    adapter_handle: H,
    is_outbound: bool,
    frame_len: usize,
    pid: Option<u32>,
    now: u64,
    delay: nat,
) -> DelayedPacket<B, H> {
    DelayedPacket { buffer, adapter_handle, is_outbound, release_at: release_time(now, delay), frame_len, pid }
}

/// Puts a packet at the back of the delay queue, to leave it `delay`
/// nanoseconds after `now`.
pub fn schedule<B, H>(
    queue: &mut VecDeque<DelayedPacket<B, H>>,
    buffer: B,
    adapter_handle: H,
    is_outbound: bool,
    frame_len: usize,
    pid: Option<u32>,
    now: u64,
    delay: u128,
)
    ensures
        final(queue)@ == old(queue)@.push(
            delayed(buffer, adapter_handle, is_outbound, frame_len, pid, now, delay as nat),
        ),
{
    let room = (u64::MAX - now) as u128;
    let release_at = if delay > room {
        u64::MAX
    } else {
        now + delay as u64
    };
    queue.push_back(DelayedPacket { buffer, adapter_handle, is_outbound, release_at, frame_len, pid });
}

/// Takes out of the delay queue the packets whose release time has come at
/// `now`, in queue order: the longest prefix of the queue whose packets are
/// all due. The queue is first in, first out: a packet that is not due holds
/// back those behind it.
pub fn flush_delayed<B, H>(queue: &mut VecDeque<DelayedPacket<B, H>>, now: u64) -> (ready: Vec<
    DelayedPacket<B, H>,
>)
    ensures
        ready@.len() <= old(queue)@.len(),
        ready@ == old(queue)@.take(ready@.len() as int),
        final(queue)@ == old(queue)@.skip(ready@.len() as int),
        forall|i: int| 0 <= i < ready@.len() ==> (#[trigger] ready@[i]).release_at <= now,
        ready@.len() < old(queue)@.len() ==> old(queue)@[ready@.len() as int].release_at > now,
{
    let ghost start = queue@;
    let mut ready: Vec<DelayedPacket<B, H>> = Vec::new();
    loop
        invariant
            ready@ == start.take(ready@.len() as int),
            queue@ == start.skip(ready@.len() as int),
            ready@.len() <= start.len(),
            forall|i: int| 0 <= i < ready@.len() ==> (#[trigger] ready@[i]).release_at <= now,
        ensures
            ready@.len() <= start.len(),
            ready@ == start.take(ready@.len() as int),
            queue@ == start.skip(ready@.len() as int),
            forall|i: int| 0 <= i < ready@.len() ==> (#[trigger] ready@[i]).release_at <= now,
            ready@.len() < start.len() ==> start[ready@.len() as int].release_at > now,
        decreases queue@.len(),
    {
        if queue.len() == 0 {
            break;
        }
        if queue[0].release_at > now {
            break;
        }
        let ghost k = ready@.len() as int;
        match queue.pop_front() {
            Some(p) => {
                ready.push(p);
                proof {
                    assert(ready@ =~= start.take(k + 1));
                    assert(queue@ =~= start.skip(k + 1));
                }
            },
            None => {
                break;
            },
        }
    }
    ready
}

/// How long the packet loop may wait for new traffic, in milliseconds: not
/// at all long while packets wait in the queue, and without end otherwise.
pub fn event_timeout_ms<B, H>(queue: &VecDeque<DelayedPacket<B, H>>) -> (t: u32)
    ensures
        t == (if queue@.len() == 0 {
            u32::MAX
        } else {
            1u32
        }),
{
    if queue.len() == 0 {
        u32::MAX
    } else {
        1
    }
}

/// The traffic table after the reinjected packets `infos` were counted in
/// order, the names of the processes that enter the table coming from
/// `names`.
pub open spec fn traffic_counted_all(
    v: TrafficView,
    infos: Seq<ReinjectedInfo>,
    now: u64,
    names: Seq<Option<Seq<char>>>,
) -> TrafficView
    decreases infos.len(),
{
    if infos.len() == 0 {
        v
    } else {
        let before = traffic_counted_all(v, infos.drop_last(), now, names.drop_last());
        let last = infos.last();
        traffic_counted(before, last.pid, last.is_outbound, last.frame_len as nat, now, names.last())
    }
}

/// Counts the packets just delivered from the delay queue, in the order they
/// left it.
pub fn count_reinjected(traffic: &mut TrafficTable, infos: &Vec<ReinjectedInfo>, now: u64)
    ensures
        exists|names: Seq<Option<Seq<char>>>|
            names.len() == infos@.len() && final(traffic)@ == traffic_counted_all(
                old(traffic)@,
                infos@,
                now,
                names,
            ),
{
    let ghost start = traffic@;
    let mut i: usize = 0;
    proof {
        let names = Seq::<Option<Seq<char>>>::empty();
        assert(infos@.take(0) =~= Seq::<ReinjectedInfo>::empty());
        assert(traffic@ == traffic_counted_all(start, infos@.take(0), now, names));
    }
    while i < infos.len()
        invariant
            i <= infos@.len(),
            exists|names: Seq<Option<Seq<char>>>|
                names.len() == i && traffic@ == #[trigger] traffic_counted_all(
                    start,
                    infos@.take(i as int),
                    now,
                    names,
                ),
        decreases infos@.len() - i,
    {
        let ghost before = traffic@;
        let ghost names = choose|names: Seq<Option<Seq<char>>>|
            names.len() == i && before == traffic_counted_all(start, infos@.take(i as int), now, names);
        let info = infos[i];
        traffic.count_traffic(info.pid, info.is_outbound, info.frame_len, now);
        proof {
            let looked_up = choose|looked_up: Option<Seq<char>>|
                traffic@ == traffic_counted(before, info.pid, info.is_outbound, info.frame_len as nat, now, looked_up);
            let names2 = names.push(looked_up);
            let taken = infos@.take(i + 1);
            assert(taken.drop_last() =~= infos@.take(i as int));
            assert(names2.drop_last() =~= names);
            assert(taken.last() == info);
            assert(traffic@ == traffic_counted_all(start, taken, now, names2));
        }
        i = i + 1;
    }
    proof {
        assert(infos@.take(infos@.len() as int) =~= infos@);
    }
}

/// What the monitor does with a frame once it has its verdict. A dropped
/// frame is not reinjected, but keeps its process visible in the traffic
/// table. A delayed frame joins the back of the delay queue, and is counted
/// when it leaves it. Any other frame is counted now and handed back, to be
/// reinjected at once.
pub fn settle_verdict<B, H>(
    verdict: Verdict,
    buffer: B,
    adapter_handle: H,
    is_outbound: bool,
    frame_len: usize,
    now: u64,
    traffic: &mut TrafficTable,
    queue: &mut VecDeque<DelayedPacket<B, H>>,
) -> (back: Option<(B, H)>)
    ensures
        match verdict.action {
            PacketAction::Drop => {
                &&& back is None
                &&& final(queue)@ == old(queue)@
                &&& final(traffic)@ == traffic_touched(old(traffic)@, verdict.pid, now)
            },
            PacketAction::Delay(d) => {
                &&& back is None
                &&& final(queue)@ == old(queue)@.push(
                    delayed(buffer, adapter_handle, is_outbound, frame_len, verdict.pid, now, d as nat),
                )
                &&& final(traffic)@ == old(traffic)@
            },
            PacketAction::Reinject => {
                &&& back == Some((buffer, adapter_handle))
                &&& final(queue)@ == old(queue)@
                &&& exists|looked_up: Option<Seq<char>>|
                    final(traffic)@ == traffic_counted(
                        old(traffic)@,
                        verdict.pid,
                        is_outbound,
                        frame_len as nat,
                        now,
                        looked_up,
                    )
            },
        },
{
    match verdict.action {
        PacketAction::Drop => {
            traffic.touch(verdict.pid, now);
            None
        },
        PacketAction::Delay(d) => {
            schedule(queue, buffer, adapter_handle, is_outbound, frame_len, verdict.pid, now, d);
            None
        },
        PacketAction::Reinject => {
            traffic.count_traffic(verdict.pid, is_outbound, frame_len, now);
            Some((buffer, adapter_handle))
        },
    }
}

/// What the single-process limiter does with a frame of process `pid` that
/// pacing gave `delay` nanoseconds: with a delay it joins the back of the
/// delay queue, and otherwise it is handed back, to be reinjected at once.
pub fn defer_or_pass<B, H>(
    delay: u128,
    pid: u32,
    buffer: B,
    adapter_handle: H,
    is_outbound: bool,
    frame_len: usize,
    now: u64,
    queue: &mut VecDeque<DelayedPacket<B, H>>,
) -> (back: Option<(B, H)>)
    ensures
        delay > 0 ==> back is None && final(queue)@ == old(queue)@.push(
            delayed(buffer, adapter_handle, is_outbound, frame_len, Some(pid), now, delay as nat),
        ),
        delay == 0 ==> back == Some((buffer, adapter_handle)) && final(queue)@ == old(queue)@,
{
    if delay > 0 {
        schedule(queue, buffer, adapter_handle, is_outbound, frame_len, Some(pid), now, delay);
        None
    } else {
        Some((buffer, adapter_handle))
    }
}

} // verus!
