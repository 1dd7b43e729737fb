//! Byte counters per process and for the whole machine, and the speeds
//! computed from them.

use std::collections::HashMap;

use vstd::prelude::*;
use vstd::string::StringExecFns;

use crate::clock::{elapsed, spec_elapsed};
use crate::limiter::STALE_ENTRY_TIMEOUT;
use crate::text::{decimal, decimal_string};
use crate::util::get_process_name;

verus! {

/// Snapshot of a single process's network traffic: bytes carried so far and
/// bytes carried in the last second.
#[derive(Debug, Clone)]
pub struct ProcessTraffic {
    pub pid: u32,
    pub name: String,
    pub download_bytes: u64,
    pub upload_bytes: u64,
    pub download_speed: u64,
    pub upload_speed: u64,
}

/// The byte counters of a process or of the whole machine: the totals, their
/// values at the last speed update, and the speeds found then.
pub ghost struct CounterState {
    pub download_bytes: nat,
    pub upload_bytes: nat,
    pub prev_download_bytes: nat,
    pub prev_upload_bytes: nat,
    pub download_speed: nat,
    pub upload_speed: nat,
}

/// The counters and the traffic record of one process.
pub ghost struct TrafficRecord {
    pub name: Seq<char>,
    pub counters: CounterState,
    pub last_seen: nat,
}

/// The whole traffic table: a record per process, and the machine totals.
pub ghost struct TrafficView {
    pub processes: Map<u32, TrafficRecord>,
    pub totals: CounterState,
}

/// `a + b`, held at `u64::MAX`.
pub open spec fn saturating_sum(a: nat, b: nat) -> nat {
    if a + b > u64::MAX {
        u64::MAX as nat
    } else {
        a + b
    }
}

/// Counters after `bytes` more bytes in one direction.
pub open spec fn counted(c: CounterState, is_outbound: bool, bytes: nat) -> CounterState {
    if is_outbound {
        CounterState { upload_bytes: saturating_sum(c.upload_bytes, bytes), ..c }
    } else {
        CounterState { download_bytes: saturating_sum(c.download_bytes, bytes), ..c }
    }
}

/// Counters after a speed update: the speed is what was counted since the
/// last update.
pub open spec fn ticked(c: CounterState) -> CounterState {
    CounterState {
        download_bytes: c.download_bytes,
        upload_bytes: c.upload_bytes,
        prev_download_bytes: c.download_bytes,
        prev_upload_bytes: c.upload_bytes,
        download_speed: (c.download_bytes - c.prev_download_bytes) as nat,
        upload_speed: (c.upload_bytes - c.prev_upload_bytes) as nat,
    }
}

/// Counters at zero.
pub open spec fn zero_counters() -> CounterState {
    CounterState {
        download_bytes: 0,
        upload_bytes: 0,
        prev_download_bytes: 0,
        prev_upload_bytes: 0,
        download_speed: 0,
        upload_speed: 0,
    }
}

/// The name a process gets in the table where its own name is not known.
pub open spec fn fallback_name(pid: u32) -> Seq<char> {
    "PID "@ + decimal(pid as nat)
}

/// The name of a process that enters the table: the one looked up, or else
/// `PID <pid>`.
pub open spec fn entry_name(pid: u32, looked_up: Option<Seq<char>>) -> Seq<char> {
    match looked_up {
        Some(n) => n,
        None => fallback_name(pid),
    }
}

/// The table after a packet of `bytes` bytes was carried: it is added to the
/// totals, and to the process it belongs to, unless that is unknown or PID 0.
/// A process seen for the first time enters the table with the name
/// `looked_up` gives, and the packet marks it as seen at `now`.
pub open spec fn traffic_counted(
    v: TrafficView,
    pid: Option<u32>,
    is_outbound: bool,
    bytes: nat,
    now: u64,
    looked_up: Option<Seq<char>>,
) -> TrafficView {
    let totals = counted(v.totals, is_outbound, bytes);
    match pid {
        Some(p) => if p != 0 {
            let rec = if v.processes.contains_key(p) {
                v.processes[p]
            } else {
                TrafficRecord { name: entry_name(p, looked_up), counters: zero_counters(), last_seen: 0 }
            };
            let rec2 = TrafficRecord {
                name: rec.name,
                counters: counted(rec.counters, is_outbound, bytes),
                last_seen: now as nat,
            };
            TrafficView { processes: v.processes.insert(p, rec2), totals }
        } else {
            TrafficView { processes: v.processes, totals }
        },
        None => TrafficView { processes: v.processes, totals },
    }
}

/// A packet of process `pid` makes it enter the table: a process other
/// than PID 0 that the table does not hold yet.
pub open spec fn enters_table(v: TrafficView, pid: Option<u32>) -> bool {
    pid is Some && pid->0 != 0 && !v.processes.contains_key(pid->0)
}

/// `looked_up` is what the system gave for the name of process `pid`: a
/// result of `get_process_name`.
pub open spec fn system_name(pid: u32, looked_up: Option<String>) -> bool {
    call_ensures(get_process_name, (pid,), looked_up)
}

/// `after` is the table `before` after counting a packet of process `pid`
/// whose name, where the process enters the table, the system gave as
/// `looked_up`.
pub open spec fn counted_with_system_name(
    after: TrafficView,
    before: TrafficView,
    pid: Option<u32>,
    is_outbound: bool,
    bytes: nat,
    now: u64,
    looked_up: Option<String>,
) -> bool {
    &&& enters_table(before, pid) ==> system_name(pid->0, looked_up)
    &&& after == traffic_counted(before, pid, is_outbound, bytes, now, opt_text(looked_up))
}

/// The text of an optional string.
pub open spec fn opt_text(s: Option<String>) -> Option<Seq<char>> {
    match s {
        Some(n) => Some(n@),
        None => None,
    }
}

/// The table after a speed update at `now`: every counter takes its speed,
/// and a process not seen for `STALE_ENTRY_TIMEOUT` leaves the table.
pub open spec fn traffic_ticked(v: TrafficView, now: u64) -> TrafficView {
    TrafficView {
        processes: Map::new(
            |p: u32|
                v.processes.contains_key(p) && spec_elapsed(now, v.processes[p].last_seen as u64)
                    < STALE_ENTRY_TIMEOUT,
            |p: u32|
                TrafficRecord {
                    name: v.processes[p].name,
                    counters: ticked(v.processes[p].counters),
                    last_seen: v.processes[p].last_seen,
                },
        ),
        totals: ticked(v.totals),
    }
}

/// The table after a blocked packet of process `pid` at `now`: a process
/// that the table holds (other than PID 0) is marked as seen, and nothing is
/// counted.
pub open spec fn traffic_touched(v: TrafficView, pid: Option<u32>, now: u64) -> TrafficView {
    match pid {
        Some(p) => if p != 0 && v.processes.contains_key(p) {
            TrafficView {
                processes: v.processes.insert(p, TrafficRecord { last_seen: now as nat, ..v.processes[p] }),
                totals: v.totals,
            }
        } else {
            v
        },
        None => v,
    }
}

/// The snapshot of process `pid` with record `r`.
pub open spec fn snapshot_of(pid: u32, r: TrafficRecord) -> (u32, Seq<char>, nat, nat, nat, nat) {
    (
        pid,
        r.name,
        r.counters.download_bytes,
        r.counters.upload_bytes,
        r.counters.download_speed,
        r.counters.upload_speed,
    )
}

/// The fields of a snapshot.
pub open spec fn traffic_fields(t: ProcessTraffic) -> (u32, Seq<char>, nat, nat, nat, nat) {
    (
        t.pid,
        t.name@,
        t.download_bytes as nat,
        t.upload_bytes as nat,
        t.download_speed as nat,
        t.upload_speed as nat,
    )
}

/// The snapshots `s` are sorted by download speed, fastest first.
pub open spec fn sorted_by_download_speed(s: Seq<ProcessTraffic>) -> bool {
    forall|i: int, j: int| 0 <= i < j < s.len() ==> s[i].download_speed >= s[j].download_speed
}

/// Counters whose totals fit in a `u64` and never fall behind the values of
/// the last speed update.
pub open spec fn counters_wf(c: CounterState) -> bool {
    &&& c.prev_download_bytes <= c.download_bytes <= u64::MAX
    &&& c.prev_upload_bytes <= c.upload_bytes <= u64::MAX
    &&& c.download_speed <= u64::MAX
    &&& c.upload_speed <= u64::MAX
}

struct Counters {
    download_bytes: u64,
    upload_bytes: u64,
    prev_download_bytes: u64,
    prev_upload_bytes: u64,
    download_speed: u64,
    upload_speed: u64,
}

impl View for Counters {
    type V = CounterState;

    closed spec fn view(&self) -> CounterState {
        CounterState {
            download_bytes: self.download_bytes as nat,
            upload_bytes: self.upload_bytes as nat,
            prev_download_bytes: self.prev_download_bytes as nat,
            prev_upload_bytes: self.prev_upload_bytes as nat,
            download_speed: self.download_speed as nat,
            upload_speed: self.upload_speed as nat,
        }
    }
}

impl Counters {
    fn zero() -> (c: Counters)
        ensures
            c@ == zero_counters(),
    {
        Counters {
            download_bytes: 0,
            upload_bytes: 0,
            prev_download_bytes: 0,
            prev_upload_bytes: 0,
            download_speed: 0,
            upload_speed: 0,
        }
    }

    fn count(&self, is_outbound: bool, bytes: usize) -> (c: Counters)
        requires
            counters_wf(self@),
        ensures
            c@ == counted(self@, is_outbound, bytes as nat),
            counters_wf(c@),
    {
        let b = bytes as u64;
        if is_outbound {
            Counters { upload_bytes: self.upload_bytes.saturating_add(b), ..*self }
        } else {
            Counters { download_bytes: self.download_bytes.saturating_add(b), ..*self }
        }
    }

    fn tick(&self) -> (c: Counters)
        requires
            counters_wf(self@),
        ensures
            c@ == ticked(self@),
            counters_wf(c@),
    {
        Counters {
            download_bytes: self.download_bytes,
            upload_bytes: self.upload_bytes,
            prev_download_bytes: self.download_bytes,
            prev_upload_bytes: self.upload_bytes,
            download_speed: self.download_bytes - self.prev_download_bytes,
            upload_speed: self.upload_bytes - self.prev_upload_bytes,
        }
    }
}

/// Internal mutable state for tracking a process's traffic.
struct ProcessTrafficInner {
    name: String,
    counters: Counters,
    last_seen: u64,
}

impl View for ProcessTrafficInner {
    type V = TrafficRecord;

    closed spec fn view(&self) -> TrafficRecord {
        TrafficRecord { name: self.name@, counters: self.counters@, last_seen: self.last_seen as nat }
    }
}

/// The records of a table of processes.
spec fn records_view(m: Map<u32, ProcessTrafficInner>) -> Map<u32, TrafficRecord> {
    Map::new(|p: u32| m.contains_key(p), |p: u32| m[p]@)
}

/// The traffic counters of every process, keyed by PID, and of the whole
/// machine.
pub struct TrafficTable {
    entries: HashMap<u32, ProcessTrafficInner>,
    totals: Counters,
}

impl View for TrafficTable {
    type V = TrafficView;

    closed spec fn view(&self) -> TrafficView {
        TrafficView { processes: records_view(self.entries@), totals: self.totals@ }
    }
}

/// Every record of the table holds well-formed counters.
pub open spec fn traffic_wf(v: TrafficView) -> bool {
    &&& counters_wf(v.totals)
    &&& forall|p: u32| v.processes.contains_key(p) ==> counters_wf(#[trigger] v.processes[p].counters)
}

/// Every process of a table holds well-formed counters.
spec fn entries_wf(m: Map<u32, ProcessTrafficInner>) -> bool {
    forall|p: u32| m.contains_key(p) ==> counters_wf(#[trigger] m[p].counters@)
}

impl TrafficTable {
    #[verifier::type_invariant]
    closed spec fn wf(&self) -> bool {
        &&& counters_wf(self.totals@)
        &&& entries_wf(self.entries@)
    }

    /// An empty table with zero totals.
    pub fn new() -> (t: TrafficTable)
        ensures
            t@.processes == Map::<u32, TrafficRecord>::empty(),
            t@.totals == zero_counters(),
    {
        let t = TrafficTable { entries: HashMap::new(), totals: Counters::zero() };
        assert(records_view(t.entries@) =~= Map::<u32, TrafficRecord>::empty());
        t
    }

    /// The counters of every process are well formed.
    pub fn is_well_formed(&self) -> (b: bool)
        ensures
            b,
            traffic_wf(self@),
    {
        proof {
            use_type_invariant(self);
            assert forall|p: u32| self@.processes.contains_key(p) implies counters_wf(
                #[trigger] self@.processes[p].counters,
            ) by {
                assert(self.entries@.contains_key(p));
            }
        }
        true
    }

    /// The PIDs of the table, each once.
    fn pids(&self) -> (v: Vec<u32>)
        ensures
            v@.no_duplicates(),
            forall|p: u32| #[trigger] v@.contains(p) <==> self.entries@.contains_key(p),
    {
        let mut v: Vec<u32> = Vec::new();
        for k in it: self.entries.keys()
            invariant
                v@.len() == it.index(),
                forall|i: int| 0 <= i < v@.len() ==> v@[i] == *it.seq()[i],
        {
            v.push(*k);
        }
        proof {
            let ks = vstd::std_specs::iter::IteratorSpec::remaining(&vstd::std_specs::hash::spec_keys_iter(&self.entries));
            assert(v@ =~= ks.unref());
            assert forall|p: u32| #[trigger] v@.contains(p) <==> self.entries@.contains_key(p) by {
                assert(ks.unref().to_set().contains(p) <==> ks.unref().contains(p));
            }
        }
        v
    }

    /// The table holds process `pid`.
    pub fn contains(&self, pid: u32) -> (b: bool)
        ensures
            b == self@.processes.contains_key(pid),
    {
        self.entries.contains_key(&pid)
    }

    /// Puts `inner` in the table under `pid`, replacing the record there.
    fn put(&mut self, pid: u32, inner: ProcessTrafficInner)
        requires
            counters_wf(inner.counters@),
        ensures
            final(self)@.processes == old(self)@.processes.insert(pid, inner@),
            final(self)@.totals == old(self)@.totals,
    {
        proof {
            use_type_invariant(&*self);
        }
        let ghost before = self.entries@;
        let ghost iv = inner@;
        let mut entries: HashMap<u32, ProcessTrafficInner> = HashMap::new();
        std::mem::swap(&mut entries, &mut self.entries);
        entries.insert(pid, inner);
        proof {
            assert(entries_wf(entries@));
            assert(records_view(entries@) =~= records_view(before).insert(pid, iv));
        }
        self.entries = entries;
    }

    /// Record bytes in the total and per-PID traffic counters, the name of a
    /// process that enters the table coming from `looked_up`.
    pub fn count_traffic_named(
        &mut self,
        pid: Option<u32>,
        is_outbound: bool,
        frame_len: usize,
        now: u64,
        looked_up: Option<String>,
    )
        ensures
            final(self)@ == traffic_counted(
                old(self)@,
                pid,
                is_outbound,
                frame_len as nat,
                now,
                match looked_up {
                    Some(n) => Some(n@),
                    None => None,
                },
            ),
    {
        proof {
            use_type_invariant(&*self);
        }
        let totals = self.totals.count(is_outbound, frame_len);
        self.totals = totals;
        match pid {
            Some(p) => {
                if p != 0 {
                    let inner = match self.entries.get(&p) {
                        Some(e) => {
                            ProcessTrafficInner {
                                name: e.name.clone(),
                                counters: e.counters.count(is_outbound, frame_len),
                                last_seen: now,
                            }
                        },
                        None => {
                            let name = match looked_up {
                                Some(n) => n,
                                None => {
                                    let mut n = String::from_str("PID ");
                                    let digits = decimal_string(p as u64);
                                    n.append(digits.as_str());
                                    n
                                },
                            };
                            ProcessTrafficInner {
                                name,
                                counters: Counters::zero().count(is_outbound, frame_len),
                                last_seen: now,
                            }
                        },
                    };
                    self.put(p, inner);
                }
            },
            None => {},
        }
    }

    /// Record bytes in the total and per-PID traffic counters. A process that
    /// enters the table gets the name the system gives it for its PID
    /// (`get_process_name`), or `PID <pid>` where the system gives none.
    pub fn count_traffic(&mut self, pid: Option<u32>, is_outbound: bool, frame_len: usize, now: u64)
        ensures
            exists|looked_up: Option<Seq<char>>|
                final(self)@ == traffic_counted(
                    old(self)@,
                    pid,
                    is_outbound,
                    frame_len as nat,
                    now,
                    looked_up,
                ),
            exists|looked_up: Option<String>|
                #[trigger] counted_with_system_name(final(self)@, old(self)@, pid, is_outbound, frame_len as nat, now, looked_up),
    {
        let needs_name = match pid {
            Some(p) => p != 0 && !self.contains(p),
            None => false,
        };
        let looked_up = if needs_name {
            match pid {
                Some(p) => get_process_name(p),
                None => None,
            }
        } else {
            None
        };
        let ghost lk = looked_up;
        let ghost before = self@;
        proof {
            if enters_table(before, pid) {
                assert(system_name(pid->0, lk));
            }
        }
        self.count_traffic_named(pid, is_outbound, frame_len, now, looked_up);
        proof {
            assert(counted_with_system_name(self@, before, pid, is_outbound, frame_len as nat, now, lk));
        }
    }

    /// Marks process `pid` as seen at `now`, where the table holds it: a
    /// blocked packet keeps its process visible.
    pub fn touch(&mut self, pid: Option<u32>, now: u64)
        ensures
            final(self)@ == traffic_touched(old(self)@, pid, now),
    {
        proof {
            use_type_invariant(&*self);
        }
        match pid {
            Some(p) => {
                if p != 0 {
                    match self.entries.get(&p) {
                        Some(e) => {
                            let inner = ProcessTrafficInner {
                                name: e.name.clone(),
                                counters: Counters { ..e.counters },
                                last_seen: now,
                            };
                            self.put(p, inner);
                        },
                        None => {},
                    }
                }
            },
            None => {},
        }
    }

    /// Computes the speeds of the last interval at `now`: every counter's
    /// speed becomes what it counted since the last update, and processes not
    /// seen for `STALE_ENTRY_TIMEOUT` leave the table.
    pub fn update_speeds(&mut self, now: u64)
        ensures
            final(self)@ == traffic_ticked(old(self)@, now),
    {
        proof {
            use_type_invariant(&*self);
        }
        let ghost old_view = self@;
        let ghost orig = self.entries@;
        let pids = self.pids();
        let mut rest: HashMap<u32, ProcessTrafficInner> = HashMap::new();
        std::mem::swap(&mut rest, &mut self.entries);
        let ghost target = traffic_ticked(old_view, now).processes;
        let mut kept: HashMap<u32, ProcessTrafficInner> = HashMap::new();
        let mut i: usize = 0;
        while i < pids.len()
            invariant
                old_view.processes == records_view(orig),
                entries_wf(orig),
                target == traffic_ticked(old_view, now).processes,
                pids@.no_duplicates(),
                forall|p: u32| #[trigger] pids@.contains(p) <==> orig.contains_key(p),
                i <= pids@.len(),
                forall|p: u32|
                    #[trigger] rest@.contains_key(p) <==> (orig.contains_key(p) && !pids@.take(i as int).contains(p)),
                forall|p: u32| rest@.contains_key(p) ==> #[trigger] rest@[p] == orig[p],
                entries_wf(kept@),
                forall|p: u32|
                    #[trigger] kept@.contains_key(p) <==> (pids@.take(i as int).contains(p) && target.contains_key(p)),
                forall|p: u32| kept@.contains_key(p) ==> #[trigger] kept@[p]@ == target[p],
            decreases pids@.len() - i,
        {
            let pid = pids[i];
            proof {
                assert(pids@.take(i + 1) =~= pids@.take(i as int).push(pid));
                assert(!pids@.take(i as int).contains(pid)) by {
                    if pids@.take(i as int).contains(pid) {
                        let j = choose|j: int| 0 <= j < i && pids@.take(i as int)[j] == pid;
                        assert(pids@[j] == pids@[i as int]);
                    }
                }
                assert(pids@.contains(pid)) by {
                    assert(pids@[i as int] == pid);
                }
            }
            let taken = rest.remove(&pid);
            match taken {
                Some(e) => {
                    proof {
                        assert(e == orig[pid]);
                        assert(counters_wf(orig[pid].counters@));
                    }
                    if elapsed(now, e.last_seen) < STALE_ENTRY_TIMEOUT {
                        let inner = ProcessTrafficInner {
                            name: e.name,
                            counters: e.counters.tick(),
                            last_seen: e.last_seen,
                        };
                        kept.insert(pid, inner);
                    }
                },
                None => {
                    proof {
                        assert(false);
                    }
                },
            }
            i = i + 1;
            proof {
                assert forall|p: u32|
                    #[trigger] kept@.contains_key(p) <==> (pids@.take(i as int).contains(p) && target.contains_key(
                        p,
                    )) by {
                    if p != pid {
                        assert(pids@.take(i as int).contains(p) <==> pids@.take(i - 1).contains(p)) by {
                            assert(pids@.take(i as int) == pids@.take(i - 1).push(pid));
                        }
                    } else {
                        assert(pids@.take(i as int)[i - 1] == pid);
                    }
                }
                assert forall|p: u32|
                    #[trigger] rest@.contains_key(p) <==> (orig.contains_key(p) && !pids@.take(i as int).contains(
                        p,
                    )) by {
                    if p != pid {
                        assert(pids@.take(i as int).contains(p) <==> pids@.take(i - 1).contains(p)) by {
                            assert(pids@.take(i as int) == pids@.take(i - 1).push(pid));
                        }
                    } else {
                        assert(pids@.take(i as int)[i - 1] == pid);
                    }
                }
            }
        }
        proof {
            assert(pids@.take(pids@.len() as int) =~= pids@);
            assert(records_view(kept@) =~= target);
        }
        let totals = self.totals.tick();
        self.entries = kept;
        self.totals = totals;
    }

    /// A snapshot of all process traffic stats, sorted by download speed,
    /// fastest first: one snapshot per process of the table, and nothing
    /// else.
    pub fn get_snapshot(&self) -> (r: Vec<ProcessTraffic>)
        ensures
            sorted_by_download_speed(r@),
            forall|i: int, j: int| 0 <= i < j < r@.len() ==> r@[i].pid != r@[j].pid,
            forall|i: int|
                0 <= i < r@.len() ==> self@.processes.contains_key(#[trigger] r@[i].pid)
                    && traffic_fields(r@[i]) == snapshot_of(r@[i].pid, self@.processes[r@[i].pid]),
            forall|p: u32| #[trigger]
                self@.processes.contains_key(p) ==> exists|i: int| 0 <= i < r@.len() && r@[i].pid == p,
    {
        let pids = self.pids();
        let ghost m = self@.processes;
        let mut r: Vec<ProcessTraffic> = Vec::new();
        let mut i: usize = 0;
        while i < pids.len()
            invariant
                m == self@.processes,
                m == records_view(self.entries@),
                pids@.no_duplicates(),
                forall|p: u32| #[trigger] pids@.contains(p) <==> self.entries@.contains_key(p),
                i <= pids@.len(),
                sorted_by_download_speed(r@),
                r@.len() == i,
                forall|a: int, b: int| 0 <= a < b < r@.len() ==> r@[a].pid != r@[b].pid,
                forall|a: int|
                    0 <= a < r@.len() ==> pids@.take(i as int).contains(#[trigger] r@[a].pid) && m.contains_key(
                        r@[a].pid,
                    ) && traffic_fields(r@[a]) == snapshot_of(r@[a].pid, m[r@[a].pid]),
                forall|j: int| 0 <= j < i ==> exists|a: int| 0 <= a < r@.len() && r@[a].pid == #[trigger] pids@[j],
            decreases pids@.len() - i,
        {
            let pid = pids[i];
            proof {
                assert(pids@.contains(pid)) by {
                    assert(pids@[i as int] == pid);
                }
            }
            let t = match self.entries.get(&pid) {
                Some(e) => ProcessTraffic {
                    pid,
                    name: e.name.clone(),
                    download_bytes: e.counters.download_bytes,
                    upload_bytes: e.counters.upload_bytes,
                    download_speed: e.counters.download_speed,
                    upload_speed: e.counters.upload_speed,
                },
                None => {
                    proof {
                        assert(false);
                    }
                    ProcessTraffic {
                        pid,
                        name: String::new(),
                        download_bytes: 0,
                        upload_bytes: 0,
                        download_speed: 0,
                        upload_speed: 0,
                    }
                },
            };
            // The first place whose speed is lower keeps the order stable.
            let mut j: usize = 0;
            while j < r.len() && r[j].download_speed >= t.download_speed
                invariant
                    j <= r@.len(),
                    forall|a: int| 0 <= a < j ==> r@[a].download_speed >= t.download_speed,
                decreases r@.len() - j,
            {
                j = j + 1;
            }
            let ghost before = r@;
            proof {
                assert(!pids@.take(i as int).contains(pid)) by {
                    if pids@.take(i as int).contains(pid) {
                        let a = choose|a: int| 0 <= a < i && pids@.take(i as int)[a] == pid;
                        assert(pids@[a] == pids@[i as int]);
                    }
                }
                assert(forall|a: int| 0 <= a < before.len() ==> before[a].pid != pid);
            }
            r.insert(j, t);
            proof {
                assert(r@ == before.insert(j as int, t));
                assert forall|a: int, b: int| 0 <= a < b < r@.len() implies r@[a].download_speed
                    >= r@[b].download_speed by {
                    if j < r@.len() - 1 && b > j as int {
                        if a < j {
                        } else if a == j {
                            assert(!(before[b - 1].download_speed >= t.download_speed) || b - 1 >= j);
                        }
                    }
                }
                assert(pids@.take(i + 1) =~= pids@.take(i as int).push(pid));
                assert forall|a: int, b: int| 0 <= a < b < r@.len() implies r@[a].pid != r@[b].pid by {
                }
                assert forall|a: int|
                    0 <= a < r@.len() implies pids@.take(i + 1).contains(#[trigger] r@[a].pid) && m.contains_key(
                        r@[a].pid,
                    ) && traffic_fields(r@[a]) == snapshot_of(r@[a].pid, m[r@[a].pid]) by {
                    if a < j {
                        assert(r@[a] == before[a]);
                    } else if a > j {
                        assert(r@[a] == before[a - 1]);
                    }
                    if a != j {
                        let b = if a < j {
                            a
                        } else {
                            a - 1
                        };
                        let c = choose|c: int| 0 <= c < i && pids@.take(i as int)[c] == before[b].pid;
                        assert(pids@.take(i + 1)[c] == r@[a].pid);
                    } else {
                        assert(pids@.take(i + 1)[i as int] == pid);
                    }
                }
                assert forall|k: int| 0 <= k < i + 1 implies exists|a: int|
                    0 <= a < r@.len() && r@[a].pid == #[trigger] pids@[k] by {
                    if k == i {
                        assert(r@[j as int].pid == pids@[k]);
                    } else {
                        let a = choose|a: int| 0 <= a < before.len() && before[a].pid == pids@[k];
                        if a < j {
                            assert(r@[a].pid == pids@[k]);
                        } else {
                            assert(r@[a + 1].pid == pids@[k]);
                        }
                    }
                }
            }
            i = i + 1;
        }
        proof {
            assert forall|p: u32| #[trigger] m.contains_key(p) implies exists|i: int|
                0 <= i < r@.len() && r@[i].pid == p by {
                assert(pids@.contains(p));
                let k = choose|k: int| 0 <= k < pids@.len() && pids@[k] == p;
                assert(exists|a: int| 0 <= a < r@.len() && r@[a].pid == pids@[k]);
            }
        }
        r
    }

    /// The total traffic counters (all traffic, including unattributed), as
    /// a snapshot of PID 0 named `System`.
    pub fn get_totals(&self) -> (t: ProcessTraffic)
        ensures
            t.pid == 0,
            t.name@ == "System"@,
            t.download_bytes == self@.totals.download_bytes,
            t.upload_bytes == self@.totals.upload_bytes,
            t.download_speed == self@.totals.download_speed,
            t.upload_speed == self@.totals.upload_speed,
    {
        ProcessTraffic {
            pid: 0,
            name: String::from_str("System"),
            download_bytes: self.totals.download_bytes,
            upload_bytes: self.totals.upload_bytes,
            download_speed: self.totals.download_speed,
            upload_speed: self.totals.upload_speed,
        }
    }
}

/// Bytes counted right after a speed update show up as the speed at the next
/// one: counting `bytes` bytes on a process that was just updated, then
/// updating again, gives that process a speed of `bytes` in that direction
/// (as long as the counter does not reach `u64::MAX`).
pub proof fn lemma_speed_is_bytes_counted(c: CounterState, is_outbound: bool, bytes: nat)
    requires
        counters_wf(c),
        is_outbound ==> c.upload_bytes + bytes <= u64::MAX,
        !is_outbound ==> c.download_bytes + bytes <= u64::MAX,
    ensures
        ({
            let after = ticked(counted(ticked(c), is_outbound, bytes));
            &&& is_outbound ==> after.upload_speed == bytes && after.download_speed == 0
            &&& !is_outbound ==> after.download_speed == bytes && after.upload_speed == 0
        }),
{
}

/// Every packet counts in the totals, attributed or not: the totals grow by
/// the packet's bytes in its direction (until they reach `u64::MAX`), and
/// the other direction stays.
pub proof fn lemma_totals_count_every_packet(
    v: TrafficView,
    pid: Option<u32>,
    is_outbound: bool,
    bytes: nat,
    now: u64,
    looked_up: Option<Seq<char>>,
)
    ensures
        ({
            let t = traffic_counted(v, pid, is_outbound, bytes, now, looked_up).totals;
            &&& is_outbound ==> t.upload_bytes == saturating_sum(v.totals.upload_bytes, bytes)
                && t.download_bytes == v.totals.download_bytes
            &&& !is_outbound ==> t.download_bytes == saturating_sum(v.totals.download_bytes, bytes)
                && t.upload_bytes == v.totals.upload_bytes
        }),
{
}

/// A packet of a process other than PID 0 counts for that process, which is
/// marked as seen: a process already in the table keeps its name, and one
/// seen for the first time enters with the name looked up, or `PID <pid>`.
/// No other process changes.
pub proof fn lemma_packet_counts_for_its_process(
    v: TrafficView,
    p: u32,
    is_outbound: bool,
    bytes: nat,
    now: u64,
    looked_up: Option<Seq<char>>,
)
    requires
        p != 0,
    ensures
        ({
            let after = traffic_counted(v, Some(p), is_outbound, bytes, now, looked_up).processes;
            let before = if v.processes.contains_key(p) {
                v.processes[p].counters
            } else {
                zero_counters()
            };
            &&& after.contains_key(p)
            &&& after[p].counters == counted(before, is_outbound, bytes)
            &&& after[p].last_seen == now
            &&& after[p].name == (if v.processes.contains_key(p) {
                v.processes[p].name
            } else {
                entry_name(p, looked_up)
            })
            &&& forall|q: u32| q != p ==> (after.contains_key(q) == v.processes.contains_key(q)) && (
            after.contains_key(q) ==> after[q] == v.processes[q])
        }),
{
}

/// A process entering the traffic table is named by the system: where
/// `count_traffic` counts a packet of a process (other than PID 0) that the
/// table does not hold, the process enters with the name that the system's
/// lookup of its PID gave, and with `PID <pid>` only where that lookup gave
/// none.
pub proof fn lemma_entering_process_named_by_system(
    after: TrafficView,
    before: TrafficView,
    p: u32,
    is_outbound: bool,
    bytes: nat,
    now: u64,
    looked_up: Option<String>,
)
    requires
        counted_with_system_name(after, before, Some(p), is_outbound, bytes, now, looked_up),
        p != 0,
        !before.processes.contains_key(p),
    ensures
        system_name(p, looked_up),
        after.processes.contains_key(p),
        looked_up is Some ==> after.processes[p].name == looked_up->0@,
        looked_up is None ==> after.processes[p].name == "PID "@ + decimal(p as nat),
{
}

} // verus!
