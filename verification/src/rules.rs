//! The limits the user has set: one per application, which persists, and
//! one per single process, which overrides it; and the limits they put in
//! force on the packet limiter.

use std::collections::HashMap;

use vstd::prelude::*;

use crate::groups::AppGroup;
use crate::limiter::LimitConfig;
use crate::settings::{
    any_setting, direction_byterate, flags_of, merged, no_flags, saved_as, LimitFlags, ProcessConfig,
    ProcessLimitState,
};
use crate::table::{
    count_where, distinct_keys, has_key, keyed_map, keys_where, lemma_keys_where_count, lemma_keyed_map_absent, lemma_keyed_map_at, lemma_keyed_map_empty,
    lemma_keyed_map_push, lemma_keyed_map_update,
};
use crate::text::same_text;
use crate::traffic::ProcessTraffic;

verus! {

/// That a limit state has anything set, as a predicate.
pub open spec fn set_somehow() -> spec_fn(ProcessLimitState) -> bool {
    |s: ProcessLimitState| any_setting(s)
}

/// A count as the machine word holds it: past its largest value it stays
/// there.
pub open spec fn capped_count(n: nat) -> int {
    if n <= usize::MAX {
        n as int
    } else {
        usize::MAX as int
    }
}

/// The limits set by the user, and the process names seen so far.
pub ghost struct RulesView {
    /// The limit of each application, by name.
    pub groups: Map<Seq<char>, ProcessLimitState>,
    /// The limit set on single processes, by PID.
    pub pids: Map<u32, ProcessLimitState>,
    /// The name of every process seen so far, by PID.
    pub known: Map<u32, Seq<char>>,
}

/// The pairs of a name-keyed table, with names as character sequences.
pub open spec fn named<V>(s: Seq<(String, V)>) -> Seq<(Seq<char>, V)> {
    s.map_values(|e: (String, V)| (e.0@, e.1))
}

/// The pairs of the table of known processes, with names as character
/// sequences.
pub open spec fn known_pairs(s: Seq<(u32, String)>) -> Seq<(u32, Seq<char>)> {
    s.map_values(|e: (u32, String)| (e.0, e.1@))
}

/// The limit in force on process `pid` shown in the row of application
/// `name`: the one set on the process itself, or else that of its
/// application.
pub open spec fn effective_of(v: RulesView, pid: u32, name: Seq<char>) -> Option<ProcessLimitState> {
    if v.pids.contains_key(pid) {
        Some(v.pids[pid])
    } else if v.groups.contains_key(name) {
        Some(v.groups[name])
    } else {
        None
    }
}

/// The markers of the row of process `pid` in application `name`.
pub open spec fn flags_for(v: RulesView, pid: u32, name: Seq<char>) -> LimitFlags {
    match effective_of(v, pid, name) {
        Some(s) => flags_of(s),
        None => no_flags(),
    }
}

/// The markers of an application's row: those of all its instances
/// together.
pub open spec fn group_flags(v: RulesView, name: Seq<char>, procs: Seq<ProcessTraffic>) -> LimitFlags
    decreases procs.len(),
{
    if procs.len() == 0 {
        no_flags()
    } else {
        merged(group_flags(v, name, procs.drop_last()), flags_for(v, procs.last().pid, name))
    }
}

/// The limit the packet limiter enforces on process `pid`: the one set on
/// the process itself, or else that of the application it was seen as.
pub open spec fn enforced_state(v: RulesView, pid: u32) -> Option<ProcessLimitState> {
    if v.pids.contains_key(pid) {
        Some(v.pids[pid])
    } else if v.known.contains_key(pid) && v.groups.contains_key(v.known[pid]) {
        Some(v.groups[v.known[pid]])
    } else {
        None
    }
}

/// A byterate that fits a `u64`, as one.
pub open spec fn as_rate(r: Option<nat>) -> Option<u64> {
    match r {
        Some(x) => Some(x as u64),
        None => None,
    }
}

/// The limit a state puts on the packet limiter, where it limits either
/// direction.
pub open spec fn limit_of_state(s: ProcessLimitState) -> Option<LimitConfig> {
    let dl = direction_byterate(s.dl_enabled, s.dl_value, s.dl_unit, s.dl_blocked);
    let ul = direction_byterate(s.ul_enabled, s.ul_value, s.ul_unit, s.ul_blocked);
    if dl is Some || ul is Some {
        Some(LimitConfig { download_byterate: as_rate(dl), upload_byterate: as_rate(ul) })
    } else {
        None
    }
}

/// The limits the packet limiter enforces, by PID.
pub open spec fn enforced_limits(v: RulesView) -> Map<u32, LimitConfig> {
    Map::new(
        |pid: u32| enforced_state(v, pid) is Some && limit_of_state(enforced_state(v, pid)->0) is Some,
        |pid: u32| limit_of_state(enforced_state(v, pid)->0)->0,
    )
}

/// The known processes after the snapshots `s` were seen: a process other
/// than PID 0 that was not known yet is known by the name it is first seen
/// with.
pub open spec fn noted(known: Map<u32, Seq<char>>, s: Seq<ProcessTraffic>) -> Map<u32, Seq<char>>
    decreases s.len(),
{
    if s.len() == 0 {
        known
    } else {
        let m = noted(known, s.drop_last());
        if s.last().pid != 0 && !m.contains_key(s.last().pid) {
            m.insert(s.last().pid, s.last().name@)
        } else {
            m
        }
    }
}

/// Some process of the snapshots `s` that was not known yet belongs to an
/// application that has a limit, so the limits in force change.
pub open spec fn noted_limited(v: RulesView, s: Seq<ProcessTraffic>) -> bool
    decreases s.len(),
{
    if s.len() == 0 {
        false
    } else {
        let m = noted(v.known, s.drop_last());
        noted_limited(v, s.drop_last()) || (s.last().pid != 0 && !m.contains_key(s.last().pid)
            && v.groups.contains_key(s.last().name@))
    }
}

/// The limit tables of the user interface.
pub struct LimitRules {
    group_states: Vec<(String, ProcessLimitState)>,
    pid_states: Vec<(u32, ProcessLimitState)>,
    known_pids: Vec<(u32, String)>,
}

impl View for LimitRules {
    type V = RulesView;

    closed spec fn view(&self) -> RulesView {
        RulesView {
            groups: keyed_map(named(self.group_states@)),
            pids: keyed_map(self.pid_states@),
            known: keyed_map(known_pairs(self.known_pids@)),
        }
    }
}

/// Replacing pair `i` of a name-keyed table replaces it among the named
/// pairs.
proof fn lemma_named_update<V>(s: Seq<(String, V)>, i: int, e: (String, V))
    requires
        0 <= i < s.len(),
    ensures
        named(s.update(i, e)) == named(s).update(i, (e.0@, e.1)),
{
    assert(named(s.update(i, e)) =~= named(s).update(i, (e.0@, e.1)));
}

/// Appending a pair to a name-keyed table appends it to the named pairs.
proof fn lemma_named_push<V>(s: Seq<(String, V)>, e: (String, V))
    ensures
        named(s.push(e)) == named(s).push((e.0@, e.1)),
{
    assert(named(s.push(e)) =~= named(s).push((e.0@, e.1)));
}

impl LimitRules {
    #[verifier::type_invariant]
    closed spec fn wf(&self) -> bool {
        &&& distinct_keys(named(self.group_states@))
        &&& distinct_keys(self.pid_states@)
        &&& distinct_keys(known_pairs(self.known_pids@))
    }

    /// No limits and no known process.
    pub fn new() -> (r: LimitRules)
        ensures
            r@.groups == Map::<Seq<char>, ProcessLimitState>::empty(),
            r@.pids == Map::<u32, ProcessLimitState>::empty(),
            r@.known == Map::<u32, Seq<char>>::empty(),
    {
        proof {
            lemma_keyed_map_empty::<Seq<char>, ProcessLimitState>();
            lemma_keyed_map_empty::<u32, ProcessLimitState>();
            lemma_keyed_map_empty::<u32, Seq<char>>();
        }
        let r = LimitRules { group_states: Vec::new(), pid_states: Vec::new(), known_pids: Vec::new() };
        assert(named(r.group_states@) =~= Seq::<(Seq<char>, ProcessLimitState)>::empty());
        assert(known_pairs(r.known_pids@) =~= Seq::<(u32, Seq<char>)>::empty());
        r
    }

    /// Where application `name` lies in the table of application limits.
    fn group_position(&self, name: &str) -> (r: Option<usize>)
        ensures
            match r {
                Some(i) => i < self.group_states@.len() && self.group_states@[i as int].0@ == name@,
                None => forall|i: int| 0 <= i < self.group_states@.len() ==> self.group_states@[i].0@ != name@,
            },
    {
        let mut i: usize = 0;
        while i < self.group_states.len()
            invariant
                i <= self.group_states@.len(),
                forall|j: int| 0 <= j < i ==> self.group_states@[j].0@ != name@,
            decreases self.group_states@.len() - i,
        {
            if same_text(self.group_states[i].0.as_str(), name) {
                return Some(i);
            }
            i = i + 1;
        }
        None
    }

    /// Where process `pid` lies in the table of process limits.
    fn pid_position(&self, pid: u32) -> (r: Option<usize>)
        ensures
            match r {
                Some(i) => i < self.pid_states@.len() && self.pid_states@[i as int].0 == pid,
                None => forall|i: int| 0 <= i < self.pid_states@.len() ==> self.pid_states@[i].0 != pid,
            },
    {
        let mut i: usize = 0;
        while i < self.pid_states.len()
            invariant
                i <= self.pid_states@.len(),
                forall|j: int| 0 <= j < i ==> self.pid_states@[j].0 != pid,
            decreases self.pid_states@.len() - i,
        {
            if self.pid_states[i].0 == pid {
                return Some(i);
            }
            i = i + 1;
        }
        None
    }

    /// Where process `pid` lies in the table of known processes.
    fn known_position(&self, pid: u32) -> (r: Option<usize>)
        ensures
            match r {
                Some(i) => i < self.known_pids@.len() && self.known_pids@[i as int].0 == pid,
                None => forall|i: int| 0 <= i < self.known_pids@.len() ==> self.known_pids@[i].0 != pid,
            },
    {
        let mut i: usize = 0;
        while i < self.known_pids.len()
            invariant
                i <= self.known_pids@.len(),
                forall|j: int| 0 <= j < i ==> self.known_pids@[j].0 != pid,
            decreases self.known_pids@.len() - i,
        {
            if self.known_pids[i].0 == pid {
                return Some(i);
            }
            i = i + 1;
        }
        None
    }

    /// The limit of application `name`.
    pub fn group_state(&self, name: &str) -> (r: Option<ProcessLimitState>)
        ensures
            r == (if self@.groups.contains_key(name@) {
                Some(self@.groups[name@])
            } else {
                None
            }),
    {
        proof {
            use_type_invariant(self);
        }
        match self.group_position(name) {
            Some(i) => {
                proof {
                    lemma_keyed_map_at(named(self.group_states@), i as int);
                }
                Some(self.group_states[i].1)
            },
            None => {
                proof {
                    lemma_keyed_map_absent(named(self.group_states@), name@);
                }
                None
            },
        }
    }

    /// The limit set on process `pid` itself.
    pub fn pid_state(&self, pid: u32) -> (r: Option<ProcessLimitState>)
        ensures
            r == (if self@.pids.contains_key(pid) {
                Some(self@.pids[pid])
            } else {
                None
            }),
    {
        proof {
            use_type_invariant(self);
        }
        match self.pid_position(pid) {
            Some(i) => {
                proof {
                    lemma_keyed_map_at(self.pid_states@, i as int);
                }
                Some(self.pid_states[i].1)
            },
            None => {
                proof {
                    lemma_keyed_map_absent(self.pid_states@, pid);
                }
                None
            },
        }
    }

    /// The name process `pid` was first seen with.
    pub fn known_name(&self, pid: u32) -> (r: Option<String>)
        ensures
            match r {
                Some(n) => self@.known.contains_key(pid) && n@ == self@.known[pid],
                None => !self@.known.contains_key(pid),
            },
    {
        proof {
            use_type_invariant(self);
        }
        match self.known_position(pid) {
            Some(i) => {
                proof {
                    lemma_keyed_map_at(known_pairs(self.known_pids@), i as int);
                }
                Some(self.known_pids[i].1.clone())
            },
            None => {
                proof {
                    lemma_keyed_map_absent(known_pairs(self.known_pids@), pid);
                }
                None
            },
        }
    }

    /// Sets the limit of application `name`.
    fn put_group(&mut self, name: &str, state: ProcessLimitState)
        ensures
            final(self)@ == (RulesView { groups: old(self)@.groups.insert(name@, state), ..old(self)@ }),
    {
        proof {
            use_type_invariant(&*self);
        }
        let ghost old_named = named(self.group_states@);
        let pos = self.group_position(name);
        let mut entries: Vec<(String, ProcessLimitState)> = Vec::new();
        std::mem::swap(&mut entries, &mut self.group_states);
        let owned = name.to_owned();
        let ghost e = (owned, state);
        match pos {
            Some(i) => {
                proof {
                    lemma_named_update(entries@, i as int, e);
                    assert(old_named[i as int].0 == name@);
                    assert(old_named.update(i as int, (name@, state)) == old_named.update(
                        i as int,
                        (old_named[i as int].0, state),
                    ));
                    lemma_keyed_map_update(old_named, i as int, state);
                }
                entries.set(i, (owned, state));
            },
            None => {
                proof {
                    lemma_named_push(entries@, e);
                    assert(!has_key(old_named, name@)) by {
                        if has_key(old_named, name@) {
                            let j = choose|j: int| 0 <= j < old_named.len() && #[trigger] old_named[j].0 == name@;
                            assert(entries@[j].0@ == name@);
                        }
                    }
                    lemma_keyed_map_push(old_named, name@, state);
                }
                entries.push((owned, state));
            },
        }
        self.group_states = entries;
    }

    /// Sets the limit of process `pid`.
    fn put_pid(&mut self, pid: u32, state: ProcessLimitState)
        ensures
            final(self)@ == (RulesView { pids: old(self)@.pids.insert(pid, state), ..old(self)@ }),
    {
        proof {
            use_type_invariant(&*self);
        }
        let pos = self.pid_position(pid);
        let mut entries: Vec<(u32, ProcessLimitState)> = Vec::new();
        std::mem::swap(&mut entries, &mut self.pid_states);
        match pos {
            Some(i) => {
                proof {
                    lemma_keyed_map_update(entries@, i as int, state);
                }
                entries.set(i, (pid, state));
            },
            None => {
                proof {
                    lemma_keyed_map_push(entries@, pid, state);
                }
                entries.push((pid, state));
            },
        }
        self.pid_states = entries;
    }

    /// Removes the limit set on process `pid`.
    fn drop_pid(&mut self, pid: u32)
        ensures
            final(self)@ == (RulesView { pids: old(self)@.pids.remove(pid), ..old(self)@ }),
    {
        proof {
            use_type_invariant(&*self);
        }
        let ghost old_pids = self.pid_states@;
        match self.pid_position(pid) {
            Some(i) => {
                let mut entries: Vec<(u32, ProcessLimitState)> = Vec::new();
                std::mem::swap(&mut entries, &mut self.pid_states);
                entries.remove(i);
                proof {
                    let t = entries@;
                    assert(distinct_keys(t)) by {
                        assert forall|a: int, b: int|
                            0 <= a < t.len() && 0 <= b < t.len() && a != b implies t[a].0 != t[b].0 by {
                            let a2 = if a < i {
                                a
                            } else {
                                a + 1
                            };
                            let b2 = if b < i {
                                b
                            } else {
                                b + 1
                            };
                            assert(t[a] == old_pids[a2]);
                            assert(t[b] == old_pids[b2]);
                        }
                    }
                    assert forall|k: u32| #[trigger] keyed_map(t).contains_key(k) <==> keyed_map(
                        old_pids,
                    ).remove(pid).contains_key(k) by {
                        if has_key(t, k) {
                            let j = choose|j: int| 0 <= j < t.len() && #[trigger] t[j].0 == k;
                            let j2 = if j < i {
                                j
                            } else {
                                j + 1
                            };
                            assert(old_pids[j2].0 == k);
                            assert(k != pid);
                        }
                        if has_key(old_pids, k) && k != pid {
                            let j = choose|j: int| 0 <= j < old_pids.len() && #[trigger] old_pids[j].0 == k;
                            assert(j != i);
                            let j2 = if j < i {
                                j
                            } else {
                                j - 1
                            };
                            assert(t[j2].0 == k);
                        }
                    }
                    assert forall|k: u32| #[trigger] keyed_map(t).contains_key(k) implies keyed_map(t)[k]
                        == keyed_map(old_pids)[k] by {
                        let j = choose|j: int| 0 <= j < t.len() && #[trigger] t[j].0 == k;
                        lemma_keyed_map_at(t, j);
                        let j2 = if j < i {
                            j
                        } else {
                            j + 1
                        };
                        assert(old_pids[j2] == t[j]);
                        lemma_keyed_map_at(old_pids, j2);
                    }
                    assert(keyed_map(t) =~= keyed_map(old_pids).remove(pid));
                }
                self.pid_states = entries;
            },
            None => {
                proof {
                    lemma_keyed_map_absent(old_pids, pid);
                    assert(keyed_map(old_pids).remove(pid) =~= keyed_map(old_pids));
                }
            },
        }
    }

    /// Records the name of process `pid`, seen for the first time.
    fn put_known(&mut self, pid: u32, name: String)
        requires
            !old(self)@.known.contains_key(pid),
        ensures
            final(self)@ == (RulesView { known: old(self)@.known.insert(pid, name@), ..old(self)@ }),
    {
        proof {
            use_type_invariant(&*self);
        }
        let ghost old_pairs = known_pairs(self.known_pids@);
        let mut entries: Vec<(u32, String)> = Vec::new();
        std::mem::swap(&mut entries, &mut self.known_pids);
        let ghost nv = name@;
        entries.push((pid, name));
        proof {
            assert(known_pairs(entries@) =~= old_pairs.push((pid, nv)));
            assert(!has_key(old_pairs, pid));
            lemma_keyed_map_push(old_pairs, pid, nv);
        }
        self.known_pids = entries;
    }

    /// Limits read back from disk: one per application; where a name comes
    /// twice, the later limit holds.
    pub fn from_saved(saved: &Vec<(String, ProcessLimitState)>) -> (r: LimitRules)
        ensures
            r@.groups == keyed_last(named(saved@)),
            r@.pids == Map::<u32, ProcessLimitState>::empty(),
            r@.known == Map::<u32, Seq<char>>::empty(),
    {
        let mut r = LimitRules::new();
        let mut i: usize = 0;
        while i < saved.len()
            invariant
                i <= saved@.len(),
                r@.groups == keyed_last(named(saved@).take(i as int)),
                r@.pids == Map::<u32, ProcessLimitState>::empty(),
                r@.known == Map::<u32, Seq<char>>::empty(),
            decreases saved@.len() - i,
        {
            r.put_group(saved[i].0.as_str(), saved[i].1);
            proof {
                let t = named(saved@).take(i + 1);
                assert(t.drop_last() =~= named(saved@).take(i as int));
            }
            i = i + 1;
        }
        proof {
            assert(named(saved@).take(saved@.len() as int) =~= named(saved@));
        }
        r
    }

    /// The limit in force on process `pid` in the row of application `name`:
    /// the instance override if there is one, otherwise the limit of its
    /// application group.
    pub fn effective_state(&self, pid: u32, name: &str) -> (r: Option<ProcessLimitState>)
        ensures
            r == effective_of(self@, pid, name@),
    {
        match self.pid_state(pid) {
            Some(s) => Some(s),
            None => self.group_state(name),
        }
    }

    /// The markers of the row of process `pid` in application `name`.
    pub fn flags_for_pid(&self, pid: u32, name: &str) -> (f: LimitFlags)
        ensures
            f == flags_for(self@, pid, name@),
    {
        match self.effective_state(pid, name) {
            Some(s) => LimitFlags::of(&s),
            None => LimitFlags::default(),
        }
    }

    /// The markers of an application's row: those of all its instances
    /// together.
    pub fn flags_for_group(&self, group: &AppGroup) -> (f: LimitFlags)
        ensures
            f == group_flags(self@, group.name@, group.procs@),
    {
        let mut acc = LimitFlags::default();
        let mut i: usize = 0;
        while i < group.procs.len()
            invariant
                i <= group.procs@.len(),
                acc == group_flags(self@, group.name@, group.procs@.take(i as int)),
            decreases group.procs@.len() - i,
        {
            let f = self.flags_for_pid(group.procs[i].pid, group.name.as_str());
            acc = acc.merge(f);
            proof {
                let t = group.procs@.take(i + 1);
                assert(t.drop_last() =~= group.procs@.take(i as int));
            }
            i = i + 1;
        }
        proof {
            assert(group.procs@.take(group.procs@.len() as int) =~= group.procs@);
        }
        acc
    }

    /// Keeps the PID to name map current, so that limits follow new
    /// instances: every process of the snapshots other than PID 0 that is
    /// not known yet is recorded with its name. Returns whether one of them
    /// belongs to an application that has a limit, so that the limits in
    /// force changed.
    pub fn note_processes(&mut self, stats: &Vec<ProcessTraffic>) -> (changed: bool)
        ensures
            final(self)@ == (RulesView { known: noted(old(self)@.known, stats@), ..old(self)@ }),
            changed == noted_limited(old(self)@, stats@),
    {
        let ghost start = self@;
        let mut changed = false;
        let mut i: usize = 0;
        while i < stats.len()
            invariant
                i <= stats@.len(),
                self@ == (RulesView { known: noted(start.known, stats@.take(i as int)), ..start }),
                changed == noted_limited(start, stats@.take(i as int)),
            decreases stats@.len() - i,
        {
            let p = &stats[i];
            proof {
                let t = stats@.take(i + 1);
                assert(t.drop_last() =~= stats@.take(i as int));
                assert(t.last() == *p);
            }
            if p.pid != 0 {
                let known = self.known_name(p.pid);
                if known.is_none() {
                    let limited = self.group_state(p.name.as_str()).is_some();
                    self.put_known(p.pid, p.name.clone());
                    changed = limited || changed;
                }
            }
            i = i + 1;
        }
        proof {
            assert(stats@.take(stats@.len() as int) =~= stats@);
        }
        changed
    }

    /// Sets the limit of application `name`. A limit set on the application
    /// replaces any limit set on its single instances `instances`.
    pub fn set_group_state(&mut self, name: &str, state: ProcessLimitState, instances: &Vec<u32>)
        ensures
            final(self)@.groups == old(self)@.groups.insert(name@, state),
            final(self)@.pids == old(self)@.pids.remove_keys(instances@.to_set()),
            final(self)@.known == old(self)@.known,
    {
        let ghost start = self@;
        let mut i: usize = 0;
        while i < instances.len()
            invariant
                i <= instances@.len(),
                self@.groups == start.groups,
                self@.known == start.known,
                forall|p: u32|
                    #[trigger] self@.pids.contains_key(p) <==> start.pids.contains_key(p) && !instances@.take(
                        i as int,
                    ).contains(p),
                forall|p: u32| #[trigger] self@.pids.contains_key(p) ==> self@.pids[p] == start.pids[p],
            decreases instances@.len() - i,
        {
            self.drop_pid(instances[i]);
            proof {
                assert forall|p: u32| instances@.take(i + 1).contains(p) == (instances@.take(i as int).contains(p)
                    || instances@[i as int] == p) by {
                    lemma_take_contains(instances@, i as int, p);
                }
            }
            i = i + 1;
        }
        proof {
            assert(instances@.take(instances@.len() as int) =~= instances@);
            assert(self@.pids =~= start.pids.remove_keys(instances@.to_set()));
        }
        self.put_group(name, state);
    }

    /// How many limits, by application and by process, have anything set;
    /// a count past the machine's word stays at its largest value.
    pub fn active_rules(&self) -> (n: usize)
        ensures
            n == capped_count(
                keys_where(self@.groups, set_somehow()).len() + keys_where(self@.pids, set_somehow()).len(),
            ),
    {
        proof {
            use_type_invariant(self);
        }
        let ghost named_groups = named(self.group_states@);
        let mut by_name: usize = 0;
        let mut i: usize = 0;
        while i < self.group_states.len()
            invariant
                named_groups == named(self.group_states@),
                i <= self.group_states.len(),
                by_name <= i,
                by_name == count_where(named_groups.take(i as int), set_somehow()),
            decreases self.group_states.len() - i,
        {
            proof {
                assert(named_groups.take(i + 1).drop_last() =~= named_groups.take(i as int));
            }
            if self.group_states[i].1.has_any_setting() {
                by_name = by_name + 1;
            }
            i = i + 1;
        }
        let mut by_pid: usize = 0;
        let mut j: usize = 0;
        while j < self.pid_states.len()
            invariant
                j <= self.pid_states.len(),
                by_pid <= j,
                by_pid == count_where(self.pid_states@.take(j as int), set_somehow()),
            decreases self.pid_states.len() - j,
        {
            proof {
                assert(self.pid_states@.take(j + 1).drop_last() =~= self.pid_states@.take(j as int));
            }
            if self.pid_states[j].1.has_any_setting() {
                by_pid = by_pid + 1;
            }
            j = j + 1;
        }
        proof {
            assert(named_groups.take(named_groups.len() as int) =~= named_groups);
            assert(self.pid_states@.take(self.pid_states@.len() as int) =~= self.pid_states@);
            lemma_keys_where_count(named_groups, set_somehow());
            lemma_keys_where_count(self.pid_states@, set_somehow());
        }
        by_name.saturating_add(by_pid)
    }

    /// Sets the limit of the single process `pid`, which overrides that of
    /// its application.
    pub fn set_pid_state(&mut self, pid: u32, state: ProcessLimitState)
        ensures
            final(self)@ == (RulesView { pids: old(self)@.pids.insert(pid, state), ..old(self)@ }),
    {
        self.put_pid(pid, state);
    }

    /// The limit a state puts on the packet limiter, where it limits either
    /// direction.
    fn limit_for(state: &ProcessLimitState) -> (r: Option<LimitConfig>)
        ensures
            r == limit_of_state(*state),
    {
        let dl = state.download_byterate();
        let ul = state.upload_byterate();
        if dl.is_some() || ul.is_some() {
            Some(LimitConfig { download_byterate: dl, upload_byterate: ul })
        } else {
            None
        }
    }

    /// The limits to push down to the packet limiter: for every known
    /// process, the limit of its application, and for every process with a
    /// limit of its own, that one instead; states that limit neither
    /// direction give no entry.
    pub fn effective_limits(&self) -> (limits: HashMap<u32, LimitConfig>)
        ensures
            limits@ == enforced_limits(self@),
    {
        proof {
            use_type_invariant(self);
        }
        let mut limits: HashMap<u32, LimitConfig> = HashMap::new();
        let ghost v = self@;
        let mut i: usize = 0;
        while i < self.known_pids.len()
            invariant
                v == self@,
                distinct_keys(known_pairs(self.known_pids@)),
                i <= self.known_pids@.len(),
                forall|pid: u32| #[trigger]
                    limits@.contains_key(pid) ==> has_key(known_pairs(self.known_pids@).take(i as int), pid)
                        && !v.pids.contains_key(pid) && enforced_limits(v).contains_key(pid)
                        && limits@[pid] == enforced_limits(v)[pid],
                forall|pid: u32|
                    has_key(known_pairs(self.known_pids@).take(i as int), pid) && !v.pids.contains_key(pid)
                        && #[trigger] enforced_limits(v).contains_key(pid) ==> limits@.contains_key(pid),
            decreases self.known_pids@.len() - i,
        {
            let pid = self.known_pids[i].0;
            let ghost kp = known_pairs(self.known_pids@);
            proof {
                lemma_keyed_map_at(kp, i as int);
                assert(kp[i as int] == (pid, self.known_pids@[i as int].1@));
                assert(kp.take(i + 1) =~= kp.take(i as int).push(kp[i as int]));
            }
            if self.pid_state(pid).is_none() {
                match self.group_state(self.known_pids[i].1.as_str()) {
                    Some(state) => {
                        match Self::limit_for(&state) {
                            Some(c) => {
                                limits.insert(pid, c);
                            },
                            None => {},
                        }
                    },
                    None => {},
                }
            }
            proof {
                assert forall|q: u32| #[trigger] limits@.contains_key(q) implies has_key(kp.take(i + 1), q)
                    && !v.pids.contains_key(q) && enforced_limits(v).contains_key(q) && limits@[q]
                    == enforced_limits(v)[q] by {
                    if q == pid {
                        assert(kp.take(i + 1)[i as int].0 == q);
                    } else {
                        let j = choose|j: int| 0 <= j < i && #[trigger] kp.take(i as int)[j].0 == q;
                        assert(kp.take(i + 1)[j].0 == q);
                    }
                }
                assert forall|q: u32|
                    has_key(kp.take(i + 1), q) && !v.pids.contains_key(q)
                        && #[trigger] enforced_limits(v).contains_key(q) implies limits@.contains_key(q) by {
                    let j = choose|j: int| 0 <= j < i + 1 && #[trigger] kp.take(i + 1)[j].0 == q;
                    if j < i {
                        assert(kp.take(i as int)[j].0 == q);
                    }
                }
            }
            i = i + 1;
        }
        proof {
            let kp = known_pairs(self.known_pids@);
            assert(kp.take(kp.len() as int) =~= kp);
        }
        let mut k: usize = 0;
        while k < self.pid_states.len()
            invariant
                v == self@,
                distinct_keys(self.pid_states@),
                distinct_keys(known_pairs(self.known_pids@)),
                k <= self.pid_states@.len(),
                forall|pid: u32| #[trigger]
                    limits@.contains_key(pid) ==> enforced_limits(v).contains_key(pid) && limits@[pid]
                        == enforced_limits(v)[pid],
                forall|pid: u32|
                    has_key(known_pairs(self.known_pids@), pid) && !v.pids.contains_key(pid)
                        && #[trigger] enforced_limits(v).contains_key(pid) ==> limits@.contains_key(pid),
                forall|pid: u32|
                    has_key(self.pid_states@.take(k as int), pid) && #[trigger] enforced_limits(v).contains_key(
                        pid,
                    ) ==> limits@.contains_key(pid),
            decreases self.pid_states@.len() - k,
        {
            let pid = self.pid_states[k].0;
            let state = self.pid_states[k].1;
            proof {
                lemma_keyed_map_at(self.pid_states@, k as int);
                assert(self.pid_states@.take(k + 1) =~= self.pid_states@.take(k as int).push(
                    self.pid_states@[k as int],
                ));
            }
            match Self::limit_for(&state) {
                Some(c) => {
                    limits.insert(pid, c);
                },
                None => {},
            }
            proof {
                assert forall|q: u32|
                    has_key(self.pid_states@.take(k + 1), q) && #[trigger] enforced_limits(v).contains_key(
                        q,
                    ) implies limits@.contains_key(q) by {
                    let j = choose|j: int| 0 <= j < k + 1 && #[trigger] self.pid_states@.take(k + 1)[j].0 == q;
                    if j < k {
                        assert(self.pid_states@.take(k as int)[j].0 == q);
                    }
                }
            }
            k = k + 1;
        }
        proof {
            assert(self.pid_states@.take(self.pid_states@.len() as int) =~= self.pid_states@);
            assert forall|pid: u32| #[trigger] enforced_limits(v).contains_key(pid) implies limits@.contains_key(
                pid,
            ) by {
                if v.pids.contains_key(pid) {
                } else {
                    assert(v.known.contains_key(pid));
                }
            }
            assert(limits@ =~= enforced_limits(v));
        }
        limits
    }

    /// The limits worth writing to disk: the saved form of every application
    /// limit that sets anything at all, each application once.
    pub fn configs_to_save(&self) -> (out: Vec<(String, ProcessConfig)>)
        ensures
            distinct_keys(named(out@)),
            forall|i: int|
                0 <= i < out@.len() ==> self@.groups.contains_key(#[trigger] out@[i].0@) && any_setting(
                    self@.groups[out@[i].0@],
                ) && saved_as(self@.groups[out@[i].0@], out@[i].1),
            forall|name: Seq<char>|
                #[trigger] self@.groups.contains_key(name) && any_setting(self@.groups[name]) ==> has_key(
                    named(out@),
                    name,
                ),
    {
        proof {
            use_type_invariant(self);
        }
        let ghost g = named(self.group_states@);
        let mut out: Vec<(String, ProcessConfig)> = Vec::new();
        let mut i: usize = 0;
        while i < self.group_states.len()
            invariant
                g == named(self.group_states@),
                distinct_keys(g),
                i <= g.len(),
                g.len() == self.group_states@.len(),
                distinct_keys(named(out@)),
                forall|a: int| 0 <= a < out@.len() ==> has_key(g.take(i as int), #[trigger] named(out@)[a].0),
                forall|a: int|
                    0 <= a < out@.len() ==> self@.groups.contains_key(#[trigger] out@[a].0@) && any_setting(
                        self@.groups[out@[a].0@],
                    ) && saved_as(self@.groups[out@[a].0@], out@[a].1),
                forall|j: int|
                    0 <= j < i && any_setting(#[trigger] g[j].1) ==> has_key(named(out@), g[j].0),
            decreases g.len() - i,
        {
            let state = self.group_states[i].1;
            proof {
                lemma_keyed_map_at(g, i as int);
                assert(g[i as int] == (self.group_states@[i as int].0@, state));
            }
            if state.has_any_setting() {
                let ghost before = out@;
                let name = self.group_states[i].0.clone();
                let cfg = state.to_process_config();
                proof {
                    assert(!has_key(named(before), g[i as int].0)) by {
                        if has_key(named(before), g[i as int].0) {
                            let a = choose|a: int| 0 <= a < named(before).len() && #[trigger] named(before)[a].0 == g[i as int].0;
                            assert(has_key(g.take(i as int), named(before)[a].0));
                            let b = choose|b: int| 0 <= b < i && #[trigger] g.take(i as int)[b].0 == named(before)[a].0;
                            assert(g[b].0 == g[i as int].0);
                        }
                    }
                }
                let ghost e = (name, cfg);
                out.push((name, cfg));
                proof {
                    lemma_named_push(before, e);
                    lemma_keyed_map_push(named(before), g[i as int].0, cfg);
                    assert forall|a: int| 0 <= a < out@.len() implies has_key(
                        g.take(i + 1),
                        #[trigger] named(out@)[a].0,
                    ) by {
                        if a < before.len() {
                            assert(named(out@)[a] == named(before)[a]);
                            let b = choose|b: int| 0 <= b < i && #[trigger] g.take(i as int)[b].0 == named(before)[a].0;
                            assert(g.take(i + 1)[b].0 == named(out@)[a].0);
                        } else {
                            assert(g.take(i + 1)[i as int].0 == named(out@)[a].0);
                        }
                    }
                    assert forall|j: int| 0 <= j < i + 1 && any_setting(#[trigger] g[j].1) implies has_key(
                        named(out@),
                        g[j].0,
                    ) by {
                        if j < i {
                            let a = choose|a: int| 0 <= a < named(before).len() && #[trigger] named(before)[a].0 == g[j].0;
                            assert(named(out@)[a].0 == g[j].0);
                        } else {
                            assert(named(out@)[before.len() as int].0 == g[j].0);
                        }
                    }
                    assert forall|a: int| 0 <= a < out@.len() implies self@.groups.contains_key(
                        #[trigger] out@[a].0@,
                    ) && any_setting(self@.groups[out@[a].0@]) && saved_as(
                        self@.groups[out@[a].0@],
                        out@[a].1,
                    ) by {
                        if a < before.len() {
                            assert(out@[a] == before[a]);
                        }
                    }
                }
            } else {
                proof {
                    assert forall|a: int| 0 <= a < out@.len() implies has_key(
                        g.take(i + 1),
                        #[trigger] named(out@)[a].0,
                    ) by {
                        let b = choose|b: int| 0 <= b < i && #[trigger] g.take(i as int)[b].0 == named(out@)[a].0;
                        assert(g.take(i + 1)[b].0 == named(out@)[a].0);
                    }
                }
            }
            i = i + 1;
        }
        proof {
            assert forall|name: Seq<char>|
                #[trigger] self@.groups.contains_key(name) && any_setting(self@.groups[name]) implies has_key(
                named(out@),
                name,
            ) by {
                let j = choose|j: int| 0 <= j < g.len() && #[trigger] g[j].0 == name;
                lemma_keyed_map_at(g, j);
            }
        }
        out
    }
}

/// An element lies in the first `i + 1` elements of `s` exactly where it
/// lies in the first `i` or is element `i`.
proof fn lemma_take_contains(s: Seq<u32>, i: int, x: u32)
    requires
        0 <= i < s.len(),
    ensures
        s.take(i + 1).contains(x) == (s.take(i).contains(x) || s[i] == x),
{
    if s.take(i + 1).contains(x) {
        let j = choose|j: int| 0 <= j < i + 1 && #[trigger] s.take(i + 1)[j] == x;
        if j < i {
            assert(s.take(i)[j] == x);
        }
    }
    if s.take(i).contains(x) {
        let j = choose|j: int| 0 <= j < i && #[trigger] s.take(i)[j] == x;
        assert(s.take(i + 1)[j] == x);
    }
    if s[i] == x {
        assert(s.take(i + 1)[i] == x);
    }
}

/// The map of a table whose later pairs replace earlier pairs of the same
/// key.
pub open spec fn keyed_last<K, V>(s: Seq<(K, V)>) -> Map<K, V>
    decreases s.len(),
{
    if s.len() == 0 {
        Map::empty()
    } else {
        keyed_last(s.drop_last()).insert(s.last().0, s.last().1)
    }
}

/// The limit in force on a process is the one set on it where there is
/// one, and that of its application otherwise; the markers of its row are
/// those of that limit.
pub proof fn lemma_override_wins(v: RulesView, pid: u32, name: Seq<char>, s: ProcessLimitState)
    requires
        v.pids.contains_key(pid),
        v.pids[pid] == s,
    ensures
        effective_of(v, pid, name) == Some(s),
        flags_for(v, pid, name) == flags_of(s),
{
}

/// Setting a limit on an application puts it in force on every known
/// instance of it that has no limit of its own.
pub proof fn lemma_group_limit_reaches_instances(v: RulesView, pid: u32)
    requires
        v.known.contains_key(pid),
        !v.pids.contains_key(pid),
        v.groups.contains_key(v.known[pid]),
    ensures
        enforced_state(v, pid) == Some(v.groups[v.known[pid]]),
        limit_of_state(v.groups[v.known[pid]]) is Some ==> enforced_limits(v).contains_key(pid)
            && enforced_limits(v)[pid] == limit_of_state(v.groups[v.known[pid]])->0,
{
}

} // verus!
