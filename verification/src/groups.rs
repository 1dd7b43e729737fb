//! The rows of the traffic table: one group per application, holding all of
//! its running instances, and the row order that is held while the user
//! keeps the Ctrl key down.

use vstd::prelude::*;

use crate::order::{
    arranged, last_place, lemma_arranged_as_recorded, lemma_key_push, lemma_last_place_at, lemma_place_step, lemma_unplaced_at_end,
    lemma_unplaced_at_start, placed, unplaced, with_key, without_key,
};
use crate::sorting::{
    int_order, int_rel, keyed_before, lemma_keyed_strict_weak, lemma_text_order_laws, text_order, lemma_total_rels, sorted_stably, stable_sort,
    strict_weak, text_compare, text_rel,
};
use crate::text::{decimal, decimal_string};
use crate::traffic::{saturating_sum, ProcessTraffic};
use crate::util::{contains_text, text_contains};

verus! {

/// One application, together with all of its running instances.
pub struct AppGroup {
    pub name: String,
    pub procs: Vec<ProcessTraffic>,
    pub download_speed: u64,
    pub upload_speed: u64,
    pub download_bytes: u64,
    pub upload_bytes: u64,
}

/// The application names of the snapshots `s`, each once, in the order in
/// which they first appear.
pub open spec fn group_names(s: Seq<ProcessTraffic>) -> Seq<Seq<char>>
    decreases s.len(),
{
    if s.len() == 0 {
        Seq::empty()
    } else {
        let names = group_names(s.drop_last());
        if names.contains(s.last().name@) {
            names
        } else {
            names.push(s.last().name@)
        }
    }
}

/// The snapshots of `s` named `name`, in their order.
pub open spec fn members(s: Seq<ProcessTraffic>, name: Seq<char>) -> Seq<ProcessTraffic>
    decreases s.len(),
{
    if s.len() == 0 {
        Seq::empty()
    } else {
        let m = members(s.drop_last(), name);
        if s.last().name@ == name {
            m.push(s.last())
        } else {
            m
        }
    }
}

/// The sum of `f` over the snapshots `s`, held at `u64::MAX`.
pub open spec fn total_of(s: Seq<ProcessTraffic>, f: spec_fn(ProcessTraffic) -> nat) -> nat
    decreases s.len(),
{
    if s.len() == 0 {
        0
    } else {
        saturating_sum(total_of(s.drop_last(), f), f(s.last()))
    }
}

/// The download speed of a snapshot.
pub open spec fn download_speed_of(p: ProcessTraffic) -> nat {
    p.download_speed as nat
}

/// The upload speed of a snapshot.
pub open spec fn upload_speed_of(p: ProcessTraffic) -> nat {
    p.upload_speed as nat
}

/// The downloaded bytes of a snapshot.
pub open spec fn download_bytes_of(p: ProcessTraffic) -> nat {
    p.download_bytes as nat
}

/// The uploaded bytes of a snapshot.
pub open spec fn upload_bytes_of(p: ProcessTraffic) -> nat {
    p.upload_bytes as nat
}

/// The group `g` is the application `name` of the snapshots `s`: it holds
/// the snapshots of that name in their order, and their sums.
pub open spec fn is_group_of(g: AppGroup, s: Seq<ProcessTraffic>, name: Seq<char>) -> bool {
    &&& g.name@ == name
    &&& g.procs@ == members(s, name)
    &&& g.download_speed == total_of(g.procs@, |p: ProcessTraffic| download_speed_of(p))
    &&& g.upload_speed == total_of(g.procs@, |p: ProcessTraffic| upload_speed_of(p))
    &&& g.download_bytes == total_of(g.procs@, |p: ProcessTraffic| download_bytes_of(p))
    &&& g.upload_bytes == total_of(g.procs@, |p: ProcessTraffic| upload_bytes_of(p))
}

/// `groups` are the application groups of the snapshots `s`, in the order
/// in which the applications first appear.
pub open spec fn groups_of(groups: Seq<AppGroup>, s: Seq<ProcessTraffic>) -> bool {
    &&& groups.len() == group_names(s).len()
    &&& forall|k: int| 0 <= k < groups.len() ==> is_group_of(#[trigger] groups[k], s, group_names(s)[k])
}

/// Where the group named `name` lies in `groups`.
fn find_group(groups: &Vec<AppGroup>, name: &String) -> (r: Option<usize>)
    ensures
        match r {
            Some(k) => k < groups@.len() && groups@[k as int].name@ == name@,
            None => forall|k: int| 0 <= k < groups@.len() ==> groups@[k].name@ != name@,
        },
{
    let mut k: usize = 0;
    while k < groups.len()
        invariant
            k <= groups@.len(),
            forall|j: int| 0 <= j < k ==> groups@[j].name@ != name@,
        decreases groups@.len() - k,
    {
        if groups[k].name == *name {
            return Some(k);
        }
        k = k + 1;
    }
    None
}

/// Collects the running processes into one group per application name, in
/// the order in which the applications first appear. Each group holds its
/// instances in their order, and the sums of their speeds and bytes (held at
/// `u64::MAX`).
pub fn build_groups(stats: Vec<ProcessTraffic>) -> (groups: Vec<AppGroup>)
    ensures
        groups_of(groups@, stats@),
{
    let ghost s = stats@;
    let mut rest = stats;
    assert(s.len() == rest.len());
    let mut groups: Vec<AppGroup> = Vec::new();
    let mut i: usize = 0;
    while rest.len() > 0
        invariant
            i <= s.len(),
            s.len() <= usize::MAX,
            rest@ == s.skip(i as int),
            groups_of(groups@, s.take(i as int)),
        decreases rest@.len(),
    {
        let ghost t = s.take(i as int);
        let ghost names = group_names(t);
        let p = rest.remove(0);
        let ghost pv = p;
        proof {
            assert(pv == s[i as int]);
            assert(s.take(i + 1).drop_last() =~= t);
            assert(s.take(i + 1).last() == pv);
        }
        match find_group(&groups, &p.name) {
            Some(k) => {
                proof {
                    assert(names.contains(pv.name@)) by {
                        assert(names[k as int] == pv.name@);
                    }
                }
                let ghost before = groups@;
                let mut g = groups.remove(k);
                g.download_speed = g.download_speed.saturating_add(p.download_speed);
                g.upload_speed = g.upload_speed.saturating_add(p.upload_speed);
                g.download_bytes = g.download_bytes.saturating_add(p.download_bytes);
                g.upload_bytes = g.upload_bytes.saturating_add(p.upload_bytes);
                let ghost old_procs = g.procs@;
                g.procs.push(p);
                proof {
                    assert(g.procs@.drop_last() =~= old_procs);
                }
                groups.insert(k, g);
                proof {
                    assert forall|j: int| 0 <= j < groups@.len() implies is_group_of(
                        #[trigger] groups@[j],
                        s.take(i + 1),
                        group_names(s.take(i + 1))[j],
                    ) by {
                        lemma_group_names_distinct(t);
                        assert(group_names(s.take(i + 1)) == names);
                        if j != k {
                            assert(groups@[j] == before[j]);
                            assert(names[j] != names[k as int]);
                            assert(members(s.take(i + 1), names[j]) == members(t, names[j]));
                        } else {
                            let g2 = groups@[j];
                            assert(g2.procs@.drop_last() =~= before[j].procs@);
                            assert(g2.procs@.last() == pv);
                            assert(members(s.take(i + 1), names[j]) == members(t, names[j]).push(pv));
                        }
                    }
                }
            },
            None => {
                proof {
                    assert(!names.contains(pv.name@)) by {
                        if names.contains(pv.name@) {
                            let j = choose|j: int| 0 <= j < names.len() && names[j] == pv.name@;
                            assert(groups@[j].name@ == names[j]);
                        }
                    }
                    assert(members(t, pv.name@) == Seq::<ProcessTraffic>::empty()) by {
                        lemma_members_of_absent(t, pv.name@);
                    }
                }
                let ghost before = groups@;
                let mut procs: Vec<ProcessTraffic> = Vec::new();
                let name = p.name.clone();
                let g_dl = p.download_speed;
                let g_ul = p.upload_speed;
                let g_db = p.download_bytes;
                let g_ub = p.upload_bytes;
                procs.push(p);
                proof {
                    assert(procs@.drop_last() =~= Seq::<ProcessTraffic>::empty());
                    assert(members(s.take(i + 1), pv.name@) =~= seq![pv]);
                }
                groups.push(
                    AppGroup {
                        name,
                        procs,
                        download_speed: g_dl,
                        upload_speed: g_ul,
                        download_bytes: g_db,
                        upload_bytes: g_ub,
                    },
                );
                proof {
                    assert forall|j: int| 0 <= j < groups@.len() implies is_group_of(
                        #[trigger] groups@[j],
                        s.take(i + 1),
                        group_names(s.take(i + 1))[j],
                    ) by {
                        assert(group_names(s.take(i + 1)) == names.push(pv.name@));
                        if j < before.len() {
                            assert(groups@[j] == before[j]);
                            assert(names[j] != pv.name@) by {
                                assert(names.contains(names[j]));
                            }
                            assert(members(s.take(i + 1), names[j]) == members(t, names[j]));
                        } else {
                            let g2 = groups@[j];
                            assert(g2.procs@ =~= seq![pv]);
                            assert(g2.procs@.drop_last() =~= Seq::<ProcessTraffic>::empty());
                            assert(g2.procs@.last() == pv);
                            assert(g2.name@ == pv.name@);
                            assert(g2.procs@ == members(s.take(i + 1), pv.name@));
                            lemma_total_single(pv);
                        }
                    }
                }
            },
        }
        i = i + 1;
        proof {
            assert(rest@ =~= s.skip(i as int));
        }
    }
    proof {
        assert(s.take(i as int) =~= s);
    }
    groups
}

/// The sums of a single snapshot are its own values.
proof fn lemma_total_single(p: ProcessTraffic)
    ensures
        total_of(seq![p], |q: ProcessTraffic| download_speed_of(q)) == p.download_speed,
        total_of(seq![p], |q: ProcessTraffic| upload_speed_of(q)) == p.upload_speed,
        total_of(seq![p], |q: ProcessTraffic| download_bytes_of(q)) == p.download_bytes,
        total_of(seq![p], |q: ProcessTraffic| upload_bytes_of(q)) == p.upload_bytes,
{
    reveal_with_fuel(total_of, 2);
    assert(seq![p].drop_last() =~= Seq::<ProcessTraffic>::empty());
    assert(seq![p].last() == p);
}

/// Each application name appears once among the group names.
proof fn lemma_group_names_distinct(s: Seq<ProcessTraffic>)
    ensures
        forall|a: int, b: int|
            0 <= a < b < group_names(s).len() ==> group_names(s)[a] != group_names(s)[b],
    decreases s.len(),
{
    if s.len() > 0 {
        lemma_group_names_distinct(s.drop_last());
        let names = group_names(s.drop_last());
        if !names.contains(s.last().name@) {
            assert forall|a: int, b: int| 0 <= a < b < group_names(s).len() implies group_names(s)[a]
                != group_names(s)[b] by {
                if b == names.len() {
                    assert(names.contains(names[a]));
                }
            }
        }
    }
}

/// A name that no snapshot of `s` carries has no members.
proof fn lemma_members_of_absent(s: Seq<ProcessTraffic>, name: Seq<char>)
    requires
        !group_names(s).contains(name),
    ensures
        members(s, name) == Seq::<ProcessTraffic>::empty(),
    decreases s.len(),
{
    if s.len() > 0 {
        let names = group_names(s.drop_last());
        if names.contains(name) {
            let j = choose|j: int| 0 <= j < names.len() && names[j] == name;
            assert(group_names(s).contains(name)) by {
                if names.contains(s.last().name@) {
                    assert(group_names(s)[j] == name);
                } else {
                    assert(group_names(s)[j] == name);
                }
            }
        }
        if s.last().name@ == name {
            assert(group_names(s).contains(name)) by {
                if names.contains(s.last().name@) {
                } else {
                    assert(group_names(s)[names.len() as int] == name);
                }
            }
        }
        lemma_members_of_absent(s.drop_last(), name);
    }
}

// ---------------------------------------------------------------------------
// The frozen row order
// ---------------------------------------------------------------------------

/// The key a group is ordered by: its name.
pub open spec fn by_name() -> spec_fn(AppGroup) -> Seq<char> {
    |g: AppGroup| g.name@
}

/// The key a process is ordered by: its PID.
pub open spec fn by_pid() -> spec_fn(ProcessTraffic) -> u32 {
    |p: ProcessTraffic| p.pid
}

/// The characters of each string.
pub open spec fn string_views(s: Seq<String>) -> Seq<Seq<char>> {
    s.map_values(|x: String| x@)
}

/// Place `r` is the last place of the name it holds.
fn is_last_name(order: &Vec<String>, r: usize) -> (b: bool)
    requires
        r < order@.len(),
    ensures
        b == (last_place(string_views(order@), string_views(order@)[r as int]) == Some(r as int)),
{
    let ghost names = string_views(order@);
    let n = order.len();
    let mut j: usize = r + 1;
    while j < n
        invariant
            r < j <= order@.len(),
            n == order@.len(),
            names == string_views(order@),
            forall|i: int| r < i < j ==> #[trigger] names[i] != names[r as int],
        decreases order@.len() - j,
    {
        if order[j] == order[r] {
            proof {
                lemma_last_place_at(names, r as int);
                assert(names[j as int] == names[r as int]);
            }
            return false;
        }
        j = j + 1;
    }
    proof {
        lemma_last_place_at(names, r as int);
    }
    true
}

/// Place `r` is the last place of the PID it holds.
fn is_last_pid(order: &Vec<u32>, r: usize) -> (b: bool)
    requires
        r < order@.len(),
    ensures
        b == (last_place(order@, order@[r as int]) == Some(r as int)),
{
    let n = order.len();
    let mut j: usize = r + 1;
    while j < n
        invariant
            r < j <= order@.len(),
            n == order@.len(),
            forall|i: int| r < i < j ==> #[trigger] order@[i] != order@[r as int],
        decreases order@.len() - j,
    {
        if order[j] == order[r] {
            proof {
                lemma_last_place_at(order@, r as int);
            }
            return false;
        }
        j = j + 1;
    }
    proof {
        lemma_last_place_at(order@, r as int);
    }
    true
}

/// Puts the groups into the recorded order of names `order`.
fn arrange_groups(items: Vec<AppGroup>, order: &Vec<String>) -> (out: Vec<AppGroup>)
    ensures
        out@ == arranged(items@, by_name(), string_views(order@)),
{
    let ghost all = items@;
    let ghost ord = string_views(order@);
    let ghost key = by_name();
    let mut out: Vec<AppGroup> = Vec::new();
    let mut rest = items;
    proof {
        lemma_unplaced_at_start(all, key, ord);
    }
    let mut r: usize = 0;
    while r < order.len()
        invariant
            r <= order@.len(),
            ord == string_views(order@),
            key == by_name(),
            out@ == placed(all, key, ord, r as nat),
            rest@ == unplaced(all, key, ord, r as int),
        decreases order@.len() - r,
    {
        proof {
            lemma_place_step(all, key, ord, r as int);
        }
        if is_last_name(order, r) {
            let ghost rest0 = rest@;
            let ghost out0 = out@;
            let ghost k = ord[r as int];
            let mut kept: Vec<AppGroup> = Vec::new();
            let mut j: usize = 0;
            proof {
                assert(rest0.len() == rest.len());
                assert(rest0.take(0) =~= Seq::<AppGroup>::empty());
                reveal(Seq::filter);
            }
            while rest.len() > 0
                invariant
                    j <= rest0.len(),
                    rest0.len() <= usize::MAX,
                    rest@ == rest0.skip(j as int),
                    key == by_name(),
                    k == ord[r as int],
                    ord == string_views(order@),
                    r < order@.len(),
                    out@ == out0 + with_key(rest0.take(j as int), key, k),
                    kept@ == without_key(rest0.take(j as int), key, k),
                decreases rest@.len(),
            {
                let x = rest.remove(0);
                let ghost xv = x;
                proof {
                    assert(rest0.take(j + 1) =~= rest0.take(j as int).push(xv));
                    lemma_key_push(rest0.take(j as int), xv, key, k);
                    assert(order@[r as int]@ == k);
                }
                if x.name == order[r] {
                    out.push(x);
                    proof {
                        assert(out@ =~= out0 + with_key(rest0.take(j + 1), key, k));
                    }
                } else {
                    kept.push(x);
                }
                j = j + 1;
                proof {
                    assert(rest@ =~= rest0.skip(j as int));
                }
            }
            proof {
                assert(rest0.take(j as int) =~= rest0);
            }
            rest = kept;
        }
        r = r + 1;
    }
    proof {
        lemma_unplaced_at_end(all, key, ord);
    }
    let ghost head = out@;
    let mut i: usize = 0;
    let ghost tail = rest@;
    assert(tail.len() == rest.len());
    while rest.len() > 0
        invariant
            i <= tail.len(),
            tail.len() <= usize::MAX,
            rest@ == tail.skip(i as int),
            out@ == head + tail.take(i as int),
        decreases rest@.len(),
    {
        let x = rest.remove(0);
        out.push(x);
        i = i + 1;
        proof {
            assert(out@ =~= head + tail.take(i as int));
            assert(rest@ =~= tail.skip(i as int));
        }
    }
    proof {
        assert(tail.take(i as int) =~= tail);
    }
    out
}

/// Puts the processes into the recorded order of PIDs `order`.
fn arrange_procs(items: Vec<ProcessTraffic>, order: &Vec<u32>) -> (out: Vec<ProcessTraffic>)
    ensures
        out@ == arranged(items@, by_pid(), order@),
{
    let ghost all = items@;
    let ghost ord = order@;
    let ghost key = by_pid();
    let mut out: Vec<ProcessTraffic> = Vec::new();
    let mut rest = items;
    proof {
        lemma_unplaced_at_start(all, key, ord);
    }
    let mut r: usize = 0;
    while r < order.len()
        invariant
            r <= order@.len(),
            ord == order@,
            key == by_pid(),
            out@ == placed(all, key, ord, r as nat),
            rest@ == unplaced(all, key, ord, r as int),
        decreases order@.len() - r,
    {
        proof {
            lemma_place_step(all, key, ord, r as int);
        }
        if is_last_pid(order, r) {
            let ghost rest0 = rest@;
            let ghost out0 = out@;
            let k = order[r];
            let mut kept: Vec<ProcessTraffic> = Vec::new();
            let mut j: usize = 0;
            proof {
                assert(rest0.len() == rest.len());
                assert(rest0.take(0) =~= Seq::<ProcessTraffic>::empty());
                reveal(Seq::filter);
            }
            while rest.len() > 0
                invariant
                    j <= rest0.len(),
                    rest0.len() <= usize::MAX,
                    rest@ == rest0.skip(j as int),
                    key == by_pid(),
                    ord == order@,
                    r < order@.len(),
                    k == ord[r as int],
                    out@ == out0 + with_key(rest0.take(j as int), key, k),
                    kept@ == without_key(rest0.take(j as int), key, k),
                decreases rest@.len(),
            {
                let x = rest.remove(0);
                let ghost xv = x;
                proof {
                    assert(rest0.take(j + 1) =~= rest0.take(j as int).push(xv));
                    lemma_key_push(rest0.take(j as int), xv, key, k);
                }
                if x.pid == k {
                    out.push(x);
                    proof {
                        assert(out@ =~= out0 + with_key(rest0.take(j + 1), key, k));
                    }
                } else {
                    kept.push(x);
                }
                j = j + 1;
                proof {
                    assert(rest@ =~= rest0.skip(j as int));
                }
            }
            proof {
                assert(rest0.take(j as int) =~= rest0);
            }
            rest = kept;
        }
        r = r + 1;
    }
    proof {
        lemma_unplaced_at_end(all, key, ord);
    }
    let ghost head = out@;
    let mut i: usize = 0;
    let ghost tail = rest@;
    assert(tail.len() == rest.len());
    while rest.len() > 0
        invariant
            i <= tail.len(),
            tail.len() <= usize::MAX,
            rest@ == tail.skip(i as int),
            out@ == head + tail.take(i as int),
        decreases rest@.len(),
    {
        let x = rest.remove(0);
        out.push(x);
        i = i + 1;
        proof {
            assert(out@ =~= head + tail.take(i as int));
            assert(rest@ =~= tail.skip(i as int));
        }
    }
    proof {
        assert(tail.take(i as int) =~= tail);
    }
    out
}

/// What the row order records of a group: its name and the PIDs of its
/// processes, in the order shown.
pub open spec fn as_recorded() -> spec_fn(AppGroup) -> (Seq<char>, Seq<u32>) {
    |g: AppGroup| (g.name@, g.procs@.map_values(by_pid()))
}

/// The names of the recorded groups of the process lists.
pub open spec fn entry_names(procs: Seq<(Seq<char>, Seq<u32>)>) -> Seq<Seq<char>> {
    procs.map_values(|e: (Seq<char>, Seq<u32>)| e.0)
}

/// The recorded order of the processes of application `name`: that of its
/// last record.
pub open spec fn recorded_pids(procs: Seq<(Seq<char>, Seq<u32>)>, name: Seq<char>) -> Option<Seq<u32>> {
    match last_place(entry_names(procs), name) {
        Some(j) => Some(procs[j].1),
        None => None,
    }
}

/// The recorded row order: application names, and for each application the
/// PIDs of its processes.
pub ghost struct FrozenView {
    pub groups: Seq<Seq<char>>,
    pub procs: Seq<(Seq<char>, Seq<u32>)>,
}

/// The row order of one frame, kept so that the table can hold that order
/// while the user keeps the Ctrl key down.
pub struct FrozenOrder {
    /// Application names, in the order they were shown when the key went down.
    groups: Vec<String>,
    /// For each application name, the PIDs in the order they were shown.
    procs: Vec<(String, Vec<u32>)>,
}

impl View for FrozenOrder {
    type V = FrozenView;

    closed spec fn view(&self) -> FrozenView {
        FrozenView {
            groups: string_views(self.groups@),
            procs: self.procs@.map_values(|e: (String, Vec<u32>)| (e.0@, e.1@)),
        }
    }
}

/// The groups after the row order was put back: the groups in the recorded
/// order, and within each group, where its processes were recorded, the
/// processes in their recorded order.
pub open spec fn frozen_groups(old: Seq<AppGroup>, order: FrozenView, new: Seq<AppGroup>) -> bool {
    let a = arranged(old, by_name(), order.groups);
    &&& new.len() == a.len()
    &&& forall|i: int|
        0 <= i < new.len() ==> {
            &&& (#[trigger] new[i]).name == a[i].name
            &&& new[i].download_speed == a[i].download_speed
            &&& new[i].upload_speed == a[i].upload_speed
            &&& new[i].download_bytes == a[i].download_bytes
            &&& new[i].upload_bytes == a[i].upload_bytes
            &&& new[i].procs@ == match recorded_pids(order.procs, a[i].name@) {
                Some(pids) => arranged(a[i].procs@, by_pid(), pids),
                None => a[i].procs@,
            }
        }
}

impl FrozenOrder {
    /// Records the order of the groups as they are now.
    pub fn capture(groups: &Vec<AppGroup>) -> (f: FrozenOrder)
        ensures
            f@.groups == groups@.map_values(by_name()),
            f@.procs == groups@.map_values(as_recorded()),
    {
        let mut names: Vec<String> = Vec::new();
        let mut procs: Vec<(String, Vec<u32>)> = Vec::new();
        let mut i: usize = 0;
        while i < groups.len()
            invariant
                i <= groups@.len(),
                names@.len() == i,
                procs@.len() == i,
                forall|k: int| 0 <= k < i ==> (#[trigger] names@[k])@ == groups@[k].name@,
                forall|k: int|
                    0 <= k < i ==> (#[trigger] procs@[k]).0@ == groups@[k].name@ && procs@[k].1@
                        == groups@[k].procs@.map_values(by_pid()),
            decreases groups@.len() - i,
        {
            let g = &groups[i];
            let mut pids: Vec<u32> = Vec::new();
            let mut k: usize = 0;
            while k < g.procs.len()
                invariant
                    k <= g.procs@.len(),
                    pids@ == g.procs@.take(k as int).map_values(by_pid()),
                decreases g.procs@.len() - k,
            {
                pids.push(g.procs[k].pid);
                k = k + 1;
                proof {
                    assert(pids@ =~= g.procs@.take(k as int).map_values(by_pid()));
                }
            }
            proof {
                assert(g.procs@.take(k as int) =~= g.procs@);
            }
            names.push(g.name.clone());
            procs.push((g.name.clone(), pids));
            i = i + 1;
        }
        proof {
            assert(string_views(names@) =~= groups@.map_values(by_name()));
            assert(procs@.map_values(|e: (String, Vec<u32>)| (e.0@, e.1@)) =~= groups@.map_values(as_recorded()));
        }
        FrozenOrder { groups: names, procs }
    }

    /// Where the last record of the processes of application `name` lies.
    fn last_entry(&self, name: &String) -> (r: Option<usize>)
        ensures
            match r {
                Some(j) => j < self.procs@.len() && last_place(entry_names(self@.procs), name@) == Some(j as int),
                None => last_place(entry_names(self@.procs), name@) is None,
            },
    {
        let ghost names = entry_names(self@.procs);
        let mut found: Option<usize> = None;
        let mut i: usize = 0;
        while i < self.procs.len()
            invariant
                i <= self.procs@.len(),
                names == entry_names(self@.procs),
                names.len() == self.procs@.len(),
                match found {
                    Some(j) => j < i && last_place(names.take(i as int), name@) == Some(j as int),
                    None => last_place(names.take(i as int), name@) is None,
                },
            decreases self.procs@.len() - i,
        {
            proof {
                assert(names.take(i + 1).drop_last() =~= names.take(i as int));
                assert(names[i as int] == self.procs@[i as int].0@);
            }
            if self.procs[i].0 == *name {
                found = Some(i);
            }
            i = i + 1;
        }
        proof {
            assert(names.take(i as int) =~= names);
        }
        found
    }

    /// Puts the groups back into the recorded order. Applications and
    /// processes that started after the freeze keep their sorted order and go
    /// to the end, so that the recorded lines never move.
    pub fn apply(&self, groups: &mut Vec<AppGroup>)
        ensures
            frozen_groups(old(groups)@, self@, final(groups)@),
    {
        let mut taken: Vec<AppGroup> = Vec::new();
        std::mem::swap(&mut taken, groups);
        let mut rest = arrange_groups(taken, &self.groups);
        let ghost a = rest@;
        assert(rest.len() == a.len());
        let mut i: usize = 0;
        while rest.len() > 0
            invariant
                i <= a.len(),
                a.len() <= usize::MAX,
                rest@ == a.skip(i as int),
                groups@.len() == i,
                forall|j: int|
                    0 <= j < i ==> {
                        &&& (#[trigger] groups@[j]).name == a[j].name
                        &&& groups@[j].download_speed == a[j].download_speed
                        &&& groups@[j].upload_speed == a[j].upload_speed
                        &&& groups@[j].download_bytes == a[j].download_bytes
                        &&& groups@[j].upload_bytes == a[j].upload_bytes
                        &&& groups@[j].procs@ == match recorded_pids(self@.procs, a[j].name@) {
                            Some(pids) => arranged(a[j].procs@, by_pid(), pids),
                            None => a[j].procs@,
                        }
                    },
            decreases rest@.len(),
        {
            let mut g = rest.remove(0);
            let ghost gv = g;
            match self.last_entry(&g.name) {
                Some(j) => {
                    let mut ps: Vec<ProcessTraffic> = Vec::new();
                    std::mem::swap(&mut ps, &mut g.procs);
                    proof {
                        assert(self@.procs[j as int].1 == self.procs@[j as int].1@);
                    }
                    g.procs = arrange_procs(ps, &self.procs[j].1);
                },
                None => {},
            }
            groups.push(g);
            proof {
                assert(gv == a[i as int]);
            }
            i = i + 1;
            proof {
                assert(rest@ =~= a.skip(i as int));
            }
        }
    }
}

/// Holding the row order that was just recorded moves no group: where the
/// applications have different names, putting the groups back into the
/// order captured from them leaves every group where it is.
pub proof fn lemma_frozen_order_holds(groups: Seq<AppGroup>)
    requires
        forall|a: int, b: int| 0 <= a < b < groups.len() ==> groups[a].name@ != groups[b].name@,
    ensures
        arranged(groups, by_name(), groups.map_values(by_name())) == groups,
{
    lemma_arranged_as_recorded(groups, by_name());
}

/// Holding the row order that was just recorded moves no process: where
/// the applications have different names and the processes of group `i`
/// have different PIDs, the order recorded for that group is its own, and
/// putting its processes back into it leaves every process where it is.
pub proof fn lemma_frozen_processes_hold(groups: Seq<AppGroup>, i: int)
    requires
        0 <= i < groups.len(),
        forall|a: int, b: int| 0 <= a < b < groups.len() ==> groups[a].name@ != groups[b].name@,
        forall|a: int, b: int|
            0 <= a < b < groups[i].procs@.len() ==> groups[i].procs@[a].pid != groups[i].procs@[b].pid,
    ensures
        recorded_pids(groups.map_values(as_recorded()), groups[i].name@) == Some(
            groups[i].procs@.map_values(by_pid()),
        ),
        arranged(groups[i].procs@, by_pid(), groups[i].procs@.map_values(by_pid())) == groups[i].procs@,
{
    let recs = groups.map_values(as_recorded());
    let names = entry_names(recs);
    assert(names[i] == groups[i].name@);
    assert forall|j: int| i < j < names.len() implies #[trigger] names[j] != names[i] by {
        assert(names[j] == groups[j].name@);
    }
    lemma_last_place_at(names, i);
    lemma_arranged_as_recorded(groups[i].procs@, by_pid());
}

// ---------------------------------------------------------------------------
// Sorting the table
// ---------------------------------------------------------------------------

/// The column the table is sorted by.
#[derive(Debug, Clone, Copy, PartialEq, Eq, Structural)]
pub enum SortColumn {
    Name,
    Pid,
    DownloadSpeed,
    UploadSpeed,
}

/// What `str::to_lowercase` makes of a text: a function of the text alone.
pub uninterp spec fn lowercase(s: Seq<char>) -> Seq<char>;

/// The text in lower case (`str::to_lowercase`). The contract names the
/// result: Unicode lower-casing of the text.
#[verifier::external_body]
pub(crate) fn to_lowercase(s: &str) -> (r: String)
    ensures
        r@ == lowercase(s@),
{
    s.to_lowercase()
}

/// The key groups are sorted by for a column: the lower-case name, the
/// number of processes, or a speed.
pub open spec fn group_key_of(col: SortColumn) -> spec_fn(AppGroup) -> int {
    |g: AppGroup|
        match col {
            SortColumn::Pid => g.procs@.len() as int,
            SortColumn::DownloadSpeed => g.download_speed as int,
            _ => g.upload_speed as int,
        }
}

/// The key groups are sorted by for the name column.
pub open spec fn group_name_key() -> spec_fn(AppGroup) -> Seq<char> {
    |g: AppGroup| lowercase(g.name@)
}

/// The order of the groups for a column: by lower-case name, by number of
/// processes, or by speed; ascending or descending.
pub open spec fn group_before(col: SortColumn, ascending: bool) -> spec_fn(AppGroup, AppGroup) -> bool {
    if col == SortColumn::Name {
        keyed_before(group_name_key(), text_rel(), ascending)
    } else {
        keyed_before(group_key_of(col), int_rel(), ascending)
    }
}

/// The key the processes of a group are sorted by: the PID for the name and
/// PID columns, or a speed.
pub open spec fn proc_key_of(col: SortColumn) -> spec_fn(ProcessTraffic) -> int {
    |p: ProcessTraffic|
        match col {
            SortColumn::DownloadSpeed => p.download_speed as int,
            SortColumn::UploadSpeed => p.upload_speed as int,
            _ => p.pid as int,
        }
}

/// The order of the processes of a group for a column.
pub open spec fn proc_before(col: SortColumn, ascending: bool) -> spec_fn(ProcessTraffic, ProcessTraffic) -> bool {
    keyed_before(proc_key_of(col), int_rel(), ascending)
}

/// How two numbers compare, as `int_order` says.
fn compare_u64(a: u64, b: u64) -> (r: i8)
    ensures
        r == int_order(a as int, b as int),
{
    if a < b {
        -1
    } else if a > b {
        1
    } else {
        0
    }
}

/// Group `a` goes before group `b`.
fn group_precedes(a: &AppGroup, b: &AppGroup, col: SortColumn, ascending: bool) -> (r: bool)
    ensures
        r == group_before(col, ascending)(*a, *b),
{
    let c = match col {
        SortColumn::Name => {
            let x = to_lowercase(a.name.as_str());
            let y = to_lowercase(b.name.as_str());
            text_compare(x.as_str(), y.as_str())
        },
        SortColumn::Pid => compare_u64(a.procs.len() as u64, b.procs.len() as u64),
        SortColumn::DownloadSpeed => compare_u64(a.download_speed, b.download_speed),
        SortColumn::UploadSpeed => compare_u64(a.upload_speed, b.upload_speed),
    };
    if ascending {
        c < 0
    } else {
        c > 0
    }
}

/// Process `a` goes before process `b`.
fn proc_precedes(a: &ProcessTraffic, b: &ProcessTraffic, col: SortColumn, ascending: bool) -> (r: bool)
    ensures
        r == proc_before(col, ascending)(*a, *b),
{
    let c = match col {
        SortColumn::DownloadSpeed => compare_u64(a.download_speed, b.download_speed),
        SortColumn::UploadSpeed => compare_u64(a.upload_speed, b.upload_speed),
        _ => compare_u64(a.pid as u64, b.pid as u64),
    };
    if ascending {
        c < 0
    } else {
        c > 0
    }
}

/// `new` is the table `old` sorted by a column: the groups sorted stably,
/// giving `mid` (group `k` of `mid` being group `idx[k]` of `old`), and the
/// processes of each group sorted stably too.
pub open spec fn sorted_table(
    old: Seq<AppGroup>,
    new: Seq<AppGroup>,
    col: SortColumn,
    ascending: bool,
    mid: Seq<AppGroup>,
    idx: Seq<int>,
) -> bool {
    &&& sorted_stably(old, mid, group_before(col, ascending), idx)
    &&& new.len() == mid.len()
    &&& forall|i: int|
        0 <= i < mid.len() ==> {
            &&& (#[trigger] new[i]).name == mid[i].name
            &&& new[i].download_speed == mid[i].download_speed
            &&& new[i].upload_speed == mid[i].upload_speed
            &&& new[i].download_bytes == mid[i].download_bytes
            &&& new[i].upload_bytes == mid[i].upload_bytes
            &&& exists|pidx: Seq<int>| sorted_stably(mid[i].procs@, new[i].procs@, proc_before(col, ascending), pidx)
        }
}

/// `x` stands no later than `y` in the order asked for: ascending or
/// descending.
pub open spec fn in_order(x: int, y: int, ascending: bool) -> bool {
    if ascending {
        x <= y
    } else {
        x >= y
    }
}

/// The groups `s` stand in the order of a column: for the PID column by
/// their number of processes, for the speed columns by that speed, and for
/// the name column by the lower-case name; ascending or descending.
pub open spec fn column_ordered(s: Seq<AppGroup>, col: SortColumn, ascending: bool) -> bool {
    forall|k: int, l: int|
        0 <= k < l < s.len() ==> {
            &&& col == SortColumn::Pid ==> in_order(
                #[trigger] s[k].procs@.len() as int,
                #[trigger] s[l].procs@.len() as int,
                ascending,
            )
            &&& col == SortColumn::DownloadSpeed ==> in_order(s[k].download_speed as int, s[l].download_speed as int, ascending)
            &&& col == SortColumn::UploadSpeed ==> in_order(s[k].upload_speed as int, s[l].upload_speed as int, ascending)
            &&& col == SortColumn::Name ==> text_order(lowercase(s[k].name@), lowercase(s[l].name@)) != (if ascending {
                1int
            } else {
                -1int
            })
        }
}

/// The processes `s` of a group stand in the order of a column: by PID for
/// the name and PID columns, and by that speed for the speed columns;
/// ascending or descending.
pub open spec fn procs_column_ordered(s: Seq<ProcessTraffic>, col: SortColumn, ascending: bool) -> bool {
    forall|k: int, l: int|
        0 <= k < l < s.len() ==> {
            &&& (col == SortColumn::Name || col == SortColumn::Pid) ==> in_order(
                #[trigger] s[k].pid as int,
                #[trigger] s[l].pid as int,
                ascending,
            )
            &&& col == SortColumn::DownloadSpeed ==> in_order(s[k].download_speed as int, s[l].download_speed as int, ascending)
            &&& col == SortColumn::UploadSpeed ==> in_order(s[k].upload_speed as int, s[l].upload_speed as int, ascending)
        }
}

/// A sorted table stands in the order of its column: for the PID column by
/// the number of processes of each application, for the speed columns by
/// that speed, and for the name column by the lower-case name, each
/// ascending or descending as asked, and the processes of each group in
/// the order of the column too. Group `k` of the sorted table is group
/// `idx[k]` of the table before, with as many processes, each group taken
/// once.
pub proof fn lemma_sorted_by_column(
    old: Seq<AppGroup>,
    new: Seq<AppGroup>,
    col: SortColumn,
    ascending: bool,
    mid: Seq<AppGroup>,
    idx: Seq<int>,
)
    requires
        sorted_table(old, new, col, ascending, mid, idx),
    ensures
        new.len() == old.len(),
        forall|k: int|
            0 <= k < new.len() ==> {
                &&& 0 <= #[trigger] idx[k] < old.len()
                &&& new[k].name == old[idx[k]].name
                &&& new[k].procs@.len() == old[idx[k]].procs@.len()
                &&& new[k].download_speed == old[idx[k]].download_speed
                &&& new[k].upload_speed == old[idx[k]].upload_speed
            },
        forall|k: int, l: int| 0 <= k < l < new.len() ==> #[trigger] idx[k] != #[trigger] idx[l],
        column_ordered(new, col, ascending),
        forall|k: int| 0 <= k < new.len() ==> procs_column_ordered(#[trigger] new[k].procs@, col, ascending),
{
    assert forall|k: int| 0 <= k < new.len() implies procs_column_ordered(#[trigger] new[k].procs@, col, ascending) by {
        let pidx = choose|pidx: Seq<int>| sorted_stably(mid[k].procs@, new[k].procs@, proc_before(col, ascending), pidx);
        let ps = new[k].procs@;
        assert forall|a: int, b: int| 0 <= a < b < ps.len() implies {
            &&& (col == SortColumn::Name || col == SortColumn::Pid) ==> in_order(
                #[trigger] ps[a].pid as int,
                #[trigger] ps[b].pid as int,
                ascending,
            )
            &&& col == SortColumn::DownloadSpeed ==> in_order(ps[a].download_speed as int, ps[b].download_speed as int, ascending)
            &&& col == SortColumn::UploadSpeed ==> in_order(ps[a].upload_speed as int, ps[b].upload_speed as int, ascending)
        } by {
            assert(!proc_before(col, ascending)(ps[b], ps[a]));
        }
    }
    assert forall|k: int| 0 <= k < new.len() implies new[k].procs@.len() == mid[k].procs@.len() by {
        let pidx = choose|pidx: Seq<int>| sorted_stably(mid[k].procs@, new[k].procs@, proc_before(col, ascending), pidx);
    }
    assert forall|k: int| 0 <= k < new.len() implies {
        &&& 0 <= #[trigger] idx[k] < old.len()
        &&& new[k].name == old[idx[k]].name
        &&& new[k].procs@.len() == old[idx[k]].procs@.len()
        &&& new[k].download_speed == old[idx[k]].download_speed
        &&& new[k].upload_speed == old[idx[k]].upload_speed
    } by {
        assert(mid[k] == old[idx[k]]);
    }
    assert forall|k: int, l: int| 0 <= k < l < new.len() implies {
        &&& col == SortColumn::Pid ==> in_order(
            #[trigger] new[k].procs@.len() as int,
            #[trigger] new[l].procs@.len() as int,
            ascending,
        )
        &&& col == SortColumn::DownloadSpeed ==> in_order(
            new[k].download_speed as int,
            new[l].download_speed as int,
            ascending,
        )
        &&& col == SortColumn::UploadSpeed ==> in_order(new[k].upload_speed as int, new[l].upload_speed as int, ascending)
        &&& col == SortColumn::Name ==> text_order(lowercase(new[k].name@), lowercase(new[l].name@)) != (if ascending {
            1int
        } else {
            -1int
        })
    } by {
        assert(!group_before(col, ascending)(mid[l], mid[k]));
        if col == SortColumn::Name {
            lemma_text_order_laws(lowercase(mid[k].name@), lowercase(mid[l].name@), lowercase(mid[l].name@));
        }
    }
}

/// Sorts the groups by a column, and the processes of each group by the
/// same column (by PID for the name column); ascending or descending. The
/// sorts are stable: rows that compare equal keep their order.
pub fn sort_groups(groups: &mut Vec<AppGroup>, col: SortColumn, ascending: bool)
    ensures
        exists|mid: Seq<AppGroup>, idx: Seq<int>| sorted_table(old(groups)@, final(groups)@, col, ascending, mid, idx),
        column_ordered(final(groups)@, col, ascending),
        forall|k: int|
            0 <= k < final(groups)@.len() ==> procs_column_ordered(#[trigger] final(groups)@[k].procs@, col, ascending),
        final(groups)@.len() == old(groups)@.len(),
{
    proof {
        lemma_total_rels();
        lemma_keyed_strict_weak(group_name_key(), text_rel(), ascending);
        lemma_keyed_strict_weak(group_key_of(col), int_rel(), ascending);
        lemma_keyed_strict_weak(proc_key_of(col), int_rel(), ascending);
    }
    let mut taken: Vec<AppGroup> = Vec::new();
    std::mem::swap(&mut taken, groups);
    let ghost start = taken@;
    let ghost before = group_before(col, ascending);
    let precedes = |a: &AppGroup, b: &AppGroup| -> (r: bool)
        ensures
            r == group_before(col, ascending)(*a, *b),
        { group_precedes(a, b, col, ascending) };
    let sorted = stable_sort(taken, precedes, Ghost(before));
    let ghost mid = sorted@;
    let ghost idx = choose|idx: Seq<int>| sorted_stably(start, mid, before, idx);
    let mut rest = sorted;
    let mut i: usize = 0;
    assert(mid.len() == rest.len());
    while rest.len() > 0
        invariant
            i <= mid.len(),
            mid.len() <= usize::MAX,
            rest@ == mid.skip(i as int),
            groups@.len() == i,
            strict_weak(proc_before(col, ascending)),
            forall|j: int|
                0 <= j < i ==> {
                    &&& (#[trigger] groups@[j]).name == mid[j].name
                    &&& groups@[j].download_speed == mid[j].download_speed
                    &&& groups@[j].upload_speed == mid[j].upload_speed
                    &&& groups@[j].download_bytes == mid[j].download_bytes
                    &&& groups@[j].upload_bytes == mid[j].upload_bytes
                    &&& exists|pidx: Seq<int>|
                        sorted_stably(mid[j].procs@, groups@[j].procs@, proc_before(col, ascending), pidx)
                },
        decreases rest@.len(),
    {
        let mut g = rest.remove(0);
        let ghost gv = g;
        let mut ps: Vec<ProcessTraffic> = Vec::new();
        std::mem::swap(&mut ps, &mut g.procs);
        let ghost pbefore = proc_before(col, ascending);
        let proc_precedes_col = |a: &ProcessTraffic, b: &ProcessTraffic| -> (r: bool)
            ensures
                r == proc_before(col, ascending)(*a, *b),
            { proc_precedes(a, b, col, ascending) };
        let ghost pv = ps@;
        g.procs = stable_sort(ps, proc_precedes_col, Ghost(pbefore));
        let ghost gnew = g;
        let ghost old_groups = groups@;
        groups.push(g);
        proof {
            assert(gv == mid[i as int]);
            assert(pv == mid[i as int].procs@);
            let pidx = choose|pidx: Seq<int>| sorted_stably(pv, gnew.procs@, pbefore, pidx);
            assert(sorted_stably(mid[i as int].procs@, groups@[i as int].procs@, proc_before(col, ascending), pidx));
            assert forall|j: int|
                0 <= j < i + 1 implies {
                    &&& (#[trigger] groups@[j]).name == mid[j].name
                    &&& groups@[j].download_speed == mid[j].download_speed
                    &&& groups@[j].upload_speed == mid[j].upload_speed
                    &&& groups@[j].download_bytes == mid[j].download_bytes
                    &&& groups@[j].upload_bytes == mid[j].upload_bytes
                    &&& exists|pidx: Seq<int>|
                        sorted_stably(mid[j].procs@, groups@[j].procs@, proc_before(col, ascending), pidx)
                } by {
                if j < i {
                    assert(groups@[j] == old_groups[j]);
                }
            }
        }
        i = i + 1;
        proof {
            assert(rest@ =~= mid.skip(i as int));
        }
    }
    proof {
        assert(mid.skip(i as int).len() == 0);
        assert(i == mid.len());
        assert(start == old(groups)@);
        assert(sorted_table(old(groups)@, groups@, col, ascending, mid, idx));
        lemma_sorted_by_column(old(groups)@, groups@, col, ascending, mid, idx);
    }
}

// ---------------------------------------------------------------------------
// Search and the lines of the table
// ---------------------------------------------------------------------------

/// The row of a process matches the search query: its name, its PID or the
/// publisher of its executable holds the query, letter case aside.
pub open spec fn matches_search(name: Seq<char>, pid: u32, publisher: Seq<char>, query: Seq<char>) -> bool {
    let q = lowercase(query);
    contains_text(lowercase(name), q) || contains_text(decimal(pid as nat), q) || contains_text(
        lowercase(publisher),
        q,
    )
}

/// The row of a process matches the search query: its name, its PID or the
/// publisher of its executable holds the query, letter case aside.
pub fn matches_query(name: &str, pid: u32, publisher: &str, query: &str) -> (b: bool)
    ensures
        b == matches_search(name@, pid, publisher@, query@),
{
    let q = to_lowercase(query);
    let n = to_lowercase(name);
    if text_contains(n.as_str(), q.as_str()) {
        return true;
    }
    let digits = decimal_string(pid as u64);
    if text_contains(digits.as_str(), q.as_str()) {
        return true;
    }
    let p = to_lowercase(publisher);
    text_contains(p.as_str(), q.as_str())
}

/// A line of the table. Child lines only appear while their group is
/// expanded.
/// A row, given with the publisher of its executable, is shown for the
/// search query: every row is, while the query is empty, and else the rows
/// that match it.
pub open spec fn row_shown(p: ProcessTraffic, publisher: Seq<char>, query: Seq<char>) -> bool {
    query.len() == 0 || matches_search(p.name@, p.pid, publisher, query)
}

/// The processes of `rows` that are shown for `query`, in their order.
pub open spec fn rows_shown(rows: Seq<(ProcessTraffic, String)>, query: Seq<char>) -> Seq<ProcessTraffic>
    decreases rows.len(),
{
    if rows.len() == 0 {
        Seq::empty()
    } else {
        let rest = rows_shown(rows.drop_first(), query);
        if row_shown(rows[0].0, rows[0].1@, query) {
            seq![rows[0].0] + rest
        } else {
            rest
        }
    }
}

/// Keeps, in their order, the processes that the search query shows: all of
/// them while the query is empty, else those whose name, PID or publisher
/// (given beside each process) holds the query, letter case aside.
pub fn keep_matching(rows: Vec<(ProcessTraffic, String)>, query: &str) -> (kept: Vec<ProcessTraffic>)
    ensures
        kept@ == rows_shown(rows@, query@),
{
    let ghost all = rows@;
    let mut rest = rows;
    let mut kept: Vec<ProcessTraffic> = Vec::new();
    let empty_query = query.unicode_len() == 0;
    while rest.len() > 0
        invariant
            empty_query == (query@.len() == 0),
            kept@ + rows_shown(rest@, query@) == rows_shown(all, query@),
        decreases rest.len(),
    {
        let ghost before = rest@;
        let (p, publisher) = rest.remove(0);
        proof {
            assert(rest@ =~= before.drop_first());
        }
        if empty_query || matches_query(p.name.as_str(), p.pid, publisher.as_str(), query) {
            proof {
                assert(kept@.push(p) + rows_shown(rest@, query@) =~= kept@ + (seq![p] + rows_shown(rest@, query@)));
            }
            kept.push(p);
        }
    }
    proof {
        assert(rows_shown(rest@, query@) =~= Seq::<ProcessTraffic>::empty());
        assert(kept@ + Seq::<ProcessTraffic>::empty() =~= kept@);
    }
    kept
}

#[derive(Debug, Clone, Copy, PartialEq, Eq, Structural)]
pub enum VisibleRow {
    System,
    Group(usize),
    Child(usize, usize),
}

/// The lines of group `gi`: its own, and one per process while the group is
/// expanded and has more than one process.
pub open spec fn group_rows(g: AppGroup, gi: usize, expanded: Seq<Seq<char>>) -> Seq<VisibleRow> {
    seq![VisibleRow::Group(gi)] + if g.procs@.len() > 1 && expanded.contains(g.name@) {
        Seq::new(g.procs@.len(), |ci: int| VisibleRow::Child(gi, ci as usize))
    } else {
        Seq::empty()
    }
}

/// The lines of the table for its first `n` groups: the line of all
/// traffic, then each group's lines.
pub open spec fn rows_upto(groups: Seq<AppGroup>, expanded: Seq<Seq<char>>, n: nat) -> Seq<VisibleRow>
    decreases n,
{
    if n == 0 {
        seq![VisibleRow::System]
    } else {
        rows_upto(groups, expanded, (n - 1) as nat) + group_rows(groups[n - 1], (n - 1) as usize, expanded)
    }
}

/// Whether `name` is among `names`.
fn holds_name(names: &Vec<String>, name: &String) -> (b: bool)
    ensures
        b == string_views(names@).contains(name@),
{
    let mut i: usize = 0;
    while i < names.len()
        invariant
            i <= names@.len(),
            forall|j: int| 0 <= j < i ==> names@[j]@ != name@,
        decreases names@.len() - i,
    {
        if names[i] == *name {
            proof {
                assert(string_views(names@)[i as int] == name@);
            }
            return true;
        }
        i = i + 1;
    }
    proof {
        if string_views(names@).contains(name@) {
            let j = choose|j: int| 0 <= j < names@.len() && #[trigger] string_views(names@)[j] == name@;
            assert(names@[j]@ == name@);
        }
    }
    false
}

/// Flattens the groups into the lines the table draws.
pub fn visible_rows(groups: &Vec<AppGroup>, expanded: &Vec<String>) -> (rows: Vec<VisibleRow>)
    ensures
        rows@ == rows_upto(groups@, string_views(expanded@), groups@.len()),
{
    let ghost ex = string_views(expanded@);
    let mut rows: Vec<VisibleRow> = Vec::new();
    rows.push(VisibleRow::System);
    proof {
        assert(rows@ =~= rows_upto(groups@, ex, 0));
    }
    let mut gi: usize = 0;
    while gi < groups.len()
        invariant
            gi <= groups@.len(),
            ex == string_views(expanded@),
            rows@ == rows_upto(groups@, ex, gi as nat),
        decreases groups@.len() - gi,
    {
        let ghost before = rows@;
        let g = &groups[gi];
        rows.push(VisibleRow::Group(gi));
        let open = g.procs.len() > 1 && holds_name(expanded, &g.name);
        let ghost head = rows@;
        if open {
            let mut ci: usize = 0;
            while ci < g.procs.len()
                invariant
                    ci <= g.procs@.len(),
                    rows@ == head + Seq::new(ci as nat, |c: int| VisibleRow::Child(gi, c as usize)),
                decreases g.procs@.len() - ci,
            {
                rows.push(VisibleRow::Child(gi, ci));
                ci = ci + 1;
                proof {
                    assert(rows@ =~= head + Seq::new(ci as nat, |c: int| VisibleRow::Child(gi, c as usize)));
                }
            }
            proof {
                assert(rows@ =~= before + group_rows(groups@[gi as int], gi, ex));
            }
        } else {
            proof {
                assert(rows@ =~= before + group_rows(groups@[gi as int], gi, ex));
            }
        }
        gi = gi + 1;
    }
    rows
}

/// The sort after a click on the header of column `clicked`: the same
/// column turns the direction around, another column sorts by it,
/// descending.
pub fn next_sort(column: SortColumn, ascending: bool, clicked: SortColumn) -> (r: (SortColumn, bool))
    ensures
        r == (if column == clicked {
            (column, !ascending)
        } else {
            (clicked, false)
        }),
{
    if column == clicked {
        (column, !ascending)
    } else {
        (clicked, false)
    }
}

} // verus!
