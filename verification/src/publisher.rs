//! Caching of the publisher (company) name of applications.
//!
//! Values are cached by process name, because every instance of an
//! application has the same publisher. A lookup that finds nothing is tried
//! again, up to `MAX_ATTEMPTS` times in all.

use vstd::prelude::*;

use crate::rules::named;
use crate::table::{distinct_keys, has_key, keyed_map, lemma_keyed_map_absent, lemma_keyed_map_at, lemma_keyed_map_empty, lemma_keyed_map_push, lemma_keyed_map_update};
use crate::text::same_text;

verus! {

/// Number of times we retry a lookup before we give up on a process name.
pub const MAX_ATTEMPTS: u8 = 3;

/// What the cache holds for one process name: the publisher, once found,
/// and how many lookups were made.
pub ghost struct PublisherRecord {
    pub name: Option<Seq<char>>,
    pub attempts: u8,
}

struct PublisherEntry {
    name: Option<String>,
    attempts: u8,
}

/// The view of an optional string.
pub open spec fn opt_view(s: Option<String>) -> Option<Seq<char>> {
    match s {
        Some(x) => Some(x@),
        None => None,
    }
}

spec fn record_of(e: PublisherEntry) -> PublisherRecord {
    PublisherRecord { name: opt_view(e.name), attempts: e.attempts }
}

spec fn records(s: Seq<(String, PublisherEntry)>) -> Seq<(Seq<char>, PublisherRecord)> {
    s.map_values(|e: (String, PublisherEntry)| (e.0@, record_of(e.1)))
}

/// The cache settles on a record: it holds a publisher, or gave up.
pub open spec fn settled(r: PublisherRecord) -> bool {
    r.name is Some || r.attempts >= MAX_ATTEMPTS
}

/// The record of a process name after one more lookup, which found `found`.
pub open spec fn after_lookup(old: Option<PublisherRecord>, found: Option<Seq<char>>) -> PublisherRecord {
    let prev = match old {
        Some(r) => r,
        None => PublisherRecord { name: None, attempts: 0 },
    };
    PublisherRecord {
        name: if found is Some {
            found
        } else {
            prev.name
        },
        attempts: if prev.attempts == u8::MAX {
            u8::MAX
        } else {
            (prev.attempts + 1) as u8
        },
    }
}

/// The lookups of a name go on: none has found anything yet, and fewer
/// than `MAX_ATTEMPTS` were made. A cache keyed by process name (of
/// publishers, or of icons) reads the executable again exactly then.
pub fn lookups_go_on(found: bool, attempts: u8) -> (b: bool)
    ensures
        b == (!found && attempts < MAX_ATTEMPTS),
        b == !settled(PublisherRecord { name: if found { Some(Seq::empty()) } else { None }, attempts }),
{
    !found && attempts < MAX_ATTEMPTS
}

/// The count of lookups of a name after one more: one higher, and held at
/// `u8::MAX`.
pub fn one_more_attempt(attempts: u8) -> (n: u8)
    ensures
        n == after_lookup(Some(PublisherRecord { name: None, attempts }), None).attempts,
        n == (if attempts == u8::MAX { u8::MAX as int } else { attempts + 1 }),
{
    attempts.saturating_add(1)
}

/// Cache of process-name -> publisher name.
pub struct PublisherCache {
    entries: Vec<(String, PublisherEntry)>,
}

impl View for PublisherCache {
    type V = Map<Seq<char>, PublisherRecord>;

    closed spec fn view(&self) -> Map<Seq<char>, PublisherRecord> {
        keyed_map(records(self.entries@))
    }
}

impl PublisherCache {
    #[verifier::type_invariant]
    closed spec fn wf(&self) -> bool {
        distinct_keys(records(self.entries@))
    }

    /// An empty cache.
    pub fn new() -> (c: PublisherCache)
        ensures
            c@ == Map::<Seq<char>, PublisherRecord>::empty(),
    {
        proof {
            lemma_keyed_map_empty::<Seq<char>, PublisherRecord>();
        }
        let c = PublisherCache { entries: Vec::new() };
        assert(records(c.entries@) =~= Seq::<(Seq<char>, PublisherRecord)>::empty());
        c
    }

    fn position(&self, name: &str) -> (r: Option<usize>)
        ensures
            match r {
                Some(i) => i < self.entries@.len() && self.entries@[i as int].0@ == name@,
                None => forall|i: int| 0 <= i < self.entries@.len() ==> self.entries@[i].0@ != name@,
            },
    {
        let mut i: usize = 0;
        while i < self.entries.len()
            invariant
                i <= self.entries@.len(),
                forall|j: int| 0 <= j < i ==> self.entries@[j].0@ != name@,
            decreases self.entries@.len() - i,
        {
            if same_text(self.entries[i].0.as_str(), name) {
                return Some(i);
            }
            i = i + 1;
        }
        None
    }

    /// Returns the publisher of `name`, looking it up with `lookup` (which
    /// reads it from the executable of `pid`) until a lookup finds one, or
    /// `MAX_ATTEMPTS` lookups found none. Returns `None` if no lookup gave a
    /// publisher.
    pub fn get<F: FnOnce(u32) -> Option<String>>(&mut self, name: &str, pid: u32, lookup: F) -> (r: Option<
        String,
    >)
        requires
            lookup.requires((pid,)),
        ensures
            old(self)@.contains_key(name@) && settled(old(self)@[name@]) ==> {
                &&& final(self)@ == old(self)@
                &&& opt_view(r) == old(self)@[name@].name
            },
            !(old(self)@.contains_key(name@) && settled(old(self)@[name@])) ==> exists|found: Option<String>|
                #![trigger lookup.ensures((pid,), found)]
                {
                    let rec = after_lookup(
                        if old(self)@.contains_key(name@) {
                            Some(old(self)@[name@])
                        } else {
                            None
                        },
                        opt_view(found),
                    );
                    &&& lookup.ensures((pid,), found)
                    &&& final(self)@ == old(self)@.insert(name@, rec)
                    &&& opt_view(r) == rec.name
                },
    {
        proof {
            use_type_invariant(&*self);
        }
        let ghost old_records = records(self.entries@);
        let pos = self.position(name);
        match pos {
            Some(i) => {
                proof {
                    lemma_keyed_map_at(old_records, i as int);
                }
                let e = &self.entries[i].1;
                if e.name.is_some() || e.attempts >= MAX_ATTEMPTS {
                    return match &e.name {
                        Some(n) => Some(n.clone()),
                        None => None,
                    };
                }
            },
            None => {
                proof {
                    lemma_keyed_map_absent(old_records, name@);
                }
            },
        }
        let publisher = lookup(pid);
        let ghost found = publisher;
        let mut entries: Vec<(String, PublisherEntry)> = Vec::new();
        std::mem::swap(&mut entries, &mut self.entries);
        let result = match pos {
            Some(i) => {
                let prev = &entries[i].1;
                let attempts = prev.attempts.saturating_add(1);
                let kept = match publisher {
                    Some(p) => Some(p),
                    None => match &prev.name {
                        Some(n) => Some(n.clone()),
                        None => None,
                    },
                };
                let out = match &kept {
                    Some(n) => Some(n.clone()),
                    None => None,
                };
                let key = entries[i].0.clone();
                let ghost rec = record_of(PublisherEntry { name: kept, attempts });
                entries.set(i, (key, PublisherEntry { name: kept, attempts }));
                proof {
                    assert(records(entries@) =~= old_records.update(i as int, (old_records[i as int].0, rec)));
                    lemma_keyed_map_update(old_records, i as int, rec);
                }
                out
            },
            None => {
                let out = match &publisher {
                    Some(n) => Some(n.clone()),
                    None => None,
                };
                let ghost rec = record_of(PublisherEntry { name: publisher, attempts: 1 });
                let ghost before = entries@;
                entries.push((name.to_owned(), PublisherEntry { name: publisher, attempts: 1 }));
                proof {
                    assert(records(entries@) =~= old_records.push((name@, rec)));
                    assert(!has_key(old_records, name@)) by {
                        if has_key(old_records, name@) {
                            let j = choose|j: int| 0 <= j < old_records.len() && #[trigger] old_records[j].0 == name@;
                            assert(before[j].0@ == name@);
                        }
                    }
                    lemma_keyed_map_push(old_records, name@, rec);
                }
                out
            },
        };
        self.entries = entries;
        proof {
            assert(lookup.ensures((pid,), found));
        }
        result
    }
}

/// The cache gives up on a name after `MAX_ATTEMPTS` lookups that found no
/// publisher, and settles on a publisher as soon as one is found; a settled
/// name is not looked up again.
pub proof fn lemma_lookups_settle(old: Option<PublisherRecord>, found: Seq<char>)
    ensures
        settled(after_lookup(Some(after_lookup(Some(after_lookup(None, None)), None)), None)),
        !settled(after_lookup(Some(after_lookup(None, None)), None)),
        settled(after_lookup(old, Some(found))),
        after_lookup(old, Some(found)).name == Some(found),
{
}

/// A lookup of a name whose record is `rec` reads the executable again: the
/// cache holds nothing settled for the name.
pub open spec fn reads_again(rec: Option<PublisherRecord>) -> bool {
    !(rec is Some && settled(rec->0))
}

/// What the cache holds for one name after a run of `get` calls for it,
/// starting from nothing, where `found[i]` is what the lookup of call `i`
/// would find: a call that reads again records the lookup, and a call on a
/// settled record leaves it. The answer of each call is the name of the
/// record after it.
pub open spec fn record_after(found: Seq<Option<Seq<char>>>) -> Option<PublisherRecord>
    decreases found.len(),
{
    if found.len() == 0 {
        None
    } else {
        let prev = record_after(found.drop_last());
        if reads_again(prev) {
            Some(after_lookup(prev, found.last()))
        } else {
            prev
        }
    }
}

/// How many of a run of `get` calls for one name read the executable.
pub open spec fn reads_made(found: Seq<Option<Seq<char>>>) -> nat
    decreases found.len(),
{
    if found.len() == 0 {
        0
    } else {
        reads_made(found.drop_last()) + if reads_again(record_after(found.drop_last())) {
            1nat
        } else {
            0nat
        }
    }
}

/// One more `get` call extends the run: where the cache held
/// `record_after(found)` for the name, the call reads again exactly when
/// `reads_again` holds of that record, and the record it leaves (by the
/// contract of `get`, with `f` what its lookup found) is
/// `record_after(found.push(f))`.
pub proof fn lemma_get_extends_run(found: Seq<Option<Seq<char>>>, f: Option<Seq<char>>)
    ensures
        record_after(found.push(f)) == (if reads_again(record_after(found)) {
            Some(after_lookup(record_after(found), f))
        } else {
            record_after(found)
        }),
        reads_made(found.push(f)) == reads_made(found) + (if reads_again(record_after(found)) {
            1nat
        } else {
            0nat
        }),
{
    assert(found.push(f).drop_last() =~= found);
}

/// Over any run of `get` calls for one name, the executable is read at most
/// `MAX_ATTEMPTS` times, and the record counts every read.
pub proof fn lemma_reads_bounded(found: Seq<Option<Seq<char>>>)
    ensures
        reads_made(found) <= MAX_ATTEMPTS,
        record_after(found) is None <==> found.len() == 0,
        record_after(found) is Some ==> record_after(found)->0.attempts == reads_made(found),
    decreases found.len(),
{
    if found.len() > 0 {
        lemma_reads_bounded(found.drop_last());
    }
}

/// Once the record of a name is settled (a publisher was found, or
/// `MAX_ATTEMPTS` lookups found none), no later call reads the executable
/// again and the record stays as it is; where no publisher was found, every
/// later call answers `None`.
pub proof fn lemma_settled_stays(found: Seq<Option<Seq<char>>>, later: Seq<Option<Seq<char>>>)
    requires
        record_after(found) is Some,
        settled(record_after(found)->0),
    ensures
        record_after(found + later) == record_after(found),
        reads_made(found + later) == reads_made(found),
    decreases later.len(),
{
    if later.len() > 0 {
        lemma_settled_stays(found, later.drop_last());
        assert((found + later).drop_last() =~= found + later.drop_last());
    } else {
        assert(found + later =~= found);
    }
}

/// Three lookups that find nothing settle a name with no publisher, and one
/// that finds a publisher settles it at once.
pub proof fn lemma_give_up_after_three(found: Seq<Option<Seq<char>>>)
    requires
        found.len() >= 3,
        found[0] is None,
        found[1] is None,
        found[2] is None,
    ensures
        record_after(found.take(3)) == Some(PublisherRecord { name: None, attempts: MAX_ATTEMPTS }),
        settled(record_after(found.take(3))->0),
        reads_made(found) == MAX_ATTEMPTS,
        record_after(found) == record_after(found.take(3)),
{
    let t = found.take(3);
    assert(t.drop_last().drop_last().drop_last() =~= Seq::<Option<Seq<char>>>::empty());
    assert(t.drop_last() =~= found.take(2));
    assert(found.take(2).drop_last() =~= found.take(1));
    assert(found.take(1).drop_last() =~= Seq::<Option<Seq<char>>>::empty());
    assert(record_after(Seq::<Option<Seq<char>>>::empty()) is None);
    assert(found.take(1).last() == found[0]);
    assert(found.take(2).last() == found[1]);
    assert(t.last() == found[2]);
    assert(record_after(found.take(1)) == Some(PublisherRecord { name: None, attempts: 1 }));
    assert(record_after(found.take(2)) == Some(PublisherRecord { name: None, attempts: 2 }));
    lemma_reads_bounded(t);
    lemma_settled_stays(t, found.skip(3));
    assert(t + found.skip(3) =~= found);
}

} // verus!
