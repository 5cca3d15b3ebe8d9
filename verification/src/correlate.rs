//! Event correlation: matches insert/issue/complete events of one block
//! request (keyed by device, sector offset and sector count, compared
//! textually) and emits the request's queue, device and total times.

use vstd::prelude::*;
use vstd::string::*;
use crate::text::str_eq;
use crate::trace::{EventKind, OpType, TraceEvent, TraceEventV};

verus! {

/// Correlation key of one in-flight block request.
pub struct EventKey {
    pub dev: String,
    pub sector: String,
    pub nr_sectors: String,
}

impl View for EventKey {
    type V = (Seq<char>, Seq<char>, Seq<char>);

    open spec fn view(&self) -> (Seq<char>, Seq<char>, Seq<char>) {
        (self.dev@, self.sector@, self.nr_sectors@)
    }
}

fn key_eq(a: &EventKey, b: &EventKey) -> (r: bool)
    ensures
        r == (a@ == b@),
{
    str_eq(a.dev.as_str(), b.dev.as_str()) && str_eq(a.sector.as_str(), b.sector.as_str())
        && str_eq(a.nr_sectors.as_str(), b.nr_sectors.as_str())
}

/// Entries as pairs of key view and timestamp.
pub open spec fn entries_v(s: Seq<(EventKey, u64)>) -> Seq<((Seq<char>, Seq<char>, Seq<char>), u64)> {
    s.map_values(|p: (EventKey, u64)| (p.0@, p.1))
}

/// The map an entry list stands for; a later entry for a key wins.
pub open spec fn map_of(s: Seq<((Seq<char>, Seq<char>, Seq<char>), u64)>) -> Map<
    (Seq<char>, Seq<char>, Seq<char>),
    u64,
>
    decreases s.len(),
{
    if s.len() == 0 {
        Map::empty()
    } else {
        map_of(s.drop_last()).insert(s.last().0, s.last().1)
    }
}

pub open spec fn distinct_keys(s: Seq<((Seq<char>, Seq<char>, Seq<char>), u64)>) -> bool {
    forall|i: int, j: int| 0 <= i < j < s.len() ==> (#[trigger] s[i]).0 != (#[trigger] s[j]).0
}

/// A key held by no entry is not in the map.
proof fn lemma_map_of_absent(s: Seq<((Seq<char>, Seq<char>, Seq<char>), u64)>, k: (Seq<char>, Seq<char>, Seq<char>))
    requires
        forall|i: int| 0 <= i < s.len() ==> (#[trigger] s[i]).0 != k,
    ensures
        !map_of(s).dom().contains(k),
    decreases s.len(),
{
    if s.len() > 0 {
        assert(forall|i: int| 0 <= i < s.len() - 1 ==> (#[trigger] s.drop_last()[i]).0 != k) by {
            assert(forall|i: int| 0 <= i < s.len() - 1 ==> s.drop_last()[i] == s[i]);
        };
        lemma_map_of_absent(s.drop_last(), k);
        assert(s[s.len() - 1].0 != k);
    }
}

/// With distinct keys, each entry is in the map with its own timestamp.
proof fn lemma_map_of_present(s: Seq<((Seq<char>, Seq<char>, Seq<char>), u64)>, i: int)
    requires
        distinct_keys(s),
        0 <= i < s.len(),
    ensures
        map_of(s).dom().contains(s[i].0),
        map_of(s)[s[i].0] == s[i].1,
    decreases s.len(),
{
    if i == s.len() - 1 {
    } else {
        assert(forall|x: int, y: int|
            0 <= x < y < s.len() - 1 ==> (#[trigger] s.drop_last()[x]).0 != (
            #[trigger] s.drop_last()[y]).0) by {
            assert(forall|x: int| 0 <= x < s.len() - 1 ==> s.drop_last()[x] == s[x]);
        }
        lemma_map_of_present(s.drop_last(), i);
        assert(s.drop_last()[i] == s[i]);
        assert(s[i].0 != s.last().0);
    }
}

/// With distinct keys, removing entry `i` removes exactly its key.
proof fn lemma_map_of_remove(s: Seq<((Seq<char>, Seq<char>, Seq<char>), u64)>, i: int)
    requires
        distinct_keys(s),
        0 <= i < s.len(),
    ensures
        map_of(s.remove(i)) =~= map_of(s).remove(s[i].0),
    decreases s.len(),
{
    if i == s.len() - 1 {
        assert(s.remove(i) =~= s.drop_last());
        assert(forall|x: int| 0 <= x < s.len() - 1 ==> (#[trigger] s[x]).0 != s[i].0);
        assert(forall|x: int|
            0 <= x < s.drop_last().len() ==> (#[trigger] s.drop_last()[x]).0 != s[i].0) by {
            assert(forall|x: int| 0 <= x < s.len() - 1 ==> s.drop_last()[x] == s[x]);
        }
        lemma_map_of_absent(s.drop_last(), s[i].0);
        assert(map_of(s) == map_of(s.drop_last()).insert(s[i].0, s[i].1));
        assert(map_of(s).remove(s[i].0) =~= map_of(s.drop_last()));
    } else {
        assert(forall|x: int, y: int|
            0 <= x < y < s.len() - 1 ==> (#[trigger] s.drop_last()[x]).0 != (
            #[trigger] s.drop_last()[y]).0) by {
            assert(forall|x: int| 0 <= x < s.len() - 1 ==> s.drop_last()[x] == s[x]);
        }
        lemma_map_of_remove(s.drop_last(), i);
        assert(s.remove(i).drop_last() =~= s.drop_last().remove(i));
        assert(s.remove(i).len() == s.len() - 1);
        assert(s.remove(i).last() == s.last());
        assert(s.drop_last()[i] == s[i]);
        assert(s[i].0 != s.last().0);
        assert(map_of(s.remove(i)) == map_of(s.drop_last().remove(i)).insert(
            s.last().0,
            s.last().1,
        ));
        assert(map_of(s.remove(i)) =~= map_of(s).remove(s[i].0));
    }
}

/// One pending-event table: correlation key to latest timestamp.
pub struct PendingMap {
    entries: Vec<(EventKey, u64)>,
}

impl View for PendingMap {
    type V = Map<(Seq<char>, Seq<char>, Seq<char>), u64>;

    closed spec fn view(&self) -> Map<(Seq<char>, Seq<char>, Seq<char>), u64> {
        map_of(entries_v(self.entries@))
    }
}

impl PendingMap {
    pub closed spec fn wf(&self) -> bool {
        distinct_keys(entries_v(self.entries@))
    }

    pub fn new() -> (r: PendingMap)
        ensures
            r.wf(),
            r@ == Map::<(Seq<char>, Seq<char>, Seq<char>), u64>::empty(),
    {
        let r = PendingMap { entries: Vec::new() };
        proof {
            assert(entries_v(r.entries@) =~= Seq::empty());
        }
        r
    }

    fn find_key(&self, k: &EventKey) -> (r: Option<usize>)
        ensures
            match r {
                Some(i) => i < self.entries@.len() && entries_v(self.entries@)[i as int].0 == k@,
                None => forall|i: int|
                    0 <= i < self.entries@.len() ==> (#[trigger] entries_v(self.entries@)[i]).0
                        != k@,
            },
    {
        let n = self.entries.len();
        let mut i: usize = 0;
        while i < n
            invariant
                n == self.entries@.len(),
                i <= n,
                forall|j: int| 0 <= j < i ==> (#[trigger] entries_v(self.entries@)[j]).0 != k@,
            decreases n - i,
        {
            proof {
                assert(entries_v(self.entries@)[i as int].0 == self.entries@[i as int].0@);
            }
            if key_eq(&self.entries[i].0, k) {
                return Some(i);
            }
            i = i + 1;
        }
        None
    }

    /// Stores `t` under `k`; a prior entry for the same key is overwritten.
    pub fn set(&mut self, k: EventKey, t: u64)
        requires
            old(self).wf(),
        ensures
            final(self).wf(),
            final(self)@ == old(self)@.insert(k@, t),
    {
        let ghost sv = entries_v(self.entries@);
        match self.find_key(&k) {
            Some(i) => {
                proof {
                    lemma_map_of_remove(sv, i as int);
                }
                self.entries.remove(i);
                proof {
                    assert(entries_v(self.entries@) =~= sv.remove(i as int));
                    assert(map_of(entries_v(self.entries@)) =~= map_of(sv).remove(k@));
                }
            },
            None => {
                proof {
                    lemma_map_of_absent(sv, k@);
                    assert(map_of(entries_v(self.entries@)) =~= map_of(sv).remove(k@));
                }
            },
        }
        let ghost mid = entries_v(self.entries@);
        proof {
            assert(forall|i: int| 0 <= i < mid.len() ==> (#[trigger] mid[i]).0 != k@) by {
                if exists|i: int| 0 <= i < mid.len() && (#[trigger] mid[i]).0 == k@ {
                    let i = choose|i: int| 0 <= i < mid.len() && (#[trigger] mid[i]).0 == k@;
                    lemma_map_of_present(mid, i);
                    assert(map_of(mid).dom().contains(k@));
                    assert(false);
                }
            }
        }
        self.entries.push((k, t));
        proof {
            assert(entries_v(self.entries@) =~= mid.push((k@, t)));
            assert(entries_v(self.entries@).drop_last() =~= mid);
            assert(map_of(entries_v(self.entries@)) == map_of(mid).insert(k@, t));
            assert(final(self)@ =~= old(self)@.insert(k@, t));
        }
    }

    /// Removes and returns the timestamp under `k`, if one is pending.
    pub fn take(&mut self, k: &EventKey) -> (r: Option<u64>)
        requires
            old(self).wf(),
        ensures
            final(self).wf(),
            final(self)@ == old(self)@.remove(k@),
            r == if old(self)@.dom().contains(k@) {
                Some(old(self)@[k@])
            } else {
                None::<u64>
            },
    {
        let ghost sv = entries_v(self.entries@);
        match self.find_key(k) {
            Some(i) => {
                let t = self.entries[i].1;
                proof {
                    lemma_map_of_remove(sv, i as int);
                    lemma_map_of_present(sv, i as int);
                    assert(sv[i as int].1 == self.entries@[i as int].1);
                }
                self.entries.remove(i);
                proof {
                    assert(entries_v(self.entries@) =~= sv.remove(i as int));
                    assert(map_of(entries_v(self.entries@)) =~= map_of(sv).remove(k@));
                }
                Some(t)
            },
            None => {
                proof {
                    lemma_map_of_absent(sv, k@);
                    assert(map_of(sv) =~= map_of(sv).remove(k@));
                }
                None
            },
        }
    }
}

/// One completed request's timings, in microseconds.
pub struct TimingRecord {
    pub queue_micros: i128,
    pub disk_micros: i128,
    pub total_micros: i128,
    pub dev: String,
    pub optype: OpType,
}

/// Mathematical image of a `TimingRecord`.
pub struct TimingRecordV {
    pub queue_micros: int,
    pub disk_micros: int,
    pub total_micros: int,
    pub dev: Seq<char>,
    pub optype: OpType,
}

impl View for TimingRecord {
    type V = TimingRecordV;

    open spec fn view(&self) -> TimingRecordV {
        TimingRecordV {
            queue_micros: self.queue_micros as int,
            disk_micros: self.disk_micros as int,
            total_micros: self.total_micros as int,
            dev: self.dev@,
            optype: self.optype,
        }
    }
}

/// Mathematical image of a `Correlator`.
pub struct CorrelatorV {
    pub inserts: Map<(Seq<char>, Seq<char>, Seq<char>), u64>,
    pub issues: Map<(Seq<char>, Seq<char>, Seq<char>), u64>,
}

pub open spec fn event_key_v(e: TraceEventV) -> (Seq<char>, Seq<char>, Seq<char>) {
    (e.dev, e.sector, e.nr_sectors)
}

/// What one event does to the correlator: inserts and issues record their
/// timestamp (overwriting a pending one); a completion clears its key from
/// both tables and yields a record exactly when both held the key.
pub open spec fn correlate_step(c: CorrelatorV, e: TraceEventV) -> (CorrelatorV, Option<
    TimingRecordV,
>) {
    let k = event_key_v(e);
    match e.kind {
        EventKind::Insert => (
            CorrelatorV { inserts: c.inserts.insert(k, e.micros), issues: c.issues },
            None,
        ),
        EventKind::Issue => (
            CorrelatorV { inserts: c.inserts, issues: c.issues.insert(k, e.micros) },
            None,
        ),
        EventKind::Complete => {
            let c2 = CorrelatorV { inserts: c.inserts.remove(k), issues: c.issues.remove(k) };
            if c.inserts.dom().contains(k) && c.issues.dom().contains(k) {
                let t_insert = c.inserts[k];
                let t_issue = c.issues[k];
                let q = t_issue - t_insert;
                let d = e.micros - t_issue;
                (
                    c2,
                    Some(
                        TimingRecordV {
                            queue_micros: q,
                            disk_micros: d,
                            total_micros: q + d,
                            dev: e.dev,
                            optype: e.optype,
                        },
                    ),
                )
            } else {
                (c2, None)
            }
        },
    }
}

/// A completion with no matching pending insert or issue yields no record; it
/// only clears that key from both tables.
pub proof fn lemma_unmatched_complete(c: CorrelatorV, e: TraceEventV)
    requires
        e.kind == EventKind::Complete,
        !(c.inserts.dom().contains(event_key_v(e)) && c.issues.dom().contains(event_key_v(e))),
    ensures
        correlate_step(c, e).1 is None,
        correlate_step(c, e).0.inserts == c.inserts.remove(event_key_v(e)),
        correlate_step(c, e).0.issues == c.issues.remove(event_key_v(e)),
{
}

/// The stateful matcher of pending insert and issue events.
pub struct Correlator {
    inserts: PendingMap,
    issues: PendingMap,
}

impl View for Correlator {
    type V = CorrelatorV;

    closed spec fn view(&self) -> CorrelatorV {
        CorrelatorV { inserts: self.inserts@, issues: self.issues@ }
    }
}

impl Correlator {
    pub closed spec fn wf(&self) -> bool {
        self.inserts.wf() && self.issues.wf()
    }

    pub fn new() -> (r: Correlator)
        ensures
            r.wf(),
            r@.inserts == Map::<(Seq<char>, Seq<char>, Seq<char>), u64>::empty(),
            r@.issues == Map::<(Seq<char>, Seq<char>, Seq<char>), u64>::empty(),
    {
        Correlator { inserts: PendingMap::new(), issues: PendingMap::new() }
    }

    /// Feeds one event through; only a completion can yield a record.
    pub fn observe(&mut self, e: &TraceEvent) -> (r: Option<TimingRecord>)
        requires
            old(self).wf(),
        ensures
            final(self).wf(),
            final(self)@ == correlate_step(old(self)@, e@).0,
            match (r, correlate_step(old(self)@, e@).1) {
                (Some(a), Some(b)) => a@ == b,
                (None, None) => true,
                _ => false,
            },
    {
        let k = EventKey {
            dev: e.dev.clone(),
            sector: e.sector.clone(),
            nr_sectors: e.nr_sectors.clone(),
        };
        match e.kind {
            EventKind::Insert => {
                self.inserts.set(k, e.micros);
                None
            },
            EventKind::Issue => {
                self.issues.set(k, e.micros);
                None
            },
            EventKind::Complete => {
                let t_insert = self.inserts.take(&k);
                let t_issue = self.issues.take(&k);
                match (t_insert, t_issue) {
                    (Some(a), Some(b)) => {
                        let q: i128 = b as i128 - a as i128;
                        let d: i128 = e.micros as i128 - b as i128;
                        let rec = TimingRecord {
                            queue_micros: q,
                            disk_micros: d,
                            total_micros: q + d,
                            dev: e.dev.clone(),
                            optype: e.optype,
                        };
                        Some(rec)
                    },
                    _ => None,
                }
            },
        }
    }
}

} // verus!
