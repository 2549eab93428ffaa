use crate::backend::BackingStore;
use crate::bytes::{copy_bytes, same_bytes};
use crate::descriptor::{TableDeleteBehavior, TableDescriptor};
use crate::operation::{insert_tuple, log_view, DataOperation, DataTuple, TupleView};
use crate::replay::{apply, by_time_and_key, lemma_apply_all_push, net_push, net_step, replay};
use crate::tables::assoc::{
    content, lemma_absent, lemma_insert, lemma_remove, lemma_slot, lemma_update, slot_of, unique,
};
use crate::tables::timeline::{
    entries_view, entry_from, lemma_place_sorted, place, sorted, upper_bound, EntryView, TimedEntry,
};
use vstd::prelude::*;

verus! {

/// The identity of an entry: its event time and key.
pub open spec fn time_key_of() -> spec_fn(TimedEntry) -> (u64, Seq<u8>) {
    |e: TimedEntry| (e.timestamp, e.key@)
}

/// The payload of an entry: its value.
pub open spec fn entry_value() -> spec_fn(TimedEntry) -> Seq<u8> {
    |e: TimedEntry| e.value@
}

/// The tuples of a log that are not older than `min_valid`.
pub open spec fn recent(log: Seq<TupleView>, min_valid: u64) -> Seq<TupleView>
    decreases log.len(),
{
    if log.len() == 0 {
        Seq::empty()
    } else if log.last().timestamp >= min_valid {
        recent(log.drop_last(), min_valid).push(log.last())
    } else {
        recent(log.drop_last(), min_valid)
    }
}

/// The key and value of every entry stored at `timestamp`, in list order.
pub open spec fn at_time(s: Seq<EntryView>, timestamp: u64) -> Seq<(Seq<u8>, Seq<u8>)>
    decreases s.len(),
{
    if s.len() == 0 {
        Seq::empty()
    } else if s.last().timestamp == timestamp {
        at_time(s.drop_last(), timestamp).push((s.last().key, s.last().value))
    } else {
        at_time(s.drop_last(), timestamp)
    }
}

/// The byte strings that a list of borrowed key-value pairs holds.
pub open spec fn pairs_view(pairs: Seq<(&Vec<u8>, &Vec<u8>)>) -> Seq<(Seq<u8>, Seq<u8>)> {
    pairs.map_values(|p: (&Vec<u8>, &Vec<u8>)| (p.0@, p.1@))
}

/// The event times at or after `watermark`, under any key.
pub open spec fn not_before(watermark: u64) -> Set<(u64, Seq<u8>)> {
    Set::new(|id: (u64, Seq<u8>)| id.0 >= watermark)
}

/// A restore that skips tuples older than `min_valid` yields no entry older
/// than `min_valid`.
pub proof fn lemma_recent_replay(log: Seq<TupleView>, min_valid: u64)
    ensures
        forall|id: (u64, Seq<u8>)| #[trigger]
            replay(recent(log, min_valid), by_time_and_key()).dom().contains(id) ==> id.0
                >= min_valid,
    decreases log.len(),
{
    if log.len() > 0 {
        lemma_recent_replay(log.drop_last(), min_valid);
        if log.last().timestamp >= min_valid {
            let init = recent(log.drop_last(), min_valid);
            lemma_apply_all_push(Map::empty(), init, log.last(), by_time_and_key());
            let whole = replay(recent(log, min_valid), by_time_and_key());
            assert(whole == apply(replay(init, by_time_and_key()), log.last(), by_time_and_key()));
            assert forall|id: (u64, Seq<u8>)| #[trigger] whole.dom().contains(id) implies id.0
                >= min_valid by {
                if id != (log.last().timestamp, log.last().key) {
                    assert(replay(init, by_time_and_key()).dom().contains(id));
                }
            }
        }
    }
}

/// Watermark retention: a table that hides reads before the watermark and
/// retains nothing beyond it, restored at watermark `w`, holds no entry
/// timestamped before `w`.
pub proof fn lemma_watermark_retention(descriptor: TableDescriptor, w: u64, log: Seq<TupleView>)
    requires
        descriptor.delete_behavior == TableDeleteBehavior::NoReadsBeforeWatermark,
        descriptor.retention_micros == 0,
    ensures
        forall|id: (u64, Seq<u8>)| #[trigger]
            replay(
                recent(log, descriptor.min_valid_time_of(Some(w))),
                by_time_and_key(),
            ).dom().contains(id) ==> id.0 >= w,
{
    lemma_recent_replay(log, w);
}

spec fn ordered(entries: Seq<TimedEntry>) -> bool {
    unique(entries, time_key_of()) && sorted(entries_view(entries))
}

fn position(entries: &Vec<TimedEntry>, timestamp: u64, key: &Vec<u8>) -> (r: Option<usize>)
    ensures
        match r {
            Some(i) => i < entries.len() && time_key_of()(entries[i as int]) == (timestamp, key@),
            None => forall|i: int|
                0 <= i < entries.len() ==> time_key_of()(#[trigger] entries[i]) != (
                    timestamp,
                    key@,
                ),
        },
{
    let mut i: usize = 0;
    while i < entries.len()
        invariant
            i <= entries.len(),
            forall|j: int| 0 <= j < i ==> time_key_of()(#[trigger] entries[j]) != (timestamp, key@),
        decreases entries.len() - i,
    {
        if entries[i].timestamp == timestamp && same_bytes(&entries[i].key, key) {
            return Some(i);
        }
        i += 1;
    }
    None
}

fn bind(entries: &mut Vec<TimedEntry>, e: TimedEntry)
    requires
        ordered(old(entries)@),
    ensures
        ordered(final(entries)@),
        content(final(entries)@, time_key_of(), entry_value()) == content(
            old(entries)@,
            time_key_of(),
            entry_value(),
        ).insert((e.timestamp, e.key@), e.value@),
{
    let ghost before = entries@;
    match position(entries, e.timestamp, &e.key) {
        Some(i) => {
            proof {
                lemma_update(before, time_key_of(), entry_value(), i as int, e);
                let after = before.update(i as int, e);
                assert forall|a: int, b: int|
                    0 <= a <= b < after.len() implies entries_view(after)[a].timestamp
                    <= entries_view(after)[b].timestamp by {
                    assert(entries_view(after)[a].timestamp == entries_view(before)[a].timestamp);
                    assert(entries_view(after)[b].timestamp == entries_view(before)[b].timestamp);
                }
            }
            entries[i] = e;
            assert(entries@ =~= before.update(i as int, e));
        },
        None => {
            let pos = upper_bound(entries, e.timestamp);
            proof {
                lemma_insert(before, time_key_of(), entry_value(), pos as int, e);
                lemma_place_sorted(entries_view(before), e@);
                assert(entries_view(before.insert(pos as int, e)) =~= place(
                    entries_view(before),
                    e@,
                ));
            }
            entries.insert(pos, e);
        },
    }
}

fn unbind(entries: &mut Vec<TimedEntry>, timestamp: u64, key: &Vec<u8>)
    requires
        ordered(old(entries)@),
    ensures
        ordered(final(entries)@),
        content(final(entries)@, time_key_of(), entry_value()) == content(
            old(entries)@,
            time_key_of(),
            entry_value(),
        ).remove((timestamp, key@)),
{
    let ghost before = entries@;
    match position(entries, timestamp, key) {
        Some(i) => {
            proof {
                lemma_remove(before, time_key_of(), entry_value(), i as int);
                let after = before.remove(i as int);
                assert forall|a: int, b: int|
                    0 <= a <= b < after.len() implies entries_view(after)[a].timestamp
                    <= entries_view(after)[b].timestamp by {
                    let a0 = if a < i { a } else { a + 1 };
                    let b0 = if b < i { b } else { b + 1 };
                    assert(entries_view(after)[a] == entries_view(before)[a0]);
                    assert(entries_view(after)[b] == entries_view(before)[b0]);
                }
            }
            let _ = entries.remove(i);
        },
        None => {
            proof {
                lemma_absent(before, time_key_of(), entry_value(), (timestamp, key@));
                let m = content(before, time_key_of(), entry_value());
                assert(m =~= m.remove((timestamp, key@)));
            }
        },
    }
}

proof fn lemma_suffix(entries: Seq<TimedEntry>, n: int, watermark: u64)
    requires
        ordered(entries),
        0 <= n <= entries.len(),
        forall|i: int| 0 <= i < n ==> (#[trigger] entries[i]).timestamp < watermark,
        n < entries.len() ==> entries[n].timestamp >= watermark,
    ensures
        ordered(entries.skip(n)),
        content(entries.skip(n), time_key_of(), entry_value()) == content(
            entries,
            time_key_of(),
            entry_value(),
        ).restrict(not_before(watermark)),
{
    let tail = entries.skip(n);
    let id = time_key_of();
    let val = entry_value();
    assert forall|a: int| 0 <= a < tail.len() implies (#[trigger] tail[a]).timestamp
        >= watermark by {
        assert(entries_view(entries)[n].timestamp <= entries_view(entries)[a + n].timestamp);
    }
    assert forall|a: int, b: int| 0 <= a < b < tail.len() implies id(#[trigger] tail[a]) != id(
        #[trigger] tail[b],
    ) by {
        assert(id(entries[a + n]) != id(entries[b + n]));
    }
    assert forall|a: int, b: int| 0 <= a <= b < tail.len() implies entries_view(tail)[a].timestamp
        <= entries_view(tail)[b].timestamp by {
        assert(entries_view(entries)[a + n].timestamp <= entries_view(entries)[b + n].timestamp);
    }
    let left = content(tail, id, val);
    let right = content(entries, id, val).restrict(not_before(watermark));
    assert forall|k: (u64, Seq<u8>)| #[trigger] left.dom().contains(k) == right.dom().contains(
        k,
    ) by {
        if left.dom().contains(k) {
            let j = slot_of(tail, id, k);
            assert(id(tail[j]) == k);
            assert(tail[j] == entries[j + n]);
            assert(id(entries[j + n]) == k);
        }
        if right.dom().contains(k) {
            let j = slot_of(entries, id, k);
            assert(id(entries[j]) == k);
            assert(j >= n);
            assert(tail[j - n] == entries[j]);
            assert(id(tail[j - n]) == k);
        }
    }
    assert forall|k: (u64, Seq<u8>)| left.dom().contains(k) implies #[trigger] left[k]
        == right[k] by {
        let j = slot_of(tail, id, k);
        assert(id(tail[j]) == k);
        assert(tail[j] == entries[j + n]);
        lemma_slot(entries, id, val, j + n);
    }
    assert(left =~= right);
}

/// The resident content of a time-key map: one value per event time and key,
/// held in order of event time. Entries older than the floor, the latest
/// watermark the table was evicted or restored at, are no longer admitted.
pub struct TimeKeyMapCache {
    entries: Vec<TimedEntry>,
    delta: Vec<DataTuple>,
    floor: u64,
}

impl View for TimeKeyMapCache {
    type V = Map<(u64, Seq<u8>), Seq<u8>>;

    closed spec fn view(&self) -> Map<(u64, Seq<u8>), Seq<u8>> {
        content(self.entries@, time_key_of(), entry_value())
    }
}

impl TimeKeyMapCache {
    /// The entries are ordered by event time, no event time and key occurs
    /// twice, and no entry is older than the floor.
    pub closed spec fn wf(&self) -> bool {
        &&& ordered(self.entries@)
        &&& forall|id: (u64, Seq<u8>)| #[trigger] self@.dom().contains(id) ==> id.0 >= self.floor
    }

    /// The event time below which no entry is held or admitted.
    pub closed spec fn floor(&self) -> u64 {
        self.floor
    }

    /// No entry is older than the floor.
    pub proof fn lemma_floor(&self)
        requires
            self.wf(),
        ensures
            forall|id: (u64, Seq<u8>)| #[trigger] self@.dom().contains(id) ==> id.0 >= self.floor(),
    {
    }

    /// The net changes since the last flush: one tuple per changed entry.
    pub closed spec fn delta(&self) -> Seq<TupleView> {
        log_view(self.delta@)
    }

    /// The entries in the order in which they are enumerated.
    pub closed spec fn timeline(&self) -> Seq<EntryView> {
        entries_view(self.entries@)
    }

    /// The enumeration is ordered by event time and lists every entry of the
    /// table exactly once.
    pub proof fn lemma_timeline(&self)
        requires
            self.wf(),
        ensures
            sorted(self.timeline()),
            forall|i: int, j: int|
                0 <= i < j < self.timeline().len() ==> (
                    self.timeline()[i].timestamp,
                    self.timeline()[i].key,
                ) != (self.timeline()[j].timestamp, self.timeline()[j].key),
            forall|i: int|
                0 <= i < self.timeline().len() ==> self@.dom().contains(
                    (#[trigger] self.timeline()[i].timestamp, self.timeline()[i].key),
                ) && self@[(self.timeline()[i].timestamp, self.timeline()[i].key)]
                    == self.timeline()[i].value,
            forall|id: (u64, Seq<u8>)|
                self@.dom().contains(id) ==> exists|i: int|
                    0 <= i < self.timeline().len() && (
                        #[trigger] self.timeline()[i].timestamp,
                        self.timeline()[i].key,
                    ) == id,
    {
        let s = self.entries@;
        let tl = self.timeline();
        assert forall|i: int, j: int| 0 <= i < j < tl.len() implies (tl[i].timestamp, tl[i].key)
            != (tl[j].timestamp, tl[j].key) by {
            assert(time_key_of()(s[i]) != time_key_of()(s[j]));
        }
        assert forall|i: int| 0 <= i < tl.len() implies self@.dom().contains(
            (#[trigger] tl[i].timestamp, tl[i].key),
        ) && self@[(tl[i].timestamp, tl[i].key)] == tl[i].value by {
            lemma_slot(s, time_key_of(), entry_value(), i);
        }
        assert forall|id: (u64, Seq<u8>)| self@.dom().contains(id) implies exists|i: int|
            0 <= i < tl.len() && (#[trigger] tl[i].timestamp, tl[i].key) == id by {
            let j = slot_of(s, time_key_of(), id);
            assert(time_key_of()(s[j]) == id);
            assert((tl[j].timestamp, tl[j].key) == id);
        }
    }

    /// An empty table with nothing to flush.
    pub fn new() -> (c: TimeKeyMapCache)
        ensures
            c.wf(),
            c@ == Map::<(u64, Seq<u8>), Seq<u8>>::empty(),
            c.timeline() == Seq::<EntryView>::empty(),
            c.delta() == Seq::<TupleView>::empty(),
            c.floor() == 0,
    {
        let c = TimeKeyMapCache { entries: Vec::new(), delta: Vec::new(), floor: 0 };
        assert(c@ =~= Map::<(u64, Seq<u8>), Seq<u8>>::empty());
        assert(c.timeline() =~= Seq::<EntryView>::empty());
        assert(c.delta() =~= Seq::<TupleView>::empty());
        c
    }

    /// The table as a restore at `watermark` sees it: the content that the
    /// persisted tuples build, leaving out those that expired before the
    /// watermark; nothing to flush.
    pub fn from_checkpoint<S: BackingStore>(
        backend: &S,
        table: char,
        descriptor: &TableDescriptor,
        watermark: Option<u64>,
    ) -> (c: TimeKeyMapCache)
        requires
            backend.valid(),
        ensures
            c.wf(),
            c@ == replay(
                recent(backend.live(table), descriptor.min_valid_time_of(watermark)),
                by_time_and_key(),
            ),
            c.delta() == Seq::<TupleView>::empty(),
            c.floor() == descriptor.min_valid_time_of(watermark),
    {
        let tuples = backend.get_data_tuples(table);
        let min_valid = descriptor.min_valid_time(watermark);
        let ghost log = log_view(tuples@);
        let mut entries: Vec<TimedEntry> = Vec::new();
        let mut i: usize = 0;
        assert(content(entries@, time_key_of(), entry_value()) =~= replay(
            recent(log.take(0), min_valid),
            by_time_and_key(),
        ));
        while i < tuples.len()
            invariant
                i <= tuples.len(),
                log == log_view(tuples@),
                ordered(entries@),
                content(entries@, time_key_of(), entry_value()) == replay(
                    recent(log.take(i as int), min_valid),
                    by_time_and_key(),
                ),
            decreases tuples.len() - i,
        {
            assert(log.take(i + 1).drop_last() =~= log.take(i as int));
            assert(log.take(i + 1).last() == tuples[i as int]@);
            let t = &tuples[i];
            if t.timestamp >= min_valid {
                let ghost init = recent(log.take(i as int), min_valid);
                assert(init.push(t@).drop_last() =~= init);
                match t.operation {
                    DataOperation::Insert => {
                        bind(&mut entries, entry_from(t));
                    },
                    DataOperation::DeleteKey => {
                        unbind(&mut entries, t.timestamp, &t.key);
                    },
                }
            }
            i += 1;
        }
        assert(log.take(tuples.len() as int) =~= log);
        proof {
            lemma_recent_replay(log, min_valid);
        }
        let c = TimeKeyMapCache { entries, delta: Vec::new(), floor: min_valid };
        assert(c.delta() =~= Seq::<TupleView>::empty());
        c
    }

    /// Binds `key` at `timestamp` to `value` and records the change, unless
    /// the event time is older than the floor: such a write is left out.
    pub fn insert(&mut self, timestamp: u64, key: Vec<u8>, value: Vec<u8>)
        requires
            old(self).wf(),
        ensures
            final(self).wf(),
            final(self).floor() == old(self).floor(),
            timestamp >= old(self).floor() ==> final(self)@ == old(self)@.insert(
                (timestamp, key@),
                value@,
            ) && final(self).delta() == net_step(
                old(self).delta(),
                insert_tuple(timestamp, key@, value@),
                by_time_and_key(),
            ),
            timestamp < old(self).floor() ==> final(self)@ == old(self)@ && final(self).delta()
                == old(self).delta() && final(self).timeline() == old(self).timeline(),
    {
        if timestamp < self.floor {
            return ;
        }
        let change = DataTuple::insert(timestamp, copy_bytes(&key), copy_bytes(&value));
        net_push(&mut self.delta, change, true);
        bind(&mut self.entries, TimedEntry { timestamp, key, value });
        proof {
            assert forall|id: (u64, Seq<u8>)| #[trigger] self@.dom().contains(id) implies id.0
                >= self.floor by {
                if id != (timestamp, key@) {
                    assert(old(self)@.dom().contains(id));
                }
            }
        }
    }

    /// The value bound to `key` at `timestamp`, if any.
    pub fn get(&self, timestamp: u64, key: &Vec<u8>) -> (r: Option<&Vec<u8>>)
        requires
            self.wf(),
        ensures
            match r {
                Some(v) => self@.dom().contains((timestamp, key@)) && v@ == self@[(
                    timestamp,
                    key@,
                )],
                None => !self@.dom().contains((timestamp, key@)),
            },
    {
        match position(&self.entries, timestamp, key) {
            Some(i) => {
                proof {
                    lemma_slot(self.entries@, time_key_of(), entry_value(), i as int);
                }
                Some(&self.entries[i].value)
            },
            None => {
                proof {
                    lemma_absent(self.entries@, time_key_of(), entry_value(), (timestamp, key@));
                }
                None
            },
        }
    }

    /// The key and value of every entry stored at exactly `timestamp`.
    pub fn get_all_for_time(&self, timestamp: u64) -> (r: Vec<(&Vec<u8>, &Vec<u8>)>)
        ensures
            pairs_view(r@) == at_time(self.timeline(), timestamp),
    {
        let ghost s = self.timeline();
        let mut r: Vec<(&Vec<u8>, &Vec<u8>)> = Vec::new();
        let mut i: usize = 0;
        assert(pairs_view(r@) =~= at_time(s.take(0), timestamp));
        while i < self.entries.len()
            invariant
                i <= self.entries.len(),
                s == entries_view(self.entries@),
                pairs_view(r@) == at_time(s.take(i as int), timestamp),
            decreases self.entries.len() - i,
        {
            assert(s.take(i + 1).drop_last() =~= s.take(i as int));
            assert(s.take(i + 1).last() == self.entries[i as int]@);
            let e = &self.entries[i];
            if e.timestamp == timestamp {
                let ghost before = pairs_view(r@);
                r.push((&e.key, &e.value));
                assert(pairs_view(r@) =~= before.push((e.key@, e.value@)));
            }
            i += 1;
        }
        assert(s.take(self.entries.len() as int) =~= s);
        r
    }

    /// Every entry as event time, key and value, by event time.
    pub fn get_all(&self) -> (r: Vec<(u64, &Vec<u8>, &Vec<u8>)>)
        ensures
            r.len() == self.timeline().len(),
            forall|i: int|
                0 <= i < r.len() ==> (#[trigger] r[i]).0 == self.timeline()[i].timestamp && r[i].1@
                    == self.timeline()[i].key && r[i].2@ == self.timeline()[i].value,
    {
        let mut r: Vec<(u64, &Vec<u8>, &Vec<u8>)> = Vec::with_capacity(self.entries.len());
        let mut i: usize = 0;
        while i < self.entries.len()
            invariant
                i <= self.entries.len(),
                r.len() == i,
                forall|j: int|
                    0 <= j < i ==> (#[trigger] r[j]).0 == self.timeline()[j].timestamp && r[j].1@
                        == self.timeline()[j].key && r[j].2@ == self.timeline()[j].value,
            decreases self.entries.len() - i,
        {
            let e = &self.entries[i];
            r.push((e.timestamp, &e.key, &e.value));
            i += 1;
        }
        r
    }

    /// Drops every entry timestamped before `watermark`. Nothing is recorded:
    /// expired entries are left out by the restore, not deleted in the store.
    pub fn evict_before(&mut self, watermark: u64)
        requires
            old(self).wf(),
        ensures
            final(self).wf(),
            final(self)@ == old(self)@.restrict(not_before(watermark)),
            final(self).timeline() == old(self).timeline().skip(
                old(self).timeline().len() - final(self).timeline().len(),
            ),
            final(self).delta() == old(self).delta(),
            final(self).floor() == if watermark > old(self).floor() {
                watermark
            } else {
                old(self).floor()
            },
    {
        let ghost before = self.entries@;
        let mut n: usize = 0;
        while n < self.entries.len() && self.entries[n].timestamp < watermark
            invariant
                n <= self.entries.len(),
                self.entries@ == before,
                forall|i: int| 0 <= i < n ==> (#[trigger] before[i]).timestamp < watermark,
            decreases self.entries.len() - n,
        {
            n += 1;
        }
        proof {
            lemma_suffix(before, n as int, watermark);
        }
        let tail = self.entries.split_off(n);
        self.entries = tail;
        if watermark > self.floor {
            self.floor = watermark;
        }
        proof {
            assert forall|id: (u64, Seq<u8>)| #[trigger] self@.dom().contains(id) implies id.0
                >= self.floor by {
                assert(old(self)@.dom().contains(id));
                assert(not_before(watermark).contains(id));
            }
        }
        assert(self.entries@ =~= before.skip(n as int));
        assert(self.timeline() =~= old(self).timeline().skip(n as int));
    }

    /// Hands out the recorded changes and starts a new delta.
    pub fn take_delta(&mut self) -> (changes: Vec<DataTuple>)
        ensures
            log_view(changes@) == old(self).delta(),
            final(self).delta() == Seq::<TupleView>::empty(),
            final(self)@ == old(self)@,
            final(self).timeline() == old(self).timeline(),
            final(self).floor() == old(self).floor(),
            final(self).wf() == old(self).wf(),
    {
        let mut changes: Vec<DataTuple> = Vec::new();
        std::mem::swap(&mut changes, &mut self.delta);
        assert(self.delta() =~= Seq::<TupleView>::empty());
        changes
    }
}

/// A short-lived handle on a resident time-key map.
pub struct TimeKeyMap<'a> {
    pub table: char,
    pub cache: &'a mut TimeKeyMapCache,
}

impl<'a> TimeKeyMap<'a> {
    /// Binds `key` at `timestamp` to `value` in memory, unless the event time
    /// is older than the table's floor; the change is flushed by the next
    /// checkpoint.
    pub fn insert(&mut self, timestamp: u64, key: Vec<u8>, value: Vec<u8>)
        requires
            old(self).cache.wf(),
        ensures
            final(self).table == old(self).table,
            *final(final(self).cache) == *final(old(self).cache),
            final(self).cache.wf(),
            final(self).cache.floor() == old(self).cache.floor(),
            timestamp >= old(self).cache.floor() ==> final(self).cache@ == old(self).cache@.insert(
                (timestamp, key@),
                value@,
            ) && final(self).cache.delta() == net_step(
                old(self).cache.delta(),
                insert_tuple(timestamp, key@, value@),
                by_time_and_key(),
            ),
            timestamp < old(self).cache.floor() ==> final(self).cache@ == old(self).cache@
                && final(self).cache.delta() == old(self).cache.delta(),
    {
        self.cache.insert(timestamp, key, value);
    }

    /// The value bound to `key` at `timestamp`, if any.
    pub fn get(&self, timestamp: u64, key: &Vec<u8>) -> (r: Option<&Vec<u8>>)
        requires
            old(self.cache).wf(),
        ensures
            match r {
                Some(v) => old(self.cache)@.dom().contains((timestamp, key@)) && v@ == old(
                    self.cache,
                )@[(timestamp, key@)],
                None => !old(self.cache)@.dom().contains((timestamp, key@)),
            },
    {
        self.cache.get(timestamp, key)
    }

    /// The key and value of every entry stored at exactly `timestamp`.
    pub fn get_all_for_time(&self, timestamp: u64) -> (r: Vec<(&Vec<u8>, &Vec<u8>)>)
        ensures
            pairs_view(r@) == at_time(old(self.cache).timeline(), timestamp),
    {
        self.cache.get_all_for_time(timestamp)
    }

    /// Every entry as event time, key and value, by event time.
    pub fn get_all(&self) -> (r: Vec<(u64, &Vec<u8>, &Vec<u8>)>)
        ensures
            r.len() == old(self.cache).timeline().len(),
            forall|i: int|
                0 <= i < r.len() ==> (#[trigger] r[i]).0 == old(
                    self.cache,
                ).timeline()[i].timestamp && r[i].1@ == old(self.cache).timeline()[i].key
                    && r[i].2@ == old(self.cache).timeline()[i].value,
    {
        self.cache.get_all()
    }

    /// Drops every entry timestamped before `watermark`.
    pub fn evict_before(&mut self, watermark: u64)
        requires
            old(self).cache.wf(),
        ensures
            final(self).table == old(self).table,
            *final(final(self).cache) == *final(old(self).cache),
            final(self).cache.wf(),
            final(self).cache@ == old(self).cache@.restrict(not_before(watermark)),
            final(self).cache.delta() == old(self).cache.delta(),
            final(self).cache.floor() == if watermark > old(self).cache.floor() {
                watermark
            } else {
                old(self).cache.floor()
            },
    {
        self.cache.evict_before(watermark);
    }
}

} // verus!
