use crate::backend::BackingStore;
use crate::bytes::{copy_bytes, same_bytes};
use crate::operation::{insert_tuple, log_view, DataOperation, DataTuple, TupleView};
use crate::tables::timeline::{
    entries_view, entry_from, entry_of, lemma_place_sorted, lemma_rank, place, place_entry, rank,
    sorted, EntryView, TimedEntry,
};
use vstd::prelude::*;
use vstd::seq_lib::{to_multiset_build, to_multiset_insert};

verus! {

/// The effect of one persisted tuple on a multi-map: an insert places its
/// entry, anything else leaves the table as it is.
pub open spec fn multi_step(s: Seq<EntryView>, t: TupleView) -> Seq<EntryView> {
    match t.operation {
        DataOperation::Insert => place(s, entry_of(t)),
        DataOperation::DeleteKey => s,
    }
}

/// The multi-map that a log builds from nothing: every inserted entry,
/// ordered by event time and, among equal times, by position in the log.
pub open spec fn multi_replay(log: Seq<TupleView>) -> Seq<EntryView>
    decreases log.len(),
{
    if log.len() == 0 {
        Seq::empty()
    } else {
        multi_step(multi_replay(log.drop_last()), log.last())
    }
}

/// The values of `key` whose event time lies in the closed interval from
/// `start` to `end`, in the order of the list.
pub open spec fn in_range(s: Seq<EntryView>, key: Seq<u8>, start: u64, end: u64) -> Seq<Seq<u8>>
    decreases s.len(),
{
    if s.len() == 0 {
        Seq::empty()
    } else {
        let rest = in_range(s.drop_last(), key, start, end);
        let e = s.last();
        if e.key == key && start <= e.timestamp && e.timestamp <= end {
            rest.push(e.value)
        } else {
            rest
        }
    }
}

/// The byte strings that a list of borrowed values holds.
pub open spec fn values_view(values: Seq<&Vec<u8>>) -> Seq<Seq<u8>> {
    values.map_values(|v: &Vec<u8>| v@)
}

/// The entries that a log inserts, in log order.
pub open spec fn inserted(log: Seq<TupleView>) -> Seq<EntryView>
    decreases log.len(),
{
    if log.len() == 0 {
        Seq::empty()
    } else if log.last().operation == DataOperation::Insert {
        inserted(log.drop_last()).push(entry_of(log.last()))
    } else {
        inserted(log.drop_last())
    }
}

/// Round trip of a multi-map: a restore holds every persisted insert, each
/// as often as it was persisted, and nothing else.
pub proof fn lemma_multi_replay_complete(log: Seq<TupleView>)
    ensures
        multi_replay(log).to_multiset() == inserted(log).to_multiset(),
    decreases log.len(),
{
    if log.len() > 0 {
        lemma_multi_replay_complete(log.drop_last());
        if log.last().operation == DataOperation::Insert {
            let held = multi_replay(log.drop_last());
            let e = entry_of(log.last());
            lemma_rank(held, e.timestamp);
            to_multiset_insert(held, rank(held, e.timestamp), e);
            to_multiset_build(inserted(log.drop_last()), e);
        }
    }
}

/// A restore of a multi-map is ordered by event time.
pub proof fn lemma_multi_replay_sorted(log: Seq<TupleView>)
    ensures
        sorted(multi_replay(log)),
    decreases log.len(),
{
    if log.len() > 0 {
        lemma_multi_replay_sorted(log.drop_last());
        if log.last().operation == DataOperation::Insert {
            lemma_place_sorted(multi_replay(log.drop_last()), entry_of(log.last()));
        }
    }
}

/// The resident content of a key-time multi-map: any number of values per
/// key and event time, ordered by event time and then by arrival.
pub struct KeyTimeMultiMapCache {
    entries: Vec<TimedEntry>,
    delta: Vec<DataTuple>,
}

impl View for KeyTimeMultiMapCache {
    type V = Seq<EntryView>;

    closed spec fn view(&self) -> Seq<EntryView> {
        entries_view(self.entries@)
    }
}

impl KeyTimeMultiMapCache {
    /// The entries are ordered by event time.
    pub closed spec fn wf(&self) -> bool {
        sorted(entries_view(self.entries@))
    }

    /// The inserts since the last flush, in order of arrival.
    pub closed spec fn delta(&self) -> Seq<TupleView> {
        log_view(self.delta@)
    }

    /// A well-formed table is ordered by event time.
    pub proof fn lemma_sorted(&self)
        requires
            self.wf(),
        ensures
            sorted(self@),
    {
    }

    /// An empty table with nothing to flush.
    pub fn new() -> (c: KeyTimeMultiMapCache)
        ensures
            c.wf(),
            c@ == Seq::<EntryView>::empty(),
            c.delta() == Seq::<TupleView>::empty(),
    {
        let c = KeyTimeMultiMapCache { entries: Vec::new(), delta: Vec::new() };
        assert(c@ =~= Seq::<EntryView>::empty());
        assert(c.delta() =~= Seq::<TupleView>::empty());
        c
    }

    /// The table as a restore sees it: every persisted insert, with nothing
    /// to flush.
    pub fn from_checkpoint<S: BackingStore>(backend: &S, table: char) -> (c: KeyTimeMultiMapCache)
        requires
            backend.valid(),
        ensures
            c.wf(),
            c@ == multi_replay(backend.live(table)),
            c.delta() == Seq::<TupleView>::empty(),
    {
        let tuples = backend.get_data_tuples(table);
        let ghost log = log_view(tuples@);
        let mut entries: Vec<TimedEntry> = Vec::new();
        let mut i: usize = 0;
        assert(entries_view(entries@) =~= multi_replay(log.take(0)));
        while i < tuples.len()
            invariant
                i <= tuples.len(),
                log == log_view(tuples@),
                entries_view(entries@) == multi_replay(log.take(i as int)),
            decreases tuples.len() - i,
        {
            assert(log.take(i + 1).drop_last() =~= log.take(i as int));
            assert(log.take(i + 1).last() == tuples[i as int]@);
            match tuples[i].operation {
                DataOperation::Insert => {
                    place_entry(&mut entries, entry_from(&tuples[i]));
                },
                DataOperation::DeleteKey => {},
            }
            i += 1;
        }
        proof {
            assert(log.take(tuples.len() as int) =~= log);
            lemma_multi_replay_sorted(log);
        }
        let c = KeyTimeMultiMapCache { entries, delta: Vec::new() };
        assert(c.delta() =~= Seq::<TupleView>::empty());
        c
    }

    /// Adds a value for `key` at `timestamp` and records the insert.
    pub fn insert(&mut self, timestamp: u64, key: Vec<u8>, value: Vec<u8>)
        requires
            old(self).wf(),
        ensures
            final(self).wf(),
            final(self)@ == place(old(self)@, EntryView { timestamp, key: key@, value: value@ }),
            final(self).delta() == old(self).delta().push(insert_tuple(timestamp, key@, value@)),
    {
        let change = DataTuple::insert(timestamp, copy_bytes(&key), copy_bytes(&value));
        let ghost before = self.delta();
        self.delta.push(change);
        assert(self.delta() =~= before.push(change@));
        proof {
            lemma_place_sorted(self@, EntryView { timestamp, key: key@, value: value@ });
        }
        place_entry(&mut self.entries, TimedEntry { timestamp, key, value });
    }

    /// The values of `key` with an event time from `start` to `end`, both
    /// included, by event time and then by arrival.
    pub fn get_time_range(&self, key: &Vec<u8>, start: u64, end: u64) -> (r: Vec<&Vec<u8>>)
        ensures
            values_view(r@) == in_range(self@, key@, start, end),
    {
        let ghost s = self@;
        let mut r: Vec<&Vec<u8>> = Vec::new();
        let mut i: usize = 0;
        assert(values_view(r@) =~= in_range(s.take(0), key@, start, end));
        while i < self.entries.len()
            invariant
                i <= self.entries.len(),
                s == entries_view(self.entries@),
                values_view(r@) == in_range(s.take(i as int), key@, start, end),
            decreases self.entries.len() - i,
        {
            assert(s.take(i + 1).drop_last() =~= s.take(i as int));
            assert(s.take(i + 1).last() == self.entries[i as int]@);
            let e = &self.entries[i];
            if start <= e.timestamp && e.timestamp <= end && same_bytes(&e.key, key) {
                let ghost before = values_view(r@);
                r.push(&e.value);
                assert(values_view(r@) =~= before.push(e.value@));
            }
            i += 1;
        }
        assert(s.take(self.entries.len() as int) =~= s);
        r
    }

    /// Hands out the recorded inserts and starts a new delta.
    pub fn take_delta(&mut self) -> (changes: Vec<DataTuple>)
        ensures
            log_view(changes@) == old(self).delta(),
            final(self).delta() == Seq::<TupleView>::empty(),
            final(self)@ == old(self)@,
            final(self).wf() == old(self).wf(),
    {
        let mut changes: Vec<DataTuple> = Vec::new();
        std::mem::swap(&mut changes, &mut self.delta);
        assert(self.delta() =~= Seq::<TupleView>::empty());
        changes
    }
}

/// A short-lived handle on a resident key-time multi-map.
pub struct KeyTimeMultiMap<'a> {
    pub table: char,
    pub cache: &'a mut KeyTimeMultiMapCache,
}

impl<'a> KeyTimeMultiMap<'a> {
    /// Adds a value for `key` at `timestamp` in memory; the insert is flushed
    /// by the next checkpoint.
    pub fn insert(&mut self, timestamp: u64, key: Vec<u8>, value: Vec<u8>)
        requires
            old(self).cache.wf(),
        ensures
            final(self).table == old(self).table,
            *final(final(self).cache) == *final(old(self).cache),
            final(self).cache.wf(),
            final(self).cache@ == place(
                old(self).cache@,
                EntryView { timestamp, key: key@, value: value@ },
            ),
            final(self).cache.delta() == old(self).cache.delta().push(
                insert_tuple(timestamp, key@, value@),
            ),
    {
        self.cache.insert(timestamp, key, value);
    }

    /// The values of `key` with an event time from `start` to `end`, both
    /// included, by event time and then by arrival.
    pub fn get_time_range(&self, key: &Vec<u8>, start: u64, end: u64) -> (r: Vec<&Vec<u8>>)
        ensures
            values_view(r@) == in_range(old(self.cache)@, key@, start, end),
    {
        self.cache.get_time_range(key, start, end)
    }
}

} // verus!
