use crate::backend::BackingStore;
use crate::bytes::copy_bytes;
use crate::operation::{delete_tuple, insert_tuple, log_view, DataTuple, TupleView};
use crate::replay::{by_key, net_push, net_step, replay};
use crate::tables::byte_map::ByteMap;
use vstd::prelude::*;

verus! {

/// The resident content of a keyed table: one value per key, last write wins.
pub struct KeyedStateCache {
    map: ByteMap,
    delta: Vec<DataTuple>,
}

impl View for KeyedStateCache {
    type V = Map<Seq<u8>, Seq<u8>>;

    closed spec fn view(&self) -> Map<Seq<u8>, Seq<u8>> {
        self.map@
    }
}

impl KeyedStateCache {
    /// No key is bound twice.
    pub closed spec fn wf(&self) -> bool {
        self.map.wf()
    }

    /// The net changes since the last flush: one tuple per changed key.
    pub closed spec fn delta(&self) -> Seq<TupleView> {
        log_view(self.delta@)
    }

    /// An empty table with nothing to flush.
    pub fn new() -> (c: KeyedStateCache)
        ensures
            c.wf(),
            c@ == Map::<Seq<u8>, Seq<u8>>::empty(),
            c.delta() == Seq::<TupleView>::empty(),
    {
        let c = KeyedStateCache { map: ByteMap::new(), delta: Vec::new() };
        assert(c.delta() =~= Seq::<TupleView>::empty());
        c
    }

    /// The table as a restore sees it: for every key the value of its last
    /// persisted tuple if that tuple is an insert, with nothing to flush.
    pub fn from_checkpoint<S: BackingStore>(backend: &S, table: char) -> (c: KeyedStateCache)
        requires
            backend.valid(),
        ensures
            c.wf(),
            c@ == replay(backend.live(table), by_key()),
            c.delta() == Seq::<TupleView>::empty(),
    {
        let pairs = backend.get_key_values(table);
        let c = KeyedStateCache { map: ByteMap::from_entries(pairs), delta: Vec::new() };
        assert(c.delta() =~= Seq::<TupleView>::empty());
        c
    }

    /// Binds `key` to `value` and records the change.
    pub fn insert(&mut self, timestamp: u64, key: Vec<u8>, value: Vec<u8>)
        requires
            old(self).wf(),
        ensures
            final(self).wf(),
            final(self)@ == old(self)@.insert(key@, value@),
            final(self).delta() == net_step(
                old(self).delta(),
                insert_tuple(timestamp, key@, value@),
                by_key(),
            ),
    {
        let change = DataTuple::insert(timestamp, copy_bytes(&key), copy_bytes(&value));
        net_push(&mut self.delta, change, false);
        self.map.insert(key, value);
    }

    /// The value bound to `key`, if any.
    pub fn get(&self, key: &Vec<u8>) -> (r: Option<&Vec<u8>>)
        requires
            self.wf(),
        ensures
            match r {
                Some(v) => self@.dom().contains(key@) && v@ == self@[key@],
                None => !self@.dom().contains(key@),
            },
    {
        self.map.get(key)
    }

    /// Unbinds `key` and records the deletion.
    pub fn remove(&mut self, key: &Vec<u8>)
        requires
            old(self).wf(),
        ensures
            final(self).wf(),
            final(self)@ == old(self)@.remove(key@),
            final(self).delta() == net_step(old(self).delta(), delete_tuple(0, key@), by_key()),
    {
        let change = DataTuple::delete_key(0, copy_bytes(key));
        net_push(&mut self.delta, change, false);
        let _ = self.map.remove(key);
    }

    /// Hands out the recorded changes and starts a new delta.
    pub fn take_delta(&mut self) -> (changes: Vec<DataTuple>)
        ensures
            log_view(changes@) == old(self).delta(),
            final(self).delta() == Seq::<TupleView>::empty(),
            final(self)@ == old(self)@,
            final(self).wf() == old(self).wf(),
    {
        let mut changes: Vec<DataTuple> = Vec::new();
        std::mem::swap(&mut changes, &mut self.delta);
        assert(self.delta() =~= Seq::<TupleView>::empty());
        changes
    }
}

/// A short-lived handle on a resident keyed table.
pub struct KeyedState<'a> {
    pub table: char,
    pub cache: &'a mut KeyedStateCache,
}

impl<'a> KeyedState<'a> {
    /// Binds `key` to `value` in memory; the change is flushed by the next
    /// checkpoint.
    pub fn insert(&mut self, timestamp: u64, key: Vec<u8>, value: Vec<u8>)
        requires
            old(self).cache.wf(),
        ensures
            final(self).table == old(self).table,
            *final(final(self).cache) == *final(old(self).cache),
            final(self).cache.wf(),
            final(self).cache@ == old(self).cache@.insert(key@, value@),
            final(self).cache.delta() == net_step(
                old(self).cache.delta(),
                insert_tuple(timestamp, key@, value@),
                by_key(),
            ),
    {
        self.cache.insert(timestamp, key, value);
    }

    /// The value bound to `key`, if any.
    pub fn get(&self, key: &Vec<u8>) -> (r: Option<&Vec<u8>>)
        requires
            old(self.cache).wf(),
        ensures
            match r {
                Some(v) => old(self.cache)@.dom().contains(key@) && v@ == old(self.cache)@[key@],
                None => !old(self.cache)@.dom().contains(key@),
            },
    {
        self.cache.get(key)
    }

    /// Unbinds `key` in memory; the deletion is flushed by the next checkpoint.
    pub fn remove(&mut self, key: &Vec<u8>)
        requires
            old(self).cache.wf(),
        ensures
            final(self).table == old(self).table,
            *final(final(self).cache) == *final(old(self).cache),
            final(self).cache.wf(),
            final(self).cache@ == old(self).cache@.remove(key@),
            final(self).cache.delta() == net_step(
                old(self).cache.delta(),
                delete_tuple(0, key@),
                by_key(),
            ),
    {
        self.cache.remove(key);
    }
}

} // verus!
