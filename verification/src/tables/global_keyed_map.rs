use crate::backend::BackingStore;
use crate::bytes::copy_bytes;
use crate::operation::{insert_tuple, log_view, DataTuple, TupleView};
use crate::replay::{by_key, net_push, net_step, replay};
use crate::tables::byte_map::ByteMap;
use vstd::prelude::*;

verus! {

/// The resident content of a global table: the local, complete replica of a keyed
/// map that all subtasks of an operator share.
pub struct GlobalKeyedStateCache {
    map: ByteMap,
    delta: Vec<DataTuple>,
}

impl View for GlobalKeyedStateCache {
    type V = Map<Seq<u8>, Seq<u8>>;

    closed spec fn view(&self) -> Map<Seq<u8>, Seq<u8>> {
        self.map@
    }
}

impl GlobalKeyedStateCache {
    /// No key is bound twice.
    pub closed spec fn wf(&self) -> bool {
        self.map.wf()
    }

    /// The net changes since the last flush: one tuple per changed key.
    pub closed spec fn delta(&self) -> Seq<TupleView> {
        log_view(self.delta@)
    }

    /// The keys in the order in which `get_all` walks them.
    pub closed spec fn keys(&self) -> Seq<Seq<u8>> {
        self.map.keys()
    }

    /// The walk order lists every key of the table exactly once.
    pub proof fn lemma_keys(&self)
        requires
            self.wf(),
        ensures
            self.keys().no_duplicates(),
            forall|k: Seq<u8>| self.keys().contains(k) <==> self@.dom().contains(k),
    {
        self.map.lemma_keys();
    }

    /// An empty table with nothing to flush.
    pub fn new() -> (c: GlobalKeyedStateCache)
        ensures
            c.wf(),
            c@ == Map::<Seq<u8>, Seq<u8>>::empty(),
            c.keys() == Seq::<Seq<u8>>::empty(),
            c.delta() == Seq::<TupleView>::empty(),
    {
        let c = GlobalKeyedStateCache { map: ByteMap::new(), delta: Vec::new() };
        assert(c.delta() =~= Seq::<TupleView>::empty());
        c
    }

    /// The table as a restore sees it, with nothing to flush.
    pub fn from_checkpoint<S: BackingStore>(backend: &S, table: char) -> (c: GlobalKeyedStateCache)
        requires
            backend.valid(),
        ensures
            c.wf(),
            c@ == replay(backend.live(table), by_key()),
            c.delta() == Seq::<TupleView>::empty(),
    {
        let pairs = backend.get_global_key_values(table);
        let c = GlobalKeyedStateCache { map: ByteMap::from_entries(pairs), delta: Vec::new() };
        assert(c.delta() =~= Seq::<TupleView>::empty());
        c
    }

    /// Binds `key` to `value` and records the change.
    pub fn insert(&mut self, key: Vec<u8>, value: Vec<u8>)
        requires
            old(self).wf(),
        ensures
            final(self).wf(),
            final(self)@ == old(self)@.insert(key@, value@),
            final(self).keys() == if old(self)@.dom().contains(key@) {
                old(self).keys()
            } else {
                old(self).keys().push(key@)
            },
            final(self).delta() == net_step(
                old(self).delta(),
                insert_tuple(0, key@, value@),
                by_key(),
            ),
    {
        let change = DataTuple::insert(0, copy_bytes(&key), copy_bytes(&value));
        net_push(&mut self.delta, change, false);
        self.map.insert(key, value);
    }

    /// The value bound to `key`, if any.
    pub fn get(&self, key: &Vec<u8>) -> (r: Option<&Vec<u8>>)
        requires
            self.wf(),
        ensures
            match r {
                Some(v) => self@.dom().contains(key@) && v@ == self@[key@],
                None => !self@.dom().contains(key@),
            },
    {
        self.map.get(key)
    }

    /// The value of every key, one per key, in walk order.
    pub fn get_all(&self) -> (r: Vec<&Vec<u8>>)
        requires
            self.wf(),
        ensures
            r.len() == self.keys().len(),
            forall|i: int| 0 <= i < r.len() ==> r[i]@ == self@[self.keys()[i]],
    {
        self.map.values()
    }

    /// Hands out the recorded changes and starts a new delta.
    pub fn take_delta(&mut self) -> (changes: Vec<DataTuple>)
        ensures
            log_view(changes@) == old(self).delta(),
            final(self).delta() == Seq::<TupleView>::empty(),
            final(self)@ == old(self)@,
            final(self).keys() == old(self).keys(),
            final(self).wf() == old(self).wf(),
    {
        let mut changes: Vec<DataTuple> = Vec::new();
        std::mem::swap(&mut changes, &mut self.delta);
        assert(self.delta() =~= Seq::<TupleView>::empty());
        changes
    }
}

/// A short-lived handle on a resident global table.
pub struct GlobalKeyedState<'a> {
    pub table: char,
    pub cache: &'a mut GlobalKeyedStateCache,
}

impl<'a> GlobalKeyedState<'a> {
    /// Binds `key` to `value` in memory; the change is flushed by the next
    /// checkpoint.
    pub fn insert(&mut self, key: Vec<u8>, value: Vec<u8>)
        requires
            old(self).cache.wf(),
        ensures
            final(self).table == old(self).table,
            *final(final(self).cache) == *final(old(self).cache),
            final(self).cache.wf(),
            final(self).cache@ == old(self).cache@.insert(key@, value@),
            final(self).cache.keys() == if old(self).cache@.dom().contains(key@) {
                old(self).cache.keys()
            } else {
                old(self).cache.keys().push(key@)
            },
            final(self).cache.delta() == net_step(
                old(self).cache.delta(),
                insert_tuple(0, key@, value@),
                by_key(),
            ),
    {
        self.cache.insert(key, value);
    }

    /// The value bound to `key`, if any.
    pub fn get(&self, key: &Vec<u8>) -> (r: Option<&Vec<u8>>)
        requires
            old(self.cache).wf(),
        ensures
            match r {
                Some(v) => old(self.cache)@.dom().contains(key@) && v@ == old(self.cache)@[key@],
                None => !old(self.cache)@.dom().contains(key@),
            },
    {
        self.cache.get(key)
    }

    /// The value of every key, one per key.
    pub fn get_all(&self) -> (r: Vec<&Vec<u8>>)
        requires
            old(self.cache).wf(),
        ensures
            r.len() == old(self.cache).keys().len(),
            forall|i: int|
                0 <= i < r.len() ==> r[i]@ == old(self.cache)@[old(self.cache).keys()[i]],
    {
        self.cache.get_all()
    }
}

} // verus!
