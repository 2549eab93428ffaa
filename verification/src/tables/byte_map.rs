use crate::bytes::same_bytes;
use crate::tables::assoc::{
    content, lemma_absent, lemma_insert, lemma_remove, lemma_slot, lemma_update, slot_of, unique,
};
use vstd::prelude::*;

verus! {

/// One binding of a key to a value.
#[derive(Debug)]
pub struct KeyValue {
    pub key: Vec<u8>,
    pub value: Vec<u8>,
}

/// A map from byte-string keys to byte-string values, held as a list of
/// bindings in which no key occurs twice.
#[derive(Debug)]
pub struct ByteMap {
    entries: Vec<KeyValue>,
}

/// The identity of a binding: its key.
pub open spec fn key_of() -> spec_fn(KeyValue) -> Seq<u8> {
    |e: KeyValue| e.key@
}

/// The payload of a binding: its value.
pub open spec fn value_of() -> spec_fn(KeyValue) -> Seq<u8> {
    |e: KeyValue| e.value@
}

impl View for ByteMap {
    type V = Map<Seq<u8>, Seq<u8>>;

    closed spec fn view(&self) -> Map<Seq<u8>, Seq<u8>> {
        content(self.entries@, key_of(), value_of())
    }
}

impl ByteMap {
    /// No key is bound twice.
    pub closed spec fn wf(&self) -> bool {
        unique(self.entries@, key_of())
    }

    /// The keys in storage order.
    pub closed spec fn keys(&self) -> Seq<Seq<u8>> {
        self.entries@.map_values(|e: KeyValue| e.key@)
    }

    /// The storage order lists every key of the map exactly once.
    pub proof fn lemma_keys(&self)
        requires
            self.wf(),
        ensures
            self.keys().no_duplicates(),
            forall|k: Seq<u8>| self.keys().contains(k) <==> self@.dom().contains(k),
    {
        let keys = self.keys();
        assert forall|i: int, j: int| 0 <= i < keys.len() && 0 <= j < keys.len() && i != j implies keys[i]
            != keys[j] by {
            if i < j {
                assert(self.entries@[i].key@ != self.entries@[j].key@);
            } else {
                assert(self.entries@[j].key@ != self.entries@[i].key@);
            }
        }
        assert forall|k: Seq<u8>| keys.contains(k) <==> self@.dom().contains(k) by {
            if keys.contains(k) {
                let i = choose|i: int| 0 <= i < keys.len() && keys[i] == k;
                lemma_slot(self.entries@, key_of(), value_of(), i);
            }
            if self@.dom().contains(k) {
                let j = slot_of(self.entries@, key_of(), k);
                assert(keys[j] == k);
            }
        }
    }

    /// The empty map.
    pub fn new() -> (m: ByteMap)
        ensures
            m.wf(),
            m@ == Map::<Seq<u8>, Seq<u8>>::empty(),
            m.keys() == Seq::<Seq<u8>>::empty(),
    {
        let m = ByteMap { entries: Vec::new() };
        assert(m@ =~= Map::<Seq<u8>, Seq<u8>>::empty());
        assert(m.keys() =~= Seq::<Seq<u8>>::empty());
        m
    }

    /// The map that a list of bindings without repeated keys stands for.
    pub fn from_entries(entries: Vec<KeyValue>) -> (m: ByteMap)
        requires
            unique(entries@, key_of()),
        ensures
            m.wf(),
            m@ == content(entries@, key_of(), value_of()),
    {
        ByteMap { entries }
    }

    /// The bindings themselves: one per key, in storage order.
    pub fn into_entries(self) -> (entries: Vec<KeyValue>)
        requires
            self.wf(),
        ensures
            unique(entries@, key_of()),
            content(entries@, key_of(), value_of()) == self@,
    {
        self.entries
    }

    /// The number of bindings.
    pub fn len(&self) -> (n: usize)
        ensures
            n == self.keys().len(),
    {
        self.entries.len()
    }

    fn position(&self, key: &Vec<u8>) -> (r: Option<usize>)
        ensures
            match r {
                Some(i) => i < self.entries.len() && self.entries[i as int].key@ == key@,
                None => forall|i: int|
                    0 <= i < self.entries.len() ==> self.entries[i].key@ != key@,
            },
    {
        let mut i: usize = 0;
        while i < self.entries.len()
            invariant
                i <= self.entries.len(),
                forall|j: int| 0 <= j < i ==> self.entries[j].key@ != key@,
            decreases self.entries.len() - i,
        {
            if same_bytes(&self.entries[i].key, key) {
                return Some(i);
            }
            i += 1;
        }
        None
    }

    /// The value bound to `key`, if any.
    pub fn get(&self, key: &Vec<u8>) -> (r: Option<&Vec<u8>>)
        requires
            self.wf(),
        ensures
            match r {
                Some(v) => self@.dom().contains(key@) && v@ == self@[key@],
                None => !self@.dom().contains(key@),
            },
    {
        match self.position(key) {
            Some(i) => {
                proof {
                    lemma_slot(self.entries@, key_of(), value_of(), i as int);
                }
                Some(&self.entries[i].value)
            },
            None => {
                proof {
                    lemma_absent(self.entries@, key_of(), value_of(), key@);
                }
                None
            },
        }
    }

    /// Binds `key` to `value`, replacing an earlier binding in place.
    pub fn insert(&mut self, key: Vec<u8>, value: Vec<u8>)
        requires
            old(self).wf(),
        ensures
            final(self).wf(),
            final(self)@ == old(self)@.insert(key@, value@),
            final(self).keys() == if old(self)@.dom().contains(key@) {
                old(self).keys()
            } else {
                old(self).keys().push(key@)
            },
    {
        let ghost before = self.entries@;
        match self.position(&key) {
            Some(i) => {
                let kv = KeyValue { key, value };
                proof {
                    lemma_slot(before, key_of(), value_of(), i as int);
                    lemma_update(before, key_of(), value_of(), i as int, kv);
                }
                self.entries[i] = kv;
                assert(self.entries@ =~= before.update(i as int, kv));
                assert(self.keys() =~= old(self).keys());
            },
            None => {
                let kv = KeyValue { key, value };
                proof {
                    lemma_absent(before, key_of(), value_of(), kv.key@);
                    lemma_insert(before, key_of(), value_of(), before.len() as int, kv);
                    assert(before.insert(before.len() as int, kv) =~= before.push(kv));
                }
                self.entries.push(kv);
                assert(self.keys() =~= old(self).keys().push(kv.key@));
            },
        }
    }

    /// Removes the binding of `key` and returns its value, if there was one.
    pub fn remove(&mut self, key: &Vec<u8>) -> (r: Option<Vec<u8>>)
        requires
            old(self).wf(),
        ensures
            final(self).wf(),
            final(self)@ == old(self)@.remove(key@),
            match r {
                Some(v) => old(self)@.dom().contains(key@) && v@ == old(self)@[key@],
                None => !old(self)@.dom().contains(key@),
            },
    {
        let ghost before = self.entries@;
        match self.position(key) {
            Some(i) => {
                proof {
                    lemma_slot(before, key_of(), value_of(), i as int);
                    lemma_remove(before, key_of(), value_of(), i as int);
                }
                let kv = self.entries.remove(i);
                Some(kv.value)
            },
            None => {
                proof {
                    lemma_absent(before, key_of(), value_of(), key@);
                    assert(self@ =~= self@.remove(key@));
                }
                None
            },
        }
    }

    /// Every value, in the storage order of the keys.
    pub fn values(&self) -> (r: Vec<&Vec<u8>>)
        requires
            self.wf(),
        ensures
            r.len() == self.keys().len(),
            forall|i: int| 0 <= i < r.len() ==> r[i]@ == self@[self.keys()[i]],
    {
        let mut r: Vec<&Vec<u8>> = Vec::with_capacity(self.entries.len());
        let mut i: usize = 0;
        while i < self.entries.len()
            invariant
                self.wf(),
                i <= self.entries.len(),
                r.len() == i,
                forall|j: int| 0 <= j < i ==> r[j]@ == self@[self.keys()[j]],
            decreases self.entries.len() - i,
        {
            proof {
                lemma_slot(self.entries@, key_of(), value_of(), i as int);
            }
            r.push(&self.entries[i].value);
            i += 1;
        }
        r
    }
}

} // verus!
