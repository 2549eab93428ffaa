use crate::backend::BackingStore;
use crate::descriptor::TableDescriptor;
use crate::error::{StateError, TableType, TypeTag};
use crate::metadata::{CheckpointBarrier, CheckpointMetadata, CompactionResult, TaskInfo};
use crate::operation::{
    delete_tuple, insert_tuple, log_view, DataOperation, DataTuple, TupleView,
};
use crate::replay::{by_key, by_time_and_key, replay};
use crate::tables::assoc::{
    content, holds, lemma_absent, lemma_insert, lemma_slot, lemma_update, slot_of, unique,
};
use crate::tables::global_keyed_map::{GlobalKeyedState, GlobalKeyedStateCache};
use crate::tables::key_time_multi_map::{multi_replay, KeyTimeMultiMap, KeyTimeMultiMapCache};
use crate::tables::keyed_map::{KeyedState, KeyedStateCache};
use crate::tables::time_key_map::{recent, TimeKeyMap, TimeKeyMapCache};
use crate::tables::timeline::EntryView;
use vstd::prelude::*;

verus! {

/// The resident content of one table, of one of the four kinds.
pub enum TableCache {
    Global(GlobalKeyedStateCache),
    TimeKey(TimeKeyMapCache),
    KeyTimeMulti(KeyTimeMultiMapCache),
    Keyed(KeyedStateCache),
}

impl TableCache {
    /// The kind of table this cache holds.
    pub open spec fn kind(&self) -> TableType {
        match self {
            TableCache::Global(_) => TableType::Global,
            TableCache::TimeKey(_) => TableType::TimeKeyMap,
            TableCache::KeyTimeMulti(_) => TableType::KeyTimeMultiMap,
            TableCache::Keyed(_) => TableType::Keyed,
        }
    }

    /// The cache within is well-formed.
    pub open spec fn wf(&self) -> bool {
        match self {
            TableCache::Global(c) => c.wf(),
            TableCache::TimeKey(c) => c.wf(),
            TableCache::KeyTimeMulti(c) => c.wf(),
            TableCache::Keyed(c) => c.wf(),
        }
    }

    /// The changes recorded since the last flush.
    pub open spec fn delta(&self) -> Seq<TupleView> {
        match self {
            TableCache::Global(c) => c.delta(),
            TableCache::TimeKey(c) => c.delta(),
            TableCache::KeyTimeMulti(c) => c.delta(),
            TableCache::Keyed(c) => c.delta(),
        }
    }

    /// Both caches are of one kind and hold the same entries in the same order.
    pub open spec fn same_content(&self, other: &TableCache) -> bool {
        match (*self, *other) {
            (TableCache::Global(a), TableCache::Global(b)) => a@ == b@ && a.keys() == b.keys(),
            (TableCache::TimeKey(a), TableCache::TimeKey(b)) => a@ == b@ && a.timeline()
                == b.timeline() && a.floor() == b.floor(),
            (TableCache::KeyTimeMulti(a), TableCache::KeyTimeMulti(b)) => a@ == b@,
            (TableCache::Keyed(a), TableCache::Keyed(b)) => a@ == b@,
            _ => false,
        }
    }

    /// Both caches are of one kind and hold the same entries.
    pub open spec fn same_entries(&self, other: &TableCache) -> bool {
        match (*self, *other) {
            (TableCache::Global(a), TableCache::Global(b)) => a@ == b@,
            (TableCache::TimeKey(a), TableCache::TimeKey(b)) => a@ == b@,
            (TableCache::KeyTimeMulti(a), TableCache::KeyTimeMulti(b)) => a@ == b@,
            (TableCache::Keyed(a), TableCache::Keyed(b)) => a@ == b@,
            _ => false,
        }
    }

    /// This cache holds what a restoring store hydrates `table` with: the
    /// content that the backend's live log builds, for a time-key map
    /// without the tuples that expired before the watermark.
    pub open spec fn hydrated_from<S: BackingStore>(
        &self,
        backend: S,
        table: char,
        descriptor: TableDescriptor,
        watermark: Option<u64>,
    ) -> bool {
        match self {
            TableCache::Global(c) => c@ == replay(backend.live(table), by_key()),
            TableCache::Keyed(c) => c@ == replay(backend.live(table), by_key()),
            TableCache::TimeKey(c) => c@ == replay(
                recent(backend.live(table), descriptor.min_valid_time_of(watermark)),
                by_time_and_key(),
            ),
            TableCache::KeyTimeMulti(c) => c@ == multi_replay(backend.live(table)),
        }
    }

    /// The kind of this cache.
    pub fn kind_of(&self) -> (k: TableType)
        ensures
            k == self.kind(),
    {
        match self {
            TableCache::Global(_) => TableType::Global,
            TableCache::TimeKey(_) => TableType::TimeKeyMap,
            TableCache::KeyTimeMulti(_) => TableType::KeyTimeMultiMap,
            TableCache::Keyed(_) => TableType::Keyed,
        }
    }

    /// Hands out the recorded changes and starts a new delta.
    pub fn take_delta(&mut self) -> (changes: Vec<DataTuple>)
        ensures
            log_view(changes@) == old(self).delta(),
            final(self).delta() == Seq::<TupleView>::empty(),
            final(self).same_content(old(self)),
            final(self).wf() == old(self).wf(),
    {
        match self {
            TableCache::Global(c) => c.take_delta(),
            TableCache::TimeKey(c) => c.take_delta(),
            TableCache::KeyTimeMulti(c) => c.take_delta(),
            TableCache::Keyed(c) => c.take_delta(),
        }
    }
}

/// One entry of the registry: a table id, the type pair it was first
/// requested with, and its resident cache.
pub struct CacheSlot {
    pub table: char,
    pub types: TypeTag,
    pub cache: TableCache,
}

/// The identity of a registry entry: its table id.
pub open spec fn table_of() -> spec_fn(CacheSlot) -> char {
    |s: CacheSlot| s.table
}

/// The identity of a descriptor: its table id, if its name gives one.
pub open spec fn descriptor_id() -> spec_fn(TableDescriptor) -> Option<char> {
    |d: TableDescriptor| d.id_of()
}

/// Every descriptor has a table id, and no two share one.
pub open spec fn descriptors_valid(tables: Seq<TableDescriptor>) -> bool {
    &&& forall|i: int| 0 <= i < tables.len() ==> (#[trigger] tables[i]).id_of() is Some
    &&& unique(tables, descriptor_id())
}

/// Whether every descriptor has a table id and no two share one.
pub fn tables_valid(tables: &Vec<TableDescriptor>) -> (r: bool)
    ensures
        r == descriptors_valid(tables@),
{
    let mut i: usize = 0;
    while i < tables.len()
        invariant
            i <= tables.len(),
            descriptors_valid(tables@.take(i as int)),
        decreases tables.len() - i,
    {
        let id = tables[i].table_id();
        if id.is_none() {
            return false;
        }
        let mut j: usize = 0;
        while j < i
            invariant
                j <= i < tables.len(),
                id == tables[i as int].id_of(),
                forall|k: int| 0 <= k < j ==> (#[trigger] tables[k]).id_of() != id,
            decreases i - j,
        {
            if tables[j].table_id() == id {
                assert(descriptor_id()(tables@[j as int]) == descriptor_id()(tables@[i as int]));
                return false;
            }
            j += 1;
        }
        proof {
            let init = tables@.take(i as int);
            let next = tables@.take(i + 1);
            assert forall|a: int, b: int| 0 <= a < b < next.len() implies descriptor_id()(
                #[trigger] next[a],
            ) != descriptor_id()(#[trigger] next[b]) by {
                if b < i {
                    assert(descriptor_id()(init[a]) != descriptor_id()(init[b]));
                } else {
                    assert(tables[a].id_of() != id);
                }
            }
            assert forall|a: int| 0 <= a < next.len() implies (#[trigger] next[a]).id_of()
                is Some by {
                if a < i {
                    assert(init[a].id_of() is Some);
                }
            }
        }
        i += 1;
    }
    assert(tables@.take(tables.len() as int) =~= tables@);
    true
}

/// The form in which a recorded change is handed to the backend: a global
/// table's changes carry no event time.
pub open spec fn persisted(t: TupleView, kind: TableType) -> TupleView {
    let timestamp = if kind == TableType::Global {
        0u64
    } else {
        t.timestamp
    };
    match t.operation {
        DataOperation::Insert => insert_tuple(timestamp, t.key, t.value),
        DataOperation::DeleteKey => delete_tuple(timestamp, t.key),
    }
}

/// The changes of a delta that a checkpoint at `watermark` writes: all of
/// them, but for a declared time-key map that forbids writes before the
/// watermark, where changes timestamped before it are left out.
pub open spec fn written(
    delta: Seq<TupleView>,
    kind: TableType,
    rule: Option<&TableDescriptor>,
    watermark: Option<u64>,
) -> Seq<TupleView>
    decreases delta.len(),
{
    if delta.len() == 0 {
        Seq::empty()
    } else {
        let rest = written(delta.drop_last(), kind, rule, watermark);
        let t = delta.last();
        if rule matches Some(d) && kind == TableType::TimeKeyMap && !d.writes_of(
            t.timestamp,
            watermark,
        ) {
            rest
        } else {
            rest.push(persisted(t, kind))
        }
    }
}

/// Stages the changes of one table that a checkpoint at `watermark` writes.
pub fn flush_changes<S: BackingStore>(
    backend: &mut S,
    table: char,
    kind: TableType,
    rule: Option<&TableDescriptor>,
    watermark: Option<u64>,
    changes: &Vec<DataTuple>,
)
    requires
        old(backend).valid(),
    ensures
        final(backend).valid(),
        final(backend).staged(table) == old(backend).staged(table) + written(
            log_view(changes@),
            kind,
            rule,
            watermark,
        ),
        forall|t: char| t != table ==> #[trigger] final(backend).staged(t) == old(backend).staged(t),
        forall|t: char| #[trigger] final(backend).live(t) == old(backend).live(t),
        forall|t: char, e: u32| #[trigger]
            final(backend).live_as_of(t, e) == old(backend).live_as_of(t, e),
{
    let ghost log = log_view(changes@);
    let ghost start = backend.staged(table);
    let mut i: usize = 0;
    assert(start + written(log.take(0), kind, rule, watermark) =~= start);
    while i < changes.len()
        invariant
            i <= changes.len(),
            log == log_view(changes@),
            backend.valid(),
            start == old(backend).staged(table),
            backend.staged(table) == start + written(log.take(i as int), kind, rule, watermark),
            forall|t: char| t != table ==> #[trigger] backend.staged(t) == old(backend).staged(t),
            forall|t: char| #[trigger] backend.live(t) == old(backend).live(t),
            forall|t: char, e: u32| #[trigger]
                backend.live_as_of(t, e) == old(backend).live_as_of(t, e),
        decreases changes.len() - i,
    {
        assert(log.take(i + 1).drop_last() =~= log.take(i as int));
        assert(log.take(i + 1).last() == changes[i as int]@);
        let ghost done = written(log.take(i as int), kind, rule, watermark);
        let t = &changes[i];
        let skip = match (kind, rule) {
            (TableType::TimeKeyMap, Some(d)) => !d.writes(t.timestamp, watermark),
            _ => false,
        };
        if !skip {
            match (kind, t.operation) {
                (TableType::Global, DataOperation::Insert) => {
                    backend.write_key_value(table, &t.key, &t.value);
                },
                (TableType::Global, DataOperation::DeleteKey) => {
                    backend.delete_key_value(table, &t.key);
                },
                (_, DataOperation::Insert) => {
                    backend.write_data_tuple(table, kind, t.timestamp, &t.key, &t.value);
                },
                (_, DataOperation::DeleteKey) => {
                    backend.delete_data_tuple(table, kind, t.timestamp, &t.key);
                },
            }
            assert(backend.staged(table) =~= start + done.push(persisted(t@, kind)));
        }
        i += 1;
    }
    assert(log.take(changes.len() as int) =~= log);
}

/// The registry entry itself, as the payload of a lookup by table id.
pub open spec fn whole_slot() -> spec_fn(CacheSlot) -> CacheSlot {
    |s: CacheSlot| s
}

/// In `after`, the table of `slot` is found under `slot`, and every other
/// table is found as it is in `before`.
pub open spec fn bound(after: Seq<CacheSlot>, before: Seq<CacheSlot>, slot: CacheSlot) -> bool {
    &&& holds(after, table_of(), slot.table)
    &&& after[slot_of(after, table_of(), slot.table)] == slot
    &&& forall|t: char|
        t != slot.table ==> (#[trigger] holds(after, table_of(), t)) == holds(
            before,
            table_of(),
            t,
        ) && (holds(before, table_of(), t) ==> after[slot_of(after, table_of(), t)]
            == before[slot_of(before, table_of(), t)])
}

/// Binding a table in the registry makes it resident under the bound
/// cache and leaves every other table as it was.
pub proof fn lemma_bound(slots: Seq<CacheSlot>, slot: CacheSlot)
    requires
        unique(slots, table_of()),
    ensures
        bound(
            if holds(slots, table_of(), slot.table) {
                slots.update(slot_of(slots, table_of(), slot.table), slot)
            } else {
                slots.push(slot)
            },
            slots,
            slot,
        ),
{
    let table = slot.table;
    let before = content(slots, table_of(), whole_slot());
    if holds(slots, table_of(), table) {
        let i = slot_of(slots, table_of(), table);
        assert(table_of()(slots[i]) == table);
        lemma_update(slots, table_of(), whole_slot(), i, slot);
        let after = slots.update(i, slot);
        let now = content(after, table_of(), whole_slot());
        assert(now.dom().contains(table));
        assert(now[table] == slot);
        assert forall|t: char| t != table implies (#[trigger] holds(after, table_of(), t)) == holds(
            slots,
            table_of(),
            t,
        ) && (holds(slots, table_of(), t) ==> after[slot_of(after, table_of(), t)]
            == slots[slot_of(slots, table_of(), t)]) by {
            assert(now.dom().contains(t) == before.dom().contains(t));
            if before.dom().contains(t) {
                assert(now[t] == before[t]);
            }
        }
    } else {
        lemma_insert(slots, table_of(), whole_slot(), slots.len() as int, slot);
        assert(slots.insert(slots.len() as int, slot) =~= slots.push(slot));
        let after = slots.push(slot);
        let now = content(after, table_of(), whole_slot());
        assert(now.dom().contains(table));
        assert(now[table] == slot);
        assert forall|t: char| t != table implies (#[trigger] holds(after, table_of(), t)) == holds(
            slots,
            table_of(),
            t,
        ) && (holds(slots, table_of(), t) ==> after[slot_of(after, table_of(), t)]
            == slots[slot_of(slots, table_of(), t)]) by {
            assert(now.dom().contains(t) == before.dom().contains(t));
            if before.dom().contains(t) {
                assert(now[t] == before[t]);
            }
        }
    }
}

/// Restore idempotence: what a table is hydrated with is decided by the
/// backend's live log alone, so two hydrations of one table from one
/// restore point hold the same content.
pub proof fn lemma_restore_idempotent<S: BackingStore>(
    backend: S,
    table: char,
    descriptor: TableDescriptor,
    watermark: Option<u64>,
    first: TableCache,
    second: TableCache,
)
    requires
        first.hydrated_from(backend, table, descriptor, watermark),
        second.hydrated_from(backend, table, descriptor, watermark),
        first.kind() == second.kind(),
    ensures
        first.same_entries(&second),
{
}

/// The per-task owner of a backend and of the caches of its tables.
pub struct StateStore<S: BackingStore> {
    backend: S,
    restore_from: Option<CheckpointMetadata>,
    task_info: TaskInfo,
    table_descriptors: Vec<TableDescriptor>,
    caches: Vec<CacheSlot>,
}

impl<S: BackingStore> StateStore<S> {
    /// The registry of resident caches, in order of first access.
    pub closed spec fn slots(&self) -> Seq<CacheSlot> {
        self.caches@
    }

    /// The backend this store writes to and restores from.
    pub closed spec fn backend_view(&self) -> S {
        self.backend
    }

    /// The checkpoint this store restores from, if it was built from one.
    pub closed spec fn restore_point(&self) -> Option<CheckpointMetadata> {
        self.restore_from
    }

    /// The tables this operator declared.
    pub closed spec fn descriptors(&self) -> Seq<TableDescriptor> {
        self.table_descriptors@
    }

    /// The task this store belongs to.
    pub closed spec fn task(&self) -> TaskInfo {
        self.task_info
    }

    /// Whether tables are hydrated from a checkpoint on first access.
    pub open spec fn restoring(&self) -> bool {
        self.restore_point() is Some
    }

    /// Whether a cache for `table` has been materialised.
    pub open spec fn resident(&self, table: char) -> bool {
        holds(self.slots(), table_of(), table)
    }

    /// The registry position of a resident table.
    pub open spec fn index(&self, table: char) -> int {
        slot_of(self.slots(), table_of(), table)
    }

    /// Whether `table` was declared.
    pub open spec fn declared(&self, table: char) -> bool {
        holds(self.descriptors(), descriptor_id(), Some(table))
    }

    /// The descriptor of a declared table.
    pub open spec fn descriptor(&self, table: char) -> TableDescriptor {
        self.descriptors()[slot_of(self.descriptors(), descriptor_id(), Some(table))]
    }

    /// Whether a request for `table` as `kind` with `types` contradicts the
    /// cache that is resident under that id.
    pub open spec fn conflict(&self, table: char, kind: TableType, types: TypeTag) -> bool {
        self.resident(table) && (self.slots()[self.index(table)].cache.kind() != kind
            || self.slots()[self.index(table)].types != types)
    }

    /// The write rule of a table: its descriptor if it was declared.
    pub open spec fn rule(&self, table: char) -> Option<&TableDescriptor> {
        if self.declared(table) {
            Some(&self.descriptor(table))
        } else {
            None
        }
    }

    /// The changes to `table` that a checkpoint at `watermark` would flush.
    pub open spec fn pending(&self, table: char, watermark: Option<u64>) -> Seq<TupleView> {
        if self.resident(table) {
            written(
                self.slots()[self.index(table)].cache.delta(),
                self.slots()[self.index(table)].cache.kind(),
                self.rule(table),
                watermark,
            )
        } else {
            Seq::empty()
        }
    }

    /// This store is what a checkpoint of `epoch` at `watermark` makes of
    /// `before`: the same tables with the same content and nothing left to
    /// flush, and a backend whose log of every table grew by what was staged
    /// and by the table's pending changes, for a restore from `epoch` or
    /// later and for no restore from an earlier one.
    pub open spec fn is_flush_of(&self, before: &Self, epoch: u32, watermark: Option<u64>) -> bool {
        &&& self.restore_point() == before.restore_point()
        &&& self.descriptors() == before.descriptors()
        &&& self.slots().len() == before.slots().len()
        &&& forall|i: int|
            0 <= i < before.slots().len() ==> {
                &&& (#[trigger] self.slots()[i]).table == before.slots()[i].table
                &&& self.slots()[i].types == before.slots()[i].types
                &&& self.slots()[i].cache.same_content(&before.slots()[i].cache)
                &&& self.slots()[i].cache.delta() == Seq::<TupleView>::empty()
            }
        &&& forall|t: char| #[trigger] self.backend_view().staged(t) == Seq::<TupleView>::empty()
        &&& forall|t: char| #[trigger]
            self.backend_view().live(t) == before.backend_view().live(t)
                + before.backend_view().staged(t) + before.pending(t, watermark)
        &&& forall|t: char, e: u32| #[trigger]
            self.backend_view().live_as_of(t, e) == before.backend_view().live_as_of(t, e)
                + if epoch <= e {
                before.backend_view().staged(t) + before.pending(t, watermark)
            } else {
                Seq::<TupleView>::empty()
            }
    }

    /// Binding `table` to `cache` makes it resident under that cache and
    /// leaves every other table as it is.
    pub open spec fn rebinds(&self, table: char, types: TypeTag, cache: TableCache) -> bool {
        bound(
            self.with_cache(table, types, cache),
            self.slots(),
            CacheSlot { table, types, cache },
        )
    }

    /// The registry after `table` is bound to `cache`: in place if it was
    /// resident, at the end if it was not.
    pub open spec fn with_cache(&self, table: char, types: TypeTag, cache: TableCache) -> Seq<
        CacheSlot,
    > {
        if self.resident(table) {
            self.slots().update(self.index(table), CacheSlot { table, types, cache })
        } else {
            self.slots().push(CacheSlot { table, types, cache })
        }
    }

    /// The backend is consistent, no table id is bound twice, every cache is
    /// well-formed and the declared tables are valid.
    pub open spec fn wf(&self) -> bool {
        &&& self.backend_view().valid()
        &&& unique(self.slots(), table_of())
        &&& forall|i: int| 0 <= i < self.slots().len() ==> (#[trigger] self.slots()[i]).cache.wf()
        &&& descriptors_valid(self.descriptors())
    }

    /// A store for a task that starts without prior state: no cache is
    /// resident and every table starts empty.
    pub fn new(task_info: &TaskInfo, tables: Vec<TableDescriptor>, backend: S) -> (store: Self)
        requires
            backend.valid(),
            descriptors_valid(tables@),
        ensures
            store.wf(),
            store.slots() == Seq::<CacheSlot>::empty(),
            store.restore_point() is None,
            store.backend_view() == backend,
            store.descriptors() == tables@,
            store.task() == *task_info,
    {
        StateStore {
            backend,
            restore_from: None,
            task_info: task_info.duplicate(),
            table_descriptors: tables,
            caches: Vec::new(),
        }
    }

    /// A store for a task that resumes from a checkpoint: no cache is
    /// resident yet, and each table is hydrated when it is first accessed.
    pub fn from_checkpoint(
        task_info: &TaskInfo,
        checkpoint_metadata: CheckpointMetadata,
        tables: Vec<TableDescriptor>,
        backend: S,
    ) -> (store: Self)
        requires
            backend.valid(),
            descriptors_valid(tables@),
        ensures
            store.wf(),
            store.slots() == Seq::<CacheSlot>::empty(),
            store.restore_point() == Some(checkpoint_metadata),
            store.backend_view() == backend,
            store.descriptors() == tables@,
            store.task() == *task_info,
    {
        StateStore {
            backend,
            restore_from: Some(checkpoint_metadata),
            task_info: task_info.duplicate(),
            table_descriptors: tables,
            caches: Vec::new(),
        }
    }

    /// Watermarks are acted on by the tables themselves; the store has
    /// nothing to do.
    pub fn handle_watermark(&mut self, watermark: u64)
        ensures
            *final(self) == *old(self),
    {
    }

    /// The backend of this store.
    pub fn backend(&self) -> (b: &S)
        ensures
            *b == self.backend_view(),
    {
        &self.backend
    }

    /// The backend of this store, to work on directly. The store stays
    /// well-formed as long as the backend is left consistent.
    pub fn backend_mut(&mut self) -> (b: &mut S)
        ensures
            *b == old(self).backend_view(),
            final(self).backend_view() == *final(b),
            final(self).slots() == old(self).slots(),
            final(self).restore_point() == old(self).restore_point(),
            final(self).descriptors() == old(self).descriptors(),
    {
        &mut self.backend
    }

    /// The task this store belongs to.
    pub fn task_info(&self) -> (info: &TaskInfo)
        ensures
            *info == self.task(),
    {
        &self.task_info
    }

    fn locate(&self, table: char, kind: TableType, types: TypeTag) -> (r: Result<
        Option<usize>,
        StateError,
    >)
        requires
            self.wf(),
        ensures
            r is Err <==> self.conflict(table, kind, types),
            match r {
                Ok(Some(i)) => self.resident(table) && i == self.index(table) && i
                    < self.slots().len(),
                Ok(None) => !self.resident(table),
                Err(e) => e == (StateError::TypeMismatch { table }),
            },
    {
        let mut i: usize = 0;
        while i < self.caches.len()
            invariant
                self.wf(),
                i <= self.caches.len(),
                forall|j: int| 0 <= j < i ==> table_of()(#[trigger] self.caches[j]) != table,
            decreases self.caches.len() - i,
        {
            if self.caches[i].table == table {
                proof {
                    lemma_slot(self.slots(), table_of(), table_of(), i as int);
                }
                if self.caches[i].cache.kind_of() == kind && self.caches[i].types == types {
                    return Ok(Some(i));
                } else {
                    return Err(StateError::TypeMismatch { table });
                }
            }
            i += 1;
        }
        proof {
            lemma_absent(self.slots(), table_of(), table_of(), table);
        }
        Ok(None)
    }

    /// A handle on the keyed table `table`, materialising it on first access:
    /// from the checkpoint if this store restores from one, empty otherwise.
    /// Fails, changing nothing, if the id is already bound to another kind
    /// of table or to another type pair.
    pub fn get_key_state(&mut self, table: char, types: TypeTag) -> (r: Result<
        KeyedState<'_>,
        StateError,
    >)
        requires
            old(self).wf(),
        ensures
            r is Err <==> old(self).conflict(table, TableType::Keyed, types),
            final(self).backend_view() == old(self).backend_view(),
            final(self).restore_point() == old(self).restore_point(),
            final(self).descriptors() == old(self).descriptors(),
            match r {
                Ok(v) => {
                    &&& v.table == table
                    &&& v.cache.wf()
                    &&& final(v.cache).wf() ==> final(self).wf()
                    &&& final(self).slots() == old(self).with_cache(
                        table,
                        types,
                        TableCache::Keyed(*final(v.cache)),
                    )
                    &&& old(self).rebinds(table, types, TableCache::Keyed(*final(v.cache)))
                    &&& if old(self).resident(table) {
                        old(self).slots()[old(self).index(table)].cache == TableCache::Keyed(
                            *v.cache,
                        )
                    } else {
                        &&& v.cache.delta() == Seq::<TupleView>::empty()
                        &&& v.cache@ == if old(self).restoring() {
                            replay(old(self).backend_view().live(table), by_key())
                        } else {
                            Map::empty()
                        }
                    }
                },
                Err(e) => e == (StateError::TypeMismatch { table }) && final(self).slots() == old(
                    self,
                ).slots(),
            },
    {
        let at = match self.locate(table, TableType::Keyed, types) {
            Ok(Some(i)) => i,
            Ok(None) => {
                let cache = match &self.restore_from {
                    Some(_) => KeyedStateCache::from_checkpoint(&self.backend, table),
                    None => KeyedStateCache::new(),
                };
                self.caches.push(CacheSlot { table, types, cache: TableCache::Keyed(cache) });
                self.caches.len() - 1
            },
            Err(e) => {
                return Err(e);
            },
        };
        match &mut self.caches[at].cache {
            TableCache::Keyed(cache) => {
                proof {
                    lemma_bound(
                        old(self).slots(),
                        CacheSlot { table, types, cache: TableCache::Keyed(*final(cache)) },
                    );
                }
                Ok(KeyedState { table, cache })
            },
            _ => Err(StateError::TypeMismatch { table }),
        }
    }
    fn find_descriptor(&self, table: char) -> (r: Option<usize>)
        requires
            descriptors_valid(self.descriptors()),
        ensures
            match r {
                Some(i) => self.declared(table) && i < self.descriptors().len()
                    && self.descriptors()[i as int] == self.descriptor(table),
                None => !self.declared(table),
            },
    {
        let mut i: usize = 0;
        while i < self.table_descriptors.len()
            invariant
                descriptors_valid(self.descriptors()),
                i <= self.table_descriptors.len(),
                forall|j: int|
                    0 <= j < i ==> descriptor_id()(#[trigger] self.table_descriptors[j]) != Some(
                        table,
                    ),
            decreases self.table_descriptors.len() - i,
        {
            if self.table_descriptors[i].table_id() == Some(table) {
                proof {
                    lemma_slot(self.descriptors(), descriptor_id(), descriptor_id(), i as int);
                }
                return Some(i);
            }
            i += 1;
        }
        proof {
            lemma_absent(self.descriptors(), descriptor_id(), descriptor_id(), Some(table));
        }
        None
    }

    /// A handle on the global table `table`, materialising it on first
    /// access: from the checkpoint if this store restores from one, empty
    /// otherwise. Fails, changing nothing, if the id is already bound to
    /// another kind of table or to another type pair.
    pub fn get_global_keyed_state(&mut self, table: char, types: TypeTag) -> (r: Result<
        GlobalKeyedState<'_>,
        StateError,
    >)
        requires
            old(self).wf(),
        ensures
            r is Err <==> old(self).conflict(table, TableType::Global, types),
            final(self).backend_view() == old(self).backend_view(),
            final(self).restore_point() == old(self).restore_point(),
            final(self).descriptors() == old(self).descriptors(),
            match r {
                Ok(v) => {
                    &&& v.table == table
                    &&& v.cache.wf()
                    &&& final(v.cache).wf() ==> final(self).wf()
                    &&& final(self).slots() == old(self).with_cache(
                        table,
                        types,
                        TableCache::Global(*final(v.cache)),
                    )
                    &&& old(self).rebinds(table, types, TableCache::Global(*final(v.cache)))
                    &&& if old(self).resident(table) {
                        old(self).slots()[old(self).index(table)].cache == TableCache::Global(
                            *v.cache,
                        )
                    } else {
                        &&& v.cache.delta() == Seq::<TupleView>::empty()
                        &&& v.cache@ == if old(self).restoring() {
                            replay(old(self).backend_view().live(table), by_key())
                        } else {
                            Map::empty()
                        }
                    }
                },
                Err(e) => e == (StateError::TypeMismatch { table }) && final(self).slots() == old(
                    self,
                ).slots(),
            },
    {
        let at = match self.locate(table, TableType::Global, types) {
            Ok(Some(i)) => i,
            Ok(None) => {
                let cache = match &self.restore_from {
                    Some(_) => GlobalKeyedStateCache::from_checkpoint(&self.backend, table),
                    None => GlobalKeyedStateCache::new(),
                };
                self.caches.push(CacheSlot { table, types, cache: TableCache::Global(cache) });
                self.caches.len() - 1
            },
            Err(e) => {
                return Err(e);
            },
        };
        match &mut self.caches[at].cache {
            TableCache::Global(cache) => {
                proof {
                    lemma_bound(
                        old(self).slots(),
                        CacheSlot { table, types, cache: TableCache::Global(*final(cache)) },
                    );
                }
                Ok(GlobalKeyedState { table, cache })
            },
            _ => Err(StateError::TypeMismatch { table }),
        }
    }

    /// A handle on the time-key map `table`, materialising it on first
    /// access: empty for a fresh store; for a restoring store, from the
    /// checkpoint as of `watermark`, which needs the table's descriptor.
    /// Fails, changing nothing, if the id is already bound to another kind
    /// of table or to another type pair, or if a restore finds the table
    /// undeclared.
    pub fn get_time_key_map(&mut self, table: char, types: TypeTag, watermark: Option<u64>) -> (r:
        Result<TimeKeyMap<'_>, StateError>)
        requires
            old(self).wf(),
        ensures
            r is Err <==> old(self).conflict(table, TableType::TimeKeyMap, types) || (!old(
                self,
            ).resident(table) && old(self).restoring() && !old(self).declared(table)),
            final(self).backend_view() == old(self).backend_view(),
            final(self).restore_point() == old(self).restore_point(),
            final(self).descriptors() == old(self).descriptors(),
            match r {
                Ok(v) => {
                    &&& v.table == table
                    &&& v.cache.wf()
                    &&& final(v.cache).wf() ==> final(self).wf()
                    &&& final(self).slots() == old(self).with_cache(
                        table,
                        types,
                        TableCache::TimeKey(*final(v.cache)),
                    )
                    &&& old(self).rebinds(table, types, TableCache::TimeKey(*final(v.cache)))
                    &&& if old(self).resident(table) {
                        old(self).slots()[old(self).index(table)].cache == TableCache::TimeKey(
                            *v.cache,
                        )
                    } else {
                        &&& v.cache.delta() == Seq::<TupleView>::empty()
                        &&& v.cache.floor() == if old(self).restoring() {
                            old(self).descriptor(table).min_valid_time_of(watermark)
                        } else {
                            0
                        }
                        &&& v.cache@ == if old(self).restoring() {
                            replay(
                                recent(
                                    old(self).backend_view().live(table),
                                    old(self).descriptor(table).min_valid_time_of(watermark),
                                ),
                                by_time_and_key(),
                            )
                        } else {
                            Map::empty()
                        }
                    }
                },
                Err(e) => final(self).slots() == old(self).slots() && e == if old(self).resident(
                    table,
                ) {
                    StateError::TypeMismatch { table }
                } else {
                    StateError::UnknownTable { table }
                },
            },
    {
        let at = match self.locate(table, TableType::TimeKeyMap, types) {
            Ok(Some(i)) => i,
            Ok(None) => {
                let cache = match &self.restore_from {
                    Some(_) => {
                        match self.find_descriptor(table) {
                            Some(d) => TimeKeyMapCache::from_checkpoint(
                                &self.backend,
                                table,
                                &self.table_descriptors[d],
                                watermark,
                            ),
                            None => {
                                return Err(StateError::UnknownTable { table });
                            },
                        }
                    },
                    None => TimeKeyMapCache::new(),
                };
                self.caches.push(CacheSlot { table, types, cache: TableCache::TimeKey(cache) });
                self.caches.len() - 1
            },
            Err(e) => {
                return Err(e);
            },
        };
        match &mut self.caches[at].cache {
            TableCache::TimeKey(cache) => {
                proof {
                    lemma_bound(
                        old(self).slots(),
                        CacheSlot { table, types, cache: TableCache::TimeKey(*final(cache)) },
                    );
                }
                Ok(TimeKeyMap { table, cache })
            },
            _ => Err(StateError::TypeMismatch { table }),
        }
    }

    /// A handle on the key-time multi-map `table`, materialising it on first
    /// access: empty for a fresh store; for a restoring store, from the
    /// checkpoint, which needs the table to be declared. Fails, changing
    /// nothing, if the id is already bound to another kind of table or to
    /// another type pair, or if a restore finds the table undeclared.
    pub fn get_key_time_multi_map(&mut self, table: char, types: TypeTag) -> (r: Result<
        KeyTimeMultiMap<'_>,
        StateError,
    >)
        requires
            old(self).wf(),
        ensures
            r is Err <==> old(self).conflict(table, TableType::KeyTimeMultiMap, types) || (!old(
                self,
            ).resident(table) && old(self).restoring() && !old(self).declared(table)),
            final(self).backend_view() == old(self).backend_view(),
            final(self).restore_point() == old(self).restore_point(),
            final(self).descriptors() == old(self).descriptors(),
            match r {
                Ok(v) => {
                    &&& v.table == table
                    &&& v.cache.wf()
                    &&& final(v.cache).wf() ==> final(self).wf()
                    &&& final(self).slots() == old(self).with_cache(
                        table,
                        types,
                        TableCache::KeyTimeMulti(*final(v.cache)),
                    )
                    &&& old(self).rebinds(table, types, TableCache::KeyTimeMulti(*final(v.cache)))
                    &&& if old(self).resident(table) {
                        old(self).slots()[old(self).index(table)].cache
                            == TableCache::KeyTimeMulti(*v.cache)
                    } else {
                        &&& v.cache.delta() == Seq::<TupleView>::empty()
                        &&& v.cache@ == if old(self).restoring() {
                            multi_replay(old(self).backend_view().live(table))
                        } else {
                            Seq::<EntryView>::empty()
                        }
                    }
                },
                Err(e) => final(self).slots() == old(self).slots() && e == if old(self).resident(
                    table,
                ) {
                    StateError::TypeMismatch { table }
                } else {
                    StateError::UnknownTable { table }
                },
            },
    {
        let at = match self.locate(table, TableType::KeyTimeMultiMap, types) {
            Ok(Some(i)) => i,
            Ok(None) => {
                let cache = match &self.restore_from {
                    Some(_) => {
                        if self.find_descriptor(table).is_none() {
                            return Err(StateError::UnknownTable { table });
                        }
                        KeyTimeMultiMapCache::from_checkpoint(&self.backend, table)
                    },
                    None => KeyTimeMultiMapCache::new(),
                };
                self.caches.push(
                    CacheSlot { table, types, cache: TableCache::KeyTimeMulti(cache) },
                );
                self.caches.len() - 1
            },
            Err(e) => {
                return Err(e);
            },
        };
        match &mut self.caches[at].cache {
            TableCache::KeyTimeMulti(cache) => {
                proof {
                    lemma_bound(
                        old(self).slots(),
                        CacheSlot { table, types, cache: TableCache::KeyTimeMulti(*final(cache)) },
                    );
                }
                Ok(KeyTimeMultiMap { table, cache })
            },
            _ => Err(StateError::TypeMismatch { table }),
        }
    }

    /// Hands a compaction's outcome to the backend, which swaps the segments
    /// the compaction replaced for the consolidated ones. No cache changes,
    /// and nothing that is staged is lost.
    pub fn load_compacted(&mut self, compaction: CompactionResult)
        requires
            old(self).wf(),
        ensures
            final(self).wf(),
            final(self).backend_view().loaded(&old(self).backend_view(), compaction),
            final(self).slots() == old(self).slots(),
            final(self).restore_point() == old(self).restore_point(),
            final(self).descriptors() == old(self).descriptors(),
            forall|t: char|
                final(self).backend_view().staged(t) == old(self).backend_view().staged(t),
    {
        self.backend.load_compacted(compaction);
    }
    /// Flushes the pending changes of every resident table through the
    /// backend, in registry order, and has the backend make them durable
    /// under the barrier's epoch. Returns the epoch flushed.
    ///
    /// The caches keep their content and are left with nothing to flush;
    /// the backend's live log of every table grows by what was staged and
    /// by the table's pending changes.
    pub fn checkpoint(&mut self, barrier: CheckpointBarrier, watermark: Option<u64>) -> (epoch: u32)
        requires
            old(self).wf(),
        ensures
            final(self).wf(),
            epoch == barrier.epoch,
            final(self).is_flush_of(old(self), barrier.epoch, watermark),
    {
        let ghost before = self.caches@;
        let ghost start = self.backend;
        let mut i: usize = 0;
        while i < self.caches.len()
            invariant
                i <= self.caches.len(),
                self.caches.len() == before.len(),
                before == old(self).slots(),
                start == old(self).backend_view(),
                unique(before, table_of()),
                self.backend.valid(),
                self.table_descriptors@ == old(self).descriptors(),
                self.restore_from == old(self).restore_point(),
                descriptors_valid(self.descriptors()),
                forall|j: int|
                    0 <= j < before.len() ==> {
                        &&& (#[trigger] self.caches[j]).table == before[j].table
                        &&& self.caches[j].types == before[j].types
                        &&& self.caches[j].cache.same_content(&before[j].cache)
                        &&& self.caches[j].cache.wf()
                    },
                forall|j: int|
                    0 <= j < i ==> (#[trigger] self.caches[j]).cache.delta() == Seq::<
                        TupleView,
                    >::empty(),
                forall|j: int| i <= j < before.len() ==> #[trigger] self.caches[j] == before[j],
                forall|t: char| #[trigger] self.backend.live(t) == start.live(t),
                forall|t: char, e: u32| #[trigger]
                    self.backend.live_as_of(t, e) == start.live_as_of(t, e),
                forall|t: char| #[trigger]
                    self.backend.staged(t) == start.staged(t) + if holds(before, table_of(), t)
                        && slot_of(before, table_of(), t) < i {
                        old(self).pending(t, watermark)
                    } else {
                        Seq::<TupleView>::empty()
                    },
            decreases self.caches.len() - i,
        {
            let table = self.caches[i].table;
            let kind = self.caches[i].cache.kind_of();
            let ghost previous = self.backend;
            let ghost slots_before = self.caches@;
            proof {
                lemma_slot(before, table_of(), table_of(), i as int);
            }
            let changes = self.caches[i].cache.take_delta();
            assert(self.caches@.len() == slots_before.len());
            assert(forall|j: int|
                0 <= j < before.len() && j != i ==> #[trigger] self.caches[j] == slots_before[j]);
            let rule = match self.find_descriptor(table) {
                Some(d) => Some(&self.table_descriptors[d]),
                None => None,
            };
            assert(rule == old(self).rule(table));
            flush_changes(&mut self.backend, table, kind, rule, watermark, &changes);
            proof {
                assert forall|t: char| #[trigger]
                    self.backend.staged(t) == start.staged(t) + if holds(before, table_of(), t)
                        && slot_of(before, table_of(), t) < i + 1 {
                        old(self).pending(t, watermark)
                    } else {
                        Seq::<TupleView>::empty()
                    } by {
                    if t == table {
                        assert(previous.staged(t) =~= start.staged(t));
                    } else {
                        if holds(before, table_of(), t) {
                            let k = slot_of(before, table_of(), t);
                            assert(table_of()(before[k]) == t);
                            assert(k != i);
                        }
                    }
                }
            }
            i += 1;
        }
        let epoch = self.backend.checkpoint(barrier, watermark);
        proof {
            assert forall|t: char| #[trigger]
                self.backend.live(t) == start.live(t) + start.staged(t) + old(self).pending(
                    t,
                    watermark,
                ) by {
                if !holds(before, table_of(), t) {
                    assert(start.staged(t) + Seq::<TupleView>::empty() =~= start.staged(t));
                    assert(start.live(t) + start.staged(t) + old(self).pending(t, watermark)
                        =~= start.live(t) + start.staged(t));
                } else {
                    let k = slot_of(before, table_of(), t);
                    assert(table_of()(before[k]) == t);
                    assert(start.live(t) + (start.staged(t) + old(self).pending(t, watermark))
                        =~= start.live(t) + start.staged(t) + old(self).pending(t, watermark));
                }
            }
            assert forall|t: char, e: u32| #[trigger]
                self.backend.live_as_of(t, e) == start.live_as_of(t, e) + if barrier.epoch <= e {
                    start.staged(t) + old(self).pending(t, watermark)
                } else {
                    Seq::<TupleView>::empty()
                } by {
                if !holds(before, table_of(), t) {
                    assert(start.staged(t) + Seq::<TupleView>::empty() =~= start.staged(t));
                } else {
                    let k = slot_of(before, table_of(), t);
                    assert(table_of()(before[k]) == t);
                }
            }
            assert(unique(self.caches@, table_of())) by {
                assert forall|a: int, b: int|
                    0 <= a < b < self.caches@.len() implies table_of()(
                    #[trigger] self.caches@[a],
                ) != table_of()(#[trigger] self.caches@[b]) by {
                    assert(table_of()(before[a]) != table_of()(before[b]));
                }
            }
        }
        epoch
    }
}

} // verus!
