use crate::error::TableType;
use crate::metadata::{CheckpointBarrier, CompactionResult, TaskInfo};
use crate::operation::{delete_tuple, insert_tuple, log_view, DataTuple, TupleView};
use crate::replay::{by_key, replay};
use crate::tables::assoc::{content, unique};
use crate::tables::byte_map::{key_of, value_of, KeyValue};
use vstd::prelude::*;

verus! {

/// What the state layer needs of a durable store.
///
/// A store holds, for every table, a log of persisted tuples that a restore
/// reads back (`live`), and the changes handed over since the last
/// checkpoint (`staged`). Writing stages a change; a checkpoint makes the
/// staged changes durable under the barrier's epoch and returns that epoch.
pub trait BackingStore: Sized {
    /// The store's own consistency condition.
    spec fn valid(&self) -> bool;

    /// The persisted tuples of a table that a read returns, oldest first.
    spec fn live(&self, table: char) -> Seq<TupleView>;

    /// The changes to a table handed over since the last checkpoint.
    spec fn staged(&self, table: char) -> Seq<TupleView>;

    /// The persisted tuples of a table that checkpoints up to and including
    /// `epoch` made durable: what a restore from that epoch reads.
    spec fn live_as_of(&self, table: char, epoch: u32) -> Seq<TupleView>;

    /// The name by which this kind of store identifies itself.
    spec fn store_name() -> Seq<char>;

    /// Whether this store is what loading `compaction` makes of `before`:
    /// which segments gave way to which consolidated ones.
    spec fn loaded(&self, before: &Self, compaction: CompactionResult) -> bool;

    /// The name of this kind of store.
    fn name() -> (name: &'static str)
        ensures
            name@ == Self::store_name(),
    ;

    /// The task this store serves.
    fn task_info(&self) -> &TaskInfo;

    /// Stages an insert into a time-stamped or keyed table.
    fn write_data_tuple(
        &mut self,
        table: char,
        table_type: TableType,
        timestamp: u64,
        key: &Vec<u8>,
        value: &Vec<u8>,
    )
        requires
            old(self).valid(),
        ensures
            final(self).valid(),
            final(self).staged(table) == old(self).staged(table).push(
                insert_tuple(timestamp, key@, value@),
            ),
            forall|t: char| t != table ==> final(self).staged(t) == old(self).staged(t),
            forall|t: char| final(self).live(t) == old(self).live(t),
            forall|t: char, e: u32| #[trigger]
                final(self).live_as_of(t, e) == old(self).live_as_of(t, e),
    ;

    /// Stages a delete in a time-stamped or keyed table.
    fn delete_data_tuple(
        &mut self,
        table: char,
        table_type: TableType,
        timestamp: u64,
        key: &Vec<u8>,
    )
        requires
            old(self).valid(),
        ensures
            final(self).valid(),
            final(self).staged(table) == old(self).staged(table).push(
                delete_tuple(timestamp, key@),
            ),
            forall|t: char| t != table ==> final(self).staged(t) == old(self).staged(t),
            forall|t: char| final(self).live(t) == old(self).live(t),
            forall|t: char, e: u32| #[trigger]
                final(self).live_as_of(t, e) == old(self).live_as_of(t, e),
    ;

    /// Stages an insert into a global table.
    fn write_key_value(&mut self, table: char, key: &Vec<u8>, value: &Vec<u8>)
        requires
            old(self).valid(),
        ensures
            final(self).valid(),
            final(self).staged(table) == old(self).staged(table).push(
                insert_tuple(0, key@, value@),
            ),
            forall|t: char| t != table ==> final(self).staged(t) == old(self).staged(t),
            forall|t: char| final(self).live(t) == old(self).live(t),
            forall|t: char, e: u32| #[trigger]
                final(self).live_as_of(t, e) == old(self).live_as_of(t, e),
    ;

    /// Stages a delete in a global table.
    fn delete_key_value(&mut self, table: char, key: &Vec<u8>)
        requires
            old(self).valid(),
        ensures
            final(self).valid(),
            final(self).staged(table) == old(self).staged(table).push(delete_tuple(0, key@)),
            forall|t: char| t != table ==> final(self).staged(t) == old(self).staged(t),
            forall|t: char| final(self).live(t) == old(self).live(t),
            forall|t: char, e: u32| #[trigger]
                final(self).live_as_of(t, e) == old(self).live_as_of(t, e),
    ;

    /// Reads back every live tuple of a time-stamped table.
    fn get_data_tuples(&self, table: char) -> (tuples: Vec<DataTuple>)
        requires
            self.valid(),
        ensures
            log_view(tuples@) == self.live(table),
    ;

    /// Reads back a global table as of the restore point: one pair per key
    /// that the live log leaves present.
    fn get_global_key_values(&self, table: char) -> (pairs: Vec<KeyValue>)
        requires
            self.valid(),
        ensures
            unique(pairs@, key_of()),
            content(pairs@, key_of(), value_of()) == replay(self.live(table), by_key()),
    ;

    /// Reads back a keyed table as of the restore point: one pair per key
    /// that the live log leaves present.
    fn get_key_values(&self, table: char) -> (pairs: Vec<KeyValue>)
        requires
            self.valid(),
        ensures
            unique(pairs@, key_of()),
            content(pairs@, key_of(), value_of()) == replay(self.live(table), by_key()),
    ;

    /// Makes every staged change durable under the barrier's epoch and
    /// returns that epoch.
    fn checkpoint(&mut self, barrier: CheckpointBarrier, watermark: Option<u64>) -> (epoch: u32)
        requires
            old(self).valid(),
        ensures
            final(self).valid(),
            epoch == barrier.epoch,
            forall|t: char| #[trigger] final(self).staged(t) == Seq::<TupleView>::empty(),
            forall|t: char| #[trigger] final(self).live(t) == old(self).live(t) + old(self).staged(t),
            forall|t: char, e: u32| #[trigger]
                final(self).live_as_of(t, e) == old(self).live_as_of(t, e) + if barrier.epoch
                    <= e {
                    old(self).staged(t)
                } else {
                    Seq::<TupleView>::empty()
                },
    ;

    /// Swaps the segments a compaction replaced for the consolidated ones,
    /// as `loaded` says. Staged changes are untouched.
    fn load_compacted(&mut self, compaction: CompactionResult)
        requires
            old(self).valid(),
        ensures
            final(self).valid(),
            final(self).loaded(old(self), compaction),
            forall|t: char| final(self).staged(t) == old(self).staged(t),
    ;
}

} // verus!
