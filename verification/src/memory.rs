//! A backend that keeps its segments in memory.

use crate::backend::BackingStore;
use crate::bytes::copy_bytes;
use crate::compaction::{
    applies, consolidate, consolidated, distinct_handles, find_run, first_listed, handles_distinct,
    handles_of, has_handle, lemma_compact_then_load_sound, merge_run, names, run_handles,
    same_table_content, skip_le, swap_in, swapped,
};
use crate::error::TableType;
use crate::metadata::{CheckpointBarrier, CheckpointMetadata, CompactionResult, TaskInfo};
use crate::operation::{copy_log, log_view, DataOperation, DataTuple, TupleView};
use crate::replay::{apply_all, by_key, lemma_apply_all_push, replay};
use crate::tables::assoc::{
    content, holds, lemma_absent, lemma_insert, lemma_slot, lemma_update, slot_of, unique,
};
use crate::tables::byte_map::{key_of, value_of, ByteMap, KeyValue};
use vstd::prelude::*;

verus! {

/// One persisted storage segment: the changes to one table that one
/// checkpoint, or one compaction, wrote.
#[derive(Debug)]
pub struct Segment {
    /// The identifier under which compaction results name this segment.
    pub handle: u64,
    /// The newest epoch whose changes the segment holds.
    pub epoch: u32,
    pub tuples: Vec<DataTuple>,
}

/// Everything the backend holds for one table.
#[derive(Debug)]
pub struct TableFiles {
    pub table: char,
    pub table_type: TableType,
    /// The live segments, oldest first.
    pub segments: Vec<Segment>,
    /// Consolidated segments that a compaction wrote and no task has loaded.
    pub spare: Vec<Segment>,
    /// The changes handed over since the last checkpoint.
    pub staged: Vec<DataTuple>,
}

/// The tuples of a list of segments, oldest first.
pub open spec fn flatten(segments: Seq<Segment>) -> Seq<TupleView>
    decreases segments.len(),
{
    if segments.len() == 0 {
        Seq::empty()
    } else {
        flatten(segments.drop_last()) + log_view(segments.last().tuples@)
    }
}

/// The tuples of the segments that hold no epoch beyond `epoch`.
pub open spec fn as_of(segments: Seq<Segment>, epoch: u32) -> Seq<TupleView>
    decreases segments.len(),
{
    if segments.len() == 0 {
        Seq::empty()
    } else if segments.last().epoch <= epoch {
        as_of(segments.drop_last(), epoch) + log_view(segments.last().tuples@)
    } else {
        as_of(segments.drop_last(), epoch)
    }
}

/// The identity of a table's files: the table id.
pub open spec fn file_table() -> spec_fn(TableFiles) -> char {
    |f: TableFiles| f.table
}

/// The live tuples of a table's files.
pub open spec fn file_live() -> spec_fn(TableFiles) -> Seq<TupleView> {
    |f: TableFiles| flatten(f.segments@)
}

/// The staged changes of a table's files.
pub open spec fn file_staged() -> spec_fn(TableFiles) -> Seq<TupleView> {
    |f: TableFiles| log_view(f.staged@)
}

/// The log that a map holds for a table: empty where it holds none.
pub open spec fn log_of(m: Map<char, Seq<TupleView>>, table: char) -> Seq<TupleView> {
    if m.dom().contains(table) {
        m[table]
    } else {
        Seq::empty()
    }
}

/// The live tuples of a table's files as of an epoch.
pub open spec fn file_as_of(epoch: u32) -> spec_fn(TableFiles) -> Seq<TupleView> {
    |f: TableFiles| as_of(f.segments@, epoch)
}

/// The number of segments that a compaction of the epochs above `old_min`
/// up to `new_min` merges.
pub open spec fn run_len(segments: Seq<Segment>, old_min: u32, new_min: u32) -> int {
    let start = skip_le(segments, 0, old_min);
    if start < segments.len() {
        skip_le(segments, start, new_min) - start
    } else {
        0
    }
}

/// Where no segment holds an epoch beyond `epoch`, the tuples as of `epoch`
/// are all the tuples.
pub proof fn lemma_as_of_all(segments: Seq<Segment>, epoch: u32)
    requires
        forall|i: int| 0 <= i < segments.len() ==> (#[trigger] segments[i]).epoch <= epoch,
    ensures
        as_of(segments, epoch) == flatten(segments),
    decreases segments.len(),
{
    if segments.len() > 0 {
        let init = segments.drop_last();
        assert forall|i: int| 0 <= i < init.len() implies (#[trigger] init[i]).epoch <= epoch by {
            assert(init[i] == segments[i]);
        }
        lemma_as_of_all(init, epoch);
        assert(segments.last() == segments[segments.len() - 1]);
    }
}

/// Copies of the segments that hold no epoch beyond `epoch`.
fn restore_segments(segments: &Vec<Segment>, epoch: u32) -> (out: Vec<Segment>)
    ensures
        flatten(out@) == as_of(segments@, epoch),
        forall|i: int| 0 <= i < out.len() ==> (#[trigger] out[i]).epoch <= epoch,
{
    let mut out: Vec<Segment> = Vec::new();
    let mut i: usize = 0;
    assert(flatten(out@) =~= as_of(segments@.take(0), epoch));
    while i < segments.len()
        invariant
            i <= segments.len(),
            flatten(out@) == as_of(segments@.take(i as int), epoch),
            forall|k: int| 0 <= k < out.len() ==> (#[trigger] out[k]).epoch <= epoch,
        decreases segments.len() - i,
    {
        assert(segments@.take(i + 1).drop_last() =~= segments@.take(i as int));
        assert(segments@.take(i + 1).last() == segments[i as int]);
        if segments[i].epoch <= epoch {
            let ghost before = out@;
            let copy = Segment {
                handle: segments[i].handle,
                epoch: segments[i].epoch,
                tuples: copy_log(&segments[i].tuples),
            };
            out.push(copy);
            assert(out@.drop_last() =~= before);
        }
        i += 1;
    }
    assert(segments@.take(segments.len() as int) =~= segments@);
    out
}

/// Appends copies of the tuples of `src` to `out`.
fn append_copy(out: &mut Vec<DataTuple>, src: &Vec<DataTuple>)
    ensures
        log_view(final(out)@) == log_view(old(out)@) + log_view(src@),
{
    let ghost start = log_view(out@);
    let mut i: usize = 0;
    assert(start + log_view(src@).take(0) =~= start);
    while i < src.len()
        invariant
            i <= src.len(),
            log_view(out@) == start + log_view(src@).take(i as int),
        decreases src.len() - i,
    {
        let ghost before = log_view(out@);
        out.push(src[i].duplicate());
        assert(log_view(out@) =~= before.push(src[i as int]@));
        assert(log_view(src@).take(i + 1) =~= log_view(src@).take(i as int).push(src[i as int]@));
        i += 1;
    }
    assert(log_view(src@).take(src.len() as int) =~= log_view(src@));
}

/// Copies of the tuples of a list of segments, oldest first.
fn copy_flat(segments: &Vec<Segment>) -> (out: Vec<DataTuple>)
    ensures
        log_view(out@) == flatten(segments@),
{
    let mut out: Vec<DataTuple> = Vec::new();
    let mut i: usize = 0;
    assert(log_view(out@) =~= flatten(segments@.take(0)));
    while i < segments.len()
        invariant
            i <= segments.len(),
            log_view(out@) == flatten(segments@.take(i as int)),
        decreases segments.len() - i,
    {
        assert(segments@.take(i + 1).drop_last() =~= segments@.take(i as int));
        append_copy(&mut out, &segments[i].tuples);
        i += 1;
    }
    assert(segments@.take(segments.len() as int) =~= segments@);
    out
}

/// The bindings that a log leaves present, one per key.
pub fn net_pairs(tuples: &Vec<DataTuple>) -> (pairs: Vec<KeyValue>)
    ensures
        unique(pairs@, key_of()),
        content(pairs@, key_of(), value_of()) == replay(log_view(tuples@), by_key()),
{
    let ghost log = log_view(tuples@);
    let mut map = ByteMap::new();
    let mut i: usize = 0;
    assert(log.take(0) =~= Seq::<TupleView>::empty());
    while i < tuples.len()
        invariant
            i <= tuples.len(),
            log == log_view(tuples@),
            map.wf(),
            map@ == replay(log.take(i as int), by_key()),
        decreases tuples.len() - i,
    {
        proof {
            assert(log.take(i + 1) =~= log.take(i as int).push(tuples[i as int]@));
            lemma_apply_all_push(Map::empty(), log.take(i as int), tuples[i as int]@, by_key());
        }
        let t = &tuples[i];
        match t.operation {
            DataOperation::Insert => {
                map.insert(copy_bytes(&t.key), copy_bytes(&t.value));
            },
            DataOperation::DeleteKey => {
                let _ = map.remove(&t.key);
            },
        }
        i += 1;
    }
    assert(log.take(tuples.len() as int) =~= log);
    map.into_entries()
}

/// A backend whose durable store is its own memory.
pub struct MemoryBackend {
    task_info: TaskInfo,
    files: Vec<TableFiles>,
    next_handle: u64,
}

impl MemoryBackend {
    /// What the backend holds, one entry per table it has seen.
    pub closed spec fn files(&self) -> Seq<TableFiles> {
        self.files@
    }

    /// The task this backend serves.
    pub closed spec fn task(&self) -> TaskInfo {
        self.task_info
    }

    /// A backend that holds nothing.
    pub fn new(task_info: &TaskInfo) -> (backend: MemoryBackend)
        ensures
            backend.valid(),
            backend.task() == *task_info,
            backend.files() == Seq::<TableFiles>::empty(),
            forall|t: char| #[trigger] backend.live(t) == Seq::<TupleView>::empty(),
            forall|t: char| #[trigger] backend.staged(t) == Seq::<TupleView>::empty(),
            forall|t: char, e: u32| #[trigger]
                backend.live_as_of(t, e) == Seq::<TupleView>::empty(),
    {
        MemoryBackend { task_info: task_info.duplicate(), files: Vec::new(), next_handle: 0 }
    }

    /// The handle that the next new segment gets.
    pub closed spec fn next_handle(&self) -> u64 {
        self.next_handle
    }

    /// Whether a compaction of `table` over the epochs above `old_min` up
    /// to `new_min` can be done: there are at least two segments to merge,
    /// the table's live segments have distinct handles, and the handle for
    /// the consolidated segment is not that of a spare one.
    pub open spec fn compactable(&self, table: char, old_min: u32, new_min: u32) -> bool {
        &&& holds(self.files(), file_table(), table)
        &&& run_len(
            self.files()[slot_of(self.files(), file_table(), table)].segments@,
            old_min,
            new_min,
        ) >= 2
        &&& distinct_handles(self.files()[slot_of(self.files(), file_table(), table)].segments@)
        &&& !names(
            self.files()[slot_of(self.files(), file_table(), table)].spare@,
            self.next_handle(),
        )
    }

    /// This backend is what a compaction of `table` over the epochs above
    /// `old_min` up to `new_min` makes of `before`: the table has one more
    /// spare segment, which holds the consolidated changes of the run that
    /// `result` names as the one to drop, and everything else is as it was.
    pub open spec fn compacts(
        &self,
        before: &Self,
        table: char,
        old_min: u32,
        new_min: u32,
        result: &CompactionResult,
    ) -> bool {
        let i = slot_of(before.files(), file_table(), table);
        let f = before.files()[i];
        let g = self.files()[i];
        let start = skip_le(f.segments@, 0, old_min);
        let end = skip_le(f.segments@, start, new_min);
        &&& before.compactable(table, old_min, new_min)
        &&& self.files().len() == before.files().len()
        &&& result.epoch == new_min
        &&& result.backend_data_to_drop@ == handles_of(f.segments@.subrange(start, end))
        &&& result.backend_data_to_drop@.len() == run_len(f.segments@, old_min, new_min)
        &&& result.backend_data_to_load@ == seq![before.next_handle()]
        &&& forall|j: int|
            0 <= j < before.files().len() && j != i ==> (#[trigger] self.files()[j])
                == before.files()[j]
        &&& g.table == f.table
        &&& g.table_type == f.table_type
        &&& g.segments == f.segments
        &&& g.staged == f.staged
        &&& g.spare@.len() == f.spare@.len() + 1
        &&& g.spare@.drop_last() == f.spare@
        &&& g.spare@.last().handle == before.next_handle()
        &&& log_view(g.spare@.last().tuples@) == consolidated(
            flatten(f.segments@.subrange(start, end)),
            f.table_type,
        )
    }

    /// This backend is what loading `result` makes of `before`: in every
    /// table to which the result applies, the run it names gave way to the
    /// spare segment it names; every other table is as it was.
    pub open spec fn loads(&self, before: &Self, result: &CompactionResult) -> bool {
        &&& self.files().len() == before.files().len()
        &&& forall|j: int|
            0 <= j < before.files().len() ==> {
                let f = before.files()[j];
                let g = #[trigger] self.files()[j];
                &&& g.table == f.table
                &&& g.table_type == f.table_type
                &&& g.staged == f.staged
                &&& if applies(f, result.backend_data_to_drop@, result.backend_data_to_load@) {
                    &&& g.segments@ == swapped(
                        f,
                        result.backend_data_to_drop@,
                        result.backend_data_to_load@,
                    )
                    &&& g.spare@ == f.spare@.remove(
                        first_listed(f.spare@, 0, result.backend_data_to_load@),
                    )
                } else {
                    &&& g.segments == f.segments
                    &&& g.spare == f.spare
                }
            }
    }

    /// Compaction soundness: a table that is compacted and whose compaction
    /// result is then loaded holds what it held before. In particular a key
    /// that one of the merged checkpoints inserted and a later one deleted
    /// stays absent.
    pub proof fn lemma_compaction_round(
        before: MemoryBackend,
        compacted: MemoryBackend,
        loaded: MemoryBackend,
        table: char,
        old_min: u32,
        new_min: u32,
        result: CompactionResult,
    )
        requires
            before.valid(),
            compacted.compacts(&before, table, old_min, new_min, &result),
            loaded.loads(&compacted, &result),
        ensures
            same_table_content(
                before.files()[slot_of(before.files(), file_table(), table)].table_type,
                loaded.live(table),
                before.live(table),
            ),
    {
        let i = slot_of(before.files(), file_table(), table);
        let f = before.files()[i];
        let g = compacted.files()[i];
        let h = loaded.files()[i];
        assert(0 <= i < before.files().len() && file_table()(f) == table);
        let start = skip_le(f.segments@, 0, old_min);
        let end = skip_le(f.segments@, start, new_min);
        lemma_skip_le_bounds(f.segments@, 0, old_min);
        lemma_skip_le_bounds(f.segments@, start, new_min);
        assert forall|j: int| 0 <= j < before.files().len() implies (
        #[trigger] compacted.files()[j]).table == before.files()[j].table by {}
        lemma_same_tables(before.files(), compacted.files());
        lemma_same_tables(compacted.files(), loaded.files());
        assert forall|k: int| 0 <= k < f.spare@.len() implies (#[trigger] f.spare@[k]).handle
            != g.spare@.last().handle by {}
        lemma_compact_then_load_sound(
            f,
            g,
            start,
            end,
            result.backend_data_to_drop@,
            result.backend_data_to_load@,
        );
        lemma_slot(before.files(), file_table(), file_live(), i);
        lemma_slot(loaded.files(), file_table(), file_live(), i);
        assert(h.segments@ == swapped(g, result.backend_data_to_drop@, result.backend_data_to_load@));
    }

    /// A backend that resumes from a checkpoint of the store that `durable`
    /// holds. Segments of epochs beyond the checkpoint's are ignored, so a
    /// newer, unfinished checkpoint cannot leak into the restore; nothing is
    /// staged.
    pub fn from_checkpoint(
        task_info: &TaskInfo,
        metadata: &CheckpointMetadata,
        durable: &MemoryBackend,
    ) -> (backend: MemoryBackend)
        requires
            durable.valid(),
        ensures
            backend.valid(),
            backend.task() == *task_info,
            forall|t: char| #[trigger] backend.live(t) == durable.live_as_of(t, metadata.epoch),
            forall|t: char| #[trigger] backend.staged(t) == Seq::<TupleView>::empty(),
            forall|t: char| #[trigger] backend.live_as_of(t, metadata.epoch) == backend.live(t),
    {
        let epoch = metadata.epoch;
        let mut files: Vec<TableFiles> = Vec::new();
        let mut i: usize = 0;
        while i < durable.files.len()
            invariant
                i <= durable.files.len(),
                files.len() == i,
                forall|j: int| 0 <= j < i ==> (#[trigger] files[j]).table == durable.files[j].table,
                forall|j: int|
                    0 <= j < i ==> flatten((#[trigger] files[j]).segments@) == as_of(
                        durable.files[j].segments@,
                        epoch,
                    ) && as_of(files[j].segments@, epoch) == flatten(files[j].segments@)
                        && log_view(files[j].staged@) == Seq::<TupleView>::empty(),
            decreases durable.files.len() - i,
        {
            let source = &durable.files[i];
            let segments = restore_segments(&source.segments, epoch);
            proof {
                lemma_as_of_all(segments@, epoch);
            }
            let f = TableFiles {
                table: source.table,
                table_type: source.table_type,
                segments,
                spare: Vec::new(),
                staged: Vec::new(),
            };
            assert(log_view(f.staged@) =~= Seq::<TupleView>::empty());
            files.push(f);
            i += 1;
        }
        let backend = MemoryBackend {
            task_info: task_info.duplicate(),
            files,
            next_handle: durable.next_handle,
        };
        proof {
            lemma_same_tables(durable.files@, backend.files@);
            assert forall|t: char| #[trigger]
                backend.live(t) == durable.live_as_of(t, metadata.epoch) by {
                if holds(durable.files@, file_table(), t) {
                    let k = slot_of(durable.files@, file_table(), t);
                    lemma_slot(backend.files@, file_table(), file_live(), k);
                    lemma_slot(durable.files@, file_table(), file_as_of(epoch), k);
                }
            }
            assert forall|t: char| #[trigger]
                backend.staged(t) == Seq::<TupleView>::empty() by {
                if holds(durable.files@, file_table(), t) {
                    let k = slot_of(durable.files@, file_table(), t);
                    lemma_slot(backend.files@, file_table(), file_staged(), k);
                }
            }
            assert forall|t: char| #[trigger]
                backend.live_as_of(t, metadata.epoch) == backend.live(t) by {
                if holds(durable.files@, file_table(), t) {
                    let k = slot_of(durable.files@, file_table(), t);
                    lemma_slot(backend.files@, file_table(), file_live(), k);
                    lemma_slot(backend.files@, file_table(), file_as_of(epoch), k);
                }
            }
        }
        backend
    }

    /// The handles of the live segments of a table, oldest first.
    pub fn live_handles(&self, table: char) -> (handles: Vec<u64>)
        requires
            self.valid(),
        ensures
            handles@ == if holds(self.files(), file_table(), table) {
                handles_of(self.files()[slot_of(self.files(), file_table(), table)].segments@)
            } else {
                Seq::<u64>::empty()
            },
    {
        match self.position(table) {
            Some(i) => {
                let handles = run_handles(&self.files[i].segments, 0, self.files[i].segments.len());
                assert(self.files[i as int].segments@.subrange(
                    0,
                    self.files[i as int].segments.len() as int,
                ) =~= self.files[i as int].segments@);
                handles
            },
            None => Vec::new(),
        }
    }

    /// Merges the live segments of `table` that hold the epochs above
    /// `old_min_epoch` up to `new_min_epoch` into one consolidated segment,
    /// kept aside until a task loads it. The result names the merged
    /// segments as the ones to drop and the consolidated one as the one to
    /// load. With fewer than two segments to merge there is nothing to do.
    ///
    /// What is live and what is staged stays as it is.
    pub fn compact_table(&mut self, table: char, old_min_epoch: u32, new_min_epoch: u32) -> (r:
        Option<CompactionResult>)
        requires
            old(self).valid(),
        ensures
            final(self).valid(),
            r is Some <==> old(self).compactable(table, old_min_epoch, new_min_epoch),
            forall|t: char| #[trigger] final(self).live(t) == old(self).live(t),
            forall|t: char| #[trigger] final(self).staged(t) == old(self).staged(t),
            final(self).files().len() == old(self).files().len(),
            match r {
                None => final(self).files() == old(self).files(),
                Some(c) => final(self).compacts(
                    old(self),
                    table,
                    old_min_epoch,
                    new_min_epoch,
                    &c,
                ),
            },
    {
        let ghost before = self.files@;
        let i = match self.position(table) {
            Some(i) => i,
            None => {
                return None;
            },
        };
        let (start, end) = find_run(&self.files[i].segments, old_min_epoch, new_min_epoch);
        if end - start < 2 {
            return None;
        }
        if !handles_distinct(&self.files[i].segments) || has_handle(
            &self.files[i].spare,
            self.next_handle,
        ) {
            return None;
        }
        let merged = merge_run(&self.files[i].segments, start, end);
        let tuples = consolidate(merged, self.files[i].table_type);
        let to_drop = run_handles(&self.files[i].segments, start, end);
        let handle = self.next_handle;
        self.next_handle = if handle < u64::MAX {
            handle + 1
        } else {
            handle
        };
        let epoch = self.files[i].segments[end - 1].epoch;
        let mut to_load: Vec<u64> = Vec::new();
        to_load.push(handle);
        self.files[i].spare.push(Segment { handle, epoch, tuples });
        proof {
            let g = self.files@[i as int];
            assert(self.files@ =~= before.update(i as int, g));
            lemma_slot(before, file_table(), file_staged(), i as int);
            lemma_slot(before, file_table(), file_live(), i as int);
            lemma_update(before, file_table(), file_staged(), i as int, g);
            lemma_update(before, file_table(), file_live(), i as int, g);
            assert(content(self.files@, file_table(), file_live()) =~= content(
                before,
                file_table(),
                file_live(),
            ));
            assert(content(self.files@, file_table(), file_staged()) =~= content(
                before,
                file_table(),
                file_staged(),
            ));
            assert(g.spare@.drop_last() =~= before[i as int].spare@);
        }
        Some(
            CompactionResult {
                epoch: new_min_epoch,
                backend_data_to_drop: to_drop,
                backend_data_to_load: to_load,
            },
        )
    }

    fn position(&self, table: char) -> (r: Option<usize>)
        requires
            self.valid(),
        ensures
            match r {
                Some(i) => i < self.files.len() && self.files[i as int].table == table
                    && holds(self.files@, file_table(), table) && slot_of(
                    self.files@,
                    file_table(),
                    table,
                ) == i,
                None => !holds(self.files@, file_table(), table),
            },
    {
        let mut i: usize = 0;
        while i < self.files.len()
            invariant
                self.valid(),
                i <= self.files.len(),
                forall|j: int| 0 <= j < i ==> file_table()(#[trigger] self.files[j]) != table,
            decreases self.files.len() - i,
        {
            if self.files[i].table == table {
                proof {
                    lemma_slot(self.files@, file_table(), file_table(), i as int);
                }
                return Some(i);
            }
            i += 1;
        }
        proof {
            lemma_absent(self.files@, file_table(), file_table(), table);
        }
        None
    }

    fn stage(&mut self, table: char, table_type: TableType, tuple: DataTuple)
        requires
            old(self).valid(),
        ensures
            final(self).valid(),
            final(self).staged(table) == old(self).staged(table).push(tuple@),
            forall|t: char| t != table ==> final(self).staged(t) == old(self).staged(t),
            forall|t: char| final(self).live(t) == old(self).live(t),
            forall|t: char, e: u32| #[trigger]
                final(self).live_as_of(t, e) == old(self).live_as_of(t, e),
    {
        let ghost before = self.files@;
        match self.position(table) {
            Some(i) => {
                self.files[i].staged.push(tuple);
                proof {
                    let f = self.files@[i as int];
                    assert(self.files@ =~= before.update(i as int, f));
                    lemma_slot(before, file_table(), file_staged(), i as int);
                    lemma_slot(before, file_table(), file_live(), i as int);
                    lemma_update(before, file_table(), file_staged(), i as int, f);
                    lemma_update(before, file_table(), file_live(), i as int, f);
                    assert(log_view(f.staged@) =~= log_view(before[i as int].staged@).push(tuple@));
                    assert(content(self.files@, file_table(), file_live()) =~= content(
                        before,
                        file_table(),
                        file_live(),
                    ));
                    assert forall|t: char, e: u32| #[trigger]
                        self.live_as_of(t, e) == old(self).live_as_of(t, e) by {
                        lemma_slot(before, file_table(), file_as_of(e), i as int);
                        lemma_update(before, file_table(), file_as_of(e), i as int, f);
                        assert(content(self.files@, file_table(), file_as_of(e)) =~= content(
                            before,
                            file_table(),
                            file_as_of(e),
                        ));
                    }
                }
            },
            None => {
                let mut staged: Vec<DataTuple> = Vec::new();
                staged.push(tuple);
                let f = TableFiles {
                    table,
                    table_type,
                    segments: Vec::new(),
                    spare: Vec::new(),
                    staged,
                };
                proof {
                    lemma_absent(before, file_table(), file_staged(), table);
                    lemma_absent(before, file_table(), file_live(), table);
                    lemma_insert(before, file_table(), file_staged(), before.len() as int, f);
                    lemma_insert(before, file_table(), file_live(), before.len() as int, f);
                    assert(before.insert(before.len() as int, f) =~= before.push(f));
                    assert(log_view(f.staged@) =~= Seq::<TupleView>::empty().push(tuple@));
                    assert forall|t: char, e: u32| #[trigger]
                        log_of(content(before.push(f), file_table(), file_as_of(e)), t) == old(
                            self,
                        ).live_as_of(t, e) by {
                        lemma_absent(before, file_table(), file_as_of(e), table);
                        lemma_insert(before, file_table(), file_as_of(e), before.len() as int, f);
                    }
                }
                self.files.push(f);
            },
        }
    }
}

impl BackingStore for MemoryBackend {
    closed spec fn valid(&self) -> bool {
        unique(self.files@, file_table())
    }

    closed spec fn live(&self, table: char) -> Seq<TupleView> {
        log_of(content(self.files@, file_table(), file_live()), table)
    }

    closed spec fn staged(&self, table: char) -> Seq<TupleView> {
        log_of(content(self.files@, file_table(), file_staged()), table)
    }

    closed spec fn live_as_of(&self, table: char, epoch: u32) -> Seq<TupleView> {
        log_of(content(self.files@, file_table(), file_as_of(epoch)), table)
    }

    open spec fn store_name() -> Seq<char> {
        "memory"@
    }

    open spec fn loaded(&self, before: &Self, compaction: CompactionResult) -> bool {
        self.loads(before, &compaction)
    }

    fn name() -> (name: &'static str) {
        "memory"
    }

    fn task_info(&self) -> (info: &TaskInfo)
        ensures
            *info == self.task(),
    {
        &self.task_info
    }

    fn write_data_tuple(
        &mut self,
        table: char,
        table_type: TableType,
        timestamp: u64,
        key: &Vec<u8>,
        value: &Vec<u8>,
    ) {
        self.stage(table, table_type, DataTuple::insert(timestamp, copy_bytes(key), copy_bytes(value)));
    }

    fn delete_data_tuple(
        &mut self,
        table: char,
        table_type: TableType,
        timestamp: u64,
        key: &Vec<u8>,
    ) {
        self.stage(table, table_type, DataTuple::delete_key(timestamp, copy_bytes(key)));
    }

    fn write_key_value(&mut self, table: char, key: &Vec<u8>, value: &Vec<u8>) {
        self.stage(table, TableType::Global, DataTuple::insert(0, copy_bytes(key), copy_bytes(value)));
    }

    fn delete_key_value(&mut self, table: char, key: &Vec<u8>) {
        self.stage(table, TableType::Global, DataTuple::delete_key(0, copy_bytes(key)));
    }

    fn get_data_tuples(&self, table: char) -> (tuples: Vec<DataTuple>) {
        match self.position(table) {
            Some(i) => {
                proof {
                    lemma_slot(self.files@, file_table(), file_live(), i as int);
                }
                copy_flat(&self.files[i].segments)
            },
            None => {
                let tuples: Vec<DataTuple> = Vec::new();
                assert(log_view(tuples@) =~= Seq::<TupleView>::empty());
                tuples
            },
        }
    }

    fn get_global_key_values(&self, table: char) -> (pairs: Vec<KeyValue>) {
        let tuples = self.get_data_tuples(table);
        net_pairs(&tuples)
    }

    fn get_key_values(&self, table: char) -> (pairs: Vec<KeyValue>) {
        let tuples = self.get_data_tuples(table);
        net_pairs(&tuples)
    }

    fn checkpoint(&mut self, barrier: CheckpointBarrier, watermark: Option<u64>) -> (epoch: u32) {
        let ghost before = self.files@;
        let mut i: usize = 0;
        while i < self.files.len()
            invariant
                i <= self.files.len(),
                self.files.len() == before.len(),
                before == old(self).files@,
                unique(before, file_table()),
                forall|j: int| 0 <= j < before.len() ==> (#[trigger] self.files[j]).table
                    == before[j].table,
                forall|j: int|
                    0 <= j < i ==> flatten((#[trigger] self.files[j]).segments@) == flatten(
                        before[j].segments@,
                    ) + log_view(before[j].staged@) && log_view(self.files[j].staged@) == Seq::<
                        TupleView,
                    >::empty(),
                forall|j: int, e: u32|
                    0 <= j < i ==> #[trigger] as_of(self.files[j].segments@, e) == as_of(
                        before[j].segments@,
                        e,
                    ) + if barrier.epoch <= e {
                        log_view(before[j].staged@)
                    } else {
                        Seq::<TupleView>::empty()
                    },
                forall|j: int| i <= j < before.len() ==> #[trigger] self.files[j] == before[j],
            decreases self.files.len() - i,
        {
            let ghost current = self.files@;
            if self.files[i].staged.len() > 0 {
                let mut tuples: Vec<DataTuple> = Vec::new();
                std::mem::swap(&mut tuples, &mut self.files[i].staged);
                let handle = self.next_handle;
                self.next_handle = if handle < u64::MAX {
                    handle + 1
                } else {
                    handle
                };
                let ghost segments = self.files@[i as int].segments@;
                let segment = Segment { handle, epoch: barrier.epoch, tuples };
                self.files[i].segments.push(segment);
                proof {
                    assert(self.files@[i as int].segments@.drop_last() =~= segments);
                    assert(log_view(self.files@[i as int].staged@) =~= Seq::<TupleView>::empty());
                    assert forall|e: u32| #[trigger]
                        as_of(self.files[i as int].segments@, e) == as_of(
                            before[i as int].segments@,
                            e,
                        ) + if barrier.epoch <= e {
                            log_view(before[i as int].staged@)
                        } else {
                            Seq::<TupleView>::empty()
                        } by {
                        assert(as_of(segments, e) + Seq::<TupleView>::empty() =~= as_of(
                            segments,
                            e,
                        ));
                    }
                }
            } else {
                proof {
                    assert(log_view(before[i as int].staged@) =~= Seq::<TupleView>::empty());
                    assert(flatten(before[i as int].segments@) + Seq::<TupleView>::empty()
                        =~= flatten(before[i as int].segments@));
                    assert forall|e: u32| #[trigger]
                        as_of(self.files[i as int].segments@, e) == as_of(
                            before[i as int].segments@,
                            e,
                        ) + if barrier.epoch <= e {
                            log_view(before[i as int].staged@)
                        } else {
                            Seq::<TupleView>::empty()
                        } by {
                        assert(as_of(before[i as int].segments@, e) + Seq::<TupleView>::empty()
                            =~= as_of(before[i as int].segments@, e));
                    }
                }
            }
            assert(forall|j: int|
                0 <= j < before.len() && j != i ==> #[trigger] self.files[j] == current[j]);
            i += 1;
        }
        proof {
            lemma_same_tables(before, self.files@);
            assert forall|t: char| #[trigger]
                self.staged(t) == Seq::<TupleView>::empty() by {
                if holds(before, file_table(), t) {
                    let k = slot_of(before, file_table(), t);
                    lemma_slot(self.files@, file_table(), file_staged(), k);
                }
            }
            assert forall|t: char| #[trigger] self.live(t) == old(self).live(t) + old(self).staged(
                t,
            ) by {
                if holds(before, file_table(), t) {
                    let k = slot_of(before, file_table(), t);
                    lemma_slot(self.files@, file_table(), file_live(), k);
                    lemma_slot(before, file_table(), file_live(), k);
                    lemma_slot(before, file_table(), file_staged(), k);
                } else {
                    assert(Seq::<TupleView>::empty() + Seq::<TupleView>::empty() =~= Seq::<
                        TupleView,
                    >::empty());
                }
            }
            assert forall|t: char, e: u32| #[trigger]
                self.live_as_of(t, e) == old(self).live_as_of(t, e) + if barrier.epoch <= e {
                    old(self).staged(t)
                } else {
                    Seq::<TupleView>::empty()
                } by {
                if holds(before, file_table(), t) {
                    let k = slot_of(before, file_table(), t);
                    lemma_slot(self.files@, file_table(), file_as_of(e), k);
                    lemma_slot(before, file_table(), file_as_of(e), k);
                    lemma_slot(before, file_table(), file_staged(), k);
                } else {
                    assert(Seq::<TupleView>::empty() + Seq::<TupleView>::empty() =~= Seq::<
                        TupleView,
                    >::empty());
                }
            }
        }
        barrier.epoch
    }

    fn load_compacted(&mut self, compaction: CompactionResult)
        ensures
            final(self).loads(old(self), &compaction),
    {
        let ghost before = self.files@;
        let mut i: usize = 0;
        while i < self.files.len()
            invariant
                i <= self.files.len(),
                self.files.len() == before.len(),
                before == old(self).files@,
                unique(before, file_table()),
                forall|j: int|
                    0 <= j < i ==> {
                        let f = before[j];
                        let g = #[trigger] self.files[j];
                        &&& g.table == f.table
                        &&& g.table_type == f.table_type
                        &&& g.staged == f.staged
                        &&& if applies(
                            f,
                            compaction.backend_data_to_drop@,
                            compaction.backend_data_to_load@,
                        ) {
                            &&& g.segments@ == swapped(
                                f,
                                compaction.backend_data_to_drop@,
                                compaction.backend_data_to_load@,
                            )
                            &&& g.spare@ == f.spare@.remove(
                                first_listed(f.spare@, 0, compaction.backend_data_to_load@),
                            )
                        } else {
                            &&& g.segments == f.segments
                            &&& g.spare == f.spare
                        }
                    },
                forall|j: int| i <= j < before.len() ==> #[trigger] self.files[j] == before[j],
            decreases self.files.len() - i,
        {
            let ghost current = self.files@;
            swap_in(
                &mut self.files[i],
                &compaction.backend_data_to_drop,
                &compaction.backend_data_to_load,
            );
            assert(forall|j: int|
                0 <= j < before.len() && j != i ==> #[trigger] self.files[j] == current[j]);
            i += 1;
        }
        proof {
            lemma_same_tables(before, self.files@);
            assert forall|t: char| self.staged(t) == old(self).staged(t) by {
                if holds(before, file_table(), t) {
                    let k = slot_of(before, file_table(), t);
                    lemma_slot(self.files@, file_table(), file_staged(), k);
                    lemma_slot(before, file_table(), file_staged(), k);
                }
            }
        }
    }
}

/// Two lists that name the same tables position by position find every
/// table at the same position.
proof fn lemma_same_tables(a: Seq<TableFiles>, b: Seq<TableFiles>)
    requires
        unique(a, file_table()),
        a.len() == b.len(),
        forall|j: int| 0 <= j < a.len() ==> (#[trigger] b[j]).table == a[j].table,
    ensures
        unique(b, file_table()),
        forall|t: char|
            holds(b, file_table(), t) == holds(a, file_table(), t) && (holds(a, file_table(), t)
                ==> slot_of(b, file_table(), t) == slot_of(a, file_table(), t) && 0 <= slot_of(
                a,
                file_table(),
                t,
            ) < a.len() && a[slot_of(a, file_table(), t)].table == t),
{
    assert forall|i: int, j: int| 0 <= i < j < b.len() implies file_table()(#[trigger] b[i])
        != file_table()(#[trigger] b[j]) by {
        assert(file_table()(a[i]) != file_table()(a[j]));
    }
    assert forall|t: char|
        holds(b, file_table(), t) == holds(a, file_table(), t) && (holds(a, file_table(), t)
            ==> slot_of(b, file_table(), t) == slot_of(a, file_table(), t) && 0 <= slot_of(
            a,
            file_table(),
            t,
        ) < a.len() && a[slot_of(a, file_table(), t)].table == t) by {
        if holds(a, file_table(), t) {
            let k = slot_of(a, file_table(), t);
            assert(file_table()(a[k]) == t);
            assert(file_table()(b[k]) == t);
            lemma_slot(b, file_table(), file_table(), k);
        }
        if holds(b, file_table(), t) {
            let k = slot_of(b, file_table(), t);
            assert(file_table()(b[k]) == t);
            assert(file_table()(a[k]) == t);
        }
    }
}

proof fn lemma_skip_le_bounds(segments: Seq<Segment>, from: int, bound: u32)
    requires
        0 <= from,
    ensures
        from <= skip_le(segments, from, bound) || skip_le(segments, from, bound) == segments.len(),
        skip_le(segments, from, bound) <= segments.len(),
    decreases segments.len() - from,
{
    if from < segments.len() && segments[from].epoch <= bound {
        lemma_skip_le_bounds(segments, from + 1, bound);
    }
}

} // verus!
