//! Merging the segments of a range of epochs into one, and swapping the
//! merged segment in.

use crate::error::TableType;
use crate::memory::{flatten, Segment, TableFiles};
use crate::operation::{log_view, DataTuple, TupleView};
use crate::replay::{
    by_key, by_time_and_key, compact_log, lemma_net_run_preserves_content, net, replay,
};
use crate::tables::key_time_multi_map::multi_replay;
use vstd::prelude::*;

verus! {

/// The consolidated form of a table's changes: for tables with one value
/// per entry, the last change of every entry; for a multi-map, every insert.
pub open spec fn consolidated(log: Seq<TupleView>, kind: TableType) -> Seq<TupleView> {
    match kind {
        TableType::Global => net(log, by_key()),
        TableType::Keyed => net(log, by_key()),
        TableType::TimeKeyMap => net(log, by_time_and_key()),
        TableType::KeyTimeMultiMap => log,
    }
}

/// Two logs build the same table of the given kind.
pub open spec fn same_table_content(kind: TableType, a: Seq<TupleView>, b: Seq<TupleView>) -> bool {
    match kind {
        TableType::Global => replay(a, by_key()) == replay(b, by_key()),
        TableType::Keyed => replay(a, by_key()) == replay(b, by_key()),
        TableType::TimeKeyMap => replay(a, by_time_and_key()) == replay(b, by_time_and_key()),
        TableType::KeyTimeMultiMap => multi_replay(a) == multi_replay(b),
    }
}

/// Compaction soundness: a log in which a run of changes is replaced by its
/// consolidated form builds the same table as the log itself. A key that the
/// run inserts and later deletes is deleted by the consolidated run too, so
/// it stays absent.
pub proof fn lemma_compaction_sound(
    kind: TableType,
    before: Seq<TupleView>,
    run: Seq<TupleView>,
    after: Seq<TupleView>,
)
    ensures
        same_table_content(
            kind,
            before + consolidated(run, kind) + after,
            before + run + after,
        ),
{
    match kind {
        TableType::Global => {
            lemma_net_run_preserves_content(before, run, after, by_key());
        },
        TableType::Keyed => {
            lemma_net_run_preserves_content(before, run, after, by_key());
        },
        TableType::TimeKeyMap => {
            lemma_net_run_preserves_content(before, run, after, by_time_and_key());
        },
        TableType::KeyTimeMultiMap => {},
    }
}

/// The consolidated form of a table's changes.
pub fn consolidate(log: Vec<DataTuple>, kind: TableType) -> (out: Vec<DataTuple>)
    ensures
        log_view(out@) == consolidated(log_view(log@), kind),
{
    match kind {
        TableType::Global => compact_log(&log, false),
        TableType::Keyed => compact_log(&log, false),
        TableType::TimeKeyMap => compact_log(&log, true),
        TableType::KeyTimeMultiMap => log,
    }
}

/// The tuples of consecutive lists of segments are the tuples of the one
/// followed by the tuples of the other.
pub proof fn lemma_flatten_concat(a: Seq<Segment>, b: Seq<Segment>)
    ensures
        flatten(a + b) == flatten(a) + flatten(b),
    decreases b.len(),
{
    if b.len() == 0 {
        assert(a + b =~= a);
        assert(flatten(a) + flatten(b) =~= flatten(a));
    } else {
        lemma_flatten_concat(a, b.drop_last());
        assert((a + b).drop_last() =~= a + b.drop_last());
        assert((a + b).last() == b.last());
        assert(flatten(a + b) =~= flatten(a) + flatten(b));
    }
}

/// The first position at or after `from` whose segment holds an epoch
/// beyond `bound`; the length if there is none.
pub open spec fn skip_le(segments: Seq<Segment>, from: int, bound: u32) -> int
    decreases segments.len() - from,
{
    if from < 0 || from >= segments.len() {
        segments.len() as int
    } else if segments[from].epoch > bound {
        from
    } else {
        skip_le(segments, from + 1, bound)
    }
}

/// The run of segments that a compaction of the epochs above `old_min` up
/// to `new_min` merges: it starts at the first segment beyond `old_min` and
/// ends before the next segment beyond `new_min`.
pub fn find_run(segments: &Vec<Segment>, old_min: u32, new_min: u32) -> (r: (usize, usize))
    ensures
        r.0 == skip_le(segments@, 0, old_min),
        r.1 == if r.0 < segments.len() {
            skip_le(segments@, r.0 as int, new_min)
        } else {
            r.0 as int
        },
        r.0 <= r.1 <= segments.len(),
{
    let mut start: usize = 0;
    while start < segments.len() && segments[start].epoch <= old_min
        invariant
            start <= segments.len(),
            skip_le(segments@, 0, old_min) == skip_le(segments@, start as int, old_min),
        decreases segments.len() - start,
    {
        start += 1;
    }
    let mut end: usize = start;
    while end < segments.len() && segments[end].epoch <= new_min
        invariant
            start <= end <= segments.len(),
            start < segments.len() ==> skip_le(segments@, start as int, new_min) == skip_le(
                segments@,
                end as int,
                new_min,
            ),
        decreases segments.len() - end,
    {
        end += 1;
    }
    (start, end)
}

/// Copies of the tuples of the segments from `start` up to `end`.
pub fn merge_run(segments: &Vec<Segment>, start: usize, end: usize) -> (out: Vec<DataTuple>)
    requires
        start <= end <= segments.len(),
    ensures
        log_view(out@) == flatten(segments@.subrange(start as int, end as int)),
{
    let mut out: Vec<DataTuple> = Vec::new();
    let mut i: usize = start;
    assert(log_view(out@) =~= flatten(segments@.subrange(start as int, start as int)));
    while i < end
        invariant
            start <= i <= end <= segments.len(),
            log_view(out@) == flatten(segments@.subrange(start as int, i as int)),
        decreases end - i,
    {
        let ghost before = log_view(out@);
        let mut j: usize = 0;
        assert(before + log_view(segments[i as int].tuples@).take(0) =~= before);
        while j < segments[i].tuples.len()
            invariant
                i < segments.len(),
                j <= segments[i as int].tuples.len(),
                log_view(out@) == before + log_view(segments[i as int].tuples@).take(j as int),
            decreases segments[i as int].tuples.len() - j,
        {
            let ghost sofar = log_view(out@);
            out.push(segments[i].tuples[j].duplicate());
            assert(log_view(out@) =~= sofar.push(segments[i as int].tuples[j as int]@));
            assert(log_view(segments[i as int].tuples@).take(j + 1) =~= log_view(
                segments[i as int].tuples@,
            ).take(j as int).push(segments[i as int].tuples[j as int]@));
            j += 1;
        }
        proof {
            let whole = log_view(segments[i as int].tuples@);
            assert(whole.take(whole.len() as int) =~= whole);
            let next = segments@.subrange(start as int, i + 1);
            assert(next.drop_last() =~= segments@.subrange(start as int, i as int));
            assert(next.last() == segments[i as int]);
        }
        i += 1;
    }
    out
}

/// The handles of a list of segments, in order.
pub open spec fn handles_of(segments: Seq<Segment>) -> Seq<u64> {
    segments.map_values(|s: Segment| s.handle)
}

/// The handles of the segments from `start` up to `end`.
pub fn run_handles(segments: &Vec<Segment>, start: usize, end: usize) -> (out: Vec<u64>)
    requires
        start <= end <= segments.len(),
    ensures
        out@ == handles_of(segments@.subrange(start as int, end as int)),
{
    let mut out: Vec<u64> = Vec::new();
    let mut i: usize = start;
    while i < end
        invariant
            start <= i <= end <= segments.len(),
            out@.len() == i - start,
            forall|k: int| 0 <= k < out@.len() ==> out@[k] == segments[start + k].handle,
        decreases end - i,
    {
        out.push(segments[i].handle);
        i += 1;
    }
    assert(out@ =~= handles_of(segments@.subrange(start as int, end as int)));
    out
}

/// Whether a list of handles names `handle`.
pub fn listed(handles: &Vec<u64>, handle: u64) -> (r: bool)
    ensures
        r == handles@.contains(handle),
{
    let mut i: usize = 0;
    while i < handles.len()
        invariant
            i <= handles.len(),
            forall|j: int| 0 <= j < i ==> handles[j] != handle,
        decreases handles.len() - i,
    {
        if handles[i] == handle {
            return true;
        }
        i += 1;
    }
    false
}

/// The first position at or after `from` whose segment is named by
/// `handles`; the length if there is none.
pub open spec fn first_listed(segments: Seq<Segment>, from: int, handles: Seq<u64>) -> int
    decreases segments.len() - from,
{
    if from < 0 || from >= segments.len() {
        segments.len() as int
    } else if handles.contains(segments[from].handle) {
        from
    } else {
        first_listed(segments, from + 1, handles)
    }
}

/// The first position at or after `from` whose segment is not named by
/// `handles`; the length if there is none.
pub open spec fn listed_end(segments: Seq<Segment>, from: int, handles: Seq<u64>) -> int
    decreases segments.len() - from,
{
    if from < 0 || from >= segments.len() {
        segments.len() as int
    } else if !handles.contains(segments[from].handle) {
        from
    } else {
        listed_end(segments, from + 1, handles)
    }
}

fn find_listed(segments: &Vec<Segment>, handles: &Vec<u64>) -> (at: usize)
    ensures
        at == first_listed(segments@, 0, handles@),
        at <= segments.len(),
        at < segments.len() ==> handles@.contains(segments[at as int].handle),
{
    let mut at: usize = 0;
    while at < segments.len() && !listed(handles, segments[at].handle)
        invariant
            at <= segments.len(),
            first_listed(segments@, 0, handles@) == first_listed(segments@, at as int, handles@),
        decreases segments.len() - at,
    {
        at += 1;
    }
    at
}

fn find_listed_end(segments: &Vec<Segment>, from: usize, handles: &Vec<u64>) -> (at: usize)
    requires
        from < segments.len(),
    ensures
        at == listed_end(segments@, from as int, handles@),
        from <= at <= segments.len(),
{
    let mut at: usize = from;
    while at < segments.len() && listed(handles, segments[at].handle)
        invariant
            from <= at <= segments.len(),
            listed_end(segments@, from as int, handles@) == listed_end(
                segments@,
                at as int,
                handles@,
            ),
        decreases segments.len() - at,
    {
        at += 1;
    }
    at
}

/// Whether a compaction result applies to a table's files: it names a run
/// of live segments to drop and a spare segment to load.
pub open spec fn applies(files: TableFiles, to_drop: Seq<u64>, to_load: Seq<u64>) -> bool {
    first_listed(files.segments@, 0, to_drop) < files.segments.len() && first_listed(
        files.spare@,
        0,
        to_load,
    ) < files.spare.len()
}

/// The live segments after a compaction result is applied: the run that
/// starts at the first segment named in `to_drop` gives way to the first
/// spare segment named in `to_load`.
pub open spec fn swapped(files: TableFiles, to_drop: Seq<u64>, to_load: Seq<u64>) -> Seq<Segment> {
    let p = first_listed(files.segments@, 0, to_drop);
    let e = listed_end(files.segments@, p, to_drop);
    let q = first_listed(files.spare@, 0, to_load);
    files.segments@.subrange(0, p).push(files.spare@[q]) + files.segments@.subrange(
        e,
        files.segments.len() as int,
    )
}

/// Applies a compaction result to one table's files. Where the result names
/// both a run of live segments and a spare segment, the run gives way to the
/// spare segment; otherwise nothing changes, so that a result applied twice
/// has the effect of the result applied once.
pub fn swap_in(files: &mut TableFiles, to_drop: &Vec<u64>, to_load: &Vec<u64>)
    ensures
        final(files).table == old(files).table,
        final(files).table_type == old(files).table_type,
        final(files).staged == old(files).staged,
        if applies(*old(files), to_drop@, to_load@) {
            &&& final(files).segments@ == swapped(*old(files), to_drop@, to_load@)
            &&& final(files).spare@ == old(files).spare@.remove(
                first_listed(old(files).spare@, 0, to_load@),
            )
        } else {
            &&& final(files).segments == old(files).segments
            &&& final(files).spare == old(files).spare
        },
{
    let p = find_listed(&files.segments, to_drop);
    if p == files.segments.len() {
        return ;
    }
    let q = find_listed(&files.spare, to_load);
    if q == files.spare.len() {
        return ;
    }
    let e = find_listed_end(&files.segments, p, to_drop);
    let ghost segments = files.segments@;
    let merged = files.spare.remove(q);
    let mut dropped: usize = 0;
    assert(files.segments@ =~= segments.subrange(0, p as int) + segments.subrange(
        p as int,
        segments.len() as int,
    ));
    while dropped < e - p
        invariant
            p <= e <= segments.len(),
            dropped <= e - p,
            files.segments@ == segments.subrange(0, p as int) + segments.subrange(
                p + dropped,
                segments.len() as int,
            ),
            files.table == old(files).table,
            files.table_type == old(files).table_type,
            files.staged == old(files).staged,
            files.spare@ == old(files).spare@.remove(q as int),
        decreases e - p - dropped,
    {
        let _ = files.segments.remove(p);
        assert(files.segments@ =~= segments.subrange(0, p as int) + segments.subrange(
            p + dropped + 1,
            segments.len() as int,
        ));
        dropped += 1;
    }
    files.segments.insert(p, merged);
    assert(files.segments@ =~= segments.subrange(0, p as int).push(merged) + segments.subrange(
        e as int,
        segments.len() as int,
    ));
}

/// Swapping a run of segments for a segment that holds the run's
/// consolidated changes leaves the table's content as it was.
pub proof fn lemma_swap_sound(files: TableFiles, to_drop: Seq<u64>, to_load: Seq<u64>)
    requires
        applies(files, to_drop, to_load),
        log_view(files.spare@[first_listed(files.spare@, 0, to_load)].tuples@) == consolidated(
            flatten(
                files.segments@.subrange(
                    first_listed(files.segments@, 0, to_drop),
                    listed_end(
                        files.segments@,
                        first_listed(files.segments@, 0, to_drop),
                        to_drop,
                    ),
                ),
            ),
            files.table_type,
        ),
    ensures
        same_table_content(
            files.table_type,
            flatten(swapped(files, to_drop, to_load)),
            flatten(files.segments@),
        ),
{
    let segments = files.segments@;
    let p = first_listed(segments, 0, to_drop);
    let e = listed_end(segments, p, to_drop);
    let q = first_listed(files.spare@, 0, to_load);
    lemma_listed_bounds(segments, 0, to_drop);
    lemma_listed_end_bounds(segments, p, to_drop);
    let head = segments.subrange(0, p);
    let run = segments.subrange(p, e);
    let tail = segments.subrange(e, segments.len() as int);
    let merged = files.spare@[q];
    assert(segments =~= head + run + tail);
    lemma_flatten_concat(head + run, tail);
    lemma_flatten_concat(head, run);
    lemma_flatten_concat(head.push(merged), tail);
    assert(head.push(merged).drop_last() =~= head);
    assert(flatten(head.push(merged)) == flatten(head) + log_view(merged.tuples@));
    lemma_compaction_sound(files.table_type, flatten(head), flatten(run), flatten(tail));
}

proof fn lemma_listed_bounds(segments: Seq<Segment>, from: int, handles: Seq<u64>)
    requires
        0 <= from,
    ensures
        from <= first_listed(segments, from, handles) || first_listed(segments, from, handles)
            == segments.len(),
        first_listed(segments, from, handles) <= segments.len(),
    decreases segments.len() - from,
{
    if from < segments.len() && !handles.contains(segments[from].handle) {
        lemma_listed_bounds(segments, from + 1, handles);
    }
}

proof fn lemma_listed_end_bounds(segments: Seq<Segment>, from: int, handles: Seq<u64>)
    requires
        0 <= from <= segments.len(),
    ensures
        from <= listed_end(segments, from, handles) <= segments.len(),
    decreases segments.len() - from,
{
    if from < segments.len() && handles.contains(segments[from].handle) {
        lemma_listed_end_bounds(segments, from + 1, handles);
    }
}

/// No two segments of the list share a handle.
pub open spec fn distinct_handles(segments: Seq<Segment>) -> bool {
    forall|i: int, j: int|
        0 <= i < j < segments.len() ==> (#[trigger] segments[i]).handle != (
        #[trigger] segments[j]).handle
}

proof fn lemma_first_listed_at(segments: Seq<Segment>, from: int, at: int, handles: Seq<u64>)
    requires
        0 <= from <= at < segments.len(),
        handles.contains(segments[at].handle),
        forall|i: int| from <= i < at ==> !handles.contains((#[trigger] segments[i]).handle),
    ensures
        first_listed(segments, from, handles) == at,
    decreases at - from,
{
    if from < at {
        lemma_first_listed_at(segments, from + 1, at, handles);
    }
}

proof fn lemma_listed_end_at(segments: Seq<Segment>, from: int, at: int, handles: Seq<u64>)
    requires
        0 <= from <= at <= segments.len(),
        at < segments.len() ==> !handles.contains(segments[at].handle),
        forall|i: int| from <= i < at ==> handles.contains((#[trigger] segments[i]).handle),
    ensures
        listed_end(segments, from, handles) == at,
    decreases at - from,
{
    if from < at {
        lemma_listed_end_at(segments, from + 1, at, handles);
    }
}

/// Among segments with distinct handles, the handles of a run name that
/// run and nothing else.
pub proof fn lemma_run_found(segments: Seq<Segment>, start: int, end: int)
    requires
        0 <= start < end <= segments.len(),
        distinct_handles(segments),
    ensures
        first_listed(segments, 0, handles_of(segments.subrange(start, end))) == start,
        listed_end(segments, start, handles_of(segments.subrange(start, end))) == end,
{
    let run = segments.subrange(start, end);
    let handles = handles_of(run);
    assert forall|i: int| 0 <= i < segments.len() implies (handles.contains(
        (#[trigger] segments[i]).handle,
    ) <==> start <= i < end) by {
        if start <= i < end {
            assert(handles[i - start] == segments[i].handle);
        }
        if handles.contains(segments[i].handle) {
            let k = choose|k: int| 0 <= k < handles.len() && handles[k] == segments[i].handle;
            assert(run[k] == segments[start + k]);
            if i < start + k {
                assert(segments[i].handle != segments[start + k].handle);
            }
            if start + k < i {
                assert(segments[start + k].handle != segments[i].handle);
            }
        }
    }
    lemma_first_listed_at(segments, 0, start, handles);
    lemma_listed_end_at(segments, start, end, handles);
}

/// Compaction soundness from end to end: where a table's segments have
/// distinct handles and a compaction wrote, under a handle that no spare
/// segment had, the consolidated form of a run of them, loading the
/// compaction's result applies, and the table holds afterwards what it held
/// before.
pub proof fn lemma_compact_then_load_sound(
    before: TableFiles,
    compacted: TableFiles,
    start: int,
    end: int,
    to_drop: Seq<u64>,
    to_load: Seq<u64>,
)
    requires
        0 <= start < end <= before.segments.len(),
        distinct_handles(before.segments@),
        compacted.table_type == before.table_type,
        compacted.segments@ == before.segments@,
        compacted.spare@.len() == before.spare@.len() + 1,
        compacted.spare@.drop_last() == before.spare@,
        forall|i: int|
            0 <= i < before.spare@.len() ==> (#[trigger] before.spare@[i]).handle
                != compacted.spare@.last().handle,
        to_drop == handles_of(before.segments@.subrange(start, end)),
        to_load == seq![compacted.spare@.last().handle],
        log_view(compacted.spare@.last().tuples@) == consolidated(
            flatten(before.segments@.subrange(start, end)),
            before.table_type,
        ),
    ensures
        applies(compacted, to_drop, to_load),
        same_table_content(
            before.table_type,
            flatten(swapped(compacted, to_drop, to_load)),
            flatten(before.segments@),
        ),
{
    lemma_run_found(before.segments@, start, end);
    let spare = compacted.spare@;
    let last = spare.len() - 1;
    assert(to_load[0] == spare[last].handle);
    assert forall|i: int| 0 <= i < last implies !to_load.contains((#[trigger] spare[i]).handle) by {
        assert(spare[i] == before.spare@[i]);
    }
    lemma_first_listed_at(spare, 0, last, to_load);
    lemma_swap_sound(compacted, to_drop, to_load);
}

/// Whether no two segments of the list share a handle.
pub fn handles_distinct(segments: &Vec<Segment>) -> (r: bool)
    ensures
        r == distinct_handles(segments@),
{
    let mut j: usize = 0;
    while j < segments.len()
        invariant
            j <= segments.len(),
            distinct_handles(segments@.take(j as int)),
        decreases segments.len() - j,
    {
        let mut i: usize = 0;
        while i < j
            invariant
                i <= j < segments.len(),
                forall|k: int| 0 <= k < i ==> (#[trigger] segments[k]).handle
                    != segments[j as int].handle,
            decreases j - i,
        {
            if segments[i].handle == segments[j].handle {
                return false;
            }
            i += 1;
        }
        proof {
            let init = segments@.take(j as int);
            let next = segments@.take(j + 1);
            assert forall|a: int, b: int| 0 <= a < b < next.len() implies (#[trigger] next[a]).handle
                != (#[trigger] next[b]).handle by {
                if b < j {
                    assert(init[a].handle != init[b].handle);
                } else {
                    assert(segments[a].handle != segments[j as int].handle);
                }
            }
        }
        j += 1;
    }
    assert(segments@.take(segments.len() as int) =~= segments@);
    true
}

/// Some segment of the list has the handle.
pub open spec fn names(segments: Seq<Segment>, handle: u64) -> bool {
    exists|i: int| 0 <= i < segments.len() && (#[trigger] segments[i]).handle == handle
}

/// Whether some segment of the list has the handle.
pub fn has_handle(segments: &Vec<Segment>, handle: u64) -> (r: bool)
    ensures
        r == names(segments@, handle),
{
    let mut i: usize = 0;
    while i < segments.len()
        invariant
            i <= segments.len(),
            forall|k: int| 0 <= k < i ==> (#[trigger] segments[k]).handle != handle,
        decreases segments.len() - i,
    {
        if segments[i].handle == handle {
            return true;
        }
        i += 1;
    }
    false
}

} // verus!
