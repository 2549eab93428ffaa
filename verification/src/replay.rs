use crate::bytes::same_bytes;
use crate::operation::{log_view, DataOperation, DataTuple, TupleView};
use vstd::prelude::*;

verus! {

/// Identity of a tuple in a table that holds one entry per key.
pub open spec fn by_key() -> spec_fn(TupleView) -> Seq<u8> {
    |t: TupleView| t.key
}

/// Identity of a tuple in a table that holds one entry per event time and key.
pub open spec fn by_time_and_key() -> spec_fn(TupleView) -> (u64, Seq<u8>) {
    |t: TupleView| (t.timestamp, t.key)
}

/// The effect of one tuple on a table's content.
pub open spec fn apply<K>(m: Map<K, Seq<u8>>, t: TupleView, id: spec_fn(TupleView) -> K) -> Map<
    K,
    Seq<u8>,
> {
    match t.operation {
        DataOperation::Insert => m.insert(id(t), t.value),
        DataOperation::DeleteKey => m.remove(id(t)),
    }
}

/// The effect of a log on a table's content, oldest tuple first.
pub open spec fn apply_all<K>(
    m: Map<K, Seq<u8>>,
    log: Seq<TupleView>,
    id: spec_fn(TupleView) -> K,
) -> Map<K, Seq<u8>>
    decreases log.len(),
{
    if log.len() == 0 {
        m
    } else {
        apply(apply_all(m, log.drop_last(), id), log.last(), id)
    }
}

/// The content that a log builds from nothing: for every identity, the value
/// of its last tuple if that tuple is an insert, and no entry otherwise.
pub open spec fn replay<K>(log: Seq<TupleView>, id: spec_fn(TupleView) -> K) -> Map<K, Seq<u8>> {
    apply_all(Map::empty(), log, id)
}

/// The last tuple of a log that names identity `k`, if there is one.
pub open spec fn last_of<K>(log: Seq<TupleView>, id: spec_fn(TupleView) -> K, k: K) -> Option<
    TupleView,
>
    decreases log.len(),
{
    if log.len() == 0 {
        None
    } else if id(log.last()) == k {
        Some(log.last())
    } else {
        last_of(log.drop_last(), id, k)
    }
}

/// A log without the tuples of one identity.
pub open spec fn without<K>(log: Seq<TupleView>, k: K, id: spec_fn(TupleView) -> K) -> Seq<
    TupleView,
>
    decreases log.len(),
{
    if log.len() == 0 {
        Seq::empty()
    } else if id(log.last()) == k {
        without(log.drop_last(), k, id)
    } else {
        without(log.drop_last(), k, id).push(log.last())
    }
}

/// Adds a tuple to a net log: it displaces every earlier tuple of its identity.
pub open spec fn net_step<K>(net: Seq<TupleView>, t: TupleView, id: spec_fn(TupleView) -> K) -> Seq<
    TupleView,
> {
    without(net, id(t), id).push(t)
}

/// The net form of a log: for every identity only its last tuple, the kept
/// tuples in the order in which they occur.
pub open spec fn net<K>(log: Seq<TupleView>, id: spec_fn(TupleView) -> K) -> Seq<TupleView>
    decreases log.len(),
{
    if log.len() == 0 {
        Seq::empty()
    } else {
        net_step(net(log.drop_last(), id), log.last(), id)
    }
}

/// Applying a log in two parts is applying it whole.
pub proof fn lemma_apply_all_concat<K>(
    m: Map<K, Seq<u8>>,
    a: Seq<TupleView>,
    b: Seq<TupleView>,
    id: spec_fn(TupleView) -> K,
)
    ensures
        apply_all(m, a + b, id) == apply_all(apply_all(m, a, id), b, id),
    decreases b.len(),
{
    if b.len() == 0 {
        assert(a + b =~= a);
    } else {
        lemma_apply_all_concat(m, a, b.drop_last(), id);
        assert((a + b).drop_last() =~= a + b.drop_last());
        assert((a + b).last() == b.last());
    }
}

/// Applying a log extended by one tuple.
pub proof fn lemma_apply_all_push<K>(
    m: Map<K, Seq<u8>>,
    log: Seq<TupleView>,
    t: TupleView,
    id: spec_fn(TupleView) -> K,
)
    ensures
        apply_all(m, log.push(t), id) == apply(apply_all(m, log, id), t, id),
{
    assert(log.push(t).drop_last() =~= log);
    assert(log.push(t).last() == t);
}

/// Dropping the tuples of one identity changes nothing for any other identity.
pub proof fn lemma_without_agrees<K>(
    m: Map<K, Seq<u8>>,
    log: Seq<TupleView>,
    k: K,
    id: spec_fn(TupleView) -> K,
    other: K,
)
    requires
        other != k,
    ensures
        apply_all(m, without(log, k, id), id).contains_key(other) == apply_all(
            m,
            log,
            id,
        ).contains_key(other),
        apply_all(m, log, id).contains_key(other) ==> apply_all(m, without(log, k, id), id)[other]
            == apply_all(m, log, id)[other],
    decreases log.len(),
{
    if log.len() > 0 {
        lemma_without_agrees(m, log.drop_last(), k, id, other);
        if id(log.last()) != k {
            lemma_apply_all_push(m, without(log.drop_last(), k, id), log.last(), id);
        }
    }
}

/// A net log extended by one tuple has the effect of the log so extended.
pub proof fn lemma_net_step_applies<K>(
    m: Map<K, Seq<u8>>,
    log: Seq<TupleView>,
    t: TupleView,
    id: spec_fn(TupleView) -> K,
)
    ensures
        apply_all(m, net_step(log, t, id), id) == apply(apply_all(m, log, id), t, id),
{
    let k = id(t);
    let trimmed = without(log, k, id);
    lemma_apply_all_push(m, trimmed, t, id);
    let left = apply(apply_all(m, trimmed, id), t, id);
    let right = apply(apply_all(m, log, id), t, id);
    assert forall|other: K| #[trigger] left.dom().contains(other) == right.dom().contains(
        other,
    ) by {
        if other != k {
            lemma_without_agrees(m, log, k, id, other);
        }
    }
    assert forall|other: K| left.dom().contains(other) implies #[trigger] left[other]
        == right[other] by {
        if other != k {
            lemma_without_agrees(m, log, k, id, other);
        }
    }
    assert(left =~= right);
}

/// Compaction soundness: on every starting content, the net form of a log
/// has the effect of the log itself. In particular an insert followed by a
/// delete of the same identity nets to a delete, so the entry stays absent.
pub proof fn lemma_net_preserves_content<K>(
    m: Map<K, Seq<u8>>,
    log: Seq<TupleView>,
    id: spec_fn(TupleView) -> K,
)
    ensures
        apply_all(m, net(log, id), id) == apply_all(m, log, id),
    decreases log.len(),
{
    if log.len() > 0 {
        lemma_net_preserves_content(m, log.drop_last(), id);
        lemma_net_step_applies(m, net(log.drop_last(), id), log.last(), id);
    }
}

/// Whether two tuples name the same entry.
pub fn same_identity(a: &DataTuple, b: &DataTuple, timed: bool) -> (r: bool)
    ensures
        timed ==> r == (by_time_and_key()(a@) == by_time_and_key()(b@)),
        !timed ==> r == (by_key()(a@) == by_key()(b@)),
{
    if timed && a.timestamp != b.timestamp {
        false
    } else {
        same_bytes(&a.key, &b.key)
    }
}

/// Records a change in a net log, displacing earlier changes to the same entry.
pub fn net_push(log: &mut Vec<DataTuple>, t: DataTuple, timed: bool)
    ensures
        timed ==> log_view(final(log)@) == net_step(log_view(old(log)@), t@, by_time_and_key()),
        !timed ==> log_view(final(log)@) == net_step(log_view(old(log)@), t@, by_key()),
{
    let ghost orig = log_view(log@);
    let ghost mut done: int = 0;
    let mut i: usize = 0;
    while i < log.len()
        invariant
            0 <= i <= log.len(),
            0 <= done <= orig.len(),
            log.len() - i == orig.len() - done,
            log_view(log@).skip(i as int) == orig.skip(done),
            timed ==> log_view(log@).take(i as int) == without(
                orig.take(done),
                by_time_and_key()(t@),
                by_time_and_key(),
            ),
            !timed ==> log_view(log@).take(i as int) == without(
                orig.take(done),
                by_key()(t@),
                by_key(),
            ),
        decreases log.len() - i,
    {
        let ghost before = log_view(log@);
        assert(before[i as int] == before.skip(i as int)[0]);
        assert(orig[done] == orig.skip(done)[0]);
        assert(orig.take(done + 1).drop_last() =~= orig.take(done));
        assert(orig.take(done + 1).last() == orig[done]);
        if same_identity(&log[i], &t, timed) {
            log.remove(i);
            assert(log_view(log@) =~= before.remove(i as int));
            assert(log_view(log@).skip(i as int) =~= before.skip(i as int).skip(1));
            assert(orig.skip(done + 1) =~= orig.skip(done).skip(1));
            assert(log_view(log@).take(i as int) =~= before.take(i as int));
        } else {
            assert(before.take(i + 1) =~= before.take(i as int).push(before[i as int]));
            assert(before.skip(i + 1) =~= before.skip(i as int).skip(1));
            assert(orig.skip(done + 1) =~= orig.skip(done).skip(1));
            i += 1;
        }
        proof {
            done = done + 1;
        }
    }
    proof {
        assert(orig.take(done) =~= orig);
        assert(log_view(log@).take(i as int) =~= log_view(log@));
    }
    let ghost trimmed = log_view(log@);
    log.push(t);
    assert(log_view(log@) =~= trimmed.push(t@));
}

/// The net form of a log: for every entry only its last change.
pub fn compact_log(log: &Vec<DataTuple>, timed: bool) -> (out: Vec<DataTuple>)
    ensures
        timed ==> log_view(out@) == net(log_view(log@), by_time_and_key()),
        !timed ==> log_view(out@) == net(log_view(log@), by_key()),
{
    let ghost whole = log_view(log@);
    let mut out: Vec<DataTuple> = Vec::new();
    let mut i: usize = 0;
    assert(log_view(out@) =~= Seq::<TupleView>::empty());
    assert(whole.take(0) =~= Seq::<TupleView>::empty());
    while i < log.len()
        invariant
            i <= log.len(),
            whole == log_view(log@),
            timed ==> log_view(out@) == net(whole.take(i as int), by_time_and_key()),
            !timed ==> log_view(out@) == net(whole.take(i as int), by_key()),
        decreases log.len() - i,
    {
        assert(whole.take(i + 1).drop_last() =~= whole.take(i as int));
        assert(whole.take(i + 1).last() == log[i as int]@);
        net_push(&mut out, log[i].duplicate(), timed);
        i += 1;
    }
    assert(whole.take(log.len() as int) =~= whole);
    out
}

/// Replacing a run of changes inside a log by its net form changes nothing
/// of what the log builds, whatever precedes and follows the run.
pub proof fn lemma_net_run_preserves_content<K>(
    before: Seq<TupleView>,
    run: Seq<TupleView>,
    after: Seq<TupleView>,
    id: spec_fn(TupleView) -> K,
)
    ensures
        replay(before + net(run, id) + after, id) == replay(before + run + after, id),
{
    let m = Map::<K, Seq<u8>>::empty();
    lemma_apply_all_concat(m, before + net(run, id), after, id);
    lemma_apply_all_concat(m, before + run, after, id);
    lemma_apply_all_concat(m, before, net(run, id), id);
    lemma_apply_all_concat(m, before, run, id);
    lemma_net_preserves_content(apply_all(m, before, id), run, id);
}

/// What a log builds is, for every identity, decided by its last tuple of
/// that identity: the tuple's value if it is an insert, no entry if it is a
/// delete, and no entry if the log holds no such tuple.
pub proof fn lemma_replay_last_write<K>(log: Seq<TupleView>, id: spec_fn(TupleView) -> K, k: K)
    ensures
        match last_of(log, id, k) {
            Some(t) => match t.operation {
                DataOperation::Insert => replay(log, id).dom().contains(k) && replay(log, id)[k]
                    == t.value,
                DataOperation::DeleteKey => !replay(log, id).dom().contains(k),
            },
            None => !replay(log, id).dom().contains(k),
        },
    decreases log.len(),
{
    if log.len() > 0 {
        lemma_replay_last_write(log.drop_last(), id, k);
    }
}

} // verus!
