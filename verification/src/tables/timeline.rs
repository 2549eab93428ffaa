//! Entries ordered by event time, equal times in order of arrival.

use crate::bytes::copy_bytes;
use crate::operation::{DataTuple, TupleView};
use vstd::prelude::*;

verus! {

/// A value stored under an event time and a key.
#[derive(Debug)]
pub struct TimedEntry {
    pub timestamp: u64,
    pub key: Vec<u8>,
    pub value: Vec<u8>,
}

/// The mathematical content of a [`TimedEntry`].
pub struct EntryView {
    pub timestamp: u64,
    pub key: Seq<u8>,
    pub value: Seq<u8>,
}

impl View for TimedEntry {
    type V = EntryView;

    open spec fn view(&self) -> EntryView {
        EntryView { timestamp: self.timestamp, key: self.key@, value: self.value@ }
    }
}

/// The contents of a list of entries, in order.
pub open spec fn entries_view(entries: Seq<TimedEntry>) -> Seq<EntryView> {
    entries.map_values(|e: TimedEntry| e@)
}

/// The entry that an insert tuple stores.
pub open spec fn entry_of(t: TupleView) -> EntryView {
    EntryView { timestamp: t.timestamp, key: t.key, value: t.value }
}

/// Event times never decrease along the list.
pub open spec fn sorted(s: Seq<EntryView>) -> bool {
    forall|i: int, j: int| 0 <= i <= j < s.len() ==> s[i].timestamp <= s[j].timestamp
}

/// The position just behind the last entry that is not later than `timestamp`.
pub open spec fn rank(s: Seq<EntryView>, timestamp: u64) -> int
    decreases s.len(),
{
    if s.len() == 0 {
        0
    } else if s.last().timestamp <= timestamp {
        s.len() as int
    } else {
        rank(s.drop_last(), timestamp)
    }
}

/// The list with `e` placed behind every entry that is not later than it:
/// by event time first, by arrival among equal times.
pub open spec fn place(s: Seq<EntryView>, e: EntryView) -> Seq<EntryView> {
    s.insert(rank(s, e.timestamp), e)
}

/// The rank lies within the list, behind an entry that is not later than
/// the event time and before every entry that is later.
pub proof fn lemma_rank(s: Seq<EntryView>, timestamp: u64)
    ensures
        0 <= rank(s, timestamp) <= s.len(),
        rank(s, timestamp) > 0 ==> s[rank(s, timestamp) - 1].timestamp <= timestamp,
        forall|j: int| rank(s, timestamp) <= j < s.len() ==> s[j].timestamp > timestamp,
    decreases s.len(),
{
    if s.len() > 0 && s.last().timestamp > timestamp {
        let init = s.drop_last();
        lemma_rank(init, timestamp);
        assert forall|j: int| rank(s, timestamp) <= j < s.len() implies s[j].timestamp
            > timestamp by {
            if j < init.len() {
                assert(init[j] == s[j]);
            }
        }
        if rank(s, timestamp) > 0 {
            assert(init[rank(s, timestamp) - 1] == s[rank(s, timestamp) - 1]);
        }
    }
}

/// Placing an entry keeps a sorted list sorted.
pub proof fn lemma_place_sorted(s: Seq<EntryView>, e: EntryView)
    requires
        sorted(s),
    ensures
        sorted(place(s, e)),
{
    lemma_rank(s, e.timestamp);
    let r = rank(s, e.timestamp);
    let after = place(s, e);
    assert forall|i: int, j: int| 0 <= i <= j < after.len() implies after[i].timestamp
        <= after[j].timestamp by {
        if i < r {
            assert(after[i] == s[i]);
            assert(s[i].timestamp <= s[r - 1].timestamp);
        }
        if i > r {
            assert(after[i] == s[i - 1]);
        }
        if j < r {
            assert(after[j] == s[j]);
        }
        if j > r {
            assert(after[j] == s[j - 1]);
        }
    }
}

/// The position at which `place` puts an entry of the given event time.
pub fn upper_bound(entries: &Vec<TimedEntry>, timestamp: u64) -> (pos: usize)
    ensures
        pos == rank(entries_view(entries@), timestamp),
        pos <= entries.len(),
{
    let ghost s = entries_view(entries@);
    let mut pos: usize = entries.len();
    assert(s.take(pos as int) =~= s);
    while pos > 0 && entries[pos - 1].timestamp > timestamp
        invariant
            pos <= entries.len(),
            s == entries_view(entries@),
            rank(s, timestamp) == rank(s.take(pos as int), timestamp),
        decreases pos,
    {
        assert(s.take(pos as int).drop_last() =~= s.take(pos - 1));
        pos -= 1;
    }
    proof {
        if pos > 0 {
            assert(s.take(pos as int).last() == s[pos - 1]);
        }
    }
    pos
}

/// Places an entry by event time, behind its equals.
pub fn place_entry(entries: &mut Vec<TimedEntry>, e: TimedEntry)
    ensures
        entries_view(final(entries)@) == place(entries_view(old(entries)@), e@),
{
    let pos = upper_bound(entries, e.timestamp);
    entries.insert(pos, e);
    assert(entries_view(entries@) =~= place(entries_view(old(entries)@), e@));
}

/// The entry that holds a copy of an insert tuple's key and value.
pub fn entry_from(t: &DataTuple) -> (e: TimedEntry)
    ensures
        e@ == entry_of(t@),
{
    TimedEntry { timestamp: t.timestamp, key: copy_bytes(&t.key), value: copy_bytes(&t.value) }
}

} // verus!
