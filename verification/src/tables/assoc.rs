//! Lists of entries read as maps: the entry of an identity is the one list
//! element that carries it.

use vstd::prelude::*;

verus! {

/// Some element of the list carries identity `k`.
pub open spec fn holds<E, K>(entries: Seq<E>, id: spec_fn(E) -> K, k: K) -> bool {
    exists|i: int| 0 <= i < entries.len() && id(#[trigger] entries[i]) == k
}

/// The position of an element that carries identity `k`.
pub open spec fn slot_of<E, K>(entries: Seq<E>, id: spec_fn(E) -> K, k: K) -> int {
    choose|i: int| 0 <= i < entries.len() && id(#[trigger] entries[i]) == k
}

/// No two elements carry the same identity.
pub open spec fn unique<E, K>(entries: Seq<E>, id: spec_fn(E) -> K) -> bool {
    forall|i: int, j: int|
        0 <= i < j < entries.len() ==> id(#[trigger] entries[i]) != id(#[trigger] entries[j])
}

/// The map from each identity in the list to the value of its element.
pub open spec fn content<E, K, V>(entries: Seq<E>, id: spec_fn(E) -> K, val: spec_fn(E) -> V) -> Map<
    K,
    V,
> {
    Map::new(|k: K| holds(entries, id, k), |k: K| val(entries[slot_of(entries, id, k)]))
}

/// Among unique identities, an element is the one found under its identity.
pub proof fn lemma_slot<E, K, V>(
    entries: Seq<E>,
    id: spec_fn(E) -> K,
    val: spec_fn(E) -> V,
    i: int,
)
    requires
        unique(entries, id),
        0 <= i < entries.len(),
    ensures
        holds(entries, id, id(entries[i])),
        slot_of(entries, id, id(entries[i])) == i,
        content(entries, id, val).dom().contains(id(entries[i])),
        content(entries, id, val)[id(entries[i])] == val(entries[i]),
{
    let j = slot_of(entries, id, id(entries[i]));
    assert(0 <= j < entries.len() && id(entries[j]) == id(entries[i]));
    if j < i {
        assert(id(entries[j]) != id(entries[i]));
    }
    if i < j {
        assert(id(entries[i]) != id(entries[j]));
    }
}

/// An identity that no element carries is not bound.
pub proof fn lemma_absent<E, K, V>(
    entries: Seq<E>,
    id: spec_fn(E) -> K,
    val: spec_fn(E) -> V,
    k: K,
)
    requires
        forall|i: int| 0 <= i < entries.len() ==> id(#[trigger] entries[i]) != k,
    ensures
        !content(entries, id, val).dom().contains(k),
{
    if holds(entries, id, k) {
        let j = slot_of(entries, id, k);
        assert(id(entries[j]) == k);
    }
}

/// Replacing an element by one of the same identity rebinds that identity.
pub proof fn lemma_update<E, K, V>(
    entries: Seq<E>,
    id: spec_fn(E) -> K,
    val: spec_fn(E) -> V,
    i: int,
    e: E,
)
    requires
        unique(entries, id),
        0 <= i < entries.len(),
        id(e) == id(entries[i]),
    ensures
        unique(entries.update(i, e), id),
        content(entries.update(i, e), id, val) == content(entries, id, val).insert(id(e), val(e)),
{
    let after = entries.update(i, e);
    assert forall|a: int, b: int| 0 <= a < b < after.len() implies id(#[trigger] after[a]) != id(
        #[trigger] after[b],
    ) by {
        assert(id(after[a]) == id(entries[a]));
        assert(id(after[b]) == id(entries[b]));
    }
    let left = content(after, id, val);
    let right = content(entries, id, val).insert(id(e), val(e));
    lemma_slot(after, id, val, i);
    lemma_slot(entries, id, val, i);
    assert forall|k: K| #[trigger] left.dom().contains(k) == right.dom().contains(k) by {
        if holds(entries, id, k) {
            let j = slot_of(entries, id, k);
            assert(id(after[j]) == k);
        }
        if holds(after, id, k) {
            let j = slot_of(after, id, k);
            assert(id(entries[j]) == k);
        }
    }
    assert forall|k: K| left.dom().contains(k) implies #[trigger] left[k] == right[k] by {
        if k != id(e) {
            let j = slot_of(after, id, k);
            assert(id(after[j]) == k);
            assert(j != i);
            lemma_slot(entries, id, val, j);
        }
    }
    assert(left =~= right);
}

/// Inserting an element of a new identity, at any position, binds that identity.
pub proof fn lemma_insert<E, K, V>(
    entries: Seq<E>,
    id: spec_fn(E) -> K,
    val: spec_fn(E) -> V,
    pos: int,
    e: E,
)
    requires
        unique(entries, id),
        0 <= pos <= entries.len(),
        forall|i: int| 0 <= i < entries.len() ==> id(#[trigger] entries[i]) != id(e),
    ensures
        unique(entries.insert(pos, e), id),
        content(entries.insert(pos, e), id, val) == content(entries, id, val).insert(id(e), val(e)),
{
    let after = entries.insert(pos, e);
    assert forall|a: int| 0 <= a < after.len() && a != pos implies #[trigger] after[a]
        == entries[if a < pos {
        a
    } else {
        a - 1
    }] by {}
    assert forall|a: int, b: int| 0 <= a < b < after.len() implies id(#[trigger] after[a]) != id(
        #[trigger] after[b],
    ) by {
        let a0 = if a < pos { a } else { a - 1 };
        let b0 = if b < pos { b } else { b - 1 };
        if a != pos && b != pos {
            assert(after[a] == entries[a0]);
            assert(after[b] == entries[b0]);
            assert(id(entries[a0]) != id(entries[b0]));
        } else if a == pos {
            assert(after[b] == entries[b0]);
        } else {
            assert(after[a] == entries[a0]);
        }
    }
    let left = content(after, id, val);
    let right = content(entries, id, val).insert(id(e), val(e));
    lemma_slot(after, id, val, pos);
    assert forall|k: K| #[trigger] left.dom().contains(k) == right.dom().contains(k) by {
        if holds(entries, id, k) {
            let j = slot_of(entries, id, k);
            let j1 = if j < pos { j } else { j + 1 };
            assert(after[j1] == entries[j]);
            assert(id(after[j1]) == k);
        }
        if holds(after, id, k) {
            let j = slot_of(after, id, k);
            if j != pos {
                let j0 = if j < pos { j } else { j - 1 };
                assert(after[j] == entries[j0]);
                assert(id(entries[j0]) == k);
            }
        }
    }
    assert forall|k: K| left.dom().contains(k) implies #[trigger] left[k] == right[k] by {
        if k != id(e) {
            let j = slot_of(after, id, k);
            assert(id(after[j]) == k);
            assert(j != pos);
            let j0 = if j < pos { j } else { j - 1 };
            assert(after[j] == entries[j0]);
            lemma_slot(entries, id, val, j0);
        }
    }
    assert(left =~= right);
}

/// Removing an element unbinds its identity.
pub proof fn lemma_remove<E, K, V>(
    entries: Seq<E>,
    id: spec_fn(E) -> K,
    val: spec_fn(E) -> V,
    i: int,
)
    requires
        unique(entries, id),
        0 <= i < entries.len(),
    ensures
        unique(entries.remove(i), id),
        content(entries.remove(i), id, val) == content(entries, id, val).remove(id(entries[i])),
{
    let after = entries.remove(i);
    let gone = id(entries[i]);
    assert forall|a: int, b: int| 0 <= a < b < after.len() implies id(#[trigger] after[a]) != id(
        #[trigger] after[b],
    ) by {
        let a0 = if a < i { a } else { a + 1 };
        let b0 = if b < i { b } else { b + 1 };
        assert(after[a] == entries[a0]);
        assert(after[b] == entries[b0]);
        assert(id(entries[a0]) != id(entries[b0]));
    }
    let left = content(after, id, val);
    let right = content(entries, id, val).remove(gone);
    assert forall|k: K| #[trigger] left.dom().contains(k) == right.dom().contains(k) by {
        if holds(entries, id, k) && k != gone {
            let j = slot_of(entries, id, k);
            assert(j != i);
            let j1 = if j < i { j } else { j - 1 };
            assert(after[j1] == entries[j]);
            assert(id(after[j1]) == k);
        }
        if holds(after, id, k) {
            let j = slot_of(after, id, k);
            let j0 = if j < i { j } else { j + 1 };
            assert(after[j] == entries[j0]);
            assert(id(entries[j0]) == k);
            lemma_slot(entries, id, val, i);
            lemma_slot(entries, id, val, j0);
        }
    }
    assert forall|k: K| left.dom().contains(k) implies #[trigger] left[k] == right[k] by {
        let j = slot_of(after, id, k);
        let j0 = if j < i { j } else { j + 1 };
        assert(after[j] == entries[j0]);
        lemma_slot(entries, id, val, j0);
    }
    assert(left =~= right);
}

} // verus!
