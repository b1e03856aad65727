//! The map that a tree stands for, and what each operation does to it.

use vstd::prelude::*;

verus! {

/// The map after an attempt to insert `k` with `v`: a key that is already
/// there keeps its value.
pub open spec fn after_insert<K, V>(m: Map<K, V>, k: K, v: V) -> Map<K, V> {
    if m.contains_key(k) {
        m
    } else {
        m.insert(k, v)
    }
}

/// The map after the removal of `k`.
pub open spec fn after_remove<K, V>(m: Map<K, V>, k: K) -> Map<K, V> {
    m.remove(k)
}

/// What a search for `k` gives.
pub open spec fn found<K, V>(m: Map<K, V>, k: K) -> Option<V> {
    if m.contains_key(k) {
        Some(m[k])
    } else {
        None
    }
}

/// The entry that a removal of `k` hands out.
pub open spec fn taken<K, V>(m: Map<K, V>, k: K) -> Option<(K, V)> {
    if m.contains_key(k) {
        Some((k, m[k]))
    } else {
        None
    }
}

/// One change asked of a tree.
pub enum Edit<K, V> {
    Insert(K, V),
    Remove(K),
}

/// Whether the change takes place: an insertion of a key that is not yet
/// there, or a removal of a key that is.
pub open spec fn takes_place<K, V>(m: Map<K, V>, edit: Edit<K, V>) -> bool {
    match edit {
        Edit::Insert(k, _) => !m.contains_key(k),
        Edit::Remove(k) => m.contains_key(k),
    }
}

/// The map after the change.
pub open spec fn after_edit<K, V>(m: Map<K, V>, edit: Edit<K, V>) -> Map<K, V> {
    match edit {
        Edit::Insert(k, v) => after_insert(m, k, v),
        Edit::Remove(k) => after_remove(m, k),
    }
}

/// The map after a run of changes to an empty tree.
pub open spec fn replay<K, V>(edits: Seq<Edit<K, V>>) -> Map<K, V>
    decreases edits.len(),
{
    if edits.len() == 0 {
        Map::empty()
    } else {
        after_edit(replay(edits.drop_last()), edits.last())
    }
}

/// How many insertions of the run took place.
pub open spec fn inserts_done<K, V>(edits: Seq<Edit<K, V>>) -> nat
    decreases edits.len(),
{
    if edits.len() == 0 {
        0
    } else {
        let earlier = inserts_done(edits.drop_last());
        if edits.last() is Insert && takes_place(replay(edits.drop_last()), edits.last()) {
            earlier + 1
        } else {
            earlier
        }
    }
}

/// How many removals of the run took place.
pub open spec fn removes_done<K, V>(edits: Seq<Edit<K, V>>) -> nat
    decreases edits.len(),
{
    if edits.len() == 0 {
        0
    } else {
        let earlier = removes_done(edits.drop_last());
        if edits.last() is Remove && takes_place(replay(edits.drop_last()), edits.last()) {
            earlier + 1
        } else {
            earlier
        }
    }
}

/// A search for a key right after its insertion finds the value that was
/// inserted, unless the key was there before with another value.
pub proof fn lemma_find_after_insert<K, V>(m: Map<K, V>, k: K, v: V)
    requires
        m.contains_key(k) ==> m[k] == v,
    ensures
        found(after_insert(m, k, v), k) == Some(v),
{
}

/// A removal of a key right after its insertion hands out the entry that
/// was inserted, and a search for the key then finds nothing; unless the
/// key was there before with another value.
pub proof fn lemma_remove_after_insert<K, V>(m: Map<K, V>, k: K, v: V)
    requires
        m.contains_key(k) ==> m[k] == v,
    ensures
        taken(after_insert(m, k, v), k) == Some((k, v)),
        found(after_remove(after_insert(m, k, v), k), k) is None,
{
}

/// The removal of a key that was newly inserted gives back the map from
/// before the insertion.
pub proof fn lemma_remove_undoes_insert<K, V>(m: Map<K, V>, k: K, v: V)
    requires
        !m.contains_key(k),
    ensures
        after_remove(after_insert(m, k, v), k) == m,
{
    assert(after_remove(after_insert(m, k, v), k) =~= m);
}

/// An insertion of a key that is there and a removal of a key that is not
/// leave the map as it is.
pub proof fn lemma_idle_edit<K, V>(m: Map<K, V>, edit: Edit<K, V>)
    requires
        !takes_place(m, edit),
    ensures
        after_edit(m, edit) == m,
{
    assert(after_edit(m, edit) =~= m);
}

/// A change that takes place moves the number of entries by one.
pub proof fn lemma_edit_len<K, V>(m: Map<K, V>, edit: Edit<K, V>)
    requires
        m.dom().finite(),
    ensures
        after_edit(m, edit).dom().finite(),
        edit is Insert && takes_place(m, edit) ==> after_edit(m, edit).len() == m.len() + 1,
        edit is Remove && takes_place(m, edit) ==> after_edit(m, edit).len() + 1 == m.len(),
        !takes_place(m, edit) ==> after_edit(m, edit).len() == m.len(),
{
    match edit {
        Edit::Insert(k, v) => {
            if !m.contains_key(k) {
                assert(m.insert(k, v).dom() =~= m.dom().insert(k));
            }
        },
        Edit::Remove(k) => {
            assert(m.remove(k).dom() =~= m.dom().remove(k));
        },
    }
}

/// After any run of changes to an empty tree, the number of entries is the
/// number of insertions that took place less the number of removals that
/// took place.
pub proof fn lemma_len_tracks_edits<K, V>(edits: Seq<Edit<K, V>>)
    ensures
        replay(edits).dom().finite(),
        replay(edits).len() + removes_done(edits) == inserts_done(edits),
    decreases edits.len(),
{
    if edits.len() > 0 {
        lemma_len_tracks_edits(edits.drop_last());
        lemma_edit_len(replay(edits.drop_last()), edits.last());
    }
}

} // verus!
