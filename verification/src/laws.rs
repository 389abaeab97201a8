//! # Laws
//!
//! What holds of a map across several operations, stated over the functions that describe each
//! of them.

use crate::key::AsBytes;
use crate::tree;
use crate::tree::{LeafPtr, Tree};
use vstd::prelude::*;

verus! {

/// A read after a write gives back what was written, under the key and under every other key
/// with the same bytes; every other entry is what it was.
pub proof fn lemma_insert_then_get<K: AsBytes, V>(
    entries: Map<Seq<u8>, (K, V)>,
    key: K,
    value: V,
    other: Seq<u8>,
)
    ensures
        tree::value_in(tree::with_entry(entries, key, value), key.key_bytes()) == Some(value),
        other != key.key_bytes() ==> {
            &&& tree::with_entry(entries, key, value).contains_key(other) == entries.contains_key(
                other,
            )
            &&& tree::value_in(tree::with_entry(entries, key, value), other) == tree::value_in(
                entries,
                other,
            )
        },
{
}

/// A write changes one entry only: it gives it the value, and a key of its own if there was none,
/// and leaves every other entry with its key and its value. What it returns is the value that a
/// read would have found before.
pub proof fn lemma_insert_changes_one<K: AsBytes, V>(
    entries: Map<Seq<u8>, (K, V)>,
    key: K,
    value: V,
)
    ensures
        ({
            let bytes = key.key_bytes();
            let after = tree::with_entry(entries, key, value);
            &&& after.dom() == entries.dom().insert(bytes)
            &&& after[bytes].1 == value
            &&& entries.contains_key(bytes) ==> after[bytes].0 == entries[bytes].0
            &&& !entries.contains_key(bytes) ==> after[bytes].0 == key
            &&& after.remove(bytes) == entries.remove(bytes)
        }),
{
    let bytes = key.key_bytes();
    let after = tree::with_entry(entries, key, value);
    assert(after.dom() =~= entries.dom().insert(bytes));
    assert(after.remove(bytes) =~= entries.remove(bytes));
}

/// A read finds a value if and only if there is an entry, and then the value of that entry.
pub proof fn lemma_value_of_entry<K, V>(entries: Map<Seq<u8>, (K, V)>, key: Seq<u8>, entry: (K, V))
    ensures
        tree::value_in(entries, key) is Some <==> entries.dom().contains(key),
        tree::value_in(entries.insert(key, entry), key) == Some(entry.1),
        tree::value_in(entries.remove(key), key) == None::<V>,
        tree::value_in(Map::<Seq<u8>, (K, V)>::empty(), key) == None::<V>,
        entries.dom().contains(key) ==> tree::value_in(entries, key) == Some(entries[key].1),
{
}

/// A write adds one entry if its key was absent, and none if it was present.
pub proof fn lemma_insert_counts<K: AsBytes, V>(entries: Map<Seq<u8>, (K, V)>, key: K, value: V)
    requires
        entries.dom().finite(),
    ensures
        tree::with_entry(entries, key, value).dom().len() == entries.dom().len() + (
        if entries.contains_key(key.key_bytes()) {
            0int
        } else {
            1
        }),
{
    let bytes = key.key_bytes();
    assert(tree::with_entry(entries, key, value).dom() =~= entries.dom().insert(bytes));
}

/// A read after a removal finds nothing, and every other entry is what it was.
pub proof fn lemma_remove_then_get<K: AsBytes, V>(
    entries: Map<Seq<u8>, (K, V)>,
    key: Seq<u8>,
    other: Seq<u8>,
)
    ensures
        tree::value_in(entries.remove(key), key) == None::<V>,
        other != key ==> tree::value_in(entries.remove(key), other) == tree::value_in(
            entries,
            other,
        ),
{
}

/// A removal takes one entry away if its key was present, and none if it was absent.
pub proof fn lemma_remove_counts<K: AsBytes, V>(entries: Map<Seq<u8>, (K, V)>, key: Seq<u8>)
    requires
        entries.dom().finite(),
    ensures
        entries.remove(key).dom().len() == entries.dom().len() - (if entries.contains_key(key) {
            1int
        } else {
            0
        }),
{
    assert(entries.remove(key).dom() =~= entries.dom().remove(key));
}

/// The removal of a new key undoes its insertion.
pub proof fn lemma_insert_then_remove<K: AsBytes, V>(
    entries: Map<Seq<u8>, (K, V)>,
    key: K,
    value: V,
)
    ensures
        tree::with_entry(entries, key, value).remove(key.key_bytes()) == entries.remove(
            key.key_bytes(),
        ),
        !entries.contains_key(key.key_bytes()) ==> tree::with_entry(entries, key, value).remove(
            key.key_bytes(),
        ) == entries,
{
    let bytes = key.key_bytes();
    assert(tree::with_entry(entries, key, value).remove(bytes) =~= entries.remove(bytes));
    if !entries.contains_key(bytes) {
        assert(entries.remove(bytes) =~= entries);
    }
}

/// Of two writes under the same bytes the later one counts.
pub proof fn lemma_last_write_wins<K: AsBytes, V>(
    entries: Map<Seq<u8>, (K, V)>,
    first: K,
    old_value: V,
    second: K,
    new_value: V,
)
    requires
        first.key_bytes() == second.key_bytes(),
    ensures
        tree::with_entry(tree::with_entry(entries, first, old_value), second, new_value)
            == tree::with_entry(entries, first, new_value),
{
    assert(tree::with_entry(tree::with_entry(entries, first, old_value), second, new_value)
        =~= tree::with_entry(entries, first, new_value));
}

/// Writes under different bytes can be made in any order.
pub proof fn lemma_writes_commute<K: AsBytes, V>(
    entries: Map<Seq<u8>, (K, V)>,
    a: K,
    a_value: V,
    b: K,
    b_value: V,
)
    requires
        a.key_bytes() != b.key_bytes(),
    ensures
        tree::with_entry(tree::with_entry(entries, a, a_value), b, b_value) == tree::with_entry(
            tree::with_entry(entries, b, b_value),
            a,
            a_value,
        ),
{
    assert(tree::with_entry(tree::with_entry(entries, a, a_value), b, b_value) =~= tree::with_entry(
        tree::with_entry(entries, b, b_value),
        a,
        a_value,
    ));
}

/// What two steps in a row each keep of the pointers to leaves, they keep together.
pub proof fn lemma_pointers_kept_twice<K: AsBytes, V>(
    before: &Tree<K, V>,
    between: &Tree<K, V>,
    after: &Tree<K, V>,
)
    requires
        before.pointers_kept(between),
        between.pointers_kept(after),
    ensures
        before.pointers_kept(after),
{
    assert forall|ptr: LeafPtr, key: Seq<u8>|
        before.issued(ptr) && #[trigger] after.points_to(ptr, key) implies before.points_to(
        ptr,
        key,
    ) by {
        assert(between.points_to(ptr, key));
    }
}

/// A pointer to the leaf of an entry that was removed never leads to an entry again, whatever is
/// inserted and removed later, so that no entry can be removed through it.
pub proof fn lemma_removed_leaf_stays_removed<K: AsBytes, V>(
    before: &Tree<K, V>,
    removed: &Tree<K, V>,
    later: &Tree<K, V>,
    ptr: LeafPtr,
    key: Seq<u8>,
)
    requires
        before.wf(),
        before.points_to(ptr, key),
        before.pointers_kept(removed),
        !removed@.contains_key(key),
        removed.pointers_kept(later),
        later.wf(),
    ensures
        !later.points_to_entry(ptr),
{
    before.lemma_points(ptr);
    later.lemma_points(ptr);
    if later.points_to_entry(ptr) {
        let other = later.key_behind(ptr.link);
        assert(removed.issued(ptr));
        assert(removed.points_to(ptr, other));
        assert(before.points_to(ptr, other));
        assert(removed@.contains_key(other));
    }
}

/// A pointer to the leaf of an entry that stays is good after any step that keeps the leaves, and
/// leads to the entry of the same key.
pub proof fn lemma_pointer_outlives_step<K: AsBytes, V>(
    before: &Tree<K, V>,
    after: &Tree<K, V>,
    ptr: LeafPtr,
    key: Seq<u8>,
)
    requires
        before.wf(),
        after.wf(),
        before.points_to(ptr, key),
        before.leaves_stay(after),
        after@.contains_key(key),
    ensures
        after.points_to_entry(ptr),
        after.key_behind(ptr.link) == key,
        after@[key].0.key_bytes() == key,
{
    assert(after.points_to(ptr, key));
    after.lemma_points(ptr);
    after.lemma_entries();
}

/// A pointer leads to at most one entry, and an entry has one pointer.
pub proof fn lemma_pointer_and_entry<K: AsBytes, V>(
    tree: &Tree<K, V>,
    a: LeafPtr,
    a_key: Seq<u8>,
    b: LeafPtr,
    b_key: Seq<u8>,
)
    requires
        tree.wf(),
        tree.points_to(a, a_key),
        tree.points_to(b, b_key),
    ensures
        a == b <==> a_key == b_key,
{
    tree.lemma_points(a);
    tree.lemma_points(b);
}

} // verus!
