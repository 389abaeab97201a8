//! # Laws of the map in an arena
//!
//! What holds across several operations, stated over the functions that describe each of them.
//! They hold of all [`entries_ok`] entries, and the entries of every map are.

use crate::arena::map::ArenaArtMap;
use crate::arena::tree;
use crate::arena::tree::Version;
use crate::bound;
use crate::bound::Bound;
use crate::key::AsBytes;
use crate::order;
use vstd::prelude::*;

verus! {

/// Every entry has a version.
pub open spec fn entries_ok<K, V>(entries: Map<Seq<u8>, Seq<Version<K, V>>>) -> bool {
    forall|key: Seq<u8>| #[trigger] entries.contains_key(key) ==> entries[key].len() > 0
}

/// The version numbers of an entry do not rise from the newest version on.
pub open spec fn descending<K, V>(versions: Seq<Version<K, V>>) -> bool {
    forall|i: int, j: int|
        0 <= i < j < versions.len() ==> (#[trigger] versions[i]).version >= (
        #[trigger] versions[j]).version
}

/// Every entry of a map has a version.
pub proof fn lemma_map_entries_ok<K: AsBytes + Clone, V: Clone>(map: ArenaArtMap<K, V>)
    requires
        map.wf(),
    ensures
        entries_ok(map@),
{
    map.lemma_entries();
}

/// A read after a write gives back what was written, and all other entries are what they were.
pub proof fn lemma_insert_then_get<K: AsBytes, V>(
    entries: Map<Seq<u8>, Seq<Version<K, V>>>,
    key: K,
    value: V,
    other: Seq<u8>,
)
    requires
        entries_ok(entries),
    ensures
        entries_ok(tree::after_insert(entries, key, value)),
        tree::live_value(tree::after_insert(entries, key, value), key.key_bytes()) == Some(value),
        other != key.key_bytes() ==> {
            let after = tree::after_insert(entries, key, value);
            &&& after.contains_key(other) == entries.contains_key(other)
            &&& entries.contains_key(other) ==> after[other] == entries[other]
            &&& tree::live_value(after, other) == tree::live_value(entries, other)
        },
{
}

/// A read after a versioned write gives back what was written, and all other entries are what
/// they were.
pub proof fn lemma_insert_versioned_then_get<K: AsBytes, V>(
    entries: Map<Seq<u8>, Seq<Version<K, V>>>,
    key: K,
    version: u64,
    value: V,
    other: Seq<u8>,
)
    requires
        entries_ok(entries),
    ensures
        entries_ok(tree::after_insert_versioned(entries, key, version, value)),
        tree::live_value(
            tree::after_insert_versioned(entries, key, version, value),
            key.key_bytes(),
        ) == Some(value),
        other != key.key_bytes() ==> {
            let after = tree::after_insert_versioned(entries, key, version, value);
            &&& after.contains_key(other) == entries.contains_key(other)
            &&& entries.contains_key(other) ==> after[other] == entries[other]
            &&& tree::live_value(after, other) == tree::live_value(entries, other)
        },
{
}

/// A read after a removal finds nothing, and all other entries are what they were. To remove an
/// entry again changes nothing.
pub proof fn lemma_remove_then_get<K, V>(
    entries: Map<Seq<u8>, Seq<Version<K, V>>>,
    key: Seq<u8>,
    other: Seq<u8>,
)
    requires
        entries_ok(entries),
    ensures
        entries_ok(tree::after_remove(entries, key)),
        tree::live_value(tree::after_remove(entries, key), key) == None::<V>,
        other != key ==> {
            let after = tree::after_remove(entries, key);
            &&& after.contains_key(other) == entries.contains_key(other)
            &&& entries.contains_key(other) ==> after[other] == entries[other]
            &&& tree::live_value(after, other) == tree::live_value(entries, other)
        },
        tree::after_remove(tree::after_remove(entries, key), key) == tree::after_remove(
            entries,
            key,
        ),
{
    let after = tree::after_remove(entries, key);
    let twice = tree::after_remove(after, key);
    if entries.contains_key(key) {
        assert(twice[key] =~= after[key]);
    }
    assert(twice =~= after);
}

/// A write of either kind adds one live entry if its key had none, and else none.
pub proof fn lemma_insert_counts<K: AsBytes, V>(
    entries: Map<Seq<u8>, Seq<Version<K, V>>>,
    key: K,
    version: u64,
    value: V,
)
    requires
        entries_ok(entries),
        tree::live_keys(entries).finite(),
    ensures
        tree::live_keys(tree::after_insert(entries, key, value)) == tree::live_keys(
            entries,
        ).insert(key.key_bytes()),
        tree::live_keys(tree::after_insert_versioned(entries, key, version, value))
            == tree::live_keys(entries).insert(key.key_bytes()),
        tree::live_keys(tree::after_insert(entries, key, value)).len() == tree::live_keys(
            entries,
        ).len() + (if tree::live_keys(entries).contains(key.key_bytes()) {
            0int
        } else {
            1
        }),
{
    let more = tree::live_keys(entries).insert(key.key_bytes());
    assert(tree::live_keys(tree::after_insert(entries, key, value)) =~= more);
    assert(tree::live_keys(tree::after_insert_versioned(entries, key, version, value)) =~= more);
}

/// A removal takes one live entry away if its key had one, and else none.
pub proof fn lemma_remove_counts<K, V>(entries: Map<Seq<u8>, Seq<Version<K, V>>>, key: Seq<u8>)
    requires
        entries_ok(entries),
        tree::live_keys(entries).finite(),
    ensures
        tree::live_keys(tree::after_remove(entries, key)) == tree::live_keys(entries).remove(key),
        tree::live_keys(tree::after_remove(entries, key)).len() == tree::live_keys(entries).len()
            - (if tree::live_keys(entries).contains(key) {
            1int
        } else {
            0
        }),
{
    assert(tree::live_keys(tree::after_remove(entries, key)) =~= tree::live_keys(entries).remove(
        key,
    ));
}

/// A write undoes a removal: what was removed before it makes no difference.
pub proof fn lemma_remove_then_insert<K: AsBytes, V>(
    entries: Map<Seq<u8>, Seq<Version<K, V>>>,
    key: K,
    value: V,
)
    requires
        entries_ok(entries),
    ensures
        tree::after_insert(tree::after_remove(entries, key.key_bytes()), key, value)
            == tree::after_insert(entries, key, value),
{
    let bytes = key.key_bytes();
    let direct = tree::after_insert(entries, key, value);
    let detour = tree::after_insert(tree::after_remove(entries, bytes), key, value);
    assert(detour[bytes] =~= direct[bytes]);
    assert(detour =~= direct);
}

/// Of two writes under the same bytes the later one counts.
pub proof fn lemma_last_write_wins<K: AsBytes, V>(
    entries: Map<Seq<u8>, Seq<Version<K, V>>>,
    first: K,
    old_value: V,
    second: K,
    new_value: V,
)
    requires
        entries_ok(entries),
        first.key_bytes() == second.key_bytes(),
    ensures
        tree::after_insert(tree::after_insert(entries, first, old_value), second, new_value)
            == tree::after_insert(entries, first, new_value),
{
    let bytes = first.key_bytes();
    let twice = tree::after_insert(
        tree::after_insert(entries, first, old_value),
        second,
        new_value,
    );
    let once = tree::after_insert(entries, first, new_value);
    assert(twice[bytes] =~= once[bytes]);
    assert(twice =~= once);
}

/// Writes under different bytes can be made in any order.
pub proof fn lemma_writes_commute<K: AsBytes, V>(
    entries: Map<Seq<u8>, Seq<Version<K, V>>>,
    a: K,
    a_value: V,
    b: K,
    b_value: V,
)
    requires
        a.key_bytes() != b.key_bytes(),
    ensures
        tree::after_insert(tree::after_insert(entries, a, a_value), b, b_value)
            == tree::after_insert(tree::after_insert(entries, b, b_value), a, a_value),
{
    assert(tree::after_insert(tree::after_insert(entries, a, a_value), b, b_value)
        =~= tree::after_insert(tree::after_insert(entries, b, b_value), a, a_value));
}

/// An entry is live if and only if its newest version is not removed, and then its value is that of
/// the newest version.
pub proof fn lemma_live_entry<K, V>(
    entries: Map<Seq<u8>, Seq<Version<K, V>>>,
    key: Seq<u8>,
    newest: Version<K, V>,
    older: Seq<Version<K, V>>,
)
    ensures
        ({
            let with = entries.insert(key, seq![newest] + older);
            &&& tree::live_keys(with).contains(key) <==> !newest.removed
            &&& tree::live_value(with, key) == (if newest.removed {
                None
            } else {
                Some(newest.value)
            })
        }),
        !tree::live_keys(entries.remove(key)).contains(key),
        tree::live_value(entries.remove(key), key) == None::<V>,
        tree::live_keys(entries).contains(key) <==> entries.contains_key(key)
            && !entries[key][0].removed,
        tree::live_value(entries, key) is Some <==> tree::live_keys(entries).contains(key),
{
    let with = entries.insert(key, seq![newest] + older);
    assert(with[key][0] == newest);
}

/// A plain write over an entry changes the value of its newest version only, and makes it live: the
/// number of versions, their numbers and keys, and all older versions are what they were. Without
/// an entry it makes one with a single version, numbered zero.
pub proof fn lemma_insert_keeps_history<K: AsBytes, V>(
    entries: Map<Seq<u8>, Seq<Version<K, V>>>,
    key: K,
    value: V,
)
    requires
        entries.contains_key(key.key_bytes()) ==> entries[key.key_bytes()].len() > 0,
    ensures
        ({
            let bytes = key.key_bytes();
            let after = tree::after_insert(entries, key, value);
            &&& after.dom() == entries.dom().insert(bytes)
            &&& after.remove(bytes) == entries.remove(bytes)
            &&& entries.contains_key(bytes) ==> {
                &&& after[bytes].len() == entries[bytes].len()
                &&& after[bytes].skip(1) == entries[bytes].skip(1)
                &&& after[bytes][0].version == entries[bytes][0].version
                &&& after[bytes][0].key == entries[bytes][0].key
                &&& after[bytes][0].value == value
                &&& !after[bytes][0].removed
            }
            &&& !entries.contains_key(bytes) ==> {
                &&& after[bytes].len() == 1
                &&& after[bytes][0].version == 0
                &&& after[bytes][0].key == key
                &&& after[bytes][0].value == value
                &&& !after[bytes][0].removed
            }
        }),
{
    let bytes = key.key_bytes();
    let after = tree::after_insert(entries, key, value);
    assert(after.dom() =~= entries.dom().insert(bytes));
    assert(after.remove(bytes) =~= entries.remove(bytes));
    if entries.contains_key(bytes) {
        assert(after[bytes].skip(1) =~= entries[bytes].skip(1));
    }
}

/// A plain write with a number of its own differs only where there was no entry: the first version
/// gets the number.
pub proof fn lemma_replace_numbers_first<K: AsBytes, V>(
    entries: Map<Seq<u8>, Seq<Version<K, V>>>,
    key: K,
    version: u64,
    value: V,
)
    ensures
        entries.contains_key(key.key_bytes()) ==> tree::after_replace(entries, key, version, value)
            == tree::after_insert(entries, key, value),
        !entries.contains_key(key.key_bytes()) ==> tree::after_replace(
            entries,
            key,
            version,
            value,
        ) == tree::after_insert_versioned(entries, key, version, value),
{
    assert(entries.contains_key(key.key_bytes()) ==> tree::after_replace(
        entries,
        key,
        version,
        value,
    ) =~= tree::after_insert(entries, key, value));
    assert(!entries.contains_key(key.key_bytes()) ==> tree::after_replace(
        entries,
        key,
        version,
        value,
    ) =~= tree::after_insert_versioned(entries, key, version, value));
}

/// A plain write over an entry does not touch reads as of a version: each finds the version that it
/// found before, and unless that is the newest one, with the same contents.
pub proof fn lemma_insert_keeps_snapshots<K: AsBytes, V>(
    entries: Map<Seq<u8>, Seq<Version<K, V>>>,
    key: K,
    value: V,
    max_version: u64,
    i: int,
)
    requires
        entries.contains_key(key.key_bytes()),
        entries[key.key_bytes()].len() > 0,
    ensures
        ({
            let before = entries[key.key_bytes()];
            let after = tree::after_insert(entries, key, value)[key.key_bytes()];
            &&& tree::no_snapshot(after, max_version) <==> tree::no_snapshot(before, max_version)
            &&& tree::is_snapshot(after, max_version, i) <==> tree::is_snapshot(
                before,
                max_version,
                i,
            )
            &&& tree::is_snapshot(after, max_version, i) ==> {
                &&& after[i].version == before[i].version
                &&& max_version < before[0].version ==> after[i] == before[i]
                &&& i == 0 ==> after[i].value == value
            }
        }),
{
    let before = entries[key.key_bytes()];
    let after = tree::after_insert(entries, key, value)[key.key_bytes()];
    assert forall|j: int| 0 <= j < before.len() implies (#[trigger] after[j]).version
        == before[j].version by {
        if j > 0 {
            assert(after[j] == before[j]);
        }
    }
    if tree::no_snapshot(after, max_version) {
        assert forall|j: int| 0 <= j < before.len() implies (
        #[trigger] before[j]).version > max_version by {
            assert(after[j].version > max_version);
        }
    }
    if tree::is_snapshot(after, max_version, i) {
        assert forall|j: int| 0 <= j < i implies (#[trigger] before[j]).version > max_version by {
            assert(after[j].version > max_version);
        }
    }
}

/// A versioned write puts one version in front, with the number, the key and the value that were
/// given, and leaves the versions that were there behind it as they were.
pub proof fn lemma_insert_versioned_prepends<K: AsBytes, V>(
    entries: Map<Seq<u8>, Seq<Version<K, V>>>,
    key: K,
    version: u64,
    value: V,
)
    ensures
        ({
            let bytes = key.key_bytes();
            let after = tree::after_insert_versioned(entries, key, version, value);
            &&& after.dom() == entries.dom().insert(bytes)
            &&& after.remove(bytes) == entries.remove(bytes)
            &&& after[bytes].len() > 0
            &&& after[bytes][0].version == version
            &&& after[bytes][0].key == key
            &&& after[bytes][0].value == value
            &&& !after[bytes][0].removed
            &&& entries.contains_key(bytes) ==> after[bytes].drop_first() == entries[bytes]
            &&& !entries.contains_key(bytes) ==> after[bytes].len() == 1
        }),
{
    let bytes = key.key_bytes();
    let after = tree::after_insert_versioned(entries, key, version, value);
    assert(after.dom() =~= entries.dom().insert(bytes));
    assert(after.remove(bytes) =~= entries.remove(bytes));
    if entries.contains_key(bytes) {
        assert(after[bytes].drop_first() =~= entries[bytes]);
    }
}

/// The first version of an entry is what reads as of its number or a later one find, and reads as
/// of an earlier number find nothing.
pub proof fn lemma_first_version_isolated<K: AsBytes, V>(
    entries: Map<Seq<u8>, Seq<Version<K, V>>>,
    key: K,
    version: u64,
    value: V,
    max_version: u64,
    i: int,
)
    requires
        !entries.contains_key(key.key_bytes()),
    ensures
        ({
            let after = tree::after_insert_versioned(entries, key, version, value)[key.key_bytes()];
            &&& tree::no_snapshot(after, max_version) <==> max_version < version
            &&& tree::is_snapshot(after, max_version, i) <==> i == 0 && version <= max_version
            &&& after[0] == (Version { removed: false, version, key, value })
        }),
{
    let after = tree::after_insert_versioned(entries, key, version, value)[key.key_bytes()];
    assert(after.len() == 1);
    assert(after[0].version == version);
}

/// A removal marks the newest version of an entry and changes nothing else. Without an entry it
/// changes nothing at all.
pub proof fn lemma_remove_keeps_history<K, V>(
    entries: Map<Seq<u8>, Seq<Version<K, V>>>,
    key: Seq<u8>,
)
    requires
        entries.contains_key(key) ==> entries[key].len() > 0,
    ensures
        ({
            let after = tree::after_remove(entries, key);
            &&& after.dom() == entries.dom()
            &&& after.remove(key) == entries.remove(key)
            &&& !entries.contains_key(key) ==> after == entries
            &&& entries.contains_key(key) ==> {
                &&& after[key].len() == entries[key].len()
                &&& after[key].skip(1) == entries[key].skip(1)
                &&& after[key][0].removed
                &&& after[key][0].version == entries[key][0].version
                &&& after[key][0].key == entries[key][0].key
                &&& after[key][0].value == entries[key][0].value
            }
        }),
{
    let after = tree::after_remove(entries, key);
    assert(after.dom() =~= entries.dom());
    assert(after.remove(key) =~= entries.remove(key));
    if entries.contains_key(key) {
        assert(after[key].skip(1) =~= entries[key].skip(1));
    }
}

/// A removal hides an entry from reads as of the number of its newest version or a later one, and
/// from no others.
pub proof fn lemma_remove_keeps_snapshots<K, V>(
    entries: Map<Seq<u8>, Seq<Version<K, V>>>,
    key: Seq<u8>,
    max_version: u64,
    i: int,
)
    requires
        entries.contains_key(key),
        entries[key].len() > 0,
    ensures
        ({
            let before = entries[key];
            let after = tree::after_remove(entries, key)[key];
            &&& tree::no_snapshot(after, max_version) <==> tree::no_snapshot(before, max_version)
            &&& tree::is_snapshot(after, max_version, i) <==> tree::is_snapshot(
                before,
                max_version,
                i,
            )
            &&& tree::is_snapshot(after, max_version, i) ==> {
                &&& after[i].version == before[i].version
                &&& max_version < before[0].version ==> after[i] == before[i]
                &&& before[0].version <= max_version ==> after[i].removed
            }
        }),
{
    let before = entries[key];
    let after = tree::after_remove(entries, key)[key];
    assert forall|j: int| 0 <= j < before.len() implies (#[trigger] after[j]).version
        == before[j].version by {
        if j > 0 {
            assert(after[j] == before[j]);
        }
    }
    if tree::no_snapshot(after, max_version) {
        assert forall|j: int| 0 <= j < before.len() implies (
        #[trigger] before[j]).version > max_version by {
            assert(after[j].version > max_version);
        }
    }
    if tree::is_snapshot(after, max_version, i) {
        assert forall|j: int| 0 <= j < i implies (#[trigger] before[j]).version > max_version by {
            assert(after[j].version > max_version);
        }
        if i > 0 {
            assert(after[0].version > max_version);
        }
    }
}

/// A read as of a version looks at the newest version first: it stops there if that is not later,
/// and else goes on among the older ones.
pub proof fn lemma_snapshot_by_newest<K, V>(
    newest: Version<K, V>,
    older: Seq<Version<K, V>>,
    max_version: u64,
    i: int,
)
    ensures
        tree::is_snapshot(seq![newest] + older, max_version, 0) <==> newest.version <= max_version,
        i >= 0 ==> (tree::is_snapshot(seq![newest] + older, max_version, i + 1) <==> newest.version
            > max_version && tree::is_snapshot(older, max_version, i)),
        i < 0 ==> !tree::is_snapshot(older, max_version, i),
        tree::no_snapshot(seq![newest] + older, max_version) <==> newest.version > max_version
            && tree::no_snapshot(older, max_version),
        tree::no_snapshot(Seq::<Version<K, V>>::empty(), max_version),
        !tree::is_snapshot(Seq::<Version<K, V>>::empty(), max_version, i),
{
    let all = seq![newest] + older;
    assert(all[0] == newest);
    assert forall|j: int| 0 <= j < older.len() implies #[trigger] older[j] == all[j + 1] by {}
    if tree::no_snapshot(all, max_version) {
        assert(all[0].version > max_version);
        assert forall|j: int| 0 <= j < older.len() implies (
        #[trigger] older[j]).version > max_version by {
            assert(all[j + 1].version > max_version);
        }
    }
    if newest.version > max_version && tree::no_snapshot(older, max_version) {
        assert forall|j: int| 0 <= j < all.len() implies (
        #[trigger] all[j]).version > max_version by {
            if j > 0 {
                let x: int = j - 1;
                assert(older[x].version > max_version);
            }
        }
    }
    if i >= 0 && tree::is_snapshot(all, max_version, i + 1) {
        assert(all[0].version > max_version);
        assert(older[i] == all[i + 1]);
        assert forall|j: int| 0 <= j < i implies (#[trigger] older[j]).version > max_version by {
            assert(all[j + 1].version > max_version);
        }
    }
    if i >= 0 && newest.version > max_version && tree::is_snapshot(older, max_version, i) {
        assert(older[i] == all[i + 1]);
        assert forall|j: int| 0 <= j < i + 1 implies (
        #[trigger] all[j]).version > max_version by {
            if j > 0 {
                let x: int = j - 1;
                assert(older[x].version > max_version);
            }
        }
    }
}

/// What a read as of a version finds is not later than that, and every newer version is.
pub proof fn lemma_snapshot_reads<K, V>(versions: Seq<Version<K, V>>, max_version: u64, i: int)
    ensures
        tree::is_snapshot(versions, max_version, i) <==> {
            &&& 0 <= i < versions.len()
            &&& versions[i].version <= max_version
            &&& forall|j: int| 0 <= j < i ==> max_version < (#[trigger] versions[j]).version
        },
{
}

/// A read as of a version finds one, or all versions are later.
pub proof fn lemma_snapshot_or_none<K, V>(versions: Seq<Version<K, V>>, max_version: u64)
    ensures
        tree::no_snapshot(versions, max_version) <==> forall|j: int|
            0 <= j < versions.len() ==> max_version < (#[trigger] versions[j]).version,
        tree::no_snapshot(versions, max_version) <==> !exists|i: int| #[trigger]
            tree::is_snapshot(versions, max_version, i),
    decreases versions.len(),
{
    if versions.len() > 0 {
        let newest = versions[0];
        let older = versions.skip(1);
        assert(seq![newest] + older =~= versions);
        lemma_snapshot_or_none(older, max_version);
        lemma_snapshot_by_newest(newest, older, max_version, 0);
        if newest.version <= max_version {
            assert(tree::is_snapshot(versions, max_version, 0));
        } else if tree::no_snapshot(older, max_version) {
            assert forall|i: int| !#[trigger] tree::is_snapshot(versions, max_version, i) by {
                lemma_snapshot_by_newest(newest, older, max_version, i - 1);
            }
        } else {
            let i = choose|i: int| #[trigger] tree::is_snapshot(older, max_version, i);
            lemma_snapshot_by_newest(newest, older, max_version, i);
            assert(tree::is_snapshot(versions, max_version, i + 1));
        }
    }
}

/// A scan visits the first keys in ascending order: no key that it leaves out comes before one that
/// it visits.
pub proof fn lemma_scan_front(keys: Set<Seq<u8>>, visited: Seq<Seq<u8>>)
    ensures
        crate::arena::map::is_front(keys, visited) <==> {
            &&& forall|i: int, j: int|
                0 <= i < j < visited.len() ==> order::lex_lt(
                    #[trigger] visited[i],
                    #[trigger] visited[j],
                )
            &&& forall|i: int| 0 <= i < visited.len() ==> keys.contains(#[trigger] visited[i])
            &&& forall|i: int, k: Seq<u8>|
                0 <= i < visited.len() && #[trigger] keys.contains(k) && !visited.contains(k)
                    ==> order::lex_lt(#[trigger] visited[i], k)
        },
{
}

/// A scan hands the key, the value and the version number of the newest version of each entry to
/// the closure, which asks to go on after each but the last one where the scan was stopped.
pub proof fn lemma_scan_answers<K, V, F: FnMut(&K, &V, u64) -> bool>(
    entries: Map<Seq<u8>, Seq<Version<K, V>>>,
    f: F,
    visited: Seq<Seq<u8>>,
    stopped: bool,
    i: int,
)
    requires
        crate::arena::map::answered(entries, f, visited, stopped),
        0 <= i < visited.len(),
    ensures
        i < visited.len() - 1 || !stopped ==> f.ensures(
            (
                &entries[visited[i]][0].key,
                &entries[visited[i]][0].value,
                entries[visited[i]][0].version,
            ),
            true,
        ),
        i == visited.len() - 1 && stopped ==> f.ensures(
            (
                &entries[visited[i]][0].key,
                &entries[visited[i]][0].value,
                entries[visited[i]][0].version,
            ),
            false,
        ),
{
}

/// The entries between two bounds are those that are live and on the right side of both.
pub proof fn lemma_live_between<K: AsBytes + Clone, V: Clone, Q: AsBytes + ?Sized>(
    map: ArenaArtMap<K, V>,
    start: Bound<&Q>,
    end: Bound<&Q>,
    k: Seq<u8>,
)
    ensures
        map.live_between(bound::bytes_of(start), bound::bytes_of(end)).contains(k) <==> {
            &&& map@.contains_key(k)
            &&& !map@[k][0].removed
            &&& match start {
                Bound::Included(q) => order::lex_le(q.key_bytes(), k),
                Bound::Excluded(q) => order::lex_lt(q.key_bytes(), k),
                Bound::Unbounded => true,
            }
            &&& match end {
                Bound::Included(q) => order::lex_le(k, q.key_bytes()),
                Bound::Excluded(q) => order::lex_lt(k, q.key_bytes()),
                Bound::Unbounded => true,
            }
        },
{
}

/// A read as of a version has at most one answer.
pub proof fn lemma_snapshot_unique<K, V>(
    versions: Seq<Version<K, V>>,
    max_version: u64,
    i: int,
    j: int,
)
    requires
        tree::is_snapshot(versions, max_version, i),
    ensures
        tree::is_snapshot(versions, max_version, j) ==> i == j,
        !tree::no_snapshot(versions, max_version),
{
    if tree::is_snapshot(versions, max_version, j) {
        if i < j {
            assert(versions[i].version > max_version);
        }
        if j < i {
            assert(versions[j].version > max_version);
        }
    }
}

/// As long as the versions of an entry are written in ascending order, a read as of a version
/// gives the greatest version that is not later.
pub proof fn lemma_snapshot_is_greatest<K, V>(
    versions: Seq<Version<K, V>>,
    max_version: u64,
    i: int,
)
    requires
        descending(versions),
        tree::is_snapshot(versions, max_version, i),
    ensures
        forall|j: int|
            0 <= j < versions.len() && (#[trigger] versions[j]).version <= max_version
                ==> versions[j].version <= versions[i].version,
{
    assert forall|j: int|
        0 <= j < versions.len() && (#[trigger] versions[j]).version <= max_version implies
    versions[j].version <= versions[i].version by {
        if j < i {
            assert(versions[j].version > max_version);
        } else if i < j {
            assert(versions[i].version >= versions[j].version);
        }
    }
}

/// A versioned write that is not older than the versions that are there keeps them in order. It
/// is what reads as of its version or a later one find, and reads as of an earlier version find
/// what they found before.
pub proof fn lemma_snapshot_isolated<K: AsBytes, V>(
    entries: Map<Seq<u8>, Seq<Version<K, V>>>,
    key: K,
    version: u64,
    value: V,
    max_version: u64,
    i: int,
)
    requires
        entries_ok(entries),
        entries.contains_key(key.key_bytes()),
    ensures
        ({
            let before = entries[key.key_bytes()];
            let after = tree::after_insert_versioned(entries, key, version, value)[key.key_bytes()];
            &&& descending(before) && before[0].version <= version ==> descending(after)
            &&& version <= max_version ==> tree::is_snapshot(after, max_version, 0) && after[0]
                == (Version { removed: false, version, key, value })
            &&& version > max_version ==> {
                &&& tree::no_snapshot(after, max_version) == tree::no_snapshot(before, max_version)
                &&& i >= 0 ==> tree::is_snapshot(after, max_version, i + 1) == tree::is_snapshot(
                    before,
                    max_version,
                    i,
                )
                &&& 0 <= i < before.len() ==> after[i + 1] == before[i]
            }
        }),
{
    let before = entries[key.key_bytes()];
    let after = tree::after_insert_versioned(entries, key, version, value)[key.key_bytes()];
    assert(after.len() == before.len() + 1);
    assert forall|j: int| 0 <= j < before.len() implies #[trigger] before[j] == after[j + 1] by {}
    if descending(before) && before[0].version <= version {
        assert forall|a: int, b: int| 0 <= a < b < after.len() implies (
        #[trigger] after[a]).version >= (#[trigger] after[b]).version by {
            let y: int = b - 1;
            assert(after[b] == before[y]);
            if a > 0 {
                let x: int = a - 1;
                assert(after[a] == before[x]);
            } else if y > 0 {
                assert(before[0].version >= before[y].version);
            }
        }
    }
    if version > max_version {
        if tree::no_snapshot(before, max_version) {
            assert forall|j: int| 0 <= j < after.len() implies (
            #[trigger] after[j]).version > max_version by {
                if j > 0 {
                    let x: int = j - 1;
                    assert(after[j] == before[x]);
                }
            }
        }
        if tree::no_snapshot(after, max_version) {
            assert forall|j: int| 0 <= j < before.len() implies (
            #[trigger] before[j]).version > max_version by {
                assert(after[j + 1].version > max_version);
            }
        }
        if i >= 0 {
            if tree::is_snapshot(before, max_version, i) {
                assert forall|j: int| 0 <= j < i + 1 implies (
                #[trigger] after[j]).version > max_version by {
                    if j > 0 {
                        let x: int = j - 1;
                        assert(after[j] == before[x]);
                    }
                }
            }
            if tree::is_snapshot(after, max_version, i + 1) {
                assert forall|j: int| 0 <= j < i implies (
                #[trigger] before[j]).version > max_version by {
                    assert(after[j + 1].version > max_version);
                }
            }
        }
    }
}

} // verus!
