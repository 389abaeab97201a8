//! # Map in an arena

use crate::arena::iter::Range;
use crate::arena::node::TaggedOffset;
use crate::arena::tree;
use crate::arena::tree::{ArenaTree, Version};
use crate::arena::Arena;
use crate::bound;
use crate::bound::{copied, owned_bound, Bound};
use crate::inspect::LookupStep;
use crate::iter;
use crate::key::AsBytes;
use crate::order;
use std::borrow::Borrow;
use vstd::prelude::*;

verus! {

/// An associative map whose nodes and entries are placed in an [`Arena`].
///
/// Nodes refer to each other by 32-bit offsets, and the whole map is given up at once with its
/// arena.
pub struct ArenaArtMap<K: AsBytes + Clone, V: Clone> {
    tree: ArenaTree<K, V>,
}

/// A handle for a run of insertions: it remembers the key up to which the run has got.
pub struct ArenaInserter {
    last: Option<Vec<u8>>,
}

impl ArenaInserter {
    /// The bytes of the key that was inserted last.
    pub closed spec fn reached(&self) -> Option<Seq<u8>> {
        match self.last {
            Some(key) => Some(key@),
            None => None,
        }
    }

    /// Creates a handle that has not inserted anything.
    pub fn new() -> (inserter: Self)
        ensures
            inserter.reached() is None,
    {
        ArenaInserter { last: None }
    }

    /// Forgets the run, so that the handle can be used for another one.
    pub fn reset(&mut self)
        ensures
            final(self).reached() is None,
    {
        self.last = None;
    }

    /// Returns the bytes of the key that was inserted last, if any.
    pub fn last_key(&self) -> (key: Option<&[u8]>)
        ensures
            key is Some <==> self.reached() is Some,
            key matches Some(bytes) ==> self.reached() == Some(bytes@),
    {
        match &self.last {
            Some(key) => Some(key.as_slice()),
            None => None,
        }
    }
}

impl Default for ArenaInserter {
    fn default() -> (inserter: Self)
        ensures
            inserter.reached() is None,
    {
        Self::new()
    }
}

/// `visited` are the first of `keys` in ascending order.
pub open spec fn is_front(keys: Set<Seq<u8>>, visited: Seq<Seq<u8>>) -> bool {
    &&& forall|i: int, j: int|
        0 <= i < j < visited.len() ==> order::lex_lt(#[trigger] visited[i], #[trigger] visited[j])
    &&& forall|i: int| 0 <= i < visited.len() ==> keys.contains(#[trigger] visited[i])
    &&& forall|i: int, k: Seq<u8>|
        0 <= i < visited.len() && #[trigger] keys.contains(k) && !visited.contains(k)
            ==> order::lex_lt(#[trigger] visited[i], k)
}

/// What `f` was asked about each of `visited`, the newest version of the entry, it answered with
/// `true`, but for the last one if the scan was `stopped`.
pub open spec fn answered<K, V, F: FnMut(&K, &V, u64) -> bool>(
    entries: Map<Seq<u8>, Seq<Version<K, V>>>,
    f: F,
    visited: Seq<Seq<u8>>,
    stopped: bool,
) -> bool {
    forall|i: int|
        0 <= i < visited.len() ==> {
            let newest = entries[#[trigger] visited[i]][0];
            f.ensures(
                (&newest.key, &newest.value, newest.version),
                !(stopped && i == visited.len() - 1),
            )
        }
}

impl<K: AsBytes + Clone, V: Clone> View for ArenaArtMap<K, V> {
    type V = Map<Seq<u8>, Seq<Version<K, V>>>;

    /// The versions of every entry, newest first, by the bytes of the key. An entry that was
    /// removed is still there: its newest version says so.
    closed spec fn view(&self) -> Map<Seq<u8>, Seq<Version<K, V>>> {
        self.tree@
    }
}

impl<K: AsBytes + Clone, V: Clone> ArenaArtMap<K, V> {
    /// The tree is in order.
    pub closed spec fn wf(&self) -> bool {
        self.tree.wf()
    }

    /// How far the arena is used.
    pub closed spec fn used(&self) -> nat {
        self.tree.arena.used()
    }

    /// The capacity of the arena.
    pub closed spec fn total(&self) -> nat {
        self.tree.arena.total()
    }

    /// The bytes that the insertion of `key` takes from the arena.
    pub closed spec fn cost(&self, key: Seq<u8>) -> nat {
        self.tree.cost(key)
    }

    /// The arena has room for the insertion of `key`.
    pub open spec fn has_room(&self, key: Seq<u8>) -> bool {
        self.used() + self.cost(key) <= self.total()
    }

    /// The keys of the live entries between two bounds.
    pub open spec fn live_between(&self, lo: Bound<Seq<u8>>, hi: Bound<Seq<u8>>) -> Set<Seq<u8>> {
        Set::new(
            |key: Seq<u8>|
                tree::live_keys(self@).contains(key) && bound::in_range(key, lo, hi),
        )
    }

    /// A node stands behind the first `depth` bytes of `key`, and a lookup of `key` that comes
    /// this far sees `step` there.
    pub closed spec fn passes(&self, key: Seq<u8>, step: LookupStep<TaggedOffset>) -> bool {
        self.tree.trie.step_ok(key, step)
    }

    /// A node or a leaf of the tree stands behind the first `depth` bytes of `key`.
    pub closed spec fn stands_at(&self, key: Seq<u8>, depth: int) -> bool {
        self.tree.trie.outline().at.contains_key(key.take(depth))
    }

    /// The entries are finitely many, each has a version, and its versions have its key.
    pub proof fn lemma_entries(&self)
        requires
            self.wf(),
        ensures
            self@.dom().finite(),
            tree::live_keys(self@).finite(),
            forall|key: Seq<u8>| #[trigger]
                self@.contains_key(key) ==> {
                    &&& self@[key].len() > 0
                    &&& forall|i: int|
                        0 <= i < self@[key].len() ==> (#[trigger] self@[key][i]).key.key_bytes()
                            == key
                },
    {
        self.tree.lemma_entries();
    }

    /// The insertion of a key never takes more from the arena than its bound.
    pub proof fn lemma_cost_bounded(&self, key: Seq<u8>)
        requires
            self.wf(),
            key.len() <= usize::MAX,
        ensures
            self.cost(key) <= tree::max_cost::<K, V>(key.len()),
    {
        self.tree.lemma_cost_bounded(key);
    }

    /// A write takes at least the bytes of a leaf, and no more where the key is there or the map has
    /// never had an entry. There is room for it if and only if these bytes are left.
    pub proof fn lemma_cost_cases(&self, key: Seq<u8>)
        requires
            self.wf(),
            key.len() <= usize::MAX,
        ensures
            self.cost(key) >= tree::leaf_size::<K, V>() + 7,
            self@.contains_key(key) ==> self.cost(key) == tree::leaf_size::<K, V>() + 7,
            self.has_room(key) <==> self.used() + self.cost(key) <= self.total(),
    {
        self.tree.lemma_cost_cases(key);
    }

    /// What a lookup passes: a leaf is that of an entry, and an inner node shows how far the key
    /// goes along with it, where it leads on, and which entry ends there.
    pub proof fn lemma_passes(&self, key: Seq<u8>, step: LookupStep<TaggedOffset>)
        requires
            self.wf(),
            self.passes(key, step),
        ensures
            step.depth <= key.len(),
            self.stands_at(key, step.depth as int),
            step.leaf_key is Some <==> step.node is None,
            step.leaf_key matches Some(bytes) ==> {
                &&& self@.contains_key(bytes@)
                &&& order::extends(bytes@, key.take(step.depth as int))
            },
            step.node matches Some(seen) ==> {
                let rest = key.skip(step.depth as int);
                &&& seen.matched <= seen.prefix@.len()
                &&& seen.matched <= rest.len()
                &&& seen.prefix@.take(seen.matched as int) == rest.take(seen.matched as int)
                &&& seen.complete <==> order::extends(rest, seen.prefix@)
                &&& seen.next_byte is Some <==> seen.complete && rest.len() > seen.prefix@.len()
                &&& seen.next_byte matches Some(byte) ==> byte == rest[seen.prefix@.len() as int]
                &&& seen.exact_key is Some <==> seen.exact_leaf.0 != 0
                &&& seen.exact_key matches Some(bytes) ==> {
                    &&& self@.contains_key(bytes@)
                    &&& bytes@ == key.take(step.depth as int) + seen.prefix@
                }
                &&& seen.child is Some <==> (seen.next_byte matches Some(byte)
                    && seen.child_bytes@.contains(byte))
                &&& seen.num_children == seen.child_bytes@.len()
                &&& forall|i: int, j: int|
                    0 <= i < j < seen.child_bytes@.len() ==> #[trigger] seen.child_bytes@[i]
                        < #[trigger] seen.child_bytes@[j]
            },
    {
        self.tree.lemma_entries();
        let o = self.tree.trie.outline();
        let path = key.take(step.depth as int);
        assert(o.node_ok(path));
        if let Some(seen) = step.node {
            let rest = key.skip(step.depth as int);
            order::lemma_common_prefix(seen.prefix@, rest);
            order::lemma_extends_by_rest(rest, seen.prefix@, Seq::empty());
            if order::extends(rest, seen.prefix@) {
                let n = seen.prefix@.len() as int;
                assert(seen.prefix@.take(n) =~= rest.take(n));
            }
            if seen.complete {
                assert(seen.prefix@.take(seen.prefix@.len() as int) =~= seen.prefix@);
            }
            let bytes = seen.child_bytes@;
            assert(bytes.no_duplicates());
            bytes.unique_seq_to_set();
            if let crate::shape::Cell::Inner { prefix, exact, kids } = o.node(path) {
                assert forall|byte: u8| #[trigger] bytes.to_set().contains(byte)
                    == kids.dom().contains(byte) by {
                    assert(kids.contains_key(byte) == bytes.contains(byte));
                }
                assert(bytes.to_set() =~= kids.dom());
            }
            if seen.exact_key is Some {
                assert(o.keyed(path + seen.prefix@));
                assert(o.keys.contains_key(path + seen.prefix@));
            }
        }
    }

    /// A lookup in a map with an entry starts at the root, whatever the key.
    pub proof fn lemma_lookup_starts(&self, key: Seq<u8>, other: Seq<u8>)
        requires
            self.wf(),
            self@.contains_key(other),
        ensures
            self.stands_at(key, 0),
    {
        self.tree.lemma_entries();
        assert(key.take(0) =~= Seq::<u8>::empty());
    }

    /// A lookup of a key that is there passes its entry: as a leaf, or as the entry that ends at an
    /// inner node.
    pub proof fn lemma_lookup_finds(&self, key: Seq<u8>) -> (depth: int)
        requires
            self.wf(),
            self@.contains_key(key),
        ensures
            0 <= depth <= key.len(),
            self.stands_at(key, depth),
            forall|step: LookupStep<TaggedOffset>| #[trigger]
                self.passes(key, step) && step.depth == depth ==> (step.leaf_key matches Some(bytes)
                    && bytes@ == key) || (step.node matches Some(seen)
                    && seen.exact_key matches Some(bytes) && bytes@ == key),
    {
        self.tree.lemma_entries();
        let depth = self.tree.trie.lemma_key_stands(key);
        assert forall|step: LookupStep<TaggedOffset>| #[trigger]
            self.passes(key, step) && step.depth == depth implies (
        step.leaf_key matches Some(bytes) && bytes@ == key) || (step.node matches Some(seen)
            && seen.exact_key matches Some(bytes) && bytes@ == key) by {
            self.lemma_passes(key, step);
        }
        depth
    }

    /// Creates a new `ArenaArtMap` in the unused part of the specified [`Arena`].
    pub fn new(arena: Arena) -> (map: Self)
        requires
            arena.wf(),
        ensures
            map.wf(),
            map@ == Map::<Seq<u8>, Seq<Version<K, V>>>::empty(),
            map.used() == arena.used(),
            map.total() == arena.total(),
    {
        ArenaArtMap { tree: ArenaTree::new(arena) }
    }

    /// Creates an `ArenaArtMap` with a dedicated new arena of the given capacity.
    pub fn with_capacity(capacity: usize) -> (map: Self)
        ensures
            map.wf(),
            map@ == Map::<Seq<u8>, Seq<Version<K, V>>>::empty(),
            map.used() == super::NODE_ALIGNMENT,
            map.total() == (if capacity <= super::MAX_ARENA_SIZE {
                capacity
            } else {
                super::MAX_ARENA_SIZE
            }),
    {
        Self::new(Arena::with_capacity(capacity))
    }

    /// Returns a reference to the underlying [`Arena`].
    pub fn arena(&self) -> (arena: &Arena)
        requires
            self.wf(),
        ensures
            arena.wf(),
            arena.used() == self.used(),
            arena.total() == self.total(),
    {
        self.tree.arena()
    }

    /// Gives up the map and returns its [`Arena`], which can be reset and used again.
    pub fn into_arena(self) -> (arena: Arena)
        requires
            self.wf(),
        ensures
            arena.wf(),
            arena.used() == self.used(),
            arena.total() == self.total(),
    {
        self.tree.into_arena()
    }

    /// Returns the number of entries in the map.
    pub fn len(&self) -> (n: usize)
        requires
            self.wf(),
        ensures
            n == tree::live_keys(self@).len(),
    {
        self.tree.len()
    }

    /// Returns `true` if the map contains no entries.
    pub fn is_empty(&self) -> (r: bool)
        requires
            self.wf(),
        ensures
            r == (tree::live_keys(self@) == Set::<Seq<u8>>::empty()),
    {
        self.tree.is_empty()
    }

    /// Returns what a lookup of `key_bytes` passes on its way: everything that stands at a prefix
    /// of the key, from the shortest on.
    pub fn debug_lookup(&self, key_bytes: &[u8]) -> (steps: Vec<LookupStep<TaggedOffset>>)
        requires
            self.wf(),
        ensures
            forall|i: int|
                0 <= i < steps@.len() ==> self.passes(key_bytes@, #[trigger] steps@[i]),
            forall|i: int, j: int|
                0 <= i < j < steps@.len() ==> (#[trigger] steps@[i]).depth < (
                #[trigger] steps@[j]).depth,
            forall|d: int|
                0 <= d <= key_bytes@.len() && #[trigger] self.stands_at(key_bytes@, d)
                    ==> exists|i: int| 0 <= i < steps@.len() && (#[trigger] steps@[i]).depth == d,
    {
        self.tree.debug_lookup(key_bytes)
    }

    /// Returns a copy of the value corresponding to the key, if present.
    pub fn get<Q>(&self, key: &Q) -> (r: Option<V>) where K: Borrow<Q>, Q: AsBytes + ?Sized
        requires
            self.wf(),
        ensures
            r is Some <==> tree::live_keys(self@).contains(key.key_bytes()),
            r is Some <==> self@.contains_key(key.key_bytes()) && !self@[key.key_bytes()][0].removed,
            r matches Some(value) ==> cloned(self@[key.key_bytes()][0].value, value),
    {
        self.get_slice(key.as_bytes())
    }

    /// Point lookup on raw byte slice.
    pub fn get_slice(&self, key_bytes: &[u8]) -> (r: Option<V>)
        requires
            self.wf(),
        ensures
            r is Some <==> tree::live_keys(self@).contains(key_bytes@),
            r is Some <==> self@.contains_key(key_bytes@) && !self@[key_bytes@][0].removed,
            r matches Some(value) ==> cloned(self@[key_bytes@][0].value, value),
    {
        match self.tree.get_leaf(key_bytes) {
            Some(leaf) => {
                if leaf.removed {
                    None
                } else {
                    Some(leaf.value.clone())
                }
            },
            None => None,
        }
    }

    /// Looks up the newest version of `key` whose version is less than or equal to `max_version`.
    /// The version that was written last is the newest one, so the versions of an entry are to be
    /// written in ascending order. Nothing is returned if the entry was removed at that version.
    pub fn get_version_le<Q>(&self, key: &Q, max_version: u64) -> (r: Option<(u64, V)>) where
        K: Borrow<Q>,
        Q: AsBytes + ?Sized,

        requires
            self.wf(),
        ensures
            r matches Some((version, value)) ==> self@.contains_key(key.key_bytes()) && exists|
                i: int,
            | #[trigger]
                tree::is_snapshot(self@[key.key_bytes()], max_version, i) && !self@[
                key.key_bytes()][i].removed && version == self@[key.key_bytes()][i].version
                    && cloned(self@[key.key_bytes()][i].value, value),
            r is None ==> !self@.contains_key(key.key_bytes()) || tree::no_snapshot(
                self@[key.key_bytes()],
                max_version,
            ) || exists|i: int| #[trigger]
                tree::is_snapshot(self@[key.key_bytes()], max_version, i)
                    && self@[key.key_bytes()][i].removed,
            r matches Some((version, value)) ==> version <= max_version && exists|i: int|
                {
                    &&& 0 <= i < self@[key.key_bytes()].len()
                    &&& (#[trigger] self@[key.key_bytes()][i]).version == version
                    &&& !self@[key.key_bytes()][i].removed
                    &&& cloned(self@[key.key_bytes()][i].value, value)
                    &&& forall|j: int|
                        0 <= j < i ==> (#[trigger] self@[key.key_bytes()][j]).version > max_version
                },
            r is None && self@.contains_key(key.key_bytes()) ==> {
                ||| forall|j: int|
                    0 <= j < self@[key.key_bytes()].len() ==> (
                    #[trigger] self@[key.key_bytes()][j]).version > max_version
                ||| exists|i: int|
                    {
                        &&& 0 <= i < self@[key.key_bytes()].len()
                        &&& (#[trigger] self@[key.key_bytes()][i]).version <= max_version
                        &&& self@[key.key_bytes()][i].removed
                        &&& forall|j: int|
                            0 <= j < i ==> (#[trigger] self@[key.key_bytes()][j]).version
                                > max_version
                    }
            },
    {
        let r = self.tree.get_version_le(key.as_bytes(), max_version);
        proof {
            assert(self@ == self.tree@);
            let versions = self@[key.key_bytes()];
            if exists|i: int| #[trigger] tree::is_snapshot(versions, max_version, i) {
                let i = choose|i: int| #[trigger] tree::is_snapshot(versions, max_version, i);
                crate::arena::laws::lemma_snapshot_reads(versions, max_version, i);
                assert forall|j: int| #[trigger]
                    tree::is_snapshot(versions, max_version, j) implies j == i by {
                    crate::arena::laws::lemma_snapshot_unique(versions, max_version, i, j);
                }
            }
            crate::arena::laws::lemma_snapshot_or_none(versions, max_version);
        }
        r
    }

    /// Checks if the key is present in the map.
    pub fn contains_key<Q>(&self, key: &Q) -> (r: bool) where K: Borrow<Q>, Q: AsBytes + ?Sized
        requires
            self.wf(),
        ensures
            r == tree::live_keys(self@).contains(key.key_bytes()),
    {
        self.get(key).is_some()
    }

    /// Checks whether the arena has room for the insertion of a key.
    pub fn can_insert<Q>(&self, key: &Q) -> (r: bool) where K: Borrow<Q>, Q: AsBytes + ?Sized
        requires
            self.wf(),
        ensures
            r == self.has_room(key.key_bytes()),
    {
        self.tree.can_insert(key.as_bytes())
    }

    /// Inserts a key-value pair into the map. Returns the old value if replaced.
    pub fn insert(&mut self, key: K, value: V) -> (r: Option<V>)
        requires
            old(self).wf(),
            old(self).has_room(key.key_bytes()),
        ensures
            final(self).wf(),
            final(self)@ == tree::after_insert(old(self)@, key, value),
            r == tree::live_value(old(self)@, key.key_bytes()),
            final(self)@.dom() == old(self)@.dom().insert(key.key_bytes()),
            old(self)@.contains_key(key.key_bytes()) ==> {
                let before = old(self)@[key.key_bytes()];
                let after = final(self)@[key.key_bytes()];
                &&& after.len() == before.len()
                &&& after[0].value == value
                &&& after[0].version == before[0].version
                &&& after[0].key == before[0].key
                &&& !after[0].removed
                &&& forall|i: int| 0 < i < before.len() ==> #[trigger] after[i] == before[i]
            },
            !old(self)@.contains_key(key.key_bytes()) ==> {
                let after = final(self)@[key.key_bytes()];
                &&& after.len() == 1
                &&& after[0] == (Version { removed: false, version: 0, key, value })
            },
            forall|other: Seq<u8>|
                other != key.key_bytes() && #[trigger] old(self)@.contains_key(other)
                    ==> final(self)@[other] == old(self)@[other],
            r is Some <==> old(self)@.contains_key(key.key_bytes()) && !old(
                self,
            )@[key.key_bytes()][0].removed,
            r matches Some(replaced) ==> replaced == old(self)@[key.key_bytes()][0].value,
            final(self).used() == old(self).used() + old(self).cost(key.key_bytes()),
            final(self).total() == old(self).total(),
    {
        self.tree.insert(key, value)
    }

    /// Inserts a key-value pair as [`insert`](Self::insert) does, as the next step of a run of
    /// insertions.
    pub fn insert_with_inserter(
        &mut self,
        key: K,
        value: V,
        inserter: &mut ArenaInserter,
    ) -> (r: Option<V>)
        requires
            old(self).wf(),
            old(self).has_room(key.key_bytes()),
        ensures
            final(self).wf(),
            final(self)@ == tree::after_insert(old(self)@, key, value),
            r == tree::live_value(old(self)@, key.key_bytes()),
            final(self)@.dom() == old(self)@.dom().insert(key.key_bytes()),
            old(self)@.contains_key(key.key_bytes()) ==> {
                let before = old(self)@[key.key_bytes()];
                let after = final(self)@[key.key_bytes()];
                &&& after.len() == before.len()
                &&& after[0].value == value
                &&& after[0].version == before[0].version
                &&& after[0].key == before[0].key
                &&& !after[0].removed
                &&& forall|i: int| 0 < i < before.len() ==> #[trigger] after[i] == before[i]
            },
            !old(self)@.contains_key(key.key_bytes()) ==> {
                let after = final(self)@[key.key_bytes()];
                &&& after.len() == 1
                &&& after[0] == (Version { removed: false, version: 0, key, value })
            },
            forall|other: Seq<u8>|
                other != key.key_bytes() && #[trigger] old(self)@.contains_key(other)
                    ==> final(self)@[other] == old(self)@[other],
            r is Some <==> old(self)@.contains_key(key.key_bytes()) && !old(
                self,
            )@[key.key_bytes()][0].removed,
            r matches Some(replaced) ==> replaced == old(self)@[key.key_bytes()][0].value,
            final(self).used() == old(self).used() + old(self).cost(key.key_bytes()),
            final(self).total() == old(self).total(),
            final(inserter).reached() == Some(key.key_bytes()),
    {
        inserter.last = Some(copied(key.as_bytes()));
        self.insert(key, value)
    }

    /// Inserts a versioned key-value pair into the map.
    pub fn insert_versioned(&mut self, key: K, version: u64, value: V) -> (r: bool)
        requires
            old(self).wf(),
            old(self).has_room(key.key_bytes()),
        ensures
            r,
            final(self).wf(),
            final(self)@ == tree::after_insert_versioned(old(self)@, key, version, value),
            final(self)@.dom() == old(self)@.dom().insert(key.key_bytes()),
            final(self)@[key.key_bytes()].len() == 1 + (if old(self)@.contains_key(
                key.key_bytes(),
            ) {
                old(self)@[key.key_bytes()].len() as int
            } else {
                0
            }),
            final(self)@[key.key_bytes()][0] == (Version { removed: false, version, key, value }),
            old(self)@.contains_key(key.key_bytes()) ==> final(self)@[key.key_bytes()].skip(1)
                == old(self)@[key.key_bytes()],
            forall|other: Seq<u8>|
                other != key.key_bytes() && #[trigger] old(self)@.contains_key(other)
                    ==> final(self)@[other] == old(self)@[other],
            final(self).used() == old(self).used() + old(self).cost(key.key_bytes()),
            final(self).total() == old(self).total(),
    {
        self.tree.insert_versioned(key, version, value)
    }

    /// Removes a key from the map, returning the removed value if present.
    pub fn remove<Q>(&mut self, key: &Q) -> (r: Option<V>) where K: Borrow<Q>, Q: AsBytes + ?Sized
        requires
            old(self).wf(),
        ensures
            final(self).wf(),
            final(self)@ == tree::after_remove(old(self)@, key.key_bytes()),
            final(self)@.dom() == old(self)@.dom(),
            old(self)@.contains_key(key.key_bytes()) ==> {
                let before = old(self)@[key.key_bytes()];
                let after = final(self)@[key.key_bytes()];
                &&& after.len() == before.len()
                &&& after[0].removed
                &&& after[0].version == before[0].version
                &&& after[0].key == before[0].key
                &&& after[0].value == before[0].value
                &&& forall|i: int| 0 < i < before.len() ==> #[trigger] after[i] == before[i]
            },
            forall|other: Seq<u8>|
                other != key.key_bytes() && #[trigger] old(self)@.contains_key(other) ==> final(self)@[other]
                    == old(self)@[other],
            r is Some <==> old(self)@.contains_key(key.key_bytes()) && !old(self)@[key.key_bytes()][0].removed,
            r is Some <==> tree::live_keys(old(self)@).contains(key.key_bytes()),
            r matches Some(value) ==> cloned(old(self)@[key.key_bytes()][0].value, value),
            final(self).used() == old(self).used(),
            final(self).total() == old(self).total(),
    {
        self.tree.remove(key.as_bytes())
    }

    /// Returns an iterator over the entries between two bounds.
    pub fn range<Q>(&self, start: Bound<&Q>, end: Bound<&Q>) -> (range: Range<'_, K, V>) where
        Q: AsBytes + ?Sized,

        requires
            self.wf(),
        ensures
            range.wf(),
            range.entries() == self@,
            range.lo() == bound::bytes_of(start),
            range.hi() == bound::bytes_of(end),
            range.remaining() == self.live_between(bound::bytes_of(start), bound::bytes_of(end)),
            forall|k: Seq<u8>| #[trigger]
                range.remaining().contains(k) <==> {
                    &&& self@.contains_key(k)
                    &&& !self@[k][0].removed
                    &&& match start {
                        Bound::Included(q) => order::lex_le(q.key_bytes(), k),
                        Bound::Excluded(q) => order::lex_lt(q.key_bytes(), k),
                        Bound::Unbounded => true,
                    }
                    &&& match end {
                        Bound::Included(q) => order::lex_le(k, q.key_bytes()),
                        Bound::Excluded(q) => order::lex_lt(k, q.key_bytes()),
                        Bound::Unbounded => true,
                    }
                },
    {
        let range = Range::new(&self.tree, owned_bound(start), owned_bound(end));
        assert(range.remaining() =~= self.live_between(
            bound::bytes_of(start),
            bound::bytes_of(end),
        ));
        range
    }

    /// Returns an iterator visiting all entries in ascending key order.
    pub fn iter(&self) -> (range: Range<'_, K, V>)
        requires
            self.wf(),
        ensures
            range.wf(),
            range.entries() == self@,
            range.remaining() == tree::live_keys(self@),
            forall|k: Seq<u8>| #[trigger]
                range.remaining().contains(k) <==> self@.contains_key(k) && !self@[k][0].removed,
    {
        let range = Range::new(&self.tree, Bound::Unbounded, Bound::Unbounded);
        assert(range.remaining() =~= tree::live_keys(self@));
        range
    }

    /// Hands the key, the value and the version of every entry between two bounds to `f`, in
    /// ascending key order, until `f` returns `false`. Returns how many entries were visited.
    pub fn scan<Q, F>(&self, start: Bound<&Q>, end: Bound<&Q>, f: F) -> (count: usize) where
        Q: AsBytes + ?Sized,
        F: FnMut(&K, &V, u64) -> bool,

        requires
            self.wf(),
            forall|key: Seq<u8>| #[trigger]
                self.live_between(bound::bytes_of(start), bound::bytes_of(end)).contains(key)
                    ==> f.requires(
                    (&self@[key][0].key, &self@[key][0].value, self@[key][0].version),
                ),
        ensures
            exists|visited: Seq<Seq<u8>>, stopped: bool|
                {
                    let keys = self.live_between(bound::bytes_of(start), bound::bytes_of(end));
                    &&& is_front(keys, visited)
                    &&& visited.len() == count
                    &&& #[trigger] answered(self@, f, visited, stopped)
                    &&& stopped ==> visited.len() > 0
                    &&& !stopped ==> forall|key: Seq<u8>| #[trigger]
                        keys.contains(key) ==> visited.contains(key)
                },
    {
        let mut f = f;
        let mut range = self.range(start, end);
        let ghost keys = range.remaining();
        let ghost mut visited: Seq<Seq<u8>> = Seq::empty();
        let mut count: usize = 0;
        let ghost g = f;
        proof {
            self.tree.lemma_entries();
            vstd::set_lib::lemma_len_subset(keys, tree::live_keys(self@));
        }
        let len: usize = self.tree.len();
        loop
            invariant_except_break
                answered(self@, g, visited, false),
            invariant
                self.wf(),
                range.wf(),
                range.entries() == self@,
                keys.finite(),
                keys.len() <= len,
                count == visited.len(),
                count + range.remaining().len() == keys.len(),
                range.remaining().finite(),
                f == g,
                forall|key: Seq<u8>| #[trigger]
                    keys.contains(key) ==> g.requires(
                        (&self@[key][0].key, &self@[key][0].value, self@[key][0].version),
                    ),
                forall|key: Seq<u8>| #[trigger]
                    keys.contains(key) <==> visited.contains(key) || range.remaining().contains(
                        key,
                    ),
                forall|i: int, k: Seq<u8>|
                    0 <= i < visited.len() && #[trigger] range.remaining().contains(k)
                        ==> order::lex_lt(#[trigger] visited[i], k),
                is_front(keys, visited),
            ensures
                exists|visited: Seq<Seq<u8>>, stopped: bool|
                    {
                        &&& is_front(keys, visited)
                        &&& visited.len() == count
                        &&& #[trigger] answered(self@, g, visited, stopped)
                        &&& stopped ==> visited.len() > 0
                        &&& !stopped ==> forall|key: Seq<u8>| #[trigger]
                            keys.contains(key) ==> visited.contains(key)
                    },
            decreases range.remaining().len(),
        {
            let ghost left = range.remaining();
            match range.next() {
                None => {
                    break;
                },
                Some(entry) => {
                    let ghost key = entry@.key.key_bytes();
                    let ghost before = visited;
                    proof {
                        visited = visited.push(key);
                        assert(left.contains(key));
                        assert(visited[before.len() as int] == key);
                        assert forall|k: Seq<u8>| #[trigger] keys.contains(k) <==> (
                        visited.contains(k) || range.remaining().contains(k)) by {
                            if before.contains(k) {
                                let i = choose|i: int| 0 <= i < before.len() && before[i] == k;
                                assert(visited[i] == k);
                            }
                            if visited.contains(k) && k != key {
                                let i = choose|i: int| 0 <= i < visited.len() && visited[i] == k;
                                assert(before[i] == k);
                            }
                        }
                        assert forall|i: int, k: Seq<u8>|
                            0 <= i < visited.len() && #[trigger] range.remaining().contains(
                                k,
                            ) implies order::lex_lt(#[trigger] visited[i], k) by {
                            assert(left.contains(k));
                            if i < before.len() {
                                assert(before[i] == visited[i]);
                            }
                        }
                        assert forall|i: int| 0 <= i < visited.len() implies keys.contains(
                            #[trigger] visited[i],
                        ) by {
                            assert(visited.contains(visited[i]));
                        }
                    }
                    count = count + 1;
                    if !f(entry.key(), entry.value(), entry.version()) {
                        assert(answered(self@, g, visited, true));
                        break;
                    }
                    assert(answered(self@, g, visited, false));
                },
            }
        }
        count
    }
}

} // verus!
