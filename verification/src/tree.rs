//! # Core adaptive radix tree
//!
//! The tree behind [`ArtMap`](crate::ArtMap): it keeps its nodes in slots of its own, hands
//! vacated slots out again, and retires what it unlinks through an epoch guard. Every leaf gets a
//! serial number, so that a pointer to a leaf never leads to another one.

use crossbeam_epoch::{pin, Guard};

use crate::epoch::retire;
use crate::key::AsBytes;
use crate::latch;
use crate::latch::HybridLatch;
use crate::node::{Leaf, Link, TaggedPtr};
use crate::order::same_bytes;
use crate::seek;
use crate::trie;
use crate::trie::{Keyed, Need, Slot, Spot, Trie};
use vstd::prelude::*;

verus! {

impl<K: AsBytes, V> Keyed for Leaf<K, V> {
    open spec fn own_key(&self) -> Seq<u8> {
        self.key.key_bytes()
    }

    fn key_slice(&self) -> (bytes: &[u8]) {
        self.key.as_bytes()
    }
}

/// A pointer to a leaf of a [`Tree`]. Once the entry is removed, it leads nowhere for good.
#[derive(Copy, Clone, PartialEq, Eq, Structural, Debug)]
pub struct LeafPtr {
    /// Leads to the slot of the leaf.
    pub link: TaggedPtr,
    /// The serial number of the leaf.
    pub serial: u64,
}

/// Internal tree structure.
pub struct Tree<K, V> {
    /// The nodes and the leaves.
    pub trie: Trie<TaggedPtr, Leaf<K, V>>,
    /// Guards the root.
    pub root_latch: HybridLatch,
    /// The number of entries.
    pub len: usize,
    /// The slots that were vacated and may be handed out again.
    pub free: Vec<usize>,
    /// The serial number that was given out last. If no greater one is left, leaves keep getting
    /// it, in slots that were never used before.
    pub serial: u64,
}

/// `slot` is among the vacated slots.
pub open spec fn listed(free: Seq<usize>, slot: int) -> bool {
    exists|i: int| 0 <= i < free.len() && (#[trigger] free[i]) == slot
}

/// The vacated slots are vacant, and each is listed once.
pub open spec fn free_ok<P: Link, L: Keyed>(slots: Seq<Slot<P, L>>, free: Seq<usize>) -> bool {
    &&& forall|i: int|
        0 <= i < free.len() ==> 0 < (#[trigger] free[i]) < slots.len()
            && slots[free[i] as int] is Vacant
    &&& forall|i: int, j: int|
        0 <= i < j < free.len() ==> (#[trigger] free[i]) != (#[trigger] free[j])
}

/// No leaf has a serial number beyond the one that was given out last.
pub open spec fn serials_ok<K, V>(leaves: Map<Seq<u8>, Leaf<K, V>>, serial: u64) -> bool {
    forall|key: Seq<u8>| #[trigger] leaves.contains_key(key) ==> leaves[key].serial <= serial
}

/// The entry that a leaf holds.
pub open spec fn entry_of<K, V>(leaf: Leaf<K, V>) -> (K, V) {
    (leaf.key, leaf.value)
}

impl<K: AsBytes, V> View for Tree<K, V> {
    type V = Map<Seq<u8>, (K, V)>;

    /// The entries by the bytes of their key.
    open spec fn view(&self) -> Map<Seq<u8>, (K, V)> {
        self.trie.leaves().map_values(|leaf: Leaf<K, V>| entry_of(leaf))
    }
}

impl<K: AsBytes, V> Default for Tree<K, V> {
    fn default() -> (tree: Self)
        ensures
            tree.wf(),
            tree@ == Map::<Seq<u8>, (K, V)>::empty(),
    {
        Self::new()
    }
}

impl<K: AsBytes, V> Tree<K, V> {
    /// The nodes form a tree, the length counts the entries, the vacated slots are vacant, and the
    /// serial numbers were given out.
    pub open spec fn wf(&self) -> bool {
        &&& self.trie.wf()
        &&& self.len == self.trie.keys().dom().len()
        &&& free_ok(self.trie.slots@, self.free@)
        &&& self.trie.slots@[0] is Vacant
        &&& self.root_latch.is_free()
        &&& serials_ok(self.trie.leaves(), self.serial)
    }

    /// `ptr` leads to the leaf of the entry with this key.
    pub open spec fn leads_to(&self, ptr: TaggedPtr, key: Seq<u8>) -> bool {
        &&& self.trie.keys().contains_key(key)
        &&& self.trie.keys()[key] == ptr
    }

    /// `ptr` leads to the leaf of an entry.
    pub open spec fn leads_to_entry(&self, ptr: TaggedPtr) -> bool {
        self.trie.is_entry(ptr)
    }

    /// The key of the entry to whose leaf `ptr` leads.
    pub open spec fn key_behind(&self, ptr: TaggedPtr) -> Seq<u8> {
        self.trie.key_at(ptr)
    }

    /// `ptr` is the pointer to the leaf of the entry with this key.
    pub open spec fn points_to(&self, ptr: LeafPtr, key: Seq<u8>) -> bool {
        &&& self.leads_to(ptr.link, key)
        &&& self.trie.leaves()[key].serial == ptr.serial
    }

    /// `ptr` is the pointer to the leaf of an entry.
    pub open spec fn points_to_entry(&self, ptr: LeafPtr) -> bool {
        &&& self.leads_to_entry(ptr.link)
        &&& self.trie.leaf_at(ptr.link).serial == ptr.serial
    }

    /// `ptr` may have been handed out.
    pub open spec fn issued(&self, ptr: LeafPtr) -> bool {
        &&& ptr.serial <= self.serial
        &&& ptr.serial == u64::MAX ==> ptr.link.slot() < self.trie.slots@.len()
    }

    /// No pointer that may have been handed out leads to an entry of `n` to which it did not lead
    /// here.
    pub open spec fn pointers_kept(&self, n: &Self) -> bool {
        &&& forall|ptr: LeafPtr| #[trigger] self.issued(ptr) ==> n.issued(ptr)
        &&& forall|ptr: LeafPtr, key: Seq<u8>|
            self.issued(ptr) && #[trigger] n.points_to(ptr, key) ==> self.points_to(ptr, key)
    }

    /// The entries that `n` still has are where they are here.
    pub open spec fn leaves_stay(&self, n: &Self) -> bool {
        forall|ptr: LeafPtr, key: Seq<u8>| #[trigger]
            self.points_to(ptr, key) && n@.contains_key(key) ==> n.points_to(ptr, key)
    }

    /// A pointer to the leaf of an entry is one to the leaf of its key, and was handed out.
    pub proof fn lemma_points(&self, ptr: LeafPtr)
        requires
            self.wf(),
        ensures
            self.points_to_entry(ptr) ==> self.points_to(ptr, self.key_behind(ptr.link))
                && self.issued(ptr),
            forall|key: Seq<u8>| #[trigger]
                self.points_to(ptr, key) ==> self.points_to_entry(ptr) && self.key_behind(ptr.link)
                    == key,
    {
        assert forall|key: Seq<u8>| #[trigger] self.points_to(ptr, key) implies
            self.points_to_entry(ptr) && self.key_behind(ptr.link) == key by {
            assert(self.trie.outline().keyed(key));
        }
        if self.points_to_entry(ptr) {
            assert(self.trie.leaves().contains_key(self.key_behind(ptr.link)));
        }
    }

    /// The same leaves under the same keys, and as many slots or more, keep the pointers.
    proof fn lemma_same_leaves(&self, n: &Self)
        requires
            n.trie.keys() == self.trie.keys(),
            forall|key: Seq<u8>| #[trigger]
                self.trie.keys().contains_key(key) ==> n.trie.leaves()[key].serial
                    == self.trie.leaves()[key].serial,
            self.trie.slots@.len() <= n.trie.slots@.len(),
            self.serial <= n.serial,
        ensures
            self.pointers_kept(n),
            self.leaves_stay(n),
    {
    }

    /// A key is in the tree if and only if it has a leaf, and the leaf holds the entry.
    pub proof fn lemma_entries(&self)
        requires
            self.wf(),
        ensures
            self@.dom() == self.trie.keys().dom(),
            self@.dom().finite(),
            self@.dom().len() == self.len,
            forall|key: Seq<u8>| #[trigger]
                self@.contains_key(key) ==> {
                    let ptr = self.trie.keys()[key];
                    &&& self.leads_to_entry(ptr)
                    &&& self.key_behind(ptr) == key
                    &&& self@[key] == entry_of(self.trie.leaf_at(ptr))
                    &&& self@[key].0.key_bytes() == key
                },
            forall|ptr: TaggedPtr| #[trigger]
                self.leads_to_entry(ptr) ==> {
                    &&& self@.contains_key(self.key_behind(ptr))
                    &&& self@[self.key_behind(ptr)] == entry_of(self.trie.leaf_at(ptr))
                },
    {
        assert(self@.dom() =~= self.trie.keys().dom());
        assert forall|key: Seq<u8>| #[trigger] self@.contains_key(key) implies ({
            let ptr = self.trie.keys()[key];
            &&& self.leads_to_entry(ptr)
            &&& self.key_behind(ptr) == key
            &&& self@[key] == entry_of(self.trie.leaf_at(ptr))
            &&& self@[key].0.key_bytes() == key
        }) by {
            assert(self.trie.outline().keyed(key));
        }
    }

    /// The entry of a key is the key and the value of the leaf to which its pointer leads, and the
    /// pointer was handed out.
    pub proof fn lemma_entry_at(&self, ptr: LeafPtr, key: Seq<u8>)
        requires
            self.wf(),
            self.points_to(ptr, key),
        ensures
            self@.contains_key(key),
            self@[key].0 == self.trie.leaf_at(ptr.link).key,
            self@[key].1 == self.trie.leaf_at(ptr.link).value,
            self.trie.leaf_at(ptr.link).serial == ptr.serial,
            ptr.serial <= self.serial,
    {
        self.lemma_points(ptr);
        self.lemma_entries();
    }

    /// Creates an empty tree.
    pub fn new() -> (tree: Self)
        ensures
            tree.wf(),
            tree@ == Map::<Seq<u8>, (K, V)>::empty(),
            tree.trie.root.absent(),
            tree.root_latch@ == 0,
            tree.serial == 0,
            trie::nodes_of(tree.trie.slots@) == Map::<int, trie::NodeState>::empty(),
    {
        let tree = Tree {
            trie: Trie::new(),
            root_latch: HybridLatch::new(),
            len: 0,
            free: Vec::new(),
            serial: 0,
        };
        proof {
            assert(tree.trie.keys().dom() =~= Set::<Seq<u8>>::empty());
            assert(tree@ =~= Map::<Seq<u8>, (K, V)>::empty());
            assert(trie::nodes_of(tree.trie.slots@) =~= Map::<int, trie::NodeState>::empty());
        }
        tree
    }

    /// Where the tree starts.
    pub fn raw_root(&self) -> (root: TaggedPtr)
        requires
            self.wf(),
        ensures
            root == self.trie.root,
            root.absent() ==> self@ == Map::<Seq<u8>, (K, V)>::empty(),
    {
        proof {
            if self.trie.root.absent() {
                assert(self@ =~= Map::<Seq<u8>, (K, V)>::empty());
            }
        }
        self.trie.root
    }

    /// The number of entries.
    pub fn len(&self) -> (n: usize)
        requires
            self.wf(),
        ensures
            n == self@.dom().len(),
    {
        proof {
            self.lemma_entries();
        }
        self.len
    }

    /// Checks whether the tree has no entries.
    pub fn is_empty(&self) -> (r: bool)
        requires
            self.wf(),
        ensures
            r == (self@ == Map::<Seq<u8>, (K, V)>::empty()),
    {
        proof {
            self.lemma_entries();
            if self.len == 0 {
                assert(self@.dom() =~= Set::<Seq<u8>>::empty());
                assert(self@ =~= Map::<Seq<u8>, (K, V)>::empty());
            } else {
                assert(Map::<Seq<u8>, (K, V)>::empty().dom().len() == 0);
            }
        }
        self.len() == 0
    }

    /// The leaf to which `ptr` points.
    pub fn leaf(&self, ptr: LeafPtr) -> (leaf: &Leaf<K, V>)
        requires
            self.wf(),
            self.points_to_entry(ptr),
        ensures
            *leaf == self.trie.leaf_at(ptr.link),
            leaf.own_key() == self.key_behind(ptr.link),
            self@.contains_key(leaf.own_key()),
            self@[leaf.own_key()] == entry_of(*leaf),
    {
        proof {
            self.lemma_entries();
        }
        self.trie.leaf(ptr.link)
    }

    /// The pointer to the leaf to which `link` leads.
    fn pointer(&self, link: TaggedPtr) -> (ptr: LeafPtr)
        requires
            self.wf(),
            self.leads_to_entry(link),
        ensures
            ptr.link == link,
            self.points_to_entry(ptr),
            self.points_to(ptr, self.key_behind(link)),
    {
        LeafPtr { link, serial: self.trie.leaf(link).serial }
    }

    /// Counts one change of the root on its latch, as a writer that takes and releases it does.
    fn touch_root(&mut self)
        requires
            old(self).root_latch.is_free(),
        ensures
            final(self).root_latch.is_free(),
            final(self).root_latch@ == old(self).root_latch@.wrapping_add(latch::VERSION_STEP),
            final(self).root_latch@ != old(self).root_latch@,
            final(self).trie == old(self).trie,
            final(self).len == old(self).len,
            final(self).free == old(self).free,
            final(self).serial == old(self).serial,
    {
        proof {
            latch::lemma_write_is_visible(self.root_latch@);
        }
        let _ = self.root_latch.lock();
        self.root_latch.unlock();
    }

    /// Hands out a vacant slot.
    fn alloc_slot(&mut self) -> (slot: usize)
        requires
            old(self).wf(),
        ensures
            final(self).wf(),
            old(self).trie.widened(&final(self).trie),
            0 < slot < final(self).trie.slots@.len(),
            final(self).trie.slots@[slot as int] is Vacant,
            !listed(final(self).free@, slot as int),
            listed(old(self).free@, slot as int) || slot >= old(self).trie.slots@.len(),
            forall|s: int| #[trigger] listed(final(self).free@, s) ==> listed(old(self).free@, s),
            final(self).len == old(self).len,
            final(self).root_latch == old(self).root_latch,
            final(self).serial == old(self).serial,
    {
        let ghost before = *self;
        match self.free.pop() {
            Some(slot) => {
                proof {
                    let n = before.free@.len() - 1;
                    assert(before.free@[n] == slot);
                    assert forall|s: int| #[trigger] listed(self.free@, s) implies listed(
                        before.free@,
                        s,
                    ) by {
                        let i = choose|i: int|
                            0 <= i < self.free@.len() && (#[trigger] self.free@[i]) == s;
                        assert(before.free@[i] == s);
                    }
                    if listed(self.free@, slot as int) {
                        let i = choose|i: int|
                            0 <= i < self.free@.len() && (#[trigger] self.free@[i]) == slot as int;
                        assert(before.free@[i] == slot);
                    }
                }
                slot
            },
            None => {
                let slot: usize = self.trie.push_slot();
                proof {
                    before.trie.lemma_widened(&self.trie);
                }
                slot
            },
        }
    }

    /// Hands out a vacant slot and a serial number for a leaf, which no leaf had together.
    fn alloc_leaf(&mut self) -> (r: (usize, u64))
        requires
            old(self).wf(),
        ensures
            final(self).wf(),
            old(self).trie.widened(&final(self).trie),
            0 < r.0 < final(self).trie.slots@.len(),
            final(self).trie.slots@[r.0 as int] is Vacant,
            !listed(final(self).free@, r.0 as int),
            final(self).len == old(self).len,
            final(self).root_latch == old(self).root_latch,
            old(self).serial <= final(self).serial,
            final(self).serial == r.1,
            forall|ptr: LeafPtr|
                ptr.link.slot() == r.0 && ptr.serial == r.1 ==> !#[trigger] old(self).issued(ptr),
    {
        let ghost before = *self;
        if self.serial < u64::MAX {
            let slot: usize = self.alloc_slot();
            proof {
                before.trie.lemma_widened(&self.trie);
            }
            self.serial = self.serial + 1;
            (slot, self.serial)
        } else {
            let slot: usize = self.trie.push_slot();
            proof {
                before.trie.lemma_widened(&self.trie);
            }
            (slot, self.serial)
        }
    }

    /// Hands out vacant slots for new inner nodes, other than that of `link`.
    fn alloc_nodes(&mut self, count: usize, link: TaggedPtr) -> (fresh: Vec<TaggedPtr>)
        requires
            old(self).wf(),
            old(self).trie.leaf_slot_free(link),
            !listed(old(self).free@, link.slot() as int),
        ensures
            final(self).wf(),
            old(self).trie.widened(&final(self).trie),
            final(self).len == old(self).len,
            final(self).root_latch == old(self).root_latch,
            final(self).serial == old(self).serial,
            fresh@.len() == count,
            final(self).trie.leaf_slot_free(link),
            final(self).trie.fresh_ok(fresh@, link),
            !listed(final(self).free@, link.slot() as int),
            forall|j: int|
                0 <= j < fresh@.len() ==> !listed(
                    final(self).free@,
                    (#[trigger] fresh@[j]).slot() as int,
                ),
    {
        let ghost before = *self;
        let mut fresh: Vec<TaggedPtr> = Vec::new();
        let mut i: usize = 0;
        while i < count
            invariant
                i <= count,
                fresh@.len() == i,
                self.wf(),
                before.trie.widened(&self.trie),
                self.len == before.len,
                self.root_latch == before.root_latch,
                self.serial == before.serial,
                self.trie.leaf_slot_free(link),
                self.trie.fresh_ok(fresh@, link),
                !listed(self.free@, link.slot() as int),
                forall|j: int|
                    0 <= j < fresh@.len() ==> !listed(
                        self.free@,
                        (#[trigger] fresh@[j]).slot() as int,
                    ),
            decreases count - i,
        {
            let ghost prev = *self;
            let ghost seen = fresh@;
            let slot: usize = self.alloc_slot();
            fresh.push(TaggedPtr::from_inner(slot));
            i = i + 1;
            proof {
                assert(slot != link.slot());
                assert forall|j: int| 0 <= j < seen.len() implies (#[trigger] seen[j]).slot()
                    != slot by {
                    assert(prev.trie.inner_slot_free(seen[j]));
                    assert(!listed(prev.free@, seen[j].slot() as int));
                }
                assert forall|j: int| 0 <= j < fresh@.len() implies
                    #[trigger] self.trie.inner_slot_free(fresh@[j]) by {
                    if j < seen.len() {
                        assert(prev.trie.inner_slot_free(seen[j]));
                        assert(self.trie.slots@[seen[j].slot() as int]
                            == prev.trie.slots@[seen[j].slot() as int]);
                    }
                }
                assert(self.trie.slots@[link.slot() as int]
                    == prev.trie.slots@[link.slot() as int]);
            }
        }
        fresh
    }
}

/// A latch word after the latch was taken and released, if that was done.
pub open spec fn word_after(word: u64, written: bool) -> u64 {
    if written {
        word.wrapping_add(latch::VERSION_STEP)
    } else {
        word
    }
}

/// A latch that was taken and released has counted one further, by four.
pub proof fn lemma_word_after(word: u64)
    ensures
        word_after(word, false) == word,
        word_after(word, true) == word.wrapping_add(4),
        word_after(word, true) != word,
{
}

/// The entries after `value` was put in under `key`: an entry that is there keeps its own key.
pub open spec fn with_entry<K: AsBytes, V>(
    entries: Map<Seq<u8>, (K, V)>,
    key: K,
    value: V,
) -> Map<Seq<u8>, (K, V)> {
    let bytes = key.key_bytes();
    if entries.contains_key(bytes) {
        entries.insert(bytes, (entries[bytes].0, value))
    } else {
        entries.insert(bytes, (key, value))
    }
}

/// The value of an entry.
pub open spec fn value_in<K, V>(entries: Map<Seq<u8>, (K, V)>, key: Seq<u8>) -> Option<V> {
    if entries.contains_key(key) {
        Some(entries[key].1)
    } else {
        None
    }
}

impl<K: AsBytes + Send + 'static, V: Send + 'static> Tree<K, V> {
    /// The pointer to the leaf of a key.
    pub fn get_leaf<Q>(&self, key: &Q, _guard: &Guard) -> (r: Option<LeafPtr>) where
        Q: AsBytes + ?Sized,

        requires
            self.wf(),
        ensures
            r is Some <==> self@.contains_key(key.key_bytes()),
            r matches Some(ptr) ==> {
                &&& self.points_to(ptr, key.key_bytes())
                &&& self.points_to_entry(ptr)
                &&& self.key_behind(ptr.link) == key.key_bytes()
            },
    {
        match self.trie.get_leaf(key.as_bytes()) {
            Some(link) => Some(self.pointer(link)),
            None => None,
        }
    }

    /// The value of a key.
    pub fn get<'g, Q>(&'g self, key: &Q, guard: &Guard) -> (r: Option<&'g V>) where
        Q: AsBytes + ?Sized,

        requires
            self.wf(),
        ensures
            r is Some <==> self@.contains_key(key.key_bytes()),
            r matches Some(value) ==> *value == self@[key.key_bytes()].1,
    {
        match self.get_leaf(key, guard) {
            Some(ptr) => Some(&self.leaf(ptr).value),
            None => None,
        }
    }

    /// Inserts or updates a key-value pair.
    pub fn insert(&mut self, key: K, value: V, guard: &Guard) -> (r: Option<V>)
        requires
            old(self).wf(),
        ensures
            final(self).wf(),
            final(self)@ == with_entry(old(self)@, key, value),
            r == value_in(old(self)@, key.key_bytes()),
            final(self)@.dom() == old(self)@.dom().insert(key.key_bytes()),
            final(self)@[key.key_bytes()].1 == value,
            final(self)@[key.key_bytes()].0 == (if old(self)@.contains_key(key.key_bytes()) {
                old(self)@[key.key_bytes()].0
            } else {
                key
            }),
            forall|other: Seq<u8>|
                other != key.key_bytes() && #[trigger] old(self)@.contains_key(other)
                    ==> final(self)@[other] == old(self)@[other],
            r is Some <==> old(self)@.contains_key(key.key_bytes()),
            r matches Some(replaced) ==> replaced == old(self)@[key.key_bytes()].1,
            final(self).root_latch@ == word_after(
                old(self).root_latch@,
                old(self).trie.root_written(key.key_bytes()),
            ),
            old(self).trie.nodes_inserted(&final(self).trie, key.key_bytes(), true),
            old(self).pointers_kept(final(self)),
            old(self).leaves_stay(final(self)),
    {
        let (replaced, _) = self.insert_or_modify(key, value, true, guard);
        replaced
    }

    /// Inserts a key-value pair if absent, and returns the pointer to the leaf of the key.
    pub fn get_or_insert_with<F>(&mut self, key: K, f: F, guard: &Guard) -> (ptr: LeafPtr) where
        F: FnOnce() -> V,

        requires
            old(self).wf(),
            !old(self)@.contains_key(key.key_bytes()) ==> f.requires(()),
        ensures
            final(self).wf(),
            old(self)@.contains_key(key.key_bytes()) ==> *final(self) == *old(self),
            !old(self)@.contains_key(key.key_bytes()) ==> {
                &&& final(self).root_latch@ == word_after(
                    old(self).root_latch@,
                    old(self).trie.root_written(key.key_bytes()),
                )
                &&& old(self).trie.nodes_inserted(&final(self).trie, key.key_bytes(), true)
                &&& final(self)@.contains_key(key.key_bytes())
                &&& f.ensures((), final(self)@[key.key_bytes()].1)
                &&& final(self)@ == old(self)@.insert(
                    key.key_bytes(),
                    (key, final(self)@[key.key_bytes()].1),
                )
            },
            old(self).pointers_kept(final(self)),
            old(self).leaves_stay(final(self)),
            final(self).points_to(ptr, key.key_bytes()),
            final(self).points_to_entry(ptr),
            final(self).key_behind(ptr.link) == key.key_bytes(),
            !old(self)@.contains_key(key.key_bytes()) ==> !old(self).issued(ptr),
    {
        if let Some(ptr) = self.get_leaf(&key, guard) {
            return ptr;
        }
        let ghost bytes = key.key_bytes();
        let value = f();
        let (_, ptr) = self.insert_or_modify(key, value, false, guard);
        ptr
    }

    /// Inserts a new leaf, or changes the one that is there if `replace_if_present` says so.
    /// Returns the value that was replaced, and the pointer to the leaf of the key.
    fn insert_or_modify(
        &mut self,
        key: K,
        value: V,
        replace_if_present: bool,
        guard: &Guard,
    ) -> (r: (Option<V>, LeafPtr))
        requires
            old(self).wf(),
        ensures
            final(self).wf(),
            final(self)@ == (if old(self)@.contains_key(key.key_bytes()) && !replace_if_present {
                old(self)@
            } else {
                with_entry(old(self)@, key, value)
            }),
            r.0 == (if replace_if_present {
                value_in(old(self)@, key.key_bytes())
            } else {
                None
            }),
            final(self).points_to(r.1, key.key_bytes()),
            final(self).points_to_entry(r.1),
            final(self).key_behind(r.1.link) == key.key_bytes(),
            old(self).pointers_kept(final(self)),
            old(self).leaves_stay(final(self)),
            !old(self)@.contains_key(key.key_bytes()) ==> !old(self).issued(r.1),
            final(self).root_latch@ == word_after(
                old(self).root_latch@,
                old(self).trie.root_written(key.key_bytes()),
            ),
            old(self).trie.nodes_inserted(&final(self).trie, key.key_bytes(), true),
    {
        let ghost original = *self;
        let ghost bytes = key.key_bytes();
        let mut leaf: Box<Leaf<K, V>> = Leaf::new(key, value);
        let spot = self.trie.locate(leaf.key_slice());
        let ghost found = spot;
        self.latch_written(Ghost(bytes), &spot);
        let ghost before = *self;
        proof {
            self.lemma_entries();
            self.trie.lemma_spot(bytes, spot);
        }
        let present: Option<TaggedPtr> = match spot {
            Spot::Leaf { place: _, depth: _, leaf: there } => {
                if same_bytes(self.trie.leaf(there).key_slice(), leaf.key_slice()) {
                    Some(there)
                } else {
                    None
                }
            },
            Spot::Exact { place: _, depth: _, node: _, leaf: there } => {
                if there.is_null() {
                    None
                } else {
                    Some(there)
                }
            },
            _ => None,
        };
        assert(present == self.trie.keys().get(bytes));
        if let Some(ptr) = present {
            proof {
                assert(original.trie.need(bytes, found) == Need::Nothing);
                assert(original.trie.nodes_written(found, true) == original.trie.nodes_after(
                    original.trie.nodes_written(found, true),
                    bytes,
                    found,
                    Seq::<TaggedPtr>::empty(),
                ));
            }
            if !replace_if_present {
                proof {
                    original.lemma_same_leaves(self);
                }
                return (None, self.pointer(ptr));
            }
            let mut value: V = leaf.value;
            let there = self.trie.leaf_mut(ptr);
            let ghost own = there.key;
            std::mem::swap(&mut there.value, &mut value);
            proof {
                let changed = self.trie.leaf_at(ptr);
                before.trie.lemma_leaf_changed(&self.trie, ptr, changed);
                assert(trie::nodes_of(self.trie.slots@) =~= trie::nodes_of(before.trie.slots@));
                self.lemma_entries();
                assert(self@ =~= with_entry(before@, key, changed.value));
                original.lemma_same_leaves(self);
            }
            return (Some(value), self.pointer(ptr));
        }
        let need = self.trie.nodes_needed(leaf.key_slice(), &spot);
        let count: usize = match need {
            Need::Nothing => 0,
            Need::Chain(n) => n,
            Need::Growth(_) => 1,
        };
        let (slot, serial): (usize, u64) = self.alloc_leaf();
        leaf.serial = serial;
        let link: TaggedPtr = TaggedPtr::from_leaf(slot);
        let ghost ptr = LeafPtr { link, serial };
        proof {
            assert(!before.issued(ptr));
            assert(!original.issued(ptr));
            before.trie.lemma_widened(&self.trie);
        }
        let ghost placed = *self;
        let fresh = self.alloc_nodes(count, link);
        proof {
            placed.trie.lemma_widened(&self.trie);
            assert(before.trie.spot_ok(bytes, spot));
            assert(placed.trie.spot_ok(bytes, spot));
            assert(self.trie.spot_ok(bytes, spot));
        }
        let vacated: usize = match spot {
            Spot::Gap { place: _, depth: _, node, byte: _ } => node.slot_number(),
            _ => 0,
        };
        let ghost ready = *self;
        let ghost stored = *leaf;
        let obsolete = self.trie.insert_at(spot, leaf, link, &fresh);
        proof {
            self.trie.lemma_keys_bounded();
            assert(self.trie.keys().dom() =~= before.trie.keys().dom().insert(bytes));
            assert forall|i: int| 0 <= i < self.free@.len() implies
                self.trie.slots@[#[trigger] self.free@[i] as int] is Vacant by {
                let s = self.free@[i] as int;
                assert(listed(ready.free@, s));
                if trie::slots_of(fresh@).contains(s) {
                    let j = choose|j: int|
                        0 <= j < fresh@.len() && (#[trigger] fresh@[j]).slot() == s;
                }
                assert(ready.trie.slots@[s] is Vacant);
            }
        }
        let slot_count: usize = self.trie.slots.len();
        assert(self.len < slot_count);
        proof {
            assert(ready.trie.slots@[0] is Vacant);
            if trie::slots_of(fresh@).contains(0) {
                let j = choose|j: int| 0 <= j < fresh@.len() && (#[trigger] fresh@[j]).slot() == 0;
                assert(ready.trie.inner_slot_free(fresh@[j]));
                TaggedPtr::lemma_null(fresh@[j]);
            }
        }
        self.len = self.len + 1;
        if let Some(old_node) = obsolete {
            proof {
                if let Spot::Gap { place, depth, node, byte } = found {
                    assert(ready.trie.outline().node_ok(bytes.take(depth as int)));
                    assert(node.slot() > 0) by {
                        assert(ready.trie.slots@[node.slot() as int] is Inner);
                        assert(!node.absent() && !node.leaf());
                        TaggedPtr::lemma_null(node);
                    }
                    assert forall|i: int| 0 <= i < self.free@.len() implies #[trigger] self.free@[i]
                        != vacated by {
                        assert(ready.trie.slots@[self.free@[i] as int] is Vacant);
                    }
                }
            }
            self.free.push(vacated);
            retire(guard, old_node);
        }
        proof {
            assert(trie::nodes_of(self.trie.slots@) == original.trie.nodes_after(
                original.trie.nodes_written(found, true),
                bytes,
                found,
                fresh@,
            ));
            self.lemma_entries();
            assert(self.trie.leaf_at(link) == stored);
            assert(self@ =~= with_entry(before@, key, value));
            self.lemma_points(ptr);
            assert forall|p: LeafPtr, k: Seq<u8>|
                original.issued(p) && #[trigger] self.points_to(p, k) implies original.points_to(
                p,
                k,
            ) by {
                assert(k == bytes ==> p == ptr);
            }
        }
        (None, LeafPtr { link, serial })
    }

    /// Takes and releases the latches that an insertion at `spot` writes under.
    fn latch_written(&mut self, Ghost(bytes): Ghost<Seq<u8>>, spot: &Spot<TaggedPtr>)
        requires
            old(self).wf(),
            old(self).trie.spot_ok(bytes, *spot),
        ensures
            final(self).wf(),
            final(self)@ == old(self)@,
            final(self).serial == old(self).serial,
            old(self).trie.relatched(&final(self).trie),
            final(self).trie.spot_ok(bytes, *spot),
            final(self).trie.need(bytes, *spot) == old(self).trie.need(bytes, *spot),
            final(self).root_latch@ == word_after(
                old(self).root_latch@,
                old(self).trie.root_written(bytes),
            ),
            trie::nodes_of(final(self).trie.slots@) == old(self).trie.nodes_written(*spot, true),
    {
        let ghost before = *self;
        proof {
            self.trie.lemma_root_written(bytes, *spot);
        }
        let at_root = self.trie.touch_written(Ghost(bytes), spot, true);
        proof {
            before.trie.lemma_relatched(&self.trie);
        }
        if at_root {
            self.touch_root();
        }
    }

    /// Takes and releases the latches that a removal at `spot` looks under.
    fn latch_searched(&mut self, Ghost(bytes): Ghost<Seq<u8>>, spot: &Spot<TaggedPtr>)
        requires
            old(self).wf(),
            old(self).trie.spot_ok(bytes, *spot),
        ensures
            final(self).wf(),
            final(self)@ == old(self)@,
            final(self).serial == old(self).serial,
            old(self).trie.relatched(&final(self).trie),
            final(self).trie.spot_ok(bytes, *spot),
            final(self).root_latch@ == word_after(
                old(self).root_latch@,
                old(self).trie.root_is_leaf(),
            ),
            trie::nodes_of(final(self).trie.slots@) == old(self).trie.nodes_searched(*spot),
    {
        let ghost before = *self;
        proof {
            self.trie.lemma_root_written(bytes, *spot);
        }
        let at_root = self.trie.touch_searched(Ghost(bytes), spot);
        proof {
            before.trie.lemma_relatched(&self.trie);
        }
        if at_root {
            self.touch_root();
        }
    }

    /// Takes the leaf of a key out, which stands at `spot`, and frees its slot.
    fn unlink(&mut self, Ghost(bytes): Ghost<Seq<u8>>, spot: Spot<TaggedPtr>, ptr: TaggedPtr) -> (leaf:
        Box<Leaf<K, V>>)
        requires
            old(self).wf(),
            old(self).trie.spot_ok(bytes, spot),
            old(self).leads_to(ptr, bytes),
        ensures
            final(self).wf(),
            final(self)@ == old(self)@.remove(bytes),
            entry_of(*leaf) == old(self)@[bytes],
            final(self).root_latch == old(self).root_latch,
            trie::nodes_of(final(self).trie.slots@) == trie::nodes_of(old(self).trie.slots@),
            old(self).pointers_kept(final(self)),
            old(self).leaves_stay(final(self)),
    {
        let ghost before = *self;
        proof {
            self.lemma_entries();
            self.trie.lemma_keys_bounded();
            assert(self@.contains_key(bytes));
            TaggedPtr::lemma_null(ptr);
            assert(self.trie.keys().dom().remove(bytes).len() == self.trie.keys().dom().len() - 1);
        }
        let slot: usize = ptr.slot_number();
        let leaf = self.trie.remove_at(Ghost(bytes), spot);
        proof {
            assert(before.trie.slots@[slot as int] is Leaf);
            assert forall|i: int| 0 <= i < self.free@.len() implies #[trigger] self.free@[i]
                != slot by {
                assert(before.trie.slots@[self.free@[i] as int] is Vacant);
            }
            assert(self.trie.keys().dom() =~= before.trie.keys().dom().remove(bytes));
        }
        self.len = self.len - 1;
        self.free.push(slot);
        proof {
            self.lemma_entries();
            assert(self@ =~= before@.remove(bytes));
        }
        leaf
    }

    /// Removes a key from the tree, returning the removed value if found.
    pub fn remove<Q>(&mut self, key: &Q, guard: &Guard) -> (r: Option<V>) where Q: AsBytes + ?Sized
        requires
            old(self).wf(),
        ensures
            final(self).wf(),
            final(self)@ == old(self)@.remove(key.key_bytes()),
            r == value_in(old(self)@, key.key_bytes()),
            r is Some <==> old(self)@.contains_key(key.key_bytes()),
            r matches Some(removed) ==> removed == old(self)@[key.key_bytes()].1,
            final(self).root_latch@ == word_after(
                old(self).root_latch@,
                old(self).trie.root_is_leaf(),
            ),
            old(self).trie.nodes_removed(&final(self).trie, key.key_bytes()),
            old(self).pointers_kept(final(self)),
            old(self).leaves_stay(final(self)),
    {
        let ghost original = *self;
        let ghost bytes = key.key_bytes();
        let spot = self.trie.locate(key.as_bytes());
        self.latch_searched(Ghost(bytes), &spot);
        proof {
            original.trie.lemma_relatched(&self.trie);
            original.lemma_same_leaves(self);
            self.lemma_entries();
            self.trie.lemma_spot(bytes, spot);
        }
        let present: Option<TaggedPtr> = match spot {
            Spot::Leaf { place: _, depth: _, leaf: there } => {
                if same_bytes(self.trie.leaf(there).key_slice(), key.as_bytes()) {
                    Some(there)
                } else {
                    None
                }
            },
            Spot::Exact { place: _, depth: _, node: _, leaf: there } => {
                if there.is_null() {
                    None
                } else {
                    Some(there)
                }
            },
            _ => None,
        };
        match present {
            Some(ptr) => {
                let leaf = self.unlink(Ghost(bytes), spot, ptr);
                let gone: Leaf<K, V> = *leaf;
                retire(guard, gone.key);
                Some(gone.value)
            },
            None => {
                assert(self@ =~= self@.remove(bytes));
                None
            },
        }
    }

    /// Takes the leaf of an entry out of the tree, verifying identity by pointer equality.
    ///
    /// Returns `None`, and leaves the tree alone, if the pointer does not lead to the leaf of an
    /// entry, as it does not once its entry was removed.
    pub(crate) fn detach(&mut self, leaf_ptr: LeafPtr) -> (r: Option<Box<Leaf<K, V>>>)
        requires
            old(self).wf(),
        ensures
            final(self).wf(),
            r is Some == old(self).points_to_entry(leaf_ptr),
            r matches Some(leaf) ==> {
                let bytes = old(self).key_behind(leaf_ptr.link);
                &&& final(self)@ == old(self)@.remove(bytes)
                &&& entry_of(*leaf) == old(self)@[bytes]
                &&& final(self).root_latch@ == word_after(
                    old(self).root_latch@,
                    old(self).trie.root_is_leaf(),
                )
                &&& old(self).trie.nodes_removed(&final(self).trie, bytes)
            },
            r is None ==> *final(self) == *old(self),
            old(self).pointers_kept(final(self)),
            old(self).leaves_stay(final(self)),
    {
        let link: TaggedPtr = leaf_ptr.link;
        if link.is_null() || !link.is_leaf() {
            proof {
                if self.leads_to_entry(link) {
                    assert(self.trie.outline().keyed(self.key_behind(link)));
                }
            }
            return None;
        }
        let slot: usize = link.slot_number();
        if slot >= self.trie.slots.len() {
            return None;
        }
        let spot = match &self.trie.slots[slot] {
            Slot::Leaf(leaf) => {
                if leaf.serial != leaf_ptr.serial {
                    return None;
                }
                self.trie.locate(leaf.key_slice())
            },
            _ => {
                return None;
            },
        };
        let ghost bytes = self.key_behind(link);
        proof {
            self.lemma_entries();
            self.trie.lemma_spot(bytes, spot);
        }
        let is_this = match spot {
            Spot::Leaf { place: _, depth: _, leaf: there } => there == link,
            Spot::Exact { place: _, depth: _, node: _, leaf: there } => there == link,
            _ => false,
        };
        if !is_this {
            return None;
        }
        let ghost before = *self;
        self.latch_searched(Ghost(bytes), &spot);
        proof {
            before.trie.lemma_relatched(&self.trie);
            before.lemma_same_leaves(self);
        }
        Some(self.unlink(Ghost(bytes), spot, link))
    }

    /// Removes a specific leaf from the tree, verifying identity by pointer equality.
    ///
    /// Returns `false`, and leaves the tree alone, if the pointer does not lead to the leaf of an
    /// entry, as it does not once its entry was removed.
    pub fn remove_leaf(&mut self, leaf_ptr: LeafPtr, guard: &Guard) -> (r: bool)
        requires
            old(self).wf(),
        ensures
            final(self).wf(),
            r == old(self).points_to_entry(leaf_ptr),
            r ==> {
                let bytes = old(self).key_behind(leaf_ptr.link);
                &&& final(self)@ == old(self)@.remove(bytes)
                &&& final(self).root_latch@ == word_after(
                    old(self).root_latch@,
                    old(self).trie.root_is_leaf(),
                )
                &&& old(self).trie.nodes_removed(&final(self).trie, bytes)
            },
            !r ==> *final(self) == *old(self),
            old(self).pointers_kept(final(self)),
            old(self).leaves_stay(final(self)),
    {
        match self.detach(leaf_ptr) {
            Some(leaf) => {
                retire(guard, leaf);
                true
            },
            None => false,
        }
    }

    /// Clears all entries from the tree.
    pub fn clear(&mut self)
        requires
            old(self).wf(),
        ensures
            final(self).wf(),
            final(self)@ == Map::<Seq<u8>, (K, V)>::empty(),
            final(self).trie.root.absent(),
            final(self).root_latch@ == word_after(old(self).root_latch@, true),
            trie::nodes_of(final(self).trie.slots@) == Map::<int, trie::NodeState>::empty(),
            old(self).pointers_kept(final(self)),
    {
        let mut trie: Trie<TaggedPtr, Leaf<K, V>> = Trie::new();
        if self.serial == u64::MAX {
            // Only a slot that was never used tells a leaf with this serial number from the others.
            let slot_count: usize = self.trie.slots.len();
            let ghost empty = trie;
            proof {
                empty.lemma_widened(&trie);
            }
            while trie.slots.len() < slot_count
                invariant
                    empty.wf(),
                    trie.wf(),
                    empty.widened(&trie),
                decreases slot_count - trie.slots@.len(),
            {
                let _ = trie.push_slot();
            }
            proof {
                empty.lemma_widened(&trie);
            }
        }
        std::mem::swap(&mut self.trie, &mut trie);
        self.free = Vec::new();
        self.len = 0;
        self.touch_root();
        if !trie.root.is_null() {
            let guard = pin();
            retire(&guard, trie.slots);
        }
        proof {
            assert(self.trie.keys().dom() =~= Set::<Seq<u8>>::empty());
            assert(self@ =~= Map::<Seq<u8>, (K, V)>::empty());
            assert(trie::nodes_of(self.trie.slots@) =~= Map::<int, trie::NodeState>::empty());
        }
    }

    /// The links form a tree, as they do in a tree that is in order.
    pub open spec fn linked(&self) -> bool {
        self.wf() || self.trie.linked()
    }

    /// Everything that the links lead to is sound, and the length equals the number of leaves
    /// that they lead to.
    pub open spec fn intact(&self) -> bool {
        &&& self.trie.sound_under(Seq::empty())
        &&& self.len == self.trie.bearers(Seq::empty()).len()
    }

    /// A tree is intact if and only if every place is sound and its length counts the leaves, and so
    /// the same tree with another length is not.
    pub proof fn lemma_intact(&self, other: &Self)
        ensures
            self.intact() ==> self.trie.sound_under(Seq::empty()) && self.len
                == self.trie.bearers(Seq::empty()).len(),
            self.trie.sound_under(Seq::empty()) && self.len == self.trie.bearers(
                Seq::empty(),
            ).len() ==> self.intact(),
            self.trie == other.trie && self.intact() && other.intact() ==> self.len == other.len,
    {
    }

    /// Checks the structural invariants across the entire tree: every leaf lies behind the bytes
    /// that lead to it, every layout and count is right, no live node is obsolete, and the length
    /// equals the number of reachable leaves. A tree that was built through its methods passes.
    pub fn validate_invariants(&self) -> (ok: bool)
        requires
            self.linked(),
        ensures
            ok == self.intact(),
            self.wf() ==> ok,
    {
        proof {
            if self.wf() {
                self.trie.lemma_linked();
            }
        }
        match self.trie.validate() {
            Some(count) => count == self.len,
            None => false,
        }
    }

    /// The pointer to the leaf next after `search_key`.
    pub fn find_successor(&self, search_key: &[u8], include_equal: bool) -> (r: Option<LeafPtr>)
        requires
            self.wf(),
        ensures
            r matches Some(ptr) ==> {
                &&& self.points_to_entry(ptr)
                &&& seek::is_after(self.key_behind(ptr.link), search_key@, include_equal)
                &&& forall|k: Seq<u8>| #[trigger]
                    self@.contains_key(k) && seek::is_after(k, search_key@, include_equal)
                        ==> crate::order::lex_le(self.key_behind(ptr.link), k)
            },
            r is None ==> forall|k: Seq<u8>| #[trigger]
                self@.contains_key(k) ==> !seek::is_after(k, search_key@, include_equal),
    {
        let found = self.trie.find_successor(search_key, include_equal);
        proof {
            let range = seek::under_after(Seq::empty(), search_key@, include_equal);
            assert forall|k: Seq<u8>| #[trigger]
                self@.contains_key(k) && seek::is_after(k, search_key@, include_equal) implies
                self.trie.keys().contains_key(k) && range.contains(k) by {
                assert(crate::order::extends(k, Seq::<u8>::empty()));
            }
        }
        match found {
            Some(link) => Some(self.pointer(link)),
            None => None,
        }
    }

    /// The pointer to the leaf next before `search_key`.
    pub fn find_predecessor(&self, search_key: &[u8], include_equal: bool) -> (r: Option<LeafPtr>)
        requires
            self.wf(),
        ensures
            r matches Some(ptr) ==> {
                &&& self.points_to_entry(ptr)
                &&& seek::is_before(self.key_behind(ptr.link), search_key@, include_equal)
                &&& forall|k: Seq<u8>| #[trigger]
                    self@.contains_key(k) && seek::is_before(k, search_key@, include_equal)
                        ==> crate::order::lex_le(k, self.key_behind(ptr.link))
            },
            r is None ==> forall|k: Seq<u8>| #[trigger]
                self@.contains_key(k) ==> !seek::is_before(k, search_key@, include_equal),
    {
        let found = self.trie.find_predecessor(search_key, include_equal);
        proof {
            let range = seek::under_before(Seq::empty(), search_key@, include_equal);
            assert forall|k: Seq<u8>| #[trigger]
                self@.contains_key(k) && seek::is_before(k, search_key@, include_equal) implies
                self.trie.keys().contains_key(k) && range.contains(k) by {
                assert(crate::order::extends(k, Seq::<u8>::empty()));
            }
        }
        match found {
            Some(link) => Some(self.pointer(link)),
            None => None,
        }
    }
}

} // verus!
