//! # Range iterators in an arena
//!
//! Provides bidirectional range scanning for [`ArenaArtMap`](crate::arena::ArenaArtMap).

use crate::arena::node::{Leaf, TaggedOffset};
use crate::arena::tree;
use crate::arena::tree::{ArenaTree, Version};
use crate::bound;
use crate::bound::Bound;
use crate::cursor::Cursor;
use crate::iter;
use crate::key::AsBytes;
use crate::order;
use crate::trie::Keyed;
use vstd::prelude::*;
use vstd::std_specs::cmp::PartialEqSpec;

verus! {

/// A reference to the newest version of an entry in an
/// [`ArenaArtMap`](crate::arena::ArenaArtMap).
pub struct ArenaEntryRef<'a, K: AsBytes + Clone, V: Clone> {
    leaf: &'a Leaf<K, V>,
}

impl<'a, K: AsBytes + Clone, V: Clone> View for ArenaEntryRef<'a, K, V> {
    type V = Version<K, V>;

    /// The version.
    closed spec fn view(&self) -> Version<K, V> {
        tree::version_of(*self.leaf)
    }
}

impl<'a, K: AsBytes + Clone, V: Clone> Clone for ArenaEntryRef<'a, K, V> {
    fn clone(&self) -> (r: Self)
        ensures
            r == *self,
    {
        *self
    }
}

impl<'a, K: AsBytes + Clone, V: Clone> Copy for ArenaEntryRef<'a, K, V> {

}

impl<'a, K: AsBytes + Clone, V: Clone> ArenaEntryRef<'a, K, V> {
    /// A reference to the version in a leaf.
    pub(crate) fn new(leaf: &'a Leaf<K, V>) -> (entry: Self)
        ensures
            entry@ == tree::version_of(*leaf),
    {
        ArenaEntryRef { leaf }
    }

    /// Returns a reference to the entry's key.
    pub fn key(&self) -> (key: &'a K)
        ensures
            *key == self@.key,
    {
        &self.leaf.key
    }

    /// Returns a reference to the entry's value.
    pub fn value(&self) -> (value: &'a V)
        ensures
            *value == self@.value,
    {
        &self.leaf.value
    }

    /// Returns the entry's version number.
    pub fn version(&self) -> (version: u64)
        ensures
            version == self@.version,
    {
        self.leaf.version
    }

    /// Checks if this entry has been removed from the map.
    pub fn is_removed(&self) -> (r: bool)
        ensures
            r == self@.removed,
    {
        self.leaf.removed
    }
}

impl<'a, K: AsBytes + Clone + PartialEq, V: Clone + PartialEq> PartialEq for ArenaEntryRef<'a, K, V> {
    fn eq(&self, other: &Self) -> (r: bool) {
        self.leaf.key == other.leaf.key && self.leaf.value == other.leaf.value && self.leaf.version
            == other.leaf.version
    }
}

impl<'a, K: AsBytes + Clone + PartialEq, V: Clone + PartialEq> vstd::std_specs::cmp::PartialEqSpecImpl for ArenaEntryRef<'a, K, V> {
    open spec fn obeys_eq_spec() -> bool {
        <K as PartialEqSpec>::obeys_eq_spec() && <V as PartialEqSpec>::obeys_eq_spec()
    }

    open spec fn eq_spec(&self, other: &Self) -> bool {
        self@.key.eq_spec(&other@.key) && self@.value.eq_spec(&other@.value) && self@.version
            == other@.version
    }
}

impl<'a, K: AsBytes + Clone + PartialEq, V: Clone + PartialEq> ArenaEntryRef<'a, K, V> {
    /// Two entries are equal if and only if their keys, their values and their version numbers are.
    pub proof fn lemma_equal_entries(&self, other: &Self)
        ensures
            self.eq_spec(other) <==> self@.key.eq_spec(&other@.key) && self@.value.eq_spec(
                &other@.value,
            ) && self@.version == other@.version,
    {
    }
}

impl<'a, K: AsBytes + Clone + Eq, V: Clone + Eq> Eq for ArenaEntryRef<'a, K, V> {

}

impl<'a, K: AsBytes + Clone, V: Clone> std::ops::Deref for ArenaEntryRef<'a, K, V> {
    type Target = V;

    fn deref(&self) -> (value: &V)
        ensures
            *value == self@.value,
    {
        self.value()
    }
}

/// An iterator over a range of live entries in an
/// [`ArenaArtMap`](crate::arena::ArenaArtMap).
pub struct Range<'a, K: AsBytes + Clone, V: Clone> {
    tree: &'a ArenaTree<K, V>,
    cursor: Cursor<'a, TaggedOffset, Leaf<K, V>>,
}

impl<'a, K: AsBytes + Clone, V: Clone> Range<'a, K, V> {
    /// The cursor walks over the tree.
    pub closed spec fn wf(&self) -> bool {
        &&& self.tree.wf()
        &&& self.cursor.wf()
        &&& self.cursor.source() == self.tree.trie
    }

    /// The versions of the entries of the map.
    pub closed spec fn entries(&self) -> Map<Seq<u8>, Seq<Version<K, V>>> {
        self.tree@
    }

    /// The lower end of what is left.
    pub closed spec fn lo(&self) -> Bound<Seq<u8>> {
        self.cursor.lo()
    }

    /// The upper end of what is left.
    pub closed spec fn hi(&self) -> Bound<Seq<u8>> {
        self.cursor.hi()
    }

    /// The keys of the live entries that are left to visit.
    pub open spec fn remaining(&self) -> Set<Seq<u8>> {
        Set::new(
            |k: Seq<u8>|
                tree::live_keys(self.entries()).contains(k) && bound::in_range(
                    k,
                    self.lo(),
                    self.hi(),
                ),
        )
    }

    /// The keys that are left are finitely many, and each has a live version.
    pub proof fn lemma_remaining(&self)
        requires
            self.wf(),
        ensures
            self.remaining().finite(),
            forall|k: Seq<u8>| #[trigger]
                self.remaining().contains(k) ==> {
                    &&& self.entries().contains_key(k)
                    &&& self.entries()[k].len() > 0
                    &&& !self.entries()[k][0].removed
                    &&& self.entries()[k][0].key.key_bytes() == k
                },
    {
        self.tree.lemma_entries();
        vstd::set_lib::lemma_set_subset_finite(tree::live_keys(self.tree@), self.remaining());
    }

    /// An iterator over the live entries between two bounds.
    pub(crate) fn new(
        tree: &'a ArenaTree<K, V>,
        start_bound: Bound<Vec<u8>>,
        end_bound: Bound<Vec<u8>>,
    ) -> (range: Self)
        requires
            tree.wf(),
        ensures
            range.wf(),
            range.entries() == tree@,
            range.lo() == bound::viewed(start_bound),
            range.hi() == bound::viewed(end_bound),
    {
        Range { tree, cursor: Cursor::new(&tree.trie, start_bound, end_bound) }
    }

    /// What the cursor has left, and what of it is live.
    proof fn lemma_live_part(&self)
        requires
            self.wf(),
        ensures
            self.cursor.remaining().finite(),
            forall|k: Seq<u8>| #[trigger]
                self.remaining().contains(k) <==> self.cursor.remaining().contains(k)
                    && !self.tree.trie.leaf_at(self.tree.trie.keys()[k]).removed,
    {
        self.tree.lemma_entries();
        self.cursor.lemma_remaining_finite();
        assert forall|k: Seq<u8>| #[trigger] self.remaining().contains(k) <==> (
        self.cursor.remaining().contains(k) && !self.tree.trie.leaf_at(
            self.tree.trie.keys()[k],
        ).removed) by {
            assert(self.tree@.dom().contains(k) == self.tree.trie.keys().dom().contains(k));
            if self.tree@.contains_key(k) {
                assert(self.tree@[k][0] == tree::version_of(
                    self.tree.trie.leaf_at(self.tree.trie.keys()[k]),
                ));
            }
        }
    }

    /// The next live entry in ascending key order.
    pub fn next(&mut self) -> (r: Option<ArenaEntryRef<'a, K, V>>)
        requires
            old(self).wf(),
        ensures
            final(self).wf(),
            final(self).entries() == old(self).entries(),
            final(self).hi() == old(self).hi(),
            r matches Some(entry) ==> {
                let key = entry@.key.key_bytes();
                &&& iter::is_least(old(self).remaining(), key)
                &&& entry@ == old(self).entries()[key][0]
                &&& final(self).remaining() == old(self).remaining().remove(key)
            },
            r is None ==> {
                &&& old(self).remaining() == Set::<Seq<u8>>::empty()
                &&& final(self).remaining() == Set::<Seq<u8>>::empty()
            },
    {
        let ghost before = *self;
        loop
            invariant
                self.wf(),
                before.wf(),
                before == *old(self),
                self.tree == before.tree,
                self.hi() == before.hi(),
                self.remaining() == before.remaining(),
            decreases self.cursor.remaining().len(),
        {
            let ghost prev = *self;
            proof {
                self.lemma_live_part();
                self.tree.lemma_entries();
            }
            match self.cursor.next_leaf() {
                None => {
                    proof {
                        self.lemma_live_part();
                        assert(prev.remaining() =~= Set::<Seq<u8>>::empty());
                        assert(self.remaining() =~= Set::<Seq<u8>>::empty()) by {
                            assert(self.cursor.remaining() =~= prev.cursor.remaining());
                        }
                    }
                    return None;
                },
                Some(link) => {
                    let leaf = self.tree.trie.leaf(link);
                    let ghost key = leaf.own_key();
                    proof {
                        self.lemma_live_part();
                        assert(self.tree.trie.keys()[key] == link);
                        assert(self.tree@.dom().contains(key));
                        assert(self.tree@.contains_key(key));
                    }
                    if !leaf.removed {
                        proof {
                            assert(self.remaining() =~= prev.remaining().remove(key));
                            assert(prev.remaining().contains(key));
                            assert(iter::is_least(prev.remaining(), key)) by {
                                assert forall|k: Seq<u8>| #[trigger]
                                    prev.remaining().contains(k) implies order::lex_le(key, k) by {
                                    assert(prev.cursor.remaining().contains(k));
                                }
                            }
                        }
                        return Some(ArenaEntryRef::new(leaf));
                    }
                    proof {
                        assert(!prev.remaining().contains(key));
                        assert(self.remaining() =~= prev.remaining());
                    }
                },
            }
        }
    }

    /// The next live entry in descending key order.
    pub fn next_back(&mut self) -> (r: Option<ArenaEntryRef<'a, K, V>>)
        requires
            old(self).wf(),
        ensures
            final(self).wf(),
            final(self).entries() == old(self).entries(),
            final(self).lo() == old(self).lo(),
            r matches Some(entry) ==> {
                let key = entry@.key.key_bytes();
                &&& iter::is_greatest(old(self).remaining(), key)
                &&& entry@ == old(self).entries()[key][0]
                &&& final(self).remaining() == old(self).remaining().remove(key)
            },
            r is None ==> {
                &&& old(self).remaining() == Set::<Seq<u8>>::empty()
                &&& final(self).remaining() == Set::<Seq<u8>>::empty()
            },
    {
        let ghost before = *self;
        loop
            invariant
                self.wf(),
                before.wf(),
                before == *old(self),
                self.tree == before.tree,
                self.lo() == before.lo(),
                self.remaining() == before.remaining(),
            decreases self.cursor.remaining().len(),
        {
            let ghost prev = *self;
            proof {
                self.lemma_live_part();
                self.tree.lemma_entries();
            }
            match self.cursor.prev_leaf() {
                None => {
                    proof {
                        self.lemma_live_part();
                        assert(prev.remaining() =~= Set::<Seq<u8>>::empty());
                        assert(self.remaining() =~= Set::<Seq<u8>>::empty()) by {
                            assert(self.cursor.remaining() =~= prev.cursor.remaining());
                        }
                    }
                    return None;
                },
                Some(link) => {
                    let leaf = self.tree.trie.leaf(link);
                    let ghost key = leaf.own_key();
                    proof {
                        self.lemma_live_part();
                        assert(self.tree.trie.keys()[key] == link);
                        assert(self.tree@.dom().contains(key));
                        assert(self.tree@.contains_key(key));
                    }
                    if !leaf.removed {
                        proof {
                            assert(self.remaining() =~= prev.remaining().remove(key));
                            assert(prev.remaining().contains(key));
                            assert(iter::is_greatest(prev.remaining(), key)) by {
                                assert forall|k: Seq<u8>| #[trigger]
                                    prev.remaining().contains(k) implies order::lex_le(k, key) by {
                                    assert(prev.cursor.remaining().contains(k));
                                }
                            }
                        }
                        return Some(ArenaEntryRef::new(leaf));
                    }
                    proof {
                        assert(!prev.remaining().contains(key));
                        assert(self.remaining() =~= prev.remaining());
                    }
                },
            }
        }
    }
}

} // verus!
