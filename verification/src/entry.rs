//! # Entry reference
//!
//! Provides [`EntryRef`], a reference to an entry of a map, and [`EntryMut`], a reference
//! through which the entry can be removed.

use crate::key::AsBytes;
use crate::node::{Leaf, TaggedPtr};
use crate::tree;
use crate::tree::{LeafPtr, Tree};
use crate::trie::Keyed;
use vstd::prelude::*;
use vstd::std_specs::cmp::PartialEqSpec;

verus! {

/// A reference to an entry in an [`ArtMap`](crate::ArtMap).
pub struct EntryRef<'a, K: AsBytes + Send + 'static, V: Send + 'static> {
    pub(crate) leaf: &'a Leaf<K, V>,
    pub(crate) leaf_ptr: TaggedPtr,
    pub(crate) tree: &'a Tree<K, V>,
}

impl<'a, K: AsBytes + Send + 'static, V: Send + 'static> View for EntryRef<'a, K, V> {
    type V = (K, V);

    /// The key and the value.
    closed spec fn view(&self) -> (K, V) {
        (self.leaf.key, self.leaf.value)
    }
}

impl<'a, K: AsBytes + Send + 'static, V: Send + 'static> Clone for EntryRef<'a, K, V> {
    fn clone(&self) -> (r: Self)
        ensures
            r == *self,
    {
        EntryRef { leaf: self.leaf, leaf_ptr: self.leaf_ptr, tree: self.tree }
    }
}

impl<'a, K: AsBytes + Send + 'static, V: Send + 'static> EntryRef<'a, K, V> {
    /// The reference is to the leaf of an entry of its tree.
    pub closed spec fn wf(&self) -> bool {
        &&& self.tree.wf()
        &&& self.tree.leads_to_entry(self.leaf_ptr)
        &&& *self.leaf == self.tree.trie.leaf_at(self.leaf_ptr)
    }

    /// The entries of the tree that the reference is to.
    pub closed spec fn entries(&self) -> Map<Seq<u8>, (K, V)> {
        self.tree@
    }

    /// A reference to the entry to whose leaf `leaf_ptr` leads.
    pub(crate) fn new(tree: &'a Tree<K, V>, leaf_ptr: TaggedPtr) -> (entry: Self)
        requires
            tree.wf(),
            tree.leads_to_entry(leaf_ptr),
        ensures
            entry.wf(),
            entry.entries() == tree@,
            tree@.contains_key(tree.key_behind(leaf_ptr)),
            entry@ == tree@[tree.key_behind(leaf_ptr)],
            entry@.0.key_bytes() == tree.key_behind(leaf_ptr),
    {
        proof {
            tree.lemma_entries();
        }
        EntryRef { leaf: tree.trie.leaf(leaf_ptr), leaf_ptr, tree }
    }

    /// An entry is one of its tree's.
    pub proof fn lemma_in_entries(&self)
        requires
            self.wf(),
        ensures
            self.entries().contains_key(self@.0.key_bytes()),
            self.entries()[self@.0.key_bytes()] == self@,
    {
        self.tree.lemma_entries();
    }

    /// Returns a reference to the entry's key.
    pub fn key(&self) -> (key: &'a K)
        ensures
            *key == self@.0,
    {
        &self.leaf.key
    }

    /// Returns a reference to the entry's value.
    pub fn value(&self) -> (value: &'a V)
        ensures
            *value == self@.1,
    {
        &self.leaf.value
    }

    /// Checks if this entry has been removed from the map. While a map is shared nothing can be
    /// removed from it.
    pub fn is_removed(&self) -> (r: bool)
        requires
            self.wf(),
        ensures
            r == !self.entries().contains_key(self@.0.key_bytes()),
    {
        let there = self.tree.trie.get_leaf(self.leaf.key_slice());
        proof {
            self.tree.lemma_entries();
        }
        there.is_none()
    }
}

impl<'a, K: AsBytes + Send + 'static + PartialEq, V: Send + 'static + PartialEq> PartialEq for EntryRef<'a, K, V> {
    fn eq(&self, other: &Self) -> (r: bool) {
        self.leaf.key == other.leaf.key && self.leaf.value == other.leaf.value
    }
}

impl<'a, K: AsBytes + Send + 'static + PartialEq, V: Send + 'static + PartialEq> vstd::std_specs::cmp::PartialEqSpecImpl for EntryRef<'a, K, V> {
    open spec fn obeys_eq_spec() -> bool {
        <K as PartialEqSpec>::obeys_eq_spec() && <V as PartialEqSpec>::obeys_eq_spec()
    }

    open spec fn eq_spec(&self, other: &Self) -> bool {
        self@.0.eq_spec(&other@.0) && self@.1.eq_spec(&other@.1)
    }
}

impl<'a, K: AsBytes + Send + 'static + PartialEq, V: Send + 'static + PartialEq> EntryRef<'a, K, V> {
    /// Two entries are equal if and only if their keys and their values are.
    pub proof fn lemma_equal_entries(&self, other: &Self)
        ensures
            self.eq_spec(other) <==> self@.0.eq_spec(&other@.0) && self@.1.eq_spec(&other@.1),
    {
    }
}

impl<'a, K: AsBytes + Send + 'static + Eq, V: Send + 'static + Eq> Eq for EntryRef<'a, K, V> {

}

impl<'a, K: AsBytes + Send + 'static, V: Send + 'static> std::ops::Deref for EntryRef<'a, K, V> {
    type Target = V;

    fn deref(&self) -> (value: &V)
        ensures
            *value == self@.1,
    {
        self.value()
    }
}

/// An exclusive reference to an entry in an [`ArtMap`](crate::ArtMap), through which the entry
/// can be removed. An entry that was removed can still be read through it.
pub struct EntryMut<'a, K: AsBytes + Send + 'static, V: Send + 'static> {
    /// The pointer to the leaf of the entry.
    pub leaf_ptr: LeafPtr,
    /// The tree that holds the entry.
    pub tree: &'a mut Tree<K, V>,
    /// The leaf of the entry, if it was removed through this reference.
    pub removed: Option<Box<Leaf<K, V>>>,
}

impl<'a, K: AsBytes + Send + 'static, V: Send + 'static> EntryMut<'a, K, V> {
    /// The reference is to the leaf of an entry, unless that was removed.
    pub open spec fn wf(&self) -> bool {
        &&& self.tree.wf()
        &&& self.removed is None ==> self.tree.points_to_entry(self.leaf_ptr)
    }

    /// The entries of the tree as they are now.
    pub open spec fn entries(&self) -> Map<Seq<u8>, (K, V)> {
        self.tree@
    }

    /// The key and the value.
    pub open spec fn entry(&self) -> (K, V) {
        match self.removed {
            Some(leaf) => tree::entry_of(*leaf),
            None => self.tree@[self.tree.key_behind(self.leaf_ptr.link)],
        }
    }

    /// The bytes of the entry's key.
    pub open spec fn bytes(&self) -> Seq<u8> {
        self.entry().0.key_bytes()
    }

    /// What an entry is does not depend on whether it was removed: before it is what its tree holds
    /// under its key, and afterwards what was taken out.
    pub proof fn lemma_entry(&self)
        requires
            self.wf(),
        ensures
            self.removed is None ==> old(self.tree)@.contains_key(self.entry().0.key_bytes())
                && old(self.tree)@[self.entry().0.key_bytes()] == self.entry(),
            self.removed matches Some(leaf) ==> self.entry().0 == leaf.key && self.entry().1
                == leaf.value,
            self.entries() == old(self.tree)@,
            self.bytes() == self.entry().0.key_bytes(),
    {
        self.tree.lemma_entries();
    }

    /// An entry that was not removed is one of its tree's.
    pub proof fn lemma_in_entries(&self)
        requires
            self.wf(),
            self.removed is None,
        ensures
            self.entries().contains_key(self.bytes()),
            self.entries()[self.bytes()] == self.entry(),
    {
        self.tree.lemma_entries();
    }

    /// Returns a reference to the entry's key.
    pub fn key(&self) -> (key: &K)
        requires
            self.wf(),
        ensures
            *key == self.entry().0,
    {
        match &self.removed {
            Some(leaf) => &leaf.key,
            None => &self.tree.leaf(self.leaf_ptr).key,
        }
    }

    /// Returns a reference to the entry's value.
    pub fn value(&self) -> (value: &V)
        requires
            self.wf(),
        ensures
            *value == self.entry().1,
    {
        match &self.removed {
            Some(leaf) => &leaf.value,
            None => &self.tree.leaf(self.leaf_ptr).value,
        }
    }

    /// Checks if this entry has been removed from the map.
    pub fn is_removed(&self) -> (r: bool)
        ensures
            r == self.removed is Some,
    {
        self.removed.is_some()
    }

    /// Removes this entry from the map. Returns `false` if it was removed before.
    pub fn remove(&mut self) -> (r: bool)
        requires
            old(self).wf(),
        ensures
            final(self).wf(),
            r == old(self).removed is None,
            final(self).removed is Some,
            final(self).entry() == old(self).entry(),
            r ==> final(self).entries() == old(self).entries().remove(old(self).bytes()),
            !r ==> final(self).entries() == old(self).entries(),
            *final(final(self).tree) == *final(old(self).tree),
    {
        if self.removed.is_some() {
            return false;
        }
        proof {
            self.tree.lemma_entries();
        }
        self.removed = self.tree.detach(self.leaf_ptr);
        true
    }
}

} // verus!
