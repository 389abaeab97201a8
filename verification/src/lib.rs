//! # artmap: an adaptive radix tree map
//!
//! `artmap` provides an in-memory ordered associative map backed by an **Adaptive Radix Tree
//! (ART)**: a map from byte strings to values whose lookups take time in the length of the key.
//!
//! - [`ArtMap`] retires what it unlinks through epoch-based reclamation (`crossbeam-epoch`).
//! - [`ArenaArtMap`] places its nodes in a bump-allocated arena with 32-bit offsets, and keeps
//!   several versions of an entry.
//!
//! Inner nodes come in four layouts that grow with the number of children (`Node4`, `Node16`,
//! `Node48`, `Node256`), and collapse paths without branches into prefixes.

pub mod arena;
pub mod bitmap;
pub mod bound;
pub mod cursor;
pub mod entry;
pub mod epoch;
pub mod inner;
pub mod inspect;
pub mod iter;
pub mod key;
pub mod latch;
pub mod laws;
pub mod node;
pub mod order;
pub mod seek;
pub mod shape;
pub mod simd;
pub mod sorted;
pub mod tree;
pub mod trie;

use crossbeam_epoch::pin;
use std::borrow::Borrow;
use vstd::prelude::*;

pub use arena::{Arena, ArenaArtMap};
pub use bound::Bound;
pub use entry::{EntryMut, EntryRef};
pub use iter::{Iter, Keys, Range, Values};
pub use key::AsBytes;
pub use tree::Tree;

use crate::bound::owned_bound;

verus! {

/// An associative map backed by an adaptive radix tree.
pub struct ArtMap<K, V> {
    tree: Tree<K, V>,
}

impl<K: AsBytes, V> View for ArtMap<K, V> {
    type V = Map<Seq<u8>, (K, V)>;

    /// The entries by the bytes of their key.
    closed spec fn view(&self) -> Map<Seq<u8>, (K, V)> {
        self.tree@
    }
}

impl<K: AsBytes, V> Default for ArtMap<K, V> {
    fn default() -> (map: Self)
        ensures
            map.wf(),
            map@ == Map::<Seq<u8>, (K, V)>::empty(),
    {
        Self::new()
    }
}

impl<K: AsBytes, V> ArtMap<K, V> {
    /// The tree is in order.
    pub closed spec fn wf(&self) -> bool {
        self.tree.wf()
    }

    /// The entries are finitely many, and each is found under the bytes of its own key.
    pub proof fn lemma_entries(&self)
        requires
            self.wf(),
        ensures
            self@.dom().finite(),
            forall|key: Seq<u8>| #[trigger]
                self@.contains_key(key) ==> self@[key].0.key_bytes() == key,
    {
        self.tree.lemma_entries();
    }

    /// Creates a new, empty [`ArtMap`].
    pub fn new() -> (map: Self)
        ensures
            map.wf(),
            map@ == Map::<Seq<u8>, (K, V)>::empty(),
    {
        ArtMap { tree: Tree::new() }
    }

    /// Returns the number of entries in the map.
    pub fn len(&self) -> (n: usize)
        requires
            self.wf(),
        ensures
            n == self@.dom().len(),
    {
        self.tree.len()
    }

    /// Returns `true` if the map contains no entries.
    pub fn is_empty(&self) -> (r: bool)
        requires
            self.wf(),
        ensures
            r == (self@ == Map::<Seq<u8>, (K, V)>::empty()),
    {
        self.tree.is_empty()
    }
}

impl<K: AsBytes + Send + 'static, V: Send + 'static> ArtMap<K, V> {
    /// Returns an entry reference corresponding to the key, if present.
    pub fn get<Q>(&self, key: &Q) -> (r: Option<EntryRef<'_, K, V>>) where
        K: Borrow<Q>,
        Q: AsBytes + ?Sized,

        requires
            self.wf(),
        ensures
            r is Some <==> self@.contains_key(key.key_bytes()),
            r matches Some(entry) ==> {
                &&& entry.wf()
                &&& entry.entries() == self@
                &&& entry@ == self@[key.key_bytes()]
            },
    {
        self.get_by_slice(key.as_bytes())
    }

    /// Returns an entry reference corresponding to a raw byte slice key, if present.
    pub fn get_by_slice(&self, key: &[u8]) -> (r: Option<EntryRef<'_, K, V>>)
        requires
            self.wf(),
        ensures
            r is Some <==> self@.contains_key(key@),
            r matches Some(entry) ==> {
                &&& entry.wf()
                &&& entry.entries() == self@
                &&& entry@ == self@[key@]
            },
    {
        let guard = pin();
        match self.tree.get_leaf(key, &guard) {
            Some(leaf_ptr) => Some(EntryRef::new(&self.tree, leaf_ptr.link)),
            None => None,
        }
    }

    /// Returns a copy of the value corresponding to the key, if present.
    pub fn get_value<Q>(&self, key: &Q) -> (r: Option<V>) where
        K: Borrow<Q>,
        Q: AsBytes + ?Sized,
        V: Clone,

        requires
            self.wf(),
        ensures
            r is Some <==> self@.contains_key(key.key_bytes()),
            r matches Some(value) ==> cloned(self@[key.key_bytes()].1, value),
    {
        let guard = pin();
        match self.tree.get(key.as_bytes(), &guard) {
            Some(value) => Some(value.clone()),
            None => None,
        }
    }

    /// Accesses the value corresponding to the key via a closure without cloning.
    pub fn with_value<Q, R, F>(&self, key: &Q, f: F) -> (r: Option<R>) where
        K: Borrow<Q>,
        Q: AsBytes + ?Sized,
        F: FnOnce(&V) -> R,

        requires
            self.wf(),
            self@.contains_key(key.key_bytes()) ==> f.requires((&self@[key.key_bytes()].1,)),
        ensures
            r is Some <==> self@.contains_key(key.key_bytes()),
            r matches Some(result) ==> f.ensures((&self@[key.key_bytes()].1,), result),
    {
        let guard = pin();
        match self.tree.get(key.as_bytes(), &guard) {
            Some(value) => Some(f(value)),
            None => None,
        }
    }

    /// Returns `true` if the map contains an entry for the specified key.
    pub fn contains_key<Q>(&self, key: &Q) -> (r: bool) where K: Borrow<Q>, Q: AsBytes + ?Sized
        requires
            self.wf(),
        ensures
            r == self@.contains_key(key.key_bytes()),
    {
        self.contains_key_slice(key.as_bytes())
    }

    /// Returns `true` if the map contains an entry for the raw byte slice key.
    pub fn contains_key_slice(&self, key: &[u8]) -> (r: bool)
        requires
            self.wf(),
        ensures
            r == self@.contains_key(key@),
    {
        let guard = pin();
        self.tree.get(key, &guard).is_some()
    }

    /// Inserts a key-value pair into the map, returning the previous value if present. An entry
    /// that is there keeps its own key.
    pub fn insert(&mut self, key: K, value: V) -> (r: Option<V>)
        requires
            old(self).wf(),
        ensures
            final(self).wf(),
            final(self)@ == tree::with_entry(old(self)@, key, value),
            r == tree::value_in(old(self)@, key.key_bytes()),
            final(self)@.dom() == old(self)@.dom().insert(key.key_bytes()),
            final(self)@[key.key_bytes()].1 == value,
            final(self)@[key.key_bytes()].0 == (if old(self)@.contains_key(key.key_bytes()) {
                old(self)@[key.key_bytes()].0
            } else {
                key
            }),
            forall|other: Seq<u8>|
                other != key.key_bytes() && #[trigger] old(self)@.contains_key(other)
                    ==> final(self)@[other] == old(self)@[other],
            r is Some <==> old(self)@.contains_key(key.key_bytes()),
            r matches Some(replaced) ==> replaced == old(self)@[key.key_bytes()].1,
    {
        let guard = pin();
        self.tree.insert(key, value, &guard)
    }

    /// Inserts a key-value pair if the key is not present, returning an [`EntryMut`]. The closure
    /// is called only then.
    pub fn get_or_insert_with<F>(&mut self, key: K, f: F) -> (entry: EntryMut<'_, K, V>) where
        F: FnOnce() -> V,

        requires
            old(self).wf(),
            !old(self)@.contains_key(key.key_bytes()) ==> f.requires(()),
        ensures
            entry.wf(),
            entry.removed is None,
            entry.bytes() == key.key_bytes(),
            entry.entries().contains_key(key.key_bytes()),
            entry.entry() == entry.entries()[key.key_bytes()],
            old(self)@.contains_key(key.key_bytes()) ==> entry.entries() == old(self)@,
            !old(self)@.contains_key(key.key_bytes()) ==> {
                let value = entry.entry().1;
                &&& f.ensures((), value)
                &&& entry.entries() == old(self)@.insert(key.key_bytes(), (key, value))
            },
            final(self)@ == final(entry.tree)@,
            final(entry.tree).wf() ==> final(self).wf(),
    {
        let guard = pin();
        let leaf_ptr = self.tree.get_or_insert_with(key, f, &guard);
        proof {
            self.tree.lemma_entries();
        }
        EntryMut { leaf_ptr, tree: &mut self.tree, removed: None }
    }

    /// Returns an exclusive entry reference corresponding to the key, if present, through which
    /// the entry can be removed.
    pub fn get_mut<Q>(&mut self, key: &Q) -> (r: Option<EntryMut<'_, K, V>>) where
        K: Borrow<Q>,
        Q: AsBytes + ?Sized,

        requires
            old(self).wf(),
        ensures
            r is Some <==> old(self)@.contains_key(key.key_bytes()),
            r matches Some(entry) ==> {
                &&& entry.wf()
                &&& entry.removed is None
                &&& entry.bytes() == key.key_bytes()
                &&& entry.entries() == old(self)@
                &&& entry.entry() == old(self)@[key.key_bytes()]
                &&& final(self)@ == final(entry.tree)@
                &&& final(entry.tree).wf() ==> final(self).wf()
            },
            r is None ==> *final(self) == *old(self),
    {
        let guard = pin();
        proof {
            self.tree.lemma_entries();
        }
        match self.tree.get_leaf(key, &guard) {
            Some(leaf_ptr) => Some(EntryMut { leaf_ptr, tree: &mut self.tree, removed: None }),
            None => None,
        }
    }

    /// Removes an entry by key, returning the removed value if found.
    pub fn remove<Q>(&mut self, key: &Q) -> (r: Option<V>) where K: Borrow<Q>, Q: AsBytes + ?Sized
        requires
            old(self).wf(),
        ensures
            final(self).wf(),
            final(self)@ == old(self)@.remove(key.key_bytes()),
            r == tree::value_in(old(self)@, key.key_bytes()),
            r is Some <==> old(self)@.contains_key(key.key_bytes()),
            r matches Some(removed) ==> removed == old(self)@[key.key_bytes()].1,
    {
        self.remove_by_slice(key.as_bytes())
    }

    /// Removes an entry by raw byte slice key, returning the removed value if found.
    pub fn remove_by_slice(&mut self, key: &[u8]) -> (r: Option<V>)
        requires
            old(self).wf(),
        ensures
            final(self).wf(),
            final(self)@ == old(self)@.remove(key@),
            r == tree::value_in(old(self)@, key@),
            r is Some <==> old(self)@.contains_key(key@),
            r matches Some(removed) ==> removed == old(self)@[key@].1,
    {
        let guard = pin();
        self.tree.remove(key, &guard)
    }

    /// Returns an iterator over the entries between two bounds.
    pub fn range<Q>(&self, start: Bound<&Q>, end: Bound<&Q>) -> (range: Range<'_, K, V>) where
        Q: AsBytes + ?Sized,

        requires
            self.wf(),
        ensures
            range.wf(),
            range.entries() == self@,
            range.lo() == bound::bytes_of(start),
            range.hi() == bound::bytes_of(end),
            forall|k: Seq<u8>| #[trigger]
                range.remaining().contains(k) <==> {
                    &&& self@.contains_key(k)
                    &&& match start {
                        Bound::Included(q) => order::lex_le(q.key_bytes(), k),
                        Bound::Excluded(q) => order::lex_lt(q.key_bytes(), k),
                        Bound::Unbounded => true,
                    }
                    &&& match end {
                        Bound::Included(q) => order::lex_le(k, q.key_bytes()),
                        Bound::Excluded(q) => order::lex_lt(k, q.key_bytes()),
                        Bound::Unbounded => true,
                    }
                },
    {
        Range::new(&self.tree, owned_bound(start), owned_bound(end))
    }

    /// Returns an iterator visiting all key-value pairs in lexicographical key order.
    pub fn iter(&self) -> (iter: Iter<'_, K, V>)
        requires
            self.wf(),
        ensures
            iter.wf(),
            iter.entries() == self@,
            iter.remaining() == self@.dom(),
    {
        Iter::new(&self.tree)
    }

    /// Returns an iterator visiting all keys in lexicographical order.
    pub fn keys(&self) -> (keys: Keys<'_, K, V>)
        requires
            self.wf(),
        ensures
            keys.wf(),
            keys.entries() == self@,
            keys.remaining() == self@.dom(),
    {
        Keys::new(self.iter())
    }

    /// Returns an iterator visiting all values in lexicographical key order.
    pub fn values(&self) -> (values: Values<'_, K, V>)
        requires
            self.wf(),
        ensures
            values.wf(),
            values.entries() == self@,
            values.remaining() == self@.dom(),
    {
        Values::new(self.iter())
    }

    /// Removes all key-value pairs from the map.
    pub fn clear(&mut self)
        requires
            old(self).wf(),
        ensures
            final(self).wf(),
            final(self)@ == Map::<Seq<u8>, (K, V)>::empty(),
    {
        self.tree.clear()
    }

    /// The links of the tree form one, as they do in a map that is in order.
    pub open spec fn linked(&self) -> bool {
        self.wf() || self.links_form_tree()
    }

    /// The links of the tree form one.
    pub closed spec fn links_form_tree(&self) -> bool {
        self.tree.linked()
    }

    /// Everything that the links lead to is sound, and the length equals the number of leaves
    /// that they lead to.
    pub closed spec fn intact(&self) -> bool {
        self.tree.intact()
    }

    /// Checks all structural invariants of the tree. A map that was built through its methods
    /// passes.
    pub fn validate_invariants(&self) -> (ok: bool)
        requires
            self.linked(),
        ensures
            ok == self.intact(),
            self.wf() ==> ok,
    {
        self.tree.validate_invariants()
    }
}

} // verus!
