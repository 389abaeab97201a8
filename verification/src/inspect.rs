//! # Inspection
//!
//! Walks over a tree that change nothing: a check of its structure that counts the leaves, and
//! a record of the nodes that a lookup visits.

use crate::bound::copied;
use crate::inner;
use crate::inner::InnerNode;
use crate::latch;
use crate::node::{Link, NodeType, MAX_PREFIX_LEN};
use crate::order;
use crate::order::{longest_common_prefix, same_bytes};
use crate::shape;
use crate::shape::Cell;
use crate::sorted;
use crate::trie;
use crate::trie::{Keyed, Slot, Trie};
use vstd::prelude::*;

verus! {

/// What a lookup sees of an inner node.
pub struct NodeSummary<P> {
    /// The layout.
    pub node_type: NodeType,
    /// The compressed prefix.
    pub prefix: Vec<u8>,
    /// How many bytes of the prefix match the key.
    pub matched: usize,
    /// Whether the whole prefix matches.
    pub complete: bool,
    /// How many children the node has.
    pub num_children: u16,
    /// The leaf whose key ends right behind the prefix, or nothing.
    pub exact_leaf: P,
    /// The key of that leaf, if there is one.
    pub exact_key: Option<Vec<u8>>,
    /// The byte with which the key goes on, if the whole prefix matches and the key is longer.
    pub next_byte: Option<u8>,
    /// The child for that byte, if there is one.
    pub child: Option<P>,
    /// The bytes that have a child.
    pub child_bytes: Vec<u8>,
}

/// One node on the way of a lookup.
pub struct LookupStep<P> {
    /// How many bytes of the key lie before the node.
    pub depth: usize,
    /// The link to the node.
    pub link: P,
    /// The key of the leaf, if the node is one.
    pub leaf_key: Option<Vec<u8>>,
    /// What is seen of the inner node, if the node is one.
    pub node: Option<NodeSummary<P>>,
}

impl<P: Link, L: Keyed> Trie<P, L> {
    /// The tree has no more keys than slots.
    pub proof fn lemma_keys_bounded(&self)
        requires
            self.wf(),
        ensures
            self.keys().dom().finite(),
            self.keys().dom().len() <= self.slots@.len(),
    {
        let range = vstd::set_lib::set_int_range(0, self.slots@.len() as int);
        vstd::set_lib::lemma_int_range(0, self.slots@.len() as int);
        let f = |k: Seq<u8>| self.keys()[k].slot() as int;
        let image = self.keys().dom().map(f);
        assert forall|k: Seq<u8>| self.keys().dom().contains(k) implies range.contains(
            #[trigger] f(k),
        ) by {
            assert(self.outline().keyed(k));
        }
        assert forall|a: Seq<u8>, b: Seq<u8>|
            self.keys().dom().contains(a) && self.keys().dom().contains(b) && #[trigger] f(a)
                == #[trigger] f(b) implies a == b by {
            assert(self.outline().keyed(a));
            assert(self.outline().keyed(b));
        }
        self.keys().dom().lemma_map_finite(f);
        vstd::set_lib::lemma_map_size(self.keys().dom(), image, f);
        assert(image.subset_of(range));
        vstd::set_lib::lemma_len_subset(image, range);
    }

    /// The link to the node at `path` is good: it leads to a slot of its kind, and the children
    /// and the exact leaf of an inner node are where the links say. Nothing is said of what the
    /// slots hold beyond that.
    pub open spec fn good_link(&self, path: Seq<u8>) -> bool {
        let o = self.outline();
        let link = o.at[path];
        &&& !link.absent()
        &&& link.slot() < self.slots@.len()
        &&& path.len() <= o.height
        &&& match self.slots@[link.slot() as int] {
            Slot::Vacant => false,
            Slot::Leaf(_) => link.leaf(),
            Slot::Inner(inner) => {
                &&& !link.leaf()
                &&& !inner.exact().absent() ==> self.holds_leaf(inner.exact())
                &&& inner.layout_wf() ==> forall|byte: u8| #[trigger]
                    o.kid_ok(path, inner.prefix(), inner.kids(), byte)
            },
        }
    }

    /// The links form a tree. The keys of the leaves, the layouts of the nodes and their latches
    /// may be anything.
    pub open spec fn linked(&self) -> bool {
        let o = self.outline();
        &&& if self.root.absent() {
            o.at == Map::<Seq<u8>, P>::empty()
        } else {
            o.at.contains_key(Seq::empty()) && o.at[Seq::empty()] == self.root
        }
        &&& o.at.dom().finite()
        &&& forall|p: Seq<u8>| o.at.contains_key(p) ==> #[trigger] self.good_link(p)
        &&& forall|p: Seq<u8>, q: Seq<u8>|
            o.at.contains_key(p) && o.at.contains_key(q) ==> #[trigger] o.routes(p, q)
    }

    /// What stands at `path` is sound: a leaf whose key starts with the path, or a live inner
    /// node whose layout is in order and whose exact leaf has the key that the node spells.
    pub open spec fn sound_at(&self, path: Seq<u8>) -> bool {
        match self.slots@[self.outline().at[path].slot() as int] {
            Slot::Vacant => false,
            Slot::Leaf(leaf) => order::extends(leaf.own_key(), path),
            Slot::Inner(inner) => {
                &&& inner.layout_wf()
                &&& inner.head().prefix_len <= MAX_PREFIX_LEN
                &&& !latch::obsolete(inner.head().latch@)
                &&& !inner.exact().absent() ==> self.leaf_at(inner.exact()).own_key() == path
                    + inner.prefix()
            },
        }
    }

    /// Everything that stands under `path` is sound.
    pub open spec fn sound_under(&self, path: Seq<u8>) -> bool {
        forall|q: Seq<u8>| #[trigger]
            self.outline().at.contains_key(q) && order::extends(q, path) ==> self.sound_at(q)
    }

    /// A leaf stands at `path`, or an inner node with an exact leaf.
    pub open spec fn bears(&self, path: Seq<u8>) -> bool {
        &&& self.outline().at.contains_key(path)
        &&& match self.slots@[self.outline().at[path].slot() as int] {
            Slot::Vacant => false,
            Slot::Leaf(_) => true,
            Slot::Inner(inner) => !inner.exact().absent(),
        }
    }

    /// The link to the leaf at `path`, or to the exact leaf of the inner node there.
    pub open spec fn borne(&self, path: Seq<u8>) -> P {
        match self.slots@[self.outline().at[path].slot() as int] {
            Slot::Inner(inner) => inner.exact(),
            _ => self.outline().at[path],
        }
    }

    /// The paths under `path` at which a leaf is borne: one for each leaf that can be reached
    /// there.
    pub open spec fn bearers(&self, path: Seq<u8>) -> Set<Seq<u8>> {
        Set::new(|q: Seq<u8>| self.bears(q) && order::extends(q, path))
    }

    /// The paths at a node, and behind its children for the bytes before `end`, at which a leaf is
    /// borne.
    pub open spec fn bearers_before(&self, path: Seq<u8>, stem: Seq<u8>, end: int) -> Set<
        Seq<u8>,
    > {
        Set::new(
            |q: Seq<u8>|
                self.bears(q) && order::extends(q, path) && (q == path || (shape::beyond(q, stem)
                    && q[stem.len() as int] < end)),
        )
    }

    /// Two sound places that bear a leaf with the same key are the same place.
    proof fn lemma_bearer_unique(&self, p: Seq<u8>, q: Seq<u8>)
        requires
            self.linked(),
            self.bears(p),
            self.bears(q),
            self.sound_at(p),
            self.sound_at(q),
            self.leaf_at(self.borne(p)).own_key() == self.leaf_at(self.borne(q)).own_key(),
            p.len() <= q.len(),
        ensures
            p == q,
    {
        let o = self.outline();
        let key = self.leaf_at(self.borne(p)).own_key();
        assert(self.good_link(p));
        assert(self.good_link(q));
        if let Slot::Inner(inner) = self.slots@[o.at[p].slot() as int] {
            shape::lemma_child_path(p, inner.prefix(), 0);
        }
        if let Slot::Inner(inner) = self.slots@[o.at[q].slot() as int] {
            shape::lemma_child_path(q, inner.prefix(), 0);
        }
        order::lemma_extends_nested(key, p, q);
        if p.len() < q.len() {
            assert(o.routes(p, q));
        }
    }

    /// Sound places bear no more leaves than there are slots.
    proof fn lemma_bearers_bounded(&self, places: Set<Seq<u8>>)
        requires
            self.linked(),
            forall|q: Seq<u8>| #[trigger] places.contains(q) ==> self.bears(q) && self.sound_at(q),
        ensures
            places.finite(),
            places.len() <= self.slots@.len(),
    {
        let o = self.outline();
        vstd::set_lib::lemma_set_subset_finite(o.at.dom(), places);
        let range = vstd::set_lib::set_int_range(0, self.slots@.len() as int);
        vstd::set_lib::lemma_int_range(0, self.slots@.len() as int);
        let f = |q: Seq<u8>| self.borne(q).slot() as int;
        let image = places.map(f);
        assert forall|q: Seq<u8>| places.contains(q) implies range.contains(#[trigger] f(q)) by {
            assert(self.good_link(q));
        }
        assert forall|a: Seq<u8>, b: Seq<u8>|
            places.contains(a) && places.contains(b) && #[trigger] f(a) == #[trigger] f(
                b,
            ) implies a == b by {
            if a.len() <= b.len() {
                self.lemma_bearer_unique(a, b);
            } else {
                self.lemma_bearer_unique(b, a);
            }
        }
        places.lemma_map_finite(f);
        vstd::set_lib::lemma_map_size(places, image, f);
        assert(image.subset_of(range));
        vstd::set_lib::lemma_len_subset(image, range);
    }

    /// The place under `path` that bears the leaf of `key`.
    proof fn lemma_borne_somewhere(&self, path: Seq<u8>, key: Seq<u8>) -> (q: Seq<u8>)
        requires
            self.wf(),
            self.keys().contains_key(key),
            self.outline().at.contains_key(path),
            order::extends(key, path),
        ensures
            self.bears(q),
            self.borne(q) == self.keys()[key],
        decreases self.outline().height - path.len(),
    {
        let o = self.outline();
        assert(o.node_ok(path));
        assert(o.key_routes(path, key));
        assert(o.keyed(key));
        match self.slots@[o.at[path].slot() as int] {
            Slot::Inner(inner) => {
                let stem = path + inner.prefix();
                if key.len() == stem.len() {
                    path
                } else {
                    let child = shape::child_path(path, inner.prefix(), key[stem.len() as int]);
                    shape::lemma_through_child(key, path, inner.prefix());
                    shape::lemma_child_path(path, inner.prefix(), key[stem.len() as int]);
                    assert(o.node_ok(child));
                    self.lemma_borne_somewhere(child, key)
                }
            },
            _ => path,
        }
    }

    /// The leaf of a key stands behind a front of the key, or a node stands there whose exact leaf
    /// it is.
    pub proof fn lemma_key_stands(&self, key: Seq<u8>) -> (depth: int)
        requires
            self.wf(),
            self.keys().contains_key(key),
        ensures
            0 <= depth <= key.len(),
            self.outline().at.contains_key(key.take(depth)),
            match self.outline().node(key.take(depth)) {
                Cell::Vacant => false,
                Cell::Leaf { key: own } => own == key,
                Cell::Inner { prefix, exact, kids } => !exact.absent() && key.take(depth) + prefix
                    == key,
            },
    {
        let o = self.outline();
        let none = Seq::<u8>::empty();
        assert(order::extends(key, none));
        let q = self.lemma_borne_somewhere(none, key);
        assert(o.keyed(key));
        assert(o.node_ok(q));
        assert(o.node(q) == trie::cell_of(self.slots@[o.at[q].slot() as int]));
        if let Slot::Inner(inner) = self.slots@[o.at[q].slot() as int] {
            let stem = q + inner.prefix();
            assert(o.keyed(stem));
            assert(stem == key);
            assert(key.take(q.len() as int) =~= q);
        } else {
            order::lemma_extends_by_rest(key, q, none);
            assert(key.take(q.len() as int) =~= q);
        }
        q.len() as int
    }

    /// What the check of the structure looks at, at every place that the links lead to: the key of a
    /// leaf starts with the way to it, and an inner node has its layout in order, a prefix that fits
    /// in its header, no mark that it was replaced, and an exact leaf only with the key that the way
    /// and the prefix spell.
    pub proof fn lemma_sound(&self, path: Seq<u8>)
        requires
            self.outline().at.contains_key(path),
        ensures
            self.sound_under(Seq::empty()) ==> self.sound_at(path),
            self.sound_at(path) <==> match self.slots@[self.outline().at[path].slot() as int] {
                Slot::Vacant => false,
                Slot::Leaf(leaf) => leaf.own_key().len() >= path.len() && leaf.own_key().take(
                    path.len() as int,
                ) == path,
                Slot::Inner(inner) => {
                    &&& inner.layout_wf()
                    &&& inner.head().prefix_len <= 16
                    &&& (inner.head().latch@ / 2) % 2 == 0
                    &&& inner.head().exact_leaf.absent() || self.leaf_at(
                        inner.head().exact_leaf,
                    ).own_key() == path + inner.prefix()
                },
            },
    {
        assert(order::extends(path, Seq::<u8>::empty()));
        match self.slots@[self.outline().at[path].slot() as int] {
            Slot::Leaf(leaf) => {
                order::lemma_extends_by_rest(leaf.own_key(), path, Seq::empty());
            },
            Slot::Inner(inner) => {
                latch::lemma_word_bits(inner.head().latch@);
            },
            _ => {},
        }
    }

    /// A tree is sound if and only if every place that its links lead to is.
    pub proof fn lemma_sound_everywhere(&self)
        ensures
            self.sound_under(Seq::empty()) <==> forall|path: Seq<u8>| #[trigger]
                self.outline().at.contains_key(path) ==> self.sound_at(path),
    {
        assert forall|path: Seq<u8>| order::extends(path, Seq::<u8>::empty()) by {}
        if forall|path: Seq<u8>| #[trigger]
            self.outline().at.contains_key(path) ==> self.sound_at(path) {
            assert(self.sound_under(Seq::empty()));
        }
        if self.sound_under(Seq::empty()) {
            assert forall|path: Seq<u8>| #[trigger] self.outline().at.contains_key(path) implies
                self.sound_at(path) by {
                assert(order::extends(path, Seq::<u8>::empty()));
            }
        }
    }

    /// The check counts the leaves: the places under the root at which there is one, as a leaf of
    /// its own or as the exact leaf of an inner node.
    pub proof fn lemma_counted(&self, path: Seq<u8>)
        ensures
            self.bearers(Seq::empty()).contains(path) <==> {
                &&& self.outline().at.contains_key(path)
                &&& match self.slots@[self.outline().at[path].slot() as int] {
                    Slot::Vacant => false,
                    Slot::Leaf(_) => true,
                    Slot::Inner(inner) => !inner.head().exact_leaf.absent(),
                }
            },
    {
        assert(order::extends(path, Seq::<u8>::empty()));
    }

    /// The links of a tree in order form a tree, everything in it is sound, and it bears one leaf
    /// for each key.
    pub proof fn lemma_linked(&self)
        requires
            self.wf(),
        ensures
            self.linked(),
            self.sound_under(Seq::empty()),
            self.bearers(Seq::empty()).len() == self.keys().dom().len(),
    {
        let o = self.outline();
        assert forall|p: Seq<u8>| o.at.contains_key(p) implies #[trigger] self.good_link(p)
            && self.sound_at(p) by {
            assert(o.node_ok(p));
            assert(o.node(p) == trie::cell_of(self.slots@[o.at[p].slot() as int]));
            if let Slot::Inner(inner) = self.slots@[o.at[p].slot() as int] {
                if !inner.exact().absent() {
                    assert(o.keyed(p + inner.prefix()));
                }
                assert forall|byte: u8| #[trigger]
                    o.kid_ok(p, inner.prefix(), inner.kids(), byte) by {
                    shape::lemma_kid(o, p, inner.prefix(), inner.exact(), inner.kids(), byte);
                }
            }
        }
        let none = Seq::<u8>::empty();
        assert forall|q: Seq<u8>| #[trigger]
            o.at.contains_key(q) && order::extends(q, none) implies self.sound_at(q) by {
            assert(self.good_link(q));
        }
        let places = self.bearers(none);
        vstd::set_lib::lemma_set_subset_finite(o.at.dom(), places);
        let f = |q: Seq<u8>| self.leaf_at(self.borne(q)).own_key();
        let image = places.map(f);
        assert forall|a: Seq<u8>, b: Seq<u8>|
            places.contains(a) && places.contains(b) && #[trigger] f(a) == #[trigger] f(
                b,
            ) implies a == b by {
            assert(self.good_link(a) && self.good_link(b));
            if a.len() <= b.len() {
                self.lemma_bearer_unique(a, b);
            } else {
                self.lemma_bearer_unique(b, a);
            }
        }
        places.lemma_map_finite(f);
        vstd::set_lib::lemma_map_size(places, image, f);
        assert forall|k: Seq<u8>| #[trigger] image.contains(k) <==> self.keys().dom().contains(
            k,
        ) by {
            if image.contains(k) {
                let q = choose|q: Seq<u8>| places.contains(q) && k == f(q);
                assert(o.node_ok(q));
                assert(o.node(q) == trie::cell_of(self.slots@[o.at[q].slot() as int]));
                if let Slot::Inner(inner) = self.slots@[o.at[q].slot() as int] {
                    assert(o.keyed(q + inner.prefix()));
                }
            }
            if self.keys().contains_key(k) {
                assert(order::extends(k, none));
                let q = self.lemma_borne_somewhere(none, k);
                assert(o.keyed(k));
                assert(order::extends(q, none));
                assert(places.contains(q));
                assert(f(q) == k);
            }
        }
        assert(image =~= self.keys().dom());
    }

    /// Checks the structure of the subtree behind `current_prefix`, and counts its leaves.
    ///
    /// Returns `None` if and only if a check fails: a leaf whose key does not start with the
    /// accumulated prefix, a live node that is marked obsolete, an exact leaf with another key
    /// than its node spells, or a node whose keys, children and counts do not agree.
    pub fn validate_node_invariants(&self, link: P, current_prefix: &Vec<u8>) -> (r: Option<usize>)
        requires
            self.linked(),
            self.outline().at.contains_key(current_prefix@),
            self.outline().at[current_prefix@] == link,
        ensures
            r is Some <==> self.sound_under(current_prefix@),
            r matches Some(count) ==> count == self.bearers(current_prefix@).len(),
        decreases self.outline().height - current_prefix@.len(),
    {
        let ghost o = self.outline();
        let ghost path = current_prefix@;
        proof {
            assert(self.good_link(path));
            order::lemma_lex_extends(path, path);
        }
        let inner: &InnerNode<P> = match &self.slots[link.slot_number()] {
            Slot::Inner(inner) => inner,
            _ => {
                let key = self.leaf(link).key_slice();
                let common: usize = longest_common_prefix(key, current_prefix.as_slice());
                proof {
                    if order::extends(key@, path) {
                        order::lemma_common_len_unique(key@, path, path.len() as int);
                    }
                    assert forall|q: Seq<u8>| #[trigger]
                        o.at.contains_key(q) && order::extends(q, path) implies q == path by {
                        assert(o.routes(path, q));
                        assert(q =~= path);
                    }
                    assert(self.bearers(path) =~= Set::<Seq<u8>>::empty().insert(path));
                }
                if common < current_prefix.len() {
                    assert(!self.sound_at(path));
                    return None;
                }
                return Some(1);
            },
        };
        let ghost prefix = inner.prefix();
        let ghost stem = path + prefix;
        let ghost exact = inner.exact();
        let ghost kids = inner.kids();
        if inner.header().latch.is_obsolete() || inner.header().prefix_len as usize
            > MAX_PREFIX_LEN || !inner.check_layout() {
            assert(!self.sound_at(path));
            return None;
        }
        proof {
            shape::lemma_child_path(path, prefix, 0);
            assert(o.node(path) == trie::cell_of(self.slots@[link.slot() as int]));
        }
        let mut prefix_buf: Vec<u8> = copied(current_prefix.as_slice());
        let own_prefix = inner.header().prefix_slice();
        let mut i: usize = 0;
        let own_len: usize = own_prefix.len();
        while i < own_len
            invariant
                i <= own_len == own_prefix@.len(),
                prefix_buf@ == path + own_prefix@.take(i as int),
            decreases own_len - i,
        {
            prefix_buf.push(own_prefix[i]);
            i = i + 1;
            assert(prefix_buf@ =~= path + own_prefix@.take(i as int));
        }
        assert(prefix_buf@ =~= stem);
        let mut count: usize = 0;
        match inner.header().load_exact_leaf() {
            Some(leaf) => {
                if !same_bytes(self.leaf(leaf).key_slice(), prefix_buf.as_slice()) {
                    assert(!self.sound_at(path));
                    return None;
                }
                count = 1;
                assert(self.bearers_before(path, stem, 0) =~= Set::<Seq<u8>>::empty().insert(path));
            },
            None => {
                assert(self.bearers_before(path, stem, 0) =~= Set::<Seq<u8>>::empty());
            },
        }
        let slot_count: usize = self.slots.len();
        let mut from: usize = 0;
        loop
            invariant
                self.linked(),
                o == self.outline(),
                o.at.contains_key(path),
                o.at[path] == link,
                self.slots@[link.slot() as int] == Slot::<P, L>::Inner(*inner),
                o.node(path) == (Cell::Inner { prefix, exact, kids }),
                self.sound_at(path),
                prefix == inner.prefix(),
                stem == path + prefix,
                prefix_buf@ == stem,
                order::extends(stem, path),
                inner.layout_wf(),
                inner.kids() == kids,
                from <= 256,
                count == self.bearers_before(path, stem, from as int).len(),
                forall|q: Seq<u8>| #[trigger]
                    o.at.contains_key(q) && shape::beyond(q, stem) && q[stem.len() as int] < from
                        ==> self.sound_at(q),
                path == current_prefix@,
                path.len() <= o.height,
                slot_count == self.slots@.len(),
            ensures
                sorted::no_next_child(kids, from as int),
            decreases 256 - from,
        {
            match inner.next_child_in_node(from) {
                None => {
                    break;
                },
                Some((byte, child)) => {
                    let ghost below = shape::child_path(path, prefix, byte);
                    proof {
                        assert(self.good_link(path));
                        assert(o.kid_ok(path, prefix, kids, byte));
                        assert(self.good_link(below));
                        shape::lemma_child_path(path, prefix, byte);
                    }
                    let mut child_prefix: Vec<u8> = copied(prefix_buf.as_slice());
                    child_prefix.push(byte);
                    assert(child_prefix@ == below);
                    match self.validate_node_invariants(child, &child_prefix) {
                        None => {
                            proof {
                                let q = choose|q: Seq<u8>| #[trigger]
                                    o.at.contains_key(q) && order::extends(q, below)
                                        && !self.sound_at(q);
                                order::lemma_extends_transitive(q, below, path);
                            }
                            return None;
                        },
                        Some(part) => {
                            proof {
                                let was = self.bearers_before(path, stem, from as int);
                                let more = self.bearers(below);
                                let now = self.bearers_before(path, stem, byte as int + 1);
                                assert forall|q: Seq<u8>| #[trigger]
                                    o.at.contains_key(q) && shape::beyond(q, stem)
                                        && q[stem.len() as int] < byte + 1 implies self.sound_at(
                                    q,
                                ) by {
                                    let c = q[stem.len() as int];
                                    self.lemma_child_known(path, *inner, q);
                                    if c == byte {
                                        shape::lemma_through_child(q, path, prefix);
                                    }
                                }
                                assert forall|q: Seq<u8>| #[trigger]
                                    now.contains(q) <==> (was.contains(q) || more.contains(q)) by {
                                    if now.contains(q) && q != path {
                                        let c = q[stem.len() as int];
                                        self.lemma_child_known(path, *inner, q);
                                        if c == byte {
                                            shape::lemma_through_child(q, path, prefix);
                                        }
                                    }
                                    if more.contains(q) {
                                        shape::lemma_below_child(q, path, prefix, byte);
                                    }
                                }
                                assert(now =~= was + more);
                                assert(was.disjoint(more)) by {
                                    assert forall|q: Seq<u8>|
                                        !(was.contains(q) && more.contains(q)) by {
                                        if more.contains(q) {
                                            shape::lemma_below_child(q, path, prefix, byte);
                                        }
                                    }
                                }
                                self.lemma_bearers_bounded(now);
                                vstd::set_lib::lemma_set_subset_finite(now, was);
                                vstd::set_lib::lemma_set_subset_finite(now, more);
                                vstd::set_lib::lemma_set_disjoint_lens(was, more);
                            }
                            count = count + part;
                            from = byte as usize + 1;
                        },
                    }
                },
            }
        }
        proof {
            assert forall|q: Seq<u8>| #[trigger]
                o.at.contains_key(q) && order::extends(q, path) implies self.sound_at(q) && (q
                == path || (shape::beyond(q, stem) && q[stem.len() as int] < from)) by {
                if q.len() == path.len() {
                    assert(q =~= path);
                } else {
                    assert(o.routes(path, q));
                    self.lemma_child_known(path, *inner, q);
                }
            }
            assert(self.bearers_before(path, stem, from as int) =~= self.bearers(path));
        }
        Some(count)
    }

    /// A node behind the prefix of another is behind one of its children.
    proof fn lemma_child_known(&self, path: Seq<u8>, inner: InnerNode<P>, q: Seq<u8>)
        requires
            self.linked(),
            self.outline().at.contains_key(path),
            self.slots@[self.outline().at[path].slot() as int] == Slot::<P, L>::Inner(inner),
            inner.layout_wf(),
            self.outline().at.contains_key(q),
            shape::beyond(q, path + inner.prefix()),
        ensures
            inner.kids().contains_key(q[(path + inner.prefix()).len() as int]),
    {
        let o = self.outline();
        let stem = path + inner.prefix();
        assert(self.good_link(path));
        shape::lemma_through_child(q, path, inner.prefix());
        assert(o.routes(path, q));
        assert(o.node(path) == trie::cell_of(self.slots@[o.at[path].slot() as int]));
        assert(o.kid_ok(path, inner.prefix(), inner.kids(), q[stem.len() as int]));
    }

    /// Checks the structure of the whole tree, and counts its leaves.
    pub fn validate(&self) -> (r: Option<usize>)
        requires
            self.linked(),
        ensures
            r is Some <==> self.sound_under(Seq::empty()),
            r matches Some(count) ==> count == self.bearers(Seq::empty()).len(),
    {
        if self.root.is_nil() {
            assert(self.bearers(Seq::empty()) =~= Set::<Seq<u8>>::empty());
            return Some(0);
        }
        let empty: Vec<u8> = Vec::new();
        assert(empty@ =~= Seq::<u8>::empty());
        self.validate_node_invariants(self.root, &empty)
    }

    /// The step says what the node at its depth looks like to a lookup of `key`.
    pub open spec fn step_ok(&self, key: Seq<u8>, step: LookupStep<P>) -> bool {
        let o = self.outline();
        let path = key.take(step.depth as int);
        &&& step.depth <= key.len()
        &&& o.at.contains_key(path)
        &&& o.at[path] == step.link
        &&& match o.node(path) {
            Cell::Vacant => false,
            Cell::Leaf { key: own } => {
                &&& step.leaf_key matches Some(bytes) && bytes@ == own
                &&& step.node is None
            },
            Cell::Inner { prefix, exact, kids } => {
                &&& step.leaf_key is None
                &&& step.node matches Some(seen) && {
                    &&& seen.prefix@ == prefix
                    &&& seen.matched == order::common_len(prefix, key.skip(step.depth as int))
                    &&& seen.complete == (seen.matched == prefix.len())
                    &&& seen.num_children == kids.dom().len()
                    &&& seen.exact_leaf == exact
                    &&& seen.exact_key is Some <==> !exact.absent()
                    &&& seen.exact_key matches Some(bytes) ==> bytes@ == self.leaf_at(
                        exact,
                    ).own_key()
                    &&& seen.next_byte == (if seen.complete && key.len() > step.depth
                        + prefix.len() {
                        Some(key[step.depth + prefix.len()])
                    } else {
                        None
                    })
                    &&& seen.child == (match seen.next_byte {
                        Some(byte) => kids.get(byte),
                        None => None,
                    })
                    &&& inner::lists(seen.child_bytes@, kids)
                    &&& self.slots@[step.link.slot() as int] matches trie::Slot::Inner(inner)
                        && inner.head().node_type == seen.node_type
                }
            },
        }
    }

    /// The nodes that a lookup of `key` visits: all that stand at a prefix of the key, from the
    /// shortest on.
    pub fn lookup_steps(&self, key: &[u8]) -> (steps: Vec<LookupStep<P>>)
        requires
            self.wf(),
        ensures
            forall|i: int| 0 <= i < steps@.len() ==> self.step_ok(key@, #[trigger] steps@[i]),
            forall|i: int, j: int|
                0 <= i < j < steps@.len() ==> (#[trigger] steps@[i]).depth < (
                #[trigger] steps@[j]).depth,
            forall|d: int|
                0 <= d <= key@.len() && #[trigger] self.outline().at.contains_key(key@.take(d))
                    ==> exists|i: int| 0 <= i < steps@.len() && (#[trigger] steps@[i]).depth == d,
    {
        let ghost o = self.outline();
        let mut steps: Vec<LookupStep<P>> = Vec::new();
        let key_len: usize = key.len();
        if self.root.is_nil() {
            return steps;
        }
        let mut current: P = self.root;
        let mut depth: usize = 0;
        proof {
            assert(key@.take(0) =~= Seq::<u8>::empty());
        }
        loop
            invariant
                self.wf(),
                o == self.outline(),
                depth <= key@.len() == key_len,
                o.at.contains_key(key@.take(depth as int)),
                o.at[key@.take(depth as int)] == current,
                forall|i: int| 0 <= i < steps@.len() ==> self.step_ok(key@, #[trigger] steps@[i]),
                forall|i: int| 0 <= i < steps@.len() ==> (#[trigger] steps@[i]).depth < depth,
                forall|i: int, j: int|
                    0 <= i < j < steps@.len() ==> (#[trigger] steps@[i]).depth < (
                    #[trigger] steps@[j]).depth,
                forall|d: int|
                    0 <= d < depth && #[trigger] o.at.contains_key(key@.take(d)) ==> exists|i: int|
                        0 <= i < steps@.len() && (#[trigger] steps@[i]).depth == d,
            decreases key@.len() - depth,
        {
            let ghost q = key@.take(depth as int);
            let ghost before = steps@;
            proof {
                assert(o.node_ok(q));
            }
            if current.has_leaf_tag() {
                let leaf_key = copied(self.leaf(current).key_slice());
                steps.push(
                    LookupStep { depth, link: current, leaf_key: Some(leaf_key), node: None },
                );
                proof {
                    lemma_steps_complete(*self, key@, before, steps@, depth as int);
                }
                return steps;
            }
            let inner = self.inner(current);
            let ghost prefix = inner.prefix();
            proof {
                inner.lemma_facts();
                assert(o.node(q) == trie::cell_of(self.slots@[current.slot() as int]));
            }
            let (matched, complete) = inner.header().match_prefix(key, depth);
            proof {
                order::lemma_common_len(prefix, key@.skip(depth as int));
                order::lemma_common_len_unique(prefix, key@.skip(depth as int), matched as int);
            }
            let next_byte: Option<u8> = if complete && depth + matched < key_len {
                Some(key[depth + matched])
            } else {
                None
            };
            let child: Option<P> = match next_byte {
                Some(byte) => inner.find_child(byte),
                None => None,
            };
            let exact_key: Option<Vec<u8>> = match inner.header().load_exact_leaf() {
                Some(leaf) => {
                    proof {
                        assert(o.keyed(q + prefix));
                    }
                    Some(copied(self.leaf(leaf).key_slice()))
                },
                None => None,
            };
            let seen = NodeSummary {
                node_type: inner.header().node_type,
                prefix: copied(inner.header().prefix_slice()),
                matched,
                complete,
                num_children: inner.header().num_children(),
                exact_leaf: inner.header().exact_leaf,
                exact_key,
                next_byte,
                child,
                child_bytes: inner.child_bytes(),
            };
            steps.push(LookupStep { depth, link: current, leaf_key: None, node: Some(seen) });
            if !complete {
                proof {
                    assert(!order::extends(key@, q + prefix)) by {
                        if order::extends(key@, q + prefix) {
                            assert((q + prefix)[depth + matched] == key@[depth + matched]);
                            assert(prefix[matched as int] == key@.skip(depth as int)[matched as int]);
                        }
                    }
                    assert forall|d: int| depth < d <= key@.len() implies !#[trigger] o.at.contains_key(
                        key@.take(d),
                    ) by {
                        if o.at.contains_key(key@.take(d)) {
                            assert(shape::beyond(key@.take(d), q));
                            assert(o.routes(q, key@.take(d)));
                            order::lemma_extends_transitive(key@, key@.take(d), q + prefix);
                        }
                    }
                    lemma_steps_complete(*self, key@, before, steps@, depth as int);
                }
                return steps;
            }
            let stem: usize = depth + matched;
            proof {
                // No node stands within the prefix.
                assert forall|d: int| depth < d <= key@.len() && #[trigger] o.at.contains_key(
                    key@.take(d),
                ) implies d > stem && o.at.contains_key(
                    shape::child_path(q, prefix, key@[stem as int]),
                ) by {
                    assert(shape::beyond(key@.take(d), q));
                    assert(o.routes(q, key@.take(d)));
                }
            }
            if stem == key_len {
                proof {
                    lemma_steps_complete(*self, key@, before, steps@, depth as int);
                }
                return steps;
            }
            let byte: u8 = key[stem];
            proof {
                shape::lemma_kid(o, q, prefix, inner.exact(), inner.kids(), byte);
                assert(q + prefix =~= key@.take(stem as int)) by {
                    assert forall|i: int| 0 <= i < stem implies (q + prefix)[i] == key@.take(
                        stem as int,
                    )[i] by {
                        if i >= depth {
                            assert(prefix[i - depth] == key@.skip(depth as int)[i - depth]);
                        }
                    }
                }
                assert(key@.take(stem + 1) =~= shape::child_path(q, prefix, byte));
            }
            match inner.find_child(byte) {
                None => {
                    proof {
                        lemma_steps_complete(*self, key@, before, steps@, depth as int);
                    }
                    return steps;
                },
                Some(child) => {
                    proof {
                        assert forall|d: int|
                            0 <= d < stem + 1 && #[trigger] o.at.contains_key(
                                key@.take(d),
                            ) implies exists|i: int|
                            0 <= i < steps@.len() && (#[trigger] steps@[i]).depth == d by {
                            if d < depth {
                                let i = choose|i: int|
                                    0 <= i < before.len() && (#[trigger] before[i]).depth == d;
                                assert(steps@[i].depth == d);
                            } else if d == depth {
                                assert(steps@[before.len() as int].depth == d);
                            }
                        }
                    }
                    current = child;
                    depth = stem + 1;
                },
            }
        }
    }
}

/// One more step at `depth` completes the record, where no node stands further down.
proof fn lemma_steps_complete<P: Link, L: Keyed>(
    t: Trie<P, L>,
    key: Seq<u8>,
    before: Seq<LookupStep<P>>,
    after: Seq<LookupStep<P>>,
    depth: int,
)
    requires
        t.wf(),
        after.len() == before.len() + 1,
        forall|i: int| 0 <= i < before.len() ==> #[trigger] after[i] == before[i],
        after[before.len() as int].depth == depth,
        0 <= depth <= key.len(),
        t.outline().at.contains_key(key.take(depth)),
        forall|d: int|
            0 <= d < depth && #[trigger] t.outline().at.contains_key(key.take(d)) ==> exists|i: int|
                0 <= i < before.len() && (#[trigger] before[i]).depth == d,
        t.outline().node(key.take(depth)) is Leaf || forall|d: int|
            depth < d <= key.len() ==> !#[trigger] t.outline().at.contains_key(key.take(d)),
    ensures
        forall|d: int|
            0 <= d <= key.len() && #[trigger] t.outline().at.contains_key(key.take(d)) ==> exists|
                i: int,
            |
                0 <= i < after.len() && (#[trigger] after[i]).depth == d,
{
    let o = t.outline();
    assert forall|d: int| 0 <= d <= key.len() && #[trigger] o.at.contains_key(key.take(d)) implies exists|
        i: int,
    |
        0 <= i < after.len() && (#[trigger] after[i]).depth == d by {
        if d < depth {
            let i = choose|i: int| 0 <= i < before.len() && (#[trigger] before[i]).depth == d;
            assert(after[i].depth == d);
        } else if d == depth {
            assert(after[before.len() as int].depth == d);
        } else {
            assert(shape::beyond(key.take(d), key.take(depth)));
            assert(o.routes(key.take(depth), key.take(d)));
        }
    }
}

} // verus!
