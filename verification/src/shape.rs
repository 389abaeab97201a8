//! # Shape of a radix tree
//!
//! What the nodes of a radix tree look like from outside, and what makes them a tree: every
//! node stands at a path, the bytes that a search has consumed on its way to the node, and
//! every key routes from the root to the leaf that holds it. The lemmas say that each edit of
//! the tree keeps this in order.

use crate::node;
use crate::node::Link;
use crate::order;
use vstd::prelude::*;

verus! {

/// What a slot of the tree holds.
pub enum Cell<P> {
    /// Nothing.
    Vacant,
    /// A leaf with this key.
    Leaf { key: Seq<u8> },
    /// An inner node.
    Inner { prefix: Seq<u8>, exact: P, kids: Map<u8, P> },
}

/// The slots, the root, and the path of every node that is reachable from it.
pub struct Outline<P> {
    /// What each slot holds.
    pub heap: Seq<Cell<P>>,
    /// Where the tree starts.
    pub root: P,
    /// The nodes by their path.
    pub at: Map<Seq<u8>, P>,
    /// The leaves by their key.
    pub keys: Map<Seq<u8>, P>,
    /// A bound on the length of the paths.
    pub height: nat,
}

/// The path of the child for `byte` of a node at `path` with the given prefix.
pub open spec fn child_path(path: Seq<u8>, prefix: Seq<u8>, byte: u8) -> Seq<u8> {
    (path + prefix).push(byte)
}

/// `q` starts with `p` and is longer.
pub open spec fn beyond(q: Seq<u8>, p: Seq<u8>) -> bool {
    order::extends(q, p) && q.len() > p.len()
}

impl<P: Link> Outline<P> {
    /// What the slot holds to which `link` leads.
    pub open spec fn cell(self, link: P) -> Cell<P> {
        self.heap[link.slot() as int]
    }

    /// The node at `path`.
    pub open spec fn node(self, path: Seq<u8>) -> Cell<P> {
        self.cell(self.at[path])
    }

    /// The child for `byte` of the node at `path` is the node at the child's path, and it is
    /// there if and only if that path has a node.
    pub open spec fn kid_ok(
        self,
        path: Seq<u8>,
        prefix: Seq<u8>,
        kids: Map<u8, P>,
        byte: u8,
    ) -> bool {
        let child = child_path(path, prefix, byte);
        &&& kids.contains_key(byte) <==> self.at.contains_key(child)
        &&& kids.contains_key(byte) ==> kids[byte] == self.at[child]
    }

    /// The node at `path` fits its path.
    pub open spec fn node_ok(self, path: Seq<u8>) -> bool {
        let link = self.at[path];
        &&& !link.absent()
        &&& link.slot() < self.heap.len()
        &&& path.len() <= self.height
        &&& match self.cell(link) {
            Cell::Vacant => false,
            Cell::Leaf { key } => {
                &&& link.leaf()
                &&& order::extends(key, path)
                &&& self.keys.contains_key(key)
                &&& self.keys[key] == link
            },
            Cell::Inner { prefix, exact, kids } => {
                &&& !link.leaf()
                &&& prefix.len() <= node::MAX_PREFIX_LEN
                &&& forall|byte: u8| #[trigger] self.kid_ok(path, prefix, kids, byte)
                &&& !exact.absent() ==> {
                    &&& self.keys.contains_key(path + prefix)
                    &&& self.keys[path + prefix] == exact
                }
            },
        }
    }

    /// The node at `path` leads on to the node at the longer path `q`.
    pub open spec fn routes(self, path: Seq<u8>, q: Seq<u8>) -> bool {
        beyond(q, path) ==> match self.node(path) {
            Cell::Inner { prefix, exact, kids } => {
                let stem = path + prefix;
                &&& beyond(q, stem)
                &&& self.at.contains_key(child_path(path, prefix, q[stem.len() as int]))
            },
            _ => false,
        }
    }

    /// The node at `path` leads on to the leaf of `key`, where the key starts with the path.
    pub open spec fn key_routes(self, path: Seq<u8>, key: Seq<u8>) -> bool {
        order::extends(key, path) ==> match self.node(path) {
            Cell::Vacant => false,
            Cell::Leaf { key: own } => self.at[path] == self.keys[key],
            Cell::Inner { prefix, exact, kids } => {
                let stem = path + prefix;
                &&& order::extends(key, stem)
                &&& key.len() == stem.len() ==> !exact.absent() && exact == self.keys[key]
                &&& key.len() > stem.len() ==> self.at.contains_key(
                    child_path(path, prefix, key[stem.len() as int]),
                )
            },
        }
    }

    /// The leaf of `key` holds that key.
    pub open spec fn keyed(self, key: Seq<u8>) -> bool {
        let link = self.keys[key];
        &&& !link.absent()
        &&& link.leaf()
        &&& link.slot() < self.heap.len()
        &&& self.cell(link) == (Cell::<P>::Leaf { key })
    }

    /// Different paths have different inner nodes.
    pub open spec fn apart(self, p: Seq<u8>, q: Seq<u8>) -> bool {
        p != q && self.node(p) is Inner && self.node(q) is Inner ==> self.at[p].slot()
            != self.at[q].slot()
    }

    /// The root is the node at the empty path, and everything hangs from it.
    pub open spec fn root_ok(self) -> bool {
        if self.root.absent() {
            self.at == Map::<Seq<u8>, P>::empty() && self.keys == Map::<Seq<u8>, P>::empty()
        } else {
            self.at.contains_key(Seq::empty()) && self.at[Seq::empty()] == self.root
        }
    }

    /// The slots hold a tree.
    pub open spec fn wf(self) -> bool {
        &&& self.root_ok()
        &&& self.at.dom().finite()
        &&& self.keys.dom().finite()
        &&& forall|p: Seq<u8>| self.at.contains_key(p) ==> #[trigger] self.node_ok(p)
        &&& forall|p: Seq<u8>, q: Seq<u8>|
            self.at.contains_key(p) && self.at.contains_key(q) ==> #[trigger] self.routes(p, q)
        &&& forall|p: Seq<u8>, k: Seq<u8>|
            self.at.contains_key(p) && self.keys.contains_key(k) ==> #[trigger] self.key_routes(
                p,
                k,
            )
        &&& forall|k: Seq<u8>| self.keys.contains_key(k) ==> #[trigger] self.keyed(k)
        &&& forall|p: Seq<u8>, q: Seq<u8>|
            self.at.contains_key(p) && self.at.contains_key(q) ==> #[trigger] self.apart(p, q)
    }

    /// The tree does not use slot `slot`.
    pub open spec fn unused(self, slot: int) -> bool {
        &&& forall|p: Seq<u8>| self.at.contains_key(p) ==> (#[trigger] self.at[p]).slot() != slot
        &&& forall|k: Seq<u8>|
            self.keys.contains_key(k) ==> (#[trigger] self.keys[k]).slot() != slot
    }

    /// `q` is the place of the root, or the place of the child for a byte of a node.
    pub open spec fn hangs(self, home: Option<(Seq<u8>, u8)>, q: Seq<u8>) -> bool {
        match home {
            None => q == Seq::<u8>::empty(),
            Some((p, byte)) => {
                &&& self.at.contains_key(p)
                &&& self.node(p) matches Cell::Inner { prefix, .. } && q == child_path(
                    p,
                    prefix,
                    byte,
                )
            },
        }
    }

    /// The slots after the place `home` was made to lead to `link`.
    pub open spec fn relinked(self, home: Option<(Seq<u8>, u8)>, link: P) -> Seq<Cell<P>> {
        match home {
            None => self.heap,
            Some((p, byte)) => self.heap.update(
                self.at[p].slot() as int,
                with_kid(self.node(p), byte, link),
            ),
        }
    }

    /// The root after the place `home` was made to lead to `link`.
    pub open spec fn rerooted(self, home: Option<(Seq<u8>, u8)>, link: P) -> P {
        match home {
            None => link,
            Some(_) => self.root,
        }
    }

    /// The tree after `link` was set as the exact leaf of the node at `p`.
    pub open spec fn put_exact(self, p: Seq<u8>, link: P) -> Self {
        match self.node(p) {
            Cell::Inner { prefix, exact, kids } => Outline {
                heap: self.heap.update(
                    self.at[p].slot() as int,
                    Cell::Inner { prefix, exact: link, kids },
                ),
                keys: if link.absent() {
                    self.keys.remove(p + prefix)
                } else {
                    self.keys.insert(p + prefix, link)
                },
                ..self
            },
            _ => self,
        }
    }

    /// The keys without that of the leaf at `q`.
    pub open spec fn keys_without(self, q: Seq<u8>) -> Map<Seq<u8>, P> {
        if self.at.contains_key(q) {
            match self.node(q) {
                Cell::Leaf { key } => self.keys.remove(key),
                _ => self.keys,
            }
        } else {
            self.keys
        }
    }

    /// The tree after a place without a node or with a leaf was made to lead to the leaf
    /// `link` of `key`, or to nothing.
    pub open spec fn put_leaf(
        self,
        home: Option<(Seq<u8>, u8)>,
        q: Seq<u8>,
        link: P,
        key: Seq<u8>,
    ) -> Self {
        Outline {
            heap: self.relinked(home, link),
            root: self.rerooted(home, link),
            at: if link.absent() {
                self.at.remove(q)
            } else {
                self.at.insert(q, link)
            },
            keys: if link.absent() {
                self.keys_without(q)
            } else {
                self.keys_without(q).insert(key, link)
            },
            height: if q.len() > self.height {
                q.len()
            } else {
                self.height
            },
        }
    }

    /// The tree after the inner node at `q` was moved to where `link` leads.
    pub open spec fn moved(self, home: Option<(Seq<u8>, u8)>, q: Seq<u8>, link: P) -> Self {
        Outline {
            heap: self.relinked(home, link),
            root: self.rerooted(home, link),
            at: self.at.insert(q, link),
            ..self
        }
    }

    /// The tree after a new inner node was put at `q`, with the prefix `stem` and the node that
    /// stood there as its only child.
    pub open spec fn wrapped(
        self,
        home: Option<(Seq<u8>, u8)>,
        q: Seq<u8>,
        link: P,
        stem: Seq<u8>,
        byte: u8,
    ) -> Self {
        let child = child_path(q, stem, byte);
        let trimmed = self.with_heap(
            self.heap.update(
                self.at[q].slot() as int,
                trimmed_cell(self.node(q), stem.len() as int + 1),
            ),
        );
        Outline {
            heap: trimmed.relinked(home, link),
            root: self.rerooted(home, link),
            at: self.at.insert(q, link).insert(child, self.at[q]),
            height: if child.len() > self.height {
                child.len()
            } else {
                self.height
            },
            ..self
        }
    }

    /// The same tree over other contents of the slots.
    pub open spec fn with_heap(self, heap: Seq<Cell<P>>) -> Self {
        Outline { heap, ..self }
    }
}

/// The cell with the first bytes cut off its prefix.
pub open spec fn trimmed_cell<P>(cell: Cell<P>, count: int) -> Cell<P> {
    match cell {
        Cell::Inner { prefix, exact, kids } => Cell::Inner {
            prefix: prefix.skip(count),
            exact,
            kids,
        },
        _ => cell,
    }
}

/// The path of the node from which a place hangs.
pub open spec fn parent_of(home: Option<(Seq<u8>, u8)>) -> Seq<u8> {
    match home {
        None => Seq::empty(),
        Some((p, byte)) => p,
    }
}

/// The byte for which a place hangs from a node.
pub open spec fn byte_of(home: Option<(Seq<u8>, u8)>) -> u8 {
    match home {
        None => 0,
        Some((p, byte)) => byte,
    }
}

/// The cell with another child for `byte`, or with none if `link` leads nowhere.
pub open spec fn with_kid<P: Link>(cell: Cell<P>, byte: u8, link: P) -> Cell<P> {
    match cell {
        Cell::Inner { prefix, exact, kids } => Cell::Inner {
            prefix,
            exact,
            kids: if link.absent() {
                kids.remove(byte)
            } else {
                kids.insert(byte, link)
            },
        },
        _ => cell,
    }
}

/// Facts on the path of a child.
pub proof fn lemma_child_path(path: Seq<u8>, prefix: Seq<u8>, byte: u8)
    ensures
        child_path(path, prefix, byte).len() == path.len() + prefix.len() + 1,
        order::extends(path + prefix, path),
        order::extends(child_path(path, prefix, byte), path + prefix),
        order::extends(child_path(path, prefix, byte), path),
        child_path(path, prefix, byte)[(path + prefix).len() as int] == byte,
{
    let stem = path + prefix;
    let child = child_path(path, prefix, byte);
    assert forall|i: int| 0 <= i < path.len() implies #[trigger] path[i] == stem[i] by {}
    assert forall|i: int| 0 <= i < stem.len() implies #[trigger] stem[i] == child[i] by {}
    order::lemma_extends_transitive(child, stem, path);
}

/// What goes on behind a node's prefix goes on through the child for the next byte.
pub proof fn lemma_through_child(q: Seq<u8>, path: Seq<u8>, prefix: Seq<u8>)
    requires
        beyond(q, path + prefix),
    ensures
        order::extends(q, child_path(path, prefix, q[(path + prefix).len() as int])),
        order::extends(q, path),
{
    let stem = path + prefix;
    let child = child_path(path, prefix, q[stem.len() as int]);
    assert forall|i: int| 0 <= i < child.len() implies #[trigger] child[i] == q[i] by {
        if i < stem.len() {
            assert(child[i] == stem[i]);
            assert(stem[i] == q[i]);
        }
    }
    lemma_child_path(path, prefix, q[stem.len() as int]);
    order::lemma_extends_transitive(q, child, path);
}

/// What starts with a child's path goes on behind the parent's prefix.
pub proof fn lemma_below_child(q: Seq<u8>, path: Seq<u8>, prefix: Seq<u8>, byte: u8)
    requires
        order::extends(q, child_path(path, prefix, byte)),
    ensures
        beyond(q, path + prefix),
        beyond(q, path),
        q[(path + prefix).len() as int] == byte,
{
    let stem = path + prefix;
    let child = child_path(path, prefix, byte);
    lemma_child_path(path, prefix, byte);
    order::lemma_extends_transitive(q, child, stem);
    order::lemma_extends_transitive(q, child, path);
    assert(child[stem.len() as int] == q[stem.len() as int]);
}

/// Two strings that start with a common string `q` and are as long agree within `q`.
pub proof fn lemma_same_byte(s: Seq<u8>, q: Seq<u8>, i: int)
    requires
        order::extends(s, q),
        0 <= i < q.len(),
    ensures
        s[i] == q[i],
{
    assert(q[i] == s[i]);
}

/// Each child of an inner node fits its path.
pub proof fn lemma_kid<P: Link>(
    o: Outline<P>,
    path: Seq<u8>,
    prefix: Seq<u8>,
    exact: P,
    kids: Map<u8, P>,
    byte: u8,
)
    requires
        o.wf(),
        o.at.contains_key(path),
        o.node(path) == (Cell::Inner { prefix, exact, kids }),
    ensures
        o.kid_ok(path, prefix, kids, byte),
{
    assert(o.node_ok(path));
    assert(o.kid_ok(path, o.node(path)->prefix, o.node(path)->kids, byte));
}

/// A child's path has one parent.
pub proof fn lemma_parent_unique<P: Link>(
    o: Outline<P>,
    p: Seq<u8>,
    x: Seq<u8>,
    b: u8,
    p2: Seq<u8>,
    x2: Seq<u8>,
    b2: u8,
)
    requires
        o.wf(),
        o.at.contains_key(p),
        o.at.contains_key(p2),
        o.node(p) matches Cell::Inner { prefix, .. } && prefix == x,
        o.node(p2) matches Cell::Inner { prefix, .. } && prefix == x2,
        child_path(p, x, b) == child_path(p2, x2, b2),
    ensures
        p == p2,
        x == x2,
        b == b2,
{
    let q = child_path(p, x, b);
    lemma_child_path(p, x, b);
    lemma_child_path(p2, x2, b2);
    if p.len() <= p2.len() {
        order::lemma_extends_nested(q, p, p2);
        if p.len() < p2.len() {
            assert(o.routes(p, p2));
        }
    } else {
        order::lemma_extends_nested(q, p2, p);
        assert(o.routes(p2, p));
    }
}

/// A vacant slot is unused.
pub proof fn lemma_vacant_unused<P: Link>(o: Outline<P>, slot: int)
    requires
        o.wf(),
        0 <= slot < o.heap.len(),
        o.heap[slot] is Vacant,
    ensures
        o.unused(slot),
{
    assert forall|p: Seq<u8>| o.at.contains_key(p) implies (#[trigger] o.at[p]).slot() != slot by {
        assert(o.node_ok(p));
    }
    assert forall|k: Seq<u8>| o.keys.contains_key(k) implies (#[trigger] o.keys[k]).slot()
        != slot by {
        assert(o.keyed(k));
    }
}

/// The contents of an unused slot are of no concern to the tree.
pub proof fn lemma_unused<P: Link>(o: Outline<P>, slot: int, cell: Cell<P>)
    requires
        o.wf(),
        0 <= slot < o.heap.len(),
        o.unused(slot),
    ensures
        o.with_heap(o.heap.update(slot, cell)).wf(),
        o.with_heap(o.heap.update(slot, cell)).unused(slot),
{
    let n = o.with_heap(o.heap.update(slot, cell));
    assert forall|p: Seq<u8>| #[trigger] o.at.contains_key(p) implies n.node(p) == o.node(p) by {
        assert(o.node_ok(p));
        assert(o.at[p].slot() != slot);
    }
    assert forall|k: Seq<u8>| #[trigger] o.keys.contains_key(k) implies n.cell(n.keys[k])
        == o.cell(o.keys[k]) by {
        assert(o.keyed(k));
        assert(o.keys[k].slot() != slot);
    }
    lemma_same_cells(o, n);
}

/// More slots behind the last one are of no concern to the tree.
pub proof fn lemma_longer<P: Link>(o: Outline<P>, heap: Seq<Cell<P>>)
    requires
        o.wf(),
        o.heap.len() <= heap.len(),
        forall|i: int| 0 <= i < o.heap.len() ==> #[trigger] heap[i] == o.heap[i],
    ensures
        o.with_heap(heap).wf(),
{
    let n = o.with_heap(heap);
    assert forall|p: Seq<u8>| o.at.contains_key(p) implies #[trigger] o.at[p].slot()
        < n.heap.len() && n.node(p) == o.node(p) by {
        assert(o.node_ok(p));
    }
    assert forall|k: Seq<u8>| o.keys.contains_key(k) implies #[trigger] o.keys[k].slot()
        < n.heap.len() && n.cell(o.keys[k]) == o.cell(o.keys[k]) by {
        assert(o.keyed(k));
    }
    lemma_same_cells(o, n);
}

/// A tree is in order as long as the slots that it uses keep their contents.
pub proof fn lemma_same_cells<P: Link>(o: Outline<P>, n: Outline<P>)
    requires
        o.wf(),
        n.root == o.root,
        n.at == o.at,
        n.keys == o.keys,
        n.height >= o.height,
        n.heap.len() >= o.heap.len(),
        forall|p: Seq<u8>| #[trigger] o.at.contains_key(p) ==> n.node(p) == o.node(p),
        forall|k: Seq<u8>| #[trigger]
            o.keys.contains_key(k) ==> n.cell(n.keys[k]) == o.cell(o.keys[k]),
    ensures
        n.wf(),
{
    assert forall|p: Seq<u8>| n.at.contains_key(p) implies #[trigger] n.node_ok(p) by {
        assert(o.node_ok(p));
        if let Cell::Inner { prefix, exact, kids } = n.node(p) {
            assert forall|byte: u8| #[trigger] n.kid_ok(p, prefix, kids, byte) by {
                assert(o.kid_ok(p, prefix, kids, byte));
            }
        }
    }
    assert forall|p: Seq<u8>, q: Seq<u8>|
        n.at.contains_key(p) && n.at.contains_key(q) implies #[trigger] n.routes(p, q) by {
        assert(o.routes(p, q));
    }
    assert forall|p: Seq<u8>, k: Seq<u8>|
        n.at.contains_key(p) && n.keys.contains_key(k) implies #[trigger] n.key_routes(p, k) by {
        assert(o.key_routes(p, k));
    }
    assert forall|k: Seq<u8>| n.keys.contains_key(k) implies #[trigger] n.keyed(k) by {
        assert(o.keyed(k));
    }
    assert forall|p: Seq<u8>, q: Seq<u8>|
        n.at.contains_key(p) && n.at.contains_key(q) implies #[trigger] n.apart(p, q) by {
        assert(o.apart(p, q));
    }
}

/// Setting or clearing an exact leaf keeps the tree in order.
pub proof fn lemma_put_exact<P: Link>(o: Outline<P>, p: Seq<u8>, x: Seq<u8>, link: P)
    requires
        o.wf(),
        o.at.contains_key(p),
        o.node(p) matches Cell::Inner { prefix, .. } && prefix == x,
        link.absent() || {
            &&& link.leaf()
            &&& link.slot() < o.heap.len()
            &&& o.cell(link) == (Cell::<P>::Leaf { key: p + x })
        },
    ensures
        o.put_exact(p, link).wf(),
{
    let n = o.put_exact(p, link);
    let stem = p + x;
    let slot = o.at[p].slot() as int;
    lemma_child_path(p, x, 0);
    assert(o.node_ok(p));
    // Only the node at `p` changes.
    assert forall|q: Seq<u8>| #[trigger] o.at.contains_key(q) && q != p implies n.node(q) == o.node(
        q,
    ) by {
        assert(o.node_ok(q));
        assert(o.apart(p, q));
    }
    assert forall|k: Seq<u8>| #[trigger] o.keys.contains_key(k) implies n.cell(o.keys[k]) == o.cell(
        o.keys[k],
    ) by {
        assert(o.keyed(k));
    }
    // No leaf stands on the way that holds the key `stem`.
    assert forall|q: Seq<u8>| #[trigger] o.at.contains_key(q) && o.node(q) is Leaf implies o.node(q)
        != (Cell::<P>::Leaf { key: stem }) by {
        assert(o.node_ok(q));
        if o.node(q) == (Cell::<P>::Leaf { key: stem }) {
            assert(order::extends(stem, q));
            if q.len() < p.len() {
                order::lemma_extends_nested(stem, q, p);
                assert(o.routes(q, p));
            } else if q.len() > p.len() {
                order::lemma_extends_nested(stem, p, q);
                assert(o.routes(p, q));
            } else {
                order::lemma_extends_nested(stem, p, q);
            }
        }
    }
    // No other node has `stem` as its stem.
    assert forall|q: Seq<u8>, y: Seq<u8>|
        o.at.contains_key(q) && q != p && (o.node(q) matches Cell::Inner { prefix, .. } && prefix
            == y) implies #[trigger] (q + y) != stem by {
        if q + y == stem {
            lemma_child_path(q, y, 0);
            if q.len() <= p.len() {
                order::lemma_extends_nested(stem, q, p);
                assert(o.routes(q, p));
            } else {
                order::lemma_extends_nested(stem, p, q);
                assert(o.routes(p, q));
            }
        }
    }
    assert forall|q: Seq<u8>| n.at.contains_key(q) implies #[trigger] n.node_ok(q) by {
        assert(o.node_ok(q));
        if let Cell::Inner { prefix, exact, kids } = n.node(q) {
            if q != p {
                assert(q + prefix != stem);
            }
            assert forall|byte: u8| #[trigger] n.kid_ok(q, prefix, kids, byte) by {
                assert(o.kid_ok(q, prefix, kids, byte));
            }
        }
    }
    assert forall|q: Seq<u8>, r: Seq<u8>|
        n.at.contains_key(q) && n.at.contains_key(r) implies #[trigger] n.routes(q, r) by {
        assert(o.routes(q, r));
    }
    assert forall|q: Seq<u8>, k: Seq<u8>|
        n.at.contains_key(q) && n.keys.contains_key(k) implies #[trigger] n.key_routes(q, k) by {
        if o.keys.contains_key(k) && k != stem {
            assert(o.key_routes(q, k));
            if q == p && order::extends(k, p) && k.len() == stem.len() {
                order::lemma_extends_nested(k, stem, k);
            }
        } else {
            assert(k == stem);
            if order::extends(stem, q) {
                assert(o.node_ok(q));
                if q != p {
                    if q.len() <= p.len() {
                        order::lemma_extends_nested(stem, q, p);
                        assert(o.routes(q, p));
                        if let Cell::Inner { prefix, exact, kids } = o.node(q) {
                            let byte = p[(q + prefix).len() as int];
                            lemma_through_child(p, q, prefix);
                            order::lemma_extends_transitive(stem, p, q + prefix);
                            lemma_same_byte(stem, p, (q + prefix).len() as int);
                        }
                    } else {
                        order::lemma_extends_nested(stem, p, q);
                        assert(o.routes(p, q));
                    }
                }
            }
        }
    }
    assert forall|k: Seq<u8>| n.keys.contains_key(k) implies #[trigger] n.keyed(k) by {
        if k != stem {
            assert(o.keyed(k));
        }
    }
    assert forall|q: Seq<u8>, r: Seq<u8>|
        n.at.contains_key(q) && n.at.contains_key(r) implies #[trigger] n.apart(q, r) by {
        assert(o.apart(q, r));
    }
}

/// A place without a node or with a leaf has no node beyond it.
pub proof fn lemma_nothing_beyond<P: Link>(
    o: Outline<P>,
    home: Option<(Seq<u8>, u8)>,
    q: Seq<u8>,
)
    requires
        o.wf(),
        o.hangs(home, q),
        o.at.contains_key(q) ==> o.node(q) is Leaf,
    ensures
        forall|r: Seq<u8>| #[trigger] o.at.contains_key(r) ==> !beyond(r, q),
        forall|k: Seq<u8>| #[trigger]
            o.keys.contains_key(k) && order::extends(k, q) ==> o.at.contains_key(q) && o.node(q)
                == (Cell::<P>::Leaf { key: k }) && o.keys[k] == o.at[q],
{
    assert forall|r: Seq<u8>| #[trigger] o.at.contains_key(r) implies !beyond(r, q) by {
        if beyond(r, q) {
            match home {
                None => {
                    assert(o.routes(q, r));
                },
                Some((p, byte)) => {
                    if let Cell::Inner { prefix, exact, kids } = o.node(p) {
                        lemma_below_child(r, p, prefix, byte);
                        assert(o.routes(p, r));
                        assert(o.routes(q, r));
                    }
                },
            }
        }
    }
    assert forall|k: Seq<u8>| #[trigger]
        o.keys.contains_key(k) && order::extends(k, q) implies o.at.contains_key(q) && o.node(q)
        == (Cell::<P>::Leaf { key: k }) && o.keys[k] == o.at[q] by {
        match home {
            None => {},
            Some((p, byte)) => {
                if let Cell::Inner { prefix, exact, kids } = o.node(p) {
                    lemma_below_child(k, p, prefix, byte);
                    assert(o.key_routes(p, k));
                }
            },
        }
        assert(o.key_routes(q, k));
        assert(o.keyed(k));
    }
}

/// A node above a place leads on to the place.
pub proof fn lemma_leads_to_place<P: Link>(
    o: Outline<P>,
    home: Option<(Seq<u8>, u8)>,
    q: Seq<u8>,
    r: Seq<u8>,
)
    requires
        o.wf(),
        o.hangs(home, q),
        o.at.contains_key(r),
        beyond(q, r),
    ensures
        home is Some,
        o.node(r) is Inner,
        r != parent_of(home) ==> beyond(parent_of(home), r),
        o.node(r) matches Cell::Inner { prefix, .. } ==> {
            &&& beyond(q, r + prefix)
            &&& r != parent_of(home) ==> o.at.contains_key(
                child_path(r, prefix, q[(r + prefix).len() as int]),
            ) && child_path(r, prefix, q[(r + prefix).len() as int]) != q
            &&& r == parent_of(home) ==> child_path(r, prefix, q[(r + prefix).len() as int]) == q
        },
{
    let (p, byte) = home->0;
    if let Cell::Inner { prefix, exact, kids } = o.node(p) {
        lemma_below_child(q, p, prefix, byte);
        if r != p {
            if r.len() <= p.len() {
                order::lemma_extends_nested(q, r, p);
                assert(o.routes(r, p));
                if let Cell::Inner { prefix: rx, .. } = o.node(r) {
                    let i = (r + rx).len() as int;
                    lemma_through_child(p, r, rx);
                    order::lemma_extends_transitive(q, p, r + rx);
                    lemma_same_byte(q, p, i);
                    lemma_child_path(r, rx, q[i]);
                }
            } else {
                order::lemma_extends_nested(q, p, r);
                assert(o.routes(p, r));
            }
        }
    }
}

/// Putting a leaf at a place, or taking one away, keeps the tree in order.
pub proof fn lemma_put_leaf<P: Link>(
    o: Outline<P>,
    home: Option<(Seq<u8>, u8)>,
    q: Seq<u8>,
    link: P,
    key: Seq<u8>,
)
    requires
        o.wf(),
        o.hangs(home, q),
        o.at.contains_key(q) ==> o.node(q) is Leaf,
        link.absent() || {
            &&& link.leaf()
            &&& link.slot() < o.heap.len()
            &&& o.cell(link) == (Cell::<P>::Leaf { key })
            &&& order::extends(key, q)
        },
    ensures
        o.put_leaf(home, q, link, key).wf(),
{
    let n = o.put_leaf(home, q, link, key);
    lemma_nothing_beyond(o, home, q);
    if home is Some {
        assert(o.node_ok(parent_of(home)));
    }
    // Only the parent of the place changes.
    assert forall|r: Seq<u8>| #[trigger]
        o.at.contains_key(r) && (home is None || r != parent_of(home)) implies n.heap[o.at[r].slot() as int]
        == o.node(r) by {
        assert(o.node_ok(r));
        if home is Some {
            assert(o.apart(parent_of(home), r));
        }
    }
    assert forall|k: Seq<u8>| #[trigger] o.keys.contains_key(k) implies n.cell(o.keys[k]) == o.cell(
        o.keys[k],
    ) by {
        assert(o.keyed(k));
        if home is Some {
            assert(o.node_ok(parent_of(home)));
        }
    }
    assert(!link.absent() ==> n.cell(link) == o.cell(link));
    if home is None {
        assert forall|r: Seq<u8>| o.at.contains_key(r) implies r == q by {
            assert(order::extends(r, q));
            if r.len() == 0 {
                assert(r =~= q);
            }
        }
        assert forall|k: Seq<u8>| o.keys.contains_key(k) implies o.node(q) == (Cell::<P>::Leaf {
            key: k,
        }) by {
            assert(order::extends(k, q));
        }
        if link.absent() {
            assert(n.at =~= Map::<Seq<u8>, P>::empty());
            assert(n.keys =~= Map::<Seq<u8>, P>::empty());
        }
    } else {
        lemma_child_path(parent_of(home), o.node(parent_of(home))->prefix, byte_of(home));
        assert(q != Seq::<u8>::empty());
    }
    if o.at.contains_key(q) {
        assert(o.node_ok(q));
    }
    // A key that stays is not one below the place.
    assert forall|k: Seq<u8>| #[trigger] o.keys.contains_key(k) && !order::extends(k, q) implies
        n.keys.contains_key(k) && n.keys[k] == o.keys[k] by {}
    assert forall|k: Seq<u8>| #[trigger] n.keys.contains_key(k) implies (k == key && !link.absent())
        || (o.keys.contains_key(k) && !order::extends(k, q) && n.keys[k] == o.keys[k]) by {}
    assert forall|r: Seq<u8>| n.at.contains_key(r) implies #[trigger] n.node_ok(r) by {
        if r != q {
            assert(o.node_ok(r));
            if home is Some && r == parent_of(home) {
                let (p, byte) = home->0;
                if let Cell::Inner { prefix, exact, kids } = o.node(p) {
                    lemma_child_path(p, prefix, byte);
                    let kids2 = n.node(p)->kids;
                    assert forall|b: u8| #[trigger] n.kid_ok(p, prefix, kids2, b) by {
                        assert(o.kid_ok(p, prefix, kids, b));
                        lemma_child_path(p, prefix, b);
                        if b != byte {
                            assert(child_path(p, prefix, b) != q);
                        }
                    }
                    assert(!order::extends(p + prefix, q));
                }
            } else {
                match o.node(r) {
                    Cell::Vacant => {},
                    Cell::Leaf { key: own } => {
                        if order::extends(own, q) {
                            assert(o.keys.contains_key(own));
                            assert(o.at[q] == o.at[r]);
                            // Both stand on the way to the same key.
                            if r.len() < q.len() {
                                order::lemma_extends_nested(own, r, q);
                                assert(o.routes(r, q));
                            } else {
                                order::lemma_extends_nested(own, q, r);
                            }
                        }
                    },
                    Cell::Inner { prefix, exact, kids } => {
                        if order::extends(r + prefix, q) && !exact.absent() {
                            assert(o.keys.contains_key(r + prefix));
                            assert(o.node(q) is Leaf);
                            lemma_child_path(r, prefix, 0);
                            if r.len() < q.len() {
                                order::lemma_extends_nested(r + prefix, r, q);
                                assert(o.routes(r, q));
                            } else {
                                order::lemma_extends_nested(r + prefix, q, r);
                            }
                        }
                        assert forall|b: u8| #[trigger] n.kid_ok(r, prefix, kids, b) by {
                            assert(o.kid_ok(r, prefix, kids, b));
                            if child_path(r, prefix, b) == q {
                                if home is Some {
                                    lemma_parent_unique(
                                        o,
                                        r,
                                        prefix,
                                        b,
                                        parent_of(home),
                                        o.node(parent_of(home))->prefix,
                                        byte_of(home),
                                    );
                                } else {
                                    lemma_child_path(r, prefix, b);
                                }
                            }
                        }
                    },
                }
            }
        }
    }
    assert forall|r: Seq<u8>, t: Seq<u8>|
        n.at.contains_key(r) && n.at.contains_key(t) implies #[trigger] n.routes(r, t) by {
        if beyond(t, r) {
            if r == q {
                assert(o.at.contains_key(t));
            } else if t == q {
                lemma_leads_to_place(o, home, q, r);
            } else {
                assert(o.routes(r, t));
                if let Cell::Inner { prefix, exact, kids } = o.node(r) {
                    let c = child_path(r, prefix, t[(r + prefix).len() as int]);
                    lemma_through_child(t, r, prefix);
                    if c == q {
                        assert(beyond(t, q) || t == q) by {
                            if t.len() == q.len() {
                                assert(t =~= q);
                            }
                        }
                    }
                }
            }
        }
    }
    assert forall|r: Seq<u8>, k: Seq<u8>|
        n.at.contains_key(r) && n.keys.contains_key(k) implies #[trigger] n.key_routes(r, k) by {
        if order::extends(k, r) {
            if k == key && !link.absent() {
                if r != q {
                    // The key goes on below the place.
                    if r.len() < q.len() {
                        order::lemma_extends_nested(k, r, q);
                        lemma_leads_to_place(o, home, q, r);
                        if let Cell::Inner { prefix, exact, kids } = o.node(r) {
                            order::lemma_extends_transitive(k, q, r + prefix);
                            lemma_same_byte(k, q, (r + prefix).len() as int);
                        }
                    } else {
                        order::lemma_extends_nested(k, q, r);
                    }
                }
            } else {
                assert(o.keys.contains_key(k) && !order::extends(k, q));
                assert(r != q);
                assert(o.key_routes(r, k));
                if let Cell::Inner { prefix, exact, kids } = o.node(r) {
                    if k.len() > (r + prefix).len() {
                        lemma_through_child(k, r, prefix);
                    }
                }
            }
        }
    }
    assert forall|k: Seq<u8>| n.keys.contains_key(k) implies #[trigger] n.keyed(k) by {
        if !(k == key && !link.absent()) {
            assert(o.keyed(k));
        }
    }
    assert forall|r: Seq<u8>, t: Seq<u8>|
        n.at.contains_key(r) && n.at.contains_key(t) implies #[trigger] n.apart(r, t) by {
        if r != q && t != q {
            assert(o.apart(r, t));
        }
    }
}

/// The parent of a place still has its other children after the place got another link.
proof fn lemma_parent_relinked<P: Link>(
    o: Outline<P>,
    n: Outline<P>,
    home: Option<(Seq<u8>, u8)>,
    q: Seq<u8>,
    link: P,
)
    requires
        o.wf(),
        home is Some,
        o.hangs(home, q),
        o.at.contains_key(q),
        !link.absent(),
        n.at.contains_key(q),
        n.at[q] == link,
        n.at.contains_key(parent_of(home)),
        n.at[parent_of(home)] == o.at[parent_of(home)],
        n.node(parent_of(home)) == with_kid(o.node(parent_of(home)), byte_of(home), link),
        n.keys == o.keys,
        n.heap.len() == o.heap.len(),
        n.height >= o.height,
        forall|b: u8| #[trigger]
            child_path(parent_of(home), o.node(parent_of(home))->prefix, b) != q ==> (
            n.at.contains_key(child_path(parent_of(home), o.node(parent_of(home))->prefix, b))
                <==> o.at.contains_key(
                child_path(parent_of(home), o.node(parent_of(home))->prefix, b),
            )) && (o.at.contains_key(
                child_path(parent_of(home), o.node(parent_of(home))->prefix, b),
            ) ==> n.at[child_path(parent_of(home), o.node(parent_of(home))->prefix, b)]
                == o.at[child_path(parent_of(home), o.node(parent_of(home))->prefix, b)]),
    ensures
        n.node_ok(parent_of(home)),
{
    let (p, byte) = home->0;
    assert(o.node_ok(p));
    if let Cell::Inner { prefix, exact, kids } = o.node(p) {
        let kids2 = n.node(p)->kids;
        assert forall|b: u8| #[trigger] n.kid_ok(p, prefix, kids2, b) by {
            assert(o.kid_ok(p, prefix, kids, b));
            lemma_child_path(p, prefix, b);
            lemma_child_path(p, prefix, byte);
            if b != byte {
                assert(child_path(p, prefix, b) != q);
            }
        }
    }
}

/// Moving an inner node to an unused slot keeps the tree in order.
pub proof fn lemma_move_inner<P: Link>(
    o: Outline<P>,
    home: Option<(Seq<u8>, u8)>,
    q: Seq<u8>,
    link: P,
)
    requires
        o.wf(),
        o.hangs(home, q),
        o.at.contains_key(q),
        o.node(q) is Inner,
        !link.absent(),
        !link.leaf(),
        link.slot() < o.heap.len(),
        o.unused(link.slot() as int),
        o.cell(link) == o.node(q),
    ensures
        o.moved(home, q, link).wf(),
        o.moved(home, q, link).unused(o.at[q].slot() as int),
{
    let n = o.moved(home, q, link);
    assert(o.node_ok(q));
    if home is Some {
        assert(o.node_ok(parent_of(home)));
        lemma_child_path(parent_of(home), o.node(parent_of(home))->prefix, byte_of(home));
    }
    assert forall|r: Seq<u8>| #[trigger]
        o.at.contains_key(r) && (home is None || r != parent_of(home)) implies n.node(r) == o.node(
        r,
    ) by {
        assert(o.node_ok(r));
        if home is Some {
            assert(o.apart(parent_of(home), r));
            assert(o.at[parent_of(home)].slot() != link.slot());
        }
    }
    assert forall|k: Seq<u8>| #[trigger] o.keys.contains_key(k) implies n.cell(o.keys[k]) == o.cell(
        o.keys[k],
    ) by {
        assert(o.keyed(k));
    }
    if home is None {
        assert(n.root_ok());
    }
    assert forall|r: Seq<u8>| n.at.contains_key(r) implies #[trigger] n.node_ok(r) by {
        assert(o.node_ok(r));
        if home is Some && r == parent_of(home) {
            lemma_parent_relinked(o, n, home, q, link);
        } else if let Cell::Inner { prefix, exact, kids } = o.node(r) {
            assert forall|b: u8| #[trigger] n.kid_ok(r, prefix, kids, b) by {
                assert(o.kid_ok(r, prefix, kids, b));
                lemma_child_path(r, prefix, b);
                if child_path(r, prefix, b) == q && home is Some {
                    lemma_parent_unique(
                        o,
                        r,
                        prefix,
                        b,
                        parent_of(home),
                        o.node(parent_of(home))->prefix,
                        byte_of(home),
                    );
                }
            }
        }
    }
    assert forall|r: Seq<u8>, t: Seq<u8>|
        n.at.contains_key(r) && n.at.contains_key(t) implies #[trigger] n.routes(r, t) by {
        assert(o.routes(r, t));
    }
    assert forall|r: Seq<u8>, k: Seq<u8>|
        n.at.contains_key(r) && n.keys.contains_key(k) implies #[trigger] n.key_routes(r, k) by {
        assert(o.key_routes(r, k));
    }
    assert forall|k: Seq<u8>| n.keys.contains_key(k) implies #[trigger] n.keyed(k) by {
        assert(o.keyed(k));
    }
    assert forall|r: Seq<u8>, t: Seq<u8>|
        n.at.contains_key(r) && n.at.contains_key(t) implies #[trigger] n.apart(r, t) by {
        assert(o.apart(r, t));
        if r == q && t != q {
            assert(o.at[t].slot() != link.slot());
        } else if t == q && r != q {
            assert(o.at[r].slot() != link.slot());
        }
    }
    assert forall|r: Seq<u8>| n.at.contains_key(r) implies (#[trigger] n.at[r]).slot()
        != o.at[q].slot() by {
        if r == q {
            assert(o.at[q].slot() != link.slot());
        } else {
            assert(o.apart(r, q));
            assert(o.node_ok(r));
        }
    }
    assert forall|k: Seq<u8>| n.keys.contains_key(k) implies (#[trigger] n.keys[k]).slot()
        != o.at[q].slot() by {
        assert(o.keyed(k));
    }
}

/// Putting a new inner node above a node keeps the tree in order.
pub proof fn lemma_wrap<P: Link>(
    o: Outline<P>,
    home: Option<(Seq<u8>, u8)>,
    q: Seq<u8>,
    link: P,
    stem: Seq<u8>,
    byte: u8,
    none: P,
)
    requires
        o.wf(),
        o.hangs(home, q),
        o.at.contains_key(q),
        stem.len() <= node::MAX_PREFIX_LEN,
        match o.node(q) {
            Cell::Vacant => false,
            Cell::Leaf { key } => order::extends(key, child_path(q, stem, byte)),
            Cell::Inner { prefix, .. } => order::extends(prefix, stem.push(byte)),
        },
        none.absent(),
        !link.absent(),
        !link.leaf(),
        link.slot() < o.heap.len(),
        o.unused(link.slot() as int),
        o.cell(link) == (Cell::Inner {
            prefix: stem,
            exact: none,
            kids: Map::<u8, P>::empty().insert(byte, o.at[q]),
        }),
    ensures
        o.wrapped(home, q, link, stem, byte).wf(),
{
    let n = o.wrapped(home, q, link, stem, byte);
    let c = o.at[q];
    let q2 = child_path(q, stem, byte);
    let par = parent_of(home);
    lemma_child_path(q, stem, byte);
    assert(o.node_ok(q));
    assert(c.slot() != link.slot());
    if home is Some {
        assert(o.node_ok(par));
        assert(o.apart(par, q));
        assert(par != q) by {
            lemma_child_path(par, o.node(par)->prefix, byte_of(home));
        }
        assert(o.at[par].slot() != c.slot());
        assert(o.at[par].slot() != link.slot());
    }
    // The path behind the new node was taken by no one.
    if o.at.contains_key(q2) {
        assert(o.routes(q, q2));
        if let Cell::Inner { prefix, exact, kids } = o.node(q) {
            assert((q + prefix).len() >= q2.len());
        }
    }
    // Everything behind the wrapped node stays behind it.
    if let Cell::Inner { prefix, exact, kids } = o.node(q) {
        let rest = prefix.skip(stem.len() as int + 1);
        assert(q + prefix =~= q2 + rest) by {
            assert forall|i: int| 0 <= i < (q + prefix).len() implies (q + prefix)[i] == (q2
                + rest)[i] by {
                if q.len() <= i < q2.len() {
                    assert(stem.push(byte)[i - q.len()] == prefix[i - q.len()]);
                }
            }
        }
        lemma_child_path(q2, rest, 0);
        assert(n.node(q2) == (Cell::Inner { prefix: rest, exact, kids }));
    } else {
        assert(n.node(q2) == o.node(q));
    }
    assert(n.node(q) == o.cell(link));
    // What started with the path of the wrapped node and lies behind it starts with its new path.
    assert forall|t: Seq<u8>| #[trigger]
        o.at.contains_key(t) && beyond(t, q) implies o.node(q) is Inner && beyond(t, q2) by {
        assert(o.routes(q, t));
        if let Cell::Inner { prefix, exact, kids } = o.node(q) {
            order::lemma_extends_transitive(t, q + prefix, q2);
        }
    }
    assert forall|k: Seq<u8>| #[trigger]
        o.keys.contains_key(k) && order::extends(k, q) implies order::extends(k, q2) by {
        assert(o.key_routes(q, k));
        assert(o.keyed(k));
        if let Cell::Inner { prefix, exact, kids } = o.node(q) {
            order::lemma_extends_transitive(k, q + prefix, q2);
        }
    }
    assert forall|r: Seq<u8>| #[trigger]
        o.at.contains_key(r) && r != q && (home is None || r != par) implies n.at[r] == o.at[r]
        && n.node(r) == o.node(r) by {
        assert(o.node_ok(r));
        assert(o.apart(r, q));
        assert(o.at[r].slot() != link.slot());
        if home is Some {
            assert(o.apart(par, r));
        }
        assert(r != q2);
    }
    assert forall|k: Seq<u8>| #[trigger] o.keys.contains_key(k) implies n.cell(o.keys[k]) == o.cell(
        o.keys[k],
    ) by {
        assert(o.keyed(k));
        assert(o.keys[k].slot() != link.slot());
    }
    if home is None {
        assert(n.root_ok()) by {
            assert(q2 != q);
        }
    } else {
        lemma_child_path(par, o.node(par)->prefix, byte_of(home));
        assert(q2 != Seq::<u8>::empty());
        assert(q != Seq::<u8>::empty());
        assert(n.at[par] == o.at[par]);
    }
    assert forall|r: Seq<u8>| n.at.contains_key(r) implies #[trigger] n.node_ok(r) by {
        if r == q {
            let kids2 = n.node(q)->kids;
            assert forall|b: u8| #[trigger] n.kid_ok(q, stem, kids2, b) by {
                lemma_child_path(q, stem, b);
                let t = child_path(q, stem, b);
                if b != byte {
                    assert(t != q2);
                    assert(t != q);
                    if o.at.contains_key(t) {
                        assert(beyond(t, q2));
                    }
                }
            }
        } else if r == q2 {
            if let Cell::Inner { prefix, exact, kids } = o.node(q) {
                let rest = prefix.skip(stem.len() as int + 1);
                assert forall|b: u8| #[trigger] n.kid_ok(q2, rest, kids, b) by {
                    assert(o.kid_ok(q, prefix, kids, b));
                    lemma_child_path(q2, rest, b);
                    assert(child_path(q2, rest, b) == child_path(q, prefix, b));
                }
            }
        } else if home is Some && r == par {
            let px = o.node(par)->prefix;
            assert forall|b: u8| #[trigger] child_path(par, px, b) != q implies (
            n.at.contains_key(child_path(par, px, b)) <==> o.at.contains_key(
                child_path(par, px, b),
            )) && (o.at.contains_key(child_path(par, px, b)) ==> n.at[child_path(par, px, b)]
                == o.at[child_path(par, px, b)]) by {
                lemma_child_path(par, px, b);
                assert(child_path(par, px, b).len() == q.len());
                assert(child_path(par, px, b) != q2);
            }
            lemma_parent_relinked(o, n, home, q, link);
        } else {
            assert(o.node_ok(r));
            if let Cell::Inner { prefix, exact, kids } = o.node(r) {
                assert forall|b: u8| #[trigger] n.kid_ok(r, prefix, kids, b) by {
                    assert(o.kid_ok(r, prefix, kids, b));
                    let t = child_path(r, prefix, b);
                    lemma_child_path(r, prefix, b);
                    if t == q && home is Some {
                        lemma_parent_unique(
                            o,
                            r,
                            prefix,
                            b,
                            par,
                            o.node(par)->prefix,
                            byte_of(home),
                        );
                    }
                    if t == q2 {
                        // The new path hangs from the new node only.
                        if r.len() < q.len() {
                            order::lemma_extends_nested(q2, r, q);
                            assert(o.routes(r, q));
                            if (r + prefix).len() + 1 == q2.len() {
                                assert(q.len() > (r + prefix).len());
                            }
                        } else {
                            order::lemma_extends_nested(q2, q, r);
                            assert(beyond(r, q));
                            assert(beyond(r, q2));
                        }
                    }
                }
            }
        }
    }
    assert forall|r: Seq<u8>, t: Seq<u8>|
        n.at.contains_key(r) && n.at.contains_key(t) implies #[trigger] n.routes(r, t) by {
        if beyond(t, r) {
            if r == q {
                if t != q2 {
                    assert(beyond(t, q2));
                    lemma_below_child(t, q, stem, byte);
                }
            } else if r == q2 {
                order::lemma_extends_transitive(t, q2, q);
                assert(o.routes(q, t));
                if let Cell::Inner { prefix, exact, kids } = o.node(q) {
                    let rest = prefix.skip(stem.len() as int + 1);
                    let b = t[(q + prefix).len() as int];
                    assert(child_path(q2, rest, b) == child_path(q, prefix, b));
                    lemma_child_path(q, prefix, b);
                }
            } else {
                // `r` keeps its prefix, and what it led to before is still there.
                if t == q2 {
                    if r.len() < q.len() {
                        order::lemma_extends_nested(q2, r, q);
                        assert(o.routes(r, q));
                        if let Cell::Inner { prefix, exact, kids } = o.node(r) {
                            order::lemma_extends_transitive(q2, q, r + prefix);
                            lemma_same_byte(q2, q, (r + prefix).len() as int);
                        }
                    } else {
                        order::lemma_extends_nested(q2, q, r);
                        assert(beyond(r, q2));
                    }
                } else {
                    assert(o.routes(r, t));
                }
            }
        }
    }
    assert forall|r: Seq<u8>, k: Seq<u8>|
        n.at.contains_key(r) && n.keys.contains_key(k) implies #[trigger] n.key_routes(r, k) by {
        if order::extends(k, r) {
            if r == q {
                lemma_below_child(k, q, stem, byte);
            } else if r == q2 {
                order::lemma_extends_transitive(k, q2, q);
                assert(o.key_routes(q, k));
                if let Cell::Inner { prefix, exact, kids } = o.node(q) {
                    let rest = prefix.skip(stem.len() as int + 1);
                    if k.len() > (q + prefix).len() {
                        let b = k[(q + prefix).len() as int];
                        assert(child_path(q2, rest, b) == child_path(q, prefix, b));
                    }
                }
            } else {
                assert(o.key_routes(r, k));
            }
        }
    }
    assert forall|k: Seq<u8>| n.keys.contains_key(k) implies #[trigger] n.keyed(k) by {
        assert(o.keyed(k));
    }
    assert forall|r: Seq<u8>, t: Seq<u8>|
        n.at.contains_key(r) && n.at.contains_key(t) implies #[trigger] n.apart(r, t) by {
        let r0 = if r == q2 {
            q
        } else {
            r
        };
        let t0 = if t == q2 {
            q
        } else {
            t
        };
        if r != q && t != q {
            assert(o.apart(r0, t0));
        } else if r == q && t != q {
            assert(o.at[t0].slot() != link.slot());
        } else if t == q && r != q {
            assert(o.at[r0].slot() != link.slot());
        }
    }
}

/// Putting a new inner node in place of a leaf, with the leaf as its exact leaf, keeps the tree
/// in order.
pub proof fn lemma_wrap_exact<P: Link>(
    o: Outline<P>,
    home: Option<(Seq<u8>, u8)>,
    q: Seq<u8>,
    link: P,
    stem: Seq<u8>,
)
    requires
        o.wf(),
        o.hangs(home, q),
        o.at.contains_key(q),
        o.node(q) == (Cell::<P>::Leaf { key: q + stem }),
        stem.len() <= node::MAX_PREFIX_LEN,
        !link.absent(),
        !link.leaf(),
        link.slot() < o.heap.len(),
        o.unused(link.slot() as int),
        o.cell(link) == (Cell::Inner {
            prefix: stem,
            exact: o.at[q],
            kids: Map::<u8, P>::empty(),
        }),
    ensures
        o.moved(home, q, link).wf(),
{
    let n = o.moved(home, q, link);
    let par = parent_of(home);
    lemma_nothing_beyond(o, home, q);
    lemma_child_path(q, stem, 0);
    assert(o.node_ok(q));
    if home is Some {
        assert(o.node_ok(par));
        lemma_child_path(par, o.node(par)->prefix, byte_of(home));
        assert(o.at[par].slot() != link.slot());
    }
    assert forall|r: Seq<u8>| #[trigger]
        o.at.contains_key(r) && r != q && (home is None || r != par) implies n.node(r) == o.node(
        r,
    ) by {
        assert(o.node_ok(r));
        if home is Some {
            assert(o.apart(par, r));
        }
    }
    assert forall|k: Seq<u8>| #[trigger] o.keys.contains_key(k) implies n.cell(o.keys[k]) == o.cell(
        o.keys[k],
    ) by {
        assert(o.keyed(k));
    }
    assert(n.node(q) == o.cell(link));
    assert(n.root_ok());
    assert forall|r: Seq<u8>| n.at.contains_key(r) implies #[trigger] n.node_ok(r) by {
        if r == q {
            let kids2 = n.node(q)->kids;
            assert forall|b: u8| #[trigger] n.kid_ok(q, stem, kids2, b) by {
                lemma_child_path(q, stem, b);
                assert(beyond(child_path(q, stem, b), q));
            }
        } else if home is Some && r == par {
            lemma_parent_relinked(o, n, home, q, link);
        } else {
            assert(o.node_ok(r));
            if let Cell::Inner { prefix, exact, kids } = o.node(r) {
                assert forall|b: u8| #[trigger] n.kid_ok(r, prefix, kids, b) by {
                    assert(o.kid_ok(r, prefix, kids, b));
                    lemma_child_path(r, prefix, b);
                    if child_path(r, prefix, b) == q && home is Some {
                        lemma_parent_unique(
                            o,
                            r,
                            prefix,
                            b,
                            par,
                            o.node(par)->prefix,
                            byte_of(home),
                        );
                    }
                }
            }
        }
    }
    assert forall|r: Seq<u8>, t: Seq<u8>|
        n.at.contains_key(r) && n.at.contains_key(t) implies #[trigger] n.routes(r, t) by {
        assert(o.routes(r, t));
    }
    assert forall|r: Seq<u8>, k: Seq<u8>|
        n.at.contains_key(r) && n.keys.contains_key(k) implies #[trigger] n.key_routes(r, k) by {
        assert(o.key_routes(r, k));
        assert(o.keyed(k));
    }
    assert forall|k: Seq<u8>| n.keys.contains_key(k) implies #[trigger] n.keyed(k) by {
        assert(o.keyed(k));
    }
    assert forall|r: Seq<u8>, t: Seq<u8>|
        n.at.contains_key(r) && n.at.contains_key(t) implies #[trigger] n.apart(r, t) by {
        assert(o.apart(r, t));
        if r == q && t != q {
            assert(o.at[t].slot() != link.slot());
        } else if t == q && r != q {
            assert(o.at[r].slot() != link.slot());
        }
    }
}

} // verus!
