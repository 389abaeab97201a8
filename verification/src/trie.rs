//! # Radix tree over slots
//!
//! The tree that both maps share: inner nodes and leaves live in numbered slots and refer to
//! each other by links. The maps choose the slots; the search, the order and the edits are
//! here.

use crate::inner::InnerNode;
use crate::latch;
use crate::node;
use crate::node::{Link, NodeType, MAX_PREFIX_LEN};
use crate::order;
use crate::order::{longest_common_prefix, same_bytes};
use crate::shape;
use crate::shape::{Cell, Outline};
use vstd::prelude::*;

verus! {

/// A leaf that holds its key.
pub trait Keyed {
    /// The bytes of the key.
    spec fn own_key(&self) -> Seq<u8>;

    /// The bytes of the key.
    fn key_slice(&self) -> (bytes: &[u8])
        ensures
            bytes@ == self.own_key(),
    ;
}

/// A slot of the tree.
pub enum Slot<P, L> {
    /// Nothing.
    Vacant,
    /// A leaf.
    Leaf(Box<L>),
    /// An inner node.
    Inner(InnerNode<P>),
}

/// What the slot holds.
pub open spec fn cell_of<P: Link, L: Keyed>(slot: Slot<P, L>) -> Cell<P> {
    match slot {
        Slot::Vacant => Cell::Vacant,
        Slot::Leaf(leaf) => Cell::Leaf { key: leaf.own_key() },
        Slot::Inner(inner) => Cell::Inner {
            prefix: inner.prefix(),
            exact: inner.exact(),
            kids: inner.kids(),
        },
    }
}

/// What the slots hold.
pub open spec fn cells_of<P: Link, L: Keyed>(slots: Seq<Slot<P, L>>) -> Seq<Cell<P>> {
    Seq::new(slots.len(), |i: int| cell_of(slots[i]))
}

/// Every inner node is in order.
pub open spec fn nodes_wf<P: Link, L: Keyed>(slots: Seq<Slot<P, L>>) -> bool {
    forall|i: int|
        0 <= i < slots.len() ==> ((#[trigger] slots[i]) matches Slot::Inner(inner) ==> inner.wf())
}

/// Every leaf of `a` is still in its slot in `b`.
pub open spec fn leaves_kept<P: Link, L: Keyed>(a: Seq<Slot<P, L>>, b: Seq<Slot<P, L>>) -> bool {
    &&& a.len() <= b.len()
    &&& forall|i: int| 0 <= i < a.len() && a[i] is Leaf ==> #[trigger] b[i] == a[i]
}

/// Every leaf of `b` but for the one in `slot` is a leaf of `a`.
pub open spec fn no_new_leaves<P: Link, L: Keyed>(
    a: Seq<Slot<P, L>>,
    b: Seq<Slot<P, L>>,
    slot: int,
) -> bool {
    forall|i: int|
        0 <= i < b.len() && i != slot && (#[trigger] b[i]) is Leaf ==> i < a.len() && a[i] is Leaf
}

/// Every vacant slot of `a` that is not in `taken` is still vacant in `b`.
pub open spec fn vacant_kept<P: Link, L: Keyed>(
    a: Seq<Slot<P, L>>,
    b: Seq<Slot<P, L>>,
    taken: Set<int>,
) -> bool {
    &&& a.len() <= b.len()
    &&& forall|i: int|
        0 <= i < a.len() && a[i] is Vacant && !taken.contains(i) ==> #[trigger] b[i] is Vacant
}

/// The layout and the latch word of an inner node.
pub struct NodeState {
    pub layout: NodeType,
    pub word: u64,
}

/// The layout and the latch word of every inner node, by its slot.
pub open spec fn nodes_of<P: Link, L: Keyed>(slots: Seq<Slot<P, L>>) -> Map<int, NodeState> {
    Map::new(
        |i: int| 0 <= i < slots.len() && slots[i] is Inner,
        |i: int|
            NodeState {
                layout: (slots[i]->Inner_0).head().node_type,
                word: (slots[i]->Inner_0).head().latch@,
            },
    )
}

/// The nodes after a writer took and released the latch of the one in slot `i`.
pub open spec fn stepped(nodes: Map<int, NodeState>, i: int) -> Map<int, NodeState> {
    nodes.insert(
        i,
        NodeState { word: nodes[i].word.wrapping_add(latch::VERSION_STEP), ..nodes[i] },
    )
}

/// The nodes with new ones of the given layout in the slots to which the links lead. The latch of
/// a new node has not been taken.
pub open spec fn with_fresh<P: Link>(
    nodes: Map<int, NodeState>,
    fresh: Seq<P>,
    layout: NodeType,
) -> Map<int, NodeState> {
    Map::new(
        |i: int| nodes.contains_key(i) || slots_of(fresh).contains(i),
        |i: int|
            if slots_of(fresh).contains(i) {
                NodeState { layout, word: 0 }
            } else {
                nodes[i]
            },
    )
}

/// The paths of the nodes and the keys of the leaves.
pub struct Shape<P> {
    pub at: Map<Seq<u8>, P>,
    pub keys: Map<Seq<u8>, P>,
    pub height: nat,
}

/// A radix tree over slots.
pub struct Trie<P, L> {
    pub root: P,
    pub slots: Vec<Slot<P, L>>,
    pub shape: Ghost<Shape<P>>,
}

/// Where a link is kept: at the root, or for a byte in a node.
pub enum Place<P> {
    Root,
    Child { node: P, byte: u8, path: Ghost<Seq<u8>> },
}

impl<P: Link> Place<P> {
    /// The place in the outline.
    pub open spec fn home(self) -> Option<(Seq<u8>, u8)> {
        match self {
            Place::Root => None,
            Place::Child { node, byte, path } => Some((path@, byte)),
        }
    }

    /// What the root is after the place was made to lead to `link`.
    pub open spec fn root_with(self, root: P, link: P) -> P {
        match self {
            Place::Root => link,
            Place::Child { node, byte, path } => root,
        }
    }

    /// The nodes after a writer took and released the latch of the one that keeps the place. The
    /// root is not kept in a node.
    pub open spec fn guarded(self, nodes: Map<int, NodeState>) -> Map<int, NodeState> {
        match self {
            Place::Root => nodes,
            Place::Child { node, byte, path } => stepped(nodes, node.slot() as int),
        }
    }
}

/// Where the search for a key ends.
pub enum Spot<P> {
    /// The tree is empty.
    Nothing,
    /// At a leaf, behind `depth` bytes of the key.
    Leaf { place: Place<P>, depth: usize, leaf: P },
    /// At a node whose prefix goes another way than the key after `matched` bytes.
    Split { place: Place<P>, depth: usize, node: P, matched: usize },
    /// At a node behind whose prefix the key ends. The exact leaf may be absent.
    Exact { place: Place<P>, depth: usize, node: P, leaf: P },
    /// At a node that has no child for the next byte of the key.
    Gap { place: Place<P>, depth: usize, node: P, byte: u8 },
}

/// The new inner nodes that an insertion takes.
#[derive(Copy, Clone, PartialEq, Eq, Structural, Debug)]
pub enum Need {
    /// None.
    Nothing,
    /// This many of the smallest layout.
    Chain(usize),
    /// One of this layout, in place of the node that is full.
    Growth(NodeType),
}

impl Need {
    /// How many nodes.
    pub open spec fn count(self) -> nat {
        match self {
            Need::Nothing => 0,
            Need::Chain(n) => n as nat,
            Need::Growth(_) => 1,
        }
    }
}

/// How many nodes it takes to spell out a common prefix: each holds a bounded part of it, and
/// one byte leads to the next.
pub open spec fn chain_len(common: nat) -> nat {
    common / 17 + 1
}

/// The next larger layout.
pub open spec fn next_layout(layout: NodeType) -> NodeType {
    match layout {
        NodeType::Node4 => NodeType::Node16,
        NodeType::Node16 => NodeType::Node48,
        _ => NodeType::Node256,
    }
}

/// The layouts grow one after the other, and a chain of nodes has room for a common prefix: each
/// node takes up to sixteen bytes of it, and one byte leads to the next.
pub proof fn lemma_growth(common: nat)
    ensures
        next_layout(NodeType::Node4) == NodeType::Node16,
        next_layout(NodeType::Node16) == NodeType::Node48,
        next_layout(NodeType::Node48) == NodeType::Node256,
        common < 17 * chain_len(common),
        17 * (chain_len(common) - 1) <= common,
        Need::Nothing.count() == 0,
        Need::Chain(common as usize).count() == common as usize,
        Need::Growth(NodeType::Node16).count() == 1,
{
}

/// A latch that was taken and released is one step further, and no other one is.
pub proof fn lemma_stepped(nodes: Map<int, NodeState>, i: int, j: int)
    requires
        nodes.contains_key(i),
    ensures
        stepped(nodes, i).dom() == nodes.dom(),
        stepped(nodes, i)[i].layout == nodes[i].layout,
        stepped(nodes, i)[i].word == nodes[i].word.wrapping_add(4),
        i != j ==> stepped(nodes, i)[j] == nodes[j],
{
    assert(stepped(nodes, i).dom() =~= nodes.dom());
}

/// One link more leads to one slot more.
proof fn lemma_slots_of_more<P: Link>(links: Seq<P>, n: int)
    requires
        0 < n <= links.len(),
        forall|j: int, k: int|
            0 <= j < k < links.len() ==> (#[trigger] links[j]).slot() != (
            #[trigger] links[k]).slot(),
    ensures
        slots_of(links.skip(n - 1)) == slots_of(links.skip(n)).insert(links[n - 1].slot() as int),
        !slots_of(links.skip(n)).contains(links[n - 1].slot() as int),
{
    let was = links.skip(n);
    let now = links.skip(n - 1);
    let slot = links[n - 1].slot() as int;
    assert forall|s: int| #[trigger] slots_of(now).contains(s) <==> slots_of(was).insert(
        slot,
    ).contains(s) by {
        if slots_of(was).contains(s) {
            let j = choose|j: int| 0 <= j < was.len() && (#[trigger] was[j]).slot() == s;
            assert(now[j + 1].slot() == s);
        }
        if s == slot {
            assert(now[0].slot() == s);
        }
        if slots_of(now).contains(s) {
            let j = choose|j: int| 0 <= j < now.len() && (#[trigger] now[j]).slot() == s;
            if j > 0 {
                assert(was[j - 1].slot() == s);
            }
        }
    }
    assert(slots_of(now) =~= slots_of(was).insert(slot));
    if slots_of(was).contains(slot) {
        let j = choose|j: int| 0 <= j < was.len() && (#[trigger] was[j]).slot() == slot;
        assert(links[n + j].slot() == slot);
    }
}

/// The slots to which the links lead.
pub open spec fn slots_of<P: Link>(links: Seq<P>) -> Set<int> {
    Set::new(|slot: int| exists|j: int| 0 <= j < links.len() && (#[trigger] links[j]).slot() == slot)
}

impl<P: Link, L: Keyed> Trie<P, L> {
    /// The tree as its nodes look from outside.
    pub open spec fn outline(&self) -> Outline<P> {
        Outline {
            heap: cells_of(self.slots@),
            root: self.root,
            at: self.shape@.at,
            keys: self.shape@.keys,
            height: self.shape@.height,
        }
    }

    /// The slots hold a tree, and its nodes are in order.
    pub open spec fn wf(&self) -> bool {
        &&& self.outline().wf()
        &&& nodes_wf(self.slots@)
        &&& self.slots@.len() > 0
    }

    /// The leaf in the slot to which `link` leads.
    pub open spec fn leaf_at(&self, link: P) -> L {
        *(self.slots@[link.slot() as int]->Leaf_0)
    }

    /// The links to the leaves by their key.
    pub open spec fn keys(&self) -> Map<Seq<u8>, P> {
        self.shape@.keys
    }

    /// The leaves by their key.
    pub open spec fn leaves(&self) -> Map<Seq<u8>, L> {
        Map::new(|key: Seq<u8>| self.keys().contains_key(key), |key: Seq<u8>|
            self.leaf_at(self.keys()[key]))
    }

    /// `link` leads to the leaf of some key.
    pub open spec fn holds_leaf(&self, link: P) -> bool {
        &&& link.slot() < self.slots@.len()
        &&& self.slots@[link.slot() as int] is Leaf
    }

    /// `place` is where the link for the path `q` is kept.
    pub open spec fn place_ok(&self, place: Place<P>, q: Seq<u8>) -> bool {
        &&& self.outline().hangs(place.home(), q)
        &&& place matches Place::Child { node, byte, path } ==> self.outline().at[path@] == node
    }

    /// `spot` is where the search for `key` ends.
    pub open spec fn spot_ok(&self, key: Seq<u8>, spot: Spot<P>) -> bool {
        let o = self.outline();
        match spot {
            Spot::Nothing => self.root.absent(),
            Spot::Leaf { place, depth, leaf } => {
                let q = key.take(depth as int);
                &&& depth <= key.len()
                &&& self.place_ok(place, q)
                &&& o.at.contains_key(q)
                &&& o.at[q] == leaf
                &&& o.node(q) is Leaf
            },
            Spot::Split { place, depth, node, matched } => {
                let q = key.take(depth as int);
                &&& depth <= key.len()
                &&& self.place_ok(place, q)
                &&& o.at.contains_key(q)
                &&& o.at[q] == node
                &&& o.node(q) matches Cell::Inner { prefix, .. } && {
                    &&& matched < prefix.len()
                    &&& order::is_common_prefix_len(
                        prefix,
                        key.skip(depth as int),
                        matched as int,
                    )
                }
            },
            Spot::Exact { place, depth, node, leaf } => {
                let q = key.take(depth as int);
                &&& depth <= key.len()
                &&& self.place_ok(place, q)
                &&& o.at.contains_key(q)
                &&& o.at[q] == node
                &&& o.node(q) matches Cell::Inner { prefix, exact, .. } && {
                    &&& q + prefix == key
                    &&& exact == leaf
                }
            },
            Spot::Gap { place, depth, node, byte } => {
                let q = key.take(depth as int);
                &&& depth <= key.len()
                &&& self.place_ok(place, q)
                &&& o.at.contains_key(q)
                &&& o.at[q] == node
                &&& o.node(q) matches Cell::Inner { prefix, kids, .. } && {
                    &&& shape::beyond(key, q + prefix)
                    &&& byte == key[(q + prefix).len() as int]
                    &&& !kids.contains_key(byte)
                }
            },
        }
    }

    /// Where the search ends decides whether the key is in the tree.
    pub proof fn lemma_spot(&self, key: Seq<u8>, spot: Spot<P>)
        requires
            self.wf(),
            self.spot_ok(key, spot),
        ensures
            match spot {
                Spot::Leaf { place, depth, leaf } => {
                    &&& self.holds_leaf(leaf)
                    &&& self.keys().contains_key(key) <==> self.leaf_at(leaf).own_key() == key
                    &&& self.keys().contains_key(key) ==> self.keys()[key] == leaf
                    &&& order::extends(self.leaf_at(leaf).own_key(), key.take(depth as int))
                },
                Spot::Exact { place, depth, node, leaf } => {
                    &&& self.keys().contains_key(key) <==> !leaf.absent()
                    &&& self.keys().contains_key(key) ==> self.keys()[key] == leaf
                },
                _ => !self.keys().contains_key(key),
            },
    {
        let o = self.outline();
        match spot {
            Spot::Nothing => {},
            Spot::Leaf { place, depth, leaf } => {
                let q = key.take(depth as int);
                assert(order::extends(key, q));
                assert(o.node_ok(q));
                if o.keys.contains_key(key) {
                    assert(o.key_routes(q, key));
                    assert(o.keyed(key));
                }
            },
            Spot::Split { place, depth, node, matched } => {
                let q = key.take(depth as int);
                assert(order::extends(key, q));
                assert(o.node_ok(q));
                if o.keys.contains_key(key) {
                    assert(o.key_routes(q, key));
                    if let Cell::Inner { prefix, exact, kids } = o.node(q) {
                        assert((q + prefix)[q.len() + matched] == key[q.len() + matched]);
                        assert(prefix[matched as int] == key.skip(depth as int)[matched as int]);
                    }
                }
            },
            Spot::Exact { place, depth, node, leaf } => {
                let q = key.take(depth as int);
                assert(order::extends(key, q));
                assert(o.node_ok(q));
                if o.keys.contains_key(key) {
                    assert(o.key_routes(q, key));
                }
            },
            Spot::Gap { place, depth, node, byte } => {
                let q = key.take(depth as int);
                assert(order::extends(key, q));
                assert(o.node_ok(q));
                if let Cell::Inner { prefix, exact, kids } = o.node(q) {
                    assert(o.kid_ok(q, prefix, kids, byte));
                }
                if o.keys.contains_key(key) {
                    assert(o.key_routes(q, key));
                }
            },
        }
    }

    /// An empty tree with one slot, which is never handed out.
    pub fn new() -> (trie: Self)
        ensures
            trie.wf(),
            trie.root.absent(),
            trie.slots@.len() == 1,
            trie.slots@[0] is Vacant,
            trie.leaves() == Map::<Seq<u8>, L>::empty(),
            trie.keys() == Map::<Seq<u8>, P>::empty(),
    {
        let mut slots: Vec<Slot<P, L>> = Vec::new();
        slots.push(Slot::Vacant);
        let trie = Trie {
            root: P::nil(),
            slots,
            shape: Ghost(Shape { at: Map::empty(), keys: Map::empty(), height: 0 }),
        };
        assert(trie.leaves() =~= Map::<Seq<u8>, L>::empty());
        trie
    }

    /// The leaf to which `link` leads.
    pub fn leaf(&self, link: P) -> (leaf: &L)
        requires
            self.holds_leaf(link),
        ensures
            *leaf == self.leaf_at(link),
    {
        match &self.slots[link.slot_number()] {
            Slot::Leaf(leaf) => leaf,
            _ => vstd::pervasive::unreached(),
        }
    }

    /// The inner node to which `link` leads.
    pub fn inner(&self, link: P) -> (inner: &InnerNode<P>)
        requires
            self.wf(),
            link.slot() < self.slots@.len(),
            self.slots@[link.slot() as int] is Inner,
        ensures
            inner.wf(),
            *inner == self.slots@[link.slot() as int]->Inner_0,
    {
        match &self.slots[link.slot_number()] {
            Slot::Inner(inner) => inner,
            _ => vstd::pervasive::unreached(),
        }
    }

    /// Searches for `key`.
    pub fn locate(&self, key: &[u8]) -> (spot: Spot<P>)
        requires
            self.wf(),
        ensures
            self.spot_ok(key@, spot),
    {
        let ghost o = self.outline();
        if self.root.is_nil() {
            return Spot::Nothing;
        }
        let key_len: usize = key.len();
        let mut place: Place<P> = Place::Root;
        let mut current: P = self.root;
        let mut depth: usize = 0;
        proof {
            assert(key@.take(0) =~= Seq::<u8>::empty());
        }
        loop
            invariant
                self.wf(),
                o == self.outline(),
                depth <= key@.len() == key_len,
                o.at.contains_key(key@.take(depth as int)),
                o.at[key@.take(depth as int)] == current,
                self.place_ok(place, key@.take(depth as int)),
            decreases key@.len() - depth,
        {
            let ghost q = key@.take(depth as int);
            proof {
                assert(o.node_ok(q));
            }
            if current.has_leaf_tag() {
                return Spot::Leaf { place, depth, leaf: current };
            }
            let inner = self.inner(current);
            let ghost prefix = inner.prefix();
            proof {
                inner.lemma_facts();
                assert(o.node(q) == cell_of(self.slots@[current.slot() as int]));
            }
            let (matched, complete) = inner.header().match_prefix(key, depth);
            proof {
                assert(node::rest_of(key@, depth as int) == key@.skip(depth as int));
                order::lemma_common_len(prefix, key@.skip(depth as int));
                order::lemma_common_len_unique(prefix, key@.skip(depth as int), matched as int);
            }
            if !complete {
                return Spot::Split { place, depth, node: current, matched };
            }
            proof {
                assert(order::extends(key@, q + prefix)) by {
                    assert forall|i: int| 0 <= i < (q + prefix).len() implies #[trigger] (q
                        + prefix)[i] == key@[i] by {
                        if i >= q.len() {
                            assert(prefix[i - q.len()] == key@.skip(depth as int)[i - q.len()]);
                        }
                    }
                }
            }
            assert(matched == prefix.len());
            let stem: usize = depth + matched;
            if stem == key_len {
                assert(q + prefix =~= key@);
                return Spot::Exact { place, depth, node: current, leaf: inner.header().exact_leaf };
            }
            let byte: u8 = key[stem];
            match inner.find_child(byte) {
                None => {
                    return Spot::Gap { place, depth, node: current, byte };
                },
                Some(child) => {
                    proof {
                        assert(o.node(q)->kids == inner.kids());
                        assert(o.kid_ok(q, o.node(q)->prefix, o.node(q)->kids, byte));
                        assert(key@.take(stem + 1) =~= shape::child_path(q, prefix, byte));
                    }
                    place = Place::Child { node: current, byte, path: Ghost(q) };
                    current = child;
                    depth = stem + 1;
                },
            }
        }
    }

    /// The leaf of `key`, if the tree has one.
    pub fn get_leaf(&self, key: &[u8]) -> (r: Option<P>)
        requires
            self.wf(),
        ensures
            r == self.keys().get(key@),
            r matches Some(link) ==> {
                &&& self.holds_leaf(link)
                &&& self.leaf_at(link) == self.leaves()[key@]
                &&& self.leaf_at(link).own_key() == key@
            },
            r is Some == self.leaves().contains_key(key@),
    {
        let spot = self.locate(key);
        proof {
            self.lemma_spot(key@, spot);
            if self.keys().contains_key(key@) {
                assert(self.outline().keyed(key@));
            }
        }
        match spot {
            Spot::Leaf { place: _, depth: _, leaf } => {
                if same_bytes(self.leaf(leaf).key_slice(), key) {
                    Some(leaf)
                } else {
                    None
                }
            },
            Spot::Exact { place: _, depth: _, node: _, leaf } => {
                if leaf.is_nil() {
                    None
                } else {
                    Some(leaf)
                }
            },
            _ => None,
        }
    }
}

impl<P: Link, L: Keyed> Trie<P, L> {
    /// The slot of `link` is free for a new leaf.
    pub open spec fn leaf_slot_free(&self, link: P) -> bool {
        &&& !link.absent()
        &&& link.leaf()
        &&& link.slot() < self.slots@.len()
        &&& self.slots@[link.slot() as int] is Vacant
    }

    /// The slot of `link` is free for a new inner node.
    pub open spec fn inner_slot_free(&self, link: P) -> bool {
        &&& !link.absent()
        &&& !link.leaf()
        &&& link.slot() < self.slots@.len()
        &&& self.slots@[link.slot() as int] is Vacant
    }

    /// The link to a new leaf, and what stays as it was, decide the leaves.
    proof fn lemma_leaves_inserted(&self, n: &Self, key: Seq<u8>, link: P, leaf: L)
        requires
            self.wf(),
            n.keys() == self.keys().insert(key, link),
            leaves_kept(self.slots@, n.slots@),
            n.leaf_at(link) == leaf,
        ensures
            n.leaves() == self.leaves().insert(key, leaf),
    {
        assert forall|k: Seq<u8>| self.keys().contains_key(k) implies #[trigger] n.leaf_at(
            self.keys()[k],
        ) == self.leaf_at(self.keys()[k]) by {
            assert(self.outline().keyed(k));
        }
        assert(n.leaves() =~= self.leaves().insert(key, leaf));
    }

    /// The leaves stay what they were while neither their links nor their slots change.
    proof fn lemma_leaves_same(&self, n: &Self)
        requires
            self.wf(),
            n.keys() == self.keys(),
            leaves_kept(self.slots@, n.slots@),
        ensures
            n.leaves() == self.leaves(),
    {
        assert forall|k: Seq<u8>| self.keys().contains_key(k) implies #[trigger] n.leaf_at(
            self.keys()[k],
        ) == self.leaf_at(self.keys()[k]) by {
            assert(self.outline().keyed(k));
        }
        assert(n.leaves() =~= self.leaves());
    }

    /// Makes a place lead to `link`.
    fn set_link(&mut self, place: &Place<P>, link: P)
        requires
            nodes_wf(old(self).slots@),
            !link.absent(),
            *place matches Place::Child { node, byte, path } ==> {
                &&& node.slot() < old(self).slots@.len()
                &&& old(self).slots@[node.slot() as int] matches Slot::Inner(inner) && (
                inner.kids().contains_key(byte) || !inner.full())
            },
        ensures
            nodes_wf(final(self).slots@),
            final(self).shape == old(self).shape,
            final(self).slots@.len() == old(self).slots@.len(),
            nodes_of(final(self).slots@) == nodes_of(old(self).slots@),
            match *place {
                Place::Root => final(self).root == link && final(self).slots@ == old(self).slots@,
                Place::Child { node, byte, path } => {
                    &&& final(self).root == old(self).root
                    &&& final(self).slots@[node.slot() as int] is Inner
                    &&& forall|i: int|
                        0 <= i < old(self).slots@.len() && i != node.slot()
                            ==> #[trigger] final(self).slots@[i] == old(self).slots@[i]
                    &&& cells_of(final(self).slots@) == cells_of(old(self).slots@).update(
                        node.slot() as int,
                        shape::with_kid(
                            cell_of(old(self).slots@[node.slot() as int]),
                            byte,
                            link,
                        ),
                    )
                },
            },
    {
        let ghost before = *self;
        match place {
            Place::Root => {
                self.root = link;
            },
            Place::Child { node, byte, path: _ } => {
                let i: usize = node.slot_number();
                match &mut self.slots[i] {
                    Slot::Inner(inner) => {
                        if inner.find_child(*byte).is_some() {
                            inner.replace_child(*byte, link);
                        } else {
                            inner.insert_child_into_node(*byte, link);
                        }
                    },
                    _ => vstd::pervasive::unreached(),
                }
                proof {
                    assert(cells_of(self.slots@) =~= cells_of(before.slots@).update(
                        i as int,
                        shape::with_kid(cell_of(before.slots@[i as int]), *byte, link),
                    ));
                    assert(nodes_of(self.slots@) =~= nodes_of(before.slots@));
                }
            },
        }
    }

    /// Makes a place lead nowhere.
    fn clear_link(&mut self, place: &Place<P>) -> (none: P)
        requires
            nodes_wf(old(self).slots@),
            *place matches Place::Child { node, byte, path } ==> {
                &&& node.slot() < old(self).slots@.len()
                &&& old(self).slots@[node.slot() as int] is Inner
            },
        ensures
            none.absent(),
            nodes_wf(final(self).slots@),
            final(self).shape == old(self).shape,
            final(self).slots@.len() == old(self).slots@.len(),
            nodes_of(final(self).slots@) == nodes_of(old(self).slots@),
            match *place {
                Place::Root => final(self).root == none && final(self).slots@ == old(self).slots@,
                Place::Child { node, byte, path } => {
                    &&& final(self).root == old(self).root
                    &&& final(self).slots@[node.slot() as int] is Inner
                    &&& forall|i: int|
                        0 <= i < old(self).slots@.len() && i != node.slot()
                            ==> #[trigger] final(self).slots@[i] == old(self).slots@[i]
                    &&& cells_of(final(self).slots@) == cells_of(old(self).slots@).update(
                        node.slot() as int,
                        shape::with_kid(
                            cell_of(old(self).slots@[node.slot() as int]),
                            byte,
                            none,
                        ),
                    )
                },
            },
    {
        let ghost before = *self;
        let none: P = P::nil();
        match place {
            Place::Root => {
                self.root = none;
            },
            Place::Child { node, byte, path: _ } => {
                let i: usize = node.slot_number();
                match &mut self.slots[i] {
                    Slot::Inner(inner) => {
                        let _ = inner.remove_child_from_node(*byte);
                    },
                    _ => vstd::pervasive::unreached(),
                }
                proof {
                    assert(cells_of(self.slots@) =~= cells_of(before.slots@).update(
                        i as int,
                        shape::with_kid(cell_of(before.slots@[i as int]), *byte, none),
                    ));
                    assert(nodes_of(self.slots@) =~= nodes_of(before.slots@));
                }
            },
        }
        none
    }

    /// Hangs a new leaf at a place that leads nowhere.
    fn hang_leaf(&mut self, place: &Place<P>, Ghost(q): Ghost<Seq<u8>>, link: P, leaf: Box<L>)
        requires
            old(self).wf(),
            old(self).place_ok(*place, q),
            !old(self).outline().at.contains_key(q),
            old(self).leaf_slot_free(link),
            order::extends(leaf.own_key(), q),
            *place matches Place::Child { node, byte, path }
                ==> !(old(self).slots@[node.slot() as int]->Inner_0).full(),
        ensures
            final(self).wf(),
            final(self).keys() == old(self).keys().insert(leaf.own_key(), link),
            final(self).leaves() == old(self).leaves().insert(leaf.own_key(), *leaf),
            final(self).slots@.len() == old(self).slots@.len(),
            leaves_kept(old(self).slots@, final(self).slots@),
            no_new_leaves(old(self).slots@, final(self).slots@, link.slot() as int),
            vacant_kept(
                old(self).slots@,
                final(self).slots@,
                Set::empty().insert(link.slot() as int),
            ),
            final(self).slots@[link.slot() as int] == Slot::<P, L>::Leaf(leaf),
            final(self).root == place.root_with(old(self).root, link),
            nodes_of(final(self).slots@) == nodes_of(old(self).slots@),
    {
        let ghost before = *self;
        let ghost o = self.outline();
        let ghost key = leaf.own_key();
        let slot: usize = link.slot_number();
        self.slots[slot] = Slot::Leaf(leaf);
        let ghost filled = o.with_heap(o.heap.update(slot as int, Cell::Leaf { key }));
        proof {
            shape::lemma_vacant_unused(o, slot as int);
            shape::lemma_unused(o, slot as int, Cell::Leaf { key });
            assert(cells_of(self.slots@) =~= filled.heap);
            assert(nodes_of(self.slots@) =~= nodes_of(before.slots@));
            if let Place::Child { node, byte, path } = place {
                assert(o.node_ok(path@));
                assert(filled.node_ok(path@));
                assert(self.slots@[node.slot() as int] == before.slots@[node.slot() as int]);
            }
        }
        self.set_link(place, link);
        proof {
            shape::lemma_put_leaf(filled, place.home(), q, link, key);
            let n = filled.put_leaf(place.home(), q, link, key);
            self.shape@ = Shape { at: n.at, keys: n.keys, height: n.height };
            assert(self.outline() == n);
            before.lemma_leaves_inserted(self, key, link, *leaf);
        }
    }

    /// Sets a new leaf as the exact leaf of a node, in place of the one that it may have.
    fn set_exact(&mut self, node: P, Ghost(q): Ghost<Seq<u8>>, link: P, leaf: Box<L>)
        requires
            old(self).wf(),
            old(self).outline().at.contains_key(q),
            old(self).outline().at[q] == node,
            old(self).outline().node(q) matches Cell::Inner { prefix, .. } && leaf.own_key() == q
                + prefix,
            old(self).leaf_slot_free(link),
        ensures
            final(self).wf(),
            final(self).keys() == old(self).keys().insert(leaf.own_key(), link),
            final(self).leaves() == old(self).leaves().insert(leaf.own_key(), *leaf),
            final(self).slots@.len() == old(self).slots@.len(),
            leaves_kept(old(self).slots@, final(self).slots@),
            no_new_leaves(old(self).slots@, final(self).slots@, link.slot() as int),
            vacant_kept(
                old(self).slots@,
                final(self).slots@,
                Set::empty().insert(link.slot() as int),
            ),
            final(self).slots@[link.slot() as int] == Slot::<P, L>::Leaf(leaf),
            final(self).root == old(self).root,
            nodes_of(final(self).slots@) == nodes_of(old(self).slots@),
    {
        let ghost before = *self;
        let ghost o = self.outline();
        let ghost key = leaf.own_key();
        let slot: usize = link.slot_number();
        self.slots[slot] = Slot::Leaf(leaf);
        let ghost filled = o.with_heap(o.heap.update(slot as int, Cell::Leaf { key }));
        proof {
            shape::lemma_vacant_unused(o, slot as int);
            shape::lemma_unused(o, slot as int, Cell::Leaf { key });
            assert(cells_of(self.slots@) =~= filled.heap);
            assert(o.node_ok(q));
        }
        let i: usize = node.slot_number();
        match &mut self.slots[i] {
            Slot::Inner(inner) => {
                inner.set_exact_leaf(link);
            },
            _ => vstd::pervasive::unreached(),
        }
        proof {
            shape::lemma_put_exact(filled, q, o.node(q)->prefix, link);
            let n = filled.put_exact(q, link);
            self.shape@ = Shape { at: n.at, keys: n.keys, height: n.height };
            assert(cells_of(self.slots@) =~= n.heap);
            assert(nodes_of(self.slots@) =~= nodes_of(before.slots@));
            assert(self.outline() == n);
            before.lemma_leaves_inserted(self, key, link, *leaf);
        }
    }

    /// The links that are left decide the leaves.
    proof fn lemma_leaves_removed(&self, n: &Self, key: Seq<u8>, slot: int)
        requires
            self.wf(),
            self.keys().contains_key(key),
            slot == self.keys()[key].slot(),
            n.keys() == self.keys().remove(key),
            self.slots@.len() <= n.slots@.len(),
            forall|i: int|
                0 <= i < self.slots@.len() && i != slot && self.slots@[i] is Leaf
                    ==> #[trigger] n.slots@[i] == self.slots@[i],
        ensures
            n.leaves() == self.leaves().remove(key),
    {
        assert(self.outline().keyed(key));
        assert forall|k: Seq<u8>|
            self.keys().contains_key(k) && k != key implies #[trigger] n.leaf_at(self.keys()[k])
            == self.leaf_at(self.keys()[k]) by {
            assert(self.outline().keyed(k));
        }
        assert(n.leaves() =~= self.leaves().remove(key));
    }

    /// Takes the leaf out of a slot that the tree does not use any more.
    fn take_leaf(&mut self, link: P) -> (leaf: Box<L>)
        requires
            old(self).wf(),
            old(self).holds_leaf(link),
            old(self).outline().unused(link.slot() as int),
        ensures
            final(self).wf(),
            final(self).root == old(self).root,
            final(self).shape == old(self).shape,
            *leaf == old(self).leaf_at(link),
            final(self).slots@ == old(self).slots@.update(link.slot() as int, Slot::Vacant),
    {
        let ghost o = self.outline();
        let i: usize = link.slot_number();
        let mut taken: Slot<P, L> = Slot::Vacant;
        std::mem::swap(&mut self.slots[i], &mut taken);
        proof {
            shape::lemma_unused(o, i as int, Cell::Vacant);
            assert(cells_of(self.slots@) =~= o.heap.update(i as int, Cell::Vacant));
        }
        match taken {
            Slot::Leaf(leaf) => leaf,
            _ => vstd::pervasive::unreached(),
        }
    }

    /// Removes the leaf of `key`, which stands at `spot`.
    pub fn remove_at(&mut self, Ghost(key): Ghost<Seq<u8>>, spot: Spot<P>) -> (leaf: Box<L>)
        requires
            old(self).wf(),
            old(self).spot_ok(key, spot),
            old(self).keys().contains_key(key),
        ensures
            final(self).wf(),
            *leaf == old(self).leaves()[key],
            final(self).keys() == old(self).keys().remove(key),
            final(self).leaves() == old(self).leaves().remove(key),
            final(self).slots@.len() == old(self).slots@.len(),
            forall|i: int|
                0 <= i < old(self).slots@.len() && i != old(self).keys()[key].slot() && old(
                    self,
                ).slots@[i] is Leaf ==> #[trigger] final(self).slots@[i] == old(self).slots@[i],
            vacant_kept(old(self).slots@, final(self).slots@, Set::empty()),
            final(self).slots@[old(self).keys()[key].slot() as int] is Vacant,
            if spot matches Spot::Leaf { place: Place::Root, depth, leaf: gone } {
                final(self).root.absent()
            } else {
                final(self).root == old(self).root
            },
            nodes_of(final(self).slots@) == nodes_of(old(self).slots@),
    {
        let ghost before = *self;
        let ghost o = self.outline();
        let ghost link = self.keys()[key];
        proof {
            self.lemma_spot(key, spot);
            assert(o.keyed(key));
        }
        let leaf = match spot {
            Spot::Leaf { place, depth, leaf } => {
                let ghost q = key.take(depth as int);
                proof {
                    assert(o.node_ok(q));
                    if let Place::Child { node, byte, path } = place {
                        assert(o.node_ok(path@));
                    }
                }
                let none = self.clear_link(&place);
                proof {
                    shape::lemma_put_leaf(o, place.home(), q, none, key);
                    let n = o.put_leaf(place.home(), q, none, key);
                    self.shape@ = Shape { at: n.at, keys: n.keys, height: n.height };
                    assert(self.outline() == n);
                    assert(n.keys == o.keys.remove(key));
                    assert(n.unused(leaf.slot() as int)) by {
                        assert forall|p: Seq<u8>| n.at.contains_key(p) implies (
                        #[trigger] n.at[p]).slot() != leaf.slot() by {
                            assert(o.node_ok(p));
                            assert(n.node_ok(p));
                        }
                        assert forall|k: Seq<u8>| n.keys.contains_key(k) implies (
                        #[trigger] n.keys[k]).slot() != leaf.slot() by {
                            assert(o.keyed(k));
                        }
                    }
                }
                self.take_leaf(leaf)
            },
            Spot::Exact { place, depth, node, leaf } => {
                let ghost q = key.take(depth as int);
                proof {
                    assert(o.node_ok(q));
                }
                let none: P = P::nil();
                let i: usize = node.slot_number();
                match &mut self.slots[i] {
                    Slot::Inner(inner) => {
                        inner.set_exact_leaf(none);
                    },
                    _ => vstd::pervasive::unreached(),
                }
                proof {
                    shape::lemma_put_exact(o, q, o.node(q)->prefix, none);
                    let n = o.put_exact(q, none);
                    self.shape@ = Shape { at: n.at, keys: n.keys, height: n.height };
                    assert(cells_of(self.slots@) =~= n.heap);
                    assert(nodes_of(self.slots@) =~= nodes_of(before.slots@));
                    assert(self.outline() == n);
                    assert(n.unused(leaf.slot() as int)) by {
                        assert forall|p: Seq<u8>| n.at.contains_key(p) implies (
                        #[trigger] n.at[p]).slot() != leaf.slot() by {
                            assert(o.node_ok(p));
                            assert(n.node_ok(p));
                        }
                        assert forall|k: Seq<u8>| n.keys.contains_key(k) implies (
                        #[trigger] n.keys[k]).slot() != leaf.slot() by {
                            assert(o.keyed(k));
                        }
                    }
                }
                self.take_leaf(leaf)
            },
            _ => vstd::pervasive::unreached(),
        };
        proof {
            assert(nodes_of(self.slots@) =~= nodes_of(before.slots@));
            before.lemma_leaves_removed(self, key, link.slot() as int);
        }
        leaf
    }

    /// Puts a new leaf in front of the leaf of its key, which stands at `spot` and stays in its
    /// slot.
    pub fn supersede_at(&mut self, spot: Spot<P>, link: P, leaf: Box<L>)
        requires
            old(self).wf(),
            old(self).spot_ok(leaf.own_key(), spot),
            old(self).keys().contains_key(leaf.own_key()),
            old(self).leaf_slot_free(link),
        ensures
            final(self).wf(),
            final(self).keys() == old(self).keys().insert(leaf.own_key(), link),
            final(self).leaves() == old(self).leaves().insert(leaf.own_key(), *leaf),
            final(self).slots@.len() == old(self).slots@.len(),
            leaves_kept(old(self).slots@, final(self).slots@),
            no_new_leaves(old(self).slots@, final(self).slots@, link.slot() as int),
            vacant_kept(
                old(self).slots@,
                final(self).slots@,
                Set::empty().insert(link.slot() as int),
            ),
            final(self).slots@[link.slot() as int] == Slot::<P, L>::Leaf(leaf),
            final(self).root == (if spot matches Spot::Leaf { place: Place::Root, depth, leaf: there } {
                link
            } else {
                old(self).root
            }),
            nodes_of(final(self).slots@) == nodes_of(old(self).slots@),
    {
        let ghost before = *self;
        let ghost o = self.outline();
        let ghost key = leaf.own_key();
        proof {
            self.lemma_spot(key, spot);
            assert(o.keyed(key));
        }
        match spot {
            Spot::Leaf { place, depth, leaf: _ } => {
                let ghost q = key.take(depth as int);
                let slot: usize = link.slot_number();
                self.slots[slot] = Slot::Leaf(leaf);
                let ghost filled = o.with_heap(o.heap.update(slot as int, Cell::Leaf { key }));
                proof {
                    assert(o.node_ok(q));
                    shape::lemma_vacant_unused(o, slot as int);
                    shape::lemma_unused(o, slot as int, Cell::Leaf { key });
                    assert(cells_of(self.slots@) =~= filled.heap);
                    assert(nodes_of(self.slots@) =~= nodes_of(before.slots@));
                    assert(filled.node_ok(q));
                    if let Place::Child { node, byte, path } = place {
                        assert(o.node_ok(path@));
                        assert(filled.node_ok(path@));
                        assert(o.kid_ok(path@, o.node(path@)->prefix, o.node(path@)->kids, byte));
                        assert(self.slots@[node.slot() as int]
                            == before.slots@[node.slot() as int]);
                    }
                }
                self.set_link(&place, link);
                proof {
                    shape::lemma_put_leaf(filled, place.home(), q, link, key);
                    let n = filled.put_leaf(place.home(), q, link, key);
                    self.shape@ = Shape { at: n.at, keys: n.keys, height: n.height };
                    assert(self.outline() == n);
                    assert(n.keys =~= o.keys.insert(key, link));
                    before.lemma_leaves_inserted(self, key, link, *leaf);
                }
            },
            Spot::Exact { place: _, depth, node, leaf: _ } => {
                self.set_exact(node, Ghost(key.take(depth as int)), link, leaf);
            },
            _ => vstd::pervasive::unreached(),
        }
    }

    /// Puts a new inner node above the node `below` at `q`. The new node has the prefix `stem`,
    /// and `below` as its child for `byte`.
    fn wrap(
        &mut self,
        place: &Place<P>,
        Ghost(q): Ghost<Seq<u8>>,
        below: P,
        link: P,
        stem: &[u8],
        byte: u8,
    )
        requires
            old(self).wf(),
            old(self).place_ok(*place, q),
            old(self).outline().at.contains_key(q),
            old(self).outline().at[q] == below,
            stem@.len() <= node::MAX_PREFIX_LEN,
            match old(self).outline().node(q) {
                Cell::Vacant => false,
                Cell::Leaf { key } => order::extends(key, shape::child_path(q, stem@, byte)),
                Cell::Inner { prefix, .. } => order::extends(prefix, stem@.push(byte)),
            },
            old(self).inner_slot_free(link),
        ensures
            final(self).wf(),
            final(self).keys() == old(self).keys(),
            final(self).leaves() == old(self).leaves(),
            final(self).slots@.len() == old(self).slots@.len(),
            leaves_kept(old(self).slots@, final(self).slots@),
            no_new_leaves(old(self).slots@, final(self).slots@, -1),
            vacant_kept(
                old(self).slots@,
                final(self).slots@,
                Set::empty().insert(link.slot() as int),
            ),
            final(self).outline().at == old(self).outline().at.insert(q, link).insert(
                shape::child_path(q, stem@, byte),
                below,
            ),
            final(self).place_ok(*place, q),
            final(self).slots@[link.slot() as int] matches Slot::Inner(inner) && {
                &&& !inner.full()
                &&& inner.prefix() == stem@
                &&& inner.exact().absent()
                &&& inner.kids() == Map::<u8, P>::empty().insert(byte, below)
            },
            below.leaf() ==> final(self).slots@[below.slot() as int] == old(
                self,
            ).slots@[below.slot() as int],
            final(self).root == place.root_with(old(self).root, link),
            nodes_of(final(self).slots@) == nodes_of(old(self).slots@).insert(
                link.slot() as int,
                NodeState { layout: NodeType::Node4, word: 0 },
            ),
    {
        let ghost before = *self;
        let ghost o = self.outline();
        let ghost child = shape::child_path(q, stem@, byte);
        proof {
            assert(o.node_ok(q));
            shape::lemma_child_path(q, stem@, byte);
            if let Place::Child { node, byte, path } = place {
                assert(o.node_ok(path@));
                shape::lemma_child_path(path@, o.node(path@)->prefix, *byte);
                assert(o.apart(path@, q));
                assert(o.kid_ok(path@, o.node(path@)->prefix, o.node(path@)->kids, *byte));
            }
        }
        let mut new_node: InnerNode<P> = InnerNode::new4(stem);
        new_node.insert_child_into_node(byte, below);
        let ghost none = new_node.exact();
        let ghost new_cell = Cell::Inner {
            prefix: stem@,
            exact: none,
            kids: Map::<u8, P>::empty().insert(byte, below),
        };
        let slot: usize = link.slot_number();
        self.slots[slot] = Slot::Inner(new_node);
        let ghost filled = o.with_heap(o.heap.update(slot as int, new_cell));
        proof {
            shape::lemma_vacant_unused(o, slot as int);
            shape::lemma_unused(o, slot as int, new_cell);
            assert(cells_of(self.slots@) =~= filled.heap);
            assert(filled.node(q) == o.node(q));
        }
        if !below.has_leaf_tag() {
            let i: usize = below.slot_number();
            match &mut self.slots[i] {
                Slot::Inner(inner) => {
                    inner.trim_prefix(stem.len() + 1);
                },
                _ => vstd::pervasive::unreached(),
            }
        }
        let ghost trimmed = filled.heap.update(
            below.slot() as int,
            shape::trimmed_cell(filled.node(q), stem@.len() as int + 1),
        );
        proof {
            assert(cells_of(self.slots@) =~= trimmed);
            assert(nodes_of(self.slots@) =~= nodes_of(before.slots@).insert(
                slot as int,
                NodeState { layout: NodeType::Node4, word: 0 },
            ));
            if let Place::Child { node, byte, path } = place {
                assert(self.slots@[node.slot() as int] == before.slots@[node.slot() as int]);
            }
        }
        self.set_link(place, link);
        proof {
            shape::lemma_wrap(filled, place.home(), q, link, stem@, byte, none);
            let n = filled.wrapped(place.home(), q, link, stem@, byte);
            self.shape@ = Shape { at: n.at, keys: n.keys, height: n.height };
            assert(self.outline() == n);
            before.lemma_leaves_same(self);
            if let Place::Child { node, byte, path } = place {
                assert(n.at[path@] == o.at[path@]) by {
                    assert(path@.len() < q.len() < child.len());
                }
            }
        }
    }

    /// Puts a new inner node in place of the leaf `below` at `q`. The new node has the prefix
    /// `stem`, behind which the key of the leaf ends, and the leaf as its exact leaf.
    fn wrap_exact(
        &mut self,
        place: &Place<P>,
        Ghost(q): Ghost<Seq<u8>>,
        below: P,
        link: P,
        stem: &[u8],
    )
        requires
            old(self).wf(),
            old(self).place_ok(*place, q),
            old(self).outline().at.contains_key(q),
            old(self).outline().at[q] == below,
            stem@.len() <= node::MAX_PREFIX_LEN,
            old(self).outline().node(q) == (Cell::<P>::Leaf { key: q + stem@ }),
            old(self).inner_slot_free(link),
        ensures
            final(self).wf(),
            final(self).keys() == old(self).keys(),
            final(self).leaves() == old(self).leaves(),
            final(self).slots@.len() == old(self).slots@.len(),
            leaves_kept(old(self).slots@, final(self).slots@),
            no_new_leaves(old(self).slots@, final(self).slots@, -1),
            vacant_kept(
                old(self).slots@,
                final(self).slots@,
                Set::empty().insert(link.slot() as int),
            ),
            final(self).outline().at == old(self).outline().at.insert(q, link),
            final(self).place_ok(*place, q),
            final(self).slots@[link.slot() as int] matches Slot::Inner(inner) && {
                &&& !inner.full()
                &&& inner.prefix() == stem@
                &&& inner.exact() == below
                &&& inner.kids() == Map::<u8, P>::empty()
            },
            final(self).root == place.root_with(old(self).root, link),
            nodes_of(final(self).slots@) == nodes_of(old(self).slots@).insert(
                link.slot() as int,
                NodeState { layout: NodeType::Node4, word: 0 },
            ),
    {
        let ghost before = *self;
        let ghost o = self.outline();
        proof {
            assert(o.node_ok(q));
            if let Place::Child { node, byte, path } = place {
                assert(o.node_ok(path@));
                shape::lemma_child_path(path@, o.node(path@)->prefix, *byte);
                assert(o.kid_ok(path@, o.node(path@)->prefix, o.node(path@)->kids, *byte));
            }
        }
        let mut new_node: InnerNode<P> = InnerNode::new4(stem);
        new_node.set_exact_leaf(below);
        let ghost new_cell = Cell::Inner {
            prefix: stem@,
            exact: below,
            kids: Map::<u8, P>::empty(),
        };
        let slot: usize = link.slot_number();
        self.slots[slot] = Slot::Inner(new_node);
        let ghost filled = o.with_heap(o.heap.update(slot as int, new_cell));
        proof {
            shape::lemma_vacant_unused(o, slot as int);
            shape::lemma_unused(o, slot as int, new_cell);
            assert(cells_of(self.slots@) =~= filled.heap);
            assert(nodes_of(self.slots@) =~= nodes_of(before.slots@).insert(
                slot as int,
                NodeState { layout: NodeType::Node4, word: 0 },
            ));
            assert(filled.node(q) == o.node(q));
            if let Place::Child { node, byte, path } = place {
                assert(self.slots@[node.slot() as int] == before.slots@[node.slot() as int]);
            }
        }
        self.set_link(place, link);
        proof {
            shape::lemma_wrap_exact(filled, place.home(), q, link, stem@);
            let n = filled.moved(place.home(), q, link);
            self.shape@ = Shape { at: n.at, keys: n.keys, height: n.height };
            assert(self.outline() == n);
            before.lemma_leaves_same(self);
        }
    }

    /// Moves the inner node at `q` to a node of the next larger layout, and gives back the old
    /// one, marked as obsolete.
    fn grow(&mut self, place: &Place<P>, Ghost(q): Ghost<Seq<u8>>, node: P, link: P) -> (obsolete:
        InnerNode<P>)
        requires
            old(self).wf(),
            old(self).place_ok(*place, q),
            old(self).outline().at.contains_key(q),
            old(self).outline().at[q] == node,
            old(self).slots@[node.slot() as int] matches Slot::Inner(inner) && inner.full(),
            old(self).inner_slot_free(link),
        ensures
            final(self).wf(),
            final(self).keys() == old(self).keys(),
            final(self).leaves() == old(self).leaves(),
            final(self).slots@.len() == old(self).slots@.len(),
            leaves_kept(old(self).slots@, final(self).slots@),
            no_new_leaves(old(self).slots@, final(self).slots@, -1),
            vacant_kept(
                old(self).slots@,
                final(self).slots@,
                Set::empty().insert(link.slot() as int),
            ),
            final(self).slots@[node.slot() as int] is Vacant,
            final(self).outline().at == old(self).outline().at.insert(q, link),
            final(self).outline().node(q) == old(self).outline().node(q),
            final(self).place_ok(*place, q),
            final(self).slots@[link.slot() as int] matches Slot::Inner(inner) && !inner.full(),
            latch::obsolete(obsolete.head().latch@),
            obsolete.head().latch@ == nodes_of(old(self).slots@)[node.slot() as int].word
                | latch::OBSOLETE_BIT,
            final(self).root == place.root_with(old(self).root, link),
            nodes_of(final(self).slots@) == nodes_of(old(self).slots@).remove(
                node.slot() as int,
            ).insert(
                link.slot() as int,
                NodeState {
                    layout: next_layout(nodes_of(old(self).slots@)[node.slot() as int].layout),
                    word: 0,
                },
            ),
    {
        let ghost before = *self;
        let ghost o = self.outline();
        proof {
            assert(o.node_ok(q));
            if let Place::Child { node: above, byte, path } = place {
                assert(o.node_ok(path@));
                shape::lemma_child_path(path@, o.node(path@)->prefix, *byte);
                assert(o.apart(path@, q));
                assert(o.kid_ok(path@, o.node(path@)->prefix, o.node(path@)->kids, *byte));
            }
        }
        proof {
            (self.slots@[node.slot() as int]->Inner_0).lemma_facts();
        }
        let new_node = self.inner(node).grow_node();
        proof {
            new_node.lemma_facts();
        }
        let slot: usize = link.slot_number();
        self.slots[slot] = Slot::Inner(new_node);
        let ghost filled = o.with_heap(o.heap.update(slot as int, o.node(q)));
        proof {
            shape::lemma_vacant_unused(o, slot as int);
            shape::lemma_unused(o, slot as int, o.node(q));
            assert(cells_of(self.slots@) =~= filled.heap);
            assert(nodes_of(self.slots@) =~= nodes_of(before.slots@).insert(
                slot as int,
                NodeState {
                    layout: next_layout(nodes_of(before.slots@)[node.slot() as int].layout),
                    word: 0,
                },
            ));
            assert(filled.node(q) == o.node(q));
            if let Place::Child { node: above, byte, path } = place {
                assert(self.slots@[above.slot() as int] == before.slots@[above.slot() as int]);
            }
        }
        self.set_link(place, link);
        let ghost moved = filled.moved(place.home(), q, link);
        proof {
            shape::lemma_move_inner(filled, place.home(), q, link);
            assert(cells_of(self.slots@) == moved.heap);
        }
        let i: usize = node.slot_number();
        let ghost linked = self.slots@;
        assert(nodes_of(linked)[i as int] == nodes_of(before.slots@)[i as int]);
        let mut taken: Slot<P, L> = Slot::Vacant;
        std::mem::swap(&mut self.slots[i], &mut taken);
        proof {
            shape::lemma_unused(moved, i as int, Cell::Vacant);
            let n = moved.with_heap(moved.heap.update(i as int, Cell::Vacant));
            self.shape@ = Shape { at: n.at, keys: n.keys, height: n.height };
            assert(cells_of(self.slots@) =~= n.heap);
            assert(nodes_of(self.slots@) =~= nodes_of(linked).remove(i as int));
            assert(nodes_of(self.slots@) =~= nodes_of(before.slots@).remove(i as int).insert(
                slot as int,
                NodeState {
                    layout: next_layout(nodes_of(before.slots@)[i as int].layout),
                    word: 0,
                },
            ));
            assert(self.outline() == n);
            before.lemma_leaves_same(self);
        }
        match taken {
            Slot::Inner(inner) => {
                let mut obsolete = inner;
                obsolete.mark_obsolete();
                obsolete
            },
            _ => vstd::pervasive::unreached(),
        }
    }

    /// The new inner nodes that the insertion of `key` at `spot` takes.
    pub open spec fn need(&self, key: Seq<u8>, spot: Spot<P>) -> Need {
        match spot {
            Spot::Leaf { place, depth, leaf } => {
                let own = self.leaf_at(leaf).own_key();
                if own == key {
                    Need::Nothing
                } else {
                    Need::Chain(
                        chain_len(
                            order::common_len(own.skip(depth as int), key.skip(depth as int)) as nat,
                        ) as usize,
                    )
                }
            },
            Spot::Split { place, depth, node, matched } => Need::Chain(1),
            Spot::Gap { place, depth, node, byte } => {
                let inner = self.slots@[node.slot() as int]->Inner_0;
                if inner.full() {
                    Need::Growth(next_layout(inner.head().node_type))
                } else {
                    Need::Nothing
                }
            },
            _ => Need::Nothing,
        }
    }

    /// Computes the new inner nodes that the insertion of `key` at `spot` takes.
    pub fn nodes_needed(&self, key: &[u8], spot: &Spot<P>) -> (need: Need)
        requires
            self.wf(),
            self.spot_ok(key@, *spot),
        ensures
            need == self.need(key@, *spot),
            need matches Need::Chain(n) ==> 1 <= n <= key@.len() / 17 + 1,
    {
        proof {
            self.lemma_spot(key@, *spot);
        }
        match spot {
            Spot::Leaf { place: _, depth, leaf } => {
                let own = self.leaf(*leaf).key_slice();
                if same_bytes(own, key) {
                    Need::Nothing
                } else {
                    let own_rest = &own[*depth..own.len()];
                    let rest = &key[*depth..key.len()];
                    assert(own_rest@ =~= own@.skip(*depth as int));
                    assert(rest@ =~= key@.skip(*depth as int));
                    let common: usize = longest_common_prefix(own_rest, rest);
                    Need::Chain(common / 17 + 1)
                }
            },
            Spot::Split { place: _, depth: _, node: _, matched: _ } => Need::Chain(1),
            Spot::Gap { place: _, depth, node, byte: _ } => {
                proof {
                    assert(self.outline().node_ok(key@.take(*depth as int)));
                }
                let inner = self.inner(*node);
                if inner.is_node_full() {
                    proof {
                        inner.lemma_facts();
                    }
                    match inner.header().node_type {
                        NodeType::Node4 => Need::Growth(NodeType::Node16),
                        NodeType::Node16 => Need::Growth(NodeType::Node48),
                        NodeType::Node48 => Need::Growth(NodeType::Node256),
                        NodeType::Node256 => Need::Growth(NodeType::Node256),
                    }
                } else {
                    Need::Nothing
                }
            },
            _ => Need::Nothing,
        }
    }

    /// Attaches a new leaf to the node at `depth`, which has room and nothing for the key.
    fn attach(&mut self, depth: usize, node: P, link: P, leaf: Box<L>)
        requires
            old(self).wf(),
            depth <= leaf.own_key().len(),
            old(self).outline().at.contains_key(leaf.own_key().take(depth as int)),
            old(self).outline().at[leaf.own_key().take(depth as int)] == node,
            old(self).slots@[node.slot() as int] matches Slot::Inner(inner) && {
                let stem = leaf.own_key().take(depth as int) + inner.prefix();
                &&& !inner.full()
                &&& order::extends(leaf.own_key(), stem)
                &&& leaf.own_key().len() > stem.len() ==> !inner.kids().contains_key(
                    leaf.own_key()[stem.len() as int],
                )
            },
            old(self).leaf_slot_free(link),
        ensures
            final(self).wf(),
            final(self).keys() == old(self).keys().insert(leaf.own_key(), link),
            final(self).leaves() == old(self).leaves().insert(leaf.own_key(), *leaf),
            final(self).slots@.len() == old(self).slots@.len(),
            leaves_kept(old(self).slots@, final(self).slots@),
            no_new_leaves(old(self).slots@, final(self).slots@, link.slot() as int),
            vacant_kept(
                old(self).slots@,
                final(self).slots@,
                Set::empty().insert(link.slot() as int),
            ),
            final(self).slots@[link.slot() as int] == Slot::<P, L>::Leaf(leaf),
            final(self).root == old(self).root,
            nodes_of(final(self).slots@) == nodes_of(old(self).slots@),
    {
        let ghost key = leaf.own_key();
        let ghost q = key.take(depth as int);
        let ghost o = self.outline();
        proof {
            assert(o.node_ok(q));
        }
        let inner = self.inner(node);
        let stem_len: usize = inner.header().prefix_slice().len();
        let key_slice = leaf.key_slice();
        let key_len: usize = key_slice.len();
        proof {
            assert(o.node(q) == cell_of(self.slots@[node.slot() as int]));
        }
        if depth + stem_len == key_len {
            assert(key =~= q + o.node(q)->prefix);
            self.set_exact(node, Ghost(q), link, leaf);
        } else {
            let byte: u8 = key_slice[depth + stem_len];
            let place = Place::Child { node, byte, path: Ghost(q) };
            proof {
                let prefix = o.node(q)->prefix;
                assert(o.kid_ok(q, prefix, o.node(q)->kids, byte));
                shape::lemma_through_child(key, q, prefix);
            }
            self.hang_leaf(
                &place,
                Ghost(shape::child_path(q, o.node(q)->prefix, byte)),
                link,
                leaf,
            );
        }
    }

    /// The links lead to different slots, all free for inner nodes, none of them that of `link`.
    pub open spec fn fresh_ok(&self, fresh: Seq<P>, link: P) -> bool {
        &&& forall|j: int| 0 <= j < fresh.len() ==> #[trigger] self.inner_slot_free(fresh[j])
        &&& forall|j: int| 0 <= j < fresh.len() ==> (#[trigger] fresh[j]).slot() != link.slot()
        &&& forall|j: int, k: int|
            0 <= j < k < fresh.len() ==> (#[trigger] fresh[j]).slot() != (
            #[trigger] fresh[k]).slot()
    }

    /// Spells out what the key of the leaf at `spot` and a new key have in common, with the leaf
    /// behind it. The first of the fresh links is that of the deepest node, and the last one that
    /// of the first node on the way. Returns the depth and the link of the deepest node, which
    /// has room for the new key.
    fn create_prefix_chain(
        &mut self,
        key: &[u8],
        place: Place<P>,
        depth: usize,
        below: P,
        fresh: &Vec<P>,
        Ghost(link): Ghost<P>,
    ) -> (r: (usize, P))
        requires
            old(self).wf(),
            old(self).spot_ok(key@, Spot::Leaf { place, depth, leaf: below }),
            old(self).leaf_at(below).own_key() != key@,
            fresh@.len() == old(self).need(
                key@,
                Spot::Leaf { place, depth, leaf: below },
            ).count(),
            old(self).fresh_ok(fresh@, link),
            old(self).leaf_slot_free(link),
        ensures
            final(self).wf(),
            final(self).keys() == old(self).keys(),
            final(self).leaves() == old(self).leaves(),
            final(self).slots@.len() == old(self).slots@.len(),
            leaves_kept(old(self).slots@, final(self).slots@),
            no_new_leaves(old(self).slots@, final(self).slots@, -1),
            vacant_kept(old(self).slots@, final(self).slots@, slots_of(fresh@)),
            final(self).leaf_slot_free(link),
            r.0 <= key@.len(),
            final(self).outline().at.contains_key(key@.take(r.0 as int)),
            final(self).outline().at[key@.take(r.0 as int)] == r.1,
            final(self).slots@[r.1.slot() as int] matches Slot::Inner(inner) && {
                let stem = key@.take(r.0 as int) + inner.prefix();
                &&& !inner.full()
                &&& order::extends(key@, stem)
                &&& key@.len() > stem.len() ==> !inner.kids().contains_key(
                    key@[stem.len() as int],
                )
            },
            r.1 == fresh@[0],
            final(self).outline().at.contains_key(key@.take(depth as int)),
            final(self).outline().at[key@.take(depth as int)] == fresh@.last(),
            final(self).root == place.root_with(old(self).root, fresh@.last()),
            nodes_of(final(self).slots@) == with_fresh(
                nodes_of(old(self).slots@),
                fresh@,
                NodeType::Node4,
            ),
    {
        let ghost before = *self;
        let ghost spot0 = Spot::Leaf { place, depth, leaf: below };
        let ghost own_key = self.leaf_at(below).own_key();
        proof {
            self.lemma_spot(key@, spot0);
            assert(self.outline().node_ok(key@.take(depth as int)));
        }
        let key_len: usize = key.len();
        let own = self.leaf(below).key_slice();
        let own_len: usize = own.len();
        let own_rest = &own[depth..own_len];
        let rest = &key[depth..key_len];
        assert(own_rest@ =~= own@.skip(depth as int));
        assert(rest@ =~= key@.skip(depth as int));
        let common: usize = longest_common_prefix(own_rest, rest);
        // The two keys agree up to here.
        let fork: usize = depth + common;
        let ends: bool = own_len == fork;
        let own_byte: u8 = if ends {
            0
        } else {
            own[fork]
        };
        proof {
            assert forall|i: int| 0 <= i < fork implies #[trigger] own_key[i] == key@[i] by {
                if i < depth {
                    assert(key@.take(depth as int)[i] == own_key[i]);
                } else {
                    assert(own_rest@[i - depth] == rest@[i - depth]);
                }
            }
            if fork < own_len && fork < key_len {
                assert(own_rest@[common as int] != rest@[common as int]);
            }
            if fork == own_len && fork == key_len {
                assert(own_key =~= key@);
            }
        }
        let ghost top = place;
        let ghost start = depth;
        let mut place: Place<P> = place;
        let mut depth: usize = depth;
        let mut left: usize = fresh.len();
        proof {
            let none_taken = fresh@.skip(left as int);
            assert(vacant_kept(before.slots@, self.slots@, slots_of(none_taken)));
            assert(nodes_of(self.slots@) =~= with_fresh(
                nodes_of(before.slots@),
                none_taken,
                NodeType::Node4,
            ));
        }
        while fork - depth > MAX_PREFIX_LEN
            invariant
                self.wf(),
                before.wf(),
                self.keys() == before.keys(),
                self.leaves() == before.leaves(),
                self.slots@.len() == before.slots@.len(),
                leaves_kept(before.slots@, self.slots@),
                no_new_leaves(before.slots@, self.slots@, -1),
                vacant_kept(before.slots@, self.slots@, slots_of(fresh@.skip(left as int))),
                nodes_of(self.slots@) == with_fresh(
                    nodes_of(before.slots@),
                    fresh@.skip(left as int),
                    NodeType::Node4,
                ),
                left == fresh@.len() ==> {
                    &&& self.root == before.root
                    &&& place == top
                    &&& depth == start
                },
                left < fresh@.len() ==> {
                    &&& self.root == top.root_with(before.root, fresh@.last())
                    &&& !(place is Root)
                    &&& start < depth
                    &&& self.outline().at.contains_key(key@.take(start as int))
                    &&& self.outline().at[key@.take(start as int)] == fresh@.last()
                },
                start <= depth,
                before.fresh_ok(fresh@, link),
                before.leaf_slot_free(link),
                self.place_ok(place, key@.take(depth as int)),
                self.outline().at.contains_key(key@.take(depth as int)),
                self.outline().at[key@.take(depth as int)] == below,
                self.outline().node(key@.take(depth as int)) == (Cell::<P>::Leaf { key: own_key }),
                depth <= fork <= key_len == key@.len(),
                fork <= own_key.len(),
                forall|j: int| 0 <= j < fork ==> #[trigger] own_key[j] == key@[j],
                0 < left <= fresh@.len(),
                chain_len((fork - depth) as nat) == left,
            decreases fork - depth,
        {
            let ghost q = key@.take(depth as int);
            let ghost prev = *self;
            let stem = &key[depth..depth + MAX_PREFIX_LEN];
            let byte: u8 = key[depth + MAX_PREFIX_LEN];
            let node: P = fresh[left - 1];
            proof {
                assert((fork - depth) / 17 >= 1);
                assert(before.inner_slot_free(fresh@[left - 1]));
                lemma_slots_of_more(fresh@, left as int);
                assert(self.outline().node_ok(q));
                let child = shape::child_path(q, stem@, byte);
                assert(child =~= key@.take(depth + MAX_PREFIX_LEN + 1));
                assert(order::extends(own_key, child)) by {
                    assert forall|j: int| 0 <= j < child.len() implies #[trigger] child[j]
                        == own_key[j] by {
                        assert(own_key[j] == key@[j]);
                    }
                }
            }
            self.wrap(&place, Ghost(q), below, node, stem, byte);
            place = Place::Child { node, byte, path: Ghost(q) };
            depth = depth + MAX_PREFIX_LEN + 1;
            proof {
                assert(nodes_of(self.slots@) =~= with_fresh(
                    nodes_of(before.slots@),
                    fresh@.skip(left - 1),
                    NodeType::Node4,
                ));
                assert(q != key@.take(depth as int)) by {
                    assert(q.len() < key@.take(depth as int).len());
                }
                if left < fresh@.len() {
                    assert(key@.take(start as int) != q) by {
                        assert(key@.take(start as int).len() < q.len());
                    }
                    assert(key@.take(start as int) != key@.take(depth as int)) by {
                        assert(key@.take(start as int).len() < key@.take(depth as int).len());
                    }
                }
                assert(self.outline().node_ok(q));
                assert(shape::child_path(q, stem@, byte) == key@.take(depth as int));
                assert(self.outline().node_ok(key@.take(depth as int)));
                assert((fork - depth + 17) / 17 == (fork - depth) / 17 + 1);
            }
            left = left - 1;
        }
        let ghost q = key@.take(depth as int);
        let ghost prev = *self;
        let stem = &key[depth..fork];
        let node: P = fresh[0];
        proof {
            assert(left == 1);
            assert(before.inner_slot_free(fresh@[0]));
            lemma_slots_of_more(fresh@, 1);
            assert(fresh@.skip(0) =~= fresh@);
            assert(self.outline().node_ok(q));
            assert(q + stem@ =~= key@.take(fork as int));
        }
        if ends {
            assert(own_key =~= q + stem@);
            self.wrap_exact(&place, Ghost(q), below, node, stem);
        } else {
            proof {
                let child = shape::child_path(q, stem@, own_byte);
                assert(order::extends(own_key, child)) by {
                    assert forall|j: int| 0 <= j < child.len() implies #[trigger] child[j]
                        == own_key[j] by {
                        if j < fork {
                            assert(own_key[j] == key@[j]);
                        }
                    }
                }
            }
            self.wrap(&place, Ghost(q), below, node, stem, own_byte);
        }
        proof {
            assert(nodes_of(self.slots@) =~= with_fresh(
                nodes_of(before.slots@),
                fresh@,
                NodeType::Node4,
            ));
            if start < depth {
                assert(key@.take(start as int).len() < q.len());
            }
        }
        (depth, node)
    }

    /// The search ends at the root, and an insertion there writes the root: the root leads
    /// nowhere or to a leaf, or it leads to a node that has to make room.
    pub open spec fn writes_root(&self, spot: Spot<P>) -> bool {
        match spot {
            Spot::Nothing => true,
            Spot::Leaf { place, depth, leaf } => place is Root,
            Spot::Split { place, depth, node, matched } => place is Root,
            Spot::Exact { place, depth, node, leaf } => false,
            Spot::Gap { place, depth, node, byte } => place is Root && (
            self.slots@[node.slot() as int]->Inner_0).full(),
        }
    }

    /// The root after a leaf with a new key was inserted at `spot` behind `link`, with new nodes
    /// behind the fresh links.
    pub open spec fn root_after(&self, key: Seq<u8>, spot: Spot<P>, link: P, fresh: Seq<P>) -> P {
        if !self.writes_root(spot) {
            self.root
        } else if spot is Nothing {
            link
        } else {
            fresh.last()
        }
    }

    /// The nodes after a leaf with a new key was inserted at `spot`: the new ones are there, and a
    /// node that made room for a larger one is gone.
    pub open spec fn nodes_after(
        &self,
        nodes: Map<int, NodeState>,
        key: Seq<u8>,
        spot: Spot<P>,
        fresh: Seq<P>,
    ) -> Map<int, NodeState> {
        match self.need(key, spot) {
            Need::Nothing => nodes,
            Need::Chain(_) => with_fresh(nodes, fresh, NodeType::Node4),
            Need::Growth(layout) => match spot {
                Spot::Gap { place, depth, node, byte } => with_fresh(
                    nodes.remove(node.slot() as int),
                    fresh,
                    layout,
                ),
                _ => nodes,
            },
        }
    }

    /// The nodes after the latches were taken and released that an insertion at `spot` takes: that
    /// of the node which is written, and that of the node which keeps the link to a node that is
    /// replaced. Where `unlatched` says so, a node with a place for every byte is written without
    /// its latch.
    pub open spec fn nodes_written(&self, spot: Spot<P>, unlatched: bool) -> Map<int, NodeState> {
        let nodes = nodes_of(self.slots@);
        match spot {
            Spot::Nothing => nodes,
            Spot::Leaf { place, depth, leaf } => place.guarded(nodes),
            Spot::Split { place, depth, node, matched } => stepped(
                place.guarded(nodes),
                node.slot() as int,
            ),
            Spot::Exact { place, depth, node, leaf } => stepped(nodes, node.slot() as int),
            Spot::Gap { place, depth, node, byte } => {
                let inner = self.slots@[node.slot() as int]->Inner_0;
                if inner.full() {
                    place.guarded(nodes)
                } else if unlatched && inner is N256 {
                    nodes
                } else {
                    stepped(nodes, node.slot() as int)
                }
            },
        }
    }

    /// The nodes of `n` are those of this tree after an insertion of `key`.
    pub open spec fn nodes_inserted(&self, n: &Self, key: Seq<u8>, unlatched: bool) -> bool {
        exists|spot: Spot<P>, fresh: Seq<P>|
            {
                &&& self.spot_ok(key, spot)
                &&& fresh.len() == self.need(key, spot).count()
                &&& nodes_of(n.slots@) == #[trigger] self.nodes_after(
                    self.nodes_written(spot, unlatched),
                    key,
                    spot,
                    fresh,
                )
            }
    }

    /// The nodes of `n` are those of this tree after a removal of `key`, which may be absent.
    pub open spec fn nodes_removed(&self, n: &Self, key: Seq<u8>) -> bool {
        exists|spot: Spot<P>|
            self.spot_ok(key, spot) && nodes_of(n.slots@) == #[trigger] self.nodes_searched(spot)
    }

    /// The nodes after the latches were taken and released that a removal at `spot` takes: that of
    /// the node in which the search ends at a leaf, be it that of the key or not.
    pub open spec fn nodes_searched(&self, spot: Spot<P>) -> Map<int, NodeState> {
        let nodes = nodes_of(self.slots@);
        match spot {
            Spot::Leaf { place, depth, leaf } => place.guarded(nodes),
            Spot::Exact { place, depth, node, leaf } => stepped(nodes, node.slot() as int),
            _ => nodes,
        }
    }

    /// `n` is this tree with other latch words.
    pub open spec fn relatched(&self, n: &Self) -> bool {
        &&& n.root == self.root
        &&& n.shape == self.shape
        &&& n.slots@.len() == self.slots@.len()
        &&& cells_of(n.slots@) == cells_of(self.slots@)
        &&& forall|i: int|
            0 <= i < self.slots@.len() && !(self.slots@[i] is Inner) ==> #[trigger] n.slots@[i]
                == self.slots@[i]
        &&& forall|i: int|
            0 <= i < self.slots@.len() && self.slots@[i] is Inner ==> {
                &&& (#[trigger] n.slots@[i]) is Inner
                &&& (n.slots@[i]->Inner_0).full() == (self.slots@[i]->Inner_0).full()
                &&& (n.slots@[i]->Inner_0).head().node_type == (
                self.slots@[i]->Inner_0).head().node_type
            }
    }

    /// Other latch words change neither the tree nor where a search ends.
    pub proof fn lemma_relatched(&self, n: &Self)
        requires
            self.wf(),
            self.relatched(n),
            nodes_wf(n.slots@),
        ensures
            n.wf(),
            n.keys() == self.keys(),
            n.leaves() == self.leaves(),
            forall|key: Seq<u8>, spot: Spot<P>| #[trigger]
                self.spot_ok(key, spot) ==> n.spot_ok(key, spot) && n.need(key, spot) == self.need(
                    key,
                    spot,
                ) && n.writes_root(spot) == self.writes_root(spot),
    {
        assert(n.outline() == self.outline());
        self.lemma_leaves_same(n);
        assert forall|key: Seq<u8>, spot: Spot<P>| #[trigger]
            self.spot_ok(key, spot) implies n.spot_ok(key, spot) && n.need(key, spot) == self.need(
            key,
            spot,
        ) && n.writes_root(spot) == self.writes_root(spot) by {
            self.lemma_spot(key, spot);
            if let Spot::Gap { place, depth, node, byte } = spot {
                assert(self.outline().node_ok(key.take(depth as int)));
                assert(self.slots@[node.slot() as int] is Inner);
                assert(n.slots@[node.slot() as int] is Inner);
            }
        }
    }

    /// Counts one modification on the latch of a node, as a writer that takes and releases it
    /// does.
    fn touch(&mut self, node: P)
        requires
            old(self).wf(),
            node.slot() < old(self).slots@.len(),
            old(self).slots@[node.slot() as int] is Inner,
        ensures
            final(self).wf(),
            old(self).relatched(final(self)),
            nodes_of(final(self).slots@) == stepped(
                nodes_of(old(self).slots@),
                node.slot() as int,
            ),
    {
        let ghost before = *self;
        let i: usize = node.slot_number();
        match &mut self.slots[i] {
            Slot::Inner(inner) => {
                proof {
                    inner.lemma_facts();
                }
                inner.touch();
                proof {
                    inner.lemma_facts();
                }
            },
            _ => vstd::pervasive::unreached(),
        }
        proof {
            assert(cells_of(self.slots@) =~= cells_of(before.slots@));
            assert(nodes_of(self.slots@) =~= stepped(nodes_of(before.slots@), i as int));
            before.lemma_relatched(self);
        }
    }

    /// Counts one modification on the latch of the node that keeps a place. Returns whether the
    /// place is the root, whose latch is not kept here.
    fn touch_place(&mut self, place: &Place<P>, Ghost(q): Ghost<Seq<u8>>) -> (at_root: bool)
        requires
            old(self).wf(),
            old(self).place_ok(*place, q),
        ensures
            final(self).wf(),
            old(self).relatched(final(self)),
            nodes_of(final(self).slots@) == place.guarded(nodes_of(old(self).slots@)),
            at_root == (*place is Root),
    {
        match place {
            Place::Root => true,
            Place::Child { node, byte: _, path: _ } => {
                proof {
                    if let Place::Child { node, byte, path } = place {
                        assert(self.outline().node_ok(path@));
                    }
                }
                self.touch(*node);
                false
            },
        }
    }

    /// Counts the modifications on the latches that an insertion at `spot` takes. Returns whether
    /// the latch of the root is one of them.
    pub fn touch_written(&mut self, Ghost(key): Ghost<Seq<u8>>, spot: &Spot<P>, unlatched: bool) -> (
    at_root: bool)
        requires
            old(self).wf(),
            old(self).spot_ok(key, *spot),
        ensures
            final(self).wf(),
            old(self).relatched(final(self)),
            nodes_of(final(self).slots@) == old(self).nodes_written(*spot, unlatched),
            at_root == old(self).writes_root(*spot),
    {
        let ghost before = *self;
        let ghost q = key.take(Self::spot_depth(*spot) as int);
        proof {
            if !(spot is Nothing) {
                assert(self.outline().node_ok(q));
            }
        }
        match spot {
            Spot::Nothing => true,
            Spot::Leaf { place, depth: _, leaf: _ } => self.touch_place(place, Ghost(q)),
            Spot::Split { place, depth: _, node, matched: _ } => {
                let at_root = self.touch_place(place, Ghost(q));
                let ghost between = *self;
                assert(between.slots@[node.slot() as int] is Inner);
                self.touch(*node);
                proof {
                    assert forall|i: int|
                        0 <= i < before.slots@.len() && !(before.slots@[i] is Inner) implies
                        #[trigger] self.slots@[i] == before.slots@[i] by {
                        assert(between.slots@[i] == before.slots@[i]);
                    }
                    assert forall|i: int| 0 <= i < before.slots@.len() && before.slots@[i] is Inner
                        implies (#[trigger] self.slots@[i]) is Inner && (
                    self.slots@[i]->Inner_0).full() == (before.slots@[i]->Inner_0).full() && (
                    self.slots@[i]->Inner_0).head().node_type == (
                    before.slots@[i]->Inner_0).head().node_type by {
                        assert(between.slots@[i] is Inner);
                    }
                }
                at_root
            },
            Spot::Exact { place: _, depth: _, node, leaf: _ } => {
                self.touch(*node);
                false
            },
            Spot::Gap { place, depth: _, node, byte: _ } => {
                let inner = self.inner(*node);
                proof {
                    inner.lemma_facts();
                }
                if inner.is_node_full() {
                    self.touch_place(place, Ghost(q))
                } else {
                    let every_byte: bool = match inner.header().node_type {
                        NodeType::Node256 => true,
                        _ => false,
                    };
                    if !(unlatched && every_byte) {
                        self.touch(*node);
                    }
                    false
                }
            },
        }
    }

    /// Counts the modifications on the latches that a removal at `spot` takes. Returns whether the
    /// latch of the root is one of them.
    pub fn touch_searched(&mut self, Ghost(key): Ghost<Seq<u8>>, spot: &Spot<P>) -> (at_root: bool)
        requires
            old(self).wf(),
            old(self).spot_ok(key, *spot),
        ensures
            final(self).wf(),
            old(self).relatched(final(self)),
            nodes_of(final(self).slots@) == old(self).nodes_searched(*spot),
            at_root == (*spot matches Spot::Leaf { place: Place::Root, depth, leaf }),
    {
        let ghost q = key.take(Self::spot_depth(*spot) as int);
        proof {
            if !(spot is Nothing) {
                assert(self.outline().node_ok(q));
            }
        }
        match spot {
            Spot::Leaf { place, depth: _, leaf: _ } => self.touch_place(place, Ghost(q)),
            Spot::Exact { place: _, depth: _, node, leaf: _ } => {
                self.touch(*node);
                false
            },
            _ => false,
        }
    }

    /// An insertion of `key` writes the root: the root leads nowhere or to a leaf, to a node whose
    /// prefix goes another way than the key, or to a full node without a child for the key.
    pub open spec fn root_written(&self, key: Seq<u8>) -> bool {
        if self.root.absent() || self.root.leaf() {
            true
        } else {
            let inner = self.slots@[self.root.slot() as int]->Inner_0;
            let n = inner.prefix().len() as int;
            ||| !order::extends(key, inner.prefix())
            ||| key.len() > n && !inner.kids().contains_key(key[n]) && inner.full()
        }
    }

    /// The tree is a single leaf.
    pub open spec fn root_is_leaf(&self) -> bool {
        !self.root.absent() && self.root.leaf()
    }

    /// Whether an insertion writes the root can be told from the root alone.
    pub proof fn lemma_root_written(&self, key: Seq<u8>, spot: Spot<P>)
        requires
            self.wf(),
            self.spot_ok(key, spot),
        ensures
            self.writes_root(spot) == self.root_written(key),
            (spot matches Spot::Leaf { place: Place::Root, depth, leaf }) == self.root_is_leaf(),
            spot is Nothing == self.root.absent(),
    {
        let o = self.outline();
        let none = Seq::<u8>::empty();
        if !(spot is Nothing) {
            let q = key.take(Self::spot_depth(spot) as int);
            assert(o.at.contains_key(q));
            assert(o.node_ok(q));
            assert(!self.root.absent());
            assert(o.node_ok(none));
            assert(o.node(none) == cell_of(self.slots@[self.root.slot() as int]));
            if q.len() == 0 {
                assert(q =~= none);
                assert(key.skip(0) =~= key);
                if let Spot::Split { place, depth, node, matched } = spot {
                    let prefix = o.node(none)->prefix;
                    if order::extends(key, prefix) {
                        assert(prefix[matched as int] == key[matched as int]);
                    }
                }
                if let Cell::Inner { prefix, exact, kids } = o.node(none) {
                    assert(none + prefix =~= prefix);
                }
            } else {
                assert(o.routes(none, q));
                if let Cell::Inner { prefix, exact, kids } = o.node(none) {
                    assert(none + prefix =~= prefix);
                    assert(order::extends(key, q));
                    order::lemma_extends_transitive(key, q, prefix);
                    assert(q[prefix.len() as int] == key[prefix.len() as int]);
                    shape::lemma_kid(o, none, prefix, exact, kids, key[prefix.len() as int]);
                }
            }
        }
    }

    /// Inserts a leaf with a new key at `spot`, with the links to the new nodes that it takes.
    /// Gives back the node that had to make room for a larger one.
    pub fn insert_at(&mut self, spot: Spot<P>, leaf: Box<L>, link: P, fresh: &Vec<P>) -> (obsolete:
        Option<InnerNode<P>>)
        requires
            old(self).wf(),
            old(self).spot_ok(leaf.own_key(), spot),
            !old(self).keys().contains_key(leaf.own_key()),
            old(self).leaf_slot_free(link),
            fresh@.len() == old(self).need(leaf.own_key(), spot).count(),
            old(self).fresh_ok(fresh@, link),
        ensures
            final(self).wf(),
            final(self).keys() == old(self).keys().insert(leaf.own_key(), link),
            final(self).leaves() == old(self).leaves().insert(leaf.own_key(), *leaf),
            final(self).slots@.len() == old(self).slots@.len(),
            leaves_kept(old(self).slots@, final(self).slots@),
            no_new_leaves(old(self).slots@, final(self).slots@, link.slot() as int),
            vacant_kept(
                old(self).slots@,
                final(self).slots@,
                slots_of(fresh@).insert(link.slot() as int),
            ),
            final(self).slots@[link.slot() as int] == Slot::<P, L>::Leaf(leaf),
            obsolete is Some <==> old(self).need(leaf.own_key(), spot) is Growth,
            obsolete matches Some(inner) ==> latch::obsolete(inner.head().latch@),
            obsolete matches Some(inner) ==> (spot matches Spot::Gap { place, depth, node, byte }
                && inner.head().latch@ == nodes_of(old(self).slots@)[node.slot() as int].word
                | latch::OBSOLETE_BIT),
            spot matches Spot::Gap { place, depth, node, byte } ==> (obsolete is Some
                ==> final(self).slots@[node.slot() as int] is Vacant),
            final(self).root == old(self).root_after(leaf.own_key(), spot, link, fresh@),
            nodes_of(final(self).slots@) == old(self).nodes_after(
                nodes_of(old(self).slots@),
                leaf.own_key(),
                spot,
                fresh@,
            ),
    {
        let ghost before = *self;
        let ghost key = leaf.own_key();
        let ghost o = self.outline();
        proof {
            self.lemma_spot(key, spot);
        }
        match spot {
            Spot::Nothing => {
                proof {
                    assert(order::extends(key, Seq::<u8>::empty()));
                }
                self.hang_leaf(&Place::Root, Ghost(Seq::empty()), link, leaf);
                None
            },
            Spot::Leaf { place, depth, leaf: below } => {
                let (depth, node) = self.create_prefix_chain(
                    leaf.key_slice(),
                    place,
                    depth,
                    below,
                    fresh,
                    Ghost(link),
                );
                self.attach(depth, node, link, leaf);
                None
            },
            Spot::Split { place, depth, node, matched } => {
                let ghost q = key.take(depth as int);
                proof {
                    assert(o.node_ok(q));
                    assert(o.node(q) == cell_of(self.slots@[node.slot() as int]));
                }
                let key_slice = leaf.key_slice();
                let key_len: usize = key_slice.len();
                assert(depth + matched <= key_len);
                let byte: u8 = self.inner(node).header().prefix_slice()[matched];
                let stem = &key_slice[depth..depth + matched];
                let above: P = fresh[0];
                proof {
                    let prefix = o.node(q)->prefix;
                    assert(before.inner_slot_free(fresh@[0]));
                    assert(slots_of(fresh@).contains(above.slot() as int)) by {
                        assert(fresh@[0].slot() == above.slot());
                    }
                    assert(order::extends(prefix, stem@.push(byte))) by {
                        assert forall|i: int| 0 <= i < stem@.push(byte).len() implies
                            #[trigger] stem@.push(byte)[i] == prefix[i] by {
                            if i < matched {
                                assert(prefix[i] == key.skip(depth as int)[i]);
                            }
                        }
                    }
                    assert(order::extends(key, q + stem@));
                    if key.len() > (q + stem@).len() {
                        assert(key.skip(depth as int)[matched as int] != prefix[matched as int]);
                    }
                }
                self.wrap(&place, Ghost(q), node, above, stem, byte);
                proof {
                    lemma_slots_of_more(fresh@, 1);
                    assert(fresh@.skip(0) =~= fresh@);
                    assert(nodes_of(self.slots@) =~= before.nodes_after(
                        nodes_of(before.slots@),
                        key,
                        spot,
                        fresh@,
                    ));
                }
                self.attach(depth, above, link, leaf);
                None
            },
            Spot::Exact { place: _, depth, node, leaf: _ } => {
                let ghost q = key.take(depth as int);
                proof {
                    assert(o.node_ok(q));
                    assert(o.node(q) == cell_of(self.slots@[node.slot() as int]));
                }
                self.set_exact(node, Ghost(q), link, leaf);
                None
            },
            Spot::Gap { place, depth, node, byte } => {
                let ghost q = key.take(depth as int);
                proof {
                    assert(o.node_ok(q));
                    assert(o.node(q) == cell_of(self.slots@[node.slot() as int]));
                }
                if self.inner(node).is_node_full() {
                    let larger: P = fresh[0];
                    proof {
                        assert(before.inner_slot_free(fresh@[0]));
                        assert(slots_of(fresh@).contains(larger.slot() as int)) by {
                            assert(fresh@[0].slot() == larger.slot());
                        }
                    }
                    let obsolete = self.grow(&place, Ghost(q), node, larger);
                    proof {
                        lemma_slots_of_more(fresh@, 1);
                        assert(fresh@.skip(0) =~= fresh@);
                        assert(nodes_of(self.slots@) =~= before.nodes_after(
                            nodes_of(before.slots@),
                            key,
                            spot,
                            fresh@,
                        ));
                        assert(self.outline().node(q) == cell_of(
                            self.slots@[larger.slot() as int],
                        ));
                    }
                    self.attach(depth, larger, link, leaf);
                    Some(obsolete)
                } else {
                    self.attach(depth, node, link, leaf);
                    None
                }
            },
        }
    }

    /// The tree with more vacant slots behind the last one.
    pub open spec fn widened(&self, n: &Self) -> bool {
        &&& n.root == self.root
        &&& n.shape == self.shape
        &&& self.slots@.len() <= n.slots@.len()
        &&& forall|i: int| 0 <= i < self.slots@.len() ==> #[trigger] n.slots@[i] == self.slots@[i]
        &&& forall|i: int|
            self.slots@.len() <= i < n.slots@.len() ==> #[trigger] n.slots@[i] is Vacant
    }

    /// More vacant slots change neither the tree nor where a search ends.
    pub proof fn lemma_widened(&self, n: &Self)
        requires
            self.wf(),
            self.widened(n),
        ensures
            n.wf(),
            n.keys() == self.keys(),
            n.leaves() == self.leaves(),
            nodes_of(n.slots@) == nodes_of(self.slots@),
            forall|key: Seq<u8>, spot: Spot<P>| #[trigger]
                self.spot_ok(key, spot) ==> n.spot_ok(key, spot) && n.need(key, spot) == self.need(
                    key,
                    spot,
                ) && n.writes_root(spot) == self.writes_root(spot),
    {
        let o = self.outline();
        assert(nodes_of(n.slots@) =~= nodes_of(self.slots@));
        shape::lemma_longer(o, cells_of(n.slots@));
        assert(n.outline() == o.with_heap(cells_of(n.slots@)));
        self.lemma_leaves_same(n);
        assert forall|p: Seq<u8>| #[trigger] o.at.contains_key(p) implies n.outline().node(p)
            == o.node(p) by {
            assert(o.node_ok(p));
        }
        assert forall|key: Seq<u8>, spot: Spot<P>| #[trigger]
            self.spot_ok(key, spot) implies n.spot_ok(key, spot) && n.need(key, spot) == self.need(
            key,
            spot,
        ) && n.writes_root(spot) == self.writes_root(spot) by {
            self.lemma_spot(key, spot);
            match spot {
                Spot::Nothing => {},
                Spot::Leaf { place, depth, leaf } => {
                    assert(o.node_ok(key.take(depth as int)));
                },
                Spot::Split { place, depth, node, matched } => {},
                Spot::Exact { place, depth, node, leaf } => {},
                Spot::Gap { place, depth, node, byte } => {
                    assert(o.node_ok(key.take(depth as int)));
                },
            }
        }
    }

    /// Adds a vacant slot, and returns its number.
    pub fn push_slot(&mut self) -> (slot: usize)
        requires
            old(self).wf(),
        ensures
            old(self).widened(final(self)),
            final(self).wf(),
            slot == old(self).slots@.len(),
            final(self).slots@.len() == slot + 1,
            slot > 0,
    {
        let ghost before = *self;
        let slot: usize = self.slots.len();
        self.slots.push(Slot::Vacant);
        proof {
            before.lemma_widened(self);
        }
        slot
    }

    /// The leaf to which `link` leads, for a change that keeps its key.
    pub fn leaf_mut(&mut self, link: P) -> (leaf: &mut L)
        requires
            old(self).wf(),
            old(self).holds_leaf(link),
        ensures
            *leaf == old(self).leaf_at(link),
            final(self).root == old(self).root,
            final(self).shape == old(self).shape,
            final(self).slots@ == old(self).slots@.update(
                link.slot() as int,
                Slot::Leaf(Box::new(*final(leaf))),
            ),
    {
        let i: usize = link.slot_number();
        match &mut self.slots[i] {
            Slot::Leaf(leaf) => leaf,
            _ => vstd::pervasive::unreached(),
        }
    }

    /// A leaf that changes but for its key leaves the tree in order.
    pub proof fn lemma_leaf_changed(&self, n: &Self, link: P, leaf: L)
        requires
            self.wf(),
            self.holds_leaf(link),
            n.root == self.root,
            n.shape == self.shape,
            n.slots@ == self.slots@.update(link.slot() as int, Slot::Leaf(Box::new(leaf))),
            leaf.own_key() == self.leaf_at(link).own_key(),
        ensures
            n.wf(),
            n.keys() == self.keys(),
            self.keys().contains_key(leaf.own_key()) && self.keys()[leaf.own_key()] == link
                ==> n.leaves() == self.leaves().insert(leaf.own_key(), leaf),
            forall|key: Seq<u8>, spot: Spot<P>| #[trigger]
                self.spot_ok(key, spot) ==> n.spot_ok(key, spot),
    {
        assert(cells_of(n.slots@) =~= cells_of(self.slots@));
        assert(n.outline() == self.outline());
        if self.keys().contains_key(leaf.own_key()) && self.keys()[leaf.own_key()] == link {
            assert forall|k: Seq<u8>|
                self.keys().contains_key(k) && k != leaf.own_key() implies #[trigger] n.leaf_at(
                self.keys()[k],
            ) == self.leaf_at(self.keys()[k]) by {
                assert(self.outline().keyed(k));
            }
            assert(n.leaves() =~= self.leaves().insert(leaf.own_key(), leaf));
        }
    }

    /// The new inner nodes that the insertion of `key` takes.
    pub open spec fn needed(&self, key: Seq<u8>) -> Need {
        self.need(key, choose|spot: Spot<P>| self.spot_ok(key, spot))
    }

    /// How many bytes of the key lie before the node where the search ends.
    spec fn spot_depth(spot: Spot<P>) -> usize {
        match spot {
            Spot::Nothing => 0,
            Spot::Leaf { place, depth, leaf } => depth,
            Spot::Split { place, depth, node, matched } => depth,
            Spot::Exact { place, depth, node, leaf } => depth,
            Spot::Gap { place, depth, node, byte } => depth,
        }
    }

    /// The search does not end above another node on the way of the key.
    proof fn lemma_spot_lowest(&self, key: Seq<u8>, spot: Spot<P>, depth: int)
        requires
            self.wf(),
            self.spot_ok(key, spot),
            !(spot is Nothing),
            0 <= depth <= key.len(),
            self.outline().at.contains_key(key.take(depth)),
        ensures
            depth <= Self::spot_depth(spot),
    {
        let o = self.outline();
        let at = Self::spot_depth(spot) as int;
        if depth > at {
            let q = key.take(at);
            let r = key.take(depth);
            assert(shape::beyond(r, q));
            assert(o.routes(q, r));
            if let Cell::Inner { prefix, exact, kids } = o.node(q) {
                let stem = q + prefix;
                shape::lemma_kid(o, q, prefix, exact, kids, key[stem.len() as int]);
                assert(order::extends(key, r));
                order::lemma_extends_transitive(key, r, stem);
                if let Spot::Split { place, depth, node, matched } = spot {
                    assert(stem[at + matched] == key[at + matched]);
                    assert(prefix[matched as int] == key.skip(at)[matched as int]);
                }
            }
        }
    }

    /// Where the search ends does not depend on how it is described.
    pub proof fn lemma_needed(&self, key: Seq<u8>, spot: Spot<P>)
        requires
            self.wf(),
            self.spot_ok(key, spot),
        ensures
            self.needed(key) == self.need(key, spot),
    {
        let other = choose|other: Spot<P>| self.spot_ok(key, other);
        let o = self.outline();
        if !(spot is Nothing) && !(other is Nothing) {
            self.lemma_spot_lowest(key, spot, Self::spot_depth(other) as int);
            self.lemma_spot_lowest(key, other, Self::spot_depth(spot) as int);
            let q = key.take(Self::spot_depth(spot) as int);
            assert(o.node_ok(q));
            if let Cell::Inner { prefix, exact, kids } = o.node(q) {
                let at = q.len() as int;
                // The key leaves the prefix, ends behind it or goes on.
                if let Spot::Split { place, depth, node, matched } = spot {
                    if order::extends(key, q + prefix) {
                        assert((q + prefix)[at + matched] == key[at + matched]);
                        assert(prefix[matched as int] == key.skip(at)[matched as int]);
                    }
                }
                if let Spot::Split { place, depth, node, matched } = other {
                    if order::extends(key, q + prefix) {
                        assert((q + prefix)[at + matched] == key[at + matched]);
                        assert(prefix[matched as int] == key.skip(at)[matched as int]);
                    }
                }
            }
        }
    }

    /// The search for a key ends somewhere behind a node on its way.
    proof fn lemma_search(&self, key: Seq<u8>, place: Place<P>, depth: usize) -> (spot: Spot<P>)
        requires
            self.wf(),
            key.len() <= usize::MAX,
            depth <= key.len(),
            self.outline().at.contains_key(key.take(depth as int)),
            self.place_ok(place, key.take(depth as int)),
        ensures
            self.spot_ok(key, spot),
        decreases key.len() - depth,
    {
        let o = self.outline();
        let q = key.take(depth as int);
        let link = o.at[q];
        assert(o.node_ok(q));
        if let Cell::Inner { prefix, exact, kids } = o.node(q) {
            let rest = key.skip(depth as int);
            let matched = order::common_len(prefix, rest);
            order::lemma_common_len(prefix, rest);
            if matched < prefix.len() {
                return Spot::Split { place, depth, node: link, matched: matched as usize };
            }
            let stem = q + prefix;
            assert(order::extends(key, stem)) by {
                assert forall|i: int| 0 <= i < stem.len() implies #[trigger] stem[i] == key[i] by {
                    if i >= q.len() {
                        assert(prefix[i - q.len()] == rest[i - q.len()]);
                    }
                }
            }
            if stem.len() == key.len() {
                assert(stem =~= key);
                Spot::Exact { place, depth, node: link, leaf: exact }
            } else {
                let byte = key[stem.len() as int];
                shape::lemma_kid(o, q, prefix, exact, kids, byte);
                if kids.contains_key(byte) {
                    let below = (depth + prefix.len() + 1) as usize;
                    assert(key.take(below as int) =~= shape::child_path(q, prefix, byte));
                    self.lemma_search(
                        key,
                        Place::Child { node: link, byte, path: Ghost(q) },
                        below,
                    )
                } else {
                    Spot::Gap { place, depth, node: link, byte }
                }
            }
        } else {
            Spot::Leaf { place, depth, leaf: link }
        }
    }

    /// The insertion of a key that is there takes no new inner nodes, nor does the first insertion.
    /// The insertion of a second key takes as many as the common prefix fills.
    pub proof fn lemma_needed_cases(&self, key: Seq<u8>)
        requires
            self.wf(),
            key.len() <= usize::MAX,
        ensures
            self.keys().contains_key(key) ==> self.needed(key) == Need::Nothing,
            self.root.absent() ==> self.needed(key) == Need::Nothing,
            self.root_is_leaf() && !self.keys().contains_key(key) ==> (self.needed(
                key,
            ) matches Need::Chain(n) && n == order::common_len(self.key_at(self.root), key) / 17
                + 1),
            self.needed(key) matches Need::Growth(layout) ==> layout != NodeType::Node4,
    {
        let spot = if self.root.absent() {
            Spot::Nothing
        } else {
            assert(key.take(0) =~= Seq::<u8>::empty());
            self.lemma_search(key, Place::Root, 0)
        };
        self.lemma_needed(key, spot);
        self.lemma_spot(key, spot);
        self.lemma_root_written(key, spot);
        if self.root_is_leaf() {
            if let Spot::Leaf { place, depth, leaf } = spot {
                let o = self.outline();
                let q = key.take(depth as int);
                assert(o.node_ok(Seq::empty()));
                if depth > 0 {
                    assert(shape::beyond(q, Seq::empty()));
                    assert(o.routes(Seq::empty(), q));
                }
                assert(q =~= Seq::<u8>::empty());
                let own = self.leaf_at(leaf).own_key();
                assert(own.skip(0) =~= own);
                assert(key.skip(0) =~= key);
                order::lemma_common_len(own, key);
                assert(order::common_len(own, key) / 17 <= key.len() / 17);
            }
        }
    }

    /// The nodes are the inner nodes of the slots, and the latches that an insertion takes change
    /// no layout and move each latch word one step at most, but where a node keeps the link to
    /// itself.
    pub proof fn lemma_nodes_written(&self, spot: Spot<P>, unlatched: bool, i: int)
        requires
            nodes_of(self.slots@).contains_key(i),
            spot matches Spot::Split { place, depth, node, matched } ==> (
            place matches Place::Child { node: parent, byte, path } ==> parent.slot()
                != node.slot()),
        ensures
            0 <= i < self.slots@.len(),
            self.slots@[i] is Inner,
            self.nodes_written(spot, unlatched).contains_key(i),
            self.nodes_written(spot, unlatched)[i].layout == (
            self.slots@[i]->Inner_0).head().node_type,
            ({
                let before = (self.slots@[i]->Inner_0).head().latch@;
                let after = self.nodes_written(spot, unlatched)[i].word;
                after == before || after == before.wrapping_add(4)
            }),
            spot matches Spot::Exact { place, depth, node, leaf } ==> (node.slot() == i
                ==> self.nodes_written(spot, unlatched)[i].word == (
            self.slots@[i]->Inner_0).head().latch@.wrapping_add(4)),
            spot matches Spot::Leaf { place: Place::Child { node, byte, path }, depth, leaf } ==> (
            node.slot() == i ==> self.nodes_written(spot, unlatched)[i].word == (
            self.slots@[i]->Inner_0).head().latch@.wrapping_add(4)),
    {
    }

    /// The node that keeps a place, and the node in the place, are among the nodes and are not the
    /// same.
    proof fn lemma_place_apart(&self, place: Place<P>, q: Seq<u8>)
        requires
            self.wf(),
            self.place_ok(place, q),
            self.outline().at.contains_key(q),
        ensures
            place matches Place::Child { node, byte, path } ==> nodes_of(self.slots@).contains_key(
                node.slot() as int,
            ),
            self.outline().node(q) is Inner ==> nodes_of(self.slots@).contains_key(
                self.outline().at[q].slot() as int,
            ),
            place matches Place::Child { node, byte, path } ==> (self.outline().node(q) is Inner
                ==> node.slot() != self.outline().at[q].slot()),
    {
        let o = self.outline();
        assert(o.node_ok(q));
        assert(o.node(q) == cell_of(self.slots@[o.at[q].slot() as int]));
        if let Place::Child { node, byte, path } = place {
            assert(o.node_ok(path@));
            assert(o.node(path@) == cell_of(self.slots@[node.slot() as int]));
            assert(path@.len() < q.len());
            assert(o.apart(path@, q));
        }
    }

    /// A write over a key that is there moves the latch of one node by one step and changes no other
    /// node, unless the tree is a single leaf, which no node keeps.
    pub proof fn lemma_write_moves_latch(&self, n: &Self, key: Seq<u8>, unlatched: bool) -> (i: int)
        requires
            self.wf(),
            self.keys().contains_key(key),
            self.nodes_inserted(n, key, unlatched),
        ensures
            self.root_is_leaf() ==> nodes_of(n.slots@) == nodes_of(self.slots@),
            !self.root_is_leaf() ==> {
                &&& nodes_of(self.slots@).contains_key(i)
                &&& nodes_of(n.slots@).dom() == nodes_of(self.slots@).dom()
                &&& nodes_of(n.slots@)[i].layout == nodes_of(self.slots@)[i].layout
                &&& nodes_of(n.slots@)[i].word == nodes_of(self.slots@)[i].word.wrapping_add(4)
                &&& nodes_of(n.slots@).remove(i) == nodes_of(self.slots@).remove(i)
            },
    {
        let (spot, fresh) = choose|spot: Spot<P>, fresh: Seq<P>|
            {
                &&& self.spot_ok(key, spot)
                &&& fresh.len() == self.need(key, spot).count()
                &&& nodes_of(n.slots@) == #[trigger] self.nodes_after(
                    self.nodes_written(spot, unlatched),
                    key,
                    spot,
                    fresh,
                )
            };
        self.lemma_spot(key, spot);
        self.lemma_root_written(key, spot);
        let i = match spot {
            Spot::Leaf { place: Place::Child { node, byte, path }, depth, leaf } => {
                self.lemma_place_apart(
                    Place::Child { node, byte, path },
                    key.take(depth as int),
                );
                node.slot() as int
            },
            Spot::Exact { place, depth, node, leaf } => {
                self.lemma_place_apart(place, key.take(depth as int));
                node.slot() as int
            },
            _ => 0,
        };
        if !self.root_is_leaf() {
            lemma_stepped(nodes_of(self.slots@), i, i);
            assert(nodes_of(n.slots@).remove(i) =~= nodes_of(self.slots@).remove(i));
        }
        i
    }

    /// A removal of a key that is there moves the latch of one node by one step and changes no other
    /// node, unless the tree is a single leaf, which no node keeps.
    pub proof fn lemma_removal_moves_latch(&self, n: &Self, key: Seq<u8>) -> (i: int)
        requires
            self.wf(),
            self.keys().contains_key(key),
            self.nodes_removed(n, key),
        ensures
            self.root_is_leaf() ==> nodes_of(n.slots@) == nodes_of(self.slots@),
            !self.root_is_leaf() ==> {
                &&& nodes_of(self.slots@).contains_key(i)
                &&& nodes_of(n.slots@).dom() == nodes_of(self.slots@).dom()
                &&& nodes_of(n.slots@)[i].layout == nodes_of(self.slots@)[i].layout
                &&& nodes_of(n.slots@)[i].word == nodes_of(self.slots@)[i].word.wrapping_add(4)
                &&& nodes_of(n.slots@).remove(i) == nodes_of(self.slots@).remove(i)
            },
    {
        let spot = choose|spot: Spot<P>|
            self.spot_ok(key, spot) && nodes_of(n.slots@) == #[trigger] self.nodes_searched(spot);
        self.lemma_spot(key, spot);
        self.lemma_root_written(key, spot);
        let i = match spot {
            Spot::Leaf { place: Place::Child { node, byte, path }, depth, leaf } => {
                self.lemma_place_apart(
                    Place::Child { node, byte, path },
                    key.take(depth as int),
                );
                node.slot() as int
            },
            Spot::Exact { place, depth, node, leaf } => {
                self.lemma_place_apart(place, key.take(depth as int));
                node.slot() as int
            },
            _ => 0,
        };
        if !self.root_is_leaf() {
            lemma_stepped(nodes_of(self.slots@), i, i);
            assert(nodes_of(n.slots@).remove(i) =~= nodes_of(self.slots@).remove(i));
        }
        i
    }

    /// After an insertion every node is one that was there before, with the same layout and a latch
    /// that is where it was or one step further, or a new one whose latch has not been taken.
    pub proof fn lemma_insertion_keeps_nodes(&self, n: &Self, key: Seq<u8>, unlatched: bool, i: int)
        requires
            self.wf(),
            self.nodes_inserted(n, key, unlatched),
            nodes_of(n.slots@).contains_key(i),
        ensures
            nodes_of(n.slots@)[i].word == 0 || (nodes_of(self.slots@).contains_key(i) && nodes_of(
                n.slots@,
            )[i].layout == nodes_of(self.slots@)[i].layout && (nodes_of(n.slots@)[i].word
                == nodes_of(self.slots@)[i].word || nodes_of(n.slots@)[i].word == nodes_of(
                self.slots@,
            )[i].word.wrapping_add(4))),
    {
        let (spot, fresh) = choose|spot: Spot<P>, fresh: Seq<P>|
            {
                &&& self.spot_ok(key, spot)
                &&& fresh.len() == self.need(key, spot).count()
                &&& nodes_of(n.slots@) == #[trigger] self.nodes_after(
                    self.nodes_written(spot, unlatched),
                    key,
                    spot,
                    fresh,
                )
            };
        match spot {
            Spot::Leaf { place, depth, leaf } => {
                self.lemma_place_apart(place, key.take(depth as int));
            },
            Spot::Split { place, depth, node, matched } => {
                self.lemma_place_apart(place, key.take(depth as int));
            },
            Spot::Exact { place, depth, node, leaf } => {
                self.lemma_place_apart(place, key.take(depth as int));
            },
            Spot::Gap { place, depth, node, byte } => {
                self.lemma_place_apart(place, key.take(depth as int));
            },
            _ => {},
        }
    }

    /// What an insertion needs, by where the search ends: nothing where a leaf or a place for one is
    /// free, one small node where a prefix is split, a chain of small nodes where two keys part, and
    /// one node of the next larger layout in place of a full one.
    pub proof fn lemma_need(&self, key: Seq<u8>, spot: Spot<P>)
        requires
            key.len() <= usize::MAX,
        ensures
            match spot {
                Spot::Nothing => self.need(key, spot).count() == 0,
                Spot::Exact { place, depth, node, leaf } => self.need(key, spot).count() == 0,
                Spot::Split { place, depth, node, matched } => self.need(key, spot) == Need::Chain(
                    1,
                ),
                Spot::Leaf { place, depth, leaf } => {
                    let own = self.leaf_at(leaf).own_key();
                    &&& own == key ==> self.need(key, spot).count() == 0
                    &&& own != key ==> (self.need(key, spot) matches Need::Chain(n) && (depth
                        <= key.len() ==> n == order::common_len(
                        own.skip(depth as int),
                        key.skip(depth as int),
                    ) / 17 + 1))
                },
                Spot::Gap { place, depth, node, byte } => {
                    let inner = self.slots@[node.slot() as int]->Inner_0;
                    &&& !inner.full() ==> self.need(key, spot).count() == 0
                    &&& inner.full() ==> (self.need(key, spot) matches Need::Growth(layout) && (
                    inner.head().node_type == NodeType::Node4 ==> layout == NodeType::Node16) && (
                    inner.head().node_type == NodeType::Node16 ==> layout == NodeType::Node48) && (
                    inner.head().node_type == NodeType::Node48 ==> layout == NodeType::Node256))
                },
            },
    {
        if let Spot::Leaf { place, depth, leaf } = spot {
            let own = self.leaf_at(leaf).own_key();
            order::lemma_common_len(own.skip(depth as int), key.skip(depth as int));
            let common = order::common_len(own.skip(depth as int), key.skip(depth as int));
            if depth <= key.len() {
                assert(common <= key.len());
                assert(common / 17 <= key.len() / 17);
            }
        }
    }

    /// A node that was not there before an insertion has the layout that the insertion needs, the
    /// smallest one in a chain, and a latch that has not been taken.
    pub proof fn lemma_insertion_adds_nodes(&self, n: &Self, key: Seq<u8>, unlatched: bool, i: int)
        requires
            self.wf(),
            self.nodes_inserted(n, key, unlatched),
            nodes_of(n.slots@).contains_key(i),
            !nodes_of(self.slots@).contains_key(i),
        ensures
            nodes_of(n.slots@)[i].word == 0,
            match self.needed(key) {
                Need::Nothing => false,
                Need::Chain(_) => nodes_of(n.slots@)[i].layout == NodeType::Node4,
                Need::Growth(layout) => nodes_of(n.slots@)[i].layout == layout,
            },
    {
        let (spot, fresh) = choose|spot: Spot<P>, fresh: Seq<P>|
            {
                &&& self.spot_ok(key, spot)
                &&& fresh.len() == self.need(key, spot).count()
                &&& nodes_of(n.slots@) == #[trigger] self.nodes_after(
                    self.nodes_written(spot, unlatched),
                    key,
                    spot,
                    fresh,
                )
            };
        self.lemma_needed(key, spot);
        match spot {
            Spot::Leaf { place, depth, leaf } => {
                self.lemma_place_apart(place, key.take(depth as int));
            },
            Spot::Split { place, depth, node, matched } => {
                self.lemma_place_apart(place, key.take(depth as int));
            },
            Spot::Exact { place, depth, node, leaf } => {
                self.lemma_place_apart(place, key.take(depth as int));
            },
            Spot::Gap { place, depth, node, byte } => {
                self.lemma_place_apart(place, key.take(depth as int));
            },
            _ => {},
        }
    }

    /// The root is written where it leads nowhere or to a leaf, and is not where it leads to a node
    /// and the key is there.
    pub proof fn lemma_root_latched(&self, key: Seq<u8>)
        requires
            self.wf(),
            key.len() <= usize::MAX,
        ensures
            self.root.absent() ==> self.root_written(key),
            self.root_is_leaf() ==> self.root_written(key),
            self.root_is_leaf() <==> !self.root.absent() && self.root.leaf(),
            !self.root.absent() && !self.root_is_leaf() && self.keys().contains_key(key)
                ==> !self.root_written(key),
    {
        if !self.root.absent() && !self.root_is_leaf() && self.keys().contains_key(key) {
            assert(key.take(0) =~= Seq::<u8>::empty());
            let spot = self.lemma_search(key, Place::Root, 0);
            self.lemma_spot(key, spot);
            self.lemma_root_written(key, spot);
        }
    }

    /// A bound on the new inner nodes that an insertion takes.
    pub proof fn lemma_needed_bounded(&self, key: Seq<u8>)
        requires
            self.wf(),
            key.len() <= usize::MAX,
        ensures
            self.needed(key) matches Need::Chain(n) ==> n <= key.len() / 17 + 1,
    {
        let spot = if self.root.absent() {
            Spot::Nothing
        } else {
            assert(key.take(0) =~= Seq::<u8>::empty());
            self.lemma_search(key, Place::Root, 0)
        };
        self.lemma_needed(key, spot);
        if let Spot::Leaf { place, depth, leaf } = spot {
            self.lemma_spot(key, spot);
            let own = self.leaf_at(leaf).own_key();
            order::lemma_common_len(own.skip(depth as int), key.skip(depth as int));
            let common = order::common_len(own.skip(depth as int), key.skip(depth as int));
            assert(common / 17 <= key.len() / 17);
        }
    }
}

} // verus!
