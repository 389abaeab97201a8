//! # Inner nodes
//!
//! An inner node in one of the four layouts: a compressed prefix, the leaf whose key ends
//! right behind the prefix, and the children by the byte that follows.

use crate::bitmap;
use crate::latch;
use crate::node;
use crate::node::{Link, Node16, Node256, Node4, Node48, NodeHeader, NodeType, MAX_PREFIX_LEN};
use crate::sorted;
use vstd::prelude::*;

verus! {

/// An inner node of any layout.
pub enum InnerNode<P> {
    N4(Box<Node4<P>>),
    N16(Box<Node16<P>>),
    N48(Box<Node48<P>>),
    N256(Box<Node256<P>>),
}

/// The children for the bytes before `end`.
pub open spec fn kids_below<P>(kids: Map<u8, P>, end: int) -> Map<u8, P> {
    Map::new(|byte: u8| kids.contains_key(byte) && byte < end, |byte: u8| kids[byte])
}

/// The bytes are those that have a child, in ascending order.
pub open spec fn lists<P>(bytes: Seq<u8>, kids: Map<u8, P>) -> bool {
    &&& forall|i: int, j: int| 0 <= i < j < bytes.len() ==> #[trigger] bytes[i] < #[trigger] bytes[j]
    &&& forall|byte: u8| #[trigger] kids.contains_key(byte) <==> bytes.contains(byte)
}

impl<P: Link> InnerNode<P> {
    /// The common header.
    pub open spec fn head(&self) -> NodeHeader<P> {
        match self {
            InnerNode::N4(n) => n.header,
            InnerNode::N16(n) => n.header,
            InnerNode::N48(n) => n.header,
            InnerNode::N256(n) => n.header,
        }
    }

    /// The children by their key byte.
    pub open spec fn kids(&self) -> Map<u8, P> {
        match self {
            InnerNode::N4(n) => n.kids(),
            InnerNode::N16(n) => n.kids(),
            InnerNode::N48(n) => n.kids(),
            InnerNode::N256(n) => n.kids(),
        }
    }

    /// The compressed prefix.
    pub open spec fn prefix(&self) -> Seq<u8> {
        self.head().stored_prefix()
    }

    /// The leaf whose key ends right behind the prefix.
    pub open spec fn exact(&self) -> P {
        self.head().exact_leaf
    }

    /// The keys, the children and the counts of the layout agree.
    pub open spec fn layout_wf(&self) -> bool {
        match self {
            InnerNode::N4(n) => n.wf(),
            InnerNode::N16(n) => n.wf(),
            InnerNode::N48(n) => n.wf(),
            InnerNode::N256(n) => n.wf(),
        }
    }

    /// The layout and the header are in order, and no one holds the latch.
    pub open spec fn wf(&self) -> bool {
        &&& self.layout_wf()
        &&& self.head().wf()
    }

    /// How many children the layout holds.
    pub open spec fn capacity(&self) -> nat {
        match self {
            InnerNode::N4(n) => 4,
            InnerNode::N16(n) => 16,
            InnerNode::N48(n) => 48,
            InnerNode::N256(n) => 256,
        }
    }

    /// Every place of the layout is taken. A node with a place for every byte never is.
    pub open spec fn full(&self) -> bool {
        !(self is N256) && self.head().num_children >= self.capacity()
    }

    /// The layouts `self` and `other` are the same.
    pub open spec fn same_layout(&self, other: &Self) -> bool {
        self.head().node_type == other.head().node_type
    }

    /// What holds of every well-formed node.
    pub proof fn lemma_facts(&self)
        requires
            self.wf(),
        ensures
            self.prefix().len() <= MAX_PREFIX_LEN,
            self.kids().dom().finite(),
            self.kids().dom().len() == self.head().num_children,
            self.head().num_children <= self.capacity(),
            forall|byte: u8|
                self.kids().contains_key(byte) ==> !(#[trigger] self.kids()[byte]).absent(),
            self is N4 <==> self.head().node_type == NodeType::Node4,
            self is N16 <==> self.head().node_type == NodeType::Node16,
            self is N48 <==> self.head().node_type == NodeType::Node48,
            self is N256 <==> self.head().node_type == NodeType::Node256,
    {
        match self {
            InnerNode::N4(n) => {
                n.lemma_count();
                n.lemma_kids_present();
            },
            InnerNode::N16(n) => {
                n.lemma_count();
                n.lemma_kids_present();
            },
            InnerNode::N48(n) => {
                n.lemma_count();
                n.lemma_kids_present();
            },
            InnerNode::N256(n) => {
                n.lemma_count();
            },
        }
    }

    /// A node is full when its layout has no place left, which a node with a place for every byte
    /// never is, and the next larger layout has a place for one child more.
    pub proof fn lemma_layouts(&self)
        ensures
            self is N4 ==> (self.full() <==> self.head().num_children >= 4),
            self is N16 ==> (self.full() <==> self.head().num_children >= 16),
            self is N48 ==> (self.full() <==> self.head().num_children >= 48),
            self is N256 ==> !self.full(),
            self.wf() ==> self.kids().dom().len() == self.head().num_children,
    {
        if self.wf() {
            self.lemma_facts();
        }
    }

    /// What it takes for a layout to be in order.
    pub proof fn lemma_layout_wf(&self)
        requires
            self.layout_wf(),
        ensures
            match self {
                InnerNode::N4(n) => {
                    &&& n.header.node_type == NodeType::Node4
                    &&& n.header.num_children <= 4
                    &&& forall|i: int, j: int|
                        0 <= i < j < n.header.num_children ==> #[trigger] n.keys@[i]
                            < #[trigger] n.keys@[j]
                    &&& forall|i: int|
                        0 <= i < n.header.num_children ==> !(#[trigger] n.children@[i]).absent()
                },
                InnerNode::N16(n) => {
                    &&& n.header.node_type == NodeType::Node16
                    &&& n.header.num_children <= 16
                    &&& forall|i: int, j: int|
                        0 <= i < j < n.header.num_children ==> #[trigger] n.keys@[i]
                            < #[trigger] n.keys@[j]
                    &&& forall|i: int|
                        0 <= i < n.header.num_children ==> !(#[trigger] n.children@[i]).absent()
                },
                InnerNode::N48(n) => {
                    &&& n.header.node_type == NodeType::Node48
                    &&& n.kids().dom().len() == n.header.num_children
                    &&& forall|byte: u8| #[trigger]
                        n.child_indices@[byte as int] < 48 ==> !n.children@[
                        n.child_indices@[byte as int] as int].absent()
                    &&& forall|byte: u8| #[trigger] n.child_indices@[byte as int] <= 48
                    &&& forall|a: u8, b: u8|
                        a != b && #[trigger] n.child_indices@[a as int]
                            == #[trigger] n.child_indices@[b as int] ==> n.child_indices@[a as int]
                            == 48
                    &&& forall|byte: u8| #[trigger]
                        bitmap::present(n.child_bitmap@, byte) <==> n.child_indices@[byte as int]
                            != 48
                    &&& forall|i: int|
                        0 <= i < 48 && !(#[trigger] n.children@[i]).absent() ==> exists|byte: u8|
                            #[trigger] n.child_indices@[byte as int] == i
                },
                InnerNode::N256(n) => {
                    &&& n.header.node_type == NodeType::Node256
                    &&& n.kids().dom().len() == n.header.num_children
                    &&& forall|byte: u8| #[trigger]
                        bitmap::present(n.child_bitmap@, byte) <==> !n.children@[
                        byte as int].absent()
                },
            },
    {
        if let InnerNode::N48(n) = self {
            assert forall|i: int|
                0 <= i < 48 && !(#[trigger] n.children@[i]).absent() implies exists|byte: u8|
                #[trigger] n.child_indices@[byte as int] == i by {
                let byte = choose|byte: u8| node::owns(n.child_indices@, byte, i);
                assert(n.child_indices@[byte as int] == i);
            }
        }
    }

    /// A node of any layout has the header and the children of that layout, the prefix that its
    /// header stores, and the exact leaf that its header names.
    pub proof fn lemma_parts(&self)
        ensures
            match self {
                InnerNode::N4(n) => self.head() == n.header && self.kids() == n.kids(),
                InnerNode::N16(n) => self.head() == n.header && self.kids() == n.kids(),
                InnerNode::N48(n) => self.head() == n.header && self.kids() == n.kids(),
                InnerNode::N256(n) => self.head() == n.header && self.kids() == n.kids(),
            },
            self.prefix() == self.head().stored_prefix(),
            self.exact() == self.head().exact_leaf,
            self is N4 ==> self.capacity() == 4,
            self is N16 ==> self.capacity() == 16,
            self is N48 ==> self.capacity() == 48,
            self is N256 ==> self.capacity() == 256,
    {
    }

    /// A list of the bytes that have a child names each of them once, in ascending order.
    pub proof fn lemma_lists(bytes: Seq<u8>, kids: Map<u8, P>)
        requires
            lists(bytes, kids),
        ensures
            forall|i: int| 0 <= i < bytes.len() ==> kids.dom().contains(#[trigger] bytes[i]),
            forall|byte: u8| #[trigger]
                kids.dom().contains(byte) ==> exists|i: int|
                    0 <= i < bytes.len() && #[trigger] bytes[i] == byte,
            forall|i: int, j: int|
                0 <= i < j < bytes.len() ==> #[trigger] bytes[i] < #[trigger] bytes[j],
    {
        assert forall|i: int| 0 <= i < bytes.len() implies kids.dom().contains(
            #[trigger] bytes[i],
        ) by {
            assert(bytes.contains(bytes[i]));
            assert(kids.contains_key(bytes[i]));
        }
        assert forall|byte: u8| #[trigger] kids.dom().contains(byte) implies exists|i: int|
            0 <= i < bytes.len() && #[trigger] bytes[i] == byte by {
            assert(kids.contains_key(byte));
            assert(bytes.contains(byte));
        }
    }

    /// A node of the smallest layout without children.
    pub fn new4(prefix: &[u8]) -> (node: Self)
        requires
            prefix@.len() <= MAX_PREFIX_LEN,
        ensures
            node.wf(),
            node is N4,
            node.head().latch@ == 0,
            node.head().num_children == 0,
            node.prefix() == prefix@,
            node.exact().absent(),
            node.kids() == Map::<u8, P>::empty(),
    {
        InnerNode::N4(Node4::new(prefix))
    }

    /// The common header.
    pub fn header(&self) -> (header: &NodeHeader<P>)
        ensures
            *header == self.head(),
    {
        match self {
            InnerNode::N4(n) => &n.header,
            InnerNode::N16(n) => &n.header,
            InnerNode::N48(n) => &n.header,
            InnerNode::N256(n) => &n.header,
        }
    }

    /// The child for `byte`.
    pub fn find_child(&self, byte: u8) -> (r: Option<P>)
        requires
            self.wf(),
        ensures
            r == self.kids().get(byte),
    {
        match self {
            InnerNode::N4(n) => n.find_child(byte),
            InnerNode::N16(n) => n.find_child(byte),
            InnerNode::N48(n) => n.find_child(byte),
            InnerNode::N256(n) => n.find_child(byte),
        }
    }

    /// Checks whether every place of the layout is taken.
    pub fn is_node_full(&self) -> (r: bool)
        ensures
            r == self.full(),
    {
        match self {
            InnerNode::N4(n) => n.header.num_children() >= 4,
            InnerNode::N16(n) => n.header.num_children() >= 16,
            InnerNode::N48(n) => n.header.num_children() >= 48,
            InnerNode::N256(_) => false,
        }
    }

    /// Counts one modification on the latch, as a writer that takes and releases it does.
    pub fn touch(&mut self)
        requires
            old(self).wf(),
        ensures
            final(self).wf(),
            final(self).kids() == old(self).kids(),
            final(self).prefix() == old(self).prefix(),
            final(self).exact() == old(self).exact(),
            final(self).same_layout(old(self)),
            final(self).head().num_children == old(self).head().num_children,
            final(self).head().latch@ == old(self).head().latch@.wrapping_add(latch::VERSION_STEP),
            final(self).head().latch@ != old(self).head().latch@,
    {
        match self {
            InnerNode::N4(n) => n.header.touch(),
            InnerNode::N16(n) => n.header.touch(),
            InnerNode::N48(n) => n.header.touch(),
            InnerNode::N256(n) => n.header.touch(),
        }
    }

    /// Adds a child for a byte that has none.
    pub fn insert_child_into_node(&mut self, byte: u8, child: P)
        requires
            old(self).wf(),
            !old(self).full(),
            !old(self).kids().contains_key(byte),
            !child.absent(),
        ensures
            final(self).wf(),
            final(self).kids() == old(self).kids().insert(byte, child),
            final(self).prefix() == old(self).prefix(),
            final(self).exact() == old(self).exact(),
            final(self).same_layout(old(self)),
            final(self).head().num_children == old(self).head().num_children + 1,
            final(self).head().latch == old(self).head().latch,
    {
        match self {
            InnerNode::N4(n) => n.insert_child(byte, child),
            InnerNode::N16(n) => n.insert_child(byte, child),
            InnerNode::N48(n) => n.insert_child(byte, child),
            InnerNode::N256(n) => n.insert_child(byte, child),
        }
    }

    /// Takes out the child for a byte, if it has one.
    pub fn remove_child_from_node(&mut self, byte: u8) -> (r: Option<P>)
        requires
            old(self).wf(),
        ensures
            final(self).wf(),
            r == old(self).kids().get(byte),
            final(self).kids() == old(self).kids().remove(byte),
            final(self).prefix() == old(self).prefix(),
            final(self).exact() == old(self).exact(),
            final(self).same_layout(old(self)),
            final(self).head().latch == old(self).head().latch,
    {
        match self {
            InnerNode::N4(n) => n.remove_child(byte),
            InnerNode::N16(n) => n.remove_child(byte),
            InnerNode::N48(n) => n.remove_child(byte),
            InnerNode::N256(n) => n.remove_child(byte),
        }
    }

    /// Puts another child in place of the one for a byte.
    pub fn replace_child(&mut self, byte: u8, new_child: P)
        requires
            old(self).wf(),
            old(self).kids().contains_key(byte),
            !new_child.absent(),
        ensures
            final(self).wf(),
            final(self).kids() == old(self).kids().insert(byte, new_child),
            final(self).prefix() == old(self).prefix(),
            final(self).exact() == old(self).exact(),
            final(self).same_layout(old(self)),
            final(self).head().num_children == old(self).head().num_children,
            final(self).head().latch == old(self).head().latch,
    {
        match self {
            InnerNode::N4(n) => n.replace_child(byte, new_child),
            InnerNode::N16(n) => n.replace_child(byte, new_child),
            InnerNode::N48(n) => n.replace_child(byte, new_child),
            InnerNode::N256(n) => n.replace_child(byte, new_child),
        }
    }

    /// Sets the leaf whose key ends right behind the prefix, or clears it.
    pub fn set_exact_leaf(&mut self, leaf: P)
        requires
            old(self).wf(),
        ensures
            final(self).wf(),
            final(self).kids() == old(self).kids(),
            final(self).prefix() == old(self).prefix(),
            final(self).exact() == leaf,
            final(self).same_layout(old(self)),
            final(self).head().num_children == old(self).head().num_children,
            final(self).head().latch == old(self).head().latch,
    {
        match self {
            InnerNode::N4(n) => { n.header.exact_leaf = leaf; },
            InnerNode::N16(n) => { n.header.exact_leaf = leaf; },
            InnerNode::N48(n) => { n.header.exact_leaf = leaf; },
            InnerNode::N256(n) => { n.header.exact_leaf = leaf; },
        }
    }

    /// Cuts the first `count` bytes off the prefix.
    pub fn trim_prefix(&mut self, count: usize)
        requires
            old(self).wf(),
            count <= old(self).prefix().len(),
        ensures
            final(self).wf(),
            final(self).kids() == old(self).kids(),
            final(self).prefix() == old(self).prefix().skip(count as int),
            final(self).exact() == old(self).exact(),
            final(self).same_layout(old(self)),
            final(self).head().num_children == old(self).head().num_children,
            final(self).head().latch == old(self).head().latch,
    {
        match self {
            InnerNode::N4(n) => n.header.trim_prefix(count),
            InnerNode::N16(n) => n.header.trim_prefix(count),
            InnerNode::N48(n) => n.header.trim_prefix(count),
            InnerNode::N256(n) => n.header.trim_prefix(count),
        }
    }

    /// Marks the node as replaced for good.
    pub fn mark_obsolete(&mut self)
        requires
            old(self).wf(),
        ensures
            latch::obsolete(final(self).head().latch@),
            final(self).head().latch@ == old(self).head().latch@ | latch::OBSOLETE_BIT,
            final(self).same_layout(old(self)),
            final(self).kids() == old(self).kids(),
            final(self).prefix() == old(self).prefix(),
            final(self).exact() == old(self).exact(),
    {
        match self {
            InnerNode::N4(n) => n.header.mark_obsolete(),
            InnerNode::N16(n) => n.header.mark_obsolete(),
            InnerNode::N48(n) => n.header.mark_obsolete(),
            InnerNode::N256(n) => n.header.mark_obsolete(),
        }
    }

    /// Gives all children of this node to `larger`, which has none.
    fn copy_children(&self, larger: &mut Self)
        requires
            self.wf(),
            old(larger).wf(),
            old(larger).kids() == Map::<u8, P>::empty(),
            self.head().num_children < old(larger).capacity(),
        ensures
            final(larger).wf(),
            final(larger).kids() == self.kids(),
            final(larger).prefix() == old(larger).prefix(),
            final(larger).exact() == old(larger).exact(),
            final(larger).same_layout(old(larger)),
            final(larger).head().num_children == self.head().num_children,
            final(larger).head().latch == old(larger).head().latch,
    {
        let ghost before = *larger;
        let mut min: usize = 0;
        proof {
            assert(larger.kids() =~= kids_below(self.kids(), 0));
        }
        loop
            invariant
                self.wf(),
                min <= 256,
                larger.wf(),
                before.wf(),
                self.head().num_children < before.capacity(),
                larger.prefix() == before.prefix(),
                larger.exact() == before.exact(),
                larger.same_layout(&before),
                larger.head().latch == before.head().latch,
                larger.kids() == kids_below(self.kids(), min as int),
            ensures
                sorted::no_next_child(self.kids(), min as int),
            decreases 256 - min,
        {
            match self.next_child_in_node(min) {
                None => {
                    break;
                },
                Some((byte, child)) => {
                    proof {
                        self.lemma_facts();
                        larger.lemma_facts();
                        before.lemma_facts();
                        assert(larger.kids().dom().subset_of(self.kids().dom()));
                        vstd::set_lib::lemma_len_subset(larger.kids().dom(), self.kids().dom());
                    }
                    larger.insert_child_into_node(byte, child);
                    min = byte as usize + 1;
                    assert(larger.kids() =~= kids_below(self.kids(), min as int));
                },
            }
        }
        proof {
            assert(larger.kids() =~= self.kids());
            self.lemma_facts();
            larger.lemma_facts();
        }
    }

    /// A node of the next larger layout with the same prefix, exact leaf and children, and a new
    /// latch.
    pub fn grow_node(&self) -> (new_node: Self)
        requires
            self.wf(),
            !(self is N256),
        ensures
            new_node.wf(),
            new_node.kids() == self.kids(),
            new_node.prefix() == self.prefix(),
            new_node.exact() == self.exact(),
            new_node.head().num_children == self.head().num_children,
            new_node.head().latch@ == 0,
            !new_node.full(),
            self is N4 <==> new_node is N16,
            self is N16 <==> new_node is N48,
            self is N48 <==> new_node is N256,
    {
        proof {
            self.lemma_facts();
        }
        let prefix = self.header().prefix_slice();
        let mut larger: InnerNode<P> = match self {
            InnerNode::N4(_) => InnerNode::N16(Node16::new(prefix)),
            InnerNode::N16(_) => InnerNode::N48(Node48::new(prefix)),
            InnerNode::N48(_) => InnerNode::N256(Node256::new(prefix)),
            InnerNode::N256(_) => vstd::pervasive::unreached(),
        };
        larger.set_exact_leaf(self.header().exact_leaf);
        self.copy_children(&mut larger);
        proof {
            larger.lemma_facts();
        }
        larger
    }

    /// Checks that the keys, the children and the counts of the layout agree.
    pub fn check_layout(&self) -> (r: bool)
        ensures
            r == self.layout_wf(),
    {
        match self {
            InnerNode::N4(n) => n.check(),
            InnerNode::N16(n) => n.check(),
            InnerNode::N48(n) => n.check(),
            InnerNode::N256(n) => n.check(),
        }
    }

    /// The first child from the byte `min` on.
    pub fn next_child_in_node(&self, min: usize) -> (r: Option<(u8, P)>)
        requires
            self.layout_wf(),
        ensures
            match r {
                Some((byte, child)) => {
                    &&& sorted::is_next_child(self.kids(), min as int, byte)
                    &&& self.kids()[byte] == child
                },
                None => sorted::no_next_child(self.kids(), min as int),
            },
    {
        match self {
            InnerNode::N4(n) => n.next_child(min),
            InnerNode::N16(n) => n.next_child(min),
            InnerNode::N48(n) => n.next_child(min),
            InnerNode::N256(n) => n.next_child(min),
        }
    }

    /// The bytes that have a child, in ascending order.
    pub fn child_bytes(&self) -> (bytes: Vec<u8>)
        requires
            self.layout_wf(),
        ensures
            lists(bytes@, self.kids()),
    {
        let mut bytes: Vec<u8> = Vec::new();
        let mut min: usize = 0;
        loop
            invariant
                self.layout_wf(),
                min <= 256,
                lists(bytes@, kids_below(self.kids(), min as int)),
                forall|i: int| 0 <= i < bytes@.len() ==> #[trigger] bytes@[i] < min,
            ensures
                sorted::no_next_child(self.kids(), min as int),
            decreases 256 - min,
        {
            match self.next_child_in_node(min) {
                None => {
                    break;
                },
                Some((byte, _)) => {
                    let ghost before = bytes@;
                    let ghost was = kids_below(self.kids(), min as int);
                    bytes.push(byte);
                    min = byte as usize + 1;
                    proof {
                        let now = kids_below(self.kids(), min as int);
                        assert(bytes@[before.len() as int] == byte);
                        assert forall|b: u8| #[trigger] now.contains_key(b) <==> bytes@.contains(
                            b,
                        ) by {
                            if now.contains_key(b) && b != byte {
                                assert(was.contains_key(b));
                                let i = choose|i: int| 0 <= i < before.len() && before[i] == b;
                                assert(bytes@[i] == b);
                            }
                            if bytes@.contains(b) && b != byte {
                                let i = choose|i: int| 0 <= i < bytes@.len() && bytes@[i] == b;
                                assert(before[i] == b);
                                assert(was.contains_key(b));
                            }
                        }
                    }
                },
            }
        }
        assert(kids_below(self.kids(), min as int) =~= self.kids());
        bytes
    }

    /// The last child before the byte `end`.
    pub fn prev_child_in_node(&self, end: usize) -> (r: Option<(u8, P)>)
        requires
            self.wf(),
        ensures
            match r {
                Some((byte, child)) => {
                    &&& sorted::is_prev_child(self.kids(), end as int, byte)
                    &&& self.kids()[byte] == child
                },
                None => sorted::no_prev_child(self.kids(), end as int),
            },
    {
        match self {
            InnerNode::N4(n) => n.prev_child(end),
            InnerNode::N16(n) => n.prev_child(end),
            InnerNode::N48(n) => n.prev_child(end),
            InnerNode::N256(n) => n.prev_child(end),
        }
    }
}

} // verus!
