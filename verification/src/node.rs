//! # Adaptive node layouts
//!
//! Implements the `Node4`, `Node16`, `Node48` and `Node256` layouts with prefix compression.
//! Every layout stands for a map from the next key byte to a child link; the layouts differ
//! in how many children they hold and in how they find one.

use crate::bitmap;
use crate::bitmap::{
    clear_bitmap_bit, is_present, next_present_byte, prev_present_byte, set_bitmap_bit,
};
use crate::latch;
use crate::latch::HybridLatch;
use crate::order;
use crate::sorted;
use crate::sorted::{
    sorted_check, sorted_find, sorted_insert, sorted_next, sorted_prev, sorted_remove,
};
use crate::simd::find_child_node16;
use vstd::prelude::*;

verus! {

pub const MAX_PREFIX_LEN: usize = 16;

pub const TAG_LEAF: usize = 0b01;

pub const NODE48_EMPTY: u8 = 48;

/// Discriminated node type indicator.
#[derive(Copy, Clone, PartialEq, Eq, Structural, Debug)]
pub enum NodeType {
    Node4,
    Node16,
    Node48,
    Node256,
}

/// A leaf node holding the stored key-value pair.
pub struct Leaf<K, V> {
    /// The number that a tree gives the leaf to tell it from those that had its slot before.
    pub serial: u64,
    pub key: K,
    pub value: V,
}

impl<K, V> Leaf<K, V> {
    /// A leaf that is in no tree yet.
    pub fn new(key: K, value: V) -> (leaf: Box<Self>)
        ensures
            leaf.serial == 0,
            leaf.key == key,
            leaf.value == value,
    {
        Box::new(Self { serial: 0, key, value })
    }
}

/// A link from a node to a child: the number of the slot that holds the child, and whether
/// the child is a leaf.
pub trait Link: Copy {
    /// The link leads nowhere.
    spec fn absent(self) -> bool;

    /// The link leads to a leaf.
    spec fn leaf(self) -> bool;

    /// The number of the slot to which the link leads.
    spec fn slot(self) -> nat;

    /// The link that leads nowhere.
    fn nil() -> (link: Self)
        ensures
            link.absent(),
    ;

    /// Checks whether the link leads nowhere.
    fn is_nil(self) -> (r: bool)
        ensures
            r == self.absent(),
    ;

    /// Checks whether the link leads to a leaf.
    fn has_leaf_tag(self) -> (r: bool)
        ensures
            r == self.leaf(),
    ;

    /// The number of the slot to which the link leads.
    fn slot_number(self) -> (slot: usize)
        ensures
            slot == self.slot(),
    ;
}

/// Tagged pointer distinguishing inner nodes from leaves.
///
/// The address is the number of a slot of the tree. As a machine word the tag takes the lowest
/// bit, which an aligned address leaves free.
#[derive(Copy, Clone, PartialEq, Eq, Structural, Debug)]
pub struct TaggedPtr {
    address: usize,
    tag: bool,
}

impl Link for TaggedPtr {
    closed spec fn absent(self) -> bool {
        self.address == 0 && !self.tag
    }

    closed spec fn leaf(self) -> bool {
        self.tag
    }

    closed spec fn slot(self) -> nat {
        self.address as nat
    }

    fn nil() -> (link: Self) {
        TaggedPtr { address: 0, tag: false }
    }

    fn is_nil(self) -> (r: bool) {
        self.address == 0 && !self.tag
    }

    fn has_leaf_tag(self) -> (r: bool) {
        self.tag
    }

    fn slot_number(self) -> (slot: usize) {
        self.address
    }
}

impl TaggedPtr {
    /// A tagged pointer is its address and its tag.
    pub proof fn lemma_address_and_tag(a: Self, b: Self)
        requires
            a.slot() == b.slot(),
            a.leaf() == b.leaf(),
        ensures
            a == b,
    {
    }

    /// Only the pointer that leads nowhere has slot number zero without a tag.
    pub proof fn lemma_null(self)
        ensures
            self.absent() <==> self.slot() == 0 && !self.leaf(),
    {
    }

    /// The machine word of an aligned pointer gives the pointer back.
    pub proof fn lemma_word_round_trip(self)
        requires
            self.slot() % 2 == 0,
        ensures
            tag_of(word_of(self.slot() as usize, self.leaf())) == self.leaf(),
            address_of(word_of(self.slot() as usize, self.leaf())) == self.slot(),
    {
        let address = self.address;
        assert((address | TAG_LEAF) & TAG_LEAF != 0) by (bit_vector);
        assert(address % 2 == 0 ==> address & TAG_LEAF == 0) by (bit_vector);
        assert(address % 2 == 0 ==> address & !TAG_LEAF == address) by (bit_vector);
        assert(address % 2 == 0 ==> (address | TAG_LEAF) & !TAG_LEAF == address) by (bit_vector);
    }

    /// The pointer that leads nowhere.
    pub fn null() -> (tagged: Self)
        ensures
            tagged.absent(),
            tagged.slot() == 0,
            !tagged.leaf(),
    {
        TaggedPtr { address: 0, tag: false }
    }

    /// Tags the address of a leaf.
    pub fn from_leaf(ptr: usize) -> (tagged: Self)
        ensures
            tagged.slot() == ptr,
            tagged.leaf(),
            !tagged.absent(),
    {
        Self { address: ptr, tag: true }
    }

    /// Holds the address of an inner node.
    pub fn from_inner(ptr: usize) -> (tagged: Self)
        ensures
            tagged.slot() == ptr,
            !tagged.leaf(),
            tagged.absent() == (ptr == 0),
    {
        Self { address: ptr, tag: false }
    }

    /// Reads a machine word.
    pub fn from_raw(raw: usize) -> (tagged: Self)
        ensures
            tagged.slot() == address_of(raw),
            tagged.leaf() == tag_of(raw),
            tagged.absent() == (raw == 0),
    {
        proof {
            assert(raw & !TAG_LEAF == 0 && raw & TAG_LEAF == 0 <==> raw == 0) by (bit_vector);
        }
        Self { address: raw & !TAG_LEAF, tag: (raw & TAG_LEAF) != 0 }
    }

    /// The machine word.
    pub fn as_raw(self) -> (raw: usize)
        ensures
            raw == word_of(self.slot() as usize, self.leaf()),
    {
        if self.tag {
            self.address | TAG_LEAF
        } else {
            self.address
        }
    }

    /// The pointer leads nowhere.
    pub fn is_null(self) -> (r: bool)
        ensures
            r == self.absent(),
    {
        self.address == 0 && !self.tag
    }

    /// The pointer leads to a leaf.
    pub fn is_leaf(self) -> (r: bool)
        ensures
            r == self.leaf(),
    {
        self.tag
    }

    /// The address of the leaf to which the pointer leads.
    pub fn as_leaf_ptr(self) -> (ptr: usize)
        requires
            self.leaf(),
        ensures
            ptr == self.slot(),
    {
        self.address
    }

    /// The address of the inner node to which the pointer leads.
    pub fn as_inner_ptr(self) -> (ptr: usize)
        requires
            !self.leaf(),
        ensures
            ptr == self.slot(),
    {
        self.address
    }
}

/// The tag in a machine word.
pub open spec fn tag_of(raw: usize) -> bool {
    raw & TAG_LEAF != 0
}

/// The address in a machine word.
pub open spec fn address_of(raw: usize) -> usize {
    raw & !TAG_LEAF
}

/// The machine word of an address with its tag.
pub open spec fn word_of(address: usize, tag: bool) -> usize {
    if tag {
        address | TAG_LEAF
    } else {
        address
    }
}

/// What the bits of a machine word mean, as numbers: the lowest is the tag, and the rest is the
/// address.
pub proof fn lemma_word_parts(raw: usize, address: usize)
    ensures
        tag_of(raw) <==> raw % 2 == 1,
        address_of(raw) == raw - raw % 2,
        word_of(address, false) == address,
        address % 2 == 0 ==> word_of(address, true) == address + 1,
        word_of(address_of(raw), tag_of(raw)) == raw,
{
    assert((raw & 1usize != 0) == (raw % 2 == 1)) by (bit_vector);
    assert(raw & !1usize == raw - raw % 2) by (bit_vector);
    assert(address % 2 == 0 ==> address | 1usize == address + 1) by (bit_vector);
    let even: usize = (raw - raw % 2) as usize;
    assert(even % 2 == 0 ==> even | 1usize == even + 1) by (bit_vector);
}

/// Common header of every inner node.
pub struct NodeHeader<P> {
    pub latch: HybridLatch,
    pub node_type: NodeType,
    pub num_children: u16,
    pub prefix_len: u16,
    pub prefix: [u8; 16],
    pub exact_leaf: P,
}

impl<P: Link> NodeHeader<P> {
    /// The compressed path that the node stands for, as far as the header stores it.
    pub open spec fn stored_prefix(&self) -> Seq<u8> {
        self.prefix@.take(
            if self.prefix_len <= MAX_PREFIX_LEN {
                self.prefix_len as int
            } else {
                MAX_PREFIX_LEN as int
            },
        )
    }

    /// The header stores its whole prefix, and no one holds its latch.
    pub open spec fn wf(&self) -> bool {
        &&& self.prefix_len <= MAX_PREFIX_LEN
        &&& self.latch.is_free()
    }

    /// `other` is this header with another number of children.
    pub open spec fn same_but_count(&self, other: &Self) -> bool {
        &&& self.latch == other.latch
        &&& self.node_type == other.node_type
        &&& self.prefix_len == other.prefix_len
        &&& self.prefix == other.prefix
        &&& self.exact_leaf == other.exact_leaf
    }

    /// The stored prefix is the front of the bytes of the header, as many as the prefix has and the
    /// header has room for.
    pub proof fn lemma_stored_prefix(&self)
        ensures
            self.prefix_len <= 16 ==> self.stored_prefix().len() == self.prefix_len,
            self.prefix_len > 16 ==> self.stored_prefix().len() == 16,
            forall|i: int|
                0 <= i < self.stored_prefix().len() ==> #[trigger] self.stored_prefix()[i]
                    == self.prefix@[i],
    {
    }

    /// What only changes the number of children leaves everything else of the header alone.
    pub proof fn lemma_same_but_count(&self, other: &Self)
        ensures
            self.same_but_count(other) && self.num_children == other.num_children <==> *self
                == *other,
            self.same_but_count(other) ==> self.latch@ == other.latch@ && self.node_type
                == other.node_type && self.prefix_len == other.prefix_len && self.prefix@
                == other.prefix@ && self.exact_leaf == other.exact_leaf,
    {
    }

    /// The leaf whose key ends at this node, if there is one.
    pub fn load_exact_leaf(&self) -> (r: Option<P>)
        ensures
            r == (if self.exact_leaf.absent() {
                None
            } else {
                Some(self.exact_leaf)
            }),
    {
        if self.exact_leaf.is_nil() {
            None
        } else {
            Some(self.exact_leaf)
        }
    }

    /// A header without children that stores the first bytes of `prefix`.
    pub fn new(node_type: NodeType, prefix: &[u8]) -> (header: Self)
        ensures
            header.latch@ == 0,
            header.latch.is_free(),
            header.node_type == node_type,
            header.num_children == 0,
            header.prefix_len == prefix@.len() as u16,
            forall|i: int|
                0 <= i < MAX_PREFIX_LEN ==> header.prefix@[i] == (if i < prefix@.len() {
                    prefix@[i]
                } else {
                    0
                }),
            header.exact_leaf.absent(),
            prefix@.len() <= MAX_PREFIX_LEN ==> header.wf() && header.stored_prefix() == prefix@,
            prefix@.len() <= u16::MAX ==> header.stored_prefix() == front_of(prefix@),
    {
        let mut p: [u8; 16] = [0u8; 16];
        let p_len: usize = if prefix.len() < MAX_PREFIX_LEN {
            prefix.len()
        } else {
            MAX_PREFIX_LEN
        };
        let mut i: usize = 0;
        while i < p_len
            invariant
                i <= p_len <= 16,
                p_len <= prefix@.len(),
                forall|j: int|
                    0 <= j < 16 ==> p@[j] == (if j < i {
                        prefix@[j]
                    } else {
                        0
                    }),
            decreases p_len - i,
        {
            p[i] = prefix[i];
            i = i + 1;
        }
        let header = Self {
            latch: HybridLatch::new(),
            node_type,
            num_children: 0,
            prefix_len: #[verifier::truncate]
            (prefix.len() as u16),
            prefix: p,
            exact_leaf: P::nil(),
        };
        proof {
            if prefix@.len() <= MAX_PREFIX_LEN {
                assert(header.stored_prefix() =~= prefix@);
            }
            if prefix@.len() <= u16::MAX {
                assert(header.stored_prefix() =~= front_of(prefix@));
            }
        }
        header
    }

    /// The number of children.
    pub fn num_children(&self) -> (n: u16)
        ensures
            n == self.num_children,
    {
        self.num_children
    }

    /// Counts one child more, and returns the number before.
    pub fn inc_num_children(&mut self) -> (n: u16)
        ensures
            n == old(self).num_children,
            final(self).num_children == (if n == u16::MAX {
                0
            } else {
                n + 1
            }),
            final(self).latch == old(self).latch,
            final(self).node_type == old(self).node_type,
            final(self).prefix_len == old(self).prefix_len,
            final(self).prefix == old(self).prefix,
            final(self).exact_leaf == old(self).exact_leaf,
    {
        let n: u16 = self.num_children;
        self.num_children = n.wrapping_add(1);
        n
    }

    /// Counts one child less, and returns the number before.
    pub fn dec_num_children(&mut self) -> (n: u16)
        ensures
            n == old(self).num_children,
            final(self).num_children == (if n == 0 {
                u16::MAX as int
            } else {
                n - 1
            }),
            final(self).latch == old(self).latch,
            final(self).node_type == old(self).node_type,
            final(self).prefix_len == old(self).prefix_len,
            final(self).prefix == old(self).prefix,
            final(self).exact_leaf == old(self).exact_leaf,
    {
        let n: u16 = self.num_children;
        self.num_children = n.wrapping_sub(1);
        n
    }

    /// The stored prefix.
    pub fn prefix_slice(&self) -> (prefix: &[u8])
        ensures
            prefix@ == self.stored_prefix(),
    {
        let len: usize = if (self.prefix_len as usize) < MAX_PREFIX_LEN {
            self.prefix_len as usize
        } else {
            MAX_PREFIX_LEN
        };
        let whole: &[u8] = self.prefix.as_slice();
        let r = &whole[0..len];
        assert(r@ =~= self.stored_prefix());
        r
    }

    /// Checks how many bytes of the prefix match `key[depth..]`.
    /// Returns `(matched_bytes, is_complete_prefix_match)`.
    pub fn match_prefix(&self, key: &[u8], depth: usize) -> (r: (usize, bool))
        ensures
            r.0 == (if self.prefix_len == 0 {
                0
            } else {
                order::common_len(self.stored_prefix(), rest_of(key@, depth as int))
            }),
            r.1 == (r.0 == self.prefix_len),
            r.0 <= self.stored_prefix().len(),
            order::agree(self.stored_prefix(), rest_of(key@, depth as int), r.0 as int),
    {
        if self.prefix_len == 0 {
            return (0, true);
        }
        let remaining: &[u8] = if depth < key.len() {
            &key[depth..key.len()]
        } else {
            &key[0..0]
        };
        assert(remaining@ =~= rest_of(key@, depth as int));
        let prefix = self.prefix_slice();
        let matched: usize = order::longest_common_prefix(prefix, remaining);
        let complete = matched == self.prefix_len as usize;
        (matched, complete)
    }

    /// Cuts the first `count` bytes off the prefix.
    pub fn trim_prefix(&mut self, count: usize)
        requires
            old(self).wf(),
            count <= old(self).stored_prefix().len(),
        ensures
            final(self).wf(),
            final(self).stored_prefix() == old(self).stored_prefix().skip(count as int),
            final(self).latch == old(self).latch,
            final(self).node_type == old(self).node_type,
            final(self).num_children == old(self).num_children,
            final(self).exact_leaf == old(self).exact_leaf,
    {
        let ghost before = *self;
        let mut rest: [u8; 16] = [0u8; 16];
        let rest_len: usize = self.prefix_len as usize - count;
        let mut i: usize = 0;
        while i < rest_len
            invariant
                *self == before,
                i <= rest_len,
                rest_len + count == before.prefix_len <= 16,
                forall|j: int| 0 <= j < i ==> rest@[j] == before.prefix@[j + count],
            decreases rest_len - i,
        {
            rest[i] = self.prefix[i + count];
            i = i + 1;
        }
        self.prefix = rest;
        self.prefix_len = rest_len as u16;
        assert(self.stored_prefix() =~= before.stored_prefix().skip(count as int));
    }

    /// Marks the node as replaced for good, as a writer that takes and releases the latch does.
    pub fn mark_obsolete(&mut self)
        requires
            old(self).wf(),
        ensures
            latch::obsolete(final(self).latch@),
            final(self).latch@ == old(self).latch@ | latch::OBSOLETE_BIT,
            final(self).node_type == old(self).node_type,
            final(self).num_children == old(self).num_children,
            final(self).prefix_len == old(self).prefix_len,
            final(self).prefix == old(self).prefix,
            final(self).exact_leaf == old(self).exact_leaf,
    {
        proof {
            latch::lemma_write_is_visible(self.latch@);
        }
        let _ = self.latch.lock();
        proof {
            latch::lemma_obsolete_is_final(self.latch@);
        }
        self.latch.mark_obsolete_and_unlock();
    }

    /// Counts one modification of the node, so that a version captured before it is stale.
    pub fn touch(&mut self)
        requires
            old(self).wf(),
        ensures
            final(self).wf(),
            final(self).latch@ == old(self).latch@.wrapping_add(latch::VERSION_STEP),
            final(self).latch@ != old(self).latch@,
            final(self).node_type == old(self).node_type,
            final(self).num_children == old(self).num_children,
            final(self).prefix_len == old(self).prefix_len,
            final(self).prefix == old(self).prefix,
            final(self).exact_leaf == old(self).exact_leaf,
    {
        proof {
            latch::lemma_write_is_visible(self.latch@);
        }
        let _ = self.latch.lock();
        self.latch.unlock();
    }
}

/// The bytes of a prefix that a header has room for.
pub open spec fn front_of(prefix: Seq<u8>) -> Seq<u8> {
    prefix.take(
        if prefix.len() <= MAX_PREFIX_LEN {
            prefix.len() as int
        } else {
            MAX_PREFIX_LEN as int
        },
    )
}

/// What of `key` follows its first `depth` bytes.
pub open spec fn rest_of(key: Seq<u8>, depth: int) -> Seq<u8> {
    if 0 <= depth <= key.len() {
        key.skip(depth)
    } else {
        Seq::empty()
    }
}

/// The front of a prefix is the whole prefix if it is short enough, and else its first bytes; the
/// rest of a key is what is left of it when its first bytes are taken off.
pub proof fn lemma_front_and_rest(bytes: Seq<u8>, depth: int)
    ensures
        bytes.len() <= 16 ==> front_of(bytes) == bytes,
        bytes.len() > 16 ==> front_of(bytes).len() == 16,
        bytes == front_of(bytes) + bytes.skip(front_of(bytes).len() as int),
        0 <= depth <= bytes.len() ==> bytes == bytes.take(depth) + rest_of(bytes, depth),
        depth > bytes.len() ==> rest_of(bytes, depth) == Seq::<u8>::empty(),
{
    assert(bytes.len() <= 16 ==> front_of(bytes) =~= bytes);
    assert(bytes =~= front_of(bytes) + bytes.skip(front_of(bytes).len() as int));
    if 0 <= depth <= bytes.len() {
        assert(bytes =~= bytes.take(depth) + rest_of(bytes, depth));
    }
}

/// Node with up to 4 children stored in sorted order.
pub struct Node4<P> {
    pub header: NodeHeader<P>,
    pub keys: [u8; 4],
    pub children: [P; 4],
}

impl<P: Link> Node4<P> {
    /// The children by their key byte.
    pub open spec fn kids(&self) -> Map<u8, P> {
        sorted::sorted_kids(self.keys@, self.children@, self.header.num_children as int)
    }

    /// The keys are in order, and as many as the header counts.
    pub open spec fn in_order(&self) -> bool {
        &&& self.header.node_type == NodeType::Node4
        &&& sorted::ascending(self.keys@, self.children@, self.header.num_children as int)
    }

    /// The keys are in order, and as many as the header counts, and every child leads somewhere.
    pub open spec fn wf(&self) -> bool {
        &&& self.in_order()
        &&& sorted::sorted_wf(self.keys@, self.children@, self.header.num_children as int)
    }

    /// The children are those that stand next to the counted keys, each under its key.
    pub proof fn lemma_kids(&self)
        requires
            self.in_order(),
        ensures
            forall|i: int|
                0 <= i < self.header.num_children ==> self.kids().contains_key(
                    #[trigger] self.keys@[i],
                ) && self.kids()[self.keys@[i]] == self.children@[i],
            forall|byte: u8| #[trigger]
                self.kids().contains_key(byte) ==> exists|i: int|
                    0 <= i < self.header.num_children && #[trigger] self.keys@[i] == byte,
    {
        let n = self.header.num_children as int;
        assert forall|i: int| 0 <= i < n implies self.kids().contains_key(
            #[trigger] self.keys@[i],
        ) && self.kids()[self.keys@[i]] == self.children@[i] by {
            sorted::lemma_sorted_at(self.keys@, self.children@, n, i);
        }
        assert forall|byte: u8| #[trigger] self.kids().contains_key(byte) implies exists|i: int|
            0 <= i < n && #[trigger] self.keys@[i] == byte by {
            let i = choose|i: int| sorted::key_at(self.keys@, n, byte, i);
            assert(self.keys@[i] == byte);
        }
    }

    /// The header counts the children.
    pub proof fn lemma_count(&self)
        requires
            self.in_order(),
        ensures
            self.kids().dom().finite(),
            self.kids().dom().len() == self.header.num_children,
            self.header.num_children <= 4,
    {
        sorted::lemma_sorted_len(self.keys@, self.children@, self.header.num_children as int);
    }

    /// Two nodes with the same children hold them in the same places.
    pub proof fn lemma_same_kids(&self, other: &Self)
        requires
            self.in_order(),
            other.in_order(),
            self.kids() == other.kids(),
        ensures
            self.header.num_children == other.header.num_children,
            self.keys@.take(self.header.num_children as int) == other.keys@.take(
                self.header.num_children as int,
            ),
            self.children@.take(self.header.num_children as int) == other.children@.take(
                self.header.num_children as int,
            ),
    {
        self.lemma_count();
        other.lemma_count();
        sorted::lemma_sorted_unique(
            self.keys@,
            self.children@,
            other.keys@,
            other.children@,
            self.header.num_children as int,
        );
    }

    /// The removal of a new child undoes its insertion: every other child is where it was.
    pub proof fn lemma_insert_then_remove(&self, other: &Self, key: u8, child: P)
        requires
            self.in_order(),
            other.in_order(),
            !self.kids().contains_key(key),
            other.kids() == self.kids().insert(key, child).remove(key),
        ensures
            other.kids() == self.kids(),
            other.header.num_children == self.header.num_children,
            other.keys@.take(self.header.num_children as int) == self.keys@.take(
                self.header.num_children as int,
            ),
            other.children@.take(self.header.num_children as int) == self.children@.take(
                self.header.num_children as int,
            ),
    {
        assert(other.kids() =~= self.kids());
        self.lemma_same_kids(other);
    }

    /// Every child leads somewhere.
    pub proof fn lemma_kids_present(&self)
        requires
            self.wf(),
        ensures
            forall|byte: u8|
                self.kids().contains_key(byte) ==> !(#[trigger] self.kids()[byte]).absent(),
    {
        let n = self.header.num_children as int;
        assert forall|byte: u8| self.kids().contains_key(byte) implies !(
        #[trigger] self.kids()[byte]).absent() by {
            let i = choose|i: int| sorted::key_at(self.keys@, n, byte, i);
            sorted::lemma_sorted_at(self.keys@, self.children@, n, i);
        }
    }

    /// A node without children.
    pub fn new(prefix: &[u8]) -> (node: Box<Self>)
        ensures
            node.wf(),
            node.kids() == Map::<u8, P>::empty(),
            node.header.num_children == 0,
            node.header.prefix_len == prefix@.len() as u16,
            node.header.exact_leaf.absent(),
            node.header.latch@ == 0,
            forall|i: int|
                0 <= i < MAX_PREFIX_LEN ==> node.header.prefix@[i] == (if i < prefix@.len() {
                    prefix@[i]
                } else {
                    0
                }),
            prefix@.len() <= MAX_PREFIX_LEN ==> node.header.wf() && node.header.stored_prefix()
                == prefix@,
            prefix@.len() <= u16::MAX ==> node.header.stored_prefix() == front_of(prefix@),
    {
        let node = Box::new(
            Self {
                header: NodeHeader::new(NodeType::Node4, prefix),
                keys: [0u8; 4],
                children: [P::nil(); 4],
            },
        );
        assert(node.kids() =~= Map::<u8, P>::empty());
        node
    }

    /// Checks that the keys, the children and the count agree.
    pub fn check(&self) -> (r: bool)
        ensures
            r == self.wf(),
    {
        self.header.node_type == NodeType::Node4 && sorted_check(
            &self.keys,
            &self.children,
            self.header.num_children() as usize,
        )
    }

    /// The child for `needle`.
    pub fn find_child(&self, needle: u8) -> (r: Option<P>)
        requires
            self.in_order(),
        ensures
            r == self.kids().get(needle),
    {
        let count: usize = self.header.num_children() as usize;
        match sorted_find(&self.keys, &self.children, count, needle) {
            Some(i) => Some(self.children[i]),
            None => None,
        }
    }

    /// Adds a child for a byte that has none.
    pub fn insert_child(&mut self, key: u8, child: P)
        requires
            old(self).in_order(),
            old(self).header.num_children < 4,
            !old(self).kids().contains_key(key),
        ensures
            final(self).in_order(),
            old(self).wf() && !child.absent() ==> final(self).wf(),
            final(self).kids() == old(self).kids().insert(key, child),
            final(self).header.num_children == old(self).header.num_children + 1,
            final(self).header.same_but_count(&old(self).header),
    {
        let count: usize = self.header.num_children() as usize;
        sorted_insert(&mut self.keys, &mut self.children, count, key, child);
        let _ = self.header.inc_num_children();
    }

    /// Takes out the child for a byte, if it has one.
    pub fn remove_child(&mut self, key: u8) -> (r: Option<P>)
        requires
            old(self).in_order(),
        ensures
            final(self).in_order(),
            old(self).wf() ==> final(self).wf(),
            r == old(self).kids().get(key),
            final(self).kids() == old(self).kids().remove(key),
            final(self).header.num_children == old(self).header.num_children - (if r is Some {
                1int
            } else {
                0
            }),
            final(self).header.same_but_count(&old(self).header),
    {
        let count: usize = self.header.num_children() as usize;
        match sorted_find(&self.keys, &self.children, count, key) {
            None => {
                assert(self.kids() =~= self.kids().remove(key));
                None
            },
            Some(pos) => {
                let removed: P = self.children[pos];
                sorted_remove(&mut self.keys, &mut self.children, count, pos);
                let _ = self.header.dec_num_children();
                Some(removed)
            },
        }
    }

    /// Puts another child in place of the one for a byte.
    pub fn replace_child(&mut self, byte: u8, new_child: P)
        requires
            old(self).in_order(),
            old(self).kids().contains_key(byte),
        ensures
            final(self).in_order(),
            old(self).wf() && !new_child.absent() ==> final(self).wf(),
            final(self).kids() == old(self).kids().insert(byte, new_child),
            final(self).header == old(self).header,
    {
        let count: usize = self.header.num_children() as usize;
        if let Some(pos) = sorted_find(&self.keys, &self.children, count, byte) {
            let ghost children0 = self.children@;
            self.children[pos] = new_child;
            proof {
                sorted::lemma_sorted_replace(
                    self.keys@,
                    children0,
                    count as int,
                    self.children@,
                    pos as int,
                    new_child,
                );
            }
        }
    }

    /// The first child from the byte `min` on.
    pub fn next_child(&self, min: usize) -> (r: Option<(u8, P)>)
        requires
            self.in_order(),
        ensures
            match r {
                Some((byte, child)) => {
                    &&& sorted::is_next_child(self.kids(), min as int, byte)
                    &&& self.kids()[byte] == child
                },
                None => sorted::no_next_child(self.kids(), min as int),
            },
    {
        let count: usize = self.header.num_children() as usize;
        match sorted_next(&self.keys, &self.children, count, min) {
            Some(i) => Some((self.keys[i], self.children[i])),
            None => None,
        }
    }

    /// The last child before the byte `end`.
    pub fn prev_child(&self, end: usize) -> (r: Option<(u8, P)>)
        requires
            self.in_order(),
        ensures
            match r {
                Some((byte, child)) => {
                    &&& sorted::is_prev_child(self.kids(), end as int, byte)
                    &&& self.kids()[byte] == child
                },
                None => sorted::no_prev_child(self.kids(), end as int),
            },
    {
        let count: usize = self.header.num_children() as usize;
        match sorted_prev(&self.keys, &self.children, count, end) {
            Some(i) => Some((self.keys[i], self.children[i])),
            None => None,
        }
    }
}

/// Node with up to 16 children stored in sorted order.
pub struct Node16<P> {
    pub header: NodeHeader<P>,
    pub keys: [u8; 16],
    pub children: [P; 16],
}

impl<P: Link> Node16<P> {
    /// The children by their key byte.
    pub open spec fn kids(&self) -> Map<u8, P> {
        sorted::sorted_kids(self.keys@, self.children@, self.header.num_children as int)
    }

    /// The keys are in order, and as many as the header counts.
    pub open spec fn in_order(&self) -> bool {
        &&& self.header.node_type == NodeType::Node16
        &&& sorted::ascending(self.keys@, self.children@, self.header.num_children as int)
    }

    /// The keys are in order, and as many as the header counts, and every child leads somewhere.
    pub open spec fn wf(&self) -> bool {
        &&& self.in_order()
        &&& sorted::sorted_wf(self.keys@, self.children@, self.header.num_children as int)
    }

    /// The children are those that stand next to the counted keys, each under its key.
    pub proof fn lemma_kids(&self)
        requires
            self.in_order(),
        ensures
            forall|i: int|
                0 <= i < self.header.num_children ==> self.kids().contains_key(
                    #[trigger] self.keys@[i],
                ) && self.kids()[self.keys@[i]] == self.children@[i],
            forall|byte: u8| #[trigger]
                self.kids().contains_key(byte) ==> exists|i: int|
                    0 <= i < self.header.num_children && #[trigger] self.keys@[i] == byte,
    {
        let n = self.header.num_children as int;
        assert forall|i: int| 0 <= i < n implies self.kids().contains_key(
            #[trigger] self.keys@[i],
        ) && self.kids()[self.keys@[i]] == self.children@[i] by {
            sorted::lemma_sorted_at(self.keys@, self.children@, n, i);
        }
        assert forall|byte: u8| #[trigger] self.kids().contains_key(byte) implies exists|i: int|
            0 <= i < n && #[trigger] self.keys@[i] == byte by {
            let i = choose|i: int| sorted::key_at(self.keys@, n, byte, i);
            assert(self.keys@[i] == byte);
        }
    }

    /// The header counts the children.
    pub proof fn lemma_count(&self)
        requires
            self.in_order(),
        ensures
            self.kids().dom().finite(),
            self.kids().dom().len() == self.header.num_children,
            self.header.num_children <= 16,
    {
        sorted::lemma_sorted_len(self.keys@, self.children@, self.header.num_children as int);
    }

    /// Two nodes with the same children hold them in the same places.
    pub proof fn lemma_same_kids(&self, other: &Self)
        requires
            self.in_order(),
            other.in_order(),
            self.kids() == other.kids(),
        ensures
            self.header.num_children == other.header.num_children,
            self.keys@.take(self.header.num_children as int) == other.keys@.take(
                self.header.num_children as int,
            ),
            self.children@.take(self.header.num_children as int) == other.children@.take(
                self.header.num_children as int,
            ),
    {
        self.lemma_count();
        other.lemma_count();
        sorted::lemma_sorted_unique(
            self.keys@,
            self.children@,
            other.keys@,
            other.children@,
            self.header.num_children as int,
        );
    }

    /// The removal of a new child undoes its insertion: every other child is where it was.
    pub proof fn lemma_insert_then_remove(&self, other: &Self, key: u8, child: P)
        requires
            self.in_order(),
            other.in_order(),
            !self.kids().contains_key(key),
            other.kids() == self.kids().insert(key, child).remove(key),
        ensures
            other.kids() == self.kids(),
            other.header.num_children == self.header.num_children,
            other.keys@.take(self.header.num_children as int) == self.keys@.take(
                self.header.num_children as int,
            ),
            other.children@.take(self.header.num_children as int) == self.children@.take(
                self.header.num_children as int,
            ),
    {
        assert(other.kids() =~= self.kids());
        self.lemma_same_kids(other);
    }

    /// Every child leads somewhere.
    pub proof fn lemma_kids_present(&self)
        requires
            self.wf(),
        ensures
            forall|byte: u8|
                self.kids().contains_key(byte) ==> !(#[trigger] self.kids()[byte]).absent(),
    {
        let n = self.header.num_children as int;
        assert forall|byte: u8| self.kids().contains_key(byte) implies !(
        #[trigger] self.kids()[byte]).absent() by {
            let i = choose|i: int| sorted::key_at(self.keys@, n, byte, i);
            sorted::lemma_sorted_at(self.keys@, self.children@, n, i);
        }
    }

    /// A node without children.
    pub fn new(prefix: &[u8]) -> (node: Box<Self>)
        ensures
            node.wf(),
            node.kids() == Map::<u8, P>::empty(),
            node.header.num_children == 0,
            node.header.prefix_len == prefix@.len() as u16,
            node.header.exact_leaf.absent(),
            node.header.latch@ == 0,
            forall|i: int|
                0 <= i < MAX_PREFIX_LEN ==> node.header.prefix@[i] == (if i < prefix@.len() {
                    prefix@[i]
                } else {
                    0
                }),
            prefix@.len() <= MAX_PREFIX_LEN ==> node.header.wf() && node.header.stored_prefix()
                == prefix@,
            prefix@.len() <= u16::MAX ==> node.header.stored_prefix() == front_of(prefix@),
    {
        let node = Box::new(
            Self {
                header: NodeHeader::new(NodeType::Node16, prefix),
                keys: [0u8; 16],
                children: [P::nil(); 16],
            },
        );
        assert(node.kids() =~= Map::<u8, P>::empty());
        node
    }

    /// Checks that the keys, the children and the count agree.
    pub fn check(&self) -> (r: bool)
        ensures
            r == self.wf(),
    {
        self.header.node_type == NodeType::Node16 && sorted_check(
            &self.keys,
            &self.children,
            self.header.num_children() as usize,
        )
    }

    /// The child for `needle`.
    pub fn find_child(&self, needle: u8) -> (r: Option<P>)
        requires
            self.in_order(),
        ensures
            r == self.kids().get(needle),
    {
        let count: usize = self.header.num_children() as usize;
        match find_child_node16(&self.keys, count, needle) {
            Some(idx) => {
                proof {
                    sorted::lemma_sorted_at(self.keys@, self.children@, count as int, idx as int);
                }
                Some(self.children[idx])
            },
            None => {
                assert(!self.kids().contains_key(needle)) by {
                    if self.kids().contains_key(needle) {
                        let i = choose|i: int| sorted::key_at(self.keys@, count as int, needle, i);
                        assert(self.keys@[i] == needle);
                    }
                }
                None
            },
        }
    }

    /// Adds a child for a byte that has none.
    pub fn insert_child(&mut self, key: u8, child: P)
        requires
            old(self).in_order(),
            old(self).header.num_children < 16,
            !old(self).kids().contains_key(key),
        ensures
            final(self).in_order(),
            old(self).wf() && !child.absent() ==> final(self).wf(),
            final(self).kids() == old(self).kids().insert(key, child),
            final(self).header.num_children == old(self).header.num_children + 1,
            final(self).header.same_but_count(&old(self).header),
    {
        let count: usize = self.header.num_children() as usize;
        sorted_insert(&mut self.keys, &mut self.children, count, key, child);
        let _ = self.header.inc_num_children();
    }

    /// Takes out the child for a byte, if it has one.
    pub fn remove_child(&mut self, key: u8) -> (r: Option<P>)
        requires
            old(self).in_order(),
        ensures
            final(self).in_order(),
            old(self).wf() ==> final(self).wf(),
            r == old(self).kids().get(key),
            final(self).kids() == old(self).kids().remove(key),
            final(self).header.num_children == old(self).header.num_children - (if r is Some {
                1int
            } else {
                0
            }),
            final(self).header.same_but_count(&old(self).header),
    {
        let count: usize = self.header.num_children() as usize;
        match sorted_find(&self.keys, &self.children, count, key) {
            None => {
                assert(self.kids() =~= self.kids().remove(key));
                None
            },
            Some(pos) => {
                let removed: P = self.children[pos];
                sorted_remove(&mut self.keys, &mut self.children, count, pos);
                let _ = self.header.dec_num_children();
                Some(removed)
            },
        }
    }

    /// Puts another child in place of the one for a byte.
    pub fn replace_child(&mut self, byte: u8, new_child: P)
        requires
            old(self).in_order(),
            old(self).kids().contains_key(byte),
        ensures
            final(self).in_order(),
            old(self).wf() && !new_child.absent() ==> final(self).wf(),
            final(self).kids() == old(self).kids().insert(byte, new_child),
            final(self).header == old(self).header,
    {
        let count: usize = self.header.num_children() as usize;
        if let Some(pos) = sorted_find(&self.keys, &self.children, count, byte) {
            let ghost children0 = self.children@;
            self.children[pos] = new_child;
            proof {
                sorted::lemma_sorted_replace(
                    self.keys@,
                    children0,
                    count as int,
                    self.children@,
                    pos as int,
                    new_child,
                );
            }
        }
    }

    /// The first child from the byte `min` on.
    pub fn next_child(&self, min: usize) -> (r: Option<(u8, P)>)
        requires
            self.in_order(),
        ensures
            match r {
                Some((byte, child)) => {
                    &&& sorted::is_next_child(self.kids(), min as int, byte)
                    &&& self.kids()[byte] == child
                },
                None => sorted::no_next_child(self.kids(), min as int),
            },
    {
        let count: usize = self.header.num_children() as usize;
        match sorted_next(&self.keys, &self.children, count, min) {
            Some(i) => Some((self.keys[i], self.children[i])),
            None => None,
        }
    }

    /// The last child before the byte `end`.
    pub fn prev_child(&self, end: usize) -> (r: Option<(u8, P)>)
        requires
            self.in_order(),
        ensures
            match r {
                Some((byte, child)) => {
                    &&& sorted::is_prev_child(self.kids(), end as int, byte)
                    &&& self.kids()[byte] == child
                },
                None => sorted::no_prev_child(self.kids(), end as int),
            },
    {
        let count: usize = self.header.num_children() as usize;
        match sorted_prev(&self.keys, &self.children, count, end) {
            Some(i) => Some((self.keys[i], self.children[i])),
            None => None,
        }
    }
}

/// The children that an array of indices leads to.
pub open spec fn indexed_kids<P: Link>(indices: Seq<u8>, children: Seq<P>) -> Map<u8, P> {
    Map::new(
        |byte: u8| indices[byte as int] != NODE48_EMPTY,
        |byte: u8| children[indices[byte as int] as int],
    )
}

/// Byte `byte` owns child number `i`.
pub open spec fn owns(indices: Seq<u8>, byte: u8, i: int) -> bool {
    indices[byte as int] == i
}

/// Every index leads to a child of its own, every child has an owner, and the bitmap and the
/// count agree with the indices.
pub open spec fn indexed_wf<P: Link>(
    indices: Seq<u8>,
    bits: Seq<u64>,
    children: Seq<P>,
    count: int,
) -> bool {
    &&& forall|byte: u8| #[trigger] indices[byte as int] <= NODE48_EMPTY
    &&& forall|byte: u8|
        #![trigger indices[byte as int]]
        indices[byte as int] < NODE48_EMPTY ==> !children[indices[byte as int] as int].absent()
    &&& forall|a: u8, b: u8|
        a != b && #[trigger] indices[a as int] == #[trigger] indices[b as int]
            ==> indices[a as int] == NODE48_EMPTY
    &&& forall|i: int|
        0 <= i < 48 && !(#[trigger] children[i]).absent() ==> exists|byte: u8|
            owns(indices, byte, i)
    &&& forall|byte: u8| #[trigger]
        bitmap::present(bits, byte) == (indices[byte as int] != NODE48_EMPTY)
    &&& indexed_kids(indices, children).dom().len() == count
}

/// The bitmap and the count agree with the children.
pub open spec fn direct_wf<P: Link>(bits: Seq<u64>, children: Seq<P>, count: int) -> bool {
    &&& forall|byte: u8| #[trigger] bitmap::present(bits, byte) == !children[byte as int].absent()
    &&& direct_kids(children).dom().len() == count
}

/// The bytes before `end`.
pub open spec fn bytes_below(bytes: Set<u8>, end: int) -> Set<u8> {
    Set::new(|byte: u8| bytes.contains(byte) && byte < end)
}

/// The children that stand at their own byte.
pub open spec fn direct_kids<P: Link>(children: Seq<P>) -> Map<u8, P> {
    Map::new(|byte: u8| !children[byte as int].absent(), |byte: u8| children[byte as int])
}

/// Node with up to 48 children indexed by a 256-byte mapping array.
pub struct Node48<P> {
    pub header: NodeHeader<P>,
    pub child_indices: [u8; 256],
    pub child_bitmap: [u64; 4],
    pub children: [P; 48],
}

impl<P: Link> Node48<P> {
    /// The children by their key byte.
    pub open spec fn kids(&self) -> Map<u8, P> {
        indexed_kids(self.child_indices@, self.children@)
    }

    /// The indices, the bitmap, the children and the count agree.
    pub open spec fn wf(&self) -> bool {
        &&& self.header.node_type == NodeType::Node48
        &&& indexed_wf(
            self.child_indices@,
            self.child_bitmap@,
            self.children@,
            self.header.num_children as int,
        )
    }

    /// The children are those to which an index leads, each under the byte of its index.
    pub proof fn lemma_kids(&self, byte: u8)
        ensures
            self.kids().contains_key(byte) <==> self.child_indices@[byte as int] != 48,
            self.kids().contains_key(byte) ==> self.kids()[byte]
                == self.children@[self.child_indices@[byte as int] as int],
    {
    }

    /// The header counts the children.
    pub proof fn lemma_count(&self)
        requires
            self.wf(),
        ensures
            self.kids().dom().finite(),
            self.kids().dom().len() == self.header.num_children,
            self.header.num_children <= 48,
    {
        sorted::lemma_bytes_bounded(self.kids().dom());
        let range = vstd::set_lib::set_int_range(0, 48);
        vstd::set_lib::lemma_int_range(0, 48);
        let f = |byte: u8| self.child_indices@[byte as int] as int;
        assert forall|byte: u8| self.kids().dom().contains(byte) implies range.contains(
            #[trigger] f(byte),
        ) by {
            assert(self.child_indices@[byte as int] <= NODE48_EMPTY);
        }
        let image = self.kids().dom().map(f);
        assert forall|a: u8, b: u8|
            self.kids().dom().contains(a) && self.kids().dom().contains(b) && #[trigger] f(a)
                == #[trigger] f(b) implies a == b by {
            assert(self.child_indices@[a as int] == self.child_indices@[b as int]);
        }
        self.kids().dom().lemma_map_finite(f);
        vstd::set_lib::lemma_map_size(self.kids().dom(), image, f);
        assert(image.subset_of(range));
        vstd::set_lib::lemma_len_subset(image, range);
    }

    /// Every child leads somewhere.
    pub proof fn lemma_kids_present(&self)
        requires
            self.wf(),
        ensures
            forall|byte: u8|
                self.kids().contains_key(byte) ==> !(#[trigger] self.kids()[byte]).absent(),
    {
        assert forall|byte: u8| self.kids().contains_key(byte) implies !(
        #[trigger] self.kids()[byte]).absent() by {
            assert(self.child_indices@[byte as int] <= NODE48_EMPTY);
        }
    }

    /// A node with fewer than 48 children has a free place.
    proof fn lemma_free_place(&self)
        requires
            self.wf(),
            self.header.num_children < 48,
        ensures
            exists|i: int| 0 <= i < 48 && (#[trigger] self.children@[i]).absent(),
    {
        if forall|i: int| 0 <= i < 48 ==> !(#[trigger] self.children@[i]).absent() {
            let range = vstd::set_lib::set_int_range(0, 48);
            vstd::set_lib::lemma_int_range(0, 48);
            let f = |i: int| choose|byte: u8| owns(self.child_indices@, byte, i);
            assert forall|i: int| range.contains(i) implies owns(self.child_indices@, #[trigger] f(i), i) by {
                assert(!self.children@[i].absent());
            }
            let image = range.map(f);
            assert forall|a: int, b: int|
                range.contains(a) && range.contains(b) && #[trigger] f(a)
                    == #[trigger] f(b) implies a == b by {
                assert(owns(self.child_indices@, f(a), a));
                assert(owns(self.child_indices@, f(b), b));
            }
            vstd::set_lib::lemma_map_size(range, image, f);
            sorted::lemma_bytes_bounded(self.kids().dom());
            assert forall|byte: u8| image.contains(byte) implies self.kids().dom().contains(
                byte,
            ) by {
                let i = choose|i: int| range.contains(i) && f(i) == byte;
                assert(owns(self.child_indices@, f(i), i));
            }
            vstd::set_lib::lemma_len_subset(image, self.kids().dom());
        }
    }

    /// A node without children.
    pub fn new(prefix: &[u8]) -> (node: Box<Self>)
        ensures
            node.wf(),
            node.kids() == Map::<u8, P>::empty(),
            node.header.num_children == 0,
            node.header.prefix_len == prefix@.len() as u16,
            node.header.exact_leaf.absent(),
            node.header.latch@ == 0,
            forall|i: int|
                0 <= i < MAX_PREFIX_LEN ==> node.header.prefix@[i] == (if i < prefix@.len() {
                    prefix@[i]
                } else {
                    0
                }),
            prefix@.len() <= MAX_PREFIX_LEN ==> node.header.wf() && node.header.stored_prefix()
                == prefix@,
            prefix@.len() <= u16::MAX ==> node.header.stored_prefix() == front_of(prefix@),
    {
        let node = Box::new(
            Self {
                header: NodeHeader::new(NodeType::Node48, prefix),
                child_indices: [NODE48_EMPTY; 256],
                child_bitmap: [0u64; 4],
                children: [P::nil(); 48],
            },
        );
        proof {
            assert(node.kids() =~= Map::<u8, P>::empty());
            assert(node.kids().dom() =~= Set::<u8>::empty());
            bitmap::lemma_nothing_present(node.child_bitmap@);
        }
        node
    }

    /// Checks that the indices, the bitmap, the children and the count agree.
    pub fn check(&self) -> (r: bool)
        ensures
            r == self.wf(),
    {
        if !(self.header.node_type == NodeType::Node48) {
            return false;
        }
        let ghost indices = self.child_indices@;
        let ghost kids = self.kids();
        let mut owned: [bool; 48] = [false; 48];
        let mut count: usize = 0;
        let mut byte: usize = 0;
        assert(bytes_below(kids.dom(), 0) =~= Set::<u8>::empty());
        while byte < 256
            invariant
                byte <= 256,
                indices == self.child_indices@,
                kids == self.kids(),
                count <= byte,
                count == bytes_below(kids.dom(), byte as int).len(),
                forall|b: u8| b < byte ==> #[trigger] indices[b as int] <= NODE48_EMPTY,
                forall|b: u8|
                    #![trigger indices[b as int]]
                    b < byte && indices[b as int] < NODE48_EMPTY
                        ==> !self.children@[indices[b as int] as int].absent(),
                forall|a: u8, b: u8|
                    a < byte && b < byte && a != b && #[trigger] indices[a as int]
                        == #[trigger] indices[b as int] ==> indices[a as int] == NODE48_EMPTY,
                forall|b: u8|
                    b < byte ==> #[trigger] bitmap::present(self.child_bitmap@, b) == (
                    indices[b as int] != NODE48_EMPTY),
                forall|i: int|
                    0 <= i < 48 ==> (#[trigger] owned@[i] <==> exists|b: u8|
                        b < byte && owns(indices, b, i)),
            decreases 256 - byte,
        {
            let b: u8 = byte as u8;
            let place: u8 = self.child_indices[byte];
            let ghost before = owned@;
            let ghost now = bytes_below(kids.dom(), byte as int + 1);
            proof {
                assert(indices[b as int] == place);
                sorted::lemma_bytes_bounded(bytes_below(kids.dom(), byte as int));
            }
            if place > NODE48_EMPTY {
                return false;
            }
            if is_present(&self.child_bitmap, b) != (place != NODE48_EMPTY) {
                return false;
            }
            if place != NODE48_EMPTY {
                if self.children[place as usize].is_nil() {
                    return false;
                }
                if owned[place as usize] {
                    proof {
                        let a = choose|a: u8| a < byte && owns(indices, a, place as int);
                        assert(indices[a as int] == indices[b as int]);
                    }
                    return false;
                }
                assert forall|a: u8| a < byte implies #[trigger] indices[a as int] != place by {
                    if indices[a as int] == place {
                        assert(owns(indices, a, place as int));
                    }
                }
                owned[place as usize] = true;
                count = count + 1;
                assert(now =~= bytes_below(kids.dom(), byte as int).insert(b));
            } else {
                assert(now =~= bytes_below(kids.dom(), byte as int));
            }
            assert forall|i: int| 0 <= i < 48 implies (#[trigger] owned@[i] <==> exists|c: u8|
                c < byte + 1 && owns(indices, c, i)) by {
                if owned@[i] {
                    if before[i] {
                        let c = choose|c: u8| c < byte && owns(indices, c, i);
                        assert(c < byte + 1 && owns(indices, c, i));
                    } else {
                        assert(owns(indices, b, i));
                    }
                }
                if exists|c: u8| c < byte + 1 && owns(indices, c, i) {
                    let c = choose|c: u8| c < byte + 1 && owns(indices, c, i);
                    if c < byte {
                        assert(c < byte && owns(indices, c, i));
                        assert(before[i]);
                    }
                }
            }
            byte = byte + 1;
        }
        let mut i: usize = 0;
        while i < 48
            invariant
                i <= 48,
                indices == self.child_indices@,
                forall|j: int|
                    0 <= j < 48 ==> (#[trigger] owned@[j] <==> exists|b: u8|
                        b < 256 && owns(indices, b, j)),
                forall|j: int| 0 <= j < i && !(#[trigger] self.children@[j]).absent() ==> owned@[j],
            decreases 48 - i,
        {
            if !self.children[i].is_nil() && !owned[i] {
                proof {
                    if exists|b: u8| owns(indices, b, i as int) {
                        let b = choose|b: u8| owns(indices, b, i as int);
                        assert(b < 256 && owns(indices, b, i as int));
                        assert(owned@[i as int]);
                    }
                }
                return false;
            }
            i = i + 1;
        }
        proof {
            assert(bytes_below(kids.dom(), 256) =~= kids.dom());
            assert forall|j: int|
                0 <= j < 48 && !(#[trigger] self.children@[j]).absent() implies exists|b: u8|
                owns(indices, b, j) by {
                assert(owned@[j]);
                let b = choose|b: u8| b < 256 && owns(indices, b, j);
                assert(owns(indices, b, j));
            }
        }
        count == self.header.num_children() as usize
    }

    /// The child for `needle`.
    pub fn find_child(&self, needle: u8) -> (r: Option<P>)
        requires
            self.wf(),
        ensures
            r == self.kids().get(needle),
    {
        let place: u8 = self.child_indices[needle as usize];
        if place == NODE48_EMPTY {
            None
        } else {
            Some(self.children[place as usize])
        }
    }

    /// Adds a child for a byte that has none.
    pub fn insert_child(&mut self, key: u8, child: P)
        requires
            old(self).wf(),
            old(self).header.num_children < 48,
            !old(self).kids().contains_key(key),
            !child.absent(),
        ensures
            final(self).wf(),
            final(self).kids() == old(self).kids().insert(key, child),
            final(self).header.num_children == old(self).header.num_children + 1,
            final(self).header.same_but_count(&old(self).header),
    {
        proof {
            self.lemma_free_place();
        }
        let ghost before = *self;
        let ghost free = choose|i: int| 0 <= i < 48 && (#[trigger] self.children@[i]).absent();
        let mut place: usize = 0;
        while !self.children[place].is_nil()
            invariant
                *self == before,
                0 <= place <= free < 48,
                before.children@[free].absent(),
            decreases free - place,
        {
            place = place + 1;
        }
        self.children[place] = child;
        self.child_indices[key as usize] = place as u8;
        set_bitmap_bit(&mut self.child_bitmap, key);
        let _ = self.header.inc_num_children();
        proof {
            let kids = self.kids();
            assert forall|byte: u8| byte != key implies before.child_indices@[byte as int]
                != place by {
                assert(before.child_indices@[byte as int] <= NODE48_EMPTY);
            }
            assert(kids =~= before.kids().insert(key, child));
            assert(kids.dom() =~= before.kids().dom().insert(key));
            sorted::lemma_bytes_bounded(before.kids().dom());
            assert forall|i: int| 0 <= i < 48 && !(#[trigger] self.children@[i]).absent() implies exists|
                byte: u8,
            |
                owns(self.child_indices@, byte, i) by {
                if i == place {
                    assert(owns(self.child_indices@, key, i));
                } else {
                    let byte = choose|byte: u8| owns(before.child_indices@, byte, i);
                    assert(owns(before.child_indices@, byte, i));
                    assert(byte != key);
                    assert(owns(self.child_indices@, byte, i));
                }
            }
        }
    }

    /// Takes out the child for a byte, if it has one.
    pub fn remove_child(&mut self, key: u8) -> (r: Option<P>)
        requires
            old(self).wf(),
        ensures
            final(self).wf(),
            r == old(self).kids().get(key),
            final(self).kids() == old(self).kids().remove(key),
            final(self).header.num_children == old(self).header.num_children - (if r is Some {
                1int
            } else {
                0
            }),
            final(self).header.same_but_count(&old(self).header),
    {
        let ghost before = *self;
        let place: u8 = self.child_indices[key as usize];
        if place == NODE48_EMPTY {
            assert(self.kids() =~= self.kids().remove(key));
            return None;
        }
        proof {
            self.lemma_count();
            assert(self.child_indices@[key as int] <= NODE48_EMPTY);
            assert(self.kids().dom().contains(key));
            assert(self.kids().dom().remove(key).len() == self.kids().dom().len() - 1);
        }
        self.child_indices[key as usize] = NODE48_EMPTY;
        let removed: P = self.children[place as usize];
        self.children[place as usize] = P::nil();
        clear_bitmap_bit(&mut self.child_bitmap, key);
        let _ = self.header.dec_num_children();
        proof {
            assert(self.kids() =~= before.kids().remove(key));
            assert(self.kids().dom() =~= before.kids().dom().remove(key));
            assert forall|i: int| 0 <= i < 48 && !(#[trigger] self.children@[i]).absent() implies exists|
                byte: u8,
            |
                owns(self.child_indices@, byte, i) by {
                let byte = choose|byte: u8| owns(before.child_indices@, byte, i);
                assert(owns(before.child_indices@, byte, i));
                assert(byte != key);
                assert(owns(self.child_indices@, byte, i));
            }
        }
        Some(removed)
    }

    /// Puts another child in place of the one for a byte.
    pub fn replace_child(&mut self, byte: u8, new_child: P)
        requires
            old(self).wf(),
            old(self).kids().contains_key(byte),
            !new_child.absent(),
        ensures
            final(self).wf(),
            final(self).kids() == old(self).kids().insert(byte, new_child),
            final(self).header == old(self).header,
    {
        let ghost before = *self;
        let place: u8 = self.child_indices[byte as usize];
        proof {
            assert(self.child_indices@[byte as int] <= NODE48_EMPTY);
        }
        self.children[place as usize] = new_child;
        proof {
            assert(self.kids() =~= before.kids().insert(byte, new_child));
            assert(self.kids().dom() =~= before.kids().dom());
            assert forall|i: int| 0 <= i < 48 && !(#[trigger] self.children@[i]).absent() implies exists|
                b: u8,
            |
                owns(self.child_indices@, b, i) by {
                if i == place {
                    assert(owns(self.child_indices@, byte, i));
                } else {
                    let b = choose|b: u8| owns(before.child_indices@, b, i);
                    assert(owns(before.child_indices@, b, i));
                    assert(owns(self.child_indices@, b, i));
                }
            }
        }
    }

    /// The first child from the byte `min` on.
    pub fn next_child(&self, min: usize) -> (r: Option<(u8, P)>)
        requires
            self.wf(),
        ensures
            match r {
                Some((byte, child)) => {
                    &&& sorted::is_next_child(self.kids(), min as int, byte)
                    &&& self.kids()[byte] == child
                },
                None => sorted::no_next_child(self.kids(), min as int),
            },
    {
        if min > 255 {
            return None;
        }
        match next_present_byte(&self.child_bitmap, min as u8) {
            Some(byte) => {
                let place: u8 = self.child_indices[byte as usize];
                proof {
                    assert(self.child_indices@[byte as int] <= NODE48_EMPTY);
                    assert forall|b: u8| min <= b && #[trigger] self.kids().contains_key(
                        b,
                    ) implies byte <= b by {
                        assert(bitmap::present(self.child_bitmap@, b));
                    }
                }
                Some((byte, self.children[place as usize]))
            },
            None => {
                proof {
                    assert forall|b: u8| min <= b implies !#[trigger] self.kids().contains_key(
                        b,
                    ) by {
                        assert(!bitmap::present(self.child_bitmap@, b));
                    }
                }
                None
            },
        }
    }

    /// The last child before the byte `end`.
    pub fn prev_child(&self, end: usize) -> (r: Option<(u8, P)>)
        requires
            self.wf(),
        ensures
            match r {
                Some((byte, child)) => {
                    &&& sorted::is_prev_child(self.kids(), end as int, byte)
                    &&& self.kids()[byte] == child
                },
                None => sorted::no_prev_child(self.kids(), end as int),
            },
    {
        if end == 0 {
            return None;
        }
        let max: u8 = if end > 255 {
            255
        } else {
            (end - 1) as u8
        };
        match prev_present_byte(&self.child_bitmap, max) {
            Some(byte) => {
                let place: u8 = self.child_indices[byte as usize];
                proof {
                    assert(self.child_indices@[byte as int] <= NODE48_EMPTY);
                    assert forall|b: u8| b < end && #[trigger] self.kids().contains_key(
                        b,
                    ) implies b <= byte by {
                        assert(bitmap::present(self.child_bitmap@, b));
                    }
                }
                Some((byte, self.children[place as usize]))
            },
            None => {
                proof {
                    assert forall|b: u8| b < end implies !#[trigger] self.kids().contains_key(
                        b,
                    ) by {
                        assert(!bitmap::present(self.child_bitmap@, b));
                    }
                }
                None
            },
        }
    }
}

/// Node with up to 256 children directly indexed by byte.
pub struct Node256<P> {
    pub header: NodeHeader<P>,
    pub child_bitmap: [u64; 4],
    pub children: [P; 256],
}

impl<P: Link> Node256<P> {
    /// The children by their key byte.
    pub open spec fn kids(&self) -> Map<u8, P> {
        direct_kids(self.children@)
    }

    /// The bitmap, the children and the count agree.
    pub open spec fn wf(&self) -> bool {
        &&& self.header.node_type == NodeType::Node256
        &&& direct_wf(self.child_bitmap@, self.children@, self.header.num_children as int)
    }

    /// The children are those that lead somewhere, each under the byte of its place.
    pub proof fn lemma_kids(&self, byte: u8)
        ensures
            self.kids().contains_key(byte) <==> !self.children@[byte as int].absent(),
            self.kids().contains_key(byte) ==> self.kids()[byte] == self.children@[byte as int],
    {
    }

    /// The header counts the children.
    pub proof fn lemma_count(&self)
        requires
            self.wf(),
        ensures
            self.kids().dom().finite(),
            self.kids().dom().len() == self.header.num_children,
            self.header.num_children <= 256,
    {
        sorted::lemma_bytes_bounded(self.kids().dom());
    }

    /// A node without children.
    pub fn new(prefix: &[u8]) -> (node: Box<Self>)
        ensures
            node.wf(),
            node.kids() == Map::<u8, P>::empty(),
            node.header.num_children == 0,
            node.header.prefix_len == prefix@.len() as u16,
            node.header.exact_leaf.absent(),
            node.header.latch@ == 0,
            forall|i: int|
                0 <= i < MAX_PREFIX_LEN ==> node.header.prefix@[i] == (if i < prefix@.len() {
                    prefix@[i]
                } else {
                    0
                }),
            prefix@.len() <= MAX_PREFIX_LEN ==> node.header.wf() && node.header.stored_prefix()
                == prefix@,
            prefix@.len() <= u16::MAX ==> node.header.stored_prefix() == front_of(prefix@),
    {
        let node = Box::new(
            Self {
                header: NodeHeader::new(NodeType::Node256, prefix),
                child_bitmap: [0u64; 4],
                children: [P::nil(); 256],
            },
        );
        proof {
            assert(node.kids() =~= Map::<u8, P>::empty());
            assert(node.kids().dom() =~= Set::<u8>::empty());
            bitmap::lemma_nothing_present(node.child_bitmap@);
        }
        node
    }

    /// Checks that the bitmap, the children and the count agree.
    pub fn check(&self) -> (r: bool)
        ensures
            r == self.wf(),
    {
        if !(self.header.node_type == NodeType::Node256) {
            return false;
        }
        let ghost kids = self.kids();
        let mut count: usize = 0;
        let mut byte: usize = 0;
        assert(bytes_below(kids.dom(), 0) =~= Set::<u8>::empty());
        while byte < 256
            invariant
                byte <= 256,
                kids == self.kids(),
                count <= byte,
                count == bytes_below(kids.dom(), byte as int).len(),
                forall|b: u8|
                    b < byte ==> #[trigger] bitmap::present(self.child_bitmap@, b)
                        == !self.children@[b as int].absent(),
            decreases 256 - byte,
        {
            let b: u8 = byte as u8;
            let vacant: bool = self.children[byte].is_nil();
            let ghost now = bytes_below(kids.dom(), byte as int + 1);
            proof {
                sorted::lemma_bytes_bounded(bytes_below(kids.dom(), byte as int));
                assert(self.children@[b as int].absent() == vacant);
            }
            if is_present(&self.child_bitmap, b) == vacant {
                return false;
            }
            if !vacant {
                count = count + 1;
                assert(now =~= bytes_below(kids.dom(), byte as int).insert(b));
            } else {
                assert(now =~= bytes_below(kids.dom(), byte as int));
            }
            byte = byte + 1;
        }
        assert(bytes_below(kids.dom(), 256) =~= kids.dom());
        count == self.header.num_children() as usize
    }

    /// The child for `needle`.
    pub fn find_child(&self, needle: u8) -> (r: Option<P>)
        requires
            self.wf(),
        ensures
            r == self.kids().get(needle),
    {
        let child: P = self.children[needle as usize];
        if child.is_nil() {
            None
        } else {
            Some(child)
        }
    }

    /// Adds a child for a byte that has none.
    pub fn insert_child(&mut self, key: u8, child: P)
        requires
            old(self).wf(),
            !old(self).kids().contains_key(key),
            !child.absent(),
        ensures
            final(self).wf(),
            final(self).kids() == old(self).kids().insert(key, child),
            final(self).header.num_children == old(self).header.num_children + 1,
            final(self).header.same_but_count(&old(self).header),
    {
        let ghost before = *self;
        proof {
            self.lemma_count();
        }
        self.children[key as usize] = child;
        set_bitmap_bit(&mut self.child_bitmap, key);
        let _ = self.header.inc_num_children();
        proof {
            assert(self.kids() =~= before.kids().insert(key, child));
            assert(self.kids().dom() =~= before.kids().dom().insert(key));
        }
    }

    /// Takes out the child for a byte, if it has one.
    pub fn remove_child(&mut self, key: u8) -> (r: Option<P>)
        requires
            old(self).wf(),
        ensures
            final(self).wf(),
            r == old(self).kids().get(key),
            final(self).kids() == old(self).kids().remove(key),
            final(self).header.num_children == old(self).header.num_children - (if r is Some {
                1int
            } else {
                0
            }),
            final(self).header.same_but_count(&old(self).header),
    {
        let ghost before = *self;
        let removed: P = self.children[key as usize];
        if removed.is_nil() {
            assert(self.kids() =~= self.kids().remove(key));
            return None;
        }
        proof {
            self.lemma_count();
            assert(self.kids().dom().contains(key));
            assert(self.kids().dom().remove(key).len() == self.kids().dom().len() - 1);
        }
        self.children[key as usize] = P::nil();
        clear_bitmap_bit(&mut self.child_bitmap, key);
        let _ = self.header.dec_num_children();
        proof {
            assert(self.kids() =~= before.kids().remove(key));
            assert(self.kids().dom() =~= before.kids().dom().remove(key));
        }
        Some(removed)
    }

    /// Puts another child in place of the one for a byte.
    pub fn replace_child(&mut self, byte: u8, new_child: P)
        requires
            old(self).wf(),
            old(self).kids().contains_key(byte),
            !new_child.absent(),
        ensures
            final(self).wf(),
            final(self).kids() == old(self).kids().insert(byte, new_child),
            final(self).header == old(self).header,
    {
        let ghost before = *self;
        self.children[byte as usize] = new_child;
        proof {
            assert(self.kids() =~= before.kids().insert(byte, new_child));
            assert(self.kids().dom() =~= before.kids().dom());
        }
    }

    /// The first child from the byte `min` on.
    pub fn next_child(&self, min: usize) -> (r: Option<(u8, P)>)
        requires
            self.wf(),
        ensures
            match r {
                Some((byte, child)) => {
                    &&& sorted::is_next_child(self.kids(), min as int, byte)
                    &&& self.kids()[byte] == child
                },
                None => sorted::no_next_child(self.kids(), min as int),
            },
    {
        if min > 255 {
            return None;
        }
        match next_present_byte(&self.child_bitmap, min as u8) {
            Some(byte) => {
                proof {
                    assert forall|b: u8| min <= b && #[trigger] self.kids().contains_key(
                        b,
                    ) implies byte <= b by {
                        assert(bitmap::present(self.child_bitmap@, b));
                    }
                }
                Some((byte, self.children[byte as usize]))
            },
            None => {
                proof {
                    assert forall|b: u8| min <= b implies !#[trigger] self.kids().contains_key(
                        b,
                    ) by {
                        assert(!bitmap::present(self.child_bitmap@, b));
                    }
                }
                None
            },
        }
    }

    /// The last child before the byte `end`.
    pub fn prev_child(&self, end: usize) -> (r: Option<(u8, P)>)
        requires
            self.wf(),
        ensures
            match r {
                Some((byte, child)) => {
                    &&& sorted::is_prev_child(self.kids(), end as int, byte)
                    &&& self.kids()[byte] == child
                },
                None => sorted::no_prev_child(self.kids(), end as int),
            },
    {
        if end == 0 {
            return None;
        }
        let max: u8 = if end > 255 {
            255
        } else {
            (end - 1) as u8
        };
        match prev_present_byte(&self.child_bitmap, max) {
            Some(byte) => {
                proof {
                    assert forall|b: u8| b < end && #[trigger] self.kids().contains_key(
                        b,
                    ) implies b <= byte by {
                        assert(bitmap::present(self.child_bitmap@, b));
                    }
                }
                Some((byte, self.children[byte as usize]))
            },
            None => {
                proof {
                    assert forall|b: u8| b < end implies !#[trigger] self.kids().contains_key(
                        b,
                    ) by {
                        assert(!bitmap::present(self.child_bitmap@, b));
                    }
                }
                None
            },
        }
    }
}

} // verus!
