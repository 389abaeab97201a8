//! # Nodes in an arena
//!
//! The node layouts over 32-bit tagged offsets, and leaves that form chains of versions.

use crate::key::AsBytes;
use crate::node::Link;
use crate::trie::Keyed;
use vstd::prelude::*;

pub use crate::bitmap::{
    clear_bitmap_bit, next_present_byte, prev_present_byte, set_bitmap_bit,
};

verus! {

/// Tag bit distinguishing a leaf offset from an inner node offset.
pub const TAG_LEAF: u32 = 0b01;

/// The bytes that a node of the smallest layout takes in the arena.
pub const NODE4_SIZE: u32 = 64;

/// The bytes that a `Node16` takes in the arena.
pub const NODE16_SIZE: u32 = 120;

/// The bytes that a `Node48` takes in the arena.
pub const NODE48_SIZE: u32 = 520;

/// The bytes that a `Node256` takes in the arena.
pub const NODE256_SIZE: u32 = 1096;

/// The header of an inner node in an arena.
pub type NodeHeader = crate::node::NodeHeader<TaggedOffset>;

/// A node with up to 4 children in an arena.
pub type Node4 = crate::node::Node4<TaggedOffset>;

/// A node with up to 16 children in an arena.
pub type Node16 = crate::node::Node16<TaggedOffset>;

/// A node with up to 48 children in an arena.
pub type Node48 = crate::node::Node48<TaggedOffset>;

/// A node with up to 256 children in an arena.
pub type Node256 = crate::node::Node256<TaggedOffset>;

/// A 32-bit tagged arena offset leading to either a leaf or an inner node.
#[derive(Copy, Clone, PartialEq, Eq, Structural, Debug)]
pub struct TaggedOffset(pub u32);

impl Link for TaggedOffset {
    open spec fn absent(self) -> bool {
        self.0 == 0
    }

    open spec fn leaf(self) -> bool {
        self.0 % 2 == 1
    }

    open spec fn slot(self) -> nat {
        (self.0 / 8) as nat
    }

    fn nil() -> (link: Self) {
        TaggedOffset(0)
    }

    fn is_nil(self) -> (r: bool) {
        self.0 == 0
    }

    fn has_leaf_tag(self) -> (r: bool) {
        self.is_leaf()
    }

    fn slot_number(self) -> (slot: usize) {
        (self.0 / 8) as usize
    }
}

impl TaggedOffset {
    /// The offset that leads nowhere.
    pub fn null() -> (tagged: Self)
        ensures
            tagged.0 == 0,
    {
        TaggedOffset(0)
    }

    /// Tags the offset of a leaf.
    pub fn from_leaf(offset: u32) -> (tagged: Self)
        requires
            offset % 2 == 0,
        ensures
            tagged.0 == offset | TAG_LEAF,
            tagged.0 == offset + 1,
            tagged.leaf(),
    {
        proof {
            assert(offset % 2 == 0 ==> offset | 1 == offset + 1) by (bit_vector);
        }
        TaggedOffset(offset | TAG_LEAF)
    }

    /// Holds the offset of an inner node.
    pub fn from_inner(offset: u32) -> (tagged: Self)
        requires
            offset % 2 == 0,
        ensures
            tagged.0 == offset,
            !tagged.leaf(),
    {
        TaggedOffset(offset)
    }

    /// The offset leads nowhere.
    pub fn is_null(self) -> (r: bool)
        ensures
            r == (self.0 == 0),
    {
        self.0 == 0
    }

    /// The offset leads to a leaf.
    pub fn is_leaf(self) -> (r: bool)
        ensures
            r == (self.0 & TAG_LEAF != 0),
            r == self.leaf(),
    {
        let raw: u32 = self.0;
        proof {
            assert(raw & 1 != 0 <==> raw % 2 == 1) by (bit_vector);
        }
        (self.0 & TAG_LEAF) != 0
    }

    /// The offset of the leaf.
    pub fn leaf_offset(self) -> (offset: u32)
        requires
            self.leaf(),
        ensures
            offset == self.0 & !TAG_LEAF,
            offset == self.0 - 1,
    {
        let raw: u32 = self.0;
        proof {
            assert(raw % 2 == 1 ==> raw & !1u32 == raw - 1) by (bit_vector);
        }
        self.0 & !TAG_LEAF
    }

    /// The offset of the inner node.
    pub fn inner_offset(self) -> (offset: u32)
        requires
            !self.leaf(),
        ensures
            offset == self.0,
    {
        self.0
    }

    /// The tagged offset as a number.
    pub fn raw(self) -> (raw: u32)
        ensures
            raw == self.0,
    {
        self.0
    }
}

/// A leaf node placed within the arena.
pub struct Leaf<K, V> {
    /// The entry was removed.
    pub removed: bool,
    /// 32-bit offset of an older version of this key, or 0 if none.
    pub next_version_offset: u32,
    /// 64-bit monotonic sequence number or timestamp.
    pub version: u64,
    pub key: K,
    pub value: V,
}

impl<K, V> Leaf<K, V> {
    /// A live leaf without older versions.
    pub fn new(key: K, version: u64, value: V) -> (leaf: Box<Self>)
        ensures
            !leaf.removed,
            leaf.next_version_offset == 0,
            leaf.version == version,
            leaf.key == key,
            leaf.value == value,
    {
        Box::new(Leaf { removed: false, next_version_offset: 0, version, key, value })
    }
}

impl<K: AsBytes, V> Keyed for Leaf<K, V> {
    open spec fn own_key(&self) -> Seq<u8> {
        self.key.key_bytes()
    }

    fn key_slice(&self) -> (bytes: &[u8]) {
        self.key.as_bytes()
    }
}

} // verus!
