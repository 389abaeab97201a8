//! # Tree in an arena
//!
//! The tree behind [`ArenaArtMap`](crate::arena::ArenaArtMap). Its nodes and leaves stand at
//! offsets that an [`Arena`] hands out; nothing is ever taken back. A leaf that is superseded by
//! a newer version of its entry stays where it is, and the newer leaf leads to it.

use crate::arena::node::{
    Leaf, TaggedOffset, NODE16_SIZE, NODE256_SIZE, NODE48_SIZE, NODE4_SIZE,
};
use crate::arena;
use crate::arena::Arena;
use crate::inspect::LookupStep;
use crate::key::AsBytes;
use crate::latch;
use crate::latch::HybridLatch;
use crate::node::{Link, NodeType};
use crate::order::same_bytes;
use crate::trie;
use crate::trie::{Keyed, Need, Slot, Spot, Trie};
use vstd::prelude::*;

verus! {

/// One version of an entry.
pub struct Version<K, V> {
    /// The entry was removed at this version.
    pub removed: bool,
    /// The sequence number.
    pub version: u64,
    /// The key.
    pub key: K,
    /// The value.
    pub value: V,
}

/// The version that a leaf holds.
pub open spec fn version_of<K, V>(leaf: Leaf<K, V>) -> Version<K, V> {
    Version { removed: leaf.removed, version: leaf.version, key: leaf.key, value: leaf.value }
}

/// The versions from the leaf in a slot on, newest first.
pub open spec fn history<K: AsBytes, V>(
    slots: Seq<Slot<TaggedOffset, Leaf<K, V>>>,
    slot: int,
) -> Seq<Version<K, V>>
    decreases slot,
{
    if 0 <= slot < slots.len() {
        match slots[slot] {
            Slot::Leaf(leaf) => {
                let older = (leaf.next_version_offset / 8) as int;
                seq![version_of(*leaf)] + (if leaf.next_version_offset != 0 && older < slot {
                    history(slots, older)
                } else {
                    Seq::empty()
                })
            },
            _ => Seq::empty(),
        }
    } else {
        Seq::empty()
    }
}

/// The leaf in a slot leads to an older leaf of the same key, or to none.
pub open spec fn link_ok<K: AsBytes, V>(
    slots: Seq<Slot<TaggedOffset, Leaf<K, V>>>,
    slot: int,
) -> bool {
    slots[slot] matches Slot::Leaf(leaf) ==> {
        let older = (leaf.next_version_offset / 8) as int;
        leaf.next_version_offset != 0 ==> {
            &&& leaf.next_version_offset % 8 == 0
            &&& older < slot
            &&& slots[older] matches Slot::Leaf(old_leaf) && old_leaf.own_key() == leaf.own_key()
        }
    }
}

/// Every leaf leads to an older leaf of the same key, or to none.
pub open spec fn chains_ok<K: AsBytes, V>(slots: Seq<Slot<TaggedOffset, Leaf<K, V>>>) -> bool {
    forall|i: int| 0 <= i < slots.len() ==> #[trigger] link_ok(slots, i)
}

/// The versions from a leaf on depend only on the leaves of its key up to its slot.
proof fn lemma_history_frame<K: AsBytes, V>(
    a: Seq<Slot<TaggedOffset, Leaf<K, V>>>,
    b: Seq<Slot<TaggedOffset, Leaf<K, V>>>,
    slot: int,
    key: Seq<u8>,
)
    requires
        chains_ok(a),
        0 <= slot < a.len(),
        a.len() <= b.len(),
        a[slot] matches Slot::Leaf(leaf) && leaf.own_key() == key,
        forall|i: int|
            0 <= i <= slot && (a[i] matches Slot::Leaf(leaf) && leaf.own_key() == key)
                ==> #[trigger] b[i] == a[i],
    ensures
        history(b, slot) == history(a, slot),
    decreases slot,
{
    assert(link_ok(a, slot));
    assert(b[slot] == a[slot]);
    if let Slot::Leaf(leaf) = a[slot] {
        if leaf.next_version_offset != 0 {
            lemma_history_frame(a, b, (leaf.next_version_offset / 8) as int, key);
        }
    }
}

/// The versions of an entry all have its key, and there is at least one.
pub proof fn lemma_history_keys<K: AsBytes, V>(
    slots: Seq<Slot<TaggedOffset, Leaf<K, V>>>,
    slot: int,
    key: Seq<u8>,
)
    requires
        chains_ok(slots),
        0 <= slot < slots.len(),
        slots[slot] matches Slot::Leaf(leaf) && leaf.own_key() == key,
    ensures
        history(slots, slot).len() > 0,
        history(slots, slot)[0] == version_of(*(slots[slot]->Leaf_0)),
        forall|i: int|
            0 <= i < history(slots, slot).len() ==> (#[trigger] history(
                slots,
                slot,
            )[i]).key.key_bytes() == key,
    decreases slot,
{
    assert(link_ok(slots, slot));
    if let Slot::Leaf(leaf) = slots[slot] {
        let h = history(slots, slot);
        if leaf.next_version_offset != 0 {
            let older = (leaf.next_version_offset / 8) as int;
            lemma_history_keys(slots, older, key);
            let rest = history(slots, older);
            assert forall|i: int| 0 <= i < h.len() implies (#[trigger] h[i]).key.key_bytes()
                == key by {
                if i > 0 {
                    assert(h[i] == rest[i - 1]);
                }
            }
        }
    }
}

/// The keys whose newest version is not removed.
pub open spec fn live_keys<K, V>(entries: Map<Seq<u8>, Seq<Version<K, V>>>) -> Set<Seq<u8>> {
    Set::new(|key: Seq<u8>| entries.contains_key(key) && !entries[key][0].removed)
}

/// The versions after `value` was put in under `key`: the newest version, if there is one, gets
/// the value and is live again, and else there is a first version with number zero.
pub open spec fn after_insert<K: AsBytes, V>(
    entries: Map<Seq<u8>, Seq<Version<K, V>>>,
    key: K,
    value: V,
) -> Map<Seq<u8>, Seq<Version<K, V>>> {
    after_replace(entries, key, 0, value)
}

/// The versions after `value` was put in under `key`: the newest version, if there is one, gets
/// the value, keeps its number and is live again, and else there is a first version.
pub open spec fn after_replace<K: AsBytes, V>(
    entries: Map<Seq<u8>, Seq<Version<K, V>>>,
    key: K,
    version: u64,
    value: V,
) -> Map<Seq<u8>, Seq<Version<K, V>>> {
    let bytes = key.key_bytes();
    if entries.contains_key(bytes) {
        let versions = entries[bytes];
        entries.insert(
            bytes,
            versions.update(0, Version { removed: false, value, ..versions[0] }),
        )
    } else {
        entries.insert(bytes, seq![Version { removed: false, version, key, value }])
    }
}

/// The versions after a new version of an entry was put in front.
pub open spec fn after_insert_versioned<K: AsBytes, V>(
    entries: Map<Seq<u8>, Seq<Version<K, V>>>,
    key: K,
    version: u64,
    value: V,
) -> Map<Seq<u8>, Seq<Version<K, V>>> {
    let bytes = key.key_bytes();
    let newest = seq![Version { removed: false, version, key, value }];
    if entries.contains_key(bytes) {
        entries.insert(bytes, newest + entries[bytes])
    } else {
        entries.insert(bytes, newest)
    }
}

/// The versions after an entry was removed: its newest version is marked.
pub open spec fn after_remove<K, V>(
    entries: Map<Seq<u8>, Seq<Version<K, V>>>,
    key: Seq<u8>,
) -> Map<Seq<u8>, Seq<Version<K, V>>> {
    if entries.contains_key(key) {
        let versions = entries[key];
        entries.insert(key, versions.update(0, Version { removed: true, ..versions[0] }))
    } else {
        entries
    }
}

/// The value of a live entry.
pub open spec fn live_value<K, V>(
    entries: Map<Seq<u8>, Seq<Version<K, V>>>,
    key: Seq<u8>,
) -> Option<V> {
    if live_keys(entries).contains(key) {
        Some(entries[key][0].value)
    } else {
        None
    }
}

/// Version `i` is the first, from the newest on, that is not later than `max_version`.
pub open spec fn is_snapshot<K, V>(versions: Seq<Version<K, V>>, max_version: u64, i: int) -> bool {
    &&& 0 <= i < versions.len()
    &&& versions[i].version <= max_version
    &&& forall|j: int| 0 <= j < i ==> (#[trigger] versions[j]).version > max_version
}

/// All versions are later than `max_version`.
pub open spec fn no_snapshot<K, V>(versions: Seq<Version<K, V>>, max_version: u64) -> bool {
    forall|j: int| 0 <= j < versions.len() ==> (#[trigger] versions[j]).version > max_version
}

/// The bytes of a leaf before its key.
pub const LEAF_HEAD: usize = 16;

/// The bytes that an allocation takes at most for its alignment.
pub const ALIGNMENT_LOSS: u32 = 7;

/// The size of a node of the given layout in the arena.
pub open spec fn layout_size(layout: NodeType) -> nat {
    match layout {
        NodeType::Node4 => NODE4_SIZE as nat,
        NodeType::Node16 => NODE16_SIZE as nat,
        NodeType::Node48 => NODE48_SIZE as nat,
        NodeType::Node256 => NODE256_SIZE as nat,
    }
}

/// The size of each new node of an insertion.
pub open spec fn node_size(need: Need) -> nat {
    match need {
        Need::Growth(layout) => layout_size(layout),
        _ => NODE4_SIZE as nat,
    }
}

/// The bytes that the new nodes of an insertion take from the arena.
pub open spec fn node_bytes(need: Need) -> nat {
    match need {
        Need::Nothing => 0,
        Need::Chain(n) => n as nat * (NODE4_SIZE + ALIGNMENT_LOSS) as nat,
        Need::Growth(layout) => layout_size(layout) + ALIGNMENT_LOSS as nat,
    }
}

/// The alignment of a leaf in the arena.
pub open spec fn leaf_alignment<K, V>() -> int {
    let key = vstd::layout::align_of::<K>() as int;
    let value = vstd::layout::align_of::<V>() as int;
    let greater = if key > value {
        key
    } else {
        value
    };
    if greater > 8 {
        greater
    } else {
        8
    }
}

/// The size of a leaf in the arena. Its fields stand one behind the other, each at the next offset
/// that suits it: the flag, the offset of the older version and the version number in 16 bytes,
/// then the key and the value.
pub open spec fn leaf_size<K, V>() -> nat {
    let key_at = arena::align_up(LEAF_HEAD as int, vstd::layout::align_of::<K>() as int);
    let value_at = arena::align_up(
        key_at + vstd::layout::size_of::<K>(),
        vstd::layout::align_of::<V>() as int,
    );
    arena::align_up(
        value_at + vstd::layout::size_of::<V>(),
        leaf_alignment::<K, V>(),
    ) as nat
}

/// A bound on the bytes that the insertion of a key of the given length takes from the arena:
/// room for the leaf, for the largest node, and for a small node for every part of the key.
pub open spec fn max_cost<K, V>(key_len: nat) -> nat {
    leaf_size::<K, V>() + ALIGNMENT_LOSS as nat + NODE256_SIZE as nat + ALIGNMENT_LOSS as nat + (
    key_len / 17 + 1) * (NODE4_SIZE + ALIGNMENT_LOSS) as nat
}

/// A leaf has room for its head, its key and its value, one behind the other, each where its
/// alignment allows and with no more room between them than that takes.
pub proof fn lemma_leaf_size<K, V>() -> (at: (int, int))
    requires
        vstd::layout::align_of::<K>() > 0,
        vstd::layout::align_of::<V>() > 0,
    ensures
        16 <= at.0 < 16 + vstd::layout::align_of::<K>(),
        at.0 % (vstd::layout::align_of::<K>() as int) == 0,
        at.0 + vstd::layout::size_of::<K>() <= at.1 < at.0 + vstd::layout::size_of::<K>()
            + vstd::layout::align_of::<V>(),
        at.1 % (vstd::layout::align_of::<V>() as int) == 0,
        at.1 + vstd::layout::size_of::<V>() <= leaf_size::<K, V>() < at.1
            + vstd::layout::size_of::<V>() + leaf_alignment::<K, V>(),
        leaf_size::<K, V>() as int % leaf_alignment::<K, V>() == 0,
        leaf_alignment::<K, V>() >= 8,
        leaf_alignment::<K, V>() >= vstd::layout::align_of::<K>(),
        leaf_alignment::<K, V>() >= vstd::layout::align_of::<V>(),
        leaf_alignment::<K, V>() == 8 || leaf_alignment::<K, V>() == vstd::layout::align_of::<K>()
            || leaf_alignment::<K, V>() == vstd::layout::align_of::<V>(),
{
    let key_at = arena::align_up(16, vstd::layout::align_of::<K>() as int);
    arena::lemma_align_up_bounds(16, vstd::layout::align_of::<K>() as int);
    let key_end = key_at + vstd::layout::size_of::<K>();
    let value_at = arena::align_up(key_end, vstd::layout::align_of::<V>() as int);
    arena::lemma_align_up_bounds(key_end, vstd::layout::align_of::<V>() as int);
    arena::lemma_align_up_bounds(
        value_at + vstd::layout::size_of::<V>(),
        leaf_alignment::<K, V>(),
    );
    (key_at, value_at)
}

/// The sizes of the layouts, and the bytes that new nodes take: each its size and what its
/// alignment may cost.
pub proof fn lemma_node_bytes(n: usize)
    ensures
        layout_size(NodeType::Node4) == 64,
        layout_size(NodeType::Node16) == 120,
        layout_size(NodeType::Node48) == 520,
        layout_size(NodeType::Node256) == 1096,
        node_bytes(Need::Nothing) == 0,
        node_bytes(Need::Chain(n)) == n * 71,
        node_bytes(Need::Growth(NodeType::Node16)) == 127,
        node_bytes(Need::Growth(NodeType::Node48)) == 527,
        node_bytes(Need::Growth(NodeType::Node256)) == 1103,
        node_size(Need::Chain(n)) == 64,
        node_size(Need::Growth(NodeType::Node16)) == 120,
        node_size(Need::Growth(NodeType::Node48)) == 520,
        node_size(Need::Growth(NodeType::Node256)) == 1096,
{
}

/// Computes the least multiple of `alignment` that is at least `n`, if it fits in a `usize`.
fn aligned(n: usize, alignment: usize) -> (r: Option<usize>)
    requires
        alignment > 0,
    ensures
        match r {
            Some(m) => m == arena::align_up(n as int, alignment as int),
            None => arena::align_up(n as int, alignment as int) > usize::MAX,
        },
        arena::align_up(n as int, alignment as int) >= n,
{
    let rest: usize = n % alignment;
    proof {
        let q = n as int / alignment as int;
        vstd::arithmetic::div_mod::lemma_fundamental_div_mod(n as int, alignment as int);
        vstd::arithmetic::mul::lemma_mul_is_commutative(alignment as int, q);
        if rest == 0 {
            vstd::arithmetic::div_mod::lemma_fundamental_div_mod_converse(
                n + alignment - 1,
                alignment as int,
                q,
                alignment - 1,
            );
        } else {
            assert((q + 1) * alignment == q * alignment + alignment) by (nonlinear_arith);
            vstd::arithmetic::div_mod::lemma_fundamental_div_mod_converse(
                n + alignment - 1,
                alignment as int,
                q + 1,
                rest - 1,
            );
        }
    }
    if rest == 0 {
        Some(n)
    } else {
        n.checked_add(alignment - rest)
    }
}

/// Computes the size of a leaf in the arena, if it fits in a `usize`.
fn leaf_layout_size<K, V>() -> (r: Option<usize>)
    ensures
        match r {
            Some(size) => size == leaf_size::<K, V>(),
            None => leaf_size::<K, V>() > usize::MAX,
        },
        leaf_size::<K, V>() >= LEAF_HEAD,
{
    vstd::layout::layout_for_type_is_valid::<K>();
    vstd::layout::layout_for_type_is_valid::<V>();
    let key_alignment: usize = std::mem::align_of::<K>();
    let value_alignment: usize = std::mem::align_of::<V>();
    let greater: usize = if key_alignment > value_alignment {
        key_alignment
    } else {
        value_alignment
    };
    let alignment: usize = if greater > 8 {
        greater
    } else {
        8
    };
    let ghost key_at = arena::align_up(LEAF_HEAD as int, key_alignment as int);
    let ghost key_end = key_at + vstd::layout::size_of::<K>();
    let ghost value_at = arena::align_up(key_end, value_alignment as int);
    let ghost value_end = value_at + vstd::layout::size_of::<V>();
    proof {
        arena::lemma_align_up_bounds(LEAF_HEAD as int, key_alignment as int);
        arena::lemma_align_up_bounds(key_end, value_alignment as int);
        arena::lemma_align_up_bounds(value_end, alignment as int);
    }
    let key_at: usize = match aligned(LEAF_HEAD, key_alignment) {
        Some(n) => n,
        None => {
            return None;
        },
    };
    let key_end: usize = match key_at.checked_add(std::mem::size_of::<K>()) {
        Some(n) => n,
        None => {
            return None;
        },
    };
    let value_at: usize = match aligned(key_end, value_alignment) {
        Some(n) => n,
        None => {
            return None;
        },
    };
    match value_at.checked_add(std::mem::size_of::<V>()) {
        Some(n) => aligned(n, alignment),
        None => None,
    }
}

/// An adaptive radix tree whose nodes and leaves stand in an [`Arena`].
pub struct ArenaTree<K: AsBytes + Clone, V: Clone> {
    /// The nodes and the leaves, by their offset in the arena.
    pub trie: Trie<TaggedOffset, Leaf<K, V>>,
    /// Guards the root.
    pub root_latch: HybridLatch,
    /// The number of live entries.
    pub len: usize,
    /// Hands out the offsets.
    pub arena: Arena,
}

impl<K: AsBytes + Clone, V: Clone> View for ArenaTree<K, V> {
    type V = Map<Seq<u8>, Seq<Version<K, V>>>;

    /// The versions of every entry, newest first, by the bytes of the key. An entry that was
    /// removed is still there: its newest version says so.
    open spec fn view(&self) -> Map<Seq<u8>, Seq<Version<K, V>>> {
        Map::new(
            |key: Seq<u8>| self.trie.keys().contains_key(key),
            |key: Seq<u8>| history(self.trie.slots@, self.trie.keys()[key].slot() as int),
        )
    }
}

impl<K: AsBytes + Clone, V: Clone> ArenaTree<K, V> {
    /// The nodes form a tree, the versions form chains, all slots lie in the used part of the
    /// arena, and the length counts the live entries.
    pub open spec fn wf(&self) -> bool {
        &&& self.body_wf()
        &&& self.len == live_keys(self@).len()
    }

    /// What `wf` says but for the length.
    pub open spec fn body_wf(&self) -> bool {
        &&& self.trie.wf()
        &&& chains_ok(self.trie.slots@)
        &&& self.trie.slots@[0] is Vacant
        &&& self.arena.wf()
        &&& 8 * (self.trie.slots@.len() - 1) < self.arena.used()
        &&& self.root_latch.is_free()
    }

    /// The bytes that the insertion of `key` takes from the arena.
    pub open spec fn cost(&self, key: Seq<u8>) -> nat {
        leaf_size::<K, V>() + ALIGNMENT_LOSS as nat + node_bytes(self.trie.needed(key))
    }

    /// The offset that the arena hands out next.
    pub open spec fn next_offset(&self) -> int {
        arena::align_up(self.arena.used() as int, 8)
    }

    /// The offset of the last new node that the insertion of `key` takes from the arena, behind
    /// the leaf and the other new nodes.
    pub open spec fn last_node_offset(&self, key: Seq<u8>) -> int {
        let need = self.trie.needed(key);
        arena::align_up(
            self.arena.used() + leaf_size::<K, V>() + ALIGNMENT_LOSS + (need.count() - 1) * (
            node_size(need) + ALIGNMENT_LOSS),
            8,
        )
    }

    /// The root after the insertion of `key`, which puts a newer version in front of that of an
    /// entry where `prepend` says so.
    pub open spec fn root_after_insert(&self, key: Seq<u8>, prepend: bool) -> TaggedOffset {
        if !self.trie.root_written(key) {
            self.trie.root
        } else if self.trie.root.absent() {
            TaggedOffset((self.next_offset() + 1) as u32)
        } else if self.trie.root_is_leaf() && self.trie.key_at(self.trie.root) == key {
            if prepend {
                TaggedOffset((self.next_offset() + 1) as u32)
            } else {
                self.trie.root
            }
        } else {
            TaggedOffset(self.last_node_offset(key) as u32)
        }
    }

    /// The arena has room for the insertion of `key`.
    pub open spec fn has_room(&self, key: Seq<u8>) -> bool {
        self.arena.used() + self.cost(key) <= self.arena.total()
    }

    /// What holds of the entries.
    pub proof fn lemma_entries(&self)
        requires
            self.body_wf(),
        ensures
            self@.dom() == self.trie.keys().dom(),
            self@.dom().finite(),
            live_keys(self@).finite(),
            live_keys(self@).len() <= self.trie.slots@.len(),
            forall|key: Seq<u8>| #[trigger]
                self@.contains_key(key) ==> {
                    let link = self.trie.keys()[key];
                    &&& self.trie.is_entry(link)
                    &&& self.trie.key_at(link) == key
                    &&& self@[key].len() > 0
                    &&& self@[key][0] == version_of(self.trie.leaf_at(link))
                    &&& forall|i: int|
                        0 <= i < self@[key].len() ==> (#[trigger] self@[key][i]).key.key_bytes()
                            == key
                },
    {
        assert(self@.dom() =~= self.trie.keys().dom());
        self.trie.lemma_keys_bounded();
        assert(live_keys(self@).subset_of(self@.dom()));
        vstd::set_lib::lemma_len_subset(live_keys(self@), self@.dom());
        assert forall|key: Seq<u8>| #[trigger] self@.contains_key(key) implies ({
            let link = self.trie.keys()[key];
            &&& self.trie.is_entry(link)
            &&& self.trie.key_at(link) == key
            &&& self@[key].len() > 0
            &&& self@[key][0] == version_of(self.trie.leaf_at(link))
            &&& forall|i: int|
                0 <= i < self@[key].len() ==> (#[trigger] self@[key][i]).key.key_bytes() == key
        }) by {
            assert(self.trie.outline().keyed(key));
            lemma_history_keys(self.trie.slots@, self.trie.keys()[key].slot() as int, key);
        }
    }

    /// The newest version of an entry is what its leaf says, and the older ones are those of the
    /// leaf to which that leads.
    pub proof fn lemma_newest(&self, key: Seq<u8>)
        requires
            self.body_wf(),
            self@.contains_key(key),
        ensures
            ({
                let leaf = self.trie.leaf_at(self.trie.keys()[key]);
                &&& self@[key].len() > 0
                &&& self@[key][0].removed == leaf.removed
                &&& self@[key][0].version == leaf.version
                &&& self@[key][0].key == leaf.key
                &&& self@[key][0].value == leaf.value
                &&& leaf.next_version_offset == 0 <==> self@[key].len() == 1
                &&& leaf.next_version_offset != 0 ==> self@[key].skip(1) == history(
                    self.trie.slots@,
                    (leaf.next_version_offset / 8) as int,
                )
            }),
    {
        self.lemma_entries();
        let slot = self.trie.keys()[key].slot() as int;
        assert(self.trie.outline().keyed(key));
        assert(link_ok(self.trie.slots@, slot));
        let leaf = self.trie.leaf_at(self.trie.keys()[key]);
        if leaf.next_version_offset != 0 {
            let older = (leaf.next_version_offset / 8) as int;
            lemma_history_keys(self.trie.slots@, older, leaf.own_key());
            assert(self@[key].skip(1) =~= history(self.trie.slots@, older));
        }
    }

    /// The first leaf stands at the first offset from the used part on that is a multiple of eight,
    /// and the root leads to it as a leaf. A newer version of the only entry stands there too, while
    /// a plain write leaves the root where it was.
    pub proof fn lemma_root_offset(&self, key: Seq<u8>, prepend: bool)
        requires
            self.wf(),
            key.len() <= usize::MAX,
            self.arena.used() + 8 <= u32::MAX,
        ensures
            self.next_offset() % 8 == 0,
            self.arena.used() <= self.next_offset() < self.arena.used() + 8,
            self.trie.root.absent() ==> self.root_after_insert(key, prepend).0 == self.next_offset()
                + 1,
            self.trie.root_is_leaf() && self@.contains_key(key) ==> self.root_after_insert(
                key,
                true,
            ).0 == self.next_offset() + 1 && self.root_after_insert(key, false) == self.trie.root,
            !self.trie.root.absent() && !self.trie.root_is_leaf() && self@.contains_key(key)
                ==> self.root_after_insert(key, prepend) == self.trie.root,
            self.root_after_insert(key, prepend) != self.trie.root ==> self.trie.root_written(key),
    {
        arena::lemma_align_up_bounds(self.arena.used() as int, 8);
        self.lemma_entries();
        self.trie.lemma_root_latched(key);
        if self.trie.root_is_leaf() && self@.contains_key(key) {
            let o = self.trie.outline();
            assert(o.node_ok(Seq::empty()));
            assert(crate::order::extends(key, Seq::<u8>::empty()));
            assert(o.key_routes(Seq::empty(), key));
            assert(o.keyed(key));
        }
    }

    /// Creates an empty tree over the unused part of an arena.
    pub fn new(arena: Arena) -> (tree: Self)
        requires
            arena.wf(),
        ensures
            tree.wf(),
            tree@ == Map::<Seq<u8>, Seq<Version<K, V>>>::empty(),
            tree.arena == arena,
            tree.trie.root.absent(),
            tree.root_latch@ == 0,
            trie::nodes_of(tree.trie.slots@) == Map::<int, trie::NodeState>::empty(),
    {
        let tree = ArenaTree { trie: Trie::new(), root_latch: HybridLatch::new(), len: 0, arena };
        proof {
            tree.arena.lemma_bounds();
            assert(tree@ =~= Map::<Seq<u8>, Seq<Version<K, V>>>::empty());
            assert(trie::nodes_of(tree.trie.slots@) =~= Map::<int, trie::NodeState>::empty());
            assert(live_keys(tree@) =~= Set::<Seq<u8>>::empty());
        }
        tree
    }

    /// The number of live entries.
    pub fn len(&self) -> (n: usize)
        requires
            self.wf(),
        ensures
            n == live_keys(self@).len(),
    {
        self.len
    }

    /// Checks whether the tree has no live entries.
    pub fn is_empty(&self) -> (r: bool)
        requires
            self.wf(),
        ensures
            r == (live_keys(self@) == Set::<Seq<u8>>::empty()),
    {
        proof {
            self.lemma_entries();
            if self.len == 0 {
                assert(live_keys(self@) =~= Set::<Seq<u8>>::empty());
            }
        }
        self.len() == 0
    }

    /// The arena in which the tree stands.
    pub fn arena(&self) -> (arena: &Arena)
        ensures
            *arena == self.arena,
    {
        &self.arena
    }

    /// Gives the arena back.
    pub fn into_arena(self) -> (arena: Arena)
        ensures
            arena == self.arena,
    {
        self.arena
    }

    /// Where the tree starts.
    pub fn raw_root(&self) -> (root: TaggedOffset)
        requires
            self.wf(),
        ensures
            root == self.trie.root,
            root.absent() <==> self.trie.outline().at == Map::<Seq<u8>, TaggedOffset>::empty(),
            root.absent() ==> self@ == Map::<Seq<u8>, Seq<Version<K, V>>>::empty(),
    {
        proof {
            if self.trie.root.absent() {
                assert(self@ =~= Map::<Seq<u8>, Seq<Version<K, V>>>::empty());
            }
        }
        self.trie.root
    }

    /// The nodes that a lookup of `key_bytes` visits: all that stand at a prefix of the key, from
    /// the shortest on.
    pub fn debug_lookup(&self, key_bytes: &[u8]) -> (steps: Vec<LookupStep<TaggedOffset>>)
        requires
            self.wf(),
        ensures
            forall|i: int|
                0 <= i < steps@.len() ==> self.trie.step_ok(key_bytes@, #[trigger] steps@[i]),
            forall|i: int, j: int|
                0 <= i < j < steps@.len() ==> (#[trigger] steps@[i]).depth < (
                #[trigger] steps@[j]).depth,
            forall|d: int|
                0 <= d <= key_bytes@.len() && #[trigger] self.trie.outline().at.contains_key(
                    key_bytes@.take(d),
                ) ==> exists|i: int| 0 <= i < steps@.len() && (#[trigger] steps@[i]).depth == d,
    {
        self.trie.lookup_steps(key_bytes)
    }

    /// The leaf with the newest version of an entry.
    pub fn get_leaf(&self, key_bytes: &[u8]) -> (r: Option<&Leaf<K, V>>)
        requires
            self.wf(),
        ensures
            r is Some <==> self@.contains_key(key_bytes@),
            r matches Some(leaf) ==> version_of(*leaf) == self@[key_bytes@][0],
    {
        proof {
            self.lemma_entries();
        }
        match self.trie.get_leaf(key_bytes) {
            Some(link) => Some(self.trie.leaf(link)),
            None => None,
        }
    }

    /// Looks up the newest version of `key` whose version is less than or equal to `max_version`.
    /// The version that was written last is the newest one, so the versions of an entry are to be
    /// written in ascending order. Nothing is returned if the entry was removed at that version.
    pub fn get_version_le(&self, key_bytes: &[u8], max_version: u64) -> (r: Option<(u64, V)>)
        requires
            self.wf(),
        ensures
            r matches Some((version, value)) ==> self@.contains_key(key_bytes@) && exists|i: int|
                #[trigger] is_snapshot(self@[key_bytes@], max_version, i)
                    && !self@[key_bytes@][i].removed && version == self@[key_bytes@][i].version
                    && cloned(self@[key_bytes@][i].value, value),
            r is None ==> !self@.contains_key(key_bytes@) || no_snapshot(
                self@[key_bytes@],
                max_version,
            ) || exists|i: int| #[trigger]
                is_snapshot(self@[key_bytes@], max_version, i) && self@[key_bytes@][i].removed,
    {
        proof {
            self.lemma_entries();
        }
        let link = match self.trie.get_leaf(key_bytes) {
            Some(link) => link,
            None => {
                return None;
            },
        };
        let ghost versions = self@[key_bytes@];
        let ghost mut seen: int = 0;
        let mut slot: usize = link.slot_number();
        loop
            invariant
                self.wf(),
                slot < self.trie.slots@.len(),
                self.trie.slots@[slot as int] is Leaf,
                0 <= seen < versions.len(),
                history(self.trie.slots@, slot as int) =~= versions.skip(seen),
                forall|j: int| 0 <= j < seen ==> (#[trigger] versions[j]).version > max_version,
                versions == self@[key_bytes@],
                self@.contains_key(key_bytes@),
            decreases slot,
        {
            let ghost h = history(self.trie.slots@, slot as int);
            match &self.trie.slots[slot] {
                Slot::Leaf(leaf) => {
                    proof {
                        assert(link_ok(self.trie.slots@, slot as int));
                        lemma_history_keys(self.trie.slots@, slot as int, leaf.own_key());
                        assert(h[0] == versions[seen]);
                    }
                    if leaf.version <= max_version {
                        assert(is_snapshot(versions, max_version, seen));
                        if leaf.removed {
                            return None;
                        }
                        return Some((leaf.version, leaf.value.clone()));
                    }
                    let next: u32 = leaf.next_version_offset;
                    if next == 0 {
                        assert(h.len() == 1);
                        assert(no_snapshot(versions, max_version));
                        return None;
                    }
                    proof {
                        let older = (next / 8) as int;
                        assert(h.skip(1) =~= history(self.trie.slots@, older));
                        assert(versions.skip(seen + 1) =~= h.skip(1));
                        lemma_history_keys(self.trie.slots@, older, leaf.own_key());
                        seen = seen + 1;
                    }
                    slot = (next / 8) as usize;
                },
                _ => {
                    return vstd::pervasive::unreached();
                },
            }
        }
    }

    /// Counts one change of the root on its latch, as a writer that takes and releases it does.
    fn touch_root(&mut self)
        requires
            old(self).root_latch.is_free(),
        ensures
            final(self).root_latch.is_free(),
            final(self).root_latch@ == old(self).root_latch@.wrapping_add(latch::VERSION_STEP),
            final(self).root_latch@ != old(self).root_latch@,
            final(self).trie == old(self).trie,
            final(self).len == old(self).len,
            final(self).arena == old(self).arena,
    {
        proof {
            latch::lemma_write_is_visible(self.root_latch@);
        }
        let _ = self.root_latch.lock();
        self.root_latch.unlock();
    }

    /// More vacant slots do not change the entries.
    proof fn lemma_widened(&self, n: &Self)
        requires
            self.body_wf(),
            self.trie.widened(&n.trie),
        ensures
            n@ == self@,
            chains_ok(n.trie.slots@),
    {
        assert forall|i: int| 0 <= i < n.trie.slots@.len() implies #[trigger] link_ok(
            n.trie.slots@,
            i,
        ) by {
            if i < self.trie.slots@.len() {
                assert(link_ok(self.trie.slots@, i));
                if let Slot::Leaf(leaf) = self.trie.slots@[i] {
                    if leaf.next_version_offset != 0 {
                        let older = (leaf.next_version_offset / 8) as int;
                        assert(n.trie.slots@[older] == self.trie.slots@[older]);
                    }
                }
            }
        }
        assert forall|key: Seq<u8>| self.trie.keys().contains_key(key) implies #[trigger] history(
            n.trie.slots@,
            self.trie.keys()[key].slot() as int,
        ) == history(self.trie.slots@, self.trie.keys()[key].slot() as int) by {
            assert(self.trie.outline().keyed(key));
            lemma_history_frame(
                self.trie.slots@,
                n.trie.slots@,
                self.trie.keys()[key].slot() as int,
                key,
            );
        }
        assert(n@ =~= self@);
    }

    /// Takes `size` bytes from the arena, and makes the slot at their offset available.
    fn place(&mut self, size: u32) -> (offset: u32)
        requires
            old(self).body_wf(),
            0 < size,
            old(self).arena.used() + size + ALIGNMENT_LOSS <= old(self).arena.total(),
        ensures
            final(self).body_wf(),
            final(self)@ == old(self)@,
            final(self).len == old(self).len,
            old(self).trie.widened(&final(self).trie),
            final(self).root_latch == old(self).root_latch,
            offset == old(self).next_offset(),
            offset % 8 == 0,
            offset / 8 >= old(self).trie.slots@.len(),
            offset / 8 == final(self).trie.slots@.len() - 1,
            final(self).trie.slots@[(offset / 8) as int] is Vacant,
            final(self).arena.used() == old(self).arena.used() + size + ALIGNMENT_LOSS,
            final(self).arena.total() == old(self).arena.total(),
    {
        let ghost before = *self;
        proof {
            vstd::arithmetic::power2::lemma2_to64();
            assert(8u32 == vstd::arithmetic::power2::pow2(3));
            self.arena.lemma_bounds();
        }
        let offset: u32 = match self.arena.allocate(size, 8, 0) {
            Some(offset) => offset,
            None => vstd::pervasive::unreached(),
        };
        let slot: usize = (offset / 8) as usize;
        proof {
            before.trie.lemma_widened(&self.trie);
        }
        while self.trie.slots.len() <= slot
            invariant
                self.trie.wf(),
                before.trie.wf(),
                before.trie.widened(&self.trie),
                self.trie.slots@.len() <= slot + 1,
                self.len == before.len,
                self.root_latch == before.root_latch,
                self.arena.wf(),
                self.arena.used() == before.arena.used() + size + ALIGNMENT_LOSS,
                self.arena.total() == before.arena.total(),
            decreases slot + 1 - self.trie.slots@.len(),
        {
            let _ = self.trie.push_slot();
        }
        proof {
            before.lemma_widened(self);
        }
        offset
    }

    /// Places the new nodes of an insertion.
    fn place_nodes(&mut self, need: Need, Ghost(link): Ghost<TaggedOffset>) -> (fresh: Vec<
        TaggedOffset,
    >)
        requires
            old(self).body_wf(),
            old(self).trie.leaf_slot_free(link),
            old(self).arena.used() + node_bytes(need) <= old(self).arena.total(),
        ensures
            final(self).body_wf(),
            final(self)@ == old(self)@,
            final(self).len == old(self).len,
            old(self).trie.widened(&final(self).trie),
            final(self).root_latch == old(self).root_latch,
            forall|j: int|
                0 <= j < fresh@.len() ==> #[trigger] fresh@[j].0 == arena::align_up(
                    old(self).arena.used() + j * (node_size(need) + ALIGNMENT_LOSS),
                    8,
                ),
            fresh@.len() == need.count(),
            final(self).trie.leaf_slot_free(link),
            final(self).trie.fresh_ok(fresh@, link),
            forall|j: int|
                0 <= j < fresh@.len() ==> (#[trigger] fresh@[j]).slot() >= old(
                    self,
                ).trie.slots@.len(),
            final(self).arena.used() == old(self).arena.used() + node_bytes(need),
            final(self).arena.total() == old(self).arena.total(),
    {
        let ghost before = *self;
        let mut fresh: Vec<TaggedOffset> = Vec::new();
        let (count, size): (usize, u32) = match need {
            Need::Nothing => (0, NODE4_SIZE),
            Need::Chain(n) => (n, NODE4_SIZE),
            Need::Growth(NodeType::Node4) => (1, NODE4_SIZE),
            Need::Growth(NodeType::Node16) => (1, NODE16_SIZE),
            Need::Growth(NodeType::Node48) => (1, NODE48_SIZE),
            Need::Growth(NodeType::Node256) => (1, NODE256_SIZE),
        };
        let ghost each = (size + ALIGNMENT_LOSS) as int;
        let mut i: usize = 0;
        proof {
            assert(count * each == node_bytes(need)) by (nonlinear_arith)
                requires
                    count == need.count(),
                    each == size + ALIGNMENT_LOSS,
                    need is Nothing ==> node_bytes(need) == 0,
                    need is Nothing ==> count == 0,
                    need is Chain ==> size == NODE4_SIZE && node_bytes(need) == count * (NODE4_SIZE
                        + ALIGNMENT_LOSS),
                    need is Growth ==> count == 1 && node_bytes(need) == size + ALIGNMENT_LOSS,
            ;
            assert(0 * each == 0) by (nonlinear_arith);
        }
        while i < count
            invariant
                i <= count,
                0 < size <= NODE256_SIZE,
                size == node_size(need),
                each == size + ALIGNMENT_LOSS,
                fresh@.len() == i,
                self.root_latch == before.root_latch,
                forall|j: int|
                    0 <= j < fresh@.len() ==> #[trigger] fresh@[j].0 == arena::align_up(
                        before.arena.used() + j * each,
                        8,
                    ),
                before.body_wf(),
                self.body_wf(),
                self@ == before@,
                self.len == before.len,
                before.trie.widened(&self.trie),
                self.trie.leaf_slot_free(link),
                self.trie.fresh_ok(fresh@, link),
                forall|j: int|
                    0 <= j < fresh@.len() ==> (#[trigger] fresh@[j]).slot()
                        >= before.trie.slots@.len(),
                self.arena.used() == before.arena.used() + i * each,
                self.arena.total() == before.arena.total(),
                before.arena.used() + count * each <= before.arena.total(),
            decreases count - i,
        {
            let ghost prev = *self;
            let ghost seen = fresh@;
            proof {
                assert(i * each + each <= count * each) by (nonlinear_arith)
                    requires
                        i + 1 <= count,
                        each >= 0,
                ;
                assert((i + 1) * each == i * each + each) by (nonlinear_arith);
            }
            let offset: u32 = self.place(size);
            fresh.push(TaggedOffset::from_inner(offset));
            i = i + 1;
            proof {
                assert(link.slot() < prev.trie.slots@.len());
                assert forall|j: int| 0 <= j < seen.len() implies (#[trigger] seen[j]).slot()
                    < prev.trie.slots@.len() by {
                    assert(prev.trie.inner_slot_free(seen[j]));
                }
                assert forall|j: int| 0 <= j < fresh@.len() implies
                    #[trigger] self.trie.inner_slot_free(fresh@[j]) by {
                    if j < seen.len() {
                        assert(prev.trie.inner_slot_free(seen[j]));
                        assert(self.trie.slots@[seen[j].slot() as int]
                            == prev.trie.slots@[seen[j].slot() as int]);
                    } else {
                        assert(offset > 0);
                    }
                }
                assert(self.trie.slots@[link.slot() as int]
                    == prev.trie.slots@[link.slot() as int]);
            }
        }
        fresh
    }

    /// Checks whether the arena has room for the insertion of a key.
    pub fn can_insert(&self, key_bytes: &[u8]) -> (r: bool)
        requires
            self.wf(),
        ensures
            r == self.has_room(key_bytes@),
    {
        let spot = self.trie.locate(key_bytes);
        let need = self.trie.nodes_needed(key_bytes, &spot);
        proof {
            self.trie.lemma_needed(key_bytes@, spot);
            self.arena.lemma_bounds();
        }
        let leaf: usize = match leaf_layout_size::<K, V>() {
            Some(size) => size,
            None => {
                return false;
            },
        };
        let left: usize = self.arena.remaining();
        let loss: usize = ALIGNMENT_LOSS as usize;
        if left < loss || left - loss < leaf {
            return false;
        }
        let left: usize = left - loss - leaf;
        match need {
            Need::Nothing => true,
            Need::Chain(n) => {
                let each: usize = NODE4_SIZE as usize + loss;
                proof {
                    assert((n as int) <= (left as int) / (each as int) <==> n * each <= left)
                        by (nonlinear_arith)
                        requires
                            each == 71,
                    ;
                }
                n <= left / each
            },
            Need::Growth(NodeType::Node4) => left >= NODE4_SIZE as usize + loss,
            Need::Growth(NodeType::Node16) => left >= NODE16_SIZE as usize + loss,
            Need::Growth(NodeType::Node48) => left >= NODE48_SIZE as usize + loss,
            Need::Growth(NodeType::Node256) => left >= NODE256_SIZE as usize + loss,
        }
    }

    /// The insertion of a key never takes more than its bound.
    pub proof fn lemma_cost_bounded(&self, key: Seq<u8>)
        requires
            self.wf(),
            key.len() <= usize::MAX,
        ensures
            self.cost(key) <= max_cost::<K, V>(key.len()),
    {
        self.trie.lemma_needed_bounded(key);
        if let Need::Chain(n) = self.trie.needed(key) {
            assert(n * 71 <= (key.len() / 17 + 1) * 71) by (nonlinear_arith)
                requires
                    n <= key.len() / 17 + 1,
            ;
        }
    }

    /// A write takes the bytes of a leaf and what its alignment may cost. Where the key is there, or
    /// the tree is empty, it takes no more; a second key takes a small node for every seventeen
    /// bytes of the common prefix besides.
    pub proof fn lemma_cost_cases(&self, key: Seq<u8>)
        requires
            self.wf(),
            key.len() <= usize::MAX,
        ensures
            self.cost(key) >= leaf_size::<K, V>() + 7,
            self@.contains_key(key) ==> self.cost(key) == leaf_size::<K, V>() + 7,
            self.trie.root.absent() ==> self.cost(key) == leaf_size::<K, V>() + 7,
            self.trie.root_is_leaf() && !self@.contains_key(key) ==> self.cost(key) == leaf_size::<
                K,
                V,
            >() + 7 + 71 * (crate::order::common_len(self.trie.key_at(self.trie.root), key) / 17
                + 1),
            self.has_room(key) <==> self.arena.used() + self.cost(key) <= self.arena.total(),
    {
        self.lemma_entries();
        self.trie.lemma_needed_cases(key);
        if let Need::Chain(n) = self.trie.needed(key) {
            lemma_node_bytes(n);
        }
    }

    /// The leaf of `key` at `spot`, if the tree has one.
    fn present_at(&self, key: &[u8], spot: &Spot<TaggedOffset>) -> (r: Option<TaggedOffset>)
        requires
            self.trie.wf(),
            self.trie.spot_ok(key@, *spot),
        ensures
            r == self.trie.keys().get(key@),
    {
        proof {
            self.trie.lemma_spot(key@, *spot);
        }
        match spot {
            Spot::Leaf { place: _, depth: _, leaf: there } => {
                if same_bytes(self.trie.leaf(*there).key_slice(), key) {
                    Some(*there)
                } else {
                    None
                }
            },
            Spot::Exact { place: _, depth: _, node: _, leaf: there } => {
                if there.is_null() {
                    None
                } else {
                    Some(*there)
                }
            },
            _ => None,
        }
    }

    /// Takes and releases the latches that an insertion at `spot` writes under.
    fn latch_written(&mut self, Ghost(bytes): Ghost<Seq<u8>>, spot: &Spot<TaggedOffset>)
        requires
            old(self).wf(),
            old(self).trie.spot_ok(bytes, *spot),
        ensures
            final(self).wf(),
            final(self)@ == old(self)@,
            final(self).arena == old(self).arena,
            old(self).trie.relatched(&final(self).trie),
            final(self).trie.spot_ok(bytes, *spot),
            final(self).trie.need(bytes, *spot) == old(self).trie.need(bytes, *spot),
            final(self).root_latch@ == crate::tree::word_after(
                old(self).root_latch@,
                old(self).trie.root_written(bytes),
            ),
            trie::nodes_of(final(self).trie.slots@) == old(self).trie.nodes_written(*spot, false),
    {
        let ghost before = *self;
        proof {
            self.trie.lemma_root_written(bytes, *spot);
        }
        let at_root = self.trie.touch_written(Ghost(bytes), spot, false);
        proof {
            let a = before.trie.slots@;
            let b = self.trie.slots@;
            before.trie.lemma_relatched(&self.trie);
            assert forall|i: int| 0 <= i < b.len() implies #[trigger] link_ok(b, i) by {
                assert(link_ok(a, i));
                if a[i] is Leaf {
                    let leaf = *(a[i]->Leaf_0);
                    if leaf.next_version_offset != 0 {
                        let older = (leaf.next_version_offset / 8) as int;
                        assert(b[older] == a[older]);
                    }
                }
            }
            assert forall|k: Seq<u8>| before.trie.keys().contains_key(k) implies
                #[trigger] history(b, before.trie.keys()[k].slot() as int) == history(
                a,
                before.trie.keys()[k].slot() as int,
            ) by {
                assert(before.trie.outline().keyed(k));
                lemma_history_frame(a, b, before.trie.keys()[k].slot() as int, k);
            }
            assert(self@ =~= before@);
        }
        if at_root {
            self.touch_root();
        }
    }

    /// Changes the newest version of an entry.
    fn amend(&mut self, link: TaggedOffset, removed: bool, value: Option<V>) -> (replaced: Option<V>)
        requires
            old(self).body_wf(),
            old(self).trie.is_entry(link),
        ensures
            final(self).body_wf(),
            final(self).len == old(self).len,
            final(self).arena == old(self).arena,
            final(self).root_latch == old(self).root_latch,
            final(self).trie.root == old(self).trie.root,
            trie::nodes_of(final(self).trie.slots@) == trie::nodes_of(old(self).trie.slots@),
            final(self)@ == ({
                let key = old(self).trie.key_at(link);
                let versions = old(self)@[key];
                old(self)@.insert(
                    key,
                    versions.update(
                        0,
                        Version {
                            removed,
                            value: match value {
                                Some(v) => v,
                                None => versions[0].value,
                            },
                            ..versions[0]
                        },
                    ),
                )
            }),
            replaced == (match value {
                Some(_) => Some(old(self).trie.leaf_at(link).value),
                None => None,
            }),
    {
        let ghost before = *self;
        let ghost key = self.trie.key_at(link);
        let ghost slot = link.slot() as int;
        let ghost versions = self@[key];
        proof {
            self.lemma_entries();
        }
        let leaf = self.trie.leaf_mut(link);
        leaf.removed = removed;
        let mut replaced: Option<V> = None;
        if let Some(new_value) = value {
            let mut v: V = new_value;
            std::mem::swap(&mut leaf.value, &mut v);
            replaced = Some(v);
        }
        proof {
            let changed = self.trie.leaf_at(link);
            let a = before.trie.slots@;
            let b = self.trie.slots@;
            before.trie.lemma_leaf_changed(&self.trie, link, changed);
            assert(trie::nodes_of(b) =~= trie::nodes_of(a));
            assert forall|i: int| 0 <= i < b.len() implies #[trigger] link_ok(b, i) by {
                assert(link_ok(a, i));
            }
            assert forall|k: Seq<u8>| before.trie.keys().contains_key(k) && k != key implies
                #[trigger] history(b, before.trie.keys()[k].slot() as int) == history(
                a,
                before.trie.keys()[k].slot() as int,
            ) by {
                assert(before.trie.outline().keyed(k));
                lemma_history_frame(a, b, before.trie.keys()[k].slot() as int, k);
            }
            // The older versions are behind the leaf.
            assert(link_ok(a, slot));
            let next = changed.next_version_offset;
            if next != 0 {
                lemma_history_frame(a, b, (next / 8) as int, key);
            }
            assert(history(b, slot) =~= versions.update(0, version_of(changed)));
            assert(self@ =~= before@.insert(key, versions.update(0, version_of(changed))));
        }
        replaced
    }

    /// Inserts an entry, or changes the one that is there: the newest version gets the value, if
    /// `replace_if_present` says so, and keeps its number, and else a newer version is put in front.
    /// Returns the value of a live entry that was replaced.
    fn insert_internal(
        &mut self,
        key: K,
        version: u64,
        value: V,
        replace_if_present: bool,
    ) -> (r: Option<V>)
        requires
            old(self).wf(),
            old(self).has_room(key.key_bytes()),
        ensures
            final(self).wf(),
            final(self)@ == (if replace_if_present {
                after_replace(old(self)@, key, version, value)
            } else {
                after_insert_versioned(old(self)@, key, version, value)
            }),
            r == (if replace_if_present {
                live_value(old(self)@, key.key_bytes())
            } else {
                None
            }),
            final(self).arena.used() == old(self).arena.used() + old(self).cost(key.key_bytes()),
            final(self).arena.total() == old(self).arena.total(),
            final(self).trie.root == old(self).root_after_insert(
                key.key_bytes(),
                !replace_if_present,
            ),
            final(self).root_latch@ == crate::tree::word_after(
                old(self).root_latch@,
                old(self).trie.root_written(key.key_bytes()),
            ),
            old(self).trie.nodes_inserted(&final(self).trie, key.key_bytes(), false),
    {
        let ghost original = *self;
        let ghost bytes = key.key_bytes();
        let spot = self.trie.locate(key.as_bytes());
        let ghost found = spot;
        self.latch_written(Ghost(bytes), &spot);
        let ghost before = *self;
        proof {
            self.lemma_entries();
            self.arena.lemma_bounds();
            original.trie.lemma_needed(bytes, spot);
            self.trie.lemma_needed(bytes, spot);
            original.trie.lemma_root_written(bytes, spot);
            original.trie.lemma_spot(bytes, spot);
        }
        let need = self.trie.nodes_needed(key.as_bytes(), &spot);
        let present = self.present_at(key.as_bytes(), &spot);
        proof {
            self.trie.lemma_spot(bytes, spot);
            assert(present is Some ==> need == Need::Nothing);
            if present is Some {
                assert(original.trie.nodes_written(found, false) == original.trie.nodes_after(
                    original.trie.nodes_written(found, false),
                    bytes,
                    found,
                    Seq::<TaggedOffset>::empty(),
                ));
            }
        }
        let size: u32 = match leaf_layout_size::<K, V>() {
            Some(size) => size as u32,
            None => vstd::pervasive::unreached(),
        };
        if replace_if_present {
            if let Some(link) = present {
                // The bytes of the new leaf are taken all the same.
                proof {
                    vstd::arithmetic::power2::lemma2_to64();
                    assert(8u32 == vstd::arithmetic::power2::pow2(3));
                }
                let _ = self.arena.allocate(size, 8, 0);
                let ghost charged = *self;
                let was_removed: bool = self.trie.leaf(link).removed;
                let replaced = self.amend(link, false, Some(value));
                proof {
                    assert(charged@ == before@);
                    self.lemma_entries();
                    assert(live_keys(self@) =~= live_keys(before@).insert(bytes));
                }
                if was_removed {
                    let slot_count: usize = self.trie.slots.len();
                    assert(self.len < slot_count);
                    self.len = self.len + 1;
                    return None;
                }
                assert(live_keys(self@) =~= live_keys(before@));
                return replaced;
            }
        }
        let offset: u32 = self.place(size);
        let link = TaggedOffset::from_leaf(offset);
        let ghost placed = *self;
        proof {
            before.trie.lemma_widened(&self.trie);
        }
        let mut leaf: Box<Leaf<K, V>> = Leaf::new(key, version, value);
        match present {
            Some(old_link) => {
                let head: usize = old_link.slot_number();
                let was_removed: bool = self.trie.leaf(old_link).removed;
                leaf.next_version_offset = (head as u32) * 8;
                let ghost stored = *leaf;
                self.trie.supersede_at(spot, link, leaf);
                proof {
                    let a = placed.trie.slots@;
                    let b = self.trie.slots@;
                    assert(b[link.slot() as int] == Slot::<TaggedOffset, Leaf<K, V>>::Leaf(
                        Box::new(stored),
                    ));
                    assert(old_link.slot() > 0) by {
                        assert(placed.trie.outline().keyed(bytes));
                        assert(placed.trie.slots@[old_link.slot() as int] is Leaf);
                    }
                    self.lemma_superseded(&placed, bytes, link, stored);
                    lemma_history_frame(a, b, head as int, bytes);
                    assert(history(b, link.slot() as int) =~= seq![version_of(stored)]
                        + before@[bytes]);
                    assert(self@ =~= after_insert_versioned(before@, key, version, value));
                    self.lemma_entries();
                    assert(live_keys(self@) =~= live_keys(before@).insert(bytes));
                }
                if was_removed {
                    let slot_count: usize = self.trie.slots.len();
                    assert(self.len < slot_count);
                    self.len = self.len + 1;
                } else {
                    assert(live_keys(self@) =~= live_keys(before@));
                }
                None
            },
            None => {
                let fresh = self.place_nodes(need, Ghost(link));
                proof {
                    placed.trie.lemma_widened(&self.trie);
                    assert(before.trie.spot_ok(bytes, spot));
                    assert(placed.trie.spot_ok(bytes, spot));
                    assert(self.trie.spot_ok(bytes, spot));
                }
                let ghost ready = *self;
                let ghost stored = *leaf;
                let _ = self.trie.insert_at(spot, leaf, link, &fresh);
                proof {
                    let b = self.trie.slots@;
                    if trie::slots_of(fresh@).contains(0) {
                        let j = choose|j: int|
                            0 <= j < fresh@.len() && (#[trigger] fresh@[j]).slot() == 0;
                    }
                    self.lemma_superseded(&ready, bytes, link, stored);
                    assert(history(b, link.slot() as int) =~= seq![version_of(stored)]);
                    assert(self@ =~= before@.insert(bytes, seq![version_of(stored)]));
                    assert(self@ =~= after_insert_versioned(before@, key, version, value));
                    assert(replace_if_present ==> self@ =~= after_replace(
                        before@,
                        key,
                        version,
                        value,
                    ));
                    self.lemma_entries();
                    assert(live_keys(self@) =~= live_keys(before@).insert(bytes));
                }
                let slot_count: usize = self.trie.slots.len();
                assert(self.len < slot_count);
                self.len = self.len + 1;
                proof {
                    assert(trie::nodes_of(self.trie.slots@) == original.trie.nodes_after(
                        original.trie.nodes_written(found, false),
                        bytes,
                        found,
                        fresh@,
                    ));
                    if original.trie.writes_root(found) && !(found is Nothing) {
                        let last = fresh@.len() - 1;
                        assert(need.count() >= 1);
                        assert(fresh@[last].0 == arena::align_up(
                            placed.arena.used() + last * (node_size(need) + ALIGNMENT_LOSS),
                            8,
                        ));
                        assert(fresh@[last].0 == original.last_node_offset(bytes));
                    }
                }
                None
            },
        }
    }

    /// A new leaf in front of the leaf of its key, or of a new key, keeps the chains, and the
    /// versions of all other keys.
    proof fn lemma_superseded(
        &self,
        before: &Self,
        bytes: Seq<u8>,
        link: TaggedOffset,
        stored: Leaf<K, V>,
    )
        requires
            before.body_wf(),
            self.trie.wf(),
            before.trie.leaf_slot_free(link),
            self.trie.slots@.len() == before.trie.slots@.len(),
            trie::leaves_kept(before.trie.slots@, self.trie.slots@),
            trie::no_new_leaves(before.trie.slots@, self.trie.slots@, link.slot() as int),
            self.trie.slots@[link.slot() as int] == Slot::<TaggedOffset, Leaf<K, V>>::Leaf(
                Box::new(stored),
            ),
            stored.own_key() == bytes,
            stored.next_version_offset != 0 ==> {
                let older = (stored.next_version_offset / 8) as int;
                &&& stored.next_version_offset % 8 == 0
                &&& older < link.slot()
                &&& before.trie.slots@[older] matches Slot::Leaf(old_leaf) && old_leaf.own_key()
                    == bytes
            },
            self.trie.keys() == before.trie.keys().insert(bytes, link),
        ensures
            chains_ok(self.trie.slots@),
            forall|k: Seq<u8>| #[trigger]
                before@.contains_key(k) && k != bytes ==> self@.contains_key(k) && self@[k]
                    == before@[k],
            self@.dom() == before@.dom().insert(bytes),
            self@[bytes] == history(self.trie.slots@, link.slot() as int),
    {
        let a = before.trie.slots@;
        let b = self.trie.slots@;
        assert forall|i: int| 0 <= i < b.len() implies #[trigger] link_ok(b, i) by {
            if i != link.slot() {
                assert(link_ok(a, i));
                if b[i] is Leaf {
                    assert(b[i] == a[i]);
                    let leaf = *(a[i]->Leaf_0);
                    if leaf.next_version_offset != 0 {
                        let older = (leaf.next_version_offset / 8) as int;
                        assert(b[older] == a[older]);
                    }
                }
            } else if stored.next_version_offset != 0 {
                let older = (stored.next_version_offset / 8) as int;
                assert(b[older] == a[older]);
            }
        }
        assert forall|k: Seq<u8>| #[trigger] before@.contains_key(k) && k != bytes implies
            self@.contains_key(k) && self@[k] == before@[k] by {
            assert(before.trie.outline().keyed(k));
            lemma_history_frame(a, b, before.trie.keys()[k].slot() as int, k);
        }
        assert(self@.dom() =~= before@.dom().insert(bytes));
    }

    /// Inserts a key-value pair, returning the previous value if one was replaced.
    pub fn insert(&mut self, key: K, value: V) -> (r: Option<V>)
        requires
            old(self).wf(),
            old(self).has_room(key.key_bytes()),
        ensures
            final(self).wf(),
            final(self)@ == after_insert(old(self)@, key, value),
            r == live_value(old(self)@, key.key_bytes()),
            final(self)@.dom() == old(self)@.dom().insert(key.key_bytes()),
            old(self)@.contains_key(key.key_bytes()) ==> {
                let before = old(self)@[key.key_bytes()];
                let after = final(self)@[key.key_bytes()];
                &&& after.len() == before.len()
                &&& after[0].value == value
                &&& after[0].version == before[0].version
                &&& after[0].key == before[0].key
                &&& !after[0].removed
                &&& forall|i: int| 0 < i < before.len() ==> #[trigger] after[i] == before[i]
            },
            !old(self)@.contains_key(key.key_bytes()) ==> {
                let after = final(self)@[key.key_bytes()];
                &&& after.len() == 1
                &&& after[0] == (Version { removed: false, version: 0, key, value })
            },
            forall|other: Seq<u8>|
                other != key.key_bytes() && #[trigger] old(self)@.contains_key(other)
                    ==> final(self)@[other] == old(self)@[other],
            r is Some <==> old(self)@.contains_key(key.key_bytes()) && !old(
                self,
            )@[key.key_bytes()][0].removed,
            r matches Some(replaced) ==> replaced == old(self)@[key.key_bytes()][0].value,
            final(self).arena.used() == old(self).arena.used() + old(self).cost(key.key_bytes()),
            final(self).arena.total() == old(self).arena.total(),
            final(self).trie.root == old(self).root_after_insert(key.key_bytes(), false),
            final(self).root_latch@ == crate::tree::word_after(
                old(self).root_latch@,
                old(self).trie.root_written(key.key_bytes()),
            ),
            old(self).trie.nodes_inserted(&final(self).trie, key.key_bytes(), false),
    {
        proof {
            self.lemma_entries();
        }
        self.insert_internal(key, 0, value, true)
    }

    /// Inserts a versioned key-value pair.
    pub fn insert_versioned(&mut self, key: K, version: u64, value: V) -> (r: bool)
        requires
            old(self).wf(),
            old(self).has_room(key.key_bytes()),
        ensures
            r,
            final(self).wf(),
            final(self)@ == after_insert_versioned(old(self)@, key, version, value),
            final(self)@.dom() == old(self)@.dom().insert(key.key_bytes()),
            final(self)@[key.key_bytes()].len() == 1 + (if old(self)@.contains_key(
                key.key_bytes(),
            ) {
                old(self)@[key.key_bytes()].len() as int
            } else {
                0
            }),
            final(self)@[key.key_bytes()][0] == (Version { removed: false, version, key, value }),
            old(self)@.contains_key(key.key_bytes()) ==> final(self)@[key.key_bytes()].skip(1)
                == old(self)@[key.key_bytes()],
            forall|other: Seq<u8>|
                other != key.key_bytes() && #[trigger] old(self)@.contains_key(other)
                    ==> final(self)@[other] == old(self)@[other],
            final(self).arena.used() == old(self).arena.used() + old(self).cost(key.key_bytes()),
            final(self).arena.total() == old(self).arena.total(),
            final(self).trie.root == old(self).root_after_insert(key.key_bytes(), true),
            final(self).root_latch@ == crate::tree::word_after(
                old(self).root_latch@,
                old(self).trie.root_written(key.key_bytes()),
            ),
            old(self).trie.nodes_inserted(&final(self).trie, key.key_bytes(), false),
    {
        let _ = self.insert_internal(key, version, value, false);
        true
    }

    /// Marks the newest version of an entry as removed, and returns its value if the entry was
    /// live.
    pub fn remove(&mut self, key_bytes: &[u8]) -> (r: Option<V>)
        requires
            old(self).wf(),
        ensures
            final(self).wf(),
            final(self)@ == after_remove(old(self)@, key_bytes@),
            final(self)@.dom() == old(self)@.dom(),
            old(self)@.contains_key(key_bytes@) ==> {
                let before = old(self)@[key_bytes@];
                let after = final(self)@[key_bytes@];
                &&& after.len() == before.len()
                &&& after[0].removed
                &&& after[0].version == before[0].version
                &&& after[0].key == before[0].key
                &&& after[0].value == before[0].value
                &&& forall|i: int| 0 < i < before.len() ==> #[trigger] after[i] == before[i]
            },
            forall|other: Seq<u8>|
                other != key_bytes@ && #[trigger] old(self)@.contains_key(other) ==> final(self)@[other]
                    == old(self)@[other],
            r is Some <==> old(self)@.contains_key(key_bytes@) && !old(self)@[key_bytes@][0].removed,
            r is Some <==> live_keys(old(self)@).contains(key_bytes@),
            r matches Some(value) ==> cloned(old(self)@[key_bytes@][0].value, value),
            final(self).arena == old(self).arena,
            final(self).root_latch == old(self).root_latch,
            final(self).trie.root == old(self).trie.root,
            trie::nodes_of(final(self).trie.slots@) == trie::nodes_of(old(self).trie.slots@),
    {
        let ghost before = *self;
        let ghost bytes = key_bytes@;
        proof {
            self.lemma_entries();
        }
        let link = match self.trie.get_leaf(key_bytes) {
            Some(link) => link,
            None => {
                return None;
            },
        };
        if self.trie.leaf(link).removed {
            proof {
                let versions = self@[bytes];
                assert(versions.update(0, Version { removed: true, ..versions[0] }) =~= versions);
                assert(after_remove(self@, bytes) =~= self@);
            }
            return None;
        }
        let value: V = self.trie.leaf(link).value.clone();
        let _ = self.amend(link, true, None);
        proof {
            assert(self@ =~= after_remove(before@, bytes));
            assert(live_keys(self@) =~= live_keys(before@).remove(bytes));
            self.lemma_entries();
            assert(live_keys(before@).contains(bytes));
        }
        self.len = self.len - 1;
        Some(value)
    }
}

} // verus!
