use artmap::arena::node::TaggedOffset;
use artmap::bitmap::{clear_bitmap_bit, next_present_byte, prev_present_byte, set_bitmap_bit};
use artmap::inner::InnerNode;
use artmap::node::{
    Leaf, Node16, Node256, Node4, Node48, NodeHeader, NodeType, TaggedPtr, MAX_PREFIX_LEN,
};

#[test]
fn test_tagged_ptr() {
    let leaves = vec![Leaf::new(0u32, 0u32), Leaf::new(10u32, 20u32)];
    let tagged = TaggedPtr::from_leaf(1);
    assert!(tagged.is_leaf());
    assert_eq!(leaves[tagged.as_leaf_ptr()].key, 10);
    assert_eq!(leaves[tagged.as_leaf_ptr()].value, 20);

    let nodes = vec![
        Node4::<TaggedPtr>::new(b""),
        Node4::<TaggedPtr>::new(b"test"),
    ];
    let tagged_inner = TaggedPtr::from_inner(1);
    assert!(!tagged_inner.is_leaf());
    assert_eq!(
        nodes[tagged_inner.as_inner_ptr()].header.prefix_slice(),
        b"test"
    );
}

#[test]
fn test_node4_lifecycle() {
    let mut n4 = Node4::new(b"");
    assert_eq!(n4.header.num_children, 0);

    let dummy_leaf1 = TaggedPtr::from_raw(1);
    let dummy_leaf2 = TaggedPtr::from_raw(1);
    let dummy_leaf3 = TaggedPtr::from_raw(1);

    n4.insert_child(b'b', dummy_leaf2);
    n4.insert_child(b'a', dummy_leaf1);
    n4.insert_child(b'c', dummy_leaf3);

    assert_eq!(n4.header.num_children, 3);
    assert_eq!(&n4.keys[..3], b"abc");
    assert_eq!(n4.find_child(b'a'), Some(dummy_leaf1));
    assert_eq!(n4.find_child(b'b'), Some(dummy_leaf2));
    assert_eq!(n4.find_child(b'c'), Some(dummy_leaf3));
    assert_eq!(n4.find_child(b'd'), None);

    assert_eq!(n4.remove_child(b'b'), Some(dummy_leaf2));
    assert_eq!(n4.header.num_children, 2);
    assert_eq!(&n4.keys[..2], b"ac");
    assert_eq!(n4.find_child(b'b'), None);
}

#[test]
fn test_node48_lifecycle() {
    let mut n48 = Node48::new(b"");
    let dummy = TaggedPtr::from_raw(1);
    n48.insert_child(b'z', dummy);
    assert_eq!(n48.find_child(b'z'), Some(dummy));
    assert_eq!(n48.find_child(b'a'), None);
    assert_eq!(n48.remove_child(b'z'), Some(dummy));
    assert_eq!(n48.find_child(b'z'), None);
}

#[test]
fn machine_words_give_the_pointer_back() {
    let leaf = TaggedPtr::from_leaf(0x40);
    assert_eq!(leaf.as_raw(), 0x41);
    assert_eq!(TaggedPtr::from_raw(0x41), leaf);
    let inner = TaggedPtr::from_inner(0x40);
    assert_eq!(inner.as_raw(), 0x40);
    assert_eq!(TaggedPtr::from_raw(0x40), inner);
    assert!(TaggedPtr::null().is_null());
    assert!(TaggedPtr::from_raw(0).is_null());
    assert!(!leaf.is_null() && !inner.is_null());
}

#[test]
fn tagged_offsets_keep_offset_and_tag() {
    let leaf = TaggedOffset::from_leaf(24);
    assert!(leaf.is_leaf());
    assert_eq!(leaf.leaf_offset(), 24);
    assert_eq!(leaf.raw(), 25);
    let inner = TaggedOffset::from_inner(24);
    assert!(!inner.is_leaf());
    assert_eq!(inner.inner_offset(), 24);
    assert_eq!(inner.raw(), 24);
    assert!(TaggedOffset::null().is_null());
    assert!(!leaf.is_null() && !inner.is_null());
}

#[test]
fn headers_match_their_prefix() {
    let header = NodeHeader::<TaggedPtr>::new(NodeType::Node4, b"prefix");
    assert_eq!(header.prefix_slice(), b"prefix");
    assert_eq!(header.match_prefix(b"a prefix here", 2), (6, true));
    assert_eq!(header.match_prefix(b"a precise one", 2), (3, false));
    assert_eq!(header.match_prefix(b"pre", 0), (3, false));
    assert_eq!(header.match_prefix(b"pre", 9), (0, false));
    assert_eq!(header.load_exact_leaf(), None);

    let empty = NodeHeader::<TaggedPtr>::new(NodeType::Node4, b"");
    assert_eq!(empty.match_prefix(b"anything", 3), (0, true));

    let long = NodeHeader::<TaggedPtr>::new(NodeType::Node256, b"0123456789abcdefgh");
    assert_eq!(long.prefix_len, 18);
    assert_eq!(long.prefix_slice(), b"0123456789abcdef");
    assert_eq!(long.prefix_slice().len(), MAX_PREFIX_LEN);
    assert_eq!(long.match_prefix(b"0123456789abcdefgh", 0), (16, false));
}

#[test]
fn headers_count_their_children() {
    let mut header = NodeHeader::<TaggedPtr>::new(NodeType::Node4, b"");
    assert_eq!(header.num_children(), 0);
    assert_eq!(header.inc_num_children(), 0);
    assert_eq!(header.inc_num_children(), 1);
    assert_eq!(header.num_children(), 2);
    assert_eq!(header.dec_num_children(), 2);
    assert_eq!(header.dec_num_children(), 1);
    assert_eq!(header.dec_num_children(), 0);
    assert_eq!(header.num_children(), u16::MAX);
    assert_eq!(header.inc_num_children(), u16::MAX);
    assert_eq!(header.num_children(), 0);
}

#[test]
fn headers_trim_and_retire() {
    let mut header = NodeHeader::<TaggedPtr>::new(NodeType::Node16, b"prefix");
    header.trim_prefix(3);
    assert_eq!(header.prefix_slice(), b"fix");
    let before = header.latch.read_version().unwrap();
    header.touch();
    assert!(!header.latch.validate(before));
    header.mark_obsolete();
    assert!(header.latch.is_obsolete());
}

#[test]
fn sixteen_children_stay_sorted() {
    let mut n16 = Node16::new(b"");
    for byte in (0..16u8).rev() {
        n16.insert_child(byte * 3, TaggedPtr::from_leaf(byte as usize + 1));
    }
    assert_eq!(n16.header.num_children, 16);
    assert_eq!(n16.keys[0], 0);
    assert_eq!(n16.keys[15], 45);
    for byte in 0..16u8 {
        let child = TaggedPtr::from_leaf(byte as usize + 1);
        assert_eq!(n16.find_child(byte * 3), Some(child));
        assert_eq!(n16.find_child(byte * 3 + 1), None);
    }
    assert_eq!(n16.next_child(4), Some((6, TaggedPtr::from_leaf(3))));
    assert_eq!(n16.prev_child(6), Some((3, TaggedPtr::from_leaf(2))));
    assert_eq!(n16.next_child(46), None);
    assert_eq!(n16.prev_child(0), None);
    n16.replace_child(6, TaggedPtr::from_inner(99));
    assert_eq!(n16.find_child(6), Some(TaggedPtr::from_inner(99)));
    assert_eq!(n16.remove_child(7), None);
    assert_eq!(n16.remove_child(6), Some(TaggedPtr::from_inner(99)));
    assert_eq!(n16.header.num_children, 15);
}

#[test]
fn every_byte_has_a_place_in_the_largest_layout() {
    let mut n256 = Node256::new(b"");
    for byte in 0..=255u8 {
        n256.insert_child(byte, TaggedPtr::from_leaf(byte as usize + 1));
    }
    assert_eq!(n256.header.num_children, 256);
    assert_eq!(n256.find_child(255), Some(TaggedPtr::from_leaf(256)));
    assert_eq!(n256.next_child(255), Some((255, TaggedPtr::from_leaf(256))));
    assert_eq!(n256.next_child(256), None);
    assert_eq!(n256.remove_child(128), Some(TaggedPtr::from_leaf(129)));
    assert_eq!(n256.next_child(128), Some((129, TaggedPtr::from_leaf(130))));
    assert_eq!(n256.prev_child(129), Some((127, TaggedPtr::from_leaf(128))));
}

#[test]
fn nodes_grow_without_losing_a_child() {
    let mut node = InnerNode::<TaggedPtr>::new4(b"ab");
    let mut layouts = vec![node.header().node_type];
    for byte in 0..=255u8 {
        if node.is_node_full() {
            node = node.grow_node();
            layouts.push(node.header().node_type);
        }
        node.insert_child_into_node(byte, TaggedPtr::from_leaf(byte as usize + 1));
    }
    assert_eq!(
        layouts,
        vec![
            NodeType::Node4,
            NodeType::Node16,
            NodeType::Node48,
            NodeType::Node256
        ]
    );
    assert_eq!(node.header().prefix_slice(), b"ab");
    for byte in 0..=255u8 {
        let child = TaggedPtr::from_leaf(byte as usize + 1);
        assert_eq!(node.find_child(byte), Some(child));
    }
}

#[test]
fn a_slot_of_the_indexed_layout_is_used_again() {
    let mut n48 = Node48::new(b"");
    for byte in 0..48u8 {
        n48.insert_child(byte, TaggedPtr::from_leaf(byte as usize + 1));
    }
    assert_eq!(n48.remove_child(20), Some(TaggedPtr::from_leaf(21)));
    n48.insert_child(200, TaggedPtr::from_leaf(300));
    assert_eq!(n48.header.num_children, 48);
    assert_eq!(n48.find_child(20), None);
    assert_eq!(n48.find_child(200), Some(TaggedPtr::from_leaf(300)));
    assert_eq!(n48.next_child(48), Some((200, TaggedPtr::from_leaf(300))));
    assert_eq!(n48.prev_child(21), Some((19, TaggedPtr::from_leaf(20))));
}

#[test]
fn bitmaps_find_the_neighbours_of_a_byte() {
    let mut bitmap = [0u64; 4];
    for byte in [0u8, 63, 64, 200, 255] {
        set_bitmap_bit(&mut bitmap, byte);
    }
    assert_eq!(next_present_byte(&bitmap, 0), Some(0));
    assert_eq!(next_present_byte(&bitmap, 1), Some(63));
    assert_eq!(next_present_byte(&bitmap, 65), Some(200));
    assert_eq!(next_present_byte(&bitmap, 201), Some(255));
    assert_eq!(prev_present_byte(&bitmap, 255), Some(255));
    assert_eq!(prev_present_byte(&bitmap, 254), Some(200));
    assert_eq!(prev_present_byte(&bitmap, 62), Some(0));
    clear_bitmap_bit(&mut bitmap, 0);
    assert_eq!(prev_present_byte(&bitmap, 62), None);
    clear_bitmap_bit(&mut bitmap, 255);
    assert_eq!(next_present_byte(&bitmap, 201), None);
}

#[test]
fn layouts_are_checked() {
    let mut n16 = Node16::new(b"");
    n16.insert_child(1, TaggedPtr::from_leaf(1));
    n16.insert_child(2, TaggedPtr::from_leaf(2));
    assert!(n16.check());
    n16.children[1] = TaggedPtr::null();
    assert!(!n16.check());

    let mut n48 = Node48::new(b"");
    n48.insert_child(1, TaggedPtr::from_leaf(1));
    n48.insert_child(2, TaggedPtr::from_leaf(2));
    assert!(n48.check());
    n48.child_indices[2] = n48.child_indices[1];
    assert!(!n48.check());
    n48.child_indices[2] = 49;
    assert!(!n48.check());

    let mut n48 = Node48::new(b"");
    n48.insert_child(1, TaggedPtr::from_leaf(1));
    n48.children[7] = TaggedPtr::from_leaf(2);
    assert!(!n48.check());

    let mut n256 = Node256::new(b"");
    n256.insert_child(255, TaggedPtr::from_leaf(1));
    assert!(n256.check());
    n256.header.num_children = 2;
    assert!(!n256.check());
    n256.header.num_children = 1;
    set_bitmap_bit(&mut n256.child_bitmap, 7);
    assert!(!n256.check());
}

#[test]
fn nodes_store_the_front_of_a_long_prefix() {
    let long = b"0123456789abcdefgh";
    assert_eq!(Node4::<TaggedPtr>::new(long).header.prefix_slice(), &long[..16]);
    assert_eq!(Node16::<TaggedPtr>::new(long).header.prefix_slice(), &long[..16]);
    assert_eq!(Node48::<TaggedPtr>::new(long).header.prefix_slice(), &long[..16]);
    assert_eq!(Node256::<TaggedPtr>::new(long).header.prefix_slice(), &long[..16]);
}

#[test]
fn small_nodes_hold_a_child_that_leads_nowhere() {
    let null = TaggedPtr::null();
    let mut n4 = Node4::<TaggedPtr>::new(b"");
    n4.insert_child(9, TaggedPtr::from_leaf(1));
    n4.insert_child(5, null);
    assert_eq!(n4.header.num_children(), 2);
    assert_eq!(&n4.keys[..2], &[5, 9]);
    assert_eq!(n4.find_child(5), Some(null));
    assert_eq!(n4.find_child(9), Some(TaggedPtr::from_leaf(1)));
    assert!(!n4.check());
    assert_eq!(n4.remove_child(5), Some(null));
    assert_eq!(n4.remove_child(5), None);
    assert_eq!(&n4.keys[..1], &[9]);
    assert!(n4.check());

    let mut n16 = Node16::<TaggedPtr>::new(b"");
    n16.insert_child(3, TaggedPtr::from_leaf(1));
    n16.insert_child(7, TaggedPtr::from_leaf(2));
    n16.insert_child(4, null);
    assert_eq!(&n16.keys[..3], &[3, 4, 7]);
    assert_eq!(n16.find_child(4), Some(null));
    assert_eq!(n16.remove_child(4), Some(null));
    assert_eq!(&n16.keys[..2], &[3, 7]);
    assert_eq!(n16.header.num_children(), 2);
    assert_eq!(n16.find_child(7), Some(TaggedPtr::from_leaf(2)));
}
