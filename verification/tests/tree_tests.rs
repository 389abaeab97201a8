use artmap::inner::InnerNode;
use artmap::node::Leaf;
use artmap::trie::Slot;
use artmap::Tree;

#[test]
fn test_tree_basic_crud() {
    let mut tree = Tree::<String, i32>::new();
    let guard = &crossbeam_epoch::pin();

    assert_eq!(tree.len(), 0);
    assert!(tree.is_empty());

    assert_eq!(tree.insert("apple".to_string(), 1, guard), None);
    assert_eq!(tree.insert("banana".to_string(), 2, guard), None);
    assert_eq!(tree.insert("cherry".to_string(), 3, guard), None);
    assert_eq!(tree.len(), 3);

    assert_eq!(tree.get("apple", guard), Some(&1));
    assert_eq!(tree.get("banana", guard), Some(&2));
    assert_eq!(tree.get("cherry", guard), Some(&3));
    assert_eq!(tree.get("durian", guard), None);

    // Update
    assert_eq!(tree.insert("apple".to_string(), 400, guard), Some(1));
    assert_eq!(tree.get("apple", guard), Some(&400));
    assert_eq!(tree.len(), 3);

    // Remove
    assert_eq!(tree.remove("banana", guard), Some(2));
    assert_eq!(tree.get("banana", guard), None);
    assert_eq!(tree.len(), 2);

    assert!(tree.validate_invariants());
}

#[test]
fn test_tree_prefix_branching_and_growth() {
    let mut tree = Tree::<String, usize>::new();
    let guard = &crossbeam_epoch::pin();

    for i in 0..60 {
        let k = format!("prefix:{:02}", i);
        tree.insert(k, i, guard);
    }

    assert_eq!(tree.len(), 60);

    for i in 0..60 {
        let k = format!("prefix:{:02}", i);
        assert_eq!(tree.get(&k, guard), Some(&i));
    }

    assert!(tree.validate_invariants());
}

#[test]
fn interleaved_inserts_all_arrive() {
    let mut tree = Tree::<String, usize>::new();
    let guard = &crossbeam_epoch::pin();
    for i in 0..500 {
        for t in 0..8 {
            let k = format!("worker:{:02}:key:{:04}", t, i);
            tree.insert(k, t * 40000 + i, guard);
        }
    }
    assert_eq!(tree.len(), 4000);
    for t in 0..8 {
        for i in 0..500 {
            let k = format!("worker:{:02}:key:{:04}", t, i);
            assert_eq!(tree.get(&k, guard), Some(&(t * 40000 + i)));
        }
    }
    assert!(tree.validate_invariants());
}

#[test]
fn keys_may_be_prefixes_of_each_other() {
    let mut tree = Tree::<Vec<u8>, usize>::new();
    let guard = &crossbeam_epoch::pin();
    let long: Vec<u8> = (0..100u8).collect();
    for n in (0..=100).rev() {
        assert_eq!(tree.insert(long[..n].to_vec(), n, guard), None);
        assert!(tree.validate_invariants());
    }
    assert_eq!(tree.len(), 101);
    for n in 0..=100 {
        assert_eq!(tree.get(&long[..n], guard), Some(&n));
    }
    for n in (0..=100).step_by(3) {
        assert_eq!(tree.remove(&long[..n], guard), Some(n));
        assert_eq!(tree.remove(&long[..n], guard), None);
        assert!(tree.validate_invariants());
    }
    for n in 0..=100 {
        let left = if n % 3 == 0 { None } else { Some(&n) };
        assert_eq!(tree.get(&long[..n], guard).copied(), left.copied());
    }
    assert_eq!(tree.len(), 67);
}

#[test]
fn long_common_prefixes_are_split_anywhere() {
    let base = "x".repeat(50);
    for cut in 0..50 {
        let mut tree = Tree::<String, usize>::new();
        let guard = &crossbeam_epoch::pin();
        let other = format!("{}y", &base[..cut]);
        tree.insert(base.clone(), 1, guard);
        tree.insert(other.clone(), 2, guard);
        assert_eq!(tree.get(base.as_str(), guard), Some(&1));
        assert_eq!(tree.get(other.as_str(), guard), Some(&2));
        assert_eq!(tree.get(&base[..cut], guard), None);
        assert!(tree.validate_invariants());
    }
}

#[test]
fn removed_slots_are_used_again() {
    let mut tree = Tree::<String, usize>::new();
    let guard = &crossbeam_epoch::pin();
    for round in 0..50 {
        for i in 0..20 {
            tree.insert(format!("key:{i}"), round, guard);
        }
        for i in 0..20 {
            assert_eq!(tree.remove(&format!("key:{i}"), guard), Some(round));
        }
        assert!(tree.is_empty());
        assert!(tree.validate_invariants());
    }
}

#[test]
fn get_or_insert_with_calls_the_closure_once() {
    let mut tree = Tree::<String, usize>::new();
    let guard = &crossbeam_epoch::pin();
    let mut calls = 0;
    let first = tree.get_or_insert_with(
        "key".to_string(),
        || {
            calls += 1;
            7
        },
        guard,
    );
    assert_eq!(calls, 1);
    let second = tree.get_or_insert_with("key".to_string(), || unreachable!(), guard);
    assert_eq!(first, second);
    assert_eq!(tree.leaf(first).key, "key");
    assert_eq!(tree.leaf(first).value, 7);
}

#[test]
fn a_leaf_is_removed_once() {
    let mut tree = Tree::<String, usize>::new();
    let guard = &crossbeam_epoch::pin();
    tree.insert("a".to_string(), 1, guard);
    tree.insert("b".to_string(), 2, guard);
    let leaf = tree.get_leaf("a", guard).unwrap();
    assert!(tree.remove_leaf(leaf, guard));
    assert!(!tree.remove_leaf(leaf, guard));
    assert_eq!(tree.get("a", guard), None);
    assert_eq!(tree.get("b", guard), Some(&2));
    assert!(tree.get_leaf("a", guard).is_none());
    assert_eq!(tree.len(), 1);
}

#[test]
fn neighbours_of_a_key_are_found() {
    let mut tree = Tree::<Vec<u8>, usize>::new();
    let guard = &crossbeam_epoch::pin();
    assert!(tree.find_successor(b"", true).is_none());
    assert!(tree.find_predecessor(b"zzz", true).is_none());
    for key in ["b", "bat", "bb", "cat", "c\u{e9}"] {
        tree.insert(key.as_bytes().to_vec(), 0, guard);
    }
    let after = |key: &[u8], equal: bool| {
        let found = tree.find_successor(key, equal);
        found.map(|ptr| tree.leaf(ptr).key.clone())
    };
    let before = |key: &[u8], equal: bool| {
        let found = tree.find_predecessor(key, equal);
        found.map(|ptr| tree.leaf(ptr).key.clone())
    };
    assert_eq!(after(b"", true), Some(b"b".to_vec()));
    assert_eq!(after(b"b", true), Some(b"b".to_vec()));
    assert_eq!(after(b"b", false), Some(b"bat".to_vec()));
    assert_eq!(after(b"bat", false), Some(b"bb".to_vec()));
    assert_eq!(after(b"bz", true), Some(b"cat".to_vec()));
    assert_eq!(after(b"d", true), None);
    assert_eq!(before(b"b", false), None);
    assert_eq!(before(b"bat", false), Some(b"b".to_vec()));
    assert_eq!(before(b"ba", true), Some(b"b".to_vec()));
    assert_eq!(before(b"cat", true), Some(b"cat".to_vec()));
    assert_eq!(before(b"cc", true), Some(b"cat".to_vec()));
    assert_eq!(before(b"zzz", true), Some("c\u{e9}".as_bytes().to_vec()));
}

/// A tree with an inner node over two leaves, and the slot of that node.
fn small_tree() -> (Tree<String, usize>, usize) {
    let mut tree = Tree::<String, usize>::new();
    let guard = &crossbeam_epoch::pin();
    tree.insert("abc".to_string(), 1, guard);
    tree.insert("abd".to_string(), 2, guard);
    assert!(tree.validate_invariants());
    let root = tree.raw_root().as_inner_ptr();
    (tree, root)
}

#[test]
fn validation_notices_a_wrong_length() {
    let (mut tree, _) = small_tree();
    tree.len = 3;
    assert!(!tree.validate_invariants());
    tree.len = 2;
    assert!(tree.validate_invariants());

    let mut empty = Tree::<String, usize>::new();
    assert!(empty.validate_invariants());
    empty.len = 1;
    assert!(!empty.validate_invariants());
}

#[test]
fn validation_notices_a_leaf_in_the_wrong_place() {
    let (mut tree, _) = small_tree();
    let guard = &crossbeam_epoch::pin();
    let slot = tree.get_leaf("abd", guard).unwrap().link.as_leaf_ptr();
    tree.trie.slots[slot] = Slot::Leaf(Leaf::new("xbd".to_string(), 2));
    assert!(!tree.validate_invariants());
    tree.trie.slots[slot] = Slot::Leaf(Leaf::new("abde".to_string(), 2));
    assert!(tree.validate_invariants());
}

#[test]
fn validation_notices_a_wrong_exact_leaf() {
    let (mut tree, _) = small_tree();
    let guard = &crossbeam_epoch::pin();
    tree.insert("ab".to_string(), 3, guard);
    assert!(tree.validate_invariants());
    let slot = tree.get_leaf("ab", guard).unwrap().link.as_leaf_ptr();
    tree.trie.slots[slot] = Slot::Leaf(Leaf::new("abx".to_string(), 3));
    assert!(!tree.validate_invariants());
}

#[test]
fn validation_notices_an_obsolete_node() {
    let (mut tree, root) = small_tree();
    if let Slot::Inner(InnerNode::N4(node)) = &mut tree.trie.slots[root] {
        node.header.mark_obsolete();
    }
    assert!(!tree.validate_invariants());
}

#[test]
fn validation_notices_a_broken_layout() {
    let (mut tree, root) = small_tree();
    if let Slot::Inner(InnerNode::N4(node)) = &mut tree.trie.slots[root] {
        node.keys.swap(0, 1);
    }
    assert!(!tree.validate_invariants());

    let (mut tree, root) = small_tree();
    if let Slot::Inner(InnerNode::N4(node)) = &mut tree.trie.slots[root] {
        node.header.num_children = 5;
    }
    assert!(!tree.validate_invariants());
}

/// The latch word of the inner node in a slot.
fn word(tree: &Tree<String, usize>, slot: usize) -> Option<u64> {
    match &tree.trie.slots[slot] {
        Slot::Inner(inner) => inner.header().latch.read_version(),
        _ => None,
    }
}

#[test]
fn the_latches_that_a_writer_takes_move_on() {
    let mut tree = Tree::<String, usize>::new();
    let guard = &crossbeam_epoch::pin();
    let root = |tree: &Tree<String, usize>| tree.root_latch.read_version();
    assert_eq!(root(&tree), Some(0));
    tree.insert("aa".to_string(), 1, guard);
    assert_eq!(root(&tree), Some(4));
    // The value of a single leaf is replaced under the latch of the root.
    tree.insert("aa".to_string(), 2, guard);
    assert_eq!(root(&tree), Some(8));
    // A new node starts afresh.
    tree.insert("ab".to_string(), 3, guard);
    assert_eq!(root(&tree), Some(12));
    let node = tree.raw_root().as_inner_ptr();
    assert_eq!(word(&tree, node), Some(0));
    // A node with room is written under its own latch.
    tree.insert("ac".to_string(), 4, guard);
    tree.insert("ac".to_string(), 5, guard);
    assert_eq!(root(&tree), Some(12));
    assert_eq!(word(&tree, node), Some(8));
    // A removal takes the latch of the node even where the leaf has another key.
    assert_eq!(tree.remove("acx", guard), None);
    assert_eq!(word(&tree, node), Some(12));
    assert_eq!(tree.remove("ac", guard), Some(5));
    assert_eq!(word(&tree, node), Some(16));
    assert_eq!(tree.remove("ax", guard), None);
    assert_eq!(word(&tree, node), Some(16));
    // Growth and splits at the root are written under both latches.
    for key in ["ac", "ad"] {
        tree.insert(key.to_string(), 6, guard);
    }
    assert_eq!(root(&tree), Some(12));
    tree.insert("ae".to_string(), 7, guard);
    assert_eq!(root(&tree), Some(16));
    let larger = tree.raw_root().as_inner_ptr();
    assert_eq!(word(&tree, larger), Some(0));
    tree.insert("b".to_string(), 8, guard);
    assert_eq!(root(&tree), Some(20));
    assert_eq!(word(&tree, larger), Some(4));
    assert_eq!(word(&tree, tree.raw_root().as_inner_ptr()), Some(0));
    tree.clear();
    assert_eq!(root(&tree), Some(24));
}

#[test]
fn a_place_for_every_byte_is_filled_without_the_latch() {
    let mut tree = Tree::<String, usize>::new();
    let guard = &crossbeam_epoch::pin();
    for byte in 0..49u8 {
        tree.insert((byte as char).to_string(), 0, guard);
    }
    let node = tree.raw_root().as_inner_ptr();
    assert_eq!(word(&tree, node), Some(0));
    tree.insert("x".to_string(), 1, guard);
    assert_eq!(word(&tree, node), Some(0));
    tree.insert("x".to_string(), 2, guard);
    assert_eq!(word(&tree, node), Some(4));
    assert!(tree.validate_invariants());
}

#[test]
fn a_pointer_never_leads_to_another_leaf() {
    let mut tree = Tree::<String, usize>::new();
    let guard = &crossbeam_epoch::pin();
    tree.insert("a".to_string(), 1, guard);
    let first = tree.get_leaf("a", guard).unwrap();
    assert_eq!(tree.remove("a", guard), Some(1));
    tree.insert("b".to_string(), 2, guard);
    let second = tree.get_leaf("b", guard).unwrap();
    // The slot is handed out again, but not the pointer.
    assert_eq!(first.link, second.link);
    assert_ne!(first, second);
    assert!(!tree.remove_leaf(first, guard));
    assert_eq!(tree.get("b", guard), Some(&2));
    assert!(tree.remove_leaf(second, guard));
    assert!(tree.is_empty());

    // The same key has another leaf when it comes back.
    tree.insert("a".to_string(), 3, guard);
    assert!(!tree.remove_leaf(first, guard));
    let third = tree.get_leaf("a", guard).unwrap();
    tree.clear();
    assert!(!tree.remove_leaf(third, guard));
    tree.insert("a".to_string(), 4, guard);
    assert!(!tree.remove_leaf(third, guard));
    assert_eq!(tree.get("a", guard), Some(&4));
    assert_eq!(tree.len(), 1);
}

#[test]
fn a_pointer_outlives_changes_of_other_entries() {
    let mut tree = Tree::<String, usize>::new();
    let guard = &crossbeam_epoch::pin();
    let kept = tree.get_or_insert_with("m".to_string(), || 0, guard);
    for byte in 0..60u8 {
        tree.insert((byte as char).to_string(), 1, guard);
    }
    for byte in 0..60u8 {
        tree.remove(&(byte as char).to_string(), guard);
    }
    tree.insert("m".to_string(), 9, guard);
    assert_eq!(tree.get_leaf("m", guard), Some(kept));
    assert_eq!(tree.leaf(kept).value, 9);
    assert!(tree.remove_leaf(kept, guard));
}

#[test]
fn leaves_without_a_number_of_their_own_get_slots_of_their_own() {
    let mut tree = Tree::<String, usize>::new();
    let guard = &crossbeam_epoch::pin();
    tree.serial = u64::MAX - 1;
    tree.insert("a".to_string(), 1, guard);
    let first = tree.get_leaf("a", guard).unwrap();
    assert_eq!(first.serial, u64::MAX);
    tree.remove("a", guard);
    tree.insert("b".to_string(), 2, guard);
    let second = tree.get_leaf("b", guard).unwrap();
    assert_eq!(second.serial, u64::MAX);
    assert_ne!(first.link, second.link);
    assert!(!tree.remove_leaf(first, guard));
    tree.clear();
    tree.insert("c".to_string(), 3, guard);
    assert!(!tree.remove_leaf(first, guard));
    assert!(!tree.remove_leaf(second, guard));
    assert_eq!(tree.get("c", guard), Some(&3));
    assert!(tree.validate_invariants());
}
