use artmap::arena::{Arena, ArenaArtMap, ArenaEntryRef, ArenaInserter, MAX_ARENA_SIZE};
use artmap::arena::node::TaggedOffset;
use artmap::arena::tree::ArenaTree;
use artmap::trie::Slot;
use artmap::Bound;

#[test]
fn test_arena_artmap_basic_crud() {
    let mut map = ArenaArtMap::<String, u64>::with_capacity(16 * 1024 * 1024);

    assert_eq!(map.len(), 0);
    assert!(map.is_empty());

    assert_eq!(map.insert("apple".to_string(), 100), None);
    assert_eq!(map.insert("banana".to_string(), 200), None);
    assert_eq!(map.insert("cherry".to_string(), 300), None);
    assert_eq!(map.len(), 3);

    assert_eq!(map.get("apple"), Some(100));
    assert_eq!(map.get("banana"), Some(200));
    assert_eq!(map.get("cherry"), Some(300));
    assert_eq!(map.get("durian"), None);

    assert!(map.contains_key("apple"));
    assert!(!map.contains_key("durian"));

    // Update existing key
    assert_eq!(map.insert("apple".to_string(), 999), Some(100));
    assert_eq!(map.get("apple"), Some(999));
    assert_eq!(map.len(), 3);

    // Remove
    assert_eq!(map.remove("banana"), Some(200));
    assert_eq!(map.get("banana"), None);
    assert_eq!(map.len(), 2);
}

#[test]
fn test_arena_artmap_node_growth() {
    // 16MB arena
    let mut map = ArenaArtMap::<String, usize>::with_capacity(16 * 1024 * 1024);

    // Insert 200 entries sharing the same prefix "prefix:items:" to trigger
    // Node4 -> Node16 -> Node48 -> Node256 growth
    for i in 0..200 {
        let k = format!("prefix:items:{i:03}");
        assert_eq!(map.insert(k, i), None);
    }

    assert_eq!(map.len(), 200);

    // Verify all 200 items exist and match
    for i in 0..200 {
        let k = format!("prefix:items:{i:03}");
        assert_eq!(map.get(&k), Some(i), "key {k} must match {i}");
    }
}

#[test]
fn test_arena_artmap_versioned_snapshot_reads() {
    let mut map = ArenaArtMap::<String, String>::with_capacity(16 * 1024 * 1024);

    // Insert multiple versions of the same key
    map.insert_versioned("account:1".to_string(), 100, "balance: 50".to_string());
    map.insert_versioned("account:1".to_string(), 200, "balance: 80".to_string());
    map.insert_versioned("account:1".to_string(), 300, "balance: 120".to_string());

    // Snapshot read at max_version = 350 returns newest version (300)
    let snap350 = map.get_version_le("account:1", 350).unwrap();
    assert_eq!(snap350.0, 300);
    assert_eq!(snap350.1, "balance: 120");

    // Snapshot read at max_version = 250 returns version 200
    let snap250 = map.get_version_le("account:1", 250).unwrap();
    assert_eq!(snap250.0, 200);
    assert_eq!(snap250.1, "balance: 80");

    // Snapshot read at max_version = 150 returns version 100
    let snap150 = map.get_version_le("account:1", 150).unwrap();
    assert_eq!(snap150.0, 100);
    assert_eq!(snap150.1, "balance: 50");

    // Snapshot read at max_version = 50 returns None
    assert!(map.get_version_le("account:1", 50).is_none());
}

#[test]
fn test_arena_artmap_range_scan() {
    let mut map = ArenaArtMap::<String, usize>::with_capacity(16 * 1024 * 1024);

    for i in 0..1000 {
        map.insert(format!("item:{i:04}"), i);
    }
    assert_eq!(map.len(), 1000);

    // Full iteration in ascending order
    let mut items: Vec<(String, usize)> = Vec::new();
    let mut iter = map.iter();
    while let Some(e) = iter.next() {
        items.push((e.key().clone(), *e));
    }
    assert_eq!(items.len(), 1000);
    for (idx, (k, v)) in items.iter().enumerate() {
        assert_eq!(k, &format!("item:{idx:04}"));
        assert_eq!(*v, idx);
    }

    // Sub-range: [100, 200)
    let mut sub: Vec<usize> = Vec::new();
    let mut range = map.range(Bound::Included("item:0100"), Bound::Excluded("item:0200"));
    while let Some(e) = range.next() {
        sub.push(*e);
    }
    assert_eq!(sub.len(), 100);
    assert_eq!(sub.first(), Some(&100));
    assert_eq!(sub.last(), Some(&199));

    // Reverse range: [100, 110)
    let mut rev_sub: Vec<usize> = Vec::new();
    let mut range = map.range(Bound::Included("item:0100"), Bound::Excluded("item:0110"));
    while let Some(e) = range.next_back() {
        rev_sub.push(*e);
    }
    assert_eq!(
        rev_sub,
        vec![109, 108, 107, 106, 105, 104, 103, 102, 101, 100]
    );
}

#[test]
fn test_arena_artmap_reset() {
    let mut arena = Arena::new(4 * 1024 * 1024);
    assert!(arena.is_empty());

    {
        let mut map = ArenaArtMap::<String, usize>::new(arena);

        for i in 0..1000 {
            map.insert(format!("key:{i:04}"), i);
        }
        assert_eq!(map.len(), 1000);
        assert!(map.arena().size() > 0);

        // Give the map up to reclaim its arena
        arena = map.into_arena();
    }

    // Reset arena in O(1)
    arena.reset();
    assert!(arena.is_empty());

    // Re-populate new map on recycled arena
    let mut map2 = ArenaArtMap::<String, usize>::new(arena);
    for i in 0..1000 {
        map2.insert(format!("new_key:{i:04}"), i * 10);
    }
    assert_eq!(map2.len(), 1000);
    assert_eq!(map2.get("new_key:0500"), Some(5000));
}

#[test]
fn test_arena_artmap_inserter() {
    let mut map = ArenaArtMap::<String, usize>::with_capacity(16 * 1024 * 1024);
    let mut inserter = ArenaInserter::new();

    // Insert 5000 sequential items with inserter
    for i in 0..5000 {
        map.insert_with_inserter(format!("seq:{i:05}"), i, &mut inserter);
    }
    assert_eq!(map.len(), 5000);

    for i in 0..5000 {
        assert_eq!(map.get(&format!("seq:{i:05}")), Some(i));
    }

    // Interleaved inserts with inserter
    inserter.reset();
    for i in 5000..6000 {
        map.insert_with_inserter(format!("interleaved:{i:05}"), i * 2, &mut inserter);
    }
    assert_eq!(map.len(), 6000);
}

#[test]
fn test_arena_artmap_scan_api() {
    let mut map = ArenaArtMap::<String, usize>::with_capacity(16 * 1024 * 1024);

    for i in 0..500 {
        map.insert(format!("user:{i:04}"), i);
    }

    let mut scanned = Vec::new();
    map.scan(
        Bound::Included("user:0100"),
        Bound::Excluded("user:0200"),
        |k: &String, v: &usize, _ver: u64| {
            scanned.push((k.clone(), *v));
            true
        },
    );
    assert_eq!(scanned.len(), 100);
    assert_eq!(scanned[0], ("user:0100".to_string(), 100));
    assert_eq!(scanned[99], ("user:0199".to_string(), 199));

    // Early termination
    let mut count = 0;
    map.scan(
        Bound::Included("user:0000"),
        Bound::Unbounded,
        |_k: &String, _v: &usize, _ver: u64| {
            count += 1;
            count < 25
        },
    );
    assert_eq!(count, 25);
}

#[test]
fn a_scan_counts_what_it_visits() {
    let mut map = ArenaArtMap::<String, usize>::with_capacity(1024 * 1024);
    for i in 0..10 {
        map.insert_versioned(format!("k{i}"), i as u64 + 5, i);
    }
    map.remove("k3");
    let mut versions = Vec::new();
    let n = map.scan::<str, _>(Bound::Unbounded, Bound::Unbounded, |_k, _v, version| {
        versions.push(version);
        version < 9
    });
    assert_eq!(n, 4);
    assert_eq!(versions, vec![5, 6, 7, 9]);
    let all = map.scan::<str, _>(Bound::Unbounded, Bound::Unbounded, |_, _, _| true);
    assert_eq!(all, 9);
    let none = map.scan(Bound::Included("x"), Bound::Unbounded, |_, _, _| true);
    assert_eq!(none, 0);
}

#[test]
fn many_eight_byte_keys_arrive() {
    let arena = Arena::with_capacity(32 * 1024 * 1024);
    let mut map = ArenaArtMap::<[u8; 8], u64>::new(arena);
    for i in 0..5000u64 {
        for t in 0..8u64 {
            let n = t * 5000 + i;
            map.insert(n.to_be_bytes(), n);
        }
    }
    assert_eq!(map.len(), 40000);
    for n in 0..40000u64 {
        assert_eq!(map.get(&n.to_be_bytes()), Some(n));
        assert_eq!(map.get_slice(&n.to_be_bytes()), Some(n));
    }
}

#[test]
fn versions_are_read_as_of_a_number() {
    let mut map = ArenaArtMap::<String, i32>::with_capacity(16 * 1024 * 1024);
    map.insert("account:1001".to_string(), 500);
    map.insert_versioned("account:1001".to_string(), 1, 500);
    map.insert_versioned("account:1001".to_string(), 2, 750);
    assert_eq!(map.get_version_le("account:1001", 1), Some((1, 500)));
    assert_eq!(map.get_version_le("account:1001", 2), Some((2, 750)));
    assert_eq!(map.get_version_le("account:1001", 0), Some((0, 500)));
    assert_eq!(map.get_version_le("account:1002", 2), None);
    assert_eq!(map.get("account:1001"), Some(750));
    assert_eq!(map.len(), 1);

    let mut range = map.range(
        Bound::Included("account:1000"),
        Bound::Excluded("account:2000"),
    );
    let entry: ArenaEntryRef<'_, String, i32> = range.next().unwrap();
    assert_eq!(entry.key(), "account:1001");
    assert_eq!(entry.value(), &750);
    assert_eq!(entry.version(), 2);
    assert!(!entry.is_removed());
    assert!(entry == entry.clone());
    assert!(range.next().is_none());
}

#[test]
fn a_removed_entry_keeps_its_older_versions() {
    let mut map = ArenaArtMap::<String, i32>::with_capacity(1024 * 1024);
    map.insert_versioned("k".to_string(), 10, 1);
    map.insert_versioned("k".to_string(), 20, 2);
    assert_eq!(map.remove("k"), Some(2));
    assert_eq!(map.remove("k"), None);
    assert_eq!(map.get("k"), None);
    assert_eq!(map.get_version_le("k", 25), None);
    assert_eq!(map.get_version_le("k", 15), Some((10, 1)));
    assert_eq!(map.len(), 0);
    assert!(map.is_empty());
    assert!(map.iter().next().is_none());

    // A later version brings the entry back.
    assert!(map.insert_versioned("k".to_string(), 30, 3));
    assert_eq!(map.get("k"), Some(3));
    assert_eq!(map.get_version_le("k", 25), None);
    assert_eq!(map.len(), 1);
}

#[test]
fn an_entry_that_was_removed_can_be_inserted_again() {
    let mut map = ArenaArtMap::<String, i32>::with_capacity(1024 * 1024);
    assert_eq!(map.insert("k".to_string(), 1), None);
    assert_eq!(map.remove("k"), Some(1));
    assert_eq!(map.len(), 0);
    assert_eq!(map.insert("k".to_string(), 2), None);
    assert_eq!(map.get("k"), Some(2));
    assert_eq!(map.len(), 1);
    assert_eq!(map.insert("k".to_string(), 3), Some(2));
    assert_eq!(map.len(), 1);
}

#[test]
fn ranges_skip_removed_entries_from_both_ends() {
    let mut map = ArenaArtMap::<String, usize>::with_capacity(1024 * 1024);
    for i in 0..10 {
        map.insert(format!("k{i}"), i);
    }
    for i in [0, 1, 5, 9] {
        map.remove(&format!("k{i}"));
    }
    let mut range = map.iter();
    assert_eq!(range.next().map(|e| *e), Some(2));
    assert_eq!(range.next_back().map(|e| *e), Some(8));
    assert_eq!(range.next().map(|e| *e), Some(3));
    assert_eq!(range.next().map(|e| *e), Some(4));
    assert_eq!(range.next().map(|e| *e), Some(6));
    assert_eq!(range.next_back().map(|e| *e), Some(7));
    assert!(range.next().is_none());
    assert!(range.next_back().is_none());
}

#[test]
fn an_inserter_remembers_how_far_it_got() {
    let mut map = ArenaArtMap::<String, i32>::with_capacity(1024 * 1024);
    let mut inserter = ArenaInserter::default();
    assert_eq!(inserter.last_key(), None);
    assert_eq!(map.insert_with_inserter("a".to_string(), 1, &mut inserter), None);
    assert_eq!(map.insert_with_inserter("a".to_string(), 2, &mut inserter), Some(1));
    map.insert_with_inserter("b".to_string(), 3, &mut inserter);
    assert_eq!(inserter.last_key(), Some(&b"b"[..]));
    inserter.reset();
    assert_eq!(inserter.last_key(), None);
}

#[test]
fn a_full_arena_is_noticed_before_an_insertion() {
    let mut map = ArenaArtMap::<String, usize>::with_capacity(4096);
    let mut inserted = 0;
    while map.can_insert(&format!("key:{inserted:04}")) {
        map.insert(format!("key:{inserted:04}"), inserted);
        inserted += 1;
    }
    assert!(inserted > 10);
    assert_eq!(map.len(), inserted);
    for i in 0..inserted {
        assert_eq!(map.get(&format!("key:{i:04}")), Some(i));
    }
    let tiny = ArenaArtMap::<String, usize>::with_capacity(0);
    assert!(!tiny.can_insert("k"));
}

#[test]
fn lookups_can_be_followed() {
    let mut map = ArenaArtMap::<String, usize>::with_capacity(1024 * 1024);
    assert!(map.debug_lookup(b"abc").is_empty());
    map.insert("abcd".to_string(), 1);
    map.insert("abce".to_string(), 2);
    map.insert("abxx".to_string(), 3);
    let steps = map.debug_lookup(b"abcd");
    let depths: Vec<usize> = steps.iter().map(|step| step.depth).collect();
    assert_eq!(depths, vec![0, 3, 4]);
    assert!(map.debug_lookup(b"q").len() < steps.len());

    let node = steps[1].node.as_ref().unwrap();
    assert_eq!(node.next_byte, Some(b'd'));
    assert_eq!(node.child, Some(steps[2].link));
    assert_eq!(node.child_bytes, b"de");
    assert_eq!(node.exact_key, None);
    assert_eq!(steps[2].leaf_key.as_deref(), Some(&b"abcd"[..]));

    map.insert("abc".to_string(), 4);
    let steps = map.debug_lookup(b"abcz");
    let node = steps[1].node.as_ref().unwrap();
    assert_eq!(node.next_byte, Some(b'z'));
    assert_eq!(node.child, None);
    assert_eq!(node.child_bytes, b"de");
    assert_eq!(node.exact_key.as_deref(), Some(&b"abc"[..]));
    let steps = map.debug_lookup(b"abc");
    assert_eq!(steps[1].node.as_ref().unwrap().next_byte, None);
}

#[test]
fn leaves_take_their_fields_one_behind_the_other() {
    let mut map = ArenaArtMap::<u8, u8>::with_capacity(4096);
    assert_eq!(map.arena().size(), 8);
    map.insert(1, 2);
    assert_eq!(map.arena().size(), 8 + 24 + 7);
    let mut map = ArenaArtMap::<[u8; 8], u64>::with_capacity(4096);
    map.insert([0; 8], 2);
    assert_eq!(map.arena().size(), 8 + 32 + 7);
    let mut map = ArenaArtMap::<[u8; 3], u64>::with_capacity(4096);
    map.insert([0; 3], 2);
    assert_eq!(map.arena().size(), 8 + 32 + 7);
}

#[test]
fn the_root_stands_at_the_offsets_that_the_arena_hands_out() {
    let mut tree = ArenaTree::<u8, u8>::new(Arena::with_capacity(4096));
    assert_eq!(tree.raw_root(), TaggedOffset::null());
    assert_eq!(tree.insert(1u8, 2u8), None);
    assert_eq!(tree.raw_root(), TaggedOffset(9));
    assert_eq!(tree.insert(1u8, 3u8), Some(2));
    assert_eq!(tree.raw_root(), TaggedOffset(9));
    // The bytes of the leaf that was not needed are gone.
    assert!(tree.insert_versioned(1u8, 5, 4u8));
    assert_eq!(tree.raw_root(), TaggedOffset(73));
    assert_eq!(tree.root_latch.read_version(), Some(12));
}

#[test]
fn the_deepest_node_of_a_chain_comes_first() {
    let mut tree = ArenaTree::<[u8; 24], u64>::new(Arena::with_capacity(4096));
    let mut key = [7u8; 24];
    tree.insert(key, 1);
    assert_eq!(tree.arena().size(), 8 + 48 + 7);
    key[20] = 8;
    tree.insert(key, 2);
    // The leaf stands at 64, the node behind the first 17 bytes at 120, and the root at 192.
    assert_eq!(tree.raw_root(), TaggedOffset(192));
    assert_eq!(tree.arena().size(), 8 + 55 + 55 + 71 + 71);
    let steps = tree.debug_lookup(&key);
    let links: Vec<u32> = steps.iter().map(|step| step.link.raw()).collect();
    assert_eq!(links, vec![192, 120, 65]);
    assert_eq!(tree.root_latch.read_version(), Some(8));
}

#[test]
fn a_place_for_every_byte_is_filled_under_the_latch() {
    let mut tree = ArenaTree::<u8, u8>::new(Arena::with_capacity(64 * 1024));
    for byte in 0..49u8 {
        tree.insert(byte, byte);
    }
    let word = |tree: &ArenaTree<u8, u8>| {
        let slot = tree.raw_root().inner_offset() as usize / 8;
        match &tree.trie.slots[slot] {
            Slot::Inner(inner) => inner.header().latch.read_version(),
            _ => None,
        }
    };
    assert_eq!(word(&tree), Some(0));
    tree.insert(200, 1);
    assert_eq!(word(&tree), Some(4));
    assert_eq!(tree.remove(&[200]), Some(1));
    assert_eq!(word(&tree), Some(4));
}

#[test]
fn allocations_are_aligned_and_apart() {
    let mut arena = Arena::new(100);
    assert_eq!(arena.capacity(), 100);
    assert_eq!(arena.size(), 8);
    assert_eq!(arena.remaining(), 92);
    assert!(arena.is_empty());
    assert_eq!(arena.allocate(10, 8, 0), Some(8));
    assert_eq!(arena.size(), 25);
    assert_eq!(arena.allocate(10, 8, 0), Some(32));
    assert_eq!(arena.size(), 42);
    assert_eq!(arena.allocate(1, 1, 0), Some(42));
    assert!(!arena.is_empty());
    assert_eq!(arena.allocate(50, 8, 1), None);
    assert_eq!(arena.size(), 100);
    assert_eq!(arena.remaining(), 0);
    assert_eq!(arena.allocate(1, 1, 0), None);
    arena.reset();
    assert!(arena.is_empty());
    assert_eq!(arena.allocate(85, 8, 0), Some(8));
    assert_eq!(Arena::new(usize::MAX).capacity(), MAX_ARENA_SIZE);
}
