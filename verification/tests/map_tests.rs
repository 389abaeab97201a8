use artmap::{ArtMap, Bound, EntryRef};
use std::collections::BTreeMap;

/// The keys and values that a range yields from the front.
fn forward(map: &ArtMap<String, i32>, start: Bound<&str>, end: Bound<&str>) -> Vec<(String, i32)> {
    let mut range = map.range(start, end);
    let mut items = Vec::new();
    while let Some(entry) = range.next() {
        items.push((entry.key().clone(), *entry.value()));
    }
    items
}

/// The keys and values that a range yields from the back.
fn backward(map: &ArtMap<String, i32>, start: Bound<&str>, end: Bound<&str>) -> Vec<(String, i32)> {
    let mut range = map.range(start, end);
    let mut items = Vec::new();
    while let Some(entry) = range.next_back() {
        items.push((entry.key().clone(), *entry.value()));
    }
    items
}

fn owned(items: &[(&str, i32)]) -> Vec<(String, i32)> {
    items.iter().map(|(k, v)| (k.to_string(), *v)).collect()
}

#[test]
fn test_artmap_basic_flow() {
    let mut map = ArtMap::<String, i32>::new();
    assert!(map.is_empty());

    assert_eq!(map.insert("users:100".to_string(), 1), None);
    assert_eq!(map.insert("users:200".to_string(), 2), None);
    assert_eq!(map.insert("users:300".to_string(), 3), None);
    assert_eq!(map.len(), 3);

    assert_eq!(map.get("users:100").as_deref(), Some(&1));
    assert_eq!(map.get_by_slice(b"users:200").as_deref(), Some(&2));
    assert!(map.contains_key("users:300"));
    assert!(map.contains_key_slice(b"users:100"));
    assert!(!map.contains_key("users:400"));

    // with_value closure
    let doubled = map.with_value("users:100", |v| *v * 2);
    assert_eq!(doubled, Some(2));

    // Update
    assert_eq!(map.insert("users:100".to_string(), 10), Some(1));
    assert_eq!(map.get("users:100").as_deref(), Some(&10));

    // Remove
    assert_eq!(map.remove("users:200"), Some(2));
    assert!(map.get("users:200").is_none());
    assert_eq!(map.len(), 2);

    assert!(map.validate_invariants());
}

#[test]
fn test_artmap_range_scan() {
    let mut map = ArtMap::<String, i32>::new();
    map.insert("k:1".to_string(), 1);
    map.insert("k:2".to_string(), 2);
    map.insert("k:3".to_string(), 3);
    map.insert("k:4".to_string(), 4);
    map.insert("k:5".to_string(), 5);

    let items = forward(&map, Bound::Included("k:2"), Bound::Excluded("k:5"));
    assert_eq!(items, owned(&[("k:2", 2), ("k:3", 3), ("k:4", 4)]));

    let rev_items = backward(&map, Bound::Included("k:2"), Bound::Excluded("k:5"));
    assert_eq!(rev_items, owned(&[("k:4", 4), ("k:3", 3), ("k:2", 2)]));
}

#[test]
fn test_artmap_get_or_insert_with() {
    let mut map = ArtMap::<String, i32>::new();
    {
        let mut entry = map.get_or_insert_with("key".to_string(), || 42);
        assert_eq!(*entry.value(), 42);
        assert_eq!(entry.key(), "key");
        assert_eq!(entry.value(), &42);
        assert!(!entry.is_removed());
        assert!(entry.remove());
        assert!(entry.is_removed());
    }
    assert!(map.get("key").is_none());
}

#[test]
fn an_entry_is_removed_only_once() {
    let mut map = ArtMap::<String, i32>::new();
    map.insert("key".to_string(), 1);
    let mut entry = map.get_or_insert_with("key".to_string(), || unreachable!());
    assert_eq!(entry.value(), &1);
    assert!(entry.remove());
    assert!(!entry.remove());
    assert_eq!(entry.key(), "key");
    assert_eq!(entry.value(), &1);
    assert_eq!(map.len(), 0);
    assert_eq!(map.get_or_insert_with("key".to_string(), || 2).value(), &2);
    assert_eq!(map.len(), 1);
}

#[test]
fn entries_compare_by_key_and_value() {
    let mut map = ArtMap::<String, i32>::new();
    map.insert("a".to_string(), 1);
    map.insert("b".to_string(), 1);
    let a: EntryRef<'_, String, i32> = map.get("a").unwrap();
    let b = map.get("b").unwrap();
    assert!(a == a.clone());
    assert!(a != b);
    assert!(!a.is_removed());
    assert_eq!(*a, 1);
    assert_eq!(b.key(), "b");
}

#[test]
fn values_are_copied_or_lent() {
    let mut map = ArtMap::<String, String>::new();
    map.insert("k".to_string(), "value".to_string());
    assert_eq!(map.get_value("k"), Some("value".to_string()));
    assert_eq!(map.get_value("q"), None);
    assert_eq!(map.with_value("k", |v| v.len()), Some(5));
    assert_eq!(map.with_value("q", |v| v.len()), None);
}

#[test]
fn all_kinds_of_bounds_are_respected() {
    let mut map = ArtMap::<String, i32>::new();
    for (i, key) in ["", "a", "ab", "abc", "b"].iter().enumerate() {
        map.insert(key.to_string(), i as i32);
    }
    let keys = |start: Bound<&str>, end: Bound<&str>| {
        let items = forward(&map, start, end);
        let keys: Vec<String> = items.iter().map(|(k, _)| k.clone()).collect();
        keys
    };
    assert_eq!(
        keys(Bound::Unbounded, Bound::Unbounded),
        vec!["", "a", "ab", "abc", "b"]
    );
    assert_eq!(
        keys(Bound::Excluded("a"), Bound::Included("abc")),
        vec!["ab", "abc"]
    );
    assert_eq!(
        keys(Bound::Included("a"), Bound::Excluded("abc")),
        vec!["a", "ab"]
    );
    assert_eq!(keys(Bound::Included("aa"), Bound::Unbounded), vec!["ab", "abc", "b"]);
    assert_eq!(keys(Bound::Unbounded, Bound::Excluded("")), Vec::<String>::new());
    assert_eq!(keys(Bound::Included("b"), Bound::Included("a")), Vec::<String>::new());
}

#[test]
fn both_ends_meet_without_yielding_twice() {
    let mut map = ArtMap::<String, i32>::new();
    for i in 0..9 {
        map.insert(format!("k{i}"), i);
    }
    let mut range = map.range::<str>(Bound::Unbounded, Bound::Unbounded);
    let mut seen = Vec::new();
    loop {
        match range.next() {
            Some(entry) => seen.push(*entry),
            None => break,
        }
        if let Some(entry) = range.next_back() {
            seen.push(*entry);
        }
    }
    assert_eq!(seen, vec![0, 8, 1, 7, 2, 6, 3, 5, 4]);
    assert!(range.next().is_none());
    assert!(range.next_back().is_none());
}

#[test]
fn iterators_visit_keys_and_values_in_order() {
    let mut map = ArtMap::<String, i32>::new();
    for i in [3, 1, 2] {
        map.insert(format!("k{i}"), i);
    }
    let mut iter = map.iter();
    assert_eq!(*iter.next().unwrap(), 1);
    assert_eq!(*iter.next_back().unwrap(), 3);
    assert_eq!(*iter.next().unwrap(), 2);
    assert!(iter.next().is_none());
    let mut keys = map.keys();
    assert_eq!(keys.next(), Some(&"k1".to_string()));
    assert_eq!(keys.next(), Some(&"k2".to_string()));
    assert_eq!(keys.next(), Some(&"k3".to_string()));
    assert_eq!(keys.next(), None);
    let mut values = map.values();
    assert_eq!(values.next(), Some(&1));
    assert_eq!(values.next(), Some(&2));
    assert_eq!(values.next(), Some(&3));
    assert_eq!(values.next(), None);
}

#[test]
fn long_keys_and_deep_paths_are_iterated() {
    let mut map = ArtMap::<String, i32>::new();
    let mut expected = Vec::new();
    for i in 0..40 {
        let key = "p".repeat(i * 7);
        map.insert(key.clone(), i as i32);
        expected.push((key, i as i32));
    }
    assert_eq!(forward(&map, Bound::Unbounded, Bound::Unbounded), expected);
    expected.reverse();
    assert_eq!(backward(&map, Bound::Unbounded, Bound::Unbounded), expected);
}

#[test]
fn a_cleared_map_is_empty_and_usable() {
    let mut map = ArtMap::<String, i32>::default();
    map.clear();
    assert!(map.is_empty());
    map.insert("a".to_string(), 1);
    map.insert("b".to_string(), 2);
    map.clear();
    assert!(map.is_empty());
    assert_eq!(map.len(), 0);
    assert!(map.get("a").is_none());
    assert_eq!(map.insert("a".to_string(), 3), None);
    assert_eq!(map.len(), 1);
}

#[test]
fn a_removal_undoes_an_insertion() {
    let mut map = ArtMap::<String, i32>::new();
    map.insert("other".to_string(), 1);
    map.insert("key".to_string(), 2);
    assert_eq!(map.remove("key"), Some(2));
    assert_eq!(map.remove("key"), None);
    assert_eq!(map.remove_by_slice(b"nothing"), None);
    assert_eq!(map.len(), 1);
    assert_eq!(map.get_value("other"), Some(1));
}

#[test]
fn the_last_write_counts_in_any_order_of_keys() {
    let mut ab = ArtMap::<String, i32>::new();
    ab.insert("a".to_string(), 1);
    ab.insert("b".to_string(), 2);
    ab.insert("a".to_string(), 3);
    let mut ba = ArtMap::<String, i32>::new();
    ba.insert("b".to_string(), 2);
    ba.insert("a".to_string(), 3);
    let all = |map: &ArtMap<String, i32>| forward(map, Bound::Unbounded, Bound::Unbounded);
    assert_eq!(all(&ab), all(&ba));
    assert_eq!(all(&ab), owned(&[("a", 3), ("b", 2)]));
}

#[test]
fn fixed_size_keys_are_ordered_by_their_bytes() {
    let mut map = ArtMap::<[u8; 8], u64>::new();
    for i in (0..2000u64).rev() {
        map.insert((i * 977).to_be_bytes(), i);
    }
    let mut values = map.values();
    for i in 0..2000u64 {
        assert_eq!(values.next(), Some(&i));
    }
    assert_eq!(values.next(), None);
}

/// A small generator of pseudo-random numbers.
struct Lcg(u64);

impl Lcg {
    fn next(&mut self) -> u64 {
        self.0 = self
            .0
            .wrapping_mul(6364136223846793005)
            .wrapping_add(1442695040888963407);
        self.0 >> 33
    }
}

fn generate_key(rng: &mut Lcg) -> String {
    let prefix = match rng.next() % 5 {
        0 => "users:account:",
        1 => "users:profile:",
        2 => "orders:item:",
        3 => "temp:",
        _ => "",
    };
    format!("{}{:06}", prefix, rng.next() % 1000)
}

#[test]
fn a_simulation_matches_its_oracle() {
    let mut rng = Lcg(20202);
    let mut map = ArtMap::<String, u64>::new();
    let mut oracle = BTreeMap::<String, u64>::new();

    for _ in 0..4000 {
        let op = rng.next() % 100;
        let key = generate_key(&mut rng);
        if op < 45 {
            let val = rng.next();
            assert_eq!(map.insert(key.clone(), val), oracle.insert(key, val));
        } else if op < 75 {
            let expected = oracle.get(&key).copied();
            assert_eq!(map.get(&key).map(|e| *e.value()), expected);
            assert_eq!(map.contains_key(&key), expected.is_some());
            assert_eq!(map.contains_key_slice(key.as_bytes()), expected.is_some());
        } else if op < 90 {
            assert_eq!(map.remove(&key), oracle.remove(&key));
        } else {
            let default = rng.next();
            let expected = *oracle.entry(key.clone()).or_insert(default);
            assert_eq!(*map.get_or_insert_with(key, || default).value(), expected);
        }
    }

    assert_eq!(map.len(), oracle.len());
    for (k, v) in oracle.iter() {
        assert_eq!(map.get(k).map(|e| *e.value()), Some(*v));
    }
    assert!(map.validate_invariants());

    let start_key = "users:account:000100";
    let end_key = "users:profile:000500";
    let mut expected: Vec<(String, u64)> = oracle
        .range(start_key.to_string()..end_key.to_string())
        .map(|(k, v)| (k.clone(), *v))
        .collect();
    let mut range = map.range(Bound::Included(start_key), Bound::Excluded(end_key));
    let mut items = Vec::new();
    while let Some(entry) = range.next() {
        items.push((entry.key().clone(), *entry.value()));
    }
    assert_eq!(items, expected);

    expected.reverse();
    let mut range = map.range(Bound::Included(start_key), Bound::Excluded(end_key));
    let mut items = Vec::new();
    while let Some(entry) = range.next_back() {
        items.push((entry.key().clone(), *entry.value()));
    }
    assert_eq!(items, expected);
}

#[test]
fn an_entry_that_is_there_can_be_removed_through_its_handle() {
    let mut map = ArtMap::<String, i32>::new();
    map.insert("a".to_string(), 1);
    map.insert("b".to_string(), 2);
    assert!(map.get_mut("c").is_none());
    {
        let mut entry = map.get_mut("a").unwrap();
        assert_eq!(entry.key(), "a");
        assert_eq!(entry.value(), &1);
        assert!(!entry.is_removed());
        assert!(entry.remove());
        assert!(entry.is_removed());
        assert_eq!(entry.value(), &1);
    }
    assert!(map.get("a").is_none());
    assert_eq!(map.get_value("b"), Some(2));
    assert_eq!(map.len(), 1);
    assert!(map.validate_invariants());
}
