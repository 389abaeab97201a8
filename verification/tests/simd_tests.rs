use artmap::simd::{find_child_node16, find_child_scalar};

#[test]
fn test_find_child_node16() {
    let mut keys = [0u8; 16];
    keys[0] = b'a';
    keys[1] = b'c';
    keys[2] = b'f';
    keys[3] = b'z';

    assert_eq!(find_child_node16(&keys, 4, b'a'), Some(0));
    assert_eq!(find_child_node16(&keys, 4, b'c'), Some(1));
    assert_eq!(find_child_node16(&keys, 4, b'f'), Some(2));
    assert_eq!(find_child_node16(&keys, 4, b'z'), Some(3));
    assert_eq!(find_child_node16(&keys, 4, b'b'), None);
    assert_eq!(find_child_node16(&keys, 4, b'm'), None);

    // Matching beyond num_children must return None
    keys[4] = b'x';
    assert_eq!(find_child_node16(&keys, 4, b'x'), None);
    assert_eq!(find_child_node16(&keys, 5, b'x'), Some(4));
}

#[test]
fn the_first_of_equal_keys_is_found() {
    let keys = [7u8; 16];
    assert_eq!(find_child_scalar(&keys, 16, 7), Some(0));
    assert_eq!(find_child_scalar(&keys, 0, 7), None);
    assert_eq!(find_child_node16(&keys, 16, 8), None);
}
