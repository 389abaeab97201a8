use artmap::AsBytes;
use byteslice::ByteSlice;

#[test]
fn test_as_bytes() {
    assert_eq!(AsBytes::as_bytes(b"hello"), b"hello");
    assert_eq!(AsBytes::as_bytes("world"), b"world");
    assert_eq!(AsBytes::as_bytes(&String::from("surreal")), b"surreal");
    assert_eq!(AsBytes::as_bytes(&vec![1, 2, 3]), &[1, 2, 3]);
    assert_eq!(AsBytes::as_bytes(&ByteSlice::from("bytes")), b"bytes");
}

#[test]
fn other_keys_have_the_bytes_of_what_they_hold() {
    assert_eq!(AsBytes::as_bytes(&7u8), &[7]);
    assert_eq!(AsBytes::as_bytes(&"by reference"), b"by reference");
    assert_eq!(AsBytes::as_bytes(&[1u8, 2, 3][..]), &[1, 2, 3]);
    assert_eq!(AsBytes::as_bytes(""), b"");
    assert_eq!(AsBytes::as_bytes("\u{e9}"), &[0xc3, 0xa9]);
}
