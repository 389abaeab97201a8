//! # Key conversion
//!
//! Provides the [`AsBytes`] trait used for byte-lexicographical indexing. A key takes
//! part in the tree only through its bytes: two keys with the same bytes are the same key.

use byteslice::ByteSlice;
use vstd::prelude::*;

verus! {

/// A trait for types that can be borrowed as a byte slice for radix indexing.
pub trait AsBytes {
    /// The bytes by which the key is found and ordered.
    spec fn key_bytes(&self) -> Seq<u8>;

    /// Returns the key as a contiguous byte slice.
    fn as_bytes(&self) -> (bytes: &[u8])
        ensures
            bytes@ == self.key_bytes(),
    ;
}

impl AsBytes for [u8] {
    open spec fn key_bytes(&self) -> Seq<u8> {
        self@
    }

    fn as_bytes(&self) -> (bytes: &[u8])
        ensures
            bytes@ == self@,
    {
        self
    }
}

impl<const N: usize> AsBytes for [u8; N] {
    open spec fn key_bytes(&self) -> Seq<u8> {
        self@
    }

    fn as_bytes(&self) -> (bytes: &[u8])
        ensures
            bytes@ == self@,
    {
        self.as_slice()
    }
}

impl AsBytes for Vec<u8> {
    open spec fn key_bytes(&self) -> Seq<u8> {
        self@
    }

    fn as_bytes(&self) -> (bytes: &[u8])
        ensures
            bytes@ == self@,
    {
        self.as_slice()
    }
}

impl AsBytes for str {
    open spec fn key_bytes(&self) -> Seq<u8> {
        vstd::utf8::encode_utf8(self@)
    }

    fn as_bytes(&self) -> (bytes: &[u8])
        ensures
            bytes@ == vstd::utf8::encode_utf8(self@),
    {
        self.as_bytes()
    }
}

impl AsBytes for String {
    open spec fn key_bytes(&self) -> Seq<u8> {
        vstd::utf8::encode_utf8(self@)
    }

    fn as_bytes(&self) -> (bytes: &[u8])
        ensures
            bytes@ == vstd::utf8::encode_utf8(self@),
    {
        self.as_str().as_bytes()
    }
}

/// `byteslice::ByteSlice`: an immutable, cheaply cloned byte string.
#[verifier::external_type_specification]
#[verifier::external_body]
pub struct ExByteSlice(byteslice::ByteSlice);

/// The bytes that a `ByteSlice` holds.
pub uninterp spec fn byte_slice_contents(slice: ByteSlice) -> Seq<u8>;

/// `ByteSlice::as_slice` borrows the bytes that the value holds. The type has no
/// interior mutability, so every call on one value returns the same bytes.
pub assume_specification[ ByteSlice::as_slice ](slice: &ByteSlice) -> (bytes: &[u8])
    ensures
        bytes@ == byte_slice_contents(*slice),
;

impl AsBytes for ByteSlice {
    open spec fn key_bytes(&self) -> Seq<u8> {
        byte_slice_contents(*self)
    }

    fn as_bytes(&self) -> (bytes: &[u8])
        ensures
            bytes@ == byte_slice_contents(*self),
    {
        self.as_slice()
    }
}

impl<T: AsBytes + ?Sized> AsBytes for &T {
    open spec fn key_bytes(&self) -> Seq<u8> {
        (**self).key_bytes()
    }

    fn as_bytes(&self) -> (bytes: &[u8]) {
        (**self).as_bytes()
    }
}

/// `std::slice::from_ref` views one value as a slice of length one.
pub assume_specification<T>[ std::slice::from_ref::<T> ](value: &T) -> (slice: &[T])
    ensures
        slice@ == seq![*value],
;

impl AsBytes for u8 {
    open spec fn key_bytes(&self) -> Seq<u8> {
        seq![*self]
    }

    fn as_bytes(&self) -> (bytes: &[u8])
        ensures
            bytes@.len() == 1,
            bytes@[0] == *self,
    {
        std::slice::from_ref(self)
    }
}

/// A slice of bytes is found under all its bytes, in order.
pub proof fn lemma_slice_key(a: &[u8], b: &[u8])
    ensures
        a.key_bytes().len() == a@.len(),
        forall|i: int| 0 <= i < a@.len() ==> #[trigger] a.key_bytes()[i] == a@[i],
        a.key_bytes() == b.key_bytes() <==> a@ == b@,
{
}

/// An array of bytes is found under all its bytes, in order, and so under the same bytes as a
/// slice that holds them.
pub proof fn lemma_array_key<const N: usize>(a: [u8; N], b: [u8; N], slice: &[u8])
    ensures
        a.key_bytes().len() == N,
        forall|i: int| 0 <= i < N ==> #[trigger] a.key_bytes()[i] == a@[i],
        a.key_bytes() == b.key_bytes() <==> a@ == b@,
        a.key_bytes() == slice.key_bytes() <==> a@ == slice@,
{
}

/// A vector of bytes is found under all its bytes, in order, and so under the same bytes as a
/// slice that holds them.
pub proof fn lemma_vec_key(a: Vec<u8>, b: Vec<u8>, slice: &[u8])
    ensures
        a.key_bytes().len() == a@.len(),
        forall|i: int| 0 <= i < a@.len() ==> #[trigger] a.key_bytes()[i] == a@[i],
        a.key_bytes() == b.key_bytes() <==> a@ == b@,
        a.key_bytes() == slice.key_bytes() <==> a@ == slice@,
{
}

/// A string is found under its UTF-8 bytes, whichever way it is held: the bytes give its
/// characters back, so that two strings are the same key only if they are equal.
pub proof fn lemma_string_key(a: String, b: String, slice: &str)
    ensures
        vstd::utf8::valid_utf8(a.key_bytes()),
        vstd::utf8::decode_utf8(a.key_bytes()) == a@,
        vstd::utf8::valid_utf8(slice.key_bytes()),
        vstd::utf8::decode_utf8(slice.key_bytes()) == slice@,
        a.key_bytes() == b.key_bytes() <==> a@ == b@,
        a.key_bytes() == slice.key_bytes() <==> a@ == slice@,
{
    vstd::utf8::encode_utf8_valid_utf8(a@);
    vstd::utf8::encode_utf8_decode_utf8(a@);
    vstd::utf8::encode_utf8_decode_utf8(b@);
    vstd::utf8::encode_utf8_valid_utf8(slice@);
    vstd::utf8::encode_utf8_decode_utf8(slice@);
}

/// A `ByteSlice` is found under everything it holds, in order, so that two are the same key only
/// if they hold the same bytes.
pub proof fn lemma_byte_slice_key(a: ByteSlice, b: ByteSlice, slice: &[u8])
    ensures
        a.key_bytes().len() == byte_slice_contents(a).len(),
        forall|i: int|
            0 <= i < byte_slice_contents(a).len() ==> #[trigger] a.key_bytes()[i]
                == byte_slice_contents(a)[i],
        a.key_bytes() == b.key_bytes() <==> byte_slice_contents(a) == byte_slice_contents(b),
        a.key_bytes() == slice.key_bytes() <==> byte_slice_contents(a) == slice@,
{
}

/// A byte is found under itself, and a reference under what it refers to.
pub proof fn lemma_byte_and_reference_key<T: AsBytes + ?Sized>(a: u8, b: u8, key: &T)
    ensures
        a.key_bytes().len() == 1,
        a.key_bytes()[0] == a,
        a.key_bytes() == b.key_bytes() <==> a == b,
        (&key).key_bytes() == key.key_bytes(),
{
    assert(a.key_bytes()[0] == a);
    assert(b.key_bytes()[0] == b);
}

} // verus!
