//! # Range bounds
//!
//! The two ends of a range of keys.

use crate::key::AsBytes;
use crate::order;
use crate::order::{compare, Compare};
use vstd::prelude::*;

verus! {

/// An end of a range of keys.
#[derive(PartialEq, Eq, Debug)]
pub enum Bound<T> {
    /// The range ends at this key and holds it.
    Included(T),
    /// The range ends at this key and does not hold it.
    Excluded(T),
    /// The range has no end.
    Unbounded,
}

/// The bytes of the key in a bound.
pub open spec fn bytes_of<Q: AsBytes + ?Sized>(bound: Bound<&Q>) -> Bound<Seq<u8>> {
    match bound {
        Bound::Included(key) => Bound::Included(key.key_bytes()),
        Bound::Excluded(key) => Bound::Excluded(key.key_bytes()),
        Bound::Unbounded => Bound::Unbounded,
    }
}

/// The bytes in a bound.
pub open spec fn viewed(bound: Bound<Vec<u8>>) -> Bound<Seq<u8>> {
    match bound {
        Bound::Included(key) => Bound::Included(key@),
        Bound::Excluded(key) => Bound::Excluded(key@),
        Bound::Unbounded => Bound::Unbounded,
    }
}

/// `key` is not before the lower end of a range.
pub open spec fn from_start(key: Seq<u8>, start: Bound<Seq<u8>>) -> bool {
    match start {
        Bound::Included(s) => order::lex_le(s, key),
        Bound::Excluded(s) => order::lex_lt(s, key),
        Bound::Unbounded => true,
    }
}

/// `key` is not behind the upper end of a range.
pub open spec fn to_end(key: Seq<u8>, end: Bound<Seq<u8>>) -> bool {
    match end {
        Bound::Included(e) => order::lex_le(key, e),
        Bound::Excluded(e) => order::lex_lt(key, e),
        Bound::Unbounded => true,
    }
}

/// `key` is in the range.
pub open spec fn in_range(key: Seq<u8>, start: Bound<Seq<u8>>, end: Bound<Seq<u8>>) -> bool {
    from_start(key, start) && to_end(key, end)
}

/// A range from a key on holds the keys that do not come before it, and without the key itself
/// those that come after it. Only a range without a lower end holds everything from below.
pub proof fn lemma_range_start<Q: AsBytes + ?Sized>(q: &Q, k: Seq<u8>, end: Bound<&Q>)
    ensures
        in_range(k, bytes_of(Bound::Included(q)), bytes_of(end)) <==> order::lex_le(
            q.key_bytes(),
            k,
        ) && in_range(k, bytes_of(Bound::<&Q>::Unbounded), bytes_of(end)),
        in_range(k, bytes_of(Bound::Excluded(q)), bytes_of(end)) <==> order::lex_lt(
            q.key_bytes(),
            k,
        ) && in_range(k, bytes_of(Bound::<&Q>::Unbounded), bytes_of(end)),
        in_range(k, bytes_of(Bound::<&Q>::Unbounded), bytes_of(Bound::<&Q>::Unbounded)),
{
}

/// A range up to a key holds the keys that do not come after it, and without the key itself those
/// that come before it. Only a range without an upper end holds everything from above.
pub proof fn lemma_range_end<Q: AsBytes + ?Sized>(q: &Q, k: Seq<u8>, start: Bound<&Q>)
    ensures
        in_range(k, bytes_of(start), bytes_of(Bound::Included(q))) <==> order::lex_le(
            k,
            q.key_bytes(),
        ) && in_range(k, bytes_of(start), bytes_of(Bound::<&Q>::Unbounded)),
        in_range(k, bytes_of(start), bytes_of(Bound::Excluded(q))) <==> order::lex_lt(
            k,
            q.key_bytes(),
        ) && in_range(k, bytes_of(start), bytes_of(Bound::<&Q>::Unbounded)),
{
}

/// A key is in a range if and only if it is on the right side of both ends.
pub proof fn lemma_in_range(k: Seq<u8>, a: Vec<u8>, b: Vec<u8>)
    ensures
        in_range(k, Bound::Unbounded, Bound::Unbounded),
        in_range(k, viewed(Bound::Included(a)), viewed(Bound::Included(b))) <==> order::lex_le(
            a@,
            k,
        ) && order::lex_le(k, b@),
        in_range(k, viewed(Bound::Included(a)), viewed(Bound::Excluded(b))) <==> order::lex_le(
            a@,
            k,
        ) && order::lex_lt(k, b@),
        in_range(k, viewed(Bound::Excluded(a)), viewed(Bound::Included(b))) <==> order::lex_lt(
            a@,
            k,
        ) && order::lex_le(k, b@),
        in_range(k, viewed(Bound::Excluded(a)), viewed(Bound::Excluded(b))) <==> order::lex_lt(
            a@,
            k,
        ) && order::lex_lt(k, b@),
        in_range(k, Bound::Excluded(a@), Bound::Unbounded) <==> order::lex_lt(a@, k),
        in_range(k, Bound::Unbounded, Bound::Excluded(b@)) <==> order::lex_lt(k, b@),
        in_range(k, viewed(Bound::Included(a)), viewed(Bound::Unbounded)) <==> order::lex_le(
            a@,
            k,
        ),
        in_range(k, viewed(Bound::Unbounded), viewed(Bound::Included(b))) <==> order::lex_le(
            k,
            b@,
        ),
{
}

/// A key cuts the keys of a range in two: those before it, and those from it on.
pub proof fn lemma_range_cut<Q: AsBytes + ?Sized>(
    q: &Q,
    k: Seq<u8>,
    start: Bound<&Q>,
    end: Bound<&Q>,
)
    requires
        in_range(k, bytes_of(start), bytes_of(end)),
    ensures
        in_range(k, bytes_of(start), bytes_of(Bound::Excluded(q))) <==> !in_range(
            k,
            bytes_of(Bound::Included(q)),
            bytes_of(end),
        ),
        in_range(k, bytes_of(start), bytes_of(Bound::Included(q))) <==> !in_range(
            k,
            bytes_of(Bound::Excluded(q)),
            bytes_of(end),
        ),
{
    order::lemma_lex_trichotomy(q.key_bytes(), k);
    order::lemma_lex_trichotomy(k, q.key_bytes());
}

/// What comes after a key in a range is not before the lower end either.
pub proof fn lemma_from_start_up(a: Seq<u8>, b: Seq<u8>, start: Bound<Seq<u8>>)
    requires
        order::lex_le(a, b),
        from_start(a, start),
    ensures
        from_start(b, start),
{
    match start {
        Bound::Included(s) => {
            order::lemma_lex_le_transitive(s, a, b);
        },
        Bound::Excluded(s) => {
            order::lemma_lex_le_transitive(s, a, b);
        },
        Bound::Unbounded => {},
    }
}

/// What comes before a key in a range is not behind the upper end either.
pub proof fn lemma_to_end_down(a: Seq<u8>, b: Seq<u8>, end: Bound<Seq<u8>>)
    requires
        order::lex_le(a, b),
        to_end(b, end),
    ensures
        to_end(a, end),
{
    match end {
        Bound::Included(e) => {
            order::lemma_lex_le_transitive(a, b, e);
        },
        Bound::Excluded(e) => {
            order::lemma_lex_le_transitive(a, b, e);
        },
        Bound::Unbounded => {},
    }
}

/// The bytes in a vector of their own.
pub fn copied(bytes: &[u8]) -> (copy: Vec<u8>)
    ensures
        copy@ == bytes@,
{
    let mut copy: Vec<u8> = Vec::new();
    let mut i: usize = 0;
    let len: usize = bytes.len();
    while i < len
        invariant
            i <= len == bytes@.len(),
            copy@ == bytes@.take(i as int),
        decreases len - i,
    {
        copy.push(bytes[i]);
        i = i + 1;
        assert(copy@ =~= bytes@.take(i as int));
    }
    assert(copy@ =~= bytes@);
    copy
}

/// The bound with the bytes of its key in a vector of their own.
pub fn owned_bound<Q: AsBytes + ?Sized>(bound: Bound<&Q>) -> (owned: Bound<Vec<u8>>)
    ensures
        viewed(owned) == bytes_of(bound),
        match bound {
            Bound::Included(key) => owned matches Bound::Included(bytes) && bytes@
                == key.key_bytes(),
            Bound::Excluded(key) => owned matches Bound::Excluded(bytes) && bytes@
                == key.key_bytes(),
            Bound::Unbounded => owned is Unbounded,
        },
{
    match bound {
        Bound::Included(key) => Bound::Included(copied(key.as_bytes())),
        Bound::Excluded(key) => Bound::Excluded(copied(key.as_bytes())),
        Bound::Unbounded => Bound::Unbounded,
    }
}

/// Checks whether `key` is not before the lower end of a range.
pub fn is_from_start(key: &[u8], start: &Bound<Vec<u8>>) -> (r: bool)
    ensures
        r == from_start(key@, viewed(*start)),
        r == (match *start {
            Bound::Included(s) => order::lex_le(s@, key@),
            Bound::Excluded(s) => order::lex_lt(s@, key@),
            Bound::Unbounded => true,
        }),
{
    match start {
        Bound::Included(s) => match compare(s.as_slice(), key) {
            Compare::Greater => false,
            _ => true,
        },
        Bound::Excluded(s) => match compare(s.as_slice(), key) {
            Compare::Less => true,
            _ => false,
        },
        Bound::Unbounded => true,
    }
}

/// Checks whether `key` is not behind the upper end of a range.
pub fn is_to_end(key: &[u8], end: &Bound<Vec<u8>>) -> (r: bool)
    ensures
        r == to_end(key@, viewed(*end)),
        r == (match *end {
            Bound::Included(e) => order::lex_le(key@, e@),
            Bound::Excluded(e) => order::lex_lt(key@, e@),
            Bound::Unbounded => true,
        }),
{
    match end {
        Bound::Included(e) => match compare(key, e.as_slice()) {
            Compare::Greater => false,
            _ => true,
        },
        Bound::Excluded(e) => match compare(key, e.as_slice()) {
            Compare::Less => true,
            _ => false,
        },
        Bound::Unbounded => true,
    }
}

} // verus!
