//! # Vector search for Node16
//!
//! Child key matching for the sixteen keys of a [`Node16`](crate::node::Node16).

use vstd::prelude::*;

verus! {

/// `needle` stands at `i`, and at no place before it, among the first `n` keys.
pub open spec fn first_match(keys: Seq<u8>, n: int, needle: u8, i: int) -> bool {
    &&& 0 <= i < n
    &&& keys[i] == needle
    &&& forall|j: int| 0 <= j < i ==> #[trigger] keys[j] != needle
}

/// `needle` is not among the first `n` keys.
pub open spec fn no_match(keys: Seq<u8>, n: int, needle: u8) -> bool {
    forall|j: int| 0 <= j < n ==> #[trigger] keys[j] != needle
}

/// Finds the child index for `needle` within `keys[..num_children]`.
pub fn find_child_node16(keys: &[u8; 16], num_children: usize, needle: u8) -> (r: Option<usize>)
    requires
        num_children <= 16,
    ensures
        match r {
            Some(i) => first_match(keys@, num_children as int, needle, i as int),
            None => no_match(keys@, num_children as int, needle),
        },
        match r {
            Some(i) => {
                &&& i < num_children
                &&& keys@[i as int] == needle
                &&& forall|j: int| 0 <= j < i ==> #[trigger] keys@[j] != needle
            },
            None => forall|j: int| 0 <= j < num_children ==> #[trigger] keys@[j] != needle,
        },
{
    find_child_scalar(keys, num_children, needle)
}

/// Linear search across valid key entries.
pub fn find_child_scalar(keys: &[u8; 16], num_children: usize, needle: u8) -> (r: Option<usize>)
    requires
        num_children <= 16,
    ensures
        match r {
            Some(i) => first_match(keys@, num_children as int, needle, i as int),
            None => no_match(keys@, num_children as int, needle),
        },
        match r {
            Some(i) => {
                &&& i < num_children
                &&& keys@[i as int] == needle
                &&& forall|j: int| 0 <= j < i ==> #[trigger] keys@[j] != needle
            },
            None => forall|j: int| 0 <= j < num_children ==> #[trigger] keys@[j] != needle,
        },
{
    let mut i: usize = 0;
    while i < num_children
        invariant
            i <= num_children <= 16,
            no_match(keys@, i as int, needle),
        decreases num_children - i,
    {
        if keys[i] == needle {
            return Some(i);
        }
        i = i + 1;
    }
    None
}

} // verus!
