//! # Sorted child arrays
//!
//! The small layouts keep their keys in ascending order next to the children. This module
//! says what map such a pair of arrays stands for, and edits it.

use crate::node::Link;
use vstd::prelude::*;

verus! {

/// The first `n` of `keys` are strictly ascending, and each stands next to a link.
pub open spec fn ascending<P: Link>(keys: Seq<u8>, children: Seq<P>, n: int) -> bool {
    &&& 0 <= n <= keys.len()
    &&& keys.len() == children.len()
    &&& forall|i: int, j: int| 0 <= i < j < n ==> #[trigger] keys[i] < #[trigger] keys[j]
}

/// The first `n` of `keys` are strictly ascending, and each has a child.
pub open spec fn sorted_wf<P: Link>(keys: Seq<u8>, children: Seq<P>, n: int) -> bool {
    &&& ascending(keys, children, n)
    &&& forall|i: int| 0 <= i < n ==> !(#[trigger] children[i]).absent()
}

/// Position `i` among the first `n` keys holds `byte`.
pub open spec fn key_at(keys: Seq<u8>, n: int, byte: u8, i: int) -> bool {
    0 <= i < n && keys[i] == byte
}

/// The map that sorted keys with their children stand for.
pub open spec fn sorted_kids<P: Link>(keys: Seq<u8>, children: Seq<P>, n: int) -> Map<u8, P> {
    Map::new(
        |byte: u8| exists|i: int| key_at(keys, n, byte, i),
        |byte: u8| children[choose|i: int| key_at(keys, n, byte, i)],
    )
}

/// Reading the map at a key that stands at `i`.
pub proof fn lemma_sorted_at<P: Link>(keys: Seq<u8>, children: Seq<P>, n: int, i: int)
    requires
        ascending(keys, children, n),
        0 <= i < n,
    ensures
        sorted_kids(keys, children, n).contains_key(keys[i]),
        sorted_kids(keys, children, n)[keys[i]] == children[i],
{
    let byte = keys[i];
    assert(key_at(keys, n, byte, i));
    let j = choose|j: int| key_at(keys, n, byte, j);
    assert(key_at(keys, n, byte, j));
    if j < i {
        assert(keys[j] < keys[i]);
    } else if i < j {
        assert(keys[i] < keys[j]);
    }
}

/// A set of bytes has at most 256 members.
pub proof fn lemma_bytes_bounded(s: Set<u8>)
    ensures
        s.finite(),
        s.len() <= 256,
{
    let range = vstd::set_lib::set_int_range(0, 256);
    vstd::set_lib::lemma_int_range(0, 256);
    let image = range.map(|i: int| i as u8);
    range.lemma_map_finite(|i: int| i as u8);
    vstd::set_lib::lemma_map_size_bound(range, image, |i: int| i as u8);
    assert forall|b: u8| s.contains(b) implies image.contains(b) by {
        assert(range.contains(b as int) && (b as int) as u8 == b);
    }
    vstd::set_lib::lemma_set_subset_finite(image, s);
    vstd::set_lib::lemma_len_subset(s, image);
}

/// Checks that the first `n` keys are strictly ascending and each has a child.
pub fn sorted_check<P: Link, const N: usize>(keys: &[u8; N], children: &[P; N], n: usize) -> (r:
    bool)
    ensures
        r == sorted_wf(keys@, children@, n as int),
{
    if n > N {
        return false;
    }
    let mut i: usize = 0;
    while i < n
        invariant
            i <= n <= N,
            sorted_wf(keys@, children@, i as int),
        decreases n - i,
    {
        if children[i].is_nil() {
            return false;
        }
        if i > 0 && keys[i - 1] >= keys[i] {
            return false;
        }
        assert forall|a: int, b: int| 0 <= a < b < i + 1 implies #[trigger] keys@[a]
            < #[trigger] keys@[b] by {
            if b == i && a < i - 1 {
                assert(keys@[a] < keys@[i - 1]);
            }
        }
        i = i + 1;
    }
    true
}

/// As many children as counted keys.
pub proof fn lemma_sorted_len<P: Link>(keys: Seq<u8>, children: Seq<P>, n: int)
    requires
        ascending(keys, children, n),
    ensures
        sorted_kids(keys, children, n).dom().finite(),
        sorted_kids(keys, children, n).dom().len() == n,
    decreases n,
{
    let kids = sorted_kids(keys, children, n);
    lemma_bytes_bounded(kids.dom());
    if n == 0 {
        assert(kids.dom() =~= Set::empty());
    } else {
        let m: int = n - 1;
        let rest = sorted_kids(keys, children, m);
        lemma_sorted_len(keys, children, m);
        let last = keys[n - 1];
        assert forall|b: u8| #[trigger] kids.dom().contains(b) == rest.dom().insert(last).contains(
            b,
        ) by {
            if kids.dom().contains(b) {
                let i = choose|i: int| key_at(keys, n, b, i);
                if i < n - 1 {
                    assert(key_at(keys, m, b, i));
                }
            }
            if rest.dom().contains(b) {
                let i = choose|i: int| key_at(keys, m, b, i);
                assert(key_at(keys, n, b, i));
            }
            if b == last {
                assert(key_at(keys, n, b, n - 1));
            }
        }
        assert(kids.dom() =~= rest.dom().insert(last));
        if rest.dom().contains(last) {
            let i = choose|i: int| key_at(keys, m, last, i);
            assert(keys[i] < keys[n - 1]);
        }
    }
}

/// The map fixes the keys and the children, and their order.
pub proof fn lemma_sorted_unique<P: Link>(
    keys: Seq<u8>,
    children: Seq<P>,
    keys2: Seq<u8>,
    children2: Seq<P>,
    n: int,
)
    requires
        ascending(keys, children, n),
        ascending(keys2, children2, n),
        sorted_kids(keys, children, n) == sorted_kids(keys2, children2, n),
    ensures
        keys.take(n) == keys2.take(n),
        children.take(n) == children2.take(n),
{
    assert forall|i: int|
        #![trigger keys[i]]
        #![trigger children[i]]
        0 <= i < n implies keys[i] == keys2[i] && children[i] == children2[i] by {
        lemma_sorted_rank(keys, children, keys2, children2, n, i);
        lemma_sorted_at(keys, children, n, i);
        lemma_sorted_at(keys2, children2, n, i);
    }
    assert(keys.take(n) =~= keys2.take(n));
    assert(children.take(n) =~= children2.take(n));
}

/// The keys at one position are the same.
proof fn lemma_sorted_rank<P: Link>(
    keys: Seq<u8>,
    children: Seq<P>,
    keys2: Seq<u8>,
    children2: Seq<P>,
    n: int,
    i: int,
)
    requires
        ascending(keys, children, n),
        ascending(keys2, children2, n),
        sorted_kids(keys, children, n) == sorted_kids(keys2, children2, n),
        0 <= i < n,
    ensures
        forall|j: int| 0 <= j <= i ==> #[trigger] keys[j] == keys2[j],
    decreases i,
{
    if i > 0 {
        lemma_sorted_rank(keys, children, keys2, children2, n, i - 1);
    }
    lemma_sorted_at(keys, children, n, i);
    lemma_sorted_at(keys2, children2, n, i);
    let there = choose|j: int| key_at(keys2, n, keys[i], j);
    let back = choose|j: int| key_at(keys, n, keys2[i], j);
    assert(key_at(keys2, n, keys[i], there));
    assert(key_at(keys, n, keys2[i], back));
    if there < i {
        assert(keys[there] == keys2[there]);
        assert(keys[there] < keys[i]);
    }
    if back < i {
        assert(keys[back] == keys2[back]);
        assert(keys2[back] < keys2[i]);
    }
    if i < there {
        assert(keys2[i] < keys2[there]);
    }
    if i < back {
        assert(keys[i] < keys[back]);
    }
}

/// Finds the position of `byte` among the first `n` keys.
pub fn sorted_find<P: Link, const N: usize>(
    keys: &[u8; N],
    children: &[P; N],
    n: usize,
    byte: u8,
) -> (r: Option<usize>)
    requires
        ascending(keys@, children@, n as int),
    ensures
        match r {
            Some(i) => {
                &&& i < n
                &&& keys@[i as int] == byte
                &&& sorted_kids(keys@, children@, n as int).get(byte) == Some(children@[i as int])
            },
            None => !sorted_kids(keys@, children@, n as int).contains_key(byte),
        },
{
    let mut i: usize = 0;
    while i < n
        invariant
            i <= n <= N,
            ascending(keys@, children@, n as int),
            forall|j: int| 0 <= j < i ==> #[trigger] keys@[j] != byte,
        decreases n - i,
    {
        if keys[i] == byte {
            proof {
                lemma_sorted_at(keys@, children@, n as int, i as int);
            }
            return Some(i);
        }
        i = i + 1;
    }
    None
}

/// `keys2` and `children2` are `keys` and `children` with one more entry at `pos`.
spec fn inserted<P: Link>(
    keys: Seq<u8>,
    children: Seq<P>,
    n: int,
    keys2: Seq<u8>,
    children2: Seq<P>,
    pos: int,
    byte: u8,
    child: P,
) -> bool {
    &&& keys2.len() == keys.len()
    &&& children2.len() == children.len()
    &&& 0 <= pos <= n < keys.len()
    &&& forall|j: int| 0 <= j < pos ==> #[trigger] keys2[j] == keys[j] && children2[j] == children[j]
    &&& keys2[pos] == byte
    &&& children2[pos] == child
    &&& forall|j: int|
        pos < j <= n ==> #[trigger] keys2[j] == keys[j - 1] && children2[j] == children[j - 1]
}

proof fn lemma_sorted_insert<P: Link>(
    keys: Seq<u8>,
    children: Seq<P>,
    n: int,
    keys2: Seq<u8>,
    children2: Seq<P>,
    pos: int,
    byte: u8,
    child: P,
)
    requires
        ascending(keys, children, n),
        inserted(keys, children, n, keys2, children2, pos, byte, child),
        forall|j: int| 0 <= j < pos ==> #[trigger] keys[j] < byte,
        forall|j: int| pos <= j < n ==> #[trigger] keys[j] > byte,
    ensures
        ascending(keys2, children2, n + 1),
        sorted_wf(keys, children, n) && !child.absent() ==> sorted_wf(keys2, children2, n + 1),
        sorted_kids(keys2, children2, n + 1) == sorted_kids(keys, children, n).insert(byte, child),
{
    let m: int = n + 1;
    assert forall|i: int, j: int| 0 <= i < j < n + 1 implies #[trigger] keys2[i]
        < #[trigger] keys2[j] by {
        let i1 = if i < pos {
            i
        } else {
            i - 1
        };
        let j1 = if j < pos {
            j
        } else {
            j - 1
        };
        if i != pos && j != pos {
            assert(keys[i1] < keys[j1]);
        }
        if i != pos {
            assert(keys2[i] == keys[i1]);
        }
        if j != pos {
            assert(keys2[j] == keys[j1]);
        }
    }
    assert forall|i: int|
        sorted_wf(keys, children, n) && !child.absent() && 0 <= i < n + 1 implies !(
    #[trigger] children2[i]).absent() by {
        let i1 = if i < pos {
            i
        } else {
            i - 1
        };
        if i != pos {
            assert(keys2[i] == keys[i1]);
            assert(!children[i1].absent());
        }
    }
    assert(ascending(keys2, children2, n + 1));
    let a = sorted_kids(keys, children, n);
    let b = sorted_kids(keys2, children2, n + 1);
    assert forall|c: u8|
        (#[trigger] b.contains_key(c) <==> a.insert(byte, child).contains_key(c)) && (
        b.contains_key(c) ==> b[c] == a.insert(byte, child)[c]) by {
        if b.contains_key(c) {
            let i = choose|i: int| key_at(keys2, m, c, i);
            lemma_sorted_at(keys2, children2, n + 1, i);
            if i != pos {
                let i1 = if i < pos {
                    i
                } else {
                    i - 1
                };
                assert(keys2[i] == keys[i1]);
                lemma_sorted_at(keys, children, n, i1);
            }
        }
        if a.contains_key(c) {
            let i = choose|i: int| key_at(keys, n, c, i);
            let i2 = if i < pos {
                i
            } else {
                i + 1
            };
            assert(keys2[i2] == keys[i]);
            lemma_sorted_at(keys2, children2, n + 1, i2);
        }
        if c == byte {
            lemma_sorted_at(keys2, children2, n + 1, pos);
        }
    }
    assert(b =~= a.insert(byte, child));
}

/// Inserts `byte` with `child` at its place in the order.
pub fn sorted_insert<P: Link, const N: usize>(
    keys: &mut [u8; N],
    children: &mut [P; N],
    n: usize,
    byte: u8,
    child: P,
)
    requires
        ascending(old(keys)@, old(children)@, n as int),
        n < N,
        !sorted_kids(old(keys)@, old(children)@, n as int).contains_key(byte),
    ensures
        ascending(final(keys)@, final(children)@, n + 1),
        sorted_wf(old(keys)@, old(children)@, n as int) && !child.absent() ==> sorted_wf(
            final(keys)@,
            final(children)@,
            n + 1,
        ),
        sorted_kids(final(keys)@, final(children)@, n + 1) == sorted_kids(
            old(keys)@,
            old(children)@,
            n as int,
        ).insert(byte, child),
{
    let ghost keys0 = keys@;
    let ghost children0 = children@;
    let mut pos: usize = 0;
    while pos < n && keys[pos] < byte
        invariant
            pos <= n < N,
            keys@.len() == N,
            keys@ == keys0,
            children@ == children0,
            forall|j: int| 0 <= j < pos ==> #[trigger] keys0[j] < byte,
        decreases n - pos,
    {
        pos = pos + 1;
    }
    proof {
        if pos < n {
            if keys0[pos as int] == byte {
                lemma_sorted_at(keys0, children0, n as int, pos as int);
            }
            assert forall|j: int| pos <= j < n implies #[trigger] keys0[j] > byte by {
                if j > pos {
                    assert(keys0[pos as int] < keys0[j]);
                }
            }
        }
    }
    let mut i: usize = n;
    while i > pos
        invariant
            pos <= i <= n < N,
            keys@.len() == N,
            children@.len() == N,
            keys0.len() == N,
            children0.len() == N,
            forall|j: int| 0 <= j < i ==> #[trigger] keys@[j] == keys0[j],
            forall|j: int| 0 <= j < i ==> #[trigger] children@[j] == children0[j],
            forall|j: int| i < j <= n ==> #[trigger] keys@[j] == keys0[j - 1],
            forall|j: int| i < j <= n ==> #[trigger] children@[j] == children0[j - 1],
        decreases i,
    {
        let moved_key: u8 = keys[i - 1];
        let moved_child: P = children[i - 1];
        keys[i] = moved_key;
        children[i] = moved_child;
        i = i - 1;
    }
    keys[pos] = byte;
    children[pos] = child;
    proof {
        lemma_sorted_insert(
            keys0,
            children0,
            n as int,
            keys@,
            children@,
            pos as int,
            byte,
            child,
        );
    }
}

/// `keys2` and `children2` are `keys` and `children` without the entry at `pos`.
spec fn removed<P: Link>(
    keys: Seq<u8>,
    children: Seq<P>,
    n: int,
    keys2: Seq<u8>,
    children2: Seq<P>,
    pos: int,
) -> bool {
    &&& keys2.len() == keys.len()
    &&& children2.len() == children.len()
    &&& 0 <= pos < n <= keys.len()
    &&& forall|j: int| 0 <= j < pos ==> #[trigger] keys2[j] == keys[j] && children2[j] == children[j]
    &&& forall|j: int|
        pos <= j < n - 1 ==> #[trigger] keys2[j] == keys[j + 1] && children2[j] == children[j + 1]
}

proof fn lemma_sorted_remove<P: Link>(
    keys: Seq<u8>,
    children: Seq<P>,
    n: int,
    keys2: Seq<u8>,
    children2: Seq<P>,
    pos: int,
)
    requires
        ascending(keys, children, n),
        removed(keys, children, n, keys2, children2, pos),
    ensures
        ascending(keys2, children2, n - 1),
        sorted_wf(keys, children, n) ==> sorted_wf(keys2, children2, n - 1),
        sorted_kids(keys2, children2, n - 1) == sorted_kids(keys, children, n).remove(keys[pos]),
{
    let m: int = n - 1;
    let byte = keys[pos];
    assert forall|i: int, j: int| 0 <= i < j < n - 1 implies #[trigger] keys2[i]
        < #[trigger] keys2[j] by {
        let i1 = if i < pos {
            i
        } else {
            i + 1
        };
        let j1 = if j < pos {
            j
        } else {
            j + 1
        };
        assert(keys2[i] == keys[i1]);
        assert(keys2[j] == keys[j1]);
        assert(keys[i1] < keys[j1]);
    }
    assert forall|i: int| sorted_wf(keys, children, n) && 0 <= i < n - 1 implies !(
    #[trigger] children2[i]).absent() by {
        let i1 = if i < pos {
            i
        } else {
            i + 1
        };
        assert(keys2[i] == keys[i1]);
        assert(!children[i1].absent());
    }
    assert(ascending(keys2, children2, n - 1));
    let a = sorted_kids(keys, children, n);
    let b = sorted_kids(keys2, children2, n - 1);
    assert forall|c: u8|
        (#[trigger] b.contains_key(c) <==> a.remove(byte).contains_key(c)) && (b.contains_key(c)
            ==> b[c] == a.remove(byte)[c]) by {
        if b.contains_key(c) {
            let i = choose|i: int| key_at(keys2, m, c, i);
            lemma_sorted_at(keys2, children2, n - 1, i);
            let i1 = if i < pos {
                i
            } else {
                i + 1
            };
            assert(keys2[i] == keys[i1]);
            lemma_sorted_at(keys, children, n, i1);
            if i1 < pos {
                assert(keys[i1] < keys[pos]);
            } else {
                assert(keys[pos] < keys[i1]);
            }
        }
        if a.remove(byte).contains_key(c) {
            let i = choose|i: int| key_at(keys, n, c, i);
            let i2 = if i < pos {
                i
            } else {
                i - 1
            };
            assert(keys2[i2] == keys[i]);
            lemma_sorted_at(keys2, children2, n - 1, i2);
        }
    }
    assert(b =~= a.remove(byte));
}

/// Takes the entry at `pos` out.
pub fn sorted_remove<P: Link, const N: usize>(
    keys: &mut [u8; N],
    children: &mut [P; N],
    n: usize,
    pos: usize,
)
    requires
        ascending(old(keys)@, old(children)@, n as int),
        pos < n <= N,
    ensures
        ascending(final(keys)@, final(children)@, n - 1),
        sorted_wf(old(keys)@, old(children)@, n as int) ==> sorted_wf(
            final(keys)@,
            final(children)@,
            n - 1,
        ),
        sorted_kids(final(keys)@, final(children)@, n - 1) == sorted_kids(
            old(keys)@,
            old(children)@,
            n as int,
        ).remove(old(keys)@[pos as int]),
{
    let ghost keys0 = keys@;
    let ghost children0 = children@;
    let mut i: usize = pos;
    while i + 1 < n
        invariant
            pos <= i < n <= N,
            keys@.len() == N,
            children@.len() == N,
            keys0.len() == N,
            children0.len() == N,
            forall|j: int| 0 <= j < pos ==> #[trigger] keys@[j] == keys0[j],
            forall|j: int| 0 <= j < pos ==> #[trigger] children@[j] == children0[j],
            forall|j: int| pos <= j < i ==> #[trigger] keys@[j] == keys0[j + 1],
            forall|j: int| pos <= j < i ==> #[trigger] children@[j] == children0[j + 1],
            forall|j: int| i <= j < N ==> #[trigger] keys@[j] == keys0[j],
            forall|j: int| i <= j < N ==> #[trigger] children@[j] == children0[j],
        decreases n - i,
    {
        let moved_key: u8 = keys[i + 1];
        let moved_child: P = children[i + 1];
        keys[i] = moved_key;
        children[i] = moved_child;
        i = i + 1;
    }
    children[n - 1] = P::nil();
    proof {
        lemma_sorted_remove(keys0, children0, n as int, keys@, children@, pos as int);
    }
}

pub proof fn lemma_sorted_replace<P: Link>(
    keys: Seq<u8>,
    children: Seq<P>,
    n: int,
    children2: Seq<P>,
    pos: int,
    child: P,
)
    requires
        ascending(keys, children, n),
        0 <= pos < n,
        children2 == children.update(pos, child),
    ensures
        ascending(keys, children2, n),
        sorted_wf(keys, children, n) && !child.absent() ==> sorted_wf(keys, children2, n),
        sorted_kids(keys, children2, n) == sorted_kids(keys, children, n).insert(keys[pos], child),
{
    let a = sorted_kids(keys, children, n);
    let b = sorted_kids(keys, children2, n);
    assert(ascending(keys, children2, n));
    assert forall|c: u8|
        (#[trigger] b.contains_key(c) <==> a.insert(keys[pos], child).contains_key(c)) && (
        b.contains_key(c) ==> b[c] == a.insert(keys[pos], child)[c]) by {
        lemma_sorted_at(keys, children, n, pos);
        lemma_sorted_at(keys, children2, n, pos);
        if b.contains_key(c) {
            let i = choose|i: int| key_at(keys, n, c, i);
            lemma_sorted_at(keys, children, n, i);
            lemma_sorted_at(keys, children2, n, i);
        }
    }
    assert(b =~= a.insert(keys[pos], child));
}

/// The position of the smallest key that is at least `min`.
pub fn sorted_next<P: Link, const N: usize>(
    keys: &[u8; N],
    children: &[P; N],
    n: usize,
    min: usize,
) -> (r: Option<usize>)
    requires
        ascending(keys@, children@, n as int),
    ensures
        match r {
            Some(i) => {
                let kids = sorted_kids(keys@, children@, n as int);
                &&& i < n
                &&& is_next_child(kids, min as int, keys@[i as int])
                &&& kids[keys@[i as int]] == children@[i as int]
            },
            None => no_next_child(sorted_kids(keys@, children@, n as int), min as int),
        },
{
    let ghost kids = sorted_kids(keys@, children@, n as int);
    let mut i: usize = 0;
    while i < n
        invariant
            i <= n <= N,
            ascending(keys@, children@, n as int),
            kids == sorted_kids(keys@, children@, n as int),
            forall|j: int| 0 <= j < i ==> (#[trigger] keys@[j] as usize) < min,
        decreases n - i,
    {
        if keys[i] as usize >= min {
            proof {
                lemma_sorted_at(keys@, children@, n as int, i as int);
                assert forall|b: u8| min <= b && #[trigger] kids.contains_key(b) implies keys@[i as int]
                    <= b by {
                    let j = choose|j: int| key_at(keys@, n as int, b, j);
                    if i < j {
                        assert(keys@[i as int] < keys@[j]);
                    }
                }
            }
            return Some(i);
        }
        i = i + 1;
    }
    None
}

/// The position of the largest key that is below `end`.
pub fn sorted_prev<P: Link, const N: usize>(
    keys: &[u8; N],
    children: &[P; N],
    n: usize,
    end: usize,
) -> (r: Option<usize>)
    requires
        ascending(keys@, children@, n as int),
    ensures
        match r {
            Some(i) => {
                let kids = sorted_kids(keys@, children@, n as int);
                &&& i < n
                &&& is_prev_child(kids, end as int, keys@[i as int])
                &&& kids[keys@[i as int]] == children@[i as int]
            },
            None => no_prev_child(sorted_kids(keys@, children@, n as int), end as int),
        },
{
    let ghost kids = sorted_kids(keys@, children@, n as int);
    let mut i: usize = n;
    while i > 0
        invariant
            i <= n <= N,
            ascending(keys@, children@, n as int),
            kids == sorted_kids(keys@, children@, n as int),
            forall|j: int| i <= j < n ==> (#[trigger] keys@[j] as usize) >= end,
        decreases i,
    {
        i = i - 1;
        if (keys[i] as usize) < end {
            proof {
                lemma_sorted_at(keys@, children@, n as int, i as int);
                assert forall|b: u8| b < end && #[trigger] kids.contains_key(b) implies b
                    <= keys@[i as int] by {
                    let j = choose|j: int| key_at(keys@, n as int, b, j);
                    if j < i {
                        assert(keys@[j] < keys@[i as int]);
                    }
                }
            }
            return Some(i);
        }
    }
    None
}

/// `byte` is the first byte from `min` on that has a child.
pub open spec fn is_next_child<P>(kids: Map<u8, P>, min: int, byte: u8) -> bool {
    &&& min <= byte
    &&& kids.contains_key(byte)
    &&& forall|b: u8| min <= b && #[trigger] kids.contains_key(b) ==> byte <= b
}

/// No byte from `min` on has a child.
pub open spec fn no_next_child<P>(kids: Map<u8, P>, min: int) -> bool {
    forall|b: u8| min <= b ==> !#[trigger] kids.contains_key(b)
}

/// `byte` is the last byte before `end` that has a child.
pub open spec fn is_prev_child<P>(kids: Map<u8, P>, end: int, byte: u8) -> bool {
    &&& byte < end
    &&& kids.contains_key(byte)
    &&& forall|b: u8| b < end && #[trigger] kids.contains_key(b) ==> b <= byte
}

/// No byte before `end` has a child.
pub open spec fn no_prev_child<P>(kids: Map<u8, P>, end: int) -> bool {
    forall|b: u8| b < end ==> !#[trigger] kids.contains_key(b)
}

/// The next child is the first from a byte on, and the previous child the last before one.
pub proof fn lemma_neighbours<P>(kids: Map<u8, P>, at: int, byte: u8)
    ensures
        is_next_child(kids, at, byte) <==> kids.dom().contains(byte) && at <= byte && forall|b: u8|
            at <= b < byte ==> !#[trigger] kids.dom().contains(b),
        is_prev_child(kids, at, byte) <==> kids.dom().contains(byte) && byte < at && forall|b: u8|
            byte < b < at ==> !#[trigger] kids.dom().contains(b),
        no_next_child(kids, at) <==> forall|b: u8| at <= b ==> !#[trigger] kids.dom().contains(b),
        no_prev_child(kids, at) <==> forall|b: u8| b < at ==> !#[trigger] kids.dom().contains(b),
{
    assert forall|b: u8| #[trigger] kids.contains_key(b) == kids.dom().contains(b) by {}
    if kids.dom().contains(byte) && at <= byte && (forall|b: u8|
        at <= b < byte ==> !#[trigger] kids.dom().contains(b)) {
        assert forall|b: u8| at <= b && #[trigger] kids.contains_key(b) implies byte <= b by {
            if b < byte {
                assert(!kids.dom().contains(b));
            }
        }
    }
    if is_next_child(kids, at, byte) {
        assert forall|b: u8| at <= b < byte implies !#[trigger] kids.dom().contains(b) by {
            if kids.contains_key(b) {
                assert(byte <= b);
            }
        }
    }
    if kids.dom().contains(byte) && byte < at && (forall|b: u8|
        byte < b < at ==> !#[trigger] kids.dom().contains(b)) {
        assert forall|b: u8| b < at && #[trigger] kids.contains_key(b) implies b <= byte by {
            if byte < b {
                assert(!kids.dom().contains(b));
            }
        }
    }
    if is_prev_child(kids, at, byte) {
        assert forall|b: u8| byte < b < at implies !#[trigger] kids.dom().contains(b) by {
            if kids.contains_key(b) {
                assert(b <= byte);
            }
        }
    }
    if no_next_child(kids, at) {
        assert forall|b: u8| at <= b implies !#[trigger] kids.dom().contains(b) by {
            assert(!kids.contains_key(b));
        }
    }
    if forall|b: u8| at <= b ==> !#[trigger] kids.dom().contains(b) {
        assert forall|b: u8| at <= b implies !#[trigger] kids.contains_key(b) by {
            assert(!kids.dom().contains(b));
        }
    }
    if no_prev_child(kids, at) {
        assert forall|b: u8| b < at implies !#[trigger] kids.dom().contains(b) by {
            assert(!kids.contains_key(b));
        }
    }
    if forall|b: u8| b < at ==> !#[trigger] kids.dom().contains(b) {
        assert forall|b: u8| b < at implies !#[trigger] kids.contains_key(b) by {
            assert(!kids.dom().contains(b));
        }
    }
}

} // verus!
