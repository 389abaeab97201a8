//! # Range iterators
//!
//! Provides bidirectional range scanning for [`ArtMap`](crate::ArtMap).

use crossbeam_epoch::{pin, Guard};

use crate::bound;
use crate::bound::Bound;
use crate::cursor::Cursor;
use crate::entry::EntryRef;
use crate::key::AsBytes;
use crate::node::{Leaf, TaggedPtr};
use crate::order;
use crate::tree::Tree;
use vstd::prelude::*;

verus! {

/// An iterator over a range of entries in an [`ArtMap`](crate::ArtMap).
pub struct Range<'a, K: AsBytes + Send + 'static, V: Send + 'static> {
    tree: &'a Tree<K, V>,
    _guard: Guard,
    cursor: Cursor<'a, TaggedPtr, Leaf<K, V>>,
}

/// `key` is the least of `keys`.
pub open spec fn is_least(keys: Set<Seq<u8>>, key: Seq<u8>) -> bool {
    &&& keys.contains(key)
    &&& forall|k: Seq<u8>| #[trigger] keys.contains(k) ==> order::lex_le(key, k)
}

/// `key` is the greatest of `keys`.
pub open spec fn is_greatest(keys: Set<Seq<u8>>, key: Seq<u8>) -> bool {
    &&& keys.contains(key)
    &&& forall|k: Seq<u8>| #[trigger] keys.contains(k) ==> order::lex_le(k, key)
}

/// The least key is a key, and comes before every other one.
pub proof fn lemma_is_least(keys: Set<Seq<u8>>, key: Seq<u8>)
    ensures
        is_least(keys, key) <==> keys.contains(key) && forall|k: Seq<u8>| #[trigger]
            keys.contains(k) && k != key ==> order::lex_lt(key, k),
{
}

/// The greatest key is a key, and comes after every other one.
pub proof fn lemma_is_greatest(keys: Set<Seq<u8>>, key: Seq<u8>)
    ensures
        is_greatest(keys, key) <==> keys.contains(key) && forall|k: Seq<u8>| #[trigger]
            keys.contains(k) && k != key ==> order::lex_lt(k, key),
{
}

impl<'a, K: AsBytes + Send + 'static, V: Send + 'static> Range<'a, K, V> {
    /// The cursor walks over the tree.
    pub closed spec fn wf(&self) -> bool {
        &&& self.tree.wf()
        &&& self.cursor.wf()
        &&& self.cursor.source() == self.tree.trie
    }

    /// The entries of the map.
    pub closed spec fn entries(&self) -> Map<Seq<u8>, (K, V)> {
        self.tree@
    }

    /// The lower end of what is left.
    pub closed spec fn lo(&self) -> Bound<Seq<u8>> {
        self.cursor.lo()
    }

    /// The upper end of what is left.
    pub closed spec fn hi(&self) -> Bound<Seq<u8>> {
        self.cursor.hi()
    }

    /// The keys that are left to visit.
    pub open spec fn remaining(&self) -> Set<Seq<u8>> {
        Set::new(
            |k: Seq<u8>|
                self.entries().contains_key(k) && bound::in_range(k, self.lo(), self.hi()),
        )
    }

    /// The keys that are left are those that the cursor has left.
    proof fn lemma_remaining(&self)
        requires
            self.wf(),
        ensures
            self.remaining() == self.cursor.remaining(),
            self.remaining().finite(),
    {
        self.tree.lemma_entries();
        self.cursor.lemma_remaining_finite();
        assert forall|k: Seq<u8>| #[trigger] self.remaining().contains(k)
            == self.cursor.remaining().contains(k) by {
            assert(self.entries().dom().contains(k) == self.tree.trie.keys().dom().contains(k));
        }
        assert(self.remaining() =~= self.cursor.remaining());
    }

    /// An iterator over the entries between two bounds.
    pub(crate) fn new(
        tree: &'a Tree<K, V>,
        start_bound: Bound<Vec<u8>>,
        end_bound: Bound<Vec<u8>>,
    ) -> (range: Self)
        requires
            tree.wf(),
        ensures
            range.wf(),
            range.entries() == tree@,
            range.lo() == bound::viewed(start_bound),
            range.hi() == bound::viewed(end_bound),
    {
        Range {
            tree,
            _guard: pin(),
            cursor: Cursor::new(&tree.trie, start_bound, end_bound),
        }
    }

    /// The next entry in ascending key order.
    pub fn next(&mut self) -> (r: Option<EntryRef<'a, K, V>>)
        requires
            old(self).wf(),
        ensures
            final(self).wf(),
            final(self).entries() == old(self).entries(),
            final(self).hi() == old(self).hi(),
            r matches Some(entry) ==> {
                let key = entry@.0.key_bytes();
                &&& entry.wf()
                &&& entry.entries() == old(self).entries()
                &&& is_least(old(self).remaining(), key)
                &&& entry@ == old(self).entries()[key]
                &&& final(self).lo() == Bound::<Seq<u8>>::Excluded(key)
                &&& final(self).remaining() == old(self).remaining().remove(key)
            },
            r is None ==> {
                &&& old(self).remaining() == Set::<Seq<u8>>::empty()
                &&& final(self).lo() == old(self).lo()
            },
    {
        proof {
            self.lemma_remaining();
        }
        let found = self.cursor.next_leaf();
        proof {
            self.lemma_remaining();
        }
        match found {
            Some(ptr) => Some(EntryRef::new(self.tree, ptr)),
            None => None,
        }
    }

    /// The next entry in descending key order.
    pub fn next_back(&mut self) -> (r: Option<EntryRef<'a, K, V>>)
        requires
            old(self).wf(),
        ensures
            final(self).wf(),
            final(self).entries() == old(self).entries(),
            final(self).lo() == old(self).lo(),
            r matches Some(entry) ==> {
                let key = entry@.0.key_bytes();
                &&& entry.wf()
                &&& entry.entries() == old(self).entries()
                &&& is_greatest(old(self).remaining(), key)
                &&& entry@ == old(self).entries()[key]
                &&& final(self).hi() == Bound::<Seq<u8>>::Excluded(key)
                &&& final(self).remaining() == old(self).remaining().remove(key)
            },
            r is None ==> {
                &&& old(self).remaining() == Set::<Seq<u8>>::empty()
                &&& final(self).hi() == old(self).hi()
            },
    {
        proof {
            self.lemma_remaining();
        }
        let found = self.cursor.prev_leaf();
        proof {
            self.lemma_remaining();
        }
        match found {
            Some(ptr) => Some(EntryRef::new(self.tree, ptr)),
            None => None,
        }
    }
}

/// An iterator over all entries in an [`ArtMap`](crate::ArtMap).
pub struct Iter<'a, K: AsBytes + Send + 'static, V: Send + 'static> {
    inner: Range<'a, K, V>,
}

impl<'a, K: AsBytes + Send + 'static, V: Send + 'static> Iter<'a, K, V> {
    /// The range is in order.
    pub closed spec fn wf(&self) -> bool {
        self.inner.wf()
    }

    /// The entries of the map.
    pub closed spec fn entries(&self) -> Map<Seq<u8>, (K, V)> {
        self.inner.entries()
    }

    /// The keys that are left to visit.
    pub closed spec fn remaining(&self) -> Set<Seq<u8>> {
        self.inner.remaining()
    }

    /// An iterator over all entries.
    pub(crate) fn new(tree: &'a Tree<K, V>) -> (iter: Self)
        requires
            tree.wf(),
        ensures
            iter.wf(),
            iter.entries() == tree@,
            iter.remaining() == tree@.dom(),
    {
        let iter = Iter { inner: Range::new(tree, Bound::Unbounded, Bound::Unbounded) };
        assert(iter.remaining() =~= tree@.dom());
        iter
    }

    /// The next entry in ascending key order.
    pub fn next(&mut self) -> (r: Option<EntryRef<'a, K, V>>)
        requires
            old(self).wf(),
        ensures
            final(self).wf(),
            final(self).entries() == old(self).entries(),
            r matches Some(entry) ==> {
                let key = entry@.0.key_bytes();
                &&& entry.wf()
                &&& entry.entries() == old(self).entries()
                &&& is_least(old(self).remaining(), key)
                &&& entry@ == old(self).entries()[key]
                &&& final(self).remaining() == old(self).remaining().remove(key)
            },
            r is None ==> {
                &&& old(self).remaining() == Set::<Seq<u8>>::empty()
                &&& final(self).remaining() == old(self).remaining()
            },
    {
        let r = self.inner.next();
        assert(r is None ==> self.remaining() =~= old(self).remaining());
        r
    }

    /// The next entry in descending key order.
    pub fn next_back(&mut self) -> (r: Option<EntryRef<'a, K, V>>)
        requires
            old(self).wf(),
        ensures
            final(self).wf(),
            final(self).entries() == old(self).entries(),
            r matches Some(entry) ==> {
                let key = entry@.0.key_bytes();
                &&& entry.wf()
                &&& entry.entries() == old(self).entries()
                &&& is_greatest(old(self).remaining(), key)
                &&& entry@ == old(self).entries()[key]
                &&& final(self).remaining() == old(self).remaining().remove(key)
            },
            r is None ==> {
                &&& old(self).remaining() == Set::<Seq<u8>>::empty()
                &&& final(self).remaining() == old(self).remaining()
            },
    {
        let r = self.inner.next_back();
        assert(r is None ==> self.remaining() =~= old(self).remaining());
        r
    }
}

/// An iterator over keys in an [`ArtMap`](crate::ArtMap).
pub struct Keys<'a, K: AsBytes + Send + 'static, V: Send + 'static> {
    inner: Iter<'a, K, V>,
}

impl<'a, K: AsBytes + Send + 'static, V: Send + 'static> Keys<'a, K, V> {
    /// The iterator over the entries is in order.
    pub closed spec fn wf(&self) -> bool {
        self.inner.wf()
    }

    /// The entries of the map.
    pub closed spec fn entries(&self) -> Map<Seq<u8>, (K, V)> {
        self.inner.entries()
    }

    /// The keys that are left to visit.
    pub closed spec fn remaining(&self) -> Set<Seq<u8>> {
        self.inner.remaining()
    }

    /// An iterator over the keys of the entries that `inner` visits.
    pub(crate) fn new(inner: Iter<'a, K, V>) -> (keys: Self)
        requires
            inner.wf(),
        ensures
            keys.wf(),
            keys.entries() == inner.entries(),
            keys.remaining() == inner.remaining(),
    {
        Keys { inner }
    }

    /// The next key in ascending order.
    pub fn next(&mut self) -> (r: Option<&'a K>)
        requires
            old(self).wf(),
        ensures
            final(self).wf(),
            final(self).entries() == old(self).entries(),
            r matches Some(key) ==> {
                &&& is_least(old(self).remaining(), key.key_bytes())
                &&& *key == old(self).entries()[key.key_bytes()].0
                &&& final(self).remaining() == old(self).remaining().remove(key.key_bytes())
            },
            r is None ==> {
                &&& old(self).remaining() == Set::<Seq<u8>>::empty()
                &&& final(self).remaining() == old(self).remaining()
            },
    {
        match self.inner.next() {
            Some(entry) => Some(entry.key()),
            None => None,
        }
    }
}

/// An iterator over values in an [`ArtMap`](crate::ArtMap).
pub struct Values<'a, K: AsBytes + Send + 'static, V: Send + 'static> {
    inner: Iter<'a, K, V>,
}

impl<'a, K: AsBytes + Send + 'static, V: Send + 'static> Values<'a, K, V> {
    /// The iterator over the entries is in order.
    pub closed spec fn wf(&self) -> bool {
        self.inner.wf()
    }

    /// The entries of the map.
    pub closed spec fn entries(&self) -> Map<Seq<u8>, (K, V)> {
        self.inner.entries()
    }

    /// The keys that are left to visit.
    pub closed spec fn remaining(&self) -> Set<Seq<u8>> {
        self.inner.remaining()
    }

    /// An iterator over the values of the entries that `inner` visits.
    pub(crate) fn new(inner: Iter<'a, K, V>) -> (values: Self)
        requires
            inner.wf(),
        ensures
            values.wf(),
            values.entries() == inner.entries(),
            values.remaining() == inner.remaining(),
    {
        Values { inner }
    }

    /// The value of the next key in ascending order.
    pub fn next(&mut self) -> (r: Option<&'a V>)
        requires
            old(self).wf(),
        ensures
            final(self).wf(),
            final(self).entries() == old(self).entries(),
            r matches Some(value) ==> exists|key: Seq<u8>| #[trigger]
                is_least(old(self).remaining(), key) && *value == old(self).entries()[key].1
                    && final(self).remaining() == old(self).remaining().remove(key),
            r is None ==> {
                &&& old(self).remaining() == Set::<Seq<u8>>::empty()
                &&& final(self).remaining() == old(self).remaining()
            },
    {
        match self.inner.next() {
            Some(entry) => {
                assert(is_least(old(self).remaining(), entry@.0.key_bytes()));
                Some(entry.value())
            },
            None => None,
        }
    }
}

/// `run` is what an iterator yields that takes the least of `remaining` at every step until
/// nothing is left.
pub open spec fn forward_run(remaining: Set<Seq<u8>>, run: Seq<Seq<u8>>) -> bool
    decreases run.len(),
{
    if run.len() == 0 {
        remaining == Set::<Seq<u8>>::empty()
    } else {
        is_least(remaining, run[0]) && forward_run(remaining.remove(run[0]), run.skip(1))
    }
}

/// `run` is what an iterator yields that takes the greatest of `remaining` at every step until
/// nothing is left.
pub open spec fn backward_run(remaining: Set<Seq<u8>>, run: Seq<Seq<u8>>) -> bool
    decreases run.len(),
{
    if run.len() == 0 {
        remaining == Set::<Seq<u8>>::empty()
    } else {
        is_greatest(remaining, run[0]) && backward_run(remaining.remove(run[0]), run.skip(1))
    }
}

/// Forward iteration visits every key of the range once, and nothing else, in strictly
/// ascending order.
pub proof fn lemma_forward_run(remaining: Set<Seq<u8>>, run: Seq<Seq<u8>>)
    requires
        forward_run(remaining, run),
    ensures
        forall|k: Seq<u8>| #[trigger] remaining.contains(k) <==> run.contains(k),
        forall|i: int, j: int|
            0 <= i < j < run.len() ==> order::lex_lt(#[trigger] run[i], #[trigger] run[j]),
    decreases run.len(),
{
    if run.len() > 0 {
        let rest = run.skip(1);
        let left = remaining.remove(run[0]);
        lemma_forward_run(left, rest);
        assert forall|k: Seq<u8>| #[trigger] remaining.contains(k) <==> run.contains(k) by {
            if remaining.contains(k) && k != run[0] {
                assert(left.contains(k));
                let i = choose|i: int| 0 <= i < rest.len() && rest[i] == k;
                assert(run[i + 1] == k);
            }
            if run.contains(k) {
                let i = choose|i: int| 0 <= i < run.len() && run[i] == k;
                if i > 0 {
                    assert(rest[i - 1] == k);
                    assert(left.contains(k));
                }
            }
        }
        assert forall|i: int, j: int| 0 <= i < j < run.len() implies order::lex_lt(
            #[trigger] run[i],
            #[trigger] run[j],
        ) by {
            if i == 0 {
                assert(rest[j - 1] == run[j]);
                assert(rest.contains(run[j]));
                assert(left.contains(run[j]));
            } else {
                assert(rest[i - 1] == run[i]);
                assert(rest[j - 1] == run[j]);
            }
        }
    }
}

/// Backward iteration visits every key of the range once, and nothing else, in strictly
/// descending order.
pub proof fn lemma_backward_run(remaining: Set<Seq<u8>>, run: Seq<Seq<u8>>)
    requires
        backward_run(remaining, run),
    ensures
        forall|k: Seq<u8>| #[trigger] remaining.contains(k) <==> run.contains(k),
        forall|i: int, j: int|
            0 <= i < j < run.len() ==> order::lex_lt(#[trigger] run[j], #[trigger] run[i]),
    decreases run.len(),
{
    if run.len() > 0 {
        let rest = run.skip(1);
        let left = remaining.remove(run[0]);
        lemma_backward_run(left, rest);
        assert forall|k: Seq<u8>| #[trigger] remaining.contains(k) <==> run.contains(k) by {
            if remaining.contains(k) && k != run[0] {
                assert(left.contains(k));
                let i = choose|i: int| 0 <= i < rest.len() && rest[i] == k;
                assert(run[i + 1] == k);
            }
            if run.contains(k) {
                let i = choose|i: int| 0 <= i < run.len() && run[i] == k;
                if i > 0 {
                    assert(rest[i - 1] == k);
                    assert(left.contains(k));
                }
            }
        }
        assert forall|i: int, j: int| 0 <= i < j < run.len() implies order::lex_lt(
            #[trigger] run[j],
            #[trigger] run[i],
        ) by {
            if i == 0 {
                assert(rest[j - 1] == run[j]);
                assert(rest.contains(run[j]));
                assert(left.contains(run[j]));
            } else {
                assert(rest[i - 1] == run[i]);
                assert(rest[j - 1] == run[j]);
            }
        }
    }
}

/// Backward iteration yields what forward iteration yields, in reverse.
pub proof fn lemma_reverse(remaining: Set<Seq<u8>>, forward: Seq<Seq<u8>>, backward: Seq<Seq<u8>>)
    requires
        forward_run(remaining, forward),
        backward_run(remaining, backward),
    ensures
        backward == forward.reverse(),
    decreases forward.len(),
{
    lemma_forward_run(remaining, forward);
    lemma_backward_run(remaining, backward);
    if forward.len() == 0 {
        if backward.len() > 0 {
            assert(backward.contains(backward[0]));
        }
        assert(backward =~= forward.reverse());
    } else {
        assert(forward.contains(forward[0]));
        assert(backward.len() > 0) by {
            assert(remaining.contains(forward[0]));
        }
        let n = backward.len() - 1;
        let least = forward[0];
        // The last of the backward run is the least.
        assert(backward[n] == least) by {
            assert(backward.contains(backward[n]));
            assert(remaining.contains(backward[n]));
            assert(order::lex_le(least, backward[n]));
            assert(remaining.contains(least));
            assert(backward.contains(least));
            let i = choose|i: int| 0 <= i < backward.len() && backward[i] == least;
            if i < n {
                assert(order::lex_lt(backward[n], backward[i]));
                order::lemma_lex_asymmetric(backward[n], least);
            }
        }
        let front = backward.drop_last();
        lemma_backward_drop_last(remaining, backward);
        lemma_reverse(remaining.remove(least), forward.skip(1), front);
        assert(backward =~= forward.reverse()) by {
            assert(front == forward.skip(1).reverse());
            assert(backward =~= front.push(least));
        }
    }
}

/// A backward run without its last key is a backward run without that key.
proof fn lemma_backward_drop_last(remaining: Set<Seq<u8>>, run: Seq<Seq<u8>>)
    requires
        backward_run(remaining, run),
        run.len() > 0,
    ensures
        backward_run(remaining.remove(run.last()), run.drop_last()),
    decreases run.len(),
{
    lemma_backward_run(remaining, run);
    let last = run.last();
    let front = run.drop_last();
    if run.len() == 1 {
        assert(remaining.remove(last) =~= Set::<Seq<u8>>::empty()) by {
            assert forall|k: Seq<u8>| !#[trigger] remaining.remove(last).contains(k) by {
                if remaining.contains(k) {
                    let i = choose|i: int| 0 <= i < run.len() && run[i] == k;
                }
            }
        }
    } else {
        lemma_backward_drop_last(remaining.remove(run[0]), run.skip(1));
        assert(run.skip(1).last() == last);
        assert(run.skip(1).drop_last() =~= front.skip(1));
        assert(order::lex_lt(run[run.len() - 1], run[0]));
        order::lemma_lex_asymmetric(last, run[0]);
        assert(remaining.remove(run[0]).remove(last) =~= remaining.remove(last).remove(run[0]));
        assert(front[0] == run[0]);
    }
}

/// A walk over the entries between two bounds, from the front, yields every key of the map on the
/// right side of both bounds once, and nothing else, in ascending order. From the back it yields
/// the same in descending order.
pub proof fn lemma_walk_between<Q: AsBytes + ?Sized>(
    keys: Set<Seq<u8>>,
    start: Bound<&Q>,
    end: Bound<&Q>,
    remaining: Set<Seq<u8>>,
    forward: Seq<Seq<u8>>,
    backward: Seq<Seq<u8>>,
)
    requires
        forall|k: Seq<u8>| #[trigger]
            remaining.contains(k) <==> keys.contains(k) && bound::in_range(
                k,
                bound::bytes_of(start),
                bound::bytes_of(end),
            ),
        forward_run(remaining, forward),
        backward_run(remaining, backward),
    ensures
        forall|k: Seq<u8>| #[trigger]
            forward.contains(k) <==> {
                &&& keys.contains(k)
                &&& match start {
                    Bound::Included(q) => !order::lex_lt(k, q.key_bytes()),
                    Bound::Excluded(q) => order::lex_lt(q.key_bytes(), k),
                    Bound::Unbounded => true,
                }
                &&& match end {
                    Bound::Included(q) => !order::lex_lt(q.key_bytes(), k),
                    Bound::Excluded(q) => order::lex_lt(k, q.key_bytes()),
                    Bound::Unbounded => true,
                }
            },
        forall|i: int, j: int|
            0 <= i < j < forward.len() ==> order::lex_lt(
                #[trigger] forward[i],
                #[trigger] forward[j],
            ),
        backward == forward.reverse(),
{
    lemma_forward_run(remaining, forward);
    lemma_reverse(remaining, forward, backward);
    assert forall|k: Seq<u8>| #[trigger] forward.contains(k) <==> ({
        &&& keys.contains(k)
        &&& match start {
            Bound::Included(q) => !order::lex_lt(k, q.key_bytes()),
            Bound::Excluded(q) => order::lex_lt(q.key_bytes(), k),
            Bound::Unbounded => true,
        }
        &&& match end {
            Bound::Included(q) => !order::lex_lt(q.key_bytes(), k),
            Bound::Excluded(q) => order::lex_lt(k, q.key_bytes()),
            Bound::Unbounded => true,
        }
    }) by {
        assert(forward.contains(k) <==> remaining.contains(k));
        match start {
            Bound::Included(q) => order::lemma_lex_trichotomy(q.key_bytes(), k),
            _ => {},
        }
        match end {
            Bound::Included(q) => order::lemma_lex_trichotomy(k, q.key_bytes()),
            _ => {},
        }
    }
}

/// Every finite set of keys can be walked to its end, in as many steps as it has keys.
pub proof fn lemma_forward_run_exists(remaining: Set<Seq<u8>>) -> (run: Seq<Seq<u8>>)
    requires
        remaining.finite(),
    ensures
        forward_run(remaining, run),
        run.len() == remaining.len(),
    decreases remaining.len(),
{
    if remaining.len() == 0 {
        assert(remaining =~= Set::<Seq<u8>>::empty());
        Seq::empty()
    } else {
        let key = lemma_least_exists(remaining);
        let rest = lemma_forward_run_exists(remaining.remove(key));
        let run = seq![key] + rest;
        assert(run.skip(1) =~= rest);
        assert(run[0] == key);
        run
    }
}

/// Every finite set of keys can be walked from the back to its end, in as many steps as it has
/// keys.
pub proof fn lemma_backward_run_exists(remaining: Set<Seq<u8>>) -> (run: Seq<Seq<u8>>)
    requires
        remaining.finite(),
    ensures
        backward_run(remaining, run),
        run.len() == remaining.len(),
    decreases remaining.len(),
{
    if remaining.len() == 0 {
        assert(remaining =~= Set::<Seq<u8>>::empty());
        Seq::empty()
    } else {
        let key = lemma_greatest_exists(remaining);
        let rest = lemma_backward_run_exists(remaining.remove(key));
        let run = seq![key] + rest;
        assert(run.skip(1) =~= rest);
        assert(run[0] == key);
        run
    }
}

/// A finite set with a member has a greatest one.
proof fn lemma_greatest_exists(keys: Set<Seq<u8>>) -> (key: Seq<u8>)
    requires
        keys.finite(),
        keys.len() > 0,
    ensures
        is_greatest(keys, key),
    decreases keys.len(),
{
    let some = keys.choose();
    if keys.len() == 1 {
        assert(keys.remove(some).len() == 0);
        assert(keys.remove(some) =~= Set::<Seq<u8>>::empty());
        assert forall|k: Seq<u8>| #[trigger] keys.contains(k) implies order::lex_le(k, some) by {
            assert(k == some || keys.remove(some).contains(k));
        }
        some
    } else {
        let rest = keys.remove(some);
        let greatest = lemma_greatest_exists(rest);
        order::lemma_lex_trichotomy(some, greatest);
        order::lemma_lex_trichotomy(greatest, some);
        let key = if order::lex_lt(greatest, some) {
            some
        } else {
            greatest
        };
        assert forall|k: Seq<u8>| #[trigger] keys.contains(k) implies order::lex_le(k, key) by {
            if k != some {
                assert(rest.contains(k));
                order::lemma_lex_le_transitive(k, greatest, key);
            }
        }
        key
    }
}

/// A finite set with a member has a least one.
proof fn lemma_least_exists(keys: Set<Seq<u8>>) -> (key: Seq<u8>)
    requires
        keys.finite(),
        keys.len() > 0,
    ensures
        is_least(keys, key),
    decreases keys.len(),
{
    let some = keys.choose();
    if keys.len() == 1 {
        assert(keys.remove(some).len() == 0);
        assert(keys.remove(some) =~= Set::<Seq<u8>>::empty());
        assert forall|k: Seq<u8>| #[trigger] keys.contains(k) implies order::lex_le(some, k) by {
            assert(k == some || keys.remove(some).contains(k));
        }
        some
    } else {
        let rest = keys.remove(some);
        let least = lemma_least_exists(rest);
        order::lemma_lex_trichotomy(some, least);
        order::lemma_lex_trichotomy(least, some);
        let key = if order::lex_lt(some, least) {
            some
        } else {
            least
        };
        assert forall|k: Seq<u8>| #[trigger] keys.contains(k) implies order::lex_le(key, k) by {
            if k != some {
                assert(rest.contains(k));
                order::lemma_lex_le_transitive(key, least, k);
            }
        }
        key
    }
}

} // verus!
