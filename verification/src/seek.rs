//! # Ordered search
//!
//! The first and the last leaf of a subtree, and the leaf next to a given key in
//! lexicographical order.

use crate::node::Link;
use crate::order;
use crate::order::{compare, Compare};
use crate::shape;
use crate::shape::Cell;
use crate::trie;
use crate::trie::{Keyed, Trie};
use vstd::prelude::*;

verus! {

/// The keys that start with `path`.
pub open spec fn under(path: Seq<u8>) -> Set<Seq<u8>> {
    Set::new(|k: Seq<u8>| order::extends(k, path))
}

/// The keys that go on behind `stem` with a byte from `min` on and before `end`.
pub open spec fn branches(stem: Seq<u8>, min: int, end: int) -> Set<Seq<u8>> {
    Set::new(
        |k: Seq<u8>| shape::beyond(k, stem) && min <= k[stem.len() as int] && k[stem.len() as int] < end,
    )
}

/// `key` comes after `search`, or equals it where that counts.
pub open spec fn is_after(key: Seq<u8>, search: Seq<u8>, include_equal: bool) -> bool {
    order::lex_lt(search, key) || (include_equal && key == search)
}

/// `key` comes before `search`, or equals it where that counts.
pub open spec fn is_before(key: Seq<u8>, search: Seq<u8>, include_equal: bool) -> bool {
    order::lex_lt(key, search) || (include_equal && key == search)
}

/// The keys that start with `path` and come after `search`.
pub open spec fn under_after(path: Seq<u8>, search: Seq<u8>, include_equal: bool) -> Set<Seq<u8>> {
    Set::new(|k: Seq<u8>| order::extends(k, path) && is_after(k, search, include_equal))
}

/// The keys that start with `path` and come before `search`.
pub open spec fn under_before(path: Seq<u8>, search: Seq<u8>, include_equal: bool) -> Set<Seq<u8>> {
    Set::new(|k: Seq<u8>| order::extends(k, path) && is_before(k, search, include_equal))
}

/// What comes after a key, with the key or without it, is what does not come before it.
pub proof fn lemma_after_and_before(key: Seq<u8>, search: Seq<u8>)
    ensures
        is_after(key, search, false) <==> order::lex_lt(search, key),
        is_after(key, search, true) <==> order::lex_le(search, key),
        is_before(key, search, false) <==> order::lex_lt(key, search),
        is_before(key, search, true) <==> order::lex_le(key, search),
        is_after(key, search, true) <==> !is_before(key, search, false),
        is_before(key, search, true) <==> !is_after(key, search, false),
{
    order::lemma_lex_trichotomy(key, search);
    order::lemma_lex_trichotomy(search, key);
}

/// A common front does not change the order.
pub proof fn lemma_common_front(p: Seq<u8>, a: Seq<u8>, b: Seq<u8>)
    ensures
        order::lex_lt(a, b) ==> order::lex_lt(p + a, p + b),
{
    if order::lex_lt(a, b) {
        let n = choose|n: int| order::below_at(a, b, n);
        assert forall|i: int| 0 <= i < p.len() + n implies #[trigger] (p + a)[i] == (p + b)[i] by {
            if i >= p.len() {
                assert(a[i - p.len()] == b[i - p.len()]);
            }
        }
        assert(order::below_at(p + a, p + b, p.len() + n));
    }
}

/// What starts with a string that comes after another comes after it too.
pub proof fn lemma_beyond_later(k: Seq<u8>, stem: Seq<u8>, search: Seq<u8>)
    requires
        order::extends(k, stem),
        order::lex_lt(search, stem),
    ensures
        order::lex_lt(search, k),
{
    order::lemma_lex_extends(k, stem);
    order::lemma_lex_le_transitive(search, stem, k);
}

/// What starts with a string that comes before another, and is no prefix of it, comes before it
/// too.
pub proof fn lemma_beyond_earlier(k: Seq<u8>, stem: Seq<u8>, search: Seq<u8>)
    requires
        order::extends(k, stem),
        order::lex_lt(stem, search),
        !order::extends(search, stem),
    ensures
        order::lex_lt(k, search),
{
    order::lemma_lex_prefix_decides(k, stem, search);
}

/// Two strings that go on differently behind a common stem are ordered by the next byte.
pub proof fn lemma_branch_order(a: Seq<u8>, b: Seq<u8>, stem: Seq<u8>)
    requires
        shape::beyond(a, stem),
        shape::beyond(b, stem),
        a[stem.len() as int] < b[stem.len() as int],
    ensures
        order::lex_lt(a, b),
{
    assert(order::agree(a, b, stem.len() as int)) by {
        assert forall|i: int| 0 <= i < stem.len() implies #[trigger] a[i] == b[i] by {
            assert(stem[i] == a[i]);
            assert(stem[i] == b[i]);
        }
    }
    assert(order::below_at(a, b, stem.len() as int));
}

impl<P: Link, L: Keyed> Trie<P, L> {
    /// The key of the leaf to which `link` leads.
    pub open spec fn key_at(&self, link: P) -> Seq<u8> {
        self.leaf_at(link).own_key()
    }

    /// `link` leads to the leaf of a key of the tree.
    pub open spec fn is_entry(&self, link: P) -> bool {
        &&& self.holds_leaf(link)
        &&& self.keys().contains_key(self.key_at(link))
        &&& self.keys()[self.key_at(link)] == link
    }

    /// `r` is the leaf of the least key of the tree in `range`.
    pub open spec fn least(&self, range: Set<Seq<u8>>, r: Option<P>) -> bool {
        match r {
            Some(link) => {
                &&& self.is_entry(link)
                &&& range.contains(self.key_at(link))
                &&& forall|k: Seq<u8>| #[trigger]
                    self.keys().contains_key(k) && range.contains(k) ==> order::lex_le(
                        self.key_at(link),
                        k,
                    )
            },
            None => forall|k: Seq<u8>| #[trigger]
                self.keys().contains_key(k) ==> !range.contains(k),
        }
    }

    /// `r` is the leaf of the greatest key of the tree in `range`.
    pub open spec fn greatest(&self, range: Set<Seq<u8>>, r: Option<P>) -> bool {
        match r {
            Some(link) => {
                &&& self.is_entry(link)
                &&& range.contains(self.key_at(link))
                &&& forall|k: Seq<u8>| #[trigger]
                    self.keys().contains_key(k) && range.contains(k) ==> order::lex_le(
                        k,
                        self.key_at(link),
                    )
            },
            None => forall|k: Seq<u8>| #[trigger]
                self.keys().contains_key(k) ==> !range.contains(k),
        }
    }

    /// The only key under a leaf is its own.
    pub proof fn lemma_under_leaf(&self, path: Seq<u8>)
        requires
            self.wf(),
            self.outline().at.contains_key(path),
            self.outline().node(path) is Leaf,
        ensures
            self.is_entry(self.outline().at[path]),
            order::extends(self.key_at(self.outline().at[path]), path),
            forall|k: Seq<u8>| #[trigger]
                self.keys().contains_key(k) && order::extends(k, path) ==> k == self.key_at(
                    self.outline().at[path],
                ),
    {
        let o = self.outline();
        assert(o.node_ok(path));
        assert forall|k: Seq<u8>| #[trigger]
            self.keys().contains_key(k) && order::extends(k, path) implies k == self.key_at(
            o.at[path],
        ) by {
            assert(o.key_routes(path, k));
            assert(o.keyed(k));
        }
    }

    /// The keys under an inner node are its exact leaf's and those behind its children.
    pub proof fn lemma_under_inner(&self, path: Seq<u8>, prefix: Seq<u8>, exact: P, kids: Map<u8, P>)
        requires
            self.wf(),
            self.outline().at.contains_key(path),
            self.outline().node(path) == (Cell::Inner { prefix, exact, kids }),
        ensures
            !exact.absent() ==> self.is_entry(exact) && self.key_at(exact) == path + prefix,
            forall|k: Seq<u8>| #[trigger]
                self.keys().contains_key(k) && order::extends(k, path) ==> order::extends(
                    k,
                    path + prefix,
                ) && (k.len() == (path + prefix).len() ==> k == path + prefix && !exact.absent())
                    && (k.len() > (path + prefix).len() ==> kids.contains_key(
                    k[(path + prefix).len() as int],
                )),
    {
        let o = self.outline();
        let stem = path + prefix;
        assert(o.node_ok(path));
        if !exact.absent() {
            assert(o.keyed(stem));
        }
        assert forall|k: Seq<u8>| #[trigger]
            self.keys().contains_key(k) && order::extends(k, path) implies order::extends(k, stem)
            && (k.len() == stem.len() ==> k == stem && !exact.absent()) && (k.len() > stem.len()
            ==> kids.contains_key(k[stem.len() as int])) by {
            assert(o.key_routes(path, k));
            if k.len() == stem.len() {
                assert(k =~= stem);
            } else {
                shape::lemma_kid(o, path, prefix, exact, kids, k[stem.len() as int]);
            }
        }
    }

    /// The first leaf among the children of a node from the byte `min` on.
    pub fn find_first_child_leaf(&self, node: P, Ghost(path): Ghost<Seq<u8>>, min: usize) -> (r:
        Option<P>)
        requires
            self.wf(),
            self.outline().at.contains_key(path),
            self.outline().at[path] == node,
            self.outline().node(path) is Inner,
        ensures
            self.least(
                branches(path + self.outline().node(path)->prefix, min as int, 256),
                r,
            ),
        decreases self.outline().height - path.len(), 0nat,
    {
        let ghost o = self.outline();
        let ghost prefix = o.node(path)->prefix;
        let ghost stem = path + prefix;
        let ghost exact = o.node(path)->exact;
        let ghost kids = o.node(path)->kids;
        proof {
            assert(o.node_ok(path));
            self.lemma_under_inner(path, prefix, exact, kids);
            shape::lemma_child_path(path, prefix, 0);
        }
        let inner = self.inner(node);
        assert(o.node(path) == trie::cell_of(self.slots@[node.slot() as int]));
        let mut from: usize = min;
        loop
            invariant
                self.wf(),
                o == self.outline(),
                o.at.contains_key(path),
                o.node(path) == (Cell::Inner { prefix, exact, kids }),
                stem == path + prefix,
                order::extends(stem, path),
                inner.wf(),
                inner.kids() == kids,
                min <= from,
                forall|k: Seq<u8>| #[trigger]
                    self.keys().contains_key(k) && order::extends(k, path) ==> order::extends(
                        k,
                        stem,
                    ) && (k.len() > stem.len() ==> kids.contains_key(k[stem.len() as int])),
                forall|k: Seq<u8>| #[trigger]
                    self.keys().contains_key(k) ==> !branches(
                        stem,
                        min as int,
                        from as int,
                    ).contains(k),
            decreases 256 - from,
        {
            match inner.next_child_in_node(from) {
                None => {
                    proof {
                        assert forall|k: Seq<u8>| #[trigger]
                            self.keys().contains_key(k) implies !branches(
                            stem,
                            min as int,
                            256,
                        ).contains(k) by {
                            if branches(stem, min as int, 256).contains(k) {
                                order::lemma_extends_transitive(k, stem, path);
                                assert(kids.contains_key(k[stem.len() as int]));
                                assert(!branches(stem, min as int, from as int).contains(k));
                            }
                        }
                    }
                    return None;
                },
                Some((byte, child)) => {
                    let ghost below = shape::child_path(path, prefix, byte);
                    proof {
                        assert(o.node_ok(path));
                        shape::lemma_kid(o, path, prefix, exact, kids, byte);
                        assert(o.node_ok(below));
                        shape::lemma_child_path(path, prefix, byte);
                    }
                    let r = self.first_leaf_in_subtree(child, Ghost(below));
                    // A key in range goes on with this byte or a later one.
                    assert forall|k: Seq<u8>| #[trigger]
                        self.keys().contains_key(k) && branches(
                            stem,
                            min as int,
                            256,
                        ).contains(k) implies k[stem.len() as int] >= byte && (
                    k[stem.len() as int] == byte ==> order::extends(k, below)) by {
                        order::lemma_extends_transitive(k, stem, path);
                        assert(kids.contains_key(k[stem.len() as int]));
                        assert(!branches(stem, min as int, from as int).contains(k));
                        if k[stem.len() as int] == byte {
                            shape::lemma_through_child(k, path, prefix);
                        }
                    }
                    if r.is_some() {
                        proof {
                            let first = self.key_at(r->0);
                            shape::lemma_below_child(first, path, prefix, byte);
                            assert(branches(stem, min as int, 256).contains(first));
                            assert forall|k: Seq<u8>| #[trigger]
                                self.keys().contains_key(k) && branches(
                                    stem,
                                    min as int,
                                    256,
                                ).contains(k) implies order::lex_le(first, k) by {
                                if k[stem.len() as int] == byte {
                                    assert(under(below).contains(k));
                                } else {
                                    lemma_branch_order(first, k, stem);
                                }
                            }
                        }
                        return r;
                    }
                    proof {
                        assert forall|k: Seq<u8>| #[trigger]
                            self.keys().contains_key(k) implies !branches(
                            stem,
                            min as int,
                            byte as int + 1,
                        ).contains(k) by {
                            if branches(stem, min as int, byte as int + 1).contains(k) {
                                assert(branches(stem, min as int, 256).contains(k));
                                assert(under(below).contains(k));
                            }
                        }
                    }
                    from = byte as usize + 1;
                },
            }
        }
    }

    /// The first leaf of the subtree at `path`.
    pub fn first_leaf_in_subtree(&self, link: P, Ghost(path): Ghost<Seq<u8>>) -> (r: Option<P>)
        requires
            self.wf(),
            self.outline().at.contains_key(path),
            self.outline().at[path] == link,
        ensures
            self.least(under(path), r),
        decreases self.outline().height - path.len(), 1nat,
    {
        let ghost o = self.outline();
        proof {
            assert(o.node_ok(path));
        }
        if link.has_leaf_tag() {
            proof {
                self.lemma_under_leaf(path);
            }
            return Some(link);
        }
        let inner = self.inner(link);
        let ghost prefix = inner.prefix();
        let ghost stem = path + prefix;
        proof {
            assert(o.node(path) == trie::cell_of(self.slots@[link.slot() as int]));
            self.lemma_under_inner(path, prefix, inner.exact(), inner.kids());
            shape::lemma_child_path(path, prefix, 0);
        }
        match inner.header().load_exact_leaf() {
            Some(leaf) => {
                proof {
                    assert forall|k: Seq<u8>| #[trigger]
                        self.keys().contains_key(k) && under(path).contains(k) implies order::lex_le(
                        stem,
                        k,
                    ) by {
                        order::lemma_lex_extends(k, stem);
                    }
                }
                Some(leaf)
            },
            None => {
                let r = self.find_first_child_leaf(link, Ghost(path), 0);
                proof {
                    assert forall|k: Seq<u8>| #[trigger]
                        self.keys().contains_key(k) implies under(path).contains(k) == branches(
                        stem,
                        0,
                        256,
                    ).contains(k) by {
                        if branches(stem, 0, 256).contains(k) {
                            order::lemma_extends_transitive(k, stem, path);
                        }
                    }
                }
                r
            },
        }
    }

    /// The last leaf among the children of a node before the byte `end`.
    pub fn find_last_child_leaf(&self, node: P, Ghost(path): Ghost<Seq<u8>>, end: usize) -> (r:
        Option<P>)
        requires
            self.wf(),
            self.outline().at.contains_key(path),
            self.outline().at[path] == node,
            self.outline().node(path) is Inner,
            end <= 256,
        ensures
            self.greatest(
                branches(path + self.outline().node(path)->prefix, 0, end as int),
                r,
            ),
        decreases self.outline().height - path.len(), 0nat,
    {
        let ghost o = self.outline();
        let ghost prefix = o.node(path)->prefix;
        let ghost stem = path + prefix;
        let ghost exact = o.node(path)->exact;
        let ghost kids = o.node(path)->kids;
        proof {
            assert(o.node_ok(path));
            self.lemma_under_inner(path, prefix, exact, kids);
            shape::lemma_child_path(path, prefix, 0);
        }
        let inner = self.inner(node);
        assert(o.node(path) == trie::cell_of(self.slots@[node.slot() as int]));
        let mut upto: usize = end;
        loop
            invariant
                self.wf(),
                o == self.outline(),
                o.at.contains_key(path),
                o.node(path) == (Cell::Inner { prefix, exact, kids }),
                stem == path + prefix,
                order::extends(stem, path),
                inner.wf(),
                inner.kids() == kids,
                upto <= end <= 256,
                forall|k: Seq<u8>| #[trigger]
                    self.keys().contains_key(k) && order::extends(k, path) ==> order::extends(
                        k,
                        stem,
                    ) && (k.len() > stem.len() ==> kids.contains_key(k[stem.len() as int])),
                forall|k: Seq<u8>| #[trigger]
                    self.keys().contains_key(k) ==> !branches(
                        stem,
                        upto as int,
                        end as int,
                    ).contains(k),
            decreases upto,
        {
            match inner.prev_child_in_node(upto) {
                None => {
                    proof {
                        assert forall|k: Seq<u8>| #[trigger]
                            self.keys().contains_key(k) implies !branches(
                            stem,
                            0,
                            end as int,
                        ).contains(k) by {
                            if branches(stem, 0, end as int).contains(k) {
                                order::lemma_extends_transitive(k, stem, path);
                                assert(kids.contains_key(k[stem.len() as int]));
                                assert(!branches(stem, upto as int, end as int).contains(k));
                            }
                        }
                    }
                    return None;
                },
                Some((byte, child)) => {
                    let ghost below = shape::child_path(path, prefix, byte);
                    proof {
                        assert(o.node_ok(path));
                        shape::lemma_kid(o, path, prefix, exact, kids, byte);
                        assert(o.node_ok(below));
                        shape::lemma_child_path(path, prefix, byte);
                    }
                    let r = self.last_leaf_in_subtree(child, Ghost(below));
                    // A key in range goes on with this byte or an earlier one.
                    assert forall|k: Seq<u8>| #[trigger]
                        self.keys().contains_key(k) && branches(
                            stem,
                            0,
                            end as int,
                        ).contains(k) implies k[stem.len() as int] <= byte && (
                    k[stem.len() as int] == byte ==> order::extends(k, below)) by {
                        order::lemma_extends_transitive(k, stem, path);
                        assert(kids.contains_key(k[stem.len() as int]));
                        assert(!branches(stem, upto as int, end as int).contains(k));
                        if k[stem.len() as int] == byte {
                            shape::lemma_through_child(k, path, prefix);
                        }
                    }
                    if r.is_some() {
                        proof {
                            let last = self.key_at(r->0);
                            shape::lemma_below_child(last, path, prefix, byte);
                            assert(branches(stem, 0, end as int).contains(last));
                            assert forall|k: Seq<u8>| #[trigger]
                                self.keys().contains_key(k) && branches(
                                    stem,
                                    0,
                                    end as int,
                                ).contains(k) implies order::lex_le(k, last) by {
                                if k[stem.len() as int] == byte {
                                    assert(under(below).contains(k));
                                } else {
                                    lemma_branch_order(k, last, stem);
                                }
                            }
                        }
                        return r;
                    }
                    proof {
                        assert forall|k: Seq<u8>| #[trigger]
                            self.keys().contains_key(k) implies !branches(
                            stem,
                            byte as int,
                            end as int,
                        ).contains(k) by {
                            if branches(stem, byte as int, end as int).contains(k) {
                                assert(branches(stem, 0, end as int).contains(k));
                                assert(under(below).contains(k));
                            }
                        }
                    }
                    upto = byte as usize;
                },
            }
        }
    }

    /// The last leaf of the subtree at `path`.
    pub fn last_leaf_in_subtree(&self, link: P, Ghost(path): Ghost<Seq<u8>>) -> (r: Option<P>)
        requires
            self.wf(),
            self.outline().at.contains_key(path),
            self.outline().at[path] == link,
        ensures
            self.greatest(under(path), r),
        decreases self.outline().height - path.len(), 1nat,
    {
        let ghost o = self.outline();
        proof {
            assert(o.node_ok(path));
        }
        if link.has_leaf_tag() {
            proof {
                self.lemma_under_leaf(path);
            }
            return Some(link);
        }
        let inner = self.inner(link);
        let ghost prefix = inner.prefix();
        let ghost stem = path + prefix;
        proof {
            assert(o.node(path) == trie::cell_of(self.slots@[link.slot() as int]));
            self.lemma_under_inner(path, prefix, inner.exact(), inner.kids());
            shape::lemma_child_path(path, prefix, 0);
        }
        let r = self.find_last_child_leaf(link, Ghost(path), 256);
        proof {
            assert forall|k: Seq<u8>| #[trigger]
                self.keys().contains_key(k) && branches(stem, 0, 256).contains(k) implies under(
                path,
            ).contains(k) && order::lex_le(stem, k) by {
                order::lemma_extends_transitive(k, stem, path);
                order::lemma_lex_extends(k, stem);
            }
            assert forall|k: Seq<u8>| #[trigger]
                self.keys().contains_key(k) && under(path).contains(k) implies k == stem
                || branches(stem, 0, 256).contains(k) by {}
        }
        if r.is_some() {
            proof {
                let last = self.key_at(r->0);
                assert(under(path).contains(last));
                assert(order::lex_le(stem, last));
            }
            return r;
        }
        inner.header().load_exact_leaf()
    }

    /// The leaf next after `search` in the subtree that `search` reaches behind `depth` bytes.
    pub fn find_successor_in_node(
        &self,
        link: P,
        search: &[u8],
        depth: usize,
        include_equal: bool,
    ) -> (r: Option<P>)
        requires
            self.wf(),
            depth <= search@.len(),
            self.outline().at.contains_key(search@.take(depth as int)),
            self.outline().at[search@.take(depth as int)] == link,
        ensures
            self.least(under_after(search@.take(depth as int), search@, include_equal), r),
        decreases search@.len() - depth,
    {
        let ghost o = self.outline();
        let ghost path = search@.take(depth as int);
        let ghost range = under_after(path, search@, include_equal);
        let len: usize = search.len();
        proof {
            assert(o.node_ok(path));
        }
        if link.has_leaf_tag() {
            proof {
                self.lemma_under_leaf(path);
            }
            return match compare(self.leaf(link).key_slice(), search) {
                Compare::Greater => Some(link),
                Compare::Equal => if include_equal {
                    Some(link)
                } else {
                    None
                },
                Compare::Less => None,
            };
        }
        let inner = self.inner(link);
        let prefix_slice = inner.header().prefix_slice();
        let prefix_len: usize = prefix_slice.len();
        let ghost prefix = inner.prefix();
        let ghost stem = path + prefix;
        let ghost exact = inner.exact();
        let ghost kids = inner.kids();
        let rest = &search[depth..len];
        proof {
            assert(o.node(path) == trie::cell_of(self.slots@[link.slot() as int]));
            self.lemma_under_inner(path, prefix, exact, kids);
            shape::lemma_child_path(path, prefix, 0);
            assert(rest@ =~= search@.skip(depth as int));
            assert(path + rest@ =~= search@);
            lemma_common_front(path, prefix, rest@);
            lemma_common_front(path, rest@, prefix);
        }
        let (matched, complete) = inner.header().match_prefix(search, depth);
        proof {
            order::lemma_common_len(prefix, rest@);
            order::lemma_common_len_unique(prefix, rest@, matched as int);
        }
        if !complete {
            proof {
                assert(!order::extends(search@, stem)) by {
                    if order::extends(search@, stem) {
                        assert(stem[depth + matched] == search@[depth + matched]);
                        assert(prefix[matched as int] == rest@[matched as int]);
                    }
                }
            }
            // The whole subtree lies on one side.
            return match compare(prefix_slice, rest) {
                Compare::Greater => {
                    let r = self.first_leaf_in_subtree(link, Ghost(path));
                    proof {
                        assert forall|k: Seq<u8>| #[trigger]
                            self.keys().contains_key(k) implies range.contains(k) == under(
                            path,
                        ).contains(k) by {
                            if under(path).contains(k) {
                                lemma_beyond_later(k, stem, search@);
                            }
                        }
                    }
                    r
                },
                _ => {
                    proof {
                        order::lemma_lex_total(prefix, rest@);
                        if prefix == rest@ {
                            assert(stem == search@);
                        }
                        assert forall|k: Seq<u8>| #[trigger]
                            self.keys().contains_key(k) implies !range.contains(k) by {
                            if range.contains(k) {
                                lemma_beyond_earlier(k, stem, search@);
                                order::lemma_lex_asymmetric(k, search@);
                            }
                        }
                    }
                    None
                },
            };
        }
        let new_depth: usize = depth + matched;
        proof {
            assert(order::extends(search@, stem)) by {
                assert forall|i: int| 0 <= i < stem.len() implies #[trigger] stem[i]
                    == search@[i] by {
                    if i >= depth {
                        assert(prefix[i - depth] == rest@[i - depth]);
                    }
                }
            }
        }
        if new_depth == len {
            assert(stem =~= search@);
            if include_equal && !inner.header().exact_leaf.is_nil() {
                proof {
                    assert forall|k: Seq<u8>| #[trigger]
                        self.keys().contains_key(k) && range.contains(k) implies order::lex_le(
                        stem,
                        k,
                    ) by {
                        order::lemma_lex_extends(k, stem);
                    }
                }
                return Some(inner.header().exact_leaf);
            }
            let r = self.find_first_child_leaf(link, Ghost(path), 0);
            proof {
                assert forall|k: Seq<u8>| #[trigger] self.keys().contains_key(k) implies
                    range.contains(k) == branches(stem, 0, 256).contains(k) by {
                    if branches(stem, 0, 256).contains(k) {
                        order::lemma_extends_transitive(k, stem, path);
                        order::lemma_lex_extends(k, stem);
                    }
                    if range.contains(k) && k.len() == stem.len() {
                        order::lemma_lex_irreflexive(k);
                    }
                }
            }
            return r;
        }
        let byte: u8 = search[new_depth];
        let ghost below = shape::child_path(path, prefix, byte);
        let ghost below_range = under_after(below, search@, include_equal);
        proof {
            shape::lemma_through_child(search@, path, prefix);
            assert(below =~= search@.take(new_depth as int + 1));
            shape::lemma_kid(o, path, prefix, exact, kids, byte);
            shape::lemma_child_path(path, prefix, byte);
            // A key in range goes on with the next byte of the search key or a later one.
            assert forall|k: Seq<u8>| #[trigger]
                self.keys().contains_key(k) && range.contains(k) implies below_range.contains(k)
                || branches(stem, byte as int + 1, 256).contains(k) by {
                if k.len() == stem.len() {
                    order::lemma_lex_extends(search@, stem);
                    assert(k != search@);
                } else if k[stem.len() as int] < byte {
                    lemma_branch_order(k, search@, stem);
                    order::lemma_lex_asymmetric(k, search@);
                } else if k[stem.len() as int] == byte {
                    shape::lemma_through_child(k, path, prefix);
                }
            }
            assert forall|k: Seq<u8>| #[trigger]
                self.keys().contains_key(k) && branches(stem, byte as int + 1, 256).contains(
                    k,
                ) implies range.contains(k) by {
                order::lemma_extends_transitive(k, stem, path);
                lemma_branch_order(search@, k, stem);
            }
            assert forall|k: Seq<u8>| #[trigger]
                self.keys().contains_key(k) && below_range.contains(k) implies range.contains(
                k,
            ) by {
                order::lemma_extends_transitive(k, below, path);
            }
        }
        if let Some(child) = inner.find_child(byte) {
            let r = self.find_successor_in_node(child, search, new_depth + 1, include_equal);
            if r.is_some() {
                proof {
                    let next = self.key_at(r->0);
                    assert(range.contains(next));
                    shape::lemma_below_child(next, path, prefix, byte);
                    assert forall|k: Seq<u8>| #[trigger]
                        self.keys().contains_key(k) && range.contains(k) implies order::lex_le(
                        next,
                        k,
                    ) by {
                        if !below_range.contains(k) {
                            lemma_branch_order(next, k, stem);
                        }
                    }
                }
                return r;
            }
        } else {
            proof {
                assert forall|k: Seq<u8>| #[trigger] self.keys().contains_key(k) implies
                    !below_range.contains(k) by {
                    if below_range.contains(k) {
                        shape::lemma_below_child(k, path, prefix, byte);
                        order::lemma_extends_transitive(k, below, path);
                    }
                }
            }
        }
        let r = self.find_first_child_leaf(link, Ghost(path), byte as usize + 1);
        proof {
            assert forall|k: Seq<u8>| #[trigger] self.keys().contains_key(k) implies
                range.contains(k) == branches(stem, byte as int + 1, 256).contains(k) by {}
        }
        r
    }

    /// The leaf next before `search` in the subtree that `search` reaches behind `depth` bytes.
    pub fn find_predecessor_in_node(
        &self,
        link: P,
        search: &[u8],
        depth: usize,
        include_equal: bool,
    ) -> (r: Option<P>)
        requires
            self.wf(),
            depth <= search@.len(),
            self.outline().at.contains_key(search@.take(depth as int)),
            self.outline().at[search@.take(depth as int)] == link,
        ensures
            self.greatest(under_before(search@.take(depth as int), search@, include_equal), r),
        decreases search@.len() - depth,
    {
        let ghost o = self.outline();
        let ghost path = search@.take(depth as int);
        let ghost range = under_before(path, search@, include_equal);
        let len: usize = search.len();
        proof {
            assert(o.node_ok(path));
        }
        if link.has_leaf_tag() {
            proof {
                self.lemma_under_leaf(path);
            }
            return match compare(self.leaf(link).key_slice(), search) {
                Compare::Less => Some(link),
                Compare::Equal => if include_equal {
                    Some(link)
                } else {
                    None
                },
                Compare::Greater => None,
            };
        }
        let inner = self.inner(link);
        let prefix_slice = inner.header().prefix_slice();
        let prefix_len: usize = prefix_slice.len();
        let ghost prefix = inner.prefix();
        let ghost stem = path + prefix;
        let ghost exact = inner.exact();
        let ghost kids = inner.kids();
        let rest = &search[depth..len];
        proof {
            assert(o.node(path) == trie::cell_of(self.slots@[link.slot() as int]));
            self.lemma_under_inner(path, prefix, exact, kids);
            shape::lemma_child_path(path, prefix, 0);
            assert(rest@ =~= search@.skip(depth as int));
            assert(path + rest@ =~= search@);
            lemma_common_front(path, prefix, rest@);
            lemma_common_front(path, rest@, prefix);
        }
        let (matched, complete) = inner.header().match_prefix(search, depth);
        proof {
            order::lemma_common_len(prefix, rest@);
            order::lemma_common_len_unique(prefix, rest@, matched as int);
        }
        if !complete {
            proof {
                assert(!order::extends(search@, stem)) by {
                    if order::extends(search@, stem) {
                        assert(stem[depth + matched] == search@[depth + matched]);
                        assert(prefix[matched as int] == rest@[matched as int]);
                    }
                }
            }
            // The whole subtree lies on one side.
            return match compare(prefix_slice, rest) {
                Compare::Greater => {
                    proof {
                        assert forall|k: Seq<u8>| #[trigger]
                            self.keys().contains_key(k) implies !range.contains(k) by {
                            if range.contains(k) {
                                lemma_beyond_later(k, stem, search@);
                                order::lemma_lex_asymmetric(search@, k);
                            }
                        }
                    }
                    None
                },
                _ => {
                    let r = self.last_leaf_in_subtree(link, Ghost(path));
                    proof {
                        order::lemma_lex_total(prefix, rest@);
                        if prefix == rest@ {
                            assert(stem == search@);
                        }
                        assert forall|k: Seq<u8>| #[trigger]
                            self.keys().contains_key(k) implies range.contains(k) == under(
                            path,
                        ).contains(k) by {
                            if under(path).contains(k) {
                                lemma_beyond_earlier(k, stem, search@);
                            }
                        }
                    }
                    r
                },
            };
        }
        let new_depth: usize = depth + matched;
        proof {
            assert(order::extends(search@, stem)) by {
                assert forall|i: int| 0 <= i < stem.len() implies #[trigger] stem[i]
                    == search@[i] by {
                    if i >= depth {
                        assert(prefix[i - depth] == rest@[i - depth]);
                    }
                }
            }
        }
        if new_depth == len {
            assert(stem =~= search@);
            proof {
                assert forall|k: Seq<u8>| #[trigger]
                    self.keys().contains_key(k) && range.contains(k) implies k == stem && include_equal
                    && !exact.absent() by {
                    order::lemma_lex_extends(k, stem);
                }
            }
            if include_equal && !inner.header().exact_leaf.is_nil() {
                return Some(inner.header().exact_leaf);
            }
            return None;
        }
        let byte: u8 = search[new_depth];
        let ghost below = shape::child_path(path, prefix, byte);
        let ghost below_range = under_before(below, search@, include_equal);
        proof {
            shape::lemma_through_child(search@, path, prefix);
            assert(below =~= search@.take(new_depth as int + 1));
            shape::lemma_kid(o, path, prefix, exact, kids, byte);
            shape::lemma_child_path(path, prefix, byte);
            order::lemma_lex_extends(search@, stem);
            // A key in range goes on with the next byte of the search key or an earlier one, or
            // ends at this node.
            assert forall|k: Seq<u8>| #[trigger]
                self.keys().contains_key(k) && range.contains(k) implies below_range.contains(k)
                || branches(stem, 0, byte as int).contains(k) || (k == stem && !exact.absent()) by {
                if k.len() > stem.len() {
                    if k[stem.len() as int] > byte {
                        lemma_branch_order(search@, k, stem);
                        order::lemma_lex_asymmetric(search@, k);
                    } else if k[stem.len() as int] == byte {
                        shape::lemma_through_child(k, path, prefix);
                    }
                }
            }
            assert forall|k: Seq<u8>| #[trigger]
                self.keys().contains_key(k) && branches(stem, 0, byte as int).contains(
                    k,
                ) implies range.contains(k) && order::lex_le(stem, k) by {
                order::lemma_extends_transitive(k, stem, path);
                lemma_branch_order(k, search@, stem);
                order::lemma_lex_extends(k, stem);
            }
            assert forall|k: Seq<u8>| #[trigger]
                self.keys().contains_key(k) && below_range.contains(k) implies range.contains(k)
                && order::lex_le(stem, k) by {
                order::lemma_extends_transitive(k, below, path);
                order::lemma_extends_transitive(k, below, stem);
                order::lemma_lex_extends(k, stem);
            }
        }
        if let Some(child) = inner.find_child(byte) {
            let r = self.find_predecessor_in_node(child, search, new_depth + 1, include_equal);
            if r.is_some() {
                proof {
                    let next = self.key_at(r->0);
                    assert(range.contains(next));
                    shape::lemma_below_child(next, path, prefix, byte);
                    assert forall|k: Seq<u8>| #[trigger]
                        self.keys().contains_key(k) && range.contains(k) implies order::lex_le(
                        k,
                        next,
                    ) by {
                        if branches(stem, 0, byte as int).contains(k) {
                            lemma_branch_order(k, next, stem);
                        }
                    }
                }
                return r;
            }
        } else {
            proof {
                assert forall|k: Seq<u8>| #[trigger] self.keys().contains_key(k) implies
                    !below_range.contains(k) by {
                    if below_range.contains(k) {
                        shape::lemma_below_child(k, path, prefix, byte);
                        order::lemma_extends_transitive(k, below, path);
                    }
                }
            }
        }
        let r = self.find_last_child_leaf(link, Ghost(path), byte as usize);
        if r.is_some() {
            proof {
                let last = self.key_at(r->0);
                assert(range.contains(last));
                assert(order::lex_le(stem, last));
            }
            return r;
        }
        proof {
            // Only the exact leaf is left.
            assert(order::lex_lt(stem, search@)) by {
                if stem == search@ {
                    assert(stem.len() < search@.len());
                }
            }
            assert(!exact.absent() ==> range.contains(stem));
        }
        inner.header().load_exact_leaf()
    }

    /// The leaf next after `search`.
    pub fn find_successor(&self, search: &[u8], include_equal: bool) -> (r: Option<P>)
        requires
            self.wf(),
        ensures
            self.least(under_after(Seq::empty(), search@, include_equal), r),
    {
        if self.root.is_nil() {
            return None;
        }
        proof {
            assert(search@.take(0) =~= Seq::<u8>::empty());
        }
        self.find_successor_in_node(self.root, search, 0, include_equal)
    }

    /// The leaf next before `search`.
    pub fn find_predecessor(&self, search: &[u8], include_equal: bool) -> (r: Option<P>)
        requires
            self.wf(),
        ensures
            self.greatest(under_before(Seq::empty(), search@, include_equal), r),
    {
        if self.root.is_nil() {
            return None;
        }
        proof {
            assert(search@.take(0) =~= Seq::<u8>::empty());
        }
        self.find_predecessor_in_node(self.root, search, 0, include_equal)
    }

    /// The first leaf of the tree.
    pub fn first_leaf(&self) -> (r: Option<P>)
        requires
            self.wf(),
        ensures
            self.least(under(Seq::empty()), r),
    {
        if self.root.is_nil() {
            return None;
        }
        self.first_leaf_in_subtree(self.root, Ghost(Seq::empty()))
    }

    /// The last leaf of the tree.
    pub fn last_leaf(&self) -> (r: Option<P>)
        requires
            self.wf(),
        ensures
            self.greatest(under(Seq::empty()), r),
    {
        if self.root.is_nil() {
            return None;
        }
        self.last_leaf_in_subtree(self.root, Ghost(Seq::empty()))
    }
}

} // verus!
