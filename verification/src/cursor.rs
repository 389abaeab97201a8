//! # Range cursor
//!
//! Walks over the leaves of a tree in key order, from both ends of a range. Going forward, a
//! stack of nodes remembers the way to the last leaf, so that the next one is found without a
//! search from the root.

use crate::bound;
use crate::bound::{is_from_start, is_to_end, Bound};
use crate::node::Link;
use crate::order;
use crate::order::{compare, Compare};
use crate::seek;
use crate::shape;
use crate::shape::Cell;
use crate::sorted;
use crate::trie;
use crate::trie::{Keyed, Trie};
use vstd::prelude::*;

verus! {

pub const MAX_STACK_DEPTH: usize = 16;

pub const INLINE_KEY_BUF: usize = 64;

/// A node on the way to the last leaf, and the first byte that has not been visited there.
pub struct CursorFrame<P> {
    pub node: P,
    pub next: usize,
    pub path: Ghost<Seq<u8>>,
}

impl<P: Copy> Clone for CursorFrame<P> {
    fn clone(&self) -> (frame: Self)
        ensures
            frame == *self,
    {
        *self
    }
}

impl<P: Copy> Copy for CursorFrame<P> {

}

/// A stack of frames that needs no allocation while it is shallow.
pub struct FrameStack<P> {
    inline: [CursorFrame<P>; 16],
    len: usize,
    overflow: Vec<CursorFrame<P>>,
}

impl<P: Link> View for FrameStack<P> {
    type V = Seq<CursorFrame<P>>;

    closed spec fn view(&self) -> Seq<CursorFrame<P>> {
        self.inline@.take(self.len as int) + self.overflow@
    }
}

impl<P: Link> FrameStack<P> {
    /// The frames fill the inline part first.
    pub closed spec fn wf(&self) -> bool {
        &&& self.len <= MAX_STACK_DEPTH
        &&& self.overflow@.len() > 0 ==> self.len == MAX_STACK_DEPTH
    }

    /// An empty stack.
    pub fn new() -> (stack: Self)
        ensures
            stack.wf(),
            stack@ == Seq::<CursorFrame<P>>::empty(),
    {
        let none = CursorFrame { node: P::nil(), next: 0, path: Ghost(Seq::empty()) };
        let stack = FrameStack { inline: [none; 16], len: 0, overflow: Vec::new() };
        assert(stack@ =~= Seq::<CursorFrame<P>>::empty());
        stack
    }

    /// Puts a frame on top.
    pub fn push(&mut self, frame: CursorFrame<P>)
        requires
            old(self).wf(),
        ensures
            final(self).wf(),
            final(self)@ == old(self)@.push(frame),
    {
        let ghost before = self@;
        if self.len < MAX_STACK_DEPTH && self.overflow.len() == 0 {
            self.inline[self.len] = frame;
            self.len = self.len + 1;
        } else {
            self.overflow.push(frame);
        }
        assert(self@ =~= before.push(frame));
    }

    /// The frame on top.
    pub fn last(&self) -> (r: Option<CursorFrame<P>>)
        requires
            self.wf(),
        ensures
            r == (if self@.len() > 0 {
                Some(self@.last())
            } else {
                None
            }),
    {
        let extra: usize = self.overflow.len();
        if extra > 0 {
            Some(self.overflow[extra - 1])
        } else if self.len > 0 {
            Some(self.inline[self.len - 1])
        } else {
            None
        }
    }

    /// Sets the first byte that has not been visited in the frame on top.
    pub fn set_last_next(&mut self, next: usize)
        requires
            old(self).wf(),
            old(self)@.len() > 0,
        ensures
            final(self).wf(),
            final(self)@ == old(self)@.update(
                old(self)@.len() - 1,
                (CursorFrame { next, ..old(self)@.last() }),
            ),
    {
        let ghost before = self@;
        let extra: usize = self.overflow.len();
        if extra > 0 {
            let top = self.overflow[extra - 1];
            self.overflow[extra - 1] = CursorFrame { node: top.node, next, path: top.path };
        } else {
            let top = self.inline[self.len - 1];
            self.inline[self.len - 1] = CursorFrame { node: top.node, next, path: top.path };
        }
        assert(self@ =~= before.update(
            before.len() - 1,
            CursorFrame { next, ..before.last() },
        ));
    }

    /// Takes the frame on top away.
    pub fn pop(&mut self) -> (r: Option<CursorFrame<P>>)
        requires
            old(self).wf(),
        ensures
            final(self).wf(),
            old(self)@.len() > 0 ==> r == Some(old(self)@.last()) && final(self)@ == old(
                self,
            )@.drop_last(),
            old(self)@.len() == 0 ==> r is None && final(self)@ == old(self)@,
    {
        let ghost before = self@;
        let r = match self.overflow.pop() {
            Some(frame) => Some(frame),
            None => {
                if self.len > 0 {
                    self.len = self.len - 1;
                    Some(self.inline[self.len])
                } else {
                    None
                }
            },
        };
        proof {
            if before.len() > 0 {
                assert(self@ =~= before.drop_last());
            } else {
                assert(self@ =~= before);
            }
        }
        r
    }

    /// Takes all frames away.
    pub fn clear(&mut self)
        requires
            old(self).wf(),
        ensures
            final(self).wf(),
            final(self)@ == Seq::<CursorFrame<P>>::empty(),
    {
        self.len = 0;
        self.overflow.clear();
        assert(self@ =~= Seq::<CursorFrame<P>>::empty());
    }
}

/// A copy of a key that needs no allocation while the key is short.
pub struct KeyBuf {
    inline: [u8; 64],
    len: usize,
    overflow: Vec<u8>,
}

impl View for KeyBuf {
    type V = Seq<u8>;

    closed spec fn view(&self) -> Seq<u8> {
        if self.len > 0 {
            self.inline@.take(self.len as int)
        } else {
            self.overflow@
        }
    }
}

impl KeyBuf {
    /// The inline length is within the inline part.
    pub closed spec fn wf(&self) -> bool {
        self.len <= INLINE_KEY_BUF
    }

    /// An empty copy.
    pub fn new() -> (buf: Self)
        ensures
            buf.wf(),
            buf@ == Seq::<u8>::empty(),
    {
        let buf = KeyBuf { inline: [0u8; 64], len: 0, overflow: Vec::new() };
        assert(buf@ =~= Seq::<u8>::empty());
        buf
    }

    /// Copies `bytes`.
    pub fn set(&mut self, bytes: &[u8])
        ensures
            final(self).wf(),
            final(self)@ == bytes@,
    {
        let n: usize = bytes.len();
        self.overflow.clear();
        if n <= INLINE_KEY_BUF {
            let mut i: usize = 0;
            while i < n
                invariant
                    i <= n == bytes@.len(),
                    n <= 64,
                    self.overflow@ == Seq::<u8>::empty(),
                    forall|j: int| 0 <= j < i ==> self.inline@[j] == bytes@[j],
                decreases n - i,
            {
                self.inline[i] = bytes[i];
                i = i + 1;
            }
            self.len = n;
        } else {
            self.len = 0;
            let mut i: usize = 0;
            while i < n
                invariant
                    i <= n == bytes@.len(),
                    self.len == 0,
                    self.overflow@ == bytes@.take(i as int),
                decreases n - i,
            {
                self.overflow.push(bytes[i]);
                i = i + 1;
                assert(self.overflow@ =~= bytes@.take(i as int));
            }
        }
        assert(self@ =~= bytes@);
    }

    /// The copy.
    pub fn get(&self) -> (bytes: &[u8])
        requires
            self.wf(),
        ensures
            bytes@ == self@,
    {
        if self.len > 0 {
            let whole: &[u8] = self.inline.as_slice();
            let r = &whole[0..self.len];
            assert(r@ =~= self@);
            r
        } else {
            self.overflow.as_slice()
        }
    }
}

/// The bytes that lead to the node of a frame and through its prefix.
pub open spec fn stem_of<P: Link, L: Keyed>(t: &Trie<P, L>, frame: CursorFrame<P>) -> Seq<u8> {
    frame.path@ + t.outline().node(frame.path@)->prefix
}

/// The path of the last child that was visited in a frame.
pub open spec fn visited<P: Link, L: Keyed>(t: &Trie<P, L>, frame: CursorFrame<P>) -> Seq<u8> {
    shape::child_path(
        frame.path@,
        t.outline().node(frame.path@)->prefix,
        (frame.next - 1) as u8,
    )
}

/// A frame is at an inner node of the tree.
pub open spec fn frame_ok<P: Link, L: Keyed>(t: &Trie<P, L>, frame: CursorFrame<P>) -> bool {
    &&& t.outline().at.contains_key(frame.path@)
    &&& t.outline().at[frame.path@] == frame.node
    &&& t.outline().node(frame.path@) is Inner
    &&& frame.next <= 256
}

/// Each frame is at the child that was visited last in the frame below it.
pub open spec fn chain_ok<P: Link, L: Keyed>(t: &Trie<P, L>, frames: Seq<CursorFrame<P>>) -> bool {
    &&& forall|i: int| 0 <= i < frames.len() ==> frame_ok(t, #[trigger] frames[i])
    &&& frames.len() > 0 ==> frames[0].path@ == Seq::<u8>::empty()
    &&& forall|i: int| 0 <= i < frames.len() - 1 ==> #[trigger] follows(t, frames, i)
}

/// The frame above frame `i` is at the child that was visited last in it.
pub open spec fn follows<P: Link, L: Keyed>(
    t: &Trie<P, L>,
    frames: Seq<CursorFrame<P>>,
    i: int,
) -> bool {
    &&& frames[i].next > 0
    &&& frames[i + 1].path@ == visited(t, frames[i])
}

/// The key goes through the frame: it ends at the node, or goes on with the child that was
/// visited last.
pub open spec fn on_way<P: Link, L: Keyed>(
    t: &Trie<P, L>,
    frame: CursorFrame<P>,
    key: Seq<u8>,
) -> bool {
    let stem = stem_of(t, frame);
    &&& order::extends(key, stem)
    &&& frame.next == 0 ==> key == stem
    &&& frame.next > 0 ==> key.len() > stem.len() && key[stem.len() as int] == frame.next - 1
}

/// What comes after the key, be it a key or a node, is not behind the child that was visited
/// last.
pub open spec fn spent<P: Link, L: Keyed>(
    t: &Trie<P, L>,
    frame: CursorFrame<P>,
    key: Seq<u8>,
) -> bool {
    frame.next > 0 ==> {
        &&& forall|k: Seq<u8>| #[trigger]
            t.keys().contains_key(k) && order::lex_lt(key, k) ==> !order::extends(
                k,
                visited(t, frame),
            )
        &&& forall|q: Seq<u8>| #[trigger]
            t.outline().at.contains_key(q) && order::lex_lt(key, q) ==> !order::extends(
                q,
                visited(t, frame),
            )
    }
}

/// A node without a leaf and without children stands at `q`.
pub open spec fn barren<P: Link, L: Keyed>(t: &Trie<P, L>, q: Seq<u8>) -> bool {
    &&& t.outline().at.contains_key(q)
    &&& t.outline().node(q) matches Cell::Inner { prefix, exact, kids } && exact.absent()
        && sorted::no_next_child(kids, 0)
}

/// The first that stands under `path` is the barren node at `q`: all keys under `path` come
/// after it.
pub open spec fn blocked<P: Link, L: Keyed>(t: &Trie<P, L>, path: Seq<u8>, q: Seq<u8>) -> bool {
    &&& barren(t, q)
    &&& order::extends(q, path)
    &&& forall|k: Seq<u8>| #[trigger]
        t.keys().contains_key(k) && order::extends(k, path) ==> order::lex_lt(q, k)
}

/// The first that stands after `key` is the barren node at `q`: all keys after `key` come after
/// it.
pub open spec fn blocked_after<P: Link, L: Keyed>(
    t: &Trie<P, L>,
    key: Seq<u8>,
    q: Seq<u8>,
) -> bool {
    &&& barren(t, q)
    &&& order::lex_lt(key, q)
    &&& forall|k: Seq<u8>| #[trigger]
        t.keys().contains_key(k) && order::lex_lt(key, k) ==> order::lex_lt(q, k)
}

/// The tree has no key after `key`.
pub open spec fn nothing_after<P: Link, L: Keyed>(t: &Trie<P, L>, key: Seq<u8>) -> bool {
    forall|k: Seq<u8>| #[trigger] t.keys().contains_key(k) ==> !order::lex_lt(key, k)
}

/// The frames are the way to the leaf of the key.
pub open spec fn stack_ok<P: Link, L: Keyed>(
    t: &Trie<P, L>,
    frames: Seq<CursorFrame<P>>,
    key: Seq<u8>,
) -> bool {
    &&& chain_ok(t, frames)
    &&& frames.len() > 0 ==> on_way(t, frames.last(), key) && spent(t, frames.last(), key)
}

/// A key that comes after `key` and lies under a frame on the way to `key` is behind a child
/// that was not visited.
proof fn lemma_after_in_frame<P: Link, L: Keyed>(
    t: &Trie<P, L>,
    frame: CursorFrame<P>,
    key: Seq<u8>,
    k: Seq<u8>,
)
    requires
        t.wf(),
        frame_ok(t, frame),
        on_way(t, frame, key),
        spent(t, frame, key),
        t.keys().contains_key(k),
        order::lex_lt(key, k),
        order::extends(k, frame.path@),
    ensures
        shape::beyond(k, stem_of(t, frame)),
        k[stem_of(t, frame).len() as int] >= frame.next,
        t.outline().node(frame.path@)->kids.contains_key(k[stem_of(t, frame).len() as int]),
{
    let o = t.outline();
    let path = frame.path@;
    let stem = stem_of(t, frame);
    if let Cell::Inner { prefix, exact, kids } = o.node(path) {
        assert(o.key_routes(path, k));
        if k.len() == stem.len() {
            assert(k =~= stem);
            order::lemma_lex_extends(key, stem);
            order::lemma_lex_asymmetric(key, k);
        } else {
            let c = k[stem.len() as int];
            shape::lemma_kid(o, path, prefix, exact, kids, c);
            if frame.next > 0 {
                let b = (frame.next - 1) as u8;
                if c < b {
                    seek::lemma_branch_order(k, key, stem);
                    order::lemma_lex_asymmetric(key, k);
                } else if c == b {
                    shape::lemma_through_child(k, path, prefix);
                }
            }
        }
    }
}

/// A node that comes after `key` and lies under a frame on the way to `key` is behind a child
/// that was not visited.
proof fn lemma_node_after_in_frame<P: Link, L: Keyed>(
    t: &Trie<P, L>,
    frame: CursorFrame<P>,
    key: Seq<u8>,
    q: Seq<u8>,
)
    requires
        t.wf(),
        frame_ok(t, frame),
        on_way(t, frame, key),
        spent(t, frame, key),
        t.outline().at.contains_key(q),
        order::lex_lt(key, q),
        order::extends(q, frame.path@),
    ensures
        shape::beyond(q, stem_of(t, frame)),
        q[stem_of(t, frame).len() as int] >= frame.next,
        t.outline().node(frame.path@)->kids.contains_key(q[stem_of(t, frame).len() as int]),
{
    let o = t.outline();
    let path = frame.path@;
    let stem = stem_of(t, frame);
    if let Cell::Inner { prefix, exact, kids } = o.node(path) {
        assert(o.node_ok(path));
        shape::lemma_child_path(path, prefix, 0);
        if q.len() == path.len() {
            assert(q =~= path);
            order::lemma_extends_transitive(key, stem, path);
            order::lemma_lex_extends(key, path);
        } else {
            assert(o.routes(path, q));
            let c = q[stem.len() as int];
            shape::lemma_kid(o, path, prefix, exact, kids, c);
            if frame.next > 0 {
                let b = (frame.next - 1) as u8;
                if c < b {
                    seek::lemma_branch_order(q, key, stem);
                    order::lemma_lex_asymmetric(key, q);
                } else if c == b {
                    shape::lemma_through_child(q, path, prefix);
                }
            }
        }
    }
}

/// No node under a leaf comes after its key.
proof fn lemma_nothing_behind_leaf<P: Link, L: Keyed>(t: &Trie<P, L>, path: Seq<u8>, key: Seq<u8>)
    requires
        t.wf(),
        t.outline().at.contains_key(path),
        t.outline().node(path) is Leaf,
        order::extends(key, path),
    ensures
        forall|q: Seq<u8>| #[trigger]
            t.outline().at.contains_key(q) && order::extends(q, path) ==> q == path
                && !order::lex_lt(key, q),
{
    let o = t.outline();
    order::lemma_lex_extends(key, path);
    assert forall|q: Seq<u8>| #[trigger]
        o.at.contains_key(q) && order::extends(q, path) implies q == path && !order::lex_lt(
        key,
        q,
    ) by {
        assert(o.routes(path, q));
        assert(q =~= path);
    }
}

/// No key lies behind a barren node.
proof fn lemma_barren<P: Link, L: Keyed>(t: &Trie<P, L>, q: Seq<u8>, k: Seq<u8>)
    requires
        t.wf(),
        barren(t, q),
        t.keys().contains_key(k),
    ensures
        !order::extends(k, q),
{
    let o = t.outline();
    assert(o.key_routes(q, k));
    if order::extends(k, q) {
        if let Cell::Inner { prefix, exact, kids } = o.node(q) {
            let stem = q + prefix;
            if k.len() > stem.len() {
                shape::lemma_kid(o, q, prefix, exact, kids, k[stem.len() as int]);
            }
        }
    }
}

/// Where the next child of a frame leads to a leaf, no barren node stands between.
proof fn lemma_next_not_blocked<P: Link, L: Keyed>(
    t: &Trie<P, L>,
    frame: CursorFrame<P>,
    key: Seq<u8>,
    byte: u8,
    found: Seq<u8>,
    q: Seq<u8>,
)
    requires
        t.wf(),
        frame_ok(t, frame),
        on_way(t, frame, key),
        spent(t, frame, key),
        sorted::is_next_child(t.outline().node(frame.path@)->kids, frame.next as int, byte),
        t.keys().contains_key(found),
        order::lex_lt(key, found),
        order::extends(
            found,
            shape::child_path(frame.path@, t.outline().node(frame.path@)->prefix, byte),
        ),
        forall|k: Seq<u8>| #[trigger]
            t.keys().contains_key(k) && order::extends(
                k,
                shape::child_path(frame.path@, t.outline().node(frame.path@)->prefix, byte),
            ) ==> order::lex_le(found, k),
        !blocked(
            t,
            shape::child_path(frame.path@, t.outline().node(frame.path@)->prefix, byte),
            q,
        ),
    ensures
        !blocked_after(t, key, q),
{
    let o = t.outline();
    let path = frame.path@;
    let stem = stem_of(t, frame);
    if blocked_after(t, key, q) {
        if let Cell::Inner { prefix, exact, kids } = o.node(path) {
            let down = shape::child_path(path, prefix, byte);
            assert(order::lex_lt(q, found));
            order::lemma_lex_asymmetric(q, found);
            shape::lemma_below_child(found, path, prefix, byte);
            shape::lemma_child_path(path, prefix, byte);
            if order::extends(q, path) {
                lemma_node_after_in_frame(t, frame, key, q);
                let c = q[stem.len() as int];
                if c == byte {
                    shape::lemma_through_child(q, path, prefix);
                    assert forall|k: Seq<u8>| #[trigger]
                        t.keys().contains_key(k) && order::extends(k, down) implies order::lex_lt(
                        q,
                        k,
                    ) by {
                        order::lemma_lex_le_transitive(q, found, k);
                    }
                } else {
                    seek::lemma_branch_order(found, q, stem);
                }
            } else {
                order::lemma_extends_transitive(key, stem, path);
                order::lemma_extends_transitive(found, down, path);
                order::lemma_lex_total(path, q);
                if order::lex_lt(q, path) {
                    order::lemma_lex_prefix_decides(key, path, q);
                    order::lemma_lex_asymmetric(q, key);
                } else {
                    order::lemma_lex_prefix_decides(found, path, q);
                }
            }
        }
    }
}

/// The first key behind the next child of a frame comes before everything else that comes after
/// `key`.
proof fn lemma_next_in_frame<P: Link, L: Keyed>(
    t: &Trie<P, L>,
    frame: CursorFrame<P>,
    key: Seq<u8>,
    byte: u8,
    found: Seq<u8>,
)
    requires
        t.wf(),
        frame_ok(t, frame),
        on_way(t, frame, key),
        spent(t, frame, key),
        sorted::is_next_child(t.outline().node(frame.path@)->kids, frame.next as int, byte),
        order::extends(
            found,
            shape::child_path(frame.path@, t.outline().node(frame.path@)->prefix, byte),
        ),
        forall|k: Seq<u8>| #[trigger]
            t.keys().contains_key(k) && order::extends(
                k,
                shape::child_path(frame.path@, t.outline().node(frame.path@)->prefix, byte),
            ) ==> order::lex_le(found, k),
    ensures
        order::lex_lt(key, found),
        forall|k: Seq<u8>| #[trigger]
            t.keys().contains_key(k) && order::lex_lt(key, k) ==> order::lex_le(found, k),
{
    let o = t.outline();
    let path = frame.path@;
    let stem = stem_of(t, frame);
    if let Cell::Inner { prefix, exact, kids } = o.node(path) {
        shape::lemma_below_child(found, path, prefix, byte);
        shape::lemma_child_path(path, prefix, byte);
        if frame.next == 0 {
            order::lemma_lex_extends(found, stem);
        } else {
            seek::lemma_branch_order(key, found, stem);
        }
        order::lemma_extends_transitive(key, stem, path);
        assert forall|k: Seq<u8>| #[trigger]
            t.keys().contains_key(k) && order::lex_lt(key, k) implies order::lex_le(found, k) by {
            if order::extends(k, path) {
                lemma_after_in_frame(t, frame, key, k);
                let c = k[stem.len() as int];
                if c == byte {
                    shape::lemma_through_child(k, path, prefix);
                } else {
                    seek::lemma_branch_order(found, k, stem);
                }
            } else {
                order::lemma_lex_total(path, k);
                assert(order::lex_lt(path, k)) by {
                    if order::lex_lt(k, path) {
                        order::lemma_lex_prefix_decides(key, path, k);
                        order::lemma_lex_asymmetric(k, key);
                    }
                }
                order::lemma_lex_prefix_decides(found, path, k);
            }
        }
    }
}

/// Descends to the first leaf of the subtree at `path`, and pushes the nodes on the way.
///
/// Returns `None` if and only if the way ends at a node without leaf and children; the stack is
/// then of no use.
fn push_and_descend_left<P: Link, L: Keyed>(
    trie: &Trie<P, L>,
    stack: &mut FrameStack<P>,
    link: P,
    Ghost(path): Ghost<Seq<u8>>,
) -> (r: Option<P>)
    requires
        trie.wf(),
        old(stack).wf(),
        trie.outline().at.contains_key(path),
        trie.outline().at[path] == link,
        chain_ok(trie, old(stack)@),
        old(stack)@.len() > 0 ==> old(stack)@.last().next > 0 && visited(trie, old(stack)@.last())
            == path,
        old(stack)@.len() == 0 ==> path == Seq::<u8>::empty(),
    ensures
        final(stack).wf(),
        r matches Some(leaf) ==> {
            &&& trie.least(seek::under(path), r)
            &&& stack_ok(trie, final(stack)@, trie.key_at(leaf))
        },
        r is None <==> exists|q: Seq<u8>| blocked(trie, path, q),
{
    let ghost o = trie.outline();
    let ghost mut cur: Seq<u8> = path;
    let mut link: P = link;
    proof {
        order::lemma_extends_transitive(path, path, path);
    }
    loop
        invariant
            trie.wf(),
            o == trie.outline(),
            stack.wf(),
            o.at.contains_key(cur),
            o.at[cur] == link,
            chain_ok(trie, stack@),
            stack@.len() > 0 ==> stack@.last().next > 0 && visited(trie, stack@.last()) == cur,
            stack@.len() == 0 ==> cur == Seq::<u8>::empty(),
            order::extends(cur, path),
            forall|k: Seq<u8>, s: Seq<u8>|
                #![trigger trie.keys().contains_key(k), order::extends(s, cur)]
                trie.keys().contains_key(k) && order::extends(k, path) && !order::extends(k, cur)
                    && order::extends(s, cur) ==> order::lex_lt(s, k),
            forall|q: Seq<u8>, s: Seq<u8>|
                #![trigger barren(trie, q), order::extends(s, cur)]
                barren(trie, q) && order::extends(q, path) && !order::extends(q, cur)
                    && order::extends(s, cur) ==> order::lex_lt(s, q),
        decreases o.height - cur.len(),
    {
        proof {
            assert(o.node_ok(cur));
        }
        if link.has_leaf_tag() {
            proof {
                trie.lemma_under_leaf(cur);
                let key = trie.key_at(link);
                order::lemma_extends_transitive(key, cur, path);
                if stack@.len() > 0 {
                    let top = stack@.last();
                    assert(frame_ok(trie, stack@[stack@.len() - 1]));
                    shape::lemma_below_child(
                        key,
                        top.path@,
                        o.node(top.path@)->prefix,
                        (top.next - 1) as u8,
                    );
                    assert forall|k: Seq<u8>| #[trigger]
                        trie.keys().contains_key(k) && order::lex_lt(key, k) implies !order::extends(
                        k,
                        visited(trie, top),
                    ) by {
                        if order::extends(k, cur) {
                            order::lemma_lex_irreflexive(key);
                        }
                    }
                }
                lemma_nothing_behind_leaf(trie, cur, key);
                assert forall|q: Seq<u8>| !blocked(trie, path, q) by {
                    if blocked(trie, path, q) {
                        assert(order::lex_lt(q, key));
                        order::lemma_lex_asymmetric(q, key);
                        if order::extends(q, cur) {
                            assert(q == cur);
                        }
                    }
                }
                assert forall|k: Seq<u8>| #[trigger]
                    trie.keys().contains_key(k) && seek::under(path).contains(k) implies order::lex_le(
                    key,
                    k,
                ) by {
                    if !order::extends(k, cur) {
                        assert(order::lex_lt(key, k));
                    }
                }
            }
            return Some(link);
        }
        let inner = trie.inner(link);
        let ghost prefix = inner.prefix();
        let ghost stem = cur + prefix;
        let ghost exact = inner.exact();
        let ghost kids = inner.kids();
        proof {
            assert(o.node(cur) == trie::cell_of(trie.slots@[link.slot() as int]));
            trie.lemma_under_inner(cur, prefix, exact, kids);
            shape::lemma_child_path(cur, prefix, 0);
        }
        if let Some(leaf) = inner.header().load_exact_leaf() {
            let frame = CursorFrame { node: link, next: 0, path: Ghost(cur) };
            proof {
                lemma_chain_pushed(trie, stack@, frame);
            }
            stack.push(frame);
            proof {
                order::lemma_extends_transitive(stem, cur, path);
                assert forall|k: Seq<u8>| #[trigger]
                    trie.keys().contains_key(k) && seek::under(path).contains(k) implies order::lex_le(
                    stem,
                    k,
                ) by {
                    if order::extends(k, cur) {
                        order::lemma_lex_extends(k, stem);
                    } else {
                        assert(order::lex_lt(stem, k));
                    }
                }
                assert forall|q: Seq<u8>| !blocked(trie, path, q) by {
                    if blocked(trie, path, q) {
                        assert(order::lex_lt(q, stem));
                        order::lemma_lex_asymmetric(q, stem);
                        if order::extends(q, cur) {
                            if q.len() == cur.len() {
                                assert(q =~= cur);
                            }
                            assert(o.routes(cur, q));
                            order::lemma_lex_extends(q, stem);
                        }
                    }
                }
            }
            return Some(leaf);
        }
        match inner.next_child_in_node(0) {
            None => {
                proof {
                    assert(barren(trie, cur));
                    assert forall|k: Seq<u8>| #[trigger]
                        trie.keys().contains_key(k) && order::extends(
                            k,
                            path,
                        ) implies order::lex_lt(cur, k) by {
                        lemma_barren(trie, cur, k);
                        order::lemma_extends_transitive(stem, cur, cur);
                    }
                    assert(blocked(trie, path, cur));
                }
                return None;
            },
            Some((byte, child)) => {
                let frame = CursorFrame {
                    node: link,
                    next: byte as usize + 1,
                    path: Ghost(cur),
                };
                proof {
                    lemma_chain_pushed(trie, stack@, frame);
                }
                stack.push(frame);
                let ghost down = shape::child_path(cur, prefix, byte);
                proof {
                    shape::lemma_kid(o, cur, prefix, exact, kids, byte);
                    shape::lemma_child_path(cur, prefix, byte);
                    order::lemma_extends_transitive(down, cur, path);
                    assert(o.node_ok(down));
                    assert forall|k: Seq<u8>, s: Seq<u8>|
                        #![trigger trie.keys().contains_key(k), order::extends(s, down)]
                        trie.keys().contains_key(k) && order::extends(k, path) && !order::extends(
                            k,
                            down,
                        ) && order::extends(s, down) implies order::lex_lt(s, k) by {
                        shape::lemma_below_child(s, cur, prefix, byte);
                        if order::extends(k, cur) {
                            let c = k[stem.len() as int];
                            if c == byte {
                                shape::lemma_through_child(k, cur, prefix);
                            }
                            seek::lemma_branch_order(s, k, stem);
                        } else {
                            order::lemma_extends_transitive(s, down, cur);
                        }
                    }
                    assert forall|q: Seq<u8>, s: Seq<u8>|
                        #![trigger barren(trie, q), order::extends(s, down)]
                        barren(trie, q) && order::extends(q, path) && !order::extends(q, down)
                            && order::extends(s, down) implies order::lex_lt(s, q) by {
                        shape::lemma_below_child(s, cur, prefix, byte);
                        if order::extends(q, cur) {
                            if q.len() == cur.len() {
                                assert(q =~= cur);
                            }
                            assert(o.routes(cur, q));
                            let c = q[stem.len() as int];
                            shape::lemma_kid(o, cur, prefix, exact, kids, c);
                            if c == byte {
                                shape::lemma_through_child(q, cur, prefix);
                            }
                            seek::lemma_branch_order(s, q, stem);
                        } else {
                            order::lemma_extends_transitive(s, down, cur);
                        }
                    }
                    cur = down;
                }
                link = child;
            },
        }
    }
}

/// One more frame at the child that was visited last keeps the chain.
proof fn lemma_chain_pushed<P: Link, L: Keyed>(
    t: &Trie<P, L>,
    below: Seq<CursorFrame<P>>,
    frame: CursorFrame<P>,
)
    requires
        chain_ok(t, below),
        frame_ok(t, frame),
        below.len() > 0 ==> below.last().next > 0 && visited(t, below.last()) == frame.path@,
        below.len() == 0 ==> frame.path@ == Seq::<u8>::empty(),
    ensures
        chain_ok(t, below.push(frame)),
        below.push(frame).last() == frame,
{
    let frames = below.push(frame);
    assert forall|i: int| 0 <= i < frames.len() implies frame_ok(t, #[trigger] frames[i]) by {
        if i < below.len() {
            assert(below[i] == frames[i]);
        }
    }
    assert forall|i: int| 0 <= i < frames.len() - 1 implies #[trigger] follows(t, frames, i) by {
        if i < below.len() - 1 {
            assert(follows(t, below, i));
        }
    }
}

/// Goes on from the leaf of `key`, to which the stack is the way, to the leaf that follows.
///
/// Returns `None` if and only if the stack was empty, no key follows, or the first that follows
/// is a node without leaf and children; the stack is then of no use.
fn advance_forward<P: Link, L: Keyed>(
    trie: &Trie<P, L>,
    stack: &mut FrameStack<P>,
    Ghost(key): Ghost<Seq<u8>>,
) -> (r: Option<P>)
    requires
        trie.wf(),
        old(stack).wf(),
        stack_ok(trie, old(stack)@, key),
    ensures
        final(stack).wf(),
        r matches Some(leaf) ==> {
            &&& trie.least(seek::under_after(Seq::empty(), key, false), r)
            &&& stack_ok(trie, final(stack)@, trie.key_at(leaf))
        },
        r is None <==> old(stack)@.len() == 0 || nothing_after(trie, key) || exists|q: Seq<u8>|
            blocked_after(trie, key, q),
{
    let ghost o = trie.outline();
    loop
        invariant
            trie.wf(),
            o == trie.outline(),
            stack.wf(),
            stack_ok(trie, stack@, key),
            stack@.len() > 0 ==> old(stack)@.len() > 0,
            stack@.len() == 0 ==> old(stack)@.len() == 0 || nothing_after(trie, key),
        decreases stack@.len(),
    {
        match stack.last() {
            None => {
                return None;
            },
            Some(frame) => {
                let ghost path = frame.path@;
                let ghost frames = stack@;
                proof {
                    assert(frame_ok(trie, stack@[stack@.len() - 1]));
                    assert(o.node_ok(path));
                }
                let inner = trie.inner(frame.node);
                let ghost prefix = inner.prefix();
                let ghost exact = inner.exact();
                let ghost kids = inner.kids();
                proof {
                    assert(o.node(path) == trie::cell_of(trie.slots@[frame.node.slot() as int]));
                }
                match inner.next_child_in_node(frame.next) {
                    Some((byte, child)) => {
                        let ghost down = shape::child_path(path, prefix, byte);
                        stack.set_last_next(byte as usize + 1);
                        proof {
                            shape::lemma_kid(o, path, prefix, exact, kids, byte);
                            let top = CursorFrame { next: (byte + 1) as usize, ..frame };
                            lemma_chain_popped(trie, frames);
                            lemma_chain_pushed(trie, frames.drop_last(), top);
                            assert(stack@ =~= frames.drop_last().push(top));
                        }
                        let r = push_and_descend_left(trie, stack, child, Ghost(down));
                        proof {
                            if r is Some {
                                let found = trie.key_at(r->0);
                                assert forall|k: Seq<u8>| #[trigger]
                                    trie.keys().contains_key(k) && order::extends(
                                        k,
                                        down,
                                    ) implies order::lex_le(found, k) by {
                                    assert(seek::under(down).contains(k));
                                }
                                lemma_next_in_frame(trie, frame, key, byte, found);
                                assert(order::extends(found, Seq::<u8>::empty()));
                                assert forall|q: Seq<u8>| !blocked_after(trie, key, q) by {
                                    assert(!blocked(trie, down, q));
                                    lemma_next_not_blocked(trie, frame, key, byte, found, q);
                                }
                            } else {
                                let q = choose|q: Seq<u8>| blocked(trie, down, q);
                                lemma_next_in_frame(trie, frame, key, byte, q);
                                assert forall|k: Seq<u8>| #[trigger]
                                    trie.keys().contains_key(k) && order::lex_lt(
                                        key,
                                        k,
                                    ) implies order::lex_lt(q, k) by {
                                    lemma_barren(trie, q, k);
                                }
                                assert(blocked_after(trie, key, q));
                            }
                        }
                        return r;
                    },
                    None => {
                        let _ = stack.pop();
                        proof {
                            lemma_chain_popped(trie, frames);
                            if stack@.len() > 0 {
                                let lower = stack@.last();
                                assert(frame_ok(trie, stack@[stack@.len() - 1]));
                                shape::lemma_child_path(path, prefix, 0);
                                order::lemma_extends_transitive(key, stem_of(trie, frame), path);
                                shape::lemma_below_child(
                                    key,
                                    lower.path@,
                                    o.node(lower.path@)->prefix,
                                    (lower.next - 1) as u8,
                                );
                                assert forall|k: Seq<u8>| #[trigger]
                                    trie.keys().contains_key(k) && order::lex_lt(
                                        key,
                                        k,
                                    ) implies !order::extends(k, visited(trie, lower)) by {
                                    if order::extends(k, path) {
                                        lemma_after_in_frame(trie, frame, key, k);
                                    }
                                }
                                assert forall|q: Seq<u8>| #[trigger]
                                    o.at.contains_key(q) && order::lex_lt(
                                        key,
                                        q,
                                    ) implies !order::extends(q, visited(trie, lower)) by {
                                    if order::extends(q, path) {
                                        lemma_node_after_in_frame(trie, frame, key, q);
                                    }
                                }
                            } else {
                                assert forall|k: Seq<u8>| #[trigger]
                                    trie.keys().contains_key(k) implies !order::lex_lt(key, k) by {
                                    if order::lex_lt(key, k) {
                                        lemma_after_in_frame(trie, frame, key, k);
                                    }
                                }
                            }
                        }
                    },
                }
            },
        }
    }
}

/// One frame less keeps the chain.
proof fn lemma_chain_popped<P: Link, L: Keyed>(t: &Trie<P, L>, frames: Seq<CursorFrame<P>>)
    requires
        chain_ok(t, frames),
        frames.len() > 0,
    ensures
        chain_ok(t, frames.drop_last()),
        frames.len() > 1 ==> {
            let lower = frames.drop_last().last();
            &&& lower.next > 0
            &&& visited(t, lower) == frames.last().path@
        },
        frames.len() == 1 ==> frames.last().path@ == Seq::<u8>::empty(),
{
    let rest = frames.drop_last();
    assert forall|i: int| 0 <= i < rest.len() implies frame_ok(t, #[trigger] rest[i]) by {
        assert(frame_ok(t, frames[i]));
    }
    assert forall|i: int| 0 <= i < rest.len() - 1 implies #[trigger] follows(t, rest, i) by {
        assert(follows(t, frames, i));
    }
    if frames.len() > 1 {
        assert(follows(t, frames, frames.len() - 2));
    }
}

/// Makes the stack the way to the leaf of `target_key`.
fn seek_to_key<P: Link, L: Keyed>(
    trie: &Trie<P, L>,
    stack: &mut FrameStack<P>,
    target_key: &[u8],
)
    requires
        trie.wf(),
        old(stack).wf(),
        trie.keys().contains_key(target_key@),
    ensures
        final(stack).wf(),
        stack_ok(trie, final(stack)@, target_key@),
{
    let ghost o = trie.outline();
    let ghost key = target_key@;
    let len: usize = target_key.len();
    stack.clear();
    if trie.root.is_nil() {
        return;
    }
    let mut current: P = trie.root;
    let mut depth: usize = 0;
    proof {
        assert(key.take(0) =~= Seq::<u8>::empty());
    }
    while !current.has_leaf_tag()
        invariant
            trie.wf(),
            o == trie.outline(),
            key == target_key@,
            trie.keys().contains_key(key),
            stack.wf(),
            depth <= key.len() == len,
            o.at.contains_key(key.take(depth as int)),
            o.at[key.take(depth as int)] == current,
            chain_ok(trie, stack@),
            stack@.len() > 0 ==> stack@.last().next > 0 && visited(trie, stack@.last())
                == key.take(depth as int),
            stack@.len() == 0 ==> key.take(depth as int) == Seq::<u8>::empty(),
        decreases len - depth,
    {
        let ghost q = key.take(depth as int);
        proof {
            assert(o.node_ok(q));
            assert(o.key_routes(q, key));
            assert(order::extends(key, q));
        }
        let inner = trie.inner(current);
        let ghost prefix = inner.prefix();
        proof {
            assert(o.node(q) == trie::cell_of(trie.slots@[current.slot() as int]));
        }
        let stem: usize = depth + inner.header().prefix_slice().len();
        if stem == len {
            let frame = CursorFrame { node: current, next: 0, path: Ghost(q) };
            proof {
                lemma_chain_pushed(trie, stack@, frame);
            }
            stack.push(frame);
            proof {
                assert(q + prefix =~= key);
            }
            return;
        }
        let byte: u8 = target_key[stem];
        proof {
            shape::lemma_kid(o, q, prefix, inner.exact(), inner.kids(), byte);
            assert(key.take(stem as int + 1) =~= shape::child_path(q, prefix, byte));
        }
        match inner.find_child(byte) {
            Some(child) => {
                let frame = CursorFrame {
                    node: current,
                    next: byte as usize + 1,
                    path: Ghost(q),
                };
                proof {
                    lemma_chain_pushed(trie, stack@, frame);
                }
                stack.push(frame);
                current = child;
                depth = stem + 1;
            },
            None => {
                vstd::pervasive::unreached::<()>();
                return;
            },
        }
    }
    proof {
        let q = key.take(depth as int);
        assert(o.node_ok(q));
        assert(o.key_routes(q, key));
        assert(o.keyed(key));
        trie.lemma_under_leaf(q);
        if stack@.len() > 0 {
            let top = stack@.last();
            assert(frame_ok(trie, stack@[stack@.len() - 1]));
            assert(order::extends(key, q));
            shape::lemma_below_child(
                key,
                top.path@,
                o.node(top.path@)->prefix,
                (top.next - 1) as u8,
            );
            assert forall|k: Seq<u8>| #[trigger]
                trie.keys().contains_key(k) && order::lex_lt(key, k) implies !order::extends(
                k,
                visited(trie, top),
            ) by {
                if order::extends(k, q) {
                    order::lemma_lex_irreflexive(key);
                }
            }
            lemma_nothing_behind_leaf(trie, q, key);
        }
    }
}

/// Walks over the leaves in a range of keys, from both ends.
pub struct Cursor<'a, P, L> {
    trie: &'a Trie<P, L>,
    start_bound: Bound<Vec<u8>>,
    end_bound: Bound<Vec<u8>>,
    stack: FrameStack<P>,
    cursor_front: KeyBuf,
    cursor_back: KeyBuf,
    has_front: bool,
    has_back: bool,
    exhausted: bool,
}

impl<'a, P: Link, L: Keyed> Cursor<'a, P, L> {
    /// The tree.
    pub closed spec fn source(&self) -> Trie<P, L> {
        *self.trie
    }

    /// The lower end of what is left: the start of the range, or the last key from the front.
    pub closed spec fn lo(&self) -> Bound<Seq<u8>> {
        if self.has_front {
            Bound::Excluded(self.cursor_front@)
        } else {
            bound::viewed(self.start_bound)
        }
    }

    /// The upper end of what is left: the end of the range, or the last key from the back.
    pub closed spec fn hi(&self) -> Bound<Seq<u8>> {
        if self.has_back {
            Bound::Excluded(self.cursor_back@)
        } else {
            bound::viewed(self.end_bound)
        }
    }

    /// The keys that are left.
    pub open spec fn remaining(&self) -> Set<Seq<u8>> {
        Set::new(
            |k: Seq<u8>|
                self.source().keys().contains_key(k) && bound::in_range(k, self.lo(), self.hi()),
        )
    }

    /// The stack is the way to the last leaf from the front, and an exhausted cursor has nothing
    /// left.
    pub closed spec fn wf(&self) -> bool {
        &&& self.trie.wf()
        &&& self.stack.wf()
        &&& self.cursor_front.wf()
        &&& self.cursor_back.wf()
        &&& self.has_front && !self.exhausted ==> stack_ok(
            self.trie,
            self.stack@,
            self.cursor_front@,
        )
        &&& self.exhausted ==> forall|k: Seq<u8>| #[trigger]
            self.trie.keys().contains_key(k) ==> !bound::in_range(k, self.lo(), self.hi())
    }

    /// The keys that are left are finitely many.
    pub proof fn lemma_remaining_finite(&self)
        requires
            self.wf(),
        ensures
            self.remaining().finite(),
            self.source().wf(),
    {
        assert(self.remaining().subset_of(self.trie.keys().dom()));
        vstd::set_lib::lemma_set_subset_finite(self.trie.keys().dom(), self.remaining());
    }

    /// A cursor over the keys between two bounds.
    pub fn new(
        trie: &'a Trie<P, L>,
        start_bound: Bound<Vec<u8>>,
        end_bound: Bound<Vec<u8>>,
    ) -> (cursor: Self)
        requires
            trie.wf(),
        ensures
            cursor.wf(),
            cursor.source() == *trie,
            cursor.lo() == bound::viewed(start_bound),
            cursor.hi() == bound::viewed(end_bound),
    {
        Cursor {
            trie,
            start_bound,
            end_bound,
            stack: FrameStack::new(),
            cursor_front: KeyBuf::new(),
            cursor_back: KeyBuf::new(),
            has_front: false,
            has_back: false,
            exhausted: false,
        }
    }

    /// The leaf of the least key that is not before the lower end.
    fn find_front(&mut self) -> (r: Option<P>)
        requires
            old(self).wf(),
            !old(self).exhausted,
        ensures
            final(self).stack.wf(),
            final(self).trie == old(self).trie,
            final(self).start_bound == old(self).start_bound,
            final(self).end_bound == old(self).end_bound,
            final(self).cursor_front == old(self).cursor_front,
            final(self).cursor_back == old(self).cursor_back,
            final(self).has_front == old(self).has_front,
            final(self).has_back == old(self).has_back,
            final(self).exhausted == old(self).exhausted,
            r matches Some(leaf) ==> {
                &&& final(self).trie.is_entry(leaf)
                &&& bound::from_start(final(self).trie.key_at(leaf), old(self).lo())
                &&& forall|k: Seq<u8>| #[trigger]
                    final(self).trie.keys().contains_key(k) && bound::from_start(k, old(self).lo())
                        ==> order::lex_le(final(self).trie.key_at(leaf), k)
                &&& stack_ok(
                    final(self).trie,
                    final(self).stack@,
                    final(self).trie.key_at(leaf),
                )
            },
            r is None ==> forall|k: Seq<u8>| #[trigger]
                final(self).trie.keys().contains_key(k) ==> !bound::from_start(k, old(self).lo()),
    {
        let ghost lo = self.lo();
        let ghost none = Seq::<u8>::empty();
        if self.has_front {
            let ghost last = self.cursor_front@;
            let r = advance_forward(self.trie, &mut self.stack, Ghost(last));
            if r.is_some() {
                proof {
                    assert forall|k: Seq<u8>| #[trigger]
                        self.trie.keys().contains_key(k) && bound::from_start(k, lo) implies
                        seek::under_after(none, last, false).contains(k) by {
                        assert(order::extends(k, none));
                    }
                }
                return r;
            }
        }
        let r = if self.has_front {
            self.trie.find_successor(self.cursor_front.get(), false)
        } else {
            match &self.start_bound {
                Bound::Included(k) => self.trie.find_successor(k.as_slice(), true),
                Bound::Excluded(k) => self.trie.find_successor(k.as_slice(), false),
                Bound::Unbounded => self.trie.first_leaf(),
            }
        };
        proof {
            assert forall|k: Seq<u8>| #[trigger]
                self.trie.keys().contains_key(k) implies order::extends(k, none) by {}
            match lo {
                Bound::Included(s) => {
                    assert forall|k: Seq<u8>| #[trigger]
                        self.trie.keys().contains_key(k) implies bound::from_start(k, lo)
                        == seek::under_after(none, s, true).contains(k) by {}
                },
                Bound::Excluded(s) => {
                    assert forall|k: Seq<u8>| #[trigger]
                        self.trie.keys().contains_key(k) implies bound::from_start(k, lo)
                        == seek::under_after(none, s, false).contains(k) by {}
                },
                Bound::Unbounded => {
                    assert forall|k: Seq<u8>| #[trigger]
                        self.trie.keys().contains_key(k) implies bound::from_start(k, lo)
                        == seek::under(none).contains(k) by {}
                },
            }
        }
        if let Some(leaf) = r {
            seek_to_key(self.trie, &mut self.stack, self.trie.leaf(leaf).key_slice());
        }
        r
    }

    /// The leaf of the next key from the front.
    pub fn next_leaf(&mut self) -> (r: Option<P>)
        requires
            old(self).wf(),
        ensures
            final(self).wf(),
            final(self).source() == old(self).source(),
            final(self).hi() == old(self).hi(),
            r matches Some(leaf) ==> {
                let key = old(self).source().key_at(leaf);
                &&& old(self).source().is_entry(leaf)
                &&& old(self).remaining().contains(key)
                &&& forall|k: Seq<u8>| #[trigger]
                    old(self).remaining().contains(k) ==> order::lex_le(key, k)
                &&& final(self).lo() == Bound::<Seq<u8>>::Excluded(key)
                &&& final(self).remaining() == old(self).remaining().remove(key)
            },
            r is None ==> {
                &&& old(self).remaining() == Set::<Seq<u8>>::empty()
                &&& final(self).lo() == old(self).lo()
            },
    {
        let ghost before = *self;
        if self.exhausted {
            assert(self.remaining() =~= Set::<Seq<u8>>::empty());
            return None;
        }
        let found = self.find_front();
        match found {
            None => {
                self.exhausted = true;
                assert(before.remaining() =~= Set::<Seq<u8>>::empty());
                None
            },
            Some(leaf) => {
                let ghost key = self.trie.key_at(leaf);
                let key_slice = self.trie.leaf(leaf).key_slice();
                let inside = if self.has_back {
                    match compare(key_slice, self.cursor_back.get()) {
                        Compare::Less => true,
                        _ => false,
                    }
                } else {
                    is_to_end(key_slice, &self.end_bound)
                };
                assert(inside == bound::to_end(key, before.hi()));
                if !inside {
                    self.exhausted = true;
                    proof {
                        assert forall|k: Seq<u8>| #[trigger]
                            self.trie.keys().contains_key(k) implies !bound::in_range(
                            k,
                            before.lo(),
                            before.hi(),
                        ) by {
                            if bound::in_range(k, before.lo(), before.hi()) {
                                bound::lemma_to_end_down(key, k, before.hi());
                            }
                        }
                        assert(before.remaining() =~= Set::<Seq<u8>>::empty());
                    }
                    None
                } else {
                    self.cursor_front.set(key_slice);
                    self.has_front = true;
                    proof {
                        assert forall|k: Seq<u8>| #[trigger]
                            self.remaining().contains(k) <==> before.remaining().remove(
                                key,
                            ).contains(k) by {
                            if self.remaining().contains(k) {
                                bound::lemma_from_start_up(key, k, before.lo());
                                order::lemma_lex_irreflexive(key);
                            }
                        }
                        assert(self.remaining() =~= before.remaining().remove(key));
                    }
                    Some(leaf)
                }
            },
        }
    }

    /// The leaf of the next key from the back.
    pub fn prev_leaf(&mut self) -> (r: Option<P>)
        requires
            old(self).wf(),
        ensures
            final(self).wf(),
            final(self).source() == old(self).source(),
            final(self).lo() == old(self).lo(),
            r matches Some(leaf) ==> {
                let key = old(self).source().key_at(leaf);
                &&& old(self).source().is_entry(leaf)
                &&& old(self).remaining().contains(key)
                &&& forall|k: Seq<u8>| #[trigger]
                    old(self).remaining().contains(k) ==> order::lex_le(k, key)
                &&& final(self).hi() == Bound::<Seq<u8>>::Excluded(key)
                &&& final(self).remaining() == old(self).remaining().remove(key)
            },
            r is None ==> {
                &&& old(self).remaining() == Set::<Seq<u8>>::empty()
                &&& final(self).hi() == old(self).hi()
            },
    {
        let ghost before = *self;
        let ghost hi = self.hi();
        let ghost none = Seq::<u8>::empty();
        if self.exhausted {
            assert(self.remaining() =~= Set::<Seq<u8>>::empty());
            return None;
        }
        let found = if self.has_back {
            self.trie.find_predecessor(self.cursor_back.get(), false)
        } else {
            match &self.end_bound {
                Bound::Included(k) => self.trie.find_predecessor(k.as_slice(), true),
                Bound::Excluded(k) => self.trie.find_predecessor(k.as_slice(), false),
                Bound::Unbounded => self.trie.last_leaf(),
            }
        };
        proof {
            assert forall|k: Seq<u8>| #[trigger]
                self.trie.keys().contains_key(k) implies order::extends(k, none) by {}
            match hi {
                Bound::Included(s) => {
                    assert forall|k: Seq<u8>| #[trigger]
                        self.trie.keys().contains_key(k) implies bound::to_end(k, hi)
                        == seek::under_before(none, s, true).contains(k) by {}
                },
                Bound::Excluded(s) => {
                    assert forall|k: Seq<u8>| #[trigger]
                        self.trie.keys().contains_key(k) implies bound::to_end(k, hi)
                        == seek::under_before(none, s, false).contains(k) by {}
                },
                Bound::Unbounded => {
                    assert forall|k: Seq<u8>| #[trigger]
                        self.trie.keys().contains_key(k) implies bound::to_end(k, hi)
                        == seek::under(none).contains(k) by {}
                },
            }
        }
        match found {
            None => {
                self.exhausted = true;
                assert(before.remaining() =~= Set::<Seq<u8>>::empty());
                None
            },
            Some(leaf) => {
                let ghost key = self.trie.key_at(leaf);
                let key_slice = self.trie.leaf(leaf).key_slice();
                let inside = if self.has_front {
                    match compare(self.cursor_front.get(), key_slice) {
                        Compare::Less => true,
                        _ => false,
                    }
                } else {
                    is_from_start(key_slice, &self.start_bound)
                };
                assert(inside == bound::from_start(key, before.lo()));
                if !inside {
                    self.exhausted = true;
                    proof {
                        assert forall|k: Seq<u8>| #[trigger]
                            self.trie.keys().contains_key(k) implies !bound::in_range(
                            k,
                            before.lo(),
                            before.hi(),
                        ) by {
                            if bound::in_range(k, before.lo(), before.hi()) {
                                bound::lemma_from_start_up(k, key, before.lo());
                            }
                        }
                        assert(before.remaining() =~= Set::<Seq<u8>>::empty());
                    }
                    None
                } else {
                    self.cursor_back.set(key_slice);
                    self.has_back = true;
                    proof {
                        assert forall|k: Seq<u8>| #[trigger]
                            self.remaining().contains(k) <==> before.remaining().remove(
                                key,
                            ).contains(k) by {
                            if self.remaining().contains(k) {
                                bound::lemma_to_end_down(k, key, before.hi());
                                order::lemma_lex_irreflexive(key);
                            }
                        }
                        assert(self.remaining() =~= before.remaining().remove(key));
                    }
                    Some(leaf)
                }
            },
        }
    }
}

} // verus!
