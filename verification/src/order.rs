//! # Byte strings
//!
//! The vocabulary in which the tree is specified: prefixes of byte strings and
//! the lexicographical order in which entries are visited.

use vstd::prelude::*;

verus! {

/// `s` starts with `p`.
pub open spec fn extends(s: Seq<u8>, p: Seq<u8>) -> bool {
    &&& p.len() <= s.len()
    &&& forall|i: int| 0 <= i < p.len() ==> #[trigger] p[i] == s[i]
}

/// `a` and `b` agree on their first `n` bytes, and `n` is within both.
pub open spec fn agree(a: Seq<u8>, b: Seq<u8>, n: int) -> bool {
    &&& 0 <= n <= a.len()
    &&& n <= b.len()
    &&& forall|i: int| 0 <= i < n ==> #[trigger] a[i] == b[i]
}

/// `a` comes before `b`, and byte `n` is where that shows.
pub open spec fn below_at(a: Seq<u8>, b: Seq<u8>, n: int) -> bool {
    &&& agree(a, b, n)
    &&& n < b.len()
    &&& (n == a.len() || a[n] < b[n])
}

/// Lexicographical order on byte strings: `a` comes strictly before `b`.
pub open spec fn lex_lt(a: Seq<u8>, b: Seq<u8>) -> bool {
    exists|n: int| below_at(a, b, n)
}

/// Lexicographical order on byte strings: `a` comes before `b` or equals it.
pub open spec fn lex_le(a: Seq<u8>, b: Seq<u8>) -> bool {
    a == b || lex_lt(a, b)
}

/// The length of the longest common prefix of `a` and `b`.
pub open spec fn is_common_prefix_len(a: Seq<u8>, b: Seq<u8>, n: int) -> bool {
    &&& agree(a, b, n)
    &&& n < a.len() && n < b.len() ==> a[n] != b[n]
}

/// Two byte strings are ordered one way, the other way, or equal.
pub proof fn lemma_lex_total(a: Seq<u8>, b: Seq<u8>)
    ensures
        lex_lt(a, b) || lex_lt(b, a) || a == b,
{
    let n = common_len(a, b);
    lemma_common_len(a, b);
    if n == a.len() && n == b.len() {
        assert(a =~= b);
    } else if n == a.len() {
        assert(below_at(a, b, n));
    } else if n == b.len() {
        assert(below_at(b, a, n));
    } else if a[n] < b[n] {
        assert(below_at(a, b, n));
    } else {
        assert(below_at(b, a, n));
    }
}

/// The length of the longest common prefix of `a` and `b`.
pub open spec fn common_len(a: Seq<u8>, b: Seq<u8>) -> int
    decreases a.len(),
{
    if a.len() == 0 || b.len() == 0 || a[0] != b[0] {
        0
    } else {
        1 + common_len(a.drop_first(), b.drop_first())
    }
}

/// `common_len` is where `a` and `b` stop agreeing.
pub proof fn lemma_common_len(a: Seq<u8>, b: Seq<u8>)
    ensures
        is_common_prefix_len(a, b, common_len(a, b)),
    decreases a.len(),
{
    if a.len() == 0 || b.len() == 0 || a[0] != b[0] {
    } else {
        let (s, t) = (a.drop_first(), b.drop_first());
        lemma_common_len(s, t);
        let n = common_len(s, t);
        assert forall|i: int| 0 <= i < n + 1 implies #[trigger] a[i] == b[i] by {
            if i > 0 {
                assert(s[i - 1] == t[i - 1]);
            }
        }
    }
}

/// Only one length is the length of the longest common prefix.
pub proof fn lemma_common_len_unique(a: Seq<u8>, b: Seq<u8>, n: int)
    requires
        is_common_prefix_len(a, b, n),
    ensures
        n == common_len(a, b),
{
    lemma_common_len(a, b);
    let m = common_len(a, b);
    if n < m {
        assert(a[n] == b[n]);
    } else if m < n {
        assert(a[m] == b[m]);
    }
}

/// The order is irreflexive.
pub proof fn lemma_lex_irreflexive(a: Seq<u8>)
    ensures
        !lex_lt(a, a),
{
}

/// The order is asymmetric.
pub proof fn lemma_lex_asymmetric(a: Seq<u8>, b: Seq<u8>)
    requires
        lex_lt(a, b),
    ensures
        !lex_lt(b, a),
        a != b,
{
    let n = choose|n: int| below_at(a, b, n);
    if lex_lt(b, a) {
        let m = choose|m: int| below_at(b, a, m);
        if n < m {
            assert(b[n] == a[n]);
        } else if m < n {
            assert(a[m] == b[m]);
        }
    }
    if a == b {
        lemma_lex_irreflexive(a);
    }
}

/// The order is transitive.
pub proof fn lemma_lex_transitive(a: Seq<u8>, b: Seq<u8>, c: Seq<u8>)
    requires
        lex_lt(a, b),
        lex_lt(b, c),
    ensures
        lex_lt(a, c),
{
    let n = choose|n: int| below_at(a, b, n);
    let m = choose|m: int| below_at(b, c, m);
    let k = if n <= m { n } else { m };
    assert forall|i: int| 0 <= i < k implies #[trigger] a[i] == c[i] by {
        assert(a[i] == b[i]);
        assert(b[i] == c[i]);
    }
    if n < m {
        assert(b[n] == c[n]);
    } else if m < n {
        assert(a[m] == b[m]);
    }
    assert(below_at(a, c, k));
}

/// `lex_le` composes.
pub proof fn lemma_lex_le_transitive(a: Seq<u8>, b: Seq<u8>, c: Seq<u8>)
    requires
        lex_le(a, b),
        lex_le(b, c),
    ensures
        lex_le(a, c),
        lex_lt(a, b) || lex_lt(b, c) ==> lex_lt(a, c),
{
    if lex_lt(a, b) && lex_lt(b, c) {
        lemma_lex_transitive(a, b, c);
    }
}

/// A string does not come after its own extensions.
pub proof fn lemma_lex_extends(s: Seq<u8>, p: Seq<u8>)
    requires
        extends(s, p),
    ensures
        lex_le(p, s),
        !lex_lt(s, p),
{
    if s.len() == p.len() {
        assert(s =~= p);
        lemma_lex_irreflexive(s);
    } else {
        assert(below_at(p, s, p.len() as int));
        lemma_lex_asymmetric(p, s);
    }
}

/// Two prefixes of one string are nested.
pub proof fn lemma_extends_nested(s: Seq<u8>, p: Seq<u8>, q: Seq<u8>)
    requires
        extends(s, p),
        extends(s, q),
        p.len() <= q.len(),
    ensures
        extends(q, p),
        p.len() == q.len() ==> p == q,
{
    assert forall|i: int| 0 <= i < p.len() implies #[trigger] p[i] == q[i] by {
        assert(p[i] == s[i]);
        assert(q[i] == s[i]);
    }
    if p.len() == q.len() {
        assert(p =~= q);
    }
}

/// Prefixes compose.
pub proof fn lemma_extends_transitive(s: Seq<u8>, p: Seq<u8>, q: Seq<u8>)
    requires
        extends(s, p),
        extends(p, q),
    ensures
        extends(s, q),
{
    assert forall|i: int| 0 <= i < q.len() implies #[trigger] q[i] == s[i] by {
        assert(q[i] == p[i]);
    }
}

/// A string that extends a prefix inherits the prefix's place in the order
/// with respect to anything that the prefix already differs from.
pub proof fn lemma_lex_prefix_decides(s: Seq<u8>, p: Seq<u8>, t: Seq<u8>)
    requires
        extends(s, p),
        !extends(t, p),
    ensures
        lex_lt(p, t) ==> lex_lt(s, t),
        lex_lt(t, p) ==> lex_lt(t, s),
{
    if lex_lt(p, t) {
        let n = choose|n: int| below_at(p, t, n);
        if n == p.len() {
            assert(extends(t, p)) by {
                assert forall|i: int| 0 <= i < p.len() implies #[trigger] p[i] == t[i] by {}
            }
        }
        assert(agree(s, t, n)) by {
            assert forall|i: int| 0 <= i < n implies #[trigger] s[i] == t[i] by {
                assert(p[i] == t[i]);
            }
        }
        assert(p[n] == s[n]);
        assert(below_at(s, t, n));
    }
    if lex_lt(t, p) {
        let n = choose|n: int| below_at(t, p, n);
        assert(agree(t, s, n)) by {
            assert forall|i: int| 0 <= i < n implies #[trigger] t[i] == s[i] by {
                assert(t[i] == p[i]);
                assert(p[i] == s[i]);
            }
        }
        assert(p[n] == s[n]);
        assert(below_at(t, s, n));
    }
}

/// The first byte in which two byte strings differ decides their order, and a byte string comes
/// before what goes on behind it.
pub proof fn lemma_lex_by_first_byte(a: Seq<u8>, b: Seq<u8>)
    ensures
        lex_lt(a, b) <==> b.len() > 0 && (a.len() == 0 || a[0] < b[0] || (a[0] == b[0] && lex_lt(
            a.drop_first(),
            b.drop_first(),
        ))),
{
    if lex_lt(a, b) {
        let n = choose|n: int| below_at(a, b, n);
        if n > 0 {
            let (s, t) = (a.drop_first(), b.drop_first());
            assert(a[0] == b[0]);
            assert forall|i: int| 0 <= i < n - 1 implies #[trigger] s[i] == t[i] by {
                assert(a[i + 1] == b[i + 1]);
            }
            assert(below_at(s, t, n - 1));
        }
    }
    if b.len() > 0 && (a.len() == 0 || a[0] < b[0]) {
        assert(below_at(a, b, 0));
    }
    if b.len() > 0 && a.len() > 0 && a[0] == b[0] && lex_lt(a.drop_first(), b.drop_first()) {
        let (s, t) = (a.drop_first(), b.drop_first());
        let m = choose|m: int| below_at(s, t, m);
        assert forall|i: int| 0 <= i < m + 1 implies #[trigger] a[i] == b[i] by {
            if i > 0 {
                assert(s[i - 1] == t[i - 1]);
            }
        }
        if m < s.len() {
            assert(s[m] == a[m + 1] && t[m] == b[m + 1]);
        }
        assert(below_at(a, b, m + 1));
    }
}

/// Of two byte strings one comes before the other, or they are equal, and never two of the three.
pub proof fn lemma_lex_trichotomy(a: Seq<u8>, b: Seq<u8>)
    ensures
        lex_le(a, b) <==> !lex_lt(b, a),
        lex_le(a, b) <==> lex_lt(a, b) || a == b,
        lex_le(a, b) && lex_le(b, a) <==> a == b,
        lex_lt(a, b) ==> a != b && !lex_lt(b, a),
{
    lemma_lex_total(a, b);
    lemma_lex_irreflexive(a);
    if lex_lt(a, b) {
        lemma_lex_asymmetric(a, b);
    }
    if lex_lt(b, a) {
        lemma_lex_asymmetric(b, a);
    }
}

/// Two byte strings agree up to the length of their longest common prefix, and no further.
pub proof fn lemma_common_prefix(a: Seq<u8>, b: Seq<u8>)
    ensures
        0 <= common_len(a, b) <= a.len(),
        common_len(a, b) <= b.len(),
        a.take(common_len(a, b)) == b.take(common_len(a, b)),
        forall|n: int|
            0 <= n <= a.len() && n <= b.len() && #[trigger] a.take(n) == b.take(n) ==> n
                <= common_len(a, b),
{
    lemma_common_len(a, b);
    let m = common_len(a, b);
    assert(a.take(m) =~= b.take(m));
    assert forall|n: int|
        0 <= n <= a.len() && n <= b.len() && #[trigger] a.take(n) == b.take(n) implies n <= m by {
        if m < n {
            assert(a.take(n)[m] == a[m]);
            assert(b.take(n)[m] == b[m]);
        }
    }
}

/// A byte string starts with another if and only if the other and a rest make it up.
pub proof fn lemma_extends_by_rest(s: Seq<u8>, p: Seq<u8>, rest: Seq<u8>)
    ensures
        extends(s, p) <==> p.len() <= s.len() && s.take(p.len() as int) == p,
        extends(s, p) ==> s == p + s.skip(p.len() as int),
        extends(p + rest, p),
{
    if extends(s, p) {
        assert(s.take(p.len() as int) =~= p);
        assert(s =~= p + s.skip(p.len() as int));
    }
    if p.len() <= s.len() && s.take(p.len() as int) == p {
        assert forall|i: int| 0 <= i < p.len() implies #[trigger] p[i] == s[i] by {
            assert(s.take(p.len() as int)[i] == s[i]);
        }
    }
}

/// How two byte strings compare.
#[derive(Copy, Clone, PartialEq, Eq, Structural, Debug)]
pub enum Compare {
    Less,
    Equal,
    Greater,
}

/// Compares two byte strings lexicographically.
pub fn compare(a: &[u8], b: &[u8]) -> (c: Compare)
    ensures
        c == Compare::Less <==> lex_lt(a@, b@),
        c == Compare::Equal <==> a@ == b@,
        c == Compare::Greater <==> lex_lt(b@, a@),
{
    let n = longest_common_prefix(a, b);
    proof {
        lemma_lex_total(a@, b@);
        lemma_lex_irreflexive(a@);
        lemma_common_len(a@, b@);
    }
    if n == a.len() {
        if n == b.len() {
            assert(a@ =~= b@);
            Compare::Equal
        } else {
            assert(below_at(a@, b@, n as int));
            proof { lemma_lex_asymmetric(a@, b@); }
            Compare::Less
        }
    } else if n == b.len() {
        assert(below_at(b@, a@, n as int));
        proof { lemma_lex_asymmetric(b@, a@); }
        Compare::Greater
    } else if a[n] < b[n] {
        assert(below_at(a@, b@, n as int));
        proof { lemma_lex_asymmetric(a@, b@); }
        Compare::Less
    } else {
        assert(below_at(b@, a@, n as int));
        proof { lemma_lex_asymmetric(b@, a@); }
        Compare::Greater
    }
}

/// Whether two byte strings are equal.
pub fn same_bytes(a: &[u8], b: &[u8]) -> (r: bool)
    ensures
        r == (a@ == b@),
{
    let n = longest_common_prefix(a, b);
    proof { lemma_common_len(a@, b@); }
    let r = n == a.len() && n == b.len();
    proof {
        if r {
            assert(a@ =~= b@);
        }
        if a@ == b@ {
            lemma_common_len_unique(a@, b@, a@.len() as int);
        }
    }
    r
}

/// The number of leading bytes that `a` and `b` share.
pub fn longest_common_prefix(a: &[u8], b: &[u8]) -> (n: usize)
    ensures
        n == common_len(a@, b@),
        is_common_prefix_len(a@, b@, n as int),
        n <= a@.len(),
        n <= b@.len(),
        a@.take(n as int) == b@.take(n as int),
        n < a@.len() && n < b@.len() ==> a@[n as int] != b@[n as int],
{
    let mut i: usize = 0;
    while i < a.len() && i < b.len() && a[i] == b[i]
        invariant
            agree(a@, b@, i as int),
        decreases a.len() - i,
    {
        i = i + 1;
    }
    proof { lemma_common_len_unique(a@, b@, i as int); }
    i
}

} // verus!
