//! Byte-string helpers shared by the tree: prefix comparison, copying and the
//! lexicographic order on byte strings.
use vstd::prelude::*;

verus! {

/// Length of the longest common prefix of `a` and `b[start..]`.
pub fn common_prefix_len(a: &[u8], b: &[u8], start: usize) -> (n: usize)
    requires
        start <= b@.len(),
    ensures
        n <= a@.len(),
        n <= b@.len() - start,
        a@.take(n as int) == b@.skip(start as int).take(n as int),
        n < a@.len() && n < b@.len() - start ==> a@[n as int] != b@[start + n],
{
    let mut i: usize = 0;
    while i < a.len() && i < b.len() - start && a[i] == b[start + i]
        invariant
            start <= b@.len(),
            i <= a@.len(),
            i <= b@.len() - start,
            a@.take(i as int) == b@.skip(start as int).take(i as int),
        decreases a@.len() - i,
    {
        proof {
            assert(a@.take(i + 1) == a@.take(i as int).push(a@[i as int]));
            assert(b@.skip(start as int).take(i + 1) == b@.skip(start as int).take(i as int).push(
                b@[start + i],
            ));
        }
        i = i + 1;
    }
    i
}

/// Whether `p` is a prefix of `b[start..]`.
pub fn is_prefix_at(p: &[u8], b: &[u8], start: usize) -> (r: bool)
    requires
        start <= b@.len(),
    ensures
        r == p@.is_prefix_of(b@.skip(start as int)),
{
    let n = common_prefix_len(p, b, start);
    proof {
        if n == p@.len() {
            assert(p@ == p@.take(n as int));
        } else if p@.len() <= b@.len() - start {
            assert(p@[n as int] == b@.skip(start as int).take(p@.len() as int)[n as int] ==> p@[n as int] == b@[start + n]);
        }
    }
    n == p.len()
}

/// Copy of `b[start..end]`.
pub fn copy_range(b: &[u8], start: usize, end: usize) -> (r: Vec<u8>)
    requires
        start <= end <= b@.len(),
    ensures
        r@ == b@.subrange(start as int, end as int),
{
    let mut r: Vec<u8> = Vec::new();
    let mut i = start;
    while i < end
        invariant
            start <= i <= end <= b@.len(),
            r@ == b@.subrange(start as int, i as int),
        decreases end - i,
    {
        r.push(b[i]);
        proof {
            assert(r@ == b@.subrange(start as int, i + 1));
        }
        i = i + 1;
    }
    r
}


/// Lexicographic order on byte strings: `a` sorts strictly before `b`.
pub open spec fn lex_lt(a: Seq<u8>, b: Seq<u8>) -> bool
    decreases a.len(),
{
    if b.len() == 0 {
        false
    } else if a.len() == 0 {
        true
    } else if a[0] != b[0] {
        a[0] < b[0]
    } else {
        lex_lt(a.drop_first(), b.drop_first())
    }
}

/// A common prefix does not change the order.
pub proof fn lemma_lex_common_prefix(p: Seq<u8>, a: Seq<u8>, b: Seq<u8>)
    ensures
        lex_lt(p + a, p + b) == lex_lt(a, b),
    decreases p.len(),
{
    if p.len() > 0 {
        assert((p + a).drop_first() == p.drop_first() + a);
        assert((p + b).drop_first() == p.drop_first() + b);
        lemma_lex_common_prefix(p.drop_first(), a, b);
    } else {
        assert(p + a == a);
        assert(p + b == b);
    }
}

/// Strings that differ in their first byte are ordered by it.
pub proof fn lemma_lex_first_byte(a: Seq<u8>, b: Seq<u8>)
    requires
        a.len() > 0,
        b.len() > 0,
        a[0] < b[0],
    ensures
        lex_lt(a, b),
{
}

/// A string sorts before its proper extensions.
pub proof fn lemma_lex_extension(p: Seq<u8>, x: Seq<u8>)
    requires
        x.len() > 0,
    ensures
        lex_lt(p, p + x),
    decreases p.len(),
{
    if p.len() > 0 {
        assert((p + x).drop_first() == p.drop_first() + x);
        lemma_lex_extension(p.drop_first(), x);
    }
}

/// The order is irreflexive.
pub proof fn lemma_lex_irreflexive(a: Seq<u8>)
    ensures
        !lex_lt(a, a),
    decreases a.len(),
{
    if a.len() > 0 {
        lemma_lex_irreflexive(a.drop_first());
    }
}

/// The order is asymmetric.
pub proof fn lemma_lex_asymmetric(a: Seq<u8>, b: Seq<u8>)
    requires
        lex_lt(a, b),
    ensures
        !lex_lt(b, a),
    decreases a.len(),
{
    if a.len() > 0 && b.len() > 0 && a[0] == b[0] {
        lemma_lex_asymmetric(a.drop_first(), b.drop_first());
    }
}

/// The order is transitive.
pub proof fn lemma_lex_transitive(a: Seq<u8>, b: Seq<u8>, c: Seq<u8>)
    requires
        lex_lt(a, b),
        lex_lt(b, c),
    ensures
        lex_lt(a, c),
    decreases a.len(),
{
    if a.len() > 0 && b.len() > 0 && c.len() > 0 && a[0] == b[0] && b[0] == c[0] {
        lemma_lex_transitive(a.drop_first(), b.drop_first(), c.drop_first());
    }
}

/// Any two different strings are ordered one way or the other.
pub proof fn lemma_lex_total(a: Seq<u8>, b: Seq<u8>)
    requires
        a != b,
    ensures
        lex_lt(a, b) || lex_lt(b, a),
    decreases a.len(),
{
    if a.len() > 0 && b.len() > 0 && a[0] == b[0] {
        if a.drop_first() == b.drop_first() {
            assert(a =~= seq![a[0]] + a.drop_first());
            assert(b =~= seq![b[0]] + b.drop_first());
        }
        lemma_lex_total(a.drop_first(), b.drop_first());
    } else if a.len() == 0 && b.len() == 0 {
        assert(a =~= b);
    }
}


/// A string below `s` that is not a prefix of it stays below `s` however it is
/// extended.
pub proof fn lemma_lex_extend_below(q: Seq<u8>, s: Seq<u8>, x: Seq<u8>)
    requires
        lex_lt(q, s),
        !q.is_prefix_of(s),
    ensures
        lex_lt(q + x, s),
    decreases q.len(),
{
    if q.len() == 0 {
        assert(q.is_prefix_of(s)) by {
            assert(s.subrange(0, 0) =~= q);
        }
    } else {
        assert((q + x)[0] == q[0]);
        if q[0] == s[0] {
            assert((q + x).drop_first() == q.drop_first() + x);
            if q.drop_first().is_prefix_of(s.drop_first()) {
                assert(s.subrange(0, q.len() as int) =~= q) by {
                    assert(s.drop_first().subrange(0, q.len() - 1) == q.drop_first());
                    assert forall|i: int| 0 <= i < q.len() implies s.subrange(0, q.len() as int)[i] == q[i] by {
                        if i > 0 {
                            assert(s.drop_first().subrange(0, q.len() - 1)[i - 1] == s[i]);
                        }
                    }
                }
            }
            lemma_lex_extend_below(q.drop_first(), s.drop_first(), x);
        }
    }
}

/// Comparing equally long strings from position `k` on: the first byte decides
/// unless it is equal, then the rest does.
pub proof fn lemma_lex_step(a: Seq<u8>, b: Seq<u8>, k: int)
    requires
        a.len() == b.len(),
        0 <= k < a.len(),
    ensures
        lex_lt(a.skip(k), b.skip(k)) == if a[k] != b[k] {
            a[k] < b[k]
        } else {
            lex_lt(a.skip(k + 1), b.skip(k + 1))
        },
{
    assert(a.skip(k).drop_first() == a.skip(k + 1));
    assert(b.skip(k).drop_first() == b.skip(k + 1));
}

/// Whether `a` sorts strictly before `b` in lexicographic order.
pub fn lex_less(a: &[u8], b: &[u8]) -> (r: bool)
    ensures
        r == lex_lt(a@, b@),
{
    let n = common_prefix_len(a, b, 0);
    proof {
        assert(b@.skip(0) == b@);
        let p = a@.take(n as int);
        assert(a@ == p + a@.skip(n as int));
        assert(b@ == p + b@.skip(n as int));
        lemma_lex_common_prefix(p, a@.skip(n as int), b@.skip(n as int));
    }
    if n == b.len() {
        false
    } else if n == a.len() {
        true
    } else {
        a[n] < b[n]
    }
}

} // verus!
