//! Nodes of the radix tree.
//!
//! A node holds a compressed path segment (`prefix`), an optional value stored at
//! the end of that segment, and children ordered by the first byte of their own
//! segments. The keys below a node are relative to the position where the node's
//! segment starts, so a child's segment begins with the byte that selects it.
use vstd::prelude::*;
use crate::bytes::{common_prefix_len, copy_range, is_prefix_at};

verus! {

pub struct Node<V> {
    pub prefix: Vec<u8>,
    pub value: Option<V>,
    pub children: Vec<Node<V>>,
}

/// First byte of a node's segment: the byte its parent selects it by.
pub open spec fn first_byte<V>(n: Node<V>) -> u8 {
    n.prefix@[0]
}

/// Children have non-empty segments whose first bytes strictly increase.
pub open spec fn children_ordered<V>(cs: Seq<Node<V>>) -> bool {
    &&& forall|i: int| 0 <= i < cs.len() ==> (#[trigger] cs[i]).prefix@.len() > 0
    &&& forall|i: int, j: int|
        0 <= i < j < cs.len() ==> first_byte(#[trigger] cs[i]) < first_byte(#[trigger] cs[j])
}

/// Lookup among children: the child selected by the first byte of `rest`.
pub open spec fn children_lookup<V>(cs: Seq<Node<V>>, rest: Seq<u8>) -> Option<V> {
    if exists|i: int| 0 <= i < cs.len() && #[trigger] first_byte(cs[i]) == rest[0] {
        let i = choose|i: int| 0 <= i < cs.len() && #[trigger] first_byte(cs[i]) == rest[0];
        cs[i].lookup(rest)
    } else {
        None
    }
}

impl<V> Node<V> {
    /// Well-formedness: every node carries a value or a child, and children are
    /// ordered by first byte, recursively.
    pub open spec fn wf(self) -> bool
        decreases self,
    {
        &&& (self.value is Some || self.children@.len() > 0)
        &&& children_ordered(self.children@)
        &&& forall|i: int|
            0 <= i < self.children@.len() ==> (#[trigger] self.children@[i]).wf()
    }

    /// The value stored under relative key `k`, if any.
    pub open spec fn lookup(self, k: Seq<u8>) -> Option<V>
        decreases self,
    {
        let p = self.prefix@;
        if !p.is_prefix_of(k) {
            None
        } else if k.len() == p.len() {
            self.value
        } else {
            let rest = k.skip(p.len() as int);
            let cs = self.children@;
            if exists|i: int| 0 <= i < cs.len() && #[trigger] first_byte(cs[i]) == rest[0] {
                let i = choose|i: int| 0 <= i < cs.len() && #[trigger] first_byte(cs[i]) == rest[0];
                cs[i].lookup(rest)
            } else {
                None
            }
        }
    }

    /// The map from relative keys to values that the node stands for.
    pub open spec fn view_map(self) -> Map<Seq<u8>, V> {
        Map::new(|k: Seq<u8>| self.lookup(k) is Some, |k: Seq<u8>| self.lookup(k)->0)
    }
}

/// Looking a key up below a node goes through the child its next byte selects.
pub proof fn lemma_lookup_child<V>(n: Node<V>, k: Seq<u8>, i: int)
    requires
        children_ordered(n.children@),
        n.prefix@.is_prefix_of(k),
        k.len() > n.prefix@.len(),
        0 <= i < n.children@.len(),
        first_byte(n.children@[i]) == k[n.prefix@.len() as int],
    ensures
        n.lookup(k) == n.children@[i].lookup(k.skip(n.prefix@.len() as int)),
        n.lookup(k) == children_lookup(n.children@, k.skip(n.prefix@.len() as int)),
{
    let cs = n.children@;
    let rest = k.skip(n.prefix@.len() as int);
    assert(first_byte(cs[i]) == rest[0]);
    let j = choose|j: int| 0 <= j < cs.len() && #[trigger] first_byte(cs[j]) == rest[0];
    if j < i {
        assert(first_byte(cs[j]) < first_byte(cs[i]));
    } else if i < j {
        assert(first_byte(cs[i]) < first_byte(cs[j]));
    }
}

/// A key whose next byte selects no child is absent.
pub proof fn lemma_lookup_no_child<V>(n: Node<V>, k: Seq<u8>)
    requires
        n.prefix@.is_prefix_of(k),
        k.len() > n.prefix@.len(),
        forall|i: int|
            0 <= i < n.children@.len() ==> first_byte(#[trigger] n.children@[i]) != k[n.prefix@.len() as int],
    ensures
        n.lookup(k) is None,
        children_lookup(n.children@, k.skip(n.prefix@.len() as int)) is None,
{
    let rest = k.skip(n.prefix@.len() as int);
    assert(forall|i: int| 0 <= i < n.children@.len() ==> first_byte(#[trigger] n.children@[i]) != rest[0]);
}

/// Position of the child selected by byte `b`, or of the place where it would go.
pub fn find_child<V>(cs: &Vec<Node<V>>, b: u8) -> (res: (usize, bool))
    requires
        children_ordered(cs@),
    ensures
        res.0 <= cs@.len(),
        forall|i: int| 0 <= i < res.0 ==> first_byte(#[trigger] cs@[i]) < b,
        forall|i: int| res.0 < i < cs@.len() ==> first_byte(#[trigger] cs@[i]) > b,
        res.0 < cs@.len() ==> first_byte(cs@[res.0 as int]) >= b,
        res.1 <==> (res.0 < cs@.len() && first_byte(cs@[res.0 as int]) == b),
{
    let mut lo: usize = 0;
    let mut hi: usize = cs.len();
    while lo < hi
        invariant
            children_ordered(cs@),
            lo <= hi <= cs@.len(),
            forall|j: int| 0 <= j < lo ==> first_byte(#[trigger] cs@[j]) < b,
            forall|j: int| hi <= j < cs@.len() ==> first_byte(#[trigger] cs@[j]) >= b,
        decreases hi - lo,
    {
        let mid = lo + (hi - lo) / 2;
        if cs[mid].prefix[0] < b {
            proof {
                assert forall|j: int| 0 <= j <= mid implies first_byte(#[trigger] cs@[j]) < b by {
                    if j < mid {
                        assert(first_byte(cs@[j]) < first_byte(cs@[mid as int]));
                    }
                }
            }
            lo = mid + 1;
        } else {
            proof {
                assert forall|j: int| mid <= j < cs@.len() implies first_byte(#[trigger] cs@[j]) >= b by {
                    if j > mid {
                        assert(first_byte(cs@[mid as int]) < first_byte(cs@[j]));
                    }
                }
            }
            hi = mid;
        }
    }
    let i = lo;
    if i < cs.len() {
        proof {
            assert forall|j: int| i < j < cs@.len() implies first_byte(#[trigger] cs@[j]) > b by {
                assert(first_byte(cs@[i as int]) < first_byte(cs@[j]));
            }
        }
        (i, cs[i].prefix[0] == b)
    } else {
        (i, false)
    }
}

impl<V> Node<V> {
    /// The value stored under `key[depth..]`, relative to this node.
    pub fn get_iterate<'a>(&'a self, key: &[u8], depth: usize) -> (r: Option<&'a V>)
        requires
            self.wf(),
            depth <= key@.len(),
        ensures
            match r {
                Some(v) => self.lookup(key@.skip(depth as int)) == Some(*v),
                None => self.lookup(key@.skip(depth as int)) is None,
            },
        decreases self,
    {
        let ghost k = key@.skip(depth as int);
        let plen = self.prefix.len();
        if key.len() - depth < plen {
            return None;
        }
        if !is_prefix_at(self.prefix.as_slice(), key, depth) {
            return None;
        }
        if key.len() - depth == plen {
            return self.value.as_ref();
        }
        let b = key[depth + plen];
        let (idx, found) = find_child(&self.children, b);
        if !found {
            proof {
                lemma_lookup_no_child(*self, k);
            }
            return None;
        }
        proof {
            lemma_lookup_child(*self, k, idx as int);
            assert(k.skip(plen as int) == key@.skip(depth + plen));
            assert(self.children@[idx as int].wf());
        }
        self.children[idx].get_iterate(key, depth + plen)
    }
}


/// Two sequences that agree on their first `n` elements and on the rest are equal.
pub proof fn lemma_seq_split_eq(a: Seq<u8>, b: Seq<u8>, n: int)
    requires
        0 <= n <= a.len(),
        n <= b.len(),
        a.take(n) == b.take(n),
        a.skip(n) == b.skip(n),
    ensures
        a == b,
{
    assert(a.skip(n).len() == a.len() - n);
    assert(b.skip(n).len() == b.len() - n);
    assert(a.len() == b.len());
    assert forall|i: int| 0 <= i < a.len() implies a[i] == b[i] by {
        if i < n {
            assert(a[i] == a.take(n)[i]);
            assert(b[i] == b.take(n)[i]);
        } else {
            assert(a[i] == a.skip(n)[i - n]);
            assert(b[i] == b.skip(n)[i - n]);
        }
    }
    assert(a =~= b);
}

/// Unfolding one level of `lookup`.
pub proof fn lemma_lookup_unfold<V>(n: Node<V>, k: Seq<u8>)
    ensures
        n.lookup(k) == (if !n.prefix@.is_prefix_of(k) {
            None
        } else if k.len() == n.prefix@.len() {
            n.value
        } else {
            children_lookup(n.children@, k.skip(n.prefix@.len() as int))
        }),
{
}

/// Among ordered children, the lookup goes to the unique child with the right first byte.
pub proof fn lemma_children_lookup_at<V>(cs: Seq<Node<V>>, rest: Seq<u8>, i: int)
    requires
        children_ordered(cs),
        0 <= i < cs.len(),
        first_byte(cs[i]) == rest[0],
    ensures
        children_lookup(cs, rest) == cs[i].lookup(rest),
{
    let j = choose|j: int| 0 <= j < cs.len() && #[trigger] first_byte(cs[j]) == rest[0];
    if j < i {
        assert(first_byte(cs[j]) < first_byte(cs[i]));
    } else if i < j {
        assert(first_byte(cs[i]) < first_byte(cs[j]));
    }
}

/// Replacing a child by one with the same first byte changes only that byte's lookups.
pub proof fn lemma_update_child<V>(cs: Seq<Node<V>>, i: int, c: Node<V>)
    requires
        children_ordered(cs),
        0 <= i < cs.len(),
        c.prefix@.len() > 0,
        first_byte(c) == first_byte(cs[i]),
    ensures
        children_ordered(cs.update(i, c)),
        forall|rest: Seq<u8>|
            #[trigger] children_lookup(cs.update(i, c), rest) == if rest[0] == first_byte(cs[i]) {
                c.lookup(rest)
            } else {
                children_lookup(cs, rest)
            },
{
    let ns = cs.update(i, c);
    assert forall|a: int, b: int| 0 <= a < b < ns.len() implies first_byte(#[trigger] ns[a])
        < first_byte(#[trigger] ns[b]) by {
        assert(first_byte(cs[a]) < first_byte(cs[b]));
    }
    assert(children_ordered(ns));
    assert forall|rest: Seq<u8>|
        #[trigger] children_lookup(ns, rest) == if rest[0] == first_byte(cs[i]) {
            c.lookup(rest)
        } else {
            children_lookup(cs, rest)
        } by {
        if rest[0] == first_byte(cs[i]) {
            lemma_children_lookup_at(ns, rest, i);
        } else if exists|j: int| 0 <= j < cs.len() && #[trigger] first_byte(cs[j]) == rest[0] {
            let j = choose|j: int| 0 <= j < cs.len() && #[trigger] first_byte(cs[j]) == rest[0];
            lemma_children_lookup_at(cs, rest, j);
            lemma_children_lookup_at(ns, rest, j);
        } else {
            assert(!exists|j: int| 0 <= j < ns.len() && #[trigger] first_byte(ns[j]) == rest[0]);
        }
    }
}

/// Inserting a child at its ordered place adds exactly that byte's lookups.
pub proof fn lemma_insert_child<V>(cs: Seq<Node<V>>, idx: int, c: Node<V>)
    requires
        children_ordered(cs),
        0 <= idx <= cs.len(),
        c.prefix@.len() > 0,
        forall|j: int| 0 <= j < idx ==> first_byte(#[trigger] cs[j]) < first_byte(c),
        forall|j: int| idx <= j < cs.len() ==> first_byte(#[trigger] cs[j]) > first_byte(c),
    ensures
        children_ordered(cs.insert(idx, c)),
        forall|rest: Seq<u8>|
            #[trigger] children_lookup(cs.insert(idx, c), rest) == if rest[0] == first_byte(c) {
                c.lookup(rest)
            } else {
                children_lookup(cs, rest)
            },
{
    let ns = cs.insert(idx, c);
    assert forall|a: int| 0 <= a < ns.len() implies (#[trigger] ns[a]).prefix@.len() > 0 by {
        if a > idx {
            assert(ns[a] == cs[a - 1]);
        }
    }
    assert forall|a: int, b: int| 0 <= a < b < ns.len() implies first_byte(#[trigger] ns[a])
        < first_byte(#[trigger] ns[b]) by {
        if a < idx && b < idx {
            assert(first_byte(cs[a]) < first_byte(cs[b]));
        } else if a < idx && b > idx {
            assert(ns[b] == cs[b - 1]);
            assert(first_byte(cs[a]) < first_byte(cs[b - 1]));
        } else if a > idx {
            assert(ns[a] == cs[a - 1]);
            assert(ns[b] == cs[b - 1]);
            assert(first_byte(cs[a - 1]) < first_byte(cs[b - 1]));
        } else if a == idx {
            assert(ns[b] == cs[b - 1]);
        }
    }
    assert(children_ordered(ns));
    assert forall|rest: Seq<u8>|
        #[trigger] children_lookup(ns, rest) == if rest[0] == first_byte(c) {
            c.lookup(rest)
        } else {
            children_lookup(cs, rest)
        } by {
        if rest[0] == first_byte(c) {
            lemma_children_lookup_at(ns, rest, idx);
        } else if exists|j: int| 0 <= j < cs.len() && #[trigger] first_byte(cs[j]) == rest[0] {
            let j = choose|j: int| 0 <= j < cs.len() && #[trigger] first_byte(cs[j]) == rest[0];
            lemma_children_lookup_at(cs, rest, j);
            if j < idx {
                lemma_children_lookup_at(ns, rest, j);
            } else {
                assert(ns[j + 1] == cs[j]);
                lemma_children_lookup_at(ns, rest, j + 1);
            }
        } else {
            assert forall|j: int| 0 <= j < ns.len() implies first_byte(#[trigger] ns[j]) != rest[0] by {
                if j > idx {
                    assert(ns[j] == cs[j - 1]);
                }
            }
        }
    }
}

/// Removing a child drops exactly that byte's lookups.
pub proof fn lemma_remove_child<V>(cs: Seq<Node<V>>, idx: int)
    requires
        children_ordered(cs),
        0 <= idx < cs.len(),
    ensures
        children_ordered(cs.remove(idx)),
        forall|rest: Seq<u8>|
            #[trigger] children_lookup(cs.remove(idx), rest) == if rest[0] == first_byte(cs[idx]) {
                None
            } else {
                children_lookup(cs, rest)
            },
{
    let ns = cs.remove(idx);
    assert forall|a: int| 0 <= a < ns.len() implies (#[trigger] ns[a]).prefix@.len() > 0 by {
        if a >= idx {
            assert(ns[a] == cs[a + 1]);
        }
    }
    assert forall|a: int, b: int| 0 <= a < b < ns.len() implies first_byte(#[trigger] ns[a])
        < first_byte(#[trigger] ns[b]) by {
        if b < idx {
            assert(first_byte(cs[a]) < first_byte(cs[b]));
        } else if a < idx {
            assert(ns[b] == cs[b + 1]);
            assert(first_byte(cs[a]) < first_byte(cs[b + 1]));
        } else {
            assert(ns[a] == cs[a + 1]);
            assert(ns[b] == cs[b + 1]);
            assert(first_byte(cs[a + 1]) < first_byte(cs[b + 1]));
        }
    }
    assert(children_ordered(ns));
    assert forall|rest: Seq<u8>|
        #[trigger] children_lookup(ns, rest) == if rest[0] == first_byte(cs[idx]) {
            None
        } else {
            children_lookup(cs, rest)
        } by {
        if rest[0] == first_byte(cs[idx]) {
            assert forall|j: int| 0 <= j < ns.len() implies first_byte(#[trigger] ns[j]) != rest[0] by {
                if j < idx {
                    assert(first_byte(cs[j]) < first_byte(cs[idx]));
                } else {
                    assert(ns[j] == cs[j + 1]);
                    assert(first_byte(cs[idx]) < first_byte(cs[j + 1]));
                }
            }
        } else if exists|j: int| 0 <= j < cs.len() && #[trigger] first_byte(cs[j]) == rest[0] {
            let j = choose|j: int| 0 <= j < cs.len() && #[trigger] first_byte(cs[j]) == rest[0];
            lemma_children_lookup_at(cs, rest, j);
            if j < idx {
                lemma_children_lookup_at(ns, rest, j);
            } else {
                assert(j != idx);
                assert(ns[j - 1] == cs[j]);
                lemma_children_lookup_at(ns, rest, j - 1);
            }
        } else {
            assert forall|j: int| 0 <= j < ns.len() implies first_byte(#[trigger] ns[j]) != rest[0] by {
                if j >= idx {
                    assert(ns[j] == cs[j + 1]);
                }
            }
        }
    }
}


/// Splitting a node's segment `q + t` after `q`: the lower part answers the keys
/// below `q`.
pub proof fn lemma_lookup_split<V>(n: Node<V>, lower: Node<V>, q: Seq<u8>)
    requires
        n.prefix@ == q + lower.prefix@,
        n.value == lower.value,
        n.children == lower.children,
    ensures
        forall|k: Seq<u8>| #[trigger] n.lookup(k) == if q.is_prefix_of(k) {
            lower.lookup(k.skip(q.len() as int))
        } else {
            None
        },
{
    assert forall|k: Seq<u8>| #[trigger] n.lookup(k) == if q.is_prefix_of(k) {
        lower.lookup(k.skip(q.len() as int))
    } else {
        None
    } by {
        lemma_lookup_unfold(n, k);
        let r = k.skip(q.len() as int);
        if q.is_prefix_of(k) {
            lemma_lookup_unfold(lower, r);
            if n.prefix@.is_prefix_of(k) {
                let t = lower.prefix@;
                assert forall|i: int| 0 <= i < t.len() implies r.subrange(0, t.len() as int)[i] == t[i] by {
                    assert(k[q.len() + i] == k.subrange(0, n.prefix@.len() as int)[q.len() + i]);
                    assert(n.prefix@[q.len() + i] == t[i]);
                }
                assert(r.subrange(0, lower.prefix@.len() as int) =~= lower.prefix@);
                assert(lower.prefix@.is_prefix_of(r));
                assert(r.skip(lower.prefix@.len() as int) == k.skip(n.prefix@.len() as int));
            } else if lower.prefix@.is_prefix_of(r) {
                assert(k.subrange(0, n.prefix@.len() as int) =~= n.prefix@);
                assert(n.prefix@.is_prefix_of(k));
            }
        } else {
            if n.prefix@.is_prefix_of(k) {
                assert(q.is_prefix_of(k));
            }
        }
    }
}

/// Strings `p` and `k` agree on their first `l` bytes and differ at byte `l`.
pub open spec fn diverges_at(p: Seq<u8>, k: Seq<u8>, l: int) -> bool {
    &&& 0 <= l < p.len()
    &&& l < k.len()
    &&& p.take(l) == k.take(l)
    &&& p[l] != k[l]
}

/// Two strings differ first at one position only.
pub proof fn lemma_diverges_unique(p: Seq<u8>, k: Seq<u8>, l: int, m: int)
    requires
        diverges_at(p, k, l),
        0 <= m <= p.len(),
        m <= k.len(),
        p.take(m) == k.take(m),
        m < p.len() && m < k.len() ==> p[m] != k[m],
    ensures
        l == m,
{
    if m < l {
        assert(p[m] == p.take(l)[m]);
        assert(k[m] == k.take(l)[m]);
    } else if l < m {
        assert(p[l] == p.take(m)[l]);
        assert(k[l] == k.take(m)[l]);
    }
}

impl<V> Node<V> {
    /// A node holding only `value` at the end of segment `prefix`.
    pub fn new_leaf(prefix: Vec<u8>, value: V) -> (n: Node<V>)
        ensures
            n.prefix@ == prefix@,
            n.value == Some(value),
            n.children@.len() == 0,
            n.wf(),
            forall|k: Seq<u8>| #[trigger] n.lookup(k) == if k == prefix@ { Some(value) } else { None },
    {
        let n = Node { prefix, value: Some(value), children: Vec::new() };
        proof {
            assert forall|k: Seq<u8>| #[trigger] n.lookup(k) == if k == prefix@ {
                Some(value)
            } else {
                None
            } by {
                if n.prefix@.is_prefix_of(k) && k.len() == n.prefix@.len() {
                    assert(k == prefix@);
                }
            }
        }
        n
    }

    /// Stores `value` under `key[depth..]` (relative to this node), returning the
    /// node that replaces this one and the value that was there before.
    pub fn insert_recurse(self, key: &[u8], depth: usize, value: V) -> (res: (Node<V>, Option<V>))
        requires
            self.wf(),
            depth <= key@.len(),
        ensures
            res.0.wf(),
            res.1 == self.lookup(key@.skip(depth as int)),
            forall|k: Seq<u8>| #[trigger] res.0.lookup(k) == if k == key@.skip(depth as int) {
                Some(value)
            } else {
                self.lookup(k)
            },
            self.prefix@.len() > 0 && depth < key@.len() && key@[depth as int] == first_byte(self)
                ==> res.0.prefix@.len() > 0 && first_byte(res.0) == first_byte(self),
            self.prefix@.is_prefix_of(key@.skip(depth as int)) ==> res.0.prefix@ == self.prefix@,
            forall|l: int|
                #[trigger] diverges_at(self.prefix@, key@.skip(depth as int), l) ==> {
                    &&& res.0.prefix@ == self.prefix@.take(l)
                    &&& res.0.value is None
                    &&& res.0.children@.len() == 2
                    &&& res.1 is None
                },
            key@.skip(depth as int).len() < self.prefix@.len() && key@.skip(depth as int).is_prefix_of(
                self.prefix@,
            ) ==> {
                &&& res.0.prefix@ == key@.skip(depth as int)
                &&& res.0.value == Some(value)
                &&& res.0.children@.len() == 1
                &&& res.1 is None
            },
        decreases self,
    {
        let ghost kk = key@.skip(depth as int);
        let ghost old_node = self;
        let plen = self.prefix.len();
        let klen = key.len() - depth;
        let lcp = common_prefix_len(self.prefix.as_slice(), key, depth);
        proof {
            assert forall|l: int| #[trigger] diverges_at(self.prefix@, kk, l) implies l == lcp by {
                lemma_diverges_unique(self.prefix@, kk, l, lcp as int);
            }
            if self.prefix@.is_prefix_of(kk) && lcp < plen {
                assert(self.prefix@[lcp as int] == kk.subrange(0, plen as int)[lcp as int]);
            }
            if lcp < plen && lcp < klen {
                assert(diverges_at(self.prefix@, kk, lcp as int));
            }
            if lcp == klen {
                assert(kk == kk.take(lcp as int));
            }
        }
        if lcp == plen {
            proof {
                assert(self.prefix@ == self.prefix@.take(plen as int));
                assert(self.prefix@.is_prefix_of(kk));
            }
            if klen == plen {
                let mut node = self;
                let old = node.value.take();
                node.value = Some(value);
                proof {
                    assert(kk == node.prefix@);
                    assert forall|k: Seq<u8>| #[trigger] node.lookup(k) == if k == kk {
                        Some(value)
                    } else {
                        old_node.lookup(k)
                    } by {
                        lemma_lookup_unfold(node, k);
                        lemma_lookup_unfold(old_node, k);
                        if node.prefix@.is_prefix_of(k) && k.len() == plen {
                            assert(k == kk);
                        }
                    }
                    assert forall|i: int| 0 <= i < node.children@.len() implies (#[trigger] node.children@[i]).wf() by {
                        assert(old_node.children@[i].wf());
                    }
                }
                return (node, old);
            }
            let b = key[depth + plen];
            let (idx, found) = find_child(&self.children, b);
            let mut node = self;
            if found {
                let mut child = Node { prefix: Vec::new(), value: None, children: Vec::new() };
                core::mem::swap(&mut child, &mut node.children[idx]);
                proof {
                    assert(child == old_node.children@[idx as int]);
                    assert(old_node.children@[idx as int].wf());
                    assert(decreases_to!(old_node => old_node.children@[idx as int]));
                }
                let (nc, old) = child.insert_recurse(key, depth + plen, value);
                node.children.set(idx, nc);
                proof {
                    let cs = old_node.children@;
                    assert(node.children@ == cs.update(idx as int, nc));
                    lemma_update_child(cs, idx as int, nc);
                    assert(kk.skip(plen as int) == key@.skip(depth + plen));
                    lemma_lookup_child(old_node, kk, idx as int);
                    assert forall|k: Seq<u8>| #[trigger] node.lookup(k) == if k == kk {
                        Some(value)
                    } else {
                        old_node.lookup(k)
                    } by {
                        lemma_lookup_unfold(node, k);
                        lemma_lookup_unfold(old_node, k);
                        if node.prefix@.is_prefix_of(k) && k.len() > plen {
                            let rest = k.skip(plen as int);
                            if rest[0] == b {
                                lemma_lookup_child(old_node, k, idx as int);
                                if rest == key@.skip(depth + plen) {
                                    assert(k.take(plen as int) == kk.take(plen as int));
                                    lemma_seq_split_eq(k, kk, plen as int);
                                }
                                if k == kk {
                                    assert(rest == key@.skip(depth + plen));
                                }
                            } else {
                                assert(k != kk);
                            }
                        }
                    }
                    assert forall|i: int| 0 <= i < node.children@.len() implies (#[trigger] node.children@[i]).wf() by {
                        if i != idx {
                            assert(cs[i].wf());
                        }
                    }
                }
                (node, old)
            } else {
                let leaf = Node::new_leaf(copy_range(key, depth + plen, key.len()), value);
                node.children.insert(idx, leaf);
                proof {
                    let cs = old_node.children@;
                    assert(leaf.prefix@ == key@.skip(depth + plen));
                    assert(kk.skip(plen as int) == key@.skip(depth + plen));
                    assert(first_byte(leaf) == b);
                    lemma_insert_child(cs, idx as int, leaf);
                    lemma_lookup_no_child(old_node, kk);
                    assert forall|k: Seq<u8>| #[trigger] node.lookup(k) == if k == kk {
                        Some(value)
                    } else {
                        old_node.lookup(k)
                    } by {
                        lemma_lookup_unfold(node, k);
                        lemma_lookup_unfold(old_node, k);
                        if node.prefix@.is_prefix_of(k) && k.len() > plen {
                            let rest = k.skip(plen as int);
                            if rest[0] == b {
                                lemma_lookup_no_child(old_node, k);
                                if rest == leaf.prefix@ {
                                    assert(k.take(plen as int) == kk.take(plen as int));
                                    lemma_seq_split_eq(k, kk, plen as int);
                                }
                                if k == kk {
                                    assert(rest == leaf.prefix@);
                                }
                            } else {
                                assert(k != kk);
                            }
                        }
                    }
                    assert forall|i: int| 0 <= i < node.children@.len() implies (#[trigger] node.children@[i]).wf() by {
                        if i < idx {
                            assert(cs[i].wf());
                        } else if i > idx {
                            assert(node.children@[i] == cs[i - 1]);
                            assert(cs[i - 1].wf());
                        }
                    }
                }
                (node, None)
            }
        } else {
            // The key leaves this node's segment part-way: split the segment.
            let Node { prefix, value: old_value, children } = self;
            let mut top_prefix = prefix;
            let tail = top_prefix.split_off(lcp);
            let lower = Node { prefix: tail, value: old_value, children };
            proof {
                assert(lower.wf());
            }
            if klen == lcp {
                let mut cs: Vec<Node<V>> = Vec::new();
                cs.push(lower);
                let top = Node { prefix: top_prefix, value: Some(value), children: cs };
                proof {
                    let q = top.prefix@;
                    let t = lower.prefix@;
                    assert(old_node.prefix@ == q + t);
                    lemma_lookup_split(old_node, lower, q);
                    assert(kk == q);
                    assert(children_ordered(top.children@));
                    assert forall|k: Seq<u8>| #[trigger] top.lookup(k) == if k == kk {
                        Some(value)
                    } else {
                        old_node.lookup(k)
                    } by {
                        lemma_lookup_unfold(top, k);
                        if q.is_prefix_of(k) {
                            if k.len() == lcp {
                                assert(k == kk);
                            } else {
                                let rest = k.skip(lcp as int);
                                if rest[0] == t[0] {
                                    lemma_children_lookup_at(top.children@, rest, 0);
                                } else {
                                    assert(!t.is_prefix_of(rest));
                                    lemma_lookup_unfold(lower, rest);
                                }
                            }
                        }
                    }
                    assert(top.children@[0].wf());
                }
                (top, None)
            } else {
                let leaf = Node::new_leaf(copy_range(key, depth + lcp, key.len()), value);
                let mut cs: Vec<Node<V>> = Vec::new();
                if key[depth + lcp] < lower.prefix[0] {
                    cs.push(leaf);
                    cs.push(lower);
                } else {
                    cs.push(lower);
                    cs.push(leaf);
                }
                let top = Node { prefix: top_prefix, value: None, children: cs };
                proof {
                    let q = top.prefix@;
                    let t = lower.prefix@;
                    let r = leaf.prefix@;
                    assert(old_node.prefix@ == q + t);
                    lemma_lookup_split(old_node, lower, q);
                    assert(r == kk.skip(lcp as int));
                    assert(r[0] != t[0]);
                    assert(children_ordered(top.children@));
                    assert forall|k: Seq<u8>| #[trigger] top.lookup(k) == if k == kk {
                        Some(value)
                    } else {
                        old_node.lookup(k)
                    } by {
                        lemma_lookup_unfold(top, k);
                        if q.is_prefix_of(k) {
                            if k.len() == lcp {
                                assert(k != kk);
                            } else {
                                let rest = k.skip(lcp as int);
                                if k == kk {
                                    assert(rest == r);
                                }
                                if rest[0] == t[0] {
                                    assert(k != kk);
                                    if r[0] < t[0] {
                                        lemma_children_lookup_at(top.children@, rest, 1);
                                    } else {
                                        lemma_children_lookup_at(top.children@, rest, 0);
                                    }
                                } else if rest[0] == r[0] {
                                    assert(!t.is_prefix_of(rest));
                                    lemma_lookup_unfold(lower, rest);
                                    if r[0] < t[0] {
                                        lemma_children_lookup_at(top.children@, rest, 0);
                                    } else {
                                        lemma_children_lookup_at(top.children@, rest, 1);
                                    }
                                    if rest == r {
                                        assert(k.take(lcp as int) == kk.take(lcp as int));
                                        lemma_seq_split_eq(k, kk, lcp as int);
                                    }
                                } else {
                                    assert(k != kk);
                                    assert(!t.is_prefix_of(rest));
                                    lemma_lookup_unfold(lower, rest);
                                }
                            }
                        } else {
                            assert(k != kk);
                        }
                    }
                    assert(top.children@[0].wf());
                    assert(top.children@[1].wf());
                }
                (top, None)
            }
        }
    }
}


impl<V> Node<V> {
    /// Removes the value under `key[depth..]` (relative to this node). Returns the
    /// node that replaces this one (`None` when nothing is left below it) and the
    /// removed value.
    pub fn remove_recurse(self, key: &[u8], depth: usize) -> (res: (Option<Node<V>>, Option<V>))
        requires
            self.wf(),
            depth <= key@.len(),
        ensures
            res.1 == self.lookup(key@.skip(depth as int)),
            match res.0 {
                Some(n) => {
                    &&& n.wf()
                    &&& n.prefix@ == self.prefix@
                    &&& forall|k: Seq<u8>| #[trigger] n.lookup(k) == if k == key@.skip(depth as int) {
                        None
                    } else {
                        self.lookup(k)
                    }
                },
                None => forall|k: Seq<u8>| k != key@.skip(depth as int) ==> (#[trigger] self.lookup(k)) is None,
            },
        decreases self,
    {
        let ghost kk = key@.skip(depth as int);
        let ghost old_node = self;
        let plen = self.prefix.len();
        let klen = key.len() - depth;
        if klen < plen || !is_prefix_at(self.prefix.as_slice(), key, depth) {
            proof {
                lemma_lookup_unfold(self, kk);
            }
            return (Some(self), None);
        }
        if klen == plen {
            let mut node = self;
            let old = node.value.take();
            proof {
                assert(kk == node.prefix@) by {
                    assert(kk.subrange(0, plen as int) == kk);
                }
                assert forall|k: Seq<u8>| #[trigger] node.lookup(k) == if k == kk {
                    None
                } else {
                    old_node.lookup(k)
                } by {
                    lemma_lookup_unfold(node, k);
                    lemma_lookup_unfold(old_node, k);
                    if node.prefix@.is_prefix_of(k) && k.len() == plen {
                        assert(k == node.prefix@) by {
                            assert(k.subrange(0, plen as int) == k);
                        }
                    }
                }
            }
            if node.children.len() == 0 {
                proof {
                    assert forall|k: Seq<u8>| k != kk implies (#[trigger] old_node.lookup(k)) is None by {
                        lemma_lookup_unfold(node, k);
                        if node.prefix@.is_prefix_of(k) && k.len() > plen {
                            lemma_lookup_no_child(node, k);
                        }
                    }
                }
                return (None, old);
            }
            proof {
                assert forall|i: int| 0 <= i < node.children@.len() implies (#[trigger] node.children@[i]).wf() by {
                    assert(old_node.children@[i].wf());
                }
            }
            return (Some(node), old);
        }
        let b = key[depth + plen];
        let (idx, found) = find_child(&self.children, b);
        if !found {
            proof {
                lemma_lookup_no_child(self, kk);
            }
            return (Some(self), None);
        }
        let mut node = self;
        let child = node.children.remove(idx);
        proof {
            assert(child == old_node.children@[idx as int]);
            assert(old_node.children@[idx as int].wf());
            assert(decreases_to!(old_node => old_node.children@[idx as int]));
        }
        let (nc, old) = child.remove_recurse(key, depth + plen);
        let ghost cs = old_node.children@;
        proof {
            assert(kk.skip(plen as int) == key@.skip(depth + plen));
            lemma_lookup_child(old_node, kk, idx as int);
        }
        match nc {
            Some(c) => {
                node.children.insert(idx, c);
                proof {
                    assert(node.children@ == cs.update(idx as int, c));
                    lemma_update_child(cs, idx as int, c);
                }
            },
            None => {
                proof {
                    lemma_remove_child(cs, idx as int);
                }
            },
        }
        proof {
            assert forall|k: Seq<u8>| #[trigger] node.lookup(k) == if k == kk {
                None
            } else {
                old_node.lookup(k)
            } by {
                lemma_lookup_unfold(node, k);
                lemma_lookup_unfold(old_node, k);
                if node.prefix@.is_prefix_of(k) && k.len() > plen {
                    let rest = k.skip(plen as int);
                    if rest[0] == b {
                        lemma_lookup_child(old_node, k, idx as int);
                        if rest == key@.skip(depth + plen) {
                            assert(k.take(plen as int) == kk.take(plen as int));
                            lemma_seq_split_eq(k, kk, plen as int);
                        }
                        if k == kk {
                            assert(rest == key@.skip(depth + plen));
                        }
                    } else {
                        assert(k != kk);
                    }
                } else {
                    assert(k != kk);
                }
            }
            assert forall|i: int| 0 <= i < node.children@.len() implies (#[trigger] node.children@[i]).wf() by {
                if nc is Some {
                    if i != idx {
                        assert(cs[i].wf());
                    }
                } else {
                    if i < idx {
                        assert(cs[i].wf());
                    } else {
                        assert(node.children@[i] == cs[i + 1]);
                        assert(cs[i + 1].wf());
                    }
                }
            }
        }
        if node.value.is_none() && node.children.len() == 0 {
            proof {
                assert forall|k: Seq<u8>| k != kk implies (#[trigger] old_node.lookup(k)) is None by {
                    lemma_lookup_unfold(node, k);
                    if node.prefix@.is_prefix_of(k) && k.len() > plen {
                        lemma_lookup_no_child(node, k);
                    }
                }
            }
            return (None, old);
        }
        (Some(node), old)
    }
}


/// A well-formed node stands for a non-empty map.
pub proof fn lemma_wf_nonempty<V>(n: Node<V>) -> (k: Seq<u8>)
    requires
        n.wf(),
    ensures
        n.lookup(k) is Some,
        n.prefix@.is_prefix_of(k),
    decreases n,
{
    if n.value is Some {
        let k = n.prefix@;
        assert(k.subrange(0, k.len() as int) == k);
        k
    } else {
        let c = n.children@[0];
        assert(c.wf());
        let kc = lemma_wf_nonempty(c);
        let k = n.prefix@ + kc;
        assert(k.subrange(0, n.prefix@.len() as int) == n.prefix@);
        assert(k.skip(n.prefix@.len() as int) == kc);
        assert(c.prefix@.len() > 0);
        assert(kc[0] == c.prefix@[0]);
        lemma_lookup_child(n, k, 0);
        k
    }
}


impl<V> Node<V> {
    /// Number of levels of the subtree below and including this node.
    pub open spec fn height(self) -> nat
        decreases self, 0nat,
    {
        1 + max_height(self.children@, self.children@.len() as int)
    }
}

/// Largest height among the first `i` nodes of `cs`.
pub open spec fn max_height<V>(cs: Seq<Node<V>>, i: int) -> nat
    decreases cs, i,
{
    if i <= 0 || i > cs.len() {
        0
    } else {
        let h = cs[i - 1].height();
        let m = max_height(cs, i - 1);
        if h > m {
            h
        } else {
            m
        }
    }
}

proof fn lemma_max_height_bound<V>(cs: Seq<Node<V>>, i: int, j: int)
    requires
        0 <= j < i <= cs.len(),
    ensures
        cs[j].height() <= max_height(cs, i),
    decreases i,
{
    if j < i - 1 {
        lemma_max_height_bound(cs, i - 1, j);
    }
}

/// A child is lower than its parent.
pub proof fn lemma_child_height<V>(n: Node<V>, i: int)
    requires
        0 <= i < n.children@.len(),
    ensures
        n.children@[i].height() < n.height(),
{
    lemma_max_height_bound(n.children@, n.children@.len() as int, i);
}

} // verus!
