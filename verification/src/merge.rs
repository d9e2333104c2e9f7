//! Merging two nodes key by key, with a resolver for keys present in both.
use vstd::prelude::*;
use crate::bytes::common_prefix_len;
use crate::node::{
    Node, children_lookup, children_ordered, first_byte, find_child, lemma_child_height,
    lemma_children_lookup_at, lemma_insert_child, lemma_lookup_split, lemma_lookup_unfold,
    lemma_lookup_child, lemma_remove_child, lemma_update_child,
};

verus! {

/// The resolver may be called on any two values.
pub open spec fn resolver_total<V, F: FnMut(V, V) -> V>(f: F) -> bool {
    forall|a: V, b: V| #[trigger] call_requires(f, (a, b))
}

/// `m` is what merging gives for a key whose values on the left and on the right
/// are `a` and `b`: the one value present, or the resolver's answer when both are.
pub open spec fn merged_value<V, F: FnMut(V, V) -> V>(f: F, a: Option<V>, b: Option<V>, m: Option<V>) -> bool {
    match (a, b) {
        (None, None) => m is None,
        (Some(x), None) => m == Some(x),
        (None, Some(y)) => m == Some(y),
        (Some(x), Some(y)) => m is Some && call_ensures(f, (x, y), m->0),
    }
}

/// The resolver may be called on the two values, when both are present.
pub open spec fn resolvable<V, F: FnMut(V, V) -> V>(f: F, a: Option<V>, b: Option<V>) -> bool {
    (a is Some && b is Some) ==> call_requires(f, (a->0, b->0))
}

/// The resolver may be called on the two values that the nodes hold for any key
/// both hold.
pub open spec fn resolves_keys<V, F: FnMut(V, V) -> V>(f: F, n1: Node<V>, n2: Node<V>) -> bool {
    forall|k: Seq<u8>| #[trigger] resolvable(f, n1.lookup(k), n2.lookup(k))
}

/// A resolver that accepts every pair accepts the pairs of any two nodes.
pub proof fn lemma_total_resolves<V, F: FnMut(V, V) -> V>(f: F, n1: Node<V>, n2: Node<V>)
    requires
        resolver_total(f),
    ensures
        resolves_keys(f, n1, n2),
{
    assert forall|k: Seq<u8>| #[trigger] resolvable(f, n1.lookup(k), n2.lookup(k)) by {
        if n1.lookup(k) is Some && n2.lookup(k) is Some {
            assert(call_requires(f, (n1.lookup(k)->0, n2.lookup(k)->0)));
        }
    }
}

/// What a child holds under `rest` its parent holds under its segment and `rest`.
pub proof fn lemma_child_lookup_via<V>(n: Node<V>, i: int, rest: Seq<u8>)
    requires
        children_ordered(n.children@),
        0 <= i < n.children@.len(),
        n.children@[i].lookup(rest) is Some,
    ensures
        n.lookup(n.prefix@ + rest) == n.children@[i].lookup(rest),
{
    let c = n.children@[i];
    let p = n.prefix@;
    let k = p + rest;
    lemma_lookup_unfold(c, rest);
    assert(rest[0] == rest.subrange(0, c.prefix@.len() as int)[0]);
    assert(k.subrange(0, p.len() as int) =~= p);
    assert(k.skip(p.len() as int) =~= rest);
    assert(k[p.len() as int] == rest[0]);
    lemma_lookup_child(n, k, i);
}

/// Keys of `a` and `b` below a common segment `q` of `n1` and `n2`: the resolver
/// accepts their pairs if it accepts those of `n1` and `n2`.
pub proof fn lemma_resolves_below<V, F: FnMut(V, V) -> V>(
    f: F,
    n1: Node<V>,
    n2: Node<V>,
    q: Seq<u8>,
    a: Node<V>,
    b: Node<V>,
)
    requires
        resolves_keys(f, n1, n2),
        forall|rest: Seq<u8>| (#[trigger] a.lookup(rest)) is Some ==> n1.lookup(q + rest) == a.lookup(rest),
        forall|rest: Seq<u8>| (#[trigger] b.lookup(rest)) is Some ==> n2.lookup(q + rest) == b.lookup(rest),
    ensures
        resolves_keys(f, a, b),
{
    assert forall|rest: Seq<u8>| #[trigger] resolvable(f, a.lookup(rest), b.lookup(rest)) by {
        assert(resolvable(f, n1.lookup(q + rest), n2.lookup(q + rest)));
    }
}

/// Combines the values two nodes hold for the same key.
pub fn combine_values<V, F: FnMut(V, V) -> V>(a: Option<V>, b: Option<V>, f: &mut F) -> (r: Option<V>)
    requires
        resolvable(*old(f), a, b),
    ensures
        merged_value(*old(f), a, b, r),
        *final(f) == *old(f),
{
    match a {
        Some(x) => match b {
            Some(y) => {
                let w = f(x, y);
                Some(w)
            },
            None => Some(x),
        },
        None => b,
    }
}


/// What merging `n1` (left) and `n2` (right) into `r` guarantees.
pub open spec fn merge_result<V, F: FnMut(V, V) -> V>(f: F, n1: Node<V>, n2: Node<V>, r: Node<V>) -> bool {
    &&& r.wf()
    &&& forall|k: Seq<u8>| merged_value(f, n1.lookup(k), n2.lookup(k), #[trigger] r.lookup(k))
    &&& (n1.prefix@.len() > 0 && n2.prefix@.len() > 0 && first_byte(n1) == first_byte(n2)) ==> (
    r.prefix@.len() > 0 && first_byte(r) == first_byte(n1))
}

/// Children that skip the first `i` of an ordered sequence are still ordered.
pub proof fn lemma_skip_ordered<V>(cs: Seq<Node<V>>, i: int)
    requires
        children_ordered(cs),
        0 <= i <= cs.len(),
    ensures
        children_ordered(cs.skip(i)),
{
    let s = cs.skip(i);
    assert forall|a: int| 0 <= a < s.len() implies (#[trigger] s[a]).prefix@.len() > 0 by {
        assert(s[a] == cs[a + i]);
    }
    assert forall|a: int, b: int| 0 <= a < b < s.len() implies first_byte(#[trigger] s[a])
        < first_byte(#[trigger] s[b]) by {
        assert(s[a] == cs[a + i]);
        assert(s[b] == cs[b + i]);
    }
}

/// No child with the first byte of `rest`: the lookup among children is absent.
pub proof fn lemma_children_lookup_none<V>(cs: Seq<Node<V>>, rest: Seq<u8>)
    requires
        forall|j: int| 0 <= j < cs.len() ==> first_byte(#[trigger] cs[j]) != rest[0],
    ensures
        children_lookup(cs, rest) is None,
{
}

/// Two nodes whose segments part ways after `l` bytes become the children of a new
/// node holding the common part; their keys are disjoint.
pub fn merge_divergent<V>(n1: Node<V>, n2: Node<V>, l: usize) -> (r: Node<V>)
    requires
        n1.wf(),
        n2.wf(),
        l < n1.prefix@.len(),
        l < n2.prefix@.len(),
        n1.prefix@.take(l as int) == n2.prefix@.take(l as int),
        n1.prefix@[l as int] != n2.prefix@[l as int],
    ensures
        r.wf(),
        r.prefix@ == n1.prefix@.take(l as int),
        forall|k: Seq<u8>| #[trigger] r.lookup(k) == if n1.lookup(k) is Some {
            n1.lookup(k)
        } else {
            n2.lookup(k)
        },
        forall|k: Seq<u8>| !(#[trigger] n1.lookup(k) is Some && n2.lookup(k) is Some),
{
    let ghost o1 = n1;
    let ghost o2 = n2;
    let Node { prefix: pf1, value: v1, children: c1 } = n1;
    let Node { prefix: pf2, value: v2, children: c2 } = n2;
    let mut q = pf1;
    let t1 = q.split_off(l);
    let mut q2 = pf2;
    let t2 = q2.split_off(l);
    let a = Node { prefix: t1, value: v1, children: c1 };
    let b = Node { prefix: t2, value: v2, children: c2 };
    proof {
        assert(a.wf());
        assert(b.wf());
    }
    let mut cs: Vec<Node<V>> = Vec::new();
    let a_first = a.prefix[0] < b.prefix[0];
    if a_first {
        cs.push(a);
        cs.push(b);
    } else {
        cs.push(b);
        cs.push(a);
    }
    let r = Node { prefix: q, value: None, children: cs };
    proof {
        let qs = r.prefix@;
        assert(o1.prefix@ == qs + a.prefix@);
        assert(o2.prefix@ == qs + b.prefix@);
        lemma_lookup_split(o1, a, qs);
        lemma_lookup_split(o2, b, qs);
        let ia: int = if a_first { 0 } else { 1 };
        let ib: int = if a_first { 1 } else { 0 };
        assert(r.children@[ia] == a);
        assert(r.children@[ib] == b);
        assert(children_ordered(r.children@));
        assert forall|k: Seq<u8>| #[trigger] r.lookup(k) == if o1.lookup(k) is Some {
            o1.lookup(k)
        } else {
            o2.lookup(k)
        } && !(o1.lookup(k) is Some && o2.lookup(k) is Some) by {
            lemma_lookup_unfold(r, k);
            if qs.is_prefix_of(k) {
                let rest = k.skip(l as int);
                lemma_lookup_unfold(a, rest);
                lemma_lookup_unfold(b, rest);
                if k.len() > l {
                    if rest[0] == a.prefix@[0] {
                        lemma_children_lookup_at(r.children@, rest, ia);
                    } else if rest[0] == b.prefix@[0] {
                        lemma_children_lookup_at(r.children@, rest, ib);
                    }
                }
            }
        }
        assert(r.children@[0].wf());
        assert(r.children@[1].wf());
    }
    r
}

/// Merges two nodes, calling the resolver on keys present in both.
pub fn merge_nodes_with<V, F: FnMut(V, V) -> V>(n1: Node<V>, n2: Node<V>, f: &mut F) -> (r: Node<V>)
    requires
        n1.wf(),
        n2.wf(),
        resolves_keys(*old(f), n1, n2),
    ensures
        merge_result(*old(f), n1, n2, r),
        *final(f) == *old(f),
    decreases n1.height() + n2.height(), 1nat,
{
    let ghost o1 = n1;
    let ghost o2 = n2;
    let l = common_prefix_len(n1.prefix.as_slice(), n2.prefix.as_slice(), 0);
    let p1 = n1.prefix.len();
    let p2 = n2.prefix.len();
    proof {
        assert(n2.prefix@.skip(0) == n2.prefix@);
    }
    if l == p1 && l == p2 {
        proof {
            assert(n1.prefix@ == n1.prefix@.take(l as int));
            assert(n2.prefix@ == n2.prefix@.take(l as int));
        }
        merge_same_prefix_with(n1, n2, f)
    } else if l == p1 {
        proof {
            assert(n1.prefix@ == n1.prefix@.take(l as int));
        }
        merge_node1_is_prefix_with(n1, n2, l, f)
    } else if l == p2 {
        proof {
            assert(n2.prefix@ == n2.prefix@.take(l as int));
        }
        merge_node2_is_prefix_with(n1, n2, l, f)
    } else {
        let r = merge_divergent(n1, n2, l);
        proof {
            assert forall|k: Seq<u8>| merged_value(*f, o1.lookup(k), o2.lookup(k), #[trigger] r.lookup(k)) by {
                assert(!(o1.lookup(k) is Some && o2.lookup(k) is Some));
            }
            if o1.prefix@.len() > 0 && o2.prefix@.len() > 0 && first_byte(o1) == first_byte(o2) {
                assert(l > 0);
                assert(r.prefix@[0] == o1.prefix@.take(l as int)[0]);
            }
        }
        r
    }
}

/// Merges two nodes with equal segments: their values are combined and their
/// children merged byte by byte.
pub fn merge_same_prefix_with<V, F: FnMut(V, V) -> V>(n1: Node<V>, n2: Node<V>, f: &mut F) -> (r: Node<V>)
    requires
        n1.wf(),
        n2.wf(),
        n1.prefix@ == n2.prefix@,
        resolves_keys(*old(f), n1, n2),
    ensures
        merge_result(*old(f), n1, n2, r),
        *final(f) == *old(f),
        r.prefix@ == n1.prefix@,
    decreases n1.height() + n2.height(), 0nat,
{
    let ghost o1 = n1;
    let ghost o2 = n2;
    let Node { prefix, value: v1, children: c1 } = n1;
    let Node { prefix: _p2, value: v2, children: c2 } = n2;
    proof {
        let p = o1.prefix@;
        assert(p.subrange(0, p.len() as int) =~= p);
        lemma_lookup_unfold(o1, p);
        lemma_lookup_unfold(o2, p);
        assert(resolvable(*f, o1.lookup(p), o2.lookup(p)));
    }
    let value = combine_values(v1, v2, f);
    let ghost cs1 = c1@;
    let ghost cs2 = c2@;
    let mut rem1 = c1;
    let mut rem2 = c2;
    let mut out: Vec<Node<V>> = Vec::new();
    let ghost mut t: int = 0;
    let ghost mut i1: int = 0;
    let ghost mut i2: int = 0;
    proof {
        assert(cs1.skip(0) == cs1);
        assert(cs2.skip(0) == cs2);
        assert forall|rest: Seq<u8>| rest[0] >= t implies (#[trigger] children_lookup(out@, rest)) is None by {
            lemma_children_lookup_none(out@, rest);
        }
    }
    while rem1.len() > 0 || rem2.len() > 0
        invariant
            resolves_keys(*f, o1, o2),
            o1.prefix@ == o2.prefix@,
            *f == *old(f),
            o1 == n1,
            o2 == n2,
            cs1 == o1.children@,
            cs2 == o2.children@,
            children_ordered(cs1),
            children_ordered(cs2),
            forall|i: int| 0 <= i < cs1.len() ==> (#[trigger] cs1[i]).wf(),
            forall|i: int| 0 <= i < cs2.len() ==> (#[trigger] cs2[i]).wf(),
            0 <= i1 <= cs1.len(),
            0 <= i2 <= cs2.len(),
            rem1@ == cs1.skip(i1),
            rem2@ == cs2.skip(i2),
            0 <= t <= 256,
            forall|j: int| 0 <= j < rem1@.len() ==> first_byte(#[trigger] rem1@[j]) >= t,
            forall|j: int| 0 <= j < rem2@.len() ==> first_byte(#[trigger] rem2@[j]) >= t,
            children_ordered(out@),
            forall|j: int| 0 <= j < out@.len() ==> first_byte(#[trigger] out@[j]) < t,
            forall|j: int| 0 <= j < out@.len() ==> (#[trigger] out@[j]).wf(),
            (i1 > 0 || i2 > 0) ==> out@.len() > 0,
            forall|rest: Seq<u8>|
                rest[0] < t ==> merged_value(*f, 
                    children_lookup(cs1, rest),
                    children_lookup(cs2, rest),
                    #[trigger] children_lookup(out@, rest),
                ),
            forall|rest: Seq<u8>|
                rest[0] >= t ==> {
                    &&& (#[trigger] children_lookup(out@, rest)) is None
                    &&& children_lookup(cs1, rest) == children_lookup(rem1@, rest)
                    &&& children_lookup(cs2, rest) == children_lookup(rem2@, rest)
                },
        decreases rem1@.len() + rem2@.len(),
    {
        proof {
            lemma_skip_ordered(cs1, i1);
            lemma_skip_ordered(cs2, i2);
        }
        let take1: bool;
        let take2: bool;
        if rem2.len() == 0 {
            take1 = true;
            take2 = false;
        } else if rem1.len() == 0 {
            take1 = false;
            take2 = true;
        } else {
            let b1 = rem1[0].prefix[0];
            let b2 = rem2[0].prefix[0];
            take1 = b1 <= b2;
            take2 = b2 <= b1;
        }
        let ghost old_out = out@;
        let ghost r1 = rem1@;
        let ghost r2 = rem2@;
        let ghost h: u8 = if take1 { first_byte(r1[0]) } else { first_byte(r2[0]) };
        proof {
            // Everything left on either side is at or above `h`.
            assert forall|j: int| 0 <= j < r1.len() implies first_byte(#[trigger] r1[j]) >= h by {
                if j > 0 {
                    assert(first_byte(r1[0]) < first_byte(r1[j]));
                }
            }
            assert forall|j: int| 0 <= j < r2.len() implies first_byte(#[trigger] r2[j]) >= h by {
                if j > 0 {
                    assert(first_byte(r2[0]) < first_byte(r2[j]));
                }
            }
            if take1 && !take2 {
                assert forall|j: int| 0 <= j < r2.len() implies first_byte(#[trigger] r2[j]) > h by {
                    if j > 0 {
                        assert(first_byte(r2[0]) < first_byte(r2[j]));
                    }
                }
            }
            if take2 && !take1 {
                assert forall|j: int| 0 <= j < r1.len() implies first_byte(#[trigger] r1[j]) > h by {
                    if j > 0 {
                        assert(first_byte(r1[0]) < first_byte(r1[j]));
                    }
                }
            }
            if take1 {
                lemma_remove_child(r1, 0);
            }
            if take2 {
                lemma_remove_child(r2, 0);
            }
        }
        let c: Node<V>;
        if take1 && take2 {
            let a = rem1.remove(0);
            let b = rem2.remove(0);
            proof {
                assert(a == cs1[i1]);
                assert(b == cs2[i2]);
                lemma_child_height(o1, i1);
                lemma_child_height(o2, i2);
                assert forall|rest: Seq<u8>| (#[trigger] a.lookup(rest)) is Some implies o1.lookup(o1.prefix@ + rest) == a.lookup(rest) by {
                    lemma_child_lookup_via(o1, i1, rest);
                }
                assert forall|rest: Seq<u8>| (#[trigger] b.lookup(rest)) is Some implies o2.lookup(o1.prefix@ + rest) == b.lookup(rest) by {
                    lemma_child_lookup_via(o2, i2, rest);
                }
                lemma_resolves_below(*f, o1, o2, o1.prefix@, a, b);
            }
            c = merge_nodes_with(a, b, f);
            proof {
                i1 = i1 + 1;
                i2 = i2 + 1;
            }
        } else if take1 {
            c = rem1.remove(0);
            proof {
                i1 = i1 + 1;
            }
        } else {
            c = rem2.remove(0);
            proof {
                i2 = i2 + 1;
            }
        }
        out.push(c);
        proof {
            assert(c.prefix@.len() > 0);
            assert(first_byte(c) == h);
            assert(out@ == old_out.insert(old_out.len() as int, c));
            lemma_insert_child(old_out, old_out.len() as int, c);
            assert(rem1@ == cs1.skip(i1));
            assert(rem2@ == cs2.skip(i2));
            assert forall|rest: Seq<u8>|
                rest[0] < h + 1 implies merged_value(*f, 
                children_lookup(cs1, rest),
                children_lookup(cs2, rest),
                #[trigger] children_lookup(out@, rest),
            ) by {
                if rest[0] >= t {
                    if rest[0] == h {
                        if take1 {
                            lemma_children_lookup_at(r1, rest, 0);
                        } else {
                            lemma_children_lookup_none(r1, rest);
                        }
                        if take2 {
                            lemma_children_lookup_at(r2, rest, 0);
                        } else {
                            lemma_children_lookup_none(r2, rest);
                        }
                    } else {
                        lemma_children_lookup_none(r1, rest);
                        lemma_children_lookup_none(r2, rest);
                    }
                }
            }
            assert forall|rest: Seq<u8>|
                rest[0] >= h + 1 implies {
                &&& (#[trigger] children_lookup(out@, rest)) is None
                &&& children_lookup(cs1, rest) == children_lookup(rem1@, rest)
                &&& children_lookup(cs2, rest) == children_lookup(rem2@, rest)
            } by {
            }
            assert forall|j: int| 0 <= j < out@.len() implies (#[trigger] out@[j]).wf() by {
                if j < old_out.len() {
                    assert(out@[j] == old_out[j]);
                }
            }
            assert forall|j: int| 0 <= j < rem1@.len() implies first_byte(#[trigger] rem1@[j]) >= h + 1 by {
                if take1 {
                    assert(rem1@[j] == r1[j + 1]);
                    assert(first_byte(r1[0]) < first_byte(r1[j + 1]));
                } else {
                    assert(rem1@[j] == r1[j]);
                }
            }
            assert forall|j: int| 0 <= j < rem2@.len() implies first_byte(#[trigger] rem2@[j]) >= h + 1 by {
                if take2 {
                    assert(rem2@[j] == r2[j + 1]);
                    assert(first_byte(r2[0]) < first_byte(r2[j + 1]));
                } else {
                    assert(rem2@[j] == r2[j]);
                }
            }
            t = h + 1;
        }
    }
    let r = Node { prefix, value, children: out };
    proof {
        assert(rem1@.len() == 0 && rem2@.len() == 0);
        if value is None {
            assert(o1.children@.len() > 0 || o2.children@.len() > 0);
        }
        assert forall|rest: Seq<u8>| merged_value(*f, 
            children_lookup(cs1, rest),
            children_lookup(cs2, rest),
            #[trigger] children_lookup(r.children@, rest),
        ) by {
            if rest[0] >= t {
                lemma_children_lookup_none(rem1@, rest);
                lemma_children_lookup_none(rem2@, rest);
            }
        }
        assert forall|k: Seq<u8>| merged_value(*f, o1.lookup(k), o2.lookup(k), #[trigger] r.lookup(k)) by {
            lemma_lookup_unfold(r, k);
            lemma_lookup_unfold(o1, k);
            lemma_lookup_unfold(o2, k);
            if r.prefix@.is_prefix_of(k) && k.len() > r.prefix@.len() {
                let rest = k.skip(r.prefix@.len() as int);
                assert(merged_value(*f, 
                    children_lookup(cs1, rest),
                    children_lookup(cs2, rest),
                    children_lookup(r.children@, rest),
                ));
            }
        }
    }
    r
}

/// Merges when the left node's segment is a proper prefix of the right one's: the
/// right node goes under the left one, merged with the child its next byte selects.
pub fn merge_node1_is_prefix_with<V, F: FnMut(V, V) -> V>(
    n1: Node<V>,
    n2: Node<V>,
    l: usize,
    f: &mut F,
) -> (r: Node<V>)
    requires
        n1.wf(),
        n2.wf(),
        l == n1.prefix@.len(),
        l < n2.prefix@.len(),
        n1.prefix@ == n2.prefix@.take(l as int),
        resolves_keys(*old(f), n1, n2),
    ensures
        merge_result(*old(f), n1, n2, r),
        *final(f) == *old(f),
        r.prefix@ == n1.prefix@,
    decreases n1.height() + n2.height(), 0nat,
{
    let ghost o1 = n1;
    let ghost o2 = n2;
    let Node { prefix: pf2, value: v2, children: c2 } = n2;
    let mut head = pf2;
    let tail = head.split_off(l);
    let b = Node { prefix: tail, value: v2, children: c2 };
    proof {
        assert(b.wf());
        assert(o2.prefix@ == o1.prefix@ + b.prefix@);
        lemma_lookup_split(o2, b, o1.prefix@);
    }
    let e = b.prefix[0];
    let mut node = n1;
    let (idx, found) = find_child(&node.children, e);
    let ghost cs = o1.children@;
    let ghost c: Node<V>;
    if found {
        let a = node.children.remove(idx);
        proof {
            assert(a == cs[idx as int]);
            lemma_child_height(o1, idx as int);
            assert(cs[idx as int].wf());
            assert forall|rest: Seq<u8>| (#[trigger] a.lookup(rest)) is Some implies o1.lookup(o1.prefix@ + rest) == a.lookup(rest) by {
                lemma_child_lookup_via(o1, idx as int, rest);
            }
            assert forall|rest: Seq<u8>| (#[trigger] b.lookup(rest)) is Some implies o2.lookup(o1.prefix@ + rest) == b.lookup(rest) by {
                let k = o1.prefix@ + rest;
                assert(k.subrange(0, o1.prefix@.len() as int) =~= o1.prefix@);
                assert(k.skip(o1.prefix@.len() as int) =~= rest);
            }
            lemma_resolves_below(*f, o1, o2, o1.prefix@, a, b);
        }
        let m = merge_nodes_with(a, b, f);
        proof {
            c = m;
            assert(first_byte(m) == e);
            lemma_update_child(cs, idx as int, m);
        }
        node.children.insert(idx, m);
        proof {
            assert(node.children@ == cs.update(idx as int, m));
        }
    } else {
        proof {
            c = b;
            lemma_insert_child(cs, idx as int, b);
        }
        node.children.insert(idx, b);
    }
    proof {
        assert forall|k: Seq<u8>| merged_value(*f, o1.lookup(k), o2.lookup(k), #[trigger] node.lookup(k)) by {
            lemma_lookup_unfold(node, k);
            lemma_lookup_unfold(o1, k);
            let rest = k.skip(l as int);
            lemma_lookup_unfold(b, rest);
            if o1.prefix@.is_prefix_of(k) && k.len() > l {
                if rest[0] == e {
                    if found {
                        lemma_children_lookup_at(cs, rest, idx as int);
                    } else {
                        lemma_children_lookup_none(cs, rest);
                    }
                }
            }
        }
        assert forall|i: int| 0 <= i < node.children@.len() implies (#[trigger] node.children@[i]).wf() by {
            if i < idx {
                assert(cs[i].wf());
            } else if i > idx {
                if found {
                    assert(cs[i].wf());
                } else {
                    assert(node.children@[i] == cs[i - 1]);
                    assert(cs[i - 1].wf());
                }
            }
        }
    }
    node
}

/// Merges when the right node's segment is a proper prefix of the left one's: the
/// left node goes under the right one, merged with the child its next byte selects.
pub fn merge_node2_is_prefix_with<V, F: FnMut(V, V) -> V>(
    n1: Node<V>,
    n2: Node<V>,
    l: usize,
    f: &mut F,
) -> (r: Node<V>)
    requires
        n1.wf(),
        n2.wf(),
        l == n2.prefix@.len(),
        l < n1.prefix@.len(),
        n2.prefix@ == n1.prefix@.take(l as int),
        resolves_keys(*old(f), n1, n2),
    ensures
        merge_result(*old(f), n1, n2, r),
        *final(f) == *old(f),
        r.prefix@ == n2.prefix@,
    decreases n1.height() + n2.height(), 0nat,
{
    let ghost o1 = n1;
    let ghost o2 = n2;
    let Node { prefix: pf1, value: v1, children: c1 } = n1;
    let mut head = pf1;
    let tail = head.split_off(l);
    let a = Node { prefix: tail, value: v1, children: c1 };
    proof {
        assert(a.wf());
        assert(o1.prefix@ == o2.prefix@ + a.prefix@);
        lemma_lookup_split(o1, a, o2.prefix@);
    }
    let e = a.prefix[0];
    let mut node = n2;
    let (idx, found) = find_child(&node.children, e);
    let ghost cs = o2.children@;
    if found {
        let b = node.children.remove(idx);
        proof {
            assert(b == cs[idx as int]);
            lemma_child_height(o2, idx as int);
            assert(cs[idx as int].wf());
            assert forall|rest: Seq<u8>| (#[trigger] b.lookup(rest)) is Some implies o2.lookup(o2.prefix@ + rest) == b.lookup(rest) by {
                lemma_child_lookup_via(o2, idx as int, rest);
            }
            assert forall|rest: Seq<u8>| (#[trigger] a.lookup(rest)) is Some implies o1.lookup(o2.prefix@ + rest) == a.lookup(rest) by {
                let k = o2.prefix@ + rest;
                assert(k.subrange(0, o2.prefix@.len() as int) =~= o2.prefix@);
                assert(k.skip(o2.prefix@.len() as int) =~= rest);
            }
            lemma_resolves_below(*f, o1, o2, o2.prefix@, a, b);
        }
        let m = merge_nodes_with(a, b, f);
        proof {
            assert(first_byte(m) == e);
            lemma_update_child(cs, idx as int, m);
        }
        node.children.insert(idx, m);
        proof {
            assert(node.children@ == cs.update(idx as int, m));
        }
    } else {
        proof {
            lemma_insert_child(cs, idx as int, a);
        }
        node.children.insert(idx, a);
    }
    proof {
        assert forall|k: Seq<u8>| merged_value(*f, o1.lookup(k), o2.lookup(k), #[trigger] node.lookup(k)) by {
            lemma_lookup_unfold(node, k);
            lemma_lookup_unfold(o2, k);
            let rest = k.skip(l as int);
            lemma_lookup_unfold(a, rest);
            if o2.prefix@.is_prefix_of(k) && k.len() > l {
                if rest[0] == e {
                    if found {
                        lemma_children_lookup_at(cs, rest, idx as int);
                    } else {
                        lemma_children_lookup_none(cs, rest);
                    }
                }
            }
        }
        assert forall|i: int| 0 <= i < node.children@.len() implies (#[trigger] node.children@[i]).wf() by {
            if i < idx {
                assert(cs[i].wf());
            } else if i > idx {
                if found {
                    assert(cs[i].wf());
                } else {
                    assert(node.children@[i] == cs[i - 1]);
                    assert(cs[i - 1].wf());
                }
            }
        }
        if o1.prefix@.len() > 0 && o2.prefix@.len() > 0 && first_byte(o1) == first_byte(o2) {
            assert(node.prefix@ == o2.prefix@);
        }
    }
    node
}

} // verus!
