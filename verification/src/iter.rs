//! Ordered listing of the entries of a node, and the facts that make it an
//! iteration in key order over exactly the map the node stands for.
use vstd::prelude::*;
use crate::bytes::{lex_lt, lemma_lex_common_prefix, lemma_lex_extension, lemma_lex_first_byte};
use crate::keys::KeyTrait;
use crate::node::{
    Node, children_lookup, children_ordered, first_byte, lemma_children_lookup_at,
    lemma_lookup_unfold,
};

verus! {

/// Keys strictly increase along the sequence.
pub open spec fn keys_sorted<V>(s: Seq<(Seq<u8>, V)>) -> bool {
    forall|i: int, j: int| 0 <= i < j < s.len() ==> lex_lt(#[trigger] s[i].0, #[trigger] s[j].0)
}

/// The entries of `s` with `p` put in front of every key.
pub open spec fn prepend_all<V>(p: Seq<u8>, s: Seq<(Seq<u8>, V)>) -> Seq<(Seq<u8>, V)> {
    s.map_values(|e: (Seq<u8>, V)| (p + e.0, e.1))
}

/// The entries of a node in key order, keys relative to the node.
pub open spec fn node_entries<V>(n: Node<V>) -> Seq<(Seq<u8>, V)>
    decreases n, 0nat,
{
    let own = if n.value is Some {
        seq![(n.prefix@, n.value->0)]
    } else {
        Seq::empty()
    };
    own + prepend_all(n.prefix@, children_entries(n.children@, n.children@.len() as int))
}

/// The entries of the first `i` children, in order.
pub open spec fn children_entries<V>(cs: Seq<Node<V>>, i: int) -> Seq<(Seq<u8>, V)>
    decreases cs, i,
{
    if i <= 0 || i > cs.len() {
        Seq::empty()
    } else {
        children_entries(cs, i - 1) + node_entries(cs[i - 1])
    }
}

/// The entries of a node are sorted by key, each is a stored pair, and every
/// stored key appears.
pub proof fn lemma_node_entries<V>(n: Node<V>)
    requires
        n.wf(),
    ensures
        keys_sorted(node_entries(n)),
        forall|i: int|
            0 <= i < node_entries(n).len() ==> n.prefix@.is_prefix_of(#[trigger] node_entries(n)[i].0)
                && n.lookup(node_entries(n)[i].0) == Some(node_entries(n)[i].1),
        forall|k: Seq<u8>|
            #[trigger] n.lookup(k) is Some ==> exists|i: int|
                0 <= i < node_entries(n).len() && (#[trigger] node_entries(n)[i]).0 == k,
    decreases n, 0nat,
{
    let cs = n.children@;
    let p = n.prefix@;
    let ce = children_entries(cs, cs.len() as int);
    assert forall|j: int| 0 <= j < cs.len() implies (#[trigger] cs[j]).wf() by {
        assert(n.children@[j].wf());
    }
    lemma_children_entries(cs, cs.len() as int);
    let own = if n.value is Some {
        seq![(p, n.value->0)]
    } else {
        Seq::<(Seq<u8>, V)>::empty()
    };
    let pa = prepend_all(p, ce);
    let es = node_entries(n);
    assert(es == own + pa);
    assert(p.is_prefix_of(p)) by {
        assert(p.subrange(0, p.len() as int) == p);
    }
    // Each listed entry is stored, under a key that extends the segment.
    assert forall|i: int| 0 <= i < es.len() implies p.is_prefix_of(#[trigger] es[i].0) && n.lookup(
        es[i].0,
    ) == Some(es[i].1) by {
        if i < own.len() {
            lemma_lookup_unfold(n, p);
        } else {
            let x = ce[i - own.len()].0;
            assert(es[i].0 == p + x);
            assert((p + x).subrange(0, p.len() as int) == p);
            assert((p + x).skip(p.len() as int) == x);
            lemma_lookup_unfold(n, p + x);
        }
    }
    // Sorted: the segment's own key comes first, then the children's in order.
    assert forall|i: int, j: int| 0 <= i < j < es.len() implies lex_lt(#[trigger] es[i].0, #[trigger] es[j].0) by {
        if i < own.len() {
            let y = ce[j - own.len()].0;
            lemma_lex_extension(p, y);
        } else {
            let x = ce[i - own.len()].0;
            let y = ce[j - own.len()].0;
            lemma_lex_common_prefix(p, x, y);
        }
    }
    // Complete: every stored key is listed.
    assert forall|k: Seq<u8>| #[trigger] n.lookup(k) is Some implies exists|i: int|
        0 <= i < es.len() && (#[trigger] es[i]).0 == k by {
        lemma_lookup_unfold(n, k);
        if k.len() == p.len() {
            assert(k == p) by {
                assert(k.subrange(0, p.len() as int) == k);
            }
            assert(es[0].0 == k);
        } else {
            let r = k.skip(p.len() as int);
            let j = choose|j: int| 0 <= j < cs.len() && #[trigger] first_byte(cs[j]) == r[0];
            if j < cs.len() - 1 {
                assert(first_byte(cs[j]) < first_byte(cs[cs.len() - 1]));
            }
            let idx = choose|idx: int| 0 <= idx < ce.len() && (#[trigger] ce[idx]).0 == r;
            assert(es[own.len() + idx].0 == p + r);
            assert(p + r == k) by {
                assert(k =~= k.subrange(0, p.len() as int) + r);
            }
        }
    }
}

/// The entries of the first `i` children are sorted, each is stored under a key
/// whose first byte selects a child up to the `i`-th, and all such keys appear.
pub proof fn lemma_children_entries<V>(cs: Seq<Node<V>>, i: int)
    requires
        children_ordered(cs),
        forall|j: int| 0 <= j < cs.len() ==> (#[trigger] cs[j]).wf(),
        0 <= i <= cs.len(),
    ensures
        keys_sorted(children_entries(cs, i)),
        forall|idx: int|
            0 <= idx < children_entries(cs, i).len() ==> {
                let e = #[trigger] children_entries(cs, i)[idx];
                &&& e.0.len() > 0
                &&& e.0[0] <= first_byte(cs[i - 1])
                &&& children_lookup(cs, e.0) == Some(e.1)
            },
        forall|r: Seq<u8>|
            #[trigger] children_lookup(cs, r) is Some && i > 0 && r[0] <= first_byte(cs[i - 1])
                ==> exists|idx: int|
                0 <= idx < children_entries(cs, i).len() && (#[trigger] children_entries(cs, i)[idx]).0 == r,
    decreases cs, i,
{
    if i > 0 {
        let c = cs[i - 1];
        let prev = children_entries(cs, i - 1);
        let es = node_entries(c);
        let ce = children_entries(cs, i);
        assert(ce == prev + es);
        lemma_children_entries(cs, i - 1);
        lemma_node_entries(c);
        assert forall|idx: int| 0 <= idx < es.len() implies (#[trigger] es[idx]).0.len() > 0
            && es[idx].0[0] == first_byte(c) && children_lookup(cs, es[idx].0) == Some(es[idx].1) by {
            assert(c.prefix@.len() > 0);
            assert(es[idx].0[0] == es[idx].0.subrange(0, c.prefix@.len() as int)[0]);
            lemma_children_lookup_at(cs, es[idx].0, i - 1);
        }
        if i > 1 {
            assert(first_byte(cs[i - 2]) < first_byte(cs[i - 1]));
        }
        assert forall|a: int, b: int| 0 <= a < b < ce.len() implies lex_lt(#[trigger] ce[a].0, #[trigger] ce[b].0) by {
            if a < prev.len() && b >= prev.len() {
                lemma_lex_first_byte(ce[a].0, ce[b].0);
            }
        }
        assert forall|idx: int| 0 <= idx < ce.len() implies {
            let e = #[trigger] ce[idx];
            &&& e.0.len() > 0
            &&& e.0[0] <= first_byte(cs[i - 1])
            &&& children_lookup(cs, e.0) == Some(e.1)
        } by {
            if idx >= prev.len() {
                assert(ce[idx] == es[idx - prev.len()]);
            }
        }
        assert forall|r: Seq<u8>|
            #[trigger] children_lookup(cs, r) is Some && r[0] <= first_byte(cs[i - 1]) implies exists|idx: int|
                0 <= idx < ce.len() && (#[trigger] ce[idx]).0 == r by {
            if r[0] == first_byte(c) {
                lemma_children_lookup_at(cs, r, i - 1);
                let x = choose|x: int| 0 <= x < es.len() && (#[trigger] es[x]).0 == r;
                assert(ce[prev.len() + x] == es[x]);
            } else {
                let j = choose|j: int| 0 <= j < cs.len() && #[trigger] first_byte(cs[j]) == r[0];
                if j >= i - 1 {
                    if j > i - 1 {
                        assert(first_byte(cs[i - 1]) < first_byte(cs[j]));
                    }
                }
                if j < i - 2 {
                    assert(first_byte(cs[j]) < first_byte(cs[i - 2]));
                }
                let x = choose|x: int| 0 <= x < prev.len() && (#[trigger] prev[x]).0 == r;
                assert(ce[x] == prev[x]);
            }
        }
    }
}


/// `out[start..]` lists `es` with `path` put in front of every key.
pub open spec fn lists_from<K: View<V = Seq<u8>>, V>(
    out: Seq<(K, &V)>,
    start: int,
    path: Seq<u8>,
    es: Seq<(Seq<u8>, V)>,
) -> bool {
    &&& out.len() == start + es.len()
    &&& forall|j: int|
        0 <= j < es.len() ==> out[start + j].0@ == path + (#[trigger] es[j]).0 && *out[start + j].1
            == es[j].1
}

/// Appends the entries of `n`, in key order, to `out`; keys get `path` in front.
pub fn collect_entries<'a, K: KeyTrait, V>(n: &'a Node<V>, path: &mut Vec<u8>, out: &mut Vec<(K, &'a V)>)
    requires
        n.wf(),
    ensures
        final(path)@ == old(path)@,
        forall|i: int| 0 <= i < old(out)@.len() ==> final(out)@[i] == old(out)@[i],
        lists_from(final(out)@, old(out)@.len() as int, old(path)@, node_entries(*n)),
    decreases n,
{
    let ghost path0 = path@;
    let ghost out0 = out@;
    let ghost p = n.prefix@;
    let ghost cs = n.children@;
    let base = path.len();
    let mut i: usize = 0;
    while i < n.prefix.len()
        invariant
            0 <= i <= n.prefix@.len(),
            p == n.prefix@,
            path@ == path0 + p.take(i as int),
        decreases n.prefix@.len() - i,
    {
        path.push(n.prefix[i]);
        proof {
            assert(p.take(i + 1) == p.take(i as int).push(p[i as int]));
            assert(path@ == path0 + p.take(i + 1));
        }
        i = i + 1;
    }
    proof {
        assert(p.take(p.len() as int) == p);
    }
    let own: usize = if n.value.is_some() { 1 } else { 0 };
    match n.value.as_ref() {
        Some(v) => {
            out.push((K::new_from_slice(path.as_slice()), v));
        },
        None => {},
    }
    let ghost mid = out@;
    proof {
        assert forall|i: int| 0 <= i < out0.len() implies mid[i] == out0[i] by {}
        assert(children_entries(cs, 0) =~= Seq::<(Seq<u8>, V)>::empty());
    }
    let mut j: usize = 0;
    while j < n.children.len()
        invariant
            n.wf(),
            cs == n.children@,
            0 <= j <= cs.len(),
            path@ == path0 + p,
            mid.len() == out0.len() + own,
            forall|i: int| 0 <= i < mid.len() ==> out@[i] == mid[i],
            lists_from(out@, mid.len() as int, path0 + p, children_entries(cs, j as int)),
        decreases cs.len() - j,
    {
        proof {
            assert(cs[j as int].wf());
        }
        let ghost before = out@;
        collect_entries(&n.children[j], path, out);
        proof {
            let prev = children_entries(cs, j as int);
            let es = node_entries(cs[j as int]);
            assert(children_entries(cs, j + 1) == prev + es);
            let all = children_entries(cs, j + 1);
            assert forall|x: int| 0 <= x < all.len() implies out@[mid.len() + x].0@ == (path0 + p) + (
            #[trigger] all[x]).0 && *out@[mid.len() + x].1 == all[x].1 by {
                if x >= prev.len() {
                    assert(all[x] == es[x - prev.len()]);
                } else {
                    assert(out@[mid.len() + x] == before[mid.len() + x]);
                }
            }
        }
        j = j + 1;
    }
    path.truncate(base);
    proof {
        assert(path@ == path0);
        assert forall|i: int| 0 <= i < out0.len() implies out@[i] == out0[i] by {
            assert(out@[i] == mid[i]);
        }
        let es = node_entries(*n);
        let ce = children_entries(cs, cs.len() as int);
        assert forall|x: int| 0 <= x < es.len() implies out@[out0.len() + x].0@ == path0 + (
        #[trigger] es[x]).0 && *out@[out0.len() + x].1 == es[x].1 by {
            if x < own {
                assert(es[x].0 == p);
                assert(out@[out0.len() + x] == mid[out0.len() + x]);
            } else {
                let y = x - own;
                assert(es[x] == prepend_all(p, ce)[y]);
                assert(path0 + (p + ce[y].0) == (path0 + p) + ce[y].0);
            }
        }
    }
}


/// Appends the values of `n`, in key order, to `out`.
pub fn collect_values<'a, V>(n: &'a Node<V>, out: &mut Vec<&'a V>)
    requires
        n.wf(),
    ensures
        final(out)@.len() == old(out)@.len() + node_entries(*n).len(),
        forall|i: int| 0 <= i < old(out)@.len() ==> final(out)@[i] == old(out)@[i],
        forall|j: int|
            0 <= j < node_entries(*n).len() ==> *final(out)@[old(out)@.len() + j] == (
            #[trigger] node_entries(*n)[j]).1,
    decreases n,
{
    let ghost out0 = out@;
    let ghost cs = n.children@;
    let own: usize = if n.value.is_some() { 1 } else { 0 };
    match n.value.as_ref() {
        Some(v) => {
            out.push(v);
        },
        None => {},
    }
    let ghost mid = out@;
    proof {
        assert forall|i: int| 0 <= i < out0.len() implies mid[i] == out0[i] by {}
        assert(children_entries(cs, 0) =~= Seq::<(Seq<u8>, V)>::empty());
    }
    let mut j: usize = 0;
    while j < n.children.len()
        invariant
            n.wf(),
            cs == n.children@,
            0 <= j <= cs.len(),
            mid.len() == out0.len() + own,
            out@.len() == mid.len() + children_entries(cs, j as int).len(),
            forall|i: int| 0 <= i < mid.len() ==> out@[i] == mid[i],
            forall|x: int|
                0 <= x < children_entries(cs, j as int).len() ==> *out@[mid.len() + x] == (
                #[trigger] children_entries(cs, j as int)[x]).1,
        decreases cs.len() - j,
    {
        proof {
            assert(cs[j as int].wf());
        }
        let ghost before = out@;
        collect_values(&n.children[j], out);
        proof {
            let prev = children_entries(cs, j as int);
            let es = node_entries(cs[j as int]);
            assert(children_entries(cs, j + 1) == prev + es);
            let all = children_entries(cs, j + 1);
            assert forall|x: int| 0 <= x < all.len() implies *out@[mid.len() + x] == (
            #[trigger] all[x]).1 by {
                if x >= prev.len() {
                    assert(all[x] == es[x - prev.len()]);
                } else {
                    assert(out@[mid.len() + x] == before[mid.len() + x]);
                }
            }
        }
        j = j + 1;
    }
    proof {
        assert forall|i: int| 0 <= i < out0.len() implies out@[i] == out0[i] by {
            assert(out@[i] == mid[i]);
        }
        let es = node_entries(*n);
        let ce = children_entries(cs, cs.len() as int);
        assert forall|x: int| 0 <= x < es.len() implies *out@[out0.len() + x] == (#[trigger] es[x]).1 by {
            if x < own {
                assert(out@[out0.len() + x] == mid[out0.len() + x]);
            } else {
                let y = x - own;
                assert(es[x] == prepend_all(n.prefix@, ce)[y]);
            }
        }
    }
}

} // verus!
