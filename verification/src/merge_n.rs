//! Merging any number of nodes at once. For a key held by several of them, the
//! resolver is folded over their values in the order of the nodes.
use vstd::prelude::*;
use crate::bytes::{common_prefix_len, copy_range};
use crate::merge::{combine_values, merged_value, resolvable, resolver_total};
use crate::node::{
    Node, children_lookup, children_ordered, first_byte, lemma_child_height,
    lemma_children_lookup_at, lemma_insert_child, lemma_lookup_split, lemma_lookup_unfold,
};

verus! {

/// `acc` lists the accumulator of a left-to-right fold of the resolver over `vs`:
/// it starts empty, and each step keeps it, takes the next value, or combines both.
pub open spec fn fold_trace<V, F: FnMut(V, V) -> V>(f: F, vs: Seq<Option<V>>, acc: Seq<Option<V>>) -> bool {
    &&& acc.len() == vs.len() + 1
    &&& acc[0] is None
    &&& forall|i: int| 0 <= i < vs.len() ==> #[trigger] merged_value(f, acc[i], vs[i], acc[i + 1])
}

/// `m` is a possible result of folding the resolver from left to right over the
/// values present in `vs`; absent values are skipped.
pub open spec fn folded<V, F: FnMut(V, V) -> V>(f: F, vs: Seq<Option<V>>, m: Option<V>) -> bool {
    exists|acc: Seq<Option<V>>| #[trigger] fold_trace(f, vs, acc) && acc.last() == m
}

/// The values present in `vs`, in order.
pub open spec fn present<V>(vs: Seq<Option<V>>) -> Seq<Option<V>>
    decreases vs.len(),
{
    if vs.len() == 0 {
        vs
    } else if vs.last() is None {
        present(vs.drop_last())
    } else {
        present(vs.drop_last()).push(vs.last())
    }
}

/// What each of `ns` holds under key `k`.
pub open spec fn lookups<V>(ns: Seq<Node<V>>, k: Seq<u8>) -> Seq<Option<V>> {
    Seq::new(ns.len(), |i: int| ns[i].lookup(k))
}

/// What each list of children holds under the relative key `rest`.
pub open spec fn lookups_among<V>(ls: Seq<Vec<Node<V>>>, rest: Seq<u8>) -> Seq<Option<V>> {
    Seq::new(ls.len(), |i: int| children_lookup(ls[i]@, rest))
}

/// Total height of a sequence of nodes: the measure that bounds the recursion.
pub open spec fn weight<V>(ns: Seq<Node<V>>) -> nat
    decreases ns.len(),
{
    if ns.len() == 0 {
        0
    } else {
        weight(ns.drop_last()) + ns.last().height()
    }
}

/// Height of the child selected by byte `b`, or zero.
pub open spec fn cand_weight<V>(cs: Seq<Node<V>>, b: u8) -> nat {
    if exists|j: int| 0 <= j < cs.len() && #[trigger] first_byte(cs[j]) == b {
        cs[choose|j: int| 0 <= j < cs.len() && #[trigger] first_byte(cs[j]) == b].height()
    } else {
        0
    }
}

/// Total height of the children selected by byte `b` across all lists.
pub open spec fn group_weight<V>(ls: Seq<Vec<Node<V>>>, b: u8) -> nat
    decreases ls.len(),
{
    if ls.len() == 0 {
        0
    } else {
        group_weight(ls.drop_last(), b) + cand_weight(ls.last()@, b)
    }
}

/// One more step of the fold.
pub proof fn lemma_folded_push<V, F: FnMut(V, V) -> V>(f: F, s: Seq<Option<V>>, a: Option<V>, x: Option<V>, m: Option<V>)
    requires
        folded(f, s, a),
        merged_value(f, a, x, m),
    ensures
        folded(f, s.push(x), m),
{
    let acc = choose|acc: Seq<Option<V>>| #[trigger] fold_trace(f, s, acc) && acc.last() == a;
    let acc2 = acc.push(m);
    let s2 = s.push(x);
    assert forall|i: int| 0 <= i < s2.len() implies #[trigger] merged_value(f, acc2[i], s2[i], acc2[i + 1]) by {
        if i < s.len() {
            assert(merged_value(f, acc[i], s[i], acc[i + 1]));
        }
    }
    assert(fold_trace(f, s2, acc2));
}

/// The last step of a fold: what the fold gave before it.
pub proof fn lemma_folded_pop<V, F: FnMut(V, V) -> V>(f: F, s: Seq<Option<V>>, x: Option<V>, m: Option<V>) -> (a: Option<V>)
    requires
        folded(f, s.push(x), m),
    ensures
        folded(f, s, a),
        merged_value(f, a, x, m),
{
    let s2 = s.push(x);
    let acc = choose|acc: Seq<Option<V>>| #[trigger] fold_trace(f, s2, acc) && acc.last() == m;
    let acc1 = acc.drop_last();
    assert forall|i: int| 0 <= i < s.len() implies #[trigger] merged_value(f, acc1[i], s[i], acc1[i + 1]) by {
        assert(merged_value(f, acc[i], s2[i], acc[i + 1]));
    }
    assert(fold_trace(f, s, acc1));
    assert(merged_value(f, acc[s.len() as int], s2[s.len() as int], acc[s.len() as int + 1]));
    acc1.last()
}

/// Skipping absent values does not change what a fold may give.
pub proof fn lemma_folded_present<V, F: FnMut(V, V) -> V>(f: F, vs: Seq<Option<V>>, m: Option<V>)
    ensures
        folded(f, vs, m) == folded(f, present(vs), m),
    decreases vs.len(),
{
    if vs.len() == 0 {
    } else {
        let init = vs.drop_last();
        let x = vs.last();
        assert(vs == init.push(x));
        if x is None {
            lemma_folded_present(f, init, m);
            if folded(f, vs, m) {
                let a = lemma_folded_pop(f, init, x, m);
                assert(a == m);
            }
            if folded(f, init, m) {
                lemma_folded_push(f, init, m, x, m);
            }
        } else {
            let p = present(init);
            assert(present(vs) == p.push(x));
            if folded(f, vs, m) {
                let a = lemma_folded_pop(f, init, x, m);
                lemma_folded_present(f, init, a);
                lemma_folded_push(f, p, a, x, m);
            }
            if folded(f, p.push(x), m) {
                let a = lemma_folded_pop(f, p, x, m);
                lemma_folded_present(f, init, a);
                lemma_folded_push(f, init, a, x, m);
            }
        }
    }
}

/// Appending a value: present values gain it exactly when it is present.
pub proof fn lemma_present_push<V>(s: Seq<Option<V>>, x: Option<V>)
    ensures
        present(s.push(x)) == if x is Some { present(s).push(x) } else { present(s) },
{
    assert(s.push(x).drop_last() == s);
}

/// Every left-to-right fold of the resolver over the values present in `vs`
/// only ever calls it on a pair of arguments that it accepts.
pub open spec fn fold_resolvable<V, F: FnMut(V, V) -> V>(f: F, vs: Seq<Option<V>>) -> bool {
    forall|j: int, a: Option<V>|
        0 <= j < present(vs).len() && #[trigger] folded(f, present(vs).take(j), a) ==> resolvable(
            f,
            a,
            present(vs)[j],
        )
}

/// The values present in a prefix of `vs` begin the values present in `vs`.
pub proof fn lemma_present_prefix<V>(vs: Seq<Option<V>>, m: int)
    requires
        0 <= m <= vs.len(),
    ensures
        present(vs.take(m)).len() <= present(vs).len(),
        present(vs).take(present(vs.take(m)).len() as int) == present(vs.take(m)),
    decreases vs.len(),
{
    if m == vs.len() {
        assert(vs.take(m) == vs);
    } else {
        let init = vs.drop_last();
        assert(vs == init.push(vs.last()));
        assert(vs.take(m) == init.take(m));
        lemma_present_prefix(init, m);
        lemma_present_push(init, vs.last());
        let p = present(init.take(m));
        if vs.last() is Some {
            assert(present(vs).take(p.len() as int) =~= present(init).take(p.len() as int));
        }
    }
}

/// Nothing present, nothing to resolve.
pub proof fn lemma_present_none<V>(vs: Seq<Option<V>>)
    requires
        forall|i: int| 0 <= i < vs.len() ==> (#[trigger] vs[i]) is None,
    ensures
        present(vs).len() == 0,
    decreases vs.len(),
{
    if vs.len() > 0 {
        lemma_present_none(vs.drop_last());
    }
}

/// One step of a fold the resolver accepts: after folding the first `i` values
/// into `acc`, the resolver accepts `acc` with the next one.
pub proof fn lemma_fold_step_resolvable<V, F: FnMut(V, V) -> V>(
    f: F,
    vs: Seq<Option<V>>,
    i: int,
    acc: Option<V>,
)
    requires
        fold_resolvable(f, vs),
        0 <= i < vs.len(),
        folded(f, vs.take(i), acc),
    ensures
        resolvable(f, acc, vs[i]),
{
    if vs[i] is Some {
        lemma_folded_present(f, vs.take(i), acc);
        assert(vs.take(i).push(vs[i]) =~= vs.take(i + 1));
        lemma_present_push(vs.take(i), vs[i]);
        lemma_present_prefix(vs, i + 1);
        let p = present(vs.take(i));
        let ps = present(vs);
        let j = p.len() as int;
        assert(ps.take(j + 1) == p.push(vs[i]));
        assert(ps.take(j) =~= ps.take(j + 1).take(j));
        assert(ps.take(j) =~= p);
        assert(ps[j] == ps.take(j + 1)[j]);
        assert(folded(f, ps.take(j), acc));
    }
}

/// With no value present, any resolver will do.
pub proof fn lemma_fold_resolvable_none<V, F: FnMut(V, V) -> V>(f: F, vs: Seq<Option<V>>)
    requires
        forall|i: int| 0 <= i < vs.len() ==> (#[trigger] vs[i]) is None,
    ensures
        fold_resolvable(f, vs),
{
    lemma_present_none(vs);
}

/// A resolver that accepts every pair accepts every fold.
pub proof fn lemma_fold_resolvable_total<V, F: FnMut(V, V) -> V>(f: F, vs: Seq<Option<V>>)
    requires
        resolver_total(f),
    ensures
        fold_resolvable(f, vs),
{
    assert forall|j: int, a: Option<V>|
        0 <= j < present(vs).len() && #[trigger] folded(f, present(vs).take(j), a) implies resolvable(
        f,
        a,
        present(vs)[j],
    ) by {
        if a is Some && present(vs)[j] is Some {
            assert(call_requires(f, (a->0, present(vs)[j]->0)));
        }
    }
}

/// Folding over a single value gives that value.
pub proof fn lemma_folded_single<V, F: FnMut(V, V) -> V>(f: F, x: Option<V>)
    ensures
        folded(f, seq![x], x),
{
    let e = Seq::<Option<V>>::empty();
    lemma_folded_none(f, e);
    lemma_folded_push(f, e, None, x, x);
    assert(e.push(x) == seq![x]);
}

/// Folding over absent values only gives nothing.
pub proof fn lemma_folded_none<V, F: FnMut(V, V) -> V>(f: F, vs: Seq<Option<V>>)
    requires
        forall|i: int| 0 <= i < vs.len() ==> (#[trigger] vs[i]) is None,
    ensures
        folded(f, vs, None),
{
    let acc = Seq::new(vs.len() + 1, |i: int| None::<V>);
    assert forall|i: int| 0 <= i < vs.len() implies #[trigger] merged_value(f, acc[i], vs[i], acc[i + 1]) by {
        assert(vs[i] is None);
    }
    assert(fold_trace(f, vs, acc));
}

/// A fold over values of which one is present gives a value.
pub proof fn lemma_folded_some<V, F: FnMut(V, V) -> V>(f: F, vs: Seq<Option<V>>, m: Option<V>, i: int)
    requires
        folded(f, vs, m),
        0 <= i < vs.len(),
        vs[i] is Some,
    ensures
        m is Some,
    decreases vs.len(),
{
    let init = vs.drop_last();
    assert(vs == init.push(vs.last()));
    let a = lemma_folded_pop(f, init, vs.last(), m);
    if i < init.len() && vs.last() is None {
        assert(init[i] == vs[i]);
        lemma_folded_some(f, init, a, i);
    }
}

/// The last value present in `vs`, if any.
pub open spec fn last_present<V>(vs: Seq<Option<V>>) -> Option<V>
    decreases vs.len(),
{
    if vs.len() == 0 {
        None
    } else if vs.last() is Some {
        vs.last()
    } else {
        last_present(vs.drop_last())
    }
}

/// With a resolver that always answers its right argument, a fold gives the last
/// value present.
pub proof fn lemma_folded_right_wins<V, F: FnMut(V, V) -> V>(f: F, vs: Seq<Option<V>>, m: Option<V>)
    requires
        folded(f, vs, m),
        forall|a: V, b: V, w: V| #[trigger] call_ensures(f, (a, b), w) ==> w == b,
    ensures
        m == last_present(vs),
    decreases vs.len(),
{
    if vs.len() == 0 {
        let acc = choose|acc: Seq<Option<V>>| #[trigger] fold_trace(f, vs, acc) && acc.last() == m;
        assert(acc.last() == acc[0]);
    } else {
        let init = vs.drop_last();
        assert(vs == init.push(vs.last()));
        let a = lemma_folded_pop(f, init, vs.last(), m);
        lemma_folded_right_wins(f, init, a);
    }
}

/// Adding one node to a sequence adds its height to the weight.
pub proof fn lemma_weight_push<V>(ns: Seq<Node<V>>, n: Node<V>)
    ensures
        weight(ns.push(n)) == weight(ns) + n.height(),
{
    assert(ns.push(n).drop_last() == ns);
}

/// The group weight over the first `i + 1` lists adds the `i`-th list's share.
pub proof fn lemma_group_weight_take<V>(ls: Seq<Vec<Node<V>>>, i: int, b: u8)
    requires
        0 <= i < ls.len(),
    ensures
        group_weight(ls.take(i + 1), b) == group_weight(ls.take(i), b) + cand_weight(ls[i]@, b),
{
    assert(ls.take(i + 1).drop_last() == ls.take(i));
}

/// Among ordered children, the share of byte `b` is the height of its child.
pub proof fn lemma_cand_weight_at<V>(cs: Seq<Node<V>>, x: int)
    requires
        children_ordered(cs),
        0 <= x < cs.len(),
    ensures
        cand_weight(cs, first_byte(cs[x])) == cs[x].height(),
{
    let b = first_byte(cs[x]);
    let j = choose|j: int| 0 <= j < cs.len() && #[trigger] first_byte(cs[j]) == b;
    if j < x {
        assert(first_byte(cs[j]) < first_byte(cs[x]));
    } else if x < j {
        assert(first_byte(cs[x]) < first_byte(cs[j]));
    }
}

/// If each list's share of byte `b` is at most the height of the matching node,
/// the group weight is at most the nodes' weight, and below it when one share is.
pub proof fn lemma_group_weight_bound<V>(ls: Seq<Vec<Node<V>>>, ns: Seq<Node<V>>, b: u8, w: int)
    requires
        ls.len() == ns.len(),
        forall|i: int| 0 <= i < ls.len() ==> cand_weight(#[trigger] ls[i]@, b) <= ns[i].height(),
        0 <= w < ls.len(),
        cand_weight(ls[w]@, b) < ns[w].height(),
    ensures
        group_weight(ls, b) < weight(ns),
    decreases ls.len(),
{
    let k = ls.len() - 1;
    if w < k {
        lemma_group_weight_bound(ls.drop_last(), ns.drop_last(), b, w);
    } else {
        lemma_group_weight_le(ls.drop_last(), ns.drop_last(), b);
    }
}

proof fn lemma_group_weight_le<V>(ls: Seq<Vec<Node<V>>>, ns: Seq<Node<V>>, b: u8)
    requires
        ls.len() == ns.len(),
        forall|i: int| 0 <= i < ls.len() ==> cand_weight(#[trigger] ls[i]@, b) <= ns[i].height(),
    ensures
        group_weight(ls, b) <= weight(ns),
    decreases ls.len(),
{
    if ls.len() > 0 {
        lemma_group_weight_le(ls.drop_last(), ns.drop_last(), b);
    }
}

/// Length of the longest prefix that the segments of all nodes share.
fn find_lcp_n<V>(nodes: &Vec<Node<V>>) -> (l: usize)
    requires
        nodes@.len() >= 1,
    ensures
        forall|i: int| 0 <= i < nodes@.len() ==> l <= (#[trigger] nodes@[i]).prefix@.len(),
        forall|i: int|
            0 <= i < nodes@.len() ==> (#[trigger] nodes@[i]).prefix@.take(l as int)
                == nodes@[0].prefix@.take(l as int),
        exists|i: int|
            0 <= i < nodes@.len() && ((#[trigger] nodes@[i]).prefix@.len() == l
                || nodes@[i].prefix@[l as int] != nodes@[0].prefix@[l as int]),
{
    let ghost ns = nodes@;
    let first = nodes[0].prefix.as_slice();
    let mut lcp = first.len();
    if nodes.len() == 1 {
        proof {
            assert(ns[0].prefix@.len() == lcp);
        }
        return lcp;
    }
    let ghost mut w: int = 0;
    let mut i: usize = 1;
    while i < nodes.len()
        invariant
            ns == nodes@,
            first@ == ns[0].prefix@,
            1 <= i <= ns.len(),
            lcp <= first@.len(),
            forall|j: int| 0 <= j < i ==> lcp <= (#[trigger] ns[j]).prefix@.len(),
            forall|j: int|
                0 <= j < i ==> (#[trigger] ns[j]).prefix@.take(lcp as int) == first@.take(lcp as int),
            0 <= w < i,
            ns[w].prefix@.len() == lcp || ns[w].prefix@[lcp as int] != first@[lcp as int],
        decreases ns.len() - i,
    {
        let other = nodes[i].prefix.as_slice();
        let c = common_prefix_len(first, other, 0);
        proof {
            assert(other@.skip(0) == other@);
        }
        if c < lcp {
            let ghost old_lcp = lcp;
            lcp = c;
            proof {
                w = i as int;
                assert forall|j: int| 0 <= j < i + 1 implies (#[trigger] ns[j]).prefix@.take(lcp as int)
                    == first@.take(lcp as int) by {
                    if j < i {
                        assert(ns[j].prefix@.take(lcp as int) == ns[j].prefix@.take(old_lcp as int).take(
                            lcp as int,
                        ));
                        assert(first@.take(lcp as int) == first@.take(old_lcp as int).take(lcp as int));
                    }
                }
            }
        } else {
            proof {
                assert(ns[i as int].prefix@.take(lcp as int) == other@.take(c as int).take(lcp as int));
                assert(first@.take(lcp as int) == first@.take(c as int).take(lcp as int));
            }
        }
        i = i + 1;
        if lcp == 0 {
            proof {
                assert forall|j: int| 0 <= j < ns.len() implies (#[trigger] ns[j]).prefix@.take(lcp as int)
                    == first@.take(lcp as int) by {
                    assert(ns[j].prefix@.take(0) =~= first@.take(0));
                }
            }
            return 0;
        }
    }
    lcp
}

/// Splits a node `l` bytes into its segment: what it holds at that point, and the
/// children below it (its own children, or the node itself cut after `l` bytes).
fn split_at_lcp<V>(n: Node<V>, l: usize) -> (r: (Option<V>, Vec<Node<V>>))
    requires
        n.wf(),
        l <= n.prefix@.len(),
    ensures
        children_ordered(r.1@),
        forall|j: int| 0 <= j < r.1@.len() ==> (#[trigger] r.1@[j]).wf(),
        forall|k: Seq<u8>| #[trigger] n.lookup(k) == if !n.prefix@.take(l as int).is_prefix_of(k) {
            None
        } else if k.len() == l {
            r.0
        } else {
            children_lookup(r.1@, k.skip(l as int))
        },
        forall|b: u8| #[trigger] cand_weight(r.1@, b) <= n.height(),
        forall|b: u8|
            (l == n.prefix@.len() || b != n.prefix@[l as int]) ==> #[trigger] cand_weight(r.1@, b)
                < n.height(),
        r.0 is Some || r.1@.len() > 0,
{
    let ghost o = n;
    if n.prefix.len() == l {
        let Node { prefix: _p, value, children } = n;
        proof {
            assert(o.prefix@.take(l as int) == o.prefix@);
            assert forall|k: Seq<u8>| #[trigger] o.lookup(k) == if !o.prefix@.take(l as int).is_prefix_of(k) {
                None
            } else if k.len() == l {
                value
            } else {
                children_lookup(children@, k.skip(l as int))
            } by {
                lemma_lookup_unfold(o, k);
            }
            assert forall|b: u8| #[trigger] cand_weight(children@, b) < o.height() by {
                if exists|j: int| 0 <= j < children@.len() && #[trigger] first_byte(children@[j]) == b {
                    let j = choose|j: int| 0 <= j < children@.len() && #[trigger] first_byte(children@[j]) == b;
                    lemma_child_height(o, j);
                }
            }
            assert forall|j: int| 0 <= j < children@.len() implies (#[trigger] children@[j]).wf() by {
                assert(o.children@[j].wf());
            }
        }
        (value, children)
    } else {
        let Node { prefix, value, children } = n;
        let mut head = prefix;
        let tail = head.split_off(l);
        let cut = Node { prefix: tail, value, children };
        proof {
            assert(cut.wf());
            assert(o.prefix@ == head@ + cut.prefix@);
            assert(head@ == o.prefix@.take(l as int));
            lemma_lookup_split(o, cut, head@);
        }
        let mut cs: Vec<Node<V>> = Vec::new();
        cs.push(cut);
        proof {
            assert(cs@ == seq![cut]);
            assert(children_ordered(cs@));
            assert forall|k: Seq<u8>| #[trigger] o.lookup(k) == if !o.prefix@.take(l as int).is_prefix_of(k) {
                None
            } else if k.len() == l {
                None
            } else {
                children_lookup(cs@, k.skip(l as int))
            } by {
                if head@.is_prefix_of(k) {
                    let rest = k.skip(l as int);
                    lemma_lookup_unfold(cut, rest);
                    if cut.prefix@.is_prefix_of(rest) {
                        assert(rest[0] == rest.subrange(0, cut.prefix@.len() as int)[0]);
                    }
                    if k.len() > l && rest[0] == first_byte(cut) {
                        lemma_children_lookup_at(cs@, rest, 0);
                    }
                }
            }
            assert forall|b: u8| #[trigger] cand_weight(cs@, b) <= o.height() && (b != o.prefix@[l as int]
                ==> cand_weight(cs@, b) < o.height()) by {
                if b == first_byte(cut) {
                    lemma_cand_weight_at(cs@, 0);
                }
            }
        }
        (None, cs)
    }
}

/// Splits every node at the common prefix of length `l`: the common prefix, and for
/// each node what it holds there and the children below it.
fn partition_by_lcp<V>(nodes: Vec<Node<V>>, l: usize) -> (res: (Vec<u8>, Vec<Option<V>>, Vec<Vec<Node<V>>>))
    requires
        nodes@.len() >= 1,
        forall|i: int| 0 <= i < nodes@.len() ==> (#[trigger] nodes@[i]).wf(),
        forall|i: int| 0 <= i < nodes@.len() ==> l <= (#[trigger] nodes@[i]).prefix@.len(),
        forall|i: int|
            0 <= i < nodes@.len() ==> (#[trigger] nodes@[i]).prefix@.take(l as int)
                == nodes@[0].prefix@.take(l as int),
    ensures
        res.0@ == nodes@[0].prefix@.take(l as int),
        res.1@.len() == nodes@.len(),
        res.2@.len() == nodes@.len(),
        forall|i: int| 0 <= i < nodes@.len() ==> children_ordered(#[trigger] res.2@[i]@),
        forall|i: int, j: int|
            0 <= i < nodes@.len() && 0 <= j < res.2@[i]@.len() ==> (#[trigger] res.2@[i]@[j]).wf(),
        forall|i: int, k: Seq<u8>|
            0 <= i < nodes@.len() ==> #[trigger] nodes@[i].lookup(k) == if !res.0@.is_prefix_of(k) {
                None
            } else if k.len() == l {
                res.1@[i]
            } else {
                children_lookup(res.2@[i]@, k.skip(l as int))
            },
        forall|i: int, b: u8|
            0 <= i < nodes@.len() ==> #[trigger] cand_weight(res.2@[i]@, b) <= nodes@[i].height(),
        forall|i: int, b: u8|
            0 <= i < nodes@.len() && (l == nodes@[i].prefix@.len() || b != nodes@[i].prefix@[l as int])
                ==> #[trigger] cand_weight(res.2@[i]@, b) < nodes@[i].height(),
        forall|i: int| 0 <= i < nodes@.len() ==> (#[trigger] res.1@[i]) is Some || res.2@[i]@.len() > 0,
{
    let ghost ns = nodes@;
    let lcp = copy_range(nodes[0].prefix.as_slice(), 0, l);
    proof {
        assert(lcp@ == ns[0].prefix@.take(l as int));
    }
    let mut rest = nodes;
    let mut values: Vec<Option<V>> = Vec::new();
    let mut lists: Vec<Vec<Node<V>>> = Vec::new();
    while rest.len() > 0
        invariant
            lcp@ == ns[0].prefix@.take(l as int),
            ns.len() >= 1,
            forall|i: int| 0 <= i < ns.len() ==> (#[trigger] ns[i]).wf(),
            forall|i: int| 0 <= i < ns.len() ==> l <= (#[trigger] ns[i]).prefix@.len(),
            forall|i: int|
                0 <= i < ns.len() ==> (#[trigger] ns[i]).prefix@.take(l as int) == ns[0].prefix@.take(l as int),
            values@.len() == lists@.len(),
            values@.len() <= ns.len(),
            rest@ == ns.skip(values@.len() as int),
            forall|i: int| 0 <= i < lists@.len() ==> children_ordered(#[trigger] lists@[i]@),
            forall|i: int, j: int|
                0 <= i < lists@.len() && 0 <= j < lists@[i]@.len() ==> (#[trigger] lists@[i]@[j]).wf(),
            forall|i: int, k: Seq<u8>|
                0 <= i < lists@.len() ==> #[trigger] ns[i].lookup(k) == if !lcp@.is_prefix_of(k) {
                    None
                } else if k.len() == l {
                    values@[i]
                } else {
                    children_lookup(lists@[i]@, k.skip(l as int))
                },
            forall|i: int, b: u8|
                0 <= i < lists@.len() ==> #[trigger] cand_weight(lists@[i]@, b) <= ns[i].height(),
            forall|i: int, b: u8|
                0 <= i < lists@.len() && (l == ns[i].prefix@.len() || b != ns[i].prefix@[l as int])
                    ==> #[trigger] cand_weight(lists@[i]@, b) < ns[i].height(),
            forall|i: int| 0 <= i < lists@.len() ==> (#[trigger] values@[i]) is Some || lists@[i]@.len() > 0,
        decreases rest@.len(),
    {
        let ghost i = values@.len() as int;
        let node = rest.remove(0);
        proof {
            assert(node == ns[i]);
            assert(rest@ == ns.skip(i + 1));
        }
        let (v, cs) = split_at_lcp(node, l);
        let ghost old_values = values@;
        let ghost old_lists = lists@;
        values.push(v);
        lists.push(cs);
        proof {
            assert(values@[i] == v);
            assert(lists@[i] == cs);
            assert forall|j: int| 0 <= j < i implies values@[j] == old_values[j] && lists@[j] == old_lists[j] by {}
        }
    }
    (lcp, values, lists)
}

/// The smallest first byte among the first children of the lists, if any list is
/// non-empty.
fn min_head_byte<V>(lists: &Vec<Vec<Node<V>>>) -> (r: Option<u8>)
    requires
        forall|i: int| 0 <= i < lists@.len() ==> children_ordered(#[trigger] lists@[i]@),
    ensures
        r is None <==> forall|i: int| 0 <= i < lists@.len() ==> (#[trigger] lists@[i]@).len() == 0,
        r matches Some(h) ==> exists|i: int|
            0 <= i < lists@.len() && (#[trigger] lists@[i]@).len() > 0 && first_byte(lists@[i]@[0]) == h,
        r matches Some(h) ==> forall|i: int|
            0 <= i < lists@.len() && (#[trigger] lists@[i]@).len() > 0 ==> first_byte(lists@[i]@[0]) >= h,
{
    let mut best: Option<u8> = None;
    let mut i: usize = 0;
    while i < lists.len()
        invariant
            i <= lists@.len(),
            forall|j: int| 0 <= j < lists@.len() ==> children_ordered(#[trigger] lists@[j]@),
            best is None <==> forall|j: int| 0 <= j < i ==> (#[trigger] lists@[j]@).len() == 0,
            best matches Some(h) ==> exists|j: int|
                0 <= j < i && (#[trigger] lists@[j]@).len() > 0 && first_byte(lists@[j]@[0]) == h,
            best matches Some(h) ==> forall|j: int|
                0 <= j < i && (#[trigger] lists@[j]@).len() > 0 ==> first_byte(lists@[j]@[0]) >= h,
        decreases lists@.len() - i,
    {
        if lists[i].len() > 0 {
            proof {
                assert(lists@[i as int]@[0].prefix@.len() > 0);
            }
            let b = lists[i][0].prefix[0];
            match best {
                None => {
                    best = Some(b);
                },
                Some(h) => {
                    if b < h {
                        best = Some(b);
                    }
                },
            }
        }
        i = i + 1;
    }
    best
}

/// Whether the list `i` of `l0`, from position `p` on, starts with the child of byte `h`.
pub open spec fn heads_with<V>(l0: Seq<Vec<Node<V>>>, i: int, p: int, h: u8) -> bool {
    p < l0[i]@.len() && first_byte(l0[i]@[p]) == h
}

/// Takes the child of byte `h` off the front of each list that starts with one.
/// The lists are what remains of `l0` from the positions `pos0` on, and `h` is
/// the smallest byte left.
fn take_group<V>(
    lists: &mut Vec<Vec<Node<V>>>,
    h: u8,
    Ghost(l0): Ghost<Seq<Vec<Node<V>>>>,
    Ghost(pos0): Ghost<Seq<int>>,
) -> (res: (Vec<Node<V>>, Ghost<Seq<int>>))
    requires
        old(lists)@.len() == l0.len(),
        pos0.len() == l0.len(),
        forall|i: int| 0 <= i < l0.len() ==> children_ordered(#[trigger] l0[i]@),
        forall|i: int, j: int| 0 <= i < l0.len() && 0 <= j < l0[i]@.len() ==> (#[trigger] l0[i]@[j]).wf(),
        forall|i: int| 0 <= i < l0.len() ==> 0 <= #[trigger] pos0[i] <= l0[i]@.len(),
        forall|i: int| 0 <= i < l0.len() ==> (#[trigger] old(lists)@[i])@ == l0[i]@.skip(pos0[i]),
        forall|i: int, x: int|
            0 <= i < l0.len() && 0 <= x < pos0[i] ==> first_byte(#[trigger] l0[i]@[x]) < h,
        forall|i: int, x: int|
            0 <= i < l0.len() && pos0[i] <= x < l0[i]@.len() ==> first_byte(#[trigger] l0[i]@[x]) >= h,
        exists|i: int| 0 <= i < l0.len() && #[trigger] heads_with(l0, i, pos0[i], h),
    ensures
        final(lists)@.len() == l0.len(),
        res.1@.len() == l0.len(),
        forall|i: int|
            0 <= i < l0.len() ==> #[trigger] res.1@[i] == pos0[i] + if heads_with(l0, i, pos0[i], h) {
                1int
            } else {
                0int
            },
        forall|i: int| 0 <= i < l0.len() ==> (#[trigger] final(lists)@[i])@ == l0[i]@.skip(res.1@[i]),
        res.0@.len() > 0,
        forall|g: int|
            0 <= g < res.0@.len() ==> (#[trigger] res.0@[g]).wf() && res.0@[g].prefix@.len() > 0
                && first_byte(res.0@[g]) == h,
        weight(res.0@) == group_weight(l0, h),
        forall|rest: Seq<u8>|
            rest[0] == h ==> present(lookups_among(l0, rest)) == present(#[trigger] lookups(res.0@, rest)),
{
    let ghost n = l0.len();
    let ghost mut pos = pos0;
    let mut group: Vec<Node<V>> = Vec::new();
    let mut i: usize = 0;
    proof {
        assert(present(Seq::<Option<V>>::empty()) == Seq::<Option<V>>::empty());
        assert forall|rest: Seq<u8>| rest[0] == h implies present(Seq::new(0, |j: int| children_lookup(l0[j]@, rest)))
            == present(#[trigger] lookups(group@, rest)) by {
            assert(Seq::new(0, |j: int| children_lookup(l0[j]@, rest)) =~= Seq::<Option<V>>::empty());
            assert(lookups(group@, rest) =~= Seq::<Option<V>>::empty());
        }
        assert(l0.take(0) =~= Seq::<Vec<Node<V>>>::empty());
    }
    while i < lists.len()
        invariant
            lists@.len() == n,
            n == l0.len(),
            pos0.len() == n,
            pos.len() == n,
            0 <= i <= n,
            forall|j: int| 0 <= j < n ==> children_ordered(#[trigger] l0[j]@),
            forall|j: int, x: int| 0 <= j < n && 0 <= x < l0[j]@.len() ==> (#[trigger] l0[j]@[x]).wf(),
            forall|j: int| 0 <= j < n ==> 0 <= #[trigger] pos0[j] <= l0[j]@.len(),
            forall|j: int, x: int|
                0 <= j < n && 0 <= x < pos0[j] ==> first_byte(#[trigger] l0[j]@[x]) < h,
            forall|j: int, x: int|
                0 <= j < n && pos0[j] <= x < l0[j]@.len() ==> first_byte(#[trigger] l0[j]@[x]) >= h,
            forall|j: int| 0 <= j < n ==> (#[trigger] lists@[j])@ == l0[j]@.skip(pos[j]),
            forall|j: int| i <= j < n ==> #[trigger] pos[j] == pos0[j],
            forall|j: int|
                0 <= j < i ==> #[trigger] pos[j] == pos0[j] + if heads_with(l0, j, pos0[j], h) {
                    1int
                } else {
                    0int
                },
            (exists|j: int| 0 <= j < i && #[trigger] heads_with(l0, j, pos0[j], h)) ==> group@.len() > 0,
            forall|g: int|
                0 <= g < group@.len() ==> (#[trigger] group@[g]).wf() && group@[g].prefix@.len() > 0
                    && first_byte(group@[g]) == h,
            weight(group@) == group_weight(l0.take(i as int), h),
            forall|rest: Seq<u8>|
                rest[0] == h ==> present(Seq::new(i as nat, |j: int| children_lookup(l0[j]@, rest)))
                    == present(#[trigger] lookups(group@, rest)),
        decreases n - i,
    {
        let ghost gi = group@;
        let ghost cs = l0[i as int]@;
        let ghost p = pos0[i as int];
        let take = lists[i].len() > 0 && lists[i][0].prefix[0] == h;
        proof {
            assert(pos[i as int] == p);
            if lists@[i as int]@.len() > 0 {
                assert(lists@[i as int]@[0] == cs[p]);
            }
            assert(take == heads_with(l0, i as int, p, h));
            lemma_group_weight_take(l0, i as int, h);
            assert(l0.take(i + 1).drop_last() == l0.take(i as int));
        }
        if take {
            let c = lists[i].remove(0);
            proof {
                assert(c == cs[p]);
                assert(lists@[i as int]@ =~= cs.skip(p + 1));
                lemma_cand_weight_at(cs, p);
                lemma_weight_push(gi, c);
                pos = pos.update(i as int, p + 1);
            }
            group.push(c);
            proof {
                assert(group@ == gi.push(c));
                assert forall|rest: Seq<u8>| rest[0] == h implies present(
                    Seq::new((i + 1) as nat, |j: int| children_lookup(l0[j]@, rest)),
                ) == present(#[trigger] lookups(group@, rest)) by {
                    let sq = Seq::new(i as nat, |j: int| children_lookup(l0[j]@, rest));
                    assert(Seq::new((i + 1) as nat, |j: int| children_lookup(l0[j]@, rest)) =~= sq.push(
                        children_lookup(cs, rest),
                    ));
                    assert(lookups(group@, rest) =~= lookups(gi, rest).push(c.lookup(rest)));
                    lemma_children_lookup_at(cs, rest, p);
                    lemma_present_push(sq, c.lookup(rest));
                    lemma_present_push(lookups(gi, rest), c.lookup(rest));
                }
            }
        } else {
            proof {
                assert forall|x: int| 0 <= x < cs.len() implies first_byte(#[trigger] cs[x]) != h by {
                    if x > p {
                        assert(first_byte(cs[p]) < first_byte(cs[x]));
                    }
                }
                assert(cand_weight(cs, h) == 0);
                assert forall|rest: Seq<u8>| rest[0] == h implies present(
                    Seq::new((i + 1) as nat, |j: int| children_lookup(l0[j]@, rest)),
                ) == present(#[trigger] lookups(group@, rest)) by {
                    let sq = Seq::new(i as nat, |j: int| children_lookup(l0[j]@, rest));
                    assert(Seq::new((i + 1) as nat, |j: int| children_lookup(l0[j]@, rest)) =~= sq.push(
                        children_lookup(cs, rest),
                    ));
                    assert(children_lookup(cs, rest) is None);
                    lemma_present_push(sq, None);
                }
            }
        }
        i = i + 1;
    }
    proof {
        assert(l0.take(n as int) == l0);
        assert forall|rest: Seq<u8>| rest[0] == h implies present(lookups_among(l0, rest))
            == present(#[trigger] lookups(group@, rest)) by {
            assert(lookups_among(l0, rest) =~= Seq::new(n, |j: int| children_lookup(l0[j]@, rest)));
        }
    }
    (group, Ghost(pos))
}

/// Merges any number of nodes, folding the resolver, in the order of the nodes,
/// over the values that several of them hold for one key.
pub fn merge_n_nodes_with<V, F: FnMut(V, V) -> V>(nodes: Vec<Node<V>>, f: &mut F) -> (r: Node<V>)
    requires
        nodes@.len() >= 1,
        forall|i: int| 0 <= i < nodes@.len() ==> (#[trigger] nodes@[i]).wf(),
        forall|k: Seq<u8>| fold_resolvable(*old(f), #[trigger] lookups(nodes@, k)),
    ensures
        r.wf(),
        nodes@.len() == 1 ==> r == nodes@[0],
        forall|k: Seq<u8>| folded(*old(f), lookups(nodes@, k), #[trigger] r.lookup(k)),
        (forall|i: int|
            0 <= i < nodes@.len() ==> (#[trigger] nodes@[i]).prefix@.len() > 0 && first_byte(nodes@[i])
                == first_byte(nodes@[0])) ==> r.prefix@.len() > 0 && first_byte(r) == first_byte(nodes@[0]),
        *final(f) == *old(f),
    decreases weight(nodes@), 1nat,
{
    let ghost ns = nodes@;
    if nodes.len() == 1 {
        let mut nodes = nodes;
        let r = nodes.remove(0);
        proof {
            assert(r == ns[0]);
            assert forall|k: Seq<u8>| folded(*f, lookups(ns, k), #[trigger] r.lookup(k)) by {
                assert(lookups(ns, k) =~= seq![r.lookup(k)]);
                lemma_folded_single(*f, r.lookup(k));
            }
        }
        return r;
    }
    let l = find_lcp_n(&nodes);
    let (lcp, values, lists) = partition_by_lcp(nodes, l);
    let ghost vals = values@;
    let ghost ls = lists@;
    let mut acc: Option<V> = None;
    let mut rem = values;
    proof {
        lemma_folded_none(*f, vals.take(0));
        assert(rem@ == vals.skip(0));
        assert(lcp@.is_prefix_of(lcp@));
        assert forall|i: int| 0 <= i < ns.len() implies #[trigger] lookups(ns, lcp@)[i] == vals[i] by {
            assert(lookups(ns, lcp@)[i] == ns[i].lookup(lcp@));
        }
        assert(lookups(ns, lcp@) =~= vals);
        assert(fold_resolvable(*f, lookups(ns, lcp@)));
    }
    while rem.len() > 0
        invariant
            fold_resolvable(*f, vals),
            *f == *old(f),
            vals.len() == ns.len(),
            rem@.len() <= vals.len(),
            rem@ == vals.skip(vals.len() - rem@.len()),
            folded(*f, vals.take(vals.len() - rem@.len()), acc),
        decreases rem@.len(),
    {
        let ghost i = vals.len() - rem@.len();
        let v = rem.remove(0);
        proof {
            assert(v == vals[i]);
            assert(rem@ =~= vals.skip(i + 1));
        }
        let ghost a = acc;
        proof {
            lemma_fold_step_resolvable(*f, vals, i, acc);
        }
        acc = combine_values(acc, v, f);
        proof {
            lemma_folded_push(*f, vals.take(i), a, v, acc);
            assert(vals.take(i).push(v) =~= vals.take(i + 1));
        }
    }
    proof {
        assert(vals.take(vals.len() as int) == vals);
        assert forall|b: u8| #[trigger] group_weight(ls, b) < weight(ns) by {
            let w = choose|i: int|
                0 <= i < ns.len() && ((#[trigger] ns[i]).prefix@.len() == l || ns[i].prefix@[l as int]
                    != ns[0].prefix@[l as int]);
            if ns[w].prefix@.len() == l {
                lemma_group_weight_bound(ls, ns, b, w);
            } else if ns[0].prefix@.len() == l {
                lemma_group_weight_bound(ls, ns, b, 0);
            } else if b != ns[0].prefix@[l as int] {
                lemma_group_weight_bound(ls, ns, b, 0);
            } else {
                lemma_group_weight_bound(ls, ns, b, w);
            }
        }
    }
    proof {
        assert forall|rest: Seq<u8>| rest.len() > 0 implies fold_resolvable(
            *f,
            #[trigger] lookups_among(ls, rest),
        ) by {
            let k = lcp@ + rest;
            assert(k.skip(l as int) =~= rest);
            assert(k.take(l as int) =~= lcp@);
            assert(lcp@.is_prefix_of(k));
            assert forall|i: int| 0 <= i < ns.len() implies #[trigger] lookups(ns, k)[i]
                == lookups_among(ls, rest)[i] by {
                assert(lookups(ns, k)[i] == ns[i].lookup(k));
            }
            assert(lookups(ns, k) =~= lookups_among(ls, rest));
            assert(fold_resolvable(*f, lookups(ns, k)));
        }
    }
    let children = merge_n_children_with(lists, f, Ghost(weight(ns)));
    let r = Node { prefix: lcp, value: acc, children };
    proof {
        assert forall|k: Seq<u8>| folded(*f, lookups(ns, k), #[trigger] r.lookup(k)) by {
            lemma_lookup_unfold(r, k);
            if !lcp@.is_prefix_of(k) {
                assert forall|i: int| 0 <= i < ns.len() implies (#[trigger] lookups(ns, k)[i]) is None by {
                    assert(lookups(ns, k)[i] == ns[i].lookup(k));
                }
                lemma_folded_none(*f, lookups(ns, k));
            } else if k.len() == l {
                assert forall|i: int| 0 <= i < ns.len() implies #[trigger] lookups(ns, k)[i] == vals[i] by {
                    assert(lookups(ns, k)[i] == ns[i].lookup(k));
                }
                assert(lookups(ns, k) =~= vals);
            } else {
                let rest = k.skip(l as int);
                assert forall|i: int| 0 <= i < ns.len() implies #[trigger] lookups(ns, k)[i]
                    == lookups_among(ls, rest)[i] by {
                    assert(lookups(ns, k)[i] == ns[i].lookup(k));
                }
                assert(lookups(ns, k) =~= lookups_among(ls, rest));
            }
        }
        if acc is None {
            assert forall|i: int| 0 <= i < ns.len() implies (#[trigger] vals[i]) is None by {
                if vals[i] is Some {
                    lemma_folded_some(*f, vals, acc, i);
                }
            }
            assert(vals[0] is None);
            assert(vals[0] is Some || ls[0]@.len() > 0);
        }
        if forall|i: int|
            0 <= i < ns.len() ==> (#[trigger] ns[i]).prefix@.len() > 0 && first_byte(ns[i]) == first_byte(ns[0]) {
            let w = choose|i: int|
                0 <= i < ns.len() && ((#[trigger] ns[i]).prefix@.len() == l || ns[i].prefix@[l as int]
                    != ns[0].prefix@[l as int]);
            if l == 0 {
                assert(ns[w].prefix@.len() > 0);
                assert(first_byte(ns[w]) == first_byte(ns[0]));
            }
            assert(ns[0].prefix@.take(l as int)[0] == ns[0].prefix@[0]);
        }
    }
    r
}

/// Merges lists of ordered children byte by byte: at each byte, the children that
/// the lists hold for it are merged together in the order of the lists.
fn merge_n_children_with<V, F: FnMut(V, V) -> V>(
    lists: Vec<Vec<Node<V>>>,
    f: &mut F,
    Ghost(bound): Ghost<nat>,
) -> (out: Vec<Node<V>>)
    requires
        forall|rest: Seq<u8>| rest.len() > 0 ==> fold_resolvable(*old(f), #[trigger] lookups_among(lists@, rest)),
        forall|i: int| 0 <= i < lists@.len() ==> children_ordered(#[trigger] lists@[i]@),
        forall|i: int, j: int|
            0 <= i < lists@.len() && 0 <= j < lists@[i]@.len() ==> (#[trigger] lists@[i]@[j]).wf(),
        forall|b: u8| #[trigger] group_weight(lists@, b) < bound,
    ensures
        *final(f) == *old(f),
        children_ordered(out@),
        forall|j: int| 0 <= j < out@.len() ==> (#[trigger] out@[j]).wf(),
        forall|rest: Seq<u8>| folded(*old(f), lookups_among(lists@, rest), #[trigger] children_lookup(out@, rest)),
        (exists|i: int| 0 <= i < lists@.len() && lists@[i]@.len() > 0) ==> out@.len() > 0,
    decreases bound, 0nat,
{
    let ghost l0 = lists@;
    let ghost n = l0.len();
    let mut lists = lists;
    let mut out: Vec<Node<V>> = Vec::new();
    let ghost mut t: int = 0;
    let ghost mut pos: Seq<int> = Seq::new(n, |i: int| 0int);
    proof {
        assert forall|i: int| 0 <= i < n implies (#[trigger] lists@[i])@ == l0[i]@.skip(pos[i]) by {
            assert(l0[i]@.skip(0) == l0[i]@);
        }
        assert forall|rest: Seq<u8>| rest[0] >= t implies (#[trigger] children_lookup(out@, rest)) is None by {
            lemma_children_lookup_none_empty(out@, rest);
        }
    }
    let mut next = min_head_byte(&lists);
    while next.is_some()
        invariant
            forall|rest: Seq<u8>| rest.len() > 0 ==> fold_resolvable(*f, #[trigger] lookups_among(l0, rest)),
            *f == *old(f),
            n == l0.len(),
            forall|i: int| 0 <= i < n ==> children_ordered(#[trigger] l0[i]@),
            forall|i: int, j: int| 0 <= i < n && 0 <= j < l0[i]@.len() ==> (#[trigger] l0[i]@[j]).wf(),
            forall|b: u8| #[trigger] group_weight(l0, b) < bound,
            lists@.len() == n,
            pos.len() == n,
            forall|i: int| 0 <= i < n ==> 0 <= #[trigger] pos[i] <= l0[i]@.len(),
            forall|i: int| 0 <= i < n ==> (#[trigger] lists@[i])@ == l0[i]@.skip(pos[i]),
            forall|i: int, x: int| 0 <= i < n && 0 <= x < pos[i] ==> first_byte(#[trigger] l0[i]@[x]) < t,
            forall|i: int, x: int|
                0 <= i < n && pos[i] <= x < l0[i]@.len() ==> first_byte(#[trigger] l0[i]@[x]) >= t,
            0 <= t <= 256,
            children_ordered(out@),
            forall|j: int| 0 <= j < out@.len() ==> (#[trigger] out@[j]).wf(),
            forall|j: int| 0 <= j < out@.len() ==> first_byte(#[trigger] out@[j]) < t,
            forall|rest: Seq<u8>|
                rest[0] < t ==> folded(*f, lookups_among(l0, rest), #[trigger] children_lookup(out@, rest)),
            forall|rest: Seq<u8>| rest[0] >= t ==> (#[trigger] children_lookup(out@, rest)) is None,
            (exists|i: int| 0 <= i < n && pos[i] > 0) ==> out@.len() > 0,
            next is None <==> forall|i: int| 0 <= i < n ==> (#[trigger] lists@[i]@).len() == 0,
            next matches Some(h) ==> exists|i: int|
                0 <= i < n && (#[trigger] lists@[i]@).len() > 0 && first_byte(lists@[i]@[0]) == h,
            next matches Some(h) ==> forall|i: int|
                0 <= i < n && (#[trigger] lists@[i]@).len() > 0 ==> first_byte(lists@[i]@[0]) >= h,
        decreases 256 - t,
    {
        let h = next.unwrap();
        proof {
            assert forall|i: int, x: int| 0 <= i < n && pos[i] <= x < l0[i]@.len() implies first_byte(
                #[trigger] l0[i]@[x],
            ) >= h by {
                assert(lists@[i]@[0] == l0[i]@[pos[i]]);
                if x > pos[i] {
                    assert(first_byte(l0[i]@[pos[i]]) < first_byte(l0[i]@[x]));
                }
            }
            let i0 = choose|i: int| 0 <= i < n && (#[trigger] lists@[i]@).len() > 0 && first_byte(lists@[i]@[0]) == h;
            assert(lists@[i0]@[0] == l0[i0]@[pos[i0]]);
            assert(heads_with(l0, i0, pos[i0], h));
            assert(t <= h);
        }
        let ghost pos0 = pos;
        let (group, Ghost(new_pos)) = take_group(&mut lists, h, Ghost(l0), Ghost(pos0));
        proof {
            pos = new_pos;
            assert(group@.len() >= 1);
        }
        proof {
            assert forall|k: Seq<u8>| fold_resolvable(*f, #[trigger] lookups(group@, k)) by {
                if k.len() > 0 && k[0] == h {
                    assert(present(lookups_among(l0, k)) == present(lookups(group@, k)));
                    assert(fold_resolvable(*f, lookups_among(l0, k)));
                } else {
                    assert forall|g: int| 0 <= g < group@.len() implies (#[trigger] lookups(group@, k)[g]) is None by {
                        let p = group@[g].prefix@;
                        assert(lookups(group@, k)[g] == group@[g].lookup(k));
                        if p.is_prefix_of(k) {
                            assert(p[0] == k.take(p.len() as int)[0]);
                        }
                    }
                    lemma_fold_resolvable_none(*f, lookups(group@, k));
                }
            }
        }
        let c = merge_n_nodes_with(group, f);
        let ghost old_out = out@;
        proof {
            assert(first_byte(c) == h);
            lemma_insert_child(old_out, old_out.len() as int, c);
        }
        out.push(c);
        proof {
            assert(out@ == old_out.insert(old_out.len() as int, c));
            assert forall|j: int| 0 <= j < out@.len() implies (#[trigger] out@[j]).wf() && first_byte(out@[j]) < h + 1 by {
                if j < old_out.len() {
                    assert(out@[j] == old_out[j]);
                }
            }
            assert forall|i: int, x: int| 0 <= i < n && 0 <= x < pos[i] implies first_byte(#[trigger] l0[i]@[x]) < h + 1 by {
                if x >= pos0[i] {
                    assert(heads_with(l0, i, pos0[i], h));
                }
            }
            assert forall|i: int, x: int| 0 <= i < n && pos[i] <= x < l0[i]@.len() implies first_byte(
                #[trigger] l0[i]@[x],
            ) >= h + 1 by {
                if heads_with(l0, i, pos0[i], h) {
                    assert(first_byte(l0[i]@[pos0[i]]) < first_byte(l0[i]@[x]));
                } else if x > pos0[i] {
                    assert(first_byte(l0[i]@[pos0[i]]) < first_byte(l0[i]@[x]));
                }
            }
            assert forall|rest: Seq<u8>| rest[0] < h + 1 implies folded(*f, lookups_among(l0, rest), #[trigger] children_lookup(out@, rest)) by {
                if rest[0] == h {
                    lemma_folded_present(*f, lookups(group@, rest), c.lookup(rest));
                    lemma_folded_present(*f, lookups_among(l0, rest), c.lookup(rest));
                } else if rest[0] >= t {
                    assert forall|i: int| 0 <= i < n implies (#[trigger] lookups_among(l0, rest)[i]) is None by {
                        assert forall|x: int| 0 <= x < l0[i]@.len() implies first_byte(#[trigger] l0[i]@[x]) != rest[0] by {
                            if x >= pos0[i] {
                                assert(first_byte(l0[i]@[x]) >= h);
                            }
                        }
                        lemma_children_lookup_none_empty(l0[i]@, rest);
                    }
                    lemma_folded_none(*f, lookups_among(l0, rest));
                }
            }
            if exists|i: int| 0 <= i < n && pos[i] > 0 {
                assert(out@.len() > 0);
            }
            t = h + 1;
        }
        next = min_head_byte(&lists);
    }
    proof {
        assert forall|i: int| 0 <= i < n implies #[trigger] pos[i] == l0[i]@.len() by {
            assert(lists@[i]@.len() == 0);
        }
        assert forall|rest: Seq<u8>| folded(*f, lookups_among(l0, rest), #[trigger] children_lookup(out@, rest)) by {
            if rest[0] >= t {
                assert forall|i: int| 0 <= i < n implies (#[trigger] lookups_among(l0, rest)[i]) is None by {
                    lemma_children_lookup_none_empty(l0[i]@, rest);
                }
                lemma_folded_none(*f, lookups_among(l0, rest));
            }
        }
        if exists|i: int| 0 <= i < n && l0[i]@.len() > 0 {
            let i = choose|i: int| 0 <= i < n && l0[i]@.len() > 0;
            assert(pos[i] > 0);
        }
    }
    out
}

/// Children none of which has the first byte of `rest` hold nothing under it.
proof fn lemma_children_lookup_none_empty<V>(cs: Seq<Node<V>>, rest: Seq<u8>)
    requires
        forall|j: int| 0 <= j < cs.len() ==> first_byte(#[trigger] cs[j]) != rest[0],
    ensures
        children_lookup(cs, rest) is None,
{
}

} // verus!
