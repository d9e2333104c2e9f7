//! Checking a merged tree against reference maps of the two trees it was merged
//! from: every key of either tree holds the value of the right tree if it has one,
//! else that of the left tree; nothing else is present; iteration is in key order.
use vstd::prelude::*;
use std::collections::HashMap;
use vstd::std_specs::iter::IteratorSpec;
use crate::bytes::lex_less;
use crate::keys::{ArrayKey, KeyTrait, u64_key_bytes, lemma_u64_key_roundtrip};
use crate::tree::{AdaptiveRadixTree, entry_view, lemma_listing_len, map_get};

verus! {

broadcast use vstd::std_specs::hash::group_hash_axioms;

/// The tree the checks work on: 16-byte array keys, `usize` values.
pub type CheckTree = AdaptiveRadixTree<ArrayKey<16>, usize>;

/// Bytes of the key that a `usize` converts into.
pub open spec fn usize_key(k: usize) -> Seq<u8> {
    u64_key_bytes(k as u64)
}

/// The merged map `t` agrees with the maps `m1` and `m2` of the two merged trees
/// and with `e`, the expected union of both.
pub open spec fn merge_agrees(
    t: Map<Seq<u8>, usize>,
    m1: Map<usize, usize>,
    m2: Map<usize, usize>,
    e: Map<usize, usize>,
) -> bool {
    &&& forall|k: usize| #[trigger] e.contains_key(k) ==> map_get(t, usize_key(k)) == Some(e[k])
    &&& t.len() == e.len()
    &&& forall|k: usize|
        #[trigger] m1.contains_key(k) ==> map_get(t, usize_key(k)) == if m2.contains_key(k) {
            Some(m2[k])
        } else {
            Some(m1[k])
        }
    &&& forall|k: usize| #[trigger] m2.contains_key(k) ==> map_get(t, usize_key(k)) == Some(m2[k])
}

/// Distinct `usize` values give distinct key bytes.
pub proof fn lemma_usize_key_injective(a: usize, b: usize)
    ensures
        usize_key(a) == usize_key(b) ==> a == b,
{
    lemma_u64_key_roundtrip(a as u64);
    lemma_u64_key_roundtrip(b as u64);
}

/// A merged map that agrees with the expected one holds exactly the expected
/// keys: nothing that no input held, and as many entries as expected.
pub proof fn lemma_merge_agrees_exact(
    t: Map<Seq<u8>, usize>,
    m1: Map<usize, usize>,
    m2: Map<usize, usize>,
    e: Map<usize, usize>,
)
    requires
        merge_agrees(t, m1, m2, e),
        t.dom().finite(),
        e.dom().finite(),
    ensures
        t.len() == e.len(),
        forall|kb: Seq<u8>| #[trigger] t.contains_key(kb) ==> exists|k: usize| e.contains_key(k) && usize_key(k) == kb,
        forall|k: usize| #[trigger] e.contains_key(k) ==> t.contains_key(usize_key(k)) && t[usize_key(k)] == e[k],
{
    let f = |k: usize| usize_key(k);
    let img = e.dom().map(f);
    assert forall|a: usize, b: usize| e.dom().contains(a) && e.dom().contains(b) && #[trigger] f(a) == #[trigger] f(
        b,
    ) implies a == b by {
        lemma_usize_key_injective(a, b);
    }
    assert(vstd::relations::injective_on(f, e.dom()));
    vstd::set_lib::lemma_map_size(e.dom(), img, f);
    assert forall|kb: Seq<u8>| img.contains(kb) implies t.dom().contains(kb) by {
        let k = choose|k: usize| e.dom().contains(k) && f(k) == kb;
        assert(map_get(t, usize_key(k)) == Some(e[k]));
    }
    vstd::set_lib::lemma_subset_equality(img, t.dom());
    assert forall|kb: Seq<u8>| #[trigger] t.contains_key(kb) implies exists|k: usize|
        e.contains_key(k) && usize_key(k) == kb by {
        assert(img.contains(kb));
        let k = choose|k: usize| e.dom().contains(k) && f(k) == kb;
        assert(e.contains_key(k) && usize_key(k) == kb);
    }
    assert forall|k: usize| #[trigger] e.contains_key(k) implies t.contains_key(usize_key(k)) && t[usize_key(k)] == e[k] by {
        assert(map_get(t, usize_key(k)) == Some(e[k]));
    }
}

/// Merges two trees, the second winning on keys both hold.
pub fn merge_trees(tree1: CheckTree, tree2: CheckTree) -> (r: CheckTree)
    requires
        tree1.wf(),
        tree2.wf(),
    ensures
        r.wf(),
        r@ == tree1@.union_prefer_right(tree2@),
{
    tree1.merge(tree2)
}

/// Whether `merged` agrees with the maps of the two trees it was merged from and
/// with the expected union of both, and iterates in key order.
pub fn verify_merge(
    merged: &CheckTree,
    map1: &HashMap<usize, usize>,
    map2: &HashMap<usize, usize>,
    expected: &HashMap<usize, usize>,
) -> (ok: bool)
    requires
        merged.wf(),
    ensures
        ok <==> merge_agrees(merged@, map1@, map2@, expected@),
        ok ==> merged@.len() == expected@.len(),
        ok ==> forall|kb: Seq<u8>| #[trigger] merged@.contains_key(kb) ==> exists|k: usize|
            expected@.contains_key(k) && usize_key(k) == kb,
{
    let ghost t = merged@;

    // Every expected key is present with the expected value.
    let ghost fe = vstd::std_specs::hash::spec_hash_map_iter(expected).remaining();
    let mut ok_expected = true;
    let ghost mut cnt: int = 0;
    for e in it: expected.iter()
        invariant
            merged.wf(),
            t == merged@,
            it.seq() == fe,
            cnt == it.index(),
            ok_expected <==> forall|i: int|
                0 <= i < it.index() ==> map_get(t, usize_key(*fe[i].0)) == Some(*fe[i].1),
    {
        let (k, v) = e;
        match merged.get(*k) {
            Some(mv) => {
                if *mv != *v {
                    ok_expected = false;
                }
            },
            None => {
                ok_expected = false;
            },
        }
        proof {
            cnt = cnt + 1;
        }
    }
    proof {
        assert(cnt == fe.len());
        assert forall|k: usize| #[trigger] expected@.contains_key(k) && ok_expected implies map_get(
            t,
            usize_key(k),
        ) == Some(expected@[k]) by {
            assert(fe.contains((&k, &expected@[k])));
        }
        if !ok_expected {
            let i = choose|i: int| 0 <= i < fe.len() && map_get(t, usize_key(*fe[i].0)) != Some(*fe[i].1);
            assert(expected@.contains_key(*fe[i].0));
        }
    }

    // The merged tree has exactly as many entries as expected.
    let entries = merged.iter();
    proof {
        lemma_listing_len(t, entry_view(entries@));
    }
    let ok_count = entries.len() == expected.len();

    // Iteration is in lexicographic key order.
    let mut ok_sorted = true;
    let mut i: usize = 1;
    while i < entries.len()
        invariant
            1 <= i,
            crate::tree::lists_in_order(t, entry_view(entries@)),
            ok_sorted,
        decreases entries@.len() - i,
    {
        let a = entries[i - 1].0.as_slice();
        let b = entries[i].0.as_slice();
        proof {
            assert(entry_view(entries@)[i - 1].0 == entries@[i - 1].0@);
            assert(entry_view(entries@)[i as int].0 == entries@[i as int].0@);
        }
        if !lex_less(a, b) {
            ok_sorted = false;
        }
        i = i + 1;
    }

    // Every key of the left tree holds the right tree's value if it has one, else
    // the left tree's.
    let ghost f1 = vstd::std_specs::hash::spec_hash_map_iter(map1).remaining();
    let mut ok_left = true;
    let ghost mut cnt1: int = 0;
    for e in it: map1.iter()
        invariant
            merged.wf(),
            t == merged@,
            it.seq() == f1,
            cnt1 == it.index(),
            ok_left <==> forall|i: int|
                0 <= i < it.index() ==> map_get(t, usize_key(*f1[i].0)) == if map2@.contains_key(*f1[i].0) {
                    Some(map2@[*f1[i].0])
                } else {
                    Some(*f1[i].1)
                },
    {
        let (k, v1) = e;
        let want = match map2.get(k) {
            Some(v2) => *v2,
            None => *v1,
        };
        match merged.get(*k) {
            Some(mv) => {
                if *mv != want {
                    ok_left = false;
                }
            },
            None => {
                ok_left = false;
            },
        }
        proof {
            cnt1 = cnt1 + 1;
        }
    }
    proof {
        assert(cnt1 == f1.len());
        assert forall|k: usize| #[trigger] map1@.contains_key(k) && ok_left implies map_get(
            t,
            usize_key(k),
        ) == if map2@.contains_key(k) {
            Some(map2@[k])
        } else {
            Some(map1@[k])
        } by {
            assert(f1.contains((&k, &map1@[k])));
        }
        if !ok_left {
            let i = choose|i: int|
                0 <= i < f1.len() && map_get(t, usize_key(*f1[i].0)) != if map2@.contains_key(*f1[i].0) {
                    Some(map2@[*f1[i].0])
                } else {
                    Some(*f1[i].1)
                };
            assert(map1@.contains_key(*f1[i].0));
        }
    }

    // Every key of the right tree holds the right tree's value.
    let ghost f2 = vstd::std_specs::hash::spec_hash_map_iter(map2).remaining();
    let mut ok_right = true;
    let ghost mut cnt2: int = 0;
    for e in it: map2.iter()
        invariant
            merged.wf(),
            t == merged@,
            it.seq() == f2,
            cnt2 == it.index(),
            ok_right <==> forall|i: int|
                0 <= i < it.index() ==> map_get(t, usize_key(*f2[i].0)) == Some(*f2[i].1),
    {
        let (k, v2) = e;
        match merged.get(*k) {
            Some(mv) => {
                if *mv != *v2 {
                    ok_right = false;
                }
            },
            None => {
                ok_right = false;
            },
        }
        proof {
            cnt2 = cnt2 + 1;
        }
    }
    proof {
        assert(cnt2 == f2.len());
        assert forall|k: usize| #[trigger] map2@.contains_key(k) && ok_right implies map_get(
            t,
            usize_key(k),
        ) == Some(map2@[k]) by {
            assert(f2.contains((&k, &map2@[k])));
        }
        if !ok_right {
            let i = choose|i: int| 0 <= i < f2.len() && map_get(t, usize_key(*f2[i].0)) != Some(*f2[i].1);
            assert(map2@.contains_key(*f2[i].0));
        }
    }
    let ok = ok_expected && ok_count && ok_sorted && ok_left && ok_right;
    proof {
        if ok {
            lemma_merge_agrees_exact(t, map1@, map2@, expected@);
        }
    }
    ok
}

} // verus!
