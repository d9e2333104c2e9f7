use std::collections::{BTreeMap, HashMap};
use std::ops::Bound;

use rart::keys::{ArrayKey, KeyTrait, VectorKey};
use rart::loser_tree::{Entry, LoserTree};
use rart::merge_check::{merge_trees, verify_merge};
use rart::tree::{AdaptiveRadixTree, KeyBound};

#[test]
fn array_key_encodes_integers_big_endian() {
    let k: ArrayKey<16> = 0x0102_0304_0506_0708u64.into();
    assert_eq!(k.as_slice(), &[1, 2, 3, 4, 5, 6, 7, 8]);
    assert_eq!(k.len(), 8);
    assert_eq!(k.to_be_u64(), 0x0102_0304_0506_0708u64);

    let k: ArrayKey<16> = (-1i32).into();
    assert_eq!(k.as_slice(), &[0xff, 0xff, 0xff, 0xff]);

    let k: ArrayKey<16> = 258usize.into();
    assert_eq!(k.as_slice(), &[0, 0, 0, 0, 0, 0, 1, 2]);
}

#[test]
fn string_keys_carry_a_terminator() {
    let k: ArrayKey<16> = "ab".into();
    assert_eq!(k.as_slice(), b"ab\0");
    let v: VectorKey = "ab".into();
    assert_eq!(v.as_slice(), b"ab\0");
    let raw = VectorKey::new_from_slice(b"ab");
    assert_eq!(raw.as_slice(), b"ab");
    assert_eq!(raw.len(), 2);
}

#[test]
fn integer_key_round_trips_through_its_bytes() {
    for x in [0u64, 1, 255, 256, 0xdead_beef, u64::MAX] {
        let k: ArrayKey<16> = x.into();
        assert_eq!(k.to_be_u64(), x);
    }
}

#[test]
fn default_tree_is_empty() {
    let t: AdaptiveRadixTree<ArrayKey<16>, i32> = Default::default();
    assert!(t.is_empty());
    assert_eq!(t.iter().len(), 0);
}

#[test]
fn removing_every_key_empties_the_tree() {
    let mut t = AdaptiveRadixTree::<ArrayKey<16>, i32>::new();
    t.insert("a", 1);
    t.insert("ab", 2);
    t.insert("b", 3);
    assert!(!t.is_empty());
    assert_eq!(t.remove("ab"), Some(2));
    assert_eq!(t.remove("ab"), None);
    assert_eq!(t.remove("a"), Some(1));
    assert_eq!(t.remove("b"), Some(3));
    assert!(t.is_empty());
}

#[test]
fn get_mut_changes_only_its_key() {
    let mut t = AdaptiveRadixTree::<ArrayKey<16>, i32>::new();
    t.insert("apple", 1);
    t.insert("apricot", 2);
    *t.get_mut("apple").unwrap() = 10;
    assert!(t.get_mut("banana").is_none());
    let k: ArrayKey<16> = "apricot".into();
    *t.get_mut_k(&k).unwrap() += 5;
    assert_eq!(t.get("apple"), Some(&10));
    assert_eq!(t.get("apricot"), Some(&7));
    assert_eq!(t.iter().len(), 2);
}

#[test]
fn values_come_in_key_order() {
    let mut t = AdaptiveRadixTree::<ArrayKey<16>, i32>::new();
    t.insert(30u64, 3);
    t.insert(10u64, 1);
    t.insert(20u64, 2);
    t.insert(256u64, 4);
    let vals: Vec<i32> = t.values_iter().into_iter().copied().collect();
    assert_eq!(vals, vec![1, 2, 3, 4]);
}

#[test]
fn keys_that_are_prefixes_of_others_live_together() {
    let mut t = AdaptiveRadixTree::<VectorKey, i32>::new();
    t.insert_k(&VectorKey::new_from_slice(b"a"), 1);
    t.insert_k(&VectorKey::new_from_slice(b"abc"), 3);
    t.insert_k(&VectorKey::new_from_slice(b"ab"), 2);
    assert_eq!(t.get_k(&VectorKey::new_from_slice(b"ab")), Some(&2));
    let (k, v) = t.longest_prefix_match(VectorKey::new_from_slice(b"abd")).unwrap();
    assert_eq!(k.as_slice(), b"ab");
    assert_eq!(*v, 2);
    let keys: Vec<Vec<u8>> = t.iter().into_iter().map(|(k, _)| k.as_slice().to_vec()).collect();
    assert_eq!(keys, vec![b"a".to_vec(), b"ab".to_vec(), b"abc".to_vec()]);
    assert_eq!(t.remove_k(&VectorKey::new_from_slice(b"ab")), Some(2));
    assert_eq!(t.get_k(&VectorKey::new_from_slice(b"abc")), Some(&3));
    assert_eq!(t.get_k(&VectorKey::new_from_slice(b"a")), Some(&1));
}

#[test]
fn range_with_excluded_bounds() {
    let mut t = AdaptiveRadixTree::<ArrayKey<16>, u64>::new();
    for i in 0..10u64 {
        t.insert(i, i * 10);
    }
    let lo: ArrayKey<16> = 2u64.into();
    let hi: ArrayKey<16> = 6u64.into();
    let got: Vec<u64> = t
        .range(KeyBound::Excluded(lo), KeyBound::Excluded(hi))
        .into_iter()
        .map(|(_, v)| *v)
        .collect();
    assert_eq!(got, vec![30, 40, 50]);
    let lo: ArrayKey<16> = 8u64.into();
    let hi: ArrayKey<16> = 3u64.into();
    assert_eq!(t.range(KeyBound::Included(lo), KeyBound::Included(hi)).len(), 0);
    assert_eq!(t.range(KeyBound::Unbounded, KeyBound::Unbounded).len(), 10);
}

#[test]
fn prefix_iter_with_a_string_prefix() {
    let mut t = AdaptiveRadixTree::<VectorKey, i32>::new();
    t.insert_k(&VectorKey::new_from_slice(b"car"), 1);
    t.insert_k(&VectorKey::new_from_slice(b"cart"), 2);
    t.insert_k(&VectorKey::new_from_slice(b"cat"), 3);
    let got: Vec<i32> = t
        .prefix_iter(VectorKey::new_from_slice(b"car"))
        .into_iter()
        .map(|(_, v)| *v)
        .collect();
    assert_eq!(got, vec![1, 2]);
    assert_eq!(t.prefix_iter(VectorKey::new_from_slice(b"")).len(), 3);
}

#[test]
fn merge_all_with_folds_in_tree_order() {
    let mut t1 = AdaptiveRadixTree::<ArrayKey<16>, i32>::new();
    let mut t2 = AdaptiveRadixTree::<ArrayKey<16>, i32>::new();
    let mut t3 = AdaptiveRadixTree::<ArrayKey<16>, i32>::new();
    t1.insert("key", 1);
    t2.insert("key", 2);
    t3.insert("key", 3);
    t3.insert("other", 9);
    let merged = AdaptiveRadixTree::merge_all_with(vec![t1, t2, t3], |acc, v| acc * 10 + v);
    assert_eq!(merged.get("key"), Some(&123));
    assert_eq!(merged.get("other"), Some(&9));
}

#[test]
fn merge_all_right_wins_between_extension_and_exact_match() {
    let mut t0 = AdaptiveRadixTree::<ArrayKey<16>, i32>::new();
    let mut t1 = AdaptiveRadixTree::<ArrayKey<16>, i32>::new();
    let mut t2 = AdaptiveRadixTree::<ArrayKey<16>, i32>::new();
    t0.insert("abc", 0);
    t0.insert("abd", 10);
    t1.insert("ab", 1);
    t2.insert("abc", 2);
    let merged = AdaptiveRadixTree::merge_all(vec![t0, t1, t2]);
    assert_eq!(merged.get("abc"), Some(&2));
    assert_eq!(merged.get("ab"), Some(&1));
    assert_eq!(merged.get("abd"), Some(&10));
    assert_eq!(merged.iter().len(), 3);
}

#[test]
fn merge_all_with_values_at_inner_positions() {
    let mut t1 = AdaptiveRadixTree::<VectorKey, i32>::new();
    let mut t2 = AdaptiveRadixTree::<VectorKey, i32>::new();
    let mut t3 = AdaptiveRadixTree::<VectorKey, i32>::new();
    t1.insert_k(&VectorKey::new_from_slice(b"ab"), 1);
    t2.insert_k(&VectorKey::new_from_slice(b"abc"), 2);
    t2.insert_k(&VectorKey::new_from_slice(b"a"), 5);
    t3.insert_k(&VectorKey::new_from_slice(b"ab"), 3);
    let merged = AdaptiveRadixTree::merge_all_with(vec![t1, t2, t3], |acc, v| acc + v);
    assert_eq!(merged.get_k(&VectorKey::new_from_slice(b"ab")), Some(&4));
    assert_eq!(merged.get_k(&VectorKey::new_from_slice(b"abc")), Some(&2));
    assert_eq!(merged.get_k(&VectorKey::new_from_slice(b"a")), Some(&5));
    assert_eq!(merged.iter().len(), 3);
}

#[test]
fn merge_all_of_two_is_the_pairwise_merge_with_conflicts() {
    let build = |pairs: &[(u64, i32)]| {
        let mut t = AdaptiveRadixTree::<ArrayKey<16>, i32>::new();
        for (k, v) in pairs {
            t.insert(*k, *v);
        }
        t
    };
    let a = [(1u64, 1), (2, 2), (300, 3)];
    let b = [(2u64, 20), (4, 4), (300, 30)];
    let n_way = AdaptiveRadixTree::merge_all(vec![build(&a), build(&b)]);
    let pairwise = build(&a).merge(build(&b));
    let n: Vec<(u64, i32)> = n_way.iter().into_iter().map(|(k, v)| (k.to_be_u64(), *v)).collect();
    let p: Vec<(u64, i32)> = pairwise.iter().into_iter().map(|(k, v)| (k.to_be_u64(), *v)).collect();
    assert_eq!(n, p);
    assert_eq!(n, vec![(1, 1), (2, 20), (4, 4), (300, 30)]);
}

#[test]
fn merge_all_equals_a_chain_of_merges() {
    let build = |base: u64, off: i32| {
        let mut t = AdaptiveRadixTree::<ArrayKey<16>, i32>::new();
        for i in 0..40u64 {
            t.insert((i * 7 + base) % 50, i as i32 + off);
        }
        t
    };
    let all = AdaptiveRadixTree::merge_all(vec![build(1, 0), build(3, 100), build(5, 200), build(9, 300)]);
    let chain = build(1, 0).merge(build(3, 100)).merge(build(5, 200)).merge(build(9, 300));
    let x: Vec<(u64, i32)> = all.iter().into_iter().map(|(k, v)| (k.to_be_u64(), *v)).collect();
    let y: Vec<(u64, i32)> = chain.iter().into_iter().map(|(k, v)| (k.to_be_u64(), *v)).collect();
    assert_eq!(x, y);
}

#[test]
fn merge_with_keeps_keys_held_by_one_side() {
    let mut t1 = AdaptiveRadixTree::<ArrayKey<16>, i32>::new();
    t1.insert("left", 1);
    t1.insert("both", 2);
    let mut t2 = AdaptiveRadixTree::<ArrayKey<16>, i32>::new();
    t2.insert("right", 3);
    t2.insert("both", 4);
    let merged = t1.merge_with(t2, |l, r| l - r);
    assert_eq!(merged.get("left"), Some(&1));
    assert_eq!(merged.get("right"), Some(&3));
    assert_eq!(merged.get("both"), Some(&-2));
}

#[test]
fn verify_merge_accepts_a_correct_merge() {
    let mut t1 = AdaptiveRadixTree::<ArrayKey<16>, usize>::new();
    let mut t2 = AdaptiveRadixTree::<ArrayKey<16>, usize>::new();
    let mut m1 = HashMap::new();
    let mut m2 = HashMap::new();
    for (k, v) in [(1usize, 10usize), (2, 20), (70000, 7)] {
        t1.insert(k, v);
        m1.insert(k, v);
    }
    for (k, v) in [(2usize, 200usize), (3, 30)] {
        t2.insert(k, v);
        m2.insert(k, v);
    }
    let mut expected = m1.clone();
    for (k, v) in &m2 {
        expected.insert(*k, *v);
    }
    let merged = merge_trees(t1, t2);
    assert!(verify_merge(&merged, &m1, &m2, &expected));
    assert_eq!(merged.get(2usize), Some(&200));
}

#[test]
fn verify_merge_rejects_wrong_references() {
    let mut t1 = AdaptiveRadixTree::<ArrayKey<16>, usize>::new();
    t1.insert(1usize, 10usize);
    let t2 = AdaptiveRadixTree::<ArrayKey<16>, usize>::new();
    let merged = merge_trees(t1, t2);
    let mut m1 = HashMap::new();
    m1.insert(1usize, 10usize);
    let m2 = HashMap::new();

    let mut wrong_value = HashMap::new();
    wrong_value.insert(1usize, 11usize);
    assert!(!verify_merge(&merged, &m1, &m2, &wrong_value));

    let mut too_many = m1.clone();
    too_many.insert(2usize, 5usize);
    assert!(!verify_merge(&merged, &m1, &m2, &too_many));

    let mut right_has_it = HashMap::new();
    right_has_it.insert(1usize, 99usize);
    assert!(!verify_merge(&merged, &m1, &right_has_it, &m1));

    assert!(verify_merge(&merged, &m1, &m2, &m1));
}

#[test]
fn loser_tree_winner_is_the_smallest_live_entry() {
    let values = [7, 3, 9, 3, 8, 1, 6];
    let entries: Vec<Entry<i32>> = values.iter().enumerate().map(|(i, v)| Entry::new(Some(*v), i)).collect();
    let mut tree = LoserTree::new(entries);
    assert_eq!(tree.peek_min().unwrap().value, Some(1));
    assert_eq!(tree.peek_min().unwrap().source_idx, 5);
    assert_eq!(tree.winner_idx(), 5);
    tree.replace_winner(None);
    // Ties go to the lower index.
    assert_eq!(tree.winner_idx(), 1);
    tree.replace_winner(Some(100));
    assert_eq!(tree.winner_idx(), 3);
    assert_eq!(tree.peek_min().unwrap().value, Some(3));
}

#[test]
fn entry_keeps_value_and_source() {
    let e = Entry::new(Some("x"), 4);
    assert_eq!(e.value, Some("x"));
    assert_eq!(e.source_idx, 4);
}

#[test]
fn tree_stats_count_values_and_nodes() {
    let empty = AdaptiveRadixTree::<ArrayKey<16>, i32>::new();
    let s = empty.get_tree_stats();
    assert_eq!((s.num_values, s.num_leaves, s.num_inner_nodes, s.max_height), (0, 0, 0, 0));

    let mut t = AdaptiveRadixTree::<ArrayKey<16>, i32>::new();
    t.insert("a", 1);
    let s = t.get_tree_stats();
    assert_eq!((s.num_values, s.num_leaves, s.num_inner_nodes, s.max_height), (1, 1, 0, 1));

    t.insert("b", 2);
    let s = t.get_tree_stats();
    assert_eq!((s.num_values, s.num_leaves, s.num_inner_nodes, s.max_height), (2, 2, 1, 2));

    for i in 0..100u64 {
        t.insert(i, i as i32);
    }
    let s = t.get_tree_stats();
    assert_eq!(s.num_values, 102);
    assert_eq!(s.num_values, t.iter().len());
}

#[test]
fn range_seek_agrees_with_a_sorted_map() {
    let words = [
        "a", "ab", "abc", "abd", "abde", "b", "ba", "bab", "bac", "c", "ca", "cab", "m", "mk", "mkey", "z",
    ];
    let mut t = AdaptiveRadixTree::<VectorKey, usize>::new();
    let mut reference = BTreeMap::new();
    for (i, w) in words.iter().enumerate() {
        t.insert_k(&VectorKey::new_from_slice(w.as_bytes()), i);
        reference.insert(w.as_bytes().to_vec(), i);
    }
    let probes = ["", "a", "aa", "ab", "abcz", "abd", "b", "bb", "c", "k", "m", "mkez", "zz"];
    for s in probes.iter() {
        for e in probes.iter() {
            for kinds in 0..9 {
                let mk = |k: &str, kind: usize| match kind {
                    0 => (KeyBound::Included(VectorKey::new_from_slice(k.as_bytes())), Bound::Included(k.as_bytes().to_vec())),
                    1 => (KeyBound::Excluded(VectorKey::new_from_slice(k.as_bytes())), Bound::Excluded(k.as_bytes().to_vec())),
                    _ => (KeyBound::Unbounded, Bound::Unbounded),
                };
                let (ts, bs) = mk(s, kinds / 3);
                let (te, be) = mk(e, kinds % 3);
                let bs_c = bs.clone();
                let be_c = be.clone();
                let valid = match (&bs_c, &be_c) {
                    (Bound::Included(a), Bound::Included(b)) => a <= b,
                    (Bound::Included(a), Bound::Excluded(b))
                    | (Bound::Excluded(a), Bound::Included(b))
                    | (Bound::Excluded(a), Bound::Excluded(b)) => a < b,
                    _ => true,
                };
                let got: Vec<usize> = t.range(ts, te).into_iter().map(|(_, v)| *v).collect();
                if valid {
                    let want: Vec<usize> = reference.range((bs, be)).map(|(_, v)| *v).collect();
                    assert_eq!(got, want, "start {s:?} end {e:?} kinds {kinds}");
                } else {
                    assert!(got.is_empty(), "start {s:?} end {e:?} kinds {kinds}");
                }
            }
        }
    }
}

#[test]
fn tree_stats_spread_inner_nodes_over_widths() {
    let mut t = AdaptiveRadixTree::<ArrayKey<16>, u64>::new();
    for i in 0..20u64 {
        t.insert(i, i);
    }
    let s = t.get_tree_stats();
    let widths: Vec<usize> = s.node_stats.iter().map(|n| n.width).collect();
    assert_eq!(widths, vec![4, 16, 48, 256]);
    let counts: Vec<(usize, usize)> = s.node_stats.iter().map(|n| (n.total_nodes, n.total_children)).collect();
    assert_eq!(counts, vec![(0, 0), (0, 0), (1, 20), (0, 0)]);
    assert_eq!((s.num_values, s.num_leaves, s.num_inner_nodes, s.max_height), (20, 20, 1, 2));

    let mut t = AdaptiveRadixTree::<ArrayKey<16>, i32>::new();
    t.insert("a", 1);
    t.insert("b", 2);
    let s = t.get_tree_stats();
    let counts: Vec<(usize, usize)> = s.node_stats.iter().map(|n| (n.total_nodes, n.total_children)).collect();
    assert_eq!(counts, vec![(1, 2), (0, 0), (0, 0), (0, 0)]);

    let empty = AdaptiveRadixTree::<ArrayKey<16>, i32>::new().get_tree_stats();
    assert!(empty.node_stats.iter().all(|n| n.total_nodes == 0 && n.total_children == 0));
}
