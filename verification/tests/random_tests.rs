use std::collections::{BTreeMap, BTreeSet};
use std::fmt::Debug;

use rand::rngs::StdRng;
use rand::seq::SliceRandom;
use rand::{rng, Rng, SeedableRng};

use rart::keys::ArrayKey;
use rart::tree::{AdaptiveRadixTree, KeyBound};

fn gen_random_string_keys<const S: usize>(
    l1_prefix: usize,
    l2_prefix: usize,
    suffix: usize,
) -> Vec<(ArrayKey<S>, String)> {
    let mut keys = Vec::new();
    let chars: Vec<char> = ('a'..='z').collect();
    for i in 0..chars.len() {
        let level1_prefix = chars[i].to_string().repeat(l1_prefix);
        for i in 0..chars.len() {
            let level2_prefix = chars[i].to_string().repeat(l2_prefix);
            let key_prefix = level1_prefix.clone() + &level2_prefix;
            for _ in 0..=u8::MAX {
                let suffix: String = (0..suffix)
                    .map(|_| chars[rng().random_range(0..chars.len())])
                    .collect();
                let string = key_prefix.clone() + &suffix;
                let k = string.as_str().into();
                keys.push((k, string));
            }
        }
    }

    keys.shuffle(&mut rng());
    keys
}

#[test]
fn test_bulk_random_string_query() {
    let mut tree = AdaptiveRadixTree::<ArrayKey<16>, String>::new();
    let keys = gen_random_string_keys(3, 2, 3);
    let mut num_inserted = 0;
    for key in keys.iter() {
        if tree.insert_k(&key.0, key.1.clone()).is_none() {
            num_inserted += 1;
            assert!(tree.get_k(&key.0).is_some());
        }
    }
    let mut rng = rng();
    for _i in 0..5_000_000 {
        let entry = &keys[rng.random_range(0..keys.len())];
        let val = tree.get_k(&entry.0);
        assert!(val.is_some());
        assert_eq!(*val.unwrap(), entry.1);
    }

    let stats = tree.get_tree_stats();
    assert_eq!(stats.num_values, num_inserted);
}

#[test]
fn random_numeric_keys_read_back_what_was_written() {
    let mut tree = AdaptiveRadixTree::<ArrayKey<16>, u64>::new();
    let count = 300_000;
    let mut rng = rng();
    let mut keys_inserted = vec![];
    for i in 0..count {
        let value = i;
        let rnd_key = rng.random_range(0..count);
        if tree.get(rnd_key).is_none() && tree.insert(rnd_key, value).is_none() {
            let result = tree.get(rnd_key);
            assert!(result.is_some());
            assert_eq!(*result.unwrap(), value);
            keys_inserted.push((rnd_key, value));
        }
    }

    let stats = tree.get_tree_stats();
    assert_eq!(stats.num_values, keys_inserted.len());

    for (key, value) in &keys_inserted {
        let result = tree.get(*key);
        assert!(result.is_some());
        assert_eq!(*result.unwrap(), *value);
    }
}

#[test]
fn test_iter() {
    let mut tree = AdaptiveRadixTree::<ArrayKey<16>, u64>::new();
    let count = 100000;
    let mut rng = rng();
    let mut keys_inserted = BTreeSet::new();
    for i in 0..count {
        let _value = i;
        let rnd_val = rng.random_range(0..count);
        let rnd_key: ArrayKey<16> = rnd_val.into();
        if tree.get_k(&rnd_key).is_none() && tree.insert_k(&rnd_key, rnd_val).is_none() {
            let result = tree.get_k(&rnd_key);
            assert!(result.is_some());
            assert_eq!(*result.unwrap(), rnd_val);
            keys_inserted.insert((rnd_val, rnd_val));
        }
    }

    let mut tree_iter = tree.iter().into_iter();
    let keys_inserted_iter = keys_inserted.iter();
    for btree_entry in keys_inserted_iter {
        let art_entry = tree_iter.next();
        assert!(art_entry.is_some());
        let art_entry = art_entry.unwrap();
        assert_eq!(*art_entry.1, btree_entry.1);
        let art_key = art_entry.0.to_be_u64();
        assert_eq!(art_key, btree_entry.0);
    }
}

#[test]
fn test_delete() {
    let mut tree = AdaptiveRadixTree::<ArrayKey<16>, u64>::new();
    let mut btree = BTreeMap::new();
    let count = 5_000;
    let mut rng = rng();
    for i in 0..count {
        let _value = i;
        let rnd_val = rng.random_range(0..u64::MAX);
        let rnd_key: ArrayKey<16> = rnd_val.into();
        tree.insert_k(&rnd_key, rnd_val);
        btree.insert(rnd_val, rnd_val);
    }

    for (key, value) in btree.iter() {
        let key: ArrayKey<16> = (*key).into();
        let get_result = tree.get_k(&key);
        assert_eq!(
            get_result.cloned(),
            Some(*value),
            "Key {:?} not found in tree; it should be",
            key
        );
        let result = tree.remove_k(&key);
        assert_eq!(result, Some(*value));
    }
}

// Compare the results of a range query on the tree and on a BTreeMap.
fn test_range_matches<V: PartialEq + Debug>(art_range: Vec<(ArrayKey<16>, &V)>, btree_values: Vec<&V>) {
    let art_values = art_range.into_iter().map(|(_, v)| v).collect::<Vec<_>>();
    assert_eq!(art_values.len(), btree_values.len());
    assert_eq!(art_values, btree_values);
}

#[test]
fn test_range() {
    let mut tree = AdaptiveRadixTree::<ArrayKey<16>, u64>::new();
    let count = 10000;
    let mut rng = rng();
    let mut keys_inserted = BTreeMap::new();
    for i in 0..count {
        let _value = i;
        let rnd_val = rng.random_range(0..count);
        let rnd_key: ArrayKey<16> = rnd_val.into();
        if tree.get_k(&rnd_key).is_none() && tree.insert_k(&rnd_key, rnd_val).is_none() {
            let result = tree.get_k(&rnd_key);
            assert!(result.is_some());
            assert_eq!(*result.unwrap(), rnd_val);
            keys_inserted.insert(rnd_val, rnd_val);
        }
    }

    let end_key: ArrayKey<16> = 100u64.into();
    let t_r = tree.range(KeyBound::Unbounded, KeyBound::Excluded(end_key.clone()));
    let k_r = keys_inserted.range(..100).map(|(_, v)| v).collect();
    test_range_matches(t_r, k_r);

    let t_r = tree.range(KeyBound::Unbounded, KeyBound::Included(end_key));
    let k_r = keys_inserted.range(..=100).map(|(_, v)| v).collect();
    test_range_matches(t_r, k_r);

    let start_key: ArrayKey<16> = 100u64.into();
    let t_r = tree.range(KeyBound::Included(start_key.clone()), KeyBound::Unbounded);
    let k_r = keys_inserted.range(100..).map(|(_, v)| v).collect();
    test_range_matches(t_r, k_r);

    let end_key: ArrayKey<16> = 1000u64.into();
    let t_r = tree.range(KeyBound::Included(start_key.clone()), KeyBound::Excluded(end_key.clone()));
    let k_r = keys_inserted.range(100..1000).map(|(_, v)| v).collect();
    test_range_matches(t_r, k_r);

    let t_r = tree.range(KeyBound::Included(start_key), KeyBound::Included(end_key));
    let k_r = keys_inserted.range(100..=1000).map(|(_, v)| v).collect();
    test_range_matches(t_r, k_r);
}

#[test]
fn test_range_start_sequence_matches_btreemap_seeded() {
    let mut tree = AdaptiveRadixTree::<ArrayKey<16>, u64>::new();
    let mut btree = BTreeMap::new();
    let mut rng = StdRng::seed_from_u64(0x5eed_5eed_dead_beef);
    const COUNT: usize = 20_000;
    const SPACE: u64 = 80_000;

    for _ in 0..COUNT {
        let k = rng.random_range(0..SPACE);
        tree.insert_k(&ArrayKey::<16>::from(k), k * 3 + 7);
        btree.insert(k, k * 3 + 7);
    }

    let start_raw = rng.random_range(0..SPACE);
    let start_key: ArrayKey<16> = start_raw.into();

    let art_values: Vec<u64> = tree
        .range(KeyBound::Included(start_key), KeyBound::Unbounded)
        .into_iter()
        .map(|(_, v)| *v)
        .collect();
    let btree_values: Vec<u64> = btree.range(start_raw..).map(|(_, v)| *v).collect();

    assert_eq!(art_values, btree_values);
}

#[test]
fn test_merge_seeded_random() {
    let mut rng = StdRng::seed_from_u64(0xDEADBEEF);
    const COUNT: usize = 1000;
    const SPACE: u64 = 5000;

    let mut tree1 = AdaptiveRadixTree::<ArrayKey<16>, u64>::new();
    let mut map1 = BTreeMap::new();
    for _ in 0..COUNT {
        let k = rng.random_range(0..SPACE);
        let v = rng.random_range(0..u64::MAX);
        tree1.insert(k, v);
        map1.insert(k, v);
    }

    let mut tree2 = AdaptiveRadixTree::<ArrayKey<16>, u64>::new();
    let mut map2 = BTreeMap::new();
    for _ in 0..COUNT {
        let k = rng.random_range(0..SPACE);
        let v = rng.random_range(0..u64::MAX);
        tree2.insert(k, v);
        map2.insert(k, v);
    }

    let mut expected = map1.clone();
    for (k, v) in &map2 {
        expected.insert(*k, *v);
    }

    let merged = tree1.merge(tree2);

    for (k, v) in &expected {
        assert_eq!(merged.get(*k), Some(v), "Key {} mismatch", k);
    }

    assert_eq!(merged.iter().len(), expected.len());

    let merged_iter: Vec<_> = merged.iter().into_iter().map(|(k, v)| (k.to_be_u64(), *v)).collect();
    let expected_iter: Vec<_> = expected.iter().map(|(k, v)| (*k, *v)).collect();
    assert_eq!(merged_iter, expected_iter);
}

#[test]
fn test_merge_all_seeded_random() {
    let mut rng = StdRng::seed_from_u64(0xCAFEBABE);
    const COUNT: usize = 200;
    const SPACE: u64 = 1000;
    const NUM_TREES: usize = 5;

    let mut trees = Vec::new();
    let mut maps = Vec::new();

    for _ in 0..NUM_TREES {
        let mut tree = AdaptiveRadixTree::<ArrayKey<16>, u64>::new();
        let mut map = BTreeMap::new();
        for _ in 0..COUNT {
            let k = rng.random_range(0..SPACE);
            let v = rng.random_range(0..u64::MAX);
            tree.insert(k, v);
            map.insert(k, v);
        }
        trees.push(tree);
        maps.push(map);
    }

    let mut expected = BTreeMap::new();
    for map in &maps {
        for (k, v) in map {
            expected.insert(*k, *v);
        }
    }

    let merged = AdaptiveRadixTree::merge_all(trees);

    for (k, v) in &expected {
        assert_eq!(merged.get(*k), Some(v), "Key {} mismatch", k);
    }

    assert_eq!(merged.iter().len(), expected.len());

    let merged_iter: Vec<_> = merged.iter().into_iter().map(|(k, v)| (k.to_be_u64(), *v)).collect();
    let expected_iter: Vec<_> = expected.iter().map(|(k, v)| (*k, *v)).collect();
    assert_eq!(merged_iter, expected_iter);
}

#[test]
fn test_merge_all_versus_fold() {
    let mut rng = StdRng::seed_from_u64(0xDEADC0DE);
    const COUNT: usize = 100;
    const SPACE: u64 = 500;
    const NUM_TREES: usize = 4;

    let mut trees_for_merge_all = Vec::new();
    let mut trees_for_fold = Vec::new();

    for _ in 0..NUM_TREES {
        let mut tree1 = AdaptiveRadixTree::<ArrayKey<16>, u64>::new();
        let mut tree2 = AdaptiveRadixTree::<ArrayKey<16>, u64>::new();
        for _ in 0..COUNT {
            let k = rng.random_range(0..SPACE);
            let v = rng.random_range(0..u64::MAX);
            tree1.insert(k, v);
            tree2.insert(k, v);
        }
        trees_for_merge_all.push(tree1);
        trees_for_fold.push(tree2);
    }

    let merged_n_way = AdaptiveRadixTree::merge_all(trees_for_merge_all);

    let merged_fold = trees_for_fold.into_iter().reduce(|a, b| a.merge(b)).unwrap();

    let n_way_items: Vec<_> = merged_n_way.iter().into_iter().map(|(k, v)| (k.to_be_u64(), *v)).collect();
    let fold_items: Vec<_> = merged_fold.iter().into_iter().map(|(k, v)| (k.to_be_u64(), *v)).collect();

    assert_eq!(n_way_items, fold_items);
}

#[test]
fn test_merge_with_equals_merge_when_right_wins() {
    let mut rng = StdRng::seed_from_u64(0xCAFEBABE);
    const COUNT: usize = 500;
    const SPACE: u64 = 1000;

    let mut tree1 = AdaptiveRadixTree::<ArrayKey<16>, u64>::new();
    let mut tree2 = AdaptiveRadixTree::<ArrayKey<16>, u64>::new();
    let mut tree1_clone = AdaptiveRadixTree::<ArrayKey<16>, u64>::new();
    let mut tree2_clone = AdaptiveRadixTree::<ArrayKey<16>, u64>::new();

    for _ in 0..COUNT {
        let k = rng.random_range(0..SPACE);
        let v = rng.random_range(0..u64::MAX);
        tree1.insert(k, v);
        tree1_clone.insert(k, v);
    }
    for _ in 0..COUNT {
        let k = rng.random_range(0..SPACE);
        let v = rng.random_range(0..u64::MAX);
        tree2.insert(k, v);
        tree2_clone.insert(k, v);
    }

    let merged_with = tree1.merge_with(tree2, |_left, right| right);
    let merged = tree1_clone.merge(tree2_clone);

    let with_items: Vec<_> = merged_with.iter().into_iter().map(|(k, v)| (k, *v)).collect();
    let orig_items: Vec<_> = merged.iter().into_iter().map(|(k, v)| (k, *v)).collect();

    assert_eq!(with_items, orig_items);
}

#[test]
fn test_merge_all_with_equals_merge_all_when_right_wins() {
    let mut rng = StdRng::seed_from_u64(0xDEADBEEF);
    const TREE_COUNT: usize = 4;
    const KEYS_PER_TREE: usize = 200;
    const SPACE: u64 = 500;

    let mut trees_with: Vec<AdaptiveRadixTree<ArrayKey<16>, u64>> = Vec::new();
    let mut trees_orig: Vec<AdaptiveRadixTree<ArrayKey<16>, u64>> = Vec::new();

    for _ in 0..TREE_COUNT {
        let mut tree_with = AdaptiveRadixTree::new();
        let mut tree_orig = AdaptiveRadixTree::new();
        for _ in 0..KEYS_PER_TREE {
            let k = rng.random_range(0..SPACE);
            let v = rng.random_range(0..u64::MAX);
            tree_with.insert(k, v);
            tree_orig.insert(k, v);
        }
        trees_with.push(tree_with);
        trees_orig.push(tree_orig);
    }

    let merged_with = AdaptiveRadixTree::merge_all_with(trees_with, |_left, right| right);
    let merged_orig = AdaptiveRadixTree::merge_all(trees_orig);

    let with_items: Vec<_> = merged_with.iter().into_iter().map(|(k, v)| (k, *v)).collect();
    let orig_items: Vec<_> = merged_orig.iter().into_iter().map(|(k, v)| (k, *v)).collect();

    assert_eq!(with_items, orig_items);
}
