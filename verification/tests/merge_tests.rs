use rart::keys::{ArrayKey, KeyTrait, VectorKey};
use rart::tree::AdaptiveRadixTree;

#[test]
fn test_merge_disjoint_keys() {
    let mut tree1 = AdaptiveRadixTree::<ArrayKey<16>, i32>::new();
    tree1.insert("apple", 1);
    tree1.insert("banana", 2);

    let mut tree2 = AdaptiveRadixTree::<ArrayKey<16>, i32>::new();
    tree2.insert("cherry", 3);
    tree2.insert("date", 4);

    let merged = tree1.merge(tree2);

    assert_eq!(merged.get("apple"), Some(&1));
    assert_eq!(merged.get("banana"), Some(&2));
    assert_eq!(merged.get("cherry"), Some(&3));
    assert_eq!(merged.get("date"), Some(&4));
    assert_eq!(merged.iter().len(), 4);
}

#[test]
fn test_merge_identical_keys() {
    let mut tree1 = AdaptiveRadixTree::<ArrayKey<16>, i32>::new();
    tree1.insert("apple", 1);
    tree1.insert("banana", 2);

    let mut tree2 = AdaptiveRadixTree::<ArrayKey<16>, i32>::new();
    tree2.insert("apple", 10);
    tree2.insert("banana", 20);

    let merged = tree1.merge(tree2);

    // Right wins: tree2's values should be used.
    assert_eq!(merged.get("apple"), Some(&10));
    assert_eq!(merged.get("banana"), Some(&20));
    assert_eq!(merged.iter().len(), 2);
}

#[test]
fn test_merge_partial_overlap() {
    let mut tree1 = AdaptiveRadixTree::<ArrayKey<16>, i32>::new();
    tree1.insert("apple", 1);
    tree1.insert("banana", 2);

    let mut tree2 = AdaptiveRadixTree::<ArrayKey<16>, i32>::new();
    tree2.insert("apple", 10); // Overwrites.
    tree2.insert("cherry", 3); // New key.

    let merged = tree1.merge(tree2);

    assert_eq!(merged.get("apple"), Some(&10)); // From tree2.
    assert_eq!(merged.get("banana"), Some(&2)); // From tree1.
    assert_eq!(merged.get("cherry"), Some(&3)); // From tree2.
    assert_eq!(merged.iter().len(), 3);
}

#[test]
fn test_merge_empty_into_nonempty() {
    let mut tree1 = AdaptiveRadixTree::<ArrayKey<16>, i32>::new();
    tree1.insert("apple", 1);
    tree1.insert("banana", 2);

    let tree2 = AdaptiveRadixTree::<ArrayKey<16>, i32>::new();

    let merged = tree1.merge(tree2);

    assert_eq!(merged.get("apple"), Some(&1));
    assert_eq!(merged.get("banana"), Some(&2));
    assert_eq!(merged.iter().len(), 2);
}

#[test]
fn test_merge_nonempty_into_empty() {
    let tree1 = AdaptiveRadixTree::<ArrayKey<16>, i32>::new();

    let mut tree2 = AdaptiveRadixTree::<ArrayKey<16>, i32>::new();
    tree2.insert("apple", 1);
    tree2.insert("banana", 2);

    let merged = tree1.merge(tree2);

    assert_eq!(merged.get("apple"), Some(&1));
    assert_eq!(merged.get("banana"), Some(&2));
    assert_eq!(merged.iter().len(), 2);
}

#[test]
fn test_merge_both_empty() {
    let tree1 = AdaptiveRadixTree::<ArrayKey<16>, i32>::new();
    let tree2 = AdaptiveRadixTree::<ArrayKey<16>, i32>::new();

    let merged = tree1.merge(tree2);

    assert!(merged.is_empty());
    assert_eq!(merged.iter().len(), 0);
}

#[test]
fn test_merge_single_key_each() {
    let mut tree1 = AdaptiveRadixTree::<ArrayKey<16>, i32>::new();
    tree1.insert("a", 1);

    let mut tree2 = AdaptiveRadixTree::<ArrayKey<16>, i32>::new();
    tree2.insert("b", 2);

    let merged = tree1.merge(tree2);

    assert_eq!(merged.get("a"), Some(&1));
    assert_eq!(merged.get("b"), Some(&2));
    assert_eq!(merged.iter().len(), 2);
}

#[test]
fn test_merge_prefix_keys() {
    // Keys like "app" and "apple" share a prefix but are different keys.
    let mut tree1 = AdaptiveRadixTree::<ArrayKey<16>, i32>::new();
    tree1.insert("app", 1);

    let mut tree2 = AdaptiveRadixTree::<ArrayKey<16>, i32>::new();
    tree2.insert("apple", 2);

    let merged = tree1.merge(tree2);

    assert_eq!(merged.get("app"), Some(&1));
    assert_eq!(merged.get("apple"), Some(&2));
    assert_eq!(merged.iter().len(), 2);
}

#[test]
fn test_merge_shared_prefix_different_values() {
    // Both trees have keys sharing the same prefix structure.
    let mut tree1 = AdaptiveRadixTree::<ArrayKey<16>, i32>::new();
    tree1.insert("apple", 1);
    tree1.insert("application", 2);

    let mut tree2 = AdaptiveRadixTree::<ArrayKey<16>, i32>::new();
    tree2.insert("apple", 10); // Overwrite.
    tree2.insert("apricot", 3); // New key with shared "ap" prefix.

    let merged = tree1.merge(tree2);

    assert_eq!(merged.get("apple"), Some(&10)); // tree2 wins.
    assert_eq!(merged.get("application"), Some(&2)); // From tree1.
    assert_eq!(merged.get("apricot"), Some(&3)); // From tree2.
    assert_eq!(merged.iter().len(), 3);
}

#[test]
fn test_merge_deep_prefix_overlap() {
    // Keys with very long shared prefixes.
    let mut tree1 = AdaptiveRadixTree::<ArrayKey<32>, i32>::new();
    tree1.insert("aaaaaaaaaaaaaaa1", 1);
    tree1.insert("aaaaaaaaaaaaaaa2", 2);

    let mut tree2 = AdaptiveRadixTree::<ArrayKey<32>, i32>::new();
    tree2.insert("aaaaaaaaaaaaaaa1", 10); // Overwrite.
    tree2.insert("aaaaaaaaaaaaaaa3", 3); // New key with same prefix.

    let merged = tree1.merge(tree2);

    assert_eq!(merged.get("aaaaaaaaaaaaaaa1"), Some(&10));
    assert_eq!(merged.get("aaaaaaaaaaaaaaa2"), Some(&2));
    assert_eq!(merged.get("aaaaaaaaaaaaaaa3"), Some(&3));
    assert_eq!(merged.iter().len(), 3);
}

#[test]
fn test_merge_vector_key_basic() {
    // Test with VectorKey to verify algorithm works with variable-length keys.
    let mut tree1 = AdaptiveRadixTree::<VectorKey, i32>::new();
    tree1.insert_k(&VectorKey::new_from_slice(b"alpha"), 1);
    tree1.insert_k(&VectorKey::new_from_slice(b"beta"), 2);

    let mut tree2 = AdaptiveRadixTree::<VectorKey, i32>::new();
    tree2.insert_k(&VectorKey::new_from_slice(b"alpha"), 10); // Overwrite.
    tree2.insert_k(&VectorKey::new_from_slice(b"gamma"), 3);

    let merged = tree1.merge(tree2);

    assert_eq!(
        merged.get_k(&VectorKey::new_from_slice(b"alpha")),
        Some(&10)
    );
    assert_eq!(merged.get_k(&VectorKey::new_from_slice(b"beta")), Some(&2));
    assert_eq!(merged.get_k(&VectorKey::new_from_slice(b"gamma")), Some(&3));
    assert_eq!(merged.iter().len(), 3);
}

#[test]
fn test_merge_forces_node_growth() {
    // Insert enough keys in both trees to force node growth after merge.
    let mut tree1 = AdaptiveRadixTree::<ArrayKey<16>, i32>::new();
    // Insert keys with different first bytes to force node growth.
    for i in 0u8..10 {
        let key = format!("{}key", i as char);
        tree1.insert(key.as_str(), i as i32);
    }

    let mut tree2 = AdaptiveRadixTree::<ArrayKey<16>, i32>::new();
    for i in 10u8..20 {
        let key = format!("{}key", i as char);
        tree2.insert(key.as_str(), i as i32);
    }

    let merged = tree1.merge(tree2);
    assert_eq!(merged.iter().len(), 20);

    // Verify all keys are accessible.
    for i in 0u8..20 {
        let key = format!("{}key", i as char);
        assert_eq!(merged.get(key.as_str()), Some(&(i as i32)));
    }
}

#[test]
fn test_merge_with_node4_and_node16() {
    // Create trees with different node densities.
    let mut tree1 = AdaptiveRadixTree::<ArrayKey<16>, i32>::new();
    tree1.insert("a", 1);
    tree1.insert("b", 2);
    tree1.insert("c", 3);

    let mut tree2 = AdaptiveRadixTree::<ArrayKey<16>, i32>::new();
    for c in 'd'..='p' {
        tree2.insert(c.to_string().as_str(), c as i32);
    }

    let merged = tree1.merge(tree2);
    assert_eq!(merged.iter().len(), 3 + 13); // a-c from tree1, d-p from tree2.
}

#[test]
fn test_merge_to_node256() {
    // Create trees that when merged require Node256 (256 children).
    let mut tree1 = AdaptiveRadixTree::<ArrayKey<16>, i32>::new();
    for i in 0u8..128 {
        let key = [i, 0];
        tree1.insert_k(&ArrayKey::<16>::new_from_slice(&key), i as i32);
    }

    let mut tree2 = AdaptiveRadixTree::<ArrayKey<16>, i32>::new();
    for i in 128u8..=255 {
        let key = [i, 0];
        tree2.insert_k(&ArrayKey::<16>::new_from_slice(&key), i as i32);
    }

    let merged = tree1.merge(tree2);
    assert_eq!(merged.iter().len(), 256);

    // Verify all keys.
    for i in 0u8..=255 {
        let key = [i, 0];
        assert_eq!(
            merged.get_k(&ArrayKey::<16>::new_from_slice(&key)),
            Some(&(i as i32))
        );
    }
}

#[test]
fn test_merge_iteration_order_is_lexicographic() {
    let mut tree1 = AdaptiveRadixTree::<ArrayKey<16>, i32>::new();
    tree1.insert("zebra", 1);
    tree1.insert("apple", 2);

    let mut tree2 = AdaptiveRadixTree::<ArrayKey<16>, i32>::new();
    tree2.insert("mango", 3);
    tree2.insert("banana", 4);

    let merged = tree1.merge(tree2);

    let keys: Vec<_> = merged.iter().into_iter().map(|(k, _)| k).collect();
    let mut sorted_keys = keys.clone();
    sorted_keys.sort();
    assert_eq!(keys, sorted_keys);
}

#[test]
fn test_merge_numeric_keys() {
    let mut tree1 = AdaptiveRadixTree::<ArrayKey<16>, i32>::new();
    tree1.insert(100u64, 1);
    tree1.insert(200u64, 2);

    let mut tree2 = AdaptiveRadixTree::<ArrayKey<16>, i32>::new();
    tree2.insert(100u64, 10); // Overwrite.
    tree2.insert(300u64, 3);

    let merged = tree1.merge(tree2);

    assert_eq!(merged.get(100u64), Some(&10));
    assert_eq!(merged.get(200u64), Some(&2));
    assert_eq!(merged.get(300u64), Some(&3));
}

#[test]
fn test_merge_divergent_prefixes_at_root() {
    // Two trees whose roots have completely different prefixes.
    let mut tree1 = AdaptiveRadixTree::<ArrayKey<16>, i32>::new();
    tree1.insert("aaaa", 1);

    let mut tree2 = AdaptiveRadixTree::<ArrayKey<16>, i32>::new();
    tree2.insert("zzzz", 2);

    let merged = tree1.merge(tree2);

    assert_eq!(merged.get("aaaa"), Some(&1));
    assert_eq!(merged.get("zzzz"), Some(&2));
    assert_eq!(merged.iter().len(), 2);
}

#[test]
fn test_merge_one_prefix_of_other_at_root() {
    // tree1 has a key that's a prefix of tree2's root path.
    let mut tree1 = AdaptiveRadixTree::<ArrayKey<16>, i32>::new();
    tree1.insert("abc", 1);
    tree1.insert("abcdef", 2);

    let mut tree2 = AdaptiveRadixTree::<ArrayKey<16>, i32>::new();
    tree2.insert("abcd", 3);

    let merged = tree1.merge(tree2);

    assert_eq!(merged.get("abc"), Some(&1));
    assert_eq!(merged.get("abcd"), Some(&3));
    assert_eq!(merged.get("abcdef"), Some(&2));
    assert_eq!(merged.iter().len(), 3);
}

#[test]
fn test_merge_all_empty() {
    let trees: Vec<AdaptiveRadixTree<ArrayKey<16>, i32>> = vec![];
    let merged = AdaptiveRadixTree::merge_all(trees);
    assert!(merged.is_empty());
    assert_eq!(merged.iter().len(), 0);
}

#[test]
fn test_merge_all_single() {
    let mut tree = AdaptiveRadixTree::<ArrayKey<16>, i32>::new();
    tree.insert("key", 1);
    tree.insert("other", 2);

    let merged = AdaptiveRadixTree::merge_all(vec![tree]);

    assert_eq!(merged.get("key"), Some(&1));
    assert_eq!(merged.get("other"), Some(&2));
    assert_eq!(merged.iter().len(), 2);
}

#[test]
fn test_merge_all_two_equals_pairwise() {
    // Property: merge_all([a, b]) == a.merge(b) for identical inputs.
    let mut a1 = AdaptiveRadixTree::<ArrayKey<16>, i32>::new();
    let mut b1 = AdaptiveRadixTree::<ArrayKey<16>, i32>::new();
    let mut a2 = AdaptiveRadixTree::<ArrayKey<16>, i32>::new();
    let mut b2 = AdaptiveRadixTree::<ArrayKey<16>, i32>::new();

    // Populate identical trees.
    for (i, key) in ["apple", "banana", "cherry", "date"].iter().enumerate() {
        a1.insert(*key, i as i32);
        a2.insert(*key, i as i32);
    }
    for (i, key) in ["apple", "elderberry", "fig"].iter().enumerate() {
        b1.insert(*key, i as i32 + 100);
        b2.insert(*key, i as i32 + 100);
    }

    let n_way = AdaptiveRadixTree::merge_all(vec![a1, b1]);
    let pairwise = a2.merge(b2);

    // Compare iteration results.
    let n_way_items: Vec<_> = n_way.iter().into_iter().map(|(k, v)| (k, *v)).collect();
    let pairwise_items: Vec<_> = pairwise.iter().into_iter().map(|(k, v)| (k, *v)).collect();

    assert_eq!(n_way_items, pairwise_items);
}

#[test]
fn test_merge_all_three_right_wins() {
    let mut t1 = AdaptiveRadixTree::<ArrayKey<16>, i32>::new();
    let mut t2 = AdaptiveRadixTree::<ArrayKey<16>, i32>::new();
    let mut t3 = AdaptiveRadixTree::<ArrayKey<16>, i32>::new();

    t1.insert("key", 1);
    t2.insert("key", 2);
    t3.insert("key", 3);

    let merged = AdaptiveRadixTree::merge_all(vec![t1, t2, t3]);

    // Last tree wins.
    assert_eq!(merged.get("key"), Some(&3));
    assert_eq!(merged.iter().len(), 1);
}

#[test]
fn test_merge_all_disjoint_prefixes() {
    // Trees with completely different prefixes should just combine.
    let mut t1 = AdaptiveRadixTree::<ArrayKey<16>, i32>::new();
    let mut t2 = AdaptiveRadixTree::<ArrayKey<16>, i32>::new();
    let mut t3 = AdaptiveRadixTree::<ArrayKey<16>, i32>::new();

    t1.insert("aaa", 1);
    t2.insert("bbb", 2);
    t3.insert("ccc", 3);

    let merged = AdaptiveRadixTree::merge_all(vec![t1, t2, t3]);

    assert_eq!(merged.get("aaa"), Some(&1));
    assert_eq!(merged.get("bbb"), Some(&2));
    assert_eq!(merged.get("ccc"), Some(&3));
    assert_eq!(merged.iter().len(), 3);
}

#[test]
fn test_merge_all_shared_prefix_different_children() {
    // All trees share "app" prefix but have different completions.
    let mut t1 = AdaptiveRadixTree::<ArrayKey<16>, i32>::new();
    let mut t2 = AdaptiveRadixTree::<ArrayKey<16>, i32>::new();
    let mut t3 = AdaptiveRadixTree::<ArrayKey<16>, i32>::new();

    t1.insert("apple", 1);
    t2.insert("application", 2);
    t3.insert("apricot", 3);

    let merged = AdaptiveRadixTree::merge_all(vec![t1, t2, t3]);

    assert_eq!(merged.get("apple"), Some(&1));
    assert_eq!(merged.get("application"), Some(&2));
    assert_eq!(merged.get("apricot"), Some(&3));
    assert_eq!(merged.iter().len(), 3);
}

#[test]
fn test_merge_all_deep_overlap_with_conflicts() {
    // Deep prefix overlap with conflicts at various levels.
    let mut t1 = AdaptiveRadixTree::<ArrayKey<32>, i32>::new();
    let mut t2 = AdaptiveRadixTree::<ArrayKey<32>, i32>::new();
    let mut t3 = AdaptiveRadixTree::<ArrayKey<32>, i32>::new();

    t1.insert("aaaaaaaaaaaa1", 1);
    t1.insert("aaaaaaaaaaaa2", 2);
    t2.insert("aaaaaaaaaaaa1", 10); // Conflict with t1.
    t2.insert("aaaaaaaaaaaa3", 3);
    t3.insert("aaaaaaaaaaaa2", 20); // Conflict with t1.
    t3.insert("aaaaaaaaaaaa4", 4);

    let merged = AdaptiveRadixTree::merge_all(vec![t1, t2, t3]);

    // t2 wins for "...1", t3 wins for "...2".
    assert_eq!(merged.get("aaaaaaaaaaaa1"), Some(&10));
    assert_eq!(merged.get("aaaaaaaaaaaa2"), Some(&20));
    assert_eq!(merged.get("aaaaaaaaaaaa3"), Some(&3));
    assert_eq!(merged.get("aaaaaaaaaaaa4"), Some(&4));
    assert_eq!(merged.iter().len(), 4);
}

#[test]
fn test_merge_all_with_empty_trees() {
    // Mix of empty and non-empty trees.
    let t1 = AdaptiveRadixTree::<ArrayKey<16>, i32>::new();
    let mut t2 = AdaptiveRadixTree::<ArrayKey<16>, i32>::new();
    let t3 = AdaptiveRadixTree::<ArrayKey<16>, i32>::new();
    let mut t4 = AdaptiveRadixTree::<ArrayKey<16>, i32>::new();

    t2.insert("key2", 2);
    t4.insert("key4", 4);

    let merged = AdaptiveRadixTree::merge_all(vec![t1, t2, t3, t4]);

    assert_eq!(merged.get("key2"), Some(&2));
    assert_eq!(merged.get("key4"), Some(&4));
    assert_eq!(merged.iter().len(), 2);
}

#[test]
fn test_merge_all_four_trees_right_wins_chain() {
    // Test that rightmost value wins through the entire chain.
    let mut t1 = AdaptiveRadixTree::<ArrayKey<16>, i32>::new();
    let mut t2 = AdaptiveRadixTree::<ArrayKey<16>, i32>::new();
    let mut t3 = AdaptiveRadixTree::<ArrayKey<16>, i32>::new();
    let mut t4 = AdaptiveRadixTree::<ArrayKey<16>, i32>::new();

    // All trees have same key with different values.
    t1.insert("shared", 1);
    t2.insert("shared", 2);
    t3.insert("shared", 3);
    t4.insert("shared", 4);

    // Each tree also has unique keys.
    t1.insert("unique1", 100);
    t2.insert("unique2", 200);
    t3.insert("unique3", 300);
    t4.insert("unique4", 400);

    let merged = AdaptiveRadixTree::merge_all(vec![t1, t2, t3, t4]);

    // t4 wins for "shared".
    assert_eq!(merged.get("shared"), Some(&4));
    // All unique keys are present.
    assert_eq!(merged.get("unique1"), Some(&100));
    assert_eq!(merged.get("unique2"), Some(&200));
    assert_eq!(merged.get("unique3"), Some(&300));
    assert_eq!(merged.get("unique4"), Some(&400));
    assert_eq!(merged.iter().len(), 5);
}

#[test]
fn test_merge_all_iteration_order_is_lexicographic() {
    let mut t1 = AdaptiveRadixTree::<ArrayKey<16>, i32>::new();
    let mut t2 = AdaptiveRadixTree::<ArrayKey<16>, i32>::new();
    let mut t3 = AdaptiveRadixTree::<ArrayKey<16>, i32>::new();

    t1.insert("zebra", 1);
    t2.insert("apple", 2);
    t3.insert("mango", 3);

    let merged = AdaptiveRadixTree::merge_all(vec![t1, t2, t3]);

    let keys: Vec<_> = merged.iter().into_iter().map(|(k, _)| k).collect();
    let mut sorted_keys = keys.clone();
    sorted_keys.sort();
    assert_eq!(keys, sorted_keys);
}

#[test]
fn test_merge_all_numeric_keys() {
    let mut t1 = AdaptiveRadixTree::<ArrayKey<16>, i32>::new();
    let mut t2 = AdaptiveRadixTree::<ArrayKey<16>, i32>::new();
    let mut t3 = AdaptiveRadixTree::<ArrayKey<16>, i32>::new();

    t1.insert(100u64, 1);
    t1.insert(200u64, 2);
    t2.insert(100u64, 10); // Overwrite.
    t2.insert(300u64, 3);
    t3.insert(200u64, 20); // Overwrite.
    t3.insert(400u64, 4);

    let merged = AdaptiveRadixTree::merge_all(vec![t1, t2, t3]);

    assert_eq!(merged.get(100u64), Some(&10)); // t2 wins.
    assert_eq!(merged.get(200u64), Some(&20)); // t3 wins.
    assert_eq!(merged.get(300u64), Some(&3));
    assert_eq!(merged.get(400u64), Some(&4));
    assert_eq!(merged.iter().len(), 4);
}

#[test]
fn test_merge_all_vector_key() {
    // Test with VectorKey to verify algorithm works with variable-length keys.
    let mut t1 = AdaptiveRadixTree::<VectorKey, i32>::new();
    let mut t2 = AdaptiveRadixTree::<VectorKey, i32>::new();
    let mut t3 = AdaptiveRadixTree::<VectorKey, i32>::new();

    t1.insert_k(&VectorKey::new_from_slice(b"alpha"), 1);
    t2.insert_k(&VectorKey::new_from_slice(b"alpha"), 10); // Overwrite.
    t2.insert_k(&VectorKey::new_from_slice(b"beta"), 2);
    t3.insert_k(&VectorKey::new_from_slice(b"gamma"), 3);

    let merged = AdaptiveRadixTree::merge_all(vec![t1, t2, t3]);

    assert_eq!(
        merged.get_k(&VectorKey::new_from_slice(b"alpha")),
        Some(&10)
    );
    assert_eq!(merged.get_k(&VectorKey::new_from_slice(b"beta")), Some(&2));
    assert_eq!(merged.get_k(&VectorKey::new_from_slice(b"gamma")), Some(&3));
    assert_eq!(merged.iter().len(), 3);
}

#[test]
fn test_merge_all_extension_vs_exact_match_conflict() {
    // Regression test: when an extension child conflicts with an exact-match
    // child at the same byte, we must preserve the correct tree indices for
    // right-wins semantics.
    //
    // Tree 0: inner at prefix "a" with child 'b' -> leaf "c" (key "abc")
    // Tree 1: leaf at prefix "ab" (key "ab")
    //
    // After merge: both keys should exist, with Tree 1's "ab" taking precedence
    // if there were a conflict (but here they are distinct keys).
    let mut t0 = AdaptiveRadixTree::<ArrayKey<16>, i32>::new();
    let mut t1 = AdaptiveRadixTree::<ArrayKey<16>, i32>::new();

    t0.insert("abc", 0);
    t1.insert("ab", 1);

    let merged = AdaptiveRadixTree::merge_all(vec![t0, t1]);

    // Both keys should exist after merge.
    assert_eq!(merged.get("abc"), Some(&0));
    assert_eq!(merged.get("ab"), Some(&1));
    assert_eq!(merged.iter().len(), 2);

    // Also test with the trees in opposite order to verify right-wins.
    let mut t0 = AdaptiveRadixTree::<ArrayKey<16>, i32>::new();
    let mut t1 = AdaptiveRadixTree::<ArrayKey<16>, i32>::new();

    t0.insert("ab", 0);
    t1.insert("abc", 1);

    let merged = AdaptiveRadixTree::merge_all(vec![t0, t1]);

    assert_eq!(merged.get("ab"), Some(&0));
    assert_eq!(merged.get("abc"), Some(&1));
    assert_eq!(merged.iter().len(), 2);
}

#[test]
fn test_merge_all_extension_vs_exact_match_same_key() {
    // Test conflict resolution when extension and exact-match have children leading
    // to the same key. Since merge order is non-deterministic, we verify that
    // one of the input values is chosen.
    //
    // Tree 0: inner at "a" with child 'b' -> inner with child 'c' -> leaf (key "abc")
    // Tree 1: leaf at "abc"
    let mut t0 = AdaptiveRadixTree::<ArrayKey<16>, i32>::new();
    let mut t1 = AdaptiveRadixTree::<ArrayKey<16>, i32>::new();

    t0.insert("abc", 0);
    t1.insert("abc", 1);

    let merged = AdaptiveRadixTree::merge_all(vec![t0, t1]);

    // One of the values wins (order not guaranteed).
    let val = merged.get("abc").unwrap();
    assert!(*val == 0 || *val == 1);
    assert_eq!(merged.iter().len(), 1);

    // Three-way test with conflict at extension/exact boundary.
    let mut t0 = AdaptiveRadixTree::<ArrayKey<16>, i32>::new();
    let mut t1 = AdaptiveRadixTree::<ArrayKey<16>, i32>::new();
    let mut t2 = AdaptiveRadixTree::<ArrayKey<16>, i32>::new();

    t0.insert("abc", 0);
    t0.insert("abd", 10);
    t1.insert("ab", 1); // Exact match at "ab", extension from t0 at "ab" + 'c'/'d'.
    t2.insert("abc", 2); // Conflicts with t0's "abc".

    let merged = AdaptiveRadixTree::merge_all(vec![t0, t1, t2]);

    assert_eq!(merged.get("ab"), Some(&1)); // Only t1 has "ab".
    let abc_val = merged.get("abc").unwrap();
    assert!(*abc_val == 0 || *abc_val == 2); // Either t0 or t2 wins.
    assert_eq!(merged.get("abd"), Some(&10)); // Only t0 has "abd".
    assert_eq!(merged.iter().len(), 3);
}

#[test]
fn test_merge_with_sum_values() {
    let mut tree1 = AdaptiveRadixTree::<ArrayKey<16>, i32>::new();
    tree1.insert("apple", 1);
    tree1.insert("banana", 2);

    let mut tree2 = AdaptiveRadixTree::<ArrayKey<16>, i32>::new();
    tree2.insert("apple", 10);
    tree2.insert("cherry", 3);

    let merged = tree1.merge_with(tree2, |left, right| left + right);

    assert_eq!(merged.get("apple"), Some(&11)); // 1 + 10
    assert_eq!(merged.get("banana"), Some(&2)); // From tree1
    assert_eq!(merged.get("cherry"), Some(&3)); // From tree2
    assert_eq!(merged.iter().len(), 3);
}

#[test]
fn test_merge_with_max_values() {
    let mut tree1 = AdaptiveRadixTree::<ArrayKey<16>, i32>::new();
    tree1.insert("apple", 100);
    tree1.insert("banana", 2);

    let mut tree2 = AdaptiveRadixTree::<ArrayKey<16>, i32>::new();
    tree2.insert("apple", 10);
    tree2.insert("banana", 200);

    let merged = tree1.merge_with(tree2, |left, right| std::cmp::max(left, right));

    assert_eq!(merged.get("apple"), Some(&100)); // max(100, 10)
    assert_eq!(merged.get("banana"), Some(&200)); // max(2, 200)
}

#[test]
fn test_merge_with_left_wins() {
    let mut tree1 = AdaptiveRadixTree::<ArrayKey<16>, i32>::new();
    tree1.insert("apple", 1);
    tree1.insert("banana", 2);

    let mut tree2 = AdaptiveRadixTree::<ArrayKey<16>, i32>::new();
    tree2.insert("apple", 10);
    tree2.insert("banana", 20);

    // left-wins: opposite of default behavior.
    let merged = tree1.merge_with(tree2, |left, _right| left);

    assert_eq!(merged.get("apple"), Some(&1)); // tree1's value
    assert_eq!(merged.get("banana"), Some(&2)); // tree1's value
}

#[test]
fn test_merge_with_no_conflicts() {
    let mut tree1 = AdaptiveRadixTree::<ArrayKey<16>, i32>::new();
    tree1.insert("apple", 1);

    let mut tree2 = AdaptiveRadixTree::<ArrayKey<16>, i32>::new();
    tree2.insert("banana", 2);

    let mut call_count = 0;
    let merged = tree1.merge_with(tree2, |left, right| {
        call_count += 1;
        left + right
    });

    // Resolver should never be called for disjoint keys.
    assert_eq!(call_count, 0);
    assert_eq!(merged.get("apple"), Some(&1));
    assert_eq!(merged.get("banana"), Some(&2));
}

#[test]
fn test_merge_with_all_conflicts() {
    let mut tree1 = AdaptiveRadixTree::<ArrayKey<16>, i32>::new();
    tree1.insert("a", 1);
    tree1.insert("b", 2);
    tree1.insert("c", 3);

    let mut tree2 = AdaptiveRadixTree::<ArrayKey<16>, i32>::new();
    tree2.insert("a", 10);
    tree2.insert("b", 20);
    tree2.insert("c", 30);

    let mut call_count = 0;
    let merged = tree1.merge_with(tree2, |left, right| {
        call_count += 1;
        left + right
    });

    assert_eq!(call_count, 3); // All three keys had conflicts.
    assert_eq!(merged.get("a"), Some(&11));
    assert_eq!(merged.get("b"), Some(&22));
    assert_eq!(merged.get("c"), Some(&33));
}

#[test]
fn test_merge_with_empty_trees() {
    let tree1 = AdaptiveRadixTree::<ArrayKey<16>, i32>::new();
    let tree2 = AdaptiveRadixTree::<ArrayKey<16>, i32>::new();

    let merged = tree1.merge_with(tree2, |left, right| left + right);
    assert!(merged.is_empty());

    let mut tree1 = AdaptiveRadixTree::<ArrayKey<16>, i32>::new();
    tree1.insert("apple", 1);
    let tree2 = AdaptiveRadixTree::<ArrayKey<16>, i32>::new();

    let merged = tree1.merge_with(tree2, |left, right| left + right);
    assert_eq!(merged.get("apple"), Some(&1));
}

#[test]
fn test_merge_with_stateful_resolver() {
    let mut tree1 = AdaptiveRadixTree::<ArrayKey<16>, i32>::new();
    tree1.insert("a", 1);
    tree1.insert("b", 2);

    let mut tree2 = AdaptiveRadixTree::<ArrayKey<16>, i32>::new();
    tree2.insert("a", 10);
    tree2.insert("b", 20);
    tree2.insert("c", 30);

    // Stateful resolver that counts conflicts.
    let mut conflict_count = 0;
    let merged = tree1.merge_with(tree2, |left, right| {
        conflict_count += 1;
        left + right
    });

    assert_eq!(conflict_count, 2); // "a" and "b" had conflicts
    assert_eq!(merged.get("a"), Some(&11));
    assert_eq!(merged.get("b"), Some(&22));
    assert_eq!(merged.get("c"), Some(&30));
}

#[test]
fn test_merge_with_deep_prefix_conflicts() {
    let mut tree1 = AdaptiveRadixTree::<ArrayKey<32>, i32>::new();
    tree1.insert("aaaaaaaaaaaaaaa1", 1);
    tree1.insert("aaaaaaaaaaaaaaa2", 2);

    let mut tree2 = AdaptiveRadixTree::<ArrayKey<32>, i32>::new();
    tree2.insert("aaaaaaaaaaaaaaa1", 10);
    tree2.insert("aaaaaaaaaaaaaaa3", 3);

    let merged = tree1.merge_with(tree2, |left, right| left + right);

    assert_eq!(merged.get("aaaaaaaaaaaaaaa1"), Some(&11)); // 1 + 10
    assert_eq!(merged.get("aaaaaaaaaaaaaaa2"), Some(&2));
    assert_eq!(merged.get("aaaaaaaaaaaaaaa3"), Some(&3));
}

#[test]
fn test_merge_all_with_sum_values() {
    let mut t1 = AdaptiveRadixTree::<ArrayKey<16>, i32>::new();
    let mut t2 = AdaptiveRadixTree::<ArrayKey<16>, i32>::new();
    let mut t3 = AdaptiveRadixTree::<ArrayKey<16>, i32>::new();

    t1.insert("key", 1);
    t2.insert("key", 2);
    t3.insert("key", 4);

    let merged = AdaptiveRadixTree::merge_all_with(vec![t1, t2, t3], |acc, v| acc + v);

    assert_eq!(merged.get("key"), Some(&7)); // 1 + 2 + 4
}

#[test]
fn test_merge_all_with_commutative_resolver() {
    // With unordered fold, use a commutative resolver (sum).
    let mut t1 = AdaptiveRadixTree::<ArrayKey<16>, i32>::new();
    let mut t2 = AdaptiveRadixTree::<ArrayKey<16>, i32>::new();
    let mut t3 = AdaptiveRadixTree::<ArrayKey<16>, i32>::new();

    t1.insert("key", 1);
    t2.insert("key", 2);
    t3.insert("key", 3);

    let merged = AdaptiveRadixTree::merge_all_with(vec![t1, t2, t3], |acc, v| acc + v);

    // Sum is commutative, so order doesn't matter.
    assert_eq!(merged.get("key"), Some(&6));
}

#[test]
fn test_merge_all_with_empty_trees_in_middle() {
    let t1 = AdaptiveRadixTree::<ArrayKey<16>, i32>::new();
    let mut t2 = AdaptiveRadixTree::<ArrayKey<16>, i32>::new();
    let t3 = AdaptiveRadixTree::<ArrayKey<16>, i32>::new();

    t2.insert("key", 5);

    let merged = AdaptiveRadixTree::merge_all_with(vec![t1, t2, t3], |acc, v| acc + v);

    assert_eq!(merged.get("key"), Some(&5));
}

#[test]
fn test_merge_all_with_single_tree() {
    let mut tree = AdaptiveRadixTree::<ArrayKey<16>, i32>::new();
    tree.insert("key", 42);

    let mut call_count = 0;
    let merged = AdaptiveRadixTree::merge_all_with(vec![tree], |acc, v| {
        call_count += 1;
        acc + v
    });

    assert_eq!(call_count, 0); // No conflicts with single tree.
    assert_eq!(merged.get("key"), Some(&42));
}

#[test]
fn test_merge_all_with_two_trees() {
    // N=2 should use 2-way fast path.
    let mut t1 = AdaptiveRadixTree::<ArrayKey<16>, i32>::new();
    let mut t2 = AdaptiveRadixTree::<ArrayKey<16>, i32>::new();

    t1.insert("key", 1);
    t2.insert("key", 2);

    let merged = AdaptiveRadixTree::merge_all_with(vec![t1, t2], |acc, v| acc * v);

    assert_eq!(merged.get("key"), Some(&2)); // 1 * 2
}

#[test]
fn test_merge_all_with_deep_conflicts() {
    let mut t1 = AdaptiveRadixTree::<ArrayKey<32>, i32>::new();
    let mut t2 = AdaptiveRadixTree::<ArrayKey<32>, i32>::new();
    let mut t3 = AdaptiveRadixTree::<ArrayKey<32>, i32>::new();

    t1.insert("verylongsharedprefix/a", 1);
    t2.insert("verylongsharedprefix/a", 10);
    t2.insert("verylongsharedprefix/b", 20);
    t3.insert("verylongsharedprefix/a", 100);

    let merged = AdaptiveRadixTree::merge_all_with(vec![t1, t2, t3], |acc, v| acc + v);

    assert_eq!(merged.get("verylongsharedprefix/a"), Some(&111)); // 1 + 10 + 100
    assert_eq!(merged.get("verylongsharedprefix/b"), Some(&20));
}

#[test]
fn test_merge_all_with_stateful_resolver() {
    let mut t1 = AdaptiveRadixTree::<ArrayKey<16>, i32>::new();
    let mut t2 = AdaptiveRadixTree::<ArrayKey<16>, i32>::new();
    let mut t3 = AdaptiveRadixTree::<ArrayKey<16>, i32>::new();

    t1.insert("a", 1);
    t1.insert("b", 2);
    t2.insert("a", 10);
    t2.insert("c", 30);
    t3.insert("a", 100);
    t3.insert("b", 200);

    let mut conflict_count = 0;
    let merged = AdaptiveRadixTree::merge_all_with(vec![t1, t2, t3], |acc, v| {
        conflict_count += 1;
        acc + v
    });

    // "a" has 3 values -> 2 resolver calls, "b" has 2 values -> 1 resolver call
    assert_eq!(conflict_count, 3);
    assert_eq!(merged.get("a"), Some(&111)); // 1 + 10 + 100
    assert_eq!(merged.get("b"), Some(&202)); // 2 + 200
    assert_eq!(merged.get("c"), Some(&30));
}
