use rart::loser_tree::{Entry, LoserTree};

#[test]
fn test_single_element() {
    let entries = vec![Entry::new(Some(42), 0)];
    let mut tree = LoserTree::new(entries);

    assert_eq!(tree.peek_min().unwrap().value, Some(42));
    assert_eq!(tree.winner_idx(), 0);

    tree.replace_winner(Some(100));
    assert_eq!(tree.peek_min().unwrap().value, Some(100));

    tree.replace_winner(None);
    assert!(tree.peek_min().is_none());
}

#[test]
fn test_two_elements() {
    let entries = vec![Entry::new(Some(5), 0), Entry::new(Some(3), 1)];
    let mut tree = LoserTree::new(entries);

    // 3 < 5, so participant 1 wins.
    assert_eq!(tree.peek_min().unwrap().value, Some(3));
    assert_eq!(tree.winner_idx(), 1);

    // Replace with 7.
    tree.replace_winner(Some(7));

    // Now 5 < 7, participant 0 wins.
    assert_eq!(tree.peek_min().unwrap().value, Some(5));
    assert_eq!(tree.winner_idx(), 0);
}

#[test]
fn test_four_elements() {
    let entries = vec![
        Entry::new(Some(4), 0),
        Entry::new(Some(2), 1),
        Entry::new(Some(5), 2),
        Entry::new(Some(1), 3),
    ];
    let mut tree = LoserTree::new(entries);

    // 1 is minimum.
    assert_eq!(tree.peek_min().unwrap().value, Some(1));
    assert_eq!(tree.winner_idx(), 3);

    tree.replace_winner(Some(3));
    // Now 2 is minimum.
    assert_eq!(tree.peek_min().unwrap().value, Some(2));
    assert_eq!(tree.winner_idx(), 1);
}

#[test]
fn test_three_elements_non_power_of_two() {
    let entries = vec![
        Entry::new(Some(10), 0),
        Entry::new(Some(5), 1),
        Entry::new(Some(8), 2),
    ];
    let mut tree = LoserTree::new(entries);

    assert_eq!(tree.peek_min().unwrap().value, Some(5));
    assert_eq!(tree.winner_idx(), 1);

    tree.replace_winner(Some(12));
    assert_eq!(tree.peek_min().unwrap().value, Some(8));
    assert_eq!(tree.winner_idx(), 2);

    tree.replace_winner(Some(9));
    assert_eq!(tree.peek_min().unwrap().value, Some(9));
    assert_eq!(tree.winner_idx(), 2);

    tree.replace_winner(Some(11));
    assert_eq!(tree.peek_min().unwrap().value, Some(10));
    assert_eq!(tree.winner_idx(), 0);
}

#[test]
fn test_five_elements() {
    let entries = vec![
        Entry::new(Some(5), 0),
        Entry::new(Some(3), 1),
        Entry::new(Some(7), 2),
        Entry::new(Some(1), 3),
        Entry::new(Some(4), 4),
    ];
    let tree = LoserTree::new(entries);

    // 1 is minimum.
    assert_eq!(tree.peek_min().unwrap().value, Some(1));
    assert_eq!(tree.winner_idx(), 3);
}

#[test]
fn test_exhausted_iterator_loses() {
    let entries = vec![
        Entry::new(Some(5), 0),
        Entry::new(None, 1), // Already exhausted.
        Entry::new(Some(3), 2),
    ];
    let mut tree = LoserTree::new(entries);

    // 3 should win (None loses).
    assert_eq!(tree.peek_min().unwrap().value, Some(3));
    assert_eq!(tree.winner_idx(), 2);

    tree.replace_winner(None);
    // Now 5 should win.
    assert_eq!(tree.peek_min().unwrap().value, Some(5));
    assert_eq!(tree.winner_idx(), 0);

    tree.replace_winner(None);
    // All exhausted.
    assert!(tree.peek_min().is_none());
}

#[test]
fn test_all_same_value_leftmost_wins() {
    let entries = vec![
        Entry::new(Some(5), 0),
        Entry::new(Some(5), 1),
        Entry::new(Some(5), 2),
        Entry::new(Some(5), 3),
    ];
    let tree = LoserTree::new(entries);

    // Leftmost (index 0) should win on ties.
    assert_eq!(tree.peek_min().unwrap().value, Some(5));
    assert_eq!(tree.winner_idx(), 0);
}

#[test]
fn test_all_exhausted() {
    let entries = vec![
        Entry::new(None::<i32>, 0),
        Entry::new(None, 1),
        Entry::new(None, 2),
    ];
    let tree = LoserTree::new(entries);

    assert!(tree.peek_min().is_none());
}

#[test]
fn test_sorted_output() {
    // Simulate merging three sorted sequences.
    let mut seqs = vec![
        vec![1, 4, 7].into_iter().peekable(),
        vec![2, 5, 8].into_iter().peekable(),
        vec![3, 6, 9].into_iter().peekable(),
    ];

    let entries: Vec<_> = seqs
        .iter_mut()
        .enumerate()
        .map(|(idx, iter)| Entry::new(iter.next(), idx))
        .collect();

    let mut tree = LoserTree::new(entries);
    let mut result = Vec::new();

    while let Some(entry) = tree.peek_min() {
        let val = entry.value.unwrap();
        let idx = tree.winner_idx();
        result.push(val);

        let next = seqs[idx].next();
        tree.replace_winner(next);
    }

    assert_eq!(result, vec![1, 2, 3, 4, 5, 6, 7, 8, 9]);
}

#[test]
fn test_equivalent_to_sorted_merge() {
    // Verify the loser tree produces the same output as a naive sorted merge.
    let sequences = vec![
        vec![1, 5, 9, 13],
        vec![2, 6, 10, 14],
        vec![3, 7, 11, 15],
        vec![4, 8, 12, 16],
    ];

    // Naive merge: concat and sort.
    let mut expected: Vec<_> = sequences.iter().flatten().copied().collect();
    expected.sort();

    // Loser tree merge.
    let mut seqs: Vec<_> = sequences
        .into_iter()
        .map(|s| s.into_iter().peekable())
        .collect();
    let entries: Vec<_> = seqs
        .iter_mut()
        .enumerate()
        .map(|(idx, iter)| Entry::new(iter.next(), idx))
        .collect();

    let mut tree = LoserTree::new(entries);
    let mut result = Vec::new();

    while let Some(entry) = tree.peek_min() {
        let val = entry.value.unwrap();
        let idx = tree.winner_idx();
        result.push(val);
        tree.replace_winner(seqs[idx].next());
    }

    assert_eq!(result, expected);
}

#[test]
fn test_alternating_winners() {
    // Two sequences that alternate.
    let mut seqs = vec![
        vec![1, 3, 5, 7].into_iter().peekable(),
        vec![2, 4, 6, 8].into_iter().peekable(),
    ];

    let entries: Vec<_> = seqs
        .iter_mut()
        .enumerate()
        .map(|(idx, iter)| Entry::new(iter.next(), idx))
        .collect();

    let mut tree = LoserTree::new(entries);
    let mut winners = Vec::new();

    while tree.peek_min().is_some() {
        let idx = tree.winner_idx();
        winners.push(idx);
        tree.replace_winner(seqs[idx].next());
    }

    // Should alternate: 0, 1, 0, 1, 0, 1, 0, 1.
    assert_eq!(winners, vec![0, 1, 0, 1, 0, 1, 0, 1]);
}

#[test]
fn test_large_tree() {
    // Test with 16 participants.
    let n = 16;
    let entries: Vec<_> = (0..n)
        .map(|i| Entry::new(Some((n - i) as i32), i))
        .collect();

    let mut tree = LoserTree::new(entries);

    // Minimum should be 1, from index n-1.
    assert_eq!(tree.peek_min().unwrap().value, Some(1));
    assert_eq!(tree.winner_idx(), n - 1);

    // Exhaust all participants.
    for expected in 1..=n as i32 {
        assert_eq!(tree.peek_min().unwrap().value, Some(expected));
        tree.replace_winner(None);
    }

    assert!(tree.peek_min().is_none());
}

#[test]
fn merge_loop_hands_out_ties_by_source_and_ends_with_the_items() {
    // Equal values come out from the lower source first, each source keeps its
    // own order, and the loop runs exactly once per item.
    let sources = vec![vec![2, 5, 5], vec![1, 5, 9], vec![5]];
    let mut iters: Vec<_> = sources.iter().map(|s| s.iter().copied()).collect();
    let entries: Vec<_> = iters
        .iter_mut()
        .enumerate()
        .map(|(idx, it)| Entry::new(it.next(), idx))
        .collect();
    let mut tree = LoserTree::new(entries);
    let mut out = Vec::new();
    let mut rounds = 0;
    while let Some(entry) = tree.peek_min() {
        let val = entry.value.unwrap();
        let idx = tree.winner_idx();
        out.push((val, idx));
        tree.replace_winner(iters[idx].next());
        rounds += 1;
    }
    assert_eq!(rounds, 7);
    assert_eq!(
        out,
        vec![(1, 1), (2, 0), (5, 0), (5, 0), (5, 1), (5, 2), (9, 1)]
    );
}
