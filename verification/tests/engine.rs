use filmsmash::ranker::MergeSortRanker;

/// Drives an engine with a fixed preference order, counting decisions.
fn rank_by_str_order(items: Vec<&'static str>) -> (Vec<&'static str>, usize) {
    let mut engine = MergeSortRanker::new(items);
    let mut decisions: usize = 0;
    while !engine.is_ranked() {
        let left = *engine.peek_left().unwrap();
        let right = *engine.peek_right().unwrap();
        if left < right {
            engine.record_left_preferred();
        } else {
            engine.record_right_preferred();
        }
        decisions += 1;
    }
    (engine.finalize().unwrap(), decisions)
}

#[test]
fn empty_input_ranked_immediately() {
    let engine: MergeSortRanker<String> = MergeSortRanker::new(Vec::new());
    assert!(engine.is_ranked());
    let order = engine.finalize().unwrap();
    assert!(order.is_empty());
}

#[test]
fn single_item_ranked_immediately() {
    let mut engine = MergeSortRanker::new(vec!["A"]);
    assert!(engine.is_ranked());
    assert!(engine.peek_left().is_none());
    assert!(engine.peek_right().is_none());
    // No decision was needed; recording anyway is a no-op.
    engine.record_left_preferred();
    assert!(engine.is_ranked());
    assert_eq!(engine.finalize().unwrap(), vec!["A"]);
}

#[test]
fn two_items_left_preferred() {
    let mut engine = MergeSortRanker::new(vec!["A", "B"]);
    assert!(!engine.is_ranked());
    assert_eq!(*engine.peek_left().unwrap(), "A");
    assert_eq!(*engine.peek_right().unwrap(), "B");
    engine.record_left_preferred();
    assert!(engine.is_ranked());
    assert_eq!(engine.finalize().unwrap(), vec!["A", "B"]);
}

#[test]
fn two_items_right_preferred() {
    let mut engine = MergeSortRanker::new(vec!["A", "B"]);
    engine.record_right_preferred();
    assert!(engine.is_ranked());
    assert_eq!(engine.finalize().unwrap(), vec!["B", "A"]);
}

#[test]
fn four_items_lexicographic() {
    // Two singleton merges of one decision each, then the final merge: its
    // left run empties only after both its items are committed, so it takes
    // two decisions. Four in all, within the N * log2(N) = 8 bound.
    let (order, decisions) = rank_by_str_order(vec!["A", "B", "C", "D"]);
    assert_eq!(order, vec!["A", "B", "C", "D"]);
    assert_eq!(decisions, 4);
    assert!(decisions >= 3);
    assert!(decisions <= 8);
}

#[test]
fn four_items_reversed_input() {
    let (order, decisions) = rank_by_str_order(vec!["D", "C", "B", "A"]);
    assert_eq!(order, vec!["A", "B", "C", "D"]);
    // Never fewer than N - 1 decisions, never more than N * log2(N).
    assert!(decisions >= 3);
    assert!(decisions <= 8);
}

#[test]
fn decision_count_bounds_hold_for_larger_inputs() {
    let items: Vec<&'static str> = vec![
        "kiwi", "apple", "mango", "pear", "fig", "plum", "grape", "lime", "date", "melon",
    ];
    let n = items.len();
    let (order, decisions) = rank_by_str_order(items.clone());
    let mut expected = items.clone();
    expected.sort();
    assert_eq!(order, expected);
    assert!(decisions >= n - 1);
    // N * ceil(log2(N)) with N = 10.
    assert!(decisions <= n * 4);
}

#[test]
fn order_fidelity_under_arbitrary_decisions() {
    // Decisions driven by an arbitrary fixed pattern, duplicates included:
    // the result must still hold exactly the input items.
    let items = vec!["X", "Y", "X", "Z", "W"];
    let mut engine = MergeSortRanker::new(items.clone());
    let mut flip = false;
    while !engine.is_ranked() {
        if flip {
            engine.record_left_preferred();
        } else {
            engine.record_right_preferred();
        }
        flip = !flip;
    }
    let mut order = engine.finalize().unwrap();
    let mut expected = items.clone();
    order.sort();
    expected.sort();
    assert_eq!(order, expected);
}

#[test]
fn identical_decisions_give_identical_orders() {
    let items = vec!["one", "two", "three", "four", "five"];
    let pattern = [true, false, false, true, true, false, true, false, true, false, true, false];
    let mut orders: Vec<Vec<&'static str>> = Vec::new();
    for _ in 0..2 {
        let mut engine = MergeSortRanker::new(items.clone());
        let mut k = 0;
        while !engine.is_ranked() {
            if pattern[k % pattern.len()] {
                engine.record_left_preferred();
            } else {
                engine.record_right_preferred();
            }
            k += 1;
        }
        orders.push(engine.finalize().unwrap());
    }
    assert_eq!(orders[0], orders[1]);
}

#[test]
fn peeking_never_changes_state() {
    let mut engine = MergeSortRanker::new(vec!["A", "B", "C"]);
    let first_left = engine.peek_left().map(|s| *s);
    let first_right = engine.peek_right().map(|s| *s);
    for _ in 0..5 {
        assert_eq!(engine.peek_left().map(|s| *s), first_left);
        assert_eq!(engine.peek_right().map(|s| *s), first_right);
        assert!(!engine.is_ranked());
    }
    engine.record_left_preferred();
    let after_left = engine.peek_left().map(|s| *s);
    for _ in 0..5 {
        assert_eq!(engine.peek_left().map(|s| *s), after_left);
    }
}

#[test]
fn finalize_before_ranked_is_absent() {
    let engine = MergeSortRanker::new(vec![1u32, 2, 3]);
    assert!(engine.finalize().is_none());
}

#[test]
fn records_after_ranked_are_no_ops() {
    let mut engine = MergeSortRanker::new(vec![10u64, 20]);
    engine.record_right_preferred();
    assert!(engine.is_ranked());
    engine.record_left_preferred();
    engine.record_right_preferred();
    assert!(engine.is_ranked());
    assert_eq!(engine.finalize().unwrap(), vec![20, 10]);
}

#[test]
fn consistent_preferences_put_preferred_item_first() {
    // Whenever two items meet, the numerically smaller is preferred; it must
    // precede the other in the final order.
    let items = vec![42u32, 7, 19, 3, 88, 1];
    let mut engine = MergeSortRanker::new(items.clone());
    while !engine.is_ranked() {
        let left = *engine.peek_left().unwrap();
        let right = *engine.peek_right().unwrap();
        if left <= right {
            engine.record_left_preferred();
        } else {
            engine.record_right_preferred();
        }
    }
    let order = engine.finalize().unwrap();
    assert_eq!(order, vec![1, 3, 7, 19, 42, 88]);
}
