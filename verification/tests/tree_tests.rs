use scapegoat::{SGErr, SGTree};

#[test]
fn ascending_iter_and_min_max() {
    let mut tree: SGTree<char, 16> = SGTree::new();
    assert_eq!(tree.insert(3, 'c'), None);
    assert_eq!(tree.insert(2, 'b'), None);
    assert_eq!(tree.insert(1, 'a'), None);
    let entries: Vec<(u64, char)> = tree.iter().into_iter().map(|(k, v)| (k, *v)).collect();
    assert_eq!(entries, vec![(1, 'a'), (2, 'b'), (3, 'c')]);
    assert_eq!(tree.first_key_value(), Some((&1, &'a')));
    assert_eq!(tree.last_key_value(), Some((&3, &'c')));
    assert_eq!(tree.first_key(), Some(&1));
    assert_eq!(tree.last_key(), Some(&3));
}

#[test]
fn ascending_fill_stays_shallow_and_rebalances() {
    let mut tree: SGTree<u64, 2048> = SGTree::new();
    assert_eq!(tree.rebal_param(), (2, 3));
    for i in 1..=1024u64 {
        assert_eq!(tree.insert(i, i), None);
    }
    assert_eq!(tree.len(), 1024);
    // depth bound: floor(log_{3/2}(1024)) + 1 = 18
    assert!(tree.height() <= 18);
    assert!(tree.rebal_cnt() >= 1);
    for i in 1..=1024u64 {
        assert_eq!(tree.get(&i), Some(&i));
    }
}

#[test]
fn split_off_partitions_at_the_key() {
    let mut tree: SGTree<u64, 128> = SGTree::new();
    for i in 0..100u64 {
        tree.insert(i, i);
    }
    let upper = tree.split_off(&50);
    assert_eq!(tree.len(), 50);
    assert_eq!(upper.len(), 50);
    assert_eq!(tree.len() + upper.len(), 100);
    for i in 0..50u64 {
        assert_eq!(tree.get(&i), Some(&i));
        assert_eq!(upper.get(&i), None);
    }
    for i in 50..100u64 {
        assert_eq!(tree.get(&i), None);
        assert_eq!(upper.get(&i), Some(&i));
    }
}

#[test]
fn retain_keeps_exactly_the_matching_keys() {
    let mut tree: SGTree<u64, 64> = SGTree::new();
    for i in 0..32u64 {
        tree.insert(i, i);
    }
    tree.retain(|k, _| k % 2 == 0);
    assert_eq!(tree.len(), 16);
    let keys: Vec<u64> = tree.iter().into_iter().map(|(k, _)| k).collect();
    let expected: Vec<u64> = (0..32u64).filter(|k| k % 2 == 0).collect();
    assert_eq!(keys, expected);
}

#[test]
fn insert_overwrites_key_and_value() {
    let mut tree: SGTree<&str, 8> = SGTree::new();
    assert_eq!(tree.insert(5, "a"), None);
    assert_eq!(tree.insert(5, "b"), Some("a"));
    assert_eq!(tree.get(&5), Some(&"b"));
    assert_eq!(tree.len(), 1);
}

#[test]
fn try_insert_reports_exhausted_capacity() {
    let mut tree: SGTree<u64, 4> = SGTree::new();
    for i in 0..4u64 {
        assert_eq!(tree.try_insert(i, i * 10), Ok(None));
    }
    assert_eq!(tree.try_insert(4, 40), Err(SGErr::StackCapacityExceeded));
    assert_eq!(tree.len(), 4);
    assert_eq!(tree.get(&4), None);
    // a full tree refuses even a pure overwrite
    assert_eq!(tree.try_insert(0, 99), Err(SGErr::StackCapacityExceeded));
    assert_eq!(tree.get(&0), Some(&0));
}

#[test]
fn round_trip_leaves_an_empty_tree() {
    let mut tree: SGTree<u64, 32> = SGTree::new();
    let keys = [9u64, 3, 27, 1, 81, 18, 6];
    for &k in keys.iter() {
        tree.insert(k, k + 100);
    }
    assert_eq!(tree.len(), keys.len());
    for &k in keys.iter() {
        assert_eq!(tree.remove(&k), Some(k + 100));
    }
    assert!(tree.is_empty());
    assert_eq!(tree.len(), 0);
    assert_eq!(tree.first_key_value(), None);
    assert_eq!(tree.pop_first(), None);
}

#[test]
fn remove_entry_returns_the_pair() {
    let mut tree: SGTree<char, 16> = SGTree::new();
    tree.insert(7, 'x');
    tree.insert(2, 'y');
    assert_eq!(tree.remove_entry(&7), Some((7, 'x')));
    assert_eq!(tree.remove_entry(&7), None);
    assert_eq!(tree.remove(&3), None);
    assert_eq!(tree.len(), 1);
    assert!(tree.contains_key(&2));
    assert!(!tree.contains_key(&7));
}

#[test]
fn remove_interior_node_with_two_children() {
    let mut tree: SGTree<u64, 32> = SGTree::new();
    for &k in [50u64, 25, 75, 10, 30, 60, 90, 27, 35].iter() {
        tree.insert(k, k);
    }
    // 25 has two children; its in-order successor (27) is promoted
    assert_eq!(tree.remove(&25), Some(25));
    let keys: Vec<u64> = tree.iter().into_iter().map(|(k, _)| k).collect();
    assert_eq!(keys, vec![10, 27, 30, 35, 50, 60, 75, 90]);
    // the root with two children
    assert_eq!(tree.remove_entry(&50), Some((50, 50)));
    let keys: Vec<u64> = tree.iter().into_iter().map(|(k, _)| k).collect();
    assert_eq!(keys, vec![10, 27, 30, 35, 60, 75, 90]);
}

#[test]
fn pop_first_and_pop_last_take_the_extremes() {
    let mut tree: SGTree<u64, 16> = SGTree::new();
    for &k in [5u64, 1, 9, 3, 7].iter() {
        tree.insert(k, k * 2);
    }
    assert_eq!(tree.pop_first(), Some((1, 2)));
    assert_eq!(tree.pop_last(), Some((9, 18)));
    assert_eq!(tree.first_key(), Some(&3));
    assert_eq!(tree.last_key(), Some(&7));
    assert_eq!(tree.len(), 3);
}

#[test]
fn set_rebal_param_validates_the_ratio() {
    let mut tree: SGTree<u64, 8> = SGTree::new();
    assert_eq!(tree.set_rebal_param(2, 3), Ok(()));
    assert_eq!(tree.rebal_param(), (2, 3));
    assert_eq!(tree.set_rebal_param(3, 4), Ok(()));
    assert_eq!(tree.rebal_param(), (3, 4));
    // alpha below one half
    assert_eq!(
        tree.set_rebal_param(1, 3),
        Err(SGErr::RebalanceFactorOutOfRange)
    );
    // alpha of one or above
    assert_eq!(
        tree.set_rebal_param(3, 3),
        Err(SGErr::RebalanceFactorOutOfRange)
    );
    // an unreduced fraction is accepted and reported as given
    assert_eq!(tree.set_rebal_param(6, 8), Ok(()));
    assert_eq!(tree.rebal_param(), (6, 8));
    assert_eq!(tree.set_rebal_param(400, 600), Ok(()));
    assert_eq!(tree.rebal_param(), (400, 600));
    // every ratio in the half-open interval is in range, however fine
    assert_eq!(tree.set_rebal_param(99, 100), Ok(()));
    assert_eq!(tree.rebal_param(), (99, 100));
    assert_eq!(tree.set_rebal_param(3, 4), Ok(()));
    assert_eq!(tree.rebal_param(), (3, 4));
    // the half-balanced setting rebuilds eagerly and keeps lookups exact
    assert_eq!(tree.set_rebal_param(1, 2), Ok(()));
    for i in 0..8u64 {
        tree.insert(i, i);
    }
    assert!(tree.height() <= 4);
}

#[test]
fn fine_grained_alpha_still_balances() {
    // a ratio too fine for exact power arithmetic takes the conservative
    // depth limit; the tree stays correct and still rebalances
    let mut tree: SGTree<u64, 256> = SGTree::new();
    assert_eq!(tree.set_rebal_param(99, 100), Ok(()));
    for i in 0..128u64 {
        assert_eq!(tree.insert(i, i * 3), None);
    }
    assert_eq!(tree.len(), 128);
    for i in 0..128u64 {
        assert_eq!(tree.get(&i), Some(&(i * 3)));
    }
    // the conservative limit triggers the scapegoat search early, and the
    // weight test uses the true ratio, so ascending insertion under a
    // laissez-faire alpha may still rebuild; correctness never depends on it
    let keys: Vec<u64> = tree.iter().into_iter().map(|(k, _)| k).collect();
    assert_eq!(keys, (0..128u64).collect::<Vec<u64>>());
    assert_eq!(tree.remove(&64), Some(192));
    assert_eq!(tree.len(), 127);
}

#[test]
fn clear_preserves_the_rebalance_counter() {
    let mut tree: SGTree<u64, 64> = SGTree::new();
    for i in 0..64u64 {
        tree.insert(i, i);
    }
    let cnt = tree.rebal_cnt();
    assert!(cnt >= 1);
    tree.clear();
    assert!(tree.is_empty());
    assert_eq!(tree.rebal_cnt(), cnt);
    assert_eq!(tree.rebal_param(), (2, 3));
    tree.insert(1, 1);
    assert_eq!(tree.len(), 1);
}

#[test]
fn append_moves_everything_and_prefers_the_source() {
    let mut a: SGTree<&str, 16> = SGTree::new();
    let mut b: SGTree<&str, 16> = SGTree::new();
    a.insert(1, "one");
    a.insert(2, "two-a");
    b.insert(2, "two-b");
    b.insert(3, "three");
    a.append(&mut b);
    assert!(b.is_empty());
    assert_eq!(a.len(), 3);
    assert_eq!(a.get(&1), Some(&"one"));
    assert_eq!(a.get(&2), Some(&"two-b"));
    assert_eq!(a.get(&3), Some(&"three"));
}

#[test]
fn try_append_checks_the_combined_size() {
    let mut a: SGTree<u64, 4> = SGTree::new();
    let mut b: SGTree<u64, 4> = SGTree::new();
    for i in 0..3u64 {
        a.insert(i, i);
    }
    for i in 10..13u64 {
        b.insert(i, i);
    }
    assert_eq!(a.try_append(&mut b), Err(SGErr::StackCapacityExceeded));
    assert_eq!(a.len(), 3);
    assert_eq!(b.len(), 3);
    let mut c: SGTree<u64, 4> = SGTree::new();
    c.insert(20, 20);
    assert_eq!(b.try_append(&mut c), Ok(()));
    assert_eq!(b.len(), 4);
    assert!(c.is_empty());
    // appending into an empty tree succeeds wholesale
    let mut d: SGTree<u64, 4> = SGTree::new();
    assert_eq!(d.try_append(&mut b), Ok(()));
    assert_eq!(d.len(), 4);
    assert!(b.is_empty());
}

#[test]
fn get_key_value_and_structural_metrics() {
    let mut tree: SGTree<u64, 10> = SGTree::new();
    tree.insert(11, 110);
    assert_eq!(tree.get_key_value(&11), Some((&11, &110)));
    assert_eq!(tree.get_key_value(&12), None);
    assert_eq!(tree.capacity(), 10);
    assert!(tree.node_size() > 0);
}

#[test]
fn error_text_names_the_failure() {
    assert!(SGErr::RebalanceFactorOutOfRange.as_str().contains("rebalance factor"));
    assert!(SGErr::StackCapacityExceeded.as_str().contains("capacity"));
}

#[test]
fn deletion_threshold_triggers_a_full_rebuild() {
    let mut tree: SGTree<u64, 64> = SGTree::new();
    for i in 0..32u64 {
        tree.insert(i, i);
    }
    let before = tree.rebal_cnt();
    // removing most elements must cross the max_size > 2 * size threshold
    for i in 0..24u64 {
        tree.remove(&i);
    }
    assert!(tree.rebal_cnt() > before);
    assert_eq!(tree.len(), 8);
    let keys: Vec<u64> = tree.iter().into_iter().map(|(k, _)| k).collect();
    assert_eq!(keys, (24..32u64).collect::<Vec<u64>>());
}

#[test]
fn interleaved_inserts_and_removes_match_a_reference_model() {
    let mut tree: SGTree<u64, 512> = SGTree::new();
    let mut model = std::collections::BTreeMap::new();
    let mut x: u64 = 7;
    for step in 0..2000u64 {
        // a small linear-congruential walk for reproducible variety
        x = x.wrapping_mul(6364136223846793005).wrapping_add(1442695040888963407);
        let k = x % 256;
        if step % 3 == 0 {
            assert_eq!(tree.remove(&k), model.remove(&k));
        } else {
            assert_eq!(tree.insert(k, step), model.insert(k, step));
        }
        assert_eq!(tree.len(), model.len());
    }
    let got: Vec<(u64, u64)> = tree.iter().into_iter().map(|(k, v)| (k, *v)).collect();
    let want: Vec<(u64, u64)> = model.into_iter().collect();
    assert_eq!(got, want);
}

#[test]
fn drain_empties_in_ascending_order() {
    let mut tree: SGTree<u64, 16> = SGTree::new();
    for &k in [8u64, 3, 11, 1, 6].iter() {
        tree.insert(k, k * 7);
    }
    let drained = tree.drain();
    assert_eq!(drained, vec![(1, 7), (3, 21), (6, 42), (8, 56), (11, 77)]);
    assert!(tree.is_empty());
    assert_eq!(tree.drain(), vec![]);
}
