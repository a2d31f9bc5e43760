use dstructs::AVLTreeMap;

fn in_order_keys(map: &AVLTreeMap<i64>) -> Vec<u64> {
    let mut keys = Vec::new();
    let mut k: usize = 0;
    while let Some((key, _)) = map.nth_key_value(k) {
        keys.push(*key);
        k += 1;
    }
    keys
}

#[test]
fn scenario_build_small_tree() {
    let mut map = AVLTreeMap::new();
    for key in [5u64, 3, 8, 1, 4, 7, 9] {
        assert_eq!(map.insert(key, key as i64 * 10), None);
    }
    assert_eq!(map.len(), 7);
    assert_eq!(in_order_keys(&map), vec![1, 3, 4, 5, 7, 8, 9]);
}

#[test]
fn scenario_increasing_insertions_stay_shallow() {
    // Inserting 1..=7 ascending is the worst case for a plain search tree;
    // the balanced map keeps all operations working and the order intact.
    let mut map = AVLTreeMap::new();
    for key in 1u64..=7 {
        assert_eq!(map.insert(key, key as i64), None);
    }
    assert_eq!(map.len(), 7);
    assert_eq!(in_order_keys(&map), vec![1, 2, 3, 4, 5, 6, 7]);
    for key in 1u64..=7 {
        assert_eq!(map.get(key), Some(&(key as i64)));
    }
}

#[test]
fn scenario_get_hit_and_miss() {
    let mut map = AVLTreeMap::new();
    for key in [5u64, 3, 8, 1, 4, 7, 9] {
        map.insert(key, key as i64 * 10);
    }
    assert_eq!(map.get(4), Some(&40));
    assert_eq!(map.get(100), None);
    assert!(map.contains_key(7));
    assert!(!map.contains_key(2));
    assert_eq!(map.get_key_value(8), Some((&8u64, &80i64)));
}

#[test]
fn scenario_remove_keeps_order() {
    let mut map = AVLTreeMap::new();
    for key in [5u64, 3, 8, 1, 4, 7, 9] {
        map.insert(key, key as i64 * 10);
    }
    assert_eq!(map.remove(3), Some(30));
    assert_eq!(map.len(), 6);
    assert_eq!(in_order_keys(&map), vec![1, 4, 5, 7, 8, 9]);
    assert_eq!(map.remove(3), None);
    assert_eq!(map.len(), 6);
}

#[test]
fn scenario_rank_selection() {
    let mut map = AVLTreeMap::new();
    for key in [5u64, 3, 8, 1, 4, 7, 9] {
        map.insert(key, key as i64 * 10);
    }
    let first = map.nth_key_value(0).unwrap();
    assert_eq!((*first.0, *first.1), (1, 10));
    let last = map.nth_key_value(6).unwrap();
    assert_eq!((*last.0, *last.1), (9, 90));
    assert!(map.nth_key_value(7).is_none());
}

#[test]
fn scenario_reinsert_returns_previous() {
    let mut map = AVLTreeMap::new();
    for key in [5u64, 3, 8, 1, 4, 7, 9] {
        map.insert(key, key as i64 * 10);
    }
    assert_eq!(map.insert(5, 555), Some(50));
    assert_eq!(map.len(), 7);
    assert_eq!(map.get(5), Some(&555));
}

#[test]
fn remove_then_insert_restores_key_set() {
    let mut map = AVLTreeMap::new();
    for key in [12u64, 6, 20, 3, 9, 15, 30] {
        map.insert(key, key as i64);
    }
    let before = in_order_keys(&map);
    let removed = map.remove(9).unwrap();
    assert_eq!(removed, 9);
    assert_eq!(map.len(), 6);
    map.insert(9, -1);
    assert_eq!(map.len(), 7);
    assert_eq!(in_order_keys(&map), before);
    assert_eq!(map.get(9), Some(&-1));
}

#[test]
fn empty_map_behaviour() {
    let mut map: AVLTreeMap<String> = AVLTreeMap::new();
    assert!(map.is_empty());
    assert_eq!(map.len(), 0);
    assert_eq!(map.get(0), None);
    assert_eq!(map.remove(0), None);
    assert!(map.nth_key_value(0).is_none());
    map.insert(1, String::from("one"));
    assert!(!map.is_empty());
    assert_eq!(map.remove_entry(1), Some((1, String::from("one"))));
    assert!(map.is_empty());
}

#[test]
fn many_random_like_operations_keep_order() {
    // A longer mixed workload: keys walk a fixed pseudo-random cycle, with
    // interleaved removals, and the in-order traversal must stay sorted and
    // duplicate-free throughout.
    let mut map = AVLTreeMap::new();
    let mut x: u64 = 7;
    for round in 0..300u64 {
        x = (x.wrapping_mul(1103515245).wrapping_add(12345)) % 1000;
        map.insert(x, round as i64);
        if round % 3 == 0 {
            let victim = (x * 17 + 3) % 1000;
            map.remove(victim);
        }
        let keys = in_order_keys(&map);
        assert_eq!(keys.len(), map.len());
        for w in keys.windows(2) {
            assert!(w[0] < w[1]);
        }
    }
}

#[test]
fn removal_balance_both_sides() {
    // Delete from alternating sides so both take-from-left and
    // take-from-right merge paths run.
    let mut map = AVLTreeMap::new();
    for key in 0u64..64 {
        map.insert(key, key as i64);
    }
    for key in [31u64, 32, 15, 48, 0, 63, 16, 47, 30, 33] {
        assert_eq!(map.remove(key), Some(key as i64));
    }
    assert_eq!(map.len(), 54);
    let keys = in_order_keys(&map);
    for w in keys.windows(2) {
        assert!(w[0] < w[1]);
    }
}
