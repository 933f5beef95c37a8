use rustcurrent::hash_map::HashMap;

#[test]
fn test_single_thread_insert() {
    let map: HashMap<u8> = HashMap::new();
    let mut map = map;

    assert!(map.insert(9, 9).is_ok());
    assert!(map.insert(9, 7).is_err());
}

#[test]
fn test_insert_then_get() {
    let mut map: HashMap<u8> = HashMap::new();
    assert_eq!(map.insert(9, 9), Ok(()));
    assert_eq!(map.insert(9, 7), Err((9, 7)));
    assert_eq!(map.get(9), Some(9));
}

#[test]
fn test_colliding_prefix_expands() {
    // 5 and 5 + 64 share their first 6-bit routing chunk, forcing an
    // expansion; both keys must stay readable
    let mut map: HashMap<u32> = HashMap::new();
    assert_eq!(map.insert(5, 500), Ok(()));
    assert_eq!(map.insert(69, 6900), Ok(()));
    assert_eq!(map.get(5), Some(500));
    assert_eq!(map.get(69), Some(6900));

    // a third key colliding on the first two chunks goes deeper still
    assert_eq!(map.insert(5 + 64 * 64, 7), Ok(()));
    assert_eq!(map.get(5 + 64 * 64), Some(7));
    assert_eq!(map.get(5), Some(500));
}

#[test]
fn test_remove_then_reinsert() {
    let mut map: HashMap<u8> = HashMap::new();
    assert_eq!(map.insert(9, 9), Ok(()));
    assert_eq!(map.remove(9), Some(9));
    assert_eq!(map.get(9), None);
    assert_eq!(map.insert(9, 7), Ok(()));
    assert_eq!(map.get(9), Some(7));
}

#[test]
fn test_remove_absent() {
    let mut map: HashMap<u8> = HashMap::new();
    assert_eq!(map.remove(3), None);
    assert_eq!(map.insert(3, 1), Ok(()));
    assert_eq!(map.remove(4), None);
    assert_eq!(map.get(3), Some(1));
}

#[test]
fn test_update() {
    let mut map: HashMap<u8> = HashMap::new();
    assert_eq!(map.update(9, 1), None);
    assert_eq!(map.get(9), None);
    assert_eq!(map.insert(9, 9), Ok(()));
    assert_eq!(map.update(9, 1), Some(9));
    assert_eq!(map.get(9), Some(1));
}

#[test]
fn test_disjoint_keysets_no_loss() {
    // disjoint keysets, interleaved as concurrent inserters would submit
    // them: every key reads back its own value
    let mut map: HashMap<u64> = HashMap::new();
    for i in 0..1000u64 {
        for t in 0..64u64 {
            let key = t + 64 * i;
            assert_eq!(map.insert(key, key * 2), Ok(()));
        }
    }
    for t in 0..64u64 {
        for i in 0..1000u64 {
            let key = t + 64 * i;
            assert_eq!(map.get(key), Some(key * 2));
        }
    }
}
