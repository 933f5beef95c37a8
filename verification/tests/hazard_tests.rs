use rustcurrent::hazard::HPBRManager;

#[test]
fn test_scan_spares_protected() {
    // threshold 2, two hazard slots; the word 8 stays protected in slot 0
    let mut manager = HPBRManager::new(2, 2);
    manager.protect(8, 0);

    assert_eq!(manager.retire(100, 1), Vec::<usize>::new());
    assert_eq!(manager.retire(101, 1), Vec::<usize>::new());
    // the third retire crosses the threshold: everything unprotected goes,
    // the protected word stays on the retired list
    let freed = manager.retire(8, 1);
    assert_eq!(freed, vec![100, 101]);
}

#[test]
fn test_scan_after_unprotect() {
    let mut manager = HPBRManager::new(2, 2);
    manager.protect(8, 0);
    manager.retire(100, 1);
    manager.retire(101, 1);
    let freed = manager.retire(8, 1);
    assert_eq!(freed, vec![100, 101]);

    // once the slot is cleared, the next scan reclaims the word as well
    manager.unprotect(0);
    assert_eq!(manager.retire(102, 1), Vec::<usize>::new());
    let freed2 = manager.retire(103, 1);
    assert_eq!(freed2, vec![8, 102, 103]);
}

#[test]
fn test_protect_is_per_slot() {
    let mut manager = HPBRManager::new(1, 3);
    manager.protect(40, 0);
    manager.protect(41, 2);
    // the first retire stays under the threshold, so no scan runs yet
    let freed = manager.retire(40, 1);
    assert_eq!(freed, Vec::<usize>::new());
    // the second crosses it: 40 and 41 are still published, only 99 goes
    let freed2 = manager.retire(99, 1);
    assert_eq!(freed2, vec![99]);
}
