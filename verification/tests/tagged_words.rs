use rustcurrent::atomic_markable::{
    is_array_node, is_marked, mark, mark_array_node, unmark, unmark_array_node, AtomicMarkablePtr,
};

#[test]
fn test_mark_unmark_roundtrip() {
    // an aligned word survives a mark / unmark round trip
    let p: usize = 8;
    assert_eq!(unmark(mark(p)), p);
    assert_eq!(mark(p), 9);
    assert!(is_marked(mark(p)));
    assert!(!is_marked(p));
}

#[test]
fn test_array_flag() {
    let p: usize = 8;
    assert_eq!(mark_array_node(p), 10);
    assert!(is_array_node(mark_array_node(p)));
    assert!(!is_array_node(p));
    assert_eq!(unmark_array_node(mark_array_node(p)), p);
}

#[test]
fn test_flags_commute() {
    let p: usize = 64;
    assert_eq!(mark(mark_array_node(p)), mark_array_node(mark(p)));
    assert_eq!(mark(mark_array_node(p)), 67);
    assert!(is_marked(mark(mark_array_node(p))));
    assert!(is_array_node(mark(mark_array_node(p))));
}

#[test]
fn test_markable_ptr_cas() {
    let mut cell = AtomicMarkablePtr::default();
    assert_eq!(cell.get_ptr(), None);
    assert_eq!(cell.ptr(), 0);

    assert_eq!(cell.compare_exchange(0, 12), Ok(0));
    assert_eq!(cell.get_ptr(), Some(12));

    // a CAS against a stale expectation fails and reports what it observed
    assert_eq!(cell.compare_exchange(5, 7), Err(12));
    assert_eq!(cell.get_ptr(), Some(12));
}

#[test]
fn test_markable_ptr_weak_cas() {
    let mut cell = AtomicMarkablePtr::default();
    assert_eq!(cell.compare_exchange_weak(0, 20), Ok(0));
    // on failure the rejected new word is handed back
    assert_eq!(cell.compare_exchange_weak(0, 24), Err(24));
    assert_eq!(cell.ptr(), 20);
}

#[test]
fn test_markable_ptr_mark() {
    let mut cell = AtomicMarkablePtr::default();
    assert_eq!(cell.compare_exchange(0, 12), Ok(0));
    assert_eq!(cell.compare_and_mark(12), Ok(12));
    assert_eq!(cell.ptr(), 13);
    assert!(is_marked(cell.ptr()));

    let mut cell2 = AtomicMarkablePtr::default();
    assert_eq!(cell2.compare_exchange(0, 8), Ok(0));
    cell2.mark();
    assert_eq!(cell2.ptr(), 9);
}
