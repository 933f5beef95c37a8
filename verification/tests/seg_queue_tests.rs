use rustcurrent::seg_queue::{is_marked, mark, unmark, SegQueueOld};
use std::collections::HashSet;

#[test]
fn test_enqueue() {
    let mut queue: SegQueueOld<u8> = SegQueueOld::new(4);

    let mut poss_set: HashSet<u8> = HashSet::new();

    queue.enqueue(3);
    poss_set.insert(3);
    queue.enqueue(4);
    poss_set.insert(4);
    queue.enqueue(5);
    poss_set.insert(5);
    queue.enqueue(6);
    poss_set.insert(6);

    queue.enqueue(7);

    let res = queue.dequeue().unwrap();
    assert!(poss_set.contains(&res));
    poss_set.remove(&res);

    let res = queue.dequeue().unwrap();
    assert!(poss_set.contains(&res));
    poss_set.remove(&res);

    let res = queue.dequeue().unwrap();
    assert!(poss_set.contains(&res));
    poss_set.remove(&res);

    let res = queue.dequeue().unwrap();
    assert!(poss_set.contains(&res));
    poss_set.remove(&res);

    assert_eq!(Some(7), queue.dequeue());
    assert_eq!(None, queue.dequeue());
}

#[test]
fn test_dequeue_empty() {
    let mut queue: SegQueueOld<u16> = SegQueueOld::new(2);
    assert_eq!(queue.dequeue(), None);
    queue.enqueue(11);
    assert_eq!(queue.dequeue(), Some(11));
    assert_eq!(queue.dequeue(), None);
}

#[test]
fn test_conservation() {
    // everything enqueued comes out exactly once, whatever the slot order
    let mut queue: SegQueueOld<u16> = SegQueueOld::new(20);
    let mut expected: Vec<u16> = Vec::new();
    for i in 0..1000u16 {
        queue.enqueue(i);
        expected.push(i);
    }
    let mut got: Vec<u16> = Vec::new();
    while let Some(v) = queue.dequeue() {
        got.push(v);
    }
    assert_eq!(queue.dequeue(), None);
    got.sort();
    expected.sort();
    assert_eq!(got, expected);
}

#[test]
fn test_interleaved() {
    let mut queue: SegQueueOld<u32> = SegQueueOld::new(3);
    queue.enqueue(1);
    queue.enqueue(2);
    let first = queue.dequeue().unwrap();
    assert!(first == 1 || first == 2);
    queue.enqueue(3);
    queue.enqueue(4);
    queue.enqueue(5);
    let mut seen: Vec<u32> = vec![first];
    while let Some(v) = queue.dequeue() {
        seen.push(v);
    }
    seen.sort();
    assert_eq!(seen, vec![1, 2, 3, 4, 5]);
}

#[test]
fn test_queue_word_marking() {
    // the queue's own word-tagging helpers
    let p: usize = 16;
    assert_eq!(mark(p), 17);
    assert!(is_marked(mark(p)));
    assert!(!is_marked(p));
    assert_eq!(unmark(mark(p)), p);
}
