use rustcurrent::hash_map::HashMap;
use rustcurrent::laws::{
    law_k_relaxed_dequeue, law_map_idempotence, law_map_no_loss, law_map_remove_reinsert,
    law_queue_conservation,
};
use rustcurrent::seg_queue::SegQueueOld;

#[test]
fn test_law_map_idempotence_runs() {
    let mut map: HashMap<u8> = HashMap::new();
    law_map_idempotence(&mut map, 9, 9, 7);
    assert_eq!(map.get(9), Some(9));
}

#[test]
fn test_law_map_remove_reinsert_runs() {
    let mut map: HashMap<u8> = HashMap::new();
    law_map_remove_reinsert(&mut map, 9, 9, 7);
    assert_eq!(map.get(9), Some(7));
}

#[test]
fn test_law_map_no_loss_runs() {
    let mut map: HashMap<u16> = HashMap::new();
    law_map_no_loss(&mut map, 5, 500, 69, 6900);
    assert_eq!(map.get(5), Some(500));
    assert_eq!(map.get(69), Some(6900));
}

#[test]
fn test_law_queue_conservation_runs() {
    let mut queue: SegQueueOld<u8> = SegQueueOld::new(4);
    queue.enqueue(1);
    law_queue_conservation(&mut queue, 2);
    let mut rest: Vec<u8> = Vec::new();
    while let Some(v) = queue.dequeue() {
        rest.push(v);
    }
    assert_eq!(rest.len(), 1);
    assert!(rest[0] == 1 || rest[0] == 2);
}

#[test]
fn test_law_k_relaxed_dequeue_runs() {
    let mut queue: SegQueueOld<u8> = SegQueueOld::new(2);
    assert_eq!(law_k_relaxed_dequeue(&mut queue), None);
    queue.enqueue(5);
    queue.enqueue(6);
    queue.enqueue(7);
    let first = law_k_relaxed_dequeue(&mut queue);
    assert!(first == Some(5) || first == Some(6));
}
