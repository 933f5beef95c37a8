use rustcurrent::queue::Queue;
use rustcurrent::stack::Stack;

#[test]
fn test_stack_lifo() {
    let mut stack: Stack<u8> = Stack::new();
    assert_eq!(stack.pop(), None);
    stack.push(1);
    stack.push(2);
    stack.push(3);
    assert_eq!(stack.pop(), Some(3));
    assert_eq!(stack.pop(), Some(2));
    stack.push(4);
    assert_eq!(stack.pop(), Some(4));
    assert_eq!(stack.pop(), Some(1));
    assert_eq!(stack.pop(), None);
}

#[test]
fn test_queue_fifo() {
    let mut queue: Queue<u8> = Queue::new();
    assert_eq!(queue.dequeue(), None);
    queue.enqueue(1);
    queue.enqueue(2);
    queue.enqueue(3);
    assert_eq!(queue.dequeue(), Some(1));
    queue.enqueue(4);
    assert_eq!(queue.dequeue(), Some(2));
    assert_eq!(queue.dequeue(), Some(3));
    assert_eq!(queue.dequeue(), Some(4));
    assert_eq!(queue.dequeue(), None);
}
