use algs::fundamentals::queue::Queue;
use algs::fundamentals::stack::Stack;

#[test]
fn empty_queue() {
    let q: Queue<isize> = Queue::new();
    assert!(q.is_empty());
    assert_eq!(q.len(), 0);
}

#[test]
fn queue_single_element() {
    let mut q = Queue::new();
    q.enqueue("hello");
    assert!(!q.is_empty());
    assert_eq!(q.len(), 1);
    assert_eq!(q.dequeue(), Some("hello"));
    assert!(q.is_empty());
    assert_eq!(q.len(), 0);
    assert_eq!(q.dequeue(), None);
}

#[test]
fn queue_ten_elements() {
    let mut q = Queue::new();
    for i in 0..10 {
        q.enqueue(i);
    }
    for i in 0..10 {
        assert_eq!(q.dequeue(), Some(i));
    }
    assert_eq!(q.dequeue(), None);
}

#[test]
fn empty_stack() {
    let mut s: Stack<isize> = Stack::new();
    assert!(s.is_empty());
    assert_eq!(s.size(), 0);
    assert_eq!(s.pop(), None);
}

#[test]
fn stack_single_element() {
    let mut s = Stack::new();
    s.push("hello");
    assert!(!s.is_empty());
    assert_eq!(s.size(), 1);
    assert_eq!(s.pop(), Some("hello"));
    assert!(s.is_empty());
    assert_eq!(s.size(), 0);
    assert_eq!(s.pop(), None);
}

#[test]
fn stack_ten_elements() {
    let mut s = Stack::new();
    for i in 0..10 {
        s.push(i);
    }
    for i in 0..10 {
        assert_eq!(s.pop(), Some(9 - i));
    }
    assert_eq!(s.pop(), None);
}
