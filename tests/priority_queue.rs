use heap_algorithms::priority_queue::PriorityQueue;

#[test]
fn queue_gives_largest_first() {
    let mut q = PriorityQueue::new(vec![4, 1, 3, 2, 16, 9, 10, 14, 8, 7]);
    assert_eq!(q.len(), 10);
    assert_eq!(*q.peek(), 16);
    q.push(12);
    q.push(-3);
    assert_eq!(q.len(), 12);
    let mut out = Vec::new();
    while q.len() > 0 {
        out.push(q.pop());
    }
    assert_eq!(out, vec![16, 14, 12, 10, 9, 8, 7, 4, 3, 2, 1, -3]);
}

#[test]
fn queue_push_then_pop_round_trip() {
    let mut q = PriorityQueue::new(vec![3, 1, 2]);
    q.push(100);
    assert_eq!(q.pop(), 100);
    let mut rest = q.into_vec();
    rest.sort();
    assert_eq!(rest, vec![1, 2, 3]);
}

#[test]
fn queue_from_empty() {
    let mut q = PriorityQueue::new(vec![]);
    assert_eq!(q.len(), 0);
    q.push(5);
    q.push(5);
    assert_eq!(*q.peek(), 5);
    assert_eq!(q.pop(), 5);
    assert_eq!(q.pop(), 5);
    assert_eq!(q.len(), 0);
}
