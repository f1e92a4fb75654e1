use heap_algorithms::heap::Heap;

fn is_max_heap(v: &[i64]) -> bool {
    (1..v.len()).all(|i| v[(i - 1) / 2] >= v[i])
}

fn is_min_heap(v: &[i64]) -> bool {
    (1..v.len()).all(|i| v[(i - 1) / 2] <= v[i])
}

fn sorted_copy(v: &[i64]) -> Vec<i64> {
    let mut c = v.to_vec();
    c.sort();
    c
}

#[test]
fn max_heapify() {
    let a = vec![17, 3, 16, 13, 10, 1, 5, 7, 12, 4, 8, 9, 0];
    let mut a = Heap::new(a);

    a.max_heapify(2);

    println!("{:?}", a);
    assert_eq!(a.arr, vec![17, 3, 16, 13, 10, 1, 5, 7, 12, 4, 8, 9, 0]);
}

#[test]
fn sift_down_restores_root() {
    let mut h = Heap::new(vec![1, 16, 10, 14, 7, 9, 3, 2, 8, 4]);
    h.max_heapify(0);
    assert_eq!(h.arr, vec![16, 14, 10, 8, 7, 9, 3, 2, 1, 4]);
    assert!(is_max_heap(&h.arr));
}

#[test]
fn sift_down_min_restores_root() {
    let mut h = Heap::new(vec![9, 1, 2, 3, 4, 5, 6]);
    h.min_heapify(0);
    assert_eq!(h.arr, vec![1, 3, 2, 9, 4, 5, 6]);
    assert!(is_min_heap(&h.arr));
}

#[test]
fn index_relations() {
    let h = Heap::new(vec![5, 4, 3, 2, 1]);
    assert_eq!(h.len(), 5);
    assert_eq!(h.parent(1), 0);
    assert_eq!(h.parent(2), 0);
    assert_eq!(h.parent(4), 1);
    assert_eq!(h.left(0), Some(1));
    assert_eq!(h.right(0), Some(2));
    assert_eq!(h.left(1), Some(3));
    assert_eq!(h.right(1), Some(4));
    assert_eq!(h.left(2), None);
    assert_eq!(h.right(2), None);
    let h = Heap::new(vec![2, 1]);
    assert_eq!(h.left(0), Some(1));
    assert_eq!(h.right(0), None);
}

#[test]
fn exchange_swaps_two_slots() {
    let mut h = Heap::new(vec![1, 2, 3]);
    h.exchange(0, 2);
    assert_eq!(h.arr, vec![3, 2, 1]);
    assert_eq!(h.heap_size, 3);
}

#[test]
fn build_max_heap_keeps_elements() {
    let input = vec![4, 1, 3, 2, 16, 9, 10, 14, 8, 7];
    let mut h = Heap::new(input.clone());
    h.to_max_heap();
    assert_eq!(h.arr, vec![16, 14, 10, 8, 7, 9, 3, 2, 4, 1]);
    assert!(is_max_heap(&h.arr));
    assert_eq!(sorted_copy(&h.arr), sorted_copy(&input));
}

#[test]
fn build_min_heap_keeps_elements() {
    let input = vec![4, 1, 3, 2, 16, 9, 10, 14, 8, 7];
    let mut h = Heap::new(input.clone());
    h.to_min_heap();
    assert!(is_min_heap(&h.arr));
    assert_eq!(h.arr[0], 1);
    assert_eq!(sorted_copy(&h.arr), sorted_copy(&input));
}

#[test]
fn build_on_empty_and_single() {
    let mut h = Heap::new(vec![]);
    h.to_max_heap();
    assert!(h.arr.is_empty());
    let mut h = Heap::new(vec![7]);
    h.to_min_heap();
    assert_eq!(h.arr, vec![7]);
}

#[test]
fn pushes_then_pops_come_out_non_increasing() {
    let mut h = Heap::new(vec![]);
    for x in [5, 3, 8, 1, 9, 2, 8] {
        h.push(x);
        assert!(is_max_heap(&h.arr));
    }
    assert_eq!(*h.peek(), 9);
    let mut out = Vec::new();
    for _ in 0..7 {
        out.push(h.pop());
        assert!(is_max_heap(&h.arr));
    }
    assert_eq!(out, vec![9, 8, 8, 5, 3, 2, 1]);
    assert_eq!(h.heap_size, 0);
    assert!(h.arr.is_empty());
}

#[test]
fn push_then_pop_round_trip() {
    let mut h = Heap::new(vec![6, 2, 5, 1]);
    h.to_max_heap();
    let before = h.arr.clone();
    h.push(10);
    assert_eq!(h.arr[0], 10);
    assert_eq!(h.delete(0), 10);
    assert_eq!(h.heap_size, 4);
    assert_eq!(sorted_copy(&h.arr), sorted_copy(&before));
    assert!(is_max_heap(&h.arr));
}

#[test]
fn delete_inner_node() {
    let mut h = Heap::new(vec![16, 14, 10, 8, 7, 9, 3, 2, 4, 1]);
    assert_eq!(h.delete(1), 14);
    assert_eq!(h.heap_size, 9);
    assert!(is_max_heap(&h.arr));
    assert_eq!(h.arr, vec![16, 8, 10, 4, 7, 9, 3, 2, 1]);
    assert_eq!(h.delete(8), 1);
    assert_eq!(h.arr, vec![16, 8, 10, 4, 7, 9, 3, 2]);
    assert!(is_max_heap(&h.arr));
}

#[test]
fn delete_sifts_up_when_last_is_larger() {
    let mut h = Heap::new(vec![20, 5, 19, 4, 3, 18, 17]);
    assert_eq!(h.delete(3), 4);
    assert_eq!(h.arr, vec![20, 17, 19, 5, 3, 18]);
    assert!(is_max_heap(&h.arr));
}

#[test]
fn reevaluate_moves_raised_element_up() {
    let mut h = Heap::new(vec![16, 14, 10, 8, 7, 9, 3, 2, 4, 1]);
    h.arr[8] = 15;
    h.reevaluate(8);
    assert_eq!(h.arr, vec![16, 15, 10, 14, 7, 9, 3, 2, 8, 1]);
}

#[test]
fn into_vec_returns_buffer() {
    let h = Heap::new(vec![3, 1, 2]);
    assert_eq!(h.into_vec(), vec![3, 1, 2]);
}

#[test]
fn min_heap_pops_come_out_non_decreasing() {
    let mut h = Heap::new(vec![5, 3, 8, 1, 9, 2, 8]);
    h.to_min_heap();
    assert_eq!(*h.peek(), 1);
    let mut out = Vec::new();
    while h.heap_size > 0 {
        out.push(h.pop_min());
        assert!(is_min_heap(&h.arr));
    }
    assert_eq!(out, vec![1, 2, 3, 5, 8, 8, 9]);
    assert!(h.arr.is_empty());
}

#[test]
fn delete_min_inner_node() {
    let mut h = Heap::new(vec![1, 3, 2, 9, 4, 5, 6]);
    assert_eq!(h.delete_min(1), 3);
    assert_eq!(h.arr, vec![1, 4, 2, 9, 6, 5]);
    assert!(is_min_heap(&h.arr));
}

#[test]
fn delete_last_slot() {
    let mut h = Heap::new(vec![9, 4, 7]);
    assert_eq!(h.delete(2), 7);
    assert_eq!(h.arr, vec![9, 4]);
    assert_eq!(h.pop(), 9);
    assert_eq!(h.pop(), 4);
    assert_eq!(h.heap_size, 0);
}

#[test]
fn heapify_touches_only_the_subtree() {
    let mut h = Heap::new(vec![17, 3, 16, 13, 10, 1, 5, 7, 12, 4, 8, 9, 0]);
    h.max_heapify(1);
    assert_eq!(h.arr, vec![17, 13, 16, 12, 10, 1, 5, 7, 3, 4, 8, 9, 0]);
    let mut h = Heap::new(vec![9, 8, 1, 7, 6]);
    h.max_heapify(2);
    assert_eq!(h.arr, vec![9, 8, 1, 7, 6]);
}

#[test]
fn exact_arrangements() {
    let mut h = Heap::new(vec![5, 3, 8, 1, 9, 2]);
    h.to_max_heap();
    assert_eq!(h.arr, vec![9, 5, 8, 1, 3, 2]);
    let mut h = Heap::new(vec![5, 3, 8, 1, 9, 2]);
    h.to_min_heap();
    assert_eq!(h.arr, vec![1, 3, 2, 5, 9, 8]);
    let mut h = Heap::new(vec![9, 5, 8, 3]);
    h.push(10);
    assert_eq!(h.arr, vec![10, 9, 8, 3, 5]);
    let mut h = Heap::new(vec![9, 5, 8, 3, 10]);
    h.reevaluate(4);
    assert_eq!(h.arr, vec![10, 9, 8, 3, 5]);
    let mut h = Heap::new(vec![10, 9, 8, 3, 5]);
    assert_eq!(h.pop(), 10);
    assert_eq!(h.arr, vec![9, 5, 8, 3]);
}

#[test]
fn building_a_heap_moves_nothing() {
    let mut h = Heap::new(vec![16, 14, 10, 8, 7, 9, 3, 2, 4, 1]);
    h.to_max_heap();
    assert_eq!(h.arr, vec![16, 14, 10, 8, 7, 9, 3, 2, 4, 1]);
}
