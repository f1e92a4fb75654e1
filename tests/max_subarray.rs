use heap_algorithms::max_subarray as ms;

#[test]
fn max_subarray() {
    let mut a = vec![13, -3, -25, 20, -3, -16, -23, 18, 20, -7, 12, -5, -22, 15, -4, 7];
    let n = a.len();
    assert_eq!(ms::max_subarray(&mut a, 0, n - 1), (7, 10, 43));
}

#[test]
fn max_subarray_single_and_negative() {
    let mut a = vec![-3];
    assert_eq!(ms::max_subarray(&mut a, 0, 0), (0, 0, -3));
    let mut b = vec![-8, -3, -6, -2, -5, -4];
    assert_eq!(ms::max_subarray(&mut b, 0, 5), (3, 3, -2));
}

#[test]
fn max_subarray_within_range() {
    let mut a = vec![100, 1, -5, 4, 3, -1, 100];
    assert_eq!(ms::max_subarray(&mut a, 1, 5), (3, 4, 7));
    assert_eq!(a, vec![100, 1, -5, 4, 3, -1, 100]);
}
