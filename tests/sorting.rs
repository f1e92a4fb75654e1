use heap_algorithms::sorting::{bubble_sort, heap_sort, insertion_sort, merge_sort, selection_sort};

// a single common testing function: DRY
fn test_this_sort(algo: fn(&mut Vec<i64>, usize, usize)) {
    let arrs = vec![
        vec![324, 132, 97, 324, 897, 324, 324, 7, 96, 239, 864, 3],
        vec![981, 762, 771, 912, 903, 792, 206, 276, 198],
        vec![639, 783, 827, 77, 311, 578, 678, 955],
        vec![615, 740, 30, 206, 8, 750, 345, 911, 789, 763],
        vec![
            473, 553, 245, 688, 524, 430, 794, 202, 337, 128, 954, 749, 540, 152,
        ],
        vec![
            35, 916, 461, 783, 374, 391, 484, 779, 803, 451, 346, 785, 588,
        ],
        vec![430, 339, 855, 818, 807, 486, 585, 692, 568],
        vec![
            158, 562, 427, 185, 646, 807, 592, 279, 645, 541, 579, 707, 16,
        ],
        vec![602, 192, 308, 505, 118, 791, 21],
    ];

    for mut i in arrs {
        let x = i.len() - 1;
        algo(&mut i, 0, x);

        for j in 0..(x - 1) {
            assert!(i[j] <= i[j + 1]);
        }
    }
}

#[test]
fn test_heap_sort() {
    test_this_sort(heap_sort);
}

#[test]
fn heap_sort_scenarios() {
    let mut a = vec![5, 3, 8, 1, 9, 2];
    heap_sort(&mut a, 0, 5);
    assert_eq!(a, vec![1, 2, 3, 5, 8, 9]);
    let mut e: Vec<i64> = vec![];
    heap_sort(&mut e, 0, 0);
    assert_eq!(e, Vec::<i64>::new());
    let mut one = vec![42];
    heap_sort(&mut one, 0, 0);
    assert_eq!(one, vec![42]);
    let mut d = vec![4, 4, 4, 1];
    heap_sort(&mut d, 0, 3);
    assert_eq!(d, vec![1, 4, 4, 4]);
}

#[test]
fn test_bubble_sort() {
    test_this_sort(bubble_sort);
}

#[test]
fn test_insertion_sort() {
    test_this_sort(insertion_sort);
}

#[test]
fn test_selection_sort() {
    test_this_sort(selection_sort);
}

#[test]
fn test_merge_sort() {
    test_this_sort(merge_sort);
}

fn check_range_sort(algo: fn(&mut Vec<i64>, usize, usize)) {
    let mut a = vec![9, 7, 5, 3, 1, 8, 6];
    algo(&mut a, 1, 4);
    assert_eq!(a, vec![9, 1, 3, 5, 7, 8, 6]);
    let mut b = vec![5, 3, 8, 1, 9, 2];
    algo(&mut b, 0, 5);
    assert_eq!(b, vec![1, 2, 3, 5, 8, 9]);
    let mut c = vec![4, 4, 4, 1];
    algo(&mut c, 0, 3);
    assert_eq!(c, vec![1, 4, 4, 4]);
    let mut d = vec![2, 1];
    algo(&mut d, 1, 1);
    assert_eq!(d, vec![2, 1]);
    let mut e = vec![i64::MAX, i64::MIN, 0, -1];
    algo(&mut e, 0, 3);
    assert_eq!(e, vec![i64::MIN, -1, 0, i64::MAX]);
}

#[test]
fn bubble_sort_sorts_only_the_range() {
    check_range_sort(bubble_sort);
}

#[test]
fn insertion_sort_sorts_only_the_range() {
    check_range_sort(insertion_sort);
}

#[test]
fn selection_sort_sorts_only_the_range() {
    check_range_sort(selection_sort);
}

#[test]
fn merge_sort_sorts_only_the_range() {
    check_range_sort(merge_sort);
}
