use heap_algorithms::inversions::merge_inversion_count;

// a single common testing function: DRY
fn test_this_sort(algo: fn(&mut [i64], usize, usize) -> usize) {
    let arrs = vec![
        vec![324, 132, 97, 324, 897, 324, 324, 7, 96, 239, 864, 3],
        vec![981, 762, 771, 912, 903, 792, 206, 276, 198],
        vec![639, 783, 827, 77, 311, 578, 678, 955],
        vec![615, 740, 30, 206, 8, 750, 345, 911, 789, 763],
        vec![
            473, 553, 245, 688, 524, 430, 794, 202, 337, 128, 954, 749, 540, 152,
        ],
        vec![
            35, 916, 461, 783, 374, 391, 484, 779, 803, 451, 346, 785, 588,
        ],
        vec![430, 339, 855, 818, 807, 486, 585, 692, 568],
        vec![
            158, 562, 427, 185, 646, 807, 592, 279, 645, 541, 579, 707, 16,
        ],
        vec![602, 192, 308, 505, 118, 791, 21],
    ];

    for mut i in arrs {
        let x = i.len() - 1;
        algo(&mut i, 0, x);

        for j in 0..(x - 1) {
            assert!(i[j] <= i[j + 1]);
        }
    }
}

#[test]
fn test_merge_inversion() {
    test_this_sort(merge_inversion_count);
}

#[test]
fn inversion_counts() {
    let mut a = vec![2, 4, 1, 3, 5];
    assert_eq!(merge_inversion_count(&mut a, 0, 4), 3);
    assert_eq!(a, vec![1, 2, 3, 4, 5]);
    let mut b = vec![5, 4, 3, 2, 1];
    assert_eq!(merge_inversion_count(&mut b, 0, 4), 10);
    let mut c = vec![1, 2, 3];
    assert_eq!(merge_inversion_count(&mut c, 0, 2), 0);
    let mut d = vec![2, 2, 1];
    assert_eq!(merge_inversion_count(&mut d, 0, 2), 2);
    assert_eq!(d, vec![1, 2, 2]);
    let mut e = vec![7];
    assert_eq!(merge_inversion_count(&mut e, 0, 0), 0);
}

#[test]
fn inversion_count_within_range() {
    let mut a = vec![9, 3, 1, 2, 0];
    assert_eq!(merge_inversion_count(&mut a, 1, 3), 2);
    assert_eq!(a, vec![9, 1, 2, 3, 0]);
}
