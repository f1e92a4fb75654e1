use vstd::prelude::*;

verus! {

/// Sum of the slots `lo..hi` of `s`.
pub open spec fn range_sum(s: Seq<i64>, lo: int, hi: int) -> int
    decreases hi - lo,
{
    if lo >= hi {
        0
    } else {
        s[lo] + range_sum(s, lo + 1, hi)
    }
}

/// Every sum of consecutive slots within `start..=end` fits in an `i64`.
pub open spec fn sums_fit(s: Seq<i64>, start: int, end: int) -> bool {
    forall|lo: int, hi: int|
        start <= lo <= hi <= end + 1 ==> i64::MIN <= #[trigger] range_sum(s, lo, hi) <= i64::MAX
}

proof fn lemma_range_sum_split(s: Seq<i64>, a: int, b: int, c: int)
    requires
        a <= b <= c,
    ensures
        range_sum(s, a, c) == range_sum(s, a, b) + range_sum(s, b, c),
    decreases b - a,
{
    if a < b {
        lemma_range_sum_split(s, a + 1, b, c);
    }
}

/// The largest sum over slots that run across `mid` and `mid + 1`, with the
/// first and last slot of such a run.
fn max_crossing_subarray(arr: &mut [i64], start: usize, mid: usize, end: usize) -> (r: (
    usize,
    usize,
    i64,
))
    requires
        start <= mid < end < old(arr)@.len(),
        sums_fit(old(arr)@, start as int, end as int),
    ensures
        final(arr)@ == old(arr)@,
        start <= r.0 <= mid < r.1 <= end,
        r.2 == range_sum(old(arr)@, r.0 as int, r.1 + 1),
        forall|lo: int, hi: int|
            start <= lo <= mid && mid + 1 < hi <= end + 1 ==> #[trigger] range_sum(
                old(arr)@,
                lo,
                hi,
            ) <= r.2,
{
    let ghost s = arr@;
    proof {
        lemma_range_sum_split(s, mid as int, mid + 1, mid + 1);
    }
    let mut left = mid;
    let mut sum: i64 = arr[mid];
    let mut left_sum: i64 = sum;
    let mut i = mid;
    while i > start
        invariant
            arr@ == s,
            start <= i <= left <= mid < end < s.len(),
            sums_fit(s, start as int, end as int),
            sum == range_sum(s, i as int, mid + 1),
            left_sum == range_sum(s, left as int, mid + 1),
            forall|lo: int| i <= lo <= mid ==> #[trigger] range_sum(s, lo, mid + 1) <= left_sum,
        decreases i,
    {
        i -= 1;
        proof {
            assert(sums_fit(s, start as int, end as int));
            assert(i64::MIN <= range_sum(s, i as int, mid + 1) <= i64::MAX);
        }
        sum = sum + arr[i];
        if sum > left_sum {
            left_sum = sum;
            left = i;
        }
    }
    let mut right = mid + 1;
    proof {
        lemma_range_sum_split(s, mid + 1, mid + 2, mid + 2);
    }
    sum = arr[mid + 1];
    let mut right_sum: i64 = sum;
    let mut j = mid + 1;
    while j < end
        invariant
            arr@ == s,
            start <= left <= mid < right <= j <= end < s.len(),
            sums_fit(s, start as int, end as int),
            sum == range_sum(s, mid + 1, j + 1),
            right_sum == range_sum(s, mid + 1, right + 1),
            left_sum == range_sum(s, left as int, mid + 1),
            forall|hi: int| mid + 1 < hi <= j + 1 ==> #[trigger] range_sum(s, mid + 1, hi) <= right_sum,
        decreases end - j,
    {
        j += 1;
        proof {
            lemma_range_sum_split(s, mid + 1, j as int, j + 1);
            lemma_range_sum_split(s, j as int, j + 1, j + 1);
            assert(i64::MIN <= range_sum(s, mid + 1, j + 1) <= i64::MAX);
        }
        sum = sum + arr[j];
        if sum > right_sum {
            right_sum = sum;
            right = j;
        }
    }
    proof {
        lemma_range_sum_split(s, left as int, mid + 1, right + 1);
        assert(i64::MIN <= range_sum(s, left as int, right + 1) <= i64::MAX);
        assert forall|lo: int, hi: int|
            start <= lo <= mid && mid + 1 < hi <= end + 1 implies #[trigger] range_sum(s, lo, hi)
            <= left_sum + right_sum by {
            lemma_range_sum_split(s, lo, mid + 1, hi);
            assert(range_sum(s, lo, mid + 1) <= left_sum);
            assert(range_sum(s, mid + 1, hi) <= right_sum);
        }
    }
    (left, right, left_sum + right_sum)
}

/// The run of consecutive slots within `start..=end` with the largest sum: its
/// first slot, its last slot and its sum.
pub fn max_subarray(arr: &mut [i64], start: usize, end: usize) -> (r: (usize, usize, i64))
    requires
        start <= end < old(arr)@.len(),
        sums_fit(old(arr)@, start as int, end as int),
    ensures
        final(arr)@ == old(arr)@,
        start <= r.0 <= r.1 <= end,
        r.2 == range_sum(old(arr)@, r.0 as int, r.1 + 1),
        forall|lo: int, hi: int|
            start <= lo < hi <= end + 1 ==> #[trigger] range_sum(old(arr)@, lo, hi) <= r.2,
    decreases end - start,
{
    let ghost s = arr@;
    if start == end {
        proof {
            lemma_range_sum_split(s, start as int, start + 1, start + 1);
        }
        return (start, end, arr[start]);
    }
    let mid = start + (end - start) / 2;
    assert(sums_fit(s, start as int, mid as int));
    assert(sums_fit(s, mid + 1, end as int));
    let left_max = max_subarray(arr, start, mid);
    let mid_max = max_crossing_subarray(arr, start, mid, end);
    let right_max = max_subarray(arr, mid + 1, end);
    if left_max.2 >= mid_max.2 && left_max.2 >= right_max.2 {
        left_max
    } else if mid_max.2 >= right_max.2 {
        mid_max
    } else {
        right_max
    }
}

} // verus!
