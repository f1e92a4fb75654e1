use vstd::prelude::*;
use vstd::seq_lib::lemma_multiset_commutative;

use crate::heap::{heap_elems, is_max_heap, lemma_root_dominates, lemma_swap_multiset, Heap};

verus! {

broadcast use vstd::seq_lib::group_to_multiset_ensures, vstd::multiset::group_multiset_properties;

/// The slots `lo..hi` of `s` are in non-decreasing order.
pub open spec fn sorted_between(s: Seq<i64>, lo: int, hi: int) -> bool {
    forall|i: int, j: int| lo <= i < j < hi ==> s[i] <= s[j]
}

/// All of `s` is in non-decreasing order.
pub open spec fn sorted(s: Seq<i64>) -> bool {
    sorted_between(s, 0, s.len() as int)
}

/// Two sequences that agree from `m` on, and whose first `m` slots hold the
/// same elements, hold the same elements.
proof fn lemma_prefix_multiset(s: Seq<i64>, t: Seq<i64>, m: int)
    requires
        0 <= m <= s.len(),
        s.len() == t.len(),
        heap_elems(s, m) == heap_elems(t, m),
        forall|k: int| m <= k < s.len() ==> #[trigger] s[k] == t[k],
    ensures
        s.to_multiset() == t.to_multiset(),
{
    let n = s.len() as int;
    assert(s =~= s.subrange(0, m) + s.subrange(m, n));
    assert(t =~= t.subrange(0, m) + t.subrange(m, n));
    assert(s.subrange(m, n) =~= t.subrange(m, n));
    lemma_multiset_commutative(s.subrange(0, m), s.subrange(m, n));
    lemma_multiset_commutative(t.subrange(0, m), t.subrange(m, n));
}

/// A bound on every element of the first `m` slots carries over to any
/// rearrangement of them.
proof fn lemma_prefix_bound(t: Seq<i64>, u: Seq<i64>, m: int, bound: i64)
    requires
        0 <= m <= t.len(),
        m <= u.len(),
        heap_elems(t, m) == heap_elems(u, m),
        forall|a: int| 0 <= a < m ==> #[trigger] t[a] <= bound,
    ensures
        forall|a: int| 0 <= a < m ==> #[trigger] u[a] <= bound,
{
    assert forall|a: int| 0 <= a < m implies #[trigger] u[a] <= bound by {
        let us = u.subrange(0, m);
        let ts = t.subrange(0, m);
        assert(us[a] == u[a]);
        assert(us.contains(u[a]));
        assert(us.to_multiset().count(u[a]) > 0);
        assert(ts.to_multiset().count(u[a]) > 0);
        assert(ts.contains(u[a]));
        let k = choose|k: int| 0 <= k < ts.len() && ts[k] == u[a];
        assert(t[k] == ts[k]);
    }
}

/// Sorts the whole of `arr` in place: builds a max-heap over it, then moves
/// the root behind the shrinking heap part one slot at a time.
pub fn heap_sort(arr: &mut Vec<i64>, _start: usize, _end: usize)
    ensures
        sorted(final(arr)@),
        final(arr)@.to_multiset() == old(arr)@.to_multiset(),
{
    let mut v: Vec<i64> = Vec::new();
    std::mem::swap(arr, &mut v);
    let ghost orig = v@;
    let mut h = Heap::new(v);
    h.to_max_heap();
    let len = h.len();
    proof {
        assert(h.arr@.subrange(0, len as int) =~= h.arr@);
        assert(orig.subrange(0, len as int) =~= orig);
    }
    let mut i: usize = len;
    while i > 1
        invariant
            h.wf(),
            h.arr.len() == len,
            h.heap_size == i,
            i <= len,
            is_max_heap(h.arr@, i as int),
            sorted_between(h.arr@, i as int, len as int),
            forall|a: int, b: int| 0 <= a < i <= b < len ==> h.arr@[a] <= h.arr@[b],
            h.arr@.to_multiset() == orig.to_multiset(),
        decreases i,
    {
        let ghost s = h.arr@;
        proof {
            lemma_root_dominates(s, i as int, true);
            lemma_swap_multiset(s, 0, i - 1);
        }
        h.exchange(0, i - 1);
        h.heap_size = i - 1;
        let ghost t = h.arr@;
        h.max_heapify(0);
        proof {
            let u = h.arr@;
            let m = (i - 1) as int;
            lemma_prefix_multiset(u, t, m);
            assert forall|a: int| 0 <= a < m implies #[trigger] t[a] <= t[m] by {
                if a > 0 {
                    assert(s[a] <= s[0]);
                }
            }
            lemma_prefix_bound(t, u, m, t[m]);
        }
        i -= 1;
    }
    *arr = h.into_vec();
}

/// The slots `start..=end` of `new` are those of `old` rearranged into
/// non-decreasing order; all other slots are unchanged.
pub open spec fn sorts_range(old: Seq<i64>, new: Seq<i64>, start: int, end: int) -> bool {
    &&& new.len() == old.len()
    &&& sorted_between(new, start, end + 1)
    &&& new.to_multiset() == old.to_multiset()
    &&& forall|k: int| 0 <= k < old.len() && (k < start || k > end) ==> #[trigger] new[k] == old[k]
}

/// Exchanges two slots of `arr`.
fn swap_slots(arr: &mut Vec<i64>, i: usize, j: usize)
    requires
        i < old(arr).len(),
        j < old(arr).len(),
    ensures
        final(arr)@ == old(arr)@.update(i as int, old(arr)@[j as int]).update(
            j as int,
            old(arr)@[i as int],
        ),
        final(arr)@.to_multiset() == old(arr)@.to_multiset(),
{
    proof {
        lemma_swap_multiset(arr@, i as int, j as int);
    }
    let a = arr[i];
    let b = arr[j];
    arr.set(i, b);
    arr.set(j, a);
}

/// Sorts `arr[start..=end]` by bubbling the largest remaining element to the
/// end of the unsorted part, which then shrinks by one.
pub fn bubble_sort(arr: &mut Vec<i64>, start: usize, end: usize)
    requires
        start <= end < old(arr).len(),
    ensures
        sorts_range(old(arr)@, final(arr)@, start as int, end as int),
{
    let mut k = end;
    while k > start
        invariant
            start <= k <= end < arr.len(),
            arr.len() == old(arr).len(),
            sorted_between(arr@, k + 1, end + 1),
            forall|a: int, b: int| start <= a <= k < b <= end ==> arr@[a] <= arr@[b],
            arr@.to_multiset() == old(arr)@.to_multiset(),
            forall|x: int|
                0 <= x < arr.len() && (x < start || x > end) ==> #[trigger] arr@[x] == old(
                    arr,
                )@[x],
        decreases k,
    {
        let mut j = start;
        while j < k
            invariant
                start <= j <= k <= end < arr.len(),
                arr.len() == old(arr).len(),
                sorted_between(arr@, k + 1, end + 1),
                forall|a: int, b: int| start <= a <= k < b <= end ==> arr@[a] <= arr@[b],
                forall|a: int| start <= a <= j ==> #[trigger] arr@[a] <= arr@[j as int],
                arr@.to_multiset() == old(arr)@.to_multiset(),
                forall|x: int|
                    0 <= x < arr.len() && (x < start || x > end) ==> #[trigger] arr@[x] == old(
                        arr,
                    )@[x],
            decreases k - j,
        {
            if arr[j] > arr[j + 1] {
                swap_slots(arr, j, j + 1);
            }
            j += 1;
        }
        k -= 1;
    }
}

/// Sorts `arr[start..=end]` by inserting each element into the sorted part
/// before it, moving it left past every larger element.
pub fn insertion_sort(arr: &mut Vec<i64>, start: usize, end: usize)
    requires
        start <= end < old(arr).len(),
    ensures
        sorts_range(old(arr)@, final(arr)@, start as int, end as int),
{
    let mut i = start + 1;
    while i <= end
        invariant
            start < i <= end + 1,
            end < arr.len(),
            arr.len() == old(arr).len(),
            sorted_between(arr@, start as int, i as int),
            arr@.to_multiset() == old(arr)@.to_multiset(),
            forall|x: int|
                0 <= x < arr.len() && (x < start || x > end) ==> #[trigger] arr@[x] == old(
                    arr,
                )@[x],
        decreases end + 1 - i,
    {
        let mut j = i;
        while j > start && arr[j - 1] > arr[j]
            invariant
                start <= j <= i <= end < arr.len(),
                arr.len() == old(arr).len(),
                sorted_between(arr@, start as int, j as int),
                sorted_between(arr@, j as int, i + 1),
                forall|a: int, b: int| start <= a < j < b <= i ==> arr@[a] <= arr@[b],
                arr@.to_multiset() == old(arr)@.to_multiset(),
                forall|x: int|
                    0 <= x < arr.len() && (x < start || x > end) ==> #[trigger] arr@[x] == old(
                        arr,
                    )@[x],
            decreases j,
        {
            swap_slots(arr, j - 1, j);
            j -= 1;
        }
        i += 1;
    }
}

/// Sorts `arr[start..=end]` by moving the smallest remaining element to the
/// front of the unsorted part, which then shrinks by one.
pub fn selection_sort(arr: &mut Vec<i64>, start: usize, end: usize)
    requires
        start <= end < old(arr).len(),
    ensures
        sorts_range(old(arr)@, final(arr)@, start as int, end as int),
{
    let mut i = start;
    while i <= end
        invariant
            start <= i <= end + 1,
            end < arr.len(),
            arr.len() == old(arr).len(),
            sorted_between(arr@, start as int, i as int),
            forall|a: int, b: int| start <= a < i <= b <= end ==> arr@[a] <= arr@[b],
            arr@.to_multiset() == old(arr)@.to_multiset(),
            forall|x: int|
                0 <= x < arr.len() && (x < start || x > end) ==> #[trigger] arr@[x] == old(
                    arr,
                )@[x],
        decreases end + 1 - i,
    {
        let mut min_idx = i;
        let mut j = i + 1;
        while j <= end
            invariant
                start <= i <= min_idx < j <= end + 1,
                end < arr.len(),
                forall|b: int| i <= b < j ==> arr@[min_idx as int] <= #[trigger] arr@[b],
            decreases end + 1 - j,
        {
            if arr[min_idx] > arr[j] {
                min_idx = j;
            }
            j += 1;
        }
        swap_slots(arr, i, min_idx);
        i += 1;
    }
}

pub(crate) proof fn lemma_split_multiset(s: Seq<i64>, a: int, b: int, c: int)
    requires
        0 <= a <= b <= c <= s.len(),
    ensures
        s.subrange(a, c).to_multiset() == s.subrange(a, b).to_multiset().add(
            s.subrange(b, c).to_multiset(),
        ),
{
    assert(s.subrange(a, c) =~= s.subrange(a, b) + s.subrange(b, c));
    lemma_multiset_commutative(s.subrange(a, b), s.subrange(b, c));
}

/// Two sequences that agree outside `lo..hi`, and hold the same elements
/// inside it, hold the same elements.
pub(crate) proof fn lemma_window_multiset(s: Seq<i64>, t: Seq<i64>, lo: int, hi: int)
    requires
        0 <= lo <= hi <= s.len(),
        s.len() == t.len(),
        s.subrange(lo, hi).to_multiset() == t.subrange(lo, hi).to_multiset(),
        forall|k: int| 0 <= k < s.len() && (k < lo || k >= hi) ==> #[trigger] s[k] == t[k],
    ensures
        s.to_multiset() == t.to_multiset(),
{
    let n = s.len() as int;
    assert(s.subrange(0, lo) =~= t.subrange(0, lo));
    assert(s.subrange(hi, n) =~= t.subrange(hi, n));
    lemma_split_multiset(s, 0, lo, n);
    lemma_split_multiset(s, lo, hi, n);
    lemma_split_multiset(t, 0, lo, n);
    lemma_split_multiset(t, lo, hi, n);
    assert(s.subrange(0, n) =~= s);
    assert(t.subrange(0, n) =~= t);
}

/// Merges the sorted runs `arr[start..=mid]` and `arr[mid+1..=end]` into one
/// sorted run over `arr[start..=end]`.
fn merge(arr: &mut Vec<i64>, start: usize, mid: usize, end: usize)
    requires
        start <= mid <= end < old(arr).len(),
        sorted_between(old(arr)@, start as int, mid + 1),
        sorted_between(old(arr)@, mid + 1, end + 1),
    ensures
        sorts_range(old(arr)@, final(arr)@, start as int, end as int),
{
    let ghost s = arr@;
    let mut temp: Vec<i64> = Vec::new();
    let mut idx1 = start;
    let mut idx2 = mid + 1;
    while idx1 <= mid || idx2 <= end
        invariant
            arr@ == s,
            arr.len() == s.len(),
            start <= idx1 <= mid + 1,
            mid + 1 <= idx2 <= end + 1,
            end < s.len(),
            sorted_between(s, start as int, mid + 1),
            sorted_between(s, mid + 1, end + 1),
            temp@.len() == (idx1 - start) + (idx2 - mid - 1),
            temp@.to_multiset() == s.subrange(start as int, idx1 as int).to_multiset().add(
                s.subrange(mid + 1, idx2 as int).to_multiset(),
            ),
            sorted(temp@),
            temp@.len() > 0 && idx1 <= mid ==> temp@.last() <= s[idx1 as int],
            temp@.len() > 0 && idx2 <= end ==> temp@.last() <= s[idx2 as int],
        decreases (mid + 1 - idx1) + (end + 1 - idx2),
    {
        if idx2 > end || (idx1 <= mid && arr[idx1] <= arr[idx2]) {
            proof {
                assert(s.subrange(start as int, idx1 + 1) =~= s.subrange(
                    start as int,
                    idx1 as int,
                ).push(s[idx1 as int]));
            }
            temp.push(arr[idx1]);
            idx1 += 1;
        } else {
            proof {
                assert(s.subrange(mid + 1, idx2 + 1) =~= s.subrange(mid + 1, idx2 as int).push(
                    s[idx2 as int],
                ));
            }
            temp.push(arr[idx2]);
            idx2 += 1;
        }
    }
    proof {
        lemma_split_multiset(s, start as int, mid + 1, end + 1);
    }
    let mut i = start;
    while i <= end
        invariant
            start <= i <= end + 1,
            end < s.len(),
            arr.len() == s.len(),
            temp@.len() == end + 1 - start,
            forall|k: int| start <= k < i ==> #[trigger] arr@[k] == temp@[k - start],
            forall|k: int| 0 <= k < s.len() && (k < start || k >= i) ==> #[trigger] arr@[k] == s[k],
        decreases end + 1 - i,
    {
        arr.set(i, temp[i - start]);
        i += 1;
    }
    proof {
        assert(arr@.subrange(start as int, end + 1) =~= temp@);
        lemma_window_multiset(arr@, s, start as int, end + 1);
    }
}

/// Sorts `arr[start..=end]` by sorting each half and merging the two.
pub fn merge_sort(arr: &mut Vec<i64>, start: usize, end: usize)
    requires
        start <= end < old(arr).len(),
    ensures
        sorts_range(old(arr)@, final(arr)@, start as int, end as int),
    decreases end - start,
{
    if start < end {
        let mid = start + (end - start) / 2;
        merge_sort(arr, start, mid);
        let ghost a1 = arr@;
        merge_sort(arr, mid + 1, end);
        assert(sorted_between(arr@, start as int, mid + 1)) by {
            assert forall|i: int, j: int| start <= i < j < mid + 1 implies arr@[i] <= arr@[j] by {
                assert(arr@[i] == a1[i]);
                assert(arr@[j] == a1[j]);
            }
        }
        merge(arr, start, mid, end);
    }
}

} // verus!
