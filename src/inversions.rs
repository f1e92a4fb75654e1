use vstd::prelude::*;

use crate::sorting::{lemma_split_multiset, lemma_window_multiset, sorted, sorted_between, sorts_range};

verus! {

broadcast use vstd::seq_lib::group_to_multiset_ensures, vstd::multiset::group_multiset_properties;

/// Number of elements of `s` greater than `x`.
pub open spec fn count_greater(s: Seq<i64>, x: i64) -> nat
    decreases s.len(),
{
    if s.len() == 0 {
        0
    } else {
        count_greater(s.drop_last(), x) + if s.last() > x {
            1nat
        } else {
            0nat
        }
    }
}

/// Number of pairs of an element of `a` and an element of `b` where the one
/// from `a` is greater.
pub open spec fn cross(a: Seq<i64>, b: Seq<i64>) -> nat
    decreases b.len(),
{
    if b.len() == 0 {
        0
    } else {
        cross(a, b.drop_last()) + count_greater(a, b.last())
    }
}

/// Number of inversions of `s`: pairs of positions `i < j` with `s[i] > s[j]`.
pub open spec fn inversions(s: Seq<i64>) -> nat
    decreases s.len(),
{
    if s.len() == 0 {
        0
    } else {
        inversions(s.drop_last()) + count_greater(s.drop_last(), s.last())
    }
}

proof fn lemma_count_greater_split(a: Seq<i64>, b: Seq<i64>, x: i64)
    ensures
        count_greater(a + b, x) == count_greater(a, x) + count_greater(b, x),
    decreases b.len(),
{
    if b.len() == 0 {
        assert(a + b =~= a);
    } else {
        assert((a + b).drop_last() =~= a + b.drop_last());
        lemma_count_greater_split(a, b.drop_last(), x);
    }
}

proof fn lemma_cross_split(a: Seq<i64>, b: Seq<i64>, c: Seq<i64>)
    ensures
        cross(a, b + c) == cross(a, b) + cross(a, c),
    decreases c.len(),
{
    if c.len() == 0 {
        assert(b + c =~= b);
    } else {
        assert((b + c).drop_last() =~= b + c.drop_last());
        lemma_cross_split(a, b, c.drop_last());
    }
}

/// Takes the element at `i` out of `t`, as a split into three parts.
proof fn lemma_take_out(t: Seq<i64>, i: int)
    requires
        0 <= i < t.len(),
    ensures
        t =~= t.subrange(0, i) + seq![t[i]] + t.subrange(i + 1, t.len() as int),
        t.remove(i) =~= t.subrange(0, i) + t.subrange(i + 1, t.len() as int),
{
}

proof fn lemma_count_greater_perm(s: Seq<i64>, t: Seq<i64>, x: i64)
    requires
        s.to_multiset() == t.to_multiset(),
    ensures
        count_greater(s, x) == count_greater(t, x),
    decreases s.len(),
{
    if s.len() == 0 {
        assert(s.to_multiset().len() == 0);
        assert(t.to_multiset().len() == t.len());
    } else {
        let l = s.last();
        let s1 = s.drop_last();
        assert(s =~= s1.push(l));
        assert(t.to_multiset().count(l) > 0);
        assert(t.contains(l));
        let i = choose|i: int| 0 <= i < t.len() && t[i] == l;
        let t1 = t.remove(i);
        assert(t1.to_multiset() =~= s1.to_multiset());
        lemma_count_greater_perm(s1, t1, x);
        lemma_take_out(t, i);
        let p = t.subrange(0, i);
        let q = t.subrange(i + 1, t.len() as int);
        lemma_count_greater_split(p + seq![l], q, x);
        lemma_count_greater_split(p, seq![l], x);
        lemma_count_greater_split(p, q, x);
        assert(seq![l].drop_last() =~= Seq::<i64>::empty());
        assert(count_greater(Seq::<i64>::empty(), x) == 0);
        assert(count_greater(seq![l], x) == count_greater(seq![l].drop_last(), x) + if l > x {
            1nat
        } else {
            0nat
        });
        assert(count_greater(t, x) == count_greater(p + seq![l] + q, x));
        assert(count_greater(t1, x) == count_greater(p + q, x));
    }
}

proof fn lemma_cross_perm_left(a: Seq<i64>, a2: Seq<i64>, b: Seq<i64>)
    requires
        a.to_multiset() == a2.to_multiset(),
    ensures
        cross(a, b) == cross(a2, b),
    decreases b.len(),
{
    if b.len() > 0 {
        lemma_cross_perm_left(a, a2, b.drop_last());
        lemma_count_greater_perm(a, a2, b.last());
    }
}

proof fn lemma_cross_perm_right(a: Seq<i64>, b: Seq<i64>, b2: Seq<i64>)
    requires
        b.to_multiset() == b2.to_multiset(),
    ensures
        cross(a, b) == cross(a, b2),
    decreases b.len(),
{
    if b.len() == 0 {
        assert(b.to_multiset().len() == 0);
        assert(b2.to_multiset().len() == b2.len());
    } else {
        let l = b.last();
        let b1 = b.drop_last();
        assert(b =~= b1.push(l));
        assert(b2.to_multiset().count(l) > 0);
        assert(b2.contains(l));
        let i = choose|i: int| 0 <= i < b2.len() && b2[i] == l;
        let c1 = b2.remove(i);
        assert(c1.to_multiset() =~= b1.to_multiset());
        lemma_cross_perm_right(a, b1, c1);
        lemma_take_out(b2, i);
        let p = b2.subrange(0, i);
        let q = b2.subrange(i + 1, b2.len() as int);
        lemma_cross_split(a, p + seq![l], q);
        lemma_cross_split(a, p, seq![l]);
        lemma_cross_split(a, p, q);
        assert(seq![l].drop_last() =~= Seq::<i64>::empty());
        assert(cross(a, Seq::<i64>::empty()) == 0);
        assert(cross(a, seq![l]) == cross(a, seq![l].drop_last()) + count_greater(a, l));
        assert(cross(a, b2) == cross(a, p + seq![l] + q));
        assert(cross(a, c1) == cross(a, p + q));
    }
}

proof fn lemma_inversions_split(a: Seq<i64>, b: Seq<i64>)
    ensures
        inversions(a + b) == inversions(a) + inversions(b) + cross(a, b),
    decreases b.len(),
{
    if b.len() == 0 {
        assert(a + b =~= a);
    } else {
        let b1 = b.drop_last();
        assert((a + b).drop_last() =~= a + b1);
        assert((a + b).last() == b.last());
        lemma_inversions_split(a, b1);
        lemma_count_greater_split(a, b1, b.last());
    }
}

/// In a sorted `s` whose first `k` elements are at most `x` and the rest greater,
/// exactly the rest are greater than `x`.
proof fn lemma_count_greater_threshold(s: Seq<i64>, x: i64, k: int)
    requires
        0 <= k <= s.len(),
        forall|i: int| 0 <= i < k ==> #[trigger] s[i] <= x,
        forall|i: int| k <= i < s.len() ==> #[trigger] s[i] > x,
    ensures
        count_greater(s, x) == s.len() - k,
    decreases s.len(),
{
    if s.len() > 0 {
        if k == s.len() {
            lemma_count_greater_threshold(s.drop_last(), x, k - 1);
        } else {
            lemma_count_greater_threshold(s.drop_last(), x, k);
        }
    }
}

/// Two sequences with the same elements that agree outside `lo..hi` hold the
/// same elements inside it.
proof fn lemma_window_multiset_inner(s: Seq<i64>, t: Seq<i64>, lo: int, hi: int)
    requires
        0 <= lo <= hi <= s.len(),
        s.len() == t.len(),
        s.to_multiset() == t.to_multiset(),
        forall|k: int| 0 <= k < s.len() && (k < lo || k >= hi) ==> #[trigger] s[k] == t[k],
    ensures
        s.subrange(lo, hi).to_multiset() == t.subrange(lo, hi).to_multiset(),
{
    let n = s.len() as int;
    assert(s.subrange(0, lo) =~= t.subrange(0, lo));
    assert(s.subrange(hi, n) =~= t.subrange(hi, n));
    lemma_split_multiset(s, 0, lo, n);
    lemma_split_multiset(s, lo, hi, n);
    lemma_split_multiset(t, 0, lo, n);
    lemma_split_multiset(t, lo, hi, n);
    assert(s.subrange(0, n) =~= s);
    assert(t.subrange(0, n) =~= t);
    assert forall|x: i64|
        #[trigger] s.subrange(lo, hi).to_multiset().count(x) == t.subrange(
            lo,
            hi,
        ).to_multiset().count(x) by {
        broadcast use vstd::multiset::group_multiset_axioms;

        assert(s.to_multiset().count(x) == t.to_multiset().count(x));
        assert(s.subrange(0, n).to_multiset().count(x) == s.subrange(0, lo).to_multiset().count(x)
            + s.subrange(lo, n).to_multiset().count(x));
        assert(s.subrange(lo, n).to_multiset().count(x) == s.subrange(lo, hi).to_multiset().count(
            x,
        ) + s.subrange(hi, n).to_multiset().count(x));
        assert(t.subrange(0, n).to_multiset().count(x) == t.subrange(0, lo).to_multiset().count(x)
            + t.subrange(lo, n).to_multiset().count(x));
        assert(t.subrange(lo, n).to_multiset().count(x) == t.subrange(lo, hi).to_multiset().count(
            x,
        ) + t.subrange(hi, n).to_multiset().count(x));
    }
    assert(s.subrange(lo, hi).to_multiset() =~= t.subrange(lo, hi).to_multiset());
}

/// Merges the sorted runs `arr[start..=mid]` and `arr[mid+1..=end]` into one
/// sorted run, and returns how many pairs of an element of the first run and
/// one of the second have the first greater.
fn merge(arr: &mut [i64], start: usize, mid: usize, end: usize) -> (r: usize)
    requires
        start <= mid <= end < old(arr)@.len(),
        sorted_between(old(arr)@, start as int, mid + 1),
        sorted_between(old(arr)@, mid + 1, end + 1),
        cross(old(arr)@.subrange(start as int, mid + 1), old(arr)@.subrange(mid + 1, end + 1))
            <= usize::MAX,
    ensures
        sorts_range(old(arr)@, final(arr)@, start as int, end as int),
        r == cross(old(arr)@.subrange(start as int, mid + 1), old(arr)@.subrange(mid + 1, end + 1)),
{
    let ghost s = arr@;
    let ghost left = s.subrange(start as int, mid + 1);
    let ghost right = s.subrange(mid + 1, end + 1);
    let mut temp: Vec<i64> = Vec::new();
    let mut count: usize = 0;
    assert(end < arr.len());
    let mut idx1 = start;
    let mut idx2 = mid + 1;
    while idx1 <= mid || idx2 <= end
        invariant
            arr@ == s,
            arr@.len() == s.len(),
            left == s.subrange(start as int, mid + 1),
            right == s.subrange(mid + 1, end + 1),
            cross(left, right) <= usize::MAX,
            start <= idx1 <= mid + 1,
            mid + 1 <= idx2 <= end + 1,
            end < s.len(),
            sorted_between(s, start as int, mid + 1),
            sorted_between(s, mid + 1, end + 1),
            temp@.len() == (idx1 - start) + (idx2 - mid - 1),
            temp@.to_multiset() == s.subrange(start as int, idx1 as int).to_multiset().add(
                s.subrange(mid + 1, idx2 as int).to_multiset(),
            ),
            sorted(temp@),
            temp@.len() > 0 && idx1 <= mid ==> temp@.last() <= s[idx1 as int],
            temp@.len() > 0 && idx2 <= end ==> temp@.last() <= s[idx2 as int],
            idx2 <= end ==> forall|a: int| start <= a < idx1 ==> #[trigger] s[a] <= s[idx2 as int],
            count == cross(left, s.subrange(mid + 1, idx2 as int)),
        decreases (mid + 1 - idx1) + (end + 1 - idx2),
    {
        if idx2 > end || (idx1 <= mid && arr[idx1] <= arr[idx2]) {
            proof {
                assert(s.subrange(start as int, idx1 + 1) =~= s.subrange(
                    start as int,
                    idx1 as int,
                ).push(s[idx1 as int]));
            }
            temp.push(arr[idx1]);
            idx1 += 1;
        } else {
            proof {
                let done = s.subrange(mid + 1, idx2 + 1);
                assert(done =~= s.subrange(mid + 1, idx2 as int).push(s[idx2 as int]));
                assert(done.drop_last() =~= s.subrange(mid + 1, idx2 as int));
                lemma_count_greater_threshold(left, s[idx2 as int], idx1 - start);
                assert(right =~= done + s.subrange(idx2 + 1, end + 1));
                lemma_cross_split(left, done, s.subrange(idx2 + 1, end + 1));
            }
            temp.push(arr[idx2]);
            count = count + (mid + 1 - idx1);
            idx2 += 1;
        }
    }
    proof {
        lemma_split_multiset(s, start as int, mid + 1, end + 1);
        assert(s.subrange(mid + 1, idx2 as int) =~= right);
    }
    let mut i = start;
    while i <= end
        invariant
            start <= i <= end + 1,
            end < s.len(),
            arr@.len() == s.len(),
            temp@.len() == end + 1 - start,
            forall|k: int| start <= k < i ==> #[trigger] arr@[k] == temp@[k - start],
            forall|k: int| 0 <= k < s.len() && (k < start || k >= i) ==> #[trigger] arr@[k] == s[k],
        decreases end + 1 - i,
    {
        arr[i] = temp[i - start];
        i += 1;
    }
    proof {
        assert(arr@.subrange(start as int, end + 1) =~= temp@);
        lemma_window_multiset(arr@, s, start as int, end + 1);
    }
    count
}

/// Sorts `arr[start..=end]` by merging sorted halves, and returns the number
/// of inversions that the range had.
pub fn merge_inversion_count(arr: &mut [i64], start: usize, end: usize) -> (r: usize)
    requires
        start <= end < old(arr)@.len(),
        inversions(old(arr)@.subrange(start as int, end + 1)) <= usize::MAX,
    ensures
        sorts_range(old(arr)@, final(arr)@, start as int, end as int),
        r == inversions(old(arr)@.subrange(start as int, end + 1)),
    decreases end - start,
{
    let ghost s0 = arr@;
    if start == end {
        proof {
            let one = s0.subrange(start as int, end + 1);
            assert(one.drop_last() =~= Seq::<i64>::empty());
            assert(inversions(Seq::<i64>::empty()) == 0);
            assert(count_greater(Seq::<i64>::empty(), one.last()) == 0);
        }
        return 0;
    }
    let mid = start + (end - start) / 2;
    let ghost l0 = s0.subrange(start as int, mid + 1);
    let ghost r0 = s0.subrange(mid + 1, end + 1);
    proof {
        assert(s0.subrange(start as int, end + 1) =~= l0 + r0);
        lemma_inversions_split(l0, r0);
    }
    let a = merge_inversion_count(arr, start, mid);
    let ghost s1 = arr@;
    proof {
        assert(s1.subrange(mid + 1, end + 1) =~= r0);
    }
    let b = merge_inversion_count(arr, mid + 1, end);
    let ghost s2 = arr@;
    proof {
        let l2 = s2.subrange(start as int, mid + 1);
        let r2 = s2.subrange(mid + 1, end + 1);
        assert(l2 =~= s1.subrange(start as int, mid + 1));
        lemma_window_multiset_inner(s1, s0, start as int, mid + 1);
        lemma_window_multiset_inner(s2, s1, mid + 1, end + 1);
        lemma_cross_perm_left(l0, l2, r0);
        lemma_cross_perm_right(l2, r0, r2);
        assert forall|i: int, j: int| start <= i < j < mid + 1 implies s2[i] <= s2[j] by {
            assert(s2[i] == s1[i]);
            assert(s2[j] == s1[j]);
        }
    }
    let c = merge(arr, start, mid, end);
    a + b + c
}

} // verus!
