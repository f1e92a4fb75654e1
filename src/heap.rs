use vstd::prelude::*;
use vstd::multiset::Multiset;
use vstd::seq_lib::to_multiset_update;

verus! {

broadcast use vstd::seq_lib::group_to_multiset_ensures, vstd::multiset::group_multiset_properties;

/// Index of the parent of node `i` (for `i > 0`).
pub open spec fn parent_of(i: int) -> int {
    (i - 1) / 2
}

/// Whether `a` may stand above `b`: `a >= b` in a max-heap, `a <= b` in a min-heap.
pub open spec fn dominates(max: bool, a: i64, b: i64) -> bool {
    if max {
        a >= b
    } else {
        a <= b
    }
}

/// Every node `i` in `1..n` whose parent is at index `lo` or beyond is dominated
/// by that parent; with `lo == 0` this is the heap property over the first `n` slots.
pub open spec fn heap_from(s: Seq<i64>, n: int, max: bool, lo: int) -> bool {
    forall|i: int|
        1 <= i < n && parent_of(i) >= lo ==> #[trigger] dominates(max, s[parent_of(i)], s[i])
}

/// The heap property over the first `n` slots of `s`.
pub open spec fn is_heap(s: Seq<i64>, n: int, max: bool) -> bool {
    heap_from(s, n, max, 0)
}

/// The max-heap property over the first `n` slots of `s`.
pub open spec fn is_max_heap(s: Seq<i64>, n: int) -> bool {
    is_heap(s, n, true)
}

/// The min-heap property over the first `n` slots of `s`.
pub open spec fn is_min_heap(s: Seq<i64>, n: int) -> bool {
    is_heap(s, n, false)
}

/// Node `j` lies in the subtree under node `i`, strictly below it.
pub open spec fn below(j: int, i: int) -> bool
    decreases j,
{
    if j <= 0 || j <= i {
        false
    } else {
        parent_of(j) == i || below(parent_of(j), i)
    }
}

/// Node `k` lies on the path from node `i` up to the root.
pub open spec fn on_path(k: int, i: int) -> bool
    decreases i,
{
    if i <= 0 {
        k == i
    } else {
        k == i || on_path(k, parent_of(i))
    }
}

/// Every node strictly below `i` whose parent is not `i` is dominated by its
/// parent: the subtrees under the children of `i` are heaps.
pub open spec fn subtrees_are_heaps(s: Seq<i64>, n: int, max: bool, i: int) -> bool {
    forall|j: int|
        0 <= j < n && below(j, i) && parent_of(j) != i ==> #[trigger] dominates(
            max,
            s[parent_of(j)],
            s[j],
        )
}

/// Every node strictly below `i` is dominated by its parent: `i` heads a heap.
pub open spec fn heads_heap(s: Seq<i64>, n: int, max: bool, i: int) -> bool {
    forall|j: int| 0 <= j < n && below(j, i) ==> #[trigger] dominates(max, s[parent_of(j)], s[j])
}

/// Of `pos` and its children within the first `n` slots, the one that must
/// stand above the others (`pos` itself on a tie; the left child before the right).
pub open spec fn best_child(s: Seq<i64>, n: int, max: bool, pos: int) -> int {
    let l = 2 * pos + 1;
    let r = 2 * pos + 2;
    let b = if l < n && !dominates(max, s[pos], s[l]) {
        l
    } else {
        pos
    };
    if r < n && !dominates(max, s[b], s[r]) {
        r
    } else {
        b
    }
}

/// The result of sifting the element at `pos` down within the first `n` slots:
/// swap it with the child that must stand above it, and go on from there.
pub open spec fn sift_down_seq(s: Seq<i64>, n: int, max: bool, pos: int) -> Seq<i64>
    decreases n - pos,
{
    if 0 <= pos < n {
        let b = best_child(s, n, max, pos);
        if b == pos {
            s
        } else {
            sift_down_seq(swapped(s, pos, b), n, max, b)
        }
    } else {
        s
    }
}

/// The result of building a heap over the first `n` slots by sifting down each
/// node below `i`, from `i - 1` back to the root.
pub open spec fn build_seq(s: Seq<i64>, n: int, max: bool, i: int) -> Seq<i64>
    decreases i,
{
    if i <= 0 {
        s
    } else {
        build_seq(sift_down_seq(s, n, max, i - 1), n, max, i - 1)
    }
}

/// The result of sifting the element at `pos` up: swap it with its parent
/// while the parent does not dominate it.
pub open spec fn sift_up_seq(s: Seq<i64>, max: bool, pos: int) -> Seq<i64>
    decreases pos,
{
    if 0 < pos < s.len() && !dominates(max, s[parent_of(pos)], s[pos]) {
        sift_up_seq(swapped(s, pos, parent_of(pos)), max, parent_of(pos))
    } else {
        s
    }
}

/// The result of removing the element at `idx` from a heap `s` that fills its
/// buffer: the last element takes its slot and is sifted down or up.
pub open spec fn remove_seq(s: Seq<i64>, max: bool, idx: int) -> Seq<i64> {
    let last = s.len() - 1;
    let t = swapped(s, idx, last);
    if idx == last {
        t.drop_last()
    } else if !dominates(max, s[last], s[idx]) {
        sift_down_seq(t, last, max, idx).drop_last()
    } else {
        sift_up_seq(t, max, idx).drop_last()
    }
}

proof fn lemma_on_path_parent(k: int, i: int)
    requires
        on_path(k, i),
        k > 0,
    ensures
        on_path(parent_of(k), i),
    decreases i,
{
    if k != i {
        lemma_on_path_parent(k, parent_of(i));
    } else {
        assert(on_path(parent_of(i), parent_of(i)));
    }
}

/// On a heap, sifting down moves nothing.
proof fn lemma_sift_down_on_heap(s: Seq<i64>, n: int, max: bool, i: int)
    requires
        is_heap(s, n, max),
        0 <= i,
    ensures
        sift_down_seq(s, n, max, i) == s,
{
    if i < n {
        let l = 2 * i + 1;
        let r = 2 * i + 2;
        assert(parent_of(l) == i);
        assert(parent_of(r) == i);
        if l < n {
            assert(dominates(max, s[parent_of(l)], s[l]));
        }
        if r < n {
            assert(dominates(max, s[parent_of(r)], s[r]));
        }
        assert(best_child(s, n, max, i) == i);
    }
}

/// On a heap, building moves nothing.
proof fn lemma_build_on_heap(s: Seq<i64>, n: int, max: bool, i: int)
    requires
        is_heap(s, n, max),
    ensures
        build_seq(s, n, max, i) == s,
    decreases i,
{
    if i > 0 {
        lemma_sift_down_on_heap(s, n, max, i - 1);
        lemma_build_on_heap(s, n, max, i - 1);
    }
}

/// The state during a sift-up at `pos`: the property holds everywhere but
/// between `pos` and its parent, and the parent of `pos` dominates the children of `pos`.
pub open spec fn sift_up_ready(s: Seq<i64>, n: int, max: bool, pos: int) -> bool {
    &&& forall|i: int|
        1 <= i < n && i != pos ==> #[trigger] dominates(max, s[parent_of(i)], s[i])
    &&& forall|i: int|
        1 <= i < n && parent_of(i) == pos && pos >= 1 ==> dominates(
            max,
            s[parent_of(pos)],
            #[trigger] s[i],
        )
}

/// `s` with the elements at `i` and `j` exchanged.
pub open spec fn swapped(s: Seq<i64>, i: int, j: int) -> Seq<i64> {
    s.update(i, s[j]).update(j, s[i])
}

/// The multiset of the first `n` slots of `s`: what a heap of size `n` holds.
pub open spec fn heap_elems(s: Seq<i64>, n: int) -> Multiset<i64> {
    s.subrange(0, n).to_multiset()
}

/// `true` when `a` must go above `b`: `a > b` in a max-heap, `a < b` in a min-heap.
fn prefers(max: bool, a: i64, b: i64) -> (r: bool)
    ensures
        r == !dominates(max, b, a),
{
    if max {
        a > b
    } else {
        a < b
    }
}

proof fn lemma_swap_heap_elems(s: Seq<i64>, n: int, i: int, j: int)
    requires
        0 <= i < n,
        0 <= j < n,
        n <= s.len(),
    ensures
        heap_elems(swapped(s, i, j), n) == heap_elems(s, n),
{
    assert(swapped(s, i, j).subrange(0, n) =~= swapped(s.subrange(0, n), i, j));
    lemma_swap_multiset(s.subrange(0, n), i, j);
}

pub(crate) proof fn lemma_swap_multiset(s: Seq<i64>, i: int, j: int)
    requires
        0 <= i < s.len(),
        0 <= j < s.len(),
    ensures
        swapped(s, i, j).to_multiset() == s.to_multiset(),
{
    let t = s.update(i, s[j]);
    to_multiset_update(s, i, s[j]);
    to_multiset_update(t, j, s[i]);
    assert(swapped(s, i, j).to_multiset() =~= s.to_multiset());
}

proof fn lemma_root_dominates_one(s: Seq<i64>, n: int, max: bool, k: int)
    requires
        is_heap(s, n, max),
        n <= s.len(),
        0 <= k < n,
    ensures
        dominates(max, s[0], s[k]),
    decreases k,
{
    if k > 0 {
        let p = parent_of(k);
        lemma_root_dominates_one(s, n, max, p);
        assert(dominates(max, s[parent_of(k)], s[k]));
    }
}

/// The root of a heap dominates every element of it: in a max-heap it is the
/// largest, in a min-heap the smallest.
pub proof fn lemma_root_dominates(s: Seq<i64>, n: int, max: bool)
    requires
        is_heap(s, n, max),
        n <= s.len(),
    ensures
        forall|k: int| 0 <= k < n ==> dominates(max, s[0], #[trigger] s[k]),
{
    assert forall|k: int| 0 <= k < n implies dominates(max, s[0], #[trigger] s[k]) by {
        lemma_root_dominates_one(s, n, max, k);
    }
}

/// After the last element of a heap replaces a slot `idx` whose element
/// strictly dominated it, the subtrees under `idx` are still heaps.
proof fn lemma_removal_sift_down_ready(s: Seq<i64>, n: int, max: bool, idx: int)
    requires
        is_heap(s, n, max),
        n <= s.len(),
        0 <= idx < n - 1,
    ensures
        subtrees_are_heaps(swapped(s, idx, n - 1), n - 1, max, idx),
{
    let last = n - 1;
    let t = swapped(s, idx, last);
    assert forall|j: int|
        0 <= j < last && below(j, idx) && parent_of(j) != idx implies #[trigger] dominates(
        max,
        t[parent_of(j)],
        t[j],
    ) by {
        assert(dominates(max, s[parent_of(j)], s[j]));
    }
}

/// Once the replacement has been sifted down within the subtree under `idx`,
/// the whole heap is a heap again.
proof fn lemma_removal_sift_down_done(s: Seq<i64>, u: Seq<i64>, n: int, max: bool, idx: int)
    requires
        is_heap(s, n, max),
        n <= s.len(),
        0 <= idx < n - 1,
        !dominates(max, s[n - 1], s[idx]),
        heads_heap(u, n - 1, max, idx),
        u.len() == s.len(),
        u[idx] == swapped(s, idx, n - 1)[best_child(swapped(s, idx, n - 1), n - 1, max, idx)],
        forall|k: int|
            0 <= k < s.len() && ((k != idx && !below(k, idx)) || k >= n - 1) ==> #[trigger] u[k]
                == swapped(s, idx, n - 1)[k],
    ensures
        is_heap(u, n - 1, max),
{
    let last = n - 1;
    let t = swapped(s, idx, last);
    let b = best_child(t, last, max, idx);
    if idx > 0 {
        let p = parent_of(idx);
        assert(!below(p, idx));
        assert(dominates(max, s[p], s[idx]));
        if b != idx {
            assert(parent_of(b) == idx);
            assert(dominates(max, s[parent_of(b)], s[b]));
        }
        assert(dominates(max, u[p], u[idx]));
    }
    assert forall|j: int| 1 <= j < last && parent_of(j) >= 0 implies #[trigger] dominates(
        max,
        u[parent_of(j)],
        u[j],
    ) by {
        if below(j, idx) {
        } else if j != idx {
            assert(parent_of(j) != idx);
            assert(!below(parent_of(j), idx));
            assert(dominates(max, s[parent_of(j)], s[j]));
        }
    }
}

/// After the last element of a heap replaces a slot `idx` whose element did
/// not strictly dominate it, only a sift-up at `idx` remains to be done.
proof fn lemma_removal_sift_up_ready(s: Seq<i64>, n: int, max: bool, idx: int)
    requires
        is_heap(s, n, max),
        n <= s.len(),
        0 <= idx < n - 1,
        dominates(max, s[n - 1], s[idx]),
    ensures
        sift_up_ready(swapped(s, idx, n - 1), n - 1, max, idx),
{
    let last = n - 1;
    let t = swapped(s, idx, last);
    assert(idx > 0 ==> dominates(max, s[parent_of(idx)], s[idx]));
    assert forall|i: int| 1 <= i < last && parent_of(i) == idx implies dominates(
        max,
        s[idx],
        #[trigger] s[i],
    ) by {
        assert(dominates(max, s[parent_of(i)], s[i]));
    }
    assert forall|i: int| 1 <= i < last && i != idx implies #[trigger] dominates(
        max,
        t[parent_of(i)],
        t[i],
    ) by {
        assert(dominates(max, s[parent_of(i)], s[i]));
    }
}

/// A binary heap over a buffer that it owns. The first `heap_size` slots of
/// `arr` are the heap; `left(i) = 2i + 1`, `right(i) = 2i + 2`.
#[derive(Debug)]
pub struct Heap {
    pub arr: Vec<i64>,
    pub heap_size: usize,
}

impl Heap {
    /// The heap's slots never run past the buffer.
    pub open spec fn wf(&self) -> bool {
        self.heap_size <= self.arr.len()
    }

    /// Wraps `arr`; every element of it is part of the heap.
    pub fn new(arr: Vec<i64>) -> (r: Heap)
        ensures
            r.arr@ == arr@,
            r.heap_size == arr.len(),
            r.wf(),
    {
        let n = arr.len();
        Heap { arr, heap_size: n }
    }

    /// Hands the buffer back.
    pub fn into_vec(self) -> (r: Vec<i64>)
        ensures
            r@ == self.arr@,
    {
        self.arr
    }

    /// Length of the whole buffer (not only of the heap part).
    pub fn len(&self) -> (r: usize)
        ensures
            r == self.arr.len(),
    {
        self.arr.len()
    }

    /// Parent of a node of the heap other than the root.
    pub fn parent(&self, idx: usize) -> (r: usize)
        requires
            0 < idx < self.heap_size,
        ensures
            r == parent_of(idx as int),
            r < idx,
    {
        (idx - 1) / 2
    }

    /// Left child of `idx`, if it lies within the heap.
    pub fn left(&self, idx: usize) -> (r: Option<usize>)
        requires
            idx < self.heap_size,
        ensures
            r == (if 2 * idx + 1 < self.heap_size {
                Some((2 * idx + 1) as usize)
            } else {
                None::<usize>
            }),
    {
        if idx < self.heap_size / 2 {
            Some(2 * idx + 1)
        } else {
            None
        }
    }

    /// Right child of `idx`, if it lies within the heap.
    pub fn right(&self, idx: usize) -> (r: Option<usize>)
        requires
            idx < self.heap_size,
        ensures
            r == (if 2 * idx + 2 < self.heap_size {
                Some((2 * idx + 2) as usize)
            } else {
                None::<usize>
            }),
    {
        if idx < (self.heap_size - 1) / 2 {
            Some(2 * idx + 2)
        } else {
            None
        }
    }

    /// Exchanges two elements of the heap.
    pub fn exchange(&mut self, idx1: usize, idx2: usize)
        requires
            idx1 < old(self).heap_size,
            idx2 < old(self).heap_size,
            old(self).wf(),
        ensures
            final(self).arr@ == swapped(old(self).arr@, idx1 as int, idx2 as int),
            final(self).heap_size == old(self).heap_size,
            final(self).wf(),
    {
        let a = self.arr[idx1];
        let b = self.arr[idx2];
        self.arr.set(idx1, b);
        self.arr.set(idx2, a);
    }

    /// Moves the element at `idx` down until neither of its children must go
    /// above it.
    fn sift_down(&mut self, idx: usize, max: bool)
        requires
            old(self).wf(),
            idx < old(self).heap_size,
            subtrees_are_heaps(old(self).arr@, old(self).heap_size as int, max, idx as int),
        ensures
            final(self).wf(),
            final(self).heap_size == old(self).heap_size,
            final(self).arr.len() == old(self).arr.len(),
            final(self).arr@ == sift_down_seq(
                old(self).arr@,
                old(self).heap_size as int,
                max,
                idx as int,
            ),
            heads_heap(final(self).arr@, final(self).heap_size as int, max, idx as int),
            heap_elems(final(self).arr@, final(self).heap_size as int) == heap_elems(
                old(self).arr@,
                old(self).heap_size as int,
            ),
            final(self).arr@[idx as int] == old(self).arr@[best_child(
                old(self).arr@,
                old(self).heap_size as int,
                max,
                idx as int,
            )],
            forall|k: int|
                0 <= k < old(self).arr.len() && ((k != idx && !below(k, idx as int)) || k
                    >= old(self).heap_size) ==> #[trigger] final(self).arr@[k] == old(self).arr@[k],
    {
        let n = self.heap_size;
        let ghost s0 = self.arr@;
        let ghost b0 = best_child(s0, n as int, max, idx as int);
        let mut pos = idx;
        loop
            invariant
                self.wf(),
                self.heap_size == n,
                n == old(self).heap_size,
                s0 == old(self).arr@,
                b0 == best_child(s0, n as int, max, idx as int),
                self.arr.len() == old(self).arr.len(),
                idx <= pos < n,
                pos == idx || below(pos as int, idx as int),
                pos == idx ==> self.arr@ == s0,
                pos != idx ==> self.arr@[idx as int] == s0[b0],
                sift_down_seq(self.arr@, n as int, max, pos as int) == sift_down_seq(
                    s0,
                    n as int,
                    max,
                    idx as int,
                ),
                forall|j: int|
                    0 <= j < n && below(j, idx as int) && parent_of(j) != pos ==> #[trigger] dominates(
                        max,
                        self.arr@[parent_of(j)],
                        self.arr@[j],
                    ),
                pos != idx ==> forall|c: int|
                    0 <= c < n && parent_of(c) == pos ==> dominates(
                        max,
                        self.arr@[parent_of(pos as int)],
                        #[trigger] self.arr@[c],
                    ),
                heap_elems(self.arr@, n as int) == heap_elems(s0, n as int),
                forall|k: int|
                    0 <= k < s0.len() && ((k != idx && !below(k, idx as int)) || k >= n)
                        ==> #[trigger] self.arr@[k] == s0[k],
            decreases n - pos,
        {
            let ghost s = self.arr@;
            let mut best = pos;
            match self.left(pos) {
                Some(l) => {
                    if prefers(max, self.arr[l], self.arr[best]) {
                        best = l;
                    }
                },
                None => {},
            }
            match self.right(pos) {
                Some(r) => {
                    if prefers(max, self.arr[r], self.arr[best]) {
                        best = r;
                    }
                },
                None => {},
            }
            assert(best == best_child(s, n as int, max, pos as int));
            if best == pos {
                assert forall|j: int| 0 <= j < n && below(j, idx as int) implies #[trigger] dominates(
                    max,
                    s[parent_of(j)],
                    s[j],
                ) by {
                    if parent_of(j) == pos {
                        assert(j == 2 * pos + 1 || j == 2 * pos + 2);
                    }
                }
                return;
            }
            proof {
                lemma_swap_heap_elems(s, n as int, pos as int, best as int);
                assert(parent_of(best as int) == pos);
                assert(below(best as int, idx as int));
            }
            self.exchange(pos, best);
            proof {
                let t = self.arr@;
                assert forall|j: int|
                    0 <= j < n && below(j, idx as int) && parent_of(j) != best implies #[trigger] dominates(
                    max,
                    t[parent_of(j)],
                    t[j],
                ) by {
                    if parent_of(j) == pos {
                        assert(j == 2 * pos + 1 || j == 2 * pos + 2);
                    } else if j == pos {
                        assert(dominates(max, s[parent_of(pos as int)], s[best as int]));
                    } else {
                        assert(dominates(max, s[parent_of(j)], s[j]));
                    }
                }
                assert forall|c: int| 0 <= c < n && parent_of(c) == best implies dominates(
                    max,
                    t[parent_of(best as int)],
                    #[trigger] t[c],
                ) by {
                    assert(below(c, idx as int));
                    assert(dominates(max, s[parent_of(c)], s[c]));
                }
                assert forall|k: int|
                    0 <= k < s0.len() && ((k != idx && !below(k, idx as int)) || k >= n) implies #[trigger] t[k]
                    == s0[k] by {
                    if k < n && k != idx && !below(k, idx as int) {
                        assert(k != best);
                    }
                }
            }
            pos = best;
        }
    }

    /// Sifts the element at `idx` down so that it heads a max-heap, given that
    /// the subtrees under its children are max-heaps already. Only slots in the
    /// subtree under `idx` move.
    pub fn max_heapify(&mut self, idx: usize)
        requires
            old(self).wf(),
            idx < old(self).heap_size,
            subtrees_are_heaps(old(self).arr@, old(self).heap_size as int, true, idx as int),
        ensures
            final(self).wf(),
            final(self).heap_size == old(self).heap_size,
            final(self).arr.len() == old(self).arr.len(),
            final(self).arr@ == sift_down_seq(
                old(self).arr@,
                old(self).heap_size as int,
                true,
                idx as int,
            ),
            heads_heap(final(self).arr@, final(self).heap_size as int, true, idx as int),
            heap_elems(final(self).arr@, final(self).heap_size as int) == heap_elems(
                old(self).arr@,
                old(self).heap_size as int,
            ),
            forall|k: int|
                0 <= k < old(self).arr.len() && ((k != idx && !below(k, idx as int)) || k
                    >= old(self).heap_size) ==> #[trigger] final(self).arr@[k] == old(self).arr@[k],
            (forall|c: int|
                0 <= c < old(self).heap_size && parent_of(c) == idx ==> old(self).arr@[idx as int]
                    >= #[trigger] old(self).arr@[c]) ==> final(self).arr@ == old(self).arr@,
    {
        proof {
            self.lemma_still_when_dominating(idx as int, true);
        }
        self.sift_down(idx, true);
    }

    /// Sifts the element at `idx` down so that it heads a min-heap, given that
    /// the subtrees under its children are min-heaps already. Only slots in the
    /// subtree under `idx` move.
    pub fn min_heapify(&mut self, idx: usize)
        requires
            old(self).wf(),
            idx < old(self).heap_size,
            subtrees_are_heaps(old(self).arr@, old(self).heap_size as int, false, idx as int),
        ensures
            final(self).wf(),
            final(self).heap_size == old(self).heap_size,
            final(self).arr.len() == old(self).arr.len(),
            final(self).arr@ == sift_down_seq(
                old(self).arr@,
                old(self).heap_size as int,
                false,
                idx as int,
            ),
            heads_heap(final(self).arr@, final(self).heap_size as int, false, idx as int),
            heap_elems(final(self).arr@, final(self).heap_size as int) == heap_elems(
                old(self).arr@,
                old(self).heap_size as int,
            ),
            forall|k: int|
                0 <= k < old(self).arr.len() && ((k != idx && !below(k, idx as int)) || k
                    >= old(self).heap_size) ==> #[trigger] final(self).arr@[k] == old(self).arr@[k],
            (forall|c: int|
                0 <= c < old(self).heap_size && parent_of(c) == idx ==> old(self).arr@[idx as int]
                    <= #[trigger] old(self).arr@[c]) ==> final(self).arr@ == old(self).arr@,
    {
        proof {
            self.lemma_still_when_dominating(idx as int, false);
        }
        self.sift_down(idx, false);
    }

    /// When `idx` already dominates the children it has, a sift-down from it
    /// moves nothing.
    proof fn lemma_still_when_dominating(&self, idx: int, max: bool)
        requires
            0 <= idx < self.heap_size,
        ensures
            (forall|c: int|
                0 <= c < self.heap_size && parent_of(c) == idx ==> dominates(
                    max,
                    self.arr@[idx],
                    #[trigger] self.arr@[c],
                )) ==> sift_down_seq(self.arr@, self.heap_size as int, max, idx) == self.arr@,
    {
        let s = self.arr@;
        let n = self.heap_size as int;
        if forall|c: int| 0 <= c < n && parent_of(c) == idx ==> dominates(max, s[idx], #[trigger] s[c]) {
            assert(parent_of(2 * idx + 1) == idx);
            assert(parent_of(2 * idx + 2) == idx);
            if 2 * idx + 1 < n {
                assert(dominates(max, s[idx], s[2 * idx + 1]));
            }
            if 2 * idx + 2 < n {
                assert(dominates(max, s[idx], s[2 * idx + 2]));
            }
            assert(best_child(s, n, max, idx) == idx);
        }
    }

    /// Turns the heap part of the buffer into a max-heap over the same elements,
    /// sifting down from the last internal node back to the root.
    pub fn to_max_heap(&mut self)
        requires
            old(self).wf(),
        ensures
            final(self).wf(),
            final(self).heap_size == old(self).heap_size,
            final(self).arr.len() == old(self).arr.len(),
            final(self).arr@ == build_seq(
                old(self).arr@,
                old(self).heap_size as int,
                true,
                (old(self).heap_size / 2) as int,
            ),
            is_max_heap(final(self).arr@, final(self).heap_size as int),
            heap_elems(final(self).arr@, final(self).heap_size as int) == heap_elems(
                old(self).arr@,
                old(self).heap_size as int,
            ),
            forall|k: int|
                old(self).heap_size <= k < old(self).arr.len() ==> #[trigger] final(self).arr@[k]
                    == old(self).arr@[k],
            is_max_heap(old(self).arr@, old(self).heap_size as int) ==> final(self).arr@ == old(
                self,
            ).arr@,
    {
        self.build(true);
    }

    /// Turns the heap part of the buffer into a min-heap over the same elements,
    /// sifting down from the last internal node back to the root.
    pub fn to_min_heap(&mut self)
        requires
            old(self).wf(),
        ensures
            final(self).wf(),
            final(self).heap_size == old(self).heap_size,
            final(self).arr.len() == old(self).arr.len(),
            final(self).arr@ == build_seq(
                old(self).arr@,
                old(self).heap_size as int,
                false,
                (old(self).heap_size / 2) as int,
            ),
            is_min_heap(final(self).arr@, final(self).heap_size as int),
            heap_elems(final(self).arr@, final(self).heap_size as int) == heap_elems(
                old(self).arr@,
                old(self).heap_size as int,
            ),
            forall|k: int|
                old(self).heap_size <= k < old(self).arr.len() ==> #[trigger] final(self).arr@[k]
                    == old(self).arr@[k],
            is_min_heap(old(self).arr@, old(self).heap_size as int) ==> final(self).arr@ == old(
                self,
            ).arr@,
    {
        self.build(false);
    }

    /// Sifts down every internal node, from the last one back to the root.
    fn build(&mut self, max: bool)
        requires
            old(self).wf(),
        ensures
            final(self).wf(),
            final(self).heap_size == old(self).heap_size,
            final(self).arr.len() == old(self).arr.len(),
            final(self).arr@ == build_seq(
                old(self).arr@,
                old(self).heap_size as int,
                max,
                (old(self).heap_size / 2) as int,
            ),
            is_heap(final(self).arr@, final(self).heap_size as int, max),
            heap_elems(final(self).arr@, final(self).heap_size as int) == heap_elems(
                old(self).arr@,
                old(self).heap_size as int,
            ),
            forall|k: int|
                old(self).heap_size <= k < old(self).arr.len() ==> #[trigger] final(self).arr@[k]
                    == old(self).arr@[k],
            is_heap(old(self).arr@, old(self).heap_size as int, max) ==> final(self).arr@ == old(
                self,
            ).arr@,
    {
        let n = self.heap_size;
        let mut i: usize = n / 2;
        proof {
            if is_heap(self.arr@, n as int, max) {
                lemma_build_on_heap(self.arr@, n as int, max, (n / 2) as int);
            }
        }
        assert(heap_from(self.arr@, n as int, max, i as int));
        while i > 0
            invariant
                self.wf(),
                self.heap_size == n,
                n == old(self).heap_size,
                self.arr.len() == old(self).arr.len(),
                i <= n / 2,
                build_seq(self.arr@, n as int, max, i as int) == build_seq(
                    old(self).arr@,
                    n as int,
                    max,
                    (n / 2) as int,
                ),
                heap_from(self.arr@, n as int, max, i as int),
                heap_elems(self.arr@, n as int) == heap_elems(old(self).arr@, n as int),
                forall|k: int|
                    n <= k < old(self).arr.len() ==> #[trigger] self.arr@[k] == old(self).arr@[k],
            decreases i,
        {
            i -= 1;
            let ghost s = self.arr@;
            assert(subtrees_are_heaps(s, n as int, max, i as int)) by {
                assert forall|j: int|
                    0 <= j < n && below(j, i as int) && parent_of(j) != i implies #[trigger] dominates(
                    max,
                    s[parent_of(j)],
                    s[j],
                ) by {
                    assert(below(parent_of(j), i as int));
                }
            }
            self.sift_down(i, max);
            proof {
                let t = self.arr@;
                assert forall|j: int| 1 <= j < n && parent_of(j) >= i implies #[trigger] dominates(
                    max,
                    t[parent_of(j)],
                    t[j],
                ) by {
                    if parent_of(j) == i || below(parent_of(j), i as int) {
                        assert(below(j, i as int));
                    } else {
                        assert(!below(j, i as int));
                        assert(dominates(max, s[parent_of(j)], s[j]));
                    }
                }
            }
        }
    }

    /// Moves the element at `idx` up until its parent dominates it.
    fn sift_up(&mut self, idx: usize, max: bool)
        requires
            old(self).wf(),
            idx < old(self).heap_size,
            sift_up_ready(old(self).arr@, old(self).heap_size as int, max, idx as int),
        ensures
            final(self).wf(),
            final(self).heap_size == old(self).heap_size,
            final(self).arr.len() == old(self).arr.len(),
            is_heap(final(self).arr@, final(self).heap_size as int, max),
            final(self).arr@ == sift_up_seq(old(self).arr@, max, idx as int),
            forall|k: int|
                0 <= k < old(self).arr.len() && !on_path(k, idx as int)
                    ==> #[trigger] final(self).arr@[k] == old(self).arr@[k],
            heap_elems(final(self).arr@, final(self).heap_size as int) == heap_elems(
                old(self).arr@,
                old(self).heap_size as int,
            ),
            forall|k: int|
                old(self).heap_size <= k < old(self).arr.len() ==> #[trigger] final(self).arr@[k]
                    == old(self).arr@[k],
    {
        let n = self.heap_size;
        let mut pos = idx;
        while pos > 0
            invariant
                self.wf(),
                self.heap_size == n,
                n == old(self).heap_size,
                self.arr.len() == old(self).arr.len(),
                pos < n,
                on_path(pos as int, idx as int),
                sift_up_seq(self.arr@, max, pos as int) == sift_up_seq(old(self).arr@, max, idx as int),
                forall|k: int|
                    0 <= k < old(self).arr.len() && !on_path(k, idx as int) ==> #[trigger] self.arr@[k]
                        == old(self).arr@[k],
                sift_up_ready(self.arr@, n as int, max, pos as int),
                heap_elems(self.arr@, n as int) == heap_elems(old(self).arr@, n as int),
                forall|k: int|
                    n <= k < old(self).arr.len() ==> #[trigger] self.arr@[k] == old(self).arr@[k],
            decreases pos,
        {
            let p = self.parent(pos);
            if !prefers(max, self.arr[pos], self.arr[p]) {
                return;
            }
            let ghost s = self.arr@;
            proof {
                lemma_swap_heap_elems(s, n as int, pos as int, p as int);
            }
            self.exchange(pos, p);
            proof {
                let t = self.arr@;
                assert forall|i: int| 1 <= i < n && i != p implies #[trigger] dominates(
                    max,
                    t[parent_of(i)],
                    t[i],
                ) by {
                    if parent_of(i) == p && i != pos {
                        assert(dominates(max, s[parent_of(i)], s[i]));
                    }
                }
                assert forall|i: int| 1 <= i < n && parent_of(i) == p && p >= 1 implies dominates(
                    max,
                    t[parent_of(p as int)],
                    #[trigger] t[i],
                ) by {
                    assert(dominates(max, s[parent_of(p as int)], s[p as int]));
                    if i != pos {
                        assert(dominates(max, s[parent_of(i)], s[i]));
                    }
                }
            }
            proof {
                lemma_on_path_parent(pos as int, idx as int);
            }
            pos = p;
        }
    }

    /// Restores the max-heap property after the element at `idx` was raised:
    /// moves it up until its parent is at least as large.
    pub fn reevaluate(&mut self, idx: usize)
        requires
            old(self).wf(),
            idx < old(self).heap_size,
            sift_up_ready(old(self).arr@, old(self).heap_size as int, true, idx as int),
        ensures
            final(self).wf(),
            final(self).heap_size == old(self).heap_size,
            final(self).arr.len() == old(self).arr.len(),
            is_max_heap(final(self).arr@, final(self).heap_size as int),
            final(self).arr@ == sift_up_seq(old(self).arr@, true, idx as int),
            forall|k: int|
                0 <= k < old(self).arr.len() && !on_path(k, idx as int)
                    ==> #[trigger] final(self).arr@[k] == old(self).arr@[k],
            heap_elems(final(self).arr@, final(self).heap_size as int) == heap_elems(
                old(self).arr@,
                old(self).heap_size as int,
            ),
            forall|k: int|
                old(self).heap_size <= k < old(self).arr.len() ==> #[trigger] final(self).arr@[k]
                    == old(self).arr@[k],
    {
        self.sift_up(idx, true);
    }

    /// Appends `elem` to the buffer and the heap, then moves it up to its place.
    pub fn push(&mut self, elem: i64)
        requires
            old(self).heap_size == old(self).arr.len(),
            old(self).arr.len() < usize::MAX,
            is_max_heap(old(self).arr@, old(self).heap_size as int),
        ensures
            final(self).heap_size == final(self).arr.len(),
            final(self).heap_size == old(self).heap_size + 1,
            is_max_heap(final(self).arr@, final(self).heap_size as int),
            final(self).arr@ == sift_up_seq(
                old(self).arr@.push(elem),
                true,
                old(self).heap_size as int,
            ),
            final(self).arr@.to_multiset() == old(self).arr@.to_multiset().insert(elem),
    {
        let ghost s0 = self.arr@;
        self.arr.push(elem);
        self.heap_size += 1;
        let n = self.heap_size;
        assert(self.arr@.subrange(0, n as int) =~= s0.push(elem));
        self.reevaluate(n - 1);
        assert(self.arr@.subrange(0, n as int) =~= self.arr@);
    }

    /// The root of the heap: its largest element in a max-heap, its smallest in a min-heap.
    pub fn peek(&self) -> (r: &i64)
        requires
            self.wf(),
            self.heap_size > 0,
        ensures
            *r == self.arr@[0],
            is_max_heap(self.arr@, self.heap_size as int) ==> forall|k: int|
                0 <= k < self.heap_size ==> *r >= #[trigger] self.arr@[k],
            is_min_heap(self.arr@, self.heap_size as int) ==> forall|k: int|
                0 <= k < self.heap_size ==> *r <= #[trigger] self.arr@[k],
    {
        proof {
            if is_max_heap(self.arr@, self.heap_size as int) {
                lemma_root_dominates(self.arr@, self.heap_size as int, true);
            }
            if is_min_heap(self.arr@, self.heap_size as int) {
                lemma_root_dominates(self.arr@, self.heap_size as int, false);
            }
        }
        &self.arr[0]
    }

    /// Removes the element at `idx` and returns it: the last element takes its
    /// slot and is sifted down or up, and the buffer shrinks by one.
    fn remove_at(&mut self, idx: usize, max: bool) -> (r: i64)
        requires
            old(self).heap_size == old(self).arr.len(),
            idx < old(self).heap_size,
            is_heap(old(self).arr@, old(self).heap_size as int, max),
        ensures
            r == old(self).arr@[idx as int],
            final(self).arr@ == remove_seq(old(self).arr@, max, idx as int),
            final(self).heap_size == final(self).arr.len(),
            final(self).heap_size == old(self).heap_size - 1,
            is_heap(final(self).arr@, final(self).heap_size as int, max),
            final(self).arr@.to_multiset() == old(self).arr@.to_multiset().remove(r),
    {
        let ghost s = self.arr@;
        let n = self.heap_size;
        let last = n - 1;
        let r = self.arr[idx];
        self.exchange(idx, last);
        let ghost t = self.arr@;
        proof {
            lemma_swap_multiset(s, idx as int, last as int);
            assert(t =~= t.subrange(0, last as int).push(r));
        }
        self.heap_size = last;
        if idx < last {
            if prefers(max, r, self.arr[idx]) {
                proof {
                    lemma_removal_sift_down_ready(s, n as int, max, idx as int);
                }
                self.sift_down(idx, max);
                proof {
                    lemma_removal_sift_down_done(s, self.arr@, n as int, max, idx as int);
                }
            } else {
                proof {
                    lemma_removal_sift_up_ready(s, n as int, max, idx as int);
                }
                self.sift_up(idx, max);
            }
        }
        let ghost u = self.arr@;
        proof {
            assert(u =~= u.subrange(0, last as int).push(r));
            assert(u.subrange(0, last as int) =~= u.drop_last());
        }
        let popped = self.arr.pop();
        proof {
            assert(self.arr@ =~= u.subrange(0, last as int));
        }
        match popped {
            Some(v) => v,
            None => r,
        }
    }

    /// Removes the element at `idx` from a max-heap and returns it.
    pub fn delete(&mut self, idx: usize) -> (r: i64)
        requires
            old(self).heap_size == old(self).arr.len(),
            idx < old(self).heap_size,
            is_max_heap(old(self).arr@, old(self).heap_size as int),
        ensures
            r == old(self).arr@[idx as int],
            final(self).arr@ == remove_seq(old(self).arr@, true, idx as int),
            final(self).heap_size == final(self).arr.len(),
            final(self).heap_size == old(self).heap_size - 1,
            is_max_heap(final(self).arr@, final(self).heap_size as int),
            final(self).arr@.to_multiset() == old(self).arr@.to_multiset().remove(r),
    {
        self.remove_at(idx, true)
    }

    /// Removes the element at `idx` from a min-heap and returns it.
    pub fn delete_min(&mut self, idx: usize) -> (r: i64)
        requires
            old(self).heap_size == old(self).arr.len(),
            idx < old(self).heap_size,
            is_min_heap(old(self).arr@, old(self).heap_size as int),
        ensures
            r == old(self).arr@[idx as int],
            final(self).arr@ == remove_seq(old(self).arr@, false, idx as int),
            final(self).heap_size == final(self).arr.len(),
            final(self).heap_size == old(self).heap_size - 1,
            is_min_heap(final(self).arr@, final(self).heap_size as int),
            final(self).arr@.to_multiset() == old(self).arr@.to_multiset().remove(r),
    {
        self.remove_at(idx, false)
    }

    /// Removes and returns the root: the largest element of a max-heap.
    pub fn pop(&mut self) -> (r: i64)
        requires
            old(self).heap_size == old(self).arr.len(),
            old(self).heap_size > 0,
            is_max_heap(old(self).arr@, old(self).heap_size as int),
        ensures
            r == old(self).arr@[0],
            forall|k: int| 0 <= k < old(self).heap_size ==> r >= #[trigger] old(self).arr@[k],
            final(self).arr@ == remove_seq(old(self).arr@, true, 0),
            final(self).heap_size == final(self).arr.len(),
            final(self).heap_size == old(self).heap_size - 1,
            is_max_heap(final(self).arr@, final(self).heap_size as int),
            final(self).arr@.to_multiset() == old(self).arr@.to_multiset().remove(r),
    {
        proof {
            lemma_root_dominates(self.arr@, self.heap_size as int, true);
        }
        self.delete(0)
    }

    /// Removes and returns the root: the smallest element of a min-heap.
    pub fn pop_min(&mut self) -> (r: i64)
        requires
            old(self).heap_size == old(self).arr.len(),
            old(self).heap_size > 0,
            is_min_heap(old(self).arr@, old(self).heap_size as int),
        ensures
            r == old(self).arr@[0],
            forall|k: int| 0 <= k < old(self).heap_size ==> r <= #[trigger] old(self).arr@[k],
            final(self).arr@ == remove_seq(old(self).arr@, false, 0),
            final(self).heap_size == final(self).arr.len(),
            final(self).heap_size == old(self).heap_size - 1,
            is_min_heap(final(self).arr@, final(self).heap_size as int),
            final(self).arr@.to_multiset() == old(self).arr@.to_multiset().remove(r),
    {
        proof {
            lemma_root_dominates(self.arr@, self.heap_size as int, false);
        }
        self.delete_min(0)
    }
}

/// Popping a heap twice gives its elements in order: non-increasing from a
/// max-heap, non-decreasing from a min-heap. The first pop returns the root of
/// `s0`, which leaves the rest as `s1`, and the second returns the root of `s1`.
pub proof fn lemma_pops_in_order(s0: Seq<i64>, r1: i64, s1: Seq<i64>, r2: i64, max: bool)
    requires
        s0.len() > 0,
        is_heap(s0, s0.len() as int, max),
        r1 == s0[0],
        s1.to_multiset() == s0.to_multiset().remove(r1),
        s1.len() > 0,
        r2 == s1[0],
    ensures
        dominates(max, r1, r2),
{
    lemma_root_dominates(s0, s0.len() as int, max);
    assert(s1.to_multiset().count(r2) > 0);
    assert(s0.to_multiset().count(r2) > 0);
    assert(s0.contains(r2));
}

/// Pushing an element larger than all others and then popping the root gives
/// that element back and leaves the heap with the elements it had before.
pub proof fn lemma_push_pop_round_trip(s0: Seq<i64>, x: i64, s1: Seq<i64>, r: i64, s2: Seq<i64>)
    requires
        forall|k: int| 0 <= k < s0.len() ==> #[trigger] s0[k] < x,
        is_max_heap(s1, s1.len() as int),
        s1.to_multiset() == s0.to_multiset().insert(x),
        r == s1[0],
        s2.to_multiset() == s1.to_multiset().remove(r),
    ensures
        r == x,
        s2.to_multiset() == s0.to_multiset(),
        s2.len() == s0.len(),
{
    assert(s1.to_multiset().count(x) > 0);
    assert(s1.contains(x));
    lemma_root_dominates(s1, s1.len() as int, true);
    if r != x {
        assert(s1.to_multiset().count(r) > 0);
        assert(s0.to_multiset().count(r) > 0);
        assert(s0.contains(r));
    }
    assert(s2.to_multiset().len() == s0.to_multiset().len());
}

} // verus!
