use vstd::prelude::*;

use crate::heap::{is_max_heap, Heap};

verus! {

broadcast use vstd::seq_lib::group_to_multiset_ensures;

/// A priority queue: a heap that is always a max-heap over its whole buffer.
#[derive(Debug)]
pub struct PriorityQueue {
    pub heap: Heap,
}

impl PriorityQueue {
    /// The heap covers the whole buffer and is a max-heap.
    pub open spec fn wf(&self) -> bool {
        &&& self.heap.heap_size == self.heap.arr.len()
        &&& is_max_heap(self.heap.arr@, self.heap.heap_size as int)
    }

    /// The queue's elements, in heap order.
    pub open spec fn items(&self) -> Seq<i64> {
        self.heap.arr@
    }

    /// A queue over the elements of `arr`.
    pub fn new(arr: Vec<i64>) -> (r: PriorityQueue)
        ensures
            r.wf(),
            r.items().to_multiset() == arr@.to_multiset(),
    {
        let mut heap = Heap::new(arr);
        heap.to_max_heap();
        proof {
            assert(heap.arr@.subrange(0, heap.heap_size as int) =~= heap.arr@);
            assert(arr@.subrange(0, arr@.len() as int) =~= arr@);
        }
        PriorityQueue { heap }
    }

    /// Number of elements in the queue.
    pub fn len(&self) -> (r: usize)
        ensures
            r == self.items().len(),
    {
        self.heap.len()
    }

    /// Adds `elem` to the queue.
    pub fn push(&mut self, elem: i64)
        requires
            old(self).wf(),
            old(self).items().len() < usize::MAX,
        ensures
            final(self).wf(),
            final(self).items().to_multiset() == old(self).items().to_multiset().insert(elem),
    {
        self.heap.push(elem);
    }

    /// The largest element of the queue.
    pub fn peek(&self) -> (r: &i64)
        requires
            self.wf(),
            self.items().len() > 0,
        ensures
            self.items().contains(*r),
            forall|k: int| 0 <= k < self.items().len() ==> *r >= #[trigger] self.items()[k],
    {
        let r = self.heap.peek();
        assert(self.items()[0] == *r);
        r
    }

    /// Removes and returns the largest element of the queue.
    pub fn pop(&mut self) -> (r: i64)
        requires
            old(self).wf(),
            old(self).items().len() > 0,
        ensures
            final(self).wf(),
            old(self).items().contains(r),
            forall|k: int| 0 <= k < old(self).items().len() ==> r >= #[trigger] old(self).items()[k],
            final(self).items().to_multiset() == old(self).items().to_multiset().remove(r),
    {
        let r = self.heap.pop();
        assert(old(self).items()[0] == r);
        r
    }

    /// Hands the buffer back, in heap order.
    pub fn into_vec(self) -> (r: Vec<i64>)
        ensures
            r@ == self.items(),
    {
        self.heap.into_vec()
    }
}

} // verus!
