//! Partition points of sorted slices.
use vstd::prelude::*;

verus! {

/// `s` is sorted in non-decreasing order.
pub open spec fn sorted(s: Seq<i32>) -> bool {
    forall|i: int, j: int| 0 <= i <= j < s.len() ==> s[i] <= s[j]
}

/// Binary search for the boundaries of a value in a sorted slice.
pub trait BinarySearch {
    spec fn items(&self) -> Seq<i32>;

    /// The first index whose value is at least `x`.
    fn search_sorted_first(&self, x: &i32) -> (r: usize)
        requires
            sorted(self.items()),
        ensures
            r <= self.items().len(),
            forall|i: int| 0 <= i < r ==> self.items()[i] < *x,
            forall|i: int| r <= i < self.items().len() ==> self.items()[i] >= *x,
    ;

    /// The first index whose value is greater than `x`.
    fn search_sorted_last(&self, x: &i32) -> (r: usize)
        requires
            sorted(self.items()),
        ensures
            r <= self.items().len(),
            forall|i: int| 0 <= i < r ==> self.items()[i] <= *x,
            forall|i: int| r <= i < self.items().len() ==> self.items()[i] > *x,
    ;
}

impl BinarySearch for [i32] {
    open spec fn items(&self) -> Seq<i32> {
        self@
    }

    fn search_sorted_first(&self, x: &i32) -> (r: usize) {
        let mut lo: usize = 0;
        let mut hi: usize = self.len();
        while lo < hi
            invariant
                lo <= hi <= self@.len(),
                sorted(self@),
                forall|i: int| 0 <= i < lo ==> self@[i] < *x,
                forall|i: int| hi <= i < self@.len() ==> self@[i] >= *x,
            decreases hi - lo,
        {
            let mid = lo + (hi - lo) / 2;
            if self[mid] < *x {
                lo = mid + 1;
            } else {
                hi = mid;
            }
        }
        lo
    }

    fn search_sorted_last(&self, x: &i32) -> (r: usize) {
        let mut lo: usize = 0;
        let mut hi: usize = self.len();
        while lo < hi
            invariant
                lo <= hi <= self@.len(),
                sorted(self@),
                forall|i: int| 0 <= i < lo ==> self@[i] <= *x,
                forall|i: int| hi <= i < self@.len() ==> self@[i] > *x,
            decreases hi - lo,
        {
            let mid = lo + (hi - lo) / 2;
            if self[mid] <= *x {
                lo = mid + 1;
            } else {
                hi = mid;
            }
        }
        lo
    }
}

} // verus!
