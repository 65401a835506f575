//! Interfaces shared by the sequence structures: point assignment and range folds.
use core::ops::Range;
use vstd::prelude::*;

use crate::algebra::{accepts, fold_range, is_predicate, Monoid};
use crate::fenwick::{seq_sum, FenwickTree};
use crate::naive_segtree::NaiveSegTree;
use crate::segtree::SegTree;

verus! {

/// A sequence whose elements can be assigned by index.
pub trait SetValue<T> {
    /// The elements.
    spec fn elements(&self) -> Seq<T>;

    /// The structure's invariant.
    spec fn ready(&self) -> bool;

    /// Replaces element `index` by `val`.
    fn set(&mut self, index: usize, val: T)
        requires
            old(self).ready(),
            index < old(self).elements().len(),
        ensures
            final(self).ready(),
            final(self).elements() == old(self).elements().update(index as int, val),
    ;
}

/// A sequence that reduces ranges of its elements.
pub trait Fold {
    type Output;

    /// Whether `[l, r)` may be folded.
    spec fn fold_ok(&self, l: int, r: int) -> bool;

    /// The reduction of `[l, r)`.
    spec fn fold_spec(&self, l: int, r: int) -> Self::Output;

    /// Reduces the elements in `r`.
    fn fold(&self, r: Range<usize>) -> (out: Self::Output)
        requires
            self.fold_ok(r.start as int, r.end as int),
        ensures
            out == self.fold_spec(r.start as int, r.end as int),
    ;
}

/// Binary search over prefix folds of a sequence under a monoid.
pub trait BisectFold<S> {
    /// The structure's invariant.
    spec fn bisect_ready(&self) -> bool;

    /// The number of elements.
    spec fn seq_len(&self) -> int;

    /// The fold of `[l, r)`.
    spec fn folded(&self, l: int, r: int) -> S;

    /// The fold of an empty range.
    spec fn empty_fold(&self) -> S;

    /// The largest `r` such that `pred` accepts the fold of every `[l, k)`
    /// with `k <= r`, for a predicate that, once it rejects a prefix fold,
    /// rejects every longer one.
    fn bisect_fold<F: Fn(&S) -> bool>(&self, l: usize, pred: F) -> (r: usize)
        requires
            self.bisect_ready(),
            l <= self.seq_len(),
            is_predicate(pred),
            accepts(pred, self.empty_fold()),
            forall|i: int, j: int|
                l <= i <= j <= self.seq_len() && #[trigger] accepts(pred, self.folded(l as int, j))
                    ==> #[trigger] accepts(pred, self.folded(l as int, i)),
        ensures
            l <= r <= self.seq_len(),
            forall|k: int| l <= k <= r ==> accepts(pred, #[trigger] self.folded(l as int, k)),
            r < self.seq_len() ==> !accepts(pred, self.folded(l as int, r + 1)),
    ;
}

/// Binary search over suffix folds of a sequence under a monoid.
pub trait BisectFoldRev<S> {
    /// The structure's invariant.
    spec fn rev_ready(&self) -> bool;

    /// The number of elements.
    spec fn rev_len(&self) -> int;

    /// The fold of `[l, r)`.
    spec fn rev_folded(&self, l: int, r: int) -> S;

    /// The fold of an empty range.
    spec fn rev_empty_fold(&self) -> S;

    /// The smallest `l` such that `pred` accepts the fold of every `[k, r)`
    /// with `l <= k`, for a predicate that, once it rejects a suffix fold,
    /// rejects every longer one.
    fn bisect_fold_rev<F: Fn(&S) -> bool>(&self, r: usize, pred: F) -> (l: usize)
        requires
            self.rev_ready(),
            r <= self.rev_len(),
            is_predicate(pred),
            accepts(pred, self.rev_empty_fold()),
            forall|i: int, j: int|
                0 <= i <= j <= r && #[trigger] accepts(pred, self.rev_folded(i, r as int)) ==> #[trigger] accepts(
                    pred,
                    self.rev_folded(j, r as int),
                ),
        ensures
            l <= r,
            forall|k: int| l <= k <= r ==> accepts(pred, #[trigger] self.rev_folded(k, r as int)),
            l > 0 ==> !accepts(pred, self.rev_folded(l - 1, r as int)),
    ;
}

impl<M: Monoid> BisectFold<M::Set> for SegTree<M> {
    open spec fn bisect_ready(&self) -> bool {
        self.wf()
    }

    open spec fn seq_len(&self) -> int {
        self@.len() as int
    }

    open spec fn folded(&self, l: int, r: int) -> M::Set {
        fold_range::<M>(self@, l, r)
    }

    open spec fn empty_fold(&self) -> M::Set {
        M::id_spec()
    }

    fn bisect_fold<F: Fn(&M::Set) -> bool>(&self, l: usize, pred: F) -> (r: usize) {
        proof {
            assert forall|i: int, j: int|
                l <= i <= j <= self@.len() && #[trigger] accepts(pred, fold_range::<M>(self@, l as int, j))
                    implies #[trigger] accepts(pred, fold_range::<M>(self@, l as int, i)) by {
                assert(self.folded(l as int, i) == fold_range::<M>(self@, l as int, i));
                assert(self.folded(l as int, j) == fold_range::<M>(self@, l as int, j));
            }
        }
        SegTree::bisect_fold(self, l, pred)
    }
}

impl<M: Monoid> BisectFoldRev<M::Set> for SegTree<M> {
    open spec fn rev_ready(&self) -> bool {
        self.wf()
    }

    open spec fn rev_len(&self) -> int {
        self@.len() as int
    }

    open spec fn rev_folded(&self, l: int, r: int) -> M::Set {
        fold_range::<M>(self@, l, r)
    }

    open spec fn rev_empty_fold(&self) -> M::Set {
        M::id_spec()
    }

    fn bisect_fold_rev<F: Fn(&M::Set) -> bool>(&self, r: usize, pred: F) -> (l: usize) {
        proof {
            assert forall|i: int, j: int|
                0 <= i <= j <= r && #[trigger] accepts(pred, fold_range::<M>(self@, i, r as int))
                    implies #[trigger] accepts(pred, fold_range::<M>(self@, j, r as int)) by {
                assert(self.rev_folded(i, r as int) == fold_range::<M>(self@, i, r as int));
                assert(self.rev_folded(j, r as int) == fold_range::<M>(self@, j, r as int));
            }
        }
        SegTree::bisect_fold_rev(self, r, pred)
    }
}

impl<M: Monoid> BisectFold<M::Set> for NaiveSegTree<M> {
    open spec fn bisect_ready(&self) -> bool {
        self.wf()
    }

    open spec fn seq_len(&self) -> int {
        self@.len() as int
    }

    open spec fn folded(&self, l: int, r: int) -> M::Set {
        fold_range::<M>(self@, l, r)
    }

    open spec fn empty_fold(&self) -> M::Set {
        M::id_spec()
    }

    fn bisect_fold<F: Fn(&M::Set) -> bool>(&self, l: usize, pred: F) -> (r: usize) {
        proof {
            assert forall|i: int, j: int|
                l <= i <= j <= self@.len() && #[trigger] accepts(pred, fold_range::<M>(self@, l as int, j))
                    implies #[trigger] accepts(pred, fold_range::<M>(self@, l as int, i)) by {
                assert(self.folded(l as int, i) == fold_range::<M>(self@, l as int, i));
                assert(self.folded(l as int, j) == fold_range::<M>(self@, l as int, j));
            }
        }
        NaiveSegTree::bisect_fold(self, l, pred)
    }
}

impl<M: Monoid> BisectFoldRev<M::Set> for NaiveSegTree<M> {
    open spec fn rev_ready(&self) -> bool {
        self.wf()
    }

    open spec fn rev_len(&self) -> int {
        self@.len() as int
    }

    open spec fn rev_folded(&self, l: int, r: int) -> M::Set {
        fold_range::<M>(self@, l, r)
    }

    open spec fn rev_empty_fold(&self) -> M::Set {
        M::id_spec()
    }

    fn bisect_fold_rev<F: Fn(&M::Set) -> bool>(&self, r: usize, pred: F) -> (l: usize) {
        proof {
            assert forall|i: int, j: int|
                0 <= i <= j <= r && #[trigger] accepts(pred, fold_range::<M>(self@, i, r as int))
                    implies #[trigger] accepts(pred, fold_range::<M>(self@, j, r as int)) by {
                assert(self.rev_folded(i, r as int) == fold_range::<M>(self@, i, r as int));
                assert(self.rev_folded(j, r as int) == fold_range::<M>(self@, j, r as int));
            }
        }
        NaiveSegTree::bisect_fold_rev(self, r, pred)
    }
}

impl<M: Monoid> SetValue<M::Set> for SegTree<M> {
    open spec fn elements(&self) -> Seq<M::Set> {
        self@
    }

    open spec fn ready(&self) -> bool {
        self.wf()
    }

    fn set(&mut self, index: usize, val: M::Set) {
        SegTree::set(self, index, val)
    }
}

impl<M: Monoid> SetValue<M::Set> for NaiveSegTree<M> {
    open spec fn elements(&self) -> Seq<M::Set> {
        self@
    }

    open spec fn ready(&self) -> bool {
        self.wf()
    }

    fn set(&mut self, index: usize, val: M::Set) {
        NaiveSegTree::set(self, index, val)
    }
}

impl<M: Monoid> Fold for SegTree<M> {
    type Output = M::Set;

    open spec fn fold_ok(&self, l: int, r: int) -> bool {
        self.wf() && 0 <= l <= r <= self@.len()
    }

    open spec fn fold_spec(&self, l: int, r: int) -> M::Set {
        fold_range::<M>(self@, l, r)
    }

    fn fold(&self, r: Range<usize>) -> (out: M::Set) {
        SegTree::fold(self, r)
    }
}

impl<M: Monoid> Fold for NaiveSegTree<M> {
    type Output = M::Set;

    open spec fn fold_ok(&self, l: int, r: int) -> bool {
        self.wf() && 0 <= l <= r <= self@.len()
    }

    open spec fn fold_spec(&self, l: int, r: int) -> M::Set {
        fold_range::<M>(self@, l, r)
    }

    fn fold(&self, r: Range<usize>) -> (out: M::Set) {
        NaiveSegTree::fold(self, r)
    }
}

impl Fold for FenwickTree {
    type Output = usize;

    open spec fn fold_ok(&self, l: int, r: int) -> bool {
        self.wf() && 0 <= l <= r <= self@.len()
    }

    open spec fn fold_spec(&self, l: int, r: int) -> usize {
        seq_sum(self@, l, r) as usize
    }

    fn fold(&self, r: Range<usize>) -> (out: usize) {
        FenwickTree::fold(self, r)
    }
}

} // verus!
