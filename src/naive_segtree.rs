//! A direct reference implementation with the same interface as the segment
//! tree: every fold walks the elements one by one.
use core::ops::Range;
use vstd::prelude::*;

use crate::algebra::{
    accepts, fold_range, is_predicate, lemma_fold_split, lemma_prefix_all, lemma_suffix_all,
    prefix_monotone, suffix_monotone, Monoid,
};

verus! {

/// Elements kept in a plain vector; folds take linear time.
pub struct NaiveSegTree<M: Monoid> {
    len: usize,
    data: Vec<M::Set>,
    monoid: M,
}

impl<M: Monoid> NaiveSegTree<M> {
    /// The elements, in order.
    pub closed spec fn view(&self) -> Seq<M::Set> {
        self.data@
    }

    pub closed spec fn wf(&self) -> bool {
        self.len == self.data@.len()
    }

    /// `n` elements, all the identity.
    pub fn new(n: usize) -> (r: Self)
        where
            M: Default,
        ensures
            r.wf(),
            r@ == Seq::new(n as nat, |i: int| M::id_spec()),
    {
        let monoid = M::default();
        let e = monoid.id();
        let mut data: Vec<M::Set> = Vec::new();
        while data.len() < n
            invariant
                data.len() <= n,
                forall|i: int| 0 <= i < data.len() ==> data@[i] == e,
            decreases n - data.len(),
        {
            data.push(e);
        }
        let r = NaiveSegTree { len: n, data, monoid };
        assert(r@ =~= Seq::new(n as nat, |i: int| M::id_spec()));
        r
    }

    /// Takes the elements of `v`.
    pub fn from(v: Vec<M::Set>) -> (r: Self)
        where
            M: Default,
        ensures
            r.wf(),
            r@ == v@,
    {
        NaiveSegTree { len: v.len(), data: v, monoid: M::default() }
    }

    /// Replaces element `i` by `val`.
    pub fn set(&mut self, i: usize, val: M::Set)
        requires
            old(self).wf(),
            i < old(self)@.len(),
        ensures
            final(self).wf(),
            final(self)@ == old(self)@.update(i as int, val),
    {
        self.data.set(i, val);
    }

    /// The value of element `i`.
    pub fn index(&self, i: usize) -> (r: &M::Set)
        requires
            self.wf(),
            i < self@.len(),
        ensures
            *r == self@[i as int],
    {
        &self.data[i]
    }

    /// `op` reduced over the elements in `range`, one at a time.
    pub fn fold(&self, range: Range<usize>) -> (r: M::Set)
        requires
            self.wf(),
            range.start <= range.end <= self@.len(),
        ensures
            r == fold_range::<M>(self@, range.start as int, range.end as int),
            range.start == range.end ==> r == M::id_spec(),
    {
        let mut x = self.monoid.id();
        let mut i = range.start;
        while i < range.end
            invariant
                range.start <= i <= range.end <= self.data@.len(),
                x == fold_range::<M>(self.data@, range.start as int, i as int),
            decreases range.end - i,
        {
            x = self.monoid.op(x, self.data[i]);
            i = i + 1;
        }
        x
    }

    /// The largest `r` such that `f` accepts the fold of every `[l, k)` with `k <= r`.
    pub fn bisect_fold<F: Fn(&M::Set) -> bool>(&self, l: usize, f: F) -> (r: usize)
        requires
            self.wf(),
            l <= self@.len(),
            is_predicate(f),
            accepts(f, M::id_spec()),
            prefix_monotone::<M, F>(f, self@, l as int),
        ensures
            l <= r <= self@.len(),
            forall|k: int| l <= k <= r ==> accepts(f, #[trigger] fold_range::<M>(self@, l as int, k)),
            r < self@.len() ==> !accepts(f, fold_range::<M>(self@, l as int, r + 1)),
    {
        let mut v = self.monoid.id();
        let mut i = l;
        while i < self.len
            invariant_except_break
                v == fold_range::<M>(self.data@, l as int, i as int),
            invariant
                self.wf(),
                is_predicate(f),
                l <= i <= self.len,
                accepts(f, fold_range::<M>(self.data@, l as int, i as int)),
            ensures
                i < self.len ==> !accepts(f, fold_range::<M>(self.data@, l as int, i + 1)),
            decreases self.len - i,
        {
            v = self.monoid.op(v, self.data[i]);
            if !f(&v) {
                break;
            }
            i = i + 1;
        }
        proof {
            lemma_prefix_all::<M, F>(f, self@, l as int, i as int);
        }
        i
    }

    /// The smallest `l` such that `f` accepts the fold of every `[k, r)` with `l <= k`.
    pub fn bisect_fold_rev<F: Fn(&M::Set) -> bool>(&self, r: usize, f: F) -> (l: usize)
        requires
            self.wf(),
            r <= self@.len(),
            is_predicate(f),
            accepts(f, M::id_spec()),
            suffix_monotone::<M, F>(f, self@, r as int),
        ensures
            l <= r,
            forall|k: int| l <= k <= r ==> accepts(f, #[trigger] fold_range::<M>(self@, k, r as int)),
            l > 0 ==> !accepts(f, fold_range::<M>(self@, l - 1, r as int)),
    {
        let mut v = self.monoid.id();
        let mut i = r;
        while i > 0
            invariant_except_break
                v == fold_range::<M>(self.data@, i as int, r as int),
            invariant
                self.wf(),
                is_predicate(f),
                i <= r <= self.len,
                accepts(f, fold_range::<M>(self.data@, i as int, r as int)),
            ensures
                i > 0 ==> !accepts(f, fold_range::<M>(self.data@, i - 1, r as int)),
            decreases i,
        {
            proof {
                lemma_fold_split::<M>(self.data@, i - 1, i as int, r as int);
                crate::algebra::lemma_fold_single::<M>(self.data@, i - 1);
            }
            v = self.monoid.op(self.data[i - 1], v);
            if !f(&v) {
                break;
            }
            i = i - 1;
        }
        proof {
            lemma_suffix_all::<M, F>(f, self@, i as int, r as int);
        }
        i
    }
}

} // verus!
