//! Segment tree over a monoid: point assignment and range fold in `O(log n)`,
//! and binary search over prefix and suffix folds.
use core::ops::Range;
use vstd::arithmetic::power2::{lemma_pow2_pos, lemma_pow2_unfold, pow2};
use vstd::prelude::*;

use crate::algebra::{
    accepts, fold_range, is_predicate, lemma_fold_id_tail, lemma_prefix_all, lemma_suffix_all, lemma_fold_shift, lemma_fold_single,
    lemma_fold_split, prefix_monotone, suffix_monotone, Monoid,
};
use crate::tree::{
    anc_or_self, lemma_children_span, lemma_halve, lemma_internal, lemma_level_bound,
    lemma_mul_pow2_le, lemma_next_block, lemma_odd_not_pow2, lemma_pos_mul, lemma_prev_block,
};
use crate::utils::ceil_pow2;

verus! {

/// Largest length a tree can be built with.
pub const MAX_LEN: usize = usize::MAX / 4;

/// Segment tree: a complete binary tree in an array, node `1` the root, node
/// `i` the parent of `2i` and `2i + 1`, leaves at `[size, 2 size)`.
pub struct SegTree<M: Monoid> {
    len: usize,
    log_size: usize,
    size: usize,
    data: Vec<M::Set>,
    monoid: M,
}

impl<M: Monoid> SegTree<M> {
    /// The elements, in order.
    pub closed spec fn view(&self) -> Seq<M::Set> {
        self.data@.subrange(self.size as int, self.size + self.len)
    }

    /// Each internal node holds the operation applied to its two children.
    pub closed spec fn node_ok(&self, i: int) -> bool {
        self.data@[i] == M::op_spec(self.data@[2 * i], self.data@[2 * i + 1])
    }

    pub closed spec fn shape_ok(&self) -> bool {
        &&& self.size == pow2(self.log_size as nat)
        &&& self.size >= 1
        &&& self.len <= self.size
        &&& self.data@.len() == 2 * self.size
        &&& 2 * self.size <= usize::MAX
        &&& forall|i: int| self.size + self.len <= i < 2 * self.size ==> self.data@[i] == M::id_spec()
    }

    /// The aggregate invariant, and leaves past the end holding the identity.
    pub closed spec fn wf(&self) -> bool {
        &&& self.shape_ok()
        &&& forall|i: int| 1 <= i < self.size ==> #[trigger] self.node_ok(i)
    }

    /// The aggregate kept at the root.
    pub closed spec fn aggregate(&self) -> M::Set {
        self.data@[1]
    }

    /// The root always holds the fold of all the elements, whatever sequence
    /// of assignments produced the tree.
    pub proof fn lemma_aggregate(&self)
        requires
            self.wf(),
        ensures
            self.aggregate() == fold_range::<M>(self@, 0, self@.len() as int),
    {
        vstd::arithmetic::power2::lemma2_to64();
        lemma_pow2_unfold((self.log_size + 1) as nat);
        assert(1 * pow2(self.log_size as nat) == self.size);
        assert((1 + 1) * pow2(self.log_size as nat) == 2 * self.size);
        self.lemma_node(1, self.log_size as nat);
        self.lemma_padding(self.size as int, 2 * self.size as int);
        self.lemma_view_fold(0, self.len as int);
    }

    /// Under the invariant, node `j` at height `k` holds the fold of its leaves.
    proof fn lemma_node(&self, j: int, k: nat)
        requires
            self.wf(),
            self.size <= j * pow2(k),
            (j + 1) * pow2(k) <= 2 * self.size,
        ensures
            self.data@[j] == fold_range::<M>(self.data@, j * pow2(k), (j + 1) * pow2(k)),
        decreases k,
    {
        lemma_pow2_pos(k);
        assert(j * pow2(k) == (j + 1) * pow2(k) - pow2(k)) by (nonlinear_arith);
        lemma_pos_mul(j, k);
        if k == 0 {
            assert(pow2(0) == 1) by {
                vstd::arithmetic::power2::lemma2_to64();
            }
            let p = pow2(k) as int;
            assert(p == 1);
            assert(j * p == j && (j + 1) * p == j + 1) by (nonlinear_arith)
                requires
                    p == 1,
            ;
            lemma_fold_single::<M>(self.data@, j);
        } else {
            lemma_pow2_pos(k);
            lemma_internal(j, k, self.size as int);
            lemma_children_span(j, k);
            assert(self.node_ok(j));
            self.lemma_node(2 * j, (k - 1) as nat);
            self.lemma_node(2 * j + 1, (k - 1) as nat);
            lemma_fold_split::<M>(
                self.data@,
                j * pow2(k),
                (2 * j + 1) * pow2((k - 1) as nat),
                (j + 1) * pow2(k),
            );
        }
    }

    /// A fold of the elements is a fold of the leaves.
    proof fn lemma_view_fold(&self, l: int, r: int)
        requires
            self.shape_ok(),
            0 <= l <= r <= self.len,
        ensures
            fold_range::<M>(self@, l, r) == fold_range::<M>(
                self.data@,
                self.size + l,
                self.size + r,
            ),
    {
        lemma_fold_shift::<M>(self.data@, self@, self.size as int, l, r);
    }

    /// Builds a tree of `n` elements, all the identity.
    pub fn new(n: usize) -> (r: Self)
        where
            M: Default,
        requires
            n <= MAX_LEN,
        ensures
            r.wf(),
            r@ == Seq::new(n as nat, |i: int| M::id_spec()),
    {
        let m = M::default();
        let log_size = ceil_pow2(n);
        proof {
            vstd::bits::lemma_usize_shl_is_mul(1, log_size);
        }
        let size: usize = 1usize << log_size;
        assert(size < 2 * n || size == 1) by {
            if log_size > 0 {
                lemma_pow2_unfold(log_size as nat);
            }
            vstd::arithmetic::power2::lemma2_to64();
        }
        let e = m.id();
        let mut data: Vec<M::Set> = Vec::new();
        while data.len() < 2 * size
            invariant
                data.len() <= 2 * size,
                2 * size <= usize::MAX,
                forall|i: int| 0 <= i < data.len() ==> data@[i] == e,
            decreases 2 * size - data.len(),
        {
            data.push(e);
        }
        let r = SegTree { len: n, log_size, size, data, monoid: m };
        proof {
            assert forall|i: int| 1 <= i < r.size implies #[trigger] r.node_ok(i) by {
                M::lemma_id(e);
            }
            assert(r@ =~= Seq::new(n as nat, |i: int| M::id_spec()));
        }
        r
    }

    /// Recomputes node `i` from its children.
    fn update(&mut self, i: usize)
        requires
            1 <= i < old(self).size,
            old(self).shape_ok(),
        ensures
            final(self).data@ == old(self).data@.update(
                i as int,
                M::op_spec(old(self).data@[2 * i], old(self).data@[2 * i + 1]),
            ),
            final(self).len == old(self).len,
            final(self).size == old(self).size,
            final(self).log_size == old(self).log_size,
    {
        let v = self.monoid.op(self.data[2 * i], self.data[2 * i + 1]);
        self.data.set(i, v);
    }

    /// Builds a tree holding `v`, with one bottom-up pass over the internal nodes.
    pub fn from(v: Vec<M::Set>) -> (r: Self)
        where
            M: Default,
        requires
            v.len() <= MAX_LEN,
        ensures
            r.wf(),
            r@ == v@,
    {
        let mut seg = Self::new(v.len());
        let n = v.len();
        assert(seg@.len() == n);
        let mut i: usize = 0;
        while i < n
            invariant
                seg.shape_ok(),
                seg.len == n,
                n == v.len(),
                i <= n,
                forall|j: int| 0 <= j < i ==> seg.data@[seg.size + j] == v@[j],
            decreases n - i,
        {
            let p = seg.size + i;
            seg.data.set(p, v[i]);
            i = i + 1;
        }
        let mut k: usize = seg.size;
        while k > 1
            invariant
                seg.shape_ok(),
                seg.len == n,
                1 <= k <= seg.size,
                forall|j: int| 0 <= j < n ==> seg.data@[seg.size + j] == v@[j],
                forall|j: int| k <= j < seg.size ==> #[trigger] seg.node_ok(j),
            decreases k,
        {
            k = k - 1;
            let ghost before = seg;
            seg.update(k);
            assert forall|j: int| k <= j < seg.size implies #[trigger] seg.node_ok(j) by {
                if j > k {
                    assert(before.node_ok(j));
                }
            }
        }
        assert(seg@ =~= v@);
        seg
    }

    /// Replaces element `i` by `val` and recomputes its ancestors.
    pub fn set(&mut self, i: usize, val: M::Set)
        requires
            old(self).wf(),
            i < old(self)@.len(),
        ensures
            final(self).wf(),
            final(self)@ == old(self)@.update(i as int, val),
    {
        let p = self.size + i;
        self.data.set(p, val);
        let mut node = p / 2;
        assert(self@ =~= old(self)@.update(i as int, val));
        assert forall|q: int|
            1 <= q < self.size && !anc_or_self(q, node as int) implies #[trigger] self.node_ok(q) by {
            assert(old(self).node_ok(q));
            if q == node {
                assert(anc_or_self(q, node as int));
            }
        }
        while node >= 1
            invariant
                self.shape_ok(),
                self.len == old(self).len,
                self.size == old(self).size,
                node < self.size,
                self@ == old(self)@.update(i as int, val),
                forall|q: int|
                    1 <= q < self.size && !anc_or_self(q, node as int) ==> #[trigger] self.node_ok(q),
            decreases node,
        {
            let ghost before = *self;
            self.update(node);
            assert forall|q: int|
                1 <= q < self.size && !anc_or_self(q, (node / 2) as int) implies #[trigger] self.node_ok(q) by {
                if q != node {
                    assert(!anc_or_self(q, node as int));
                    assert(before.node_ok(q));
                }
            }
            assert(self@ =~= before@);
            node = node / 2;
        }
        proof {
            assert(old(self)@.update(i as int, val) =~= self@);
        }
    }

    /// The value of element `i`.
    pub fn index(&self, i: usize) -> (r: &M::Set)
        requires
            self.wf(),
            i < self@.len(),
        ensures
            *r == self@[i as int],
    {
        &self.data[self.size + i]
    }

    /// `op` reduced over the elements in `range`; the identity on an empty range.
    pub fn fold(&self, range: Range<usize>) -> (r: M::Set)
        requires
            self.wf(),
            range.start <= range.end <= self@.len(),
        ensures
            r == fold_range::<M>(self@, range.start as int, range.end as int),
            range.start == range.end ==> r == M::id_spec(),
    {
        proof {
            self.lemma_view_fold(range.start as int, range.end as int);
        }
        if range.start == range.end {
            return self.monoid.id();
        }
        let ghost lo = self.size + range.start;
        let ghost hi = self.size + range.end;
        let mut lpos = self.size + range.start;
        let mut rpos = self.size + range.end;
        let mut lv = self.monoid.id();
        let mut rv = self.monoid.id();
        let ghost mut k: nat = 0;
        assert(pow2(0) == 1) by {
            vstd::arithmetic::power2::lemma2_to64();
        }
        while lpos < rpos
            invariant
                self.wf(),
                self.size <= lo <= hi <= 2 * self.size,
                lpos <= rpos,
                lo <= lpos * pow2(k) <= rpos * pow2(k) <= hi,
                lv == fold_range::<M>(self.data@, lo, lpos * pow2(k)),
                rv == fold_range::<M>(self.data@, rpos * pow2(k), hi),
                rpos <= hi,
            decreases rpos - lpos,
        {
            proof {
                lemma_pow2_pos(k);
            }
            let ghost p = pow2(k) as int;
            if lpos % 2 == 1 {
                proof {
                    lemma_mul_pow2_le(lpos + 1, rpos as int, k);
                    assert((lpos + 1) * p == lpos * p + p) by (nonlinear_arith);
                    self.lemma_node(lpos as int, k);
                    lemma_fold_split::<M>(self.data@, lo, lpos * p, lpos * p + p);
                }
                lv = self.monoid.op(lv, self.data[lpos]);
                lpos = lpos + 1;
            }
            if rpos % 2 == 1 {
                rpos = rpos - 1;
                proof {
                    lemma_mul_pow2_le(lpos as int, rpos as int, k);
                    assert((rpos + 1) * p == rpos * p + p) by (nonlinear_arith);
                    self.lemma_node(rpos as int, k);
                    lemma_fold_split::<M>(self.data@, rpos * p, rpos * p + p, hi);
                }
                rv = self.monoid.op(self.data[rpos], rv);
            }
            proof {
                lemma_halve(lpos as int, k);
                lemma_halve(rpos as int, k);
            }
            lpos = lpos / 2;
            rpos = rpos / 2;
            proof {
                k = k + 1;
            }
        }
        proof {
            lemma_fold_split::<M>(self.data@, lo, lpos * pow2(k), hi);
        }
        self.monoid.op(lv, rv)
    }
}

impl<M: Monoid> SegTree<M> {
    /// Leaves past the end do not change a fold that reaches them.
    proof fn lemma_padding(&self, lo: int, p: int)
        requires
            self.wf(),
            lo <= self.size + self.len <= p <= 2 * self.size,
        ensures
            fold_range::<M>(self.data@, lo, p) == fold_range::<M>(self.data@, lo, self.size + self.len),
    {
        lemma_fold_id_tail::<M>(self.data@, lo, self.size + self.len, p);
    }

    /// Binary search over prefix folds from `l`: the largest `r` such that
    /// `f` accepts the fold of every `[l, k)` with `k <= r`.
    pub fn bisect_fold<F: Fn(&M::Set) -> bool>(&self, l: usize, f: F) -> (r: usize)
        requires
            self.wf(),
            l <= self@.len(),
            is_predicate(f),
            accepts(f, M::id_spec()),
            prefix_monotone::<M, F>(f, self@, l as int),
        ensures
            l <= r <= self@.len(),
            forall|k: int| l <= k <= r ==> accepts(f, #[trigger] fold_range::<M>(self@, l as int, k)),
            r < self@.len() ==> !accepts(f, fold_range::<M>(self@, l as int, r + 1)),
    {
        if l == self.len {
            proof {
                assert(fold_range::<M>(self@, l as int, l as int) == M::id_spec());
                lemma_prefix_all::<M, F>(f, self@, l as int, l as int);
            }
            return self.len;
        }
        let ghost lo = self.size + l;
        let ghost log = self.log_size as nat;
        let mut pos = self.size + l;
        let mut width: usize = 1;
        let ghost mut k: nat = 0;
        let mut v = self.monoid.id();
        proof {
            vstd::arithmetic::power2::lemma2_to64();
            lemma_pow2_unfold(log + 1);
        }
        loop
            invariant_except_break
                pos * pow2(k) < 2 * self.size,
            invariant
                self.wf(),
                self.size <= lo < self.size + self.len,
                lo == self.size + l,
                l < self.len,
                is_predicate(f),
                width == pow2(k),
                prefix_monotone::<M, F>(f, self@, l as int),
                pos >= 1,
                lo <= pos * pow2(k) <= 2 * self.size,
                2 * self.size == pow2(log + 1),
                v == fold_range::<M>(self.data@, lo, pos * pow2(k)),
                accepts(f, v),
            ensures
                pos * pow2(k) == 2 * self.size,
            decreases 2 * self.size - pos * pow2(k),
        {
            let ghost start = pos * pow2(k);
            while pos % 2 == 0
                invariant
                    pos * pow2(k) == start,
                    self.wf(),
                    width == pow2(k),
                    pos >= 1,
                    lo <= pos * pow2(k) < 2 * self.size,
                    2 * self.size == pow2(log + 1),
                    v == fold_range::<M>(self.data@, lo, pos * pow2(k)),
                decreases pos,
            {
                proof {
                    lemma_halve(pos as int, k);
                    lemma_pow2_unfold(k + 1);
                    lemma_level_bound((pos / 2) as int, k + 1, log + 1);
                    vstd::arithmetic::power2::lemma_pow2_strictly_increases(k + 1, log + 1);
                }
                pos = pos / 2;
                width = width * 2;
                proof {
                    k = k + 1;
                }
            }
            proof {
                lemma_pow2_pos(k);
                lemma_level_bound(pos as int, k, log + 1);
                lemma_next_block(pos as int, k, log + 1);
                self.lemma_node(pos as int, k);
                assert((pos + 1) * pow2(k) == pos * pow2(k) + pow2(k)) by (nonlinear_arith);
                lemma_fold_split::<M>(self.data@, lo, pos * pow2(k), (pos + 1) * pow2(k));
                assert(pos <= pos * pow2(k)) by (nonlinear_arith)
                    requires
                        pow2(k) >= 1,
                        pos >= 1,
                ;
            }
            let next = self.monoid.op(v, self.data[pos]);
            if !f(&next) {
                while pos < self.size
                    invariant
                        self.wf(),
                        is_predicate(f),
                        prefix_monotone::<M, F>(f, self@, l as int),
                        self.size <= lo < self.size + self.len,
                        lo == self.size + l,
                        width == pow2(k),
                        pos >= 1,
                        lo <= pos * pow2(k),
                        (pos + 1) * pow2(k) <= 2 * self.size,
                        v == fold_range::<M>(self.data@, lo, pos * pow2(k)),
                        accepts(f, v),
                        !accepts(f, fold_range::<M>(self.data@, lo, (pos + 1) * pow2(k))),
                    decreases k,
                {
                    proof {
                        if k == 0 {
                            vstd::arithmetic::power2::lemma2_to64();
                            assert(pos * pow2(k) == pos) by (nonlinear_arith)
                                requires
                                    pow2(k) == 1,
                            ;
                        }
                        lemma_children_span(pos as int, k);
                        lemma_pow2_pos((k - 1) as nat);
                    }
                    pos = 2 * pos;
                    width = width / 2;
                    proof {
                        k = (k - 1) as nat;
                        self.lemma_node(pos as int, k);
                        lemma_fold_split::<M>(self.data@, lo, pos * pow2(k), (pos + 1) * pow2(k));
                    }
                    let val = self.monoid.op(v, self.data[pos]);
                    if f(&val) {
                        v = val;
                        pos = pos + 1;
                    }
                }
                proof {
                    if k > 0 {
                        lemma_pow2_unfold(k);
                        lemma_pow2_pos((k - 1) as nat);
                        assert((pos + 1) * pow2(k) >= 2 * pos + 2) by (nonlinear_arith)
                            requires
                                pow2(k) >= 2,
                                pos >= 1,
                        ;
                    }
                    vstd::arithmetic::power2::lemma2_to64();
                    assert(pow2(k) == 1);
                    assert(pos * pow2(k) == pos && (pos + 1) * pow2(k) == pos + 1) by (nonlinear_arith)
                        requires
                            pow2(k) == 1,
                    ;
                    if pos >= self.size + self.len {
                        self.lemma_padding(lo, pos as int);
                        self.lemma_padding(lo, pos + 1);
                    }
                    self.lemma_view_fold(l as int, (pos - self.size) as int);
                    self.lemma_view_fold(l as int, (pos - self.size + 1) as int);
                    lemma_prefix_all::<M, F>(f, self@, l as int, (pos - self.size) as int);
                }
                return pos - self.size;
            }
            v = next;
            pos = pos + 1;
            if pos * width == 2 * self.size {
                break;
            }
        }
        proof {
            self.lemma_padding(lo, 2 * self.size);
            self.lemma_view_fold(l as int, self.len as int);
            lemma_prefix_all::<M, F>(f, self@, l as int, self.len as int);
        }
        self.len
    }
}

impl<M: Monoid> SegTree<M> {
    /// Binary search over suffix folds ending at `r`: the smallest `l` such
    /// that `f` accepts the fold of every `[k, r)` with `l <= k`.
    pub fn bisect_fold_rev<F: Fn(&M::Set) -> bool>(&self, r: usize, f: F) -> (l: usize)
        requires
            self.wf(),
            r <= self@.len(),
            is_predicate(f),
            accepts(f, M::id_spec()),
            suffix_monotone::<M, F>(f, self@, r as int),
        ensures
            l <= r,
            forall|k: int| l <= k <= r ==> accepts(f, #[trigger] fold_range::<M>(self@, k, r as int)),
            l > 0 ==> !accepts(f, fold_range::<M>(self@, l - 1, r as int)),
    {
        if r == 0 {
            proof {
                assert(fold_range::<M>(self@, 0, 0) == M::id_spec());
                lemma_suffix_all::<M, F>(f, self@, 0, 0);
            }
            return 0;
        }
        let ghost hi = self.size + r;
        let ghost log = self.log_size as nat;
        let mut pos = self.size + r;
        let mut width: usize = 1;
        let ghost mut k: nat = 0;
        let mut v = self.monoid.id();
        proof {
            vstd::arithmetic::power2::lemma2_to64();
            lemma_pow2_unfold(log + 1);
        }
        loop
            invariant_except_break
                pos * pow2(k) > self.size,
            invariant
                self.wf(),
                self.size < hi <= self.size + self.len,
                hi == self.size + r,
                0 < r <= self.len,
                log == self.log_size as nat,
                is_predicate(f),
                suffix_monotone::<M, F>(f, self@, r as int),
                width == pow2(k),
                k <= log,
                pos >= 1,
                self.size <= pos * pow2(k) <= hi,
                2 * self.size == pow2(log + 1),
                v == fold_range::<M>(self.data@, pos * pow2(k), hi),
                accepts(f, v),
            ensures
                pos * pow2(k) == self.size,
            decreases pos * pow2(k),
        {
            proof {
                lemma_prev_block(pos as int, k, log);
                lemma_pow2_pos(k);
                assert((pos - 1) * pow2(k) == pos * pow2(k) - pow2(k)) by (nonlinear_arith);
                lemma_pos_mul(pos - 1, k);
            }
            pos = pos - 1;
            let ghost end = (pos + 1) * pow2(k);
            while pos > 1 && pos % 2 == 1
                invariant
                    self.wf(),
                    2 * self.size == pow2(log + 1),
                    self.size == pow2(log),
                    width == pow2(k),
                    k <= log,
                    pos >= 1,
                    self.size <= pos * pow2(k),
                    (pos + 1) * pow2(k) == end,
                    end <= hi <= 2 * self.size,
                decreases pos,
            {
                proof {
                    lemma_odd_not_pow2(pos as int, k, log);
                    lemma_prev_block(pos as int, k, log);
                    lemma_halve(pos - 1, k);
                    lemma_pow2_unfold(k + 1);
                    lemma_pow2_pos(k);
                    assert(((pos - 1) / 2 + 1) * pow2(k + 1) == ((pos - 1) / 2) * pow2(k + 1) + pow2(k + 1))
                        by (nonlinear_arith);
                    assert((pos + 1) * pow2(k) == (pos - 1) * pow2(k) + 2 * pow2(k)) by (nonlinear_arith);
                    assert((pos - 1) * pow2(k) < 2 * self.size);
                    lemma_level_bound((pos - 1) / 2, k + 1, log + 1);
                }
                pos = pos / 2;
                width = width * 2;
                proof {
                    k = k + 1;
                }
            }
            proof {
                lemma_pow2_pos(k);
                self.lemma_node(pos as int, k);
                assert((pos + 1) * pow2(k) == pos * pow2(k) + pow2(k)) by (nonlinear_arith);
                lemma_fold_split::<M>(self.data@, pos * pow2(k), (pos + 1) * pow2(k), hi);
                assert(pos <= pos * pow2(k)) by (nonlinear_arith)
                    requires
                        pow2(k) >= 1,
                        pos >= 1,
                ;
            }
            let next = self.monoid.op(self.data[pos], v);
            if !f(&next) {
                while pos < self.size
                    invariant
                        self.wf(),
                        is_predicate(f),
                        suffix_monotone::<M, F>(f, self@, r as int),
                        self.size < hi <= self.size + self.len,
                        hi == self.size + r,
                        width == pow2(k),
                        pos >= 1,
                        self.size <= pos * pow2(k),
                        (pos + 1) * pow2(k) <= hi,
                        v == fold_range::<M>(self.data@, (pos + 1) * pow2(k), hi),
                        accepts(f, v),
                        !accepts(f, fold_range::<M>(self.data@, pos * pow2(k), hi)),
                    decreases k,
                {
                    proof {
                        if k == 0 {
                            vstd::arithmetic::power2::lemma2_to64();
                            assert(pos * pow2(k) == pos) by (nonlinear_arith)
                                requires
                                    pow2(k) == 1,
                            ;
                        }
                        lemma_children_span(pos as int, k);
                        lemma_pow2_pos((k - 1) as nat);
                    }
                    pos = 2 * pos + 1;
                    width = width / 2;
                    proof {
                        k = (k - 1) as nat;
                        self.lemma_node(pos as int, k);
                        assert((pos + 1) * pow2(k) == pos * pow2(k) + pow2(k)) by (nonlinear_arith);
                        lemma_fold_split::<M>(self.data@, pos * pow2(k), (pos + 1) * pow2(k), hi);
                        assert((pos - 1 + 1) * pow2(k) == pos * pow2(k));
                        assert((pos - 1) * pow2(k) == pos * pow2(k) - pow2(k)) by (nonlinear_arith);
                    }
                    let val = self.monoid.op(self.data[pos], v);
                    if f(&val) {
                        v = val;
                        pos = pos - 1;
                    }
                }
                proof {
                    if k > 0 {
                        lemma_pow2_unfold(k);
                        lemma_pow2_pos((k - 1) as nat);
                        assert((pos + 1) * pow2(k) >= 2 * pos + 2) by (nonlinear_arith)
                            requires
                                pow2(k) >= 2,
                                pos >= 1,
                        ;
                    }
                    vstd::arithmetic::power2::lemma2_to64();
                    assert(pow2(k) == 1);
                    assert(pos * pow2(k) == pos && (pos + 1) * pow2(k) == pos + 1) by (nonlinear_arith)
                        requires
                            pow2(k) == 1,
                    ;
                    self.lemma_view_fold((pos + 1 - self.size) as int, r as int);
                    self.lemma_view_fold((pos - self.size) as int, r as int);
                    lemma_suffix_all::<M, F>(f, self@, (pos + 1 - self.size) as int, r as int);
                }
                return pos + 1 - self.size;
            }
            v = next;
            if pos * width == self.size {
                break;
            }
        }
        proof {
            self.lemma_view_fold(0, r as int);
            lemma_suffix_all::<M, F>(f, self@, 0, r as int);
        }
        0
    }
}

} // verus!
