//! Lazy segment tree: range application of operators and range folds, both in
//! `O(log n)`, by keeping pending operators on internal nodes.
//!
//! Operators compose with the newer one on the left: `x.op(&y)` is "apply `y`,
//! then `x`", so `act(op(x, y), s) == act(x, act(y, s))`.
use core::marker::PhantomData;
use vstd::arithmetic::power2::{lemma_pow2_pos, lemma_pow2_unfold, pow2};
use vstd::prelude::*;

use crate::algebra::{
    accepts, fold_range, is_predicate, lemma_fold_id_tail, lemma_fold_shift, lemma_fold_single,
    lemma_fold_split, lemma_prefix_all, lemma_suffix_all, prefix_monotone, suffix_monotone,
    Associative, Identity, Magma,
};
use crate::tree::{
    anc_or_self, lemma_span_anc, lemma_anc_pow, lemma_anc_trans, lemma_anc_up, lemma_children_span, lemma_cursor_parent,
    lemma_halve, lemma_internal, lemma_level_bound, lemma_mul_pow2_le, lemma_next_block,
    lemma_odd_not_pow2, lemma_pos_mul, lemma_prev_block,
};

verus! {

/// A monoid whose elements are the values themselves.
pub trait Monoid: Sized + Copy {
    spec fn op_spec(x: Self, y: Self) -> Self;

    spec fn e_spec() -> Self;

    proof fn lemma_assoc(x: Self, y: Self, z: Self)
        ensures
            Self::op_spec(Self::op_spec(x, y), z) == Self::op_spec(x, Self::op_spec(y, z)),
    ;

    proof fn lemma_e(x: Self)
        ensures
            Self::op_spec(Self::e_spec(), x) == x,
            Self::op_spec(x, Self::e_spec()) == x,
    ;

    fn op(&self, other: &Self) -> (r: Self)
        ensures
            r == Self::op_spec(*self, *other),
    ;

    fn e() -> (r: Self)
        ensures
            r == Self::e_spec(),
    ;
}

/// Operators of a monoid acting on the values of `S`: the identity acts as
/// nothing, composition acts as applying in turn, and each operator maps the
/// operation of `S` to itself.
pub trait Action<S: Monoid>: Monoid {
    spec fn act_spec(x: Self, s: S) -> S;

    proof fn lemma_act_e(s: S)
        ensures
            Self::act_spec(Self::e_spec(), s) == s,
    ;

    proof fn lemma_act_compose(x: Self, y: Self, s: S)
        ensures
            Self::act_spec(Self::op_spec(x, y), s) == Self::act_spec(x, Self::act_spec(y, s)),
    ;

    proof fn lemma_act_op(x: Self, s: S, t: S)
        ensures
            Self::act_spec(x, S::op_spec(s, t)) == S::op_spec(
                Self::act_spec(x, s),
                Self::act_spec(x, t),
            ),
    ;

    fn act(&self, s: &S) -> (r: S)
        ensures
            r == Self::act_spec(*self, *s),
    ;
}

/// The operation of a value monoid, seen as an operator type, so that folds
/// over values are `fold_range::<ValueOp<S>>`.
pub struct ValueOp<S> {
    pub phantom: PhantomData<S>,
}

impl<S: Monoid> Magma for ValueOp<S> {
    type Set = S;

    open spec fn op_spec(x: S, y: S) -> S {
        S::op_spec(x, y)
    }

    fn op(&self, x: S, y: S) -> (r: S) {
        x.op(&y)
    }
}

impl<S: Monoid> Associative for ValueOp<S> {
    proof fn lemma_assoc(x: S, y: S, z: S) {
        S::lemma_assoc(x, y, z);
    }
}

impl<S: Monoid> Identity for ValueOp<S> {
    open spec fn id_spec() -> S {
        S::e_spec()
    }

    proof fn lemma_id(x: S) {
        S::lemma_e(x);
    }

    fn id(&self) -> (r: S) {
        S::e()
    }
}

/// The composition of the pending operators of the strict ancestors of node
/// `q`, the root's outermost.
pub open spec fn pend<X: Monoid>(lz: Seq<X>, q: int) -> X
    decreases q,
{
    if q <= 1 {
        X::e_spec()
    } else {
        X::op_spec(pend::<X>(lz, q / 2), lz[q / 2])
    }
}

/// An ancestor is never below its descendant.
pub proof fn lemma_anc_le(a: int, x: int)
    requires
        anc_or_self(a, x),
    ensures
        1 <= a <= x,
    decreases x,
{
    if a != x {
        lemma_anc_le(a, x / 2);
    }
}

/// `pend` reads only the strict ancestors.
pub proof fn lemma_pend_frame<X: Monoid>(lz1: Seq<X>, lz2: Seq<X>, p: int)
    requires
        forall|a: int| anc_or_self(a, p / 2) ==> lz1[a] == lz2[a],
    ensures
        pend::<X>(lz1, p) == pend::<X>(lz2, p),
    decreases p,
{
    if p > 1 {
        assert(anc_or_self(p / 2, p / 2));
        assert forall|a: int| anc_or_self(a, (p / 2) / 2) implies lz1[a] == lz2[a] by {
            assert(anc_or_self(a, p / 2));
        }
        lemma_pend_frame::<X>(lz1, lz2, p / 2);
    }
}

/// A strict descendant of `k` is a child of `k` or below one.
pub proof fn lemma_below(k: int, p: int)
    requires
        anc_or_self(k, p / 2),
    ensures
        p == 2 * k || p == 2 * k + 1 || anc_or_self(2 * k, p / 2) || anc_or_self(2 * k + 1, p / 2),
    decreases p,
{
    if p / 2 != k {
        lemma_below(k, p / 2);
        if p / 2 == 2 * k {
            assert(anc_or_self(2 * k, p / 2));
        } else if p / 2 == 2 * k + 1 {
            assert(anc_or_self(2 * k + 1, p / 2));
        } else if anc_or_self(2 * k, (p / 2) / 2) {
            assert(anc_or_self(2 * k, p / 2));
        } else {
            assert(anc_or_self(2 * k + 1, p / 2));
        }
    }
}

/// Composing `x` on the left of the pending operator of `q`, when nothing is
/// pending above `q`, composes `x` on the left of everything pending below `q`.
pub proof fn lemma_pend_shift<X: Monoid>(lz: Seq<X>, q: int, x: X, p: int)
    requires
        pend::<X>(lz, q) == X::e_spec(),
        anc_or_self(q, p / 2),
        p / 2 < lz.len(),
    ensures
        pend::<X>(lz.update(q, X::op_spec(x, lz[q])), p) == X::op_spec(x, pend::<X>(lz, p)),
    decreases p,
{
    let lz2 = lz.update(q, X::op_spec(x, lz[q]));
    lemma_anc_le(q, p / 2);
    if p / 2 == q {
        assert forall|a: int| anc_or_self(a, q / 2) implies lz[a] == lz2[a] by {
            lemma_anc_le(a, q / 2);
        }
        lemma_pend_frame::<X>(lz, lz2, q);
        assert(pend::<X>(lz2, p) == X::op_spec(pend::<X>(lz2, q), lz2[q]));
        X::lemma_e(X::op_spec(x, lz[q]));
        X::lemma_e(lz[q]);
    } else {
        lemma_pend_shift::<X>(lz, q, x, p / 2);
        X::lemma_assoc(x, pend::<X>(lz, p / 2), lz[p / 2]);
    }
}

/// Pushing the pending operator `z` of `k` onto its children leaves the
/// composition pending above every strict descendant of a child unchanged.
pub proof fn lemma_pend_push<X: Monoid>(lz: Seq<X>, lz2: Seq<X>, k: int, p: int)
    requires
        1 <= k,
        lz2.len() == lz.len(),
        p / 2 < lz.len(),
        lz2[k] == X::e_spec(),
        lz2[2 * k] == X::op_spec(lz[k], lz[2 * k]),
        lz2[2 * k + 1] == X::op_spec(lz[k], lz[2 * k + 1]),
        forall|a: int| 0 <= a < lz.len() && a != k && a != 2 * k && a != 2 * k + 1 ==> lz2[a] == lz[a],
        anc_or_self(2 * k, p / 2) || anc_or_self(2 * k + 1, p / 2),
    ensures
        pend::<X>(lz2, p) == pend::<X>(lz, p),
    decreases p,
{
    let c = if anc_or_self(2 * k, p / 2) { 2 * k } else { 2 * k + 1 };
    lemma_anc_le(c, p / 2);
    if p / 2 == c {
        assert forall|a: int| anc_or_self(a, k / 2) implies lz[a] == lz2[a] by {
            lemma_anc_le(a, k / 2);
        }
        lemma_pend_frame::<X>(lz, lz2, k);
        assert(pend::<X>(lz2, p) == X::op_spec(pend::<X>(lz2, c), lz2[c]));
        assert(pend::<X>(lz2, c) == X::op_spec(pend::<X>(lz2, k), lz2[k]));
        assert(pend::<X>(lz, c) == X::op_spec(pend::<X>(lz, k), lz[k]));
        X::lemma_e(pend::<X>(lz, k));
        X::lemma_assoc(pend::<X>(lz, k), lz[k], lz[c]);
    } else {
        lemma_pend_push::<X>(lz, lz2, k, p / 2);
        if p / 2 == 2 * k || p / 2 == 2 * k + 1 {
            lemma_anc_le(c, (p / 2) / 2);
        }
    }
}

/// Nothing pending above `p` composes to the identity.
pub proof fn lemma_clean_pend<X: Monoid>(lz: Seq<X>, p: int)
    requires
        forall|a: int| anc_or_self(a, p / 2) ==> lz[a] == X::e_spec(),
    ensures
        pend::<X>(lz, p) == X::e_spec(),
    decreases p,
{
    if p > 1 {
        assert(anc_or_self(p / 2, p / 2));
        assert forall|a: int| anc_or_self(a, (p / 2) / 2) implies lz[a] == X::e_spec() by {
            assert(anc_or_self(a, p / 2));
        }
        lemma_clean_pend::<X>(lz, p / 2);
        X::lemma_e(X::e_spec());
    }
}

/// One step up from height `i` of leaf position `p`.
pub proof fn lemma_up(p: int, i: nat)
    requires
        p >= 0,
    ensures
        (p / (pow2(i) as int)) / 2 == p / (pow2(i + 1) as int),
{
    lemma_pow2_pos(i);
    lemma_pow2_unfold(i + 1);
    vstd::arithmetic::div_mod::lemma_div_denominator(p, pow2(i) as int, 2);
}

/// Largest length a tree can be built with.
pub const MAX_LEN: usize = usize::MAX / 4;

/// Lazy segment tree over values `S` and operators `X`: `data` as in a plain
/// segment tree, and `lazy[k]` an operator already applied to `data[k]` but
/// not yet to the children of `k`.
pub struct LazySegTree<S, X> {
    n: usize,
    size: usize,
    log: usize,
    data: Vec<S>,
    lazy: Vec<X>,
}

impl<S: Monoid, X: Monoid + Action<S>> LazySegTree<S, X> {
    /// The value node `q` stands for: its data under everything pending above it.
    pub closed spec fn tv(&self, q: int) -> S {
        X::act_spec(pend::<X>(self.lazy@, q), self.data@[q])
    }

    /// The values all nodes stand for, by node index.
    pub closed spec fn tvals(&self) -> Seq<S> {
        Seq::new(2 * self.size as nat, |q: int| self.tv(q))
    }

    /// The elements, in order.
    pub closed spec fn view(&self) -> Seq<S> {
        Seq::new(self.n as nat, |i: int| self.tv(self.size + i))
    }

    pub closed spec fn node_ok(&self, k: int) -> bool {
        self.data@[k] == X::act_spec(
            self.lazy@[k],
            S::op_spec(self.data@[2 * k], self.data@[2 * k + 1]),
        )
    }

    pub closed spec fn shape_ok(&self) -> bool {
        &&& self.size == pow2(self.log as nat)
        &&& self.size >= 1
        &&& self.n <= self.size
        &&& self.data@.len() == 2 * self.size
        &&& self.lazy@.len() == self.size
        &&& 2 * self.size <= usize::MAX
        &&& self.log < usize::BITS
    }

    pub closed spec fn padding_ok(&self) -> bool {
        forall|p: int| self.size + self.n <= p < 2 * self.size ==> #[trigger] self.tv(p) == S::e_spec()
    }

    /// Every internal node holds its pending operator applied to the operation
    /// of its children, and leaves past the end stand for the identity.
    pub closed spec fn wf(&self) -> bool {
        &&& self.shape_ok()
        &&& self.padding_ok()
        &&& forall|k: int| 1 <= k < self.size ==> #[trigger] self.node_ok(k)
    }

    /// Under the invariant, node `q` at height `h` stands for the fold of the
    /// values of its leaves.
    proof fn lemma_node(&self, q: int, h: nat)
        requires
            self.shape_ok(),
            forall|k: int| 1 <= k < self.size ==> #[trigger] self.node_ok(k),
            self.size <= q * pow2(h),
            (q + 1) * pow2(h) <= 2 * self.size,
        ensures
            self.tv(q) == fold_range::<ValueOp<S>>(self.tvals(), q * pow2(h), (q + 1) * pow2(h)),
        decreases h,
    {
        lemma_pow2_pos(h);
        assert(q * pow2(h) == (q + 1) * pow2(h) - pow2(h)) by (nonlinear_arith);
        lemma_pos_mul(q, h);
        if h == 0 {
            vstd::arithmetic::power2::lemma2_to64();
            let p = pow2(h) as int;
            assert(q * p == q && (q + 1) * p == q + 1) by (nonlinear_arith)
                requires
                    p == 1,
            ;
            lemma_fold_single::<ValueOp<S>>(self.tvals(), q);
        } else {
            lemma_internal(q, h, self.size as int);
            lemma_children_span(q, h);
            assert(self.node_ok(q));
            let lz = self.lazy@;
            let pq = pend::<X>(lz, q);
            assert(pend::<X>(lz, 2 * q) == X::op_spec(pq, lz[q]));
            assert(pend::<X>(lz, 2 * q + 1) == X::op_spec(pq, lz[q]));
            X::lemma_act_compose(pq, lz[q], S::op_spec(self.data@[2 * q], self.data@[2 * q + 1]));
            X::lemma_act_op(X::op_spec(pq, lz[q]), self.data@[2 * q], self.data@[2 * q + 1]);
            self.lemma_node(2 * q, (h - 1) as nat);
            self.lemma_node(2 * q + 1, (h - 1) as nat);
            lemma_fold_split::<ValueOp<S>>(
                self.tvals(),
                q * pow2(h),
                (2 * q + 1) * pow2((h - 1) as nat),
                (q + 1) * pow2(h),
            );
        }
    }

    /// A fold of the elements is a fold of the values of the leaves.
    proof fn lemma_view_fold(&self, l: int, r: int)
        requires
            self.shape_ok(),
            0 <= l <= r <= self.n,
        ensures
            fold_range::<ValueOp<S>>(self@, l, r) == fold_range::<ValueOp<S>>(
                self.tvals(),
                self.size + l,
                self.size + r,
            ),
    {
        lemma_fold_shift::<ValueOp<S>>(self.tvals(), self@, self.size as int, l, r);
    }

    /// Recomputes node `i` from its children.
    fn update(&mut self, i: usize)
        requires
            1 <= i < old(self).size,
            old(self).shape_ok(),
        ensures
            final(self).data@ == old(self).data@.update(
                i as int,
                S::op_spec(old(self).data@[2 * i], old(self).data@[2 * i + 1]),
            ),
            final(self).lazy@ == old(self).lazy@,
            final(self).n == old(self).n,
            final(self).size == old(self).size,
            final(self).log == old(self).log,
    {
        let v = self.data[2 * i].op(&self.data[2 * i + 1]);
        self.data.set(i, v);
    }

    /// Applies `x` to node `k`, and records it as pending there if `k` is internal.
    fn all_apply(&mut self, k: usize, x: &X)
        requires
            1 <= k < 2 * old(self).size,
            old(self).shape_ok(),
        ensures
            final(self).data@ == old(self).data@.update(
                k as int,
                X::act_spec(*x, old(self).data@[k as int]),
            ),
            k < old(self).size ==> final(self).lazy@ == old(self).lazy@.update(
                k as int,
                X::op_spec(*x, old(self).lazy@[k as int]),
            ),
            k >= old(self).size ==> final(self).lazy@ == old(self).lazy@,
            k < old(self).size && old(self).node_ok(k as int) ==> final(self).node_ok(k as int),
            final(self).n == old(self).n,
            final(self).size == old(self).size,
            final(self).log == old(self).log,
    {
        proof {
            if k < self.size {
                X::lemma_act_compose(
                    *x,
                    self.lazy@[k as int],
                    S::op_spec(self.data@[2 * k], self.data@[2 * k + 1]),
                );
            }
        }
        let v = x.act(&self.data[k]);
        self.data.set(k, v);
        if k < self.size {
            let z = x.op(&self.lazy[k]);
            self.lazy.set(k, z);
        }
    }

    /// Moves the pending operator of `k` onto its children.
    fn push(&mut self, k: usize)
        requires
            1 <= k < old(self).size,
            old(self).shape_ok(),
        ensures
            final(self).shape_ok(),
            final(self).n == old(self).n,
            final(self).size == old(self).size,
            final(self).log == old(self).log,
            final(self).lazy@[k as int] == X::e_spec(),
            forall|a: int|
                0 <= a < old(self).size && a != k && a != 2 * k && a != 2 * k + 1 ==> final(self).lazy@[a]
                    == old(self).lazy@[a],
            forall|a: int|
                0 <= a < 2 * old(self).size && a != 2 * k && a != 2 * k + 1 ==> final(self).data@[a]
                    == old(self).data@[a],
            forall|q: int| 1 <= q < 2 * old(self).size ==> #[trigger] final(self).tv(q) == old(self).tv(q),
            forall|a: int| 1 <= a < old(self).size && old(self).node_ok(a) ==> #[trigger] final(self).node_ok(a),
            old(self).lazy@[k as int] == X::e_spec() ==> final(self).data@ == old(self).data@ && final(self).lazy@ == old(self).lazy@,
    {
        let ghost s0 = *self;
        let z = self.lazy[k];
        self.all_apply(2 * k, &z);
        self.all_apply(2 * k + 1, &z);
        self.lazy.set(k, X::e());
        proof {
            let lz = s0.lazy@;
            let lz2 = self.lazy@;
            if 2 * k < self.size {
                if self.log == 0 {
                    vstd::arithmetic::power2::lemma2_to64();
                } else {
                    lemma_pow2_unfold(self.log as nat);
                }
                assert(lz2[2 * k] == X::op_spec(lz[k as int], lz[2 * k]));
                assert(lz2[2 * k + 1] == X::op_spec(lz[k as int], lz[2 * k + 1]));
            }
            assert forall|q: int| 1 <= q < 2 * s0.size implies #[trigger] self.tv(q) == s0.tv(q) by {
                if q == 2 * k || q == 2 * k + 1 {
                    assert forall|a: int| anc_or_self(a, (k / 2) as int) implies lz[a] == lz2[a] by {
                        lemma_anc_le(a, (k / 2) as int);
                    }
                    lemma_pend_frame::<X>(lz, lz2, k as int);
                    X::lemma_e(pend::<X>(lz, k as int));
                    X::lemma_act_compose(pend::<X>(lz, k as int), z, s0.data@[q]);
                } else if anc_or_self(2 * k, q / 2) || anc_or_self(2 * k + 1, q / 2) {
                    if anc_or_self(2 * k, q / 2) {
                        lemma_anc_le(2 * k, q / 2);
                    } else {
                        lemma_anc_le(2 * k + 1, q / 2);
                    }
                    lemma_pend_push::<X>(lz, lz2, k as int, q);
                } else {
                    assert forall|a: int| anc_or_self(a, q / 2) implies lz[a] == lz2[a] by {
                        lemma_anc_le(a, q / 2);
                        if a == k {
                            lemma_below(k as int, q);
                        }
                    }
                    lemma_pend_frame::<X>(lz, lz2, q);
                }
            }
            assert forall|a: int| 1 <= a < s0.size && s0.node_ok(a) implies #[trigger] self.node_ok(a) by {
                if a == k {
                    X::lemma_act_e(S::op_spec(self.data@[2 * a], self.data@[2 * a + 1]));
                    X::lemma_act_op(z, s0.data@[2 * a], s0.data@[2 * a + 1]);
                } else if a == 2 * k || a == 2 * k + 1 {
                    X::lemma_act_compose(z, lz[a], S::op_spec(s0.data@[2 * a], s0.data@[2 * a + 1]));
                }
            }
            if lz[k as int] == X::e_spec() {
                X::lemma_act_e(s0.data@[2 * k]);
                X::lemma_act_e(s0.data@[2 * k + 1]);
                if 2 * k < self.size {
                    X::lemma_e(lz[2 * k]);
                    X::lemma_e(lz[2 * k + 1]);
                }
                assert(self.data@ =~= s0.data@);
                assert(self.lazy@ =~= s0.lazy@);
            }
        }
    }
}

impl<S: Monoid, X: Monoid + Action<S>> LazySegTree<S, X> {
    /// Every strict ancestor of `p` has nothing pending.
    pub closed spec fn clean(&self, p: int) -> bool {
        forall|a: int| anc_or_self(a, p / 2) ==> self.lazy@[a] == X::e_spec()
    }

    /// Pushes the pending operators on the path from the root down to leaf
    /// position `p`, top-down, so that nothing is pending above `p`.
    fn push_path(&mut self, p: usize)
        requires
            old(self).wf(),
            old(self).size <= p < 2 * old(self).size,
        ensures
            final(self).wf(),
            final(self).n == old(self).n,
            final(self).size == old(self).size,
            final(self).log == old(self).log,
            final(self).clean(p as int),
            forall|q: int| 1 <= q < 2 * old(self).size ==> #[trigger] final(self).tv(q) == old(self).tv(q),
            final(self)@ == old(self)@,
            forall|x: int|
                old(self).size <= x < 2 * old(self).size && #[trigger] old(self).clean(x) ==> final(self).clean(x),
    {
        let ghost s0 = *self;
        let mut i: usize = self.log;
        proof {
            vstd::arithmetic::power2::lemma_pow2_unfold((self.log + 1) as nat);
            assert(p as int / (pow2((self.log + 1) as nat) as int) == 0) by {
                vstd::arithmetic::div_mod::lemma_basic_div(p as int, pow2((self.log + 1) as nat) as int);
            }
        }
        while i >= 1
            invariant
                self.wf(),
                self.n == s0.n,
                self.size == s0.size,
                self.log == s0.log,
                s0.size <= p < 2 * s0.size,
                i <= self.log,
                forall|a: int| anc_or_self(a, p as int / (pow2((i + 1) as nat) as int)) ==> self.lazy@[a] == X::e_spec(),
                forall|q: int| 1 <= q < 2 * s0.size ==> #[trigger] self.tv(q) == s0.tv(q),
                forall|x: int| s0.size <= x < 2 * s0.size && #[trigger] s0.clean(x) ==> self.clean(x),
            decreases i,
        {
            proof {
                vstd::bits::lemma_usize_shr_is_div(p, i);
                lemma_up(p as int, i as nat);
                crate::tree::lemma_anc_range(p as int, i as nat, self.log as nat);
            }
            let a = p >> i;
            let ghost before = *self;
            self.push(a);
            proof {
                assert forall|q: int| 1 <= q < self.size implies #[trigger] self.node_ok(q) by {
                    assert(before.node_ok(q));
                }
                assert forall|x: int| s0.size <= x < 2 * s0.size && #[trigger] s0.clean(x) implies self.clean(x) by {
                    assert(before.clean(x));
                    assert forall|b: int| anc_or_self(b, x / 2) implies self.lazy@[b] == X::e_spec() by {
                        lemma_anc_le(b, x / 2);
                        assert(before.lazy@[b] == X::e_spec());
                        if b == 2 * a || b == 2 * a + 1 {
                            lemma_anc_up(b, x / 2);
                            assert(before.lazy@[a as int] == X::e_spec());
                        }
                    }
                }
                assert forall|b: int| anc_or_self(b, p as int / (pow2(i as nat) as int)) implies self.lazy@[b] == X::e_spec() by {
                    if b != a {
                        lemma_anc_le(b, (a / 2) as int);
                    }
                }
            }
            i = i - 1;
        }
        proof {
            vstd::arithmetic::power2::lemma2_to64();
            assert(self@ =~= s0@);
        }
    }
}

impl<S: Monoid, X: Monoid + Action<S>> LazySegTree<S, X> {
    /// Recomputes the ancestors of leaf position `p`, bottom-up; nothing is
    /// pending on them.
    fn pull_path(&mut self, p: usize)
        requires
            old(self).shape_ok(),
            old(self).size <= p < 2 * old(self).size,
            old(self).clean(p as int),
            forall|q: int|
                1 <= q < old(self).size && !anc_or_self(q, p as int / 2) ==> #[trigger] old(self).node_ok(q),
        ensures
            final(self).shape_ok(),
            forall|k: int| 1 <= k < final(self).size ==> #[trigger] final(self).node_ok(k),
            final(self).n == old(self).n,
            final(self).size == old(self).size,
            final(self).log == old(self).log,
            final(self).lazy@ == old(self).lazy@,
            forall|q: int| old(self).size <= q < 2 * old(self).size ==> final(self).data@[q] == old(self).data@[q],
    {
        let ghost s0 = *self;
        let mut node = p / 2;
        while node >= 1
            invariant
                self.shape_ok(),
                self.n == s0.n,
                self.size == s0.size,
                self.log == s0.log,
                self.lazy@ == s0.lazy@,
                s0.clean(p as int),
                node < self.size,
                node >= 1 ==> anc_or_self(node as int, p as int / 2),
                forall|q: int| self.size <= q < 2 * self.size ==> self.data@[q] == s0.data@[q],
                forall|q: int|
                    1 <= q < self.size && !anc_or_self(q, node as int) ==> #[trigger] self.node_ok(q),
            decreases node,
        {
            let ghost before = *self;
            self.update(node);
            proof {
                X::lemma_act_e(self.data@[node as int]);
                assert forall|q: int|
                    1 <= q < self.size && !anc_or_self(q, (node / 2) as int) implies #[trigger] self.node_ok(q) by {
                    if q != node {
                        assert(!anc_or_self(q, node as int));
                        assert(before.node_ok(q));
                    }
                }
                if node / 2 >= 1 {
                    lemma_anc_up(node as int, p as int / 2);
                }
            }
            node = node / 2;
        }
    }

    /// Builds a tree holding the values of `arr`.
    pub fn new(arr: &Vec<S>) -> (r: Self)
        requires
            arr.len() <= MAX_LEN,
        ensures
            r.wf(),
            r@ == arr@,
    {
        let n = arr.len();
        let log = crate::utils::ceil_pow2(n);
        proof {
            vstd::bits::lemma_usize_shl_is_mul(1, log);
        }
        let size: usize = 1usize << log;
        assert(size < 2 * n || size == 1) by {
            if log > 0 {
                lemma_pow2_unfold(log as nat);
            }
            vstd::arithmetic::power2::lemma2_to64();
        }
        let e = S::e();
        let ex = X::e();
        let mut data: Vec<S> = Vec::new();
        while data.len() < 2 * size
            invariant
                data.len() <= 2 * size,
                2 * size <= usize::MAX,
                forall|i: int| 0 <= i < data.len() ==> data@[i] == e,
            decreases 2 * size - data.len(),
        {
            data.push(e);
        }
        let mut lazy: Vec<X> = Vec::new();
        while lazy.len() < size
            invariant
                lazy.len() <= size,
                forall|i: int| 0 <= i < lazy.len() ==> lazy@[i] == ex,
            decreases size - lazy.len(),
        {
            lazy.push(ex);
        }
        let mut lst = LazySegTree { n, size, log, data, lazy };
        let mut i: usize = 0;
        while i < n
            invariant
                lst.shape_ok(),
                lst.n == n,
                lst.size == size,
                n == arr.len(),
                i <= n,
                forall|j: int| 0 <= j < size ==> lst.lazy@[j] == ex,
                forall|j: int| 0 <= j < i ==> lst.data@[size + j] == arr@[j],
                forall|j: int| size + n <= j < 2 * size ==> lst.data@[j] == e,
            decreases n - i,
        {
            lst.data.set(size + i, arr[i]);
            i = i + 1;
        }
        let mut k: usize = size;
        while k > 1
            invariant
                lst.shape_ok(),
                lst.n == n,
                lst.size == size,
                1 <= k <= size,
                ex == X::e_spec(),
                forall|j: int| 0 <= j < size ==> lst.lazy@[j] == ex,
                forall|j: int| 0 <= j < n ==> lst.data@[size + j] == arr@[j],
                forall|j: int| size + n <= j < 2 * size ==> lst.data@[j] == e,
                forall|j: int| k <= j < size ==> #[trigger] lst.node_ok(j),
            decreases k,
        {
            k = k - 1;
            let ghost before = lst;
            lst.update(k);
            proof {
                X::lemma_act_e(lst.data@[k as int]);
                assert forall|j: int| k <= j < size implies #[trigger] lst.node_ok(j) by {
                    if j > k {
                        assert(before.node_ok(j));
                    } else {
                        assert(lst.lazy@[j] == ex);
                    }
                }
            }
        }
        proof {
            assert forall|q: int| 1 <= q < 2 * size implies pend::<X>(lst.lazy@, q) == ex by {
                assert forall|a: int| anc_or_self(a, q / 2) implies lst.lazy@[a] == X::e_spec() by {
                    lemma_anc_le(a, q / 2);
                }
                lemma_clean_pend::<X>(lst.lazy@, q);
            }
            assert forall|p: int| size + n <= p < 2 * size implies #[trigger] lst.tv(p) == S::e_spec() by {
                X::lemma_act_e(e);
            }
            assert forall|j: int| 0 <= j < n implies lst@[j] == arr@[j] by {
                X::lemma_act_e(arr@[j]);
            }
            assert(lst@ =~= arr@);
        }
        lst
    }

    /// Replaces element `i` by `val`.
    pub fn set(&mut self, i: usize, val: S)
        requires
            old(self).wf(),
            i < old(self)@.len(),
        ensures
            final(self).wf(),
            final(self)@ == old(self)@.update(i as int, val),
    {
        let ghost s0 = *self;
        let p = self.size + i;
        self.push_path(p);
        let ghost s1 = *self;
        self.data.set(p, val);
        proof {
            assert forall|q: int|
                1 <= q < self.size && !anc_or_self(q, p as int / 2) implies #[trigger] self.node_ok(q) by {
                assert(s1.node_ok(q));
                if q == p / 2 {
                    assert(anc_or_self(q, p as int / 2));
                }
            }
        }
        self.pull_path(p);
        proof {
            lemma_clean_pend::<X>(self.lazy@, p as int);
            X::lemma_act_e(val);
            assert forall|q: int| self.size <= q < 2 * self.size && q != p implies #[trigger] self.tv(q) == s0.tv(q) by {
                assert(self.tv(q) == s1.tv(q));
            }
            assert(self@ =~= s0@.update(i as int, val));
        }
    }
}

impl<S: Monoid, X: Monoid + Action<S>> LazySegTree<S, X> {
    /// Nothing pending above a node makes its data the value it stands for.
    proof fn lemma_clean_tv(&self, q: int)
        requires
            self.shape_ok(),
            1 <= q < 2 * self.size,
            self.clean(q),
        ensures
            self.tv(q) == self.data@[q],
    {
        assert forall|a: int| anc_or_self(a, q / 2) implies self.lazy@[a] == X::e_spec() by {
            assert(self.clean(q));
        }
        lemma_clean_pend::<X>(self.lazy@, q);
        X::lemma_act_e(self.data@[q]);
    }

    /// Element `i`, after pushing pending operators down to it.
    pub fn get(&mut self, i: usize) -> (r: &S)
        requires
            old(self).wf(),
            i < old(self)@.len(),
        ensures
            final(self).wf(),
            final(self)@ == old(self)@,
            *r == old(self)@[i as int],
    {
        let p = self.size + i;
        self.push_path(p);
        proof {
            self.lemma_clean_tv(p as int);
        }
        &self.data[p]
    }

    /// The fold of all the elements.
    pub fn all_prod(&self) -> (r: S)
        requires
            self.wf(),
        ensures
            r == fold_range::<ValueOp<S>>(self@, 0, self@.len() as int),
    {
        proof {
            vstd::arithmetic::power2::lemma2_to64();
            lemma_pow2_unfold((self.log + 1) as nat);
            assert(1 * pow2(self.log as nat) == self.size);
            assert((1 + 1) * pow2(self.log as nat) == 2 * self.size);
            self.lemma_node(1, self.log as nat);
            X::lemma_act_e(self.data@[1]);
            crate::algebra::lemma_fold_id_tail::<ValueOp<S>>(
                self.tvals(),
                self.size as int,
                self.size + self.n,
                2 * self.size,
            );
            self.lemma_view_fold(0, self.n as int);
        }
        self.data[1]
    }

    /// Applies `x` to element `i`.
    pub fn apply(&mut self, i: usize, x: &X)
        requires
            old(self).wf(),
            i < old(self)@.len(),
        ensures
            final(self).wf(),
            final(self)@ == old(self)@.update(i as int, X::act_spec(*x, old(self)@[i as int])),
    {
        let ghost s0 = *self;
        let p = self.size + i;
        self.push_path(p);
        let ghost s1 = *self;
        proof {
            self.lemma_clean_tv(p as int);
        }
        let v = x.act(&self.data[p]);
        self.data.set(p, v);
        proof {
            assert forall|q: int|
                1 <= q < self.size && !anc_or_self(q, p as int / 2) implies #[trigger] self.node_ok(q) by {
                assert(s1.node_ok(q));
                if q == p / 2 {
                    assert(anc_or_self(q, p as int / 2));
                }
            }
        }
        self.pull_path(p);
        proof {
            lemma_clean_pend::<X>(self.lazy@, p as int);
            X::lemma_act_e(v);
            assert forall|q: int| self.size <= q < 2 * self.size && q != p implies #[trigger] self.tv(q) == s0.tv(q) by {
                assert(self.tv(q) == s1.tv(q));
            }
            assert(self@ =~= s0@.update(i as int, X::act_spec(*x, s0@[i as int])));
        }
    }
}

impl<S: Monoid, X: Monoid + Action<S>> LazySegTree<S, X> {
    /// A node selected by a boundary cursor has nothing pending above it, once
    /// the path to the leaf `x` next to that cursor has been pushed.
    proof fn lemma_cursor_clean(&self, c: int, k: nat, x: int, q: int)
        requires
            self.shape_ok(),
            self.size <= x < 2 * self.size,
            self.clean(x),
            c % 2 == 1,
            (c - 1) * pow2(k) <= x < (c + 1) * pow2(k),
            q / 2 == c / 2,
            1 <= q < 2 * self.size,
        ensures
            self.clean(q),
    {
        lemma_cursor_parent(c, k, x);
        lemma_pow2_pos(k);
        lemma_pow2_unfold(k + 1);
        vstd::arithmetic::div_mod::lemma_div_denominator(x, 2, pow2(k) as int);
        assert forall|a: int| anc_or_self(a, q / 2) implies self.lazy@[a] == X::e_spec() by {
            lemma_anc_le(a, q / 2);
            lemma_anc_pow(x / 2, k);
            lemma_anc_trans(a, q / 2, x / 2);
            assert(self.clean(x));
        }
    }

    /// `op` reduced over the elements in `[l, r)`; the identity on an empty
    /// range. Pushes the pending operators on both boundary paths first.
    pub fn prod(&mut self, l: usize, r: usize) -> (res: S)
        requires
            old(self).wf(),
            l <= r <= old(self)@.len(),
        ensures
            final(self).wf(),
            final(self)@ == old(self)@,
            res == fold_range::<ValueOp<S>>(old(self)@, l as int, r as int),
    {
        if l == r {
            return S::e();
        }
        let ghost s0 = *self;
        let lo = self.size + l;
        let hi = self.size + r;
        self.push_path(lo);
        self.push_path(hi - 1);
        proof {
            self.lemma_view_fold(l as int, r as int);
        }
        let mut lpos = lo;
        let mut rpos = hi;
        let mut sml = S::e();
        let mut smr = S::e();
        let ghost mut k: nat = 0;
        assert(pow2(0) == 1) by {
            vstd::arithmetic::power2::lemma2_to64();
        }
        while lpos < rpos
            invariant
                self.wf(),
                self.clean(lo as int),
                self.clean(hi - 1),
                self.size <= lo < hi <= 2 * self.size,
                lpos <= rpos,
                lo <= lpos * pow2(k) < lo + pow2(k),
                rpos * pow2(k) <= hi < rpos * pow2(k) + pow2(k),
                lpos * pow2(k) <= rpos * pow2(k),
                sml == fold_range::<ValueOp<S>>(self.tvals(), lo as int, lpos * pow2(k)),
                smr == fold_range::<ValueOp<S>>(self.tvals(), rpos * pow2(k), hi as int),
                rpos <= hi,
            decreases rpos - lpos,
        {
            proof {
                lemma_pow2_pos(k);
                lemma_pow2_unfold(k + 1);
            }
            let ghost p = pow2(k) as int;
            if lpos % 2 == 1 {
                proof {
                    lemma_mul_pow2_le(lpos + 1, rpos as int, k);
                    assert((lpos + 1) * p == lpos * p + p) by (nonlinear_arith);
                    assert((lpos - 1) * p == lpos * p - p) by (nonlinear_arith);
                    lemma_pos_mul(lpos as int, k);
                    self.lemma_node(lpos as int, k);
                    self.lemma_cursor_clean(lpos as int, k, lo as int, lpos as int);
                    self.lemma_clean_tv(lpos as int);
                    lemma_fold_split::<ValueOp<S>>(self.tvals(), lo as int, lpos * p, lpos * p + p);
                }
                sml = sml.op(&self.data[lpos]);
                lpos = lpos + 1;
            }
            if rpos % 2 == 1 {
                proof {
                    assert((rpos + 1) * p == rpos * p + p) by (nonlinear_arith);
                    assert((rpos - 1) * p == rpos * p - p) by (nonlinear_arith);
                    lemma_mul_pow2_le(lpos as int, rpos - 1, k);
                    lemma_pos_mul(rpos - 1, k);
                    self.lemma_node(rpos - 1, k);
                    self.lemma_cursor_clean(rpos as int, k, hi - 1, rpos - 1);
                    self.lemma_clean_tv(rpos - 1);
                    lemma_fold_split::<ValueOp<S>>(self.tvals(), rpos * p - p, rpos * p, hi as int);
                }
                rpos = rpos - 1;
                smr = self.data[rpos].op(&smr);
            }
            proof {
                lemma_halve(lpos as int, k);
                lemma_halve(rpos as int, k);
                assert((lpos + 1) * p == lpos * p + p) by (nonlinear_arith);
            }
            lpos = lpos / 2;
            rpos = rpos / 2;
            proof {
                k = k + 1;
            }
        }
        proof {
            lemma_fold_split::<ValueOp<S>>(self.tvals(), lo as int, lpos * pow2(k), hi as int);
        }
        sml.op(&smr)
    }
}

impl<S: Monoid, X: Monoid + Action<S>> LazySegTree<S, X> {
    /// Applying `x` at a node `q` of height `k` selected next to the boundary
    /// leaf `xpos` (through the odd cursor `c`) applies `x` to the values of
    /// exactly the leaves below `q`, and keeps the rest of the invariant.
    proof fn lemma_after_apply(
        &self,
        before: Self,
        q: int,
        k: nat,
        c: int,
        xpos: int,
        lo: int,
        hi: int,
        x: X,
    )
        requires
            before.shape_ok(),
            self.shape_ok(),
            self.size == before.size,
            self.log == before.log,
            self.size <= lo < hi <= 2 * self.size,
            xpos == lo || xpos == hi - 1,
            c % 2 == 1,
            (c - 1) * pow2(k) <= xpos < (c + 1) * pow2(k),
            q / 2 == c / 2,
            self.size <= q * pow2(k),
            (q + 1) * pow2(k) <= 2 * self.size,
            1 <= q < 2 * self.size,
            forall|a: int| anc_or_self(a, lo / (pow2(k + 1) as int)) ==> before.lazy@[a] == X::e_spec(),
            forall|a: int| anc_or_self(a, (hi - 1) / (pow2(k + 1) as int)) ==> before.lazy@[a] == X::e_spec(),
            forall|a: int|
                1 <= a < before.size && !anc_or_self(a, lo / 2) && !anc_or_self(a, (hi - 1) / 2)
                    ==> #[trigger] before.node_ok(a),
            self.data@ == before.data@.update(q, X::act_spec(x, before.data@[q])),
            q < self.size ==> self.lazy@ == before.lazy@.update(q, X::op_spec(x, before.lazy@[q])),
            q >= self.size ==> self.lazy@ == before.lazy@,
            q < self.size && before.node_ok(q) ==> self.node_ok(q),
        ensures
            forall|a: int| anc_or_self(a, lo / (pow2(k + 1) as int)) ==> self.lazy@[a] == X::e_spec(),
            forall|a: int| anc_or_self(a, (hi - 1) / (pow2(k + 1) as int)) ==> self.lazy@[a] == X::e_spec(),
            forall|a: int|
                1 <= a < self.size && !anc_or_self(a, lo / 2) && !anc_or_self(a, (hi - 1) / 2)
                    ==> #[trigger] self.node_ok(a),
            forall|p: int|
                self.size <= p < 2 * self.size ==> #[trigger] self.tv(p) == (if q * pow2(k) <= p < (q + 1)
                    * pow2(k) {
                    X::act_spec(x, before.tv(p))
                } else {
                    before.tv(p)
                }),
    {
        let log = self.log as nat;
        lemma_pow2_pos(k);
        lemma_pow2_unfold(k + 1);
        lemma_pow2_pos(k + 1);
        let d = pow2(k + 1) as int;
        assert(q * d == 2 * (q * pow2(k))) by (nonlinear_arith)
            requires
                d == 2 * pow2(k),
        ;
        vstd::arithmetic::div_mod::lemma_multiply_divide_lt(lo, d, q);
        vstd::arithmetic::div_mod::lemma_multiply_divide_lt(hi - 1, d, q);
        lemma_cursor_parent(c, k, xpos);
        vstd::arithmetic::div_mod::lemma_div_denominator(xpos, 2, pow2(k) as int);
        // nothing is pending above `q`
        assert forall|a: int| anc_or_self(a, q / 2) implies before.lazy@[a] == X::e_spec() by {
        }
        lemma_clean_pend::<X>(before.lazy@, q);
        assert forall|a: int| anc_or_self(a, lo / d) implies self.lazy@[a] == X::e_spec() by {
            lemma_anc_le(a, lo / d);
        }
        assert forall|a: int| anc_or_self(a, (hi - 1) / d) implies self.lazy@[a] == X::e_spec() by {
            lemma_anc_le(a, (hi - 1) / d);
        }
        assert forall|a: int|
            1 <= a < self.size && !anc_or_self(a, lo / 2) && !anc_or_self(a, (hi - 1) / 2)
                implies #[trigger] self.node_ok(a) by {
            assert(before.node_ok(a));
            if a == q / 2 {
                lemma_anc_pow(xpos / 2, k);
            }
        }
        assert forall|p: int| self.size <= p < 2 * self.size implies #[trigger] self.tv(p) == (if q * pow2(k)
            <= p < (q + 1) * pow2(k) {
            X::act_spec(x, before.tv(p))
        } else {
            before.tv(p)
        }) by {
            lemma_span_anc(q, k, p, log);
            if p == q {
                lemma_pend_frame::<X>(before.lazy@, self.lazy@, p);
                X::lemma_act_e(X::act_spec(x, before.data@[q]));
                X::lemma_act_e(before.data@[q]);
            } else if anc_or_self(q, p / 2) {
                lemma_anc_le(q, p / 2);
                lemma_pend_shift::<X>(before.lazy@, q, x, p);
                X::lemma_act_compose(x, pend::<X>(before.lazy@, p), before.data@[p]);
            } else {
                assert forall|a: int| anc_or_self(a, p / 2) implies before.lazy@[a] == self.lazy@[a] by {
                    lemma_anc_le(a, p / 2);
                }
                lemma_pend_frame::<X>(before.lazy@, self.lazy@, p);
            }
        }
    }

    /// Recomputes node `k` from its children under its own pending operator.
    fn pull(&mut self, k: usize)
        requires
            1 <= k < old(self).size,
            old(self).shape_ok(),
        ensures
            final(self).data@ == old(self).data@.update(
                k as int,
                X::act_spec(
                    old(self).lazy@[k as int],
                    S::op_spec(old(self).data@[2 * k], old(self).data@[2 * k + 1]),
                ),
            ),
            final(self).lazy@ == old(self).lazy@,
            final(self).n == old(self).n,
            final(self).size == old(self).size,
            final(self).log == old(self).log,
    {
        let v = self.lazy[k].act(&self.data[2 * k].op(&self.data[2 * k + 1]));
        self.data.set(k, v);
    }

    /// Recomputes every strict ancestor of leaf position `p`, bottom-up.
    /// Strict ancestors of `other` may stay out of date.
    fn rebuild_path(&mut self, p: usize, Ghost(other): Ghost<int>)
        requires
            old(self).shape_ok(),
            old(self).size <= p < 2 * old(self).size,
            forall|q: int|
                1 <= q < old(self).size && !anc_or_self(q, p as int / 2) && !anc_or_self(q, other / 2)
                    ==> #[trigger] old(self).node_ok(q),
        ensures
            final(self).shape_ok(),
            forall|q: int|
                1 <= q < final(self).size && !(anc_or_self(q, other / 2) && !anc_or_self(q, p as int / 2))
                    ==> #[trigger] final(self).node_ok(q),
            final(self).n == old(self).n,
            final(self).size == old(self).size,
            final(self).log == old(self).log,
            final(self).lazy@ == old(self).lazy@,
            forall|q: int| old(self).size <= q < 2 * old(self).size ==> final(self).data@[q] == old(self).data@[q],
    {
        let ghost s0 = *self;
        let mut node = p / 2;
        while node >= 1
            invariant
                self.shape_ok(),
                self.n == s0.n,
                self.size == s0.size,
                self.log == s0.log,
                self.lazy@ == s0.lazy@,
                node < self.size,
                forall|q: int| self.size <= q < 2 * self.size ==> self.data@[q] == s0.data@[q],
                forall|q: int|
                    1 <= q < self.size && !anc_or_self(q, node as int) && !(anc_or_self(q, other / 2)
                        && !anc_or_self(q, p as int / 2)) ==> #[trigger] self.node_ok(q),
            decreases node,
        {
            let ghost before = *self;
            self.pull(node);
            proof {
                assert forall|q: int|
                    1 <= q < self.size && !anc_or_self(q, (node / 2) as int) && !(anc_or_self(q, other / 2)
                        && !anc_or_self(q, p as int / 2)) implies #[trigger] self.node_ok(q) by {
                    if q != node {
                        assert(!anc_or_self(q, node as int));
                        assert(before.node_ok(q));
                    }
                }
            }
            node = node / 2;
        }
    }

    /// Applies `x` to every element in `[l, r)`: pending operators on both
    /// boundary paths are pushed, `x` is applied to the nodes that tile the
    /// range, and the boundary paths are recomputed.
    pub fn apply_range(&mut self, l: usize, r: usize, x: &X)
        requires
            old(self).wf(),
            l <= r <= old(self)@.len(),
        ensures
            final(self).wf(),
            final(self)@ == Seq::new(
                old(self)@.len(),
                |i: int|
                    if l <= i < r {
                        X::act_spec(*x, old(self)@[i])
                    } else {
                        old(self)@[i]
                    },
            ),
    {
        let ghost s0 = *self;
        if l == r {
            proof {
                assert(s0@ =~= Seq::new(
                    s0@.len(),
                    |i: int|
                        if l <= i < r {
                            X::act_spec(*x, s0@[i])
                        } else {
                            s0@[i]
                        },
                ));
            }
            return;
        }
        let lo = self.size + l;
        let hi = self.size + r;
        self.push_path(lo);
        self.push_path(hi - 1);
        let ghost s1 = *self;
        let ghost log = self.log as nat;
        let mut lpos = lo;
        let mut rpos = hi;
        let ghost mut k: nat = 0;
        proof {
            vstd::arithmetic::power2::lemma2_to64();
            lemma_pow2_unfold(log + 1);
        }
        while lpos < rpos
            invariant
                self.shape_ok(),
                self.n == s1.n,
                self.size == s1.size,
                self.log == s1.log,
                log == self.log as nat,
                2 * self.size == pow2(log + 1),
                self.size == pow2(log),
                s1.shape_ok(),
                self.size <= lo < hi <= 2 * self.size,
                lo == self.size + l,
                hi == self.size + r,
                lpos <= rpos,
                lo <= lpos * pow2(k) < lo + pow2(k),
                rpos * pow2(k) <= hi < rpos * pow2(k) + pow2(k),
                lpos * pow2(k) <= rpos * pow2(k),
                rpos <= hi,
                forall|a: int| anc_or_self(a, lo as int / (pow2(k + 1) as int)) ==> self.lazy@[a] == X::e_spec(),
                forall|a: int| anc_or_self(a, (hi - 1) as int / (pow2(k + 1) as int)) ==> self.lazy@[a] == X::e_spec(),
                forall|q: int|
                    1 <= q < self.size && !anc_or_self(q, lo as int / 2) && !anc_or_self(q, (hi - 1) as int / 2)
                        ==> #[trigger] self.node_ok(q),
                forall|p: int|
                    self.size <= p < 2 * self.size ==> #[trigger] self.tv(p) == (if (lo <= p < lpos * pow2(k)) || (
                    rpos * pow2(k) <= p < hi) {
                        X::act_spec(*x, s1.tv(p))
                    } else {
                        s1.tv(p)
                    }),
            decreases rpos - lpos,
        {
            proof {
                lemma_pow2_pos(k);
                lemma_pow2_unfold(k + 1);
                lemma_pow2_unfold(k + 2);
            }
            let ghost wd = pow2(k) as int;
            if lpos % 2 == 1 {
                proof {
                    lemma_mul_pow2_le(lpos + 1, rpos as int, k);
                    assert((lpos + 1) * wd == lpos * wd + wd) by (nonlinear_arith);
                    assert((lpos - 1) * wd == lpos * wd - wd) by (nonlinear_arith);
                    lemma_pos_mul(lpos as int, k);
                    assert(lpos <= lpos * wd) by (nonlinear_arith)
                        requires
                            wd >= 1,
                            lpos >= 1,
                    ;
                }
                let ghost before = *self;
                self.all_apply(lpos, x);
                proof {
                    self.lemma_after_apply(before, lpos as int, k, lpos as int, lo as int, lo as int, hi as int, *x);
                }
                lpos = lpos + 1;
            }
            if rpos % 2 == 1 {
                proof {
                    assert((rpos + 1) * wd == rpos * wd + wd) by (nonlinear_arith);
                    assert((rpos - 1) * wd == rpos * wd - wd) by (nonlinear_arith);
                    lemma_mul_pow2_le(lpos as int, rpos - 1, k);
                    lemma_pos_mul(rpos - 1, k);
                    assert(rpos - 1 <= (rpos - 1) * wd) by (nonlinear_arith)
                        requires
                            wd >= 1,
                            rpos - 1 >= 1,
                    ;
                }
                let ghost before = *self;
                let ghost c = rpos as int;
                rpos = rpos - 1;
                self.all_apply(rpos, x);
                proof {
                    self.lemma_after_apply(before, rpos as int, k, c, (hi - 1) as int, lo as int, hi as int, *x);
                }
            }
            proof {
                lemma_halve(lpos as int, k);
                lemma_halve(rpos as int, k);
                assert((lpos + 1) * wd == lpos * wd + wd) by (nonlinear_arith);
                crate::lazy_segtree::lemma_up(lo as int, k + 1);
                crate::lazy_segtree::lemma_up((hi - 1) as int, k + 1);
                assert forall|a: int| anc_or_self(a, lo as int / (pow2(k + 2) as int)) implies self.lazy@[a] == X::e_spec() by {
                    assert(anc_or_self(a, lo as int / (pow2(k + 1) as int)));
                }
                assert forall|a: int| anc_or_self(a, (hi - 1) as int / (pow2(k + 2) as int)) implies self.lazy@[a] == X::e_spec() by {
                    assert(anc_or_self(a, (hi - 1) as int / (pow2(k + 1) as int)));
                }
            }
            lpos = lpos / 2;
            rpos = rpos / 2;
            proof {
                k = k + 1;
            }
        }
        let ghost s2 = *self;
        self.rebuild_path(lo, Ghost((hi - 1) as int));
        self.rebuild_path(hi - 1, Ghost((hi - 1) as int));
        proof {
            assert forall|p: int| self.size <= p < 2 * self.size implies #[trigger] self.tv(p) == s2.tv(p) by {
            }
            assert forall|p: int| self.size + self.n <= p < 2 * self.size implies #[trigger] self.tv(p) == S::e_spec() by {
                assert(s1.tv(p) == s0.tv(p));
            }
            assert(self@ =~= Seq::new(
                s0@.len(),
                |i: int|
                    if l <= i < r {
                        X::act_spec(*x, s0@[i])
                    } else {
                        s0@[i]
                    },
            ));
        }
    }
}

impl<S: Monoid, X: Monoid + Action<S>> LazySegTree<S, X> {
    /// Pushing keeps the values every node stands for.
    proof fn lemma_push_tvals(&self, before: Self, k: int)
        requires
            before.shape_ok(),
            self.shape_ok(),
            self.size == before.size,
            1 <= k < self.size,
            forall|a: int| 0 <= a < 2 * before.size && a != 2 * k && a != 2 * k + 1 ==> self.data@[a] == before.data@[a],
            forall|q: int| 1 <= q < 2 * before.size ==> #[trigger] self.tv(q) == before.tv(q),
        ensures
            self.tvals() == before.tvals(),
    {
        assert(self.tv(0) == before.tv(0));
        assert(self.tvals() =~= before.tvals());
    }

    /// Leaves past the end do not change a fold that reaches them.
    proof fn lemma_padding(&self, lo: int, p: int)
        requires
            self.wf(),
            lo <= self.size + self.n <= p <= 2 * self.size,
        ensures
            fold_range::<ValueOp<S>>(self.tvals(), lo, p) == fold_range::<ValueOp<S>>(
                self.tvals(),
                lo,
                self.size + self.n,
            ),
    {
        assert forall|i: int| self.size + self.n <= i < p implies self.tvals()[i] == ValueOp::<S>::id_spec() by {
            assert(self.padding_ok());
        }
        lemma_fold_id_tail::<ValueOp<S>>(self.tvals(), lo, self.size + self.n, p);
    }

    /// Binary search over prefix folds from `l`: the largest `r` such that
    /// `f` accepts the fold of every `[l, k)` with `k <= r`.
    #[verifier::rlimit(60)]
    pub fn max_right<F: Fn(&S) -> bool>(&mut self, l: usize, f: F) -> (r: usize)
        requires
            old(self).wf(),
            l <= old(self)@.len(),
            is_predicate(f),
            accepts(f, S::e_spec()),
            prefix_monotone::<ValueOp<S>, F>(f, old(self)@, l as int),
        ensures
            final(self).wf(),
            final(self)@ == old(self)@,
            l <= r <= old(self)@.len(),
            forall|k: int|
                l <= k <= r ==> accepts(f, #[trigger] fold_range::<ValueOp<S>>(old(self)@, l as int, k)),
            r < old(self)@.len() ==> !accepts(f, fold_range::<ValueOp<S>>(old(self)@, l as int, r + 1)),
    {
        if l == self.n {
            proof {
                assert(fold_range::<ValueOp<S>>(self@, l as int, l as int) == S::e_spec());
                lemma_prefix_all::<ValueOp<S>, F>(f, self@, l as int, l as int);
            }
            return self.n;
        }
        let lo = l + self.size;
        self.push_path(lo);
        let ghost s1 = *self;
        let ghost tvs = self.tvals();
        let ghost log = self.log as nat;
        let mut pos = lo;
        let mut width: usize = 1;
        let ghost mut k: nat = 0;
        let mut sm = S::e();
        proof {
            vstd::arithmetic::power2::lemma2_to64();
            lemma_pow2_unfold(log + 1);
        }
        loop
            invariant_except_break
                pos * pow2(k) < 2 * self.size,
            invariant
                *self == s1,
                s1@ == old(self)@,
                self.wf(),
                self.clean(lo as int),
                tvs == self.tvals(),
                self.size <= lo < self.size + self.n,
                lo == self.size + l,
                l < self.n,
                log == self.log as nat,
                is_predicate(f),
                prefix_monotone::<ValueOp<S>, F>(f, self@, l as int),
                width == pow2(k),
                pos >= 1,
                lo <= pos * pow2(k) <= 2 * self.size,
                pos * pow2(k) < lo + pow2(k + 1),
                pos % 2 == 1 ==> pos * pow2(k) < lo + pow2(k),
                2 * self.size == pow2(log + 1),
                sm == fold_range::<ValueOp<S>>(tvs, lo as int, pos * pow2(k)),
                accepts(f, sm),
            ensures
                pos * pow2(k) == 2 * self.size,
            decreases 2 * self.size - pos * pow2(k),
        {
            let ghost start = pos * pow2(k);
            while pos % 2 == 0
                invariant
                    pos * pow2(k) == start,
                    self.wf(),
                    width == pow2(k),
                    pos >= 1,
                    lo <= pos * pow2(k) < 2 * self.size,
                    pos * pow2(k) < lo + pow2(k + 1),
                    pos % 2 == 1 ==> pos * pow2(k) < lo + pow2(k),
                    2 * self.size == pow2(log + 1),
                decreases pos,
            {
                proof {
                    lemma_halve(pos as int, k);
                    lemma_pow2_unfold(k + 1);
                    lemma_pow2_unfold(k + 2);
                    lemma_level_bound((pos / 2) as int, k + 1, log + 1);
                    vstd::arithmetic::power2::lemma_pow2_strictly_increases(k + 1, log + 1);
                }
                pos = pos / 2;
                width = width * 2;
                proof {
                    k = k + 1;
                }
            }
            proof {
                lemma_pow2_pos(k);
                lemma_level_bound(pos as int, k, log + 1);
                lemma_next_block(pos as int, k, log + 1);
                assert((pos + 1) * pow2(k) == pos * pow2(k) + pow2(k)) by (nonlinear_arith);
                assert((pos - 1) * pow2(k) == pos * pow2(k) - pow2(k)) by (nonlinear_arith);
                self.lemma_node(pos as int, k);
                assert(pos <= pos * pow2(k)) by (nonlinear_arith)
                    requires
                        pow2(k) >= 1,
                        pos >= 1,
                ;
                self.lemma_cursor_clean(pos as int, k, lo as int, pos as int);
                self.lemma_clean_tv(pos as int);
                lemma_fold_split::<ValueOp<S>>(tvs, lo as int, pos * pow2(k), (pos + 1) * pow2(k));
                lemma_pow2_unfold(k + 1);
            }
            let next = sm.op(&self.data[pos]);
            if !f(&next) {
                while pos < self.size
                    invariant
                        self.wf(),
                        self.clean(pos as int),
                        tvs == self.tvals(),
                        self@ == s1@,
                        s1@ == old(self)@,
                        self.n == s1.n,
                        is_predicate(f),
                        prefix_monotone::<ValueOp<S>, F>(f, s1@, l as int),
                        self.size <= lo < self.size + self.n,
                        lo == self.size + l,
                        width == pow2(k),
                        pos >= 1,
                        lo <= pos * pow2(k),
                        (pos + 1) * pow2(k) <= 2 * self.size,
                        sm == fold_range::<ValueOp<S>>(tvs, lo as int, pos * pow2(k)),
                        accepts(f, sm),
                        !accepts(f, fold_range::<ValueOp<S>>(tvs, lo as int, (pos + 1) * pow2(k))),
                    decreases k,
                {
                    proof {
                        if k == 0 {
                            vstd::arithmetic::power2::lemma2_to64();
                            assert(pos * pow2(k) == pos) by (nonlinear_arith)
                                requires
                                    pow2(k) == 1,
                            ;
                        }
                        lemma_children_span(pos as int, k);
                        lemma_pow2_pos((k - 1) as nat);
                    }
                    let ghost before = *self;
                    self.push(pos);
                    proof {
                        self.lemma_push_tvals(before, pos as int);
                        assert forall|q: int| 1 <= q < self.size implies #[trigger] self.node_ok(q) by {
                            assert(before.node_ok(q));
                        }
                        assert forall|q: int| self.size + self.n <= q < 2 * self.size implies #[trigger] self.tv(q) == S::e_spec() by {
                            assert(before.padding_ok());
                            assert(before.tv(q) == S::e_spec());
                        }
                        assert(self@ =~= before@);
                        assert forall|a: int| anc_or_self(a, (2 * pos) as int / 2) implies self.lazy@[a] == X::e_spec() by {
                            if a != pos {
                                lemma_anc_le(a, (pos / 2) as int);
                                assert(before.clean(pos as int));
                            }
                        }
                        assert forall|a: int| anc_or_self(a, (2 * pos + 1) as int / 2) implies self.lazy@[a] == X::e_spec() by {
                            if a != pos {
                                lemma_anc_le(a, (pos / 2) as int);
                                assert(before.clean(pos as int));
                            }
                        }
                    }
                    pos = 2 * pos;
                    width = width / 2;
                    proof {
                        k = (k - 1) as nat;
                        self.lemma_node(pos as int, k);
                        self.lemma_clean_tv(pos as int);
                        lemma_fold_split::<ValueOp<S>>(tvs, lo as int, pos * pow2(k), (pos + 1) * pow2(k));
                    }
                    let val = sm.op(&self.data[pos]);
                    if f(&val) {
                        sm = val;
                        pos = pos + 1;
                    }
                }
                proof {
                    if k > 0 {
                        lemma_pow2_unfold(k);
                        lemma_pow2_pos((k - 1) as nat);
                        assert((pos + 1) * pow2(k) >= 2 * pos + 2) by (nonlinear_arith)
                            requires
                                pow2(k) >= 2,
                                pos >= 1,
                        ;
                    }
                    vstd::arithmetic::power2::lemma2_to64();
                    assert(pow2(k) == 1);
                    assert(pos * pow2(k) == pos && (pos + 1) * pow2(k) == pos + 1) by (nonlinear_arith)
                        requires
                            pow2(k) == 1,
                    ;
                    if pos >= self.size + self.n {
                        self.lemma_padding(lo as int, pos as int);
                        self.lemma_padding(lo as int, pos + 1);
                    }
                    self.lemma_view_fold(l as int, (pos - self.size) as int);
                    self.lemma_view_fold(l as int, (pos - self.size + 1) as int);
                    lemma_prefix_all::<ValueOp<S>, F>(f, self@, l as int, (pos - self.size) as int);
                }
                return pos - self.size;
            }
            sm = next;
            pos = pos + 1;
            if pos * width == 2 * self.size {
                break;
            }
        }
        proof {
            self.lemma_padding(lo as int, 2 * self.size);
            self.lemma_view_fold(l as int, self.n as int);
            lemma_prefix_all::<ValueOp<S>, F>(f, self@, l as int, self.n as int);
        }
        self.n
    }
}

impl<S: Monoid, X: Monoid + Action<S>> LazySegTree<S, X> {
    /// Pushing at `pos`, when nothing is pending above it, leaves nothing
    /// pending above its children, and keeps the invariant and the elements.
    proof fn lemma_push_clean(&self, before: Self, pos: int)
        requires
            before.wf(),
            before.clean(pos),
            1 <= pos < before.size,
            self.shape_ok(),
            self.n == before.n,
            self.size == before.size,
            self.lazy@[pos] == X::e_spec(),
            forall|a: int|
                0 <= a < before.size && a != pos && a != 2 * pos && a != 2 * pos + 1 ==> self.lazy@[a]
                    == before.lazy@[a],
            forall|a: int|
                0 <= a < 2 * before.size && a != 2 * pos && a != 2 * pos + 1 ==> self.data@[a]
                    == before.data@[a],
            forall|q: int| 1 <= q < 2 * before.size ==> #[trigger] self.tv(q) == before.tv(q),
            forall|a: int| 1 <= a < before.size && before.node_ok(a) ==> #[trigger] self.node_ok(a),
        ensures
            self.wf(),
            self.tvals() == before.tvals(),
            self@ == before@,
            self.clean(2 * pos),
            self.clean(2 * pos + 1),
    {
        self.lemma_push_tvals(before, pos);
        assert forall|q: int| 1 <= q < self.size implies #[trigger] self.node_ok(q) by {
            assert(before.node_ok(q));
        }
        assert forall|q: int| self.size + self.n <= q < 2 * self.size implies #[trigger] self.tv(q) == S::e_spec() by {
            assert(before.padding_ok());
            assert(before.tv(q) == S::e_spec());
        }
        assert(self@ =~= before@);
        assert forall|a: int| anc_or_self(a, (2 * pos) / 2) implies self.lazy@[a] == X::e_spec() by {
            if a != pos {
                lemma_anc_le(a, pos / 2);
                assert(before.clean(pos));
            }
        }
        assert forall|a: int| anc_or_self(a, (2 * pos + 1) / 2) implies self.lazy@[a] == X::e_spec() by {
            if a != pos {
                lemma_anc_le(a, pos / 2);
                assert(before.clean(pos));
            }
        }
    }

    /// Binary search over suffix folds ending at `r`: the smallest `l` such
    /// that `f` accepts the fold of every `[k, r)` with `l <= k`.
    #[verifier::rlimit(60)]
    pub fn min_left<F: Fn(&S) -> bool>(&mut self, r: usize, f: F) -> (l: usize)
        requires
            old(self).wf(),
            r <= old(self)@.len(),
            is_predicate(f),
            accepts(f, S::e_spec()),
            suffix_monotone::<ValueOp<S>, F>(f, old(self)@, r as int),
        ensures
            final(self).wf(),
            final(self)@ == old(self)@,
            l <= r,
            forall|k: int|
                l <= k <= r ==> accepts(f, #[trigger] fold_range::<ValueOp<S>>(old(self)@, k, r as int)),
            l > 0 ==> !accepts(f, fold_range::<ValueOp<S>>(old(self)@, l - 1, r as int)),
    {
        if r == 0 {
            proof {
                assert(fold_range::<ValueOp<S>>(self@, 0, 0) == S::e_spec());
                lemma_suffix_all::<ValueOp<S>, F>(f, self@, 0, 0);
            }
            return 0;
        }
        let hi = r + self.size;
        self.push_path(hi - 1);
        let ghost s1 = *self;
        let ghost tvs = self.tvals();
        let ghost log = self.log as nat;
        let mut pos = hi;
        let mut width: usize = 1;
        let ghost mut k: nat = 0;
        let mut sm = S::e();
        proof {
            vstd::arithmetic::power2::lemma2_to64();
            lemma_pow2_unfold(log + 1);
        }
        loop
            invariant_except_break
                pos * pow2(k) > self.size,
            invariant
                *self == s1,
                s1@ == old(self)@,
                self.wf(),
                self.clean(hi - 1),
                tvs == self.tvals(),
                self.size < hi <= self.size + self.n,
                hi == self.size + r,
                0 < r <= self.n,
                log == self.log as nat,
                is_predicate(f),
                suffix_monotone::<ValueOp<S>, F>(f, self@, r as int),
                width == pow2(k),
                k <= log,
                pos >= 1,
                self.size <= pos * pow2(k) <= hi,
                hi - pos * pow2(k) <= pow2(k) || (pos % 2 == 0 && hi - pos * pow2(k) <= pow2(k + 1)),
                2 * self.size == pow2(log + 1),
                sm == fold_range::<ValueOp<S>>(tvs, pos * pow2(k), hi as int),
                accepts(f, sm),
            ensures
                pos * pow2(k) == self.size,
            decreases pos * pow2(k),
        {
            proof {
                lemma_prev_block(pos as int, k, log);
                lemma_pow2_pos(k);
                assert((pos - 1) * pow2(k) == pos * pow2(k) - pow2(k)) by (nonlinear_arith);
                lemma_pos_mul(pos - 1, k);
            }
            pos = pos - 1;
            let ghost end = (pos + 1) * pow2(k);
            proof {
                assert((pos + 1) * pow2(k) == pos * pow2(k) + pow2(k)) by (nonlinear_arith);
            }
            while pos > 1 && pos % 2 == 1
                invariant
                    self.wf(),
                    2 * self.size == pow2(log + 1),
                    self.size == pow2(log),
                    width == pow2(k),
                    k <= log,
                    pos >= 1,
                    self.size <= pos * pow2(k),
                    (pos + 1) * pow2(k) == end,
                    end <= hi <= 2 * self.size,
                    hi - end <= pow2(k) || (pos % 2 == 1 && hi - end <= pow2(k + 1)),
                decreases pos,
            {
                proof {
                    lemma_odd_not_pow2(pos as int, k, log);
                    lemma_prev_block(pos as int, k, log);
                    lemma_halve(pos - 1, k);
                    lemma_pow2_unfold(k + 1);
                    lemma_pow2_unfold(k + 2);
                    lemma_pow2_pos(k);
                    assert(((pos - 1) / 2 + 1) * pow2(k + 1) == ((pos - 1) / 2) * pow2(k + 1) + pow2(k + 1))
                        by (nonlinear_arith);
                    assert((pos + 1) * pow2(k) == (pos - 1) * pow2(k) + 2 * pow2(k)) by (nonlinear_arith);
                    assert((pos - 1) * pow2(k) < 2 * self.size);
                    lemma_level_bound((pos - 1) / 2, k + 1, log + 1);
                }
                pos = pos / 2;
                width = width * 2;
                proof {
                    k = k + 1;
                }
            }
            proof {
                lemma_pow2_pos(k);
                lemma_pow2_unfold(k + 1);
                assert((pos + 1) * pow2(k) == pos * pow2(k) + pow2(k)) by (nonlinear_arith);
                assert(pos <= pos * pow2(k)) by (nonlinear_arith)
                    requires
                        pow2(k) >= 1,
                        pos >= 1,
                ;
                if pos == 1 {
                    if k < log {
                        vstd::arithmetic::power2::lemma_pow2_strictly_increases(k, log);
                    }
                    assert(end == 2 * self.size);
                } else {
                    assert((pos + 2) * pow2(k) == end + pow2(k)) by (nonlinear_arith)
                        requires
                            end == (pos + 1) * pow2(k),
                    ;
                    self.lemma_cursor_clean(pos + 1, k, hi - 1, pos as int);
                }
                self.lemma_node(pos as int, k);
                self.lemma_clean_tv(pos as int);
                assert((pos + 1) * pow2(k) == pos * pow2(k) + pow2(k)) by (nonlinear_arith);
                lemma_fold_split::<ValueOp<S>>(tvs, pos * pow2(k), (pos + 1) * pow2(k), hi as int);
                assert(pos <= pos * pow2(k)) by (nonlinear_arith)
                    requires
                        pow2(k) >= 1,
                        pos >= 1,
                ;
            }
            let next = self.data[pos].op(&sm);
            if !f(&next) {
                while pos < self.size
                    invariant
                        self.wf(),
                        self.clean(pos as int),
                        tvs == self.tvals(),
                        self@ == s1@,
                        s1@ == old(self)@,
                        self.n == s1.n,
                        is_predicate(f),
                        suffix_monotone::<ValueOp<S>, F>(f, s1@, r as int),
                        self.size < hi <= self.size + self.n,
                        hi == self.size + r,
                        width == pow2(k),
                        pos >= 1,
                        self.size <= pos * pow2(k),
                        (pos + 1) * pow2(k) <= hi,
                        sm == fold_range::<ValueOp<S>>(tvs, (pos + 1) * pow2(k), hi as int),
                        accepts(f, sm),
                        !accepts(f, fold_range::<ValueOp<S>>(tvs, pos * pow2(k), hi as int)),
                    decreases k,
                {
                    proof {
                        if k == 0 {
                            vstd::arithmetic::power2::lemma2_to64();
                            assert(pos * pow2(k) == pos) by (nonlinear_arith)
                                requires
                                    pow2(k) == 1,
                            ;
                        }
                        lemma_children_span(pos as int, k);
                        lemma_pow2_pos((k - 1) as nat);
                    }
                    let ghost before = *self;
                    self.push(pos);
                    proof {
                        self.lemma_push_clean(before, pos as int);
                    }
                    pos = 2 * pos + 1;
                    width = width / 2;
                    proof {
                        k = (k - 1) as nat;
                        self.lemma_node(pos as int, k);
                        self.lemma_clean_tv(pos as int);
                        assert((pos + 1) * pow2(k) == pos * pow2(k) + pow2(k)) by (nonlinear_arith);
                        lemma_fold_split::<ValueOp<S>>(tvs, pos * pow2(k), (pos + 1) * pow2(k), hi as int);
                        assert((pos - 1 + 1) * pow2(k) == pos * pow2(k));
                        assert((pos - 1) * pow2(k) == pos * pow2(k) - pow2(k)) by (nonlinear_arith);
                    }
                    let val = self.data[pos].op(&sm);
                    if f(&val) {
                        sm = val;
                        pos = pos - 1;
                    }
                }
                proof {
                    if k > 0 {
                        lemma_pow2_unfold(k);
                        lemma_pow2_pos((k - 1) as nat);
                        assert((pos + 1) * pow2(k) >= 2 * pos + 2) by (nonlinear_arith)
                            requires
                                pow2(k) >= 2,
                                pos >= 1,
                        ;
                    }
                    vstd::arithmetic::power2::lemma2_to64();
                    assert(pow2(k) == 1);
                    assert(pos * pow2(k) == pos && (pos + 1) * pow2(k) == pos + 1) by (nonlinear_arith)
                        requires
                            pow2(k) == 1,
                    ;
                    self.lemma_view_fold((pos + 1 - self.size) as int, r as int);
                    self.lemma_view_fold((pos - self.size) as int, r as int);
                    lemma_suffix_all::<ValueOp<S>, F>(f, self@, (pos + 1 - self.size) as int, r as int);
                }
                return pos + 1 - self.size;
            }
            sm = next;
            proof {
                if pos % 2 == 1 && pos * pow2(k) != self.size {
                    assert(pos == 1);
                    if k < log {
                        vstd::arithmetic::power2::lemma_pow2_strictly_increases(k, log);
                    }
                }
            }
            if pos * width == self.size {
                break;
            }
        }
        proof {
            self.lemma_view_fold(0, r as int);
            lemma_suffix_all::<ValueOp<S>, F>(f, self@, 0, r as int);
        }
        0
    }
}

} // verus!
