//! Algebraic structures. Each trait carries, next to its executable operations,
//! the spec functions that describe them and the laws they obey, stated as
//! proof obligations on every implementation.
use vstd::prelude::*;

verus! {

/// A set with a closed binary operation.
pub trait Magma: Sized {
    type Set: Copy;

    /// The operation, as a mathematical function.
    spec fn op_spec(x: Self::Set, y: Self::Set) -> Self::Set;

    fn op(&self, x: Self::Set, y: Self::Set) -> (r: Self::Set)
        ensures
            r == Self::op_spec(x, y),
    ;
}

/// The operation is associative.
pub trait Associative: Magma {
    proof fn lemma_assoc(x: Self::Set, y: Self::Set, z: Self::Set)
        ensures
            Self::op_spec(Self::op_spec(x, y), z) == Self::op_spec(x, Self::op_spec(y, z)),
    ;
}

/// The operation is commutative.
pub trait Commutative: Magma {
    proof fn lemma_comm(x: Self::Set, y: Self::Set)
        ensures
            Self::op_spec(x, y) == Self::op_spec(y, x),
    ;
}

/// The operation has a two-sided identity element.
pub trait Identity: Magma {
    spec fn id_spec() -> Self::Set;

    proof fn lemma_id(x: Self::Set)
        ensures
            Self::op_spec(Self::id_spec(), x) == x,
            Self::op_spec(x, Self::id_spec()) == x,
    ;

    fn id(&self) -> (r: Self::Set)
        ensures
            r == Self::id_spec(),
    ;
}

/// Every element has an inverse under the operation.
pub trait Recip: Identity {
    spec fn recip_spec(x: Self::Set) -> Self::Set;

    proof fn lemma_recip(x: Self::Set)
        ensures
            Self::op_spec(x, Self::recip_spec(x)) == Self::id_spec(),
            Self::op_spec(Self::recip_spec(x), x) == Self::id_spec(),
    ;

    fn recip(&self, x: Self::Set) -> (r: Self::Set)
        ensures
            r == Self::recip_spec(x),
    ;
}

/// Values some of which have a multiplicative inverse.
pub trait PartialMulRecip: Sized {
    /// What a correct answer of `partial_mul_recip` on `x` is.
    spec fn recip_ok(x: Self, r: Option<Self>) -> bool;

    fn partial_mul_recip(self) -> (r: Option<Self>)
        ensures
            Self::recip_ok(self, r),
    ;
}

/// The additive identity of a number type.
pub trait Zero: Sized {
    spec fn zero_spec() -> Self;

    fn zero() -> (r: Self)
        ensures
            r == Self::zero_spec(),
    ;
}

/// The multiplicative identity of a number type.
pub trait One: Sized {
    spec fn one_spec() -> Self;

    fn one() -> (r: Self)
        ensures
            r == Self::one_spec(),
    ;
}

/// The smallest value of a type.
pub trait Min: Sized {
    spec fn min_spec() -> Self;

    fn min() -> (r: Self)
        ensures
            r == Self::min_spec(),
    ;
}

/// The largest value of a type.
pub trait Max: Sized {
    spec fn max_spec() -> Self;

    fn max() -> (r: Self)
        ensures
            r == Self::max_spec(),
    ;
}

impl Zero for usize {
    open spec fn zero_spec() -> usize {
        0
    }

    fn zero() -> (r: usize) {
        0
    }
}

impl One for usize {
    open spec fn one_spec() -> usize {
        1
    }

    fn one() -> (r: usize) {
        1
    }
}

impl Min for usize {
    open spec fn min_spec() -> usize {
        usize::MIN
    }

    fn min() -> (r: usize) {
        usize::MIN
    }
}

impl Max for usize {
    open spec fn max_spec() -> usize {
        usize::MAX
    }

    fn max() -> (r: usize) {
        usize::MAX
    }
}

impl Zero for u64 {
    open spec fn zero_spec() -> u64 {
        0
    }

    fn zero() -> (r: u64) {
        0
    }
}

impl One for u64 {
    open spec fn one_spec() -> u64 {
        1
    }

    fn one() -> (r: u64) {
        1
    }
}

impl Min for u64 {
    open spec fn min_spec() -> u64 {
        u64::MIN
    }

    fn min() -> (r: u64) {
        u64::MIN
    }
}

impl Max for u64 {
    open spec fn max_spec() -> u64 {
        u64::MAX
    }

    fn max() -> (r: u64) {
        u64::MAX
    }
}

impl Zero for i32 {
    open spec fn zero_spec() -> i32 {
        0
    }

    fn zero() -> (r: i32) {
        0
    }
}

impl One for i32 {
    open spec fn one_spec() -> i32 {
        1
    }

    fn one() -> (r: i32) {
        1
    }
}

impl Min for i32 {
    open spec fn min_spec() -> i32 {
        i32::MIN
    }

    fn min() -> (r: i32) {
        i32::MIN
    }
}

impl Max for i32 {
    open spec fn max_spec() -> i32 {
        i32::MAX
    }

    fn max() -> (r: i32) {
        i32::MAX
    }
}

impl Zero for i64 {
    open spec fn zero_spec() -> i64 {
        0
    }

    fn zero() -> (r: i64) {
        0
    }
}

impl One for i64 {
    open spec fn one_spec() -> i64 {
        1
    }

    fn one() -> (r: i64) {
        1
    }
}

impl Min for i64 {
    open spec fn min_spec() -> i64 {
        i64::MIN
    }

    fn min() -> (r: i64) {
        i64::MIN
    }
}

impl Max for i64 {
    open spec fn max_spec() -> i64 {
        i64::MAX
    }

    fn max() -> (r: i64) {
        i64::MAX
    }
}

/// An associative magma.
pub trait SemiGroup: Associative {

}

impl<T: Associative> SemiGroup for T {

}

/// A semigroup with an identity element.
pub trait Monoid: SemiGroup + Identity {

}

impl<T: SemiGroup + Identity> Monoid for T {

}

/// A monoid in which every element is invertible.
pub trait Group: Monoid + Recip {

}

impl<T: Monoid + Recip> Group for T {

}

/// A group whose operation is commutative.
pub trait CommutativeGroup: Group + Commutative {

}

impl<T: Group + Commutative> CommutativeGroup for T {

}

/// `op` reduced from left to right over `s[l..r]`; the identity on an empty range.
pub open spec fn fold_range<M: Monoid>(s: Seq<M::Set>, l: int, r: int) -> M::Set
    decreases r - l,
{
    if r <= l {
        M::id_spec()
    } else {
        M::op_spec(fold_range::<M>(s, l, r - 1), s[r - 1])
    }
}

/// Folding `s[l..r]` splits at any `m` between the ends.
pub proof fn lemma_fold_split<M: Monoid>(s: Seq<M::Set>, l: int, m: int, r: int)
    requires
        l <= m <= r,
    ensures
        fold_range::<M>(s, l, r) == M::op_spec(fold_range::<M>(s, l, m), fold_range::<M>(s, m, r)),
    decreases r - m,
{
    if r == m {
        M::lemma_id(fold_range::<M>(s, l, m));
    } else {
        lemma_fold_split::<M>(s, l, m, r - 1);
        M::lemma_assoc(fold_range::<M>(s, l, m), fold_range::<M>(s, m, r - 1), s[r - 1]);
    }
}

/// A fold over one element is that element.
pub proof fn lemma_fold_single<M: Monoid>(s: Seq<M::Set>, i: int)
    ensures
        fold_range::<M>(s, i, i + 1) == s[i],
{
    assert(fold_range::<M>(s, i, i) == M::id_spec());
    M::lemma_id(s[i]);
}

/// A fold only reads the elements inside its range.
pub proof fn lemma_fold_frame<M: Monoid>(s: Seq<M::Set>, t: Seq<M::Set>, l: int, r: int)
    requires
        forall|i: int| l <= i < r ==> s[i] == t[i],
    ensures
        fold_range::<M>(s, l, r) == fold_range::<M>(t, l, r),
    decreases r - l,
{
    if l < r {
        lemma_fold_frame::<M>(s, t, l, r - 1);
    }
}

/// Folding a shifted copy: `t[i] == s[i + d]`.
pub proof fn lemma_fold_shift<M: Monoid>(s: Seq<M::Set>, t: Seq<M::Set>, d: int, l: int, r: int)
    requires
        forall|i: int| l <= i < r ==> t[i] == s[i + d],
    ensures
        fold_range::<M>(t, l, r) == fold_range::<M>(s, l + d, r + d),
    decreases r - l,
{
    if l < r {
        lemma_fold_shift::<M>(s, t, d, l, r - 1);
    }
}

/// Identity elements at the end of a range do not change its fold.
pub proof fn lemma_fold_id_tail<M: Monoid>(s: Seq<M::Set>, l: int, m: int, r: int)
    requires
        l <= m <= r,
        forall|i: int| m <= i < r ==> s[i] == M::id_spec(),
    ensures
        fold_range::<M>(s, l, r) == fold_range::<M>(s, l, m),
    decreases r - m,
{
    if m < r {
        lemma_fold_id_tail::<M>(s, l, m, r - 1);
        M::lemma_id(fold_range::<M>(s, l, r - 1));
    }
}

/// `f` answers `true` on `x`.
pub open spec fn accepts<T, F: Fn(&T) -> bool>(f: F, x: T) -> bool {
    f.ensures((&x,), true)
}

/// `f` can be called on every value, and its answer depends on the value alone.
pub open spec fn is_predicate<T, F: Fn(&T) -> bool>(f: F) -> bool {
    &&& forall|x: T| #[trigger] f.requires((&x,))
    &&& forall|x: T, b: bool| #[trigger] f.ensures((&x,), b) ==> b == accepts(f, x)
}

/// Once `f` rejects the fold of `s[l..j]`, it rejects every longer prefix fold from `l`.
pub open spec fn prefix_monotone<M: Monoid, F: Fn(&M::Set) -> bool>(
    f: F,
    s: Seq<M::Set>,
    l: int,
) -> bool {
    forall|i: int, j: int|
        l <= i <= j <= s.len() && #[trigger] accepts(f, fold_range::<M>(s, l, j)) ==> #[trigger] accepts(
            f,
            fold_range::<M>(s, l, i),
        )
}

/// Once `f` rejects the fold of `s[i..r]`, it rejects every longer suffix fold ending at `r`.
pub open spec fn suffix_monotone<M: Monoid, F: Fn(&M::Set) -> bool>(
    f: F,
    s: Seq<M::Set>,
    r: int,
) -> bool {
    forall|i: int, j: int|
        0 <= i <= j <= r && #[trigger] accepts(f, fold_range::<M>(s, i, r)) ==> #[trigger] accepts(
            f,
            fold_range::<M>(s, j, r),
        )
}

/// The answer of a prefix binary search is unique: two boundaries `r1`, `r2`
/// that both satisfy "every prefix fold up to `r` is accepted, and the next
/// one, if any, is rejected" are equal.
pub proof fn lemma_bisect_unique<M: Monoid, F: Fn(&M::Set) -> bool>(
    f: F,
    s: Seq<M::Set>,
    l: int,
    r1: int,
    r2: int,
)
    requires
        l <= r1 <= s.len(),
        l <= r2 <= s.len(),
        forall|k: int| l <= k <= r1 ==> accepts(f, #[trigger] fold_range::<M>(s, l, k)),
        r1 < s.len() ==> !accepts(f, fold_range::<M>(s, l, r1 + 1)),
        forall|k: int| l <= k <= r2 ==> accepts(f, #[trigger] fold_range::<M>(s, l, k)),
        r2 < s.len() ==> !accepts(f, fold_range::<M>(s, l, r2 + 1)),
    ensures
        r1 == r2,
{
    if r1 < r2 {
        assert(accepts(f, fold_range::<M>(s, l, r1 + 1)));
    } else if r2 < r1 {
        assert(accepts(f, fold_range::<M>(s, l, r2 + 1)));
    }
}

/// The answer of a suffix binary search is unique, as for prefixes.
pub proof fn lemma_bisect_rev_unique<M: Monoid, F: Fn(&M::Set) -> bool>(
    f: F,
    s: Seq<M::Set>,
    r: int,
    l1: int,
    l2: int,
)
    requires
        0 <= l1 <= r,
        0 <= l2 <= r,
        forall|k: int| l1 <= k <= r ==> accepts(f, #[trigger] fold_range::<M>(s, k, r)),
        l1 > 0 ==> !accepts(f, fold_range::<M>(s, l1 - 1, r)),
        forall|k: int| l2 <= k <= r ==> accepts(f, #[trigger] fold_range::<M>(s, k, r)),
        l2 > 0 ==> !accepts(f, fold_range::<M>(s, l2 - 1, r)),
    ensures
        l1 == l2,
{
    if l1 < l2 {
        assert(accepts(f, fold_range::<M>(s, l2 - 1, r)));
    } else if l2 < l1 {
        assert(accepts(f, fold_range::<M>(s, l1 - 1, r)));
    }
}

/// Assigning the same value twice is assigning it once.
pub proof fn lemma_set_twice<T>(s: Seq<T>, i: int, v: T)
    requires
        0 <= i < s.len(),
    ensures
        s.update(i, v).update(i, v) == s.update(i, v),
{
    assert(s.update(i, v).update(i, v) =~= s.update(i, v));
}

/// Under prefix monotonicity, acceptance of the fold up to `r` extends to every shorter prefix.
pub proof fn lemma_prefix_all<M: Monoid, F: Fn(&M::Set) -> bool>(f: F, s: Seq<M::Set>, l: int, r: int)
    requires
        prefix_monotone::<M, F>(f, s, l),
        l <= r <= s.len(),
        accepts(f, fold_range::<M>(s, l, r)),
    ensures
        forall|k: int| l <= k <= r ==> accepts(f, #[trigger] fold_range::<M>(s, l, k)),
{
    assert forall|k: int| l <= k <= r implies accepts(f, #[trigger] fold_range::<M>(s, l, k)) by {
        assert(accepts(f, fold_range::<M>(s, l, r)));
    }
}

/// Under suffix monotonicity, acceptance of the fold from `l` extends to every shorter suffix.
pub proof fn lemma_suffix_all<M: Monoid, F: Fn(&M::Set) -> bool>(f: F, s: Seq<M::Set>, l: int, r: int)
    requires
        suffix_monotone::<M, F>(f, s, r),
        0 <= l <= r,
        accepts(f, fold_range::<M>(s, l, r)),
    ensures
        forall|k: int| l <= k <= r ==> accepts(f, #[trigger] fold_range::<M>(s, k, r)),
{
    assert forall|k: int| l <= k <= r implies accepts(f, #[trigger] fold_range::<M>(s, k, r)) by {
        assert(accepts(f, fold_range::<M>(s, l, r)));
    }
}

} // verus!
