//! Fenwick tree: point addition and prefix sums in `O(log n)`.
use core::ops::Range;
use vstd::prelude::*;

verus! {

/// The lowest set bit of `j`, as a number: the largest power of two dividing `j`.
pub open spec fn low(j: int) -> int
    decreases j,
{
    if j <= 0 {
        0
    } else if j % 2 == 1 {
        1
    } else {
        2 * low(j / 2)
    }
}

/// The sum of `s[l..r]`.
pub open spec fn seq_sum(s: Seq<int>, l: int, r: int) -> int
    decreases r - l,
{
    if r <= l {
        0
    } else {
        seq_sum(s, l, r - 1) + s[r - 1]
    }
}

proof fn lemma_low_bounds(j: int)
    requires
        j >= 1,
    ensures
        1 <= low(j) <= j,
    decreases j,
{
    if j % 2 == 0 {
        lemma_low_bounds(j / 2);
    }
}

/// Between `j` and `j + low(j)` every number has a lower set bit smaller than its distance to `j`.
proof fn lemma_low_between(j: int, r: int)
    requires
        j >= 1,
        0 < r < low(j),
    ensures
        low(j + r) == low(r),
    decreases j,
{
    if j % 2 == 0 && r % 2 == 0 {
        lemma_low_between(j / 2, r / 2);
        assert((j + r) / 2 == j / 2 + r / 2);
    }
}

/// Adding the lowest set bit at least doubles it.
proof fn lemma_low_next(j: int)
    requires
        j >= 1,
    ensures
        low(j + low(j)) >= 2 * low(j),
    decreases j,
{
    lemma_low_bounds(j);
    if j % 2 == 1 {
        lemma_low_bounds((j + 1) / 2);
    } else {
        lemma_low_next(j / 2);
        assert((j + low(j)) / 2 == j / 2 + low(j / 2));
    }
}

/// The exec form of the lowest set bit.
proof fn lemma_lowbit(x: usize)
    requires
        x >= 1,
    ensures
        x & (x ^ ((x - 1) as usize)) == low(x as int),
    decreases x,
{
    if x % 2 == 1 {
        assert(x % 2 == 1 ==> x & (x ^ ((x - 1) as usize)) == 1) by (bit_vector);
    } else {
        let h = x / 2;
        assert(x >= 2 && x % 2 == 0 ==> x & (x ^ ((x - 1) as usize)) == 2 * (((x / 2) & ((x / 2) ^ ((x / 2
            - 1) as usize))) as int)) by (bit_vector);
        lemma_lowbit(h);
    }
}

proof fn lemma_sum_split(s: Seq<int>, l: int, m: int, r: int)
    requires
        l <= m <= r,
    ensures
        seq_sum(s, l, r) == seq_sum(s, l, m) + seq_sum(s, m, r),
    decreases r - m,
{
    if m < r {
        lemma_sum_split(s, l, m, r - 1);
    }
}

proof fn lemma_sum_nonneg_le(s: Seq<int>, l: int, m: int, r: int)
    requires
        0 <= l <= m <= r <= s.len(),
        forall|i: int| 0 <= i < s.len() ==> s[i] >= 0,
    ensures
        0 <= seq_sum(s, l, m) <= seq_sum(s, l, r),
    decreases r - l,
{
    if m < r {
        lemma_sum_nonneg_le(s, l, m, r - 1);
    } else if l < m {
        lemma_sum_nonneg_le(s, l, m - 1, m - 1);
    }
}

proof fn lemma_sum_update(s: Seq<int>, i: int, v: int, l: int, r: int)
    requires
        0 <= i < s.len(),
        0 <= l <= r <= s.len(),
    ensures
        seq_sum(s.update(i, s[i] + v), l, r) == seq_sum(s, l, r) + if l <= i < r { v } else { 0 },
    decreases r - l,
{
    if l < r {
        lemma_sum_update(s, i, v, l, r - 1);
    }
}

/// Fenwick tree over `usize` values: entry `j - 1` holds the sum of the
/// elements in `[j - low(j), j)`.
pub struct FenwickTree {
    len: usize,
    data: Vec<usize>,
    e: usize,
    vals: Ghost<Seq<int>>,
}

impl FenwickTree {
    /// The elements, in order.
    pub closed spec fn view(&self) -> Seq<int> {
        self.vals@
    }

    pub closed spec fn wf(&self) -> bool {
        &&& self.vals@.len() == self.len
        &&& self.data@.len() == self.len
        &&& self.e == 0
        &&& self.len <= usize::MAX / 2
        &&& forall|i: int| 0 <= i < self.len ==> self.vals@[i] >= 0
        &&& seq_sum(self.vals@, 0, self.len as int) <= usize::MAX
        &&& forall|j: int|
            1 <= j <= self.len ==> #[trigger] self.data@[j - 1] == seq_sum(self.vals@, j - low(j), j)
    }

    /// `n` zeros; `e` is the zero of the sums.
    pub fn new(n: usize, e: usize) -> (r: Self)
        requires
            e == 0,
            n <= usize::MAX / 2,
        ensures
            r.wf(),
            r@ == Seq::new(n as nat, |i: int| 0int),
    {
        let mut data: Vec<usize> = Vec::new();
        while data.len() < n
            invariant
                data.len() <= n,
                forall|i: int| 0 <= i < data.len() ==> data@[i] == e,
            decreases n - data.len(),
        {
            data.push(e);
        }
        let ghost vals = Seq::new(n as nat, |i: int| 0int);
        proof {
            assert forall|l: int, r: int| 0 <= l <= r <= n implies seq_sum(vals, l, r) == 0 by {
                lemma_sum_zero(vals, l, r);
            }
            assert forall|j: int| 1 <= j <= n implies #[trigger] data@[j - 1] == seq_sum(vals, j - low(j), j) by {
                lemma_low_bounds(j);
            }
        }
        FenwickTree { len: n, data, e, vals: Ghost(vals) }
    }

    /// Adds `val` to element `i`.
    pub fn add(&mut self, i: usize, val: usize)
        requires
            old(self).wf(),
            i < old(self)@.len(),
            seq_sum(old(self)@, 0, old(self)@.len() as int) + val <= usize::MAX,
        ensures
            final(self).wf(),
            final(self)@ == old(self)@.update(i as int, old(self)@[i as int] + val),
    {
        let ghost s0 = self.vals@;
        let ghost s1 = s0.update(i as int, s0[i as int] + val);
        proof {
            lemma_sum_update(s0, i as int, val as int, 0, self.len as int);
        }
        let mut j = i + 1;
        proof {
            lemma_low_bounds(j as int);
        }
        while j <= self.len
            invariant
                self.len == old(self).len,
                self.e == 0,
                self.vals@ == s0,
                s0 == old(self)@,
                s0.len() == self.len,
                s1.len() == self.len,
                s1 == s0.update(i as int, s0[i as int] + val),
                self.data@.len() == self.len,
                i < self.len,
                self.len <= usize::MAX / 2,
                seq_sum(s1, 0, self.len as int) <= usize::MAX,
                forall|x: int| 0 <= x < self.len ==> s1[x] >= 0,
                j >= 1,
                j - low(j as int) <= i < j,
                forall|k: int|
                    1 <= k <= self.len ==> #[trigger] self.data@[k - 1] == seq_sum(s0, k - low(k), k) + if k
                        < j && k - low(k) <= i < k {
                        val as int
                    } else {
                        0
                    },
            decreases usize::MAX - j,
        {
            proof {
                lemma_low_bounds(j as int);
                lemma_sum_update(s0, i as int, val as int, j - low(j as int), j as int);
                lemma_sum_nonneg_le(s1, j - low(j as int), j as int, self.len as int);
                lemma_sum_nonneg_le(s1, 0, j - low(j as int), self.len as int);
                lemma_sum_split(s1, 0, j - low(j as int), self.len as int);
                lemma_lowbit(j);
                lemma_low_next(j as int);
                assert forall|k: int| j < k < j + low(j as int) implies !(k - #[trigger] low(k) <= i < k) by {
                    lemma_low_between(j as int, k - j);
                    lemma_low_bounds(k - j);
                }
            }
            assert(self.data@[j - 1] == seq_sum(s0, j - low(j as int), j as int));
            assert(seq_sum(s1, j - low(j as int), j as int) == seq_sum(s0, j - low(j as int), j as int) + val);
            assert(seq_sum(s1, j - low(j as int), j as int) <= seq_sum(s1, j - low(j as int), self.len as int));
            assert(seq_sum(s1, 0, j - low(j as int)) >= 0);
            let v = self.data[j - 1] + val;
            self.data.set(j - 1, v);
            j = j + (j & (j ^ (j - 1)));
        }
        proof {
            self.vals = Ghost(s1);
            assert forall|k: int| 1 <= k <= self.len implies #[trigger] self.data@[k - 1] == seq_sum(
                s1,
                k - low(k),
                k,
            ) by {
                lemma_low_bounds(k);
                lemma_sum_update(s0, i as int, val as int, k - low(k), k);
            }
        }
    }

    /// The sum of the first `r` elements.
    pub fn prefix_sum(&self, r: usize) -> (s: usize)
        requires
            self.wf(),
            r <= self@.len(),
        ensures
            s == seq_sum(self@, 0, r as int),
    {
        let mut s = self.e;
        let mut idx = r;
        while idx > 0
            invariant
                self.wf(),
                r <= self.len,
                idx <= r,
                s == seq_sum(self.vals@, idx as int, r as int),
            decreases idx,
        {
            proof {
                lemma_low_bounds(idx as int);
                lemma_sum_split(self.vals@, idx - low(idx as int), idx as int, r as int);
                lemma_sum_nonneg_le(self.vals@, idx - low(idx as int), r as int, self.len as int);
                lemma_sum_nonneg_le(self.vals@, 0, idx - low(idx as int), self.len as int);
                lemma_sum_split(self.vals@, 0, idx - low(idx as int), self.len as int);
                lemma_lowbit(idx);
            }
            s = s + self.data[idx - 1];
            idx = idx - (idx & (idx ^ (idx - 1)));
        }
        s
    }

    /// The sum of the elements in `range`.
    pub fn sum(&self, range: Range<usize>) -> (s: usize)
        requires
            self.wf(),
            range.start <= range.end <= self@.len(),
        ensures
            s == seq_sum(self@, range.start as int, range.end as int),
    {
        proof {
            lemma_sum_split(self.vals@, 0, range.start as int, range.end as int);
            lemma_sum_nonneg_le(self.vals@, range.start as int, range.end as int, range.end as int);
        }
        self.prefix_sum(range.end) - self.prefix_sum(range.start)
    }

    /// The sum of the elements in `range`.
    pub fn fold(&self, range: Range<usize>) -> (s: usize)
        requires
            self.wf(),
            range.start <= range.end <= self@.len(),
        ensures
            s == seq_sum(self@, range.start as int, range.end as int),
    {
        self.sum(range)
    }
}

proof fn lemma_sum_zero(s: Seq<int>, l: int, r: int)
    requires
        forall|i: int| l <= i < r ==> s[i] == 0,
    ensures
        seq_sum(s, l, r) == 0,
    decreases r - l,
{
    if l < r {
        lemma_sum_zero(s, l, r - 1);
    }
}

} // verus!
