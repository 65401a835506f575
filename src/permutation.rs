//! Permutations in lexicographic order.
use vstd::prelude::*;

verus! {

/// The last `i` with `s[i] < s[i + 1]`, or `-1`.
pub open spec fn last_ascent(s: Seq<i32>) -> int
    decreases s.len(),
{
    if s.len() < 2 {
        -1
    } else if s[s.len() - 2] < s[s.len() - 1] {
        s.len() - 2
    } else {
        last_ascent(s.drop_last())
    }
}

/// The last `j > i` with `s[j] > s[i]`.
pub open spec fn last_above(s: Seq<i32>, i: int) -> int
    decreases s.len(),
{
    if s.len() == 0 || s.len() <= i + 1 {
        i
    } else if s[s.len() - 1] > s[i] {
        s.len() - 1
    } else {
        last_above(s.drop_last(), i)
    }
}

/// `s` with `s[from..]` reversed.
pub open spec fn reverse_from(s: Seq<i32>, from: int) -> Seq<i32> {
    Seq::new(s.len(), |k: int| if k < from { s[k] } else { s[s.len() - 1 - (k - from)] })
}

/// The next permutation of `s` in lexicographic order, or, after the last
/// one, the first (the sequence reversed).
pub open spec fn next_perm(s: Seq<i32>) -> Seq<i32> {
    let i = last_ascent(s);
    if i < 0 {
        reverse_from(s, 0)
    } else {
        let j = last_above(s, i);
        reverse_from(s.update(i, s[j]).update(j, s[i]), i + 1)
    }
}

proof fn lemma_last_ascent(s: Seq<i32>)
    ensures
        -1 <= last_ascent(s),
        last_ascent(s) >= 0 ==> last_ascent(s) + 1 < s.len() && s[last_ascent(s)] < s[last_ascent(s) + 1],
        forall|k: int| last_ascent(s) < k && k + 1 < s.len() ==> #[trigger] s[k] >= s[k + 1],
    decreases s.len(),
{
    if s.len() >= 2 && !(s[s.len() - 2] < s[s.len() - 1]) {
        let t = s.drop_last();
        lemma_last_ascent(t);
        assert forall|k: int| last_ascent(s) < k && k + 1 < s.len() implies #[trigger] s[k] >= s[k + 1] by {
            if k + 1 < t.len() {
                assert(t[k] >= t[k + 1]);
            }
        }
    }
}

proof fn lemma_last_above(s: Seq<i32>, i: int)
    requires
        0 <= i < s.len(),
    ensures
        i <= last_above(s, i) < s.len(),
        last_above(s, i) > i ==> s[last_above(s, i)] > s[i],
        forall|k: int| last_above(s, i) < k < s.len() ==> #[trigger] s[k] <= s[i],
    decreases s.len(),
{
    if s.len() > i + 1 && !(s[s.len() - 1] > s[i]) {
        let t = s.drop_last();
        lemma_last_above(t, i);
        assert forall|k: int| last_above(s, i) < k < s.len() implies #[trigger] s[k] <= s[i] by {
            if k < t.len() {
                assert(t[k] <= t[i]);
            }
        }
    }
}

/// Rearranges `nums` into the next permutation in lexicographic order and
/// returns `true`; after the last permutation, sorts it back into the first
/// and returns `false`.
pub fn next_permutation(nums: &mut Vec<i32>) -> (r: bool)
    ensures
        final(nums)@ == next_perm(old(nums)@),
        r == (last_ascent(old(nums)@) >= 0),
{
    let ghost s = nums@;
    proof {
        lemma_last_ascent(s);
    }
    let n = nums.len();
    let mut i: usize = n;
    proof {
        assert(s.subrange(0, n as int) =~= s);
    }
    while i >= 2 && !(nums[i - 2] < nums[i - 1])
        invariant
            nums@ == s,
            n == s.len(),
            i <= n,
            last_ascent(s) == last_ascent(s.subrange(0, i as int)),
        decreases i,
    {
        proof {
            assert(s.subrange(0, i as int).drop_last() =~= s.subrange(0, i - 1));
        }
        i = i - 1;
    }
    if i < 2 {
        reverse_tail(nums, 0);
        return false;
    }
    let a = i - 2;
    proof {
        assert(last_ascent(s) == a);
        lemma_last_above(s, a as int);
    }
    let mut j: usize = n - 1;
    while nums[j] <= nums[a]
        invariant
            nums@ == s,
            n == s.len(),
            a < j < n,
            a == last_ascent(s),
            last_above(s, a as int) == last_above(s.subrange(0, j + 1), a as int),
            s[a + 1] > s[a as int],
        decreases j,
    {
        proof {
            assert(s.subrange(0, j + 1).drop_last() =~= s.subrange(0, j as int));
        }
        j = j - 1;
    }
    proof {
        assert(last_above(s.subrange(0, j + 1), a as int) == j);
    }
    let t = nums[a];
    let u = nums[j];
    nums.set(a, u);
    nums.set(j, t);
    reverse_tail(nums, a + 1);
    true
}

/// Reverses `v[from..]` in place.
fn reverse_tail(v: &mut Vec<i32>, from: usize)
    requires
        from <= old(v).len(),
    ensures
        final(v)@ == reverse_from(old(v)@, from as int),
{
    let n = v.len();
    if n == 0 {
        proof {
            assert(v@ =~= reverse_from(old(v)@, from as int));
        }
        return;
    }
    let mut lo = from;
    let mut hi = n;
    while hi - lo >= 2
        invariant
            v@.len() == n,
            n == old(v)@.len(),
            from <= lo <= hi <= n,
            lo - from == n - hi,
            forall|k: int|
                0 <= k < n ==> #[trigger] v@[k] == if from <= k < lo || hi <= k < n {
                    reverse_from(old(v)@, from as int)[k]
                } else {
                    old(v)@[k]
                },
        decreases hi - lo,
    {
        let x = v[lo];
        let y = v[hi - 1];
        v.set(lo, y);
        v.set(hi - 1, x);
        lo = lo + 1;
        hi = hi - 1;
    }
    proof {
        assert(v@ =~= reverse_from(old(v)@, from as int));
    }
}

} // verus!
