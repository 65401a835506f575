//! Integer helpers.
use vstd::arithmetic::power2::{lemma_pow2_strictly_increases, lemma_pow2_unfold, pow2};
use vstd::prelude::*;

verus! {

/// Returns the smallest `x` such that `2^x >= n`.
pub fn ceil_pow2(n: usize) -> (x: usize)
    requires
        n <= usize::MAX / 2,
    ensures
        n <= pow2(x as nat),
        x == 0 || pow2((x - 1) as nat) < n,
        pow2(x as nat) <= usize::MAX,
        x < usize::BITS,
{
    let mut x: usize = 0;
    let mut p: usize = 1;
    proof {
        vstd::arithmetic::power2::lemma2_to64();
    }
    while p < n
        invariant
            p == pow2(x as nat),
            x == 0 || pow2((x - 1) as nat) < n,
            1 <= p,
            x < usize::BITS,
            x <= p,
            n <= usize::MAX / 2,
        decreases usize::MAX - p,
    {
        proof {
            lemma_pow2_unfold((x + 1) as nat);
            vstd::arithmetic::power2::lemma2_to64_rest();
            vstd::arithmetic::power2::lemma2_to64();
            assert(usize::MAX < pow2(usize::BITS as nat));
            if x + 1 > usize::BITS {
                lemma_pow2_strictly_increases(usize::BITS as nat, (x + 1) as nat);
            }
        }
        p = p * 2;
        x = x + 1;
    }
    x
}

} // verus!
