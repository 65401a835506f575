//! Primes.
use vstd::prelude::*;

verus! {

/// `p` is prime.
pub open spec fn is_prime(p: int) -> bool {
    p >= 2 && forall|d: int| 2 <= d < p ==> #[trigger] (p % d) != 0
}

/// No prime below `i` (and below `j`) divides `j`.
pub open spec fn unmarked(j: int, i: int) -> bool {
    forall|d: int| 2 <= d < i && d < j && is_prime(d) ==> #[trigger] (j % d) != 0
}

/// Every number from `2` on has a prime factor.
pub proof fn lemma_prime_factor(m: int) -> (p: int)
    requires
        m >= 2,
    ensures
        is_prime(p),
        2 <= p <= m,
        m % p == 0,
    decreases m,
{
    if is_prime(m) {
        vstd::arithmetic::div_mod::lemma_mod_self_0(m);
        m
    } else {
        let d = choose|d: int| 2 <= d < m && #[trigger] (m % d) == 0;
        let p = lemma_prime_factor(d);
        vstd::arithmetic::div_mod::lemma_fundamental_div_mod(m, d);
        vstd::arithmetic::div_mod::lemma_fundamental_div_mod(d, p);
        let a = m / d;
        let b = d / p;
        assert(m == p * (b * a)) by (nonlinear_arith)
            requires
                m == d * a,
                d == p * b,
        ;
        vstd::arithmetic::div_mod::lemma_mod_multiples_basic(b * a, p);
        assert(p * (b * a) == (b * a) * p) by (nonlinear_arith);
        p
    }
}

/// A number that no smaller prime divides is prime.
proof fn lemma_unmarked_prime(m: int)
    requires
        m >= 2,
        unmarked(m, m),
    ensures
        is_prime(m),
{
    if !is_prime(m) {
        let d = choose|d: int| 2 <= d < m && #[trigger] (m % d) == 0;
        let p = lemma_prime_factor(d);
        vstd::arithmetic::div_mod::lemma_fundamental_div_mod(m, d);
        vstd::arithmetic::div_mod::lemma_fundamental_div_mod(d, p);
        let a = m / d;
        let b = d / p;
        assert(m == p * (b * a)) by (nonlinear_arith)
            requires
                m == d * a,
                d == p * b,
        ;
        vstd::arithmetic::div_mod::lemma_mod_multiples_basic(b * a, p);
        assert(p * (b * a) == (b * a) * p) by (nonlinear_arith);
        assert(m % p != 0);
    }
}

/// The primes up to `n`, in increasing order (sieve of Eratosthenes).
pub fn sieve(n: usize) -> (primes: Vec<usize>)
    requires
        n <= usize::MAX / 2,
    ensures
        forall|k: int| 0 <= k < primes.len() ==> is_prime(#[trigger] primes@[k] as int) && primes@[k] <= n,
        forall|k1: int, k2: int| 0 <= k1 < k2 < primes.len() ==> primes@[k1] < primes@[k2],
        forall|p: int| 0 <= p <= n && is_prime(p) ==> primes@.contains(p as usize),
{
    let mut primes: Vec<usize> = Vec::new();
    if n < 2 {
        return primes;
    }
    let mut is_prime_v: Vec<bool> = Vec::new();
    while is_prime_v.len() <= n
        invariant
            is_prime_v.len() <= n + 1,
            forall|j: int| 0 <= j < is_prime_v.len() ==> is_prime_v@[j],
        decreases n + 1 - is_prime_v.len(),
    {
        is_prime_v.push(true);
    }
    let mut i: usize = 2;
    while i <= n
        invariant
            2 <= i <= n + 1,
            n <= usize::MAX / 2,
            is_prime_v.len() == n + 1,
            forall|j: int| 2 <= j <= n ==> (is_prime_v@[j] <==> #[trigger] unmarked(j, i as int)),
            forall|k: int| 0 <= k < primes.len() ==> is_prime(#[trigger] primes@[k] as int) && primes@[k] < i,
            forall|k1: int, k2: int| 0 <= k1 < k2 < primes.len() ==> primes@[k1] < primes@[k2],
            forall|p: int| 0 <= p < i && is_prime(p) ==> primes@.contains(p as usize),
        decreases n + 1 - i,
    {
        if !is_prime_v[i] {
            proof {
                assert(!unmarked(i as int, i as int));
                assert forall|j: int| 2 <= j <= n implies (is_prime_v@[j] <==> #[trigger] unmarked(
                    j,
                    i + 1,
                )) by {
                    assert(unmarked(j, i as int) ==> unmarked(j, i + 1));
                    assert(unmarked(j, i + 1) ==> unmarked(j, i as int));
                }
                assert forall|p: int| 0 <= p < i + 1 && is_prime(p) implies primes@.contains(p as usize) by {
                    if p == i {
                        assert(!unmarked(i as int, i as int));
                    }
                }
            }
            i = i + 1;
            continue;
        }
        proof {
            lemma_unmarked_prime(i as int);
        }
        let ghost before = primes@;
        primes.push(i);
        proof {
            assert forall|p: int| 0 <= p < i + 1 && is_prime(p) implies primes@.contains(p as usize) by {
                if p == i {
                    assert(primes@[primes.len() - 1] == i);
                } else {
                    assert(before.contains(p as usize));
                    let k = choose|k: int| 0 <= k < before.len() && before[k] == p as usize;
                    assert(primes@[k] == p as usize);
                }
            }
        }
        let ghost flags0 = is_prime_v@;
        let mut k: usize = 2 * i;
        proof {
            vstd::arithmetic::div_mod::lemma_mod_multiples_basic(2, i as int);
        }
        while k <= n
            invariant
                2 <= i <= n,
                n <= usize::MAX / 2,
                is_prime_v.len() == n + 1,
                2 * i <= k <= n + i,
                k % i == 0,
                flags0.len() == n + 1,
                forall|j: int|
                    0 <= j <= n ==> #[trigger] is_prime_v@[j] == (flags0[j] && !(j % (i as int) == 0 && 2 * i
                        <= j < k)),
            decreases n + i - k,
        {
            is_prime_v.set(k, false);
            proof {
                assert forall|j: int| 0 <= j <= n implies #[trigger] is_prime_v@[j] == (flags0[j] && !(j % (
                i as int) == 0 && 2 * i <= j < k + i)) by {
                    if k < j < k + i && j % (i as int) == 0 {
                        vstd::arithmetic::div_mod::lemma_fundamental_div_mod(j, i as int);
                        vstd::arithmetic::div_mod::lemma_fundamental_div_mod(k as int, i as int);
                        let ii = i as int;
                        let kk = k as int;
                        assert(false) by (nonlinear_arith)
                            requires
                                j == ii * (j / ii),
                                kk == ii * (kk / ii),
                                kk < j < kk + ii,
                                ii > 0,
                        ;
                    }
                }
                vstd::arithmetic::div_mod::lemma_mod_adds(k as int, i as int, i as int);
                vstd::arithmetic::div_mod::lemma_mod_self_0(i as int);
            }
            k = k + i;
        }
        proof {
            assert forall|j: int| 2 <= j <= n implies (is_prime_v@[j] <==> #[trigger] unmarked(j, i + 1)) by {
                assert(flags0[j] <==> unmarked(j, i as int));
                if j % (i as int) == 0 && 2 * i <= j {
                    assert(!unmarked(j, i + 1));
                } else if unmarked(j, i as int) {
                    assert forall|d: int| 2 <= d < i + 1 && d < j && is_prime(d) implies #[trigger] (j % d)
                        != 0 by {
                        if d == i {
                            if j % (i as int) == 0 {
                                vstd::arithmetic::div_mod::lemma_fundamental_div_mod(j, i as int);
                                let ii = i as int;
                                assert(j >= 2 * ii) by (nonlinear_arith)
                                    requires
                                        j == ii * (j / ii),
                                        j > ii,
                                        ii > 0,
                                ;
                            }
                        }
                    }
                }
            }
        }
        i = i + 1;
    }
    primes
}

} // verus!
