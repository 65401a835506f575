//! Prime factorisation by trial division.
use std::collections::HashMap;
use vstd::prelude::*;

use crate::gcd::{ext_gcd_spec, gcd_spec, lemma_gcd_divides};
use crate::mod_int::lemma_ext_gcd_spec;
use crate::prime::{is_prime, lemma_prime_factor};

verus! {

/// The exponent of `p` in `m`: how many times `p` divides `m`.
pub open spec fn valuation(p: int, m: int) -> nat
    decreases m,
{
    if p >= 2 && m > 0 && m % p == 0 {
        if m / p < m {
            1 + valuation(p, m / p)
        } else {
            0
        }
    } else {
        0
    }
}

/// Euclid's lemma: a prime that divides `i * y` without dividing `i` divides `y`.
proof fn lemma_euclid(p: int, i: int, y: int)
    requires
        is_prime(p),
        i >= 1,
        y >= 0,
        i % p != 0,
        (i * y) % p == 0,
    ensures
        y % p == 0,
{
    let im = i % p;
    lemma_gcd_divides(p as nat, im as nat);
    let g = gcd_spec(p as nat, im as nat) as int;
    // g divides p, and p is prime, so g is 1 or p; it divides i % p < p, so it is 1
    assert(g == 1) by {
        vstd::arithmetic::div_mod::lemma_mod_bound(i, p);
        if g != 1 {
            vstd::arithmetic::div_mod::lemma_fundamental_div_mod(p, g);
            vstd::arithmetic::div_mod::lemma_fundamental_div_mod(im, g);
            if g < p {
                assert(p % g != 0);
            }
            assert(im == g * (im / g));
            assert(0 < im < p);
            assert(false) by (nonlinear_arith)
                requires
                    im == g * (im / g),
                    0 < im < p,
                    g >= p,
            ;
        }
    }
    lemma_ext_gcd_spec(p, im);
    let (d, s, t) = ext_gcd_spec(p, im);
    // p s + (i mod p) t == 1, so y == p (s y) + (i mod p) y t
    vstd::arithmetic::div_mod::lemma_fundamental_div_mod(i, p);
    let q = i / p;
    assert(y == p * (s * y - q * y * t) + (i * y) * t) by (nonlinear_arith)
        requires
            p * s + im * t == 1,
            i == p * q + im,
    ;
    vstd::arithmetic::div_mod::lemma_fundamental_div_mod(i * y, p);
    let k = (i * y) / p;
    assert(y == p * (s * y - q * y * t + k * t)) by (nonlinear_arith)
        requires
            y == p * (s * y - q * y * t) + (i * y) * t,
            i * y == p * k,
    ;
    vstd::arithmetic::div_mod::lemma_mod_multiples_basic(s * y - q * y * t + k * t, p);
    assert(p * (s * y - q * y * t + k * t) == (s * y - q * y * t + k * t) * p) by (nonlinear_arith);
}

proof fn lemma_div_smaller(m: int, p: int)
    requires
        m > 0,
        p >= 2,
    ensures
        m / p < m,
        m / p >= 0,
{
    vstd::arithmetic::div_mod::lemma_div_decreases(m, p);
    vstd::arithmetic::div_mod::lemma_div_pos_is_pos(m, p);
}

/// Dividing by `i` keeps the exponent of every other prime.
proof fn lemma_valuation_other(p: int, i: int, x: int)
    requires
        is_prime(p),
        is_prime(i),
        p != i,
        x > 0,
        x % i == 0,
    ensures
        valuation(p, x / i) == valuation(p, x),
    decreases x,
{
    let y = x / i;
    vstd::arithmetic::div_mod::lemma_fundamental_div_mod(x, i);
    lemma_div_smaller(x, i);
    assert(y > 0) by (nonlinear_arith)
        requires
            x == i * y + 0,
            x > 0,
            i >= 2,
    ;
    if i % p == 0 {
        assert(false) by {
            assert(2 <= p < i || p > i);
            if p > i {
                vstd::arithmetic::div_mod::lemma_small_mod(i as nat, p as nat);
            }
        }
    }
    lemma_div_smaller(x, p);
    lemma_div_smaller(y, p);
    if x % p == 0 {
        assert((i * y) % p == 0);
        lemma_euclid(p, i, y);
        // both divisible by p: recurse on x / p
        let xp = x / p;
        let yp = y / p;
        vstd::arithmetic::div_mod::lemma_fundamental_div_mod(y, p);
        vstd::arithmetic::div_mod::lemma_fundamental_div_mod(x, p);
        assert(xp == i * yp) by (nonlinear_arith)
            requires
                x == i * y,
                y == p * yp,
                x == p * xp,
                p > 0,
        ;
        vstd::arithmetic::div_mod::lemma_mod_multiples_basic(yp, i);
        assert(i * yp == yp * i) by (nonlinear_arith);
        vstd::arithmetic::div_mod::lemma_div_multiples_vanish(yp, i);
        assert(xp > 0) by (nonlinear_arith)
            requires
                x == p * xp,
                x > 0,
                p > 0,
        ;
        lemma_valuation_other(p, i, xp);
    } else {
        if y % p == 0 {
            vstd::arithmetic::div_mod::lemma_fundamental_div_mod(y, p);
            let yp = y / p;
            assert(x == p * (i * yp)) by (nonlinear_arith)
                requires
                    x == i * y,
                    y == p * yp,
            ;
            vstd::arithmetic::div_mod::lemma_mod_multiples_basic(i * yp, p);
            assert(p * (i * yp) == (i * yp) * p) by (nonlinear_arith);
        }
    }
}

/// The exponent of a prime is below the number itself, and positive exactly
/// when the prime divides it.
proof fn lemma_valuation_basics(p: int, m: int)
    requires
        p >= 2,
        m >= 1,
    ensures
        valuation(p, m) < m,
        valuation(p, m) >= 1 <==> m % p == 0,
    decreases m,
{
    lemma_div_smaller(m, p);
    if m % p == 0 {
        vstd::arithmetic::div_mod::lemma_fundamental_div_mod(m, p);
        let q = m / p;
        assert(q >= 1) by (nonlinear_arith)
            requires
                m == p * q + 0,
                m >= 1,
                p >= 2,
        ;
        lemma_valuation_basics(p, q);
        assert(1 + q <= m) by (nonlinear_arith)
            requires
                m == p * q,
                q >= 1,
                p >= 2,
        ;
    }
}

/// A composite number has a prime factor whose square is at most the number.
proof fn lemma_small_prime_factor(x: int) -> (q: int)
    requires
        x >= 2,
        !is_prime(x),
    ensures
        is_prime(q),
        x % q == 0,
        q * q <= x,
{
    let d = choose|d: int| 2 <= d < x && #[trigger] (x % d) == 0;
    vstd::arithmetic::div_mod::lemma_fundamental_div_mod(x, d);
    let e = x / d;
    assert(e >= 2) by (nonlinear_arith)
        requires
            x == d * e + 0,
            d < x,
            d >= 2,
    ;
    let a = if d <= e { d } else { e };
    assert(x % a == 0) by {
        if a == e {
            vstd::arithmetic::div_mod::lemma_mod_multiples_basic(d, e);
            assert(d * e == e * d) by (nonlinear_arith);
        }
    }
    assert(a * a <= x) by (nonlinear_arith)
        requires
            x == d * e,
            a == d || a == e,
            a <= d,
            a <= e,
            a >= 2,
    ;
    let q = lemma_prime_factor(a);
    vstd::arithmetic::div_mod::lemma_fundamental_div_mod(a, q);
    vstd::arithmetic::div_mod::lemma_fundamental_div_mod(x, a);
    let b = a / q;
    let c = x / a;
    assert(x == q * (b * c)) by (nonlinear_arith)
        requires
            a == q * b,
            x == a * c,
    ;
    vstd::arithmetic::div_mod::lemma_mod_multiples_basic(b * c, q);
    assert(q * (b * c) == (b * c) * q) by (nonlinear_arith);
    assert(q * q <= a * a) by (nonlinear_arith)
        requires
            2 <= q <= a,
    ;
    q
}

/// The prime factorisation of `n`: each prime dividing `n`, mapped to its
/// exponent. (`0` maps to `{0: 1}`.)
pub fn factorization(n: usize) -> (factors: HashMap<usize, usize>)
    ensures
        n == 0 ==> factors@ == map![0usize => 1usize],
        n >= 1 ==> forall|p: usize| #[trigger] factors@.contains_key(p) <==> (is_prime(p as int) && n % p == 0),
        n >= 1 ==> forall|p: usize|
            #[trigger] factors@.contains_key(p) ==> factors@[p] == valuation(p as int, n as int),
{
    broadcast use vstd::std_specs::hash::group_hash_axioms;

    let mut factors: HashMap<usize, usize> = HashMap::new();
    if n == 0 {
        factors.insert(0, 1);
        proof {
            assert(factors@ =~= map![0usize => 1usize]);
        }
        return factors;
    }
    let mut i: usize = 2;
    let mut x = n;
    while i <= n / i
        invariant
            n >= 1,
            2 <= i <= n + 1,
            1 <= x <= n,
            forall|p: int|
                is_prime(p) && p <= usize::MAX ==> valuation(p, n as int) == valuation(p, x as int) + if factors@.contains_key(
                    p as usize,
                ) {
                    factors@[p as usize] as int
                } else {
                    0
                },
            forall|p: usize| #[trigger]
                factors@.contains_key(p) <==> (is_prime(p as int) && p < i && n % p == 0),
            forall|p: int| is_prime(p) && p < i ==> (x as int) % p != 0,
        decreases n + 1 - i,
    {
        proof {
            vstd::arithmetic::div_mod::lemma_fundamental_div_mod(n as int, i as int);
            assert(i <= n) by (nonlinear_arith)
                requires
                    i <= n / i,
                    n == i * (n / i) + n % i,
                    0 <= n % i,
                    i >= 2,
            ;
        }
        while x % i == 0
            invariant
                n >= 1,
                2 <= i <= n,
                1 <= x <= n,
                forall|p: int|
                    is_prime(p) && p <= usize::MAX ==> valuation(p, n as int) == valuation(p, x as int)
                        + if factors@.contains_key(p as usize) {
                        factors@[p as usize] as int
                    } else {
                        0
                    },
                forall|p: usize| #[trigger]
                    factors@.contains_key(p) ==> p <= i && is_prime(p as int) && n % p == 0,
                forall|p: usize|
                    #[trigger] factors@.contains_key(p) <== (is_prime(p as int) && p < i && n % p == 0),
                forall|p: int| is_prime(p) && p < i ==> (x as int) % p != 0,
            decreases x,
        {
            proof {
                if !is_prime(i as int) {
                    let q = lemma_prime_factor(i as int);
                    vstd::arithmetic::div_mod::lemma_fundamental_div_mod(i as int, q);
                    vstd::arithmetic::div_mod::lemma_fundamental_div_mod(x as int, i as int);
                    let a = (i as int) / q;
                    let b = (x as int) / (i as int);
                    assert(x == q * (a * b)) by (nonlinear_arith)
                        requires
                            i == q * a,
                            x == i * b,
                    ;
                    vstd::arithmetic::div_mod::lemma_mod_multiples_basic(a * b, q);
                    assert(q * (a * b) == (a * b) * q) by (nonlinear_arith);
                    assert(q < i);
                }
                lemma_valuation_basics(i as int, n as int);
                lemma_valuation_basics(i as int, x as int);
                lemma_div_smaller(x as int, i as int);
            }
            let c = match factors.get(&i) {
                Some(c) => *c,
                None => 0,
            };
            let ghost before = factors@;
            factors.insert(i, c + 1);
            let ghost x0 = x;
            x = x / i;
            proof {
                vstd::arithmetic::div_mod::lemma_fundamental_div_mod(x0 as int, i as int);
                assert(x >= 1) by (nonlinear_arith)
                    requires
                        x0 == i * x + 0,
                        x0 >= 1,
                ;
                assert(valuation(i as int, x0 as int) == 1 + valuation(i as int, x as int));
                assert forall|p: int|
                    is_prime(p) && p <= usize::MAX implies valuation(p, n as int) == valuation(p, x as int)
                        + if factors@.contains_key(p as usize) {
                        factors@[p as usize] as int
                    } else {
                        0
                    } by {
                    if p != i {
                        lemma_valuation_other(p, i as int, x0 as int);
                        assert(factors@.contains_key(p as usize) == before.contains_key(p as usize));
                    }
                }
                assert forall|p: int| is_prime(p) && p < i implies (x as int) % p != 0 by {
                    if (x as int) % p == 0 {
                        vstd::arithmetic::div_mod::lemma_fundamental_div_mod(x as int, p);
                        let k = (x as int) / p;
                        assert(x0 == p * (i * k)) by (nonlinear_arith)
                            requires
                                x0 == i * x,
                                x == p * k,
                        ;
                        vstd::arithmetic::div_mod::lemma_mod_multiples_basic(i * k, p);
                        assert(p * (i * k) == (i * k) * p) by (nonlinear_arith);
                    }
                }
            }
        }
        proof {
            assert forall|p: usize| #[trigger]
                factors@.contains_key(p) <==> (is_prime(p as int) && p < i + 1 && n % p == 0) by {
                if p == i && is_prime(p as int) && n % p == 0 && !factors@.contains_key(p) {
                    lemma_valuation_basics(p as int, n as int);
                    lemma_valuation_basics(p as int, x as int);
                }
            }
            assert forall|p: int| is_prime(p) && p < i + 1 implies (x as int) % p != 0 by {
            }
            assert(i + 1 <= n + 1);
            vstd::arithmetic::div_mod::lemma_div_is_ordered_by_denominator(n as int, 2, i as int);
        }
        i = i + 1;
    }
    proof {
        vstd::arithmetic::div_mod::lemma_fundamental_div_mod(n as int, i as int);
        assert(i * i > n) by (nonlinear_arith)
            requires
                i > n / i,
                n == i * (n / i) + n % i,
                n % i < i,
                i >= 1,
        ;
    }
    if x != 1 {
        proof {
            if !is_prime(x as int) {
                let q = lemma_small_prime_factor(x as int);
                if q < i {
                    assert(false);
                } else {
                    assert(q * q >= i * i) by (nonlinear_arith)
                        requires
                            q >= i,
                            i >= 1,
                    ;
                }
            }
        }
        let ghost before = factors@;
        factors.insert(x, 1);
        proof {
            assert(!before.contains_key(x)) by {
                if before.contains_key(x) {
                    vstd::arithmetic::div_mod::lemma_mod_self_0(x as int);
                }
            }
            assert forall|p: usize| #[trigger]
                factors@.contains_key(p) <==> (is_prime(p as int) && n % p == 0) by {
                if is_prime(p as int) {
                    lemma_valuation_basics(p as int, n as int);
                    lemma_valuation_basics(p as int, x as int);
                    if p == x {
                        vstd::arithmetic::div_mod::lemma_mod_self_0(x as int);
                        assert(valuation(p as int, n as int) == valuation(p as int, x as int));
                    } else if p >= i {
                        if p < x {
                            assert((x as int) % (p as int) != 0);
                        } else {
                            vstd::arithmetic::div_mod::lemma_small_mod(x as nat, p as nat);
                        }
                        assert(valuation(p as int, n as int) == valuation(p as int, x as int));
                    }
                }
            }
            assert forall|p: usize| #[trigger] factors@.contains_key(p) implies factors@[p] == valuation(
                p as int,
                n as int,
            ) by {
                if p == x {
                    lemma_div_smaller(x as int, x as int);
                    vstd::arithmetic::div_mod::lemma_mod_self_0(x as int);
                    vstd::arithmetic::div_mod::lemma_div_by_self(x as int);
                    vstd::arithmetic::div_mod::lemma_small_mod(1, x as nat);
                    assert(valuation(x as int, 1) == 0);
                    assert(valuation(x as int, x as int) == 1 + valuation(x as int, 1));
                    assert(valuation(p as int, n as int) == valuation(p as int, x as int));
                } else {
                    assert(before.contains_key(p));
                    lemma_valuation_basics(p as int, x as int);
                    assert((x as int) % (p as int) != 0);
                    assert(valuation(p as int, n as int) == valuation(p as int, x as int) + before[p]);
                }
            }
        }
    } else {
        proof {
            assert forall|p: usize| #[trigger]
                factors@.contains_key(p) <==> (is_prime(p as int) && n % p == 0) by {
                if is_prime(p as int) {
                    lemma_valuation_basics(p as int, n as int);
                    if p >= i {
                        vstd::arithmetic::div_mod::lemma_small_mod(1, p as nat);
                        assert(valuation(p as int, 1) == 0);
                    }
                }
            }
        }
    }
    factors
}

} // verus!
