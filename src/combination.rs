//! Binomial coefficients modulo a prime, from tables of factorials.
use vstd::arithmetic::div_mod::{lemma_mul_mod_noop_left, lemma_mul_mod_noop_right};
use vstd::prelude::*;

use crate::prime::is_prime;

verus! {

pub open spec fn factorial(n: nat) -> nat
    decreases n,
{
    if n == 0 {
        1
    } else {
        n * factorial((n - 1) as nat)
    }
}

/// Largest modulus supported: products of two residues must fit a `u64`.
pub const MAX_PRIME: u64 = 0xffff_ffff;

/// Factorials modulo `p` and, while below `p`, their inverses.
pub struct CombinationModPrime<T> {
    p: T,
    fact: Vec<T>,
    fact_inv: Vec<T>,
}

proof fn lemma_factorial_pos(n: nat)
    ensures
        factorial(n) >= 1,
    decreases n,
{
    if n > 0 {
        lemma_factorial_pos((n - 1) as nat);
        assert(n * factorial((n - 1) as nat) >= 1) by (nonlinear_arith)
            requires
                n >= 1,
                factorial((n - 1) as nat) >= 1,
        ;
    }
}

impl CombinationModPrime<u64> {
    pub closed spec fn wf(&self) -> bool {
        &&& 2 <= self.p <= MAX_PRIME
        &&& self.fact@.len() == self.fact_inv@.len()
        &&& self.fact@.len() >= 2
        &&& forall|i: int| 0 <= i < self.fact@.len() ==> #[trigger] self.fact@[i] == factorial(i as nat) % (self.p as nat)
        &&& forall|i: int| 0 <= i < self.fact@.len() ==> #[trigger] self.fact_inv@[i] < self.p
        &&& is_prime(self.p as int) ==> forall|i: int|
            0 <= i < self.fact@.len() && i < self.p ==> (#[trigger] self.fact_inv@[i] * factorial(i as nat))
                % (self.p as int) == 1
    }

    /// The largest `n` the tables cover.
    pub closed spec fn limit(&self) -> nat {
        (self.fact@.len() - 1) as nat
    }

    /// The modulus.
    pub closed spec fn modulus(&self) -> nat {
        self.p as nat
    }

    /// Tables up to `n` modulo `p`.
    pub fn new(n: usize, p: u64) -> (r: Self)
        requires
            2 <= p <= MAX_PRIME,
            n < MAX_PRIME,
        ensures
            r.wf(),
            r.limit() == if n >= 1 { n as nat } else { 1 },
            r.modulus() == p,
    {
        let m = if n >= 1 { n } else { 1 };
        let mut fact: Vec<u64> = Vec::new();
        let mut fact_inv: Vec<u64> = Vec::new();
        let mut iinv: Vec<u64> = Vec::new();
        fact.push(1);
        fact.push(1 % p);
        fact_inv.push(1);
        fact_inv.push(1);
        iinv.push(0);
        iinv.push(1);
        proof {
            assert(factorial(0) == 1);
            assert(factorial(1) == 1) by {
                assert(factorial(1) == 1 * factorial(0));
            }
            vstd::arithmetic::div_mod::lemma_small_mod(1, p as nat);
        }
        let mut i: usize = 2;
        while i <= m
            invariant
                2 <= p <= MAX_PRIME,
                m < MAX_PRIME,
                2 <= i <= m + 1,
                fact@.len() == i,
                fact_inv@.len() == i,
                iinv@.len() == i,
                forall|k: int| 0 <= k < i ==> #[trigger] fact@[k] == factorial(k as nat) % (p as nat),
                forall|k: int| 0 <= k < i ==> #[trigger] fact_inv@[k] < p,
                forall|k: int| 0 <= k < i ==> #[trigger] iinv@[k] < p,
                is_prime(p as int) ==> forall|k: int|
                    1 <= k < i && k < p ==> (#[trigger] iinv@[k] * k) % (p as int) == 1,
                is_prime(p as int) ==> forall|k: int|
                    0 <= k < i && k < p ==> (#[trigger] fact_inv@[k] * factorial(k as nat)) % (p as int) == 1,
            decreases m + 1 - i,
        {
            proof {
                assert(fact@[i - 1] * i <= MAX_PRIME * MAX_PRIME) by (nonlinear_arith)
                    requires
                        fact@[i - 1] < p <= MAX_PRIME,
                        i <= MAX_PRIME,
                ;
                vstd::arithmetic::div_mod::lemma_mod_bound(p as int, i as int);
                let pi = p as int;
                let ii = i as int;
                assert(iinv@[pi % ii] * (pi / ii) <= MAX_PRIME * MAX_PRIME) by (nonlinear_arith)
                    requires
                        iinv@[pi % ii] < pi <= MAX_PRIME,
                        pi / ii <= pi,
                ;
                assert(fact_inv@[i - 1] * (MAX_PRIME as int) <= MAX_PRIME * MAX_PRIME) by (nonlinear_arith)
                    requires
                        fact_inv@[i - 1] < p <= MAX_PRIME,
                ;
            }
            let iu = i as u64;
            let f = fact[i - 1] * iu % p;
            let v = p - iinv[(p % iu) as usize] * (p / iu) % p;
            proof {
                let vv = (v % p) as int;
                assert(fact_inv@[i - 1] * vv <= MAX_PRIME * MAX_PRIME) by (nonlinear_arith)
                    requires
                        fact_inv@[i - 1] < p <= MAX_PRIME,
                        0 <= vv < p,
                ;
            }
            let g = fact_inv[i - 1] * (v % p) % p;
            proof {
                let pi = p as int;
                let ii = i as int;
                lemma_step(pi, ii, fact@[i - 1] as int, iinv@[pi % ii] as int, fact_inv@[i - 1] as int);
                if is_prime(pi) && ii < pi {
                    assert((iinv@[pi % ii] * (pi % ii)) % pi == 1) by {
                        assert(pi % ii != 0);
                    }
                    assert((fact_inv@[i - 1] * factorial((i - 1) as nat)) % (p as int) == 1);
                }
            }
            fact.push(f);
            iinv.push(v % p);
            fact_inv.push(g);
            i = i + 1;
        }
        CombinationModPrime { p, fact, fact_inv }
    }

    /// `C(n, k)` modulo `p`: `r * k! * (n - k)!` agrees with `n!` modulo a
    /// prime `p > n`, which pins `r` down.
    pub fn combination(&self, n: usize, k: usize) -> (r: u64)
        requires
            self.wf(),
            k <= n <= self.limit(),
        ensures
            r < self.modulus(),
            is_prime(self.modulus() as int) && n < self.modulus() ==> (r * factorial(k as nat) * factorial(
                (n - k) as nat,
            )) % (self.modulus() as int) == (factorial(n as nat) as int) % (self.modulus() as int),
    {
        let p = self.p;
        proof {
            assert(self.fact_inv@[k as int] * self.fact_inv@[(n - k) as int] <= MAX_PRIME * MAX_PRIME)
                by (nonlinear_arith)
                requires
                    self.fact_inv@[k as int] < p <= MAX_PRIME,
                    self.fact_inv@[(n - k) as int] < p,
            ;
            let a = (self.fact_inv@[k as int] * self.fact_inv@[(n - k) as int]) % (p as int);
            vstd::arithmetic::div_mod::lemma_mod_bound(
                (self.fact_inv@[k as int] * self.fact_inv@[(n - k) as int]) as int,
                p as int,
            );
            assert(self.fact@[n as int] * a <= MAX_PRIME * MAX_PRIME) by (nonlinear_arith)
                requires
                    self.fact@[n as int] < p <= MAX_PRIME,
                    0 <= a < p,
            ;
            if is_prime(p as int) && n < p {
                lemma_combination(
                    p as int,
                    factorial(n as nat) as int,
                    factorial(k as nat) as int,
                    factorial((n - k) as nat) as int,
                    self.fact_inv@[k as int] as int,
                    self.fact_inv@[(n - k) as int] as int,
                );
            }
        }
        self.fact[n] * (self.fact_inv[k] * self.fact_inv[n - k] % p) % p
    }
}

/// The table recurrences: factorials, inverses by `inv(i) = -(p / i) inv(p mod i)`,
/// and inverse factorials.
proof fn lemma_step(p: int, i: int, f: int, ii: int, fi: int)
    requires
        2 <= i,
        2 <= p,
        0 <= ii < p,
        f == (factorial((i - 1) as nat) as int) % p,
    ensures
        (f * i) % p == (factorial(i as nat) as int) % p,
        is_prime(p) && i < p && (ii * (p % i)) % p == 1 ==> (((p - (ii * (p / i)) % p) % p) * i) % p == 1,
        (fi * factorial((i - 1) as nat)) % p == 1 && (((p - (ii * (p / i)) % p) % p) * i) % p == 1 ==> ((fi * ((p
            - (ii * (p / i)) % p) % p)) % p * factorial(i as nat)) % p == 1,
{
    let fact_prev = factorial((i - 1) as nat) as int;
    assert(factorial(i as nat) == i * fact_prev);
    lemma_mul_mod_noop_left(fact_prev, i, p);
    assert(fact_prev * i == i * fact_prev) by (nonlinear_arith);
    let q = p / i;
    let r = p % i;
    let v = (p - (ii * q) % p) % p;
    vstd::arithmetic::div_mod::lemma_fundamental_div_mod(p, i);
    if is_prime(p) && i < p && (ii * r) % p == 1 {
        let w = (ii * q) % p;
        vstd::arithmetic::div_mod::lemma_mod_bound(ii * q, p);
        vstd::arithmetic::div_mod::lemma_mod_add_multiples_vanish(-w, p);
        vstd::arithmetic::div_mod::lemma_sub_mod_noop(p, ii * q, p);
        vstd::arithmetic::div_mod::lemma_mod_self_0(p);
        assert(v == (p - ii * q) % p);
        vstd::arithmetic::div_mod::lemma_mul_mod_noop_left(p - ii * q, i, p);
        assert((p - ii * q) * i == p * (i - ii) + ii * r) by (nonlinear_arith)
            requires
                p == i * q + r,
        ;
        vstd::arithmetic::div_mod::lemma_mod_multiples_vanish(i - ii, ii * r, p);
    }
    if (fi * fact_prev) % p == 1 && (v * i) % p == 1 {
        lemma_mul_mod_noop_left(fi * v, factorial(i as nat) as int, p);
        assert((fi * v) * (i * fact_prev) == (fi * fact_prev) * (v * i)) by (nonlinear_arith);
        lemma_mul_mod_noop_left(fi * fact_prev, v * i, p);
        lemma_mul_mod_noop_right(fi * fact_prev, v * i, p);
        lemma_mul_mod_noop_left(1, v * i, p);
    }
}

/// `n! * inv(k!) * inv((n-k)!) * k! * (n-k)! == n!` modulo `p`.
proof fn lemma_combination(p: int, fn_: int, fk: int, fnk: int, ik: int, ink: int)
    requires
        p >= 2,
        (ik * fk) % p == 1,
        (ink * fnk) % p == 1,
    ensures
        (((fn_ % p) * ((ik * ink) % p)) % p * fk * fnk) % p == fn_ % p,
{
    let r = ((fn_ % p) * ((ik * ink) % p)) % p;
    vstd::arithmetic::div_mod::lemma_mul_mod_noop(fn_, ik * ink, p);
    assert(r == (fn_ * (ik * ink)) % p);
    assert(r * fk * fnk == r * (fk * fnk)) by (nonlinear_arith);
    lemma_mul_mod_noop_left(fn_ * (ik * ink), fk * fnk, p);
    assert((fn_ * (ik * ink)) * (fk * fnk) == (fn_ * (ik * fk)) * (ink * fnk)) by (nonlinear_arith);
    lemma_mul_mod_noop_right(fn_ * (ik * fk), ink * fnk, p);
    lemma_mul_mod_noop_right(fn_, ik * fk, p);
}

} // verus!
