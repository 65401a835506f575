//! Integers modulo a fixed modulus.
use core::marker::PhantomData;
use vstd::arithmetic::power::pow;
use vstd::prelude::*;

use crate::algebra::PartialMulRecip;
use crate::gcd::{ext_gcd, ext_gcd_spec, gcd_spec};

verus! {

/// Largest modulus supported: products of two residues must fit an `i64`.
pub const MAX_MODULUS: i64 = 3_037_000_500;

/// A modulus, fixed per type.
pub trait Modulo: Copy {
    spec fn modulo_spec() -> int;

    proof fn lemma_modulo_range()
        ensures
            2 <= Self::modulo_spec() <= MAX_MODULUS,
    ;

    /// The modulus.
    fn modulo() -> (r: i64)
        ensures
            r == Self::modulo_spec(),
    ;
}

/// The prime `10^9 + 7`.
#[derive(Clone, Copy, PartialEq, Eq, Debug)]
pub struct Mod1000000007;

impl Modulo for Mod1000000007 {
    open spec fn modulo_spec() -> int {
        1_000_000_007
    }

    proof fn lemma_modulo_range() {
    }

    fn modulo() -> (r: i64) {
        1_000_000_007
    }
}

/// The prime `998244353`.
#[derive(Clone, Copy, PartialEq, Eq, Debug)]
pub struct Mod998244353;

impl Modulo for Mod998244353 {
    open spec fn modulo_spec() -> int {
        998_244_353
    }

    proof fn lemma_modulo_range() {
    }

    fn modulo() -> (r: i64) {
        998_244_353
    }
}

/// A residue modulo `M::modulo()`, kept in `[0, m)`.
#[derive(Copy, PartialEq, Eq, Debug)]
pub struct FiniteField<M: Modulo>(i64, PhantomData<M>);

impl<M: Modulo> Clone for FiniteField<M> {
    fn clone(&self) -> (r: Self)
        ensures
            r == *self,
    {
        *self
    }
}

impl<M: Modulo> FiniteField<M> {
    #[verifier::type_invariant]
    spec fn in_range(self) -> bool {
        0 <= self.0 < M::modulo_spec()
    }

    /// The representative in `[0, m)`.
    pub closed spec fn view(self) -> int {
        self.0 as int
    }

    /// The residue of `x`, normalised into `[0, m)`.
    pub fn new(x: i64) -> (r: Self)
        ensures
            r@ == x as int % M::modulo_spec(),
    {
        let m = M::modulo();
        proof {
            M::lemma_modulo_range();
        }
        let v = match x.checked_rem_euclid(m) {
            Some(v) => v,
            None => 0,
        };
        FiniteField(v, PhantomData)
    }

    /// The representative in `[0, m)`.
    pub fn val(self) -> (r: i64)
        ensures
            r == self@,
            0 <= r < M::modulo_spec(),
    {
        proof {
            use_type_invariant(self);
        }
        self.0
    }

    /// `self^exp`, by binary exponentiation.
    pub fn pow(self, exp: u32) -> (r: Self)
        ensures
            r@ == pow(self@, exp as nat) % M::modulo_spec(),
    {
        proof {
            use_type_invariant(self);
            M::lemma_modulo_range();
        }
        let m = M::modulo();
        if exp == 0 {
            proof {
                vstd::arithmetic::power::lemma_pow0(self@);
            }
            return Self::new(1);
        }
        let mut x = self.0;
        let mut res: i64 = 1;
        let mut e = exp;
        while e > 0
            invariant
                m == M::modulo_spec(),
                2 <= m <= MAX_MODULUS,
                0 <= x < m,
                0 <= res < m,
                (res * pow(x as int, e as nat)) % (m as int) == pow(self@, exp as nat) % (m as int),
            decreases e,
        {
            proof {
                lemma_pow_step(x as int, e as nat, res as int, m as int);
                assert((m - 1) * (m - 1) <= i64::MAX) by (nonlinear_arith)
                    requires
                        2 <= m <= MAX_MODULUS,
                ;
                assert(x * x <= (m - 1) * (m - 1)) by (nonlinear_arith)
                    requires
                        0 <= x < m,
                ;
                assert(res * x <= (m - 1) * (m - 1)) by (nonlinear_arith)
                    requires
                        0 <= x < m,
                        0 <= res < m,
                ;
            }
            if e % 2 == 1 {
                res = res * x % m;
            }
            x = x * x % m;
            e = e / 2;
        }
        proof {
            vstd::arithmetic::power::lemma_pow0(x as int);
            vstd::arithmetic::div_mod::lemma_small_mod(res as nat, m as nat);
        }
        Self::new(res)
    }
}

impl<M: Modulo> core::ops::Add for FiniteField<M> {
    type Output = Self;

    fn add(self, rhs: Self) -> (r: Self) {
        proof {
            use_type_invariant(self);
            use_type_invariant(rhs);
            M::lemma_modulo_range();
        }
        let m = M::modulo();
        let v = match (self.0 + rhs.0).checked_rem_euclid(m) {
            Some(v) => v,
            None => 0,
        };
        FiniteField(v, PhantomData)
    }
}

impl<M: Modulo> vstd::std_specs::ops::AddSpecImpl for FiniteField<M> {
    open spec fn obeys_add_spec() -> bool {
        true
    }

    open spec fn add_req(self, rhs: Self) -> bool {
        true
    }

    closed spec fn add_spec(self, rhs: Self) -> Self {
        FiniteField(((self.0 + rhs.0) % M::modulo_spec()) as i64, PhantomData)
    }
}

impl<M: Modulo> core::ops::Sub for FiniteField<M> {
    type Output = Self;

    fn sub(self, rhs: Self) -> (r: Self) {
        proof {
            use_type_invariant(self);
            use_type_invariant(rhs);
            M::lemma_modulo_range();
        }
        let m = M::modulo();
        let v = match (self.0 - rhs.0).checked_rem_euclid(m) {
            Some(v) => v,
            None => 0,
        };
        FiniteField(v, PhantomData)
    }
}

impl<M: Modulo> vstd::std_specs::ops::SubSpecImpl for FiniteField<M> {
    open spec fn obeys_sub_spec() -> bool {
        true
    }

    open spec fn sub_req(self, rhs: Self) -> bool {
        true
    }

    closed spec fn sub_spec(self, rhs: Self) -> Self {
        FiniteField(((self.0 - rhs.0) % M::modulo_spec()) as i64, PhantomData)
    }
}

impl<M: Modulo> core::ops::Mul for FiniteField<M> {
    type Output = Self;

    fn mul(self, rhs: Self) -> (r: Self) {
        proof {
            use_type_invariant(self);
            use_type_invariant(rhs);
            M::lemma_modulo_range();
        }
        let m = M::modulo();
        proof {
            let mm = m as int;
            assert(self.0 * rhs.0 <= (mm - 1) * (mm - 1) <= i64::MAX) by (nonlinear_arith)
                requires
                    2 <= mm <= MAX_MODULUS,
                    0 <= self.0 < mm,
                    0 <= rhs.0 < mm,
            ;
            assert(self.0 * rhs.0 >= 0) by (nonlinear_arith)
                requires
                    0 <= self.0,
                    0 <= rhs.0,
            ;
        }
        let v = match (self.0 * rhs.0).checked_rem_euclid(m) {
            Some(v) => v,
            None => 0,
        };
        FiniteField(v, PhantomData)
    }
}

impl<M: Modulo> vstd::std_specs::ops::MulSpecImpl for FiniteField<M> {
    open spec fn obeys_mul_spec() -> bool {
        true
    }

    open spec fn mul_req(self, rhs: Self) -> bool {
        true
    }

    closed spec fn mul_spec(self, rhs: Self) -> Self {
        FiniteField(((self.0 * rhs.0) % M::modulo_spec()) as i64, PhantomData)
    }
}

/// The inverse of `v` modulo `m` that the extended Euclidean algorithm gives.
pub open spec fn inv_spec(v: int, m: int) -> int {
    ext_gcd_spec(v, m).1 % m
}

/// Where `v` is coprime to `m`, `inv_spec(v, m)` is its inverse.
pub proof fn lemma_inv_spec(v: int, m: int)
    requires
        0 <= v,
        2 <= m,
        gcd_spec(v as nat, m as nat) == 1,
    ensures
        (inv_spec(v, m) * v) % m == 1,
{
    let (d, x, y) = ext_gcd_spec(v, m);
    lemma_ext_gcd_spec(v, m);
    vstd::arithmetic::div_mod::lemma_mul_mod_noop_left(x, v, m);
    assert(x * v == m * (-y) + 1) by (nonlinear_arith)
        requires
            v * x + m * y == 1,
    ;
    vstd::arithmetic::div_mod::lemma_mod_multiples_vanish(-y, 1, m);
    vstd::arithmetic::div_mod::lemma_small_mod(1, m as nat);
}

/// Bezout's identity for the extended Euclidean algorithm.
pub proof fn lemma_ext_gcd_spec(a: int, b: int)
    requires
        a >= 0,
        b >= 0,
    ensures
        a * ext_gcd_spec(a, b).1 + b * ext_gcd_spec(a, b).2 == ext_gcd_spec(a, b).0,
        ext_gcd_spec(a, b).0 == gcd_spec(a as nat, b as nat),
    decreases b,
{
    if b > 0 {
        lemma_ext_gcd_spec(b, a % b);
        let (d, s, t) = ext_gcd_spec(b, a % b);
        let q = a / b;
        let r = a % b;
        vstd::arithmetic::div_mod::lemma_fundamental_div_mod(a, b);
        assert(a * t + b * (s - q * t) == b * s + r * t) by (nonlinear_arith)
            requires
                a == b * q + r,
        ;
    }
}

impl<M: Modulo> PartialMulRecip for FiniteField<M> {
    /// No inverse of zero; otherwise the extended Euclidean answer, which is
    /// the inverse wherever one exists (see `lemma_inv_spec`).
    closed spec fn recip_ok(x: Self, r: Option<Self>) -> bool {
        if x.0 == 0 {
            r is None
        } else {
            r == Some(FiniteField::<M>(inv_spec(x.0 as int, M::modulo_spec()) as i64, PhantomData))
        }
    }

    fn partial_mul_recip(self) -> (r: Option<Self>) {
        proof {
            use_type_invariant(self);
            M::lemma_modulo_range();
        }
        if self.0 == 0 {
            None
        } else {
            let v = self.val();
            let m = M::modulo();
            let (_, x, _) = ext_gcd(v, m);
            let inv = match x.checked_rem_euclid(m) {
                Some(inv) => inv,
                None => 0,
            };
            Some(FiniteField(inv, PhantomData))
        }
    }
}

impl<M: Modulo> core::ops::Div for FiniteField<M> {
    type Output = Self;

    fn div(self, rhs: Self) -> (r: Self) {
        proof {
            M::lemma_modulo_range();
            vstd::arithmetic::div_mod::lemma_mod_bound(
                ext_gcd_spec(rhs.0 as int, M::modulo_spec()).1,
                M::modulo_spec(),
            );
        }
        let inv = rhs.partial_mul_recip().unwrap();
        self * inv
    }
}

impl<M: Modulo> vstd::std_specs::ops::DivSpecImpl for FiniteField<M> {
    open spec fn obeys_div_spec() -> bool {
        true
    }

    /// Division by zero is refused.
    closed spec fn div_req(self, rhs: Self) -> bool {
        rhs.0 != 0
    }

    closed spec fn div_spec(self, rhs: Self) -> Self {
        FiniteField(
            ((self.0 * inv_spec(rhs.0 as int, M::modulo_spec())) % M::modulo_spec()) as i64,
            PhantomData,
        )
    }
}

impl<M: Modulo> core::ops::AddAssign for FiniteField<M> {
    fn add_assign(&mut self, rhs: Self) {
        *self = *self + rhs;
    }
}

impl<M: Modulo> core::ops::SubAssign for FiniteField<M> {
    fn sub_assign(&mut self, rhs: Self) {
        *self = *self - rhs;
    }
}

impl<M: Modulo> core::ops::MulAssign for FiniteField<M> {
    fn mul_assign(&mut self, rhs: Self) {
        *self = *self * rhs;
    }
}

/// One step of binary exponentiation keeps `res * x^e` modulo `m`.
proof fn lemma_pow_step(x: int, e: nat, res: int, m: int)
    requires
        m > 1,
        e > 0,
    ensures
        ((if e % 2 == 1 { (res * x) % m } else { res }) * pow((x * x) % m, e / 2)) % m == (res * pow(
            x,
            e,
        )) % m,
{
    let h = e / 2;
    let a = pow((x * x) % m, h);
    let b = pow(x * x, h);
    vstd::arithmetic::power::lemma_pow_mod_noop(x * x, h, m);
    vstd::arithmetic::power::lemma_square_is_pow2(x);
    vstd::arithmetic::power::lemma_pow_multiplies(x, 2, h);
    assert(b == pow(x, 2 * h));
    if e % 2 == 1 {
        let c = (res * x) % m;
        vstd::arithmetic::div_mod::lemma_mul_mod_noop_right(c, a, m);
        vstd::arithmetic::div_mod::lemma_mul_mod_noop_right(c, b, m);
        vstd::arithmetic::div_mod::lemma_mul_mod_noop_left(res * x, b, m);
        vstd::arithmetic::power::lemma_pow_adds(x, 2 * h, 1);
        vstd::arithmetic::power::lemma_pow1(x);
        assert(e == 2 * h + 1);
        assert((res * x) * b == res * (b * x)) by (nonlinear_arith);
        assert(pow(x, e) == b * x);
    } else {
        vstd::arithmetic::div_mod::lemma_mul_mod_noop_right(res, a, m);
        vstd::arithmetic::div_mod::lemma_mul_mod_noop_right(res, b, m);
        assert(e == 2 * h);
    }
}

} // verus!
