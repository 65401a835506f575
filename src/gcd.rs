//! Greatest common divisors.
use vstd::prelude::*;

verus! {

/// The greatest common divisor, by Euclid's algorithm; `gcd(a, 0) == a`.
pub open spec fn gcd_spec(a: nat, b: nat) -> nat
    decreases b,
{
    if b == 0 {
        a
    } else {
        gcd_spec(b, a % b)
    }
}

/// Absolute value.
pub open spec fn abs(x: int) -> nat {
    if x < 0 {
        (-x) as nat
    } else {
        x as nat
    }
}

/// Greatest common divisor of two integers of the same type.
pub trait Gcd: Sized {
    /// Inputs on which the result is representable.
    spec fn gcd_req(x: Self, y: Self) -> bool;

    /// The result.
    spec fn gcd_of(x: Self, y: Self) -> Self;

    fn gcd(self, rhs: Self) -> (r: Self)
        requires
            Self::gcd_req(self, rhs),
        ensures
            r == Self::gcd_of(self, rhs),
    ;
}

/// Euclid's algorithm on machine words.
fn gcd_u64(a: u64, b: u64) -> (r: u64)
    ensures
        r == gcd_spec(a as nat, b as nat),
    decreases b,
{
    if b == 0 {
        a
    } else {
        gcd_u64(b, a % b)
    }
}

impl Gcd for u64 {
    open spec fn gcd_req(x: u64, y: u64) -> bool {
        true
    }

    open spec fn gcd_of(x: u64, y: u64) -> u64 {
        gcd_spec(x as nat, y as nat) as u64
    }

    fn gcd(self, rhs: u64) -> (r: u64) {
        gcd_u64(self, rhs)
    }
}

impl Gcd for usize {
    open spec fn gcd_req(x: usize, y: usize) -> bool {
        true
    }

    open spec fn gcd_of(x: usize, y: usize) -> usize {
        gcd_spec(x as nat, y as nat) as usize
    }

    fn gcd(self, rhs: usize) -> (r: usize)
        decreases rhs,
    {
        if rhs == 0 {
            self
        } else {
            rhs.gcd(self % rhs)
        }
    }
}

impl Gcd for i64 {
    /// The result is `|x|` when `y == 0`, which must fit.
    open spec fn gcd_req(x: i64, y: i64) -> bool {
        x != i64::MIN && y != i64::MIN
    }

    open spec fn gcd_of(x: i64, y: i64) -> i64 {
        gcd_spec(abs(x as int), abs(y as int)) as i64
    }

    fn gcd(self, rhs: i64) -> (r: i64) {
        let a: u64 = if self < 0 { (-self) as u64 } else { self as u64 };
        let b: u64 = if rhs < 0 { (-rhs) as u64 } else { rhs as u64 };
        let g = gcd_u64(a, b);
        proof {
            lemma_gcd_le(a as nat, b as nat);
        }
        g as i64
    }
}

impl Gcd for i32 {
    /// The result is `|x|` when `y == 0`, which must fit.
    open spec fn gcd_req(x: i32, y: i32) -> bool {
        x != i32::MIN && y != i32::MIN
    }

    open spec fn gcd_of(x: i32, y: i32) -> i32 {
        gcd_spec(abs(x as int), abs(y as int)) as i32
    }

    fn gcd(self, rhs: i32) -> (r: i32) {
        let a: u64 = if self < 0 { (-self) as u64 } else { self as u64 };
        let b: u64 = if rhs < 0 { (-rhs) as u64 } else { rhs as u64 };
        let g = gcd_u64(a, b);
        proof {
            lemma_gcd_le(a as nat, b as nat);
        }
        g as i32
    }
}

/// The gcd is at most the larger argument.
pub proof fn lemma_gcd_le(a: nat, b: nat)
    ensures
        gcd_spec(a, b) <= if a >= b { a } else { b },
    decreases b,
{
    if b > 0 {
        lemma_gcd_le(b, a % b);
    }
}

/// The gcd divides both arguments, and is positive unless both are zero.
pub proof fn lemma_gcd_divides(a: nat, b: nat)
    ensures
        (a > 0 || b > 0) ==> gcd_spec(a, b) > 0 && a % gcd_spec(a, b) == 0 && b % gcd_spec(a, b) == 0,
    decreases b,
{
    if b == 0 {
        if a > 0 {
            vstd::arithmetic::div_mod::lemma_mod_self_0(a as int);
            vstd::arithmetic::div_mod::lemma_small_mod(0, a);
        }
    } else {
        lemma_gcd_divides(b, a % b);
        let g = gcd_spec(a, b);
        let q = a / b;
        let r = a % b;
        vstd::arithmetic::div_mod::lemma_fundamental_div_mod(a as int, b as int);
        vstd::arithmetic::div_mod::lemma_fundamental_div_mod(b as int, g as int);
        vstd::arithmetic::div_mod::lemma_fundamental_div_mod(r as int, g as int);
        let kb = b / g;
        let kr = r / g;
        assert(a == g * (q * kb + kr)) by (nonlinear_arith)
            requires
                a == b * q + r,
                b == g * kb,
                r == g * kr,
        ;
        vstd::arithmetic::div_mod::lemma_mod_multiples_basic((q * kb + kr) as int, g as int);
        assert(g * (q * kb + kr) == (q * kb + kr) * g) by (nonlinear_arith);
    }
}

/// The triple computed by the extended Euclidean algorithm.
pub open spec fn ext_gcd_spec(a: int, b: int) -> (int, int, int)
    decreases b,
{
    if b <= 0 || a < 0 {
        (a, 1, 0)
    } else {
        let (d, s, t) = ext_gcd_spec(b, a % b);
        (d, t, s - (a / b) * t)
    }
}

/// Extended Euclidean algorithm: `(d, x, y)` with `a x + b y == d == gcd(a, b)`,
/// for non-negative `a` and `b`.
pub fn ext_gcd(a: i64, b: i64) -> (r: (i64, i64, i64))
    requires
        a >= 0,
        b >= 0,
    ensures
        (r.0 as int, r.1 as int, r.2 as int) == ext_gcd_spec(a as int, b as int),
        r.0 == gcd_spec(a as nat, b as nat),
        a * r.1 + b * r.2 == r.0,
        b == 0 ==> r.1 == 1 && r.2 == 0,
        b > 0 ==> abs(r.1 as int) <= b && abs(r.2 as int) <= if a >= 1 { a as int } else { 1 },
    decreases b,
{
    if b == 0 {
        return (a, 1, 0);
    }
    let (d, s, t) = ext_gcd(b, a % b);
    let q = a / b;
    proof {
        let r = a % b;
        assert(a == q * b + r) by {
            vstd::arithmetic::div_mod::lemma_fundamental_div_mod(a as int, b as int);
        }
        assert(abs(q * t) <= q * b) by (nonlinear_arith)
            requires
                q >= 0,
                abs(t as int) <= b,
        ;
        if r > 0 {
            assert(q * b <= a - r);
        }
        assert(a * t + b * (s - q * t) == b * s + r * t) by (nonlinear_arith)
            requires
                a == q * b + r,
        ;
    }
    (d, t, s - q * t)
}

} // verus!
