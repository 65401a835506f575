//! Range affine maps over sums: values carry a sum and a count of elements,
//! operators are `v -> a * v + b` applied to each element. All arithmetic
//! wraps around modulo `2^64`.
use vstd::arithmetic::div_mod::{
    lemma_add_mod_noop, lemma_mod_bound, lemma_mul_mod_noop_left, lemma_mul_mod_noop_right,
    lemma_small_mod,
};
use vstd::arithmetic::mul::{lemma_mul_is_associative, lemma_mul_is_distributive_add};
use vstd::prelude::*;

use crate::lazy_segtree::{Action, Monoid};

verus! {

/// The modulus of `u64` arithmetic.
pub open spec fn modulus() -> int {
    0x1_0000_0000_0000_0000
}

/// `x` reduced into `u64`.
pub open spec fn wrap(x: int) -> u64 {
    (x % modulus()) as u64
}

proof fn lemma_wrap_add(x: u64, y: u64)
    ensures
        x.wrapping_add(y) == wrap(x + y),
{
    if x + y >= modulus() {
        vstd::arithmetic::div_mod::lemma_fundamental_div_mod_converse(x + y, modulus(), 1, x + y - modulus());
    } else {
        lemma_small_mod((x + y) as nat, modulus() as nat);
    }
}

proof fn lemma_wrap_id(x: u64)
    ensures
        wrap(x as int) == x,
{
    lemma_small_mod(x as nat, modulus() as nat);
}

/// Reducing an operand first does not change a reduced sum.
proof fn lemma_wrap_sum(x: int, y: int)
    ensures
        wrap(wrap(x) + y) == wrap(x + y),
        wrap(x + wrap(y)) == wrap(x + y),
{
    lemma_mod_bound(x, modulus());
    lemma_mod_bound(y, modulus());
    lemma_add_mod_noop(x, y, modulus());
    lemma_add_mod_noop(x % modulus(), y, modulus());
    lemma_add_mod_noop(x, y % modulus(), modulus());
    vstd::arithmetic::div_mod::lemma_mod_twice(x, modulus());
    vstd::arithmetic::div_mod::lemma_mod_twice(y, modulus());
}

/// Reducing an operand first does not change a reduced product.
proof fn lemma_wrap_prod(x: int, y: int)
    ensures
        wrap(wrap(x) * y) == wrap(x * y),
        wrap(x * wrap(y)) == wrap(x * y),
{
    lemma_mod_bound(x, modulus());
    lemma_mod_bound(y, modulus());
    lemma_mul_mod_noop_left(x, y, modulus());
    lemma_mul_mod_noop_right(x, y, modulus());
}

/// A sum of elements together with how many elements it covers.
#[derive(Clone, Copy, Debug)]
pub struct SumWithSize {
    pub a: u64,
    pub size: u64,
}

/// The map `v -> a * v + b`, applied to each element.
#[derive(Clone, Copy, Debug)]
pub struct Affine {
    pub a: u64,
    pub b: u64,
}

impl Monoid for SumWithSize {
    open spec fn op_spec(x: Self, y: Self) -> Self {
        SumWithSize { a: wrap(x.a + y.a), size: wrap(x.size + y.size) }
    }

    open spec fn e_spec() -> Self {
        SumWithSize { a: 0, size: 0 }
    }

    proof fn lemma_assoc(x: Self, y: Self, z: Self) {
        lemma_wrap_sum(x.a + y.a, z.a as int);
        lemma_wrap_sum(x.a as int, y.a + z.a);
        lemma_wrap_sum(x.size + y.size, z.size as int);
        lemma_wrap_sum(x.size as int, y.size + z.size);
    }

    proof fn lemma_e(x: Self) {
        lemma_wrap_id(x.a);
        lemma_wrap_id(x.size);
    }

    fn op(&self, other: &Self) -> (r: Self) {
        proof {
            lemma_wrap_add(self.a, other.a);
            lemma_wrap_add(self.size, other.size);
        }
        SumWithSize { a: self.a.wrapping_add(other.a), size: self.size.wrapping_add(other.size) }
    }

    fn e() -> (r: Self) {
        SumWithSize { a: 0, size: 0 }
    }
}

impl Monoid for Affine {
    /// `x` after `y`.
    open spec fn op_spec(x: Self, y: Self) -> Self {
        Affine { a: wrap(y.a * x.a), b: wrap(y.b * x.a + x.b) }
    }

    open spec fn e_spec() -> Self {
        Affine { a: 1, b: 0 }
    }

    proof fn lemma_assoc(x: Self, y: Self, z: Self) {
        let (xa, xb, ya, yb, za, zb) = (x.a as int, x.b as int, y.a as int, y.b as int, z.a as int, z.b as int);
        lemma_wrap_prod(za, ya * xa);
        lemma_wrap_prod(za * ya, xa);
        lemma_mul_is_associative(za, ya, xa);
        lemma_wrap_prod(zb, ya * xa);
        lemma_wrap_sum(zb * wrap(ya * xa), yb * xa + xb);
        lemma_wrap_sum(zb * (ya * xa), yb * xa + xb);
        lemma_wrap_prod(zb * ya + yb, xa);
        lemma_wrap_sum(wrap(zb * ya + yb) * xa, xb);
        lemma_wrap_sum((zb * ya + yb) * xa, xb);
        lemma_wrap_sum(wrap((zb * ya + yb) * xa) as int, xb);
        lemma_mul_is_distributive_add(xa, zb * ya, yb);
        lemma_mul_is_associative(zb, ya, xa);
        assert((zb * ya + yb) * xa == zb * (ya * xa) + yb * xa) by (nonlinear_arith);
    }

    proof fn lemma_e(x: Self) {
        lemma_wrap_id(x.a);
        lemma_wrap_id(x.b);
    }

    fn op(&self, other: &Self) -> (r: Self) {
        proof {
            lemma_wrap_add(other.b.wrapping_mul(self.a), self.b);
            lemma_wrap_sum(other.b * self.a, self.b as int);
        }
        Affine { a: other.a.wrapping_mul(self.a), b: other.b.wrapping_mul(self.a).wrapping_add(self.b) }
    }

    fn e() -> (r: Self) {
        Affine { a: 1, b: 0 }
    }
}

impl Action<SumWithSize> for Affine {
    open spec fn act_spec(x: Self, s: SumWithSize) -> SumWithSize {
        SumWithSize { a: wrap(s.a * x.a + s.size * x.b), size: s.size }
    }

    proof fn lemma_act_e(s: SumWithSize) {
        lemma_wrap_id(s.a);
    }

    proof fn lemma_act_compose(x: Self, y: Self, s: SumWithSize) {
        let (xa, xb, ya, yb, sa, sz) = (x.a as int, x.b as int, y.a as int, y.b as int, s.a as int, s.size as int);
        lemma_wrap_prod(sa, ya * xa);
        lemma_wrap_prod(sz, yb * xa + xb);
        lemma_wrap_sum(sa * wrap(ya * xa), sz * wrap(yb * xa + xb));
        lemma_wrap_sum(sa * (ya * xa), sz * wrap(yb * xa + xb));
        lemma_wrap_sum(sa * (ya * xa), sz * (yb * xa + xb));
        lemma_wrap_prod(sa * ya + sz * yb, xa);
        lemma_wrap_sum(wrap(sa * ya + sz * yb) * xa, sz * xb);
        lemma_wrap_sum((sa * ya + sz * yb) * xa, sz * xb);
        lemma_wrap_sum(wrap((sa * ya + sz * yb) * xa) as int, sz * xb);
        assert(sa * (ya * xa) + sz * (yb * xa + xb) == (sa * ya + sz * yb) * xa + sz * xb)
            by (nonlinear_arith);
    }

    proof fn lemma_act_op(x: Self, s: SumWithSize, t: SumWithSize) {
        let (xa, xb) = (x.a as int, x.b as int);
        let (sa, sz, ta, tz) = (s.a as int, s.size as int, t.a as int, t.size as int);
        lemma_wrap_prod(sa + ta, xa);
        lemma_wrap_prod(sz + tz, xb);
        lemma_wrap_sum(wrap(sa + ta) * xa, wrap(sz + tz) * xb);
        lemma_wrap_sum((sa + ta) * xa, wrap(sz + tz) * xb);
        lemma_wrap_sum((sa + ta) * xa, (sz + tz) * xb);
        lemma_wrap_sum(sa * xa + sz * xb, ta * xa + tz * xb);
        lemma_wrap_sum(wrap(sa * xa + sz * xb) as int, ta * xa + tz * xb);
        lemma_wrap_sum(wrap(sa * xa + sz * xb) as int, wrap(ta * xa + tz * xb) as int);
        assert((sa + ta) * xa + (sz + tz) * xb == (sa * xa + sz * xb) + (ta * xa + tz * xb))
            by (nonlinear_arith);
    }

    fn act(&self, s: &SumWithSize) -> (r: SumWithSize) {
        proof {
            lemma_wrap_add(s.a.wrapping_mul(self.a), s.size.wrapping_mul(self.b));
            lemma_wrap_sum(s.a * self.a, wrap(s.size * self.b) as int);
            lemma_wrap_sum(s.a * self.a, s.size * self.b);
        }
        SumWithSize {
            a: s.a.wrapping_mul(self.a).wrapping_add(s.size.wrapping_mul(self.b)),
            size: s.size,
        }
    }
}

} // verus!
