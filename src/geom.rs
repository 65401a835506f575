//! Points and lines in the integer plane.
use vstd::prelude::*;

use crate::gcd::{abs, gcd_spec, Gcd};

verus! {

/// A point `(x, y)`.
#[derive(Debug, Copy, Clone, PartialEq)]
pub struct Point<T> {
    pub x: T,
    pub y: T,
}

/// The line `a x + b y = c`.
#[derive(Debug, Copy, Clone, PartialEq)]
pub struct Line<T> {
    pub a: T,
    pub b: T,
    pub c: T,
}

/// Bound on coordinates under which every line computation fits an `i64`.
pub const COORD_MAX: i64 = 0x4000_0000;

impl Point<i64> {
    pub fn new(x: i64, y: i64) -> (r: Self)
        ensures
            r.x == x && r.y == y,
    {
        Point { x, y }
    }

    /// The line through `self` and `other`: `a = y1 - y0`, `b = x0 - x1`,
    /// `c = x0 y1 - x1 y0`, which both points satisfy.
    pub fn line(&self, other: &Self) -> (r: Line<i64>)
        requires
            -COORD_MAX <= self.x <= COORD_MAX,
            -COORD_MAX <= self.y <= COORD_MAX,
            -COORD_MAX <= other.x <= COORD_MAX,
            -COORD_MAX <= other.y <= COORD_MAX,
        ensures
            r.a == other.y - self.y,
            r.b == self.x - other.x,
            r.c == self.x * other.y - other.x * self.y,
            r.a * self.x + r.b * self.y == r.c,
            r.a * other.x + r.b * other.y == r.c,
    {
        let (x0, y0) = (self.x, self.y);
        let (x1, y1) = (other.x, other.y);
        proof {
            assert(-COORD_MAX * COORD_MAX <= x0 * y1 <= COORD_MAX * COORD_MAX) by (nonlinear_arith)
                requires
                    -COORD_MAX <= x0 <= COORD_MAX,
                    -COORD_MAX <= y1 <= COORD_MAX,
            ;
            assert(-COORD_MAX * COORD_MAX <= x1 * y0 <= COORD_MAX * COORD_MAX) by (nonlinear_arith)
                requires
                    -COORD_MAX <= x1 <= COORD_MAX,
                    -COORD_MAX <= y0 <= COORD_MAX,
            ;
            assert((y1 - y0) * x0 + (x0 - x1) * y0 == x0 * y1 - x1 * y0) by (nonlinear_arith);
            assert((y1 - y0) * x1 + (x0 - x1) * y1 == x0 * y1 - x1 * y0) by (nonlinear_arith);
        }
        let a = y1 - y0;
        let b = -x1 + x0;
        let c = x0 * y1 - x1 * y0;
        Line { a, b, c }
    }
}

impl Line<i64> {
    /// The same line with `gcd(a, b)` divided out and `(a, b)` made
    /// lexicographically positive.
    pub fn normalize(&self) -> (r: Self)
        requires
            self.a != i64::MIN && self.b != i64::MIN && self.c != i64::MIN,
            self.a != 0 || self.b != 0,
        ensures
            r.a * gcd_spec(abs(self.a as int), abs(self.b as int)) == if self.a < 0 || (self.a == 0 && self.b < 0) {
                -self.a
            } else {
                self.a as int
            },
            r.b * gcd_spec(abs(self.a as int), abs(self.b as int)) == if self.a < 0 || (self.a == 0 && self.b < 0) {
                -self.b
            } else {
                self.b as int
            },
            r.a > 0 || (r.a == 0 && r.b > 0),
    {
        let mut a = self.a;
        let mut b = self.b;
        let mut c = self.c;
        if a < 0 || (a == 0 && b < 0) {
            a = -a;
            b = -b;
            c = -c;
        }
        let g = a.gcd(b);
        proof {
            crate::gcd::lemma_gcd_divides(abs(a as int), abs(b as int));
            crate::gcd::lemma_gcd_le(abs(a as int), abs(b as int));
            let gg = gcd_spec(abs(a as int), abs(b as int));
            assert(g == gg);
            vstd::arithmetic::div_mod::lemma_fundamental_div_mod(a as int, g as int);
            vstd::arithmetic::div_mod::lemma_fundamental_div_mod(abs(b as int) as int, g as int);
        }
        let ra = a / g;
        let rb = b / g;
        proof {
            let gi = g as int;
            let ai = a as int;
            let bi = b as int;
            assert(ra * gi == ai) by (nonlinear_arith)
                requires
                    ai == gi * (ai / gi) + ai % gi,
                    ai % gi == 0,
                    ra == ai / gi,
            ;
            if b >= 0 {
                assert(rb * gi == bi) by (nonlinear_arith)
                    requires
                        bi == gi * (bi / gi) + bi % gi,
                        bi % gi == 0,
                        rb == bi / gi,
                ;
            } else {
                let nb = -bi;
                assert(rb == -(nb / gi));
                assert(rb * gi == bi) by (nonlinear_arith)
                    requires
                        nb == gi * (nb / gi) + nb % gi,
                        nb % gi == 0,
                        rb == -(nb / gi),
                        bi == -nb,
                ;
            }
            if a > 0 {
                assert(ra > 0) by (nonlinear_arith)
                    requires
                        ra * gi == ai,
                        ai > 0,
                        gi > 0,
                ;
            } else {
                assert(rb > 0) by (nonlinear_arith)
                    requires
                        rb * gi == bi,
                        bi > 0,
                        gi > 0,
                ;
            }
        }
        Line { a: ra, b: rb, c: c / g }
    }
}

} // verus!
