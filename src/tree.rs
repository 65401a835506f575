//! Arithmetic of the implicit binary tree stored in an array: node `j` has
//! children `2j` and `2j + 1`, and at height `k` it covers the leaf positions
//! `[j * 2^k, (j + 1) * 2^k)`.
use vstd::arithmetic::power2::{
    lemma_pow2_adds, lemma_pow2_pos, lemma_pow2_strictly_increases, lemma_pow2_unfold, pow2,
};
use vstd::prelude::*;

verus! {

/// Whether `q` is `x` or one of its ancestors.
pub open spec fn anc_or_self(q: int, x: int) -> bool
    decreases x,
{
    if x <= 0 {
        false
    } else if q == x {
        true
    } else {
        anc_or_self(q, x / 2)
    }
}

/// Moving one level up from an even cursor keeps its leaf position.
pub proof fn lemma_halve(x: int, k: nat)
    requires
        x % 2 == 0,
    ensures
        (x / 2) * pow2(k + 1) == x * pow2(k),
{
    lemma_pow2_unfold(k + 1);
    let h = x / 2;
    let p = pow2(k) as int;
    assert(x == 2 * h);
    assert((2 * h) * p == h * (2 * p)) by (nonlinear_arith);
}

/// The spans of the two children of `j` at height `k` split the span of `j`.
pub proof fn lemma_children_span(j: int, k: nat)
    requires
        k >= 1,
    ensures
        (2 * j) * pow2((k - 1) as nat) == j * pow2(k),
        (2 * j + 1) * pow2((k - 1) as nat) == j * pow2(k) + pow2((k - 1) as nat),
        (2 * j + 2) * pow2((k - 1) as nat) == (j + 1) * pow2(k),
        pow2(k) == 2 * pow2((k - 1) as nat),
        (j + 1) * pow2(k) == j * pow2(k) + pow2(k),
{
    lemma_pow2_unfold(k);
    let p = pow2((k - 1) as nat) as int;
    assert((2 * j) * p == j * (2 * p)) by (nonlinear_arith);
    assert((2 * j + 1) * p == j * (2 * p) + p) by (nonlinear_arith);
    assert((2 * j + 2) * p == (j + 1) * (2 * p)) by (nonlinear_arith);
    assert((j + 1) * (2 * p) == j * (2 * p) + 2 * p) by (nonlinear_arith);
}

/// A node whose span starts inside `[size, 2 size)` at height `k >= 1` is internal.
pub proof fn lemma_internal(j: int, k: nat, size: int)
    requires
        k >= 1,
        j >= 0,
        j * pow2(k) < 2 * size,
    ensures
        j < size,
{
    lemma_pow2_unfold(k);
    lemma_pow2_pos((k - 1) as nat);
    let p = pow2((k - 1) as nat) as int;
    assert(j * (2 * p) >= 2 * j) by (nonlinear_arith)
        requires
            p >= 1,
            j >= 0,
    ;
}

/// Multiplying by a power of two is monotonic.
pub proof fn lemma_mul_pow2_le(a: int, b: int, k: nat)
    requires
        a <= b,
    ensures
        a * pow2(k) <= b * pow2(k),
{
    lemma_pow2_pos(k);
    let p = pow2(k) as int;
    assert(a * p <= b * p) by (nonlinear_arith)
        requires
            a <= b,
            p > 0,
    ;
}

/// A positive multiple of a positive number is at least that number.
pub proof fn lemma_pos_mul(a: int, k: nat)
    requires
        a * pow2(k) >= 1,
    ensures
        a >= 1,
{
    lemma_pow2_pos(k);
    let p = pow2(k) as int;
    if a <= 0 {
        assert(a * p <= 0) by (nonlinear_arith)
            requires
                a <= 0,
                p > 0,
        ;
    }
}

/// Blocks of width `2^k` tile `[0, 2^e)`: a block that starts inside ends inside.
pub proof fn lemma_next_block(a: int, k: nat, e: nat)
    requires
        k <= e,
        a * pow2(k) < pow2(e),
    ensures
        (a + 1) * pow2(k) <= pow2(e),
{
    lemma_pow2_adds(k, (e - k) as nat);
    lemma_pow2_pos(k);
    let p = pow2(k) as int;
    let q = pow2((e - k) as nat) as int;
    assert(pow2(e) == p * q) by (nonlinear_arith)
        requires
            pow2(e) == q * p,
    ;
    assert((a + 1) * p <= p * q) by (nonlinear_arith)
        requires
            a * p < p * q,
            p > 0,
    ;
}

/// Blocks of width `2^k` tile `[2^e, ...)`: a block that ends past `2^e` starts at or past it.
pub proof fn lemma_prev_block(a: int, k: nat, e: nat)
    requires
        k <= e,
        a * pow2(k) > pow2(e),
    ensures
        (a - 1) * pow2(k) >= pow2(e),
{
    lemma_pow2_adds(k, (e - k) as nat);
    lemma_pow2_pos(k);
    let p = pow2(k) as int;
    let q = pow2((e - k) as nat) as int;
    assert(pow2(e) == p * q) by (nonlinear_arith)
        requires
            pow2(e) == q * p,
    ;
    assert((a - 1) * p >= p * q) by (nonlinear_arith)
        requires
            a * p > p * q,
            p > 0,
    ;
}

/// A block of width `2^k` that starts inside `[0, 2^e)` at a positive index has `k < e`.
pub proof fn lemma_level_bound(a: int, k: nat, e: nat)
    requires
        a >= 1,
        a * pow2(k) < pow2(e),
    ensures
        k < e,
{
    lemma_pow2_pos(k);
    let p = pow2(k) as int;
    assert(a * p >= p) by (nonlinear_arith)
        requires
            a >= 1,
            p > 0,
    ;
    if k >= e {
        if k > e {
            lemma_pow2_strictly_increases(e, k);
        }
    }
}

/// An odd index other than `1` never starts a block at a power of two.
pub proof fn lemma_odd_not_pow2(a: int, k: nat, e: nat)
    requires
        a > 1,
        a % 2 == 1,
        k <= e,
    ensures
        a * pow2(k) != pow2(e),
{
    lemma_pow2_adds(k, (e - k) as nat);
    lemma_pow2_pos(k);
    let p = pow2(k) as int;
    let q = pow2((e - k) as nat) as int;
    if a * p == pow2(e) {
        assert(a == q) by (nonlinear_arith)
            requires
                a * p == q * p,
                p > 0,
        ;
        if e - k == 0 {
            vstd::arithmetic::power2::lemma2_to64();
        } else {
            lemma_pow2_unfold((e - k) as nat);
        }
    }
}

/// The ancestor at height `i` of a leaf position is a node of that height.
pub proof fn lemma_anc_range(p: int, i: nat, log: nat)
    requires
        pow2(log) <= p < 2 * pow2(log),
        i <= log,
    ensures
        pow2((log - i) as nat) <= p / (pow2(i) as int) < 2 * pow2((log - i) as nat),
        2 * pow2((log - i) as nat) <= 2 * pow2(log),
        i >= 1 ==> p / (pow2(i) as int) < pow2(log),
{
    lemma_pow2_pos(i);
    let d = pow2(i) as int;
    let q = pow2((log - i) as nat) as int;
    lemma_pow2_adds((log - i) as nat, i);
    assert(pow2(log) == q * d);
    vstd::arithmetic::div_mod::lemma_div_is_ordered(q * d, p, d);
    vstd::arithmetic::div_mod::lemma_div_by_multiple(q, d);
    assert(p < d * (2 * q)) by (nonlinear_arith)
        requires
            p < 2 * (q * d),
    ;
    vstd::arithmetic::div_mod::lemma_multiply_divide_lt(p, d, 2 * q);
    lemma_pow2_unfold((log - i + 1) as nat);
    if i >= 1 {
        lemma_pow2_strictly_increases((log - i) as nat, log);
        if log - i + 1 < log {
            lemma_pow2_strictly_increases((log - i + 1) as nat, log);
        }
    } else {
        assert(q == pow2(log));
    }
}

/// Ancestry is transitive.
pub proof fn lemma_anc_trans(a: int, b: int, c: int)
    requires
        anc_or_self(a, b),
        anc_or_self(b, c),
    ensures
        anc_or_self(a, c),
    decreases c,
{
    if b != c {
        lemma_anc_trans(a, b, c / 2);
    }
}

/// The parent of an ancestor is an ancestor.
pub proof fn lemma_anc_up(a: int, x: int)
    requires
        anc_or_self(a, x),
        a / 2 >= 1,
    ensures
        anc_or_self(a / 2, x),
    decreases x,
{
    if a == x {
        assert(anc_or_self(x / 2, x / 2));
    } else {
        lemma_anc_up(a, x / 2);
    }
}

/// `x / 2^t`, when it is a node, is an ancestor of `x`.
pub proof fn lemma_anc_pow(x: int, t: nat)
    requires
        x >= 1,
        x / (pow2(t) as int) >= 1,
    ensures
        anc_or_self(x / (pow2(t) as int), x),
    decreases t,
{
    if t == 0 {
        vstd::arithmetic::power2::lemma2_to64();
    } else {
        lemma_pow2_pos((t - 1) as nat);
        lemma_pow2_unfold(t);
        vstd::arithmetic::div_mod::lemma_div_denominator(x, pow2((t - 1) as nat) as int, 2);
        vstd::arithmetic::div_mod::lemma_div_is_ordered_by_denominator(x, pow2((t - 1) as nat) as int, pow2(t) as int);
        lemma_anc_pow(x, (t - 1) as nat);
        lemma_anc_up(x / (pow2((t - 1) as nat) as int), x);
    }
}

/// The parent of an odd cursor at height `k` is the ancestor at height
/// `k + 1` of any position within one block of it.
pub proof fn lemma_cursor_parent(c: int, k: nat, x: int)
    requires
        c % 2 == 1,
        x >= 0,
        (c - 1) * pow2(k) <= x < (c + 1) * pow2(k),
    ensures
        c / 2 == x / (pow2(k + 1) as int),
{
    lemma_pow2_pos(k);
    lemma_pow2_unfold(k + 1);
    let d = pow2(k) as int;
    vstd::arithmetic::div_mod::lemma_div_denominator(x, d, 2);
    assert(c * d == (c - 1) * d + d && (c + 1) * d == c * d + d) by (nonlinear_arith);
    assert((c - 1) * d == d * (c - 1) && c * d == d * c) by (nonlinear_arith);
    if x < c * d {
        vstd::arithmetic::div_mod::lemma_fundamental_div_mod_converse(x, d, c - 1, x - (c - 1) * d);
    } else {
        vstd::arithmetic::div_mod::lemma_fundamental_div_mod_converse(x, d, c, x - c * d);
    }
}

/// An ancestor of `x` is `x` divided by some power of two.
pub proof fn lemma_anc_is_div(q: int, x: int) -> (t: nat)
    requires
        anc_or_self(q, x),
        x >= 1,
    ensures
        q == x / (pow2(t) as int),
    decreases x,
{
    if q == x {
        vstd::arithmetic::power2::lemma2_to64();
        0
    } else {
        let t = lemma_anc_is_div(q, x / 2);
        lemma_pow2_pos(t);
        lemma_pow2_unfold(t + 1);
        vstd::arithmetic::div_mod::lemma_div_denominator(x, 2, pow2(t) as int);
        t + 1
    }
}

/// A node at height `k` lies in `[2^(log - k), 2^(log - k + 1))`.
pub proof fn lemma_node_band(q: int, k: nat, log: nat)
    requires
        pow2(log) <= q * pow2(k) < 2 * pow2(log),
        k <= log,
    ensures
        pow2((log - k) as nat) <= q < 2 * pow2((log - k) as nat),
{
    lemma_pow2_adds(k, (log - k) as nat);
    lemma_pow2_pos(k);
    let p = pow2(k) as int;
    let r = pow2((log - k) as nat) as int;
    assert(r <= q < 2 * r) by (nonlinear_arith)
        requires
            r * p <= q * p < 2 * (r * p),
            p > 0,
    ;
}

/// Nodes of different heights are different.
pub proof fn lemma_band_unique(q: int, j: nat, k: nat, log: nat)
    requires
        j <= log,
        k <= log,
        pow2((log - j) as nat) <= q < 2 * pow2((log - j) as nat),
        pow2((log - k) as nat) <= q < 2 * pow2((log - k) as nat),
    ensures
        j == k,
{
    if j < k {
        lemma_pow2_unfold((log - k + 1) as nat);
        if log - j > log - k + 1 {
            lemma_pow2_strictly_increases((log - k + 1) as nat, (log - j) as nat);
        }
    } else if k < j {
        lemma_pow2_unfold((log - j + 1) as nat);
        if log - k > log - j + 1 {
            lemma_pow2_strictly_increases((log - j + 1) as nat, (log - k) as nat);
        }
    }
}

/// A leaf `p` is below node `q` of height `k` exactly when it lies in the span of `q`.
pub proof fn lemma_span_anc(q: int, k: nat, p: int, log: nat)
    requires
        pow2(log) <= q * pow2(k),
        (q + 1) * pow2(k) <= 2 * pow2(log),
        pow2(log) <= p < 2 * pow2(log),
    ensures
        anc_or_self(q, p) <==> (q * pow2(k) <= p < (q + 1) * pow2(k)),
{
    lemma_pow2_pos(k);
    lemma_pow2_pos(log);
    let d = pow2(k) as int;
    assert((q + 1) * d == q * d + d && q * d == d * q) by (nonlinear_arith);
    lemma_pos_mul(q, k);
    lemma_pow2_unfold(log + 1);
    lemma_level_bound(q, k, log + 1);
    lemma_node_band(q, k, log);
    if q * d <= p < (q + 1) * d {
        vstd::arithmetic::div_mod::lemma_fundamental_div_mod_converse(p, d, q, p - q * d);
        lemma_anc_pow(p, k);
    }
    if anc_or_self(q, p) {
        let t = lemma_anc_is_div(q, p);
        lemma_pow2_pos(t);
        if t > log {
            lemma_pow2_unfold(log + 1);
            if t > log + 1 {
                lemma_pow2_strictly_increases(log + 1, t);
            }
            vstd::arithmetic::div_mod::lemma_basic_div(p, pow2(t) as int);
        }
        lemma_anc_range(p, t, log);
        lemma_band_unique(q, t, k, log);
        vstd::arithmetic::div_mod::lemma_fundamental_div_mod(p, d);
        vstd::arithmetic::div_mod::lemma_mod_bound(p, d);
    }
}

} // verus!
