//! Operators as types: addition and multiplication (both wrapping, so that
//! they are closed on the machine integers), minimum and maximum.
use core::marker::PhantomData;
use vstd::arithmetic::div_mod::{lemma_mul_mod_noop_left, lemma_mul_mod_noop_right};
use vstd::arithmetic::mul::lemma_mul_is_associative;
use vstd::prelude::*;

use crate::algebra::{Associative, Commutative, Identity, Magma, Recip};

verus! {

/// Addition, wrapping around at the bounds of the integer type.
pub struct OpAdd<T> {
    pub phantom: PhantomData<T>,
}

impl<T> Default for OpAdd<T> {
    fn default() -> (r: Self)
        ensures
            r == (OpAdd::<T> { phantom: PhantomData }),
    {
        OpAdd { phantom: PhantomData }
    }
}

/// Multiplication, wrapping around at the bounds of the integer type.
pub struct OpMul<T> {
    pub phantom: PhantomData<T>,
}

impl<T> Default for OpMul<T> {
    fn default() -> (r: Self)
        ensures
            r == (OpMul::<T> { phantom: PhantomData }),
    {
        OpMul { phantom: PhantomData }
    }
}

/// The smaller of two values.
pub struct OpMin<T> {
    pub phantom: PhantomData<T>,
}

impl<T> Default for OpMin<T> {
    fn default() -> (r: Self)
        ensures
            r == (OpMin::<T> { phantom: PhantomData }),
    {
        OpMin { phantom: PhantomData }
    }
}

/// The larger of two values.
pub struct OpMax<T> {
    pub phantom: PhantomData<T>,
}

impl<T> Default for OpMax<T> {
    fn default() -> (r: Self)
        ensures
            r == (OpMax::<T> { phantom: PhantomData }),
    {
        OpMax { phantom: PhantomData }
    }
}

impl Magma for OpAdd<usize> {
    type Set = usize;

    open spec fn op_spec(x: usize, y: usize) -> usize {
        vstd::wrapping::usize_specs::wrapping_add(x, y)
    }

    fn op(&self, x: usize, y: usize) -> (r: usize) {
        x.wrapping_add(y)
    }
}

impl Associative for OpAdd<usize> {
    proof fn lemma_assoc(x: usize, y: usize, z: usize) {
    }
}

impl Commutative for OpAdd<usize> {
    proof fn lemma_comm(x: usize, y: usize) {
    }
}

impl Identity for OpAdd<usize> {
    open spec fn id_spec() -> usize {
        0
    }

    proof fn lemma_id(x: usize) {
    }

    fn id(&self) -> (r: usize) {
        0
    }
}

impl Recip for OpAdd<usize> {
    open spec fn recip_spec(x: usize) -> usize {
        vstd::wrapping::usize_specs::wrapping_sub(0, x)
    }

    proof fn lemma_recip(x: usize) {
    }

    fn recip(&self, x: usize) -> (r: usize) {
        0usize.wrapping_sub(x)
    }
}

impl Magma for OpMul<usize> {
    type Set = usize;

    open spec fn op_spec(x: usize, y: usize) -> usize {
        vstd::wrapping::usize_specs::wrapping_mul(x, y)
    }

    fn op(&self, x: usize, y: usize) -> (r: usize) {
        x.wrapping_mul(y)
    }
}

impl Associative for OpMul<usize> {
    proof fn lemma_assoc(x: usize, y: usize, z: usize) {
        let m: int = (usize::MAX as int + 1);
        lemma_mul_mod_noop_left(x as int * y as int, z as int, m);
        lemma_mul_mod_noop_right(x as int, y as int * z as int, m);
        lemma_mul_is_associative(x as int, y as int, z as int);
    }
}

impl Commutative for OpMul<usize> {
    proof fn lemma_comm(x: usize, y: usize) {
        assert(x as int * y as int == y as int * x as int) by (nonlinear_arith);
    }
}

impl Identity for OpMul<usize> {
    open spec fn id_spec() -> usize {
        1
    }

    proof fn lemma_id(x: usize) {
        vstd::arithmetic::div_mod::lemma_small_mod(x as nat, (usize::MAX as int + 1) as nat);
    }

    fn id(&self) -> (r: usize) {
        1
    }
}

impl Magma for OpMin<usize> {
    type Set = usize;

    open spec fn op_spec(x: usize, y: usize) -> usize {
        if x <= y {
            x
        } else {
            y
        }
    }

    fn op(&self, x: usize, y: usize) -> (r: usize) {
        if x <= y {
            x
        } else {
            y
        }
    }
}

impl Associative for OpMin<usize> {
    proof fn lemma_assoc(x: usize, y: usize, z: usize) {
    }
}

impl Commutative for OpMin<usize> {
    proof fn lemma_comm(x: usize, y: usize) {
    }
}

impl Identity for OpMin<usize> {
    open spec fn id_spec() -> usize {
        usize::MAX
    }

    proof fn lemma_id(x: usize) {
    }

    fn id(&self) -> (r: usize) {
        usize::MAX
    }
}

impl Magma for OpMin<i32> {
    type Set = i32;

    open spec fn op_spec(x: i32, y: i32) -> i32 {
        if x <= y {
            x
        } else {
            y
        }
    }

    fn op(&self, x: i32, y: i32) -> (r: i32) {
        if x <= y {
            x
        } else {
            y
        }
    }
}

impl Associative for OpMin<i32> {
    proof fn lemma_assoc(x: i32, y: i32, z: i32) {
    }
}

impl Commutative for OpMin<i32> {
    proof fn lemma_comm(x: i32, y: i32) {
    }
}

impl Identity for OpMin<i32> {
    open spec fn id_spec() -> i32 {
        i32::MAX
    }

    proof fn lemma_id(x: i32) {
    }

    fn id(&self) -> (r: i32) {
        i32::MAX
    }
}

impl Magma for OpMax<usize> {
    type Set = usize;

    open spec fn op_spec(x: usize, y: usize) -> usize {
        if x >= y {
            x
        } else {
            y
        }
    }

    fn op(&self, x: usize, y: usize) -> (r: usize) {
        if x >= y {
            x
        } else {
            y
        }
    }
}

impl Associative for OpMax<usize> {
    proof fn lemma_assoc(x: usize, y: usize, z: usize) {
    }
}

impl Commutative for OpMax<usize> {
    proof fn lemma_comm(x: usize, y: usize) {
    }
}

impl Identity for OpMax<usize> {
    open spec fn id_spec() -> usize {
        usize::MIN
    }

    proof fn lemma_id(x: usize) {
    }

    fn id(&self) -> (r: usize) {
        usize::MIN
    }
}

impl Magma for OpMax<i32> {
    type Set = i32;

    open spec fn op_spec(x: i32, y: i32) -> i32 {
        if x >= y {
            x
        } else {
            y
        }
    }

    fn op(&self, x: i32, y: i32) -> (r: i32) {
        if x >= y {
            x
        } else {
            y
        }
    }
}

impl Associative for OpMax<i32> {
    proof fn lemma_assoc(x: i32, y: i32, z: i32) {
    }
}

impl Commutative for OpMax<i32> {
    proof fn lemma_comm(x: i32, y: i32) {
    }
}

impl Identity for OpMax<i32> {
    open spec fn id_spec() -> i32 {
        i32::MIN
    }

    proof fn lemma_id(x: i32) {
    }

    fn id(&self) -> (r: i32) {
        i32::MIN
    }
}

} // verus!
