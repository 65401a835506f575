use yakumo::algebra::{Identity, Magma, Recip};
use yakumo::ops::{OpAdd, OpMax, OpMin, OpMul};

#[test]
fn test_op_add_magma() {
    let op_add = OpAdd::default();
    assert_eq!(op_add.op(1, 1), 2);
    assert_eq!(op_add.id(), 0);
}

#[test]
fn test_op_max_magm() {
    let op_max = OpMax::<i32>::default();
    assert_eq!(op_max.op(1, 2), 2);
    assert_eq!(op_max.id(), std::i32::MIN);
}

#[test]
fn test_op_min_magm() {
    let op_min = OpMin::<i32>::default();
    assert_eq!(op_min.op(1, 2), 1);
    assert_eq!(op_min.id(), std::i32::MAX);
}

#[test]
fn test_op_mul_magma() {
    let op_mul = OpMul::default();
    assert_eq!(op_mul.op(2, 3), 6);
    assert_eq!(op_mul.id(), 1);
}

#[test]
fn op_add_test_magma() {
    let op_add = OpAdd::default();
    assert_eq!(op_add.op(1, 1), 2);
}

#[test]
fn op_mul_test_magma() {
    let op_mul = OpMul::default();
    assert_eq!(op_mul.op(2, 3), 6);
}

#[test]
fn op_add_wraps_at_the_bound() {
    let op_add = OpAdd::<usize>::default();
    assert_eq!(op_add.op(usize::MAX, 2), 1);
}

#[test]
fn op_add_recip_cancels() {
    let op_add = OpAdd::<usize>::default();
    assert_eq!(op_add.recip(5), usize::MAX - 4);
    assert_eq!(op_add.op(7, op_add.recip(7)), 0);
    assert_eq!(op_add.recip(0), 0);
}

#[test]
fn op_mul_wraps_at_the_bound() {
    let op_mul = OpMul::<usize>::default();
    assert_eq!(op_mul.op(usize::MAX, 2), usize::MAX - 1);
}
