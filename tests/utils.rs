use yakumo::utils::ceil_pow2;

#[test]
fn utils_test_ceil_pow2() {
    assert_eq!(0, ceil_pow2(0));
    assert_eq!(0, ceil_pow2(1));
    assert_eq!(1, ceil_pow2(2));
    assert_eq!(2, ceil_pow2(3));
    assert_eq!(2, ceil_pow2(4));
    assert_eq!(3, ceil_pow2(5));
}

#[test]
fn integer_test_ceil_pow2() {
    assert_eq!(ceil_pow2(0), 0);
    assert_eq!(ceil_pow2(1), 0);
    assert_eq!(ceil_pow2(2), 1);
    assert_eq!(ceil_pow2(3), 2);
    assert_eq!(ceil_pow2(4), 2);
    assert_eq!(ceil_pow2(5), 3);
}

#[test]
fn ceil_pow2_of_large_powers() {
    assert_eq!(ceil_pow2(1 << 40), 40);
    assert_eq!(ceil_pow2((1 << 40) + 1), 41);
}
