use yakumo::gcd::{ext_gcd, Gcd};
use yakumo::mod_int::{FiniteField, Mod1000000007, Mod998244353};
use yakumo::algebra::PartialMulRecip;

const P: i64 = 1000000007;
type F = FiniteField<Mod1000000007>;

#[test]
fn test_gcd() {
    assert_eq!(0.gcd(0), 0);
    assert_eq!((-2).gcd(3), 1);
    assert_eq!(4.gcd(6), 2);
}

#[test]
fn gcd_of_unsigned_and_wide_types() {
    assert_eq!(12u64.gcd(18), 6);
    assert_eq!(17usize.gcd(0), 17);
    assert_eq!((-24i64).gcd(-36), 12);
}

#[test]
fn test_ext_gcd() {
    assert_eq!(ext_gcd(111, 30), (3, 3, -11));
}

#[test]
fn ext_gcd_bezout() {
    for a in 0..40i64 {
        for b in 0..40i64 {
            let (d, x, y) = ext_gcd(a, b);
            assert_eq!(a * x + b * y, d);
            assert_eq!(d as u64, (a as u64).gcd(b as u64));
        }
    }
}

#[test]
fn mod_int_test_finite_field_eq() {
    assert_eq!(F::new(0), F::new(P));
}

#[test]
fn mod_int_test_finite_field_pow() {
    let x = F::new(-1);
    assert_eq!(x.val(), P - 1);

    let exps = [0, 1, 10, 100, 1000, 10000];
    for exp in &exps {
        let y = std::iter::repeat(3).take(*exp as usize).fold(1, |acc, x| acc * x % P);
        assert_eq!(F::new(3).pow(*exp).val(), y);
    }
}

#[test]
fn finite_field_arithmetic() {
    assert_eq!(F::new(1) + F::new(2), F::new(3));
    assert_eq!(F::new(1) - F::new(2), F::new(P - 1));
    assert_eq!(F::new(2) * F::new(3), F::new(6));
    assert_eq!(F::new(2) / F::new(3), F::new(666666672));
    let mut x = F::new(1);
    x += F::new(2);
    assert_eq!(x, F::new(3));
    x -= F::new(5);
    assert_eq!(x, F::new(P - 2));
    x *= F::new(-1);
    assert_eq!(x, F::new(2));
    assert_eq!(F::new(0).partial_mul_recip(), None);
    assert_eq!(F::new(2).partial_mul_recip(), Some(F::new(500000004)));
}

#[test]
fn finite_field_other_modulus() {
    type G = FiniteField<Mod998244353>;
    assert_eq!(G::new(-1).val(), 998244352);
    assert_eq!(G::new(3).pow(998244352).val(), 1);
    assert_eq!((G::new(5) * G::new(5).partial_mul_recip().unwrap()).val(), 1);
}

#[test]
fn test_primes() {
    assert_eq!(yakumo::prime::sieve(0), vec![]);
    assert_eq!(yakumo::prime::sieve(1), vec![]);
    assert_eq!(yakumo::prime::sieve(2), vec![2]);
    assert_eq!(yakumo::prime::sieve(10), vec![2, 3, 5, 7]);
    assert_eq!(yakumo::prime::sieve(11), vec![2, 3, 5, 7, 11]);
}

#[test]
fn sieve_up_to_a_hundred() {
    let primes = yakumo::prime::sieve(100);
    assert_eq!(primes.len(), 25);
    assert_eq!(primes[24], 97);
}

#[test]
fn test_next_permutation() {
    let mut nums = vec![1, 2, 3];
    assert!(yakumo::permutation::next_permutation(&mut nums));
    assert_eq!(nums, vec![1, 3, 2]);
    assert!(yakumo::permutation::next_permutation(&mut nums));
    assert_eq!(nums, vec![2, 1, 3]);
    assert!(yakumo::permutation::next_permutation(&mut nums));
    assert_eq!(nums, vec![2, 3, 1]);
    assert!(yakumo::permutation::next_permutation(&mut nums));
    assert_eq!(nums, vec![3, 1, 2]);
    assert!(yakumo::permutation::next_permutation(&mut nums));
    assert_eq!(nums, vec![3, 2, 1]);
    assert!(!yakumo::permutation::next_permutation(&mut nums));
    assert_eq!(nums, vec![1, 2, 3]);
}

#[test]
fn next_permutation_with_repeats_and_empty() {
    let mut nums = vec![1, 1, 2];
    assert!(yakumo::permutation::next_permutation(&mut nums));
    assert_eq!(nums, vec![1, 2, 1]);
    assert!(yakumo::permutation::next_permutation(&mut nums));
    assert_eq!(nums, vec![2, 1, 1]);
    assert!(!yakumo::permutation::next_permutation(&mut nums));
    assert_eq!(nums, vec![1, 1, 2]);
    let mut empty: Vec<i32> = vec![];
    assert!(!yakumo::permutation::next_permutation(&mut empty));
}

#[test]
fn test_power_mod_combination() {
    let combi = yakumo::combination::CombinationModPrime::new(10, 7);
    assert_eq!(combi.combination(3, 2), 3);
    assert_eq!(combi.combination(6, 3), 6);
}

#[test]
fn combination_mod_large_prime() {
    let combi = yakumo::combination::CombinationModPrime::new(30, 1_000_000_007);
    assert_eq!(combi.combination(30, 15), 155117520);
    assert_eq!(combi.combination(30, 0), 1);
    assert_eq!(combi.combination(0, 0), 1);
    assert_eq!(combi.combination(20, 10), 184756);
}

#[test]
fn test_factorization() {
    assert_eq!(yakumo::factor::factorization(1), std::collections::HashMap::new());
    assert_eq!(yakumo::factor::factorization(7), vec![(7, 1)].into_iter().collect());
    assert_eq!(yakumo::factor::factorization(8), vec![(2, 3)].into_iter().collect());
}

#[test]
fn factorization_of_composites() {
    let f = yakumo::factor::factorization(360);
    assert_eq!(f.len(), 3);
    assert_eq!(f[&2], 3);
    assert_eq!(f[&3], 2);
    assert_eq!(f[&5], 1);
    let f = yakumo::factor::factorization(2 * 1_000_003);
    assert_eq!(f[&2], 1);
    assert_eq!(f[&1_000_003], 1);
    assert_eq!(yakumo::factor::factorization(0), vec![(0, 1)].into_iter().collect());
}
