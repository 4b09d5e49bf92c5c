use prime_tools::{PrimeError, PrimeTools};
use std::collections::{BTreeMap, BTreeSet};

fn divisors_slow(n: u64) -> BTreeSet<u64> {
    (1..=n).filter(|d| n % d == 0).collect()
}

fn product(f: &BTreeMap<u64, usize>) -> u64 {
    f.iter().map(|(p, e)| p.pow(*e as u32)).product()
}

#[test]
fn factorization_of_360() {
    let mut pt = PrimeTools::new();
    let expected: BTreeMap<u64, usize> = [(2, 3), (3, 2), (5, 1)].into_iter().collect();
    assert_eq!(pt.prime_factorization(&360), Ok(expected));
}

#[test]
fn divisors_of_360() {
    let mut pt = PrimeTools::new();
    let found = pt.factors(&360).unwrap();
    assert_eq!(found.len(), 24);
    assert_eq!(found, divisors_slow(360));
    assert_eq!(pt.factor_sum(&360), Ok(1170));
    assert_eq!(pt.factor_count(&360), Ok(24));
}

#[test]
fn queries_on_one() {
    let mut pt = PrimeTools::new();
    assert_eq!(pt.prime_factorization(&1), Ok(BTreeMap::new()));
    let only_one: BTreeSet<u64> = [1].into_iter().collect();
    assert_eq!(pt.factors(&1), Ok(only_one));
    assert_eq!(pt.factor_sum(&1), Ok(1));
    assert_eq!(pt.factor_count(&1), Ok(1));
    assert!(!pt.is_prime(&1));
    assert!(pt.is_prime(&2));
}

#[test]
fn zero_is_invalid_input() {
    let mut pt = PrimeTools::new();
    assert_eq!(pt.prime_factorization(&0), Err(PrimeError::InvalidInput));
    assert_eq!(pt.factors(&0), Err(PrimeError::InvalidInput));
    assert_eq!(pt.factor_sum(&0), Err(PrimeError::InvalidInput));
    assert_eq!(pt.factor_count(&0), Err(PrimeError::InvalidInput));
    assert_eq!(pt.get_prime(2), Some(5));
}

#[test]
fn factorization_multiplies_back() {
    let mut pt = PrimeTools::new();
    for n in 1..2000u64 {
        let f = pt.prime_factorization(&n).unwrap();
        assert_eq!(product(&f), n, "n = {}", n);
        for (p, e) in f.iter() {
            assert!(*e >= 1);
            assert!(pt.is_prime(p), "key {} of {}", p, n);
        }
    }
}

#[test]
fn factorization_on_fresh_tables() {
    for n in 1..300u64 {
        let f = PrimeTools::new().prime_factorization(&n).unwrap();
        assert_eq!(product(&f), n, "n = {}", n);
    }
}

#[test]
fn factorization_of_primes_just_above_a_square() {
    for n in [11u64, 13, 29, 31, 53, 127] {
        let expected: BTreeMap<u64, usize> = [(n, 1)].into_iter().collect();
        assert_eq!(PrimeTools::new().prime_factorization(&n), Ok(expected), "n = {}", n);
    }
}

#[test]
fn factorization_of_prime_powers() {
    let mut pt = PrimeTools::new();
    let two: BTreeMap<u64, usize> = [(2, 30)].into_iter().collect();
    assert_eq!(pt.prime_factorization(&(1u64 << 30)), Ok(two));
    let seven: BTreeMap<u64, usize> = [(7, 5)].into_iter().collect();
    assert_eq!(pt.prime_factorization(&16807), Ok(seven));
    let mixed: BTreeMap<u64, usize> = [(2, 10), (3, 5), (10_007, 1)].into_iter().collect();
    assert_eq!(pt.prime_factorization(&(1024 * 243 * 10_007)), Ok(mixed));
}

#[test]
fn factorization_with_a_large_last_factor() {
    let mut pt = PrimeTools::new();
    let expected: BTreeMap<u64, usize> = [(2, 1), (500_000_003, 1)].into_iter().collect();
    assert_eq!(pt.prime_factorization(&1_000_000_006), Ok(expected));
    let semiprime: BTreeMap<u64, usize> = [(9973, 1), (10007, 1)].into_iter().collect();
    assert_eq!(pt.prime_factorization(&(9973 * 10007)), Ok(semiprime));
}

#[test]
fn divisors_are_exactly_the_numbers_that_divide() {
    let mut pt = PrimeTools::new();
    for n in 1..600u64 {
        let found = pt.factors(&n).unwrap();
        assert_eq!(found, divisors_slow(n), "n = {}", n);
        assert!(found.contains(&1));
        assert!(found.contains(&n));
    }
}

#[test]
fn divisors_of_twelve_ascend() {
    let found = PrimeTools::new().factors(&12).unwrap();
    let listed: Vec<u64> = found.into_iter().collect();
    assert_eq!(listed, vec![1, 2, 3, 4, 6, 12]);
}

#[test]
fn divisor_sum_is_the_sum_of_the_divisors() {
    let mut pt = PrimeTools::new();
    for n in 1..600u64 {
        let expected: u64 = divisors_slow(n).iter().sum();
        assert_eq!(pt.factor_sum(&n), Ok(expected), "n = {}", n);
    }
}

#[test]
fn divisor_sum_of_chosen_numbers() {
    let mut pt = PrimeTools::new();
    assert_eq!(pt.factor_sum(&6), Ok(12));
    assert_eq!(pt.factor_sum(&28), Ok(56));
    assert_eq!(pt.factor_sum(&97), Ok(98));
    assert_eq!(pt.factor_sum(&1024), Ok(2047));
    assert_eq!(pt.factor_sum(&(1u64 << 30)), Ok((1u64 << 31) - 1));
    assert_eq!(pt.factor_sum(&1_000_000_007), Ok(1_000_000_008));
}

#[test]
fn divisor_count_is_the_number_of_divisors() {
    let mut pt = PrimeTools::new();
    for n in 1..600u64 {
        assert_eq!(pt.factor_count(&n), Ok(divisors_slow(n).len()), "n = {}", n);
    }
}

#[test]
fn divisor_count_of_chosen_numbers() {
    let mut pt = PrimeTools::new();
    assert_eq!(pt.factor_count(&2), Ok(2));
    assert_eq!(pt.factor_count(&12), Ok(6));
    assert_eq!(pt.factor_count(&5040), Ok(60));
    assert_eq!(pt.factor_count(&(1u64 << 30)), Ok(31));
    assert_eq!(pt.factor_count(&735_134_400), Ok(1344));
}

#[test]
fn prime_exactly_when_two_divisors() {
    let mut pt = PrimeTools::new();
    assert!(!pt.is_prime(&0));
    assert_eq!(pt.factor_count(&0), Err(PrimeError::InvalidInput));
    for n in 1..1500u64 {
        assert_eq!(pt.is_prime(&n), pt.factor_count(&n) == Ok(2), "n = {}", n);
    }
}

#[test]
fn divisors_of_a_number_with_many_divisors() {
    let mut pt = PrimeTools::new();
    let found = pt.factors(&720_720).unwrap();
    assert_eq!(found.len(), 240);
    assert_eq!(pt.factor_count(&720_720), Ok(240));
    let sum: u64 = found.iter().sum();
    assert_eq!(pt.factor_sum(&720_720), Ok(sum));
    for d in found.iter() {
        assert_eq!(720_720 % d, 0);
    }
}

#[test]
fn largest_divisor_sum_that_a_power_of_two_gives() {
    let mut pt = PrimeTools::new();
    assert_eq!(pt.factor_sum(&(1u64 << 32)), Ok((1u64 << 33) - 1));
    assert_eq!(pt.factor_count(&(1u64 << 32)), Ok(33));
    let found = pt.factors(&(1u64 << 32)).unwrap();
    assert_eq!(found.len(), 33);
    assert!(found.contains(&(1u64 << 17)));
}
