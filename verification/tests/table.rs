use prime_tools::PrimeTools;

fn is_prime_slow(n: u64) -> bool {
    if n < 2 {
        return false;
    }
    let mut d = 2;
    while d * d <= n {
        if n % d == 0 {
            return false;
        }
        d += 1;
    }
    true
}

#[test]
fn first_ten_primes_in_order() {
    let mut pt = PrimeTools::new();
    let mut it = pt.iter_primes();
    let mut seen = Vec::new();
    for _ in 0..10 {
        seen.push(it.next());
    }
    let expected: Vec<Option<u64>> =
        vec![2, 3, 5, 7, 11, 13, 17, 19, 23, 29].into_iter().map(Some).collect();
    assert_eq!(seen, expected);
}

#[test]
fn two_sequences_over_one_table_agree() {
    let mut pt = PrimeTools::new();
    let mut first = pt.iter_primes();
    for _ in 0..5 {
        first.next();
    }
    let a = first.next();
    let mut second = pt.iter_primes();
    for _ in 0..5 {
        second.next();
    }
    let b = second.next();
    assert_eq!(a, Some(13));
    assert_eq!(b, Some(13));
    assert_eq!(pt.get_prime(5), Some(13));
}

#[test]
fn sequence_restarts_from_the_first_prime() {
    let mut pt = PrimeTools::new();
    assert_eq!(pt.get_prime(20), Some(73));
    let mut it = pt.iter_primes();
    assert_eq!(it.next(), Some(2));
    assert_eq!(it.next(), Some(3));
    assert_eq!(it.next(), Some(5));
}

#[test]
fn get_prime_on_a_fresh_table() {
    assert_eq!(PrimeTools::new().get_prime(0), Some(2));
    assert_eq!(PrimeTools::new().get_prime(1), Some(3));
    assert_eq!(PrimeTools::new().get_prime(2), Some(5));
    assert_eq!(PrimeTools::new().get_prime(3), Some(7));
    assert_eq!(PrimeTools::new().get_prime(99), Some(541));
    assert_eq!(PrimeTools::new().get_prime(999), Some(7919));
}

#[test]
fn get_prime_does_not_depend_on_earlier_growth() {
    let mut pt = PrimeTools::new();
    assert_eq!(pt.get_prime(50), Some(233));
    assert_eq!(pt.get_prime(3), Some(7));
    assert_eq!(pt.get_prime(50), Some(233));
    assert_eq!(pt.get_prime(51), Some(239));
}

#[test]
fn default_is_the_seeded_table() {
    let mut pt = PrimeTools::default();
    assert_eq!(pt.get_prime(0), Some(2));
    assert_eq!(pt.get_prime(1), Some(3));
}

#[test]
fn is_prime_of_small_numbers() {
    let mut pt = PrimeTools::new();
    assert!(!pt.is_prime(&0));
    assert!(!pt.is_prime(&1));
    assert!(pt.is_prime(&2));
    assert!(pt.is_prime(&3));
    assert!(!pt.is_prime(&4));
    assert!(pt.is_prime(&5));
    assert!(!pt.is_prime(&9));
    assert!(pt.is_prime(&11));
    assert!(!pt.is_prime(&25));
}

#[test]
fn is_prime_one_is_not_and_two_is() {
    assert!(!PrimeTools::new().is_prime(&1));
    assert!(PrimeTools::new().is_prime(&2));
}

#[test]
fn is_prime_agrees_with_trial_division() {
    let mut pt = PrimeTools::new();
    for n in 0..3000u64 {
        assert_eq!(pt.is_prime(&n), is_prime_slow(n), "n = {}", n);
    }
}

#[test]
fn is_prime_on_fresh_tables() {
    for n in 0..400u64 {
        assert_eq!(PrimeTools::new().is_prime(&n), is_prime_slow(n), "n = {}", n);
    }
}

#[test]
fn is_prime_below_the_table_maximum_is_a_lookup() {
    let mut pt = PrimeTools::new();
    assert_eq!(pt.get_prime(100), Some(547));
    assert!(pt.is_prime(&541));
    assert!(!pt.is_prime(&545));
    assert!(pt.is_prime(&547));
    assert!(!pt.is_prime(&1));
}

#[test]
fn is_prime_grows_the_table_to_the_square_root_only() {
    let mut pt = PrimeTools::new();
    assert!(pt.is_prime(&1_000_000_007));
    assert!(!pt.is_prime(&1_000_000_011));
    assert!(pt.is_prime(&999_999_937));
    assert!(!pt.is_prime(&(9_973 * 10_007)));
}

#[test]
fn is_prime_of_squares_of_primes() {
    let mut pt = PrimeTools::new();
    for p in [2u64, 3, 5, 7, 11, 13, 101, 997] {
        assert!(!pt.is_prime(&(p * p)), "p = {}", p);
    }
}
