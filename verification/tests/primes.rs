use algokit::math::primes::{find_primes, PrimeExt};

#[test]
fn test_factorize_all() {
    assert_eq!(find_primes(10), vec![2, 3, 5, 7])
}

#[test]
fn test_is_prime_small_numbers() {
    assert_eq!(2i64.is_prime(), true);
    assert_eq!(3i64.is_prime(), true);
    assert_eq!(4i64.is_prime(), false);
    assert_eq!(5i64.is_prime(), true);
}

#[test]
fn test_is_prime_large_numbers() {
    assert_eq!(97i64.is_prime(), true);
    assert_eq!(100i64.is_prime(), false);
    assert_eq!(101i64.is_prime(), true);
    assert_eq!(103i64.is_prime(), true);
    assert_eq!(104i64.is_prime(), false);
}

#[test]
fn test_is_prime_edge_cases() {
    assert_eq!(0i64.is_prime(), false);
    assert_eq!(1i64.is_prime(), false);
}

#[test]
fn test_is_prime_non_primes() {
    assert_eq!(9i64.is_prime(), false);
    assert_eq!(15i64.is_prime(), false);
    assert_eq!(21i64.is_prime(), false);
    assert_eq!(25i64.is_prime(), false);
    assert_eq!(27i64.is_prime(), false);
}

#[test]
fn test_factorize_primes() {
    assert_eq!(2i64.factorize(), vec![2]);
    assert_eq!(3i64.factorize(), vec![3]);
    assert_eq!(5i64.factorize(), vec![5]);
    assert_eq!(7i64.factorize(), vec![7]);
    assert_eq!(11i64.factorize(), vec![11]);
    assert_eq!(13i64.factorize(), vec![13]);
}

#[test]
fn test_factorize_composites() {
    assert_eq!(4i64.factorize(), vec![2, 2]);
    assert_eq!(6i64.factorize(), vec![2, 3]);
    assert_eq!(8i64.factorize(), vec![2, 2, 2]);
    assert_eq!(9i64.factorize(), vec![3, 3]);
    assert_eq!(10i64.factorize(), vec![2, 5]);
    assert_eq!(12i64.factorize(), vec![2, 2, 3]);
    assert_eq!(15i64.factorize(), vec![3, 5]);
    assert_eq!(16i64.factorize(), vec![2, 2, 2, 2]);
    assert_eq!(18i64.factorize(), vec![2, 3, 3]);
}

#[test]
fn test_factorize_less_than_two() {
    assert_eq!(1i64.factorize(), vec![]);
    assert_eq!(0i64.factorize(), vec![]);
}

#[test]
fn test_factorize_product() {
    let factors = 100i64.factorize();
    let product: i64 = factors.iter().product();
    assert_eq!(product, 100);
}

#[test]
fn sieve_empty_below_two() {
    assert_eq!(find_primes(0), Vec::<u64>::new());
    assert_eq!(find_primes(1), Vec::<u64>::new());
    assert_eq!(find_primes(2), vec![2]);
}

#[test]
fn sieve_matches_trial_division() {
    let primes = find_primes(200);
    let mut expected: Vec<u64> = Vec::new();
    for v in 2i64..=200 {
        if v.is_prime() {
            expected.push(v as u64);
        }
    }
    assert_eq!(primes, expected);
}
