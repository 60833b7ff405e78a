use rcomb::util::{binomial, double_factorial, divisors, par_dedup, euler_phi_from_primes, entry_value, SizedIter, is_coprime, totient_by_counting};

#[test]
fn util_test_binomial() {
    let n = 10;
    let vals: Vec<u128> = (0..=n).map(|k| binomial(n, k)).collect();
    assert_eq!(vals, vec![1, 10, 45, 120, 210, 252, 210, 120, 45, 10, 1]);
}

#[test]
fn util_test_double_factorial() {
    assert_eq!(double_factorial(0u128.overflowing_sub(1).0), 1);
    assert_eq!(double_factorial(0), 1);
    assert_eq!(double_factorial(1), 1);
    assert_eq!(double_factorial(16), 10321920);
    assert_eq!(double_factorial(17), 34459425);
}

#[test]
fn util_test_divisors() {
    assert_eq!(divisors(2u128), vec![1, 2]);
    assert_eq!(divisors(141u128), vec![1, 3, 47, 141]);
    assert_eq!(divisors(143u128), vec![1, 11, 13, 143]);
}

#[test]
fn util_par_dedup_modulo() {
    let n = 5000;
    let modulo = 149;
    let mut data: Vec<_> = (0..n).collect();
    par_dedup(&mut data, |&i, &j| { i % modulo == j % modulo });
    data = data.into_iter().map(|i| i % modulo).collect();
    data.sort();
    assert_eq!(data, (0..modulo).collect::<Vec<_>>());
}

#[test]
fn util_par_dedup_unique() {
    let n = 5000;
    let mut data: Vec<_> = (0..n).collect();
    par_dedup(&mut data, |&i, &j| i == j);
    assert_eq!(data.len(), n);
}

#[test]
fn util_par_dedup_same() {
    let n = 5000;
    let mut data: Vec<()> = vec![(); n];
    par_dedup(&mut data, |&(), &()| true);
    assert_eq!(data.len(), 1);
}

#[test]
fn binomial_edge_cases() {
    assert_eq!(binomial(5, 7), 0);
    assert_eq!(binomial(0, 0), 1);
    assert_eq!(binomial(60, 30), 118264581564861424);
    assert_eq!(binomial(u128::MAX, 1), u128::MAX);
}

#[test]
fn divisors_of_one_and_primes() {
    assert_eq!(divisors(1u128), vec![1]);
    assert_eq!(divisors(97u128), vec![1, 97]);
    assert_eq!(divisors(12u128), vec![1, 2, 3, 4, 6, 12]);
    assert_eq!(divisors(64u128), vec![1, 2, 4, 8, 16, 32, 64]);
}

#[test]
fn euler_phi_from_prime_factors() {
    assert_eq!(euler_phi_from_primes(12843, &vec![3, 1427]), 8556);
    assert_eq!(euler_phi_from_primes(1010102, &vec![2, 505051]), 505050);
    assert_eq!(euler_phi_from_primes(1, &vec![]), 1);
}

#[test]
fn entry_value_takes_second() {
    assert_eq!(entry_value(("a", 7)), 7);
}

#[test]
fn sized_iter_counts_down() {
    let mut it = SizedIter { iter: vec![1, 2].into_iter(), n_remaining: Some(2) };
    assert_eq!(it.size_hint(), (2, Some(2)));
    assert_eq!(it.next(), Some(1));
    assert_eq!(it.next(), Some(2));
    assert_eq!(it.next(), None);
    assert_eq!(it.size_hint(), (0, Some(0)));
    let unknown = SizedIter { iter: vec![1].into_iter(), n_remaining: None };
    assert_eq!(unknown.size_hint(), (0, None));
}

#[test]
fn totient_by_counting_values() {
    let expected = [0u128, 1, 1, 2, 2, 4, 2, 6, 4, 6, 4, 10, 4, 12, 6, 8, 8];
    for (n, &phi) in expected.iter().enumerate() {
        assert_eq!(totient_by_counting(n as u128), phi, "at {}", n);
    }
    assert!(is_coprime(9, 28));
    assert!(!is_coprime(12, 18));
    assert!(!is_coprime(0, 4));
    assert!(is_coprime(1, 0));
}
