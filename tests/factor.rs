use semiprime_table::factor::{get_pq, is_prime, odd_semiprime, AnalysisError};

#[test]
fn zero_and_one_are_not_prime() {
    assert!(!is_prime(&0));
    assert!(!is_prime(&1));
}

#[test]
fn small_primes_and_composites() {
    assert!(is_prime(&2));
    assert!(is_prime(&3));
    assert!(is_prime(&5));
    assert!(is_prime(&97));
    assert!(!is_prime(&4));
    assert!(!is_prime(&9));
    assert!(!is_prime(&15));
    assert!(!is_prime(&221));
}

#[test]
fn large_prime_is_prime() {
    assert!(is_prime(&1_000_000_007));
    assert!(!is_prime(&(1_000_000_007u64 * 3)));
}

#[test]
fn factor_fifteen() {
    assert_eq!(get_pq(15), (3, 5));
}

#[test]
fn factor_nine_square_semiprime() {
    assert_eq!(get_pq(9), (3, 3));
    assert!(is_prime(&3));
    assert_eq!(odd_semiprime(9), Ok((3, 3)));
}

#[test]
fn factor_seven_prime_is_rejected() {
    assert_eq!(get_pq(7), (7, 1));
    assert_eq!(odd_semiprime(7), Err(AnalysisError::InvalidSemiprime));
}

#[test]
fn factor_of_primes_gives_number_and_one() {
    for n in [2u64, 3, 13, 101, 7919] {
        assert_eq!(get_pq(n), (n, 1));
    }
}

#[test]
fn factor_of_odd_semiprimes_gives_both_primes() {
    assert_eq!(get_pq(35), (5, 7));
    assert_eq!(get_pq(143), (11, 13));
    assert_eq!(get_pq(49), (7, 7));
    assert_eq!(get_pq(3 * 7919), (3, 7919));
    assert_eq!(get_pq(7907 * 7919), (7907, 7919));
}

#[test]
fn factor_picks_least_odd_prime_factor() {
    assert_eq!(get_pq(45), (3, 15));
    assert_eq!(get_pq(105), (3, 35));
}

#[test]
fn factor_of_even_numbers_without_odd_factor() {
    assert_eq!(get_pq(4), (4, 1));
    assert_eq!(get_pq(8), (8, 1));
    assert_eq!(get_pq(0), (0, 1));
    assert_eq!(get_pq(1), (1, 1));
}

#[test]
fn odd_semiprime_accepts_products_of_two_odd_primes() {
    assert_eq!(odd_semiprime(15), Ok((3, 5)));
    assert_eq!(odd_semiprime(35), Ok((5, 7)));
    assert_eq!(odd_semiprime(143), Ok((11, 13)));
}

#[test]
fn odd_semiprime_rejects_other_numbers() {
    for n in [0u64, 1, 2, 4, 6, 10, 27, 45, 105, 13] {
        assert_eq!(odd_semiprime(n), Err(AnalysisError::InvalidSemiprime), "n = {}", n);
    }
}
