use semiprime_table::arith::{classify, is_full_sqr, is_pq_div, is_pronic, Classes};

#[test]
fn squares_are_marked() {
    for k in 1u128..50 {
        assert!(is_full_sqr(k * k));
    }
    assert!(is_full_sqr(u64::MAX as u128 * u64::MAX as u128));
}

#[test]
fn neighbours_of_squares_are_not_marked() {
    for k in 1u128..50 {
        assert!(!is_full_sqr(k * k + 1), "k = {}", k);
        assert!(!is_full_sqr(k * k - 1), "k = {}", k);
    }
}

#[test]
fn zero_is_not_marked_square() {
    assert!(!is_full_sqr(0));
}

#[test]
fn pronic_numbers() {
    assert!(is_pronic(0));
    assert!(is_pronic(2));
    assert!(is_pronic(12));
    assert!(is_pronic(42));
    assert!(!is_pronic(1));
    assert!(!is_pronic(13));
    assert!(!is_pronic(16));
}

#[test]
fn divisibility_flags() {
    assert_eq!(is_pq_div(15, 3, 5), (true, true));
    assert_eq!(is_pq_div(9, 3, 5), (true, false));
    assert_eq!(is_pq_div(10, 3, 5), (false, true));
    assert_eq!(is_pq_div(7, 3, 5), (false, false));
    assert_eq!(is_pq_div(7, 1, 1), (false, false));
    assert_eq!(is_pq_div(0, 0, 0), (false, false));
}

#[test]
fn classify_combines_flags() {
    assert_eq!(classify(9, 3, 5), Classes { div_p: true, div_q: false, square: true });
    assert_eq!(classify(15, 3, 5), Classes { div_p: true, div_q: true, square: false });
    assert_eq!(classify(4, 1, 1), Classes { div_p: false, div_q: false, square: true });
    assert_eq!(classify(0, 3, 5), Classes { div_p: true, div_q: true, square: false });
}
