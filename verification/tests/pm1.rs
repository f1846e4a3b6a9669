use plexcryptool::math::pm1::{p_minus_one, MAX_PRIMES};

#[test]
fn small_numbers_and_large_limits_are_refused() {
    assert_eq!(p_minus_one(0, 10, false).unwrap_err(), "n too small: 0");
    assert_eq!(p_minus_one(2, 10, false).unwrap_err(), "n too small: 2");
    assert_eq!(p_minus_one(2, 1000, false).unwrap_err(), "n too small: 2");
    assert_eq!(p_minus_one(15, 81, false).unwrap_err(), "max_prime too large: 81");
    assert_eq!(MAX_PRIMES, 80);
}

#[test]
fn a_prime_is_its_own_factor() {
    assert_eq!(p_minus_one(3, 10, false).unwrap(), vec![3]);
    assert_eq!(p_minus_one(977, 80, false).unwrap(), vec![977]);
    assert_eq!(p_minus_one(977, 0, false).unwrap(), vec![977]);
}

#[test]
fn smooth_factors_are_found() {
    assert_eq!(p_minus_one(15, 10, false).unwrap(), vec![3, 5]);
    assert_eq!(p_minus_one(1403, 10, false).unwrap(), vec![23, 61]);
    assert_eq!(p_minus_one(299, 13, false).unwrap(), vec![13, 23]);
    assert_eq!(p_minus_one(3 * 5 * 7, 10, false).unwrap(), vec![3, 5, 7]);
    assert_eq!(p_minus_one(6, 10, false).unwrap(), vec![2, 3]);
    assert_eq!(p_minus_one(210, 80, false).unwrap(), vec![2, 3, 5, 7]);
    assert_eq!(p_minus_one(1001, 80, false).unwrap(), vec![7, 11, 13]);
    assert_eq!(p_minus_one(221, 5, false).unwrap(), vec![13, 17]);
}

#[test]
fn the_method_gives_up() {
    let text = "P minus one does not work for this setup. Use another algorithm or choose a higher max prime.";
    assert_eq!(p_minus_one(4, 10, false).unwrap_err(), text);
    assert_eq!(p_minus_one(9, 0, false).unwrap_err(), text);
    assert_eq!(p_minus_one(15, 0, false).unwrap_err(), text);
    assert_eq!(p_minus_one(360, 80, false).unwrap_err(), text);
}

#[test]
fn what_comes_back_are_prime_factors() {
    for n in 3..400u128 {
        if let Ok(list) = p_minus_one(n, 20, false) {
            assert!(!list.is_empty());
            assert!(list.windows(2).all(|w| w[0] < w[1]));
            for p in list {
                assert_eq!(n % p, 0);
                assert!((2..p).all(|d| p % d != 0));
            }
        }
    }
}
