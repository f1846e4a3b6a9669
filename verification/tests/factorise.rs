use plexcryptool::math::factorise::prime_factors;

#[test]
fn test_prime_factors() {
    assert_eq!(prime_factors(360, true), vec![2, 2, 2, 3, 3, 5]);
    assert_eq!(prime_factors(3603234, true), vec![2, 3, 223, 2693]);
}

#[test]
fn prime_factors_of_small_numbers() {
    assert_eq!(prime_factors(0, false), Vec::<u128>::new());
    assert_eq!(prime_factors(1, false), Vec::<u128>::new());
    assert_eq!(prime_factors(2, false), vec![2]);
    assert_eq!(prime_factors(4, false), vec![2, 2]);
    assert_eq!(prime_factors(977, false), vec![977]);
    assert_eq!(prime_factors(1 << 20, false), vec![2; 20]);
}

#[test]
fn prime_factors_multiply_to_the_number() {
    for n in 2..500u128 {
        let factors = prime_factors(n, false);
        assert_eq!(factors.iter().product::<u128>(), n);
        assert!(factors.windows(2).all(|w| w[0] <= w[1]));
    }
}
