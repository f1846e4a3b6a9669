use plexcryptool::math::gcd::{alt_egcd, alt_gcd, egcd, gcd};

#[test]
fn test_alt_gcd() {
    assert_eq!(egcd(12193, 123213), alt_egcd(12193, 123213, false));
    assert_eq!(egcd(52193, 123212), alt_egcd(52193, 123212, false));
}

#[test]
fn extended_gcd_satisfies_bezout() {
    let pairs: [(i128, i128); 8] =
        [(0, 0), (0, 7), (7, 0), (1, 1), (12, 18), (12193, 123213), (240, 46), (977, 269)];
    for (a, b) in pairs {
        let lib = egcd(a as u128, b as u128);
        let (small, large) = if a > b { (b, a) } else { (a, b) };
        assert_eq!(lib.len(), 3);
        assert_eq!(small * lib[1] + large * lib[2], lib[0]);
        assert_eq!(lib[0] as u128, gcd(a as u128, b as u128));

        let own = alt_egcd(a, b, false);
        assert_eq!(own.len(), 3);
        assert_eq!(a * own[1] + b * own[2], own[0]);
        assert_eq!(own[0], lib[0]);

        let ordered = alt_egcd(a, b, true);
        assert_eq!(small * ordered[1] + large * ordered[2], ordered[0]);
    }
}

#[test]
fn alt_egcd_follows_the_recursion() {
    assert_eq!(alt_egcd(0, 5, false), vec![5, 0, 1]);
    assert_eq!(alt_egcd(5, 0, false), vec![5, 1, 0]);
    assert_eq!(alt_egcd(5, 0, true), vec![5, 0, 1]);
    assert_eq!(alt_egcd(240, 46, false), vec![2, -9, 47]);
    assert_eq!(alt_egcd(46, 240, false), vec![2, 47, -9]);
    assert_eq!(alt_egcd(240, 46, true), vec![2, 47, -9]);
}

#[test]
fn gcd_of_known_pairs() {
    assert_eq!(gcd(0, 0), 0);
    assert_eq!(gcd(0, 9), 9);
    assert_eq!(gcd(9, 0), 9);
    assert_eq!(gcd(12, 18), 6);
    assert_eq!(gcd(17, 31), 1);
    assert_eq!(gcd(12193, 123213), 1);
    assert_eq!(alt_gcd(0, 0), 0);
    assert_eq!(alt_gcd(0, 9), 9);
    assert_eq!(alt_gcd(12, 18), 6);
    assert_eq!(alt_gcd(1 << 100, 1 << 90), 1 << 90);
    for (a, b) in [(48u128, 180u128), (1071, 462), (u128::MAX, 3), (977, 269)] {
        assert_eq!(gcd(a, b), alt_gcd(a, b));
    }
}
