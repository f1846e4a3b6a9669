use plexcryptool::math::gallois::GalloisField;

#[test]
fn test_gallois_sqrt() {
    let field = GalloisField::new(977, true, None).unwrap();
    assert_eq!(field.sqrt(269).expect("function says there is no root but there is"), (313, 664));
    assert_eq!(field.sqrt(524).expect("function says there is no root but there is"), (115, 862));
    assert_eq!(field.sqrt(275).expect("function says there is no root but there is"), (585, 392));
}

#[test]
fn test_gallois_reduce() {
    let field = GalloisField::new(977, true, None).unwrap();
    for i in 0..976 {
        assert_eq!(field.reduce(i), i as u128);
    }
}

#[test]
fn test_gallois_add() {
    let field = GalloisField::new(977, true, None).unwrap();
    let ns = [132, 1232, 121, 424];
    for i in 0..976u128 {
        for n in ns {
            assert_eq!(field.add(i, n), field.reduce((i + n) as i128));
        }
    }

    let field = GalloisField::new(8, true, None).unwrap();
    assert_eq!(field.add(0b1, 0b10), field.reduce(0b11));
    assert_eq!(field.add(0b11, 0b10), field.reduce(0b01));
    assert_eq!(field.add(0b101, 0b1010), field.reduce(0b1111));
    assert_eq!(field.add(0b1010101, 0b10101010), field.reduce(0b11111111));

    let field = GalloisField::new(16, true, None).unwrap();
    assert_eq!(field.add(0b1, 0b10), field.reduce(0b11));
    assert_eq!(field.add(0b11, 0b10), field.reduce(0b01));
    assert_eq!(field.add(0b1111, 0b1011), field.reduce(0b0100));
    assert_eq!(field.add(0b101, 0b1010), field.reduce(0b1111));
    assert_eq!(field.add(0b1000, 0b111), field.reduce(0b1111));
    assert_eq!(field.add(0b1010101, 0b10101010), field.reduce(0b11111111));
}

#[test]
fn test_gallois_reduce_c2() {
    let field = GalloisField::new(16, true, None).unwrap();
    for i in 0..0xf {
        assert_eq!(field.reduce(i), i as u128);
        assert_eq!(field.reduce(i), i as u128);
    }
}

#[test]
fn test_gallois_inverse() {
    let field = GalloisField::new(31, true, None).unwrap();
    assert_eq!(field.inverse(12).unwrap(), 13);
    assert_eq!(field.inverse(28).unwrap(), 10);
    assert!(field.inverse(0).is_err());

    let field = GalloisField::new(83, true, None).unwrap();
    assert_eq!(field.inverse(6).unwrap(), 14);
    assert_eq!(field.inverse(54).unwrap(), 20);
    assert!(field.inverse(0).is_err());

    let field = GalloisField::new(23, true, None).unwrap();
    assert_eq!(field.inverse(17).unwrap(), 19);
    assert_eq!(field.inverse(7).unwrap(), 10);
    assert!(field.inverse(0).is_err());

    let field = GalloisField::new(16, true, None).unwrap();
    assert_eq!(field.inverse(0x130).unwrap(), 0);
    assert!(field.inverse(0).is_err());
}

#[test]
fn test_calc_char() {
    assert_eq!(GalloisField::new(83, true, None).unwrap().calc_char(), 83);
    assert_eq!(GalloisField::new(1151, true, None).unwrap().calc_char(), 1151);
    assert_eq!(GalloisField::new(2, true, None).unwrap().calc_char(), 2);
}

#[test]
fn test_calc_char_c2() {
    assert_eq!(GalloisField::new(8, true, None).unwrap().calc_char(), 2);
    assert_eq!(GalloisField::new(16, true, None).unwrap().calc_char(), 2);
    assert_eq!(GalloisField::new(256, true, None).unwrap().calc_char(), 2);
}

#[test]
fn test_display_c2() {
    let f = GalloisField::new(16, true, None).unwrap();
    assert_eq!(f.display(0b01), String::from("1"));
    assert_eq!(f.display(0b10), String::from("α^1"));
    assert_eq!(f.display(0b11), String::from("α^1 + 1"));
    assert_eq!(f.display(0b100), String::from("α^2"));
    assert_eq!(f.display(0b101), String::from("α^2 + 1"));
    assert_eq!(f.display(0b110), String::from("α^2 + α^1"));
    assert_eq!(f.display(0b111), String::from("α^2 + α^1 + 1"));
    assert_eq!(f.display(0b1001), String::from("α^3 + 1"));
    assert_eq!(f.display(0b1010), String::from("α^3 + α^1"));
    assert_eq!(f.display(0b1100), String::from("α^3 + α^2"));
    assert_eq!(f.display(0b1101), String::from("α^3 + α^2 + 1"));
    assert_eq!(f.display(0b1110), String::from("α^3 + α^2 + α^1"));
    assert_eq!(f.display(0b1111), String::from("α^3 + α^2 + α^1 + 1"));

    let f = GalloisField::new(8, true, None).unwrap();
    assert_eq!(f.display(0b01), String::from("1"));
    assert_eq!(f.display(0b10), String::from("α^1"));
    assert_eq!(f.display(0b11), String::from("α^1 + 1"));
    assert_eq!(f.display(0b100), String::from("α^2"));
    assert_eq!(f.display(0b101), String::from("α^2 + 1"));
    assert_eq!(f.display(0b110), String::from("α^2 + α^1"));
    assert_eq!(f.display(0b111), String::from("α^2 + α^1 + 1"));
}

#[test]
fn display_writes_high_powers_in_decimal() {
    let f = GalloisField::new(0xFFFF_FFFE_0000_0000, false, Some(0xFFFF_FFFF_FFFF_FFFF)).unwrap();
    assert_eq!(f.display(0), String::new());
    assert_eq!(f.display(1 << 10), String::from("α^10"));
    assert_eq!(f.display((1 << 63) | (1 << 12) | 1), String::from("α^63 + α^12 + 1"));
}

#[test]
fn new_tells_prime_from_other_bases() {
    let f = GalloisField::new(977, false, None).unwrap();
    assert!(f.prime_base);
    assert_eq!(f.cha, 977);
    assert_eq!(f.relation, None);
    let f = GalloisField::new(977, false, Some(5)).unwrap();
    assert_eq!(f.relation, Some(5));
    let f = GalloisField::new(16, false, None).unwrap();
    assert!(!f.prime_base);
    assert_eq!(f.cha, 2);
    assert_eq!(f.relation, Some(0x13));
    assert_eq!(GalloisField::new(8, false, None).unwrap().relation, Some(0xb));
    assert_eq!(GalloisField::new(256, false, None).unwrap().relation, Some(0x11b));
    assert_eq!(GalloisField::new(256, false, Some(0x11d)).unwrap().relation, Some(0x11d));
    let f = GalloisField::new(0xFFFF_FFFE_0000_0000, false, Some(7)).unwrap();
    assert!(!f.prime_base);
}

#[test]
fn new_refuses_a_base_without_usable_relation() {
    let e = GalloisField::new(15, false, None).unwrap_err();
    assert_eq!(e.base, 15);
    assert_eq!(e.to_string(), "You did not specify a relation and none could be found.");
    assert!(GalloisField::new(0, false, None).is_err());
    assert!(GalloisField::new(1, false, None).is_err());
    assert!(GalloisField::new(16, false, Some(0)).is_err());
    assert!(GalloisField::new(16, false, Some(1 << 64)).is_err());
    assert!(GalloisField::new(16, false, Some(u64::MAX as u128)).is_ok());
}

#[test]
fn reduce_handles_negative_numbers() {
    let field = GalloisField::new(977, false, None).unwrap();
    assert_eq!(field.reduce(-1), 976);
    assert_eq!(field.reduce(-977), 0);
    assert_eq!(field.reduce(-978), 976);
    assert_eq!(field.reduce(977), 0);
    assert_eq!(field.reduce(i128::MIN), (977 - (1u128 << 127) % 977) % 977);
    assert_eq!(field.reduce(i128::MAX), (i128::MAX % 977) as u128);
    assert_eq!(field.reduce_unsigned(u128::MAX), u128::MAX % 977);
    assert_eq!(field.reduce_pos(1000), 23);
}

#[test]
fn reduce_by_a_relation() {
    let field = GalloisField::new(16, false, None).unwrap();
    assert_eq!(field.reduce(0x13), 0x13);
    assert_eq!(field.reduce(0x14), 0x14 ^ 0x13);
    assert_eq!(field.reduce(0x130), 0);
    assert_eq!(field.reduce(0x100001), 0x7);
}

#[test]
fn additive_inverse_is_base_minus_residue() {
    let field = GalloisField::new(977, false, None).unwrap();
    assert_eq!(field.a_inverse(313), 664);
    assert_eq!(field.a_inverse(0), 977);
    assert_eq!(field.a_inverse(977), 977);
    assert_eq!(field.a_inverse(978), 976);
    let field = GalloisField::new(16, false, None).unwrap();
    assert_eq!(field.a_inverse(5), 11);
}

#[test]
fn pow_in_the_field() {
    let field = GalloisField::new(977, false, None).unwrap();
    assert_eq!(field.pow(269, 488), 1);
    assert_eq!(field.pow(2, 10), 47);
    assert_eq!(field.pow(1000, 1), 1000);
    assert_eq!(field.pow(1000, 0), 1);
    assert_eq!(field.pow(1000, 2), 529);
}

#[test]
fn inverse_times_number_is_one() {
    for p in [2u128, 3, 5, 31, 83, 977] {
        let field = GalloisField::new(p, false, None).unwrap();
        let e = field.inverse(0).unwrap_err();
        assert_eq!(e.n, 0);
        assert_eq!(e.to_string(), "inverse for 0 does not exist");
        for n in 1..p {
            let inv = field.inverse(n).unwrap();
            assert!(inv < p);
            assert_eq!(n * inv % p, 1);
            assert_eq!(field.checked_inverse(n).unwrap().unwrap(), inv);
        }
        assert_eq!(field.inverse(p + 1).unwrap(), 1);
        let e = field.inverse(3 * p).unwrap_err();
        assert_eq!(e.n, 3 * p);
    }
}

#[test]
fn checked_inverse_says_where_inverse_cannot_be_asked() {
    let prime = GalloisField::new(31, false, None).unwrap();
    let inv = prime.checked_inverse(u128::MAX).unwrap().unwrap();
    assert_eq!((u128::MAX % 31) * inv % 31, 1);
    assert_eq!(prime.inverse(u128::MAX).unwrap(), inv);
    assert!(prime.checked_inverse(0).unwrap().is_err());
    assert!(prime.checked_inverse(31).unwrap().is_err());
    let field = GalloisField::new(16, false, None).unwrap();
    assert!(field.checked_inverse(u128::MAX).is_none());
    assert_eq!(prime.checked_inverse(12).unwrap().unwrap(), 13);
    let field = GalloisField::new(8, false, None).unwrap();
    assert_eq!(field.checked_inverse(3).unwrap().unwrap(), 3);
    assert!(field.checked_inverse(5).is_none());
    assert!(field.checked_inverse(0).unwrap().is_err());
}

#[test]
fn divide_by_the_inverse() {
    let field = GalloisField::new(31, false, None).unwrap();
    assert_eq!(field.divide(1, 12).unwrap(), 13);
    assert_eq!(field.divide(5, 12).unwrap(), 5 * 13 % 31);
    assert_eq!(field.divide(u128::MAX, 12).unwrap(), (u128::MAX % 31) * 13 % 31);
    let e = field.divide(5, 0).unwrap_err();
    assert_eq!(e.to_string(), "division by zero");
    for a in 0..31u128 {
        for b in 1..31u128 {
            let q = field.divide(a, b).unwrap();
            assert_eq!(q * b % 31, a);
        }
    }
}

#[test]
fn sqrt_gives_roots_or_nothing() {
    for p in [3u128, 5, 7, 13, 17, 41, 97, 977] {
        let field = GalloisField::new(p, false, None).unwrap();
        let mut found = 0;
        for a in 0..p {
            match field.sqrt(a) {
                Ok((w1, w2)) => {
                    found += 1;
                    assert_eq!(w1 * w1 % p, a);
                    assert_eq!(w2 * w2 % p, a);
                    assert_eq!(w2, p - w1);
                },
                Err(e) => {
                    assert_eq!(e.to_string(), "no root in the specified gallois field");
                    for w in 1..p {
                        assert!(w * w % p != a);
                    }
                },
            }
        }
        assert_eq!(found, (p - 1) / 2);
    }
}

#[test]
fn sqrt_in_the_smallest_field() {
    let field = GalloisField::new(3, false, None).unwrap();
    assert_eq!(field.sqrt(1).unwrap(), (1, 2));
    assert!(field.sqrt(2).is_err());
    assert!(field.sqrt(0).is_err());
    assert_eq!(field.sqrt(4).unwrap(), (1, 2));
    assert!(field.sqrt(5).is_err());
    let field = GalloisField::new(977, false, None).unwrap();
    assert_eq!(field.sqrt(269 + 977).unwrap(), (313, 664));
    assert!(field.sqrt(977).is_err());
}

#[test]
fn order_of_elements() {
    let field = GalloisField::new(7, false, None).unwrap();
    assert_eq!(field.calc_ord(0), None);
    assert_eq!(field.calc_ord(2), Some(3));
    assert_eq!(field.calc_ord(3), Some(6));
    assert_eq!(field.calc_ord(6), Some(2));
    assert_eq!(field.calc_ord(1), Some(2));
}

#[test]
fn field_has_a_name() {
    assert_eq!(GalloisField::new(977, false, None).unwrap().to_string(), "F_977");
    assert_eq!(GalloisField::new(16, false, None).unwrap().to_string(), "F_16");
}

#[test]
fn checked_divide_says_where_divide_cannot_be_asked() {
    let prime = GalloisField::new(31, false, None).unwrap();
    assert_eq!(prime.checked_divide(5, 12).unwrap().unwrap(), 5 * 13 % 31);
    assert!(prime.checked_divide(5, 0).unwrap().is_err());
    assert_eq!(prime.checked_divide(5, u128::MAX).unwrap().unwrap() * (u128::MAX % 31) % 31, 5);
    assert!(prime.checked_divide(5, 62).unwrap().is_err());
    assert!(prime.divide(5, 31).is_err());
    let field = GalloisField::new(8, false, None).unwrap();
    assert_eq!(field.checked_divide(2, 3).unwrap().unwrap(), 6);
    assert_eq!(field.divide(2, 3).unwrap(), 6);
    assert_eq!(field.checked_divide(7, 3).unwrap().unwrap(), 21 ^ (0xb << 1) ^ 0xb ^ 0xb);
    assert!(field.checked_divide(2, 5).is_none());
    assert!(field.checked_divide(u128::MAX, 3).is_none());
    assert!(field.checked_divide(1 << 63, 3).is_none());
    assert!(field.checked_divide(2, 0).unwrap().is_err());
    assert!(field.checked_divide(2, u128::MAX).is_none());
}
