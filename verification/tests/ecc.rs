use plexcryptool::math::ecc::{ElipticCurve, ElipticCurvePoint};
use plexcryptool::math::gallois::GalloisField;

#[test]
fn test_eliptic_curve_new() {
    let f = GalloisField::new(7, true, None).unwrap();
    let _ = ElipticCurve::new(f, 1, 2, true).expect_err("invalid ec can be created");
    let _ = ElipticCurve::new(f, -3, 3, true).expect("ec cant be created");
}

#[test]
fn test_check_point() {
    let f = GalloisField::new(13, true, None).unwrap();
    let ec = ElipticCurve::new(f, -3, 3, true).expect("ec cant be created");
    // real points
    let _p = vec![
        ec.new_point(0, 4).unwrap(),
        ec.new_point(0, 9).unwrap(),
        ec.new_point(1, 1).unwrap(),
        ec.new_point(1, 1).unwrap(),
        ec.new_point(4, 4).unwrap(),
        ec.new_point(4, 9).unwrap(),
        ec.new_point(5, 3).unwrap(),
        ec.new_point(5, 10).unwrap(),
        ec.new_point(7, 0).unwrap(),
        ec.new_point(8, 6).unwrap(),
        ec.new_point(9, 4).unwrap(),
        ec.new_point(9, 9).unwrap(),
        ec.new_point(11, 1).unwrap(),
        ec.new_point(11, 12).unwrap(),
    ];
    // values that are no points of the curve
    let _np = vec![
        ec.new_point(0, 5).unwrap_err(),
        ec.new_point(1, 9).unwrap_err(),
        ec.new_point(1, 4).unwrap_err(),
    ];
}

#[test]
fn test_add_points() {
    let f = GalloisField::new(13, true, None).unwrap();
    let ec = ElipticCurve::new(f, -3, 3, true).expect("ec cant be created");
    let p1 = ec.new_point(1, 1).expect("point is on ec but an error occurs");
    let p2 = ec.new_point(5, 3).expect("point is on ec but an error occurs");
    let p3 = ec.new_point(4, 4).expect("point is on ec but an error occurs");
    let p4 = ec.new_point(8, 6).expect("point is on ec but an error occurs");
    let p5 = ec.new_point(11, 12).expect("point is on ec but an error occurs");
    assert_eq!(ec.add(p1, p2).expect("error for possible addition"), p3);
    assert_eq!(ec.add(p2, p4).expect("error for possible addition"), p1);
    assert_eq!(ec.add(p1, p1).expect("error for possible addition"), p5);
    let ec = ElipticCurve::new(f, 7, 11, true).expect("ec cant be created");
    let p1 = ec.new_point(4, 5).expect("point is on ec but an error occurs");
    let p2 = ec.new_point(6, 10).expect("point is on ec but an error occurs");
    assert_eq!(ec.add(p1, p1).expect("error for possible addition"), p2);

    let f = GalloisField::new(17, true, None).unwrap();
    let ec = ElipticCurve::new(f, -3, 3, true).expect("ec cant be created");
    let p1 = ec.new_point(3, 2).expect("point is on ec but an error occurs");
    let p2 = ec.new_point(11, 3).expect("point is on ec but an error occurs");
    let p3 = ec.new_point(7, 6).expect("point is on ec but an error occurs");
    assert_eq!(ec.add(p1, p2).expect("error for possible addition"), p3);
    let p4 = ec.new_point(9, 5).expect("point is on ec but an error occurs");
    let p5 = ec.new_point(14, 11).expect("point is on ec but an error occurs");
    assert_eq!(ec.add(p4, p4).expect("error for possible addition"), p5);

    let f = GalloisField::new(11, true, None).unwrap();
    let ec = ElipticCurve::new(f, 1, 1, true).expect("ec cant be created");
    let p1 = ec.new_point(3, 3).expect("point is on ec but an error occurs");
    let p2 = ec.new_point(6, 5).expect("point is on ec but an error occurs");
    let p3 = ec.new_point(0, 10).expect("point is on ec but an error occurs");
    assert_eq!(ec.add(p1, p2).expect("error for possible addition"), p3);

    let f = GalloisField::new(19, true, None).unwrap();
    let ec = ElipticCurve::new(f, 7, 13, true).expect("ec cant be created");
    let p1 = ec.new_point(2, 15).expect("point is on ec but an error occurs");
    let p2 = ec.new_point(6, 10).expect("point is on ec but an error occurs");
    let p3 = ec.new_point(9, 8).expect("point is on ec but an error occurs");
    assert_eq!(ec.add(p1, p2).expect("error for possible addition"), p3);
    let ec = ElipticCurve::new(f, 10, 3, true).expect("ec cant be created");
    let p1 = ec.new_point(5, 11).expect("point is on ec but an error occurs");
    let p2 = ec.new_point(5, 8).expect("point is on ec but an error occurs");
    assert_eq!(ec.add(p1, p2).expect("error for possible addition"), ec.INFINITY_POINT);
    let ec = ElipticCurve::new(f, 7, 13, true).expect("ec cant be created");
    let p1 = ec.new_point(7, 5).expect("point is on ec but an error occurs");
    let p2 = ec.new_point(2, 15).expect("point is on ec but an error occurs");
    assert_eq!(ec.add(p1, p1).expect("error for possible addition"), p2);
}

#[test]
fn test_mul_points() {
    let f = GalloisField::new(13, true, None).unwrap();
    let ec = ElipticCurve::new(f, 7, 11, true).expect("ec cant be created");
    let p1 = ec.new_point(4, 5).expect("point is on ec but an error occurs");
    let p2 = ec.new_point(6, 10).expect("point is on ec but an error occurs");
    let p3 = ec.new_point(4, 8).expect("point is on ec but an error occurs");
    let p4 = ec.new_point(6, 3).expect("point is on ec but an error occurs");
    assert_eq!(ec.mul(p1, 2).expect("error for possible addition"), p2);
    assert_eq!(ec.mul(p1, 4).expect("error for possible addition"), p3);
    assert_eq!(ec.mul(p3, 2).expect("error for possible addition"), p4);
    assert_eq!(ec.mul(p2, 4).expect("error for possible addition"), p4);

    let f = GalloisField::new(13, true, None).unwrap();
    let ec = ElipticCurve::new(f, -3, 3, true).expect("ec cant be created");
    let p1 = ec.new_point(1, 1).expect("point is on ec but an error occurs");
    let p2 = ec.new_point(11, 12).expect("point is on ec but an error occurs");
    assert_eq!(ec.mul(p1, 2).expect("error for possible addition"), p2);

    let f = GalloisField::new(17, true, None).unwrap();
    let ec = ElipticCurve::new(f, 11, 3, true).expect("ec cant be created");
    let p1 = ec.new_point(5, 8).expect("point is on ec but an error occurs");
    let p2 = ec.new_point(6, 8).expect("point is on ec but an error occurs");
    assert_eq!(ec.mul(p1, 10).expect("error for possible addition"), p2);
}

#[test]
fn singular_curves_are_refused() {
    let f = GalloisField::new(7, false, None).unwrap();
    assert_eq!(ElipticCurve::new(f, 1, 2, false).unwrap_err(), "discriminant is zero");
    assert_eq!(ElipticCurve::new(f, 0, 0, false).unwrap_err(), "discriminant is zero");
    let ec = ElipticCurve::new(f, -3, 3, false).unwrap();
    assert_eq!(ec.a, 4);
    assert_eq!(ec.b, 3);
    assert_eq!(ec.to_string(), "F(X, Y) = Y² - X³ -4X - 3");
}

#[test]
fn new_point_agrees_with_check_point() {
    let f = GalloisField::new(13, false, None).unwrap();
    let ec = ElipticCurve::new(f, -3, 3, false).unwrap();
    let mut on_curve = 0;
    for r in 0..30u128 {
        for s in 0..30u128 {
            let p = ElipticCurvePoint::new(r, s);
            let checked = ec.check_point(p, false);
            match ec.new_point(r, s) {
                Ok(q) => {
                    assert!(checked);
                    assert_eq!(q, p);
                    assert_eq!(ec.poly(r, s), 0);
                    on_curve += 1;
                },
                Err(msg) => {
                    assert!(!checked);
                    assert_eq!(msg, "the point you want to create is not on the EC");
                    assert!(ec.poly(r, s) != 0);
                },
            }
        }
    }
    assert!(on_curve > 0);
    assert!(ec.check_point(ec.INFINITY_POINT, false));
    assert_eq!(ec.poly(1, 2), 3);
}

#[test]
fn a_point_and_its_negative_add_up_to_infinity() {
    for (p, a, b) in [(13u128, -3i128, 3i128), (17, 11, 3), (19, 7, 13), (2, 0, 1), (3, 1, 1)] {
        let f = GalloisField::new(p, false, None).unwrap();
        let ec = ElipticCurve::new(f, a, b, false).unwrap();
        for r in 0..p {
            for s in 0..p {
                if let Ok(point) = ec.new_point(r, s) {
                    let negative = ec.neg(point);
                    assert_eq!(negative.r, r);
                    assert_eq!(negative.s, p - s);
                    assert!(ec.check_point(negative, false));
                    assert_eq!(ec.add(point, negative).unwrap(), ec.INFINITY_POINT);
                    assert_eq!(ec.add(negative, point).unwrap(), ec.INFINITY_POINT);
                }
            }
        }
        assert_eq!(ec.neg(ec.INFINITY_POINT), ec.INFINITY_POINT);
    }
}

#[test]
fn infinity_is_the_identity() {
    let f = GalloisField::new(13, false, None).unwrap();
    let ec = ElipticCurve::new(f, 7, 11, false).unwrap();
    let p = ec.new_point(4, 5).unwrap();
    let inf = ec.INFINITY_POINT;
    assert_eq!(ec.add(inf, inf).unwrap(), inf);
    assert_eq!(ec.add(p, inf).unwrap(), p);
    assert_eq!(ec.add(inf, p).unwrap(), p);
}

#[test]
fn sums_stay_on_the_curve() {
    let f = GalloisField::new(19, false, None).unwrap();
    let ec = ElipticCurve::new(f, 7, 13, false).unwrap();
    let mut points = vec![ec.INFINITY_POINT];
    for r in 0..19 {
        for s in 0..19 {
            if let Ok(p) = ec.new_point(r, s) {
                points.push(p);
            }
        }
    }
    for p1 in &points {
        for p2 in &points {
            let sum = ec.add(*p1, *p2).unwrap();
            assert!(ec.check_point(sum, false));
            assert_eq!(sum, ec.add(*p2, *p1).unwrap());
        }
    }
}

#[test]
fn coordinates_need_not_be_reduced() {
    let f = GalloisField::new(13, false, None).unwrap();
    let ec = ElipticCurve::new(f, -3, 3, false).unwrap();
    let p1 = ec.new_point(1, 1).unwrap();
    let shifted = ec.new_point(14, 27).unwrap();
    assert_eq!(ec.add(p1, shifted).unwrap(), ec.new_point(11, 12).unwrap());
    let p2 = ec.new_point(5 + 13, 3).unwrap();
    assert_eq!(ec.add(p1, p2).unwrap(), ec.new_point(4, 4).unwrap());
}

#[test]
fn points_off_the_curve_are_refused() {
    let f = GalloisField::new(13, false, None).unwrap();
    let ec = ElipticCurve::new(f, -3, 3, false).unwrap();
    let good = ec.new_point(1, 1).unwrap();
    let bad = ElipticCurvePoint::new(0, 5);
    assert_eq!(ec.add(bad, good).unwrap_err(), "{p1} is not a valid point");
    assert_eq!(ec.add(good, bad).unwrap_err(), "{p2} is not a valid point");
    assert_eq!(ec.add(bad, bad).unwrap_err(), "{p1} is not a valid point");
    assert_eq!(ec.mul(bad, 3).unwrap_err(), "invalid point");
    assert_eq!(ec.mul(good, 0).unwrap_err(), "point multiplication works only if t > 0");
}

#[test]
fn curves_over_other_fields_refuse_arithmetic() {
    let f = GalloisField::new(16, false, None).unwrap();
    let ec = ElipticCurve::new(f, 1, 1, false).unwrap();
    let p = ec.INFINITY_POINT;
    assert_eq!(ec.add(p, p).unwrap_err(), "Only prime fields are supported currently");
    assert_eq!(ec.mul(p, 1).unwrap(), p);
    assert_eq!(ec.mul(p, 2).unwrap_err(), "Only prime fields are supported currently");
    assert!(ec.check_point(p, false));
}

#[test]
fn multiples_are_repeated_sums() {
    let f = GalloisField::new(13, false, None).unwrap();
    let ec = ElipticCurve::new(f, 7, 11, false).unwrap();
    let p = ec.new_point(4, 5).unwrap();
    assert_eq!(ec.mul(p, 1).unwrap(), p);
    assert_eq!(ec.mul(p, 2).unwrap(), ec.add(p, p).unwrap());
    assert_eq!(ec.mul(p, 2).unwrap(), ec.new_point(6, 10).unwrap());
    assert_eq!(ec.mul(p, 4).unwrap(), ec.new_point(4, 8).unwrap());
    let double = ec.mul(p, 2).unwrap();
    assert_eq!(ec.mul(p, 4).unwrap(), ec.mul(double, 2).unwrap());
    let mut sum = p;
    for t in 2..40usize {
        sum = ec.add(sum, p).unwrap();
        assert_eq!(ec.mul(p, t).unwrap(), sum);
    }
}

#[test]
fn points_are_equal_by_their_coordinates() {
    let a = ElipticCurvePoint { r: 1, s: 2, is_infinity_point: true };
    let b = ElipticCurvePoint { r: 3, s: 4, is_infinity_point: true };
    let c = ElipticCurvePoint::new(1, 2);
    assert_eq!(a, b);
    assert!(a != c);
    assert_eq!(c, ElipticCurvePoint::new(1, 2));
    assert!(c != ElipticCurvePoint::new(1, 3));
    assert_eq!(c.to_string(), "(1, 2)");
    assert_eq!(a.to_string(), "(∞ INFINITY)");
}

#[test]
fn curves_over_other_fields_still_know_their_points() {
    let f = GalloisField::new(16, false, None).unwrap();
    let ec = ElipticCurve::new(f, 1, 1, false).unwrap();
    assert_eq!(ec.a, 1);
    assert_eq!(ec.b, 1);
    assert!(ec.check_point(ElipticCurvePoint::new(0, 1), false));
    assert!(!ec.check_point(ElipticCurvePoint::new(1, 1), false));
    assert_eq!(ec.poly(0, 1), 0);
    assert_eq!(ec.poly(1, 2), 1);
    assert_eq!(ec.poly(1, 5), 22 ^ 0x13);
    let negative = ec.neg(ElipticCurvePoint::new(0, 1));
    assert_eq!(negative, ElipticCurvePoint::new(0, 15));
    assert_eq!(ec.neg(ec.INFINITY_POINT), ec.INFINITY_POINT);
    assert_eq!(ElipticCurve::new(f, 0, 0, false).unwrap_err(), "discriminant is zero");
}

#[test]
fn a_point_with_a_vertical_tangent_doubles_to_infinity() {
    let f = GalloisField::new(13, false, None).unwrap();
    let ec = ElipticCurve::new(f, -3, 3, false).unwrap();
    let p = ec.new_point(7, 0).unwrap();
    assert_eq!(ec.add(p, p).unwrap(), ec.INFINITY_POINT);
    assert_eq!(ec.mul(p, 2).unwrap(), ec.INFINITY_POINT);
    assert_eq!(ec.mul(p, 3).unwrap(), p);
    assert_eq!(ec.neg(p), ElipticCurvePoint::new(7, 13));
}

#[test]
fn large_factors_take_one_step_for_each_digit() {
    let f = GalloisField::new(13, false, None).unwrap();
    let ec = ElipticCurve::new(f, 7, 11, false).unwrap();
    let p = ec.new_point(4, 5).unwrap();
    let mut order = 1usize;
    let mut sum = p;
    while sum != ec.INFINITY_POINT {
        sum = ec.add(sum, p).unwrap();
        order += 1;
    }
    assert_eq!(ec.mul(p, order).unwrap(), ec.INFINITY_POINT);
    assert_eq!(ec.mul(p, order + 1).unwrap(), p);
    let big = (usize::MAX / order - 1) * order;
    assert_eq!(ec.mul(p, big).unwrap(), ec.INFINITY_POINT);
    assert_eq!(ec.mul(p, big + 1).unwrap(), p);
}
