use num_bigint::BigInt;
use plexcryptool::cplex::answer::{answer, answer_modexp, Answer};
use plexcryptool::cplex::cli::{
    AlgoActions, AlgoCommand, BinaryActions, BinaryCommand, Cli, Commands, ECCAction, ECCActions,
    ECCAddArgs, ECCMulArgs, ECCNegArgs, FactorizeArgs, Feistel0Args, Feistel0InnerArgs,
    Feistel0SBOXArgs, GalloisAction, GalloisActions, GalloisInverseArgs, GalloisReduceArgs,
    GalloisSqrtArgs, GcdArgs, MathActions, MathCommand, ModexpArgs, ModredArgs, PM1Args, PboxArgs,
    RotateArgs, XorArgs,
};
use plexcryptool::math::ecc::ElipticCurvePoint;

fn math(action: MathActions) -> Answer {
    answer(&Cli { command: Commands::Math(MathCommand { action }), machine: false, verbose: false })
}

fn binary(action: BinaryActions) -> Answer {
    answer(&Cli {
        command: Commands::Binary(BinaryCommand { action }),
        machine: false,
        verbose: false,
    })
}

fn algo(action: AlgoActions) -> Answer {
    answer(&Cli { command: Commands::Algo(AlgoCommand { action }), machine: true, verbose: true })
}

fn gallois(field: u128, relation: Option<u128>, action: GalloisActions) -> Answer {
    math(MathActions::Gallois(GalloisAction { field, relation, action }))
}

fn ecc(field: u128, a: i128, b: i128, action: ECCActions) -> Answer {
    gallois(field, None, GalloisActions::ECC(ECCAction { a, b, action }))
}

#[test]
fn version_needs_no_computation() {
    let cli = Cli { command: Commands::Version, machine: false, verbose: false };
    assert!(matches!(answer(&cli), Answer::Version));
}

#[test]
fn binary_commands() {
    let rotate = |left, base, shift_width| {
        binary(BinaryActions::Rotate(RotateArgs { left, base, shift_width }))
    };
    assert!(matches!(rotate(true, 0x8000_0001, 1), Answer::Number(3)));
    assert!(matches!(rotate(false, 3, 1), Answer::Number(0x8000_0001)));
    assert!(matches!(rotate(false, 3, 33), Answer::Number(0x8000_0001)));
    assert!(matches!(binary(BinaryActions::Xor(XorArgs { a: 12, b: 10 })), Answer::Number(6)));
    assert!(matches!(
        binary(BinaryActions::Pbox(PboxArgs { n: 0b11110000 })),
        Answer::Number(0b10110100)
    ));
}

#[test]
fn algo_commands() {
    assert!(matches!(
        algo(AlgoActions::Feistel0Inner(Feistel0InnerArgs { input: 0x1234, key: 0x2345 })),
        Answer::Number(0x0aed)
    ));
    assert!(matches!(
        algo(AlgoActions::Feistel0SBOX(Feistel0SBOXArgs { index: 2 })),
        Answer::Number(9)
    ));
    assert!(matches!(
        algo(AlgoActions::Feistel0SBOX(Feistel0SBOXArgs { index: 0xf })),
        Answer::Refused
    ));
    let encrypted =
        algo(AlgoActions::Feistel0(Feistel0Args { input: 0xb00b00, key: 0x1337, decrypt: false }));
    let block = match encrypted {
        Answer::Number(block) => block as u32,
        other => panic!("{:?}", other),
    };
    assert!(block != 0xb00b00);
    assert!(matches!(
        algo(AlgoActions::Feistel0(Feistel0Args { input: block, key: 0x1337, decrypt: true })),
        Answer::Number(0xb00b00)
    ));
}

#[test]
fn modexp_reads_decimal_text() {
    let run = |base: &str, exp: &str, field: &str| {
        math(MathActions::Modexp(ModexpArgs {
            base: base.to_string(),
            exp: exp.to_string(),
            field: field.to_string(),
        }))
    };
    match run("2", "10", "1000") {
        Answer::Big(value) => assert_eq!(value, BigInt::from(24)),
        other => panic!("{:?}", other),
    }
    match run("123456789012345678901234567890", "3", "1000000007") {
        Answer::Big(value) => {
            let base: BigInt = "123456789012345678901234567890".parse().unwrap();
            assert_eq!(value, base.modpow(&BigInt::from(3), &BigInt::from(1000000007)));
        },
        other => panic!("{:?}", other),
    }
    match run("5", "1", "0") {
        Answer::Big(value) => assert_eq!(value, BigInt::from(5)),
        other => panic!("{:?}", other),
    }
    assert!(matches!(run("5", "2", "0"), Answer::Refused));
    assert!(matches!(run("five", "2", "7"), Answer::Refused));
    assert!(matches!(run("5", "", "7"), Answer::Refused));
    assert!(matches!(run("5", "2", "0x7"), Answer::Refused));
}

#[test]
fn modexp_on_read_arguments() {
    let some = |n: i64| Some(BigInt::from(n));
    match answer_modexp(some(3), some(4), some(5), false) {
        Answer::Big(value) => assert_eq!(value, BigInt::from(1)),
        other => panic!("{:?}", other),
    }
    match answer_modexp(some(3), some(0), some(0), false) {
        Answer::Big(value) => assert_eq!(value, BigInt::from(1)),
        other => panic!("{:?}", other),
    }
    assert!(matches!(answer_modexp(None, some(4), some(5), false), Answer::Refused));
    assert!(matches!(answer_modexp(some(3), None, some(5), false), Answer::Refused));
    assert!(matches!(answer_modexp(some(3), some(4), None, false), Answer::Refused));
    assert!(matches!(answer_modexp(some(3), some(2), some(0), false), Answer::Refused));
}

#[test]
fn modred_command() {
    let run = |polynomial, relation| math(MathActions::Modred(ModredArgs { polynomial, relation }));
    assert!(matches!(run(0x100001, 0x1053), Answer::Number(0x21e)));
    assert!(matches!(run(0, 0), Answer::Number(0)));
    assert!(matches!(run(1, 0), Answer::Refused));
    assert!(matches!(run(1 << 64, 5), Answer::Refused));
    assert!(matches!(run(5, 1 << 64), Answer::Refused));
}

#[test]
fn gcd_and_factorisation_commands() {
    assert!(matches!(
        math(MathActions::Gcd(GcdArgs { a: 12, b: 18, ext: false })),
        Answer::Number(6)
    ));
    match math(MathActions::Gcd(GcdArgs { a: 240, b: 46, ext: true })) {
        Answer::SignedList(list) => {
            assert_eq!(list.len(), 3);
            assert_eq!(list[0], 2);
            assert_eq!(46 * list[1] + 240 * list[2], 2);
        },
        other => panic!("{:?}", other),
    }
    assert!(matches!(
        math(MathActions::Gcd(GcdArgs { a: u128::MAX, b: 46, ext: true })),
        Answer::Refused
    ));
    match math(MathActions::Factorize(FactorizeArgs { n: 360 })) {
        Answer::List(list) => assert_eq!(list, vec![2, 2, 2, 3, 3, 5]),
        other => panic!("{:?}", other),
    }
    match math(MathActions::Pm1(PM1Args { n: 1403, max_prime: 10 })) {
        Answer::List(list) => assert_eq!(list, vec![23, 61]),
        other => panic!("{:?}", other),
    }
    match math(MathActions::Pm1(PM1Args { n: 2, max_prime: 10 })) {
        Answer::Failure(text) => assert_eq!(text, "n too small: 2"),
        other => panic!("{:?}", other),
    }
    assert!(matches!(
        math(MathActions::Pm1(PM1Args { n: u128::MAX, max_prime: 10 })),
        Answer::Refused
    ));
}

#[test]
fn gallois_commands() {
    assert!(matches!(
        gallois(977, None, GalloisActions::Sqrt(GalloisSqrtArgs { a: 269 })),
        Answer::Pair(313, 664)
    ));
    assert!(matches!(
        gallois(977, None, GalloisActions::Sqrt(GalloisSqrtArgs { a: 5 })),
        Answer::NoRoot(_)
    ));
    assert!(matches!(
        gallois(2, None, GalloisActions::Sqrt(GalloisSqrtArgs { a: 1 })),
        Answer::Refused
    ));
    assert!(matches!(
        gallois(16, None, GalloisActions::Sqrt(GalloisSqrtArgs { a: 1 })),
        Answer::Refused
    ));
    assert!(matches!(
        gallois(977, None, GalloisActions::Reduce(GalloisReduceArgs { n: -1 })),
        Answer::Number(976)
    ));
    assert!(matches!(
        gallois(16, None, GalloisActions::Reduce(GalloisReduceArgs { n: 0x130 })),
        Answer::Number(0)
    ));
    assert!(matches!(
        gallois(16, None, GalloisActions::Reduce(GalloisReduceArgs { n: -1 })),
        Answer::Refused
    ));
    assert!(matches!(
        gallois(31, None, GalloisActions::Inverse(GalloisInverseArgs { n: 12 })),
        Answer::Number(13)
    ));
    match gallois(31, None, GalloisActions::Inverse(GalloisInverseArgs { n: 0 })) {
        Answer::NoInverse(e) => assert_eq!(e.n, 0),
        other => panic!("{:?}", other),
    }
    match gallois(31, None, GalloisActions::Inverse(GalloisInverseArgs { n: 62 })) {
        Answer::NoInverse(e) => assert_eq!(e.n, 62),
        other => panic!("{:?}", other),
    }
    assert!(matches!(
        gallois(31, None, GalloisActions::Inverse(GalloisInverseArgs { n: 31 + 12 })),
        Answer::Number(13)
    ));
    assert!(matches!(
        gallois(8, None, GalloisActions::Inverse(GalloisInverseArgs { n: 5 })),
        Answer::Refused
    ));
    match gallois(15, None, GalloisActions::Reduce(GalloisReduceArgs { n: 1 })) {
        Answer::InvalidField(e) => assert_eq!(e.base, 15),
        other => panic!("{:?}", other),
    }
    assert!(matches!(
        gallois(u128::MAX, None, GalloisActions::Reduce(GalloisReduceArgs { n: 1 })),
        Answer::Refused
    ));
}

#[test]
fn curve_commands() {
    let point = |r, s| ElipticCurvePoint::new(r, s);
    match ecc(13, 7, 11, ECCActions::Mul(ECCMulArgs { r: 4, s: 5, n: 4 })) {
        Answer::Point(p) => assert_eq!(p, point(4, 8)),
        other => panic!("{:?}", other),
    }
    match ecc(13, -3, 3, ECCActions::Add(ECCAddArgs { r1: 1, s1: 1, r2: 5, s2: 3 })) {
        Answer::Point(p) => assert_eq!(p, point(4, 4)),
        other => panic!("{:?}", other),
    }
    match ecc(13, -3, 3, ECCActions::Neg(ECCNegArgs { r: 1, s: 1 })) {
        Answer::Point(p) => assert_eq!(p, point(1, 12)),
        other => panic!("{:?}", other),
    }
    match ecc(13, -3, 3, ECCActions::Neg(ECCNegArgs { r: 0, s: 5 })) {
        Answer::Failure(text) => assert_eq!(text, "the point you want to create is not on the EC"),
        other => panic!("{:?}", other),
    }
    match ecc(13, -3, 3, ECCActions::Add(ECCAddArgs { r1: 1, s1: 1, r2: 0, s2: 5 })) {
        Answer::Failure(text) => assert_eq!(text, "the point you want to create is not on the EC"),
        other => panic!("{:?}", other),
    }
    match ecc(13, 7, 11, ECCActions::Mul(ECCMulArgs { r: 4, s: 5, n: 0 })) {
        Answer::Failure(text) => assert_eq!(text, "point multiplication works only if t > 0"),
        other => panic!("{:?}", other),
    }
    assert!(matches!(
        ecc(13, 7, 11, ECCActions::Mul(ECCMulArgs { r: 4, s: 5, n: u128::MAX })),
        Answer::Refused
    ));
    match ecc(7, 1, 2, ECCActions::Neg(ECCNegArgs { r: 0, s: 0 })) {
        Answer::NoCurve(text) => assert_eq!(text, "discriminant is zero"),
        other => panic!("{:?}", other),
    }
    match ecc(16, 1, 1, ECCActions::Neg(ECCNegArgs { r: 0, s: 0 })) {
        Answer::Failure(text) => assert_eq!(text, "Only prime fields are supported currently"),
        other => panic!("{:?}", other),
    }
}
