//! The answer to each command: what a front end has to show.

use vstd::prelude::*;
use num_bigint::BigInt;
use crate::algo::feistel0::{
    decrypt, decrypt_spec, encrypt, encrypt_spec, inner, inner_spec, key_scheduler, sbox,
    sbox_table,
};
use crate::binary::pbox6::{pbox6, pbox6_spec};
use crate::binary::{rotl32, rotl32_spec, rotr32, rotr32_spec, xor};
use crate::cplex::cli::{
    AlgoActions, BinaryActions, Cli, Commands, ECCAction, ECCActions, GalloisAction,
    GalloisActions, MathActions,
};
use crate::math::bigint::{big_eq, big_from_decimal, big_from_u128, big_lt, big_value, parsed_decimal};
use crate::math::ecc::{discriminant, infinity_point, ElipticCurve, ElipticCurvePoint};
use crate::math::factorise::{factorisation, prime_factors};
use crate::math::gallois::{
    chosen_relation, sqrt_spec, usable_relation, GalloisField, InvalidFieldError, NoInverseError,
    NoRootError,
};
use crate::math::gcd::{egcd, egcd_outcome, gcd, library_bezout};
use crate::math::modexp::{modular_exponentiation, pow_mod};
use crate::math::modred::{modred, modred_spec};
use crate::math::number::{gcd as gcd_spec, is_prime, PRIME_TEST_LIMIT};
use crate::math::pm1::{p_minus_one, pm1_spec, strictly_ascending};

verus! {

/// What the library answers to a command.
#[derive(Debug)]
pub enum Answer {
    /// A number.
    Number(u128),
    /// A number without bound.
    Big(BigInt),
    /// Two numbers: the square roots.
    Pair(u128, u128),
    /// A list of numbers.
    List(Vec<u128>),
    /// A list of numbers with signs.
    SignedList(Vec<i128>),
    /// A point of an elliptic curve.
    Point(ElipticCurvePoint),
    /// There is no inverse.
    NoInverse(NoInverseError),
    /// There is no square root.
    NoRoot(NoRootError),
    /// There is no such field.
    InvalidField(InvalidFieldError),
    /// There is no such curve; the text says why.
    NoCurve(String),
    /// The operation failed; the text says why.
    Failure(String),
    /// The arguments are outside of what the operation is defined for or
    /// what the machine can hold.
    Refused,
    /// The version was asked for: nothing to compute.
    Version,
}

/// The round keys that the key schedule gives.
pub open spec fn round_keys() -> Seq<u16> {
    seq![0xdeadu16, 0xc0ff, 0xee5a]
}

/// The answer to an operation on bits.
pub open spec fn answers_binary(action: BinaryActions, res: Answer) -> bool {
    match action {
        BinaryActions::Rotate(args) => res == Answer::Number(
            (if args.left {
                rotl32_spec(args.base, args.shift_width)
            } else {
                rotr32_spec(args.base, args.shift_width)
            }) as u128,
        ),
        BinaryActions::Xor(args) => res == Answer::Number(args.a ^ args.b),
        BinaryActions::Pbox(args) => res == Answer::Number(pbox6_spec(args.n) as u128),
    }
}

/// The answer to an operation of the toy cipher. The substitution box is
/// not asked beyond the index 0xe.
pub open spec fn answers_algo(action: AlgoActions, res: Answer) -> bool {
    match action {
        AlgoActions::Feistel0Inner(args) => res == Answer::Number(
            inner_spec(args.input, args.key) as u128,
        ),
        AlgoActions::Feistel0SBOX(args) => if args.index < 0xf {
            res == Answer::Number(sbox_table()[args.index as int] as u128)
        } else {
            res is Refused
        },
        AlgoActions::Feistel0(args) => res == Answer::Number(
            (if args.decrypt {
                decrypt_spec(args.input, round_keys())
            } else {
                encrypt_spec(args.input, round_keys())
            }) as u128,
        ),
    }
}

/// The answer to an exponentiation whose arguments have been read: refused
/// where one of them is no number, or where the modulus 0 would have to
/// divide.
pub open spec fn answers_modexp(
    base: Option<int>,
    exp: Option<int>,
    field: Option<int>,
    res: Answer,
) -> bool {
    if base is None || exp is None || field is None {
        res is Refused
    } else if exp.unwrap() >= 2 && field.unwrap() == 0 {
        res is Refused
    } else {
        res matches Answer::Big(value) && big_value(value) == pow_mod(
            base.unwrap(),
            exp.unwrap(),
            field.unwrap(),
        )
    }
}

/// The field that `GalloisField::new` makes of its arguments.
pub open spec fn field_of(base: u128, verbose: bool, relation: Option<u128>) -> GalloisField {
    GalloisField {
        base,
        cha: if is_prime(base as nat) {
            base
        } else {
            2
        },
        verbose,
        prime_base: is_prime(base as nat),
        relation: if is_prime(base as nat) {
            relation
        } else {
            chosen_relation(base, relation)
        },
    }
}

/// The curve that `ElipticCurve::new` makes of its arguments.
pub open spec fn curve_of(field: GalloisField, a: i128, b: i128, verbose: bool) -> ElipticCurve {
    ElipticCurve {
        field,
        a: field.reduce_spec(a as int) as u128,
        b: field.reduce_spec(b as int) as u128,
        verbose,
        INFINITY_POINT: infinity_point(),
    }
}

/// The point with the given coordinates.
pub open spec fn point_of(r: u128, s: u128) -> ElipticCurvePoint {
    ElipticCurvePoint { r, s, is_infinity_point: false }
}

/// The text for coordinates that are not on the curve.
pub open spec fn not_on_curve_text() -> Seq<char> {
    "the point you want to create is not on the EC"@
}

/// The answer to an operation on an elliptic curve over a well-formed
/// field. Only prime fields have curves here. The points come first: where
/// one is not on the curve, that is the answer.
pub open spec fn answers_ecc(field: GalloisField, ecc: ECCAction, verbose: bool, res: Answer) -> bool {
    if !field.prime_base {
        res matches Answer::Failure(msg) && msg@ == "Only prime fields are supported currently"@
    } else if field.reduce_spec(
        discriminant(field.reduce_spec(ecc.a as int), field.reduce_spec(ecc.b as int)),
    ) == 0 {
        res matches Answer::NoCurve(msg) && msg@ == "discriminant is zero"@
    } else {
        let curve = curve_of(field, ecc.a, ecc.b, verbose);
        match ecc.action {
            ECCActions::Neg(args) => if curve.on_curve(point_of(args.r, args.s)) {
                res == Answer::Point(curve.neg_spec(point_of(args.r, args.s)))
            } else {
                res matches Answer::Failure(msg) && msg@ == not_on_curve_text()
            },
            ECCActions::Add(args) => if curve.on_curve(point_of(args.r1, args.s1))
                && curve.on_curve(point_of(args.r2, args.s2)) {
                res == Answer::Point(
                    curve.add_spec(point_of(args.r1, args.s1), point_of(args.r2, args.s2)),
                )
            } else {
                res matches Answer::Failure(msg) && msg@ == not_on_curve_text()
            },
            ECCActions::Mul(args) => if !curve.on_curve(point_of(args.r, args.s)) {
                res matches Answer::Failure(msg) && msg@ == not_on_curve_text()
            } else if args.n > usize::MAX {
                res is Refused
            } else if args.n < 1 {
                res matches Answer::Failure(msg) && msg@
                    == "point multiplication works only if t > 0"@
            } else {
                res == Answer::Point(curve.mul_spec(point_of(args.r, args.s), args.n as nat))
            },
        }
    }
}

/// The answer to an operation in a Galois field. A base beyond the range
/// of the primality test is refused, and so is each operation outside of
/// what it is defined for.
pub open spec fn answers_gallois(gallois: GalloisAction, verbose: bool, res: Answer) -> bool {
    let base = gallois.field;
    if base > PRIME_TEST_LIMIT {
        res is Refused
    } else if !is_prime(base as nat) && !usable_relation(chosen_relation(base, gallois.relation)) {
        res matches Answer::InvalidField(e) && e.base == base
    } else {
        let field = field_of(base, verbose, gallois.relation);
        match gallois.action {
            GalloisActions::Sqrt(args) => if !field.prime_base || base < 3 {
                res is Refused
            } else {
                match sqrt_spec(args.a as nat, base as nat) {
                    Some(roots) => res == Answer::Pair(roots.0 as u128, roots.1 as u128),
                    None => res is NoRoot,
                }
            },
            GalloisActions::Reduce(args) => if field.prime_base || 0 <= args.n <= u64::MAX {
                res == Answer::Number(field.reduce_spec(args.n as int) as u128)
            } else {
                res is Refused
            },
            GalloisActions::Inverse(args) => if !field.inverse_defined(args.n) {
                res is Refused
            } else if !field.has_inverse(args.n as int) {
                res matches Answer::NoInverse(e) && e.n == args.n
            } else {
                res == Answer::Number(field.inverse_spec(args.n as int) as u128)
            },
            GalloisActions::ECC(ecc) => answers_ecc(field, ecc, verbose, res),
        }
    }
}

/// The answer to an operation of number theory.
pub open spec fn answers_math(action: MathActions, verbose: bool, res: Answer) -> bool {
    match action {
        MathActions::Modexp(args) => answers_modexp(
            parsed_decimal(args.base@),
            parsed_decimal(args.exp@),
            parsed_decimal(args.field@),
            res,
        ),
        MathActions::Modred(args) => if args.polynomial > u64::MAX || args.relation > u64::MAX || (
        args.relation == 0 && args.polynomial != 0) {
            res is Refused
        } else {
            res == Answer::Number(
                modred_spec(args.polynomial as u64, args.relation as u64) as u128,
            )
        },
        MathActions::Pm1(args) => if args.n > PRIME_TEST_LIMIT {
            res is Refused
        } else {
            match pm1_spec(args.n, args.max_prime) {
                Ok(set) => res matches Answer::List(list) && strictly_ascending(list@)
                    && list@.to_set() == set,
                Err(text) => res matches Answer::Failure(msg) && msg@ == text,
            }
        },
        MathActions::Gallois(gallois) => answers_gallois(gallois, verbose, res),
        MathActions::Gcd(args) => if !args.ext {
            res == Answer::Number(gcd_spec(args.a as nat, args.b as nat) as u128)
        } else if args.a > i128::MAX || args.b > i128::MAX {
            res is Refused
        } else {
            res matches Answer::SignedList(list) && egcd_outcome(args.a, args.b, list@)
        },
        MathActions::Factorize(args) => res matches Answer::List(list) && factorisation(
            args.n,
            list@,
        ),
    }
}

/// The answer to a request.
pub open spec fn answers(cli: Cli, res: Answer) -> bool {
    match cli.command {
        Commands::Math(command) => answers_math(command.action, cli.verbose, res),
        Commands::Binary(command) => answers_binary(command.action, res),
        Commands::Algo(command) => answers_algo(command.action, res),
        Commands::Version => res is Version,
    }
}

/// Answers an operation on bits.
pub fn answer_binary(action: &BinaryActions) -> (res: Answer)
    ensures
        answers_binary(*action, res),
{
    match action {
        BinaryActions::Rotate(args) => {
            if args.left {
                Answer::Number(rotl32(args.base, args.shift_width) as u128)
            } else {
                Answer::Number(rotr32(args.base, args.shift_width) as u128)
            }
        },
        BinaryActions::Xor(args) => Answer::Number(xor(args.a, args.b)),
        BinaryActions::Pbox(args) => Answer::Number(pbox6(args.n) as u128),
    }
}

/// Answers an operation of the toy cipher.
pub fn answer_algo(action: &AlgoActions, verbose: bool) -> (res: Answer)
    ensures
        answers_algo(*action, res),
{
    match action {
        AlgoActions::Feistel0Inner(args) => Answer::Number(
            inner(args.input, args.key, verbose) as u128,
        ),
        AlgoActions::Feistel0SBOX(args) => {
            if args.index < 0xf {
                Answer::Number(sbox(args.index) as u128)
            } else {
                Answer::Refused
            }
        },
        AlgoActions::Feistel0(args) => {
            let keys = key_scheduler(args.key);
            if args.decrypt {
                Answer::Number(decrypt(args.input, keys, verbose) as u128)
            } else {
                Answer::Number(encrypt(args.input, keys, verbose) as u128)
            }
        },
    }
}

/// Answers an exponentiation whose three arguments have been read from
/// text; an argument that was no number is `None`.
pub fn answer_modexp(base: Option<BigInt>, exp: Option<BigInt>, field: Option<BigInt>, verbose: bool) -> (res:
    Answer)
    ensures
        answers_modexp(
            match base {
                Some(b) => Some(big_value(b)),
                None => None,
            },
            match exp {
                Some(e) => Some(big_value(e)),
                None => None,
            },
            match field {
                Some(f) => Some(big_value(f)),
                None => None,
            },
            res,
        ),
{
    match (base, exp, field) {
        (Some(b), Some(e), Some(f)) => {
            let two = big_from_u128(2);
            let zero = big_from_u128(0);
            if !big_lt(&e, &two) && big_eq(&f, &zero) {
                Answer::Refused
            } else {
                Answer::Big(modular_exponentiation(b, e, f, verbose))
            }
        },
        _ => Answer::Refused,
    }
}

/// Answers an operation on an elliptic curve over the given field.
pub fn answer_ecc(field: GalloisField, ecc: &ECCAction, verbose: bool) -> (res: Answer)
    requires
        field.wf(),
    ensures
        answers_ecc(field, *ecc, verbose, res),
{
    if !field.prime_base {
        return Answer::Failure("Only prime fields are supported currently".to_owned());
    }
    let curve = match ElipticCurve::new(field, ecc.a, ecc.b, verbose) {
        Ok(curve) => curve,
        Err(msg) => {
            return Answer::NoCurve(msg);
        },
    };
    assert(curve == curve_of(field, ecc.a, ecc.b, verbose));
    match &ecc.action {
        ECCActions::Neg(args) => {
            match curve.new_point(args.r, args.s) {
                Ok(p) => Answer::Point(curve.neg(p)),
                Err(msg) => Answer::Failure(msg),
            }
        },
        ECCActions::Add(args) => {
            let first = curve.new_point(args.r1, args.s1);
            let second = curve.new_point(args.r2, args.s2);
            match (first, second) {
                (Ok(p1), Ok(p2)) => {
                    match curve.add(p1, p2) {
                        Ok(sum) => Answer::Point(sum),
                        Err(msg) => Answer::Failure(msg),
                    }
                },
                (Err(msg), _) => Answer::Failure(msg),
                (_, Err(msg)) => Answer::Failure(msg),
            }
        },
        ECCActions::Mul(args) => {
            match curve.new_point(args.r, args.s) {
                Ok(p) => {
                    if args.n > usize::MAX as u128 {
                        Answer::Refused
                    } else {
                        match curve.mul(p, args.n as usize) {
                            Ok(h) => Answer::Point(h),
                            Err(msg) => Answer::Failure(msg),
                        }
                    }
                },
                Err(msg) => Answer::Failure(msg),
            }
        },
    }
}

/// Answers an operation in a Galois field.
pub fn answer_gallois(gallois: &GalloisAction, verbose: bool) -> (res: Answer)
    ensures
        answers_gallois(*gallois, verbose, res),
{
    if gallois.field > PRIME_TEST_LIMIT as u128 {
        return Answer::Refused;
    }
    let field = match GalloisField::new(gallois.field, verbose, gallois.relation) {
        Ok(field) => field,
        Err(e) => {
            return Answer::InvalidField(e);
        },
    };
    assert(field == field_of(gallois.field, verbose, gallois.relation));
    match &gallois.action {
        GalloisActions::Sqrt(args) => {
            if !field.prime_base || field.base < 3 {
                Answer::Refused
            } else {
                match field.sqrt(args.a) {
                    Ok(roots) => Answer::Pair(roots.0, roots.1),
                    Err(e) => Answer::NoRoot(e),
                }
            }
        },
        GalloisActions::Reduce(args) => {
            if field.prime_base || (0 <= args.n && args.n <= u64::MAX as i128) {
                Answer::Number(field.reduce(args.n))
            } else {
                Answer::Refused
            }
        },
        GalloisActions::Inverse(args) => {
            match field.checked_inverse(args.n) {
                None => Answer::Refused,
                Some(Ok(inverse)) => Answer::Number(inverse),
                Some(Err(e)) => Answer::NoInverse(e),
            }
        },
        GalloisActions::ECC(ecc) => answer_ecc(field, ecc, verbose),
    }
}

/// Answers an operation of number theory.
pub fn answer_math(action: &MathActions, verbose: bool) -> (res: Answer)
    ensures
        answers_math(*action, verbose, res),
{
    match action {
        MathActions::Modexp(args) => {
            let base = big_from_decimal(args.base.as_str());
            let exp = big_from_decimal(args.exp.as_str());
            let field = big_from_decimal(args.field.as_str());
            answer_modexp(base, exp, field, verbose)
        },
        MathActions::Modred(args) => {
            if args.polynomial > u64::MAX as u128 || args.relation > u64::MAX as u128 || (
            args.relation == 0 && args.polynomial != 0) {
                Answer::Refused
            } else {
                match modred(args.polynomial as u64, args.relation as u64, verbose) {
                    Ok(reduced) => Answer::Number(reduced as u128),
                    Err(msg) => Answer::Failure(msg),
                }
            }
        },
        MathActions::Pm1(args) => {
            if args.n > PRIME_TEST_LIMIT as u128 {
                Answer::Refused
            } else {
                match p_minus_one(args.n, args.max_prime, verbose) {
                    Ok(list) => Answer::List(list),
                    Err(msg) => Answer::Failure(msg),
                }
            }
        },
        MathActions::Gallois(gallois) => answer_gallois(gallois, verbose),
        MathActions::Gcd(args) => {
            if !args.ext {
                Answer::Number(gcd(args.a, args.b))
            } else if args.a > i128::MAX as u128 || args.b > i128::MAX as u128 {
                Answer::Refused
            } else {
                Answer::SignedList(egcd(args.a, args.b))
            }
        },
        MathActions::Factorize(args) => Answer::List(prime_factors(args.n, verbose)),
    }
}

/// Answers a request: the command decides which part of the library
/// computes, and the switch `verbose` goes along.
pub fn answer(cli: &Cli) -> (res: Answer)
    ensures
        answers(*cli, res),
{
    match &cli.command {
        Commands::Math(command) => answer_math(&command.action, cli.verbose),
        Commands::Binary(command) => answer_binary(&command.action),
        Commands::Algo(command) => answer_algo(&command.action, cli.verbose),
        Commands::Version => Answer::Version,
    }
}

} // verus!
