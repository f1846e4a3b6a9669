//! The commands that the library answers, as plain values. A front end
//! fills them in from whatever its user typed.

use vstd::prelude::*;

verus! {

/// One request: a command and the two switches that every command takes.
#[derive(Debug, Clone)]
pub struct Cli {
    /// Which part of the library to use.
    pub command: Commands,
    /// Terse output for machines.
    pub machine: bool,
    /// Diagnostic output.
    pub verbose: bool,
}

/// The parts of the library.
#[derive(Debug, Clone)]
pub enum Commands {
    /// Number theory.
    Math(MathCommand),
    /// Operations on bits.
    Binary(BinaryCommand),
    /// Toy ciphers.
    Algo(AlgoCommand),
    /// The version of the program.
    Version,
}

/// A request for number theory.
#[derive(Clone, Debug, PartialEq, Eq)]
pub struct MathCommand {
    pub action: MathActions,
}

/// A request for an operation on bits.
#[derive(Clone, Debug, PartialEq, Eq)]
pub struct BinaryCommand {
    pub action: BinaryActions,
}

/// A request for a toy cipher.
#[derive(Clone, Debug, PartialEq, Eq)]
pub struct AlgoCommand {
    pub action: AlgoActions,
}

/// The operations of number theory.
#[derive(Clone, Debug, PartialEq, Eq)]
pub enum MathActions {
    /// Exponentiation under a modulus.
    Modexp(ModexpArgs),
    /// Reduction of a binary polynomial.
    Modred(ModredArgs),
    /// Factorisation by the p - 1 method.
    Pm1(PM1Args),
    /// Arithmetic in a Galois field, elliptic curves included.
    Gallois(GalloisAction),
    /// Euclid's algorithm.
    Gcd(GcdArgs),
    /// Factorisation of a natural number.
    Factorize(FactorizeArgs),
}

/// Base, exponent and modulus, each as decimal digits.
#[derive(Clone, Debug, PartialEq, Eq)]
pub struct ModexpArgs {
    pub base: String,
    pub exp: String,
    pub field: String,
}

/// A binary polynomial and the relation to reduce it by.
#[derive(Clone, Debug, PartialEq, Eq)]
pub struct ModredArgs {
    pub polynomial: u128,
    pub relation: u128,
}

/// The number to factorise and the greatest prime to try.
#[derive(Clone, Debug, PartialEq, Eq)]
pub struct PM1Args {
    pub n: u128,
    pub max_prime: u128,
}

/// A field, given by its base and perhaps a relation, and what to do in it.
#[derive(Clone, Debug, PartialEq, Eq)]
pub struct GalloisAction {
    pub field: u128,
    pub relation: Option<u128>,
    pub action: GalloisActions,
}

/// Two numbers, and whether the Bézout coefficients are wanted too.
#[derive(Clone, Debug, PartialEq, Eq)]
pub struct GcdArgs {
    /// First number.
    pub a: u128,
    /// Second number.
    pub b: u128,
    /// Use the extended algorithm.
    pub ext: bool,
}

/// The number to factorise.
#[derive(Clone, Debug, PartialEq, Eq)]
pub struct FactorizeArgs {
    pub n: u128,
}

/// The operations in a Galois field.
#[derive(Clone, Debug, PartialEq, Eq)]
pub enum GalloisActions {
    /// The square roots of a number.
    Sqrt(GalloisSqrtArgs),
    /// The element that a number stands for.
    Reduce(GalloisReduceArgs),
    /// The multiplicative inverse of a number.
    Inverse(GalloisInverseArgs),
    /// An elliptic curve over the field.
    ECC(ECCAction),
}

/// The number whose square roots are wanted.
#[derive(Clone, Debug, PartialEq, Eq)]
pub struct GalloisSqrtArgs {
    pub a: u128,
}

/// The number to reduce.
#[derive(Clone, Debug, PartialEq, Eq)]
pub struct GalloisReduceArgs {
    pub n: i128,
}

/// The number to invert.
#[derive(Clone, Debug, PartialEq, Eq)]
pub struct GalloisInverseArgs {
    pub n: u128,
}

/// An elliptic curve, given by its two coefficients, and what to do on it.
#[derive(Clone, Debug, PartialEq, Eq)]
pub struct ECCAction {
    pub a: i128,
    pub b: i128,
    pub action: ECCActions,
}

/// The operations on the points of an elliptic curve.
#[derive(Clone, Debug, PartialEq, Eq)]
pub enum ECCActions {
    /// The negative of a point.
    Neg(ECCNegArgs),
    /// The sum of two points.
    Add(ECCAddArgs),
    /// The multiple of a point, by double-and-add.
    Mul(ECCMulArgs),
}

/// The point to negate.
#[derive(Clone, Debug, PartialEq, Eq)]
pub struct ECCNegArgs {
    pub r: u128,
    pub s: u128,
}

/// The point to multiply, and the factor.
#[derive(Clone, Debug, PartialEq, Eq)]
pub struct ECCMulArgs {
    pub r: u128,
    pub s: u128,
    pub n: u128,
}

/// The two points to add.
#[derive(Clone, Debug, PartialEq, Eq)]
pub struct ECCAddArgs {
    pub r1: u128,
    pub s1: u128,
    pub r2: u128,
    pub s2: u128,
}

/// The operations on bits.
#[derive(Clone, Debug, PartialEq, Eq)]
pub enum BinaryActions {
    /// Rotation of 32 bits.
    Rotate(RotateArgs),
    /// Exclusive or.
    Xor(XorArgs),
    /// The permutation box.
    Pbox(PboxArgs),
}

/// The word to rotate, by how many places, and whether to the left.
#[derive(Clone, Debug, PartialEq, Eq)]
pub struct RotateArgs {
    pub left: bool,
    pub base: u32,
    pub shift_width: u32,
}

/// The two operands of an exclusive or.
#[derive(Clone, Debug, PartialEq, Eq)]
pub struct XorArgs {
    pub a: u128,
    pub b: u128,
}

/// The byte to permute.
#[derive(Clone, Debug, PartialEq, Eq)]
pub struct PboxArgs {
    pub n: u8,
}

/// The operations of the toy cipher.
#[derive(Clone, Debug, PartialEq, Eq)]
pub enum AlgoActions {
    /// The round function alone.
    Feistel0Inner(Feistel0InnerArgs),
    /// The substitution box alone.
    Feistel0SBOX(Feistel0SBOXArgs),
    /// The whole network.
    Feistel0(Feistel0Args),
}

/// Input and key of the round function.
#[derive(Clone, Debug, PartialEq, Eq)]
pub struct Feistel0InnerArgs {
    pub input: u16,
    pub key: u16,
}

/// Index into the substitution box.
#[derive(Clone, Debug, PartialEq, Eq)]
pub struct Feistel0SBOXArgs {
    pub index: u8,
}

/// A block, a key, and whether to decrypt.
#[derive(Clone, Debug, PartialEq, Eq)]
pub struct Feistel0Args {
    pub input: u32,
    pub key: u32,
    pub decrypt: bool,
}

} // verus!
