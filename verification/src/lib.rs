//! Finite-field arithmetic and elliptic-curve algebra for cryptology
//! exercises.
//!
//! The core is in `math`: modular exponentiation by square and multiply,
//! reduction of binary polynomials, Euclid's algorithm, Galois fields with
//! inverses and square roots, and the group of points of an elliptic curve.
//! Around it stand a toy cipher (`algo`), a few operations on bits
//! (`binary`), and the commands of a front end with their answers (`cplex`).
//!
//! Every function carries a contract that Verus proves. What comes from
//! other crates (big integers, a primality test, bit vectors) is used through
//! small functions whose contracts are trusted; each says so.
//!
//! Nothing here is constant-time or hardened: the library is for study, not
//! for secrets.

pub mod math;
pub mod algo;
pub mod binary;
pub mod cplex;
pub mod text;
