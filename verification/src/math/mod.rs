//! Number theory, finite fields and elliptic curves.

pub mod number;
pub mod bigint;
pub mod modexp;
pub mod modred;
pub mod gcd;
pub mod gallois;
pub mod ecc;
pub mod curve_laws;
pub mod sqrt_laws;
pub mod factorise;
pub mod pm1;
