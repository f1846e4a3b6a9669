//! Toy ciphers. None of them is secure.

pub mod feistel0;
