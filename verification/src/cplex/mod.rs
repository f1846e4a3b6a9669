//! What a front end hands to the library, and what it gets back: the
//! commands with their arguments, and the answers.

pub mod cli;
pub mod answer;
