//! A counter-machine library: bijective Gödel numbering of register-machine
//! programs, and an evaluator for their operational semantics.
//!
//! All arithmetic is exact: numbers are the crate's own arbitrary-precision
//! naturals, so encodings such as `2^216 * 833` are represented without loss.

pub mod natural;
pub mod codec;
pub mod machine;
