//! Arbitrary-precision decimal integers, and a few small numerical puzzles.
pub mod big_num;
pub mod laws;
pub mod problems;
