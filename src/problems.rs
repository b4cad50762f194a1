//! Solutions to numbered puzzles, one module each.
pub mod p0001;
pub mod p0002;
pub mod p0003;
pub mod p0031;
