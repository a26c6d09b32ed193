//! Arithmetic in a prime field whose elements are fixed-width, little-endian
//! arrays of 64-bit limbs, with every operation proved against the integers
//! the limbs stand for.

pub mod fields;

pub use fields::prime::{Fp, FpConfig, PrimeField};
pub use fields::{Field, One, Zero};
